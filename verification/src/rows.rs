//! What storing and removing entries means for the mapping from keys to values.
use crate::canonical::sorted_rows;
use crate::graft::{upserts, upserts_at};
use crate::insert::stored_form;
use crate::model::{map_of, read_value, rows_of, Env, Row};
use crate::node::{sorted_entries, Entry};
use crate::order::{group_order, lt};
use crate::reader::{found, lookup};
use crate::remove::{drops, drops_at};
use vstd::prelude::*;

verus! {

/// The mapping that entries stand for.
pub open spec fn contents_of(env: Env, entries: Seq<Entry>) -> Map<Seq<u8>, Seq<u8>> {
    map_of(rows_of(env, entries))
}

/// The mapping of sorted entries holds each of them.
pub proof fn lemma_contents(env: Env, entries: Seq<Entry>)
    requires
        sorted_entries(entries),
    ensures
        forall|i: int|
            0 <= i < entries.len() ==> contents_of(env, entries).contains_key(
                (#[trigger] entries[i]).key,
            ) && contents_of(env, entries)[entries[i].key] == read_value(
                env.pages,
                env.count,
                entries[i].value,
            )->0,
        forall|key: Seq<u8>| #[trigger]
            contents_of(env, entries).contains_key(key) ==> exists|i: int|
                0 <= i < entries.len() && (#[trigger] entries[i]).key == key,
{
    broadcast use group_order;

    let rows = rows_of(env, entries);
    assert forall|i: int| 0 <= i < entries.len() implies contents_of(env, entries).contains_key(
        (#[trigger] entries[i]).key,
    ) && contents_of(env, entries)[entries[i].key] == read_value(
        env.pages,
        env.count,
        entries[i].value,
    )->0 by {
        assert(rows[i].0 == entries[i].key);
        let j = choose|j: int| 0 <= j < rows.len() && (#[trigger] rows[j]).0 == entries[i].key;
        assert(rows[j].0 == entries[j].key);
        if i < j {
            assert(lt(entries[i].key, entries[j].key));
        } else if j < i {
            assert(lt(entries[j].key, entries[i].key));
        }
    }
    assert forall|key: Seq<u8>| #[trigger] contents_of(env, entries).contains_key(key) implies exists|
        i: int,
    |
        0 <= i < entries.len() && (#[trigger] entries[i]).key == key by {
        let j = choose|j: int| 0 <= j < rows.len() && (#[trigger] rows[j]).0 == key;
        assert(entries[j].key == key);
    }
}

/// Looking up a key in sorted entries is looking it up in the mapping.
pub proof fn law_lookup(env: Env, entries: Seq<Entry>, key: Seq<u8>)
    requires
        sorted_entries(entries),
        forall|i: int|
            0 <= i < entries.len() ==> read_value(
                env.pages,
                env.count,
                (#[trigger] entries[i]).value,
            ) is Some,
    ensures
        found(env.pages, env.count, Some(lookup(entries, key))) == Some(
            if contents_of(env, entries).contains_key(key) {
                Some(contents_of(env, entries)[key])
            } else {
                None
            },
        ),
{
    lemma_contents(env, entries);
    if exists|i: int| 0 <= i < entries.len() && (#[trigger] entries[i]).key == key {
        let i = choose|i: int| 0 <= i < entries.len() && (#[trigger] entries[i]).key == key;
        assert(entries[i].key == key);
    }
}

/// Storing a value under a key maps the key to the value and leaves every other key as it
/// was.
pub proof fn law_upsert(
    env: Env,
    other: Env,
    before: Seq<Entry>,
    after: Seq<Entry>,
    key: Seq<u8>,
    value: Seq<u8>,
)
    requires
        sorted_entries(before),
        sorted_entries(after),
        upserts(before, after, key, stored_form(value)),
        other.pages == env.pages,
        other.count == env.count,
    ensures
        contents_of(other, after) == contents_of(env, before).insert(key, value),
        after.len() == if contents_of(env, before).contains_key(key) {
            before.len()
        } else {
            before.len() + 1
        },
{
    broadcast use group_order;

    let stored = stored_form(value);
    let p = choose|p: int| upserts_at(before, after, key, stored, p);
    let old_map = contents_of(env, before);
    let new_map = contents_of(other, after);
    lemma_contents(env, before);
    lemma_contents(other, after);
    let replaced = p < before.len() && before[p].key == key;
    assert(after[p] == (Entry { key, value: stored }));
    if replaced {
        assert(after =~= before.update(p, Entry { key, value: stored })) by {
            if !(after == before.update(p, Entry { key, value: stored })) {
                assert(lt(key, before[p].key));
            }
        }
        assert(old_map.contains_key(before[p].key));
    } else {
        assert(after == before.insert(p, Entry { key, value: stored }));
        if old_map.contains_key(key) {
            let i = choose|i: int| 0 <= i < before.len() && (#[trigger] before[i]).key == key;
            if i < p {
                assert(lt(before[i].key, key));
            } else {
                assert(lt(key, before[i].key));
            }
        }
    }
    assert forall|k: Seq<u8>| #[trigger] new_map.contains_key(k) == old_map.insert(
        key,
        value,
    ).contains_key(k) by {
        if new_map.contains_key(k) {
            let i = choose|i: int| 0 <= i < after.len() && (#[trigger] after[i]).key == k;
            if k != key {
                let j = if replaced || i < p {
                    i
                } else {
                    i - 1
                };
                assert(i != p);
                assert(before[j] == after[i]);
            }
        }
        if old_map.contains_key(k) {
            let j = choose|j: int| 0 <= j < before.len() && (#[trigger] before[j]).key == k;
            let i = if replaced || j < p {
                j
            } else {
                j + 1
            };
            assert(after[i].key == k);
        }
        if k == key {
            assert(after[p].key == k);
        }
    }
    assert forall|k: Seq<u8>| #[trigger] new_map.contains_key(k) implies new_map[k] == old_map.insert(
        key,
        value,
    )[k] by {
        if k == key {
            assert(after[p].key == k);
        } else {
            let i = choose|i: int| 0 <= i < after.len() && (#[trigger] after[i]).key == k;
            let j = if replaced || i < p {
                i
            } else {
                i - 1
            };
            assert(i != p);
            assert(before[j] == after[i]);
            assert(old_map[before[j].key] == read_value(
                env.pages,
                env.count,
                before[j].value,
            )->0);
        }
    }
    assert(new_map =~= old_map.insert(key, value));
}

/// Removing a key unmaps it and leaves every other key as it was.
pub proof fn law_drop(env: Env, other: Env, before: Seq<Entry>, after: Seq<Entry>, key: Seq<u8>)
    requires
        sorted_entries(before),
        sorted_entries(after),
        drops(before, after, key),
        other.pages == env.pages,
        other.count == env.count,
    ensures
        contents_of(env, before).contains_key(key),
        contents_of(other, after) == contents_of(env, before).remove(key),
        after.len() == before.len() - 1,
{
    broadcast use group_order;

    let p = choose|p: int| drops_at(before, after, key, p);
    let old_map = contents_of(env, before);
    let new_map = contents_of(other, after);
    lemma_contents(env, before);
    lemma_contents(other, after);
    assert(before[p].key == key);
    assert forall|k: Seq<u8>| #[trigger] new_map.contains_key(k) == old_map.remove(key).contains_key(
        k,
    ) by {
        if new_map.contains_key(k) {
            let i = choose|i: int| 0 <= i < after.len() && (#[trigger] after[i]).key == k;
            let j = if i < p {
                i
            } else {
                i + 1
            };
            assert(before[j] == after[i]);
            if j < p {
                assert(lt(before[j].key, before[p].key));
            } else {
                assert(lt(before[p].key, before[j].key));
            }
        }
        if old_map.remove(key).contains_key(k) {
            let j = choose|j: int| 0 <= j < before.len() && (#[trigger] before[j]).key == k;
            assert(j != p);
            let i = if j < p {
                j
            } else {
                j - 1
            };
            assert(after[i] == before[j]);
        }
    }
    assert forall|k: Seq<u8>| #[trigger] new_map.contains_key(k) implies new_map[k]
        == old_map.remove(key)[k] by {
        let i = choose|i: int| 0 <= i < after.len() && (#[trigger] after[i]).key == k;
        let j = if i < p {
            i
        } else {
            i + 1
        };
        assert(before[j] == after[i]);
        assert(old_map[before[j].key] == read_value(env.pages, env.count, before[j].value)->0);
    }
    assert(new_map =~= old_map.remove(key));
}

/// The mapping of rows in key order has exactly the keys of the rows, and maps each of them to
/// the value beside it: a lookup and a scan agree.
pub proof fn law_mapping_is_the_rows(rows: Seq<Row>, key: Seq<u8>, value: Seq<u8>)
    requires
        sorted_rows(rows),
    ensures
        rows.contains((key, value)) <==> map_of(rows).contains_key(key) && map_of(rows)[key]
            == value,
        map_of(rows).contains_key(key) <==> exists|i: int|
            0 <= i < rows.len() && (#[trigger] rows[i]).0 == key,
{
    broadcast use group_order;

    if map_of(rows).contains_key(key) {
        let j = choose|j: int| 0 <= j < rows.len() && (#[trigger] rows[j]).0 == key;
        assert(rows[j] == (key, map_of(rows)[key]));
        if rows.contains((key, value)) {
            let i = choose|i: int| 0 <= i < rows.len() && rows[i] == (key, value);
            if i < j {
                assert(lt(rows[i].0, rows[j].0));
            } else if j < i {
                assert(lt(rows[j].0, rows[i].0));
            }
        }
    }
    if rows.contains((key, value)) {
        let i = choose|i: int| 0 <= i < rows.len() && rows[i] == (key, value);
        assert(rows[i].0 == key);
    }
}

} // verus!
