//! Lexicographic order on byte strings, the order of the keyspace.
use vstd::prelude::*;

verus! {

/// Whether `a` comes strictly before `b`: at the first byte where they differ
/// `a` has the smaller one, or `a` is a proper prefix of `b`.
#[verifier::opaque]
pub open spec fn lt(a: Seq<u8>, b: Seq<u8>) -> bool
    decreases a.len(),
{
    if b.len() == 0 {
        false
    } else if a.len() == 0 {
        true
    } else if a[0] != b[0] {
        a[0] < b[0]
    } else {
        lt(a.drop_first(), b.drop_first())
    }
}

/// Whether `a` comes before `b` or equals it.
pub open spec fn le(a: Seq<u8>, b: Seq<u8>) -> bool {
    a == b || lt(a, b)
}

/// No byte string comes before itself.
pub broadcast proof fn lemma_lt_irreflexive(a: Seq<u8>)
    ensures
        !(#[trigger] lt(a, a)),
    decreases a.len(),
{
    reveal(lt);
    if a.len() > 0 {
        lemma_lt_irreflexive(a.drop_first());
    }
}

/// The order is transitive.
pub broadcast proof fn lemma_lt_transitive(a: Seq<u8>, b: Seq<u8>, c: Seq<u8>)
    requires
        #[trigger] lt(a, b),
        #[trigger] lt(b, c),
    ensures
        lt(a, c),
    decreases a.len(),
{
    reveal(lt);
    if a.len() > 0 && a[0] == b[0] && b[0] == c[0] {
        lemma_lt_transitive(a.drop_first(), b.drop_first(), c.drop_first());
    }
}

/// Of two different byte strings, one comes before the other.
pub broadcast proof fn lemma_lt_total(a: Seq<u8>, b: Seq<u8>)
    ensures
        #[trigger] lt(a, b) || a == b || lt(b, a),
    decreases a.len(),
{
    reveal(lt);
    if a.len() == 0 && b.len() == 0 {
        assert(a =~= b);
    } else if a.len() > 0 && b.len() > 0 && a[0] == b[0] {
        lemma_lt_total(a.drop_first(), b.drop_first());
        if a.drop_first() == b.drop_first() {
            assert(a =~= seq![a[0]] + a.drop_first());
            assert(b =~= seq![b[0]] + b.drop_first());
        }
    }
}

/// The order is asymmetric.
pub broadcast proof fn lemma_lt_asymmetric(a: Seq<u8>, b: Seq<u8>)
    requires
        #[trigger] lt(a, b),
    ensures
        !lt(b, a),
{
    if lt(b, a) {
        lemma_lt_transitive(a, b, a);
        lemma_lt_irreflexive(a);
    }
}

pub broadcast group group_order {
    lemma_lt_irreflexive,
    lemma_lt_transitive,
    lemma_lt_total,
    lemma_lt_asymmetric,
}

/// Byte strings that agree before `i` are ordered as what follows is.
proof fn lemma_lt_skip(a: Seq<u8>, b: Seq<u8>, i: int)
    requires
        0 <= i <= a.len(),
        i <= b.len(),
        forall|j: int| 0 <= j < i ==> a[j] == b[j],
    ensures
        lt(a, b) == lt(a.skip(i), b.skip(i)),
    decreases i,
{
    if i == 0 {
        assert(a.skip(0) =~= a);
        assert(b.skip(0) =~= b);
    } else {
        reveal(lt);
        assert(a[0] == b[0]);
        lemma_lt_skip(a.drop_first(), b.drop_first(), i - 1);
        assert(a.drop_first().skip(i - 1) =~= a.skip(i));
        assert(b.drop_first().skip(i - 1) =~= b.skip(i));
    }
}

/// One byte string comes before another exactly where the two agree up to some position, and
/// there either the first one ends and the other does not, or the first one has the smaller
/// byte.
pub proof fn law_lexicographic(a: Seq<u8>, b: Seq<u8>)
    ensures
        lt(a, b) <==> exists|i: int|
            0 <= i <= a.len() && i <= b.len() && (#[trigger] a.take(i)) == b.take(i) && (i == a.len()
                < b.len() || (i < a.len() && i < b.len() && a[i] < b[i])),
    decreases a.len(),
{
    let i = lemma_agreement(a, b);
    assert(a.take(i) =~= b.take(i));
    lemma_lt_skip(a, b, i);
    reveal(lt);
    assert(i < a.len() ==> a.skip(i)[0] == a[i]);
    assert(i < b.len() ==> b.skip(i)[0] == b[i]);
    if exists|j: int|
        0 <= j <= a.len() && j <= b.len() && (#[trigger] a.take(j)) == b.take(j) && (j == a.len()
            < b.len() || (j < a.len() && j < b.len() && a[j] < b[j])) {
        let j = choose|j: int|
            0 <= j <= a.len() && j <= b.len() && (#[trigger] a.take(j)) == b.take(j) && (j
                == a.len() < b.len() || (j < a.len() && j < b.len() && a[j] < b[j]));
        if i < j {
            assert(a.take(j)[i] == b.take(j)[i]);
        }
        if j < i {
            assert(a.take(i)[j] == b.take(i)[j]);
        }
    }
}

/// The position where two byte strings stop agreeing.
proof fn lemma_agreement(a: Seq<u8>, b: Seq<u8>) -> (i: int)
    ensures
        0 <= i <= a.len(),
        i <= b.len(),
        forall|j: int| 0 <= j < i ==> a[j] == b[j],
        i < a.len() && i < b.len() ==> a[i] != b[i],
    decreases a.len(),
{
    if a.len() == 0 || b.len() == 0 || a[0] != b[0] {
        0
    } else {
        let rest = lemma_agreement(a.drop_first(), b.drop_first());
        assert forall|j: int| 0 <= j < rest + 1 implies a[j] == b[j] by {
            if j > 0 {
                assert(a.drop_first()[j - 1] == b.drop_first()[j - 1]);
            }
        }
        rest + 1
    }
}

/// A byte string comes before every other that extends it, and before every other that has a
/// larger byte where the two first differ.
pub proof fn law_prefix_first(prefix: Seq<u8>, rest: Seq<u8>, other: Seq<u8>)
    requires
        rest.len() > 0,
    ensures
        lt(prefix, prefix + rest),
        !lt(prefix + rest, prefix),
        other.len() > 0 && rest[0] < other[0] ==> lt(prefix + rest, prefix + other),
{
    let n = prefix.len() as int;
    law_lexicographic(prefix, prefix + rest);
    assert(prefix.take(n) =~= (prefix + rest).take(n));
    lemma_lt_asymmetric(prefix, prefix + rest);
    law_lexicographic(prefix + rest, prefix + other);
    assert((prefix + rest).take(n) =~= (prefix + other).take(n));
}

/// The keys that start with a prefix are exactly those from the prefix on that come before the
/// prefix with its last byte raised by one.
pub proof fn law_prefix_range(prefix: Seq<u8>, key: Seq<u8>)
    requires
        prefix.len() > 0,
        prefix.last() < u8::MAX,
    ensures
        (prefix.len() <= key.len() && key.take(prefix.len() as int) == prefix) <==> !lt(key, prefix)
            && lt(key, prefix.drop_last().push((prefix.last() + 1) as u8)),
{
    let n = prefix.len() as int;
    let end = prefix.drop_last().push((prefix.last() + 1) as u8);
    law_lexicographic(key, prefix);
    law_lexicographic(key, end);
    if n <= key.len() && key.take(n) == prefix {
        assert forall|j: int| 0 <= j < n implies key[j] == prefix[j] by {
            assert(key.take(n)[j] == prefix[j]);
        }
        assert(key.take(n - 1) =~= end.take(n - 1));
        if lt(key, prefix) {
            let i = choose|i: int|
                0 <= i <= key.len() && i <= prefix.len() && (#[trigger] key.take(i)) == prefix.take(
                    i,
                ) && (i == key.len() < prefix.len() || (i < key.len() && i < prefix.len() && key[i]
                    < prefix[i]));
            assert(false);
        }
    } else if lt(key, end) && !lt(key, prefix) {
        let i = choose|i: int|
            0 <= i <= key.len() && i <= end.len() && (#[trigger] key.take(i)) == end.take(i) && (i
                == key.len() < end.len() || (i < key.len() && i < end.len() && key[i] < end[i]));
        assert(end.take(i) =~= prefix.take(i)) by {
            assert(i <= n - 1);
        }
        if i == key.len() || i < n - 1 || key[i] < prefix[i] {
            assert(key.take(i) == prefix.take(i));
        } else {
            assert(key[i] == prefix[i]);
            assert forall|j: int| 0 <= j < n implies key[j] == prefix[j] by {
                if j < i {
                    assert(key.take(i)[j] == prefix.take(i)[j]);
                }
            }
            assert(key.take(n) =~= prefix);
        }
    }
}

/// How one byte string stands to another.
#[derive(Clone, Copy, PartialEq, Eq, Structural, Debug)]
pub enum Order {
    /// It comes before the other.
    Less,
    /// The two are equal.
    Equal,
    /// It comes after the other.
    Greater,
}

/// Compares two byte strings lexicographically.
pub fn compare(a: &[u8], b: &[u8]) -> (order: Order)
    ensures
        order == Order::Less <==> lt(a@, b@),
        order == Order::Equal <==> a@ == b@,
        order == Order::Greater <==> lt(b@, a@),
        order == Order::Less <==> exists|i: int|
            0 <= i <= a@.len() && i <= b@.len() && (#[trigger] a@.take(i)) == b@.take(i) && (i
                == a@.len() < b@.len() || (i < a@.len() && i < b@.len() && a@[i] < b@[i])),
{
    broadcast use group_order;

    let mut i: usize = 0;
    while i < a.len() && i < b.len()
        invariant
            i <= a@.len(),
            i <= b@.len(),
            forall|j: int| 0 <= j < i ==> a@[j] == b@[j],
        decreases a@.len() - i,
    {
        let x = a[i];
        let y = b[i];
        if x != y {
            proof {
                lemma_lt_skip(a@, b@, i as int);
                lemma_lt_skip(b@, a@, i as int);
                reveal(lt);
                assert(a@.skip(i as int)[0] == x);
                assert(b@.skip(i as int)[0] == y);
                law_lexicographic(a@, b@);
            }
            return if x < y { Order::Less } else { Order::Greater };
        }
        i += 1;
    }
    proof {
        lemma_lt_skip(a@, b@, i as int);
        lemma_lt_skip(b@, a@, i as int);
        reveal(lt);
        law_lexicographic(a@, b@);
        if a@.len() == b@.len() {
            assert(a@ =~= b@);
        }
    }
    if i < b.len() {
        Order::Less
    } else if i < a.len() {
        Order::Greater
    } else {
        Order::Equal
    }
}

} // verus!
