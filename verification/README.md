# actdb

A small, synchronous, embedded key-value database. A database is one file that holds an
ordered byte keyspace in a copy-on-write B+ tree. Readers see stable snapshots, one write
transaction at a time publishes its changes atomically, and pages that no retained
generation needs are used again.

The library is verified with Verus.

- `src/model.rs`, `src/page.rs`, `src/node.rs`, `src/format.rs`: what pages hold, and the
  mathematical model of a tree over stored pages and nodes in memory.
- `src/tree.rs`, `src/insert.rs`, `src/remove.rs`, `src/finish.rs`, `src/publish.rs`: the
  tree of a write transaction and how it is put on pages.
- `src/share.rs`, `src/settle.rs`: how a node that has grown is cut, and how the nodes on the
  path to a removed entry are joined with their neighbours or evened out.
- `src/branch.rs`: trees whose internal nodes have several children, but for nodes on the
  right edge, and how shallow they are.
- `src/canonical.rs`, `src/spots.rs`: a tree made of rows alone, and the pages that it is put
  on.
- `src/free.rs`, `src/space.rs`, `src/plan.rs`, `src/commit.rs`: free pages and commits.
- `src/demand.rs`: how many pages a transaction needs, and how many the file has after a
  commit.
- `src/open.rs`, `src/recovery.rs`, `src/compact.rs`: opening, crashes and copies.
- `src/txn.rs`, `src/write.rs`, `src/db.rs`: the public interface.
- `src/io.rs`, `src/fault.rs`, `src/store.rs`, `src/cache.rs`: storage, storage that fails
  on demand, and the page cache.

`app/` puts the library on files and shares it between threads.
