# Chisel

Chisel is a transactional, slot-based storage engine. A value is stored under a
handle that stays the same however often the value is replaced or moved. Changes
are made in transactions; a commit makes all of them durable, a rollback none.

`src/` is the library, verified with Verus:

- pages: `page` (checksums, types, versions), `data_page` (slots with small values),
  `overflow` (chains of pages for large values), `bytes`, `text`;
- storage: `page_io` (the pages of the storage and a journal of what is done to
  them), `page_cache`, `lru`, `spillway`;
- trees of pages, copied on write: `radix`, `spine`, `graft`, `forest`, `listing`,
  with `handle_table` (handles to places), `radix_u64` and `membership_index`
  (tags to handles), `freemap` and `freemap_tree` (free pages);
- where new pages come from: `page_source`, `recycler`;
- the state of a database: `store` (what the pages stand for), `pool`, `workspace`,
  with the changes `placement`, `entries`, `tagging`, `release`, `operations`,
  `names`;
- durability: `superblock`, `persist`, `commit`, `opening`, and the check of pages
  that were opened: `inspect`, `audit`, `audit_values`, `audit_all`, `orphans`;
- `transaction` (transactions and savepoints), `defrag`, and `chisel`, the interface;
- `handle`, `options`, `stats`, `error`, `crypto`, `fx`.

The functions that contracts are written over: `Chisel::db` is what every handle
stands for (value, tag and byte), `Chisel::names` what the root names stand for. The
laws (`law_...` in `transaction`) say that storage which is opened again holds what
was committed last, whatever part of a later commit reached it.

`app/` puts a database into a file: it reads the pages, hands them to the library,
and carries out the journal. `tests/` runs the library.
