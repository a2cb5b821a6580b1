# bplus_engine

A storage engine on a B+ tree, with a SQL front end, written in Verus: the
functions carry contracts, and Verus proves them.

- `src/storage/` holds the engine. `slotted_page` and `header` are the bytes of
  pages, `buffer_pool`, `paging`, `index` and `heap` the two files with their
  pools, `wal` and `wal_buffer` the write-ahead log, `pager` and `recovery` what
  ties them together, and `bplus_tree` the tree. The tree is modelled in
  `tree_model`, and `tree_layout` says how its pages lie after splits, mergers and
  moved cells; `tree_steps` and `tree_paths` prove that these keep it.
  `recovery_history` proves that recovery brings back what was logged, but for the
  changes of transactions that have not ended. `recovery_laws` proves that it leads
  to the same files when it is started again: after it has ended, after a crash that
  has left some of its compensation records in the log, and, where no two
  transactions changed the same byte, after one that has left the ends of some
  transactions there, too. The log is the one that is found when its file is opened:
  the whole records, up to a torn one.
- `src/sql/` holds the front end. `reader` reads what the crate `sqlparser`
  returns into the plain values of `raw`, `parser` makes statements of them, and
  `meaning` says which ones. `laws` states what holds of statements.
- `tests/` runs the library, `app/` puts it on files.

What is not proved is what the trusted items say: in `sql::reader` of the types of
`sqlparser`, in `sql::text` of two functions of `std`.
