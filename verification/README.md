# superfile_fts

Two parts of compacting a full-text index, written in Verus.

**Choosing a document order.** `reorder::bisect_order` computes the order to store documents in, by
recursive graph bisection: documents that share terms end up neighbours, so posting lists have
smaller gaps. What it computes is stated in `bisection`, and `bisection_laws` holds what follows:
the order is a permutation, a corpus with nothing to gain keeps its order, a settled split stays,
the numbers that terms go by do not matter. `reorder::bisect` returns with the order what became of
the partitions that were split in parallel.

**Merging sorted dictionaries.** `sorted_merge::merge_column` merges one column of several indexes
term by term: a k-way walk over the dictionaries (`term_walk`), batches of terms read, remapped,
sorted and encoded in parallel, and their outputs written in term order. What a merge comes to is
stated in `term_merge` (which terms, with which inputs), `term_work` (what stays of a term's
postings, and in which order), `merge_job` (what is encoded and written, what becomes of the worker
states, and what an error means) and `counts` (what is counted); `merge_laws`, `posting_laws`,
`column_laws`, `term_laws` and `input_order` hold what follows.

A batch is cut into tasks. As many of them as there are threads run at once, each with a worker that
is moved into the task and comes back with its results, and the tasks after them take those workers
again. So every state given is handed back at its place, after the encodings of its share of the
terms, and new ones are made only where more tasks run at once than there are states.
`merge_column_on` takes the number of threads; `merge_column` asks rayon for it.

## What is not proved

Costs are single-precision numbers, held as bit patterns. The arithmetic on them is a function that
the caller supplies; all that is asked of it is that it has one answer to each question.

An index is reached through the trait `dictionary::FtsReader`, of which nothing is claimed: a read
may fail, and what the merge relies on of a read that succeeds is asked for in `merge_column`'s
`requires`.

How many scratch states the parallel splits make is up to how the threads run; that a split puts its
state back is not stated, only that what the pool holds is clean. How much memory a merge takes at
its peak is not stated either.

`parallel` holds the functions of std and rayon that the library calls: `rayon::join`,
`rayon::current_num_threads`, rayon's parallel maps and sort, std's sorts and `std::str::from_utf8`.
Their contracts are believed.
`bytes::Bytes` is carried through unopened.

## Layout

- `src/`: the verified library
- `tests/`: its tests
- `app/`: entry points in ordinary Rust, with the floating-point arithmetic, with callbacks that
  take their state by mutable reference, and with what was counted recorded for tracing
