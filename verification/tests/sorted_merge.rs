//! Merging columns of indexes held in memory.
use std::collections::BTreeMap;
use std::sync::atomic::{AtomicUsize, Ordering};

use bytes::Bytes;
use rand::{rngs::StdRng, RngExt, SeedableRng};
use superfile_fts::batch::{
    Batch, BatchLimits, BATCH_POSTING_BYTES, BATCH_TERMS, TASK_TERMS,
};
use superfile_fts::dictionary::{FstValue, FtsError, FtsReader, Posting, TERMS_PER_CHUNK};
use superfile_fts::errors::BuildError;
use superfile_fts::merge_job::{SortedInput, TermRuns};
use superfile_fts::counts::MergeCounts;
use superfile_fts::sorted_merge::{
    cut, into_states, merge_column, merge_column_on, with_workers, write_term, BatchWork,
};
use superfile_fts::term_work::{FtsDocId, TermWork};

const COLUMN: u32 = 7;

/// A posting as a test writes it: document, frequency, positions.
type Row = (u32, u32, Vec<u32>);

/// What is written for a term: its postings, with their positions decoded again.
type Written = Vec<(String, Vec<Row>)>;

/// One column of an index, held in memory.
#[derive(Default)]
struct MemIndex {
    terms: BTreeMap<Vec<u8>, Vec<Row>>,
    /// The dictionary cannot be fetched.
    no_dict: bool,
    /// Which read of the dictionary's terms fails, counted from one.
    failing_chunk: usize,
    chunks_read: AtomicUsize,
    /// The term whose postings cannot be read.
    unreadable: Option<Vec<u8>>,
}

fn failure(message: &str) -> FtsError {
    FtsError {
        message: message.to_string(),
    }
}

impl FtsReader for MemIndex {
    fn dict_bytes(&self) -> Result<Bytes, FtsError> {
        if self.no_dict {
            return Err(failure("no dictionary"));
        }
        Ok(Bytes::from_static(b"dictionary"))
    }

    fn column_terms_from(
        &self,
        fst_bytes: &Bytes,
        column_id: u32,
        resume: &Vec<u8>,
        limit: usize,
    ) -> Result<Vec<(Vec<u8>, FstValue)>, FtsError> {
        assert_eq!(&fst_bytes[..], b"dictionary");
        assert_eq!(column_id, COLUMN);
        assert_eq!(limit, TERMS_PER_CHUNK);
        if self.chunks_read.fetch_add(1, Ordering::SeqCst) + 1 == self.failing_chunk {
            return Err(failure("torn dictionary"));
        }
        Ok(self
            .terms
            .range(resume.clone()..)
            .take(limit)
            .map(|(term, rows)| (term.clone(), value_of(term, rows)))
            .collect())
    }

    fn postings_in(
        &self,
        column_id: u32,
        term: &[u8],
        value: FstValue,
    ) -> Result<Vec<Posting>, FtsError> {
        assert_eq!(column_id, COLUMN);
        if self.unreadable.as_deref() == Some(term) {
            return Err(failure("torn postings"));
        }
        let rows = &self.terms[term];
        assert_eq!(value, value_of(term, rows));
        Ok(rows
            .iter()
            .map(|(doc, tf, positions)| Posting {
                doc: *doc,
                tf: *tf,
                positions: positions.clone(),
            })
            .collect())
    }
}

/// A dictionary value that tells terms apart. Short terms are packed and announce no length.
fn value_of(term: &[u8], rows: &[Row]) -> FstValue {
    let key = term.iter().fold(17u64, |h, &b| h.wrapping_mul(31).wrapping_add(u64::from(b)));
    if term.len() % 2 == 1 {
        FstValue::Packed(key)
    } else {
        FstValue::Pfor {
            postings_offset: key,
            postings_length_hint: (term.len() % 3 > 0).then_some(rows.len() as u32 * 64),
        }
    }
}

fn index(terms: &[(&str, &[Row])]) -> MemIndex {
    MemIndex {
        terms: terms
            .iter()
            .map(|(term, rows)| (term.as_bytes().to_vec(), rows.to_vec()))
            .collect(),
        ..MemIndex::default()
    }
}

fn remap(docs: &[Option<u32>]) -> Vec<Option<FtsDocId>> {
    docs.iter().map(|d| d.map(FtsDocId::new)).collect()
}

fn input(fts: MemIndex, docs: &[Option<u32>]) -> SortedInput<MemIndex> {
    SortedInput {
        fts: Some(fts),
        remap: remap(docs),
    }
}

/// Limits small enough that a few terms cross every boundary.
fn tiny() -> BatchLimits {
    BatchLimits {
        terms: 3,
        posting_bytes: 256,
        task_terms: 2,
    }
}

/// Decode each posting's run. A term named `unencodable` has no output.
fn encode(
    state: u64,
    pairs: &[(u32, u32)],
    runs: TermRuns<'_>,
) -> (u64, Result<Vec<Row>, BuildError>) {
    let TermRuns::Values { values, starts } = runs;
    assert_eq!(pairs.len(), starts.len());
    let mut ends: Vec<usize> = starts.to_vec();
    ends.push(values.len());
    ends.sort_unstable();
    let mut rows = Vec::new();
    for (&(doc, tf), &start) in pairs.iter().zip(starts) {
        let end = match tf {
            0 => start,
            _ => *ends.iter().find(|&&e| e > start).unwrap_or(&start),
        };
        let mut at = 0;
        let mut positions = Vec::new();
        for &gap in &values[start..end] {
            at += gap;
            positions.push(at);
        }
        rows.push((doc, tf, positions));
    }
    (state + pairs.len() as u64, Ok(rows))
}

fn write(mut sink: Written, term: &str, rows: Vec<Row>) -> (Written, Result<(), BuildError>) {
    sink.push((term.to_string(), rows));
    (sink, Ok(()))
}

fn merge_with(inputs: &[SortedInput<MemIndex>], limits: &BatchLimits) -> (Written, Vec<u64>) {
    let mut states = vec![0u64];
    let (sink, result) = merge_column(
        inputs,
        COLUMN,
        limits,
        &mut states,
        || 0u64,
        encode,
        Vec::new(),
        write,
    );
    assert!(result.is_ok(), "{result:?}");
    (sink, states)
}

/// The merge, worked out directly.
fn expected(inputs: &[SortedInput<MemIndex>]) -> Written {
    let mut all: BTreeMap<Vec<u8>, Vec<Row>> = BTreeMap::new();
    for input in inputs {
        for (term, rows) in &input.fts.as_ref().expect("index").terms {
            for (doc, tf, positions) in rows {
                if let Some(out) = input.remap[*doc as usize] {
                    all.entry(term.clone())
                        .or_default()
                        .push((out.get(), *tf, positions.clone()));
                }
            }
        }
    }
    all.into_iter()
        .map(|(term, mut rows)| {
            rows.sort();
            (String::from_utf8(term).expect("text"), rows)
        })
        .collect()
}

fn io_message<A: std::fmt::Debug>(result: Result<A, BuildError>) -> String {
    match result {
        Err(BuildError::Io(message)) => message,
        other => panic!("{other:?}"),
    }
}

/// An index with one document, which every one of `terms` occurs in once.
fn one_document(terms: &[&str]) -> SortedInput<MemIndex> {
    let rows: [Row; 1] = [(0, 1, vec![0])];
    let terms: Vec<(&str, &[Row])> = terms.iter().map(|term| (*term, &rows[..])).collect();
    input(index(&terms), &[Some(0)])
}

#[test]
fn terms_of_all_inputs_merge_in_term_order() {
    let a = index(&[
        ("apple", &[(0, 2, vec![3, 5]), (1, 1, vec![0])]),
        ("pear", &[(1, 1, vec![7])]),
    ]);
    let b = index(&[
        ("apple", &[(0, 3, vec![1, 2, 10])]),
        ("fig", &[(0, 1, vec![4])]),
    ]);
    let inputs = [
        input(a, &[Some(0), Some(1)]),
        input(b, &[Some(2)]),
    ];
    let (written, _) = merge_with(&inputs, &BatchLimits::default());
    assert_eq!(
        written,
        vec![
            (
                "apple".to_string(),
                vec![
                    (0, 2, vec![3, 5]),
                    (1, 1, vec![0]),
                    (2, 3, vec![1, 2, 10]),
                ],
            ),
            ("fig".to_string(), vec![(2, 1, vec![4])]),
            ("pear".to_string(), vec![(1, 1, vec![7])]),
        ]
    );
}

#[test]
fn postings_out_of_order_are_sorted_with_their_runs() {
    let a = index(&[("t", &[(0, 1, vec![9]), (1, 2, vec![1, 4]), (2, 1, vec![6])])]);
    let b = index(&[("t", &[(0, 3, vec![0, 1, 2])])]);
    let inputs = [
        input(a, &[Some(30), Some(10), Some(20)]),
        input(b, &[Some(15)]),
    ];
    let (written, _) = merge_with(&inputs, &tiny());
    assert_eq!(
        written,
        vec![(
            "t".to_string(),
            vec![
                (10, 2, vec![1, 4]),
                (15, 3, vec![0, 1, 2]),
                (20, 1, vec![6]),
                (30, 1, vec![9]),
            ],
        )]
    );
}

#[test]
fn a_term_whose_every_posting_was_deleted_leaves_the_output() {
    let a = index(&[
        ("gone", &[(0, 1, vec![1])]),
        ("kept", &[(0, 1, vec![2]), (1, 1, vec![3])]),
    ]);
    let b = index(&[("gone", &[(0, 1, vec![5])])]);
    let inputs = [input(a, &[None, Some(4)]), input(b, &[None])];
    let (written, _) = merge_with(&inputs, &tiny());
    assert_eq!(
        written,
        vec![("kept".to_string(), vec![(4, 1, vec![3])])]
    );
}

#[test]
fn runs_hold_the_first_position_and_then_the_gaps() {
    let a = index(&[("t", &[(0, 3, vec![3, 5, 9]), (1, 1, vec![8])])]);
    let inputs = [input(a, &[Some(1), Some(0)])];
    let mut states: Vec<()> = Vec::new();
    let (seen, result) = merge_column(
        &inputs,
        COLUMN,
        &BatchLimits::default(),
        &mut states,
        || (),
        |state: (), pairs: &[(u32, u32)], runs: TermRuns<'_>| {
            let TermRuns::Values { values, starts } = runs;
            (state, Ok((pairs.to_vec(), values.to_vec(), starts.to_vec())))
        },
        Vec::new(),
        |mut sink: Vec<(Vec<(u32, u32)>, Vec<u32>, Vec<usize>)>, _term: &str, out| {
            sink.push(out);
            (sink, Ok(()))
        },
    );
    assert!(result.is_ok());
    // The sort takes the run starts along and leaves the values where they are.
    assert_eq!(
        seen,
        vec![(vec![(0, 1), (1, 3)], vec![3, 2, 4, 8], vec![3, 0])]
    );
}

#[test]
fn a_column_without_positions_has_empty_runs() {
    let a = index(&[("t", &[(0, 5, vec![]), (1, 2, vec![])])]);
    let inputs = [input(a, &[Some(0), Some(1)])];
    let mut states: Vec<u32> = Vec::new();
    let (sink, result) = merge_column(
        &inputs,
        COLUMN,
        &tiny(),
        &mut states,
        || 0u32,
        |state: u32, pairs: &[(u32, u32)], runs: TermRuns<'_>| {
            let TermRuns::Values { values, starts } = runs;
            assert!(values.is_empty());
            assert_eq!(starts, &[0, 0]);
            (state, Ok(pairs.to_vec()))
        },
        Vec::new(),
        |mut sink: Vec<Vec<(u32, u32)>>, _term: &str, pairs| {
            sink.push(pairs);
            (sink, Ok(()))
        },
    );
    assert!(result.is_ok());
    assert_eq!(sink, vec![vec![(0, 5), (1, 2)]]);
}

/// Random inputs: scattered terms, rows dropped, and an output order that is not arrival order.
fn random_inputs(seed: u64, n_inputs: usize, n_terms: u32) -> Vec<SortedInput<MemIndex>> {
    let mut rng = StdRng::seed_from_u64(seed);
    let docs_per_input = 20u32;
    let mut outs: Vec<u32> = (0..docs_per_input * n_inputs as u32).collect();
    for i in (1..outs.len()).rev() {
        outs.swap(i, rng.random_range(0..i + 1));
    }
    (0..n_inputs)
        .map(|n| {
            let mut terms = BTreeMap::new();
            for t in 0..n_terms {
                if rng.random_range(0..3u32) == 0 {
                    continue;
                }
                let mut rows: Vec<Row> = Vec::new();
                for doc in 0..docs_per_input {
                    if rng.random_range(0..4u32) == 0 {
                        let tf = rng.random_range(1..4u32);
                        let mut at = rng.random_range(0..9u32);
                        let mut positions = Vec::new();
                        for _ in 0..tf {
                            positions.push(at);
                            at += rng.random_range(1..7u32);
                        }
                        rows.push((doc, tf, positions));
                    }
                }
                if !rows.is_empty() {
                    terms.insert(format!("t{}", t * 37 % 1009).into_bytes(), rows);
                }
            }
            let docs: Vec<Option<u32>> = (0..docs_per_input)
                .map(|d| {
                    let out = outs[n * docs_per_input as usize + d as usize];
                    (rng.random_range(0..5u32) > 0).then_some(out)
                })
                .collect();
            input(
                MemIndex {
                    terms,
                    ..MemIndex::default()
                },
                &docs,
            )
        })
        .collect()
}

#[test]
fn the_merge_does_not_depend_on_how_the_work_is_divided() {
    for seed in 0..6u64 {
        let inputs = random_inputs(seed, 1 + seed as usize, 60);
        let want = expected(&inputs);
        for limits in [
            tiny(),
            BatchLimits::default(),
            BatchLimits {
                terms: 1,
                posting_bytes: 0,
                task_terms: 1,
            },
            BatchLimits {
                terms: 0,
                posting_bytes: u64::MAX,
                task_terms: usize::MAX,
            },
        ] {
            let (written, _) = merge_with(&inputs, &limits);
            assert_eq!(written, want, "seed={seed} {limits:?}");
        }
    }
}

#[test]
fn written_terms_come_in_order_each_once() {
    let (written, _) = merge_with(&random_inputs(11, 5, 80), &tiny());
    assert!(written.len() > 40);
    assert!(written.windows(2).all(|w| w[0].0.as_bytes() < w[1].0.as_bytes()));
    for (_, rows) in &written {
        assert!(!rows.is_empty());
        assert!(rows.windows(2).all(|w| w[0].0 < w[1].0));
    }
}

#[test]
fn remaps_that_keep_arrival_order_need_no_sort() {
    let a = index(&[("t", &[(0, 1, vec![4]), (2, 2, vec![1, 3])])]);
    let b = index(&[("t", &[(1, 1, vec![2])])]);
    let inputs = [
        input(a, &[Some(0), None, Some(1)]),
        input(b, &[Some(2), Some(3)]),
    ];
    let (written, _) = merge_with(&inputs, &BatchLimits::default());
    assert_eq!(
        written,
        vec![(
            "t".to_string(),
            vec![(0, 1, vec![4]), (1, 2, vec![1, 3]), (3, 1, vec![2])],
        )]
    );
}

#[test]
fn a_dictionary_longer_than_a_chunk_is_read_to_its_end() {
    for n in [
        TERMS_PER_CHUNK - 1,
        TERMS_PER_CHUNK,
        TERMS_PER_CHUNK + 1,
        2 * TERMS_PER_CHUNK - 1,
        2 * TERMS_PER_CHUNK + 3,
    ] {
        let terms: BTreeMap<Vec<u8>, Vec<Row>> = (0..n)
            .map(|t| (format!("{t:06}").into_bytes(), vec![(0, 1, vec![t as u32])]))
            .collect();
        let inputs = [input(
            MemIndex {
                terms,
                ..MemIndex::default()
            },
            &[Some(0)],
        )];
        let (written, _) = merge_with(&inputs, &BatchLimits::default());
        assert_eq!(written, expected(&inputs), "n={n}");
        assert_eq!(written.len(), n);
    }
}

#[test]
fn nothing_to_merge_writes_nothing() {
    let (written, states) = merge_with(&[], &tiny());
    assert!(written.is_empty());
    assert_eq!(states, vec![0]);
    let (written, _) = merge_with(&[input(index(&[]), &[]), input(index(&[]), &[])], &tiny());
    assert!(written.is_empty());
}

#[test]
fn states_are_handed_back_with_what_they_gathered() {
    let inputs = random_inputs(3, 4, 60);
    let postings: usize = expected(&inputs).iter().map(|(_, rows)| rows.len()).sum();
    let mut states = vec![1_000_000u64];
    let (_, result) = merge_column(
        &inputs,
        COLUMN,
        &tiny(),
        &mut states,
        || 0u64,
        encode,
        Vec::new(),
        write,
    );
    assert!(result.is_ok());
    assert!(!states.is_empty());
    assert_eq!(states.iter().sum::<u64>(), 1_000_000 + postings as u64);
}

#[test]
fn an_input_without_an_index_is_a_batch_read_error() {
    let mut states = vec![5u64, 6];
    let inputs = [
        input(index(&[("t", &[(0, 1, vec![0])])]), &[Some(0)]),
        SortedInput {
            fts: None,
            remap: remap(&[Some(1)]),
        },
    ];
    let before: Written = vec![("before".to_string(), Vec::new())];
    let (sink, result) = merge_column(
        &inputs,
        COLUMN,
        &tiny(),
        &mut states,
        || 0u64,
        encode,
        before.clone(),
        write,
    );
    assert!(matches!(result, Err(BuildError::BatchReadError)));
    assert_eq!(sink, before);
    assert_eq!(states, vec![5, 6]);
}

fn failing_merge(inputs: &[SortedInput<MemIndex>]) -> (Written, String) {
    let mut states: Vec<u64> = Vec::new();
    let (sink, result) = merge_column(
        inputs,
        COLUMN,
        &tiny(),
        &mut states,
        || 0u64,
        encode,
        Vec::new(),
        write,
    );
    assert!(states.is_empty());
    (sink, io_message(result))
}

#[test]
fn a_dictionary_that_cannot_be_fetched_stops_the_merge() {
    let mut fts = index(&[("t", &[(0, 1, vec![0])])]);
    fts.no_dict = true;
    let (sink, message) = failing_merge(&[input(fts, &[Some(0)])]);
    assert!(sink.is_empty());
    assert_eq!(message, "fts sorted merge: no dictionary");
}

#[test]
fn a_dictionary_that_cannot_be_read_on_stops_the_merge() {
    let terms: BTreeMap<Vec<u8>, Vec<Row>> = (0..TERMS_PER_CHUNK + 5)
        .map(|t| (format!("{t:06}").into_bytes(), vec![(0, 1, vec![1])]))
        .collect();
    let fts = MemIndex {
        terms,
        failing_chunk: 2,
        ..MemIndex::default()
    };
    let (sink, message) = failing_merge(&[input(fts, &[Some(0)])]);
    // Every batch filled before the read that failed was written: the input moves on to the next
    // chunk as soon as it hands out the last term of this one.
    assert_eq!(sink.len(), (TERMS_PER_CHUNK - 1) / 3 * 3);
    assert_eq!(message, "fts sorted merge: torn dictionary");
}

#[test]
fn postings_that_cannot_be_read_stop_the_merge() {
    let mut fts = index(&[
        ("a", &[(0, 1, vec![0])]),
        ("b", &[(0, 1, vec![0])]),
        ("c", &[(0, 1, vec![0])]),
        ("d", &[(0, 1, vec![0])]),
        ("e", &[(0, 1, vec![0])]),
    ]);
    fts.unreadable = Some(b"e".to_vec());
    let (sink, message) = failing_merge(&[input(fts, &[Some(0)])]);
    // The batch that holds the term is merged as a whole before any of it is written.
    let written: Vec<&str> = sink.iter().map(|(term, _)| term.as_str()).collect();
    assert_eq!(written, vec!["a", "b", "c"]);
    assert_eq!(message, "fts sorted merge: torn postings");
}

#[test]
fn a_term_that_is_not_text_stops_the_merge() {
    for docs in [[Some(0)], [None]] {
        // Even where every posting of it was deleted.
        let mut terms: BTreeMap<Vec<u8>, Vec<Row>> = BTreeMap::new();
        terms.insert(b"a".to_vec(), vec![(0, 1, vec![0])]);
        terms.insert(b"b\xff".to_vec(), vec![(0, 1, vec![0])]);
        terms.insert(b"c".to_vec(), vec![(0, 1, vec![0])]);
        let fts = MemIndex {
            terms,
            ..MemIndex::default()
        };
        let (sink, message) = failing_merge(&[input(fts, &docs)]);
        let n = docs.iter().flatten().count();
        assert_eq!(sink.len(), n);
        assert_eq!(message, "fts sorted merge: non-utf8 term");
    }
}

#[test]
fn an_encoding_that_fails_stops_the_merge() {
    let inputs = [input(
        index(&[
            ("a", &[(0, 1, vec![0])]),
            ("b", &[(0, 2, vec![0, 1])]),
        ]),
        &[Some(0)],
    )];
    let mut states: Vec<u64> = Vec::new();
    let (sink, result) = merge_column(
        &inputs,
        COLUMN,
        &tiny(),
        &mut states,
        || 0u64,
        |state: u64, pairs: &[(u32, u32)], runs: TermRuns<'_>| match pairs[0].1 {
            2 => (state, Err(BuildError::Io("unencodable".to_string()))),
            _ => encode(state, pairs, runs),
        },
        Vec::new(),
        write,
    );
    assert!(sink.is_empty());
    assert_eq!(io_message(result), "unencodable");
}

#[test]
fn a_write_that_fails_stops_the_merge_where_it_is() {
    let inputs = [input(
        index(&[
            ("a", &[(0, 1, vec![0])]),
            ("b", &[(0, 1, vec![0])]),
            ("c", &[(0, 1, vec![0])]),
        ]),
        &[Some(0)],
    )];
    let mut states: Vec<u64> = Vec::new();
    let (sink, result) = merge_column(
        &inputs,
        COLUMN,
        &tiny(),
        &mut states,
        || 0u64,
        encode,
        Vec::new(),
        |mut sink: Vec<String>, term: &str, _rows: Vec<Row>| {
            sink.push(term.to_string());
            match term {
                "b" => (sink, Err(BuildError::Io("disk full".to_string()))),
                _ => (sink, Ok(())),
            }
        },
    );
    assert_eq!(sink, vec!["a", "b"]);
    assert_eq!(io_message(result), "disk full");
}

#[test]
fn text_is_written_as_it_stands() {
    let put = |mut sink: Vec<String>, term: &str, out: u8| {
        sink.push(format!("{term}={out}"));
        (sink, Ok(()))
    };
    let (sink, result) = write_term("größe".as_bytes(), Some(3u8), Vec::new(), &put);
    assert!(result.is_ok());
    assert_eq!(sink, vec!["größe=3"]);
    let (sink, result) = write_term(b"t", None, sink, &put);
    assert!(result.is_ok());
    assert_eq!(sink, vec!["größe=3"]);
    let (sink, result) = write_term(b"\xc3", Some(1u8), sink, &put);
    assert_eq!(io_message(result), "fts sorted merge: non-utf8 term");
    assert_eq!(sink, vec!["größe=3"]);
}

#[test]
fn the_default_limits_are_those_of_a_large_merge() {
    let limits = BatchLimits::default();
    assert_eq!(limits.terms, 1 << 16);
    assert_eq!(limits.posting_bytes, 64 << 20);
    assert_eq!(limits.task_terms, 256);
    assert_eq!(limits.terms, BATCH_TERMS);
    assert_eq!(limits.posting_bytes, BATCH_POSTING_BYTES);
    assert_eq!(limits.task_terms, TASK_TERMS);
}

/// What a merge counted, in the order of its fields.
fn listed(counts: &MergeCounts) -> [u64; 5] {
    [
        counts.postings,
        counts.term_inputs,
        counts.sorted_terms,
        counts.sorted_postings,
        counts.run_values,
    ]
}

#[test]
fn without_inputs_the_states_come_back_and_nothing_is_called() {
    let mut states = vec![10, 20];
    let none: [SortedInput<MemIndex>; 0] = [];
    let (sink, result) = merge_column(
        &none,
        COLUMN,
        &BatchLimits::default(),
        &mut states,
        || -> i32 { panic!("a state was made") },
        |_state: i32, _pairs: &[(u32, u32)], _runs: TermRuns<'_>| -> (i32, Result<u8, BuildError>) {
            panic!("a term was encoded")
        },
        "sink",
        |_sink: &'static str, _term: &str, _out: u8| -> (&'static str, Result<(), BuildError>) {
            panic!("a term was written")
        },
    );
    let counts = result.expect("merged");
    assert_eq!(listed(&counts), [0; 5]);
    assert_eq!(sink, "sink");
    assert_eq!(states, vec![10, 20]);
}

#[test]
fn a_merge_counts_what_it_merged() {
    let a = index(&[
        ("gone", &[(3, 1, vec![8])]),
        ("s", &[(0, 2, vec![])]),
        ("t", &[(0, 1, vec![9]), (1, 2, vec![1, 4]), (2, 1, vec![6])]),
    ]);
    let b = index(&[("t", &[(0, 3, vec![0, 1, 2])])]);
    let inputs = [
        input(a, &[Some(30), Some(10), Some(20), None]),
        input(b, &[Some(15)]),
    ];
    for limits in [tiny(), BatchLimits::default()] {
        let mut states = vec![0u64];
        let (_, result) = merge_column(
            &inputs,
            COLUMN,
            &limits,
            &mut states,
            || 0u64,
            encode,
            Vec::new(),
            write,
        );
        let counts = result.expect("merged");
        assert_eq!(counts.postings, 5);
        // The deleted term's input counts too.
        assert_eq!(counts.term_inputs, 4);
        assert_eq!(counts.sorted_terms, 1);
        assert_eq!(counts.sorted_postings, 4);
        assert_eq!(counts.run_values, 7);
    }
}

#[test]
fn as_many_states_are_used_as_tasks_run_at_once() {
    let inputs = [one_document(&["a", "b", "c", "d"])];
    let merge = |threads: usize, mut states: Vec<u64>| {
        let (sink, result) = merge_column_on(
            &inputs,
            COLUMN,
            &tiny(),
            threads,
            &mut states,
            || 40u64,
            encode,
            Vec::new(),
            write,
        );
        assert!(result.is_ok());
        assert_eq!(sink, expected(&inputs));
        states
    };
    // The first batch is the tasks "a", "b" and "c", the second the task "d". A task takes the
    // state that was put back last.
    assert_eq!(merge(1, vec![]), vec![44]);
    assert_eq!(merge(1, vec![10, 20]), vec![10, 24]);
    assert_eq!(merge(2, vec![]), vec![42, 42]);
    assert_eq!(merge(2, vec![100, 200, 300]), vec![100, 202, 302]);
    assert_eq!(merge(64, vec![7]), vec![9, 42]);
}

#[test]
fn a_pool_of_one_thread_needs_one_state() {
    let terms: Vec<String> = (0..40).map(|t| format!("{t:02}")).collect();
    let names: Vec<&str> = terms.iter().map(String::as_str).collect();
    let inputs = [one_document(&names)];
    let limits = BatchLimits {
        terms: 40,
        posting_bytes: u64::MAX,
        task_terms: 1,
    };
    for threads in [1usize, 3] {
        let pool = rayon::ThreadPoolBuilder::new()
            .num_threads(threads)
            .build()
            .expect("pool");
        let states = pool.install(|| {
            let mut states: Vec<u64> = Vec::new();
            let (sink, result) = merge_column(
                &inputs,
                COLUMN,
                &limits,
                &mut states,
                || 0u64,
                encode,
                Vec::new(),
                write,
            );
            assert!(result.is_ok());
            assert_eq!(sink.len(), 40);
            states
        });
        assert_eq!(states.len(), threads);
        assert_eq!(states.iter().sum::<u64>(), 40);
    }
}

#[test]
fn a_batch_that_cannot_be_merged_is_not_written() {
    let inputs = [one_document(&["a", "b", "c", "d", "e"])];
    for (task_terms, threads, n_encoded) in [(1, 1, 4), (1, 2, 5), (2, 8, 4), (5, 8, 4)] {
        let limits = BatchLimits {
            terms: 3,
            posting_bytes: u64::MAX,
            task_terms,
        };
        let mut states = vec![0u64, 0];
        // "d" and "e" are the second batch, and neither can be encoded.
        let encoded = AtomicUsize::new(0);
        let (sink, result) = merge_column_on(
            &inputs,
            COLUMN,
            &limits,
            threads,
            &mut states,
            || 0u64,
            |state: u64, pairs: &[(u32, u32)], runs: TermRuns<'_>| {
                match encoded.fetch_add(1, Ordering::SeqCst) {
                    0..3 => encode(state, pairs, runs),
                    _ => (state, Err(BuildError::Io("unencodable".to_string()))),
                }
            },
            Vec::new(),
            write,
        );
        let written: Vec<&str> = sink.iter().map(|(term, _)| term.as_str()).collect();
        assert_eq!(written, vec!["a", "b", "c"]);
        assert_eq!(io_message(result), "unencodable");
        assert!(states.is_empty());
        // A task stops at its first term that fails, and no later task is begun.
        assert_eq!(encoded.load(Ordering::SeqCst), n_encoded);
    }
}

#[test]
fn all_before_a_large_term_is_written_when_it_fails() {
    // Five postings announce 320 bytes, more than a batch may have.
    let rows: Vec<Row> = (0..5).map(|doc| (doc, 2, vec![0, 1])).collect();
    let fts = index(&[
        ("a", &[(0, 1, vec![0])]),
        ("bb", &rows),
        ("c", &[(0, 1, vec![0])]),
    ]);
    let docs: Vec<Option<u32>> = (0..5).map(Some).collect();
    let inputs = [input(fts, &docs)];
    let mut states: Vec<u64> = Vec::new();
    let (sink, result) = merge_column(
        &inputs,
        COLUMN,
        &tiny(),
        &mut states,
        || 0u64,
        |state: u64, pairs: &[(u32, u32)], runs: TermRuns<'_>| match pairs.len() {
            5 => (state, Err(BuildError::Io("too large".to_string()))),
            _ => encode(state, pairs, runs),
        },
        Vec::new(),
        write,
    );
    assert_eq!(sink, vec![("a".to_string(), vec![(0, 1, vec![0])])]);
    assert_eq!(io_message(result), "too large");
}

#[test]
fn a_merge_failure_goes_before_a_failure_to_write() {
    let fts = index(&[("a", &[(0, 1, vec![0])]), ("b", &[(0, 2, vec![0, 1])])]);
    let inputs = [input(fts, &[Some(0)])];
    let mut states: Vec<u64> = Vec::new();
    let (sink, result) = merge_column(
        &inputs,
        COLUMN,
        &tiny(),
        &mut states,
        || 0u64,
        |state: u64, pairs: &[(u32, u32)], runs: TermRuns<'_>| match pairs[0].1 {
            2 => (state, Err(BuildError::Io("unencodable".to_string()))),
            _ => encode(state, pairs, runs),
        },
        0u32,
        |sink: u32, _term: &str, _rows: Vec<Row>| {
            (sink + 1, Err(BuildError::Io("disk full".to_string())))
        },
    );
    assert_eq!(sink, 0);
    assert_eq!(io_message(result), "unencodable");
}

#[test]
fn the_first_term_that_fails_decides_the_error() {
    let fts = index(&[
        ("a", &[(0, 1, vec![0])]),
        ("b", &[(0, 2, vec![0, 1])]),
        ("c", &[(0, 3, vec![0, 1, 2])]),
    ]);
    let inputs = [input(fts, &[Some(0)])];
    for task_terms in [1, 2, 3] {
        let limits = BatchLimits {
            terms: 3,
            posting_bytes: u64::MAX,
            task_terms,
        };
        let mut states: Vec<u64> = Vec::new();
        let (sink, result) = merge_column(
            &inputs,
            COLUMN,
            &limits,
            &mut states,
            || 0u64,
            |state: u64, pairs: &[(u32, u32)], runs: TermRuns<'_>| match pairs[0].1 {
                1 => encode(state, pairs, runs),
                tf => (state, Err(BuildError::Io(format!("no {tf}")))),
            },
            Vec::new(),
            write,
        );
        assert!(sink.is_empty());
        assert_eq!(io_message(result), "no 2");
    }
}

/// Two terms gathered into a batch: "x" of both inputs and "y" of the second.
fn two_terms(inputs: &[SortedInput<MemIndex>]) -> Batch {
    let mut batch = Batch::new();
    for (term, held_by) in [("x", vec![0, 1]), ("y", vec![1])] {
        let from = batch.n_inputs();
        for i in held_by {
            let fts = inputs[i].fts.as_ref().expect("index");
            let rows = &fts.terms[term.as_bytes()];
            batch.add_input(i, value_of(term.as_bytes(), rows));
        }
        batch.push_term(term.as_bytes(), from);
    }
    batch
}

#[test]
fn a_term_and_a_chunk_are_merged_with_one_worker() {
    let a = index(&[("x", &[(0, 1, vec![4]), (1, 1, vec![6])])]);
    let b = index(&[("x", &[(0, 2, vec![1, 2])]), ("y", &[(0, 1, vec![3])])]);
    let inputs = [input(a, &[Some(5), None]), input(b, &[Some(2)])];
    let readers: Vec<&MemIndex> = inputs.iter().filter_map(|i| i.fts.as_ref()).collect();
    let states: Vec<u64> = vec![50];
    let make = || 0u64;
    let work = BatchWork::new(&readers, &inputs, COLUMN, &states, &make, &encode);
    let batch = two_terms(&inputs);

    let x = &batch.terms()[0];
    let mut buffers = TermWork::new();
    let (state, output) =
        work.merge_term(batch.term_of(x), batch.inputs_of(x), &mut buffers, 50);
    assert_eq!(state, 52);
    let rows = output.expect("merged").expect("postings stay");
    assert_eq!(rows, vec![(2, 2, vec![1, 2]), (5, 1, vec![4])]);

    let (worker, outputs) = work.merge_chunk((TermWork::new(), 50), &batch, batch.terms());
    assert_eq!(worker.1, 53);
    let outputs = outputs.expect("merged");
    assert_eq!(outputs, vec![Some(rows), Some(vec![(2, 1, vec![3])])]);
    let counts = worker.0.counts();
    assert_eq!(counts.postings, 3);
    assert_eq!(counts.sorted_terms, 1);

    let mut workers = with_workers(states);
    let (sink, result) = work.run(&mut workers, &batch, 1, 2, Vec::new(), &write);
    assert!(result.is_ok());
    assert_eq!(sink, expected(&inputs));
    assert_eq!(into_states(workers), vec![52, 1]);
}

#[test]
fn a_cut_leaves_the_last_piece_short() {
    assert_eq!(cut(0, 4), vec![0]);
    assert_eq!(cut(8, 4), vec![0, 4, 8]);
    assert_eq!(cut(9, 4), vec![0, 4, 8, 9]);
    assert_eq!(cut(3, usize::MAX), vec![0, 3]);
}

#[test]
fn the_order_of_the_inputs_does_not_show() {
    let merge = |inputs: &[SortedInput<MemIndex>]| {
        let mut states = vec![0u64];
        let (sink, result) = merge_column(
            inputs,
            COLUMN,
            &tiny(),
            &mut states,
            || 0u64,
            encode,
            Vec::new(),
            write,
        );
        (sink, result.expect("merged"))
    };
    let mut inputs = random_inputs(21, 4, 60);
    let (sink, counts) = merge(&inputs);
    inputs.rotate_left(1);
    inputs.swap(0, 2);
    let (other_sink, other_counts) = merge(&inputs);
    assert!(!sink.is_empty());
    assert_eq!(sink, other_sink);
    assert_eq!(counts.postings, other_counts.postings);
    assert_eq!(counts.term_inputs, other_counts.term_inputs);
    assert_eq!(counts.run_values, other_counts.run_values);
}

#[test]
fn only_what_arrives_out_of_order_is_sorted() {
    let a = || index(&[("t", &[(0, 1, vec![4])])]);
    let b = || index(&[("t", &[(0, 1, vec![2])])]);
    let sorted = |inputs: &[SortedInput<MemIndex>]| {
        let mut states = vec![0u64];
        let (_, result) = merge_column(
            inputs,
            COLUMN,
            &tiny(),
            &mut states,
            || 0u64,
            encode,
            Vec::new(),
            write,
        );
        let counts = result.expect("merged");
        (counts.sorted_terms, counts.sorted_postings)
    };
    let in_order = [input(a(), &[Some(0)]), input(b(), &[Some(1)])];
    let reversed = [input(b(), &[Some(1)]), input(a(), &[Some(0)])];
    assert_eq!(sorted(&in_order), (0, 0));
    assert_eq!(sorted(&reversed), (1, 2));
}

#[test]
fn postings_of_one_document_are_encoded_as_they_arrive() {
    // Sixty postings that land on three documents, and not in order.
    let rows: Vec<Row> = (0..60).map(|doc| (doc, 1 + doc, vec![doc])).collect();
    let docs: Vec<Option<u32>> = (0..60u32).map(|doc| Some(doc * 7 % 3)).collect();
    let inputs = [input(index(&[("t", &rows)]), &docs)];
    let mut want: Vec<Row> = rows.iter().map(|(d, tf, pos)| (d * 7 % 3, *tf, pos.clone())).collect();
    want.sort_by_key(|(doc, _, _)| *doc);
    let (written, _) = merge_with(&inputs, &tiny());
    assert_eq!(written, vec![("t".to_string(), want)]);
}

#[test]
fn a_terms_work_does_not_depend_on_the_buffers() {
    let rows: Vec<Row> = (0..40).map(|doc| (doc, 1 + doc, vec![doc, doc + 2])).collect();
    let docs: Vec<Option<u32>> = (0..40u32).map(|doc| Some(doc * 11 % 5)).collect();
    let other: Vec<Row> = (0..30).rev().step_by(2).map(|doc| (doc, 3, vec![])).collect();
    let inputs = [input(index(&[("x", &rows), ("y", &other)]), &docs)];
    let readers: Vec<&MemIndex> = inputs.iter().filter_map(|i| i.fts.as_ref()).collect();
    let states: Vec<u64> = Vec::new();
    let make = || 0u64;
    let raw = |state: u64, pairs: &[(u32, u32)], runs: TermRuns<'_>| {
        let TermRuns::Values { values, starts } = runs;
        (state + 1, Ok((pairs.to_vec(), values.to_vec(), starts.to_vec())))
    };
    let work = BatchWork::new(&readers, &inputs, COLUMN, &states, &make, &raw);
    let merge = |term: &str, buffers: &mut TermWork| {
        let value = value_of(term.as_bytes(), &readers[0].terms[term.as_bytes()]);
        let (state, out) = work.merge_term(term.as_bytes(), &[(0, value)], buffers, 5);
        assert_eq!(state, 6);
        out.expect("merged").expect("postings stay")
    };
    let mut used = TermWork::new();
    merge("y", &mut used);
    assert_eq!(merge("x", &mut used), merge("x", &mut TermWork::new()));
}
