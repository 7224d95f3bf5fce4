//! The parts a merge is made of.
use bytes::Bytes;
use superfile_fts::batch::{Batch, BatchLimits};
use superfile_fts::counts::TermCounts;
use superfile_fts::dictionary::{FstValue, FtsError, FtsReader, Posting, TermChunks, TERMS_PER_CHUNK};
use superfile_fts::errors::{non_utf8_error, read_error, BuildError};
use superfile_fts::term_heap::TermHeap;
use superfile_fts::term_order::{copy_term, same_term, term_less};
use superfile_fts::term_walk::TermWalk;
use superfile_fts::term_work::{push_run_values, FtsDocId, TermWork};

/// A dictionary without postings.
struct Dictionary {
    terms: Vec<(Vec<u8>, FstValue)>,
}

impl Dictionary {
    fn of(terms: &[(&[u8], FstValue)]) -> Self {
        Dictionary {
            terms: terms.iter().map(|(term, value)| (term.to_vec(), *value)).collect(),
        }
    }
}

impl FtsReader for Dictionary {
    fn dict_bytes(&self) -> Result<Bytes, FtsError> {
        Ok(Bytes::new())
    }

    fn column_terms_from(
        &self,
        _fst_bytes: &Bytes,
        _column_id: u32,
        resume: &Vec<u8>,
        limit: usize,
    ) -> Result<Vec<(Vec<u8>, FstValue)>, FtsError> {
        Ok(self.terms.iter().filter(|(term, _)| term >= resume).take(limit).cloned().collect())
    }

    fn postings_in(
        &self,
        _column_id: u32,
        _term: &[u8],
        _value: FstValue,
    ) -> Result<Vec<Posting>, FtsError> {
        Ok(Vec::new())
    }
}

fn hinted(bytes: u32) -> FstValue {
    FstValue::Pfor {
        postings_offset: 0,
        postings_length_hint: Some(bytes),
    }
}

fn terms_of(batch: &Batch) -> Vec<(Vec<u8>, Vec<(usize, FstValue)>)> {
    batch
        .terms()
        .iter()
        .map(|pending| {
            (
                batch.term_of(pending).to_vec(),
                batch.inputs_of(pending).to_vec(),
            )
        })
        .collect()
}

#[test]
fn terms_compare_byte_by_byte() {
    let terms: [&[u8]; 6] = [b"", b"a", b"aa", b"ab", b"b", b"\xff"];
    for (i, a) in terms.iter().enumerate() {
        for (j, b) in terms.iter().enumerate() {
            assert_eq!(term_less(a, b), i < j);
            assert_eq!(same_term(a, b), i == j);
        }
        assert_eq!(&copy_term(a)[..], *a);
    }
}

#[test]
fn a_heap_pops_terms_in_order_and_ties_by_input() {
    let mut heap = TermHeap::new();
    assert!(heap.peek().is_none());
    assert!(heap.pop().is_none());
    for (term, input) in [("m", 4), ("b", 2), ("z", 0), ("b", 1), ("a", 9), ("b", 7)] {
        heap.push(term.as_bytes().to_vec(), input);
    }
    assert_eq!(heap.peek(), Some(&(b"a".to_vec(), 9)));
    let mut popped = Vec::new();
    while let Some((term, input)) = heap.pop() {
        popped.push((String::from_utf8(term).expect("text"), input));
    }
    let expected: Vec<(String, usize)> = [("a", 9), ("b", 1), ("b", 2), ("b", 7), ("m", 4), ("z", 0)]
        .iter()
        .map(|(term, input)| (term.to_string(), *input))
        .collect();
    assert_eq!(popped, expected);
}

#[test]
fn a_heap_of_many_terms_is_emptied_in_order() {
    let mut heap = TermHeap::new();
    for k in 0..500usize {
        heap.push(format!("{:03}", k * 7 % 500).into_bytes(), k);
    }
    for k in 0..500 {
        let (term, _) = heap.pop().expect("term");
        assert_eq!(term, format!("{k:03}").into_bytes());
    }
    assert!(heap.pop().is_none());
}

#[test]
fn chunks_hand_out_each_term_once() {
    let n = TERMS_PER_CHUNK + 1;
    let dict = Dictionary {
        terms: (0..n).map(|t| (format!("{t:05}").into_bytes(), FstValue::Packed(t as u64))).collect(),
    };
    let mut chunks = TermChunks::new(&dict, 0).expect("dictionary");
    for t in 0..n {
        let entry = chunks.next().expect("read").expect("entry");
        assert_eq!(entry, (format!("{t:05}").into_bytes(), FstValue::Packed(t as u64)));
    }
    assert!(chunks.next().expect("read").is_none());
    assert!(chunks.next().expect("read").is_none());
}

#[test]
fn a_first_term_that_is_empty_is_handed_out() {
    let dict = Dictionary::of(&[(b"", FstValue::Packed(1)), (b"a", FstValue::Packed(2))]);
    let mut chunks = TermChunks::new(&dict, 0).expect("dictionary");
    assert_eq!(chunks.next().expect("read"), Some((Vec::new(), FstValue::Packed(1))));
    assert_eq!(chunks.next().expect("read"), Some((b"a".to_vec(), FstValue::Packed(2))));
    assert_eq!(chunks.next().expect("read"), None);
}

#[test]
fn a_batch_is_full_at_its_most_terms_or_posting_bytes() {
    let limits = BatchLimits {
        terms: 2,
        posting_bytes: 100,
        task_terms: 1,
    };
    let mut batch = Batch::new();
    assert!(!batch.full(&limits));
    batch.add_input(0, hinted(60));
    batch.push_term(b"a", 0);
    assert!(!batch.full(&limits));
    batch.add_input(0, FstValue::Packed(3));
    batch.add_input(1, hinted(40));
    assert_eq!(batch.n_inputs(), 3);
    batch.push_term(b"b", 1);
    assert!(batch.full(&limits));
    assert_eq!(
        terms_of(&batch),
        vec![
            (b"a".to_vec(), vec![(0, hinted(60))]),
            (b"b".to_vec(), vec![(0, FstValue::Packed(3)), (1, hinted(40))]),
        ]
    );
    batch.clear();
    assert!(terms_of(&batch).is_empty());
    assert!(!batch.full(&limits));
    batch.add_input(0, hinted(100));
    batch.push_term(b"c", 0);
    assert!(batch.full(&limits));
}

#[test]
fn a_walk_fills_batches_up_to_their_limits() {
    let a = Dictionary::of(&[
        (b"a", hinted(10)),
        (b"c", hinted(200)),
        (b"d", FstValue::Packed(1)),
    ]);
    let b = Dictionary::of(&[
        (b"b", hinted(10)),
        (b"c", hinted(5)),
        (b"e", FstValue::Packed(2)),
    ]);
    let limits = BatchLimits {
        terms: 10,
        posting_bytes: 100,
        task_terms: 1,
    };
    let readers = vec![&a, &b];
    let mut walk = TermWalk::new(&readers, 0).expect("dictionaries");
    let mut batch = Batch::new();
    let mut over = Batch::new();
    assert!(walk.fill_batch(&mut batch, &mut over, &limits).expect("terms"));
    assert_eq!(
        terms_of(&batch),
        vec![
            (b"a".to_vec(), vec![(0, hinted(10))]),
            (b"b".to_vec(), vec![(1, hinted(10))]),
        ]
    );
    batch.clear();
    // A term larger than the limit is a batch of its own.
    assert!(walk.fill_batch(&mut batch, &mut over, &limits).expect("terms"));
    assert_eq!(
        terms_of(&batch),
        vec![(b"c".to_vec(), vec![(0, hinted(200)), (1, hinted(5))])]
    );
    batch.clear();
    assert!(!walk.fill_batch(&mut batch, &mut over, &limits).expect("terms"));
    assert_eq!(
        terms_of(&batch),
        vec![
            (b"d".to_vec(), vec![(0, FstValue::Packed(1))]),
            (b"e".to_vec(), vec![(1, FstValue::Packed(2))]),
        ]
    );
    assert!(over.is_empty());
    batch.clear();
    assert!(!walk.next_term(&mut batch).expect("terms"));
    assert!(batch.is_empty());
}

#[test]
fn a_term_that_does_not_fit_begins_the_next_batch() {
    let dict = Dictionary::of(&[
        (b"a", hinted(60)),
        (b"b", hinted(40)),
        (b"c", hinted(90)),
        (b"d", hinted(20)),
    ]);
    let limits = BatchLimits {
        terms: 10,
        posting_bytes: 100,
        task_terms: 1,
    };
    let readers = vec![&dict];
    let mut walk = TermWalk::new(&readers, 0).expect("dictionary");
    let mut batch = Batch::new();
    let mut over = Batch::new();
    let mut batches: Vec<String> = Vec::new();
    loop {
        let more = walk.fill_batch(&mut batch, &mut over, &limits).expect("terms");
        batches.push(
            terms_of(&batch)
                .iter()
                .map(|(term, _)| String::from_utf8_lossy(term).into_owned())
                .collect(),
        );
        batch.clear();
        if !more {
            break;
        }
    }
    assert_eq!(batches, vec!["ab", "c", "d"]);
}

#[test]
fn run_values_add_up_to_the_positions() {
    let mut values = vec![77];
    let positions = [4u32, 5, 11, u32::MAX];
    push_run_values(&mut values, &positions);
    assert_eq!(values, vec![77, 4, 1, 6, u32::MAX - 11]);
    let mut at = 0u32;
    for (value, position) in values[1..].iter().zip(positions) {
        at += value;
        assert_eq!(at, position);
    }
    push_run_values(&mut values, &[]);
    assert_eq!(values.len(), 5);
}

#[test]
fn a_term_is_gathered_and_arranged() {
    let posting = |doc: u32, tf: u32, positions: &[u32]| Posting {
        doc,
        tf,
        positions: positions.to_vec(),
    };
    let mut work = TermWork::new();
    assert!(work.is_empty());
    let remap = vec![Some(FtsDocId::new(8)), None, Some(FtsDocId::new(3))];
    work.gather(
        &vec![posting(0, 2, &[1, 2]), posting(1, 1, &[9]), posting(2, 1, &[6])],
        &remap,
    );
    assert!(!work.is_empty());
    let (pairs, starts, values) = work.arrange();
    assert_eq!(pairs, &vec![(3, 1), (8, 2)]);
    assert_eq!(starts, &vec![2, 0]);
    assert_eq!(values, &vec![1, 1, 6]);
    work.clear();
    assert!(work.is_empty());
    work.gather(&vec![posting(1, 1, &[9])], &remap);
    assert!(work.is_empty());
    work.gather(&vec![posting(2, 4, &[])], &remap);
    let (pairs, starts, values) = work.arrange();
    assert_eq!(pairs, &vec![(3, 4)]);
    assert_eq!(starts, &vec![0]);
    assert!(values.is_empty());
}

#[test]
fn counts_stop_at_the_most_they_can_hold() {
    let mut counts = TermCounts::new();
    counts.add_term(3, 7, true);
    counts.add_term(2, 1, false);
    let seen = |c: &TermCounts| [c.postings, c.run_values, c.sorted_terms, c.sorted_postings];
    assert_eq!(seen(&counts), [5, 8, 1, 3]);
    let mut total = TermCounts {
        postings: u64::MAX - 4,
        run_values: u64::MAX - 8,
        sorted_terms: 1,
        sorted_postings: 0,
    };
    total.absorb(&counts);
    assert_eq!(seen(&total), [u64::MAX, u64::MAX, 2, 3]);
}

#[test]
fn a_worker_counts_the_terms_it_arranges() {
    let posting = |doc: u32, positions: &[u32]| Posting {
        doc,
        tf: 1,
        positions: positions.to_vec(),
    };
    let remap = vec![Some(FtsDocId::new(8)), Some(FtsDocId::new(3))];
    let mut work = TermWork::new();
    work.gather(&vec![posting(0, &[1, 2]), posting(1, &[6])], &remap);
    work.arrange();
    work.clear();
    work.gather(&vec![posting(1, &[5])], &remap);
    work.arrange();
    let counts = work.counts();
    assert_eq!((counts.postings, counts.run_values), (3, 4));
    assert_eq!((counts.sorted_terms, counts.sorted_postings), (1, 2));
}

#[test]
fn errors_say_what_failed() {
    let e = FtsError {
        message: "torn block".to_string(),
    };
    assert!(matches!(read_error(e), BuildError::Io(m) if m == "fts sorted merge: torn block"));
    assert!(matches!(non_utf8_error(), BuildError::Io(m) if m == "fts sorted merge: non-utf8 term"));
}
