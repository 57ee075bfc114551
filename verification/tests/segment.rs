use rand::seq::SliceRandom;
use sentinel::range::Range;
use sentinel::segment::{
    Gap, ImportError, Seg, SegOrGap, SegmentDataSlices, SegmentSet, SetOperations,
};

const TEST_SIZE: i32 = 8000;
const VALUE_OFFSET: i32 = 100000;
const INTERVAL_LEN: i32 = 10;

fn shuffle(xs: &mut [i32]) {
    let mut rng = rand::thread_rng();
    xs.shuffle(&mut rng);
}

fn rand_interval_permutation(size: i32) -> Vec<i32> {
    let mut perm: Vec<_> = (0..size).map(|v| v * INTERVAL_LEN).collect();
    shuffle(&mut perm);
    perm
}

struct Ops;

impl SetOperations for Ops {
    type V = i32;

    fn fits(_: Range, _: i32) -> bool {
        true
    }

    fn merged(_: Range, v1: i32, _: Range, v2: i32) -> Option<i32> {
        if v1 == v2 {
            Some(v1)
        } else {
            None
        }
    }

    fn lower(_: Range, v: i32, _: u64) -> i32 {
        v
    }

    fn upper(r: Range, v: i32, split: u64) -> i32 {
        v + (split - r.start) as i32
    }

    fn merge(&self, _: Range, v1: &i32, _: Range, v2: &i32) -> Option<i32> {
        if v1 == v2 {
            Some(*v1)
        } else {
            None
        }
    }

    fn split(&self, r: Range, v: &i32, split: u64) -> (i32, i32) {
        (*v, *v + (split - r.start) as i32)
    }
}

#[derive(Default)]
struct MergeSplitTest {
    _name: String,
    initial: Vec<Range>,
    split_addr: Option<i32>,
    result: Vec<Range>,
}

struct IsolateTest<'a> {
    _name: &'a str,
    initial: Range,
    bounds: Range,
    result: Vec<Range>,
}

impl<'a> IsolateTest<'a> {
    fn is_superset_of(&self, r: Range) -> bool {
        self.bounds.start <= r.start && r.end <= self.bounds.end
    }
}

/// The keys ascend, each segment has the value that belongs to its key, and
/// there are as many as there should be.
fn segment_test_check(s: &SegmentSet<Ops>, expected: i32) -> bool {
    let keys = s.inner_keys();
    let vals = s.inner_values();
    let mut prev: Option<u64> = None;
    for i in 0..keys.len() {
        if let Some(p) = prev {
            if p >= keys[i].start {
                return false;
            }
        }
        if vals[i] != keys[i].start as i32 + VALUE_OFFSET {
            return false;
        }
        prev = Some(keys[i].start);
    }
    keys.len() as i32 == expected
}

#[test]
fn add_random() {
    let mut s = SegmentSet::new(Ops);
    let mut order: Vec<i32> = (0..TEST_SIZE).collect();
    shuffle(&mut order);
    let mut nr_iterations = 0;
    for (_, j) in order.iter().enumerate() {
        assert!(s.add_without_merging(
            Range {
                start: *j as u64,
                end: *j as u64 + 1
            },
            j + VALUE_OFFSET
        ));
        nr_iterations += 1;
        assert!(segment_test_check(&s, nr_iterations));
    }
    assert_eq!(s.count_segments() as i32, nr_iterations);
}

#[test]
fn remove_random() {
    let mut s = SegmentSet::new(Ops);
    for i in 0..TEST_SIZE {
        assert!(s.add_without_merging(
            Range {
                start: i as u64,
                end: i as u64 + 1
            },
            i + VALUE_OFFSET
        ));
    }
    let mut order: Vec<i32> = (0..TEST_SIZE).collect();
    shuffle(&mut order);
    let mut nr_removals = 0;
    for (_, j) in order.iter().enumerate() {
        let seg = s.find_segment(*j as u64);
        assert!(seg.is_some());
        let seg = seg.unwrap();
        s.remove(seg.range);
        nr_removals += 1;
        assert!(segment_test_check(&s, TEST_SIZE - nr_removals));
    }
    assert_eq!(s.count_segments() as i32, TEST_SIZE - nr_removals);
}

#[test]
fn next_large_enough_gap() {
    let mut s = SegmentSet::new(Ops);
    let mut order = rand_interval_permutation(TEST_SIZE * 2);
    let order = &mut order[..TEST_SIZE as usize];
    for (_, j) in order.iter().enumerate() {
        let range = Range {
            start: *j as u64,
            end: *j as u64 + rand::random::<u64>() % (INTERVAL_LEN as u64 - 1) + 1,
        };
        assert!(s.add(range, *j + VALUE_OFFSET));
    }
    shuffle(order);
    let order = &order[..TEST_SIZE as usize / 2];
    for j in order.iter() {
        let seg = match s.find_segment(*j as u64) {
            Some(s) => s,
            None => continue,
        };
        s.remove(seg.range);
    }

    let min_size = 7;
    let mut gaps1 = Vec::new();
    let mut gap_maybe = {
        let g = s.lower_bound_gap(0).unwrap();
        s.next_large_enough_gap(&g, min_size)
    };
    while let Some(gap) = gap_maybe {
        let start = gap.range.start.unwrap();
        let end = gap.range.end.unwrap_or(u64::MAX);
        assert!(end - start >= min_size);
        gaps1.push(start);
        gap_maybe = s.next_large_enough_gap(&gap, min_size)
    }

    let mut gaps2 = Vec::new();
    let mut gap_maybe = {
        let g = s.lower_bound_gap(0).unwrap();
        s.next_gap_of_gap(&g)
    };
    while let Some(gap) = gap_maybe {
        let start = gap.range.start.unwrap();
        let end = gap.range.end.unwrap_or(u64::MAX);
        if end - start >= min_size {
            gaps2.push(start);
        }
        gap_maybe = s.next_gap_of_gap(&gap)
    }

    assert_eq!(gaps1.len(), gaps2.len());
    let all_eq = gaps1.iter().zip(&gaps2).all(|(a, b)| a == b);
    assert!(all_eq);
}

#[test]
fn prev_large_enough_gap() {
    let mut s = SegmentSet::new(Ops);
    let mut order = rand_interval_permutation(TEST_SIZE * 2);
    let order = &mut order[..TEST_SIZE as usize];
    for (_, j) in order.iter().enumerate() {
        let range = Range {
            start: *j as u64,
            end: *j as u64 + rand::random::<u64>() % (INTERVAL_LEN as u64 - 1) + 1,
        };
        assert!(s.add(range, *j + VALUE_OFFSET));
    }
    shuffle(order);
    let order = &order[..TEST_SIZE as usize / 2];
    let end = s.last_segment().unwrap().range.end;
    for j in order.iter() {
        let seg = match s.find_segment(*j as u64) {
            Some(s) => s,
            None => continue,
        };
        s.remove(seg.range);
    }

    let min_size = 7;
    let mut gaps1 = Vec::new();
    let mut gap_maybe = {
        let g = s.upper_bound_gap(end + INTERVAL_LEN as u64).unwrap();
        s.prev_large_enough_gap(&g, min_size)
    };
    while let Some(gap) = gap_maybe {
        let start = gap.range.start.unwrap_or(0);
        let end = gap.range.end.unwrap();
        assert!(end - start >= min_size);
        gaps1.push(start);
        gap_maybe = s.prev_large_enough_gap(&gap, min_size)
    }

    let mut gaps2 = Vec::new();
    let mut gap_maybe = {
        let g = s.upper_bound_gap(end + INTERVAL_LEN as u64).unwrap();
        s.prev_gap_of_gap(&g)
    };
    while let Some(gap) = gap_maybe {
        let start = gap.range.start.unwrap_or(0);
        let end = gap.range.end.unwrap_or(u64::MAX);
        if end - start >= min_size {
            gaps2.push(start);
        }
        gap_maybe = s.prev_gap_of_gap(&gap)
    }

    assert_eq!(gaps1.len(), gaps2.len());
    let all_eq = gaps1.iter().zip(&gaps2).all(|(a, b)| a == b);
    assert!(all_eq);
}

#[test]
fn add_sequential_adjacant() {
    let mut s = SegmentSet::new(Ops);
    let mut nr_iterations = 0;
    for i in 0..TEST_SIZE {
        assert!(s.add_without_merging(
            Range {
                start: i as u64,
                end: i as u64 + 1
            },
            i + VALUE_OFFSET
        ));
        nr_iterations += 1;
        assert!(segment_test_check(&s, nr_iterations));
    }
    assert_eq!(s.count_segments(), nr_iterations as usize);

    let first_seg = s.first_segment().unwrap();
    let want = s.first_gap();
    let got = match s.prev_non_empty(&first_seg) {
        Some(SegOrGap::Segment(_)) => panic!("prev non empty element should be gap"),
        Some(SegOrGap::Gap(gap)) => Some(gap),
        None => None,
    };
    assert_eq!(got, want);

    let want = s.next_segment_of_seg(&first_seg);
    let got = match s.next_non_empty(&first_seg) {
        Some(SegOrGap::Segment(seg)) => Some(seg),
        Some(SegOrGap::Gap(_)) => panic!("next non empty element should be gap"),
        None => None,
    };
    assert_eq!(got, want);

    let last_seg = s.last_segment().unwrap();
    let want = s.prev_segment_of_seg(&last_seg);
    let got = match s.prev_non_empty(&last_seg) {
        Some(SegOrGap::Segment(seg)) => Some(seg),
        Some(SegOrGap::Gap(_)) => panic!("prev non empty element should be segment"),
        None => None,
    };
    assert_eq!(got, want);

    let want = s.last_gap();
    let got = match s.next_non_empty(&last_seg) {
        Some(SegOrGap::Gap(gap)) => Some(gap),
        Some(SegOrGap::Segment(_)) => panic!("next non empty element should be gap"),
        None => None,
    };
    assert_eq!(got, want);

    let mut maybe_seg = s.next_segment_of_seg(&first_seg);
    while let Some(seg) = maybe_seg {
        if seg == last_seg {
            break;
        }

        let want = s.prev_segment_of_seg(&seg);
        let got = match s.prev_non_empty(&seg) {
            Some(SegOrGap::Segment(seg)) => Some(seg),
            Some(SegOrGap::Gap(_)) => panic!("prev non empty element should be segment"),
            None => None,
        };
        assert_eq!(got, want);

        let want = s.next_segment_of_seg(&seg);
        let got = match s.next_non_empty(&seg) {
            Some(seg_or_gap) => match seg_or_gap {
                SegOrGap::Segment(seg) => Some(seg),
                SegOrGap::Gap(_) => panic!("next non empty element should be gap"),
            },
            None => None,
        };
        assert_eq!(got, want);
        maybe_seg = s.next_segment_of_seg(&seg);
    }
}

#[test]
fn add_sequential_non_adjacant() {
    let mut s = SegmentSet::new(Ops);
    let mut nr_iterations = 0;
    for i in 0..TEST_SIZE {
        assert!(s.add_without_merging(
            Range {
                start: 2 * i as u64,
                end: 2 * i as u64 + 1
            },
            2 * i + VALUE_OFFSET
        ));
        nr_iterations += 1;
        assert!(segment_test_check(&s, nr_iterations));
    }
    assert_eq!(s.count_segments(), nr_iterations as usize);

    let mut maybe_seg = s.first_segment();
    while let Some(seg) = maybe_seg {
        let want = s.prev_gap_of_seg(&seg);
        let got = match s.prev_non_empty(&seg) {
            Some(SegOrGap::Segment(_)) => panic!("prev non empty element should be gap"),
            Some(SegOrGap::Gap(gap)) => Some(gap),
            None => None,
        };
        assert_eq!(got, want);

        let want = s.next_gap_of_seg(&seg);
        let got = match s.next_non_empty(&seg) {
            Some(SegOrGap::Gap(gap)) => Some(gap),
            Some(SegOrGap::Segment(_)) => panic!("next non empty element should be gap"),
            None => None,
        };
        assert_eq!(got, want);

        maybe_seg = s.next_segment_of_seg(&seg);
    }
}

#[test]
fn merge_split() {
    let tests = vec![
        MergeSplitTest {
            _name: "Add merges after existing segment".to_string(),
            initial: vec![
                Range {
                    start: 1000,
                    end: 1100,
                },
                Range {
                    start: 1100,
                    end: 1200,
                },
            ],
            result: vec![Range {
                start: 1000,
                end: 1200,
            }],
            ..MergeSplitTest::default()
        },
        MergeSplitTest {
            _name: "Add merges before existing segment".to_string(),
            initial: vec![
                Range {
                    start: 1100,
                    end: 1200,
                },
                Range {
                    start: 1000,
                    end: 1100,
                },
            ],
            result: vec![Range {
                start: 1000,
                end: 1200,
            }],
            ..MergeSplitTest::default()
        },
        MergeSplitTest {
            _name: "Add merges between existing segments".to_string(),
            initial: vec![
                Range {
                    start: 1000,
                    end: 1100,
                },
                Range {
                    start: 1200,
                    end: 1300,
                },
                Range {
                    start: 1100,
                    end: 1200,
                },
            ],
            result: vec![Range {
                start: 1000,
                end: 1300,
            }],
            ..MergeSplitTest::default()
        },
        MergeSplitTest {
            _name: "split_at does nothing at a free address".to_string(),
            initial: vec![Range {
                start: 100,
                end: 200,
            }],
            split_addr: Some(300),
            result: vec![Range {
                start: 100,
                end: 200,
            }],
        },
        MergeSplitTest {
            _name: "split_at does nothing at the beginning of a segment".to_string(),
            initial: vec![Range {
                start: 100,
                end: 200,
            }],
            split_addr: Some(100),
            result: vec![Range {
                start: 100,
                end: 200,
            }],
        },
        MergeSplitTest {
            _name: "split_at does nothing at the end of a segment".to_string(),
            initial: vec![Range {
                start: 100,
                end: 200,
            }],
            split_addr: Some(200),
            result: vec![Range {
                start: 100,
                end: 200,
            }],
        },
        MergeSplitTest {
            _name: "split_at splits in the middle of a segment".to_string(),
            initial: vec![Range {
                start: 100,
                end: 200,
            }],
            split_addr: Some(150),
            result: vec![
                Range {
                    start: 100,
                    end: 150,
                },
                Range {
                    start: 150,
                    end: 200,
                },
            ],
        },
    ];

    for test in tests {
        let mut s = SegmentSet::new(Ops);
        for r in &test.initial {
            assert!(s.add(*r, 0));
        }
        if let Some(split_at) = test.split_addr {
            s.split_at(split_at as u64);
        }
        let mut i = 0;
        let mut maybe_seg = s.first_segment();
        while let Some(seg) = maybe_seg {
            assert!(i < test.result.len());
            assert_eq!(seg.range, test.result[i]);
            i += 1;
            maybe_seg = s.next_segment_of_seg(&seg);
        }
        assert!(i >= test.result.len());
    }
}

#[test]
fn isolate() {
    let tests = vec![
        IsolateTest {
            _name: "Isolate does not split a segment that falls inside bounds",
            initial: Range {
                start: 100,
                end: 200,
            },
            bounds: Range {
                start: 100,
                end: 200,
            },
            result: vec![Range {
                start: 100,
                end: 200,
            }],
        },
        IsolateTest {
            _name: "Isolate splits at beginning of segment",
            initial: Range {
                start: 50,
                end: 200,
            },
            bounds: Range {
                start: 100,
                end: 200,
            },
            result: vec![
                Range {
                    start: 50,
                    end: 100,
                },
                Range {
                    start: 100,
                    end: 200,
                },
            ],
        },
        IsolateTest {
            _name: "Isolate splits at end of segment",
            initial: Range {
                start: 100,
                end: 250,
            },
            bounds: Range {
                start: 100,
                end: 200,
            },
            result: vec![
                Range {
                    start: 100,
                    end: 200,
                },
                Range {
                    start: 200,
                    end: 250,
                },
            ],
        },
        IsolateTest {
            _name: "Isolate splits at beginning and end of segment",
            initial: Range {
                start: 50,
                end: 250,
            },
            bounds: Range {
                start: 100,
                end: 200,
            },
            result: vec![
                Range {
                    start: 50,
                    end: 100,
                },
                Range {
                    start: 100,
                    end: 200,
                },
                Range {
                    start: 200,
                    end: 250,
                },
            ],
        },
    ];

    for test in tests {
        let mut s = SegmentSet::new(Ops);
        let seg = s.insert(test.initial, 0);
        let seg = s.isolate(&seg, test.bounds);
        assert!(test.is_superset_of(seg.range));
        let mut i = 0;
        let mut maybe_seg = s.first_segment();
        while let Some(seg) = maybe_seg {
            assert!(i <= test.result.len());
            assert_eq!(seg.range, test.result[i]);
            i += 1;
            maybe_seg = s.next_segment_of_seg(&seg);
        }
        assert!(i >= test.result.len());
    }
}

fn range(start: u64, end: u64) -> Range {
    Range { start, end }
}

fn filled(ranges: &[Range]) -> SegmentSet<Ops> {
    let mut s = SegmentSet::new(Ops);
    for r in ranges {
        assert!(s.add_without_merging(*r, r.start as i32 + VALUE_OFFSET));
    }
    s
}

#[test]
fn adding_over_a_segment_is_refused() {
    let mut s = filled(&[range(10, 20)]);
    assert!(!s.add(range(15, 25), 1));
    assert!(!s.add_without_merging(range(5, 11), 1));
    assert_eq!(s.inner_keys(), &vec![range(10, 20)]);
    assert!(s.add(range(20, 25), 7));
    assert_eq!(s.count_segments(), 2);
}

#[test]
fn removing_undoes_adding() {
    let mut s = filled(&[range(10, 20), range(40, 50)]);
    assert!(s.add_without_merging(range(25, 30), 3));
    let gap = s.remove(range(25, 30));
    assert_eq!(gap.range(), range(25, 30));
    assert_eq!(gap.prev_key, Some(range(10, 20)));
    assert_eq!(s.inner_keys(), &vec![range(10, 20), range(40, 50)]);
}

#[test]
fn merging_undoes_splitting() {
    let mut s = SegmentSet::new(Ops);
    assert!(s.add_without_merging(range(0, 10), 5));
    let seg = s.first_segment().unwrap();
    let (a, b) = s.split_unchecked(&seg, 4);
    assert_eq!((a.range(), b.range()), (range(0, 4), range(4, 10)));
    assert_eq!(*s.value(&a), 5);
    assert_eq!(*s.value(&b), 9);
    *s.value_mut(&b) = 5;
    let whole = s.merge(a, b).unwrap();
    assert_eq!(whole.range(), range(0, 10));
    assert_eq!(s.inner_values(), &vec![5]);
}

#[test]
fn spans_count_what_is_covered() {
    let s = filled(&[range(10, 20), range(20, 25), range(40, 50)]);
    assert_eq!(s.span(), 25);
    assert_eq!(s.span_range(range(15, 45)), 15);
    assert_eq!(s.span_range(range(30, 40)), 0);
}

#[test]
fn every_key_lies_in_a_segment_or_in_a_gap() {
    let s = filled(&[range(10, 20), range(20, 25), range(40, 50)]);
    for k in 0..60u64 {
        match (s.find_segment(k), s.find_gap(k)) {
            (Some(seg), None) => assert!(seg.range().contains(k)),
            (None, Some(gap)) => assert!(gap.start() <= k && k < gap.end()),
            _ => panic!("key {} lies in both or in neither", k),
        }
    }
}

#[test]
fn bounds_find_the_nearest() {
    let s = filled(&[range(10, 20), range(40, 50)]);
    assert_eq!(s.lower_bound_segment(15).unwrap().range(), range(10, 20));
    assert_eq!(s.lower_bound_segment(20).unwrap().range(), range(40, 50));
    assert_eq!(s.lower_bound_segment(50), None);
    assert_eq!(s.upper_bound_segment(39).unwrap().range(), range(10, 20));
    assert_eq!(s.upper_bound_segment(9), None);
    assert_eq!(s.lower_bound_gap(15).unwrap().start(), 20);
    let g: Gap = s.first_gap().unwrap();
    assert_eq!(g.range(), range(0, 10));
    assert!(g.is_superset_of(&range(2, 3)));
}

#[test]
fn sorted_slices_are_imported() {
    let slices = SegmentDataSlices {
        start: vec![10, 30],
        end: vec![20, 40],
        values: vec![1, 2],
    };
    let mut s = SegmentSet::new(Ops);
    assert_eq!(s.import_sorted_slices(&slices), Ok(()));
    assert_eq!(s.inner_keys(), &vec![range(10, 20), range(30, 40)]);
    assert_eq!(s.inner_values(), &vec![1, 2]);
    assert_eq!(s.import_sorted_slices(&slices), Err(ImportError::NotEmpty));
}

#[test]
fn unsorted_slices_are_refused() {
    let slices = SegmentDataSlices {
        start: vec![30, 10],
        end: vec![40, 20],
        values: vec![1, 2],
    };
    let mut s = SegmentSet::new(Ops);
    assert_eq!(
        s.import_sorted_slices(&slices),
        Err(ImportError::Unsorted { start: 10, end: 20 })
    );
}

#[test]
fn contiguous_segments_are_changed_up_to_a_gap() {
    let mut s = filled(&[range(10, 20), range(20, 25), range(40, 50)]);
    let gap = s.apply_contiguous(range(12, 45), |_, _| 7);
    assert_eq!(gap.map(|g| g.range()), Some(range(25, 40)));
    assert_eq!(
        s.inner_keys(),
        &vec![range(10, 12), range(12, 20), range(20, 25), range(40, 50)]
    );
    assert_eq!(
        s.inner_values(),
        &vec![10 + VALUE_OFFSET, 7, 7, 40 + VALUE_OFFSET]
    );
}

#[test]
fn neighbours_are_joined_where_they_agree() {
    let mut s = SegmentSet::new(Ops);
    for i in 0..5u64 {
        assert!(s.add_without_merging(range(10 * i, 10 * i + 10), 1));
    }
    s.merge_range(range(10, 30));
    assert_eq!(s.inner_keys(), &vec![range(0, 10), range(10, 30), range(30, 40), range(40, 50)]);
    s.merge_adjacant(range(10, 30));
    assert_eq!(s.inner_keys(), &vec![range(0, 40), range(40, 50)]);
    let first: Seg = s.first_segment().unwrap();
    assert_eq!(first.next_key, Some(range(40, 50)));
}
