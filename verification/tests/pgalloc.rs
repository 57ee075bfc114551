use sentinel::access::AccessType;
use sentinel::addr::{HUGE_PAGE_SIZE, PAGE_SIZE};
use sentinel::errno::{SysError, EACCES, ENOMEM};
use sentinel::pgalloc::{
    filled_range, find_available_range, find_available_range_bottom_up, total_usage, AllocOpts, DelayedEviction, Direction,
    MapStep, MemoryFile, MemoryFileOpts, MemoryKind, UsageInfo, UsageInfoSetOperations, UsageSet,
};
use sentinel::range::Range;
use sentinel::segment::{SegmentDataSlices, CHUNK_SIZE};

const PAGE: u64 = PAGE_SIZE;
const HUGE_PAGE: u64 = HUGE_PAGE_SIZE;
const TOP_PAGE: u64 = (1 << 63) - PAGE;

type UsageSegmentDataSlices = SegmentDataSlices<UsageInfo>;

struct Test {
    usage: UsageSegmentDataSlices,
    file_size: u64,
    length: u64,
    alignment: u64,
    direction: Direction,
    want: Result<u64, ()>,
}

#[test]
fn find_unallocated_range() {
    for test in &[
        Test {
            usage: UsageSegmentDataSlices::default(),
            file_size: 0,
            length: PAGE,
            alignment: PAGE,
            direction: Direction::BottomUp,
            want: Ok(0),
        },
        Test {
            usage: UsageSegmentDataSlices::default(),
            file_size: 0,
            length: PAGE,
            alignment: PAGE,
            direction: Direction::TopDown,
            want: Ok(CHUNK_SIZE as u64 - PAGE),
        },
        Test {
            usage: UsageSegmentDataSlices {
                start: vec![PAGE],
                end: vec![2 * PAGE],
                values: vec![UsageInfo {
                    kind: MemoryKind::System,
                    known_committed: false,
                }],
            },
            file_size: 0,
            length: PAGE,
            alignment: PAGE,
            direction: Direction::BottomUp,
            want: Ok(0),
        },
        Test {
            usage: UsageSegmentDataSlices {
                start: vec![PAGE],
                end: vec![2 * PAGE],
                values: vec![UsageInfo {
                    kind: MemoryKind::System,
                    known_committed: false,
                }],
            },
            file_size: 2 * PAGE,
            length: PAGE,
            alignment: PAGE,
            direction: Direction::TopDown,
            want: Ok(0),
        },
        Test {
            usage: UsageSegmentDataSlices {
                start: vec![0],
                end: vec![PAGE],
                values: vec![UsageInfo {
                    kind: MemoryKind::System,
                    known_committed: false,
                }],
            },
            file_size: 2 * PAGE,
            length: PAGE,
            alignment: PAGE,
            direction: Direction::TopDown,
            want: Ok(PAGE),
        },
        Test {
            usage: UsageSegmentDataSlices {
                start: vec![0, PAGE],
                end: vec![PAGE, 2 * PAGE],
                values: vec![
                    UsageInfo {
                        kind: MemoryKind::System,
                        known_committed: false,
                    },
                    UsageInfo {
                        kind: MemoryKind::System,
                        known_committed: false,
                    },
                ],
            },
            file_size: 0,
            length: PAGE,
            alignment: PAGE,
            direction: Direction::BottomUp,
            want: Ok(2 * PAGE),
        },
        Test {
            usage: UsageSegmentDataSlices {
                start: vec![0, PAGE],
                end: vec![PAGE, 2 * PAGE],
                values: vec![
                    UsageInfo {
                        kind: MemoryKind::System,
                        known_committed: false,
                    },
                    UsageInfo {
                        kind: MemoryKind::System,
                        known_committed: false,
                    },
                ],
            },
            file_size: 2 * PAGE,
            length: PAGE,
            alignment: PAGE,
            direction: Direction::TopDown,
            want: Ok(3 * PAGE),
        },
        Test {
            usage: UsageSegmentDataSlices {
                start: vec![0, PAGE, 2 * PAGE],
                end: vec![PAGE, 2 * PAGE, 3 * PAGE],
                values: vec![
                    UsageInfo {
                        kind: MemoryKind::System,
                        known_committed: false,
                    },
                    UsageInfo {
                        kind: MemoryKind::System,
                        known_committed: false,
                    },
                    UsageInfo {
                        kind: MemoryKind::System,
                        known_committed: false,
                    },
                ],
            },
            file_size: 0,
            length: PAGE,
            alignment: PAGE,
            direction: Direction::BottomUp,
            want: Ok(3 * PAGE),
        },
        Test {
            usage: UsageSegmentDataSlices {
                start: vec![0, PAGE, 2 * PAGE],
                end: vec![PAGE, 2 * PAGE, 3 * PAGE],
                values: vec![
                    UsageInfo {
                        kind: MemoryKind::System,
                        known_committed: false,
                    },
                    UsageInfo {
                        kind: MemoryKind::System,
                        known_committed: false,
                    },
                    UsageInfo {
                        kind: MemoryKind::System,
                        known_committed: false,
                    },
                ],
            },
            file_size: 3 * PAGE,
            length: PAGE,
            alignment: PAGE,
            direction: Direction::TopDown,
            want: Ok(5 * PAGE),
        },
        Test {
            usage: UsageSegmentDataSlices {
                start: vec![0, 2 * PAGE],
                end: vec![PAGE, 3 * PAGE],
                values: vec![
                    UsageInfo {
                        kind: MemoryKind::System,
                        known_committed: false,
                    },
                    UsageInfo {
                        kind: MemoryKind::System,
                        known_committed: false,
                    },
                ],
            },
            file_size: 3 * PAGE,
            length: PAGE,
            alignment: PAGE,
            direction: Direction::TopDown,
            want: Ok(PAGE),
        },
        Test {
            usage: UsageSegmentDataSlices {
                start: vec![0, 2 * PAGE],
                end: vec![PAGE, 3 * PAGE],
                values: vec![
                    UsageInfo {
                        kind: MemoryKind::System,
                        known_committed: false,
                    },
                    UsageInfo {
                        kind: MemoryKind::System,
                        known_committed: false,
                    },
                ],
            },
            file_size: 0,
            length: 2 * PAGE,
            alignment: PAGE,
            direction: Direction::BottomUp,
            want: Ok(3 * PAGE),
        },
        Test {
            usage: UsageSegmentDataSlices {
                start: vec![0, 2 * PAGE],
                end: vec![PAGE, 3 * PAGE],
                values: vec![
                    UsageInfo {
                        kind: MemoryKind::System,
                        known_committed: false,
                    },
                    UsageInfo {
                        kind: MemoryKind::System,
                        known_committed: false,
                    },
                ],
            },
            file_size: 3 * PAGE,
            length: 2 * PAGE,
            alignment: PAGE,
            direction: Direction::TopDown,
            want: Ok(4 * PAGE),
        },
        Test {
            usage: UsageSegmentDataSlices {
                start: vec![0, HUGE_PAGE + PAGE],
                end: vec![PAGE, HUGE_PAGE + 2 * PAGE],
                values: vec![
                    UsageInfo {
                        kind: MemoryKind::System,
                        known_committed: false,
                    },
                    UsageInfo {
                        kind: MemoryKind::System,
                        known_committed: false,
                    },
                ],
            },
            file_size: 0,
            length: HUGE_PAGE,
            alignment: HUGE_PAGE,
            direction: Direction::BottomUp,
            want: Ok(2 * HUGE_PAGE),
        },
        Test {
            usage: UsageSegmentDataSlices {
                start: vec![0, HUGE_PAGE + PAGE],
                end: vec![PAGE, HUGE_PAGE + 2 * PAGE],
                values: vec![
                    UsageInfo {
                        kind: MemoryKind::System,
                        known_committed: false,
                    },
                    UsageInfo {
                        kind: MemoryKind::System,
                        known_committed: false,
                    },
                ],
            },
            file_size: HUGE_PAGE + 2 * PAGE,
            length: HUGE_PAGE,
            alignment: HUGE_PAGE,
            direction: Direction::TopDown,
            want: Ok(3 * HUGE_PAGE),
        },
        Test {
            usage: UsageSegmentDataSlices {
                start: vec![0, 2 * HUGE_PAGE + PAGE],
                end: vec![PAGE, 2 * HUGE_PAGE + 2 * PAGE],
                values: vec![
                    UsageInfo {
                        kind: MemoryKind::System,
                        known_committed: false,
                    },
                    UsageInfo {
                        kind: MemoryKind::System,
                        known_committed: false,
                    },
                ],
            },
            file_size: 2 * HUGE_PAGE + 2 * PAGE,
            length: HUGE_PAGE,
            alignment: HUGE_PAGE,
            direction: Direction::TopDown,
            want: Ok(HUGE_PAGE),
        },
        Test {
            usage: UsageSegmentDataSlices::default(),
            file_size: PAGE,
            length: 4 * PAGE,
            alignment: PAGE,
            direction: Direction::BottomUp,
            want: Ok(0),
        },
        Test {
            usage: UsageSegmentDataSlices::default(),
            file_size: PAGE,
            length: 4 * PAGE,
            alignment: PAGE,
            direction: Direction::TopDown,
            want: Ok(0),
        },
        Test {
            usage: UsageSegmentDataSlices {
                start: vec![PAGE, 3 * PAGE],
                end: vec![2 * PAGE, 4 * PAGE],
                values: vec![
                    UsageInfo {
                        kind: MemoryKind::System,
                        known_committed: false,
                    },
                    UsageInfo {
                        kind: MemoryKind::System,
                        known_committed: false,
                    },
                ],
            },
            file_size: 4 * PAGE,
            length: PAGE,
            alignment: PAGE,
            direction: Direction::TopDown,
            want: Ok(2 * PAGE),
        },
        Test {
            usage: UsageSegmentDataSlices {
                start: vec![PAGE, 4 * PAGE, 7 * PAGE],
                end: vec![2 * PAGE, 5 * PAGE, 8 * PAGE],
                values: vec![
                    UsageInfo {
                        kind: MemoryKind::System,
                        known_committed: false,
                    },
                    UsageInfo {
                        kind: MemoryKind::System,
                        known_committed: false,
                    },
                    UsageInfo {
                        kind: MemoryKind::System,
                        known_committed: false,
                    },
                ],
            },
            file_size: 8 * PAGE,
            length: PAGE,
            alignment: PAGE,
            direction: Direction::TopDown,
            want: Ok(6 * PAGE),
        },
        Test {
            usage: UsageSegmentDataSlices {
                start: vec![PAGE, 3 * PAGE, 5 * PAGE],
                end: vec![2 * PAGE, 4 * PAGE, 6 * PAGE],
                values: vec![
                    UsageInfo {
                        kind: MemoryKind::System,
                        known_committed: false,
                    },
                    UsageInfo {
                        kind: MemoryKind::System,
                        known_committed: false,
                    },
                    UsageInfo {
                        kind: MemoryKind::System,
                        known_committed: false,
                    },
                ],
            },
            file_size: 6 * PAGE,
            length: PAGE,
            alignment: PAGE,
            direction: Direction::TopDown,
            want: Ok(4 * PAGE),
        },
        Test {
            usage: UsageSegmentDataSlices {
                start: vec![PAGE, 3 * PAGE],
                end: vec![2 * PAGE, 4 * PAGE],
                values: vec![
                    UsageInfo {
                        kind: MemoryKind::System,
                        known_committed: false,
                    },
                    UsageInfo {
                        kind: MemoryKind::System,
                        known_committed: false,
                    },
                ],
            },
            file_size: 8 * PAGE,
            length: PAGE,
            alignment: PAGE,
            direction: Direction::TopDown,
            want: Ok(7 * PAGE),
        },
        Test {
            usage: UsageSegmentDataSlices {
                start: vec![PAGE, TOP_PAGE - PAGE],
                end: vec![2 * PAGE, TOP_PAGE],
                values: vec![
                    UsageInfo {
                        kind: MemoryKind::System,
                        known_committed: false,
                    },
                    UsageInfo {
                        kind: MemoryKind::System,
                        known_committed: false,
                    },
                ],
            },
            file_size: TOP_PAGE,
            length: PAGE,
            alignment: PAGE,
            direction: Direction::TopDown,
            want: Ok(TOP_PAGE - 2 * PAGE),
        },
        Test {
            usage: UsageSegmentDataSlices {
                start: vec![0, 3 * PAGE],
                end: vec![2 * PAGE, 4 * PAGE],
                values: vec![
                    UsageInfo {
                        kind: MemoryKind::System,
                        known_committed: false,
                    },
                    UsageInfo {
                        kind: MemoryKind::System,
                        known_committed: false,
                    },
                ],
            },
            file_size: 0,
            length: PAGE,
            alignment: PAGE,
            direction: Direction::BottomUp,
            want: Ok(2 * PAGE),
        },
        Test {
            usage: UsageSegmentDataSlices {
                start: vec![PAGE],
                end: vec![TOP_PAGE],
                values: vec![UsageInfo {
                    kind: MemoryKind::System,
                    known_committed: false,
                }],
            },
            file_size: TOP_PAGE,
            length: 2 * PAGE,
            alignment: PAGE,
            direction: Direction::BottomUp,
            want: Err(()),
        },
        Test {
            usage: UsageSegmentDataSlices {
                start: vec![PAGE],
                end: vec![TOP_PAGE],
                values: vec![UsageInfo {
                    kind: MemoryKind::System,
                    known_committed: false,
                }],
            },
            file_size: TOP_PAGE,
            length: 2 * PAGE,
            alignment: PAGE,
            direction: Direction::TopDown,
            want: Err(()),
        },
    ] {
        let mut usage = UsageSet::new(UsageInfoSetOperations);
        let res = usage.import_sorted_slices(&test.usage);
        assert!(res.is_ok());

        match find_available_range(
            &usage,
            test.file_size as i64,
            test.length,
            test.alignment,
            test.direction,
        ) {
            Some(fr) => {
                assert!(test.want.is_ok());
                assert_eq!(fr.start, test.want.unwrap());
                assert_eq!(fr.end, test.want.unwrap() + test.length);
            }
            None => {
                assert!(test.want.is_err());
            }
        }
    }
}

fn opts(dir: Direction) -> AllocOpts {
    AllocOpts {
        kind: MemoryKind::Anonymous,
        dir,
    }
}

#[test]
fn allocation_grows_the_file_by_chunks() {
    let mut mf = MemoryFile::new(MemoryFileOpts::default());
    assert_eq!(mf.total_size(), 0);
    let plan = mf.plan(PAGE, &opts(Direction::BottomUp)).unwrap();
    assert_eq!(plan.file_size, CHUNK_SIZE);
    let fr = mf.allocate(PAGE, opts(Direction::BottomUp), Ok(())).unwrap();
    assert_eq!(fr, Range { start: 0, end: PAGE });
    assert_eq!(mf.total_size(), CHUNK_SIZE as u64);
    let fr = mf.allocate(PAGE, opts(Direction::TopDown), Ok(())).unwrap();
    assert_eq!(fr.end, CHUNK_SIZE as u64);
    assert_eq!(mf.total_size(), CHUNK_SIZE as u64);
}

#[test]
fn allocations_do_not_meet() {
    let mut mf = MemoryFile::new(MemoryFileOpts::default());
    let mut got: Vec<Range> = Vec::new();
    for i in 1..20u64 {
        let dir = if i % 2 == 0 {
            Direction::BottomUp
        } else {
            Direction::TopDown
        };
        let fr = mf.allocate(i * PAGE, opts(dir), Ok(())).unwrap();
        assert_eq!(fr.len(), i * PAGE);
        for other in &got {
            assert!(!fr.overlaps(other));
        }
        got.push(fr);
    }
}

#[test]
fn huge_allocations_are_aligned() {
    let mut mf = MemoryFile::new(MemoryFileOpts::default());
    mf.allocate(PAGE, opts(Direction::BottomUp), Ok(())).unwrap();
    let fr = mf
        .allocate(HUGE_PAGE, opts(Direction::BottomUp), Ok(()))
        .unwrap();
    assert_eq!(fr.start, HUGE_PAGE);
}

#[test]
fn a_file_that_cannot_grow_allocates_nothing() {
    let mut mf = MemoryFile::new(MemoryFileOpts::default());
    let e = SysError::new(28);
    assert_eq!(
        mf.allocate(PAGE, opts(Direction::BottomUp), Err(e)),
        Err(e)
    );
    assert_eq!(mf.total_size(), 0);
    assert!(mf.usage.is_empty());
}

#[test]
fn there_is_no_room_for_too_much() {
    let mf = MemoryFile::new(MemoryFileOpts::default());
    let too_much = 0u64.wrapping_sub(PAGE);
    assert_eq!(
        mf.plan(too_much, &opts(Direction::BottomUp)).err(),
        Some(SysError::new(ENOMEM))
    );
}

#[test]
fn ranges_are_mapped_chunk_by_chunk() {
    let mut mf = MemoryFile::new(MemoryFileOpts::default());
    let length = CHUNK_SIZE as u64 + PAGE;
    let fr = mf.allocate(length, opts(Direction::BottomUp), Ok(())).unwrap();
    assert_eq!(
        mf.map_internal(fr, AccessType::any_access()).err(),
        Some(SysError::new(EACCES))
    );
    let mut chunks = 0;
    let blocks = loop {
        match mf.map_internal(fr, AccessType::read_write()).unwrap() {
            MapStep::NeedChunk(c) => {
                assert_eq!(mf.chunk_mapping(c), None);
                mf.set_chunk_mapping(c, 0x7000_0000_0000 + c * CHUNK_SIZE as u64);
                chunks += 1;
            }
            MapStep::Mapped(b) => break b,
        }
    };
    assert_eq!(chunks, 2);
    assert_eq!(mf.chunk_mapping(0), Some(0x7000_0000_0000));
    let total: u64 = (0..blocks.len()).map(|i| blocks.block(i).len).sum();
    assert_eq!(total, length);
    assert_eq!(blocks.block(0).addr, 0x7000_0000_0000 + fr.start);
}

#[test]
fn delayed_eviction_has_a_default() {
    let mf = MemoryFile::new(MemoryFileOpts::default());
    assert!(mf.opts.delayed_eviction == DelayedEviction::Enabled);
    assert!(!mf.should_cache_evictable());
    let mut o = MemoryFileOpts::default();
    o.use_host_memcg_pressure = true;
    assert!(MemoryFile::new(o).should_cache_evictable());
}

#[test]
fn filled_ranges_end_at_pages() {
    let fr = Range {
        start: 4 * PAGE,
        end: 8 * PAGE,
    };
    assert_eq!(filled_range(fr, PAGE + 1).end, 5 * PAGE);
    assert_eq!(filled_range(fr, 100 * PAGE).end, 8 * PAGE);
    assert_eq!(total_usage(3), 1536);
}

#[test]
fn allocations_are_used_as_asked() {
    let mut mf = MemoryFile::new(MemoryFileOpts::default());
    let system = AllocOpts {
        kind: MemoryKind::System,
        dir: Direction::BottomUp,
    };
    let a = mf.allocate(PAGE, system, Ok(())).unwrap();
    let b = mf
        .allocate(2 * PAGE, opts(Direction::BottomUp), Ok(()))
        .unwrap();
    assert_eq!(mf.usage.inner_keys(), &vec![a, b]);
    let kinds: Vec<bool> = mf
        .usage
        .inner_values()
        .iter()
        .map(|u| u.kind == MemoryKind::System)
        .collect();
    assert_eq!(kinds, vec![true, false]);
    assert!(mf.usage.inner_values().iter().all(|u| !u.known_committed));
}

#[test]
fn ranges_have_a_common_part() {
    let a = Range { start: 10, end: 20 };
    let b = Range { start: 15, end: 30 };
    let c = a.intersect(&b);
    assert_eq!(c, Range { start: 15, end: 20 });
    for k in 0..40 {
        assert_eq!(c.contains(k), a.contains(k) && b.contains(k));
    }
    let apart = a.intersect(&Range { start: 25, end: 30 });
    assert!(apart.is_empty());
    assert!(a.overlaps(&b));
    assert!(!a.overlaps(&Range { start: 20, end: 30 }));
    assert!(a.is_superset_of(&Range { start: 12, end: 20 }));
    assert!(a.can_split_at(15) && !a.can_split_at(10) && !a.can_split_at(20));
    assert!(!Range { start: 2, end: 1 }.is_well_formed());
}

#[test]
fn the_greatest_alignment_leaves_one_place() {
    let mut usage = UsageSet::new(UsageInfoSetOperations);
    let found = find_available_range_bottom_up(&usage, PAGE, 1 << 63);
    assert_eq!(found, Some(Range { start: 0, end: PAGE }));
    let info = UsageInfo {
        kind: MemoryKind::Anonymous,
        known_committed: false,
    };
    usage.insert(Range { start: 0, end: PAGE }, info);
    assert_eq!(find_available_range_bottom_up(&usage, PAGE, 1 << 63), None);
}

#[test]
fn files_are_mapped_by_chunks() {
    let mut f = MemoryFile::new(MemoryFileOpts::default());
    let opts = AllocOpts {
        kind: MemoryKind::Anonymous,
        dir: Direction::BottomUp,
    };
    let size = CHUNK_SIZE as u64 + PAGE;
    let fr = f.allocate(size, opts, Ok(())).unwrap();
    f.set_chunk_mapping(0, 0x10_0000_0000);
    f.set_chunk_mapping(1, 0x70_0000_0000);
    let part = Range {
        start: fr.start + CHUNK_SIZE as u64 - PAGE,
        end: fr.end,
    };
    let all = match f.map_internal(part, AccessType::read()) {
        Ok(MapStep::Mapped(b)) => b,
        other => panic!("{:?}", other),
    };
    assert_eq!(all.len(), 2);
    assert_eq!(all.block(0).addr, 0x10_0000_0000 + CHUNK_SIZE as u64 - PAGE);
    assert_eq!(all.block(0).len, PAGE);
    assert_eq!(all.block(1).addr, 0x70_0000_0000);
    assert_eq!(all.block(1).len, PAGE);
}
