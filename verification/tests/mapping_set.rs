use sentinel::memmap::{InvalidateOpts, MappingSet, MappingSetOperations};
use sentinel::range::Range;

#[test]
fn add_remove_mapping() {
    let ops = MappingSetOperations;
    let mut set = MappingSet::new(ops);

    let mapped = set.add_mapping(
        Range {
            start: 0x10000,
            end: 0x12000,
        },
        0x1000,
        true,
    );
    assert_eq!(
        mapped,
        vec![Range {
            start: 0x1000,
            end: 0x3000
        }]
    );

    let mapped = set.add_mapping(
        Range {
            start: 0x20000,
            end: 0x21000,
        },
        0x2000,
        true,
    );
    assert!(mapped.is_empty());

    let mapped = set.add_mapping(
        Range {
            start: 0x30000,
            end: 0x31000,
        },
        0x4000,
        true,
    );
    assert_eq!(
        mapped,
        vec![Range {
            start: 0x4000,
            end: 0x5000
        }]
    );

    let mapped = set.add_mapping(
        Range {
            start: 0x12000,
            end: 0x15000,
        },
        0x3000,
        true,
    );
    assert_eq!(
        mapped,
        vec![
            Range {
                start: 0x3000,
                end: 0x4000,
            },
            Range {
                start: 0x5000,
                end: 0x6000,
            },
        ]
    );

    let unmapped = set.remove_mapping(
        Range {
            start: 0x10000,
            end: 0x11000,
        },
        0x1000,
        true,
    );
    assert_eq!(
        unmapped,
        vec![Range {
            start: 0x1000,
            end: 0x2000
        }]
    );

    let unmapped = set.remove_mapping(
        Range {
            start: 0x20000,
            end: 0x21000,
        },
        0x2000,
        true,
    );
    assert!(unmapped.is_empty());

    let unmapped = set.remove_mapping(
        Range {
            start: 0x11000,
            end: 0x15000,
        },
        0x2000,
        true,
    );
    assert_eq!(
        unmapped,
        vec![
            Range {
                start: 0x2000,
                end: 0x4000,
            },
            Range {
                start: 0x5000,
                end: 0x6000,
            },
        ]
    );

    let unmapped = set.remove_mapping(
        Range {
            start: 0x30000,
            end: 0x31000,
        },
        0x4000,
        true,
    );
    assert_eq!(
        unmapped,
        vec![Range {
            start: 0x4000,
            end: 0x5000
        }]
    );
}

#[test]
fn mixed_writeable_mappings() {
    let ops = MappingSetOperations;
    let mut set = MappingSet::new(ops);

    let mapped = set.add_mapping(
        Range {
            start: 0x10000,
            end: 0x12000,
        },
        0x1000,
        true,
    );
    assert_eq!(
        mapped,
        vec![Range {
            start: 0x1000,
            end: 0x3000
        }]
    );

    let mapped = set.add_mapping(
        Range {
            start: 0x20000,
            end: 0x22000,
        },
        0x2000,
        false,
    );
    assert_eq!(
        mapped,
        vec![Range {
            start: 0x3000,
            end: 0x4000
        }]
    );

    let unmapped = set.remove_mapping(
        Range {
            start: 0x20000,
            end: 0x21000,
        },
        0x2000,
        true,
    );
    assert!(unmapped.is_empty());

    let unmapped = set.remove_mapping(
        Range {
            start: 0x20000,
            end: 0x21000,
        },
        0x2000,
        false,
    );
    assert!(unmapped.is_empty());

    let unmapped = set.remove_mapping(
        Range {
            start: 0x11000,
            end: 0x12000,
        },
        0x2000,
        true,
    );
    assert_eq!(
        unmapped,
        vec![Range {
            start: 0x2000,
            end: 0x3000
        }]
    );

    let unmapped = set.remove_mapping(
        Range {
            start: 0x10000,
            end: 0x12000,
        },
        0x1000,
        false,
    );
    assert!(unmapped.is_empty());

    let unmapped = set.remove_mapping(
        Range {
            start: 0x10000,
            end: 0x12000,
        },
        0x1000,
        true,
    );
    assert_eq!(
        unmapped,
        vec![Range {
            start: 0x1000,
            end: 0x2000
        }]
    );

    let unmapped = set.remove_mapping(
        Range {
            start: 0x21000,
            end: 0x22000,
        },
        0x3000,
        false,
    );
    assert_eq!(
        unmapped,
        vec![Range {
            start: 0x3000,
            end: 0x4000
        }]
    );
}

fn range(start: u64, end: u64) -> Range {
    Range { start, end }
}

fn invalidated(set: &MappingSet, mr: Range) -> Vec<Range> {
    let opts = InvalidateOpts {
        invalidate_private: false,
    };
    set.invalidate(mr, opts)
        .iter()
        .map(|i| i.addr_range)
        .collect()
}

#[test]
fn invalidate_whole_mapping() {
    let mut set = MappingSet::new(MappingSetOperations);
    set.add_mapping(range(0x10000, 0x11000), 0, true);
    assert_eq!(
        invalidated(&set, range(0, 0x1000)),
        vec![range(0x10000, 0x11000)]
    );
}

#[test]
fn invalidate_partial_mapping() {
    let mut set = MappingSet::new(MappingSetOperations);
    set.add_mapping(range(0x10000, 0x13000), 0, true);
    assert_eq!(
        invalidated(&set, range(0x1000, 0x2000)),
        vec![range(0x11000, 0x12000)]
    );
}

#[test]
fn invalidate_multiple_mappings() {
    let mut set = MappingSet::new(MappingSetOperations);
    set.add_mapping(range(0x10000, 0x11000), 0, true);
    set.add_mapping(range(0x20000, 0x21000), 0x2000, true);
    assert_eq!(
        invalidated(&set, range(0, 0x3000)),
        vec![range(0x10000, 0x11000), range(0x20000, 0x21000)]
    );
}

#[test]
fn invalidate_overlapping_mappings() {
    let mut set = MappingSet::new(MappingSetOperations);
    set.add_mapping(range(0x10000, 0x12000), 0, true);
    set.add_mapping(range(0x20000, 0x22000), 0x1000, true);
    let mut inv = invalidated(&set, range(0x1000, 0x2000));
    inv.sort_by_key(|r| r.start);
    assert_eq!(
        inv,
        vec![range(0x11000, 0x12000), range(0x20000, 0x21000)]
    );
}

#[test]
fn removing_a_mapping_undoes_adding_it() {
    let mut set = MappingSet::new(MappingSetOperations);
    set.add_mapping(range(0x10000, 0x13000), 0x1000, true);
    let before: Vec<Range> = set.inner_keys().clone();
    let mapped = set.add_mapping(range(0x50000, 0x52000), 0x8000, false);
    let unmapped = set.remove_mapping(range(0x50000, 0x52000), 0x8000, false);
    assert_eq!(mapped, unmapped);
    assert_eq!(set.inner_keys(), &before);
}

#[test]
fn removals_come_to_the_same_in_any_order() {
    let mut a = MappingSet::new(MappingSetOperations);
    let mut b = MappingSet::new(MappingSetOperations);
    for set in [&mut a, &mut b] {
        set.add_mapping(range(0x10000, 0x14000), 0, true);
        set.add_mapping(range(0x30000, 0x32000), 0x1000, false);
    }
    a.remove_mapping(range(0x10000, 0x14000), 0, true);
    a.remove_mapping(range(0x30000, 0x32000), 0x1000, false);
    b.remove_mapping(range(0x30000, 0x32000), 0x1000, false);
    b.remove_mapping(range(0x10000, 0x14000), 0, true);
    assert!(a.is_empty());
    assert!(b.is_empty());
}

#[test]
fn noted_ranges_are_single_parts() {
    let mut set = MappingSet::new(MappingSetOperations);
    let all = Range {
        start: 0x10000,
        end: 0x13000,
    };
    let whole = Range {
        start: 0,
        end: 0x3000,
    };
    assert_eq!(set.add_mapping(all, 0, true), vec![whole]);
    assert_eq!(set.inner_keys(), &vec![whole]);
    let part = Range {
        start: 0x1000,
        end: 0x2000,
    };
    let at = Range {
        start: 0x11000,
        end: 0x12000,
    };
    assert_eq!(invalidated(&set, part), vec![at]);
    assert_eq!(set.inner_keys(), &vec![whole]);
    assert_eq!(set.remove_mapping(at, 0x1000, true), vec![part]);
    assert_eq!(
        set.inner_keys(),
        &vec![Range { start: 0, end: 0x1000 }, Range { start: 0x2000, end: 0x3000 }]
    );
}

#[test]
fn what_is_left_is_joined_at_the_rim() {
    let mut set = MappingSet::new(MappingSetOperations);
    let a = Range {
        start: 0x10000,
        end: 0x12000,
    };
    let b = Range {
        start: 0x21000,
        end: 0x22000,
    };
    set.add_mapping(a, 0, false);
    assert_eq!(set.add_mapping(b, 0x1000, false), vec![]);
    assert_eq!(set.inner_keys().len(), 2);
    assert_eq!(set.remove_mapping(b, 0x1000, false), vec![]);
    assert_eq!(set.inner_keys(), &vec![Range { start: 0, end: 0x2000 }]);
}
