use vstd::prelude::*;

use crate::memmap::mappable::InvalidateOpts;
use crate::range::{AddrRange, MappableRange, Range};
use crate::segment::keys::{free, held_at, sorted};
use crate::segment::model::{
    holder, join_value, joined, joined_outside, lemma_sorted_insert, lemma_wf_set, lemma_wf_with,
    lemma_wf_without, wf_segments, Segments,
};
use crate::segment::point::{
    joining_outside_keeps, lemma_point_free, lemma_point_held, point, set_speaks, with_speaks,
    without_is_silent, PointOperations,
};
use crate::segment::span::{
    below, carved, carving_keeps, cut_at_key, cutting_at_key_keeps, lemma_carved_pieces, parted, uncut,
};
use crate::segment::{SegmentSet, SetOperations};

verus! {

/// A range of addresses at which part of an object is mapped.
#[derive(Debug, Clone, Copy, PartialEq, Eq, Structural, Hash)]
pub struct MappingOfRange {
    pub addr_range: AddrRange,
    pub writable: bool,
}

/// The mappings of one part of an object. None of them occurs twice.
#[derive(Debug)]
pub struct MappingsOfRange {
    pub items: Vec<MappingOfRange>,
}

impl View for MappingsOfRange {
    type V = Seq<MappingOfRange>;

    open spec fn view(&self) -> Seq<MappingOfRange> {
        self.items@
    }
}

/// Where mapping `m` of part `r` has the object's offset `k`.
pub open spec fn place_of(r: MappableRange, m: MappingOfRange, k: int) -> (int, bool) {
    (m.addr_range.start + (k - r.start), m.writable)
}

/// Where the mappings of part `r` have the object's offset `k`.
pub open spec fn places(r: MappableRange, v: Seq<MappingOfRange>, k: int) -> Set<(int, bool)> {
    Set::new(
        |x: (int, bool)| exists|i: int| 0 <= i < v.len() && x == place_of(r, #[trigger] v[i], k),
    )
}

/// The mappings are as long as the part that they map, and differ.
pub open spec fn fitting(r: Range, v: Seq<MappingOfRange>) -> bool {
    &&& v.no_duplicates()
    &&& forall|i: int|
        0 <= i < v.len() ==> {
            &&& (#[trigger] v[i]).addr_range.well_formed()
            &&& v[i].addr_range.length() == r.length()
        }
}

/// Mapping `n`, of part `r2`, goes on where `m` ends.
pub open spec fn follows(m: MappingOfRange, n: MappingOfRange, r2: Range) -> bool {
    &&& n.writable == m.writable
    &&& n.addr_range.start == m.addr_range.end
    &&& n.addr_range.end == m.addr_range.end + r2.length()
}

/// Mapping `m` goes on in `v2`.
pub open spec fn goes_on(m: MappingOfRange, v2: Seq<MappingOfRange>, r2: Range) -> bool {
    exists|j: int| 0 <= j < v2.len() && follows(m, #[trigger] v2[j], r2)
}

/// Each mapping in `v1` goes on in `v2`.
pub open spec fn all_follow(v1: Seq<MappingOfRange>, v2: Seq<MappingOfRange>, r2: Range) -> bool {
    forall|i: int| 0 <= i < v1.len() ==> goes_on(#[trigger] v1[i], v2, r2)
}

/// The mapping made longer by the length of `r2`.
pub open spec fn longer(m: MappingOfRange, r2: Range) -> MappingOfRange {
    MappingOfRange {
        addr_range: Range {
            start: m.addr_range.start,
            end: (m.addr_range.end + r2.length()) as u64,
        },
        writable: m.writable,
    }
}

/// The first `n` addresses of the mapping.
pub open spec fn first_of(m: MappingOfRange, n: int) -> MappingOfRange {
    MappingOfRange {
        addr_range: Range { start: m.addr_range.start, end: (m.addr_range.start + n) as u64 },
        writable: m.writable,
    }
}

/// The mapping past its first `n` addresses.
pub open spec fn rest_of(m: MappingOfRange, n: int) -> MappingOfRange {
    MappingOfRange {
        addr_range: Range { start: (m.addr_range.start + n) as u64, end: m.addr_range.end },
        writable: m.writable,
    }
}

/// Two parts of an object that are mapped next to each other wherever they are
/// mapped at all are one.
pub struct MappingSetOperations;

/// In `v2` nothing stands but what goes on from `v1`.
proof fn lemma_all_of_next(
    r1: Range,
    v1: Seq<MappingOfRange>,
    r2: Range,
    v2: Seq<MappingOfRange>,
    j: int,
)
    requires
        fitting(r1, v1),
        fitting(r2, v2),
        v1.len() == v2.len(),
        all_follow(v1, v2, r2),
        0 <= j < v2.len(),
    ensures
        exists|i: int| 0 <= i < v1.len() && follows(#[trigger] v1[i], v2[j], r2),
{
    let next = |m: MappingOfRange|
        MappingOfRange {
            addr_range: Range {
                start: m.addr_range.end,
                end: (m.addr_range.end + r2.length()) as u64,
            },
            writable: m.writable,
        };
    let s1 = v1.to_set();
    let s2 = v2.to_set();
    let img = s1.map(next);
    v1.unique_seq_to_set();
    v2.unique_seq_to_set();
    assert forall|m: MappingOfRange| img.contains(m) implies s2.contains(m) by {
        let x = choose|x: MappingOfRange| s1.contains(x) && next(x) == m;
        let i = choose|i: int| 0 <= i < v1.len() && v1[i] == x;
        let h = choose|h: int| 0 <= h < v2.len() && follows(v1[i], #[trigger] v2[h], r2);
        assert(v2[h] == m);
    }
    assert(vstd::relations::injective_on(next, s1)) by {
        assert forall|x: MappingOfRange, y: MappingOfRange|
            s1.contains(x) && s1.contains(y) && #[trigger] next(x) == #[trigger] next(
                y,
            ) implies x == y by {
            let a = choose|i: int| 0 <= i < v1.len() && v1[i] == x;
            let b = choose|i: int| 0 <= i < v1.len() && v1[i] == y;
            assert(v1[a].addr_range.length() == v1[b].addr_range.length());
        }
    }
    vstd::set_lib::lemma_map_size(s1, img, next);
    vstd::set_lib::lemma_subset_equality(img, s2);
    assert(s2.contains(v2[j]));
    let x = choose|x: MappingOfRange| s1.contains(x) && next(x) == v2[j];
    let i = choose|i: int| 0 <= i < v1.len() && v1[i] == x;
    let h = choose|h: int| 0 <= h < v2.len() && follows(v1[i], #[trigger] v2[h], r2);
    assert(v2[h] == v2[j]);
    assert(follows(v1[i], v2[j], r2));
}

impl MappingsOfRange {
    pub fn new() -> (s: Self)
        ensures
            s@ == Seq::<MappingOfRange>::empty(),
    {
        MappingsOfRange { items: Vec::new() }
    }

    pub fn len(&self) -> (n: usize)
        ensures
            n == self@.len(),
    {
        self.items.len()
    }

    pub fn is_empty(&self) -> (b: bool)
        ensures
            b == (self@.len() == 0),
    {
        self.items.len() == 0
    }

    /// The index of a mapping.
    fn position(&self, m: &MappingOfRange) -> (i: Option<usize>)
        ensures
            match i {
                Some(i) => i < self@.len() && self@[i as int] == *m,
                None => !self@.contains(*m),
            },
    {
        let mut i: usize = 0;
        while i < self.items.len()
            invariant
                i <= self@.len(),
                forall|j: int| 0 <= j < i ==> self@[j] != *m,
            decreases self@.len() - i,
        {
            if self.items[i] == *m {
                return Some(i);
            }
            i = i + 1;
        }
        None
    }

    pub fn contains(&self, m: &MappingOfRange) -> (b: bool)
        ensures
            b == self@.contains(*m),
    {
        match self.position(m) {
            Some(i) => {
                assert(self@[i as int] == *m);
                true
            },
            None => false,
        }
    }

    pub fn duplicate(&self) -> (s: Self)
        ensures
            s@ == self@,
    {
        let mut items: Vec<MappingOfRange> = Vec::new();
        let mut i: usize = 0;
        while i < self.items.len()
            invariant
                i <= self@.len(),
                items@ == self@.take(i as int),
            decreases self@.len() - i,
        {
            items.push(self.items[i]);
            assert(self@.take(i + 1) =~= self@.take(i as int).push(self@[i as int]));
            i = i + 1;
        }
        assert(self@.take(i as int) =~= self@);
        MappingsOfRange { items }
    }

    /// Adds a mapping unless it is there.
    pub fn insert(&mut self, m: MappingOfRange)
        ensures
            final(self)@ == (if old(self)@.contains(m) {
                old(self)@
            } else {
                old(self)@.push(m)
            }),
    {
        if !self.contains(&m) {
            self.items.push(m);
        }
    }

    /// Takes a mapping out if it is there.
    pub fn remove(&mut self, m: &MappingOfRange)
        ensures
            match old(self)@.contains(*m) {
                true => exists|i: int|
                    {
                        &&& 0 <= i < old(self)@.len()
                        &&& #[trigger] old(self)@[i] == *m
                        &&& final(self)@ == old(self)@.remove(i)
                    },
                false => final(self)@ == old(self)@,
            },
    {
        if let Some(i) = self.position(m) {
            let _ = self.items.remove(i);
        }
    }
}

impl SetOperations for MappingSetOperations {
    type V = MappingsOfRange;

    open spec fn fits(r: Range, v: Seq<MappingOfRange>) -> bool {
        fitting(r, v)
    }

    open spec fn merged(
        r1: Range,
        v1: Seq<MappingOfRange>,
        r2: Range,
        v2: Seq<MappingOfRange>,
    ) -> Option<Seq<MappingOfRange>> {
        if v1.len() == v2.len() && all_follow(v1, v2, r2) {
            Some(v1.map_values(|m: MappingOfRange| longer(m, r2)))
        } else {
            None
        }
    }

    open spec fn lower(r: Range, v: Seq<MappingOfRange>, split: u64) -> Seq<MappingOfRange> {
        v.map_values(|m: MappingOfRange| first_of(m, split - r.start))
    }

    open spec fn upper(r: Range, v: Seq<MappingOfRange>, split: u64) -> Seq<MappingOfRange> {
        v.map_values(|m: MappingOfRange| rest_of(m, split - r.start))
    }

    fn merge(&self, r1: Range, v1: &MappingsOfRange, r2: Range, v2: &MappingsOfRange) -> (res:
        Option<MappingsOfRange>) {
        if v1.items.len() != v2.items.len() {
            return None;
        }
        let n = r2.end - r2.start;
        let mut items: Vec<MappingOfRange> = Vec::new();
        let mut i: usize = 0;
        let ghost all = v1@.map_values(|m: MappingOfRange| longer(m, r2));
        while i < v1.items.len()
            invariant
                i <= v1@.len(),
                v1@.len() == v2@.len(),
                n == r2.length(),
                all == v1@.map_values(|m: MappingOfRange| longer(m, r2)),
                items@ == all.take(i as int),
                fitting(r1, v1@),
                fitting(r2, v2@),
                forall|h: int| 0 <= h < i ==> goes_on(#[trigger] v1@[h], v2@, r2),
            decreases v1@.len() - i,
        {
            let k1 = v1.items[i];
            let end = match k1.addr_range.end.checked_add(n) {
                Some(end) => end,
                None => {
                    assert(!goes_on(v1@[i as int], v2@, r2));
                    return None;
                },
            };
            let k2 = MappingOfRange {
                addr_range: Range { start: k1.addr_range.end, end },
                writable: k1.writable,
            };
            if !v2.contains(&k2) {
                assert(!goes_on(v1@[i as int], v2@, r2)) by {
                    if goes_on(v1@[i as int], v2@, r2) {
                        let j = choose|j: int|
                            0 <= j < v2@.len() && follows(v1@[i as int], #[trigger] v2@[j], r2);
                        assert(v2@[j] == k2);
                    }
                }
                return None;
            }
            proof {
                let j = choose|j: int| 0 <= j < v2@.len() && v2@[j] == k2;
                assert(follows(v1@[i as int], v2@[j], r2));
            }
            let m = MappingOfRange {
                addr_range: Range { start: k1.addr_range.start, end },
                writable: k1.writable,
            };
            items.push(m);
            assert(all.take(i + 1) =~= all.take(i as int).push(m));
            i = i + 1;
        }
        assert(all.take(i as int) =~= all);
        proof {
            lemma_longer_fits(r1, v1@, r2, v2@);
        }
        Some(MappingsOfRange { items })
    }

    fn split(&self, r: Range, v: &MappingsOfRange, split: u64) -> (res: (
        MappingsOfRange,
        MappingsOfRange,
    )) {
        let n = split - r.start;
        let mut m1: Vec<MappingOfRange> = Vec::new();
        let mut m2: Vec<MappingOfRange> = Vec::new();
        let mut i: usize = 0;
        let ghost l = Self::lower(r, v@, split);
        let ghost u = Self::upper(r, v@, split);
        while i < v.items.len()
            invariant
                i <= v@.len(),
                n == split - r.start,
                r.cuttable(split as int),
                fitting(r, v@),
                l == Self::lower(r, v@, split),
                u == Self::upper(r, v@, split),
                m1@ == l.take(i as int),
                m2@ == u.take(i as int),
            decreases v@.len() - i,
        {
            let k = v.items[i];
            let mid = k.addr_range.start + n;
            let k1 = MappingOfRange {
                addr_range: Range { start: k.addr_range.start, end: mid },
                writable: k.writable,
            };
            let k2 = MappingOfRange {
                addr_range: Range { start: mid, end: k.addr_range.end },
                writable: k.writable,
            };
            m1.push(k1);
            m2.push(k2);
            assert(l.take(i + 1) =~= l.take(i as int).push(k1));
            assert(u.take(i + 1) =~= u.take(i as int).push(k2));
            i = i + 1;
        }
        proof {
            assert(l.take(i as int) =~= l);
            assert(u.take(i as int) =~= u);
            lemma_parts_fit(r, v@, split);
        }
        (MappingsOfRange { items: m1 }, MappingsOfRange { items: m2 })
    }
}

proof fn lemma_longer_fits(
    r1: Range,
    v1: Seq<MappingOfRange>,
    r2: Range,
    v2: Seq<MappingOfRange>,
)
    requires
        r1.well_formed(),
        r2.well_formed(),
        r1.end == r2.start,
        fitting(r1, v1),
        fitting(r2, v2),
        all_follow(v1, v2, r2),
    ensures
        fitting(
            Range { start: r1.start, end: r2.end },
            v1.map_values(|m: MappingOfRange| longer(m, r2)),
        ),
{
    let v = v1.map_values(|m: MappingOfRange| longer(m, r2));
    assert forall|i: int| 0 <= i < v.len() implies (#[trigger] v[i]).addr_range.length()
        == r2.end - r1.start && v[i].addr_range.well_formed() by {
        let j = choose|j: int| 0 <= j < v2.len() && follows(v1[i], #[trigger] v2[j], r2);
        assert(v1[i].addr_range.length() == r1.length());
    }
    assert forall|i: int, j: int| 0 <= i < v.len() && 0 <= j < v.len() && i != j implies v[i]
        != v[j] by {
        assert(v1[i] != v1[j]);
        assert(v1[i].addr_range.length() == v1[j].addr_range.length());
        assert(v[i].addr_range.start == v1[i].addr_range.start);
        assert(v[j].addr_range.start == v1[j].addr_range.start);
    }
}

proof fn lemma_parts_fit(r: Range, v: Seq<MappingOfRange>, split: u64)
    requires
        r.cuttable(split as int),
        fitting(r, v),
    ensures
        fitting(Range { start: r.start, end: split }, MappingSetOperations::lower(r, v, split)),
        fitting(Range { start: split, end: r.end }, MappingSetOperations::upper(r, v, split)),
{
    let l = MappingSetOperations::lower(r, v, split);
    let u = MappingSetOperations::upper(r, v, split);
    assert forall|i: int| 0 <= i < v.len() implies (#[trigger] l[i]).addr_range.length() == split
        - r.start && l[i].addr_range.well_formed() by {
        assert(v[i].addr_range.length() == r.length());
    }
    assert forall|i: int| 0 <= i < v.len() implies (#[trigger] u[i]).addr_range.length() == r.end
        - split && u[i].addr_range.well_formed() by {
        assert(v[i].addr_range.length() == r.length());
    }
    assert forall|i: int, j: int| 0 <= i < v.len() && 0 <= j < v.len() && i != j implies l[i]
        != l[j] && u[i] != u[j] by {
        assert(v[i] != v[j]);
        assert(v[i].addr_range.length() == r.length());
        assert(v[j].addr_range.length() == r.length());
        assert(l[i].addr_range.start == v[i].addr_range.start);
        assert(l[j].addr_range.start == v[j].addr_range.start);
        assert(u[i].addr_range.end == v[i].addr_range.end);
        assert(u[j].addr_range.end == v[j].addr_range.end);
    }
}

impl PointOperations for MappingSetOperations {
    type P = Set<(int, bool)>;

    open spec fn at(r: Range, v: Seq<MappingOfRange>, k: int) -> Set<(int, bool)> {
        places(r, v, k)
    }

    proof fn merge_keeps(
        r1: Range,
        v1: Seq<MappingOfRange>,
        r2: Range,
        v2: Seq<MappingOfRange>,
        v: Seq<MappingOfRange>,
        k: int,
    ) {
        let r = Range { start: r1.start, end: r2.end };
        lemma_longer_fits(r1, v1, r2, v2);
        if k < r1.end {
            assert forall|x: (int, bool)| places(r, v, k).contains(x) == places(
                r1,
                v1,
                k,
            ).contains(x) by {
                if places(r, v, k).contains(x) {
                    let i = choose|i: int| 0 <= i < v.len() && x == place_of(r, #[trigger] v[i], k);
                    assert(x == place_of(r1, v1[i], k));
                }
                if places(r1, v1, k).contains(x) {
                    let i = choose|i: int|
                        0 <= i < v1.len() && x == place_of(r1, #[trigger] v1[i], k);
                    assert(x == place_of(r, v[i], k));
                }
            }
            assert(places(r, v, k) =~= places(r1, v1, k));
        } else {
            assert forall|x: (int, bool)| places(r, v, k).contains(x) == places(
                r2,
                v2,
                k,
            ).contains(x) by {
                if places(r, v, k).contains(x) {
                    let i = choose|i: int| 0 <= i < v.len() && x == place_of(r, #[trigger] v[i], k);
                    let j = choose|j: int|
                        0 <= j < v2.len() && follows(v1[i], #[trigger] v2[j], r2);
                    assert(v1[i].addr_range.length() == r1.length());
                    assert(x == place_of(r2, v2[j], k));
                }
                if places(r2, v2, k).contains(x) {
                    let j = choose|j: int|
                        0 <= j < v2.len() && x == place_of(r2, #[trigger] v2[j], k);
                    lemma_all_of_next(r1, v1, r2, v2, j);
                    let i = choose|i: int|
                        0 <= i < v1.len() && follows(#[trigger] v1[i], v2[j], r2);
                    assert(v1[i].addr_range.length() == r1.length());
                    assert(x == place_of(r, v[i], k));
                }
            }
            assert(places(r, v, k) =~= places(r2, v2, k));
        }
    }

    proof fn split_keeps(r: Range, v: Seq<MappingOfRange>, split: u64, k: int) {
        lemma_parts_fit(r, v, split);
        let l = Self::lower(r, v, split);
        let u = Self::upper(r, v, split);
        let r1 = Range { start: r.start, end: split };
        let r2 = Range { start: split, end: r.end };
        assert forall|x: (int, bool)|
            places(r, v, k).contains(x) == (if k < split {
                places(r1, l, k).contains(x)
            } else {
                places(r2, u, k).contains(x)
            }) by {
            if places(r, v, k).contains(x) {
                let i = choose|i: int| 0 <= i < v.len() && x == place_of(r, #[trigger] v[i], k);
                assert(v[i].addr_range.length() == r.length());
                assert(x == place_of(r1, l[i], k));
                assert(x == place_of(r2, u[i], k));
            }
            if k < split && places(r1, l, k).contains(x) {
                let i = choose|i: int| 0 <= i < l.len() && x == place_of(r1, #[trigger] l[i], k);
                assert(x == place_of(r, v[i], k));
            }
            if k >= split && places(r2, u, k).contains(x) {
                let i = choose|i: int| 0 <= i < u.len() && x == place_of(r2, #[trigger] u[i], k);
                assert(v[i].addr_range.length() == r.length());
                assert(x == place_of(r, v[i], k));
            }
        }
        assert(k < split ==> places(r, v, k) =~= places(r1, l, k));
        assert(k >= split ==> places(r, v, k) =~= places(r2, u, k));
    }
}

/// Where each part of an object is mapped.
pub type MappingSet = SegmentSet<MappingSetOperations>;

/// No part of an object is noted without a mapping.
pub open spec fn all_mapped(m: Segments<Seq<MappingOfRange>>) -> bool {
    forall|i: int| 0 <= i < m.vs.len() ==> (#[trigger] m.vs[i]).len() > 0
}

/// Where offset `k` is mapped.
pub open spec fn mapped_at(m: Segments<Seq<MappingOfRange>>, k: int) -> Option<Set<(int, bool)>> {
    point::<MappingSetOperations>(m, k)
}

/// The part of an object that is mapped at `ar` from `offset` on.
pub open spec fn part_at(ar: AddrRange, offset: u64) -> MappableRange {
    Range { start: offset, end: (offset + ar.length()) as u64 }
}

/// Where a mapping of the part at `ar` has offset `k`.
pub open spec fn spot(ar: AddrRange, offset: u64, writable: bool, k: int) -> (int, bool) {
    (ar.start + (k - offset), writable)
}

/// The places with one more.
pub open spec fn added(p: Option<Set<(int, bool)>>, x: (int, bool)) -> Option<Set<(int, bool)>> {
    match p {
        Some(s) => Some(s.insert(x)),
        None => Some(Set::empty().insert(x)),
    }
}

/// The places without one of them. Nothing is left to say of an offset that is
/// mapped nowhere.
pub open spec fn removed(p: Option<Set<(int, bool)>>, x: (int, bool)) -> Option<Set<(int, bool)>> {
    match p {
        Some(s) => if s.remove(x) == Set::<(int, bool)>::empty() {
            None
        } else {
            Some(s.remove(x))
        },
        None => None,
    }
}

/// The part `sub` of a mapping that has `whole` at `addr`.
pub open spec fn sub_mapping(
    whole: MappableRange,
    sub: MappableRange,
    addr: u64,
    writable: bool,
) -> MappingOfRange {
    let start = addr + (sub.start - whole.start);
    MappingOfRange {
        addr_range: Range { start: start as u64, end: (start + sub.length()) as u64 },
        writable,
    }
}

fn subset_mapping(
    whole_range: MappableRange,
    subset_range: MappableRange,
    addr: u64,
    writable: bool,
) -> (m: MappingOfRange)
    requires
        whole_range.covers(subset_range),
        subset_range.well_formed(),
        addr + (subset_range.end - whole_range.start) <= u64::MAX,
    ensures
        m == sub_mapping(whole_range, subset_range, addr, writable),
{
    let offset = subset_range.start - whole_range.start;
    let start = addr + offset;
    MappingOfRange {
        addr_range: Range { start, end: start + (subset_range.end - subset_range.start) },
        writable,
    }
}

proof fn lemma_places_push(r: Range, v: Seq<MappingOfRange>, m: MappingOfRange, k: int)
    ensures
        places(r, v.push(m), k) == places(r, v, k).insert(place_of(r, m, k)),
{
    let w = v.push(m);
    assert forall|x: (int, bool)| places(r, w, k).contains(x) == places(r, v, k).insert(
        place_of(r, m, k),
    ).contains(x) by {
        if places(r, w, k).contains(x) {
            let i = choose|i: int| 0 <= i < w.len() && x == place_of(r, #[trigger] w[i], k);
            if i < v.len() {
                assert(x == place_of(r, v[i], k));
            }
        }
        if places(r, v, k).contains(x) {
            let i = choose|i: int| 0 <= i < v.len() && x == place_of(r, #[trigger] v[i], k);
            assert(x == place_of(r, w[i], k));
        }
        if x == place_of(r, m, k) {
            assert(x == place_of(r, w[v.len() as int], k));
        }
    }
    assert(places(r, w, k) =~= places(r, v, k).insert(place_of(r, m, k)));
}

proof fn lemma_places_of_inserted(
    r: Range,
    v: Seq<MappingOfRange>,
    w: Seq<MappingOfRange>,
    m: MappingOfRange,
    k: int,
)
    requires
        w == (if v.contains(m) {
            v
        } else {
            v.push(m)
        }),
    ensures
        places(r, w, k) == places(r, v, k).insert(place_of(r, m, k)),
{
    if v.contains(m) {
        let i = choose|i: int| 0 <= i < v.len() && v[i] == m;
        assert(place_of(r, m, k) == place_of(r, v[i], k));
        assert(places(r, v, k).contains(place_of(r, m, k)));
        assert(places(r, w, k) =~= places(r, v, k).insert(place_of(r, m, k)));
    } else {
        lemma_places_push(r, v, m, k);
    }
}

proof fn lemma_places_of_removed(
    r: Range,
    v: Seq<MappingOfRange>,
    w: Seq<MappingOfRange>,
    m: MappingOfRange,
    k: int,
)
    requires
        fitting(r, v),
        m.addr_range.well_formed(),
        m.addr_range.length() == r.length(),
        v.contains(m) ==> exists|i: int|
            0 <= i < v.len() && #[trigger] v[i] == m && w == v.remove(i),
        !v.contains(m) ==> w == v,
    ensures
        places(r, w, k) == places(r, v, k).remove(place_of(r, m, k)),
        fitting(r, w),
{
    if v.contains(m) {
        let i = choose|i: int| 0 <= i < v.len() && #[trigger] v[i] == m && w == v.remove(i);
        assert forall|x: (int, bool)| places(r, w, k).contains(x) == places(r, v, k).remove(
            place_of(r, m, k),
        ).contains(x) by {
            if places(r, w, k).contains(x) {
                let j = choose|j: int| 0 <= j < w.len() && x == place_of(r, #[trigger] w[j], k);
                let j2 = if j < i { j } else { j + 1 };
                assert(w[j] == v[j2]);
                assert(x == place_of(r, v[j2], k));
                assert(v[j2] != v[i]);
                assert(v[j2].addr_range.length() == v[i].addr_range.length());
            }
            if places(r, v, k).contains(x) && x != place_of(r, m, k) {
                let j = choose|j: int| 0 <= j < v.len() && x == place_of(r, #[trigger] v[j], k);
                let j2 = if j < i { j } else { j - 1 };
                assert(w[j2] == v[j]);
                assert(x == place_of(r, w[j2], k));
            }
        }
        assert(places(r, w, k) =~= places(r, v, k).remove(place_of(r, m, k)));
        assert forall|j: int| 0 <= j < w.len() implies (#[trigger] w[j]).addr_range.length()
            == r.length() && w[j].addr_range.well_formed() by {
            let j2 = if j < i { j } else { j + 1 };
            assert(w[j] == v[j2]);
        }
        assert forall|a: int, b: int|
            0 <= a < w.len() && 0 <= b < w.len() && a != b implies w[a] != w[b] by {
            let a2 = if a < i { a } else { a + 1 };
            let b2 = if b < i { b } else { b + 1 };
            assert(w[a] == v[a2] && w[b] == v[b2]);
        }
    } else {
        assert forall|x: (int, bool)| places(r, v, k).contains(x) implies x != place_of(
            r,
            m,
            k,
        ) by {
            let j = choose|j: int| 0 <= j < v.len() && x == place_of(r, #[trigger] v[j], k);
            assert(v[j].addr_range.length() == m.addr_range.length());
            assert(v[j] != m);
        }
        assert(places(r, v, k) =~= places(r, v, k).remove(place_of(r, m, k)));
    }
}

/// A part with mappings is mapped somewhere.
proof fn lemma_places_empty(r: Range, v: Seq<MappingOfRange>, k: int)
    ensures
        (places(r, v, k) == Set::<(int, bool)>::empty()) == (v.len() == 0),
{
    if v.len() > 0 {
        assert(places(r, v, k).contains(place_of(r, v[0], k)));
    } else {
        assert(places(r, v, k) =~= Set::empty());
    }
}

/// The segments lie on both sides of key `p`.
pub open spec fn split_about(ks: Seq<Range>, p: u64, i: int) -> bool {
    &&& 0 <= i <= ks.len()
    &&& forall|j: int| 0 <= j < i ==> (#[trigger] ks[j]).end <= p
    &&& forall|j: int| i <= j < ks.len() ==> p <= (#[trigger] ks[j]).start
}

/// The ranges are in ascending order, with keys between each and the next.
pub open spec fn apart(rs: Seq<Range>) -> bool {
    &&& sorted(rs)
    &&& forall|i: int, j: int|
        0 <= i < j < rs.len() ==> (#[trigger] rs[i]).end < (#[trigger] rs[j]).start
}

/// The mappings with one more, unless it is there.
pub open spec fn noted(v: Seq<MappingOfRange>, m: MappingOfRange) -> Seq<MappingOfRange> {
    if v.contains(m) {
        v
    } else {
        v.push(m)
    }
}

/// The mappings without one of them.
pub open spec fn struck(v: Seq<MappingOfRange>, m: MappingOfRange) -> Seq<MappingOfRange> {
    if v.contains(m) {
        v.remove(choose|i: int| 0 <= i < v.len() && v[i] == m)
    } else {
        v
    }
}

/// Where the segments at the indices from `a` up to `h` end.
pub open spec fn edge(c: Segments<Seq<MappingOfRange>>, a: int, h: int, mr: MappableRange) -> u64 {
    if h <= a {
        mr.start
    } else {
        c.ks[h - 1].end
    }
}

/// The segments `l` with one more from `from` up to `to`, if there is anything
/// between, for a mapping of `mr` at `addr`.
pub open spec fn bridged(
    l: Segments<Seq<MappingOfRange>>,
    from: u64,
    to: u64,
    mr: MappableRange,
    addr: u64,
    writable: bool,
) -> Segments<Seq<MappingOfRange>> {
    let g = Range { start: from, end: to };
    if from < to {
        Segments {
            ks: l.ks.push(g),
            vs: l.vs.push(seq![sub_mapping(mr, g, addr, writable)]),
        }
    } else {
        l
    }
}

/// The segments from `mr.start` up to the end of the one before index `h`, once a
/// mapping of `mr` at `addr` is noted in them and in the gaps before each.
pub open spec fn laid(
    c: Segments<Seq<MappingOfRange>>,
    a: int,
    h: int,
    mr: MappableRange,
    addr: u64,
    writable: bool,
) -> Segments<Seq<MappingOfRange>>
    decreases h - a,
{
    if h <= a {
        Segments { ks: Seq::empty(), vs: Seq::empty() }
    } else {
        let r = c.ks[h - 1];
        let l = bridged(
            laid(c, a, h - 1, mr, addr, writable),
            edge(c, a, h - 1, mr),
            r.start,
            mr,
            addr,
            writable,
        );
        Segments {
            ks: l.ks.push(r),
            vs: l.vs.push(noted(c.vs[h - 1], sub_mapping(mr, r, addr, writable))),
        }
    }
}

/// The gaps before the segments at the indices from `a` up to `h`.
pub open spec fn gaps_before(
    c: Segments<Seq<MappingOfRange>>,
    a: int,
    h: int,
    mr: MappableRange,
) -> Seq<Range>
    decreases h - a,
{
    if h <= a {
        Seq::empty()
    } else {
        gaps_up_to(gaps_before(c, a, h - 1, mr), edge(c, a, h - 1, mr), c.ks[h - 1].start)
    }
}

/// The gaps with one more from `from` up to `to`, if there is anything between.
pub open spec fn gaps_up_to(g: Seq<Range>, from: u64, to: u64) -> Seq<Range> {
    if from < to {
        g.push(Range { start: from, end: to })
    } else {
        g
    }
}

/// The segments `c` with `l` in place of those at the indices from `a` up to `h`.
pub open spec fn replaced(
    c: Segments<Seq<MappingOfRange>>,
    a: int,
    h: int,
    l: Segments<Seq<MappingOfRange>>,
) -> Segments<Seq<MappingOfRange>> {
    Segments {
        ks: c.ks.take(a) + l.ks + c.ks.skip(h),
        vs: c.vs.take(a) + l.vs + c.vs.skip(h),
    }
}

/// The set after the addresses `ar` were noted to map the object from `offset` on.
/// Segments are cut at the bounds of the part, and none are joined.
pub open spec fn with_mapping(
    m: Segments<Seq<MappingOfRange>>,
    ar: AddrRange,
    offset: u64,
    writable: bool,
) -> Segments<Seq<MappingOfRange>> {
    let mr = part_at(ar, offset);
    let c = carved::<MappingSetOperations>(m, mr);
    let a = below(c.ks, mr.start);
    let b = below(c.ks, mr.end);
    let l = laid(c, a, b, mr, ar.start, writable);
    replaced(c, a, b, bridged(l, edge(c, a, b, mr), mr.end, mr, ar.start, writable))
}

/// The parts that nothing maps, from `ar` at `offset`.
pub open spec fn gaps_of(
    m: Segments<Seq<MappingOfRange>>,
    ar: AddrRange,
    offset: u64,
) -> Seq<MappableRange> {
    let mr = part_at(ar, offset);
    let c = carved::<MappingSetOperations>(m, mr);
    let a = below(c.ks, mr.start);
    let b = below(c.ks, mr.end);
    gaps_up_to(gaps_before(c, a, b, mr), edge(c, a, b, mr), mr.end)
}

/// The segments at the indices from `a` up to `h` without a mapping of `mr` at
/// `addr`, and without those that it was the only mapping of.
pub open spec fn stripped(
    c: Segments<Seq<MappingOfRange>>,
    a: int,
    h: int,
    mr: MappableRange,
    addr: u64,
    writable: bool,
) -> Segments<Seq<MappingOfRange>>
    decreases h - a,
{
    if h <= a {
        Segments { ks: Seq::empty(), vs: Seq::empty() }
    } else {
        let l = stripped(c, a, h - 1, mr, addr, writable);
        let r = c.ks[h - 1];
        let v = struck(c.vs[h - 1], sub_mapping(mr, r, addr, writable));
        if v.len() == 0 {
            l
        } else {
            Segments { ks: l.ks.push(r), vs: l.vs.push(v) }
        }
    }
}

/// The ranges of the segments at the indices from `a` up to `h` that a mapping of
/// `mr` at `addr` is the only mapping of.
pub open spec fn emptied(
    c: Segments<Seq<MappingOfRange>>,
    a: int,
    h: int,
    mr: MappableRange,
    addr: u64,
    writable: bool,
) -> Seq<Range>
    decreases h - a,
{
    if h <= a {
        Seq::empty()
    } else {
        let rest = emptied(c, a, h - 1, mr, addr, writable);
        let r = c.ks[h - 1];
        if struck(c.vs[h - 1], sub_mapping(mr, r, addr, writable)).len() == 0 {
            rest.push(r)
        } else {
            rest
        }
    }
}

/// The set after the addresses `ar` were noted to map the object from `offset` on
/// no more. What is left at the rim of the part is joined to what lies outside.
pub open spec fn without_mapping(
    m: Segments<Seq<MappingOfRange>>,
    ar: AddrRange,
    offset: u64,
    writable: bool,
) -> Segments<Seq<MappingOfRange>> {
    let mr = part_at(ar, offset);
    let c = carved::<MappingSetOperations>(m, mr);
    let a = below(c.ks, mr.start);
    let b = below(c.ks, mr.end);
    joined_outside::<MappingSetOperations>(
        replaced(c, a, b, stripped(c, a, b, mr, ar.start, writable)),
        mr,
    )
}

/// The parts that only `ar` at `offset` maps, as they are noted.
pub open spec fn only_mapped(
    m: Segments<Seq<MappingOfRange>>,
    ar: AddrRange,
    offset: u64,
    writable: bool,
) -> Seq<MappableRange> {
    let mr = part_at(ar, offset);
    let c = carved::<MappingSetOperations>(m, mr);
    emptied(c, below(c.ks, mr.start), below(c.ks, mr.end), mr, ar.start, writable)
}

/// No mapping is noted twice, so there is one way to strike one.
proof fn lemma_struck(
    r: Range,
    v: Seq<MappingOfRange>,
    w: Seq<MappingOfRange>,
    m: MappingOfRange,
)
    requires
        fitting(r, v),
        v.contains(m) ==> exists|i: int|
            0 <= i < v.len() && #[trigger] v[i] == m && w == v.remove(i),
        !v.contains(m) ==> w == v,
    ensures
        w == struck(v, m),
{
    if v.contains(m) {
        let i = choose|i: int| 0 <= i < v.len() && #[trigger] v[i] == m && w == v.remove(i);
        let j = choose|j: int| 0 <= j < v.len() && v[j] == m;
        assert(v[i] == v[j]);
    }
}

/// The next segment comes behind those that are in place.
proof fn lemma_replaced_next(
    c: Segments<Seq<MappingOfRange>>,
    a: int,
    h: int,
    l: Segments<Seq<MappingOfRange>>,
)
    requires
        0 <= a <= h < c.ks.len(),
        c.ks.len() == c.vs.len(),
        l.ks.len() == l.vs.len(),
    ensures
        ({
            let m = replaced(c, a, h, l);
            let i = a + l.ks.len();
            &&& m.ks.len() == m.vs.len()
            &&& i < m.ks.len()
            &&& m.ks[i] == c.ks[h]
            &&& m.vs[i] == c.vs[h]
            &&& m.without(i) == replaced(c, a, h + 1, l)
            &&& forall|v: Seq<MappingOfRange>| #[trigger] m.set_value(i, v) == replaced(
                c,
                a,
                h + 1,
                Segments { ks: l.ks.push(c.ks[h]), vs: l.vs.push(v) },
            )
        }),
{
    let m = replaced(c, a, h, l);
    let i = a + l.ks.len();
    assert(m.without(i).ks =~= replaced(c, a, h + 1, l).ks);
    assert(m.without(i).vs =~= replaced(c, a, h + 1, l).vs);
    assert forall|v: Seq<MappingOfRange>| #[trigger] m.set_value(i, v) == replaced(
        c,
        a,
        h + 1,
        Segments { ks: l.ks.push(c.ks[h]), vs: l.vs.push(v) },
    ) by {
        let n = replaced(c, a, h + 1, Segments { ks: l.ks.push(c.ks[h]), vs: l.vs.push(v) });
        assert(m.set_value(i, v).ks =~= n.ks);
        assert(m.set_value(i, v).vs =~= n.vs);
    }
}

/// One more segment is put behind those that are in place.
proof fn lemma_replaced_with(
    c: Segments<Seq<MappingOfRange>>,
    a: int,
    h: int,
    l: Segments<Seq<MappingOfRange>>,
    g: Range,
    v: Seq<MappingOfRange>,
)
    requires
        0 <= a <= h <= c.ks.len(),
        c.ks.len() == c.vs.len(),
        l.ks.len() == l.vs.len(),
    ensures
        replaced(c, a, h, l).with((a + l.ks.len()) as int, g, v) == replaced(
            c,
            a,
            h,
            Segments { ks: l.ks.push(g), vs: l.vs.push(v) },
        ),
        replaced(c, a, h, l).ks.len() == a + l.ks.len() + c.ks.len() - h,
        h < c.ks.len() ==> replaced(c, a, h, l).ks[(a + l.ks.len()) as int] == c.ks[h],
{
    let m = replaced(c, a, h, l).with((a + l.ks.len()) as int, g, v);
    let n = replaced(c, a, h, Segments { ks: l.ks.push(g), vs: l.vs.push(v) });
    assert(m.ks =~= n.ks);
    assert(m.vs =~= n.vs);
}

proof fn lemma_laid_lens(
    c: Segments<Seq<MappingOfRange>>,
    a: int,
    h: int,
    mr: MappableRange,
    addr: u64,
    writable: bool,
)
    ensures
        laid(c, a, h, mr, addr, writable).ks.len() == laid(c, a, h, mr, addr, writable).vs.len(),
        stripped(c, a, h, mr, addr, writable).ks.len() == stripped(
            c,
            a,
            h,
            mr,
            addr,
            writable,
        ).vs.len(),
    decreases h - a,
{
    if h > a {
        lemma_laid_lens(c, a, h - 1, mr, addr, writable);
    }
}

/// How far a mapping of `mr` at `addr` was noted: up to `p`, before the segment
/// that was at index `h` and is now at `i`.
#[verifier::opaque]
spec fn laying(
    m: Segments<Seq<MappingOfRange>>,
    mapped: Seq<Range>,
    c: Segments<Seq<MappingOfRange>>,
    a: int,
    b: int,
    h: int,
    p: u64,
    i: int,
    mr: MappableRange,
    addr: u64,
    writable: bool,
) -> bool {
    let e = edge(c, a, h, mr);
    let l = bridged(laid(c, a, h, mr, addr, writable), e, p, mr, addr, writable);
    &&& sorted(c.ks)
    &&& c.ks.len() == c.vs.len()
    &&& parted(c.ks, mr, a, b)
    &&& a <= h <= b
    &&& e <= p <= mr.end
    &&& h < b ==> p <= c.ks[h].start
    &&& e < p ==> p == (if h < b {
        c.ks[h].start
    } else {
        mr.end
    })
    &&& m == replaced(c, a, h, l)
    &&& i == a + l.ks.len()
    &&& mapped == gaps_up_to(gaps_before(c, a, h, mr), e, p)
}

proof fn lemma_laid_start(
    c: Segments<Seq<MappingOfRange>>,
    a: int,
    b: int,
    mr: MappableRange,
    addr: u64,
    writable: bool,
)
    requires
        sorted(c.ks),
        c.ks.len() == c.vs.len(),
        parted(c.ks, mr, a, b),
        mr.start <= mr.end,
    ensures
        laying(c, Seq::empty(), c, a, b, a, mr.start, a, mr, addr, writable),
{
    reveal(laying);
    let n = replaced(c, a, a, laid(c, a, a, mr, addr, writable));
    assert(n.ks =~= c.ks);
    assert(n.vs =~= c.vs);
    if a < b {
        assert(mr.covers(c.ks[a]));
    }
}

proof fn lemma_laid_segment(
    m: Segments<Seq<MappingOfRange>>,
    mapped: Seq<Range>,
    c: Segments<Seq<MappingOfRange>>,
    a: int,
    b: int,
    h: int,
    p: u64,
    i: int,
    mr: MappableRange,
    addr: u64,
    writable: bool,
)
    requires
        laying(m, mapped, c, a, b, h, p, i, mr, addr, writable),
        0 <= i < m.ks.len(),
        m.ks[i].start == p,
        p < mr.end,
    ensures
        ({
            let r = m.ks[i];
            laying(
                m.set_value(i, noted(m.vs[i], sub_mapping(mr, r, addr, writable))),
                mapped,
                c,
                a,
                b,
                h + 1,
                r.end,
                i + 1,
                mr,
                addr,
                writable,
            )
        }),
{
    reveal(laying);
    let l = bridged(
        laid(c, a, h, mr, addr, writable),
        edge(c, a, h, mr),
        p,
        mr,
        addr,
        writable,
    );
    lemma_laid_lens(c, a, h, mr, addr, writable);
    lemma_replaced_with(c, a, h, l, mr, Seq::empty());
    assert(h < c.ks.len());
    lemma_replaced_next(c, a, h, l);
    if b <= h {
        assert(mr.end <= c.ks[h].start);
    }
    assert(mr.covers(c.ks[h]));
    assert(c.ks[h].start < c.ks[h].end);
    if h + 1 < b {
        assert(c.ks[h].end <= c.ks[h + 1].start);
    }
}

proof fn lemma_laid_gap(
    m: Segments<Seq<MappingOfRange>>,
    mapped: Seq<Range>,
    c: Segments<Seq<MappingOfRange>>,
    a: int,
    b: int,
    h: int,
    p: u64,
    e: u64,
    i: int,
    mr: MappableRange,
    addr: u64,
    writable: bool,
)
    requires
        laying(m, mapped, c, a, b, h, p, i, mr, addr, writable),
        p < mr.end,
        !(i < m.ks.len() && m.ks[i].start == p),
        e == (if i < m.ks.len() && m.ks[i].start < mr.end {
            m.ks[i].start
        } else {
            mr.end
        }),
    ensures
        ({
            let g = Range { start: p, end: e };
            laying(
                m.with(i, g, seq![sub_mapping(mr, g, addr, writable)]),
                mapped.push(g),
                c,
                a,
                b,
                h,
                e,
                i + 1,
                mr,
                addr,
                writable,
            )
        }),
{
    reveal(laying);
    let l = laid(c, a, h, mr, addr, writable);
    let g = Range { start: p, end: e };
    lemma_laid_lens(c, a, h, mr, addr, writable);
    lemma_replaced_with(
        c,
        a,
        h,
        bridged(l, edge(c, a, h, mr), p, mr, addr, writable),
        g,
        seq![sub_mapping(mr, g, addr, writable)],
    );
    if h < b {
        assert(mr.covers(c.ks[h]));
        assert(c.ks[h].start < c.ks[h].end);
    } else if h < c.ks.len() {
        assert(mr.end <= c.ks[h].start);
    }
}

proof fn lemma_laid_end(
    m: Segments<Seq<MappingOfRange>>,
    mapped: Seq<Range>,
    c: Segments<Seq<MappingOfRange>>,
    a: int,
    b: int,
    h: int,
    p: u64,
    i: int,
    mr: MappableRange,
    addr: u64,
    writable: bool,
)
    requires
        laying(m, mapped, c, a, b, h, p, i, mr, addr, writable),
        p >= mr.end,
    ensures
        ({
            let l = laid(c, a, b, mr, addr, writable);
            let e = edge(c, a, b, mr);
            &&& m == replaced(c, a, b, bridged(l, e, mr.end, mr, addr, writable))
            &&& mapped == gaps_up_to(gaps_before(c, a, b, mr), e, mr.end)
        }),
{
    reveal(laying);
    if h < b {
        assert(mr.covers(c.ks[h]));
        assert(c.ks[h].start < c.ks[h].end);
    }
}

impl SegmentSet<MappingSetOperations> {
    /// Notes that the addresses `ar` map the object from `offset` on, and tells
    /// the parts of the object that nothing mapped before.
    pub fn add_mapping(&mut self, ar: AddrRange, offset: u64, writable: bool) -> (mapped: Vec<
        MappableRange,
    >)
        requires
            old(self).wf(),
            all_mapped(old(self).model()),
            ar.start < ar.end,
            offset + ar.length() <= u64::MAX,
        ensures
            final(self).wf(),
            all_mapped(final(self).model()),
            final(self).model() == with_mapping(old(self).model(), ar, offset, writable),
            mapped@ == gaps_of(old(self).model(), ar, offset),
            forall|k: int| #[trigger]
                mapped_at(final(self).model(), k) == (if part_at(ar, offset).has(k) {
                    added(mapped_at(old(self).model(), k), spot(ar, offset, writable, k))
                } else {
                    mapped_at(old(self).model(), k)
                }),
            apart(mapped@),
            forall|k: int|
                (!#[trigger] free(mapped@, k)) == (part_at(ar, offset).has(k) && mapped_at(
                    old(self).model(),
                    k,
                ) is None),
    {
        let mr = Range { start: offset, end: offset + (ar.end - ar.start) };
        let ghost m0 = self.model();
        let (a, b) = self.carve(mr);
        let ghost c = self.model();
        let ghost mut h = a as int;
        proof {
            lemma_laid_start(c, a as int, b as int, mr, ar.start, writable);
            assert forall|k: int| #[trigger] mapped_at(self.model(), k) == mapped_at(m0, k) by {
                carving_keeps::<MappingSetOperations>(m0, mr, k);
            }
            lemma_carved_mapped(m0, mr);
        }
        let mut mapped: Vec<MappableRange> = Vec::new();
        let mut p = mr.start;
        let mut i = a;
        while p < mr.end
            invariant
                self.wf(),
                all_mapped(self.model()),
                mr == part_at(ar, offset),
                mr.start == offset,
                mr.length() == ar.length(),
                ar.start < ar.end,
                mr.start <= p <= mr.end,
                split_about(self.ranges(), p, i as int),
                uncut(self.ranges(), mr.end as int),
                forall|k: int| #[trigger]
                    mapped_at(self.model(), k) == (if mr.start <= k < p {
                        added(mapped_at(m0, k), spot(ar, offset, writable, k))
                    } else {
                        mapped_at(m0, k)
                    }),
                apart(mapped@),
                forall|j: int| 0 <= j < mapped@.len() ==> (#[trigger] mapped@[j]).end <= p,
                mapped@.len() > 0 && mapped@.last().end == p && p < mr.end ==> i
                    < self.ranges().len() && self.ranges()[i as int].start == p,
                forall|k: int|
                    (!#[trigger] free(mapped@, k)) == (mr.start <= k < p && mapped_at(m0, k)
                        is None),
                laying(
                    self.model(),
                    mapped@,
                    c,
                    a as int,
                    b as int,
                    h,
                    p,
                    i as int,
                    mr,
                    ar.start,
                    writable,
                ),
            decreases mr.end - p,
        {
            let ghost before = self.model();
            let ghost p0 = p;
            let n = self.keys.len();
            if i < n && self.keys[i].start == p {
                let r = self.keys[i];
                assert(!self.ranges()[i as int].cuttable(mr.end as int));
                let m = subset_mapping(mr, r, ar.start, writable);
                let mut v = self.value_of(i).duplicate();
                let ghost v0 = v@;
                assert(MappingSetOperations::fits(before.ks[i as int], before.vs[i as int]));
                v.insert(m);
                proof {
                    assert(fitting(r, v@));
                    lemma_wf_set::<MappingSetOperations>(before, i as int, r, v@);
                }
                self.set_value_of(i, v);
                proof {
                    assert(before.set(i as int, r, v@) =~= self.model());
                    assert forall|k: int| #[trigger]
                        mapped_at(self.model(), k) == (if r.has(k) {
                            added(mapped_at(before, k), spot(ar, offset, writable, k))
                        } else {
                            mapped_at(before, k)
                        }) by {
                        set_speaks::<MappingSetOperations>(before, i as int, r, v@, k);
                        if r.has(k) {
                            assert(held_at(before.ks, k, i as int));
                            lemma_point_held::<MappingSetOperations>(before, k, i as int);
                            lemma_places_of_inserted(r, v0, v@, m, k);
                        }
                    }
                    lemma_next_part(before.ks, p, i as int);
                    assert forall|k: int|
                        (!#[trigger] free(mapped@, k)) == (mr.start <= k < r.end && mapped_at(
                            m0,
                            k,
                        ) is None) by {
                        if r.has(k) {
                            assert(held_at(before.ks, k, i as int));
                            lemma_point_held::<MappingSetOperations>(before, k, i as int);
                            assert(mapped_at(before, k) == mapped_at(m0, k));
                        }
                    }
                }
                proof {
                    lemma_laid_segment(
                        before,
                        mapped@,
                        c,
                        a as int,
                        b as int,
                        h,
                        p,
                        i as int,
                        mr,
                        ar.start,
                        writable,
                    );
                    assert(noted(v0, m) == v@);
                    assert(self.model() =~= before.set_value(i as int, v@));
                    h = h + 1;
                }
                p = r.end;
                i = i + 1;
            } else {
                let e = if i < n && self.keys[i].start < mr.end {
                    self.keys[i].start
                } else {
                    mr.end
                };
                let g = Range { start: p, end: e };
                let m = subset_mapping(mr, g, ar.start, writable);
                let mut v = MappingsOfRange::new();
                v.insert(m);
                proof {
                    assert(v@ =~= seq![m]);
                    assert(fitting(g, v@));
                    lemma_gap_part(before.ks, g, i as int);
                    lemma_wf_with::<MappingSetOperations>(before, i as int, g, v@);
                    lemma_uncut_with(before.ks, i as int, g, mr.end);
                }
                self.raw_insert(i, g, v);
                let n = self.keys.len();
                assert(i < n);
                let ghost mapped0 = mapped@;
                mapped.push(g);
                proof {
                    assert forall|k: int| #[trigger]
                        mapped_at(self.model(), k) == (if g.has(k) {
                            added(mapped_at(before, k), spot(ar, offset, writable, k))
                        } else {
                            mapped_at(before, k)
                        }) by {
                        with_speaks::<MappingSetOperations>(before, i as int, g, v@, k);
                        if g.has(k) {
                            lemma_places_push(g, Seq::empty(), m, k);
                            assert(Seq::<MappingOfRange>::empty().push(m) =~= v@);
                            lemma_places_empty(g, Seq::empty(), k);
                            lemma_point_free::<MappingSetOperations>(before, k);
                        }
                    }
                    lemma_apart_push(mapped0, g);
                    assert forall|k: int|
                        (!#[trigger] free(mapped@, k)) == (mr.start <= k < e && mapped_at(m0, k)
                            is None) by {
                        lemma_free_push(mapped0, g, k);
                        if g.has(k) {
                            lemma_point_free::<MappingSetOperations>(before, k);
                            assert(mapped_at(before, k) == mapped_at(m0, k));
                        }
                    }
                    lemma_split_after_insert(before.ks, g, i as int);
                    lemma_laid_gap(
                        before,
                        mapped0,
                        c,
                        a as int,
                        b as int,
                        h,
                        p,
                        e,
                        i as int,
                        mr,
                        ar.start,
                        writable,
                    );
                }
                p = e;
                i = i + 1;
            }
        }
        proof {
            lemma_laid_end(
                self.model(),
                mapped@,
                c,
                a as int,
                b as int,
                h,
                p,
                i as int,
                mr,
                ar.start,
                writable,
            );
        }
        mapped
    }

    /// Notes that the addresses `ar` no longer map the object from `offset` on,
    /// and tells the parts of the object that nothing maps any more.
    #[verifier::spinoff_prover]
    #[verifier::rlimit(80)]
    pub fn remove_mapping(&mut self, ar: AddrRange, offset: u64, writable: bool) -> (unmapped: Vec<
        MappableRange,
    >)
        requires
            old(self).wf(),
            all_mapped(old(self).model()),
            ar.start < ar.end,
            offset + ar.length() <= u64::MAX,
            !free(old(self).ranges(), offset as int),
        ensures
            final(self).wf(),
            all_mapped(final(self).model()),
            forall|k: int| #[trigger]
                mapped_at(final(self).model(), k) == (if part_at(ar, offset).has(k) {
                    removed(mapped_at(old(self).model(), k), spot(ar, offset, writable, k))
                } else {
                    mapped_at(old(self).model(), k)
                }),
            final(self).model() == without_mapping(old(self).model(), ar, offset, writable),
            unmapped@ == only_mapped(old(self).model(), ar, offset, writable),
            sorted(unmapped@),
            forall|k: int|
                (!#[trigger] free(unmapped@, k)) == (part_at(ar, offset).has(k) && mapped_at(
                    old(self).model(),
                    k,
                ) is Some && mapped_at(final(self).model(), k) is None),
            forall|i: int|
                0 <= i < unmapped@.len() ==> exists|j: int|
                    0 <= j < old(self).ranges().len() && #[trigger] unmapped@[i] == (
                    #[trigger] old(self).ranges()[j]).common(part_at(ar, offset)),
    {
        let mr = Range { start: offset, end: offset + (ar.end - ar.start) };
        let ghost m0 = self.model();
        let (a, b) = self.carve(mr);
        let ghost c = self.model();
        proof {
            assert forall|k: int| #[trigger] mapped_at(self.model(), k) == mapped_at(m0, k) by {
                carving_keeps::<MappingSetOperations>(m0, mr, k);
            }
            lemma_carved_mapped(m0, mr);
            cutting_at_key_keeps::<MappingSetOperations>(m0, mr.start, 0);
            lemma_carved_pieces::<MappingSetOperations>(m0, mr);
            assert forall|k: int| mr.has(k) && (a < b ==> k < c.ks[a as int].start) implies
                #[trigger] mapped_at(m0, k) is None by {
                lemma_gap_before_parts(c, mr, a as int, b as int, k);
                assert(mapped_at(c, k) is None);
            }
        }
        let mut unmapped: Vec<MappableRange> = Vec::new();
        let mut i = a;
        let mut h = a;
        proof {
            reveal(tail_of);
            assert(replaced(
                c,
                a as int,
                a as int,
                stripped(c, a as int, a as int, mr, ar.start, writable),
            ) =~= c);
        }
        while h < b
            invariant
                self.wf(),
                all_mapped(self.model()),
                mr == part_at(ar, offset),
                mr.start == offset,
                mr.length() == ar.length(),
                a <= h <= b <= c.ks.len(),
                a <= i <= h,
                c.ks.len() == c.vs.len(),
                wf_segments::<MappingSetOperations>(c),
                parted(c.ks, mr, a as int, b as int),
                self.ranges().len() == c.ks.len() - (h - i),
                tail_of(self.model(), c, i as int, h - i),
                forall|k: int| #[trigger] mapped_at(c, k) == mapped_at(m0, k),
                forall|k: int| #[trigger]
                    mapped_at(self.model(), k) == (if mr.has(k) && (h < b ==> k
                        < c.ks[h as int].start) {
                        removed(mapped_at(m0, k), spot(ar, offset, writable, k))
                    } else {
                        mapped_at(m0, k)
                    }),
                self.model() == replaced(
                    c,
                    a as int,
                    h as int,
                    stripped(c, a as int, h as int, mr, ar.start, writable),
                ),
                i == a + stripped(c, a as int, h as int, mr, ar.start, writable).ks.len(),
                unmapped@ == emptied(c, a as int, h as int, mr, ar.start, writable),
                sorted(unmapped@),
                forall|j: int|
                    0 <= j < unmapped@.len() ==> one_of(
                        #[trigger] unmapped@[j],
                        c.ks,
                        a as int,
                        h as int,
                    ),
                forall|k: int|
                    (!#[trigger] free(unmapped@, k)) == (mr.has(k) && (h < b ==> k
                        < c.ks[h as int].start) && mapped_at(m0, k) is Some && removed(
                        mapped_at(m0, k),
                        spot(ar, offset, writable, k),
                    ) is None),
            decreases b - h,
        {
            let ghost before = self.model();
            let r = self.keys[i];
            proof {
                lemma_tail_start(before, c, i as int, h - i);
                lemma_laid_lens(c, a as int, h as int, mr, ar.start, writable);
                lemma_replaced_next(
                    c,
                    a as int,
                    h as int,
                    stripped(c, a as int, h as int, mr, ar.start, writable),
                );
            }
            assert(r == c.ks[h as int]);
            assert(mr.covers(c.ks[h as int]));
            let m = subset_mapping(mr, r, ar.start, writable);
            let mut v = self.value_of(i).duplicate();
            let ghost v0 = v@;
            assert(MappingSetOperations::fits(before.ks[i as int], before.vs[i as int]));
            v.remove(&m);
            let ghost um0 = unmapped@;
            proof {
                lemma_struck(r, v0, v@, m);
                lemma_places_of_removed(r, v0, v@, m, 0);
                assert forall|k: int| r.has(k) implies #[trigger] mapped_at(before, k) == Some(
                    places(r, v0, k),
                ) by {
                    assert(held_at(before.ks, k, i as int));
                    lemma_point_held::<MappingSetOperations>(before, k, i as int);
                }
                assert forall|k: int| r.has(k) implies #[trigger] removed(
                    mapped_at(before, k),
                    spot(ar, offset, writable, k),
                ) == (if v@.len() == 0 {
                    None
                } else {
                    Some(places(r, v@, k))
                }) by {
                    lemma_places_of_removed(r, v0, v@, m, k);
                    lemma_places_empty(r, v@, k);
                }
            }
            if v.is_empty() {
                unmapped.push(r);
                proof {
                    lemma_wf_without::<MappingSetOperations>(before, i as int);
                    assert forall|k: int| #[trigger]
                        mapped_at(before.without(i as int), k) == (if r.has(k) {
                            removed(mapped_at(before, k), spot(ar, offset, writable, k))
                        } else {
                            mapped_at(before, k)
                        }) by {
                        without_is_silent::<MappingSetOperations>(before, i as int, k);
                    }
                    assert forall|j: int| 0 <= j < before.without(i as int).vs.len() implies (
                    #[trigger] before.without(i as int).vs[j]).len() > 0 by {
                        let j2 = if j < i { j } else { j + 1 };
                        assert(before.without(i as int).vs[j] == before.vs[j2]);
                    }
                    lemma_unmapped_push(um0, c.ks, a as int, h as int);
                }
                let _ = self.raw_remove(i);
                proof {
                    lemma_tail_without(before, c, i as int, h - i);
                }
            } else {
                proof {
                    lemma_wf_set::<MappingSetOperations>(before, i as int, r, v@);
                    assert(before.set(i as int, r, v@) =~= before.set_value(i as int, v@));
                    assert forall|k: int| #[trigger]
                        mapped_at(before.set_value(i as int, v@), k) == (if r.has(k) {
                            removed(mapped_at(before, k), spot(ar, offset, writable, k))
                        } else {
                            mapped_at(before, k)
                        }) by {
                        set_speaks::<MappingSetOperations>(before, i as int, r, v@, k);
                    }
                }
                let ghost left = v@;
                self.set_value_of(i, v);
                proof {
                    lemma_tail_set(before, c, i as int, h - i, left);
                }
                i = i + 1;
            }
            proof {
                lemma_between_parts(c.ks, mr, a as int, b as int, h as int);
                assert forall|k: int|
                    mr.has(k) && (h + 1 < b ==> k < c.ks[h + 1].start) && !(k
                        < c.ks[h as int].start) && !r.has(k) implies #[trigger] mapped_at(
                    m0,
                    k,
                ) is None by {
                    lemma_gap_after_part(c, mr, a as int, b as int, h as int, k);
                    assert(mapped_at(c, k) is None);
                }
                assert forall|k: int|
                    (!#[trigger] free(unmapped@, k)) == (mr.has(k) && (h + 1 < b ==> k < c.ks[h
                        + 1].start) && mapped_at(m0, k) is Some && removed(
                        mapped_at(m0, k),
                        spot(ar, offset, writable, k),
                    ) is None) by {
                    lemma_free_push(um0, r, k);
                    if r.has(k) {
                        assert(mapped_at(before, k) == mapped_at(m0, k));
                    }
                }
                assert forall|k: int| #[trigger]
                    mapped_at(self.model(), k) == (if mr.has(k) && (h + 1 < b ==> k < c.ks[h
                        + 1].start) {
                        removed(mapped_at(m0, k), spot(ar, offset, writable, k))
                    } else {
                        mapped_at(m0, k)
                    }) by {
                    assert(mapped_at(before, k) == mapped_at(before, k));
                }
            }
            h = h + 1;
        }
        let ghost before = self.model();
        self.merge_adjacant(mr);
        proof {
            assert forall|k: int| #[trigger] mapped_at(self.model(), k) == mapped_at(before, k) by {
                joining_outside_keeps::<MappingSetOperations>(before, mr, k);
            }
            lemma_joined_outside_mapped(before, mr);
            assert forall|i: int| 0 <= i < unmapped@.len() implies exists|j: int|
                0 <= j < m0.ks.len() && #[trigger] unmapped@[i] == (#[trigger] m0.ks[j]).common(
                    mr,
                ) by {
                let x = choose|x: int| a <= x < b && unmapped@[i] == #[trigger] c.ks[x];
                let j = choose|j: int|
                    0 <= j < m0.ks.len() && c.ks[x] == (#[trigger] m0.ks[j]).common(mr);
                assert(unmapped@[i] == m0.ks[j].common(mr));
            }
        }
        unmapped
    }
}

/// From index `i` on, `m` has the segments that `c` has `d` places further on.
#[verifier::opaque]
spec fn tail_of(
    m: Segments<Seq<MappingOfRange>>,
    c: Segments<Seq<MappingOfRange>>,
    i: int,
    d: int,
) -> bool {
    forall|j: int|
        i <= j < m.ks.len() ==> (#[trigger] m.ks[j]) == c.ks[j + d] && m.vs[j] == c.vs[j + d]
}

proof fn lemma_tail_start(
    m: Segments<Seq<MappingOfRange>>,
    c: Segments<Seq<MappingOfRange>>,
    i: int,
    d: int,
)
    requires
        tail_of(m, c, i, d),
        0 <= i < m.ks.len(),
    ensures
        m.ks[i] == c.ks[i + d],
        m.vs[i] == c.vs[i + d],
{
    reveal(tail_of);
    assert(m.ks[i] == c.ks[i + d]);
}

proof fn lemma_tail_without(
    m: Segments<Seq<MappingOfRange>>,
    c: Segments<Seq<MappingOfRange>>,
    i: int,
    d: int,
)
    requires
        tail_of(m, c, i, d),
        0 <= i < m.ks.len(),
        m.ks.len() == m.vs.len(),
    ensures
        tail_of(m.without(i), c, i, d + 1),
{
    reveal(tail_of);
    let t = m.without(i);
    assert forall|j: int| i <= j < t.ks.len() implies (#[trigger] t.ks[j]) == c.ks[j + (d + 1)]
        && t.vs[j] == c.vs[j + (d + 1)] by {
        assert(t.ks[j] == m.ks[j + 1]);
        assert(t.vs[j] == m.vs[j + 1]);
    }
}

proof fn lemma_tail_set(
    m: Segments<Seq<MappingOfRange>>,
    c: Segments<Seq<MappingOfRange>>,
    i: int,
    d: int,
    v: Seq<MappingOfRange>,
)
    requires
        tail_of(m, c, i, d),
        0 <= i < m.ks.len(),
        m.ks.len() == m.vs.len(),
    ensures
        tail_of(m.set_value(i, v), c, i + 1, d),
{
    reveal(tail_of);
    let t = m.set_value(i, v);
    assert forall|j: int| i + 1 <= j < t.ks.len() implies (#[trigger] t.ks[j]) == c.ks[j + d]
        && t.vs[j] == c.vs[j + d] by {
        assert(t.ks[j] == m.ks[j]);
        assert(t.vs[j] == m.vs[j]);
    }
}

/// The keys of parts `h` and `h + 1` do not overlap.
proof fn lemma_between_parts(ks: Seq<Range>, r: Range, a: int, b: int, h: int)
    requires
        sorted(ks),
        parted(ks, r, a, b),
        a <= h < b,
    ensures
        h + 1 < b ==> ks[h].end <= ks[h + 1].start,
        r.start <= ks[h].start < ks[h].end <= r.end,
{
    assert(r.covers(ks[h]));
}

/// No part holds a key past part `h` and below the next one.
proof fn lemma_gap_after_part(
    c: Segments<Seq<MappingOfRange>>,
    r: Range,
    a: int,
    b: int,
    h: int,
    k: int,
)
    requires
        sorted(c.ks),
        parted(c.ks, r, a, b),
        a <= h < b,
        r.has(k),
        h + 1 < b ==> k < c.ks[h + 1].start,
        k >= c.ks[h].end,
    ensures
        mapped_at(c, k) is None,
{
    assert forall|i: int| !#[trigger] held_at(c.ks, k, i) by {
        if held_at(c.ks, k, i) {
            if i < h {
                assert(c.ks[i].end <= c.ks[h].start);
            } else if i > h {
                if i < b {
                    if i > h + 1 {
                        assert(c.ks[h + 1].end <= c.ks[i].start);
                        assert(c.ks[h + 1].start < c.ks[h + 1].end);
                    }
                } else {
                    assert(r.end <= c.ks[i].start);
                }
            }
        }
    }
    lemma_point_free::<MappingSetOperations>(c, k);
}

/// `r` is one of the ranges at the indices from `a` up to `b`.
pub open spec fn one_of(r: Range, ks: Seq<Range>, a: int, b: int) -> bool {
    exists|x: int| a <= x < b && r == #[trigger] ks[x]
}

/// No part holds a key below the first one.
proof fn lemma_gap_before_parts(
    c: Segments<Seq<MappingOfRange>>,
    r: Range,
    a: int,
    b: int,
    k: int,
)
    requires
        sorted(c.ks),
        parted(c.ks, r, a, b),
        r.has(k),
        a < b ==> k < c.ks[a].start,
    ensures
        mapped_at(c, k) is None,
{
    assert forall|i: int| !#[trigger] held_at(c.ks, k, i) by {
        if held_at(c.ks, k, i) {
            if i < a {
                assert(c.ks[i].end <= r.start);
            } else if i < b {
                if i > a {
                    assert(c.ks[a].end <= c.ks[i].start);
                    assert(c.ks[a].start < c.ks[a].end);
                }
            } else {
                assert(r.end <= c.ks[i].start);
            }
        }
    }
    lemma_point_free::<MappingSetOperations>(c, k);
}

proof fn lemma_unmapped_push(rs: Seq<Range>, ks: Seq<Range>, a: int, h: int)
    requires
        sorted(rs),
        sorted(ks),
        0 <= a <= h < ks.len(),
        forall|j: int| 0 <= j < rs.len() ==> one_of(#[trigger] rs[j], ks, a, h),
    ensures
        sorted(rs.push(ks[h])),
        forall|j: int|
            0 <= j < rs.push(ks[h]).len() ==> one_of(#[trigger] rs.push(ks[h])[j], ks, a, h + 1),
{
    let n = rs.push(ks[h]);
    assert forall|i: int, j: int| 0 <= i < j < n.len() implies (#[trigger] n[i]).end <= (
    #[trigger] n[j]).start by {
        if j == rs.len() {
            let x = choose|x: int| a <= x < h && rs[i] == #[trigger] ks[x];
            assert(ks[x].end <= ks[h].start);
        }
    }
    assert forall|j: int| 0 <= j < n.len() implies one_of(#[trigger] n[j], ks, a, h + 1) by {
        if j == rs.len() {
            assert(n[j] == ks[h]);
        } else {
            let x = choose|x: int| a <= x < h && rs[j] == #[trigger] ks[x];
            assert(n[j] == ks[x]);
        }
    }
}

proof fn lemma_joined_mapped(m: Segments<Seq<MappingOfRange>>, i: int)
    requires
        all_mapped(m),
        m.ks.len() == m.vs.len(),
    ensures
        all_mapped(joined::<MappingSetOperations>(m, i)),
        joined::<MappingSetOperations>(m, i).ks.len() == joined::<MappingSetOperations>(
            m,
            i,
        ).vs.len(),
{
    let n = joined::<MappingSetOperations>(m, i);
    if let Some(v) = join_value::<MappingSetOperations>(m, i) {
        assert(m.vs[i].len() > 0);
        assert forall|j: int| 0 <= j < n.vs.len() implies (#[trigger] n.vs[j]).len() > 0 by {
            if j < i {
                assert(n.vs[j] == m.vs[j]);
            } else if j > i {
                assert(n.vs[j] == m.vs[j + 1]);
            }
        }
    }
}

/// Joining leaves every part mapped.
proof fn lemma_joined_outside_mapped(m: Segments<Seq<MappingOfRange>>, r: Range)
    requires
        all_mapped(m),
        m.ks.len() == m.vs.len(),
    ensures
        all_mapped(joined_outside::<MappingSetOperations>(m, r)),
{
    let i = holder(m.ks, r.start as int);
    lemma_joined_mapped(m, i - 1);
    let m1 = if i < m.ks.len() {
        joined::<MappingSetOperations>(m, i - 1)
    } else {
        m
    };
    lemma_joined_mapped(m1, holder(m1.ks, r.end - 1));
}

proof fn lemma_next_part(ks: Seq<Range>, p: u64, i: int)
    requires
        sorted(ks),
        split_about(ks, p, i),
        i < ks.len(),
        ks[i].start == p,
    ensures
        split_about(ks, ks[i].end, i + 1),
        p < ks[i].end,
{
    assert forall|j: int| 0 <= j < i + 1 implies (#[trigger] ks[j]).end <= ks[i].end by {
        if j < i {
            assert(ks[j].end <= p);
        }
    }
    assert forall|j: int| i + 1 <= j < ks.len() implies ks[i].end <= (#[trigger] ks[j]).start by {
        assert(ks[i].end <= ks[j].start);
    }
}

proof fn lemma_gap_part(ks: Seq<Range>, g: Range, i: int)
    requires
        sorted(ks),
        split_about(ks, g.start, i),
        g.start < g.end,
        i < ks.len() ==> g.end <= ks[i].start,
    ensures
        sorted(ks.insert(i, g)),
        forall|k: int| g.has(k) ==> #[trigger] free(ks, k),
        forall|j: int| 0 <= j < i ==> (#[trigger] ks[j]).end <= g.start,
        forall|j: int| i <= j < ks.len() ==> g.end <= (#[trigger] ks[j]).start,
{
    assert forall|j: int| i <= j < ks.len() implies g.end <= (#[trigger] ks[j]).start by {
        if i < j {
            assert(ks[i].end <= ks[j].start);
            assert(ks[i].start < ks[i].end);
        }
    }
    lemma_sorted_insert(ks, i, g);
}

proof fn lemma_uncut_with(ks: Seq<Range>, i: int, g: Range, x: u64)
    requires
        uncut(ks, x as int),
        0 <= i <= ks.len(),
        g.end <= x,
    ensures
        uncut(ks.insert(i, g), x as int),
{
    let n = ks.insert(i, g);
    assert forall|j: int| 0 <= j < n.len() implies !(#[trigger] n[j]).cuttable(x as int) by {
        if j < i {
            assert(n[j] == ks[j]);
        } else if j > i {
            assert(n[j] == ks[j - 1]);
        }
    }
}

proof fn lemma_split_after_insert(ks: Seq<Range>, g: Range, i: int)
    requires
        0 <= i <= ks.len(),
        g.start < g.end,
        forall|j: int| 0 <= j < i ==> (#[trigger] ks[j]).end <= g.start,
        forall|j: int| i <= j < ks.len() ==> g.end <= (#[trigger] ks[j]).start,
    ensures
        split_about(ks.insert(i, g), g.end, i + 1),
        i < ks.len() ==> ks.insert(i, g)[i + 1] == ks[i],
{
    let n = ks.insert(i, g);
    assert forall|j: int| 0 <= j < i + 1 implies (#[trigger] n[j]).end <= g.end by {
        if j < i {
            assert(n[j] == ks[j]);
        }
    }
    assert forall|j: int| i + 1 <= j < n.len() implies g.end <= (#[trigger] n[j]).start by {
        assert(n[j] == ks[j - 1]);
    }
}

proof fn lemma_free_push(rs: Seq<Range>, g: Range, k: int)
    ensures
        free(rs.push(g), k) == (free(rs, k) && !g.has(k)),
{
    let n = rs.push(g);
    if free(n, k) {
        assert(!n[rs.len() as int].has(k));
        assert forall|i: int| 0 <= i < rs.len() implies !(#[trigger] rs[i]).has(k) by {
            assert(n[i] == rs[i]);
        }
    }
}

proof fn lemma_apart_push(rs: Seq<Range>, g: Range)
    requires
        apart(rs),
        g.start < g.end,
        forall|j: int| 0 <= j < rs.len() ==> (#[trigger] rs[j]).end <= g.start,
        rs.len() > 0 ==> rs.last().end < g.start,
    ensures
        apart(rs.push(g)),
{
    let n = rs.push(g);
    assert forall|i: int, j: int| 0 <= i < j < n.len() implies (#[trigger] n[i]).end < (
    #[trigger] n[j]).start by {
        if j == rs.len() {
            if i < rs.len() - 1 {
                assert(rs[i].end < rs[rs.len() - 1].start);
                assert(rs[rs.len() - 1].start < rs[rs.len() - 1].end);
            }
        }
    }
}

/// Cutting leaves every part mapped.
proof fn lemma_carved_mapped(m: Segments<Seq<MappingOfRange>>, r: Range)
    requires
        all_mapped(m),
        m.ks.len() == m.vs.len(),
    ensures
        all_mapped(carved::<MappingSetOperations>(m, r)),
{
    lemma_cut_mapped(m, r.start);
    lemma_cut_mapped(cut_at_key::<MappingSetOperations>(m, r.start), r.end);
}

proof fn lemma_cut_mapped(m: Segments<Seq<MappingOfRange>>, k: u64)
    requires
        all_mapped(m),
        m.ks.len() == m.vs.len(),
    ensures
        all_mapped(cut_at_key::<MappingSetOperations>(m, k)),
        cut_at_key::<MappingSetOperations>(m, k).ks.len() == cut_at_key::<MappingSetOperations>(
            m,
            k,
        ).vs.len(),
{
    let n = cut_at_key::<MappingSetOperations>(m, k);
    let i = holder(m.ks, k as int);
    if 0 <= i < m.ks.len() && m.ks[i].cuttable(k as int) {
        assert forall|j: int| 0 <= j < n.vs.len() implies (#[trigger] n.vs[j]).len() > 0 by {
            assert(m.vs[i].len() > 0);
            if j < i {
                assert(n.vs[j] == m.vs[j]);
            } else if j > i + 1 {
                assert(n.vs[j] == m.vs[j - 1]);
            }
        }
    }
}

/// Addresses whose translations are no longer valid.
#[derive(Debug, Clone, Copy, PartialEq, Eq, Structural)]
pub struct Invalidation {
    pub addr_range: AddrRange,
    pub opts: InvalidateOpts,
}

/// The addresses at which mapping `m` of part `s` has what lies in `mr`.
pub open spec fn invalidation(
    s: MappableRange,
    m: MappingOfRange,
    mr: MappableRange,
    opts: InvalidateOpts,
) -> Invalidation {
    Invalidation {
        addr_range: sub_mapping(s, s.common(mr), m.addr_range.start, m.writable).addr_range,
        opts,
    }
}

/// The addresses at which the first `n` parts have what lies in `mr`.
pub open spec fn invalidations(
    m: Segments<Seq<MappingOfRange>>,
    mr: MappableRange,
    opts: InvalidateOpts,
    n: int,
) -> Seq<Invalidation>
    decreases n,
{
    if n <= 0 {
        Seq::empty()
    } else {
        invalidations(m, mr, opts, n - 1) + if m.ks[n - 1].meets(mr) {
            m.vs[n - 1].map_values(|v: MappingOfRange| invalidation(m.ks[n - 1], v, mr, opts))
        } else {
            Seq::empty()
        }
    }
}

impl SegmentSet<MappingSetOperations> {
    /// Tells the addresses whose translations are no longer valid once the
    /// part `mr` of the object has changed.
    pub fn invalidate(&self, mr: MappableRange, opts: InvalidateOpts) -> (v: Vec<Invalidation>)
        requires
            self.wf(),
            mr.well_formed(),
        ensures
            v@ == invalidations(self.model(), mr, opts, self.ranges().len() as int),
    {
        let ghost m = self.model();
        let mut v: Vec<Invalidation> = Vec::new();
        let mut i: usize = 0;
        let n = self.keys.len();
        while i < n
            invariant
                self.wf(),
                mr.well_formed(),
                m == self.model(),
                n == m.ks.len(),
                i <= n,
                v@ == invalidations(m, mr, opts, i as int),
            decreases n - i,
        {
            let s = self.keys[i];
            if s.overlaps(&mr) {
                let sub = s.intersect(&mr);
                let ghost v0 = v@;
                let ghost part = m.vs[i as int].map_values(
                    |x: MappingOfRange| invalidation(m.ks[i as int], x, mr, opts),
                );
                assert(MappingSetOperations::fits(m.ks[i as int], m.vs[i as int]));
                let maps = self.value_of(i);
                let mut j: usize = 0;
                assert(v@ =~= v0 + part.take(0));
                while j < maps.items.len()
                    invariant
                        j <= maps@.len(),
                        s == m.ks[i as int],
                        s.start < s.end,
                        s.meets(mr),
                        mr.well_formed(),
                        sub == s.common(mr),
                        maps@ == m.vs[i as int],
                        fitting(s, maps@),
                        part == m.vs[i as int].map_values(
                            |x: MappingOfRange| invalidation(m.ks[i as int], x, mr, opts),
                        ),
                        v@ == v0 + part.take(j as int),
                    decreases maps@.len() - j,
                {
                    let x = maps.items[j];
                    assert(maps@[j as int].addr_range.length() == s.length());
                    let r = subset_mapping(s, sub, x.addr_range.start, x.writable);
                    let inv = Invalidation { addr_range: r.addr_range, opts };
                    v.push(inv);
                    assert(v0 + part.take(j + 1) =~= (v0 + part.take(j as int)).push(inv));
                    j = j + 1;
                }
                assert(part.take(j as int) =~= part);
            } else {
                assert(v@ =~= invalidations(m, mr, opts, i + 1));
            }
            i = i + 1;
        }
        v
    }
}

/// A mapping that was not there before is gone once it is taken out again, and
/// with it all that adding it changed.
pub proof fn removing_undoes_adding(p: Option<Set<(int, bool)>>, x: (int, bool))
    requires
        match p {
            Some(s) => !s.contains(x) && s != Set::<(int, bool)>::empty(),
            None => true,
        },
    ensures
        removed(added(p, x), x) == p,
{
    match p {
        Some(s) => {
            assert(s.insert(x).remove(x) =~= s);
        },
        None => {
            assert(Set::<(int, bool)>::empty().insert(x).remove(x) =~= Set::empty());
        },
    }
}

/// Two mappings can be taken out in either order.
pub proof fn removals_commute(p: Option<Set<(int, bool)>>, x: (int, bool), y: (int, bool))
    ensures
        removed(removed(p, x), y) == removed(removed(p, y), x),
{
    if let Some(s) = p {
        assert(s.remove(x).remove(y) =~= s.remove(y).remove(x));
        if s.remove(x) =~= Set::empty() {
            assert(s.remove(x).remove(y) =~= Set::empty());
        }
        if s.remove(y) =~= Set::empty() {
            assert(s.remove(y).remove(x) =~= Set::empty());
        }
    }
}

} // verus!
