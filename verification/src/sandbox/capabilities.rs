use vstd::prelude::*;

verus! {

/// The highest capability.
pub const LAST_CAPABILITY: u8 = 40;

/// The sets of capabilities that a task has.
#[derive(Debug, Clone, Copy, PartialEq, Eq, Structural)]
pub enum CapSet {
    Ambient,
    Bounding,
    Effective,
    Inheritable,
    Permitted,
}

/// What is to be done to a set of capabilities, which go by their numbers.
#[derive(Debug)]
pub enum CapStep {
    /// Take these out of the bounding set.
    Drop(Vec<u8>),
    /// Make a set hold exactly these.
    Replace(CapSet, Vec<u8>),
}

/// All capabilities, by `caps::all` and `caps::Capability::index`: their numbers
/// are those up to the last one, each once. In which order they come is left
/// open, for they come from a hash set.
#[verifier::external_body]
pub(crate) fn all_capabilities() -> (v: Vec<u8>)
    ensures
        v@.no_duplicates(),
        forall|c: u8| #[trigger] v@.contains(c) == (c <= LAST_CAPABILITY),
{
    caps::all().iter().map(|c| c.index()).collect()
}

/// `v` holds the number `c`.
fn holds(v: &Vec<u8>, c: u8) -> (b: bool)
    ensures
        b == v@.contains(c),
{
    let mut i: usize = 0;
    while i < v.len()
        invariant
            i <= v@.len(),
            forall|j: int| 0 <= j < i ==> v@[j] != c,
        decreases v@.len() - i,
    {
        if v[i] == c {
            assert(v@[i as int] == c);
            return true;
        }
        i = i + 1;
    }
    false
}

/// The capabilities of `all` that are not in `kept`.
pub fn difference(all: &Vec<u8>, kept: &Vec<u8>) -> (d: Vec<u8>)
    requires
        all@.no_duplicates(),
    ensures
        d@.no_duplicates(),
        forall|c: u8| #[trigger] d@.contains(c) == (all@.contains(c) && !kept@.contains(c)),
{
    let mut d: Vec<u8> = Vec::new();
    let mut i: usize = 0;
    while i < all.len()
        invariant
            i <= all@.len(),
            all@.no_duplicates(),
            d@.no_duplicates(),
            forall|c: u8| #[trigger]
                d@.contains(c) == (all@.take(i as int).contains(c) && !kept@.contains(c)),
        decreases all@.len() - i,
    {
        let c = all[i];
        let ghost d0 = d@;
        proof {
            assert(!all@.take(i as int).contains(c)) by {
                if all@.take(i as int).contains(c) {
                    let j = choose|j: int| 0 <= j < i && all@.take(i as int)[j] == c;
                    assert(all@[j] == all@[i as int]);
                }
            }
            assert forall|x: u8| #[trigger]
                all@.take(i + 1).contains(x) == (all@.take(i as int).contains(x) || x == c) by {
                let t = all@.take(i + 1);
                assert(t =~= all@.take(i as int).push(c));
                if all@.take(i as int).contains(x) {
                    let j = choose|j: int| 0 <= j < i && all@.take(i as int)[j] == x;
                    assert(t[j] == x);
                }
                assert(t[i as int] == c);
            }
        }
        if !holds(kept, c) {
            d.push(c);
            proof {
                assert(!d0.contains(c));
                assert forall|a: int, b: int|
                    0 <= a < d@.len() && 0 <= b < d@.len() && a != b implies d@[a] != d@[b] by {
                    if a < d0.len() {
                        assert(d0.contains(d0[a]));
                    }
                    if b < d0.len() {
                        assert(d0.contains(d0[b]));
                    }
                }
                assert forall|x: u8| #[trigger] d@.contains(x) == (d0.contains(x) || x == c) by {
                    if d0.contains(x) {
                        let j = choose|j: int| 0 <= j < d0.len() && d0[j] == x;
                        assert(d@[j] == x);
                    }
                    assert(d@[d0.len() as int] == c);
                }
            }
        }
        i = i + 1;
    }
    assert(all@.take(i as int) =~= all@);
    d
}

/// The step that brings set `cset` to `value`: `step` takes out of the bounding
/// set what is not in `value`, and replaces any other set.
pub open spec fn brings(cset: CapSet, value: Seq<u8>, step: CapStep) -> bool {
    match step {
        CapStep::Drop(d) => cset == CapSet::Bounding && d@.no_duplicates() && forall|c: u8|
            #[trigger] d@.contains(c) == (c <= LAST_CAPABILITY && !value.contains(c)),
        CapStep::Replace(s, v) => cset != CapSet::Bounding && s == cset && v@ == value,
    }
}

/// What is to be done so that set `cset` holds `value`.
pub fn set_capabilities(cset: CapSet, value: Vec<u8>) -> (step: CapStep)
    ensures
        brings(cset, value@, step),
{
    match cset {
        CapSet::Bounding => {
            let all = all_capabilities();
            CapStep::Drop(difference(&all, &value))
        },
        _ => CapStep::Replace(cset, value),
    }
}

/// The capabilities that a program is to have, as far as they are given.
#[derive(Debug)]
pub struct Privileges {
    pub bounding: Option<Vec<u8>>,
    pub effective: Option<Vec<u8>>,
    pub permitted: Option<Vec<u8>>,
    pub inheritable: Option<Vec<u8>>,
    pub ambient: Option<Vec<u8>>,
}

/// The sets that are given, in the order in which they are set.
pub open spec fn given(p: Privileges) -> Seq<(CapSet, Seq<u8>)> {
    one(CapSet::Bounding, p.bounding) + one(CapSet::Effective, p.effective) + one(
        CapSet::Permitted,
        p.permitted,
    ) + one(CapSet::Inheritable, p.inheritable) + one(CapSet::Ambient, p.ambient)
}

pub open spec fn one(s: CapSet, v: Option<Vec<u8>>) -> Seq<(CapSet, Seq<u8>)> {
    match v {
        Some(v) => seq![(s, v@)],
        None => Seq::empty(),
    }
}

/// The steps bring about one set each.
pub open spec fn brings_all(g: Seq<(CapSet, Seq<u8>)>, steps: Seq<CapStep>) -> bool {
    &&& g.len() == steps.len()
    &&& forall|i: int| 0 <= i < g.len() ==> brings(g[i].0, g[i].1, #[trigger] steps[i])
}

fn add_step(steps: &mut Vec<CapStep>, cset: CapSet, v: Option<Vec<u8>>, done: Ghost<
    Seq<(CapSet, Seq<u8>)>,
>)
    requires
        brings_all(done@, old(steps)@),
    ensures
        brings_all(done@ + one(cset, v), final(steps)@),
{
    let ghost g = done@ + one(cset, v);
    let ghost before = steps@;
    if let Some(v) = v {
        steps.push(set_capabilities(cset, v));
    }
    assert forall|i: int| 0 <= i < g.len() implies brings(g[i].0, g[i].1, #[trigger] steps@[i]) by {
        if i < before.len() {
            assert(steps@[i] == before[i]);
        }
    }
}

/// What is to be done so that a program has the given capabilities.
pub fn drop_privileges(p: Privileges) -> (steps: Vec<CapStep>)
    ensures
        brings_all(given(p), steps@),
{
    let mut steps: Vec<CapStep> = Vec::new();
    let ghost g0 = Seq::<(CapSet, Seq<u8>)>::empty();
    let ghost g1 = one(CapSet::Bounding, p.bounding);
    assert(g0 + g1 =~= g1);
    add_step(&mut steps, CapSet::Bounding, p.bounding, Ghost(g0));
    let ghost g2 = g1 + one(CapSet::Effective, p.effective);
    add_step(&mut steps, CapSet::Effective, p.effective, Ghost(g1));
    let ghost g3 = g2 + one(CapSet::Permitted, p.permitted);
    add_step(&mut steps, CapSet::Permitted, p.permitted, Ghost(g2));
    let ghost g4 = g3 + one(CapSet::Inheritable, p.inheritable);
    add_step(&mut steps, CapSet::Inheritable, p.inheritable, Ghost(g3));
    add_step(&mut steps, CapSet::Ambient, p.ambient, Ghost(g4));
    steps
}

/// Whatever is taken out of the bounding set, what is to be kept stays in it.
pub proof fn dropping_keeps(value: Seq<u8>, step: CapStep, c: u8)
    requires
        brings(CapSet::Bounding, value, step),
        c <= LAST_CAPABILITY,
    ensures
        step->Drop_0@.contains(c) == !value.contains(c),
{
}

} // verus!
