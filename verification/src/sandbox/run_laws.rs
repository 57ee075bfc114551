use vstd::prelude::*;
use vstd::utf8::encode_utf8;

use crate::sandbox::access::{may_use, AccessRequest, FilePermissions, PermMask};
use crate::sandbox::capabilities::{brings, brings_all, given, one, CapSet, CapStep, Privileges};
use crate::sandbox::oci::{
    all_digits, digits_value, env_level, level_of, pid_named, same_letters,
    sets_level, small, LogLevel,
};
use crate::sandbox::trace::{ascending, noted, place_of, Latency};

verus! {

/// The sets of capabilities of a task after a step.
pub open spec fn stepped(caps: Map<CapSet, Set<u8>>, step: CapStep) -> Map<CapSet, Set<u8>> {
    match step {
        CapStep::Drop(d) => caps.insert(
            CapSet::Bounding,
            caps[CapSet::Bounding].difference(d@.to_set()),
        ),
        CapStep::Replace(s, v) => caps.insert(s, v@.to_set()),
    }
}

/// The sets of capabilities of a task after steps, one after the other.
pub open spec fn after_steps(caps: Map<CapSet, Set<u8>>, steps: Seq<CapStep>) -> Map<
    CapSet,
    Set<u8>,
>
    decreases steps.len(),
{
    if steps.len() == 0 {
        caps
    } else {
        stepped(after_steps(caps, steps.drop_last()), steps.last())
    }
}

/// What becomes of a set of capabilities for which `v` is given. No capability comes to
/// the bounding set.
pub open spec fn limited_to(s: CapSet, before: Set<u8>, v: Seq<u8>) -> Set<u8> {
    if s == CapSet::Bounding {
        before.intersect(v.to_set())
    } else {
        v.to_set()
    }
}

proof fn lemma_after_steps(
    caps: Map<CapSet, Set<u8>>,
    g: Seq<(CapSet, Seq<u8>)>,
    steps: Seq<CapStep>,
    s: CapSet,
)
    requires
        brings_all(g, steps),
        forall|i: int, j: int| 0 <= i < j < g.len() ==> (#[trigger] g[i]).0 != (#[trigger] g[j]).0,
        forall|c: u8| #[trigger] caps[CapSet::Bounding].contains(c) ==> c <= 40,
    ensures
        (forall|i: int| 0 <= i < g.len() ==> (#[trigger] g[i]).0 != s) ==> after_steps(
            caps,
            steps,
        )[s] == caps[s],
        forall|i: int|
            0 <= i < g.len() && (#[trigger] g[i]).0 == s ==> after_steps(caps, steps)[s]
                == limited_to(s, caps[s], g[i].1),
    decreases g.len(),
{
    if g.len() > 0 {
        let t = g.drop_last();
        let r = steps.drop_last();
        let x = g.last();
        assert forall|i: int| 0 <= i < t.len() implies brings(t[i].0, t[i].1, #[trigger] r[i]) by {
            assert(r[i] == steps[i]);
            assert(t[i] == g[i]);
        }
        assert forall|i: int, j: int| 0 <= i < j < t.len() implies (#[trigger] t[i]).0 != (
        #[trigger] t[j]).0 by {
            assert(g[i].0 != g[j].0);
        }
        lemma_after_steps(caps, t, r, s);
        assert(brings(x.0, x.1, steps[steps.len() - 1]));
        let before = after_steps(caps, r);
        if x.0 == s {
            assert forall|i: int| 0 <= i < t.len() implies (#[trigger] t[i]).0 != s by {
                assert(g[i].0 != g[g.len() - 1].0);
            }
            assert(before[s] == caps[s]);
            if let CapStep::Drop(d) = steps.last() {
                assert forall|c: u8| #[trigger]
                    caps[s].difference(d@.to_set()).contains(c) == caps[s].intersect(
                        x.1.to_set(),
                    ).contains(c) by {
                    assert(d@.contains(c) == (c <= 40 && !x.1.contains(c)));
                    assert(d@.to_set().contains(c) == d@.contains(c));
                    assert(x.1.to_set().contains(c) == x.1.contains(c));
                    if caps[s].contains(c) {
                        assert(c <= 40);
                    }
                }
                assert(after_steps(caps, steps)[s] == caps[s].difference(d@.to_set()));
                assert(caps[s].difference(d@.to_set()) =~= caps[s].intersect(x.1.to_set()));
            }
            assert(after_steps(caps, steps)[s] =~= limited_to(s, caps[s], x.1));
            assert forall|i: int| 0 <= i < g.len() && (#[trigger] g[i]).0 == s implies g[i] == x by {
                if i < t.len() {
                    assert(t[i].0 != s);
                }
            }
        } else {
            assert(after_steps(caps, steps)[s] == before[s]);
            assert forall|i: int| 0 <= i < g.len() && (#[trigger] g[i]).0 == s implies after_steps(
                caps,
                steps,
            )[s] == limited_to(s, caps[s], g[i].1) by {
                assert(g[g.len() - 1] == x);
                assert(t[i] == g[i]);
                assert(before[s] == limited_to(s, caps[s], t[i].1));
            }
            assert forall|i: int| 0 <= i < t.len() implies #[trigger] t[i] == g[i] by {}
            if forall|i: int| 0 <= i < g.len() ==> (#[trigger] g[i]).0 != s {
                assert forall|i: int| 0 <= i < t.len() implies (#[trigger] t[i]).0 != s by {
                    assert(g[i].0 != s);
                }
            }
        }
    }
}

proof fn lemma_given(p: Privileges)
    ensures
        ({
            let g = given(p);
            &&& forall|i: int, j: int|
                0 <= i < j < g.len() ==> (#[trigger] g[i]).0 != (#[trigger] g[j]).0
            &&& forall|i: int|
                0 <= i < g.len() ==> asked(p, (#[trigger] g[i]).0) == Some(g[i].1)
            &&& forall|s: CapSet|
                asked(p, s) is Some ==> exists|i: int|
                    0 <= i < g.len() && (#[trigger] g[i]).0 == s
        }),
{
    let a = one(CapSet::Bounding, p.bounding);
    let b = one(CapSet::Effective, p.effective);
    let c = one(CapSet::Permitted, p.permitted);
    let d = one(CapSet::Inheritable, p.inheritable);
    let e = one(CapSet::Ambient, p.ambient);
    let g = given(p);
    let n1 = a.len() as int;
    let n2 = n1 + b.len();
    let n3 = n2 + c.len();
    let n4 = n3 + d.len();
    assert(g.len() == n4 + e.len());
    assert forall|i: int| 0 <= i < g.len() implies #[trigger] g[i] == (if i < n1 {
        a[i]
    } else if i < n2 {
        b[i - n1]
    } else if i < n3 {
        c[i - n2]
    } else if i < n4 {
        d[i - n3]
    } else {
        e[i - n4]
    }) by {}
    assert forall|s: CapSet| asked(p, s) is Some implies exists|i: int|
        0 <= i < g.len() && (#[trigger] g[i]).0 == s by {
        let i = match s {
            CapSet::Bounding => 0,
            CapSet::Effective => n1,
            CapSet::Permitted => n2,
            CapSet::Inheritable => n3,
            CapSet::Ambient => n4,
        };
        assert(g[i].0 == s);
    }
}

/// What is asked of a set of capabilities, if anything is.
pub open spec fn asked(p: Privileges, s: CapSet) -> Option<Seq<u8>> {
    let v = match s {
        CapSet::Bounding => p.bounding,
        CapSet::Effective => p.effective,
        CapSet::Permitted => p.permitted,
        CapSet::Inheritable => p.inheritable,
        CapSet::Ambient => p.ambient,
    };
    match v {
        Some(v) => Some(v@),
        None => None,
    }
}

/// Once the steps are done, each set of capabilities that is given holds what was asked,
/// the bounding set only as far as it held it before, and each that is not given is as
/// it was.
pub proof fn privileges_are_as_asked(
    p: Privileges,
    steps: Seq<CapStep>,
    caps: Map<CapSet, Set<u8>>,
    s: CapSet,
)
    requires
        brings_all(given(p), steps),
        forall|c: u8| #[trigger] caps[CapSet::Bounding].contains(c) ==> c <= 40,
    ensures
        match asked(p, s) {
            Some(v) => after_steps(caps, steps)[s] == limited_to(s, caps[s], v),
            None => after_steps(caps, steps)[s] == caps[s],
        },
{
    lemma_given(p);
    lemma_after_steps(caps, given(p), steps, s);
    if asked(p, s) is Some {
        let g = given(p);
        let i = choose|i: int| 0 <= i < g.len() && (#[trigger] g[i]).0 == s;
        assert(asked(p, g[i].0) == Some(g[i].1));
    } else {
        assert forall|i: int| 0 <= i < given(p).len() implies (#[trigger] given(p)[i]).0 != s by {
            assert(asked(p, given(p)[i].0) == Some(given(p)[i].1));
        }
    }
}

/// The bounding set is cut down before anything else, while the task may still do so.
pub proof fn bounding_set_comes_first(p: Privileges, steps: Seq<CapStep>, i: int)
    requires
        brings_all(given(p), steps),
        0 <= i < steps.len(),
        steps[i] is Drop,
    ensures
        i == 0,
{
    lemma_given(p);
    let g = given(p);
    assert(brings(g[i].0, g[i].1, steps[i]));
    assert(g[i].0 == CapSet::Bounding);
    assert(asked(p, g[i].0) is Some);
    assert(g[0] == one(CapSet::Bounding, p.bounding)[0]);
    assert(g[0].0 == CapSet::Bounding);
}

/// Without capabilities a file may be used just as the permissions say that apply: those
/// of its owner for its owner, those of its group for others of the group, and those of
/// all others else. Nothing can be executed where that is switched off.
pub proof fn permissions_bind(a: AccessRequest, req: PermMask, perms: FilePermissions)
    requires
        !a.dac_override,
        !a.dac_read_search,
        a.perms == Some(perms),
    ensures
        ({
            let p = if a.is_owner {
                perms.user
            } else if a.in_group {
                perms.group
            } else {
                perms.other
            };
            may_use(a, req) == ((req.read ==> p.read) && (req.write ==> p.write) && (req.execute
                ==> p.execute) && !(req.execute && a.is_file && a.no_exec))
        }),
{
}

/// One whom permissions do not bind may use any file that has permissions, but may
/// execute one that is no directory only if someone may. One whom they do not bind in
/// reading and searching may read any file and search any directory.
pub proof fn capabilities_unbind(a: AccessRequest, req: PermMask, perms: FilePermissions)
    requires
        a.perms == Some(perms),
        !(req.execute && a.is_file && a.no_exec),
    ensures
        a.dac_override && (a.is_directory || !req.execute || perms.user.execute
            || perms.group.execute || perms.other.execute) ==> may_use(a, req),
        a.dac_read_search && !req.write && (a.is_directory || (req.read && !req.execute))
            ==> may_use(a, req),
        a.dac_override && !a.is_directory && req.execute && !perms.user.execute
            && !perms.group.execute && !perms.other.execute ==> !may_use(a, req),
        !a.dac_override && req.write && !(if a.is_owner {
            perms.user.write
        } else if a.in_group {
            perms.group.write
        } else {
            perms.other.write
        }) ==> !may_use(a, req),
{
}

/// A file of which nothing is known may not be used.
pub proof fn unknown_file_is_not_used(a: AccessRequest, req: PermMask)
    requires
        a.perms is None,
    ensures
        !may_use(a, req),
{
}

/// The time of a system call is noted, in place of that of another that took just as
/// long, and no other is forgotten.
pub proof fn latency_is_noted(s: Seq<Latency>, l: Latency, x: Latency)
    requires
        ascending(s),
    ensures
        noted(s, l).contains(x) == (x == l || (s.contains(x) && x.elapsed != l.elapsed)),
{
    lemma_place_of(s, l.elapsed);
    let i = place_of(s, l.elapsed) as int;
    let r = noted(s, l);
    assert(r[i] == l);
    if s.contains(x) && x.elapsed != l.elapsed {
        let j = choose|j: int| 0 <= j < s.len() && s[j] == x;
        if r.len() == s.len() {
            assert(r[j] == x);
        } else {
            assert(r[if j < i {
                j
            } else {
                j + 1
            }] == x);
        }
    }
    if r.contains(x) && x != l {
        let j = choose|j: int| 0 <= j < r.len() && r[j] == x;
        if r.len() == s.len() {
            assert(s[j] == x);
            assert(j != i);
            if j < i {
                assert(s[j].elapsed < l.elapsed);
            } else {
                assert(s[i].elapsed < s[j].elapsed);
            }
        } else if j < i {
            assert(s[j] == x);
        } else {
            assert(s[j - 1] == x);
            if i < j - 1 {
                assert(s[i].elapsed < s[j - 1].elapsed);
            }
        }
    }
}

proof fn lemma_place_of(s: Seq<Latency>, t: u64)
    ensures
        place_of(s, t) <= s.len(),
        forall|j: int| 0 <= j < place_of(s, t) ==> (#[trigger] s[j]).elapsed < t,
        place_of(s, t) < s.len() ==> s[place_of(s, t) as int].elapsed >= t,
    decreases s.len(),
{
    if s.len() > 0 && s[0].elapsed < t {
        let r = s.skip(1);
        lemma_place_of(r, t);
        assert forall|j: int| 0 <= j < place_of(s, t) implies (#[trigger] s[j]).elapsed < t by {
            if j > 0 {
                assert(s[j] == r[j - 1]);
            }
        }
    }
}

/// The level of an environment is that of the first setting of it, and without one
/// nothing is logged.
pub proof fn first_level_counts(env: Seq<String>, i: int)
    requires
        0 <= i <= env.len(),
        forall|j: int| 0 <= j < i ==> !sets_level(encode_utf8((#[trigger] env[j])@)),
        i < env.len() ==> sets_level(encode_utf8(env[i]@)),
    ensures
        env_level(env) == (if i < env.len() {
            level_of(encode_utf8(env[i]@).skip(19))
        } else {
            LogLevel::Off
        }),
    decreases i,
{
    if i > 0 {
        assert(!sets_level(encode_utf8(env[0]@)));
        let t = env.skip(1);
        assert forall|j: int| 0 <= j < i - 1 implies !sets_level(
            encode_utf8((#[trigger] t[j])@),
        ) by {
            assert(t[j] == env[j + 1]);
        }
        first_level_counts(t, i - 1);
    }
}

/// Whether a level is written in small letters or in capitals makes no difference.
pub proof fn case_of_level_is_ignored(a: Seq<u8>, b: Seq<u8>)
    requires
        a.len() == b.len(),
        forall|i: int|
            #![trigger a[i]]
            0 <= i < a.len() ==> a[i] == b[i] || (0x41 <= a[i] <= 0x5a && b[i] == a[i] + 0x20),
    ensures
        level_of(a) == level_of(b),
{
    assert forall|w: Seq<u8>| #[trigger] same_letters(a, w) == same_letters(b, w) by {
        assert forall|i: int| 0 <= i < a.len() implies small(#[trigger] a[i]) == small(b[i]) by {}
        if same_letters(a, w) {
            assert forall|i: int| 0 <= i < b.len() implies small(#[trigger] b[i]) == w[i] by {
                assert(small(a[i]) == w[i]);
            }
        }
        if same_letters(b, w) {
            assert forall|i: int| 0 <= i < a.len() implies small(#[trigger] a[i]) == w[i] by {
                assert(small(b[i]) == w[i]);
            }
        }
    }
}

/// The digits of a number.
pub open spec fn digits_of(n: nat) -> Seq<u8>
    decreases n,
{
    if n < 10 {
        seq![(0x30 + n) as u8]
    } else {
        digits_of(n / 10).push((0x30 + n % 10) as u8)
    }
}

proof fn lemma_digits_of(n: nat)
    ensures
        digits_of(n).len() > 0,
        all_digits(digits_of(n)),
        digits_value(digits_of(n)) == n,
    decreases n,
{
    reveal_with_fuel(digits_value, 3);
    let s = digits_of(n);
    if n < 10 {
        assert(s.drop_last() =~= Seq::<u8>::empty());
    } else {
        lemma_digits_of(n / 10);
        assert(s.drop_last() =~= digits_of(n / 10));
    }
}

/// The number of a process is read from its digits, with or without a sign.
pub proof fn digits_name_the_process(n: nat)
    ensures
        n <= 0x7fff_ffff ==> pid_named(digits_of(n)) == Some(n as i32),
        n <= 0x7fff_ffff ==> pid_named(seq![0x2bu8] + digits_of(n)) == Some(n as i32),
        n <= 0x8000_0000 ==> pid_named(seq![0x2du8] + digits_of(n)) == Some((0 - n) as i32),
        n > 0x7fff_ffff ==> pid_named(digits_of(n)) is None,
{
    let d = digits_of(n);
    lemma_digits_of(n);
    assert(0x30 <= d[0] <= 0x39);
    let plus = seq![0x2bu8] + d;
    let minus = seq![0x2du8] + d;
    assert(plus.skip(1) =~= d);
    assert(minus.skip(1) =~= d);
}

} // verus!
