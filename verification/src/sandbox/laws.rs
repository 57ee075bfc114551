use vstd::prelude::*;

use crate::sandbox::plan::{
    child_plan, child_rest, namespace_of, pid_steps, preparation, rest_steps,
    sets_hostname, umask_ok, user_steps, ChildStep, Namespace, NamespaceKind, PrepareStep, Rlimit,
    SandboxSpec,
};

verus! {

/// Both occur, and wherever they do, `a` comes before `b`.
#[verifier::opaque]
pub open spec fn comes_before<T>(s: Seq<T>, a: T, b: T) -> bool {
    &&& s.contains(a)
    &&& s.contains(b)
    &&& forall|i: int, j: int|
        0 <= i < s.len() && 0 <= j < s.len() && #[trigger] s[i] == a && #[trigger] s[j] == b ==> i
            < j
}

/// The namespace is entered by the process of the container itself.
pub open spec fn entered_by_child(n: Namespace) -> bool {
    n.kind != NamespaceKind::User && n.kind != NamespaceKind::Pid
}

proof fn lemma_rest_steps(ns: Seq<Namespace>)
    requires
        ns.len() <= usize::MAX,
    ensures
        forall|i: int|
            #![trigger ns[i]]
            0 <= i < ns.len() && entered_by_child(ns[i]) ==> rest_steps(ns).contains(
                ChildStep::EnterNamespace(i as usize),
            ),
        forall|p: int|
            0 <= p < rest_steps(ns).len() ==> match #[trigger] rest_steps(ns)[p] {
                ChildStep::EnterNamespace(i) => i < ns.len() && entered_by_child(ns[i as int]),
                _ => false,
            },
        forall|p: int, q: int|
            #![trigger rest_steps(ns)[p], rest_steps(ns)[q]]
            0 <= p < q < rest_steps(ns).len() ==> rest_steps(ns)[p]->EnterNamespace_0 < rest_steps(
                ns,
            )[q]->EnterNamespace_0,
    decreases ns.len(),
{
    if ns.len() > 0 {
        let t = ns.drop_last();
        let r = rest_steps(t);
        let all = rest_steps(ns);
        lemma_rest_steps(t);
        assert forall|i: int|
            #![trigger ns[i]]
            0 <= i < ns.len() && entered_by_child(ns[i]) implies all.contains(
            ChildStep::EnterNamespace(i as usize),
        ) by {
            if i < t.len() {
                assert(t[i] == ns[i]);
                let p = r.index_of(ChildStep::EnterNamespace(i as usize));
                assert(all[p] == ChildStep::EnterNamespace(i as usize));
            } else {
                assert(all[r.len() as int] == ChildStep::EnterNamespace(i as usize));
            }
        }
        assert forall|p: int| 0 <= p < all.len() implies match #[trigger] all[p] {
            ChildStep::EnterNamespace(i) => i < ns.len() && entered_by_child(ns[i as int]),
            _ => false,
        } by {
            if p < r.len() {
                assert(all[p] == r[p]);
            }
        }
        assert forall|p: int, q: int|
            #![trigger all[p], all[q]]
            0 <= p < q < all.len() implies all[p]->EnterNamespace_0 < all[q]->EnterNamespace_0 by {
            assert(all[p] == r[p]);
            if q < r.len() {
                assert(all[q] == r[q]);
            }
        }
    }
}

/// What comes after the namespaces in the plan of the container.
proof fn lemma_child_plan(s: SandboxSpec) -> (tail: Seq<ChildStep>)
    ensures
        child_plan(s) == seq![ChildStep::NewSession] + rest_steps(s.namespaces@) + tail,
        forall|p: int|
            0 <= p < tail.len() ==> !(#[trigger] tail[p] is EnterNamespace) && tail[p]
                != ChildStep::NewSession,
        tail == (if sets_hostname(s) {
            seq![ChildStep::SetHostname]
        } else {
            Seq::empty()
        }) + seq![ChildStep::NotifyNamespaces] + (if umask_ok(s) {
            (match s.umask {
                Some(m) => seq![ChildStep::Umask(m)],
                None => Seq::empty(),
            }) + child_rest(s)
        } else {
            seq![ChildStep::InvalidUmask]
        }),
{
    let tail = (if sets_hostname(s) {
        seq![ChildStep::SetHostname]
    } else {
        Seq::empty()
    }) + seq![ChildStep::NotifyNamespaces] + (if umask_ok(s) {
        (match s.umask {
            Some(m) => seq![ChildStep::Umask(m)],
            None => Seq::empty(),
        }) + child_rest(s)
    } else {
        seq![ChildStep::InvalidUmask]
    });
    assert(child_plan(s) =~= seq![ChildStep::NewSession] + rest_steps(s.namespaces@) + tail);
    tail
}

/// The process of a container enters all of its namespaces but those of users and of
/// processes, each of them once and in the order in which they are given, and only then
/// tells that they are set up.
pub proof fn namespaces_are_entered(s: SandboxSpec)
    ensures
        forall|i: int|
            #![trigger s.namespaces@[i]]
            0 <= i < s.namespaces@.len() && s.namespaces@[i].kind != NamespaceKind::User
                && s.namespaces@[i].kind != NamespaceKind::Pid ==> comes_before(
                child_plan(s),
                ChildStep::EnterNamespace(i as usize),
                ChildStep::NotifyNamespaces,
            ),
        forall|p: int|
            0 <= p < child_plan(s).len() ==> match #[trigger] child_plan(s)[p] {
                ChildStep::EnterNamespace(i) => i < s.namespaces@.len()
                    && s.namespaces@[i as int].kind != NamespaceKind::User
                    && s.namespaces@[i as int].kind != NamespaceKind::Pid,
                _ => true,
            },
        forall|p: int, q: int|
            #![trigger child_plan(s)[p], child_plan(s)[q]]
            0 <= p < q < child_plan(s).len() ==> match (child_plan(s)[p], child_plan(s)[q]) {
                (ChildStep::EnterNamespace(i), ChildStep::EnterNamespace(j)) => i < j,
                _ => true,
            },
{
    reveal(comes_before);
    let ns = s.namespaces@;
    let plan = child_plan(s);
    let r = rest_steps(ns);
    assert(ns.len() == s.namespaces.len());
    lemma_rest_steps(ns);
    let tail = lemma_child_plan(s);
    assert forall|p: int| 0 <= p < plan.len() implies if p == 0 {
        #[trigger] plan[p] == ChildStep::NewSession
    } else if p < 1 + r.len() {
        plan[p] == r[p - 1]
    } else {
        plan[p] == tail[p - 1 - r.len()]
    } by {}
    let n = 1 + r.len() + (if sets_hostname(s) {
        1int
    } else {
        0
    });
    assert(plan[n] == ChildStep::NotifyNamespaces);
    assert forall|i: int|
        #![trigger ns[i]]
        0 <= i < ns.len() && entered_by_child(ns[i]) implies comes_before(
        plan,
        ChildStep::EnterNamespace(i as usize),
        ChildStep::NotifyNamespaces,
    ) by {
        let x = ChildStep::EnterNamespace(i as usize);
        let p = r.index_of(x);
        assert(r.contains(x));
        assert(plan[p + 1] == x);
        assert forall|a: int, b: int|
            0 <= a < plan.len() && 0 <= b < plan.len() && #[trigger] plan[a] == x
                && #[trigger] plan[b] == ChildStep::NotifyNamespaces implies a < b by {
            if a >= 1 + r.len() {
                assert(!(tail[a - 1 - r.len()] is EnterNamespace));
            }
            if 1 <= b < 1 + r.len() {
                assert(r[b - 1] is EnterNamespace);
            }
        }
    }
    assert forall|p: int, q: int|
        #![trigger plan[p], plan[q]]
        0 <= p < q < plan.len() implies match (plan[p], plan[q]) {
        (ChildStep::EnterNamespace(i), ChildStep::EnterNamespace(j)) => i < j,
        _ => true,
    } by {
        if plan[p] is EnterNamespace && plan[q] is EnterNamespace {
            if q >= 1 + r.len() {
                assert(!(tail[q - 1 - r.len()] is EnterNamespace));
            }
            assert(plan[p] == r[p - 1] && plan[q] == r[q - 1]);
        }
    }
    assert forall|p: int| 0 <= p < plan.len() implies match #[trigger] plan[p] {
        ChildStep::EnterNamespace(i) => i < ns.len() && entered_by_child(ns[i as int]),
        _ => true,
    } by {
        if plan[p] is EnterNamespace {
            if p >= 1 + r.len() {
                assert(!(tail[p - 1 - r.len()] is EnterNamespace));
            }
            assert(plan[p] == r[p - 1]);
        }
    }
}

proof fn lemma_namespace_of(ns: Seq<Namespace>, kind: NamespaceKind)
    requires
        ns.len() <= usize::MAX,
    ensures
        match namespace_of(ns, kind) {
            Some(j) => {
                &&& j < ns.len()
                &&& ns[j as int].kind == kind
                &&& forall|i: int| j < i < ns.len() ==> (#[trigger] ns[i]).kind != kind
            },
            None => forall|i: int| 0 <= i < ns.len() ==> (#[trigger] ns[i]).kind != kind,
        },
    decreases ns.len(),
{
    if ns.len() > 0 && ns.last().kind != kind {
        let t = ns.drop_last();
        lemma_namespace_of(t, kind);
        assert forall|i: int| 0 <= i < t.len() implies (#[trigger] ns[i]).kind == t[i].kind by {}
    }
}

/// The steps of a preparation, one group after the other.
proof fn lemma_preparation(s: SandboxSpec) -> (at: (int, int, int))
    ensures
        ({
            let v = preparation(s);
            let (a, b, c) = at;
            let u = user_steps(s.namespaces@);
            let d = pid_steps(s.namespaces@);
            &&& v[0] == PrepareStep::JoinCgroup
            &&& a == (if s.resources {
                2int
            } else {
                1
            })
            &&& s.resources ==> v[1] == PrepareStep::ApplyResources
            &&& b == a + u.len()
            &&& c == b + s.rlimits@.len()
            &&& v.len() == c + d.len() + 1
            &&& forall|i: int| a <= i < b ==> #[trigger] v[i] == u[i - a]
            &&& forall|i: int| b <= i < c ==> #[trigger] v[i] == PrepareStep::SetRlimit(s.rlimits@[i - b])
            &&& forall|i: int| c <= i < v.len() - 1 ==> #[trigger] v[i] == d[i - c]
            &&& v.last() == PrepareStep::Fork
        }),
{
    let a = if s.resources {
        2int
    } else {
        1
    };
    let b = a + user_steps(s.namespaces@).len();
    (a, b, b + s.rlimits@.len())
}

/// The group to which each step of a preparation belongs.
proof fn lemma_preparation_groups(s: SandboxSpec) -> (at: (int, int, int))
    ensures
        ({
            let v = preparation(s);
            let (a, b, c) = at;
            let u = user_steps(s.namespaces@);
            let d = pid_steps(s.namespaces@);
            &&& 0 < a <= b <= c < v.len()
            &&& b == a + u.len()
            &&& v.len() == c + d.len() + 1
            &&& v.last() == PrepareStep::Fork
            &&& forall|i: int| 0 <= i < a ==> (#[trigger] v[i] is JoinCgroup || v[i] is ApplyResources)
            &&& forall|i: int| a <= i < b ==> #[trigger] v[i] == u[i - a]
            &&& forall|i: int| b <= i < c ==> #[trigger] v[i] is SetRlimit
            &&& forall|i: int| c <= i < v.len() - 1 ==> #[trigger] v[i] == d[i - c]
        }),
{
    let (a, b, c) = lemma_preparation(s);
    let v = preparation(s);
    assert forall|i: int| 0 <= i < a implies (#[trigger] v[i] is JoinCgroup
        || v[i] is ApplyResources) by {
        if i > 0 {
            assert(i == 1);
        }
    }
    (a, b, c)
}

/// Before its process is made, a container enters its namespaces of users and of
/// processes, if it has them, and no other. Of several of a kind the last counts.
pub proof fn namespaces_are_prepared(s: SandboxSpec)
    ensures
        forall|p: int|
            0 <= p < preparation(s).len() ==> match #[trigger] preparation(s)[p] {
                PrepareStep::EnterNamespace(i) => i < s.namespaces@.len() && {
                    let kind = s.namespaces@[i as int].kind;
                    &&& kind == NamespaceKind::User || kind == NamespaceKind::Pid
                    &&& forall|j: int|
                        i < j < s.namespaces@.len() ==> (#[trigger] s.namespaces@[j]).kind != kind
                },
                _ => true,
            },
        forall|i: int|
            #![trigger s.namespaces@[i]]
            0 <= i < s.namespaces@.len() && (s.namespaces@[i].kind == NamespaceKind::User
                || s.namespaces@[i].kind == NamespaceKind::Pid) ==> exists|j: usize|
                j < s.namespaces@.len() && s.namespaces@[j as int].kind == s.namespaces@[i].kind
                    && #[trigger] preparation(s).contains(PrepareStep::EnterNamespace(j)),
{
    let ns = s.namespaces@;
    let v = preparation(s);
    assert(ns.len() == s.namespaces.len());
    lemma_namespace_of(ns, NamespaceKind::User);
    lemma_namespace_of(ns, NamespaceKind::Pid);
    let (a, b, c) = lemma_preparation_groups(s);
    let u = user_steps(ns);
    let d = pid_steps(ns);
    assert forall|p: int| 0 <= p < v.len() implies match #[trigger] v[p] {
        PrepareStep::EnterNamespace(i) => i < ns.len() && {
            let kind = ns[i as int].kind;
            &&& kind == NamespaceKind::User || kind == NamespaceKind::Pid
            &&& forall|j: int| i < j < ns.len() ==> (#[trigger] ns[j]).kind != kind
        },
        _ => true,
    } by {
        if a <= p < b {
            assert(v[p] == u[p - a]);
        } else if c <= p < v.len() - 1 {
            assert(v[p] == d[p - c]);
        }
    }
    assert forall|i: int|
        #![trigger ns[i]]
        0 <= i < ns.len() && (ns[i].kind == NamespaceKind::User || ns[i].kind
            == NamespaceKind::Pid) implies exists|j: usize|
        j < ns.len() && ns[j as int].kind == ns[i].kind && #[trigger] v.contains(
            PrepareStep::EnterNamespace(j),
        ) by {
        let j = namespace_of(ns, ns[i].kind)->Some_0;
        let at = if ns[i].kind == NamespaceKind::User {
            a
        } else {
            c
        };
        assert(v[at] == PrepareStep::EnterNamespace(j));
        assert(v.contains(PrepareStep::EnterNamespace(j)));
    }
}

/// A container that has a namespace of users is root in it from where it enters it,
/// without losing capabilities on the way. No other user is taken on before its process
/// is made, and none at all without such a namespace.
pub proof fn root_is_prepared(s: SandboxSpec, i: usize)
    requires
        i < s.namespaces@.len(),
        s.namespaces@[i as int].kind == NamespaceKind::User,
        forall|j: int|
            i < j < s.namespaces@.len() ==> (#[trigger] s.namespaces@[j]).kind
                != NamespaceKind::User,
    ensures
        exists|a: int|
            0 < a < preparation(s).len() - 5 && #[trigger] preparation(s)[a]
                == PrepareStep::EnterNamespace(i) && preparation(s)[a + 1]
                == PrepareStep::KeepCapabilities(true) && preparation(s)[a + 2]
                == PrepareStep::SetGid(0) && preparation(s)[a + 3] == PrepareStep::SetUid(0)
                && preparation(s)[a + 4] == PrepareStep::KeepCapabilities(false),
{
    let ns = s.namespaces@;
    let v = preparation(s);
    assert(ns.len() == s.namespaces.len());
    lemma_namespace_of(ns, NamespaceKind::User);
    let j = namespace_of(ns, NamespaceKind::User)->Some_0;
    assert(ns[i as int].kind == NamespaceKind::User);
    assert(ns[j as int].kind == NamespaceKind::User);
    assert(i == j);
    let (a, b, c) = lemma_preparation_groups(s);
    assert(v[a] == PrepareStep::EnterNamespace(i));
    assert(v[a + 1] == PrepareStep::KeepCapabilities(true));
    assert(v[a + 2] == PrepareStep::SetGid(0));
    assert(v[a + 3] == PrepareStep::SetUid(0));
    assert(v[a + 4] == PrepareStep::KeepCapabilities(false));
}

/// Whoever prepares a container becomes root or stays who they are: the latter where
/// the container has no namespace of users.
pub proof fn preparation_is_by_root(s: SandboxSpec)
    ensures
        forall|p: int|
            0 <= p < preparation(s).len() ==> match #[trigger] preparation(s)[p] {
                PrepareStep::SetUid(u) => u == 0 && exists|i: int|
                    0 <= i < s.namespaces@.len() && (#[trigger] s.namespaces@[i]).kind
                        == NamespaceKind::User,
                PrepareStep::SetGid(g) => g == 0 && exists|i: int|
                    0 <= i < s.namespaces@.len() && (#[trigger] s.namespaces@[i]).kind
                        == NamespaceKind::User,
                _ => true,
            },
{
    let ns = s.namespaces@;
    let v = preparation(s);
    assert(ns.len() == s.namespaces.len());
    lemma_namespace_of(ns, NamespaceKind::User);
    let (a, b, c) = lemma_preparation_groups(s);
    let u = user_steps(ns);
    let d = pid_steps(ns);
    assert forall|p: int| 0 <= p < v.len() implies match #[trigger] v[p] {
        PrepareStep::SetUid(u) => u == 0 && namespace_of(ns, NamespaceKind::User) is Some,
        PrepareStep::SetGid(g) => g == 0 && namespace_of(ns, NamespaceKind::User) is Some,
        _ => true,
    } by {
        if a <= p < b {
            assert(v[p] == u[p - a]);
        } else if c <= p < v.len() - 1 {
            assert(v[p] == d[p - c]);
        }
    }
}

/// The limits are set one after the other from an index on, and nowhere else.
pub open spec fn limits_from(v: Seq<PrepareStep>, limits: Seq<Rlimit>, b: int) -> bool {
    &&& 0 < b <= v.len() - 1 - limits.len()
    &&& forall|i: int|
        0 <= i < limits.len() ==> #[trigger] v[b + i] == PrepareStep::SetRlimit(limits[i])
    &&& forall|p: int|
        0 <= p < v.len() && #[trigger] v[p] is SetRlimit ==> b <= p < b + limits.len()
}

/// Every limit that is given is set, in the order in which they are given, before the
/// process of the container is made, which is the last thing that is done. Its control
/// group is joined before anything else, and is limited if limits are given.
pub proof fn limits_are_prepared(s: SandboxSpec)
    ensures
        preparation(s).len() >= 2,
        preparation(s)[0] == PrepareStep::JoinCgroup,
        preparation(s).last() == PrepareStep::Fork,
        preparation(s).contains(PrepareStep::ApplyResources) == s.resources,
        exists|b: int| #[trigger] limits_from(preparation(s), s.rlimits@, b),
        forall|p: int|
            0 <= p < preparation(s).len() - 1 ==> #[trigger] preparation(s)[p] != PrepareStep::Fork,
{
    let ns = s.namespaces@;
    let v = preparation(s);
    let (a, b, c) = lemma_preparation(s);
    let u = user_steps(ns);
    let d = pid_steps(ns);
    assert forall|p: int| 0 <= p < v.len() implies if p == 0 {
        #[trigger] v[p] == PrepareStep::JoinCgroup
    } else if p < a {
        v[p] == PrepareStep::ApplyResources
    } else if p < b {
        v[p] == u[p - a] && !(v[p] is SetRlimit) && !(v[p] is Fork) && !(v[p] is ApplyResources)
    } else if p < c {
        v[p] == PrepareStep::SetRlimit(s.rlimits@[p - b])
    } else if p < v.len() - 1 {
        v[p] == d[p - c] && v[p] is EnterNamespace
    } else {
        v[p] == PrepareStep::Fork
    } by {}
    assert forall|i: int| 0 <= i < s.rlimits@.len() implies #[trigger] v[b + i]
        == PrepareStep::SetRlimit(s.rlimits@[i]) by {}
    assert(limits_from(v, s.rlimits@, b));
    if s.resources {
        assert(v[1] == PrepareStep::ApplyResources);
    }
}

/// The steps that come after the namespaces are entered.
proof fn lemma_child_parts(s: SandboxSpec) -> (n: int)
    ensures
        n == 1 + rest_steps(s.namespaces@).len(),
        child_plan(s)[0] == ChildStep::NewSession,
        forall|p: int| 1 <= p < n ==> #[trigger] child_plan(s)[p] is EnterNamespace,
        ({
            let v = child_plan(s);
            let h = n + (if sets_hostname(s) {
                1int
            } else {
                0
            });
            let m = h + 1 + (if s.umask is Some {
                1int
            } else {
                0
            });
            &&& sets_hostname(s) ==> v[n] == ChildStep::SetHostname
            &&& v[h] == ChildStep::NotifyNamespaces
            &&& if umask_ok(s) {
                &&& s.umask matches Some(x) ==> v[h + 1] == ChildStep::Umask(x)
                &&& v.len() == m + child_rest(s).len()
                &&& forall|p: int| m <= p < v.len() ==> #[trigger] v[p] == child_rest(s)[p - m]
            } else {
                v.len() == h + 2 && v[h + 1] == ChildStep::InvalidUmask
            }
        }),
{
    let ns = s.namespaces@;
    assert(ns.len() == s.namespaces.len());
    lemma_rest_steps(ns);
    let tail = lemma_child_plan(s);
    let n: int = 1 + rest_steps(ns).len() as int;
    assert forall|p: int| 1 <= p < n implies #[trigger] child_plan(s)[p] is EnterNamespace by {
        assert(child_plan(s)[p] == rest_steps(ns)[p - 1]);
    }
    assert forall|p: int| n <= p < child_plan(s).len() implies #[trigger] child_plan(s)[p]
        == tail[p - n] by {}
    n
}

/// How far on in its plan a step of the process of a container stands.
spec fn stage(step: ChildStep) -> int {
    match step {
        ChildStep::NewSession => 0,
        ChildStep::EnterNamespace(_) => 1,
        ChildStep::SetHostname => 2,
        ChildStep::NotifyNamespaces => 3,
        ChildStep::Umask(_) => 4,
        ChildStep::InvalidUmask => 4,
        ChildStep::SetUid(_) => 5,
        ChildStep::SetGid(_) => 6,
        ChildStep::BuildContext => 7,
        ChildStep::WaitForStart => 8,
        ChildStep::CreateContainerHooks => 9,
        ChildStep::SetRunning => 10,
        ChildStep::StartContainerHooks => 11,
        ChildStep::AllCapabilities => 12,
        ChildStep::DropPrivileges => 13,
        ChildStep::Run => 14,
    }
}

#[verifier::opaque]
spec fn staged(v: Seq<ChildStep>) -> bool {
    forall|p: int, q: int|
        #![trigger v[p], v[q]]
        0 <= p < q < v.len() ==> stage(v[p]) < stage(v[q]) || stage(v[p]) == 1 == stage(v[q])
}

proof fn lemma_staged(v: Seq<ChildStep>, a: ChildStep, i: int, b: ChildStep, j: int)
    requires
        staged(v),
        0 <= i < v.len(),
        0 <= j < v.len(),
        v[i] == a,
        v[j] == b,
        stage(a) < stage(b),
    ensures
        comes_before(v, a, b),
{
    reveal(comes_before);
    reveal(staged);
    assert forall|p: int, q: int|
        0 <= p < v.len() && 0 <= q < v.len() && #[trigger] v[p] == a && #[trigger] v[q]
            == b implies p < q by {
        if q < p {
            assert(stage(v[q]) < stage(v[p]) || stage(v[p]) == 1 == stage(v[q]));
        }
    }
}

proof fn lemma_child_is_staged(s: SandboxSpec)
    ensures
        staged(child_plan(s)),
{
    reveal(staged);
    let v = child_plan(s);
    let n = lemma_child_parts(s);
    let h = n + (if sets_hostname(s) {
        1int
    } else {
        0
    });
    let m = h + 1 + (if s.umask is Some {
        1int
    } else {
        0
    });
    let r = child_rest(s);
    assert forall|p: int| 0 <= p < v.len() implies stage(#[trigger] v[p]) == (if p == 0 {
        0
    } else if p < n {
        1
    } else if p < h {
        2
    } else if p == h {
        3
    } else if p < m {
        4
    } else if p < v.len() - 1 {
        5 + p - m
    } else {
        14
    }) by {
        if umask_ok(s) && m <= p {
            assert(v[p] == r[p - m]);
        }
    }
}

/// What the steps of the process of a container are about.
proof fn lemma_steps_of_child(s: SandboxSpec)
    ensures
        ({
            let v = child_plan(s);
            &&& v.contains(ChildStep::Run) ==> umask_ok(s)
            &&& v.contains(ChildStep::InvalidUmask) ==> !umask_ok(s)
            &&& v.contains(ChildStep::DropPrivileges) ==> s.capabilities
            &&& forall|p: int|
                0 <= p < v.len() ==> match #[trigger] v[p] {
                    ChildStep::Run => p == v.len() - 1,
                    ChildStep::SetUid(u) => u == s.uid,
                    ChildStep::SetGid(g) => g == s.gid,
                    ChildStep::Umask(m) => s.umask == Some(m),
                    _ => true,
                }
        }),
{
    let v = child_plan(s);
    let n = lemma_child_parts(s);
    let h = n + (if sets_hostname(s) {
        1int
    } else {
        0
    });
    let m = h + 1 + (if s.umask is Some {
        1int
    } else {
        0
    });
    let r = child_rest(s);
    assert forall|p: int| 0 <= p < v.len() implies match #[trigger] v[p] {
        ChildStep::Run => p == v.len() - 1 && umask_ok(s),
        ChildStep::SetUid(u) => u == s.uid,
        ChildStep::SetGid(g) => g == s.gid,
        ChildStep::Umask(m) => s.umask == Some(m),
        ChildStep::InvalidUmask => !umask_ok(s),
        ChildStep::DropPrivileges => s.capabilities,
        _ => true,
    } by {
        if umask_ok(s) && m <= p {
            assert(v[p] == r[p - m]);
        }
    }
}

/// The program of a container runs at the end and nowhere else, as its user and its
/// group, once it was told to start and once its capabilities are what they are to be.
/// It does not run if the mask for new files is none.
pub proof fn program_runs_as_its_user(s: SandboxSpec)
    ensures
        ({
            let v = child_plan(s);
            let ok = s.umask is None || s.umask->Some_0 <= 0o7777;
            &&& v.contains(ChildStep::Run) == ok
            &&& v.contains(ChildStep::InvalidUmask) == !ok
            &&& forall|p: int|
                0 <= p < v.len() ==> match #[trigger] v[p] {
                    ChildStep::Run => p == v.len() - 1,
                    ChildStep::SetUid(u) => u == s.uid,
                    ChildStep::SetGid(g) => g == s.gid,
                    ChildStep::Umask(m) => s.umask == Some(m),
                    _ => true,
                }
            &&& ok ==> {
                &&& comes_before(v, ChildStep::NotifyNamespaces, ChildStep::SetUid(s.uid))
                &&& comes_before(v, ChildStep::SetUid(s.uid), ChildStep::SetGid(s.gid))
                &&& comes_before(v, ChildStep::SetGid(s.gid), ChildStep::BuildContext)
                &&& comes_before(v, ChildStep::BuildContext, ChildStep::WaitForStart)
                &&& comes_before(v, ChildStep::WaitForStart, ChildStep::CreateContainerHooks)
                &&& comes_before(v, ChildStep::CreateContainerHooks, ChildStep::SetRunning)
                &&& comes_before(v, ChildStep::SetRunning, ChildStep::StartContainerHooks)
                &&& comes_before(v, ChildStep::StartContainerHooks, ChildStep::AllCapabilities)
                &&& comes_before(v, ChildStep::AllCapabilities, ChildStep::Run)
                &&& s.umask matches Some(m) ==> comes_before(
                    v,
                    ChildStep::Umask(m),
                    ChildStep::SetUid(s.uid),
                )
                &&& s.capabilities ==> comes_before(
                    v,
                    ChildStep::AllCapabilities,
                    ChildStep::DropPrivileges,
                ) && comes_before(v, ChildStep::DropPrivileges, ChildStep::Run)
            }
            &&& v.contains(ChildStep::DropPrivileges) ==> s.capabilities
        }),
{
    let v = child_plan(s);
    let n = lemma_child_parts(s);
    lemma_child_is_staged(s);
    let h = n + (if sets_hostname(s) {
        1int
    } else {
        0
    });
    let m = h + 1 + (if s.umask is Some {
        1int
    } else {
        0
    });
    let r = child_rest(s);
    if umask_ok(s) {
        assert(v[m] == ChildStep::SetUid(s.uid));
        assert(v[m + 1] == ChildStep::SetGid(s.gid));
        lemma_staged(v, v[h], h, v[m], m);
        lemma_staged(v, v[m], m, v[m + 1], m + 1);
        lemma_staged(v, v[m + 1], m + 1, v[m + 2], m + 2);
        lemma_staged(v, v[m + 2], m + 2, v[m + 3], m + 3);
        lemma_staged(v, v[m + 3], m + 3, v[m + 4], m + 4);
        lemma_staged(v, v[m + 4], m + 4, v[m + 5], m + 5);
        lemma_staged(v, v[m + 5], m + 5, v[m + 6], m + 6);
        lemma_staged(v, v[m + 6], m + 6, v[m + 7], m + 7);
        lemma_staged(v, v[m + 7], m + 7, v[v.len() - 1], v.len() - 1);
        if s.umask is Some {
            lemma_staged(v, v[h + 1], h + 1, v[m], m);
        }
        if s.capabilities {
            lemma_staged(v, v[m + 7], m + 7, v[m + 8], m + 8);
            lemma_staged(v, v[m + 8], m + 8, v[m + 9], m + 9);
        }
    } else {
        assert(v[h + 1] == ChildStep::InvalidUmask);
    }
    lemma_steps_of_child(s);
}

/// The name of the host is set just where one is given and the last namespace for such
/// names is a new one: once that was entered, and before it is told that namespaces are
/// set up.
pub proof fn host_is_named(s: SandboxSpec, i: usize)
    requires
        i < s.namespaces@.len(),
        s.namespaces@[i as int].kind == NamespaceKind::Uts,
        forall|j: int|
            i < j < s.namespaces@.len() ==> (#[trigger] s.namespaces@[j]).kind
                != NamespaceKind::Uts,
    ensures
        child_plan(s).contains(ChildStep::SetHostname) == (s.hostname is Some
            && s.namespaces@[i as int].path is None),
        child_plan(s).contains(ChildStep::SetHostname) ==> comes_before(
            child_plan(s),
            ChildStep::EnterNamespace(i),
            ChildStep::SetHostname,
        ) && comes_before(child_plan(s), ChildStep::SetHostname, ChildStep::NotifyNamespaces),
{
    reveal(comes_before);
    let v = child_plan(s);
    let ns = s.namespaces@;
    assert(ns.len() == s.namespaces.len());
    lemma_namespace_of(ns, NamespaceKind::Uts);
    assert(namespace_of(ns, NamespaceKind::Uts) == Some(i)) by {
        let j = namespace_of(ns, NamespaceKind::Uts)->Some_0;
        assert(ns[i as int].kind == NamespaceKind::Uts);
        assert(ns[j as int].kind == NamespaceKind::Uts);
    }
    lemma_rest_steps(ns);
    let n = lemma_child_parts(s);
    let r = rest_steps(ns);
    let tail = lemma_child_plan(s);
    let x = ChildStep::EnterNamespace(i);
    let p = r.index_of(x);
    assert(r.contains(x)) by {
        assert(entered_by_child(ns[i as int]));
    }
    assert(v[p + 1] == x);
    let h = n + (if sets_hostname(s) {
        1int
    } else {
        0
    });
    assert forall|q: int| n <= q < v.len() implies #[trigger] v[q] == tail[q - n] by {}
    assert forall|q: int| 0 <= q < v.len() && #[trigger] v[q] == ChildStep::SetHostname implies q
        == n && sets_hostname(s) by {
        if q >= n {
            assert(tail[q - n] == ChildStep::SetHostname);
        }
    }
    if sets_hostname(s) {
        assert(v[n] == ChildStep::SetHostname);
        assert(v[h] == ChildStep::NotifyNamespaces);
        assert forall|q: int| 0 <= q < v.len() && #[trigger] v[q] == x implies q < n by {
            if q >= n {
                assert(!(tail[q - n] is EnterNamespace));
            }
        }
        assert forall|q: int|
            0 <= q < v.len() && #[trigger] v[q] == ChildStep::NotifyNamespaces implies q > n by {}
    }
}

/// A container without a namespace for the name of its host is given no such name.
pub proof fn shared_host_is_not_named(s: SandboxSpec)
    requires
        forall|j: int|
            0 <= j < s.namespaces@.len() ==> (#[trigger] s.namespaces@[j]).kind
                != NamespaceKind::Uts,
    ensures
        !child_plan(s).contains(ChildStep::SetHostname),
{
    assert(s.namespaces@.len() == s.namespaces.len());
    lemma_namespace_of(s.namespaces@, NamespaceKind::Uts);
    let n = lemma_child_parts(s);
    let tail = lemma_child_plan(s);
    let v = child_plan(s);
    assert forall|q: int| 0 <= q < v.len() implies #[trigger] v[q] != ChildStep::SetHostname by {
        if q >= n {
            assert(v[q] == tail[q - n]);
        }
    }
}

/// Before its program runs, a container has entered a namespace of each kind that it is
/// given one of: on the way to its process, or in that process.
pub proof fn kinds_are_entered(s: SandboxSpec, i: int)
    requires
        0 <= i < s.namespaces@.len(),
    ensures
        ({
            let kind = s.namespaces@[i].kind;
            ||| exists|j: usize|
                j < s.namespaces@.len() && s.namespaces@[j as int].kind == kind
                    && #[trigger] preparation(s).contains(PrepareStep::EnterNamespace(j))
            ||| exists|p: int|
                0 <= p < child_plan(s).len() && (#[trigger] child_plan(s)[p] matches ChildStep::EnterNamespace(
                j) && j < s.namespaces@.len() && s.namespaces@[j as int].kind == kind) && forall|
                    q: int,
                |
                    0 <= q < child_plan(s).len() && #[trigger] child_plan(s)[q] is Run ==> p < q
        }),
{
    let kind = s.namespaces@[i].kind;
    let v = child_plan(s);
    assert(s.namespaces@.len() == s.namespaces.len());
    if kind == NamespaceKind::User || kind == NamespaceKind::Pid {
        namespaces_are_prepared(s);
    } else {
        namespaces_are_entered(s);
        lemma_steps_of_child(s);
        reveal(comes_before);
        let x = ChildStep::EnterNamespace(i as usize);
        let p = v.index_of(x);
        assert(v[p] == x);
        assert(v[v.index_of(ChildStep::NotifyNamespaces)] == ChildStep::NotifyNamespaces);
        assert forall|q: int| 0 <= q < v.len() && #[trigger] v[q] is Run implies p < q by {}
    }
}

} // verus!
