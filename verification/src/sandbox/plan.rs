use vstd::prelude::*;
use vstd::string::StringExecFns;

verus! {

/// The bits that a mask for new files may have.
pub const MODE_BITS: u32 = 0o7777;

#[derive(Debug, Clone, Copy, PartialEq, Eq, Structural)]
pub enum NamespaceKind {
    Mount,
    Cgroup,
    Uts,
    Ipc,
    User,
    Pid,
    Network,
}

/// A namespace that a container is to have. Without a path it is a new one.
#[derive(Debug)]
pub struct Namespace {
    pub kind: NamespaceKind,
    pub path: Option<String>,
}

/// A limit on a resource.
#[derive(Debug, Clone, Copy, PartialEq, Eq, Structural)]
pub struct Rlimit {
    pub typ: u32,
    pub soft: u64,
    pub hard: u64,
}

/// What a container is to be like.
#[derive(Debug)]
pub struct SandboxSpec {
    pub namespaces: Vec<Namespace>,
    /// There are limits for its control group.
    pub resources: bool,
    pub rlimits: Vec<Rlimit>,
    pub umask: Option<u32>,
    pub uid: u32,
    pub gid: u32,
    pub hostname: Option<String>,
    /// Its capabilities are given.
    pub capabilities: bool,
}

/// What is done before the process of the container is made.
#[derive(Debug, Clone, Copy, PartialEq, Eq, Structural)]
pub enum PrepareStep {
    /// Add the parent to the control group.
    JoinCgroup,
    /// Set the limits of the control group.
    ApplyResources,
    /// Enter the namespace at this index.
    EnterNamespace(usize),
    /// Have capabilities kept, or no longer, when the user changes.
    KeepCapabilities(bool),
    SetGid(u32),
    SetUid(u32),
    SetRlimit(Rlimit),
    Fork,
}

/// What the process of the container does.
#[derive(Debug, Clone, Copy, PartialEq, Eq, Structural)]
pub enum ChildStep {
    NewSession,
    /// Enter the namespace at this index.
    EnterNamespace(usize),
    SetHostname,
    NotifyNamespaces,
    Umask(u32),
    /// The mask for new files has bits that it may not have.
    InvalidUmask,
    SetUid(u32),
    SetGid(u32),
    BuildContext,
    WaitForStart,
    CreateContainerHooks,
    SetRunning,
    StartContainerHooks,
    /// Have all capabilities in effect.
    AllCapabilities,
    DropPrivileges,
    Run,
}

/// What the parent of that process does.
#[derive(Debug, Clone, Copy, PartialEq, Eq, Structural)]
pub enum ParentStep {
    SendPid(i32),
    CreateRuntimeHooks,
    Wait(i32),
    NotifyEnd,
    CleanUp,
}

/// On which side of a fork a process is.
#[derive(Debug, Clone, Copy, PartialEq, Eq, Structural)]
pub enum ForkSide {
    Child,
    Parent(i32),
    Failed,
}

pub fn fork_side(pid: i32) -> (s: ForkSide)
    ensures
        s == (if pid == 0 {
            ForkSide::Child
        } else if pid > 0 {
            ForkSide::Parent(pid)
        } else {
            ForkSide::Failed
        }),
{
    if pid == 0 {
        ForkSide::Child
    } else if pid > 0 {
        ForkSide::Parent(pid)
    } else {
        ForkSide::Failed
    }
}

/// The index of the last namespace of a kind.
pub open spec fn namespace_of(ns: Seq<Namespace>, kind: NamespaceKind) -> Option<usize>
    decreases ns.len(),
{
    if ns.len() == 0 {
        None
    } else if ns.last().kind == kind {
        Some((ns.len() - 1) as usize)
    } else {
        namespace_of(ns.drop_last(), kind)
    }
}

fn find_namespace(ns: &Vec<Namespace>, kind: NamespaceKind) -> (r: Option<usize>)
    ensures
        r == namespace_of(ns@, kind),
        r matches Some(i) ==> i < ns@.len() && ns@[i as int].kind == kind,
{
    let mut i = ns.len();
    assert(ns@.take(i as int) =~= ns@);
    while i > 0
        invariant
            i <= ns@.len(),
            namespace_of(ns@, kind) == namespace_of(ns@.take(i as int), kind),
        decreases i,
    {
        i = i - 1;
        assert(ns@.take(i + 1).drop_last() =~= ns@.take(i as int));
        assert(ns@.take(i + 1).last() == ns@[i as int]);
        if ns[i].kind == kind {
            return Some(i);
        }
    }
    None
}

/// What entering the namespace of users takes: within it the process is root.
pub open spec fn user_steps(ns: Seq<Namespace>) -> Seq<PrepareStep> {
    match namespace_of(ns, NamespaceKind::User) {
        Some(i) => seq![
            PrepareStep::EnterNamespace(i),
            PrepareStep::KeepCapabilities(true),
            PrepareStep::SetGid(0),
            PrepareStep::SetUid(0),
            PrepareStep::KeepCapabilities(false),
        ],
        None => Seq::empty(),
    }
}

pub open spec fn pid_steps(ns: Seq<Namespace>) -> Seq<PrepareStep> {
    match namespace_of(ns, NamespaceKind::Pid) {
        Some(i) => seq![PrepareStep::EnterNamespace(i)],
        None => Seq::empty(),
    }
}

/// All that is done before the process of the container is made.
pub open spec fn preparation(s: SandboxSpec) -> Seq<PrepareStep> {
    seq![PrepareStep::JoinCgroup] + (if s.resources {
        seq![PrepareStep::ApplyResources]
    } else {
        Seq::empty()
    }) + user_steps(s.namespaces@) + s.rlimits@.map_values(
        |l: Rlimit| PrepareStep::SetRlimit(l),
    ) + pid_steps(s.namespaces@) + seq![PrepareStep::Fork]
}

pub fn prepare_steps(s: &SandboxSpec) -> (v: Vec<PrepareStep>)
    ensures
        v@ == preparation(*s),
{
    let mut v: Vec<PrepareStep> = Vec::new();
    v.push(PrepareStep::JoinCgroup);
    if s.resources {
        v.push(PrepareStep::ApplyResources);
    }
    let ghost a = v@;
    if let Some(i) = find_namespace(&s.namespaces, NamespaceKind::User) {
        v.push(PrepareStep::EnterNamespace(i));
        v.push(PrepareStep::KeepCapabilities(true));
        v.push(PrepareStep::SetGid(0));
        v.push(PrepareStep::SetUid(0));
        v.push(PrepareStep::KeepCapabilities(false));
    }
    assert(v@ =~= a + user_steps(s.namespaces@));
    let ghost b = v@;
    let ghost limits = s.rlimits@.map_values(|l: Rlimit| PrepareStep::SetRlimit(l));
    let mut i: usize = 0;
    assert(b + limits.take(0) =~= b);
    while i < s.rlimits.len()
        invariant
            i <= s.rlimits@.len(),
            limits == s.rlimits@.map_values(|l: Rlimit| PrepareStep::SetRlimit(l)),
            v@ == b + limits.take(i as int),
        decreases s.rlimits@.len() - i,
    {
        v.push(PrepareStep::SetRlimit(s.rlimits[i]));
        assert(limits.take(i + 1) =~= limits.take(i as int).push(limits[i as int]));
        assert(v@ =~= b + limits.take(i + 1));
        i = i + 1;
    }
    assert(limits.take(i as int) =~= limits);
    let ghost c = v@;
    if let Some(i) = find_namespace(&s.namespaces, NamespaceKind::Pid) {
        v.push(PrepareStep::EnterNamespace(i));
    }
    assert(v@ =~= c + pid_steps(s.namespaces@));
    v.push(PrepareStep::Fork);
    assert(v@ =~= preparation(*s));
    v
}

/// The namespaces that are entered after the fork: all but those of users and of
/// processes.
pub open spec fn rest_steps(ns: Seq<Namespace>) -> Seq<ChildStep>
    decreases ns.len(),
{
    if ns.len() == 0 {
        Seq::empty()
    } else {
        let before = rest_steps(ns.drop_last());
        if ns.last().kind == NamespaceKind::User || ns.last().kind == NamespaceKind::Pid {
            before
        } else {
            before.push(ChildStep::EnterNamespace((ns.len() - 1) as usize))
        }
    }
}

/// A new namespace for the name of the host is given that name.
pub open spec fn sets_hostname(s: SandboxSpec) -> bool {
    match namespace_of(s.namespaces@, NamespaceKind::Uts) {
        Some(i) => s.namespaces@[i as int].path is None && s.hostname is Some,
        None => false,
    }
}

/// The mask for new files is one.
pub open spec fn umask_ok(s: SandboxSpec) -> bool {
    s.umask matches Some(m) ==> m <= MODE_BITS
}

/// What the process of the container does before it takes on its user.
pub open spec fn child_start(s: SandboxSpec) -> Seq<ChildStep> {
    seq![ChildStep::NewSession] + rest_steps(s.namespaces@) + (if sets_hostname(s) {
        seq![ChildStep::SetHostname]
    } else {
        Seq::empty()
    }) + seq![ChildStep::NotifyNamespaces]
}

/// What it does from then on.
pub open spec fn child_rest(s: SandboxSpec) -> Seq<ChildStep> {
    seq![
        ChildStep::SetUid(s.uid),
        ChildStep::SetGid(s.gid),
        ChildStep::BuildContext,
        ChildStep::WaitForStart,
        ChildStep::CreateContainerHooks,
        ChildStep::SetRunning,
        ChildStep::StartContainerHooks,
        ChildStep::AllCapabilities,
    ] + (if s.capabilities {
        seq![ChildStep::DropPrivileges]
    } else {
        Seq::empty()
    }) + seq![ChildStep::Run]
}

/// All that the process of the container does.
pub open spec fn child_plan(s: SandboxSpec) -> Seq<ChildStep> {
    if umask_ok(s) {
        child_start(s) + (match s.umask {
            Some(m) => seq![ChildStep::Umask(m)],
            None => Seq::empty(),
        }) + child_rest(s)
    } else {
        child_start(s) + seq![ChildStep::InvalidUmask]
    }
}

fn enter_rest(v: &mut Vec<ChildStep>, ns: &Vec<Namespace>)
    ensures
        final(v)@ == old(v)@ + rest_steps(ns@),
{
    let ghost a = v@;
    let mut i: usize = 0;
    assert(ns@.take(0) =~= Seq::<Namespace>::empty());
    assert(a + rest_steps(ns@.take(0)) =~= a);
    while i < ns.len()
        invariant
            i <= ns@.len(),
            v@ == a + rest_steps(ns@.take(i as int)),
        decreases ns@.len() - i,
    {
        let kind = ns[i].kind;
        let ghost before = v@;
        if kind != NamespaceKind::User && kind != NamespaceKind::Pid {
            v.push(ChildStep::EnterNamespace(i));
        }
        assert(ns@.take(i + 1).drop_last() =~= ns@.take(i as int));
        assert(v@ =~= a + rest_steps(ns@.take(i + 1)));
        i = i + 1;
    }
    assert(ns@.take(i as int) =~= ns@);
}

pub fn child_steps(s: &SandboxSpec) -> (v: Vec<ChildStep>)
    ensures
        v@ == child_plan(*s),
{
    let mut v: Vec<ChildStep> = Vec::new();
    v.push(ChildStep::NewSession);
    enter_rest(&mut v, &s.namespaces);
    if let Some(i) = find_namespace(&s.namespaces, NamespaceKind::Uts) {
        if s.namespaces[i].path.is_none() && s.hostname.is_some() {
            v.push(ChildStep::SetHostname);
        }
    }
    v.push(ChildStep::NotifyNamespaces);
    assert(v@ =~= child_start(*s));
    let ghost a = v@;
    if let Some(m) = s.umask {
        if m > MODE_BITS {
            v.push(ChildStep::InvalidUmask);
            assert(v@ =~= child_plan(*s));
            return v;
        }
        v.push(ChildStep::Umask(m));
    }
    v.push(ChildStep::SetUid(s.uid));
    v.push(ChildStep::SetGid(s.gid));
    v.push(ChildStep::BuildContext);
    v.push(ChildStep::WaitForStart);
    v.push(ChildStep::CreateContainerHooks);
    v.push(ChildStep::SetRunning);
    v.push(ChildStep::StartContainerHooks);
    v.push(ChildStep::AllCapabilities);
    if s.capabilities {
        v.push(ChildStep::DropPrivileges);
    }
    v.push(ChildStep::Run);
    assert(v@ =~= child_plan(*s));
    v
}

/// All that the parent of the process does.
pub open spec fn parent_plan(pid: i32) -> Seq<ParentStep> {
    seq![
        ParentStep::SendPid(pid),
        ParentStep::CreateRuntimeHooks,
        ParentStep::Wait(pid),
        ParentStep::NotifyEnd,
        ParentStep::CleanUp,
    ]
}

/// The parent of a process tells its number first and then has the hooks run. It tells of
/// the end of the process only once it has waited for that, and cleans up last.
pub proof fn parent_waits_for_the_end(pid: i32, i: int, j: int)
    requires
        0 <= i < parent_plan(pid).len(),
        0 <= j < parent_plan(pid).len(),
    ensures
        parent_plan(pid)[0] == ParentStep::SendPid(pid),
        parent_plan(pid).contains(ParentStep::CreateRuntimeHooks),
        parent_plan(pid).contains(ParentStep::Wait(pid)),
        parent_plan(pid).contains(ParentStep::NotifyEnd),
        parent_plan(pid).last() == ParentStep::CleanUp,
        parent_plan(pid)[i] is Wait ==> parent_plan(pid)[i] == ParentStep::Wait(pid),
        parent_plan(pid)[i] is CreateRuntimeHooks && parent_plan(pid)[j] is Wait ==> i < j,
        parent_plan(pid)[i] is Wait && parent_plan(pid)[j] is NotifyEnd ==> i < j,
        parent_plan(pid)[i] == parent_plan(pid)[j] ==> i == j,
{
    let p = parent_plan(pid);
    assert(p[1] == ParentStep::CreateRuntimeHooks);
    assert(p[2] == ParentStep::Wait(pid));
    assert(p[3] == ParentStep::NotifyEnd);
}

/// All that the parent of the process does.
pub fn parent_steps(pid: i32) -> (v: Vec<ParentStep>)
    ensures
        v@ == parent_plan(pid),
{
    let mut v: Vec<ParentStep> = Vec::new();
    v.push(ParentStep::SendPid(pid));
    v.push(ParentStep::CreateRuntimeHooks);
    v.push(ParentStep::Wait(pid));
    v.push(ParentStep::NotifyEnd);
    v.push(ParentStep::CleanUp);
    assert(v@ =~= parent_plan(pid));
    v
}

/// The program of a container runs only after it was told to start, and only
/// after it took on its user.
pub proof fn program_runs_last(s: SandboxSpec)
    requires
        umask_ok(s),
    ensures
        child_plan(s).last() == ChildStep::Run,
        ({
            let n = child_start(s).len() + (if s.umask is Some {
                1int
            } else {
                0
            });
            &&& child_plan(s)[n] == ChildStep::SetUid(s.uid)
            &&& child_plan(s)[n + 1] == ChildStep::SetGid(s.gid)
            &&& child_plan(s)[n + 3] == ChildStep::WaitForStart
            &&& n + 3 < child_plan(s).len() - 1
        }),
{
}

/// Texts with a mark between each two.
pub open spec fn joined(v: Seq<String>) -> Seq<char>
    decreases v.len(),
{
    if v.len() == 0 {
        Seq::empty()
    } else if v.len() == 1 {
        v[0]@
    } else {
        joined(v.drop_last()) + seq![';'] + v.last()@
    }
}

/// What cleaning up after a container comes to, from what went wrong on the way.
pub fn cleanup_result(errors: &Vec<String>) -> (r: Result<(), String>)
    ensures
        match r {
            Ok(_) => errors@.len() == 0,
            Err(s) => errors@.len() > 0 && s@ == "failed to cleanup: "@ + joined(errors@),
        },
{
    if errors.len() == 0 {
        return Ok(());
    }
    let mut s = "failed to cleanup: ".to_string();
    let mut i: usize = 0;
    assert(errors@.take(0) =~= Seq::<String>::empty());
    assert("failed to cleanup: "@ + joined(errors@.take(0)) =~= "failed to cleanup: "@);
    while i < errors.len()
        invariant
            i <= errors@.len(),
            s@ == "failed to cleanup: "@ + joined(errors@.take(i as int)),
        decreases errors@.len() - i,
    {
        let ghost before = joined(errors@.take(i as int));
        if i > 0 {
            s.append(";");
        }
        s.append(errors[i].as_str());
        proof {
            reveal_strlit(";");
            assert(";"@ =~= seq![';']);
            assert(errors@.take(i + 1).drop_last() =~= errors@.take(i as int));
            assert(errors@.take(i + 1).last() == errors@[i as int]);
            assert(s@ =~= "failed to cleanup: "@ + joined(errors@.take(i + 1)));
        }
        i = i + 1;
    }
    assert(errors@.take(i as int) =~= errors@);
    Err(s)
}

} // verus!
