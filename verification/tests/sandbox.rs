use sentinel::access::AccessType;
use sentinel::errno::{SysError, EINVAL, ENOSYS};
use sentinel::kernel::Task;
use sentinel::net::IpAddress;
use sentinel::platform::UserRegs;
use sentinel::sandbox::capabilities::{difference, Privileges, LAST_CAPABILITY};
use sentinel::sandbox::network::network_config;
use sentinel::sandbox::oci::{
    container_paths, log_level, path_in, pid_bytes, pid_from, pid_in_text, LogLevel,
};
use sentinel::sandbox::plan::{
    child_steps, cleanup_result, fork_side, parent_steps, prepare_steps, ChildStep, ForkSide,
    Namespace, NamespaceKind, ParentStep, PrepareStep, Rlimit, SandboxSpec,
};
use sentinel::sandbox::trace::{
    after_fault, on_event, stopped_at_start, syscall_value, AfterSyscall, FaultHistory, Latencies,
    Latency, SyscallLog, TraceStep, WaitEvent,
};
use sentinel::sandbox::{
    can_access_file, drop_privileges, get_cgroup_path, get_stderr, get_stdout, set_capabilities,
    AccessRequest, CapSet, CapStep, FilePermissions, OutputError, PermMask,
};

#[test]
fn events_are_answered() {
    assert_eq!(on_event(WaitEvent::Syscall), TraceStep::PerformSyscall);
    assert_eq!(
        on_event(WaitEvent::Stopped(libc::SIGSEGV)),
        TraceStep::HandleFault
    );
    assert_eq!(
        on_event(WaitEvent::Stopped(libc::SIGTRAP)),
        TraceStep::Resume
    );
    assert_eq!(on_event(WaitEvent::Stopped(libc::SIGUSR1)), TraceStep::Fail);
    assert_eq!(on_event(WaitEvent::Exited), TraceStep::End);
    assert_eq!(on_event(WaitEvent::Signaled(9)), TraceStep::Fail);
    assert!(stopped_at_start(WaitEvent::Stopped(libc::SIGSTOP)));
    assert!(!stopped_at_start(WaitEvent::Exited));
}

#[test]
fn a_fault_that_comes_again_asks_for_writing() {
    let mut h = FaultHistory::new();
    assert_eq!(h.access(4096, 100), AccessType::read());
    assert_eq!(h.access(4096, 100), AccessType::read_write());
    assert_eq!(h.access(4096, 104), AccessType::read());
    assert_eq!(
        h.access(104, 104),
        AccessType {
            read: true,
            write: false,
            execute: true
        }
    );
}

#[test]
fn errors_have_the_sign_turned() {
    assert_eq!(syscall_value(Ok(5)), 5);
    assert_eq!(
        syscall_value(Err(SysError::new(ENOSYS))),
        (-(libc::ENOSYS as i64)) as u64
    );
    assert_eq!(syscall_value(Err(SysError::new(-1))), 1);
}

#[test]
fn slow_calls_come_first() {
    let mut l = Latencies::new();
    let call = |elapsed: u64, no: usize| Latency {
        elapsed,
        no,
        sysno: 1,
    };
    for (t, n) in [(5, 0), (9, 1), (2, 2), (9, 3)] {
        l.insert(call(t, n));
    }
    assert_eq!(l.slowest(2), vec![call(9, 3), call(5, 0)]);
    assert_eq!(l.slowest(10).len(), 3);
}

const NONE: PermMask = PermMask {
    read: false,
    write: false,
    execute: false,
};
const READ: PermMask = PermMask { read: true, ..NONE };
const EXECUTE: PermMask = PermMask {
    execute: true,
    ..NONE
};

fn request() -> AccessRequest {
    AccessRequest {
        perms: Some(FilePermissions {
            user: READ,
            group: NONE,
            other: NONE,
        }),
        is_owner: true,
        in_group: false,
        is_file: true,
        is_directory: false,
        no_exec: false,
        dac_override: false,
        dac_read_search: false,
    }
}

#[test]
fn files_are_used_as_permitted() {
    let r = request();
    assert!(can_access_file(&r, &READ));
    assert!(!can_access_file(&r, &EXECUTE));
    let other = AccessRequest {
        is_owner: false,
        ..r
    };
    assert!(!can_access_file(&other, &READ));
    let reader = AccessRequest {
        dac_read_search: true,
        ..other
    };
    assert!(can_access_file(&reader, &READ));
    let root = AccessRequest {
        dac_override: true,
        ..other
    };
    assert!(can_access_file(&root, &READ));
    assert!(!can_access_file(&root, &EXECUTE));
    let unknown = AccessRequest {
        perms: None,
        ..root
    };
    assert!(!can_access_file(&unknown, &READ));
    let directory = AccessRequest {
        is_file: false,
        is_directory: true,
        ..root
    };
    assert!(can_access_file(&directory, &EXECUTE));
    let runnable = AccessRequest {
        perms: Some(FilePermissions {
            user: EXECUTE,
            group: NONE,
            other: NONE,
        }),
        ..r
    };
    assert!(can_access_file(&runnable, &EXECUTE));
    let mounted = AccessRequest {
        no_exec: true,
        ..runnable
    };
    assert!(!can_access_file(&mounted, &EXECUTE));
}

#[test]
fn bounding_capabilities_are_dropped() {
    let mut left = match set_capabilities(CapSet::Bounding, vec![0, 7]) {
        CapStep::Drop(d) => d,
        _ => panic!("the bounding set can only be cut"),
    };
    left.sort_unstable();
    let want: Vec<u8> = (0..=LAST_CAPABILITY).filter(|c| *c != 0 && *c != 7).collect();
    assert_eq!(left, want);
    assert_eq!(difference(&vec![1, 2, 3], &vec![2, 9]), vec![1, 3]);
    match set_capabilities(CapSet::Effective, vec![3]) {
        CapStep::Replace(CapSet::Effective, v) => assert_eq!(v, vec![3]),
        _ => panic!("other sets are replaced"),
    }
}

#[test]
fn privileges_are_dropped_in_order() {
    let steps = drop_privileges(Privileges {
        bounding: Some((0..=LAST_CAPABILITY).collect()),
        effective: None,
        permitted: Some(vec![1]),
        inheritable: None,
        ambient: Some(vec![2]),
    });
    assert_eq!(steps.len(), 3);
    assert!(matches!(&steps[0], CapStep::Drop(d) if d.is_empty()));
    assert!(matches!(&steps[1], CapStep::Replace(CapSet::Permitted, v) if v == &vec![1]));
    assert!(matches!(&steps[2], CapStep::Replace(CapSet::Ambient, v) if v == &vec![2]));
}

#[test]
fn output_is_text() {
    let mut t = Task::new(UserRegs::default());
    assert!(matches!(
        get_stdout(&t, Ok(vec![])),
        Err(OutputError::Sys(e)) if e == SysError::new(EINVAL)
    ));
    t.fd_table.set_stdio_files(0, 1, 2);
    assert!(matches!(
        get_stdout(&t, Ok(b"hello".to_vec())),
        Ok(s) if s == "hello"
    ));
    assert!(matches!(
        get_stderr(&t, Ok(vec![0xff])),
        Err(OutputError::NotText)
    ));
    let e = SysError::new(ENOSYS);
    assert!(matches!(
        get_stderr(&t, Err(e)),
        Err(OutputError::Sys(x)) if x == e
    ));
}

#[test]
fn networks_have_addresses() {
    let c = network_config();
    assert_eq!(c.v4_gateway, [192, 168, 69, 100]);
    assert!(matches!(c.addrs[0].addr, IpAddress::Ipv4([192, 168, 69, 1])));
    assert_eq!(c.addrs[0].prefix, 24);
    assert_eq!(c.hardware_addr, [2, 0, 0, 0, 0, 2]);
}

#[test]
fn levels_are_asked_for() {
    let env = |s: &[&str]| s.iter().map(|s| s.to_string()).collect::<Vec<String>>();
    assert_eq!(log_level(&env(&["A=b"])), LogLevel::Off);
    assert_eq!(
        log_level(&env(&["A=b", "SENTINEL_LOG_LEVEL=Debug"])),
        LogLevel::Debug
    );
    for (word, level) in [
        ("error", LogLevel::Error),
        ("WARN", LogLevel::Warn),
        ("info", LogLevel::Info),
        ("trace", LogLevel::Trace),
        ("loud", LogLevel::Off),
    ] {
        assert_eq!(
            log_level(&vec![format!("SENTINEL_LOG_LEVEL={}", word)]),
            level
        );
    }
}

#[test]
fn containers_have_paths() {
    assert_eq!(path_in("/run", "x"), "/run/x");
    let p = container_paths("/run/sentinel", "c1");
    assert_eq!(p.dir, "/run/sentinel/c1");
    assert_eq!(p.notify, "/run/sentinel/c1/notify.sock");
    assert_eq!(get_cgroup_path(Some("/g"), "c1"), "/g");
    assert_eq!(get_cgroup_path(None, "c1"), "c1");
}

#[test]
fn process_numbers_are_told() {
    for pid in [0, 1, 77777, -1, i32::MIN, i32::MAX] {
        let b = pid_bytes(pid);
        assert_eq!(b, pid.to_le_bytes().to_vec());
        assert_eq!(pid_from(&[b[0], b[1], b[2], b[3]]), pid);
    }
}

fn namespace(kind: NamespaceKind) -> Namespace {
    Namespace { kind, path: None }
}

fn spec() -> SandboxSpec {
    SandboxSpec {
        namespaces: vec![
            namespace(NamespaceKind::Mount),
            namespace(NamespaceKind::Pid),
            namespace(NamespaceKind::Uts),
            namespace(NamespaceKind::User),
        ],
        resources: true,
        rlimits: vec![Rlimit {
            typ: 7,
            soft: 1,
            hard: 2,
        }],
        umask: Some(0o22),
        uid: 3,
        gid: 4,
        hostname: Some("h".to_string()),
        capabilities: true,
    }
}

#[test]
fn sandboxes_are_prepared() {
    assert_eq!(
        prepare_steps(&spec()),
        vec![
            PrepareStep::JoinCgroup,
            PrepareStep::ApplyResources,
            PrepareStep::EnterNamespace(3),
            PrepareStep::KeepCapabilities(true),
            PrepareStep::SetGid(0),
            PrepareStep::SetUid(0),
            PrepareStep::KeepCapabilities(false),
            PrepareStep::SetRlimit(Rlimit {
                typ: 7,
                soft: 1,
                hard: 2
            }),
            PrepareStep::EnterNamespace(1),
            PrepareStep::Fork
        ]
    );
}

#[test]
fn programs_run_last() {
    assert_eq!(
        child_steps(&spec()),
        vec![
            ChildStep::NewSession,
            ChildStep::EnterNamespace(0),
            ChildStep::EnterNamespace(2),
            ChildStep::SetHostname,
            ChildStep::NotifyNamespaces,
            ChildStep::Umask(0o22),
            ChildStep::SetUid(3),
            ChildStep::SetGid(4),
            ChildStep::BuildContext,
            ChildStep::WaitForStart,
            ChildStep::CreateContainerHooks,
            ChildStep::SetRunning,
            ChildStep::StartContainerHooks,
            ChildStep::AllCapabilities,
            ChildStep::DropPrivileges,
            ChildStep::Run
        ]
    );
    let wrong = SandboxSpec {
        umask: Some(0o10000),
        ..spec()
    };
    assert_eq!(child_steps(&wrong).last(), Some(&ChildStep::InvalidUmask));
    assert_eq!(
        parent_steps(9),
        vec![
            ParentStep::SendPid(9),
            ParentStep::CreateRuntimeHooks,
            ParentStep::Wait(9),
            ParentStep::NotifyEnd,
            ParentStep::CleanUp
        ]
    );
    assert_eq!(fork_side(0), ForkSide::Child);
    assert_eq!(fork_side(5), ForkSide::Parent(5));
    assert_eq!(fork_side(-1), ForkSide::Failed);
}

#[test]
fn cleaning_up_tells_what_went_wrong() {
    assert_eq!(cleanup_result(&vec![]), Ok(()));
    assert_eq!(
        cleanup_result(&vec!["a".to_string(), "b".to_string()]),
        Err("failed to cleanup: a;b".to_string())
    );
}

#[test]
fn system_calls_are_followed_up() {
    let mut log = SyscallLog::new();
    assert_eq!(log.after_syscall(0, false, 70, Ok(5)), AfterSyscall::Resume(5));
    let failed = Err(SysError::new(EINVAL));
    assert_eq!(
        log.after_syscall(1, false, 90, failed),
        AfterSyscall::Resume((-(EINVAL as i64)) as u64)
    );
    assert_eq!(log.after_syscall(60, true, 50, Ok(0)), AfterSyscall::End);
    assert_eq!(log.count, 3);
    let slowest = log.latencies.slowest(10);
    assert_eq!(slowest.len(), 2);
    assert_eq!((slowest[0].sysno, slowest[0].no, slowest[0].elapsed), (0, 1, 70));
    assert_eq!((slowest[1].sysno, slowest[1].no, slowest[1].elapsed), (60, 3, 50));
}

#[test]
fn faults_that_cannot_be_seen_to_end_a_task() {
    assert_eq!(after_fault(Ok(())), TraceStep::Resume);
    assert_eq!(after_fault(Err(SysError::new(EINVAL))), TraceStep::End);
}

#[test]
fn process_numbers_are_read_from_text() {
    let texts = [
        "", "0", "1", "77777", "+5", "-5", "+", "-", "--1", "+-1", "007", "-0", "1 ", " 1", "1\n",
        "1_0", "12a", "2147483647", "2147483648", "-2147483648", "-2147483649",
        "99999999999999999999999999", "-99999999999999999999", "000000000000000000000000012",
        "99999999999999999999x", "\u{661}",
    ];
    for t in texts {
        assert_eq!(pid_in_text(t), t.parse::<i32>().ok());
    }
    assert_eq!(pid_in_text("4711"), Some(4711));
    assert_eq!(pid_in_text("-2147483648"), Some(i32::MIN));
    assert_eq!(pid_in_text("2147483648"), None);
}
