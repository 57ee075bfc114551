use sentinel::errno::{SysError, EBADF, EINVAL, EMFILE};
use sentinel::kernel::fd_table::INFINITY;
use sentinel::kernel::{FdFlags, FdTable};

const MAX_FD: u64 = 2 * 1024;
const FILE: u64 = 77;

#[test]
fn fd_table_many() {
    let mut fd_table = FdTable::init();
    for _ in 0..MAX_FD {
        assert!(fd_table
            .new_fds(0, &vec![FILE], FdFlags::default(), MAX_FD)
            .is_ok());
    }
    assert!(fd_table
        .new_fds(0, &vec![FILE], FdFlags::default(), MAX_FD)
        .is_err());
    assert!(fd_table
        .new_fd_at(1, FILE, FdFlags::default(), MAX_FD)
        .is_ok());
    let i = 2;
    fd_table.remove(i);
    let fds = fd_table.new_fds(0, &vec![FILE], FdFlags::default(), MAX_FD);
    assert!(fds.is_ok());
    assert_eq!(fds.unwrap()[0], i);
}

#[test]
fn fd_table_over_limit() {
    let mut fd_table = FdTable::init();
    assert!(fd_table
        .new_fds(MAX_FD as i32, &vec![FILE], FdFlags::default(), MAX_FD)
        .is_err());
    assert!(fd_table
        .new_fds(
            MAX_FD as i32 - 2,
            &vec![FILE, FILE, FILE],
            FdFlags::default(),
            MAX_FD
        )
        .is_err());
    let res = fd_table.new_fds(
        MAX_FD as i32 - 3,
        &vec![FILE, FILE, FILE],
        FdFlags::default(),
        MAX_FD,
    );
    assert!(res.is_ok());
    for fd in res.unwrap() {
        fd_table.remove(fd);
    }
    let res = fd_table.new_fds(MAX_FD as i32 - 1, &vec![FILE], FdFlags::default(), MAX_FD);
    assert!(res.is_ok());
    assert_eq!(res.unwrap()[0], MAX_FD as i32 - 1);
    let res = fd_table.new_fds(0, &vec![FILE], FdFlags::default(), MAX_FD);
    assert!(res.is_ok());
    assert_eq!(res.unwrap(), vec![0]);
}

#[test]
fn fd_table() {
    let mut fd_table = FdTable::init();
    assert!(fd_table
        .new_fds(0, &vec![FILE], FdFlags::default(), 1)
        .is_ok());
    assert!(fd_table
        .new_fds(0, &vec![FILE], FdFlags::default(), 1)
        .is_err());

    let res = fd_table.new_fds(0, &vec![FILE], FdFlags::default(), MAX_FD);
    assert!(res.is_ok());
    assert_eq!(res.unwrap(), vec![1]);

    assert!(fd_table
        .new_fd_at(1, FILE, FdFlags::default(), MAX_FD)
        .is_ok());
    assert!(fd_table
        .new_fd_at(MAX_FD as i32 + 1, FILE, FdFlags::default(), MAX_FD)
        .is_err());
    assert!(fd_table.get(1).is_some());
    assert!(fd_table.get(2).is_none());
    let rm = fd_table.remove(1);
    assert!(rm.is_some());
    assert!(fd_table.remove(1).is_none());
}

#[test]
fn descriptor_flags() {
    let mut fd_table = FdTable::init();
    assert!(fd_table
        .new_fd_at(
            2,
            FILE,
            FdFlags {
                close_on_exec: true
            },
            MAX_FD
        )
        .is_ok());
    let res = fd_table.get(2);
    assert!(res.is_some());
    let (_, flags) = res.unwrap();
    assert!(flags.close_on_exec);
}

#[test]
fn descriptors_are_refused_for_a_reason() {
    let mut t = FdTable::init();
    let flags = FdFlags::default();
    assert_eq!(
        t.new_fds(-1, &vec![FILE], flags, MAX_FD),
        Err(SysError::new(EINVAL))
    );
    assert_eq!(
        t.new_fds(MAX_FD as i32, &vec![FILE], flags, MAX_FD),
        Err(SysError::new(EMFILE))
    );
    assert_eq!(
        t.new_fd_at(-1, FILE, flags, MAX_FD),
        Err(SysError::new(EBADF))
    );
    assert_eq!(
        t.new_fd_at(MAX_FD as i32, FILE, flags, MAX_FD),
        Err(SysError::new(EMFILE))
    );
    assert_eq!(t.set_flags(3, flags), Err(SysError::new(EBADF)));
    assert_eq!(t.get(-5), None);
    assert_eq!(t.remove(-5), None);
    assert!(t.new_fd_at(MAX_FD as i32, FILE, flags, INFINITY).is_ok());
}

#[test]
fn closed_descriptors_are_given_out_again() {
    let mut t = FdTable::init();
    let flags = FdFlags::default();
    let fds = t.new_fds(0, &vec![10, 11, 12, 13], flags, MAX_FD).unwrap();
    assert_eq!(fds, vec![0, 1, 2, 3]);
    assert_eq!(t.remove(2), Some(12));
    assert_eq!(t.remove(1), Some(11));
    assert_eq!(t.new_fds(0, &vec![20, 21, 22], flags, MAX_FD), Ok(vec![1, 2, 4]));
    assert_eq!(t.get(4), Some((22, flags)));
}

#[test]
fn descriptors_that_cannot_all_be_had_are_given_back() {
    let mut t = FdTable::init();
    let flags = FdFlags::default();
    assert!(t.new_fds(0, &vec![1, 2], flags, 3).is_ok());
    assert_eq!(
        t.new_fds(0, &vec![3, 4], flags, 3),
        Err(SysError::new(EMFILE))
    );
    assert_eq!(t.get(2), None);
    assert_eq!(t.new_fds(0, &vec![5], flags, 3), Ok(vec![2]));
}

#[test]
fn stdio_takes_the_first_three() {
    let mut t = FdTable::init();
    t.set_stdio_files(5, 6, 7);
    assert_eq!(t.get(0).map(|d| d.0), Some(5));
    assert_eq!(t.get(1).map(|d| d.0), Some(6));
    assert_eq!(t.get(2).map(|d| d.0), Some(7));
    assert_eq!(
        t.new_fds(0, &vec![9], FdFlags::default(), MAX_FD),
        Ok(vec![3])
    );
}

#[test]
fn no_files_take_no_descriptors() {
    let mut t = FdTable::init();
    assert_eq!(t.new_fds(5, &vec![], FdFlags::default(), MAX_FD), Ok(vec![]));
    assert_eq!(t.next, 0);
}

#[test]
fn closed_descriptors_stay_closed() {
    let mut t = FdTable::init();
    t.used = i32::MIN;
    let flags = FdFlags {
        close_on_exec: true,
    };
    assert_eq!(t.new_fds(0, &vec![FILE, FILE + 1], flags, MAX_FD), Ok(vec![0, 1]));
    assert_eq!(t.remove(0), Some(FILE));
    assert_eq!(t.remove(0), None);
    assert_eq!(t.remove(-1), None);
    assert_eq!(t.get(0), None);
    assert_eq!(t.get(1), Some((FILE + 1, flags)));
}
