use vstd::prelude::*;

use crate::errno::{sys, SysError, SysResult, EACCES, ELOOP, ENOTDIR};

verus! {

/// How often a script may be run by another before that is given up.
pub const MAX_LOADER_ATTEMPS: u32 = 6;

/// What a file is by the bytes that it starts with.
#[derive(Debug, Clone, Copy, PartialEq, Eq, Structural)]
pub enum FileFormat {
    Elf,
    Script,
    Unknown,
}

/// What a file is by the four bytes that it starts with.
pub open spec fn format_of(head: Seq<u8>) -> FileFormat {
    if head == seq![0x7fu8, 0x45, 0x4c, 0x46] {
        FileFormat::Elf
    } else if head.take(2) == seq![0x23u8, 0x21] {
        FileFormat::Script
    } else {
        FileFormat::Unknown
    }
}

/// A program starts with the byte 127 and the letters ELF, a script with a hash and an
/// exclamation mark. Nothing else can be run.
pub proof fn file_is_known_by_its_start(head: Seq<u8>)
    requires
        head.len() == 4,
    ensures
        format_of(head) is Elf == (head[0] == 127 && head[1] == 'E' as u8 && head[2] == 'L' as u8
            && head[3] == 'F' as u8),
        format_of(head) is Script == (head[0] == '#' as u8 && head[1] == '!' as u8),
{
    let elf = seq![0x7fu8, 0x45, 0x4c, 0x46];
    let script = seq![0x23u8, 0x21];
    assert(head[0] == elf[0] && head[1] == elf[1] && head[2] == elf[2] && head[3] == elf[3] ==> head
        =~= elf);
    assert(head[0] == script[0] && head[1] == script[1] ==> head.take(2) =~= script);
    assert(head.take(2)[0] == head[0] && head.take(2)[1] == head[1]);
}

/// What a file is by the four bytes that it starts with.
pub fn file_format(head: &[u8; 4]) -> (f: FileFormat)
    ensures
        f == format_of(head@),
{
    proof {
        let elf = seq![0x7fu8, 0x45, 0x4c, 0x46];
        let script = seq![0x23u8, 0x21];
        assert(head@[0] == elf[0] && head@[1] == elf[1] && head@[2] == elf[2] && head@[3] == elf[3]
            ==> head@ =~= elf);
        assert(head@[0] == script[0] && head@[1] == script[1] ==> head@.take(2) =~= script);
        assert(head@.take(2)[0] == head@[0] && head@.take(2)[1] == head@[1]);
    }
    if head[0] == 0x7f && head[1] == 0x45 && head[2] == 0x4c && head[3] == 0x46 {
        FileFormat::Elf
    } else if head[0] == 0x23 && head[1] == 0x21 {
        FileFormat::Script
    } else {
        FileFormat::Unknown
    }
}

/// What is left of the attempts after one more.
pub open spec fn attempted(remaining: u32) -> SysResult<u32> {
    if remaining == 0 {
        Err(sys(ELOOP))
    } else {
        Ok((remaining - 1) as u32)
    }
}

/// What is left after `n` attempts, or the error that ended them.
pub open spec fn attempted_often(remaining: u32, n: nat) -> SysResult<u32>
    decreases n,
{
    if n == 0 {
        Ok(remaining)
    } else {
        match attempted_often(remaining, (n - 1) as nat) {
            Ok(m) => attempted(m),
            Err(e) => Err(e),
        }
    }
}

/// As many attempts can be made as are allowed and no more, so that scripts that run each
/// other come to an end.
pub proof fn attempts_are_limited(remaining: u32, n: nat)
    ensures
        attempted_often(remaining, n) is Ok == (n <= remaining),
        n <= remaining ==> attempted_often(remaining, n)->Ok_0 == remaining - n,
        n > remaining ==> attempted_often(remaining, n)->Err_0.code == 40,
    decreases n,
{
    if n > 0 {
        attempts_are_limited(remaining, (n - 1) as nat);
    }
}

/// Whether there is an attempt left to load a file.
pub fn attempt(remaining: u32) -> (r: SysResult<u32>)
    ensures
        r == attempted(remaining),
{
    if remaining == 0 {
        Err(SysError::new(ELOOP))
    } else {
        Ok(remaining - 1)
    }
}

/// Whether a file can be a program. `names_dir` tells whether its path names a
/// directory.
pub fn check_program_file(names_dir: bool, is_directory: bool, is_regular: bool) -> (r: SysResult<
    (),
>)
    ensures
        r == (if names_dir && !is_directory {
            Err::<(), SysError>(sys(ENOTDIR))
        } else if !is_regular {
            Err::<(), SysError>(sys(EACCES))
        } else {
            Ok::<(), SysError>(())
        }),
{
    if names_dir && !is_directory {
        return Err(SysError::new(ENOTDIR));
    }
    if !is_regular {
        return Err(SysError::new(EACCES));
    }
    Ok(())
}

} // verus!
