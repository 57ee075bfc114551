use vstd::prelude::*;
use vstd::utf8::{decode_utf8, decode_utf8_encode_utf8, encode_utf8, valid_utf8};

use crate::errno::{sys, SysError, SysResult, EINVAL};
use crate::kernel::task::Task;
use crate::text::text_of;

verus! {

/// Why there is no output.
#[derive(Debug, Clone, Copy, PartialEq, Eq)]
pub enum OutputError {
    /// There is no such file, or it could not be read.
    Sys(SysError),
    /// What was written is no text.
    NotText,
}

/// What a task wrote to descriptor `fd`. `read` is what was read from the file
/// there.
pub open spec fn output(task: Task, fd: i32, read: SysResult<Vec<u8>>, r: Result<
    String,
    OutputError,
>) -> bool {
    if !task.fd_table.table().contains_key(fd) {
        r == Err::<String, OutputError>(OutputError::Sys(sys(EINVAL)))
    } else {
        match read {
            Err(e) => r == Err::<String, OutputError>(OutputError::Sys(e)),
            Ok(b) => match r {
                Ok(s) => valid_utf8(b@) && s@ == decode_utf8(b@),
                Err(e) => e == OutputError::NotText && !valid_utf8(b@),
            },
        }
    }
}

fn get_output(task: &Task, fd: i32, read: SysResult<Vec<u8>>) -> (r: Result<String, OutputError>)
    ensures
        output(*task, fd, read, r),
{
    if task.get_file(fd).is_none() {
        return Err(OutputError::Sys(SysError::new(EINVAL)));
    }
    match read {
        Ok(b) => match text_of(b.as_slice()) {
            Some(s) => Ok(s),
            None => Err(OutputError::NotText),
        },
        Err(e) => Err(OutputError::Sys(e)),
    }
}

/// What a task wrote to its standard output.
pub open spec fn stdout_of(task: Task, read: SysResult<Vec<u8>>, r: Result<String, OutputError>) -> bool {
    output(task, 1, read, r)
}

/// What a task wrote to its standard error.
pub open spec fn stderr_of(task: Task, read: SysResult<Vec<u8>>, r: Result<String, OutputError>) -> bool {
    output(task, 2, read, r)
}

/// What a task wrote is told as it was written, if it is text, and only if the descriptor
/// for it is open.
pub proof fn output_is_what_was_written(
    task: Task,
    read: SysResult<Vec<u8>>,
    out: Result<String, OutputError>,
    err: Result<String, OutputError>,
)
    requires
        stdout_of(task, read, out),
        stderr_of(task, read, err),
    ensures
        out is Ok == (task.fd_table.table().contains_key(1) && read is Ok && valid_utf8(
            read->Ok_0@,
        )),
        err is Ok == (task.fd_table.table().contains_key(2) && read is Ok && valid_utf8(
            read->Ok_0@,
        )),
        out matches Ok(s) ==> encode_utf8(s@) == read->Ok_0@,
        err matches Ok(s) ==> encode_utf8(s@) == read->Ok_0@,
        !task.fd_table.table().contains_key(1) ==> out == Err::<String, OutputError>(
            OutputError::Sys(sys(22)),
        ),
        !task.fd_table.table().contains_key(2) ==> err == Err::<String, OutputError>(
            OutputError::Sys(sys(22)),
        ),
{
    if read is Ok && valid_utf8(read->Ok_0@) {
        decode_utf8_encode_utf8(read->Ok_0@);
    }
}

/// What a task wrote to its standard output.
pub fn get_stdout(task: &Task, read: SysResult<Vec<u8>>) -> (r: Result<String, OutputError>)
    ensures
        stdout_of(*task, read, r),
{
    get_output(task, 1, read)
}

/// What a task wrote to its standard error.
pub fn get_stderr(task: &Task, read: SysResult<Vec<u8>>) -> (r: Result<String, OutputError>)
    ensures
        stderr_of(*task, read, r),
{
    get_output(task, 2, read)
}

} // verus!
