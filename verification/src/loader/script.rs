use vstd::prelude::*;
use vstd::slice::slice_subrange;
use vstd::utf8::{decode_utf8, valid_utf8};

use crate::errno::{sys, SysError, SysResult, EINVAL, ENOEXEC};
use crate::text::text_of;

verus! {

/// How much of a script is looked at.
pub const FIRST_LINE_SIZE: usize = 127;

/// What a script for an interpreter starts with.
pub open spec fn script_magic() -> Seq<u8> {
    seq![0x23u8, 0x21]
}

pub open spec fn is_blank(c: u8) -> bool {
    c == 0x20 || c == 0x09
}

/// The bytes before the first end of a line.
pub open spec fn first_line(s: Seq<u8>) -> Seq<u8>
    decreases s.len(),
{
    if s.len() == 0 || s[0] == 0x0a {
        Seq::empty()
    } else {
        seq![s[0]] + first_line(s.skip(1))
    }
}

/// The bytes from the first on that is no blank.
pub open spec fn trimmed(s: Seq<u8>) -> Seq<u8>
    decreases s.len(),
{
    if s.len() > 0 && is_blank(s[0]) {
        trimmed(s.skip(1))
    } else {
        s
    }
}

/// The number of bytes before the first blank.
pub open spec fn word_length(s: Seq<u8>) -> nat
    decreases s.len(),
{
    if s.len() == 0 || is_blank(s[0]) {
        0
    } else {
        1 + word_length(s.skip(1))
    }
}

/// The line that names the interpreter.
pub open spec fn command(s: Seq<u8>) -> Seq<u8> {
    trimmed(first_line(s.skip(2)))
}

/// The interpreter that a script names.
pub open spec fn interpreter(s: Seq<u8>) -> Seq<u8> {
    command(s).take(word_length(command(s)) as int)
}

/// What follows the interpreter.
pub open spec fn argument(s: Seq<u8>) -> Seq<u8> {
    command(s).skip(word_length(command(s)) as int)
}

/// The arguments of a program.
pub open spec fn texts(v: Seq<String>) -> Seq<Seq<char>> {
    Seq::new(v.len(), |i: int| v[i]@)
}

/// The arguments with which an interpreter runs a script that was called by
/// `name` with `argv`.
pub open spec fn interpreter_args(s: Seq<u8>, name: Seq<char>, argv: Seq<Seq<char>>) -> Seq<
    Seq<char>,
> {
    seq![decode_utf8(interpreter(s))] + (if argument(s).len() > 0 {
        seq![decode_utf8(argument(s))]
    } else {
        Seq::empty()
    }) + seq![name] + (if argv.len() > 0 {
        argv.skip(1)
    } else {
        Seq::empty()
    })
}

/// What keeps a script from being run.
pub open spec fn script_error(s: Seq<u8>) -> Option<i32> {
    if s.take(2) != script_magic() || interpreter(s).len() == 0 {
        Some(ENOEXEC)
    } else if !valid_utf8(interpreter(s)) {
        Some(EINVAL)
    } else if argument(s).len() > 0 && !valid_utf8(argument(s)) {
        Some(EINVAL)
    } else {
        None
    }
}

pub proof fn lemma_first_line(s: Seq<u8>, i: int)
    requires
        0 <= i <= s.len(),
        forall|j: int| 0 <= j < i ==> s[j] != 0x0a,
        i == s.len() || s[i] == 0x0a,
    ensures
        first_line(s) == s.take(i),
    decreases i,
{
    if i == 0 {
        assert(s.take(0) =~= Seq::<u8>::empty());
    } else {
        assert(s[0] != 0x0a);
        lemma_first_line(s.skip(1), i - 1);
        assert(seq![s[0]] + s.skip(1).take(i - 1) =~= s.take(i));
    }
}

pub proof fn lemma_trimmed(s: Seq<u8>, i: int)
    requires
        0 <= i <= s.len(),
        forall|j: int| 0 <= j < i ==> is_blank(#[trigger] s[j]),
        i == s.len() || !is_blank(s[i]),
    ensures
        trimmed(s) == s.skip(i),
    decreases i,
{
    if i == 0 {
        assert(s.skip(0) =~= s);
    } else {
        assert(is_blank(s[0]));
        assert forall|j: int| 0 <= j < i - 1 implies is_blank(#[trigger] s.skip(1)[j]) by {
            assert(is_blank(s[j + 1]));
        }
        lemma_trimmed(s.skip(1), i - 1);
        assert(s.skip(1).skip(i - 1) =~= s.skip(i));
    }
}

pub proof fn lemma_word_length(s: Seq<u8>, i: int)
    requires
        0 <= i <= s.len(),
        forall|j: int| 0 <= j < i ==> !is_blank(#[trigger] s[j]),
        i == s.len() || is_blank(s[i]),
    ensures
        word_length(s) == i,
    decreases i,
{
    if i > 0 {
        assert(!is_blank(s[0]));
        assert forall|j: int| 0 <= j < i - 1 implies !is_blank(#[trigger] s.skip(1)[j]) by {
            assert(!is_blank(s[j + 1]));
        }
        lemma_word_length(s.skip(1), i - 1);
    }
}

fn line_of(s: &[u8]) -> (r: &[u8])
    ensures
        r@ == first_line(s@),
{
    let mut i: usize = 0;
    while i < s.len() && s[i] != 0x0a
        invariant
            i <= s@.len(),
            forall|j: int| 0 <= j < i ==> s@[j] != 0x0a,
        decreases s@.len() - i,
    {
        i = i + 1;
    }
    proof {
        lemma_first_line(s@, i as int);
    }
    slice_subrange(s, 0, i)
}

fn without_blanks(s: &[u8]) -> (r: &[u8])
    ensures
        r@ == trimmed(s@),
{
    let mut i: usize = 0;
    while i < s.len() && (s[i] == 0x20 || s[i] == 0x09)
        invariant
            i <= s@.len(),
            forall|j: int| 0 <= j < i ==> is_blank(#[trigger] s@[j]),
        decreases s@.len() - i,
    {
        i = i + 1;
    }
    proof {
        lemma_trimmed(s@, i as int);
    }
    slice_subrange(s, i, s.len())
}

fn word_of(s: &[u8]) -> (n: usize)
    ensures
        n == word_length(s@),
        n <= s@.len(),
{
    let mut i: usize = 0;
    while i < s.len() && s[i] != 0x20 && s[i] != 0x09
        invariant
            i <= s@.len(),
            forall|j: int| 0 <= j < i ==> !is_blank(#[trigger] s@[j]),
        decreases s@.len() - i,
    {
        i = i + 1;
    }
    proof {
        lemma_word_length(s@, i as int);
    }
    i
}

/// Finds the interpreter that a script names, from the bytes that the script
/// starts with, and the arguments with which to run it.
pub fn parse_interpreter_script(filename: String, head: &[u8], argv: Vec<String>) -> (r: SysResult<
    (String, Vec<String>),
>)
    requires
        head@.len() >= 2,
        argv@.len() < usize::MAX - 3,
    ensures
        match r {
            Ok((interp, args)) => {
                &&& script_error(head@) is None
                &&& interp@ == decode_utf8(interpreter(head@))
                &&& texts(args@) == interpreter_args(head@, filename@, texts(argv@))
            },
            Err(e) => script_error(head@) == Some(e.code) && e == sys(e.code),
        },
{
    let ghost argv0 = argv@;
    if head[0] != 0x23 || head[1] != 0x21 {
        proof {
            let m = script_magic();
            assert(head@.take(2)[0] != m[0] || head@.take(2)[1] != m[1]);
        }
        return Err(SysError::new(ENOEXEC));
    }
    assert(head@.take(2) =~= script_magic());
    let rest = slice_subrange(head, 2, head.len());
    assert(rest@ =~= head@.skip(2));
    let line = without_blanks(line_of(rest));
    let n = word_of(line);
    let interp = slice_subrange(line, 0, n);
    let args = slice_subrange(line, n, line.len());
    assert(interp@ =~= interpreter(head@));
    assert(args@ =~= argument(head@));
    if n == 0 {
        return Err(SysError::new(ENOEXEC));
    }
    let (first, again) = match (text_of(interp), text_of(interp)) {
        (Some(a), Some(b)) => (a, b),
        _ => return Err(SysError::new(EINVAL)),
    };
    let mut new_argv: Vec<String> = Vec::new();
    new_argv.push(again);
    if args.len() > 0 {
        match text_of(args) {
            Some(a) => new_argv.push(a),
            None => return Err(SysError::new(EINVAL)),
        }
    }
    let ghost front = new_argv@;
    let ghost name = filename@;
    let mut argv = argv;
    if argv.len() == 0 {
        argv.push(filename);
    } else {
        argv.set(0, filename);
    }
    let ghost back = argv@;
    new_argv.append(&mut argv);
    proof {
        assert(new_argv@ =~= front + back);
        let want = interpreter_args(head@, name, texts(argv0));
        assert(texts(front) =~= seq![decode_utf8(interpreter(head@))] + (if argument(head@).len()
            > 0 {
            seq![decode_utf8(argument(head@))]
        } else {
            Seq::empty()
        }));
        assert(texts(back) =~= seq![name] + (if texts(argv0).len() > 0 {
            texts(argv0).skip(1)
        } else {
            Seq::empty()
        }));
        assert(texts(new_argv@) =~= texts(front) + texts(back));
        assert(texts(new_argv@) =~= want);
    }
    Ok((first, new_argv))
}

} // verus!
