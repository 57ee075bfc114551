use vstd::prelude::*;
use vstd::string::StringExecFns;
use vstd::utf8::encode_utf8;

use crate::bytes::{from_le, le, le_value, pow256, to_le};

verus! {

/// How much is logged.
#[derive(Debug, Clone, Copy, PartialEq, Eq, Structural)]
pub enum LogLevel {
    Off,
    Error,
    Warn,
    Info,
    Debug,
    Trace,
}

/// What a setting of the level starts with.
pub open spec fn level_prefix() -> Seq<u8> {
    seq![
        0x53u8,
        0x45,
        0x4e,
        0x54,
        0x49,
        0x4e,
        0x45,
        0x4c,
        0x5f,
        0x4c,
        0x4f,
        0x47,
        0x5f,
        0x4c,
        0x45,
        0x56,
        0x45,
        0x4c,
        0x3d,
    ]
}

/// The small letter for a letter.
pub open spec fn small(c: u8) -> u8 {
    if 0x41 <= c <= 0x5a {
        (c + 0x20) as u8
    } else {
        c
    }
}

/// The two are the same but for the size of letters, where `b` has small ones.
pub open spec fn same_letters(a: Seq<u8>, b: Seq<u8>) -> bool {
    &&& a.len() == b.len()
    &&& forall|i: int| 0 <= i < a.len() ==> small(#[trigger] a[i]) == b[i]
}

pub open spec fn word_error() -> Seq<u8> {
    seq![0x65u8, 0x72, 0x72, 0x6f, 0x72]
}

pub open spec fn word_warn() -> Seq<u8> {
    seq![0x77u8, 0x61, 0x72, 0x6e]
}

pub open spec fn word_info() -> Seq<u8> {
    seq![0x69u8, 0x6e, 0x66, 0x6f]
}

pub open spec fn word_debug() -> Seq<u8> {
    seq![0x64u8, 0x65, 0x62, 0x75, 0x67]
}

pub open spec fn word_trace() -> Seq<u8> {
    seq![0x74u8, 0x72, 0x61, 0x63, 0x65]
}

/// The level that a word stands for. Any other word stands for none.
pub open spec fn level_of(s: Seq<u8>) -> LogLevel {
    if same_letters(s, word_error()) {
        LogLevel::Error
    } else if same_letters(s, word_warn()) {
        LogLevel::Warn
    } else if same_letters(s, word_info()) {
        LogLevel::Info
    } else if same_letters(s, word_debug()) {
        LogLevel::Debug
    } else if same_letters(s, word_trace()) {
        LogLevel::Trace
    } else {
        LogLevel::Off
    }
}

/// The setting starts with the prefix.
pub open spec fn sets_level(s: Seq<u8>) -> bool {
    s.len() >= level_prefix().len() && s.take(level_prefix().len() as int) == level_prefix()
}

/// The level that the first setting of it in an environment asks for.
pub open spec fn env_level(env: Seq<String>) -> LogLevel
    decreases env.len(),
{
    if env.len() == 0 {
        LogLevel::Off
    } else {
        let s = encode_utf8(env[0]@);
        if sets_level(s) {
            level_of(s.skip(level_prefix().len() as int))
        } else {
            env_level(env.skip(1))
        }
    }
}

fn small_letter(c: u8) -> (d: u8)
    ensures
        d == small(c),
{
    if c >= 0x41 && c <= 0x5a {
        c + 0x20
    } else {
        c
    }
}

/// Whether the bytes from `at` on are those of a word, but for the size of
/// letters.
fn is_word(s: &[u8], at: usize, word: &[u8]) -> (b: bool)
    requires
        at <= s@.len(),
    ensures
        b == same_letters(s@.skip(at as int), word@),
{
    if s.len() - at != word.len() {
        return false;
    }
    let mut i: usize = 0;
    while i < word.len()
        invariant
            i <= word@.len(),
            at + word@.len() == s@.len(),
            s@.len() <= usize::MAX,
            forall|j: int| 0 <= j < i ==> small(#[trigger] s@.skip(at as int)[j]) == word@[j],
        decreases word@.len() - i,
    {
        assert(s@.skip(at as int)[i as int] == s@[at + i]);
        let n = s.len();
        if small_letter(s[at + i]) != word[i] {
            return false;
        }
        i = i + 1;
    }
    true
}

fn starts_with(s: &[u8], prefix: &[u8]) -> (b: bool)
    ensures
        b == (s@.len() >= prefix@.len() && s@.take(prefix@.len() as int) == prefix@),
{
    if s.len() < prefix.len() {
        return false;
    }
    let mut i: usize = 0;
    while i < prefix.len()
        invariant
            i <= prefix@.len() <= s@.len(),
            forall|j: int| 0 <= j < i ==> s@[j] == prefix@[j],
        decreases prefix@.len() - i,
    {
        if s[i] != prefix[i] {
            assert(s@.take(prefix@.len() as int)[i as int] != prefix@[i as int]);
            return false;
        }
        i = i + 1;
    }
    assert(s@.take(prefix@.len() as int) =~= prefix@);
    true
}

fn level_from(s: &[u8], at: usize) -> (l: LogLevel)
    requires
        at <= s@.len(),
    ensures
        l == level_of(s@.skip(at as int)),
{
    let error = [0x65u8, 0x72, 0x72, 0x6f, 0x72];
    let warn = [0x77u8, 0x61, 0x72, 0x6e];
    let info = [0x69u8, 0x6e, 0x66, 0x6f];
    let debug = [0x64u8, 0x65, 0x62, 0x75, 0x67];
    let trace = [0x74u8, 0x72, 0x61, 0x63, 0x65];
    assert(error@ =~= word_error());
    assert(warn@ =~= word_warn());
    assert(info@ =~= word_info());
    assert(debug@ =~= word_debug());
    assert(trace@ =~= word_trace());
    if is_word(s, at, error.as_slice()) {
        LogLevel::Error
    } else if is_word(s, at, warn.as_slice()) {
        LogLevel::Warn
    } else if is_word(s, at, info.as_slice()) {
        LogLevel::Info
    } else if is_word(s, at, debug.as_slice()) {
        LogLevel::Debug
    } else if is_word(s, at, trace.as_slice()) {
        LogLevel::Trace
    } else {
        LogLevel::Off
    }
}

/// The level that an environment asks for. Without a setting, or with one that
/// says nothing known, nothing is logged.
pub fn log_level(env: &Vec<String>) -> (l: LogLevel)
    ensures
        l == env_level(env@),
{
    let prefix = [
        0x53u8,
        0x45,
        0x4e,
        0x54,
        0x49,
        0x4e,
        0x45,
        0x4c,
        0x5f,
        0x4c,
        0x4f,
        0x47,
        0x5f,
        0x4c,
        0x45,
        0x56,
        0x45,
        0x4c,
        0x3d,
    ];
    assert(prefix@ =~= level_prefix());
    let mut i: usize = 0;
    assert(env@.skip(0) =~= env@);
    while i < env.len()
        invariant
            i <= env@.len(),
            prefix@ == level_prefix(),
            env_level(env@) == env_level(env@.skip(i as int)),
        decreases env@.len() - i,
    {
        let s = env[i].as_str().as_bytes();
        assert(env@.skip(i as int)[0] == env@[i as int]);
        assert(env@.skip(i as int).skip(1) =~= env@.skip(i + 1));
        if starts_with(s, prefix.as_slice()) {
            return level_from(s, prefix.len());
        }
        i = i + 1;
    }
    LogLevel::Off
}

/// The path of an entry of a directory.
pub open spec fn entry_of(dir: Seq<char>, name: Seq<char>) -> Seq<char> {
    dir + seq!['/'] + name
}

/// The path of an entry of a directory.
pub fn path_in(dir: &str, name: &str) -> (p: String)
    ensures
        p@ == entry_of(dir@, name@),
{
    let mut p = dir.to_string();
    p.append("/");
    p.append(name);
    proof {
        reveal_strlit("/");
        assert("/"@ =~= seq!['/']);
    }
    p
}

/// The paths that belong to a container.
#[derive(Debug)]
pub struct ContainerPaths {
    /// The directory for its state.
    pub dir: String,
    /// Where it waits to be started.
    pub notify: String,
    /// Where it tells that its namespaces are set up.
    pub namespaces: String,
    /// Where it tells that it has come to its end.
    pub end: String,
    /// Where it tells the number of its process.
    pub pid: String,
}

/// The paths are those that belong to the container `id`.
pub open spec fn belong_to(p: ContainerPaths, state_dir: Seq<char>, id: Seq<char>) -> bool {
    &&& p.dir@ == entry_of(state_dir, id)
    &&& p.notify@ == entry_of(p.dir@, "notify.sock"@)
    &&& p.namespaces@ == entry_of(p.dir@, "ns_notify.sock"@)
    &&& p.end@ == entry_of(p.dir@, "end.sock"@)
    &&& p.pid@ == entry_of(p.dir@, "notidy-pid.sock"@)
}

/// No two of the paths of a container are the same, all lie in its directory, and no
/// other container in the same place shares any of them.
pub proof fn paths_are_kept_apart(
    p: ContainerPaths,
    q: ContainerPaths,
    state_dir: Seq<char>,
    id: Seq<char>,
    other: Seq<char>,
)
    requires
        belong_to(p, state_dir, id),
        belong_to(q, state_dir, other),
    ensures
        p.dir@ == state_dir + seq!['/'] + id,
        p.notify@.take(p.dir@.len() as int + 1) == p.dir@ + seq!['/'],
        p.namespaces@.take(p.dir@.len() as int + 1) == p.dir@ + seq!['/'],
        p.end@.take(p.dir@.len() as int + 1) == p.dir@ + seq!['/'],
        p.pid@.take(p.dir@.len() as int + 1) == p.dir@ + seq!['/'],
        p.notify@ != p.namespaces@,
        p.notify@ != p.end@,
        p.notify@ != p.pid@,
        p.namespaces@ != p.end@,
        p.namespaces@ != p.pid@,
        p.end@ != p.pid@,
        id != other ==> p.dir@ != q.dir@ && p.notify@ != q.notify@ && p.namespaces@
            != q.namespaces@ && p.end@ != q.end@ && p.pid@ != q.pid@,
{
    reveal_strlit("notify.sock");
    reveal_strlit("ns_notify.sock");
    reveal_strlit("end.sock");
    reveal_strlit("notidy-pid.sock");
    let d = p.dir@ + seq!['/'];
    assert(p.notify@.take(d.len() as int) =~= d);
    assert(p.namespaces@.take(d.len() as int) =~= d);
    assert(p.end@.take(d.len() as int) =~= d);
    assert(p.pid@.take(d.len() as int) =~= d);
    if id.len() != other.len() {
        assert(p.dir@.len() != q.dir@.len());
        assert(p.notify@.len() != q.notify@.len());
        assert(p.namespaces@.len() != q.namespaces@.len());
        assert(p.end@.len() != q.end@.len());
        assert(p.pid@.len() != q.pid@.len());
    } else if id != other {
        let i = choose|i: int| 0 <= i < id.len() && id[i] != other[i];
        if forall|i: int| 0 <= i < id.len() ==> id[i] == other[i] {
            assert(id =~= other);
        }
        let k = state_dir.len() + 1 + i;
        assert(p.dir@[k] == id[i] && q.dir@[k] == other[i]);
        assert(p.notify@[k] == id[i] && q.notify@[k] == other[i]);
        assert(p.namespaces@[k] == id[i] && q.namespaces@[k] == other[i]);
        assert(p.end@[k] == id[i] && q.end@[k] == other[i]);
        assert(p.pid@[k] == id[i] && q.pid@[k] == other[i]);
    }
}

/// The paths that belong to the container `id`.
pub fn container_paths(state_dir: &str, id: &str) -> (p: ContainerPaths)
    ensures
        belong_to(p, state_dir@, id@),
{
    let dir = path_in(state_dir, id);
    let notify = path_in(dir.as_str(), "notify.sock");
    let namespaces = path_in(dir.as_str(), "ns_notify.sock");
    let end = path_in(dir.as_str(), "end.sock");
    let pid = path_in(dir.as_str(), "notidy-pid.sock");
    ContainerPaths { dir, notify, namespaces, end, pid }
}

/// The control group of a container.
pub open spec fn cgroup_of(given: Option<Seq<char>>, id: Seq<char>) -> Seq<char> {
    match given {
        Some(c) => c,
        None => id,
    }
}

/// Containers that are given no control group each have one of their own. One that is
/// given one has that, whatever its name.
pub proof fn cgroups_are_kept_apart(c: Seq<char>, id: Seq<char>, other: Seq<char>)
    ensures
        cgroup_of(Some(c), id) == c,
        cgroup_of(None, id) == cgroup_of(None, other) ==> id == other,
        cgroup_of(None, id) == id,
{
}

/// The control group of a container: the one that is given, or one of the name
/// of the container.
pub fn get_cgroup_path(cgroups_path: Option<&str>, container_id: &str) -> (p: String)
    ensures
        p@ == cgroup_of(
            match cgroups_path {
                Some(c) => Some(c@),
                None => None,
            },
            container_id@,
        ),
{
    match cgroups_path {
        Some(c) => c.to_string(),
        None => container_id.to_string(),
    }
}

/// A number of four bytes without a sign that stands for one with a sign.
pub open spec fn unsigned(x: i32) -> int {
    if x >= 0 {
        x as int
    } else {
        x + 0x1_0000_0000
    }
}

/// The bytes by which the number of a process is told.
pub fn pid_bytes(pid: i32) -> (v: Vec<u8>)
    ensures
        v@ == le(unsigned(pid), 4),
        v@.len() == 4,
{
    let x: u64 = if pid >= 0 {
        pid as u64
    } else {
        (pid as i64 + 0x1_0000_0000) as u64
    };
    to_le(x, 4)
}

/// The number of a process from the bytes by which it was told.
pub fn pid_from(b: &[u8; 4]) -> (pid: i32)
    ensures
        unsigned(pid) == le_value(b@),
{
    let x = from_le(b.as_slice(), 0, 4);
    proof {
        reveal_with_fuel(pow256, 5);
        assert(b@.subrange(0, 4) =~= b@);
    }
    if x < 0x8000_0000 {
        x as i32
    } else {
        (x as i64 - 0x1_0000_0000) as i32
    }
}

/// The number of a process is understood as it was told.
pub proof fn pid_is_understood(pid: i32, other: i32)
    requires
        unsigned(other) == le_value(le(unsigned(pid), 4)),
    ensures
        other == pid,
{
    reveal_with_fuel(pow256, 5);
    crate::bytes::le_gives_back(unsigned(pid), 4);
}

/// All of the bytes are decimal digits.
pub open spec fn all_digits(s: Seq<u8>) -> bool {
    forall|i: int| 0 <= i < s.len() ==> 0x30 <= #[trigger] s[i] <= 0x39
}

/// The number that decimal digits stand for.
pub open spec fn digits_value(s: Seq<u8>) -> int
    decreases s.len(),
{
    if s.len() == 0 {
        0
    } else {
        10 * digits_value(s.drop_last()) + (s.last() - 0x30)
    }
}

/// The text starts with a sign.
pub open spec fn has_sign(s: Seq<u8>) -> bool {
    s.len() > 0 && (s[0] == 0x2b || s[0] == 0x2d)
}

/// The number of a process that a text stands for: digits, with or without a sign
/// before them, and nothing else.
pub open spec fn pid_named(s: Seq<u8>) -> Option<i32> {
    let digits = if has_sign(s) {
        s.skip(1)
    } else {
        s
    };
    let n = if s.len() > 0 && s[0] == 0x2d {
        -digits_value(digits)
    } else {
        digits_value(digits)
    };
    if digits.len() > 0 && all_digits(digits) && i32::MIN <= n <= i32::MAX {
        Some(n as i32)
    } else {
        None
    }
}

/// More digits make no smaller number.
proof fn lemma_digits_grow(s: Seq<u8>, i: int)
    requires
        all_digits(s),
        0 <= i <= s.len(),
    ensures
        0 <= digits_value(s.take(i)) <= digits_value(s),
    decreases s.len(),
{
    if i == s.len() {
        assert(s.take(i) =~= s);
        if i > 0 {
            lemma_digits_grow(s.drop_last(), i - 1);
        }
    } else {
        let t = s.drop_last();
        lemma_digits_grow(t, i);
        assert(t.take(i) =~= s.take(i));
    }
}

/// The number of a process that a text stands for.
pub fn pid_in_text(text: &str) -> (pid: Option<i32>)
    ensures
        pid == pid_named(encode_utf8(text@)),
{
    let s = text.as_bytes();
    let n = s.len();
    let negative = n > 0 && s[0] == 0x2d;
    let first: usize = if n > 0 && (s[0] == 0x2b || s[0] == 0x2d) {
        1
    } else {
        0
    };
    if first == n {
        return None;
    }
    let ghost digits = if has_sign(s@) {
        s@.skip(1)
    } else {
        s@
    };
    let mut x: i64 = 0;
    let mut i: usize = first;
    assert(digits.take(0) =~= Seq::<u8>::empty());
    while i < n
        invariant
            first <= i <= n,
            first <= 1,
            n == s@.len(),
            digits.len() == n - first,
            forall|j: int| 0 <= j < digits.len() ==> digits[j] == s@[first + j],
            forall|j: int| 0 <= j < i - first ==> 0x30 <= #[trigger] digits[j] <= 0x39,
            x == digits_value(digits.take(i - first)),
            0 <= x <= 0x8000_0000,
            digits == (if has_sign(s@) {
                s@.skip(1)
            } else {
                s@
            }),
            s@ == encode_utf8(text@),
        decreases n - i,
    {
        let c = s[i];
        assert(digits[i - first] == c);
        if c < 0x30 || c > 0x39 {
            return None;
        }
        x = 10 * x + (c - 0x30) as i64;
        proof {
            let t = digits.take(i - first + 1);
            assert(t.drop_last() =~= digits.take(i - first));
            assert(t.last() == c);
        }
        i = i + 1;
        if x > 0x8000_0000 {
            proof {
                if all_digits(digits) {
                    lemma_digits_grow(digits, i - first);
                }
            }
            return None;
        }
    }
    assert(digits.take(i - first) =~= digits);
    assert(all_digits(digits));
    if negative {
        Some((0 - x) as i32)
    } else if x > 0x7fff_ffff {
        None
    } else {
        Some(x as i32)
    }
}

} // verus!
