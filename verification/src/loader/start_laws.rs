use vstd::prelude::*;
use vstd::utf8::decode_utf8;

use crate::addr::Addr;
use crate::loader::auxv::{extended, program_auxv, starts_with, with_surroundings, Surroundings};
use crate::loader::place::LoadedElf;
use crate::loader::script::{
    argument, interpreter, interpreter_args, is_blank, lemma_first_line, lemma_trimmed,
    lemma_word_length, script_error,
};

verus! {

/// A program is told where its headers are, how large and how many they are, where it
/// starts, and where its interpreter is.
pub proof fn program_is_told_of_itself(bin: LoadedElf, base: Addr)
    ensures
        ({
            let m = program_auxv(bin, base);
            &&& m.contains_key(3) && m[3] == bin.phdr_addr
            &&& m.contains_key(4) && m[4].0 == bin.phdr_size
            &&& m.contains_key(5) && m[5].0 == bin.phdr_num
            &&& m.contains_key(7) && m[7] == base
            &&& m.contains_key(9) && m[9].0 == bin.entry
            &&& forall|k: u64| #[trigger]
                m.contains_key(k) ==> k == 3 || k == 4 || k == 5 || k == 7 || k == 9
        }),
{
}

/// The interpreter of a program runs first, and is told where the program starts and where
/// it is itself. A program without one runs itself, and is told of none.
pub proof fn interpreter_runs_first(
    bin: LoadedElf,
    interp: Option<LoadedElf>,
    entry: u64,
    m: Map<u64, Addr>,
)
    requires
        starts_with(bin, interp, entry, m),
    ensures
        interp matches Some(i) ==> entry == i.entry && m[7] == i.start,
        interp is None ==> entry == bin.entry && m[7].0 == 0,
        m[9].0 == bin.entry,
        m[3] == bin.phdr_addr,
        m[5].0 == bin.phdr_num,
{
}

/// A program is told who runs it, how large pages are, how fast the clock ticks and where
/// its parts are, besides what it was told before.
pub proof fn program_is_told_of_its_surroundings(m: Map<u64, Addr>, s: Surroundings)
    ensures
        ({
            let n = with_surroundings(m, s);
            &&& n.contains_key(6) && n[6].0 == 4096
            &&& n.contains_key(11) && n[11].0 == s.uid
            &&& n.contains_key(12) && n[12].0 == s.euid
            &&& n.contains_key(13) && n[13].0 == s.gid
            &&& n.contains_key(14) && n[14].0 == s.egid
            &&& n.contains_key(17) && n[17].0 == 100
            &&& n.contains_key(23) && n[23].0 == 0
            &&& n.contains_key(25) && n[25] == s.random
            &&& n.contains_key(31) && n[31] == s.execfn
            &&& n.contains_key(33) && n[33] == s.vdso
            &&& forall|k: u64|
                k != 6 && !(11 <= k <= 14) && k != 17 && k != 23 && k != 25 && k != 31 && k != 33
                    ==> #[trigger] n.contains_key(k) == m.contains_key(k) && (m.contains_key(k)
                    ==> n[k] == m[k])
        }),
{
}

/// Of further entries with the same key the last counts, and the other keys keep their
/// values.
pub proof fn further_entries_count(m: Map<u64, Addr>, extra: Seq<(u64, Addr)>, k: u64)
    ensures
        (forall|i: int| 0 <= i < extra.len() ==> (#[trigger] extra[i]).0 != k) ==> extended(
            m,
            extra,
        ).contains_key(k) == m.contains_key(k) && extended(m, extra)[k] == m[k],
        forall|i: int|
            0 <= i < extra.len() && (#[trigger] extra[i]).0 == k && (forall|j: int|
                i < j < extra.len() ==> (#[trigger] extra[j]).0 != k) ==> extended(
                m,
                extra,
            ).contains_key(k) && extended(m, extra)[k] == extra[i].1,
    decreases extra.len(),
{
    if extra.len() > 0 {
        let t = extra.drop_last();
        further_entries_count(m, t, k);
        let last = extra.len() - 1;
        assert(extra[last] == extra.last());
        if extra.last().0 != k {
            assert forall|i: int| 0 <= i < t.len() implies #[trigger] t[i] == extra[i] by {}
            if forall|i: int| 0 <= i < extra.len() ==> (#[trigger] extra[i]).0 != k {
                assert forall|i: int| 0 <= i < t.len() implies (#[trigger] t[i]).0 != k by {
                    assert(extra[i].0 != k);
                }
            }
            assert forall|i: int|
                0 <= i < extra.len() && (#[trigger] extra[i]).0 == k && (forall|j: int|
                    i < j < extra.len() ==> (#[trigger] extra[j]).0 != k) implies extended(
                m,
                extra,
            ).contains_key(k) && extended(m, extra)[k] == extra[i].1 by {
                assert(t[i].0 == k);
                assert forall|j: int| i < j < t.len() implies (#[trigger] t[j]).0 != k by {
                    assert(extra[j].0 != k);
                }
            }
        } else {
            assert forall|i: int|
                0 <= i < extra.len() && (#[trigger] extra[i]).0 == k && (forall|j: int|
                    i < j < extra.len() ==> (#[trigger] extra[j]).0 != k) implies i == last by {
                if i < last {
                    assert(extra[last].0 != k);
                }
            }
        }
    }
}

/// A word of a line.
pub open spec fn is_word(w: Seq<u8>) -> bool {
    w.len() > 0 && forall|i: int|
        0 <= i < w.len() ==> !is_blank(#[trigger] w[i]) && w[i] != 0x0a
}

/// Blanks and nothing else.
pub open spec fn are_blanks(s: Seq<u8>) -> bool {
    forall|i: int| 0 <= i < s.len() ==> (#[trigger] s[i] == 0x20 || s[i] == 0x09)
}

/// The rest of a line after a word, if there is any.
pub open spec fn is_rest(s: Seq<u8>) -> bool {
    (s.len() > 0 ==> s[0] == 0x20 || s[0] == 0x09) && forall|i: int|
        0 <= i < s.len() ==> #[trigger] s[i] != 0x0a
}

/// The interpreter of a script is the first word of its first line after `#!`, and what
/// follows on that line is its argument. What comes after that line does not matter.
pub proof fn script_names_its_interpreter(
    blanks: Seq<u8>,
    word: Seq<u8>,
    rest: Seq<u8>,
    more: Seq<u8>,
)
    requires
        are_blanks(blanks),
        is_word(word),
        is_rest(rest),
        more.len() > 0 ==> more[0] == 0x0a,
    ensures
        ({
            let s = seq![0x23u8, 0x21u8] + blanks + word + rest + more;
            &&& interpreter(s) == word
            &&& argument(s) == rest
            &&& script_error(s) is None || script_error(s) == Some(22i32)
        }),
{
    let s = seq![0x23u8, 0x21u8] + blanks + word + rest + more;
    let t = s.skip(2);
    let line = blanks + word + rest;
    assert(t =~= line + more);
    assert forall|j: int| 0 <= j < line.len() implies t[j] != 0x0a by {
        if j < blanks.len() {
            assert(t[j] == blanks[j]);
        } else if j < blanks.len() + word.len() {
            assert(t[j] == word[j - blanks.len()]);
        } else {
            assert(t[j] == rest[j - blanks.len() - word.len()]);
        }
    }
    lemma_first_line(t, line.len() as int);
    assert(t.take(line.len() as int) =~= line);
    assert forall|j: int| 0 <= j < blanks.len() implies is_blank(#[trigger] line[j]) by {
        assert(line[j] == blanks[j]);
    }
    assert(line[blanks.len() as int] == word[0]);
    lemma_trimmed(line, blanks.len() as int);
    let c = word + rest;
    assert(line.skip(blanks.len() as int) =~= c);
    assert forall|j: int| 0 <= j < word.len() implies !is_blank(#[trigger] c[j]) by {
        assert(c[j] == word[j]);
    }
    if rest.len() > 0 {
        assert(c[word.len() as int] == rest[0]);
    }
    lemma_word_length(c, word.len() as int);
    assert(interpreter(s) =~= word);
    assert(argument(s) =~= rest);
    assert(s.take(2) =~= seq![0x23u8, 0x21u8]);
}

/// What does not start with `#!` is no script.
pub proof fn other_files_are_no_scripts(s: Seq<u8>)
    requires
        s.len() >= 2,
        s[0] != 0x23 || s[1] != 0x21,
    ensures
        script_error(s) == Some(8i32),
{
    assert(s.take(2)[0] == s[0] && s.take(2)[1] == s[1]);
    let m = seq![0x23u8, 0x21u8];
    assert(m[0] == 0x23 && m[1] == 0x21);
}

/// An interpreter is called by its own name, with its argument if it has one, the name
/// of the script, and the arguments of the script but for the name that it was called by.
pub proof fn interpreter_is_given_the_script(s: Seq<u8>, name: Seq<char>, argv: Seq<Seq<char>>)
    ensures
        ({
            let args = interpreter_args(s, name, argv);
            let n: int = if argument(s).len() > 0 {
                2
            } else {
                1
            };
            &&& args[0] == decode_utf8(interpreter(s))
            &&& n == 2 ==> args[1] == decode_utf8(argument(s))
            &&& args[n] == name
            &&& args.len() == n + (if argv.len() > 0 {
                argv.len() as int
            } else {
                1
            })
            &&& forall|i: int| 0 < i < argv.len() ==> args[n + i] == #[trigger] argv[i]
        }),
{
}

} // verus!
