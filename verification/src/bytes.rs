use vstd::prelude::*;

verus! {

/// The number of values of `n` bytes.
pub open spec fn pow256(n: nat) -> int
    decreases n,
{
    if n == 0 {
        1
    } else {
        256 * pow256((n - 1) as nat)
    }
}

/// The number that bytes stand for, the lowest one first.
pub open spec fn le_value(s: Seq<u8>) -> int
    decreases s.len(),
{
    if s.len() == 0 {
        0
    } else {
        s[0] + 256 * le_value(s.skip(1))
    }
}

/// The `n` lowest bytes of a number, the lowest one first.
pub open spec fn le(x: int, n: nat) -> Seq<u8>
    decreases n,
{
    if n == 0 {
        Seq::empty()
    } else {
        seq![(x % 256) as u8] + le(x / 256, (n - 1) as nat)
    }
}

/// The number that bytes stand for, the highest one first.
pub open spec fn be_value(s: Seq<u8>) -> int {
    le_value(s.reverse())
}

/// The `n` lowest bytes of a number, the highest one first.
pub open spec fn be(x: int, n: nat) -> Seq<u8> {
    le(x, n).reverse()
}

proof fn lemma_pow256_grows(m: nat, n: nat)
    requires
        m <= n,
    ensures
        0 < pow256(m) <= pow256(n),
    decreases n,
{
    if n > 0 && m < n {
        lemma_pow256_grows(m, (n - 1) as nat);
    } else if n > 0 {
        lemma_pow256_grows((m - 1) as nat, (n - 1) as nat);
    }
}

proof fn lemma_pow256_eight()
    ensures
        pow256(8) == 0x1_0000_0000_0000_0000,
{
    reveal_with_fuel(pow256, 9);
}

pub proof fn lemma_le_len(x: int, n: nat)
    ensures
        le(x, n).len() == n,
    decreases n,
{
    if n > 0 {
        lemma_le_len(x / 256, (n - 1) as nat);
    }
}

/// Reading the bytes of a number gives the number.
pub proof fn le_gives_back(x: int, n: nat)
    requires
        0 <= x < pow256(n),
    ensures
        le_value(le(x, n)) == x,
        le(x, n).len() == n,
    decreases n,
{
    lemma_le_len(x, n);
    if n > 0 {
        le_gives_back(x / 256, (n - 1) as nat);
        assert(le(x, n).skip(1) =~= le(x / 256, (n - 1) as nat));
    }
}

/// Reading the bytes of a number gives the number, in the other order as well.
pub proof fn be_gives_back(x: int, n: nat)
    requires
        0 <= x < pow256(n),
    ensures
        be_value(be(x, n)) == x,
{
    le_gives_back(x, n);
    assert(be(x, n).reverse() =~= le(x, n));
}

/// The `n` lowest bytes of `x`, the lowest one first.
pub fn to_le(x: u64, n: usize) -> (v: Vec<u8>)
    ensures
        v@ == le(x as int, n as nat),
        v@.len() == n,
{
    let mut v: Vec<u8> = Vec::new();
    let mut rest = x;
    let mut i: usize = 0;
    assert(Seq::<u8>::empty() + le(x as int, n as nat) =~= le(x as int, n as nat));
    while i < n
        invariant
            i <= n,
            v@ + le(rest as int, (n - i) as nat) == le(x as int, n as nat),
        decreases n - i,
    {
        let ghost before = v@;
        let ghost tail = le(rest as int / 256, (n - i - 1) as nat);
        v.push((rest % 256) as u8);
        assert(v@ + tail =~= before + (seq![(rest as int % 256) as u8] + tail));
        rest = rest / 256;
        i = i + 1;
    }
    proof {
        lemma_le_len(x as int, n as nat);
    }
    assert(v@ + le(rest as int, 0) =~= v@);
    v
}

/// The number that the `n` bytes from `at` on stand for, the lowest one first.
pub fn from_le(s: &[u8], at: usize, n: usize) -> (x: u64)
    requires
        n <= 8,
        at + n <= s@.len(),
    ensures
        x == le_value(s@.subrange(at as int, at + n)),
        x < pow256(n as nat),
{
    let len = s.len();
    let mut x: u64 = 0;
    let mut i: usize = n;
    assert(s@.subrange(at + i, at + n) =~= Seq::<u8>::empty());
    while i > 0
        invariant
            i <= n <= 8,
            len == s@.len(),
            at + n <= len,
            x == le_value(s@.subrange(at + i, at + n)),
            x < pow256((n - i) as nat),
        decreases i,
    {
        i = i - 1;
        proof {
            lemma_pow256_grows((n - i) as nat, 8);
            lemma_pow256_eight();
            assert(s@.subrange(at + i, at + n).skip(1) =~= s@.subrange(at + i + 1, at + n));
        }
        x = x * 256 + s[at + i] as u64;
    }
    x
}

/// The two bytes of `x`, the higher one first.
pub fn to_be16(x: u16) -> (b: [u8; 2])
    ensures
        b@ == be(x as int, 2),
        x == b[0] * 256 + b[1],
{
    let b = [(x / 256) as u8, (x % 256) as u8];
    proof {
        reveal_with_fuel(le, 3);
        assert(b@ =~= be(x as int, 2));
    }
    b
}

/// The number that two bytes stand for, the higher one first.
pub fn from_be16(hi: u8, lo: u8) -> (x: u16)
    ensures
        x == hi * 256 + lo,
        x == be_value(seq![hi, lo]),
{
    proof {
        reveal_with_fuel(le_value, 3);
        let r = seq![hi, lo].reverse();
        assert(r =~= seq![lo, hi]);
        assert(r.skip(1) =~= seq![hi]);
        assert(r.skip(1).skip(1) =~= Seq::<u8>::empty());
    }
    hi as u16 * 256 + lo as u16
}

} // verus!
