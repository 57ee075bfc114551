use vstd::prelude::*;

verus! {

/// A stretch of host memory.
#[derive(Debug, Clone, Copy, PartialEq, Eq, Structural)]
pub struct Block {
    pub addr: u64,
    pub len: u64,
}

/// A sequence of stretches of host memory, taken as one run of bytes.
#[derive(Debug)]
pub struct BlockSeq {
    blocks: Vec<Block>,
}

/// The addresses of the bytes of a block, in order.
pub open spec fn block_bytes(b: Block) -> Seq<int> {
    Seq::new(b.len as nat, |i: int| b.addr + i)
}

/// The addresses of the bytes of all blocks, in order.
pub open spec fn flat(bs: Seq<Block>) -> Seq<int>
    decreases bs.len(),
{
    if bs.len() == 0 {
        Seq::empty()
    } else {
        flat(bs.drop_last()) + block_bytes(bs.last())
    }
}

/// No block is empty, and none runs past the last address.
pub open spec fn wf_blocks(bs: Seq<Block>) -> bool {
    forall|i: int|
        0 <= i < bs.len() ==> (#[trigger] bs[i]).len > 0 && bs[i].addr + bs[i].len <= u64::MAX
}

impl View for BlockSeq {
    type V = Seq<Block>;

    closed spec fn view(&self) -> Seq<Block> {
        self.blocks@
    }
}

pub proof fn lemma_flat_push(bs: Seq<Block>, b: Block)
    ensures
        flat(bs.push(b)) == flat(bs) + block_bytes(b),
{
    assert(bs.push(b).drop_last() =~= bs);
}

pub proof fn lemma_flat_add(a: Seq<Block>, b: Seq<Block>)
    ensures
        flat(a + b) == flat(a) + flat(b),
    decreases b.len(),
{
    if b.len() == 0 {
        assert(a + b =~= a);
        assert(flat(a) + flat(b) =~= flat(a));
    } else {
        lemma_flat_add(a, b.drop_last());
        assert((a + b).drop_last() =~= a + b.drop_last());
        assert((a + b).last() == b.last());
        assert(flat(a) + flat(b) =~= flat(a + b));
    }
}

/// Taking one block more adds its bytes.
proof fn lemma_flat_take(bs: Seq<Block>, i: int)
    requires
        0 <= i < bs.len(),
    ensures
        flat(bs.take(i + 1)) == flat(bs.take(i)) + block_bytes(bs[i]),
        flat(bs) == flat(bs.take(i)) + flat(bs.skip(i)),
{
    assert(bs.take(i + 1).drop_last() =~= bs.take(i));
    assert(bs.take(i) + bs.skip(i) =~= bs);
    lemma_flat_add(bs.take(i), bs.skip(i));
}

impl BlockSeq {
    #[verifier::type_invariant]
    spec fn inv(&self) -> bool {
        wf_blocks(self.blocks@)
    }

    pub fn new() -> (s: Self)
        ensures
            s@ == Seq::<Block>::empty(),
    {
        BlockSeq { blocks: Vec::new() }
    }

    pub fn from_blocks(blocks: Vec<Block>) -> (s: Self)
        requires
            wf_blocks(blocks@),
        ensures
            s@ == blocks@,
    {
        BlockSeq { blocks }
    }

    pub fn is_empty(&self) -> (b: bool)
        ensures
            b == (self@.len() == 0),
            b == (flat(self@).len() == 0),
    {
        proof {
            use_type_invariant(self);
            if self@.len() > 0 {
                assert(self@.last().len > 0);
            }
        }
        self.blocks.len() == 0
    }

    pub fn duplicate(&self) -> (s: Self)
        ensures
            s@ == self@,
    {
        proof {
            use_type_invariant(self);
        }
        let mut blocks: Vec<Block> = Vec::new();
        let mut i: usize = 0;
        while i < self.blocks.len()
            invariant
                i <= self.blocks@.len(),
                blocks@ == self.blocks@.take(i as int),
            decreases self.blocks@.len() - i,
        {
            blocks.push(self.blocks[i]);
            assert(self.blocks@.take(i + 1) =~= self.blocks@.take(i as int).push(
                self.blocks@[i as int],
            ));
            i = i + 1;
        }
        assert(self.blocks@.take(i as int) =~= self.blocks@);
        BlockSeq { blocks }
    }

    pub fn len(&self) -> (n: usize)
        ensures
            n == self@.len(),
            wf_blocks(self@),
    {
        proof {
            use_type_invariant(self);
        }
        self.blocks.len()
    }

    pub fn block(&self, i: usize) -> (b: Block)
        requires
            i < self@.len(),
        ensures
            b == self@[i as int],
    {
        self.blocks[i]
    }

    /// The first `n` bytes, or all of them where there are fewer.
    pub fn take_first64(&self, n: u64) -> (s: Self)
        ensures
            flat(s@) == (if n <= flat(self@).len() {
                flat(self@).take(n as int)
            } else {
                flat(self@)
            }),
    {
        let mut blocks: Vec<Block> = Vec::new();
        let mut rem = n;
        let mut i: usize = 0;
        let ghost bs = self.blocks@;
        proof {
            use_type_invariant(self);
            assert(bs.take(0) =~= Seq::<Block>::empty());
        }
        while i < self.blocks.len()
            invariant
                i <= bs.len(),
                bs == self.blocks@,
                wf_blocks(bs),
                wf_blocks(blocks@),
                flat(blocks@) == flat(bs.take(i as int)),
                rem == n - flat(bs.take(i as int)).len(),
            decreases bs.len() - i,
        {
            let b = self.blocks[i];
            proof {
                lemma_flat_take(bs, i as int);
                lemma_flat_take(bs, i as int);
            }
            if b.len >= rem {
                if rem > 0 {
                    let c = Block { addr: b.addr, len: rem };
                    proof {
                        lemma_flat_push(blocks@, c);
                    }
                    blocks.push(c);
                }
                proof {
                    let rest = bs.skip(i as int);
                    assert(rest.skip(1) =~= bs.skip(i + 1));
                    assert(rest =~= seq![b] + bs.skip(i + 1));
                    lemma_flat_add(seq![b], bs.skip(i + 1));
                    assert(seq![b] =~= Seq::<Block>::empty().push(b));
                    lemma_flat_push(Seq::<Block>::empty(), b);
                    assert(flat(seq![b]) =~= block_bytes(b));
                    assert(flat(blocks@) =~= flat(bs).take(n as int));
                }
                return BlockSeq { blocks };
            }
            proof {
                lemma_flat_push(blocks@, b);
            }
            blocks.push(b);
            rem = rem - b.len;
            i = i + 1;
        }
        proof {
            assert(bs.take(i as int) =~= bs);
            if n <= flat(bs).len() {
                assert(flat(bs).take(n as int) =~= flat(bs));
            }
        }
        BlockSeq { blocks }
    }

    /// What is left past the first `n` bytes.
    pub fn cut_first(&self, n: u64) -> (s: Self)
        ensures
            flat(s@) == (if n <= flat(self@).len() {
                flat(self@).skip(n as int)
            } else {
                Seq::empty()
            }),
    {
        let mut rem = n;
        let mut i: usize = 0;
        let ghost bs = self.blocks@;
        proof {
            use_type_invariant(self);
            assert(bs.take(0) =~= Seq::<Block>::empty());
        }
        while i < self.blocks.len() && self.blocks[i].len <= rem
            invariant
                i <= bs.len(),
                bs == self.blocks@,
                wf_blocks(bs),
                rem == n - flat(bs.take(i as int)).len(),
            decreases bs.len() - i,
        {
            proof {
                lemma_flat_take(bs, i as int);
            }
            rem = rem - self.blocks[i].len;
            i = i + 1;
        }
        let mut blocks: Vec<Block> = Vec::new();
        if i < self.blocks.len() {
            let b = self.blocks[i];
            let c = Block { addr: b.addr + rem, len: b.len - rem };
            blocks.push(c);
            let mut j: usize = i + 1;
            let ghost head = seq![c];
            assert(blocks@ =~= head + bs.subrange(i + 1, i + 1));
            while j < self.blocks.len()
                invariant
                    i < j <= bs.len(),
                    bs == self.blocks@,
                    wf_blocks(bs),
                    head == seq![c],
                    blocks@ == head + bs.subrange(i + 1, j as int),
                decreases bs.len() - j,
            {
                blocks.push(self.blocks[j]);
                assert(blocks@ =~= head + bs.subrange(i + 1, j + 1));
                j = j + 1;
            }
            proof {
                assert(bs.subrange(i + 1, j as int) =~= bs.skip(i + 1));
                lemma_flat_add(head, bs.skip(i + 1));
                lemma_flat_take(bs, i as int);
                assert(bs.skip(i as int) =~= seq![b] + bs.skip(i + 1));
                lemma_flat_add(seq![b], bs.skip(i + 1));
                assert(seq![b] =~= Seq::<Block>::empty().push(b));
                lemma_flat_push(Seq::<Block>::empty(), b);
                assert(flat(seq![b]) =~= block_bytes(b));
                assert(head =~= Seq::<Block>::empty().push(c));
                lemma_flat_push(Seq::<Block>::empty(), c);
                assert(flat(head) =~= block_bytes(c));
                assert(flat(blocks@) =~= flat(bs).skip(n as int));
                assert(wf_blocks(blocks@)) by {
                    assert forall|k: int| 0 <= k < blocks@.len() implies (#[trigger] blocks@[k]).len
                        > 0 && blocks@[k].addr + blocks@[k].len <= u64::MAX by {
                        if k > 0 {
                            assert(blocks@[k] == bs[i + k]);
                        } else {
                            assert(blocks@[0] == c);
                            assert(bs[i as int] == b);
                        }
                    }
                }
            }
        } else {
            proof {
                assert(bs.take(i as int) =~= bs);
                if n <= flat(bs).len() {
                    assert(flat(bs).skip(n as int) =~= Seq::<int>::empty());
                }
            }
        }
        BlockSeq { blocks }
    }
}

} // verus!
