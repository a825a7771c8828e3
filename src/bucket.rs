use vstd::prelude::*;
use crate::block::Block;
use crate::error::OramError;

verus! {

/// The real blocks of `s`, in their order.
pub open spec fn reals(s: Seq<Block>) -> Seq<Block>
    decreases s.len(),
{
    if s.len() == 0 {
        Seq::empty()
    } else if s.last().is_dummy() {
        reals(s.drop_last())
    } else {
        reals(s.drop_last()).push(s.last())
    }
}

/// `n` dummy slots.
pub open spec fn dummies(n: nat) -> Seq<Block> {
    Seq::new(n, |i: int| Block { block_id: 0, data: 0 })
}

/// A fixed number of block slots held at one node of the tree.
///
/// Slots are addressed by position, so several dummy slots can coexist.
#[derive(Clone, Debug)]
pub struct Bucket {
    pub blocks: Vec<Block>,
    pub capacity: usize,
}

impl Bucket {
    /// Every slot is present: the bucket holds exactly `capacity` slots.
    pub open spec fn wf(&self) -> bool {
        self.blocks@.len() == self.capacity
    }

    /// Creates a bucket of `capacity` dummy slots.
    pub fn new(capacity: usize) -> (r: Bucket)
        ensures
            r.capacity == capacity,
            r.blocks@ == dummies(capacity as nat),
            r.wf(),
    {
        let mut blocks: Vec<Block> = Vec::with_capacity(capacity);
        let mut i: usize = 0;
        while i < capacity
            invariant
                i <= capacity,
                blocks@ == dummies(i as nat),
            decreases capacity - i,
        {
            blocks.push(Block::dummy());
            i = i + 1;
            assert(blocks@ =~= dummies(i as nat));
        }
        Bucket { blocks, capacity }
    }

    /// Appends a block; when the bucket is already full its oldest slot
    /// makes room. A bucket of capacity zero stays empty.
    pub fn add_block(&mut self, block: Block)
        ensures
            final(self).capacity == old(self).capacity,
            old(self).capacity == 0 ==> final(self).blocks@ == old(self).blocks@,
            old(self).capacity > 0 && old(self).blocks@.len() >= old(self).capacity ==>
                final(self).blocks@ == old(self).blocks@.drop_first().push(block),
            old(self).capacity > 0 && old(self).blocks@.len() < old(self).capacity ==>
                final(self).blocks@ == old(self).blocks@.push(block),
    {
        if self.capacity == 0 {
            return;
        }
        if self.blocks.len() >= self.capacity {
            self.blocks.remove(0);
        }
        self.blocks.push(block);
    }

    /// The first slot that holds `block_id`, if any.
    pub fn get_block(&self, block_id: u32) -> (r: Option<&Block>)
        ensures
            r is None ==> forall|i: int| 0 <= i < self.blocks@.len() ==> self.blocks@[i].block_id != block_id,
            r matches Some(b) ==> exists|i: int|
                0 <= i < self.blocks@.len() && self.blocks@[i] == *b && b.block_id == block_id
                && forall|j: int| 0 <= j < i ==> self.blocks@[j].block_id != block_id,
    {
        let mut i: usize = 0;
        while i < self.blocks.len()
            invariant
                i <= self.blocks@.len(),
                forall|j: int| 0 <= j < i ==> self.blocks@[j].block_id != block_id,
            decreases self.blocks@.len() - i,
        {
            if self.blocks[i].block_id == block_id {
                return Some(&self.blocks[i]);
            }
            i = i + 1;
        }
        None
    }

    /// A copy of every slot, in slot order.
    pub fn get_all_blocks(&self) -> (r: Vec<Block>)
        ensures
            r@ == self.blocks@,
    {
        let mut r: Vec<Block> = Vec::with_capacity(self.blocks.len());
        let mut i: usize = 0;
        while i < self.blocks.len()
            invariant
                i <= self.blocks@.len(),
                r@ == self.blocks@.subrange(0, i as int),
            decreases self.blocks@.len() - i,
        {
            r.push(self.blocks[i]);
            i = i + 1;
            assert(r@ =~= self.blocks@.subrange(0, i as int));
        }
        assert(r@ =~= self.blocks@);
        r
    }

    /// Overwrites every slot: the real blocks of `new_blocks` in order, then
    /// dummies up to the capacity. More real blocks than the capacity is a
    /// configuration error, and the bucket is left as it was.
    pub fn replace_blocks(&mut self, new_blocks: Vec<Block>) -> (r: Result<(), OramError>)
        ensures
            final(self).capacity == old(self).capacity,
            reals(new_blocks@).len() > old(self).capacity ==> r == Err::<(), OramError>(
                OramError::InvalidConfiguration,
            ) && final(self).blocks@ == old(self).blocks@,
            reals(new_blocks@).len() <= old(self).capacity ==> r is Ok && final(self).blocks@
                == reals(new_blocks@) + dummies((old(self).capacity - reals(new_blocks@).len()) as nat),
            r is Ok ==> final(self).wf(),
    {
        let mut kept: Vec<Block> = Vec::with_capacity(self.capacity);
        let mut i: usize = 0;
        while i < new_blocks.len()
            invariant
                i <= new_blocks@.len(),
                kept@ == reals(new_blocks@.subrange(0, i as int)),
                kept@.len() <= self.capacity,
            decreases new_blocks@.len() - i,
        {
            assert(new_blocks@.subrange(0, i + 1).drop_last() =~= new_blocks@.subrange(0, i as int));
            if new_blocks[i].block_id != 0 {
                if kept.len() >= self.capacity {
                    proof {
                        lemma_reals_prefix_len(new_blocks@, i as int + 1);
                    }
                    return Err(OramError::InvalidConfiguration);
                }
                kept.push(new_blocks[i]);
            }
            i = i + 1;
        }
        assert(new_blocks@.subrange(0, i as int) =~= new_blocks@);
        let ghost n = kept@.len();
        while kept.len() < self.capacity
            invariant
                n <= kept@.len() <= self.capacity,
                kept@ == reals(new_blocks@) + dummies((kept@.len() - n) as nat),
            decreases self.capacity - kept@.len(),
        {
            kept.push(Block::dummy());
            assert(kept@ =~= reals(new_blocks@) + dummies((kept@.len() - n) as nat));
        }
        self.blocks = kept;
        Ok(())
    }
}

/// A prefix has no more real blocks than the whole sequence.
proof fn lemma_reals_prefix_len(s: Seq<Block>, k: int)
    requires
        0 <= k <= s.len(),
    ensures
        reals(s.subrange(0, k)).len() <= reals(s).len(),
    decreases s.len() - k,
{
    if k < s.len() {
        lemma_reals_prefix_len(s, k + 1);
        assert(s.subrange(0, k + 1).drop_last() =~= s.subrange(0, k));
    } else {
        assert(s.subrange(0, k) =~= s);
    }
}

} // verus!
