use vstd::prelude::*;
use vstd::arithmetic::power2::pow2;
use crate::block::Block;
use crate::bucket::{Bucket, reals, dummies};
use crate::error::OramError;
use crate::tree_index::{
    MAX_HEIGHT, bucket_index, bucket_index_exec, is_height_for, lemma_index_range,
    lemma_levels_differ, tree_height_for, tree_size,
};

verus! {

/// Path ORAM over blocks `1..=num_blocks`.
///
/// Every real block lives either in the stash or in one bucket on the path
/// from the root to the leaf that the position map gives it. The ghost
/// `contents` is what the store holds, block id to payload.
pub struct PathORAM {
    /// Buckets in heap order: the root is 0, the children of `i` are `2i+1`, `2i+2`.
    pub tree: Vec<Bucket>,
    /// Leaf of each block, indexed by block id; entry 0 is unused.
    pub position_map: Vec<u32>,
    /// Blocks that could not yet be written back, oldest first.
    pub stash: Vec<Block>,
    /// Slots per bucket.
    pub capacity: usize,
    /// Levels below the root.
    pub tree_height: u32,
    /// Number of real blocks.
    pub num_blocks: u32,
    /// Payload of each block placed so far.
    pub contents: Ghost<Map<u32, u32>>,
}

/// The most blocks an ORAM holds: `2^31`, so that leaves fit in a `u32`.
pub const MAX_BLOCKS: u32 = 0x8000_0000;

/// Which operation an access performs.
#[derive(Clone, Copy, Debug, PartialEq, Eq, Structural)]
pub enum Op {
    Read,
    Write,
}

impl PathORAM {
    pub open spec fn view(&self) -> Map<u32, u32> {
        self.contents@
    }

    pub open spec fn slot(&self, b: int, s: int) -> Block {
        self.tree@[b].blocks@[s]
    }

    pub open spec fn valid_slot(&self, b: int, s: int) -> bool {
        0 <= b < self.tree@.len() && 0 <= s < self.tree@[b].blocks@.len()
    }

    pub open spec fn leaf_of(&self, id: u32) -> u32 {
        self.position_map@[id as int]
    }

    pub open spec fn num_leaves(&self) -> nat {
        pow2(self.tree_height as nat)
    }

    /// Bucket `b` lies on the path from the root to `leaf`.
    pub open spec fn on_path(&self, b: int, leaf: u32) -> bool {
        exists|lvl: int|
            0 <= lvl <= self.tree_height && b == #[trigger] bucket_index(
                leaf as int,
                lvl,
                self.tree_height as int,
            )
    }

    pub open spec fn is_block_id(&self, id: u32) -> bool {
        1 <= id <= self.num_blocks
    }

    pub open spec fn in_stash(&self, id: u32) -> bool {
        exists|i: int| 0 <= i < self.stash@.len() && #[trigger] self.stash@[i].block_id == id
    }

    pub open spec fn in_tree(&self, id: u32) -> bool {
        exists|b: int, s: int| #[trigger] self.valid_slot(b, s) && self.slot(b, s).block_id == id
    }

    /// Every bucket on the path to `leaf` holds dummies only.
    pub open spec fn path_empty_to(&self, leaf: u32, top: int) -> bool {
        forall|lvl: int, s: int|
            top <= lvl <= self.tree_height && 0 <= s < self.capacity ==> (#[trigger] self.tree@[
                bucket_index(leaf as int, lvl, self.tree_height as int)
            ].blocks@[s]).is_dummy()
    }

    /// Shape of the tree, the buckets and the position map.
    pub open spec fn wf_shape(&self) -> bool {
        &&& 1 <= self.num_blocks
        &&& 1 <= self.capacity
        &&& self.tree_height <= MAX_HEIGHT
        &&& is_height_for(self.num_blocks as nat, self.tree_height as nat)
        &&& self.tree@.len() == tree_size(self.tree_height as nat)
        &&& tree_size(self.tree_height as nat) <= usize::MAX
        &&& forall|b: int|
            0 <= b < self.tree@.len() ==> (#[trigger] self.tree@[b]).wf() && self.tree@[b].capacity
                == self.capacity
        &&& self.position_map@.len() == self.num_blocks + 1
        &&& forall|id: u32| #[trigger]
            self.is_block_id(id) ==> self.leaf_of(id) < self.num_leaves()
        &&& forall|id: u32| #[trigger] self.contents@.contains_key(id) ==> self.is_block_id(id)
    }

    /// Each real block in the tree is a known block, sits on its path and
    /// carries its payload.
    pub open spec fn wf_tree_blocks(&self) -> bool {
        forall|b: int, s: int| #[trigger]
            self.valid_slot(b, s) && !self.slot(b, s).is_dummy() ==> {
                let blk = self.slot(b, s);
                &&& self.contents@.contains_key(blk.block_id)
                &&& self.on_path(b, self.leaf_of(blk.block_id))
                &&& blk.data == self.contents@[blk.block_id]
            }
    }

    /// Each stash entry is a known real block with its payload.
    pub open spec fn wf_stash_blocks(&self) -> bool {
        forall|i: int| #![trigger self.stash@[i]]
            0 <= i < self.stash@.len() ==> {
                let blk = self.stash@[i];
                &&& !blk.is_dummy()
                &&& self.contents@.contains_key(blk.block_id)
                &&& blk.data == self.contents@[blk.block_id]
            }
    }

    /// No real block is held in two places.
    pub open spec fn wf_unique(&self) -> bool {
        &&& forall|i: int, j: int|
            0 <= i < self.stash@.len() && 0 <= j < self.stash@.len() && i != j ==> #[trigger] self.stash@[i].block_id
                != #[trigger] self.stash@[j].block_id
        &&& forall|b1: int, s1: int, b2: int, s2: int|
            #[trigger] self.valid_slot(b1, s1) && #[trigger] self.valid_slot(b2, s2)
                && !self.slot(b1, s1).is_dummy() && self.slot(b1, s1).block_id == self.slot(b2, s2).block_id
                ==> b1 == b2 && s1 == s2
        &&& forall|i: int, b: int, s: int|
            0 <= i < self.stash@.len() && #[trigger] self.valid_slot(b, s) ==> #[trigger] self.stash@[i].block_id
                != self.slot(b, s).block_id
    }

    /// Every placed block is somewhere.
    pub open spec fn wf_present(&self) -> bool {
        forall|id: u32| #[trigger] self.contents@.contains_key(id) ==> self.in_stash(id) || self.in_tree(id)
    }

    pub open spec fn wf(&self) -> bool {
        &&& self.wf_shape()
        &&& self.wf_tree_blocks()
        &&& self.wf_stash_blocks()
        &&& self.wf_unique()
        &&& self.wf_present()
    }

    /// Every block `1..=num_blocks` has been placed.
    pub open spec fn full(&self) -> bool {
        forall|id: u32| #[trigger] self.is_block_id(id) ==> self.contents@.contains_key(id)
    }

    /// Moves every real block on the path to `leaf` into the stash and leaves
    /// those buckets holding dummies only.
    fn read_path(&mut self, leaf: u32)
        requires
            old(self).wf(),
            leaf < old(self).num_leaves(),
        ensures
            final(self).wf(),
            final(self).path_empty_to(leaf, 0),
            final(self).contents == old(self).contents,
            final(self).position_map == old(self).position_map,
            final(self).capacity == old(self).capacity,
            final(self).tree_height == old(self).tree_height,
            final(self).num_blocks == old(self).num_blocks,
    {
        let mut level: u32 = 0;
        while level <= self.tree_height
            invariant
                self.wf(),
                level <= self.tree_height + 1,
                leaf < self.num_leaves(),
                forall|lvl: int, s: int|
                    0 <= lvl < level && 0 <= s < self.capacity ==> (#[trigger] self.tree@[
                        bucket_index(leaf as int, lvl, self.tree_height as int)
                    ].blocks@[s]).is_dummy(),
                self.contents == old(self).contents,
                self.position_map == old(self).position_map,
                self.capacity == old(self).capacity,
                self.tree_height == old(self).tree_height,
                self.num_blocks == old(self).num_blocks,
            decreases self.tree_height + 1 - level,
        {
            let index = bucket_index_exec(leaf, level, self.tree_height);
            let ghost prev = *self;
            self.take_bucket(index);
            proof {
                assert forall|lvl: int, s: int|
                    0 <= lvl < level + 1 && 0 <= s < self.capacity implies (#[trigger] self.tree@[
                        bucket_index(leaf as int, lvl, self.tree_height as int)
                    ].blocks@[s]).is_dummy() by {
                    let bi = bucket_index(leaf as int, lvl, self.tree_height as int);
                    if lvl < level {
                        lemma_levels_differ(leaf as int, leaf as int, lvl, level as int, self.tree_height as int);
                        lemma_index_range(leaf as int, lvl, self.tree_height as int);
                        assert(bi != index as int);
                        assert(prev.wf_shape());
                        assert(prev.tree@.len() == tree_size(prev.tree_height as nat));
                        assert(0 <= bi < prev.tree@.len());
                        assert(self.tree@[bi] == prev.tree@[bi]);
                    } else {
                        assert(bi == index);
                    }
                }
            }
            level = level + 1;
        }
    }

    /// Moves the real blocks of bucket `index` to the end of the stash and
    /// refills it with dummies.
    fn take_bucket(&mut self, index: usize)
        requires
            old(self).wf(),
            index < old(self).tree@.len(),
        ensures
            final(self).wf(),
            final(self).tree@ == old(self).tree@.update(index as int, final(self).tree@[index as int]),
            final(self).tree@[index as int].blocks@ == dummies(old(self).capacity as nat),
            final(self).contents == old(self).contents,
            final(self).position_map == old(self).position_map,
            final(self).capacity == old(self).capacity,
            final(self).tree_height == old(self).tree_height,
            final(self).num_blocks == old(self).num_blocks,
    {
        let ghost o = *self;
        let taken = self.tree[index].get_all_blocks();
        let ghost mut src: Seq<int> = Seq::empty();
        let mut s: usize = 0;
        while s < taken.len()
            invariant
                o.wf(),
                index < o.tree@.len(),
                taken@ == o.tree@[index as int].blocks@,
                s <= taken@.len(),
                self.tree == o.tree,
                self.contents == o.contents,
                self.position_map == o.position_map,
                self.capacity == o.capacity,
                self.tree_height == o.tree_height,
                self.num_blocks == o.num_blocks,
                self.stash@.len() == o.stash@.len() + src.len(),
                forall|i: int| 0 <= i < o.stash@.len() ==> self.stash@[i] == o.stash@[i],
                forall|k: int|
                    0 <= k < src.len() ==> 0 <= #[trigger] src[k] < s && self.stash@[o.stash@.len() + k]
                        == taken@[src[k]] && !taken@[src[k]].is_dummy(),
                forall|k1: int, k2: int| 0 <= k1 < k2 < src.len() ==> #[trigger] src[k1] < #[trigger] src[k2],
                forall|t: int|
                    0 <= t < s && !(#[trigger] taken@[t]).is_dummy() ==> exists|k: int| 0 <= k < src.len() && src[k] == t,
            decreases taken@.len() - s,
        {
            let ghost src0 = src;
            let blk = taken[s];
            if blk.block_id != 0 {
                self.stash.push(blk);
                proof {
                    src = src.push(s as int);
                    assert(src[src.len() - 1] == s);
                }
            }
            proof {
                let ss = s as int;
                assert forall|t: int|
                    0 <= t < ss + 1 && !(#[trigger] taken@[t]).is_dummy() implies exists|k: int| 0 <= k < src.len() && src[k] == t by {
                    if t < ss {
                        let k = choose|k: int| 0 <= k < src0.len() && src0[k] == t;
                        assert(src[k] == t);
                    } else {
                        assert(src[src.len() - 1] == t);
                    }
                }
            }
            s = s + 1;
        }
        self.tree.set(index, Bucket::new(self.capacity));
        proof {
            let n = *self;
            let base = o.stash@.len() as int;
            assert forall|b: int| 0 <= b < n.tree@.len() implies (#[trigger] n.tree@[b]).wf()
                && n.tree@[b].capacity == n.capacity by {
                if b != index {
                    assert(o.tree@[b] == n.tree@[b]);
                }
            }
            assert forall|b: int, t: int| #[trigger] n.valid_slot(b, t) && !n.slot(b, t).is_dummy() implies {
                let blk = n.slot(b, t);
                &&& n.contents@.contains_key(blk.block_id)
                &&& n.on_path(b, n.leaf_of(blk.block_id))
                &&& blk.data == n.contents@[blk.block_id]
            } by {
                if b == index {
                    assert(n.slot(b, t) == Block { block_id: 0, data: 0 });
                }
                assert(o.valid_slot(b, t));
                assert(n.slot(b, t) == o.slot(b, t));
                let x = n.leaf_of(n.slot(b, t).block_id);
                let lvl = choose|lvl: int|
                    0 <= lvl <= o.tree_height && b == #[trigger] bucket_index(x as int, lvl, o.tree_height as int);
                assert(0 <= lvl <= n.tree_height && b == bucket_index(x as int, lvl, n.tree_height as int));
                assert(n.on_path(b, x));
            }
            assert forall|i: int| 0 <= i < n.stash@.len() implies {
                let blk = #[trigger] n.stash@[i];
                &&& !blk.is_dummy()
                &&& n.contents@.contains_key(blk.block_id)
                &&& blk.data == n.contents@[blk.block_id]
            } by {
                if i >= base {
                    let k = i - base;
                    assert(o.valid_slot(index as int, src[k]));
                } else {
                    assert(n.stash@[i] == o.stash@[i]);
                }
            }
            assert forall|i: int, j: int|
                0 <= i < n.stash@.len() && 0 <= j < n.stash@.len() && i != j implies #[trigger] n.stash@[i].block_id
                    != #[trigger] n.stash@[j].block_id by {
                if i >= base {
                    assert(o.valid_slot(index as int, src[i - base]));
                } else {
                    assert(n.stash@[i] == o.stash@[i]);
                }
                if j >= base {
                    assert(o.valid_slot(index as int, src[j - base]));
                } else {
                    assert(n.stash@[j] == o.stash@[j]);
                }
                if i >= base && j >= base {
                    if i < j {
                        assert(src[i - base] < src[j - base]);
                    } else {
                        assert(src[j - base] < src[i - base]);
                    }
                }
            }
            assert forall|b1: int, s1: int, b2: int, s2: int|
                #[trigger] n.valid_slot(b1, s1) && #[trigger] n.valid_slot(b2, s2)
                    && !n.slot(b1, s1).is_dummy() && n.slot(b1, s1).block_id == n.slot(b2, s2).block_id
                implies b1 == b2 && s1 == s2 by {
                assert(o.valid_slot(b1, s1));
                assert(!n.slot(b2, s2).is_dummy());
                assert(o.valid_slot(b2, s2));
            }
            assert forall|i: int, b: int, t: int|
                0 <= i < n.stash@.len() && #[trigger] n.valid_slot(b, t) implies #[trigger] n.stash@[i].block_id
                    != n.slot(b, t).block_id by {
                if !n.slot(b, t).is_dummy() {
                    assert(o.valid_slot(b, t));
                    if i >= base {
                        assert(o.valid_slot(index as int, src[i - base]));
                    } else {
                        assert(n.stash@[i] == o.stash@[i]);
                    }
                } else {
                    if i >= base {
                        assert(o.valid_slot(index as int, src[i - base]));
                    } else {
                        assert(n.stash@[i] == o.stash@[i]);
                    }
                }
            }
            assert(n.wf_unique());
            assert forall|id: u32| #[trigger] n.contents@.contains_key(id) implies n.in_stash(id) || n.in_tree(id) by {
                if o.in_stash(id) {
                    let i = choose|i: int| 0 <= i < o.stash@.len() && #[trigger] o.stash@[i].block_id == id;
                    assert(n.stash@[i].block_id == id);
                } else {
                    let (b, t) = choose|b: int, t: int| #[trigger] o.valid_slot(b, t) && o.slot(b, t).block_id == id;
                    if b == index {
                        assert(!taken@[t].is_dummy());
                        let k = choose|k: int| 0 <= k < src.len() && src[k] == t;
                        assert(n.stash@[base + k].block_id == id);
                    } else {
                        assert(n.valid_slot(b, t) && n.slot(b, t).block_id == id);
                    }
                }
            }
            assert forall|id: u32| #[trigger] n.is_block_id(id) implies n.leaf_of(id) < n.num_leaves() by {
                assert(o.is_block_id(id));
            }
            assert forall|id: u32| #[trigger] n.contents@.contains_key(id) implies n.is_block_id(id) by {
                assert(o.contents@.contains_key(id));
            }
            assert(n.wf_shape());
            assert(n.wf_tree_blocks());
            assert(n.wf_stash_blocks());
            assert(n.wf_unique());
            assert(n.wf_present());
        }
    }

    /// Writes back the bucket at `level` of the path to `leaf`: the oldest
    /// stash blocks whose own path passes through it, up to the capacity,
    /// then dummies. The bucket must hold dummies only.
    fn evict_level(&mut self, leaf: u32, level: u32)
        requires
            old(self).wf(),
            leaf < old(self).num_leaves(),
            level <= old(self).tree_height,
            forall|s: int| 0 <= s < old(self).capacity ==> (#[trigger] old(self).tree@[
                bucket_index(leaf as int, level as int, old(self).tree_height as int)
            ].blocks@[s]).is_dummy(),
        ensures
            final(self).wf(),
            final(self).tree@ == old(self).tree@.update(
                bucket_index(leaf as int, level as int, old(self).tree_height as int),
                final(self).tree@[bucket_index(leaf as int, level as int, old(self).tree_height as int)],
            ),
            final(self).contents == old(self).contents,
            final(self).position_map == old(self).position_map,
            final(self).capacity == old(self).capacity,
            final(self).tree_height == old(self).tree_height,
            final(self).num_blocks == old(self).num_blocks,
    {
        let ghost o = *self;
        let index = bucket_index_exec(leaf, level, self.tree_height);
        let mut selected: Vec<Block> = Vec::new();
        let mut remaining: Vec<Block> = Vec::new();
        let ghost mut sel_src: Seq<int> = Seq::empty();
        let ghost mut rem_src: Seq<int> = Seq::empty();
        let mut i: usize = 0;
        while i < self.stash.len()
            invariant
                *self == o,
                o.wf(),
                level <= o.tree_height,
                index == bucket_index(leaf as int, level as int, o.tree_height as int),
                i <= o.stash@.len(),
                selected@.len() == sel_src.len(),
                remaining@.len() == rem_src.len(),
                selected@.len() <= o.capacity,
                forall|k: int|
                    0 <= k < sel_src.len() ==> 0 <= #[trigger] sel_src[k] < i && selected@[k]
                        == o.stash@[sel_src[k]] && bucket_index(
                        o.leaf_of(selected@[k].block_id) as int,
                        level as int,
                        o.tree_height as int,
                    ) == index,
                forall|k: int|
                    0 <= k < rem_src.len() ==> 0 <= #[trigger] rem_src[k] < i && remaining@[k]
                        == o.stash@[rem_src[k]],
                forall|k1: int, k2: int| 0 <= k1 < k2 < sel_src.len() ==> #[trigger] sel_src[k1] < #[trigger] sel_src[k2],
                forall|k1: int, k2: int| 0 <= k1 < k2 < rem_src.len() ==> #[trigger] rem_src[k1] < #[trigger] rem_src[k2],
                forall|j: int| 0 <= j < i ==> #[trigger] lists(sel_src, j) || lists(rem_src, j),
                forall|k1: int, k2: int|
                    0 <= k1 < sel_src.len() && 0 <= k2 < rem_src.len() ==> #[trigger] sel_src[k1] != #[trigger] rem_src[k2],
            decreases o.stash@.len() - i,
        {
            let ghost sel0 = sel_src;
            let ghost rem0 = rem_src;
            let blk = self.stash[i];
            proof {
                assert(o.stash@[i as int] == blk);
                assert(o.is_block_id(blk.block_id));
            }
            let p = self.position_map[blk.block_id as usize];
            let here = bucket_index_exec(p, level, self.tree_height);
            if selected.len() < self.capacity && here == index {
                selected.push(blk);
                proof {
                    sel_src = sel_src.push(i as int);
                }
            } else {
                remaining.push(blk);
                proof {
                    rem_src = rem_src.push(i as int);
                }
            }
            proof {
                let ii = i as int;
                assert forall|j: int| 0 <= j < ii + 1 implies #[trigger] lists(sel_src, j) || lists(rem_src, j) by {
                    if j < ii {
                        if lists(sel0, j) {
                            let k = choose|k: int| 0 <= k < sel0.len() && #[trigger] sel0[k] == j;
                            assert(sel_src[k] == j);
                        } else {
                            let k = choose|k: int| 0 <= k < rem0.len() && #[trigger] rem0[k] == j;
                            assert(rem_src[k] == j);
                        }
                    } else if sel_src.len() > sel0.len() {
                        assert(sel_src[sel_src.len() - 1] == j);
                    } else {
                        assert(rem_src[rem_src.len() - 1] == j);
                    }
                }
            }
            i = i + 1;
        }
        proof {
            assert forall|k: int| 0 <= k < selected@.len() implies !(#[trigger] selected@[k]).is_dummy() by {
                assert(o.stash@[sel_src[k]] == selected@[k]);
            }
            lemma_reals_all_real(selected@);
        }
        let ghost chosen = selected@;
        let mut bucket = Bucket::new(self.capacity);
        let _ = bucket.replace_blocks(selected);
        self.tree.set(index, bucket);
        self.stash = remaining;
        proof {
            let n = *self;
            let nsel = chosen.len() as int;
            assert(n.tree@[index as int].blocks@ == chosen + dummies((o.capacity - nsel) as nat));
            assert forall|t: int| 0 <= t < n.tree@[index as int].blocks@.len() implies
                #[trigger] n.slot(index as int, t) == (if t < nsel { o.stash@[sel_src[t]] } else { Block { block_id: 0, data: 0 } }) by {
            }
            assert forall|b: int| 0 <= b < n.tree@.len() implies (#[trigger] n.tree@[b]).wf()
                && n.tree@[b].capacity == n.capacity by {
                if b != index {
                    assert(o.tree@[b] == n.tree@[b]);
                }
            }
            assert forall|id: u32| #[trigger] n.is_block_id(id) implies n.leaf_of(id) < n.num_leaves() by {
                assert(o.is_block_id(id));
            }
            assert forall|id: u32| #[trigger] n.contents@.contains_key(id) implies n.is_block_id(id) by {
                assert(o.contents@.contains_key(id));
            }
            assert(n.wf_shape());
            assert forall|b: int, t: int| #[trigger] n.valid_slot(b, t) && !n.slot(b, t).is_dummy() implies {
                let blk = n.slot(b, t);
                &&& n.contents@.contains_key(blk.block_id)
                &&& n.on_path(b, n.leaf_of(blk.block_id))
                &&& blk.data == n.contents@[blk.block_id]
            } by {
                if b == index {
                    assert(n.slot(b, t) == chosen[t]);
                    let j = sel_src[t];
                    assert(o.stash@[j] == chosen[t]);
                    let x = n.leaf_of(chosen[t].block_id);
                    assert(0 <= level <= n.tree_height && b == bucket_index(x as int, level as int, n.tree_height as int));
                    assert(n.on_path(b, x));
                } else {
                    assert(o.valid_slot(b, t));
                    assert(n.slot(b, t) == o.slot(b, t));
                    let x = n.leaf_of(n.slot(b, t).block_id);
                    let lvl = choose|lvl: int|
                        0 <= lvl <= o.tree_height && b == #[trigger] bucket_index(x as int, lvl, o.tree_height as int);
                    assert(0 <= lvl <= n.tree_height && b == bucket_index(x as int, lvl, n.tree_height as int));
                    assert(n.on_path(b, x));
                }
            }
            assert(n.wf_tree_blocks());
            assert forall|k: int| 0 <= k < n.stash@.len() implies {
                let blk = #[trigger] n.stash@[k];
                &&& !blk.is_dummy()
                &&& n.contents@.contains_key(blk.block_id)
                &&& blk.data == n.contents@[blk.block_id]
            } by {
                assert(n.stash@[k] == o.stash@[rem_src[k]]);
            }
            assert(n.wf_stash_blocks());
            assert forall|k1: int, k2: int|
                0 <= k1 < n.stash@.len() && 0 <= k2 < n.stash@.len() && k1 != k2 implies #[trigger] n.stash@[k1].block_id
                    != #[trigger] n.stash@[k2].block_id by {
                assert(n.stash@[k1] == o.stash@[rem_src[k1]]);
                assert(n.stash@[k2] == o.stash@[rem_src[k2]]);
                if k1 < k2 {
                    assert(rem_src[k1] < rem_src[k2]);
                } else {
                    assert(rem_src[k2] < rem_src[k1]);
                }
            }
            assert forall|b1: int, s1: int, b2: int, s2: int|
                #[trigger] n.valid_slot(b1, s1) && #[trigger] n.valid_slot(b2, s2)
                    && !n.slot(b1, s1).is_dummy() && n.slot(b1, s1).block_id == n.slot(b2, s2).block_id
                implies b1 == b2 && s1 == s2 by {
                assert(!n.slot(b2, s2).is_dummy());
                if b1 == index {
                    assert(n.slot(b1, s1) == o.stash@[sel_src[s1]]);
                }
                if b2 == index {
                    assert(n.slot(b2, s2) == o.stash@[sel_src[s2]]);
                }
                if b1 == index && b2 == index {
                    if s1 < s2 {
                        assert(sel_src[s1] < sel_src[s2]);
                    } else if s2 < s1 {
                        assert(sel_src[s2] < sel_src[s1]);
                    }
                } else if b1 == index {
                    assert(o.valid_slot(b2, s2));
                    assert(n.slot(b2, s2) == o.slot(b2, s2));
                } else if b2 == index {
                    assert(o.valid_slot(b1, s1));
                    assert(n.slot(b1, s1) == o.slot(b1, s1));
                } else {
                    assert(o.valid_slot(b1, s1));
                    assert(o.valid_slot(b2, s2));
                    assert(n.slot(b1, s1) == o.slot(b1, s1));
                    assert(n.slot(b2, s2) == o.slot(b2, s2));
                }
            }
            assert forall|k: int, b: int, t: int|
                0 <= k < n.stash@.len() && #[trigger] n.valid_slot(b, t) implies #[trigger] n.stash@[k].block_id
                    != n.slot(b, t).block_id by {
                let j = rem_src[k];
                assert(n.stash@[k] == o.stash@[j]);
                if b == index {
                    if t < nsel {
                        assert(n.slot(b, t) == o.stash@[sel_src[t]]);
                        assert(sel_src[t] != j);
                    }
                } else {
                    assert(o.valid_slot(b, t));
                    assert(n.slot(b, t) == o.slot(b, t));
                }
            }
            assert(n.wf_unique());
            assert forall|id: u32| #[trigger] n.contents@.contains_key(id) implies n.in_stash(id) || n.in_tree(id) by {
                if o.in_stash(id) {
                    let j = choose|j: int| 0 <= j < o.stash@.len() && #[trigger] o.stash@[j].block_id == id;
                    if lists(sel_src, j) {
                        let k = choose|k: int| 0 <= k < sel_src.len() && #[trigger] sel_src[k] == j;
                        assert(n.valid_slot(index as int, k) && n.slot(index as int, k).block_id == id);
                    } else {
                        let k = choose|k: int| 0 <= k < rem_src.len() && #[trigger] rem_src[k] == j;
                        assert(n.stash@[k].block_id == id);
                    }
                } else {
                    let (b, t) = choose|b: int, t: int| #[trigger] o.valid_slot(b, t) && o.slot(b, t).block_id == id;
                    assert(o.is_block_id(id));
                    assert(b != index);
                    assert(n.valid_slot(b, t) && n.slot(b, t).block_id == id);
                }
            }
            assert(n.wf_present());
        }
    }

    /// Writes the path to `leaf` back, from the leaf level up to the root.
    /// The path must hold dummies only.
    fn write_back(&mut self, leaf: u32)
        requires
            old(self).wf(),
            leaf < old(self).num_leaves(),
            old(self).path_empty_to(leaf, 0),
        ensures
            final(self).wf(),
            final(self).contents == old(self).contents,
            final(self).position_map == old(self).position_map,
            final(self).capacity == old(self).capacity,
            final(self).tree_height == old(self).tree_height,
            final(self).num_blocks == old(self).num_blocks,
    {
        let mut levels: u32 = self.tree_height + 1;
        while levels > 0
            invariant
                self.wf(),
                levels <= self.tree_height + 1,
                leaf < self.num_leaves(),
                forall|lvl: int, s: int|
                    0 <= lvl < levels && 0 <= s < self.capacity ==> (#[trigger] self.tree@[
                        bucket_index(leaf as int, lvl, self.tree_height as int)
                    ].blocks@[s]).is_dummy(),
                self.contents == old(self).contents,
                self.position_map == old(self).position_map,
                self.capacity == old(self).capacity,
                self.tree_height == old(self).tree_height,
                self.num_blocks == old(self).num_blocks,
            decreases levels,
        {
            let level = levels - 1;
            let ghost prev = *self;
            self.evict_level(leaf, level);
            proof {
                assert forall|lvl: int, s: int|
                    0 <= lvl < level && 0 <= s < self.capacity implies (#[trigger] self.tree@[
                        bucket_index(leaf as int, lvl, self.tree_height as int)
                    ].blocks@[s]).is_dummy() by {
                    let bi = bucket_index(leaf as int, lvl, self.tree_height as int);
                    lemma_levels_differ(leaf as int, leaf as int, lvl, level as int, self.tree_height as int);
                    lemma_index_range(leaf as int, lvl, self.tree_height as int);
                    assert(prev.wf_shape());
                    assert(prev.tree@.len() == tree_size(prev.tree_height as nat));
                    assert(bi != bucket_index(leaf as int, level as int, prev.tree_height as int));
                    assert(0 <= bi < prev.tree@.len());
                    lemma_index_range(leaf as int, level as int, self.tree_height as int);
                    assert(self.tree@[bi] == prev.tree@[bi]);
                }
            }
            levels = level;
        }
    }

    /// Position in the stash of block `block_id`, if it is there.
    fn find_in_stash(&self, block_id: u32) -> (r: Option<usize>)
        ensures
            r matches Some(k) ==> k < self.stash@.len() && self.stash@[k as int].block_id == block_id,
            r is None ==> !self.in_stash(block_id),
    {
        let mut k: usize = 0;
        while k < self.stash.len()
            invariant
                k <= self.stash@.len(),
                forall|j: int| 0 <= j < k ==> #[trigger] self.stash@[j].block_id != block_id,
            decreases self.stash@.len() - k,
        {
            if self.stash[k].block_id == block_id {
                return Some(k);
            }
            k = k + 1;
        }
        None
    }

    /// Once the path to a block's leaf has been read, a placed block is in the stash.
    proof fn lemma_read_path_stashes(&self, leaf: u32, id: u32)
        requires
            self.wf(),
            self.path_empty_to(leaf, 0),
            self.contents@.contains_key(id),
            self.leaf_of(id) == leaf,
        ensures
            self.in_stash(id),
    {
        if !self.in_stash(id) {
            let (b, t) = choose|b: int, t: int| #[trigger] self.valid_slot(b, t) && self.slot(b, t).block_id == id;
            assert(self.is_block_id(id));
            let lvl = choose|lvl: int|
                0 <= lvl <= self.tree_height && b == #[trigger] bucket_index(leaf as int, lvl, self.tree_height as int);
            assert(self.tree@[b].wf());
            assert(self.tree@[bucket_index(leaf as int, lvl, self.tree_height as int)].blocks@[t].is_dummy());
        }
    }

    /// Serves the access from the stash: returns the stored payload, stores
    /// `new_data` on a write (adding the block if it was never placed), and
    /// moves the block to `new_leaf`. A placed block must be in the stash.
    fn serve(&mut self, op: Op, block_id: u32, new_data: u32, new_leaf: u32) -> (r: Option<u32>)
        requires
            old(self).wf(),
            old(self).is_block_id(block_id),
            new_leaf < old(self).num_leaves(),
            old(self).contents@.contains_key(block_id) ==> old(self).in_stash(block_id),
        ensures
            final(self).wf(),
            r == (if old(self).contents@.contains_key(block_id) {
                Some(old(self).contents@[block_id])
            } else {
                None::<u32>
            }),
            final(self).contents@ == (if op == Op::Write {
                old(self).contents@.insert(block_id, new_data)
            } else {
                old(self).contents@
            }),
            final(self).position_map@ == old(self).position_map@.update(block_id as int, new_leaf),
            final(self).tree == old(self).tree,
            final(self).capacity == old(self).capacity,
            final(self).tree_height == old(self).tree_height,
            final(self).num_blocks == old(self).num_blocks,
    {
        let ghost o = *self;
        let found = self.find_in_stash(block_id);
        let prev: Option<u32>;
        match found {
            Some(k) => {
                prev = Some(self.stash[k].data);
                if op == Op::Write {
                    self.stash.set(k, Block { block_id, data: new_data });
                }
            },
            None => {
                prev = None;
                if op == Op::Write {
                    self.stash.push(Block { block_id, data: new_data });
                }
            },
        }
        if op == Op::Write {
            self.contents = Ghost(self.contents@.insert(block_id, new_data));
        }
        self.position_map.set(block_id as usize, new_leaf);
        proof {
            let n = *self;
            if found is None {
                if o.contents@.contains_key(block_id) {
                    assert(false);
                }
            } else {
                let k = found->Some_0 as int;
                assert(o.stash@[k].block_id == block_id);
            }
            assert(!o.in_tree(block_id)) by {
                if o.in_tree(block_id) {
                    let (b, t) = choose|b: int, t: int| #[trigger] o.valid_slot(b, t) && o.slot(b, t).block_id == block_id;
                    assert(o.contents@.contains_key(block_id));
                    let k = choose|k: int| 0 <= k < o.stash@.len() && #[trigger] o.stash@[k].block_id == block_id;
                    assert(o.stash@[k].block_id != o.slot(b, t).block_id);
                }
            }
            // Stash entries other than the accessed block are untouched.
            assert forall|i: int| 0 <= i < n.stash@.len() && #[trigger] n.stash@[i].block_id != block_id
                implies i < o.stash@.len() && n.stash@[i] == o.stash@[i] by {
            }
            assert forall|id: u32| #[trigger] n.is_block_id(id) implies n.leaf_of(id) < n.num_leaves() by {
                assert(o.is_block_id(id));
            }
            assert forall|id: u32| #[trigger] n.contents@.contains_key(id) implies n.is_block_id(id) by {
                if id != block_id {
                    assert(o.contents@.contains_key(id));
                }
            }
            assert forall|b: int| 0 <= b < n.tree@.len() implies (#[trigger] n.tree@[b]).wf()
                && n.tree@[b].capacity == n.capacity by {
                assert(o.tree@[b] == n.tree@[b]);
            }
            assert(n.wf_shape());
            assert forall|b: int, t: int| #[trigger] n.valid_slot(b, t) && !n.slot(b, t).is_dummy() implies {
                let blk = n.slot(b, t);
                &&& n.contents@.contains_key(blk.block_id)
                &&& n.on_path(b, n.leaf_of(blk.block_id))
                &&& blk.data == n.contents@[blk.block_id]
            } by {
                assert(o.valid_slot(b, t));
                let blk = o.slot(b, t);
                assert(blk.block_id != block_id);
                let x = o.leaf_of(blk.block_id);
                assert(n.leaf_of(blk.block_id) == x);
                let lvl = choose|lvl: int|
                    0 <= lvl <= o.tree_height && b == #[trigger] bucket_index(x as int, lvl, o.tree_height as int);
                assert(0 <= lvl <= n.tree_height && b == bucket_index(x as int, lvl, n.tree_height as int));
            }
            assert(n.wf_tree_blocks());
            assert forall|i: int| 0 <= i < n.stash@.len() implies {
                let blk = #[trigger] n.stash@[i];
                &&& !blk.is_dummy()
                &&& n.contents@.contains_key(blk.block_id)
                &&& blk.data == n.contents@[blk.block_id]
            } by {
                if n.stash@[i].block_id != block_id {
                    assert(n.stash@[i] == o.stash@[i]);
                } else if op == Op::Read {
                    assert(n.stash@[i] == o.stash@[i]);
                }
            }
            assert(n.wf_stash_blocks());
            assert forall|i: int, j: int|
                0 <= i < n.stash@.len() && 0 <= j < n.stash@.len() && i != j implies #[trigger] n.stash@[i].block_id
                    != #[trigger] n.stash@[j].block_id by {
                if n.stash@[i].block_id == block_id && n.stash@[j].block_id == block_id {
                    if found is Some {
                        let k = found->Some_0 as int;
                        if i != k {
                            assert(n.stash@[i] == o.stash@[i]);
                        } else {
                            assert(n.stash@[j] == o.stash@[j]);
                        }
                    } else {
                        if i < o.stash@.len() {
                            assert(n.stash@[i] == o.stash@[i]);
                        } else {
                            assert(n.stash@[j] == o.stash@[j]);
                        }
                    }
                } else if n.stash@[i].block_id != block_id && n.stash@[j].block_id != block_id {
                    assert(n.stash@[i] == o.stash@[i]);
                    assert(n.stash@[j] == o.stash@[j]);
                }
            }
            assert forall|i: int, b: int, t: int|
                0 <= i < n.stash@.len() && #[trigger] n.valid_slot(b, t) implies #[trigger] n.stash@[i].block_id
                    != n.slot(b, t).block_id by {
                assert(o.valid_slot(b, t));
                if n.stash@[i].block_id != block_id {
                    assert(n.stash@[i] == o.stash@[i]);
                } else if !o.slot(b, t).is_dummy() {
                    assert(o.slot(b, t).block_id != block_id);
                }
            }
            assert forall|b1: int, s1: int, b2: int, s2: int|
                #[trigger] n.valid_slot(b1, s1) && #[trigger] n.valid_slot(b2, s2)
                    && !n.slot(b1, s1).is_dummy() && n.slot(b1, s1).block_id == n.slot(b2, s2).block_id
                implies b1 == b2 && s1 == s2 by {
                assert(o.valid_slot(b1, s1));
                assert(o.valid_slot(b2, s2));
            }
            assert(n.wf_unique());
            assert forall|id: u32| #[trigger] n.contents@.contains_key(id) implies n.in_stash(id) || n.in_tree(id) by {
                if id == block_id {
                    if found is Some {
                        let k = found->Some_0 as int;
                        assert(n.stash@[k].block_id == id);
                    } else {
                        assert(n.stash@[n.stash@.len() - 1].block_id == id);
                    }
                } else {
                    assert(o.contents@.contains_key(id));
                    if o.in_stash(id) {
                        let i = choose|i: int| 0 <= i < o.stash@.len() && #[trigger] o.stash@[i].block_id == id;
                        if found is Some {
                            let k = found->Some_0 as int;
                            assert(i != k);
                        }
                        assert(n.stash@[i] == o.stash@[i]);
                    } else {
                        let (b, t) = choose|b: int, t: int| #[trigger] o.valid_slot(b, t) && o.slot(b, t).block_id == id;
                        assert(n.valid_slot(b, t) && n.slot(b, t).block_id == id);
                    }
                }
            }
            assert(n.wf_present());
        }
        prev
    }

    /// Every block `1..=num_blocks` is in exactly one place: either in the
    /// stash, or in a single slot of a bucket on the path to its leaf.
    pub proof fn lemma_placement(&self, id: u32)
        requires
            self.wf(),
            self.full(),
            self.is_block_id(id),
        ensures
            self.in_stash(id) ==> !self.in_tree(id),
            !self.in_stash(id) ==> exists|b: int, s: int| {
                &&& #[trigger] self.valid_slot(b, s)
                &&& self.slot(b, s).block_id == id
                &&& self.on_path(b, self.leaf_of(id))
                &&& forall|b2: int, s2: int|
                    #[trigger] self.valid_slot(b2, s2) && self.slot(b2, s2).block_id == id ==> b2 == b && s2 == s
            },
            forall|i: int, j: int|
                0 <= i < self.stash@.len() && 0 <= j < self.stash@.len() && #[trigger] self.stash@[i].block_id == id
                    && #[trigger] self.stash@[j].block_id == id ==> i == j,
    {
        assert(self.contents@.contains_key(id));
        if self.in_stash(id) {
            let i = choose|i: int| 0 <= i < self.stash@.len() && #[trigger] self.stash@[i].block_id == id;
            if self.in_tree(id) {
                let (b, s) = choose|b: int, s: int| #[trigger] self.valid_slot(b, s) && self.slot(b, s).block_id == id;
                assert(self.stash@[i].block_id != self.slot(b, s).block_id);
            }
        } else {
            let (b, s) = choose|b: int, s: int| #[trigger] self.valid_slot(b, s) && self.slot(b, s).block_id == id;
            assert(!self.slot(b, s).is_dummy());
            assert(self.on_path(b, self.leaf_of(id)));
        }
    }

    /// Every bucket of the tree holds exactly `capacity` slots, real or dummy.
    pub proof fn lemma_buckets_full(&self)
        requires
            self.wf(),
        ensures
            forall|b: int| 0 <= b < self.tree@.len() ==> (#[trigger] self.tree@[b]).blocks@.len() == self.capacity,
    {
        assert forall|b: int| 0 <= b < self.tree@.len() implies (#[trigger] self.tree@[b]).blocks@.len() == self.capacity by {
            assert(self.tree@[b].wf());
        }
    }

    /// One access on a placed or unplaced block, moving it to `new_leaf`.
    fn access_core(&mut self, op: Op, block_id: u32, new_data: u32, new_leaf: u32) -> (r: Option<u32>)
        requires
            old(self).wf(),
            old(self).is_block_id(block_id),
            new_leaf < old(self).num_leaves(),
        ensures
            final(self).wf(),
            r == (if old(self).contents@.contains_key(block_id) {
                Some(old(self).contents@[block_id])
            } else {
                None::<u32>
            }),
            final(self).contents@ == (if op == Op::Write {
                old(self).contents@.insert(block_id, new_data)
            } else {
                old(self).contents@
            }),
            final(self).position_map@ == old(self).position_map@.update(block_id as int, new_leaf),
            final(self).capacity == old(self).capacity,
            final(self).tree_height == old(self).tree_height,
            final(self).num_blocks == old(self).num_blocks,
    {
        let old_leaf = self.position_map[block_id as usize];
        self.read_path(old_leaf);
        proof {
            if self.contents@.contains_key(block_id) {
                self.lemma_read_path_stashes(old_leaf, block_id);
            }
        }
        let r = self.serve(op, block_id, new_data, new_leaf);
        self.write_back(old_leaf);
        r
    }

    /// Builds an ORAM over blocks `1..=num_blocks` with `capacity` slots per
    /// bucket: every block gets a random leaf and is then written once with
    /// payload 0. A zero argument, or more blocks than 32-bit leaves can
    /// address (over `2^31`), is a configuration error.
    pub fn new(num_blocks: u32, capacity: usize) -> (r: Result<PathORAM, OramError>)
        ensures
            num_blocks == 0 || capacity == 0 || num_blocks > MAX_BLOCKS <==> r is Err,
            r matches Err(e) ==> e == OramError::InvalidConfiguration,
            r matches Ok(oram) ==> {
                &&& oram.wf()
                &&& oram.full()
                &&& oram.num_blocks == num_blocks
                &&& oram.capacity == capacity
                &&& forall|id: u32| #[trigger] oram.is_block_id(id) ==> oram@[id] == 0
            },
    {
        proof {
            vstd::arithmetic::power2::lemma2_to64();
        }
        if num_blocks == 0 || capacity == 0 || num_blocks > MAX_BLOCKS {
            return Err(OramError::InvalidConfiguration);
        }
        let tree_height = tree_height_for(num_blocks);
        let leaves: u32 = leaf_count(tree_height);
        proof {
            vstd::arithmetic::power2::lemma_pow2_pos(tree_height as nat);
        }
        let num_buckets: usize = bucket_count(tree_height);
        let mut tree: Vec<Bucket> = Vec::with_capacity(num_buckets);
        let mut b: usize = 0;
        while b < num_buckets
            invariant
                b <= num_buckets,
                tree@.len() == b,
                forall|i: int| 0 <= i < b ==> (#[trigger] tree@[i]).capacity == capacity && tree@[i].blocks@
                    == dummies(capacity as nat),
            decreases num_buckets - b,
        {
            tree.push(Bucket::new(capacity));
            b = b + 1;
        }
        let mut position_map: Vec<u32> = Vec::with_capacity(num_blocks as usize + 1);
        position_map.push(0);
        let mut id: u32 = 1;
        while id <= num_blocks
            invariant
                1 <= id <= num_blocks + 1,
                num_blocks <= 0x8000_0000,
                position_map@.len() == id,
                leaves == pow2(tree_height as nat),
                leaves > 0,
                forall|j: int| 1 <= j < id ==> #[trigger] position_map@[j] < leaves,
            decreases num_blocks + 1 - id,
        {
            position_map.push(random_below(leaves));
            id = id + 1;
        }
        let mut oram = PathORAM {
            tree,
            position_map,
            stash: Vec::new(),
            capacity,
            tree_height,
            num_blocks,
            contents: Ghost(Map::empty()),
        };
        proof {
            assert forall|b: int, t: int| #[trigger] oram.valid_slot(b, t) implies oram.slot(b, t).is_dummy() by {
            }
            assert forall|id: u32| #[trigger] oram.is_block_id(id) implies oram.leaf_of(id) < oram.num_leaves() by {
                assert(oram.position_map@[id as int] < leaves);
            }
            assert(oram.wf_shape());
            assert(oram.wf_unique());
        }
        let mut id: u32 = 1;
        while id <= num_blocks
            invariant
                oram.wf(),
                1 <= id <= num_blocks + 1,
                num_blocks <= 0x8000_0000,
                oram.num_blocks == num_blocks,
                oram.capacity == capacity,
                leaves == oram.num_leaves(),
                forall|j: u32| #[trigger] oram.contents@.contains_key(j) <==> 1 <= j < id,
                forall|j: u32| #[trigger] oram.contents@.contains_key(j) ==> oram.contents@[j] == 0,
            decreases num_blocks + 1 - id,
        {
            let leaf = random_below(leaves);
            let _ = oram.access_core(Op::Write, id, 0, leaf);
            id = id + 1;
        }
        proof {
            assert forall|j: u32| #[trigger] oram.is_block_id(j) implies oram.contents@.contains_key(j) && oram@[j] == 0 by {
                assert(oram.contents@.contains_key(j));
            }
        }
        Ok(oram)
    }

    /// Reads or writes block `block_id`, then moves it to `new_leaf`, a leaf
    /// the caller drew uniformly from `0..2^height`.
    ///
    /// Returns the payload the block held before the access, for a write as
    /// for a read. An id outside `1..=num_blocks` fails with `UnknownBlock`
    /// and changes nothing.
    pub fn access_with_leaf(&mut self, op: Op, block_id: u32, new_data: Option<u32>, new_leaf: u32) -> (r:
        Result<u32, OramError>)
        requires
            old(self).wf(),
            old(self).full(),
            op == Op::Write ==> new_data is Some,
            new_leaf < old(self).num_leaves(),
        ensures
            final(self).wf(),
            final(self).full(),
            final(self).num_blocks == old(self).num_blocks,
            final(self).capacity == old(self).capacity,
            final(self).tree_height == old(self).tree_height,
            !old(self).is_block_id(block_id) ==> r == Err::<u32, OramError>(OramError::UnknownBlock)
                && *final(self) == *old(self),
            old(self).is_block_id(block_id) ==> {
                &&& r == Ok::<u32, OramError>(old(self)@[block_id])
                &&& final(self)@ == after_access(old(self)@, op, block_id, new_data)
                &&& final(self).leaf_of(block_id) == new_leaf
                &&& forall|j: u32|
                    #[trigger] old(self).is_block_id(j) && j != block_id ==> final(self).leaf_of(j) == old(self).leaf_of(j)
            },
    {
        if block_id == 0 || block_id > self.num_blocks {
            return Err(OramError::UnknownBlock);
        }
        let data = match new_data {
            Some(d) => d,
            None => 0,
        };
        let ghost o = *self;
        let r = self.access_core(op, block_id, data, new_leaf);
        proof {
            assert forall|id: u32| #[trigger] self.is_block_id(id) implies self.contents@.contains_key(id) by {
                assert(o.is_block_id(id));
            }
            assert forall|j: u32| #[trigger] o.is_block_id(j) && j != block_id implies self.leaf_of(j) == o.leaf_of(j) by {
            }
        }
        match r {
            Some(v) => Ok(v),
            None => Err(OramError::Corruption),
        }
    }

    /// Reads or writes block `block_id` and moves it to a fresh random leaf.
    ///
    /// Returns the payload the block held before the access, for a write as
    /// for a read. An id outside `1..=num_blocks` fails with `UnknownBlock`
    /// and changes nothing.
    pub fn access(&mut self, op: Op, block_id: u32, new_data: Option<u32>) -> (r: Result<u32, OramError>)
        requires
            old(self).wf(),
            old(self).full(),
            op == Op::Write ==> new_data is Some,
        ensures
            final(self).wf(),
            final(self).full(),
            final(self).num_blocks == old(self).num_blocks,
            final(self).capacity == old(self).capacity,
            final(self).tree_height == old(self).tree_height,
            !old(self).is_block_id(block_id) ==> r == Err::<u32, OramError>(OramError::UnknownBlock)
                && *final(self) == *old(self),
            old(self).is_block_id(block_id) ==> {
                &&& r == Ok::<u32, OramError>(old(self)@[block_id])
                &&& final(self)@ == after_access(old(self)@, op, block_id, new_data)
                &&& forall|j: u32|
                    #[trigger] old(self).is_block_id(j) && j != block_id ==> final(self).leaf_of(j) == old(self).leaf_of(j)
            },
    {
        if block_id == 0 || block_id > self.num_blocks {
            return Err(OramError::UnknownBlock);
        }
        let leaf = random_below(leaf_count(self.tree_height));
        self.access_with_leaf(op, block_id, new_data, leaf)
    }

    /// The leaf whose path block `block_id` currently belongs to.
    pub fn position(&self, block_id: u32) -> (r: Result<u32, OramError>)
        requires
            self.wf(),
        ensures
            self.is_block_id(block_id) ==> r == Ok::<u32, OramError>(self.leaf_of(block_id)),
            !self.is_block_id(block_id) ==> r == Err::<u32, OramError>(OramError::UnknownBlock),
    {
        if block_id == 0 || block_id > self.num_blocks {
            return Err(OramError::UnknownBlock);
        }
        Ok(self.position_map[block_id as usize])
    }

    /// Number of blocks waiting in the stash.
    pub fn stash_size(&self) -> (r: usize)
        ensures
            r == self.stash@.len(),
    {
        self.stash.len()
    }
}

/// What the store holds after an access: a write stores its payload, a
/// read changes nothing.
pub open spec fn after_access(m: Map<u32, u32>, op: Op, block_id: u32, new_data: Option<u32>) -> Map<u32, u32> {
    if op == Op::Write {
        m.insert(block_id, new_data->Some_0)
    } else {
        m
    }
}

/// What the store holds after a run of accesses, each an operation, a
/// block id and a payload.
pub open spec fn after_accesses(m: Map<u32, u32>, ops: Seq<(Op, u32, Option<u32>)>) -> Map<u32, u32>
    decreases ops.len(),
{
    if ops.len() == 0 {
        m
    } else {
        let last = ops.last();
        after_access(after_accesses(m, ops.drop_last()), last.0, last.1, last.2)
    }
}

/// A read returns the payload of the most recent write to its block, however
/// many accesses to other blocks came between: after writing `v` to `id`
/// and then running `others`, none of which names `id`, the store holds `v`
/// for `id`, and an access returns what the store holds.
pub proof fn lemma_read_after_write(m: Map<u32, u32>, id: u32, v: u32, others: Seq<(Op, u32, Option<u32>)>)
    requires
        forall|i: int| 0 <= i < others.len() ==> (#[trigger] others[i]).1 != id,
    ensures
        after_accesses(after_access(m, Op::Write, id, Some(v)), others).contains_key(id),
        after_accesses(after_access(m, Op::Write, id, Some(v)), others)[id] == v,
    decreases others.len(),
{
    if others.len() > 0 {
        let rest = others.drop_last();
        assert forall|i: int| 0 <= i < rest.len() implies (#[trigger] rest[i]).1 != id by {
            assert(rest[i] == others[i]);
        }
        lemma_read_after_write(m, id, v, rest);
        assert(others.last() == others[others.len() - 1]);
    }
}

/// A read leaves the store as it was, so two reads of a block in a row
/// return the same payload.
pub proof fn lemma_read_twice(m: Map<u32, u32>, id: u32, data: Option<u32>)
    ensures
        after_access(m, Op::Read, id, data) == m,
        after_access(after_access(m, Op::Read, id, data), Op::Read, id, data) == m,
{
}

/// `2^height`, the number of leaves.
fn leaf_count(height: u32) -> (r: u32)
    requires
        height <= MAX_HEIGHT,
    ensures
        r == pow2(height as nat),
{
    proof {
        vstd::arithmetic::power2::lemma2_to64();
        if height < MAX_HEIGHT {
            vstd::arithmetic::power2::lemma_pow2_strictly_increases(height as nat, MAX_HEIGHT as nat);
        }
        vstd::bits::lemma_u32_shl_is_mul(1, height);
    }
    1u32 << height
}

/// `2^(height+1) - 1`, the number of buckets.
fn bucket_count(height: u32) -> (r: usize)
    requires
        height <= MAX_HEIGHT,
    ensures
        r == tree_size(height as nat),
        tree_size(height as nat) <= usize::MAX,
{
    proof {
        vstd::arithmetic::power2::lemma2_to64();
        if height + 1 < 32 {
            vstd::arithmetic::power2::lemma_pow2_strictly_increases((height + 1) as nat, 32);
        }
        vstd::bits::lemma_u64_shl_is_mul(1, (height + 1) as u64);
    }
    ((1u64 << (height + 1) as u64) - 1) as usize
}

/// Relies on `rand::thread_rng` and `rand::Rng::gen_range`: a value drawn
/// uniformly from `0..bound`. `gen_range` panics on an empty range.
#[verifier::external_body]
fn random_below(bound: u32) -> (r: u32)
    requires
        bound > 0,
    ensures
        r < bound,
{
    rand::Rng::gen_range(&mut rand::thread_rng(), 0..bound)
}

/// Index `j` occurs in `src`.
pub open spec fn lists(src: Seq<int>, j: int) -> bool {
    exists|k: int| 0 <= k < src.len() && #[trigger] src[k] == j
}

/// A sequence of real blocks is its own real part.
proof fn lemma_reals_all_real(s: Seq<Block>)
    requires
        forall|i: int| 0 <= i < s.len() ==> !(#[trigger] s[i]).is_dummy(),
    ensures
        reals(s) == s,
    decreases s.len(),
{
    if s.len() > 0 {
        lemma_reals_all_real(s.drop_last());
        assert(s.drop_last().push(s.last()) =~= s);
    }
}

} // verus!
