//! An in-memory index of finalized blocks, each kept once, in the order it arrived.
use crate::blockchain::{Block, BlockModel};
use crate::ordmap::bytes_equal;
use vstd::prelude::*;

verus! {

/// The finalized blocks seen so far.
pub struct MemoryIndexer {
    blocks: Vec<Block>,
}

/// The models of a sequence of blocks.
pub open spec fn block_views(s: Seq<Block>) -> Seq<BlockModel> {
    s.map_values(|b: Block| b@)
}

/// Whether one of `blocks` carries identifier `id`.
pub open spec fn indexed(blocks: Seq<BlockModel>, id: Seq<u8>) -> bool {
    exists|i: int| 0 <= i < blocks.len() && (#[trigger] blocks[i]).id == id
}

impl MemoryIndexer {
    /// The indexed blocks, in arrival order.
    pub closed spec fn spec_blocks(&self) -> Seq<BlockModel> {
        block_views(self.blocks@)
    }

    pub fn new() -> (i: Self)
        ensures
            i.spec_blocks() == Seq::<BlockModel>::empty(),
    {
        let i = MemoryIndexer { blocks: Vec::new() };
        assert(i.spec_blocks() =~= Seq::<BlockModel>::empty());
        i
    }

    /// Copies of the indexed blocks.
    pub fn blocks(&self) -> (v: Vec<Block>)
        ensures
            block_views(v@) == self.spec_blocks(),
    {
        let mut v: Vec<Block> = Vec::new();
        let mut i: usize = 0;
        while i < self.blocks.len()
            invariant
                i <= self.blocks@.len(),
                block_views(v@) == self.spec_blocks().take(i as int),
            decreases self.blocks@.len() - i,
        {
            let ghost before = v@;
            let c = self.blocks[i].duplicate();
            v.push(c);
            proof {
                assert(block_views(before).len() == before.len());
                assert(before.len() == i);
                assert(v@ == before.push(c));
                assert forall|j: int| 0 <= j < i + 1 implies #[trigger] block_views(v@)[j]
                    == self.spec_blocks().take(i as int + 1)[j] by {
                    if j < i {
                        assert(v@[j] == before[j]);
                        assert(block_views(before)[j] == self.spec_blocks().take(
                            i as int,
                        )[j]);
                    } else {
                        assert(v@[j] == c);
                    }
                }
                assert(block_views(v@) =~= self.spec_blocks().take(i as int + 1));
            }
            i = i + 1;
        }
        assert(self.spec_blocks().take(self.blocks@.len() as int) =~= self.spec_blocks());
        v
    }

    /// Whether a block with identifier `id` is indexed.
    pub fn contains(&self, id: [u8; 32]) -> (r: bool)
        ensures
            r == indexed(self.spec_blocks(), id@),
    {
        let mut i: usize = 0;
        while i < self.blocks.len()
            invariant
                i <= self.blocks@.len(),
                forall|j: int| 0 <= j < i ==> (#[trigger] self.spec_blocks()[j]).id != id@,
            decreases self.blocks@.len() - i,
        {
            assert(self.spec_blocks()[i as int] == self.blocks@[i as int]@);
            if bytes_equal(self.blocks[i].id.as_slice(), id.as_slice()) {
                return true;
            }
            i = i + 1;
        }
        false
    }

    /// Indexes a finalized block; one already indexed under its identifier is kept
    /// once.
    pub fn ingest_finalized(&mut self, block: &Block) -> (r: Result<(), String>)
        ensures
            r is Ok,
            indexed(old(self).spec_blocks(), block@.id) ==> final(self).spec_blocks()
                == old(self).spec_blocks(),
            !indexed(old(self).spec_blocks(), block@.id) ==> final(self).spec_blocks()
                == old(self).spec_blocks().push(block@),
    {
        if self.contains(block.id) {
            return Ok(());
        }
        let ghost before = self.spec_blocks();
        self.blocks.push(block.duplicate());
        assert(self.spec_blocks() =~= before.push(block@));
        Ok(())
    }
}

} // verus!
