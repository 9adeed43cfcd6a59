//! Documents of stacking blocks, each with an identity fixed when the document is built.
use crate::error::DocumentError;
use vstd::prelude::*;

verus! {

/// Stable identity of a block within its document.
#[derive(Clone, Copy, Debug, PartialEq, Eq, Hash, Structural)]
pub struct BlockId(u64);

impl View for BlockId {
    type V = u64;

    closed spec fn view(&self) -> u64 {
        self.0
    }
}

impl BlockId {
    pub fn new(value: u64) -> (id: Self)
        ensures
            id@ == value,
    {
        BlockId(value)
    }

    pub fn value(self) -> (value: u64)
        ensures
            value == self@,
    {
        self.0
    }
}

/// A document made of stacking blocks laid out independently. Blocks keep the order they
/// were given in, and the block at index `i` has the identity `i`.
#[derive(Debug)]
pub struct Document<B> {
    blocks: Vec<B>,
}

impl<B> View for Document<B> {
    type V = Seq<B>;

    closed spec fn view(&self) -> Seq<B> {
        self.blocks@
    }
}

impl<B> Document<B> {
    /// Builds a document from blocks in document order; identities are assigned from zero.
    pub fn new(blocks: Vec<B>) -> (document: Self)
        ensures
            document@ == blocks@,
    {
        Document { blocks }
    }

    /// The blocks in document order.
    pub fn blocks(&self) -> (blocks: &Vec<B>)
        ensures
            blocks@ == self@,
    {
        &self.blocks
    }

    /// The block at a document order index, if there is one.
    pub fn block(&self, block_index: usize) -> (block: Option<&B>)
        ensures
            block is Some <==> block_index < self@.len(),
            block matches Some(b) ==> *b == self@[block_index as int],
    {
        if block_index < self.blocks.len() {
            Some(&self.blocks[block_index])
        } else {
            None
        }
    }

    /// The identity of the block at a document order index, if there is one.
    pub fn block_id(&self, block_index: usize) -> (id: Option<BlockId>)
        ensures
            id is Some <==> block_index < self@.len(),
            id matches Some(id) ==> id@ == block_index,
    {
        if block_index < self.blocks.len() {
            Some(BlockId(block_index as u64))
        } else {
            None
        }
    }

    /// Replaces the block at a document order index, keeping its identity; an index past
    /// the last block is refused and leaves the document as it was.
    pub fn set_block(&mut self, block_index: usize, block: B) -> (result: Result<(), DocumentError>)
        ensures
            result is Ok <==> block_index < old(self)@.len(),
            result is Ok ==> final(self)@ == old(self)@.update(block_index as int, block),
            result is Err ==> {
                &&& final(self)@ == old(self)@
                &&& result->Err_0 == (DocumentError::MissingBlock { block_index })
            },
    {
        if block_index < self.blocks.len() {
            self.blocks.set(block_index, block);
            Ok(())
        } else {
            Err(DocumentError::MissingBlock { block_index })
        }
    }
}

/// Replacing a block changes that block only: every other block, and the number of
/// blocks, stay as they were, and the replaced block reads back as written.
pub proof fn lemma_set_block_changes_one_block<B>(
    before: Seq<B>,
    after: Seq<B>,
    block_index: int,
    block: B,
)
    requires
        0 <= block_index < before.len(),
        after == before.update(block_index, block),
    ensures
        after.len() == before.len(),
        after[block_index] == block,
        forall|i: int| 0 <= i < before.len() && i != block_index ==> #[trigger] after[i] == before[i],
{
}

} // verus!
