//! Block kinds and the records that describe one block.
use vstd::prelude::*;
use crate::coords::WorldCoordinate;

verus! {

/// The kind of material a block is made of.
#[allow(non_camel_case_types)]
#[derive(Clone, Copy, Debug, PartialEq, Eq, Structural)]
pub enum BlockType {
    GRASS,
    SAND,
    DIRT,
    STONE,
    WATER,
}

impl BlockType {
    /// Whether blocks of this kind are always drawn, whatever surrounds them.
    pub fn is_water(&self) -> (r: bool)
        ensures
            r == (*self == BlockType::WATER),
    {
        match self {
            BlockType::WATER => true,
            _ => false,
        }
    }
}

/// What a chunk stores for a present block.
#[derive(Clone, Copy, Debug, PartialEq, Eq, Structural)]
pub struct BlockProperties {
    pub block_type: BlockType,
}

impl BlockProperties {
    pub fn new(block_type: BlockType) -> (r: BlockProperties)
        ensures
            r.block_type == block_type,
    {
        BlockProperties { block_type }
    }
}

/// A block ready for drawing: its world position and its kind.
#[derive(Clone, Copy, Debug, PartialEq, Eq, Structural)]
pub struct Block {
    pub position: WorldCoordinate,
    pub block_type: BlockType,
}

} // verus!
