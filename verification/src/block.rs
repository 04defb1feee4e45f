//! What vibrations have to know of a block.
use vstd::prelude::*;

verus! {

/// The kinds of blocks that matter to vibrations.
#[derive(Clone, Copy, Debug, PartialEq, Eq, Structural)]
pub enum BlockId {
    SculkSensor,
    CalibratedSculkSensor,
    AmethystBlock,
    Other,
}

/// A block: its kind, and which of the vibration tags it has.
#[derive(Clone, Copy, Debug, PartialEq, Eq, Structural)]
pub struct Block {
    pub id: BlockId,
    /// The tag `dampens_vibrations` (wool and carpets).
    pub dampens_vibrations: bool,
    /// The tag `occludes_vibration_signals`.
    pub occludes_vibration_signals: bool,
    /// The tag `vibration_resonators`.
    pub vibration_resonator: bool,
}

impl Block {
    /// No vibration passes through the block.
    pub open spec fn stops_vibrations(self) -> bool {
        self.dampens_vibrations || self.occludes_vibration_signals
    }

    /// The block answers a sensor next to it.
    pub open spec fn resonates(self) -> bool {
        self.vibration_resonator || self.id == BlockId::AmethystBlock
    }
}

/// Whether the source block itself damps vibrations (wool / carpet place, step, etc.).
#[must_use]
pub fn source_dampens_vibrations(block: &Block) -> (r: bool)
    ensures
        r == block.dampens_vibrations,
{
    block.dampens_vibrations
}

/// Either of two tags stops vibrations, and nothing else does: neither the kind of
/// the block nor that it resonates.
pub proof fn two_tags_stop_vibrations(block: Block)
    ensures
        block.dampens_vibrations ==> block.stops_vibrations(),
        block.occludes_vibration_signals ==> block.stops_vibrations(),
        block.stops_vibrations() && !block.dampens_vibrations ==> block.occludes_vibration_signals,
{
}

/// Amethyst resonates, and so does what has the tag; nothing else does.
pub proof fn amethyst_and_the_tag_resonate(block: Block)
    ensures
        block.id is AmethystBlock ==> block.resonates(),
        block.vibration_resonator ==> block.resonates(),
        block.resonates() && !(block.id is AmethystBlock) ==> block.vibration_resonator,
{
}

} // verus!
