//! Directive words for streams and Flexible Data Placement (FDP).
//!
//! Command word 13 holds the directive type in its low byte and the
//! directive-specific value in its upper half. The byte between them is zero.
use vstd::prelude::*;

verus! {

/// Directive type of a command.
#[derive(Debug, Clone, Copy, PartialEq, Eq, Structural)]
pub enum NvmeDirective {
    /// Streams.
    Streams,
    /// Flexible Data Placement.
    FlexibleDataPlacement,
}

impl NvmeDirective {
    /// The code of the directive in a command.
    pub open spec fn code(self) -> u8 {
        match self {
            NvmeDirective::Streams => 0x01,
            NvmeDirective::FlexibleDataPlacement => 0x02,
        }
    }

    /// The code of the directive in a command.
    pub fn as_u8(self) -> (code: u8)
        ensures
            code == self.code(),
    {
        match self {
            NvmeDirective::Streams => 0x01,
            NvmeDirective::FlexibleDataPlacement => 0x02,
        }
    }
}

/// Placement identifier that the controller assigned.
///
/// What it stands for is up to the namespace. It is no index of a reclaim unit.
#[derive(Debug, Clone, Copy, PartialEq, Eq, Hash, Structural)]
pub struct FdpPlacementId(pub u16);

/// Command word 13 of a directive.
pub open spec fn directive_word(dtype: NvmeDirective, dspec: u16) -> u32 {
    (dtype.code() + 0x1_0000 * dspec) as u32
}

/// Packs a directive type and its specific value into command word 13.
pub fn pack_directive(dtype: NvmeDirective, dspec: u16) -> (cdw13: u32)
    ensures
        cdw13 == directive_word(dtype, dspec),
{
    dtype.as_u8() as u32 + 0x1_0000 * (dspec as u32)
}

/// The directive type of command word 13: its low byte.
pub fn directive_type(cdw13: u32) -> (dtype: u8)
    ensures
        dtype == cdw13 % 0x100,
{
    (cdw13 % 0x100) as u8
}

/// The specific value of command word 13: its upper half.
pub fn directive_specific(cdw13: u32) -> (dspec: u16)
    ensures
        dspec == cdw13 / 0x1_0000,
{
    (cdw13 / 0x1_0000) as u16
}

/// Packs a placement identifier as the specific value of an FDP directive.
pub fn pack_fdp_placement(placement: FdpPlacementId) -> (cdw13: u32)
    ensures
        cdw13 == directive_word(NvmeDirective::FlexibleDataPlacement, placement.0),
{
    pack_directive(NvmeDirective::FlexibleDataPlacement, placement.0)
}

/// A packed directive gives back its type and its specific value, and the byte
/// between them is zero.
pub proof fn law_directive_round_trip(dtype: NvmeDirective, dspec: u16)
    ensures
        directive_word(dtype, dspec) % 0x100 == dtype.code(),
        directive_word(dtype, dspec) / 0x1_0000 == dspec,
        (directive_word(dtype, dspec) / 0x100) % 0x100 == 0,
{
}

/// Placement identifiers by convention of the writers.
#[derive(Debug, Clone, Copy, PartialEq, Eq, Structural)]
pub struct FdpReclaimSplit {
    /// Adjacency that is read often.
    pub hot_adjacency: FdpPlacementId,
    /// Features that are read rarely.
    pub cold_features: FdpPlacementId,
}

impl FdpReclaimSplit {
    /// Adjacency under identifier 1, features under identifier 2.
    pub fn standard() -> (split: Self)
        ensures
            split.hot_adjacency == FdpPlacementId(1),
            split.cold_features == FdpPlacementId(2),
    {
        FdpReclaimSplit { hot_adjacency: FdpPlacementId(1), cold_features: FdpPlacementId(2) }
    }
}

/// Streams are directive 1 and flexible data placement is directive 2; the
/// directive stands in the lowest byte and its number in the upper half.
pub proof fn law_directive_codes(dspec: u16)
    ensures
        directive_word(NvmeDirective::Streams, dspec) == 1 + 0x1_0000 * dspec,
        directive_word(NvmeDirective::FlexibleDataPlacement, dspec) == 2 + 0x1_0000 * dspec,
{
}

} // verus!
