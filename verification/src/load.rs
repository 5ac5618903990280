//! From the text of a rescue map to the index of its bad ranges.

use crate::bad_sectors::{built_index, BadSectors, IndexError};
use crate::parse::{mapfile_of, parse_mapfile, ParseError};
use vstd::prelude::*;
use vstd::string::*;

verus! {

/// Why a text gives no index: it is no rescue map, or its blocks are not in
/// order.
#[derive(Debug, PartialEq, Eq, Clone, Copy, Structural)]
pub enum MapError {
    Parse(ParseError),
    Index(IndexError),
}

/// The bad ranges that the text of a rescue map gives.
pub open spec fn index_of_text(s: Seq<u8>) -> Result<Seq<(u64, u64)>, MapError> {
    match mapfile_of(s) {
        Err(found) => Err(MapError::Parse(found)),
        Ok(map) => match built_index(map.blocks) {
            Err(found) => Err(MapError::Index(found)),
            Ok(intervals) => Ok(intervals),
        },
    }
}

/// Reads a rescue map and builds the index of its bad ranges. An error says
/// at which of the two steps the text failed, and where.
pub fn mapfile(text: &str) -> (loaded: Result<BadSectors, MapError>)
    ensures
        match loaded {
            Ok(index) => index_of_text(text.spec_bytes()) == Ok::<Seq<(u64, u64)>, MapError>(
                index@,
            ),
            Err(found) => index_of_text(text.spec_bytes()) == Err::<Seq<(u64, u64)>, MapError>(
                found,
            ),
        },
{
    let map = match parse_mapfile(text) {
        Ok(map) => map,
        Err(found) => {
            return Err(MapError::Parse(found));
        },
    };
    match BadSectors::from_mapfile(&map) {
        Ok(index) => Ok(index),
        Err(found) => Err(MapError::Index(found)),
    }
}

} // verus!
