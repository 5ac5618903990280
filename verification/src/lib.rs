//! Reading the map that a disk rescue leaves behind, and asking which byte
//! ranges of the rescued image it reports as not recovered.

pub mod ascii;
pub mod bad_sectors;
pub mod data;
pub mod load;
pub mod parse;
pub mod parse_laws;
pub mod scan;

pub use crate::bad_sectors::{BadSectors, IndexError};
pub use crate::data::{
    Address, Block, BlockStatus, CurrentState, CurrentStatus, MapFile, MapFileView, Pass, Size,
};
pub use crate::load::{mapfile, MapError};
pub use crate::parse::{parse_mapfile, ParseError, ParseErrorKind};
pub use crate::scan::{from_dec, from_hex, NumberError};
