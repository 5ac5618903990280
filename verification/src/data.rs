//! The values that a rescue map holds.

use crate::ascii::{MINUS, PLUS, QUESTION, SLASH, STAR, UPPER_F, UPPER_G};
use vstd::prelude::*;

verus! {

/// A byte offset into the rescued device.
#[derive(Debug, PartialEq, Eq, PartialOrd, Ord, Clone, Copy, Hash, Structural)]
pub struct Address(pub u64);

/// The number of the rescue pass that wrote the current-state line.
#[derive(Debug, PartialEq, Eq, PartialOrd, Ord, Clone, Copy, Hash, Structural)]
pub struct Pass(pub u64);

/// A number of bytes.
#[derive(Debug, PartialEq, Eq, PartialOrd, Ord, Clone, Copy, Hash, Structural)]
pub struct Size(pub u64);

/// What the rescue tool was doing when it last wrote the map.
#[derive(Debug, PartialEq, Eq, Clone, Copy, Hash, Structural)]
pub enum CurrentStatus {
    CopyNonTriedBlock,
    TrimmingBlock,
    ScrapingBlock,
    RetryBadSector,
    Filling,
    Approximate,
    Finished,
}

/// The state in which the rescue left a block.
#[derive(Debug, PartialEq, Eq, Clone, Copy, Hash, Structural)]
pub enum BlockStatus {
    Untried,
    NonTrimmed,
    NonScraped,
    BadSector,
    Finished,
}

impl CurrentStatus {
    /// The character that stands for this status in a map.
    pub open spec fn code(self) -> u8 {
        match self {
            CurrentStatus::CopyNonTriedBlock => QUESTION,
            CurrentStatus::TrimmingBlock => STAR,
            CurrentStatus::ScrapingBlock => SLASH,
            CurrentStatus::RetryBadSector => MINUS,
            CurrentStatus::Filling => UPPER_F,
            CurrentStatus::Approximate => UPPER_G,
            CurrentStatus::Finished => PLUS,
        }
    }

    /// The status that a character stands for, if it stands for one.
    pub open spec fn of_code(code: u8) -> Option<CurrentStatus> {
        if code == QUESTION {
            Some(CurrentStatus::CopyNonTriedBlock)
        } else if code == STAR {
            Some(CurrentStatus::TrimmingBlock)
        } else if code == SLASH {
            Some(CurrentStatus::ScrapingBlock)
        } else if code == MINUS {
            Some(CurrentStatus::RetryBadSector)
        } else if code == UPPER_F {
            Some(CurrentStatus::Filling)
        } else if code == UPPER_G {
            Some(CurrentStatus::Approximate)
        } else if code == PLUS {
            Some(CurrentStatus::Finished)
        } else {
            None
        }
    }

    /// Reads a status character.
    pub fn from_code(code: u8) -> (status: Option<CurrentStatus>)
        ensures
            status == Self::of_code(code),
    {
        if code == QUESTION {
            Some(CurrentStatus::CopyNonTriedBlock)
        } else if code == STAR {
            Some(CurrentStatus::TrimmingBlock)
        } else if code == SLASH {
            Some(CurrentStatus::ScrapingBlock)
        } else if code == MINUS {
            Some(CurrentStatus::RetryBadSector)
        } else if code == UPPER_F {
            Some(CurrentStatus::Filling)
        } else if code == UPPER_G {
            Some(CurrentStatus::Approximate)
        } else if code == PLUS {
            Some(CurrentStatus::Finished)
        } else {
            None
        }
    }

    /// Each status is read back from its own character, and from no other:
    /// the seven characters and the seven statuses correspond one to one,
    /// and every other character stands for nothing.
    pub proof fn lemma_codes_exact(code: u8, status: CurrentStatus)
        ensures
            Self::of_code(status.code()) == Some(status),
            Self::of_code(code) == Some(status) <==> code == status.code(),
            Self::of_code(code) is None <==> forall|s: CurrentStatus| code != #[trigger] s.code(),
    {
        if Self::of_code(code) is Some {
            assert(code == Self::of_code(code).unwrap().code());
        }
    }
}

impl BlockStatus {
    /// The character that stands for this status in a map.
    pub open spec fn code(self) -> u8 {
        match self {
            BlockStatus::Untried => QUESTION,
            BlockStatus::NonTrimmed => STAR,
            BlockStatus::NonScraped => SLASH,
            BlockStatus::BadSector => MINUS,
            BlockStatus::Finished => PLUS,
        }
    }

    /// The status that a character stands for, if it stands for one.
    pub open spec fn of_code(code: u8) -> Option<BlockStatus> {
        if code == QUESTION {
            Some(BlockStatus::Untried)
        } else if code == STAR {
            Some(BlockStatus::NonTrimmed)
        } else if code == SLASH {
            Some(BlockStatus::NonScraped)
        } else if code == MINUS {
            Some(BlockStatus::BadSector)
        } else if code == PLUS {
            Some(BlockStatus::Finished)
        } else {
            None
        }
    }

    /// Reads a status character.
    pub fn from_code(code: u8) -> (status: Option<BlockStatus>)
        ensures
            status == Self::of_code(code),
    {
        if code == QUESTION {
            Some(BlockStatus::Untried)
        } else if code == STAR {
            Some(BlockStatus::NonTrimmed)
        } else if code == SLASH {
            Some(BlockStatus::NonScraped)
        } else if code == MINUS {
            Some(BlockStatus::BadSector)
        } else if code == PLUS {
            Some(BlockStatus::Finished)
        } else {
            None
        }
    }

    /// Each status is read back from its own character, and from no other:
    /// the five characters and the five statuses correspond one to one,
    /// and every other character stands for nothing.
    pub proof fn lemma_codes_exact(code: u8, status: BlockStatus)
        ensures
            Self::of_code(status.code()) == Some(status),
            Self::of_code(code) == Some(status) <==> code == status.code(),
            Self::of_code(code) is None <==> forall|s: BlockStatus| code != #[trigger] s.code(),
    {
        if Self::of_code(code) is Some {
            assert(code == Self::of_code(code).unwrap().code());
        }
    }

    /// Whether the bytes of a block in this state cannot be relied on.
    pub open spec fn is_bad(self) -> bool {
        self != BlockStatus::Finished
    }
}

/// Where the rescue stood when the map was written.
#[derive(Debug, PartialEq, Eq, Clone, Copy, Hash, Structural)]
pub struct CurrentState {
    pub current_pos: Address,
    pub current_status: CurrentStatus,
    /// Absent in maps written before passes were counted.
    pub current_pass: Option<Pass>,
}

/// The half-open byte range `[pos, pos + size)` and the state it was left in.
#[derive(Debug, PartialEq, Eq, Clone, Copy, Hash, Structural)]
pub struct Block {
    pub pos: Address,
    pub size: Size,
    pub status: BlockStatus,
}

impl Block {
    /// The first offset of the block.
    pub open spec fn start(self) -> int {
        self.pos.0 as int
    }

    /// The first offset after the block.
    pub open spec fn end(self) -> int {
        self.pos.0 + self.size.0
    }
}

/// A whole rescue map: the current state and the blocks in file order.
#[derive(Debug, PartialEq, Eq, Clone, Hash)]
pub struct MapFile {
    pub current_state: CurrentState,
    pub blocks: Vec<Block>,
}

/// A rescue map as a mathematical value.
pub struct MapFileView {
    pub current_state: CurrentState,
    pub blocks: Seq<Block>,
}

impl View for MapFile {
    type V = MapFileView;

    open spec fn view(&self) -> MapFileView {
        MapFileView { current_state: self.current_state, blocks: self.blocks@ }
    }
}

} // verus!
