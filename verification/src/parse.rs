//! The grammar of a rescue map, and the parser that follows it.
//!
//! A map is comment lines, the current-state line, comment lines, and block
//! lines, in this order. Lines end with a line feed, or with a carriage return
//! and a line feed; only after the last block line the line break may be
//! left out. Every function here reads at a place in the text and says where
//! it stopped.

use crate::ascii::HASH;
use crate::data::{
    Address, Block, BlockStatus, CurrentState, CurrentStatus, MapFile, MapFileView, Pass, Size,
};
use crate::scan::{
    dec_u64, dec_u64_at, has_hex_prefix, hex_u64, hex_u64_at, lemma_run_end, line_break_len,
    line_ending, run_end, same_outcome, skip_run, ByteClass, NumberError,
};
use vstd::prelude::*;
use vstd::string::*;

verus! {

/// What the parser found wrong.
#[derive(Debug, PartialEq, Eq, Clone, Copy, Hash, Structural)]
pub enum ParseErrorKind {
    /// The current-state line is not an address, blanks and a status,
    /// followed by a line break.
    MalformedCurrentState,
    /// A block line is not an address, blanks, a size, blanks and a status.
    MalformedBlock,
    /// The character in the place of a status stands for none.
    UnknownStatusCode,
    /// A number does not fit into 64 bits.
    NumericOverflow,
    /// Something other than a line break follows a block line.
    TrailingInput,
}

/// Why a text is no rescue map: what is wrong, and the offset of the byte at
/// which it was found.
#[derive(Debug, PartialEq, Eq, Clone, Copy, Hash, Structural)]
pub struct ParseError {
    pub kind: ParseErrorKind,
    pub offset: usize,
}

/// The error of the given kind at the given place.
pub open spec fn fault(kind: ParseErrorKind, pos: int) -> ParseError {
    ParseError { kind, offset: pos as usize }
}

/// The error that a number which cannot be read gives to the line `line`.
pub open spec fn number_fault(cause: NumberError, line: ParseErrorKind, pos: int) -> ParseError {
    match cause {
        NumberError::NotANumber => fault(line, pos),
        NumberError::Overflow => fault(ParseErrorKind::NumericOverflow, pos),
    }
}

/// The comment line at `pos`: where its text ends, and where the next line
/// begins. The text starts after the `#` and runs up to the line break.
pub open spec fn comment_at(s: Seq<u8>, pos: int) -> Option<(int, int)> {
    if 0 <= pos < s.len() && s[pos] == HASH {
        let text_end = run_end(s, pos + 1, ByteClass::LineText);
        if line_break_len(s, text_end) > 0 {
            Some((text_end, text_end + line_break_len(s, text_end)))
        } else {
            None
        }
    } else {
        None
    }
}

/// The place after the comment lines that begin at `pos`.
pub open spec fn after_comments(s: Seq<u8>, pos: int) -> int
    decreases s.len() - pos,
{
    match comment_at(s, pos) {
        Some((_, next)) => {
            proof {
                lemma_run_end(s, pos + 1, ByteClass::LineText);
            }
            after_comments(s, next)
        },
        None => pos,
    }
}

/// The address written at `pos`.
pub open spec fn address_at(s: Seq<u8>, pos: int) -> Result<(Address, int), NumberError> {
    match hex_u64_at(s, pos) {
        Ok((value, end)) => Ok((Address(value), end)),
        Err(cause) => Err(cause),
    }
}

/// The size written at `pos`.
pub open spec fn size_at(s: Seq<u8>, pos: int) -> Result<(Size, int), NumberError> {
    match hex_u64_at(s, pos) {
        Ok((value, end)) => Ok((Size(value), end)),
        Err(cause) => Err(cause),
    }
}

/// The pass number written at `pos`.
pub open spec fn pass_at(s: Seq<u8>, pos: int) -> Result<(Pass, int), NumberError> {
    match dec_u64_at(s, pos) {
        Ok((value, end)) => Ok((Pass(value), end)),
        Err(cause) => Err(cause),
    }
}

/// The current status that the character at `pos` stands for.
pub open spec fn current_status_at(s: Seq<u8>, pos: int) -> Option<(CurrentStatus, int)> {
    if 0 <= pos < s.len() {
        match CurrentStatus::of_code(s[pos]) {
            Some(status) => Some((status, pos + 1)),
            None => None,
        }
    } else {
        None
    }
}

/// The block status that the character at `pos` stands for.
pub open spec fn block_status_at(s: Seq<u8>, pos: int) -> Option<(BlockStatus, int)> {
    if 0 <= pos < s.len() {
        match BlockStatus::of_code(s[pos]) {
            Some(status) => Some((status, pos + 1)),
            None => None,
        }
    } else {
        None
    }
}

/// Whether blanks and then a digit follow at `pos`: the sign that a pass
/// number is written there.
pub open spec fn pass_follows(s: Seq<u8>, pos: int) -> bool {
    let digits = run_end(s, pos, ByteClass::Blank);
    pos < digits < s.len() && ByteClass::DecDigit.has(s[digits])
}

/// The current state written at `pos`: an address, blanks, a status and,
/// where blanks and a digit follow, the pass.
pub open spec fn current_state_at(s: Seq<u8>, pos: int) -> Result<(CurrentState, int), ParseError> {
    match address_at(s, pos) {
        Err(cause) => Err(number_fault(cause, ParseErrorKind::MalformedCurrentState, pos)),
        Ok((current_pos, blanks)) => {
            let status_pos = run_end(s, blanks, ByteClass::Blank);
            if status_pos == blanks || status_pos >= s.len() {
                Err(fault(ParseErrorKind::MalformedCurrentState, status_pos))
            } else {
                match current_status_at(s, status_pos) {
                    None => Err(fault(ParseErrorKind::UnknownStatusCode, status_pos)),
                    Some((current_status, end)) => if pass_follows(s, end) {
                        let pass_pos = run_end(s, end, ByteClass::Blank);
                        match pass_at(s, pass_pos) {
                            Err(cause) => Err(
                                number_fault(
                                    cause,
                                    ParseErrorKind::MalformedCurrentState,
                                    pass_pos,
                                ),
                            ),
                            Ok((pass, pass_end)) => Ok(
                                (
                                    CurrentState {
                                        current_pos,
                                        current_status,
                                        current_pass: Some(pass),
                                    },
                                    pass_end,
                                ),
                            ),
                        }
                    } else {
                        Ok(
                            (
                                CurrentState { current_pos, current_status, current_pass: None },
                                end,
                            ),
                        )
                    },
                }
            }
        },
    }
}

/// The block written at `pos`: an address, blanks, a size, blanks and a
/// status.
pub open spec fn block_at(s: Seq<u8>, pos: int) -> Result<(Block, int), ParseError> {
    match address_at(s, pos) {
        Err(cause) => Err(number_fault(cause, ParseErrorKind::MalformedBlock, pos)),
        Ok((pos_read, blanks)) => {
            let size_pos = run_end(s, blanks, ByteClass::Blank);
            if size_pos == blanks {
                Err(fault(ParseErrorKind::MalformedBlock, size_pos))
            } else {
                match size_at(s, size_pos) {
                    Err(cause) => Err(
                        number_fault(cause, ParseErrorKind::MalformedBlock, size_pos),
                    ),
                    Ok((size, more_blanks)) => {
                        let status_pos = run_end(s, more_blanks, ByteClass::Blank);
                        if status_pos == more_blanks || status_pos >= s.len() {
                            Err(fault(ParseErrorKind::MalformedBlock, status_pos))
                        } else {
                            match block_status_at(s, status_pos) {
                                None => Err(fault(ParseErrorKind::UnknownStatusCode, status_pos)),
                                Some((status, end)) => Ok(
                                    (Block { pos: pos_read, size, status }, end),
                                ),
                            }
                        }
                    },
                }
            }
        },
    }
}

/// The block lines from `pos` to the end of the text: nothing, or a block
/// followed by the end of the text, or by a line break and more block lines.
pub open spec fn block_lines_at(s: Seq<u8>, pos: int) -> Result<Seq<Block>, ParseError>
    decreases s.len() - pos,
{
    if pos >= s.len() {
        Ok(Seq::empty())
    } else {
        match block_at(s, pos) {
            Err(found) => Err(found),
            Ok((block, end)) => if end >= s.len() {
                Ok(seq![block])
            } else if line_break_len(s, end) == 0 {
                Err(fault(ParseErrorKind::TrailingInput, end))
            } else {
                proof {
                    lemma_block_at_advances(s, pos);
                }
                match block_lines_at(s, end + line_break_len(s, end)) {
                    Err(found) => Err(found),
                    Ok(more) => Ok(seq![block] + more),
                }
            },
        }
    }
}

/// What follows the second run of comment lines, up to the end of the text:
/// a single line break, or block lines.
pub open spec fn blocks_at(s: Seq<u8>, pos: int) -> Result<Seq<Block>, ParseError> {
    if line_break_len(s, pos) > 0 {
        if pos + line_break_len(s, pos) == s.len() {
            Ok(Seq::empty())
        } else {
            Err(fault(ParseErrorKind::TrailingInput, pos + line_break_len(s, pos)))
        }
    } else {
        block_lines_at(s, pos)
    }
}

/// The map that a text stands for, or what is wrong with the text.
pub open spec fn mapfile_of(s: Seq<u8>) -> Result<MapFileView, ParseError> {
    match current_state_at(s, after_comments(s, 0)) {
        Err(found) => Err(found),
        Ok((current_state, end)) => if line_break_len(s, end) == 0 {
            Err(fault(ParseErrorKind::MalformedCurrentState, end))
        } else {
            match blocks_at(s, after_comments(s, end + line_break_len(s, end))) {
                Err(found) => Err(found),
                Ok(blocks) => Ok(MapFileView { current_state, blocks }),
            }
        },
    }
}

/// A number that was read lies within the text and after the place where it
/// was looked for.
pub proof fn lemma_hex_u64_at_advances(s: Seq<u8>, pos: int)
    ensures
        hex_u64_at(s, pos) matches Ok((_, end)) ==> 0 <= pos < end <= s.len(),
{
    if has_hex_prefix(s, pos) {
        lemma_run_end(s, pos + 2, ByteClass::HexDigit);
    }
}

/// A block that was read lies within the text and after the place where it
/// was looked for.
pub proof fn lemma_block_at_advances(s: Seq<u8>, pos: int)
    ensures
        block_at(s, pos) matches Ok((_, end)) ==> 0 <= pos < end <= s.len(),
{
    lemma_hex_u64_at_advances(s, pos);
    if let Ok((_, blanks)) = address_at(s, pos) {
        lemma_run_end(s, blanks, ByteClass::Blank);
        let size_pos = run_end(s, blanks, ByteClass::Blank);
        lemma_hex_u64_at_advances(s, size_pos);
        if let Ok((_, more_blanks)) = size_at(s, size_pos) {
            lemma_run_end(s, more_blanks, ByteClass::Blank);
        }
    }
}

/// Reads the comment line at `pos`: gives the end of its text and the
/// start of the next line.
pub fn comment(input: &[u8], pos: usize) -> (line: Option<(usize, usize)>)
    ensures
        match line {
            Some((text_end, next)) => comment_at(input@, pos as int) == Some(
                (text_end as int, next as int),
            ),
            None => comment_at(input@, pos as int) is None,
        },
        line matches Some((text_end, next)) ==> pos < text_end < next <= input@.len(),
{
    if pos >= input.len() || input[pos] != HASH {
        return None;
    }
    let text_end = skip_run(input, pos + 1, ByteClass::LineText);
    let len = line_ending(input, text_end);
    if len == 0 {
        None
    } else {
        Some((text_end, text_end + len))
    }
}

/// Skips the comment lines at `pos`.
pub fn comment_lines(input: &[u8], pos: usize) -> (end: usize)
    ensures
        end == after_comments(input@, pos as int),
        pos <= end,
        pos <= input@.len() ==> end <= input@.len(),
{
    let mut end = pos;
    loop
        invariant
            pos <= end,
            pos <= input@.len() ==> end <= input@.len(),
            after_comments(input@, pos as int) == after_comments(input@, end as int),
        decreases input@.len() - end,
    {
        match comment(input, end) {
            Some((_, next)) => {
                end = next;
            },
            None => {
                return end;
            },
        }
    }
}

/// Reads the address written at `pos`.
pub fn address(input: &[u8], pos: usize) -> (read: Result<(Address, usize), NumberError>)
    ensures
        same_outcome(read, address_at(input@, pos as int)),
{
    match hex_u64(input, pos) {
        Ok((value, end)) => Ok((Address(value), end)),
        Err(cause) => Err(cause),
    }
}

/// Reads the size written at `pos`.
pub fn size(input: &[u8], pos: usize) -> (read: Result<(Size, usize), NumberError>)
    ensures
        same_outcome(read, size_at(input@, pos as int)),
{
    match hex_u64(input, pos) {
        Ok((value, end)) => Ok((Size(value), end)),
        Err(cause) => Err(cause),
    }
}

/// Reads the pass number written at `pos`.
pub fn pass(input: &[u8], pos: usize) -> (read: Result<(Pass, usize), NumberError>)
    ensures
        same_outcome(read, pass_at(input@, pos as int)),
{
    match dec_u64(input, pos) {
        Ok((value, end)) => Ok((Pass(value), end)),
        Err(cause) => Err(cause),
    }
}

/// Reads the current status at `pos`.
pub fn current_status(input: &[u8], pos: usize) -> (read: Option<(CurrentStatus, usize)>)
    ensures
        match read {
            Some((status, end)) => current_status_at(input@, pos as int) == Some(
                (status, end as int),
            ),
            None => current_status_at(input@, pos as int) is None,
        },
{
    if pos >= input.len() {
        return None;
    }
    match CurrentStatus::from_code(input[pos]) {
        Some(status) => Some((status, pos + 1)),
        None => None,
    }
}

/// Reads the block status at `pos`.
pub fn block_status(input: &[u8], pos: usize) -> (read: Option<(BlockStatus, usize)>)
    ensures
        match read {
            Some((status, end)) => block_status_at(input@, pos as int) == Some(
                (status, end as int),
            ),
            None => block_status_at(input@, pos as int) is None,
        },
{
    if pos >= input.len() {
        return None;
    }
    match BlockStatus::from_code(input[pos]) {
        Some(status) => Some((status, pos + 1)),
        None => None,
    }
}

/// The error that a number which cannot be read gives to the line `line`.
fn number_error(cause: NumberError, line: ParseErrorKind, pos: usize) -> (found: ParseError)
    ensures
        found == number_fault(cause, line, pos as int),
{
    match cause {
        NumberError::NotANumber => ParseError { kind: line, offset: pos },
        NumberError::Overflow => ParseError { kind: ParseErrorKind::NumericOverflow, offset: pos },
    }
}

/// Reads the current state written at `pos`, up to the line break.
pub fn current_state(input: &[u8], pos: usize) -> (read: Result<(CurrentState, usize), ParseError>)
    ensures
        same_outcome(read, current_state_at(input@, pos as int)),
{
    let (current_pos, blanks) = match address(input, pos) {
        Ok(read) => read,
        Err(cause) => {
            return Err(number_error(cause, ParseErrorKind::MalformedCurrentState, pos));
        },
    };
    proof {
        lemma_hex_u64_at_advances(input@, pos as int);
    }
    let status_pos = skip_run(input, blanks, ByteClass::Blank);
    if status_pos == blanks || status_pos >= input.len() {
        return Err(ParseError { kind: ParseErrorKind::MalformedCurrentState, offset: status_pos });
    }
    let (current_status, end) = match current_status(input, status_pos) {
        Some(read) => read,
        None => {
            return Err(ParseError { kind: ParseErrorKind::UnknownStatusCode, offset: status_pos });
        },
    };
    let pass_pos = skip_run(input, end, ByteClass::Blank);
    if pass_pos > end && pass_pos < input.len() && ByteClass::DecDigit.holds(input[pass_pos]) {
        match pass(input, pass_pos) {
            Ok((pass, pass_end)) => Ok(
                (CurrentState { current_pos, current_status, current_pass: Some(pass) }, pass_end),
            ),
            Err(cause) => Err(
                number_error(cause, ParseErrorKind::MalformedCurrentState, pass_pos),
            ),
        }
    } else {
        Ok((CurrentState { current_pos, current_status, current_pass: None }, end))
    }
}

/// Reads the block written at `pos`.
pub fn block(input: &[u8], pos: usize) -> (read: Result<(Block, usize), ParseError>)
    ensures
        same_outcome(read, block_at(input@, pos as int)),
        read matches Ok((_, end)) ==> pos < end <= input@.len(),
{
    proof {
        lemma_block_at_advances(input@, pos as int);
    }
    let (pos_read, blanks) = match address(input, pos) {
        Ok(read) => read,
        Err(cause) => {
            return Err(number_error(cause, ParseErrorKind::MalformedBlock, pos));
        },
    };
    proof {
        lemma_hex_u64_at_advances(input@, pos as int);
    }
    let size_pos = skip_run(input, blanks, ByteClass::Blank);
    if size_pos == blanks {
        return Err(ParseError { kind: ParseErrorKind::MalformedBlock, offset: size_pos });
    }
    let (size, more_blanks) = match size(input, size_pos) {
        Ok(read) => read,
        Err(cause) => {
            return Err(number_error(cause, ParseErrorKind::MalformedBlock, size_pos));
        },
    };
    proof {
        lemma_hex_u64_at_advances(input@, size_pos as int);
    }
    let status_pos = skip_run(input, more_blanks, ByteClass::Blank);
    if status_pos == more_blanks || status_pos >= input.len() {
        return Err(ParseError { kind: ParseErrorKind::MalformedBlock, offset: status_pos });
    }
    match block_status(input, status_pos) {
        Some((status, end)) => Ok((Block { pos: pos_read, size, status }, end)),
        None => Err(ParseError { kind: ParseErrorKind::UnknownStatusCode, offset: status_pos }),
    }
}

/// The blocks read so far, ahead of what the rest of the text gives.
pub open spec fn ahead_of(done: Seq<Block>, rest: Result<Seq<Block>, ParseError>) -> Result<
    Seq<Block>,
    ParseError,
> {
    match rest {
        Ok(more) => Ok(done + more),
        Err(found) => Err(found),
    }
}

/// What a parser of many blocks returns is what the grammar gives.
pub open spec fn same_blocks(
    got: Result<Vec<Block>, ParseError>,
    due: Result<Seq<Block>, ParseError>,
) -> bool {
    match got {
        Ok(blocks) => due == Ok::<Seq<Block>, ParseError>(blocks@),
        Err(found) => due == Err::<Seq<Block>, ParseError>(found),
    }
}

/// Reads the block lines from `pos` to the end of the text.
pub fn block_lines(input: &[u8], pos: usize) -> (read: Result<Vec<Block>, ParseError>)
    ensures
        same_blocks(read, block_lines_at(input@, pos as int)),
{
    let mut blocks: Vec<Block> = Vec::new();
    let mut at = pos;
    proof {
        assert(Seq::<Block>::empty() + Seq::<Block>::empty() =~= Seq::<Block>::empty());
        if let Ok(all) = block_lines_at(input@, pos as int) {
            assert(Seq::<Block>::empty() + all =~= all);
        }
    }
    while at < input.len()
        invariant
            block_lines_at(input@, pos as int) == ahead_of(
                blocks@,
                block_lines_at(input@, at as int),
            ),
        decreases input@.len() - at,
    {
        let ghost done = blocks@;
        let (block, end) = match block(input, at) {
            Ok(read) => read,
            Err(found) => {
                return Err(found);
            },
        };
        blocks.push(block);
        if end >= input.len() {
            proof {
                assert(done + seq![block] =~= blocks@);
            }
            return Ok(blocks);
        }
        let len = line_ending(input, end);
        if len == 0 {
            return Err(ParseError { kind: ParseErrorKind::TrailingInput, offset: end });
        }
        proof {
            if let Ok(more) = block_lines_at(input@, end + len) {
                assert(done + (seq![block] + more) =~= blocks@ + more);
            }
        }
        at = end + len;
    }
    proof {
        assert(blocks@ + Seq::<Block>::empty() =~= blocks@);
    }
    Ok(blocks)
}

/// Reads what follows the second run of comment lines: a single line break,
/// or the block lines.
pub fn blocks(input: &[u8], pos: usize) -> (read: Result<Vec<Block>, ParseError>)
    ensures
        same_blocks(read, blocks_at(input@, pos as int)),
{
    let len = line_ending(input, pos);
    if len > 0 {
        if pos + len == input.len() {
            Ok(Vec::new())
        } else {
            Err(ParseError { kind: ParseErrorKind::TrailingInput, offset: pos + len })
        }
    } else {
        block_lines(input, pos)
    }
}

/// What a parser of maps returns is what the grammar gives.
pub open spec fn same_map(
    got: Result<MapFile, ParseError>,
    due: Result<MapFileView, ParseError>,
) -> bool {
    match got {
        Ok(map) => due == Ok::<MapFileView, ParseError>(map@),
        Err(found) => due == Err::<MapFileView, ParseError>(found),
    }
}

/// Reads a whole rescue map from its bytes.
pub fn parse_mapfile_bytes(input: &[u8]) -> (parsed: Result<MapFile, ParseError>)
    ensures
        same_map(parsed, mapfile_of(input@)),
{
    let state_pos = comment_lines(input, 0);
    let (current_state, end) = match current_state(input, state_pos) {
        Ok(read) => read,
        Err(found) => {
            return Err(found);
        },
    };
    let len = line_ending(input, end);
    if len == 0 {
        return Err(ParseError { kind: ParseErrorKind::MalformedCurrentState, offset: end });
    }
    let blocks_pos = comment_lines(input, end + len);
    match blocks(input, blocks_pos) {
        Ok(blocks) => Ok(MapFile { current_state, blocks }),
        Err(found) => Err(found),
    }
}

/// Reads a whole rescue map from its text. The offsets of errors count the
/// bytes of the text in UTF-8.
pub fn parse_mapfile(input: &str) -> (parsed: Result<MapFile, ParseError>)
    ensures
        same_map(parsed, mapfile_of(input.spec_bytes())),
{
    parse_mapfile_bytes(input.as_bytes())
}

} // verus!
