//! What holds of the grammar of a rescue map whatever the text.

use crate::ascii::{CR, DIGIT_0, HASH, LF};
use crate::data::{Block, MapFile, MapFileView};
use crate::parse::{
    after_comments, block_at, block_lines_at, comment_at, current_state_at, fault,
    lemma_block_at_advances, lemma_hex_u64_at_advances, mapfile_of, pass_follows, same_map,
    ParseError, ParseErrorKind,
};
use crate::scan::{
    dec_u64_at, has_hex_prefix, hex_u64_at, lemma_run_end, lemma_run_end_is, line_break_len,
    run_end, ByteClass,
};
use vstd::prelude::*;

verus! {

/// A run that ends within a text ends at the same place when more text
/// follows.
proof fn lemma_run_end_stable(s: Seq<u8>, tail: Seq<u8>, pos: int, class: ByteClass)
    requires
        0 <= pos <= s.len(),
        run_end(s, pos, class) < s.len(),
    ensures
        run_end(s + tail, pos, class) == run_end(s, pos, class),
{
    lemma_run_end(s, pos, class);
    let end = run_end(s, pos, class);
    let longer = s + tail;
    assert forall|i: int| pos <= i < end implies class.has(#[trigger] longer[i]) by {
        assert(longer[i] == s[i]);
    }
    assert(longer[end] == s[end]);
    lemma_run_end_is(longer, pos, end, class);
}

/// A line break stays one when more text follows.
proof fn lemma_line_break_stable(s: Seq<u8>, tail: Seq<u8>, pos: int)
    requires
        line_break_len(s, pos) > 0,
    ensures
        line_break_len(s + tail, pos) == line_break_len(s, pos),
{
    let longer = s + tail;
    assert(longer[pos] == s[pos]);
    if s[pos] != LF {
        assert(longer[pos + 1] == s[pos + 1]);
    }
}

/// A hexadecimal number that ends within a text reads the same when more
/// text follows.
proof fn lemma_hex_u64_stable(s: Seq<u8>, tail: Seq<u8>, pos: int)
    requires
        hex_u64_at(s, pos) is Ok,
        hex_u64_at(s, pos).unwrap().1 < s.len(),
    ensures
        hex_u64_at(s + tail, pos) == hex_u64_at(s, pos),
{
    let longer = s + tail;
    let end = run_end(s, pos + 2, ByteClass::HexDigit);
    assert(longer[pos] == s[pos]);
    assert(longer[pos + 1] == s[pos + 1]);
    assert(has_hex_prefix(longer, pos));
    lemma_run_end(s, pos + 2, ByteClass::HexDigit);
    lemma_run_end_stable(s, tail, pos + 2, ByteClass::HexDigit);
    assert(longer.subrange(pos + 2, end) =~= s.subrange(pos + 2, end));
}

/// A decimal number that ends within a text reads the same when more text
/// follows.
proof fn lemma_dec_u64_stable(s: Seq<u8>, tail: Seq<u8>, pos: int)
    requires
        dec_u64_at(s, pos) is Ok,
        dec_u64_at(s, pos).unwrap().1 < s.len(),
    ensures
        dec_u64_at(s + tail, pos) == dec_u64_at(s, pos),
{
    let longer = s + tail;
    let end = run_end(s, pos, ByteClass::DecDigit);
    lemma_run_end(s, pos, ByteClass::DecDigit);
    lemma_run_end_stable(s, tail, pos, ByteClass::DecDigit);
    assert(longer.subrange(pos, end) =~= s.subrange(pos, end));
}

/// A comment line stays one when more text follows.
proof fn lemma_comment_stable(s: Seq<u8>, tail: Seq<u8>, pos: int)
    requires
        comment_at(s, pos) is Some,
    ensures
        comment_at(s + tail, pos) == comment_at(s, pos),
{
    let longer = s + tail;
    assert(longer[pos] == s[pos]);
    lemma_run_end(s, pos + 1, ByteClass::LineText);
    lemma_run_end_stable(s, tail, pos + 1, ByteClass::LineText);
    lemma_line_break_stable(s, tail, run_end(s, pos + 1, ByteClass::LineText));
}

/// Comment lines that are followed, within the text, by something other
/// than a `#` end at the same place when more text follows.
proof fn lemma_after_comments_stable(s: Seq<u8>, tail: Seq<u8>, pos: int)
    requires
        0 <= pos <= s.len(),
        after_comments(s, pos) < s.len(),
        s[after_comments(s, pos)] != HASH,
    ensures
        after_comments(s + tail, pos) == after_comments(s, pos),
    decreases s.len() - pos,
{
    let longer = s + tail;
    match comment_at(s, pos) {
        Some((_, next)) => {
            lemma_run_end(s, pos + 1, ByteClass::LineText);
            lemma_comment_stable(s, tail, pos);
            lemma_after_comments_stable(s, tail, next);
        },
        None => {
            assert(longer[pos] == s[pos]);
        },
    }
}

/// A current-state line that ends with a line break reads the same when more
/// text follows.
proof fn lemma_current_state_stable(s: Seq<u8>, tail: Seq<u8>, pos: int)
    requires
        current_state_at(s, pos) is Ok,
        line_break_len(s, current_state_at(s, pos).unwrap().1) > 0,
    ensures
        current_state_at(s + tail, pos) == current_state_at(s, pos),
{
    let longer = s + tail;
    lemma_hex_u64_at_advances(s, pos);
    let blanks = hex_u64_at(s, pos).unwrap().1;
    lemma_run_end(s, blanks, ByteClass::Blank);
    let status_pos = run_end(s, blanks, ByteClass::Blank);
    lemma_hex_u64_stable(s, tail, pos);
    lemma_run_end_stable(s, tail, blanks, ByteClass::Blank);
    assert(longer[status_pos] == s[status_pos]);
    let end = status_pos + 1;
    let last = current_state_at(s, pos).unwrap().1;
    lemma_run_end(s, end, ByteClass::Blank);
    let pass_pos = run_end(s, end, ByteClass::Blank);
    if pass_follows(s, end) {
        lemma_run_end_stable(s, tail, end, ByteClass::Blank);
        assert(longer[pass_pos] == s[pass_pos]);
        assert(pass_follows(longer, end));
        lemma_dec_u64_stable(s, tail, pass_pos);
    } else {
        assert(last == end);
        assert(!ByteClass::Blank.has(s[end]));
        assert(pass_pos == end);
        lemma_run_end_stable(s, tail, end, ByteClass::Blank);
        assert(!pass_follows(longer, end));
    }
}

/// A block line reads the same when more text follows.
proof fn lemma_block_stable(s: Seq<u8>, tail: Seq<u8>, pos: int)
    requires
        block_at(s, pos) is Ok,
    ensures
        block_at(s + tail, pos) == block_at(s, pos),
{
    let longer = s + tail;
    lemma_hex_u64_at_advances(s, pos);
    let blanks = hex_u64_at(s, pos).unwrap().1;
    lemma_run_end(s, blanks, ByteClass::Blank);
    let size_pos = run_end(s, blanks, ByteClass::Blank);
    lemma_hex_u64_at_advances(s, size_pos);
    let more_blanks = hex_u64_at(s, size_pos).unwrap().1;
    lemma_run_end(s, more_blanks, ByteClass::Blank);
    let status_pos = run_end(s, more_blanks, ByteClass::Blank);
    lemma_hex_u64_stable(s, tail, pos);
    lemma_run_end_stable(s, tail, blanks, ByteClass::Blank);
    lemma_hex_u64_stable(s, tail, size_pos);
    lemma_run_end_stable(s, tail, more_blanks, ByteClass::Blank);
    assert(longer[status_pos] == s[status_pos]);
}

/// Block lines that reach the end of a text without a line break after the
/// last of them are no block lines any more when something other than a line
/// break follows.
proof fn lemma_block_lines_then_garbage(s: Seq<u8>, tail: Seq<u8>, pos: int)
    requires
        0 <= pos < s.len(),
        block_lines_at(s, pos) is Ok,
        s.last() != LF,
        tail.len() > 0,
        tail[0] != LF,
        tail[0] != CR,
    ensures
        block_lines_at(s + tail, pos) == Err::<Seq<Block>, ParseError>(
            fault(ParseErrorKind::TrailingInput, s.len() as int),
        ),
    decreases s.len() - pos,
{
    let longer = s + tail;
    lemma_block_at_advances(s, pos);
    lemma_block_stable(s, tail, pos);
    let end = block_at(s, pos).unwrap().1;
    if end >= s.len() {
        assert(longer[end] == tail[0]);
        assert(line_break_len(longer, end) == 0);
    } else {
        let len = line_break_len(s, end);
        lemma_line_break_stable(s, tail, end);
        assert(s[end + len - 1] == LF);
        lemma_block_lines_then_garbage(s, tail, end + len);
    }
}

/// Where a text is a map that ends with a block line, the text with anything
/// appended that does not begin with a line break is no map: the parser
/// stops at the first appended byte.
pub proof fn lemma_trailing_garbage_rejected(s: Seq<u8>, tail: Seq<u8>)
    requires
        mapfile_of(s) is Ok,
        mapfile_of(s).unwrap().blocks.len() > 0,
        s.last() != LF,
        tail.len() > 0,
        tail[0] != LF,
        tail[0] != CR,
    ensures
        mapfile_of(s + tail) == Err::<MapFileView, ParseError>(
            fault(ParseErrorKind::TrailingInput, s.len() as int),
        ),
{
    let longer = s + tail;
    lemma_after_comments_bounds(s, 0);
    let state_pos = after_comments(s, 0);
    lemma_hex_u64_at_advances(s, state_pos);
    assert(s[state_pos] == DIGIT_0);
    lemma_after_comments_stable(s, tail, 0);
    let end = current_state_at(s, state_pos).unwrap().1;
    lemma_current_state_stable(s, tail, state_pos);
    lemma_line_break_stable(s, tail, end);
    let next = end + line_break_len(s, end);
    lemma_after_comments_bounds(s, next);
    let blocks_pos = after_comments(s, next);
    assert(line_break_len(s, blocks_pos) == 0);
    assert(blocks_pos < s.len());
    lemma_hex_u64_at_advances(s, blocks_pos);
    assert(s[blocks_pos] == DIGIT_0);
    lemma_after_comments_stable(s, tail, next);
    assert(longer[blocks_pos] == s[blocks_pos]);
    assert(line_break_len(longer, blocks_pos) == 0);
    lemma_block_lines_then_garbage(s, tail, blocks_pos);
}

/// Comment lines end within the text, at or after the place where they
/// begin.
proof fn lemma_after_comments_bounds(s: Seq<u8>, pos: int)
    requires
        0 <= pos <= s.len(),
    ensures
        pos <= after_comments(s, pos) <= s.len(),
    decreases s.len() - pos,
{
    match comment_at(s, pos) {
        Some((_, next)) => {
            lemma_run_end(s, pos + 1, ByteClass::LineText);
            lemma_after_comments_bounds(s, next);
        },
        None => {},
    }
}

/// The parser's contract leaves no choice: two results that both meet it on
/// one text are the same map, or the same error. So reading a text again
/// gives what the first reading gave.
pub proof fn lemma_parse_again_is_same(
    s: Seq<u8>,
    first: Result<MapFile, ParseError>,
    second: Result<MapFile, ParseError>,
)
    requires
        same_map(first, mapfile_of(s)),
        same_map(second, mapfile_of(s)),
    ensures
        first matches Ok(map) ==> second is Ok && second.unwrap()@ == map@,
        first matches Err(found) ==> second == Err::<MapFile, ParseError>(found),
{
}

} // verus!
