use ddrescue_mapfile::parse::{
    address, block, block_status, comment, comment_lines, current_state, current_status, pass,
    parse_mapfile_bytes, size,
};
use ddrescue_mapfile::scan::{dec_u64, hex_u64, line_ending, skip_run, ByteClass};
use ddrescue_mapfile::{
    from_dec, from_hex, parse_mapfile, Address, Block, BlockStatus, CurrentState, CurrentStatus,
    MapFile, NumberError, ParseError, ParseErrorKind, Pass, Size,
};

#[test]
fn test_basic() {
    let text = "# comment\r\n";
    let (text_end, next) = comment(text.as_bytes(), 0).unwrap();
    assert_eq!((&text[next..], &text[1..text_end]), ("", " comment"));
    let text = "0xdEaDbEeF ";
    let (value, end) = hex_u64(text.as_bytes(), 0).unwrap();
    assert_eq!((&text[end..], value), (" ", 0xdeadbeef));
    let text = "0xdEaDbEeF;";
    let (value, end) = address(text.as_bytes(), 0).unwrap();
    assert_eq!((&text[end..], value), (";", Address(0xdeadbeef)));
    let (value, end) = size(text.as_bytes(), 0).unwrap();
    assert_eq!((&text[end..], value), (";", Size(0xdeadbeef)));
    let text = "5;";
    let (value, end) = dec_u64(text.as_bytes(), 0).unwrap();
    assert_eq!((&text[end..], value), (";", 5));
    let (value, end) = pass(text.as_bytes(), 0).unwrap();
    assert_eq!((&text[end..], value), (";", Pass(5)));
}

#[test]
fn test_block_status() {
    let text = "?*/-+;";
    let mut read = Vec::new();
    let mut at = 0;
    while let Some((status, end)) = block_status(text.as_bytes(), at) {
        read.push(status);
        at = end;
    }
    assert_eq!(
        (&text[at..], read),
        (
            ";",
            vec![
                BlockStatus::Untried,
                BlockStatus::NonTrimmed,
                BlockStatus::NonScraped,
                BlockStatus::BadSector,
                BlockStatus::Finished,
            ]
        )
    );
}

#[test]
fn test_current_status() {
    let text = "?*/-FG+;";
    let mut read = Vec::new();
    let mut at = 0;
    while let Some((status, end)) = current_status(text.as_bytes(), at) {
        read.push(status);
        at = end;
    }
    assert_eq!(
        (&text[at..], read),
        (
            ";",
            vec![
                CurrentStatus::CopyNonTriedBlock,
                CurrentStatus::TrimmingBlock,
                CurrentStatus::ScrapingBlock,
                CurrentStatus::RetryBadSector,
                CurrentStatus::Filling,
                CurrentStatus::Approximate,
                CurrentStatus::Finished,
            ]
        )
    );
}

#[test]
fn test_current_state() {
    let text = "0x24F35400     +\r\n";
    let (state, end) = current_state(text.as_bytes(), 0).unwrap();
    assert_eq!(
        (&text[end..], state),
        (
            "\r\n",
            CurrentState {
                current_pos: Address(0x24f35400),
                current_status: CurrentStatus::Finished,
                current_pass: None,
            }
        )
    );
    let text = "0x24F35400     +   1\r\n";
    let (state, end) = current_state(text.as_bytes(), 0).unwrap();
    assert_eq!(
        (&text[end..], state),
        (
            "\r\n",
            CurrentState {
                current_pos: Address(0x24f35400),
                current_status: CurrentStatus::Finished,
                current_pass: Some(Pass(1)),
            }
        )
    );
}

#[test]
fn test_block() {
    let text = "0x00000001  0x2237B000  +;";
    let (read, end) = block(text.as_bytes(), 0).unwrap();
    assert_eq!(
        (&text[end..], read),
        (
            ";",
            Block {
                pos: Address(0x1),
                size: Size(0x2237B000),
                status: BlockStatus::Finished,
            }
        )
    );
}

#[test]
fn test_file() {
    assert_eq!(
        parse_mapfile(
            "# Rescue Logfile.
# current_pos  current_status
0x24F35400     +
#      pos        size  status
0x00000000  0x2237B000  +
0x2237B000  0x02BBA800  -"
        ),
        Ok(MapFile {
            current_state: CurrentState {
                current_pos: Address(0x24f35400),
                current_status: CurrentStatus::Finished,
                current_pass: None,
            },
            blocks: vec![
                Block {
                    pos: Address(0x0),
                    size: Size(0x2237B000),
                    status: BlockStatus::Finished,
                },
                Block {
                    pos: Address(0x2237B000),
                    size: Size(0x02BBA800),
                    status: BlockStatus::BadSector,
                },
            ],
        }),
    );
}

#[test]
fn test_file2() {
    assert_eq!(
        parse_mapfile(
            "# Rescue Logfile.
# current_pos  current_status
0x24F35400     +
#      pos        size  status
0x00000000  0x2237B000  +
0x2237B000  0x02BBA800  -
"
        ),
        Ok(MapFile {
            current_state: CurrentState {
                current_pos: Address(0x24f35400),
                current_status: CurrentStatus::Finished,
                current_pass: None,
            },
            blocks: vec![
                Block {
                    pos: Address(0x0),
                    size: Size(0x2237B000),
                    status: BlockStatus::Finished,
                },
                Block {
                    pos: Address(0x2237B000),
                    size: Size(0x02BBA800),
                    status: BlockStatus::BadSector,
                },
            ],
        }),
    );
}

#[test]
fn test_mapfile_eof() {
    assert!(parse_mapfile(
        "# Rescue Logfile.
# current_pos  current_status
0x24F35400     +
#      pos        size  status
0x00000000  0x2237B000  +
0x2237B000  0x02BBA800  -;"
    )
    .is_err());
}

#[test]
fn trailing_garbage_is_reported_where_it_starts() {
    let valid = "# c\n0x10 ?\n0x0 0x10 +\n0x10 0x20 -";
    assert!(parse_mapfile(valid).is_ok());
    for garbage in [";", " ", "a", "0", "#", "\t", "\u{e9}", ";\n"] {
        let text = format!("{}{}", valid, garbage);
        assert_eq!(
            parse_mapfile(&text),
            Err(ParseError { kind: ParseErrorKind::TrailingInput, offset: valid.len() })
        );
    }
    assert!(parse_mapfile(&format!("{}\n", valid)).is_ok());
    assert!(parse_mapfile(&format!("{}\r\n", valid)).is_ok());
}

#[test]
fn parsing_twice_gives_the_same_map() {
    let text =
        "# Rescue Logfile.\n0x24F35400     +\n0x00000000  0x2237B000  +\n0x2237B000  0x02BBA800  -\n";
    let first = parse_mapfile(text);
    let second = parse_mapfile(text);
    assert!(first.is_ok());
    assert_eq!(first, second);
    assert_eq!(parse_mapfile_bytes(text.as_bytes()), first);
    let broken = "0x24F35400 +\n0x0 0x1 X\n";
    assert_eq!(parse_mapfile(broken), parse_mapfile(broken));
}

#[test]
fn status_tables_are_exact() {
    let current = [
        (b'?', CurrentStatus::CopyNonTriedBlock),
        (b'*', CurrentStatus::TrimmingBlock),
        (b'/', CurrentStatus::ScrapingBlock),
        (b'-', CurrentStatus::RetryBadSector),
        (b'F', CurrentStatus::Filling),
        (b'G', CurrentStatus::Approximate),
        (b'+', CurrentStatus::Finished),
    ];
    let blocks = [
        (b'?', BlockStatus::Untried),
        (b'*', BlockStatus::NonTrimmed),
        (b'/', BlockStatus::NonScraped),
        (b'-', BlockStatus::BadSector),
        (b'+', BlockStatus::Finished),
    ];
    for code in 0..=255u8 {
        let expected = current.iter().find(|(c, _)| *c == code).map(|(_, s)| *s);
        assert_eq!(CurrentStatus::from_code(code), expected);
        assert_eq!(current_status(&[code], 0), expected.map(|s| (s, 1)));
        let expected = blocks.iter().find(|(c, _)| *c == code).map(|(_, s)| *s);
        assert_eq!(BlockStatus::from_code(code), expected);
        assert_eq!(block_status(&[code], 0), expected.map(|s| (s, 1)));
    }
    assert_eq!(current_status(b"", 0), None);
    assert_eq!(block_status(b"+", 1), None);
    assert_eq!(block_status(b"+", 7), None);
}

#[test]
fn numbers_are_read_in_their_base() {
    assert_eq!(from_hex(b"ff"), Ok(255));
    assert_eq!(from_hex(b"FF"), Ok(255));
    assert_eq!(from_hex(b"10"), Ok(16));
    assert_eq!(from_dec(b"10"), Ok(10));
    assert_eq!(from_dec(b"007"), Ok(7));
    assert_eq!(from_hex(b"ffffffffffffffff"), Ok(u64::MAX));
    assert_eq!(from_hex(b"0000ffffffffffffffff"), Ok(u64::MAX));
    assert_eq!(from_hex(b"10000000000000000"), Err(NumberError::Overflow));
    assert_eq!(from_dec(b"18446744073709551615"), Ok(u64::MAX));
    assert_eq!(from_dec(b"18446744073709551616"), Err(NumberError::Overflow));
    assert_eq!(from_dec(b"99999999999999999999999"), Err(NumberError::Overflow));
    assert_eq!(from_dec(b""), Err(NumberError::NotANumber));
    assert_eq!(from_hex(b""), Err(NumberError::NotANumber));
    assert_eq!(from_dec(b"1a"), Err(NumberError::NotANumber));
    assert_eq!(from_hex(b"1g"), Err(NumberError::NotANumber));
    assert_eq!(from_hex(b"+1"), Err(NumberError::NotANumber));
    assert_eq!(from_dec(b"99999999999999999999999x"), Err(NumberError::NotANumber));
}

#[test]
fn numbers_are_read_where_they_stand() {
    assert_eq!(hex_u64(b"  0x1f,", 2), Ok((0x1f, 6)));
    assert_eq!(hex_u64(b"0x", 0), Err(NumberError::NotANumber));
    assert_eq!(hex_u64(b"0X10", 0), Err(NumberError::NotANumber));
    assert_eq!(hex_u64(b"10", 0), Err(NumberError::NotANumber));
    assert_eq!(hex_u64(b"0x10", 3), Err(NumberError::NotANumber));
    assert_eq!(hex_u64(b"0x10", 9), Err(NumberError::NotANumber));
    assert_eq!(hex_u64(b"0x10000000000000000 ", 0), Err(NumberError::Overflow));
    assert_eq!(dec_u64(b"a12b", 1), Ok((12, 3)));
    assert_eq!(dec_u64(b"a12b", 0), Err(NumberError::NotANumber));
    assert_eq!(dec_u64(b"12", 2), Err(NumberError::NotANumber));
    assert_eq!(dec_u64(b"12", 5), Err(NumberError::NotANumber));
}

#[test]
fn runs_and_line_breaks() {
    assert_eq!(skip_run(b" \t x", 0, ByteClass::Blank), 3);
    assert_eq!(skip_run(b"x", 0, ByteClass::Blank), 0);
    assert_eq!(skip_run(b"  ", 0, ByteClass::Blank), 2);
    assert_eq!(skip_run(b"  ", 5, ByteClass::Blank), 5);
    assert_eq!(skip_run(b"09afAFg", 0, ByteClass::HexDigit), 6);
    assert_eq!(skip_run(b"09afAFg", 0, ByteClass::DecDigit), 2);
    assert_eq!(skip_run(b"ab\rc", 0, ByteClass::LineText), 2);
    assert_eq!(line_ending(b"\n", 0), 1);
    assert_eq!(line_ending(b"\r\n", 0), 2);
    assert_eq!(line_ending(b"\r", 0), 0);
    assert_eq!(line_ending(b"\rx", 0), 0);
    assert_eq!(line_ending(b"x\n", 0), 0);
    assert_eq!(line_ending(b"\n", 1), 0);
    assert_eq!(line_ending(b"\n", 3), 0);
}

#[test]
fn comments_need_their_line_break() {
    assert_eq!(comment(b"#\n", 0), Some((1, 2)));
    assert_eq!(comment(b"# a\r\nx", 0), Some((3, 5)));
    assert_eq!(comment(b"# a", 0), None);
    assert_eq!(comment(b"# a\rb\n", 0), None);
    assert_eq!(comment(b"x# a\n", 0), None);
    assert_eq!(comment(b"", 0), None);
    assert_eq!(comment_lines(b"#a\n#b\r\n0x0", 0), 7);
    assert_eq!(comment_lines(b"0x0", 0), 0);
    assert_eq!(comment_lines(b"#a\n#b", 0), 3);
}

#[test]
fn current_state_line_errors() {
    let malformed =
        |offset| Err(ParseError { kind: ParseErrorKind::MalformedCurrentState, offset });
    assert_eq!(parse_mapfile(""), malformed(0));
    assert_eq!(parse_mapfile("# only a comment\n"), malformed(17));
    assert_eq!(parse_mapfile("#unfinished"), malformed(0));
    assert_eq!(parse_mapfile("24F35400 +\n"), malformed(0));
    assert_eq!(parse_mapfile("0x +\n"), malformed(0));
    assert_eq!(parse_mapfile("0x10+\n"), malformed(4));
    assert_eq!(parse_mapfile("0x10  "), malformed(6));
    assert_eq!(parse_mapfile("0x10 +"), malformed(6));
    assert_eq!(parse_mapfile("0x10 +;\n"), malformed(6));
    assert_eq!(parse_mapfile("0x10 + \n"), malformed(6));
    assert_eq!(parse_mapfile("0x10 + x\n"), malformed(6));
    assert_eq!(parse_mapfile("0x10 + 1x\n"), malformed(8));
    assert_eq!(parse_mapfile("0x10 +\r"), malformed(6));
    assert_eq!(
        parse_mapfile("0x10 X\n"),
        Err(ParseError { kind: ParseErrorKind::UnknownStatusCode, offset: 5 })
    );
    assert_eq!(
        parse_mapfile("0x10 \u{e9}\n"),
        Err(ParseError { kind: ParseErrorKind::UnknownStatusCode, offset: 5 })
    );
    assert_eq!(
        parse_mapfile("0x10000000000000000 +\n"),
        Err(ParseError { kind: ParseErrorKind::NumericOverflow, offset: 0 })
    );
    assert_eq!(
        parse_mapfile("0x10 +  18446744073709551616\n"),
        Err(ParseError { kind: ParseErrorKind::NumericOverflow, offset: 8 })
    );
}

#[test]
fn block_line_errors() {
    let head = "0x10 ?\n";
    let at = |kind, offset: usize| Err(ParseError { kind, offset: head.len() + offset });
    let parse = |lines: &str| parse_mapfile(&format!("{}{}", head, lines));
    assert_eq!(parse("garbage"), at(ParseErrorKind::MalformedBlock, 0));
    assert_eq!(parse("0x0"), at(ParseErrorKind::MalformedBlock, 3));
    assert_eq!(parse("0x0 10 +"), at(ParseErrorKind::MalformedBlock, 4));
    assert_eq!(parse("0x0 0x10"), at(ParseErrorKind::MalformedBlock, 8));
    assert_eq!(parse("0x0 0x10+"), at(ParseErrorKind::MalformedBlock, 8));
    assert_eq!(parse("0x0 0x10 "), at(ParseErrorKind::MalformedBlock, 9));
    assert_eq!(parse("0x0 0x10 F"), at(ParseErrorKind::UnknownStatusCode, 9));
    assert_eq!(parse("0x0 0x10 G"), at(ParseErrorKind::UnknownStatusCode, 9));
    assert_eq!(parse("0x0 0x1ffffffffffffffff +"), at(ParseErrorKind::NumericOverflow, 4));
    assert_eq!(parse("0x1ffffffffffffffff 0x1 +"), at(ParseErrorKind::NumericOverflow, 0));
    assert_eq!(parse("0x0 0x10 + 1"), at(ParseErrorKind::TrailingInput, 10));
    assert_eq!(parse("0x0 0x10 +\n\n"), at(ParseErrorKind::MalformedBlock, 11));
    assert_eq!(parse("0x0 0x10 +\n# c\n"), at(ParseErrorKind::MalformedBlock, 11));
    assert_eq!(parse("0x0 0x10 +\r0x10 0x10 +"), at(ParseErrorKind::TrailingInput, 10));
    assert_eq!(parse("\n0x0 0x10 +"), at(ParseErrorKind::TrailingInput, 1));
    assert_eq!(parse("\n\n"), at(ParseErrorKind::TrailingInput, 1));
}

#[test]
fn maps_without_blocks() {
    let state = CurrentState {
        current_pos: Address(0x10),
        current_status: CurrentStatus::CopyNonTriedBlock,
        current_pass: Some(Pass(3)),
    };
    for text in [
        "0x10 ? 3\n",
        "0x10\t?\t3\r\n",
        "0x10 ? 3\n\n",
        "0x10 ? 3\n# c\n",
        "#\n0x10 ? 3\n#\n\r\n",
    ] {
        assert_eq!(parse_mapfile(text), Ok(MapFile { current_state: state, blocks: vec![] }));
    }
}

#[test]
fn lines_may_end_either_way() {
    let text = "# a\r\n0xA /\r\n# b\n0x0 0x1 ?\r\n0x1 0x2 *\n0x3 0x4 /\r\n";
    assert_eq!(
        parse_mapfile(text),
        Ok(MapFile {
            current_state: CurrentState {
                current_pos: Address(10),
                current_status: CurrentStatus::ScrapingBlock,
                current_pass: None,
            },
            blocks: vec![
                Block { pos: Address(0), size: Size(1), status: BlockStatus::Untried },
                Block { pos: Address(1), size: Size(2), status: BlockStatus::NonTrimmed },
                Block { pos: Address(3), size: Size(4), status: BlockStatus::NonScraped },
            ],
        })
    );
}
