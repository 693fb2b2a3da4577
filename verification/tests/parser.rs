use pcl_rtf::{parse_pcl, PclCommand, PclParserError, Position};

fn items(bytes: &[u8]) -> Vec<Result<(PclCommand, u32), PclParserError>> {
    let mut parser = parse_pcl(bytes);
    let mut out = Vec::new();
    while let Some(item) = parser.next() {
        out.push(item);
    }
    out
}

fn one(bytes: &[u8]) -> Result<(PclCommand, u32), PclParserError> {
    let all = items(bytes);
    assert_eq!(all.len(), 1, "{:?}", all);
    all[0]
}

#[test]
fn empty_input_has_no_commands() {
    let mut parser = parse_pcl(b"");
    assert_eq!(parser.next(), None);
    assert_eq!(parser.next(), None);
}

#[test]
fn plain_bytes_are_characters_with_their_offsets() {
    assert_eq!(
        items(b"Hi\r\x0c"),
        vec![
            Ok((PclCommand::Char(b'H'), 0)),
            Ok((PclCommand::Char(b'i'), 1)),
            Ok((PclCommand::Char(13), 2)),
            Ok((PclCommand::Char(12), 3)),
        ]
    );
}

#[test]
fn clear_horizontal_margins() {
    assert_eq!(one(b"\x1b9"), Ok((PclCommand::ClearHorizontalMargins, 0)));
}

#[test]
fn line_termination_up_to_three() {
    assert_eq!(one(b"\x1b&k2G"), Ok((PclCommand::LineTermination(2), 0)));
    assert_eq!(one(b"\x1b&k3G"), Ok((PclCommand::LineTermination(3), 0)));
    assert_eq!(one(b"\x1b&k4G"), Err(PclParserError::InvalidCommand(0)));
}

#[test]
fn horizontal_and_vertical_motion_index() {
    assert_eq!(one(b"\x1b&k12H"), Ok((PclCommand::HorizontalMotionIndex(12), 0)));
    assert_eq!(one(b"\x1b&l6C"), Ok((PclCommand::VerticalMotionIndex(6), 0)));
    assert_eq!(one(b"\x1b&l6D"), Err(PclParserError::UnknownCommand(0)));
    assert_eq!(one(b"\x1b&k12Z"), Err(PclParserError::UnknownCommand(0)));
}

#[test]
fn end_of_line_wrap_is_zero_or_one() {
    assert_eq!(one(b"\x1b&s0C"), Ok((PclCommand::EndOfLineWrap(0), 0)));
    assert_eq!(one(b"\x1b&s1C"), Ok((PclCommand::EndOfLineWrap(1), 0)));
    assert_eq!(one(b"\x1b&s2C"), Err(PclParserError::InvalidCommand(0)));
}

#[test]
fn underline_on_and_off() {
    assert_eq!(one(b"\x1b&dD"), Ok((PclCommand::EnableUnderline, 0)));
    assert_eq!(one(b"\x1b&d@"), Ok((PclCommand::DisableUnderline, 0)));
    assert_eq!(one(b"\x1b&dX"), Err(PclParserError::UnknownCommand(0)));
}

#[test]
fn raster_graphics_mode_is_zero_or_three() {
    assert_eq!(one(b"\x1b*r0F"), Ok((PclCommand::RasterGraphicsPresentationMode(0), 0)));
    assert_eq!(one(b"\x1b*r3F"), Ok((PclCommand::RasterGraphicsPresentationMode(3), 0)));
    assert_eq!(one(b"\x1b*r1F"), Err(PclParserError::InvalidCommand(0)));
}

#[test]
fn cursor_positions_absolute_and_relative() {
    assert_eq!(
        one(b"\x1b*p+120Y"),
        Ok((PclCommand::VerticalCursorPositioning(Position::Relative(120)), 0))
    );
    assert_eq!(
        one(b"\x1b*p-30X"),
        Ok((PclCommand::HorizontalCursorPositioning(Position::Relative(-30)), 0))
    );
    assert_eq!(
        one(b"\x1b*p100X"),
        Ok((PclCommand::HorizontalCursorPositioning(Position::Absolute(100)), 0))
    );
    assert_eq!(
        one(b"\x1b*p-0Y"),
        Ok((PclCommand::VerticalCursorPositioning(Position::Relative(0)), 0))
    );
    assert_eq!(one(b"\x1b*p+Y"), Err(PclParserError::InvalidCommand(0)));
    assert_eq!(one(b"\x1b*pY"), Err(PclParserError::InvalidCommand(0)));
    assert_eq!(one(b"\x1b*p5Z"), Err(PclParserError::UnknownCommand(0)));
}

#[test]
fn number_limits() {
    assert_eq!(one(b"\x1b&k65535H"), Ok((PclCommand::HorizontalMotionIndex(65535), 0)));
    assert_eq!(items(b"\x1b&k65536H")[0], Err(PclParserError::InvalidCommand(0)));
    assert_eq!(
        one(b"\x1b*p+32767Y"),
        Ok((PclCommand::VerticalCursorPositioning(Position::Relative(32767)), 0))
    );
    assert_eq!(
        one(b"\x1b*p-32767Y"),
        Ok((PclCommand::VerticalCursorPositioning(Position::Relative(-32767)), 0))
    );
    assert_eq!(items(b"\x1b*p+32768Y")[0], Err(PclParserError::InvalidCommand(0)));
    assert_eq!(
        one(b"\x1b*p65535Y"),
        Ok((PclCommand::VerticalCursorPositioning(Position::Absolute(65535)), 0))
    );
    assert_eq!(one(b"\x1b&s255C"), Err(PclParserError::InvalidCommand(0)));
    assert_eq!(items(b"\x1b&s256C")[0], Err(PclParserError::InvalidCommand(0)));
    assert_eq!(one(b"\x1b&k007H"), Ok((PclCommand::HorizontalMotionIndex(7), 0)));
}

#[test]
fn overflow_stops_right_after_the_offending_digit() {
    // The digit that makes the value too large is consumed, the rest is read again.
    assert_eq!(
        items(b"\x1b&k65536H"),
        vec![
            Err(PclParserError::InvalidCommand(0)),
            Ok((PclCommand::Char(b'H'), 8)),
        ]
    );
}

#[test]
fn secondary_symbol_set() {
    assert_eq!(one(b"\x1b)9500X"), Ok((PclCommand::SecondarySymbolSet(9500, b'X'), 0)));
    assert_eq!(one(b"\x1b)9508@"), Ok((PclCommand::SecondarySymbolSet(9508, b'@'), 0)));
    assert_eq!(one(b"\x1b)9508_"), Ok((PclCommand::SecondarySymbolSet(9508, b'_'), 0)));
    assert_eq!(one(b"\x1b)9500x"), Err(PclParserError::InvalidCommand(0)));
    assert_eq!(one(b"\x1b)9500?"), Err(PclParserError::InvalidCommand(0)));
}

#[test]
fn unknown_escapes() {
    assert_eq!(one(b"\x1bZ"), Err(PclParserError::UnknownCommand(0)));
    assert_eq!(one(b"\x1b&z"), Err(PclParserError::UnknownCommand(0)));
    assert_eq!(one(b"\x1b*z"), Err(PclParserError::UnknownCommand(0)));
}

#[test]
fn truncated_escape_is_invalid() {
    assert_eq!(one(b"\x1b"), Err(PclParserError::InvalidCommand(0)));
    assert_eq!(one(b"\x1b&k12"), Err(PclParserError::InvalidCommand(0)));
    assert_eq!(one(b"\x1b*p+"), Err(PclParserError::InvalidCommand(0)));
}

#[test]
fn offsets_count_bytes_before_the_command() {
    assert_eq!(
        items(b"AB\x1b*p+5Y\x1bQC"),
        vec![
            Ok((PclCommand::Char(b'A'), 0)),
            Ok((PclCommand::Char(b'B'), 1)),
            Ok((PclCommand::VerticalCursorPositioning(Position::Relative(5)), 2)),
            Err(PclParserError::UnknownCommand(8)),
            Ok((PclCommand::Char(b'C'), 10)),
        ]
    );
}

#[test]
fn every_item_consumes_input() {
    let bytes = b"\x1bZ\x1b&k\x1b9x";
    let mut parser = parse_pcl(bytes);
    let mut count = 0;
    while parser.next().is_some() {
        count += 1;
        assert!(count <= bytes.len());
    }
    assert!(count >= 1);
}

#[test]
fn error_messages() {
    assert_eq!(PclParserError::FileTooBig.to_string(), "Too big file");
    assert_eq!(PclParserError::UnknownCommand(0x1A2B).to_string(), "Unknown command at 1A2Bh");
    assert_eq!(PclParserError::InvalidCommand(0).to_string(), "Invalid command at 0h");
    assert_eq!(
        PclParserError::InvalidCommand(u32::MAX).to_string(),
        "Invalid command at FFFFFFFFh"
    );
}
