use pcl_rtf::{convert_pcl, pcl_to_rtf, Glyphs, PclCommand, PclParserError, PclToRtfError, Position};

const HEADER: &str = "{\\rtf1\\deff0\n{\\fonttbl\n{\\f0\\fswiss\\fcharset0 DotMatrix;}\n}\n\\f0\\fs23\n\\paperw11906\\paperh16838\n\\margl0\\margr0\\margb0\n";

fn latin1() -> Vec<char> {
    (0..=255u8).map(char::from).collect()
}

fn glyphs() -> Glyphs {
    Glyphs::new(latin1(), latin1(), latin1()).unwrap()
}

/// Symbol set 9500X reads `a` as alpha, 9508X reads it as omega.
fn greek() -> Glyphs {
    let mut x9500 = latin1();
    x9500[b'a' as usize] = '\u{3b1}';
    let mut x9508 = latin1();
    x9508[b'a' as usize] = '\u{3c9}';
    Glyphs::new(latin1(), x9500, x9508).unwrap()
}

fn cmds(list: &[PclCommand]) -> Vec<(PclCommand, u32)> {
    list.iter().enumerate().map(|(i, c)| (*c, i as u32)).collect()
}

fn rel_y(y: i16) -> PclCommand {
    PclCommand::VerticalCursorPositioning(Position::Relative(y))
}

fn rel_x(x: i16) -> PclCommand {
    PclCommand::HorizontalCursorPositioning(Position::Relative(x))
}

fn text(s: &str) -> Vec<PclCommand> {
    s.bytes().map(PclCommand::Char).collect()
}

fn render(list: &[PclCommand], g: &Glyphs) -> Result<String, PclToRtfError> {
    pcl_to_rtf(g, &cmds(list)).map(|r| r.to_string())
}

#[test]
fn empty_stream_is_an_empty_document() {
    assert_eq!(render(&[], &glyphs()), Ok(format!("{HEADER}}}\n")));
}

#[test]
fn setup_commands_between_pages_are_skipped() {
    let list = [
        PclCommand::LineTermination(0),
        PclCommand::ClearHorizontalMargins,
        PclCommand::VerticalMotionIndex(6),
        PclCommand::RasterGraphicsPresentationMode(3),
        PclCommand::EndOfLineWrap(1),
        PclCommand::VerticalCursorPositioning(Position::Absolute(0)),
        PclCommand::Char(13),
        PclCommand::Char(14),
        PclCommand::Char(15),
        PclCommand::SecondarySymbolSet(9508, b'X'),
    ];
    assert_eq!(render(&list, &glyphs()), Ok(format!("{HEADER}}}\n")));
}

#[test]
fn one_page_two_paragraphs() {
    let mut list = vec![rel_y(100), rel_x(60)];
    list.extend(text("Hi"));
    list.extend([PclCommand::Char(13), rel_y(60), rel_x(0)]);
    list.extend(text("A B{}\\"));
    list.extend([PclCommand::Char(13), rel_y(10), PclCommand::Char(12)]);
    let expected = format!(
        "{HEADER}\\margt480\n{{\\pard\\sa58\\li288 Hi\\par}}\n{{\\pard\\li0 A\\~B\\{{\\}}\\\\\\par}}\n}}\n"
    );
    assert_eq!(render(&list, &glyphs()), Ok(expected));
}

#[test]
fn second_page_starts_a_section() {
    let mut list = vec![rel_y(0), rel_x(5)];
    list.extend(text("x"));
    list.extend([PclCommand::Char(12), rel_y(50), rel_x(0)]);
    list.extend(text("y"));
    list.extend([PclCommand::Char(12)]);
    let expected = format!(
        "{HEADER}\\margt0\n{{\\pard\\li24 x\\par}}\n{{\\sect\\sbkpage}}\n\\margt240\n{{\\pard\\li0 y\\par}}\n}}\n"
    );
    assert_eq!(render(&list, &glyphs()), Ok(expected));
}

#[test]
fn page_without_paragraphs() {
    let list = [rel_y(7), PclCommand::Char(12)];
    assert_eq!(render(&list, &glyphs()), Ok(format!("{HEADER}\\margt33\n}}\n")));
}

#[test]
fn horizontal_moves_in_text_become_spaces() {
    let mut list = vec![rel_y(0), rel_x(0)];
    list.extend(text("a"));
    list.extend([rel_x(60), rel_x(-30)]);
    list.extend(text("b"));
    list.extend([PclCommand::Char(12)]);
    let expected = format!("{HEADER}\\margt0\n{{\\pard\\li0 a\\~\\~b\\par}}\n}}\n");
    assert_eq!(render(&list, &glyphs()), Ok(expected));
    let bad = [rel_y(0), rel_x(0), rel_x(45)];
    assert_eq!(render(&bad, &glyphs()), Err(PclToRtfError::UnexpectedCommand(2)));
    let zero = [rel_y(0), rel_x(0), rel_x(0)];
    assert_eq!(render(&zero, &glyphs()), Err(PclToRtfError::UnexpectedCommand(2)));
}

#[test]
fn non_ascii_characters_are_written_as_unicode_escapes() {
    let mut list = vec![rel_y(0), rel_x(0)];
    list.push(PclCommand::Char(0xE4));
    list.extend([PclCommand::Char(12)]);
    let expected = format!("{HEADER}\\margt0\n{{\\pard\\li0 \\u228?\\par}}\n}}\n");
    assert_eq!(render(&list, &glyphs()), Ok(expected));
}

#[test]
fn symbol_sets_are_used_between_shift_out_and_shift_in() {
    let mut list = vec![rel_y(0), rel_x(0)];
    list.extend(text("a"));
    list.extend([PclCommand::Char(14)]);
    list.extend(text("a"));
    list.extend([PclCommand::SecondarySymbolSet(9508, b'X')]);
    list.extend(text("a"));
    list.extend([PclCommand::Char(15)]);
    list.extend(text("a"));
    list.extend([PclCommand::Char(12)]);
    let expected = format!("{HEADER}\\margt0\n{{\\pard\\li0 a\\u945?\\u969?a\\par}}\n}}\n");
    assert_eq!(render(&list, &greek()), Ok(expected));
}

#[test]
fn small_vertical_move_forbids_a_new_paragraph() {
    let mut list = vec![rel_y(0), rel_x(0)];
    list.extend(text("a"));
    list.extend([PclCommand::Char(13), rel_y(47), rel_x(0)]);
    assert_eq!(render(&list, &glyphs()), Err(PclToRtfError::UnexpectedCommand(5)));
    let mut cont = vec![rel_y(0), rel_x(0)];
    cont.extend(text("a"));
    cont.extend([PclCommand::Char(13), rel_y(-5), PclCommand::Char(12)]);
    assert_eq!(
        render(&cont, &glyphs()),
        Ok(format!("{HEADER}\\margt0\n{{\\pard\\li0 a\\par}}\n}}\n"))
    );
}

#[test]
fn space_after_of_the_smallest_new_paragraph_move() {
    let mut list = vec![rel_y(0), rel_x(0)];
    list.extend(text("a"));
    list.extend([PclCommand::Char(13), rel_y(48), rel_x(0)]);
    list.extend(text("b"));
    list.extend([PclCommand::Char(12)]);
    let expected = format!(
        "{HEADER}\\margt0\n{{\\pard\\sa0\\li0 a\\par}}\n{{\\pard\\li0 b\\par}}\n}}\n"
    );
    assert_eq!(render(&list, &glyphs()), Ok(expected));
}

#[test]
fn refused_commands() {
    assert_eq!(render(&text("A"), &glyphs()), Err(PclToRtfError::UnexpectedCommand(0)));
    assert_eq!(render(&[rel_y(-1)], &glyphs()), Err(PclToRtfError::UnexpectedCommand(0)));
    assert_eq!(
        render(&[PclCommand::LineTermination(1)], &glyphs()),
        Err(PclToRtfError::UnexpectedCommand(0))
    );
    assert_eq!(
        render(&[rel_y(0), PclCommand::Char(b'a')], &glyphs()),
        Err(PclToRtfError::UnexpectedCommand(1))
    );
    assert_eq!(
        render(&[rel_y(0), rel_x(0), PclCommand::Char(10)], &glyphs()),
        Err(PclToRtfError::UnexpectedCommand(2))
    );
    assert_eq!(
        render(&[rel_y(0), rel_x(0), PclCommand::Char(13), PclCommand::Char(12)], &glyphs()),
        Err(PclToRtfError::UnexpectedCommand(3))
    );
}

#[test]
fn stream_ending_inside_a_page() {
    assert_eq!(render(&[rel_y(0)], &glyphs()), Err(PclToRtfError::UnexpectedEnd));
    assert_eq!(render(&[rel_y(0), rel_x(0)], &glyphs()), Err(PclToRtfError::UnexpectedEnd));
}

#[test]
fn layout_error_messages() {
    assert_eq!(PclToRtfError::UnexpectedEnd.to_string(), "Unexpected end of file");
    assert_eq!(PclToRtfError::UnexpectedCommand(255).to_string(), "Unexpected command at FFh");
}

#[test]
fn glyph_tables_need_one_character_per_byte() {
    assert!(Glyphs::new(latin1(), latin1(), vec!['x'; 255]).is_none());
    assert!(Glyphs::new(vec!['x'; 257], latin1(), latin1()).is_none());
    let g = greek();
    assert_eq!(g.font_char(b'a', None), 'a');
    assert_eq!(g.font_char(b'a', Some(pcl_rtf::Font::X9500)), '\u{3b1}');
    assert_eq!(g.font_char(b'a', Some(pcl_rtf::Font::X9508)), '\u{3c9}');
}

#[test]
fn convert_whole_document() {
    let bytes = b"\x1b9\x1b*p+100Y\x1b*p+60XHi\r\x1b*p+10Y\x0c";
    let rtf = convert_pcl(&glyphs(), bytes).unwrap().unwrap();
    assert_eq!(rtf.to_string(), format!("{HEADER}\\margt480\n{{\\pard\\li288 Hi\\par}}\n}}\n"));
}

#[test]
fn convert_layout_error_before_parse_error() {
    let r = convert_pcl(&glyphs(), b"A\x1bZ");
    assert!(matches!(r, Ok(Err(PclToRtfError::UnexpectedCommand(0)))));
}

#[test]
fn convert_parse_error_decides_when_layout_has_not_failed() {
    let r = convert_pcl(&glyphs(), b"\x1b*p+100Y\x1bZ");
    assert!(matches!(r, Err(PclParserError::UnknownCommand(8))));
    let r = convert_pcl(&glyphs(), b"\x1b9\x1bZ");
    assert!(matches!(r, Err(PclParserError::UnknownCommand(2))));
}

#[test]
fn convert_agrees_with_layout_of_parsed_commands() {
    let bytes = b"\x1b*p+0Y\x1b*p+0XA\r";
    let direct = pcl_to_rtf(
        &glyphs(),
        &[(rel_y(0), 0), (rel_x(0), 6), (PclCommand::Char(b'A'), 12), (PclCommand::Char(13), 13)],
    );
    assert!(matches!(direct, Err(PclToRtfError::UnexpectedEnd)));
    assert!(matches!(convert_pcl(&glyphs(), bytes), Ok(Err(PclToRtfError::UnexpectedEnd))));
}

#[test]
fn convert_empty_input() {
    let rtf = convert_pcl(&glyphs(), b"").unwrap().unwrap();
    assert_eq!(rtf.to_string(), format!("{HEADER}}}\n"));
}
