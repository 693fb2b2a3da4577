//! Laying out a stream of PCL commands as the pages and lines of an RTF document.
//!
//! The converter is a state machine over four states: at the start of a page,
//! at the start of a line, inside a line's text, and after a carriage return.
//! Each command either moves it on or is refused with its offset.
use vstd::prelude::*;
use iter_identify_first_last::IteratorIdentifyFirstLastExt;
use crate::font::{Font, Glyphs};
use crate::pcl::{PclCommand, PclParserError, Position, next_at, parse_pcl, lemma_next_at, pulls};
use crate::text::{decimal, hex_upper, is_ascii_text, lemma_numeral_ascii, push_char, push_decimal, push_hex};

verus! {

/// Why a command stream cannot be laid out.
#[derive(Debug, Clone, Copy, PartialEq, Eq, Structural)]
pub enum PclToRtfError {
    /// The stream ended inside a page.
    UnexpectedEnd,
    /// The command at this offset is not accepted where it stands.
    UnexpectedCommand(u32),
}

/// A paragraph: left indent and space after it in twips, and its text.
pub struct LineView {
    pub indent: u32,
    pub text: Seq<char>,
    pub space_after: u32,
}

/// A page: top margin in twips, and its paragraphs.
pub struct PageView {
    pub top_margin: u32,
    pub lines: Seq<LineView>,
}

struct Line {
    indent: u32,
    text: Vec<char>,
    space_after: u32,
}

impl View for Line {
    type V = LineView;

    closed spec fn view(&self) -> LineView {
        LineView { indent: self.indent, text: self.text@, space_after: self.space_after }
    }
}

struct Page {
    top_margin: u32,
    lines: Vec<Line>,
}

impl View for Page {
    type V = PageView;

    closed spec fn view(&self) -> PageView {
        PageView { top_margin: self.top_margin, lines: self.lines@.map_values(|l: Line| l@) }
    }
}

/// An RTF document: a sequence of pages.
pub struct Rtf {
    pages: Vec<Page>,
}

impl View for Rtf {
    type V = Seq<PageView>;

    closed spec fn view(&self) -> Seq<PageView> {
        self.pages@.map_values(|p: Page| p@)
    }
}

impl Rtf {
    /// An empty document.
    fn new() -> (r: Rtf)
        ensures
            r@ == Seq::<PageView>::empty(),
    {
        let r = Rtf { pages: Vec::new() };
        assert(r@ =~= Seq::<PageView>::empty());
        r
    }

    fn add_page(&mut self, top_margin: u32)
        ensures
            final(self)@ == old(self)@.push(PageView { top_margin, lines: Seq::empty() }),
    {
        let page = Page { top_margin, lines: Vec::new() };
        assert(page@.lines =~= Seq::<LineView>::empty());
        self.pages.push(page);
        assert(self@ =~= old(self)@.push(PageView { top_margin, lines: Seq::empty() }));
    }

    fn add_line(&mut self, indent: u32)
        requires
            old(self)@.len() > 0,
        ensures
            final(self)@ == push_line(
                old(self)@,
                LineView { indent, text: Seq::empty(), space_after: 0 },
            ),
    {
        let ghost pages = self@;
        let mut page = self.pages.pop().unwrap();
        let ghost old_page = page@;
        let line = Line { indent, text: Vec::new(), space_after: 0 };
        assert(line@ == LineView { indent, text: Seq::empty(), space_after: 0 });
        page.lines.push(line);
        assert(page@.lines =~= old_page.lines.push(line@));
        self.pages.push(page);
        assert(self@ =~= push_line(pages, line@));
    }

    /// Appends `extra` to the last paragraph's text.
    fn append_to_last_line(&mut self, extra: &Vec<char>)
        requires
            old(self)@.len() > 0,
            old(self)@.last().lines.len() > 0,
        ensures
            final(self)@ == append_text(old(self)@, extra@),
    {
        let ghost pages = self@;
        let mut page = self.pages.pop().unwrap();
        let ghost old_page = page@;
        let mut line = page.lines.pop().unwrap();
        let ghost old_line = line@;
        let mut i: usize = 0;
        while i < extra.len()
            invariant
                i <= extra.len(),
                line.text@ == old_line.text + extra@.take(i as int),
                line.indent == old_line.indent,
                line.space_after == old_line.space_after,
            decreases extra.len() - i,
        {
            line.text.push(extra[i]);
            i = i + 1;
            assert(line.text@ =~= old_line.text + extra@.take(i as int));
        }
        assert(extra@.take(extra.len() as int) =~= extra@);
        let ghost new_line = line@;
        page.lines.push(line);
        assert(page@.lines =~= old_page.lines.update(old_page.lines.len() - 1, new_line));
        self.pages.push(page);
        assert(self@ =~= set_last_line(pages, new_line));
    }

    /// Sets the space after the last paragraph.
    fn set_last_space_after(&mut self, space_after: u32)
        requires
            old(self)@.len() > 0,
            old(self)@.last().lines.len() > 0,
        ensures
            final(self)@ == set_last_line(
                old(self)@,
                LineView {
                    indent: last_line(old(self)@).indent,
                    text: last_line(old(self)@).text,
                    space_after,
                },
            ),
    {
        let ghost pages = self@;
        let mut page = self.pages.pop().unwrap();
        let ghost old_page = page@;
        let mut line = page.lines.pop().unwrap();
        line.space_after = space_after;
        let ghost new_line = line@;
        page.lines.push(line);
        assert(page@.lines =~= old_page.lines.update(old_page.lines.len() - 1, new_line));
        self.pages.push(page);
        assert(self@ =~= set_last_line(pages, new_line));
    }
}

/// Where the converter stands.
#[derive(Debug, Clone, Copy, PartialEq, Eq, Structural)]
pub enum Mode {
    /// Between pages: setup commands, or the vertical move that opens a page.
    PageStart,
    /// At the start of a line; whether a new paragraph may begin here.
    LineStart(bool),
    /// Inside a paragraph's text.
    Text,
    /// After a carriage return: the vertical move to the next line.
    LineEnd,
}

/// The converter's state.
pub struct ConvState {
    pub mode: Mode,
    pub font: Font,
    pub use_font: bool,
    pub pages: Seq<PageView>,
}

/// The state before the first command.
pub open spec fn initial_state() -> ConvState {
    ConvState { mode: Mode::PageStart, font: Font::X9500, use_font: false, pages: Seq::empty() }
}

/// What every state satisfies: there is a page to write on once the first
/// page has been opened, and a paragraph to write into inside a line.
pub open spec fn state_wf(st: ConvState) -> bool {
    &&& !(st.mode is PageStart) ==> st.pages.len() > 0
    &&& (st.mode is Text || st.mode is LineEnd) ==> st.pages.last().lines.len() > 0
}

/// A non-negative coordinate in 1/120 inch, converted to twips.
pub open spec fn twips(x: i16) -> u32 {
    (x as int * 24 / 5) as u32
}

/// The pages with `line` appended to the last page.
pub open spec fn push_line(pages: Seq<PageView>, line: LineView) -> Seq<PageView> {
    let last = pages.last();
    pages.update(pages.len() - 1, PageView { top_margin: last.top_margin, lines: last.lines.push(line) })
}

/// The last paragraph of the last page.
pub open spec fn last_line(pages: Seq<PageView>) -> LineView {
    pages.last().lines.last()
}

/// The pages with the last paragraph of the last page replaced by `line`.
pub open spec fn set_last_line(pages: Seq<PageView>, line: LineView) -> Seq<PageView> {
    let last = pages.last();
    pages.update(
        pages.len() - 1,
        PageView {
            top_margin: last.top_margin,
            lines: last.lines.update(last.lines.len() - 1, line),
        },
    )
}

/// The pages with `chars` appended to the last paragraph's text.
pub open spec fn append_text(pages: Seq<PageView>, chars: Seq<char>) -> Seq<PageView> {
    let line = last_line(pages);
    set_last_line(
        pages,
        LineView { indent: line.indent, text: line.text + chars, space_after: line.space_after },
    )
}

/// The state with another mode.
pub open spec fn with_mode(st: ConvState, mode: Mode) -> ConvState {
    ConvState { mode, font: st.font, use_font: st.use_font, pages: st.pages }
}

/// The state with other pages.
pub open spec fn with_pages(st: ConvState, pages: Seq<PageView>) -> ConvState {
    ConvState { mode: st.mode, font: st.font, use_font: st.use_font, pages }
}

/// The commands accepted in every state: selecting symbol set 9500X or 9508X,
/// and shift out (14) and shift in (15), which turn that set on and off.
pub open spec fn font_command(st: ConvState, cmd: PclCommand) -> Option<ConvState> {
    match cmd {
        PclCommand::SecondarySymbolSet(n, c) => if n == 9500 && c == 88 {
            Some(ConvState { mode: st.mode, font: Font::X9500, use_font: st.use_font, pages: st.pages })
        } else if n == 9508 && c == 88 {
            Some(ConvState { mode: st.mode, font: Font::X9508, use_font: st.use_font, pages: st.pages })
        } else {
            None
        },
        PclCommand::Char(c) => if c == 14 {
            Some(ConvState { mode: st.mode, font: st.font, use_font: true, pages: st.pages })
        } else if c == 15 {
            Some(ConvState { mode: st.mode, font: st.font, use_font: false, pages: st.pages })
        } else {
            None
        },
        _ => None,
    }
}

/// Between pages, setup commands are skipped, and a relative vertical move
/// `+y` opens a page whose top margin is `y`.
pub open spec fn step_page_start(st: ConvState, cmd: PclCommand, offset: u32) -> Result<ConvState, PclToRtfError> {
    match cmd {
        PclCommand::LineTermination(n) => if n == 0 { Ok(st) } else { Err(PclToRtfError::UnexpectedCommand(offset)) },
        PclCommand::ClearHorizontalMargins => Ok(st),
        PclCommand::VerticalMotionIndex(_) => Ok(st),
        PclCommand::RasterGraphicsPresentationMode(_) => Ok(st),
        PclCommand::EndOfLineWrap(_) => Ok(st),
        PclCommand::Char(c) => if c == 13 { Ok(st) } else { Err(PclToRtfError::UnexpectedCommand(offset)) },
        PclCommand::VerticalCursorPositioning(Position::Absolute(y)) => if y == 0 {
            Ok(st)
        } else {
            Err(PclToRtfError::UnexpectedCommand(offset))
        },
        PclCommand::VerticalCursorPositioning(Position::Relative(y)) => if y >= 0 {
            Ok(ConvState {
                mode: Mode::LineStart(true),
                font: st.font,
                use_font: st.use_font,
                pages: st.pages.push(PageView { top_margin: twips(y), lines: Seq::empty() }),
            })
        } else {
            Err(PclToRtfError::UnexpectedCommand(offset))
        },
        _ => Err(PclToRtfError::UnexpectedCommand(offset)),
    }
}

/// At the start of a line, a relative horizontal move `+x` opens a paragraph
/// indented by `x` (where one may begin), and a form feed (12) ends the page.
pub open spec fn step_line_start(st: ConvState, allow: bool, cmd: PclCommand, offset: u32) -> Result<ConvState, PclToRtfError> {
    match cmd {
        PclCommand::HorizontalCursorPositioning(Position::Relative(x)) => if x >= 0 && allow {
            Ok(ConvState {
                mode: Mode::Text,
                font: st.font,
                use_font: st.use_font,
                pages: push_line(st.pages, LineView { indent: twips(x), text: Seq::empty(), space_after: 0 }),
            })
        } else {
            Err(PclToRtfError::UnexpectedCommand(offset))
        },
        PclCommand::Char(c) => if c == 12 {
            Ok(with_mode(st, Mode::PageStart))
        } else {
            Err(PclToRtfError::UnexpectedCommand(offset))
        },
        _ => Err(PclToRtfError::UnexpectedCommand(offset)),
    }
}

/// The number of spaces that a relative horizontal move of `x` stands for.
pub open spec fn spaces_for(x: i16) -> nat {
    if x > 0 { (x / 30) as nat } else { 0 }
}

/// Inside a line, a printable byte (32 or above) adds its character in the
/// current set, a relative horizontal move by a non-zero multiple of 30 adds
/// that many spaces, a carriage return (13) ends the line and a form feed (12) the page.
pub open spec fn step_text(g: Glyphs, st: ConvState, cmd: PclCommand, offset: u32) -> Result<ConvState, PclToRtfError> {
    match cmd {
        PclCommand::Char(c) => if c >= 32 {
            let font = if st.use_font { Some(st.font) } else { None };
            Ok(with_pages(st, append_text(st.pages, seq![g.glyph(c, font)])))
        } else if c == 13 {
            Ok(with_mode(st, Mode::LineEnd))
        } else if c == 12 {
            Ok(with_mode(st, Mode::PageStart))
        } else {
            Err(PclToRtfError::UnexpectedCommand(offset))
        },
        PclCommand::HorizontalCursorPositioning(Position::Relative(x)) => if x != 0 && x % 30 == 0 {
            Ok(with_pages(st, append_text(st.pages, Seq::new(spaces_for(x), |i: int| ' '))))
        } else {
            Err(PclToRtfError::UnexpectedCommand(offset))
        },
        _ => Err(PclToRtfError::UnexpectedCommand(offset)),
    }
}

/// After a carriage return, a relative vertical move `+y` of at least 48 starts
/// the next paragraph, the space after this one being `y` less the line height
/// (230 twips); a smaller move continues without a new paragraph.
pub open spec fn step_line_end(st: ConvState, cmd: PclCommand, offset: u32) -> Result<ConvState, PclToRtfError> {
    match cmd {
        PclCommand::VerticalCursorPositioning(Position::Relative(y)) => if y >= 48 {
            let line = last_line(st.pages);
            Ok(ConvState {
                mode: Mode::LineStart(true),
                font: st.font,
                use_font: st.use_font,
                pages: set_last_line(
                    st.pages,
                    LineView { indent: line.indent, text: line.text, space_after: (twips(y) - 230) as u32 },
                ),
            })
        } else {
            Ok(with_mode(st, Mode::LineStart(false)))
        },
        _ => Err(PclToRtfError::UnexpectedCommand(offset)),
    }
}

/// One command taken in a state.
pub open spec fn step(g: Glyphs, st: ConvState, cmd: PclCommand, offset: u32) -> Result<ConvState, PclToRtfError> {
    match font_command(st, cmd) {
        Some(next) => Ok(next),
        None => match st.mode {
            Mode::PageStart => step_page_start(st, cmd, offset),
            Mode::LineStart(allow) => step_line_start(st, allow, cmd, offset),
            Mode::Text => step_text(g, st, cmd, offset),
            Mode::LineEnd => step_line_end(st, cmd, offset),
        },
    }
}

/// Shift out (14) and shift in (15) are accepted in every state and turn the
/// selected symbol set on and off; no other command changes whether it is on.
pub proof fn lemma_shift_state(g: Glyphs, st: ConvState, cmd: PclCommand, offset: u32)
    ensures
        cmd == PclCommand::Char(14) ==> (step(g, st, cmd, offset) matches Ok(next) && next.use_font),
        cmd == PclCommand::Char(15) ==> (step(g, st, cmd, offset) matches Ok(next) && !next.use_font),
        cmd != PclCommand::Char(14) && cmd != PclCommand::Char(15) ==> (step(g, st, cmd, offset) matches Ok(
            next,
        ) ==> next.use_font == st.use_font),
{
}

/// `ESC ) 9500 X` and `ESC ) 9508 X` are accepted in every state and select
/// the symbol set they name; no other command changes the selected set, and
/// selecting a set changes nothing else.
pub proof fn lemma_symbol_set_selection(g: Glyphs, st: ConvState, cmd: PclCommand, offset: u32)
    ensures
        cmd == PclCommand::SecondarySymbolSet(9500, 88) ==> step(g, st, cmd, offset) == Ok::<
            ConvState,
            PclToRtfError,
        >(ConvState { mode: st.mode, font: Font::X9500, use_font: st.use_font, pages: st.pages }),
        cmd == PclCommand::SecondarySymbolSet(9508, 88) ==> step(g, st, cmd, offset) == Ok::<
            ConvState,
            PclToRtfError,
        >(ConvState { mode: st.mode, font: Font::X9508, use_font: st.use_font, pages: st.pages }),
        cmd != PclCommand::SecondarySymbolSet(9500, 88) && cmd != PclCommand::SecondarySymbolSet(
            9508,
            88,
        ) ==> (step(g, st, cmd, offset) matches Ok(next) ==> next.font == st.font),
{
}

/// Inside a line with the symbol set switched on, selecting a set and then
/// printing a byte `c` (32 or above) adds the character that `c` has in the
/// set just selected to the end of the last paragraph, and changes nothing else
/// of the document.
pub proof fn lemma_printed_in_selected_set(
    g: Glyphs,
    st: ConvState,
    font: Font,
    c: u8,
    o1: u32,
    o2: u32,
)
    requires
        state_wf(st),
        st.mode == Mode::Text,
        st.use_font,
        c >= 32,
    ensures
        ({
            let select = PclCommand::SecondarySymbolSet(
                match font {
                    Font::X9500 => 9500u16,
                    Font::X9508 => 9508u16,
                },
                88,
            );
            step(g, st, select, o1) matches Ok(st1) && step(g, st1, PclCommand::Char(c), o2) matches Ok(
                st2,
            ) && {
                let n = st.pages.len() - 1;
                let m = st.pages[n].lines.len() - 1;
                &&& st2.pages.len() == st.pages.len()
                &&& forall|i: int| 0 <= i < n ==> st2.pages[i] == st.pages[i]
                &&& st2.pages[n].top_margin == st.pages[n].top_margin
                &&& st2.pages[n].lines.len() == st.pages[n].lines.len()
                &&& forall|j: int| 0 <= j < m ==> st2.pages[n].lines[j] == st.pages[n].lines[j]
                &&& st2.pages[n].lines[m].indent == st.pages[n].lines[m].indent
                &&& st2.pages[n].lines[m].space_after == st.pages[n].lines[m].space_after
                &&& st2.pages[n].lines[m].text == st.pages[n].lines[m].text.push(g.glyph(c, Some(font)))
            }
        }),
{
    let select = PclCommand::SecondarySymbolSet(
        match font {
            Font::X9500 => 9500u16,
            Font::X9508 => 9508u16,
        },
        88,
    );
    lemma_symbol_set_selection(g, st, select, o1);
    let st1 = step(g, st, select, o1)->Ok_0;
    assert(st1.font == font);
    let line = last_line(st1.pages);
    assert(line.text + seq![g.glyph(c, Some(font))] =~= line.text.push(g.glyph(c, Some(font))));
}

/// The state after a sequence of commands, or the first refusal.
pub open spec fn run(g: Glyphs, cmds: Seq<(PclCommand, u32)>) -> Result<ConvState, PclToRtfError>
    decreases cmds.len(),
{
    if cmds.len() == 0 {
        Ok(initial_state())
    } else {
        match run(g, cmds.drop_last()) {
            Err(e) => Err(e),
            Ok(st) => step(g, st, cmds.last().0, cmds.last().1),
        }
    }
}

/// The document, if the stream ends between pages.
pub open spec fn finish(st: ConvState) -> Result<Seq<PageView>, PclToRtfError> {
    if st.mode is PageStart {
        Ok(st.pages)
    } else {
        Err(PclToRtfError::UnexpectedEnd)
    }
}

/// The document that a complete command stream lays out.
pub open spec fn rtf_of(g: Glyphs, cmds: Seq<(PclCommand, u32)>) -> Result<Seq<PageView>, PclToRtfError> {
    match run(g, cmds) {
        Err(e) => Err(e),
        Ok(st) => finish(st),
    }
}

/// The converter: the state of `ConvState` held in executable form.
struct Converter {
    mode: Mode,
    font: Font,
    use_font: bool,
    rtf: Rtf,
}

impl Converter {
    closed spec fn state(&self) -> ConvState {
        ConvState { mode: self.mode, font: self.font, use_font: self.use_font, pages: self.rtf@ }
    }

    fn new() -> (c: Converter)
        ensures
            c.state() == initial_state(),
    {
        Converter { mode: Mode::PageStart, font: Font::X9500, use_font: false, rtf: Rtf::new() }
    }

    /// Takes one command.
    fn feed(&mut self, glyphs: &Glyphs, command: PclCommand, offset: u32) -> (r: Result<(), PclToRtfError>)
        requires
            state_wf(old(self).state()),
        ensures
            match step(*glyphs, old(self).state(), command, offset) {
                Ok(st) => r is Ok && final(self).state() == st,
                Err(e) => r == Err::<(), PclToRtfError>(e),
            },
    {
        let refused = Err(PclToRtfError::UnexpectedCommand(offset));
        match command {
            PclCommand::SecondarySymbolSet(9500, 88) => {
                self.font = Font::X9500;
                return Ok(());
            },
            PclCommand::SecondarySymbolSet(9508, 88) => {
                self.font = Font::X9508;
                return Ok(());
            },
            PclCommand::Char(14) => {
                self.use_font = true;
                return Ok(());
            },
            PclCommand::Char(15) => {
                self.use_font = false;
                return Ok(());
            },
            _ => {},
        }
        match self.mode {
            Mode::PageStart => match command {
                PclCommand::LineTermination(0) | PclCommand::ClearHorizontalMargins
                | PclCommand::VerticalMotionIndex(_) | PclCommand::RasterGraphicsPresentationMode(_)
                | PclCommand::EndOfLineWrap(_) | PclCommand::VerticalCursorPositioning(
                    Position::Absolute(0),
                ) | PclCommand::Char(13) => Ok(()),
                PclCommand::VerticalCursorPositioning(Position::Relative(y)) if y >= 0 => {
                    self.rtf.add_page(y as u32 * 24 / 5);
                    self.mode = Mode::LineStart(true);
                    Ok(())
                },
                _ => refused,
            },
            Mode::LineStart(allow) => match command {
                PclCommand::HorizontalCursorPositioning(Position::Relative(x)) if x >= 0 => {
                    if !allow {
                        return refused;
                    }
                    self.rtf.add_line(x as u32 * 24 / 5);
                    self.mode = Mode::Text;
                    Ok(())
                },
                PclCommand::Char(12) => {
                    self.mode = Mode::PageStart;
                    Ok(())
                },
                _ => refused,
            },
            Mode::Text => match command {
                PclCommand::Char(c) if c >= 32 => {
                    let font = if self.use_font { Some(self.font) } else { None };
                    let extra = vec![glyphs.font_char(c, font)];
                    assert(extra@ =~= seq![glyphs.glyph(c, font)]);
                    self.rtf.append_to_last_line(&extra);
                    Ok(())
                },
                PclCommand::HorizontalCursorPositioning(Position::Relative(x)) if x != 0 && x % 30 == 0 => {
                    let mut extra: Vec<char> = Vec::new();
                    if x > 0 {
                        let n = x / 30;
                        let mut i: i16 = 0;
                        while i < n
                            invariant
                                0 <= i <= n,
                                extra@ == Seq::new(i as nat, |k: int| ' '),
                            decreases n - i,
                        {
                            extra.push(' ');
                            i = i + 1;
                            assert(extra@ =~= Seq::new(i as nat, |k: int| ' '));
                        }
                    }
                    assert(extra@ =~= Seq::new(spaces_for(x), |k: int| ' '));
                    self.rtf.append_to_last_line(&extra);
                    Ok(())
                },
                PclCommand::Char(13) => {
                    self.mode = Mode::LineEnd;
                    Ok(())
                },
                PclCommand::Char(12) => {
                    self.mode = Mode::PageStart;
                    Ok(())
                },
                _ => refused,
            },
            Mode::LineEnd => match command {
                PclCommand::VerticalCursorPositioning(Position::Relative(y)) if y >= 48 => {
                    self.rtf.set_last_space_after(y as u32 * 24 / 5 - 230);
                    self.mode = Mode::LineStart(true);
                    Ok(())
                },
                PclCommand::VerticalCursorPositioning(Position::Relative(_)) => {
                    self.mode = Mode::LineStart(false);
                    Ok(())
                },
                _ => refused,
            },
        }
    }

    /// The document, if the stream may end here.
    fn finish(self) -> (r: Result<Rtf, PclToRtfError>)
        ensures
            match finish(self.state()) {
                Ok(pages) => r matches Ok(rtf) && rtf@ == pages,
                Err(e) => r == Err::<Rtf, PclToRtfError>(e),
            },
    {
        match self.mode {
            Mode::PageStart => Ok(self.rtf),
            _ => Err(PclToRtfError::UnexpectedEnd),
        }
    }
}

/// Every command that the converter takes keeps its state well formed: once
/// a page is open there is a page to write on, and inside a line a paragraph
/// to write into.
pub proof fn lemma_step_keeps_wf(g: Glyphs, st: ConvState, cmd: PclCommand, offset: u32)
    requires
        state_wf(st),
    ensures
        step(g, st, cmd, offset) matches Ok(next) ==> state_wf(next),
{
}

/// Every state that a command stream reaches is well formed.
pub proof fn lemma_run_wf(g: Glyphs, cmds: Seq<(PclCommand, u32)>)
    ensures
        run(g, cmds) matches Ok(st) ==> state_wf(st),
    decreases cmds.len(),
{
    if cmds.len() > 0 {
        lemma_run_wf(g, cmds.drop_last());
        if let Ok(st) = run(g, cmds.drop_last()) {
            lemma_step_keeps_wf(g, st, cmds.last().0, cmds.last().1);
        }
    }
}

/// A refused command ends the conversion: no later command changes the outcome.
pub proof fn lemma_run_refusal_is_final(g: Glyphs, cmds: Seq<(PclCommand, u32)>, k: int)
    requires
        0 <= k <= cmds.len(),
        run(g, cmds.take(k)) is Err,
    ensures
        run(g, cmds) == run(g, cmds.take(k)),
    decreases cmds.len() - k,
{
    if k < cmds.len() {
        assert(cmds.take(k + 1).drop_last() =~= cmds.take(k));
        lemma_run_refusal_is_final(g, cmds, k + 1);
    } else {
        assert(cmds.take(k) =~= cmds);
    }
}

/// Lays out a command stream, each command with the offset of its first byte,
/// using `glyphs` for the characters of the printed bytes.
pub fn pcl_to_rtf(glyphs: &Glyphs, pcl: &[(PclCommand, u32)]) -> (r: Result<Rtf, PclToRtfError>)
    ensures
        match rtf_of(*glyphs, pcl@) {
            Ok(pages) => r matches Ok(rtf) && rtf@ == pages,
            Err(e) => r == Err::<Rtf, PclToRtfError>(e),
        },
{
    let mut conv = Converter::new();
    let mut i: usize = 0;
    while i < pcl.len()
        invariant
            i <= pcl.len(),
            run(*glyphs, pcl@.take(i as int)) == Ok::<ConvState, PclToRtfError>(conv.state()),
        decreases pcl.len() - i,
    {
        proof {
            lemma_run_wf(*glyphs, pcl@.take(i as int));
            assert(pcl@.take(i + 1).drop_last() =~= pcl@.take(i as int));
        }
        let (command, offset) = pcl[i];
        match conv.feed(glyphs, command, offset) {
            Ok(()) => {},
            Err(e) => {
                proof {
                    lemma_run_refusal_is_final(*glyphs, pcl@, i + 1);
                }
                return Err(e);
            },
        }
        i = i + 1;
    }
    assert(pcl@.take(pcl.len() as int) =~= pcl@);
    conv.finish()
}

/// How a character of a paragraph's text is written: a space as the
/// non-breaking `\~`, the RTF specials `\`, `{`, `}` behind a backslash, other
/// ASCII as itself, and anything else as `\uN?` with its code point in decimal.
pub open spec fn escape_char(c: char) -> Seq<char> {
    if c == ' ' {
        seq!['\\', '~']
    } else if (c as u32) < 128 {
        if c == '\\' || c == '{' || c == '}' {
            seq!['\\', c]
        } else {
            seq![c]
        }
    } else {
        seq!['\\', 'u'] + decimal(c as nat) + seq!['?']
    }
}

/// A paragraph's text as written.
pub open spec fn escape_text(t: Seq<char>) -> Seq<char>
    decreases t.len(),
{
    if t.len() == 0 {
        Seq::empty()
    } else {
        escape_text(t.drop_last()) + escape_char(t.last())
    }
}

/// A paragraph: the last one of its page has no space after.
pub open spec fn line_text(l: LineView, is_last: bool) -> Seq<char> {
    "{\\pard"@ + (if is_last {
        Seq::empty()
    } else {
        "\\sa"@ + decimal(l.space_after as nat)
    }) + "\\li"@ + decimal(l.indent as nat) + " "@ + escape_text(l.text) + "\\par}\n"@
}

/// The first `k` paragraphs of a page.
pub open spec fn lines_text(lines: Seq<LineView>, k: nat) -> Seq<char>
    decreases k,
{
    if k == 0 {
        Seq::empty()
    } else {
        lines_text(lines, (k - 1) as nat) + line_text(lines[k - 1], k == lines.len())
    }
}

/// A page: every page but the first begins with a section break.
pub open spec fn page_text(p: PageView, is_first: bool) -> Seq<char> {
    (if is_first {
        Seq::empty()
    } else {
        "{\\sect\\sbkpage}\n"@
    }) + "\\margt"@ + decimal(p.top_margin as nat) + "\n"@ + lines_text(p.lines, p.lines.len())
}

/// The first `k` pages.
pub open spec fn pages_text(pages: Seq<PageView>, k: nat) -> Seq<char>
    decreases k,
{
    if k == 0 {
        Seq::empty()
    } else {
        pages_text(pages, (k - 1) as nat) + page_text(pages[k - 1], k == 1)
    }
}

/// The document header: font table (one font, DotMatrix), A4 paper, no side or bottom margins.
pub open spec fn rtf_header() -> Seq<char> {
    "{\\rtf1\\deff0\n{\\fonttbl\n{\\f0\\fswiss\\fcharset0 DotMatrix;}\n}\n\\f0\\fs23\n\\paperw11906\\paperh16838\n\\margl0\\margr0\\margb0\n"@
}

/// The RTF text of a document.
pub open spec fn rtf_text(pages: Seq<PageView>) -> Seq<char> {
    rtf_header() + pages_text(pages, pages.len()) + "}\n"@
}

/// For each item, whether it is the first one: the flags that
/// `IteratorIdentifyFirstLastExt::identify_first` pairs the items with, which
/// are true for the first item and false for all others.
#[verifier::external_body]
fn first_flags<T>(items: &[T]) -> (flags: Vec<bool>)
    ensures
        flags@.len() == items@.len(),
        forall|i: int| 0 <= i < flags@.len() ==> flags@[i] == (i == 0),
{
    items.iter().identify_first().map(|(is_first, _)| is_first).collect()
}

/// For each item, whether it is the last one: the flags that
/// `IteratorIdentifyFirstLastExt::identify_last` pairs the items with, which
/// are true for the last item and false for all others.
#[verifier::external_body]
fn last_flags<T>(items: &[T]) -> (flags: Vec<bool>)
    ensures
        flags@.len() == items@.len(),
        forall|i: int| 0 <= i < flags@.len() ==> flags@[i] == (i == flags@.len() - 1),
{
    items.iter().identify_last().map(|(is_last, _)| is_last).collect()
}

/// Whatever characters a paragraph holds, its text is written in 7-bit ASCII:
/// spaces, specials and non-ASCII characters all become RTF escapes.
pub proof fn lemma_escape_text_ascii(t: Seq<char>)
    ensures
        is_ascii_text(escape_text(t)),
    decreases t.len(),
{
    if t.len() > 0 {
        lemma_escape_text_ascii(t.drop_last());
        let c = t.last();
        lemma_numeral_ascii(c as nat, 10);
        let a = escape_text(t.drop_last());
        let b = escape_char(c);
        assert(is_ascii_text(b));
        assert forall|i: int| 0 <= i < (a + b).len() implies ((a + b)[i] as u32) < 128 by {
            if i < a.len() {
                assert((a + b)[i] == a[i]);
            } else {
                assert((a + b)[i] == b[i - a.len()]);
            }
        }
    }
}

fn push_escaped(s: &mut String, c: char)
    ensures
        final(s)@ == old(s)@ + escape_char(c),
{
    let ghost before = s@;
    if c == ' ' {
        push_char(s, '\\');
        push_char(s, '~');
    } else if (c as u32) < 128 {
        if c == '\\' || c == '{' || c == '}' {
            push_char(s, '\\');
        }
        push_char(s, c);
    } else {
        push_char(s, '\\');
        push_char(s, 'u');
        push_decimal(s, c as u32);
        push_char(s, '?');
    }
    assert(s@ =~= before + escape_char(c));
}

fn write_line(s: &mut String, line: &Line, is_last: bool)
    ensures
        final(s)@ == old(s)@ + line_text(line@, is_last),
{
    let ghost before = s@;
    s.append("{\\pard");
    let ghost a = s@;
    if !is_last {
        s.append("\\sa");
        push_decimal(s, line.space_after);
    }
    let ghost b = s@;
    s.append("\\li");
    push_decimal(s, line.indent);
    s.append(" ");
    let ghost c = s@;
    let mut i: usize = 0;
    while i < line.text.len()
        invariant
            i <= line.text.len(),
            s@ == c + escape_text(line.text@.take(i as int)),
        decreases line.text.len() - i,
    {
        push_escaped(s, line.text[i]);
        proof {
            let t = line.text@.take(i + 1);
            assert(t.drop_last() =~= line.text@.take(i as int));
            assert(s@ =~= c + escape_text(t));
        }
        i = i + 1;
    }
    assert(line.text@.take(line.text.len() as int) =~= line.text@);
    s.append("\\par}\n");
    assert(s@ =~= before + line_text(line@, is_last));
}

fn write_page(s: &mut String, page: &Page, is_first: bool)
    ensures
        final(s)@ == old(s)@ + page_text(page@, is_first),
{
    let ghost before = s@;
    if !is_first {
        s.append("{\\sect\\sbkpage}\n");
    }
    s.append("\\margt");
    push_decimal(s, page.top_margin);
    s.append("\n");
    let ghost c = s@;
    let n = page.lines.len();
    let is_last = last_flags(page.lines.as_slice());
    let mut j: usize = 0;
    while j < n
        invariant
            j <= n,
            n == page.lines.len(),
            is_last@.len() == n,
            forall|k: int| 0 <= k < n ==> is_last@[k] == (k == n - 1),
            s@ == c + lines_text(page@.lines, j as nat),
        decreases n - j,
    {
        write_line(s, &page.lines[j], is_last[j]);
        j = j + 1;
        assert(s@ =~= c + lines_text(page@.lines, j as nat));
    }
    assert(s@ =~= before + page_text(page@, is_first));
}

impl Rtf {
    /// The RTF text of the document.
    pub fn to_string(&self) -> (s: String)
        ensures
            s@ == rtf_text(self@),
    {
        let mut s = String::from_str("{\\rtf1\\deff0\n{\\fonttbl\n{\\f0\\fswiss\\fcharset0 DotMatrix;}\n}\n\\f0\\fs23\n\\paperw11906\\paperh16838\n\\margl0\\margr0\\margb0\n");
        let ghost c = s@;
        let n = self.pages.len();
        let is_first = first_flags(self.pages.as_slice());
        let mut i: usize = 0;
        while i < n
            invariant
                i <= n,
                n == self.pages.len(),
                is_first@.len() == n,
                forall|k: int| 0 <= k < n ==> is_first@[k] == (k == 0),
                s@ == c + pages_text(self@, i as nat),
            decreases n - i,
        {
            write_page(&mut s, &self.pages[i], is_first[i]);
            i = i + 1;
            assert(s@ =~= c + pages_text(self@, i as nat));
        }
        s.append("}\n");
        assert(s@ =~= rtf_text(self@));
        s
    }
}

/// The message of an error, as the command line tool prints it.
pub open spec fn to_rtf_error_message(e: PclToRtfError) -> Seq<char> {
    match e {
        PclToRtfError::UnexpectedEnd => "Unexpected end of file"@,
        PclToRtfError::UnexpectedCommand(x) => "Unexpected command at "@ + hex_upper(x as nat) + "h"@,
    }
}

impl PclToRtfError {
    /// The message of the error: the offset in upper-case hexadecimal followed by `h`.
    pub fn to_string(&self) -> (s: String)
        ensures
            s@ == to_rtf_error_message(*self),
    {
        match self {
            PclToRtfError::UnexpectedEnd => String::from_str("Unexpected end of file"),
            PclToRtfError::UnexpectedCommand(x) => {
                let mut s = String::from_str("Unexpected command at ");
                push_hex(&mut s, *x);
                s.append("h");
                s
            },
        }
    }
}

/// The commands that the input parses into from `pos` on, up to the first
/// error, and that error if there is one.
pub open spec fn commands_from(s: Seq<u8>, pos: nat) -> (Seq<(PclCommand, u32)>, Option<PclParserError>)
    decreases s.len() - pos,
{
    if pos >= s.len() {
        (Seq::empty(), None)
    } else {
        proof {
            lemma_next_at(s, pos);
        }
        match next_at(s, pos) {
            (Some(Ok(c)), q) => {
                let (rest, e) = commands_from(s, q);
                (seq![c] + rest, e)
            },
            (Some(Err(e)), _) => (Seq::empty(), Some(e)),
            (None, _) => (Seq::empty(), None),
        }
    }
}

/// The commands that parsing gives are those of successive pulls: if the
/// first `k` pulls from `pos` each yield a command, those commands begin the
/// sequence, in order; if the pull after them yields nothing, they are all of
/// it and there is no error; if it yields an error, they are all of it and
/// that is the error.
pub proof fn lemma_commands_are_the_pulls(s: Seq<u8>, pos: nat, k: nat)
    requires
        forall|i: int| 0 <= i < k ==> (#[trigger] pulls(s, pos, k)[i]).0 is Some && pulls(s, pos, k)[i].0->0 is Ok,
    ensures
        commands_from(s, pos).0.len() >= k,
        forall|i: int|
            0 <= i < k ==> (#[trigger] pulls(s, pos, k)[i]).0 == Some(
                Ok::<(PclCommand, u32), PclParserError>(commands_from(s, pos).0[i]),
            ),
        pulls(s, pos, k + 1)[k as int].0 is None ==> commands_from(s, pos).0.len() == k
            && commands_from(s, pos).1 is None,
        pulls(s, pos, k + 1)[k as int].0 matches Some(Err(e)) ==> commands_from(s, pos).0.len() == k
            && commands_from(s, pos).1 == Some(e),
    decreases k,
{
    let (r, q) = next_at(s, pos);
    assert(pulls(s, pos, k + 1) == seq![(r, pos)] + pulls(s, q, k));
    crate::pcl::lemma_pulls_len(s, q, k);
    if k == 0 {
        assert(pulls(s, pos, 1)[0] == (r, pos));
        if pos < s.len() {
            lemma_next_at(s, pos);
        }
    } else {
        assert(pulls(s, pos, k) == seq![(r, pos)] + pulls(s, q, (k - 1) as nat));
        crate::pcl::lemma_pulls_len(s, q, (k - 1) as nat);
        assert(pulls(s, pos, k)[0] == (r, pos));
        assert(r is Some && r->0 is Ok);
        assert(pos < s.len());
        lemma_next_at(s, pos);
        let rest = pulls(s, q, (k - 1) as nat);
        assert forall|i: int| 0 <= i < k - 1 implies (#[trigger] rest[i]).0 is Some && rest[i].0->0 is Ok by {
            assert(pulls(s, pos, k)[i + 1] == rest[i]);
        }
        lemma_commands_are_the_pulls(s, q, (k - 1) as nat);
        let c = r->0->Ok_0;
        assert(commands_from(s, pos).0 == seq![c] + commands_from(s, q).0);
        assert(commands_from(s, pos).1 == commands_from(s, q).1);
        assert forall|i: int| 0 <= i < k implies (#[trigger] pulls(s, pos, k)[i]).0 == Some(
            Ok::<(PclCommand, u32), PclParserError>(commands_from(s, pos).0[i]),
        ) by {
            if i > 0 {
                assert(pulls(s, pos, k)[i] == rest[i - 1]);
            }
        }
        assert(pulls(s, pos, k + 1)[k as int] == pulls(s, q, k)[k - 1]);
    }
}

/// Parsing and layout run together, each command laid out as soon as it is
/// parsed: a command that the layout refuses decides the outcome even if the
/// input goes wrong later; otherwise a parse error decides it; otherwise the
/// layout of the whole stream.
pub open spec fn convert_of(g: Glyphs, s: Seq<u8>) -> Result<Result<Seq<PageView>, PclToRtfError>, PclParserError> {
    let (cmds, err) = commands_from(s, 0);
    match run(g, cmds) {
        Err(e) => Ok(Err(e)),
        Ok(st) => match err {
            Some(pe) => Err(pe),
            None => Ok(finish(st)),
        },
    }
}

/// Converts a PCL byte stream into an RTF document, parsing lazily: the outer
/// error is the parser's, the inner one the layout's.
pub fn convert_pcl(glyphs: &Glyphs, bytes: &[u8]) -> (r: Result<Result<Rtf, PclToRtfError>, PclParserError>)
    ensures
        match convert_of(*glyphs, bytes@) {
            Ok(Ok(pages)) => r matches Ok(Ok(rtf)) && rtf@ == pages,
            Ok(Err(e)) => r == Ok::<Result<Rtf, PclToRtfError>, PclParserError>(Err(e)),
            Err(e) => r matches Err(e2) && e2 == e,
        },
{
    let ghost s = bytes@;
    let ghost g = *glyphs;
    let ghost all = commands_from(s, 0);
    let mut parser = parse_pcl(bytes);
    let mut conv = Converter::new();
    let ghost mut done: Seq<(PclCommand, u32)> = Seq::empty();
    assert(done + commands_from(s, 0).0 =~= all.0);
    loop
        invariant
            s == bytes@,
            parser.input() == s,
            parser.position() <= s.len(),
            g == *glyphs,
            all == commands_from(s, 0),
            all.0 == done + commands_from(s, parser.position()).0,
            all.1 == commands_from(s, parser.position()).1,
            run(g, done) == Ok::<ConvState, PclToRtfError>(conv.state()),
        decreases s.len() - parser.position(),
    {
        let ghost p = parser.position();
        proof {
            lemma_run_wf(g, done);
        }
        match parser.next() {
            None => {
                assert(done =~= all.0);
                return Ok(conv.finish());
            },
            Some(Err(e)) => {
                assert(done =~= all.0);
                return Err(e);
            },
            Some(Ok((command, offset))) => {
                let ghost q = parser.position();
                let ghost rest = commands_from(s, q).0;
                proof {
                    lemma_next_at(s, p);
                    assert(commands_from(s, p).0 == seq![(command, offset)] + rest);
                    assert(done.push((command, offset)).drop_last() =~= done);
                    assert(all.0 =~= done.push((command, offset)) + rest);
                }
                match conv.feed(glyphs, command, offset) {
                    Ok(()) => {
                        proof {
                            done = done.push((command, offset));
                        }
                    },
                    Err(e) => {
                        proof {
                            let k = done.len() + 1;
                            assert(all.0.take(k as int) =~= done.push((command, offset)));
                            lemma_run_refusal_is_final(g, all.0, k as int);
                        }
                        return Ok(Err(e));
                    },
                }
            },
        }
    }
}

/// On an input that parses without error, converting it is laying out its commands.
pub proof fn lemma_convert_parsed_input(g: Glyphs, s: Seq<u8>)
    requires
        commands_from(s, 0).1 is None,
    ensures
        convert_of(g, s) == Ok::<Result<Seq<PageView>, PclToRtfError>, PclParserError>(
            rtf_of(g, commands_from(s, 0).0),
        ),
{
}

} // verus!
