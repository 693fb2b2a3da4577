//! The printer's character sets: which Unicode character each printed byte stands for.
use vstd::prelude::*;

verus! {

/// The secondary symbol sets that a document can select.
#[derive(Debug, Clone, Copy, PartialEq, Eq, Structural)]
pub enum Font {
    /// Symbol set 9500X.
    X9500,
    /// Symbol set 9508X.
    X9508,
}

/// One character per byte value for the primary set and for each secondary symbol set.
pub struct Glyphs {
    plain: Vec<char>,
    x9500: Vec<char>,
    x9508: Vec<char>,
}

impl Glyphs {
    #[verifier::type_invariant]
    spec fn inv(&self) -> bool {
        &&& self.plain@.len() == 256
        &&& self.x9500@.len() == 256
        &&& self.x9508@.len() == 256
    }

    /// The table of a set: the primary set for `None`.
    pub closed spec fn table(&self, font: Option<Font>) -> Seq<char> {
        match font {
            None => self.plain@,
            Some(Font::X9500) => self.x9500@,
            Some(Font::X9508) => self.x9508@,
        }
    }

    /// The character that byte `c` prints in the given set.
    pub open spec fn glyph(&self, c: u8, font: Option<Font>) -> char {
        self.table(font)[c as int]
    }

    /// The tables, if each has exactly one character for every byte value.
    pub fn new(plain: Vec<char>, x9500: Vec<char>, x9508: Vec<char>) -> (r: Option<Glyphs>)
        ensures
            r is Some <==> plain@.len() == 256 && x9500@.len() == 256 && x9508@.len() == 256,
            r matches Some(g) ==> g.table(None) == plain@ && g.table(Some(Font::X9500)) == x9500@
                && g.table(Some(Font::X9508)) == x9508@,
    {
        if plain.len() == 256 && x9500.len() == 256 && x9508.len() == 256 {
            Some(Glyphs { plain, x9500, x9508 })
        } else {
            None
        }
    }

    /// The character that byte `c` prints in the given set.
    pub fn font_char(&self, c: u8, font: Option<Font>) -> (r: char)
        ensures
            r == self.glyph(c, font),
    {
        proof {
            use_type_invariant(self);
        }
        match font {
            None => self.plain[c as usize],
            Some(Font::X9500) => self.x9500[c as usize],
            Some(Font::X9508) => self.x9508[c as usize],
        }
    }
}

} // verus!
