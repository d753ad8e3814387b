//! The output styles, and the text of one level of indentation.

use vstd::prelude::*;
use vstd::slice::slice_to_vec;
use vstd::string::{is_ascii_spec_bytes, StringExecFns};
use vstd::utf8::is_ascii_chars;
use crate::lexical::{SPACE, TAB};

verus! {

/// What one level of indentation is made of.
#[derive(Clone, Copy, Debug, PartialEq, Eq, Structural)]
pub enum Indentation {
    /// That many spaces.
    Spaces(u8),
    /// One tab.
    Tabs,
}

/// How the document is laid out. It is chosen once and holds for a whole run.
#[derive(Clone, Copy, Debug, PartialEq, Eq, Structural)]
pub enum JSONFormatStyle {
    /// No whitespace between tokens.
    Compact,
    /// One member per line, indented by its depth.
    Pretty(Indentation),
}

/// The least and the greatest number of spaces that a level may have.
pub const MIN_SPACES: u8 = 1;

pub const MAX_SPACES: u8 = 16;

/// The number of spaces used where none is asked for.
pub const DEFAULT_SPACES: u8 = 4;

impl Indentation {
    /// Whether the unit is a tab, or a number of spaces within the limits.
    pub open spec fn valid(self) -> bool {
        match self {
            Indentation::Spaces(n) => MIN_SPACES <= n <= MAX_SPACES,
            Indentation::Tabs => true,
        }
    }

    /// The characters of one level.
    pub open spec fn text(self) -> Seq<char> {
        match self {
            Indentation::Spaces(n) => Seq::new(n as nat, |i: int| ' '),
            Indentation::Tabs => seq!['\t'],
        }
    }

    /// The bytes of one level.
    pub open spec fn unit(self) -> Seq<u8> {
        match self {
            Indentation::Spaces(n) => Seq::new(n as nat, |i: int| SPACE),
            Indentation::Tabs => seq![TAB],
        }
    }
}

impl JSONFormatStyle {
    /// Whether the style's indentation is valid.
    pub open spec fn valid(self) -> bool {
        match self {
            JSONFormatStyle::Compact => true,
            JSONFormatStyle::Pretty(ind) => ind.valid(),
        }
    }
}

/// The text of one level of indentation.
pub fn render_indent(indent: &Indentation) -> (r: String)
    ensures
        r@ == indent.text(),
{
    match indent {
        Indentation::Spaces(n) => {
            let mut out = String::new();
            let mut k: u8 = 0;
            while k < *n
                invariant
                    k <= *n,
                    out@ == Seq::new(k as nat, |i: int| ' '),
                decreases *n - k,
            {
                proof {
                    reveal_strlit(" ");
                }
                out.append(" ");
                k = k + 1;
                assert(out@ =~= Seq::new(k as nat, |i: int| ' '));
            }
            out
        },
        Indentation::Tabs => {
            proof {
                reveal_strlit("\t");
            }
            let out = String::from_str("\t");
            assert(out@ =~= seq!['\t']);
            out
        },
    }
}

/// The bytes of one level of indentation: those of its text.
pub fn indent_bytes(indent: &Indentation) -> (r: Vec<u8>)
    ensures
        r@ == indent.unit(),
{
    let text = render_indent(indent);
    let shown: &str = text.as_str();
    let bytes = shown.as_bytes();
    proof {
        assert(is_ascii_chars(shown@));
        is_ascii_spec_bytes(shown);
        assert(bytes@ =~= indent.unit());
    }
    slice_to_vec(bytes)
}

} // verus!
