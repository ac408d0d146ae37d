//! Parser and serializer for the `.map` text format used by Quake-style
//! level editors, with the Standard and the Valve texture-alignment
//! flavours.
//!
//! The grammar is whitespace- and comment-transparent: any run of blanks
//! and `//` line comments between tokens is a separator.  A parsed document
//! is a tree of entities, brushes, planes and key/value fields; numeric
//! literals are kept verbatim as text, so a well-formed tree renders back
//! to text that parses to the same tree.

pub mod lexer;
pub mod grammar;
pub mod shared;
pub mod formats;
pub mod standard;
pub mod valve;
pub mod stub;

pub use formats::{Format, MapFile};
pub use standard::Standard;
pub use valve::Valve;

use vstd::prelude::*;

verus! {

/// Why a whole-document parse failed.
#[derive(Debug, Clone, Copy, PartialEq)]
pub enum ParseError {
    /// No document could be recognised at the start of the input.
    Syntax,
    /// A document was recognised, but the bytes from `pos` on are neither
    /// separator nor entity.
    Trailing { pos: usize },
}

/// Parse a whole map document in format `F`, demanding that the input be
/// consumed entirely: trailing bytes that are neither separator nor entity
/// are an error, not ignored.  For embedding a document inside a larger
/// grammar use [`MapFile::parse`], which reports the unconsumed rest
/// instead.
pub fn parse<F: Format>(input: &[u8]) -> (r: Result<MapFile<F>, ParseError>)
    ensures
        match r {
            Ok(m) => MapFile::<F>::spec_parse(input@) == Some((m@, Seq::<u8>::empty())),
            Err(e) => match e {
                ParseError::Syntax => MapFile::<F>::spec_parse(input@) is None,
                ParseError::Trailing { pos } => pos <= input@.len() && (MapFile::<
                    F,
                >::spec_parse(input@) matches Some((v, rest)) && rest == input@.skip(
                    pos as int,
                ) && rest.len() > 0),
            },
        },
{
    proof {
        assert(input@.skip(0) =~= input@);
    }
    match MapFile::<F>::parse(input, 0) {
        Some((m, j)) => {
            if j == input.len() {
                proof {
                    assert(input@.skip(j as int) =~= Seq::<u8>::empty());
                }
                Ok(m)
            } else {
                Err(ParseError::Trailing { pos: j })
            }
        },
        None => Err(ParseError::Syntax),
    }
}

} // verus!
