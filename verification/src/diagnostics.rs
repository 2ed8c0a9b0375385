use vstd::prelude::*;

use crate::positions::{position, spec_position, Position};
use crate::text::str_eq;
use vstd::string::StringSliceAdditionalSpecFns;

verus! {

/// Lexer diagnostic codes whose offsets point at the offending source.
pub open spec fn precise_code(code: Seq<char>) -> bool {
    code == "LEX_SHEBANG_NOT_FIRST"@ || code == "LEX_UNTERMINATED_COMMENT"@ || code
        == "LEX_BAD_CONTINUATION"@ || code == "LEX_INTERPOLATION_OUTSIDE_LITERAL"@ || code
        == "LEX_UNTERMINATED_LITERAL"@ || code == "LEX_INVALID_IDENTIFIER"@ || code
        == "LEX_BAD_LITERAL_PREFIX"@
}

/// Where a lexer diagnostic with `code` at byte `offset` of the text `b`
/// is shown: at that offset's position for codes with precise offsets, and
/// nowhere (it is only logged) otherwise.
pub open spec fn spec_locate(b: Seq<u8>, code: Seq<char>, offset: int) -> Option<Position> {
    if precise_code(code) {
        spec_position(b, offset)
    } else {
        None
    }
}

/// Where a lexer diagnostic with `code` at byte `offset` of `text` is shown;
/// see [`spec_locate`].
pub fn locate(text: &str, code: &str, offset: usize) -> (result: Option<Position>)
    ensures
        result == if precise_code(code@) {
            spec_position(text.spec_bytes(), offset as int)
        } else {
            None
        },
        result == spec_locate(text.spec_bytes(), code@, offset as int),
{
    let precise = str_eq(code, "LEX_SHEBANG_NOT_FIRST") || str_eq(code, "LEX_UNTERMINATED_COMMENT")
        || str_eq(code, "LEX_BAD_CONTINUATION") || str_eq(code, "LEX_INTERPOLATION_OUTSIDE_LITERAL")
        || str_eq(code, "LEX_UNTERMINATED_LITERAL") || str_eq(code, "LEX_INVALID_IDENTIFIER")
        || str_eq(code, "LEX_BAD_LITERAL_PREFIX");
    if precise {
        position(text, offset)
    } else {
        None
    }
}

/// Diagnostics are shown where they happened exactly for the lexer codes
/// whose offsets are precise: each of the codes for a shebang that is not
/// first, an unterminated comment, a bad line continuation, interpolation
/// outside a literal, an unterminated literal, an invalid identifier and a
/// bad literal prefix is placed at the position of its offset, and every
/// other code is only logged.
pub proof fn law_precise_codes_are_located(text: Seq<u8>, code: Seq<char>, offset: int)
    ensures
        (code == "LEX_SHEBANG_NOT_FIRST"@ || code == "LEX_UNTERMINATED_COMMENT"@ || code
            == "LEX_BAD_CONTINUATION"@ || code == "LEX_INTERPOLATION_OUTSIDE_LITERAL"@ || code
            == "LEX_UNTERMINATED_LITERAL"@ || code == "LEX_INVALID_IDENTIFIER"@ || code
            == "LEX_BAD_LITERAL_PREFIX"@) ==> spec_locate(text, code, offset) == spec_position(text, offset),
        !(code == "LEX_SHEBANG_NOT_FIRST"@ || code == "LEX_UNTERMINATED_COMMENT"@ || code
            == "LEX_BAD_CONTINUATION"@ || code == "LEX_INTERPOLATION_OUTSIDE_LITERAL"@ || code
            == "LEX_UNTERMINATED_LITERAL"@ || code == "LEX_INVALID_IDENTIFIER"@ || code
            == "LEX_BAD_LITERAL_PREFIX"@) ==> spec_locate(text, code, offset) is None,
{
}

} // verus!
