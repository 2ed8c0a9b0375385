use vstd::prelude::*;

use crate::ascii::{CR, LF, SPACE, TAB};
use vstd::string::StringSliceAdditionalSpecFns;
use vstd::utf8::{
    decode_utf8, encode_scalar, encode_utf8, encode_utf8_decode_utf8, encode_utf8_valid_utf8, is_char_boundary, is_char_boundary_iff_not_is_continuation_byte,
    is_char_boundary_start_end_of_seq, is_continuation_byte, is_leading_byte_width_1,
    length_of_first_scalar, pop_first_scalar, valid_utf8, valid_utf8_concat, valid_utf8_split,
};

verus! {

/// Carriage return or line feed.
pub open spec fn is_line_break(c: u8) -> bool {
    c == CR || c == LF
}

/// Space or horizontal tab.
pub open spec fn is_blank(c: u8) -> bool {
    c == SPACE || c == TAB
}

/// Every byte in `lo..hi` is blank.
pub open spec fn all_blank(b: Seq<u8>, lo: int, hi: int) -> bool {
    forall|k: int| lo <= k < hi ==> #[trigger] is_blank(b[k])
}

/// `k` copies of `unit`, one after another.
pub open spec fn repeat(unit: Seq<u8>, k: nat) -> Seq<u8>
    decreases k,
{
    if k == 0 {
        Seq::empty()
    } else {
        repeat(unit, (k - 1) as nat) + unit
    }
}

/// Every byte is ASCII.
pub open spec fn all_ascii(b: Seq<u8>) -> bool {
    forall|k: int| 0 <= k < b.len() ==> #[trigger] b[k] < 128
}

/// A byte sequence made of ASCII bytes is valid UTF-8.
pub proof fn lemma_ascii_valid(b: Seq<u8>)
    requires
        all_ascii(b),
    ensures
        valid_utf8(b),
    decreases b.len(),
{
    if b.len() != 0 {
        assert(is_leading_byte_width_1(b[0]));
        assert(length_of_first_scalar(b) == 1);
        let rest = pop_first_scalar(b);
        assert(rest =~= b.subrange(1, b.len() as int));
        assert(all_ascii(rest)) by {
            assert forall|k: int| 0 <= k < rest.len() implies #[trigger] rest[k] < 128 by {
                assert(rest[k] == b[k + 1]);
            }
        }
        lemma_ascii_valid(rest);
    }
}

/// Repeating an ASCII unit yields ASCII.
pub proof fn lemma_repeat_ascii(unit: Seq<u8>, k: nat)
    requires
        all_ascii(unit),
    ensures
        all_ascii(repeat(unit, k)),
        repeat(unit, k).len() == k * unit.len(),
    decreases k,
{
    if k > 0 {
        lemma_repeat_ascii(unit, (k - 1) as nat);
        let r = repeat(unit, (k - 1) as nat);
        assert(repeat(unit, k) == r + unit);
        assert forall|j: int| 0 <= j < (r + unit).len() implies #[trigger] (r + unit)[j] < 128 by {
            if j < r.len() {
                assert((r + unit)[j] == r[j]);
            } else {
                assert((r + unit)[j] == unit[j - r.len()]);
            }
        }
        let a: int = (k - 1) as int;
        let u: int = unit.len() as int;
        assert(a * u + u == (a + 1) * u) by (nonlinear_arith);
        assert(repeat(unit, k).len() == r.len() + unit.len());
    } else {
        assert(k == 0);
        assert(0 * unit.len() == 0) by (nonlinear_arith);
    }
}

/// In valid UTF-8, the position after an ASCII byte that starts a character
/// also starts a character (or is the end).
pub proof fn lemma_boundary_after_ascii(b: Seq<u8>, i: int)
    requires
        valid_utf8(b),
        0 <= i < b.len(),
        is_char_boundary(b, i),
        b[i] < 128,
    ensures
        is_char_boundary(b, i + 1),
    decreases b.len(),
{
    reveal_with_fuel(is_char_boundary, 2);
    let k = length_of_first_scalar(b);
    let rest = pop_first_scalar(b);
    if i == 0 {
        assert(k == 1);
        assert(is_char_boundary(rest, 0));
    } else {
        assert(is_char_boundary(rest, i - k));
        assert(rest.len() == b.len() - k);
        assert(i - k >= 0);
        assert(rest[i - k] == b[i]);
        lemma_boundary_after_ascii(rest, i - k);
    }
}

/// A character boundary of `b` at or before another boundary `hi` is also a
/// boundary of the prefix of `b` that ends at `hi`.
pub proof fn lemma_boundary_in_prefix(b: Seq<u8>, lo: int, hi: int)
    requires
        valid_utf8(b),
        0 <= lo <= hi <= b.len(),
        is_char_boundary(b, lo),
        is_char_boundary(b, hi),
    ensures
        valid_utf8(b.subrange(0, hi)),
        is_char_boundary(b.subrange(0, hi), lo),
{
    valid_utf8_split(b, hi);
    let p = b.subrange(0, hi);
    if lo == hi {
        is_char_boundary_start_end_of_seq(p);
    } else {
        is_char_boundary_iff_not_is_continuation_byte(b, lo);
        assert(p[lo] == b[lo]);
        is_char_boundary_iff_not_is_continuation_byte(p, lo);
    }
}

/// The bytes between two character boundaries of valid UTF-8 are valid UTF-8.
pub proof fn lemma_subrange_valid(b: Seq<u8>, lo: int, hi: int)
    requires
        valid_utf8(b),
        0 <= lo <= hi <= b.len(),
        is_char_boundary(b, lo),
        is_char_boundary(b, hi),
    ensures
        valid_utf8(b.subrange(lo, hi)),
{
    lemma_boundary_in_prefix(b, lo, hi);
    let p = b.subrange(0, hi);
    valid_utf8_split(p, lo);
    assert(p.subrange(lo, p.len() as int) =~= b.subrange(lo, hi));
}

/// Skipping ASCII bytes from a character boundary lands on a boundary.
pub proof fn lemma_boundary_after_ascii_run(b: Seq<u8>, lo: int, hi: int)
    requires
        valid_utf8(b),
        0 <= lo <= hi <= b.len(),
        is_char_boundary(b, lo),
        forall|k: int| lo <= k < hi ==> #[trigger] b[k] < 128,
    ensures
        is_char_boundary(b, hi),
    decreases hi - lo,
{
    if lo < hi {
        lemma_boundary_after_ascii(b, lo);
        lemma_boundary_after_ascii_run(b, lo + 1, hi);
    }
}

/// The UTF-8 encoding of characters.
pub open spec fn chars_bytes(chars: Seq<char>) -> Seq<u8> {
    encode_utf8(chars)
}

/// The UTF-8 encoding of a string.
pub open spec fn string_bytes(s: String) -> Seq<u8> {
    encode_utf8(s@)
}

/// `String::from_utf8` on bytes known to be UTF-8: the string those bytes encode.
#[verifier::external_body]
pub(crate) fn string_from_utf8(bytes: Vec<u8>) -> (s: String)
    requires
        valid_utf8(bytes@),
    ensures
        s@ == decode_utf8(bytes@),
{
    match String::from_utf8(bytes) {
        Ok(s) => s,
        Err(_) => String::new(),
    }
}

/// The encoding of an ASCII character is its code.
pub proof fn lemma_encode_ascii_char(c: char)
    requires
        (c as u32) < 128,
    ensures
        encode_utf8(seq![c]) == seq![(c as u32) as u8],
{
    let v = c as u32;
    assert((v & 0x7F) as u8 == v as u8) by (bit_vector)
        requires
            v < 128,
    ;
    let one = seq![c];
    assert(one.drop_first() =~= Seq::<char>::empty());
    assert(encode_utf8(one.drop_first()) =~= Seq::<u8>::empty());
    assert(one[0] as u32 == v);
    assert(encode_scalar(v) =~= seq![(v & 0x7F) as u8]);
    assert(encode_utf8(one) == encode_scalar(v) + encode_utf8(one.drop_first()));
    assert(encode_utf8(one) =~= seq![(c as u32) as u8]);
}

/// Whether two strings hold the same characters.
pub fn str_eq(a: &str, b: &str) -> (result: bool)
    ensures
        result == (a@ == b@),
{
    let x = a.as_bytes();
    let y = b.as_bytes();
    proof {
        encode_utf8_decode_utf8(a@);
        encode_utf8_decode_utf8(b@);
    }
    if x.len() != y.len() {
        return false;
    }
    let mut i: usize = 0;
    while i < x.len()
        invariant
            x@ == a.spec_bytes(),
            y@ == b.spec_bytes(),
            x@.len() == y@.len(),
            i <= x@.len(),
            forall|k: int| 0 <= k < i ==> x@[k] == y@[k],
        decreases x@.len() - i,
    {
        if x[i] != y[i] {
            return false;
        }
        i = i + 1;
    }
    assert(x@ =~= y@);
    true
}

/// The part of `s` between two character boundaries, by byte offsets.
pub fn substr<'a>(s: &'a str, lo: usize, hi: usize) -> (result: &'a str)
    requires
        lo <= hi <= s.spec_bytes().len(),
        is_char_boundary(s.spec_bytes(), lo as int),
        is_char_boundary(s.spec_bytes(), hi as int),
    ensures
        result.spec_bytes() == s.spec_bytes().subrange(lo as int, hi as int),
{
    let ghost b = s.spec_bytes();
    proof {
        encode_utf8_valid_utf8(s@);
        valid_utf8_split(b, lo as int);
    }
    let (_, rest) = s.split_at(lo);
    proof {
        let r = rest.spec_bytes();
        assert(r =~= b.subrange(lo as int, b.len() as int));
        if hi < b.len() {
            is_char_boundary_iff_not_is_continuation_byte(b, hi as int);
            assert(r[hi - lo] == b[hi as int]);
            is_char_boundary_iff_not_is_continuation_byte(r, hi - lo);
        } else {
            is_char_boundary_start_end_of_seq(r);
        }
    }
    let (mid, _) = rest.split_at(hi - lo);
    assert(mid.spec_bytes() =~= b.subrange(lo as int, hi as int));
    mid
}

/// An ASCII letter.
pub open spec fn ascii_letter(c: char) -> bool {
    ('a' <= c && c <= 'z') || ('A' <= c && c <= 'Z')
}

/// Whether a character is alphanumeric in Unicode's sense (`char::is_alphanumeric`).
pub uninterp spec fn char_alphanumeric(c: char) -> bool;

/// Whether a character is alphabetic in Unicode's sense (`char::is_alphabetic`).
pub uninterp spec fn char_alphabetic(c: char) -> bool;

/// Alphanumeric as `char::is_alphanumeric` has it: among ASCII characters,
/// the letters and digits.
pub open spec fn alphanumeric(c: char) -> bool {
    if (c as u32) < 128 {
        ascii_letter(c) || ('0' <= c && c <= '9')
    } else {
        char_alphanumeric(c)
    }
}

/// Alphabetic as `char::is_alphabetic` has it: among ASCII characters, the
/// letters.
pub open spec fn alphabetic(c: char) -> bool {
    if (c as u32) < 128 {
        ascii_letter(c)
    } else {
        char_alphabetic(c)
    }
}

/// `char::is_alphanumeric`: whether `c` has Unicode's Alphabetic property
/// or a numeric general category. The tables are not restated here; the
/// contract names the result as a function of `c` alone.
#[verifier::external_body]
pub(crate) fn is_alphanumeric(c: char) -> (result: bool)
    ensures
        result == char_alphanumeric(c),
        (c as u32) < 128 ==> (result <==> ascii_letter(c) || ('0' <= c && c <= '9')),
{
    c.is_alphanumeric()
}

/// `char::is_alphabetic`: whether `c` has Unicode's Alphabetic property.
/// The tables are not restated here; the contract names the result as a
/// function of `c` alone.
#[verifier::external_body]
pub(crate) fn is_alphabetic(c: char) -> (result: bool)
    ensures
        result == char_alphabetic(c),
        (c as u32) < 128 ==> (result <==> ascii_letter(c)),
{
    c.is_alphabetic()
}


/// The contents of each string.
pub open spec fn string_views(strings: Seq<String>) -> Seq<Seq<char>> {
    strings.map_values(|s: String| s@)
}

/// The contents of each string, by index.
pub proof fn lemma_string_views(strings: Seq<String>)
    ensures
        string_views(strings).len() == strings.len(),
        forall|i: int| 0 <= i < strings.len() ==> #[trigger] string_views(strings)[i] == strings[i]@,
{
}

/// Whether `labels` holds a string equal to `label`.
pub fn contains_string(labels: &Vec<String>, label: &str) -> (result: bool)
    ensures
        result == string_views(labels@).contains(label@),
{
    let n = labels.len();
    let mut i: usize = 0;
    while i < n
        invariant
            n == labels@.len(),
            i <= n,
            forall|j: int| 0 <= j < i ==> labels@[j]@ != label@,
        decreases n - i,
    {
        if str_eq(labels[i].as_str(), label) {
            assert(string_views(labels@)[i as int] == label@);
            return true;
        }
        i = i + 1;
    }
    assert forall|j: int| 0 <= j < labels@.len() implies #[trigger] string_views(labels@)[j]
        != label@ by {}
    false
}

} // verus!
