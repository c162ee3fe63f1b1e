//! Which value of a splat a PLY property sets.
use vstd::prelude::*;
use crate::sh::{interleaved_index, to_interleaved_idx};

verus! {

/// One value of a splat.
#[derive(Clone, Copy, Debug, PartialEq, Eq, Structural)]
pub enum SplatField {
    /// Coordinate `0..3` of the position.
    Mean(usize),
    /// Axis `0..3` of the log-scale.
    Scale(usize),
    /// The raw opacity.
    Opacity,
    /// Component `0..4` of the rotation quaternion.
    Rotation(usize),
    /// Place of a colour coefficient in the splat's interleaved array.
    Coeff(usize),
}

/// `c` is a decimal digit.
pub open spec fn is_digit_char(c: char) -> bool {
    48 <= c as u32 <= 57
}

/// The number that the first `k` characters of `s` spell, read as decimal
/// digits.
pub open spec fn decimal_upto(s: Seq<char>, k: int) -> int
    decreases k,
{
    if k <= 0 {
        0
    } else {
        decimal_upto(s, k - 1) * 10 + (s[k - 1] as u32 - 48)
    }
}

/// Every character of `s` is a decimal digit.
pub open spec fn all_digit_chars(s: Seq<char>) -> bool {
    forall|i: int| 0 <= i < s.len() ==> is_digit_char(#[trigger] s[i])
}

/// `s` without the `+` that it may start with.
pub open spec fn unsigned_part(s: Seq<char>) -> Seq<char> {
    if s.len() > 0 && s[0] == '+' {
        s.subrange(1, s.len() as int)
    } else {
        s
    }
}

/// The number that `s` spells: one or more decimal digits, behind a `+` or
/// not, with a value that fits in 32 bits. Any other text spells none.
pub open spec fn parsed_index(s: Seq<char>) -> Option<u32> {
    let body = unsigned_part(s);
    if body.len() > 0 && all_digit_chars(body) && decimal_upto(body, body.len() as int)
        <= u32::MAX {
        Some(decimal_upto(body, body.len() as int) as u32)
    } else {
        None
    }
}

/// The value that the property named `key` sets. Higher-order colour
/// coefficients are named `f_rest_` and a number; they go to the interleaved
/// place of that number. A name that is none of the known ones sets nothing.
pub open spec fn slot_of(key: Seq<char>) -> Option<SplatField> {
    if key == "x"@ {
        Some(SplatField::Mean(0))
    } else if key == "y"@ {
        Some(SplatField::Mean(1))
    } else if key == "z"@ {
        Some(SplatField::Mean(2))
    } else if key == "scale_0"@ {
        Some(SplatField::Scale(0))
    } else if key == "scale_1"@ {
        Some(SplatField::Scale(1))
    } else if key == "scale_2"@ {
        Some(SplatField::Scale(2))
    } else if key == "opacity"@ {
        Some(SplatField::Opacity)
    } else if key == "rot_0"@ {
        Some(SplatField::Rotation(0))
    } else if key == "rot_1"@ {
        Some(SplatField::Rotation(1))
    } else if key == "rot_2"@ {
        Some(SplatField::Rotation(2))
    } else if key == "rot_3"@ {
        Some(SplatField::Rotation(3))
    } else if key == "f_dc_0"@ {
        Some(SplatField::Coeff(0))
    } else if key == "f_dc_1"@ {
        Some(SplatField::Coeff(1))
    } else if key == "f_dc_2"@ {
        Some(SplatField::Coeff(2))
    } else if key.len() >= 7 && key.subrange(0, 7) == "f_rest_"@ {
        match parsed_index(key.subrange(7, key.len() as int)) {
            Some(n) => Some(SplatField::Coeff(interleaved_index(n as int) as usize)),
            None => None,
        }
    } else {
        None
    }
}

/// The numbers grow with every further digit.
proof fn lemma_decimal_grows(s: Seq<char>, k1: int, k2: int)
    requires
        0 <= k1 <= k2 <= s.len(),
        all_digit_chars(s),
    ensures
        0 <= decimal_upto(s, k1) <= decimal_upto(s, k2),
    decreases k2,
{
    if k1 < k2 {
        lemma_decimal_grows(s, k1, k2 - 1);
        assert(is_digit_char(s[k2 - 1]));
    } else if k1 > 0 {
        lemma_decimal_grows(s, k1 - 1, k2 - 1);
        assert(is_digit_char(s[k1 - 1]));
    }
}

/// The number that `s` spells in decimal digits, behind a `+` or not.
pub fn parse_index(s: &str) -> (r: Option<u32>)
    ensures
        r == parsed_index(s@),
{
    let n = s.unicode_len();
    let start: usize = if n > 0 && s.get_char(0) == '+' {
        1
    } else {
        0
    };
    let ghost body = unsigned_part(s@);
    if start == n {
        return None;
    }
    let mut acc: u64 = 0;
    let mut i: usize = start;
    while i < n
        invariant
            start <= i <= n,
            n == s@.len(),
            body == unsigned_part(s@),
            body.len() == n - start,
            forall|j: int| 0 <= j < body.len() ==> body[j] == s@[start + j],
            forall|j: int| 0 <= j < i - start ==> is_digit_char(#[trigger] body[j]),
            acc == decimal_upto(body, i - start),
            acc <= u32::MAX,
        decreases n - i,
    {
        let c = s.get_char(i);
        let v: u32 = c as u32;
        if v < 48 || v > 57 {
            assert(!is_digit_char(body[i - start]));
            return None;
        }
        let next: u64 = acc * 10 + (v - 48) as u64;
        if next > 0xffff_ffff {
            proof {
                if all_digit_chars(body) {
                    lemma_decimal_grows(body, i - start + 1, body.len() as int);
                }
            }
            return None;
        }
        acc = next;
        i += 1;
    }
    Some(acc as u32)
}

/// Whether `key` is the text `text`.
fn is_text(key: &String, text: &str) -> (same: bool)
    ensures
        same == (key@ == text@),
{
    let other = text.to_owned();
    *key == other
}

/// The value of a splat that the PLY property named `key` sets, if it sets
/// one.
pub fn property_slot(key: &str) -> (r: Option<SplatField>)
    ensures
        r == slot_of(key@),
{
    let k = key.to_owned();
    if is_text(&k, "x") {
        Some(SplatField::Mean(0))
    } else if is_text(&k, "y") {
        Some(SplatField::Mean(1))
    } else if is_text(&k, "z") {
        Some(SplatField::Mean(2))
    } else if is_text(&k, "scale_0") {
        Some(SplatField::Scale(0))
    } else if is_text(&k, "scale_1") {
        Some(SplatField::Scale(1))
    } else if is_text(&k, "scale_2") {
        Some(SplatField::Scale(2))
    } else if is_text(&k, "opacity") {
        Some(SplatField::Opacity)
    } else if is_text(&k, "rot_0") {
        Some(SplatField::Rotation(0))
    } else if is_text(&k, "rot_1") {
        Some(SplatField::Rotation(1))
    } else if is_text(&k, "rot_2") {
        Some(SplatField::Rotation(2))
    } else if is_text(&k, "rot_3") {
        Some(SplatField::Rotation(3))
    } else if is_text(&k, "f_dc_0") {
        Some(SplatField::Coeff(0))
    } else if is_text(&k, "f_dc_1") {
        Some(SplatField::Coeff(1))
    } else if is_text(&k, "f_dc_2") {
        Some(SplatField::Coeff(2))
    } else {
        let n = key.unicode_len();
        if n >= 7 && is_text(&key.substring_char(0, 7).to_owned(), "f_rest_") {
            match parse_index(key.substring_char(7, n)) {
                Some(idx) => Some(SplatField::Coeff(to_interleaved_idx(idx as usize))),
                None => None,
            }
        } else {
            None
        }
    }
}

/// Length of a splat's coefficient array once place `idx` is set: the array
/// grows to hold the place, and never shrinks.
pub fn coeffs_len_with(len: usize, idx: usize) -> (new_len: usize)
    requires
        idx < usize::MAX,
    ensures
        new_len == if idx >= len {
            idx + 1
        } else {
            len as int
        },
{
    if idx >= len {
        idx + 1
    } else {
        len
    }
}

} // verus!
