//! UTF-16: texts as sequences of 16-bit code units.
//!
//! Encoding is exact. Decoding is lossy: a code unit that is no valid UTF-16
//! where it stands (a surrogate without its partner) becomes U+FFFD.

use crate::text::chars_of;
use vstd::prelude::*;

verus! {

/// What stands for a code unit that is no valid UTF-16.
pub const REPLACEMENT: char = '\u{FFFD}';

/// `char::from_u32` returns the character with the given scalar value, and
/// `None` where the number is none: a surrogate (`0xD800` to `0xDFFF`) or a
/// number above `0x10FFFF`.
pub assume_specification[ char::from_u32 ](i: u32) -> (r: Option<char>)
    ensures
        r == if i <= 0xD7FF || (0xE000 <= i && i <= 0x10FFFF) {
            Some(i as char)
        } else {
            None::<char>
        },
;

/// A character is its scalar value: a number up to `0x10FFFF` that is no
/// surrogate, from which the character can be had back.
pub proof fn lemma_char_scalar(c: char)
    ensures
        c as u32 <= 0xD7FF || (0xE000 <= c as u32 && c as u32 <= 0x10FFFF),
        (c as u32) as char == c,
        (c as u32 == 0) <==> c == '\0',
{
}

/// Whether `u` is the first unit of a surrogate pair.
pub open spec fn is_high_surrogate(u: u16) -> bool {
    0xD800 <= u <= 0xDBFF
}

/// Whether `u` is the second unit of a surrogate pair.
pub open spec fn is_low_surrogate(u: u16) -> bool {
    0xDC00 <= u <= 0xDFFF
}

/// The scalar value that a surrogate pair stands for.
pub open spec fn pair_scalar(hi: u16, lo: u16) -> int {
    0x10000 + (hi - 0xD800) * 0x400 + (lo - 0xDC00)
}

/// The number of units that the first character of `u` takes: two for a
/// surrogate pair, one for any other unit.
pub open spec fn first_width(u: Seq<u16>) -> int {
    if u.len() >= 2 && is_high_surrogate(u[0]) && is_low_surrogate(u[1]) {
        2
    } else {
        1
    }
}

/// The first character of a non-empty `u`.
pub open spec fn first_char(u: Seq<u16>) -> char {
    if first_width(u) == 2 {
        pair_scalar(u[0], u[1]) as char
    } else if is_high_surrogate(u[0]) || is_low_surrogate(u[0]) {
        REPLACEMENT
    } else {
        u[0] as char
    }
}

/// The text that the units stand for, with U+FFFD for each unpaired surrogate.
pub open spec fn decode_units(u: Seq<u16>) -> Seq<char>
    decreases u.len(),
{
    if u.len() == 0 {
        Seq::empty()
    } else {
        seq![first_char(u)] + decode_units(u.skip(first_width(u)))
    }
}

/// The units of one character: itself below `0x10000`, a surrogate pair above.
pub open spec fn char_units(c: char) -> Seq<u16> {
    if (c as u32) < 0x10000 {
        seq![c as u16]
    } else {
        seq![
            (0xD800 + (c as u32 - 0x10000) / 0x400) as u16,
            (0xDC00 + (c as u32 - 0x10000) % 0x400) as u16,
        ]
    }
}

/// The units of a text: those of its characters, in order.
pub open spec fn encode_units(s: Seq<char>) -> Seq<u16>
    decreases s.len(),
{
    if s.len() == 0 {
        Seq::empty()
    } else {
        encode_units(s.drop_last()) + char_units(s.last())
    }
}

/// The units of one character decode to that character, whatever follows.
pub proof fn lemma_decode_char_units(c: char, rest: Seq<u16>)
    ensures
        decode_units(char_units(c) + rest) == seq![c] + decode_units(rest),
{
    let u = char_units(c) + rest;
    let x = c as u32;
    lemma_char_scalar(c);
    if x < 0x10000 {
        assert(u[0] == x as u16);
        assert(first_width(u) == 1);
        assert(u.skip(1) =~= rest);
        assert(first_char(u) == c);
    } else {
        let y = (x - 0x10000) as int;
        assert(0 <= y < 0x100000);
        assert(u[0] == (0xD800 + y / 0x400) as u16);
        assert(u[1] == (0xDC00 + y % 0x400) as u16);
        assert(first_width(u) == 2);
        assert(u.skip(2) =~= rest);
        assert(pair_scalar(u[0], u[1]) == x);
    }
}

/// The units of a text decode to that text, whatever follows.
pub proof fn lemma_decode_encoded_prefix(s: Seq<char>, rest: Seq<u16>)
    ensures
        decode_units(encode_units(s) + rest) == s + decode_units(rest),
    decreases s.len(),
{
    if s.len() == 0 {
        assert(encode_units(s) + rest =~= rest);
        assert(s + decode_units(rest) =~= decode_units(rest));
    } else {
        let front = s.drop_last();
        let tail = char_units(s.last()) + rest;
        assert(encode_units(s) + rest =~= encode_units(front) + tail);
        lemma_decode_encoded_prefix(front, tail);
        lemma_decode_char_units(s.last(), rest);
        assert(front + (seq![s.last()] + decode_units(rest)) =~= s + decode_units(rest));
    }
}

/// Decoding undoes encoding.
pub proof fn lemma_decode_encode(s: Seq<char>)
    ensures
        decode_units(encode_units(s)) == s,
{
    let none = Seq::<u16>::empty();
    lemma_decode_encoded_prefix(s, none);
    assert(encode_units(s) + none =~= encode_units(s));
    assert(s + decode_units(none) =~= s);
}

/// A text that does not end with NUL has units that do not end with NUL.
pub proof fn lemma_encode_last_unit(s: Seq<char>)
    requires
        s.len() > 0,
        s.last() != '\0',
    ensures
        encode_units(s).len() > 0,
        encode_units(s).last() != 0,
{
    let c = s.last();
    let x = c as u32;
    lemma_char_scalar(c);
    let units = encode_units(s);
    assert(units.last() == char_units(c).last());
    if x >= 0x10000 {
        assert((0xDC00 + (x - 0x10000) % 0x400) as u16 != 0);
    }
}

/// Units that do not end with NUL decode to a text that does not end with NUL.
pub proof fn lemma_decode_last_char(u: Seq<u16>)
    requires
        u.len() > 0,
        u.last() != 0,
    ensures
        decode_units(u).len() > 0,
        decode_units(u).last() != '\0',
    decreases u.len(),
{
    let w = first_width(u);
    let rest = u.skip(w);
    if rest.len() > 0 {
        assert(rest.last() == u.last());
        lemma_decode_last_char(rest);
        assert(decode_units(u).last() == decode_units(rest).last());
    } else {
        assert(decode_units(rest) =~= Seq::<char>::empty());
        assert(decode_units(u) =~= seq![first_char(u)]);
        if w == 1 {
            assert(u[0] == u.last());
        }
    }
}

/// The UTF-16 code units of a text.
pub fn encode_utf16(v: &Vec<char>) -> (units: Vec<u16>)
    ensures
        units@ == encode_units(v@),
{
    let mut units: Vec<u16> = Vec::new();
    let mut i: usize = 0;
    proof {
        assert(v@.take(0) =~= Seq::<char>::empty());
    }
    while i < v.len()
        invariant
            i <= v.len(),
            units@ == encode_units(v@.take(i as int)),
        decreases v.len() - i,
    {
        let c = v[i];
        let x: u32 = c as u32;
        proof {
            lemma_char_scalar(c);
            assert(v@.take(i + 1).drop_last() =~= v@.take(i as int));
            assert(v@.take(i + 1).last() == c);
        }
        let ghost before = units@;
        if x < 0x10000 {
            units.push(x as u16);
            proof {
                assert(units@ =~= before + char_units(c));
            }
        } else {
            let y: u32 = x - 0x10000;
            units.push((0xD800 + y / 0x400) as u16);
            units.push((0xDC00 + y % 0x400) as u16);
            proof {
                assert(units@ =~= before + char_units(c));
            }
        }
        i += 1;
    }
    proof {
        assert(v@.take(v.len() as int) =~= v@);
    }
    units
}

/// The text of UTF-16 code units, with U+FFFD for each unpaired surrogate.
pub fn decode_utf16_lossy(units: &Vec<u16>) -> (v: Vec<char>)
    ensures
        v@ == decode_units(units@),
{
    let n = units.len();
    let mut v: Vec<char> = Vec::new();
    let mut i: usize = 0;
    proof {
        assert(units@.skip(0) =~= units@);
    }
    while i < n
        invariant
            n == units.len(),
            i <= n,
            v@ + decode_units(units@.skip(i as int)) == decode_units(units@),
        decreases n - i,
    {
        let u = units[i];
        let ghost rest = units@.skip(i as int);
        let ghost before = v@;
        proof {
            assert(rest[0] == u);
            if i + 1 < n {
                assert(rest[1] == units@[i + 1]);
            }
        }
        if 0xD800 <= u && u <= 0xDBFF && i + 1 < n && 0xDC00 <= units[i + 1] && units[i + 1]
            <= 0xDFFF {
            let lo = units[i + 1];
            let x: u32 = 0x10000 + (u as u32 - 0xD800) * 0x400 + (lo as u32 - 0xDC00);
            let c = match char::from_u32(x) {
                Some(c) => c,
                None => REPLACEMENT,
            };
            v.push(c);
            proof {
                assert(first_width(rest) == 2);
                assert(c == first_char(rest));
                assert(rest.skip(2) =~= units@.skip(i + 2));
                assert(v@ + decode_units(units@.skip(i + 2)) =~= before + decode_units(rest));
            }
            i += 2;
        } else {
            let c = match char::from_u32(u as u32) {
                Some(c) => c,
                None => REPLACEMENT,
            };
            v.push(c);
            proof {
                assert(first_width(rest) == 1);
                assert(c == first_char(rest));
                assert(rest.skip(1) =~= units@.skip(i + 1));
                assert(v@ + decode_units(units@.skip(i + 1)) =~= before + decode_units(rest));
            }
            i += 1;
        }
    }
    proof {
        assert(decode_units(units@.skip(n as int)) =~= Seq::<char>::empty());
        assert(v@ + Seq::<char>::empty() =~= v@);
    }
    v
}

/// The text as a NUL-terminated wide string: its UTF-16 code units and one
/// NUL unit.
pub fn to_wide(s: &str) -> (wide: Vec<u16>)
    ensures
        wide@ == encode_units(s@).push(0),
{
    let chars = chars_of(s);
    let mut wide = encode_utf16(&chars);
    wide.push(0);
    wide
}

} // verus!
