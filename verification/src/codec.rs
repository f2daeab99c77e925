//! The codec between the registry's raw bytes, text, and entry lists.
//!
//! A `PATH` value is stored as little-endian UTF-16 code units that end with a
//! NUL unit; as text it is a list of entries separated by `;`.

use crate::text::{
    chars_of, is_trimmed, join_with, lemma_trim_end_shape, lemma_trim_is_trimmed,
    lemma_trim_of_trimmed, lemma_trim_start_shape, push_chars, string_of, sub_chars, texts, trim,
    trim_chars, trim_start,
};
use crate::utf16::{
    decode_units, decode_utf16_lossy, encode_units, encode_utf16, lemma_decode_encode,
    lemma_decode_last_char, lemma_encode_last_unit,
};
use vstd::prelude::*;

verus! {

/// The character that separates the entries of a `PATH` value.
pub const SEPARATOR: char = ';';

/// The position of the last separator in `s`, or `-1` if it holds none.
pub open spec fn last_separator(s: Seq<char>) -> int
    decreases s.len(),
{
    if s.len() == 0 {
        -1
    } else if s.last() == SEPARATOR {
        s.len() - 1
    } else {
        last_separator(s.drop_last())
    }
}

/// `last_separator` is a position of `s`, or `-1`.
pub proof fn lemma_last_separator_in_range(s: Seq<char>)
    ensures
        -1 <= last_separator(s) < s.len(),
        last_separator(s) >= 0 ==> s[last_separator(s)] == SEPARATOR,
    decreases s.len(),
{
    if s.len() > 0 && s.last() != SEPARATOR {
        lemma_last_separator_in_range(s.drop_last());
    }
}

/// The pieces that the separators cut `s` into, empty ones included.
pub open spec fn pieces(s: Seq<char>) -> Seq<Seq<char>>
    decreases s.len(),
{
    let j = last_separator(s);
    if j < 0 {
        seq![s]
    } else {
        proof {
            lemma_last_separator_in_range(s);
        }
        pieces(s.take(j)).push(s.skip(j + 1))
    }
}

/// `ps` holding `p` trimmed as one more entry, unless that is empty.
pub open spec fn with_piece(ps: Seq<Seq<char>>, p: Seq<char>) -> Seq<Seq<char>> {
    if trim(p).len() > 0 {
        ps.push(trim(p))
    } else {
        ps
    }
}

/// Each piece trimmed, the empty results left out, in order.
pub open spec fn trimmed_entries(ps: Seq<Seq<char>>) -> Seq<Seq<char>>
    decreases ps.len(),
{
    if ps.len() == 0 {
        Seq::empty()
    } else {
        with_piece(trimmed_entries(ps.drop_last()), ps.last())
    }
}

/// The entries of a `PATH` text: its pieces between separators, each trimmed,
/// the empty ones left out.
pub open spec fn split_spec(s: Seq<char>) -> Seq<Seq<char>> {
    trimmed_entries(pieces(s))
}

/// The `PATH` text of a list of entries: the entries with one separator
/// between neighbours.
pub open spec fn join_spec(xs: Seq<Seq<char>>) -> Seq<char> {
    join_with(xs, seq![SEPARATOR])
}

/// Whether `s` holds no separator.
pub open spec fn separator_free(s: Seq<char>) -> bool {
    forall|i: int| 0 <= i < s.len() ==> s[i] != SEPARATOR
}

/// Whether `xs` is a list that `split_path` can return: every entry is
/// non-empty, trimmed, and holds no separator.
pub open spec fn clean_entries(xs: Seq<Seq<char>>) -> bool {
    forall|i: int|
        0 <= i < xs.len() ==> (#[trigger] xs[i]).len() > 0 && is_trimmed(xs[i]) && separator_free(
            xs[i],
        )
}

/// Where the last separator of `s` stands when `s` ends with a run of
/// characters that holds none.
pub proof fn lemma_last_separator(s: Seq<char>, start: int)
    requires
        0 <= start <= s.len(),
        start > 0 ==> s[start - 1] == SEPARATOR,
        forall|k: int| start <= k < s.len() ==> s[k] != SEPARATOR,
    ensures
        last_separator(s) == start - 1,
    decreases s.len() - start,
{
    if s.len() > start {
        lemma_last_separator(s.drop_last(), start);
    }
}

/// The entries of a text whose last piece starts at `start`.
pub proof fn lemma_split_last_piece(s: Seq<char>, start: int)
    requires
        0 <= start <= s.len(),
        start > 0 ==> s[start - 1] == SEPARATOR,
        forall|k: int| start <= k < s.len() ==> s[k] != SEPARATOR,
    ensures
        split_spec(s) == with_piece(
            if start == 0 {
                Seq::empty()
            } else {
                split_spec(s.take(start - 1))
            },
            s.skip(start),
        ),
{
    lemma_last_separator(s, start);
    if start == 0 {
        assert(s.skip(0) =~= s);
        assert(seq![s].drop_last() =~= Seq::<Seq<char>>::empty());
        assert(trimmed_entries(seq![s].drop_last()) =~= Seq::<Seq<char>>::empty());
    } else {
        let ps = pieces(s.take(start - 1));
        assert(ps.push(s.skip(start)).drop_last() =~= ps);
    }
}

/// The pieces of a joined list of separator-free entries are the entries.
pub proof fn lemma_pieces_of_join(xs: Seq<Seq<char>>)
    requires
        xs.len() > 0,
        forall|i: int| 0 <= i < xs.len() ==> separator_free(#[trigger] xs[i]),
    ensures
        pieces(join_spec(xs)) == xs,
    decreases xs.len(),
{
    let s = join_spec(xs);
    if xs.len() == 1 {
        assert(separator_free(xs[0]));
        lemma_last_separator(s, 0);
        assert(seq![s] =~= xs);
    } else {
        let front = xs.drop_last();
        let head = join_spec(front);
        let cut: int = head.len() as int + 1;
        assert(separator_free(xs.last()));
        assert forall|i: int| 0 <= i < front.len() implies separator_free(#[trigger] front[i]) by {
            assert(front[i] == xs[i]);
        }
        lemma_pieces_of_join(front);
        lemma_last_separator(s, cut);
        assert(s.take(head.len() as int) =~= head);
        assert(s.skip(cut) =~= xs.last());
        assert(front.push(xs.last()) =~= xs);
    }
}

/// Trimming and dropping the empty ones leaves clean entries as they are.
pub proof fn lemma_trimmed_entries_of_clean(xs: Seq<Seq<char>>)
    requires
        clean_entries(xs),
    ensures
        trimmed_entries(xs) == xs,
    decreases xs.len(),
{
    if xs.len() > 0 {
        let front = xs.drop_last();
        assert forall|i: int| 0 <= i < front.len() implies (#[trigger] front[i]).len() > 0
            && is_trimmed(front[i]) && separator_free(front[i]) by {
            assert(front[i] == xs[i]);
        }
        lemma_trimmed_entries_of_clean(front);
        assert(xs.last() == xs[xs.len() - 1]);
        lemma_trim_of_trimmed(xs.last());
        assert(front.push(xs.last()) =~= xs);
    } else {
        assert(xs =~= Seq::<Seq<char>>::empty());
    }
}

/// Splitting the joined text of a list of non-empty, trimmed, separator-free
/// entries gives the list back.
pub proof fn lemma_split_join(xs: Seq<Seq<char>>)
    requires
        clean_entries(xs),
    ensures
        split_spec(join_spec(xs)) == xs,
{
    if xs.len() == 0 {
        let e = Seq::<char>::empty();
        assert(join_spec(xs) =~= e);
        lemma_split_last_piece(e, 0);
        assert(e.skip(0) =~= e);
        assert(xs =~= Seq::<Seq<char>>::empty());
    } else {
        assert forall|i: int| 0 <= i < xs.len() implies separator_free(#[trigger] xs[i]) by {}
        lemma_pieces_of_join(xs);
        lemma_trimmed_entries_of_clean(xs);
    }
}

/// Splits a `PATH` text into its entries: cuts at every `;`, trims each piece,
/// and leaves out the pieces that are then empty. Order and duplicates stay.
pub fn split_path(path: &str) -> (parts: Vec<String>)
    ensures
        texts(parts@) == split_spec(path@),
        clean_entries(texts(parts@)),
{
    let v = chars_of(path);
    let n = v.len();
    let mut parts: Vec<String> = Vec::new();
    let mut start: usize = 0;
    let mut i: usize = 0;
    proof {
        assert(texts(parts@) =~= Seq::<Seq<char>>::empty());
    }
    while i < n
        invariant
            n == v.len(),
            start <= i <= n,
            start > 0 ==> v@[start - 1] == SEPARATOR,
            forall|k: int| start <= k < i ==> v@[k] != SEPARATOR,
            texts(parts@) == if start == 0 {
                Seq::<Seq<char>>::empty()
            } else {
                split_spec(v@.take(start - 1))
            },
            clean_entries(texts(parts@)),
        decreases n - i,
    {
        if v[i] == SEPARATOR {
            let raw = sub_chars(&v, start, i);
            let piece = trim_chars(&raw);
            proof {
                let s = v@.take(i as int);
                lemma_split_last_piece(s, start as int);
                assert(s.skip(start as int) =~= raw@);
                if start > 0 {
                    assert(s.take(start - 1) =~= v@.take(start - 1));
                }
            }
            push_entry(&mut parts, &raw, &piece);
            start = i + 1;
        }
        i += 1;
    }
    let raw = sub_chars(&v, start, n);
    let piece = trim_chars(&raw);
    proof {
        lemma_split_last_piece(v@, start as int);
        assert(v@.skip(start as int) =~= raw@);
    }
    push_entry(&mut parts, &raw, &piece);
    parts
}

/// Appends the trimmed piece as an entry unless it is empty.
fn push_entry(parts: &mut Vec<String>, raw: &Vec<char>, piece: &Vec<char>)
    requires
        piece@ == trim(raw@),
        forall|k: int| 0 <= k < raw@.len() ==> raw@[k] != SEPARATOR,
        clean_entries(texts(old(parts)@)),
    ensures
        texts(final(parts)@) == with_piece(texts(old(parts)@), raw@),
        clean_entries(texts(final(parts)@)),
{
    if piece.len() > 0 {
        let entry = string_of(piece);
        let ghost before = texts(parts@);
        parts.push(entry);
        proof {
            assert(texts(parts@) =~= before.push(piece@));
            lemma_trim_is_trimmed(raw@);
            lemma_trim_start_shape(raw@);
            lemma_trim_end_shape(trim_start(raw@));
            assert(separator_free(piece@)) by {
                let a = trim_start(raw@);
                assert forall|k: int| 0 <= k < piece@.len() implies piece@[k] != SEPARATOR by {
                    assert(piece@[k] == a[k]);
                    assert(a[k] == raw@[k + (raw@.len() - a.len())]);
                }
            }
            assert forall|i: int| 0 <= i < texts(parts@).len() implies (#[trigger] texts(
                parts@,
            )[i]).len() > 0 && is_trimmed(texts(parts@)[i]) && separator_free(texts(parts@)[i]) by {
                if i < before.len() {
                    assert(texts(parts@)[i] == before[i]);
                }
            }
        }
    }
}

/// Joins entries into a `PATH` text: the entries in order with `;` between
/// neighbours and none at the end.
pub fn join_path(parts: &[String]) -> (path: String)
    ensures
        path@ == join_spec(texts(parts@)),
{
    let mut out: Vec<char> = Vec::new();
    let mut i: usize = 0;
    proof {
        assert(texts(parts@).take(0) =~= Seq::<Seq<char>>::empty());
    }
    while i < parts.len()
        invariant
            i <= parts.len(),
            out@ == join_spec(texts(parts@).take(i as int)),
        decreases parts.len() - i,
    {
        let entry = chars_of(parts[i].as_str());
        proof {
            let next = texts(parts@).take(i + 1);
            assert(next.drop_last() =~= texts(parts@).take(i as int));
            assert(next.last() == entry@);
            if i > 0 {
                assert(join_spec(next) == out@ + seq![SEPARATOR] + entry@);
                assert(out@.push(SEPARATOR) =~= out@ + seq![SEPARATOR]);
            } else {
                assert(out@ + entry@ =~= entry@);
            }
        }
        if i > 0 {
            out.push(SEPARATOR);
        }
        push_chars(&mut out, &entry);
        i += 1;
    }
    proof {
        assert(texts(parts@).take(parts.len() as int) =~= texts(parts@));
    }
    string_of(&out)
}

/// The code unit that two bytes stand for, low byte first.
pub open spec fn unit_of(lo: u8, hi: u8) -> u16 {
    (lo + 256 * hi) as u16
}

/// The code units of a byte buffer: one for each full pair of bytes. A last
/// byte without a partner is ignored.
pub open spec fn units_of_bytes(b: Seq<u8>) -> Seq<u16> {
    Seq::new(b.len() / 2, |i: int| unit_of(b[2 * i], b[2 * i + 1]))
}

/// The bytes of code units: for each unit its low byte, then its high byte.
pub open spec fn bytes_of_units(u: Seq<u16>) -> Seq<u8> {
    Seq::new(
        2 * u.len(),
        |i: int|
            if i % 2 == 0 {
                (u[i / 2] % 256) as u8
            } else {
                (u[i / 2] / 256) as u8
            },
    )
}

/// `u` without the NUL units at its end.
pub open spec fn strip_nuls(u: Seq<u16>) -> Seq<u16>
    decreases u.len(),
{
    if u.len() > 0 && u.last() == 0 {
        strip_nuls(u.drop_last())
    } else {
        u
    }
}

/// The text of a raw registry value: its little-endian UTF-16 code units
/// without the NUL units at the end, decoded with U+FFFD for each unpaired
/// surrogate. A buffer of fewer than two bytes holds no unit and gives the
/// empty text.
pub open spec fn decode_spec(b: Seq<u8>) -> Seq<char> {
    decode_units(strip_nuls(units_of_bytes(b)))
}

/// The raw registry value of a text: its UTF-16 code units and one NUL unit,
/// each unit low byte first.
pub open spec fn encode_spec(s: Seq<char>) -> Seq<u8> {
    bytes_of_units(encode_units(s).push(0))
}

/// The units of the bytes of units are those units.
pub proof fn lemma_units_of_bytes_of_units(u: Seq<u16>)
    ensures
        units_of_bytes(bytes_of_units(u)) == u,
{
    let b = bytes_of_units(u);
    assert(b.len() / 2 == u.len());
    assert forall|i: int| 0 <= i < u.len() implies units_of_bytes(b)[i] == u[i] by {
        assert(b[2 * i] == (u[(2 * i) / 2] % 256) as u8);
        assert(b[2 * i + 1] == (u[(2 * i + 1) / 2] / 256) as u8);
        assert((2 * i) / 2 == i);
        assert((2 * i + 1) / 2 == i);
    }
    assert(units_of_bytes(b) =~= u);
}

/// Units that do not end with NUL lose nothing but the NUL units put behind
/// them.
pub proof fn lemma_strip_pushed_nul(u: Seq<u16>)
    requires
        u.len() > 0 ==> u.last() != 0,
    ensures
        strip_nuls(u.push(0)) == u,
{
    let v = u.push(0);
    assert(v.last() == 0);
    assert(v.drop_last() =~= u);
    assert(strip_nuls(v) == strip_nuls(u));
}

/// What `strip_nuls` leaves does not end with NUL.
pub proof fn lemma_stripped_last(u: Seq<u16>)
    ensures
        strip_nuls(u).len() > 0 ==> strip_nuls(u).last() != 0,
    decreases u.len(),
{
    if u.len() > 0 && u.last() == 0 {
        lemma_stripped_last(u.drop_last());
    }
}

/// A decoded registry value does not end with NUL.
pub proof fn lemma_decoded_has_no_trailing_nul(b: Seq<u8>)
    ensures
        decode_spec(b).len() > 0 ==> decode_spec(b).last() != '\0',
{
    let u = strip_nuls(units_of_bytes(b));
    lemma_stripped_last(units_of_bytes(b));
    if u.len() > 0 {
        lemma_decode_last_char(u);
    }
}

/// Decoding the encoded form of a text that does not end with NUL gives the
/// text back.
pub proof fn lemma_decode_of_encode(s: Seq<char>)
    requires
        s.len() > 0 ==> s.last() != '\0',
    ensures
        decode_spec(encode_spec(s)) == s,
{
    let u = encode_units(s);
    lemma_units_of_bytes_of_units(u.push(0));
    if s.len() > 0 {
        lemma_encode_last_unit(s);
    } else {
        assert(u =~= Seq::<u16>::empty());
    }
    lemma_strip_pushed_nul(u);
    lemma_decode_encode(s);
}

/// Encoding what was decoded from a raw value keeps the text: decoded again it
/// is the text that the raw value decodes to, whatever NUL units or odd byte
/// the raw value ended with.
pub proof fn lemma_encode_keeps_decoded_text(b: Seq<u8>)
    ensures
        decode_spec(encode_spec(decode_spec(b))) == decode_spec(b),
{
    lemma_decoded_has_no_trailing_nul(b);
    lemma_decode_of_encode(decode_spec(b));
}

/// Decodes a raw registry value into text: reads the bytes as little-endian
/// UTF-16 code units, drops the NUL units at the end, and decodes the rest,
/// putting U+FFFD for each unpaired surrogate. Fewer than two bytes give the
/// empty text.
pub fn decode_utf16_reg(bytes: &[u8]) -> (text: String)
    ensures
        text@ == decode_spec(bytes@),
        bytes@.len() < 2 ==> text@.len() == 0,
{
    let n = bytes.len() / 2;
    let mut units: Vec<u16> = Vec::new();
    let mut i: usize = 0;
    proof {
        assert(units@ =~= units_of_bytes(bytes@).take(0));
    }
    while i < n
        invariant
            n == bytes@.len() / 2,
            2 * n <= bytes@.len() <= usize::MAX,
            i <= n,
            units@ == units_of_bytes(bytes@).take(i as int),
        decreases n - i,
    {
        let lo = bytes[2 * i];
        let hi = bytes[2 * i + 1];
        let unit: u16 = lo as u16 + 256 * (hi as u16);
        units.push(unit);
        proof {
            assert(units@ =~= units_of_bytes(bytes@).take(i + 1));
        }
        i += 1;
    }
    proof {
        assert(units_of_bytes(bytes@).take(n as int) =~= units_of_bytes(bytes@));
    }
    let mut m: usize = units.len();
    proof {
        assert(units@.take(m as int) =~= units@);
    }
    while m > 0 && units[m - 1] == 0
        invariant
            m <= units.len(),
            strip_nuls(units@) == strip_nuls(units@.take(m as int)),
        decreases m,
    {
        proof {
            assert(units@.take(m as int).drop_last() =~= units@.take(m - 1));
        }
        m -= 1;
    }
    units.truncate(m);
    let chars = decode_utf16_lossy(&units);
    proof {
        if bytes@.len() < 2 {
            assert(units_of_bytes(bytes@) =~= Seq::<u16>::empty());
        }
    }
    string_of(&chars)
}

/// Encodes text as a raw registry value: its UTF-16 code units followed by
/// one NUL unit, each unit low byte first.
pub fn encode_utf16_reg(value: &str) -> (bytes: Vec<u8>)
    ensures
        bytes@ == encode_spec(value@),
{
    let chars = chars_of(value);
    let mut units = encode_utf16(&chars);
    units.push(0);
    let mut bytes: Vec<u8> = Vec::new();
    let mut i: usize = 0;
    while i < units.len()
        invariant
            i <= units.len(),
            bytes@ == bytes_of_units(units@).take(2 * i),
        decreases units.len() - i,
    {
        let u = units[i];
        bytes.push((u % 256) as u8);
        bytes.push((u / 256) as u8);
        proof {
            let all = bytes_of_units(units@);
            assert((2 * i) / 2 == i && (2 * i) % 2 == 0);
            assert((2 * i + 1) / 2 == i && (2 * i + 1) % 2 == 1);
            assert(bytes@ =~= all.take(2 * i + 2));
        }
        i += 1;
    }
    proof {
        assert(bytes_of_units(units@).take(2 * units.len()) =~= bytes_of_units(units@));
    }
    bytes
}

} // verus!
