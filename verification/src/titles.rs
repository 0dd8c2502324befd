//! Titles as PDF text strings.
use crate::pdf_value::TextFormat;
use crate::text::to_chars;
use vstd::prelude::*;

verus! {

/// The two bytes of a 16-bit code unit, the high one first.
pub open spec fn unit_bytes(unit: int) -> Seq<u8> {
    seq![(unit / 256) as u8, (unit % 256) as u8]
}

/// A character in UTF-16, the high byte of each code unit first. A character
/// beyond the basic plane is a pair of surrogates.
pub open spec fn char_utf16(c: char) -> Seq<u8> {
    let n = c as int;
    if n < 0x1_0000 {
        unit_bytes(n)
    } else {
        unit_bytes(0xd800 + (n - 0x1_0000) / 0x400) + unit_bytes(0xdc00 + (n - 0x1_0000) % 0x400)
    }
}

/// A text in UTF-16, the high byte of each code unit first.
pub open spec fn utf16(s: Seq<char>) -> Seq<u8>
    decreases s.len(),
{
    if s.len() == 0 {
        seq![]
    } else {
        utf16(s.drop_last()) + char_utf16(s.last())
    }
}

/// The string object for a title: an ASCII title as it is, in literal form;
/// any other one in UTF-16 behind a byte-order mark, in hexadecimal form.
pub open spec fn title_text(s: Seq<char>) -> (Seq<u8>, TextFormat) {
    if vstd::utf8::is_ascii_chars(s) {
        (s.map_values(|c: char| c as u8), TextFormat::Literal)
    } else {
        (seq![0xfeu8, 0xffu8] + utf16(s), TextFormat::Hexadecimal)
    }
}

proof fn lemma_char_range(c: char)
    ensures
        0 <= c as int <= 0xd7ff || 0xe000 <= c as int <= 0x10_ffff,
        (c as u32) as int == c as int,
{
}

/// Appends the two bytes of a code unit, the high one first.
fn push_unit(bytes: &mut Vec<u8>, unit: u32)
    requires
        unit < 0x1_0000,
    ensures
        final(bytes)@ == old(bytes)@ + unit_bytes(unit as int),
{
    bytes.push((unit / 256) as u8);
    bytes.push((unit % 256) as u8);
    proof {
        assert(bytes@ =~= old(bytes)@ + unit_bytes(unit as int));
    }
}

/// Encodes a title for the `/Title` entry of an outline item.
///
/// A title of ASCII characters stays as it is; any other one becomes UTF-16
/// with a byte-order mark.
pub fn pdf_string(s: &str) -> (r: (Vec<u8>, TextFormat))
    ensures
        (r.0@, r.1) == title_text(s@),
{
    let chars = to_chars(s);
    let mut bytes: Vec<u8> = Vec::new();
    let mut i: usize = 0;
    if s.is_ascii() {
        while i < chars.len()
            invariant
                i <= chars@.len(),
                vstd::utf8::is_ascii_chars(chars@),
                bytes@ == chars@.take(i as int).map_values(|c: char| c as u8),
            decreases chars@.len() - i,
        {
            bytes.push(chars[i] as u8);
            i += 1;
            proof {
                assert(bytes@ =~= chars@.take(i as int).map_values(|c: char| c as u8));
            }
        }
        proof {
            assert(chars@.take(i as int) =~= chars@);
        }
        (bytes, TextFormat::Literal)
    } else {
        bytes.push(0xfe);
        bytes.push(0xff);
        let ghost mark = seq![0xfeu8, 0xffu8];
        proof {
            assert(bytes@ =~= mark + utf16(chars@.take(0)));
        }
        while i < chars.len()
            invariant
                i <= chars@.len(),
                bytes@ == mark + utf16(chars@.take(i as int)),
            decreases chars@.len() - i,
        {
            let c: u32 = chars[i] as u32;
            proof {
                lemma_char_range(chars@[i as int]);
            }
            let ghost before = bytes@;
            if c < 0x1_0000 {
                push_unit(&mut bytes, c);
            } else {
                push_unit(&mut bytes, 0xd800 + (c - 0x1_0000) / 0x400);
                push_unit(&mut bytes, 0xdc00 + (c - 0x1_0000) % 0x400);
            }
            proof {
                assert(bytes@ =~= before + char_utf16(chars@[i as int]));
                assert(chars@.take(i + 1).drop_last() =~= chars@.take(i as int));
                assert(bytes@ =~= mark + utf16(chars@.take(i + 1)));
            }
            i += 1;
        }
        proof {
            assert(chars@.take(i as int) =~= chars@);
        }
        (bytes, TextFormat::Hexadecimal)
    }
}

/// Whether the two bytes at `at` are the second half of a surrogate pair.
spec fn ends_pair(bytes: Seq<u8>, at: int) -> bool {
    0xdc <= bytes[at] <= 0xdf
}

proof fn lemma_utf16_last(s: Seq<char>)
    requires
        s.len() > 0,
    ensures
        utf16(s).len() >= 2,
        ends_pair(utf16(s), utf16(s).len() - 2) == (s.last() as int >= 0x1_0000),
        s.last() as int >= 0x1_0000 ==> utf16(s).len() >= 4,
{
    let c = s.last();
    lemma_char_range(c);
    let whole = utf16(s);
    let head = utf16(s.drop_last());
    let tail = char_utf16(c);
    assert(whole =~= head + tail);
    assert(whole[whole.len() - 2] == tail[tail.len() - 2]);
    if c as int >= 0x1_0000 {
        let low = 0xdc00 + (c as int - 0x1_0000) % 0x400;
        assert(tail[2] == (low / 256) as u8);
    } else {
        assert(tail[0] == (c as int / 256) as u8);
    }
}

proof fn lemma_unit_bytes_injective(u: int, v: int)
    requires
        0 <= u < 0x1_0000,
        0 <= v < 0x1_0000,
        unit_bytes(u) == unit_bytes(v),
    ensures
        u == v,
{
    assert(unit_bytes(u)[0] == unit_bytes(v)[0]);
    assert(unit_bytes(u)[1] == unit_bytes(v)[1]);
}

proof fn lemma_char_utf16_injective(a: char, b: char)
    requires
        char_utf16(a) == char_utf16(b),
    ensures
        a == b,
{
    lemma_char_range(a);
    lemma_char_range(b);
    let x = char_utf16(a);
    let y = char_utf16(b);
    assert(x.len() == y.len());
    if a as int >= 0x1_0000 {
        let m = a as int - 0x1_0000;
        let n = b as int - 0x1_0000;
        assert(x.take(2) =~= unit_bytes(0xd800 + m / 0x400));
        assert(x.take(2) =~= unit_bytes(0xd800 + n / 0x400));
        assert(x.skip(2) =~= unit_bytes(0xdc00 + m % 0x400));
        assert(x.skip(2) =~= unit_bytes(0xdc00 + n % 0x400));
        lemma_unit_bytes_injective(0xd800 + m / 0x400, 0xd800 + n / 0x400);
        lemma_unit_bytes_injective(0xdc00 + m % 0x400, 0xdc00 + n % 0x400);
    } else {
        lemma_unit_bytes_injective(a as int, b as int);
    }
}

proof fn lemma_utf16_injective(s: Seq<char>, t: Seq<char>)
    requires
        utf16(s) == utf16(t),
    ensures
        s == t,
    decreases s.len(),
{
    if s.len() == 0 {
        if t.len() > 0 {
            lemma_utf16_last(t);
        }
        assert(s =~= t);
    } else {
        lemma_utf16_last(s);
        if t.len() == 0 {
            assert(utf16(t).len() == 0);
        } else {
            lemma_utf16_last(t);
            let whole = utf16(s);
            let tail = char_utf16(s.last());
            let other = char_utf16(t.last());
            assert(tail.len() == other.len());
            let cut = whole.len() - tail.len();
            assert(whole.take(cut) =~= utf16(s.drop_last()));
            assert(whole.take(cut) =~= utf16(t.drop_last()));
            assert(whole.skip(cut) =~= tail);
            assert(whole.skip(cut) =~= other);
            lemma_char_utf16_injective(s.last(), t.last());
            lemma_utf16_injective(s.drop_last(), t.drop_last());
            assert(s =~= s.drop_last().push(s.last()));
            assert(t =~= t.drop_last().push(t.last()));
        }
    }
}

/// No title is lost in the encoding: two titles with the same string object
/// are the same title.
pub proof fn title_text_is_injective(s: Seq<char>, t: Seq<char>)
    requires
        title_text(s) == title_text(t),
    ensures
        s == t,
{
    if vstd::utf8::is_ascii_chars(s) {
        let bytes = title_text(s).0;
        assert(bytes == title_text(t).0);
        assert forall|i: int| 0 <= i < s.len() implies s[i] == t[i] by {
            assert(bytes[i] == s[i] as u8);
            assert(bytes[i] == t[i] as u8);
        }
        assert(s =~= t);
    } else {
        let bytes = title_text(s).0;
        assert(bytes.skip(2) =~= utf16(s));
        assert(bytes.skip(2) =~= utf16(t));
        lemma_utf16_injective(s, t);
    }
}

/// The string object of an ASCII title holds its characters as they are, one
/// byte each. That of any other title starts with the byte-order mark FE FF,
/// and the title in UTF-16 follows.
pub proof fn ascii_titles_stay_as_they_are(s: Seq<char>)
    ensures
        ({
            let (bytes, format) = title_text(s);
            if vstd::utf8::is_ascii_chars(s) {
                &&& format == TextFormat::Literal
                &&& bytes.len() == s.len()
                &&& forall|i: int| 0 <= i < s.len() ==> #[trigger] bytes[i] as int == s[i] as int
            } else {
                &&& format == TextFormat::Hexadecimal
                &&& bytes == seq![0xfeu8, 0xffu8] + utf16(s)
            }
        }),
{
}

/// In UTF-16 a text is its characters, one behind the other. A character of
/// the basic plane is one code unit, its own number. Any other one is a high
/// and a low surrogate that hold ten bits each of what it is beyond the plane.
pub proof fn characters_are_read_back_from_code_units(s: Seq<char>, t: Seq<char>, c: char)
    ensures
        utf16(s + t) == utf16(s) + utf16(t),
        ({
            let bytes = utf16(seq![c]);
            let high = bytes[0] * 256 + bytes[1];
            let low = bytes[2] * 256 + bytes[3];
            if (c as int) < 0x1_0000 {
                &&& bytes.len() == 2
                &&& high == c as int
            } else {
                &&& bytes.len() == 4
                &&& 0xd800 <= high < 0xdc00
                &&& 0xdc00 <= low < 0xe000
                &&& 0x1_0000 + (high - 0xd800) * 0x400 + (low - 0xdc00) == c as int
            }
        }),
{
    lemma_utf16_sum(s, t);
    lemma_char_range(c);
    assert(seq![c].drop_last() =~= Seq::<char>::empty());
    assert(utf16(Seq::<char>::empty()).len() == 0);
    assert(utf16(seq![c]) == utf16(seq![c].drop_last()) + char_utf16(c));
    assert(utf16(seq![c]) =~= char_utf16(c));
}

proof fn lemma_utf16_sum(s: Seq<char>, t: Seq<char>)
    ensures
        utf16(s + t) == utf16(s) + utf16(t),
    decreases t.len(),
{
    if t.len() == 0 {
        assert(s + t =~= s);
        assert(utf16(s) + utf16(t) =~= utf16(s));
    } else {
        lemma_utf16_sum(s, t.drop_last());
        assert((s + t).drop_last() =~= s + t.drop_last());
        assert(utf16(s + t) =~= utf16(s) + utf16(t));
    }
}

} // verus!
