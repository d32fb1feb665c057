//! UTF-16 code units: how a host string is read as code units, and how code
//! units are turned back into a host string.
use vstd::prelude::*;
use vstd::std_specs::iter::IteratorSpec;

verus! {

/// The one or two UTF-16 code units of a character: itself below 0x10000,
/// else a high and a low surrogate.
pub open spec fn utf16_of_char(c: char) -> Seq<u16> {
    let x = c as u32;
    if x < 0x10000 {
        seq![x as u16]
    } else {
        seq![(0xD800 + (x - 0x10000) / 0x400) as u16, (0xDC00 + (x - 0x10000) % 0x400) as u16]
    }
}

/// The UTF-16 code units of a sequence of characters, in order.
pub open spec fn utf16(s: Seq<char>) -> Seq<u16>
    decreases s.len(),
{
    if s.len() == 0 {
        Seq::empty()
    } else {
        utf16_of_char(s[0]) + utf16(s.skip(1))
    }
}

/// The code units of a text with one more character are those of the text,
/// then those of the character.
pub proof fn lemma_utf16_push(s: Seq<char>, c: char)
    ensures
        utf16(s.push(c)) == utf16(s) + utf16_of_char(c),
    decreases s.len(),
{
    if s.len() == 0 {
        assert(s.push(c).skip(1) =~= Seq::<char>::empty());
        assert(utf16(Seq::<char>::empty()) =~= Seq::<u16>::empty());
        assert(utf16(s) =~= Seq::<u16>::empty());
        assert(utf16(s.push(c)) =~= utf16_of_char(c) + Seq::<u16>::empty());
    } else {
        assert(s.push(c).skip(1) =~= s.skip(1).push(c));
        lemma_utf16_push(s.skip(1), c);
        assert(utf16(s.push(c)) =~= utf16(s) + utf16_of_char(c));
    }
}

/// The UTF-16 code units of a host string.
pub fn encode_utf16(data: &str) -> (units: Vec<u16>)
    ensures
        units@ == utf16(data@),
{
    broadcast use vstd::string::group_string_axioms;

    let mut chars = data.chars();
    let mut units: Vec<u16> = Vec::new();
    let ghost mut seen: Seq<char> = Seq::empty();
    loop
        invariant
            chars.obeys_prophetic_iter_laws(),
            chars.decrease() is Some,
            seen + chars.remaining() == data@,
            units@ == utf16(seen),
        ensures
            chars.remaining().len() == 0,
        decreases chars.decrease()->0,
    {
        let ghost before = chars.remaining();
        match chars.next() {
            None => {
                break ;
            },
            Some(c) => {
                proof {
                    lemma_utf16_push(seen, c);
                    assert(seen.push(c) + chars.remaining() =~= seen + before);
                    seen = seen.push(c);
                }
                let x = c as u32;
                if x < 0x10000 {
                    units.push(x as u16);
                } else {
                    units.push((0xD800 + (x - 0x10000) / 0x400) as u16);
                    units.push((0xDC00 + (x - 0x10000) % 0x400) as u16);
                }
                assert(units@ =~= utf16(seen));
            },
        }
    }
    assert(seen =~= data@);
    units
}

/// The code units of an ASCII text are its characters, one for one.
pub proof fn lemma_utf16_ascii(s: Seq<char>)
    requires
        vstd::utf8::is_ascii_chars(s),
    ensures
        utf16(s) =~= Seq::new(s.len(), |i: int| s[i] as u16),
    decreases s.len(),
{
    if s.len() > 0 {
        let rest = s.skip(1);
        assert forall|i: int| 0 <= i < rest.len() implies '\0' <= #[trigger] rest[i] <= '\u{7f}' by {
            assert(rest[i] == s[i + 1]);
        }
        lemma_utf16_ascii(rest);
        assert('\0' <= s[0] <= '\u{7f}');
        assert forall|i: int| 0 <= i < s.len() implies #[trigger] utf16(s)[i] == s[i] as u16 by {
            if i > 0 {
                assert(utf16(rest)[i - 1] == rest[i - 1] as u16);
            }
        }
    }
}

/// A code unit that opens a surrogate pair.
pub open spec fn is_high_surrogate(unit: u16) -> bool {
    0xD800 <= unit <= 0xDBFF
}

/// A code unit that closes a surrogate pair.
pub open spec fn is_low_surrogate(unit: u16) -> bool {
    0xDC00 <= unit <= 0xDFFF
}

/// The character that a surrogate pair stands for.
pub open spec fn char_of_pair(high: u16, low: u16) -> char {
    (0x10000 + (high - 0xD800) * 0x400 + (low - 0xDC00)) as char
}

/// The characters that a sequence of code units stands for: a surrogate pair
/// gives one character, any other code unit gives itself, and a surrogate
/// without its partner gives the replacement character U+FFFD.
pub open spec fn utf16_lossy(units: Seq<u16>) -> Seq<char>
    decreases units.len(),
{
    if units.len() == 0 {
        Seq::empty()
    } else if is_high_surrogate(units[0]) && units.len() >= 2 && is_low_surrogate(units[1]) {
        seq![char_of_pair(units[0], units[1])] + utf16_lossy(units.skip(2))
    } else if is_high_surrogate(units[0]) || is_low_surrogate(units[0]) {
        seq!['\u{FFFD}'] + utf16_lossy(units.skip(1))
    } else {
        seq![units[0] as char] + utf16_lossy(units.skip(1))
    }
}

/// `String::from_utf16_lossy`: the host string that a sequence of code units
/// stands for. The contract claims what the standard library documents: the
/// code units are decoded as UTF-16, and each one that is no part of a
/// well-formed surrogate pair is replaced by U+FFFD.
#[verifier::external_body]
pub(crate) fn decode_utf16_lossy(units: &Vec<u16>) -> (text: String)
    ensures
        text@ == utf16_lossy(units@),
{
    String::from_utf16_lossy(units)
}

} // verus!
