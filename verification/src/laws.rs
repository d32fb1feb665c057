//! What holds of the library as a whole: laws that relate several of its
//! operations, stated over the code units that strings stand for.
use crate::indexed::IndexedString;
use crate::iterator::StringIterator;
use crate::methods::pieces;
use crate::methods::slice_view;
use crate::methods::split_spec;
use crate::order::lex_sign;
use crate::pattern::finds;
use crate::pattern::lemma_occurrences_ascend;
use crate::pattern::lemma_occurrences_complete;
use crate::pattern::lemma_occurrences_sound;
use crate::pattern::occurs;
use crate::string::flattens;
use crate::string::least;
use crate::string::lemma_valid_window;
use crate::string::monus;
use crate::string::DynamicString;
use crate::units::char_of_pair;
use crate::units::is_high_surrogate;
use crate::units::is_low_surrogate;
use crate::units::utf16;
use crate::units::utf16_lossy;
use crate::units::utf16_of_char;
use vstd::prelude::*;

verus! {

/// A section holds `length` code units, or as many as the string has from
/// `start` on.
pub proof fn law_slice_length(s: Seq<u16>, start: nat, length: nat)
    ensures
        slice_view(s, start, length).len() == least(length, monus(s.len(), start)),
{
}

/// A section of a section is a section of the whole: of `m` code units from
/// `b` on in the `n` code units from `a` on, where `b` is at most `n`, it is
/// the section from `a + b` on of `m` code units, or of the `n - b` that the
/// first section leaves.
pub proof fn law_slice_of_slice(s: Seq<u16>, a: nat, n: nat, b: nat, m: nat)
    requires
        b <= n,
    ensures
        slice_view(slice_view(s, a, n), b, m) == slice_view(s, a + b, least(m, (n - b) as nat)),
{
    assert(slice_view(slice_view(s, a, n), b, m) =~= slice_view(
        s,
        a + b,
        least(m, (n - b) as nat),
    ));
}

/// A slice node that lies within its root stands for the code units of the
/// root at its positions.
pub proof fn law_slice_node(root: DynamicString, start: usize, length: usize)
    requires
        root.valid(),
        start + length <= root.spec_len(),
    ensures
        (DynamicString::SlicedString { root: Box::new(root), start, length })@ == root@.subrange(
            start as int,
            start + length,
        ),
{
    lemma_valid_window(root, start as nat, (start + length) as nat);
}

/// Flattening twice is flattening once: what flattening makes of a string is
/// left as it is by flattening it again.
pub proof fn law_flatten_idempotent(r: DynamicString, once: DynamicString, twice: DynamicString)
    requires
        flattens(r, once),
        flattens(once, twice),
    ensures
        twice == once,
{
}

/// The indexed form and the iterator of one string agree: the code unit at
/// an index of the one is the code unit that the other yields after as many.
pub proof fn law_indexed_access(
    r: DynamicString,
    indexed: IndexedString,
    it: StringIterator,
    i: int,
)
    requires
        indexed@ == r@,
        it@ == r@,
        0 <= i < r@.len(),
    ensures
        indexed@[i] == it@[i],
{
}

/// Two strings compare as equal exactly where they stand for the same code
/// units.
pub proof fn law_order_equal(a: Seq<u16>, b: Seq<u16>)
    ensures
        lex_sign(a, b) == 0 <==> a == b,
    decreases a.len(),
{
    if a.len() > 0 && b.len() > 0 {
        law_order_equal(a.skip(1), b.skip(1));
        if a[0] == b[0] {
            if a.skip(1) == b.skip(1) {
                assert(a =~= seq![a[0]] + a.skip(1));
                assert(b =~= seq![b[0]] + b.skip(1));
            }
        }
    } else if a.len() == 0 && b.len() == 0 {
        assert(a =~= b);
    }
}

/// Comparing the other way round gives the opposite sign.
pub proof fn law_order_opposite(a: Seq<u16>, b: Seq<u16>)
    ensures
        lex_sign(a, b) == -lex_sign(b, a),
    decreases a.len(),
{
    if a.len() > 0 && b.len() > 0 {
        law_order_opposite(a.skip(1), b.skip(1));
    }
}

/// The code units of one character stand for that character.
proof fn lemma_char_round_trip(c: char)
    ensures
        utf16_lossy(utf16_of_char(c)) == seq![c],
        utf16_of_char(c).len() == 1 || utf16_of_char(c).len() == 2,
        utf16_of_char(c).len() == 1 ==> !is_high_surrogate(utf16_of_char(c)[0]) && !is_low_surrogate(
            utf16_of_char(c)[0],
        ) && utf16_of_char(c)[0] as char == c,
        utf16_of_char(c).len() == 2 ==> is_high_surrogate(utf16_of_char(c)[0]) && is_low_surrogate(
            utf16_of_char(c)[1],
        ) && char_of_pair(utf16_of_char(c)[0], utf16_of_char(c)[1]) == c,
{
    let units = utf16_of_char(c);
    let x = c as u32;
    vstd::utf8::char_is_scalar(c);
    vstd::utf8::char_u32_cast(c, x);
    if x < 0x10000 {
        assert(units[0] == x);
        assert(units[0] as char == x as char);
        assert(units.skip(1) =~= Seq::<u16>::empty());
        assert(utf16_lossy(Seq::<u16>::empty()) =~= Seq::<char>::empty());
        assert(utf16_lossy(units) =~= seq![c]);
    } else {
        let y = (x - 0x10000) as int;
        assert(y == (y / 0x400) * 0x400 + y % 0x400);
        assert(0x10000 + (units[0] - 0xD800) * 0x400 + (units[1] - 0xDC00) == x);
        assert(char_of_pair(units[0], units[1]) == x as char);
        assert(units.skip(2) =~= Seq::<u16>::empty());
        assert(utf16_lossy(Seq::<u16>::empty()) =~= Seq::<char>::empty());
        assert(utf16_lossy(units) =~= seq![c]);
    }
}

/// A host string that is read as code units and turned back is the same
/// host string.
pub proof fn law_round_trip(s: Seq<char>)
    ensures
        utf16_lossy(utf16(s)) == s,
    decreases s.len(),
{
    if s.len() > 0 {
        let c = s[0];
        let rest = s.skip(1);
        let units = utf16(s);
        law_round_trip(rest);
        lemma_char_round_trip(c);
        if utf16_of_char(c).len() == 1 {
            assert(units.skip(1) =~= utf16(rest));
        } else {
            assert(units.skip(2) =~= utf16(rest));
        }
        assert(utf16_lossy(units) =~= seq![c] + rest);
        assert(seq![c] + rest =~= s);
    } else {
        assert(utf16_lossy(utf16(s)) =~= s);
    }
}

/// What a search for a pattern that is not empty yields are exactly the
/// positions at which the section of the text of the pattern's length is the
/// pattern, in ascending order.
pub proof fn law_finds_exact(text: Seq<u16>, pattern: Seq<u16>)
    requires
        text.len() <= usize::MAX,
        pattern.len() > 0,
    ensures
        forall|p: nat|
            #![trigger finds(text, pattern).contains(p as usize)]
            p <= usize::MAX ==> (finds(text, pattern).contains(p as usize) <==> slice_view(
                text,
                p,
                pattern.len(),
            ) == pattern),
        forall|i: int, j: int|
            0 <= i < j < finds(text, pattern).len() ==> finds(text, pattern)[i] < finds(
                text,
                pattern,
            )[j],
{
    lemma_occurrences_sound(text, pattern, 0);
    lemma_occurrences_ascend(text, pattern, 0);
    let found = finds(text, pattern);
    assert forall|p: nat|
        #![trigger found.contains(p as usize)]
        p <= usize::MAX implies (found.contains(p as usize) <==> slice_view(text, p, pattern.len())
        == pattern) by {
        if found.contains(p as usize) {
            let k = choose|k: int| 0 <= k < found.len() && found[k] == p as usize;
            assert(occurs(text, pattern, found[k] as int));
        }
        if slice_view(text, p, pattern.len()) == pattern {
            assert(occurs(text, pattern, p as int));
            lemma_occurrences_complete(text, pattern, 0, p);
        }
    }
}

/// The pieces of a list put together again, with `separator` between each
/// two of them.
pub open spec fn join(parts: Seq<Seq<u16>>, separator: Seq<u16>) -> Seq<u16>
    decreases parts.len(),
{
    if parts.len() == 0 {
        Seq::empty()
    } else if parts.len() == 1 {
        parts[0]
    } else {
        parts[0] + separator + join(parts.skip(1), separator)
    }
}

/// The pieces cut from a place on, joined again, give the text from that
/// place on; or, where the text ends with a separator that was cut, the text
/// without that separator.
proof fn lemma_pieces_join(
    text: Seq<u16>,
    separator: Seq<u16>,
    found: Seq<usize>,
    last: nat,
    count: nat,
)
    requires
        last <= text.len(),
        forall|k: int| 0 <= k < found.len() ==> occurs(text, separator, #[trigger] found[k] as int),
    ensures
        pieces(text, separator.len(), found, last, count, None).len() == 0 ==> last == text.len(),
        ({
            let parts = pieces(text, separator.len(), found, last, count, None);
            let rest = text.subrange(last as int, text.len() as int);
            ||| join(parts, separator) == rest
            ||| separator.len() > 0 && parts.len() > 0 && join(parts, separator) + separator == rest
        }),
    decreases found.len(),
{
    let width = separator.len();
    let parts = pieces(text, width, found, last, count, None);
    let rest = text.subrange(last as int, text.len() as int);
    if found.len() == 0 {
        if last < text.len() {
            assert(join(parts, separator) == rest);
        } else {
            assert(join(parts, separator) =~= rest);
        }
    } else {
        let at = found[0] as nat;
        let later = found.skip(1);
        assert forall|k: int| 0 <= k < later.len() implies occurs(
            text,
            separator,
            #[trigger] later[k] as int,
        ) by {
            assert(later[k] == found[k + 1]);
        }
        assert(occurs(text, separator, found[0] as int));
        if at < last {
            lemma_pieces_join(text, separator, later, last, count);
        } else if width == 0 && last == 0 && at == 0 {
            lemma_pieces_join(text, separator, later, 0, count);
        } else {
            let next = at + width;
            let piece = text.subrange(last as int, at as int);
            let tail = pieces(text, width, later, next, count + 1, None);
            let after = text.subrange(next as int, text.len() as int);
            lemma_pieces_join(text, separator, later, next, count + 1);
            assert(parts =~= seq![piece] + tail);
            assert(text.subrange(at as int, next as int) == separator);
            assert(rest =~= piece + separator + after);
            if tail.len() == 0 {
                assert(parts =~= seq![piece]);
                assert(join(parts, separator) == piece);
                assert(after =~= Seq::<u16>::empty());
                assert(rest =~= piece + separator);
                if width == 0 {
                    assert(separator =~= Seq::<u16>::empty());
                    assert(rest =~= piece);
                }
            } else {
                assert(parts.skip(1) =~= tail);
                assert(parts[0] == piece);
                assert(join(parts, separator) == piece + separator + join(tail, separator));
                if join(tail, separator) == after {
                    assert(join(parts, separator) =~= rest);
                } else {
                    assert(join(parts, separator) + separator =~= piece + separator + (join(
                        tail,
                        separator,
                    ) + separator));
                }
            }
        }
    }
}

/// Joining the pieces of a text with the separator gives the text back. The
/// one exception: where the text ends with a separator that was cut, no
/// empty piece stands for what follows it, and the join lacks that last
/// separator.
pub proof fn law_split_join(text: Seq<u16>, separator: Seq<u16>)
    requires
        text.len() <= usize::MAX,
    ensures
        ({
            let parts = split_spec(text, separator, None);
            ||| join(parts, separator) == text
            ||| separator.len() > 0 && join(parts, separator) + separator == text
        }),
{
    let parts = split_spec(text, separator, None);
    if text.len() == 0 && separator.len() > 0 {
        assert(parts[0] =~= text);
    } else {
        let found = finds(text, separator);
        if separator.len() > 0 {
            lemma_occurrences_sound(text, separator, 0);
        } else {
            assert forall|k: int| 0 <= k < found.len() implies occurs(
                text,
                separator,
                #[trigger] found[k] as int,
            ) by {
                assert(text.subrange(found[k] as int, found[k] as int) =~= separator);
            }
        }
        lemma_pieces_join(text, separator, found, 0, 0);
        assert(text.subrange(0, text.len() as int) =~= text);
    }
}

/// A limit caps the number of pieces.
pub proof fn law_split_limit(
    text: Seq<u16>,
    width: nat,
    found: Seq<usize>,
    last: nat,
    count: nat,
    limit: usize,
)
    requires
        count < limit,
    ensures
        count + pieces(text, width, found, last, count, Some(limit)).len() <= limit,
    decreases found.len(),
{
    if found.len() > 0 {
        let at = found[0] as nat;
        if at < last {
            law_split_limit(text, width, found.skip(1), last, count, limit);
        } else if width == 0 && last == 0 && at == 0 {
            law_split_limit(text, width, found.skip(1), at + width, count, limit);
        } else if Some(limit) != Some((count + 1) as usize) {
            law_split_limit(text, width, found.skip(1), at + width, count + 1, limit);
        }
    }
}

} // verus!
