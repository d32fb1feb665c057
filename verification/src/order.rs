//! The order of strings: lexicographic over their code units.
use crate::string::DynamicString;
use std::cmp::Ordering;
use vstd::prelude::*;
use vstd::std_specs::cmp::PartialOrdSpecImpl;

verus! {

/// How `a` stands to `b` in lexicographic order: -1 where it comes first, 0
/// where both are the same, 1 where it comes second. The first place where
/// the two differ decides; where one ends before that, it comes first.
pub open spec fn lex_sign(a: Seq<u16>, b: Seq<u16>) -> int
    decreases a.len(),
{
    if a.len() == 0 {
        if b.len() == 0 {
            0
        } else {
            -1
        }
    } else if b.len() == 0 {
        1
    } else if a[0] < b[0] {
        -1
    } else if a[0] > b[0] {
        1
    } else {
        lex_sign(a.skip(1), b.skip(1))
    }
}

/// The sign of a comparison as an `Ordering`.
pub open spec fn order_of(sign: int) -> Ordering {
    if sign < 0 {
        Ordering::Less
    } else if sign == 0 {
        Ordering::Equal
    } else {
        Ordering::Greater
    }
}

impl DynamicString {
    /// How this string stands to `other` in lexicographic order of their
    /// code units: -1, 0 or 1.
    pub fn sign(&self, other: &DynamicString) -> (s: i8)
        ensures
            s == lex_sign(self@, other@),
    {
        let mut mine = self.iter();
        let mut theirs = other.iter();
        loop
            invariant
                lex_sign(mine@, theirs@) == lex_sign(self@, other@),
            decreases mine@.len(),
        {
            match (mine.next(), theirs.next()) {
                (None, None) => {
                    return 0;
                },
                (None, Some(_)) => {
                    return -1;
                },
                (Some(_), None) => {
                    return 1;
                },
                (Some(a), Some(b)) => {
                    if a < b {
                        return -1;
                    }
                    if a > b {
                        return 1;
                    }
                },
            }
        }
    }

    /// Compares this string with `other` in lexicographic order of their
    /// code units.
    pub fn compare(&self, other: &DynamicString) -> (o: Ordering)
        ensures
            o == order_of(lex_sign(self@, other@)),
    {
        let s = self.sign(other);
        if s < 0 {
            Ordering::Less
        } else if s == 0 {
            Ordering::Equal
        } else {
            Ordering::Greater
        }
    }
}

impl PartialOrd for DynamicString {
    #[inline]
    fn partial_cmp(&self, other: &Self) -> (r: Option<Ordering>) {
        Some(self.compare(other))
    }
}

impl PartialOrdSpecImpl for DynamicString {
    open spec fn obeys_partial_cmp_spec() -> bool {
        true
    }

    open spec fn partial_cmp_spec(&self, other: &Self) -> Option<Ordering> {
        Some(order_of(lex_sign(self@, other@)))
    }
}

} // verus!
