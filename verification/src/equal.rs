//! Equality and hashing: two strings are the same where they stand for the
//! same code units, whatever their structure.
use crate::string::DynamicString;
use crate::units::encode_utf16;
use crate::units::utf16;
use std::hash::Hash;
use std::hash::Hasher;
use vstd::prelude::*;
use vstd::std_specs::cmp::PartialEqSpecImpl;

verus! {

impl PartialEq for DynamicString {
    /// Two strings are equal where they stand for the same code units,
    /// whatever their structure.
    fn eq(&self, other: &DynamicString) -> (r: bool) {
        match (self, other) {
            (DynamicString::SingleOneByteChar(v1), DynamicString::SingleOneByteChar(v2)) => {
                assert(self@ =~= seq![*v1 as u16]);
                assert(other@ =~= seq![*v2 as u16]);
                assert(seq![*v1 as u16][0] == *v1 as u16);
                assert(seq![*v2 as u16][0] == *v2 as u16);
                *v1 == *v2
            },
            (DynamicString::SingleTwoByteChar(v1), DynamicString::SingleTwoByteChar(v2)) => {
                assert(self@ =~= seq![*v1]);
                assert(other@ =~= seq![*v2]);
                assert(seq![*v1][0] == *v1);
                assert(seq![*v2][0] == *v2);
                *v1 == *v2
            },
            (s, o) => {
                let mut mine = s.iter();
                let mut theirs = o.iter();
                let ghost mut seen: Seq<u16> = Seq::empty();
                loop
                    invariant
                        seen + mine@ == self@,
                        seen + theirs@ == other@,
                    decreases mine@.len(),
                {
                    let ghost left = mine@;
                    let ghost right = theirs@;
                    match (mine.next(), theirs.next()) {
                        (None, None) => {
                            assert(self@ =~= other@);
                            return true;
                        },
                        (Some(a), Some(b)) => {
                            if a != b {
                                assert(self@[seen.len() as int] == a);
                                assert(other@[seen.len() as int] == b);
                                return false;
                            }
                            proof {
                                assert(seen.push(a) + mine@ =~= seen + left);
                                assert(seen.push(a) + theirs@ =~= seen + right);
                                seen = seen.push(a);
                            }
                        },
                        _ => {
                            assert(self@.len() != other@.len());
                            return false;
                        },
                    }
                }
            },
        }
    }
}

impl PartialEqSpecImpl for DynamicString {
    open spec fn obeys_eq_spec() -> bool {
        true
    }

    open spec fn eq_spec(&self, other: &DynamicString) -> bool {
        self@ == other@
    }
}

impl<'a> PartialEq<&'a str> for DynamicString {
    /// A string equals a host string where it stands for the UTF-16 code
    /// units of the host string.
    #[inline]
    fn eq(&self, other: &&'a str) -> (r: bool) {
        let theirs = encode_utf16(*other);
        let mut mine = self.iter();
        let mut i: usize = 0;
        loop
            invariant
                i <= theirs@.len(),
                theirs@ == utf16(other@),
                self@.len() == i + mine@.len(),
                forall|k: int| 0 <= k < i ==> self@[k] == theirs@[k],
                forall|k: int| 0 <= k < mine@.len() ==> #[trigger] mine@[k] == self@[i + k],
            decreases mine@.len(),
        {
            match mine.next() {
                None => {
                    let done = i == theirs.len();
                    if done {
                        assert(self@ =~= theirs@);
                    }
                    return done;
                },
                Some(unit) => {
                    if i >= theirs.len() || theirs[i] != unit {
                        assert(self@[i as int] == unit);
                        return false;
                    }
                    i += 1;
                },
            }
        }
    }
}

impl<'a> PartialEqSpecImpl<&'a str> for DynamicString {
    open spec fn obeys_eq_spec() -> bool {
        true
    }

    open spec fn eq_spec(&self, other: &&'a str) -> bool {
        self@ == utf16(other@)
    }
}

impl Hash for DynamicString {
    /// Writes every code unit of the string into the hasher, in order:
    /// strings that stand for the same code units feed it alike.
    #[inline]
    fn hash<H: Hasher>(&self, state: &mut H) {
        let units = self.to_units();
        let mut i: usize = 0;
        while i < units.len()
            invariant
                i <= units@.len(),
            decreases units@.len() - i,
        {
            write_unit(state, units[i]);
            i += 1;
        }
    }
}

/// `Hasher::write_u16`: feeds one code unit to a hasher. Nothing is claimed
/// of the hasher's state.
#[verifier::external_body]
fn write_unit<H: Hasher>(state: &mut H, unit: u16) {
    state.write_u16(unit);
}

impl Eq for DynamicString {

}

} // verus!
