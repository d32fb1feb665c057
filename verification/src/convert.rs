//! Conversions between strings and host strings.
use crate::string::DynamicString;
use crate::units::utf16;
use crate::units::utf16_lossy;
use vstd::prelude::*;
use vstd::std_specs::convert::FromSpecImpl;

verus! {

impl<'a> From<&'a str> for DynamicString {
    #[inline]
    fn from(data: &'a str) -> (r: DynamicString)
        ensures
            r@ == utf16(data@),
            r.valid(),
    {
        DynamicString::new(data)
    }
}

impl<'a> FromSpecImpl<&'a str> for DynamicString {
    open spec fn obeys_from_spec() -> bool {
        false
    }

    open spec fn from_spec(data: &'a str) -> DynamicString {
        arbitrary()
    }
}

impl From<DynamicString> for String {
    #[inline]
    fn from(string: DynamicString) -> (text: String)
        ensures
            text@ == utf16_lossy(string@),
    {
        string.into_host()
    }
}

impl FromSpecImpl<DynamicString> for String {
    open spec fn obeys_from_spec() -> bool {
        false
    }

    open spec fn from_spec(string: DynamicString) -> String {
        arbitrary()
    }
}

impl<'a> From<&'a DynamicString> for String {
    #[inline]
    fn from(string: &'a DynamicString) -> (text: String)
        ensures
            text@ == utf16_lossy(string@),
    {
        string.to_host()
    }
}

impl<'a> FromSpecImpl<&'a DynamicString> for String {
    open spec fn obeys_from_spec() -> bool {
        false
    }

    open spec fn from_spec(string: &'a DynamicString) -> String {
        arbitrary()
    }
}

} // verus!
