//! `Value`: the realized outcome of a journaled step.
//!
//! Oracle outcomes, channel messages and effect results are carried as owned
//! byte strings: the journal stores and replays any outcome byte for byte
//! without interpreting it.
use vstd::prelude::*;
use vstd::std_specs::convert::*;
use vstd::utf8::*;

use crate::text;

verus! {

/// A realized value: opaque bytes, usually UTF-8 text.
#[derive(Debug, PartialEq, Eq, Hash)]
pub struct Value(pub Vec<u8>);

impl View for Value {
    type V = Seq<u8>;

    open spec fn view(&self) -> Seq<u8> {
        self.0@
    }
}

impl Value {
    pub fn new<B: Into<Vec<u8>>>(bytes: B) -> (r: Self)
        ensures
            call_ensures(B::into, (bytes,), r.0),
    {
        Value(bytes.into())
    }

    pub fn as_bytes(&self) -> (r: &[u8])
        ensures
            r@ == self@,
    {
        self.0.as_slice()
    }

    /// Lossy UTF-8 text: realized model outputs are text in practice.
    pub fn as_str(&self) -> (r: String)
        ensures
            r@ == text::lossy_text(self@),
            valid_utf8(self@) ==> r@ == decode_utf8(self@),
    {
        text::lossy(self.0.as_slice())
    }

    /// The text that is shown for the value.
    pub fn to_string(&self) -> (r: String)
        ensures
            r@ == text::lossy_text(self@),
    {
        self.as_str()
    }

    pub fn len(&self) -> (r: usize)
        ensures
            r == self@.len(),
    {
        self.0.len()
    }

    pub fn is_empty(&self) -> (r: bool)
        ensures
            r == (self@.len() == 0),
    {
        self.0.len() == 0
    }

    /// Do the two values hold the same bytes?
    pub fn same(&self, other: &Value) -> (r: bool)
        ensures
            r == (self@ == other@),
    {
        text::same_bytes(self.0.as_slice(), other.0.as_slice())
    }
}

impl Clone for Value {
    fn clone(&self) -> (r: Self)
        ensures
            r@ == self@,
    {
        let mut bytes: Vec<u8> = Vec::new();
        bytes.extend_from_slice(self.0.as_slice());
        assert(bytes@ =~= self.0@);
        Value(bytes)
    }
}

impl Default for Value {
    /// The empty value.
    fn default() -> (r: Self)
        ensures
            r@ == Seq::<u8>::empty(),
    {
        Value(Vec::new())
    }
}

impl FromSpecImpl<&str> for Value {
    open spec fn obeys_from_spec() -> bool {
        false
    }

    open spec fn from_spec(s: &str) -> Self {
        arbitrary()
    }
}

impl From<&str> for Value {
    fn from(s: &str) -> (r: Self)
        ensures
            r@ == encode_utf8(s@),
    {
        Value(s.as_bytes_vec())
    }
}

impl FromSpecImpl<String> for Value {
    open spec fn obeys_from_spec() -> bool {
        false
    }

    open spec fn from_spec(s: String) -> Self {
        arbitrary()
    }
}

impl From<String> for Value {
    fn from(s: String) -> (r: Self)
        ensures
            r@ == encode_utf8(s@),
    {
        Value(s.as_str().as_bytes_vec())
    }
}

impl FromSpecImpl<Vec<u8>> for Value {
    open spec fn obeys_from_spec() -> bool {
        true
    }

    open spec fn from_spec(b: Vec<u8>) -> Self {
        Value(b)
    }
}

impl From<Vec<u8>> for Value {
    fn from(b: Vec<u8>) -> (r: Self)
        ensures
            r@ == b@,
    {
        Value(b)
    }
}

/// `From<T> for T`: the conversion of a type to itself returns its argument.
pub assume_specification<Same>[ <Same as From<Same>>::from ](t: Same) -> (r: Same)
    ensures
        r == t,
;

/// Text survives the trip through a value.
pub proof fn law_text_round_trip(s: Seq<char>)
    ensures
        valid_utf8(encode_utf8(s)),
        decode_utf8(encode_utf8(s)) == s,
{
    encode_utf8_valid_utf8(s);
    encode_utf8_decode_utf8(s);
}

} // verus!
