//! Strings of at most `N` bytes.
use vstd::prelude::*;
use vstd::std_specs::cmp::PartialEqSpecImpl;
use vstd::std_specs::convert::{FromSpecImpl, TryFromSpecImpl};
use vstd::utf8::*;

verus! {

/// A string whose UTF-8 encoding is at most `N` bytes long.
#[derive(Debug, Hash)]
pub struct SmallString<const N: usize> {
    data: String,
}

/// Why bytes could not become a `SmallString`.
#[derive(Debug, PartialEq, Eq, Structural, Clone, Copy)]
pub enum FromBytesError {
    TooLarge,
    IllegalString,
}

/// `std::str::from_utf8`: the bytes as a string when they are valid UTF-8,
/// and nothing otherwise; the string then holds the characters the bytes
/// decode to.
#[verifier::external_body]
pub(crate) fn str_from_utf8(bytes: &[u8]) -> (r: Option<&str>)
    ensures
        r is Some <==> valid_utf8(bytes@),
        r matches Some(s) ==> s@ == decode_utf8(bytes@),
{
    std::str::from_utf8(bytes).ok()
}

impl<const N: usize> View for SmallString<N> {
    type V = Seq<char>;

    closed spec fn view(&self) -> Seq<char> {
        self.data@
    }
}

impl<const N: usize> SmallString<N> {
    #[verifier::type_invariant]
    closed spec fn fits(self) -> bool {
        encode_utf8(self.data@).len() <= N
    }

    /// `value`, when its UTF-8 encoding takes at most `N` bytes.
    pub fn from_text(value: &str) -> (r: Result<Self, ()>)
        ensures
            r is Ok <==> encode_utf8(value@).len() <= N,
            r matches Ok(s) ==> s@ == value@,
    {
        let len = value.as_bytes().len();
        if len > N {
            return Err(());
        }
        Ok(SmallString { data: value.to_owned() })
    }

    /// The string that `bytes` encode, when there are at most `N` of them and
    /// they are valid UTF-8.
    pub fn from_utf8_bytes(bytes: &[u8]) -> (r: Result<Self, FromBytesError>)
        ensures
            bytes@.len() > N ==> r == Err::<Self, FromBytesError>(FromBytesError::TooLarge),
            bytes@.len() <= N && !valid_utf8(bytes@) ==> r == Err::<Self, FromBytesError>(
                FromBytesError::IllegalString,
            ),
            bytes@.len() <= N && valid_utf8(bytes@) ==> (r matches Ok(s) && s@ == decode_utf8(
                bytes@,
            )),
    {
        let len = bytes.len();
        if len > N {
            Err(FromBytesError::TooLarge)
        } else {
            match str_from_utf8(bytes) {
                None => Err(FromBytesError::IllegalString),
                Some(s) => {
                    proof {
                        decode_utf8_encode_utf8(bytes@);
                    }
                    match Self::from_text(s) {
                        Ok(v) => Ok(v),
                        Err(_) => Err(FromBytesError::TooLarge),
                    }
                },
            }
        }
    }

    /// The string.
    pub fn as_str(&self) -> (r: &str)
        ensures
            r@ == self@,
            encode_utf8(r@).len() <= N,
    {
        proof {
            use_type_invariant(self);
        }
        self.data.as_str()
    }

    /// The string, as an owned `String`.
    pub fn into_string(self) -> (r: String)
        ensures
            r@ == self@,
    {
        self.data
    }
}

impl<'a, const N: usize> TryFrom<&'a str> for SmallString<N> {
    type Error = ();

    fn try_from(value: &'a str) -> (r: Result<Self, Self::Error>)
        ensures
            r is Ok <==> encode_utf8(value@).len() <= N,
            r matches Ok(s) ==> s@ == value@,
    {
        Self::from_text(value)
    }
}

impl<'a, const N: usize> TryFromSpecImpl<&'a str> for SmallString<N> {
    open spec fn obeys_try_from_spec() -> bool {
        false
    }

    open spec fn try_from_spec(v: &'a str) -> Result<Self, ()> {
        arbitrary()
    }
}

impl<'a, const N: usize> TryFrom<&'a [u8]> for SmallString<N> {
    type Error = FromBytesError;

    fn try_from(bytes: &'a [u8]) -> (r: Result<Self, Self::Error>)
        ensures
            bytes@.len() > N ==> r == Err::<Self, FromBytesError>(FromBytesError::TooLarge),
            bytes@.len() <= N && !valid_utf8(bytes@) ==> r == Err::<Self, FromBytesError>(
                FromBytesError::IllegalString,
            ),
            bytes@.len() <= N && valid_utf8(bytes@) ==> (r matches Ok(s) && s@ == decode_utf8(
                bytes@,
            )),
    {
        Self::from_utf8_bytes(bytes)
    }
}

impl<'a, const N: usize> TryFromSpecImpl<&'a [u8]> for SmallString<N> {
    open spec fn obeys_try_from_spec() -> bool {
        false
    }

    open spec fn try_from_spec(v: &'a [u8]) -> Result<Self, FromBytesError> {
        arbitrary()
    }
}

impl<const N: usize> AsRef<str> for SmallString<N> {
    fn as_ref(&self) -> (r: &str)
        ensures
            r@ == self@,
    {
        self.as_str()
    }
}

impl<const N: usize> From<SmallString<N>> for String {
    fn from(value: SmallString<N>) -> (r: String)
        ensures
            r@ == value@,
    {
        value.into_string()
    }
}

impl<const N: usize> FromSpecImpl<SmallString<N>> for String {
    open spec fn obeys_from_spec() -> bool {
        false
    }

    open spec fn from_spec(v: SmallString<N>) -> String {
        arbitrary()
    }
}

impl<const N: usize> PartialEq for SmallString<N> {
    fn eq(&self, other: &Self) -> (r: bool) {
        self.data == other.data
    }
}

impl<const N: usize> PartialEqSpecImpl for SmallString<N> {
    open spec fn obeys_eq_spec() -> bool {
        true
    }

    open spec fn eq_spec(&self, other: &Self) -> bool {
        self@ == other@
    }
}

impl<const N: usize> Eq for SmallString<N> {
}

} // verus!
