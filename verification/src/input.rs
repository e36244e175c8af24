//! One validated ingestion boundary: UTF-8 is validated once and the
//! newline count is computed in a single byte pass, so chunking, decoding
//! and retention preflight share this view instead of rescanning.
use vstd::prelude::*;
use vstd::string::StringSliceAdditionalSpecFns;
use vstd::utf8::{decode_utf8, valid_utf8};

use crate::chunk::{lemma_nl_ends_props, nl_count, nl_ends};

verus! {

/// Calls `std::str::from_utf8`: `Ok` exactly when the bytes are valid
/// UTF-8, and then the string slice is those very bytes.
#[verifier::external_body]
fn str_from_utf8(bytes: &[u8]) -> (text: Option<&str>)
    ensures
        text is Some <==> valid_utf8(bytes@),
        text matches Some(t) ==> t.spec_bytes() == bytes@ && t@ == decode_utf8(bytes@),
{
    std::str::from_utf8(bytes).ok()
}

/// Why an input was refused.
#[derive(Debug, PartialEq, Eq, Structural)]
pub enum InputError {
    InvalidUtf8,
}

impl InputError {
    /// The stable error text reported to clients.
    pub fn message(&self) -> (text: &'static str)
        ensures
            text@ == "INVALID_UTF8: Source payload is not UTF-8"@,
    {
        match self {
            InputError::InvalidUtf8 => "INVALID_UTF8: Source payload is not UTF-8",
        }
    }
}

/// Validated input bytes with their text and newline count.
pub struct ValidatedInput<'a> {
    bytes: &'a [u8],
    text: &'a str,
    newlines: usize,
}

/// Counts the newline bytes of `bytes`.
fn count_newlines(bytes: &[u8]) -> (count: usize)
    ensures
        count == nl_count(bytes@),
{
    let mut count: usize = 0;
    let mut i: usize = 0;
    while i < bytes.len()
        invariant
            i <= bytes@.len(),
            count == nl_count(bytes@.take(i as int)),
        decreases bytes@.len() - i,
    {
        proof {
            assert(bytes@.take(i as int + 1).drop_last() =~= bytes@.take(i as int));
            lemma_nl_ends_props(bytes@.take(i as int));
        }
        if bytes[i] == 10u8 {
            count += 1;
        }
        i += 1;
    }
    assert(bytes@.take(bytes@.len() as int) =~= bytes@);
    count
}

impl<'a> ValidatedInput<'a> {
    pub closed spec fn view_bytes(&self) -> Seq<u8> {
        self.bytes@
    }

    pub closed spec fn view_text(&self) -> &'a str {
        self.text
    }

    pub closed spec fn count(&self) -> int {
        self.newlines as int
    }

    /// Validates raw bytes as UTF-8.
    pub fn from_bytes(bytes: &'a [u8]) -> (input: Result<Self, InputError>)
        ensures
            input is Ok <==> valid_utf8(bytes@),
            input is Err ==> input == Err::<Self, InputError>(InputError::InvalidUtf8),
            input matches Ok(v) ==> {
                &&& v.view_bytes() == bytes@
                &&& v.view_text().spec_bytes() == bytes@
                &&& v.view_text()@ == decode_utf8(bytes@)
                &&& v.count() == nl_count(bytes@)
            },
    {
        match str_from_utf8(bytes) {
            Some(text) => Ok(ValidatedInput { bytes, text, newlines: count_newlines(bytes) }),
            None => Err(InputError::InvalidUtf8),
        }
    }

    /// Wraps text that is UTF-8 by construction.
    pub fn from_str(text: &'a str) -> (input: Self)
        ensures
            input.view_bytes() == text.spec_bytes(),
            input.view_text() == text,
            input.count() == nl_count(text.spec_bytes()),
    {
        let bytes = text.as_bytes();
        ValidatedInput { bytes, text, newlines: count_newlines(bytes) }
    }

    pub fn bytes(&self) -> (bytes: &'a [u8])
        ensures
            bytes@ == self.view_bytes(),
    {
        self.bytes
    }

    pub fn text(&self) -> (text: &'a str)
        ensures
            text == self.view_text(),
    {
        self.text
    }

    pub fn len(&self) -> (len: usize)
        ensures
            len == self.view_bytes().len(),
    {
        self.bytes.len()
    }

    pub fn is_empty(&self) -> (empty: bool)
        ensures
            empty == (self.view_bytes().len() == 0),
    {
        self.bytes.len() == 0
    }

    pub fn newlines(&self) -> (count: usize)
        ensures
            count == self.count(),
    {
        self.newlines
    }
}

} // verus!
