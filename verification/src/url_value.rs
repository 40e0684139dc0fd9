//! The library's URL values. The url crate does the parsing and the
//! normalizing; the library holds a URL as its normalized
//! serialization, which is all the grammar here ever reads of it.
use vstd::prelude::*;
use crate::ParseError;
use crate::token::is_letter;

verus! {

/// What the url crate's parser makes of the characters `s`: `Some` of
/// the parsed URL's serialization where `s` parses as an absolute URL,
/// `None` where it does not. The result depends on `s` alone.
pub uninterp spec fn url_norm(s: Seq<char>) -> Option<Seq<char>>;

/// A serialization is in normal form when parsing it again returns it
/// unchanged.
pub open spec fn url_normal(s: Seq<char>) -> bool {
    url_norm(s) == Some(s)
}

/// Relies on `url::Url::parse` and `String::from(Url)` (the stored
/// serialization, per `Url::as_str`). Parsing depends on the input
/// string alone; the crate's own `Url::check_invariants` states that a
/// returned URL's serialization is nonempty, starts with an ASCII
/// letter, and parses back to a URL with the same serialization.
#[verifier::external_body]
fn parse_url_raw(s: &str) -> (r: Result<String, String>)
    ensures
        r is Ok <==> url_norm(s@) is Some,
        r matches Ok(t) ==> url_norm(s@) == Some(t@) && url_normal(t@) && t@.len() > 0
            && is_letter(t@[0]),
{
    match url::Url::parse(s) {
        Ok(u) => Ok(String::from(u)),
        Err(e) => Err(format!("{}", e)),
    }
}

/// An absolute URL, held in normal form.
#[derive(Debug, Clone, PartialEq, Eq)]
pub struct Url {
    text: String,
}

impl View for Url {
    type V = Seq<char>;

    closed spec fn view(&self) -> Seq<char> {
        self.text@
    }
}

impl Url {
    /// A URL is well formed when its text is a normalized absolute
    /// URL; every `Url` this module hands out is.
    pub open spec fn wf(&self) -> bool {
        url_normal(self@) && self@.len() > 0 && is_letter(self@[0])
    }

    /// Parses an absolute URL; returns `InvalidUrl` exactly where the
    /// url crate rejects the text.
    pub fn parse(s: &str) -> (r: Result<Url, ParseError>)
        ensures
            r is Ok <==> url_norm(s@) is Some,
            r matches Ok(u) ==> Some(u@) == url_norm(s@) && u.wf(),
            r matches Err(e) ==> e@ == crate::ParseErrorV::InvalidUrl,
    {
        match parse_url_raw(s) {
            Ok(t) => Ok(Url { text: t }),
            Err(m) => Err(ParseError::InvalidUrl(m)),
        }
    }

    /// The URL's normalized serialization.
    pub fn as_str(&self) -> (r: &str)
        ensures
            r@ == self@,
    {
        self.text.as_str()
    }

    /// The URL's normalized serialization, as a fresh string.
    pub fn to_string(&self) -> (r: String)
        ensures
            r@ == self@,
    {
        self.text.clone()
    }
}

} // verus!
