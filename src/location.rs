//! Where a document comes from: a filesystem path or a URL.
use vstd::prelude::*;

verus! {

/// Mathematical model of a [`DocLocation`].
pub enum Location {
    File(Seq<char>),
    Url(Seq<char>),
}

/// The origin of a document, used as a cache key: a filesystem path, or an
/// absolute URL in the form `url::Url` writes it.
#[derive(Debug, Clone, PartialEq, Eq, Hash, PartialOrd, Ord)]
pub enum DocLocation {
    File(String),
    Url(String),
}

impl View for DocLocation {
    type V = Location;

    open spec fn view(&self) -> Location {
        match self {
            DocLocation::File(p) => Location::File(p@),
            DocLocation::Url(u) => Location::Url(u@),
        }
    }
}

/// The text of the absolute URL that `url::Url::parse` reads from `s`, or
/// `None` where it reads none.
pub uninterp spec fn url_text(s: Seq<char>) -> Option<Seq<char>>;

/// The location that a location text denotes: a URL where the text parses as
/// an absolute URL, else a filesystem path.
pub open spec fn location_of(s: Seq<char>) -> Location {
    match url_text(s) {
        Some(u) => Location::Url(u),
        None => Location::File(s),
    }
}

/// Relies on `url::Url::parse`, which depends on its input alone, and on
/// `String::from(Url)`, which hands back the parsed URL's text.
#[verifier::external_body]
fn parse_url(s: &str) -> (r: Option<String>)
    ensures
        match r {
            Some(u) => url_text(s@) == Some(u@),
            None => url_text(s@) is None,
        },
{
    match url::Url::parse(s) {
        Ok(u) => Some(String::from(u)),
        Err(_) => None,
    }
}

impl DocLocation {
    /// Classifies a location text: a URL where it parses as one, else a path.
    /// Touches neither the disk nor the network.
    pub fn from_text(s: &str) -> (l: DocLocation)
        ensures
            l@ == location_of(s@),
    {
        match parse_url(s) {
            Some(u) => DocLocation::Url(u),
            None => DocLocation::File(s.to_owned()),
        }
    }

    /// Whether both are the same variant with the same text.
    pub fn same_as(&self, other: &DocLocation) -> (r: bool)
        ensures
            r == (self@ == other@),
    {
        match (self, other) {
            (DocLocation::File(a), DocLocation::File(b)) => *a == *b,
            (DocLocation::Url(a), DocLocation::Url(b)) => *a == *b,
            _ => false,
        }
    }

    /// A copy of this location.
    pub fn duplicate(&self) -> (l: DocLocation)
        ensures
            l@ == self@,
    {
        match self {
            DocLocation::File(p) => DocLocation::File(p.clone()),
            DocLocation::Url(u) => DocLocation::Url(u.clone()),
        }
    }
}

} // verus!
