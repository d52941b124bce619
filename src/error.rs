use vstd::prelude::*;

verus! {

/// Why a query could not be resolved.
#[derive(Debug, Clone, PartialEq, Eq)]
pub enum Error {
    /// The clause matches no known shape.
    UnknownQuery(String),
    /// A clause names a browser that the dataset does not know.
    BrowserNotFound(String),
    /// A bare browser name, without the version it needs.
    VersionRequired(String),
    /// A percentage that does not fit.
    ParsePercentage(String),
    /// A count of versions that does not fit.
    ParseVersionsCount(String),
    /// A date that does not exist.
    InvalidDate(String),
}

/// Which error, and the text it carries.
pub ghost enum ErrorView {
    UnknownQuery(Seq<char>),
    BrowserNotFound(Seq<char>),
    VersionRequired(Seq<char>),
    ParsePercentage(Seq<char>),
    ParseVersionsCount(Seq<char>),
    InvalidDate(Seq<char>),
}

impl View for Error {
    type V = ErrorView;

    open spec fn view(&self) -> ErrorView {
        match self {
            Error::UnknownQuery(s) => ErrorView::UnknownQuery(s@),
            Error::BrowserNotFound(s) => ErrorView::BrowserNotFound(s@),
            Error::VersionRequired(s) => ErrorView::VersionRequired(s@),
            Error::ParsePercentage(s) => ErrorView::ParsePercentage(s@),
            Error::ParseVersionsCount(s) => ErrorView::ParseVersionsCount(s@),
            Error::InvalidDate(s) => ErrorView::InvalidDate(s@),
        }
    }
}

/// Options of a resolution.
pub struct Opts {
    /// Reason about mobile browsers with the history of their desktop
    /// equivalents.
    pub mobile_to_desktop: bool,
}

impl Opts {
    /// The default options.
    pub fn new() -> (r: Opts)
        ensures
            !r.mobile_to_desktop,
    {
        Opts { mobile_to_desktop: false }
    }

    /// Sets whether mobile browsers are mapped to desktop ones.
    pub fn mobile_to_desktop(self, flag: bool) -> (r: Opts)
        ensures
            r.mobile_to_desktop == flag,
    {
        Opts { mobile_to_desktop: flag }
    }
}

/// A browser (or `node`) and one of its versions.
#[derive(Debug, Clone, PartialEq, Eq)]
pub struct Distrib {
    name: String,
    version: String,
}

impl View for Distrib {
    type V = (Seq<char>, Seq<char>);

    closed spec fn view(&self) -> (Seq<char>, Seq<char>) {
        (self.name@, self.version@)
    }
}

impl Distrib {
    pub fn new(name: &str, version: &str) -> (r: Distrib)
        ensures
            r@ == (name@, version@),
    {
        let r = Distrib { name: name.to_owned(), version: version.to_owned() };
        proof {
            assert(r@ == (r.name@, r.version@));
        }
        r
    }

    pub(crate) fn from_strings(name: String, version: String) -> (r: Distrib)
        ensures
            r@ == (name@, version@),
    {
        Distrib { name, version }
    }

    /// The browser's name, or `node`.
    pub fn name(&self) -> (r: &str)
        ensures
            r@ == self@.0,
    {
        self.name.as_str()
    }

    /// The version.
    pub fn version(&self) -> (r: &str)
        ensures
            r@ == self@.1,
    {
        self.version.as_str()
    }

    /// Whether two entries name the same browser and version.
    pub fn same(&self, other: &Distrib) -> (r: bool)
        ensures
            r == (self@ == other@),
    {
        self.name == other.name && self.version == other.version
    }

    /// A copy of the entry.
    pub fn copy(&self) -> (r: Distrib)
        ensures
            r@ == self@,
    {
        Distrib { name: self.name.clone(), version: self.version.clone() }
    }

    /// The usual rendering, `"<name> <version>"`.
    pub fn to_string(&self) -> (r: String)
        ensures
            r@ == self@.0 + seq![' '] + self@.1,
    {
        let mut cs = crate::text::chars_of(self.name.as_str());
        cs.push(' ');
        let v = crate::text::chars_of(self.version.as_str());
        let mut i: usize = 0;
        let ghost base = cs@;
        while i < v.len()
            invariant
                i <= v@.len(),
                cs@ == base + v@.subrange(0, i as int),
            decreases v@.len() - i,
        {
            cs.push(v[i]);
            proof {
                assert(base + v@.subrange(0, i + 1) =~= (base + v@.subrange(0, i as int)).push(v@[i as int]));
            }
            i = i + 1;
        }
        proof {
            assert(v@.subrange(0, v@.len() as int) =~= v@);
        }
        crate::text::string_of(&cs)
    }
}

} // verus!
