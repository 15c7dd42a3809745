use vstd::prelude::*;

verus! {

/// An exact package version.
#[derive(Clone, Copy, Debug, PartialEq, Eq, Structural)]
pub struct Version {
    pub major: u64,
    pub minor: u64,
    pub patch: u64,
}

/// A version requirement, as written in a dependency declaration.
#[derive(Clone, Copy, Debug, PartialEq, Eq, Structural)]
pub enum VersionReq {
    /// `*`: any version.
    Any,
    /// `=x.y.z`: exactly this version.
    Exact(Version),
    /// `>=x.y.z`.
    AtLeast(Version),
    /// `^x.y.z`: compatible updates, leaving the first non-zero part fixed.
    Caret(Version),
    /// `~x.y.z`: patch updates only.
    Tilde(Version),
}

/// `a` is older than `b`.
pub open spec fn version_lt(a: Version, b: Version) -> bool {
    a.major < b.major || (a.major == b.major && (a.minor < b.minor || (a.minor == b.minor
        && a.patch < b.patch)))
}

pub open spec fn version_le(a: Version, b: Version) -> bool {
    a == b || version_lt(a, b)
}

/// Whether version `v` satisfies requirement `r`.
pub open spec fn req_matches(r: VersionReq, v: Version) -> bool {
    match r {
        VersionReq::Any => true,
        VersionReq::Exact(w) => v == w,
        VersionReq::AtLeast(w) => version_le(w, v),
        VersionReq::Caret(w) => version_le(w, v) && if w.major > 0 {
            v.major == w.major
        } else if w.minor > 0 {
            v.major == 0 && v.minor == w.minor
        } else {
            v.major == 0 && v.minor == 0 && v.patch == w.patch
        },
        VersionReq::Tilde(w) => version_le(w, v) && v.major == w.major && v.minor == w.minor,
    }
}

impl Version {
    pub fn new(major: u64, minor: u64, patch: u64) -> (r: Version)
        ensures
            r == (Version { major, minor, patch }),
    {
        Version { major, minor, patch }
    }

    /// Whether this version is older than `other`.
    pub fn lt(&self, other: &Version) -> (r: bool)
        ensures
            r == version_lt(*self, *other),
    {
        self.major < other.major || (self.major == other.major && (self.minor < other.minor || (
        self.minor == other.minor && self.patch < other.patch)))
    }

    fn le(&self, other: &Version) -> (r: bool)
        ensures
            r == version_le(*self, *other),
    {
        *self == *other || self.lt(other)
    }
}

impl VersionReq {
    /// Whether version `v` satisfies this requirement.
    pub fn matches(&self, v: &Version) -> (r: bool)
        ensures
            r == req_matches(*self, *v),
    {
        match self {
            VersionReq::Any => true,
            VersionReq::Exact(w) => *v == *w,
            VersionReq::AtLeast(w) => w.le(v),
            VersionReq::Caret(w) => w.le(v) && if w.major > 0 {
                v.major == w.major
            } else if w.minor > 0 {
                v.major == 0 && v.minor == w.minor
            } else {
                v.major == 0 && v.minor == 0 && v.patch == w.patch
            },
            VersionReq::Tilde(w) => w.le(v) && v.major == w.major && v.minor == w.minor,
        }
    }
}

} // verus!
