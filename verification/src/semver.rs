//! Concrete versions, compatibility classes and version requirements.

use vstd::prelude::*;

verus! {

/// A concrete semantic version.
#[derive(Clone, Copy, Debug, PartialEq, Eq, Structural, Hash)]
pub struct Version {
    pub major: u64,
    pub minor: u64,
    pub patch: u64,
}

impl Version {
    /// Lexicographic order on (major, minor, patch).
    pub open spec fn spec_le(self, other: Version) -> bool {
        if self.major != other.major {
            self.major < other.major
        } else if self.minor != other.minor {
            self.minor < other.minor
        } else {
            self.patch <= other.patch
        }
    }

    pub fn le(&self, other: &Version) -> (r: bool)
        ensures
            r == self.spec_le(*other),
    {
        if self.major != other.major {
            self.major < other.major
        } else if self.minor != other.minor {
            self.minor < other.minor
        } else {
            self.patch <= other.patch
        }
    }

    pub proof fn lemma_le_total(a: Version, b: Version)
        ensures
            a.spec_le(b) || b.spec_le(a),
            a.spec_le(b) && b.spec_le(a) ==> a == b,
    {
    }
}

/// Two versions are unification-compatible when they sit in the same
/// compatibility class: same major version, or, below 1.0.0, same minor
/// version, or, below 0.1.0, same patch version.
pub open spec fn spec_compatible(a: Version, b: Version) -> bool {
    if a.major != 0 {
        a.major == b.major
    } else if a.minor != 0 {
        b.major == 0 && a.minor == b.minor
    } else {
        b.major == 0 && b.minor == 0 && a.patch == b.patch
    }
}

pub fn compatible(a: &Version, b: &Version) -> (r: bool)
    ensures
        r == spec_compatible(*a, *b),
{
    if a.major != 0 {
        a.major == b.major
    } else if a.minor != 0 {
        b.major == 0 && a.minor == b.minor
    } else {
        b.major == 0 && b.minor == 0 && a.patch == b.patch
    }
}

/// Compatibility is an equivalence relation on versions.
pub proof fn lemma_compatible_equivalence(a: Version, b: Version, c: Version)
    ensures
        spec_compatible(a, a),
        spec_compatible(a, b) == spec_compatible(b, a),
        spec_compatible(a, b) && spec_compatible(b, c) ==> spec_compatible(a, c),
{
}

/// A version requirement contributed by one requirer.
#[derive(Clone, Copy, Debug, PartialEq, Eq, Structural, Hash)]
pub enum VersionReq {
    /// Compatible-with-floor: any version at least the floor and in the
    /// floor's compatibility class.
    Compatible(Version),
    /// Exactly the given version.
    Exact(Version),
}

impl VersionReq {
    /// The floor fixes the requirement's compatibility class.
    pub open spec fn spec_floor(self) -> Version {
        match self {
            VersionReq::Compatible(f) => f,
            VersionReq::Exact(v) => v,
        }
    }

    pub fn floor(&self) -> (r: Version)
        ensures
            r == self.spec_floor(),
    {
        match self {
            VersionReq::Compatible(f) => *f,
            VersionReq::Exact(v) => *v,
        }
    }

    pub open spec fn spec_matches(self, v: Version) -> bool {
        match self {
            VersionReq::Compatible(f) => f.spec_le(v) && spec_compatible(f, v),
            VersionReq::Exact(w) => v == w,
        }
    }

    pub fn matches(&self, v: &Version) -> (r: bool)
        ensures
            r == self.spec_matches(*v),
    {
        match self {
            VersionReq::Compatible(f) => f.le(v) && compatible(f, v),
            VersionReq::Exact(w) => *v == *w,
        }
    }

    /// Any version matching a requirement lies in the class of its floor.
    pub proof fn lemma_matches_in_class(self, v: Version)
        requires
            self.spec_matches(v),
        ensures
            spec_compatible(self.spec_floor(), v),
    {
    }
}

} // verus!
