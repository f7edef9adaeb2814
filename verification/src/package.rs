//! Packages by name and version, and the package lists of closures.
use vstd::prelude::*;
use crate::version::Version;

verus! {

/// A package: a name and a version.
#[derive(Debug, PartialEq, Eq)]
pub struct Package {
    pub name: String,
    pub version: Version,
}

impl View for Package {
    type V = (Seq<char>, Seq<char>);

    open spec fn view(&self) -> (Seq<char>, Seq<char>) {
        (self.name@, self.version@)
    }
}

impl Package {
    pub fn new(name: String, version: Version) -> (p: Package)
        ensures
            p@ == (name@, version@),
    {
        Package { name, version }
    }
}

/// The packages of one closure, in any order and with repetitions.
#[derive(Debug, Default, PartialEq, Eq)]
pub struct PackageSnapshot {
    pub packages: Vec<Package>,
}

impl PackageSnapshot {
    pub fn new(packages: Vec<Package>) -> (s: PackageSnapshot)
        ensures
            s.packages@ == packages@,
    {
        PackageSnapshot { packages }
    }
}

} // verus!
