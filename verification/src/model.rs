//! The package data model: the `Package` record, its mathematical view, and
//! the error taxonomy shared by the whole library.

use vstd::prelude::*;

verus! {

/// A package as declared in the catalog: a unique name, a free-form version
/// (used only to form the archive's filename), the names of its direct
/// dependencies in declared order, and the URL its archive is fetched from.
#[derive(Debug, Clone)]
pub struct Package {
    pub name: String,
    pub version: String,
    pub dependencies: Vec<String>,
    pub url: String,
}

/// The mathematical view of a [`Package`]: every field as a sequence value.
#[verifier::ext_equal]
pub struct PackageView {
    pub name: Seq<char>,
    pub version: Seq<char>,
    pub dependencies: Seq<Seq<char>>,
    pub url: Seq<char>,
}

impl View for Package {
    type V = PackageView;

    open spec fn view(&self) -> PackageView {
        PackageView {
            name: self.name@,
            version: self.version@,
            dependencies: self.dependencies.deep_view(),
            url: self.url@,
        }
    }
}

impl DeepView for Package {
    type V = PackageView;

    open spec fn deep_view(&self) -> PackageView {
        self.view()
    }
}

/// What can go wrong: a name absent from the catalog, a failed fetch, a bad
/// archive, a filesystem failure, or a malformed state file.
#[derive(Debug, Clone, Copy, PartialEq, Eq, Structural)]
pub enum PkgError {
    NotFound,
    Transport,
    Archive,
    Io,
    Serialization,
}

} // verus!
