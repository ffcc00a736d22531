//! The backend registry and the shared data model.
//!
//! A backend is one loaded package-manager integration, identified by its
//! name and carrying a display accent.  The registry owns every loaded
//! backend for the life of the process and answers lookups by name with a
//! linear scan: registries hold tens of entries, not thousands.  Packages
//! and their detail records are ephemeral values produced fresh for each
//! response.

use vstd::prelude::*;

use crate::seqs::{find_index, lemma_find_index_at, lemma_find_index_props};
use crate::text::str_eq;

verus! {

/// One loaded backend: its stable name, the merge and priority key, and the
/// red-green-blue accent it is displayed with.
pub struct Backend {
    pub name: String,
    pub colour: (u8, u8, u8),
}

/// The accent used when a backend declares none.
pub fn default_colour() -> (c: (u8, u8, u8))
    ensures
        c == (255u8, 255u8, 255u8),
{
    (255, 255, 255)
}

/// Every backend loaded from the discovery directory, in load order.
pub struct Backends(Vec<Backend>);

impl View for Backends {
    type V = Seq<Backend>;

    closed spec fn view(&self) -> Seq<Backend> {
        self.0@
    }
}

impl Backends {
    /// Wraps the loaded list; an empty discovery directory is a start-up
    /// error, so an empty list is refused.
    pub fn new(list: Vec<Backend>) -> (r: Option<Backends>)
        ensures
            match r {
                Some(b) => b@ == list@ && list@.len() > 0,
                None => list@.len() == 0,
            },
    {
        if list.is_empty() {
            None
        } else {
            Some(Backends(list))
        }
    }

    /// Lookup by name: the first backend carrying it, if any is loaded.
    pub fn get(&self, name: &str) -> (r: Option<&Backend>)
        ensures
            ({
                let fi = find_index(self@, |b: Backend| b.name@ == name@);
                match r {
                    None => fi is None,
                    Some(b) => fi is Some && *b == self@[fi.unwrap() as int],
                }
            }),
    {
        let ghost p = |b: Backend| b.name@ == name@;
        let n = self.0.len();
        let mut i: usize = 0;
        while i < n
            invariant
                n == self@.len(),
                i <= n,
                forall|j: int| 0 <= j < i ==> !p(#[trigger] self@[j]),
                p == (|b: Backend| b.name@ == name@),
            decreases n - i,
        {
            if str_eq(self.0[i].name.as_str(), name) {
                proof {
                    lemma_find_index_at(self@, p, i as int);
                }
                return Some(&self.0[i]);
            }
            i = i + 1;
        }
        proof {
            lemma_find_index_props(self@, p);
        }
        None
    }

    pub fn len(&self) -> (n: usize)
        ensures
            n == self@.len(),
    {
        self.0.len()
    }

    /// The loaded backends, in load order.
    pub fn list(&self) -> (r: &Vec<Backend>)
        ensures
            r@ == self@,
    {
        &self.0
    }
}

/// The model of a package: each field as the mathematics sees it.
pub struct PackageModel {
    pub name: Seq<char>,
    pub version: Seq<char>,
    pub alias: Option<Seq<char>>,
    pub desc: Seq<char>,
    pub authors: Option<Seq<Seq<char>>>,
    pub url: Seq<char>,
}

/// One package as a backend reports it: produced fresh per query, never
/// mutated after construction.
pub struct Package {
    pub name: String,
    pub version: String,
    pub alias: Option<String>,
    pub desc: String,
    pub authors: Option<Vec<String>>,
    pub url: String,
}

impl View for Package {
    type V = PackageModel;

    open spec fn view(&self) -> PackageModel {
        PackageModel {
            name: self.name@,
            version: self.version@,
            alias: self.alias.deep_view(),
            desc: self.desc@,
            authors: self.authors.deep_view(),
            url: self.url@,
        }
    }
}

/// The model of a package detail record.
pub struct PackageInfoModel {
    pub pkg: PackageModel,
    pub deps: Seq<Seq<char>>,
    pub license: Seq<char>,
    pub release_date: Seq<char>,
    pub source: Option<Seq<char>>,
    pub groups: Option<Seq<Seq<char>>>,
    pub downloads: Option<u64>,
    pub homepage: Option<Seq<char>>,
    pub size: Option<u64>,
}

/// The display-oriented detail record a backend answers `info` with.
pub struct PackageInfo {
    pub pkg: Package,
    pub deps: Vec<String>,
    pub license: String,
    pub release_date: String,
    pub source: Option<String>,
    pub groups: Option<Vec<String>>,
    pub downloads: Option<u64>,
    pub homepage: Option<String>,
    pub size: Option<u64>,
}

impl View for PackageInfo {
    type V = PackageInfoModel;

    open spec fn view(&self) -> PackageInfoModel {
        PackageInfoModel {
            pkg: self.pkg@,
            deps: self.deps.deep_view(),
            license: self.license@,
            release_date: self.release_date@,
            source: self.source.deep_view(),
            groups: self.groups.deep_view(),
            downloads: self.downloads,
            homepage: self.homepage.deep_view(),
            size: self.size,
        }
    }
}

} // verus!
