//! Dependency identities: the `(name, version, source)` triple naming one
//! resolved package, its equality and ordering (which ignore `source`), and
//! per-identity license resolution.

use vstd::prelude::*;
use crate::chars::has_prefix;
use crate::chars::lex_le;
use crate::chars::lemma_lex_le_antisymmetric;
use crate::chars::lemma_lex_le_total;
use crate::chars::lemma_lex_le_transitive;
use crate::chars::str_has_prefix;
use crate::chars::str_le;
use crate::license::normalize_license;
use crate::license::normalized_license;

verus! {

/// One concrete resolved package: two identities are the same dependency
/// exactly when `name` and `version` agree; `source` is informational.
pub struct Dependency {
    pub name: String,
    pub version: String,
    pub source: String,
}

/// The mathematical value of a `Dependency`.
pub struct DepView {
    pub name: Seq<char>,
    pub version: Seq<char>,
    pub source: Seq<char>,
}

impl View for Dependency {
    type V = DepView;

    open spec fn view(&self) -> DepView {
        DepView { name: self.name@, version: self.version@, source: self.source@ }
    }
}

/// Identity equality: `(name, version)` only.
pub open spec fn key_eq(a: DepView, b: DepView) -> bool {
    a.name == b.name && a.version == b.version
}

/// Identity order: lexicographic by `name`, then by `version`, both compared
/// as plain character sequences.
pub open spec fn key_le(a: DepView, b: DepView) -> bool {
    if a.name == b.name {
        lex_le(a.version, b.version)
    } else {
        lex_le(a.name, b.name)
    }
}

pub open spec fn key_lt(a: DepView, b: DepView) -> bool {
    key_le(a, b) && !key_eq(a, b)
}

pub proof fn lemma_key_le_total(a: DepView, b: DepView)
    ensures
        key_le(a, b) || key_le(b, a),
{
    lemma_lex_le_total(a.name, b.name);
    lemma_lex_le_total(a.version, b.version);
}

pub proof fn lemma_key_le_antisymmetric(a: DepView, b: DepView)
    requires
        key_le(a, b),
        key_le(b, a),
    ensures
        key_eq(a, b),
{
    if a.name == b.name {
        lemma_lex_le_antisymmetric(a.version, b.version);
    } else {
        lemma_lex_le_antisymmetric(a.name, b.name);
    }
}

pub proof fn lemma_key_le_transitive(a: DepView, b: DepView, c: DepView)
    requires
        key_le(a, b),
        key_le(b, c),
    ensures
        key_le(a, c),
{
    if a.name == b.name && b.name == c.name {
        lemma_lex_le_transitive(a.version, b.version, c.version);
    } else if a.name == b.name {
        assert(lex_le(b.name, c.name));
    } else if b.name == c.name {
        assert(lex_le(a.name, b.name));
    } else {
        lemma_lex_le_transitive(a.name, b.name, c.name);
        if a.name == c.name {
            lemma_lex_le_antisymmetric(a.name, b.name);
        }
    }
}

/// Only sources with this prefix are registries that can be asked for
/// package metadata.
pub open spec fn is_registry_source(s: Seq<char>) -> bool {
    has_prefix(s, "registry"@)
}

impl Dependency {
    /// An identical copy.
    pub fn duplicate(&self) -> (r: Dependency)
        ensures
            r@ == self@,
    {
        Dependency { name: self.name.clone(), version: self.version.clone(), source: self.source.clone() }
    }

    /// Executable identity order.
    pub fn le(&self, other: &Dependency) -> (r: bool)
        ensures
            r == key_le(self@, other@),
    {
        if self.name == other.name {
            str_le(self.version.as_str(), other.version.as_str())
        } else {
            str_le(self.name.as_str(), other.name.as_str())
        }
    }

    /// Executable identity equality.
    pub fn same_key(&self, other: &Dependency) -> (r: bool)
        ensures
            r == key_eq(self@, other@),
    {
        self.name == other.name && self.version == other.version
    }

    /// Whether this identity's source is a registry.
    pub fn has_registry_source(&self) -> (r: bool)
        ensures
            r == is_registry_source(self@.source),
    {
        str_has_prefix(self.source.as_str(), "registry")
    }

    /// Normalize a declared license: split on `/`, trim each alternative,
    /// drop duplicates, sort, rejoin. An absent license stays absent.
    pub fn normalize(&self, license_string: &Option<String>) -> (r: Option<String>)
        ensures
            r is Some <==> license_string is Some,
            license_string matches Some(l) ==> r matches Some(out) && normalized_license(
                l@,
                out@,
            ),
    {
        match license_string {
            None => None,
            Some(l) => Some(normalize_license(l.as_str())),
        }
    }

    /// The resolved license of this identity, given the license string its
    /// originating source declared for it. Identities whose source is not a
    /// registry never resolve a license, whatever was declared; for registry
    /// identities an absent declaration stays absent and a present one is
    /// normalized.
    pub fn get_license(&self, declared: &Option<String>) -> (r: Option<String>)
        ensures
            !is_registry_source(self@.source) ==> r is None,
            is_registry_source(self@.source) ==> {
                &&& r is Some <==> declared is Some
                &&& declared matches Some(l) ==> r matches Some(out) && normalized_license(
                    l@,
                    out@,
                )
            },
    {
        if self.has_registry_source() {
            self.normalize(declared)
        } else {
            None
        }
    }
}

} // verus!
