//! Feature-aware build-dependency expansion and license normalization.
//!
//! Given an already-resolved catalog of packages, the library computes the
//! transitive closure of normal build dependencies of a set of root packages
//! under a chosen set of enabled features, flattens it into a deduplicated,
//! lexicographically ordered list of `(name, version, source)` identities,
//! and normalizes declared license strings for registry-sourced identities.

use vstd::prelude::*;

mod catalog;
mod chars;
mod expand;
mod features;
mod identity;
mod laws;
mod license;
mod order;
mod versions;

pub use catalog::Catalog;
pub use catalog::DepDecl;
pub use catalog::DepKind;
pub use catalog::FeatureDecl;
pub use catalog::PackageNode;
pub use catalog::feature_lookup;
pub use catalog::lookup_feature;
pub use catalog::node_key;
pub use expand::CatalogError;
pub use expand::PkgKey;
pub use expand::closed;
pub use expand::edge_included;
pub use expand::expand;
pub use expand::forwards;
pub use expand::get_dependencies;
pub use expand::has_match;
pub use expand::name_present;
pub use expand::normal_edge;
pub use expand::normal_path;
pub use expand::normal_reaches;
pub use expand::reached_entry;
pub use expand::reached_from_roots;
pub use expand::root_present;
pub use expand::spec_edge_matches;
pub use features::activated;
pub use features::resolve_features;
pub use features::seeds;
pub use identity::Dependency;
pub use identity::DepView;
pub use identity::is_registry_source;
pub use identity::key_eq;
pub use identity::key_le;
pub use identity::key_lt;
pub use laws::lemma_optional_dependency_gate;
pub use laws::lemma_qualified_feature_threads;
pub use laws::lemma_required_edges_ignore_features;
pub use license::normalize_license;
pub use license::normalized_license;
pub use order::dedup_deps;
pub use order::deps_views;
pub use order::has_key;
pub use order::key_run;
pub use order::key_sorted_le;
pub use order::key_sorted_strict;
pub use order::sort_deps;

verus! {

} // verus!
