//! Algorithm parameter records and the lists of selectable algorithm names:
//! the installed plugins' names followed by the built-in ones.

use vstd::prelude::*;
use crate::modes::SortBy;

verus! {

/// S2 grid parameters shared by clustering and bootstrapping.
#[derive(Debug, Clone, Copy, Default)]
pub struct S2Config {
    pub level: u8,
    pub size: u8,
}

/// Routing parameters.
#[derive(Debug, Clone)]
pub struct RoutingConfig {
    pub sort_by: SortBy,
    pub route_split_level: u64,
    pub plugin_args: String,
}

/// Parameters of one greedy disk-cover run.
pub struct SolveParams<'a> {
    /// Cluster cost in points (`min_points`, clamped to at least 1).
    pub m: usize,
    /// Per-point cap on pair-intersection partners.
    pub k_cap: usize,
    /// Deterministic restart variant (0 is the canonical run).
    pub variant: u8,
    /// Points already covered by fixed outside disks.
    pub pre_covered: &'a [bool],
}

/// The names in a list of strings, as character sequences.
pub open spec fn names(v: Seq<String>) -> Seq<Seq<char>> {
    v.map_values(|s: String| s@)
}

/// The built-in clustering modes, in listing order.
pub open spec fn builtin_clustering() -> Seq<Seq<char>> {
    seq!["honeycomb"@, "fastest"@, "balanced"@, "fast"@, "better"@, "best"@]
}

/// The built-in routing sorts, in listing order.
pub open spec fn builtin_routing() -> Seq<Seq<char>> {
    seq!["point_count"@, "latlon"@, "geohash"@, "s2"@, "tsp"@, "tsphybrid"@, "random"@]
}

/// The built-in bootstrap modes, in listing order.
pub open spec fn builtin_bootstrap() -> Seq<Seq<char>> {
    seq!["radius"@, "s2"@]
}

/// `v` with `lit` appended.
fn push_name(v: &mut Vec<String>, lit: &str)
    ensures
        names(final(v)@) == names(old(v)@).push(lit@),
{
    v.push(lit.to_owned());
    assert(names(v@) =~= names(old(v)@).push(lit@));
}

/// The installed clustering plugins: none in a build without plugin support.
pub fn clustering_plugins() -> (r: Vec<String>)
    ensures
        r@.len() == 0,
{
    Vec::new()
}

/// The installed routing plugins: none in a build without plugin support.
pub fn routing_plugins() -> (r: Vec<String>)
    ensures
        r@.len() == 0,
{
    Vec::new()
}

/// The plugin names followed by the built-in clustering modes.
pub fn clustering_options_with(plugins: Vec<String>) -> (r: Vec<String>)
    ensures
        names(r@) == names(plugins@) + builtin_clustering(),
{
    let mut options = plugins;
    push_name(&mut options, "honeycomb");
    push_name(&mut options, "fastest");
    push_name(&mut options, "balanced");
    push_name(&mut options, "fast");
    push_name(&mut options, "better");
    push_name(&mut options, "best");
    assert(names(options@) =~= names(plugins@) + builtin_clustering());
    options
}

/// The plugin names followed by the built-in routing sorts.
pub fn routing_options_with(plugins: Vec<String>) -> (r: Vec<String>)
    ensures
        names(r@) == names(plugins@) + builtin_routing(),
{
    let mut options = plugins;
    push_name(&mut options, "point_count");
    push_name(&mut options, "latlon");
    push_name(&mut options, "geohash");
    push_name(&mut options, "s2");
    push_name(&mut options, "tsp");
    push_name(&mut options, "tsphybrid");
    push_name(&mut options, "random");
    assert(names(options@) =~= names(plugins@) + builtin_routing());
    options
}

/// Every selectable clustering mode: the installed plugins, then the built-ins.
pub fn all_clustering_options() -> (r: Vec<String>)
    ensures
        names(r@) == builtin_clustering(),
{
    let plugins = clustering_plugins();
    assert(names(plugins@) =~= Seq::<Seq<char>>::empty());
    let r = clustering_options_with(plugins);
    assert(names(r@) =~= builtin_clustering());
    r
}

/// Every selectable routing sort: the installed plugins, then the built-ins.
pub fn all_routing_options() -> (r: Vec<String>)
    ensures
        names(r@) == builtin_routing(),
{
    let plugins = routing_plugins();
    assert(names(plugins@) =~= Seq::<Seq<char>>::empty());
    let r = routing_options_with(plugins);
    assert(names(r@) =~= builtin_routing());
    r
}

/// Every selectable bootstrap mode: the installed plugins `plugins`, then
/// the built-ins.
pub fn all_bootstrap_options(plugins: Vec<String>) -> (r: Vec<String>)
    ensures
        names(r@) == names(plugins@) + builtin_bootstrap(),
{
    let mut options = plugins;
    push_name(&mut options, "radius");
    push_name(&mut options, "s2");
    assert(names(options@) =~= names(plugins@) + builtin_bootstrap());
    options
}

} // verus!
