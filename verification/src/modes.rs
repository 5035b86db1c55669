//! String-keyed algorithm selectors: clustering calculation modes, cluster
//! modes and route sort orders. Each variant has a canonical name (and, for
//! some, accepted aliases); every other name parses to `Custom`, which carries
//! the name verbatim (a plugin name).

use vstd::prelude::*;

verus! {

/// Whether `s` equals the literal `lit`, character for character.
fn str_is(s: &str, lit: &str) -> (r: bool)
    ensures
        r == (s@ == lit@),
{
    let a: String = s.to_owned();
    let b: String = lit.to_owned();
    a == b
}

/// The calculation mode names are pairwise distinct.
proof fn lemma_calculation_mode_names()
    ensures
        "radius"@ != "s2"@,
{
    reveal_strlit("radius");
    reveal_strlit("s2");
    assert("radius"@.len() == 6);
    assert("s2"@.len() == 2);
}

/// The cluster mode names are pairwise distinct.
proof fn lemma_cluster_mode_names()
    ensures
        "honeycomb"@ != "fastest"@,
        "honeycomb"@ != "fast"@,
        "honeycomb"@ != "balanced"@,
        "honeycomb"@ != "better"@,
        "honeycomb"@ != "best"@,
        "fastest"@ != "fast"@,
        "fastest"@ != "balanced"@,
        "fastest"@ != "better"@,
        "fastest"@ != "best"@,
        "fast"@ != "balanced"@,
        "fast"@ != "better"@,
        "fast"@ != "best"@,
        "balanced"@ != "better"@,
        "balanced"@ != "best"@,
        "better"@ != "best"@,
{
    reveal_strlit("honeycomb");
    reveal_strlit("fastest");
    reveal_strlit("fast");
    reveal_strlit("balanced");
    reveal_strlit("better");
    reveal_strlit("best");
    assert("honeycomb"@.len() == 9);
    assert("fastest"@.len() == 7);
    assert("fast"@.len() == 4);
    assert("balanced"@.len() == 8);
    assert("better"@.len() == 6);
    assert("best"@.len() == 4);
    assert("fast"@[0] == 'f' && "best"@[0] == 'b');
}

/// The sort order names and aliases are pairwise distinct.
proof fn lemma_sort_by_names()
    ensures
        "unset"@ != ""@,
        "unset"@ != "none"@,
        "unset"@ != "geohash"@,
        "unset"@ != "pointcount"@,
        "unset"@ != "cluster_count"@,
        "unset"@ != "point_count"@,
        "unset"@ != "clustercount"@,
        "unset"@ != "random"@,
        "unset"@ != "s2cell"@,
        "unset"@ != "s2"@,
        "unset"@ != "latlon"@,
        "unset"@ != "tsp"@,
        "unset"@ != "optimized"@,
        "unset"@ != "2opt"@,
        "unset"@ != "tsphybrid"@,
        "unset"@ != "hybrid"@,
        ""@ != "none"@,
        ""@ != "geohash"@,
        ""@ != "pointcount"@,
        ""@ != "cluster_count"@,
        ""@ != "point_count"@,
        ""@ != "clustercount"@,
        ""@ != "random"@,
        ""@ != "s2cell"@,
        ""@ != "s2"@,
        ""@ != "latlon"@,
        ""@ != "tsp"@,
        ""@ != "optimized"@,
        ""@ != "2opt"@,
        ""@ != "tsphybrid"@,
        ""@ != "hybrid"@,
        "none"@ != "geohash"@,
        "none"@ != "pointcount"@,
        "none"@ != "cluster_count"@,
        "none"@ != "point_count"@,
        "none"@ != "clustercount"@,
        "none"@ != "random"@,
        "none"@ != "s2cell"@,
        "none"@ != "s2"@,
        "none"@ != "latlon"@,
        "none"@ != "tsp"@,
        "none"@ != "optimized"@,
        "none"@ != "2opt"@,
        "none"@ != "tsphybrid"@,
        "none"@ != "hybrid"@,
        "geohash"@ != "pointcount"@,
        "geohash"@ != "cluster_count"@,
        "geohash"@ != "point_count"@,
        "geohash"@ != "clustercount"@,
        "geohash"@ != "random"@,
        "geohash"@ != "s2cell"@,
        "geohash"@ != "s2"@,
        "geohash"@ != "latlon"@,
        "geohash"@ != "tsp"@,
        "geohash"@ != "optimized"@,
        "geohash"@ != "2opt"@,
        "geohash"@ != "tsphybrid"@,
        "geohash"@ != "hybrid"@,
        "pointcount"@ != "cluster_count"@,
        "pointcount"@ != "point_count"@,
        "pointcount"@ != "clustercount"@,
        "pointcount"@ != "random"@,
        "pointcount"@ != "s2cell"@,
        "pointcount"@ != "s2"@,
        "pointcount"@ != "latlon"@,
        "pointcount"@ != "tsp"@,
        "pointcount"@ != "optimized"@,
        "pointcount"@ != "2opt"@,
        "pointcount"@ != "tsphybrid"@,
        "pointcount"@ != "hybrid"@,
        "cluster_count"@ != "point_count"@,
        "cluster_count"@ != "clustercount"@,
        "cluster_count"@ != "random"@,
        "cluster_count"@ != "s2cell"@,
        "cluster_count"@ != "s2"@,
        "cluster_count"@ != "latlon"@,
        "cluster_count"@ != "tsp"@,
        "cluster_count"@ != "optimized"@,
        "cluster_count"@ != "2opt"@,
        "cluster_count"@ != "tsphybrid"@,
        "cluster_count"@ != "hybrid"@,
        "point_count"@ != "clustercount"@,
        "point_count"@ != "random"@,
        "point_count"@ != "s2cell"@,
        "point_count"@ != "s2"@,
        "point_count"@ != "latlon"@,
        "point_count"@ != "tsp"@,
        "point_count"@ != "optimized"@,
        "point_count"@ != "2opt"@,
        "point_count"@ != "tsphybrid"@,
        "point_count"@ != "hybrid"@,
        "clustercount"@ != "random"@,
        "clustercount"@ != "s2cell"@,
        "clustercount"@ != "s2"@,
        "clustercount"@ != "latlon"@,
        "clustercount"@ != "tsp"@,
        "clustercount"@ != "optimized"@,
        "clustercount"@ != "2opt"@,
        "clustercount"@ != "tsphybrid"@,
        "clustercount"@ != "hybrid"@,
        "random"@ != "s2cell"@,
        "random"@ != "s2"@,
        "random"@ != "latlon"@,
        "random"@ != "tsp"@,
        "random"@ != "optimized"@,
        "random"@ != "2opt"@,
        "random"@ != "tsphybrid"@,
        "random"@ != "hybrid"@,
        "s2cell"@ != "s2"@,
        "s2cell"@ != "latlon"@,
        "s2cell"@ != "tsp"@,
        "s2cell"@ != "optimized"@,
        "s2cell"@ != "2opt"@,
        "s2cell"@ != "tsphybrid"@,
        "s2cell"@ != "hybrid"@,
        "s2"@ != "latlon"@,
        "s2"@ != "tsp"@,
        "s2"@ != "optimized"@,
        "s2"@ != "2opt"@,
        "s2"@ != "tsphybrid"@,
        "s2"@ != "hybrid"@,
        "latlon"@ != "tsp"@,
        "latlon"@ != "optimized"@,
        "latlon"@ != "2opt"@,
        "latlon"@ != "tsphybrid"@,
        "latlon"@ != "hybrid"@,
        "tsp"@ != "optimized"@,
        "tsp"@ != "2opt"@,
        "tsp"@ != "tsphybrid"@,
        "tsp"@ != "hybrid"@,
        "optimized"@ != "2opt"@,
        "optimized"@ != "tsphybrid"@,
        "optimized"@ != "hybrid"@,
        "2opt"@ != "tsphybrid"@,
        "2opt"@ != "hybrid"@,
        "tsphybrid"@ != "hybrid"@,
{
    reveal_strlit("unset");
    reveal_strlit("");
    reveal_strlit("none");
    reveal_strlit("geohash");
    reveal_strlit("pointcount");
    reveal_strlit("cluster_count");
    reveal_strlit("point_count");
    reveal_strlit("clustercount");
    reveal_strlit("random");
    reveal_strlit("s2cell");
    reveal_strlit("s2");
    reveal_strlit("latlon");
    reveal_strlit("tsp");
    reveal_strlit("optimized");
    reveal_strlit("2opt");
    reveal_strlit("tsphybrid");
    reveal_strlit("hybrid");
    assert("unset"@.len() == 5);
    assert(""@.len() == 0);
    assert("none"@.len() == 4);
    assert("geohash"@.len() == 7);
    assert("pointcount"@.len() == 10);
    assert("cluster_count"@.len() == 13);
    assert("point_count"@.len() == 11);
    assert("clustercount"@.len() == 12);
    assert("random"@.len() == 6);
    assert("s2cell"@.len() == 6);
    assert("s2"@.len() == 2);
    assert("latlon"@.len() == 6);
    assert("tsp"@.len() == 3);
    assert("optimized"@.len() == 9);
    assert("2opt"@.len() == 4);
    assert("tsphybrid"@.len() == 9);
    assert("hybrid"@.len() == 6);
    assert("none"@[0] == 'n' && "2opt"@[0] == '2');
    assert("random"@[0] == 'r' && "s2cell"@[0] == 's');
    assert("random"@[0] == 'r' && "latlon"@[0] == 'l');
    assert("random"@[0] == 'r' && "hybrid"@[0] == 'h');
    assert("s2cell"@[0] == 's' && "latlon"@[0] == 'l');
    assert("s2cell"@[0] == 's' && "hybrid"@[0] == 'h');
    assert("latlon"@[0] == 'l' && "hybrid"@[0] == 'h');
    assert("optimized"@[0] == 'o' && "tsphybrid"@[0] == 't');
}

// ---------------------------------------------------------------------------
// CalculationMode
// ---------------------------------------------------------------------------

/// How cluster centers are computed: free radius disks or S2 cells.
#[derive(Debug, Clone, PartialEq, Eq)]
pub enum CalculationMode {
    Radius,
    S2,
    Custom(String),
}

/// Mathematical value of a [`CalculationMode`]: the custom name as characters.
pub enum CalculationModeView {
    Radius,
    S2,
    Custom(Seq<char>),
}

impl View for CalculationMode {
    type V = CalculationModeView;

    open spec fn view(&self) -> CalculationModeView {
        match self {
            CalculationMode::Radius => CalculationModeView::Radius,
            CalculationMode::S2 => CalculationModeView::S2,
            CalculationMode::Custom(s) => CalculationModeView::Custom(s@),
        }
    }
}

/// The mode a name denotes.
pub open spec fn parse_calculation_mode(s: Seq<char>) -> CalculationModeView {
    if s == "radius"@ {
        CalculationModeView::Radius
    } else if s == "s2"@ {
        CalculationModeView::S2
    } else {
        CalculationModeView::Custom(s)
    }
}

/// The canonical name of a mode.
pub open spec fn calculation_mode_name(m: CalculationModeView) -> Seq<char> {
    match m {
        CalculationModeView::Radius => "radius"@,
        CalculationModeView::S2 => "s2"@,
        CalculationModeView::Custom(s) => s,
    }
}

/// Every name parses to the calculation mode it names, every other name to
/// `Custom` carrying the name.
pub proof fn lemma_calculation_mode_aliases(s: Seq<char>)
    ensures
        (parse_calculation_mode(s) is Radius) <==> s == "radius"@,
        (parse_calculation_mode(s) is S2) <==> s == "s2"@,
        parse_calculation_mode(s) is Custom ==> parse_calculation_mode(s) == CalculationModeView::Custom(s),
{
    lemma_calculation_mode_names();
}

impl CalculationMode {
    /// Parses a mode name. Every string parses: unknown names become `Custom`.
    pub fn from_str_opt(s: &str) -> (r: Option<CalculationMode>)
        ensures
            r is Some,
            r.unwrap()@ == parse_calculation_mode(s@),
            (r.unwrap()@ is Radius) <==> s@ == "radius"@,
            (r.unwrap()@ is S2) <==> s@ == "s2"@,
            r.unwrap()@ is Custom ==> r.unwrap()@ == CalculationModeView::Custom(s@),
    {
        proof {
            lemma_calculation_mode_aliases(s@);
        }
        if str_is(s, "radius") {
            Some(CalculationMode::Radius)
        } else if str_is(s, "s2") {
            Some(CalculationMode::S2)
        } else {
            Some(CalculationMode::Custom(s.to_owned()))
        }
    }

    /// The canonical name (the custom name itself for `Custom`).
    pub fn to_string(&self) -> (r: String)
        ensures
            r@ == calculation_mode_name(self@),
    {
        match self {
            CalculationMode::Radius => "radius".to_owned(),
            CalculationMode::S2 => "s2".to_owned(),
            CalculationMode::Custom(s) => s.clone(),
        }
    }
}

// ---------------------------------------------------------------------------
// ClusterMode
// ---------------------------------------------------------------------------

/// Which clustering algorithm runs.
#[derive(Debug, Clone, PartialEq, Eq)]
pub enum ClusterMode {
    Honeycomb,
    Fastest,
    Fast,
    Balanced,
    Better,
    Best,
    Custom(String),
}

/// Mathematical value of a [`ClusterMode`].
pub enum ClusterModeView {
    Honeycomb,
    Fastest,
    Fast,
    Balanced,
    Better,
    Best,
    Custom(Seq<char>),
}

impl View for ClusterMode {
    type V = ClusterModeView;

    open spec fn view(&self) -> ClusterModeView {
        match self {
            ClusterMode::Honeycomb => ClusterModeView::Honeycomb,
            ClusterMode::Fastest => ClusterModeView::Fastest,
            ClusterMode::Fast => ClusterModeView::Fast,
            ClusterMode::Balanced => ClusterModeView::Balanced,
            ClusterMode::Better => ClusterModeView::Better,
            ClusterMode::Best => ClusterModeView::Best,
            ClusterMode::Custom(s) => ClusterModeView::Custom(s@),
        }
    }
}

/// The cluster mode a name denotes.
pub open spec fn parse_cluster_mode(s: Seq<char>) -> ClusterModeView {
    if s == "honeycomb"@ {
        ClusterModeView::Honeycomb
    } else if s == "fastest"@ {
        ClusterModeView::Fastest
    } else if s == "fast"@ {
        ClusterModeView::Fast
    } else if s == "balanced"@ {
        ClusterModeView::Balanced
    } else if s == "better"@ {
        ClusterModeView::Better
    } else if s == "best"@ {
        ClusterModeView::Best
    } else {
        ClusterModeView::Custom(s)
    }
}

/// The canonical name of a cluster mode.
pub open spec fn cluster_mode_name(m: ClusterModeView) -> Seq<char> {
    match m {
        ClusterModeView::Honeycomb => "honeycomb"@,
        ClusterModeView::Fastest => "fastest"@,
        ClusterModeView::Fast => "fast"@,
        ClusterModeView::Balanced => "balanced"@,
        ClusterModeView::Better => "better"@,
        ClusterModeView::Best => "best"@,
        ClusterModeView::Custom(s) => s,
    }
}

/// Every name parses to the cluster mode it names, every other name to
/// `Custom` carrying the name.
pub proof fn lemma_cluster_mode_aliases(s: Seq<char>)
    ensures
        (parse_cluster_mode(s) is Honeycomb) <==> s == "honeycomb"@,
        (parse_cluster_mode(s) is Fastest) <==> s == "fastest"@,
        (parse_cluster_mode(s) is Fast) <==> s == "fast"@,
        (parse_cluster_mode(s) is Balanced) <==> s == "balanced"@,
        (parse_cluster_mode(s) is Better) <==> s == "better"@,
        (parse_cluster_mode(s) is Best) <==> s == "best"@,
        parse_cluster_mode(s) is Custom ==> parse_cluster_mode(s) == ClusterModeView::Custom(s),
{
    lemma_cluster_mode_names();
}

impl ClusterMode {
    /// Parses a cluster mode name. Every string parses: unknown names become `Custom`.
    pub fn from_str_opt(s: &str) -> (r: Option<ClusterMode>)
        ensures
            r is Some,
            r.unwrap()@ == parse_cluster_mode(s@),
            (r.unwrap()@ is Honeycomb) <==> s@ == "honeycomb"@,
            (r.unwrap()@ is Fastest) <==> s@ == "fastest"@,
            (r.unwrap()@ is Fast) <==> s@ == "fast"@,
            (r.unwrap()@ is Balanced) <==> s@ == "balanced"@,
            (r.unwrap()@ is Better) <==> s@ == "better"@,
            (r.unwrap()@ is Best) <==> s@ == "best"@,
            r.unwrap()@ is Custom ==> r.unwrap()@ == ClusterModeView::Custom(s@),
    {
        proof {
            lemma_cluster_mode_aliases(s@);
        }
        if str_is(s, "honeycomb") {
            Some(ClusterMode::Honeycomb)
        } else if str_is(s, "fastest") {
            Some(ClusterMode::Fastest)
        } else if str_is(s, "fast") {
            Some(ClusterMode::Fast)
        } else if str_is(s, "balanced") {
            Some(ClusterMode::Balanced)
        } else if str_is(s, "better") {
            Some(ClusterMode::Better)
        } else if str_is(s, "best") {
            Some(ClusterMode::Best)
        } else {
            Some(ClusterMode::Custom(s.to_owned()))
        }
    }

    /// The canonical name (the custom name itself for `Custom`).
    pub fn to_string(&self) -> (r: String)
        ensures
            r@ == cluster_mode_name(self@),
    {
        match self {
            ClusterMode::Honeycomb => "honeycomb".to_owned(),
            ClusterMode::Fastest => "fastest".to_owned(),
            ClusterMode::Fast => "fast".to_owned(),
            ClusterMode::Balanced => "balanced".to_owned(),
            ClusterMode::Better => "better".to_owned(),
            ClusterMode::Best => "best".to_owned(),
            ClusterMode::Custom(s) => s.clone(),
        }
    }
}

// ---------------------------------------------------------------------------
// SortBy
// ---------------------------------------------------------------------------

/// The order in which cluster centers are visited by a route.
#[derive(Debug, Clone, PartialEq, Eq)]
pub enum SortBy {
    Unset,
    GeoHash,
    PointCount,
    Random,
    S2Cell,
    LatLon,
    Tsp,
    TspHybrid,
    Custom(String),
}

/// Mathematical value of a [`SortBy`].
pub enum SortByView {
    Unset,
    GeoHash,
    PointCount,
    Random,
    S2Cell,
    LatLon,
    Tsp,
    TspHybrid,
    Custom(Seq<char>),
}

impl View for SortBy {
    type V = SortByView;

    open spec fn view(&self) -> SortByView {
        match self {
            SortBy::Unset => SortByView::Unset,
            SortBy::GeoHash => SortByView::GeoHash,
            SortBy::PointCount => SortByView::PointCount,
            SortBy::Random => SortByView::Random,
            SortBy::S2Cell => SortByView::S2Cell,
            SortBy::LatLon => SortByView::LatLon,
            SortBy::Tsp => SortByView::Tsp,
            SortBy::TspHybrid => SortByView::TspHybrid,
            SortBy::Custom(s) => SortByView::Custom(s@),
        }
    }
}

/// The sort order a name denotes, aliases included.
pub open spec fn parse_sort_by(s: Seq<char>) -> SortByView {
    if s == "unset"@ || s == ""@ || s == "none"@ {
        SortByView::Unset
    } else if s == "geohash"@ {
        SortByView::GeoHash
    } else if s == "pointcount"@ || s == "cluster_count"@ || s == "point_count"@ || s
        == "clustercount"@ {
        SortByView::PointCount
    } else if s == "random"@ {
        SortByView::Random
    } else if s == "s2cell"@ || s == "s2"@ {
        SortByView::S2Cell
    } else if s == "latlon"@ {
        SortByView::LatLon
    } else if s == "tsp"@ || s == "optimized"@ || s == "2opt"@ {
        SortByView::Tsp
    } else if s == "tsphybrid"@ || s == "hybrid"@ {
        SortByView::TspHybrid
    } else {
        SortByView::Custom(s)
    }
}

/// The canonical name of a sort order.
pub open spec fn sort_by_name(m: SortByView) -> Seq<char> {
    match m {
        SortByView::Unset => "unset"@,
        SortByView::GeoHash => "geohash"@,
        SortByView::PointCount => "pointcount"@,
        SortByView::Random => "random"@,
        SortByView::S2Cell => "s2cell"@,
        SortByView::LatLon => "latlon"@,
        SortByView::Tsp => "tsp"@,
        SortByView::TspHybrid => "tsphybrid"@,
        SortByView::Custom(s) => s,
    }
}

/// Every name parses to the sort order it names: each canonical name and
/// alias to its own order, every other name to `Custom` carrying the name.
pub proof fn lemma_sort_by_aliases(s: Seq<char>)
    ensures
        (parse_sort_by(s) is Unset) <==> (s == "unset"@ || s == ""@ || s == "none"@),
        (parse_sort_by(s) is GeoHash) <==> s == "geohash"@,
        (parse_sort_by(s) is PointCount) <==> (s == "pointcount"@ || s == "cluster_count"@ || s == "point_count"@
            || s == "clustercount"@),
        (parse_sort_by(s) is Random) <==> s == "random"@,
        (parse_sort_by(s) is S2Cell) <==> (s == "s2cell"@ || s == "s2"@),
        (parse_sort_by(s) is LatLon) <==> s == "latlon"@,
        (parse_sort_by(s) is Tsp) <==> (s == "tsp"@ || s == "optimized"@ || s == "2opt"@),
        (parse_sort_by(s) is TspHybrid) <==> (s == "tsphybrid"@ || s == "hybrid"@),
        parse_sort_by(s) is Custom ==> parse_sort_by(s) == SortByView::Custom(s),
{
    lemma_sort_by_names();
}

impl SortBy {
    /// Parses a sort order name or alias. Every string parses: unknown names
    /// become `Custom`.
    pub fn from_str_opt(s: &str) -> (r: Option<SortBy>)
        ensures
            r is Some,
            r.unwrap()@ == parse_sort_by(s@),
            (r.unwrap()@ is Unset) <==> (s@ == "unset"@ || s@ == ""@ || s@ == "none"@),
            (r.unwrap()@ is GeoHash) <==> s@ == "geohash"@,
            (r.unwrap()@ is PointCount) <==> (s@ == "pointcount"@ || s@ == "cluster_count"@ || s@ == "point_count"@
                || s@ == "clustercount"@),
            (r.unwrap()@ is Random) <==> s@ == "random"@,
            (r.unwrap()@ is S2Cell) <==> (s@ == "s2cell"@ || s@ == "s2"@),
            (r.unwrap()@ is LatLon) <==> s@ == "latlon"@,
            (r.unwrap()@ is Tsp) <==> (s@ == "tsp"@ || s@ == "optimized"@ || s@ == "2opt"@),
            (r.unwrap()@ is TspHybrid) <==> (s@ == "tsphybrid"@ || s@ == "hybrid"@),
            r.unwrap()@ is Custom ==> r.unwrap()@ == SortByView::Custom(s@),
    {
        proof {
            lemma_sort_by_aliases(s@);
        }
        if str_is(s, "unset") || str_is(s, "") || str_is(s, "none") {
            Some(SortBy::Unset)
        } else if str_is(s, "geohash") {
            Some(SortBy::GeoHash)
        } else if str_is(s, "pointcount") || str_is(s, "cluster_count") || str_is(s, "point_count")
            || str_is(s, "clustercount") {
            Some(SortBy::PointCount)
        } else if str_is(s, "random") {
            Some(SortBy::Random)
        } else if str_is(s, "s2cell") || str_is(s, "s2") {
            Some(SortBy::S2Cell)
        } else if str_is(s, "latlon") {
            Some(SortBy::LatLon)
        } else if str_is(s, "tsp") || str_is(s, "optimized") || str_is(s, "2opt") {
            Some(SortBy::Tsp)
        } else if str_is(s, "tsphybrid") || str_is(s, "hybrid") {
            Some(SortBy::TspHybrid)
        } else {
            Some(SortBy::Custom(s.to_owned()))
        }
    }

    /// The canonical name (the custom name itself for `Custom`).
    pub fn to_string(&self) -> (r: String)
        ensures
            r@ == sort_by_name(self@),
    {
        match self {
            SortBy::Unset => "unset".to_owned(),
            SortBy::GeoHash => "geohash".to_owned(),
            SortBy::PointCount => "pointcount".to_owned(),
            SortBy::Random => "random".to_owned(),
            SortBy::S2Cell => "s2cell".to_owned(),
            SortBy::LatLon => "latlon".to_owned(),
            SortBy::Tsp => "tsp".to_owned(),
            SortBy::TspHybrid => "tsphybrid".to_owned(),
            SortBy::Custom(s) => s.clone(),
        }
    }
}

/// A route request without an explicit order defaults to the TSP solver; any
/// other request keeps the order it asked for.
pub fn effective_sort(is_route: bool, sort_by: SortBy) -> (r: SortBy)
    ensures
        r@ == (if is_route && sort_by@ is Unset {
            SortByView::Tsp
        } else {
            sort_by@
        }),
{
    match sort_by {
        SortBy::Unset if is_route => SortBy::Tsp,
        other => other,
    }
}

/// The names a calculation mode reads as built in.
pub open spec fn reserved_calculation_name(s: Seq<char>) -> bool {
    s == "radius"@ || s == "s2"@
}

/// The names (and aliases) a cluster mode reads as built in.
pub open spec fn reserved_cluster_name(s: Seq<char>) -> bool {
    s == "honeycomb"@ || s == "fastest"@ || s == "fast"@ || s == "balanced"@ || s == "better"@ || s
        == "best"@
}

/// The names (and aliases) a sort order reads as built in.
pub open spec fn reserved_sort_name(s: Seq<char>) -> bool {
    ||| s == "unset"@ || s == ""@ || s == "none"@
    ||| s == "geohash"@
    ||| s == "pointcount"@ || s == "cluster_count"@ || s == "point_count"@ || s == "clustercount"@
    ||| s == "random"@
    ||| s == "s2cell"@ || s == "s2"@
    ||| s == "latlon"@
    ||| s == "tsp"@ || s == "optimized"@ || s == "2opt"@
    ||| s == "tsphybrid"@ || s == "hybrid"@
}

/// Reading back a calculation mode's name gives the mode again (a custom
/// name that is not a built-in name included).
pub proof fn lemma_calculation_mode_round_trip(m: CalculationModeView)
    requires
        m matches CalculationModeView::Custom(s) ==> !reserved_calculation_name(s),
    ensures
        parse_calculation_mode(calculation_mode_name(m)) == m,
{
    reveal_strlit("radius");
    reveal_strlit("s2");
    assert("s2"@.len() != "radius"@.len());
    match m {
        CalculationModeView::S2 => {
            assert("s2"@ != "radius"@);
        },
        _ => {},
    }
}

/// Reading back a cluster mode's name gives the mode again (a custom name
/// that is not a built-in name included).
pub proof fn lemma_cluster_mode_round_trip(m: ClusterModeView)
    requires
        m matches ClusterModeView::Custom(s) ==> !reserved_cluster_name(s),
    ensures
        parse_cluster_mode(cluster_mode_name(m)) == m,
{
    reveal_strlit("honeycomb");
    reveal_strlit("fastest");
    reveal_strlit("fast");
    reveal_strlit("balanced");
    reveal_strlit("better");
    reveal_strlit("best");
    match m {
        ClusterModeView::Fastest => {
            assert("fastest"@.len() != "honeycomb"@.len());
            assert("fastest"@ != "honeycomb"@);
        },
        ClusterModeView::Fast => {
            assert("fast"@.len() != "honeycomb"@.len());
            assert("fast"@ != "honeycomb"@);
            assert("fast"@.len() != "fastest"@.len());
            assert("fast"@ != "fastest"@);
        },
        ClusterModeView::Balanced => {
            assert("balanced"@.len() != "honeycomb"@.len());
            assert("balanced"@ != "honeycomb"@);
            assert("balanced"@.len() != "fastest"@.len());
            assert("balanced"@ != "fastest"@);
            assert("balanced"@.len() != "fast"@.len());
            assert("balanced"@ != "fast"@);
        },
        ClusterModeView::Better => {
            assert("better"@.len() != "honeycomb"@.len());
            assert("better"@ != "honeycomb"@);
            assert("better"@.len() != "fastest"@.len());
            assert("better"@ != "fastest"@);
            assert("better"@.len() != "fast"@.len());
            assert("better"@ != "fast"@);
            assert("better"@.len() != "balanced"@.len());
            assert("better"@ != "balanced"@);
        },
        ClusterModeView::Best => {
            assert("best"@.len() != "honeycomb"@.len());
            assert("best"@ != "honeycomb"@);
            assert("best"@.len() != "fastest"@.len());
            assert("best"@ != "fastest"@);
            assert("best"@[0] != "fast"@[0]);
            assert("best"@ != "fast"@);
            assert("best"@.len() != "balanced"@.len());
            assert("best"@ != "balanced"@);
            assert("best"@.len() != "better"@.len());
            assert("best"@ != "better"@);
        },
        _ => {},
    }
}

/// Reading back a sort order's name gives the order again (a custom name
/// that is neither a built-in name nor an alias included).
pub proof fn lemma_sort_by_round_trip(m: SortByView)
    requires
        m matches SortByView::Custom(s) ==> !reserved_sort_name(s),
    ensures
        parse_sort_by(sort_by_name(m)) == m,
{
    reveal_strlit("unset");
    reveal_strlit("");
    reveal_strlit("none");
    reveal_strlit("geohash");
    reveal_strlit("pointcount");
    reveal_strlit("cluster_count");
    reveal_strlit("point_count");
    reveal_strlit("clustercount");
    reveal_strlit("random");
    reveal_strlit("s2cell");
    reveal_strlit("s2");
    reveal_strlit("latlon");
    reveal_strlit("tsp");
    reveal_strlit("optimized");
    reveal_strlit("2opt");
    reveal_strlit("tsphybrid");
    reveal_strlit("hybrid");
    match m {
        SortByView::GeoHash => {
            assert("geohash"@.len() != "unset"@.len());
            assert("geohash"@ != "unset"@);
            assert("geohash"@.len() != ""@.len());
            assert("geohash"@ != ""@);
            assert("geohash"@.len() != "none"@.len());
            assert("geohash"@ != "none"@);
        },
        SortByView::PointCount => {
            assert("pointcount"@.len() != "unset"@.len());
            assert("pointcount"@ != "unset"@);
            assert("pointcount"@.len() != ""@.len());
            assert("pointcount"@ != ""@);
            assert("pointcount"@.len() != "none"@.len());
            assert("pointcount"@ != "none"@);
            assert("pointcount"@.len() != "geohash"@.len());
            assert("pointcount"@ != "geohash"@);
        },
        SortByView::Random => {
            assert("random"@.len() != "unset"@.len());
            assert("random"@ != "unset"@);
            assert("random"@.len() != ""@.len());
            assert("random"@ != ""@);
            assert("random"@.len() != "none"@.len());
            assert("random"@ != "none"@);
            assert("random"@.len() != "geohash"@.len());
            assert("random"@ != "geohash"@);
            assert("random"@.len() != "pointcount"@.len());
            assert("random"@ != "pointcount"@);
            assert("random"@.len() != "cluster_count"@.len());
            assert("random"@ != "cluster_count"@);
            assert("random"@.len() != "point_count"@.len());
            assert("random"@ != "point_count"@);
            assert("random"@.len() != "clustercount"@.len());
            assert("random"@ != "clustercount"@);
        },
        SortByView::S2Cell => {
            assert("s2cell"@.len() != "unset"@.len());
            assert("s2cell"@ != "unset"@);
            assert("s2cell"@.len() != ""@.len());
            assert("s2cell"@ != ""@);
            assert("s2cell"@.len() != "none"@.len());
            assert("s2cell"@ != "none"@);
            assert("s2cell"@.len() != "geohash"@.len());
            assert("s2cell"@ != "geohash"@);
            assert("s2cell"@.len() != "pointcount"@.len());
            assert("s2cell"@ != "pointcount"@);
            assert("s2cell"@.len() != "cluster_count"@.len());
            assert("s2cell"@ != "cluster_count"@);
            assert("s2cell"@.len() != "point_count"@.len());
            assert("s2cell"@ != "point_count"@);
            assert("s2cell"@.len() != "clustercount"@.len());
            assert("s2cell"@ != "clustercount"@);
            assert("s2cell"@[0] != "random"@[0]);
            assert("s2cell"@ != "random"@);
        },
        SortByView::LatLon => {
            assert("latlon"@.len() != "unset"@.len());
            assert("latlon"@ != "unset"@);
            assert("latlon"@.len() != ""@.len());
            assert("latlon"@ != ""@);
            assert("latlon"@.len() != "none"@.len());
            assert("latlon"@ != "none"@);
            assert("latlon"@.len() != "geohash"@.len());
            assert("latlon"@ != "geohash"@);
            assert("latlon"@.len() != "pointcount"@.len());
            assert("latlon"@ != "pointcount"@);
            assert("latlon"@.len() != "cluster_count"@.len());
            assert("latlon"@ != "cluster_count"@);
            assert("latlon"@.len() != "point_count"@.len());
            assert("latlon"@ != "point_count"@);
            assert("latlon"@.len() != "clustercount"@.len());
            assert("latlon"@ != "clustercount"@);
            assert("latlon"@[0] != "random"@[0]);
            assert("latlon"@ != "random"@);
            assert("latlon"@[0] != "s2cell"@[0]);
            assert("latlon"@ != "s2cell"@);
            assert("latlon"@.len() != "s2"@.len());
            assert("latlon"@ != "s2"@);
        },
        SortByView::Tsp => {
            assert("tsp"@.len() != "unset"@.len());
            assert("tsp"@ != "unset"@);
            assert("tsp"@.len() != ""@.len());
            assert("tsp"@ != ""@);
            assert("tsp"@.len() != "none"@.len());
            assert("tsp"@ != "none"@);
            assert("tsp"@.len() != "geohash"@.len());
            assert("tsp"@ != "geohash"@);
            assert("tsp"@.len() != "pointcount"@.len());
            assert("tsp"@ != "pointcount"@);
            assert("tsp"@.len() != "cluster_count"@.len());
            assert("tsp"@ != "cluster_count"@);
            assert("tsp"@.len() != "point_count"@.len());
            assert("tsp"@ != "point_count"@);
            assert("tsp"@.len() != "clustercount"@.len());
            assert("tsp"@ != "clustercount"@);
            assert("tsp"@.len() != "random"@.len());
            assert("tsp"@ != "random"@);
            assert("tsp"@.len() != "s2cell"@.len());
            assert("tsp"@ != "s2cell"@);
            assert("tsp"@.len() != "s2"@.len());
            assert("tsp"@ != "s2"@);
            assert("tsp"@.len() != "latlon"@.len());
            assert("tsp"@ != "latlon"@);
        },
        SortByView::TspHybrid => {
            assert("tsphybrid"@.len() != "unset"@.len());
            assert("tsphybrid"@ != "unset"@);
            assert("tsphybrid"@.len() != ""@.len());
            assert("tsphybrid"@ != ""@);
            assert("tsphybrid"@.len() != "none"@.len());
            assert("tsphybrid"@ != "none"@);
            assert("tsphybrid"@.len() != "geohash"@.len());
            assert("tsphybrid"@ != "geohash"@);
            assert("tsphybrid"@.len() != "pointcount"@.len());
            assert("tsphybrid"@ != "pointcount"@);
            assert("tsphybrid"@.len() != "cluster_count"@.len());
            assert("tsphybrid"@ != "cluster_count"@);
            assert("tsphybrid"@.len() != "point_count"@.len());
            assert("tsphybrid"@ != "point_count"@);
            assert("tsphybrid"@.len() != "clustercount"@.len());
            assert("tsphybrid"@ != "clustercount"@);
            assert("tsphybrid"@.len() != "random"@.len());
            assert("tsphybrid"@ != "random"@);
            assert("tsphybrid"@.len() != "s2cell"@.len());
            assert("tsphybrid"@ != "s2cell"@);
            assert("tsphybrid"@.len() != "s2"@.len());
            assert("tsphybrid"@ != "s2"@);
            assert("tsphybrid"@.len() != "latlon"@.len());
            assert("tsphybrid"@ != "latlon"@);
            assert("tsphybrid"@.len() != "tsp"@.len());
            assert("tsphybrid"@ != "tsp"@);
            assert("tsphybrid"@[0] != "optimized"@[0]);
            assert("tsphybrid"@ != "optimized"@);
            assert("tsphybrid"@.len() != "2opt"@.len());
            assert("tsphybrid"@ != "2opt"@);
        },
        _ => {},
    }
}

/// Only route requests change their order, and only an unset one: applying
/// the default twice is the same as applying it once.
pub proof fn lemma_effective_sort_idempotent(is_route: bool, s: SortByView)
    ensures
        ({
            let once = if is_route && s is Unset {
                SortByView::Tsp
            } else {
                s
            };
            let twice = if is_route && once is Unset {
                SortByView::Tsp
            } else {
                once
            };
            twice == once && (!is_route ==> once == s)
        }),
{
}

} // verus!
