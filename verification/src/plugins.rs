//! Plugin arguments: the per-request arguments laid over a plugin's default
//! arguments.

use vstd::prelude::*;

verus! {

/// Plugin arguments as the merge reads them: null, an object of named
/// values, or any other value. Values are carried as their JSON text.
#[derive(Debug, PartialEq)]
pub enum PluginArgs {
    Null,
    Object(Vec<(String, String)>),
    Other(String),
}

/// What the merge sees of plugin arguments.
pub enum ArgsView {
    Null,
    Object(Seq<(Seq<char>, Seq<char>)>),
    Other(Seq<char>),
}

/// The entries of an object as key and value texts.
pub open spec fn entry_texts(e: Seq<(String, String)>) -> Seq<(Seq<char>, Seq<char>)> {
    e.map_values(|p: (String, String)| (p.0@, p.1@))
}

impl View for PluginArgs {
    type V = ArgsView;

    open spec fn view(&self) -> ArgsView {
        match self {
            PluginArgs::Null => ArgsView::Null,
            PluginArgs::Object(e) => ArgsView::Object(entry_texts(e@)),
            PluginArgs::Other(t) => ArgsView::Other(t@),
        }
    }
}

/// `m` with key `k` set to `v`: the first entry of that key takes the new
/// value in place, or the entry comes last when the key is new.
pub open spec fn put(m: Seq<(Seq<char>, Seq<char>)>, k: Seq<char>, v: Seq<char>) -> Seq<(Seq<char>, Seq<char>)>
    decreases m.len(),
{
    if m.len() == 0 {
        seq![(k, v)]
    } else if m[0].0 == k {
        m.update(0, (k, v))
    } else {
        seq![m[0]] + put(m.drop_first(), k, v)
    }
}

/// The entries of `d` with those of `r` set over them in order: keys of `r`
/// win.
pub open spec fn overlay(d: Seq<(Seq<char>, Seq<char>)>, r: Seq<(Seq<char>, Seq<char>)>) -> Seq<(Seq<char>, Seq<char>)>
    decreases r.len(),
{
    if r.len() == 0 {
        d
    } else {
        put(overlay(d, r.drop_last()), r.last().0, r.last().1)
    }
}

/// The merged arguments: the request's keys over the default's when both
/// are objects, the default when the request is null, and otherwise the
/// request.
pub open spec fn merged(default: Option<ArgsView>, request: ArgsView) -> ArgsView {
    match (default, request) {
        (Some(ArgsView::Object(d)), ArgsView::Object(r)) => ArgsView::Object(overlay(d, r)),
        (Some(d), ArgsView::Null) => d,
        _ => request,
    }
}

/// Setting a key whose first entry sits at `j` replaces that entry.
proof fn lemma_put_at(m: Seq<(Seq<char>, Seq<char>)>, k: Seq<char>, v: Seq<char>, j: int)
    requires
        0 <= j < m.len(),
        m[j].0 == k,
        forall|t: int| 0 <= t < j ==> (#[trigger] m[t]).0 != k,
    ensures
        put(m, k, v) == m.update(j, (k, v)),
    decreases m.len(),
{
    if j > 0 {
        let d = m.drop_first();
        assert forall|t: int| 0 <= t < j - 1 implies (#[trigger] d[t]).0 != k by {
            assert(d[t] == m[t + 1]);
        }
        lemma_put_at(d, k, v, j - 1);
        assert(seq![m[0]] + d.update(j - 1, (k, v)) =~= m.update(j, (k, v)));
    }
}

/// Setting a key no entry has appends it.
proof fn lemma_put_new(m: Seq<(Seq<char>, Seq<char>)>, k: Seq<char>, v: Seq<char>)
    requires
        forall|t: int| 0 <= t < m.len() ==> (#[trigger] m[t]).0 != k,
    ensures
        put(m, k, v) == m.push((k, v)),
    decreases m.len(),
{
    if m.len() > 0 {
        let d = m.drop_first();
        assert forall|t: int| 0 <= t < d.len() implies (#[trigger] d[t]).0 != k by {
            assert(d[t] == m[t + 1]);
        }
        lemma_put_new(d, k, v);
        assert(seq![m[0]] + d.push((k, v)) =~= m.push((k, v)));
    } else {
        assert(seq![(k, v)] =~= m.push((k, v)));
    }
}

/// Sets key `k` to `v` in the entries.
fn put_entry(m: &mut Vec<(String, String)>, k: &String, v: &String)
    ensures
        entry_texts(final(m)@) == put(entry_texts(old(m)@), k@, v@),
{
    let ghost e0 = entry_texts(m@);
    let mut j: usize = 0;
    while j < m.len()
        invariant
            j <= m.len(),
            e0 == entry_texts(m@),
            e0 == entry_texts(old(m)@),
            forall|t: int| 0 <= t < j ==> (#[trigger] e0[t]).0 != k@,
        decreases m.len() - j,
    {
        if m[j].0 == *k {
            proof {
                lemma_put_at(e0, k@, v@, j as int);
            }
            m.set(j, (k.clone(), v.clone()));
            assert(entry_texts(m@) =~= e0.update(j as int, (k@, v@)));
            return;
        }
        j = j + 1;
    }
    proof {
        lemma_put_new(e0, k@, v@);
    }
    m.push((k.clone(), v.clone()));
    assert(entry_texts(m@) =~= e0.push((k@, v@)));
}

/// A copy of the entries.
fn copy_entries(e: &Vec<(String, String)>) -> (r: Vec<(String, String)>)
    ensures
        entry_texts(r@) == entry_texts(e@),
{
    let mut r: Vec<(String, String)> = Vec::new();
    let mut i: usize = 0;
    while i < e.len()
        invariant
            i <= e.len(),
            r.len() == i,
            entry_texts(r@) == entry_texts(e@).take(i as int),
        decreases e.len() - i,
    {
        let a = e[i].0.clone();
        let b = e[i].1.clone();
        let ghost r0 = r@;
        r.push((a, b));
        proof {
            assert(r@ == r0.push((a, b)));
            assert(entry_texts(e@)[i as int] == (e@[i as int].0@, e@[i as int].1@));
            assert(entry_texts(r@)[i as int] == (a@, b@));
            assert forall|t: int| 0 <= t < i implies entry_texts(r@)[t] == entry_texts(r0)[t] by {
                assert(r@[t] == r0[t]);
            }
        }
        assert(entry_texts(r@) =~= entry_texts(e@).take(i + 1));
        i = i + 1;
    }
    assert(entry_texts(e@).take(e.len() as int) =~= entry_texts(e@));
    r
}

impl PluginArgs {
    /// A copy of the arguments.
    pub fn copy(&self) -> (r: PluginArgs)
        ensures
            r@ == self@,
    {
        match self {
            PluginArgs::Null => PluginArgs::Null,
            PluginArgs::Object(e) => PluginArgs::Object(copy_entries(e)),
            PluginArgs::Other(t) => PluginArgs::Other(t.clone()),
        }
    }
}

/// Lays the request's arguments over the plugin's defaults: when both are
/// objects, the default's entries with each of the request's keys set over
/// them (request keys win); a null request takes the default as it is; a
/// request that is not an object, or no default, leaves the request as it
/// is.
pub fn merge_args(default: Option<&PluginArgs>, request: PluginArgs) -> (r: PluginArgs)
    ensures
        r@ == merged(
            match default {
                Some(d) => Some(d@),
                None => None,
            },
            request@,
        ),
{
    match (default, &request) {
        (Some(PluginArgs::Object(d)), PluginArgs::Object(req)) => {
            let mut out = copy_entries(d);
            let mut i: usize = 0;
            while i < req.len()
                invariant
                    i <= req.len(),
                    entry_texts(out@) == overlay(entry_texts(d@), entry_texts(req@).take(i as int)),
                decreases req.len() - i,
            {
                let ghost before = entry_texts(out@);
                put_entry(&mut out, &req[i].0, &req[i].1);
                proof {
                    let t = entry_texts(req@).take(i + 1);
                    assert(t.drop_last() =~= entry_texts(req@).take(i as int));
                    assert(t.last() == (req@[i as int].0@, req@[i as int].1@));
                }
                i = i + 1;
            }
            assert(entry_texts(req@).take(req.len() as int) =~= entry_texts(req@));
            PluginArgs::Object(out)
        },
        (Some(d), PluginArgs::Null) => d.copy(),
        _ => request,
    }
}

} // verus!
