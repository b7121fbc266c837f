//! The graph reporter: either a full adjacency summary of every package and
//! its dependency values, or a keyword-driven depth-first search printing the
//! ancestor chain to every matching package, with cycle and depth guards.

use vstd::prelude::*;

use crate::errors::ErrView;
use crate::errors::YarnError;
use crate::graph::lemma_entries_canonical;
use crate::graph::lookup;
use crate::graph::DepGraph;
use crate::strutil::concat2;
use crate::strutil::contains_sub;
use crate::strutil::make_tabs;
use crate::strutil::str_contains_sub;
use crate::strutil::str_eq;
use crate::strutil::strs_view;
use crate::strutil::tabs;

verus! {

/// The depth bound of the keyword search: an ancestor chain reaching this
/// length is a fatal failure.
pub const MAX_SEARCH_DEPTH: usize = 50;

/// The output lines of one graph entry in the full summary: the key with a
/// colon, then each dependency value indented by four spaces.
pub open spec fn entry_lines(e: (Seq<char>, Seq<Seq<char>>)) -> Seq<Seq<char>> {
    seq![e.0 + ":"@] + e.1.map_values(|d: Seq<char>| "    "@ + d)
}

/// The full-summary output: every entry's lines, in graph order.
pub open spec fn summary_lines(es: Seq<(Seq<char>, Seq<Seq<char>>)>) -> Seq<Seq<char>>
    decreases es.len(),
{
    if es.len() == 0 {
        Seq::empty()
    } else {
        entry_lines(es[0]) + summary_lines(es.skip(1))
    }
}

proof fn lemma_summary_take(es: Seq<(Seq<char>, Seq<Seq<char>>)>, i: int)
    requires
        0 <= i < es.len(),
    ensures
        summary_lines(es.take(i + 1)) == summary_lines(es.take(i)) + entry_lines(es[i]),
    decreases i,
{
    if i == 0 {
        assert(es.take(0) =~= Seq::<(Seq<char>, Seq<Seq<char>>)>::empty());
        assert(es.take(1)[0] == es[0]);
        assert(es.take(1).skip(1) =~= Seq::<(Seq<char>, Seq<Seq<char>>)>::empty());
        assert(summary_lines(Seq::<(Seq<char>, Seq<Seq<char>>)>::empty())
            =~= Seq::<Seq<char>>::empty());
        assert(summary_lines(es.take(1)) =~= entry_lines(es[0]));
        assert(summary_lines(es.take(0)) + entry_lines(es[0]) =~= entry_lines(es[0]));
    } else {
        let t = es.skip(1);
        lemma_summary_take(t, i - 1);
        assert(es.take(i + 1)[0] == es[0]);
        assert(es.take(i + 1).skip(1) =~= t.take(i));
        assert(es.take(i)[0] == es[0]);
        assert(es.take(i).skip(1) =~= t.take(i - 1));
        assert(t[i - 1] == es[i]);
        assert(summary_lines(es.take(i + 1)) == entry_lines(es[0]) + summary_lines(t.take(i)));
        assert(summary_lines(es.take(i)) == entry_lines(es[0]) + summary_lines(t.take(i - 1)));
        assert(entry_lines(es[0]) + (summary_lines(t.take(i - 1)) + entry_lines(es[i]))
            =~= (entry_lines(es[0]) + summary_lines(t.take(i - 1))) + entry_lines(es[i]));
    }
}

/// Appends the full summary of the graph to `out`.
#[verifier::loop_isolation(false)]
pub fn full_summary(g: &DepGraph, out: &mut Vec<String>)
    ensures
        strs_view(final(out)@) == strs_view(old(out)@) + summary_lines(g@),
{
    let ghost base = strs_view(old(out)@);
    let n = g.len();
    let mut i: usize = 0;
    proof {
        assert(g@.take(0) =~= Seq::<(Seq<char>, Seq<Seq<char>>)>::empty());
        assert(base + summary_lines(g@.take(0)) =~= base);
    }
    while i < n
        invariant
            i <= n,
            n == g@.len(),
            strs_view(out@) == base + summary_lines(g@.take(i as int)),
        decreases n - i,
    {
        let ghost before_entry = strs_view(out@);
        let key = g.key_at(i);
        let line = concat2(key.as_str(), ":");
        let ghost lv = line@;
        out.push(line);
        proof {
            assert(lv == g@[i as int].0 + ":"@);
            assert(strs_view(out@) =~= before_entry + seq![lv]);
        }
        let deps = g.deps_at(i);
        let m = deps.len();
        let mut d: usize = 0;
        proof {
            let dl = g@[i as int].1.map_values(|x: Seq<char>| "    "@ + x);
            assert(dl.take(0) =~= Seq::<Seq<char>>::empty());
            assert(before_entry + seq![lv] + dl.take(0) =~= before_entry + seq![lv]);
        }
        while d < m
            invariant
                d <= m,
                m == deps@.len(),
                m == g@[i as int].1.len(),
                strs_view(deps@) == g@[i as int].1,
                lv == g@[i as int].0 + ":"@,
                strs_view(out@) == before_entry + seq![lv] + g@[i as int].1.map_values(
                    |x: Seq<char>| "    "@ + x,
                ).take(d as int),
            decreases m - d,
        {
            let ghost before_dep = strs_view(out@);
            let dline = concat2("    ", deps[d].as_str());
            let ghost dv = dline@;
            out.push(dline);
            proof {
                let dl = g@[i as int].1.map_values(|x: Seq<char>| "    "@ + x);
                assert(deps@[d as int]@ == g@[i as int].1[d as int]);
                assert(dv == dl[d as int]);
                assert(strs_view(out@) =~= before_dep + seq![dv]);
                assert(dl.take(d as int + 1) =~= dl.take(d as int) + seq![dv]);
                assert(strs_view(out@) =~= before_entry + seq![lv] + dl.take(d as int + 1));
            }
            d += 1;
        }
        proof {
            let dl = g@[i as int].1.map_values(|x: Seq<char>| "    "@ + x);
            assert(dl.take(m as int) =~= dl);
            assert(entry_lines(g@[i as int]) =~= seq![lv] + dl);
            assert(strs_view(out@) =~= before_entry + entry_lines(g@[i as int]));
            lemma_summary_take(g@, i as int);
            assert(strs_view(out@) =~= base + summary_lines(g@.take(i as int + 1)));
        }
        i += 1;
    }
    proof {
        assert(g@.take(n as int) =~= g@);
    }
}

/// Whether a package token contains any of the keywords as a substring.
pub open spec fn keyword_match(pkg: Seq<char>, kws: Seq<Seq<char>>) -> bool {
    exists|i: int| 0 <= i < kws.len() && contains_sub(pkg, #[trigger] kws[i])
}

/// The visit of one node: the chains it prints, and either `Ok(found)` or
/// `Err(depth)` when the ancestor chain reached the depth bound at `depth`.
pub open spec fn search_node_spec(
    es: Seq<(Seq<char>, Seq<Seq<char>>)>,
    kws: Seq<Seq<char>>,
    anc: Seq<Seq<char>>,
    pkg: Seq<char>,
    depth: int,
) -> (Seq<Seq<Seq<char>>>, Result<bool, int>)
    decreases 50 - depth, 0int,
{
    if keyword_match(pkg, kws) {
        (seq![anc.push(pkg)], Ok(true))
    } else if anc.contains(pkg) {
        (Seq::empty(), Ok(false))
    } else if depth >= 50 {
        (Seq::empty(), Err(depth))
    } else {
        match lookup(es, pkg) {
            None => (Seq::empty(), Ok(false)),
            Some(deps) => {
                let r = search_list_spec(es, kws, anc.push(pkg), deps, depth + 1);
                (
                    r.0,
                    match r.1 {
                        Ok(u) => Ok(false),
                        Err(d) => Err(d),
                    },
                )
            },
        }
    }
}

/// The visits of a list of sibling dependency values, in order; the first
/// depth failure aborts the rest.
pub open spec fn search_list_spec(
    es: Seq<(Seq<char>, Seq<Seq<char>>)>,
    kws: Seq<Seq<char>>,
    anc: Seq<Seq<char>>,
    deps: Seq<Seq<char>>,
    depth: int,
) -> (Seq<Seq<Seq<char>>>, Result<(), int>)
    decreases 50 - depth, deps.len() + 1,
{
    if deps.len() == 0 {
        (Seq::empty(), Ok(()))
    } else {
        let r0 = search_node_spec(es, kws, anc, deps[0], depth);
        match r0.1 {
            Err(d) => (r0.0, Err(d)),
            Ok(u) => {
                let r1 = search_list_spec(es, kws, anc, deps.skip(1), depth);
                (r0.0 + r1.0, r1.1)
            },
        }
    }
}

/// The whole keyword search: every graph entry is a root, and every root's
/// subtree is visited whatever earlier roots matched.
pub open spec fn search_roots_spec(
    es: Seq<(Seq<char>, Seq<Seq<char>>)>,
    kws: Seq<Seq<char>>,
    i: int,
) -> (Seq<Seq<Seq<char>>>, Result<(), int>)
    decreases es.len() - i,
{
    if i < 0 || i >= es.len() {
        (Seq::empty(), Ok(()))
    } else {
        let r0 = search_list_spec(es, kws, seq![es[i].0], es[i].1, 1);
        match r0.1 {
            Err(d) => (r0.0, Err(d)),
            Ok(u) => {
                let r1 = search_roots_spec(es, kws, i + 1);
                (r0.0 + r1.0, r1.1)
            },
        }
    }
}

/// One printed ancestor chain: each entry indented by one tab per level.
pub open spec fn render_chain(c: Seq<Seq<char>>) -> Seq<Seq<char>> {
    Seq::new(c.len(), |i: int| tabs(i) + c[i])
}

/// All printed chains, in traversal order.
pub open spec fn render_chains(cs: Seq<Seq<Seq<char>>>) -> Seq<Seq<char>>
    decreases cs.len(),
{
    if cs.len() == 0 {
        Seq::empty()
    } else {
        render_chain(cs[0]) + render_chains(cs.skip(1))
    }
}

/// The marker line printed when the depth bound is hit at depth `d`.
pub open spec fn too_deep_line(d: int) -> Seq<char> {
    tabs(d) + "... (too deep)"@
}

pub proof fn lemma_render_chains_add(a: Seq<Seq<Seq<char>>>, b: Seq<Seq<Seq<char>>>)
    ensures
        render_chains(a + b) == render_chains(a) + render_chains(b),
    decreases a.len(),
{
    if a.len() == 0 {
        assert(a + b =~= b);
        assert(render_chains(a) + render_chains(b) =~= render_chains(b));
    } else {
        assert((a + b)[0] == a[0]);
        assert((a + b).skip(1) =~= a.skip(1) + b);
        lemma_render_chains_add(a.skip(1), b);
        assert(render_chain(a[0]) + (render_chains(a.skip(1)) + render_chains(b)) =~= (render_chain(
            a[0],
        ) + render_chains(a.skip(1))) + render_chains(b));
    }
}

/// What one node's visit appends to the output: its rendered chains, then
/// the depth marker if the visit failed.
pub open spec fn node_out(
    es: Seq<(Seq<char>, Seq<Seq<char>>)>,
    kws: Seq<Seq<char>>,
    anc: Seq<Seq<char>>,
    pkg: Seq<char>,
    depth: int,
) -> Seq<Seq<char>> {
    let s = search_node_spec(es, kws, anc, pkg, depth);
    render_chains(s.0) + (match s.1 {
        Ok(u) => Seq::<Seq<char>>::empty(),
        Err(d) => seq![too_deep_line(d)],
    })
}

/// What a sibling list's visit appends to the output.
pub open spec fn list_out(
    es: Seq<(Seq<char>, Seq<Seq<char>>)>,
    kws: Seq<Seq<char>>,
    anc: Seq<Seq<char>>,
    deps: Seq<Seq<char>>,
    depth: int,
) -> Seq<Seq<char>> {
    let s = search_list_spec(es, kws, anc, deps, depth);
    render_chains(s.0) + (match s.1 {
        Ok(u) => Seq::<Seq<char>>::empty(),
        Err(d) => seq![too_deep_line(d)],
    })
}

/// What the whole keyword search appends to the output.
pub open spec fn search_out(es: Seq<(Seq<char>, Seq<Seq<char>>)>, kws: Seq<Seq<char>>) -> Seq<
    Seq<char>,
> {
    let s = search_roots_spec(es, kws, 0);
    render_chains(s.0) + (match s.1 {
        Ok(u) => Seq::<Seq<char>>::empty(),
        Err(d) => seq![too_deep_line(d)],
    })
}

/// What the reporter appends for a graph and a keyword list: the full
/// summary when the list is empty, else the keyword search output.
pub open spec fn report_out(es: Seq<(Seq<char>, Seq<Seq<char>>)>, kws: Seq<Seq<char>>) -> Seq<
    Seq<char>,
> {
    if kws.len() == 0 {
        summary_lines(es)
    } else {
        search_out(es, kws)
    }
}

/// Whether the reporter succeeds: the full summary always does, the keyword
/// search only when no branch hits the depth bound.
pub open spec fn report_ok(es: Seq<(Seq<char>, Seq<Seq<char>>)>, kws: Seq<Seq<char>>) -> bool {
    kws.len() == 0 || search_roots_spec(es, kws, 0).1 is Ok
}

/// Cycle safety of one node's visit: under a duplicate-free ancestor chain,
/// every chain the visit prints repeats no package before its final entry.
pub proof fn lemma_node_chains_acyclic(
    es: Seq<(Seq<char>, Seq<Seq<char>>)>,
    kws: Seq<Seq<char>>,
    anc: Seq<Seq<char>>,
    pkg: Seq<char>,
    depth: int,
)
    requires
        anc.no_duplicates(),
    ensures
        forall|c: Seq<Seq<char>>| #[trigger]
            search_node_spec(es, kws, anc, pkg, depth).0.contains(c) ==> c.len() >= 1
                && c.drop_last().no_duplicates(),
    decreases 50 - depth, 0int,
{
    let s = search_node_spec(es, kws, anc, pkg, depth);
    if keyword_match(pkg, kws) {
        assert forall|c: Seq<Seq<char>>| #[trigger]
            s.0.contains(c) implies c.len() >= 1 && c.drop_last().no_duplicates() by {
            assert(c == anc.push(pkg));
            assert(c.drop_last() =~= anc);
        }
    } else if anc.contains(pkg) {
    } else if depth >= 50 {
    } else {
        match lookup(es, pkg) {
            None => {},
            Some(deps) => {
                assert(anc.push(pkg).no_duplicates()) by {
                    assert(forall|x: int| 0 <= x < anc.len() ==> anc[x] != pkg);
                    assert(forall|x: int|
                        0 <= x < anc.len() ==> #[trigger] anc.push(pkg)[x] == anc[x]);
                    assert(anc.push(pkg)[anc.len() as int] == pkg);
                }
                lemma_list_chains_acyclic(es, kws, anc.push(pkg), deps, depth + 1);
                assert forall|c: Seq<Seq<char>>| #[trigger]
                    s.0.contains(c) implies c.len() >= 1 && c.drop_last().no_duplicates() by {
                    assert(search_list_spec(es, kws, anc.push(pkg), deps, depth + 1).0.contains(c));
                }
            },
        }
    }
}

/// Cycle safety of a sibling list's visit.
pub proof fn lemma_list_chains_acyclic(
    es: Seq<(Seq<char>, Seq<Seq<char>>)>,
    kws: Seq<Seq<char>>,
    anc: Seq<Seq<char>>,
    deps: Seq<Seq<char>>,
    depth: int,
)
    requires
        anc.no_duplicates(),
    ensures
        forall|c: Seq<Seq<char>>| #[trigger]
            search_list_spec(es, kws, anc, deps, depth).0.contains(c) ==> c.len() >= 1
                && c.drop_last().no_duplicates(),
    decreases 50 - depth, deps.len() + 1,
{
    let s = search_list_spec(es, kws, anc, deps, depth);
    if deps.len() == 0 {
    } else {
        let r0 = search_node_spec(es, kws, anc, deps[0], depth);
        lemma_node_chains_acyclic(es, kws, anc, deps[0], depth);
        match r0.1 {
            Err(d) => {},
            Ok(u) => {
                let r1 = search_list_spec(es, kws, anc, deps.skip(1), depth);
                lemma_list_chains_acyclic(es, kws, anc, deps.skip(1), depth);
                assert forall|c: Seq<Seq<char>>| #[trigger]
                    s.0.contains(c) implies c.len() >= 1 && c.drop_last().no_duplicates() by {
                    let i = choose|i: int| 0 <= i < s.0.len() && s.0[i] == c;
                    if i < r0.0.len() {
                        assert(r0.0[i] == c);
                        assert(r0.0.contains(c));
                    } else {
                        assert(r1.0[i - r0.0.len()] == c);
                        assert(r1.0.contains(c));
                    }
                }
            },
        }
    }
}

/// Cycle safety of the whole keyword search: a search over any graph, even
/// one whose dependencies form a cycle, prints no chain that repeats a
/// package before its final (matching) entry; termination of the search is
/// checked by its decreasing depth measure.
pub proof fn lemma_search_chains_acyclic(
    es: Seq<(Seq<char>, Seq<Seq<char>>)>,
    kws: Seq<Seq<char>>,
    i: int,
)
    ensures
        forall|c: Seq<Seq<char>>| #[trigger]
            search_roots_spec(es, kws, i).0.contains(c) ==> c.len() >= 1
                && c.drop_last().no_duplicates(),
    decreases es.len() - i,
{
    let s = search_roots_spec(es, kws, i);
    if i < 0 || i >= es.len() {
    } else {
        let r0 = search_list_spec(es, kws, seq![es[i].0], es[i].1, 1);
        assert(seq![es[i].0].no_duplicates());
        lemma_list_chains_acyclic(es, kws, seq![es[i].0], es[i].1, 1);
        match r0.1 {
            Err(d) => {},
            Ok(u) => {
                let r1 = search_roots_spec(es, kws, i + 1);
                lemma_search_chains_acyclic(es, kws, i + 1);
                assert forall|c: Seq<Seq<char>>| #[trigger]
                    s.0.contains(c) implies c.len() >= 1 && c.drop_last().no_duplicates() by {
                    let x = choose|x: int| 0 <= x < s.0.len() && s.0[x] == c;
                    if x < r0.0.len() {
                        assert(r0.0[x] == c);
                        assert(r0.0.contains(c));
                    } else {
                        assert(r1.0[x - r0.0.len()] == c);
                        assert(r1.0.contains(c));
                    }
                }
            },
        }
    }
}

/// Decides whether `pkg` contains any of the keywords as a substring.
#[verifier::loop_isolation(false)]
fn matches_any_keyword(pkg: &str, keywords: &Vec<String>) -> (r: bool)
    ensures
        r == keyword_match(pkg@, strs_view(keywords@)),
{
    let mut ki: usize = 0;
    let mut matched = false;
    while ki < keywords.len()
        invariant
            ki <= keywords@.len(),
            matched == exists|x: int|
                0 <= x < ki && contains_sub(pkg@, #[trigger] strs_view(keywords@)[x]),
        decreases keywords@.len() - ki,
    {
        if str_contains_sub(pkg, keywords[ki].as_str()) {
            proof {
                assert(contains_sub(pkg@, strs_view(keywords@)[ki as int]));
            }
            matched = true;
        }
        ki += 1;
    }
    matched
}

/// Decides whether `pkg` already stands in the ancestor chain.
#[verifier::loop_isolation(false)]
fn ancestor_contains(ancestor: &Vec<String>, pkg: &str) -> (r: bool)
    ensures
        r == strs_view(ancestor@).contains(pkg@),
{
    let mut t: usize = 0;
    let mut found = false;
    while t < ancestor.len()
        invariant
            t <= ancestor@.len(),
            found == exists|x: int| 0 <= x < t && #[trigger] strs_view(ancestor@)[x] == pkg@,
        decreases ancestor@.len() - t,
    {
        if str_eq(ancestor[t].as_str(), pkg) {
            proof {
                assert(strs_view(ancestor@)[t as int] == pkg@);
            }
            found = true;
        }
        t += 1;
    }
    proof {
        if found {
            assert(strs_view(ancestor@).contains(pkg@));
        }
        if strs_view(ancestor@).contains(pkg@) {
            let x = choose|x: int|
                0 <= x < strs_view(ancestor@).len() && strs_view(ancestor@)[x] == pkg@;
            assert(0 <= x < t);
        }
    }
    found
}

/// Appends the rendered ancestor chain ending at `pkg` to `out`.
#[verifier::loop_isolation(false)]
fn emit_chain(ancestor: &Vec<String>, pkg: &str, out: &mut Vec<String>)
    ensures
        strs_view(final(out)@) == strs_view(old(out)@) + render_chain(
            strs_view(ancestor@).push(pkg@),
        ),
{
    let ghost base = strs_view(old(out)@);
    let ghost chain = strs_view(ancestor@).push(pkg@);
    let n = ancestor.len();
    let mut t: usize = 0;
    proof {
        assert(render_chain(chain).take(0) =~= Seq::<Seq<char>>::empty());
        assert(base + render_chain(chain).take(0) =~= base);
    }
    while t < n
        invariant
            t <= n,
            n == ancestor@.len(),
            strs_view(out@) == base + render_chain(chain).take(t as int),
        decreases n - t,
    {
        let ghost before = strs_view(out@);
        let ts = make_tabs(t);
        let line = concat2(ts.as_str(), ancestor[t].as_str());
        let ghost lv = line@;
        out.push(line);
        proof {
            assert(chain[t as int] == strs_view(ancestor@)[t as int]);
            assert(lv == tabs(t as int) + chain[t as int]);
            assert(lv == render_chain(chain)[t as int]);
            assert(strs_view(out@) =~= before + seq![lv]);
            assert(render_chain(chain).take(t as int + 1) =~= render_chain(chain).take(t as int)
                + seq![lv]);
            assert(strs_view(out@) =~= base + render_chain(chain).take(t as int + 1));
        }
        t += 1;
    }
    let ghost before = strs_view(out@);
    let ts = make_tabs(n);
    let line = concat2(ts.as_str(), pkg);
    let ghost lv = line@;
    out.push(line);
    proof {
        assert(chain[n as int] == pkg@);
        assert(lv == render_chain(chain)[n as int]);
        assert(strs_view(out@) =~= before + seq![lv]);
        assert(render_chain(chain).take(n as int + 1) =~= render_chain(chain).take(n as int)
            + seq![lv]);
        assert(render_chain(chain).take(n as int + 1) =~= render_chain(chain));
    }
}

/// Visits one package: prints the chain on a keyword match, stops silently
/// on a cycle or a missing key, fails at the depth bound, else descends.
#[verifier::loop_isolation(false)]
fn search_node(
    g: &DepGraph,
    keywords: &Vec<String>,
    ancestor: &Vec<String>,
    pkg: &str,
    depth: usize,
    out: &mut Vec<String>,
) -> (r: Result<bool, YarnError>)
    requires
        g.wf(),
        depth <= 50,
    ensures
        strs_view(final(out)@) == strs_view(old(out)@) + node_out(
            g@,
            strs_view(keywords@),
            strs_view(ancestor@),
            pkg@,
            depth as int,
        ),
        r is Ok <==> search_node_spec(
            g@,
            strs_view(keywords@),
            strs_view(ancestor@),
            pkg@,
            depth as int,
        ).1 is Ok,
        r is Ok ==> r->Ok_0 == search_node_spec(
            g@,
            strs_view(keywords@),
            strs_view(ancestor@),
            pkg@,
            depth as int,
        ).1->Ok_0,
        r is Err ==> r->Err_0@ == ErrView::TooDeep,
    decreases 50 - depth, 0int,
{
    let ghost es = g@;
    let ghost kws = strs_view(keywords@);
    let ghost anc = strs_view(ancestor@);
    let ghost s = search_node_spec(es, kws, anc, pkg@, depth as int);
    if matches_any_keyword(pkg, keywords) {
        emit_chain(ancestor, pkg, out);
        proof {
            assert(s.0 == seq![anc.push(pkg@)]);
            assert(s.0.skip(1) =~= Seq::<Seq<Seq<char>>>::empty());
            assert(render_chains(Seq::<Seq<Seq<char>>>::empty()) =~= Seq::<Seq<char>>::empty());
            assert(render_chains(s.0) =~= render_chain(anc.push(pkg@)));
            assert(node_out(es, kws, anc, pkg@, depth as int) == render_chains(s.0));
        }
        return Ok(true);
    }
    if ancestor_contains(ancestor, pkg) {
        proof {
            assert(node_out(es, kws, anc, pkg@, depth as int) =~= Seq::<Seq<char>>::empty());
            assert(strs_view(out@) =~= strs_view(out@) + node_out(
                es,
                kws,
                anc,
                pkg@,
                depth as int,
            ));
        }
        return Ok(false);
    }
    if depth >= MAX_SEARCH_DEPTH {
        let ts = make_tabs(depth);
        let line = concat2(ts.as_str(), "... (too deep)");
        let ghost before = strs_view(out@);
        out.push(line);
        proof {
            assert(s.1 == Result::<bool, int>::Err(depth as int));
            assert(render_chains(s.0) =~= Seq::<Seq<char>>::empty());
            assert(strs_view(out@) =~= before + seq![too_deep_line(depth as int)]);
            assert(node_out(es, kws, anc, pkg@, depth as int) =~= seq![
                too_deep_line(depth as int),
            ]);
        }
        return Err(YarnError::TooDeep);
    }
    match g.get(pkg) {
        None => {
            proof {
                assert(lookup(es, pkg@) is None);
                assert(node_out(es, kws, anc, pkg@, depth as int) =~= Seq::<Seq<char>>::empty());
                assert(strs_view(out@) =~= strs_view(out@) + node_out(
                    es,
                    kws,
                    anc,
                    pkg@,
                    depth as int,
                ));
            }
            Ok(false)
        },
        Some(deps) => {
            let mut anc2: Vec<String> = Vec::new();
            let mut t: usize = 0;
            while t < ancestor.len()
                invariant
                    t <= ancestor@.len(),
                    anc2@.len() == t,
                    forall|x: int| 0 <= x < t ==> anc2@[x]@ == #[trigger] ancestor@[x]@,
                decreases ancestor@.len() - t,
            {
                anc2.push(ancestor[t].clone());
                t += 1;
            }
            anc2.push(String::from_str(pkg));
            proof {
                assert(strs_view(anc2@) =~= anc.push(pkg@));
                assert(lookup(es, pkg@) == Some(strs_view(deps@)));
            }
            let r = search_list(g, keywords, &anc2, deps, depth + 1, out);
            proof {
                let rl = search_list_spec(es, kws, anc.push(pkg@), strs_view(deps@), depth as int
                    + 1);
                assert(s.0 == rl.0);
                assert(node_out(es, kws, anc, pkg@, depth as int) == list_out(
                    es,
                    kws,
                    anc.push(pkg@),
                    strs_view(deps@),
                    depth as int + 1,
                ));
            }
            match r {
                Ok(_) => Ok(false),
                Err(e) => Err(e),
            }
        },
    }
}

/// Visits each dependency value of one node in order; a depth failure in one
/// branch aborts the remaining siblings.
#[verifier::loop_isolation(false)]
fn search_list(
    g: &DepGraph,
    keywords: &Vec<String>,
    ancestor: &Vec<String>,
    deps: &Vec<String>,
    depth: usize,
    out: &mut Vec<String>,
) -> (r: Result<(), YarnError>)
    requires
        g.wf(),
        depth <= 50,
    ensures
        strs_view(final(out)@) == strs_view(old(out)@) + list_out(
            g@,
            strs_view(keywords@),
            strs_view(ancestor@),
            strs_view(deps@),
            depth as int,
        ),
        r is Ok <==> search_list_spec(
            g@,
            strs_view(keywords@),
            strs_view(ancestor@),
            strs_view(deps@),
            depth as int,
        ).1 is Ok,
        r is Err ==> r->Err_0@ == ErrView::TooDeep,
    decreases 50 - depth, deps@.len() + 1,
{
    let ghost es = g@;
    let ghost kws = strs_view(keywords@);
    let ghost anc = strs_view(ancestor@);
    let ghost dv = strs_view(deps@);
    let ghost base = strs_view(old(out)@);
    let ghost mut done: Seq<Seq<Seq<char>>> = Seq::empty();
    let mut di: usize = 0;
    proof {
        assert(dv.skip(0) =~= dv);
        assert(render_chains(done) =~= Seq::<Seq<char>>::empty());
        assert(base + render_chains(done) =~= base);
    }
    while di < deps.len()
        invariant
            di <= dv.len(),
            strs_view(out@) == base + render_chains(done),
            search_list_spec(es, kws, anc, dv, depth as int).1 == search_list_spec(
                es,
                kws,
                anc,
                dv.skip(di as int),
                depth as int,
            ).1,
            search_list_spec(es, kws, anc, dv, depth as int).0 == done + search_list_spec(
                es,
                kws,
                anc,
                dv.skip(di as int),
                depth as int,
            ).0,
        decreases dv.len() - di,
    {
        let ghost suffix = dv.skip(di as int);
        proof {
            assert(suffix[0] == dv[di as int]);
            assert(suffix.skip(1) =~= dv.skip(di as int + 1));
            assert(deps@[di as int]@ == dv[di as int]);
        }
        let ghost sn = search_node_spec(es, kws, anc, dv[di as int], depth as int);
        let r0 = search_node(g, keywords, ancestor, deps[di].as_str(), depth, out);
        match r0 {
            Err(e) => {
                proof {
                    lemma_render_chains_add(done, sn.0);
                    assert(search_list_spec(es, kws, anc, suffix, depth as int).0 == sn.0);
                    assert(search_list_spec(es, kws, anc, suffix, depth as int).1 is Err);
                    assert(strs_view(out@) =~= base + render_chains(done + sn.0) + seq![
                        too_deep_line(sn.1->Err_0),
                    ]);
                    assert(search_list_spec(es, kws, anc, dv, depth as int).1->Err_0
                        == sn.1->Err_0);
                }
                return Err(e);
            },
            Ok(_) => {
                proof {
                    lemma_render_chains_add(done, sn.0);
                    done = done + sn.0;
                    assert(strs_view(out@) == base + render_chains(done));
                }
            },
        }
        di += 1;
    }
    proof {
        assert(dv.skip(dv.len() as int) =~= Seq::<Seq<char>>::empty());
        assert(search_list_spec(es, kws, anc, dv.skip(dv.len() as int), depth as int).0
            =~= Seq::<Seq<Seq<char>>>::empty());
        assert(search_list_spec(es, kws, anc, dv, depth as int).0 =~= done);
    }
    Ok(())
}

/// The keyword search over the whole graph: every entry is a search root,
/// and every root's subtree is visited whatever earlier roots matched. The
/// matching chains are appended to `out`; a depth failure appends its marker
/// line and aborts the remainder of the search.
#[verifier::loop_isolation(false)]
pub fn summary_package_tree(g: &DepGraph, keywords: &Vec<String>, out: &mut Vec<String>) -> (r:
    Result<(), YarnError>)
    requires
        g.wf(),
    ensures
        strs_view(final(out)@) == strs_view(old(out)@) + search_out(g@, strs_view(keywords@)),
        r is Ok <==> search_roots_spec(g@, strs_view(keywords@), 0).1 is Ok,
        r is Err ==> r->Err_0@ == ErrView::TooDeep,
{
    let ghost es = g@;
    let ghost kws = strs_view(keywords@);
    let ghost base = strs_view(old(out)@);
    let ghost mut done: Seq<Seq<Seq<char>>> = Seq::empty();
    let n = g.len();
    let mut i: usize = 0;
    proof {
        assert(render_chains(done) =~= Seq::<Seq<char>>::empty());
        assert(base + render_chains(done) =~= base);
    }
    while i < n
        invariant
            i <= n,
            n == es.len(),
            strs_view(out@) == base + render_chains(done),
            search_roots_spec(es, kws, 0).1 == search_roots_spec(es, kws, i as int).1,
            search_roots_spec(es, kws, 0).0 == done + search_roots_spec(es, kws, i as int).0,
        decreases n - i,
    {
        let key = g.key_at(i);
        let mut anc: Vec<String> = Vec::new();
        anc.push(key.clone());
        let deps = g.deps_at(i);
        proof {
            assert(strs_view(anc@) =~= seq![es[i as int].0]);
            assert(strs_view(deps@) == es[i as int].1);
        }
        let ghost sl = search_list_spec(es, kws, seq![es[i as int].0], es[i as int].1, 1);
        let r0 = search_list(g, keywords, &anc, deps, 1, out);
        match r0 {
            Err(e) => {
                proof {
                    lemma_render_chains_add(done, sl.0);
                    assert(search_roots_spec(es, kws, i as int).0 == sl.0);
                    assert(search_roots_spec(es, kws, i as int).1 is Err);
                    assert(strs_view(out@) =~= base + render_chains(done + sl.0) + seq![
                        too_deep_line(sl.1->Err_0),
                    ]);
                }
                return Err(e);
            },
            Ok(_) => {
                proof {
                    lemma_render_chains_add(done, sl.0);
                    done = done + sl.0;
                    assert(strs_view(out@) == base + render_chains(done));
                }
            },
        }
        i += 1;
    }
    proof {
        assert(search_roots_spec(es, kws, n as int).0 =~= Seq::<Seq<Seq<char>>>::empty());
        assert(search_roots_spec(es, kws, 0).0 =~= done);
    }
    Ok(())
}

/// Reports the graph: a full summary when no keyword is given, else the
/// keyword search.
pub fn report(g: &DepGraph, keywords: &Vec<String>, out: &mut Vec<String>) -> (r: Result<
    (),
    YarnError,
>)
    requires
        g.wf(),
    ensures
        strs_view(final(out)@) == strs_view(old(out)@) + report_out(g@, strs_view(keywords@)),
        r is Ok <==> report_ok(g@, strs_view(keywords@)),
        r is Err ==> r->Err_0@ == ErrView::TooDeep,
{
    if keywords.len() == 0 {
        full_summary(g, out);
        Ok(())
    } else {
        summary_package_tree(g, keywords, out)
    }
}

/// Two well-formed graphs over the same mapping print the same full
/// summary: parsing and reporting are deterministic in the file content.
pub proof fn lemma_report_deterministic(g1: &DepGraph, g2: &DepGraph)
    requires
        g1.wf(),
        g2.wf(),
        g1.map_view() == g2.map_view(),
    ensures
        g1@ == g2@,
        summary_lines(g1@) == summary_lines(g2@),
{
    lemma_entries_canonical(g1@, g2@);
}

} // verus!
