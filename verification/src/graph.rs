//! The dependency graph: a mapping from package identifier to the set of its
//! direct dependency value-strings. Entries and dependency lists are kept in
//! strict lexicographic order, so enumeration is deterministic and the
//! representation of a given mapping is unique.

use vstd::prelude::*;

use crate::strutil::lemma_lex_lt_asymm;
use crate::strutil::lemma_lex_lt_connex;
use crate::strutil::lemma_lex_lt_irrefl;
use crate::strutil::lemma_lex_lt_trans;
use crate::strutil::lex_lt;
use crate::strutil::str_eq;
use crate::strutil::str_lt;
use crate::strutil::strs_view;

verus! {

/// A strictly ascending sequence of strings: sorted, without repetition.
pub open spec fn strict_sorted(s: Seq<Seq<char>>) -> bool {
    forall|i: int, j: int| 0 <= i < j < s.len() ==> lex_lt(s[i], s[j])
}

/// The keys of a sequence of graph entries, in order.
pub open spec fn keys_of(es: Seq<(Seq<char>, Seq<Seq<char>>)>) -> Seq<Seq<char>> {
    es.map_values(|e: (Seq<char>, Seq<Seq<char>>)| e.0)
}

/// Well-formedness of a sequence of graph entries: keys strictly sorted,
/// every dependency list strictly sorted.
pub open spec fn entries_wf(es: Seq<(Seq<char>, Seq<Seq<char>>)>) -> bool {
    &&& strict_sorted(keys_of(es))
    &&& forall|i: int| 0 <= i < es.len() ==> strict_sorted(#[trigger] es[i].1)
}

/// Some entry carries key `k`.
pub open spec fn has_key(es: Seq<(Seq<char>, Seq<Seq<char>>)>, k: Seq<char>) -> bool {
    exists|i: int| 0 <= i < es.len() && (#[trigger] es[i]).0 == k
}

/// The index of the entry carrying key `k`.
pub open spec fn index_of_key(es: Seq<(Seq<char>, Seq<Seq<char>>)>, k: Seq<char>) -> int {
    choose|i: int| 0 <= i < es.len() && (#[trigger] es[i]).0 == k
}

/// The ordered dependency list under key `k`, if the key is present.
pub open spec fn lookup(es: Seq<(Seq<char>, Seq<Seq<char>>)>, k: Seq<char>) -> Option<
    Seq<Seq<char>>,
> {
    if has_key(es, k) {
        Some(es[index_of_key(es, k)].1)
    } else {
        None
    }
}

/// The abstract mapping that a sequence of entries represents.
pub open spec fn map_of(es: Seq<(Seq<char>, Seq<Seq<char>>)>) -> Map<Seq<char>, Set<Seq<char>>> {
    Map::new(|k: Seq<char>| has_key(es, k), |k: Seq<char>| es[index_of_key(es, k)].1.to_set())
}

/// Ensures key `k` exists in the mapping, bound to an empty set if absent.
pub open spec fn upsert_map(m: Map<Seq<char>, Set<Seq<char>>>, k: Seq<char>) -> Map<
    Seq<char>,
    Set<Seq<char>>,
> {
    if m.dom().contains(k) {
        m
    } else {
        m.insert(k, Set::empty())
    }
}

/// Adds dependency value `v` under key `k`, creating the key if absent.
pub open spec fn add_dep_map(m: Map<Seq<char>, Set<Seq<char>>>, k: Seq<char>, v: Seq<char>) -> Map<
    Seq<char>,
    Set<Seq<char>>,
> {
    m.insert(k, if m.dom().contains(k) {
        m[k].insert(v)
    } else {
        Set::empty().insert(v)
    })
}

/// In a well-formed entry sequence the entry of a key is unique, so indexing
/// by key agrees with positional indexing.
pub proof fn lemma_lookup_index(es: Seq<(Seq<char>, Seq<Seq<char>>)>, i: int)
    requires
        entries_wf(es),
        0 <= i < es.len(),
    ensures
        has_key(es, es[i].0),
        index_of_key(es, es[i].0) == i,
        lookup(es, es[i].0) == Some(es[i].1),
        map_of(es).dom().contains(es[i].0),
        map_of(es)[es[i].0] == es[i].1.to_set(),
{
    assert(has_key(es, es[i].0));
    let j = index_of_key(es, es[i].0);
    assert(0 <= j < es.len() && es[j].0 == es[i].0);
    if i != j {
        assert(keys_of(es)[i] == es[i].0);
        assert(keys_of(es)[j] == es[j].0);
        if i < j {
            assert(lex_lt(es[i].0, es[j].0));
        } else {
            assert(lex_lt(es[j].0, es[i].0));
        }
        lemma_lex_lt_irrefl(es[i].0);
    }
}

/// Distinct strictly sorted sequences cannot carry the same set of values:
/// the sorted representation of a set is unique.
pub proof fn lemma_sorted_seq_unique(s1: Seq<Seq<char>>, s2: Seq<Seq<char>>)
    requires
        strict_sorted(s1),
        strict_sorted(s2),
        s1.to_set() == s2.to_set(),
    ensures
        s1 == s2,
    decreases s1.len(),
{
    if s1.len() == 0 {
        if s2.len() > 0 {
            assert(s2.contains(s2[0]));
            assert(s2.to_set().contains(s2[0]));
            assert(s1.to_set().contains(s2[0]));
            assert(false);
        }
        assert(s1 =~= s2);
    } else if s2.len() == 0 {
        assert(s1.contains(s1[0]));
        assert(s1.to_set().contains(s1[0]));
        assert(false);
    } else {
        // The head of each is the unique minimum of the common set.
        assert(s1.contains(s1[0]));
        assert(s2.to_set().contains(s1[0]));
        let j = choose|j: int| 0 <= j < s2.len() && s2[j] == s1[0];
        assert(s2.contains(s2[0]));
        assert(s1.to_set().contains(s2[0]));
        let i = choose|i: int| 0 <= i < s1.len() && s1[i] == s2[0];
        if s1[0] != s2[0] {
            assert(j != 0);
            assert(i != 0);
            assert(lex_lt(s2[0], s2[j]));
            assert(lex_lt(s1[0], s1[i]));
            lemma_lex_lt_asymm(s1[0], s2[0]);
            assert(false);
        }
        let t1 = s1.skip(1);
        let t2 = s2.skip(1);
        assert forall|x: Seq<char>| t1.to_set().contains(x) implies t2.to_set().contains(x) by {
            assert(t1.contains(x));
            let ii = choose|ii: int| 0 <= ii < t1.len() && t1[ii] == x;
            assert(s1[ii + 1] == x);
            assert(lex_lt(s1[0], x));
            lemma_lex_lt_irrefl(x);
            assert(x != s2[0]);
            assert(s1.contains(x));
            assert(s2.to_set().contains(x));
            let jj = choose|jj: int| 0 <= jj < s2.len() && s2[jj] == x;
            assert(jj != 0);
            assert(t2[jj - 1] == x);
            assert(t2.contains(x));
        }
        assert forall|x: Seq<char>| t2.to_set().contains(x) implies t1.to_set().contains(x) by {
            assert(t2.contains(x));
            let jj = choose|jj: int| 0 <= jj < t2.len() && t2[jj] == x;
            assert(s2[jj + 1] == x);
            assert(lex_lt(s2[0], x));
            lemma_lex_lt_irrefl(x);
            assert(x != s1[0]);
            assert(s2.contains(x));
            assert(s1.to_set().contains(x));
            let ii = choose|ii: int| 0 <= ii < s1.len() && s1[ii] == x;
            assert(ii != 0);
            assert(t1[ii - 1] == x);
            assert(t1.contains(x));
        }
        assert(t1.to_set() =~= t2.to_set());
        assert forall|a: int, b: int| 0 <= a < b < t1.len() implies lex_lt(t1[a], t1[b]) by {
            assert(s1[a + 1] == t1[a]);
            assert(s1[b + 1] == t1[b]);
        }
        assert forall|a: int, b: int| 0 <= a < b < t2.len() implies lex_lt(t2[a], t2[b]) by {
            assert(s2[a + 1] == t2[a]);
            assert(s2[b + 1] == t2[b]);
        }
        lemma_sorted_seq_unique(t1, t2);
        assert(s1.len() == s2.len());
        assert forall|x: int| 0 <= x < s1.len() implies s1[x] == s2[x] by {
            if x >= 1 {
                assert(t1[x - 1] == s1[x]);
                assert(t2[x - 1] == s2[x]);
            }
        }
        assert(s1 =~= s2);
    }
}

/// A mapping has exactly one well-formed entry sequence: the graph built for
/// it is canonical, whatever order it was filled in.
pub proof fn lemma_entries_canonical(
    es1: Seq<(Seq<char>, Seq<Seq<char>>)>,
    es2: Seq<(Seq<char>, Seq<Seq<char>>)>,
)
    requires
        entries_wf(es1),
        entries_wf(es2),
        map_of(es1) == map_of(es2),
    ensures
        es1 == es2,
{
    let k1 = keys_of(es1);
    let k2 = keys_of(es2);
    assert forall|x: Seq<char>| k1.to_set().contains(x) implies k2.to_set().contains(x) by {
        assert(k1.contains(x));
        let i = choose|i: int| 0 <= i < k1.len() && k1[i] == x;
        assert(es1[i].0 == x);
        lemma_lookup_index(es1, i);
        assert(map_of(es1).dom().contains(x));
        assert(map_of(es2).dom().contains(x));
        assert(has_key(es2, x));
        let j = index_of_key(es2, x);
        assert(k2[j] == x);
        assert(k2.contains(x));
    }
    assert forall|x: Seq<char>| k2.to_set().contains(x) implies k1.to_set().contains(x) by {
        assert(k2.contains(x));
        let i = choose|i: int| 0 <= i < k2.len() && k2[i] == x;
        assert(es2[i].0 == x);
        lemma_lookup_index(es2, i);
        assert(map_of(es2).dom().contains(x));
        assert(map_of(es1).dom().contains(x));
        assert(has_key(es1, x));
        let j = index_of_key(es1, x);
        assert(k1[j] == x);
        assert(k1.contains(x));
    }
    assert(k1.to_set() =~= k2.to_set());
    lemma_sorted_seq_unique(k1, k2);
    assert(es1.len() == es2.len());
    assert forall|i: int| 0 <= i < es1.len() implies es1[i] == es2[i] by {
        assert(k1[i] == es1[i].0);
        assert(k2[i] == es2[i].0);
        assert(es1[i].0 == es2[i].0);
        lemma_lookup_index(es1, i);
        lemma_lookup_index(es2, i);
        assert(map_of(es1)[es1[i].0] == es1[i].1.to_set());
        assert(map_of(es2)[es1[i].0] == es2[i].1.to_set());
        lemma_sorted_seq_unique(es1[i].1, es2[i].1);
    }
    assert(es1 =~= es2);
}

/// Inserting a value at its sorted position keeps a sequence strictly
/// sorted and extends the carried set by exactly that value.
pub proof fn lemma_sorted_insert(d: Seq<Seq<char>>, q: int, v: Seq<char>)
    requires
        strict_sorted(d),
        0 <= q <= d.len(),
        forall|j: int| 0 <= j < q ==> lex_lt(#[trigger] d[j], v),
        q < d.len() ==> lex_lt(v, d[q]),
    ensures
        strict_sorted(d.insert(q, v)),
        d.insert(q, v).to_set() == d.to_set().insert(v),
{
    let d2 = d.insert(q, v);
    d.insert_ensures(q, v);
    assert forall|i: int, j: int| 0 <= i < j < d2.len() implies lex_lt(d2[i], d2[j]) by {
        if j < q || i > q {
            let oi: int = if i < q {
                i
            } else {
                i - 1
            };
            let oj: int = if j < q {
                j
            } else {
                j - 1
            };
            assert(lex_lt(d[oi], d[oj]));
        } else if i < q && j == q {
            assert(lex_lt(d[i], v));
        } else if i < q && j > q {
            assert(lex_lt(d[i], d[j - 1]));
        } else if i == q && j > q {
            if j - 1 == q {
                assert(lex_lt(v, d[q]));
            } else {
                assert(lex_lt(d[q], d[j - 1]));
                lemma_lex_lt_trans(v, d[q], d[j - 1]);
            }
        }
    }
    assert forall|x: Seq<char>|
        #[trigger] d2.to_set().contains(x) <==> d.to_set().insert(v).contains(x) by {
        if d2.contains(x) {
            let i = choose|i: int| 0 <= i < d2.len() && d2[i] == x;
            if i == q {
            } else {
                let oi: int = if i < q {
                    i
                } else {
                    i - 1
                };
                assert(d[oi] == x);
                assert(d.contains(x));
            }
        }
        if x == v {
            assert(d2[q] == x);
            assert(d2.contains(x));
        } else if d.contains(x) {
            let i = choose|i: int| 0 <= i < d.len() && d[i] == x;
            let ni: int = if i < q {
                i
            } else {
                i + 1
            };
            assert(d2[ni] == x);
            assert(d2.contains(x));
        }
    }
    assert(d2.to_set() =~= d.to_set().insert(v));
}

/// Replacing the dependency list of one entry keeps well-formedness and
/// rebinds exactly that key in the mapping.
pub proof fn lemma_update_deps(es: Seq<(Seq<char>, Seq<Seq<char>>)>, pp: int, d2: Seq<Seq<char>>)
    requires
        entries_wf(es),
        0 <= pp < es.len(),
        strict_sorted(d2),
    ensures
        entries_wf(es.update(pp, (es[pp].0, d2))),
        map_of(es.update(pp, (es[pp].0, d2))) == map_of(es).insert(es[pp].0, d2.to_set()),
{
    let k = es[pp].0;
    let es2 = es.update(pp, (k, d2));
    assert(es2.len() == es.len());
    assert(keys_of(es2) =~= keys_of(es)) by {
        assert forall|i: int| 0 <= i < es2.len() implies keys_of(es2)[i] == keys_of(es)[i] by {
            assert(keys_of(es2)[i] == es2[i].0);
            assert(keys_of(es)[i] == es[i].0);
        }
    }
    assert forall|i: int| 0 <= i < es2.len() implies strict_sorted(#[trigger] es2[i].1) by {
        if i != pp {
            assert(es2[i].1 == es[i].1);
        }
    }
    assert(entries_wf(es2));
    assert forall|x: Seq<char>| #[trigger] has_key(es2, x) <==> has_key(es, x) by {
        if has_key(es2, x) {
            let i = choose|i: int| 0 <= i < es2.len() && (#[trigger] es2[i]).0 == x;
            assert(es[i].0 == x);
        }
        if has_key(es, x) {
            let i = choose|i: int| 0 <= i < es.len() && (#[trigger] es[i]).0 == x;
            assert(es2[i].0 == x);
        }
    }
    assert forall|x: Seq<char>| map_of(es2).dom().contains(x) implies map_of(es2)[x] == map_of(
        es,
    ).insert(k, d2.to_set())[x] by {
        let i = choose|i: int| 0 <= i < es2.len() && (#[trigger] es2[i]).0 == x;
        lemma_lookup_index(es2, i);
        if x == k {
            lemma_lookup_index(es, pp);
            assert(es2[pp].0 == k);
            lemma_lookup_index(es2, pp);
            assert(i == pp);
            assert(es2[pp].1 == d2);
        } else {
            assert(i != pp);
            assert(es[i].0 == x);
            lemma_lookup_index(es, i);
            assert(es2[i].1 == es[i].1);
        }
    }
    assert(map_of(es2) =~= map_of(es).insert(k, d2.to_set()));
}

/// The first position in a sorted list of strings that is not below `x`.
fn position_str(v: &Vec<String>, x: &str) -> (r: usize)
    requires
        strict_sorted(strs_view(v@)),
    ensures
        r <= v@.len(),
        forall|j: int| 0 <= j < r ==> lex_lt(#[trigger] strs_view(v@)[j], x@),
        r < v@.len() ==> !lex_lt(strs_view(v@)[r as int], x@),
{
    let n = v.len();
    let mut i: usize = 0;
    while i < n && str_lt(v[i].as_str(), x)
        invariant
            n == v@.len(),
            i <= n,
            forall|j: int| 0 <= j < i ==> lex_lt(#[trigger] strs_view(v@)[j], x@),
            forall|j: int| 0 <= j < n ==> #[trigger] strs_view(v@)[j] == v@[j]@,
        decreases n - i,
    {
        i += 1;
    }
    i
}

/// The one well-formed entry sequence that represents a mapping, where one
/// exists.
pub open spec fn canonical_entries(m: Map<Seq<char>, Set<Seq<char>>>) -> Seq<
    (Seq<char>, Seq<Seq<char>>),
> {
    choose|es: Seq<(Seq<char>, Seq<Seq<char>>)>| entries_wf(es) && map_of(es) == m
}

/// A well-formed graph's entries are the canonical entries of its mapping.
pub proof fn lemma_canonical_entries(g: &DepGraph)
    requires
        g.wf(),
    ensures
        canonical_entries(g.map_view()) == g@,
        entries_wf(canonical_entries(g.map_view())),
        map_of(canonical_entries(g.map_view())) == g.map_view(),
{
    assert(entries_wf(g@) && map_of(g@) == g.map_view());
    let es = canonical_entries(g.map_view());
    assert(entries_wf(es) && map_of(es) == g.map_view()) by {
        assert(exists|es2: Seq<(Seq<char>, Seq<Seq<char>>)>|
            entries_wf(es2) && map_of(es2) == g.map_view());
    }
    lemma_entries_canonical(es, g@);
}

/// One graph node: a package identifier and its dependency values.
struct GraphEntry {
    key: String,
    deps: Vec<String>,
}

/// The dependency graph built from one lockfile.
pub struct DepGraph {
    entries: Vec<GraphEntry>,
}

impl View for DepGraph {
    type V = Seq<(Seq<char>, Seq<Seq<char>>)>;

    closed spec fn view(&self) -> Seq<(Seq<char>, Seq<Seq<char>>)> {
        self.entries@.map_values(|e: GraphEntry| (e.key@, strs_view(e.deps@)))
    }
}

impl DepGraph {
    /// Entries strictly sorted by key, dependency lists strictly sorted.
    pub open spec fn wf(&self) -> bool {
        entries_wf(self@)
    }

    /// The abstract mapping this graph represents.
    pub open spec fn map_view(&self) -> Map<Seq<char>, Set<Seq<char>>> {
        map_of(self@)
    }

    proof fn lemma_view_index(&self)
        ensures
            self@.len() == self.entries@.len(),
            forall|i: int|
                0 <= i < self@.len() ==> #[trigger] self@[i] == (
                self.entries@[i].key@,
                strs_view(self.entries@[i].deps@),
                ),
    {
    }

    /// An empty graph.
    pub fn new() -> (r: DepGraph)
        ensures
            r@ == Seq::<(Seq<char>, Seq<Seq<char>>)>::empty(),
            r.wf(),
    {
        let r = DepGraph { entries: Vec::new() };
        proof {
            assert(r@ =~= Seq::<(Seq<char>, Seq<Seq<char>>)>::empty());
        }
        r
    }

    /// The number of package keys.
    pub fn len(&self) -> (r: usize)
        ensures
            r == self@.len(),
    {
        self.entries.len()
    }

    /// The key of the entry at position `i` in sorted order.
    pub fn key_at(&self, i: usize) -> (r: &String)
        requires
            i < self@.len(),
        ensures
            r@ == self@[i as int].0,
    {
        proof {
            self.lemma_view_index();
        }
        &self.entries[i].key
    }

    /// The dependency values of the entry at position `i`, in sorted order.
    pub fn deps_at(&self, i: usize) -> (r: &Vec<String>)
        requires
            i < self@.len(),
        ensures
            strs_view(r@) == self@[i as int].1,
    {
        proof {
            self.lemma_view_index();
        }
        &self.entries[i].deps
    }

    /// The first position whose key is not below `key`.
    fn position(&self, key: &str) -> (r: usize)
        requires
            self.wf(),
        ensures
            r <= self@.len(),
            forall|j: int| 0 <= j < r ==> lex_lt(#[trigger] self@[j].0, key@),
            r < self@.len() ==> !lex_lt(self@[r as int].0, key@),
    {
        proof {
            self.lemma_view_index();
        }
        let n = self.entries.len();
        let mut i: usize = 0;
        while i < n && str_lt(self.entries[i].key.as_str(), key)
            invariant
                n == self@.len(),
                n == self.entries@.len(),
                i <= n,
                forall|j: int| 0 <= j < i ==> lex_lt(#[trigger] self@[j].0, key@),
                forall|j: int|
                    0 <= j < n ==> #[trigger] self@[j] == (
                    self.entries@[j].key@,
                    strs_view(self.entries@[j].deps@),
                    ),
            decreases n - i,
        {
            i += 1;
        }
        i
    }

    /// The dependency values recorded under `key`, if the key is present.
    pub fn get(&self, key: &str) -> (r: Option<&Vec<String>>)
        requires
            self.wf(),
        ensures
            match lookup(self@, key@) {
                Some(d) => r is Some && strs_view(r->0@) == d,
                None => r is None,
            },
    {
        proof {
            self.lemma_view_index();
        }
        let p = self.position(key);
        if p < self.entries.len() && str_eq(self.entries[p].key.as_str(), key) {
            proof {
                lemma_lookup_index(self@, p as int);
            }
            Some(&self.entries[p].deps)
        } else {
            proof {
                assert forall|i: int| 0 <= i < self@.len() implies self@[i].0 != key@ by {
                    if i < p {
                        lemma_lex_lt_irrefl(key@);
                    } else {
                        // key is strictly below the key at p, hence below all later keys
                        if (p as int) < self@.len() {
                            lemma_lex_lt_connex(self@[p as int].0, key@);
                            assert(lex_lt(key@, self@[p as int].0));
                            if i > p {
                                assert(keys_of(self@)[p as int] == self@[p as int].0);
                                assert(keys_of(self@)[i] == self@[i].0);
                                assert(lex_lt(self@[p as int].0, self@[i].0));
                                lemma_lex_lt_trans(key@, self@[p as int].0, self@[i].0);
                            }
                            lemma_lex_lt_irrefl(key@);
                        }
                    }
                }
                assert(!has_key(self@, key@));
            }
            None
        }
    }

    /// Ensures `key` exists, bound to an empty dependency set if new.
    pub fn upsert(&mut self, key: &str)
        requires
            old(self).wf(),
        ensures
            final(self).wf(),
            final(self).map_view() == upsert_map(old(self).map_view(), key@),
            has_key(final(self)@, key@),
            has_key(old(self)@, key@) ==> final(self)@ == old(self)@,
            !has_key(old(self)@, key@) ==> exists|p: int|
                0 <= p <= old(self)@.len() && final(self)@ == #[trigger] old(self)@.insert(
                    p,
                    (key@, Seq::empty()),
                ),
    {
        proof {
            self.lemma_view_index();
        }
        let p = self.position(key);
        if p < self.entries.len() && str_eq(self.entries[p].key.as_str(), key) {
            proof {
                lemma_lookup_index(self@, p as int);
                assert(self.map_view() =~= upsert_map(self.map_view(), key@));
            }
        } else {
            let ghost old_es = self@;
            let ghost old_ents = self.entries@;
            let ghost pp = p as int;
            proof {
                if pp < old_es.len() {
                    lemma_lex_lt_connex(old_es[pp].0, key@);
                    assert(lex_lt(key@, old_es[pp].0));
                }
            }
            let e = GraphEntry { key: String::from_str(key), deps: Vec::new() };
            self.entries.insert(p, e);
            proof {
                let new_es = self@;
                let ghost pair = (key@, Seq::<Seq<char>>::empty());
                assert(self.entries@ == old_ents.insert(pp, e));
                assert(e.key@ == key@);
                assert(strs_view(e.deps@) =~= Seq::<Seq<char>>::empty());
                old_ents.insert_ensures(pp, e);
                old_es.insert_ensures(pp, pair);
                self.lemma_view_index();
                assert(new_es.len() == old_ents.len() + 1);
                assert(old_es.len() == old_ents.len());
                assert forall|i: int|
                    0 <= i < new_es.len() implies new_es[i] == old_es.insert(pp, pair)[i] by {
                    if i < pp {
                        assert(self.entries@[i] == old_ents[i]);
                        assert(old_es[i] == (old_ents[i].key@, strs_view(old_ents[i].deps@)));
                    } else if i == pp {
                        assert(self.entries@[i] == e);
                    } else {
                        assert(self.entries@[i] == old_ents[i - 1]);
                        assert(old_es[i - 1] == (
                            old_ents[i - 1].key@,
                            strs_view(old_ents[i - 1].deps@),
                        ));
                        assert(old_es.insert(pp, pair)[i] == old_es[i - 1]);
                    }
                }
                assert(new_es =~= old_es.insert(pp, pair));
                self.lemma_absent(old_es, pp, key@);
                self.lemma_insert_upsert(old_es, pp, key@);
            }
        }
    }

    /// After inserting a fresh key at its sorted position, the graph is
    /// well formed and represents the old mapping extended by the key.
    proof fn lemma_insert_upsert(
        &self,
        old_es: Seq<(Seq<char>, Seq<Seq<char>>)>,
        pp: int,
        k: Seq<char>,
    )
        requires
            entries_wf(old_es),
            0 <= pp <= old_es.len(),
            forall|j: int| 0 <= j < pp ==> lex_lt(#[trigger] old_es[j].0, k),
            pp < old_es.len() ==> lex_lt(k, old_es[pp].0),
            self@ == old_es.insert(pp, (k, Seq::<Seq<char>>::empty())),
            !has_key(old_es, k),
        ensures
            self.wf(),
            self.map_view() == upsert_map(map_of(old_es), k),
            has_key(self@, k),
    {
        let es = self@;
        old_es.insert_ensures(pp, (k, Seq::<Seq<char>>::empty()));
        assert(es[pp] == (k, Seq::<Seq<char>>::empty()));
        assert(has_key(es, k));
        // well-formedness
        assert forall|i: int, j: int|
            0 <= i < j < keys_of(es).len() implies lex_lt(keys_of(es)[i], keys_of(es)[j]) by {
            assert(keys_of(es)[i] == es[i].0);
            assert(keys_of(es)[j] == es[j].0);
            let ki = if i < pp {
                old_es[i].0
            } else if i == pp {
                k
            } else {
                old_es[i - 1].0
            };
            let kj = if j < pp {
                old_es[j].0
            } else if j == pp {
                k
            } else {
                old_es[j - 1].0
            };
            assert(es[i].0 == ki);
            assert(es[j].0 == kj);
            if j < pp || (i > pp) {
                let oi: int = if i < pp {
                    i
                } else {
                    i - 1
                };
                let oj: int = if j < pp {
                    j
                } else {
                    j - 1
                };
                assert(keys_of(old_es)[oi] == old_es[oi].0);
                assert(keys_of(old_es)[oj] == old_es[oj].0);
                assert(lex_lt(ki, kj));
            } else if i < pp && j == pp {
                assert(lex_lt(ki, kj));
            } else if i < pp && j > pp {
                assert(keys_of(old_es)[i] == old_es[i].0);
                assert(keys_of(old_es)[j - 1] == old_es[j - 1].0);
                assert(i < j - 1);
                assert(lex_lt(ki, kj));
            } else if i == pp && j > pp {
                if j - 1 == pp {
                    assert(pp < old_es.len());
                    assert(lex_lt(k, old_es[pp].0));
                    assert(kj == old_es[pp].0);
                } else {
                    assert(pp < old_es.len());
                    assert(keys_of(old_es)[pp] == old_es[pp].0);
                    assert(keys_of(old_es)[j - 1] == old_es[j - 1].0);
                    assert(lex_lt(old_es[pp].0, old_es[j - 1].0));
                    lemma_lex_lt_trans(k, old_es[pp].0, old_es[j - 1].0);
                }
            }
        }
        assert forall|i: int| 0 <= i < es.len() implies strict_sorted(#[trigger] es[i].1) by {
            if i < pp {
                assert(es[i].1 == old_es[i].1);
            } else if i == pp {
                assert(es[i].1 =~= Seq::<Seq<char>>::empty());
            } else {
                assert(es[i].1 == old_es[i - 1].1);
            }
        }
        assert(self.wf());
        // the mapping
        assert forall|x: Seq<char>| #[trigger]
            map_of(es).dom().contains(x) <==> upsert_map(map_of(old_es), k).dom().contains(x) by {
            if has_key(es, x) {
                let i = choose|i: int| 0 <= i < es.len() && (#[trigger] es[i]).0 == x;
                if i == pp {
                    assert(upsert_map(map_of(old_es), k).dom().contains(x));
                } else {
                    let oi = if i < pp {
                        i
                    } else {
                        i - 1
                    };
                    assert(old_es[oi].0 == x);
                    assert(has_key(old_es, x));
                }
            }
            if x == k {
                assert(has_key(es, x));
            } else if has_key(old_es, x) {
                let i = choose|i: int| 0 <= i < old_es.len() && (#[trigger] old_es[i]).0 == x;
                let ni = if i < pp {
                    i
                } else {
                    i + 1
                };
                assert(es[ni].0 == x);
                assert(has_key(es, x));
            }
        }
        assert forall|x: Seq<char>| map_of(es).dom().contains(x) implies map_of(es)[x]
            == upsert_map(map_of(old_es), k)[x] by {
            if x == k {
                lemma_lookup_index(es, pp);
                assert(map_of(es)[x] == Seq::<Seq<char>>::empty().to_set());
                assert(Seq::<Seq<char>>::empty().to_set() =~= Set::<Seq<char>>::empty());
                assert(!map_of(old_es).dom().contains(k));
            } else {
                let i = choose|i: int| 0 <= i < es.len() && (#[trigger] es[i]).0 == x;
                lemma_lookup_index(es, i);
                assert(i != pp);
                let oi = if i < pp {
                    i
                } else {
                    i - 1
                };
                assert(old_es[oi].0 == x);
                lemma_lookup_index(old_es, oi);
                assert(es[i].1 == old_es[oi].1);
            }
        }
        assert(map_of(es) =~= upsert_map(map_of(old_es), k));
    }

    /// Records dependency value `value` under `key`, creating the key if it
    /// is absent; the value sets of all other keys are untouched.
    pub fn add_dependency(&mut self, key: &str, value: &str)
        requires
            old(self).wf(),
        ensures
            final(self).wf(),
            final(self).map_view() == add_dep_map(old(self).map_view(), key@, value@),
    {
        proof {
            self.lemma_view_index();
        }
        let ghost old_es = self@;
        let ghost old_ents = self.entries@;
        let p = self.position(key);
        let ghost pp = p as int;
        if p < self.entries.len() && str_eq(self.entries[p].key.as_str(), key) {
            proof {
                lemma_lookup_index(old_es, pp);
            }
            let mut e = self.entries.remove(p);
            let ghost d = strs_view(e.deps@);
            proof {
                assert(e == old_ents[pp]);
                assert(old_es[pp] == (e.key@, d));
                assert(strict_sorted(d));
            }
            let q = position_str(&e.deps, value);
            let ghost qq = q as int;
            if q < e.deps.len() && str_eq(e.deps[q].as_str(), value) {
                // value already recorded: the graph is unchanged
                self.entries.insert(p, e);
                proof {
                    assert(self.entries@ =~= old_ents) by {
                        old_ents.remove_ensures(pp);
                        old_ents.remove(pp).insert_ensures(pp, e);
                    }
                    assert(self@ == old_es);
                    assert(d[qq] == value@);
                    assert(d.contains(value@));
                    assert(d.to_set().contains(value@));
                    assert(map_of(old_es)[key@] == d.to_set());
                    assert(map_of(old_es)[key@].insert(value@) =~= map_of(old_es)[key@]);
                    assert(map_of(old_es) =~= add_dep_map(map_of(old_es), key@, value@));
                }
            } else {
                proof {
                    assert(forall|j: int| 0 <= j < qq ==> lex_lt(#[trigger] d[j], value@));
                    if qq < d.len() {
                        assert(d[qq] == strs_view(e.deps@)[qq]);
                        lemma_lex_lt_connex(d[qq], value@);
                        assert(lex_lt(value@, d[qq]));
                    }
                }
                let ghost dv = e.deps@;
                e.deps.insert(q, String::from_str(value));
                self.entries.insert(p, e);
                proof {
                    let d2 = d.insert(qq, value@);
                    assert(strs_view(e.deps@) =~= d2) by {
                        dv.insert_ensures(qq, e.deps@[qq]);
                        d.insert_ensures(qq, value@);
                        assert(e.deps@ == dv.insert(qq, e.deps@[qq]));
                        assert(e.deps@[qq]@ == value@);
                        assert forall|i: int|
                            0 <= i < e.deps@.len() implies strs_view(e.deps@)[i] == d2[i] by {
                            assert(strs_view(e.deps@)[i] == e.deps@[i]@);
                            if i < qq {
                                assert(e.deps@[i] == dv[i]);
                                assert(d[i] == dv[i]@);
                            } else if i > qq {
                                assert(e.deps@[i] == dv[i - 1]);
                                assert(d[i - 1] == dv[i - 1]@);
                            }
                        }
                    }
                    lemma_sorted_insert(d, qq, value@);
                    assert(self@ =~= old_es.update(pp, (key@, d2))) by {
                        old_ents.remove_ensures(pp);
                        old_ents.remove(pp).insert_ensures(pp, e);
                        self.lemma_view_index();
                        assert(self.entries@.len() == old_ents.len());
                        assert forall|i: int|
                            0 <= i < self@.len() implies self@[i] == old_es.update(
                            pp,
                            (key@, d2),
                        )[i] by {
                            if i != pp {
                                assert(self.entries@[i] == old_ents[i]);
                                assert(old_es[i] == (
                                    old_ents[i].key@,
                                    strs_view(old_ents[i].deps@),
                                ));
                            } else {
                                assert(self.entries@[i] == e);
                            }
                        }
                    }
                    lemma_update_deps(old_es, pp, d2);
                    assert(map_of(old_es)[key@] == d.to_set());
                    assert(self.map_view() =~= add_dep_map(map_of(old_es), key@, value@));
                }
            }
        } else {
            proof {
                if pp < old_es.len() {
                    lemma_lex_lt_connex(old_es[pp].0, key@);
                    assert(lex_lt(key@, old_es[pp].0));
                }
                self.lemma_absent(old_es, pp, key@);
            }
            let mut deps: Vec<String> = Vec::new();
            deps.push(String::from_str(value));
            let e = GraphEntry { key: String::from_str(key), deps };
            self.entries.insert(p, e);
            proof {
                let d = seq![value@];
                assert(strs_view(e.deps@) =~= d);
                assert(strict_sorted(d));
                assert(self@ =~= old_es.insert(pp, (key@, d))) by {
                    old_ents.insert_ensures(pp, e);
                    old_es.insert_ensures(pp, (key@, d));
                    self.lemma_view_index();
                    assert forall|i: int|
                        0 <= i < self@.len() implies self@[i] == old_es.insert(pp, (key@, d))[i] by {
                        if i < pp {
                            assert(self.entries@[i] == old_ents[i]);
                            assert(old_es[i] == (old_ents[i].key@, strs_view(old_ents[i].deps@)));
                        } else if i == pp {
                            assert(self.entries@[i] == e);
                        } else {
                            assert(self.entries@[i] == old_ents[i - 1]);
                            assert(old_es[i - 1] == (
                                old_ents[i - 1].key@,
                                strs_view(old_ents[i - 1].deps@),
                            ));
                            assert(old_es.insert(pp, (key@, d))[i] == old_es[i - 1]);
                        }
                    }
                }
                self.lemma_insert_entry(old_es, pp, key@, d);
                assert forall|x: Seq<char>| #[trigger]
                    d.to_set().contains(x) <==> Set::<Seq<char>>::empty().insert(value@).contains(
                        x,
                    ) by {
                    if d.to_set().contains(x) {
                        assert(d.contains(x));
                        let i = choose|i: int| 0 <= i < d.len() && d[i] == x;
                        assert(i == 0);
                    }
                    if x == value@ {
                        assert(d[0] == x);
                        assert(d.contains(x));
                    }
                }
                assert(d.to_set() =~= Set::<Seq<char>>::empty().insert(value@));
                assert(!map_of(old_es).dom().contains(key@));
                assert(self.map_view() =~= add_dep_map(map_of(old_es), key@, value@));
            }
        }
    }

    /// After inserting a fresh key with a sorted dependency list at its
    /// sorted position, the graph is well formed and represents the old
    /// mapping extended by that binding.
    proof fn lemma_insert_entry(
        &self,
        old_es: Seq<(Seq<char>, Seq<Seq<char>>)>,
        pp: int,
        k: Seq<char>,
        d: Seq<Seq<char>>,
    )
        requires
            entries_wf(old_es),
            0 <= pp <= old_es.len(),
            forall|j: int| 0 <= j < pp ==> lex_lt(#[trigger] old_es[j].0, k),
            pp < old_es.len() ==> lex_lt(k, old_es[pp].0),
            strict_sorted(d),
            self@ == old_es.insert(pp, (k, d)),
            !has_key(old_es, k),
        ensures
            self.wf(),
            self.map_view() == map_of(old_es).insert(k, d.to_set()),
            has_key(self@, k),
    {
        let es = self@;
        old_es.insert_ensures(pp, (k, d));
        assert(es[pp] == (k, d));
        assert(has_key(es, k));
        assert forall|i: int, j: int|
            0 <= i < j < keys_of(es).len() implies lex_lt(keys_of(es)[i], keys_of(es)[j]) by {
            assert(keys_of(es)[i] == es[i].0);
            assert(keys_of(es)[j] == es[j].0);
            if j < pp || (i > pp) {
                let oi: int = if i < pp {
                    i
                } else {
                    i - 1
                };
                let oj: int = if j < pp {
                    j
                } else {
                    j - 1
                };
                assert(keys_of(old_es)[oi] == old_es[oi].0);
                assert(keys_of(old_es)[oj] == old_es[oj].0);
            } else if i < pp && j == pp {
            } else if i < pp && j > pp {
                assert(keys_of(old_es)[i] == old_es[i].0);
                assert(keys_of(old_es)[j - 1] == old_es[j - 1].0);
            } else if i == pp && j > pp {
                if j - 1 == pp {
                    assert(pp < old_es.len());
                } else {
                    assert(pp < old_es.len());
                    assert(keys_of(old_es)[pp] == old_es[pp].0);
                    assert(keys_of(old_es)[j - 1] == old_es[j - 1].0);
                    assert(lex_lt(old_es[pp].0, old_es[j - 1].0));
                    lemma_lex_lt_trans(k, old_es[pp].0, old_es[j - 1].0);
                }
            }
        }
        assert forall|i: int| 0 <= i < es.len() implies strict_sorted(#[trigger] es[i].1) by {
            if i < pp {
                assert(es[i].1 == old_es[i].1);
            } else if i == pp {
                assert(es[i].1 == d);
            } else {
                assert(es[i].1 == old_es[i - 1].1);
            }
        }
        assert(self.wf());
        assert forall|x: Seq<char>| #[trigger]
            has_key(es, x) <==> (has_key(old_es, x) || x == k) by {
            if has_key(es, x) {
                let i = choose|i: int| 0 <= i < es.len() && (#[trigger] es[i]).0 == x;
                if i != pp {
                    let oi: int = if i < pp {
                        i
                    } else {
                        i - 1
                    };
                    assert(old_es[oi].0 == x);
                    assert(has_key(old_es, x));
                }
            }
            if x == k {
                assert(has_key(es, x));
            } else if has_key(old_es, x) {
                let i = choose|i: int| 0 <= i < old_es.len() && (#[trigger] old_es[i]).0 == x;
                let ni: int = if i < pp {
                    i
                } else {
                    i + 1
                };
                assert(es[ni].0 == x);
                assert(has_key(es, x));
            }
        }
        assert forall|x: Seq<char>| map_of(es).dom().contains(x) implies map_of(es)[x] == map_of(
            old_es,
        ).insert(k, d.to_set())[x] by {
            if x == k {
                lemma_lookup_index(es, pp);
            } else {
                let i = choose|i: int| 0 <= i < es.len() && (#[trigger] es[i]).0 == x;
                lemma_lookup_index(es, i);
                assert(i != pp);
                let oi: int = if i < pp {
                    i
                } else {
                    i - 1
                };
                assert(old_es[oi].0 == x);
                lemma_lookup_index(old_es, oi);
                assert(es[i].1 == old_es[oi].1);
            }
        }
        assert(map_of(es) =~= map_of(old_es).insert(k, d.to_set()));
    }

    /// When the scan stopped without an exact match, the key is absent.
    proof fn lemma_absent(&self, es: Seq<(Seq<char>, Seq<Seq<char>>)>, pp: int, k: Seq<char>)
        requires
            entries_wf(es),
            0 <= pp <= es.len(),
            forall|j: int| 0 <= j < pp ==> lex_lt(#[trigger] es[j].0, k),
            pp < es.len() ==> lex_lt(k, es[pp].0),
        ensures
            !has_key(es, k),
    {
        assert forall|i: int| 0 <= i < es.len() implies es[i].0 != k by {
            if i < pp {
                lemma_lex_lt_irrefl(k);
            } else {
                assert(pp < es.len());
                if i > pp {
                    assert(keys_of(es)[pp] == es[pp].0);
                    assert(keys_of(es)[i] == es[i].0);
                    assert(lex_lt(es[pp].0, es[i].0));
                    lemma_lex_lt_trans(k, es[pp].0, es[i].0);
                }
                lemma_lex_lt_irrefl(k);
            }
        }
    }
}

} // verus!
