//! The structural difference between two canonical graphs.
use vstd::prelude::*;
use crate::graph::{GraphData, GraphView, LinkView, node_ids};
use crate::text::lemma_push_to_set;
use vstd::hash_map::StringHashMap;
use vstd::hash_set::{HashSetWithView, StringHashSet};

verus! {

/// Nodes and edges added in the second graph and removed from the first. An
/// edge is identified by its endpoints alone; each element appears once.
#[derive(Debug)]
pub struct GraphDelta {
    pub added_nodes: Vec<String>,
    pub removed_nodes: Vec<String>,
    pub added_edges: Vec<(String, String)>,
    pub removed_edges: Vec<(String, String)>,
}

pub ghost struct DeltaView {
    pub added_nodes: Seq<Seq<char>>,
    pub removed_nodes: Seq<Seq<char>>,
    pub added_edges: Seq<(Seq<char>, Seq<char>)>,
    pub removed_edges: Seq<(Seq<char>, Seq<char>)>,
}

pub open spec fn string_views(v: Seq<String>) -> Seq<Seq<char>> {
    v.map_values(|s: String| s@)
}

pub open spec fn pair_views(v: Seq<(String, String)>) -> Seq<(Seq<char>, Seq<char>)> {
    v.map_values(|p: (String, String)| p@)
}

impl View for GraphDelta {
    type V = DeltaView;

    open spec fn view(&self) -> DeltaView {
        DeltaView {
            added_nodes: string_views(self.added_nodes@),
            removed_nodes: string_views(self.removed_nodes@),
            added_edges: pair_views(self.added_edges@),
            removed_edges: pair_views(self.removed_edges@),
        }
    }
}

/// The edges of a graph as `(from, to)` pairs, attributes left out.
pub open spec fn edge_pairs(g: GraphView) -> Seq<(Seq<char>, Seq<char>)> {
    g.links.map_values(|l: LinkView| (l.source, l.target))
}

/// The elements of `xs` that are not in `ys`, each once, in the order of their
/// first appearance in `xs`.
pub open spec fn fresh<T>(xs: Seq<T>, ys: Seq<T>) -> Seq<T>
    decreases xs.len(),
{
    if xs.len() == 0 {
        Seq::empty()
    } else {
        let r = fresh(xs.drop_last(), ys);
        let x = xs.last();
        if ys.contains(x) || r.contains(x) {
            r
        } else {
            r.push(x)
        }
    }
}

/// The difference from `g1` to `g2`.
pub open spec fn delta_of(g1: GraphView, g2: GraphView) -> DeltaView {
    DeltaView {
        added_nodes: fresh(node_ids(g2), node_ids(g1)),
        removed_nodes: fresh(node_ids(g1), node_ids(g2)),
        added_edges: fresh(edge_pairs(g2), edge_pairs(g1)),
        removed_edges: fresh(edge_pairs(g1), edge_pairs(g2)),
    }
}

/// The node identifiers and the `(from, to)` pairs of the edges of `g`.
fn to_lists(g: &GraphData) -> (r: (Vec<String>, Vec<(String, String)>))
    ensures
        string_views(r.0@) == node_ids(g@),
        pair_views(r.1@) == edge_pairs(g@),
{
    let mut nodes: Vec<String> = Vec::new();
    let mut i: usize = 0;
    while i < g.nodes.len()
        invariant
            i <= g.nodes.len(),
            string_views(nodes@) == node_ids(g@).take(i as int),
        decreases g.nodes.len() - i,
    {
        let ghost before = nodes@;
        nodes.push(g.nodes[i].id.clone());
        assert(node_ids(g@)[i as int] == g.nodes@[i as int].id@);
        assert(string_views(nodes@) =~= string_views(before).push(g.nodes@[i as int].id@));
        assert(node_ids(g@).take(i + 1) =~= node_ids(g@).take(i as int).push(node_ids(g@)[i as int]));
        i = i + 1;
    }
    assert(node_ids(g@).take(g.nodes.len() as int) =~= node_ids(g@));
    let mut edges: Vec<(String, String)> = Vec::new();
    let mut k: usize = 0;
    while k < g.links.len()
        invariant
            k <= g.links.len(),
            pair_views(edges@) == edge_pairs(g@).take(k as int),
        decreases g.links.len() - k,
    {
        let ghost before = edges@;
        let ghost l = g.links@[k as int];
        edges.push((g.links[k].source.clone(), g.links[k].target.clone()));
        assert(edge_pairs(g@)[k as int] == (l.source@, l.target@));
        assert(pair_views(edges@) =~= pair_views(before).push((l.source@, l.target@)));
        assert(edge_pairs(g@).take(k + 1) =~= edge_pairs(g@).take(k as int).push(edge_pairs(g@)[k as int]));
        k = k + 1;
    }
    assert(edge_pairs(g@).take(g.links.len() as int) =~= edge_pairs(g@));
    (nodes, edges)
}

/// The set of the strings of `v`.
fn string_set(v: &Vec<String>) -> (r: StringHashSet)
    ensures
        r@ == string_views(v@).to_set(),
{
    let ghost sv = string_views(v@);
    let mut r = StringHashSet::new();
    let mut i: usize = 0;
    assert(sv.take(0).to_set() =~= Set::<Seq<char>>::empty());
    while i < v.len()
        invariant
            i <= v.len(),
            sv == string_views(v@),
            r@ == sv.take(i as int).to_set(),
        decreases v.len() - i,
    {
        proof {
            assert(sv.take(i + 1) =~= sv.take(i as int).push(sv[i as int]));
            lemma_push_to_set(sv.take(i as int), sv[i as int]);
        }
        r.insert(v[i].clone());
        i = i + 1;
    }
    assert(sv.take(v.len() as int) =~= sv);
    r
}

fn fresh_strings(xs: &Vec<String>, ys: &Vec<String>) -> (r: Vec<String>)
    ensures
        string_views(r@) == fresh(string_views(xs@), string_views(ys@)),
{
    let ghost xv = string_views(xs@);
    let ghost yv = string_views(ys@);
    let yset = string_set(ys);
    let mut seen = StringHashSet::new();
    let mut r: Vec<String> = Vec::new();
    let mut i: usize = 0;
    assert(xv.take(0) =~= Seq::<Seq<char>>::empty());
    assert(string_views(r@) =~= Seq::<Seq<char>>::empty());
    assert(string_views(r@).to_set() =~= Set::<Seq<char>>::empty());
    while i < xs.len()
        invariant
            i <= xs.len(),
            xv == string_views(xs@),
            yv == string_views(ys@),
            yset@ == yv.to_set(),
            seen@ == string_views(r@).to_set(),
            string_views(r@) == fresh(xv.take(i as int), yv),
        decreases xs.len() - i,
    {
        assert(xv.take(i + 1).drop_last() =~= xv.take(i as int));
        assert(xv.take(i + 1).last() == xs@[i as int]@);
        let x = &xs[i];
        if !yset.contains(x.as_str()) && !seen.contains(x.as_str()) {
            let ghost before = r@;
            r.push(x.clone());
            seen.insert(x.clone());
            assert(string_views(r@) =~= string_views(before).push(x@));
            proof {
                lemma_push_to_set(string_views(before), x@);
            }
        }
        i = i + 1;
    }
    assert(xv.take(xs.len() as int) =~= xv);
    r
}

pub open spec fn code_base() -> int {
    0x1_0000_0000_0000_0000
}

/// Distinct strings get distinct numbers, each below the number of strings.
pub open spec fn well_interned(m: Map<Seq<char>, usize>) -> bool {
    &&& m.dom().finite()
    &&& forall|a: Seq<char>| #[trigger] m.contains_key(a) ==> (m[a] as nat) < m.len()
    &&& forall|a: Seq<char>, b: Seq<char>|
        #![trigger m[a], m[b]]
        m.contains_key(a) && m.contains_key(b) && m[a] == m[b] ==> a == b
}

/// Both strings of the pair have a number.
pub open spec fn interned_pair(m: Map<Seq<char>, usize>, p: (Seq<char>, Seq<char>)) -> bool {
    m.contains_key(p.0) && m.contains_key(p.1)
}

/// One number for a pair of interned strings.
pub open spec fn pair_code(m: Map<Seq<char>, usize>, p: (Seq<char>, Seq<char>)) -> u128 {
    (m[p.0] as int * code_base() + m[p.1] as int) as u128
}

proof fn lemma_pair_code_injective(m: Map<Seq<char>, usize>, p: (Seq<char>, Seq<char>), q: (Seq<char>, Seq<char>))
    requires
        well_interned(m),
        interned_pair(m, p),
        interned_pair(m, q),
        pair_code(m, p) == pair_code(m, q),
    ensures
        p == q,
{
    let b = code_base();
    let (i1, j1, i2, j2) = (m[p.0] as int, m[p.1] as int, m[q.0] as int, m[q.1] as int);
    assert(0 <= i1 * b + j1 < 0x1_0000_0000_0000_0000_0000_0000_0000_0000) by (nonlinear_arith)
        requires 0 <= i1 < b, 0 <= j1 < b, b == 0x1_0000_0000_0000_0000;
    assert(0 <= i2 * b + j2 < 0x1_0000_0000_0000_0000_0000_0000_0000_0000) by (nonlinear_arith)
        requires 0 <= i2 < b, 0 <= j2 < b, b == 0x1_0000_0000_0000_0000;
    assert(i1 * b + j1 == i2 * b + j2);
    if i1 < i2 {
        assert(i1 * b + b <= i2 * b) by (nonlinear_arith) requires i1 < i2, b > 0;
    } else if i2 < i1 {
        assert(i2 * b + b <= i1 * b) by (nonlinear_arith) requires i2 < i1, b > 0;
    }
    assert(i1 == i2 && j1 == j2);
}

/// Gives `s` a number unless it has one.
fn intern(ids: &mut StringHashMap<usize>, s: &String)
    requires
        well_interned(old(ids)@),
    ensures
        well_interned(final(ids)@),
        final(ids)@.contains_key(s@),
        forall|a: Seq<char>| #[trigger] old(ids)@.contains_key(a) ==> final(ids)@.contains_key(a)
            && final(ids)@[a] == old(ids)@[a],
{
    if !ids.contains_key(s.as_str()) {
        let n: usize = ids.len();
        ids.insert(s.clone(), n);
        assert(final(ids)@.dom() =~= old(ids)@.dom().insert(s@));
    }
}

/// Gives every string of the pairs of `v` a number.
fn intern_all(ids: &mut StringHashMap<usize>, v: &Vec<(String, String)>)
    requires
        well_interned(old(ids)@),
    ensures
        well_interned(final(ids)@),
        forall|k: int| 0 <= k < v.len() ==> interned_pair(final(ids)@, #[trigger] pair_views(v@)[k]),
        forall|a: Seq<char>| #[trigger] old(ids)@.contains_key(a) ==> final(ids)@.contains_key(a)
            && final(ids)@[a] == old(ids)@[a],
{
    let mut i: usize = 0;
    while i < v.len()
        invariant
            i <= v.len(),
            well_interned(ids@),
            forall|k: int| 0 <= k < i ==> interned_pair(ids@, #[trigger] pair_views(v@)[k]),
            forall|a: Seq<char>| #[trigger] old(ids)@.contains_key(a) ==> ids@.contains_key(a)
                && ids@[a] == old(ids)@[a],
        decreases v.len() - i,
    {
        intern(ids, &v[i].0);
        intern(ids, &v[i].1);
        assert(pair_views(v@)[i as int] == v@[i as int]@);
        i = i + 1;
    }
}

fn code_exec(ids: &StringHashMap<usize>, p: &(String, String)) -> (r: u128)
    requires
        well_interned(ids@),
        interned_pair(ids@, p@),
    ensures
        r == pair_code(ids@, p@),
{
    let i: usize = *ids.get(p.0.as_str()).unwrap();
    let j: usize = *ids.get(p.1.as_str()).unwrap();
    assert((i as int) * code_base() + (j as int) < 0x1_0000_0000_0000_0000_0000_0000_0000_0000) by (nonlinear_arith)
        requires 0 <= i < code_base(), 0 <= j < code_base(), code_base() == 0x1_0000_0000_0000_0000;
    (i as u128) * 0x1_0000_0000_0000_0000u128 + (j as u128)
}

pub open spec fn codes(m: Map<Seq<char>, usize>, v: Seq<(Seq<char>, Seq<char>)>) -> Seq<u128> {
    v.map_values(|p: (Seq<char>, Seq<char>)| pair_code(m, p))
}

/// Among interned pairs, `v` holds `p` exactly when its codes hold the code of `p`.
proof fn lemma_codes_contain(m: Map<Seq<char>, usize>, v: Seq<(Seq<char>, Seq<char>)>, p: (Seq<char>, Seq<char>))
    requires
        well_interned(m),
        interned_pair(m, p),
        forall|k: int| 0 <= k < v.len() ==> interned_pair(m, #[trigger] v[k]),
    ensures
        codes(m, v).to_set().contains(pair_code(m, p)) == v.contains(p),
{
    if codes(m, v).contains(pair_code(m, p)) {
        let k = choose|k: int| 0 <= k < codes(m, v).len() && codes(m, v)[k] == pair_code(m, p);
        lemma_pair_code_injective(m, v[k], p);
        assert(v[k] == p);
    }
    if v.contains(p) {
        let k = choose|k: int| 0 <= k < v.len() && v[k] == p;
        assert(codes(m, v)[k] == pair_code(m, p));
    }
}

/// The set of the codes of the pairs of `v`.
fn code_set(ids: &StringHashMap<usize>, v: &Vec<(String, String)>) -> (r: HashSetWithView<u128>)
    requires
        well_interned(ids@),
        forall|k: int| 0 <= k < v.len() ==> interned_pair(ids@, #[trigger] pair_views(v@)[k]),
    ensures
        r@ == codes(ids@, pair_views(v@)).to_set(),
{
    broadcast use vstd::std_specs::hash::group_hash_axioms;
    let ghost cv = codes(ids@, pair_views(v@));
    let mut r: HashSetWithView<u128> = HashSetWithView::new();
    let mut i: usize = 0;
    assert(cv.take(0).to_set() =~= Set::<u128>::empty());
    while i < v.len()
        invariant
            i <= v.len(),
            well_interned(ids@),
            forall|k: int| 0 <= k < v.len() ==> interned_pair(ids@, #[trigger] pair_views(v@)[k]),
            cv == codes(ids@, pair_views(v@)),
            r@ == cv.take(i as int).to_set(),
        decreases v.len() - i,
    {
        assert(pair_views(v@)[i as int] == v@[i as int]@);
        let c: u128 = code_exec(ids, &v[i]);
        proof {
            assert(cv.take(i + 1) =~= cv.take(i as int).push(cv[i as int]));
            lemma_push_to_set(cv.take(i as int), cv[i as int]);
        }
        r.insert(c);
        i = i + 1;
    }
    assert(cv.take(v.len() as int) =~= cv);
    r
}

fn fresh_pairs(xs: &Vec<(String, String)>, ys: &Vec<(String, String)>) -> (r: Vec<(String, String)>)
    ensures
        pair_views(r@) == fresh(pair_views(xs@), pair_views(ys@)),
{
    broadcast use vstd::std_specs::hash::group_hash_axioms;
    let ghost xv = pair_views(xs@);
    let ghost yv = pair_views(ys@);
    let mut ids: StringHashMap<usize> = StringHashMap::new();
    assert(ids@.dom() =~= Set::<Seq<char>>::empty());
    intern_all(&mut ids, xs);
    intern_all(&mut ids, ys);
    let ghost m = ids@;
    assert forall|k: int| 0 <= k < xv.len() implies interned_pair(m, #[trigger] xv[k]) by {}
    let yset = code_set(&ids, ys);
    let mut seen: HashSetWithView<u128> = HashSetWithView::new();
    let mut r: Vec<(String, String)> = Vec::new();
    let mut i: usize = 0;
    assert(xv.take(0) =~= Seq::<(Seq<char>, Seq<char>)>::empty());
    assert(pair_views(r@) =~= Seq::<(Seq<char>, Seq<char>)>::empty());
    assert(codes(m, pair_views(r@)).to_set() =~= Set::<u128>::empty());
    while i < xs.len()
        invariant
            i <= xs.len(),
            ids@ == m,
            well_interned(m),
            xv == pair_views(xs@),
            yv == pair_views(ys@),
            forall|k: int| 0 <= k < xv.len() ==> interned_pair(m, #[trigger] xv[k]),
            forall|k: int| 0 <= k < yv.len() ==> interned_pair(m, #[trigger] yv[k]),
            yset@ == codes(m, yv).to_set(),
            forall|k: int| 0 <= k < r@.len() ==> interned_pair(m, #[trigger] pair_views(r@)[k]),
            seen@ == codes(m, pair_views(r@)).to_set(),
            pair_views(r@) == fresh(xv.take(i as int), yv),
        decreases xs.len() - i,
    {
        assert(xv.take(i + 1).drop_last() =~= xv.take(i as int));
        assert(xv.take(i + 1).last() == xs@[i as int]@);
        let x = &xs[i];
        assert(xv[i as int] == x@);
        let c: u128 = code_exec(&ids, x);
        proof {
            lemma_codes_contain(m, yv, x@);
            lemma_codes_contain(m, pair_views(r@), x@);
        }
        if !yset.contains(&c) && !seen.contains(&c) {
            let ghost before = r@;
            r.push((x.0.clone(), x.1.clone()));
            seen.insert(c);
            assert(pair_views(r@) =~= pair_views(before).push(x@));
            assert(codes(m, pair_views(r@)) =~= codes(m, pair_views(before)).push(c));
            proof {
                lemma_push_to_set(codes(m, pair_views(before)), c);
            }
        }
        i = i + 1;
    }
    assert(xv.take(xs.len() as int) =~= xv);
    r
}

/// The difference between two canonical graphs: the nodes and `(from, to)`
/// edge pairs of `g2` missing from `g1` (added), and those of `g1` missing from
/// `g2` (removed). Each list holds every such element once, in the order of
/// its first appearance in the graph it comes from. Membership is decided
/// with hash sets, so the work grows linearly with the sizes of the graphs.
pub fn compute_delta(g1: &GraphData, g2: &GraphData) -> (r: GraphDelta)
    ensures
        r@ == delta_of(g1@, g2@),
{
    let (nodes1, edges1) = to_lists(g1);
    let (nodes2, edges2) = to_lists(g2);
    GraphDelta {
        added_nodes: fresh_strings(&nodes2, &nodes1),
        removed_nodes: fresh_strings(&nodes1, &nodes2),
        added_edges: fresh_pairs(&edges2, &edges1),
        removed_edges: fresh_pairs(&edges1, &edges2),
    }
}

/// What `fresh` holds: each element of `xs` that `ys` lacks, and nothing else,
/// with no element twice.
pub proof fn lemma_fresh_is_difference<T>(xs: Seq<T>, ys: Seq<T>)
    ensures
        fresh(xs, ys).no_duplicates(),
        forall|x: T| #[trigger] fresh(xs, ys).contains(x) <==> (xs.contains(x) && !ys.contains(x)),
    decreases xs.len(),
{
    if xs.len() > 0 {
        let init = xs.drop_last();
        lemma_fresh_is_difference(init, ys);
        let r = fresh(init, ys);
        assert forall|x: T| #[trigger] xs.contains(x) <==> (init.contains(x) || x == xs.last()) by {
            if xs.contains(x) {
                let i = choose|i: int| 0 <= i < xs.len() && xs[i] == x;
                if i < xs.len() - 1 {
                    assert(init[i] == x);
                }
            }
            if init.contains(x) {
                let i = choose|i: int| 0 <= i < init.len() && init[i] == x;
                assert(xs[i] == x);
            }
            if x == xs.last() {
                assert(xs[xs.len() - 1] == x);
            }
        }
        if !(ys.contains(xs.last()) || r.contains(xs.last())) {
            let x = xs.last();
            assert forall|y: T| #[trigger] r.push(x).contains(y) <==> (r.contains(y) || y == x) by {
                if r.push(x).contains(y) {
                    let i = choose|i: int| 0 <= i < r.push(x).len() && r.push(x)[i] == y;
                    if i < r.len() {
                        assert(r[i] == y);
                    }
                }
                if r.contains(y) {
                    let i = choose|i: int| 0 <= i < r.len() && r[i] == y;
                    assert(r.push(x)[i] == y);
                }
                if y == x {
                    assert(r.push(x)[r.len() as int] == y);
                }
            }
            assert forall|i: int, j: int| 0 <= i < j < r.push(x).len() implies r.push(x)[i] != r.push(x)[j] by {
                if j == r.len() {
                    assert(r[i] == r.push(x)[i]);
                    if r[i] == x {
                        assert(r.contains(x));
                    }
                } else {
                    assert(r[i] == r.push(x)[i] && r[j] == r.push(x)[j]);
                }
            }
        }
    }
}

/// When every element of `xs` is in `ys`, nothing of `xs` is fresh.
proof fn lemma_fresh_of_covered<T>(xs: Seq<T>, ys: Seq<T>)
    requires
        forall|i: int| 0 <= i < xs.len() ==> ys.contains(#[trigger] xs[i]),
    ensures
        fresh(xs, ys) == Seq::<T>::empty(),
    decreases xs.len(),
{
    if xs.len() > 0 {
        assert forall|i: int| 0 <= i < xs.drop_last().len() implies ys.contains(
            #[trigger] xs.drop_last()[i],
        ) by {
            assert(xs.drop_last()[i] == xs[i]);
        }
        lemma_fresh_of_covered(xs.drop_last(), ys);
        assert(ys.contains(xs[xs.len() - 1]));
    }
}

/// The difference between a graph and itself is empty.
pub proof fn lemma_delta_of_self(g: GraphView)
    ensures
        delta_of(g, g).added_nodes.len() == 0,
        delta_of(g, g).removed_nodes.len() == 0,
        delta_of(g, g).added_edges.len() == 0,
        delta_of(g, g).removed_edges.len() == 0,
{
    let n = node_ids(g);
    let e = edge_pairs(g);
    assert forall|i: int| 0 <= i < n.len() implies n.contains(#[trigger] n[i]) by {}
    assert forall|i: int| 0 <= i < e.len() implies e.contains(#[trigger] e[i]) by {}
    lemma_fresh_of_covered(n, n);
    lemma_fresh_of_covered(e, e);
}

/// Swapping the two graphs swaps what was added with what was removed.
pub proof fn lemma_delta_swap(g1: GraphView, g2: GraphView)
    ensures
        delta_of(g1, g2).added_nodes == delta_of(g2, g1).removed_nodes,
        delta_of(g1, g2).removed_nodes == delta_of(g2, g1).added_nodes,
        delta_of(g1, g2).added_edges == delta_of(g2, g1).removed_edges,
        delta_of(g1, g2).removed_edges == delta_of(g2, g1).added_edges,
{
}

} // verus!
