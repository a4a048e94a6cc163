//! The canonical graph model, and the walk of a syntax tree that builds it.
use vstd::prelude::*;
use crate::parser::{Attr, DotGraph, Stmt, StmtView, attr_views, group_views, stmt_views, text_views};
use crate::text::{copy_text, lemma_push_to_set, string_of};
use vstd::hash_set::StringHashSet;

verus! {

/// A node of the canonical graph; `name` is always the same as `id`.
#[derive(Debug)]
pub struct GraphNode {
    pub id: String,
    pub name: String,
}

/// An edge of the canonical graph: its endpoints, its resolved attributes
/// (each key once, with the last value given for it), and the value of its
/// `label` attribute, if it has one.
#[derive(Debug)]
pub struct GraphLink {
    pub source: String,
    pub target: String,
    pub label: Option<String>,
    pub attributes: Vec<(String, String)>,
}

/// The canonical graph: nodes without duplicates, in order of first mention,
/// and edges in the order of the text, parallel edges kept.
#[derive(Debug)]
pub struct GraphData {
    pub nodes: Vec<GraphNode>,
    pub links: Vec<GraphLink>,
}

pub ghost struct NodeView {
    pub id: Seq<char>,
    pub name: Seq<char>,
}

pub ghost struct LinkView {
    pub source: Seq<char>,
    pub target: Seq<char>,
    pub label: Option<Seq<char>>,
    pub attributes: Seq<(Seq<char>, Seq<char>)>,
}

pub ghost struct GraphView {
    pub nodes: Seq<NodeView>,
    pub links: Seq<LinkView>,
}

impl View for GraphNode {
    type V = NodeView;

    open spec fn view(&self) -> NodeView {
        NodeView { id: self.id@, name: self.name@ }
    }
}

impl View for GraphLink {
    type V = LinkView;

    open spec fn view(&self) -> LinkView {
        LinkView {
            source: self.source@,
            target: self.target@,
            label: match self.label {
                Some(l) => Some(l@),
                None => None,
            },
            attributes: self.attributes@.map_values(|a: (String, String)| a@),
        }
    }
}

impl View for GraphData {
    type V = GraphView;

    open spec fn view(&self) -> GraphView {
        GraphView {
            nodes: self.nodes@.map_values(|n: GraphNode| n@),
            links: self.links@.map_values(|l: GraphLink| l@),
        }
    }
}

/// The identifiers of the nodes.
pub open spec fn node_ids(g: GraphView) -> Seq<Seq<char>> {
    g.nodes.map_values(|n: NodeView| n.id)
}

pub open spec fn label_key() -> Seq<char> {
    seq!['l', 'a', 'b', 'e', 'l']
}

/// The value last given to `key` in the list `a`.
pub open spec fn last_value(a: Seq<(Seq<char>, Seq<char>)>, key: Seq<char>) -> Option<Seq<char>>
    decreases a.len(),
{
    if a.len() == 0 {
        None
    } else if a.last().0 == key {
        Some(a.last().1)
    } else {
        last_value(a.drop_last(), key)
    }
}

/// The index of `key` in the resolved list `r`, or its length.
pub open spec fn key_index(r: Seq<(Seq<char>, Seq<char>)>, key: Seq<char>) -> nat
    decreases r.len(),
{
    if r.len() == 0 {
        0
    } else if key_index(r.drop_last(), key) < r.len() - 1 {
        key_index(r.drop_last(), key)
    } else if r.last().0 == key {
        (r.len() - 1) as nat
    } else {
        r.len()
    }
}

/// An attribute list resolved into a mapping: each key once, in order of first
/// appearance, with the last value given for it.
pub open spec fn resolve(a: Seq<(Seq<char>, Seq<char>)>) -> Seq<(Seq<char>, Seq<char>)>
    decreases a.len(),
{
    if a.len() == 0 {
        Seq::empty()
    } else {
        let r = resolve(a.drop_last());
        let (k, v) = a.last();
        let i = key_index(r, k);
        if i < r.len() {
            r.update(i as int, (k, v))
        } else {
            r.push((k, v))
        }
    }
}

/// The known nodes with `id` added at the end, unless already there.
pub open spec fn add_node(nodes: Seq<Seq<char>>, id: Seq<char>) -> Seq<Seq<char>> {
    if nodes.contains(id) {
        nodes
    } else {
        nodes.push(id)
    }
}

/// The known nodes with each of `ids` added in turn.
pub open spec fn add_nodes(nodes: Seq<Seq<char>>, ids: Seq<Seq<char>>) -> Seq<Seq<char>>
    decreases ids.len(),
{
    if ids.len() == 0 {
        nodes
    } else {
        add_node(add_nodes(nodes, ids.drop_last()), ids.last())
    }
}

/// The edge from `from` to `to` that carries the attribute list `a`.
pub open spec fn link_of(from: Seq<char>, to: Seq<char>, a: Seq<(Seq<char>, Seq<char>)>) -> LinkView {
    LinkView { source: from, target: to, label: last_value(a, label_key()), attributes: resolve(a) }
}

/// The known nodes with the nodes of each group of `gs` added in turn.
pub open spec fn add_groups(nodes: Seq<Seq<char>>, gs: Seq<Seq<Seq<char>>>) -> Seq<Seq<char>>
    decreases gs.len(),
{
    if gs.len() == 0 {
        nodes
    } else {
        add_nodes(add_groups(nodes, gs.drop_last()), gs.last())
    }
}

/// An edge from each node of `g` to each node of `h`, each carrying `a`.
pub open spec fn product_links(
    g: Seq<Seq<char>>,
    h: Seq<Seq<char>>,
    a: Seq<(Seq<char>, Seq<char>)>,
) -> Seq<LinkView>
    decreases g.len(),
{
    if g.len() == 0 {
        Seq::empty()
    } else {
        product_links(g.drop_last(), h, a) + h.map_values(|to: Seq<char>| link_of(g.last(), to, a))
    }
}

/// The edges of the chain of endpoint groups `gs`: those between each
/// consecutive pair of groups, each carrying `a`.
pub open spec fn chain_links(gs: Seq<Seq<Seq<char>>>, a: Seq<(Seq<char>, Seq<char>)>) -> Seq<LinkView>
    decreases gs.len(),
{
    if gs.len() < 2 {
        Seq::empty()
    } else {
        chain_links(gs.drop_last(), a) + product_links(gs[gs.len() - 2], gs.last(), a)
    }
}

/// The chain whose endpoints are the identifiers `ids`, one each.
pub open spec fn id_chain(ids: Seq<Seq<char>>) -> Seq<Seq<Seq<char>>> {
    ids.map_values(|id: Seq<char>| seq![id])
}

/// A chain of `n` identifiers gives `n - 1` edges, one for each consecutive
/// pair, in order, each carrying the chain's attribute list.
pub proof fn lemma_chain_of_ids(ids: Seq<Seq<char>>, a: Seq<(Seq<char>, Seq<char>)>)
    requires
        ids.len() >= 1,
    ensures
        chain_links(id_chain(ids), a) == Seq::new(
            (ids.len() - 1) as nat,
            |i: int| link_of(ids[i], ids[i + 1], a),
        ),
    decreases ids.len(),
{
    let gs = id_chain(ids);
    let n = ids.len();
    if n == 1 {
        assert(chain_links(gs, a) =~= Seq::new(0, |i: int| link_of(ids[i], ids[i + 1], a)));
    } else {
        let init = ids.drop_last();
        lemma_chain_of_ids(init, a);
        assert(gs.drop_last() =~= id_chain(init));
        let x = ids[n - 2];
        let y = ids[n - 1];
        assert(gs[n - 2] == seq![x]);
        assert(gs.last() == seq![y]);
        assert(seq![x].drop_last() =~= Seq::<Seq<char>>::empty());
        assert(product_links(Seq::<Seq<char>>::empty(), seq![y], a) =~= Seq::<LinkView>::empty());
        let row = seq![y].map_values(|to: Seq<char>| link_of(x, to, a));
        assert(row =~= seq![link_of(x, y, a)]);
        assert(product_links(seq![x], seq![y], a) == product_links(seq![x].drop_last(), seq![y], a) + row);
        assert(product_links(seq![x], seq![y], a) =~= seq![link_of(x, y, a)]);
        assert(chain_links(gs, a) =~= Seq::new((n - 1) as nat, |i: int| link_of(ids[i], ids[i + 1], a)));
    }
}

/// What the statements `s` declare, in order: the node identifiers and the edges.
pub open spec fn canon(s: Seq<StmtView>) -> (Seq<Seq<char>>, Seq<LinkView>)
    decreases s.len(),
{
    if s.len() == 0 {
        (Seq::empty(), Seq::empty())
    } else {
        let (nodes, links) = canon(s.drop_last());
        match s.last() {
            StmtView::Node { id, attrs } => (add_node(nodes, id), links),
            StmtView::Edge { endpoints, attrs } => (
                add_groups(nodes, endpoints),
                links + chain_links(endpoints, attrs),
            ),
            _ => (nodes, links),
        }
    }
}

/// The canonical graph of the statements `s`: the nodes in order of first
/// mention, each once (an edge statement stands before the bodies of the
/// subgraphs among its endpoints, so this is their order in the text), and
/// the edges in the order of the statements that declare them.
pub open spec fn canonical_view(s: Seq<StmtView>) -> GraphView {
    let (nodes, links) = canon(s);
    GraphView { nodes: nodes.map_values(|id: Seq<char>| NodeView { id, name: id }), links }
}

pub proof fn lemma_node_ids_of_canonical(ids: Seq<Seq<char>>)
    ensures
        ids.map_values(|id: Seq<char>| NodeView { id, name: id }).map_values(|n: NodeView| n.id) =~= ids,
{
}

/// Compares two character slices.
pub(crate) fn chars_eq(a: &[char], b: &[char]) -> (r: bool)
    ensures
        r == (a@ == b@),
{
    if a.len() != b.len() {
        return false;
    }
    let mut i: usize = 0;
    while i < a.len()
        invariant
            a@.len() == b@.len(),
            i <= a.len(),
            forall|j: int| 0 <= j < i ==> a@[j] == b@[j],
        decreases a.len() - i,
    {
        if a[i] != b[i] {
            return false;
        }
        i = i + 1;
    }
    assert(a@ =~= b@);
    true
}

/// The value last given to `label` in the attribute list.
fn label_exec(attrs: &Vec<Attr>) -> (r: Option<String>)
    ensures
        match r {
            Some(s) => last_value(attr_views(attrs@), label_key()) == Some(s@),
            None => last_value(attr_views(attrs@), label_key()) is None,
        },
{
    let key = ['l', 'a', 'b', 'e', 'l'];
    assert(key@ =~= label_key());
    assert(attr_views(attrs@).take(attrs.len() as int) =~= attr_views(attrs@));
    let mut i: usize = attrs.len();
    while i > 0
        invariant
            i <= attrs.len(),
            key@ == label_key(),
            last_value(attr_views(attrs@), label_key()) == last_value(
                attr_views(attrs@).take(i as int),
                label_key(),
            ),
        decreases i,
    {
        let ghost a = attr_views(attrs@).take(i as int);
        assert(a.drop_last() =~= attr_views(attrs@).take(i - 1));
        if chars_eq(attrs[i - 1].key.as_slice(), &key) {
            return Some(string_of(attrs[i - 1].value.as_slice()));
        }
        i = i - 1;
    }
    None
}

/// The attribute list resolved into a mapping.
fn resolve_exec(attrs: &Vec<Attr>) -> (r: Vec<(String, String)>)
    ensures
        r@.map_values(|a: (String, String)| a@) == resolve(attr_views(attrs@)),
{
    let mut r: Vec<(String, String)> = Vec::new();
    let mut i: usize = 0;
    while i < attrs.len()
        invariant
            i <= attrs.len(),
            r@.map_values(|a: (String, String)| a@) == resolve(attr_views(attrs@).take(i as int)),
        decreases attrs.len() - i,
    {
        let ghost a = attr_views(attrs@).take(i + 1);
        let ghost rv = resolve(attr_views(attrs@).take(i as int));
        assert(a.drop_last() =~= attr_views(attrs@).take(i as int));
        let k = string_of(attrs[i].key.as_slice());
        let v = string_of(attrs[i].value.as_slice());
        let mut j: usize = 0;
        while j < r.len() && r[j].0 != k
            invariant
                j <= r.len(),
                rv == r@.map_values(|a: (String, String)| a@),
                forall|x: int| 0 <= x < j ==> rv[x].0 != k@,
            decreases r.len() - j,
        {
            j = j + 1;
        }
        proof {
            lemma_key_index(rv, k@);
        }
        assert(a.last() == (k@, v@));
        if j < r.len() {
            assert(rv[j as int].0 == k@);
            assert(key_index(rv, k@) == j);
            r.set(j, (k, v));
        } else {
            assert(key_index(rv, k@) == rv.len());
            r.push((k, v));
        }
        assert(r@.map_values(|a: (String, String)| a@) =~= resolve(a));
        i = i + 1;
    }
    assert(attr_views(attrs@).take(attrs.len() as int) =~= attr_views(attrs@));
    r
}

/// `key_index` finds the first entry with the key, or gives the length.
proof fn lemma_key_index(r: Seq<(Seq<char>, Seq<char>)>, key: Seq<char>)
    ensures
        key_index(r, key) <= r.len(),
        key_index(r, key) < r.len() ==> r[key_index(r, key) as int].0 == key,
        forall|x: int| 0 <= x < key_index(r, key) ==> r[x].0 != key,
    decreases r.len(),
{
    if r.len() > 0 {
        lemma_key_index(r.drop_last(), key);
        assert forall|x: int| 0 <= x < r.len() - 1 implies r.drop_last()[x] == r[x] by {}
    }
}

pub open spec fn node_views(n: Seq<GraphNode>) -> Seq<NodeView> {
    n.map_values(|x: GraphNode| x@)
}

pub open spec fn link_views(l: Seq<GraphLink>) -> Seq<LinkView> {
    l.map_values(|x: GraphLink| x@)
}

/// The nodes with the identifiers `ids`, each named after itself.
pub open spec fn named(ids: Seq<Seq<char>>) -> Seq<NodeView> {
    ids.map_values(|id: Seq<char>| NodeView { id, name: id })
}

fn push_id(ids: &mut Vec<Vec<char>>, id: Vec<char>)
    ensures
        text_views(final(ids)@) == text_views(old(ids)@).push(id@),
{
    ids.push(id);
    assert(text_views(ids@) =~= text_views(old(ids)@).push(id@));
}

/// Adds `id` to the known nodes unless it is there already; `known` holds
/// the same identifiers as a hash set, so the test takes constant time.
fn add_id(ids: &mut Vec<Vec<char>>, known: &mut StringHashSet, id: &Vec<char>)
    requires
        old(known)@ == text_views(old(ids)@).to_set(),
    ensures
        text_views(final(ids)@) == add_node(text_views(old(ids)@), id@),
        final(known)@ == text_views(final(ids)@).to_set(),
{
    let s = string_of(id.as_slice());
    if known.contains(s.as_str()) {
        return;
    }
    let ghost v = text_views(ids@);
    push_id(ids, copy_text(id));
    known.insert(s);
    proof {
        lemma_push_to_set(v, id@);
    }
}

/// Adds each node of the group `g` in turn.
fn add_ids(ids: &mut Vec<Vec<char>>, known: &mut StringHashSet, g: &Vec<Vec<char>>)
    requires
        old(known)@ == text_views(old(ids)@).to_set(),
    ensures
        text_views(final(ids)@) == add_nodes(text_views(old(ids)@), text_views(g@)),
        final(known)@ == text_views(final(ids)@).to_set(),
{
    let ghost gv = text_views(g@);
    let mut k: usize = 0;
    assert(gv.take(0) =~= Seq::<Seq<char>>::empty());
    while k < g.len()
        invariant
            k <= g.len(),
            gv == text_views(g@),
            text_views(ids@) == add_nodes(text_views(old(ids)@), gv.take(k as int)),
            known@ == text_views(ids@).to_set(),
        decreases g.len() - k,
    {
        assert(gv.take(k + 1).drop_last() =~= gv.take(k as int));
        add_id(ids, known, &g[k]);
        k = k + 1;
    }
    assert(gv.take(g.len() as int) =~= gv);
}

/// The nodes that the statements of `stmts` from index `from` on mention, in
/// order of first mention.
pub(crate) fn mentioned_from(stmts: &Vec<Stmt>, from: usize) -> (r: Vec<Vec<char>>)
    requires
        from <= stmts.len(),
    ensures
        text_views(r@) == canon(stmt_views(stmts@).subrange(from as int, stmts.len() as int)).0,
{
    let ghost sv = stmt_views(stmts@);
    let mut ids: Vec<Vec<char>> = Vec::new();
    let mut known = StringHashSet::new();
    let mut i: usize = from;
    assert(sv.subrange(from as int, from as int) =~= Seq::<StmtView>::empty());
    assert(text_views(ids@) =~= Seq::<Seq<char>>::empty());
    assert(text_views(ids@).to_set() =~= Set::<Seq<char>>::empty());
    while i < stmts.len()
        invariant
            from <= i <= stmts.len(),
            sv == stmt_views(stmts@),
            known@ == text_views(ids@).to_set(),
            text_views(ids@) == canon(sv.subrange(from as int, i as int)).0,
        decreases stmts.len() - i,
    {
        assert(sv.subrange(from as int, i + 1).drop_last() =~= sv.subrange(from as int, i as int));
        assert(sv.subrange(from as int, i + 1).last() == stmts@[i as int]@);
        match &stmts[i] {
            Stmt::Node { id, attrs } => {
                add_id(&mut ids, &mut known, id);
            },
            Stmt::Edge { endpoints, attrs } => {
                let ghost gv = group_views(endpoints@);
                let ghost base = text_views(ids@);
                let mut k: usize = 0;
                assert(gv.take(0) =~= Seq::<Seq<Seq<char>>>::empty());
                while k < endpoints.len()
                    invariant
                        k <= endpoints.len(),
                        gv == group_views(endpoints@),
                        text_views(ids@) == add_groups(base, gv.take(k as int)),
                        known@ == text_views(ids@).to_set(),
                    decreases endpoints.len() - k,
                {
                    assert(gv.take(k + 1).drop_last() =~= gv.take(k as int));
                    add_ids(&mut ids, &mut known, &endpoints[k]);
                    k = k + 1;
                }
                assert(gv.take(endpoints.len() as int) =~= gv);
            },
            _ => {},
        }
        i = i + 1;
    }
    ids
}

/// Appends an edge from each node of `g` to each node of `h`.
/// A copy of an optional string.
fn clone_label(l: &Option<String>) -> (r: Option<String>)
    ensures
        opt_str(r) == opt_str(*l),
{
    match l {
        Some(s) => Some(s.clone()),
        None => None,
    }
}

pub open spec fn opt_str(o: Option<String>) -> Option<Seq<char>> {
    match o {
        Some(s) => Some(s@),
        None => None,
    }
}

pub open spec fn pairs_view(v: Seq<(String, String)>) -> Seq<(Seq<char>, Seq<char>)> {
    v.map_values(|a: (String, String)| a@)
}

/// A copy of a resolved attribute list.
fn clone_pairs(v: &Vec<(String, String)>) -> (r: Vec<(String, String)>)
    ensures
        pairs_view(r@) == pairs_view(v@),
{
    let mut r: Vec<(String, String)> = Vec::new();
    let mut k: usize = 0;
    while k < v.len()
        invariant
            k <= v.len(),
            pairs_view(r@) == pairs_view(v@).take(k as int),
        decreases v.len() - k,
    {
        let ghost before = r@;
        r.push((v[k].0.clone(), v[k].1.clone()));
        assert(pairs_view(r@) =~= pairs_view(before).push(v@[k as int]@));
        assert(pairs_view(v@).take(k + 1) =~= pairs_view(v@).take(k as int).push(pairs_view(v@)[k as int]));
        k = k + 1;
    }
    assert(pairs_view(v@).take(v.len() as int) =~= pairs_view(v@));
    r
}

fn add_product(
    links: &mut Vec<GraphLink>,
    g: &Vec<Vec<char>>,
    h: &Vec<Vec<char>>,
    attrs: &Vec<Attr>,
    label: &Option<String>,
    resolved: &Vec<(String, String)>,
)
    requires
        opt_str(*label) == last_value(attr_views(attrs@), label_key()),
        pairs_view(resolved@) == resolve(attr_views(attrs@)),
    ensures
        link_views(final(links)@) == link_views(old(links)@) + product_links(
            text_views(g@),
            text_views(h@),
            attr_views(attrs@),
        ),
{
    let ghost gv = text_views(g@);
    let ghost hv = text_views(h@);
    let ghost av = attr_views(attrs@);
    let ghost base = link_views(links@);
    let mut i: usize = 0;
    assert(gv.take(0) =~= Seq::<Seq<char>>::empty());
    assert(base + product_links(gv.take(0), hv, av) =~= base);
    while i < g.len()
        invariant
            i <= g.len(),
            gv == text_views(g@),
            hv == text_views(h@),
            av == attr_views(attrs@),
            link_views(links@) == base + product_links(gv.take(i as int), hv, av),
            opt_str(*label) == last_value(av, label_key()),
            pairs_view(resolved@) == resolve(av),
        decreases g.len() - i,
    {
        let ghost row = hv.map_values(|to: Seq<char>| link_of(gv[i as int], to, av));
        let ghost start = link_views(links@);
        let mut j: usize = 0;
        assert(start + row.take(0) =~= start);
        while j < h.len()
            invariant
                i < g.len(),
                j <= h.len(),
                gv == text_views(g@),
                hv == text_views(h@),
                av == attr_views(attrs@),
                row == hv.map_values(|to: Seq<char>| link_of(gv[i as int], to, av)),
                link_views(links@) == start + row.take(j as int),
                opt_str(*label) == last_value(av, label_key()),
                pairs_view(resolved@) == resolve(av),
            decreases h.len() - j,
        {
            let l = GraphLink {
                source: string_of(g[i].as_slice()),
                target: string_of(h[j].as_slice()),
                label: clone_label(label),
                attributes: clone_pairs(resolved),
            };
            let ghost before = links@;
            links.push(l);
            assert(row[j as int] == l@);
            assert(link_views(links@) =~= link_views(before).push(l@));
            assert(start + row.take(j + 1) =~= (start + row.take(j as int)).push(row[j as int]));
            j = j + 1;
        }
        assert(row.take(h.len() as int) =~= row);
        assert(gv.take(i + 1).drop_last() =~= gv.take(i as int));
        assert(gv.take(i + 1).last() == gv[i as int]);
        assert(base + product_links(gv.take(i + 1), hv, av) =~= base + product_links(gv.take(i as int), hv, av) + row);
        i = i + 1;
    }
    assert(gv.take(g.len() as int) =~= gv);
}

/// Appends the edges of a chain of endpoint groups.
fn add_links(links: &mut Vec<GraphLink>, gs: &Vec<Vec<Vec<char>>>, attrs: &Vec<Attr>)
    ensures
        link_views(final(links)@) == link_views(old(links)@) + chain_links(
            group_views(gs@),
            attr_views(attrs@),
        ),
{
    let ghost gv = group_views(gs@);
    let ghost av = attr_views(attrs@);
    let ghost base = link_views(links@);
    if gs.len() < 2 {
        assert(base + chain_links(gv, av) =~= base);
        return;
    }
    let label = label_exec(attrs);
    let resolved = resolve_exec(attrs);
    assert(opt_str(label) == last_value(av, label_key()));
    assert(pairs_view(resolved@) =~= resolve(av));
    let mut k: usize = 1;
    assert(chain_links(gv.take(1), av) =~= Seq::<LinkView>::empty());
    assert(base + chain_links(gv.take(1), av) =~= base);
    while k < gs.len()
        invariant
            1 <= k <= gs.len(),
            gv == group_views(gs@),
            av == attr_views(attrs@),
            link_views(links@) == base + chain_links(gv.take(k as int), av),
            opt_str(label) == last_value(av, label_key()),
            pairs_view(resolved@) == resolve(av),
        decreases gs.len() - k,
    {
        let ghost before = link_views(links@);
        add_product(links, &gs[k - 1], &gs[k], attrs, &label, &resolved);
        let ghost c = gv.take(k + 1);
        assert(c.drop_last() =~= gv.take(k as int));
        assert(c[c.len() - 2] == gv[k - 1] && c.last() == gv[k as int]);
        assert(base + chain_links(c, av) =~= before + product_links(gv[k - 1], gv[k as int], av));
        k = k + 1;
    }
    assert(gv.take(gs.len() as int) =~= gv);
}

/// Builds the canonical graph of a syntax tree. Subgraphs are flattened into
/// the statements around them and attribute statements have no effect. A node
/// statement adds its node unless it is known already; an edge chain adds the
/// nodes of its endpoints the same way, then, for each consecutive pair of
/// endpoints, an edge from each node of the first to each node of the second,
/// each carrying the chain's attribute list.
pub fn canonicalize(g: &DotGraph) -> (r: GraphData)
    ensures
        r@ == canonical_view(g@.stmts),
{
    let ghost sv = stmt_views(g.stmts@);
    assert(sv.subrange(0, g.stmts.len() as int) =~= sv);
    let ids = mentioned_from(&g.stmts, 0);
    let ghost iv = text_views(ids@);
    let mut nodes: Vec<GraphNode> = Vec::new();
    let mut n: usize = 0;
    assert(node_views(nodes@) =~= named(iv.take(0)));
    while n < ids.len()
        invariant
            n <= ids.len(),
            iv == text_views(ids@),
            node_views(nodes@) == named(iv.take(n as int)),
        decreases ids.len() - n,
    {
        let ghost before = nodes@;
        nodes.push(GraphNode { id: string_of(ids[n].as_slice()), name: string_of(ids[n].as_slice()) });
        let ghost nv = NodeView { id: iv[n as int], name: iv[n as int] };
        assert(node_views(nodes@) =~= node_views(before).push(nv));
        assert(iv.take(n + 1) =~= iv.take(n as int).push(iv[n as int]));
        assert(named(iv.take(n + 1)) =~= named(iv.take(n as int)).push(nv));
        n = n + 1;
    }
    assert(iv.take(ids.len() as int) =~= iv);
    let mut links: Vec<GraphLink> = Vec::new();
    let mut i: usize = 0;
    assert(sv.take(0) =~= Seq::<StmtView>::empty());
    assert(link_views(links@) =~= Seq::<LinkView>::empty());
    while i < g.stmts.len()
        invariant
            i <= g.stmts.len(),
            sv == stmt_views(g.stmts@),
            link_views(links@) == canon(sv.take(i as int)).1,
        decreases g.stmts.len() - i,
    {
        assert(sv.take(i + 1).drop_last() =~= sv.take(i as int));
        assert(sv.take(i + 1).last() == g.stmts@[i as int]@);
        match &g.stmts[i] {
            Stmt::Edge { endpoints, attrs } => {
                add_links(&mut links, endpoints, attrs);
            },
            _ => {},
        }
        i = i + 1;
    }
    assert(sv.take(g.stmts.len() as int) =~= sv);
    GraphData { nodes, links }
}

proof fn lemma_add_node(nodes: Seq<Seq<char>>, id: Seq<char>)
    ensures
        forall|x: Seq<char>| nodes.contains(x) ==> #[trigger] add_node(nodes, id).contains(x),
        add_node(nodes, id).contains(id),
        nodes.no_duplicates() ==> add_node(nodes, id).no_duplicates(),
{
    if !nodes.contains(id) {
        let r = nodes.push(id);
        assert forall|x: Seq<char>| nodes.contains(x) implies #[trigger] r.contains(x) by {
            let i = choose|i: int| 0 <= i < nodes.len() && nodes[i] == x;
            assert(r[i] == x);
        }
        assert(r[nodes.len() as int] == id);
        if nodes.no_duplicates() {
            assert forall|i: int, j: int| 0 <= i < j < r.len() implies r[i] != r[j] by {
                if j == nodes.len() {
                    assert(r[i] == nodes[i]);
                } else {
                    assert(r[i] == nodes[i] && r[j] == nodes[j]);
                }
            }
        }
    }
}

proof fn lemma_add_nodes(nodes: Seq<Seq<char>>, ids: Seq<Seq<char>>)
    ensures
        forall|x: Seq<char>| nodes.contains(x) ==> #[trigger] add_nodes(nodes, ids).contains(x),
        forall|i: int| 0 <= i < ids.len() ==> add_nodes(nodes, ids).contains(#[trigger] ids[i]),
        nodes.no_duplicates() ==> add_nodes(nodes, ids).no_duplicates(),
    decreases ids.len(),
{
    if ids.len() > 0 {
        let init = ids.drop_last();
        lemma_add_nodes(nodes, init);
        lemma_add_node(add_nodes(nodes, init), ids.last());
        assert forall|i: int| 0 <= i < ids.len() implies add_nodes(nodes, ids).contains(
            #[trigger] ids[i],
        ) by {
            if i < ids.len() - 1 {
                assert(init[i] == ids[i]);
            }
        }
    }
}

proof fn lemma_add_groups(nodes: Seq<Seq<char>>, gs: Seq<Seq<Seq<char>>>)
    ensures
        forall|x: Seq<char>| nodes.contains(x) ==> #[trigger] add_groups(nodes, gs).contains(x),
        forall|k: int, j: int|
            0 <= k < gs.len() && 0 <= j < gs[k].len() ==> add_groups(nodes, gs).contains(
                #[trigger] gs[k][j],
            ),
        nodes.no_duplicates() ==> add_groups(nodes, gs).no_duplicates(),
    decreases gs.len(),
{
    if gs.len() > 0 {
        let init = gs.drop_last();
        lemma_add_groups(nodes, init);
        lemma_add_nodes(add_groups(nodes, init), gs.last());
        assert forall|k: int, j: int| 0 <= k < gs.len() && 0 <= j < gs[k].len() implies add_groups(
            nodes,
            gs,
        ).contains(#[trigger] gs[k][j]) by {
            if k < gs.len() - 1 {
                assert(init[k] == gs[k]);
            } else {
                assert(gs.last()[j] == gs[k][j]);
            }
        }
    }
}

proof fn lemma_product_links(
    n: Seq<Seq<char>>,
    g: Seq<Seq<char>>,
    h: Seq<Seq<char>>,
    a: Seq<(Seq<char>, Seq<char>)>,
)
    requires
        forall|j: int| 0 <= j < g.len() ==> n.contains(#[trigger] g[j]),
        forall|j: int| 0 <= j < h.len() ==> n.contains(#[trigger] h[j]),
    ensures
        forall|i: int|
            0 <= i < product_links(g, h, a).len() ==> n.contains(
                #[trigger] product_links(g, h, a)[i].source,
            ) && n.contains(product_links(g, h, a)[i].target),
    decreases g.len(),
{
    if g.len() > 0 {
        let init = g.drop_last();
        assert forall|j: int| 0 <= j < init.len() implies n.contains(#[trigger] init[j]) by {
            assert(init[j] == g[j]);
        }
        lemma_product_links(n, init, h, a);
        let p0 = product_links(init, h, a);
        let row = h.map_values(|to: Seq<char>| link_of(g.last(), to, a));
        assert(n.contains(g[g.len() - 1]));
        assert forall|i: int| 0 <= i < (p0 + row).len() implies n.contains(
            #[trigger] (p0 + row)[i].source,
        ) && n.contains((p0 + row)[i].target) by {
            if i < p0.len() {
                assert((p0 + row)[i] == p0[i]);
            } else {
                assert((p0 + row)[i] == row[i - p0.len()]);
                assert(n.contains(h[i - p0.len()]));
            }
        }
    }
}

proof fn lemma_chain_links(n: Seq<Seq<char>>, gs: Seq<Seq<Seq<char>>>, a: Seq<(Seq<char>, Seq<char>)>)
    requires
        forall|k: int, j: int| 0 <= k < gs.len() && 0 <= j < gs[k].len() ==> n.contains(#[trigger] gs[k][j]),
    ensures
        forall|i: int|
            0 <= i < chain_links(gs, a).len() ==> n.contains(#[trigger] chain_links(gs, a)[i].source)
                && n.contains(chain_links(gs, a)[i].target),
    decreases gs.len(),
{
    if gs.len() >= 2 {
        let init = gs.drop_last();
        assert forall|k: int, j: int| 0 <= k < init.len() && 0 <= j < init[k].len() implies n.contains(
            #[trigger] init[k][j],
        ) by {
            assert(init[k] == gs[k]);
        }
        lemma_chain_links(n, init, a);
        let g = gs[gs.len() - 2];
        let h = gs.last();
        assert forall|j: int| 0 <= j < g.len() implies n.contains(#[trigger] g[j]) by {
            assert(gs[gs.len() - 2][j] == g[j]);
        }
        assert forall|j: int| 0 <= j < h.len() implies n.contains(#[trigger] h[j]) by {
            assert(gs[gs.len() - 1][j] == h[j]);
        }
        lemma_product_links(n, g, h, a);
        let c0 = chain_links(init, a);
        let pr = product_links(g, h, a);
        assert forall|i: int| 0 <= i < (c0 + pr).len() implies n.contains(#[trigger] (c0 + pr)[i].source)
            && n.contains((c0 + pr)[i].target) by {
            if i < c0.len() {
                assert((c0 + pr)[i] == c0[i]);
            } else {
                assert((c0 + pr)[i] == pr[i - c0.len()]);
            }
        }
    }
}

/// The statements' nodes are distinct and hold every endpoint of their edges.
pub proof fn lemma_canon_closed(s: Seq<StmtView>)
    ensures
        canon(s).0.no_duplicates(),
        forall|i: int|
            0 <= i < canon(s).1.len() ==> canon(s).0.contains(#[trigger] canon(s).1[i].source)
                && canon(s).0.contains(canon(s).1[i].target),
    decreases s.len(),
{
    if s.len() > 0 {
        lemma_canon_closed(s.drop_last());
        let (nodes, links) = canon(s.drop_last());
        match s.last() {
            StmtView::Node { id, attrs } => {
                lemma_add_node(nodes, id);
            },
            StmtView::Edge { endpoints, attrs } => {
                lemma_add_groups(nodes, endpoints);
                let n2 = add_groups(nodes, endpoints);
                lemma_chain_links(n2, endpoints, attrs);
                let c = chain_links(endpoints, attrs);
                let all = links + c;
                assert forall|i: int| 0 <= i < all.len() implies n2.contains(#[trigger] all[i].source)
                    && n2.contains(all[i].target) by {
                    if i < links.len() {
                        assert(all[i] == links[i]);
                    } else {
                        assert(all[i] == c[i - links.len()]);
                    }
                }
            },
            _ => {},
        }
    }
}

} // verus!
