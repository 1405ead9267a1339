//! Polygons arranged by nesting: every polygon lies inside its parent, and
//! each is marked with whether the inside of it is to be cut.
use vstd::prelude::*;
use vstd::multiset::Multiset;

verus! {

/// A polygon of the tree with the polygons that lie directly inside it.
#[derive(Debug)]
pub struct PolygonTreeItem<T> {
    polygon: T,
    inner_polygons: Vec<Box<PolygonTreeItem<T>>>,
    can_cut_inside: bool,
    id: usize,
}

/// Polygons arranged by nesting, with a count of the polygons added so far
/// by which the next one is numbered.
#[derive(Debug)]
pub struct PolygonTree<T> {
    heads: Vec<Box<PolygonTreeItem<T>>>,
    can_cut_inside: bool,
    total_count_added: usize,
}

/// The abstract form of a polygon of the tree.
pub struct PolygonNode<T> {
    pub polygon: T,
    pub id: usize,
    pub can_cut_inside: bool,
    pub children: Seq<PolygonNode<T>>,
}

/// The ids of a polygon and of every polygon inside it.
pub open spec fn node_ids<T>(n: PolygonNode<T>) -> Multiset<usize>
    decreases n, 1nat,
{
    nodes_ids(n.children).insert(n.id)
}

/// The ids of the polygons of a list of trees.
pub open spec fn nodes_ids<T>(s: Seq<PolygonNode<T>>) -> Multiset<usize>
    decreases s, 0nat,
{
    if s.len() == 0 {
        Multiset::empty()
    } else {
        nodes_ids(s.subrange(0, s.len() - 1)).add(node_ids(s[s.len() - 1]))
    }
}

/// The number of polygons of a tree.
pub open spec fn node_size<T>(n: PolygonNode<T>) -> nat
    decreases n, 1nat,
{
    nodes_size(n.children) + 1
}

/// The number of polygons of a list of trees.
pub open spec fn nodes_size<T>(s: Seq<PolygonNode<T>>) -> nat
    decreases s, 0nat,
{
    if s.len() == 0 {
        0
    } else {
        nodes_size(s.subrange(0, s.len() - 1)) + node_size(s[s.len() - 1])
    }
}

/// Every polygon of the tree is marked opposite to its parent.
pub open spec fn alternating<T>(n: PolygonNode<T>) -> bool
    decreases n,
{
    forall|k: int|
        0 <= k < n.children.len() ==> (#[trigger] n.children[k]).can_cut_inside != n.can_cut_inside
            && alternating(n.children[k])
}

/// `contains[id]` is set.
pub open spec fn contains_at(contains: Seq<bool>, id: usize) -> bool {
    (id as int) < contains.len() && contains[id as int]
}

/// The tree `n` with `new` placed inside it, when `contains` marks `n` as
/// containing it: inside the first of its children that contains it, or
/// after its children when none does. `None` when `n` does not contain it.
pub open spec fn inserted<T>(n: PolygonNode<T>, new: PolygonNode<T>, contains: Seq<bool>) -> Option<PolygonNode<T>>
    decreases n, 1nat,
{
    if !contains_at(contains, n.id) {
        None
    } else {
        Some(PolygonNode { children: inserted_among(n.children, new, contains), ..n })
    }
}

/// The trees `s` with `new` placed inside the first of them that contains
/// it, or after them when none does.
pub open spec fn inserted_among<T>(s: Seq<PolygonNode<T>>, new: PolygonNode<T>, contains: Seq<bool>) -> Seq<PolygonNode<T>>
    decreases s, 0nat,
{
    if s.len() == 0 {
        seq![new]
    } else {
        match inserted(s[0], new, contains) {
            Some(m) => s.update(0, m),
            None => seq![s[0]] + inserted_among(s.subrange(1, s.len() as int), new, contains),
        }
    }
}

/// Every id in `ids` is below `bound`.
pub open spec fn ids_below(ids: Multiset<usize>, bound: int) -> bool {
    forall|id: usize| ids.count(id) > 0 ==> (id as int) < bound
}

/// The trees of a list, as values.
pub closed spec fn forest<T>(s: Seq<Box<PolygonTreeItem<T>>>) -> Seq<PolygonNode<T>> {
    Seq::new(s.len(), |k: int| (*s[k]).node())
}

impl<T> PolygonTreeItem<T> {
    /// The polygon and those inside it, as a tree of values.
    pub closed spec fn node(self) -> PolygonNode<T>
        decreases self,
    {
        PolygonNode {
            polygon: self.polygon,
            id: self.id,
            can_cut_inside: self.can_cut_inside,
            children: Seq::new(
                self.inner_polygons@.len(),
                |k: int|
                    if 0 <= k < self.inner_polygons@.len() {
                        (*self.inner_polygons@[k]).node()
                    } else {
                        arbitrary()
                    },
            ),
        }
    }

    proof fn lemma_node(self)
        ensures
            self.node().children == forest(self.inner_polygons@),
            self.node().id == self.id,
            self.node().can_cut_inside == self.can_cut_inside,
            self.node().polygon == self.polygon,
    {
        assert(self.node().children =~= forest(self.inner_polygons@));
    }
}

proof fn lemma_forest_index<T>(s: Seq<Box<PolygonTreeItem<T>>>)
    ensures
        forest(s).len() == s.len(),
        forall|k: int| 0 <= k < s.len() ==> #[trigger] forest(s)[k] == (*s[k]).node(),
{
}

/// Ids and sizes add up over concatenation.
proof fn lemma_nodes_concat<T>(a: Seq<PolygonNode<T>>, b: Seq<PolygonNode<T>>)
    ensures
        nodes_ids(a + b) == nodes_ids(a).add(nodes_ids(b)),
        nodes_size(a + b) == nodes_size(a) + nodes_size(b),
    decreases b.len(),
{
    if b.len() == 0 {
        assert(a + b =~= a);
    } else {
        let b0 = b.subrange(0, b.len() - 1);
        lemma_nodes_concat(a, b0);
        assert((a + b).subrange(0, (a + b).len() - 1) =~= a + b0);
        assert((a + b)[(a + b).len() - 1] == b[b.len() - 1]);
    }
}

proof fn lemma_nodes_single<T>(n: PolygonNode<T>)
    ensures
        nodes_ids(seq![n]) == node_ids(n),
        nodes_size(seq![n]) == node_size(n),
{
    let e = seq![n].subrange(0, 0);
    assert(e =~= Seq::<PolygonNode<T>>::empty());
    assert(nodes_ids(e) == Multiset::<usize>::empty());
    assert(nodes_size(e) == 0);
    assert(Multiset::<usize>::empty().add(node_ids(n)) =~= node_ids(n));
}

/// Placing a polygon adds its ids, and only them.
pub proof fn lemma_inserted_ids<T>(n: PolygonNode<T>, new: PolygonNode<T>, contains: Seq<bool>)
    ensures
        inserted(n, new, contains) matches Some(m) ==> node_ids(m) == node_ids(n).add(node_ids(new)) && m.id
            == n.id && m.can_cut_inside == n.can_cut_inside && m.polygon == n.polygon,
    decreases n, 1nat,
{
    if contains_at(contains, n.id) {
        lemma_inserted_among_ids(n.children, new, contains);
    }
}

/// Placing a polygon among trees adds its ids, and only them.
pub proof fn lemma_inserted_among_ids<T>(s: Seq<PolygonNode<T>>, new: PolygonNode<T>, contains: Seq<bool>)
    ensures
        nodes_ids(inserted_among(s, new, contains)) == nodes_ids(s).add(node_ids(new)),
    decreases s, 0nat,
{
    if s.len() == 0 {
        lemma_nodes_single(new);
        assert(nodes_ids(s) =~= Multiset::empty());
    } else {
        let rest = s.subrange(1, s.len() as int);
        lemma_nodes_concat(seq![s[0]], rest);
        lemma_nodes_single(s[0]);
        assert(s =~= seq![s[0]] + rest);
        lemma_inserted_ids(s[0], new, contains);
        match inserted(s[0], new, contains) {
            Some(m) => {
                assert(s.update(0, m) =~= seq![m] + rest);
                lemma_nodes_concat(seq![m], rest);
                lemma_nodes_single(m);
            },
            None => {
                lemma_inserted_among_ids(rest, new, contains);
                lemma_nodes_concat(seq![s[0]], inserted_among(rest, new, contains));
            },
        }
    }
}

/// How removing the polygons marked like their parent splits the ids of the
/// tree `c`, whose parent is marked `cut`: the ids that stay, the ids removed,
/// and the ids removed below a polygon that stays.
pub open spec fn node_split<T>(c: PolygonNode<T>, cut: bool) -> (Multiset<usize>, Multiset<usize>, Multiset<usize>)
    decreases c, 1nat,
{
    if c.can_cut_inside == cut {
        let (k, d, r) = nodes_split(c.children, cut);
        (k, d.insert(c.id), r)
    } else {
        let (k, d, _r) = nodes_split(c.children, c.can_cut_inside);
        (k.insert(c.id), d, d)
    }
}

/// `node_split` summed over a list of trees whose parent is marked `cut`.
pub open spec fn nodes_split<T>(s: Seq<PolygonNode<T>>, cut: bool) -> (Multiset<usize>, Multiset<usize>, Multiset<usize>)
    decreases s, 0nat,
{
    if s.len() == 0 {
        (Multiset::empty(), Multiset::empty(), Multiset::empty())
    } else {
        let (k0, d0, r0) = nodes_split(s.subrange(0, s.len() - 1), cut);
        let (k1, d1, r1) = node_split(s[s.len() - 1], cut);
        (k0.add(k1), d0.add(d1), r0.add(r1))
    }
}

proof fn lemma_split_concat<T>(a: Seq<PolygonNode<T>>, b: Seq<PolygonNode<T>>, cut: bool)
    ensures
        nodes_split(a + b, cut).0 == nodes_split(a, cut).0.add(nodes_split(b, cut).0),
        nodes_split(a + b, cut).1 == nodes_split(a, cut).1.add(nodes_split(b, cut).1),
        nodes_split(a + b, cut).2 == nodes_split(a, cut).2.add(nodes_split(b, cut).2),
    decreases b.len(),
{
    if b.len() == 0 {
        assert(a + b =~= a);
        assert(nodes_split(a, cut).0.add(Multiset::empty()) =~= nodes_split(a, cut).0);
        assert(nodes_split(a, cut).1.add(Multiset::empty()) =~= nodes_split(a, cut).1);
        assert(nodes_split(a, cut).2.add(Multiset::empty()) =~= nodes_split(a, cut).2);
    } else {
        let b0 = b.subrange(0, b.len() - 1);
        lemma_split_concat(a, b0, cut);
        assert((a + b).subrange(0, (a + b).len() - 1) =~= a + b0);
        assert((a + b)[(a + b).len() - 1] == b[b.len() - 1]);
        let (ka, da, ra) = nodes_split(a, cut);
        let (kb, db, rb) = nodes_split(b0, cut);
        let (kl, dl, rl) = node_split(b[b.len() - 1], cut);
        assert(ka.add(kb).add(kl) =~= ka.add(kb.add(kl)));
        assert(da.add(db).add(dl) =~= da.add(db.add(dl)));
        assert(ra.add(rb).add(rl) =~= ra.add(rb.add(rl)));
    }
}

proof fn lemma_split_single<T>(n: PolygonNode<T>, cut: bool)
    ensures
        nodes_split(seq![n], cut) == node_split(n, cut),
{
    let e = seq![n].subrange(0, 0);
    assert(e =~= Seq::<PolygonNode<T>>::empty());
    assert(nodes_split(e, cut) == (Multiset::<usize>::empty(), Multiset::<usize>::empty(), Multiset::<usize>::empty()));
    let (k, d, r) = node_split(n, cut);
    assert(Multiset::<usize>::empty().add(k) =~= k);
    assert(Multiset::<usize>::empty().add(d) =~= d);
    assert(Multiset::<usize>::empty().add(r) =~= r);
}

/// In a tree whose polygons alternate, under a parent marked the other way,
/// every id stays.
proof fn lemma_split_alternating<T>(c: PolygonNode<T>, cut: bool)
    requires
        alternating(c),
        c.can_cut_inside != cut,
    ensures
        node_split(c, cut) == (node_ids(c), Multiset::<usize>::empty(), Multiset::<usize>::empty()),
    decreases c, 1nat,
{
    lemma_split_alternating_all(c.children, c.can_cut_inside);
}

proof fn lemma_split_alternating_all<T>(s: Seq<PolygonNode<T>>, cut: bool)
    requires
        forall|k: int| 0 <= k < s.len() ==> (#[trigger] s[k]).can_cut_inside != cut && alternating(s[k]),
    ensures
        nodes_split(s, cut) == (nodes_ids(s), Multiset::<usize>::empty(), Multiset::<usize>::empty()),
    decreases s, 0nat,
{
    if s.len() > 0 {
        let s0 = s.subrange(0, s.len() - 1);
        assert forall|k: int| 0 <= k < s0.len() implies (#[trigger] s0[k]).can_cut_inside != cut && alternating(s0[k]) by {
            assert(s0[k] == s[k]);
        }
        lemma_split_alternating_all(s0, cut);
        lemma_split_alternating(s[s.len() - 1], cut);
        assert(Multiset::<usize>::empty().add(Multiset::<usize>::empty()) =~= Multiset::<usize>::empty());
    }
}

/// Each tree of a list is no bigger than the list.
proof fn lemma_child_size<T>(s: Seq<PolygonNode<T>>, k: int)
    requires
        0 <= k < s.len(),
    ensures
        node_size(s[k]) <= nodes_size(s),
{
    let a = s.subrange(0, k);
    let b = s.subrange(k + 1, s.len() as int);
    assert(s =~= a + seq![s[k]] + b);
    lemma_nodes_concat(a + seq![s[k]], b);
    lemma_nodes_concat(a, seq![s[k]]);
    lemma_nodes_single(s[k]);
}

/// When none of the first `i` trees contains the new polygon, placing it
/// leaves them as they are.
proof fn lemma_inserted_among_prefix<T>(s: Seq<PolygonNode<T>>, new: PolygonNode<T>, contains: Seq<bool>, i: int)
    requires
        0 <= i <= s.len(),
        forall|k: int| 0 <= k < i ==> inserted(#[trigger] s[k], new, contains) is None,
    ensures
        inserted_among(s, new, contains) == s.subrange(0, i) + inserted_among(s.subrange(i, s.len() as int), new, contains),
    decreases i,
{
    if i == 0 {
        assert(s.subrange(0, 0) + inserted_among(s.subrange(0, s.len() as int), new, contains) =~= inserted_among(s, new, contains)) by {
            assert(s.subrange(0, s.len() as int) =~= s);
        }
    } else {
        let rest = s.subrange(1, s.len() as int);
        assert(inserted(s[0], new, contains) is None);
        assert forall|k: int| 0 <= k < i - 1 implies inserted(#[trigger] rest[k], new, contains) is None by {
            assert(rest[k] == s[k + 1]);
        }
        lemma_inserted_among_prefix(rest, new, contains, i - 1);
        assert(rest.subrange(i - 1, rest.len() as int) =~= s.subrange(i, s.len() as int));
        assert(seq![s[0]] + (rest.subrange(0, i - 1) + inserted_among(s.subrange(i, s.len() as int), new, contains))
            =~= s.subrange(0, i) + inserted_among(s.subrange(i, s.len() as int), new, contains));
    }
}

impl<T> PolygonTreeItem<T> {
    /// A polygon with nothing inside it yet, numbered 0 until it is added to
    /// a tree.
    pub fn from(polygon: T, can_cut_inside: bool) -> (r: Self)
        ensures
            r.node() == (PolygonNode { polygon, id: 0, can_cut_inside, children: Seq::empty() }),
    {
        let r = PolygonTreeItem { polygon, inner_polygons: Vec::new(), can_cut_inside, id: 0 };
        proof {
            r.lemma_node();
            assert(forest(r.inner_polygons@) =~= Seq::<PolygonNode<T>>::empty());
        }
        r
    }

    /// Places `polygon` inside this polygon when `contains` marks this
    /// polygon, by its id, as containing it: inside the first polygon within
    /// that contains it, or directly inside this one. Hands `polygon` back
    /// when this polygon does not contain it.
    fn add_polygon_if_inside(&mut self, polygon: PolygonTreeItem<T>, contains: &Vec<bool>) -> (r: Option<PolygonTreeItem<T>>)
        ensures
            match inserted(old(self).node(), polygon.node(), contains@) {
                Some(m) => r is None && final(self).node() == m,
                None => r == Some(polygon) && final(self).node() == old(self).node(),
            },
        decreases node_size(old(self).node()),
    {
        proof {
            self.lemma_node();
        }
        if self.id >= contains.len() || !contains[self.id] {
            return Some(polygon);
        }
        let ghost p0 = polygon.node();
        let ghost s0 = forest(self.inner_polygons@);
        let ghost self0 = *self;
        proof {
            assert(self0.node() == old(self).node());
            assert(node_size(self0.node()) == nodes_size(s0) + 1);
        }
        let mut item = polygon;
        let mut i: usize = 0;
        while i < self.inner_polygons.len()
            invariant
                i <= self.inner_polygons@.len(),
                forest(self.inner_polygons@) == s0,
                s0 == self0.node().children,
                self0.node() == old(self).node(),
                contains_at(contains@, self0.id),
                self.id == self0.id && self.can_cut_inside == self0.can_cut_inside && self.polygon == self0.polygon,
                item.node() == p0,
                p0 == polygon.node(),
                node_size(self0.node()) == nodes_size(s0) + 1,
                forall|k: int| 0 <= k < i ==> inserted(#[trigger] s0[k], p0, contains@) is None,
            decreases self.inner_polygons@.len() - i,
        {
            proof {
                lemma_forest_index(self.inner_polygons@);
                lemma_child_size(s0, i as int);
                assert((*self.inner_polygons@[i as int]).node() == s0[i as int]);
                assert(node_size((*self.inner_polygons@[i as int]).node()) < node_size(old(self).node()));
            }
            let res = self.inner_polygons[i].add_polygon_if_inside(item, contains);
            match res {
                None => {
                    proof {
                        lemma_forest_index(self.inner_polygons@);
                        lemma_inserted_among_prefix(s0, p0, contains@, i as int);
                        let m = inserted(s0[i as int], p0, contains@).unwrap();
                        assert(forest(self.inner_polygons@) =~= s0.update(i as int, m));
                        let sub = s0.subrange(i as int, s0.len() as int);
                        assert(sub[0] == s0[i as int]);
                        assert(inserted_among(sub, p0, contains@) == sub.update(0, m));
                        assert(s0.subrange(0, i as int) + sub.update(0, m) =~= s0.update(i as int, m));
                        assert(inserted_among(s0, p0, contains@) == s0.update(i as int, m));
                        self.lemma_node();
                        assert(self.node().children == inserted_among(s0, p0, contains@));
                    }
                    return None;
                },
                Some(p) => {
                    item = p;
                },
            }
            proof {
                lemma_forest_index(self.inner_polygons@);
                assert(forest(self.inner_polygons@) =~= s0);
            }
            i = i + 1;
        }
        let ghost before = self.inner_polygons@;
        self.inner_polygons.push(Box::new(item));
        proof {
            lemma_inserted_among_prefix(s0, p0, contains@, s0.len() as int);
            assert(s0.subrange(s0.len() as int, s0.len() as int) =~= Seq::<PolygonNode<T>>::empty());
            assert(s0.subrange(0, s0.len() as int) =~= s0);
            lemma_forest_index(self.inner_polygons@);
            assert(forest(self.inner_polygons@) =~= s0 + seq![p0]);
            self.lemma_node();
        }
        None
    }

    /// Takes out every polygon inside this one that is marked like the
    /// polygon it lies in, moving the polygons inside it up in its place, and
    /// appends the ids of the polygons taken out to `ids`. Afterwards every
    /// polygon of the tree is marked opposite to its parent.
    #[verifier::rlimit(60)]
    fn remove_inner_of_same_cut(&mut self, ids: &mut Vec<usize>)
        ensures
            final(self).node().id == old(self).node().id,
            final(self).node().can_cut_inside == old(self).node().can_cut_inside,
            final(self).node().polygon == old(self).node().polygon,
            alternating(final(self).node()),
            node_ids(final(self).node()) == nodes_split(
                old(self).node().children,
                old(self).node().can_cut_inside,
            ).0.insert(old(self).node().id),
            final(ids)@.len() >= old(ids)@.len(),
            final(ids)@.subrange(0, old(ids)@.len() as int) == old(ids)@,
            final(ids)@.subrange(old(ids)@.len() as int, final(ids)@.len() as int).to_multiset() == nodes_split(
                old(self).node().children,
                old(self).node().can_cut_inside,
            ).1,
            node_size(final(self).node()) <= node_size(old(self).node()),
            final(self).node() == pruned(old(self).node()).0,
            final(ids)@ == old(ids)@ + pruned(old(self).node()).1,
        decreases node_size(old(self).node()),
    {
        broadcast use vstd::seq_lib::group_to_multiset_ensures;

        proof {
            self.lemma_node();
        }
        let ghost self0 = *self;
        let ghost s0 = forest(self.inner_polygons@);
        let ghost ids0 = ids@;
        let ghost c = self.can_cut_inside;
        proof {
            assert(ids@.subrange(ids0.len() as int, ids@.len() as int) =~= Seq::<usize>::empty());
            assert(ids@.subrange(0, ids0.len() as int) =~= ids0);
            assert(Seq::<usize>::empty().to_multiset() =~= Multiset::<usize>::empty());
            assert(nodes_split(s0, c).1.add(Multiset::<usize>::empty()) =~= nodes_split(s0, c).1);
        }
        let mut index: usize = 0;
        while index < self.inner_polygons.len()
            invariant
                self.id == self0.id && self.can_cut_inside == c && self.polygon == self0.polygon,
                self0.node() == old(self).node(),
                s0 == self0.node().children,
                c == self0.can_cut_inside,
                node_size(self0.node()) == nodes_size(s0) + 1,
                index <= self.inner_polygons@.len(),
                forall|k: int|
                    0 <= k < index ==> (#[trigger] forest(self.inner_polygons@)[k]).can_cut_inside != c
                        && alternating(forest(self.inner_polygons@)[k]),
                nodes_split(forest(self.inner_polygons@), c).0 == nodes_split(s0, c).0,
                nodes_split(forest(self.inner_polygons@), c).1.add(
                    ids@.subrange(ids0.len() as int, ids@.len() as int).to_multiset(),
                ) == nodes_split(s0, c).1,
                ids@.len() >= ids0.len(),
                ids@.subrange(0, ids0.len() as int) == ids0,
                nodes_size(forest(self.inner_polygons@)) <= nodes_size(s0),
                prune_from(forest(self.inner_polygons@), index as int, c).0 == prune_from(s0, 0, c).0,
                ids@.subrange(ids0.len() as int, ids@.len() as int) + prune_from(
                    forest(self.inner_polygons@),
                    index as int,
                    c,
                ).1 == prune_from(s0, 0, c).1,
            decreases nodes_size(forest(self.inner_polygons@).subrange(index as int, self.inner_polygons@.len() as int)),
        {
            let ghost v = self.inner_polygons@;
            let ghost s = forest(v);
            let ghost added = ids@.subrange(ids0.len() as int, ids@.len() as int);
            let ghost len = v.len() as int;
            let ghost i = index as int;
            proof {
                lemma_forest_index(v);
                let a = s.subrange(0, i);
                let b = s.subrange(i + 1, len);
                assert(s =~= a + seq![s[i]] + b);
                lemma_split_concat(a + seq![s[i]], b, c);
                lemma_split_concat(a, seq![s[i]], c);
                lemma_split_single(s[i], c);
                lemma_nodes_concat(a + seq![s[i]], b);
                lemma_nodes_concat(a, seq![s[i]]);
                lemma_nodes_single(s[i]);
                assert(s.subrange(i, len) =~= seq![s[i]] + b);
                lemma_nodes_concat(seq![s[i]], b);
                (*v[i]).lemma_node();
            }
            if self.inner_polygons[index].can_cut_inside == self.can_cut_inside {
                if self.inner_polygons[index].inner_polygons.len() == 0 {
                    let node = self.inner_polygons.swap_remove(index);
                    ids.push(node.id);
                    proof {
                        let n = s[i];
                        assert(n.children =~= Seq::<PolygonNode<T>>::empty());
                        assert(nodes_split(n.children, c) == (Multiset::<usize>::empty(), Multiset::<usize>::empty(), Multiset::<usize>::empty()));
                        assert(nodes_size(n.children) == 0);
                        let a = s.subrange(0, i);
                        let nv = self.inner_polygons@;
                        lemma_forest_index(nv);
                        let ns = forest(nv);
                        let (ka0, da0, ra0) = nodes_split(a, c);
                        if i == len - 1 {
                            assert(ns =~= a);
                            assert(ns.subrange(i, ns.len() as int) =~= Seq::<PolygonNode<T>>::empty());
                            assert(s.subrange(i + 1, len) =~= Seq::<PolygonNode<T>>::empty());
                            assert(nodes_split(s.subrange(i + 1, len), c) == (Multiset::<usize>::empty(), Multiset::<usize>::empty(), Multiset::<usize>::empty()));
                            assert(da0.add(added.to_multiset().insert(n.id)) =~= da0.add(Multiset::<usize>::empty().insert(n.id)).add(Multiset::<usize>::empty()).add(added.to_multiset()));
                            assert(ka0 =~= ka0.add(Multiset::<usize>::empty()).add(Multiset::<usize>::empty()));
                        } else {
                            let mid = s.subrange(i + 1, len - 1);
                            let z = s[len - 1];
                            assert(s.subrange(i + 1, len) =~= mid + seq![z]);
                            assert(ns =~= a + seq![z] + mid);
                            lemma_split_concat(a + seq![z], mid, c);
                            lemma_split_concat(a, seq![z], c);
                            lemma_split_concat(mid, seq![z], c);
                            lemma_nodes_concat(a + seq![z], mid);
                            lemma_nodes_concat(a, seq![z]);
                            lemma_nodes_concat(mid, seq![z]);
                            lemma_nodes_concat(seq![z], mid);
                            assert(ns.subrange(i, ns.len() as int) =~= seq![z] + mid);
                            assert forall|k: int| 0 <= k < i implies ns[k] == s[k] by {}
                            lemma_split_single(z, c);
                            let (km, dm, rm) = nodes_split(mid, c);
                            let (kz, dz, rz) = node_split(z, c);
                            assert(da0.add(dz).add(dm).add(added.to_multiset().insert(n.id)) =~= da0.add(Multiset::<usize>::empty().insert(n.id)).add(dm.add(dz)).add(added.to_multiset()));
                            assert(ka0.add(kz).add(km) =~= ka0.add(Multiset::<usize>::empty()).add(km.add(kz)));
                        }
                        let added2 = ids@.subrange(ids0.len() as int, ids@.len() as int);
                        assert(added2 =~= added.push(n.id));
                        assert(ids@.subrange(0, ids0.len() as int) =~= ids0);
                        added.to_multiset_ensures();
                        assert(added.push(n.id).to_multiset() =~= added.to_multiset().insert(n.id));
                        assert(added2.to_multiset() =~= added.to_multiset().insert(n.id));
                        assert(nodes_split(forest(self.inner_polygons@), c).1.add(ids@.subrange(ids0.len() as int, ids@.len() as int).to_multiset()) == nodes_split(s0, c).1);
                        assert(s + n.children =~= s);
                        assert(ns =~= swap_removed(s + s[i].children, i));
                        let p = prune_from(ns, i, c);
                        assert(prune_from(s, i, c) == (p.0, seq![n.id] + p.1));
                        assert(added2 + p.1 =~= added + (seq![n.id] + p.1));
                    }
                } else {
                    let node = self.inner_polygons.remove(index);
                    let node = *node;
                    let ghost n = node.node();
                    proof {
                        node.lemma_node();
                        lemma_forest_index(node.inner_polygons@);
                    }
                    let mut children = node.inner_polygons;
                    let last = children.pop().unwrap();
                    self.inner_polygons.insert(index, last);
                    self.inner_polygons.append(&mut children);
                    ids.push(node.id);
                    proof {
                        let cs = n.children;
                        let cl = cs[cs.len() - 1];
                        let ci = cs.subrange(0, cs.len() - 1);
                        assert(cs =~= ci + seq![cl]);
                        let a = s.subrange(0, i);
                        let b = s.subrange(i + 1, len);
                        let nv = self.inner_polygons@;
                        lemma_forest_index(nv);
                        lemma_forest_index(children@);
                        let ns = forest(nv);
                        assert(ns =~= a + seq![cl] + b + ci);
                        lemma_split_concat(a + seq![cl] + b, ci, c);
                        lemma_split_concat(a + seq![cl], b, c);
                        lemma_split_concat(a, seq![cl], c);
                        lemma_split_concat(ci, seq![cl], c);
                        lemma_nodes_concat(a + seq![cl] + b, ci);
                        lemma_nodes_concat(a + seq![cl], b);
                        lemma_nodes_concat(a, seq![cl]);
                        lemma_nodes_concat(ci, seq![cl]);
                        lemma_split_single(cl, c);
                        lemma_nodes_single(cl);
                        assert(ns.subrange(i, ns.len() as int) =~= seq![cl] + b + ci);
                        lemma_nodes_concat(seq![cl] + b, ci);
                        lemma_nodes_concat(seq![cl], b);
                        assert forall|k: int| 0 <= k < i implies ns[k] == s[k] by {}
                        let added2 = ids@.subrange(ids0.len() as int, ids@.len() as int);
                        assert(added2 =~= added.push(n.id));
                        assert(ids@.subrange(0, ids0.len() as int) =~= ids0);
                        let (ka, da, ra) = nodes_split(a, c);
                        let (kb, db, rb) = nodes_split(b, c);
                        let (kcl, dcl, rcl) = node_split(cl, c);
                        let (kci, dci, rci) = nodes_split(ci, c);
                        assert(ka.add(kcl).add(kb).add(kci) =~= ka.add(kci.add(kcl)).add(kb));
                        assert(da.add(dcl).add(db).add(dci).add(added.to_multiset().insert(n.id)) =~= da.add(dci.add(dcl).insert(n.id)).add(db).add(added.to_multiset()));
                        added.to_multiset_ensures();
                        assert(added.push(n.id).to_multiset() =~= added.to_multiset().insert(n.id));
                        assert(added2.to_multiset() =~= added.to_multiset().insert(n.id));
                        assert(nodes_split(forest(self.inner_polygons@), c).1.add(ids@.subrange(ids0.len() as int, ids@.len() as int).to_multiset()) == nodes_split(s0, c).1);
                        assert(ns =~= swap_removed(s + s[i].children, i));
                        let p = prune_from(ns, i, c);
                        assert(prune_from(s, i, c) == (p.0, seq![n.id] + p.1));
                        assert(added2 + p.1 =~= added + (seq![n.id] + p.1));
                    }
                }
                continue;
            }
            proof {
                lemma_child_size(s0, 0);
                lemma_child_size(s, i);
            }
            self.inner_polygons[index].remove_inner_of_same_cut(ids);
            proof {
                let nv = self.inner_polygons@;
                lemma_forest_index(nv);
                let ns = forest(nv);
                let a = s.subrange(0, i);
                let b = s.subrange(i + 1, len);
                let r = ns[i];
                assert(ns =~= a + seq![r] + b);
                lemma_split_concat(a + seq![r], b, c);
                lemma_split_concat(a, seq![r], c);
                lemma_split_single(r, c);
                lemma_nodes_concat(a + seq![r], b);
                lemma_nodes_concat(a, seq![r]);
                lemma_nodes_single(r);
                lemma_split_alternating(r, c);
                assert(ns.subrange(i + 1, ns.len() as int) =~= b);
                assert(s.subrange(i, len) =~= seq![s[i]] + b);
                let added2 = ids@.subrange(ids0.len() as int, ids@.len() as int);
                let inner_added = ids@.subrange((ids0.len() + added.len()) as int, ids@.len() as int);
                assert(added2 =~= added + inner_added);
                vstd::seq_lib::lemma_multiset_commutative(added, inner_added);
                assert(ids@.subrange(0, ids0.len() as int) =~= ids0) by {
                    assert(ids@.subrange(0, (ids0.len() + added.len()) as int).subrange(0, ids0.len() as int) =~= ids@.subrange(0, ids0.len() as int));
                }
                let (ka, da, ra) = nodes_split(a, c);
                let (kb, db, rb) = nodes_split(b, c);
                let (kr, dr, rr) = node_split(s[i], c);
                assert(da.add(Multiset::<usize>::empty()).add(db).add(added.to_multiset().add(inner_added.to_multiset())) =~= da.add(dr).add(db).add(added.to_multiset()));
                assert forall|k: int| 0 <= k < i implies ns[k] == s[k] by {}
                assert(ns =~= s.update(i, pruned(s[i]).0));
                assert(inner_added =~= pruned(s[i]).1);
                let p = prune_from(ns, i + 1, c);
                assert(prune_from(s, i, c) == (p.0, pruned(s[i]).1 + p.1));
                assert(added2 + p.1 =~= added + (pruned(s[i]).1 + p.1));
            }
            index = index + 1;
        }
        proof {
            let s = forest(self.inner_polygons@);
            lemma_forest_index(self.inner_polygons@);
            lemma_split_alternating_all(s, c);
            assert(nodes_split(s, c).1.add(ids@.subrange(ids0.len() as int, ids@.len() as int).to_multiset()) =~= ids@.subrange(ids0.len() as int, ids@.len() as int).to_multiset());
            self.lemma_node();
            assert forall|k: int| 0 <= k < self.node().children.len() implies (#[trigger] self.node().children[k]).can_cut_inside != self.node().can_cut_inside && alternating(self.node().children[k]) by {}
            let added = ids@.subrange(ids0.len() as int, ids@.len() as int);
            assert(prune_from(s, self.inner_polygons@.len() as int, c) == (s, Seq::<usize>::empty()));
            assert(added + Seq::<usize>::empty() =~= added);
            assert(ids@ =~= ids0 + added);
            assert(self.node() == pruned(self0.node()).0);
        }
    }
}

/// Ids that stay and ids removed together make up every id of the tree.
proof fn lemma_split_total<T>(n: PolygonNode<T>, cut: bool)
    ensures
        node_split(n, cut).0.add(node_split(n, cut).1) == node_ids(n),
    decreases n, 1nat,
{
    lemma_split_total_all(n.children, if n.can_cut_inside == cut { cut } else { n.can_cut_inside });
    let (k, d, r) = nodes_split(n.children, if n.can_cut_inside == cut { cut } else { n.can_cut_inside });
    assert(k.add(d.insert(n.id)) =~= k.add(d).insert(n.id));
    assert(k.insert(n.id).add(d) =~= k.add(d).insert(n.id));
}

proof fn lemma_split_total_all<T>(s: Seq<PolygonNode<T>>, cut: bool)
    ensures
        nodes_split(s, cut).0.add(nodes_split(s, cut).1) == nodes_ids(s),
    decreases s, 0nat,
{
    if s.len() == 0 {
        assert(Multiset::<usize>::empty().add(Multiset::<usize>::empty()) =~= Multiset::<usize>::empty());
    } else {
        let s0 = s.subrange(0, s.len() - 1);
        lemma_split_total_all(s0, cut);
        lemma_split_total(s[s.len() - 1], cut);
        let (k0, d0, r0) = nodes_split(s0, cut);
        let (k1, d1, r1) = node_split(s[s.len() - 1], cut);
        assert(k0.add(k1).add(d0.add(d1)) =~= k0.add(d0).add(k1.add(d1)));
    }
}

/// `s` with its element `i` taken out and its last element moved into its
/// place.
pub open spec fn swap_removed<T>(s: Seq<PolygonNode<T>>, i: int) -> Seq<PolygonNode<T>> {
    if i < s.len() - 1 {
        s.subrange(0, i) + seq![s.last()] + s.subrange(i + 1, s.len() - 1)
    } else {
        s.subrange(0, i)
    }
}

/// The polygons from index `i` on are those of tree `i` and those after it.
pub proof fn lemma_suffix_size<T>(s: Seq<PolygonNode<T>>, i: int)
    requires
        0 <= i < s.len(),
    ensures
        nodes_size(s.subrange(i, s.len() as int)) == node_size(s[i]) + nodes_size(
            s.subrange(i + 1, s.len() as int),
        ),
        node_size(s[i]) == nodes_size(s[i].children) + 1,
{
    let b = s.subrange(i + 1, s.len() as int);
    assert(s.subrange(i, s.len() as int) =~= seq![s[i]] + b);
    lemma_nodes_concat(seq![s[i]], b);
    lemma_nodes_single(s[i]);
}

/// Taking out tree `i` of `s` and putting its children in its place, as the
/// removal does below a polygon, leaves one polygon less from `i` on.
pub proof fn lemma_lifted_size<T>(s: Seq<PolygonNode<T>>, i: int)
    requires
        0 <= i < s.len(),
    ensures
        nodes_size(swap_removed(s + s[i].children, i).subrange(i, swap_removed(s + s[i].children, i).len() as int))
            + 1 == nodes_size(s.subrange(i, s.len() as int)),
        nodes_size((swap_removed(s, i) + s[i].children).subrange(i, (swap_removed(s, i) + s[i].children).len() as int))
            + 1 == nodes_size(s.subrange(i, s.len() as int)),
{
    let cs = s[i].children;
    let b = s.subrange(i + 1, s.len() as int);
    lemma_suffix_size(s, i);
    let ext = s + cs;
    let n = ext.len() as int;
    let r = swap_removed(ext, i);
    if i < n - 1 {
        let mid = ext.subrange(i + 1, n - 1);
        assert(r.subrange(i, r.len() as int) =~= seq![ext.last()] + mid);
        lemma_nodes_concat(seq![ext.last()], mid);
        lemma_nodes_concat(mid, seq![ext.last()]);
        lemma_nodes_single(ext.last());
        assert(ext.subrange(i + 1, n) =~= mid + seq![ext.last()]);
        assert(ext.subrange(i + 1, n) =~= b + cs);
        lemma_nodes_concat(b, cs);
    } else {
        assert(cs.len() == 0);
        assert(r.subrange(i, r.len() as int) =~= Seq::<PolygonNode<T>>::empty());
        assert(b =~= Seq::<PolygonNode<T>>::empty());
        assert(cs =~= Seq::<PolygonNode<T>>::empty());
    }
    let t = swap_removed(s, i) + cs;
    if i < s.len() - 1 {
        let mid = s.subrange(i + 1, s.len() - 1);
        assert(t.subrange(i, t.len() as int) =~= seq![s.last()] + mid + cs);
        lemma_nodes_concat(seq![s.last()] + mid, cs);
        lemma_nodes_concat(seq![s.last()], mid);
        lemma_nodes_concat(mid, seq![s.last()]);
        lemma_nodes_single(s.last());
        assert(b =~= mid + seq![s.last()]);
    } else {
        assert(t.subrange(i, t.len() as int) =~= cs);
        assert(b =~= Seq::<PolygonNode<T>>::empty());
    }
}

/// The trees `s` from index `i` on, under a parent marked `cut`, after the
/// removal of the polygons marked like their parent, with the ids removed, in
/// the order in which they are removed. A tree marked like the parent is
/// taken out, its children are appended and the last tree moves into its
/// place; any other tree is cleaned inside and the walk goes on after it.
pub open spec fn prune_from<T>(s: Seq<PolygonNode<T>>, i: int, cut: bool) -> (Seq<PolygonNode<T>>, Seq<usize>)
    decreases nodes_size(s.subrange(i, s.len() as int)), 1nat,
{
    if i < 0 || i >= s.len() {
        (s, Seq::empty())
    } else if s[i].can_cut_inside == cut {
        proof {
            lemma_lifted_size(s, i);
        }
        let rest = prune_from(swap_removed(s + s[i].children, i), i, cut);
        (rest.0, seq![s[i].id] + rest.1)
    } else {
        proof {
            lemma_suffix_size(s, i);
        }
        let inner = pruned(s[i]);
        proof {
            assert(s.update(i, inner.0).subrange(i + 1, s.len() as int) =~= s.subrange(i + 1, s.len() as int));
        }
        let rest = prune_from(s.update(i, inner.0), i + 1, cut);
        (rest.0, inner.1 + rest.1)
    }
}

/// The tree `n` after the removal of the polygons inside it marked like their
/// parent, with the ids removed in order.
pub open spec fn pruned<T>(n: PolygonNode<T>) -> (PolygonNode<T>, Seq<usize>)
    decreases node_size(n), 0nat,
{
    proof {
        assert(n.children.subrange(0, n.children.len() as int) =~= n.children);
    }
    let inner = prune_from(n.children, 0, n.can_cut_inside);
    (PolygonNode { children: inner.0, ..n }, inner.1)
}

/// The top trees `s` from index `i` on, around which the area is marked
/// `cut`, after the removal: a top tree marked like the area is taken out,
/// the last tree moves into its place and its children are appended; its own
/// id is not among the ids returned.
pub open spec fn prune_top_from<T>(s: Seq<PolygonNode<T>>, i: int, cut: bool) -> (Seq<PolygonNode<T>>, Seq<usize>)
    decreases nodes_size(s.subrange(i, s.len() as int)),
{
    if i < 0 || i >= s.len() {
        (s, Seq::empty())
    } else if s[i].can_cut_inside == cut {
        proof {
            lemma_lifted_size(s, i);
        }
        prune_top_from(swap_removed(s, i) + s[i].children, i, cut)
    } else {
        proof {
            lemma_suffix_size(s, i);
            assert(s.update(i, pruned(s[i]).0).subrange(i + 1, s.len() as int) =~= s.subrange(i + 1, s.len() as int));
        }
        let inner = pruned(s[i]);
        let rest = prune_top_from(s.update(i, inner.0), i + 1, cut);
        (rest.0, inner.1 + rest.1)
    }
}

/// A list of trees already marked opposite to their parent, all the way
/// down, is left as it is, and nothing is removed from it.
proof fn lemma_prune_from_settled<T>(s: Seq<PolygonNode<T>>, i: int, cut: bool)
    requires
        0 <= i,
        forall|k: int| i <= k < s.len() ==> (#[trigger] s[k]).can_cut_inside != cut && alternating(s[k]),
    ensures
        prune_from(s, i, cut) == (s, Seq::<usize>::empty()),
    decreases nodes_size(s.subrange(i, s.len() as int)), 1nat,
{
    if i < s.len() {
        lemma_suffix_size(s, i);
        lemma_pruned_settled(s[i]);
        assert(s.update(i, s[i]) =~= s);
        lemma_prune_from_settled(s, i + 1, cut);
        assert(Seq::<usize>::empty() + Seq::<usize>::empty() =~= Seq::<usize>::empty());
    }
}

/// A tree whose marks alternate all the way down is left as it is.
proof fn lemma_pruned_settled<T>(n: PolygonNode<T>)
    requires
        alternating(n),
    ensures
        pruned(n) == (n, Seq::<usize>::empty()),
    decreases node_size(n), 0nat,
{
    assert(n.children.subrange(0, n.children.len() as int) =~= n.children);
    lemma_prune_from_settled(n.children, 0, n.can_cut_inside);
}

proof fn lemma_prune_top_settled<T>(s: Seq<PolygonNode<T>>, i: int, cut: bool)
    requires
        0 <= i,
        forall|k: int| i <= k < s.len() ==> (#[trigger] s[k]).can_cut_inside != cut && alternating(s[k]),
    ensures
        prune_top_from(s, i, cut) == (s, Seq::<usize>::empty()),
    decreases s.len() - i,
{
    if i < s.len() {
        lemma_pruned_settled(s[i]);
        assert(s.update(i, s[i]) =~= s);
        lemma_prune_top_settled(s, i + 1, cut);
        assert(Seq::<usize>::empty() + Seq::<usize>::empty() =~= Seq::<usize>::empty());
    }
}

/// Once the marks alternate from the area around the tree down to every
/// polygon, as they do after a removal, a further removal leaves the tree as
/// it is and removes nothing.
pub proof fn lemma_removal_settles<T>(s: Seq<PolygonNode<T>>, cut: bool)
    requires
        forall|k: int| 0 <= k < s.len() ==> (#[trigger] s[k]).can_cut_inside != cut && alternating(s[k]),
    ensures
        prune_top_from(s, 0, cut) == (s, Seq::<usize>::empty()),
{
    lemma_prune_top_settled(s, 0, cut);
}

/// The number of trees of a list whose top polygon is marked to be cut inside.
pub open spec fn count_can_cut<T>(s: Seq<PolygonNode<T>>) -> nat
    decreases s.len(),
{
    if s.len() == 0 {
        0
    } else {
        count_can_cut(s.subrange(0, s.len() - 1)) + if s[s.len() - 1].can_cut_inside {
            1nat
        } else {
            0nat
        }
    }
}

impl<T> PolygonTree<T> {
    /// The top polygons of the tree, as values.
    pub closed spec fn heads_nodes(&self) -> Seq<PolygonNode<T>> {
        forest(self.heads@)
    }

    /// How the area around the top polygons is marked.
    pub closed spec fn spec_can_cut_inside(&self) -> bool {
        self.can_cut_inside
    }

    /// The number of polygons added so far.
    pub closed spec fn spec_total_count_added(&self) -> nat {
        self.total_count_added as nat
    }

    /// Every polygon carries an id given before.
    pub open spec fn wf(&self) -> bool {
        ids_below(nodes_ids(self.heads_nodes()), self.spec_total_count_added() as int)
    }

    /// Adds a polygon that has nothing inside it yet, numbered by the count of
    /// polygons added before: inside the first top polygon that contains it
    /// and, within that, inside the first polygon that contains it, and so on;
    /// as a new top polygon when no top polygon contains it. `contains[i]`
    /// says whether the polygon numbered `i` contains the new one.
    pub fn add_polygon(&mut self, polygon_tree_item: PolygonTreeItem<T>, contains: &Vec<bool>)
        requires
            old(self).wf(),
            old(self).spec_total_count_added() < usize::MAX,
            polygon_tree_item.node().children.len() == 0,
        ensures
            final(self).wf(),
            final(self).spec_total_count_added() == old(self).spec_total_count_added() + 1,
            final(self).spec_can_cut_inside() == old(self).spec_can_cut_inside(),
            final(self).heads_nodes() == inserted_among(
                old(self).heads_nodes(),
                PolygonNode { id: old(self).spec_total_count_added() as usize, ..polygon_tree_item.node() },
                contains@,
            ),
            nodes_ids(final(self).heads_nodes()) == nodes_ids(old(self).heads_nodes()).insert(
                old(self).spec_total_count_added() as usize,
            ),
    {
        let mut item = polygon_tree_item;
        item.id = self.total_count_added;
        self.total_count_added = self.total_count_added + 1;
        let ghost p0 = item.node();
        let ghost s0 = forest(self.heads@);
        proof {
            item.lemma_node();
            polygon_tree_item.lemma_node();
            assert(p0 == PolygonNode { id: p0.id, ..polygon_tree_item.node() });
            assert(p0.children =~= Seq::<PolygonNode<T>>::empty());
            assert(nodes_ids(p0.children) == Multiset::<usize>::empty());
        }
        let mut i: usize = 0;
        while i < self.heads.len()
            invariant
                i <= self.heads@.len(),
                forest(self.heads@) == s0,
                item.node() == p0,
                self.total_count_added == old(self).total_count_added + 1,
                self.can_cut_inside == old(self).can_cut_inside,
                s0 == old(self).heads_nodes(),
                old(self).wf(),
                p0 == (PolygonNode { id: old(self).spec_total_count_added() as usize, ..polygon_tree_item.node() }),
                node_ids(p0) == Multiset::<usize>::empty().insert(p0.id),
                forall|k: int| 0 <= k < i ==> inserted(#[trigger] s0[k], p0, contains@) is None,
            decreases self.heads@.len() - i,
        {
            proof {
                lemma_forest_index(self.heads@);
            }
            let res = self.heads[i].add_polygon_if_inside(item, contains);
            match res {
                None => {
                    proof {
                        lemma_forest_index(self.heads@);
                        lemma_inserted_among_prefix(s0, p0, contains@, i as int);
                        let m = inserted(s0[i as int], p0, contains@).unwrap();
                        let sub = s0.subrange(i as int, s0.len() as int);
                        assert(sub[0] == s0[i as int]);
                        assert(inserted_among(sub, p0, contains@) == sub.update(0, m));
                        assert(s0.subrange(0, i as int) + sub.update(0, m) =~= s0.update(i as int, m));
                        assert(forest(self.heads@) =~= s0.update(i as int, m));
                        lemma_inserted_among_ids(s0, p0, contains@);
                        assert(nodes_ids(s0).add(node_ids(p0)) =~= nodes_ids(s0).insert(p0.id));
                    }
                    return;
                },
                Some(p) => {
                    item = p;
                },
            }
            proof {
                lemma_forest_index(self.heads@);
                assert(forest(self.heads@) =~= s0);
            }
            i = i + 1;
        }
        self.heads.push(Box::new(item));
        proof {
            lemma_inserted_among_prefix(s0, p0, contains@, s0.len() as int);
            assert(s0.subrange(s0.len() as int, s0.len() as int) =~= Seq::<PolygonNode<T>>::empty());
            assert(s0.subrange(0, s0.len() as int) =~= s0);
            lemma_forest_index(self.heads@);
            assert(forest(self.heads@) =~= s0 + seq![p0]);
            lemma_inserted_among_ids(s0, p0, contains@);
            assert(nodes_ids(s0).add(node_ids(p0)) =~= nodes_ids(s0).insert(p0.id));
        }
    }

    /// Takes out every polygon marked like the polygon it lies in, or, at the
    /// top, like the area around the tree, moving the polygons inside it up
    /// in its place: the resulting top trees are `prune_top_from` of the old
    /// ones, so every polygon that stays keeps its polygon, mark and id and
    /// lies under its nearest ancestor that stays. Returns the ids of the
    /// polygons taken out from inside a polygon that stays, in the order they
    /// are taken out; the ids of polygons taken out at the top are not
    /// returned. Afterwards the marks alternate from the area around the tree
    /// down to every polygon, so that a second call changes nothing
    /// (`lemma_removal_settles`).
    #[verifier::rlimit(60)]
    pub fn remove_inner_of_same_cut(&mut self) -> (r: Vec<usize>)
        requires
            old(self).wf(),
        ensures
            final(self).wf(),
            final(self).spec_can_cut_inside() == old(self).spec_can_cut_inside(),
            final(self).spec_total_count_added() == old(self).spec_total_count_added(),
            forall|k: int|
                0 <= k < final(self).heads_nodes().len() ==> (#[trigger] final(self).heads_nodes()[k]).can_cut_inside
                    != final(self).spec_can_cut_inside() && alternating(final(self).heads_nodes()[k]),
            nodes_ids(final(self).heads_nodes()) == nodes_split(
                old(self).heads_nodes(),
                old(self).spec_can_cut_inside(),
            ).0,
            r@.to_multiset() == nodes_split(old(self).heads_nodes(), old(self).spec_can_cut_inside()).2,
            final(self).heads_nodes() == prune_top_from(old(self).heads_nodes(), 0, old(self).spec_can_cut_inside()).0,
            r@ == prune_top_from(old(self).heads_nodes(), 0, old(self).spec_can_cut_inside()).1,
    {
        broadcast use vstd::seq_lib::group_to_multiset_ensures;

        let mut ids: Vec<usize> = Vec::new();
        let ghost s0 = forest(self.heads@);
        let ghost c = self.can_cut_inside;
        proof {
            assert(Seq::<usize>::empty().to_multiset() =~= Multiset::<usize>::empty());
            assert(nodes_split(s0, c).2.add(Multiset::<usize>::empty()) =~= nodes_split(s0, c).2);
        }
        let mut i: usize = 0;
        while i < self.heads.len()
            invariant
                self.can_cut_inside == c,
                c == old(self).spec_can_cut_inside(),
                self.total_count_added == old(self).total_count_added,
                s0 == old(self).heads_nodes(),
                old(self).wf(),
                i <= self.heads@.len(),
                forall|k: int|
                    0 <= k < i ==> (#[trigger] forest(self.heads@)[k]).can_cut_inside != c && alternating(
                        forest(self.heads@)[k],
                    ),
                nodes_split(forest(self.heads@), c).0 == nodes_split(s0, c).0,
                nodes_split(forest(self.heads@), c).2.add(ids@.to_multiset()) == nodes_split(s0, c).2,
                prune_top_from(forest(self.heads@), i as int, c).0 == prune_top_from(s0, 0, c).0,
                ids@ + prune_top_from(forest(self.heads@), i as int, c).1 == prune_top_from(s0, 0, c).1,
            decreases nodes_size(forest(self.heads@).subrange(i as int, self.heads@.len() as int)),
        {
            let ghost v = self.heads@;
            let ghost s = forest(v);
            let ghost added = ids@;
            let ghost len = v.len() as int;
            let ghost ii = i as int;
            proof {
                lemma_forest_index(v);
                let a = s.subrange(0, ii);
                let b = s.subrange(ii + 1, len);
                assert(s =~= a + seq![s[ii]] + b);
                lemma_split_concat(a + seq![s[ii]], b, c);
                lemma_split_concat(a, seq![s[ii]], c);
                lemma_split_single(s[ii], c);
                assert(s.subrange(ii, len) =~= seq![s[ii]] + b);
                lemma_nodes_concat(seq![s[ii]], b);
                lemma_nodes_single(s[ii]);
                (*v[ii]).lemma_node();
            }
            if self.heads[i].can_cut_inside == self.can_cut_inside {
                let node = self.heads.swap_remove(i);
                let node = *node;
                let ghost n = node.node();
                proof {
                    node.lemma_node();
                    lemma_forest_index(node.inner_polygons@);
                }
                let mut polys = node.inner_polygons;
                self.heads.append(&mut polys);
                proof {
                    let cs = n.children;
                    let a = s.subrange(0, ii);
                    let nv = self.heads@;
                    lemma_forest_index(nv);
                    let ns = forest(nv);
                    let (ka, da, ra) = nodes_split(a, c);
                    let (kc, dc, rc) = nodes_split(cs, c);
                    if ii == len - 1 {
                        assert(ns =~= a + cs);
                        lemma_split_concat(a, cs, c);
                        assert(s.subrange(ii + 1, len) =~= Seq::<PolygonNode<T>>::empty());
                        assert(nodes_split(s.subrange(ii + 1, len), c) == (Multiset::<usize>::empty(), Multiset::<usize>::empty(), Multiset::<usize>::empty()));
                        assert(ns.subrange(ii, ns.len() as int) =~= cs);
                        assert(ka.add(kc).add(Multiset::<usize>::empty()) =~= ka.add(kc));
                        assert(ra.add(rc).add(Multiset::<usize>::empty()) =~= ra.add(rc));
                    } else {
                        let mid = s.subrange(ii + 1, len - 1);
                        let z = s[len - 1];
                        assert(s.subrange(ii + 1, len) =~= mid + seq![z]);
                        assert(ns =~= a + seq![z] + mid + cs);
                        lemma_split_concat(a + seq![z] + mid, cs, c);
                        lemma_split_concat(a + seq![z], mid, c);
                        lemma_split_concat(a, seq![z], c);
                        lemma_split_concat(mid, seq![z], c);
                        lemma_split_single(z, c);
                        assert(ns.subrange(ii, ns.len() as int) =~= seq![z] + mid + cs);
                        lemma_nodes_concat(seq![z] + mid, cs);
                        lemma_nodes_concat(seq![z], mid);
                        lemma_nodes_concat(mid, seq![z]);
                        lemma_nodes_single(z);
                        let (km, dm, rm) = nodes_split(mid, c);
                        let (kz, dz, rz) = node_split(z, c);
                        assert(ka.add(kz).add(km).add(kc) =~= ka.add(kc).add(km.add(kz)));
                        assert(ra.add(rz).add(rm).add(rc).add(added.to_multiset()) =~= ra.add(rc).add(rm.add(rz)).add(added.to_multiset()));
                        assert forall|k: int| 0 <= k < ii implies ns[k] == s[k] by {}
                    }
                    assert forall|k: int| 0 <= k < ii implies ns[k] == s[k] by {}
                    assert(ns =~= swap_removed(s, ii) + s[ii].children);
                    assert(prune_top_from(s, ii, c) == prune_top_from(ns, ii, c));
                }
                continue;
            }
            self.heads[i].remove_inner_of_same_cut(&mut ids);
            proof {
                let nv = self.heads@;
                lemma_forest_index(nv);
                let ns = forest(nv);
                let a = s.subrange(0, ii);
                let b = s.subrange(ii + 1, len);
                let r = ns[ii];
                assert(ns =~= a + seq![r] + b);
                lemma_split_concat(a + seq![r], b, c);
                lemma_split_concat(a, seq![r], c);
                lemma_split_single(r, c);
                lemma_split_alternating(r, c);
                lemma_nodes_concat(a + seq![r], b);
                lemma_nodes_concat(a, seq![r]);
                lemma_nodes_single(r);
                assert(ns.subrange(ii + 1, ns.len() as int) =~= b);
                let inner_added = ids@.subrange(added.len() as int, ids@.len() as int);
                assert(ids@ =~= added + inner_added);
                vstd::seq_lib::lemma_multiset_commutative(added, inner_added);
                let (ka, da, ra) = nodes_split(a, c);
                let (kb, db, rb) = nodes_split(b, c);
                let (kr, dr, rr) = node_split(s[ii], c);
                assert(ra.add(Multiset::<usize>::empty()).add(rb).add(added.to_multiset().add(inner_added.to_multiset())) =~= ra.add(rr).add(rb).add(added.to_multiset()));
                assert forall|k: int| 0 <= k < ii implies ns[k] == s[k] by {}
                assert(ns =~= s.update(ii, pruned(s[ii]).0));
                assert(inner_added =~= pruned(s[ii]).1);
                let p = prune_top_from(ns, ii + 1, c);
                assert(prune_top_from(s, ii, c) == (p.0, pruned(s[ii]).1 + p.1));
                assert(ids@ + p.1 =~= added + (pruned(s[ii]).1 + p.1));
            }
            i = i + 1;
        }
        proof {
            let s = forest(self.heads@);
            lemma_forest_index(self.heads@);
            lemma_split_alternating_all(s, c);
            assert(Multiset::<usize>::empty().add(ids@.to_multiset()) =~= ids@.to_multiset());
            lemma_split_total_all(s0, c);
            assert forall|id: usize| nodes_ids(s).count(id) > 0 implies (id as int) < self.spec_total_count_added() by {
                assert(nodes_split(s0, c).0.add(nodes_split(s0, c).1).count(id) > 0);
            }
            assert(prune_top_from(s, self.heads@.len() as int, c) == (s, Seq::<usize>::empty()));
            assert(ids@ + Seq::<usize>::empty() =~= ids@);
        }
        ids
    }

    /// How the area around the top polygons is marked.
    pub fn set_outer_can_cut_inside(&mut self, can_cut: bool)
        ensures
            final(self).spec_can_cut_inside() == can_cut,
            final(self).heads_nodes() == old(self).heads_nodes(),
            final(self).spec_total_count_added() == old(self).spec_total_count_added(),
    {
        self.can_cut_inside = can_cut;
    }

    /// The numbers of top polygons marked to be cut inside and not.
    pub fn total_can_cuts(&self) -> (r: (u32, u32))
        requires
            self.heads_nodes().len() <= u32::MAX,
        ensures
            r.0 == count_can_cut(self.heads_nodes()),
            r.0 + r.1 == self.heads_nodes().len(),
    {
        let mut can: u32 = 0;
        let mut not: u32 = 0;
        let ghost s = forest(self.heads@);
        proof {
            lemma_forest_index(self.heads@);
        }
        let mut i: usize = 0;
        while i < self.heads.len()
            invariant
                i <= self.heads@.len(),
                s == forest(self.heads@),
                s.len() == self.heads@.len(),
                s.len() <= u32::MAX,
                forall|k: int| 0 <= k < s.len() ==> #[trigger] s[k] == (*self.heads@[k]).node(),
                can == count_can_cut(s.subrange(0, i as int)),
                can + not == i,
            decreases self.heads@.len() - i,
        {
            proof {
                assert(s.subrange(0, i + 1).subrange(0, i as int) =~= s.subrange(0, i as int));
                (*self.heads@[i as int]).lemma_node();
            }
            if self.heads[i].can_cut_inside {
                can = can + 1;
            } else {
                not = not + 1;
            }
            i = i + 1;
        }
        proof {
            assert(s.subrange(0, s.len() as int) =~= s);
        }
        (can, not)
    }
}

impl<T> Default for PolygonTree<T> {
    fn default() -> (r: Self)
        ensures
            r.heads_nodes().len() == 0,
            r.spec_can_cut_inside() == false,
            r.spec_total_count_added() == 0,
            r.wf(),
    {
        let r = PolygonTree { heads: Vec::new(), can_cut_inside: false, total_count_added: 0 };
        proof {
            assert(forest(r.heads@) =~= Seq::<PolygonNode<T>>::empty());
            assert(nodes_ids(r.heads_nodes()) == Multiset::<usize>::empty());
        }
        r
    }
}

/// The ids `0` to `n - 1`, once each.
pub open spec fn ids_upto(n: nat) -> Multiset<usize>
    decreases n,
{
    if n == 0 {
        Multiset::empty()
    } else {
        ids_upto((n - 1) as nat).insert((n - 1) as usize)
    }
}

/// The top polygons of a tree built by adding `items` in order to an empty
/// tree, where `inside[k][i]` says whether polygon `k` lies inside polygon
/// `i`.
pub open spec fn built_forest<T>(items: Seq<(T, bool)>, inside: Seq<Vec<bool>>) -> Seq<PolygonNode<T>>
    decreases items.len(),
{
    if items.len() == 0 {
        Seq::empty()
    } else {
        let k = items.len() - 1;
        inserted_among(
            built_forest(items.drop_last(), inside),
            PolygonNode { polygon: items[k].0, id: k as usize, can_cut_inside: items[k].1, children: Seq::empty() },
            inside[k]@,
        )
    }
}

impl<T> PolygonTree<T> {
    /// The tree of `tree`'s polygons, each with whether its inside is to be
    /// cut, added in order and numbered from 0; `inside[k][i]` says whether
    /// polygon `k` lies inside polygon `i`.
    pub fn from(tree: Vec<(T, bool)>, inside: &Vec<Vec<bool>>) -> (r: Self)
        requires
            inside@.len() == tree@.len(),
        ensures
            r.wf(),
            r.heads_nodes() == built_forest(tree@, inside@),
            nodes_ids(r.heads_nodes()) == ids_upto(tree@.len()),
            r.spec_total_count_added() == tree@.len(),
            r.spec_can_cut_inside() == false,
    {
        let ghost all = tree@;
        let mut items = tree;
        let mut poly_tree: PolygonTree<T> = PolygonTree::default();
        let mut k: usize = 0;
        let n = items.len();
        proof {
            assert(all.subrange(0, 0) =~= Seq::<(T, bool)>::empty());
            assert(nodes_ids(poly_tree.heads_nodes()) == Multiset::<usize>::empty());
            assert(items@ =~= all.subrange(0, n as int));
        }
        while k < n
            invariant
                n == all.len(),
                inside@.len() == n,
                k <= n,
                items@ == all.subrange(k as int, n as int),
                poly_tree.wf(),
                poly_tree.spec_total_count_added() == k,
                poly_tree.spec_can_cut_inside() == false,
                poly_tree.heads_nodes() == built_forest(all.subrange(0, k as int), inside@),
                nodes_ids(poly_tree.heads_nodes()) == ids_upto(k as nat),
            decreases n - k,
        {
            let (polygon, can_cut_inside) = items.remove(0);
            let item = PolygonTreeItem::from(polygon, can_cut_inside);
            proof {
                assert(all.subrange(0, k + 1).drop_last() =~= all.subrange(0, k as int));
                assert(all.subrange(0, k + 1)[k as int] == all[k as int]);
                assert(items@ =~= all.subrange(k + 1, n as int));
            }
            poly_tree.add_polygon(item, &inside[k]);
            k = k + 1;
        }
        proof {
            assert(all.subrange(0, n as int) =~= all);
        }
        poly_tree
    }
}

} // verus!
