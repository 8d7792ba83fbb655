//! The playlist tree: interior "list" nodes carry a label and an ordered
//! sequence of children; leaf "track" nodes carry a label and a track
//! identifier.  The root is implicit: a document is a forest of top-level
//! nodes.
//!
//! Nodes are addressed by a location: the sequence of child indices from
//! the root forest down to the node.  Ghost reasoning happens on `NodeV`,
//! a mathematical mirror of `Node`.

use vstd::prelude::*;

verus! {

/// An interior node: a named list of child nodes.
#[derive(Debug)]
pub struct ListNode {
    pub label: String,
    pub kids: Vec<Node>,
}

/// A leaf node: one playable track, tagged with its registry identifier.
#[derive(Debug)]
pub struct TrackNode {
    pub label: String,
    pub tid: i32,
}

/// A node of the playlist tree.
#[derive(Debug)]
pub enum Node {
    List(ListNode),
    Track(TrackNode),
}

/// The mathematical shape of a node.
pub enum NodeV {
    List { label: Seq<char>, kids: Seq<NodeV> },
    Track { label: Seq<char>, tid: i32 },
}

/// The mathematical shape of a forest of nodes.
pub open spec fn view_forest(kids: Seq<Node>) -> Seq<NodeV>
    decreases kids,
{
    if kids.len() == 0 {
        Seq::empty()
    } else {
        seq![view_node(kids[0])] + view_forest(kids.drop_first())
    }
}

/// The mathematical shape of one node.
pub open spec fn view_node(n: Node) -> NodeV
    decreases n,
{
    match n {
        Node::List(l) => NodeV::List { label: l.label@, kids: view_forest(l.kids@) },
        Node::Track(t) => NodeV::Track { label: t.label@, tid: t.tid },
    }
}

/// `view_forest` maps `view_node` over the sequence, pointwise.
pub proof fn lemma_view_forest(kids: Seq<Node>)
    ensures
        view_forest(kids).len() == kids.len(),
        forall|i: int|
            0 <= i < kids.len() ==> #[trigger] view_forest(kids)[i] == view_node(kids[i]),
    decreases kids,
{
    if kids.len() > 0 {
        lemma_view_forest(kids.drop_first());
    }
}

pub open spec fn label_of(n: NodeV) -> Seq<char> {
    match n {
        NodeV::List { label, kids } => label,
        NodeV::Track { label, tid } => label,
    }
}

pub open spec fn kids_of(n: NodeV) -> Seq<NodeV> {
    match n {
        NodeV::List { label, kids } => kids,
        NodeV::Track { label, tid } => Seq::empty(),
    }
}

pub open spec fn tid_of(n: NodeV) -> Option<i32> {
    match n {
        NodeV::List { label, kids } => None,
        NodeV::Track { label, tid } => Some(tid),
    }
}

/// The locations used by executable code, as mathematical integers.
pub open spec fn locv(loc: Seq<usize>) -> Seq<int> {
    loc.map_values(|x: usize| x as int)
}

/// Whether `loc` addresses a node of the forest: each step but the last
/// must enter a list.
pub open spec fn valid_loc(kids: Seq<NodeV>, loc: Seq<int>) -> bool
    decreases loc,
{
    &&& loc.len() > 0
    &&& 0 <= loc[0] < kids.len()
    &&& (loc.len() > 1 ==> kids[loc[0]] is List && valid_loc(kids[loc[0]]->List_kids,
        loc.drop_first()))
}

/// The node addressed by `loc`.
pub open spec fn node_at(kids: Seq<NodeV>, loc: Seq<int>) -> NodeV
    recommends
        valid_loc(kids, loc),
    decreases loc,
{
    if loc.len() <= 1 {
        kids[loc[0]]
    } else {
        node_at(kids[loc[0]]->List_kids, loc.drop_first())
    }
}

/// Whether `ploc` addresses a kid sequence: the root forest when empty,
/// else the kids of a list node.
pub open spec fn valid_ploc(kids: Seq<NodeV>, ploc: Seq<int>) -> bool
    decreases ploc,
{
    ploc.len() == 0 || (0 <= ploc[0] < kids.len() && kids[ploc[0]] is List && valid_ploc(
        kids[ploc[0]]->List_kids,
        ploc.drop_first(),
    ))
}

/// The kid sequence addressed by `ploc`.
pub open spec fn kids_at(kids: Seq<NodeV>, ploc: Seq<int>) -> Seq<NodeV>
    recommends
        valid_ploc(kids, ploc),
    decreases ploc,
{
    if ploc.len() == 0 {
        kids
    } else {
        kids_at(kids[ploc[0]]->List_kids, ploc.drop_first())
    }
}

/// The forest with the kid sequence addressed by `ploc` replaced by `sub`.
pub open spec fn set_kids_at(kids: Seq<NodeV>, ploc: Seq<int>, sub: Seq<NodeV>) -> Seq<NodeV>
    recommends
        valid_ploc(kids, ploc),
    decreases ploc,
{
    if ploc.len() == 0 {
        sub
    } else {
        kids.update(
            ploc[0],
            NodeV::List {
                label: label_of(kids[ploc[0]]),
                kids: set_kids_at(kids[ploc[0]]->List_kids, ploc.drop_first(), sub),
            },
        )
    }
}

/// A node location paired with the kid index it ends in: `loc == ploc + [last]`.
pub open spec fn loc_parent(loc: Seq<int>) -> Seq<int>
    recommends
        loc.len() > 0,
{
    loc.drop_last()
}

/// A location is valid exactly when its parent prefix addresses a kid
/// sequence and its last index is in range.
pub proof fn lemma_loc_split(kids: Seq<NodeV>, loc: Seq<int>)
    requires
        loc.len() > 0,
    ensures
        valid_loc(kids, loc) <==> (valid_ploc(kids, loc.drop_last()) && 0 <= loc.last()
            < kids_at(kids, loc.drop_last()).len()),
        valid_loc(kids, loc) ==> node_at(kids, loc) == kids_at(kids, loc.drop_last())[loc.last()],
    decreases loc,
{
    if loc.len() == 1 {
        assert(loc.drop_last() =~= Seq::<int>::empty());
    } else {
        if 0 <= loc[0] < kids.len() && kids[loc[0]] is List {
            lemma_loc_split(kids[loc[0]]->List_kids, loc.drop_first());
            assert(loc.drop_first().drop_last() =~= loc.drop_last().drop_first());
            assert(loc.drop_last()[0] == loc[0]);
            assert(loc.drop_first().last() == loc.last());
        } else {
            assert(!valid_loc(kids, loc));
            assert(loc.drop_last()[0] == loc[0]);
            assert(!(valid_ploc(kids, loc.drop_last()) && 0 <= loc.last() < kids_at(
                kids,
                loc.drop_last(),
            ).len()));
        }
    }
}

/// Replacing the kid sequence at `p` puts exactly that sequence there.
pub proof fn lemma_set_kids_at_same(f: Seq<NodeV>, p: Seq<int>, sub: Seq<NodeV>)
    requires
        valid_ploc(f, p),
    ensures
        valid_ploc(set_kids_at(f, p, sub), p),
        kids_at(set_kids_at(f, p, sub), p) == sub,
    decreases p,
{
    if p.len() == 0 {
    } else {
        let j = p[0];
        let inner = f[j]->List_kids;
        lemma_set_kids_at_same(inner, p.drop_first(), sub);
        let f2 = set_kids_at(f, p, sub);
        assert(f2[j] == NodeV::List {
            label: label_of(f[j]),
            kids: set_kids_at(inner, p.drop_first(), sub),
        });
    }
}

/// A location whose first step hits an unchanged node keeps its meaning
/// in a forest that is no shorter.
pub proof fn lemma_loc_same_entry(f: Seq<NodeV>, f2: Seq<NodeV>, l: Seq<int>)
    requires
        valid_loc(f, l),
        f2.len() >= f.len(),
        f2[l[0]] == f[l[0]],
    ensures
        valid_loc(f2, l),
        node_at(f2, l) == node_at(f, l),
{
    if l.len() > 1 {
        assert(valid_loc(f2, l));
    }
}

/// Appending one node to the kid sequence at `p` keeps every location
/// that was valid before valid, with the same label and the same kind;
/// tracks are untouched entirely.
pub proof fn lemma_append_preserves(f: Seq<NodeV>, p: Seq<int>, x: NodeV, l: Seq<int>)
    requires
        valid_ploc(f, p),
        valid_loc(f, l),
    ensures
        ({
            let f2 = set_kids_at(f, p, kids_at(f, p).push(x));
            &&& valid_loc(f2, l)
            &&& label_of(node_at(f2, l)) == label_of(node_at(f, l))
            &&& (node_at(f, l) is List <==> node_at(f2, l) is List)
            &&& (node_at(f, l) is Track ==> node_at(f2, l) == node_at(f, l))
        }),
    decreases l.len(),
{
    let f2 = set_kids_at(f, p, kids_at(f, p).push(x));
    if p.len() == 0 {
        assert(f2 =~= f.push(x));
        assert(f2[l[0]] == f[l[0]]);
        lemma_loc_same_entry(f, f2, l);
    } else {
        let j = p[0];
        let inner = f[j]->List_kids;
        let inner2 = set_kids_at(inner, p.drop_first(), kids_at(f, p).push(x));
        assert(f2 =~= f.update(j, NodeV::List { label: label_of(f[j]), kids: inner2 }));
        if l[0] != j {
            assert(f2[l[0]] == f[l[0]]);
            lemma_loc_same_entry(f, f2, l);
        } else {
            assert(kids_at(f, p) == kids_at(inner, p.drop_first()));
            if l.len() == 1 {
                assert(node_at(f2, l) == f2[j]);
                assert(node_at(f, l) == f[j]);
                assert(f2[j] is List);
                assert(label_of(f2[j]) == label_of(f[j]));
            } else {
                lemma_append_preserves(inner, p.drop_first(), x, l.drop_first());
                assert(f2[j]->List_kids == inner2);
                assert(node_at(f2, l) == node_at(inner2, l.drop_first()));
                assert(node_at(f, l) == node_at(inner, l.drop_first()));
            }
        }
    }
}

/// Dropping the last step of a location that still has two steps leaves a
/// valid location whose node is a list.
pub proof fn lemma_valid_loc_prefix(kids: Seq<NodeV>, loc: Seq<int>)
    requires
        valid_loc(kids, loc),
        loc.len() >= 2,
    ensures
        valid_loc(kids, loc.drop_last()),
        node_at(kids, loc.drop_last()) is List,
    decreases loc,
{
    if loc.len() == 2 {
        assert(loc.drop_last().len() == 1);
        assert(loc.drop_last()[0] == loc[0]);
    } else {
        lemma_valid_loc_prefix(kids[loc[0]]->List_kids, loc.drop_first());
        assert(loc.drop_last()[0] == loc[0]);
        assert(loc.drop_last().drop_first() =~= loc.drop_first().drop_last());
    }
}

/// A location that reaches a list node is itself a valid kid-sequence
/// address, whose kid sequence is that list's kids.
pub proof fn lemma_loc_to_ploc(kids: Seq<NodeV>, loc: Seq<int>)
    requires
        valid_loc(kids, loc),
        node_at(kids, loc) is List,
    ensures
        valid_ploc(kids, loc),
        kids_at(kids, loc) == node_at(kids, loc)->List_kids,
    decreases loc,
{
    if loc.len() == 1 {
        assert(node_at(kids, loc) == kids[loc[0]]);
        assert(kids[loc[0]] is List);
        assert(loc.drop_first().len() == 0);
        assert(valid_ploc(kids[loc[0]]->List_kids, loc.drop_first()));
        assert(kids_at(kids, loc) == kids_at(kids[loc[0]]->List_kids, loc.drop_first()));
    } else {
        assert(node_at(kids, loc) == node_at(kids[loc[0]]->List_kids, loc.drop_first()));
        lemma_loc_to_ploc(kids[loc[0]]->List_kids, loc.drop_first());
        assert(kids_at(kids, loc) == kids_at(kids[loc[0]]->List_kids, loc.drop_first()));
    }
}

impl Node {
    /// The label of this node.
    pub fn label(&self) -> (s: &String)
        ensures
            s@ == label_of(view_node(*self)),
    {
        match self {
            Node::List(l) => &l.label,
            Node::Track(t) => &t.label,
        }
    }

    /// Whether this node is a list.
    pub fn is_list(&self) -> (b: bool)
        ensures
            b == (view_node(*self) is List),
    {
        match self {
            Node::List(_) => true,
            Node::Track(_) => false,
        }
    }

    /// The track identifier of this node, when it is a track leaf.
    pub fn tid(&self) -> (t: Option<i32>)
        ensures
            t == tid_of(view_node(*self)),
    {
        match self {
            Node::List(_) => None,
            Node::Track(t) => Some(t.tid),
        }
    }
}

/// A reference to the node at `loc[d..]`, or `None` when the location does
/// not address a node.
pub fn node_at_ref<'a>(kids: &'a Vec<Node>, loc: &Vec<usize>, d: usize) -> (res: Option<&'a Node>)
    requires
        d < loc@.len(),
    ensures
        match res {
            Some(n) => valid_loc(view_forest(kids@), locv(loc@.skip(d as int))) && view_node(*n)
                == node_at(view_forest(kids@), locv(loc@.skip(d as int))),
            None => !valid_loc(view_forest(kids@), locv(loc@.skip(d as int))),
        },
    decreases loc@.len() - d,
{
    proof {
        lemma_view_forest(kids@);
        assert(locv(loc@.skip(d as int))[0] == loc@[d as int]);
        assert(locv(loc@.skip(d as int)).len() == loc@.len() - d);
    }
    let i = loc[d];
    if i >= kids.len() {
        return None;
    }
    let n = &kids[i];
    if d == loc.len() - 1 {
        return Some(n);
    }
    proof {
        assert(locv(loc@.skip(d as int)).drop_first() =~= locv(loc@.skip(d + 1 as int)));
    }
    match n {
        Node::List(l) => {
            let r = node_at_ref(&l.kids, loc, d + 1);
            proof {
                assert(view_node(kids@[i as int]) == view_forest(kids@)[i as int]);
            }
            r
        },
        Node::Track(_) => None,
    }
}

/// A reference to the kid sequence addressed by `ploc[d..]`, or `None`
/// when the address does not lead through lists.
pub fn kids_ref_at<'a>(kids: &'a Vec<Node>, ploc: &Vec<usize>, d: usize) -> (res: Option<
    &'a Vec<Node>,
>)
    requires
        d <= ploc@.len(),
    ensures
        match res {
            Some(ks) => valid_ploc(view_forest(kids@), locv(ploc@.skip(d as int))) && view_forest(
                ks@,
            ) == kids_at(view_forest(kids@), locv(ploc@.skip(d as int))),
            None => !valid_ploc(view_forest(kids@), locv(ploc@.skip(d as int))),
        },
    decreases ploc@.len() - d,
{
    proof {
        lemma_view_forest(kids@);
        assert(locv(ploc@.skip(d as int)).len() == ploc@.len() - d);
    }
    if d == ploc.len() {
        return Some(kids);
    }
    proof {
        assert(locv(ploc@.skip(d as int))[0] == ploc@[d as int]);
        assert(locv(ploc@.skip(d as int)).drop_first() =~= locv(ploc@.skip(d + 1 as int)));
    }
    let i = ploc[d];
    if i >= kids.len() {
        return None;
    }
    match &kids[i] {
        Node::List(l) => {
            let r = kids_ref_at(&l.kids, ploc, d + 1);
            proof {
                assert(view_node(kids@[i as int]) == view_forest(kids@)[i as int]);
            }
            r
        },
        Node::Track(_) => None,
    }
}

/// Appends `node` to the kid sequence addressed by `ploc[d..]`.
pub fn push_kid_at(kids: &mut Vec<Node>, ploc: &Vec<usize>, d: usize, node: Node)
    requires
        d <= ploc@.len(),
        valid_ploc(view_forest(old(kids)@), locv(ploc@.skip(d as int))),
    ensures
        view_forest(final(kids)@) == set_kids_at(
            view_forest(old(kids)@),
            locv(ploc@.skip(d as int)),
            kids_at(view_forest(old(kids)@), locv(ploc@.skip(d as int))).push(view_node(node)),
        ),
        final(kids)@.len() >= old(kids)@.len(),
    decreases ploc@.len() - d,
{
    proof {
        lemma_view_forest(old(kids)@);
        assert(locv(ploc@.skip(d as int)).len() == ploc@.len() - d);
    }
    if d == ploc.len() {
        let ghost old_kids = kids@;
        kids.push(node);
        proof {
            lemma_view_forest_push(old_kids, node);
        }
    } else {
        proof {
            assert(locv(ploc@.skip(d as int))[0] == ploc@[d as int]);
            assert(locv(ploc@.skip(d as int)).drop_first() =~= locv(ploc@.skip(d + 1 as int)));
        }
        let i = ploc[d];
        let ghost old_kids = kids@;
        let taken = kids.remove(i);
        match taken {
            Node::List(mut l) => {
                let ghost old_sub = l.kids@;
                push_kid_at(&mut l.kids, ploc, d + 1, node);
                let rebuilt = Node::List(l);
                kids.insert(i, rebuilt);
                proof {
                    assert(kids@ =~= old_kids.update(i as int, rebuilt));
                    lemma_view_forest_update(old_kids, i as int, rebuilt);
                    assert(view_node(old_kids[i as int]) == view_forest(old_kids)[i as int]);
                    assert(view_forest(kids@) =~= set_kids_at(
                        view_forest(old_kids),
                        locv(ploc@.skip(d as int)),
                        kids_at(view_forest(old_kids), locv(ploc@.skip(d as int))).push(
                            view_node(node),
                        ),
                    ));
                }
            },
            Node::Track(t) => {
                proof {
                    assert(view_node(old_kids[i as int]) == view_forest(old_kids)[i as int]);
                    assert(false);
                }
                kids.insert(i, Node::Track(t));
            },
        }
    }
}

/// Pushing onto a forest views as pushing the viewed node.
pub proof fn lemma_view_forest_push(kids: Seq<Node>, node: Node)
    ensures
        view_forest(kids.push(node)) =~= view_forest(kids).push(view_node(node)),
{
    lemma_view_forest(kids);
    lemma_view_forest(kids.push(node));
    assert(view_forest(kids.push(node)).len() == kids.len() + 1);
    assert forall|i: int| 0 <= i < kids.len() + 1 implies #[trigger] view_forest(kids.push(node))[i]
        == view_forest(kids).push(view_node(node))[i] by {
        if i < kids.len() {
            assert(kids.push(node)[i] == kids[i]);
        } else {
            assert(kids.push(node)[i] == node);
        }
    }
}

/// Updating one element of a forest views as updating the viewed node.
pub proof fn lemma_view_forest_update(kids: Seq<Node>, i: int, node: Node)
    requires
        0 <= i < kids.len(),
    ensures
        view_forest(kids.update(i, node)) =~= view_forest(kids).update(i, view_node(node)),
{
    lemma_view_forest(kids);
    lemma_view_forest(kids.update(i, node));
    assert forall|j: int| 0 <= j < kids.len() implies #[trigger] view_forest(kids.update(i, node))[j]
        == view_forest(kids).update(i, view_node(node))[j] by {
        if j == i {
            assert(kids.update(i, node)[j] == node);
        } else {
            assert(kids.update(i, node)[j] == kids[j]);
        }
    }
}

/// Removing one element of a forest views as removing the viewed node.
pub proof fn lemma_view_forest_remove(kids: Seq<Node>, i: int)
    requires
        0 <= i < kids.len(),
    ensures
        view_forest(kids.remove(i)) =~= view_forest(kids).remove(i),
{
    lemma_view_forest(kids);
    lemma_view_forest(kids.remove(i));
    assert forall|j: int| 0 <= j < kids.len() - 1 implies #[trigger] view_forest(kids.remove(i))[j]
        == view_forest(kids).remove(i)[j] by {
        if j < i {
            assert(kids.remove(i)[j] == kids[j]);
        } else {
            assert(kids.remove(i)[j] == kids[j + 1]);
        }
    }
}

/// How often the track identifier `t` occurs in the node `n`.
pub open spec fn tid_count_node(n: NodeV, t: i32) -> int
    decreases n, 0int,
{
    match n {
        NodeV::List { label, kids } => tid_count(kids, t),
        NodeV::Track { label, tid } => if tid == t {
            1int
        } else {
            0int
        },
    }
}

/// How often the track identifier `t` occurs in the forest `kids`.
pub open spec fn tid_count(kids: Seq<NodeV>, t: i32) -> int
    decreases kids, 1int,
{
    if kids.len() == 0 {
        0
    } else {
        tid_count_node(kids[0], t) + tid_count(kids.drop_first(), t)
    }
}

/// Every forest carries each identifier a non-negative number of times.
pub proof fn lemma_tid_count_nonneg(kids: Seq<NodeV>, t: i32)
    ensures
        tid_count(kids, t) >= 0,
    decreases kids, 1int,
{
    if kids.len() > 0 {
        lemma_tid_count_node_nonneg(kids[0], t);
        lemma_tid_count_nonneg(kids.drop_first(), t);
    }
}

pub proof fn lemma_tid_count_node_nonneg(n: NodeV, t: i32)
    ensures
        tid_count_node(n, t) >= 0,
    decreases n, 0int,
{
    match n {
        NodeV::List { label, kids } => lemma_tid_count_nonneg(kids, t),
        NodeV::Track { label, tid } => {
        },
    }
}

/// Counting after an update: the old kid leaves, the new kid enters.
pub proof fn lemma_tid_count_update(kids: Seq<NodeV>, j: int, n: NodeV, t: i32)
    requires
        0 <= j < kids.len(),
    ensures
        tid_count(kids.update(j, n), t) == tid_count(kids, t) - tid_count_node(kids[j], t)
            + tid_count_node(n, t),
    decreases j,
{
    if j == 0 {
        assert(kids.update(0, n).drop_first() =~= kids.drop_first());
        assert(kids.update(0, n)[0] == n);
    } else {
        lemma_tid_count_update(kids.drop_first(), j - 1, n, t);
        assert(kids.update(j, n).drop_first() =~= kids.drop_first().update(j - 1, n));
        assert(kids.update(j, n)[0] == kids[0]);
    }
}

/// Counting after a push: the new kid enters.
pub proof fn lemma_tid_count_push(kids: Seq<NodeV>, n: NodeV, t: i32)
    ensures
        tid_count(kids.push(n), t) == tid_count(kids, t) + tid_count_node(n, t),
    decreases kids.len(),
{
    assert(kids.push(n).len() > 0);
    assert(tid_count(kids.push(n), t) == tid_count_node(kids.push(n)[0], t) + tid_count(
        kids.push(n).drop_first(),
        t,
    ));
    if kids.len() == 0 {
        assert(kids.push(n)[0] == n);
        assert(kids.push(n).drop_first() =~= Seq::<NodeV>::empty());
    } else {
        lemma_tid_count_push(kids.drop_first(), n, t);
        assert(kids.push(n).drop_first() =~= kids.drop_first().push(n));
        assert(kids.push(n)[0] == kids[0]);
    }
}

/// Counting after a removal: the removed kid leaves.
pub proof fn lemma_tid_count_remove(kids: Seq<NodeV>, i: int, t: i32)
    requires
        0 <= i < kids.len(),
    ensures
        tid_count(kids.remove(i), t) == tid_count(kids, t) - tid_count_node(kids[i], t),
    decreases i,
{
    if i == 0 {
        assert(kids.remove(0) =~= kids.drop_first());
    } else {
        lemma_tid_count_remove(kids.drop_first(), i - 1, t);
        assert(kids.remove(i).drop_first() =~= kids.drop_first().remove(i - 1));
        assert(kids.remove(i)[0] == kids[0]);
        assert(kids.remove(i).len() > 0);
    }
}

/// Counting after an insertion: the new kid enters.
pub proof fn lemma_tid_count_insert(kids: Seq<NodeV>, i: int, n: NodeV, t: i32)
    requires
        0 <= i <= kids.len(),
    ensures
        tid_count(kids.insert(i, n), t) == tid_count(kids, t) + tid_count_node(n, t),
    decreases i,
{
    if i == 0 {
        assert(kids.insert(0, n)[0] == n);
        assert(kids.insert(0, n).drop_first() =~= kids);
    } else {
        lemma_tid_count_insert(kids.drop_first(), i - 1, n, t);
        assert(kids.insert(i, n).drop_first() =~= kids.drop_first().insert(i - 1, n));
        assert(kids.insert(i, n)[0] == kids[0]);
        assert(kids.insert(i, n).len() > 0);
    }
}

/// Counting after replacing the kid sequence at `ploc`: the old sequence
/// leaves, the new one enters.
pub proof fn lemma_tid_count_set_kids_at(f: Seq<NodeV>, ploc: Seq<int>, sub: Seq<NodeV>, t: i32)
    requires
        valid_ploc(f, ploc),
    ensures
        tid_count(set_kids_at(f, ploc, sub), t) == tid_count(f, t) - tid_count(
            kids_at(f, ploc),
            t,
        ) + tid_count(sub, t),
    decreases ploc,
{
    if ploc.len() == 0 {
    } else {
        let j = ploc[0];
        let inner = f[j]->List_kids;
        lemma_tid_count_set_kids_at(inner, ploc.drop_first(), sub, t);
        let n2 = NodeV::List {
            label: label_of(f[j]),
            kids: set_kids_at(inner, ploc.drop_first(), sub),
        };
        lemma_tid_count_update(f, j, n2, t);
        assert(tid_count_node(f[j], t) == tid_count(inner, t));
    }
}

/// A kid sequence with the elements `i - 1` and `i` exchanged.
pub open spec fn swapped(s: Seq<NodeV>, i: int) -> Seq<NodeV>
    recommends
        1 <= i < s.len(),
{
    s.update(i - 1, s[i]).update(i, s[i - 1])
}

/// Exchanges the kids `i - 1` and `i` of the sequence addressed by
/// `ploc[d..]`.
pub fn swap_kids_at(kids: &mut Vec<Node>, ploc: &Vec<usize>, d: usize, i: usize)
    requires
        d <= ploc@.len(),
        valid_ploc(view_forest(old(kids)@), locv(ploc@.skip(d as int))),
        1 <= i < kids_at(view_forest(old(kids)@), locv(ploc@.skip(d as int))).len(),
    ensures
        view_forest(final(kids)@) == set_kids_at(
            view_forest(old(kids)@),
            locv(ploc@.skip(d as int)),
            swapped(kids_at(view_forest(old(kids)@), locv(ploc@.skip(d as int))), i as int),
        ),
    decreases ploc@.len() - d,
{
    proof {
        lemma_view_forest(old(kids)@);
        assert(locv(ploc@.skip(d as int)).len() == ploc@.len() - d);
    }
    if d == ploc.len() {
        let ghost old_kids = kids@;
        let node = kids.remove(i);
        kids.insert(i - 1, node);
        proof {
            assert(kids@ =~= old_kids.remove(i as int).insert(i - 1, node));
            assert(kids@ =~= old_kids.update(i - 1, old_kids[i as int]).update(
                i as int,
                old_kids[i - 1],
            ));
            lemma_view_forest(kids@);
            lemma_view_forest(old_kids);
            assert(view_forest(kids@) =~= swapped(view_forest(old_kids), i as int));
        }
    } else {
        proof {
            assert(locv(ploc@.skip(d as int))[0] == ploc@[d as int]);
            assert(locv(ploc@.skip(d as int)).drop_first() =~= locv(ploc@.skip(d + 1 as int)));
        }
        let j = ploc[d];
        let ghost old_kids = kids@;
        let taken = kids.remove(j);
        match taken {
            Node::List(mut l) => {
                swap_kids_at(&mut l.kids, ploc, d + 1, i);
                let rebuilt = Node::List(l);
                kids.insert(j, rebuilt);
                proof {
                    assert(kids@ =~= old_kids.update(j as int, rebuilt));
                    lemma_view_forest_update(old_kids, j as int, rebuilt);
                    assert(view_node(old_kids[j as int]) == view_forest(old_kids)[j as int]);
                    assert(view_forest(kids@) =~= set_kids_at(
                        view_forest(old_kids),
                        locv(ploc@.skip(d as int)),
                        swapped(
                            kids_at(view_forest(old_kids), locv(ploc@.skip(d as int))),
                            i as int,
                        ),
                    ));
                }
            },
            Node::Track(t) => {
                proof {
                    assert(view_node(old_kids[j as int]) == view_forest(old_kids)[j as int]);
                    assert(false);
                }
                kids.insert(j, Node::Track(t));
            },
        }
    }
}

/// Whether the node at `loc` can be promoted: it must not sit at the top
/// level.
pub open spec fn can_promote(kids: Seq<NodeV>, loc: Seq<int>) -> bool {
    loc.len() >= 2 && valid_loc(kids, loc)
}

/// The forest after promoting the node at `loc`: the node leaves its
/// parent and becomes the last kid of its grandparent.
pub open spec fn promote_result(f: Seq<NodeV>, loc: Seq<int>) -> Seq<NodeV>
    recommends
        can_promote(f, loc),
{
    let gploc = loc.subrange(0, loc.len() - 2);
    let pj = loc[loc.len() - 2];
    let ci = loc[loc.len() - 1];
    let g = kids_at(f, gploc);
    let parent = g[pj];
    let child = kids_of(parent)[ci];
    let parent2 = NodeV::List { label: label_of(parent), kids: kids_of(parent).remove(ci) };
    set_kids_at(f, gploc, g.update(pj, parent2).push(child))
}

/// Promotes the node at `loc[d..]` within this forest.
pub fn promote_at(kids: &mut Vec<Node>, loc: &Vec<usize>, d: usize)
    requires
        d + 2 <= loc@.len(),
        valid_loc(view_forest(old(kids)@), locv(loc@.skip(d as int))),
    ensures
        view_forest(final(kids)@) == promote_result(
            view_forest(old(kids)@),
            locv(loc@.skip(d as int)),
        ),
    decreases loc@.len() - d,
{
    proof {
        lemma_view_forest(old(kids)@);
        assert(locv(loc@.skip(d as int)).len() == loc@.len() - d);
        assert(locv(loc@.skip(d as int))[0] == loc@[d as int]);
        assert(locv(loc@.skip(d as int)).drop_first() =~= locv(loc@.skip(d + 1 as int)));
    }
    let ghost lv = locv(loc@.skip(d as int));
    if d == loc.len() - 2 {
        let pj = loc[d];
        let ci = loc[d + 1];
        let ghost old_kids = kids@;
        proof {
            assert(lv[1] == loc@[d + 1]);
            assert(lv.drop_first()[0] == lv[1]);
            assert(view_node(old_kids[pj as int]) == view_forest(old_kids)[pj as int]);
        }
        let taken = kids.remove(pj);
        match taken {
            Node::List(mut l) => {
                let ghost old_sub = l.kids@;
                proof {
                    lemma_view_forest(old_sub);
                    assert(view_forest(old_kids)[pj as int]->List_kids == view_forest(old_sub));
                    assert(valid_loc(view_forest(old_kids)[pj as int]->List_kids,
                        lv.drop_first()));
                    assert(0 <= ci < old_sub.len());
                }
                let child = l.kids.remove(ci);
                let rebuilt = Node::List(l);
                kids.insert(pj, rebuilt);
                kids.push(child);
                proof {
                    let f = view_forest(old_kids);
                    let gploc = lv.subrange(0, lv.len() - 2);
                    assert(gploc =~= Seq::<int>::empty());
                    lemma_view_forest_remove(old_sub, ci as int);
                    lemma_view_forest(old_sub);
                    let parent2 = view_node(rebuilt);
                    assert(parent2 == NodeV::List {
                        label: label_of(f[pj as int]),
                        kids: kids_of(f[pj as int]).remove(ci as int),
                    });
                    let mid = old_kids.remove(pj as int).insert(pj as int, rebuilt);
                    assert(mid =~= old_kids.update(pj as int, rebuilt));
                    assert(kids@ =~= mid.push(child));
                    lemma_view_forest_update(old_kids, pj as int, rebuilt);
                    lemma_view_forest_push(mid, child);
                    assert(view_node(child) == kids_of(f[pj as int])[ci as int]);
                    assert(view_forest(kids@) =~= promote_result(f, lv));
                }
            },
            Node::Track(t) => {
                proof {
                    assert(false);
                }
                kids.insert(pj, Node::Track(t));
            },
        }
    } else {
        let j = loc[d];
        let ghost old_kids = kids@;
        let taken = kids.remove(j);
        match taken {
            Node::List(mut l) => {
                let ghost old_sub = l.kids@;
                promote_at(&mut l.kids, loc, d + 1);
                let rebuilt = Node::List(l);
                kids.insert(j, rebuilt);
                proof {
                    let f = view_forest(old_kids);
                    let sub = locv(loc@.skip(d + 1 as int));
                    assert(view_node(old_kids[j as int]) == f[j as int]);
                    assert(kids@ =~= old_kids.update(j as int, rebuilt));
                    lemma_view_forest_update(old_kids, j as int, rebuilt);
                    let gploc = lv.subrange(0, lv.len() - 2);
                    let sgploc = sub.subrange(0, sub.len() - 2);
                    assert(gploc[0] == lv[0]);
                    assert(gploc.drop_first() =~= sgploc);
                    assert(lv[lv.len() - 2] == sub[sub.len() - 2]);
                    assert(lv[lv.len() - 1] == sub[sub.len() - 1]);
                    assert(kids_at(f, gploc) == kids_at(view_forest(old_sub), sgploc));
                    assert(view_forest(kids@) =~= promote_result(f, lv));
                }
            },
            Node::Track(t) => {
                proof {
                    assert(view_node(old_kids[j as int]) == view_forest(old_kids)[j as int]);
                    assert(false);
                }
                kids.insert(j, Node::Track(t));
            },
        }
    }
}

/// Whether the node at `loc` can be demoted: it must have a previous
/// sibling and that sibling must be a list, not a track.
pub open spec fn can_demote(kids: Seq<NodeV>, loc: Seq<int>) -> bool {
    &&& valid_loc(kids, loc)
    &&& loc.last() >= 1
    &&& kids_at(kids, loc.drop_last())[loc.last() - 1] is List
}

/// The forest after demoting the node at `loc`: the node becomes the last
/// kid of its previous sibling.
pub open spec fn demote_result(f: Seq<NodeV>, loc: Seq<int>) -> Seq<NodeV>
    recommends
        can_demote(f, loc),
{
    let ploc = loc.drop_last();
    let i = loc.last();
    let g = kids_at(f, ploc);
    let node = g[i];
    let prev = g[i - 1];
    let prev2 = NodeV::List { label: label_of(prev), kids: kids_of(prev).push(node) };
    set_kids_at(f, ploc, g.update(i - 1, prev2).remove(i))
}

/// Demotes the node at `loc[d..]` within this forest.
pub fn demote_at(kids: &mut Vec<Node>, loc: &Vec<usize>, d: usize)
    requires
        d < loc@.len(),
        valid_loc(view_forest(old(kids)@), locv(loc@.skip(d as int))),
        can_demote(view_forest(old(kids)@), locv(loc@.skip(d as int))),
    ensures
        view_forest(final(kids)@) == demote_result(
            view_forest(old(kids)@),
            locv(loc@.skip(d as int)),
        ),
    decreases loc@.len() - d,
{
    proof {
        lemma_view_forest(old(kids)@);
        assert(locv(loc@.skip(d as int)).len() == loc@.len() - d);
        assert(locv(loc@.skip(d as int))[0] == loc@[d as int]);
    }
    let ghost lv = locv(loc@.skip(d as int));
    if d == loc.len() - 1 {
        let i = loc[d];
        let ghost old_kids = kids@;
        proof {
            assert(lv.drop_last() =~= Seq::<int>::empty());
            assert(lv.last() == i);
            assert(view_node(old_kids[i as int]) == view_forest(old_kids)[i as int]);
            assert(view_node(old_kids[i - 1]) == view_forest(old_kids)[i - 1]);
        }
        let node = kids.remove(i);
        let taken = kids.remove(i - 1);
        match taken {
            Node::List(mut l) => {
                let ghost old_sub = l.kids@;
                l.kids.push(node);
                let rebuilt = Node::List(l);
                kids.insert(i - 1, rebuilt);
                proof {
                    let f = view_forest(old_kids);
                    lemma_view_forest_push(old_sub, node);
                    let prev2 = view_node(rebuilt);
                    assert(prev2 == NodeV::List {
                        label: label_of(f[i - 1]),
                        kids: kids_of(f[i - 1]).push(f[i as int]),
                    });
                    assert(kids@ =~= old_kids.update(i - 1, rebuilt).remove(i as int));
                    lemma_view_forest_update(old_kids, i - 1, rebuilt);
                    lemma_view_forest_remove(old_kids.update(i - 1, rebuilt), i as int);
                    assert(view_forest(kids@) =~= demote_result(f, lv));
                }
            },
            Node::Track(t) => {
                proof {
                    assert(false);
                }
                kids.insert(i - 1, Node::Track(t));
            },
        }
    } else {
        proof {
            assert(locv(loc@.skip(d as int)).drop_first() =~= locv(loc@.skip(d + 1 as int)));
        }
        let j = loc[d];
        let ghost old_kids = kids@;
        let taken = kids.remove(j);
        match taken {
            Node::List(mut l) => {
                let ghost old_sub = l.kids@;
                proof {
                    let sub = locv(loc@.skip(d + 1 as int));
                    assert(view_node(old_kids[j as int]) == view_forest(old_kids)[j as int]);
                    assert(lv.drop_last()[0] == lv[0]);
                    assert(lv.drop_last().drop_first() =~= sub.drop_last());
                    assert(lv.last() == sub.last());
                }
                demote_at(&mut l.kids, loc, d + 1);
                let rebuilt = Node::List(l);
                kids.insert(j, rebuilt);
                proof {
                    let f = view_forest(old_kids);
                    let sub = locv(loc@.skip(d + 1 as int));
                    assert(kids@ =~= old_kids.update(j as int, rebuilt));
                    lemma_view_forest_update(old_kids, j as int, rebuilt);
                    assert(lv.drop_last()[0] == lv[0]);
                    assert(lv.drop_last().drop_first() =~= sub.drop_last());
                    assert(lv.last() == sub.last());
                    assert(view_forest(kids@) =~= demote_result(f, lv));
                }
            },
            Node::Track(t) => {
                proof {
                    assert(view_node(old_kids[j as int]) == view_forest(old_kids)[j as int]);
                    assert(false);
                }
                kids.insert(j, Node::Track(t));
            },
        }
    }
}

/// One row of the document-order listing of a forest.
pub struct EntryV {
    pub path: Seq<char>,
    pub label: Seq<char>,
    pub tid: Option<i32>,
    pub loc: Seq<int>,
}

/// An executable row of the document-order listing: the slash-joined tree
/// path, the node's own label, its track identifier when it is a track,
/// and its location.
pub struct Entry {
    pub path: String,
    pub label: String,
    pub tid: Option<i32>,
    pub loc: Vec<usize>,
}

pub open spec fn entry_view(e: Entry) -> EntryV {
    EntryV { path: e.path@, label: e.label@, tid: e.tid, loc: locv(e.loc@) }
}

pub open spec fn entry_views(es: Seq<Entry>) -> Seq<EntryV> {
    es.map_values(|e: Entry| entry_view(e))
}

/// The document-order rows of the node `n`, whose ancestors spell
/// `prefix` and whose location is `loc`.
pub open spec fn entries_of(n: NodeV, prefix: Seq<char>, loc: Seq<int>) -> Seq<EntryV>
    decreases n, 0int,
{
    let p = prefix + label_of(n);
    let e = EntryV { path: p, label: label_of(n), tid: tid_of(n), loc: loc };
    match n {
        NodeV::List { label, kids } => seq![e] + entries_from(kids, 0, p + seq!['/'], loc),
        NodeV::Track { label, tid } => seq![e],
    }
}

/// The document-order rows of the kids `kids[i..]`.
pub open spec fn entries_from(kids: Seq<NodeV>, i: int, prefix: Seq<char>, base: Seq<int>) -> Seq<
    EntryV,
>
    decreases kids, kids.len() - i,
{
    if i < 0 || i >= kids.len() {
        Seq::empty()
    } else {
        entries_of(kids[i], prefix, base.push(i)) + entries_from(kids, i + 1, prefix, base)
    }
}

/// The document-order rows of a whole forest.
pub open spec fn entries(kids: Seq<NodeV>) -> Seq<EntryV> {
    entries_from(kids, 0, Seq::empty(), Seq::empty())
}

/// The document-order rows of the kids `kids[..i]`.
pub open spec fn entries_upto(kids: Seq<NodeV>, i: int, prefix: Seq<char>, base: Seq<int>) -> Seq<
    EntryV,
>
    decreases i,
{
    if i <= 0 {
        Seq::empty()
    } else {
        entries_upto(kids, i - 1, prefix, base) + entries_of(
            kids[i - 1],
            prefix,
            base.push(i - 1),
        )
    }
}

/// The rows up to `i` and the rows from `i` together make all rows.
pub proof fn lemma_entries_split(kids: Seq<NodeV>, i: int, prefix: Seq<char>, base: Seq<int>)
    requires
        0 <= i <= kids.len(),
    ensures
        entries_upto(kids, i, prefix, base) + entries_from(kids, i, prefix, base) =~= entries_from(
            kids,
            0,
            prefix,
            base,
        ),
    decreases i,
{
    if i == 0 {
        assert(entries_upto(kids, 0, prefix, base) + entries_from(kids, 0, prefix, base)
            =~= entries_from(kids, 0, prefix, base));
    } else {
        lemma_entries_split(kids, i - 1, prefix, base);
        assert(entries_from(kids, i - 1, prefix, base) == entries_of(
            kids[i - 1],
            prefix,
            base.push(i - 1),
        ) + entries_from(kids, i, prefix, base));
        assert((entries_upto(kids, i - 1, prefix, base) + entries_of(
            kids[i - 1],
            prefix,
            base.push(i - 1),
        )) + entries_from(kids, i, prefix, base) =~= entries_upto(kids, i - 1, prefix, base) + (
        entries_of(kids[i - 1], prefix, base.push(i - 1)) + entries_from(kids, i, prefix, base)));
    }
}

/// Appends to `out` the document-order rows of this forest, whose
/// ancestors spell `prefix` and whose locations extend `base`.
pub fn collect_entries(kids: &Vec<Node>, prefix: &String, base: &Vec<usize>, out: &mut Vec<Entry>)
    ensures
        entry_views(final(out)@) == entry_views(old(out)@) + entries_from(
            view_forest(kids@),
            0,
            prefix@,
            locv(base@),
        ),
    decreases kids@,
{
    let ghost vf = view_forest(kids@);
    let ghost basev = locv(base@);
    proof {
        lemma_view_forest(kids@);
    }
    let n: usize = kids.len();
    let mut i: usize = 0;
    while i < n
        invariant
            n == kids@.len(),
            i <= n,
            vf == view_forest(kids@),
            basev == locv(base@),
            vf.len() == n,
            forall|j: int| 0 <= j < n ==> #[trigger] vf[j] == view_node(kids@[j]),
            entry_views(out@) =~= entry_views(old(out)@) + entries_upto(
                vf,
                i as int,
                prefix@,
                basev,
            ),
        decreases n - i,
    {
        let ghost out_pre = out@;
        let node = &kids[i];
        let label = node.label();
        let mut path = prefix.clone();
        path.append(label.as_str());
        let mut loc = clone_usizes(base);
        loc.push(i);
        proof {
            assert(locv(loc@) =~= basev.push(i as int));
        }
        let loc2 = clone_usizes(&loc);
        let e = Entry { path: path.clone(), label: label.clone(), tid: node.tid(), loc };
        proof {
            assert(entry_view(e) == EntryV {
                path: prefix@ + label_of(vf[i as int]),
                label: label_of(vf[i as int]),
                tid: tid_of(vf[i as int]),
                loc: basev.push(i as int),
            });
        }
        out.push(e);
        proof {
            assert(entry_views(out@) =~= entry_views(out_pre).push(entry_view(e)));
        }
        match node {
            Node::List(l) => {
                let mut p2 = path;
                p2.append("/");
                proof {
                    reveal_strlit("/");
                    assert(p2@ =~= prefix@ + label_of(vf[i as int]) + seq!['/']);
                }
                collect_entries(&l.kids, &p2, &loc2, out);
            },
            Node::Track(t) => {
            },
        }
        proof {
            let own = entries_of(vf[i as int], prefix@, basev.push(i as int));
            match vf[i as int] {
                NodeV::List { label, kids: vkids } => {
                    assert(view_node(kids@[i as int]) == vf[i as int]);
                    assert(entry_views(out@) =~= entry_views(out_pre) + (seq![entry_view(e)]
                        + entries_from(
                        vkids,
                        0,
                        prefix@ + label_of(vf[i as int]) + seq!['/'],
                        basev.push(i as int),
                    )));
                    assert(own =~= seq![entry_view(e)] + entries_from(
                        vkids,
                        0,
                        prefix@ + label_of(vf[i as int]) + seq!['/'],
                        basev.push(i as int),
                    ));
                    assert(entry_views(out@) =~= entry_views(out_pre) + own);
                },
                NodeV::Track { label, tid } => {
                    assert(own =~= seq![entry_view(e)]);
                    assert(entry_views(out@) =~= entry_views(out_pre) + own);
                },
            }
            assert(entries_upto(vf, i + 1, prefix@, basev) == entries_upto(
                vf,
                i as int,
                prefix@,
                basev,
            ) + own);
            assert(entry_views(out@) =~= entry_views(old(out)@) + entries_upto(
                vf,
                i + 1,
                prefix@,
                basev,
            ));
        }
        i = i + 1;
    }
    proof {
        lemma_entries_split(vf, n as int, prefix@, basev);
        assert(entries_from(vf, n as int, prefix@, basev).len() == 0);
        assert(entry_views(out@) =~= entry_views(old(out)@) + entries_from(
            vf,
            0,
            prefix@,
            basev,
        ));
    }
}

/// A copy of an index vector.
pub fn clone_usizes(v: &Vec<usize>) -> (r: Vec<usize>)
    ensures
        r@ == v@,
{
    let mut r: Vec<usize> = Vec::new();
    let n: usize = v.len();
    let mut i: usize = 0;
    while i < n
        invariant
            n == v@.len(),
            i <= n,
            r@ == v@.subrange(0, i as int),
        decreases n - i,
    {
        r.push(v[i]);
        proof {
            assert(r@ =~= v@.subrange(0, i + 1 as int));
        }
        i = i + 1;
    }
    proof {
        assert(r@ =~= v@);
    }
    r
}

/// The index of the first kid whose label is `lab`, or the kid count when
/// no kid carries that label.
pub open spec fn first_labeled(kids: Seq<NodeV>, lab: Seq<char>) -> int
    decreases kids.len(),
{
    if kids.len() == 0 {
        0
    } else if label_of(kids[0]) == lab {
        0
    } else {
        1 + first_labeled(kids.drop_first(), lab)
    }
}

pub proof fn lemma_first_labeled_is(kids: Seq<NodeV>, lab: Seq<char>, k: int)
    requires
        0 <= k <= kids.len(),
        k < kids.len() ==> label_of(kids[k]) == lab,
        forall|j: int| 0 <= j < k ==> label_of(#[trigger] kids[j]) != lab,
    ensures
        first_labeled(kids, lab) == k,
    decreases kids.len(),
{
    if kids.len() == 0 {
    } else if label_of(kids[0]) == lab {
        assert(k == 0);
    } else {
        assert(k >= 1);
        assert(forall|j: int|
            0 <= j < k - 1 ==> kids.drop_first()[j] == kids[j + 1] && label_of(
                #[trigger] kids.drop_first()[j],
            ) != lab);
        lemma_first_labeled_is(kids.drop_first(), lab, k - 1);
    }
}

/// The index of the first kid that is a list with label `lab`, or the
/// kid count when no list carries that label.
pub open spec fn first_list_labeled(kids: Seq<NodeV>, lab: Seq<char>) -> int
    decreases kids.len(),
{
    if kids.len() == 0 {
        0
    } else if kids[0] is List && label_of(kids[0]) == lab {
        0
    } else {
        1 + first_list_labeled(kids.drop_first(), lab)
    }
}

pub proof fn lemma_first_list_labeled_is(kids: Seq<NodeV>, lab: Seq<char>, k: int)
    requires
        0 <= k <= kids.len(),
        k < kids.len() ==> kids[k] is List && label_of(kids[k]) == lab,
        forall|j: int|
            0 <= j < k ==> !(#[trigger] kids[j] is List && label_of(kids[j]) == lab),
    ensures
        first_list_labeled(kids, lab) == k,
    decreases kids.len(),
{
    if kids.len() == 0 {
    } else if kids[0] is List && label_of(kids[0]) == lab {
        assert(k == 0);
    } else {
        assert(k >= 1);
        assert(forall|j: int| 0 <= j < k - 1 ==> kids.drop_first()[j] == kids[j + 1]);
        lemma_first_list_labeled_is(kids.drop_first(), lab, k - 1);
    }
}

pub proof fn lemma_first_list_labeled_bound(kids: Seq<NodeV>, lab: Seq<char>)
    ensures
        0 <= first_list_labeled(kids, lab) <= kids.len(),
        first_list_labeled(kids, lab) < kids.len() ==> kids[first_list_labeled(kids, lab)] is List
            && label_of(kids[first_list_labeled(kids, lab)]) == lab,
    decreases kids.len(),
{
    if kids.len() > 0 && !(kids[0] is List && label_of(kids[0]) == lab) {
        lemma_first_list_labeled_bound(kids.drop_first(), lab);
    }
}

/// The index of the first top-level list labeled `lab`, or the kid count.
pub fn find_first_list_labeled(kids: &Vec<Node>, lab: &Vec<char>) -> (r: usize)
    ensures
        r == first_list_labeled(view_forest(kids@), lab@),
        r <= kids@.len(),
    decreases kids@.len(),
{
    proof {
        lemma_view_forest(kids@);
    }
    let n: usize = kids.len();
    let mut i: usize = 0;
    while i < n
        invariant
            n == kids@.len(),
            i <= n,
            view_forest(kids@).len() == n,
            forall|j: int| 0 <= j < n ==> #[trigger] view_forest(kids@)[j] == view_node(kids@[j]),
            forall|j: int|
                0 <= j < i ==> !(#[trigger] view_forest(kids@)[j] is List && label_of(
                    view_forest(kids@)[j],
                ) == lab@),
        decreases n - i,
    {
        let node = &kids[i];
        if node.is_list() {
            let lchars = crate::chars::chars_of(node.label().as_str());
            if crate::chars::chars_eq(&lchars, lab) {
                proof {
                    lemma_first_list_labeled_is(view_forest(kids@), lab@, i as int);
                }
                return i;
            }
        }
        i = i + 1;
    }
    proof {
        lemma_first_list_labeled_is(view_forest(kids@), lab@, n as int);
    }
    n
}

/// The location of the node reached by following the labels `segs`,
/// taking at each step the first kid with the wanted label, or `None`
/// when a label is missing or an inner step reaches a track.
pub open spec fn resolve(kids: Seq<NodeV>, segs: Seq<Seq<char>>) -> Option<Seq<int>>
    recommends
        segs.len() > 0,
    decreases segs.len(),
{
    let i = first_labeled(kids, segs[0]);
    if i >= kids.len() {
        None
    } else if segs.len() <= 1 {
        Some(seq![i])
    } else if kids[i] is List {
        match resolve(kids[i]->List_kids, segs.drop_first()) {
            Some(r) => Some(seq![i] + r),
            None => None,
        }
    } else {
        None
    }
}

/// A resolved location is valid and as long as the label chain.
pub proof fn lemma_resolve_valid(kids: Seq<NodeV>, segs: Seq<Seq<char>>)
    requires
        segs.len() > 0,
        resolve(kids, segs) is Some,
    ensures
        valid_loc(kids, resolve(kids, segs)->Some_0),
        resolve(kids, segs)->Some_0.len() == segs.len(),
        label_of(node_at(kids, resolve(kids, segs)->Some_0)) == segs.last(),
    decreases segs.len(),
{
    let i = first_labeled(kids, segs[0]);
    lemma_first_labeled_bound(kids, segs[0]);
    if segs.len() == 1 {
    } else {
        lemma_resolve_valid(kids[i]->List_kids, segs.drop_first());
        let r = resolve(kids[i]->List_kids, segs.drop_first())->Some_0;
        let full = seq![i] + r;
        assert(full.drop_first() =~= r);
        assert(segs.drop_first().last() == segs.last());
    }
}

/// `first_labeled` stays within bounds and, when in range, hits the label.
pub proof fn lemma_first_labeled_bound(kids: Seq<NodeV>, lab: Seq<char>)
    ensures
        0 <= first_labeled(kids, lab) <= kids.len(),
        first_labeled(kids, lab) < kids.len() ==> label_of(kids[first_labeled(kids, lab)]) == lab,
        forall|j: int| 0 <= j < first_labeled(kids, lab) ==> label_of(#[trigger] kids[j]) != lab,
    decreases kids.len(),
{
    if kids.len() > 0 && label_of(kids[0]) != lab {
        lemma_first_labeled_bound(kids.drop_first(), lab);
        assert(forall|j: int|
            1 <= j < first_labeled(kids, lab) ==> kids[j] == kids.drop_first()[j - 1]
                && label_of(#[trigger] kids[j]) == label_of(kids.drop_first()[j - 1]));
    }
}

/// The index of the first kid with label `lab`, or the kid count.
pub fn find_first_labeled(kids: &Vec<Node>, lab: &Vec<char>) -> (r: usize)
    ensures
        r == first_labeled(view_forest(kids@), lab@),
        r <= kids@.len(),
    decreases kids@.len(),
{
    proof {
        lemma_view_forest(kids@);
    }
    let n: usize = kids.len();
    let mut i: usize = 0;
    while i < n
        invariant
            n == kids@.len(),
            i <= n,
            view_forest(kids@).len() == n,
            forall|j: int| 0 <= j < n ==> #[trigger] view_forest(kids@)[j] == view_node(kids@[j]),
            forall|j: int|
                0 <= j < i ==> label_of(#[trigger] view_forest(kids@)[j]) != lab@,
        decreases n - i,
    {
        let node = &kids[i];
        let lchars = crate::chars::chars_of(node.label().as_str());
        if crate::chars::chars_eq(&lchars, lab) {
            proof {
                lemma_first_labeled_is(view_forest(kids@), lab@, i as int);
            }
            return i;
        }
        i = i + 1;
    }
    proof {
        lemma_first_labeled_is(view_forest(kids@), lab@, n as int);
    }
    n
}

/// Follows the labels `segs[d..]` from this forest, appending the child
/// indices to `out`; leaves `out` as it was when the chain cannot be
/// followed.
pub fn resolve_loc(kids: &Vec<Node>, segs: &Vec<Vec<char>>, d: usize, out: &mut Vec<usize>) -> (ok:
    bool)
    requires
        d < segs@.len(),
    ensures
        ({
            let res = resolve(
                view_forest(kids@),
                crate::chars::seq_views(segs@).skip(d as int),
            );
            match res {
                Some(l) => ok && locv(final(out)@) == locv(old(out)@) + l,
                None => !ok && final(out)@ == old(out)@,
            }
        }),
    decreases segs@.len() - d,
{
    let ghost segv = crate::chars::seq_views(segs@).skip(d as int);
    proof {
        lemma_view_forest(kids@);
        assert(segv[0] == segs@[d as int]@);
        assert(segv.len() == segs@.len() - d);
    }
    let i = find_first_labeled(kids, &segs[d]);
    if i >= kids.len() {
        proof {
            lemma_first_labeled_bound(view_forest(kids@), segs@[d as int]@);
        }
        return false;
    }
    if d == segs.len() - 1 {
        out.push(i);
        proof {
            assert(locv(out@) =~= locv(old(out)@) + seq![i as int]);
        }
        return true;
    }
    proof {
        assert(segv.drop_first() =~= crate::chars::seq_views(segs@).skip(d + 1 as int));
    }
    match &kids[i] {
        Node::List(l) => {
            let ghost out_pre = out@;
            out.push(i);
            let ok = resolve_loc(&l.kids, segs, d + 1, out);
            if ok {
                proof {
                    let r = resolve(view_forest(l.kids@), segv.drop_first())->Some_0;
                    assert(locv(out@) =~= locv(out_pre) + (seq![i as int] + r));
                }
                true
            } else {
                let popped = out.pop();
                proof {
                    assert(out@ =~= out_pre);
                }
                false
            }
        },
        Node::Track(t) => {
            proof {
                assert(view_node(kids@[i as int]) == view_forest(kids@)[i as int]);
            }
            false
        },
    }
}

/// Removes and returns the `i`-th kid of the sequence addressed by
/// `ploc[d..]`.
pub fn remove_kid_at(kids: &mut Vec<Node>, ploc: &Vec<usize>, d: usize, i: usize) -> (node: Node)
    requires
        d <= ploc@.len(),
        valid_ploc(view_forest(old(kids)@), locv(ploc@.skip(d as int))),
        i < kids_at(view_forest(old(kids)@), locv(ploc@.skip(d as int))).len(),
    ensures
        view_node(node) == kids_at(view_forest(old(kids)@), locv(ploc@.skip(d as int)))[i as int],
        view_forest(final(kids)@) == set_kids_at(
            view_forest(old(kids)@),
            locv(ploc@.skip(d as int)),
            kids_at(view_forest(old(kids)@), locv(ploc@.skip(d as int))).remove(i as int),
        ),
    decreases ploc@.len() - d,
{
    proof {
        lemma_view_forest(old(kids)@);
        assert(locv(ploc@.skip(d as int)).len() == ploc@.len() - d);
    }
    if d == ploc.len() {
        let ghost old_kids = kids@;
        let node = kids.remove(i);
        proof {
            lemma_view_forest_remove(old_kids, i as int);
            assert(view_node(node) == view_forest(old_kids)[i as int]);
        }
        node
    } else {
        proof {
            assert(locv(ploc@.skip(d as int))[0] == ploc@[d as int]);
            assert(locv(ploc@.skip(d as int)).drop_first() =~= locv(ploc@.skip(d + 1 as int)));
        }
        let j = ploc[d];
        let ghost old_kids = kids@;
        let taken = kids.remove(j);
        match taken {
            Node::List(mut l) => {
                let node = remove_kid_at(&mut l.kids, ploc, d + 1, i);
                let rebuilt = Node::List(l);
                kids.insert(j, rebuilt);
                proof {
                    assert(kids@ =~= old_kids.update(j as int, rebuilt));
                    lemma_view_forest_update(old_kids, j as int, rebuilt);
                    assert(view_node(old_kids[j as int]) == view_forest(old_kids)[j as int]);
                    assert(view_forest(kids@) =~= set_kids_at(
                        view_forest(old_kids),
                        locv(ploc@.skip(d as int)),
                        kids_at(view_forest(old_kids), locv(ploc@.skip(d as int))).remove(i as int),
                    ));
                }
                node
            },
            Node::Track(t) => {
                proof {
                    assert(view_node(old_kids[j as int]) == view_forest(old_kids)[j as int]);
                    assert(false);
                }
                kids.insert(j, Node::Track(t));
                Node::Track(TrackNode { label: String::new(), tid: 0 })
            },
        }
    }
}

} // verus!
