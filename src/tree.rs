use vstd::prelude::*;
use vstd::std_specs::iter::IteratorSpec;

mod render;

pub use render::{ancestry, bar, is_last, labels_from, children_order, forest_order, header, line_head, lines, node_line, subtree_order};

verus! {

/// One node of an [`ImmutableTree`]: a value with its position, depth,
/// parent and the index range of its direct children.
#[derive(Clone, Copy, Debug, PartialEq, Eq, PartialOrd, Ord, Hash)]
pub struct ImmutableTreeNode<T> {
    val: T,
    idx: usize,
    layer: usize,
    parent: Option<usize>,
    children_anchors: Option<(usize, usize)>,
}

/// A tree kept as a flat, append-only sequence of nodes.
///
/// Nodes are stored layer by layer; the children of one parent form one
/// contiguous block, and a node's position is its identity.
#[derive(Clone, PartialEq, Eq, PartialOrd, Ord, Hash)]
pub struct ImmutableTree<T> {
    items: Vec<ImmutableTreeNode<T>>,
    root_count: usize,
}

impl<T> ImmutableTreeNode<T> {
    /// The payload.
    pub closed spec fn spec_val(&self) -> T {
        self.val
    }

    /// The node's position in its tree.
    pub closed spec fn spec_idx(&self) -> nat {
        self.idx as nat
    }

    /// The node's depth: 0 for a root.
    pub closed spec fn spec_layer(&self) -> nat {
        self.layer as nat
    }

    /// The position of the parent; `None` for a root.
    pub closed spec fn spec_parent(&self) -> Option<usize> {
        self.parent
    }

    /// The range `[start, end)` of the direct children; `None` for a leaf.
    pub closed spec fn spec_anchors(&self) -> Option<(usize, usize)> {
        self.children_anchors
    }
}

/// Node `i` has its own position as `idx`, a layer no larger than that
/// position, and is a root exactly when it is among the first `roots` nodes.
pub open spec fn node_placed<T>(n: Seq<ImmutableTreeNode<T>>, roots: nat, i: int) -> bool {
    &&& n[i].spec_idx() == i
    &&& n[i].spec_layer() <= i
    &&& (i < roots) == (n[i].spec_parent() is None)
    &&& i < roots ==> n[i].spec_layer() == 0
}

/// The parent of node `i` comes before it, lies one layer up, and lists `i`
/// in its anchor range.
pub open spec fn parent_linked<T>(n: Seq<ImmutableTreeNode<T>>, i: int) -> bool {
    n[i].spec_parent() is Some ==> {
        let p = n[i].spec_parent().unwrap() as int;
        &&& 0 <= p < i
        &&& n[p].spec_layer() + 1 == n[i].spec_layer()
        &&& n[p].spec_anchors() is Some
        &&& n[p].spec_anchors().unwrap().0 <= i < n[p].spec_anchors().unwrap().1
    }
}

/// The anchor range of node `i`, when present, is a non-empty range of
/// later nodes inside the sequence.
pub open spec fn anchors_in_range<T>(n: Seq<ImmutableTreeNode<T>>, i: int) -> bool {
    n[i].spec_anchors() is Some ==> {
        let (s, e) = n[i].spec_anchors().unwrap();
        i < s < e <= n.len()
    }
}

/// Every node inside the anchor range of node `i` has `i` as its parent.
pub open spec fn anchors_are_children<T>(n: Seq<ImmutableTreeNode<T>>, i: int, j: int) -> bool {
    (n[i].spec_anchors() is Some && n[i].spec_anchors().unwrap().0 <= j
        < n[i].spec_anchors().unwrap().1) ==> n[j].spec_parent() == Some(i as usize)
}

/// Child blocks follow the order of their parents: when nodes `i < j` both
/// have children, the block of `i` ends before the block of `j` starts.
pub open spec fn blocks_ordered<T>(n: Seq<ImmutableTreeNode<T>>, i: int, j: int) -> bool {
    (i < j && n[i].spec_anchors() is Some && n[j].spec_anchors() is Some) ==> n[i].spec_anchors().unwrap().1
        <= n[j].spec_anchors().unwrap().0
}

/// The structural invariant of a node sequence with `roots` roots.
pub open spec fn nodes_wf<T>(n: Seq<ImmutableTreeNode<T>>, roots: nat) -> bool {
    &&& roots <= n.len()
    &&& forall|i: int| 0 <= i < n.len() ==> #[trigger] node_placed(n, roots, i)
    &&& forall|i: int| 0 <= i < n.len() ==> #[trigger] parent_linked(n, i)
    &&& forall|i: int| 0 <= i < n.len() ==> #[trigger] anchors_in_range(n, i)
    &&& forall|i: int, j: int|
        0 <= i < n.len() && 0 <= j < n.len() ==> #[trigger] anchors_are_children(n, i, j)
    &&& forall|i: int, j: int|
        0 <= i < n.len() && 0 <= j < n.len() ==> #[trigger] blocks_ordered(n, i, j)
    &&& forall|i: int, j: int|
        0 <= i <= j < n.len() ==> #[trigger] n[i].spec_layer() <= #[trigger] n[j].spec_layer()
}

/// The children that one call of an expansion function produced: none when
/// it returned `None`.
pub open spec fn kid_seq<T>(o: Option<Vec<T>>) -> Seq<T> {
    match o {
        Some(v) => v@,
        None => Seq::empty(),
    }
}

/// The number of children produced for the first `j` frontier nodes.
pub open spec fn offset<T>(kids: Seq<Seq<T>>, j: int) -> nat
    decreases j,
{
    if j <= 0 {
        0
    } else {
        offset(kids, j - 1) + kids[j - 1].len()
    }
}

/// The first position of the block of equal layers that ends at `k`.
pub open spec fn layer_start<T>(n: Seq<ImmutableTreeNode<T>>, k: int) -> int
    decreases k,
{
    if k <= 0 {
        0
    } else if n[k - 1].spec_layer() == n.last().spec_layer() {
        layer_start(n, k - 1)
    } else {
        k
    }
}

/// The position of the first node of the deepest layer.
pub open spec fn frontier_start<T>(n: Seq<ImmutableTreeNode<T>>) -> int {
    layer_start(n, n.len() as int)
}

/// Node `i` of `new` is node `i` of `old` with the same value, index, layer
/// and parent.
pub open spec fn same_node<T>(old: Seq<ImmutableTreeNode<T>>, new: Seq<ImmutableTreeNode<T>>, i: int) -> bool {
    &&& new[i].spec_val() == old[i].spec_val()
    &&& new[i].spec_idx() == old[i].spec_idx()
    &&& new[i].spec_layer() == old[i].spec_layer()
    &&& new[i].spec_parent() == old[i].spec_parent()
}

/// `new` is `old` after the frontier nodes from `fs` on were handed the
/// children `kids` (one sequence per frontier node, in order): each
/// non-empty sequence becomes one block of nodes on layer `layer`,
/// appended in frontier order, and its parent's anchors span that block.
pub open spec fn grown<T>(
    old: Seq<ImmutableTreeNode<T>>,
    new: Seq<ImmutableTreeNode<T>>,
    fs: int,
    kids: Seq<Seq<T>>,
    layer: nat,
) -> bool {
    &&& 0 <= fs
    &&& fs + kids.len() <= old.len()
    &&& new.len() == old.len() + offset(kids, kids.len() as int)
    &&& forall|i: int| 0 <= i < old.len() ==> #[trigger] same_node(old, new, i)
    &&& forall|i: int|
        0 <= i < old.len() && !(fs <= i < fs + kids.len()) ==> (#[trigger] new[i]).spec_anchors()
            == old[i].spec_anchors()
    &&& forall|j: int|
        0 <= j < kids.len() ==> (#[trigger] new[fs + j]).spec_anchors() == if kids[j].len() == 0 {
            None
        } else {
            Some(
                (
                    (old.len() + offset(kids, j)) as usize,
                    (old.len() + offset(kids, j + 1)) as usize,
                ),
            )
        }
    &&& forall|j: int, m: int|
        0 <= j < kids.len() && 0 <= m < kids[j].len() ==> {
            let k = old.len() + offset(kids, j) + m;
            &&& new[k].spec_val() == #[trigger] kids[j][m]
            &&& new[k].spec_idx() == k
            &&& new[k].spec_layer() == layer
            &&& new[k].spec_parent() == Some((fs + j) as usize)
            &&& new[k].spec_anchors() is None
        }
}

/// `new` is `old` grown by one layer through `f`: `outs` holds what `f`
/// returned for each node of the deepest layer of `old`, in storage order.
pub open spec fn layer_added<T, F: Fn(&T) -> Option<Vec<T>>>(
    f: F,
    old: Seq<ImmutableTreeNode<T>>,
    new: Seq<ImmutableTreeNode<T>>,
    outs: Seq<Option<Vec<T>>>,
) -> bool {
    let fs = frontier_start(old);
    &&& outs.len() == old.len() - fs
    &&& forall|j: int|
        0 <= j < outs.len() ==> call_ensures(f, (&old[fs + j].spec_val(),), #[trigger] outs[j])
    &&& grown(old, new, fs, outs.map_values(|o: Option<Vec<T>>| kid_seq(o)), old.last().spec_layer() + 1)
}

/// Every possible result of `f` on every node of the deepest layer of `n`
/// is empty.
pub open spec fn frontier_exhausted<T, F: Fn(&T) -> Option<Vec<T>>>(
    f: F,
    n: Seq<ImmutableTreeNode<T>>,
) -> bool {
    forall|i: int, r: Option<Vec<T>>|
        frontier_start(n) <= i < n.len() && #[trigger] call_ensures(f, (&n[i].spec_val(),), r)
            ==> kid_seq(r).len() == 0
}

proof fn lemma_layer_start<T>(n: Seq<ImmutableTreeNode<T>>, k: int)
    requires
        0 <= k <= n.len(),
        forall|i: int| k <= i < n.len() ==> n[i].spec_layer() == n.last().spec_layer(),
    ensures
        0 <= layer_start(n, k) <= k,
        forall|i: int| layer_start(n, k) <= i < n.len() ==> n[i].spec_layer() == n.last().spec_layer(),
        layer_start(n, k) > 0 ==> n[layer_start(n, k) - 1].spec_layer() != n.last().spec_layer(),
    decreases k,
{
    if k > 0 && n[k - 1].spec_layer() == n.last().spec_layer() {
        lemma_layer_start(n, k - 1);
    }
}

/// What the deepest layer of a well-formed, non-empty node sequence is.
proof fn lemma_frontier<T>(n: Seq<ImmutableTreeNode<T>>, roots: nat)
    requires
        nodes_wf(n, roots),
        n.len() > 0,
    ensures
        0 <= frontier_start(n) < n.len(),
        n.last().spec_layer() < n.len(),
        forall|i: int| frontier_start(n) <= i < n.len() ==> n[i].spec_layer() == n.last().spec_layer(),
        forall|i: int| 0 <= i < frontier_start(n) ==> n[i].spec_layer() < n.last().spec_layer(),
        forall|i: int| 0 <= i < n.len() ==> n[i].spec_layer() <= n.last().spec_layer(),
        forall|i: int| frontier_start(n) <= i < n.len() ==> n[i].spec_anchors() is None,
        forall|i: int|
            0 <= i < n.len() && n[i].spec_parent() is Some ==> n[i].spec_parent().unwrap()
                < frontier_start(n),
{
    let last = n.len() - 1;
    assert(node_placed(n, roots, last));
    lemma_layer_start(n, n.len() as int);
    let fs = frontier_start(n);
    assert forall|i: int| 0 <= i < fs implies n[i].spec_layer() < n.last().spec_layer() by {
        assert(n[i].spec_layer() <= n[fs - 1].spec_layer());
        assert(n[fs - 1].spec_layer() <= n[last].spec_layer());
    }
    assert forall|i: int| 0 <= i < n.len() implies n[i].spec_layer() <= n.last().spec_layer() by {
        assert(n[i].spec_layer() <= n[last].spec_layer());
    }
    assert forall|i: int| fs <= i < n.len() implies n[i].spec_anchors() is None by {
        assert(anchors_in_range(n, i));
        if n[i].spec_anchors() is Some {
            let c = n[i].spec_anchors().unwrap().0 as int;
            assert(anchors_are_children(n, i, c));
            assert(parent_linked(n, c));
            assert(n[c].spec_layer() <= n[last].spec_layer());
        }
    }
    assert forall|i: int| 0 <= i < n.len() && n[i].spec_parent() is Some implies n[i].spec_parent().unwrap()
        < fs by {
        assert(parent_linked(n, i));
        assert(n[i].spec_layer() <= n[last].spec_layer());
    }
}

/// Appending one block of children under frontier node `p`, which had none,
/// keeps a node sequence well formed.
proof fn lemma_block_wf<T>(
    prev: Seq<ImmutableTreeNode<T>>,
    next: Seq<ImmutableTreeNode<T>>,
    roots: nat,
    p: int,
    count: nat,
)
    requires
        nodes_wf(prev, roots),
        0 <= p < prev.len(),
        forall|i: int| p <= i < prev.len() ==> prev[i].spec_anchors() is None,
        forall|i: int| 0 <= i < prev.len() ==> prev[i].spec_parent() != Some(p as usize),
        forall|i: int| 0 <= i < prev.len() ==> prev[i].spec_layer() <= prev[p].spec_layer() + 1,
        next.len() == prev.len() + count,
        next.len() <= usize::MAX,
        forall|i: int| 0 <= i < prev.len() && i != p ==> next[i] == prev[i],
        same_node(prev, next, p),
        next[p].spec_anchors() == if count == 0 {
            None
        } else {
            Some((prev.len() as usize, (prev.len() + count) as usize))
        },
        forall|k: int|
            prev.len() <= k < next.len() ==> {
                &&& (#[trigger] next[k]).spec_idx() == k
                &&& next[k].spec_layer() == prev[p].spec_layer() + 1
                &&& next[k].spec_parent() == Some(p as usize)
                &&& next[k].spec_anchors() is None
            },
    ensures
        nodes_wf(next, roots),
{
    let np = prev.len() as int;
    assert(node_placed(prev, roots, p));
    assert forall|i: int| 0 <= i < next.len() implies #[trigger] node_placed(next, roots, i) by {
        if i < np {
            assert(node_placed(prev, roots, i));
        } else {
            assert(parent_linked(prev, p));
        }
    }
    assert forall|i: int| 0 <= i < next.len() implies #[trigger] parent_linked(next, i) by {
        if i < np {
            assert(parent_linked(prev, i));
            if next[i].spec_parent() is Some {
                let q = next[i].spec_parent().unwrap() as int;
                assert(q != p);
                assert(next[q] == prev[q]);
            }
        } else {
            assert(next[p].spec_layer() == prev[p].spec_layer());
        }
    }
    assert forall|i: int| 0 <= i < next.len() implies #[trigger] anchors_in_range(next, i) by {
        if i < np && i != p {
            assert(anchors_in_range(prev, i));
        }
    }
    assert forall|i: int, j: int| 0 <= i < next.len() && 0 <= j < next.len() implies #[trigger] anchors_are_children(next, i, j) by {
        if i < np && i != p && j < np {
            assert(anchors_are_children(prev, i, j));
        } else if i < np && i != p {
            assert(anchors_in_range(prev, i));
        }
    }
    assert forall|i: int, j: int| 0 <= i < next.len() && 0 <= j < next.len() implies #[trigger] blocks_ordered(next, i, j) by {
        if i < np && j < np && i != p && j != p {
            assert(blocks_ordered(prev, i, j));
        } else if i < np && i != p {
            assert(anchors_in_range(prev, i));
        }
    }
    assert forall|i: int, j: int| 0 <= i <= j < next.len() implies #[trigger] next[i].spec_layer() <= #[trigger] next[j].spec_layer() by {
        if j < np {
            assert(prev[i].spec_layer() <= prev[j].spec_layer());
        } else if i < np {
            assert(prev[i].spec_layer() <= prev[p].spec_layer() + 1);
        }
    }
}

proof fn lemma_offset_push<T>(kids: Seq<Seq<T>>, xs: Seq<T>, j: int)
    requires
        0 <= j <= kids.len(),
    ensures
        offset(kids.push(xs), j) == offset(kids, j),
    decreases j,
{
    if j > 0 {
        lemma_offset_push(kids, xs, j - 1);
    }
}

proof fn lemma_offset_zero<T>(kids: Seq<Seq<T>>, j: int)
    requires
        0 <= j <= kids.len(),
        forall|m: int| 0 <= m < kids.len() ==> (#[trigger] kids[m]).len() == 0,
    ensures
        offset(kids, j) == 0,
    decreases j,
{
    if j > 0 {
        lemma_offset_zero(kids, j - 1);
    }
}

/// One more frontier node handled: `next` is `prev` with the children `xs`
/// appended under node `fs + kids.len()`.
proof fn lemma_grown_step<T>(
    old: Seq<ImmutableTreeNode<T>>,
    prev: Seq<ImmutableTreeNode<T>>,
    next: Seq<ImmutableTreeNode<T>>,
    fs: int,
    kids: Seq<Seq<T>>,
    xs: Seq<T>,
    layer: nat,
)
    requires
        grown(old, prev, fs, kids, layer),
        fs + kids.len() < old.len(),
        next.len() == prev.len() + xs.len(),
        next.len() <= usize::MAX,
        forall|i: int| 0 <= i < prev.len() && i != fs + kids.len() ==> next[i] == prev[i],
        same_node(prev, next, fs + kids.len()),
        next[fs + kids.len()].spec_anchors() == if xs.len() == 0 {
            None
        } else {
            Some((prev.len() as usize, next.len() as usize))
        },
        forall|m: int|
            0 <= m < xs.len() ==> {
                let k = prev.len() + m;
                &&& next[k].spec_val() == #[trigger] xs[m]
                &&& next[k].spec_idx() == k
                &&& next[k].spec_layer() == layer
                &&& next[k].spec_parent() == Some((fs + kids.len()) as usize)
                &&& next[k].spec_anchors() is None
            },
    ensures
        grown(old, next, fs, kids.push(xs), layer),
{
    let nk = kids.push(xs);
    let p = fs + kids.len();
    assert forall|j: int| 0 <= j <= kids.len() implies offset(nk, j) == offset(kids, j) by {
        lemma_offset_push(kids, xs, j);
    }
    assert(offset(nk, nk.len() as int) == offset(kids, kids.len() as int) + xs.len());
    assert forall|i: int| 0 <= i < old.len() implies #[trigger] same_node(old, next, i) by {
        assert(same_node(old, prev, i));
    }
    assert forall|i: int|
        0 <= i < old.len() && !(fs <= i < fs + nk.len()) implies (#[trigger] next[i]).spec_anchors()
        == old[i].spec_anchors() by {
        assert(next[i] == prev[i]);
    }
    assert forall|j: int| 0 <= j < nk.len() implies (#[trigger] next[fs + j]).spec_anchors() == if nk[j].len() == 0 {
        None
    } else {
        Some(((old.len() + offset(nk, j)) as usize, (old.len() + offset(nk, j + 1)) as usize))
    } by {
        if j < kids.len() {
            assert(prev[fs + j] == next[fs + j]);
            assert(kids[j] == nk[j]);
            assert(prev[fs + j].spec_anchors() == if kids[j].len() == 0 {
                None
            } else {
                Some(((old.len() + offset(kids, j)) as usize, (old.len() + offset(kids, j + 1)) as usize))
            });
        }
    }
    assert forall|j: int, m: int| 0 <= j < nk.len() && 0 <= m < nk[j].len() implies {
        let k = old.len() + offset(nk, j) + m;
        &&& next[k].spec_val() == #[trigger] nk[j][m]
        &&& next[k].spec_idx() == k
        &&& next[k].spec_layer() == layer
        &&& next[k].spec_parent() == Some((fs + j) as usize)
        &&& next[k].spec_anchors() is None
    } by {
        if j < kids.len() {
            assert(kids[j][m] == nk[j][m]);
            lemma_offset_push(kids, xs, j + 1);
            let k = old.len() + offset(kids, j) + m;
            assert(offset(kids, j + 1) <= offset(kids, kids.len() as int)) by {
                lemma_offset_mono(kids, j + 1, kids.len() as int);
            }
            assert(next[k] == prev[k]);
        } else {
            assert(nk[j] == xs);
            assert(xs[m] == nk[j][m]);
        }
    }
    assert(grown(old, next, fs, nk, layer));
}

proof fn lemma_offset_mono<T>(kids: Seq<Seq<T>>, a: int, b: int)
    requires
        0 <= a <= b <= kids.len(),
    ensures
        offset(kids, a) <= offset(kids, b),
    decreases b - a,
{
    if a < b {
        lemma_offset_mono(kids, a, b - 1);
    }
}

/// `new` keeps every node of `old` in place, with its value, index, layer
/// and parent, and may add nodes after them.
pub open spec fn extends<T>(old: Seq<ImmutableTreeNode<T>>, new: Seq<ImmutableTreeNode<T>>) -> bool {
    &&& old.len() <= new.len()
    &&& forall|i: int| 0 <= i < old.len() ==> #[trigger] same_node(old, new, i)
}

proof fn lemma_grown_extends<T>(
    old: Seq<ImmutableTreeNode<T>>,
    new: Seq<ImmutableTreeNode<T>>,
    fs: int,
    kids: Seq<Seq<T>>,
    layer: nat,
)
    requires
        grown(old, new, fs, kids, layer),
    ensures
        extends(old, new),
{
}

/// A pass that appended nothing changed nothing.
proof fn lemma_grown_same<T>(
    old: Seq<ImmutableTreeNode<T>>,
    new: Seq<ImmutableTreeNode<T>>,
    fs: int,
    kids: Seq<Seq<T>>,
    layer: nat,
)
    requires
        grown(old, new, fs, kids, layer),
        fs + kids.len() == old.len(),
        new.len() == old.len(),
        forall|i: int| fs <= i < old.len() ==> old[i].spec_anchors() is None,
    ensures
        new == old,
{
    assert forall|j: int| 0 <= j < kids.len() implies kids[j].len() == 0 by {
        lemma_offset_mono(kids, j + 1, kids.len() as int);
    }
    assert forall|i: int| 0 <= i < old.len() implies new[i] == old[i] by {
        assert(same_node(old, new, i));
        if fs <= i {
            assert(new[fs + (i - fs)].spec_anchors() is None);
        }
    }
    assert(new =~= old);
}

/// `b` is what one [`ImmutableTree::add_layer`] pass through `f` can make of
/// `a`.
pub open spec fn one_pass<T, F: Fn(&T) -> Option<Vec<T>>>(
    f: F,
    a: Seq<ImmutableTreeNode<T>>,
    b: Seq<ImmutableTreeNode<T>>,
) -> bool {
    exists|outs: Seq<Option<Vec<T>>>| #[trigger] layer_added(f, a, b, outs)
}

/// `b` has more nodes than `a`, and its deepest layer lies one below that
/// of `a`.
pub open spec fn one_deeper<T>(a: Seq<ImmutableTreeNode<T>>, b: Seq<ImmutableTreeNode<T>>) -> bool {
    &&& a.len() < b.len()
    &&& b.last().spec_layer() == a.last().spec_layer() + 1
}

/// `steps` is a run of passes through `f`, each made on the result of the
/// one before, where every pass but the last appends nodes and the last
/// appends none.
pub open spec fn pass_chain<T, F: Fn(&T) -> Option<Vec<T>>>(
    f: F,
    steps: Seq<Seq<ImmutableTreeNode<T>>>,
) -> bool {
    &&& steps.len() >= 2
    &&& forall|i: int| 0 <= i < steps.len() - 1 ==> #[trigger] one_pass(f, steps[i], steps[i + 1])
    &&& forall|i: int| 0 <= i < steps.len() - 2 ==> #[trigger] one_deeper(steps[i], steps[i + 1])
    &&& steps[steps.len() - 2] == steps[steps.len() - 1]
}

/// Every chain of expansions through `f` that starts at `v` has at most `d`
/// steps: after `d` expansions every possible result of `f` is empty.
pub open spec fn expands_within<T, F: Fn(&T) -> Option<Vec<T>>>(f: F, v: T, d: nat) -> bool
    decreases d,
{
    forall|r: Option<Vec<T>>|
        #[trigger] call_ensures(f, (&v,), r) ==> if d == 0 {
            kid_seq(r).len() == 0
        } else {
            forall|m: int| 0 <= m < kid_seq(r).len() ==> expands_within(f, #[trigger] kid_seq(r)[m], (d - 1) as nat)
        }
}

/// Every node of the deepest layer of `n` expands within `d` steps.
pub open spec fn frontier_within<T, F: Fn(&T) -> Option<Vec<T>>>(
    f: F,
    n: Seq<ImmutableTreeNode<T>>,
    d: nat,
) -> bool {
    forall|i: int| frontier_start(n) <= i < n.len() ==> expands_within(f, #[trigger] n[i].spec_val(), d)
}

/// A pass that appends nodes uses up one step of the expansion bound of the
/// deepest layer, and the appended nodes form the new deepest layer.
proof fn lemma_pass_within<T, F: Fn(&T) -> Option<Vec<T>>>(
    f: F,
    before: Seq<ImmutableTreeNode<T>>,
    after: Seq<ImmutableTreeNode<T>>,
    roots: nat,
    outs: Seq<Option<Vec<T>>>,
    d: nat,
)
    requires
        nodes_wf(before, roots),
        nodes_wf(after, roots),
        before.len() > 0,
        after.len() <= usize::MAX,
        layer_added(f, before, after, outs),
        before.len() < after.len(),
        forall|i: int| before.len() <= i < after.len() ==> (#[trigger] after[i]).spec_layer() == before.last().spec_layer() + 1,
        frontier_within(f, before, d),
    ensures
        d >= 1,
        frontier_start(after) == before.len(),
        frontier_within(f, after, (d - 1) as nat),
{
    let fs = frontier_start(before);
    let bl = before.len() as int;
    let kids = outs.map_values(|o: Option<Vec<T>>| kid_seq(o));
    lemma_frontier(before, roots);
    lemma_frontier(after, roots);
    assert(after.last().spec_layer() == before.last().spec_layer() + 1);
    assert forall|i: int| 0 <= i < bl implies (#[trigger] after[i]).spec_layer() <= before.last().spec_layer() by {
        assert(same_node(before, after, i));
    }
    let fa = frontier_start(after);
    if fa < bl {
        assert(after[fa].spec_layer() == after.last().spec_layer());
    }
    if fa > bl {
        assert(after[bl].spec_layer() < after.last().spec_layer());
    }
    if d == 0 {
        assert forall|m: int| 0 <= m < kids.len() implies (#[trigger] kids[m]).len() == 0 by {
            assert(call_ensures(f, (&before[fs + m].spec_val(),), outs[m]));
            assert(expands_within(f, before[fs + m].spec_val(), d));
        }
        lemma_offset_zero(kids, kids.len() as int);
    }
    assert forall|k: int| fa <= k < after.len() implies expands_within(f, #[trigger] after[k].spec_val(), (d - 1) as nat) by {
        assert(parent_linked(after, k));
        assert(node_placed(after, roots, k));
        let p = after[k].spec_parent().unwrap() as int;
        assert(p < bl);
        assert(same_node(before, after, p));
        assert(p >= fs);
        let j = p - fs;
        assert(after[fs + j].spec_anchors() is Some);
        lemma_offset_mono(kids, j + 1, kids.len() as int);
        let m = k - bl - offset(kids, j);
        assert(0 <= m < kids[j].len());
        assert(after[bl + offset(kids, j) + m].spec_val() == kids[j][m]);
        assert(call_ensures(f, (&before[fs + j].spec_val(),), outs[j]));
        assert(expands_within(f, before[fs + j].spec_val(), d));
        assert(kid_seq(outs[j])[m] == kids[j][m]);
    }
}

impl<T> ImmutableTree<T> {
    /// The nodes in storage order.
    pub closed spec fn nodes(&self) -> Seq<ImmutableTreeNode<T>> {
        self.items@
    }

    /// The number of layer-0 nodes.
    pub closed spec fn spec_root_count(&self) -> nat {
        self.root_count as nat
    }

    /// The tree's structural invariant, which every operation keeps.
    pub open spec fn wf(&self) -> bool {
        nodes_wf(self.nodes(), self.spec_root_count())
    }

    /// Builds a tree whose roots are `root_iter`, in order.
    pub fn new(root_iter: Vec<T>) -> (r: ImmutableTree<T>)
        ensures
            r.wf(),
            r.spec_root_count() == root_iter@.len(),
            r.nodes().len() == root_iter@.len(),
            forall|i: int|
                0 <= i < root_iter@.len() ==> {
                    &&& (#[trigger] r.nodes()[i]).spec_val() == root_iter@[i]
                    &&& r.nodes()[i].spec_idx() == i
                    &&& r.nodes()[i].spec_layer() == 0
                    &&& r.nodes()[i].spec_parent() is None
                    &&& r.nodes()[i].spec_anchors() is None
                },
    {
        let mut items: Vec<ImmutableTreeNode<T>> = Vec::new();
        for val in it: root_iter
            invariant
                items@.len() == it.index(),
                it.index() <= it.seq().len(),
                it.seq() == root_iter@,
                forall|i: int|
                    0 <= i < items@.len() ==> {
                        &&& (#[trigger] items@[i]).val == root_iter@[i]
                        &&& items@[i].idx == i
                        &&& items@[i].layer == 0
                        &&& items@[i].parent is None
                        &&& items@[i].children_anchors is None
                    },
        {
            let idx = items.len();
            items.push(ImmutableTreeNode { val, idx, layer: 0, parent: None, children_anchors: None });
        }
        let root_count = items.len();
        let r = ImmutableTree { items, root_count };
        assert(forall|i: int| 0 <= i < r.nodes().len() ==> #[trigger] node_placed(r.nodes(), r.spec_root_count(), i));
        r
    }
    /// Grows the tree by one layer: calls `iter_gen` once on each node of the
    /// deepest layer, in storage order, and appends the children it returns
    /// as one block per parent. Does nothing on an empty tree.
    pub fn add_layer<F>(&mut self, iter_gen: F)
        where
            F: Fn(&T) -> Option<Vec<T>>,
        requires
            old(self).wf(),
            forall|v: &T| #[trigger] call_requires(iter_gen, (v,)),
        ensures
            final(self).wf(),
            final(self).spec_root_count() == old(self).spec_root_count(),
            old(self).nodes().len() == 0 ==> final(self).nodes() == old(self).nodes(),
            old(self).nodes().len() > 0 ==> exists|outs: Seq<Option<Vec<T>>>|
                #[trigger] layer_added(iter_gen, old(self).nodes(), final(self).nodes(), outs),
            forall|i: int|
                old(self).nodes().len() <= i < final(self).nodes().len() ==> (#[trigger] final(self).nodes()[i]).spec_idx() == i,
            forall|i: int|
                old(self).nodes().len() <= i < final(self).nodes().len() ==> (#[trigger] final(self).nodes()[i]).spec_layer()
                    == old(self).nodes().last().spec_layer() + 1,
            frontier_exhausted(iter_gen, old(self).nodes()) ==> final(self).nodes() == old(self).nodes(),
    {
        let len = self.items.len();
        if len == 0 {
            return ;
        }
        proof {
            lemma_frontier(self.items@, self.root_count as nat);
        }
        let last_layer = self.items[len - 1].layer;
        let new_layer = last_layer + 1;
        let mut fs = len - 1;
        while fs > 0 && self.items[fs - 1].layer == last_layer
            invariant
                0 <= fs < len == self.items@.len(),
                layer_start(self.items@, fs as int) == frontier_start(self.items@),
                last_layer == self.items@.last().spec_layer(),
            decreases fs,
        {
            fs = fs - 1;
        }
        let ghost old_items = self.items@;
        let ghost roots = self.root_count as nat;
        let ghost mut outs: Seq<Option<Vec<T>>> = Seq::empty();
        let mut p = fs;
        while p < len
            invariant
                fs <= p <= len,
                len == old_items.len(),
                fs == frontier_start(old_items),
                nodes_wf(old_items, roots),
                new_layer == old_items.last().spec_layer() + 1,
                forall|i: int| fs <= i < len ==> (#[trigger] old_items[i]).spec_anchors() is None,
                forall|i: int| fs <= i < len ==> (#[trigger] old_items[i]).spec_layer() == old_items.last().spec_layer(),
                forall|i: int| 0 <= i < len ==> (#[trigger] old_items[i]).spec_layer() <= old_items.last().spec_layer(),
                forall|i: int|
                    0 <= i < len && (#[trigger] old_items[i]).spec_parent() is Some
                        ==> old_items[i].spec_parent().unwrap() < fs,
                outs.len() == p - fs,
                forall|j: int|
                    0 <= j < outs.len() ==> call_ensures(
                        iter_gen,
                        (&old_items[fs + j].spec_val(),),
                        #[trigger] outs[j],
                    ),
                grown(
                    old_items,
                    self.items@,
                    fs as int,
                    outs.map_values(|o: Option<Vec<T>>| kid_seq(o)),
                    new_layer as nat,
                ),
                nodes_wf(self.items@, roots),
                self.root_count == roots,
                forall|i: int|
                    len <= i < self.items@.len() ==> (#[trigger] self.items@[i]).spec_parent().unwrap()
                        < p && self.items@[i].spec_layer() == new_layer
                        && self.items@[i].spec_anchors() is None,
                forall|i: int| p <= i < len ==> #[trigger] self.items@[i] == old_items[i],
                forall|v: &T| #[trigger] call_requires(iter_gen, (v,)),
            decreases len - p,
        {
            let out = iter_gen(&self.items[p].val);
            let ghost out_g = out;
            let ghost prev = self.items@;
            let start = self.items.len();
            match out {
                Some(v) => {
                    for x in it: v
                        invariant
                            it.seq() == kid_seq(out_g),
                            start == prev.len(),
                            self.root_count == roots,
                            self.items@.len() == start + it.index(),
                            forall|i: int| 0 <= i < start ==> #[trigger] self.items@[i] == prev[i],
                            forall|m: int|
                                0 <= m < it.index() ==> #[trigger] self.items@[start + m]
                                    == (ImmutableTreeNode {
                                    val: it.seq()[m],
                                    idx: (start + m) as usize,
                                    layer: new_layer,
                                    parent: Some(p),
                                    children_anchors: None,
                                }),
                    {
                        let idx = self.items.len();
                        self.items.push(
                            ImmutableTreeNode {
                                val: x,
                                idx,
                                layer: new_layer,
                                parent: Some(p),
                                children_anchors: None,
                            },
                        );
                    }
                },
                None => {},
            }
            assert forall|k: int| start <= k < self.items@.len() implies #[trigger] self.items@[k] == (
            ImmutableTreeNode {
                val: kid_seq(out_g)[k - start],
                idx: k as usize,
                layer: new_layer,
                parent: Some(p),
                children_anchors: None,
            }) by {
                assert(self.items@[start + (k - start)] == self.items@[k]);
            }
            let end = self.items.len();
            if start != end {
                self.items[p].children_anchors = Some((start, end));
            }
            proof {
                let xs = kid_seq(out_g);
                let kids = outs.map_values(|o: Option<Vec<T>>| kid_seq(o));
                assert(prev[p as int] == old_items[p as int]);
                assert forall|i: int| 0 <= i < prev.len() implies prev[i].spec_parent() != Some(p as usize) by {
                    if i < len {
                        assert(same_node(old_items, prev, i));
                    }
                }
                assert forall|i: int| 0 <= i < prev.len() implies prev[i].spec_layer() <= prev[p as int].spec_layer() + 1 by {
                    if i < len {
                        assert(same_node(old_items, prev, i));
                    }
                }
                lemma_grown_step(old_items, prev, self.items@, fs as int, kids, xs, new_layer as nat);
                assert forall|i: int| p <= i < prev.len() implies prev[i].spec_anchors() is None by {
                    if i < len {
                        assert(prev[i] == old_items[i]);
                    }
                }
                lemma_block_wf(prev, self.items@, roots, p as int, xs.len());
                outs = outs.push(out_g);
                assert(outs.map_values(|o: Option<Vec<T>>| kid_seq(o)) =~= kids.push(xs));
            }
            p = p + 1;
        }
        proof {
            assert(layer_added(iter_gen, old_items, self.items@, outs));
            if frontier_exhausted(iter_gen, old_items) {
                let kids = outs.map_values(|o: Option<Vec<T>>| kid_seq(o));
                assert forall|m: int| 0 <= m < kids.len() implies (#[trigger] kids[m]).len() == 0 by {
                    assert(call_ensures(iter_gen, (&old_items[fs + m].spec_val(),), outs[m]));
                }
                lemma_offset_zero(kids, kids.len() as int);
                assert forall|i: int| 0 <= i < len implies #[trigger] self.items@[i] == old_items[i] by {
                    assert(same_node(old_items, self.items@, i));
                    if fs <= i {
                        assert(kids[i - fs].len() == 0);
                        assert(self.items@[fs + (i - fs)].spec_anchors() is None);
                    }
                }
                assert(self.items@ =~= old_items);
            }
            assert forall|i: int| len <= i < self.items@.len() implies (#[trigger] self.items@[i]).spec_idx() == i by {
                assert(node_placed(self.items@, roots, i));
            }
        }
    }
    /// Adds layers with [`Self::add_layer`] until a pass appends no node.
    /// Does nothing on an empty tree.
    pub fn add_layers_recursively<F>(&mut self, iter_gen: F)
        where
            F: Fn(&T) -> Option<Vec<T>>,
        requires
            old(self).wf(),
            forall|v: &T| #[trigger] call_requires(iter_gen, (v,)),
        ensures
            final(self).wf(),
            final(self).spec_root_count() == old(self).spec_root_count(),
            extends(old(self).nodes(), final(self).nodes()),
            old(self).nodes().len() == 0 ==> final(self).nodes() == old(self).nodes(),
            old(self).nodes().len() > 0 ==> exists|steps: Seq<Seq<ImmutableTreeNode<T>>>|
                {
                    &&& #[trigger] pass_chain(iter_gen, steps)
                    &&& steps[0] == old(self).nodes()
                    &&& steps.last() == final(self).nodes()
                    &&& final(self).nodes().last().spec_layer() == old(self).nodes().last().spec_layer()
                        + steps.len() - 2
                },
            forall|d: nat|
                old(self).nodes().len() > 0 && #[trigger] frontier_within(iter_gen, old(self).nodes(), d)
                    ==> final(self).nodes().last().spec_layer() <= old(self).nodes().last().spec_layer() + d,
            forall|k: int|
                0 <= k < frontier_start(old(self).nodes()) ==> (#[trigger] final(self).nodes()[k]).spec_anchors()
                    == old(self).nodes()[k].spec_anchors(),
            final(self).nodes().len() > 0 ==> exists|outs: Seq<Option<Vec<T>>>|
                #[trigger] layer_added(iter_gen, final(self).nodes(), final(self).nodes(), outs),
            frontier_exhausted(iter_gen, old(self).nodes()) ==> final(self).nodes() == old(self).nodes(),
    {
        if self.items.len() == 0 {
            return ;
        }
        let ghost start = self.items@;
        let ghost mut steps: Seq<Seq<ImmutableTreeNode<T>>> = seq![start];
        proof {
            lemma_frontier(start, self.root_count as nat);
        }
        loop
            invariant_except_break
                steps.last() == self.items@,
                forall|i: int| 0 <= i < steps.len() - 1 ==> #[trigger] one_deeper(steps[i], steps[i + 1]),
                self.items@.last().spec_layer() == start.last().spec_layer() + steps.len() - 1,
                forall|d: nat|
                    #[trigger] frontier_within(iter_gen, start, d) ==> steps.len() - 1 <= d
                        && frontier_within(iter_gen, self.items@, (d - (steps.len() - 1)) as nat),
            invariant
                self.wf(),
                self.root_count == old(self).root_count,
                self.items@.len() > 0,
                nodes_wf(start, self.root_count as nat),
                start.len() > 0,
                extends(start, self.items@),
                frontier_exhausted(iter_gen, start) ==> self.items@ == start,
                forall|v: &T| #[trigger] call_requires(iter_gen, (v,)),
                steps.len() >= 1,
                steps[0] == start,
                forall|i: int| 0 <= i < steps.len() - 1 ==> #[trigger] one_pass(iter_gen, steps[i], steps[i + 1]),
                forall|k: int|
                    0 <= k < frontier_start(start) ==> (#[trigger] self.items@[k]).spec_anchors()
                        == start[k].spec_anchors(),
            ensures
                exists|outs: Seq<Option<Vec<T>>>|
                    #[trigger] layer_added(iter_gen, self.items@, self.items@, outs),
                pass_chain(iter_gen, steps),
                steps[0] == start,
                steps.last() == self.items@,
                self.items@.last().spec_layer() == start.last().spec_layer() + steps.len() - 2,
                forall|d: nat|
                    #[trigger] frontier_within(iter_gen, start, d) ==> self.items@.last().spec_layer()
                        <= start.last().spec_layer() + d,
            decreases usize::MAX - self.items@.len(),
        {
            let size = self.items.len();
            let ghost before = self.items@;
            self.add_layer(&iter_gen);
            proof {
                let outs = choose|outs: Seq<Option<Vec<T>>>| #[trigger] layer_added(&iter_gen, before, self.items@, outs);
                lemma_grown_extends(before, self.items@, frontier_start(before), outs.map_values(|o: Option<Vec<T>>| kid_seq(o)), before.last().spec_layer() + 1);
                assert forall|i: int| 0 <= i < start.len() implies #[trigger] same_node(start, self.items@, i) by {
                    assert(same_node(start, before, i));
                    assert(same_node(before, self.items@, i));
                }
                lemma_frontier(before, self.root_count as nat);
                assert forall|k: int| 0 <= k < frontier_start(start) implies (#[trigger] self.items@[k]).spec_anchors()
                    == start[k].spec_anchors() by {
                    assert(same_node(start, before, k));
                    if k >= frontier_start(before) {
                        assert(before[k].spec_layer() == before.last().spec_layer());
                    }
                    assert(!(frontier_start(before) <= k < frontier_start(before) + outs.len()));
                }
                assert(layer_added(iter_gen, before, self.items@, outs));
                assert(one_pass(iter_gen, before, self.items@));
                let old_steps = steps;
                steps = steps.push(self.items@);
                assert forall|i: int| 0 <= i < steps.len() - 1 implies #[trigger] one_pass(iter_gen, steps[i], steps[i + 1]) by {
                    if i < old_steps.len() - 1 {
                        assert(one_pass(iter_gen, old_steps[i], old_steps[i + 1]));
                    }
                }
            }
            if self.items.len() == size {
                proof {
                    let outs = choose|outs: Seq<Option<Vec<T>>>| #[trigger] layer_added(&iter_gen, before, self.items@, outs);
                    lemma_grown_same(before, self.items@, frontier_start(before), outs.map_values(|o: Option<Vec<T>>| kid_seq(o)), before.last().spec_layer() + 1);
                    assert(layer_added(iter_gen, self.items@, self.items@, outs));
                    assert forall|i: int| 0 <= i < steps.len() - 2 implies #[trigger] one_deeper(steps[i], steps[i + 1]) by {
                        assert(steps[i] == steps.drop_last()[i]);
                        assert(steps[i + 1] == steps.drop_last()[i + 1]);
                    }
                }
                break;
            }
            proof {
                let n = self.items@;
                assert(n[n.len() - 1].spec_layer() == before.last().spec_layer() + 1);
                assert(one_deeper(before, n));
                let outs = choose|outs: Seq<Option<Vec<T>>>| #[trigger] layer_added(&iter_gen, before, n, outs);
                assert(layer_added(iter_gen, before, n, outs));
                let k = steps.len() - 2;
                assert forall|d: nat| #[trigger] frontier_within(iter_gen, start, d) implies steps.len() - 1 <= d
                    && frontier_within(iter_gen, n, (d - (steps.len() - 1)) as nat) by {
                    lemma_pass_within(iter_gen, before, n, self.root_count as nat, outs, (d - k) as nat);
                }
            }
        }
    }

    /// The total number of nodes, over all layers.
    pub fn len(&self) -> (r: usize)
        ensures
            r == self.nodes().len(),
    {
        self.items.len()
    }

    /// The number of layer-0 nodes.
    pub fn root_count(&self) -> (r: usize)
        ensures
            r == self.spec_root_count(),
    {
        self.root_count
    }

    pub fn is_empty(&self) -> (r: bool)
        ensures
            r == (self.nodes().len() == 0),
    {
        self.items.len() == 0
    }

    /// The nodes in storage order: layer by layer, each parent's children
    /// in one block.
    pub fn iter(&self) -> (r: std::slice::Iter<'_, ImmutableTreeNode<T>>)
        ensures
            r.remaining() == self.nodes().as_ref(),
    {
        broadcast use vstd::std_specs::slice::axiom_spec_slice_iter;
        self.items.as_slice().iter()
    }

    /// The nodes in storage order, as a mutable slice.
    ///
    /// Replacing nodes through it can break the tree's structure, so the
    /// tree is known to be well formed afterwards only if the slice is
    /// handed back unchanged.
    pub fn iter_mut(&mut self) -> (r: &mut [ImmutableTreeNode<T>])
        ensures
            r@ == old(self).nodes(),
            final(self).nodes() == final(r)@,
            final(self).spec_root_count() == old(self).spec_root_count(),
    {
        self.items.as_mut_slice()
    }

    /// The node at `idx`, or `None` when `idx` is past the last node.
    pub fn get(&self, idx: usize) -> (r: Option<&ImmutableTreeNode<T>>)
        ensures
            idx < self.nodes().len() ==> r == Some(&self.nodes()[idx as int]),
            idx >= self.nodes().len() ==> r is None,
    {
        if idx < self.items.len() {
            Some(&self.items[idx])
        } else {
            None
        }
    }
}

impl<T> ImmutableTreeNode<T> {
    pub fn val(&self) -> (r: &T)
        ensures
            *r == self.spec_val(),
    {
        &self.val
    }

    /// The node's position in its tree.
    pub fn idx(&self) -> (r: usize)
        ensures
            r == self.spec_idx(),
    {
        self.idx
    }

    /// The node's depth: 0 for a root.
    pub fn layer(&self) -> (r: usize)
        ensures
            r == self.spec_layer(),
    {
        self.layer
    }

    /// The position of the node's parent; `None` for a root.
    pub fn parent(&self) -> (r: Option<usize>)
        ensures
            r == self.spec_parent(),
    {
        self.parent
    }

    /// The range `[start, end)` of the node's direct children; `None` for a
    /// node without children.
    pub fn children_anchors(&self) -> (r: Option<(usize, usize)>)
        ensures
            r == self.spec_anchors(),
    {
        self.children_anchors
    }
}

impl<T> IntoIterator for ImmutableTree<T> {
    type Item = ImmutableTreeNode<T>;

    type IntoIter = std::vec::IntoIter<ImmutableTreeNode<T>>;

    /// The nodes in storage order, by value.
    fn into_iter(self) -> (r: std::vec::IntoIter<ImmutableTreeNode<T>>)
        ensures
            r.remaining() == self.nodes(),
    {
        broadcast use vstd::std_specs::vec::axiom_spec_into_iter;
        self.items.into_iter()
    }
}

/// In a well-formed tree a node with a parent lies one layer below it, after
/// it, and every root lies on layer 0.
pub proof fn lemma_parent_layer<T>(tree: &ImmutableTree<T>, i: int)
    requires
        tree.wf(),
        0 <= i < tree.nodes().len(),
    ensures
        tree.nodes()[i].spec_parent() is Some ==> {
            let p = tree.nodes()[i].spec_parent().unwrap() as int;
            &&& 0 <= p < i
            &&& tree.nodes()[i].spec_layer() == tree.nodes()[p].spec_layer() + 1
        },
        tree.nodes()[i].spec_parent() is None ==> tree.nodes()[i].spec_layer() == 0,
{
    assert(node_placed(tree.nodes(), tree.spec_root_count(), i));
    assert(parent_linked(tree.nodes(), i));
}

/// In a well-formed tree every node inside a node's anchor range has that
/// node as its parent and lies one layer below it.
pub proof fn lemma_anchor_children<T>(tree: &ImmutableTree<T>, i: int, j: int)
    requires
        tree.wf(),
        0 <= i < tree.nodes().len(),
        tree.nodes()[i].spec_anchors() is Some,
        tree.nodes()[i].spec_anchors().unwrap().0 <= j < tree.nodes()[i].spec_anchors().unwrap().1,
    ensures
        0 <= j < tree.nodes().len(),
        tree.nodes()[j].spec_parent() == Some(i as usize),
        tree.nodes()[j].spec_layer() == tree.nodes()[i].spec_layer() + 1,
{
    assert(anchors_in_range(tree.nodes(), i));
    assert(anchors_are_children(tree.nodes(), i, j));
    assert(parent_linked(tree.nodes(), j));
}

} // verus!
