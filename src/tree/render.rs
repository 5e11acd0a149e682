use vstd::prelude::*;
use vstd::string::StringExecFns;

use super::{anchors_in_range, node_placed, parent_linked, ImmutableTree, ImmutableTreeNode};

verus! {

/// The indentation step for one ancestor: a bar while that ancestor has
/// later siblings, blank space once it is the last.
pub open spec fn bar(continues: bool) -> Seq<char> {
    if continues {
        seq!['┃', ' ']
    } else {
        seq![' ', ' ']
    }
}

/// Node `i` is the last child of its parent, or the last root.
pub open spec fn is_last<T>(n: Seq<ImmutableTreeNode<T>>, roots: nat, i: int) -> bool {
    match n[i].spec_parent() {
        Some(p) => i == n[p as int].spec_anchors().unwrap().1 - 1,
        None => i == roots - 1,
    }
}

/// The indentation drawn for ancestor `a` and everything above it, outermost
/// first.
pub open spec fn ancestry<T>(n: Seq<ImmutableTreeNode<T>>, roots: nat, a: int) -> Seq<char>
    decreases a,
{
    let own = bar(!is_last(n, roots, a));
    match n[a].spec_parent() {
        Some(p) => if 0 <= p < a {
            ancestry(n, roots, p as int) + own
        } else {
            own
        },
        None => own,
    }
}

/// Everything on node `i`'s line before its label: the indentation, the
/// connector (a corner for the last sibling, a tee otherwise) and a dash.
pub open spec fn line_head<T>(n: Seq<ImmutableTreeNode<T>>, roots: nat, i: int) -> Seq<char> {
    let indent = match n[i].spec_parent() {
        Some(p) => ancestry(n, roots, p as int),
        None => Seq::empty(),
    };
    indent + if is_last(n, roots, i) {
        seq!['┗', '━']
    } else {
        seq!['┣', '━']
    }
}

/// Node `i`'s line with the given label.
pub open spec fn node_line<T>(n: Seq<ImmutableTreeNode<T>>, roots: nat, i: int, label: Seq<char>) -> Seq<
    char,
> {
    line_head(n, roots, i) + label + seq!['\n']
}

/// The lines of the first `j` nodes of `order`, the `m`-th labelled
/// `labels[m]`.
pub open spec fn lines<T>(
    n: Seq<ImmutableTreeNode<T>>,
    roots: nat,
    order: Seq<usize>,
    labels: Seq<String>,
    j: int,
) -> Seq<char>
    decreases j,
{
    if j <= 0 {
        Seq::empty()
    } else {
        lines(n, roots, order, labels, j - 1) + node_line(n, roots, order[j - 1] as int, labels[j - 1]@)
    }
}

/// Node `i` followed by its descendants, depth first, children in index
/// order.
pub open spec fn subtree_order<T>(n: Seq<ImmutableTreeNode<T>>, i: int) -> Seq<usize>
    decreases n.len() - i, 1int,
{
    if 0 <= i < n.len() {
        let below = match n[i].spec_anchors() {
            Some((s, e)) => if i < s <= n.len() {
                children_order(n, s as int, e as int)
            } else {
                Seq::empty()
            },
            None => Seq::empty(),
        };
        seq![i as usize] + below
    } else {
        Seq::empty()
    }
}

/// The subtrees of nodes `j` up to `e`, one after another.
pub open spec fn children_order<T>(n: Seq<ImmutableTreeNode<T>>, j: int, e: int) -> Seq<usize>
    decreases n.len() - j, 2int,
{
    if 0 <= j < e && j < n.len() {
        subtree_order(n, j) + children_order(n, j + 1, e)
    } else {
        Seq::empty()
    }
}

/// The order in which a whole tree is drawn: each root's subtree in turn.
pub open spec fn forest_order<T>(n: Seq<ImmutableTreeNode<T>>, roots: nat) -> Seq<usize> {
    children_order(n, 0, roots as int)
}

/// The lines before the first node: a marker line for an empty tree, then
/// the root line.
pub open spec fn header<T>(n: Seq<ImmutableTreeNode<T>>) -> Seq<char> {
    let marker = if n.len() == 0 {
        seq!['━', '━', 'r', 'o', 'o', 't', '\n']
    } else {
        Seq::empty()
    };
    marker + seq!['r', 'o', 'o', 't', '\n']
}

/// `labels[m]` is a string that `f` may return, as `Ok`, for the value of
/// node `order[m]`, for each label given.
pub open spec fn labels_from<T, E, F: Fn(&T) -> Result<String, E>>(
    f: F,
    n: Seq<ImmutableTreeNode<T>>,
    order: Seq<usize>,
    labels: Seq<String>,
) -> bool {
    &&& labels.len() <= order.len()
    &&& forall|m: int|
        0 <= m < labels.len() ==> call_ensures(
            f,
            (&n[order[m] as int].spec_val(),),
            Ok::<String, E>(#[trigger] labels[m]),
        )
}

/// Every index in `order` names a node of `n`.
pub open spec fn order_in_range<T>(n: Seq<ImmutableTreeNode<T>>, order: Seq<usize>) -> bool {
    forall|m: int| 0 <= m < order.len() ==> #[trigger] order[m] < n.len()
}

proof fn lemma_lines_push<T>(
    n: Seq<ImmutableTreeNode<T>>,
    roots: nat,
    order: Seq<usize>,
    labels: Seq<String>,
    x: String,
    j: int,
)
    requires
        0 <= j <= labels.len(),
    ensures
        lines(n, roots, order, labels.push(x), j) == lines(n, roots, order, labels, j),
    decreases j,
{
    if j > 0 {
        lemma_lines_push(n, roots, order, labels, x, j - 1);
    }
}

impl<T> ImmutableTree<T> {
    fn is_last_sibling(&self, k: usize) -> (r: bool)
        requires
            self.wf(),
            k < self.nodes().len(),
        ensures
            r == is_last(self.nodes(), self.spec_root_count(), k as int),
    {
        proof {
            assert(node_placed(self.nodes(), self.spec_root_count(), k as int));
            assert(parent_linked(self.nodes(), k as int));
        }
        match self.items[k].parent {
            Some(p) => {
                proof {
                    assert(anchors_in_range(self.nodes(), p as int));
                }
                let (_, e) = self.items[p].children_anchors.unwrap();
                k == e - 1
            },
            None => k == self.root_count - 1,
        }
    }

    fn write_ancestry(&self, out: &mut String, a: usize)
        requires
            self.wf(),
            a < self.nodes().len(),
        ensures
            final(out)@ == old(out)@ + ancestry(self.nodes(), self.spec_root_count(), a as int),
        decreases a,
    {
        proof {
            assert(parent_linked(self.nodes(), a as int));
        }
        if let Some(p) = self.items[a].parent {
            self.write_ancestry(out, p);
        }
        if self.is_last_sibling(a) {
            out.append("  ");
            proof {
                reveal_strlit("  ");
            }
        } else {
            out.append("┃ ");
            proof {
                reveal_strlit("┃ ");
            }
        }
        assert(final(out)@ =~= old(out)@ + ancestry(self.nodes(), self.spec_root_count(), a as int));
    }
    fn write_head(&self, out: &mut String, k: usize)
        requires
            self.wf(),
            k < self.nodes().len(),
        ensures
            final(out)@ == old(out)@ + line_head(self.nodes(), self.spec_root_count(), k as int),
    {
        proof {
            assert(parent_linked(self.nodes(), k as int));
        }
        if let Some(p) = self.items[k].parent {
            self.write_ancestry(out, p);
        }
        if self.is_last_sibling(k) {
            out.append("┗━");
            proof {
                reveal_strlit("┗━");
            }
        } else {
            out.append("┣━");
            proof {
                reveal_strlit("┣━");
            }
        }
        assert(final(out)@ =~= old(out)@ + line_head(self.nodes(), self.spec_root_count(), k as int));
    }

    fn collect_subtree(&self, i: usize, acc: &mut Vec<usize>)
        requires
            self.wf(),
            i < self.nodes().len(),
        ensures
            final(acc)@ == old(acc)@ + subtree_order(self.nodes(), i as int),
            order_in_range(self.nodes(), old(acc)@) ==> order_in_range(self.nodes(), final(acc)@),
        decreases self.nodes().len() - i, 1int,
    {
        proof {
            assert(anchors_in_range(self.nodes(), i as int));
        }
        acc.push(i);
        if let Some((s, e)) = self.items[i].children_anchors {
            self.collect_children(s, e, acc);
        }
        assert(final(acc)@ =~= old(acc)@ + subtree_order(self.nodes(), i as int));
    }

    fn collect_children(&self, j: usize, e: usize, acc: &mut Vec<usize>)
        requires
            self.wf(),
            j <= self.nodes().len(),
            e <= self.nodes().len(),
        ensures
            final(acc)@ == old(acc)@ + children_order(self.nodes(), j as int, e as int),
            order_in_range(self.nodes(), old(acc)@) ==> order_in_range(self.nodes(), final(acc)@),
        decreases self.nodes().len() - j, 2int,
    {
        if j < e {
            self.collect_subtree(j, acc);
            self.collect_children(j + 1, e, acc);
            assert(final(acc)@ =~= old(acc)@ + children_order(self.nodes(), j as int, e as int));
        } else {
            assert(final(acc)@ =~= old(acc)@ + children_order(self.nodes(), j as int, e as int));
        }
    }
    /// Writes one line per node of `order`, in order, labelling each with
    /// what `print_func` returns for its value; stops at the first error.
    fn print_nodes<F, E>(&self, out: &mut String, order: &Vec<usize>, print_func: &F) -> (r: Result<(), E>)
        where
            F: Fn(&T) -> Result<String, E>,
        requires
            self.wf(),
            order_in_range(self.nodes(), order@),
            forall|v: &T| #[trigger] call_requires(*print_func, (v,)),
        ensures
            r is Ok ==> exists|labels: Seq<String>|
                {
                    &&& #[trigger] labels_from(*print_func, self.nodes(), order@, labels)
                    &&& labels.len() == order@.len()
                    &&& final(out)@ == old(out)@ + lines(
                        self.nodes(),
                        self.spec_root_count(),
                        order@,
                        labels,
                        order@.len() as int,
                    )
                },
            r is Err ==> exists|labels: Seq<String>|
                {
                    let j = labels.len() as int;
                    &&& #[trigger] labels_from(*print_func, self.nodes(), order@, labels)
                    &&& j < order@.len()
                    &&& call_ensures(
                        *print_func,
                        (&self.nodes()[order@[j] as int].spec_val(),),
                        Err::<String, E>(r->Err_0),
                    )
                    &&& final(out)@ == old(out)@ + lines(
                        self.nodes(),
                        self.spec_root_count(),
                        order@,
                        labels,
                        j,
                    ) + line_head(self.nodes(), self.spec_root_count(), order@[j] as int)
                },
    {
        let ghost n = self.nodes();
        let ghost roots = self.spec_root_count();
        let ghost mut labels: Seq<String> = Seq::empty();
        let mut j: usize = 0;
        while j < order.len()
            invariant
                self.wf(),
                order_in_range(n, order@),
                n == self.nodes(),
                roots == self.spec_root_count(),
                forall|v: &T| #[trigger] call_requires(*print_func, (v,)),
                j <= order@.len(),
                labels.len() == j,
                labels_from(*print_func, n, order@, labels),
                out@ == old(out)@ + lines(n, roots, order@, labels, j as int),
            decreases order@.len() - j,
        {
            let k = order[j];
            proof {
                assert(order@[j as int] < n.len());
            }
            let ghost before = out@;
            self.write_head(out, k);
            match print_func(&self.items[k].val) {
                Ok(s) => {
                    let ghost sg = s;
                    out.append(s.as_str());
                    out.append("\n");
                    proof {
                        reveal_strlit("\n");
                        lemma_lines_push(n, roots, order@, labels, sg, j as int);
                        labels = labels.push(sg);
                        assert(out@ =~= old(out)@ + lines(n, roots, order@, labels, j + 1));
                    }
                },
                Err(e) => {
                    return Err(e);
                },
            }
            j = j + 1;
        }
        Ok(())
    }
    /// Draws the whole tree into `out`: a root line, then one line per node,
    /// depth first, each labelled with what `print_func` returns for its
    /// value. Stops at the first error of `print_func` and returns it; the
    /// lines written up to then stay in `out`.
    pub fn print<F, E>(&self, out: &mut String, print_func: F) -> (r: Result<(), E>)
        where
            F: Fn(&T) -> Result<String, E>,
        requires
            self.wf(),
            forall|v: &T| #[trigger] call_requires(print_func, (v,)),
        ensures
            ({
                let n = self.nodes();
                let roots = self.spec_root_count();
                let order = forest_order(n, roots);
                &&& r is Ok ==> exists|labels: Seq<String>|
                    {
                        &&& #[trigger] labels_from(print_func, n, order, labels)
                        &&& labels.len() == order.len()
                        &&& final(out)@ == old(out)@ + header(n) + lines(
                            n,
                            roots,
                            order,
                            labels,
                            order.len() as int,
                        )
                    }
                &&& r is Err ==> exists|labels: Seq<String>|
                    {
                        let j = labels.len() as int;
                        &&& #[trigger] labels_from(print_func, n, order, labels)
                        &&& j < order.len()
                        &&& call_ensures(
                            print_func,
                            (&n[order[j] as int].spec_val(),),
                            Err::<String, E>(r->Err_0),
                        )
                        &&& final(out)@ == old(out)@ + header(n) + lines(n, roots, order, labels, j)
                            + line_head(n, roots, order[j] as int)
                    }
            }),
    {
        if self.items.len() == 0 {
            out.append("━━root\n");
        }
        out.append("root\n");
        proof {
            reveal_strlit("━━root\n");
            reveal_strlit("root\n");
        }
        let ghost start = out@;
        assert(start =~= old(out)@ + header(self.nodes()));
        let mut order: Vec<usize> = Vec::new();
        self.collect_children(0, self.root_count, &mut order);
        assert(order@ =~= forest_order(self.nodes(), self.spec_root_count()));
        let r = self.print_nodes(out, &order, &print_func);
        proof {
            if r is Ok {
                let labels = choose|labels: Seq<String>|
                    {
                        &&& #[trigger] labels_from(print_func, self.nodes(), order@, labels)
                        &&& labels.len() == order@.len()
                        &&& out@ == start + lines(
                            self.nodes(),
                            self.spec_root_count(),
                            order@,
                            labels,
                            order@.len() as int,
                        )
                    };
                assert(out@ =~= old(out)@ + header(self.nodes()) + lines(self.nodes(), self.spec_root_count(), order@, labels, order@.len() as int));
            } else {
                let labels = choose|labels: Seq<String>|
                    {
                        let j = labels.len() as int;
                        &&& #[trigger] labels_from(print_func, self.nodes(), order@, labels)
                        &&& j < order@.len()
                        &&& call_ensures(
                            print_func,
                            (&self.nodes()[order@[j] as int].spec_val(),),
                            Err::<String, E>(r->Err_0),
                        )
                        &&& out@ == start + lines(self.nodes(), self.spec_root_count(), order@, labels, j)
                            + line_head(self.nodes(), self.spec_root_count(), order@[j] as int)
                    };
                let j = labels.len() as int;
                assert(out@ =~= old(out)@ + header(self.nodes()) + lines(self.nodes(), self.spec_root_count(), order@, labels, j)
                    + line_head(self.nodes(), self.spec_root_count(), order@[j] as int));
            }
        }
        r
    }
    /// Draws the subtree of `item`, a node of this tree, into `out`: one
    /// line per node, depth first, labelled as in [`Self::print`]. `indent`
    /// is the depth of `item` in the diagram, counted from 1 for a root; the
    /// text drawn does not depend on it.
    pub fn print_item<F, E>(
        &self,
        out: &mut String,
        item: &ImmutableTreeNode<T>,
        print_func: F,
        indent: usize,
    ) -> (r: Result<(), E>)
        where
            F: Fn(&T) -> Result<String, E>,
        requires
            self.wf(),
            item.spec_idx() < self.nodes().len(),
            self.nodes()[item.spec_idx() as int] == *item,
            forall|v: &T| #[trigger] call_requires(print_func, (v,)),
        ensures
            ({
                let n = self.nodes();
                let roots = self.spec_root_count();
                let order = subtree_order(n, item.spec_idx() as int);
                &&& r is Ok ==> exists|labels: Seq<String>|
                    {
                        &&& #[trigger] labels_from(print_func, n, order, labels)
                        &&& labels.len() == order.len()
                        &&& final(out)@ == old(out)@ + lines(n, roots, order, labels, order.len() as int)
                    }
                &&& r is Err ==> exists|labels: Seq<String>|
                    {
                        let j = labels.len() as int;
                        &&& #[trigger] labels_from(print_func, n, order, labels)
                        &&& j < order.len()
                        &&& call_ensures(
                            print_func,
                            (&n[order[j] as int].spec_val(),),
                            Err::<String, E>(r->Err_0),
                        )
                        &&& final(out)@ == old(out)@ + lines(n, roots, order, labels, j) + line_head(
                            n,
                            roots,
                            order[j] as int,
                        )
                    }
            }),
    {
        let mut order: Vec<usize> = Vec::new();
        self.collect_subtree(item.idx(), &mut order);
        assert(order@ =~= subtree_order(self.nodes(), item.spec_idx() as int));
        self.print_nodes(out, &order, &print_func)
    }

    /// The whole diagram that [`Self::print`] draws when `print_func`
    /// returns `labels[k]` for node `k`.
    pub fn render_with_labels(&self, labels: &Vec<String>) -> (r: String)
        requires
            self.wf(),
            labels@.len() == self.nodes().len(),
        ensures
            ({
                let n = self.nodes();
                let order = forest_order(n, self.spec_root_count());
                r@ == header(n) + lines(
                    n,
                    self.spec_root_count(),
                    order,
                    order.map_values(|k: usize| labels@[k as int]),
                    order.len() as int,
                )
            }),
    {
        let mut out = String::new();
        if self.items.len() == 0 {
            out.append("━━root\n");
        }
        out.append("root\n");
        proof {
            reveal_strlit("━━root\n");
            reveal_strlit("root\n");
        }
        let ghost n = self.nodes();
        let ghost roots = self.spec_root_count();
        let ghost start = out@;
        assert(start =~= header(n));
        let mut order: Vec<usize> = Vec::new();
        self.collect_children(0, self.root_count, &mut order);
        let ghost named = order@.map_values(|k: usize| labels@[k as int]);
        let mut j: usize = 0;
        while j < order.len()
            invariant
                self.wf(),
                n == self.nodes(),
                roots == self.spec_root_count(),
                labels@.len() == n.len(),
                order_in_range(n, order@),
                named == order@.map_values(|k: usize| labels@[k as int]),
                j <= order@.len(),
                out@ == start + lines(n, roots, order@, named, j as int),
            decreases order@.len() - j,
        {
            let k = order[j];
            proof {
                assert(order@[j as int] < n.len());
            }
            self.write_head(&mut out, k);
            out.append(labels[k].as_str());
            out.append("\n");
            proof {
                reveal_strlit("\n");
                assert(out@ =~= start + lines(n, roots, order@, named, j + 1));
            }
            j = j + 1;
        }
        assert(order@ =~= forest_order(n, roots));
        out
    }
}

} // verus!
