//! The discovery tree: an arena of nodes addressed by index, each node
//! holding its record and the indexes of its children in insertion order.
use vstd::prelude::*;

verus! {

/// One `key: value` pair extracted from a response by a display rule.
#[derive(Clone, Debug)]
pub struct Addition {
    pub key: String,
    pub value: String,
}

/// What is recorded of one discovery.
#[derive(Clone, Debug)]
pub struct TreeData {
    pub url: String,
    pub depth: usize,
    pub path: String,
    /// The HTTP status; 0 marks a recorded connection error.
    pub status_code: u16,
    pub extra: Vec<Addition>,
}

/// Why an insertion was refused.
#[derive(Debug, PartialEq, Eq, Structural)]
pub enum TreeError {
    /// A parentless insertion into a tree that already has a root.
    RootExists,
    /// The parent index names no node.
    UnknownParent,
}

/// A rooted tree. Node 0 is the root; a child always has a larger index than
/// its parent.
pub struct Tree {
    data: Vec<TreeData>,
    children: Vec<Vec<usize>>,
}

/// The children lists, as sequences of indexes.
pub open spec fn child_lists(ch: Seq<Vec<usize>>) -> Seq<Seq<usize>> {
    ch.map_values(|v: Vec<usize>| v@)
}

/// The preorder of the subtree under node `i`: the node, then each child's
/// subtree in insertion order.
pub open spec fn subtree(ch: Seq<Seq<usize>>, i: int) -> Seq<usize>
    decreases ch.len() - i, 1nat, 0int,
{
    if 0 <= i < ch.len() {
        seq![i as usize] + forest(ch, i, ch[i].len() as int)
    } else {
        Seq::<usize>::empty()
    }
}

/// The preorders of the first `j` children's subtrees of node `i`, one after
/// the other.
pub open spec fn forest(ch: Seq<Seq<usize>>, i: int, j: int) -> Seq<usize>
    decreases ch.len() - i, 0nat, j,
{
    if !(0 <= i < ch.len()) || j <= 0 || j > ch[i].len() {
        Seq::<usize>::empty()
    } else {
        let c = ch[i][j - 1] as int;
        forest(ch, i, j - 1) + (if i < c < ch.len() {
            subtree(ch, c)
        } else {
            Seq::<usize>::empty()
        })
    }
}

/// Holds of the index of a node whose record has depth `d`.
pub open spec fn has_depth(data: Seq<TreeData>, d: usize) -> spec_fn(usize) -> bool {
    |x: usize| data[x as int].depth == d
}

impl Tree {
    /// The number of nodes.
    pub open spec fn spec_len(&self) -> nat {
        self.records().len()
    }

    /// The records, by node index.
    pub closed spec fn records(&self) -> Seq<TreeData> {
        self.data@
    }

    /// The children of each node, by node index.
    pub closed spec fn kids(&self) -> Seq<Seq<usize>> {
        child_lists(self.children@)
    }

    /// Every child index names a later node.
    pub open spec fn wf(&self) -> bool {
        &&& self.records().len() == self.kids().len()
        &&& forall|i: int, j: int|
            0 <= i < self.kids().len() && 0 <= j < self.kids()[i].len() ==> i < #[trigger] self.kids()[i][j]
                < self.kids().len()
    }

    /// Every child is one level deeper than its parent.
    pub open spec fn depths_follow_parents(&self) -> bool {
        forall|i: int, j: int|
            0 <= i < self.kids().len() && 0 <= j < self.kids()[i].len() ==> (#[trigger] self.records()[
                self.kids()[i][j] as int]).depth == self.records()[i].depth + 1
    }

    /// All nodes whose depth is `d`, in preorder from the root.
    pub open spec fn spec_nodes_at_depth(&self, d: usize) -> Seq<usize> {
        subtree(self.kids(), 0).filter(has_depth(self.records(), d))
    }

    /// An empty tree.
    pub fn new() -> (r: Tree)
        ensures
            r.wf(),
            r.spec_len() == 0,
    {
        Tree { data: Vec::new(), children: Vec::new() }
    }

    /// The number of nodes.
    pub fn len(&self) -> (r: usize)
        requires
            self.wf(),
        ensures
            r == self.spec_len(),
    {
        self.data.len()
    }

    /// The root's index, if there is a root.
    pub fn root(&self) -> (r: Option<usize>)
        requires
            self.wf(),
        ensures
            r == (if self.spec_len() == 0 {
                None
            } else {
                Some(0usize)
            }),
    {
        if self.data.len() == 0 {
            None
        } else {
            Some(0)
        }
    }

    /// The record of node `i`.
    pub fn data(&self, i: usize) -> (r: &TreeData)
        requires
            self.wf(),
            i < self.spec_len(),
        ensures
            *r == self.records()[i as int],
    {
        &self.data[i]
    }

    /// The children of node `i`, in insertion order.
    pub fn children(&self, i: usize) -> (r: &Vec<usize>)
        requires
            self.wf(),
            i < self.spec_len(),
        ensures
            r@ == self.kids()[i as int],
    {
        &self.children[i]
    }

    /// Adds a node holding `data`. Without a parent it becomes the root of an
    /// empty tree; with one it becomes that node's last child. Returns the new
    /// node's index.
    pub fn insert(&mut self, data: TreeData, parent: Option<usize>) -> (r: Result<usize, TreeError>)
        requires
            old(self).wf(),
        ensures
            final(self).wf(),
            old(self).depths_follow_parents() && (parent matches Some(p) && p < old(self).spec_len()
                && data.depth == old(self).records()[p as int].depth + 1)
                ==> final(self).depths_follow_parents(),
            match parent {
                None => old(self).spec_len() == 0,
                Some(p) => p < old(self).spec_len(),
            } ==> r == Ok::<usize, TreeError>(old(self).spec_len() as usize),
            parent is None && old(self).spec_len() > 0 ==> r == Err::<usize, TreeError>(
                TreeError::RootExists,
            ),
            parent matches Some(p) && p >= old(self).spec_len() ==> r == Err::<usize, TreeError>(
                TreeError::UnknownParent,
            ),
            r is Ok ==> {
                &&& final(self).records() == old(self).records().push(data)
                &&& final(self).kids() == match parent {
                    None => old(self).kids().push(Seq::<usize>::empty()),
                    Some(p) => old(self).kids().update(
                        p as int,
                        old(self).kids()[p as int].push(old(self).spec_len() as usize),
                    ).push(Seq::<usize>::empty()),
                }
            },
            r is Err ==> *final(self) == *old(self),
    {
        let id = self.data.len();
        match parent {
            None => {
                if id > 0 {
                    return Err(TreeError::RootExists);
                }
            },
            Some(p) => {
                if p >= id {
                    return Err(TreeError::UnknownParent);
                }
                let mut ch = self.children[p].clone();
                ch.push(id);
                self.children.set(p, ch);
            },
        }
        self.data.push(data);
        self.children.push(Vec::new());
        proof {
            let old_kids = old(self).kids();
            let expected = match parent {
                None => old_kids.push(Seq::<usize>::empty()),
                Some(p) => old_kids.update(p as int, old_kids[p as int].push(id)).push(
                    Seq::<usize>::empty(),
                ),
            };
            assert(self.kids() =~= expected);
            assert forall|i: int, j: int|
                0 <= i < self.kids().len() && 0 <= j < self.kids()[i].len() implies i
                < #[trigger] self.kids()[i][j] < self.kids().len() by {
                if i < old_kids.len() && !(parent == Some(i as usize) && j == old_kids[i].len()) {
                    assert(self.kids()[i][j] == old_kids[i][j]);
                }
            }
            if old(self).depths_follow_parents() && (parent matches Some(p) && p < id
                && data.depth == old(self).records()[p as int].depth + 1) {
                assert forall|i: int, j: int|
                    0 <= i < self.kids().len() && 0 <= j < self.kids()[i].len() implies (
                    #[trigger] self.records()[self.kids()[i][j] as int]).depth
                    == self.records()[i].depth + 1 by {
                    if i < old_kids.len() && !(parent == Some(i as usize) && j == old_kids[i].len()) {
                        assert(self.kids()[i][j] == old_kids[i][j]);
                        assert(old(self).records()[old_kids[i][j] as int].depth == old(
                            self,
                        ).records()[i].depth + 1);
                    }
                }
            }
        }
        Ok(id)
    }

    /// Whether the tree is well formed: every child index names a later node.
    pub fn is_wf(&self) -> (r: bool)
        ensures
            r == self.wf(),
    {
        if self.data.len() != self.children.len() {
            return false;
        }
        let n = self.children.len();
        let mut i: usize = 0;
        while i < n
            invariant
                i <= n,
                n == self.kids().len(),
                self.records().len() == self.kids().len(),
                forall|a: int, b: int|
                    0 <= a < i && 0 <= b < self.kids()[a].len() ==> a < #[trigger] self.kids()[a][b]
                        < self.kids().len(),
            decreases n - i,
        {
            let kids = &self.children[i];
            let mut j: usize = 0;
            while j < kids.len()
                invariant
                    i < n,
                    n == self.kids().len(),
                    kids@ == self.kids()[i as int],
                    j <= kids.len(),
                    forall|a: int, b: int|
                        0 <= a < i && 0 <= b < self.kids()[a].len() ==> a < #[trigger] self.kids()[a][b]
                            < self.kids().len(),
                    forall|b: int| 0 <= b < j ==> i < #[trigger] self.kids()[i as int][b] < self.kids().len(),
                decreases kids.len() - j,
            {
                let c = kids[j];
                if c <= i || c >= n {
                    assert(self.kids()[i as int][j as int] == c);
                    return false;
                }
                j += 1;
            }
            i += 1;
        }
        true
    }

    /// Whether node `p` already has a child whose path is `path`.
    pub fn has_child_path(&self, p: usize, path: &String) -> (r: bool)
        requires
            self.wf(),
            p < self.spec_len(),
        ensures
            r == exists|j: int|
                0 <= j < self.kids()[p as int].len() && (#[trigger] self.records()[self.kids()[
                    p as int][j] as int]).path@ == path@,
    {
        let kids = &self.children[p];
        let mut j: usize = 0;
        while j < kids.len()
            invariant
                self.wf(),
                p < self.spec_len(),
                kids@ == self.kids()[p as int],
                j <= kids.len(),
                forall|m: int|
                    0 <= m < j ==> (#[trigger] self.records()[self.kids()[p as int][m] as int]).path@
                        != path@,
            decreases kids.len() - j,
        {
            let c = kids[j];
            if self.data[c].path == *path {
                return true;
            }
            j += 1;
        }
        false
    }

    /// All nodes whose depth is `d`, in preorder from the root.
    pub fn get_nodes_at_depth(&self, d: usize) -> (r: Vec<usize>)
        requires
            self.wf(),
        ensures
            r@ == self.spec_nodes_at_depth(d),
    {
        let mut out: Vec<usize> = Vec::new();
        if self.data.len() > 0 {
            self.collect_at_depth(0, d, &mut out);
            assert(out@ =~= self.spec_nodes_at_depth(d));
        } else {
            assert(self.spec_nodes_at_depth(d) =~= Seq::<usize>::empty());
        }
        out
    }

    /// Appends to `out` the nodes of depth `d` under node `i`, in preorder.
    fn collect_at_depth(&self, i: usize, d: usize, out: &mut Vec<usize>)
        requires
            self.wf(),
            i < self.spec_len(),
        ensures
            final(out)@ == old(out)@ + subtree(self.kids(), i as int).filter(
                has_depth(self.records(), d),
            ),
        decreases self.spec_len() - i,
    {
        let ghost ch = self.kids();
        let ghost pred = has_depth(self.records(), d);
        if self.data[i].depth == d {
            out.push(i);
        }
        proof {
            assert(seq![i].filter(pred) =~= if pred(i) {
                seq![i]
            } else {
                Seq::<usize>::empty()
            }) by {
                reveal_with_fuel(Seq::filter, 2);
            }
            assert(forest(ch, i as int, 0) =~= Seq::<usize>::empty());
            assert(Seq::<usize>::empty().filter(pred) =~= Seq::<usize>::empty()) by {
                reveal_with_fuel(Seq::filter, 1);
            }
            Seq::filter_distributes_over_add(seq![i], forest(ch, i as int, 0), pred);
            assert(out@ =~= old(out)@ + (seq![i] + forest(ch, i as int, 0)).filter(pred));
        }
        let kids = &self.children[i];
        let n = kids.len();
        let mut j: usize = 0;
        while j < n
            invariant
                self.wf(),
                i < self.spec_len(),
                ch == self.kids(),
                pred == has_depth(self.records(), d),
                kids@ == ch[i as int],
                n == kids.len(),
                j <= n,
                out@ == old(out)@ + (seq![i] + forest(ch, i as int, j as int)).filter(pred),
            decreases n - j,
        {
            let c = kids[j];
            assert(ch[i as int][j as int] == c);
            assert(i < c < self.spec_len());
            self.collect_at_depth(c, d, out);
            proof {
                let f0 = forest(ch, i as int, j as int);
                assert(forest(ch, i as int, j + 1) == f0 + subtree(ch, c as int));
                Seq::filter_distributes_over_add(seq![i] + f0, subtree(ch, c as int), pred);
                assert(seq![i] + (f0 + subtree(ch, c as int)) =~= (seq![i] + f0) + subtree(
                    ch,
                    c as int,
                ));
            }
            j += 1;
        }
        assert(subtree(ch, i as int) == seq![i] + forest(ch, i as int, n as int));
    }
}

/// The nodes at a depth are a function of the tree's records and children
/// lists: two trees built by the same insertions give them in the same order.
pub proof fn lemma_nodes_at_depth_stable(a: Tree, b: Tree, d: usize)
    requires
        a.records() == b.records(),
        a.kids() == b.kids(),
    ensures
        a.spec_nodes_at_depth(d) == b.spec_nodes_at_depth(d),
{
}

/// Every node of a subtree is a node of the tree.
pub proof fn lemma_subtree_in_range(ch: Seq<Seq<usize>>, i: int)
    ensures
        forall|m: int| 0 <= m < subtree(ch, i).len() ==> #[trigger] subtree(ch, i)[m] < ch.len(),
    decreases ch.len() - i, 1nat, 0int,
{
    if 0 <= i < ch.len() {
        lemma_forest_in_range(ch, i, ch[i].len() as int);
        let f = forest(ch, i, ch[i].len() as int);
        assert forall|m: int| 0 <= m < subtree(ch, i).len() implies #[trigger] subtree(ch, i)[m] < ch.len() by {
            if m > 0 {
                assert(subtree(ch, i)[m] == f[m - 1]);
            }
        }
    }
}

/// Every node of the first `j` children's subtrees is a node of the tree.
pub proof fn lemma_forest_in_range(ch: Seq<Seq<usize>>, i: int, j: int)
    ensures
        forall|m: int| 0 <= m < forest(ch, i, j).len() ==> #[trigger] forest(ch, i, j)[m] < ch.len(),
    decreases ch.len() - i, 0nat, j,
{
    if !(0 <= i < ch.len()) || j <= 0 || j > ch[i].len() {
    } else {
        let c = ch[i][j - 1] as int;
        lemma_forest_in_range(ch, i, j - 1);
        let a = forest(ch, i, j - 1);
        if i < c < ch.len() {
            lemma_subtree_in_range(ch, c);
            let b = subtree(ch, c);
            assert forall|m: int| 0 <= m < forest(ch, i, j).len() implies #[trigger] forest(ch, i, j)[m] < ch.len() by {
                if m >= a.len() {
                    assert(forest(ch, i, j)[m] == b[m - a.len()]);
                } else {
                    assert(forest(ch, i, j)[m] == a[m]);
                }
            }
        } else {
            assert(forest(ch, i, j) =~= a);
        }
    }
}

} // verus!
