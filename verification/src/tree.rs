//! The tree content of a document, free of identifiers, geometry and
//! selection: what the interchange codecs read and write. `TreeV` is the
//! mathematical tree (text, icons, children), `TreeNode` its executable
//! twin, and `MindMap::subtree` projects a document onto it.

use vstd::prelude::*;

use crate::model::MindMap;

verus! {

broadcast use vstd::seq::axiom_seq_index_decreases, vstd::std_specs::vec::axiom_vec_index_decreases;

/// A mathematical tree of text and icons: the content a codec must carry
/// through its on-disk representation.
#[verifier::ext_equal]
pub ghost struct TreeV {
    pub text: Seq<char>,
    pub icons: Seq<Seq<char>>,
    pub children: Seq<TreeV>,
}

impl TreeV {
    /// The tree of a single node with empty text and no icons.
    pub open spec fn empty() -> TreeV {
        TreeV { text: Seq::empty(), icons: Seq::empty(), children: Seq::empty() }
    }

    /// The same tree with every icon list emptied: the documented lossy
    /// mapping of formats that carry no icons.
    pub open spec fn erase_icons(self) -> TreeV
        decreases self,
    {
        TreeV {
            text: self.text,
            icons: Seq::empty(),
            children: Seq::new(
                self.children.len(),
                |k: int|
                    if 0 <= k < self.children.len() {
                        self.children[k].erase_icons()
                    } else {
                        TreeV::empty()
                    },
            ),
        }
    }

    /// A tree carries no icons exactly when erasing icons changes nothing;
    /// such trees round-trip losslessly through icon-free formats.
    pub open spec fn icon_free(self) -> bool {
        self.erase_icons() == self
    }
}

/// The executable twin of `TreeV`, built by decoders and walked by encoders.
pub struct TreeNode {
    pub text: String,
    pub icons: Vec<String>,
    pub children: Vec<TreeNode>,
}

/// The mathematical tree that a `TreeNode` denotes.
pub open spec fn tree_view(t: TreeNode) -> TreeV
    decreases t,
{
    TreeV {
        text: t.text@,
        icons: t.icons@.map_values(|s: String| s@),
        children: Seq::new(
            t.children@.len(),
            |i: int|
                if 0 <= i < t.children@.len() {
                    tree_view(t.children@[i])
                } else {
                    TreeV::empty()
                },
        ),
    }
}

impl View for TreeNode {
    type V = TreeV;

    open spec fn view(&self) -> TreeV {
        tree_view(*self)
    }
}

impl MindMap {
    /// The tree content hanging from node `id`: its text, its icons, and its
    /// children's subtrees in order.
    pub open spec fn subtree(self, id: int) -> TreeV
        decreases self.nodes@.len() - id,
    {
        if self.has(id) {
            let ch = self.node(id).children@;
            TreeV {
                text: self.node(id).text@,
                icons: self.node(id).icons@.map_values(|s: String| s@),
                children: Seq::new(
                    ch.len(),
                    |k: int|
                        if 0 <= k < ch.len() && id < ch[k] < self.nodes@.len() {
                            self.subtree(ch[k] as int)
                        } else {
                            TreeV::empty()
                        },
                ),
            }
        } else {
            TreeV::empty()
        }
    }

    /// In a well-formed document the `k`-th child of `subtree(id)` is the
    /// subtree of the `k`-th child identifier.
    pub proof fn lemma_subtree_child(self, id: int, k: int)
        requires
            self.wf(),
            self.has(id),
            0 <= k < self.node(id).children@.len(),
        ensures
            self.subtree(id).children[k] == self.subtree(self.node(id).children@[k] as int),
    {
        assert(self.child_ok(id, k));
    }

    /// The subtree of `id` reads only slots `id` and above: a document that
    /// agrees with a well-formed one on those slots has the same subtree.
    pub proof fn lemma_subtree_frame(m1: MindMap, m2: MindMap, id: int)
        requires
            m1.wf(),
            m1.has(id),
            m2.nodes@.len() >= m1.nodes@.len(),
            forall|j: int| id <= j < m1.nodes@.len() ==> m2.nodes@[j] == m1.nodes@[j],
        ensures
            m2.subtree(id) == m1.subtree(id),
        decreases m1.nodes@.len() - id,
    {
        assert(m2.nodes@[id] == m1.nodes@[id]);
        assert(m2.has(id));
        assert(m2.node(id) == m1.node(id));
        let ch = m1.node(id).children@;
        assert forall|k: int| 0 <= k < ch.len() implies m2.subtree(ch[k] as int) == m1.subtree(
            ch[k] as int,
        ) && id < ch[k] < m1.nodes@.len() by {
            assert(m1.child_ok(id, k));
            MindMap::lemma_subtree_frame(m1, m2, ch[k] as int);
        }
        assert(m2.subtree(id).children =~= m1.subtree(id).children);
        assert(m2.subtree(id) =~~= m1.subtree(id));
    }

    /// Read the tree content hanging from node `id` out of the document.
    pub fn to_tree(&self, id: usize) -> (t: TreeNode)
        requires
            self.wf(),
            self.has(id as int),
        ensures
            t@ == self.subtree(id as int),
        decreases self.nodes@.len() - id,
    {
        match &self.nodes[id] {
            Some(n) => {
                let text = n.text.clone();
                let icons = n.icons.clone();
                proof {
                    assert forall|j: int| 0 <= j < icons@.len() implies icons@[j]@
                        == n.icons@[j]@ by {
                        assert(vstd::prelude::cloned::<String>(n.icons@[j], icons@[j]));
                    }
                    assert(icons@.map_values(|s: String| s@) =~= n.icons@.map_values(
                        |s: String| s@,
                    ));
                }
                let mut children: Vec<TreeNode> = Vec::new();
                let mut i: usize = 0;
                let clen = n.children.len();
                while i < clen
                    invariant
                        self.wf(),
                        self.has(id as int),
                        n.children@ == self.node(id as int).children@,
                        clen == n.children@.len(),
                        i <= clen,
                        children@.len() == i,
                        forall|k: int| 0 <= k < i ==> #[trigger] tree_view(children@[k])
                            == self.subtree(n.children@[k] as int),
                    decreases clen - i,
                {
                    proof {
                        assert(self.child_ok(id as int, i as int));
                    }
                    let c = n.children[i];
                    let sub = self.to_tree(c);
                    children.push(sub);
                    i = i + 1;
                }
                let t = TreeNode { text, icons, children };
                proof {
                    assert forall|k: int| 0 <= k < clen implies t@.children[k] == self.subtree(
                        id as int,
                    ).children[k] by {
                        assert(tree_view(t.children@[k]) == self.subtree(
                            n.children@[k] as int,
                        ));
                        self.lemma_subtree_child(id as int, k);
                    }
                    assert(t@.children =~= self.subtree(id as int).children);
                    assert(t@ =~~= self.subtree(id as int));
                }
                t
            },
            None => {
                proof {
                    assert(false);
                }
                TreeNode { text: String::new(), icons: Vec::new(), children: Vec::new() }
            },
        }
    }

    /// Create the children of `t` under node `id`, which must be a freshly
    /// created leaf carrying `t`'s text and icons already; afterwards the
    /// subtree of `id` is exactly `t`'s tree. Existing slots other than `id`
    /// are untouched and the arena only grows.
    fn graft_children(&mut self, id: usize, t: &TreeNode)
        requires
            old(self).wf(),
            old(self).has(id as int),
            old(self).node(id as int).children@ == Seq::<usize>::empty(),
            old(self).node(id as int).text@ == t@.text,
            old(self).node(id as int).icons@.map_values(|s: String| s@) == t@.icons,
        ensures
            final(self).wf(),
            final(self).nodes@.len() >= old(self).nodes@.len(),
            forall|j: int| 0 <= j < old(self).nodes@.len() && j != id ==> final(self).nodes@[j]
                == old(self).nodes@[j],
            final(self).selected == old(self).selected,
            final(self).subtree(id as int) == t@,
        decreases *t,
    {
        let ghost orig = *self;
        let n_children = t.children.len();
        let mut i: usize = 0;
        while i < n_children
            invariant
                orig.wf(),
                orig.has(id as int),
                n_children == t.children@.len(),
                i <= n_children,
                self.wf(),
                self.nodes@.len() >= orig.nodes@.len(),
                id < orig.nodes@.len(),
                self.selected == orig.selected,
                forall|j: int| 0 <= j < orig.nodes@.len() && j != id ==> self.nodes@[j]
                    == orig.nodes@[j],
                self.has(id as int),
                self.node(id as int).parent == orig.node(id as int).parent,
                self.node(id as int).text == orig.node(id as int).text,
                self.node(id as int).icons == orig.node(id as int).icons,
                self.node(id as int).children@.len() == i,
                forall|k: int|
                    #![trigger self.node(id as int).children@[k]]
                    0 <= k < i ==> {
                        let c = self.node(id as int).children@[k] as int;
                        &&& orig.nodes@.len() <= c < self.nodes@.len()
                        &&& self.subtree(c) == tree_view(t.children@[k])
                    },
            decreases n_children - i,
        {
            let ghost pre = *self;
            let cid = self.nodes.len();
            let child = &t.children[i];
            let node = crate::model::Node {
                text: child.text.clone(),
                parent: Some(id),
                children: Vec::new(),
                icons: child.icons.clone(),
                x: 0,
                y: 0,
                width: 0,
                height: 0,
            };
            self.nodes.push(Some(node));
            match &mut self.nodes[id] {
                Some(nd) => nd.children.push(cid),
                None => {},
            }
            proof {
                let oc = pre.node(id as int).children@;
                assert(oc.insert(oc.len() as int, pre.fresh_id()) =~= oc.push(pre.fresh_id()));
                self.lemma_grown_wf(pre, id, oc.len() as int);
            }
            let ghost mid = *self;
            proof {
                assert(mid.wf());
                assert(mid.node(cid as int).icons@.map_values(|s: String| s@) =~= tree_view(
                    t.children@[i as int],
                ).icons) by {
                    assert forall|j: int| 0 <= j < mid.node(cid as int).icons@.len() implies mid.node(
                        cid as int,
                    ).icons@[j]@ == child.icons@[j]@ by {
                        assert(vstd::prelude::cloned::<String>(
                            child.icons@[j],
                            mid.node(cid as int).icons@[j],
                        ));
                    }
                }
            }
            self.graft_children(cid, child);
            proof {
                // Earlier children keep their subtrees: the recursive call
                // touched only slot `cid` and fresh slots beyond it.
                assert forall|k: int|
                    #![trigger self.node(id as int).children@[k]]
                    0 <= k < i implies {
                    let c = self.node(id as int).children@[k] as int;
                    &&& orig.nodes@.len() <= c < self.nodes@.len()
                    &&& self.subtree(c) == tree_view(t.children@[k])
                } by {
                    assert(self.nodes@[id as int] == mid.nodes@[id as int]);
                    assert(pre.child_ok(id as int, k));
                    let c = pre.node(id as int).children@[k] as int;
                    assert(pre.has(c));
                    assert(id < c);
                    assert forall|j: int| c <= j < pre.nodes@.len() implies self.nodes@[j]
                        == pre.nodes@[j] by {
                        assert(j != id);
                        assert(j != cid);
                        assert(mid.nodes@[j] == pre.nodes@[j]);
                    }
                    MindMap::lemma_subtree_frame(pre, *self, c);
                    assert(self.node(id as int).children@[k] == pre.node(id as int).children@[k]);
                }
                // The fresh child's subtree survives nothing: the recursion
                // just established it.
                assert(self.node(id as int).children@ == pre.node(id as int).children@.push(cid));
            }
            i = i + 1;
        }
        proof {
            assert forall|k: int| 0 <= k < n_children implies self.subtree(id as int).children[k]
                == t@.children[k] by {
                self.lemma_subtree_child(id as int, k);
                assert(self.subtree(self.node(id as int).children@[k] as int) == tree_view(
                    t.children@[k],
                ));
            }
            assert(self.subtree(id as int).children =~= t@.children);
            assert(self.subtree(id as int).text == t@.text);
            assert(self.subtree(id as int).icons == t@.icons) by {
                assert(self.node(id as int).icons == orig.node(id as int).icons);
            }
            assert(self.subtree(id as int) =~~= t@);
        }
    }

    /// The subtree of a live node depends only on the structural view: a
    /// document with the same structural view has the same subtrees.
    pub proof fn lemma_subtree_sview(m1: MindMap, m2: MindMap, id: int)
        requires
            m1.wf(),
            m1.has(id),
            m2.sview() == m1.sview(),
        ensures
            m2.subtree(id) == m1.subtree(id),
        decreases m1.nodes@.len() - id,
    {
        assert(m1.sview().len() == m1.nodes@.len());
        assert(m2.sview().len() == m2.nodes@.len());
        assert(m2.sview()[id] == m1.sview()[id]);
        assert(m2.has(id));
        assert(m2.nstruct(id) == m1.nstruct(id));
        let ch = m1.node(id).children@;
        assert(m2.node(id).children@ == ch);
        assert forall|k: int| 0 <= k < ch.len() implies m2.subtree(ch[k] as int) == m1.subtree(
            ch[k] as int,
        ) && id < ch[k] < m1.nodes@.len() by {
            assert(m1.child_ok(id, k));
            MindMap::lemma_subtree_sview(m1, m2, ch[k] as int);
        }
        assert(m2.subtree(id).children =~= m1.subtree(id).children);
        assert(m2.subtree(id).text == m1.subtree(id).text);
        assert(m2.subtree(id).icons == m1.subtree(id).icons);
        assert(m2.subtree(id) =~~= m1.subtree(id));
    }

    /// Build a fresh document whose root carries the tree content `t`: what
    /// every decoder does with the tree it parsed. The root is selected and
    /// the document laid out.
    pub fn from_tree(t: &TreeNode) -> (m: MindMap)
        ensures
            m.wf(),
            m.geom_ok(),
            m.selected == 0,
            m.subtree(0) == t@,
    {
        let root = crate::model::Node {
            text: t.text.clone(),
            parent: None,
            children: Vec::new(),
            icons: t.icons.clone(),
            x: 0,
            y: 0,
            width: 0,
            height: 0,
        };
        let mut nodes: Vec<Option<crate::model::Node>> = Vec::new();
        nodes.push(Some(root));
        let mut m = MindMap { nodes, selected: 0 };
        proof {
            assert(m.wf());
            assert(m.node(0).icons@.map_values(|s: String| s@) =~= t@.icons) by {
                assert forall|j: int| 0 <= j < m.node(0).icons@.len() implies m.node(0).icons@[j]@
                    == t.icons@[j]@ by {
                    assert(vstd::prelude::cloned::<String>(t.icons@[j], m.node(0).icons@[j]));
                }
            }
        }
        m.graft_children(0, t);
        let ghost pre = m;
        m.relayout();
        proof {
            MindMap::lemma_subtree_sview(pre, m, 0);
        }
        m
    }
}

} // verus!
