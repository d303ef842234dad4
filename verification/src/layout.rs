//! The layout engine: derives per-node geometry, in abstract grid units,
//! from the current tree shape and per-node metadata. Geometry is never
//! persisted; it is recomputed after load and after every structural
//! mutation, and it is a pure function of the structural view: a node's
//! width is its text length, its height one row, its column its depth in
//! the tree, and its row the number of live nodes in earlier slots, so no
//! two live nodes share a row.

use vstd::prelude::*;
use vstd::string::StrSliceExecFns;

use crate::model::MindMap;
use crate::model::NodeS;

verus! {

/// The number of live slots of the structural view `s` before index `i`:
/// the row that the layout pass assigns to the node in slot `i`.
pub open spec fn rows_before(s: Seq<Option<NodeS>>, i: int) -> int
    decreases i,
{
    if i <= 0 {
        0
    } else {
        rows_before(s, i - 1) + if 0 <= i - 1 < s.len() && s[i - 1] is Some {
            1int
        } else {
            0int
        }
    }
}

/// Rows grow strictly along live slots: a live slot before another slot is
/// assigned a strictly smaller row.
pub proof fn lemma_rows_before_strict(s: Seq<Option<NodeS>>, i: int, j: int)
    requires
        0 <= i < s.len(),
        s[i] is Some,
        i < j,
    ensures
        rows_before(s, i) < rows_before(s, j),
    decreases j,
{
    if j == i + 1 {
    } else {
        lemma_rows_before_strict(s, i, j - 1);
    }
}

/// Geometry well-formedness reads only the node arena, never the selection:
/// a document with the same arena as a laid-out one is laid out itself.
pub proof fn lemma_geom_same_nodes(a: MindMap, b: MindMap)
    requires
        a.geom_ok(),
        b.nodes@ == a.nodes@,
    ensures
        b.geom_ok(),
{
    assert(b.sview() == a.sview());
    assert forall|i: int| #[trigger] b.has(i) implies {
        &&& b.node(i).width == b.nstruct(i).text.len()
        &&& b.node(i).height == 1
        &&& b.node(i).y == rows_before(b.sview(), i)
        &&& b.node(i).x <= i
        &&& (i == 0 ==> b.node(i).x == 0)
        &&& (i != 0 ==> b.node(i).x == b.node(b.node(i).parent->Some_0 as int).x + 1)
    } by {
        assert(a.has(i));
    }
}

impl MindMap {
    /// The geometry every mutation leaves behind: widths and heights follow
    /// the node's own metadata, a node sits one column right of its parent,
    /// and rows enumerate the live nodes in slot order.
    pub open spec fn geom_ok(self) -> bool {
        forall|i: int| #[trigger] self.has(i) ==> {
            &&& self.node(i).width == self.nstruct(i).text.len()
            &&& self.node(i).height == 1
            &&& self.node(i).y == rows_before(self.sview(), i)
            &&& self.node(i).x <= i
            &&& (i == 0 ==> self.node(i).x == 0)
            &&& (i != 0 ==> self.node(i).x == self.node(
                self.node(i).parent->Some_0 as int,
            ).x + 1)
        }
    }

    /// Recompute every live node's geometry from the tree. Structure and
    /// selection are untouched; afterwards the document is laid out.
    pub fn relayout(&mut self)
        requires
            old(self).wf(),
        ensures
            final(self).wf(),
            final(self).sview() == old(self).sview(),
            final(self).selected == old(self).selected,
            final(self).geom_ok(),
    {
        let ghost orig = *self;
        let n = self.nodes.len();
        let mut c: usize = 0;
        let mut i: usize = 0;
        while i < n
            invariant
                orig.wf(),
                n == orig.nodes@.len(),
                self.nodes@.len() == n,
                self.selected == orig.selected,
                self.sview() == orig.sview(),
                i <= n,
                c == rows_before(orig.sview(), i as int),
                c <= i,
                forall|j: int| 0 <= j < i && #[trigger] self.has(j) ==> {
                    &&& self.node(j).width == self.nstruct(j).text.len()
                    &&& self.node(j).height == 1
                    &&& self.node(j).y == rows_before(self.sview(), j)
                    &&& self.node(j).x <= j
                    &&& (j == 0 ==> self.node(j).x == 0)
                    &&& (j != 0 ==> self.node(j).x == self.node(
                        self.node(j).parent->Some_0 as int,
                    ).x + 1)
                },
            decreases n - i,
        {
            let ghost at_top = *self;
            proof {
                MindMap::lemma_wf_from_sview(orig, *self);
                assert(self.sview().len() == n);
            }
            let mut live = false;
            let mut w: usize = 0;
            let mut p_opt: Option<usize> = None;
            match &self.nodes[i] {
                Some(node) => {
                    live = true;
                    w = node.text.as_str().unicode_len();
                    p_opt = node.parent;
                },
                None => {},
            }
            if live {
                proof {
                    assert(self.has(i as int));
                }
                let x = match p_opt {
                    Some(p) => {
                        proof {
                            assert(self.node(i as int).parent is Some);
                            assert(i != 0);
                            assert(self.parent_ok(i as int));
                        }
                        let mut px: usize = 0;
                        match &self.nodes[p] {
                            Some(pn) => { px = pn.x; },
                            None => {},
                        }
                        px + 1
                    },
                    None => 0,
                };
                let ghost pre = *self;
                match &mut self.nodes[i] {
                    Some(node) => {
                        node.width = w;
                        node.height = 1;
                        node.x = x;
                        node.y = c;
                    },
                    None => {},
                }
                proof {
                    assert(self.sview() =~~= pre.sview());
                }
                c = c + 1;
            }
            proof {
                assert(self.sview()[i as int] is Some <==> self.has(i as int));
                assert forall|j: int| 0 <= j < i + 1 && #[trigger] self.has(j) implies {
                    &&& self.node(j).width == self.nstruct(j).text.len()
                    &&& self.node(j).height == 1
                    &&& self.node(j).y == rows_before(self.sview(), j)
                    &&& self.node(j).x <= j
                    &&& (j == 0 ==> self.node(j).x == 0)
                    &&& (j != 0 ==> self.node(j).x == self.node(
                        self.node(j).parent->Some_0 as int,
                    ).x + 1)
                } by {
                    if j != i {
                        assert(at_top.has(j));
                        assert(self.node(j) == at_top.node(j));
                        assert(self.nstruct(j) == at_top.nstruct(j));
                        if j != 0 {
                            assert(at_top.parent_ok(j));
                            let pj = at_top.node(j).parent->Some_0 as int;
                            assert(pj < j < i);
                            assert(self.node(pj) == at_top.node(pj));
                        }
                    }
                }
            }
            i = i + 1;
        }
        proof {
            MindMap::lemma_wf_from_sview(orig, *self);
        }
    }

    /// In a laid-out document no two live nodes share a row, so sibling
    /// nodes (each one row high) never overlap.
    pub proof fn lemma_rows_distinct(self)
        requires
            self.wf(),
            self.geom_ok(),
        ensures
            forall|i: int, j: int|
                #[trigger] self.has(i) && #[trigger] self.has(j) && i != j ==> self.node(i).y
                    != self.node(j).y,
    {
        assert forall|i: int, j: int|
            #[trigger] self.has(i) && #[trigger] self.has(j) && i != j implies self.node(i).y
            != self.node(j).y by {
            assert(self.sview()[i] is Some);
            assert(self.sview()[j] is Some);
            if i < j {
                lemma_rows_before_strict(self.sview(), i, j);
            } else {
                lemma_rows_before_strict(self.sview(), j, i);
            }
        }
    }

    /// In a laid-out document every non-root node sits strictly right of its
    /// parent: parent-before-child ordering of columns.
    pub proof fn lemma_parent_before_child(self)
        requires
            self.wf(),
            self.geom_ok(),
        ensures
            forall|i: int| #[trigger] self.has(i) && i != 0 ==> self.node(
                self.node(i).parent->Some_0 as int,
            ).x < self.node(i).x,
    {
    }
}

} // verus!
