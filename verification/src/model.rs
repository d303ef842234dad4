//! The document model: a tree of nodes with stable identifiers, held in an
//! arena indexed by identifier, together with the selection/cursor state.
//!
//! Identifiers are slot indices into the arena and are never reused while a
//! document lives: a fresh node always takes the next free slot at the end,
//! so every child's identifier is strictly greater than its parent's. That
//! ordering is part of the well-formedness invariant and makes the tree
//! acyclic by construction.

use vstd::prelude::*;

use crate::errors::MapError;

verus! {

/// An element of a sequence is still an element after a push.
pub proof fn lemma_push_contains<T>(s: Seq<T>, x: T, y: T)
    requires
        s.contains(y),
    ensures
        s.push(x).contains(y),
{
    let k = choose|k: int| 0 <= k < s.len() && s[k] == y;
    assert(s.push(x)[k] == y);
}

/// An element of a sequence other than the removed one is still an element
/// after the removal.
pub proof fn lemma_remove_keeps<T>(s: Seq<T>, k: int, y: T)
    requires
        0 <= k < s.len(),
        s.contains(y),
        s[k] != y,
    ensures
        s.remove(k).contains(y),
{
    let j = choose|j: int| 0 <= j < s.len() && s[j] == y;
    if j < k {
        assert(s.remove(k)[j] == y);
    } else {
        assert(s.remove(k)[j - 1] == y);
    }
}

/// An element of a sequence is still an element after an insertion.
pub proof fn lemma_insert_contains<T>(s: Seq<T>, pos: int, x: T, y: T)
    requires
        0 <= pos <= s.len(),
        s.contains(y),
    ensures
        s.insert(pos, x).contains(y),
{
    let k = choose|k: int| 0 <= k < s.len() && s[k] == y;
    if k < pos {
        assert(s.insert(pos, x)[k] == y);
    } else {
        assert(s.insert(pos, x)[k + 1] == y);
    }
}

/// One addressable element of the tree: text, icons, ordered children,
/// a back-reference to the parent (absent only for the root), and derived
/// layout geometry in grid units (recomputed, never hand-set).
#[derive(Clone, Debug)]
pub struct Node {
    pub text: String,
    pub parent: Option<usize>,
    pub children: Vec<usize>,
    pub icons: Vec<String>,
    pub x: usize,
    pub y: usize,
    pub width: usize,
    pub height: usize,
}

/// The structural content of a node: everything except the derived layout
/// geometry. Contracts about mutations are stated over this view.
#[verifier::ext_equal]
pub ghost struct NodeS {
    pub text: Seq<char>,
    pub parent: Option<usize>,
    pub children: Seq<usize>,
    pub icons: Seq<Seq<char>>,
}

impl NodeS {
    /// A childless node with no icons.
    pub open spec fn leaf(text: Seq<char>, parent: usize) -> NodeS {
        NodeS { text: text, parent: Some(parent), children: Seq::empty(), icons: Seq::empty() }
    }

    /// The same node with another child list.
    pub open spec fn with_children(self, children: Seq<usize>) -> NodeS {
        NodeS { children: children, ..self }
    }

    /// The same node with another text.
    pub open spec fn with_text(self, text: Seq<char>) -> NodeS {
        NodeS { text: text, ..self }
    }

    /// The same node with another icon list.
    pub open spec fn with_icons(self, icons: Seq<Seq<char>>) -> NodeS {
        NodeS { icons: icons, ..self }
    }
}

impl Node {
    /// The structural view of this node.
    pub open spec fn strukt(self) -> NodeS {
        NodeS {
            text: self.text@,
            parent: self.parent,
            children: self.children@,
            icons: self.icons@.map_values(|s: String| s@),
        }
    }
}

/// A keyboard-style movement of the navigation cursor along tree adjacency.
#[derive(Clone, Copy, Debug, PartialEq, Eq, Structural)]
pub enum Navigation {
    Parent,
    FirstChild,
    PrevSibling,
    NextSibling,
}

/// The full in-memory mind-map document: the node arena and the identifier
/// of the node that is both the current selection and the navigation cursor.
///
/// Slot `i` of the arena holds the node with identifier `i`, or `None` once
/// that node has been removed. The root always lives in slot 0.
#[derive(Clone, Debug)]
pub struct MindMap {
    pub nodes: Vec<Option<Node>>,
    pub selected: usize,
}

pub const ROOT_ID: usize = 0;

impl MindMap {
    /// Whether identifier `i` resolves to a live node.
    pub open spec fn has(self, i: int) -> bool {
        0 <= i < self.nodes@.len() && self.nodes@[i] is Some
    }

    /// The node with identifier `i` (meaningful only when `has(i)`).
    pub open spec fn node(self, i: int) -> Node {
        self.nodes@[i]->Some_0
    }

    /// The structural view of node `i`.
    pub open spec fn nstruct(self, i: int) -> NodeS {
        self.node(i).strukt()
    }

    /// The structural view of the whole arena: geometry erased.
    pub open spec fn sview(self) -> Seq<Option<NodeS>> {
        self.nodes@.map_values(
            |on: Option<Node>|
                match on {
                    Some(n) => Some(n.strukt()),
                    None => None,
                },
        )
    }

    /// The `k`-th child link of node `i` is consistent: it points forward to
    /// a live node whose parent reference points back to `i`.
    pub open spec fn child_ok(self, i: int, k: int) -> bool {
        let c = self.node(i).children@[k] as int;
        &&& i < c < self.nodes@.len()
        &&& self.has(c)
        &&& self.node(c).parent == Some(i as usize)
    }

    /// Node `i` (not the root) has a parent reference that points backward to
    /// a live node whose child list mentions `i`.
    pub open spec fn parent_ok(self, i: int) -> bool {
        &&& self.node(i).parent matches Some(p)
        &&& (p as int) < i
        &&& self.has(p as int)
        &&& self.node(p as int).children@.contains(i as usize)
    }

    /// Tree well-formedness: the root lives in slot 0 and has no parent;
    /// every other live node is linked consistently to a live parent with a
    /// smaller identifier; child lists point forward, are mirrored by parent
    /// references, and repeat no identifier; and the selection resolves.
    /// Together these make the live nodes a single tree rooted at 0: acyclic
    /// (children always have larger identifiers), connected (parent chains
    /// descend to 0), with no dangling references.
    pub open spec fn wf(self) -> bool {
        &&& 0 < self.nodes@.len()
        &&& self.has(0)
        &&& self.node(0).parent is None
        &&& forall|i: int| #[trigger] self.has(i) && i != 0 ==> self.parent_ok(i)
        &&& forall|i: int, k: int|
            self.has(i) && 0 <= k < self.node(i).children@.len() ==> #[trigger] self.child_ok(i, k)
        &&& forall|i: int, k1: int, k2: int|
            #![trigger self.node(i).children@[k1], self.node(i).children@[k2]]
            self.has(i) && 0 <= k1 < self.node(i).children@.len() && 0 <= k2 < self.node(
                i,
            ).children@.len() && k1 != k2 ==> self.node(i).children@[k1] != self.node(
                i,
            ).children@[k2]
        &&& self.has(self.selected as int)
    }

    /// Well-formedness depends only on the structural view and the selection,
    /// never on geometry: a document that agrees with a well-formed one on
    /// both is well-formed itself.
    pub proof fn lemma_wf_from_sview(a: MindMap, b: MindMap)
        requires
            a.wf(),
            a.sview() == b.sview(),
            a.selected == b.selected,
        ensures
            b.wf(),
    {
        assert(a.sview().len() == a.nodes@.len());
        assert(b.sview().len() == b.nodes@.len());
        assert(a.nodes@.len() == b.nodes@.len());
        assert forall|i: int| 0 <= i < b.nodes@.len() implies (b.has(i) == a.has(i)) && (b.has(i)
            ==> b.nstruct(i) == a.nstruct(i)) by {
            assert(b.sview()[i] == a.sview()[i]);
        }
        assert forall|i: int| #[trigger] b.has(i) && i != 0 implies b.parent_ok(i) by {
            assert(a.parent_ok(i));
            let p = a.node(i).parent->Some_0 as int;
            assert(b.nstruct(i) == a.nstruct(i));
            assert(b.nstruct(p) == a.nstruct(p));
        }
        assert forall|i: int, k: int|
            b.has(i) && 0 <= k < b.node(i).children@.len() implies #[trigger] b.child_ok(i, k) by {
            assert(b.nstruct(i) == a.nstruct(i));
            assert(a.child_ok(i, k));
            let c = a.node(i).children@[k] as int;
            assert(b.nstruct(c) == a.nstruct(c));
        }
        assert forall|i: int, k1: int, k2: int|
            #![trigger b.node(i).children@[k1], b.node(i).children@[k2]]
            b.has(i) && 0 <= k1 < b.node(i).children@.len() && 0 <= k2 < b.node(
                i,
            ).children@.len() && k1 != k2 implies b.node(i).children@[k1] != b.node(
                i,
            ).children@[k2] by {
            assert(b.nstruct(i) == a.nstruct(i));
            assert(a.node(i).children@[k1] != a.node(i).children@[k2]);
        }
    }

    /// The identifier the next created node will receive.
    pub open spec fn fresh_id(self) -> usize {
        self.nodes@.len() as usize
    }

    /// The structural view of a document whose node `i` got another content
    /// (text or icons) but kept its links: parents, children, liveness and
    /// the selection are as before.
    pub open spec fn links_agree(a: MindMap, b: MindMap, i: int) -> bool {
        &&& (b.has(i) <==> a.has(i))
        &&& (a.has(i) ==> b.node(i).parent == a.node(i).parent && b.node(i).children@ == a.node(
            i,
        ).children@)
    }

    /// Well-formedness depends only on the link structure and the selection:
    /// a document that agrees with a well-formed one on both is well-formed.
    pub proof fn lemma_wf_same_links(a: MindMap, b: MindMap)
        requires
            a.wf(),
            b.nodes@.len() == a.nodes@.len(),
            a.has(b.selected as int),
            forall|i: int| #[trigger] MindMap::links_agree(a, b, i),
        ensures
            b.wf(),
    {
        assert(MindMap::links_agree(a, b, 0));
        assert(MindMap::links_agree(a, b, b.selected as int));
        assert forall|i: int| #[trigger] b.has(i) && i != 0 implies b.parent_ok(i) by {
            assert(MindMap::links_agree(a, b, i));
            assert(a.parent_ok(i));
            let p = a.node(i).parent->Some_0 as int;
            assert(MindMap::links_agree(a, b, p));
        }
        assert forall|i: int, k: int|
            b.has(i) && 0 <= k < b.node(i).children@.len() implies #[trigger] b.child_ok(i, k) by {
            assert(MindMap::links_agree(a, b, i));
            assert(a.child_ok(i, k));
            let c = a.node(i).children@[k] as int;
            assert(MindMap::links_agree(a, b, c));
        }
        assert forall|i: int, k1: int, k2: int|
            #![trigger b.node(i).children@[k1], b.node(i).children@[k2]]
            b.has(i) && 0 <= k1 < b.node(i).children@.len() && 0 <= k2 < b.node(
                i,
            ).children@.len() && k1 != k2 implies b.node(i).children@[k1] != b.node(
                i,
            ).children@[k2] by {
            assert(MindMap::links_agree(a, b, i));
            assert(a.node(i).children@[k1] != a.node(i).children@[k2]);
        }
    }

    /// The structural view of the one-node document that `new` produces: a
    /// root with empty text, no icons and no children.
    pub open spec fn initial_view() -> Seq<Option<NodeS>> {
        seq![
            Some(
                NodeS {
                    text: Seq::empty(),
                    parent: None,
                    children: Seq::empty(),
                    icons: Seq::empty(),
                },
            ),
        ]
    }

    /// A fresh document: only a root node with empty text, no icons and no
    /// children, selected and laid out. Never fails.
    pub fn new() -> (m: MindMap)
        ensures
            m.wf(),
            m.geom_ok(),
            m.sview() == MindMap::initial_view(),
            m.selected == 0,
    {
        let root = Node {
            text: String::new(),
            parent: None,
            children: Vec::new(),
            icons: Vec::new(),
            x: 0,
            y: 0,
            width: 0,
            height: 1,
        };
        let mut nodes: Vec<Option<Node>> = Vec::new();
        nodes.push(Some(root));
        let m = MindMap { nodes, selected: 0 };
        proof {
            assert(m.sview() =~~= MindMap::initial_view());
            assert(m.wf());
            assert forall|i: int| #[trigger] m.has(i) implies {
                &&& m.node(i).width == m.nstruct(i).text.len()
                &&& m.node(i).height == 1
                &&& m.node(i).y == crate::layout::rows_before(m.sview(), i)
                &&& m.node(i).x <= i
                &&& (i == 0 ==> m.node(i).x == 0)
                &&& (i != 0 ==> m.node(i).x == m.node(m.node(i).parent->Some_0 as int).x + 1)
            } by {
                assert(i == 0);
                assert(crate::layout::rows_before(m.sview(), 0) == 0);
            }
        }
        m
    }

    /// Append a new node as the last child of `parent_id`, giving it `text`,
    /// a fresh identifier and no icons; the new node becomes the selection
    /// and cursor, and the document is laid out again. Fails with `NotFound`,
    /// leaving the document unchanged, exactly when `parent_id` does not
    /// resolve.
    pub fn add_child(&mut self, parent_id: usize, text: String) -> (r: Result<usize, MapError>)
        requires
            old(self).wf(),
        ensures
            old(self).has(parent_id as int) ==> {
                &&& r == Result::<usize, MapError>::Ok(old(self).fresh_id())
                &&& final(self).sview() == old(self).sview().update(
                    parent_id as int,
                    Some(
                        old(self).nstruct(parent_id as int).with_children(
                            old(self).nstruct(parent_id as int).children.push(old(self).fresh_id()),
                        ),
                    ),
                ).push(Some(NodeS::leaf(text@, parent_id)))
                &&& final(self).selected == old(self).fresh_id()
                &&& final(self).wf()
                &&& final(self).geom_ok()
            },
            !old(self).has(parent_id as int) ==> r == Result::<usize, MapError>::Err(
                MapError::NotFound,
            ) && *final(self) == *old(self),
    {
        if !self.contains_node(parent_id) {
            return Err(MapError::NotFound);
        }
        let ghost o = *self;
        let id = self.nodes.len();
        let node = Node {
            text,
            parent: Some(parent_id),
            children: Vec::new(),
            icons: Vec::new(),
            x: 0,
            y: 0,
            width: 0,
            height: 0,
        };
        self.nodes.push(Some(node));
        match &mut self.nodes[parent_id] {
            Some(p) => p.children.push(id),
            None => {},
        }
        self.selected = id;
        proof {
            let pid = parent_id as int;
            let idi = id as int;
            assert(self.nodes@.len() == idi + 1);
            assert(self.has(idi));
            assert(self.node(pid).children@ == o.node(pid).children@.push(id));
            assert(self.node(idi).icons@.map_values(|s: String| s@) =~= Seq::<Seq<char>>::empty());
            assert(self.sview() =~~= o.sview().update(
                pid,
                Some(o.nstruct(pid).with_children(o.nstruct(pid).children.push(o.fresh_id()))),
            ).push(Some(NodeS::leaf(text@, parent_id))));
            let oc = o.node(pid).children@;
            assert(oc.insert(oc.len() as int, o.fresh_id()) =~= oc.push(o.fresh_id()));
            self.lemma_grown_wf(o, parent_id, oc.len() as int);
        }
        self.relayout();
        Ok(id)
    }

    /// After a fresh leaf was pushed into the last slot and spliced into its
    /// parent's child list at position `pos`, the grown document is well
    /// formed. `self` is the grown document, `o` the one before the mutation.
    pub(crate) proof fn lemma_grown_wf(self, o: MindMap, parent_id: usize, pos: int)
        requires
            o.wf(),
            o.has(parent_id as int),
            self.nodes@.len() == o.nodes@.len() + 1,
            forall|j: int| 0 <= j < o.nodes@.len() && j != parent_id ==> self.nodes@[j]
                == o.nodes@[j],
            self.has(parent_id as int),
            self.node(parent_id as int).parent == o.node(parent_id as int).parent,
            0 <= pos <= o.node(parent_id as int).children@.len(),
            self.node(parent_id as int).children@ == o.node(parent_id as int).children@.insert(
                pos,
                o.fresh_id(),
            ),
            self.has(o.nodes@.len() as int),
            self.node(o.nodes@.len() as int).parent == Some(parent_id),
            self.node(o.nodes@.len() as int).children@ == Seq::<usize>::empty(),
            o.has(self.selected as int) || self.selected == o.fresh_id(),
        ensures
            self.wf(),
    {
        vstd::std_specs::vec::axiom_spec_len(&o.nodes);
        vstd::std_specs::vec::axiom_spec_len(&self.nodes);
        let id = o.nodes@.len() as int;
        let pid = parent_id as int;
        let oc = o.node(pid).children@;
        assert(o.fresh_id() as int == id);
        assert forall|i: int| #[trigger] self.has(i) && i != 0 implies self.parent_ok(i) by {
            if i == id {
                assert(self.node(pid).children@[pos] == o.fresh_id());
            } else {
                assert(o.has(i));
                assert(o.parent_ok(i));
                let p = o.node(i).parent->Some_0 as int;
                if p == pid {
                    lemma_insert_contains(oc, pos, o.fresh_id(), i as usize);
                }
            }
        }
        assert forall|i: int, k: int|
            self.has(i) && 0 <= k < self.node(i).children@.len() implies #[trigger] self.child_ok(
            i,
            k,
        ) by {
            if i == pid {
                if k < pos {
                    assert(o.child_ok(pid, k));
                    assert(self.node(i).children@[k] == oc[k]);
                } else if k == pos {
                    assert(self.node(i).children@[k] == o.fresh_id());
                } else {
                    assert(o.child_ok(pid, k - 1));
                    assert(self.node(i).children@[k] == oc[k - 1]);
                }
            } else if i == id {
                assert(self.node(i).children@.len() == 0);
            } else {
                assert(o.has(i));
                assert(o.child_ok(i, k));
            }
        }
        assert forall|i: int, k1: int, k2: int|
            #![trigger self.node(i).children@[k1], self.node(i).children@[k2]]
            self.has(i) && 0 <= k1 < self.node(i).children@.len() && 0 <= k2 < self.node(
                i,
            ).children@.len() && k1 != k2 implies self.node(i).children@[k1] != self.node(
                i,
            ).children@[k2] by {
            if i == pid {
                let orig1 = if k1 < pos {
                    k1
                } else {
                    k1 - 1
                };
                let orig2 = if k2 < pos {
                    k2
                } else {
                    k2 - 1
                };
                if k1 != pos {
                    assert(self.node(i).children@[k1] == oc[orig1]);
                    assert(o.child_ok(pid, orig1));
                }
                if k2 != pos {
                    assert(self.node(i).children@[k2] == oc[orig2]);
                    assert(o.child_ok(pid, orig2));
                }
                if k1 != pos && k2 != pos {
                    assert(oc[orig1] != oc[orig2]);
                }
            } else if i != id {
                assert(o.has(i));
                assert(o.node(i).children@[k1] != o.node(i).children@[k2]);
            }
        }
    }

    /// Replace the text of node `node_id` in place; no structural change,
    /// then the document is laid out again. Fails with `NotFound`, leaving
    /// the document unchanged, exactly when `node_id` does not resolve.
    pub fn change_node(&mut self, node_id: usize, text: String) -> (r: Result<(), MapError>)
        requires
            old(self).wf(),
        ensures
            old(self).has(node_id as int) ==> {
                &&& r == Result::<(), MapError>::Ok(())
                &&& final(self).sview() == old(self).sview().update(
                    node_id as int,
                    Some(old(self).nstruct(node_id as int).with_text(text@)),
                )
                &&& final(self).selected == old(self).selected
                &&& final(self).wf()
                &&& final(self).geom_ok()
            },
            !old(self).has(node_id as int) ==> r == Result::<(), MapError>::Err(MapError::NotFound)
                && *final(self) == *old(self),
    {
        if !self.contains_node(node_id) {
            return Err(MapError::NotFound);
        }
        let ghost o = *self;
        match &mut self.nodes[node_id] {
            Some(n) => n.text = text,
            None => {},
        }
        proof {
            assert(self.sview() =~~= o.sview().update(
                node_id as int,
                Some(o.nstruct(node_id as int).with_text(text@)),
            ));
            assert forall|i: int| #[trigger] MindMap::links_agree(o, *self, i) by {}
            MindMap::lemma_wf_same_links(o, *self);
        }
        self.relayout();
        Ok(())
    }

    /// Set the selection (and cursor) to `node_id`. Fails with `NotFound`,
    /// leaving the document unchanged, exactly when `node_id` does not
    /// resolve.
    pub fn select_node(&mut self, node_id: usize) -> (r: Result<(), MapError>)
        requires
            old(self).wf(),
        ensures
            old(self).has(node_id as int) ==> {
                &&& r == Result::<(), MapError>::Ok(())
                &&& final(self).nodes == old(self).nodes
                &&& final(self).selected == node_id
                &&& final(self).wf()
                &&& (old(self).geom_ok() ==> final(self).geom_ok())
            },
            !old(self).has(node_id as int) ==> r == Result::<(), MapError>::Err(MapError::NotFound)
                && *final(self) == *old(self),
    {
        if !self.contains_node(node_id) {
            return Err(MapError::NotFound);
        }
        self.selected = node_id;
        proof {
            assert forall|i: int| #[trigger] MindMap::links_agree(*old(self), *self, i) by {}
            MindMap::lemma_wf_same_links(*old(self), *self);
            if old(self).geom_ok() {
                crate::layout::lemma_geom_same_nodes(*old(self), *self);
            }
        }
        Ok(())
    }

    /// The position of child `c` in the child list of node `p` (meaningful
    /// when the list mentions `c` exactly once, as well-formedness ensures).
    pub open spec fn child_index(self, p: int, c: usize) -> int {
        choose|k: int| 0 <= k < self.node(p).children@.len() && self.node(p).children@[k] == c
    }

    /// Find the position of `c` in the child list of `p` by a linear scan.
    fn child_pos(&self, p: usize, c: usize) -> (k: usize)
        requires
            self.wf(),
            self.has(p as int),
            self.node(p as int).children@.contains(c),
        ensures
            0 <= k < self.node(p as int).children@.len(),
            self.node(p as int).children@[k as int] == c,
            k == self.child_index(p as int, c),
    {
        match &self.nodes[p] {
            Some(n) => {
                let len = n.children.len();
                let mut k: usize = 0;
                while k < len
                    invariant
                        self.wf(),
                        self.has(p as int),
                        k <= len,
                        len == n.children@.len(),
                        n.children@ == self.node(p as int).children@,
                        self.node(p as int).children@.contains(c),
                        forall|j: int| 0 <= j < k ==> self.node(p as int).children@[j] != c,
                    decreases len - k,
                {
                    if n.children[k] == c {
                        proof {
                            let kk = self.child_index(p as int, c);
                            assert(self.node(p as int).children@[kk] == c);
                            if kk != k {
                                assert(self.wf());
                                assert(self.node(p as int).children@[kk] == self.node(
                                    p as int,
                                ).children@[k as int]);
                                assert(false);
                            }
                        }
                        return k;
                    }
                    k = k + 1;
                }
                proof {
                    let j = choose|j: int|
                        0 <= j < self.node(p as int).children@.len() && self.node(
                            p as int,
                        ).children@[j] == c;
                    assert(self.node(p as int).children@[j] != c);
                    assert(false);
                }
                0
            },
            None => {
                proof {
                    assert(false);
                }
                0
            },
        }
    }

    /// Insert a new node with `text` immediately after `node_id` among its
    /// parent's children; the new node becomes the selection and cursor, and
    /// the document is laid out again. Fails with `NotFound` when `node_id`
    /// does not resolve, and with `InvalidOperation` when `node_id` is the
    /// root (the root has no siblings); both failures leave the document
    /// unchanged.
    pub fn add_sibling(&mut self, node_id: usize, text: String) -> (r: Result<usize, MapError>)
        requires
            old(self).wf(),
        ensures
            !old(self).has(node_id as int) ==> r == Result::<usize, MapError>::Err(
                MapError::NotFound,
            ) && *final(self) == *old(self),
            old(self).has(node_id as int) && node_id == 0 ==> r == Result::<usize, MapError>::Err(
                MapError::InvalidOperation,
            ) && *final(self) == *old(self),
            old(self).has(node_id as int) && node_id != 0 ==> {
                let p = old(self).node(node_id as int).parent->Some_0;
                let k = old(self).child_index(p as int, node_id);
                &&& r == Result::<usize, MapError>::Ok(old(self).fresh_id())
                &&& final(self).sview() == old(self).sview().update(
                    p as int,
                    Some(
                        old(self).nstruct(p as int).with_children(
                            old(self).nstruct(p as int).children.insert(
                                k + 1,
                                old(self).fresh_id(),
                            ),
                        ),
                    ),
                ).push(Some(NodeS::leaf(text@, p)))
                &&& final(self).selected == old(self).fresh_id()
                &&& final(self).wf()
                &&& final(self).geom_ok()
            },
    {
        if !self.contains_node(node_id) {
            return Err(MapError::NotFound);
        }
        if node_id == 0 {
            return Err(MapError::InvalidOperation);
        }
        let ghost o = *self;
        let mut p: usize = 0;
        match &self.nodes[node_id] {
            Some(n) => match n.parent {
                Some(pp) => { p = pp; },
                None => {},
            },
            None => {},
        }
        proof {
            assert(self.parent_ok(node_id as int));
        }
        let k = self.child_pos(p, node_id);
        let id = self.nodes.len();
        let node = Node {
            text,
            parent: Some(p),
            children: Vec::new(),
            icons: Vec::new(),
            x: 0,
            y: 0,
            width: 0,
            height: 0,
        };
        self.nodes.push(Some(node));
        match &mut self.nodes[p] {
            Some(pn) => {
                let cl = pn.children.len();
                proof {
                    assert(k < cl);
                }
                pn.children.insert(k + 1, id);
            },
            None => {},
        }
        self.selected = id;
        proof {
            let pi = p as int;
            assert(self.node(pi).children@ == o.node(pi).children@.insert(
                k + 1,
                o.fresh_id(),
            ));
            assert(self.node(id as int).icons@.map_values(|s: String| s@) =~= Seq::<
                Seq<char>,
            >::empty());
            assert(self.sview() =~~= o.sview().update(
                pi,
                Some(
                    o.nstruct(pi).with_children(
                        o.nstruct(pi).children.insert(k + 1, o.fresh_id()),
                    ),
                ),
            ).push(Some(NodeS::leaf(text@, p))));
            self.lemma_grown_wf(o, p, k + 1);
        }
        self.relayout();
        Ok(id)
    }

    /// Append `icon` to the icon list of node `node_id`; the document is
    /// laid out again. Fails with `NotFound`, leaving the document
    /// unchanged, exactly when `node_id` does not resolve.
    pub fn add_icon(&mut self, node_id: usize, icon: String) -> (r: Result<(), MapError>)
        requires
            old(self).wf(),
        ensures
            old(self).has(node_id as int) ==> {
                &&& r == Result::<(), MapError>::Ok(())
                &&& final(self).sview() == old(self).sview().update(
                    node_id as int,
                    Some(
                        old(self).nstruct(node_id as int).with_icons(
                            old(self).nstruct(node_id as int).icons.push(icon@),
                        ),
                    ),
                )
                &&& final(self).selected == old(self).selected
                &&& final(self).wf()
                &&& final(self).geom_ok()
            },
            !old(self).has(node_id as int) ==> r == Result::<(), MapError>::Err(MapError::NotFound)
                && *final(self) == *old(self),
    {
        if !self.contains_node(node_id) {
            return Err(MapError::NotFound);
        }
        let ghost o = *self;
        match &mut self.nodes[node_id] {
            Some(n) => n.icons.push(icon),
            None => {},
        }
        proof {
            assert(self.node(node_id as int).icons@.map_values(|s: String| s@) =~= o.nstruct(
                node_id as int,
            ).icons.push(icon@));
            assert(self.sview() =~~= o.sview().update(
                node_id as int,
                Some(o.nstruct(node_id as int).with_icons(o.nstruct(node_id as int).icons.push(icon@))),
            ));
            assert forall|i: int| #[trigger] MindMap::links_agree(o, *self, i) by {}
            MindMap::lemma_wf_same_links(o, *self);
        }
        self.relayout();
        Ok(())
    }

    /// Remove the last icon of node `node_id`, if it has any; removing from
    /// an empty icon list is a defined no-op, not an error. The document is
    /// laid out again. Fails with `NotFound`, leaving the document
    /// unchanged, exactly when `node_id` does not resolve.
    pub fn remove_last_icon(&mut self, node_id: usize) -> (r: Result<(), MapError>)
        requires
            old(self).wf(),
        ensures
            old(self).has(node_id as int) ==> {
                &&& r == Result::<(), MapError>::Ok(())
                &&& final(self).sview() == old(self).sview().update(
                    node_id as int,
                    Some(
                        old(self).nstruct(node_id as int).with_icons(
                            if old(self).nstruct(node_id as int).icons.len() > 0 {
                                old(self).nstruct(node_id as int).icons.drop_last()
                            } else {
                                old(self).nstruct(node_id as int).icons
                            },
                        ),
                    ),
                )
                &&& final(self).selected == old(self).selected
                &&& final(self).wf()
                &&& final(self).geom_ok()
            },
            !old(self).has(node_id as int) ==> r == Result::<(), MapError>::Err(MapError::NotFound)
                && *final(self) == *old(self),
    {
        if !self.contains_node(node_id) {
            return Err(MapError::NotFound);
        }
        let ghost o = *self;
        match &mut self.nodes[node_id] {
            Some(n) => {
                if n.icons.len() > 0 {
                    n.icons.pop();
                }
            },
            None => {},
        }
        proof {
            assert(self.node(node_id as int).icons@.map_values(|s: String| s@) =~= (
            if o.nstruct(node_id as int).icons.len() > 0 {
                o.nstruct(node_id as int).icons.drop_last()
            } else {
                o.nstruct(node_id as int).icons
            }));
            assert(self.sview() =~~= o.sview().update(
                node_id as int,
                Some(
                    o.nstruct(node_id as int).with_icons(
                        if o.nstruct(node_id as int).icons.len() > 0 {
                            o.nstruct(node_id as int).icons.drop_last()
                        } else {
                            o.nstruct(node_id as int).icons
                        },
                    ),
                ),
            ));
            assert forall|i: int| #[trigger] MindMap::links_agree(o, *self, i) by {}
            MindMap::lemma_wf_same_links(o, *self);
        }
        self.relayout();
        Ok(())
    }

    /// Where the cursor lands when moved in `dir`: tree adjacency from the
    /// selected node, staying put at every boundary.
    pub open spec fn nav_target(self, dir: Navigation) -> usize {
        let s = self.selected;
        let si = s as int;
        match dir {
            Navigation::Parent => match self.node(si).parent {
                Some(p) => p,
                None => s,
            },
            Navigation::FirstChild => if self.node(si).children@.len() > 0 {
                self.node(si).children@[0]
            } else {
                s
            },
            Navigation::PrevSibling => match self.node(si).parent {
                Some(p) => {
                    let k = self.child_index(p as int, s);
                    if k > 0 {
                        self.node(p as int).children@[k - 1]
                    } else {
                        s
                    }
                },
                None => s,
            },
            Navigation::NextSibling => match self.node(si).parent {
                Some(p) => {
                    let k = self.child_index(p as int, s);
                    if k + 1 < self.node(p as int).children@.len() {
                        self.node(p as int).children@[k + 1]
                    } else {
                        s
                    }
                },
                None => s,
            },
        }
    }

    /// Move the cursor (and selection) along tree adjacency. Moving past a
    /// boundary — up from the root, down from a leaf, or sideways past the
    /// first or last sibling — is a no-op, not a failure. No structural
    /// change, so geometry is kept as it is.
    pub fn navigate(&mut self, direction: Navigation)
        requires
            old(self).wf(),
        ensures
            final(self).nodes == old(self).nodes,
            final(self).selected == old(self).nav_target(direction),
            final(self).wf(),
            old(self).geom_ok() ==> final(self).geom_ok(),
    {
        let s = self.selected;
        let mut target: usize = s;
        match direction {
            Navigation::Parent => {
                match &self.nodes[s] {
                    Some(n) => match n.parent {
                        Some(p) => { target = p; },
                        None => {},
                    },
                    None => {},
                }
                proof {
                    if self.node(s as int).parent is Some {
                        assert(self.parent_ok(s as int));
                    }
                }
            },
            Navigation::FirstChild => {
                match &self.nodes[s] {
                    Some(n) => {
                        if n.children.len() > 0 {
                            target = n.children[0];
                        }
                    },
                    None => {},
                }
                proof {
                    if self.node(s as int).children@.len() > 0 {
                        assert(self.child_ok(s as int, 0));
                    }
                }
            },
            Navigation::PrevSibling => {
                let mut p_opt: Option<usize> = None;
                match &self.nodes[s] {
                    Some(n) => { p_opt = n.parent; },
                    None => {},
                }
                match p_opt {
                    Some(p) => {
                        proof {
                            assert(self.parent_ok(s as int));
                        }
                        let k = self.child_pos(p, s);
                        if k > 0 {
                            match &self.nodes[p] {
                                Some(pn) => {
                                    target = pn.children[k - 1];
                                    proof {
                                        assert(self.child_ok(p as int, k - 1));
                                    }
                                },
                                None => {},
                            }
                        }
                    },
                    None => {},
                }
            },
            Navigation::NextSibling => {
                let mut p_opt: Option<usize> = None;
                match &self.nodes[s] {
                    Some(n) => { p_opt = n.parent; },
                    None => {},
                }
                match p_opt {
                    Some(p) => {
                        proof {
                            assert(self.parent_ok(s as int));
                        }
                        let k = self.child_pos(p, s);
                        let mut clen: usize = 0;
                        match &self.nodes[p] {
                            Some(pn) => { clen = pn.children.len(); },
                            None => {},
                        }
                        if k + 1 < clen {
                            match &self.nodes[p] {
                                Some(pn) => {
                                    target = pn.children[k + 1];
                                    proof {
                                        assert(self.child_ok(p as int, k + 1));
                                    }
                                },
                                None => {},
                            }
                        }
                    },
                    None => {},
                }
            },
        }
        let ghost o = *self;
        self.selected = target;
        proof {
            assert(self.has(target as int));
            assert forall|i: int| #[trigger] MindMap::links_agree(o, *self, i) by {}
            MindMap::lemma_wf_same_links(o, *self);
            if old(self).geom_ok() {
                crate::layout::lemma_geom_same_nodes(*old(self), *self);
            }
        }
    }

    /// Whether node `i` lies in the subtree of node `r`: it is `r` itself or
    /// its parent chain passes through `r`.
    pub open spec fn descends(self, i: int, r: int) -> bool
        decreases i,
    {
        if i == r {
            true
        } else if self.has(i) && i != 0 {
            let p = self.node(i).parent->Some_0 as int;
            if 0 <= p < i {
                self.descends(p, r)
            } else {
                false
            }
        } else {
            false
        }
    }

    /// A node in the subtree of `r` has an identifier at least `r`: parent
    /// chains strictly descend.
    pub proof fn lemma_descends_lower(self, i: int, r: int)
        requires
            self.descends(i, r),
        ensures
            r <= i,
        decreases i,
    {
        if i != r {
            let p = self.node(i).parent->Some_0 as int;
            self.lemma_descends_lower(p, r);
        }
    }

    /// Detach node `node_id` together with its entire subtree: the node and
    /// all of its descendants disappear from the identifier index, nothing
    /// else changes except the parent's child list and (if the selection was
    /// inside the removed subtree) the selection, which moves to the removed
    /// node's former parent. The document is laid out again. Fails with
    /// `NotFound` when `node_id` does not resolve and with
    /// `InvalidOperation` when `node_id` is the root (the root can never be
    /// deleted); both failures leave the document unchanged.
    #[verifier::rlimit(100)]
    pub fn remove_node(&mut self, node_id: usize) -> (r: Result<(), MapError>)
        requires
            old(self).wf(),
        ensures
            !old(self).has(node_id as int) ==> r == Result::<(), MapError>::Err(MapError::NotFound)
                && *final(self) == *old(self),
            old(self).has(node_id as int) && node_id == 0 ==> r == Result::<(), MapError>::Err(
                MapError::InvalidOperation,
            ) && *final(self) == *old(self),
            old(self).has(node_id as int) && node_id != 0 ==> {
                let p = old(self).node(node_id as int).parent->Some_0;
                let k = old(self).child_index(p as int, node_id);
                &&& r == Result::<(), MapError>::Ok(())
                &&& final(self).nodes@.len() == old(self).nodes@.len()
                &&& forall|i: int|
                    final(self).has(i) <==> (old(self).has(i) && !old(self).descends(
                        i,
                        node_id as int,
                    ))
                &&& forall|i: int|
                    #[trigger] final(self).has(i) && i != p ==> final(self).sview()[i] == old(
                        self,
                    ).sview()[i]
                &&& final(self).sview()[p as int] == Some(
                    old(self).nstruct(p as int).with_children(
                        old(self).nstruct(p as int).children.remove(k),
                    ),
                )
                &&& final(self).selected == (if old(self).descends(
                    old(self).selected as int,
                    node_id as int,
                ) {
                    p
                } else {
                    old(self).selected
                })
                &&& final(self).wf()
                &&& final(self).geom_ok()
            },
    {
        if !self.contains_node(node_id) {
            return Err(MapError::NotFound);
        }
        if node_id == 0 {
            return Err(MapError::InvalidOperation);
        }
        let ghost o = *self;
        let n = self.nodes.len();
        // The removed node's parent and its position in the parent's list.
        let mut p: usize = 0;
        match &self.nodes[node_id] {
            Some(nd) => match nd.parent {
                Some(pp) => { p = pp; },
                None => {},
            },
            None => {},
        }
        proof {
            assert(self.parent_ok(node_id as int));
        }
        let k = self.child_pos(p, node_id);
        // Mark pass: since every child identifier exceeds its parent's, one
        // forward sweep computes the whole subtree of `node_id`.
        let mut desc: Vec<bool> = Vec::new();
        let mut j: usize = 0;
        while j < n
            invariant
                self.nodes@ == o.nodes@,
                o.wf(),
                o.has(node_id as int),
                node_id != 0,
                n == o.nodes@.len(),
                j <= n,
                desc@.len() == j,
                forall|jj: int| 0 <= jj < j ==> desc@[jj] == o.descends(jj, node_id as int),
            decreases n - j,
        {
            let mut v = false;
            if j == node_id {
                v = true;
            } else {
                match &self.nodes[j] {
                    Some(nd) => match nd.parent {
                        Some(pp) => {
                            proof {
                                assert(o.has(j as int));
                                assert(j != 0);
                                assert(o.parent_ok(j as int));
                            }
                            v = desc[pp];
                        },
                        None => {},
                    },
                    None => {},
                }
            }
            proof {
                assert(v == o.descends(j as int, node_id as int));
            }
            desc.push(v);
            j = j + 1;
        }
        // Sweep pass: clear every marked slot.
        let mut j: usize = 0;
        while j < n
            invariant
                o.wf(),
                n == o.nodes@.len(),
                self.nodes@.len() == n,
                self.selected == o.selected,
                j <= n,
                desc@.len() == n,
                forall|jj: int| 0 <= jj < n ==> desc@[jj] == o.descends(jj, node_id as int),
                forall|jj: int|
                    #![trigger self.nodes@[jj]]
                    0 <= jj < j && o.descends(jj, node_id as int) ==> self.nodes@[jj] is None,
                forall|jj: int|
                    #![trigger self.nodes@[jj]]
                    0 <= jj < n && !(jj < j && o.descends(jj, node_id as int)) ==> self.nodes@[jj]
                        == o.nodes@[jj],
            decreases n - j,
        {
            let ghost before = self.nodes@;
            if desc[j] {
                let slot = &mut self.nodes[j];
                *slot = None;
            }
            proof {
                assert(desc@[j as int] == o.descends(j as int, node_id as int));
                assert forall|jj: int|
                    0 <= jj < j + 1 && o.descends(jj, node_id as int) implies self.nodes@[jj]
                    is None by {
                    if jj != j {
                        assert(self.nodes@[jj] == before[jj]);
                        assert(before[jj] is None);
                    }
                }
                assert forall|jj: int|
                    0 <= jj < n && !(jj < j + 1 && o.descends(jj, node_id as int)) implies
                    self.nodes@[jj] == o.nodes@[jj] by {
                    assert(self.nodes@[jj] == before[jj]);
                    assert(before[jj] == o.nodes@[jj]);
                }
            }
            j = j + 1;
        }
        // Detach the removed subtree from its former parent.
        proof {
            if o.descends(p as int, node_id as int) {
                o.lemma_descends_lower(p as int, node_id as int);
            }
            assert(self.nodes@[p as int] == o.nodes@[p as int]);
        }
        match &mut self.nodes[p] {
            Some(pn) => {
                let cl = pn.children.len();
                proof {
                    assert(k < cl);
                }
                pn.children.remove(k);
            },
            None => {},
        }
        // The selection moves to the former parent if it was removed.
        if desc[self.selected] {
            self.selected = p;
        }
        proof {
            self.lemma_removed_wf(o, node_id, p, k as int);
            assert forall|i: int| #[trigger] self.has(i) && i != p implies self.sview()[i]
                == o.sview()[i] by {
                assert(o.has(i) && !o.descends(i, node_id as int));
                assert(self.nodes@[i] == o.nodes@[i]);
            }
            assert(self.sview()[p as int] == Some(
                o.nstruct(p as int).with_children(o.nstruct(p as int).children.remove(k as int)),
            )) by {
                assert(self.node(p as int).icons == o.node(p as int).icons);
                assert(self.nstruct(p as int) =~= o.nstruct(p as int).with_children(
                    o.nstruct(p as int).children.remove(k as int),
                ));
            }
        }
        let ghost pre = *self;
        self.relayout();
        proof {
            assert(self.sview().len() == self.nodes@.len());
            assert(pre.sview().len() == pre.nodes@.len());
            assert forall|i: int| self.has(i) == pre.has(i) by {
                if 0 <= i < self.nodes@.len() {
                    assert(self.sview()[i] == pre.sview()[i]);
                }
            }
        }
        Ok(())
    }

    /// After the subtree of `id` was swept from the arena and `id` removed
    /// from its former parent's child list, the document is well formed and
    /// holds exactly the nodes outside that subtree. `self` is the swept
    /// document, `o` the one before the mutation.
    proof fn lemma_removed_wf(self, o: MindMap, id: usize, p: usize, k: int)
        requires
            o.wf(),
            o.has(id as int),
            id != 0,
            o.node(id as int).parent == Some(p),
            0 <= k < o.node(p as int).children@.len(),
            o.node(p as int).children@[k] == id,
            self.nodes@.len() == o.nodes@.len(),
            forall|j: int|
                0 <= j < o.nodes@.len() && j != p && o.descends(j, id as int) ==> self.nodes@[j]
                    is None,
            forall|j: int|
                0 <= j < o.nodes@.len() && j != p && !o.descends(j, id as int) ==> self.nodes@[j]
                    == o.nodes@[j],
            self.has(p as int),
            self.node(p as int).parent == o.node(p as int).parent,
            self.node(p as int).children@ == o.node(p as int).children@.remove(k),
            self.selected == (if o.descends(o.selected as int, id as int) {
                p
            } else {
                o.selected
            }),
        ensures
            self.wf(),
            forall|i: int| self.has(i) <==> (o.has(i) && !o.descends(i, id as int)),
    {
        vstd::std_specs::vec::axiom_spec_len(&o.nodes);
        vstd::std_specs::vec::axiom_spec_len(&self.nodes);
        let idi = id as int;
        let pi = p as int;
        assert(o.parent_ok(idi));
        assert(pi < idi);
        if o.descends(pi, idi) {
            o.lemma_descends_lower(pi, idi);
        }
        assert(!o.descends(pi, idi));
        assert forall|i: int| self.has(i) <==> (o.has(i) && !o.descends(i, idi)) by {
            if i != pi && 0 <= i < o.nodes@.len() {
                if o.descends(i, idi) {
                    assert(self.nodes@[i] is None);
                } else {
                    assert(self.nodes@[i] == o.nodes@[i]);
                }
            }
        }
        // The root survives: anything in the removed subtree has an
        // identifier of at least `id`, which is positive.
        if o.descends(0, idi) {
            o.lemma_descends_lower(0, idi);
        }
        assert(self.has(0));
        assert(self.node(0).parent is None);
        assert forall|i: int| #[trigger] self.has(i) && i != 0 implies self.parent_ok(i) by {
            assert(o.has(i) && !o.descends(i, idi));
            assert(o.parent_ok(i));
            let pri = o.node(i).parent->Some_0 as int;
            // The parent survives too: otherwise `i` would be in the subtree.
            assert(!o.descends(pri, idi));
            assert(self.node(i).parent == o.node(i).parent);
            if pri == pi {
                assert(i != idi);
                lemma_remove_keeps(o.node(pi).children@, k, i as usize);
            } else {
                assert(self.nodes@[pri] == o.nodes@[pri]);
            }
        }
        assert forall|i: int, kk: int|
            self.has(i) && 0 <= kk < self.node(i).children@.len() implies #[trigger] self.child_ok(
            i,
            kk,
        ) by {
            assert(o.has(i) && !o.descends(i, idi));
            let okk = if i == pi && kk >= k {
                kk + 1
            } else {
                kk
            };
            assert(o.child_ok(i, okk));
            let c = o.node(i).children@[okk] as int;
            assert(self.node(i).children@[kk] == o.node(i).children@[okk]);
            // The child survives: it is not the removed node (that one was
            // cut out of the parent's list) and its parent `i` survives.
            if c == idi {
                assert(i == pi);
                assert(o.node(i).children@[okk] != id);
                assert(false);
            }
            assert(!o.descends(c, idi));
            if c != pi {
                assert(self.nodes@[c] == o.nodes@[c]);
            }
        }
        assert forall|i: int, k1: int, k2: int|
            #![trigger self.node(i).children@[k1], self.node(i).children@[k2]]
            self.has(i) && 0 <= k1 < self.node(i).children@.len() && 0 <= k2 < self.node(
                i,
            ).children@.len() && k1 != k2 implies self.node(i).children@[k1] != self.node(
                i,
            ).children@[k2] by {
            assert(o.has(i));
            let ok1 = if i == pi && k1 >= k {
                k1 + 1
            } else {
                k1
            };
            let ok2 = if i == pi && k2 >= k {
                k2 + 1
            } else {
                k2
            };
            assert(self.node(i).children@[k1] == o.node(i).children@[ok1]);
            assert(self.node(i).children@[k2] == o.node(i).children@[ok2]);
            assert(o.node(i).children@[ok1] != o.node(i).children@[ok2]);
        }
        assert(self.has(self.selected as int));
    }

    /// The root is always present: well-formedness guarantees a live node
    /// in slot 0, and every operation of the model ensures well-formedness
    /// of the document it leaves behind, so no sequence of operations can
    /// ever remove the root.
    pub proof fn lemma_root_always_present(self)
        requires
            self.wf(),
        ensures
            self.has(0),
    {
    }

    /// The child identifiers of node `id`, in order.
    pub fn node_children(&self, id: usize) -> (r: Result<Vec<usize>, MapError>)
        ensures
            self.has(id as int) ==> (r matches Ok(c) && c@ == self.nstruct(id as int).children),
            !self.has(id as int) ==> r == Result::<Vec<usize>, MapError>::Err(MapError::NotFound),
    {
        if id < self.nodes.len() {
            match &self.nodes[id] {
                Some(n) => {
                    let c = n.children.clone();
                    proof {
                        assert(c@ =~= n.children@);
                    }
                    Ok(c)
                },
                None => Err(MapError::NotFound),
            }
        } else {
            Err(MapError::NotFound)
        }
    }

    /// The icon tags of node `id`, in order.
    pub fn node_icons(&self, id: usize) -> (r: Result<Vec<String>, MapError>)
        ensures
            self.has(id as int) ==> (r matches Ok(c) && c@.map_values(|s: String| s@)
                == self.nstruct(id as int).icons),
            !self.has(id as int) ==> r == Result::<Vec<String>, MapError>::Err(MapError::NotFound),
    {
        if id < self.nodes.len() {
            match &self.nodes[id] {
                Some(n) => {
                    let c = n.icons.clone();
                    proof {
                        assert forall|j: int| 0 <= j < c@.len() implies c@[j]@ == n.icons@[j]@ by {
                            assert(vstd::prelude::cloned::<String>(n.icons@[j], c@[j]));
                        }
                        assert(c@.map_values(|s: String| s@) =~= n.icons@.map_values(
                            |s: String| s@,
                        ));
                    }
                    Ok(c)
                },
                None => Err(MapError::NotFound),
            }
        } else {
            Err(MapError::NotFound)
        }
    }

    /// The parent identifier of node `id` (`None` for the root).
    pub fn node_parent(&self, id: usize) -> (r: Result<Option<usize>, MapError>)
        ensures
            self.has(id as int) ==> r == Result::<Option<usize>, MapError>::Ok(
                self.nstruct(id as int).parent,
            ),
            !self.has(id as int) ==> r == Result::<Option<usize>, MapError>::Err(
                MapError::NotFound,
            ),
    {
        if id < self.nodes.len() {
            match &self.nodes[id] {
                Some(n) => Ok(n.parent),
                None => Err(MapError::NotFound),
            }
        } else {
            Err(MapError::NotFound)
        }
    }

    /// The derived geometry of node `id`: column, row, width and height in
    /// grid units.
    pub fn node_geometry(&self, id: usize) -> (r: Result<(usize, usize, usize, usize), MapError>)
        ensures
            self.has(id as int) ==> r == Result::<(usize, usize, usize, usize), MapError>::Ok(
                (
                    self.node(id as int).x,
                    self.node(id as int).y,
                    self.node(id as int).width,
                    self.node(id as int).height,
                ),
            ),
            !self.has(id as int) ==> r == Result::<(usize, usize, usize, usize), MapError>::Err(
                MapError::NotFound,
            ),
    {
        if id < self.nodes.len() {
            match &self.nodes[id] {
                Some(n) => Ok((n.x, n.y, n.width, n.height)),
                None => Err(MapError::NotFound),
            }
        } else {
            Err(MapError::NotFound)
        }
    }

    /// Whether identifier `id` resolves to a live node of this document.
    pub fn contains_node(&self, id: usize) -> (r: bool)
        ensures
            r == self.has(id as int),
    {
        id < self.nodes.len() && self.nodes[id].is_some()
    }

    /// The identifier of the root node.
    pub fn root_id(&self) -> (r: usize)
        ensures
            r == 0,
    {
        ROOT_ID
    }

    /// The identifier of the currently selected node (also the cursor).
    pub fn selected_id(&self) -> (r: usize)
        ensures
            r == self.selected,
    {
        self.selected
    }

    /// The text of node `id`.
    pub fn node_text(&self, id: usize) -> (r: Result<&String, MapError>)
        ensures
            self.has(id as int) ==> (r matches Ok(t) && t@ == self.nstruct(id as int).text),
            !self.has(id as int) ==> r == Result::<&String, MapError>::Err(MapError::NotFound),
    {
        if id < self.nodes.len() {
            match &self.nodes[id] {
                Some(n) => Ok(&n.text),
                None => Err(MapError::NotFound),
            }
        } else {
            Err(MapError::NotFound)
        }
    }
}

} // verus!
