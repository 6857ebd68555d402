//! The node store: a mutable in-memory tree for structured markup documents.
//!
//! Nodes live in an arena owned by [`Dom`] and are addressed by stable integer
//! [`Handle`]s.  Parent/child links are kept mutually consistent by every
//! operation, adjacent text siblings are coalesced at insertion time, and
//! edits that would make a node a descendant of itself are refused.

use vstd::prelude::*;

use crate::DomError;

verus! {

/// A qualified element name: a namespace url paired with a local name.
#[derive(Clone, Debug)]
pub struct QualName {
    pub ns: String,
    pub local: String,
}

/// One attribute of an element: a name and a value.
#[derive(Clone, Debug)]
pub struct Attr {
    pub name: String,
    pub value: String,
}

/// Flags consulted when an element is created.
#[derive(Clone, Copy, Debug)]
pub struct ElementFlags {
    pub template: bool,
    pub mathml_annotation_xml_integration_point: bool,
}

/// The quirks mode of a whole document.
#[derive(Clone, Copy, PartialEq, Eq, Structural, Debug)]
pub enum QuirksMode {
    NoQuirks,
    LimitedQuirks,
    Quirks,
}

/// A shared reference to a node of a [`Dom`]: a stable index into its arena.
#[derive(Clone, Copy, PartialEq, Eq, Structural, Debug)]
pub struct Handle {
    pub idx: usize,
}

/// The different kinds of nodes in the tree.
#[derive(Debug)]
pub enum NodeData {
    /// The document itself: the root node, never a child.
    Document,
    /// A doctype declaration with name, public id and system id.
    Doctype { name: String, public_id: String, system_id: String },
    /// A text node with a mutable content buffer.
    Text { contents: String },
    /// A comment.
    Comment { contents: String },
    /// An element with an ordered attribute list and, for template-like
    /// elements, a nested document holding the template contents.
    Element {
        name: QualName,
        attrs: Vec<Attr>,
        template_contents: Option<Handle>,
        mathml_annotation_xml_integration_point: bool,
    },
    /// A processing instruction.
    ProcessingInstruction { target: String, contents: String },
}

/// One node of the arena: its payload, its parent back-reference and its
/// ordered child list.
#[derive(Debug)]
pub struct Node {
    pub data: NodeData,
    pub parent: Option<Handle>,
    pub children: Vec<Handle>,
}

/// Either an existing node or a run of text, as handed to the sink
/// operations by a tree-construction algorithm.
#[derive(Debug)]
pub enum NodeOrText {
    AppendNode(Handle),
    AppendText(String),
}

/// The tree itself: an arena of nodes, the accumulated parse diagnostics and
/// the document's quirks mode.  Slot 0 always holds the document root.
#[derive(Debug)]
pub struct Dom {
    nodes: Vec<Node>,
    errors: Vec<String>,
    quirks_mode: QuirksMode,
}

// ---------------------------------------------------------------------------
// Mathematical views
// ---------------------------------------------------------------------------

#[verifier::ext_equal]
pub struct QualNameView {
    pub ns: Seq<char>,
    pub local: Seq<char>,
}

#[verifier::ext_equal]
pub struct AttrView {
    pub name: Seq<char>,
    pub value: Seq<char>,
}

#[verifier::ext_equal]
pub enum DataView {
    Document,
    Doctype { name: Seq<char>, public_id: Seq<char>, system_id: Seq<char> },
    Text { contents: Seq<char> },
    Comment { contents: Seq<char> },
    Element {
        name: QualNameView,
        attrs: Seq<AttrView>,
        template_contents: Option<int>,
        mathml_annotation_xml_integration_point: bool,
    },
    ProcessingInstruction { target: Seq<char>, contents: Seq<char> },
}

#[verifier::ext_equal]
pub struct NodeView {
    pub data: DataView,
    pub parent: Option<int>,
    pub children: Seq<int>,
}

#[verifier::ext_equal]
pub struct DomView {
    pub nodes: Seq<NodeView>,
    pub errors: Seq<Seq<char>>,
    pub quirks_mode: QuirksMode,
}

impl View for QualName {
    type V = QualNameView;

    open spec fn view(&self) -> QualNameView {
        (QualNameView { ns: self.ns@, local: self.local@ })
    }
}

impl View for Attr {
    type V = AttrView;

    open spec fn view(&self) -> AttrView {
        (AttrView { name: self.name@, value: self.value@ })
    }
}

impl View for NodeData {
    type V = DataView;

    open spec fn view(&self) -> DataView {
        match self {
            NodeData::Document => DataView::Document,
            NodeData::Doctype { name, public_id, system_id } => (DataView::Doctype {
                name: name@,
                public_id: public_id@,
                system_id: system_id@,
            }),
            NodeData::Text { contents } => (DataView::Text { contents: contents@ }),
            NodeData::Comment { contents } => (DataView::Comment { contents: contents@ }),
            NodeData::Element { name, attrs, template_contents, mathml_annotation_xml_integration_point } => (DataView::Element {
                name: name@,
                attrs: attrs@.map_values(|a: Attr| a@),
                template_contents: match template_contents {
                    Some(h) => Some(h.idx as int),
                    None => None,
                },
                mathml_annotation_xml_integration_point: *mathml_annotation_xml_integration_point,
            }),
            NodeData::ProcessingInstruction { target, contents } => (DataView::ProcessingInstruction {
                target: target@,
                contents: contents@,
            }),
        }
    }
}

impl View for Node {
    type V = NodeView;

    open spec fn view(&self) -> NodeView {
        (NodeView {
            data: self.data@,
            parent: match self.parent {
                Some(h) => Some(h.idx as int),
                None => None,
            },
            children: self.children@.map_values(|h: Handle| h.idx as int),
        })
    }
}

impl View for Dom {
    type V = DomView;

    closed spec fn view(&self) -> DomView {
        (DomView {
            nodes: self.nodes@.map_values(|n: Node| n@),
            errors: self.errors@.map_values(|s: String| s@),
            quirks_mode: self.quirks_mode,
        })
    }
}

// ---------------------------------------------------------------------------
// Well-formedness
// ---------------------------------------------------------------------------

/// Is `i` the index of a node of `d`?
pub open spec fn valid_id(d: DomView, i: int) -> bool {
    0 <= i < d.nodes.len()
}

/// Is node `c` a text node of `d`?
pub open spec fn is_text(d: DomView, c: int) -> bool {
    valid_id(d, c) && d.nodes[c].data is Text
}

/// Every child entry names a node of the tree whose back-reference points at
/// the parent whose list it sits in.
pub open spec fn wf_links(d: DomView) -> bool {
    forall|i: int, k: int|
        0 <= i < d.nodes.len() && 0 <= k < d.nodes[i].children.len() ==> {
            let c = #[trigger] d.nodes[i].children[k];
            valid_id(d, c) && d.nodes[c].parent == Some(i)
        }
}

/// No child list mentions the same node twice.
pub open spec fn wf_distinct(d: DomView) -> bool {
    forall|i: int, k1: int, k2: int|
        0 <= i < d.nodes.len() && 0 <= k1 < k2 < d.nodes[i].children.len()
            ==> #[trigger] d.nodes[i].children[k1] != #[trigger] d.nodes[i].children[k2]
}

/// A node with a parent appears in that parent's child list.
pub open spec fn wf_parent(d: DomView) -> bool {
    forall|i: int|
        0 <= i < d.nodes.len() && (#[trigger] d.nodes[i].parent) is Some ==> {
            let p = d.nodes[i].parent->0;
            valid_id(d, p) && d.nodes[p].children.contains(i)
        }
}

/// No node is its own parent.
pub open spec fn wf_self(d: DomView) -> bool {
    forall|i: int| 0 <= i < d.nodes.len() ==> (#[trigger] d.nodes[i].parent) != Some(i)
}

/// Slot 0 holds the document root, and no document node is ever a child.
pub open spec fn wf_document(d: DomView) -> bool {
    &&& d.nodes.len() >= 1
    &&& d.nodes[0].data is Document
    &&& forall|i: int|
        0 <= i < d.nodes.len() && (#[trigger] d.nodes[i].data) is Document
            ==> d.nodes[i].parent is None
}

/// No two adjacent children of the same parent are both text nodes.  This is
/// the coalescing invariant: the inserting operations enforce it at insertion
/// time, while detaching a node may transiently break it for the nodes that
/// used to surround the detached one.
pub open spec fn text_coalesced(d: DomView) -> bool {
    forall|i: int, k: int|
        0 <= i < d.nodes.len() && 0 <= k && k + 1 < d.nodes[i].children.len() ==> !(is_text(
            d,
            #[trigger] d.nodes[i].children[k],
        ) && is_text(d, d.nodes[i].children[k + 1]))
}

/// Template contents handles point at document nodes of the tree.
pub open spec fn wf_template(d: DomView) -> bool {
    forall|i: int|
        0 <= i < d.nodes.len() ==> ((#[trigger] d.nodes[i].data) matches DataView::Element {
            template_contents: Some(t),
            ..
        } ==> valid_id(d, t) && d.nodes[t].data is Document)
}

/// The structural invariant of the tree, maintained by every operation.
pub open spec fn wf(d: DomView) -> bool {
    &&& wf_links(d)
    &&& wf_distinct(d)
    &&& wf_parent(d)
    &&& wf_self(d)
    &&& wf_document(d)
    &&& wf_template(d)
}

impl Dom {
    /// The invariant as a method, for use in contracts.
    pub open spec fn wf(&self) -> bool {
        wf(self@)
    }

    /// The coalescing invariant as a method, for use in contracts.
    pub open spec fn coalesced(&self) -> bool {
        text_coalesced(self@)
    }

    /// Is `h` a handle of this tree?
    pub open spec fn spec_valid(&self, h: Handle) -> bool {
        valid_id(self@, h.idx as int)
    }

    /// A fresh tree holding only its document root.
    pub fn new() -> (d: Dom)
        ensures
            d.wf(),
            d.coalesced(),
            d@.nodes.len() == 1,
            d@.nodes[0].data is Document,
            d@.nodes[0].children.len() == 0,
            d@.errors.len() == 0,
            d@.quirks_mode == QuirksMode::NoQuirks,
    {
        let mut nodes: Vec<Node> = Vec::new();
        nodes.push(Node { data: NodeData::Document, parent: None, children: Vec::new() });
        let d = Dom { nodes, errors: Vec::new(), quirks_mode: QuirksMode::NoQuirks };
        proof {
            assert(d@.nodes =~= seq![d.nodes@[0]@]);
        }
        d
    }

    /// The number of nodes the arena holds.
    pub fn len(&self) -> (n: usize)
        ensures
            n == self@.nodes.len(),
    {
        self.nodes.len()
    }

    /// Runtime counterpart of [`Dom::spec_valid`].
    pub fn is_valid(&self, h: Handle) -> (r: bool)
        ensures
            r == self.spec_valid(h),
    {
        h.idx < self.nodes.len()
    }

    /// A handle to the document root.
    pub fn get_document(&self) -> (h: Handle)
        requires
            self.wf(),
        ensures
            h.idx == 0,
            self.spec_valid(h),
    {
        Handle { idx: 0 }
    }

    /// Identity, not structural, equality of nodes.
    pub fn same_node(&self, a: Handle, b: Handle) -> (r: bool)
        ensures
            r == (a.idx == b.idx),
    {
        a.idx == b.idx
    }

    /// The payload of a node.
    pub fn data(&self, h: Handle) -> (r: &NodeData)
        requires
            self.spec_valid(h),
        ensures
            r@ == self@.nodes[h.idx as int].data,
    {
        &self.nodes[h.idx].data
    }

    /// The parent back-reference of a node.
    pub fn parent(&self, h: Handle) -> (r: Option<Handle>)
        requires
            self.spec_valid(h),
        ensures
            match r {
                Some(p) => self@.nodes[h.idx as int].parent == Some(p.idx as int),
                None => self@.nodes[h.idx as int].parent is None,
            },
    {
        self.nodes[h.idx].parent
    }

    /// How many children a node has.
    pub fn child_count(&self, h: Handle) -> (n: usize)
        requires
            self.spec_valid(h),
        ensures
            n == self@.nodes[h.idx as int].children.len(),
    {
        self.nodes[h.idx].children.len()
    }

    /// The `k`-th child of a node.
    pub fn child_at(&self, h: Handle, k: usize) -> (c: Handle)
        requires
            self.spec_valid(h),
            k < self@.nodes[h.idx as int].children.len(),
        ensures
            c.idx as int == self@.nodes[h.idx as int].children[k as int],
            self.wf() ==> self.spec_valid(c),
    {
        let c = self.nodes[h.idx].children[k];
        proof {
            if self.wf() {
                assert(valid_id(self@, self@.nodes[h.idx as int].children[k as int]));
            }
        }
        c
    }

    /// The accumulated parse diagnostics, in arrival order.
    pub fn errors(&self) -> (r: &Vec<String>)
        ensures
            r@.map_values(|s: String| s@) == self@.errors,
    {
        &self.errors
    }

    /// The document's quirks mode.
    pub fn quirks_mode(&self) -> (m: QuirksMode)
        ensures
            m == self@.quirks_mode,
    {
        self.quirks_mode
    }

    /// Record a malformed-markup diagnostic; never interrupts construction.
    pub fn parse_error(&mut self, msg: String)
        ensures
            final(self)@ == (DomView { errors: old(self)@.errors.push(msg@), ..old(self)@ }),
            old(self).wf() ==> final(self).wf(),
    {
        self.errors.push(msg);
        proof {
            assert(final(self)@.nodes =~= old(self)@.nodes);
            assert(final(self)@.errors =~= old(self)@.errors.push(msg@));
        }
    }

    /// Set the document's quirks mode; settable repeatedly, last write wins.
    pub fn set_quirks_mode(&mut self, mode: QuirksMode)
        ensures
            final(self)@ == (DomView { quirks_mode: mode, ..old(self)@ }),
            old(self).wf() ==> final(self).wf(),
    {
        self.quirks_mode = mode;
        proof {
            assert(final(self)@.nodes =~= old(self)@.nodes);
            assert(final(self)@.errors =~= old(self)@.errors);
        }
    }
}

// ---------------------------------------------------------------------------
// Models of the mutating operations
// ---------------------------------------------------------------------------

/// The contents of a text node.
pub open spec fn text_contents(dv: DataView) -> Seq<char> {
    match dv {
        DataView::Text { contents } => contents,
        _ => arbitrary(),
    }
}

/// The walk that guards reparenting edits: follow parent back-references
/// upward from `from` for at most `fuel` steps; the edit is refused when the
/// walk meets `target` or runs out of fuel before reaching a root.  A chain
/// longer than the node count must revisit a node, so on a well-formed
/// acyclic tree the fuel `d.nodes.len()` never runs out.
pub open spec fn ancestor_blocked(d: DomView, from: int, target: int, fuel: nat) -> bool
    decreases fuel,
{
    if from == target {
        true
    } else {
        match d.nodes[from].parent {
            None => false,
            Some(p) => if fuel == 0 {
                true
            } else {
                ancestor_blocked(d, p, target, (fuel - 1) as nat)
            },
        }
    }
}

/// Replace only the data of node `t` by appending `s` to its text contents.
pub open spec fn append_text_onto(d: DomView, t: int, s: Seq<char>) -> DomView {
    (DomView {
        nodes: d.nodes.update(
            t,
            (NodeView {
                data: (DataView::Text { contents: text_contents(d.nodes[t].data) + s }),
                ..d.nodes[t]
            }),
        ),
        ..d
    })
}

/// Would appending `c` under `p` coalesce into `p`'s current last child?
pub open spec fn appends_coalesce(d: DomView, p: int, c: int) -> bool {
    &&& d.nodes[c].data is Text
    &&& d.nodes[p].children.len() > 0
    &&& is_text(d, d.nodes[p].children.last())
}

/// The error `append_child` reports, if any: the first of already-parented,
/// document-as-child and would-cycle that applies.
pub open spec fn append_child_err(d: DomView, p: int, c: int) -> Option<DomError> {
    if d.nodes[c].parent is Some {
        Some(DomError::AlreadyParented)
    } else if d.nodes[c].data is Document {
        Some(DomError::DocumentAsChild)
    } else if ancestor_blocked(d, p, c, d.nodes.len() as nat) {
        Some(DomError::WouldCycle)
    } else {
        None
    }
}

/// What a successful `append_child` does: merge text into the last child when
/// both are text nodes, otherwise set the back-reference and push.
pub open spec fn append_child_ok(d: DomView, p: int, c: int) -> DomView {
    if appends_coalesce(d, p, c) {
        append_text_onto(d, d.nodes[p].children.last(), text_contents(d.nodes[c].data))
    } else {
        let n1 = d.nodes.update(c, (NodeView { parent: Some(p), ..d.nodes[c] }));
        (DomView {
            nodes: n1.update(p, (NodeView { children: n1[p].children.push(c), ..n1[p] })),
            ..d
        })
    }
}

/// What `detach` does: remove the node from its parent's child list and clear
/// its back-reference; the identity on a parentless node.
pub open spec fn detach_m(d: DomView, n: int) -> DomView {
    match d.nodes[n].parent {
        None => d,
        Some(p) => {
            let k = d.nodes[p].children.index_of(n);
            let n1 = d.nodes.update(
                p,
                (NodeView { children: d.nodes[p].children.remove(k), ..d.nodes[p] }),
            );
            (DomView { nodes: n1.update(n, (NodeView { parent: None, ..n1[n] })), ..d })
        },
    }
}

/// What `new_node` does: grow the arena by one parentless, childless node.
pub open spec fn new_node_m(d: DomView, data: DataView) -> DomView {
    (DomView {
        nodes: d.nodes.push((NodeView { data, parent: None, children: Seq::empty() })),
        ..d
    })
}

/// A node payload is admissible for this tree: a template-contents handle
/// must name a document node of the tree.
pub open spec fn data_ok(d: DomView, dv: DataView) -> bool {
    match dv {
        DataView::Element { template_contents: Some(t), .. } => valid_id(d, t) && d.nodes[t].data
            is Document,
        _ => true,
    }
}

// ---------------------------------------------------------------------------
// Invariant preservation (the heart of the library's laws)
// ---------------------------------------------------------------------------

/// Appending a child preserves the structural invariant, and preserves the
/// coalescing invariant: after any accepted `append_child`, every child's
/// back-reference points to its true parent and no two adjacent children are
/// both text nodes.
pub proof fn lemma_append_child_preserves_invariants(d: DomView, p: int, c: int)
    requires
        wf(d),
        valid_id(d, p),
        valid_id(d, c),
        append_child_err(d, p, c) is None,
    ensures
        wf(append_child_ok(d, p, c)),
        text_coalesced(d) ==> text_coalesced(append_child_ok(d, p, c)),
{
    let d2 = append_child_ok(d, p, c);
    assert(p != c);
    if appends_coalesce(d, p, c) {
        let t = d.nodes[p].children.last();
        assert(valid_id(d, t));
        assert(d2.nodes.len() == d.nodes.len());
        assert(forall|j: int| 0 <= j < d.nodes.len() && j != t ==> d2.nodes[j] == d.nodes[j]);
        assert(d2.nodes[t].parent == d.nodes[t].parent);
        assert(d2.nodes[t].children == d.nodes[t].children);
        assert(d2.nodes[t].data is Text);
        assert(wf_links(d2));
        assert(wf_distinct(d2));
        assert(wf_parent(d2));
        assert(wf_self(d2));
        assert(wf_document(d2));
        assert(wf_template(d2));
        if text_coalesced(d) {
            assert forall|i: int, k: int|
                0 <= i < d2.nodes.len() && 0 <= k && k + 1 < d2.nodes[i].children.len()
                    implies !(is_text(d2, #[trigger] d2.nodes[i].children[k]) && is_text(
                d2,
                d2.nodes[i].children[k + 1],
            )) by {
                assert(d2.nodes[i].children == d.nodes[i].children);
                assert(forall|x: int| #[trigger] is_text(d2, x) == is_text(d, x));
            }
        }
    } else {
        // c was parentless, so no child list mentions it.
        assert forall|i: int, k: int|
            0 <= i < d.nodes.len() && 0 <= k < d.nodes[i].children.len() implies #[trigger] d.nodes[i].children[k]
            != c by {
            if d.nodes[i].children[k] == c {
                assert(d.nodes[c].parent == Some(i));
            }
        }
        assert(d2.nodes.len() == d.nodes.len());
        assert(forall|j: int|
            0 <= j < d.nodes.len() && j != c && j != p ==> d2.nodes[j] == d.nodes[j]);
        assert(d2.nodes[c].parent == Some(p));
        assert(d2.nodes[c].children == d.nodes[c].children);
        assert(d2.nodes[c].data == d.nodes[c].data);
        assert(d2.nodes[p].children == d.nodes[p].children.push(c));
        assert(d2.nodes[p].parent == d.nodes[p].parent);
        assert(d2.nodes[p].data == d.nodes[p].data);
        assert forall|i: int, k: int|
            0 <= i < d2.nodes.len() && 0 <= k < d2.nodes[i].children.len() implies {
            let x = #[trigger] d2.nodes[i].children[k];
            valid_id(d2, x) && d2.nodes[x].parent == Some(i)
        } by {
            if i == p && k == d.nodes[p].children.len() {
                assert(d2.nodes[i].children[k] == c);
            } else {
                assert(d2.nodes[i].children[k] == d.nodes[i].children[k]);
                assert(d.nodes[i].children[k] != c);
            }
        }
        assert(wf_links(d2));
        assert forall|i: int, k1: int, k2: int|
            0 <= i < d2.nodes.len() && 0 <= k1 < k2 < d2.nodes[i].children.len() implies #[trigger] d2.nodes[i].children[k1]
            != #[trigger] d2.nodes[i].children[k2] by {
            if i == p {
                if k2 == d.nodes[p].children.len() {
                    assert(d2.nodes[i].children[k1] == d.nodes[p].children[k1]);
                    assert(d.nodes[p].children[k1] != c);
                }
            }
        }
        assert(wf_distinct(d2));
        assert forall|i: int|
            0 <= i < d2.nodes.len() && (#[trigger] d2.nodes[i].parent) is Some implies {
            let q = d2.nodes[i].parent->0;
            valid_id(d2, q) && d2.nodes[q].children.contains(i)
        } by {
            let q = d2.nodes[i].parent->0;
            if i == c {
                assert(d2.nodes[p].children.last() == c);
                assert(d2.nodes[p].children.contains(c));
            } else {
                assert(d.nodes[i].parent == d2.nodes[i].parent);
                assert(d.nodes[q].children.contains(i));
                let k = choose|k: int| 0 <= k < d.nodes[q].children.len() && d.nodes[q].children[k] == i;
                if q == p {
                    assert(d2.nodes[q].children[k] == i);
                } else {
                    assert(d2.nodes[q].children[k] == i);
                }
                assert(d2.nodes[q].children.contains(i));
            }
        }
        assert(wf_parent(d2));
        assert(wf_self(d2));
        assert(wf_document(d2));
        assert(wf_template(d2));
        if text_coalesced(d) {
            assert forall|i: int, k: int|
                0 <= i < d2.nodes.len() && 0 <= k && k + 1 < d2.nodes[i].children.len()
                    implies !(is_text(d2, #[trigger] d2.nodes[i].children[k]) && is_text(
                d2,
                d2.nodes[i].children[k + 1],
            )) by {
                assert(forall|x: int| #[trigger] is_text(d2, x) == is_text(d, x));
                if i == p && k + 1 == d.nodes[p].children.len() {
                    assert(d2.nodes[i].children[k + 1] == c);
                    assert(d2.nodes[i].children[k] == d.nodes[p].children[k]);
                    assert(!appends_coalesce(d, p, c));
                    if is_text(d, c) {
                        assert(d.nodes[p].children.last() == d.nodes[p].children[k]);
                        assert(!is_text(d, d.nodes[p].children[k]));
                    }
                } else {
                    assert(d2.nodes[i].children[k] == d.nodes[i].children[k]);
                    assert(d2.nodes[i].children[k + 1] == d.nodes[i].children[k + 1]);
                }
            }
        }
    }
}

/// Growing the arena by a fresh parentless node preserves both invariants.
pub proof fn lemma_new_node_preserves_invariants(d: DomView, data: DataView)
    requires
        wf(d),
        data_ok(d, data),
    ensures
        wf(new_node_m(d, data)),
        text_coalesced(d) ==> text_coalesced(new_node_m(d, data)),
{
    let d2 = new_node_m(d, data);
    let f = d.nodes.len() as int;
    assert(d2.nodes.len() == d.nodes.len() + 1);
    assert(forall|j: int| 0 <= j < d.nodes.len() ==> d2.nodes[j] == d.nodes[j]);
    assert(d2.nodes[f].children.len() == 0);
    assert(d2.nodes[f].parent is None);
    assert forall|i: int, k: int|
        0 <= i < d2.nodes.len() && 0 <= k < d2.nodes[i].children.len() implies {
        let x = #[trigger] d2.nodes[i].children[k];
        valid_id(d2, x) && d2.nodes[x].parent == Some(i)
    } by {
        assert(i != f);
        assert(d2.nodes[i].children[k] == d.nodes[i].children[k]);
        assert(valid_id(d, d.nodes[i].children[k]));
    }
    assert(wf_links(d2));
    assert(wf_distinct(d2));
    assert forall|i: int|
        0 <= i < d2.nodes.len() && (#[trigger] d2.nodes[i].parent) is Some implies {
        let q = d2.nodes[i].parent->0;
        valid_id(d2, q) && d2.nodes[q].children.contains(i)
    } by {
        assert(i != f);
        let q = d.nodes[i].parent->0;
        assert(d.nodes[q].children.contains(i));
        assert(d2.nodes[q].children == d.nodes[q].children);
    }
    assert(wf_parent(d2));
    assert(wf_self(d2));
    assert(wf_document(d2));
    assert(wf_template(d2));
    if text_coalesced(d) {
        assert forall|i: int, k: int|
            0 <= i < d2.nodes.len() && 0 <= k && k + 1 < d2.nodes[i].children.len()
                implies !(is_text(d2, #[trigger] d2.nodes[i].children[k]) && is_text(
            d2,
            d2.nodes[i].children[k + 1],
        )) by {
            assert(i != f);
            assert(d2.nodes[i].children == d.nodes[i].children);
            assert(valid_id(d, d.nodes[i].children[k]));
            assert(valid_id(d, d.nodes[i].children[k + 1]));
            assert(forall|x: int| valid_id(d, x) ==> #[trigger] is_text(d2, x) == is_text(d, x));
        }
    }
}

/// Detaching a node preserves the structural invariant and clears the
/// detached node's back-reference.
pub proof fn lemma_detach_preserves_wf(d: DomView, n: int)
    requires
        wf(d),
        valid_id(d, n),
    ensures
        wf(detach_m(d, n)),
        detach_m(d, n).nodes.len() == d.nodes.len(),
        detach_m(d, n).nodes[n].parent is None,
        detach_m(d, n).nodes[n].data == d.nodes[n].data,
        detach_m(d, n).nodes[n].children == d.nodes[n].children,
        text_coalesced(d) && detach_junction_ok(d, n) ==> text_coalesced(detach_m(d, n)),
{
    let d2 = detach_m(d, n);
    match d.nodes[n].parent {
        None => {
            assert(d2 == d);
        },
        Some(p) => {
            assert(valid_id(d, p));
            assert(d.nodes[p].children.contains(n));
            let k = d.nodes[p].children.index_of(n);
            assert(0 <= k < d.nodes[p].children.len() && d.nodes[p].children[k] == n);
            let oldc = d.nodes[p].children;
            let newc = oldc.remove(k);
            assert(p != n);
            // Removing an element: every surviving index maps to an old index != k.
            assert(forall|j: int| 0 <= j < k ==> newc[j] == oldc[j]);
            assert(forall|j: int| k <= j < newc.len() ==> newc[j] == oldc[j + 1]);
            assert(d2.nodes.len() == d.nodes.len());
            assert(forall|j: int|
                0 <= j < d.nodes.len() && j != p && j != n ==> d2.nodes[j] == d.nodes[j]);
            assert(d2.nodes[n].parent is None);
            assert(d2.nodes[n].data == d.nodes[n].data);
            assert(d2.nodes[n].children == d.nodes[n].children);
            assert(d2.nodes[p].children == newc);
            assert(d2.nodes[p].parent == d.nodes[p].parent);
            assert(d2.nodes[p].data == d.nodes[p].data);
            // n occurs in no other child list, and only once in p's.
            assert forall|i: int, j: int|
                0 <= i < d.nodes.len() && 0 <= j < d.nodes[i].children.len() && !(i == p && j == k)
                    implies #[trigger] d.nodes[i].children[j] != n by {
                if d.nodes[i].children[j] == n {
                    assert(d.nodes[n].parent == Some(i));
                    assert(i == p);
                    assert(d.nodes[p].children[j] == d.nodes[p].children[k]);
                }
            }
            assert forall|i: int, j: int|
                0 <= i < d2.nodes.len() && 0 <= j < d2.nodes[i].children.len() implies {
                let x = #[trigger] d2.nodes[i].children[j];
                valid_id(d2, x) && d2.nodes[x].parent == Some(i)
            } by {
                if i == p {
                    let x = newc[j];
                    if j < k {
                        assert(x == oldc[j]);
                        assert(x != n);
                    } else {
                        assert(x == oldc[j + 1]);
                        assert(x != n);
                    }
                    assert(d.nodes[x].parent == Some(i));
                } else {
                    let x = d.nodes[i].children[j];
                    assert(x != n);
                }
            }
            assert(wf_links(d2));
            assert forall|i: int, k1: int, k2: int|
                0 <= i < d2.nodes.len() && 0 <= k1 < k2 < d2.nodes[i].children.len()
                    implies #[trigger] d2.nodes[i].children[k1] != #[trigger] d2.nodes[i].children[k2] by {
                if i == p {
                    let a1 = if k1 < k { k1 } else { k1 + 1 };
                    let a2 = if k2 < k { k2 } else { k2 + 1 };
                    assert(newc[k1] == oldc[a1]);
                    assert(newc[k2] == oldc[a2]);
                    assert(a1 < a2);
                }
            }
            assert(wf_distinct(d2));
            assert forall|i: int|
                0 <= i < d2.nodes.len() && (#[trigger] d2.nodes[i].parent) is Some implies {
                let q = d2.nodes[i].parent->0;
                valid_id(d2, q) && d2.nodes[q].children.contains(i)
            } by {
                let q = d2.nodes[i].parent->0;
                assert(i != n);
                assert(d.nodes[i].parent == Some(q));
                assert(d.nodes[q].children.contains(i));
                let j = choose|j: int|
                    0 <= j < d.nodes[q].children.len() && d.nodes[q].children[j] == i;
                if q == p {
                    assert(j != k);
                    if j < k {
                        assert(newc[j] == i);
                    } else {
                        assert(newc[j - 1] == oldc[j]);
                        assert(newc[j - 1] == i);
                    }
                    assert(d2.nodes[q].children.contains(i));
                } else {
                    assert(d2.nodes[q].children.contains(i));
                }
            }
            assert(wf_parent(d2));
            assert(wf_self(d2));
            assert(wf_document(d2));
            assert(wf_template(d2));
            if text_coalesced(d) && detach_junction_ok(d, n) {
                assert forall|i: int, j: int|
                    0 <= i < d2.nodes.len() && 0 <= j && j + 1 < d2.nodes[i].children.len()
                        implies !(is_text(d2, #[trigger] d2.nodes[i].children[j]) && is_text(
                    d2,
                    d2.nodes[i].children[j + 1],
                )) by {
                    assert(forall|x: int| #[trigger] is_text(d2, x) == is_text(d, x));
                    if i == p {
                        if j + 1 < k {
                            assert(newc[j] == oldc[j]);
                            assert(newc[j + 1] == oldc[j + 1]);
                        } else if j + 1 == k {
                            assert(newc[j] == oldc[j]);
                            assert(newc[j + 1] == oldc[j + 2]);
                            assert(!(is_text(d, oldc[k - 1]) && is_text(d, oldc[k + 1])));
                        } else {
                            assert(newc[j] == oldc[j + 1]);
                            assert(newc[j + 1] == oldc[j + 2]);
                        }
                    } else {
                        assert(d2.nodes[i].children == d.nodes[i].children);
                    }
                }
            }
        },
    }
}

} // verus!

verus! {

impl Dom {
    /// Create a parentless node holding `data` and hand back its handle.
    pub fn new_node(&mut self, data: NodeData) -> (h: Handle)
        requires
            old(self).wf(),
            data_ok(old(self)@, data@),
        ensures
            final(self)@ == new_node_m(old(self)@, data@),
            h.idx == old(self)@.nodes.len(),
            final(self).spec_valid(h),
            final(self).wf(),
            old(self).coalesced() ==> final(self).coalesced(),
    {
        let idx = self.nodes.len();
        let ghost dv = data@;
        self.nodes.push(Node { data, parent: None, children: Vec::new() });
        proof {
            assert(self@.nodes =~~= new_node_m(old(self)@, dv).nodes);
            assert(self@ =~~= new_node_m(old(self)@, dv));
            lemma_new_node_preserves_invariants(old(self)@, dv);
        }
        Handle { idx }
    }

    /// The guard walk itself: is the edit that would make `target` an
    /// ancestor of `from` refused?
    fn is_blocked(&self, from: Handle, target: Handle) -> (r: bool)
        requires
            self.wf(),
            self.spec_valid(from),
            self.spec_valid(target),
        ensures
            r == ancestor_blocked(
                self@,
                from.idx as int,
                target.idx as int,
                self@.nodes.len() as nat,
            ),
    {
        let ghost d = self@;
        let mut cur: usize = from.idx;
        let mut fuel: usize = self.nodes.len();
        loop
            invariant
                self.wf(),
                self@ == d,
                cur < d.nodes.len(),
                ancestor_blocked(d, from.idx as int, target.idx as int, d.nodes.len() as nat)
                    == ancestor_blocked(d, cur as int, target.idx as int, fuel as nat),
            decreases fuel,
        {
            if cur == target.idx {
                return true;
            }
            match self.nodes[cur].parent {
                None => {
                    return false;
                },
                Some(q) => {
                    if fuel == 0 {
                        return true;
                    }
                    proof {
                        assert(self@.nodes[cur as int].parent == Some(q.idx as int));
                        assert(valid_id(d, q.idx as int));
                    }
                    cur = q.idx;
                    fuel = fuel - 1;
                },
            }
        }
    }

    /// Append a parentless node to another node's children, coalescing text
    /// into the parent's current last child when both are text nodes.  Fails
    /// with `AlreadyParented` when the child has a parent, `DocumentAsChild`
    /// when the child is a document node, and `WouldCycle` when the guard
    /// walk meets the child on the parent's ancestor chain.
    pub fn append_child(&mut self, p: Handle, c: Handle) -> (r: Result<(), DomError>)
        requires
            old(self).wf(),
            old(self).spec_valid(p),
            old(self).spec_valid(c),
        ensures
            final(self).wf(),
            old(self).coalesced() ==> final(self).coalesced(),
            match r {
                Ok(()) => append_child_err(old(self)@, p.idx as int, c.idx as int) is None
                    && final(self)@ == append_child_ok(old(self)@, p.idx as int, c.idx as int),
                Err(e) => append_child_err(old(self)@, p.idx as int, c.idx as int) == Some(e)
                    && final(self)@ == old(self)@,
            },
    {
        let ghost d = self@;
        if self.nodes[c.idx].parent.is_some() {
            return Err(DomError::AlreadyParented);
        }
        if matches!(self.nodes[c.idx].data, NodeData::Document) {
            return Err(DomError::DocumentAsChild);
        }
        if self.is_blocked(p, c) {
            return Err(DomError::WouldCycle);
        }
        let ccount = self.nodes[p.idx].children.len();
        let mut coalesce_with: Option<Handle> = None;
        if ccount > 0 {
            let last = self.nodes[p.idx].children[ccount - 1];
            proof {
                assert(d.nodes[p.idx as int].children[ccount - 1] == last.idx as int);
                assert(valid_id(d, last.idx as int));
            }
            if matches!(self.nodes[last.idx].data, NodeData::Text { .. }) && matches!(
                self.nodes[c.idx].data,
                NodeData::Text { .. },
            ) {
                coalesce_with = Some(last);
            }
        }
        match coalesce_with {
            Some(last) => {
                proof {
                    assert(appends_coalesce(d, p.idx as int, c.idx as int));
                    assert(d.nodes[p.idx as int].children.last() == last.idx as int);
                }
                let addition: String = if let NodeData::Text { contents } = &self.nodes[c.idx].data {
                    contents.clone()
                } else {
                    proof {
                        assert(false);
                    }
                    String::new()
                };
                if let NodeData::Text { contents } = &mut self.nodes[last.idx].data {
                    contents.append(addition.as_str());
                } else {
                    proof {
                        assert(false);
                    }
                }
                proof {
                    let d2 = append_child_ok(d, p.idx as int, c.idx as int);
                    assert(self@.nodes =~~= d2.nodes);
                    assert(self@ =~~= d2);
                    lemma_append_child_preserves_invariants(d, p.idx as int, c.idx as int);
                }
                Ok(())
            },
            None => {
                proof {
                    assert(!appends_coalesce(d, p.idx as int, c.idx as int));
                }
                self.nodes[c.idx].parent = Some(p);
                self.nodes[p.idx].children.push(c);
                proof {
                    let d2 = append_child_ok(d, p.idx as int, c.idx as int);
                    assert(self@.nodes =~~= d2.nodes);
                    assert(self@ =~~= d2);
                    lemma_append_child_preserves_invariants(d, p.idx as int, c.idx as int);
                }
                Ok(())
            },
        }
    }

    /// Remove a node from its parent's child list and clear its
    /// back-reference; a no-op on a parentless node.
    pub fn detach(&mut self, n: Handle)
        requires
            old(self).wf(),
            old(self).spec_valid(n),
        ensures
            final(self)@ == detach_m(old(self)@, n.idx as int),
            final(self).wf(),
            final(self)@.nodes[n.idx as int].parent is None,
            old(self).coalesced() && detach_junction_ok(old(self)@, n.idx as int)
                ==> final(self).coalesced(),
    {
        let ghost d = self@;
        let p = match self.nodes[n.idx].parent {
            None => {
                proof {
                    assert(self@ =~~= detach_m(d, n.idx as int));
                }
                return ;
            },
            Some(p) => p,
        };
        proof {
            assert(d.nodes[n.idx as int].parent == Some(p.idx as int));
            assert(valid_id(d, p.idx as int));
            assert(d.nodes[p.idx as int].children.contains(n.idx as int));
        }
        // Locate the unique position of `n` in its parent's child list.
        let ghost cs = d.nodes[p.idx as int].children;
        proof {
            let w0 = choose|w: int| 0 <= w < cs.len() && cs[w] == n.idx as int;
            assert(0 <= w0 < cs.len() && cs[w0] == n.idx as int);
        }
        let clen = self.nodes[p.idx].children.len();
        let mut k: usize = 0;
        while self.nodes[p.idx].children[k].idx != n.idx
            invariant
                self.wf(),
                self@ == d,
                n.idx < d.nodes.len(),
                p.idx < d.nodes.len(),
                cs == d.nodes[p.idx as int].children,
                clen == cs.len(),
                k < clen,
                exists|w: int| k <= w < cs.len() && cs[w] == n.idx as int,
            decreases cs.len() - k,
        {
            proof {
                let w = choose|w: int| k <= w < cs.len() && cs[w] == n.idx as int;
                assert(cs[k as int] != n.idx as int);
                assert(w != k);
                assert(k + 1 <= w < cs.len() && cs[w] == n.idx as int);
            }
            k = k + 1;
        }
        proof {
            assert(cs[k as int] == n.idx as int);
            let ko = cs.index_of(n.idx as int);
            assert(0 <= ko < cs.len() && cs[ko] == n.idx as int) by {
                assert(cs.contains(n.idx as int));
            }
            if ko < (k as int) {
                assert(d.nodes[p.idx as int].children[ko] != d.nodes[p.idx as int].children[
                    k as int]);
            }
            if (k as int) < ko {
                assert(d.nodes[p.idx as int].children[k as int] != d.nodes[p.idx
                    as int].children[ko]);
            }
            assert(ko == k as int);
        }
        self.nodes[p.idx].children.remove(k);
        self.nodes[n.idx].parent = None;
        proof {
            let d2 = detach_m(d, n.idx as int);
            assert(self@.nodes =~~= d2.nodes);
            assert(self@ =~~= d2);
            lemma_detach_preserves_wf(d, n.idx as int);
        }
    }
}

} // verus!

verus! {

// ---------------------------------------------------------------------------
// Further models: text rewrites, positional inserts, sink appends
// ---------------------------------------------------------------------------

/// Replace only the text contents of text node `t`.
pub open spec fn set_text_m(d: DomView, t: int, s: Seq<char>) -> DomView {
    (DomView {
        nodes: d.nodes.update(
            t,
            (NodeView { data: (DataView::Text { contents: s }), ..d.nodes[t] }),
        ),
        ..d
    })
}

/// Attach parentless `c` at the end of `p`'s child list (no coalescing).
pub open spec fn attach_m(d: DomView, p: int, c: int) -> DomView {
    let n1 = d.nodes.update(c, (NodeView { parent: Some(p), ..d.nodes[c] }));
    (DomView { nodes: n1.update(p, (NodeView { children: n1[p].children.push(c), ..n1[p] })), ..d })
}

/// Attach parentless `c` at position `k` of `p`'s child list (no coalescing).
pub open spec fn insert_at_m(d: DomView, p: int, k: int, c: int) -> DomView {
    let n1 = d.nodes.update(c, (NodeView { parent: Some(p), ..d.nodes[c] }));
    (DomView {
        nodes: n1.update(p, (NodeView { children: n1[p].children.insert(k, c), ..n1[p] })),
        ..d
    })
}

/// Inserting `c` at position `k` of `p`'s children puts no two text nodes
/// next to each other at the insertion point.
pub open spec fn insert_junction_ok(d: DomView, p: int, k: int, c: int) -> bool {
    let cs = d.nodes[p].children;
    &&& !(d.nodes[c].data is Text && k > 0 && is_text(d, cs[k - 1]))
    &&& !(d.nodes[c].data is Text && k < cs.len() && is_text(d, cs[k]))
}

/// Detaching `n` leaves no two text nodes adjacent where `n` used to stand.
pub open spec fn detach_junction_ok(d: DomView, n: int) -> bool {
    match d.nodes[n].parent {
        None => true,
        Some(p) => {
            let cs = d.nodes[p].children;
            let k = cs.index_of(n);
            !(k > 0 && k + 1 < cs.len() && is_text(d, cs[k - 1]) && is_text(d, cs[k + 1]))
        },
    }
}

/// The error `insert_before` reports, if any.
pub open spec fn insert_before_err(d: DomView, s: int, x: int) -> Option<DomError> {
    if d.nodes[s].parent is None {
        Some(DomError::NoParent)
    } else if x == s {
        None
    } else if d.nodes[x].data is Document {
        Some(DomError::DocumentAsChild)
    } else if ancestor_blocked(d, d.nodes[s].parent->0, x, d.nodes.len() as nat) {
        Some(DomError::WouldCycle)
    } else {
        None
    }
}

/// What a successful `insert_before` does: detach the new node, then either
/// merge its text into the preceding sibling, merge it onto the front of a
/// text reference sibling, or insert it at the reference position.
pub open spec fn insert_before_ok(d: DomView, s: int, x: int) -> DomView {
    if x == s {
        d
    } else {
        let p = d.nodes[s].parent->0;
        let d1 = detach_m(d, x);
        let k = d1.nodes[p].children.index_of(s);
        if d1.nodes[x].data is Text && k > 0 && is_text(d1, d1.nodes[p].children[k - 1]) {
            append_text_onto(d1, d1.nodes[p].children[k - 1], text_contents(d1.nodes[x].data))
        } else if d1.nodes[x].data is Text && d1.nodes[s].data is Text {
            set_text_m(d1, s, text_contents(d1.nodes[x].data) + text_contents(d1.nodes[s].data))
        } else {
            insert_at_m(d1, p, k, x)
        }
    }
}

/// What the sink's text append does: coalesce onto the last child when it is
/// a text node, otherwise create a fresh text node and attach it.
pub open spec fn append_text_m(d: DomView, p: int, s: Seq<char>) -> DomView {
    if d.nodes[p].children.len() > 0 && is_text(d, d.nodes[p].children.last()) {
        append_text_onto(d, d.nodes[p].children.last(), s)
    } else {
        attach_m(new_node_m(d, (DataView::Text { contents: s })), p, d.nodes.len() as int)
    }
}

/// What the sink's text insert-before does.
pub open spec fn insert_text_before_m(d: DomView, s: int, txt: Seq<char>) -> DomView {
    let p = d.nodes[s].parent->0;
    let k = d.nodes[p].children.index_of(s);
    if k > 0 && is_text(d, d.nodes[p].children[k - 1]) {
        append_text_onto(d, d.nodes[p].children[k - 1], txt)
    } else if d.nodes[s].data is Text {
        set_text_m(d, s, txt + text_contents(d.nodes[s].data))
    } else {
        insert_at_m(new_node_m(d, (DataView::Text { contents: txt })), p, k, d.nodes.len() as int)
    }
}

// ---------------------------------------------------------------------------
// Preservation lemmas for the new models
// ---------------------------------------------------------------------------

/// Rewriting the contents of a text node preserves both invariants.
pub proof fn lemma_set_text_preserves(d: DomView, t: int, s: Seq<char>)
    requires
        wf(d),
        valid_id(d, t),
        d.nodes[t].data is Text,
    ensures
        wf(set_text_m(d, t, s)),
        text_coalesced(d) ==> text_coalesced(set_text_m(d, t, s)),
{
    let d2 = set_text_m(d, t, s);
    assert(d2.nodes.len() == d.nodes.len());
    assert(forall|j: int| 0 <= j < d.nodes.len() && j != t ==> d2.nodes[j] == d.nodes[j]);
    assert(d2.nodes[t].parent == d.nodes[t].parent);
    assert(d2.nodes[t].children == d.nodes[t].children);
    assert(d2.nodes[t].data is Text);
    assert(wf_links(d2));
    assert(wf_distinct(d2));
    assert(wf_parent(d2));
    assert(wf_self(d2));
    assert(wf_document(d2));
    assert(wf_template(d2));
    if text_coalesced(d) {
        assert forall|i: int, k: int|
            0 <= i < d2.nodes.len() && 0 <= k && k + 1 < d2.nodes[i].children.len()
                implies !(is_text(d2, #[trigger] d2.nodes[i].children[k]) && is_text(
            d2,
            d2.nodes[i].children[k + 1],
        )) by {
            assert(d2.nodes[i].children == d.nodes[i].children);
            assert(forall|x: int| #[trigger] is_text(d2, x) == is_text(d, x));
        }
    }
}

/// Attaching a fresh or freshly detached node at a position of a child list
/// preserves the structural invariant; it preserves the coalescing invariant
/// when the junction conditions hold.
pub proof fn lemma_insert_at_preserves(d: DomView, p: int, k: int, c: int)
    requires
        wf(d),
        valid_id(d, p),
        valid_id(d, c),
        d.nodes[c].parent is None,
        !(d.nodes[c].data is Document),
        p != c,
        0 <= k <= d.nodes[p].children.len(),
    ensures
        wf(insert_at_m(d, p, k, c)),
        text_coalesced(d) && insert_junction_ok(d, p, k, c) ==> text_coalesced(
            insert_at_m(d, p, k, c),
        ),
{
    let d2 = insert_at_m(d, p, k, c);
    let cs = d.nodes[p].children;
    let cs2 = cs.insert(k, c);
    cs.insert_ensures(k, c);
    // c was parentless, so no child list mentions it.
    assert forall|i: int, j: int|
        0 <= i < d.nodes.len() && 0 <= j < d.nodes[i].children.len() implies #[trigger] d.nodes[i].children[j]
        != c by {
        if d.nodes[i].children[j] == c {
            assert(d.nodes[c].parent == Some(i));
        }
    }
    assert(d2.nodes.len() == d.nodes.len());
    assert(forall|j: int| 0 <= j < d.nodes.len() && j != c && j != p ==> d2.nodes[j] == d.nodes[j]);
    assert(d2.nodes[c].parent == Some(p));
    assert(d2.nodes[c].children == d.nodes[c].children);
    assert(d2.nodes[c].data == d.nodes[c].data);
    assert(d2.nodes[p].children == cs2);
    assert(d2.nodes[p].parent == d.nodes[p].parent);
    assert(d2.nodes[p].data == d.nodes[p].data);
    assert forall|i: int, j: int|
        0 <= i < d2.nodes.len() && 0 <= j < d2.nodes[i].children.len() implies {
        let x = #[trigger] d2.nodes[i].children[j];
        valid_id(d2, x) && d2.nodes[x].parent == Some(i)
    } by {
        if i == p {
            if j == k {
                assert(d2.nodes[i].children[j] == c);
            } else if j < k {
                assert(d2.nodes[i].children[j] == cs[j]);
                assert(cs[j] != c);
            } else {
                assert(d2.nodes[i].children[j] == cs[j - 1]);
                assert(cs[j - 1] != c);
            }
        } else {
            assert(d2.nodes[i].children[j] == d.nodes[i].children[j]);
            assert(d.nodes[i].children[j] != c);
        }
    }
    assert(wf_links(d2));
    assert forall|i: int, k1: int, k2: int|
        0 <= i < d2.nodes.len() && 0 <= k1 < k2 < d2.nodes[i].children.len()
            implies #[trigger] d2.nodes[i].children[k1] != #[trigger] d2.nodes[i].children[k2] by {
        if i == p {
            let a1 = if k1 < k { k1 } else { k1 - 1 };
            let a2 = if k2 < k { k2 } else { k2 - 1 };
            if k1 == k {
                assert(cs2[k1] == c);
                assert(cs2[k2] == cs[a2]);
                assert(cs[a2] != c);
            } else if k2 == k {
                assert(cs2[k2] == c);
                assert(cs2[k1] == cs[a1]);
                assert(cs[a1] != c);
            } else {
                assert(cs2[k1] == cs[a1]);
                assert(cs2[k2] == cs[a2]);
                assert(a1 < a2);
            }
        }
    }
    assert(wf_distinct(d2));
    assert forall|i: int|
        0 <= i < d2.nodes.len() && (#[trigger] d2.nodes[i].parent) is Some implies {
        let q = d2.nodes[i].parent->0;
        valid_id(d2, q) && d2.nodes[q].children.contains(i)
    } by {
        let q = d2.nodes[i].parent->0;
        if i == c {
            assert(cs2[k] == c);
            assert(d2.nodes[p].children.contains(c));
        } else {
            assert(d.nodes[i].parent == d2.nodes[i].parent);
            assert(d.nodes[q].children.contains(i));
            let j = choose|j: int| 0 <= j < d.nodes[q].children.len() && d.nodes[q].children[j] == i;
            if q == p {
                if j < k {
                    assert(cs2[j] == i);
                } else {
                    assert(cs2[j + 1] == i);
                }
                assert(d2.nodes[q].children.contains(i));
            } else {
                assert(d2.nodes[q].children.contains(i));
            }
        }
    }
    assert(wf_parent(d2));
    assert(wf_self(d2));
    assert(wf_document(d2));
    assert(wf_template(d2));
    if text_coalesced(d) && insert_junction_ok(d, p, k, c) {
        assert forall|i: int, j: int|
            0 <= i < d2.nodes.len() && 0 <= j && j + 1 < d2.nodes[i].children.len()
                implies !(is_text(d2, #[trigger] d2.nodes[i].children[j]) && is_text(
            d2,
            d2.nodes[i].children[j + 1],
        )) by {
            assert(forall|x: int| #[trigger] is_text(d2, x) == is_text(d, x));
            if i == p {
                if j + 1 < k {
                    assert(cs2[j] == cs[j]);
                    assert(cs2[j + 1] == cs[j + 1]);
                } else if j + 1 == k {
                    assert(cs2[j] == cs[j]);
                    assert(cs2[j + 1] == c);
                } else if j == k {
                    assert(cs2[j] == c);
                    assert(cs2[j + 1] == cs[j]);
                } else {
                    assert(cs2[j] == cs[j - 1]);
                    assert(cs2[j + 1] == cs[j]);
                }
            } else {
                assert(d2.nodes[i].children[j] == d.nodes[i].children[j]);
                assert(d2.nodes[i].children[j + 1] == d.nodes[i].children[j + 1]);
            }
        }
    }
}

/// Attaching at the end is inserting at the last position.
pub proof fn lemma_attach_is_insert_at_end(d: DomView, p: int, c: int)
    requires
        valid_id(d, p),
        valid_id(d, c),
    ensures
        attach_m(d, p, c) == insert_at_m(d, p, d.nodes[p].children.len() as int, c),
{
    let cs = d.nodes.update(c, (NodeView { parent: Some(p), ..d.nodes[c] }))[p].children;
    assert(cs.insert(cs.len() as int, c) =~= cs.push(c));
    assert(attach_m(d, p, c) =~~= insert_at_m(d, p, d.nodes[p].children.len() as int, c));
}

} // verus!

verus! {

impl Dom {
    /// The position of `c` in `p`'s child list.
    fn find_child_index(&self, p: Handle, c: Handle) -> (k: usize)
        requires
            self.wf(),
            self.spec_valid(p),
            self@.nodes[p.idx as int].children.contains(c.idx as int),
        ensures
            k == self@.nodes[p.idx as int].children.index_of(c.idx as int),
            k < self@.nodes[p.idx as int].children.len(),
            self@.nodes[p.idx as int].children[k as int] == c.idx as int,
    {
        let ghost d = self@;
        let ghost cs = d.nodes[p.idx as int].children;
        proof {
            let w0 = choose|w: int| 0 <= w < cs.len() && cs[w] == c.idx as int;
            assert(0 <= w0 < cs.len() && cs[w0] == c.idx as int);
        }
        let clen = self.nodes[p.idx].children.len();
        let mut k: usize = 0;
        while self.nodes[p.idx].children[k].idx != c.idx
            invariant
                self.wf(),
                self@ == d,
                p.idx < d.nodes.len(),
                cs == d.nodes[p.idx as int].children,
                clen == cs.len(),
                k < clen,
                exists|w: int| k <= w < cs.len() && cs[w] == c.idx as int,
            decreases cs.len() - k,
        {
            proof {
                let w = choose|w: int| k <= w < cs.len() && cs[w] == c.idx as int;
                assert(cs[k as int] != c.idx as int);
                assert(w != k);
                assert(k + 1 <= w < cs.len() && cs[w] == c.idx as int);
            }
            k = k + 1;
        }
        proof {
            assert(cs[k as int] == c.idx as int);
            let ko = cs.index_of(c.idx as int);
            assert(0 <= ko < cs.len() && cs[ko] == c.idx as int) by {
                assert(cs.contains(c.idx as int));
            }
            if ko < (k as int) {
                assert(d.nodes[p.idx as int].children[ko] != d.nodes[p.idx as int].children[
                    k as int]);
            }
            if (k as int) < ko {
                assert(d.nodes[p.idx as int].children[k as int] != d.nodes[p.idx
                    as int].children[ko]);
            }
            assert(ko == k as int);
        }
        k
    }

    /// Attach a parentless non-document node at the end of `p`'s children,
    /// with no coalescing: the callers rule the text/text junction out.
    fn attach(&mut self, p: Handle, c: Handle)
        requires
            old(self).wf(),
            old(self).spec_valid(p),
            old(self).spec_valid(c),
            old(self)@.nodes[c.idx as int].parent is None,
            !(old(self)@.nodes[c.idx as int].data is Document),
            p.idx != c.idx,
        ensures
            final(self)@ == attach_m(old(self)@, p.idx as int, c.idx as int),
            final(self).wf(),
            old(self).coalesced() && !appends_coalesce(old(self)@, p.idx as int, c.idx as int)
                ==> final(self).coalesced(),
    {
        let ghost d = self@;
        self.nodes[c.idx].parent = Some(p);
        self.nodes[p.idx].children.push(c);
        proof {
            let d2 = attach_m(d, p.idx as int, c.idx as int);
            assert(self@.nodes =~~= d2.nodes);
            assert(self@ =~~= d2);
            lemma_attach_is_insert_at_end(d, p.idx as int, c.idx as int);
            lemma_insert_at_preserves(
                d,
                p.idx as int,
                d.nodes[p.idx as int].children.len() as int,
                c.idx as int,
            );
        }
    }

    /// Insert a node immediately before a reference sibling.  Fails with
    /// `NoParent` if the reference sibling is parentless, `DocumentAsChild`
    /// for a document node, and `WouldCycle` when the guard walk meets the
    /// new node above the reference sibling.  The new node is detached from
    /// any current parent first; text is coalesced with the preceding
    /// sibling, or onto the front of a text reference sibling.
    pub fn insert_before(&mut self, sibling: Handle, new_node: Handle) -> (r: Result<
        (),
        DomError,
    >)
        requires
            old(self).wf(),
            old(self).spec_valid(sibling),
            old(self).spec_valid(new_node),
        ensures
            final(self).wf(),
            old(self).coalesced() && detach_junction_ok(old(self)@, new_node.idx as int)
                ==> final(self).coalesced(),
            match r {
                Ok(()) => insert_before_err(old(self)@, sibling.idx as int, new_node.idx as int)
                    is None && final(self)@ == insert_before_ok(
                    old(self)@,
                    sibling.idx as int,
                    new_node.idx as int,
                ),
                Err(e) => insert_before_err(old(self)@, sibling.idx as int, new_node.idx as int)
                    == Some(e) && final(self)@ == old(self)@,
            },
    {
        let ghost d = self@;
        let p = match self.nodes[sibling.idx].parent {
            None => {
                return Err(DomError::NoParent);
            },
            Some(p) => p,
        };
        proof {
            assert(d.nodes[sibling.idx as int].parent == Some(p.idx as int));
            assert(valid_id(d, p.idx as int));
        }
        if new_node.idx == sibling.idx {
            return Ok(());
        }
        if matches!(self.nodes[new_node.idx].data, NodeData::Document) {
            return Err(DomError::DocumentAsChild);
        }
        if self.is_blocked(p, new_node) {
            return Err(DomError::WouldCycle);
        }
        self.detach(new_node);
        let ghost d1 = self@;
        proof {
            assert(d1 == detach_m(d, new_node.idx as int));
            // The reference sibling keeps its parent and stays in its list.
            match d.nodes[new_node.idx as int].parent {
                None => {
                    assert(d1 == d);
                },
                Some(q) => {
                    let csq = d.nodes[q].children;
                    let kq = csq.index_of(new_node.idx as int);
                    assert(d1.nodes[sibling.idx as int].parent == Some(p.idx as int));
                    if q == p.idx as int {
                        let j = choose|j: int|
                            0 <= j < csq.len() && csq[j] == sibling.idx as int;
                        assert(csq[j] == sibling.idx as int);
                        assert(j != kq);
                        if j < kq {
                            assert(csq.remove(kq)[j] == sibling.idx as int);
                            assert(d1.nodes[p.idx as int].children.contains(sibling.idx as int));
                        } else {
                            assert(csq.remove(kq)[j - 1] == sibling.idx as int);
                            assert(d1.nodes[p.idx as int].children.contains(sibling.idx as int));
                        }
                    } else {
                        assert(d1.nodes[p.idx as int].children == d.nodes[p.idx as int].children);
                        assert(d.nodes[p.idx as int].children.contains(sibling.idx as int));
                    }
                },
            }
            assert(d1.nodes[p.idx as int].children.contains(sibling.idx as int));
        }
        let k = self.find_child_index(p, sibling);
        let ghost csp = d1.nodes[p.idx as int].children;
        let x_is_text = matches!(self.nodes[new_node.idx].data, NodeData::Text { .. });
        let mut merged_prev = false;
        if x_is_text && k > 0 {
            let prev = self.nodes[p.idx].children[k - 1];
            proof {
                assert(csp[k - 1] == prev.idx as int);
                assert(valid_id(d1, prev.idx as int));
            }
            if matches!(self.nodes[prev.idx].data, NodeData::Text { .. }) {
                let addition: String = if let NodeData::Text { contents } =
                    &self.nodes[new_node.idx].data {
                    contents.clone()
                } else {
                    proof {
                        assert(false);
                    }
                    String::new()
                };
                if let NodeData::Text { contents } = &mut self.nodes[prev.idx].data {
                    contents.append(addition.as_str());
                } else {
                    proof {
                        assert(false);
                    }
                }
                proof {
                    let t = csp[k - 1];
                    let d2 = append_text_onto(d1, t, text_contents(d1.nodes[new_node.idx
                        as int].data));
                    assert(self@.nodes =~~= d2.nodes);
                    assert(self@ =~~= d2);
                    assert(d2 =~~= set_text_m(
                        d1,
                        t,
                        text_contents(d1.nodes[t].data) + text_contents(d1.nodes[new_node.idx
                            as int].data),
                    ));
                    lemma_set_text_preserves(
                        d1,
                        t,
                        text_contents(d1.nodes[t].data) + text_contents(d1.nodes[new_node.idx
                            as int].data),
                    );
                    assert(self@ == insert_before_ok(d, sibling.idx as int, new_node.idx as int));
                }
                merged_prev = true;
            }
        }
        if merged_prev {
            return Ok(());
        }
        let s_is_text = matches!(self.nodes[sibling.idx].data, NodeData::Text { .. });
        if x_is_text && s_is_text {
            let mut combined: String = if let NodeData::Text { contents } =
                &self.nodes[new_node.idx].data {
                contents.clone()
            } else {
                proof {
                    assert(false);
                }
                String::new()
            };
            let tail: String = if let NodeData::Text { contents } = &self.nodes[sibling.idx].data {
                contents.clone()
            } else {
                proof {
                    assert(false);
                }
                String::new()
            };
            combined.append(tail.as_str());
            self.nodes[sibling.idx].data = NodeData::Text { contents: combined };
            proof {
                let s = sibling.idx as int;
                let x = new_node.idx as int;
                let d2 = set_text_m(
                    d1,
                    s,
                    text_contents(d1.nodes[x].data) + text_contents(d1.nodes[s].data),
                );
                assert(self@.nodes =~~= d2.nodes);
                assert(self@ =~~= d2);
                lemma_set_text_preserves(
                    d1,
                    s,
                    text_contents(d1.nodes[x].data) + text_contents(d1.nodes[s].data),
                );
                assert(self@ == insert_before_ok(d, sibling.idx as int, new_node.idx as int));
            }
            return Ok(());
        }
        // Plain insertion at the reference position.
        self.nodes[new_node.idx].parent = Some(p);
        self.nodes[p.idx].children.insert(k, new_node);
        proof {
            let x = new_node.idx as int;
            let d2 = insert_at_m(d1, p.idx as int, k as int, x);
            assert(self@.nodes =~~= d2.nodes);
            assert(self@ =~~= d2);
            assert(p.idx != new_node.idx);
            lemma_insert_at_preserves(d1, p.idx as int, k as int, x);
            assert(insert_junction_ok(d1, p.idx as int, k as int, x)) by {
                assert(csp[k as int] == sibling.idx as int);
                if d1.nodes[x].data is Text {
                    assert(!(k > 0 && is_text(d1, csp[k - 1])));
                    assert(!(d1.nodes[sibling.idx as int].data is Text));
                }
            }
            assert(self@ == insert_before_ok(d, sibling.idx as int, new_node.idx as int));
        }
        Ok(())
    }
}

} // verus!

verus! {

impl Dom {
    /// Append a node or a run of text as the last child of `parent`,
    /// concatenating the text onto an existing trailing text node instead of
    /// creating an adjacent sibling.  Text appends always succeed; node
    /// appends report the same errors as `append_child`.
    pub fn append(&mut self, parent: Handle, child: NodeOrText) -> (r: Result<(), DomError>)
        requires
            old(self).wf(),
            old(self).spec_valid(parent),
            (child matches NodeOrText::AppendNode(h) ==> old(self).spec_valid(h)),
        ensures
            final(self).wf(),
            old(self).coalesced() ==> final(self).coalesced(),
            match child {
                NodeOrText::AppendText(s) => r is Ok && final(self)@ == append_text_m(
                    old(self)@,
                    parent.idx as int,
                    s@,
                ),
                NodeOrText::AppendNode(h) => match r {
                    Ok(()) => append_child_err(old(self)@, parent.idx as int, h.idx as int)
                        is None && final(self)@ == append_child_ok(
                        old(self)@,
                        parent.idx as int,
                        h.idx as int,
                    ),
                    Err(e) => append_child_err(old(self)@, parent.idx as int, h.idx as int)
                        == Some(e) && final(self)@ == old(self)@,
                },
            },
    {
        let ghost d = self@;
        match child {
            NodeOrText::AppendNode(h) => self.append_child(parent, h),
            NodeOrText::AppendText(text) => {
                let ccount = self.nodes[parent.idx].children.len();
                if ccount > 0 {
                    let last = self.nodes[parent.idx].children[ccount - 1];
                    proof {
                        assert(d.nodes[parent.idx as int].children[ccount - 1] == last.idx as int);
                        assert(valid_id(d, last.idx as int));
                        assert(d.nodes[parent.idx as int].children.last() == last.idx as int);
                    }
                    if matches!(self.nodes[last.idx].data, NodeData::Text { .. }) {
                        if let NodeData::Text { contents } = &mut self.nodes[last.idx].data {
                            contents.append(text.as_str());
                        } else {
                            proof {
                                assert(false);
                            }
                        }
                        proof {
                            let t = last.idx as int;
                            let d2 = append_text_onto(d, t, text@);
                            assert(self@.nodes =~~= d2.nodes);
                            assert(self@ =~~= d2);
                            assert(d2 =~~= set_text_m(
                                d,
                                t,
                                text_contents(d.nodes[t].data) + text@,
                            ));
                            lemma_set_text_preserves(
                                d,
                                t,
                                text_contents(d.nodes[t].data) + text@,
                            );
                            assert(self@ == append_text_m(d, parent.idx as int, text@));
                        }
                        return Ok(());
                    }
                }
                let h = self.new_node(NodeData::Text { contents: text });
                self.attach(parent, h);
                proof {
                    assert(self@ == append_text_m(d, parent.idx as int, text@));
                }
                Ok(())
            },
        }
    }

    /// Append a node or text immediately before `sibling`, with the same
    /// coalescing policy as `append`: text merges onto the preceding sibling
    /// when that is a text node, or onto the front of a text reference
    /// sibling.  Fails with `NoParent` when `sibling` is parentless.
    pub fn append_before_sibling(&mut self, sibling: Handle, child: NodeOrText) -> (r: Result<
        (),
        DomError,
    >)
        requires
            old(self).wf(),
            old(self).spec_valid(sibling),
            (child matches NodeOrText::AppendNode(h) ==> old(self).spec_valid(h)),
        ensures
            final(self).wf(),
            match child {
                NodeOrText::AppendText(s) => {
                    &&& (old(self).coalesced() ==> final(self).coalesced())
                    &&& match r {
                        Ok(()) => old(self)@.nodes[sibling.idx as int].parent is Some && final(self)@ == insert_text_before_m(old(self)@, sibling.idx as int, s@),
                        Err(e) => e == DomError::NoParent && old(self)@.nodes[sibling.idx
                            as int].parent is None && final(self)@ == old(self)@,
                    }
                },
                NodeOrText::AppendNode(h) => {
                    &&& (old(self).coalesced() && detach_junction_ok(old(self)@, h.idx as int)
                        ==> final(self).coalesced())
                    &&& match r {
                        Ok(()) => insert_before_err(old(self)@, sibling.idx as int, h.idx as int)
                            is None && final(self)@ == insert_before_ok(
                            old(self)@,
                            sibling.idx as int,
                            h.idx as int,
                        ),
                        Err(e) => insert_before_err(old(self)@, sibling.idx as int, h.idx as int)
                            == Some(e) && final(self)@ == old(self)@,
                    }
                },
            },
    {
        let ghost d = self@;
        match child {
            NodeOrText::AppendNode(h) => self.insert_before(sibling, h),
            NodeOrText::AppendText(text) => {
                let p = match self.nodes[sibling.idx].parent {
                    None => {
                        return Err(DomError::NoParent);
                    },
                    Some(p) => p,
                };
                proof {
                    assert(d.nodes[sibling.idx as int].parent == Some(p.idx as int));
                    assert(valid_id(d, p.idx as int));
                    assert(d.nodes[p.idx as int].children.contains(sibling.idx as int));
                }
                let k = self.find_child_index(p, sibling);
                let ghost csp = d.nodes[p.idx as int].children;
                if k > 0 {
                    let prev = self.nodes[p.idx].children[k - 1];
                    proof {
                        assert(csp[k - 1] == prev.idx as int);
                        assert(valid_id(d, prev.idx as int));
                    }
                    if matches!(self.nodes[prev.idx].data, NodeData::Text { .. }) {
                        if let NodeData::Text { contents } = &mut self.nodes[prev.idx].data {
                            contents.append(text.as_str());
                        } else {
                            proof {
                                assert(false);
                            }
                        }
                        proof {
                            let t = csp[k - 1];
                            let d2 = append_text_onto(d, t, text@);
                            assert(self@.nodes =~~= d2.nodes);
                            assert(self@ =~~= d2);
                            assert(d2 =~~= set_text_m(
                                d,
                                t,
                                text_contents(d.nodes[t].data) + text@,
                            ));
                            lemma_set_text_preserves(
                                d,
                                t,
                                text_contents(d.nodes[t].data) + text@,
                            );
                            assert(self@ == insert_text_before_m(d, sibling.idx as int, text@));
                        }
                        return Ok(());
                    }
                }
                if matches!(self.nodes[sibling.idx].data, NodeData::Text { .. }) {
                    let tail: String = if let NodeData::Text { contents } =
                        &self.nodes[sibling.idx].data {
                        contents.clone()
                    } else {
                        proof {
                            assert(false);
                        }
                        String::new()
                    };
                    let mut combined = text;
                    combined.append(tail.as_str());
                    self.nodes[sibling.idx].data = NodeData::Text { contents: combined };
                    proof {
                        let s = sibling.idx as int;
                        let d2 = set_text_m(d, s, text@ + text_contents(d.nodes[s].data));
                        assert(self@.nodes =~~= d2.nodes);
                        assert(self@ =~~= d2);
                        lemma_set_text_preserves(d, s, text@ + text_contents(d.nodes[s].data));
                        assert(self@ == insert_text_before_m(d, sibling.idx as int, text@));
                    }
                    return Ok(());
                }
                let h = self.new_node(NodeData::Text { contents: text });
                let ghost d1 = self@;
                self.nodes[h.idx].parent = Some(p);
                self.nodes[p.idx].children.insert(k, h);
                proof {
                    let x = h.idx as int;
                    let d2 = insert_at_m(d1, p.idx as int, k as int, x);
                    assert(self@.nodes =~~= d2.nodes);
                    assert(self@ =~~= d2);
                    lemma_insert_at_preserves(d1, p.idx as int, k as int, x);
                    assert(insert_junction_ok(d1, p.idx as int, k as int, x)) by {
                        assert(d1.nodes[p.idx as int].children == csp);
                        assert(csp[k as int] == sibling.idx as int);
                        assert(!(k > 0 && is_text(d1, csp[k - 1])));
                        assert(!(d1.nodes[sibling.idx as int].data is Text));
                    }
                    assert(self@ == insert_text_before_m(d, sibling.idx as int, text@));
                }
                Ok(())
            },
        }
    }

    /// Insert relative to `element` when it currently has a parent, else
    /// append as a child of `prev_element`: the conditional insertion policy
    /// for anchors that may not have been attached yet.
    pub fn append_based_on_parent_node(
        &mut self,
        element: Handle,
        prev_element: Handle,
        child: NodeOrText,
    ) -> (r: Result<(), DomError>)
        requires
            old(self).wf(),
            old(self).spec_valid(element),
            old(self).spec_valid(prev_element),
            (child matches NodeOrText::AppendNode(h) ==> old(self).spec_valid(h)),
        ensures
            final(self).wf(),
            old(self)@.nodes[element.idx as int].parent is Some ==> final(self)@
                == spec_append_before_result(old(self)@, element.idx as int, child).0 && (match r {
                Ok(_) => spec_append_before_result(old(self)@, element.idx as int, child).1
                    is None,
                Err(e) => spec_append_before_result(old(self)@, element.idx as int, child).1
                    == Some(e),
            }),
            old(self)@.nodes[element.idx as int].parent is None ==> final(self)@
                == spec_append_result(old(self)@, prev_element.idx as int, child).0 && (match r {
                Ok(_) => spec_append_result(old(self)@, prev_element.idx as int, child).1 is None,
                Err(e) => spec_append_result(old(self)@, prev_element.idx as int, child).1 == Some(
                    e,
                ),
            }),
    {
        let ghost child0 = child;
        let has_parent = self.nodes[element.idx].parent.is_some();
        let r = if has_parent {
            self.append_before_sibling(element, child)
        } else {
            self.append(prev_element, child)
        };
        proof {
            let d = old(self)@;
            if has_parent {
                match child0 {
                    NodeOrText::AppendText(s) => {
                        assert(r is Ok);
                        assert(spec_append_before_result(d, element.idx as int, child).1 is None);
                        assert(self@ == spec_append_before_result(d, element.idx as int, child).0);
                    },
                    NodeOrText::AppendNode(h) => {
                        assert(self@ == spec_append_before_result(d, element.idx as int, child).0);
                    },
                }
            } else {
                match child0 {
                    NodeOrText::AppendText(s) => {
                        assert(r is Ok);
                        assert(spec_append_result(d, prev_element.idx as int, child).1 is None);
                        assert(self@ == spec_append_result(d, prev_element.idx as int, child).0);
                    },
                    NodeOrText::AppendNode(h) => {
                        assert(self@ == spec_append_result(d, prev_element.idx as int, child).0);
                    },
                }
            }
        }
        r
    }
}

/// The state and error, if any, of `append` on the given tree, as one value.
pub open spec fn spec_append_result(d: DomView, p: int, child: NodeOrText) -> (
    DomView,
    Option<DomError>,
) {
    match child {
        NodeOrText::AppendText(s) => (append_text_m(d, p, s@), None),
        NodeOrText::AppendNode(h) => match append_child_err(d, p, h.idx as int) {
            None => (append_child_ok(d, p, h.idx as int), None),
            Some(e) => (d, Some(e)),
        },
    }
}

/// The state and error, if any, of `append_before_sibling`, as one value.
pub open spec fn spec_append_before_result(d: DomView, s: int, child: NodeOrText) -> (
    DomView,
    Option<DomError>,
) {
    match child {
        NodeOrText::AppendText(txt) => if d.nodes[s].parent is Some {
            (insert_text_before_m(d, s, txt@), None)
        } else {
            (d, Some(DomError::NoParent))
        },
        NodeOrText::AppendNode(h) => match insert_before_err(d, s, h.idx as int) {
            None => (insert_before_ok(d, s, h.idx as int), None),
            Some(e) => (d, Some(e)),
        },
    }
}

} // verus!

verus! {

// ---------------------------------------------------------------------------
// Attribute merging, element creation, reparenting
// ---------------------------------------------------------------------------

/// Does an attribute list hold an attribute of this name?
pub open spec fn has_attr_name(attrs: Seq<AttrView>, n: Seq<char>) -> bool {
    exists|i: int| 0 <= i < attrs.len() && attrs[i].name == n
}

/// First-write-wins merge: keep every existing attribute untouched and add
/// only those incoming attributes whose names are not already present.
pub open spec fn merge_attrs_m(olda: Seq<AttrView>, newa: Seq<AttrView>) -> Seq<AttrView> {
    olda + newa.filter(|a: AttrView| !has_attr_name(olda, a.name))
}

/// The attribute list of element `e`.
pub open spec fn attrs_of(d: DomView, e: int) -> Seq<AttrView> {
    match d.nodes[e].data {
        DataView::Element { attrs, .. } => attrs,
        _ => arbitrary(),
    }
}

/// Replace only the attribute list of element `e`.
pub open spec fn set_attrs_m(d: DomView, e: int, new_attrs: Seq<AttrView>) -> DomView {
    match d.nodes[e].data {
        DataView::Element { name, attrs, template_contents, mathml_annotation_xml_integration_point } => (DomView {
            nodes: d.nodes.update(
                e,
                (NodeView {
                    data: (DataView::Element {
                        name,
                        attrs: new_attrs,
                        template_contents,
                        mathml_annotation_xml_integration_point,
                    }),
                    ..d.nodes[e]
                }),
            ),
            ..d
        }),
        _ => d,
    }
}

/// Rewriting the attribute list of an element preserves both invariants.
pub proof fn lemma_set_attrs_preserves(d: DomView, e: int, new_attrs: Seq<AttrView>)
    requires
        wf(d),
        valid_id(d, e),
        d.nodes[e].data is Element,
    ensures
        wf(set_attrs_m(d, e, new_attrs)),
        text_coalesced(d) ==> text_coalesced(set_attrs_m(d, e, new_attrs)),
{
    let d2 = set_attrs_m(d, e, new_attrs);
    assert(d2.nodes.len() == d.nodes.len());
    assert(forall|j: int| 0 <= j < d.nodes.len() && j != e ==> d2.nodes[j] == d.nodes[j]);
    assert(d2.nodes[e].parent == d.nodes[e].parent);
    assert(d2.nodes[e].children == d.nodes[e].children);
    assert(d2.nodes[e].data is Element);
    assert(d2.nodes[e].data matches DataView::Element { template_contents: t2, .. }
        ==> d.nodes[e].data matches DataView::Element { template_contents: t1, .. } && t1 == t2);
    assert(wf_links(d2));
    assert(wf_distinct(d2));
    assert(wf_parent(d2));
    assert(wf_self(d2));
    assert(wf_document(d2));
    assert(wf_template(d2));
    if text_coalesced(d) {
        assert forall|i: int, k: int|
            0 <= i < d2.nodes.len() && 0 <= k && k + 1 < d2.nodes[i].children.len()
                implies !(is_text(d2, #[trigger] d2.nodes[i].children[k]) && is_text(
            d2,
            d2.nodes[i].children[k + 1],
        )) by {
            assert(d2.nodes[i].children == d.nodes[i].children);
            assert(forall|x: int| #[trigger] is_text(d2, x) == is_text(d, x));
        }
    }
}

impl Dom {
    /// Create an element node; a template-like element gets a fresh nested
    /// document as its template contents.
    pub fn create_element(&mut self, name: QualName, attrs: Vec<Attr>, flags: ElementFlags) -> (h:
        Handle)
        requires
            old(self).wf(),
        ensures
            final(self).wf(),
            old(self).coalesced() ==> final(self).coalesced(),
            flags.template ==> h.idx == old(self)@.nodes.len() + 1 && final(self)@ == new_node_m(
                new_node_m(old(self)@, DataView::Document),
                (DataView::Element {
                    name: name@,
                    attrs: attrs@.map_values(|a: Attr| a@),
                    template_contents: Some(old(self)@.nodes.len() as int),
                    mathml_annotation_xml_integration_point:
                        flags.mathml_annotation_xml_integration_point,
                }),
            ),
            !flags.template ==> h.idx == old(self)@.nodes.len() && final(self)@ == new_node_m(
                old(self)@,
                (DataView::Element {
                    name: name@,
                    attrs: attrs@.map_values(|a: Attr| a@),
                    template_contents: None,
                    mathml_annotation_xml_integration_point:
                        flags.mathml_annotation_xml_integration_point,
                }),
            ),
            final(self).spec_valid(h),
            final(self)@.nodes[h.idx as int].parent is None,
            final(self)@.nodes[h.idx as int].children.len() == 0,
    {
        if flags.template {
            let doc = self.new_node(NodeData::Document);
            let h = self.new_node(
                NodeData::Element {
                    name,
                    attrs,
                    template_contents: Some(doc),
                    mathml_annotation_xml_integration_point:
                        flags.mathml_annotation_xml_integration_point,
                },
            );
            h
        } else {
            let h = self.new_node(
                NodeData::Element {
                    name,
                    attrs,
                    template_contents: None,
                    mathml_annotation_xml_integration_point:
                        flags.mathml_annotation_xml_integration_point,
                },
            );
            h
        }
    }

    /// Create a comment node.
    pub fn create_comment(&mut self, text: String) -> (h: Handle)
        requires
            old(self).wf(),
        ensures
            final(self).wf(),
            old(self).coalesced() ==> final(self).coalesced(),
            h.idx == old(self)@.nodes.len(),
            final(self)@ == new_node_m(old(self)@, (DataView::Comment { contents: text@ })),
            final(self).spec_valid(h),
    {
        self.new_node(NodeData::Comment { contents: text })
    }

    /// Create a processing-instruction node.
    pub fn create_pi(&mut self, target: String, data: String) -> (h: Handle)
        requires
            old(self).wf(),
        ensures
            final(self).wf(),
            old(self).coalesced() ==> final(self).coalesced(),
            h.idx == old(self)@.nodes.len(),
            final(self)@ == new_node_m(
                old(self)@,
                (DataView::ProcessingInstruction { target: target@, contents: data@ }),
            ),
            final(self).spec_valid(h),
    {
        self.new_node(NodeData::ProcessingInstruction { target, contents: data })
    }

    /// Append a doctype node to the document root.
    pub fn append_doctype_to_document(
        &mut self,
        name: String,
        public_id: String,
        system_id: String,
    )
        requires
            old(self).wf(),
        ensures
            final(self).wf(),
            old(self).coalesced() ==> final(self).coalesced(),
            final(self)@ == attach_m(
                new_node_m(
                    old(self)@,
                    (DataView::Doctype {
                        name: name@,
                        public_id: public_id@,
                        system_id: system_id@,
                    }),
                ),
                0,
                old(self)@.nodes.len() as int,
            ),
    {
        let h = self.new_node(NodeData::Doctype { name, public_id, system_id });
        let doc = Handle { idx: 0 };
        self.attach(doc, h);
    }

    /// The nested document of a template element; a distinguishable error on
    /// any other node.
    pub fn get_template_contents(&self, target: Handle) -> (r: Result<Handle, DomError>)
        requires
            self.wf(),
            self.spec_valid(target),
        ensures
            match r {
                Ok(t) => self@.nodes[target.idx as int].data matches DataView::Element {
                    template_contents: Some(tc),
                    ..
                } && tc == t.idx as int && self.spec_valid(t),
                Err(e) => e == DomError::NotATemplate && !(self@.nodes[target.idx
                    as int].data matches DataView::Element { template_contents: Some(_), .. }),
            },
    {
        match &self.nodes[target.idx].data {
            NodeData::Element { template_contents: Some(t), .. } => {
                let t = *t;
                proof {
                    assert(valid_id(self@, t.idx as int));
                }
                Ok(t)
            },
            _ => Err(DomError::NotATemplate),
        }
    }

    /// The qualified name of an element; an error on any other node.
    pub fn elem_name(&self, target: Handle) -> (r: Result<&QualName, DomError>)
        requires
            self.wf(),
            self.spec_valid(target),
        ensures
            match r {
                Ok(n) => self@.nodes[target.idx as int].data matches DataView::Element {
                    name: nv,
                    ..
                } && n@ == nv,
                Err(e) => e == DomError::NotAnElement && !(self@.nodes[target.idx as int].data
                    is Element),
            },
    {
        match &self.nodes[target.idx].data {
            NodeData::Element { name, .. } => Ok(name),
            _ => Err(DomError::NotAnElement),
        }
    }

    /// Whether an element is a mathml annotation-xml integration point; an
    /// error on any other node.
    pub fn is_mathml_annotation_xml_integration_point(&self, target: Handle) -> (r: Result<
        bool,
        DomError,
    >)
        requires
            self.wf(),
            self.spec_valid(target),
        ensures
            match r {
                Ok(b) => self@.nodes[target.idx as int].data matches DataView::Element {
                    mathml_annotation_xml_integration_point: p,
                    ..
                } && b == p,
                Err(e) => e == DomError::NotAnElement && !(self@.nodes[target.idx as int].data
                    is Element),
            },
    {
        match &self.nodes[target.idx].data {
            NodeData::Element { mathml_annotation_xml_integration_point, .. } => Ok(
                *mathml_annotation_xml_integration_point,
            ),
            _ => Err(DomError::NotAnElement),
        }
    }

    /// Add each given attribute to the element unless one of that name is
    /// already present; existing values are never overwritten.
    pub fn add_attrs_if_missing(&mut self, target: Handle, attrs: Vec<Attr>) -> (r: Result<
        (),
        DomError,
    >)
        requires
            old(self).wf(),
            old(self).spec_valid(target),
        ensures
            final(self).wf(),
            old(self).coalesced() ==> final(self).coalesced(),
            match r {
                Ok(()) => old(self)@.nodes[target.idx as int].data is Element && final(self)@
                    == set_attrs_m(
                    old(self)@,
                    target.idx as int,
                    merge_attrs_m(
                        attrs_of(old(self)@, target.idx as int),
                        attrs@.map_values(|a: Attr| a@),
                    ),
                ),
                Err(e) => e == DomError::NotAnElement && !(old(self)@.nodes[target.idx as int].data
                    is Element) && final(self)@ == old(self)@,
            },
    {
        let ghost d = self@;
        let ghost tgt = target.idx as int;
        let ghost olda = attrs_of(d, tgt);
        let ghost newa = attrs@.map_values(|a: Attr| a@);
        let ghost pred = |a: AttrView| !has_attr_name(olda, a.name);
        let mut tmp = Node { data: NodeData::Document, parent: None, children: Vec::new() };
        core::mem::swap(&mut tmp, &mut self.nodes[target.idx]);
        let Node { data, parent, children } = tmp;
        match data {
            NodeData::Element {
                name,
                attrs: mut ea,
                template_contents,
                mathml_annotation_xml_integration_point,
            } => {
                proof {
                    assert(d.nodes[tgt].data matches DataView::Element { attrs: av, .. } && av
                        == ea@.map_values(|a: Attr| a@));
                }
                let orig_len = ea.len();
                let n = attrs.len();
                let mut i: usize = 0;
                proof {
                    assert(newa.subrange(0, 0) =~= Seq::<AttrView>::empty());
                    assert(newa.subrange(0, 0).filter(pred) =~= Seq::<AttrView>::empty());
                    assert(ea@.map_values(|a: Attr| a@) =~= merge_attrs_m(
                        olda,
                        newa.subrange(0, 0),
                    ));
                }
                while i < n
                    invariant
                        i <= n,
                        n == attrs@.len(),
                        orig_len == olda.len(),
                        newa == attrs@.map_values(|a: Attr| a@),
                        pred == (|a: AttrView| !has_attr_name(olda, a.name)),
                        forall|w: int| 0 <= w < olda.len() ==> #[trigger] ea@[w]@ == olda[w],
                        ea@.map_values(|a: Attr| a@) == merge_attrs_m(
                            olda,
                            newa.subrange(0, i as int),
                        ),
                    decreases n - i,
                {
                    let ghost cur = merge_attrs_m(olda, newa.subrange(0, i as int));
                    let aname = attrs[i].name.clone();
                    let avalue = attrs[i].value.clone();
                    proof {
                        assert(aname@ == newa[i as int].name);
                        assert(cur.len() == ea@.len());
                        assert(olda.len() <= cur.len());
                    }
                    let mut present = false;
                    let mut j: usize = 0;
                    while j < orig_len
                        invariant
                            j <= orig_len,
                            orig_len == olda.len(),
                            olda.len() <= ea@.len(),
                            forall|w: int|
                                0 <= w < olda.len() ==> #[trigger] ea@[w]@ == olda[w],
                            aname@ == newa[i as int].name,
                            i < n,
                            n == attrs@.len(),
                            newa == attrs@.map_values(|a: Attr| a@),
                            present ==> has_attr_name(olda, aname@),
                            !present ==> forall|w: int|
                                0 <= w < j ==> #[trigger] olda[w].name != aname@,
                        decreases orig_len - j,
                    {
                        let nm = ea[j].name.clone();
                        proof {
                            assert(ea@[j as int]@ == olda[j as int]);
                            assert(nm@ == olda[j as int].name);
                        }
                        if nm == aname {
                            present = true;
                            proof {
                                assert(olda[j as int].name == aname@);
                                assert(has_attr_name(olda, aname@));
                            }
                        }
                        j = j + 1;
                    }
                    proof {
                        assert(j == orig_len);
                    }
                    proof {
                        if present {
                            assert(has_attr_name(olda, newa[i as int].name));
                        } else {
                            assert(forall|w: int|
                                0 <= w < olda.len() ==> #[trigger] olda[w].name != aname@);
                            assert(!has_attr_name(olda, newa[i as int].name));
                        }
                    }
                    if !present {
                        ea.push(Attr { name: aname, value: avalue });
                    }
                    proof {
                        reveal_with_fuel(Seq::filter, 2);
                        let sub1 = newa.subrange(0, i + 1);
                        assert(sub1.len() == i + 1);
                        assert(sub1.drop_last() =~= newa.subrange(0, i as int));
                        assert(sub1.drop_last() == newa.subrange(0, i as int));
                        assert(sub1.last() == newa[i as int]);
                        assert(sub1.filter(pred) == if pred(sub1.last()) {
                            sub1.drop_last().filter(pred).push(sub1.last())
                        } else {
                            sub1.drop_last().filter(pred)
                        });
                        assert(sub1.filter(pred) == if pred(newa[i as int]) {
                            newa.subrange(0, i as int).filter(pred).push(newa[i as int])
                        } else {
                            newa.subrange(0, i as int).filter(pred)
                        });
                        if !present {
                            assert(pred(newa[i as int]));
                            assert(merge_attrs_m(olda, sub1) =~= cur.push(newa[i as int]));
                            assert(ea@.map_values(|a: Attr| a@) =~= merge_attrs_m(olda, sub1));
                        } else {
                            assert(!pred(newa[i as int]));
                            assert(merge_attrs_m(olda, sub1) =~= cur);
                            assert(ea@.map_values(|a: Attr| a@) == merge_attrs_m(olda, sub1));
                        }
                    }
                    i = i + 1;
                }
                proof {
                    assert(newa.subrange(0, n as int) =~= newa);
                }
                let mut back = Node {
                    data: NodeData::Element {
                        name,
                        attrs: ea,
                        template_contents,
                        mathml_annotation_xml_integration_point,
                    },
                    parent,
                    children,
                };
                core::mem::swap(&mut back, &mut self.nodes[target.idx]);
                proof {
                    let want = set_attrs_m(d, tgt, merge_attrs_m(olda, newa));
                    assert(self@.nodes =~~= want.nodes);
                    assert(self@ =~~= want);
                    lemma_set_attrs_preserves(d, tgt, merge_attrs_m(olda, newa));
                }
                Ok(())
            },
            other => {
                let mut back = Node { data: other, parent, children };
                core::mem::swap(&mut back, &mut self.nodes[target.idx]);
                proof {
                    assert(self@.nodes =~~= d.nodes);
                    assert(self@ =~~= d);
                }
                Err(DomError::NotAnElement)
            },
        }
    }

    /// Sink alias for [`Dom::detach`].
    pub fn remove_from_parent(&mut self, target: Handle)
        requires
            old(self).wf(),
            old(self).spec_valid(target),
        ensures
            final(self)@ == detach_m(old(self)@, target.idx as int),
            final(self).wf(),
            final(self)@.nodes[target.idx as int].parent is None,
            old(self).coalesced() && detach_junction_ok(old(self)@, target.idx as int)
                ==> final(self).coalesced(),
    {
        self.detach(target)
    }

    /// Consume the tree at the end of construction and hand it back.
    pub fn finish(self) -> (r: Dom)
        ensures
            r == self,
    {
        self
    }
}

impl Default for Dom {
    /// A fresh tree holding only its document root.
    fn default() -> (d: Dom)
        ensures
            d.wf(),
            d.coalesced(),
            d@.nodes.len() == 1,
            d@.nodes[0].data is Document,
            d@.nodes[0].children.len() == 0,
            d@.errors.len() == 0,
            d@.quirks_mode == QuirksMode::NoQuirks,
    {
        Dom::new()
    }
}

} // verus!

verus! {

/// Would moving the children of `from` merge the first of them into `to`'s
/// current last child?
pub open spec fn reparent_coalesces(d: DomView, from: int, to: int) -> bool {
    &&& d.nodes[from].children.len() > 0
    &&& is_text(d, d.nodes[from].children[0])
    &&& d.nodes[to].children.len() > 0
    &&& is_text(d, d.nodes[to].children.last())
}

/// The tree after the first `j` children of `from` have been handled: the
/// child list of `from` is already taken, handled children hang off `to`
/// (the first possibly absorbed into `to`'s old last text child), and the
/// rest still carry their old back-reference.
pub open spec fn reparent_mid(d: DomView, from: int, to: int, j: int) -> DomView {
    let cs = d.nodes[from].children;
    let co = reparent_coalesces(d, from, to);
    let t = d.nodes[to].children.last();
    let moved = if co && j > 0 {
        cs.subrange(1, j)
    } else {
        cs.subrange(0, j)
    };
    (DomView {
        nodes: Seq::new(
            d.nodes.len(),
            |i: int|
                (NodeView {
                    data: if co && j > 0 && i == t {
                        (DataView::Text {
                            contents: text_contents(d.nodes[t].data) + text_contents(
                                d.nodes[cs[0]].data,
                            ),
                        })
                    } else {
                        d.nodes[i].data
                    },
                    parent: if moved.contains(i) {
                        Some(to)
                    } else if co && j > 0 && i == cs[0] {
                        None
                    } else {
                        d.nodes[i].parent
                    },
                    children: if i == from {
                        Seq::empty()
                    } else if i == to {
                        d.nodes[to].children + moved
                    } else {
                        d.nodes[i].children
                    },
                }),
        ),
        ..d
    })
}

/// The tree after all children of `from` were moved onto the end of `to`.
pub open spec fn reparent_ok(d: DomView, from: int, to: int) -> DomView {
    reparent_mid(d, from, to, d.nodes[from].children.len() as int)
}

/// Moving every child of `from` onto `to` preserves both invariants.
pub proof fn lemma_reparent_preserves(d: DomView, from: int, to: int)
    requires
        wf(d),
        valid_id(d, from),
        valid_id(d, to),
        !ancestor_blocked(d, to, from, d.nodes.len() as nat),
    ensures
        wf(reparent_ok(d, from, to)),
        text_coalesced(d) ==> text_coalesced(reparent_ok(d, from, to)),
{
    let d2 = reparent_ok(d, from, to);
    let cs = d.nodes[from].children;
    let co = reparent_coalesces(d, from, to);
    let t = d.nodes[to].children.last();
    let ts = d.nodes[to].children;
    let moved = if co && cs.len() > 0 {
        cs.subrange(1, cs.len() as int)
    } else {
        cs.subrange(0, cs.len() as int)
    };
    assert(cs.subrange(0, cs.len() as int) =~= cs);
    assert(from != to);
    // `to` is not a child of `from`: one guard step would have met `from`.
    assert(d.nodes[to].parent != Some(from)) by {
        if d.nodes[to].parent == Some(from) {
            assert(d.nodes.len() >= 1);
            assert(ancestor_blocked(d, from, from, (d.nodes.len() - 1) as nat));
            assert(ancestor_blocked(d, to, from, d.nodes.len() as nat));
        }
    }
    assert(!cs.contains(to)) by {
        if cs.contains(to) {
            let w = choose|w: int| 0 <= w < cs.len() && cs[w] == to;
            assert(d.nodes[to].parent == Some(from));
        }
    }
    // Members of cs are valid, have parent `from`, and are distinct.
    assert(forall|w: int| 0 <= w < cs.len() ==> valid_id(d, #[trigger] cs[w]) && d.nodes[cs[w]].parent == Some(from));
    if co {
        assert(moved =~= cs.subrange(1, cs.len() as int));
        assert(valid_id(d, t));
        assert(d.nodes[t].parent == Some(to));
    }
    assert(forall|x: int| moved.contains(x) ==> cs.contains(x));
    assert(forall|x: int| #[trigger] cs.contains(x) ==> valid_id(d, x) && d.nodes[x].parent == Some(from));
    assert(d2.nodes.len() == d.nodes.len());
    // Pointwise facts.
    assert(d2.nodes[from].children =~= Seq::<int>::empty());
    assert(d2.nodes[to].children == ts + moved);
    assert(forall|i: int|
        0 <= i < d.nodes.len() && i != from && i != to ==> #[trigger] d2.nodes[i].children
            == d.nodes[i].children);
    assert(forall|i: int|
        0 <= i < d.nodes.len() && !(co && i == t) ==> #[trigger] d2.nodes[i].data
            == d.nodes[i].data);
    assert(forall|i: int|
        0 <= i < d.nodes.len() && !moved.contains(i) && !(co && cs.len() > 0 && i == cs[0])
            ==> #[trigger] d2.nodes[i].parent == d.nodes[i].parent);
    assert(forall|i: int| moved.contains(i) && 0 <= i < d.nodes.len() ==> #[trigger] d2.nodes[i].parent == Some(to));
    // is_text is unchanged: `t` stays a text node.
    assert(forall|x: int| #[trigger] is_text(d2, x) == is_text(d, x));
    // wf_links
    assert forall|i: int, k: int|
        0 <= i < d2.nodes.len() && 0 <= k < d2.nodes[i].children.len() implies {
        let x = #[trigger] d2.nodes[i].children[k];
        valid_id(d2, x) && d2.nodes[x].parent == Some(i)
    } by {
        if i == to {
            if k < ts.len() {
                let x = ts[k];
                assert(d2.nodes[i].children[k] == x);
                assert(d.nodes[x].parent == Some(to));
                assert(!cs.contains(x)) by {
                    if cs.contains(x) {
                        assert(d.nodes[x].parent == Some(from));
                    }
                }
                assert(!moved.contains(x));
                assert(!(co && cs.len() > 0 && x == cs[0])) by {
                    if co && x == cs[0] {
                        assert(cs.contains(x));
                    }
                }
                assert(d2.nodes[x].parent == Some(to));
            } else {
                let x = moved[k - ts.len()];
                assert(d2.nodes[i].children[k] == x);
                assert(moved.contains(x));
                assert(d2.nodes[x].parent == Some(to));
            }
        } else if i == from {
        } else {
            let x = d.nodes[i].children[k];
            assert(d2.nodes[i].children[k] == x);
            assert(d.nodes[x].parent == Some(i));
            assert(!cs.contains(x)) by {
                if cs.contains(x) {
                    assert(d.nodes[x].parent == Some(from));
                }
            }
            assert(!moved.contains(x));
            assert(!(co && cs.len() > 0 && x == cs[0])) by {
                if co && x == cs[0] {
                    assert(cs.contains(x));
                }
            }
            assert(d2.nodes[x].parent == d.nodes[x].parent);
        }
    }
    assert(wf_links(d2));
    // wf_distinct
    assert forall|i: int, k1: int, k2: int|
        0 <= i < d2.nodes.len() && 0 <= k1 < k2 < d2.nodes[i].children.len()
            implies #[trigger] d2.nodes[i].children[k1] != #[trigger] d2.nodes[i].children[k2] by {
        if i == to {
            if k1 < ts.len() && k2 >= ts.len() {
                let x1 = ts[k1];
                let x2 = moved[k2 - ts.len()];
                assert(d.nodes[x1].parent == Some(to));
                assert(cs.contains(x2));
                assert(d.nodes[x2].parent == Some(from));
            } else if k1 >= ts.len() {
                let a1 = k1 - ts.len();
                let a2 = k2 - ts.len();
                if co {
                    assert(moved[a1] == cs[a1 + 1]);
                    assert(moved[a2] == cs[a2 + 1]);
                } else {
                    assert(moved[a1] == cs[a1]);
                    assert(moved[a2] == cs[a2]);
                }
            }
        }
    }
    assert(wf_distinct(d2));
    // wf_parent
    assert forall|i: int|
        0 <= i < d2.nodes.len() && (#[trigger] d2.nodes[i].parent) is Some implies {
        let q = d2.nodes[i].parent->0;
        valid_id(d2, q) && d2.nodes[q].children.contains(i)
    } by {
        let q = d2.nodes[i].parent->0;
        if moved.contains(i) {
            assert(q == to);
            let w = choose|w: int| 0 <= w < moved.len() && moved[w] == i;
            assert((ts + moved)[ts.len() + w] == i);
            assert(d2.nodes[to].children.contains(i));
        } else if co && cs.len() > 0 && i == cs[0] {
            assert(false);
        } else {
            assert(d2.nodes[i].parent == d.nodes[i].parent);
            assert(d.nodes[q].children.contains(i));
            let w = choose|w: int| 0 <= w < d.nodes[q].children.len() && d.nodes[q].children[w] == i;
            assert(q != from) by {
                if q == from {
                    assert(cs.contains(i));
                    if co && i == cs[0] {
                    } else {
                        if co {
                            let v = choose|v: int| 0 <= v < cs.len() && cs[v] == i;
                            assert(v != 0);
                            assert(moved[v - 1] == cs[v]);
                            assert(moved.contains(i));
                        } else {
                            assert(moved.contains(i));
                        }
                    }
                }
            }
            if q == to {
                assert((ts + moved)[w] == i);
                assert(d2.nodes[to].children.contains(i));
            } else {
                assert(d2.nodes[q].children.contains(i));
            }
        }
    }
    assert(wf_parent(d2));
    // wf_self
    assert forall|i: int| 0 <= i < d2.nodes.len() implies (#[trigger] d2.nodes[i].parent) != Some(
        i,
    ) by {
        if moved.contains(i) {
            assert(!cs.contains(to));
            assert(i != to);
        }
    }
    assert(wf_self(d2));
    // wf_document
    assert forall|i: int|
        0 <= i < d2.nodes.len() && (#[trigger] d2.nodes[i].data) is Document implies d2.nodes[i].parent
        is None by {
        assert(d2.nodes[i].data == d.nodes[i].data || (co && i == t));
        if co && i == t {
        } else {
            assert(d.nodes[i].data is Document);
            assert(d.nodes[i].parent is None);
            if moved.contains(i) {
                assert(d.nodes[i].parent == Some(from));
            }
            if co && cs.len() > 0 && i == cs[0] {
                assert(d.nodes[i].parent == Some(from));
            }
        }
    }
    assert(d2.nodes[0].data is Document);
    assert(wf_document(d2));
    // wf_template
    assert forall|i: int|
        0 <= i < d2.nodes.len() implies ((#[trigger] d2.nodes[i].data) matches DataView::Element {
        template_contents: Some(tc),
        ..
    } ==> valid_id(d2, tc) && d2.nodes[tc].data is Document) by {
        match d2.nodes[i].data {
            DataView::Element { template_contents: Some(tc), .. } => {
                assert(d2.nodes[i].data == d.nodes[i].data);
                assert(valid_id(d, tc) && d.nodes[tc].data is Document);
                assert(d2.nodes[tc].data == d.nodes[tc].data || (co && tc == t));
            },
            _ => {},
        }
    }
    assert(wf_template(d2));
    // coalescing
    if text_coalesced(d) {
        assert forall|i: int, k: int|
            0 <= i < d2.nodes.len() && 0 <= k && k + 1 < d2.nodes[i].children.len()
                implies !(is_text(d2, #[trigger] d2.nodes[i].children[k]) && is_text(
            d2,
            d2.nodes[i].children[k + 1],
        )) by {
            if i == to {
                let nw = ts + moved;
                if k + 1 < ts.len() {
                    assert(nw[k] == ts[k]);
                    assert(nw[k + 1] == ts[k + 1]);
                } else if k + 1 == ts.len() {
                    assert(nw[k] == ts[k]);
                    assert(nw[k + 1] == moved[0]);
                } else {
                    let a = k - ts.len();
                    if a >= 0 {
                        if co {
                            assert(nw[k] == cs[a + 1]);
                            assert(nw[k + 1] == cs[a + 2]);
                            assert(!(is_text(d, cs[a + 1]) && is_text(d, cs[a + 2])));
                        } else {
                            assert(nw[k] == cs[a]);
                            assert(nw[k + 1] == cs[a + 1]);
                            assert(!(is_text(d, cs[a]) && is_text(d, cs[a + 1])));
                        }
                    }
                }
                if k + 1 == ts.len() && moved.len() > 0 {
                    // junction between the old last child of `to` and the
                    // first moved child
                    if co {
                        assert(nw[k + 1] == cs[1]);
                        assert(!(is_text(d, cs[0]) && is_text(d, cs[1])));
                        assert(is_text(d, cs[0]));
                        assert(!is_text(d, cs[1]));
                    } else {
                        assert(nw[k] == t);
                        assert(nw[k + 1] == cs[0]);
                        assert(!(is_text(d, t) && is_text(d, cs[0])));
                    }
                }
            } else if i == from {
            } else {
                assert(d2.nodes[i].children == d.nodes[i].children);
            }
        }
    }
}

} // verus!

verus! {

impl Dom {
    /// Atomically move the full child list of `from` onto the end of `to`'s
    /// child list, updating every moved child's back-reference; `from` ends
    /// with no children.  Fails with `WouldCycle` when the guard walk meets
    /// `from` on `to`'s ancestor chain (in particular when the two are the
    /// same node).
    pub fn reparent_all_children(&mut self, from: Handle, to: Handle) -> (r: Result<(), DomError>)
        requires
            old(self).wf(),
            old(self).spec_valid(from),
            old(self).spec_valid(to),
        ensures
            final(self).wf(),
            old(self).coalesced() ==> final(self).coalesced(),
            match r {
                Ok(()) => !ancestor_blocked(
                    old(self)@,
                    to.idx as int,
                    from.idx as int,
                    old(self)@.nodes.len() as nat,
                ) && final(self)@ == reparent_ok(old(self)@, from.idx as int, to.idx as int),
                Err(e) => e == DomError::WouldCycle && ancestor_blocked(
                    old(self)@,
                    to.idx as int,
                    from.idx as int,
                    old(self)@.nodes.len() as nat,
                ) && final(self)@ == old(self)@,
            },
    {
        let ghost d = self@;
        let ghost fi = from.idx as int;
        let ghost ti = to.idx as int;
        if self.is_blocked(to, from) {
            return Err(DomError::WouldCycle);
        }
        proof {
            assert(fi != ti) by {
                if fi == ti {
                    assert(ancestor_blocked(d, ti, fi, d.nodes.len() as nat));
                }
            }
        }
        let ghost cs = d.nodes[fi].children;
        let ghost co = reparent_coalesces(d, fi, ti);
        let ghost t = d.nodes[ti].children.last();
        let mut cs_vec: Vec<Handle> = Vec::new();
        core::mem::swap(&mut cs_vec, &mut self.nodes[from.idx].children);
        proof {
            assert(cs_vec@.map_values(|h: Handle| h.idx as int) == cs);
            assert(cs.subrange(0, 0) =~= Seq::<int>::empty());
            assert(self@.nodes =~~= reparent_mid(d, fi, ti, 0).nodes);
            assert(self@ =~~= reparent_mid(d, fi, ti, 0));
            // The children of `from` are distinct, valid, non-document
            // nodes whose parent is `from`.
            assert(forall|w: int|
                0 <= w < cs.len() ==> valid_id(d, #[trigger] cs[w]) && d.nodes[cs[w]].parent
                    == Some(fi));
            assert(forall|w1: int, w2: int|
                0 <= w1 < w2 < cs.len() ==> #[trigger] cs[w1] != #[trigger] cs[w2]);
            assert(!cs.contains(ti)) by {
                if cs.contains(ti) {
                    let w = choose|w: int| 0 <= w < cs.len() && cs[w] == ti;
                    assert(d.nodes[ti].parent == Some(fi));
                    assert(d.nodes.len() >= 1);
                    assert(ancestor_blocked(d, fi, fi, (d.nodes.len() - 1) as nat));
                    assert(ancestor_blocked(d, ti, fi, d.nodes.len() as nat));
                }
            }
        }
        let n = cs_vec.len();
        let mut j: usize = 0;
        if n > 0 {
            let c0 = cs_vec[0];
            proof {
                assert(cs[0] == c0.idx as int);
                assert(valid_id(d, c0.idx as int));
            }
            let to_cnt = self.nodes[to.idx].children.len();
            if to_cnt > 0 && matches!(self.nodes[c0.idx].data, NodeData::Text { .. }) {
                let tl = self.nodes[to.idx].children[to_cnt - 1];
                proof {
                    assert(d.nodes[ti].children[to_cnt - 1] == tl.idx as int);
                    assert(tl.idx as int == t);
                    assert(valid_id(d, t));
                }
                if matches!(self.nodes[tl.idx].data, NodeData::Text { .. }) {
                    proof {
                        assert(co);
                        // The absorbed child is not the merge target.
                        assert(d.nodes[t].parent == Some(ti));
                        assert(d.nodes[c0.idx as int].parent == Some(fi));
                        assert(c0.idx as int != t);
                    }
                    let addition: String = if let NodeData::Text { contents } =
                        &self.nodes[c0.idx].data {
                        contents.clone()
                    } else {
                        proof {
                            assert(false);
                        }
                        String::new()
                    };
                    if let NodeData::Text { contents } = &mut self.nodes[tl.idx].data {
                        contents.append(addition.as_str());
                    } else {
                        proof {
                            assert(false);
                        }
                    }
                    self.nodes[c0.idx].parent = None;
                    j = 1;
                    proof {
                        assert(cs.subrange(1, 1) =~= Seq::<int>::empty());
                        assert(self@.nodes =~~= reparent_mid(d, fi, ti, 1).nodes);
                        assert(self@ =~~= reparent_mid(d, fi, ti, 1));
                    }
                }
            }
            proof {
                if j == 0 {
                    assert(!co);
                }
            }
        } else {
            proof {
                assert(!co);
            }
        }
        while j < n
            invariant
                self@ == reparent_mid(d, fi, ti, j as int),
                wf(d),
                valid_id(d, fi),
                valid_id(d, ti),
                fi != ti,
                from.idx as int == fi,
                to.idx as int == ti,
                cs == d.nodes[fi].children,
                co == reparent_coalesces(d, fi, ti),
                t == d.nodes[ti].children.last(),
                cs_vec@.map_values(|h: Handle| h.idx as int) == cs,
                n == cs_vec@.len(),
                n == cs.len(),
                j <= n,
                co ==> j >= 1,
                forall|w: int|
                    0 <= w < cs.len() ==> valid_id(d, #[trigger] cs[w]) && d.nodes[cs[w]].parent
                        == Some(fi),
                forall|w1: int, w2: int|
                    0 <= w1 < w2 < cs.len() ==> #[trigger] cs[w1] != #[trigger] cs[w2],
                !cs.contains(ti),
            decreases n - j,
        {
            let c = cs_vec[j];
            proof {
                assert(cs[j as int] == c.idx as int);
                assert(valid_id(d, c.idx as int));
                assert(c.idx as int != fi) by {
                    if c.idx as int == fi {
                        assert(d.nodes[fi].parent == Some(fi));
                    }
                }
                assert(c.idx as int != ti) by {
                    if c.idx as int == ti {
                        assert(cs.contains(ti));
                    }
                }
                if co {
                    assert(d.nodes[t].parent == Some(ti));
                    assert(c.idx as int != t);
                    assert(c.idx as int != cs[0]);
                }
            }
            proof {
                assert(self@.nodes.len() == d.nodes.len());
                assert(self.nodes@.len() == d.nodes.len());
            }
            self.nodes[c.idx].parent = Some(to);
            self.nodes[to.idx].children.push(c);
            proof {
                let jj = j as int;
                if co {
                    assert(cs.subrange(1, jj + 1) =~= cs.subrange(1, jj).push(cs[jj]));
                } else {
                    assert(cs.subrange(0, jj + 1) =~= cs.subrange(0, jj).push(cs[jj]));
                }
                let movedj = if co { cs.subrange(1, jj) } else { cs.subrange(0, jj) };
                assert(!movedj.contains(c.idx as int)) by {
                    if movedj.contains(c.idx as int) {
                        let w = choose|w: int|
                            0 <= w < movedj.len() && movedj[w] == c.idx as int;
                        if co {
                            assert(movedj[w] == cs[w + 1]);
                            assert(w + 1 < jj);
                        } else {
                            assert(movedj[w] == cs[w]);
                        }
                    }
                }
                let moved1 = if co { cs.subrange(1, jj + 1) } else { cs.subrange(0, jj + 1) };
                assert(moved1 == movedj.push(cs[jj]));
                assert forall|x: int| #[trigger] moved1.contains(x) implies movedj.contains(x) || x
                    == cs[jj] by {
                    let w = choose|w: int| 0 <= w < moved1.len() && moved1[w] == x;
                    if w < movedj.len() {
                        assert(movedj[w] == x);
                    }
                }
                assert(forall|x: int| movedj.contains(x) ==> #[trigger] moved1.contains(x)) by {
                    assert(forall|w: int|
                        0 <= w < movedj.len() ==> moved1[w] == #[trigger] movedj[w]);
                }
                assert(moved1.contains(cs[jj])) by {
                    assert(moved1[moved1.len() - 1] == cs[jj]);
                }
                assert((d.nodes[ti].children + movedj).push(cs[jj]) =~= d.nodes[ti].children
                    + moved1);
                assert(!moved1.contains(ti)) by {
                    if moved1.contains(ti) {
                        let w = choose|w: int| 0 <= w < moved1.len() && moved1[w] == ti;
                        if co {
                            assert(cs[w + 1] == ti);
                            assert(cs.contains(ti));
                        } else {
                            assert(cs[w] == ti);
                            assert(cs.contains(ti));
                        }
                    }
                }
                if co {
                    assert(!moved1.contains(cs[0])) by {
                        if moved1.contains(cs[0]) {
                            let w = choose|w: int| 0 <= w < moved1.len() && moved1[w] == cs[0];
                            assert(cs[w + 1] == cs[0]);
                        }
                    }
                }
                if co {
                    assert(t != ti) by {
                        if t == ti {
                            assert(d.nodes[ti].children[d.nodes[ti].children.len() - 1] == ti);
                            assert(d.nodes[ti].parent == Some(ti));
                        }
                    }
                }
                let md = reparent_mid(d, fi, ti, jj);
                let md1 = reparent_mid(d, fi, ti, jj + 1);
                assert((d.nodes[ti].children + movedj).push(cs[jj]) == d.nodes[ti].children
                    + moved1);
                assert forall|i: int| 0 <= i < d.nodes.len() implies self@.nodes[i] == md1.nodes[i]
                    by {
                    let ci = c.idx as int;
                    assert(md1.nodes[i].children == if i == fi {
                        Seq::<int>::empty()
                    } else if i == ti {
                        d.nodes[ti].children + moved1
                    } else {
                        d.nodes[i].children
                    });
                    if i == ci {
                        assert(self@.nodes[i].parent == Some(ti));
                        assert(moved1.contains(ci));
                        assert(self@.nodes[i].children == md.nodes[i].children);
                        assert(self@.nodes[i].data == md.nodes[i].data);
                    } else if i == ti {
                        assert(self@.nodes[i].children == md.nodes[ti].children.push(ci));
                        assert(self@.nodes[i].parent == md.nodes[i].parent);
                        assert(!moved1.contains(ti));
                        assert(self@.nodes[i].data == md.nodes[i].data);
                        if co {
                            assert(i != t);
                        }
                    } else {
                        assert(self@.nodes[i] == md.nodes[i]);
                        if movedj.contains(i) {
                            assert(moved1.contains(i));
                        } else if co && i == cs[0] {
                            assert(!moved1.contains(i));
                        } else {
                            assert(!moved1.contains(i) || i == ci);
                        }
                    }
                }
                assert(self@.nodes =~~= md1.nodes);
                assert(self@ =~~= reparent_mid(d, fi, ti, jj + 1));
            }
            j = j + 1;
        }
        proof {
            assert(self@ == reparent_ok(d, fi, ti));
            lemma_reparent_preserves(d, fi, ti);
        }
        Ok(())
    }

    /// Sink alias for [`Dom::reparent_all_children`].
    pub fn reparent_children(&mut self, node: Handle, new_parent: Handle) -> (r: Result<
        (),
        DomError,
    >)
        requires
            old(self).wf(),
            old(self).spec_valid(node),
            old(self).spec_valid(new_parent),
        ensures
            final(self).wf(),
            old(self).coalesced() ==> final(self).coalesced(),
            match r {
                Ok(()) => !ancestor_blocked(
                    old(self)@,
                    new_parent.idx as int,
                    node.idx as int,
                    old(self)@.nodes.len() as nat,
                ) && final(self)@ == reparent_ok(
                    old(self)@,
                    node.idx as int,
                    new_parent.idx as int,
                ),
                Err(e) => e == DomError::WouldCycle && ancestor_blocked(
                    old(self)@,
                    new_parent.idx as int,
                    node.idx as int,
                    old(self)@.nodes.len() as nat,
                ) && final(self)@ == old(self)@,
            },
    {
        self.reparent_all_children(node, new_parent)
    }
}

} // verus!

verus! {

// ---------------------------------------------------------------------------
// Laws
// ---------------------------------------------------------------------------

/// Law: the sink's text append preserves both invariants — after any
/// sequence of text appends every parent's child list holds no two adjacent
/// text nodes and every back-reference points to the true parent.
pub proof fn lemma_append_text_preserves_invariants(d: DomView, p: int, s: Seq<char>)
    requires
        wf(d),
        valid_id(d, p),
    ensures
        wf(append_text_m(d, p, s)),
        text_coalesced(d) ==> text_coalesced(append_text_m(d, p, s)),
{
    if d.nodes[p].children.len() > 0 && is_text(d, d.nodes[p].children.last()) {
        let t = d.nodes[p].children.last();
        assert(append_text_m(d, p, s) =~~= set_text_m(d, t, text_contents(d.nodes[t].data) + s));
        lemma_set_text_preserves(d, t, text_contents(d.nodes[t].data) + s);
    } else {
        let d1 = new_node_m(d, (DataView::Text { contents: s }));
        let c = d.nodes.len() as int;
        lemma_new_node_preserves_invariants(d, (DataView::Text { contents: s }));
        lemma_attach_is_insert_at_end(d1, p, c);
        assert(d1.nodes[p].children == d.nodes[p].children);
        lemma_insert_at_preserves(d1, p, d1.nodes[p].children.len() as int, c);
        assert(insert_junction_ok(d1, p, d1.nodes[p].children.len() as int, c)) by {
            let cs = d1.nodes[p].children;
            if cs.len() > 0 {
                assert(!is_text(d, d.nodes[p].children.last()));
                assert(!is_text(d1, cs[cs.len() - 1]));
            }
        }
    }
}

/// Law: an accepted `insert_before` preserves both invariants, provided the
/// inserted node's old position was not flanked by two text nodes.
pub proof fn lemma_insert_before_preserves_invariants(d: DomView, s: int, x: int)
    requires
        wf(d),
        valid_id(d, s),
        valid_id(d, x),
        insert_before_err(d, s, x) is None,
        detach_junction_ok(d, x),
    ensures
        wf(insert_before_ok(d, s, x)),
        text_coalesced(d) ==> text_coalesced(insert_before_ok(d, s, x)),
{
    if x == s {
    } else {
        let p = d.nodes[s].parent->0;
        assert(valid_id(d, p));
        let d1 = detach_m(d, x);
        lemma_detach_preserves_wf(d, x);
        // The reference sibling keeps its parent and stays in its list.
        assert(d1.nodes[s].parent == Some(p) && d1.nodes[p].children.contains(s)) by {
            match d.nodes[x].parent {
                None => {
                    assert(d1 == d);
                },
                Some(q) => {
                    let csq = d.nodes[q].children;
                    let kq = csq.index_of(x);
                    assert(csq.contains(x));
                    assert(0 <= kq < csq.len() && csq[kq] == x);
                    if q == p {
                        let j = choose|j: int| 0 <= j < csq.len() && csq[j] == s;
                        assert(csq[j] == s);
                        assert(j != kq);
                        if j < kq {
                            assert(csq.remove(kq)[j] == s);
                        } else {
                            assert(csq.remove(kq)[j - 1] == csq[j]);
                        }
                        assert(d1.nodes[p].children.contains(s));
                    } else {
                        assert(d1.nodes[p].children == d.nodes[p].children);
                        assert(d.nodes[p].children.contains(s));
                    }
                },
            }
        }
        let k = d1.nodes[p].children.index_of(s);
        assert(0 <= k < d1.nodes[p].children.len() && d1.nodes[p].children[k] == s);
        let csp = d1.nodes[p].children;
        if d1.nodes[x].data is Text && k > 0 && is_text(d1, csp[k - 1]) {
            let t = csp[k - 1];
            assert(insert_before_ok(d, s, x) =~~= set_text_m(
                d1,
                t,
                text_contents(d1.nodes[t].data) + text_contents(d1.nodes[x].data),
            ));
            lemma_set_text_preserves(
                d1,
                t,
                text_contents(d1.nodes[t].data) + text_contents(d1.nodes[x].data),
            );
        } else if d1.nodes[x].data is Text && d1.nodes[s].data is Text {
            lemma_set_text_preserves(
                d1,
                s,
                text_contents(d1.nodes[x].data) + text_contents(d1.nodes[s].data),
            );
        } else {
            assert(p != x) by {
                if p == x {
                    assert(ancestor_blocked(d, p, x, d.nodes.len() as nat));
                }
            }
            lemma_insert_at_preserves(d1, p, k, x);
            assert(insert_junction_ok(d1, p, k, x)) by {
                if d1.nodes[x].data is Text {
                    assert(!(k > 0 && is_text(d1, csp[k - 1])));
                    assert(csp[k] == s);
                    assert(!(d1.nodes[s].data is Text));
                }
            }
        }
    }
}

/// Law: detaching a node clears its back-reference, and the node can then
/// be appended under another node — one that is not its own descendant and
/// whose last child will not absorb it — without violating the structural
/// or coalescing invariants.
pub proof fn lemma_detach_then_append(d: DomView, n: int, p: int)
    requires
        wf(d),
        text_coalesced(d),
        valid_id(d, n),
        valid_id(d, p),
        !(d.nodes[n].data is Document),
        detach_junction_ok(d, n),
        !ancestor_blocked(detach_m(d, n), p, n, d.nodes.len() as nat),
        !appends_coalesce(detach_m(d, n), p, n),
    ensures
        detach_m(d, n).nodes[n].parent is None,
        append_child_err(detach_m(d, n), p, n) is None,
        wf(append_child_ok(detach_m(d, n), p, n)),
        text_coalesced(append_child_ok(detach_m(d, n), p, n)),
        append_child_ok(detach_m(d, n), p, n).nodes[n].parent == Some(p),
        append_child_ok(detach_m(d, n), p, n).nodes[p].children
            == detach_m(d, n).nodes[p].children.push(n),
{
    lemma_detach_preserves_wf(d, n);
    let d1 = detach_m(d, n);
    assert(d1.nodes.len() == d.nodes.len());
    assert(append_child_err(d1, p, n) is None);
    lemma_append_child_preserves_invariants(d1, p, n);
    let d2 = append_child_ok(d1, p, n);
    assert(p != n) by {
        if p == n {
            assert(ancestor_blocked(d1, p, n, d.nodes.len() as nat));
        }
    }
    assert(d2.nodes[n].parent == Some(p));
    assert(d2.nodes[p].children == d1.nodes[p].children.push(n));
}

} // verus!

verus! {

/// Set the first attribute of this name to the value, or append a new
/// attribute when none of that name exists.
pub open spec fn set_attr_m(attrs: Seq<AttrView>, n: Seq<char>, v: Seq<char>) -> Seq<AttrView>
    decreases attrs.len(),
{
    if attrs.len() == 0 {
        seq![(AttrView { name: n, value: v })]
    } else if attrs[0].name == n {
        seq![(AttrView { name: n, value: v })] + attrs.drop_first()
    } else {
        seq![attrs[0]] + set_attr_m(attrs.drop_first(), n, v)
    }
}

/// The tree with every child of `e` detached and its child list emptied.
pub open spec fn clear_children_m(d: DomView, e: int) -> DomView {
    let cs = d.nodes[e].children;
    (DomView {
        nodes: Seq::new(
            d.nodes.len(),
            |i: int|
                (NodeView {
                    data: d.nodes[i].data,
                    parent: if cs.contains(i) {
                        None
                    } else {
                        d.nodes[i].parent
                    },
                    children: if i == e {
                        Seq::empty()
                    } else {
                        d.nodes[i].children
                    },
                }),
        ),
        ..d
    })
}

/// Emptying a child list preserves the structural invariant and restores
/// the coalescing invariant for that list.
pub proof fn lemma_clear_children_preserves(d: DomView, e: int)
    requires
        wf(d),
        valid_id(d, e),
    ensures
        wf(clear_children_m(d, e)),
        text_coalesced(d) ==> text_coalesced(clear_children_m(d, e)),
{
    let d2 = clear_children_m(d, e);
    let cs = d.nodes[e].children;
    assert(forall|x: int| #[trigger] cs.contains(x) ==> valid_id(d, x) && d.nodes[x].parent == Some(
        e,
    ));
    assert(forall|x: int| #[trigger] is_text(d2, x) == is_text(d, x));
    assert forall|i: int, k: int|
        0 <= i < d2.nodes.len() && 0 <= k < d2.nodes[i].children.len() implies {
        let x = #[trigger] d2.nodes[i].children[k];
        valid_id(d2, x) && d2.nodes[x].parent == Some(i)
    } by {
        if i != e {
            let x = d.nodes[i].children[k];
            assert(d.nodes[x].parent == Some(i));
            if cs.contains(x) {
                assert(d.nodes[x].parent == Some(e));
            }
        }
    }
    assert(wf_links(d2));
    assert(wf_distinct(d2));
    assert forall|i: int|
        0 <= i < d2.nodes.len() && (#[trigger] d2.nodes[i].parent) is Some implies {
        let q = d2.nodes[i].parent->0;
        valid_id(d2, q) && d2.nodes[q].children.contains(i)
    } by {
        let q = d2.nodes[i].parent->0;
        assert(!cs.contains(i));
        assert(d.nodes[i].parent == Some(q));
        assert(d.nodes[q].children.contains(i));
        assert(q != e) by {
            if q == e {
                assert(cs.contains(i));
            }
        }
        assert(d2.nodes[q].children == d.nodes[q].children);
    }
    assert(wf_parent(d2));
    assert(wf_self(d2));
    assert(wf_document(d2));
    assert(wf_template(d2));
    if text_coalesced(d) {
        assert forall|i: int, k: int|
            0 <= i < d2.nodes.len() && 0 <= k && k + 1 < d2.nodes[i].children.len()
                implies !(is_text(d2, #[trigger] d2.nodes[i].children[k]) && is_text(
            d2,
            d2.nodes[i].children[k + 1],
        )) by {
            assert(i != e);
            assert(d2.nodes[i].children == d.nodes[i].children);
        }
    }
}

impl Dom {
    /// Add or update the `name` attribute of an element: an existing
    /// attribute of that name keeps its position and gets the new value, a
    /// missing one is appended.
    pub fn update_attr_value(&mut self, target: Handle, name: String, value: String) -> (r: Result<
        (),
        DomError,
    >)
        requires
            old(self).wf(),
            old(self).spec_valid(target),
        ensures
            final(self).wf(),
            old(self).coalesced() ==> final(self).coalesced(),
            match r {
                Ok(()) => old(self)@.nodes[target.idx as int].data is Element && final(self)@
                    == set_attrs_m(
                    old(self)@,
                    target.idx as int,
                    set_attr_m(attrs_of(old(self)@, target.idx as int), name@, value@),
                ),
                Err(e) => e == DomError::NotAnElement && !(old(self)@.nodes[target.idx as int].data
                    is Element) && final(self)@ == old(self)@,
            },
    {
        let ghost d = self@;
        let ghost tgt = target.idx as int;
        let ghost olda = attrs_of(d, tgt);
        let mut tmp = Node { data: NodeData::Document, parent: None, children: Vec::new() };
        core::mem::swap(&mut tmp, &mut self.nodes[target.idx]);
        let Node { data, parent, children } = tmp;
        match data {
            NodeData::Element {
                name: ename,
                attrs: mut ea,
                template_contents,
                mathml_annotation_xml_integration_point,
            } => {
                proof {
                    assert(d.nodes[tgt].data matches DataView::Element { attrs: av, .. } && av
                        == ea@.map_values(|a: Attr| a@));
                }
                let n = ea.len();
                let mut i: usize = 0;
                let mut updated = false;
                while i < n && !updated
                    invariant
                        i <= n,
                        n == ea@.len(),
                        olda == ea@.map_values(|a: Attr| a@),
                        !updated ==> forall|w: int|
                            0 <= w < i ==> (#[trigger] olda[w]).name != name@,
                        updated ==> i < n && olda[i as int].name == name@ && (forall|w: int|
                            0 <= w < i ==> (#[trigger] olda[w]).name != name@),
                    decreases n - i + (if updated { 0int } else { 1int }),
                {
                    if ea[i].name == name {
                        updated = true;
                    } else {
                        i = i + 1;
                    }
                }
                let ghost newa = set_attr_m(olda, name@, value@);
                if updated {
                    let nm = ea[i].name.clone();
                    ea[i] = Attr { name: nm, value };
                    proof {
                        lemma_set_attr_update(olda, name@, value@, i as int);
                        assert(ea@.map_values(|a: Attr| a@) =~= newa);
                    }
                } else {
                    ea.push(Attr { name, value });
                    proof {
                        lemma_set_attr_push(olda, name@, value@);
                        assert(ea@.map_values(|a: Attr| a@) =~= newa);
                    }
                }
                let mut back = Node {
                    data: NodeData::Element {
                        name: ename,
                        attrs: ea,
                        template_contents,
                        mathml_annotation_xml_integration_point,
                    },
                    parent,
                    children,
                };
                core::mem::swap(&mut back, &mut self.nodes[target.idx]);
                proof {
                    let want = set_attrs_m(d, tgt, newa);
                    assert(self@.nodes =~~= want.nodes);
                    assert(self@ =~~= want);
                    lemma_set_attrs_preserves(d, tgt, newa);
                }
                Ok(())
            },
            other => {
                let mut back = Node { data: other, parent, children };
                core::mem::swap(&mut back, &mut self.nodes[target.idx]);
                proof {
                    assert(self@.nodes =~~= d.nodes);
                    assert(self@ =~~= d);
                }
                Err(DomError::NotAnElement)
            },
        }
    }

    /// Detach every child of a node, emptying its child list.
    pub fn clear_children(&mut self, target: Handle)
        requires
            old(self).wf(),
            old(self).spec_valid(target),
        ensures
            final(self).wf(),
            old(self).coalesced() ==> final(self).coalesced(),
            final(self)@ == clear_children_m(old(self)@, target.idx as int),
    {
        let ghost d = self@;
        let ghost e = target.idx as int;
        let ghost cs0 = d.nodes[e].children;
        let cnt = self.child_count(target);
        let mut k: usize = 0;
        proof {
            assert(cs0.subrange(0, cnt as int) =~= cs0);
        }
        while k < cnt
            invariant
                k <= cnt,
                self.wf(),
                self.spec_valid(target),
                e == target.idx as int,
                cnt == cs0.len(),
                self@.nodes.len() == d.nodes.len(),
                self@.errors == d.errors,
                self@.quirks_mode == d.quirks_mode,
                self@.nodes[e].children == cs0.subrange(k as int, cnt as int),
                forall|i: int|
                    0 <= i < d.nodes.len() ==> (#[trigger] self@.nodes[i]).data == d.nodes[i].data
                        && (#[trigger] self@.nodes[i]).children == (if i == e {
                        cs0.subrange(k as int, cnt as int)
                    } else {
                        d.nodes[i].children
                    }) && (#[trigger] self@.nodes[i]).parent == (if cs0.subrange(
                        0,
                        k as int,
                    ).contains(i) {
                        None
                    } else {
                        d.nodes[i].parent
                    }),
            decreases cnt - k,
        {
            let ghost dv = self@;
            let c = self.child_at(target, 0);
            proof {
                let rest = cs0.subrange(k as int, cnt as int);
                assert(dv.nodes[e].children[0] == rest[0]);
                assert(c.idx as int == cs0[k as int]);
                assert(dv.nodes[c.idx as int].parent == Some(e));
            }
            self.detach(c);
            proof {
                let rest = cs0.subrange(k as int, cnt as int);
                let kk = rest.index_of(c.idx as int);
                assert(rest.contains(c.idx as int)) by {
                    assert(rest[0] == c.idx as int);
                }
                assert(0 <= kk < rest.len() && rest[kk] == c.idx as int);
                if kk != 0 {
                    assert(dv.nodes[e].children[0] != dv.nodes[e].children[kk]);
                }
                assert(kk == 0);
                assert(rest.remove(0) =~= cs0.subrange(k + 1, cnt as int));
                assert forall|i: int| 0 <= i < d.nodes.len() implies (
                #[trigger] self@.nodes[i]).parent == (if cs0.subrange(0, k + 1).contains(i) {
                    None
                } else {
                    d.nodes[i].parent
                }) by {
                    if i == c.idx as int {
                        assert(cs0.subrange(0, k + 1)[k as int] == c.idx as int);
                        assert(cs0.subrange(0, k + 1).contains(i));
                    } else {
                        if cs0.subrange(0, k as int).contains(i) {
                            let w = choose|w: int|
                                0 <= w < k && #[trigger] cs0.subrange(0, k as int)[w] == i;
                            assert(cs0.subrange(0, k + 1)[w] == i);
                            assert(cs0.subrange(0, k + 1).contains(i));
                        } else if cs0.subrange(0, k + 1).contains(i) {
                            let w = choose|w: int|
                                0 <= w < k + 1 && #[trigger] cs0.subrange(0, k + 1)[w] == i;
                            assert(w != k);
                            assert(cs0.subrange(0, k as int)[w] == i);
                        }
                    }
                }
            }
            k = k + 1;
        }
        proof {
            assert(cs0.subrange(cnt as int, cnt as int) =~= Seq::<int>::empty());
            assert(cs0.subrange(0, cnt as int) =~= cs0);
            let want = clear_children_m(d, e);
            assert(self@.nodes =~~= want.nodes);
            assert(self@ =~~= want);
            lemma_clear_children_preserves(d, e);
        }
    }
}

/// Updating the first matching attribute in place realises `set_attr_m`.
proof fn lemma_set_attr_update(attrs: Seq<AttrView>, n: Seq<char>, v: Seq<char>, i: int)
    requires
        0 <= i < attrs.len(),
        attrs[i].name == n,
        forall|w: int| 0 <= w < i ==> (#[trigger] attrs[w]).name != n,
    ensures
        set_attr_m(attrs, n, v) == attrs.update(i, (AttrView { name: n, value: v })),
    decreases i,
{
    if i == 0 {
        assert(set_attr_m(attrs, n, v) == seq![(AttrView { name: n, value: v })]
            + attrs.drop_first());
        assert(seq![(AttrView { name: n, value: v })] + attrs.drop_first() =~= attrs.update(
            0,
            (AttrView { name: n, value: v }),
        ));
    } else {
        assert(attrs[0].name != n);
        assert(attrs.drop_first()[i - 1] == attrs[i]);
        lemma_set_attr_update(attrs.drop_first(), n, v, i - 1);
        assert(seq![attrs[0]] + attrs.drop_first().update(i - 1, (AttrView { name: n, value: v }))
            =~= attrs.update(i, (AttrView { name: n, value: v })));
    }
}

/// Appending realises `set_attr_m` when no attribute of the name exists.
proof fn lemma_set_attr_push(attrs: Seq<AttrView>, n: Seq<char>, v: Seq<char>)
    requires
        forall|w: int| 0 <= w < attrs.len() ==> (#[trigger] attrs[w]).name != n,
    ensures
        set_attr_m(attrs, n, v) == attrs.push((AttrView { name: n, value: v })),
    decreases attrs.len(),
{
    if attrs.len() == 0 {
        assert(set_attr_m(attrs, n, v) =~= attrs.push((AttrView { name: n, value: v })));
    } else {
        assert(attrs[0].name != n);
        assert(forall|w: int|
            0 <= w < attrs.drop_first().len() ==> (#[trigger] attrs.drop_first()[w]).name != n)
            by {
            assert(forall|w: int|
                0 <= w < attrs.drop_first().len() ==> attrs.drop_first()[w] == attrs[w + 1]);
        }
        lemma_set_attr_push(attrs.drop_first(), n, v);
        assert(seq![attrs[0]] + attrs.drop_first().push((AttrView { name: n, value: v }))
            =~= attrs.push((AttrView { name: n, value: v })));
    }
}

} // verus!

verus! {

impl Dom {
    /// Replace the contents of a text node.
    pub fn set_text(&mut self, target: Handle, contents: String) -> (r: Result<(), DomError>)
        requires
            old(self).wf(),
            old(self).spec_valid(target),
        ensures
            final(self).wf(),
            old(self).coalesced() ==> final(self).coalesced(),
            match r {
                Ok(()) => old(self)@.nodes[target.idx as int].data is Text && final(self)@
                    == set_text_m(old(self)@, target.idx as int, contents@),
                Err(e) => e == DomError::NotAnElement && !(old(self)@.nodes[target.idx as int].data
                    is Text) && final(self)@ == old(self)@,
            },
    {
        let ghost d = self@;
        if !matches!(self.nodes[target.idx].data, NodeData::Text { .. }) {
            return Err(DomError::NotAnElement);
        }
        self.nodes[target.idx].data = NodeData::Text { contents };
        proof {
            let want = set_text_m(d, target.idx as int, contents@);
            assert(self@.nodes =~~= want.nodes);
            assert(self@ =~~= want);
            lemma_set_text_preserves(d, target.idx as int, contents@);
        }
        Ok(())
    }
}

} // verus!
