//! A pass that wraps configured root elements in `rich-text` containers,
//! each carrying a fresh identifier, and records identifier-to-content in
//! an output mapping.  The pass never descends into a wrapper it has just
//! created, which keeps wrapping idempotent.

use vstd::prelude::*;

use crate::dom::{
    ancestor_blocked, attrs_of, clear_children_m, valid_id, Attr, AttrView, DataView, Dom,
    DomView, ElementFlags, Handle, NodeData, QualName,
};
use crate::idgen::fresh_uuid_string;
use crate::strmap::StringMap;
use crate::text::str_eq;
use crate::visitor::{rebuilt, rep_view, traversed, NodeVisitor};

verus! {

/// The contribution of one child to the extracted content: text contents
/// for a text node, the bracketed local name for an element, nothing else.
pub open spec fn child_content(d: DomView, c: int) -> Seq<char> {
    match d.nodes[c].data {
        DataView::Text { contents } => contents,
        DataView::Element { name, .. } => seq!['<'] + name.local + seq!['>'],
        _ => Seq::empty(),
    }
}

/// The concatenated contributions of a child list.
pub open spec fn children_content(d: DomView, cs: Seq<int>) -> Seq<char>
    decreases cs.len(),
{
    if cs.len() == 0 {
        Seq::empty()
    } else {
        child_content(d, cs[0]) + children_content(d, cs.drop_first())
    }
}

/// A visitor that wraps root elements in identified `rich-text` containers
/// and maintains a mapping of identifiers to extracted content.
pub struct RichTextWrapperVisitor {
    content_map: StringMap,
    root_elements: Vec<String>,
}

impl RichTextWrapperVisitor {
    /// The configured set of root element names.
    pub closed spec fn spec_roots(&self) -> Seq<Seq<char>> {
        self.root_elements@.map_values(|s: String| s@)
    }

    /// The identifier-to-content mapping built so far.
    pub closed spec fn spec_map(&self) -> Map<Seq<char>, Seq<char>> {
        self.content_map@
    }

    /// A fresh visitor whose root element set holds exactly `p`.
    pub fn new() -> (v: RichTextWrapperVisitor)
        ensures
            v.spec_roots() == seq!["p"@],
            v.spec_map() == Map::<Seq<char>, Seq<char>>::empty(),
    {
        let mut roots: Vec<String> = Vec::new();
        roots.push(String::from_str("p"));
        let v = RichTextWrapperVisitor { content_map: StringMap::new(), root_elements: roots };
        proof {
            assert(v.spec_roots() =~= seq!["p"@]);
        }
        v
    }

    /// The identifier-to-content mapping.
    pub fn content_map(&self) -> (m: &StringMap)
        ensures
            m@ == self.spec_map(),
    {
        &self.content_map
    }

    /// Is this element name in the configured root set?
    pub fn is_root_element(&self, name: &str) -> (r: bool)
        ensures
            r == self.spec_roots().contains(name@),
    {
        let n = self.root_elements.len();
        let mut i: usize = 0;
        while i < n
            invariant
                i <= n,
                n == self.root_elements@.len(),
                forall|w: int| 0 <= w < i ==> (#[trigger] self.spec_roots()[w]) != name@,
            decreases n - i,
        {
            if str_eq(self.root_elements[i].as_str(), name) {
                proof {
                    assert(self.spec_roots()[i as int] == name@);
                }
                return true;
            }
            i = i + 1;
        }
        proof {
            if self.spec_roots().contains(name@) {
                let w = choose|w: int|
                    0 <= w < self.spec_roots().len() && self.spec_roots()[w] == name@;
                assert(self.spec_roots()[w] != name@);
            }
        }
        false
    }

    /// Extract the content of a node's children: text and bracketed
    /// element names, concatenated in order.
    pub fn extract_children_content(&self, dom: &Dom, parent: Handle) -> (r: String)
        requires
            dom.wf(),
            dom.spec_valid(parent),
        ensures
            r@ == children_content(dom@, dom@.nodes[parent.idx as int].children),
    {
        let ghost cs = dom@.nodes[parent.idx as int].children;
        let cnt = dom.child_count(parent);
        let mut out: Vec<char> = Vec::new();
        let mut k: usize = 0;
        proof {
            assert(cs.subrange(0, cnt as int) =~= cs);
            assert(cs.subrange(0, 0) =~= Seq::<int>::empty());
        }
        while k < cnt
            invariant
                k <= cnt,
                dom.wf(),
                dom.spec_valid(parent),
                cnt == cs.len(),
                cs == dom@.nodes[parent.idx as int].children,
                children_content(dom@, cs) == out@ + children_content(
                    dom@,
                    cs.subrange(k as int, cnt as int),
                ),
            decreases cnt - k,
        {
            let c = dom.child_at(parent, k);
            proof {
                let rest = cs.subrange(k as int, cnt as int);
                assert(rest[0] == c.idx as int);
                assert(rest.drop_first() =~= cs.subrange(k + 1, cnt as int));
            }
            match dom.data(c) {
                NodeData::Text { contents } => {
                    crate::text::push_str_chars(&mut out, contents.as_str());
                },
                NodeData::Element { name, .. } => {
                    out.push('<');
                    crate::text::push_str_chars(&mut out, name.local.as_str());
                    out.push('>');
                },
                _ => {},
            }
            proof {
                assert(children_content(dom@, cs) =~= out@ + children_content(
                    dom@,
                    cs.subrange(k + 1, cnt as int),
                ));
            }
            k = k + 1;
        }
        proof {
            assert(cs.subrange(cnt as int, cnt as int) =~= Seq::<int>::empty());
        }
        crate::text::chars_to_string(out)
    }
}

impl Default for RichTextWrapperVisitor {
    fn default() -> (v: RichTextWrapperVisitor)
        ensures
            v.spec_roots() == seq!["p"@],
            v.spec_map() == Map::<Seq<char>, Seq<char>>::empty(),
    {
        RichTextWrapperVisitor::new()
    }
}

/// What the pass's element callback establishes: an existing `rich-text`
/// element is skipped without descending; an element of the root set is
/// wrapped in a fresh `rich-text` container carrying a generated
/// identifier, its extracted content recorded in the mapping under that
/// identifier, and the wrapper is not descended into; everything else
/// passes through.
pub open spec fn wrapper_element_ok(
    pre: RichTextWrapperVisitor,
    post: RichTextWrapperVisitor,
    d: DomView,
    hi: int,
    fd: DomView,
    rep: Option<int>,
    cont: bool,
) -> bool {
    let local = match d.nodes[hi].data {
        DataView::Element { name, .. } => name.local,
        _ => Seq::empty(),
    };
    &&& (local == "rich-text"@ ==> rep is None && !cont && fd == d && post.spec_map()
        == pre.spec_map())
    &&& (local != "rich-text"@ && pre.spec_roots().contains(local) ==> {
        &&& !cont
        &&& rep is Some
        &&& {
            let w = rep->0;
            let atv = attrs_of(fd, w);
            &&& fd.nodes[w].data matches DataView::Element { name, template_contents, .. }
                && name.local == "rich-text"@ && name.ns == Seq::<char>::empty()
                && template_contents is None
            &&& atv.len() == 1
            &&& atv[0].name == "id"@
            &&& fd.nodes[w].parent is None
            &&& fd.nodes[w].children == seq![hi]
            &&& fd.nodes[hi].children == d.nodes[hi].children
            &&& fd.nodes[hi].data == d.nodes[hi].data
            &&& post.spec_map() == pre.spec_map().insert(
                atv[0].value,
                children_content(d, d.nodes[hi].children),
            )
        }
    })
    &&& (local != "rich-text"@ && !pre.spec_roots().contains(local) ==> rep is None && cont && fd
        == d && post.spec_map() == pre.spec_map())
}

/// Law: the engine honours a declined continuation.  A traversal rooted at
/// an element of the root set yields exactly what the pass's callback
/// built and nothing more: the returned root is a fresh `rich-text`
/// wrapper whose single child is the original element with its data and
/// children untouched, the mapping gains the wrapper's identifier with the
/// extracted content, and the wrapper's pre-built content was never
/// re-visited or re-wrapped.
pub proof fn lemma_wrapper_traversal_wraps_once(
    v0: RichTextWrapperVisitor,
    v1: RichTextWrapperVisitor,
    d0: DomView,
    d1: DomView,
    h: int,
    r: int,
    fuel: nat,
)
    requires
        fuel > 0,
        d0.nodes[h].data matches DataView::Element { name, .. } && name.local != "rich-text"@
            && v0.spec_roots().contains(name.local),
        traversed(v0, v1, d0, d1, h, r, fuel),
    ensures
        d1.nodes[r].data matches DataView::Element { name, .. } && name.local == "rich-text"@,
        d1.nodes[r].children == seq![h],
        d1.nodes[h].children == d0.nodes[h].children,
        d1.nodes[h].data == d0.nodes[h].data,
        attrs_of(d1, r).len() == 1,
        attrs_of(d1, r)[0].name == "id"@,
        v1.spec_map() == v0.spec_map().insert(
            attrs_of(d1, r)[0].value,
            children_content(d0, d0.nodes[h].children),
        ),
{
    let (vm, dm, rep, cont) = choose|
        vm: RichTextWrapperVisitor,
        dm: DomView,
        rep: Option<int>,
        cont: bool,
    |
        {
            &&& #[trigger] vm.callback_ok(v0, d0, h, dm, rep, cont)
            &&& {
                let node = match rep {
                    Some(n) => n,
                    None => h,
                };
                &&& r == node
                &&& if cont {
                    rebuilt(
                        vm,
                        v1,
                        clear_children_m(dm, node),
                        d1,
                        node,
                        dm.nodes[node].children,
                        (fuel - 1) as nat,
                    )
                } else {
                    v1 == vm && d1 == dm
                }
            }
        };
    assert(wrapper_element_ok(v0, vm, d0, h, dm, rep, cont));
    assert(!cont && rep is Some);
    assert(v1 == vm && d1 == dm && r == rep->0);
}

impl NodeVisitor for RichTextWrapperVisitor {
    /// The pass acts on elements alone; every other kind passes through
    /// untouched.
    open spec fn callback_ok(
        &self,
        pre: Self,
        d0: DomView,
        h: int,
        d1: DomView,
        rep: Option<int>,
        cont: bool,
    ) -> bool {
        match d0.nodes[h].data {
            DataView::Element { .. } => wrapper_element_ok(pre, *self, d0, h, d1, rep, cont)
                && self.spec_roots() == pre.spec_roots(),
            _ => d1 == d0 && *self == pre && rep is None && cont,
        }
    }

    fn visit_document(&mut self, dom: &mut Dom, h: Handle) -> (r: (Option<Handle>, bool)) {
        (None, true)
    }

    fn visit_doctype(&mut self, dom: &mut Dom, h: Handle) -> (r: (Option<Handle>, bool)) {
        (None, true)
    }

    fn visit_text(&mut self, dom: &mut Dom, h: Handle) -> (r: (Option<Handle>, bool)) {
        (None, true)
    }

    fn visit_comment(&mut self, dom: &mut Dom, h: Handle) -> (r: (Option<Handle>, bool)) {
        (None, true)
    }

    fn visit_processing_instruction(&mut self, dom: &mut Dom, h: Handle) -> (r: (
        Option<Handle>,
        bool,
    )) {
        (None, true)
    }

    /// An existing `rich-text` element is skipped without descending.  An
    /// element of the root set is wrapped in a fresh `rich-text` container
    /// carrying a generated identifier, its extracted content is recorded
    /// in the mapping under that identifier, and the wrapper is not
    /// descended into.  Everything else passes through.
    fn visit_element(&mut self, dom: &mut Dom, h: Handle) -> (r: (Option<Handle>, bool))
        ensures
            wrapper_element_ok(
                *old(self),
                *final(self),
                old(dom)@,
                h.idx as int,
                final(dom)@,
                rep_view(r.0),
                r.1,
            ),
            final(self).spec_roots() == old(self).spec_roots(),
    {
        let ghost d = dom@;
        let local_name: String = match dom.data(h) {
            NodeData::Element { name, .. } => name.local.clone(),
            _ => {
                proof {
                    assert(false);
                }
                String::new()
            },
        };
        if str_eq(local_name.as_str(), "rich-text") {
            return (None, false);
        }
        if !self.is_root_element(local_name.as_str()) {
            return (None, true);
        }
        let unique_id = fresh_uuid_string();
        let content = self.extract_children_content(dom, h);
        let mut wrapper_attrs: Vec<Attr> = Vec::new();
        wrapper_attrs.push(Attr { name: String::from_str("id"), value: unique_id.clone() });
        let wrapper = dom.create_element(
            QualName { ns: String::new(), local: String::from_str("rich-text") },
            wrapper_attrs,
            ElementFlags { template: false, mathml_annotation_xml_integration_point: false },
        );
        let ghost d1 = dom@;
        let res = dom.append_child(wrapper, h);
        proof {
            reveal_strlit("id");
            reveal_strlit("rich-text");
            assert(d1.nodes[h.idx as int].parent is None);
            assert(!(d1.nodes[h.idx as int].data is Document));
            assert(!ancestor_blocked(
                d1,
                wrapper.idx as int,
                h.idx as int,
                d1.nodes.len() as nat,
            )) by {
                assert(wrapper.idx as int != h.idx as int);
                assert(d1.nodes[wrapper.idx as int].parent is None);
            }
            assert(res is Ok);
            assert(!crate::dom::appends_coalesce(d1, wrapper.idx as int, h.idx as int));
            assert(final(dom)@.nodes[wrapper.idx as int].children =~= seq![h.idx as int]);
        }
        self.content_map.insert(unique_id, content);
        (Some(wrapper), false)
    }
}

} // verus!
