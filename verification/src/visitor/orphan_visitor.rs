//! A pass that lifts loose content into identified `rich-text` containers:
//! non-empty text becomes a wrapped, sanitized text node; lists, list items
//! and paragraphs have their text children sanitized, and lists and
//! paragraphs additionally wrap their content in a `rich-text` container
//! whose rendered markup is recorded in an output mapping.

use vstd::prelude::*;

use crate::dom::{
    ancestor_blocked, attrs_of, clear_children_m, valid_id, Attr, AttrView, DataView, Dom,
    DomView, ElementFlags, Handle, NodeData, QualName,
};
use crate::idgen::fresh_uuid_string;
use crate::serialize::html_of;
use crate::strmap::StringMap;
use crate::text::{sanitize_text, sanitize_text_spec, str_eq, trim};
use crate::visitor::{rep_view, NodeVisitor};

verus! {

/// Does the rebuilt child at position `k` correspond to the original child:
/// the same node for anything but text, a fresh sanitized text node for a
/// text child.
pub open spec fn sanitized_child_ok(
    d_old: DomView,
    d_new: DomView,
    c_old: int,
    c_new: int,
) -> bool {
    match d_old.nodes[c_old].data {
        DataView::Text { contents } => d_new.nodes[c_new].data == (DataView::Text {
            contents: sanitize_text_spec(contents),
        }) && c_new >= d_old.nodes.len(),
        _ => c_new == c_old && d_new.nodes[c_new].data == d_old.nodes[c_old].data,
    }
}

/// Every rebuilt child corresponds to the original one at its position.
pub open spec fn sanitized_children_ok(
    d_old: DomView,
    d_new: DomView,
    cs_old: Seq<int>,
    cs_new: Seq<int>,
) -> bool {
    &&& cs_new.len() == cs_old.len()
    &&& forall|k: int|
        0 <= k < cs_old.len() ==> #[trigger] sanitized_child_ok(d_old, d_new, cs_old[k], cs_new[k])
}

/// A visitor that wraps loose content in identified containers.
pub struct OrphanVisitor {
    html_map: StringMap,
}

impl OrphanVisitor {
    /// The identifier-to-markup mapping built so far.
    pub closed spec fn spec_map(&self) -> Map<Seq<char>, Seq<char>> {
        self.html_map@
    }

    /// A fresh visitor with an empty mapping.
    pub fn new() -> (v: OrphanVisitor)
        ensures
            v.spec_map() == Map::<Seq<char>, Seq<char>>::empty(),
    {
        OrphanVisitor { html_map: StringMap::new() }
    }

    /// The identifier-to-markup mapping.
    pub fn html_map(&self) -> (m: &StringMap)
        ensures
            m@ == self.spec_map(),
    {
        &self.html_map
    }
}

/// Detach every child of `src` and attach its sanitized counterpart to the
/// childless fresh element `dst`, in order: text children are replaced by
/// fresh sanitized text nodes, everything else is moved as it is.
fn move_sanitized_children(dom: &mut Dom, src: Handle, dst: Handle)
    requires
        old(dom).wf(),
        old(dom).spec_valid(src),
        old(dom).spec_valid(dst),
        src.idx != dst.idx,
        old(dom)@.nodes[dst.idx as int].children.len() == 0,
        old(dom)@.nodes[dst.idx as int].parent is None,
        old(dom)@.nodes[dst.idx as int].data is Element,
    ensures
        final(dom).wf(),
        old(dom).coalesced() ==> final(dom).coalesced(),
        final(dom)@.nodes.len() >= old(dom)@.nodes.len(),
        final(dom)@.nodes[dst.idx as int].parent is None,
        final(dom)@.nodes[dst.idx as int].data == old(dom)@.nodes[dst.idx as int].data,
        final(dom)@.nodes[src.idx as int].children.len() == 0,
        old(dom).coalesced() ==> sanitized_children_ok(
            old(dom)@,
            final(dom)@,
            old(dom)@.nodes[src.idx as int].children,
            final(dom)@.nodes[dst.idx as int].children,
        ),
{
    let ghost d = dom@;
    let ghost cs0 = d.nodes[src.idx as int].children;
    let ghost was_coalesced = dom.coalesced();
    // Snapshot the source's children, then clear them all.
    let cnt = dom.child_count(src);
    let mut cs: Vec<Handle> = Vec::new();
    let mut k: usize = 0;
    while k < cnt
        invariant
            k <= cnt,
            dom.wf(),
            dom@ == d,
            src.idx < d.nodes.len(),
            cnt == cs0.len(),
            cs0 == d.nodes[src.idx as int].children,
            cs@.len() == k,
            forall|j: int|
                0 <= j < k ==> (#[trigger] cs@[j]).idx as int == cs0[j] && dom.spec_valid(cs@[j]),
        decreases cnt - k,
    {
        let c = dom.child_at(src, k);
        cs.push(c);
        k = k + 1;
    }
    dom.clear_children(src);
    let ghost d1 = dom@;
    proof {
        assert(d1 == clear_children_m(d, src.idx as int));
        assert(forall|j: int| 0 <= j < cnt ==> valid_id(d, #[trigger] cs0[j]) && d.nodes[cs0[j]].parent == Some(src.idx as int));
        assert(forall|j: int| 0 <= j < cnt ==> (#[trigger] d1.nodes[cs0[j]].parent) is None) by {
            assert(forall|j: int| 0 <= j < cnt ==> cs0.contains(#[trigger] cs0[j]));
        }
    }
    let mut k2: usize = 0;
    while k2 < cnt
        invariant
            k2 <= cnt,
            dom.wf(),
            crate::dom::wf(d),
            was_coalesced ==> crate::dom::text_coalesced(d),
            was_coalesced == old(dom).coalesced(),
            was_coalesced ==> dom.coalesced(),
            src.idx < d.nodes.len(),
            dst.idx < d.nodes.len(),
            src.idx != dst.idx,
            cs0 == d.nodes[src.idx as int].children,
            d.nodes[dst.idx as int].parent is None,
            dom@.nodes.len() >= d.nodes.len(),
            cnt == cs0.len(),
            cs@.len() == cnt,
            forall|j: int| 0 <= j < cnt ==> (#[trigger] cs@[j]).idx as int == cs0[j],
            forall|j: int| 0 <= j < cnt ==> valid_id(d, #[trigger] cs0[j]),
            dom@.nodes[dst.idx as int].parent is None,
            dom@.nodes[dst.idx as int].data == d.nodes[dst.idx as int].data,
            dom@.nodes[dst.idx as int].data is Element,
            dom@.nodes[src.idx as int].children.len() == 0,
            // children not yet moved keep their old data and are parentless
            forall|j: int|
                k2 <= j < cnt ==> (#[trigger] dom@.nodes[cs0[j]].data) == d.nodes[cs0[j]].data
                    && dom@.nodes[cs0[j]].parent is None,
            dom@.nodes[dst.idx as int].children.len() == k2 || !was_coalesced,
            was_coalesced ==> forall|j: int|
                0 <= j < k2 ==> #[trigger] sanitized_child_ok(
                    d,
                    dom@,
                    cs0[j],
                    dom@.nodes[dst.idx as int].children[j],
                ),
        decreases cnt - k2,
    {
        let c = cs[k2];
        let ghost dpre = dom@;
        proof {
            assert(dom@.nodes[cs0[k2 as int]].data == d.nodes[cs0[k2 as int]].data);
            assert(dpre.nodes[c.idx as int].parent is None);
        }
        let is_txt = match dom.data(c) {
            NodeData::Text { .. } => {
                proof {
                    assert(dpre.nodes[c.idx as int].data is Text);
                }
                true
            },
            _ => {
                proof {
                    assert(!(dpre.nodes[c.idx as int].data is Text));
                }
                false
            },
        };
        if is_txt {
            let sanitized: String = match dom.data(c) {
                NodeData::Text { contents } => sanitize_text(contents.as_str()),
                _ => {
                    proof {
                        assert(false);
                    }
                    String::new()
                },
            };
            let t = dom.new_node(NodeData::Text { contents: sanitized });
            let ghost dmid = dom@;
            let res = dom.append_child(dst, t);
            proof {
                assert(dmid.nodes[t.idx as int].parent is None);
                assert(!(dmid.nodes[t.idx as int].data is Document));
                assert(dmid.nodes[dst.idx as int].parent is None);
                assert(dst.idx != t.idx);
                assert(!ancestor_blocked(
                    dmid,
                    dst.idx as int,
                    t.idx as int,
                    dmid.nodes.len() as nat,
                ));
                assert(res is Ok);
                if was_coalesced {
                    assert(!crate::dom::appends_coalesce(dmid, dst.idx as int, t.idx as int))
                        by {
                        let dcs = dmid.nodes[dst.idx as int].children;
                        if dcs.len() > 0 {
                            assert(dcs.len() == k2);
                            let last = dcs[k2 - 1];
                            assert(sanitized_child_ok(d, dpre, cs0[k2 - 1], last));
                            if d.nodes[cs0[k2 - 1]].data is Text {
                                assert(crate::dom::is_text(d, d.nodes[src.idx
                                    as int].children[k2 - 1]) && crate::dom::is_text(
                                    d,
                                    d.nodes[src.idx as int].children[k2 as int],
                                ));
                            }
                            assert(!(dpre.nodes[last].data is Text));
                            assert(dmid.nodes[last].data == dpre.nodes[last].data) by {
                                assert(valid_id(dpre, last));
                            }
                        }
                    }
                    let dpost = dom@;
                    assert(dpost == crate::dom::append_child_ok(
                        dmid,
                        dst.idx as int,
                        t.idx as int,
                    ));
                    assert(forall|x: int|
                        0 <= x < dpost.nodes.len() ==> (#[trigger] dpost.nodes[x].data)
                            == dmid.nodes[x].data);
                    assert(dpost.nodes[dst.idx as int].children == dmid.nodes[dst.idx
                        as int].children.push(t.idx as int));
                    assert(dpost.nodes[t.idx as int].data == (DataView::Text {
                        contents: sanitize_text_spec(crate::dom::text_contents(
                            d.nodes[cs0[k2 as int]].data,
                        )),
                    }));
                    assert forall|j: int| 0 <= j < k2 + 1 implies #[trigger] sanitized_child_ok(
                        d,
                        dpost,
                        cs0[j],
                        dpost.nodes[dst.idx as int].children[j],
                    ) by {
                        if j < k2 {
                            assert(sanitized_child_ok(
                                d,
                                dpre,
                                cs0[j],
                                dpre.nodes[dst.idx as int].children[j],
                            ));
                            assert(dpost.nodes[dst.idx as int].children[j] == dpre.nodes[dst.idx
                                as int].children[j]);
                        } else {
                            assert(dpost.nodes[dst.idx as int].children[j] == t.idx as int);
                            assert(d.nodes[cs0[j]].data is Text);
                        }
                    }
                }
            }
        } else {
            proof {
                assert(d.nodes[cs0[k2 as int]].parent == Some(src.idx as int)) by {
                    assert(cs0.contains(cs0[k2 as int]));
                }
                assert(!(d.nodes[cs0[k2 as int]].data is Document));
            }
            let res = dom.append_child(dst, c);
            proof {
                assert(dpre.nodes[c.idx as int].data == d.nodes[cs0[k2 as int]].data);
                assert(dpre.nodes[c.idx as int].parent is None);
                assert(!(dpre.nodes[c.idx as int].data is Document));
                assert(!(dpre.nodes[c.idx as int].data is Text));
                assert(!crate::dom::appends_coalesce(dpre, dst.idx as int, c.idx as int));
                assert(dst.idx != c.idx) by {
                    assert(c.idx as int == cs0[k2 as int]);
                    assert(cs0.contains(cs0[k2 as int]));
                    assert(d.nodes[cs0[k2 as int]].parent == Some(src.idx as int));
                    assert(d.nodes[dst.idx as int].parent is None);
                }
                assert(!ancestor_blocked(
                    dpre,
                    dst.idx as int,
                    c.idx as int,
                    dpre.nodes.len() as nat,
                )) by {
                    assert(dpre.nodes[dst.idx as int].parent is None);
                }
                assert(res is Ok);
                if was_coalesced {
                    let dpost = dom@;
                    assert(dpost == crate::dom::append_child_ok(
                        dpre,
                        dst.idx as int,
                        c.idx as int,
                    ));
                    assert(forall|x: int|
                        0 <= x < dpost.nodes.len() ==> (#[trigger] dpost.nodes[x].data)
                            == dpre.nodes[x].data);
                    assert(dpost.nodes[dst.idx as int].children == dpre.nodes[dst.idx
                        as int].children.push(c.idx as int));
                    assert forall|j: int| 0 <= j < k2 + 1 implies #[trigger] sanitized_child_ok(
                        d,
                        dpost,
                        cs0[j],
                        dpost.nodes[dst.idx as int].children[j],
                    ) by {
                        if j < k2 {
                            assert(sanitized_child_ok(
                                d,
                                dpre,
                                cs0[j],
                                dpre.nodes[dst.idx as int].children[j],
                            ));
                            assert(dpost.nodes[dst.idx as int].children[j] == dpre.nodes[dst.idx
                                as int].children[j]);
                        } else {
                            assert(dpost.nodes[dst.idx as int].children[j] == c.idx as int);
                            assert(!(d.nodes[cs0[j]].data is Text));
                            assert(dpost.nodes[c.idx as int].data == d.nodes[cs0[j]].data);
                        }
                    }
                }
            }
        }
        k2 = k2 + 1;
    }
    proof {
        if was_coalesced {
            assert(sanitized_children_ok(
                d,
                dom@,
                cs0,
                dom@.nodes[dst.idx as int].children,
            ));
        }
    }
}

} // verus!

verus! {

/// A deep copy of an attribute list.
fn clone_attrs(attrs: &Vec<Attr>) -> (r: Vec<Attr>)
    ensures
        r@.map_values(|a: Attr| a@) == attrs@.map_values(|a: Attr| a@),
{
    let n = attrs.len();
    let mut r: Vec<Attr> = Vec::new();
    let mut i: usize = 0;
    while i < n
        invariant
            i <= n,
            n == attrs@.len(),
            r@.len() == i,
            forall|w: int| 0 <= w < i ==> (#[trigger] r@[w])@ == attrs@[w]@,
        decreases n - i,
    {
        r.push(Attr { name: attrs[i].name.clone(), value: attrs[i].value.clone() });
        i = i + 1;
    }
    proof {
        assert(r@.map_values(|a: Attr| a@) =~= attrs@.map_values(|a: Attr| a@));
    }
    r
}

/// What the pass's text callback establishes: whitespace-only text passes
/// through unchanged; any other text is replaced by a fresh identified
/// `rich-text` element holding the sanitized text, which the mapping
/// records, and the replacement is not descended into.
pub open spec fn orphan_text_ok(
    pre: OrphanVisitor,
    post: OrphanVisitor,
    d: DomView,
    hi: int,
    fd: DomView,
    rep: Option<int>,
    cont: bool,
) -> bool {
    let txt = crate::dom::text_contents(d.nodes[hi].data);
    &&& (trim(txt).len() == 0 ==> rep is None && cont && fd == d && post.spec_map()
        == pre.spec_map())
    &&& (trim(txt).len() > 0 ==> {
        &&& !cont
        &&& rep is Some
        &&& {
            let w = rep->0;
            let atv = attrs_of(fd, w);
            &&& fd.nodes[w].data matches DataView::Element { name, .. } && name.local
                == "rich-text"@
            &&& atv.len() == 1
            &&& atv[0].name == "id"@
            &&& fd.nodes[w].parent is None
            &&& fd.nodes[w].children.len() == 1
            &&& fd.nodes[fd.nodes[w].children[0]].data == (DataView::Text {
                contents: sanitize_text_spec(txt),
            })
            &&& post.spec_map() == pre.spec_map().insert(atv[0].value, sanitize_text_spec(txt))
        }
    })
}

/// What the pass's element callback establishes: lists and paragraphs get
/// their content sanitized, moved into an identified `rich-text` container
/// and recorded in the mapping; list items only get their content
/// sanitized; the original element's child list is emptied by the move;
/// everything else passes through.
pub open spec fn orphan_element_ok(
    pre: OrphanVisitor,
    post: OrphanVisitor,
    d: DomView,
    hi: int,
    fd: DomView,
    rep: Option<int>,
    cont: bool,
) -> bool {
    let local = match d.nodes[hi].data {
        DataView::Element { name, .. } => name.local,
        _ => Seq::empty(),
    };
    let wrapping = local == "ul"@ || local == "ol"@ || local == "p"@;
    let item = local == "li"@;
    &&& (!wrapping && !item ==> rep is None && cont && fd == d && post.spec_map()
        == pre.spec_map())
    &&& (item && !wrapping && crate::dom::text_coalesced(d) ==> {
        &&& !cont
        &&& rep is Some
        &&& {
            let w = rep->0;
            &&& fd.nodes[w].data matches DataView::Element { name, .. } && name.local == local
                && name.ns == Seq::<char>::empty()
            &&& attrs_of(fd, w) == attrs_of(d, hi)
            &&& fd.nodes[w].parent is None
            &&& fd.nodes[hi].children.len() == 0
            &&& sanitized_children_ok(d, fd, d.nodes[hi].children, fd.nodes[w].children)
            &&& post.spec_map() == pre.spec_map()
        }
    })
    &&& (wrapping && crate::dom::text_coalesced(d) ==> {
        &&& cont == (local != "p"@)
        &&& rep is Some
        &&& {
            let w = rep->0;
            &&& fd.nodes[w].data matches DataView::Element { name, .. } && name.local == local
                && name.ns == Seq::<char>::empty()
            &&& attrs_of(fd, w) == attrs_of(d, hi)
            &&& fd.nodes[w].parent is None
            &&& fd.nodes[hi].children.len() == 0
            &&& fd.nodes[w].children.len() == 1
            &&& {
                let rich = fd.nodes[w].children[0];
                let atv = attrs_of(fd, rich);
                &&& fd.nodes[rich].data matches DataView::Element { name, .. } && name.local
                    == "rich-text"@
                &&& atv.len() == 1
                &&& atv[0].name == "id"@
                &&& sanitized_children_ok(d, fd, d.nodes[hi].children, fd.nodes[rich].children)
                &&& post.spec_map() == pre.spec_map().insert(
                    atv[0].value,
                    match html_of(fd, rich) {
                        Ok(s) => s,
                        Err(_) => Seq::<char>::empty(),
                    },
                )
            }
        }
    })
}

impl NodeVisitor for OrphanVisitor {
    /// The pass acts on text and elements; every other kind passes through
    /// untouched.
    open spec fn callback_ok(
        &self,
        pre: Self,
        d0: DomView,
        h: int,
        d1: DomView,
        rep: Option<int>,
        cont: bool,
    ) -> bool {
        match d0.nodes[h].data {
            DataView::Text { .. } => orphan_text_ok(pre, *self, d0, h, d1, rep, cont),
            DataView::Element { .. } => orphan_element_ok(pre, *self, d0, h, d1, rep, cont),
            _ => d1 == d0 && *self == pre && rep is None && cont,
        }
    }

    fn visit_document(&mut self, dom: &mut Dom, h: Handle) -> (r: (Option<Handle>, bool)) {
        (None, true)
    }

    fn visit_doctype(&mut self, dom: &mut Dom, h: Handle) -> (r: (Option<Handle>, bool)) {
        (None, true)
    }

    fn visit_comment(&mut self, dom: &mut Dom, h: Handle) -> (r: (Option<Handle>, bool)) {
        (None, true)
    }

    fn visit_processing_instruction(&mut self, dom: &mut Dom, h: Handle) -> (r: (
        Option<Handle>,
        bool,
    )) {
        (None, true)
    }

    /// Wrap a non-empty text node: its sanitized content goes into a fresh
    /// `rich-text` element carrying a generated identifier, and the mapping
    /// records the identifier with the sanitized content.  Whitespace-only
    /// text passes through.
    fn visit_text(&mut self, dom: &mut Dom, h: Handle) -> (r: (Option<Handle>, bool))
        ensures
            orphan_text_ok(
                *old(self),
                *final(self),
                old(dom)@,
                h.idx as int,
                final(dom)@,
                rep_view(r.0),
                r.1,
            ),
    {
        let ghost d = dom@;
        let contents: String = match dom.data(h) {
            NodeData::Text { contents } => contents.clone(),
            _ => {
                proof {
                    assert(false);
                }
                String::new()
            },
        };
        let trimmed_probe = crate::text::sanitize_probe(contents.as_str());
        if !trimmed_probe {
            return (None, true);
        }
        let sanitized = sanitize_text(contents.as_str());
        let uuid = fresh_uuid_string();
        let tnode = dom.new_node(NodeData::Text { contents: sanitized.clone() });
        let mut rich_attrs: Vec<Attr> = Vec::new();
        rich_attrs.push(Attr { name: String::from_str("id"), value: uuid.clone() });
        let rich = dom.create_element(
            QualName { ns: String::new(), local: String::from_str("rich-text") },
            rich_attrs,
            ElementFlags { template: false, mathml_annotation_xml_integration_point: false },
        );
        let ghost d1 = dom@;
        let res = dom.append_child(rich, tnode);
        proof {
            reveal_strlit("id");
            reveal_strlit("rich-text");
            assert(d1.nodes[tnode.idx as int].parent is None);
            assert(!(d1.nodes[tnode.idx as int].data is Document));
            assert(!ancestor_blocked(
                d1,
                rich.idx as int,
                tnode.idx as int,
                d1.nodes.len() as nat,
            )) by {
                assert(d1.nodes[rich.idx as int].parent is None);
                assert(rich.idx != tnode.idx);
            }
            assert(res is Ok);
            assert(!crate::dom::appends_coalesce(d1, rich.idx as int, tnode.idx as int));
            assert(final(dom)@.nodes[rich.idx as int].children =~= seq![tnode.idx as int]);
        }
        self.html_map.insert(uuid, sanitized);
        (Some(rich), false)
    }

    /// Lists and paragraphs get their content sanitized and wrapped in an
    /// identified `rich-text` container, whose rendered markup is recorded
    /// in the mapping; the replacement element keeps the original name and
    /// attributes.  List items only get their content sanitized.  Lists are
    /// descended into; list items and paragraphs are not.
    fn visit_element(&mut self, dom: &mut Dom, h: Handle) -> (r: (Option<Handle>, bool))
        ensures
            orphan_element_ok(
                *old(self),
                *final(self),
                old(dom)@,
                h.idx as int,
                final(dom)@,
                rep_view(r.0),
                r.1,
            ),
    {
        proof {
            reveal_strlit("ul");
            reveal_strlit("ol");
            reveal_strlit("p");
            reveal_strlit("li");
            reveal_strlit("id");
            reveal_strlit("rich-text");
        }
        let ghost d = dom@;
        let (local_name, attrs_copy): (String, Vec<Attr>) = match dom.data(h) {
            NodeData::Element { name, attrs, .. } => {
                proof {
                    assert(d.nodes[h.idx as int].data matches DataView::Element {
                        name: nv,
                        attrs: av,
                        ..
                    } && nv == name@ && av == attrs@.map_values(|a: Attr| a@));
                }
                (name.local.clone(), clone_attrs(attrs))
            },
            _ => {
                proof {
                    assert(false);
                }
                (String::new(), Vec::new())
            },
        };
        let is_wrap = str_eq(local_name.as_str(), "ul") || str_eq(local_name.as_str(), "ol")
            || str_eq(local_name.as_str(), "p");
        let is_item = str_eq(local_name.as_str(), "li");
        if !is_wrap && !is_item {
            return (None, true);
        }
        if !is_wrap {
            let new_li = dom.create_element(
                QualName { ns: String::new(), local: local_name.clone() },
                attrs_copy,
                ElementFlags { template: false, mathml_annotation_xml_integration_point: false },
            );
            let ghost d1 = dom@;
            move_sanitized_children(dom, h, new_li);
            proof {
                let fd = dom@;
                let hi = h.idx as int;
                let cs = d.nodes[hi].children;
                assert(d1.nodes[hi].children == cs);
                if old(dom).coalesced() {
                    assert(sanitized_children_ok(
                        d1,
                        fd,
                        cs,
                        fd.nodes[new_li.idx as int].children,
                    ));
                    assert forall|k: int| 0 <= k < cs.len() implies #[trigger] sanitized_child_ok(
                        d,
                        fd,
                        cs[k],
                        fd.nodes[new_li.idx as int].children[k],
                    ) by {
                        assert(sanitized_child_ok(
                            d1,
                            fd,
                            cs[k],
                            fd.nodes[new_li.idx as int].children[k],
                        ));
                        assert(valid_id(d, cs[k]));
                        assert(d1.nodes[cs[k]].data == d.nodes[cs[k]].data);
                    }
                    assert(sanitized_children_ok(
                        d,
                        fd,
                        cs,
                        fd.nodes[new_li.idx as int].children,
                    ));
                }
                assert(fd.nodes[new_li.idx as int].data matches DataView::Element {
                    name: nv2,
                    ..
                } && nv2.local == local_name@ && nv2.ns == Seq::<char>::empty());
                assert(attrs_of(fd, new_li.idx as int) == attrs_of(d, hi));
            }
            return (Some(new_li), false);
        }
        // A wrapping element: build the rich-text container first.
        let uuid = fresh_uuid_string();
        let mut rich_attrs: Vec<Attr> = Vec::new();
        rich_attrs.push(Attr { name: String::from_str("id"), value: uuid.clone() });
        let rich = dom.create_element(
            QualName { ns: String::new(), local: String::from_str("rich-text") },
            rich_attrs,
            ElementFlags { template: false, mathml_annotation_xml_integration_point: false },
        );
        let ghost d1 = dom@;
        move_sanitized_children(dom, h, rich);
        let ghost d2 = dom@;
        proof {
            let hi = h.idx as int;
            let cs = d.nodes[hi].children;
            assert(d1.nodes[hi].children == cs);
            if old(dom).coalesced() {
                assert(sanitized_children_ok(d1, d2, cs, d2.nodes[rich.idx as int].children));
            }
        }
        let new_elem = dom.create_element(
            QualName { ns: String::new(), local: local_name.clone() },
            attrs_copy,
            ElementFlags { template: false, mathml_annotation_xml_integration_point: false },
        );
        let ghost d3 = dom@;
        let res = dom.append_child(new_elem, rich);
        proof {
            reveal_strlit("id");
            reveal_strlit("rich-text");
            reveal_strlit("p");
            assert(d3.nodes[rich.idx as int].parent is None);
            assert(!(d3.nodes[rich.idx as int].data is Document));
            assert(!ancestor_blocked(
                d3,
                new_elem.idx as int,
                rich.idx as int,
                d3.nodes.len() as nat,
            )) by {
                assert(d3.nodes[new_elem.idx as int].parent is None);
                assert(new_elem.idx != rich.idx);
            }
            assert(res is Ok);
            assert(!crate::dom::appends_coalesce(d3, new_elem.idx as int, rich.idx as int));
            assert(final(dom)@.nodes[new_elem.idx as int].children =~= seq![rich.idx as int]);
        }
        proof {
            let fd = dom@;
            let hi = h.idx as int;
            let cs = d.nodes[hi].children;
            if old(dom).coalesced() {
                // Nothing after the move touched the data of any node, the
                // rich container's child list, or the emptied original.
                assert(forall|x: int|
                    0 <= x < d2.nodes.len() ==> (#[trigger] fd.nodes[x].data)
                        == d2.nodes[x].data);
                assert(fd.nodes[rich.idx as int].children == d2.nodes[rich.idx as int].children);
                assert(fd.nodes[hi].children == d2.nodes[hi].children);
                assert(fd.nodes[hi].children.len() == 0);
                assert forall|k: int| 0 <= k < cs.len() implies #[trigger] sanitized_child_ok(
                    d,
                    fd,
                    cs[k],
                    fd.nodes[rich.idx as int].children[k],
                ) by {
                    assert(sanitized_child_ok(
                        d1,
                        d2,
                        cs[k],
                        d2.nodes[rich.idx as int].children[k],
                    ));
                    assert(valid_id(d, cs[k]));
                    assert(d1.nodes[cs[k]].data == d.nodes[cs[k]].data);
                }
                assert(sanitized_children_ok(d, fd, cs, fd.nodes[rich.idx as int].children));
            }
        }
        let inner: String = match dom.to_html_string(rich) {
            Ok(s) => s,
            Err(_) => String::new(),
        };
        self.html_map.insert(uuid, inner);
        let keep_descending = !str_eq(local_name.as_str(), "p");
        (Some(new_elem), keep_descending)
    }
}

} // verus!
