//! A pass that hoists the source reference of media elements: the first
//! `source` child's `src` value moves onto the parent `img` or `video`
//! element, and the element's children are then removed.

use vstd::prelude::*;

use crate::dom::{
    attrs_of, clear_children_m, set_attr_m, set_attrs_m, valid_id, Attr, AttrView, DataView, Dom,
    DomView, Handle, NodeData,
};
use crate::text::str_eq;
use crate::visitor::NodeVisitor;

verus! {

/// The value of the first `src` attribute, if any.
pub open spec fn first_src_attr(attrs: Seq<AttrView>) -> Option<Seq<char>>
    decreases attrs.len(),
{
    if attrs.len() == 0 {
        None
    } else if attrs[0].name == "src"@ {
        Some(attrs[0].value)
    } else {
        first_src_attr(attrs.drop_first())
    }
}

/// Is this node an element with the given local name?
pub open spec fn is_named_element(d: DomView, c: int, name: Seq<char>) -> bool {
    valid_id(d, c) && (d.nodes[c].data matches DataView::Element { name: q, .. } && q.local
        == name)
}

/// The first `source` element in a child list, if any.
pub open spec fn first_source_in(d: DomView, cs: Seq<int>) -> Option<int>
    decreases cs.len(),
{
    if cs.len() == 0 {
        None
    } else if is_named_element(d, cs[0], "source"@) {
        Some(cs[0])
    } else {
        first_source_in(d, cs.drop_first())
    }
}

/// The `src` value hoisted onto a media element, if any: the first `src`
/// attribute of the first `source` child.
pub open spec fn hoisted_src(d: DomView, h: int) -> Option<Seq<char>> {
    match first_source_in(d, d.nodes[h].children) {
        None => None,
        Some(c) => first_src_attr(attrs_of(d, c)),
    }
}

/// A visitor that moves source references from `source` children onto their
/// parent `img` or `video` element.
pub struct SourceAttributeVisitor;

impl SourceAttributeVisitor {
    pub fn new() -> (v: SourceAttributeVisitor) {
        SourceAttributeVisitor
    }
}

impl Default for SourceAttributeVisitor {
    fn default() -> (v: SourceAttributeVisitor) {
        SourceAttributeVisitor::new()
    }
}

/// Find the first `source` child of a node.
fn find_first_source(dom: &Dom, h: Handle) -> (r: Option<Handle>)
    requires
        dom.wf(),
        dom.spec_valid(h),
    ensures
        match r {
            Some(c) => first_source_in(dom@, dom@.nodes[h.idx as int].children) == Some(
                c.idx as int,
            ) && dom.spec_valid(c) && is_named_element(dom@, c.idx as int, "source"@),
            None => first_source_in(dom@, dom@.nodes[h.idx as int].children) is None,
        },
{
    let ghost cs = dom@.nodes[h.idx as int].children;
    let cnt = dom.child_count(h);
    let mut k: usize = 0;
    proof {
        assert(cs.subrange(0, cnt as int) =~= cs);
    }
    while k < cnt
        invariant
            k <= cnt,
            dom.wf(),
            dom.spec_valid(h),
            cnt == cs.len(),
            cs == dom@.nodes[h.idx as int].children,
            first_source_in(dom@, cs) == first_source_in(
                dom@,
                cs.subrange(k as int, cnt as int),
            ),
        decreases cnt - k,
    {
        let c = dom.child_at(h, k);
        proof {
            let rest = cs.subrange(k as int, cnt as int);
            assert(rest[0] == c.idx as int);
            assert(rest.drop_first() =~= cs.subrange(k + 1, cnt as int));
        }
        let is_source = match dom.data(c) {
            NodeData::Element { name, .. } => str_eq(name.local.as_str(), "source"),
            _ => false,
        };
        if is_source {
            return Some(c);
        }
        k = k + 1;
    }
    proof {
        assert(cs.subrange(cnt as int, cnt as int) =~= Seq::<int>::empty());
    }
    None
}

/// Extract the first `src` attribute value of an element's attribute list.
fn extract_first_src(attrs: &Vec<Attr>) -> (r: Option<String>)
    ensures
        match r {
            Some(v) => first_src_attr(attrs@.map_values(|a: Attr| a@)) == Some(v@),
            None => first_src_attr(attrs@.map_values(|a: Attr| a@)) is None,
        },
{
    let ghost av = attrs@.map_values(|a: Attr| a@);
    let n = attrs.len();
    let mut i: usize = 0;
    proof {
        assert(av.subrange(0, n as int) =~= av);
    }
    while i < n
        invariant
            i <= n,
            n == attrs@.len(),
            av == attrs@.map_values(|a: Attr| a@),
            first_src_attr(av) == first_src_attr(av.subrange(i as int, n as int)),
        decreases n - i,
    {
        proof {
            let rest = av.subrange(i as int, n as int);
            assert(rest[0] == av[i as int]);
            assert(rest.drop_first() =~= av.subrange(i + 1, n as int));
        }
        if str_eq(attrs[i].name.as_str(), "src") {
            return Some(attrs[i].value.clone());
        }
        i = i + 1;
    }
    proof {
        assert(av.subrange(n as int, n as int) =~= Seq::<AttrView>::empty());
    }
    None
}

/// What the pass's element callback establishes: media elements get the
/// first `source` child's `src` value hoisted and their children removed;
/// a bare `source` element is left alone and not descended into;
/// everything else passes through.
pub open spec fn source_element_ok(
    d: DomView,
    hi: int,
    fd: DomView,
    rep: Option<int>,
    cont: bool,
) -> bool {
    let media = (d.nodes[hi].data matches DataView::Element { name, .. } && (name.local == "img"@
        || name.local == "video"@));
    let source = (d.nodes[hi].data matches DataView::Element { name, .. } && name.local
        == "source"@);
    &&& rep is None
    &&& (media ==> cont && fd == clear_children_m(
        match hoisted_src(d, hi) {
            Some(v) => set_attrs_m(d, hi, set_attr_m(attrs_of(d, hi), "src"@, v)),
            None => d,
        },
        hi,
    ))
    &&& (!media ==> fd == d && (source ==> !cont) && (!source ==> cont))
}

impl NodeVisitor for SourceAttributeVisitor {
    /// The pass acts on elements alone; every other kind passes through
    /// untouched.
    open spec fn callback_ok(
        &self,
        pre: Self,
        d0: DomView,
        h: int,
        d1: DomView,
        rep: Option<int>,
        cont: bool,
    ) -> bool {
        match d0.nodes[h].data {
            DataView::Element { .. } => source_element_ok(d0, h, d1, rep, cont) && *self == pre,
            _ => d1 == d0 && *self == pre && rep is None && cont,
        }
    }

    fn visit_document(&mut self, dom: &mut Dom, h: Handle) -> (r: (Option<Handle>, bool)) {
        (None, true)
    }

    fn visit_doctype(&mut self, dom: &mut Dom, h: Handle) -> (r: (Option<Handle>, bool)) {
        (None, true)
    }

    fn visit_text(&mut self, dom: &mut Dom, h: Handle) -> (r: (Option<Handle>, bool)) {
        (None, true)
    }

    fn visit_comment(&mut self, dom: &mut Dom, h: Handle) -> (r: (Option<Handle>, bool)) {
        (None, true)
    }

    fn visit_processing_instruction(&mut self, dom: &mut Dom, h: Handle) -> (r: (
        Option<Handle>,
        bool,
    )) {
        (None, true)
    }

    /// On `img` and `video` elements: hoist the first `source` child's
    /// `src` value onto the element, then remove all its children.  A bare
    /// `source` element is left alone and not descended into; everything
    /// else passes through.
    fn visit_element(&mut self, dom: &mut Dom, h: Handle) -> (r: (Option<Handle>, bool))
        ensures
            ({
                let d = old(dom)@;
                let hi = h.idx as int;
                let media = (d.nodes[hi].data matches DataView::Element { name, .. } && (name.local
                    == "img"@ || name.local == "video"@));
                &&& (media ==> r == (None::<Handle>, true) && final(dom)@ == clear_children_m(
                    match hoisted_src(d, hi) {
                        Some(v) => set_attrs_m(d, hi, set_attr_m(attrs_of(d, hi), "src"@, v)),
                        None => d,
                    },
                    hi,
                ))
                &&& (!media ==> final(dom)@ == d && ((d.nodes[hi].data
                    matches DataView::Element { name, .. } && name.local == "source"@) ==> r == (
                None::<Handle>, false)) && (!(d.nodes[hi].data matches DataView::Element {
                    name,
                    ..
                } && name.local == "source"@) ==> r == (None::<Handle>, true)))
            }),
    {
        let ghost d = dom@;
        let (is_media, is_source) = match dom.data(h) {
            NodeData::Element { name, .. } => (
                str_eq(name.local.as_str(), "img") || str_eq(name.local.as_str(), "video"),
                str_eq(name.local.as_str(), "source"),
            ),
            _ => {
                proof {
                    assert(false);
                }
                (false, false)
            },
        };
        if is_media {
            let src: Option<String> = match find_first_source(dom, h) {
                Some(c) => match dom.data(c) {
                    NodeData::Element { attrs, .. } => extract_first_src(attrs),
                    _ => {
                        proof {
                            assert(false);
                        }
                        None
                    },
                },
                None => None,
            };
            match src {
                Some(v) => {
                    let arrow = String::from_str("src");
                    proof {
                        reveal_strlit("src");
                    }
                    let res = dom.update_attr_value(h, arrow, v);
                    proof {
                        assert(res is Ok);
                    }
                },
                None => {},
            }
            dom.clear_children(h);
            (None, true)
        } else if is_source {
            (None, false)
        } else {
            (None, true)
        }
    }
}

} // verus!
