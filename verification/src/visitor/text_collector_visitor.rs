//! A pass that collects text content under the most recently seen element
//! identifier: text met while an `id` is current is appended to that
//! identifier's entry in the output mapping.

use vstd::prelude::*;

use crate::dom::{attrs_of, AttrView, DataView, Dom, DomView, Handle, NodeData, Attr};
use crate::strmap::StringMap;
use crate::text::str_eq;
use crate::visitor::NodeVisitor;

verus! {

/// The value of the first `id` attribute, if any.
pub open spec fn first_id_attr(attrs: Seq<AttrView>) -> Option<Seq<char>>
    decreases attrs.len(),
{
    if attrs.len() == 0 {
        None
    } else if attrs[0].name == "id"@ {
        Some(attrs[0].value)
    } else {
        first_id_attr(attrs.drop_first())
    }
}

/// A visitor that maps element identifiers to the concatenation of the
/// text found below them.
pub struct TextCollectorVisitor {
    text_map: StringMap,
    current_id: Option<String>,
}

impl TextCollectorVisitor {
    /// The identifier-to-text mapping built so far.
    pub closed spec fn spec_map(&self) -> Map<Seq<char>, Seq<char>> {
        self.text_map@
    }

    /// The identifier in scope, if any.
    pub closed spec fn spec_current(&self) -> Option<Seq<char>> {
        match self.current_id {
            Some(s) => Some(s@),
            None => None,
        }
    }

    /// A fresh collector with no mapping and no identifier in scope.
    pub fn new() -> (v: TextCollectorVisitor)
        ensures
            v.spec_map() == Map::<Seq<char>, Seq<char>>::empty(),
            v.spec_current() is None,
    {
        TextCollectorVisitor { text_map: StringMap::new(), current_id: None }
    }

    /// The identifier-to-text mapping.
    pub fn text_map(&self) -> (m: &StringMap)
        ensures
            m@ == self.spec_map(),
    {
        &self.text_map
    }
}

impl Default for TextCollectorVisitor {
    fn default() -> (v: TextCollectorVisitor)
        ensures
            v.spec_map() == Map::<Seq<char>, Seq<char>>::empty(),
            v.spec_current() is None,
    {
        TextCollectorVisitor::new()
    }
}

/// What the pass's text callback establishes: the text is appended to the
/// current identifier's entry, a fresh entry starting empty; with no
/// identifier in scope nothing changes.
pub open spec fn collector_text_ok(
    pre: TextCollectorVisitor,
    post: TextCollectorVisitor,
    d: DomView,
    hi: int,
) -> bool {
    &&& post.spec_current() == pre.spec_current()
    &&& match pre.spec_current() {
        Some(id) => post.spec_map() == pre.spec_map().insert(
            id,
            (if pre.spec_map().contains_key(id) {
                pre.spec_map()[id]
            } else {
                Seq::<char>::empty()
            }) + crate::dom::text_contents(d.nodes[hi].data),
        ),
        None => post.spec_map() == pre.spec_map(),
    }
}

impl NodeVisitor for TextCollectorVisitor {
    /// The pass reads elements and text and rewrites nothing: an element
    /// sets the identifier in scope, text feeds the mapping, and every
    /// other kind passes through untouched.
    open spec fn callback_ok(
        &self,
        pre: Self,
        d0: DomView,
        h: int,
        d1: DomView,
        rep: Option<int>,
        cont: bool,
    ) -> bool {
        &&& d1 == d0
        &&& rep is None
        &&& cont
        &&& match d0.nodes[h].data {
            DataView::Element { .. } => self.spec_map() == pre.spec_map() && self.spec_current()
                == first_id_attr(attrs_of(d0, h)),
            DataView::Text { .. } => collector_text_ok(pre, *self, d0, h),
            _ => *self == pre,
        }
    }

    fn visit_document(&mut self, dom: &mut Dom, h: Handle) -> (r: (Option<Handle>, bool)) {
        (None, true)
    }

    fn visit_doctype(&mut self, dom: &mut Dom, h: Handle) -> (r: (Option<Handle>, bool)) {
        (None, true)
    }

    fn visit_comment(&mut self, dom: &mut Dom, h: Handle) -> (r: (Option<Handle>, bool)) {
        (None, true)
    }

    fn visit_processing_instruction(&mut self, dom: &mut Dom, h: Handle) -> (r: (
        Option<Handle>,
        bool,
    )) {
        (None, true)
    }

    /// Remember the element's first `id` attribute value as the current
    /// identifier; an element without one clears it.
    fn visit_element(&mut self, dom: &mut Dom, h: Handle) -> (r: (Option<Handle>, bool))
        ensures
            final(dom)@ == old(dom)@,
            r == (None::<Handle>, true),
            final(self).spec_map() == old(self).spec_map(),
            final(self).spec_current() == first_id_attr(attrs_of(old(dom)@, h.idx as int)),
    {
        let ghost av = attrs_of(dom@, h.idx as int);
        let found: Option<String> = match dom.data(h) {
            NodeData::Element { attrs, .. } => {
                let n = attrs.len();
                let mut i: usize = 0;
                let mut res: Option<String> = None;
                proof {
                    assert(av == attrs@.map_values(|a: Attr| a@));
                    assert(av.subrange(0, n as int) =~= av);
                }
                while i < n && res.is_none()
                    invariant
                        i <= n,
                        n == attrs@.len(),
                        av == attrs@.map_values(|a: Attr| a@),
                        res is None ==> first_id_attr(av) == first_id_attr(
                            av.subrange(i as int, n as int),
                        ),
                        res matches Some(v) ==> first_id_attr(av) == Some(v@),
                    decreases n - i + (if res is Some {
                        0int
                    } else {
                        1int
                    }),
                {
                    proof {
                        let rest = av.subrange(i as int, n as int);
                        assert(rest[0] == av[i as int]);
                        assert(rest.drop_first() =~= av.subrange(i + 1, n as int));
                    }
                    if str_eq(attrs[i].name.as_str(), "id") {
                        res = Some(attrs[i].value.clone());
                    } else {
                        i = i + 1;
                    }
                }
                proof {
                    if res is None {
                        assert(av.subrange(n as int, n as int) =~= Seq::<AttrView>::empty());
                    }
                }
                res
            },
            _ => {
                proof {
                    assert(false);
                }
                None
            },
        };
        self.current_id = found;
        (None, true)
    }

    /// Append this text to the current identifier's entry, starting a new
    /// entry when the identifier has none yet.
    fn visit_text(&mut self, dom: &mut Dom, h: Handle) -> (r: (Option<Handle>, bool))
        ensures
            final(dom)@ == old(dom)@,
            r == (None::<Handle>, true),
            final(self).spec_current() == old(self).spec_current(),
            match old(self).spec_current() {
                Some(id) => final(self).spec_map() == old(self).spec_map().insert(
                    id,
                    (if old(self).spec_map().contains_key(id) {
                        old(self).spec_map()[id]
                    } else {
                        Seq::<char>::empty()
                    }) + crate::dom::text_contents(old(dom)@.nodes[h.idx as int].data),
                ),
                None => final(self).spec_map() == old(self).spec_map(),
            },
    {
        let id: Option<String> = match &self.current_id {
            Some(s) => Some(s.clone()),
            None => None,
        };
        match id {
            Some(s) => {
                let text: String = match dom.data(h) {
                    NodeData::Text { contents } => contents.clone(),
                    _ => {
                        proof {
                            assert(false);
                        }
                        String::new()
                    },
                };
                self.text_map.append_value(s, text.as_str());
            },
            None => {},
        }
        (None, true)
    }
}

} // verus!
