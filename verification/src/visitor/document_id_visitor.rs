//! A pass that numbers reference anchors: each `a` element carrying a
//! `data-ref` identifier is assigned a stable document-order number, the
//! same identifier always getting the same number, and the anchor's first
//! text child is rewritten to that number.

use vstd::prelude::*;

use crate::dom::{
    attrs_of, is_text, set_text_m, valid_id, Attr, AttrView, DataView, Dom, DomView, Handle,
    NodeData,
};
use crate::text::{dec_digits, str_eq, u64_to_string};
use crate::visitor::NodeVisitor;

verus! {

/// The number assigned to an identifier by an association list, if any.
pub open spec fn assoc_of(s: Seq<(Seq<char>, u64)>, k: Seq<char>) -> Option<u64>
    decreases s.len(),
{
    if s.len() == 0 {
        None
    } else if s[0].0 == k {
        Some(s[0].1)
    } else {
        assoc_of(s.drop_first(), k)
    }
}

/// The value of the first `data-ref` attribute, if any.
pub open spec fn first_data_ref(attrs: Seq<AttrView>) -> Option<Seq<char>>
    decreases attrs.len(),
{
    if attrs.len() == 0 {
        None
    } else if attrs[0].name == "data-ref"@ {
        Some(attrs[0].value)
    } else {
        first_data_ref(attrs.drop_first())
    }
}

/// A visitor that assigns stable numbers to reference identifiers.
pub struct DocumentIdVisitor {
    document_id_cursor: u64,
    ref_map: Vec<(String, u64)>,
}

impl DocumentIdVisitor {
    /// The identifier-to-number assignment built so far.
    pub closed spec fn spec_assoc(&self) -> Seq<(Seq<char>, u64)> {
        self.ref_map@.map_values(|e: (String, u64)| (e.0@, e.1))
    }

    /// The next number to hand out.
    pub closed spec fn spec_cursor(&self) -> u64 {
        self.document_id_cursor
    }

    /// A fresh visitor: numbering starts at one.
    pub fn new() -> (v: DocumentIdVisitor)
        ensures
            v.spec_cursor() == 1,
            v.spec_assoc().len() == 0,
    {
        let v = DocumentIdVisitor { document_id_cursor: 1, ref_map: Vec::new() };
        proof {
            assert(v.spec_assoc() =~= Seq::<(Seq<char>, u64)>::empty());
        }
        v
    }

    /// The number for an identifier, assigning the next free one on first
    /// sight.
    fn get_or_assign(&mut self, key: String) -> (id: u64)
        ensures
            match assoc_of(old(self).spec_assoc(), key@) {
                Some(v) => id == v && final(self).spec_assoc() == old(self).spec_assoc()
                    && final(self).spec_cursor() == old(self).spec_cursor(),
                None => id == old(self).spec_cursor() && final(self).spec_assoc() == old(self).spec_assoc().push((key@, id)) && (old(self).spec_cursor() < u64::MAX ==> final(self).spec_cursor() == old(self).spec_cursor() + 1),
            },
    {
        let ghost a = self.spec_assoc();
        let n = self.ref_map.len();
        let mut i: usize = 0;
        proof {
            assert(a.subrange(0, n as int) =~= a);
        }
        while i < n
            invariant
                i <= n,
                n == self.ref_map@.len(),
                self == old(self),
                a == self.spec_assoc(),
                assoc_of(a, key@) == assoc_of(a.subrange(i as int, n as int), key@),
            decreases n - i,
        {
            proof {
                let rest = a.subrange(i as int, n as int);
                assert(rest[0] == a[i as int]);
                assert(rest.drop_first() =~= a.subrange(i + 1, n as int));
            }
            if str_eq(self.ref_map[i].0.as_str(), key.as_str()) {
                return self.ref_map[i].1;
            }
            i = i + 1;
        }
        proof {
            assert(a.subrange(n as int, n as int) =~= Seq::<(Seq<char>, u64)>::empty());
        }
        let id = self.document_id_cursor;
        self.ref_map.push((key, id));
        if self.document_id_cursor < u64::MAX {
            self.document_id_cursor = self.document_id_cursor + 1;
        }
        proof {
            assert(self.spec_assoc() =~= a.push((key@, id)));
        }
        id
    }
}

impl Default for DocumentIdVisitor {
    fn default() -> (v: DocumentIdVisitor)
        ensures
            v.spec_cursor() == 1,
            v.spec_assoc().len() == 0,
    {
        DocumentIdVisitor::new()
    }
}

/// What the pass's element callback establishes: only `a` elements with a
/// `data-ref` attribute have any effect.  The identifier's number is the
/// recorded one, or the cursor on first sight, the assignment list and the
/// cursor advancing accordingly; an anchor whose first child is text gets
/// that child rewritten to the number's decimal rendering.
pub open spec fn document_id_element_ok(
    pre: DocumentIdVisitor,
    post: DocumentIdVisitor,
    d: DomView,
    hi: int,
    fd: DomView,
) -> bool {
    let is_anchor = (d.nodes[hi].data matches DataView::Element { name, .. } && name.local
        == "a"@);
    let refv = first_data_ref(attrs_of(d, hi));
    &&& (!is_anchor || refv is None ==> fd == d && post.spec_assoc() == pre.spec_assoc()
        && post.spec_cursor() == pre.spec_cursor())
    &&& (is_anchor && refv is Some ==> {
        let id = match assoc_of(pre.spec_assoc(), refv->0) {
            Some(v) => v,
            None => pre.spec_cursor(),
        };
        &&& (match assoc_of(pre.spec_assoc(), refv->0) {
            Some(v) => post.spec_assoc() == pre.spec_assoc() && post.spec_cursor()
                == pre.spec_cursor(),
            None => post.spec_assoc() == pre.spec_assoc().push((refv->0, id)) && (
            pre.spec_cursor() < u64::MAX ==> post.spec_cursor() == pre.spec_cursor() + 1),
        })
        &&& (d.nodes[hi].children.len() > 0 && is_text(d, d.nodes[hi].children[0]) ==> fd
            == set_text_m(d, d.nodes[hi].children[0], dec_digits(id as nat)))
        &&& (!(d.nodes[hi].children.len() > 0 && is_text(d, d.nodes[hi].children[0])) ==> fd == d)
    })
}

impl NodeVisitor for DocumentIdVisitor {
    /// The pass acts on elements alone; every other kind passes through
    /// untouched.
    open spec fn callback_ok(
        &self,
        pre: Self,
        d0: DomView,
        h: int,
        d1: DomView,
        rep: Option<int>,
        cont: bool,
    ) -> bool {
        match d0.nodes[h].data {
            DataView::Element { .. } => rep is None && cont && document_id_element_ok(
                pre,
                *self,
                d0,
                h,
                d1,
            ),
            _ => d1 == d0 && *self == pre && rep is None && cont,
        }
    }

    fn visit_document(&mut self, dom: &mut Dom, h: Handle) -> (r: (Option<Handle>, bool)) {
        (None, true)
    }

    fn visit_doctype(&mut self, dom: &mut Dom, h: Handle) -> (r: (Option<Handle>, bool)) {
        (None, true)
    }

    fn visit_text(&mut self, dom: &mut Dom, h: Handle) -> (r: (Option<Handle>, bool)) {
        (None, true)
    }

    fn visit_comment(&mut self, dom: &mut Dom, h: Handle) -> (r: (Option<Handle>, bool)) {
        (None, true)
    }

    fn visit_processing_instruction(&mut self, dom: &mut Dom, h: Handle) -> (r: (
        Option<Handle>,
        bool,
    )) {
        (None, true)
    }

    /// On an `a` element with a `data-ref` attribute: look the identifier's
    /// number up, assigning the next free one on first sight, and rewrite
    /// the anchor's first text child to that number.
    fn visit_element(&mut self, dom: &mut Dom, h: Handle) -> (r: (Option<Handle>, bool))
        ensures
            r == (None::<Handle>, true),
            document_id_element_ok(
                *old(self),
                *final(self),
                old(dom)@,
                h.idx as int,
                final(dom)@,
            ),
    {
        let ghost d = dom@;
        let (is_anchor, refv): (bool, Option<String>) = match dom.data(h) {
            NodeData::Element { name, attrs, .. } => {
                let anchor = str_eq(name.local.as_str(), "a");
                let ghost av = attrs@.map_values(|a: Attr| a@);
                let n = attrs.len();
                let mut i: usize = 0;
                let mut res: Option<String> = None;
                proof {
                    assert(av.subrange(0, n as int) =~= av);
                }
                while i < n && res.is_none()
                    invariant
                        i <= n,
                        n == attrs@.len(),
                        av == attrs@.map_values(|a: Attr| a@),
                        res is None ==> first_data_ref(av) == first_data_ref(
                            av.subrange(i as int, n as int),
                        ),
                        res matches Some(v) ==> first_data_ref(av) == Some(v@),
                    decreases n - i + (if res is Some {
                        0int
                    } else {
                        1int
                    }),
                {
                    proof {
                        let rest = av.subrange(i as int, n as int);
                        assert(rest[0] == av[i as int]);
                        assert(rest.drop_first() =~= av.subrange(i + 1, n as int));
                    }
                    if str_eq(attrs[i].name.as_str(), "data-ref") {
                        res = Some(attrs[i].value.clone());
                    } else {
                        i = i + 1;
                    }
                }
                proof {
                    if res is None {
                        assert(av.subrange(n as int, n as int) =~= Seq::<AttrView>::empty());
                    }
                }
                (anchor, res)
            },
            _ => {
                proof {
                    assert(false);
                }
                (false, None)
            },
        };
        if !is_anchor {
            return (None, true);
        }
        let uuid = match refv {
            Some(u) => u,
            None => {
                return (None, true);
            },
        };
        let id = self.get_or_assign(uuid);
        if dom.child_count(h) > 0 {
            let first = dom.child_at(h, 0);
            if matches!(dom.data(first), NodeData::Text { .. }) {
                let rendered = u64_to_string(id);
                let res = dom.set_text(first, rendered);
                proof {
                    assert(res is Ok);
                }
            }
        }
        (None, true)
    }
}

} // verus!
