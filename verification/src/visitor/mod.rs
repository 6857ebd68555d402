//! The visitor engine: a generic pre-order traversal and rewrite driver.
//!
//! A pass supplies one callback per node kind; each returns an optional
//! replacement node and a continuation flag.  The engine substitutes the
//! replacement, and when continuation is requested it rebuilds the result's
//! child list from the traversal of each child, preserving order.  A pass
//! that wraps a subtree in a fresh container returns the wrapper together
//! with a cleared flag, so the engine never re-visits content the pass just
//! inserted.  The engine itself never fails: a child whose reattachment is
//! refused is left detached, best-effort.
//!
//! Each pass defines its callback relation [`NodeVisitor::callback_ok`],
//! which every callback establishes; the engine's contract, the relation
//! [`traversed`], then transmits the pass's whole effect: the returned root
//! is the replacement or the original, and under a requested continuation
//! its child list is rebuilt from the in-order traversal of the children it
//! had when the callback returned.

pub mod asset_mover_visitor;
pub mod document_id_visitor;
pub mod orphan_visitor;
pub mod rich_text_wrapper_visitor;
pub mod source_attribute_visitor;
pub mod text_collector_visitor;

use vstd::prelude::*;

use crate::dom::{
    append_child_err, append_child_ok, clear_children_m, Dom, DomView, Handle, NodeData,
};

verus! {

/// The index of a replacement handle, if any.
pub open spec fn rep_view(r: Option<Handle>) -> Option<int> {
    match r {
        Some(n) => Some(n.idx as int),
        None => None,
    }
}

/// A pass over the tree: one callback per node kind.  Every callback keeps
/// the tree well formed and coalesced, never shrinks the arena, hands back
/// a valid replacement if any, and establishes the pass's own callback
/// relation, through which the engine's contract transmits the pass's
/// effect.
pub trait NodeVisitor: Sized {
    /// What one callback invocation establishes, from the visitor and the
    /// tree before the call to those after: how the visited node, the
    /// replacement and the continuation flag relate them.
    spec fn callback_ok(
        &self,
        pre: Self,
        d0: DomView,
        h: int,
        d1: DomView,
        rep: Option<int>,
        cont: bool,
    ) -> bool;

    /// Visit the document root.
    fn visit_document(&mut self, dom: &mut Dom, h: Handle) -> (r: (Option<Handle>, bool))
        requires
            old(dom).wf(),
            old(dom).spec_valid(h),
            old(dom)@.nodes[h.idx as int].parent is None,
            old(dom)@.nodes[h.idx as int].data is Document,
        ensures
            final(dom).wf(),
            old(dom).coalesced() ==> final(dom).coalesced(),
            final(dom)@.nodes.len() >= old(dom)@.nodes.len(),
            (r.0 matches Some(n) ==> final(dom).spec_valid(n)),
            final(self).callback_ok(
                *old(self),
                old(dom)@,
                h.idx as int,
                final(dom)@,
                rep_view(r.0),
                r.1,
            ),
    ;

    /// Visit a doctype node.
    fn visit_doctype(&mut self, dom: &mut Dom, h: Handle) -> (r: (Option<Handle>, bool))
        requires
            old(dom).wf(),
            old(dom).spec_valid(h),
            old(dom)@.nodes[h.idx as int].parent is None,
            old(dom)@.nodes[h.idx as int].data is Doctype,
        ensures
            final(dom).wf(),
            old(dom).coalesced() ==> final(dom).coalesced(),
            final(dom)@.nodes.len() >= old(dom)@.nodes.len(),
            (r.0 matches Some(n) ==> final(dom).spec_valid(n)),
            final(self).callback_ok(
                *old(self),
                old(dom)@,
                h.idx as int,
                final(dom)@,
                rep_view(r.0),
                r.1,
            ),
    ;

    /// Visit a text node.
    fn visit_text(&mut self, dom: &mut Dom, h: Handle) -> (r: (Option<Handle>, bool))
        requires
            old(dom).wf(),
            old(dom).spec_valid(h),
            old(dom)@.nodes[h.idx as int].parent is None,
            old(dom)@.nodes[h.idx as int].data is Text,
        ensures
            final(dom).wf(),
            old(dom).coalesced() ==> final(dom).coalesced(),
            final(dom)@.nodes.len() >= old(dom)@.nodes.len(),
            (r.0 matches Some(n) ==> final(dom).spec_valid(n)),
            final(self).callback_ok(
                *old(self),
                old(dom)@,
                h.idx as int,
                final(dom)@,
                rep_view(r.0),
                r.1,
            ),
    ;

    /// Visit a comment node.
    fn visit_comment(&mut self, dom: &mut Dom, h: Handle) -> (r: (Option<Handle>, bool))
        requires
            old(dom).wf(),
            old(dom).spec_valid(h),
            old(dom)@.nodes[h.idx as int].parent is None,
            old(dom)@.nodes[h.idx as int].data is Comment,
        ensures
            final(dom).wf(),
            old(dom).coalesced() ==> final(dom).coalesced(),
            final(dom)@.nodes.len() >= old(dom)@.nodes.len(),
            (r.0 matches Some(n) ==> final(dom).spec_valid(n)),
            final(self).callback_ok(
                *old(self),
                old(dom)@,
                h.idx as int,
                final(dom)@,
                rep_view(r.0),
                r.1,
            ),
    ;

    /// Visit an element node.
    fn visit_element(&mut self, dom: &mut Dom, h: Handle) -> (r: (Option<Handle>, bool))
        requires
            old(dom).wf(),
            old(dom).spec_valid(h),
            old(dom)@.nodes[h.idx as int].parent is None,
            old(dom)@.nodes[h.idx as int].data is Element,
        ensures
            final(dom).wf(),
            old(dom).coalesced() ==> final(dom).coalesced(),
            final(dom)@.nodes.len() >= old(dom)@.nodes.len(),
            (r.0 matches Some(n) ==> final(dom).spec_valid(n)),
            final(self).callback_ok(
                *old(self),
                old(dom)@,
                h.idx as int,
                final(dom)@,
                rep_view(r.0),
                r.1,
            ),
    ;

    /// Visit a processing-instruction node.
    fn visit_processing_instruction(&mut self, dom: &mut Dom, h: Handle) -> (r: (
        Option<Handle>,
        bool,
    ))
        requires
            old(dom).wf(),
            old(dom).spec_valid(h),
            old(dom)@.nodes[h.idx as int].parent is None,
            old(dom)@.nodes[h.idx as int].data is ProcessingInstruction,
        ensures
            final(dom).wf(),
            old(dom).coalesced() ==> final(dom).coalesced(),
            final(dom)@.nodes.len() >= old(dom)@.nodes.len(),
            (r.0 matches Some(n) ==> final(dom).spec_valid(n)),
            final(self).callback_ok(
                *old(self),
                old(dom)@,
                h.idx as int,
                final(dom)@,
                rep_view(r.0),
                r.1,
            ),
    ;
}

/// Appending as the engine does, best effort: the appended tree where the
/// append is accepted, the tree unchanged where it is refused.
pub open spec fn append_attempt_m(d: DomView, p: int, c: int) -> DomView {
    if append_child_err(d, p, c) is None {
        append_child_ok(d, p, c)
    } else {
        d
    }
}

/// The engine's effect at one node: a callback outcome explains the tree,
/// the visitor and the returned root.  The root is the replacement if one
/// was given, the visited node otherwise.  When continuation is requested,
/// the root's children at the callback's return are all detached and then
/// rebuilt by [`rebuilt`]; otherwise the callback's outcome is the whole
/// effect.  Out of fuel, the engine changes nothing.
pub open spec fn traversed<V: NodeVisitor>(
    v0: V,
    v1: V,
    d0: DomView,
    d1: DomView,
    h: int,
    r: int,
    fuel: nat,
) -> bool
    decreases fuel, 0nat,
{
    if fuel == 0 {
        v1 == v0 && d1 == d0 && r == h
    } else {
        exists|vm: V, dm: DomView, rep: Option<int>, cont: bool|
            {
                &&& #[trigger] vm.callback_ok(v0, d0, h, dm, rep, cont)
                &&& {
                    let node = match rep {
                        Some(n) => n,
                        None => h,
                    };
                    &&& r == node
                    &&& if cont {
                        rebuilt(
                            vm,
                            v1,
                            clear_children_m(dm, node),
                            d1,
                            node,
                            dm.nodes[node].children,
                            (fuel - 1) as nat,
                        )
                    } else {
                        v1 == vm && d1 == dm
                    }
                }
            }
    }
}

/// The intermediate states of one rebuilding step: the visitor and tree
/// after the child's traversal, and the traversal's result.  Always true;
/// it only names the step's witnesses.
pub open spec fn rebuild_witness<V: NodeVisitor>(vm: V, dm: DomView, rc: int) -> bool {
    true
}

/// The rebuilding of one node's child list: each still-parentless child is
/// traversed in order and the result appended, best effort; a child that
/// meanwhile acquired a parent is left where it is.
pub open spec fn rebuilt<V: NodeVisitor>(
    v0: V,
    v1: V,
    d0: DomView,
    d1: DomView,
    node: int,
    cs: Seq<int>,
    fuel: nat,
) -> bool
    decreases fuel, cs.len() + 1,
{
    if cs.len() == 0 {
        v1 == v0 && d1 == d0
    } else if d0.nodes[cs[0]].parent is Some {
        rebuilt(v0, v1, d0, d1, node, cs.drop_first(), fuel)
    } else {
        exists|vm: V, dm: DomView, rc: int|
            {
                &&& #[trigger] rebuild_witness(vm, dm, rc)
                &&& traversed(v0, vm, d0, dm, cs[0], rc, fuel)
                &&& rebuilt(vm, v1, append_attempt_m(dm, node, rc), d1, node, cs.drop_first(), fuel)
            }
    }
}

/// One rebuilding step on a still-parentless child: its traversal and the
/// attempted append extend any rebuilding of the remaining children.
proof fn lemma_rebuilt_step_free<V: NodeVisitor>(
    v0: V,
    vm: V,
    vf: V,
    d0: DomView,
    dm: DomView,
    df: DomView,
    node: int,
    cs: Seq<int>,
    rc: int,
    fuel: nat,
)
    requires
        cs.len() > 0,
        d0.nodes[cs[0]].parent is None,
        traversed(v0, vm, d0, dm, cs[0], rc, fuel),
        rebuilt(vm, vf, append_attempt_m(dm, node, rc), df, node, cs.drop_first(), fuel),
    ensures
        rebuilt(v0, vf, d0, df, node, cs, fuel),
{
    assert(rebuild_witness(vm, dm, rc));
}

/// Run a pass over the subtree rooted at a parentless node and hand back
/// the possibly substituted root: the engine's whole effect is one
/// [`traversed`] step at full fuel.
pub fn traverse<V: NodeVisitor>(v: &mut V, dom: &mut Dom, h: Handle) -> (r: Handle)
    requires
        old(dom).wf(),
        old(dom).spec_valid(h),
        old(dom)@.nodes[h.idx as int].parent is None,
    ensures
        final(dom).wf(),
        old(dom).coalesced() ==> final(dom).coalesced(),
        final(dom)@.nodes.len() >= old(dom)@.nodes.len(),
        final(dom).spec_valid(r),
        traversed(
            *old(v),
            *final(v),
            old(dom)@,
            final(dom)@,
            h.idx as int,
            r.idx as int,
            (old(dom)@.nodes.len() + 1) as nat,
        ),
{
    let fuel: u128 = (dom.len() as u128) + 1;
    traverse_rec(v, dom, h, fuel)
}

/// One step of the engine: visit the node, substitute the replacement, and
/// when continuation is requested rebuild the result's child list from the
/// traversal of each child at the time of the callback's return.
fn traverse_rec<V: NodeVisitor>(v: &mut V, dom: &mut Dom, h: Handle, fuel: u128) -> (r: Handle)
    requires
        old(dom).wf(),
        old(dom).spec_valid(h),
        old(dom)@.nodes[h.idx as int].parent is None,
    ensures
        final(dom).wf(),
        old(dom).coalesced() ==> final(dom).coalesced(),
        final(dom)@.nodes.len() >= old(dom)@.nodes.len(),
        final(dom).spec_valid(r),
        traversed(
            *old(v),
            *final(v),
            old(dom)@,
            final(dom)@,
            h.idx as int,
            r.idx as int,
            fuel as nat,
        ),
    decreases fuel,
{
    if fuel == 0 {
        return h;
    }
    let ghost v0 = *v;
    let ghost d0 = dom@;
    let ghost was_coalesced = dom.coalesced();
    let visited = match dom.data(h) {
        NodeData::Document => v.visit_document(dom, h),
        NodeData::Doctype { .. } => v.visit_doctype(dom, h),
        NodeData::Text { .. } => v.visit_text(dom, h),
        NodeData::Comment { .. } => v.visit_comment(dom, h),
        NodeData::Element { .. } => v.visit_element(dom, h),
        NodeData::ProcessingInstruction { .. } => v.visit_processing_instruction(dom, h),
    };
    let ghost vcb = *v;
    let ghost dcb = dom@;
    let (replacement, descend) = visited;
    let ghost rep = rep_view(replacement);
    let node = match replacement {
        Some(n) => n,
        None => h,
    };
    proof {
        assert(vcb.callback_ok(v0, d0, h.idx as int, dcb, rep, descend));
    }
    if !descend {
        proof {
            assert(traversed(v0, *v, d0, dom@, h.idx as int, node.idx as int, fuel as nat));
        }
        return node;
    }
    // Snapshot the result's children as they stand now, then detach them
    // all: the list is rebuilt below in order.
    let ghost cs0 = dom@.nodes[node.idx as int].children;
    let cnt = dom.child_count(node);
    let mut cs: Vec<Handle> = Vec::new();
    let mut k: usize = 0;
    while k < cnt
        invariant
            k <= cnt,
            dom.wf(),
            dom.spec_valid(node),
            dom@ == dcb,
            cnt == cs0.len(),
            cs0 == dom@.nodes[node.idx as int].children,
            cs@.len() == k,
            forall|j: int|
                0 <= j < k ==> (#[trigger] cs@[j]).idx as int == cs0[j] && dom.spec_valid(cs@[j]),
        decreases cnt - k,
    {
        let c = dom.child_at(node, k);
        cs.push(c);
        k = k + 1;
    }
    dom.clear_children(node);
    let ghost dstart = dom@;
    let ghost vstart = *v;
    let ghost fm1: nat = (fuel - 1) as nat;
    proof {
        assert(dstart == clear_children_m(dcb, node.idx as int));
        assert(vstart == vcb);
        assert(cs0.subrange(0, cnt as int) =~= cs0);
    }
    // Rebuild: traverse each still-free child and attach the result, in
    // order.
    let mut k3: usize = 0;
    while k3 < cnt
        invariant
            k3 <= cnt,
            fuel >= 1,
            fm1 == (fuel - 1) as nat,
            dom.wf(),
            dom.spec_valid(node),
            was_coalesced == old(dom).coalesced(),
            was_coalesced ==> dom.coalesced(),
            dom@.nodes.len() >= d0.nodes.len(),
            dom@.nodes.len() >= dstart.nodes.len(),
            cnt == cs0.len(),
            cs@.len() == cnt,
            forall|j: int|
                0 <= j < cnt ==> (#[trigger] cs@[j]).idx as int == cs0[j] && cs0[j]
                    < dstart.nodes.len(),
            forall|vf: V, df: DomView|
                rebuilt(
                    *v,
                    vf,
                    dom@,
                    df,
                    node.idx as int,
                    cs0.subrange(k3 as int, cnt as int),
                    fm1,
                ) ==> #[trigger] rebuilt(vstart, vf, dstart, df, node.idx as int, cs0, fm1),
        decreases cnt - k3,
    {
        let c = cs[k3];
        let ghost vpre = *v;
        let ghost dpre = dom@;
        let is_free = matches!(dom.parent(c), None);
        if is_free {
            let c2 = traverse_rec(v, dom, c, fuel - 1);
            let ghost vpost = *v;
            let ghost dpost = dom@;
            let res = dom.append_child(node, c2);
            proof {
                assert(dom@ == append_attempt_m(dpost, node.idx as int, c2.idx as int));
                assert forall|vf: V, df: DomView|
                    rebuilt(
                        *v,
                        vf,
                        dom@,
                        df,
                        node.idx as int,
                        cs0.subrange(k3 + 1, cnt as int),
                        fm1,
                    ) implies #[trigger] rebuilt(
                    vstart,
                    vf,
                    dstart,
                    df,
                    node.idx as int,
                    cs0,
                    fm1,
                ) by {
                    let sub = cs0.subrange(k3 as int, cnt as int);
                    assert(sub[0] == cs0[k3 as int]);
                    assert(sub.drop_first() =~= cs0.subrange(k3 + 1, cnt as int));
                    assert(dpre.nodes[sub[0]].parent is None);
                    assert(traversed(vpre, vpost, dpre, dpost, sub[0], c2.idx as int, fm1));
                    assert(rebuilt(
                        vpost,
                        vf,
                        append_attempt_m(dpost, node.idx as int, c2.idx as int),
                        df,
                        node.idx as int,
                        sub.drop_first(),
                        fm1,
                    ));
                    lemma_rebuilt_step_free(
                        vpre,
                        vpost,
                        vf,
                        dpre,
                        dpost,
                        df,
                        node.idx as int,
                        sub,
                        c2.idx as int,
                        fm1,
                    );
                };
            }
        } else {
            proof {
                assert forall|vf: V, df: DomView|
                    rebuilt(
                        *v,
                        vf,
                        dom@,
                        df,
                        node.idx as int,
                        cs0.subrange(k3 + 1, cnt as int),
                        fm1,
                    ) implies #[trigger] rebuilt(
                    vstart,
                    vf,
                    dstart,
                    df,
                    node.idx as int,
                    cs0,
                    fm1,
                ) by {
                    let sub = cs0.subrange(k3 as int, cnt as int);
                    assert(sub[0] == cs0[k3 as int]);
                    assert(sub.drop_first() =~= cs0.subrange(k3 + 1, cnt as int));
                    assert(dom@.nodes[sub[0]].parent is Some);
                    assert(rebuilt(*v, vf, dom@, df, node.idx as int, sub, fm1));
                };
            }
        }
        k3 = k3 + 1;
    }
    proof {
        assert(cs0.subrange(cnt as int, cnt as int) =~= Seq::<int>::empty());
        assert(rebuilt(
            *v,
            *v,
            dom@,
            dom@,
            node.idx as int,
            cs0.subrange(cnt as int, cnt as int),
            fm1,
        ));
        assert(rebuilt(vstart, *v, dstart, dom@, node.idx as int, cs0, fm1));
        assert(traversed(v0, *v, d0, dom@, h.idx as int, node.idx as int, fuel as nat));
    }
    node
}

} // verus!
