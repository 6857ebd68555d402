//! The serializer: renders a node or its children back to markup text.
//!
//! Elements emit an open tag with their attributes in stored order, then
//! their children in document order, then a matching close tag; a fixed
//! table of void element names in the html namespace suppresses children
//! and close tag.  Text and attribute values are escaped; comments,
//! doctypes and processing instructions each have one fixed textual form.

use vstd::prelude::*;

use crate::DomError;
use crate::dom::{Attr, AttrView, DataView, Dom, DomView, Handle, NodeData, QualName, QualNameView, valid_id};
use crate::text::{chars_to_string, push_str_chars, str_eq, str_to_chars};

verus! {

/// The escaped form of one character of text content.
pub open spec fn escape_text_char(c: char) -> Seq<char> {
    if c == '&' {
        seq!['&', 'a', 'm', 'p', ';']
    } else if c == '\u{00A0}' {
        seq!['&', 'n', 'b', 's', 'p', ';']
    } else if c == '<' {
        seq!['&', 'l', 't', ';']
    } else if c == '>' {
        seq!['&', 'g', 't', ';']
    } else {
        seq![c]
    }
}

/// The escaped form of one character of an attribute value.
pub open spec fn escape_attr_char(c: char) -> Seq<char> {
    if c == '&' {
        seq!['&', 'a', 'm', 'p', ';']
    } else if c == '\u{00A0}' {
        seq!['&', 'n', 'b', 's', 'p', ';']
    } else if c == '"' {
        seq!['&', 'q', 'u', 'o', 't', ';']
    } else {
        seq![c]
    }
}

/// The escaped form of text content.
pub open spec fn escape_text(s: Seq<char>) -> Seq<char>
    decreases s.len(),
{
    if s.len() == 0 {
        Seq::empty()
    } else {
        escape_text(s.drop_last()) + escape_text_char(s.last())
    }
}

/// The escaped form of an attribute value.
pub open spec fn escape_attr(s: Seq<char>) -> Seq<char>
    decreases s.len(),
{
    if s.len() == 0 {
        Seq::empty()
    } else {
        escape_attr(s.drop_last()) + escape_attr_char(s.last())
    }
}

/// The html namespace url.
pub open spec fn html_ns() -> Seq<char> {
    "http://www.w3.org/1999/xhtml"@
}

/// Is this one of the void element names of the html namespace?  A fixed,
/// enumerable table; membership is never inferred from children.
pub open spec fn is_void_name(name: QualNameView) -> bool {
    name.ns == html_ns() && (name.local == "area"@ || name.local == "base"@ || name.local
        == "basefont"@ || name.local == "bgsound"@ || name.local == "br"@ || name.local == "col"@
        || name.local == "embed"@ || name.local == "frame"@ || name.local == "hr"@ || name.local
        == "img"@ || name.local == "input"@ || name.local == "keygen"@ || name.local == "link"@
        || name.local == "meta"@ || name.local == "param"@ || name.local == "source"@
        || name.local == "track"@ || name.local == "wbr"@)
}

/// The rendering of an attribute list, in stored order.
pub open spec fn ser_attrs(attrs: Seq<AttrView>) -> Seq<char>
    decreases attrs.len(),
{
    if attrs.len() == 0 {
        Seq::empty()
    } else {
        ser_attrs(attrs.drop_last()) + seq![' '] + attrs.last().name + seq!['=', '"']
            + escape_attr(attrs.last().value) + seq!['"']
    }
}

/// The open tag of an element.
pub open spec fn open_tag(name: QualNameView, attrs: Seq<AttrView>) -> Seq<char> {
    seq!['<'] + name.local + ser_attrs(attrs) + seq!['>']
}

/// The close tag of an element.
pub open spec fn close_tag(name: QualNameView) -> Seq<char> {
    seq!['<', '/'] + name.local + seq!['>']
}

/// What serializing one node yields: its textual form, or `NotSerializable`
/// for a bare document node, or `TooDeep` when the depth budget runs out.
pub open spec fn ser_node(d: DomView, n: int, fuel: nat) -> Result<Seq<char>, DomError>
    decreases fuel, 0int, 0int,
{
    if fuel == 0 {
        Err(DomError::TooDeep)
    } else {
        match d.nodes[n].data {
            DataView::Document => Err(DomError::NotSerializable),
            DataView::Doctype { name, .. } => Ok(
                seq!['<', '!', 'D', 'O', 'C', 'T', 'Y', 'P', 'E', ' '] + name + seq!['>'],
            ),
            DataView::Text { contents } => Ok(escape_text(contents)),
            DataView::Comment { contents } => Ok(
                seq!['<', '!', '-', '-'] + contents + seq!['-', '-', '>'],
            ),
            DataView::ProcessingInstruction { target, contents } => Ok(
                seq!['<', '?'] + target + seq![' '] + contents + seq!['>'],
            ),
            DataView::Element { name, attrs, .. } => {
                if is_void_name(name) {
                    Ok(open_tag(name, attrs))
                } else {
                    match ser_list(d, d.nodes[n].children, (fuel - 1) as nat) {
                        Ok(inner) => Ok(open_tag(name, attrs) + inner + close_tag(name)),
                        Err(e) => Err(e),
                    }
                }
            },
        }
    }
}

/// What serializing a list of nodes yields, in order.
pub open spec fn ser_list(d: DomView, cs: Seq<int>, fuel: nat) -> Result<Seq<char>, DomError>
    decreases fuel, 1int, cs.len(),
{
    if cs.len() == 0 {
        Ok(Seq::empty())
    } else {
        match ser_node(d, cs[0], fuel) {
            Ok(first) => match ser_list(d, cs.drop_first(), fuel) {
                Ok(rest) => Ok(first + rest),
                Err(e) => Err(e),
            },
            Err(e) => Err(e),
        }
    }
}

/// What `to_html_string` yields: a document serializes only its children,
/// every other node serializes itself.
pub open spec fn html_of(d: DomView, n: int) -> Result<Seq<char>, DomError> {
    let fuel = (d.nodes.len() + 1) as nat;
    if d.nodes[n].data is Document {
        ser_list(d, d.nodes[n].children, fuel)
    } else {
        ser_node(d, n, fuel)
    }
}

/// Escape text content into the output buffer.
fn emit_escaped_text(out: &mut Vec<char>, s: &str)
    ensures
        final(out)@ == old(out)@ + escape_text(s@),
{
    let cs = str_to_chars(s);
    let n = cs.len();
    let mut i: usize = 0;
    while i < n
        invariant
            i <= n,
            n == cs@.len(),
            cs@ == s@,
            out@ == old(out)@ + escape_text(s@.subrange(0, i as int)),
        decreases n - i,
    {
        let c = cs[i];
        if c == '&' {
            out.push('&');
            out.push('a');
            out.push('m');
            out.push('p');
            out.push(';');
        } else if c == '\u{00A0}' {
            out.push('&');
            out.push('n');
            out.push('b');
            out.push('s');
            out.push('p');
            out.push(';');
        } else if c == '<' {
            out.push('&');
            out.push('l');
            out.push('t');
            out.push(';');
        } else if c == '>' {
            out.push('&');
            out.push('g');
            out.push('t');
            out.push(';');
        } else {
            out.push(c);
        }
        proof {
            let pre = s@.subrange(0, i as int);
            let pre1 = s@.subrange(0, i + 1);
            assert(pre1.drop_last() =~= pre);
            assert(pre1.last() == s@[i as int]);
            assert(escape_text(pre1) == escape_text(pre) + escape_text_char(s@[i as int]));
            assert(out@ =~= old(out)@ + escape_text(pre1));
        }
        i = i + 1;
    }
    proof {
        assert(s@.subrange(0, n as int) =~= s@);
    }
}

/// Escape an attribute value into the output buffer.
fn emit_escaped_attr(out: &mut Vec<char>, s: &str)
    ensures
        final(out)@ == old(out)@ + escape_attr(s@),
{
    let cs = str_to_chars(s);
    let n = cs.len();
    let mut i: usize = 0;
    while i < n
        invariant
            i <= n,
            n == cs@.len(),
            cs@ == s@,
            out@ == old(out)@ + escape_attr(s@.subrange(0, i as int)),
        decreases n - i,
    {
        let c = cs[i];
        if c == '&' {
            out.push('&');
            out.push('a');
            out.push('m');
            out.push('p');
            out.push(';');
        } else if c == '\u{00A0}' {
            out.push('&');
            out.push('n');
            out.push('b');
            out.push('s');
            out.push('p');
            out.push(';');
        } else if c == '"' {
            out.push('&');
            out.push('q');
            out.push('u');
            out.push('o');
            out.push('t');
            out.push(';');
        } else {
            out.push(c);
        }
        proof {
            let pre = s@.subrange(0, i as int);
            let pre1 = s@.subrange(0, i + 1);
            assert(pre1.drop_last() =~= pre);
            assert(pre1.last() == s@[i as int]);
            assert(escape_attr(pre1) == escape_attr(pre) + escape_attr_char(s@[i as int]));
            assert(out@ =~= old(out)@ + escape_attr(pre1));
        }
        i = i + 1;
    }
    proof {
        assert(s@.subrange(0, n as int) =~= s@);
    }
}

/// Is this element name in the void table?
fn is_void_exec(ns: &str, local: &str) -> (r: bool)
    ensures
        r == is_void_name((QualNameView { ns: ns@, local: local@ })),
{
    if !str_eq(ns, "http://www.w3.org/1999/xhtml") {
        return false;
    }
    str_eq(local, "area") || str_eq(local, "base") || str_eq(local, "basefont") || str_eq(
        local,
        "bgsound",
    ) || str_eq(local, "br") || str_eq(local, "col") || str_eq(local, "embed") || str_eq(
        local,
        "frame",
    ) || str_eq(local, "hr") || str_eq(local, "img") || str_eq(local, "input") || str_eq(
        local,
        "keygen",
    ) || str_eq(local, "link") || str_eq(local, "meta") || str_eq(local, "param") || str_eq(
        local,
        "source",
    ) || str_eq(local, "track") || str_eq(local, "wbr")
}

} // verus!

verus! {

/// Appending one more node to a serialized list splices its rendering onto
/// the end.
proof fn lemma_ser_list_snoc(d: DomView, cs: Seq<int>, x: int, fuel: nat)
    ensures
        ser_list(d, cs.push(x), fuel) == (match (ser_list(d, cs, fuel), ser_node(d, x, fuel)) {
            (Ok(a), Ok(b)) => Ok::<Seq<char>, DomError>(a + b),
            (Err(e), _) => Err(e),
            (Ok(_), Err(e)) => Err(e),
        }),
    decreases cs.len(),
{
    if cs.len() == 0 {
        assert(cs.push(x).len() == 1);
        assert(cs.push(x)[0] == x);
        assert(cs.push(x).drop_first() =~= Seq::<int>::empty());
        assert(cs.push(x).drop_first() == Seq::<int>::empty());
        assert(ser_list(d, Seq::<int>::empty(), fuel) == Ok::<Seq<char>, DomError>(Seq::empty()));
        match ser_node(d, x, fuel) {
            Ok(b) => {
                assert(ser_list(d, cs.push(x), fuel) == Ok::<Seq<char>, DomError>(b + Seq::empty()));
                assert(b + Seq::<char>::empty() =~= b);
                assert(ser_list(d, cs, fuel) == Ok::<Seq<char>, DomError>(Seq::empty()));
                assert(Seq::<char>::empty() + b =~= b);
            },
            Err(e) => {},
        }
    } else {
        assert(cs.push(x)[0] == cs[0]);
        assert(cs.push(x).drop_first() =~= cs.drop_first().push(x));
        lemma_ser_list_snoc(d, cs.drop_first(), x, fuel);
        match (ser_node(d, cs[0], fuel), ser_list(d, cs.drop_first(), fuel), ser_node(
            d,
            x,
            fuel,
        )) {
            (Ok(a0), Ok(a), Ok(b)) => {
                assert(a0 + (a + b) =~= (a0 + a) + b);
            },
            _ => {},
        }
    }
}

/// Emit an attribute list in stored order.
fn emit_attrs(out: &mut Vec<char>, attrs: &Vec<Attr>)
    ensures
        final(out)@ == old(out)@ + ser_attrs(attrs@.map_values(|a: Attr| a@)),
{
    let ghost av = attrs@.map_values(|a: Attr| a@);
    let n = attrs.len();
    let mut i: usize = 0;
    proof {
        assert(av.subrange(0, 0) =~= Seq::<AttrView>::empty());
        assert(old(out)@ + ser_attrs(av.subrange(0, 0)) =~= old(out)@);
    }
    while i < n
        invariant
            i <= n,
            n == attrs@.len(),
            av == attrs@.map_values(|a: Attr| a@),
            out@ == old(out)@ + ser_attrs(av.subrange(0, i as int)),
        decreases n - i,
    {
        out.push(' ');
        push_str_chars(out, attrs[i].name.as_str());
        out.push('=');
        out.push('"');
        emit_escaped_attr(out, attrs[i].value.as_str());
        out.push('"');
        proof {
            let pre = av.subrange(0, i as int);
            let pre1 = av.subrange(0, i + 1);
            assert(pre1.drop_last() =~= pre);
            assert(pre1.last() == av[i as int]);
            assert(ser_attrs(pre1) == ser_attrs(pre) + seq![' '] + av[i as int].name + seq![
                '=',
                '"',
            ] + escape_attr(av[i as int].value) + seq!['"']);
            assert(out@ =~= old(out)@ + ser_attrs(pre1));
        }
        i = i + 1;
    }
    proof {
        assert(av.subrange(0, n as int) =~= av);
    }
}

/// Emit the open tag of an element.
fn emit_open_tag(out: &mut Vec<char>, name: &QualName, attrs: &Vec<Attr>)
    ensures
        final(out)@ == old(out)@ + open_tag(name@, attrs@.map_values(|a: Attr| a@)),
{
    out.push('<');
    push_str_chars(out, name.local.as_str());
    emit_attrs(out, attrs);
    out.push('>');
    proof {
        assert(out@ =~= old(out)@ + open_tag(name@, attrs@.map_values(|a: Attr| a@)));
    }
}

/// Emit the close tag of an element.
fn emit_close_tag(out: &mut Vec<char>, name: &QualName)
    ensures
        final(out)@ == old(out)@ + close_tag(name@),
{
    out.push('<');
    out.push('/');
    push_str_chars(out, name.local.as_str());
    out.push('>');
    proof {
        assert(out@ =~= old(out)@ + close_tag(name@));
    }
}

/// Emit one node; on success the buffer grows by exactly its rendering.
fn emit_node(d: &Dom, n: Handle, fuel: u128, out: &mut Vec<char>) -> (r: Result<(), DomError>)
    requires
        d.wf(),
        d.spec_valid(n),
    ensures
        match r {
            Ok(()) => ser_node(d@, n.idx as int, fuel as nat) matches Ok(s) && final(out)@ == old(
                out,
            )@ + s,
            Err(e) => ser_node(d@, n.idx as int, fuel as nat) == Err::<Seq<char>, DomError>(e),
        },
    decreases fuel, 0int, 0int,
{
    if fuel == 0 {
        return Err(DomError::TooDeep);
    }
    match d.data(n) {
        NodeData::Document => Err(DomError::NotSerializable),
        NodeData::Doctype { name, .. } => {
            out.push('<');
            out.push('!');
            out.push('D');
            out.push('O');
            out.push('C');
            out.push('T');
            out.push('Y');
            out.push('P');
            out.push('E');
            out.push(' ');
            push_str_chars(out, name.as_str());
            out.push('>');
            proof {
                assert(ser_node(d@, n.idx as int, fuel as nat) matches Ok(s) && out@ =~= old(out)@
                    + s);
            }
            Ok(())
        },
        NodeData::Text { contents } => {
            emit_escaped_text(out, contents.as_str());
            Ok(())
        },
        NodeData::Comment { contents } => {
            out.push('<');
            out.push('!');
            out.push('-');
            out.push('-');
            push_str_chars(out, contents.as_str());
            out.push('-');
            out.push('-');
            out.push('>');
            proof {
                assert(ser_node(d@, n.idx as int, fuel as nat) matches Ok(s) && out@ =~= old(out)@
                    + s);
            }
            Ok(())
        },
        NodeData::ProcessingInstruction { target, contents } => {
            out.push('<');
            out.push('?');
            push_str_chars(out, target.as_str());
            out.push(' ');
            push_str_chars(out, contents.as_str());
            out.push('>');
            proof {
                assert(ser_node(d@, n.idx as int, fuel as nat) matches Ok(s) && out@ =~= old(out)@
                    + s);
            }
            Ok(())
        },
        NodeData::Element { name, attrs, .. } => {
            let void = is_void_exec(name.ns.as_str(), name.local.as_str());
            emit_open_tag(out, name, attrs);
            if void {
                proof {
                    assert(ser_node(d@, n.idx as int, fuel as nat) matches Ok(s) && out@ =~= old(
                        out,
                    )@ + s);
                }
                return Ok(());
            }
            let ghost mid = out@;
            match emit_children(d, n, fuel - 1, out) {
                Ok(()) => {
                    emit_close_tag(out, name);
                    proof {
                        let nv = name@;
                        let av = attrs@.map_values(|a: Attr| a@);
                        let inner = ser_list(
                            d@,
                            d@.nodes[n.idx as int].children,
                            (fuel - 1) as nat,
                        )->Ok_0;
                        assert(out@ =~= old(out)@ + (open_tag(nv, av) + inner + close_tag(nv)));
                        assert(ser_node(d@, n.idx as int, fuel as nat) matches Ok(s) && out@
                            =~= old(out)@ + s);
                    }
                    Ok(())
                },
                Err(e) => Err(e),
            }
        },
    }
}

/// Emit the children of a node, in document order.
fn emit_children(d: &Dom, n: Handle, fuel: u128, out: &mut Vec<char>) -> (r: Result<(), DomError>)
    requires
        d.wf(),
        d.spec_valid(n),
    ensures
        match r {
            Ok(()) => ser_list(d@, d@.nodes[n.idx as int].children, fuel as nat) matches Ok(s)
                && final(out)@ == old(out)@ + s,
            Err(e) => ser_list(d@, d@.nodes[n.idx as int].children, fuel as nat) == Err::<
                Seq<char>,
                DomError,
            >(e),
        },
    decreases fuel, 1int, 0int,
{
    let ghost cs = d@.nodes[n.idx as int].children;
    let cnt = d.child_count(n);
    let mut k: usize = 0;
    proof {
        assert(cs.subrange(0, 0) =~= Seq::<int>::empty());
        assert(old(out)@ + Seq::<char>::empty() =~= old(out)@);
    }
    while k < cnt
        invariant
            k <= cnt,
            d.wf(),
            d.spec_valid(n),
            cnt == cs.len(),
            cs == d@.nodes[n.idx as int].children,
            ser_list(d@, cs.subrange(0, k as int), fuel as nat) matches Ok(s) && out@ == old(out)@
                + s,
        decreases cnt - k,
    {
        let c = d.child_at(n, k);
        proof {
            assert(cs[k as int] == c.idx as int);
            assert(valid_id(d@, cs[k as int]));
        }
        let ghost pre = cs.subrange(0, k as int);
        match emit_node(d, c, fuel, out) {
            Ok(()) => {},
            Err(e) => {
                proof {
                    lemma_ser_list_prefix_err(d@, cs, k as int, fuel as nat, e);
                }
                return Err(e);
            },
        }
        proof {
            assert(cs.subrange(0, k + 1) =~= pre.push(cs[k as int]));
            lemma_ser_list_snoc(d@, pre, cs[k as int], fuel as nat);
            assert(ser_list(d@, cs.subrange(0, k + 1), fuel as nat) matches Ok(s) && out@ == old(
                out,
            )@ + s);
        }
        k = k + 1;
    }
    proof {
        assert(cs.subrange(0, cnt as int) =~= cs);
    }
    Ok(())
}

/// A failure at position `k`, after a successful prefix, fails the whole
/// list with the same error.
proof fn lemma_ser_list_prefix_err(d: DomView, cs: Seq<int>, k: int, fuel: nat, e: DomError)
    requires
        0 <= k < cs.len(),
        ser_list(d, cs.subrange(0, k), fuel) is Ok,
        ser_node(d, cs[k], fuel) == Err::<Seq<char>, DomError>(e),
    ensures
        ser_list(d, cs, fuel) == Err::<Seq<char>, DomError>(e),
    decreases k,
{
    if k == 0 {
        assert(cs[0] == cs[k]);
    } else {
        let pre = cs.subrange(0, k);
        assert(pre[0] == cs[0]);
        assert(ser_node(d, cs[0], fuel) is Ok) by {
            assert(ser_list(d, pre, fuel) is Ok);
        }
        assert(cs.drop_first().subrange(0, k - 1) =~= pre.drop_first());
        assert(ser_list(d, pre.drop_first(), fuel) is Ok) by {
            assert(ser_list(d, pre, fuel) is Ok);
        }
        assert(cs.drop_first()[k - 1] == cs[k]);
        lemma_ser_list_prefix_err(d, cs.drop_first(), k - 1, fuel, e);
    }
}

impl Dom {
    /// Render a node to markup text: a document node renders only its
    /// children, every other node renders itself.  Fails with
    /// `NotSerializable` when a bare document node stands below the target,
    /// and with `TooDeep` when the structure is deeper than the node count
    /// allows.
    pub fn to_html_string(&self, h: Handle) -> (r: Result<String, DomError>)
        requires
            self.wf(),
            self.spec_valid(h),
        ensures
            match r {
                Ok(s) => html_of(self@, h.idx as int) == Ok::<Seq<char>, DomError>(s@),
                Err(e) => html_of(self@, h.idx as int) == Err::<Seq<char>, DomError>(e),
            },
    {
        let fuel: u128 = (self.len() as u128) + 1;
        let mut out: Vec<char> = Vec::new();
        let is_doc = matches!(self.data(h), NodeData::Document);
        let r = if is_doc {
            emit_children(self, h, fuel, &mut out)
        } else {
            emit_node(self, h, fuel, &mut out)
        };
        match r {
            Ok(()) => Ok(chars_to_string(out)),
            Err(e) => Err(e),
        }
    }
}

} // verus!
