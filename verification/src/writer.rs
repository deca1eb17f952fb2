//! Writing XML back: elements of a parsed paragraph with the document's prefixes,
//! and the rewritten paragraph in which planned replacements are applied to runs.
//! Start tags are built with `quick_xml`'s `BytesStart`, text is escaped with
//! `quick_xml::escape::escape`, and each event is framed as `quick_xml`'s `Writer`
//! frames it (`<…>`, `</…>`, text as is).
use vstd::prelude::*;
use crate::namespaces::{qname, qname_from_ns, ContextView, NamespaceContext, XMLNS_NS};
use crate::plan::{any_plan_touches, cut_run_text, inside_any_plan, inside_some_plan, touches_run, plans_view, run_pieces, PlanView, ReplacePlan, char_vecs_view};
use crate::text::{append_chars, append_str, chars_of, escape_chars, string_from_chars};
use crate::tree::{is_element_named, run_texts, NodeKind, XmlAttr, XmlTree};

verus! {

/// Calls `quick_xml::escape::escape`. Trusted, from its source: `<`, `>`, `&`, `'`
/// and `"` become `&lt;`, `&gt;`, `&amp;`, `&apos;` and `&quot;`; every other
/// character is kept.
#[verifier::external_body]
fn xml_escape(s: &str) -> (r: String)
    ensures
        r@ == escape_chars(s@),
{
    quick_xml::escape::escape(s).into_owned()
}

/// The text that `BytesStart::push_attribute` adds for each (key, value) given as
/// bytes: a space, the key, `="`, the value unchanged, `"`.
pub open spec fn attrs_text(attrs: Seq<(Seq<char>, Seq<char>)>) -> Seq<char>
    decreases attrs.len(),
{
    if attrs.len() == 0 {
        Seq::empty()
    } else {
        attrs_text(attrs.drop_last()) + " "@ + attrs.last().0 + "=\""@ + attrs.last().1 + "\""@
    }
}

/// Calls `BytesStart::new(name)` with `with_attributes`, each attribute as raw key and
/// value bytes, and gives the tag's content. Trusted, from the source of
/// `push_attribute`: the content is the name followed, for each attribute, by a space,
/// the key, `="`, the value unchanged and `"`.
#[verifier::external_body]
fn start_tag_content(name: &str, attrs: &Vec<(String, String)>) -> (r: String)
    ensures
        r@ == name@ + attrs_text(crate::namespaces::pairs_view(attrs@)),
{
    let start = quick_xml::events::BytesStart::new(name)
        .with_attributes(attrs.iter().map(|(k, v)| (k.as_bytes(), v.as_bytes())));
    String::from_utf8_lossy(&start).into_owned()
}

/// The attributes of an element that are written back: all but namespace
/// declarations, each with its name written with the document's prefixes.
pub open spec fn kept_attrs(a: Seq<XmlAttr>, c: ContextView) -> Seq<(Seq<char>, Seq<char>)>
    decreases a.len(),
{
    if a.len() == 0 {
        Seq::empty()
    } else {
        let prev = kept_attrs(a.drop_last(), c);
        let x = a.last();
        let ns = match x.namespace {
            Some(u) => Some(u@),
            None => None,
        };
        if ns == Some(XMLNS_NS@) {
            prev
        } else {
            prev.push((qname(x.name@, ns, c), x.value@))
        }
    }
}

/// The name of node `i` written with the document's prefixes.
pub open spec fn node_qname(t: XmlTree, i: int, c: ContextView) -> Seq<char> {
    let n = t.nodes@[i];
    qname(
        n.name@,
        match n.namespace {
            Some(u) => Some(u@),
            None => None,
        },
        c,
    )
}

/// The content of the start tag of element `i`.
pub open spec fn start_content(t: XmlTree, i: int, c: ContextView) -> Seq<char> {
    node_qname(t, i, c) + attrs_text(kept_attrs(t.nodes@[i].attributes@, c))
}

/// The XML written for node `i` and everything below it: a text node as its escaped
/// text; an element as its start tag, its children, its end tag; other nodes as nothing.
pub open spec fn node_xml(t: XmlTree, i: int, c: ContextView) -> Seq<char>
    decreases 2 * (t.len() - i) + 1, 0int,
{
    if 0 <= i < t.len() {
        let n = t.nodes@[i];
        match n.kind {
            NodeKind::Text => match n.text {
                Some(x) => if x@.len() > 0 {
                    escape_chars(x@)
                } else {
                    Seq::empty()
                },
                None => Seq::empty(),
            },
            NodeKind::Element => "<"@ + start_content(t, i, c) + ">"@ + kids_xml(
                t,
                i,
                t.kids(i).len() as int,
                c,
            ) + "</"@ + node_qname(t, i, c) + ">"@,
            _ => Seq::empty(),
        }
    } else {
        Seq::empty()
    }
}

/// The XML of the first `k` children of node `i`.
pub open spec fn kids_xml(t: XmlTree, i: int, k: int, c: ContextView) -> Seq<char>
    decreases 2 * (t.len() - i), k,
{
    if 0 <= i < t.len() && 0 < k <= t.kids(i).len() {
        let ch = t.kids(i)[k - 1] as int;
        kids_xml(t, i, k - 1, c) + if i < ch < t.len() {
            node_xml(t, ch, c)
        } else {
            Seq::empty()
        }
    } else {
        Seq::empty()
    }
}

/// The attributes of element `i` that are written back (see `kept_attrs`).
pub fn element_attrs(t: &XmlTree, i: usize, ctx: &NamespaceContext) -> (r: Vec<(String, String)>)
    requires
        i < t.len(),
    ensures
        crate::namespaces::pairs_view(r@) == kept_attrs(t.nodes@[i as int].attributes@, ctx@),
{
    let attrs = &t.nodes[i].attributes;
    let xmlns = chars_of(XMLNS_NS);
    let mut out: Vec<(String, String)> = Vec::new();
    let mut k: usize = 0;
    while k < attrs.len()
        invariant
            k <= attrs@.len(),
            xmlns@ == XMLNS_NS@,
            crate::namespaces::pairs_view(out@) == kept_attrs(attrs@.take(k as int), ctx@),
        decreases attrs@.len() - k,
    {
        let a = &attrs[k];
        let ghost pre = attrs@.take(k + 1);
        assert(pre.drop_last() =~= attrs@.take(k as int));
        assert(pre.last() == *a);
        let is_decl = match &a.namespace {
            Some(u) => crate::text::eq_chars(chars_of(u.as_str()).as_slice(), xmlns.as_slice()),
            None => false,
        };
        if !is_decl {
            let q = qname_from_ns(a.name.as_str(), match &a.namespace {
                Some(u) => Some(u.as_str()),
                None => None,
            }, ctx);
            let ghost ov = crate::namespaces::pairs_view(out@);
            out.push((q, a.value.clone()));
            assert(crate::namespaces::pairs_view(out@) =~= ov.push((q@, a.value@)));
        }
        k += 1;
    }
    assert(attrs@.take(attrs@.len() as int) =~= attrs@);
    out
}

/// The name of node `i` written with the document's prefixes.
pub fn node_qname_exec(t: &XmlTree, i: usize, ctx: &NamespaceContext) -> (r: String)
    requires
        i < t.len(),
    ensures
        r@ == node_qname(*t, i as int, ctx@),
{
    let n = &t.nodes[i];
    qname_from_ns(n.name.as_str(), match &n.namespace {
        Some(u) => Some(u.as_str()),
        None => None,
    }, ctx)
}

/// Writes node `i` and everything below it (see `node_xml`).
pub fn write_node(t: &XmlTree, i: usize, ctx: &NamespaceContext, out: &mut Vec<char>)
    requires
        t.wf(),
        i < t.len(),
    ensures
        final(out)@ == old(out)@ + node_xml(*t, i as int, ctx@),
    decreases t.len() - i,
{
    let n = &t.nodes[i];
    match n.kind {
        NodeKind::Text => {
            match &n.text {
                Some(x) => {
                    if chars_of(x.as_str()).len() > 0 {
                        let e = xml_escape(x.as_str());
                        append_str(out, e.as_str());
                    } else {
                        assert(old(out)@ =~= old(out)@ + Seq::<char>::empty());
                    }
                },
                None => {
                    assert(old(out)@ =~= old(out)@ + Seq::<char>::empty());
                },
            }
        },
        NodeKind::Element => {
            let q = node_qname_exec(t, i, ctx);
            let attrs = element_attrs(t, i, ctx);
            let content = start_tag_content(q.as_str(), &attrs);
            let ghost base = old(out)@;
            append_str(out, "<");
            append_str(out, content.as_str());
            append_str(out, ">");
            let ghost head = out@;
            let kids = &n.children;
            let mut k: usize = 0;
            while k < kids.len()
                invariant
                    t.wf(),
                    i < t.len(),
                    kids@ == t.kids(i as int),
                    k <= kids@.len(),
                    out@ == head + kids_xml(*t, i as int, k as int, ctx@),
                decreases kids@.len() - k,
            {
                let c = kids[k];
                assert(i < c < t.len());
                write_node(t, c, ctx, out);
                assert(kids_xml(*t, i as int, k + 1, ctx@) == kids_xml(*t, i as int, k as int, ctx@)
                    + node_xml(*t, c as int, ctx@));
                k += 1;
            }
            append_str(out, "</");
            append_str(out, q.as_str());
            append_str(out, ">");
            assert(out@ =~= base + node_xml(*t, i as int, ctx@));
        },
        _ => {
            assert(old(out)@ =~= old(out)@ + Seq::<char>::empty());
        },
    }
}


/// The concatenation of the given texts.
pub open spec fn concat(s: Seq<Seq<char>>) -> Seq<char>
    decreases s.len(),
{
    if s.len() == 0 {
        Seq::empty()
    } else {
        concat(s.drop_last()) + s.last()
    }
}

/// A start tag with the given content.
pub open spec fn open_tag(content: Seq<char>) -> Seq<char> {
    "<"@ + content + ">"@
}

/// An end tag for the given name.
pub open spec fn close_tag(name: Seq<char>) -> Seq<char> {
    "</"@ + name + ">"@
}

/// Writes a start tag with the given content.
pub fn push_open(out: &mut Vec<char>, content: &str)
    ensures
        final(out)@ == old(out)@ + open_tag(content@),
{
    append_str(out, "<");
    append_str(out, content);
    append_str(out, ">");
    assert(final(out)@ =~= old(out)@ + open_tag(content@));
}

/// Writes an end tag for the given name.
pub fn push_close(out: &mut Vec<char>, name: &str)
    ensures
        final(out)@ == old(out)@ + close_tag(name@),
{
    append_str(out, "</");
    append_str(out, name);
    append_str(out, ">");
    assert(final(out)@ =~= old(out)@ + close_tag(name@));
}

/// The text element of a new run: a start tag that preserves spaces, the escaped
/// text, the end tag; nothing for an empty text.
pub open spec fn text_element(tq: Seq<char>, text: Seq<char>) -> Seq<char> {
    if text.len() > 0 {
        open_tag(tq + attrs_text(seq![("xml:space"@, escape_chars("preserve"@))])) + escape_chars(text)
            + close_tag(tq)
    } else {
        Seq::empty()
    }
}

/// The XML of the children of node `i` (among the first `k`) that are elements named `local`.
pub open spec fn named_kids_xml(t: XmlTree, i: int, k: int, local: Seq<char>, c: ContextView) -> Seq<char>
    decreases k,
{
    if k <= 0 || k > t.kids(i).len() {
        Seq::empty()
    } else {
        let ch = t.kids(i)[k - 1] as int;
        named_kids_xml(t, i, k - 1, local, c) + if t.is_element_named(ch, local) {
            node_xml(t, ch, c)
        } else {
            Seq::empty()
        }
    }
}

/// The first child of node `i` (among the first `k`) that is an element named `local`.
pub open spec fn first_named_kid(t: XmlTree, i: int, k: int, local: Seq<char>) -> Option<int>
    decreases k,
{
    if k <= 0 || k > t.kids(i).len() {
        None
    } else {
        match first_named_kid(t, i, k - 1, local) {
            Some(x) => Some(x),
            None => if t.is_element_named(t.kids(i)[k - 1] as int, local) {
                Some(t.kids(i)[k - 1] as int)
            } else {
                None
            },
        }
    }
}

/// The name of the text element of a new run: that of the run's first `t` child, or `w:t`.
pub open spec fn text_qname(t: XmlTree, r: int, c: ContextView) -> Seq<char> {
    match first_named_kid(t, r, t.kids(r).len() as int, "t"@) {
        Some(x) => node_qname(t, x, c),
        None => "w:t"@,
    }
}

/// A copy of run `r` holding `text`: the run's start tag (without attributes), its
/// formatting (`rPr` children), the text in a text element that preserves spaces
/// (when the text is not empty), the run's end tag.
pub open spec fn run_xml(t: XmlTree, r: int, text: Seq<char>, c: ContextView) -> Seq<char> {
    let rq = node_qname(t, r, c);
    open_tag(rq) + named_kids_xml(t, r, t.kids(r).len() as int, "rPr"@, c) + text_element(
        text_qname(t, r, c),
        text,
    ) + close_tag(rq)
}

/// Writes the children of node `i` that are elements named `local`.
fn write_named_kids(t: &XmlTree, i: usize, local: &str, ctx: &NamespaceContext, out: &mut Vec<char>)
    requires
        t.wf(),
        i < t.len(),
    ensures
        final(out)@ == old(out)@ + named_kids_xml(*t, i as int, t.kids(i as int).len() as int, local@, ctx@),
{
    let ghost head = old(out)@;
    let kids = &t.nodes[i].children;
    let mut k: usize = 0;
    while k < kids.len()
        invariant
            t.wf(),
            i < t.len(),
            kids@ == t.kids(i as int),
            k <= kids@.len(),
            out@ == head + named_kids_xml(*t, i as int, k as int, local@, ctx@),
        decreases kids@.len() - k,
    {
        let c = kids[k];
        assert(i < c < t.len());
        if is_element_named(t, c, local) {
            write_node(t, c, ctx, out);
        } else {
            assert(out@ =~= out@ + Seq::<char>::empty());
        }
        k += 1;
    }
}

/// The name of the text element of a new run (see `text_qname`).
fn text_qname_exec(t: &XmlTree, r: usize, ctx: &NamespaceContext) -> (q: String)
    requires
        t.wf(),
        r < t.len(),
    ensures
        q@ == text_qname(*t, r as int, ctx@),
{
    let kids = &t.nodes[r].children;
    let mut k: usize = 0;
    while k < kids.len()
        invariant
            t.wf(),
            r < t.len(),
            kids@ == t.kids(r as int),
            k <= kids@.len(),
            first_named_kid(*t, r as int, k as int, "t"@) is None,
        decreases kids@.len() - k,
    {
        let c = kids[k];
        assert(r < c < t.len());
        if is_element_named(t, c, "t") {
            proof {
                assert(first_named_kid(*t, r as int, k + 1, "t"@) == Some(c as int));
                lemma_first_named_kid_stable(*t, r as int, k + 1, kids@.len() as int, "t"@);
            }
            return node_qname_exec(t, c, ctx);
        }
        k += 1;
    }
    crate::error::owned("w:t")
}

/// Lemma: once found among the first `k` children, the first named child stays the same.
pub proof fn lemma_first_named_kid_stable(t: XmlTree, i: int, k: int, m: int, local: Seq<char>)
    requires
        0 < k <= m <= t.kids(i).len(),
        first_named_kid(t, i, k, local) is Some,
    ensures
        first_named_kid(t, i, m, local) == first_named_kid(t, i, k, local),
    decreases m - k,
{
    if m > k {
        lemma_first_named_kid_stable(t, i, k, m - 1, local);
    }
}

/// Writes a copy of run `r` holding `new_text` (see `run_xml`).
pub fn write_run_with_text(
    t: &XmlTree,
    run_node: usize,
    new_text: &[char],
    ctx: &NamespaceContext,
    out: &mut Vec<char>,
)
    requires
        t.wf(),
        run_node < t.len(),
    ensures
        final(out)@ == old(out)@ + run_xml(*t, run_node as int, new_text@, ctx@),
{
    let ghost base = old(out)@;
    let rq = node_qname_exec(t, run_node, ctx);
    let no_attrs: Vec<(String, String)> = Vec::new();
    let content = start_tag_content(rq.as_str(), &no_attrs);
    assert(crate::namespaces::pairs_view(no_attrs@) =~= Seq::<(Seq<char>, Seq<char>)>::empty());
    assert(content@ =~= rq@);
    push_open(out, content.as_str());
    write_named_kids(t, run_node, "rPr", ctx, out);
    let tail = text_element_exec(t, run_node, new_text, ctx);
    append_chars(out, tail.as_slice());
    push_close(out, rq.as_str());
}

/// The text element of a new copy of run `r` (see `text_element`).
fn text_element_exec(t: &XmlTree, run_node: usize, new_text: &[char], ctx: &NamespaceContext) -> (r: Vec<char>)
    requires
        t.wf(),
        run_node < t.len(),
    ensures
        r@ == text_element(text_qname(*t, run_node as int, ctx@), new_text@),
{
    let mut tail: Vec<char> = Vec::new();
    if new_text.len() > 0 {
        let tname = text_qname_exec(t, run_node, ctx);
        let preserve = xml_escape("preserve");
        let attrs = vec![(crate::error::owned("xml:space"), preserve)];
        assert(crate::namespaces::pairs_view(attrs@) =~= seq![("xml:space"@, escape_chars("preserve"@))]);
        let tcontent = start_tag_content(tname.as_str(), &attrs);
        let body = string_from_chars(new_text);
        let escaped = xml_escape(body.as_str());
        push_open(&mut tail, tcontent.as_str());
        append_str(&mut tail, escaped.as_str());
        push_close(&mut tail, tname.as_str());
        assert(tail@ =~= text_element(tname@, new_text@));
    }
    tail
}

/// The output for child `ch` of a paragraph and the run count after it, given the run
/// count before it: text and other non-elements are copied; a proofing mark
/// (`proofErr`) inside a replaced range is dropped; other non-run elements are copied;
/// a run without text, or one that no plan covers, is copied whole; a run with text that
/// a plan covers is written as one copy per piece of its cut text (see `run_pieces`).
/// Runs are counted.
pub open spec fn para_child_xml(t: XmlTree, ch: int, run: int, plans: Seq<PlanView>, c: ContextView) -> (
    Seq<char>,
    int,
) {
    let n = t.nodes@[ch];
    if !(n.kind is Element) {
        (node_xml(t, ch, c), run)
    } else if n.name@ != "r"@ {
        if n.name@ == "proofErr"@ && inside_some_plan(plans, run) {
            (Seq::empty(), run)
        } else {
            (node_xml(t, ch, c), run)
        }
    } else {
        let text = concat(run_texts(t, ch));
        if text.len() == 0 || !touches_run(plans, run) {
            (node_xml(t, ch, c), run + 1)
        } else {
            (pieces_xml(t, ch, run_pieces(plans, run, text), c), run + 1)
        }
    }
}

/// The copies of run `r`, one for each piece.
pub open spec fn pieces_xml(t: XmlTree, r: int, pieces: Seq<Seq<char>>, c: ContextView) -> Seq<char>
    decreases pieces.len(),
{
    if pieces.len() == 0 {
        Seq::empty()
    } else {
        pieces_xml(t, r, pieces.drop_last(), c) + run_xml(t, r, pieces.last(), c)
    }
}

/// The output for the first `k` children of paragraph `p`, and the run count after them.
pub open spec fn para_kids_xml(t: XmlTree, p: int, k: int, plans: Seq<PlanView>, c: ContextView) -> (
    Seq<char>,
    int,
)
    decreases k,
{
    if k <= 0 || k > t.kids(p).len() {
        (Seq::empty(), 0)
    } else {
        let prev = para_kids_xml(t, p, k - 1, plans, c);
        let step = para_child_xml(t, t.kids(p)[k - 1] as int, prev.1, plans, c);
        (prev.0 + step.0, step.1)
    }
}

/// Paragraph `p` rewritten by the plans: its start tag, its children (see
/// `para_child_xml`), its end tag.
pub open spec fn paragraph_xml(t: XmlTree, p: int, plans: Seq<PlanView>, c: ContextView) -> Seq<char> {
    "<"@ + start_content(t, p, c) + ">"@ + para_kids_xml(t, p, t.kids(p).len() as int, plans, c).0
        + "</"@ + node_qname(t, p, c) + ">"@
}

/// The text of a run: its `t` children's texts, concatenated.
fn run_text(t: &XmlTree, r: usize) -> (res: Vec<char>)
    requires
        t.wf(),
        r < t.len(),
    ensures
        res@ == concat(run_texts(*t, r as int)),
{
    let ts = crate::tree::children_named(t, r, "t");
    let ghost tv = ts@.map_values(|x: usize| x as int);
    let mut res: Vec<char> = Vec::new();
    let mut j: usize = 0;
    while j < ts.len()
        invariant
            t.wf(),
            tv == ts@.map_values(|x: usize| x as int),
            forall|b: int| 0 <= b < ts@.len() ==> (#[trigger] ts@[b]) < t.len(),
            j <= ts@.len(),
            res@ == concat(crate::tree::texts_of(*t, tv.take(j as int))),
        decreases ts@.len() - j,
    {
        let ghost pre = tv.take(j + 1);
        assert(pre.drop_last() =~= tv.take(j as int));
        assert(pre.last() == ts@[j as int] as int);
        let c = ts[j];
        match &t.nodes[c].text {
            Some(x) => {
                append_str(&mut res, x.as_str());
                let ghost ts0 = crate::tree::texts_of(*t, tv.take(j as int));
                assert(crate::tree::texts_of(*t, pre) == ts0.push(x@));
                assert(ts0.push(x@).drop_last() =~= ts0);
            },
            None => {
                assert(crate::tree::texts_of(*t, pre) == crate::tree::texts_of(*t, tv.take(j as int)));
            },
        }
        j += 1;
    }
    assert(tv.take(tv.len() as int) =~= tv);
    res
}

/// Writes paragraph `p` with the plans applied (see `paragraph_xml`).
pub fn generate_paragraph(
    t: &XmlTree,
    p: usize,
    plans: &[ReplacePlan],
    ctx: &NamespaceContext,
    out: &mut Vec<char>,
)
    requires
        t.wf(),
        p < t.len(),
    ensures
        final(out)@ == old(out)@ + paragraph_xml(*t, p as int, plans_view(plans@), ctx@),
{
    let ghost base = old(out)@;
    let ghost pv = plans_view(plans@);
    let q = node_qname_exec(t, p, ctx);
    let attrs = element_attrs(t, p, ctx);
    let content = start_tag_content(q.as_str(), &attrs);
    append_str(out, "<");
    append_str(out, content.as_str());
    append_str(out, ">");
    let ghost head = out@;
    let kids = &t.nodes[p].children;
    let mut run_idx: usize = 0;
    let mut k: usize = 0;
    while k < kids.len()
        invariant
            t.wf(),
            p < t.len(),
            kids@ == t.kids(p as int),
            k <= kids@.len(),
            pv == plans_view(plans@),
            run_idx <= k,
            out@ == head + para_kids_xml(*t, p as int, k as int, pv, ctx@).0,
            run_idx as int == para_kids_xml(*t, p as int, k as int, pv, ctx@).1,
        decreases kids@.len() - k,
    {
        let c = kids[k];
        assert(p < c < t.len());
        let ghost before = out@;
        let node = &t.nodes[c];
        match node.kind {
            NodeKind::Element => {
                if !is_element_named(t, c, "r") {
                    let proof_err = is_element_named(t, c, "proofErr");
                    if !(proof_err && inside_any_plan(plans, run_idx)) {
                        write_node(t, c, ctx, out);
                    }
                } else {
                    let text = run_text(t, c);
                    if text.len() == 0 || !any_plan_touches(plans, run_idx) {
                        write_node(t, c, ctx, out);
                    } else {
                        let pieces = cut_run_text(text.as_slice(), run_idx, plans);
                        let ghost ps = char_vecs_view(pieces@);
                        let mut j: usize = 0;
                        while j < pieces.len()
                            invariant
                                t.wf(),
                                c < t.len(),
                                ps == char_vecs_view(pieces@),
                                j <= pieces@.len(),
                                out@ == before + pieces_xml(*t, c as int, ps.take(j as int), ctx@),
                            decreases pieces@.len() - j,
                        {
                            let ghost pre = ps.take(j + 1);
                            assert(pre.drop_last() =~= ps.take(j as int));
                            assert(pre.last() == pieces@[j as int]@);
                            write_run_with_text(t, c, pieces[j].as_slice(), ctx, out);
                            j += 1;
                        }
                        assert(ps.take(ps.len() as int) =~= ps);
                    }
                    run_idx += 1;
                }
            },
            _ => {
                write_node(t, c, ctx, out);
            },
        }
        k += 1;
    }
    append_str(out, "</");
    append_str(out, q.as_str());
    append_str(out, ">");
    assert(out@ =~= base + paragraph_xml(*t, p as int, pv, ctx@));
}

} // verus!
