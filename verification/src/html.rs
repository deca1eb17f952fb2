//! The HTML preview of a document body shown in the constructor: paragraphs become
//! `<p>` elements numbered in order, tables become HTML tables, and placeholders
//! become non-editable `<span>` badges.
use vstd::prelude::*;
use crate::fill::{lemma_text_of_views, text_nodes_of_paragraph};
use crate::namespaces::escape_attr_spec;
use crate::pattern::{find_placeholder_matches, lemma_split_nonempty, matches_view, placeholders_in, split_chars, split_on};
use crate::plan::{build_char_map, char_vecs_view, full_text};
use crate::text::{
    append_chars, append_decimal, append_str, chars_of, decimal, escape_attr, escape_html_chars,
    escape_html_spec, slice_chars, string_from_chars, trim, trim_chars,
};
use crate::tree::{collect_text_nodes, descendants, descendants_named, elements_named, is_element_named, paragraph_text_nodes, parse_xml_tree, text_nodes_view, tree_outcome, XmlTree};

verus! {

/// The whole text of paragraph `p`: its text pieces in order.
pub open spec fn paragraph_raw_text(t: XmlTree, p: int) -> Seq<char> {
    full_text(text_nodes_of_paragraph(t, p))
}

/// The badge of a placeholder: its body in `data-ph`, its name (the trimmed part
/// before the first `:`) as the text.
pub open spec fn span_html(body: Seq<char>) -> Seq<char> {
    "<span class=\"placeholder\" data-ph=\""@ + escape_attr_spec(body)
        + "\" contenteditable=\"false\">"@ + escape_html_spec(trim(split_on(body, ':')[0]))
        + "</span>"@
}

/// The preview of the text up to the end of the `k`-th placeholder, and the position
/// reached: the escaped text between placeholders, each placeholder as its badge.
pub open spec fn html_fold(raw: Seq<char>, ms: Seq<(int, int, Seq<char>)>, k: int) -> (Seq<char>, int)
    decreases k,
{
    if k <= 0 {
        (Seq::empty(), 0)
    } else {
        let prev = html_fold(raw, ms, k - 1);
        let m = ms[k - 1];
        (prev.0 + escape_html_spec(raw.subrange(prev.1, m.0)) + span_html(m.2), m.1)
    }
}

/// The preview of paragraph `p` with number `idx`.
pub open spec fn paragraph_html(t: XmlTree, p: int, idx: usize) -> Seq<char> {
    let raw = paragraph_raw_text(t, p);
    let ms = placeholders_in(raw);
    let f = html_fold(raw, ms, ms.len() as int);
    "<p data-para-index=\""@ + decimal(idx as nat) + "\">"@ + f.0 + escape_html_spec(
        raw.subrange(f.1, raw.len() as int),
    ) + "</p>"@
}

/// The paragraph number after `i`: the counter wraps at the top of `usize`, as an
/// unchecked `+= 1` does.
pub open spec fn next_index(i: usize) -> usize {
    if i == usize::MAX {
        0
    } else {
        (i + 1) as usize
    }
}

/// Steps a paragraph number (see `next_index`).
fn step_index(i: usize) -> (r: usize)
    ensures
        r == next_index(i),
{
    if i == usize::MAX {
        0
    } else {
        i + 1
    }
}

/// The previews of the first `k` paragraphs of `ps`, numbered from `idx`, and the
/// number after them.
pub open spec fn paras_fold(t: XmlTree, ps: Seq<int>, k: int, idx: usize) -> (Seq<char>, usize)
    decreases k,
{
    if k <= 0 {
        (Seq::empty(), idx)
    } else {
        let prev = paras_fold(t, ps, k - 1, idx);
        (prev.0 + paragraph_html(t, ps[k - 1], prev.1), next_index(prev.1))
    }
}

/// The paragraphs at or below node `i`, in document order.
pub open spec fn paragraphs_below(t: XmlTree, i: int) -> Seq<int> {
    elements_named(t, descendants(t, i), "p"@)
}

/// The cells of the first `k` cells of `tcs`, each a `<td>` with its paragraphs.
pub open spec fn cells_fold(t: XmlTree, tcs: Seq<int>, k: int, idx: usize) -> (Seq<char>, usize)
    decreases k,
{
    if k <= 0 {
        (Seq::empty(), idx)
    } else {
        let prev = cells_fold(t, tcs, k - 1, idx);
        let ps = paragraphs_below(t, tcs[k - 1]);
        let inner = paras_fold(t, ps, ps.len() as int, prev.1);
        (prev.0 + "<td>"@ + inner.0 + "</td>"@, inner.1)
    }
}

/// The first `k` rows of `trs`, each a `<tr>` with the cells at or below it.
pub open spec fn rows_fold(t: XmlTree, trs: Seq<int>, k: int, idx: usize) -> (Seq<char>, usize)
    decreases k,
{
    if k <= 0 {
        (Seq::empty(), idx)
    } else {
        let prev = rows_fold(t, trs, k - 1, idx);
        let tcs = elements_named(t, descendants(t, trs[k - 1]), "tc"@);
        let inner = cells_fold(t, tcs, tcs.len() as int, prev.1);
        (prev.0 + "<tr>"@ + inner.0 + "</tr>"@, inner.1)
    }
}

/// The preview of table `tbl`, its paragraphs numbered from `idx`: the rows at or
/// below it, each with the cells at or below the row, each with the paragraphs at or
/// below the cell. Also the number after them.
pub open spec fn table_html(t: XmlTree, tbl: int, idx: usize) -> (Seq<char>, usize) {
    let trs = elements_named(t, descendants(t, tbl), "tr"@);
    let rows = rows_fold(t, trs, trs.len() as int, idx);
    ("<table class=\"table table-bordered\">"@ + rows.0 + "</table>"@, rows.1)
}

/// The text pieces' whole text (see `paragraph_raw_text`), as characters.
pub fn paragraph_raw_chars(t: &XmlTree, p: usize) -> (r: Vec<char>)
    requires
        t.wf(),
        p < t.len(),
    ensures
        r@ == paragraph_raw_text(*t, p as int),
{
    let nodes = collect_text_nodes(t, p);
    let (full, _) = build_char_map(nodes.as_slice());
    proof {
        let chosen = text_nodes_of_paragraph(*t, p as int);
        assert(text_nodes_view(nodes@) == paragraph_text_nodes(*t, p as int));
        lemma_text_of_views(nodes@, chosen);
    }
    chars_of(full.as_str())
}

/// Writes the badge of a placeholder (see `span_html`).
fn push_span(out: &mut Vec<char>, body: &str)
    ensures
        final(out)@ == old(out)@ + span_html(body@),
{
    let cs = chars_of(body);
    let parts = split_chars(cs.as_slice(), ':');
    proof {
        lemma_split_nonempty(cs@, ':');
        assert(char_vecs_view(parts@)[0] == parts@[0]@);
    }
    let name = trim_chars(parts[0].as_slice());
    let ghost start = out@;
    append_str(out, "<span class=\"placeholder\" data-ph=\"");
    let attr = escape_attr(body);
    append_str(out, attr.as_str());
    append_str(out, "\" contenteditable=\"false\">");
    let esc = escape_html_chars(name.as_slice());
    append_chars(out, esc.as_slice());
    append_str(out, "</span>");
    assert(out@ =~= start + span_html(body@));
}

/// The preview of paragraph `p` numbered `*para_index`, which then steps on (see
/// `paragraph_html`).
pub fn paragraph_xml_to_html(t: &XmlTree, p: usize, para_index: &mut usize) -> (r: String)
    requires
        t.wf(),
        p < t.len(),
    ensures
        r@ == paragraph_html(*t, p as int, *old(para_index)),
        *final(para_index) == next_index(*old(para_index)),
{
    let raw = paragraph_raw_chars(t, p);
    let raw_s = string_from_chars(raw.as_slice());
    let ms = find_placeholder_matches(raw_s.as_str());
    let ghost mv = matches_view(ms@);
    let mut body: Vec<char> = Vec::new();
    let mut cur: usize = 0;
    let mut k: usize = 0;
    while k < ms.len()
        invariant
            raw_s@ == raw@,
            mv == matches_view(ms@),
            mv == placeholders_in(raw@),
            forall|i: int| 0 <= i < ms@.len() ==> (#[trigger] ms@[i]).start_char <= ms@[i].end_char <= raw@.len(),
            forall|i: int, j: int| 0 <= i < j < ms@.len() ==> (#[trigger] ms@[i]).end_char <= (#[trigger] ms@[j]).start_char,
            k <= ms@.len(),
            k > 0 ==> cur == ms@[k - 1].end_char,
            k == 0 ==> cur == 0,
            cur <= raw@.len(),
            (body@, cur as int) == html_fold(raw@, mv, k as int),
        decreases ms@.len() - k,
    {
        let m = &ms[k];
        assert(mv[k as int] == (m.start_char as int, m.end_char as int, m.body@));
        if k > 0 {
            assert(ms@[k - 1].end_char <= ms@[k as int].start_char);
        }
        let seg = slice_chars(raw.as_slice(), cur, m.start_char);
        let esc = escape_html_chars(seg.as_slice());
        append_chars(&mut body, esc.as_slice());
        push_span(&mut body, m.body.as_str());
        cur = m.end_char;
        k += 1;
    }
    let mut out: Vec<char> = Vec::new();
    append_str(&mut out, "<p data-para-index=\"");
    append_decimal(&mut out, *para_index);
    append_str(&mut out, "\">");
    append_chars(&mut out, body.as_slice());
    let tail = slice_chars(raw.as_slice(), cur, raw.len());
    let esc = escape_html_chars(tail.as_slice());
    append_chars(&mut out, esc.as_slice());
    append_str(&mut out, "</p>");
    assert(out@ =~= paragraph_html(*t, p as int, *old(para_index)));
    *para_index = step_index(*para_index);
    string_from_chars(out.as_slice())
}

/// The preview of table `tbl`, its paragraphs numbered from `*para_index`, which
/// steps on past them (see `table_html`).
#[verifier::rlimit(40)]
pub fn table_xml_to_html(t: &XmlTree, tbl: usize, para_index: &mut usize) -> (r: String)
    requires
        t.wf(),
        tbl < t.len(),
    ensures
        (r@, *final(para_index)) == table_html(*t, tbl as int, *old(para_index)),
{
    let ghost idx0 = *old(para_index);
    let mut out: Vec<char> = Vec::new();
    append_str(&mut out, "<table class=\"table table-bordered\">");
    let ghost head = out@;
    let trs = descendants_named(t, tbl, "tr");
    let ghost trv = trs@.map_values(|x: usize| x as int);
    let mut a: usize = 0;
    while a < trs.len()
        invariant
            t.wf(),
            trv == trs@.map_values(|x: usize| x as int),
            trv == elements_named(*t, descendants(*t, tbl as int), "tr"@),
            forall|j: int| 0 <= j < trs@.len() ==> (#[trigger] trs@[j]) < t.len(),
            a <= trs@.len(),
            (out@, *para_index) == (head + rows_fold(*t, trv, a as int, idx0).0, rows_fold(*t, trv, a as int, idx0).1),
        decreases trs@.len() - a,
    {
        let tr = trs[a];
        assert(trv[a as int] == tr as int);
        let ghost row_start = out@;
        let ghost idx_row = *para_index;
        append_str(&mut out, "<tr>");
        let ghost row_head = out@;
        let tcs = descendants_named(t, tr, "tc");
        let ghost tcv = tcs@.map_values(|x: usize| x as int);
        let mut b: usize = 0;
        while b < tcs.len()
            invariant
                t.wf(),
                tcv == tcs@.map_values(|x: usize| x as int),
                forall|j: int| 0 <= j < tcs@.len() ==> (#[trigger] tcs@[j]) < t.len(),
                b <= tcs@.len(),
                (out@, *para_index) == (row_head + cells_fold(*t, tcv, b as int, idx_row).0, cells_fold(*t, tcv, b as int, idx_row).1),
            decreases tcs@.len() - b,
        {
            let tc = tcs[b];
            assert(tcv[b as int] == tc as int);
            let ghost cell_start = out@;
            let ghost idx_cell = *para_index;
            append_str(&mut out, "<td>");
            let ghost cell_head = out@;
            let ps = descendants_named(t, tc, "p");
            let ghost pv = ps@.map_values(|x: usize| x as int);
            let mut c: usize = 0;
            while c < ps.len()
                invariant
                    t.wf(),
                    pv == ps@.map_values(|x: usize| x as int),
                    forall|j: int| 0 <= j < ps@.len() ==> (#[trigger] ps@[j]) < t.len(),
                    c <= ps@.len(),
                    (out@, *para_index) == (cell_head + paras_fold(*t, pv, c as int, idx_cell).0, paras_fold(*t, pv, c as int, idx_cell).1),
                decreases ps@.len() - c,
            {
                assert(pv[c as int] == ps@[c as int] as int);
                let h = paragraph_xml_to_html(t, ps[c], para_index);
                let hc = chars_of(h.as_str());
                append_chars(&mut out, hc.as_slice());
                c += 1;
            }
            append_str(&mut out, "</td>");
            assert(pv.len() == ps@.len());
            assert(out@ =~= cell_start + ("<td>"@ + paras_fold(*t, pv, pv.len() as int, idx_cell).0 + "</td>"@));
            b += 1;
        }
        append_str(&mut out, "</tr>");
        assert(tcv.len() == tcs@.len());
        assert(tcv == elements_named(*t, descendants(*t, tr as int), "tc"@));
        assert(out@ =~= row_start + ("<tr>"@ + cells_fold(*t, tcv, tcv.len() as int, idx_row).0 + "</tr>"@));
        a += 1;
    }
    append_str(&mut out, "</table>");
    assert(trv.len() == trs@.len());
    assert(out@ =~= "<table class=\"table table-bordered\">"@ + rows_fold(*t, trv, trv.len() as int, idx0).0 + "</table>"@);
    string_from_chars(out.as_slice())
}

/// The previews of the first `k` children of the body `b`, numbered from `idx`:
/// paragraphs and tables, nothing for the other children. Also the number after them.
pub open spec fn body_fold(t: XmlTree, b: int, k: int, idx: usize) -> (Seq<char>, usize)
    decreases k,
{
    if k <= 0 {
        (Seq::empty(), idx)
    } else {
        let prev = body_fold(t, b, k - 1, idx);
        let c = t.kids(b)[k - 1] as int;
        if t.is_element_named(c, "p"@) {
            (prev.0 + paragraph_html(t, c, prev.1), next_index(prev.1))
        } else if t.is_element_named(c, "tbl"@) {
            let tb = table_html(t, c, prev.1);
            (prev.0 + tb.0, tb.1)
        } else {
            prev
        }
    }
}

/// The preview of a parsed document body: the paragraphs and tables directly inside
/// its first `body` element, numbered from zero; nothing without a `body`.
pub open spec fn document_html(t: XmlTree) -> Seq<char> {
    let bodies = elements_named(t, descendants(t, 0), "body"@);
    if bodies.len() > 0 {
        body_fold(t, bodies[0], t.kids(bodies[0]).len() as int, 0).0
    } else {
        Seq::empty()
    }
}

/// The preview of a parsed document body (see `document_html`).
pub fn document_tree_to_html(t: &XmlTree) -> (r: String)
    requires
        t.wf(),
    ensures
        r@ == document_html(*t),
{
    let bodies = descendants_named(t, 0, "body");
    if bodies.len() == 0 {
        return string_from_chars(Vec::new().as_slice());
    }
    let b = bodies[0];
    assert(bodies@.map_values(|x: usize| x as int)[0] == b as int);
    let kids = &t.nodes[b].children;
    let mut out: Vec<char> = Vec::new();
    let mut para_index: usize = 0;
    let mut k: usize = 0;
    while k < kids.len()
        invariant
            t.wf(),
            b < t.len(),
            kids@ == t.kids(b as int),
            k <= kids@.len(),
            (out@, para_index) == body_fold(*t, b as int, k as int, 0),
        decreases kids@.len() - k,
    {
        let c = kids[k];
        assert(b < c < t.len());
        if is_element_named(t, c, "p") {
            let h = paragraph_xml_to_html(t, c, &mut para_index);
            let hc = chars_of(h.as_str());
            append_chars(&mut out, hc.as_slice());
        } else if is_element_named(t, c, "tbl") {
            let h = table_xml_to_html(t, c, &mut para_index);
            let hc = chars_of(h.as_str());
            append_chars(&mut out, hc.as_slice());
        }
        k += 1;
    }
    string_from_chars(out.as_slice())
}

/// The preview of a document body given as XML: parsed (without DTD), then previewed
/// (see `document_tree_to_html`); the parser's message when the XML is malformed.
pub fn docx_xml_to_html(xml: &str) -> (r: Result<String, String>)
    ensures
        match tree_outcome(xml@) {
            Err(m) => r matches Err(e) && e@ == m,
            Ok(ns) => r matches Ok(h) && exists|t: XmlTree| t.nodes@ == ns && t.wf() && h@ == document_html(t),
        },
{
    match parse_xml_tree(xml) {
        Ok(t) => {
            let h = document_tree_to_html(&t);
            Ok(h)
        },
        Err(e) => Err(e),
    }
}

} // verus!
