//! The placeholders of a template: the bodies of all placeholders found in its
//! paragraphs, each once and in ascending order, and the form fields they describe.
use vstd::prelude::*;
use crate::html::{paragraph_raw_text, paragraphs_below};
use crate::pattern::{find_placeholder_matches, matches_view, parse_placeholder, placeholder_parts, placeholders_in};
use crate::sort::{lemma_seq_lt_total, lemma_seq_lt_transitive, lt_chars, seq_lt};
use crate::text::{chars_of, eq_chars, string_from_chars, strings_view};
use crate::tree::{descendants_named, parse_xml_tree, tree_outcome, XmlTree};

verus! {

/// Whether one of the first `k` placeholders found has body `b`.
pub open spec fn body_among(ms: Seq<(int, int, Seq<char>)>, k: int, b: Seq<char>) -> bool {
    exists|i: int| 0 <= i < k && (#[trigger] ms[i]).2 == b
}

/// Whether paragraph `p` holds a placeholder with body `b`.
pub open spec fn paragraph_has_body(t: XmlTree, p: int, b: Seq<char>) -> bool {
    let ms = placeholders_in(paragraph_raw_text(t, p));
    body_among(ms, ms.len() as int, b)
}

/// Whether one of the first `k` paragraphs of `ps` holds a placeholder with body `b`.
pub open spec fn body_in_paragraphs(t: XmlTree, ps: Seq<int>, k: int, b: Seq<char>) -> bool {
    exists|j: int| 0 <= j < k && paragraph_has_body(t, #[trigger] ps[j], b)
}

/// Whether some paragraph of the document holds a placeholder with body `b`.
pub open spec fn template_has_placeholder(t: XmlTree, b: Seq<char>) -> bool {
    let ps = paragraphs_below(t, 0);
    body_in_paragraphs(t, ps, ps.len() as int, b)
}

/// Lemma: whether a document holds a placeholder depends only on its nodes.
pub proof fn lemma_placeholder_same_nodes(t1: XmlTree, t2: XmlTree, b: Seq<char>)
    requires
        t1.nodes@ == t2.nodes@,
    ensures
        template_has_placeholder(t1, b) == template_has_placeholder(t2, b),
{
    crate::tree::lemma_descendants_same_nodes(t1, t2, 0);
    crate::tree::lemma_elements_named_same_nodes(t1, t2, crate::tree::descendants(t1, 0), "p"@);
    let ps = paragraphs_below(t1, 0);
    assert(ps == paragraphs_below(t2, 0));
    assert forall|p: int| paragraph_has_body(t1, p, b) == paragraph_has_body(t2, p, b) by {
        crate::tree::lemma_paragraph_text_nodes_same_nodes(t1, t2, p);
    }
    assert(body_in_paragraphs(t1, ps, ps.len() as int, b) == body_in_paragraphs(t2, ps, ps.len() as int, b)) by {
        if body_in_paragraphs(t1, ps, ps.len() as int, b) {
            let j = choose|j: int| 0 <= j < ps.len() && paragraph_has_body(t1, #[trigger] ps[j], b);
            assert(paragraph_has_body(t2, ps[j], b));
        }
        if body_in_paragraphs(t2, ps, ps.len() as int, b) {
            let j = choose|j: int| 0 <= j < ps.len() && paragraph_has_body(t2, #[trigger] ps[j], b);
            assert(paragraph_has_body(t1, ps[j], b));
        }
    }
}

/// Lemma: one more placeholder adds its body.
proof fn lemma_body_among_step(ms: Seq<(int, int, Seq<char>)>, k: int, b: Seq<char>)
    requires
        0 <= k < ms.len(),
    ensures
        body_among(ms, k + 1, b) == (body_among(ms, k, b) || ms[k].2 == b),
{
    if body_among(ms, k + 1, b) && !(ms[k].2 == b) {
        let i = choose|i: int| 0 <= i < k + 1 && (#[trigger] ms[i]).2 == b;
        assert(i < k);
    }
}

/// Lemma: one more paragraph adds its bodies.
proof fn lemma_body_in_paragraphs_step(t: XmlTree, ps: Seq<int>, k: int, b: Seq<char>)
    requires
        0 <= k < ps.len(),
    ensures
        body_in_paragraphs(t, ps, k + 1, b) == (body_in_paragraphs(t, ps, k, b) || paragraph_has_body(t, ps[k], b)),
{
    if body_in_paragraphs(t, ps, k + 1, b) && !paragraph_has_body(t, ps[k], b) {
        let j = choose|j: int| 0 <= j < k + 1 && paragraph_has_body(t, #[trigger] ps[j], b);
        assert(j < k);
    }
}

/// Strictly ascending: each string before the next, so none occurs twice.
pub open spec fn strictly_ascending(s: Seq<Seq<char>>) -> bool {
    forall|i: int, j: int| 0 <= i < j < s.len() ==> seq_lt(#[trigger] s[i], #[trigger] s[j])
}

/// Adds `x` to a strictly ascending list of strings (with their characters in
/// `keys`), unless it is there already.
fn insert_unique(list: &mut Vec<String>, keys: &mut Vec<Vec<char>>, x: &String)
    requires
        strictly_ascending(strings_view(old(list)@)),
        old(keys)@.len() == old(list)@.len(),
        forall|j: int| 0 <= j < old(list)@.len() ==> (#[trigger] old(keys)@[j])@ == old(list)@[j]@,
    ensures
        strictly_ascending(strings_view(final(list)@)),
        final(keys)@.len() == final(list)@.len(),
        forall|j: int| 0 <= j < final(list)@.len() ==> (#[trigger] final(keys)@[j])@ == final(list)@[j]@,
        forall|b: Seq<char>|
            strings_view(final(list)@).contains(b) <==> (strings_view(old(list)@).contains(b) || b
                == x@),
{
    let ghost lv = strings_view(list@);
    let xk = chars_of(x.as_str());
    let mut p: usize = 0;
    while p < list.len() && lt_chars(keys[p].as_slice(), xk.as_slice())
        invariant
            lv == strings_view(list@),
            keys@.len() == list@.len(),
            forall|j: int| 0 <= j < list@.len() ==> (#[trigger] keys@[j])@ == list@[j]@,
            xk@ == x@,
            p <= list@.len(),
            forall|j: int| 0 <= j < p ==> seq_lt(#[trigger] lv[j], x@),
        decreases list@.len() - p,
    {
        assert(lv[p as int] == list@[p as int]@);
        p += 1;
    }
    if p < list.len() && eq_chars(keys[p].as_slice(), xk.as_slice()) {
        assert(lv[p as int] == x@);
        assert(lv.contains(x@));
        return;
    }
    proof {
        if p < list@.len() {
            assert(lv[p as int] == list@[p as int]@);
            lemma_seq_lt_total(lv[p as int], x@);
            assert(seq_lt(x@, lv[p as int]));
        }
    }
    let ghost keys_before = keys@;
    list.insert(p, x.clone());
    keys.insert(p, xk);
    proof {
        let nv = strings_view(list@);
        assert(nv =~= lv.insert(p as int, x@));
        assert forall|i: int, j: int| 0 <= i < j < nv.len() implies seq_lt(#[trigger] nv[i], #[trigger] nv[j]) by {
            if j < p {
                assert(nv[i] == lv[i] && nv[j] == lv[j]);
            } else if j == p {
                assert(nv[i] == lv[i]);
            } else if i > p {
                assert(nv[i] == lv[i - 1] && nv[j] == lv[j - 1]);
            } else if i == p {
                assert(nv[j] == lv[j - 1]);
                if j - 1 > p {
                    assert(seq_lt(lv[p as int], lv[j - 1]));
                    lemma_seq_lt_transitive(x@, lv[p as int], lv[j - 1]);
                }
            } else {
                assert(nv[i] == lv[i] && nv[j] == lv[j - 1]);
                assert(seq_lt(lv[i], x@));
                if j - 1 > p {
                    assert(seq_lt(lv[p as int], lv[j - 1]));
                    lemma_seq_lt_transitive(x@, lv[p as int], lv[j - 1]);
                }
                lemma_seq_lt_transitive(lv[i], x@, lv[j - 1]);
            }
        }
        assert forall|j: int| 0 <= j < list@.len() implies (#[trigger] keys@[j])@ == list@[j]@ by {
            if j > p {
                assert(keys@[j] == keys_before[j - 1]);
            }
        }
        assert forall|b: Seq<char>| nv.contains(b) <==> (lv.contains(b) || b == x@) by {
            if nv.contains(b) {
                let i = choose|i: int| 0 <= i < nv.len() && nv[i] == b;
                if i < p {
                    assert(lv[i] == b);
                } else if i > p {
                    assert(lv[i - 1] == b);
                }
            }
            if lv.contains(b) {
                let i = choose|i: int| 0 <= i < lv.len() && lv[i] == b;
                if i < p {
                    assert(nv[i] == b);
                } else {
                    assert(nv[i + 1] == b);
                }
            }
            if b == x@ {
                assert(nv[p as int] == b);
            }
        }
    }
}

/// The bodies of all placeholders of a parsed document, each once, in ascending
/// order.
pub fn placeholders_of_tree(t: &XmlTree) -> (r: Vec<String>)
    requires
        t.wf(),
    ensures
        strictly_ascending(strings_view(r@)),
        forall|b: Seq<char>| strings_view(r@).contains(b) <==> template_has_placeholder(*t, b),
{
    let ps = descendants_named(t, 0, "p");
    let ghost pv = ps@.map_values(|x: usize| x as int);
    let mut list: Vec<String> = Vec::new();
    let mut keys: Vec<Vec<char>> = Vec::new();
    let mut a: usize = 0;
    while a < ps.len()
        invariant
            t.wf(),
            pv == ps@.map_values(|x: usize| x as int),
            pv == paragraphs_below(*t, 0),
            forall|j: int| 0 <= j < ps@.len() ==> (#[trigger] ps@[j]) < t.len(),
            a <= ps@.len(),
            strictly_ascending(strings_view(list@)),
            keys@.len() == list@.len(),
            forall|j: int| 0 <= j < list@.len() ==> (#[trigger] keys@[j])@ == list@[j]@,
            forall|b: Seq<char>|
                #[trigger] strings_view(list@).contains(b) == body_in_paragraphs(*t, pv, a as int, b),
        decreases ps@.len() - a,
    {
        let p = ps[a];
        assert(pv[a as int] == p as int);
        let raw = crate::html::paragraph_raw_chars(t, p);
        let raw_s = string_from_chars(raw.as_slice());
        let ms = find_placeholder_matches(raw_s.as_str());
        let ghost mv = matches_view(ms@);
        let ghost before = strings_view(list@);
        let mut k: usize = 0;
        while k < ms.len()
            invariant
                mv == matches_view(ms@),
                mv == placeholders_in(paragraph_raw_text(*t, p as int)),
                k <= ms@.len(),
                strictly_ascending(strings_view(list@)),
                keys@.len() == list@.len(),
                forall|j: int| 0 <= j < list@.len() ==> (#[trigger] keys@[j])@ == list@[j]@,
                forall|b: Seq<char>|
                    #[trigger] strings_view(list@).contains(b) == (before.contains(b) || body_among(mv, k as int, b)),
            decreases ms@.len() - k,
        {
            assert(mv[k as int].2 == ms@[k as int].body@);
            let ghost mid = strings_view(list@);
            insert_unique(&mut list, &mut keys, &ms[k].body);
            proof {
                assert forall|b: Seq<char>|
                    #[trigger] strings_view(list@).contains(b) == (before.contains(b) || body_among(mv, k + 1, b)) by {
                    lemma_body_among_step(mv, k as int, b);
                    assert(mid.contains(b) == (before.contains(b) || body_among(mv, k as int, b)));
                }
            }
            k += 1;
        }
        proof {
            assert forall|b: Seq<char>|
                #[trigger] strings_view(list@).contains(b) == body_in_paragraphs(*t, pv, a + 1, b) by {
                lemma_body_in_paragraphs_step(*t, pv, a as int, b);
                assert(before.contains(b) == body_in_paragraphs(*t, pv, a as int, b));
            }
        }
        a += 1;
    }
    list
}

/// The field a placeholder describes: its body, and the name, type and format parsed
/// from it.
#[derive(Debug, Clone, PartialEq, Eq)]
pub struct Placeholder {
    pub ph: String,
    pub name: String,
    pub field_type: String,
    pub format: Option<String>,
}

/// Whether `f` is the field of placeholder body `ph` (see `placeholder_parts`).
pub open spec fn is_field_of(f: Placeholder, ph: Seq<char>) -> bool {
    let parts = placeholder_parts(ph);
    &&& f.ph@ == ph
    &&& f.name@ == parts.0
    &&& f.field_type@ == parts.1
    &&& match f.format {
        Some(x) => parts.2 == Some(x@),
        None => parts.2 is None,
    }
}

/// The fields of the placeholders of a parsed document, one per placeholder body, in
/// ascending order of the bodies.
pub fn placeholder_structs(t: &XmlTree) -> (r: Vec<Placeholder>)
    requires
        t.wf(),
    ensures
        strictly_ascending(r@.map_values(|f: Placeholder| f.ph@)),
        forall|i: int| 0 <= i < r@.len() ==> is_field_of(#[trigger] r@[i], r@[i].ph@),
        forall|b: Seq<char>|
            r@.map_values(|f: Placeholder| f.ph@).contains(b) <==> template_has_placeholder(*t, b),
{
    let bodies = placeholders_of_tree(t);
    let ghost bv = strings_view(bodies@);
    let mut out: Vec<Placeholder> = Vec::new();
    let mut i: usize = 0;
    while i < bodies.len()
        invariant
            bv == strings_view(bodies@),
            i <= bodies@.len(),
            out@.len() == i,
            forall|j: int| 0 <= j < i ==> (#[trigger] out@[j]).ph@ == bv[j],
            forall|j: int| 0 <= j < i ==> is_field_of(#[trigger] out@[j], out@[j].ph@),
        decreases bodies@.len() - i,
    {
        let ph = bodies[i].clone();
        let (name, field_type, format) = parse_placeholder(ph.as_str());
        out.push(Placeholder { ph, name, field_type, format });
        i += 1;
    }
    proof {
        assert(out@.map_values(|f: Placeholder| f.ph@) =~= bv);
    }
    out
}

/// The placeholder bodies of a document body given as XML (see
/// `placeholders_of_tree`): each body found in a paragraph of the parsed document, once,
/// in ascending order; the parser's message when the XML is malformed.
pub fn get_placeholders_from_template(xml: &str) -> (r: Result<Vec<String>, String>)
    ensures
        match tree_outcome(xml@) {
            Err(m) => r matches Err(e) && e@ == m,
            Ok(ns) => r matches Ok(v) && (exists|t: XmlTree| t.nodes@ == ns && t.wf()) && strictly_ascending(
                strings_view(v@),
            ) && forall|t: XmlTree, b: Seq<char>|
                t.nodes@ == ns ==> (strings_view(v@).contains(b) <==> #[trigger] template_has_placeholder(t, b)),
        },
{
    match parse_xml_tree(xml) {
        Ok(t) => {
            let v = placeholders_of_tree(&t);
            proof {
                assert forall|t2: XmlTree, b: Seq<char>| t2.nodes@ == t.nodes@ implies (strings_view(v@).contains(b)
                    <==> #[trigger] template_has_placeholder(t2, b)) by {
                    lemma_placeholder_same_nodes(t, t2, b);
                }
            }
            Ok(v)
        },
        Err(e) => Err(e),
    }
}

/// The fields of the placeholders of a document body given as XML (see
/// `placeholder_structs`): one per body that `get_placeholders_from_template` lists, in
/// the same order; the parser's message when the XML is malformed.
pub fn build_placeholder_structs(xml: &str) -> (r: Result<Vec<Placeholder>, String>)
    ensures
        match tree_outcome(xml@) {
            Err(m) => r matches Err(e) && e@ == m,
            Ok(ns) => r matches Ok(v) && {
                &&& exists|t: XmlTree| t.nodes@ == ns && t.wf()
                &&& strictly_ascending(v@.map_values(|f: Placeholder| f.ph@))
                &&& forall|i: int| 0 <= i < v@.len() ==> is_field_of(#[trigger] v@[i], v@[i].ph@)
                &&& forall|t: XmlTree, b: Seq<char>|
                    t.nodes@ == ns ==> (v@.map_values(|f: Placeholder| f.ph@).contains(b)
                        <==> #[trigger] template_has_placeholder(t, b))
            },
        },
{
    match parse_xml_tree(xml) {
        Ok(t) => {
            let v = placeholder_structs(&t);
            proof {
                assert forall|t2: XmlTree, b: Seq<char>| t2.nodes@ == t.nodes@ implies (v@.map_values(
                    |f: Placeholder| f.ph@,
                ).contains(b) <==> #[trigger] template_has_placeholder(t2, b)) by {
                    lemma_placeholder_same_nodes(t, t2, b);
                }
            }
            Ok(v)
        },
        Err(e) => Err(e),
    }
}

} // verus!
