//! Properties that hold across the library's functions: of escaping, of type keys,
//! of replacements and of the rewriting of runs and documents.
use vstd::prelude::*;
use crate::custom_types::{collapse_separators, dedup_nonempty, normalized_custom_type, normalized_named, trim_all, first_with_key, has_key, is_key_separator, name_lt, normalized_key, strip_end_underscores, strip_start_underscores, upserted, without_key, CustomTypeView};
use crate::sort::{insert_pos, isort, lemma_isort_permutes, lemma_isort_sorted, lemma_seq_lt_irreflexive, lemma_seq_lt_transitive, seq_lt, str_lt};
use crate::names::newer_first;
use crate::text::lowercase;
use crate::namespaces::escape_attr_spec;
use crate::plan::{cut_fold, cut_step, min_int, CutState, full_text, non_empty, plan_at, replacement_outcome, run_pieces, PlanView, Replacement, TextNode};
use crate::writer::{concat, node_xml, para_child_xml};
use crate::plan::{inside_some_plan, touches_run};
use crate::document::{rewrite_settled, is_paragraph_end, is_paragraph_start, lemma_para_close_after, para_close, paragraph_node, plan_for, reps_for, rewrite_from, ParaEnd, PlannerView};
use crate::events::{document_events, event_xml, events_xml, XmlEvent};
use crate::fill::{fill_plans_upto, text_nodes_of_paragraph, value_in, FieldValues};
use crate::namespaces::{namespace_context_of, ContextView};
use crate::pattern::placeholders_in;
use crate::placeholders::strictly_ascending;
use crate::html::{body_fold, cells_fold, paragraph_html, paragraphs_below, paras_fold, rows_fold, table_html};
use crate::tree::{descendants, elements_named};
use crate::tree::XmlTree;
use crate::text::{escape_chars, escape_html_spec, html_entity, is_ws, js_scheme, js_scheme_escaped, replace_all, trim, trim_end, trim_start};

verus! {

/// Whether a text holds none of the characters that end a text or an attribute value
/// in HTML: `<`, `>`, `"` and `'`.
pub open spec fn free_of_markup(s: Seq<char>) -> bool {
    forall|i: int| 0 <= i < s.len() ==> {
        let c = #[trigger] s[i];
        c != '<' && c != '>' && c != '"' && c != '\''
    }
}

proof fn lemma_concat_free(a: Seq<char>, b: Seq<char>)
    requires
        free_of_markup(a),
        free_of_markup(b),
    ensures
        free_of_markup(a + b),
{
    assert forall|i: int| 0 <= i < (a + b).len() implies {
        let c = #[trigger] (a + b)[i];
        c != '<' && c != '>' && c != '"' && c != '\''
    } by {
        if i < a.len() {
            assert((a + b)[i] == a[i]);
        } else {
            assert((a + b)[i] == b[i - a.len()]);
        }
    }
}

proof fn lemma_escape_chars_free(s: Seq<char>)
    ensures
        free_of_markup(escape_chars(s)),
    decreases s.len(),
{
    if s.len() > 0 {
        lemma_escape_chars_free(s.drop_last());
        let e = html_entity(s.last());
        assert(free_of_markup(e));
        lemma_concat_free(escape_chars(s.drop_last()), e);
    }
}

proof fn lemma_replace_all_free(s: Seq<char>, pat: Seq<char>, rep: Seq<char>)
    requires
        free_of_markup(s),
        free_of_markup(rep),
    ensures
        free_of_markup(replace_all(s, pat, rep)),
    decreases s.len(),
{
    if pat.len() == 0 || s.len() < pat.len() {
    } else if s.take(pat.len() as int) == pat {
        let rest = s.skip(pat.len() as int);
        assert forall|i: int| 0 <= i < rest.len() implies {
            let c = #[trigger] rest[i];
            c != '<' && c != '>' && c != '"' && c != '\''
        } by {
            assert(rest[i] == s[i + pat.len()]);
        }
        lemma_replace_all_free(rest, pat, rep);
        lemma_concat_free(rep, replace_all(rest, pat, rep));
    } else {
        let rest = s.skip(1);
        assert forall|i: int| 0 <= i < rest.len() implies {
            let c = #[trigger] rest[i];
            c != '<' && c != '>' && c != '"' && c != '\''
        } by {
            assert(rest[i] == s[i + 1]);
        }
        lemma_replace_all_free(rest, pat, rep);
        assert(free_of_markup(seq![s[0]]));
        lemma_concat_free(seq![s[0]], replace_all(rest, pat, rep));
    }
}

proof fn lemma_replace_absent(s: Seq<char>, c: char, rep: Seq<char>)
    requires
        forall|i: int| 0 <= i < s.len() ==> #[trigger] s[i] != c,
    ensures
        replace_all(s, seq![c], rep) == s,
    decreases s.len(),
{
    if s.len() >= 1 {
        assert(s.take(1) != seq![c]) by {
            assert(s.take(1)[0] == s[0]);
        }
        let rest = s.skip(1);
        assert forall|i: int| 0 <= i < rest.len() implies #[trigger] rest[i] != c by {
            assert(rest[i] == s[i + 1]);
        }
        lemma_replace_absent(rest, c, rep);
        assert(seq![s[0]] + rest =~= s);
    }
}

/// Law: the HTML escaping leaves no `<`, `>`, `"` or `'` in the text, so an escaped
/// text can neither open a tag nor leave an attribute value.
pub proof fn law_escape_html_free_of_markup(s: Seq<char>)
    ensures
        free_of_markup(escape_html_spec(s)),
{
    lemma_escape_chars_free(s);
    assert(free_of_markup(js_scheme_escaped()));
    lemma_replace_all_free(escape_chars(s), crate::text::js_scheme(), js_scheme_escaped());
}

/// Law: escaping for an attribute gives the same text as the HTML escaping: no `"`
/// is left for it to replace.
pub proof fn law_escape_attr_is_escape_html(s: Seq<char>)
    ensures
        escape_attr_spec(s) == escape_html_spec(s),
{
    law_escape_html_free_of_markup(s);
    let e = escape_html_spec(s);
    assert forall|i: int| 0 <= i < e.len() implies #[trigger] e[i] != '"' by {
        assert(free_of_markup(e));
    }
    lemma_replace_absent(e, '"', seq!['&', 'q', 'u', 'o', 't', ';']);
}

/// A text in the shape of a type key: no whitespace, `_` as its only separator
/// character, never two separators in a row, no `_` at either end.
pub open spec fn key_shaped(k: Seq<char>) -> bool {
    &&& forall|i: int| 0 <= i < k.len() ==> !is_ws(#[trigger] k[i])
    &&& forall|i: int| 0 <= i < k.len() && is_key_separator(#[trigger] k[i]) ==> k[i] == '_'
    &&& forall|i: int|
        0 <= i < k.len() - 1 ==> !(is_key_separator(#[trigger] k[i]) && is_key_separator(k[i + 1]))
    &&& k.len() > 0 ==> k[0] != '_' && k.last() != '_'
}

/// The inner shape of a collapsed text (everything of `key_shaped` but the ends).
spec fn collapsed_shape(k: Seq<char>) -> bool {
    &&& forall|i: int| 0 <= i < k.len() ==> !is_ws(#[trigger] k[i])
    &&& forall|i: int| 0 <= i < k.len() && is_key_separator(#[trigger] k[i]) ==> k[i] == '_'
    &&& forall|i: int|
        0 <= i < k.len() - 1 ==> !(is_key_separator(#[trigger] k[i]) && is_key_separator(k[i + 1]))
}

proof fn lemma_collapse_shape(s: Seq<char>)
    ensures
        collapsed_shape(collapse_separators(s)),
        s.len() > 0 ==> collapse_separators(s).len() > 0,
        s.len() > 0 ==> (is_key_separator(collapse_separators(s).last()) <==> is_key_separator(s.last())),
    decreases s.len(),
{
    if s.len() > 0 {
        let p = s.drop_last();
        lemma_collapse_shape(p);
        let cp = collapse_separators(p);
        let c = collapse_separators(s);
        if is_key_separator(s.last()) {
            if s.len() >= 2 && is_key_separator(s[s.len() - 2]) {
                assert(p.last() == s[s.len() - 2]);
            } else {
                assert(c == cp.push('_'));
                if cp.len() > 0 {
                    assert(p.last() == s[s.len() - 2]);
                    assert(!is_key_separator(cp.last()));
                }
                assert forall|i: int| 0 <= i < c.len() - 1 implies !(is_key_separator(#[trigger] c[i]) && is_key_separator(c[i + 1])) by {
                    assert(c[i] == cp[i]);
                    if i + 1 < cp.len() {
                        assert(c[i + 1] == cp[i + 1]);
                    }
                }
                assert forall|i: int| 0 <= i < c.len() implies !is_ws(#[trigger] c[i]) by {
                    if i < cp.len() {
                        assert(c[i] == cp[i]);
                    }
                }
                assert forall|i: int| 0 <= i < c.len() && is_key_separator(#[trigger] c[i]) implies c[i] == '_' by {
                    if i < cp.len() {
                        assert(c[i] == cp[i]);
                    }
                }
            }
        } else {
            assert(c == cp.push(s.last()));
            assert(!is_ws(s.last()));
            assert forall|i: int| 0 <= i < c.len() - 1 implies !(is_key_separator(#[trigger] c[i]) && is_key_separator(c[i + 1])) by {
                assert(c[i] == cp[i]);
                if i + 1 < cp.len() {
                    assert(c[i + 1] == cp[i + 1]);
                }
            }
            assert forall|i: int| 0 <= i < c.len() implies !is_ws(#[trigger] c[i]) by {
                if i < cp.len() {
                    assert(c[i] == cp[i]);
                }
            }
            assert forall|i: int| 0 <= i < c.len() && is_key_separator(#[trigger] c[i]) implies c[i] == '_' by {
                if i < cp.len() {
                    assert(c[i] == cp[i]);
                }
            }
        }
    }
}

proof fn lemma_strip_start_shape(s: Seq<char>)
    requires
        collapsed_shape(s),
    ensures
        collapsed_shape(strip_start_underscores(s)),
        strip_start_underscores(s).len() > 0 ==> strip_start_underscores(s)[0] != '_',
    decreases s.len(),
{
    if s.len() > 0 && s[0] == '_' {
        let t = s.drop_first();
        assert forall|i: int| 0 <= i < t.len() implies !is_ws(#[trigger] t[i]) by {
            assert(t[i] == s[i + 1]);
        }
        assert forall|i: int| 0 <= i < t.len() && is_key_separator(#[trigger] t[i]) implies t[i] == '_' by {
            assert(t[i] == s[i + 1]);
        }
        assert forall|i: int| 0 <= i < t.len() - 1 implies !(is_key_separator(#[trigger] t[i]) && is_key_separator(t[i + 1])) by {
            assert(t[i] == s[i + 1]);
            assert(t[i + 1] == s[i + 2]);
        }
        lemma_strip_start_shape(t);
    }
}

proof fn lemma_strip_end_shape(s: Seq<char>)
    requires
        collapsed_shape(s),
        s.len() > 0 ==> s[0] != '_',
    ensures
        key_shaped(strip_end_underscores(s)),
    decreases s.len(),
{
    if s.len() > 0 && s.last() == '_' {
        let t = s.drop_last();
        assert forall|i: int| 0 <= i < t.len() - 1 implies !(is_key_separator(#[trigger] t[i]) && is_key_separator(t[i + 1])) by {
            assert(t[i] == s[i]);
            assert(t[i + 1] == s[i + 1]);
        }
        if t.len() > 0 {
            assert(t[0] == s[0]);
        }
        lemma_strip_end_shape(t);
    }
}

/// Lemma: a normalized key has the shape of a key.
pub proof fn lemma_normalized_key_shaped(raw: Seq<char>)
    ensures
        key_shaped(normalized_key(raw)),
{
    let c = collapse_separators(trim(raw));
    lemma_collapse_shape(trim(raw));
    lemma_strip_start_shape(c);
    lemma_strip_end_shape(strip_start_underscores(c));
}

proof fn lemma_collapse_of_collapsed(k: Seq<char>)
    requires
        collapsed_shape(k),
    ensures
        collapse_separators(k) == k,
    decreases k.len(),
{
    if k.len() > 0 {
        let p = k.drop_last();
        assert forall|i: int| 0 <= i < p.len() implies !is_ws(#[trigger] p[i]) by {
            assert(p[i] == k[i]);
        }
        assert forall|i: int| 0 <= i < p.len() && is_key_separator(#[trigger] p[i]) implies p[i] == '_' by {
            assert(p[i] == k[i]);
        }
        assert forall|i: int| 0 <= i < p.len() - 1 implies !(is_key_separator(#[trigger] p[i]) && is_key_separator(p[i + 1])) by {
            assert(p[i] == k[i]);
            assert(p[i + 1] == k[i + 1]);
        }
        lemma_collapse_of_collapsed(p);
        if is_key_separator(k.last()) {
            assert(k.last() == k[k.len() - 1]);
            if k.len() >= 2 {
                assert(!is_key_separator(k[k.len() - 2]));
            }
        }
        assert(p.push(k.last()) =~= k);
    }
}

/// Law: normalizing a key that is already normalized changes nothing, so a key that
/// is saved and later looked up with its own text finds itself.
pub proof fn law_normalized_key_idempotent(raw: Seq<char>)
    ensures
        normalized_key(normalized_key(raw)) == normalized_key(raw),
{
    let k = normalized_key(raw);
    lemma_normalized_key_shaped(raw);
    crate::text::lemma_trim_start_skip(k, 0);
    assert(k.skip(0) =~= k);
    crate::text::lemma_trim_end_take(k, k.len() as int);
    assert(k.take(k.len() as int) =~= k);
    assert(trim(k) == k);
    lemma_collapse_of_collapsed(k);
    assert(strip_start_underscores(k) == k);
    assert(strip_end_underscores(k) == k);
}

/// Law: a replacement of the constructor applies (becomes a plan) exactly when its
/// text is not empty, fits in the paragraph and is found at its position; the plan
/// then covers exactly that text and puts the replacement's insert in its place.
pub proof fn law_replacement_applies_iff_found(nodes: Seq<TextNode>, rep: Replacement)
    ensures
        ({
            let full = full_text(nodes);
            let n = rep.old@.len();
            (replacement_outcome(nodes, rep) is Ok) <==> (n > 0 && rep.offset + n <= full.len()
                && full.subrange(rep.offset as int, rep.offset + n) == rep.old@)
        }),
        replacement_outcome(nodes, rep) matches Ok(p) ==> p == plan_at(
            nodes,
            rep.offset as int,
            rep.offset + rep.old@.len(),
            rep.insert@,
        ),
{
}

/// Law: a run that no plan covers is written back whole, as it was read (attributes,
/// formatting and every child kept), and counts as one run.
pub proof fn law_untouched_run_kept(t: XmlTree, ch: int, run: int, plans: Seq<PlanView>, c: ContextView)
    requires
        0 <= ch < t.len(),
        t.nodes@[ch].kind is Element,
        t.nodes@[ch].name@ == "r"@,
        !touches_run(plans, run),
    ensures
        para_child_xml(t, ch, run, plans, c) == (node_xml(t, ch, c), run + 1),
{
}

/// Law: a proofing mark (`proofErr`) between the runs of a paragraph is dropped exactly
/// when it lies inside a replaced range (after a plan's first run, up to its last), and
/// is written back as read otherwise; it is not counted as a run.
pub proof fn law_proof_mark_dropped_inside_plans(t: XmlTree, ch: int, run: int, plans: Seq<PlanView>, c: ContextView)
    requires
        0 <= ch < t.len(),
        t.nodes@[ch].kind is Element,
        t.nodes@[ch].name@ == "proofErr"@,
    ensures
        para_child_xml(t, ch, run, plans, c) == if inside_some_plan(plans, run) {
            (Seq::<char>::empty(), run)
        } else {
            (node_xml(t, ch, c), run)
        },
{
    assert(t.nodes@[ch].name@ != "r"@) by {
        reveal_strlit("proofErr");
        reveal_strlit("r");
        assert(t.nodes@[ch].name@.len() != "r"@.len());
    }
}

proof fn lemma_concat_non_empty(s: Seq<Seq<char>>)
    ensures
        concat(non_empty(s)) == concat(s),
    decreases s.len(),
{
    if s.len() > 0 {
        lemma_concat_non_empty(s.drop_last());
        if s.last().len() == 0 {
            assert(concat(s) =~= concat(s.drop_last()));
        } else {
            let ne = non_empty(s.drop_last());
            assert(non_empty(s).drop_last() =~= ne);
        }
    }
}

/// The events from position `i` on, written back as read, up to the end event.
pub open spec fn written_back(evs: Seq<XmlEvent>, i: int) -> Seq<char>
    decreases evs.len() - i,
{
    if i < 0 || i >= evs.len() {
        Seq::empty()
    } else if evs[i] is Eof {
        Seq::empty()
    } else {
        event_xml(evs[i]) + written_back(evs, i + 1)
    }
}

/// Whether a planner plans nothing and reports nothing, for every paragraph.
pub open spec fn plans_nothing(planner: PlannerView) -> bool {
    forall|t: XmlTree, p: int, k: int|
        #[trigger] plan_for(t, p, k, planner) == (Seq::<PlanView>::empty(), Seq::<Seq<char>>::empty())
}

proof fn lemma_events_xml_prepend(e: XmlEvent, s: Seq<XmlEvent>)
    ensures
        events_xml(seq![e] + s) == event_xml(e) + events_xml(s),
    decreases s.len(),
{
    if s.len() == 0 {
        assert(seq![e] + s =~= seq![e]);
        assert(seq![e].drop_last() =~= Seq::<XmlEvent>::empty());
        assert(events_xml(Seq::<XmlEvent>::empty()) =~= Seq::<char>::empty());
        assert(events_xml(seq![e]) =~= event_xml(e));
        assert(event_xml(e) + events_xml(s) =~= event_xml(e));
    } else {
        lemma_events_xml_prepend(e, s.drop_last());
        assert((seq![e] + s).drop_last() =~= seq![e] + s.drop_last());
        assert((seq![e] + s).last() == s.last());
        assert(events_xml(seq![e] + s) =~= event_xml(e) + events_xml(s));
    }
}

proof fn lemma_close_no_eof(evs: Seq<XmlEvent>, a: int, d: int)
    ensures
        para_close(evs, a, d) matches ParaEnd::Closed(j) ==> forall|m: int| a <= m <= j ==> !(#[trigger] evs[m] is Eof),
    decreases evs.len() - a,
{
    if 0 <= a < evs.len() {
        if is_paragraph_start(evs[a]) {
            lemma_close_no_eof(evs, a + 1, d + 1);
        } else if is_paragraph_end(evs[a]) {
            if d > 1 {
                lemma_close_no_eof(evs, a + 1, d - 1);
            }
        } else if !(evs[a] is Eof) {
            lemma_close_no_eof(evs, a + 1, d);
        }
    }
}

proof fn lemma_written_back_split(evs: Seq<XmlEvent>, i: int, j: int)
    requires
        0 <= i <= j < evs.len(),
        forall|m: int| i <= m <= j ==> !(#[trigger] evs[m] is Eof),
    ensures
        written_back(evs, i) == events_xml(evs.subrange(i, j + 1)) + written_back(evs, j + 1),
    decreases j - i,
{
    assert(!(evs[i] is Eof));
    if i == j {
        assert(evs.subrange(i, j + 1) =~= seq![evs[i]] + Seq::<XmlEvent>::empty());
        lemma_events_xml_prepend(evs[i], Seq::<XmlEvent>::empty());
        assert(events_xml(Seq::<XmlEvent>::empty()) =~= Seq::<char>::empty());
        assert(event_xml(evs[i]) + Seq::<char>::empty() =~= event_xml(evs[i]));
    } else {
        lemma_written_back_split(evs, i + 1, j);
        assert(evs.subrange(i, j + 1) =~= seq![evs[i]] + evs.subrange(i + 1, j + 1));
        lemma_events_xml_prepend(evs[i], evs.subrange(i + 1, j + 1));
        assert(written_back(evs, i) =~= events_xml(evs.subrange(i, j + 1)) + written_back(evs, j + 1));
    }
}

/// Law: with a planner that plans nothing, a successful rewrite writes every event
/// back as read, up to the end event, and reports nothing.
pub proof fn law_rewrite_without_plans_keeps_text(
    evs: Seq<XmlEvent>,
    err: Option<Seq<char>>,
    i: int,
    k: int,
    c: ContextView,
    planner: PlannerView,
    trees: Seq<Result<XmlTree, String>>,
    out: Seq<char>,
    reports: Seq<Seq<char>>,
)
    requires
        plans_nothing(planner),
    ensures
        rewrite_from(evs, err, i, k, c, planner, trees, out, reports) matches Ok(r) ==> r == (
            out + written_back(evs, i),
            reports,
        ),
    decreases evs.len() - i,
{
    if i < 0 || i >= evs.len() || evs[i] is Eof {
        assert(out + Seq::<char>::empty() =~= out);
    } else if is_paragraph_start(evs[i]) {
        match para_close(evs, i + 1, 1) {
            ParaEnd::Closed(j) => {
                lemma_para_close_after(evs, i + 1, 1);
                lemma_close_no_eof(evs, i + 1, 1);
                lemma_written_back_split(evs, i, j);
                let group = evs.subrange(i, j + 1);
                match trees[k] {
                    Ok(t) => {
                        if t.wf() {
                            match paragraph_node(t) {
                                Some(p) => {
                                    assert(plan_for(t, p, k, planner).0.len() == 0);
                                    law_rewrite_without_plans_keeps_text(
                                        evs,
                                        err,
                                        j + 1,
                                        k + 1,
                                        c,
                                        planner,
                                        trees,
                                        out + events_xml(group),
                                        reports + plan_for(t, p, k, planner).1,
                                    );
                                    assert(reports + plan_for(t, p, k, planner).1 =~= reports);
                                    assert(out + events_xml(group) + written_back(evs, j + 1) =~= out
                                        + written_back(evs, i));
                                },
                                None => {},
                            }
                        }
                    },
                    Err(_) => {},
                }
            },
            _ => {},
        }
    } else {
        law_rewrite_without_plans_keeps_text(evs, err, i + 1, k, c, planner, trees, out + event_xml(evs[i]), reports);
        assert(out + event_xml(evs[i]) + written_back(evs, i + 1) =~= out + written_back(evs, i));
    }
}

proof fn lemma_fill_nothing(nodes: Seq<TextNode>, found: Seq<(int, int, Seq<char>)>, values: FieldValues, k: int)
    requires
        values.entries@.len() == 0,
    ensures
        fill_plans_upto(nodes, found, values, k) == Seq::<PlanView>::empty(),
    decreases k,
{
    if k > 0 {
        lemma_fill_nothing(nodes, found, values, k - 1);
    }
}

/// Law: filling with no values writes a document back as read: a successful fill
/// gives the events written back, up to the end event.
pub proof fn law_fill_without_values_keeps_text(
    evs: Seq<XmlEvent>,
    err: Option<Seq<char>>,
    c: ContextView,
    values: FieldValues,
    trees: Seq<Result<XmlTree, String>>,
)
    requires
        values.entries@.len() == 0,
    ensures
        rewrite_from(evs, err, 0, 0, c, PlannerView::Fill(values), trees, Seq::empty(), Seq::empty()) matches Ok(r)
            ==> r.0 == written_back(evs, 0) && r.1.len() == 0,
{
    let planner = PlannerView::Fill(values);
    assert forall|t: XmlTree, p: int, k: int|
        #[trigger] plan_for(t, p, k, planner) == (Seq::<PlanView>::empty(), Seq::<Seq<char>>::empty()) by {
        let nodes = text_nodes_of_paragraph(t, p);
        let found = placeholders_in(full_text(nodes));
        lemma_fill_nothing(nodes, found, values, found.len() as int);
    }
    law_rewrite_without_plans_keeps_text(evs, err, 0, 0, c, planner, trees, Seq::empty(), Seq::empty());
    assert(Seq::<char>::empty() + written_back(evs, 0) =~= written_back(evs, 0));
}

/// Law: the constructor with no replacements writes a document back as read, with no
/// report.
pub proof fn law_constructor_without_replacements_keeps_text(
    evs: Seq<XmlEvent>,
    err: Option<Seq<char>>,
    c: ContextView,
    trees: Seq<Result<XmlTree, String>>,
)
    ensures
        rewrite_from(
            evs,
            err,
            0,
            0,
            c,
            PlannerView::Constructor(Seq::empty()),
            trees,
            Seq::empty(),
            Seq::empty(),
        ) matches Ok(r) ==> r.0 == written_back(evs, 0) && r.1.len() == 0,
{
    let planner = PlannerView::Constructor(Seq::empty());
    assert forall|t: XmlTree, p: int, k: int|
        #[trigger] plan_for(t, p, k, planner) == (Seq::<PlanView>::empty(), Seq::<Seq<char>>::empty()) by {
        assert(reps_for(Seq::<Replacement>::empty(), k).len() == 0);
    }
    law_rewrite_without_plans_keeps_text(evs, err, 0, 0, c, planner, trees, Seq::empty(), Seq::empty());
    assert(Seq::<char>::empty() + written_back(evs, 0) =~= written_back(evs, 0));
}

/// Law: rewriting a document body with a planner that plans nothing gives, when it
/// succeeds, the document's events written back as read, up to the end event, and no
/// report, whatever its paragraphs parsed to.
pub proof fn law_document_rewrite_without_plans_keeps_events(
    xml: Seq<char>,
    planner: PlannerView,
    trees: Seq<Result<XmlTree, String>>,
    res: Result<(Seq<char>, Seq<Seq<char>>), Seq<char>>,
)
    requires
        plans_nothing(planner),
        rewrite_settled(document_events(xml).0, document_events(xml).1, namespace_context_of(xml), planner, trees, res),
    ensures
        res matches Ok(r) ==> r == (written_back(document_events(xml).0, 0), Seq::<Seq<char>>::empty()),
{
    let evs = document_events(xml).0;
    law_rewrite_without_plans_keeps_text(evs, document_events(xml).1, 0, 0, namespace_context_of(xml), planner, trees + Seq::empty(), Seq::empty(), Seq::empty());
    assert(rewrite_from(evs, document_events(xml).1, 0, 0, namespace_context_of(xml), planner, trees + Seq::empty(), Seq::empty(), Seq::empty()) == res);
    assert(Seq::<char>::empty() + written_back(evs, 0) =~= written_back(evs, 0));
}

/// Law: filling a document body with no values gives, when it succeeds, the
/// document's events written back as read.
pub proof fn law_document_fill_without_values_keeps_events(
    xml: Seq<char>,
    values: FieldValues,
    trees: Seq<Result<XmlTree, String>>,
    res: Result<(Seq<char>, Seq<Seq<char>>), Seq<char>>,
)
    requires
        values.entries@.len() == 0,
        rewrite_settled(document_events(xml).0, document_events(xml).1, namespace_context_of(xml), PlannerView::Fill(values), trees, res),
    ensures
        res matches Ok(r) ==> r.0 == written_back(document_events(xml).0, 0),
{
    let evs = document_events(xml).0;
    law_fill_without_values_keeps_text(evs, document_events(xml).1, namespace_context_of(xml), values, trees + Seq::empty());
    assert(rewrite_from(evs, document_events(xml).1, 0, 0, namespace_context_of(xml), PlannerView::Fill(values), trees + Seq::empty(), Seq::empty(), Seq::empty()) == res);
}

/// Law: applying no constructor replacements to a document body gives, when it
/// succeeds, the document's events written back as read, with no report.
pub proof fn law_document_constructor_without_replacements_keeps_events(
    xml: Seq<char>,
    trees: Seq<Result<XmlTree, String>>,
    res: Result<(Seq<char>, Seq<Seq<char>>), Seq<char>>,
)
    requires
        rewrite_settled(document_events(xml).0, document_events(xml).1, namespace_context_of(xml), PlannerView::Constructor(Seq::empty()), trees, res),
    ensures
        res matches Ok(r) ==> r.0 == written_back(document_events(xml).0, 0) && r.1.len() == 0,
{
    let evs = document_events(xml).0;
    law_constructor_without_replacements_keeps_text(evs, document_events(xml).1, namespace_context_of(xml), trees + Seq::empty());
    assert(rewrite_from(evs, document_events(xml).1, 0, 0, namespace_context_of(xml), PlannerView::Constructor(Seq::empty()), trees + Seq::empty(), Seq::empty(), Seq::empty()) == res);
}

/// Whether no two custom types share a key.
pub open spec fn keys_unique(items: Seq<CustomTypeView>) -> bool {
    forall|i: int, j: int| 0 <= i < j < items.len() ==> (#[trigger] items[i]).key != (#[trigger] items[j]).key
}

/// Law: deleting a key removes exactly the types with that key.
pub proof fn law_delete_removes_key(items: Seq<CustomTypeView>, key: Seq<char>)
    ensures
        forall|x: CustomTypeView| #[trigger] without_key(items, key).contains(x) <==> (items.contains(x) && x.key != key),
    decreases items.len(),
{
    if items.len() > 0 {
        let p = items.drop_last();
        law_delete_removes_key(p, key);
        let prev = without_key(p, key);
        let w = without_key(items, key);
        assert forall|x: CustomTypeView| #[trigger] without_key(items, key).contains(x) <==> (items.contains(x) && x.key != key) by {
            assert(prev.contains(x) <==> (p.contains(x) && x.key != key));
            if items.last().key != key {
                assert(w == prev.push(items.last()));
            } else {
                assert(w == prev);
            }
            if items.contains(x) && x.key != key {
                let i = choose|i: int| 0 <= i < items.len() && items[i] == x;
                if i < p.len() {
                    assert(p[i] == x);
                    assert(p.contains(x));
                    let j = choose|j: int| 0 <= j < prev.len() && prev[j] == x;
                    assert(w[j] == x);
                } else {
                    assert(items.last() == x);
                    assert(w[w.len() - 1] == x);
                }
            }
            if w.contains(x) {
                let j = choose|j: int| 0 <= j < w.len() && w[j] == x;
                if j < prev.len() {
                    assert(prev[j] == x);
                    assert(prev.contains(x));
                    let i = choose|i: int| 0 <= i < p.len() && p[i] == x;
                    assert(items[i] == x);
                } else {
                    assert(x == items.last());
                    assert(items[items.len() - 1] == x);
                }
            }
        }
    }
}

proof fn lemma_permutation_contents<A>(a: Seq<A>, b: Seq<A>)
    requires
        a.to_multiset() == b.to_multiset(),
    ensures
        forall|x: A| #[trigger] a.contains(x) <==> b.contains(x),
        b.no_duplicates() ==> a.no_duplicates(),
{
    assert forall|x: A| #[trigger] a.contains(x) <==> b.contains(x) by {
        vstd::seq_lib::to_multiset_contains(a, x);
        vstd::seq_lib::to_multiset_contains(b, x);
    }
    if b.no_duplicates() {
        b.lemma_multiset_has_no_duplicates();
        a.lemma_multiset_has_no_duplicates_conv();
    }
}

/// Law: saving a type into a list whose keys are unique keeps the keys unique; the
/// list then holds the saved type and every earlier type with another key, and nothing
/// else.
pub proof fn law_upsert_contents(items: Seq<CustomTypeView>, t: CustomTypeView)
    requires
        keys_unique(items),
    ensures
        keys_unique(upserted(items, t)),
        forall|x: CustomTypeView| #[trigger] upserted(items, t).contains(x) <==> (x == t || (items.contains(x)
            && x.key != t.key)),
{
    let updated = if has_key(items, t.key) {
        items.update(first_with_key(items, t.key), t)
    } else {
        items.push(t)
    };
    if has_key(items, t.key) {
        let w = choose|j: int| 0 <= j < items.len() && items[j].key == t.key;
        assert(0 <= w < items.len() && items[w].key == t.key);
        let f = first_with_key(items, t.key);
        assert(0 <= f < items.len() && items[f].key == t.key) by {
            assert(exists|j: int| 0 <= j < items.len() && items[j].key == t.key && forall|i: int| 0 <= i < j ==> items[i].key != t.key) by {
                assert forall|i: int| 0 <= i < w implies items[i].key != t.key by {
                    assert(items[i].key != items[w].key);
                }
            }
        }
        assert forall|i: int, j: int| 0 <= i < j < updated.len() implies (#[trigger] updated[i]).key != (#[trigger] updated[j]).key by {
            if i == f {
                assert(items[j].key != items[f].key);
            } else if j == f {
                assert(items[i].key != items[f].key);
            }
        }
        assert forall|x: CustomTypeView| #[trigger] updated.contains(x) <==> (x == t || (items.contains(x) && x.key != t.key)) by {
            if updated.contains(x) {
                let i = choose|i: int| 0 <= i < updated.len() && updated[i] == x;
                if i != f {
                    assert(items[i] == x);
                    assert(items[i].key != items[f].key) by {
                        if i < f {
                        } else {
                        }
                    }
                }
            }
            if x == t {
                assert(updated[f] == t);
            }
            if items.contains(x) && x.key != t.key {
                let i = choose|i: int| 0 <= i < items.len() && items[i] == x;
                assert(i != f);
                assert(updated[i] == x);
            }
        }
    } else {
        assert forall|i: int, j: int| 0 <= i < j < updated.len() implies (#[trigger] updated[i]).key != (#[trigger] updated[j]).key by {
            if j == items.len() {
                assert(items[i].key != t.key);
            }
        }
        assert forall|x: CustomTypeView| #[trigger] updated.contains(x) <==> (x == t || (items.contains(x) && x.key != t.key)) by {
            if updated.contains(x) {
                let i = choose|i: int| 0 <= i < updated.len() && updated[i] == x;
                if i < items.len() {
                    assert(items[i] == x);
                }
            }
            if x == t {
                assert(updated[items.len() as int] == t);
            }
            if items.contains(x) {
                let i = choose|i: int| 0 <= i < items.len() && items[i] == x;
                assert(updated[i] == x);
            }
        }
    }
    let sorted = isort(updated, name_lt());
    assert(sorted == upserted(items, t));
    lemma_isort_permutes(updated, name_lt());
    assert(updated.no_duplicates()) by {
        assert forall|i: int, j: int| 0 <= i < updated.len() && 0 <= j < updated.len() && i != j implies updated[i] != updated[j] by {
            if i < j {
                assert(updated[i].key != updated[j].key);
            } else {
                assert(updated[j].key != updated[i].key);
            }
        }
    }
    lemma_permutation_contents(sorted, updated);
    assert forall|i: int, j: int| 0 <= i < j < sorted.len() implies (#[trigger] sorted[i]).key != (#[trigger] sorted[j]).key by {
        assert(sorted[i] != sorted[j]);
        assert(sorted.contains(sorted[i]));
        assert(sorted.contains(sorted[j]));
        assert(updated.contains(sorted[i]));
        assert(updated.contains(sorted[j]));
        let a = choose|a: int| 0 <= a < updated.len() && updated[a] == sorted[i];
        let b = choose|b: int| 0 <= b < updated.len() && updated[b] == sorted[j];
        assert(a != b);
        if a < b {
            assert(updated[a].key != updated[b].key);
        } else {
            assert(updated[b].key != updated[a].key);
        }
    }
}

/// Law: saving a type and then deleting its key leaves exactly the earlier types with
/// another key (in the order of the saved list).
pub proof fn law_delete_after_upsert(items: Seq<CustomTypeView>, t: CustomTypeView)
    requires
        keys_unique(items),
    ensures
        forall|x: CustomTypeView| #[trigger] without_key(upserted(items, t), t.key).contains(x) <==> (items.contains(x)
            && x.key != t.key),
{
    law_upsert_contents(items, t);
    law_delete_removes_key(upserted(items, t), t.key);
    assert forall|x: CustomTypeView| #[trigger] without_key(upserted(items, t), t.key).contains(x) <==> (items.contains(x)
        && x.key != t.key) by {
        assert(without_key(upserted(items, t), t.key).contains(x) <==> (upserted(items, t).contains(x) && x.key != t.key));
        assert(upserted(items, t).contains(x) <==> (x == t || (items.contains(x) && x.key != t.key)));
    }
}

/// Law: the custom types are listed by lowercase name: no type comes after one whose
/// lowercase name is greater.
pub proof fn law_custom_types_sorted(items: Seq<CustomTypeView>)
    ensures
        forall|i: int, j: int|
            0 <= i < j < isort(items, name_lt()).len() ==> !seq_lt(
                lowercase((#[trigger] isort(items, name_lt())[j]).name),
                lowercase((#[trigger] isort(items, name_lt())[i]).name),
            ),
{
    let lt = name_lt();
    assert forall|a: CustomTypeView| !#[trigger] lt(a, a) by {
        lemma_seq_lt_irreflexive(lowercase(a.name));
    }
    assert forall|a: CustomTypeView, b: CustomTypeView, c: CustomTypeView| #[trigger] lt(a, b) && #[trigger] lt(b, c) implies lt(a, c) by {
        lemma_seq_lt_transitive(lowercase(a.name), lowercase(b.name), lowercase(c.name));
    }
    lemma_isort_sorted(items, lt);
}

/// Law: template files are listed in ascending order of their names.
pub proof fn law_template_files_sorted(names: Seq<Seq<char>>)
    ensures
        forall|i: int, j: int|
            0 <= i < j < isort(names, str_lt()).len() ==> !seq_lt(
                #[trigger] isort(names, str_lt())[j],
                #[trigger] isort(names, str_lt())[i],
            ),
{
    let lt = str_lt();
    assert forall|a: Seq<char>| !#[trigger] lt(a, a) by {
        lemma_seq_lt_irreflexive(a);
    }
    assert forall|a: Seq<char>, b: Seq<char>, c: Seq<char>| #[trigger] lt(a, b) && #[trigger] lt(b, c) implies lt(a, c) by {
        lemma_seq_lt_transitive(a, b, c);
    }
    lemma_isort_sorted(names, lt);
}

/// Law: the history lists saved documents newest first: no document comes after an
/// older one.
pub proof fn law_history_newest_first(entries: Seq<(Seq<char>, int)>)
    ensures
        forall|i: int, j: int|
            0 <= i < j < isort(entries, newer_first()).len() ==> (#[trigger] isort(entries, newer_first())[i]).1
                >= (#[trigger] isort(entries, newer_first())[j]).1,
{
    let lt = newer_first();
    assert forall|a: (Seq<char>, int)| !#[trigger] lt(a, a) by {}
    assert forall|a: (Seq<char>, int), b: (Seq<char>, int), c: (Seq<char>, int)| #[trigger] lt(a, b) && #[trigger] lt(b, c) implies lt(a, c) by {}
    lemma_isort_sorted(entries, lt);
}

/// Law: an entry given again for the same key replaces the earlier value, and leaves
/// the values of other keys as they were.
pub proof fn law_last_value_wins(values: FieldValues, more: FieldValues, key: String, value: String, other: Seq<char>)
    requires
        more.entries@ == values.entries@.push((key, value)),
    ensures
        more.value_of(key@) == Some(value@),
        other != key@ ==> more.value_of(other) == values.value_of(other),
{
    let n = values.entries@.len() as int;
    assert(more.entries@[n] == (key, value));
    if other != key@ {
        assert(more.entries@.take(n) =~= values.entries@);
        lemma_value_in_prefix(more.entries@, values.entries@, other, n);
    }
}

proof fn lemma_value_in_prefix(a: Seq<(String, String)>, b: Seq<(String, String)>, key: Seq<char>, k: int)
    requires
        0 <= k <= b.len(),
        k <= a.len(),
        forall|i: int| 0 <= i < k ==> a[i] == b[i],
    ensures
        value_in(a, key, k) == value_in(b, key, k),
    decreases k,
{
    if k > 0 {
        lemma_value_in_prefix(a, b, key, k - 1);
    }
}

proof fn lemma_trim_start_first(s: Seq<char>)
    ensures
        trim_start(s).len() > 0 ==> !is_ws(trim_start(s)[0]),
        trim_start(s).len() > 0 ==> trim_start(s).last() == s.last(),
    decreases s.len(),
{
    if s.len() > 0 && is_ws(s[0]) {
        lemma_trim_start_first(s.drop_first());
    }
}

proof fn lemma_trim_end_last(u: Seq<char>)
    ensures
        trim_end(u).len() > 0 ==> !is_ws(trim_end(u).last()),
        trim_end(u).len() > 0 ==> trim_end(u)[0] == u[0],
    decreases u.len(),
{
    if u.len() > 0 && is_ws(u.last()) {
        lemma_trim_end_last(u.drop_last());
        if trim_end(u).len() > 0 {
            assert(u.drop_last()[0] == u[0]);
        }
    }
}

/// Lemma: trimming a trimmed text changes nothing.
pub proof fn lemma_trim_idempotent(s: Seq<char>)
    ensures
        trim(trim(s)) == trim(s),
{
    let u = trim_start(s);
    let t = trim_end(u);
    lemma_trim_start_first(s);
    lemma_trim_end_last(u);
    assert(trim_start(t) == t);
    assert(trim_end(t) == t);
}

proof fn lemma_dedup_props(s: Seq<Seq<char>>)
    ensures
        forall|i: int| 0 <= i < dedup_nonempty(s).len() ==> (#[trigger] dedup_nonempty(s)[i]).len() > 0,
        forall|i: int| 0 <= i < dedup_nonempty(s).len() ==> s.contains(#[trigger] dedup_nonempty(s)[i]),
        dedup_nonempty(s).no_duplicates(),
    decreases s.len(),
{
    if s.len() > 0 {
        let p = s.drop_last();
        lemma_dedup_props(p);
        let d = dedup_nonempty(p);
        assert forall|i: int| 0 <= i < dedup_nonempty(s).len() implies s.contains(#[trigger] dedup_nonempty(s)[i]) by {
            if i < d.len() {
                assert(dedup_nonempty(s)[i] == d[i]);
                assert(p.contains(d[i]));
                let j = choose|j: int| 0 <= j < p.len() && p[j] == d[i];
                assert(s[j] == d[i]);
            } else {
                assert(s[s.len() - 1] == s.last());
            }
        }
    }
}

proof fn lemma_dedup_fixed(s: Seq<Seq<char>>)
    requires
        forall|i: int| 0 <= i < s.len() ==> (#[trigger] s[i]).len() > 0,
        s.no_duplicates(),
    ensures
        dedup_nonempty(s) == s,
    decreases s.len(),
{
    if s.len() > 0 {
        let p = s.drop_last();
        assert forall|i: int| 0 <= i < p.len() implies (#[trigger] p[i]).len() > 0 by {
            assert(p[i] == s[i]);
        }
        assert(p.no_duplicates()) by {
            assert forall|i: int, j: int| 0 <= i < p.len() && 0 <= j < p.len() && i != j implies p[i] != p[j] by {
                assert(p[i] == s[i] && p[j] == s[j]);
            }
        }
        lemma_dedup_fixed(p);
        assert(!p.contains(s.last())) by {
            if p.contains(s.last()) {
                let j = choose|j: int| 0 <= j < p.len() && p[j] == s.last();
                assert(s[j] == s[s.len() - 1]);
            }
        }
        assert(s.last() == s[s.len() - 1]);
        assert(p.push(s.last()) =~= s);
    }
}

/// Lemma: normalizing a type's options twice gives the options of one normalization.
pub proof fn lemma_options_idempotent(o: Seq<Seq<char>>)
    ensures
        dedup_nonempty(trim_all(dedup_nonempty(trim_all(o)))) == dedup_nonempty(trim_all(o)),
{
    let d = dedup_nonempty(trim_all(o));
    lemma_dedup_props(trim_all(o));
    assert(trim_all(d) =~= d) by {
        assert forall|i: int| 0 <= i < d.len() implies #[trigger] trim_all(d)[i] == d[i] by {
            assert(trim_all(o).contains(d[i]));
            let j = choose|j: int| 0 <= j < trim_all(o).len() && trim_all(o)[j] == d[i];
            lemma_trim_idempotent(o[j]);
        }
    }
    lemma_dedup_fixed(d);
}

/// Law: a type that normalizes to a non-empty key is a fixed point of normalization
/// once normalized: normalizing it again changes nothing.
pub proof fn law_normalized_type_idempotent(x: CustomTypeView)
    requires
        normalized_custom_type(x).key.len() > 0,
    ensures
        normalized_custom_type(normalized_custom_type(x)) == normalized_custom_type(x),
{
    let t = normalized_custom_type(x);
    lemma_trim_idempotent(x.name);
    let raw = if trim(x.key).len() == 0 {
        trim(x.name)
    } else {
        x.key
    };
    lemma_normalized_key_shaped(raw);
    crate::text::lemma_trim_start_skip(t.key, 0);
    assert(t.key.skip(0) =~= t.key);
    crate::text::lemma_trim_end_take(t.key, t.key.len() as int);
    assert(t.key.take(t.key.len() as int) =~= t.key);
    assert(trim(t.key) == t.key);
    law_normalized_key_idempotent(raw);
    lemma_options_idempotent(x.options);
}

/// Whether a list of custom types is as saving leaves it: each type normalized with
/// a non-empty key and name.
pub open spec fn in_saved_form(items: Seq<CustomTypeView>) -> bool {
    forall|i: int|
        0 <= i < items.len() ==> {
            let x = #[trigger] items[i];
            &&& normalized_custom_type(x) == x
            &&& x.key.len() > 0
            &&& x.name.len() > 0
        }
}

/// What loading makes of a stored list of custom types (see `loaded_custom_types`).
pub open spec fn load_view(items: Seq<CustomTypeView>) -> Seq<CustomTypeView> {
    isort(normalized_named(items), name_lt())
}

proof fn lemma_normalized_named_fixed(items: Seq<CustomTypeView>)
    requires
        in_saved_form(items),
    ensures
        normalized_named(items) == items,
    decreases items.len(),
{
    if items.len() > 0 {
        let p = items.drop_last();
        assert(in_saved_form(p)) by {
            assert forall|i: int| 0 <= i < p.len() implies {
                let x = #[trigger] p[i];
                &&& normalized_custom_type(x) == x
                &&& x.key.len() > 0
                &&& x.name.len() > 0
            } by {
                assert(p[i] == items[i]);
            }
        }
        lemma_normalized_named_fixed(p);
        assert(items.last() == items[items.len() - 1]);
        assert(p.push(items.last()) =~= items);
    }
}

proof fn lemma_isort_of_sorted<T>(s: Seq<T>, lt: spec_fn(T, T) -> bool)
    requires
        forall|i: int, j: int| 0 <= i < j < s.len() ==> !lt(#[trigger] s[j], #[trigger] s[i]),
    ensures
        isort(s, lt) == s,
    decreases s.len(),
{
    if s.len() > 0 {
        let p = s.drop_last();
        assert forall|i: int, j: int| 0 <= i < j < p.len() implies !lt(#[trigger] p[j], #[trigger] p[i]) by {
            assert(p[i] == s[i] && p[j] == s[j]);
        }
        lemma_isort_of_sorted(p, lt);
        let x = s.last();
        assert forall|j: int| 0 <= j < p.len() implies !lt(x, #[trigger] p[j]) by {
            assert(x == s[s.len() - 1]);
            assert(p[j] == s[j]);
        }
        crate::sort::lemma_insert_pos_first(p, x, lt, p.len() as int);
        assert(p.insert(p.len() as int, x) =~= s);
    }
}

/// Law: what saving a custom type writes, loading reads back unchanged: from a list in
/// saved form, saving a normalized type with a non-empty key and name gives a list that
/// loading (normalizing, dropping the nameless and keyless, sorting) leaves as it is.
pub proof fn law_saved_types_load_back(items: Seq<CustomTypeView>, t: CustomTypeView)
    requires
        in_saved_form(items),
        keys_unique(items),
        normalized_custom_type(t) == t,
        t.key.len() > 0,
        t.name.len() > 0,
    ensures
        in_saved_form(upserted(items, t)),
        load_view(upserted(items, t)) == upserted(items, t),
{
    let l = upserted(items, t);
    law_upsert_contents(items, t);
    assert(in_saved_form(l)) by {
        assert forall|i: int| 0 <= i < l.len() implies {
            let x = #[trigger] l[i];
            &&& normalized_custom_type(x) == x
            &&& x.key.len() > 0
            &&& x.name.len() > 0
        } by {
            assert(l.contains(l[i]));
            if l[i] != t {
                assert(items.contains(l[i]));
                let j = choose|j: int| 0 <= j < items.len() && items[j] == l[i];
                assert(items[j] == l[i]);
            }
        }
    }
    lemma_normalized_named_fixed(l);
    let updated = if has_key(items, t.key) {
        items.update(first_with_key(items, t.key), t)
    } else {
        items.push(t)
    };
    law_custom_types_sorted(updated);
    assert forall|i: int, j: int| 0 <= i < j < l.len() implies !(name_lt())(#[trigger] l[j], #[trigger] l[i]) by {
        assert(!seq_lt(lowercase(l[j].name), lowercase(l[i].name)));
    }
    lemma_isort_of_sorted(l, name_lt());
}

/// The text of a run with the ranges of the first `k` plans replaced by their inserts,
/// up to the end of the `k`-th plan, and that end.
pub open spec fn spliced_upto(text: Seq<char>, plans: Seq<PlanView>, k: int) -> (Seq<char>, int)
    decreases k,
{
    if k <= 0 {
        (Seq::empty(), 0)
    } else {
        let prev = spliced_upto(text, plans, k - 1);
        let p = plans[k - 1];
        (prev.0 + text.subrange(prev.1, p.start_char_in_run) + p.insert, p.end_char_in_run)
    }
}

/// The text of a run with the ranges of all plans replaced by their inserts.
pub open spec fn spliced(text: Seq<char>, plans: Seq<PlanView>) -> Seq<char> {
    let f = spliced_upto(text, plans, plans.len() as int);
    f.0 + text.skip(f.1)
}

/// Whether the plans all lie in run `run`, in order and without overlapping, within
/// its text.
pub open spec fn plans_within_run(plans: Seq<PlanView>, run: int, text: Seq<char>) -> bool {
    &&& forall|i: int| 0 <= i < plans.len() ==> {
        let p = #[trigger] plans[i];
        &&& p.start_run_idx == run
        &&& p.end_run_idx == run
        &&& 0 <= p.start_char_in_run <= p.end_char_in_run <= text.len()
    }
    &&& forall|i: int| 0 < i < plans.len() ==> plans[i - 1].end_char_in_run <= (#[trigger] plans[i]).start_char_in_run
}

proof fn lemma_cut_within_run(plans: Seq<PlanView>, run: int, text: Seq<char>, k: int)
    requires
        plans_within_run(plans, run, text),
        0 <= k <= plans.len(),
    ensures
        !cut_fold(plans.take(k), run, text).done,
        cut_fold(plans.take(k), run, text).cursor == spliced_upto(text, plans, k).1,
        concat(cut_fold(plans.take(k), run, text).pieces) == spliced_upto(text, plans, k).0,
        0 <= spliced_upto(text, plans, k).1 <= text.len(),
        k < plans.len() ==> spliced_upto(text, plans, k).1 <= plans[k].start_char_in_run,
    decreases k,
{
    if k == 0 {
        assert(plans.take(0) =~= Seq::<PlanView>::empty());
        assert(concat(Seq::<Seq<char>>::empty()) =~= Seq::<char>::empty());
        if plans.len() > 0 {
            assert(0 <= plans[0].start_char_in_run);
        }
    } else {
        lemma_cut_within_run(plans, run, text, k - 1);
        let pk = plans.take(k);
        assert(pk.drop_last() =~= plans.take(k - 1));
        assert(pk.last() == plans[k - 1]);
        let st = cut_fold(plans.take(k - 1), run, text);
        let p = plans[k - 1];
        let n = text.len() as int;
        assert(crate::plan::min_int(p.start_char_in_run, n) == p.start_char_in_run);
        assert(crate::plan::min_int(p.end_char_in_run, n) == p.end_char_in_run);
        let next = cut_fold(pk, run, text);
        assert(next == crate::plan::cut_step(st, p, run, text));
        let prev = spliced_upto(text, plans, k - 1);
        if p.start_char_in_run > st.cursor {
            let kept = text.subrange(st.cursor, p.start_char_in_run);
            assert(next.pieces =~= st.pieces.push(kept).push(p.insert));
            assert(next.pieces.drop_last() =~= st.pieces.push(kept));
            assert(st.pieces.push(kept).drop_last() =~= st.pieces);
            assert(concat(st.pieces.push(kept)) == concat(st.pieces) + kept);
            assert(concat(next.pieces) == concat(st.pieces.push(kept)) + p.insert);
        } else {
            assert(next.pieces =~= st.pieces.push(p.insert));
            assert(next.pieces.drop_last() =~= st.pieces);
            assert(text.subrange(prev.1, p.start_char_in_run) =~= Seq::<char>::empty());
            assert(concat(next.pieces) == concat(st.pieces) + p.insert);
        }
        assert(concat(next.pieces) =~= spliced_upto(text, plans, k).0);
        if k < plans.len() {
            assert(plans[k - 1].end_char_in_run <= plans[k].start_char_in_run);
        }
    }
}

/// Law: plans that lie in one run, in order and without overlapping, replace exactly
/// their ranges there: the run's new text is its text with each plan's range replaced
/// by the plan's insert, and the rest kept.
pub proof fn law_plans_in_one_run(plans: Seq<PlanView>, run: int, text: Seq<char>)
    requires
        plans_within_run(plans, run, text),
    ensures
        concat(run_pieces(plans, run, text)) == spliced(text, plans),
{
    lemma_cut_within_run(plans, run, text, plans.len() as int);
    assert(plans.take(plans.len() as int) =~= plans);
    let st = cut_fold(plans, run, text);
    let all = if st.cursor < text.len() {
        st.pieces.push(text.skip(st.cursor))
    } else {
        st.pieces
    };
    lemma_concat_non_empty(all);
    if st.cursor < text.len() {
        assert(all.drop_last() =~= st.pieces);
    } else {
        assert(text.skip(st.cursor) =~= Seq::<char>::empty());
    }
}


proof fn lemma_without_key_sub(items: Seq<CustomTypeView>, key: Seq<char>)
    requires
        forall|i: int, j: int| 0 <= i < j < items.len() ==> !(name_lt())(#[trigger] items[j], #[trigger] items[i]),
    ensures
        forall|i: int| 0 <= i < without_key(items, key).len() ==> items.contains(#[trigger] without_key(items, key)[i]),
        forall|i: int, j: int|
            0 <= i < j < without_key(items, key).len() ==> !(name_lt())(
                #[trigger] without_key(items, key)[j],
                #[trigger] without_key(items, key)[i],
            ),
    decreases items.len(),
{
    if items.len() > 0 {
        let p = items.drop_last();
        assert forall|i: int, j: int| 0 <= i < j < p.len() implies !(name_lt())(#[trigger] p[j], #[trigger] p[i]) by {
            assert(p[i] == items[i] && p[j] == items[j]);
        }
        lemma_without_key_sub(p, key);
        let prev = without_key(p, key);
        let w = without_key(items, key);
        let last = items.last();
        assert forall|i: int| 0 <= i < prev.len() implies items.contains(#[trigger] prev[i]) by {
            assert(p.contains(prev[i]));
            let j = choose|j: int| 0 <= j < p.len() && p[j] == prev[i];
            assert(items[j] == prev[i]);
        }
        if last.key != key {
            assert(w == prev.push(last));
            assert forall|i: int| 0 <= i < w.len() implies items.contains(#[trigger] w[i]) by {
                if i < prev.len() {
                    assert(w[i] == prev[i]);
                } else {
                    assert(items[items.len() - 1] == w[i]);
                }
            }
            assert forall|i: int, j: int| 0 <= i < j < w.len() implies !(name_lt())(#[trigger] w[j], #[trigger] w[i]) by {
                assert(w[i] == prev[i]);
                if j < prev.len() {
                    assert(w[j] == prev[j]);
                } else {
                    assert(p.contains(prev[i]));
                    let a = choose|a: int| 0 <= a < p.len() && p[a] == prev[i];
                    assert(items[a] == prev[i]);
                    assert(w[j] == items[items.len() - 1]);
                }
            }
        } else {
            assert(w == prev);
        }
    }
}

/// Law: deleting from a list as loading gives it (in saved form, in name order) leaves
/// a list that loading gives back unchanged.
pub proof fn law_deleted_types_load_back(items: Seq<CustomTypeView>, key: Seq<char>)
    requires
        in_saved_form(items),
        forall|i: int, j: int| 0 <= i < j < items.len() ==> !(name_lt())(#[trigger] items[j], #[trigger] items[i]),
    ensures
        in_saved_form(without_key(items, key)),
        load_view(without_key(items, key)) == without_key(items, key),
{
    let w = without_key(items, key);
    lemma_without_key_sub(items, key);
    assert forall|i: int| 0 <= i < w.len() implies {
        let x = #[trigger] w[i];
        &&& normalized_custom_type(x) == x
        &&& x.key.len() > 0
        &&& x.name.len() > 0
    } by {
        assert(items.contains(w[i]));
        let j = choose|j: int| 0 <= j < items.len() && items[j] == w[i];
        assert(items[j] == w[i]);
    }
    lemma_normalized_named_fixed(w);
    lemma_isort_of_sorted(w, name_lt());
}


/// The characters of a text that are not key separators, in order.
pub open spec fn key_letters(s: Seq<char>) -> Seq<char>
    decreases s.len(),
{
    if s.len() == 0 {
        s
    } else if is_key_separator(s.last()) {
        key_letters(s.drop_last())
    } else {
        key_letters(s.drop_last()).push(s.last())
    }
}

proof fn lemma_key_letters_add(a: Seq<char>, b: Seq<char>)
    ensures
        key_letters(a + b) == key_letters(a) + key_letters(b),
    decreases b.len(),
{
    if b.len() == 0 {
        assert(a + b =~= a);
        assert(key_letters(a) + key_letters(b) =~= key_letters(a));
    } else {
        lemma_key_letters_add(a, b.drop_last());
        assert((a + b).drop_last() =~= a + b.drop_last());
        assert((a + b).last() == b.last());
        if !is_key_separator(b.last()) {
            assert(key_letters(a) + key_letters(b.drop_last()).push(b.last()) =~= (key_letters(a) + key_letters(
                b.drop_last(),
            )).push(b.last()));
        }
    }
}

proof fn lemma_key_letters_drop_first(s: Seq<char>)
    requires
        s.len() > 0,
        is_key_separator(s[0]),
    ensures
        key_letters(s) == key_letters(s.drop_first()),
{
    assert(s =~= seq![s[0]] + s.drop_first());
    lemma_key_letters_add(seq![s[0]], s.drop_first());
    let one = seq![s[0]];
    assert(one.drop_last() =~= Seq::<char>::empty());
    assert(one.last() == s[0]);
    assert(key_letters(one.drop_last()) =~= Seq::<char>::empty());
    assert(key_letters(one) == key_letters(one.drop_last()));
    assert(Seq::<char>::empty() + key_letters(s.drop_first()) =~= key_letters(s.drop_first()));
}

proof fn lemma_key_letters_trim_start(s: Seq<char>)
    ensures
        key_letters(trim_start(s)) == key_letters(s),
    decreases s.len(),
{
    if s.len() > 0 && is_ws(s[0]) {
        lemma_key_letters_drop_first(s);
        lemma_key_letters_trim_start(s.drop_first());
    }
}

proof fn lemma_key_letters_trim_end(s: Seq<char>)
    ensures
        key_letters(trim_end(s)) == key_letters(s),
    decreases s.len(),
{
    if s.len() > 0 && is_ws(s.last()) {
        lemma_key_letters_trim_end(s.drop_last());
    }
}

proof fn lemma_key_letters_collapse(s: Seq<char>)
    ensures
        key_letters(collapse_separators(s)) == key_letters(s),
    decreases s.len(),
{
    if s.len() > 0 {
        lemma_key_letters_collapse(s.drop_last());
        let c = collapse_separators(s.drop_last());
        if is_key_separator(s.last()) {
            if !(s.len() >= 2 && is_key_separator(s[s.len() - 2])) {
                assert(c.push('_').drop_last() =~= c);
                assert(key_letters(c.push('_')) == key_letters(c));
            }
        } else {
            assert(c.push(s.last()).drop_last() =~= c);
        }
    }
}

proof fn lemma_key_letters_strip_start(s: Seq<char>)
    ensures
        key_letters(strip_start_underscores(s)) == key_letters(s),
    decreases s.len(),
{
    if s.len() > 0 && s[0] == '_' {
        lemma_key_letters_drop_first(s);
        lemma_key_letters_strip_start(s.drop_first());
    }
}

proof fn lemma_key_letters_strip_end(s: Seq<char>)
    ensures
        key_letters(strip_end_underscores(s)) == key_letters(s),
    decreases s.len(),
{
    if s.len() > 0 && s.last() == '_' {
        lemma_key_letters_strip_end(s.drop_last());
    }
}

/// Law: normalizing a key keeps every character that is not a separator, in order:
/// only separators (white space, `:`, `{`, `}`, `,`, `;`, quotes and `_`) are dropped
/// or merged.
pub proof fn law_key_keeps_letters(raw: Seq<char>)
    ensures
        key_letters(normalized_key(raw)) == key_letters(raw),
{
    let t = trim(raw);
    lemma_key_letters_trim_start(raw);
    lemma_key_letters_trim_end(trim_start(raw));
    let c = collapse_separators(t);
    lemma_key_letters_collapse(t);
    lemma_key_letters_strip_start(c);
    lemma_key_letters_strip_end(strip_start_underscores(c));
}


/// Whether `pat` occurs somewhere in `s`.
pub open spec fn occurs_in(pat: Seq<char>, s: Seq<char>) -> bool {
    exists|i: int| 0 <= i && i + pat.len() <= s.len() && #[trigger] s.subrange(i, i + pat.len()) == pat
}

proof fn lemma_js_scheme_shape()
    ensures
        js_scheme().len() == 11,
        js_scheme()[0] == 'j',
        forall|k: int| 1 <= k < 11 ==> #[trigger] js_scheme()[k] != '&',
        js_scheme_escaped().len() == 58,
        forall|k: int| 0 <= k < 58 ==> #[trigger] js_scheme_escaped()[k] != 'j',
        js_scheme_escaped()[0] == '&',
{
}

/// What `replace_all` keeps before the first `&` it writes is the text as it was.
proof fn lemma_replace_prefix(x: Seq<char>, n: int)
    requires
        0 <= n <= replace_all(x, js_scheme(), js_scheme_escaped()).len(),
        forall|k: int| 0 <= k < n ==> #[trigger] replace_all(x, js_scheme(), js_scheme_escaped())[k] != '&',
    ensures
        n <= x.len(),
        replace_all(x, js_scheme(), js_scheme_escaped()).take(n) == x.take(n),
    decreases x.len(),
{
    let pat = js_scheme();
    let rep = js_scheme_escaped();
    let u = replace_all(x, pat, rep);
    lemma_js_scheme_shape();
    if x.len() < pat.len() {
    } else if x.take(pat.len() as int) == pat {
        if n > 0 {
            assert(u[0] == rep[0]);
        }
        assert(u.take(n) =~= x.take(n));
    } else if n > 0 {
        let u1 = replace_all(x.skip(1), pat, rep);
        assert(u == seq![x[0]] + u1);
        assert forall|k: int| 0 <= k < n - 1 implies #[trigger] u1[k] != '&' by {
            assert(u[k + 1] == u1[k]);
        }
        lemma_replace_prefix(x.skip(1), n - 1);
        assert(u.take(n) =~= seq![x[0]] + u1.take(n - 1));
        assert(x.take(n) =~= seq![x[0]] + x.skip(1).take(n - 1));
    } else {
        assert(u.take(n) =~= x.take(n));
    }
}

proof fn lemma_replace_leaves_no_scheme(x: Seq<char>)
    ensures
        !occurs_in(js_scheme(), replace_all(x, js_scheme(), js_scheme_escaped())),
    decreases x.len(),
{
    let pat = js_scheme();
    let rep = js_scheme_escaped();
    let u = replace_all(x, pat, rep);
    lemma_js_scheme_shape();
    if x.len() < pat.len() {
    } else if x.take(pat.len() as int) == pat {
        let u1 = replace_all(x.skip(pat.len() as int), pat, rep);
        lemma_replace_leaves_no_scheme(x.skip(pat.len() as int));
        assert(u == rep + u1);
        assert forall|i: int| 0 <= i && i + pat.len() <= u.len() implies #[trigger] u.subrange(i, i + pat.len()) != pat by {
            if i < rep.len() {
                assert(u.subrange(i, i + pat.len())[0] == rep[i]);
            } else {
                assert(u.subrange(i, i + pat.len()) =~= u1.subrange(i - rep.len(), i - rep.len() + pat.len()));
            }
        }
    } else {
        let u1 = replace_all(x.skip(1), pat, rep);
        lemma_replace_leaves_no_scheme(x.skip(1));
        assert(u == seq![x[0]] + u1);
        assert forall|i: int| 0 <= i && i + pat.len() <= u.len() implies #[trigger] u.subrange(i, i + pat.len()) != pat by {
            if i > 0 {
                assert(u.subrange(i, i + pat.len()) =~= u1.subrange(i - 1, i - 1 + pat.len()));
            } else if u.subrange(0, pat.len() as int) == pat {
                assert forall|k: int| 0 <= k < 10 implies #[trigger] u1[k] != '&' by {
                    assert(u1[k] == u.subrange(0, pat.len() as int)[k + 1]);
                }
                lemma_replace_prefix(x.skip(1), 10);
                assert(x.take(pat.len() as int) =~= seq![x[0]] + x.skip(1).take(10));
                assert(u.subrange(0, pat.len() as int) =~= seq![x[0]] + u1.take(10));
            }
        }
    }
}

/// Law: the preview's escaping leaves no `javascript:` in the text it writes.
pub proof fn law_escaped_text_has_no_script_scheme(s: Seq<char>)
    ensures
        !occurs_in(js_scheme(), escape_html_spec(s)),
{
    lemma_replace_leaves_no_scheme(escape_chars(s));
}


/// The elements of `s` that the order `lt` puts level with `a` (neither less nor
/// greater), in order.
pub open spec fn level_with<T>(s: Seq<T>, a: T, lt: spec_fn(T, T) -> bool) -> Seq<T>
    decreases s.len(),
{
    if s.len() == 0 {
        s
    } else if !lt(s.last(), a) && !lt(a, s.last()) {
        level_with(s.drop_last(), a, lt).push(s.last())
    } else {
        level_with(s.drop_last(), a, lt)
    }
}

proof fn lemma_level_with_add<T>(x: Seq<T>, y: Seq<T>, a: T, lt: spec_fn(T, T) -> bool)
    ensures
        level_with(x + y, a, lt) == level_with(x, a, lt) + level_with(y, a, lt),
    decreases y.len(),
{
    if y.len() == 0 {
        assert(x + y =~= x);
        assert(level_with(x, a, lt) + level_with(y, a, lt) =~= level_with(x, a, lt));
    } else {
        lemma_level_with_add(x, y.drop_last(), a, lt);
        assert((x + y).drop_last() =~= x + y.drop_last());
        assert((x + y).last() == y.last());
        assert((level_with(x, a, lt) + level_with(y.drop_last(), a, lt)).push(y.last())
            =~= level_with(x, a, lt) + level_with(y.drop_last(), a, lt).push(y.last()));
    }
}

proof fn lemma_level_with_none<T>(s: Seq<T>, a: T, lt: spec_fn(T, T) -> bool)
    requires
        forall|j: int| 0 <= j < s.len() ==> lt(#[trigger] s[j], a) || lt(a, s[j]),
    ensures
        level_with(s, a, lt) == Seq::<T>::empty(),
    decreases s.len(),
{
    if s.len() > 0 {
        assert forall|j: int| 0 <= j < s.drop_last().len() implies lt(#[trigger] s.drop_last()[j], a) || lt(a, s.drop_last()[j]) by {
            assert(s.drop_last()[j] == s[j]);
        }
        lemma_level_with_none(s.drop_last(), a, lt);
        assert(s.last() == s[s.len() - 1]);
    }
}

/// Law: the library's sorts are stable: for a strict weak order (irreflexive,
/// transitive, and with "not less" transitive), the elements level with any `a` come
/// out of `isort` in the order they went in.
pub proof fn law_sort_keeps_order_of_equals<T>(s: Seq<T>, a: T, lt: spec_fn(T, T) -> bool)
    requires
        forall|x: T| !#[trigger] lt(x, x),
        forall|x: T, y: T, z: T| #[trigger] lt(x, y) && #[trigger] lt(y, z) ==> lt(x, z),
        forall|x: T, y: T, z: T| !#[trigger] lt(x, y) && !#[trigger] lt(y, z) ==> !lt(x, z),
    ensures
        level_with(isort(s, lt), a, lt) == level_with(s, a, lt),
    decreases s.len(),
{
    if s.len() > 0 {
        let d = s.drop_last();
        let x = s.last();
        let p = isort(d, lt);
        law_sort_keeps_order_of_equals(d, a, lt);
        crate::sort::lemma_insert_pos(p, x, lt);
        lemma_isort_sorted(d, lt);
        let pos = insert_pos(p, x, lt);
        assert(isort(s, lt) == p.insert(pos, x));
        assert(p.insert(pos, x) =~= p.take(pos) + seq![x] + p.skip(pos));
        assert(p =~= p.take(pos) + p.skip(pos));
        lemma_level_with_add(p.take(pos) + seq![x], p.skip(pos), a, lt);
        lemma_level_with_add(p.take(pos), seq![x], a, lt);
        lemma_level_with_add(p.take(pos), p.skip(pos), a, lt);
        let one = seq![x];
        assert(one.drop_last() =~= Seq::<T>::empty());
        assert(one.last() == x);
        assert(level_with(one.drop_last(), a, lt) =~= Seq::<T>::empty());
        if !lt(x, a) && !lt(a, x) {
            assert forall|j: int| 0 <= j < p.skip(pos).len() implies lt(#[trigger] p.skip(pos)[j], a) || lt(
                a,
                p.skip(pos)[j],
            ) by {
                let e = p.skip(pos)[j];
                assert(e == p[pos + j]);
                assert(lt(x, p[pos]));
                if j > 0 {
                    assert(!lt(p[pos + j], p[pos]));
                }
                if !lt(e, a) && !lt(a, e) {
                    assert(!lt(x, e));
                    assert(!lt(x, p[pos]));
                }
            }
            lemma_level_with_none(p.skip(pos), a, lt);
            assert(level_with(one, a, lt) =~= seq![x]);
            assert(level_with(p.take(pos), a, lt) + seq![x] + Seq::<T>::empty() =~= level_with(p.take(pos), a, lt).push(x));
            assert(level_with(p, a, lt) == level_with(p.take(pos), a, lt) + Seq::<T>::empty());
            assert(level_with(p.take(pos), a, lt) + Seq::<T>::empty() =~= level_with(p.take(pos), a, lt));
        } else {
            assert(level_with(one, a, lt) =~= Seq::<T>::empty());
            assert(level_with(p.take(pos), a, lt) + Seq::<T>::empty() =~= level_with(p.take(pos), a, lt));
        }
    }
}


/// The new text of run `r` (text `text`) under the plans: a run without text, or one
/// that no plan covers, keeps its text; else the texts of its pieces, in order.
pub open spec fn new_run_text(plans: Seq<PlanView>, r: int, text: Seq<char>) -> Seq<char> {
    if text.len() == 0 || !touches_run(plans, r) {
        text
    } else {
        concat(run_pieces(plans, r, text))
    }
}

/// The new texts of the first `m` runs (texts `texts`), concatenated.
pub open spec fn new_runs_text(plans: Seq<PlanView>, texts: Seq<Seq<char>>, m: int) -> Seq<char>
    decreases m,
{
    if m <= 0 || m > texts.len() {
        Seq::empty()
    } else {
        new_runs_text(plans, texts, m - 1) + new_run_text(plans, m - 1, texts[m - 1])
    }
}

/// Whether plan `p` starts in one run and ends in a later one, inside the texts.
pub open spec fn spans_runs(p: PlanView, texts: Seq<Seq<char>>) -> bool {
    &&& 0 <= p.start_run_idx < p.end_run_idx < texts.len()
    &&& 0 <= p.start_char_in_run < texts[p.start_run_idx as int].len()
    &&& 0 <= p.end_char_in_run <= texts[p.end_run_idx as int].len()
}

proof fn lemma_concat_take(texts: Seq<Seq<char>>, m: int)
    requires
        0 < m <= texts.len(),
    ensures
        concat(texts.take(m)) == concat(texts.take(m - 1)) + texts[m - 1],
{
    assert(texts.take(m).drop_last() =~= texts.take(m - 1));
}

proof fn lemma_concat_subrange(texts: Seq<Seq<char>>, a: int, m: int)
    requires
        0 <= a < m <= texts.len(),
    ensures
        concat(texts.subrange(a, m)) == concat(texts.subrange(a, m - 1)) + texts[m - 1],
{
    assert(texts.subrange(a, m).drop_last() =~= texts.subrange(a, m - 1));
}

proof fn lemma_concat_pair(a: Seq<char>, b: Seq<char>)
    ensures
        concat(seq![a, b]) == a + b,
        concat(seq![b]) == b,
{
    let sab = seq![a, b];
    let sa = seq![a];
    let sb = seq![b];
    assert(sab.drop_last() =~= sa);
    assert(sab.last() == b);
    assert(sa.drop_last() =~= Seq::<Seq<char>>::empty());
    assert(sa.last() == a);
    assert(sb.drop_last() =~= Seq::<Seq<char>>::empty());
    assert(sb.last() == b);
    assert(concat(Seq::<Seq<char>>::empty()) == Seq::<char>::empty());
    assert(concat(sa) == concat(sa.drop_last()) + a);
    assert(concat(sa) =~= a);
    assert(concat(sb) == concat(sb.drop_last()) + b);
    assert(concat(sb) =~= b);
    assert(concat(sab) == concat(sab.drop_last()) + b);
}

proof fn lemma_span_run_texts(p: PlanView, texts: Seq<Seq<char>>, r: int)
    requires
        spans_runs(p, texts),
        0 <= r < texts.len(),
    ensures
        new_run_text(seq![p], r, texts[r]) == if r < p.start_run_idx || r > p.end_run_idx {
            texts[r]
        } else if r == p.start_run_idx {
            texts[r].take(p.start_char_in_run as int) + p.insert
        } else if r < p.end_run_idx {
            Seq::<char>::empty()
        } else {
            texts[r].skip(p.end_char_in_run as int)
        },
{
    let plans = seq![p];
    let t = texts[r];
    let n = t.len() as int;
    assert(plans.drop_last() =~= Seq::<PlanView>::empty());
    assert(plans.last() == p);
    let st0 = CutState { pieces: Seq::empty(), cursor: 0, done: false };
    assert(cut_fold(Seq::<PlanView>::empty(), r, t) == st0);
    assert(cut_fold(plans.drop_last(), r, t) == st0);
    assert(cut_fold(plans, r, t) == cut_step(st0, p, r, t));
    if r < p.start_run_idx || r > p.end_run_idx {
        assert(!touches_run(plans, r));
    } else {
        assert(touches_run(plans, r)) by {
            assert(plans[0] == p);
        }
        let st = cut_fold(plans, r, t);
        if r == p.start_run_idx {
            let kept = if p.start_char_in_run > 0 {
                seq![t.subrange(0, min_int(p.start_char_in_run, n))]
            } else {
                Seq::empty()
            };
            assert(st.pieces == Seq::<Seq<char>>::empty() + kept + seq![p.insert]);
            assert(st.cursor == n);
            lemma_concat_non_empty(st.pieces);
            if p.start_char_in_run > 0 {
                assert(st.pieces =~= seq![t.take(p.start_char_in_run as int), p.insert]);
                lemma_concat_pair(t.take(p.start_char_in_run as int), p.insert);
            } else {
                assert(st.pieces =~= seq![p.insert]);
                lemma_concat_pair(t, p.insert);
                assert(t.take(0) + p.insert =~= p.insert);
            }
        } else if r < p.end_run_idx {
            assert(st.pieces == Seq::<Seq<char>>::empty());
            assert(st.cursor == n);
            assert(non_empty(Seq::<Seq<char>>::empty()) =~= Seq::<Seq<char>>::empty());
        } else {
            assert(st.pieces == Seq::<Seq<char>>::empty());
            assert(st.cursor == p.end_char_in_run);
            let all = if st.cursor < n {
                st.pieces.push(t.skip(st.cursor))
            } else {
                st.pieces
            };
            lemma_concat_non_empty(all);
            if st.cursor < n {
                assert(all =~= seq![t.skip(st.cursor)]);
                lemma_concat_pair(t, t.skip(st.cursor));
            } else {
                assert(t.skip(st.cursor) =~= Seq::<char>::empty());
                assert(concat(all) =~= Seq::<char>::empty());
            }
        }
    }
}

/// Law: a replacement that starts in one run and ends in a later one replaces exactly
/// its range of the paragraph's text: the runs before it keep their text, the first run
/// keeps its text up to the range and takes the insert, the runs inside the range lose
/// their text, the last run keeps its text after the range, and the runs after it keep
/// theirs.
pub proof fn law_plan_across_runs(p: PlanView, texts: Seq<Seq<char>>)
    requires
        spans_runs(p, texts),
    ensures
        new_runs_text(seq![p], texts, texts.len() as int) == concat(texts.take(p.start_run_idx as int))
            + texts[p.start_run_idx as int].take(p.start_char_in_run as int) + p.insert
            + texts[p.end_run_idx as int].skip(p.end_char_in_run as int) + concat(
            texts.subrange(p.end_run_idx + 1, texts.len() as int),
        ),
{
    lemma_new_runs_text(p, texts, texts.len() as int);
}

proof fn lemma_new_runs_text(p: PlanView, texts: Seq<Seq<char>>, m: int)
    requires
        spans_runs(p, texts),
        0 <= m <= texts.len(),
    ensures
        new_runs_text(seq![p], texts, m) == if m <= p.start_run_idx {
            concat(texts.take(m))
        } else if m <= p.end_run_idx {
            concat(texts.take(p.start_run_idx as int)) + texts[p.start_run_idx as int].take(p.start_char_in_run as int)
                + p.insert
        } else {
            concat(texts.take(p.start_run_idx as int)) + texts[p.start_run_idx as int].take(p.start_char_in_run as int)
                + p.insert + texts[p.end_run_idx as int].skip(p.end_char_in_run as int) + concat(
                texts.subrange(p.end_run_idx + 1, m),
            )
        },
    decreases m,
{
    let s = p.start_run_idx as int;
    let e = p.end_run_idx as int;
    if m == 0 {
        assert(texts.take(0) =~= Seq::<Seq<char>>::empty());
    } else {
        lemma_new_runs_text(p, texts, m - 1);
        lemma_span_run_texts(p, texts, m - 1);
        let prev = new_runs_text(seq![p], texts, m - 1);
        let pre = concat(texts.take(s)) + texts[s].take(p.start_char_in_run as int) + p.insert;
        if m <= s {
            lemma_concat_take(texts, m);
        } else if m == s + 1 {
            assert(prev == concat(texts.take(s)));
        } else if m <= e {
            assert(prev + Seq::<char>::empty() =~= prev);
        } else if m == e + 1 {
            assert(texts.subrange(e + 1, m) =~= Seq::<Seq<char>>::empty());
            assert(prev == pre);
            assert(pre + texts[e].skip(p.end_char_in_run as int) + Seq::<char>::empty() =~= pre + texts[e].skip(
                p.end_char_in_run as int,
            ));
        } else {
            lemma_concat_subrange(texts, e + 1, m);
            let tail = texts[e].skip(p.end_char_in_run as int);
            assert(pre + tail + concat(texts.subrange(e + 1, m - 1)) + texts[m - 1] =~= pre + tail + (concat(
                texts.subrange(e + 1, m - 1),
            ) + texts[m - 1]));
        }
    }
}


/// Reads the five entities of `html_entity` back as their characters; every other
/// character stands for itself.
pub open spec fn unescape_entities(s: Seq<char>) -> Seq<char>
    decreases s.len(),
{
    if s.len() == 0 {
        s
    } else if s.len() >= 5 && s.take(5) == html_entity('&') {
        seq!['&'] + unescape_entities(s.skip(5))
    } else if s.len() >= 4 && s.take(4) == html_entity('<') {
        seq!['<'] + unescape_entities(s.skip(4))
    } else if s.len() >= 4 && s.take(4) == html_entity('>') {
        seq!['>'] + unescape_entities(s.skip(4))
    } else if s.len() >= 6 && s.take(6) == html_entity('"') {
        seq!['"'] + unescape_entities(s.skip(6))
    } else if s.len() >= 6 && s.take(6) == html_entity('\'') {
        seq!['\''] + unescape_entities(s.skip(6))
    } else {
        seq![s[0]] + unescape_entities(s.skip(1))
    }
}

proof fn lemma_escape_chars_prepend(c: char, s: Seq<char>)
    ensures
        escape_chars(seq![c] + s) == html_entity(c) + escape_chars(s),
    decreases s.len(),
{
    if s.len() == 0 {
        assert(seq![c] + s =~= seq![c]);
        assert(seq![c].drop_last() =~= Seq::<char>::empty());
        assert(escape_chars(seq![c]) == escape_chars(Seq::<char>::empty()) + html_entity(c));
        assert(escape_chars(Seq::<char>::empty()) + html_entity(c) =~= html_entity(c));
        assert(html_entity(c) + escape_chars(s) =~= html_entity(c));
    } else {
        lemma_escape_chars_prepend(c, s.drop_last());
        assert((seq![c] + s).drop_last() =~= seq![c] + s.drop_last());
        assert((seq![c] + s).last() == s.last());
        assert(html_entity(c) + escape_chars(s.drop_last()) + html_entity(s.last()) =~= html_entity(c) + (
        escape_chars(s.drop_last()) + html_entity(s.last())));
    }
}

/// Law: escaping loses nothing: reading the entities back gives the text.
pub proof fn law_unescape_after_escape(s: Seq<char>)
    ensures
        unescape_entities(escape_chars(s)) == s,
    decreases s.len(),
{
    if s.len() > 0 {
        let c = s[0];
        let rest = s.drop_first();
        assert(s =~= seq![c] + rest);
        lemma_escape_chars_prepend(c, rest);
        law_unescape_after_escape(rest);
        let e = escape_chars(rest);
        let h = html_entity(c);
        let x = h + e;
        assert(x.skip(h.len() as int) =~= e);
        if c == '&' || c == '<' || c == '>' || c == '"' || c == '\'' {
            assert(x.take(h.len() as int) =~= h);
            assert(x[0] == '&');
            assert(x[1] == h[1]);
            assert(unescape_entities(x) =~= seq![c] + unescape_entities(e));
        } else {
            assert(h =~= seq![c]);
            assert(x[0] == c);
            assert(c != '&');
            assert(x.len() >= 5 ==> x.take(5)[0] == c);
            assert(x.len() >= 4 ==> x.take(4)[0] == c);
            assert(x.len() >= 6 ==> x.take(6)[0] == c);
            assert(unescape_entities(x) =~= seq![c] + unescape_entities(e));
        }
    }
}


/// Law: two strictly ascending lists of texts that hold the same texts are the same
/// list; so the fields of a template (`build_placeholder_structs`) come one per body
/// that `get_placeholders_from_template` lists, in the same order.
pub proof fn law_ascending_lists_with_same_texts_agree(a: Seq<Seq<char>>, b: Seq<Seq<char>>)
    requires
        strictly_ascending(a),
        strictly_ascending(b),
        forall|x: Seq<char>| a.contains(x) <==> b.contains(x),
    ensures
        a == b,
    decreases a.len() + b.len(),
{
    if a.len() == 0 {
        if b.len() > 0 {
            assert(b.contains(b[0]));
        }
        assert(a =~= b);
    } else if b.len() == 0 {
        assert(a.contains(a[0]));
    } else {
        let x = a.last();
        let y = b.last();
        assert(a.contains(x));
        assert(b.contains(y));
        if x != y {
            let j = choose|j: int| 0 <= j < b.len() && b[j] == x;
            let i = choose|i: int| 0 <= i < a.len() && a[i] == y;
            assert(j < b.len() - 1);
            assert(i < a.len() - 1);
            assert(seq_lt(x, y));
            assert(seq_lt(y, x));
            lemma_seq_lt_transitive(x, y, x);
            lemma_seq_lt_irreflexive(x);
        }
        let a2 = a.drop_last();
        let b2 = b.drop_last();
        assert forall|z: Seq<char>| a2.contains(z) <==> b2.contains(z) by {
            if a2.contains(z) {
                let i = choose|i: int| 0 <= i < a2.len() && a2[i] == z;
                assert(a[i] == z);
                assert(seq_lt(z, x));
                lemma_seq_lt_irreflexive(z);
                assert(a.contains(z));
                let j = choose|j: int| 0 <= j < b.len() && b[j] == z;
                if j == b.len() - 1 {
                    assert(z == y);
                }
                assert(b2[j] == z);
            }
            if b2.contains(z) {
                let j = choose|j: int| 0 <= j < b2.len() && b2[j] == z;
                assert(b[j] == z);
                assert(seq_lt(z, y));
                lemma_seq_lt_irreflexive(z);
                assert(b.contains(z));
                let i = choose|i: int| 0 <= i < a.len() && a[i] == z;
                if i == a.len() - 1 {
                    assert(z == x);
                }
                assert(a2[i] == z);
            }
        }
        assert(strictly_ascending(a2));
        assert(strictly_ascending(b2));
        law_ascending_lists_with_same_texts_agree(a2, b2);
        assert(a =~= a2.push(x));
        assert(b =~= b2.push(y));
    }
}


/// The previews of the first `k` paragraphs of `ps`, the `j`-th numbered `idx + j`.
pub open spec fn numbered_paragraphs(t: XmlTree, ps: Seq<int>, k: int, idx: int) -> Seq<char>
    decreases k,
{
    if k <= 0 {
        Seq::empty()
    } else {
        numbered_paragraphs(t, ps, k - 1, idx) + paragraph_html(t, ps[k - 1], (idx + k - 1) as usize)
    }
}

/// Law: paragraphs previewed one after another get consecutive numbers: the `j`-th of
/// them is numbered `idx + j`, and numbering goes on at `idx + k` (while the numbers fit
/// in `usize`).
pub proof fn law_preview_numbers_paragraphs_in_order(t: XmlTree, ps: Seq<int>, k: int, idx: usize)
    requires
        0 <= k,
        idx + k <= usize::MAX,
    ensures
        paras_fold(t, ps, k, idx) == (numbered_paragraphs(t, ps, k, idx as int), (idx + k) as usize),
    decreases k,
{
    if k > 0 {
        law_preview_numbers_paragraphs_in_order(t, ps, k - 1, idx);
    }
}


proof fn lemma_fill_upto_has_plan(nodes: Seq<TextNode>, found: Seq<(int, int, Seq<char>)>, values: FieldValues, k: int, j: int)
    requires
        0 <= j < k <= found.len(),
        values.value_of(found[j].2) is Some,
        0 <= found[j].0 < found[j].1 <= full_text(nodes).len(),
    ensures
        fill_plans_upto(nodes, found, values, k).contains(
            plan_at(nodes, found[j].0, found[j].1, values.value_of(found[j].2)->0),
        ),
    decreases k,
{
    let prev = fill_plans_upto(nodes, found, values, k - 1);
    let x = plan_at(nodes, found[j].0, found[j].1, values.value_of(found[j].2)->0);
    if j < k - 1 {
        lemma_fill_upto_has_plan(nodes, found, values, k - 1, j);
        let i = choose|i: int| 0 <= i < prev.len() && prev[i] == x;
        match values.value_of(found[k - 1].2) {
            Some(v) => if 0 <= found[k - 1].0 < found[k - 1].1 <= full_text(nodes).len() {
                assert(prev.push(plan_at(nodes, found[k - 1].0, found[k - 1].1, v))[i] == x);
            },
            None => {},
        }
    } else {
        assert(fill_plans_upto(nodes, found, values, k) == prev.push(x));
        assert(prev.push(x)[prev.len() as int] == x);
    }
}

proof fn lemma_fill_upto_from_values(nodes: Seq<TextNode>, found: Seq<(int, int, Seq<char>)>, values: FieldValues, k: int)
    requires
        0 <= k <= found.len(),
    ensures
        forall|i: int| 0 <= i < fill_plans_upto(nodes, found, values, k).len() ==> exists|j: int|
            0 <= j < k && values.value_of(found[j].2) is Some && 0 <= found[j].0 < found[j].1 <= full_text(nodes).len()
                && #[trigger] fill_plans_upto(nodes, found, values, k)[i] == plan_at(
                nodes,
                found[j].0,
                found[j].1,
                values.value_of(found[j].2)->0,
            ),
    decreases k,
{
    if k > 0 {
        lemma_fill_upto_from_values(nodes, found, values, k - 1);
        let prev = fill_plans_upto(nodes, found, values, k - 1);
        let cur = fill_plans_upto(nodes, found, values, k);
        assert forall|i: int| 0 <= i < cur.len() implies exists|j: int|
            0 <= j < k && values.value_of(found[j].2) is Some && 0 <= found[j].0 < found[j].1 <= full_text(nodes).len()
                && #[trigger] cur[i] == plan_at(nodes, found[j].0, found[j].1, values.value_of(found[j].2)->0) by {
            if i < prev.len() {
                assert(cur[i] == prev[i]);
                let j = choose|j: int|
                    0 <= j < k - 1 && values.value_of(found[j].2) is Some && 0 <= found[j].0 < found[j].1
                        <= full_text(nodes).len() && #[trigger] prev[i] == plan_at(
                        nodes,
                        found[j].0,
                        found[j].1,
                        values.value_of(found[j].2)->0,
                    );
                assert(0 <= j < k);
            } else {
                assert(i == prev.len());
                assert(cur[i] == plan_at(nodes, found[k - 1].0, found[k - 1].1, values.value_of(found[k - 1].2)->0));
            }
        }
    }
}

/// Law: filling looks each placeholder up by its whole body. In a paragraph, every
/// placeholder found whose whole body (for `{{d:date}}`, the text `d:date`) has a value
/// gets a plan that puts exactly that value over the placeholder's characters; and
/// every plan of the fill is such a plan, for some placeholder found there.
pub proof fn law_fill_by_whole_body(t: XmlTree, p: int, values: FieldValues)
    ensures
        ({
            let nodes = text_nodes_of_paragraph(t, p);
            let found = placeholders_in(full_text(nodes));
            let plans = crate::fill::fill_plans(t, p, values);
            &&& forall|j: int|
                0 <= j < found.len() && #[trigger] values.value_of(found[j].2) is Some && 0 <= found[j].0 < found[j].1
                    <= full_text(nodes).len() ==> plans.contains(
                    plan_at(nodes, found[j].0, found[j].1, values.value_of(found[j].2)->0),
                )
            &&& forall|i: int| 0 <= i < plans.len() ==> exists|j: int|
                0 <= j < found.len() && values.value_of(found[j].2) == Some(#[trigger] plans[i].insert) && 0 <= found[j].0
                    < found[j].1 <= full_text(nodes).len() && plans[i] == plan_at(
                    nodes,
                    found[j].0,
                    found[j].1,
                    plans[i].insert,
                )
        }),
{
    let nodes = text_nodes_of_paragraph(t, p);
    let found = placeholders_in(full_text(nodes));
    let up = fill_plans_upto(nodes, found, values, found.len() as int);
    let plans = crate::fill::fill_plans(t, p, values);
    assert(plans == isort(up, crate::plan::plan_lt()));
    lemma_isort_permutes(up, crate::plan::plan_lt());
    assert forall|j: int|
        0 <= j < found.len() && #[trigger] values.value_of(found[j].2) is Some && 0 <= found[j].0 < found[j].1
            <= full_text(nodes).len() implies plans.contains(
            plan_at(nodes, found[j].0, found[j].1, values.value_of(found[j].2)->0),
        ) by {
        let x = plan_at(nodes, found[j].0, found[j].1, values.value_of(found[j].2)->0);
        lemma_fill_upto_has_plan(nodes, found, values, found.len() as int, j);
        vstd::seq_lib::to_multiset_contains(up, x);
        vstd::seq_lib::to_multiset_contains(plans, x);
    }
    lemma_fill_upto_from_values(nodes, found, values, found.len() as int);
    assert forall|i: int| 0 <= i < plans.len() implies exists|j: int|
        0 <= j < found.len() && values.value_of(found[j].2) == Some(#[trigger] plans[i].insert) && 0 <= found[j].0
            < found[j].1 <= full_text(nodes).len() && plans[i] == plan_at(nodes, found[j].0, found[j].1, plans[i].insert) by {
        let x = plans[i];
        assert(plans.contains(x));
        vstd::seq_lib::to_multiset_contains(plans, x);
        vstd::seq_lib::to_multiset_contains(up, x);
        let a = choose|a: int| 0 <= a < up.len() && up[a] == x;
        let j = choose|j: int|
            0 <= j < found.len() && values.value_of(found[j].2) is Some && 0 <= found[j].0 < found[j].1
                <= full_text(nodes).len() && #[trigger] up[a] == plan_at(
                nodes,
                found[j].0,
                found[j].1,
                values.value_of(found[j].2)->0,
            );
        assert(plan_at(nodes, found[j].0, found[j].1, values.value_of(found[j].2)->0).insert == values.value_of(found[j].2)->0);
    }
}


/// Whether the text of replacement `rep` is found in `full` at its position.
pub open spec fn found_at_position(full: Seq<char>, rep: Replacement) -> bool {
    &&& rep.old@.len() > 0
    &&& rep.offset + rep.old@.len() <= full.len()
    &&& full.subrange(rep.offset as int, rep.offset + rep.old@.len()) == rep.old@
}

proof fn lemma_reps_for_has(reps: Seq<Replacement>, k: int, j: int)
    requires
        0 <= j < reps.len(),
        reps[j].paragraph_index == k,
    ensures
        reps_for(reps, k).contains(reps[j]),
    decreases reps.len(),
{
    let prev = reps_for(reps.drop_last(), k);
    if j < reps.len() - 1 {
        lemma_reps_for_has(reps.drop_last(), k, j);
        let i = choose|i: int| 0 <= i < prev.len() && prev[i] == reps.drop_last()[j];
        if reps.last().paragraph_index == k {
            assert(prev.push(reps.last())[i] == reps[j]);
        }
    } else {
        assert(prev.push(reps.last())[prev.len() as int] == reps[j]);
    }
}

proof fn lemma_reps_for_from(reps: Seq<Replacement>, k: int)
    ensures
        forall|i: int| 0 <= i < reps_for(reps, k).len() ==> reps.contains(#[trigger] reps_for(reps, k)[i])
            && reps_for(reps, k)[i].paragraph_index == k,
    decreases reps.len(),
{
    if reps.len() > 0 {
        lemma_reps_for_from(reps.drop_last(), k);
        let prev = reps_for(reps.drop_last(), k);
        let cur = reps_for(reps, k);
        assert forall|i: int| 0 <= i < cur.len() implies reps.contains(#[trigger] cur[i]) && cur[i].paragraph_index == k by {
            if i < prev.len() {
                assert(cur[i] == prev[i]);
                let a = choose|a: int| 0 <= a < reps.drop_last().len() && reps.drop_last()[a] == prev[i];
                assert(reps[a] == prev[i]);
            } else {
                assert(cur[i] == reps.last());
                assert(reps[reps.len() - 1] == cur[i]);
            }
        }
    }
}

proof fn lemma_outcome_plans_has(nodes: Seq<TextNode>, reps: Seq<Replacement>, j: int)
    requires
        0 <= j < reps.len(),
        found_at_position(full_text(nodes), reps[j]),
    ensures
        crate::plan::outcome_plans(nodes, reps).contains(
            plan_at(nodes, reps[j].offset as int, reps[j].offset + reps[j].old@.len(), reps[j].insert@),
        ),
    decreases reps.len(),
{
    let prev = crate::plan::outcome_plans(nodes, reps.drop_last());
    let x = plan_at(nodes, reps[j].offset as int, reps[j].offset + reps[j].old@.len(), reps[j].insert@);
    if j < reps.len() - 1 {
        assert(reps.drop_last()[j] == reps[j]);
        lemma_outcome_plans_has(nodes, reps.drop_last(), j);
        let i = choose|i: int| 0 <= i < prev.len() && prev[i] == x;
        match replacement_outcome(nodes, reps.last()) {
            Ok(q) => {
                assert(prev.push(q)[i] == x);
            },
            Err(_) => {},
        }
    } else {
        assert(replacement_outcome(nodes, reps.last()) == Ok::<PlanView, Seq<char>>(x));
        assert(prev.push(x)[prev.len() as int] == x);
    }
}

/// Whether `x` is the plan of one of `reps` whose text is found at its position.
pub open spec fn plan_of_found(nodes: Seq<TextNode>, reps: Seq<Replacement>, x: PlanView) -> bool {
    exists|j: int|
        0 <= j < reps.len() && found_at_position(full_text(nodes), #[trigger] reps[j]) && x == plan_at(
            nodes,
            reps[j].offset as int,
            reps[j].offset + reps[j].old@.len(),
            reps[j].insert@,
        )
}

proof fn lemma_outcome_plans_from(nodes: Seq<TextNode>, reps: Seq<Replacement>)
    ensures
        forall|i: int| 0 <= i < crate::plan::outcome_plans(nodes, reps).len() ==> plan_of_found(
            nodes,
            reps,
            #[trigger] crate::plan::outcome_plans(nodes, reps)[i],
        ),
    decreases reps.len(),
{
    if reps.len() > 0 {
        let d = reps.drop_last();
        lemma_outcome_plans_from(nodes, d);
        let prev = crate::plan::outcome_plans(nodes, d);
        let cur = crate::plan::outcome_plans(nodes, reps);
        assert forall|i: int| 0 <= i < cur.len() implies plan_of_found(nodes, reps, #[trigger] cur[i]) by {
            if i < prev.len() {
                assert(cur[i] == prev[i]);
                assert(plan_of_found(nodes, d, prev[i]));
                let j = choose|j: int|
                    0 <= j < d.len() && found_at_position(full_text(nodes), #[trigger] d[j]) && prev[i] == plan_at(
                        nodes,
                        d[j].offset as int,
                        d[j].offset + d[j].old@.len(),
                        d[j].insert@,
                    );
                assert(d[j] == reps[j]);
            } else {
                let j = reps.len() - 1;
                assert(reps[j] == reps.last());
                match replacement_outcome(nodes, reps.last()) {
                    Ok(q) => {
                        assert(cur == prev.push(q));
                        assert(cur[i] == q);
                    },
                    Err(_) => {
                        assert(cur == prev);
                    },
                }
            }
        }
    }
}

/// Law: the constructor applies, in each paragraph, every replacement meant for it
/// whose text is found at its position, whatever becomes of its other replacements;
/// and it applies nothing else: every plan of the paragraph is the plan of such a
/// replacement of the paragraph (its range, its insert); the replacements of the
/// paragraph are exactly those of `reps` aimed at it.
pub proof fn law_constructor_applies_each_found_replacement(t: XmlTree, p: int, k: int, reps: Seq<Replacement>)
    ensures
        ({
            let nodes = text_nodes_of_paragraph(t, p);
            let full = full_text(nodes);
            let plans = plan_for(t, p, k, PlannerView::Constructor(reps)).0;
            &&& forall|j: int|
                0 <= j < reps.len() && reps[j].paragraph_index == k && #[trigger] found_at_position(full, reps[j])
                    ==> plans.contains(
                    plan_at(nodes, reps[j].offset as int, reps[j].offset + reps[j].old@.len(), reps[j].insert@),
                )
            &&& forall|i: int| 0 <= i < plans.len() ==> plan_of_found(nodes, reps_for(reps, k), #[trigger] plans[i])
            &&& forall|r: Replacement| #[trigger] reps_for(reps, k).contains(r) <==> (reps.contains(r) && r.paragraph_index == k)
        }),
{
    let nodes = text_nodes_of_paragraph(t, p);
    let full = full_text(nodes);
    let mine = reps_for(reps, k);
    let up = crate::plan::outcome_plans(nodes, mine);
    let plans = plan_for(t, p, k, PlannerView::Constructor(reps)).0;
    lemma_reps_for_from(reps, k);
    lemma_outcome_plans_from(nodes, mine);
    lemma_isort_permutes(up, crate::plan::plan_lt());
    assert forall|j: int|
        0 <= j < reps.len() && reps[j].paragraph_index == k && #[trigger] found_at_position(full, reps[j]) implies plans.contains(
            plan_at(nodes, reps[j].offset as int, reps[j].offset + reps[j].old@.len(), reps[j].insert@),
        ) by {
        lemma_reps_for_has(reps, k, j);
        let a = choose|a: int| 0 <= a < mine.len() && mine[a] == reps[j];
        assert(mine.len() > 0);
        assert(plans == isort(up, crate::plan::plan_lt()));
        lemma_outcome_plans_has(nodes, mine, a);
        let x = plan_at(nodes, reps[j].offset as int, reps[j].offset + reps[j].old@.len(), reps[j].insert@);
        vstd::seq_lib::to_multiset_contains(up, x);
        vstd::seq_lib::to_multiset_contains(plans, x);
    }
    assert forall|i: int| 0 <= i < plans.len() implies plan_of_found(nodes, mine, #[trigger] plans[i]) by {
        assert(mine.len() > 0);
        assert(plans == isort(up, crate::plan::plan_lt()));
        let x = plans[i];
        assert(plans.contains(x));
        vstd::seq_lib::to_multiset_contains(plans, x);
        vstd::seq_lib::to_multiset_contains(up, x);
        let a = choose|a: int| 0 <= a < up.len() && up[a] == x;
        assert(plan_of_found(nodes, mine, up[a]));
    }
    assert forall|r: Replacement| #[trigger] mine.contains(r) <==> (reps.contains(r) && r.paragraph_index == k) by {
        if mine.contains(r) {
            let a = choose|a: int| 0 <= a < mine.len() && mine[a] == r;
            assert(reps.contains(mine[a]));
        }
        if reps.contains(r) && r.paragraph_index == k {
            let j = choose|j: int| 0 <= j < reps.len() && reps[j] == r;
            lemma_reps_for_has(reps, k, j);
        }
    }
}


/// The number of paragraphs in the first `k` cells of `tcs`.
pub open spec fn cells_para_count(t: XmlTree, tcs: Seq<int>, k: int) -> int
    decreases k,
{
    if k <= 0 {
        0
    } else {
        cells_para_count(t, tcs, k - 1) + paragraphs_below(t, tcs[k - 1]).len()
    }
}

/// The cells at or below node `n`.
pub open spec fn cells_below(t: XmlTree, n: int) -> Seq<int> {
    elements_named(t, descendants(t, n), "tc"@)
}

/// The number of paragraphs in the cells of the first `k` rows of `trs`.
pub open spec fn rows_para_count(t: XmlTree, trs: Seq<int>, k: int) -> int
    decreases k,
{
    if k <= 0 {
        0
    } else {
        rows_para_count(t, trs, k - 1) + cells_para_count(t, cells_below(t, trs[k - 1]), cells_below(t, trs[k - 1]).len() as int)
    }
}

/// The number of paragraphs that the preview of table `tbl` shows.
pub open spec fn table_para_count(t: XmlTree, tbl: int) -> int {
    let trs = elements_named(t, descendants(t, tbl), "tr"@);
    rows_para_count(t, trs, trs.len() as int)
}

/// The number of paragraphs that the preview shows for the first `k` children of
/// body `b`: one for a paragraph, those of its cells for a table, none for anything
/// else.
pub open spec fn body_para_count(t: XmlTree, b: int, k: int) -> int
    decreases k,
{
    if k <= 0 {
        0
    } else {
        let c = t.kids(b)[k - 1] as int;
        body_para_count(t, b, k - 1) + if t.is_element_named(c, "p"@) {
            1
        } else if t.is_element_named(c, "tbl"@) {
            table_para_count(t, c)
        } else {
            0
        }
    }
}

proof fn lemma_cells_count_mono(t: XmlTree, tcs: Seq<int>, k: int)
    ensures
        0 <= cells_para_count(t, tcs, k),
        k > 0 ==> cells_para_count(t, tcs, k - 1) <= cells_para_count(t, tcs, k),
    decreases k,
{
    if k > 0 {
        lemma_cells_count_mono(t, tcs, k - 1);
    }
}

proof fn lemma_rows_count_mono(t: XmlTree, trs: Seq<int>, k: int)
    ensures
        0 <= rows_para_count(t, trs, k),
        k > 0 ==> rows_para_count(t, trs, k - 1) <= rows_para_count(t, trs, k),
    decreases k,
{
    if k > 0 {
        lemma_rows_count_mono(t, trs, k - 1);
        let tcs = cells_below(t, trs[k - 1]);
        lemma_cells_count_mono(t, tcs, tcs.len() as int);
    }
}

proof fn lemma_body_count_mono(t: XmlTree, b: int, k: int)
    ensures
        0 <= body_para_count(t, b, k),
        k > 0 ==> body_para_count(t, b, k - 1) <= body_para_count(t, b, k),
    decreases k,
{
    if k > 0 {
        lemma_body_count_mono(t, b, k - 1);
        let c = t.kids(b)[k - 1] as int;
        let trs = elements_named(t, descendants(t, c), "tr"@);
        lemma_rows_count_mono(t, trs, trs.len() as int);
    }
}

/// Law: in the cells of a table row, paragraphs are numbered on from cell to cell: the
/// `k`-th cell's paragraphs are numbered consecutively from `idx` plus the paragraphs
/// of the cells before it, and numbering goes on after all of them.
pub proof fn law_cells_number_on(t: XmlTree, tcs: Seq<int>, k: int, idx: usize)
    requires
        0 <= k,
        idx + cells_para_count(t, tcs, k) <= usize::MAX,
    ensures
        cells_fold(t, tcs, k, idx).1 == idx + cells_para_count(t, tcs, k),
        k > 0 ==> cells_fold(t, tcs, k, idx).0 == cells_fold(t, tcs, k - 1, idx).0 + "<td>"@ + numbered_paragraphs(
            t,
            paragraphs_below(t, tcs[k - 1]),
            paragraphs_below(t, tcs[k - 1]).len() as int,
            idx + cells_para_count(t, tcs, k - 1),
        ) + "</td>"@,
    decreases k,
{
    lemma_cells_count_mono(t, tcs, k);
    if k > 0 {
        law_cells_number_on(t, tcs, k - 1, idx);
        let prev = cells_fold(t, tcs, k - 1, idx);
        let ps = paragraphs_below(t, tcs[k - 1]);
        law_preview_numbers_paragraphs_in_order(t, ps, ps.len() as int, prev.1);
    }
}

proof fn lemma_rows_number_on(t: XmlTree, trs: Seq<int>, k: int, idx: usize)
    requires
        0 <= k,
        idx + rows_para_count(t, trs, k) <= usize::MAX,
    ensures
        rows_fold(t, trs, k, idx).1 == idx + rows_para_count(t, trs, k),
    decreases k,
{
    lemma_rows_count_mono(t, trs, k);
    if k > 0 {
        lemma_rows_number_on(t, trs, k - 1, idx);
        let prev = rows_fold(t, trs, k - 1, idx);
        let tcs = elements_named(t, descendants(t, trs[k - 1]), "tc"@);
        law_cells_number_on(t, tcs, tcs.len() as int, prev.1);
    }
}

/// Law: a table's preview numbers its paragraphs on from `idx`, and numbering goes
/// on after the table's last paragraph.
pub proof fn law_table_numbers_on(t: XmlTree, tbl: int, idx: usize)
    requires
        idx + table_para_count(t, tbl) <= usize::MAX,
    ensures
        table_html(t, tbl, idx).1 == idx + table_para_count(t, tbl),
{
    let trs = elements_named(t, descendants(t, tbl), "tr"@);
    lemma_rows_number_on(t, trs, trs.len() as int, idx);
}

/// The preview of one child `c` of the body, its paragraphs numbered from `n`.
pub open spec fn body_child_html(t: XmlTree, c: int, n: usize) -> Seq<char> {
    if t.is_element_named(c, "p"@) {
        paragraph_html(t, c, n)
    } else if t.is_element_named(c, "tbl"@) {
        table_html(t, c, n).0
    } else {
        Seq::empty()
    }
}

/// Law: the preview numbers all paragraphs of the body, those inside tables included,
/// consecutively in order: the `k`-th child is previewed with its paragraphs numbered
/// from `idx` plus the number of paragraphs shown before it, and after the first `k`
/// children numbering stands at `idx` plus all the paragraphs they showed.
pub proof fn law_body_numbers_paragraphs_in_order(t: XmlTree, b: int, k: int, idx: usize)
    requires
        0 <= k,
        idx + body_para_count(t, b, k) <= usize::MAX,
    ensures
        body_fold(t, b, k, idx).1 == idx + body_para_count(t, b, k),
        k > 0 ==> body_fold(t, b, k, idx).0 == body_fold(t, b, k - 1, idx).0 + body_child_html(
            t,
            t.kids(b)[k - 1] as int,
            (idx + body_para_count(t, b, k - 1)) as usize,
        ),
    decreases k,
{
    lemma_body_count_mono(t, b, k);
    if k > 0 {
        law_body_numbers_paragraphs_in_order(t, b, k - 1, idx);
        let c = t.kids(b)[k - 1] as int;
        let prev = body_fold(t, b, k - 1, idx);
        if t.is_element_named(c, "tbl"@) && !t.is_element_named(c, "p"@) {
            law_table_numbers_on(t, c, prev.1);
        }
    }
}


/// The Russian month names in the genitive, January first.
pub open spec fn genitive_months() -> Seq<Seq<char>> {
    seq![
        "января"@, "февраля"@, "марта"@, "апреля"@, "мая"@, "июня"@, "июля"@, "августа"@, "сентября"@,
        "октября"@, "ноября"@, "декабря"@,
    ]
}

/// Law: a full date writes month `m` (1 to 12) as the `m`-th Russian month name in the
/// genitive, and no two months share a name.
pub proof fn law_month_names(m: int, n: int)
    requires
        1 <= m <= 12,
        1 <= n <= 12,
    ensures
        crate::values::month_name(m) == genitive_months()[m - 1],
        m != n ==> crate::values::month_name(m) != crate::values::month_name(n),
{
    reveal_strlit("января");
    reveal_strlit("февраля");
    reveal_strlit("марта");
    reveal_strlit("апреля");
    reveal_strlit("мая");
    reveal_strlit("июня");
    reveal_strlit("июля");
    reveal_strlit("августа");
    reveal_strlit("сентября");
    reveal_strlit("октября");
    reveal_strlit("ноября");
    reveal_strlit("декабря");
    let g = genitive_months();
    assert(g.len() == 12);
    assert(forall|a: int, b: int| 0 <= a < b < 12 ==> #[trigger] g[a] != #[trigger] g[b]) by {
        assert forall|a: int, b: int| 0 <= a < b < 12 implies #[trigger] g[a] != #[trigger] g[b] by {
            if g[a].len() == g[b].len() {
                if g[a][0] == g[b][0] {
                    if g[a][1] == g[b][1] {
                        assert(g[a][2] != g[b][2]);
                    } else {
                    }
                }
            }
        }
    }
}


/// Law: a date written in full names its own month: for a value read as year `y`,
/// month `m`, day `d`, the full form is `"dd" <m-th month name> <y> г.`.
pub proof fn law_full_date_names_its_month(value: Seq<char>)
    requires
        crate::values::parsed_date(value) matches Some(dt) && 1 <= dt.1 <= 12,
    ensures
        ({
            let dt = crate::values::parsed_date(value)->0;
            crate::values::formatted_value("date"@, Some("full"@), value) == "\""@ + crate::values::two_digits(
                dt.2 as nat,
            ) + "\" "@ + genitive_months()[dt.1 - 1] + " "@ + crate::values::int_decimal(dt.0 as int) + " г."@
        }),
{
    let dt = crate::values::parsed_date(value)->0;
    law_month_names(dt.1 as int, dt.1 as int);
}


/// Law: the template-path check accepts every plain relative path (parts between `/`
/// that are non-empty, not `.` or `..`, without `\`, `:` or NUL) that is not blank and
/// whose file name has the extension `docx`, whatever other characters (spaces,
/// letters of any script) it holds: given the components and extension that such a
/// path has, the check passes.
pub proof fn law_plain_docx_paths_pass_the_check(raw: Seq<char>, components: Seq<Option<String>>, extension: Option<String>)
    requires
        crate::names::plain_relative_path(raw),
        trim(raw).len() > 0,
        crate::names::name_extension(crate::pattern::split_on(raw, '/').last()) == Some(seq!['d', 'o', 'c', 'x']),
        components.len() == crate::pattern::split_on(raw, '/').len(),
        forall|i: int| 0 <= i < components.len() ==> (#[trigger] components[i] matches Some(part) && part@
            == crate::pattern::split_on(raw, '/')[i]),
        extension matches Some(e) && e@ == seq!['d', 'o', 'c', 'x'],
    ensures
        crate::names::relative_docx_path_ok(raw, false, components, extension),
{
    reveal_strlit("docx");
    assert("docx"@ =~= seq!['d', 'o', 'c', 'x']);
    assert forall|i: int| 0 <= i < components.len() implies match #[trigger] components[i] {
        Some(part) => !part@.contains('\\') && !part@.contains('\0'),
        None => false,
    } by {
        assert(crate::names::plain_segment(crate::pattern::split_on(raw, '/')[i]));
    }
}

} // verus!
