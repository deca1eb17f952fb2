//! Rewriting a Word document body (`word/document.xml`) paragraph by paragraph: the
//! events outside paragraphs are written back as read; each paragraph (`w:p`) is
//! parsed on its own, planned, and either rewritten with its plans or written back
//! as read.
use vstd::prelude::*;
use crate::events::{document_events, event_xml, events_xml, read_xml_events, write_event, XmlEvent};
use crate::fill::{build_fill_plans, fill_plans, lemma_plan_at_views, lemma_text_of_views, text_nodes_of_paragraph, FieldValues};
use crate::namespaces::{extract_namespace_context, namespace_context_of, wrap_fragment_in_root, wrapped_fragment, ContextView, NamespaceContext};
use crate::plan::{analyze_paragraph, full_text, outcome_plans, outcome_reports, plan_lt, plans_view, replacement_outcome, PlanView, ReplacePlan, Replacement, TextNode};
use crate::sort::{isort, lemma_insert_pos_first};
use crate::text::{append_chars, chars_of, eq_chars, string_from_chars, strings_view};
use crate::tree::{collect_text_nodes, is_element_named, paragraph_text_nodes, parse_xml_tree, text_nodes_view, tree_fits, NodeKind, XmlTree};
use crate::writer::{first_named_kid, generate_paragraph, lemma_first_named_kid_stable, paragraph_xml};

verus! {

/// Whether an event starts a paragraph (`w:p`).
pub open spec fn is_paragraph_start(e: XmlEvent) -> bool {
    e matches XmlEvent::Start(name, _) && name@ == "w:p"@
}

/// Whether an event ends a paragraph (`w:p`).
pub open spec fn is_paragraph_end(e: XmlEvent) -> bool {
    e matches XmlEvent::End(name) && name@ == "w:p"@
}

/// How the paragraph open at a position ends.
pub enum ParaEnd {
    /// At the end tag at this position.
    Closed(int),
    /// The text ends inside the paragraph.
    EofInside,
    /// The events run out inside the paragraph.
    Truncated,
}

/// How a paragraph ends when its nesting depth is `depth` before position `j`:
/// nested paragraphs are counted, the end tag that brings the depth back to zero
/// closes it.
pub open spec fn para_close(evs: Seq<XmlEvent>, j: int, depth: int) -> ParaEnd
    decreases evs.len() - j,
{
    if j < 0 || j >= evs.len() {
        ParaEnd::Truncated
    } else if is_paragraph_start(evs[j]) {
        para_close(evs, j + 1, depth + 1)
    } else if is_paragraph_end(evs[j]) {
        if depth <= 1 {
            ParaEnd::Closed(j)
        } else {
            para_close(evs, j + 1, depth - 1)
        }
    } else if evs[j] is Eof {
        ParaEnd::EofInside
    } else {
        para_close(evs, j + 1, depth)
    }
}

/// Lemma: a paragraph closes at or after the position where the search starts.
pub proof fn lemma_para_close_after(evs: Seq<XmlEvent>, j: int, depth: int)
    ensures
        para_close(evs, j, depth) matches ParaEnd::Closed(k) ==> j <= k < evs.len(),
    decreases evs.len() - j,
{
    if 0 <= j < evs.len() {
        if is_paragraph_start(evs[j]) {
            lemma_para_close_after(evs, j + 1, depth + 1);
        } else if is_paragraph_end(evs[j]) {
            if depth > 1 {
                lemma_para_close_after(evs, j + 1, depth - 1);
            }
        } else if !(evs[j] is Eof) {
            lemma_para_close_after(evs, j + 1, depth);
        }
    }
}

/// The message for a text that ends inside a paragraph.
pub open spec fn msg_eof_in_paragraph() -> Seq<char> {
    "Неожиданный конец XML внутри w:p"@
}

/// The message for a paragraph fragment without a paragraph element.
pub open spec fn msg_no_paragraph() -> Seq<char> {
    "Не удалось извлечь параграф из XML-фрагмента"@
}

/// What plans the paragraphs: the constructor's replacements (in the order they are
/// applied: by paragraph, then from the last position to the first), or the values
/// that fill placeholders.
pub enum Planner<'a> {
    Constructor(&'a Vec<Replacement>),
    Fill(&'a FieldValues),
}

/// The value of a planner: the constructor's replacements, or the values.
pub enum PlannerView {
    Constructor(Seq<Replacement>),
    Fill(FieldValues),
}

impl<'a> View for Planner<'a> {
    type V = PlannerView;

    open spec fn view(&self) -> PlannerView {
        match self {
            Planner::Constructor(reps) => PlannerView::Constructor(reps@),
            Planner::Fill(values) => PlannerView::Fill(**values),
        }
    }
}

/// The replacements for paragraph `k`, in order.
pub open spec fn reps_for(reps: Seq<Replacement>, k: int) -> Seq<Replacement>
    decreases reps.len(),
{
    if reps.len() == 0 {
        reps
    } else if reps.last().paragraph_index == k {
        reps_for(reps.drop_last(), k).push(reps.last())
    } else {
        reps_for(reps.drop_last(), k)
    }
}

/// The plans and reports for paragraph `p` (the `k`-th paragraph) of tree `t`:
/// with the constructor, the paragraph's replacements checked against its text (none
/// when it has no replacement); when filling, the placeholders with values.
pub open spec fn plan_for(t: XmlTree, p: int, k: int, planner: PlannerView) -> (Seq<PlanView>, Seq<Seq<char>>) {
    match planner {
        PlannerView::Constructor(reps) => {
            let mine = reps_for(reps, k);
            if mine.len() == 0 {
                (Seq::empty(), Seq::empty())
            } else {
                let nodes = text_nodes_of_paragraph(t, p);
                (isort(outcome_plans(nodes, mine), plan_lt()), outcome_reports(nodes, mine))
            }
        },
        PlannerView::Fill(values) => (fill_plans(t, p, values), Seq::empty()),
    }
}

/// The first child of node `i` that is an element.
pub open spec fn first_element_kid(t: XmlTree, i: int, k: int) -> Option<int>
    decreases k,
{
    if k <= 0 || k > t.kids(i).len() {
        None
    } else {
        match first_element_kid(t, i, k - 1) {
            Some(x) => Some(x),
            None => if 0 <= t.kids(i)[k - 1] < t.len() && t.nodes@[t.kids(i)[k - 1] as int].kind is Element {
                Some(t.kids(i)[k - 1] as int)
            } else {
                None
            },
        }
    }
}

/// The paragraph of a parsed fragment: the first `p` child of the root element.
pub open spec fn paragraph_node(t: XmlTree) -> Option<int> {
    match first_element_kid(t, 0, t.kids(0).len() as int) {
        Some(r) => first_named_kid(t, r, t.kids(r).len() as int, "p"@),
        None => None,
    }
}

/// The output of one paragraph (its events `group`, the `k`-th paragraph), given how
/// its fragment parsed: a parse failure or a missing paragraph is an error; with plans
/// the paragraph is rewritten, without it is written back as read; the reports of the
/// planner come along.
pub open spec fn paragraph_piece(
    group: Seq<XmlEvent>,
    tree: Result<XmlTree, String>,
    k: int,
    c: ContextView,
    planner: PlannerView,
) -> Result<(Seq<char>, Seq<Seq<char>>), Seq<char>> {
    match tree {
        Err(e) => Err(e@),
        Ok(t) => if !t.wf() {
            Err(crate::tree::msg_bad_tree())
        } else {
            match paragraph_node(t) {
                None => Err(msg_no_paragraph()),
                Some(p) => {
                    let planned = plan_for(t, p, k, planner);
                    if planned.0.len() > 0 {
                        Ok((paragraph_xml(t, p, planned.0, c), planned.1))
                    } else {
                        Ok((events_xml(group), planned.1))
                    }
                },
            }
        },
    }
}

/// What parsing the wrapped fragment of each paragraph gave stands in `trees`, one per
/// paragraph in order: `trees[k]` for the `k`-th. The output of the events from
/// position `i` on (paragraph `k` next), after `out` was written and `reports`
/// gathered: events outside paragraphs are written back as read, each paragraph
/// becomes its piece (see `paragraph_piece`), the end event ends the text. A reader
/// error `err` comes after the events read before it.
pub open spec fn rewrite_from(
    evs: Seq<XmlEvent>,
    err: Option<Seq<char>>,
    i: int,
    k: int,
    c: ContextView,
    planner: PlannerView,
    trees: Seq<Result<XmlTree, String>>,
    out: Seq<char>,
    reports: Seq<Seq<char>>,
) -> Result<(Seq<char>, Seq<Seq<char>>), Seq<char>>
    decreases evs.len() - i,
{
    if i < 0 || i >= evs.len() {
        match err {
            Some(e) => Err(e),
            None => Ok((out, reports)),
        }
    } else if evs[i] is Eof {
        Ok((out, reports))
    } else if is_paragraph_start(evs[i]) {
        match para_close(evs, i + 1, 1) {
            ParaEnd::Closed(j) => {
                proof {
                    lemma_para_close_after(evs, i + 1, 1);
                }
                let group = evs.subrange(i, j + 1);
                match paragraph_piece(group, trees[k], k, c, planner) {
                    Err(e) => Err(e),
                    Ok(piece) => rewrite_from(
                        evs,
                        err,
                        j + 1,
                        k + 1,
                        c,
                        planner,
                        trees,
                        out + piece.0,
                        reports + piece.1,
                    ),
                }
            },
            ParaEnd::EofInside => Err(msg_eof_in_paragraph()),
            ParaEnd::Truncated => match err {
                Some(e) => Err(e),
                None => Err(msg_eof_in_paragraph()),
            },
        }
    } else {
        rewrite_from(evs, err, i + 1, k, c, planner, trees, out + event_xml(evs[i]), reports)
    }
}

/// The value of a rewrite's outcome.
pub open spec fn outcome_view(r: Result<(String, Vec<String>), String>) -> Result<
    (Seq<char>, Seq<Seq<char>>),
    Seq<char>,
> {
    match r {
        Ok(v) => Ok((v.0@, strings_view(v.1@))),
        Err(e) => Err(e@),
    }
}

/// The value of an optional string.
pub open spec fn opt_view(o: Option<String>) -> Option<Seq<char>> {
    match o {
        Some(s) => Some(s@),
        None => None,
    }
}

/// How a paragraph ends, as found by `find_paragraph_end`.
pub enum ParagraphClose {
    At(usize),
    EofInside,
    Truncated,
}

/// The value of a `ParagraphClose`.
pub open spec fn close_view(c: ParagraphClose) -> ParaEnd {
    match c {
        ParagraphClose::At(j) => ParaEnd::Closed(j as int),
        ParagraphClose::EofInside => ParaEnd::EofInside,
        ParagraphClose::Truncated => ParaEnd::Truncated,
    }
}

/// Whether a name is `w:p`.
fn is_paragraph_name(name: &String) -> (r: bool)
    ensures
        r == (name@ == "w:p"@),
{
    let a = chars_of(name.as_str());
    let b = chars_of("w:p");
    eq_chars(a.as_slice(), b.as_slice())
}

/// Whether an event starts a paragraph (see `is_paragraph_start`).
fn starts_paragraph(e: &XmlEvent) -> (r: bool)
    ensures
        r == is_paragraph_start(*e),
{
    match e {
        XmlEvent::Start(name, _) => is_paragraph_name(name),
        _ => false,
    }
}

/// Whether an event ends a paragraph (see `is_paragraph_end`).
fn ends_paragraph(e: &XmlEvent) -> (r: bool)
    ensures
        r == is_paragraph_end(*e),
{
    match e {
        XmlEvent::End(name) => is_paragraph_name(name),
        _ => false,
    }
}

/// Finds where the paragraph whose start tag precedes position `start` ends (see
/// `para_close`, at depth one).
pub fn find_paragraph_end(evs: &Vec<XmlEvent>, start: usize) -> (r: ParagraphClose)
    requires
        1 <= start <= evs@.len(),
    ensures
        close_view(r) == para_close(evs@, start as int, 1),
{
    let mut j = start;
    let mut depth: usize = 1;
    while j < evs.len()
        invariant
            1 <= start <= j <= evs@.len(),
            1 <= depth <= j - start + 1,
            para_close(evs@, start as int, 1) == para_close(evs@, j as int, depth as int),
        decreases evs@.len() - j,
    {
        let e = &evs[j];
        if starts_paragraph(e) {
            depth += 1;
        } else if ends_paragraph(e) {
            if depth <= 1 {
                return ParagraphClose::At(j);
            }
            depth -= 1;
        } else if matches!(e, XmlEvent::Eof) {
            return ParagraphClose::EofInside;
        }
        j += 1;
    }
    ParagraphClose::Truncated
}

/// Lemma: the outcome of replacements depends only on the views of the text pieces.
pub proof fn lemma_outcome_views(a: Seq<TextNode>, b: Seq<TextNode>, reps: Seq<Replacement>)
    requires
        text_nodes_view(a) == text_nodes_view(b),
    ensures
        outcome_plans(a, reps) == outcome_plans(b, reps),
        outcome_reports(a, reps) == outcome_reports(b, reps),
    decreases reps.len(),
{
    lemma_text_of_views(a, b);
    if reps.len() > 0 {
        lemma_outcome_views(a, b, reps.drop_last());
        let rep = reps.last();
        let old_len = rep.old@.len();
        if old_len > 0 && rep.offset + old_len <= full_text(a).len() {
            lemma_plan_at_views(a, b, rep.offset as int, rep.offset + old_len, rep.insert@);
        }
        assert(replacement_outcome(a, rep) == replacement_outcome(b, rep));
    }
}

/// A copy of a replacement.
fn copy_replacement(r: &Replacement) -> (c: Replacement)
    ensures
        c == *r,
{
    Replacement {
        old: r.old.clone(),
        insert: r.insert.clone(),
        paragraph_index: r.paragraph_index,
        offset: r.offset,
    }
}

/// The replacements for paragraph `k`, in order (see `reps_for`).
fn replacements_for(reps: &Vec<Replacement>, k: usize) -> (r: Vec<Replacement>)
    ensures
        r@ == reps_for(reps@, k as int),
{
    let mut mine: Vec<Replacement> = Vec::new();
    let mut i: usize = 0;
    while i < reps.len()
        invariant
            i <= reps@.len(),
            mine@ == reps_for(reps@.take(i as int), k as int),
        decreases reps@.len() - i,
    {
        let ghost pre = reps@.take(i + 1);
        assert(pre.drop_last() =~= reps@.take(i as int));
        assert(pre.last() == reps@[i as int]);
        if reps[i].paragraph_index == k {
            mine.push(copy_replacement(&reps[i]));
        }
        i += 1;
    }
    assert(reps@.take(reps@.len() as int) =~= reps@);
    mine
}

/// Plans paragraph `p` of `t`, the `k`-th paragraph (see `plan_for`).
fn plan_paragraph(t: &XmlTree, p: usize, k: usize, planner: &Planner<'_>) -> (r: (
    Vec<ReplacePlan>,
    Vec<String>,
))
    requires
        t.wf(),
        p < t.len(),
    ensures
        (plans_view(r.0@), strings_view(r.1@)) == plan_for(*t, p as int, k as int, planner@),
{
    match planner {
        Planner::Constructor(reps) => {
            let mine = replacements_for(reps, k);
            if mine.len() == 0 {
                (Vec::new(), Vec::new())
            } else {
                let nodes = collect_text_nodes(t, p);
                let (plans, reports) = analyze_paragraph(nodes.as_slice(), mine.as_slice());
                proof {
                    let chosen = text_nodes_of_paragraph(*t, p as int);
                    assert(text_nodes_view(nodes@) == paragraph_text_nodes(*t, p as int));
                    lemma_outcome_views(nodes@, chosen, mine@);
                }
                (plans, reports)
            }
        },
        Planner::Fill(values) => {
            let plans = build_fill_plans(t, p, values);
            (plans, Vec::new())
        },
    }
}

/// The root element of a parsed fragment: the first child of the document node that is
/// an element (see `first_element_kid`).
fn root_element(t: &XmlTree) -> (r: Option<usize>)
    requires
        t.wf(),
    ensures
        match r {
            Some(c) => first_element_kid(*t, 0, t.kids(0).len() as int) == Some(c as int)
                && c < t.len(),
            None => first_element_kid(*t, 0, t.kids(0).len() as int) is None,
        },
{
    let kids = &t.nodes[0].children;
    let mut k: usize = 0;
    while k < kids.len()
        invariant
            t.wf(),
            kids@ == t.kids(0),
            k <= kids@.len(),
            first_element_kid(*t, 0, k as int) is None,
        decreases kids@.len() - k,
    {
        let c = kids[k];
        assert(0 < c < t.len());
        if matches!(t.nodes[c].kind, NodeKind::Element) {
            proof {
                assert(first_element_kid(*t, 0, k + 1) == Some(c as int));
                lemma_first_element_kid_stable(*t, 0, k + 1, kids@.len() as int);
            }
            return Some(c);
        }
        k += 1;
    }
    None
}

/// The paragraph of a parsed fragment (see `paragraph_node`).
fn find_paragraph_node(t: &XmlTree) -> (r: Option<usize>)
    requires
        t.wf(),
    ensures
        match r {
            Some(p) => paragraph_node(*t) == Some(p as int) && p < t.len(),
            None => paragraph_node(*t) is None,
        },
{
    let r = match root_element(t) {
        Some(r) => r,
        None => {
            return None;
        },
    };
    let rk = &t.nodes[r].children;
    let mut m: usize = 0;
    while m < rk.len()
        invariant
            t.wf(),
            r < t.len(),
            rk@ == t.kids(r as int),
            m <= rk@.len(),
            first_element_kid(*t, 0, t.kids(0).len() as int) == Some(r as int),
            first_named_kid(*t, r as int, m as int, "p"@) is None,
        decreases rk@.len() - m,
    {
        let c = rk[m];
        assert(r < c < t.len());
        if is_element_named(t, c, "p") {
            proof {
                assert(first_named_kid(*t, r as int, m + 1, "p"@) == Some(c as int));
                lemma_first_named_kid_stable(*t, r as int, m + 1, rk@.len() as int, "p"@);
            }
            return Some(c);
        }
        m += 1;
    }
    None
}

/// Lemma: once found among the first `k` children, the first element child stays the same.
pub proof fn lemma_first_element_kid_stable(t: XmlTree, i: int, k: int, m: int)
    requires
        0 < k <= m <= t.kids(i).len(),
        first_element_kid(t, i, k) is Some,
    ensures
        first_element_kid(t, i, m) == first_element_kid(t, i, k),
    decreases m - k,
{
    if m > k {
        lemma_first_element_kid_stable(t, i, k, m - 1);
    }
}

/// The value of a paragraph's piece.
pub open spec fn piece_view(r: Result<(Vec<char>, Vec<String>), String>) -> Result<
    (Seq<char>, Seq<Seq<char>>),
    Seq<char>,
> {
    match r {
        Ok(v) => Ok((v.0@, strings_view(v.1@))),
        Err(e) => Err(e@),
    }
}

/// The output of one paragraph, whose events were written back as `frag`, given how
/// its wrapped fragment parsed (see `paragraph_piece`).
fn paragraph_piece_exec(
    frag: &Vec<char>,
    parsed: Result<XmlTree, String>,
    k: usize,
    ctx: &NamespaceContext,
    planner: &Planner<'_>,
    Ghost(group): Ghost<Seq<XmlEvent>>,
) -> (r: Result<(Vec<char>, Vec<String>), String>)
    requires
        frag@ == events_xml(group),
        parsed matches Ok(t) ==> t.wf(),
    ensures
        piece_view(r) == paragraph_piece(group, parsed, k as int, ctx@, planner@),
{
    let t = match parsed {
        Ok(t) => t,
        Err(e) => {
            return Err(e);
        },
    };
    let p = match find_paragraph_node(&t) {
        Some(p) => p,
        None => {
            return Err(crate::error::owned("Не удалось извлечь параграф из XML-фрагмента"));
        },
    };
    let (plans, reports) = plan_paragraph(&t, p, k, planner);
    if plans.len() > 0 {
        let mut out: Vec<char> = Vec::new();
        generate_paragraph(&t, p, plans.as_slice(), ctx, &mut out);
        assert(out@ =~= paragraph_xml(t, p as int, plans_view(plans@), ctx@));
        Ok((out, reports))
    } else {
        Ok((frag.clone(), reports))
    }
}

/// How the rewrite from position `i` (paragraph `k` next, after `out` and `reports`)
/// relates to the whole rewrite, for every choice of the trees still to come.
pub open spec fn rewrite_reached(
    evs: Seq<XmlEvent>,
    err: Option<Seq<char>>,
    c: ContextView,
    planner: PlannerView,
    trees: Seq<Result<XmlTree, String>>,
    i: int,
    k: int,
    out: Seq<char>,
    reports: Seq<Seq<char>>,
) -> bool {
    forall|rest: Seq<Result<XmlTree, String>>|
        #[trigger] rewrite_from(evs, err, 0, 0, c, planner, trees + rest, Seq::empty(), Seq::empty())
            == rewrite_from(evs, err, i, k, c, planner, trees + rest, out, reports)
}

/// Whether the whole rewrite comes to `res` whatever trees follow `trees`.
pub open spec fn rewrite_settled(
    evs: Seq<XmlEvent>,
    err: Option<Seq<char>>,
    c: ContextView,
    planner: PlannerView,
    trees: Seq<Result<XmlTree, String>>,
    res: Result<(Seq<char>, Seq<Seq<char>>), Seq<char>>,
) -> bool {
    forall|rest: Seq<Result<XmlTree, String>>|
        #[trigger] rewrite_from(evs, err, 0, 0, c, planner, trees + rest, Seq::empty(), Seq::empty()) == res
}

/// The events of each closed paragraph from position `i` on, in order, as the rewrite
/// meets them: up to the end event or to a paragraph that is not closed.
pub open spec fn para_groups(evs: Seq<XmlEvent>, i: int) -> Seq<Seq<XmlEvent>>
    decreases evs.len() - i,
{
    if i < 0 || i >= evs.len() || evs[i] is Eof {
        Seq::empty()
    } else if is_paragraph_start(evs[i]) {
        match para_close(evs, i + 1, 1) {
            ParaEnd::Closed(j) => {
                proof {
                    lemma_para_close_after(evs, i + 1, 1);
                }
                seq![evs.subrange(i, j + 1)] + para_groups(evs, j + 1)
            },
            _ => Seq::empty(),
        }
    } else {
        para_groups(evs, i + 1)
    }
}

/// Whether `trees` are what parsing the paragraphs of `evs` gives, in order: the
/// `k`-th is the parse of the `k`-th paragraph's events written back and wrapped in a
/// root that declares the namespaces of `c` (see `tree_fits`).
pub open spec fn trees_fit(evs: Seq<XmlEvent>, c: ContextView, trees: Seq<Result<XmlTree, String>>) -> bool {
    &&& trees.len() <= para_groups(evs, 0).len()
    &&& forall|k: int|
        0 <= k < trees.len() ==> tree_fits(
            #[trigger] trees[k],
            wrapped_fragment(events_xml(para_groups(evs, 0)[k]), c),
        )
}

/// Lemma: trees that fit the paragraphs met so far fit the document.
proof fn lemma_trees_fit(
    evs: Seq<XmlEvent>,
    c: ContextView,
    trees: Seq<Result<XmlTree, String>>,
    done: Seq<Seq<XmlEvent>>,
    i: int,
)
    requires
        para_groups(evs, 0) == done + para_groups(evs, i),
        trees.len() == done.len(),
        forall|x: int| 0 <= x < trees.len() ==> tree_fits(#[trigger] trees[x], wrapped_fragment(events_xml(done[x]), c)),
    ensures
        trees_fit(evs, c, trees),
{
    assert forall|x: int| 0 <= x < trees.len() implies tree_fits(
        #[trigger] trees[x],
        wrapped_fragment(events_xml(para_groups(evs, 0)[x]), c),
    ) by {
        assert(para_groups(evs, 0)[x] == done[x]);
    }
}

/// Lemma: where the rest of the rewrite is `res` for every choice of trees, the whole
/// rewrite is settled.
proof fn lemma_rewrite_settled(
    evs: Seq<XmlEvent>,
    err: Option<Seq<char>>,
    c: ContextView,
    planner: PlannerView,
    trees: Seq<Result<XmlTree, String>>,
    i: int,
    k: int,
    out: Seq<char>,
    reports: Seq<Seq<char>>,
    res: Result<(Seq<char>, Seq<Seq<char>>), Seq<char>>,
)
    requires
        rewrite_reached(evs, err, c, planner, trees, i, k, out, reports),
        forall|x: Seq<Result<XmlTree, String>>| #[trigger] rewrite_from(evs, err, i, k, c, planner, x, out, reports) == res,
    ensures
        rewrite_settled(evs, err, c, planner, trees, res),
{
    assert forall|rest: Seq<Result<XmlTree, String>>|
        #[trigger] rewrite_from(evs, err, 0, 0, c, planner, trees + rest, Seq::empty(), Seq::empty()) == res by {
        assert(rewrite_from(evs, err, i, k, c, planner, trees + rest, out, reports) == res);
    }
}

/// Lemma: where the rest is decided without another tree, the whole rewrite is decided.
proof fn lemma_rewrite_done(
    evs: Seq<XmlEvent>,
    err: Option<Seq<char>>,
    c: ContextView,
    planner: PlannerView,
    trees: Seq<Result<XmlTree, String>>,
    i: int,
    k: int,
    out: Seq<char>,
    reports: Seq<Seq<char>>,
)
    requires
        rewrite_reached(evs, err, c, planner, trees, i, k, out, reports),
    ensures
        rewrite_from(evs, err, 0, 0, c, planner, trees, Seq::empty(), Seq::empty())
            == rewrite_from(evs, err, i, k, c, planner, trees, out, reports),
{
    assert(trees + Seq::empty() =~= trees);
    assert(rewrite_from(evs, err, 0, 0, c, planner, trees + Seq::empty(), Seq::empty(), Seq::empty())
        == rewrite_from(evs, err, i, k, c, planner, trees + Seq::empty(), out, reports));
}

/// Lemma: an event outside paragraphs is written back as read.
proof fn lemma_rewrite_other(
    evs: Seq<XmlEvent>,
    err: Option<Seq<char>>,
    c: ContextView,
    planner: PlannerView,
    trees: Seq<Result<XmlTree, String>>,
    i: int,
    k: int,
    out: Seq<char>,
    reports: Seq<Seq<char>>,
)
    requires
        rewrite_reached(evs, err, c, planner, trees, i, k, out, reports),
        0 <= i < evs.len(),
        !(evs[i] is Eof),
        !is_paragraph_start(evs[i]),
    ensures
        rewrite_reached(evs, err, c, planner, trees, i + 1, k, out + event_xml(evs[i]), reports),
{
    assert forall|rest: Seq<Result<XmlTree, String>>|
        #[trigger] rewrite_from(evs, err, 0, 0, c, planner, trees + rest, Seq::empty(), Seq::empty())
            == rewrite_from(evs, err, i + 1, k, c, planner, trees + rest, out + event_xml(evs[i]), reports) by {
        assert(rewrite_from(evs, err, 0, 0, c, planner, trees + rest, Seq::empty(), Seq::empty())
            == rewrite_from(evs, err, i, k, c, planner, trees + rest, out, reports));
    }
}

/// Lemma: a paragraph, with the tree its fragment parsed to, becomes its piece.
proof fn lemma_rewrite_paragraph(
    evs: Seq<XmlEvent>,
    err: Option<Seq<char>>,
    c: ContextView,
    planner: PlannerView,
    trees: Seq<Result<XmlTree, String>>,
    tree: Result<XmlTree, String>,
    i: int,
    j: int,
    k: int,
    out: Seq<char>,
    reports: Seq<Seq<char>>,
)
    requires
        rewrite_reached(evs, err, c, planner, trees, i, k, out, reports),
        trees.len() == k,
        0 <= i < evs.len(),
        is_paragraph_start(evs[i]),
        para_close(evs, i + 1, 1) == ParaEnd::Closed(j),
    ensures
        ({
            let t2 = trees.push(tree);
            let piece = paragraph_piece(evs.subrange(i, j + 1), tree, k, c, planner);
            &&& rewrite_from(evs, err, 0, 0, c, planner, t2, Seq::empty(), Seq::empty()) == match piece {
                Err(m) => Err(m),
                Ok(p) => rewrite_from(evs, err, j + 1, k + 1, c, planner, t2, out + p.0, reports + p.1),
            }
            &&& piece matches Ok(p) ==> rewrite_reached(evs, err, c, planner, t2, j + 1, k + 1, out + p.0, reports + p.1)
            &&& piece matches Err(m) ==> rewrite_settled(evs, err, c, planner, t2, Err(m))
        }),
{
    let t2 = trees.push(tree);
    assert forall|rest: Seq<Result<XmlTree, String>>|
        #[trigger] rewrite_from(evs, err, 0, 0, c, planner, t2 + rest, Seq::empty(), Seq::empty())
            == rewrite_from(evs, err, i, k, c, planner, t2 + rest, out, reports) by {
        let rest0 = seq![tree] + rest;
        assert(trees + rest0 =~= t2 + rest);
        assert(rewrite_from(evs, err, 0, 0, c, planner, trees + rest0, Seq::empty(), Seq::empty())
            == rewrite_from(evs, err, i, k, c, planner, trees + rest0, out, reports));
        assert((t2 + rest)[k] == tree);
    }
    assert(t2 + Seq::empty() =~= t2);
    assert(rewrite_from(evs, err, 0, 0, c, planner, t2 + Seq::empty(), Seq::empty(), Seq::empty())
        == rewrite_from(evs, err, i, k, c, planner, t2 + Seq::empty(), out, reports));
    assert(t2[k] == tree);
    assert forall|rest: Seq<Result<XmlTree, String>>| (#[trigger] (t2 + rest))[k] == tree by {}
    let piece = paragraph_piece(evs.subrange(i, j + 1), tree, k, c, planner);
    if piece is Err {
        assert forall|rest: Seq<Result<XmlTree, String>>|
            #[trigger] rewrite_from(evs, err, 0, 0, c, planner, t2 + rest, Seq::empty(), Seq::empty()) == piece by {
            assert((t2 + rest)[k] == tree);
            assert(rewrite_from(evs, err, 0, 0, c, planner, t2 + rest, Seq::empty(), Seq::empty())
                == rewrite_from(evs, err, i, k, c, planner, t2 + rest, out, reports));
        }
    }
}

/// Rewrites a document body given its events, read up to the end or up to a reader
/// error `err`: events outside paragraphs are written back as read; each paragraph is
/// written back as a fragment, wrapped in a root that declares the document's
/// namespaces, parsed, planned (`planner`) and written with its plans applied, or
/// written back as read when it gets no plan. Returns the new text and the planner's
/// reports, or the first error: a text that ends inside a paragraph, a fragment that
/// does not parse or holds no paragraph, or the reader error.
pub fn rewrite_events(
    evs: &Vec<XmlEvent>,
    err: Option<String>,
    ctx: &NamespaceContext,
    planner: &Planner<'_>,
) -> (r: Result<(String, Vec<String>), String>)
    ensures
        exists|trees: Seq<Result<XmlTree, String>>|
            trees_fit(evs@, ctx@, trees) && rewrite_settled(
                evs@,
                opt_view(err),
                ctx@,
                planner@,
                trees,
                outcome_view(r),
            ),
{
    let ghost e = opt_view(err);
    let ghost c = ctx@;
    let ghost pl = planner@;
    let ghost ev = evs@;
    let ghost mut trees: Seq<Result<XmlTree, String>> = Seq::empty();
    let ghost mut done: Seq<Seq<XmlEvent>> = Seq::empty();
    let n = evs.len();
    let mut out: Vec<char> = Vec::new();
    let mut reports: Vec<String> = Vec::new();
    assert(strings_view(reports@) =~= Seq::<Seq<char>>::empty());
    assert(out@ =~= Seq::<char>::empty());
    assert(done + para_groups(ev, 0) =~= para_groups(ev, 0));
    let mut i: usize = 0;
    let mut k: usize = 0;
    while i < n
        invariant
            ev == evs@,
            n == ev.len(),
            e == opt_view(err),
            c == ctx@,
            pl == planner@,
            i <= n,
            k <= i,
            trees.len() == k,
            done.len() == k,
            para_groups(ev, 0) == done + para_groups(ev, i as int),
            forall|x: int| 0 <= x < k ==> tree_fits(#[trigger] trees[x], wrapped_fragment(events_xml(done[x]), c)),
            rewrite_reached(ev, e, c, pl, trees, i as int, k as int, out@, strings_view(reports@)),
        decreases n - i,
    {
        if matches!(evs[i], XmlEvent::Eof) {
            let r = Ok((string_from_chars(out.as_slice()), reports));
            proof {
                lemma_trees_fit(ev, c, trees, done, i as int);
                lemma_rewrite_settled(ev, e, c, pl, trees, i as int, k as int, out@, strings_view(reports@), outcome_view(r));
            }
            return r;
        }
        if starts_paragraph(&evs[i]) {
            let close = find_paragraph_end(evs, i + 1);
            let j = match close {
                ParagraphClose::At(j) => j,
                ParagraphClose::EofInside => {
                    let r = Err(crate::error::owned("Неожиданный конец XML внутри w:p"));
                    proof {
                        lemma_trees_fit(ev, c, trees, done, i as int);
                        lemma_rewrite_settled(ev, e, c, pl, trees, i as int, k as int, out@, strings_view(reports@), outcome_view(r));
                    }
                    return r;
                },
                ParagraphClose::Truncated => {
                    let r = match err {
                        Some(m) => Err(m),
                        None => Err(crate::error::owned("Неожиданный конец XML внутри w:p")),
                    };
                    proof {
                        lemma_trees_fit(ev, c, trees, done, i as int);
                        lemma_rewrite_settled(ev, e, c, pl, trees, i as int, k as int, out@, strings_view(reports@), outcome_view(r));
                    }
                    return r;
                },
            };
            proof {
                lemma_para_close_after(ev, i + 1, 1);
            }
            let ghost group = ev.subrange(i as int, j + 1);
            let mut frag: Vec<char> = Vec::new();
            let mut m: usize = i;
            while m <= j
                invariant
                    ev == evs@,
                    i <= m <= j + 1,
                    j < n,
                    n == ev.len(),
                    frag@ == events_xml(ev.subrange(i as int, m as int)),
                decreases j + 1 - m,
            {
                assert(ev.subrange(i as int, m + 1).drop_last() =~= ev.subrange(i as int, m as int));
                write_event(&evs[m], &mut frag);
                m += 1;
            }
            let fragment = string_from_chars(frag.as_slice());
            let wrapped = wrap_fragment_in_root(fragment.as_str(), ctx);
            let parsed = parse_xml_tree(wrapped.as_str());
            let ghost tree = parsed;
            let piece = paragraph_piece_exec(&frag, parsed, k, ctx, planner, Ghost(group));
            proof {
                lemma_rewrite_paragraph(ev, e, c, pl, trees, tree, i as int, j as int, k as int, out@, strings_view(reports@));
                assert(para_groups(ev, i as int) == seq![group] + para_groups(ev, j + 1));
                assert(done.push(group) + para_groups(ev, j + 1) =~= done + (seq![group] + para_groups(ev, j + 1)));
                assert(tree_fits(tree, wrapped_fragment(events_xml(group), c)));
                assert forall|x: int| 0 <= x < k + 1 implies tree_fits(
                    #[trigger] trees.push(tree)[x],
                    wrapped_fragment(events_xml(done.push(group)[x]), c),
                ) by {
                    if x < k {
                        assert(trees.push(tree)[x] == trees[x]);
                        assert(done.push(group)[x] == done[x]);
                    }
                }
                done = done.push(group);
            }
            match piece {
                Err(m) => {
                    proof {
                        lemma_trees_fit(ev, c, trees.push(tree), done, j + 1);
                    }
                    return Err(m);
                },
                Ok((text, mut reps)) => {
                    let ghost reps0 = strings_view(reports@);
                    append_chars(&mut out, text.as_slice());
                    let ghost rv = strings_view(reps@);
                    reports.append(&mut reps);
                    proof {
                        assert(strings_view(reports@) =~= reps0 + rv);
                        trees = trees.push(tree);
                    }
                    i = j + 1;
                    k = k + 1;
                },
            }
        } else {
            proof {
                lemma_rewrite_other(ev, e, c, pl, trees, i as int, k as int, out@, strings_view(reports@));
                assert(para_groups(ev, i as int) == para_groups(ev, i + 1));
            }
            write_event(&evs[i], &mut out);
            i += 1;
        }
    }
    let r = match err {
        Some(m) => Err(m),
        None => Ok((string_from_chars(out.as_slice()), reports)),
    };
    proof {
        lemma_trees_fit(ev, c, trees, done, i as int);
        lemma_rewrite_settled(ev, e, c, pl, trees, i as int, k as int, out@, strings_view(reports@), outcome_view(r));
    }
    r
}

/// Rewrites a document body (`word/document.xml`) paragraph by paragraph with a
/// planner: the document's namespaces are taken from its `w:document` element, its
/// events are read, and `rewrite_events` does the rest. Returns the new text and the
/// planner's reports. The outcome is the rewrite of the document's events
/// (`document_events`), with each paragraph's tree the parse of its wrapped fragment.
pub fn rewrite_document_xml_by_paragraph_with_index(xml: &str, planner: &Planner<'_>) -> (r: Result<
    (String, Vec<String>),
    String,
>)
    ensures
        exists|trees: Seq<Result<XmlTree, String>>|
            trees_fit(document_events(xml@).0, namespace_context_of(xml@), trees) && rewrite_settled(
                document_events(xml@).0,
                document_events(xml@).1,
                namespace_context_of(xml@),
                planner@,
                trees,
                outcome_view(r),
            ),
{
    let ctx = extract_namespace_context(xml);
    let (evs, err) = read_xml_events(xml);
    proof {
        assert(opt_view(err) == document_events(xml@).1);
    }
    rewrite_events(&evs, err, &ctx, planner)
}

/// The text of a rewrite, without the reports.
pub open spec fn text_of(r: Result<(Seq<char>, Seq<Seq<char>>), Seq<char>>) -> Result<Seq<char>, Seq<char>> {
    match r {
        Ok(v) => Ok(v.0),
        Err(e) => Err(e),
    }
}

/// The value of a text or an error.
pub open spec fn string_result_view(r: Result<String, String>) -> Result<Seq<char>, Seq<char>> {
    match r {
        Ok(v) => Ok(v@),
        Err(e) => Err(e@),
    }
}

/// Fills the placeholders of a document body with their values: in each paragraph,
/// every placeholder whose body has a value is replaced by the value, and a paragraph
/// without such a placeholder is written back as read (see `rewrite_events` with
/// `Planner::Fill`).
pub fn fill_docx_template(xml: &str, replacements: &FieldValues) -> (r: Result<String, String>)
    ensures
        exists|trees: Seq<Result<XmlTree, String>>, res: Result<(Seq<char>, Seq<Seq<char>>), Seq<char>>|
            {
                &&& trees_fit(document_events(xml@).0, namespace_context_of(xml@), trees)
                &&& rewrite_settled(
                    document_events(xml@).0,
                    document_events(xml@).1,
                    namespace_context_of(xml@),
                    PlannerView::Fill(*replacements),
                    trees,
                    res,
                )
                &&& string_result_view(r) == text_of(res)
            },
{
    let planner = Planner::Fill(replacements);
    let rewritten = rewrite_document_xml_by_paragraph_with_index(xml, &planner);
    let ghost res = outcome_view(rewritten);
    match rewritten {
        Ok((text, _)) => Ok(text),
        Err(e) => Err(e),
    }
}

/// The order in which constructor replacements are applied: by paragraph, and inside
/// a paragraph from the last position to the first.
pub open spec fn replacement_lt() -> spec_fn(Replacement, Replacement) -> bool {
    |a: Replacement, b: Replacement|
        a.paragraph_index < b.paragraph_index || (a.paragraph_index == b.paragraph_index
            && b.offset < a.offset)
}

/// Sorts replacements by paragraph, then from the last position to the first, keeping
/// the order of equal ones.
pub fn sort_replacements(reps: Vec<Replacement>) -> (r: Vec<Replacement>)
    ensures
        r@ == isort(reps@, replacement_lt()),
{
    let ghost orig = reps@;
    let total = reps.len();
    let mut rest = reps;
    let mut out: Vec<Replacement> = Vec::new();
    let mut k: usize = 0;
    assert(rest@ =~= orig.skip(0));
    while rest.len() > 0
        invariant
            orig.len() == total,
            k <= orig.len(),
            rest@ == orig.skip(k as int),
            out@ == isort(orig.take(k as int), replacement_lt()),
        decreases rest@.len(),
    {
        let ghost rest_seq = rest@;
        let x = rest.remove(0);
        assert(k < orig.len());
        let ghost outv = out@;
        assert(x == orig[k as int]) by {
            assert(rest_seq[0] == orig.skip(k as int)[0]);
        }
        let mut p: usize = 0;
        while p < out.len() && !(x.paragraph_index < out[p].paragraph_index || (x.paragraph_index
            == out[p].paragraph_index && out[p].offset < x.offset))
            invariant
                p <= out@.len(),
                outv == out@,
                forall|j: int| 0 <= j < p ==> !(replacement_lt())(x, #[trigger] outv[j]),
            decreases out@.len() - p,
        {
            p += 1;
        }
        proof {
            lemma_insert_pos_first(outv, x, replacement_lt(), p as int);
            let pre = orig.take(k + 1);
            assert(pre.drop_last() =~= orig.take(k as int));
            assert(pre.last() == x);
        }
        out.insert(p, x);
        proof {
            assert(rest@ =~= orig.skip(k + 1));
        }
        k += 1;
    }
    assert(orig.take(k as int) =~= orig);
    out
}

/// Lines joined with line breaks.
pub open spec fn join_lines(lines: Seq<Seq<char>>) -> Seq<char>
    decreases lines.len(),
{
    if lines.len() == 0 {
        Seq::empty()
    } else if lines.len() == 1 {
        lines[0]
    } else {
        join_lines(lines.drop_last()) + "\n"@ + lines.last()
    }
}

/// The error that lists the reports of replacements that could not be applied.
pub open spec fn msg_failed_replacements(reports: Seq<Seq<char>>) -> Seq<char> {
    "ошибки сохранения полей:\n"@ + join_lines(reports)
}

/// Whether an error of `apply_constructor_replacements` is the one that lists failed
/// replacements (it starts as `msg_failed_replacements` does).
pub fn lists_failed_replacements(message: &str) -> (r: bool)
    ensures
        r == crate::text::starts_with(message@, "ошибки сохранения полей:\n"@),
{
    let m = chars_of(message);
    let prefix = chars_of("ошибки сохранения полей:\n");
    crate::text::starts_with_chars(m.as_slice(), prefix.as_slice())
}

/// The outcome of applying constructor replacements, given the rewrite: the rewrite's
/// error; with reports and without `force`, the error listing them; else the text.
pub open spec fn constructor_outcome(
    rewritten: Result<(Seq<char>, Seq<Seq<char>>), Seq<char>>,
    force: bool,
) -> Result<Seq<char>, Seq<char>> {
    match rewritten {
        Err(e) => Err(e),
        Ok(v) => if !force && v.1.len() > 0 {
            Err(msg_failed_replacements(v.1))
        } else {
            Ok(v.0)
        },
    }
}

/// Joins strings with line breaks (see `join_lines`).
fn join_with_newlines(lines: &Vec<String>) -> (r: Vec<char>)
    ensures
        r@ == join_lines(strings_view(lines@)),
{
    let ghost lv = strings_view(lines@);
    let mut out: Vec<char> = Vec::new();
    let mut i: usize = 0;
    while i < lines.len()
        invariant
            lv == strings_view(lines@),
            i <= lines@.len(),
            out@ == join_lines(lv.take(i as int)),
        decreases lines@.len() - i,
    {
        let ghost pre = lv.take(i + 1);
        assert(pre.drop_last() =~= lv.take(i as int));
        assert(pre.last() == lines@[i as int]@);
        if i > 0 {
            crate::text::append_str(&mut out, "\n");
        }
        crate::text::append_str(&mut out, lines[i].as_str());
        proof {
            if i == 0 {
                assert(out@ =~= pre[0]);
            }
        }
        i += 1;
    }
    assert(lv.take(lv.len() as int) =~= lv);
    out
}

/// Applies the replacements chosen in the constructor to a document body: they are
/// sorted (by paragraph, then from the last position to the first) and each paragraph
/// with replacements is checked and rewritten (see `rewrite_events` with
/// `Planner::Constructor`). Replacements that do not match the text are reported; with
/// reports, the outcome is an error listing them unless `force` is set.
pub fn apply_constructor_replacements(xml: &str, replacements: Vec<Replacement>, force: bool) -> (r: Result<
    String,
    String,
>)
    ensures
        exists|trees: Seq<Result<XmlTree, String>>, res: Result<(Seq<char>, Seq<Seq<char>>), Seq<char>>|
            {
                &&& trees_fit(document_events(xml@).0, namespace_context_of(xml@), trees)
                &&& rewrite_settled(
                    document_events(xml@).0,
                    document_events(xml@).1,
                    namespace_context_of(xml@),
                    PlannerView::Constructor(isort(replacements@, replacement_lt())),
                    trees,
                    res,
                )
                &&& string_result_view(r) == constructor_outcome(res, force)
            },
{
    let sorted = sort_replacements(replacements);
    let planner = Planner::Constructor(&sorted);
    let rewritten = rewrite_document_xml_by_paragraph_with_index(xml, &planner);
    let ghost res = outcome_view(rewritten);
    match rewritten {
        Err(e) => Err(e),
        Ok((text, reports)) => {
            if !force && reports.len() > 0 {
                let mut m = chars_of("ошибки сохранения полей:\n");
                let joined = join_with_newlines(&reports);
                append_chars(&mut m, joined.as_slice());
                Err(string_from_chars(m.as_slice()))
            } else {
                Ok(text)
            }
        },
    }
}

} // verus!
