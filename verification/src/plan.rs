//! Replacement planning inside a paragraph. Word splits the text of a paragraph into
//! runs (`w:r`), each with text pieces (`w:t`); a replacement is located by character
//! positions in the paragraph's whole text and mapped back to positions inside runs.
use vstd::prelude::*;
use crate::sort::{isort, lemma_insert_pos_first};
use crate::text::{append_chars, chars_of, decimal, string_from_chars};

verus! {

/// One text piece (`w:t`) of a paragraph, with the index of the run that holds it.
#[derive(Debug, Clone, PartialEq, Eq)]
pub struct TextNode {
    pub run_idx: usize,
    pub text: String,
}

/// A replacement located in runs: from character `start_char_in_run` of run
/// `start_run_idx` up to (not including) character `end_char_in_run` of run
/// `end_run_idx`, the text becomes `insert`.
#[derive(Debug, Clone, PartialEq, Eq)]
pub struct ReplacePlan {
    pub start_run_idx: usize,
    pub start_char_in_run: usize,
    pub end_run_idx: usize,
    pub end_char_in_run: usize,
    pub insert: String,
}

/// The mathematical value of a plan.
pub struct PlanView {
    pub start_run_idx: int,
    pub start_char_in_run: int,
    pub end_run_idx: int,
    pub end_char_in_run: int,
    pub insert: Seq<char>,
}

impl View for ReplacePlan {
    type V = PlanView;

    open spec fn view(&self) -> PlanView {
        PlanView {
            start_run_idx: self.start_run_idx as int,
            start_char_in_run: self.start_char_in_run as int,
            end_run_idx: self.end_run_idx as int,
            end_char_in_run: self.end_char_in_run as int,
            insert: self.insert@,
        }
    }
}

/// The views of a vector of plans.
pub open spec fn plans_view(v: Seq<ReplacePlan>) -> Seq<PlanView> {
    v.map_values(|p: ReplacePlan| p@)
}

/// The whole text of a paragraph: its pieces concatenated.
pub open spec fn full_text(nodes: Seq<TextNode>) -> Seq<char>
    decreases nodes.len(),
{
    if nodes.len() == 0 {
        Seq::empty()
    } else {
        full_text(nodes.drop_last()) + nodes.last().text@
    }
}

/// For each character of the whole text, the piece it comes from and its index in
/// that piece.
pub open spec fn char_map_of(nodes: Seq<TextNode>) -> Seq<(int, int)>
    decreases nodes.len(),
{
    if nodes.len() == 0 {
        Seq::empty()
    } else {
        char_map_of(nodes.drop_last()) + Seq::new(
            nodes.last().text@.len(),
            |j: int| (nodes.len() - 1, j),
        )
    }
}

/// A character map held in machine integers, as mathematical integers.
pub open spec fn map_view(v: Seq<(usize, usize)>) -> Seq<(int, int)> {
    v.map_values(|p: (usize, usize)| (p.0 as int, p.1 as int))
}

/// The number of characters in the pieces before piece `k` that belong to run `run`.
pub open spec fn run_offset(nodes: Seq<TextNode>, run: usize, k: int) -> int
    decreases k,
{
    if k <= 0 {
        0
    } else {
        run_offset(nodes, run, k - 1) + if nodes[k - 1].run_idx == run {
            nodes[k - 1].text@.len() as int
        } else {
            0
        }
    }
}

/// Where piece `idx` starts inside its run, in characters.
pub open spec fn offset_in_run(nodes: Seq<TextNode>, idx: int) -> int {
    run_offset(nodes, nodes[idx].run_idx, idx)
}

/// The plan for the characters `start..end` of the whole text.
pub open spec fn plan_at(
    nodes: Seq<TextNode>,
    start: int,
    end: int,
    insert: Seq<char>,
) -> PlanView {
    let map = char_map_of(nodes);
    let s = map[start];
    let e = map[end - 1];
    PlanView {
        start_run_idx: nodes[s.0].run_idx as int,
        start_char_in_run: offset_in_run(nodes, s.0) + s.1,
        end_run_idx: nodes[e.0].run_idx as int,
        end_char_in_run: offset_in_run(nodes, e.0) + e.1 + 1,
        insert: insert,
    }
}

/// Lemma: the character map has one entry per character, and each entry names a
/// piece and a character of that piece equal to the character of the whole text.
pub proof fn lemma_char_map(nodes: Seq<TextNode>)
    ensures
        char_map_of(nodes).len() == full_text(nodes).len(),
        forall|k: int| 0 <= k < full_text(nodes).len() ==> {
            let m = #[trigger] char_map_of(nodes)[k];
            &&& 0 <= m.0 < nodes.len()
            &&& 0 <= m.1 < nodes[m.0].text@.len()
            &&& full_text(nodes)[k] == nodes[m.0].text@[m.1]
            &&& full_text(nodes.take(m.0)).len() + m.1 == k
        },
    decreases nodes.len(),
{
    if nodes.len() > 0 {
        let prev = nodes.drop_last();
        let n = nodes.len() - 1;
        assert(full_text(nodes) == full_text(prev) + nodes[n].text@);
        lemma_char_map(prev);
        assert(nodes.take(n) =~= prev);
        assert forall|k: int| 0 <= k < full_text(nodes).len() implies {
            let m = #[trigger] char_map_of(nodes)[k];
            &&& 0 <= m.0 < nodes.len()
            &&& 0 <= m.1 < nodes[m.0].text@.len()
            &&& full_text(nodes)[k] == nodes[m.0].text@[m.1]
            &&& full_text(nodes.take(m.0)).len() + m.1 == k
        } by {
            let pl = full_text(prev).len();
            if k < pl {
                let m = char_map_of(prev)[k];
                assert(char_map_of(nodes)[k] == m);
                assert(prev[m.0] == nodes[m.0]);
                assert(nodes.take(m.0) =~= prev.take(m.0));
            } else {
                assert(char_map_of(nodes)[k] == (n, k - pl));
                assert(full_text(nodes)[k] == nodes[n].text@[k - pl]);
            }
        }
    }
}

/// Lemma: the run offset of piece `k` is at most the length of the text before it.
pub proof fn lemma_run_offset_bound(nodes: Seq<TextNode>, run: usize, k: int)
    requires
        0 <= k <= nodes.len(),
    ensures
        0 <= run_offset(nodes, run, k) <= full_text(nodes.take(k)).len(),
    decreases k,
{
    if k > 0 {
        lemma_run_offset_bound(nodes, run, k - 1);
        assert(nodes.take(k).drop_last() =~= nodes.take(k - 1));
    }
}

/// Lemma: the text before a piece and the piece itself fit in the whole text.
pub proof fn lemma_prefix_text_bound(nodes: Seq<TextNode>, k: int)
    requires
        0 <= k < nodes.len(),
    ensures
        full_text(nodes.take(k)).len() + nodes[k].text@.len() <= full_text(nodes).len(),
    decreases nodes.len(),
{
    if k < nodes.len() - 1 {
        let prev = nodes.drop_last();
        lemma_prefix_text_bound(prev, k);
        assert(prev.take(k) =~= nodes.take(k));
    } else {
        assert(nodes.take(k) =~= nodes.drop_last());
    }
}

/// Builds the whole text of a paragraph and its character map (see `full_text`
/// and `char_map_of`).
pub fn build_char_map(text_nodes: &[TextNode]) -> (r: (String, Vec<(usize, usize)>))
    ensures
        r.0@ == full_text(text_nodes@),
        map_view(r.1@) == char_map_of(text_nodes@),
{
    let mut full: Vec<char> = Vec::new();
    let mut map: Vec<(usize, usize)> = Vec::new();
    let mut i: usize = 0;
    while i < text_nodes.len()
        invariant
            i <= text_nodes@.len(),
            full@ == full_text(text_nodes@.take(i as int)),
            map_view(map@) == char_map_of(text_nodes@.take(i as int)),
        decreases text_nodes@.len() - i,
    {
        let cs = chars_of(text_nodes[i].text.as_str());
        let ghost full0 = full@;
        let ghost map0 = map_view(map@);
        let mut j: usize = 0;
        while j < cs.len()
            invariant
                j <= cs@.len(),
                full@ == full0 + cs@.take(j as int),
                map_view(map@) == map0 + Seq::new(j as nat, |jj: int| (i as int, jj)),
            decreases cs@.len() - j,
        {
            full.push(cs[j]);
            let ghost mv = map@;
            map.push((i, j));
            assert(map@ == mv.push((i, j)));
            assert(map_view(map@) =~= map_view(mv).push((i as int, j as int)));
            assert(full@ =~= full0 + cs@.take(j + 1));
            assert(map_view(map@) =~= map0 + Seq::new((j + 1) as nat, |jj: int| (i as int, jj)));
            j += 1;
        }
        proof {
            let pre = text_nodes@.take(i + 1);
            assert(pre.drop_last() =~= text_nodes@.take(i as int));
            assert(pre.last() == text_nodes@[i as int]);
            assert(cs@.take(cs@.len() as int) =~= cs@);
            assert(full@ =~= full_text(pre));
            assert(map_view(map@) =~= char_map_of(pre));
        }
        i += 1;
    }
    assert(text_nodes@.take(text_nodes@.len() as int) =~= text_nodes@);
    (string_from_chars(full.as_slice()), map)
}

/// Where piece `node_idx` starts inside its run: the number of characters of the
/// earlier pieces of the same run.
pub fn get_char_offset_in_run(text_nodes: &[TextNode], node_idx: usize) -> (r: usize)
    requires
        node_idx < text_nodes@.len(),
        full_text(text_nodes@).len() <= usize::MAX,
    ensures
        r == offset_in_run(text_nodes@, node_idx as int),
{
    let target_run_idx = text_nodes[node_idx].run_idx;
    let mut offset: usize = 0;
    let mut k: usize = 0;
    proof {
        lemma_prefix_text_bound(text_nodes@, node_idx as int);
    }
    while k < node_idx
        invariant
            k <= node_idx < text_nodes@.len(),
            target_run_idx == text_nodes@[node_idx as int].run_idx,
            full_text(text_nodes@.take(node_idx as int)).len() <= usize::MAX,
            offset == run_offset(text_nodes@, target_run_idx, k as int),
        decreases node_idx - k,
    {
        proof {
            lemma_run_offset_bound(text_nodes@, target_run_idx, k + 1);
            lemma_prefix_text_bound(text_nodes@.take(node_idx as int), k as int);
            assert(text_nodes@.take(node_idx as int).take(k as int) =~= text_nodes@.take(k as int));
            assert(text_nodes@.take(node_idx as int)[k as int] == text_nodes@[k as int]);
            assert(text_nodes@.take(k + 1).drop_last() =~= text_nodes@.take(k as int));
        }
        if text_nodes[k].run_idx == target_run_idx {
            let n = chars_of(text_nodes[k].text.as_str()).len();
            offset += n;
        }
        k += 1;
    }
    offset
}


/// Maps the characters `start_offset..end_offset` of the whole text to runs. There is
/// no plan when the range is empty at the start (`end_offset == 0`) or ends past the text.
pub fn build_plan_from_offsets(
    text_nodes: &[TextNode],
    char_map: &[(usize, usize)],
    start_offset: usize,
    end_offset: usize,
    insert: String,
) -> (r: Option<ReplacePlan>)
    requires
        map_view(char_map@) == char_map_of(text_nodes@),
        end_offset == 0 || end_offset > char_map@.len() || start_offset < char_map@.len(),
    ensures
        match r {
            Some(p) => 0 < end_offset <= char_map@.len() && p@ == plan_at(
                text_nodes@,
                start_offset as int,
                end_offset as int,
                insert@,
            ),
            None => end_offset == 0 || end_offset > char_map@.len(),
        },
{
    if end_offset == 0 || end_offset > char_map.len() {
        return None;
    }
    proof {
        lemma_char_map(text_nodes@);
    }
    let ghost nodes = text_nodes@;
    let ghost cm = char_map_of(nodes);
    let start = char_map[start_offset];
    let end = char_map[end_offset - 1];
    assert(cm[start_offset as int] == (start.0 as int, start.1 as int));
    assert(cm[end_offset - 1] == (end.0 as int, end.1 as int));
    proof {
        lemma_run_offset_bound(nodes, nodes[start.0 as int].run_idx, start.0 as int);
        lemma_run_offset_bound(nodes, nodes[end.0 as int].run_idx, end.0 as int);
    }
    let start_char_in_run = get_char_offset_in_run(text_nodes, start.0) + start.1;
    let end_char_in_run = get_char_offset_in_run(text_nodes, end.0) + end.1 + 1;
    Some(
        ReplacePlan {
            start_run_idx: text_nodes[start.0].run_idx,
            start_char_in_run,
            end_run_idx: text_nodes[end.0].run_idx,
            end_char_in_run,
            insert,
        },
    )
}

/// The order of plans: by start run, then by start character.
pub open spec fn plan_lt() -> spec_fn(PlanView, PlanView) -> bool {
    |a: PlanView, b: PlanView|
        a.start_run_idx < b.start_run_idx || (a.start_run_idx == b.start_run_idx
            && a.start_char_in_run < b.start_char_in_run)
}

/// Sorts plans by start run, then start character, keeping the order of equal ones.
pub fn sort_plans(plans: Vec<ReplacePlan>) -> (r: Vec<ReplacePlan>)
    ensures
        plans_view(r@) == isort(plans_view(plans@), plan_lt()),
{
    let ghost orig = plans_view(plans@);
    let total = plans.len();
    let mut rest = plans;
    let mut out: Vec<ReplacePlan> = Vec::new();
    let mut k: usize = 0;
    assert(plans_view(rest@) =~= orig.skip(0));
    while rest.len() > 0
        invariant
            orig.len() == total,
            k <= orig.len(),
            plans_view(rest@) == orig.skip(k as int),
            plans_view(out@) == isort(orig.take(k as int), plan_lt()),
        decreases rest@.len(),
    {
        let ghost rest_seq = rest@;
        assert(plans_view(rest_seq).len() == rest_seq.len());
        let x = rest.remove(0);
        assert(k < orig.len());
        let ghost xv = x@;
        let ghost outv = plans_view(out@);
        assert(xv == orig[k as int]) by {
            assert(plans_view(rest_seq)[0] == orig.skip(k as int)[0]);
        }
        let mut p: usize = 0;
        while p < out.len() && !(x.start_run_idx < out[p].start_run_idx || (x.start_run_idx
            == out[p].start_run_idx && x.start_char_in_run < out[p].start_char_in_run))
            invariant
                p <= out@.len(),
                outv == plans_view(out@),
                xv == x@,
                forall|j: int| 0 <= j < p ==> !(plan_lt())(xv, #[trigger] outv[j]),
            decreases out@.len() - p,
        {
            assert(outv[p as int] == out@[p as int]@);
            p += 1;
        }
        proof {
            if p < out@.len() {
                assert(outv[p as int] == out@[p as int]@);
            }
            lemma_insert_pos_first(outv, xv, plan_lt(), p as int);
            let pre = orig.take(k + 1);
            assert(pre.drop_last() =~= orig.take(k as int));
            assert(pre.last() == xv);
        }
        out.insert(p, x);
        proof {
            assert(plans_view(out@) =~= outv.insert(p as int, xv));
            assert forall|j: int| 0 <= j < rest@.len() implies plans_view(rest@)[j] == orig.skip(k + 1)[j] by {
                assert(rest@[j] == rest_seq[j + 1]);
                assert(plans_view(rest_seq)[j + 1] == orig.skip(k as int)[j + 1]);
            }
            assert(plans_view(rest@) =~= orig.skip(k + 1));
        }
        k += 1;
    }
    assert(orig.take(k as int) =~= orig);
    out
}

/// Sorts plans in place by start run, then start character, keeping the order of
/// equal ones (see `sort_plans`).
pub fn sort_replace_plans(plans: &mut Vec<ReplacePlan>)
    ensures
        plans_view(final(plans)@) == isort(plans_view(old(plans)@), plan_lt()),
{
    let mut taken: Vec<ReplacePlan> = Vec::new();
    std::mem::swap(&mut taken, plans);
    *plans = sort_plans(taken);
}


/// A replacement chosen in the constructor: in paragraph `paragraph_index`, the text
/// `old` found at character `offset` becomes `insert`.
#[derive(Debug, Clone, PartialEq, Eq)]
pub struct Replacement {
    pub old: String,
    pub insert: String,
    pub paragraph_index: usize,
    pub offset: usize,
}

/// The report for a replacement with nothing to replace.
pub open spec fn msg_empty_fragment(paragraph: nat) -> Seq<char> {
    "Параграф "@ + decimal(paragraph) + ": пустой фрагмент для замены"@
}

/// The report for a replacement that runs past the end of the paragraph.
pub open spec fn msg_past_end(rep: Replacement, old_len: nat, full_len: nat) -> Seq<char> {
    "В параграфе "@ + decimal(rep.paragraph_index as nat) + ": позиция "@ + decimal(
        rep.offset as nat,
    ) + " + длина "@ + decimal(old_len) + " превышает длину текста "@ + decimal(full_len)
        + ". Замена '"@ + rep.old@ + "' на '"@ + rep.insert@ + "'"@
}

/// The report for a replacement whose text is not found at its position.
pub open spec fn msg_mismatch(rep: Replacement, found: Seq<char>) -> Seq<char> {
    "Параграф "@ + decimal(rep.paragraph_index as nat) + ", позиция "@ + decimal(rep.offset as nat)
        + ": ожидалось '"@ + rep.old@ + "', найдено '"@ + found + "'. Замена на '"@ + rep.insert@
        + "'"@
}

/// The outcome of one replacement in a paragraph: a plan when its text is found at
/// its position, else a report.
pub open spec fn replacement_outcome(nodes: Seq<TextNode>, rep: Replacement) -> Result<
    PlanView,
    Seq<char>,
> {
    let full = full_text(nodes);
    let old_len = rep.old@.len();
    if old_len == 0 {
        Err(msg_empty_fragment(rep.paragraph_index as nat))
    } else if rep.offset + old_len > full.len() {
        Err(msg_past_end(rep, old_len, full.len()))
    } else if full.subrange(rep.offset as int, rep.offset + old_len) != rep.old@ {
        Err(msg_mismatch(rep, full.subrange(rep.offset as int, rep.offset + old_len)))
    } else {
        Ok(plan_at(nodes, rep.offset as int, rep.offset + old_len, rep.insert@))
    }
}

/// The plans of the replacements that apply, in the order of the replacements.
pub open spec fn outcome_plans(nodes: Seq<TextNode>, reps: Seq<Replacement>) -> Seq<PlanView>
    decreases reps.len(),
{
    if reps.len() == 0 {
        Seq::empty()
    } else {
        let prev = outcome_plans(nodes, reps.drop_last());
        match replacement_outcome(nodes, reps.last()) {
            Ok(p) => prev.push(p),
            Err(_) => prev,
        }
    }
}

/// The reports of the replacements that do not apply, in order.
pub open spec fn outcome_reports(nodes: Seq<TextNode>, reps: Seq<Replacement>) -> Seq<Seq<char>>
    decreases reps.len(),
{
    if reps.len() == 0 {
        Seq::empty()
    } else {
        let prev = outcome_reports(nodes, reps.drop_last());
        match replacement_outcome(nodes, reps.last()) {
            Ok(_) => prev,
            Err(m) => prev.push(m),
        }
    }
}

/// The report for a replacement (see `replacement_outcome`), as characters.
fn report_for(rep: &Replacement, old_len: usize, full_len: usize, full: &[char]) -> (r: Vec<char>)
    requires
        old_len == rep.old@.len(),
        full_len == full@.len(),
        old_len == 0 || rep.offset + old_len > full_len || full@.subrange(
            rep.offset as int,
            rep.offset + old_len,
        ) != rep.old@,
    ensures
        replacement_outcome_from(full@, *rep) == Err::<(), Seq<char>>(r@),
{
    let mut m: Vec<char> = Vec::new();
    if old_len == 0 {
        crate::text::append_str(&mut m, "Параграф ");
        crate::text::append_decimal(&mut m, rep.paragraph_index);
        crate::text::append_str(&mut m, ": пустой фрагмент для замены");
    } else if rep.offset > full_len || old_len > full_len - rep.offset {
        crate::text::append_str(&mut m, "В параграфе ");
        crate::text::append_decimal(&mut m, rep.paragraph_index);
        crate::text::append_str(&mut m, ": позиция ");
        crate::text::append_decimal(&mut m, rep.offset);
        crate::text::append_str(&mut m, " + длина ");
        crate::text::append_decimal(&mut m, old_len);
        crate::text::append_str(&mut m, " превышает длину текста ");
        crate::text::append_decimal(&mut m, full_len);
        crate::text::append_str(&mut m, ". Замена '");
        crate::text::append_str(&mut m, rep.old.as_str());
        crate::text::append_str(&mut m, "' на '");
        crate::text::append_str(&mut m, rep.insert.as_str());
        crate::text::append_str(&mut m, "'");
    } else {
        let found = crate::text::slice_chars(full, rep.offset, rep.offset + old_len);
        crate::text::append_str(&mut m, "Параграф ");
        crate::text::append_decimal(&mut m, rep.paragraph_index);
        crate::text::append_str(&mut m, ", позиция ");
        crate::text::append_decimal(&mut m, rep.offset);
        crate::text::append_str(&mut m, ": ожидалось '");
        crate::text::append_str(&mut m, rep.old.as_str());
        crate::text::append_str(&mut m, "', найдено '");
        append_chars(&mut m, found.as_slice());
        crate::text::append_str(&mut m, "'. Замена на '");
        crate::text::append_str(&mut m, rep.insert.as_str());
        crate::text::append_str(&mut m, "'");
    }
    m
}

/// `replacement_outcome` reduced to what decides between a plan and a report.
pub open spec fn replacement_outcome_from(full: Seq<char>, rep: Replacement) -> Result<(), Seq<char>> {
    let old_len = rep.old@.len();
    if old_len == 0 {
        Err(msg_empty_fragment(rep.paragraph_index as nat))
    } else if rep.offset + old_len > full.len() {
        Err(msg_past_end(rep, old_len, full.len()))
    } else if full.subrange(rep.offset as int, rep.offset + old_len) != rep.old@ {
        Err(msg_mismatch(rep, full.subrange(rep.offset as int, rep.offset + old_len)))
    } else {
        Ok(())
    }
}

/// Checks the replacements of one paragraph against its text. A replacement whose
/// text is found at its position becomes a plan; any other gets a report (empty
/// text, past the end of the paragraph, or another text found there). Returns the
/// plans sorted by start run and start character, and the reports in order.
pub fn analyze_paragraph(text_nodes: &[TextNode], reps: &[Replacement]) -> (r: (
    Vec<ReplacePlan>,
    Vec<String>,
))
    ensures
        plans_view(r.0@) == isort(outcome_plans(text_nodes@, reps@), plan_lt()),
        crate::text::strings_view(r.1@) == outcome_reports(text_nodes@, reps@),
{
    let (full_text_string, char_map) = build_char_map(text_nodes);
    let full = chars_of(full_text_string.as_str());
    let full_len = char_map.len();
    proof {
        lemma_char_map(text_nodes@);
    }
    let mut plans: Vec<ReplacePlan> = Vec::new();
    let mut errors: Vec<String> = Vec::new();
    let mut i: usize = 0;
    while i < reps.len()
        invariant
            i <= reps@.len(),
            full@ == full_text(text_nodes@),
            full_len == full@.len(),
            map_view(char_map@) == char_map_of(text_nodes@),
            char_map@.len() == full_len,
            plans_view(plans@) == outcome_plans(text_nodes@, reps@.take(i as int)),
            crate::text::strings_view(errors@) == outcome_reports(text_nodes@, reps@.take(i as int)),
        decreases reps@.len() - i,
    {
        let rep = &reps[i];
        let old_chars = chars_of(rep.old.as_str());
        let old_len = old_chars.len();
        let ghost pre = reps@.take(i + 1);
        assert(pre.drop_last() =~= reps@.take(i as int));
        assert(pre.last() == *rep);
        let fits = old_len != 0 && rep.offset <= full_len && old_len <= full_len - rep.offset;
        let matches = fits && {
            let found = crate::text::slice_chars(full.as_slice(), rep.offset, rep.offset + old_len);
            crate::text::eq_chars(found.as_slice(), old_chars.as_slice())
        };
        if matches {
            let plan = build_plan_from_offsets(
                text_nodes,
                char_map.as_slice(),
                rep.offset,
                rep.offset + old_len,
                rep.insert.clone(),
            );
            match plan {
                Some(p) => {
                    let ghost pv = plans_view(plans@);
                    plans.push(p);
                    assert(plans_view(plans@) =~= pv.push(p@));
                },
                None => {},
            }
        } else {
            let m = report_for(rep, old_len, full_len, full.as_slice());
            let ghost ev = crate::text::strings_view(errors@);
            errors.push(string_from_chars(m.as_slice()));
            assert(crate::text::strings_view(errors@) =~= ev.push(m@));
        }
        i += 1;
    }
    assert(reps@.take(reps@.len() as int) =~= reps@);
    let plans = sort_plans(plans);
    (plans, errors)
}


/// The state of the pass that cuts one run's text by the plans: the pieces so far,
/// the position reached in the run's text, and whether the pass has stopped.
pub struct CutState {
    pub pieces: Seq<Seq<char>>,
    pub cursor: int,
    pub done: bool,
}

/// The smaller of two integers.
pub open spec fn min_int(a: int, b: int) -> int {
    if a < b {
        a
    } else {
        b
    }
}

/// One plan's effect on the cutting of run `run` with text `text`:
/// plans that end before the run are skipped; a plan that starts after it stops the
/// pass; a plan that covers the run from before to after drops the rest of the text
/// and stops; a plan that starts in the run keeps the text up to its start, then its
/// insert, and goes on after its end (or to the end of the run if it ends later);
/// a plan that only ends in the run moves past its end.
pub open spec fn cut_step(st: CutState, p: PlanView, run: int, text: Seq<char>) -> CutState {
    let n = text.len() as int;
    if st.done || p.end_run_idx < run {
        st
    } else if p.start_run_idx > run {
        CutState { pieces: st.pieces, cursor: st.cursor, done: true }
    } else if p.start_run_idx < run && p.end_run_idx > run {
        CutState { pieces: st.pieces, cursor: n, done: true }
    } else if p.start_run_idx == run {
        let kept = if p.start_char_in_run > st.cursor {
            seq![text.subrange(st.cursor, min_int(p.start_char_in_run, n))]
        } else {
            Seq::empty()
        };
        CutState {
            pieces: st.pieces + kept + seq![p.insert],
            cursor: if p.end_run_idx == run {
                min_int(p.end_char_in_run, n)
            } else {
                n
            },
            done: false,
        }
    } else {
        CutState { pieces: st.pieces, cursor: min_int(p.end_char_in_run, n), done: false }
    }
}

/// The pass over all plans, from the start of the run's text.
pub open spec fn cut_fold(plans: Seq<PlanView>, run: int, text: Seq<char>) -> CutState
    decreases plans.len(),
{
    if plans.len() == 0 {
        CutState { pieces: Seq::empty(), cursor: 0, done: false }
    } else {
        cut_step(cut_fold(plans.drop_last(), run, text), plans.last(), run, text)
    }
}

/// The non-empty elements of `s`, in order.
pub open spec fn non_empty(s: Seq<Seq<char>>) -> Seq<Seq<char>>
    decreases s.len(),
{
    if s.len() == 0 {
        s
    } else if s.last().len() > 0 {
        non_empty(s.drop_last()).push(s.last())
    } else {
        non_empty(s.drop_last())
    }
}

/// The texts that replace run `run` (whose text is `text`), one new run each: the
/// pieces of the pass, then the rest of the text after the cursor, empty ones dropped.
pub open spec fn run_pieces(plans: Seq<PlanView>, run: int, text: Seq<char>) -> Seq<Seq<char>> {
    let st = cut_fold(plans, run, text);
    let all = if st.cursor < text.len() {
        st.pieces.push(text.skip(st.cursor))
    } else {
        st.pieces
    };
    non_empty(all)
}

/// The views of a vector of character vectors.
pub open spec fn char_vecs_view(v: Seq<Vec<char>>) -> Seq<Seq<char>> {
    v.map_values(|x: Vec<char>| x@)
}

/// Cuts the text of run `run_idx` by the plans (see `run_pieces`).
pub fn cut_run_text(text: &[char], run_idx: usize, plans: &[ReplacePlan]) -> (r: Vec<Vec<char>>)
    ensures
        char_vecs_view(r@) == run_pieces(plans_view(plans@), run_idx as int, text@),
{
    let n = text.len();
    let mut pieces: Vec<Vec<char>> = Vec::new();
    let mut cursor: usize = 0;
    let mut done = false;
    let mut i: usize = 0;
    let ghost pv = plans_view(plans@);
    while i < plans.len()
        invariant
            i <= plans@.len(),
            n == text@.len(),
            pv == plans_view(plans@),
            cursor <= n,
            ({
                let st = cut_fold(pv.take(i as int), run_idx as int, text@);
                &&& char_vecs_view(pieces@) == st.pieces
                &&& cursor as int == st.cursor
                &&& done == st.done
            }),
        decreases plans@.len() - i,
    {
        let plan = &plans[i];
        proof {
            let pre = pv.take(i + 1);
            assert(pre.drop_last() =~= pv.take(i as int));
            assert(pre.last() == plan@);
        }
        if done || plan.end_run_idx < run_idx {
        } else if plan.start_run_idx > run_idx {
            done = true;
        } else if plan.start_run_idx < run_idx && plan.end_run_idx > run_idx {
            cursor = n;
            done = true;
        } else if plan.start_run_idx == run_idx {
            let ghost before = char_vecs_view(pieces@);
            if plan.start_char_in_run > cursor {
                let stop = if plan.start_char_in_run < n { plan.start_char_in_run } else { n };
                let kept = crate::text::slice_chars(text, cursor, stop);
                pieces.push(kept);
            }
            let ins = chars_of(plan.insert.as_str());
            pieces.push(ins);
            proof {
                let n_i = n as int;
                let kept_s = if plan.start_char_in_run > cursor {
                    seq![text@.subrange(cursor as int, min_int(plan.start_char_in_run as int, n_i))]
                } else {
                    Seq::empty()
                };
                assert(char_vecs_view(pieces@) =~= before + kept_s + seq![plan.insert@]);
            }
            if plan.end_run_idx == run_idx {
                cursor = if plan.end_char_in_run < n { plan.end_char_in_run } else { n };
            } else {
                cursor = n;
            }
        } else {
            cursor = if plan.end_char_in_run < n { plan.end_char_in_run } else { n };
        }
        i += 1;
    }
    assert(pv.take(plans@.len() as int) =~= pv);
    let ghost before = char_vecs_view(pieces@);
    if cursor < n {
        let tail = crate::text::slice_chars(text, cursor, n);
        pieces.push(tail);
        assert(text@.subrange(cursor as int, n as int) =~= text@.skip(cursor as int));
        assert(char_vecs_view(pieces@) =~= before.push(text@.skip(cursor as int)));
    }
    let ghost all = char_vecs_view(pieces@);
    let mut out: Vec<Vec<char>> = Vec::new();
    let mut rest = pieces;
    let total = rest.len();
    let mut k: usize = 0;
    assert(char_vecs_view(rest@) =~= all.skip(0));
    while rest.len() > 0
        invariant
            all.len() == total,
            k <= all.len(),
            char_vecs_view(rest@) == all.skip(k as int),
            char_vecs_view(out@) == non_empty(all.take(k as int)),
        decreases rest@.len(),
    {
        let ghost rest_seq = rest@;
        assert(char_vecs_view(rest_seq).len() == rest_seq.len());
        let x = rest.remove(0);
        assert(k < all.len());
        assert(x@ == all[k as int]) by {
            assert(char_vecs_view(rest_seq)[0] == all.skip(k as int)[0]);
        }
        let ghost pre = all.take(k + 1);
        assert(pre.drop_last() =~= all.take(k as int));
        if x.len() > 0 {
            let ghost ov = char_vecs_view(out@);
            out.push(x);
            assert(char_vecs_view(out@) =~= ov.push(pre.last()));
        }
        proof {
            assert forall|j: int| 0 <= j < rest@.len() implies char_vecs_view(rest@)[j] == all.skip(k + 1)[j] by {
                assert(rest@[j] == rest_seq[j + 1]);
                assert(char_vecs_view(rest_seq)[j + 1] == all.skip(k as int)[j + 1]);
            }
            assert(char_vecs_view(rest@) =~= all.skip(k + 1));
        }
        k += 1;
    }
    assert(all.take(k as int) =~= all);
    out
}

/// Whether some plan starts before run `run` and ends at or after it: a proofing
/// mark (`w:proofErr`) at that run lies inside a replaced range.
pub open spec fn inside_some_plan(plans: Seq<PlanView>, run: int) -> bool {
    exists|j: int| 0 <= j < plans.len() && plans[j].start_run_idx < run && run <= plans[j].end_run_idx
}

/// Whether some plan covers run `run`: it starts at or before it and ends at or after it.
pub open spec fn touches_run(plans: Seq<PlanView>, run: int) -> bool {
    exists|j: int| 0 <= j < plans.len() && plans[j].start_run_idx <= run && run <= plans[j].end_run_idx
}

/// Whether some plan covers run `run_idx` (see `touches_run`).
pub fn any_plan_touches(plans: &[ReplacePlan], run_idx: usize) -> (r: bool)
    ensures
        r == touches_run(plans_view(plans@), run_idx as int),
{
    let mut i: usize = 0;
    while i < plans.len()
        invariant
            i <= plans@.len(),
            forall|j: int| 0 <= j < i ==> !(plans@[j].start_run_idx <= run_idx && run_idx <= plans@[j].end_run_idx),
        decreases plans@.len() - i,
    {
        if plans[i].start_run_idx <= run_idx && run_idx <= plans[i].end_run_idx {
            assert(plans_view(plans@)[i as int] == plans@[i as int]@);
            return true;
        }
        i += 1;
    }
    proof {
        if touches_run(plans_view(plans@), run_idx as int) {
            let j = choose|j: int| 0 <= j < plans_view(plans@).len() && plans_view(plans@)[j].start_run_idx <= run_idx && run_idx <= plans_view(plans@)[j].end_run_idx;
            assert(plans_view(plans@)[j] == plans@[j]@);
        }
    }
    false
}

/// Whether a proofing mark before run `run_idx` lies inside a replaced range.
pub fn inside_any_plan(plans: &[ReplacePlan], run_idx: usize) -> (r: bool)
    ensures
        r == inside_some_plan(plans_view(plans@), run_idx as int),
{
    let mut i: usize = 0;
    while i < plans.len()
        invariant
            i <= plans@.len(),
            forall|j: int| 0 <= j < i ==> !(plans@[j].start_run_idx < run_idx && run_idx <= plans@[j].end_run_idx),
        decreases plans@.len() - i,
    {
        if plans[i].start_run_idx < run_idx && run_idx <= plans[i].end_run_idx {
            assert(plans_view(plans@)[i as int] == plans@[i as int]@);
            return true;
        }
        i += 1;
    }
    proof {
        if inside_some_plan(plans_view(plans@), run_idx as int) {
            let j = choose|j: int| 0 <= j < plans_view(plans@).len() && plans_view(plans@)[j].start_run_idx < run_idx && run_idx <= plans_view(plans@)[j].end_run_idx;
            assert(plans_view(plans@)[j] == plans@[j]@);
        }
    }
    false
}

} // verus!
