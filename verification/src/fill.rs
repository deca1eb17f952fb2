//! Filling placeholders: the values entered for each placeholder body, and the plans
//! that put them in place of the placeholders of a paragraph.
use vstd::prelude::*;
use crate::pattern::{find_placeholder_matches, placeholders_in};
use crate::plan::{build_char_map, build_plan_from_offsets, char_map_of, full_text, map_view, plan_at, plan_lt, plans_view, sort_plans, PlanView, ReplacePlan};
use crate::sort::isort;
use crate::text::{chars_of, eq_chars};
use crate::tree::{collect_text_nodes, paragraph_text_nodes, text_nodes_view, XmlTree};

verus! {

/// Values by key, as entered: when a key appears more than once, the last entry counts
/// (as with a map filled in order).
#[derive(Debug, Clone, PartialEq, Eq)]
pub struct FieldValues {
    pub entries: Vec<(String, String)>,
}

/// The value of `key` among the first `k` entries: the last one with that key.
pub open spec fn value_in(entries: Seq<(String, String)>, key: Seq<char>, k: int) -> Option<Seq<char>>
    decreases k,
{
    if k <= 0 {
        None
    } else if entries[k - 1].0@ == key {
        Some(entries[k - 1].1@)
    } else {
        value_in(entries, key, k - 1)
    }
}

impl FieldValues {
    /// The value of `key`, if any.
    pub open spec fn value_of(&self, key: Seq<char>) -> Option<Seq<char>> {
        value_in(self.entries@, key, self.entries@.len() as int)
    }

    /// The value of `key`, if any (see `value_of`).
    pub fn get(&self, key: &str) -> (r: Option<String>)
        ensures
            match r {
                Some(v) => self.value_of(key@) == Some(v@),
                None => self.value_of(key@) is None,
            },
    {
        let k = chars_of(key);
        let mut i = self.entries.len();
        while i > 0
            invariant
                i <= self.entries@.len(),
                k@ == key@,
                self.value_of(key@) == value_in(self.entries@, key@, i as int),
            decreases i,
        {
            let e = chars_of(self.entries[i - 1].0.as_str());
            if eq_chars(e.as_slice(), k.as_slice()) {
                return Some(self.entries[i - 1].1.clone());
            }
            i -= 1;
        }
        None
    }
}

/// The plans that fill the placeholders of `text_nodes` (at most the first `k`
/// placeholders), in the order found: each placeholder with a value gets a plan
/// that puts the value in place of the whole placeholder.
pub open spec fn fill_plans_upto(
    nodes: Seq<crate::plan::TextNode>,
    found: Seq<(int, int, Seq<char>)>,
    values: FieldValues,
    k: int,
) -> Seq<PlanView>
    decreases k,
{
    if k <= 0 {
        Seq::empty()
    } else {
        let prev = fill_plans_upto(nodes, found, values, k - 1);
        let m = found[k - 1];
        match values.value_of(m.2) {
            Some(v) => if 0 <= m.0 < m.1 <= full_text(nodes).len() {
                prev.push(plan_at(nodes, m.0, m.1, v))
            } else {
                prev
            },
            None => prev,
        }
    }
}

/// The plans that fill paragraph `p`, sorted by start run and start character.
pub open spec fn fill_plans(t: XmlTree, p: int, values: FieldValues) -> Seq<PlanView> {
    let nodes = text_nodes_of_paragraph(t, p);
    let found = placeholders_in(full_text(nodes));
    isort(fill_plans_upto(nodes, found, values, found.len() as int), plan_lt())
}

/// The text pieces of paragraph `p` as `TextNode`s (one with each view of
/// `paragraph_text_nodes`).
pub open spec fn text_nodes_of_paragraph(t: XmlTree, p: int) -> Seq<crate::plan::TextNode> {
    choose|v: Seq<crate::plan::TextNode>| text_nodes_view(v) == paragraph_text_nodes(t, p)
}

/// Lemma: the whole text and the character map depend only on the views of the pieces.
pub proof fn lemma_text_of_views(a: Seq<crate::plan::TextNode>, b: Seq<crate::plan::TextNode>)
    requires
        text_nodes_view(a) == text_nodes_view(b),
    ensures
        full_text(a) == full_text(b),
        char_map_of(a) == char_map_of(b),
    decreases a.len(),
{
    assert(a.len() == text_nodes_view(a).len());
    assert(b.len() == text_nodes_view(b).len());
    if a.len() > 0 {
        assert(text_nodes_view(a.drop_last()) =~= text_nodes_view(a).drop_last());
        assert(text_nodes_view(b.drop_last()) =~= text_nodes_view(b).drop_last());
        lemma_text_of_views(a.drop_last(), b.drop_last());
        assert(text_nodes_view(a)[a.len() - 1] == text_nodes_view(b)[a.len() - 1]);
    }
}

/// Lemma: run offsets depend only on the views of the pieces.
pub proof fn lemma_run_offset_views(a: Seq<crate::plan::TextNode>, b: Seq<crate::plan::TextNode>, run: usize, j: int)
    requires
        text_nodes_view(a) == text_nodes_view(b),
        0 <= j <= a.len(),
    ensures
        crate::plan::run_offset(a, run, j) == crate::plan::run_offset(b, run, j),
    decreases j,
{
    assert(a.len() == text_nodes_view(a).len());
    assert(b.len() == text_nodes_view(b).len());
    if j > 0 {
        lemma_run_offset_views(a, b, run, j - 1);
        assert(text_nodes_view(a)[j - 1] == text_nodes_view(b)[j - 1]);
    }
}

/// Lemma: a plan depends only on the views of the pieces.
pub proof fn lemma_plan_at_views(a: Seq<crate::plan::TextNode>, b: Seq<crate::plan::TextNode>, s: int, e: int, ins: Seq<char>)
    requires
        text_nodes_view(a) == text_nodes_view(b),
        0 <= s < e <= full_text(a).len(),
    ensures
        plan_at(a, s, e, ins) == plan_at(b, s, e, ins),
{
    lemma_text_of_views(a, b);
    crate::plan::lemma_char_map(a);
    assert(a.len() == text_nodes_view(a).len());
    assert(b.len() == text_nodes_view(b).len());
    let m0 = char_map_of(a)[s];
    let m1 = char_map_of(a)[e - 1];
    assert(text_nodes_view(a)[m0.0] == text_nodes_view(b)[m0.0]);
    assert(text_nodes_view(a)[m1.0] == text_nodes_view(b)[m1.0]);
    lemma_run_offset_views(a, b, a[m0.0].run_idx, m0.0);
    lemma_run_offset_views(a, b, a[m1.0].run_idx, m1.0);
}

/// Lemma: the fill plans depend only on the views of the pieces.
pub proof fn lemma_fill_plans_views(
    a: Seq<crate::plan::TextNode>,
    b: Seq<crate::plan::TextNode>,
    found: Seq<(int, int, Seq<char>)>,
    values: FieldValues,
    k: int,
)
    requires
        text_nodes_view(a) == text_nodes_view(b),
        0 <= k <= found.len(),
    ensures
        fill_plans_upto(a, found, values, k) == fill_plans_upto(b, found, values, k),
    decreases k,
{
    if k > 0 {
        lemma_fill_plans_views(a, b, found, values, k - 1);
        lemma_text_of_views(a, b);
        let m = found[k - 1];
        if 0 <= m.0 < m.1 <= full_text(a).len() {
            if values.value_of(m.2) is Some {
                lemma_plan_at_views(a, b, m.0, m.1, values.value_of(m.2)->0);
            }
        }
    }
}

/// The plans that fill the placeholders of paragraph `p` with their values: every
/// placeholder whose body has a value is replaced whole by the value. Sorted by start
/// run and start character.
pub fn build_fill_plans(t: &XmlTree, p: usize, values: &FieldValues) -> (r: Vec<ReplacePlan>)
    requires
        t.wf(),
        p < t.len(),
    ensures
        plans_view(r@) == fill_plans(*t, p as int, *values),
{
    let text_nodes = collect_text_nodes(t, p);
    let (full, char_map) = build_char_map(text_nodes.as_slice());
    let found = find_placeholder_matches(full.as_str());
    let ghost nodes = text_nodes@;
    let ghost fv = crate::pattern::matches_view(found@);
    proof {
        crate::plan::lemma_char_map(nodes);
    }
    let mut plans: Vec<ReplacePlan> = Vec::new();
    let mut k: usize = 0;
    while k < found.len()
        invariant
            k <= found@.len(),
            nodes == text_nodes@,
            full@ == full_text(nodes),
            map_view(char_map@) == char_map_of(nodes),
            char_map@.len() == full_text(nodes).len(),
            fv == crate::pattern::matches_view(found@),
            forall|i: int| 0 <= i < found@.len() ==> (#[trigger] found@[i]).start_char <= found@[i].end_char <= full@.len(),
            plans_view(plans@) == fill_plans_upto(nodes, fv, *values, k as int),
        decreases found@.len() - k,
    {
        let m = &found[k];
        assert(fv[k as int] == (m.start_char as int, m.end_char as int, m.body@));
        match values.get(m.body.as_str()) {
            Some(v) => {
                if m.start_char < m.end_char {
                    let plan = build_plan_from_offsets(
                        text_nodes.as_slice(),
                        char_map.as_slice(),
                        m.start_char,
                        m.end_char,
                        v,
                    );
                    match plan {
                        Some(pl) => {
                            let ghost pv = plans_view(plans@);
                            plans.push(pl);
                            assert(plans_view(plans@) =~= pv.push(pl@));
                        },
                        None => {},
                    }
                }
            },
            None => {},
        }
        k += 1;
    }
    proof {
        let chosen = text_nodes_of_paragraph(*t, p as int);
        assert(text_nodes_view(nodes) == paragraph_text_nodes(*t, p as int));
        lemma_text_of_views(nodes, chosen);
        lemma_fill_plans_views(nodes, chosen, fv, *values, fv.len() as int);
    }
    sort_plans(plans)
}

} // verus!
