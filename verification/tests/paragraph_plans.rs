use docx_templates::fill::FieldValues;
use docx_templates::namespaces::{extract_namespace_context, qname_from_ns, wrap_fragment_in_root, XML_NS, WORD_NS};
use docx_templates::pattern::{find_placeholder_matches, parse_placeholder};
use docx_templates::plan::{
    analyze_paragraph, build_char_map, build_plan_from_offsets, cut_run_text, get_char_offset_in_run,
    sort_replace_plans, ReplacePlan, Replacement, TextNode,
};

fn s(x: &str) -> String {
    x.to_string()
}

fn node(run_idx: usize, text: &str) -> TextNode {
    TextNode { run_idx, text: s(text) }
}

fn plan(sr: usize, sc: usize, er: usize, ec: usize, insert: &str) -> ReplacePlan {
    ReplacePlan { start_run_idx: sr, start_char_in_run: sc, end_run_idx: er, end_char_in_run: ec, insert: s(insert) }
}

fn chars(x: &str) -> Vec<char> {
    x.chars().collect()
}

#[test]
fn char_map_points_back_to_pieces() {
    let nodes = vec![node(0, "ab"), node(0, "c"), node(1, "dé")];
    let (full, map) = build_char_map(&nodes);
    assert_eq!(full, "abcdé");
    assert_eq!(map, vec![(0, 0), (0, 1), (1, 0), (2, 0), (2, 1)]);
}

#[test]
fn char_offset_in_run_counts_earlier_pieces() {
    let nodes = vec![node(0, "ab"), node(0, "c"), node(1, "de")];
    assert_eq!(get_char_offset_in_run(&nodes, 0), 0);
    assert_eq!(get_char_offset_in_run(&nodes, 1), 2);
    assert_eq!(get_char_offset_in_run(&nodes, 2), 0);
}

#[test]
fn plan_from_offsets_spans_runs() {
    let nodes = vec![node(0, "ab"), node(0, "c"), node(1, "de")];
    let (_, map) = build_char_map(&nodes);
    assert_eq!(build_plan_from_offsets(&nodes, &map, 1, 4, s("X")), Some(plan(0, 1, 1, 1, "X")));
    assert_eq!(build_plan_from_offsets(&nodes, &map, 2, 3, s("Y")), Some(plan(0, 2, 0, 3, "Y")));
}

#[test]
fn plan_from_offsets_refuses_bad_ranges() {
    let nodes = vec![node(0, "ab")];
    let (_, map) = build_char_map(&nodes);
    assert_eq!(build_plan_from_offsets(&nodes, &map, 0, 0, s("X")), None);
    assert_eq!(build_plan_from_offsets(&nodes, &map, 0, 3, s("X")), None);
}

#[test]
fn plans_sort_by_run_then_character() {
    let mut plans = vec![plan(1, 0, 1, 1, "c"), plan(0, 5, 0, 6, "b"), plan(0, 1, 0, 2, "a"), plan(0, 5, 0, 7, "b2")];
    sort_replace_plans(&mut plans);
    let order: Vec<String> = plans.into_iter().map(|p| p.insert).collect();
    assert_eq!(order, vec![s("a"), s("b"), s("b2"), s("c")]);
}

#[test]
fn analyze_paragraph_plans_and_reports() {
    let nodes = vec![node(0, "Hello "), node(1, "World")];
    let reps = vec![
        Replacement { old: s("World"), insert: s("{{n}}"), paragraph_index: 0, offset: 6 },
        Replacement { old: s("Hello"), insert: s("x"), paragraph_index: 0, offset: 1 },
        Replacement { old: s(""), insert: s("z"), paragraph_index: 0, offset: 0 },
        Replacement { old: s("World!"), insert: s("y"), paragraph_index: 0, offset: 6 },
        Replacement { old: s("Hello"), insert: s("{{h}}"), paragraph_index: 0, offset: 0 },
    ];
    let (plans, errors) = analyze_paragraph(&nodes, &reps);
    assert_eq!(plans, vec![plan(0, 0, 0, 5, "{{h}}"), plan(1, 0, 1, 5, "{{n}}")]);
    assert_eq!(
        errors,
        vec![
            s("Параграф 0, позиция 1: ожидалось 'Hello', найдено 'ello '. Замена на 'x'"),
            s("Параграф 0: пустой фрагмент для замены"),
            s("В параграфе 0: позиция 6 + длина 6 превышает длину текста 11. Замена 'World!' на 'y'"),
        ]
    );
}

#[test]
fn run_text_is_cut_by_plans() {
    let text = chars("Hello World");
    let pieces = cut_run_text(&text, 0, &[plan(0, 6, 0, 11, "X")]);
    assert_eq!(pieces, vec![chars("Hello "), chars("X")]);
    let pieces = cut_run_text(&text, 0, &[plan(0, 0, 0, 5, "Hi")]);
    assert_eq!(pieces, vec![chars("Hi"), chars(" World")]);
}

#[test]
fn untouched_run_keeps_its_text() {
    let text = chars("Hello");
    let pieces = cut_run_text(&text, 1, &[plan(0, 0, 0, 3, "X"), plan(2, 0, 3, 1, "Y")]);
    assert_eq!(pieces, vec![chars("Hello")]);
}

#[test]
fn plan_across_runs_cuts_each_run() {
    let plans = [plan(0, 3, 1, 2, "X")];
    assert_eq!(cut_run_text(&chars("abcdef"), 0, &plans), vec![chars("abc"), chars("X")]);
    assert_eq!(cut_run_text(&chars("ghij"), 1, &plans), vec![chars("ij")]);
}

#[test]
fn placeholders_are_found_with_char_ranges() {
    let found = find_placeholder_matches("a {{ name:date:full }} b {x} {{}} {{ }} é{y}");
    let got: Vec<(usize, usize, String)> = found.into_iter().map(|m| (m.start_char, m.end_char, m.body)).collect();
    assert_eq!(got, vec![(2, 22, s("name:date:full")), (25, 28, s("x")), (41, 44, s("y"))]);
}

#[test]
fn placeholder_parts_default_to_text() {
    assert_eq!(parse_placeholder(" name : date : full : extra"), (s("name"), s("date"), Some(s("full"))));
    assert_eq!(parse_placeholder("x"), (s("x"), s("text"), None));
    assert_eq!(parse_placeholder("a::"), (s("a"), s(""), Some(s(""))));
}

#[test]
fn namespace_context_from_document_element() {
    let xml = "<?xml version=\"1.0\"?><w:document xmlns:w=\"W\" xmlns:r='R' xmlns=\"D\" xmlns:w=\"W\"><w:body/></w:document>";
    let ctx = extract_namespace_context(xml);
    assert_eq!(
        ctx.declarations,
        vec![(s("w"), s("W")), (s("r"), s("R")), (s(""), s("D")), (s("xml"), s(XML_NS))]
    );
    assert_eq!(
        ctx.uri_to_prefix,
        vec![(s("W"), s("w")), (s("R"), s("r")), (s("D"), s("")), (s(XML_NS), s("xml"))]
    );
}

#[test]
fn namespace_context_adds_word_namespace() {
    let ctx = extract_namespace_context("<doc/>");
    assert_eq!(ctx.declarations, vec![(s("w"), s(WORD_NS)), (s("xml"), s(XML_NS))]);
}

#[test]
fn qualified_names_use_document_prefixes() {
    let ctx = extract_namespace_context("<w:document xmlns:w=\"W\" xmlns=\"D\">");
    assert_eq!(qname_from_ns("p", Some("W"), &ctx), "w:p");
    assert_eq!(qname_from_ns("lang", Some(XML_NS), &ctx), "xml:lang");
    assert_eq!(qname_from_ns("x", None, &ctx), "x");
    assert_eq!(qname_from_ns("y", Some("D"), &ctx), "y");
    assert_eq!(qname_from_ns("z", Some("other"), &ctx), "z");
    let plain = extract_namespace_context("<doc/>");
    assert_eq!(qname_from_ns("t", Some(WORD_NS), &plain), "w:t");
}

#[test]
fn fragment_is_wrapped_with_declarations() {
    let ctx = extract_namespace_context("<w:document xmlns:w=\"W&\" xmlns=\"D\">");
    assert_eq!(
        wrap_fragment_in_root("<w:p/>", &ctx),
        format!("<root xmlns:w=\"W&amp;\" xmlns=\"D\" xmlns:xml=\"{}\"><w:p/></root>", XML_NS)
    );
}

#[test]
fn last_entered_value_wins() {
    let values = FieldValues { entries: vec![(s("a"), s("1")), (s("b"), s("2")), (s("a"), s("3"))] };
    assert_eq!(values.get("a"), Some(s("3")));
    assert_eq!(values.get("b"), Some(s("2")));
    assert_eq!(values.get("c"), None);
}
