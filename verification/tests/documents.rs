use docx_templates::document::{
    apply_constructor_replacements, fill_docx_template, lists_failed_replacements, rewrite_document_xml_by_paragraph_with_index,
    rewrite_events, sort_replacements, Planner,
};
use docx_templates::events::XmlEvent;
use docx_templates::fill::FieldValues;
use docx_templates::html::docx_xml_to_html;
use docx_templates::namespaces::extract_namespace_context;
use docx_templates::placeholders::{build_placeholder_structs, get_placeholders_from_template, Placeholder};
use docx_templates::plan::Replacement;
use docx_templates::values::{format_form_value, format_value, FormValue};

const W: &str = "http://schemas.openxmlformats.org/wordprocessingml/2006/main";

fn s(x: &str) -> String {
    x.to_string()
}

fn doc(body: &str) -> String {
    format!("<w:document xmlns:w=\"{W}\"><w:body>{body}</w:body></w:document>")
}

fn values(pairs: &[(&str, &str)]) -> FieldValues {
    FieldValues { entries: pairs.iter().map(|(k, v)| (s(k), s(v))).collect() }
}

fn rep(old: &str, insert: &str, paragraph_index: usize, offset: usize) -> Replacement {
    Replacement { old: s(old), insert: s(insert), paragraph_index, offset }
}

#[test]
fn fill_replaces_placeholder_inside_a_run() {
    let xml = doc("<w:p><w:r><w:t>Hello {{name}}!</w:t></w:r></w:p>");
    let out = fill_docx_template(&xml, &values(&[("name", "World")]));
    assert_eq!(
        out,
        Ok(doc(&[
            "<w:p><w:r><w:t xml:space=\"preserve\">Hello </w:t></w:r>",
            "<w:r><w:t xml:space=\"preserve\">World</w:t></w:r>",
            "<w:r><w:t xml:space=\"preserve\">!</w:t></w:r></w:p>"
        ].concat()))
    );
}

#[test]
fn fill_escapes_values_and_keeps_formatting() {
    let xml = doc("<w:p w:rsidR=\"1\"><w:r><w:rPr><w:b/></w:rPr><w:t>{{v}}</w:t></w:r></w:p>");
    let out = fill_docx_template(&xml, &values(&[("v", "<a & 'b'>")]));
    assert_eq!(
        out,
        Ok(doc(&[
            "<w:p w:rsidR=\"1\"><w:r><w:rPr><w:b></w:b></w:rPr>",
            "<w:t xml:space=\"preserve\">&lt;a &amp; &apos;b&apos;&gt;</w:t></w:r></w:p>"
        ].concat()))
    );
}

#[test]
fn fill_joins_placeholder_split_over_runs() {
    let xml = doc("<w:p><w:r><w:t>A {{na</w:t></w:r><w:proofErr w:type=\"x\"/><w:r><w:t>me}} B</w:t></w:r></w:p>");
    let out = fill_docx_template(&xml, &values(&[("name", "Z")]));
    assert_eq!(
        out,
        Ok(doc(&[
            "<w:p><w:r><w:t xml:space=\"preserve\">A </w:t></w:r>",
            "<w:r><w:t xml:space=\"preserve\">Z</w:t></w:r>",
            "<w:r><w:t xml:space=\"preserve\"> B</w:t></w:r></w:p>"
        ].concat()))
    );
}

#[test]
fn fill_without_values_keeps_the_text() {
    let xml = format!(
        "<?xml version=\"1.0\" encoding=\"UTF-8\"?>\n{}",
        doc("<w:p><w:r><w:t>{{a}} and {{b}}</w:t></w:r></w:p><w:p/>")
    );
    assert_eq!(fill_docx_template(&xml, &values(&[])), Ok(xml.clone()));
    assert_eq!(fill_docx_template(&xml, &values(&[("other", "x")])), Ok(xml));
}

#[test]
fn fill_reports_unclosed_paragraph() {
    let xml = format!("<w:document xmlns:w=\"{W}\"><w:body><w:p><w:r>");
    assert_eq!(fill_docx_template(&xml, &values(&[])), Err(s("Неожиданный конец XML внутри w:p")));
}

#[test]
fn constructor_puts_placeholders_in_place() {
    let xml = doc("<w:p><w:r><w:t>Hello World</w:t></w:r></w:p><w:p><w:r><w:t>Second</w:t></w:r></w:p>");
    let out = apply_constructor_replacements(
        &xml,
        vec![rep("Second", "{{s}}", 1, 0), rep("World", "{{name}}", 0, 6), rep("Hello", "{{h}}", 0, 0)],
        false,
    );
    assert_eq!(
        out,
        Ok(doc(&[
            "<w:p><w:r><w:t xml:space=\"preserve\">{{h}}</w:t></w:r>",
            "<w:r><w:t xml:space=\"preserve\"> </w:t></w:r>",
            "<w:r><w:t xml:space=\"preserve\">{{name}}</w:t></w:r></w:p>",
            "<w:p><w:r><w:t xml:space=\"preserve\">{{s}}</w:t></w:r></w:p>"
        ].concat()))
    );
}

#[test]
fn constructor_reports_mismatches_unless_forced() {
    let xml = doc("<w:p><w:r><w:t>Hello World</w:t></w:r></w:p>");
    let reps = vec![rep("World", "{{name}}", 0, 0), rep("", "{{x}}", 0, 3)];
    assert_eq!(
        apply_constructor_replacements(&xml, reps.clone(), false),
        Err(s(&[
            "ошибки сохранения полей:\n",
            "Параграф 0: пустой фрагмент для замены\n",
            "Параграф 0, позиция 0: ожидалось 'World', найдено 'Hello'. Замена на '{{name}}'"
        ].concat()))
    );
    assert_eq!(apply_constructor_replacements(&xml, reps, true), Ok(xml.clone()));
}

#[test]
fn constructor_without_replacements_keeps_the_text() {
    let xml = doc("<w:p><w:r><w:t>a</w:t></w:r></w:p><!-- c --><w:tbl/>");
    assert_eq!(apply_constructor_replacements(&xml, vec![], false), Ok(xml.clone()));
}

#[test]
fn replacements_sort_by_paragraph_then_last_position_first() {
    let sorted = sort_replacements(vec![rep("a", "", 1, 0), rep("b", "", 0, 2), rep("c", "", 0, 7), rep("d", "", 0, 2)]);
    let order: Vec<String> = sorted.into_iter().map(|r| r.old).collect();
    assert_eq!(order, vec![s("c"), s("b"), s("d"), s("a")]);
}

#[test]
fn rewrite_reports_reader_error_after_events() {
    let ctx = extract_namespace_context("");
    let reps: Vec<Replacement> = vec![];
    let planner = Planner::Constructor(&reps);
    let evs = vec![XmlEvent::Text(s("abc"))];
    assert_eq!(rewrite_events(&evs, Some(s("bad xml")), &ctx, &planner), Err(s("bad xml")));
    let evs = vec![XmlEvent::Text(s("abc")), XmlEvent::Comment(s(" x ")), XmlEvent::Eof];
    assert_eq!(rewrite_events(&evs, None, &ctx, &planner), Ok((s("abc<!-- x -->"), vec![])));
}

#[test]
fn rewrite_with_index_returns_reports() {
    let xml = doc("<w:p><w:r><w:t>ab</w:t></w:r></w:p>");
    let reps = vec![rep("x", "y", 0, 0)];
    let planner = Planner::Constructor(&reps);
    assert_eq!(
        rewrite_document_xml_by_paragraph_with_index(&xml, &planner),
        Ok((xml.clone(), vec![s("Параграф 0, позиция 0: ожидалось 'x', найдено 'a'. Замена на 'y'")]))
    );
}

#[test]
fn preview_shows_paragraphs_tables_and_badges() {
    let xml = doc(&[
        "<w:p><w:r><w:t>Hi {{name:text}} &amp; co</w:t></w:r></w:p>",
        "<w:tbl><w:tr><w:tc><w:p><w:r><w:t>cell</w:t></w:r></w:p></w:tc></w:tr></w:tbl>",
        "<w:sectPr/>"
    ].concat());
    assert_eq!(
        docx_xml_to_html(&xml),
        Ok(s(&[
            "<p data-para-index=\"0\">Hi <span class=\"placeholder\" data-ph=\"name:text\" contenteditable=\"false\">name</span> &amp; co</p>",
            "<table class=\"table table-bordered\"><tr><td><p data-para-index=\"1\">cell</p></td></tr></table>"
        ].concat()))
    );
}

#[test]
fn preview_of_malformed_xml_fails() {
    assert!(docx_xml_to_html("<w:document>").is_err());
    assert_eq!(docx_xml_to_html("<doc/>"), Ok(s("")));
}

#[test]
fn placeholders_are_listed_once_in_order() {
    let xml = doc(&[
        "<w:p><w:r><w:t>{{b:date}} {{a}}</w:t></w:r></w:p>",
        "<w:tbl><w:tr><w:tc><w:p><w:r><w:t>{{ a }} {{c:time:hour_min}}</w:t></w:r></w:p></w:tc></w:tr></w:tbl>"
    ].concat());
    assert_eq!(get_placeholders_from_template(&xml), Ok(vec![s("a"), s("b:date"), s("c:time:hour_min")]));
    let structs = match build_placeholder_structs(&xml) {
        Ok(v) => v,
        Err(e) => panic!("{e}"),
    };
    assert_eq!(
        structs,
        vec![
            Placeholder { ph: s("a"), name: s("a"), field_type: s("text"), format: None },
            Placeholder { ph: s("b:date"), name: s("b"), field_type: s("date"), format: None },
            Placeholder { ph: s("c:time:hour_min"), name: s("c"), field_type: s("time"), format: Some(s("hour_min")) },
        ]
    );
}

#[test]
fn dates_are_formatted() {
    assert_eq!(format_value("date", Some("full"), "2024-03-05"), "\"05\" марта 2024 г.");
    assert_eq!(format_value("date", None, "2024-03-05"), "05.03.2024");
    assert_eq!(format_value("date", Some("other"), "0099-12-31"), "31.12.0099");
    assert_eq!(format_value("date", None, "not a date"), "not a date");
}

#[test]
fn times_are_formatted() {
    assert_eq!(format_value("time", Some("hour_min"), "09:05"), "09 час. 05 мин");
    assert_eq!(format_value("time", None, "23:59"), "23:59");
    assert_eq!(format_value("time", None, "25:00"), "25:00");
}

#[test]
fn other_values_go_in_as_entered() {
    assert_eq!(format_value("text", None, " x "), " x ");
    assert_eq!(format_value("hardware_error", None, "1,5"), "1,5");
}

#[test]
fn form_values_follow_the_placeholder_type() {
    let form = values(&[("d:date:full", "2024-12-31"), ("t", "plain")]);
    assert_eq!(format_form_value("d:date:full", &form), FormValue::Text(s("\"31\" декабря 2024 г.")));
    assert_eq!(format_form_value("t", &form), FormValue::Text(s("plain")));
    assert_eq!(format_form_value("missing", &form), FormValue::Text(s("")));
}

#[test]
fn hardware_error_entries_have_defaults() {
    let form = values(&[("e:hardware_error__measurement_result", "10"), ("e:hardware_error__additional_relative_error_percent", "2")]);
    assert_eq!(
        format_form_value("e:hardware_error", &form),
        FormValue::HardwareError { measurement: s("10"), main: s("8"), additional: s("2") }
    );
    assert_eq!(
        format_form_value("f:hardware_error", &form),
        FormValue::HardwareError { measurement: s(""), main: s("8"), additional: s("0") }
    );
}

#[test]
fn fill_replaces_every_placeholder_of_a_run() {
    let xml = doc("<w:p><w:r><w:rPr><w:i/></w:rPr><w:t>{{a}} and {{b}}.</w:t></w:r></w:p>");
    let out = fill_docx_template(&xml, &values(&[("a", "A"), ("b", "B")]));
    assert_eq!(
        out,
        Ok(doc(&[
            "<w:p><w:r><w:rPr><w:i></w:i></w:rPr><w:t xml:space=\"preserve\">A</w:t></w:r>",
            "<w:r><w:rPr><w:i></w:i></w:rPr><w:t xml:space=\"preserve\"> and </w:t></w:r>",
            "<w:r><w:rPr><w:i></w:i></w:rPr><w:t xml:space=\"preserve\">B</w:t></w:r>",
            "<w:r><w:rPr><w:i></w:i></w:rPr><w:t xml:space=\"preserve\">.</w:t></w:r></w:p>"
        ].concat()))
    );
}

#[test]
fn fill_keeps_runs_no_placeholder_touches() {
    let xml = doc("<w:p><w:r><w:t>{{v}}</w:t></w:r><w:r w:rsidR=\"5\"><w:t>x</w:t><w:tab/></w:r></w:p>");
    let out = fill_docx_template(&xml, &values(&[("v", "Z")]));
    assert_eq!(
        out,
        Ok(doc(&[
            "<w:p><w:r><w:t xml:space=\"preserve\">Z</w:t></w:r>",
            "<w:r w:rsidR=\"5\"><w:t>x</w:t><w:tab></w:tab></w:r></w:p>"
        ].concat()))
    );
}

#[test]
fn constructor_keeps_untouched_runs_whole() {
    let xml = doc("<w:p><w:r><w:rPr><w:i/></w:rPr><w:t>ab</w:t><w:br/></w:r><w:r><w:t>cd</w:t></w:r></w:p>");
    let out = apply_constructor_replacements(&xml, vec![rep("c", "{{n}}", 0, 2)], false);
    assert_eq!(
        out,
        Ok(doc(&[
            "<w:p><w:r><w:rPr><w:i></w:i></w:rPr><w:t>ab</w:t><w:br></w:br></w:r>",
            "<w:r><w:t xml:space=\"preserve\">{{n}}</w:t></w:r>",
            "<w:r><w:t xml:space=\"preserve\">d</w:t></w:r></w:p>"
        ].concat()))
    );
}

#[test]
fn replacement_across_runs_empties_the_middle_run() {
    let xml = doc("<w:p><w:r><w:t>ab</w:t></w:r><w:r><w:t>cd</w:t></w:r><w:r><w:t>ef</w:t></w:r><w:r><w:t>g</w:t></w:r></w:p>");
    let out = apply_constructor_replacements(&xml, vec![rep("bcde", "{{x}}", 0, 1)], false);
    assert_eq!(
        out,
        Ok(doc(&[
            "<w:p><w:r><w:t xml:space=\"preserve\">a</w:t></w:r>",
            "<w:r><w:t xml:space=\"preserve\">{{x}}</w:t></w:r>",
            "<w:r><w:t xml:space=\"preserve\">f</w:t></w:r>",
            "<w:r><w:t>g</w:t></w:r></w:p>"
        ].concat()))
    );
}

#[test]
fn failed_replacement_errors_are_recognized() {
    let xml = doc("<w:p><w:r><w:t>ab</w:t></w:r></w:p>");
    let err = apply_constructor_replacements(&xml, vec![rep("x", "y", 0, 0)], false).unwrap_err();
    assert!(lists_failed_replacements(&err));
    assert!(!lists_failed_replacements("XML: bad"));
}

#[test]
fn fields_follow_the_listed_bodies() {
    let xml = doc("<w:p><w:r><w:t>{{b:date:%d}} {{a}} {{b:date:%d}}</w:t></w:r></w:p>");
    let bodies = get_placeholders_from_template(&xml).unwrap();
    let fields: Vec<String> = build_placeholder_structs(&xml).unwrap().into_iter().map(|p| p.ph).collect();
    assert_eq!(bodies, fields);
    assert_eq!(bodies, vec![s("a"), s("b:date:%d")]);
}
