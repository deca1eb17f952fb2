use docx_templates::error::AppError;
use docx_templates::names::{
    ensure_docx_name, group_template_files, load_settings, order_by_mtime, resolve_template_file,
    safe_file_name, select_docx_files, template_folder_names, validate_folder_name,
    validate_relative_docx_path,
};
use docx_templates::requests::{
    add_upload_bytes, check_template_size, constructor_save_target, save_target_from, constructor_step, saved_file_name,
    ConstructorStep, MAX_FILE_SIZE,
};
use docx_templates::text::{escape_attr, escape_html};

fn s(x: &str) -> String {
    x.to_string()
}

#[test]
fn escape_html_replaces_special_characters() {
    assert_eq!(
        escape_html("<a href=\"x\">Tom & Jerry's</a>"),
        "&lt;a href=&quot;x&quot;&gt;Tom &amp; Jerry&apos;s&lt;/a&gt;"
    );
}

#[test]
fn escape_html_defuses_javascript_scheme() {
    assert_eq!(
        escape_html("javascript:alert(1)"),
        "&#106;&#97;&#118;&#97;&#115;&#99;&#114;&#105;&#112;&#116;:alert(1)"
    );
}

#[test]
fn escape_html_keeps_plain_text() {
    assert_eq!(escape_html("Привет, мир"), "Привет, мир");
    assert_eq!(escape_html(""), "");
}

#[test]
fn escape_attr_equals_escape_html() {
    for x in ["<\"'>&", "javascript:x\"", "plain", "a\"b"] {
        assert_eq!(escape_attr(x), escape_html(x));
    }
}

#[test]
fn escaped_text_has_no_markup_characters() {
    let e = escape_html("<script>alert('x') \"q\"</script>");
    assert!(!e.contains('<') && !e.contains('>') && !e.contains('"') && !e.contains('\''));
}

#[test]
fn load_settings_gives_default_folders() {
    let st = load_settings();
    assert_eq!(st.templates_dir, "doc_templates");
    assert_eq!(st.saved_dir, "saved");
}

#[test]
fn ensure_docx_name_adds_extension() {
    assert_eq!(ensure_docx_name("report"), Ok(s("report.docx")));
    assert_eq!(ensure_docx_name("report.docx"), Ok(s("report.docx")));
    assert_eq!(ensure_docx_name("a/b/act.docx"), Ok(s("act.docx")));
}

#[test]
fn ensure_docx_name_refuses_empty_name() {
    assert_eq!(ensure_docx_name(""), Err(AppError::BadRequest(s("Invalid file name"))));
    assert_eq!(ensure_docx_name(".."), Err(AppError::BadRequest(s("Invalid file name"))));
}

#[test]
fn safe_file_name_takes_last_component() {
    assert_eq!(safe_file_name("dir/file.docx"), Ok(s("file.docx")));
    assert_eq!(safe_file_name("/"), Err(AppError::BadRequest(s("Invalid file name"))));
}

#[test]
fn validate_folder_name_accepts_subfolder() {
    assert_eq!(validate_folder_name("  sub "), Ok(Some(s("sub"))));
    assert_eq!(validate_folder_name(""), Ok(None));
    assert_eq!(validate_folder_name(" . "), Ok(None));
}

#[test]
fn validate_folder_name_refuses_separators_and_dots() {
    let bad = AppError::BadRequest(s("Некорректное имя папки"));
    assert_eq!(validate_folder_name("a/b"), Err(bad.clone()));
    assert_eq!(validate_folder_name("a\\b"), Err(bad.clone()));
    assert_eq!(validate_folder_name(".."), Err(bad.clone()));
    assert_eq!(validate_folder_name(".hidden"), Err(bad));
}

#[test]
fn relative_docx_paths_are_checked() {
    let nf = AppError::NotFound(s("Шаблон не найден"));
    assert_eq!(validate_relative_docx_path("sub/a.docx"), Ok(s("sub/a.docx")));
    assert_eq!(validate_relative_docx_path("../a.docx"), Err(nf.clone()));
    assert_eq!(validate_relative_docx_path("/abs/a.docx"), Err(nf.clone()));
    assert_eq!(validate_relative_docx_path("a.txt"), Err(nf.clone()));
    assert_eq!(validate_relative_docx_path("   "), Err(nf.clone()));
    assert_eq!(validate_relative_docx_path("a\\b.docx"), Err(nf));
}

#[test]
fn resolve_template_file_joins_folder() {
    assert_eq!(resolve_template_file("doc_templates", "sub/a.docx"), Ok(s("doc_templates/sub/a.docx")));
    assert_eq!(
        resolve_template_file("doc_templates", "./a.docx"),
        Err(AppError::NotFound(s("Шаблон не найден")))
    );
}

#[test]
fn select_docx_files_keeps_sorted_docx_files() {
    let entries = vec![(s("b.docx"), true), (s("a.docx"), true), (s("c.txt"), true), (s("d.docx"), false)];
    assert_eq!(select_docx_files(entries), vec![s("a.docx"), s("b.docx")]);
}

#[test]
fn order_by_mtime_lists_newest_first() {
    let entries = vec![(s("old"), 1i128), (s("new"), 5), (s("mid"), 3), (s("mid2"), 3)];
    assert_eq!(order_by_mtime(entries), vec![s("new"), s("mid"), s("mid2"), s("old")]);
}

#[test]
fn folders_are_grouped_and_named() {
    let folders = group_template_files(vec![s("r.docx")], vec![(s("acts"), vec![s("a.docx")])]);
    assert_eq!(folders.len(), 2);
    assert_eq!(folders[0].name, "doc_templates (корень)");
    assert_eq!(folders[0].path_prefix, "");
    assert_eq!(folders[0].files, vec![s("r.docx")]);
    assert_eq!(folders[1].name, "acts");
    assert_eq!(folders[1].path_prefix, "acts/");
    assert_eq!(template_folder_names(&folders), vec![s(""), s("acts")]);
}

#[test]
fn upload_bytes_are_limited() {
    assert_eq!(add_upload_bytes(0, 10, "m"), Ok(10));
    assert_eq!(add_upload_bytes(MAX_FILE_SIZE - 5, 5, "m"), Ok(MAX_FILE_SIZE));
    assert_eq!(add_upload_bytes(MAX_FILE_SIZE, 1, "Слишком много"), Err(AppError::PayloadTooLarge(s("Слишком много"))));
    assert_eq!(MAX_FILE_SIZE, 20 * 1024 * 1024);
}

#[test]
fn template_size_is_limited() {
    assert_eq!(check_template_size(10), Ok(()));
    assert_eq!(check_template_size(MAX_FILE_SIZE as u64 + 1), Err(s("Файл слишком большой")));
}

#[test]
fn constructor_save_target_checks_name_and_folder() {
    assert_eq!(
        constructor_save_target("   ", "sub"),
        Err(AppError::BadRequest(s("Имя шаблона не может быть пустым")))
    );
    assert_eq!(constructor_save_target("act", " sub "), Ok((s("act.docx"), Some(s("sub")))));
    assert_eq!(constructor_save_target("act.docx", ""), Ok((s("act.docx"), None)));
    assert_eq!(
        constructor_save_target("act", "../x"),
        Err(AppError::BadRequest(s("Некорректное имя папки")))
    );
}

#[test]
fn constructor_step_follows_action_and_upload() {
    assert_eq!(constructor_step(Some("upload"), true), Ok(ConstructorStep::Preview));
    assert_eq!(constructor_step(Some("save"), true), Ok(ConstructorStep::Save));
    assert_eq!(constructor_step(Some("upload"), false), Err(AppError::BadRequest(s("Файл не загружен"))));
    assert_eq!(
        constructor_step(Some("save"), false),
        Err(AppError::BadRequest(s("Временный файл шаблона не найден")))
    );
    assert_eq!(constructor_step(Some("other"), true), Err(AppError::BadRequest(s("Неизвестное действие"))));
    assert_eq!(constructor_step(None, true), Err(AppError::BadRequest(s("Неизвестное действие"))));
}

#[test]
fn filled_documents_are_named_by_template_and_time() {
    assert_eq!(saved_file_name(Some("act"), "2024-01-02_03-04-05"), "act-2024-01-02_03-04-05.docx");
    assert_eq!(saved_file_name(None, "t"), "filled-t.docx");
}

#[test]
fn folders_come_in_name_order() {
    let folders = group_template_files(
        vec![],
        vec![(s("zeta"), vec![s("z.docx")]), (s("acts"), vec![s("a.docx")]), (s("mid"), vec![])],
    );
    let names: Vec<String> = folders.iter().map(|f| f.name.clone()).collect();
    assert_eq!(names, vec![s("doc_templates (корень)"), s("acts"), s("mid"), s("zeta")]);
    assert_eq!(folders[1].files, vec![s("a.docx")]);
    assert_eq!(folders[3].files, vec![s("z.docx")]);
    assert_eq!(folders[3].path_prefix, "zeta/");
}

#[test]
fn escaping_leaves_no_script_scheme_even_when_split() {
    let out = escape_html("javajavascript:script:x");
    assert!(!out.contains("javascript:"));
    assert_eq!(out, "java&#106;&#97;&#118;&#97;&#115;&#99;&#114;&#105;&#112;&#116;:script:x");
}

#[test]
fn escaped_text_reads_back() {
    let text = "a<b> & \"c\" 'd' &amp;";
    let escaped = escape_html(text);
    let back = escaped
        .replace("&lt;", "<")
        .replace("&gt;", ">")
        .replace("&quot;", "\"")
        .replace("&apos;", "'")
        .replace("&amp;", "&");
    assert_eq!(back, text);
}

#[test]
fn resolve_template_file_refuses_climbing_out() {
    let nf = AppError::NotFound(s("Шаблон не найден"));
    assert_eq!(resolve_template_file("doc_templates", "../x.docx"), Err(nf.clone()));
    assert_eq!(resolve_template_file("doc_templates", "/etc/x.docx"), Err(nf.clone()));
    assert_eq!(resolve_template_file("doc_templates", "a/../../x.docx"), Err(nf));
    let p = resolve_template_file("base", "x/y.docx").unwrap();
    assert!(p.starts_with("base") && p.ends_with("x/y.docx"));
}

#[test]
fn save_target_follows_name_then_folder() {
    let bad_name = AppError::BadRequest(s("Invalid file name"));
    assert_eq!(save_target_from(Err(bad_name.clone()), "sub"), Err(bad_name));
    assert_eq!(save_target_from(Ok(s("a.docx")), "sub"), Ok((s("a.docx"), Some(s("sub")))));
    assert_eq!(save_target_from(Ok(s("a.docx")), " . "), Ok((s("a.docx"), None)));
    assert_eq!(
        save_target_from(Ok(s("a.docx")), "../up"),
        Err(AppError::BadRequest(s("Некорректное имя папки")))
    );
}

#[test]
fn docx_name_is_the_file_name_of_the_path() {
    assert_eq!(ensure_docx_name("dir/report"), Ok(s("report.docx")));
    assert!(!ensure_docx_name("a/b/c").unwrap().contains('/'));
}
