use docx_templates::custom_types::{
    checked_custom_type, checked_type_key, is_blank, stored_shape, StoredKind, StoredShape, custom_types_from_document, delete_custom_type, normalize_custom_type, normalize_custom_type_key,
    sort_custom_types, upsert_custom_type, CustomType, CustomTypeEntry, CustomTypesDocument,
};
use docx_templates::error::AppError;

fn s(x: &str) -> String {
    x.to_string()
}

fn ty(key: &str, name: &str, options: &[&str]) -> CustomType {
    CustomType { key: s(key), name: s(name), options: options.iter().map(|o| s(o)).collect() }
}

#[test]
fn key_collapses_separators() {
    assert_eq!(normalize_custom_type_key("  Hello, World: {x} "), "Hello_World_x");
    assert_eq!(normalize_custom_type_key("__a__b__"), "a_b");
    assert_eq!(normalize_custom_type_key("a ; b\t\"c'"), "a_b_c");
    assert_eq!(normalize_custom_type_key("   "), "");
}

#[test]
fn key_normalization_is_idempotent() {
    for raw in ["  Hello, World: {x} ", "__a__b__", "x y z", "::", "Тип 1"] {
        let once = normalize_custom_type_key(raw);
        assert_eq!(normalize_custom_type_key(&once), once);
    }
}

#[test]
fn custom_type_is_trimmed_and_deduplicated() {
    let t = normalize_custom_type(ty(" ", "  Цвет кузова ", &[" red ", "", "red", "blue", "  "]));
    assert_eq!(t.name, "Цвет кузова");
    assert_eq!(t.key, "Цвет_кузова");
    assert_eq!(t.options, vec![s("red"), s("blue")]);
}

#[test]
fn custom_type_keeps_given_key() {
    let t = normalize_custom_type(ty(" my key ", "Name", &["a"]));
    assert_eq!(t.key, "my_key");
}

#[test]
fn upsert_adds_and_sorts() {
    let items = vec![ty("b", "beta", &["1"])];
    let (saved, list) = match upsert_custom_type(items, ty("a", "Alpha", &["x"])) {
        Ok(v) => v,
        Err(_) => panic!("upsert failed"),
    };
    assert_eq!(saved, ty("a", "Alpha", &["x"]));
    assert_eq!(list, vec![ty("a", "Alpha", &["x"]), ty("b", "beta", &["1"])]);
}

#[test]
fn upsert_replaces_same_key() {
    let items = vec![ty("b", "beta", &["1"]), ty("a", "Alpha", &["x"])];
    let (_, list) = match upsert_custom_type(items, ty("a", "gamma", &["y"])) {
        Ok(v) => v,
        Err(_) => panic!("upsert failed"),
    };
    assert_eq!(list, vec![ty("b", "beta", &["1"]), ty("a", "gamma", &["y"])]);
}

#[test]
fn upsert_refuses_incomplete_types() {
    assert_eq!(
        upsert_custom_type(vec![], ty("k", "  ", &["x"])),
        Err(AppError::BadRequest(s("Имя типа не может быть пустым")))
    );
    assert_eq!(
        upsert_custom_type(vec![], ty("::", "", &["x"])),
        Err(AppError::BadRequest(s("Имя типа не может быть пустым")))
    );
    assert_eq!(
        upsert_custom_type(vec![], ty("::", ":", &["x"])),
        Err(AppError::BadRequest(s("Ключ типа не может быть пустым")))
    );
    assert_eq!(
        upsert_custom_type(vec![], ty("k", "n", &[" ", ""])),
        Err(AppError::BadRequest(s("Добавьте хотя бы один вариант текста")))
    );
}

#[test]
fn delete_removes_key() {
    let items = vec![ty("a", "A", &["1"]), ty("b", "B", &["2"])];
    assert_eq!(delete_custom_type(items, " a "), Ok(vec![ty("b", "B", &["2"])]));
}

#[test]
fn delete_refuses_unknown_or_bad_key() {
    let items = vec![ty("a", "A", &["1"])];
    assert_eq!(delete_custom_type(items.clone(), "zzz"), Err(AppError::NotFound(s("Тип не найден"))));
    assert_eq!(delete_custom_type(items, " _ "), Err(AppError::BadRequest(s("Некорректный ключ типа"))));
}

#[test]
fn delete_after_upsert_leaves_other_types() {
    let items = vec![ty("a", "A", &["1"]), ty("b", "B", &["2"])];
    let (saved, list) = match upsert_custom_type(items, ty("c", "C", &["3"])) {
        Ok(v) => v,
        Err(_) => panic!("upsert failed"),
    };
    assert_eq!(delete_custom_type(list, &saved.key), Ok(vec![ty("a", "A", &["1"]), ty("b", "B", &["2"])]));
}

#[test]
fn types_sort_by_lowercase_name() {
    let sorted = sort_custom_types(vec![ty("x", "B1", &["1"]), ty("y", "a2", &["2"]), ty("z", "b0", &["3"])]);
    let names: Vec<String> = sorted.into_iter().map(|t| t.name).collect();
    assert_eq!(names, vec![s("a2"), s("b0"), s("B1")]);
}

#[test]
fn stored_types_are_read_from_every_shape() {
    let list = custom_types_from_document(CustomTypesDocument::List(vec![ty("", " Zeta ", &["z"]), ty("k", "", &["x"])]));
    assert_eq!(list, vec![ty("Zeta", "Zeta", &["z"])]);
    let single = custom_types_from_document(CustomTypesDocument::Single(ty("k", "N", &["o"])));
    assert_eq!(single, vec![ty("k", "N", &["o"])]);
    let entries = custom_types_from_document(CustomTypesDocument::Entries(vec![
        (s("colors"), CustomTypeEntry::Options(vec![s("red")])),
        (s("raw"), CustomTypeEntry::Fields { key: None, name: Some(s("Beta")), options: None }),
        (s("skip"), CustomTypeEntry::Other),
    ]));
    assert_eq!(entries, vec![ty("raw", "Beta", &[]), ty("colors", "colors", &["red"])]);
    assert_eq!(custom_types_from_document(CustomTypesDocument::Empty), vec![]);
}

#[test]
fn normalizing_a_type_twice_changes_nothing() {
    let once = normalize_custom_type(ty(" k ey ", "  Name ", &[" b ", "a", "", "b"]));
    assert_eq!(normalize_custom_type(once.clone()), once);
}

#[test]
fn saved_types_load_back_unchanged() {
    let items = custom_types_from_document(CustomTypesDocument::List(vec![ty("b", "beta", &["1"]), ty("a", "Alpha", &["x"])]));
    let (_, list) = match upsert_custom_type(items, ty(" New key ", " Gamma ", &[" g ", "g"])) {
        Ok(v) => v,
        Err(_) => panic!("upsert failed"),
    };
    assert_eq!(custom_types_from_document(CustomTypesDocument::List(list.clone())), list);
}

#[test]
fn key_keeps_its_letters_in_order() {
    let raw = " x{y}: z,,w ";
    let key = normalize_custom_type_key(raw);
    let letters = |t: &str| t.chars().filter(|c| !(c.is_whitespace() || ":{},;\"'_".contains(*c))).collect::<String>();
    assert_eq!(letters(&key), letters(raw));
    assert_eq!(key, "x_y_z_w");
}

#[test]
fn stored_shape_follows_the_json_value() {
    assert!(is_blank("  \n "));
    assert!(!is_blank(" [] "));
    assert_eq!(stored_shape(StoredKind::Array, false, false, false), StoredShape::List);
    assert_eq!(stored_shape(StoredKind::Object, true, true, true), StoredShape::Single);
    assert_eq!(stored_shape(StoredKind::Object, true, true, false), StoredShape::Entries);
    assert_eq!(stored_shape(StoredKind::Other, true, true, true), StoredShape::Nothing);
}

#[test]
fn types_are_checked_before_the_store_is_read() {
    assert_eq!(checked_custom_type(ty(" a b ", "Name", &["x"])), Ok(ty("a_b", "Name", &["x"])));
    assert_eq!(
        checked_custom_type(ty("k", "  ", &["x"])),
        Err(AppError::BadRequest(s("Имя типа не может быть пустым")))
    );
    assert_eq!(
        checked_custom_type(ty("k", "N", &[])),
        Err(AppError::BadRequest(s("Добавьте хотя бы один вариант текста")))
    );
    assert_eq!(checked_type_key(" a "), Ok(s("a")));
    assert_eq!(checked_type_key(" _ "), Err(AppError::BadRequest(s("Некорректный ключ типа"))));
}
