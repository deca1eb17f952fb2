//! User-defined field types ("custom types"): a key, a display name and the
//! text options offered for the field, with the normalisation applied on load and save.
use vstd::prelude::*;
use crate::error::{owned, AppError, ErrorKind};
use crate::sort::{isort, lemma_insert_pos_first, lt_chars, seq_lt};
use crate::text::{strings_view, lowercase, to_lowercase, trim_string, chars_of, is_whitespace, is_ws, slice_chars, string_from_chars, trim, trim_chars};

verus! {

/// A user-defined field type.
#[derive(Debug, Clone, PartialEq, Eq)]
pub struct CustomType {
    pub key: String,
    pub name: String,
    pub options: Vec<String>,
}

/// The mathematical value of a custom type.
pub struct CustomTypeView {
    pub key: Seq<char>,
    pub name: Seq<char>,
    pub options: Seq<Seq<char>>,
}

impl View for CustomType {
    type V = CustomTypeView;

    open spec fn view(&self) -> CustomTypeView {
        CustomTypeView { key: self.key@, name: self.name@, options: strings_view(self.options@) }
    }
}

/// Characters that a key turns into a single `_`.
pub open spec fn is_key_separator(c: char) -> bool {
    is_ws(c) || c == ':' || c == '{' || c == '}' || c == ',' || c == ';' || c == '"' || c == '\''
        || c == '_'
}

/// Every run of separators in `s` replaced by one `_`.
pub open spec fn collapse_separators(s: Seq<char>) -> Seq<char>
    decreases s.len(),
{
    if s.len() == 0 {
        s
    } else if is_key_separator(s.last()) {
        if s.len() >= 2 && is_key_separator(s[s.len() - 2]) {
            collapse_separators(s.drop_last())
        } else {
            collapse_separators(s.drop_last()).push('_')
        }
    } else {
        collapse_separators(s.drop_last()).push(s.last())
    }
}

/// `s` without its leading `_` characters.
pub open spec fn strip_start_underscores(s: Seq<char>) -> Seq<char>
    decreases s.len(),
{
    if s.len() > 0 && s[0] == '_' {
        strip_start_underscores(s.drop_first())
    } else {
        s
    }
}

/// `s` without its trailing `_` characters.
pub open spec fn strip_end_underscores(s: Seq<char>) -> Seq<char>
    decreases s.len(),
{
    if s.len() > 0 && s.last() == '_' {
        strip_end_underscores(s.drop_last())
    } else {
        s
    }
}

/// The key made from raw text: trimmed, separator runs collapsed to `_`, and
/// `_` removed from both ends.
pub open spec fn normalized_key(raw: Seq<char>) -> Seq<char> {
    strip_end_underscores(strip_start_underscores(collapse_separators(trim(raw))))
}

fn is_key_sep(c: char) -> (r: bool)
    ensures
        r == is_key_separator(c),
{
    is_whitespace(c) || c == ':' || c == '{' || c == '}' || c == ',' || c == ';' || c == '"'
        || c == '\'' || c == '_'
}

proof fn lemma_strip_start(s: Seq<char>, a: int)
    requires
        0 <= a <= s.len(),
        forall|j: int| 0 <= j < a ==> #[trigger] s[j] == '_',
        a == s.len() || s[a] != '_',
    ensures
        strip_start_underscores(s) == s.skip(a),
    decreases a,
{
    if a == 0 {
        assert(s.skip(0) =~= s);
    } else {
        let t = s.drop_first();
        assert forall|j: int| 0 <= j < a - 1 implies #[trigger] t[j] == '_' by {
            assert(t[j] == s[j + 1]);
        }
        if a < s.len() {
            assert(t[a - 1] == s[a]);
        }
        lemma_strip_start(t, a - 1);
        assert(t.skip(a - 1) =~= s.skip(a));
    }
}

proof fn lemma_strip_end(s: Seq<char>, b: int)
    requires
        0 <= b <= s.len(),
        forall|j: int| b <= j < s.len() ==> #[trigger] s[j] == '_',
        b == 0 || s[b - 1] != '_',
    ensures
        strip_end_underscores(s) == s.take(b),
    decreases s.len() - b,
{
    if b == s.len() {
        assert(s.take(b) =~= s);
    } else {
        let t = s.drop_last();
        assert forall|j: int| b <= j < t.len() implies #[trigger] t[j] == '_' by {
            assert(t[j] == s[j]);
        }
        if b > 0 {
            assert(t[b - 1] == s[b - 1]);
        }
        lemma_strip_end(t, b);
        assert(t.take(b) =~= s.take(b));
    }
}

/// Removes `_` from both ends.
fn strip_underscores(s: &[char]) -> (r: Vec<char>)
    ensures
        r@ == strip_end_underscores(strip_start_underscores(s@)),
{
    let n = s.len();
    let mut a: usize = 0;
    while a < n && s[a] == '_'
        invariant
            n == s@.len(),
            a <= n,
            forall|j: int| 0 <= j < a ==> #[trigger] s@[j] == '_',
        decreases n - a,
    {
        a += 1;
    }
    proof {
        lemma_strip_start(s@, a as int);
    }
    let mut b: usize = n;
    while b > a && s[b - 1] == '_'
        invariant
            n == s@.len(),
            a <= b <= n,
            forall|j: int| b <= j < n ==> #[trigger] s@[j] == '_',
        decreases b - a,
    {
        b -= 1;
    }
    proof {
        let t = s@.skip(a as int);
        assert forall|j: int| b - a <= j < t.len() implies #[trigger] t[j] == '_' by {
            assert(t[j] == s@[j + a]);
        }
        if b > a {
            assert(t[b - a - 1] == s@[b - 1]);
        }
        lemma_strip_end(t, b - a);
        assert(t.take(b - a) =~= s@.subrange(a as int, b as int));
    }
    slice_chars(s, a, b)
}

/// Turns free text into a type key: surrounding whitespace is dropped, every run of
/// whitespace, `:{},;"'` and `_` becomes a single `_`, and `_` is stripped from both ends.
pub fn normalize_custom_type_key(raw: &str) -> (r: String)
    ensures
        r@ == normalized_key(raw@),
{
    let cs = chars_of(raw);
    let t = trim_chars(cs.as_slice());
    let mut key: Vec<char> = Vec::new();
    let mut prev_sep = false;
    let mut i: usize = 0;
    while i < t.len()
        invariant
            i <= t@.len(),
            key@ == collapse_separators(t@.take(i as int)),
            prev_sep == (i > 0 && is_key_separator(t@[i - 1])),
        decreases t@.len() - i,
    {
        let ch = t[i];
        let ghost pre = t@.take(i + 1);
        assert(pre.drop_last() =~= t@.take(i as int));
        assert(pre.last() == ch);
        if is_key_sep(ch) {
            if !prev_sep {
                key.push('_');
                prev_sep = true;
            }
            proof {
                if i > 0 {
                    assert(pre[pre.len() - 2] == t@[i - 1]);
                }
            }
        } else {
            key.push(ch);
            prev_sep = false;
        }
        i += 1;
    }
    assert(t@.take(t@.len() as int) =~= t@);
    let s = strip_underscores(key.as_slice());
    string_from_chars(s.as_slice())
}


/// The non-empty elements of `s`, each kept at its first occurrence only.
pub open spec fn dedup_nonempty(s: Seq<Seq<char>>) -> Seq<Seq<char>>
    decreases s.len(),
{
    if s.len() == 0 {
        s
    } else {
        let d = dedup_nonempty(s.drop_last());
        if s.last().len() > 0 && !d.contains(s.last()) {
            d.push(s.last())
        } else {
            d
        }
    }
}

/// Every element trimmed.
pub open spec fn trim_all(s: Seq<Seq<char>>) -> Seq<Seq<char>> {
    s.map_values(|o: Seq<char>| trim(o))
}

/// The normal form of a custom type: the name trimmed; the key normalised from the
/// key, or from the trimmed name when the key is blank; the options trimmed, with
/// empty ones and repeats dropped.
pub open spec fn normalized_custom_type(t: CustomTypeView) -> CustomTypeView {
    let name = trim(t.name);
    CustomTypeView {
        key: normalized_key(if trim(t.key).len() == 0 { name } else { t.key }),
        name: name,
        options: dedup_nonempty(trim_all(t.options)),
    }
}

/// Whether `v` holds a string equal to `x`.
pub fn contains_string(v: &Vec<String>, x: &String) -> (r: bool)
    ensures
        r == strings_view(v@).contains(x@),
{
    let mut i: usize = 0;
    while i < v.len()
        invariant
            i <= v@.len(),
            forall|j: int| 0 <= j < i ==> v@[j]@ != x@,
        decreases v@.len() - i,
    {
        if v[i] == *x {
            assert(strings_view(v@)[i as int] == x@);
            return true;
        }
        i += 1;
    }
    proof {
        if strings_view(v@).contains(x@) {
            let j = choose|j: int| 0 <= j < strings_view(v@).len() && strings_view(v@)[j] == x@;
            assert(v@[j]@ == x@);
        }
    }
    false
}

/// Normalises a custom type (see `normalized_custom_type`).
pub fn normalize_custom_type(item: CustomType) -> (r: CustomType)
    ensures
        r@ == normalized_custom_type(item@),
{
    let name = trim_string(item.name.as_str());
    let key_trimmed = trim_string(item.key.as_str());
    let key = if key_trimmed.as_str().is_empty() {
        normalize_custom_type_key(name.as_str())
    } else {
        normalize_custom_type_key(item.key.as_str())
    };
    let ghost trimmed = trim_all(strings_view(item.options@));
    let mut options: Vec<String> = Vec::new();
    let mut i: usize = 0;
    while i < item.options.len()
        invariant
            i <= item.options@.len(),
            trimmed == trim_all(strings_view(item.options@)),
            strings_view(options@) == dedup_nonempty(trimmed.take(i as int)),
        decreases item.options@.len() - i,
    {
        let value = trim_string(item.options[i].as_str());
        let ghost pre = trimmed.take(i + 1);
        assert(pre.drop_last() =~= trimmed.take(i as int));
        assert(pre.last() == value@);
        let seen = contains_string(&options, &value);
        if !value.as_str().is_empty() && !seen {
            options.push(value);
            assert(strings_view(options@) =~= dedup_nonempty(pre));
        }
        i += 1;
    }
    assert(trimmed.take(trimmed.len() as int) =~= trimmed);
    CustomType { key, name, options }
}


/// The order of custom types: by lowercase name.
pub open spec fn name_lt() -> spec_fn(CustomTypeView, CustomTypeView) -> bool {
    |a: CustomTypeView, b: CustomTypeView| seq_lt(lowercase(a.name), lowercase(b.name))
}

/// The views of a vector of custom types.
pub open spec fn types_view(v: Seq<CustomType>) -> Seq<CustomTypeView> {
    v.map_values(|t: CustomType| t@)
}

/// Sorts custom types by lowercase name, keeping the order of equal names.
pub fn sort_custom_types(items: Vec<CustomType>) -> (r: Vec<CustomType>)
    ensures
        types_view(r@) == isort(types_view(items@), name_lt()),
{
    let ghost orig = types_view(items@);
    let total = items.len();
    let mut rest = items;
    let mut out: Vec<CustomType> = Vec::new();
    let mut keys: Vec<Vec<char>> = Vec::new();
    let mut k: usize = 0;
    assert(types_view(rest@) =~= orig.skip(0));
    while rest.len() > 0
        invariant
            orig.len() == total,
            k <= orig.len(),
            types_view(rest@) == orig.skip(k as int),
            types_view(out@) == isort(orig.take(k as int), name_lt()),
            keys@.len() == out@.len(),
            forall|j: int| 0 <= j < out@.len() ==> (#[trigger] keys@[j])@ == lowercase(out@[j].name@),
        decreases rest@.len(),
    {
        let ghost rest_before = types_view(rest@);
        let ghost rest_seq = rest@;
        assert(rest_before.len() == rest_seq.len());
        let x = rest.remove(0);
        assert(x == rest_seq[0]);
        assert(rest_before[0] == rest_seq[0]@);
        let lx = to_lowercase(x.name.as_str());
        let xk = chars_of(lx.as_str());
        let ghost xv = x@;
        let ghost outv = types_view(out@);
        assert(k < orig.len());
        assert(xv == orig[k as int]) by {
            assert(rest_before[0] == orig.skip(k as int)[0]);
        }
        let mut p: usize = 0;
        while p < out.len() && !lt_chars(xk.as_slice(), keys[p].as_slice())
            invariant
                p <= out@.len(),
                outv == types_view(out@),
                keys@.len() == out@.len(),
                forall|j: int| 0 <= j < out@.len() ==> (#[trigger] keys@[j])@ == lowercase(out@[j].name@),
                xk@ == lowercase(xv.name),
                forall|j: int| 0 <= j < p ==> !(name_lt())(xv, #[trigger] outv[j]),
            decreases out@.len() - p,
        {
            assert(outv[p as int] == out@[p as int]@);
            p += 1;
        }
        proof {
            if p < out@.len() {
                assert(outv[p as int] == out@[p as int]@);
            }
            lemma_insert_pos_first(outv, xv, name_lt(), p as int);
            let pre = orig.take(k + 1);
            assert(pre.drop_last() =~= orig.take(k as int));
            assert(pre.last() == xv);
        }
        let ghost keys_before = keys@;
        out.insert(p, x);
        keys.insert(p, xk);
        proof {
            assert(types_view(out@) =~= outv.insert(p as int, xv));
            assert forall|j: int| 0 <= j < out@.len() implies (#[trigger] keys@[j])@ == lowercase(out@[j].name@) by {
                if j < p {
                } else if j == p {
                } else {
                    assert(keys@[j] == keys_before[j - 1]);
                }
            }
            assert forall|j: int| 0 <= j < rest@.len() implies types_view(rest@)[j] == orig.skip(k + 1)[j] by {
                assert(rest@[j] == rest_seq[j + 1]);
                assert(rest_before[j + 1] == orig.skip(k as int)[j + 1]);
            }
            assert(types_view(rest@) =~= orig.skip(k + 1));
        }
        k += 1;
    }
    assert(orig.take(k as int) =~= orig);
    out
}


/// One entry of a stored object that maps raw keys to types.
#[derive(Debug, Clone, PartialEq, Eq)]
pub enum CustomTypeEntry {
    /// An object: its `key` and `name` when they are strings, its `options` when they
    /// are a list of strings.
    Fields { key: Option<String>, name: Option<String>, options: Option<Vec<String>> },
    /// A list of strings: the options of a type named by the raw key.
    Options(Vec<String>),
    /// Anything else; skipped.
    Other,
}

/// The shapes in which the stored custom types are read.
#[derive(Debug, Clone, PartialEq, Eq)]
pub enum CustomTypesDocument {
    /// A list of types.
    List(Vec<CustomType>),
    /// A single object with `key`, `name` and `options`.
    Single(CustomType),
    /// An object from raw keys to entries, in the object's order.
    Entries(Vec<(String, CustomTypeEntry)>),
    /// Nothing usable (no file, blank content, or a value of another kind).
    Empty,
}

/// The kind of the top-level value of the stored custom types (JSON).
#[derive(Debug, Clone, Copy, PartialEq, Eq)]
pub enum StoredKind {
    Array,
    Object,
    Other,
}

/// How the stored custom types are to be read.
#[derive(Debug, Clone, Copy, PartialEq, Eq)]
pub enum StoredShape {
    /// A list of types.
    List,
    /// One type.
    Single,
    /// Raw keys mapped to entries.
    Entries,
    /// Nothing usable.
    Nothing,
}

/// Whether stored content is blank (holds nothing but white space).
pub fn is_blank(content: &str) -> (r: bool)
    ensures
        r == (trim(content@).len() == 0),
{
    let cs = chars_of(content);
    let t = trim_chars(cs.as_slice());
    t.len() == 0
}

/// Decides how the stored custom types (not blank) are read: an array is a list of
/// types; an object with `key`, `name` and `options` is one type; any other object maps
/// raw keys to entries; a value of another kind holds nothing.
pub fn stored_shape(kind: StoredKind, has_key: bool, has_name: bool, has_options: bool) -> (r: StoredShape)
    ensures
        r == match kind {
            StoredKind::Array => StoredShape::List,
            StoredKind::Object => if has_key && has_name && has_options {
                StoredShape::Single
            } else {
                StoredShape::Entries
            },
            StoredKind::Other => StoredShape::Nothing,
        },
{
    match kind {
        StoredKind::Array => StoredShape::List,
        StoredKind::Object => if has_key && has_name && has_options {
            StoredShape::Single
        } else {
            StoredShape::Entries
        },
        StoredKind::Other => StoredShape::Nothing,
    }
}

/// The custom type an entry stands for, if any.
pub open spec fn entry_type(raw_key: Seq<char>, e: CustomTypeEntry) -> Option<CustomTypeView> {
    match e {
        CustomTypeEntry::Fields { key, name, options } => Some(
            CustomTypeView {
                key: match key {
                    Some(k) => k@,
                    None => raw_key,
                },
                name: match name {
                    Some(n) => n@,
                    None => raw_key,
                },
                options: match options {
                    Some(o) => strings_view(o@),
                    None => Seq::empty(),
                },
            },
        ),
        CustomTypeEntry::Options(o) => Some(
            CustomTypeView { key: raw_key, name: raw_key, options: strings_view(o@) },
        ),
        CustomTypeEntry::Other => None,
    }
}

/// The types of a list of entries, in order, skipping the unusable ones.
pub open spec fn entries_types(es: Seq<(String, CustomTypeEntry)>) -> Seq<CustomTypeView>
    decreases es.len(),
{
    if es.len() == 0 {
        Seq::empty()
    } else {
        let prev = entries_types(es.drop_last());
        match entry_type(es.last().0@, es.last().1) {
            Some(t) => prev.push(t),
            None => prev,
        }
    }
}

/// The types a document holds, before normalisation.
pub open spec fn document_types(doc: CustomTypesDocument) -> Seq<CustomTypeView> {
    match doc {
        CustomTypesDocument::List(v) => types_view(v@),
        CustomTypesDocument::Single(t) => seq![t@],
        CustomTypesDocument::Entries(es) => entries_types(es@),
        CustomTypesDocument::Empty => Seq::empty(),
    }
}

/// Normalises every type and keeps those whose key and name are not empty.
pub open spec fn normalized_named(s: Seq<CustomTypeView>) -> Seq<CustomTypeView>
    decreases s.len(),
{
    if s.len() == 0 {
        Seq::empty()
    } else {
        let prev = normalized_named(s.drop_last());
        let t = normalized_custom_type(s.last());
        if t.key.len() > 0 && t.name.len() > 0 {
            prev.push(t)
        } else {
            prev
        }
    }
}

/// The custom types that a stored document yields: normalised, the nameless and
/// keyless dropped, sorted by lowercase name.
pub open spec fn loaded_custom_types(doc: CustomTypesDocument) -> Seq<CustomTypeView> {
    isort(normalized_named(document_types(doc)), name_lt())
}

fn copy_strings(v: &Vec<String>) -> (r: Vec<String>)
    ensures
        r@ == v@,
{
    let mut r: Vec<String> = Vec::new();
    let mut i: usize = 0;
    while i < v.len()
        invariant
            i <= v@.len(),
            r@ == v@.take(i as int),
        decreases v@.len() - i,
    {
        r.push(v[i].clone());
        assert(r@ =~= v@.take(i + 1));
        i += 1;
    }
    assert(v@.take(v@.len() as int) =~= v@);
    r
}

/// The custom type an entry stands for, if any.
fn entry_to_type(raw_key: &String, e: &CustomTypeEntry) -> (r: Option<CustomType>)
    ensures
        match r {
            Some(t) => entry_type(raw_key@, *e) == Some(t@),
            None => entry_type(raw_key@, *e) is None,
        },
{
    match e {
        CustomTypeEntry::Fields { key, name, options } => {
            let k = match key {
                Some(k) => k.clone(),
                None => raw_key.clone(),
            };
            let n = match name {
                Some(n) => n.clone(),
                None => raw_key.clone(),
            };
            let o = match options {
                Some(o) => copy_strings(o),
                None => Vec::new(),
            };
            let t = CustomType { key: k, name: n, options: o };
            assert(strings_view(o@) =~= match options { Some(o) => strings_view(o@), None => Seq::empty() });
            Some(t)
        },
        CustomTypeEntry::Options(o) => {
            Some(CustomType { key: raw_key.clone(), name: raw_key.clone(), options: copy_strings(o) })
        },
        CustomTypeEntry::Other => None,
    }
}

/// The custom types of a stored document: every type normalised, those with an
/// empty key or name dropped, the rest sorted by lowercase name.
pub fn custom_types_from_document(doc: CustomTypesDocument) -> (r: Vec<CustomType>)
    ensures
        types_view(r@) == loaded_custom_types(doc),
{
    let ghost d = doc;
    let mut raw: Vec<CustomType> = Vec::new();
    match doc {
        CustomTypesDocument::List(v) => {
            raw = v;
        },
        CustomTypesDocument::Single(t) => {
            raw.push(t);
            assert(types_view(raw@) =~= seq![t@]);
        },
        CustomTypesDocument::Entries(es) => {
            let mut i: usize = 0;
            while i < es.len()
                invariant
                    i <= es@.len(),
                    types_view(raw@) == entries_types(es@.take(i as int)),
                decreases es@.len() - i,
            {
                let ghost pre = es@.take(i + 1);
                assert(pre.drop_last() =~= es@.take(i as int));
                match entry_to_type(&es[i].0, &es[i].1) {
                    Some(t) => {
                        raw.push(t);
                        assert(types_view(raw@) =~= entries_types(pre));
                    },
                    None => {},
                }
                i += 1;
            }
            assert(es@.take(es@.len() as int) =~= es@);
        },
        CustomTypesDocument::Empty => {
            assert(types_view(raw@) =~= Seq::<CustomTypeView>::empty());
        },
    }
    let ghost all = types_view(raw@);
    assert(all == document_types(d));
    let mut kept: Vec<CustomType> = Vec::new();
    let mut rest = raw;
    let mut k: usize = 0;
    let total = rest.len();
    assert(types_view(rest@) =~= all.skip(0));
    while rest.len() > 0
        invariant
            all.len() == total,
            k <= all.len(),
            types_view(rest@) == all.skip(k as int),
            types_view(kept@) == normalized_named(all.take(k as int)),
        decreases rest@.len(),
    {
        let ghost rest_seq = rest@;
        assert(types_view(rest_seq).len() == rest_seq.len());
        let x = rest.remove(0);
        assert(k < all.len());
        assert(x@ == all[k as int]) by {
            assert(types_view(rest_seq)[0] == all.skip(k as int)[0]);
        }
        let t = normalize_custom_type(x);
        let ghost pre = all.take(k + 1);
        assert(pre.drop_last() =~= all.take(k as int));
        if !t.key.as_str().is_empty() && !t.name.as_str().is_empty() {
            kept.push(t);
            assert(types_view(kept@) =~= normalized_named(pre));
        }
        proof {
            assert forall|j: int| 0 <= j < rest@.len() implies types_view(rest@)[j] == all.skip(k + 1)[j] by {
                assert(rest@[j] == rest_seq[j + 1]);
                assert(types_view(rest_seq)[j + 1] == all.skip(k as int)[j + 1]);
            }
            assert(types_view(rest@) =~= all.skip(k + 1));
        }
        k += 1;
    }
    assert(all.take(k as int) =~= all);
    sort_custom_types(kept)
}

/// Whether some type in `items` has the key `key`.
pub open spec fn has_key(items: Seq<CustomTypeView>, key: Seq<char>) -> bool {
    exists|j: int| 0 <= j < items.len() && items[j].key == key
}

/// The first position of a type with key `key` (assumes there is one).
pub open spec fn first_with_key(items: Seq<CustomTypeView>, key: Seq<char>) -> int {
    choose|j: int| 0 <= j < items.len() && items[j].key == key
        && forall|i: int| 0 <= i < j ==> items[i].key != key
}

/// The list after saving `t`: it replaces the first type with the same key, or is
/// appended; then the list is sorted by lowercase name.
pub open spec fn upserted(items: Seq<CustomTypeView>, t: CustomTypeView) -> Seq<CustomTypeView> {
    let updated = if has_key(items, t.key) {
        items.update(first_with_key(items, t.key), t)
    } else {
        items.push(t)
    };
    isort(updated, name_lt())
}

/// The message for a type without a name.
pub open spec fn msg_empty_name() -> Seq<char> {
    "Имя типа не может быть пустым"@
}

/// The message for a type without a key.
pub open spec fn msg_empty_key() -> Seq<char> {
    "Ключ типа не может быть пустым"@
}

/// The message for a type without options.
pub open spec fn msg_no_options() -> Seq<char> {
    "Добавьте хотя бы один вариант текста"@
}

/// Checks a custom type before it is saved (see `upsert_custom_type`): the normalized
/// type, or the error for an empty name, an empty key or no option, in that order.
pub fn checked_custom_type(item: CustomType) -> (r: Result<CustomType, AppError>)
    ensures
        ({
            let t = normalized_custom_type(item@);
            match r {
                Ok(c) => t.name.len() > 0 && t.key.len() > 0 && t.options.len() > 0 && c@ == t,
                Err(e) => if t.name.len() == 0 {
                    e.is(ErrorKind::BadRequest, msg_empty_name())
                } else if t.key.len() == 0 {
                    e.is(ErrorKind::BadRequest, msg_empty_key())
                } else {
                    t.options.len() == 0 && e.is(ErrorKind::BadRequest, msg_no_options())
                },
            }
        }),
{
    let t = normalize_custom_type(item);
    if t.name.as_str().is_empty() {
        return Err(AppError::BadRequest(owned("Имя типа не может быть пустым")));
    }
    if t.key.as_str().is_empty() {
        return Err(AppError::BadRequest(owned("Ключ типа не может быть пустым")));
    }
    if t.options.len() == 0 {
        return Err(AppError::BadRequest(owned("Добавьте хотя бы один вариант текста")));
    }
    Ok(t)
}

/// Checks the key of a type to delete (see `delete_custom_type`): the normalized key,
/// or the bad-key error when it normalizes to nothing.
pub fn checked_type_key(raw_key: &str) -> (r: Result<String, AppError>)
    ensures
        match r {
            Ok(k) => k@ == normalized_key(raw_key@) && k@.len() > 0,
            Err(e) => normalized_key(raw_key@).len() == 0 && e.is(ErrorKind::BadRequest, msg_bad_key()),
        },
{
    let key = normalize_custom_type_key(raw_key);
    if key.as_str().is_empty() {
        return Err(AppError::BadRequest(owned("Некорректный ключ типа")));
    }
    Ok(key)
}

/// Saves a custom type into the list: the type is normalised; an empty name, key or
/// option list is refused; otherwise the type replaces the first one with its key or
/// is added, and the list is sorted by lowercase name. Returns the saved type and the list.
pub fn upsert_custom_type(items: Vec<CustomType>, item: CustomType) -> (r: Result<
    (CustomType, Vec<CustomType>),
    AppError,
>)
    ensures
        ({
            let t = normalized_custom_type(item@);
            match r {
                Ok((saved, list)) => t.name.len() > 0 && t.key.len() > 0 && t.options.len() > 0
                    && saved@ == t && types_view(list@) == upserted(types_view(items@), t),
                Err(e) => if t.name.len() == 0 {
                    e.is(ErrorKind::BadRequest, msg_empty_name())
                } else if t.key.len() == 0 {
                    e.is(ErrorKind::BadRequest, msg_empty_key())
                } else {
                    t.options.len() == 0 && e.is(ErrorKind::BadRequest, msg_no_options())
                },
            }
        }),
{
    let t = normalize_custom_type(item);
    if t.name.as_str().is_empty() {
        return Err(AppError::BadRequest(owned("Имя типа не может быть пустым")));
    }
    if t.key.as_str().is_empty() {
        return Err(AppError::BadRequest(owned("Ключ типа не может быть пустым")));
    }
    if t.options.len() == 0 {
        return Err(AppError::BadRequest(owned("Добавьте хотя бы один вариант текста")));
    }
    let ghost iv = types_view(items@);
    let mut items = items;
    let mut i: usize = 0;
    while i < items.len() && !(items[i].key == t.key)
        invariant
            i <= items@.len(),
            iv == types_view(items@),
            forall|j: int| 0 <= j < i ==> iv[j].key != t.key@,
        decreases items@.len() - i,
    {
        i += 1;
    }
    let found = i < items.len();
    let saved = CustomType { key: t.key.clone(), name: t.name.clone(), options: copy_strings(&t.options) };
    if found {
        proof {
            assert(iv[i as int].key == t.key@);
            assert(has_key(iv, t.key@));
            let f = first_with_key(iv, t.key@);
            assert(f == i as int) by {
                if f < i {
                } else if f > i {
                    assert(iv[i as int].key == t.key@);
                }
            }
        }
        items.set(i, t);
        assert(types_view(items@) =~= iv.update(i as int, saved@));
    } else {
        proof {
            assert(!has_key(iv, t.key@));
        }
        items.push(t);
        assert(types_view(items@) =~= iv.push(saved@));
    }
    let list = sort_custom_types(items);
    Ok((saved, list))
}

/// The message for a key that normalises to nothing.
pub open spec fn msg_bad_key() -> Seq<char> {
    "Некорректный ключ типа"@
}

/// The message for a key that no type has.
pub open spec fn msg_type_not_found() -> Seq<char> {
    "Тип не найден"@
}

/// The types whose key differs from `key`, in order.
pub open spec fn without_key(items: Seq<CustomTypeView>, key: Seq<char>) -> Seq<CustomTypeView>
    decreases items.len(),
{
    if items.len() == 0 {
        items
    } else {
        let prev = without_key(items.drop_last(), key);
        if items.last().key != key {
            prev.push(items.last())
        } else {
            prev
        }
    }
}

/// Removes the types whose key is the normalised `raw_key`. A key that normalises to
/// nothing, or that no type has, is refused.
pub fn delete_custom_type(items: Vec<CustomType>, raw_key: &str) -> (r: Result<
    Vec<CustomType>,
    AppError,
>)
    ensures
        ({
            let key = normalized_key(raw_key@);
            match r {
                Ok(list) => key.len() > 0 && has_key(types_view(items@), key) && types_view(list@)
                    == without_key(types_view(items@), key),
                Err(e) => if key.len() == 0 {
                    e.is(ErrorKind::BadRequest, msg_bad_key())
                } else {
                    !has_key(types_view(items@), key) && e.is(ErrorKind::NotFound, msg_type_not_found())
                },
            }
        }),
{
    let key = normalize_custom_type_key(raw_key);
    if key.as_str().is_empty() {
        return Err(AppError::BadRequest(owned("Некорректный ключ типа")));
    }
    let ghost iv = types_view(items@);
    let count_before = items.len();
    let mut kept: Vec<CustomType> = Vec::new();
    let mut rest = items;
    let mut k: usize = 0;
    assert(types_view(rest@) =~= iv.skip(0));
    while rest.len() > 0
        invariant
            iv.len() == count_before,
            k <= iv.len(),
            types_view(rest@) == iv.skip(k as int),
            types_view(kept@) == without_key(iv.take(k as int), key@),
            kept@.len() == k ==> forall|j: int| 0 <= j < k ==> iv[j].key != key@,
            (forall|j: int| 0 <= j < k ==> iv[j].key != key@) ==> kept@.len() == k,
            kept@.len() <= k,
        decreases rest@.len(),
    {
        let ghost rest_seq = rest@;
        assert(types_view(rest_seq).len() == rest_seq.len());
        let x = rest.remove(0);
        assert(k < iv.len());
        assert(x@ == iv[k as int]) by {
            assert(types_view(rest_seq)[0] == iv.skip(k as int)[0]);
        }
        let ghost pre = iv.take(k + 1);
        assert(pre.drop_last() =~= iv.take(k as int));
        assert(pre.last() == iv[k as int]);
        if x.key != key {
            kept.push(x);
            assert(types_view(kept@) =~= without_key(pre, key@));
        }
        proof {
            assert forall|j: int| 0 <= j < rest@.len() implies types_view(rest@)[j] == iv.skip(k + 1)[j] by {
                assert(rest@[j] == rest_seq[j + 1]);
                assert(types_view(rest_seq)[j + 1] == iv.skip(k as int)[j + 1]);
            }
            assert(types_view(rest@) =~= iv.skip(k + 1));
        }
        k += 1;
    }
    assert(iv.take(k as int) =~= iv);
    if kept.len() == count_before {
        proof {
            assert(!has_key(iv, key@));
        }
        return Err(AppError::NotFound(owned("Тип не найден")));
    }
    Ok(kept)
}

} // verus!
