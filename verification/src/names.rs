//! File and folder names: which names the application accepts for uploaded
//! templates, saved documents and template folders, and how folder listings are ordered.
use vstd::prelude::*;
use crate::error::{owned, AppError, ErrorKind};
use crate::sort::{isort, lemma_insert_pos_first, lemma_isort_permutes, sort_strings, str_lt};
use crate::pattern::split_on;
use crate::text::{
    chars_of, contains_char, ends_with, ends_with_chars, eq_chars, starts_with, starts_with_chars,
    string_from_chars, strings_view, trim, trim_chars, append_str,
};

verus! {

/// Where templates and saved documents are kept.
#[derive(Debug, Clone, PartialEq, Eq)]
pub struct Settings {
    pub templates_dir: String,
    pub saved_dir: String,
}

impl Settings {
    /// The default folders: `doc_templates` for templates, `saved` for filled documents.
    pub fn default() -> (r: Settings)
        ensures
            r.templates_dir@ == "doc_templates"@,
            r.saved_dir@ == "saved"@,
    {
        Settings { templates_dir: owned("doc_templates"), saved_dir: owned("saved") }
    }
}

/// The settings in use: the default folders.
pub fn load_settings() -> (r: Settings)
    ensures
        r.templates_dir@ == "doc_templates"@,
        r.saved_dir@ == "saved"@,
{
    Settings::default()
}

/// The message for a refused file name.
pub open spec fn msg_invalid_file_name() -> Seq<char> {
    "Invalid file name"@
}

/// Whether `part` occurs in `s` as a run of consecutive characters.
pub open spec fn is_infix(part: Seq<char>, s: Seq<char>) -> bool {
    exists|i: int| 0 <= i && i + part.len() <= s.len() && #[trigger] s.subrange(i, i + part.len()) == part
}

/// Whether `f` can be the file name of the path `raw`: a non-empty run of `raw`'s
/// characters without `/`.
pub open spec fn file_part_of(f: Seq<char>, raw: Seq<char>) -> bool {
    &&& f.len() > 0
    &&& !f.contains('/')
    &&& is_infix(f, raw)
}

/// Calls `Path::file_name` on `raw`, keeping the result when it is valid UTF-8.
/// Trusted: a name it gives is the last normal component of the path, a non-empty
/// slice of `raw` holding no `/` (a separator on every platform). Which part that is,
/// and when there is none, depends on the platform's path syntax and is not stated.
#[verifier::external_body]
fn path_file_name(raw: &str) -> (r: Option<String>)
    ensures
        r matches Some(f) ==> file_part_of(f@, raw@),
{
    std::path::Path::new(raw).file_name().and_then(|s| s.to_str()).map(|s| s.to_string())
}

/// Accepts the last component of a path as a file name: it must exist, be non-empty
/// and hold no NUL character.
pub fn check_file_name(name: Option<String>) -> (r: Result<String, AppError>)
    ensures
        match name {
            Some(n) if n@.len() > 0 && !n@.contains('\0') => r == Ok::<String, AppError>(n),
            _ => r matches Err(e) && e.is(ErrorKind::BadRequest, msg_invalid_file_name()),
        },
{
    match name {
        Some(n) => {
            let cs = chars_of(n.as_str());
            if cs.len() == 0 || contains_char(cs.as_slice(), '\0') {
                Err(AppError::BadRequest(owned("Invalid file name")))
            } else {
                Ok(n)
            }
        },
        None => Err(AppError::BadRequest(owned("Invalid file name"))),
    }
}

/// The file name of `raw` (its last path component), refused when there is none,
/// when it is empty or when it holds a NUL character.
pub fn safe_file_name(raw: &str) -> (r: Result<String, AppError>)
    ensures
        match r {
            Ok(n) => file_part_of(n@, raw@) && !n@.contains('\0'),
            Err(e) => e.is(ErrorKind::BadRequest, msg_invalid_file_name()),
        },
{
    check_file_name(path_file_name(raw))
}

/// The `.docx` extension.
pub open spec fn docx_suffix() -> Seq<char> {
    ".docx"@
}

/// A file name with `.docx` added unless it already ends with it.
pub open spec fn with_docx_suffix(name: Seq<char>) -> Seq<char> {
    if ends_with(name, docx_suffix()) {
        name
    } else {
        name + docx_suffix()
    }
}

/// Adds `.docx` to a file name unless it already ends with it.
pub fn docx_name_from(name: String) -> (r: String)
    ensures
        r@ == with_docx_suffix(name@),
{
    let cs = chars_of(name.as_str());
    let suffix = chars_of(".docx");
    if ends_with_chars(cs.as_slice(), suffix.as_slice()) {
        name
    } else {
        let mut out = cs;
        append_str(&mut out, ".docx");
        string_from_chars(out.as_slice())
    }
}

/// The name under which a template is saved: the file name of `raw` (see
/// `safe_file_name`), with `.docx` added unless it already ends with it.
pub fn ensure_docx_name(raw: &str) -> (r: Result<String, AppError>)
    ensures
        match r {
            Ok(n) => n@.len() > 0 && !n@.contains('\0') && !n@.contains('/') && ends_with(n@, docx_suffix())
                && exists|f: Seq<char>| file_part_of(f, raw@) && n@ == with_docx_suffix(f),
            Err(e) => e.is(ErrorKind::BadRequest, msg_invalid_file_name()),
        },
{
    let file_name = safe_file_name(raw)?;
    let ghost base = file_name@;
    let r = docx_name_from(file_name);
    proof {
        let s = docx_suffix();
        assert(s =~= seq!['.', 'd', 'o', 'c', 'x']) by {
            reveal_strlit(".docx");
        }
        assert(file_part_of(base, raw@));
        if !ends_with(base, s) {
            assert forall|i: int| 0 <= i < (base + s).len() implies (base + s)[i] != '/' by {
                if i < base.len() {
                    assert((base + s)[i] == base[i]);
                } else {
                    assert((base + s)[i] == s[i - base.len()]);
                }
            }
            assert((base + s).skip((base + s).len() - s.len()) =~= s);
            assert forall|i: int| 0 <= i < (base + s).len() implies (base + s)[i] != '\0' by {
                if i < base.len() {
                    assert((base + s)[i] == base[i]);
                } else {
                    assert((base + s)[i] == s[i - base.len()]);
                    assert(s =~= seq!['.', 'd', 'o', 'c', 'x']) by {
                        reveal_strlit(".docx");
                    }
                }
            }
        }
    }
    Ok(r)
}

/// The message for a template that cannot be found or named.
pub open spec fn msg_template_not_found() -> Seq<char> {
    "Шаблон не найден"@
}

/// Whether a relative template path is acceptable, from its parts: the text is not
/// blank, the path is not absolute, every component is a normal one without `\`
/// or NUL, and the extension is `docx`.
pub open spec fn relative_docx_path_ok(
    raw: Seq<char>,
    absolute: bool,
    components: Seq<Option<String>>,
    extension: Option<String>,
) -> bool {
    &&& trim(raw).len() > 0
    &&& !absolute
    &&& forall|i: int| 0 <= i < components.len() ==> match #[trigger] components[i] {
        Some(part) => !part@.contains('\\') && !part@.contains('\0'),
        None => false,
    }
    &&& match extension {
        Some(e) => e@ == "docx"@,
        None => false,
    }
}

/// Judges a relative template path from its parts (see `relative_docx_path_ok`).
pub fn check_relative_docx_path(
    raw: &str,
    absolute: bool,
    components: &Vec<Option<String>>,
    extension: &Option<String>,
) -> (r: Result<(), AppError>)
    ensures
        match r {
            Ok(()) => relative_docx_path_ok(raw@, absolute, components@, *extension),
            Err(e) => !relative_docx_path_ok(raw@, absolute, components@, *extension) && e.is(
                ErrorKind::NotFound,
                msg_template_not_found(),
            ),
        },
{
    let cs = chars_of(raw);
    let t = trim_chars(cs.as_slice());
    if t.len() == 0 || absolute {
        return Err(AppError::NotFound(owned("Шаблон не найден")));
    }
    let mut i: usize = 0;
    while i < components.len()
        invariant
            i <= components@.len(),
            forall|j: int| 0 <= j < i ==> match #[trigger] components@[j] {
                Some(part) => !part@.contains('\\') && !part@.contains('\0'),
                None => false,
            },
        decreases components@.len() - i,
    {
        match &components[i] {
            Some(part) => {
                let pc = chars_of(part.as_str());
                if contains_char(pc.as_slice(), '\\') || contains_char(pc.as_slice(), '\0') {
                    return Err(AppError::NotFound(owned("Шаблон не найден")));
                }
            },
            None => {
                return Err(AppError::NotFound(owned("Шаблон не найден")));
            },
        }
        i += 1;
    }
    match extension {
        Some(e) => {
            let ec = chars_of(e.as_str());
            let docx = chars_of("docx");
            if !eq_chars(ec.as_slice(), docx.as_slice()) {
                return Err(AppError::NotFound(owned("Шаблон не найден")));
            }
        },
        None => {
            return Err(AppError::NotFound(owned("Шаблон не найден")));
        },
    }
    Ok(())
}

/// Whether `s` is a plain path segment: not empty, neither `.` nor `..`, and without
/// `/`, `\`, `:` or NUL.
pub open spec fn plain_segment(s: Seq<char>) -> bool {
    &&& s.len() > 0
    &&& s != seq!['.']
    &&& s != seq!['.', '.']
    &&& !s.contains('/')
    &&& !s.contains('\\')
    &&& !s.contains(':')
    &&& !s.contains('\0')
}

/// Whether a path is plain and relative: its parts between `/` are all plain segments
/// (so it has no root, no prefix, no `.` or `..` and no empty part).
pub open spec fn plain_relative_path(raw: Seq<char>) -> bool {
    forall|i: int| 0 <= i < split_on(raw, '/').len() ==> plain_segment(#[trigger] split_on(raw, '/')[i])
}

/// The position of the last `.` in `s`, or -1.
pub open spec fn last_dot(s: Seq<char>) -> int
    decreases s.len(),
{
    if s.len() == 0 {
        -1
    } else if s.last() == '.' {
        s.len() - 1
    } else {
        last_dot(s.drop_last())
    }
}

/// The extension of a file name: what follows its last `.`, when that `.` is not its
/// first character; none otherwise (as `Path::extension` reads a file name).
pub open spec fn name_extension(name: Seq<char>) -> Option<Seq<char>> {
    if last_dot(name) > 0 {
        Some(name.skip(last_dot(name) + 1))
    } else {
        None
    }
}

/// Calls `Path::is_absolute`. Trusted: a plain relative path (see
/// `plain_relative_path`) is not absolute on any platform (it neither starts with a
/// separator nor has a prefix). The rest depends on the platform's path syntax and is
/// not stated.
#[verifier::external_body]
fn path_is_absolute(raw: &str) -> (r: bool)
    ensures
        plain_relative_path(raw@) ==> !r,
{
    std::path::Path::new(raw).is_absolute()
}

/// Whether a path starts at the root: its first character is `/`.
pub open spec fn starts_at_root(raw: Seq<char>) -> bool {
    raw.len() > 0 && raw[0] == '/'
}

/// Whether a path has a `..` segment: two dots with `/` or an end of the text on
/// each side.
pub open spec fn has_parent_segment(raw: Seq<char>) -> bool {
    exists|i: int|
        0 <= i && i + 2 <= raw.len() && #[trigger] raw.subrange(i, i + 2) == seq!['.', '.'] && (i == 0
            || raw[i - 1] == '/') && (i + 2 == raw.len() || raw[i + 2] == '/')
}

/// Calls `Path::components`: each normal component as text (lossily decoded), any
/// other component (root, `.`, `..`, prefix) as `None`. Trusted: a path that starts
/// with `/`, or that has a `..` segment between `/` separators, has a component that is
/// not normal (`/` separates components on every platform; where a Windows prefix turns
/// that off, the prefix itself is such a component). A plain relative path (see
/// `plain_relative_path`) has exactly its parts between `/` as normal components, on
/// every platform. The rest depends on the platform's path syntax and is not stated.
#[verifier::external_body]
fn path_components(raw: &str) -> (r: Vec<Option<String>>)
    ensures
        starts_at_root(raw@) || has_parent_segment(raw@) ==> exists|j: int| 0 <= j < r@.len() && r@[j] is None,
        plain_relative_path(raw@) ==> r@.len() == split_on(raw@, '/').len() && forall|i: int|
            0 <= i < r@.len() ==> (#[trigger] r@[i] matches Some(part) && part@ == split_on(raw@, '/')[i]),
{
    std::path::Path::new(raw).components().map(|c| match c {
        std::path::Component::Normal(p) => Some(p.to_string_lossy().into_owned()),
        _ => None,
    }).collect()
}

/// Calls `Path::extension`, keeping it when it is valid UTF-8. Trusted: for a plain
/// relative path (see `plain_relative_path`), the file name is its last part and the
/// extension is that part's `name_extension`, on every platform. The rest depends on
/// the platform's path syntax and is not stated.
#[verifier::external_body]
fn path_extension(raw: &str) -> (r: Option<String>)
    ensures
        plain_relative_path(raw@) ==> match name_extension(split_on(raw@, '/').last()) {
            Some(e) => r matches Some(x) && x@ == e,
            None => r is None,
        },
{
    std::path::Path::new(raw).extension().and_then(|s| s.to_str()).map(|s| s.to_string())
}

/// Accepts a template path relative to the template folder: not blank, not absolute,
/// made of normal components without `\` or NUL, with the extension `docx`.
/// Returns the path unchanged.
pub fn validate_relative_docx_path(raw: &str) -> (r: Result<String, AppError>)
    ensures
        match r {
            Ok(p) => p@ == raw@ && trim(raw@).len() > 0 && !starts_at_root(raw@) && !has_parent_segment(raw@),
            Err(e) => e.is(ErrorKind::NotFound, msg_template_not_found()),
        },
        plain_relative_path(raw@) && trim(raw@).len() > 0 && name_extension(split_on(raw@, '/').last()) == Some(
            seq!['d', 'o', 'c', 'x'],
        ) ==> r is Ok,
{
    let absolute = path_is_absolute(raw);
    let components = path_components(raw);
    let extension = path_extension(raw);
    proof {
        if plain_relative_path(raw@) && trim(raw@).len() > 0 && name_extension(split_on(raw@, '/').last()) == Some(
            seq!['d', 'o', 'c', 'x'],
        ) {
            reveal_strlit("docx");
            assert forall|i: int| 0 <= i < components@.len() implies match #[trigger] components@[i] {
                Some(part) => !part@.contains('\\') && !part@.contains('\0'),
                None => false,
            } by {
                assert(plain_segment(split_on(raw@, '/')[i]));
            }
            crate::pattern::lemma_split_nonempty(raw@, '/');
            assert(plain_segment(split_on(raw@, '/')[0]));
            assert(!absolute);
            assert(extension matches Some(e) && e@ == "docx"@);
            assert(relative_docx_path_ok(raw@, absolute, components@, extension));
        }
    }
    check_relative_docx_path(raw, absolute, &components, &extension)?;
    proof {
        if starts_at_root(raw@) || has_parent_segment(raw@) {
            let j = choose|j: int| 0 <= j < components@.len() && components@[j] is None;
            assert(match components@[j] {
                Some(part) => !part@.contains('\\') && !part@.contains('\0'),
                None => false,
            });
        }
    }
    Ok(owned(raw))
}

/// Whether a relative path is joined by appending it: it is not empty, does not start
/// with a separator (`/` or `\`) and holds no `:` (so it has neither a root nor a
/// Windows prefix).
pub open spec fn appends_on_join(rel: Seq<char>) -> bool {
    &&& rel.len() > 0
    &&& rel[0] != '/'
    &&& rel[0] != '\\'
    &&& !rel.contains(':')
}

/// Whether a folder is a Windows verbatim or device path (starts with two `\`).
pub open spec fn starts_with_two_backslashes(dir: Seq<char>) -> bool {
    dir.len() >= 2 && dir[0] == '\\' && dir[1] == '\\'
}

/// Calls `Path::join` and keeps the result as text (both parts are text, so nothing is
/// lost). Trusted: when `rel` has no root and no prefix and `dir` is not a verbatim
/// path, `rel` is appended to `dir` (after a separator when `dir` needs one), so the
/// result starts with `dir` and ends with `rel`. Which separator is used depends on the
/// platform and is not stated.
#[verifier::external_body]
fn path_join(dir: &str, rel: &str) -> (r: String)
    ensures
        appends_on_join(rel@) && !starts_with_two_backslashes(dir@) ==> starts_with(r@, dir@) && ends_with(r@, rel@),
{
    std::path::Path::new(dir).join(rel).to_string_lossy().into_owned()
}

/// The file of a template: the relative path is validated (see
/// `validate_relative_docx_path`) and joined to the template folder. A path from the
/// root, or one that climbs out with `..`, is refused; an accepted path lies in the
/// template folder: the result starts with the folder and ends with the path.
pub fn resolve_template_file(templates_dir: &str, raw: &str) -> (r: Result<String, AppError>)
    ensures
        r matches Err(e) ==> e.is(ErrorKind::NotFound, msg_template_not_found()),
        trim(raw@).len() == 0 ==> r is Err,
        starts_at_root(raw@) || has_parent_segment(raw@) ==> r is Err,
        r matches Ok(p) ==> (appends_on_join(raw@) && !starts_with_two_backslashes(templates_dir@) ==> starts_with(
            p@,
            templates_dir@,
        ) && ends_with(p@, raw@)),
        plain_relative_path(raw@) && trim(raw@).len() > 0 && name_extension(split_on(raw@, '/').last()) == Some(
            seq!['d', 'o', 'c', 'x'],
        ) ==> r is Ok,
{
    let rel = validate_relative_docx_path(raw)?;
    Ok(path_join(templates_dir, rel.as_str()))
}

/// The message for a refused folder name.
pub open spec fn msg_bad_folder() -> Seq<char> {
    "Некорректное имя папки"@
}

/// The verdict on a folder name: `None` for the template folder itself (blank or `.`),
/// `Some(name)` for a subfolder, `Err` for a name with a path separator, NUL,
/// a leading dot, or `..`.
pub open spec fn folder_verdict(raw: Seq<char>) -> Option<Option<Seq<char>>> {
    let f = trim(raw);
    if f.len() == 0 || f == "."@ {
        Some(None)
    } else if f.contains('/') || f.contains('\\') || f == ".."@ || starts_with(f, "."@)
        || f.contains('\0') {
        None
    } else {
        Some(Some(f))
    }
}

/// Validates the folder a template is saved into (see `folder_verdict`).
pub fn validate_folder_name(raw: &str) -> (r: Result<Option<String>, AppError>)
    ensures
        match r {
            Ok(None) => folder_verdict(raw@) == Some(None::<Seq<char>>),
            Ok(Some(f)) => folder_verdict(raw@) == Some(Some(f@)),
            Err(e) => folder_verdict(raw@) is None && e.is(ErrorKind::BadRequest, msg_bad_folder()),
        },
{
    let cs = chars_of(raw);
    let f = trim_chars(cs.as_slice());
    let dot = chars_of(".");
    let dotdot = chars_of("..");
    if f.len() == 0 || eq_chars(f.as_slice(), dot.as_slice()) {
        return Ok(None);
    }
    if contains_char(f.as_slice(), '/') || contains_char(f.as_slice(), '\\') || eq_chars(
        f.as_slice(),
        dotdot.as_slice(),
    ) || starts_with_chars(f.as_slice(), dot.as_slice()) || contains_char(f.as_slice(), '\0') {
        return Err(AppError::BadRequest(owned("Некорректное имя папки")));
    }
    Ok(Some(string_from_chars(f.as_slice())))
}


/// The `.docx` files of a folder listing, given as (name, is a regular file) pairs,
/// sorted by name.
pub open spec fn docx_files(entries: Seq<(String, bool)>) -> Seq<Seq<char>>
    decreases entries.len(),
{
    if entries.len() == 0 {
        Seq::empty()
    } else {
        let prev = docx_files(entries.drop_last());
        let e = entries.last();
        if e.1 && ends_with(e.0@, docx_suffix()) {
            prev.push(e.0@)
        } else {
            prev
        }
    }
}

/// Keeps the regular files whose name ends with `.docx` and sorts their names.
pub fn select_docx_files(entries: Vec<(String, bool)>) -> (r: Vec<String>)
    ensures
        strings_view(r@) == isort(docx_files(entries@), str_lt()),
{
    let mut files: Vec<String> = Vec::new();
    let suffix = chars_of(".docx");
    let mut rest = entries;
    let ghost all = rest@;
    let total = rest.len();
    let mut k: usize = 0;
    assert(rest@ =~= all.skip(0));
    while rest.len() > 0
        invariant
            all.len() == total,
            k <= all.len(),
            rest@ == all.skip(k as int),
            suffix@ == docx_suffix(),
            strings_view(files@) == docx_files(all.take(k as int)),
        decreases rest@.len(),
    {
        let ghost rest_seq = rest@;
        let e = rest.remove(0);
        assert(k < all.len());
        assert(e == all[k as int]) by {
            assert(rest_seq[0] == all.skip(k as int)[0]);
        }
        let ghost pre = all.take(k + 1);
        assert(pre.drop_last() =~= all.take(k as int));
        let name_chars = chars_of(e.0.as_str());
        if e.1 && ends_with_chars(name_chars.as_slice(), suffix.as_slice()) {
            files.push(e.0);
            assert(strings_view(files@) =~= docx_files(pre));
        }
        assert(rest@ =~= all.skip(k + 1));
        k += 1;
    }
    assert(all.take(k as int) =~= all);
    sort_strings(files)
}

/// The order of saved documents: newer first.
pub open spec fn newer_first() -> spec_fn((Seq<char>, int), (Seq<char>, int)) -> bool {
    |a: (Seq<char>, int), b: (Seq<char>, int)| a.1 > b.1
}

/// The views of (name, time) entries.
pub open spec fn timed_view(v: Seq<(String, i128)>) -> Seq<(Seq<char>, int)> {
    v.map_values(|e: (String, i128)| (e.0@, e.1 as int))
}

/// The names of the entries, newest first (a stable sort by modification time,
/// given in nanoseconds from the epoch).
pub fn order_by_mtime(entries: Vec<(String, i128)>) -> (r: Vec<String>)
    ensures
        strings_view(r@) == isort(timed_view(entries@), newer_first()).map_values(
            |e: (Seq<char>, int)| e.0,
        ),
{
    let ghost orig = timed_view(entries@);
    let total = entries.len();
    let mut rest = entries;
    let mut out: Vec<(String, i128)> = Vec::new();
    let mut k: usize = 0;
    assert(timed_view(rest@) =~= orig.skip(0));
    while rest.len() > 0
        invariant
            orig.len() == total,
            k <= orig.len(),
            timed_view(rest@) == orig.skip(k as int),
            timed_view(out@) == isort(orig.take(k as int), newer_first()),
        decreases rest@.len(),
    {
        let ghost rest_seq = rest@;
        assert(timed_view(rest_seq).len() == rest_seq.len());
        let x = rest.remove(0);
        assert(k < orig.len());
        let ghost xv = (x.0@, x.1 as int);
        let ghost outv = timed_view(out@);
        assert(xv == orig[k as int]) by {
            assert(timed_view(rest_seq)[0] == orig.skip(k as int)[0]);
        }
        let mut p: usize = 0;
        while p < out.len() && !(x.1 > out[p].1)
            invariant
                p <= out@.len(),
                outv == timed_view(out@),
                xv.1 == x.1 as int,
                forall|j: int| 0 <= j < p ==> !(newer_first())(xv, #[trigger] outv[j]),
            decreases out@.len() - p,
        {
            assert(outv[p as int] == (out@[p as int].0@, out@[p as int].1 as int));
            p += 1;
        }
        proof {
            if p < out@.len() {
                assert(outv[p as int] == (out@[p as int].0@, out@[p as int].1 as int));
            }
            lemma_insert_pos_first(outv, xv, newer_first(), p as int);
            let pre = orig.take(k + 1);
            assert(pre.drop_last() =~= orig.take(k as int));
            assert(pre.last() == xv);
        }
        out.insert(p, x);
        proof {
            assert(timed_view(out@) =~= outv.insert(p as int, xv));
            assert forall|j: int| 0 <= j < rest@.len() implies timed_view(rest@)[j] == orig.skip(k + 1)[j] by {
                assert(rest@[j] == rest_seq[j + 1]);
                assert(timed_view(rest_seq)[j + 1] == orig.skip(k as int)[j + 1]);
            }
            assert(timed_view(rest@) =~= orig.skip(k + 1));
        }
        k += 1;
    }
    assert(orig.take(k as int) =~= orig);
    let ghost sorted = timed_view(out@);
    let mut names: Vec<String> = Vec::new();
    let mut i: usize = 0;
    while i < out.len()
        invariant
            i <= out@.len(),
            sorted == timed_view(out@),
            strings_view(names@) == sorted.take(i as int).map_values(|e: (Seq<char>, int)| e.0),
        decreases out@.len() - i,
    {
        let nm = out[i].0.clone();
        assert(sorted[i as int] == (out@[i as int].0@, out@[i as int].1 as int));
        assert(nm@ == sorted[i as int].0);
        let ghost before = strings_view(names@);
        names.push(nm);
        assert(strings_view(names@) =~= before.push(nm@));
        assert(strings_view(names@) =~= sorted.take(i + 1).map_values(|e: (Seq<char>, int)| e.0));
        i += 1;
    }
    assert(sorted.take(out@.len() as int) =~= sorted);
    names
}

/// A group of templates shown together: the template folder itself or one subfolder.
#[derive(Debug, Clone, PartialEq, Eq)]
pub struct FolderInfo {
    pub name: String,
    pub path_prefix: String,
    pub files: Vec<String>,
}

/// The name under which the template folder itself is listed.
pub open spec fn root_folder_label() -> Seq<char> {
    "doc_templates (корень)"@
}

/// The names of subfolders.
pub open spec fn subdir_names(subdirs: Seq<(String, Vec<String>)>) -> Seq<Seq<char>> {
    subdirs.map_values(|d: (String, Vec<String>)| d.0@)
}

/// Whether `f` is the first of the subfolders named `name`.
pub open spec fn first_subdir_named(subdirs: Seq<(String, Vec<String>)>, name: Seq<char>, f: int) -> bool {
    &&& 0 <= f < subdirs.len()
    &&& subdirs[f].0@ == name
    &&& forall|g: int| 0 <= g < f ==> (#[trigger] subdirs[g]).0@ != name
}

/// The position of the first subfolder named `name`, which is among them.
fn find_subdir(subdirs: &Vec<(String, Vec<String>)>, name: &String) -> (r: usize)
    requires
        subdir_names(subdirs@).contains(name@),
    ensures
        first_subdir_named(subdirs@, name@, r as int),
{
    let target = chars_of(name.as_str());
    let mut g: usize = 0;
    while g < subdirs.len()
        invariant
            target@ == name@,
            g <= subdirs@.len(),
            subdir_names(subdirs@).contains(name@),
            forall|x: int| 0 <= x < g ==> (#[trigger] subdirs@[x]).0@ != name@,
        decreases subdirs@.len() - g,
    {
        let here = chars_of(subdirs[g].0.as_str());
        if eq_chars(here.as_slice(), target.as_slice()) {
            return g;
        }
        g += 1;
    }
    proof {
        let x = choose|x: int| 0 <= x < subdir_names(subdirs@).len() && subdir_names(subdirs@)[x] == name@;
        assert(subdirs@[x].0@ == name@);
    }
    0
}

/// Groups templates: first the template folder itself (its label, an empty prefix,
/// its files), then each subfolder in ascending order of name (its name, the name
/// followed by `/`, its files).
pub fn group_template_files(root_files: Vec<String>, subdirs: Vec<(String, Vec<String>)>) -> (r: Vec<FolderInfo>)
    ensures
        r@.len() == subdirs@.len() + 1,
        r@[0].name@ == root_folder_label(),
        r@[0].path_prefix@.len() == 0,
        r@[0].files@ == root_files@,
        forall|i: int| 0 <= i < subdirs@.len() ==> {
            &&& (#[trigger] r@[i + 1]).name@ == isort(subdir_names(subdirs@), str_lt())[i]
            &&& r@[i + 1].path_prefix@ == r@[i + 1].name@.push('/')
            &&& exists|f: int| first_subdir_named(subdirs@, r@[i + 1].name@, f) && r@[i + 1].files@ == subdirs@[f].1@
        },
{
    let ghost all = subdir_names(subdirs@);
    let mut names: Vec<String> = Vec::new();
    let mut i: usize = 0;
    while i < subdirs.len()
        invariant
            all == subdir_names(subdirs@),
            i <= subdirs@.len(),
            strings_view(names@) == all.take(i as int),
        decreases subdirs@.len() - i,
    {
        let nm = subdirs[i].0.clone();
        let ghost before = names@;
        names.push(nm);
        proof {
            assert(all[i as int] == subdirs@[i as int].0@);
            assert(names@ == before.push(subdirs@[i as int].0));
            assert(strings_view(names@) =~= strings_view(before).push(all[i as int]));
            assert(all.take(i + 1) =~= all.take(i as int).push(all[i as int]));
        }
        i += 1;
    }
    assert(all.take(all.len() as int) =~= all);
    let sorted = sort_strings(names);
    let ghost sv = strings_view(sorted@);
    proof {
        lemma_isort_permutes(all, str_lt());
    }
    let mut folders: Vec<FolderInfo> = Vec::new();
    folders.push(FolderInfo { name: owned("doc_templates (корень)"), path_prefix: String::new(), files: root_files });
    let mut k: usize = 0;
    while k < sorted.len()
        invariant
            all == subdir_names(subdirs@),
            sv == strings_view(sorted@),
            sv == isort(all, str_lt()),
            sv.to_multiset() == all.to_multiset(),
            sv.len() == all.len(),
            all.len() == subdirs@.len(),
            k <= sorted@.len(),
            folders@.len() == k + 1,
            folders@[0].name@ == root_folder_label(),
            folders@[0].path_prefix@.len() == 0,
            folders@[0].files@ == root_files@,
            forall|x: int| 0 <= x < k ==> {
                &&& (#[trigger] folders@[x + 1]).name@ == sv[x]
                &&& folders@[x + 1].path_prefix@ == folders@[x + 1].name@.push('/')
                &&& exists|f: int| first_subdir_named(subdirs@, folders@[x + 1].name@, f) && folders@[x + 1].files@ == subdirs@[f].1@
            },
        decreases sorted@.len() - k,
    {
        let dir_name = sorted[k].clone();
        proof {
            assert(sv[k as int] == dir_name@);
            vstd::seq_lib::to_multiset_contains(sv, dir_name@);
            vstd::seq_lib::to_multiset_contains(all, dir_name@);
            assert(sv.contains(dir_name@));
            assert(all.contains(dir_name@));
        }
        let f = find_subdir(&subdirs, &dir_name);
        let files = subdirs[f].1.clone();
        let mut prefix = chars_of(dir_name.as_str());
        prefix.push('/');
        let ghost fi = f as int;
        folders.push(FolderInfo { path_prefix: string_from_chars(prefix.as_slice()), name: dir_name, files });
        proof {
            let x = k as int;
            assert(folders@[x + 1].files@ == subdirs@[fi].1@);
            assert(first_subdir_named(subdirs@, folders@[x + 1].name@, fi));
        }
        k += 1;
    }
    folders
}

/// `s` without its trailing `/` characters.
pub open spec fn strip_end_slashes(s: Seq<char>) -> Seq<char>
    decreases s.len(),
{
    if s.len() > 0 && s.last() == '/' {
        strip_end_slashes(s.drop_last())
    } else {
        s
    }
}

/// The folders a template can be saved into: each group's prefix without trailing `/`.
pub fn template_folder_names(folders: &Vec<FolderInfo>) -> (r: Vec<String>)
    ensures
        r@.len() == folders@.len(),
        forall|i: int| 0 <= i < folders@.len() ==> (#[trigger] r@[i])@ == strip_end_slashes(folders@[i].path_prefix@),
{
    let mut out: Vec<String> = Vec::new();
    let mut i: usize = 0;
    while i < folders.len()
        invariant
            i <= folders@.len(),
            out@.len() == i,
            forall|j: int| 0 <= j < i ==> (#[trigger] out@[j])@ == strip_end_slashes(folders@[j].path_prefix@),
        decreases folders@.len() - i,
    {
        let mut cs = chars_of(folders[i].path_prefix.as_str());
        let ghost full = cs@;
        while cs.len() > 0 && cs[cs.len() - 1] == '/'
            invariant
                strip_end_slashes(full) == strip_end_slashes(cs@),
            decreases cs@.len(),
        {
            assert(cs@.drop_last() =~= cs@.take(cs@.len() - 1));
            cs.pop();
        }
        out.push(string_from_chars(cs.as_slice()));
        i += 1;
    }
    out
}

} // verus!
