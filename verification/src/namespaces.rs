//! XML namespaces of a Word document: the declarations found on its `w:document`
//! element, used to write element and attribute names back with the document's own
//! prefixes.
use vstd::prelude::*;
use crate::pattern::{char_captures_of, group, regex_captures, spans_view};
use crate::text::{append_str, chars_of, eq_chars, escape_html_spec, occurs_at, replace_all, slice_chars, string_from_chars};

verus! {

/// The WordprocessingML namespace.
pub const WORD_NS: &'static str = "http://schemas.openxmlformats.org/wordprocessingml/2006/main";

/// The namespace of the `xml:` prefix.
pub const XML_NS: &'static str = "http://www.w3.org/XML/1998/namespace";

/// The namespace of namespace declarations (`xmlns` attributes).
pub const XMLNS_NS: &'static str = "http://www.w3.org/2000/xmlns/";

/// A namespace declaration: `xmlns` (empty prefix) or `xmlns:prefix`, with its URI.
pub const NS_DECLARATION_PATTERN: &'static str =
    "xmlns(?::([A-Za-z_][A-Za-z0-9_.-]*))?\\s*=\\s*(?:\"([^\"]*)\"|'([^']*)')";

/// The namespaces of a document: the declarations in order as (prefix, URI), and the
/// prefix chosen for each URI as (URI, prefix), the first declared one.
#[derive(Debug, Clone, PartialEq, Eq)]
pub struct NamespaceContext {
    pub declarations: Vec<(String, String)>,
    pub uri_to_prefix: Vec<(String, String)>,
}

/// Pairs of strings as pairs of character sequences.
pub open spec fn pairs_view(v: Seq<(String, String)>) -> Seq<(Seq<char>, Seq<char>)> {
    v.map_values(|p: (String, String)| (p.0@, p.1@))
}

/// The mathematical value of a namespace context.
pub struct ContextView {
    pub declarations: Seq<(Seq<char>, Seq<char>)>,
    pub uri_to_prefix: Seq<(Seq<char>, Seq<char>)>,
}

impl View for NamespaceContext {
    type V = ContextView;

    open spec fn view(&self) -> ContextView {
        ContextView {
            declarations: pairs_view(self.declarations@),
            uri_to_prefix: pairs_view(self.uri_to_prefix@),
        }
    }
}

/// The value for `key` in a list of (key, value) pairs: the first pair's.
pub open spec fn lookup(m: Seq<(Seq<char>, Seq<char>)>, key: Seq<char>) -> Option<Seq<char>>
    decreases m.len(),
{
    if m.len() == 0 {
        None
    } else if m[0].0 == key {
        Some(m[0].1)
    } else {
        lookup(m.drop_first(), key)
    }
}

/// The first position at or after `i` where `pat` occurs in `s`.
pub open spec fn find_from(s: Seq<char>, pat: Seq<char>, i: int) -> Option<int>
    decreases s.len() + 1 - i,
{
    if i < 0 || i + pat.len() > s.len() {
        None
    } else if s.subrange(i, i + pat.len()) == pat {
        Some(i)
    } else {
        find_from(s, pat, i + 1)
    }
}

/// The start tag of the `w:document` element (from `<w:document`, or from the start
/// of the text when there is none, up to the next `>` or the end).
pub open spec fn document_head(xml: Seq<char>) -> Seq<char> {
    let start = match find_from(xml, "<w:document"@, 0) {
        Some(i) => i,
        None => 0,
    };
    let rest = xml.skip(start);
    let end = match find_from(rest, ">"@, 0) {
        Some(i) => i,
        None => rest.len() as int,
    };
    rest.take(end)
}

/// The text of a group of a match, or nothing.
pub open spec fn group_text(text: Seq<char>, cap: Seq<Option<(int, int)>>, g: int) -> Seq<char> {
    match group(cap, g) {
        Some(s) => text.subrange(s.0, s.1),
        None => Seq::empty(),
    }
}

/// The (prefix, URI) of a declaration match: group 1 is the prefix, group 2 or 3 the URI.
pub open spec fn declaration_of(text: Seq<char>, cap: Seq<Option<(int, int)>>) -> (Seq<char>, Seq<char>) {
    (group_text(text, cap, 1), if group(cap, 2) is Some {
        group_text(text, cap, 2)
    } else {
        group_text(text, cap, 3)
    })
}

/// Adds a declaration unless the same (prefix, URI) was already seen; the URI gets the
/// prefix unless it already has one.
pub open spec fn add_declaration(c: ContextView, d: (Seq<char>, Seq<char>)) -> ContextView {
    if c.declarations.contains(d) {
        c
    } else {
        ContextView {
            declarations: c.declarations.push(d),
            uri_to_prefix: if lookup(c.uri_to_prefix, d.1) is Some {
                c.uri_to_prefix
            } else {
                c.uri_to_prefix.push((d.1, d.0))
            },
        }
    }
}

/// The context built from the declaration matches, in order.
pub open spec fn declarations_context(text: Seq<char>, caps: Seq<Seq<Option<(int, int)>>>) -> ContextView
    decreases caps.len(),
{
    if caps.len() == 0 {
        ContextView { declarations: Seq::empty(), uri_to_prefix: Seq::empty() }
    } else {
        add_declaration(declarations_context(text, caps.drop_last()), declaration_of(text, caps.last()))
    }
}

/// Whether some declaration has the prefix `prefix`.
pub open spec fn declares_prefix(c: ContextView, prefix: Seq<char>) -> bool {
    exists|i: int| 0 <= i < c.declarations.len() && c.declarations[i].0 == prefix
}

/// Makes sure the prefix is declared: when no declaration has it, it is declared with
/// the URI, and the URI gets the prefix unless it already has one.
pub open spec fn ensure_prefix(c: ContextView, prefix: Seq<char>, uri: Seq<char>) -> ContextView {
    if declares_prefix(c, prefix) {
        c
    } else {
        ContextView {
            declarations: c.declarations.push((prefix, uri)),
            uri_to_prefix: if lookup(c.uri_to_prefix, uri) is Some {
                c.uri_to_prefix
            } else {
                c.uri_to_prefix.push((uri, prefix))
            },
        }
    }
}

/// The namespaces of a document: the declarations on its `w:document` start tag, in
/// order and without repeats, then `w` and `xml` when they are not declared.
pub open spec fn namespace_context_of(xml: Seq<char>) -> ContextView {
    let head = document_head(xml);
    let found = match char_captures_of(NS_DECLARATION_PATTERN@, head) {
        Some(caps) => declarations_context(head, caps),
        None => ContextView { declarations: Seq::empty(), uri_to_prefix: Seq::empty() },
    };
    ensure_prefix(ensure_prefix(found, "w"@, WORD_NS@), "xml"@, XML_NS@)
}

/// The first position at or after `from` where `pat` occurs in `s`.
pub fn find_chars(s: &[char], pat: &[char], from: usize) -> (r: Option<usize>)
    requires
        from <= s@.len(),
    ensures
        match r {
            Some(i) => find_from(s@, pat@, from as int) == Some(i as int),
            None => find_from(s@, pat@, from as int) is None,
        },
{
    let mut i = from;
    while i <= s.len()
        invariant
            from <= i,
            i <= s@.len() + 1,
            find_from(s@, pat@, from as int) == find_from(s@, pat@, i as int),
        decreases s@.len() + 1 - i,
    {
        if occurs_at(s, i, pat) {
            return Some(i);
        }
        if pat.len() > s.len() - i {
            return None;
        }
        if i == s.len() {
            assert(s@.subrange(i as int, i as int) =~= pat@);
        }
        i += 1;
    }
    None
}

/// The value for `key` in a list of (key, value) pairs.
pub fn lookup_pair(m: &Vec<(String, String)>, key: &[char]) -> (r: Option<String>)
    ensures
        match r {
            Some(v) => lookup(pairs_view(m@), key@) == Some(v@),
            None => lookup(pairs_view(m@), key@) is None,
        },
{
    let ghost mv = pairs_view(m@);
    let mut i: usize = 0;
    assert(mv.skip(0) =~= mv);
    while i < m.len()
        invariant
            i <= m@.len(),
            mv == pairs_view(m@),
            lookup(mv, key@) == lookup(mv.skip(i as int), key@),
        decreases m@.len() - i,
    {
        let k = chars_of(m[i].0.as_str());
        assert(mv.skip(i as int)[0] == mv[i as int]);
        assert(mv.skip(i as int).drop_first() =~= mv.skip(i + 1));
        if eq_chars(k.as_slice(), key) {
            return Some(m[i].1.clone());
        }
        i += 1;
    }
    None
}

fn contains_pair(m: &Vec<(String, String)>, a: &[char], b: &[char]) -> (r: bool)
    ensures
        r == pairs_view(m@).contains((a@, b@)),
{
    let ghost mv = pairs_view(m@);
    let mut i: usize = 0;
    while i < m.len()
        invariant
            i <= m@.len(),
            mv == pairs_view(m@),
            forall|j: int| 0 <= j < i ==> mv[j] != (a@, b@),
        decreases m@.len() - i,
    {
        let x = chars_of(m[i].0.as_str());
        let y = chars_of(m[i].1.as_str());
        if eq_chars(x.as_slice(), a) && eq_chars(y.as_slice(), b) {
            assert(mv[i as int] == (a@, b@));
            return true;
        }
        i += 1;
    }
    false
}

fn declares(m: &Vec<(String, String)>, prefix: &[char]) -> (r: bool)
    ensures
        r == exists|i: int| 0 <= i < m@.len() && m@[i].0@ == prefix@,
{
    let mut i: usize = 0;
    while i < m.len()
        invariant
            i <= m@.len(),
            forall|j: int| 0 <= j < i ==> m@[j].0@ != prefix@,
        decreases m@.len() - i,
    {
        let x = chars_of(m[i].0.as_str());
        if eq_chars(x.as_slice(), prefix) {
            return true;
        }
        i += 1;
    }
    false
}

fn ensure_prefix_exec(ctx: &mut NamespaceContext, prefix: &str, uri: &str)
    ensures
        final(ctx)@ == ensure_prefix(old(ctx)@, prefix@, uri@),
{
    let p = chars_of(prefix);
    let u = chars_of(uri);
    let already = declares(&ctx.declarations, p.as_slice());
    proof {
        let c = old(ctx)@;
        if already {
            let i = choose|i: int| 0 <= i < ctx.declarations@.len() && ctx.declarations@[i].0@ == prefix@;
            assert(c.declarations[i].0 == prefix@);
        } else {
            assert forall|i: int| 0 <= i < c.declarations.len() implies c.declarations[i].0 != prefix@ by {
                assert(c.declarations[i].0 == ctx.declarations@[i].0@);
            }
        }
    }
    if !already {
        let ghost dv = pairs_view(ctx.declarations@);
        ctx.declarations.push((crate::error::owned(prefix), crate::error::owned(uri)));
        assert(pairs_view(ctx.declarations@) =~= dv.push((prefix@, uri@)));
        if lookup_pair(&ctx.uri_to_prefix, u.as_slice()).is_none() {
            let ghost mv = pairs_view(ctx.uri_to_prefix@);
            ctx.uri_to_prefix.push((crate::error::owned(uri), crate::error::owned(prefix)));
            assert(pairs_view(ctx.uri_to_prefix@) =~= mv.push((uri@, prefix@)));
        }
    }
}

/// Reads the namespace declarations of a Word document (see `namespace_context_of`).
pub fn extract_namespace_context(xml: &str) -> (r: NamespaceContext)
    ensures
        r@ == namespace_context_of(xml@),
{
    let cs = chars_of(xml);
    let marker = chars_of("<w:document");
    let gt = chars_of(">");
    let start = match find_chars(cs.as_slice(), marker.as_slice(), 0) {
        Some(i) => i,
        None => 0,
    };
    proof {
        match find_from(cs@, marker@, 0) {
            Some(i) => {
                assert(i + marker@.len() <= cs@.len()) by {
                    lemma_find_from_bound(cs@, marker@, 0);
                }
            },
            None => {},
        }
    }
    let rest = slice_chars(cs.as_slice(), start, cs.len());
    assert(rest@ =~= cs@.skip(start as int));
    let end = match find_chars(rest.as_slice(), gt.as_slice(), 0) {
        Some(i) => i,
        None => rest.len(),
    };
    proof {
        match find_from(rest@, gt@, 0) {
            Some(i) => {
                lemma_find_from_bound(rest@, gt@, 0);
            },
            None => {},
        }
    }
    let head = slice_chars(rest.as_slice(), 0, end);
    assert(head@ =~= rest@.take(end as int));
    let head_str = string_from_chars(head.as_slice());
    let mut ctx = NamespaceContext { declarations: Vec::new(), uri_to_prefix: Vec::new() };
    assert(ctx@.declarations =~= Seq::<(Seq<char>, Seq<char>)>::empty());
    assert(ctx@.uri_to_prefix =~= Seq::<(Seq<char>, Seq<char>)>::empty());
    match regex_captures(NS_DECLARATION_PATTERN, head_str.as_str()) {
        Some(caps) => {
            let ghost cv = spans_view(Some(caps))->0;
            let mut k: usize = 0;
            while k < caps.len()
                invariant
                    k <= caps@.len(),
                    head@ == head_str@,
                    cv == spans_view(Some(caps))->0,
                    forall|i: int, g: int|
                        0 <= i < caps@.len() && 0 <= g < caps@[i]@.len() ==> (#[trigger] caps@[i]@[g] matches Some(s)
                            ==> s.0 <= s.1 <= head_str@.len()),
                    ctx@ == declarations_context(head@, cv.take(k as int)),
                decreases caps@.len() - k,
            {
                let ghost pre = cv.take(k + 1);
                assert(pre.drop_last() =~= cv.take(k as int));
                let cap = &caps[k];
                let ghost cvk = cv[k as int];
                assert(pre.last() == cvk);
                assert(cvk == cap@.map_values(|g: Option<(usize, usize)>| match g {
                    Some(s) => Some((s.0 as int, s.1 as int)),
                    None => None,
                }));
                let g1 = if cap.len() > 1 { cap[1] } else { None };
                let g2 = if cap.len() > 2 { cap[2] } else { None };
                let g3 = if cap.len() > 3 { cap[3] } else { None };
                assert(group(cvk, 1) == match g1 { Some(s) => Some((s.0 as int, s.1 as int)), None => None });
                assert(group(cvk, 2) == match g2 { Some(s) => Some((s.0 as int, s.1 as int)), None => None });
                assert(group(cvk, 3) == match g3 { Some(s) => Some((s.0 as int, s.1 as int)), None => None });
                let prefix = match g1 {
                    Some(s) => slice_chars(head.as_slice(), s.0, s.1),
                    None => Vec::new(),
                };
                let uri = match g2 {
                    Some(s) => slice_chars(head.as_slice(), s.0, s.1),
                    None => match g3 {
                        Some(s) => slice_chars(head.as_slice(), s.0, s.1),
                        None => Vec::new(),
                    },
                };
                assert(prefix@ =~= group_text(head@, cvk, 1));
                assert(uri@ =~= declaration_of(head@, cvk).1);
                if !contains_pair(&ctx.declarations, prefix.as_slice(), uri.as_slice()) {
                    if lookup_pair(&ctx.uri_to_prefix, uri.as_slice()).is_none() {
                        let ghost mv = pairs_view(ctx.uri_to_prefix@);
                        ctx.uri_to_prefix.push((string_from_chars(uri.as_slice()), string_from_chars(prefix.as_slice())));
                        assert(pairs_view(ctx.uri_to_prefix@) =~= mv.push((uri@, prefix@)));
                    }
                    let ghost dv = pairs_view(ctx.declarations@);
                    ctx.declarations.push((string_from_chars(prefix.as_slice()), string_from_chars(uri.as_slice())));
                    assert(pairs_view(ctx.declarations@) =~= dv.push((prefix@, uri@)));
                }
                k += 1;
            }
            assert(cv.take(cv.len() as int) =~= cv);
        },
        None => {},
    }
    ensure_prefix_exec(&mut ctx, "w", WORD_NS);
    ensure_prefix_exec(&mut ctx, "xml", XML_NS);
    ctx
}

/// Lemma: a position found by `find_from` leaves room for the pattern.
pub proof fn lemma_find_from_bound(s: Seq<char>, pat: Seq<char>, i: int)
    ensures
        find_from(s, pat, i) matches Some(j) ==> i <= j && j + pat.len() <= s.len(),
    decreases s.len() + 1 - i,
{
    if i >= 0 && i + pat.len() <= s.len() && s.subrange(i, i + pat.len()) != pat {
        lemma_find_from_bound(s, pat, i + 1);
    }
}


/// A qualified name written with the document's prefixes: `xml:` for the XML
/// namespace; otherwise the prefix the document gives the namespace (none when that
/// prefix is empty); `w:` for the WordprocessingML namespace when the document gives
/// it none; otherwise the local name alone.
pub open spec fn qname(local: Seq<char>, ns: Option<Seq<char>>, c: ContextView) -> Seq<char> {
    match ns {
        None => local,
        Some(uri) => if uri == XML_NS@ {
            "xml:"@ + local
        } else {
            match lookup(c.uri_to_prefix, uri) {
                Some(p) => if p.len() == 0 {
                    local
                } else {
                    p + ":"@ + local
                },
                None => if uri == WORD_NS@ {
                    "w:"@ + local
                } else {
                    local
                },
            }
        },
    }
}

/// Writes a name with the document's prefixes (see `qname`).
pub fn qname_from_ns(local: &str, ns: Option<&str>, ns_ctx: &NamespaceContext) -> (r: String)
    ensures
        r@ == qname(
            local@,
            match ns {
                Some(u) => Some(u@),
                None => None,
            },
            ns_ctx@,
        ),
{
    match ns {
        None => crate::error::owned(local),
        Some(uri) => {
            let u = chars_of(uri);
            let xml = chars_of(XML_NS);
            if eq_chars(u.as_slice(), xml.as_slice()) {
                let mut out = chars_of("xml:");
                append_str(&mut out, local);
                string_from_chars(out.as_slice())
            } else {
                match lookup_pair(&ns_ctx.uri_to_prefix, u.as_slice()) {
                    Some(prefix) => {
                        let p = chars_of(prefix.as_str());
                        if p.len() == 0 {
                            crate::error::owned(local)
                        } else {
                            let mut out = p;
                            append_str(&mut out, ":");
                            append_str(&mut out, local);
                            string_from_chars(out.as_slice())
                        }
                    },
                    None => {
                        let w = chars_of(WORD_NS);
                        if eq_chars(u.as_slice(), w.as_slice()) {
                            let mut out = chars_of("w:");
                            append_str(&mut out, local);
                            string_from_chars(out.as_slice())
                        } else {
                            crate::error::owned(local)
                        }
                    },
                }
            }
        },
    }
}

/// The attribute escaping of the preview (see `crate::text::escape_attr`).
pub open spec fn escape_attr_spec(s: Seq<char>) -> Seq<char> {
    replace_all(escape_html_spec(s), seq!['"'], seq!['&', 'q', 'u', 'o', 't', ';'])
}

/// The namespace attributes for the first `k` declarations.
pub open spec fn declaration_attrs(decls: Seq<(Seq<char>, Seq<char>)>, k: int) -> Seq<char>
    decreases k,
{
    if k <= 0 {
        Seq::empty()
    } else {
        let d = decls[k - 1];
        declaration_attrs(decls, k - 1) + if d.0.len() == 0 {
            " xmlns=\""@ + escape_attr_spec(d.1) + "\""@
        } else {
            " xmlns:"@ + d.0 + "=\""@ + escape_attr_spec(d.1) + "\""@
        }
    }
}

/// A paragraph fragment inside a `root` element that declares the document's
/// namespaces, so that its prefixes can be resolved.
pub open spec fn wrapped_fragment(fragment: Seq<char>, c: ContextView) -> Seq<char> {
    "<root"@ + declaration_attrs(c.declarations, c.declarations.len() as int) + ">"@ + fragment
        + "</root>"@
}

/// Wraps a paragraph fragment in a `root` element declaring the document's namespaces
/// (see `wrapped_fragment`).
pub fn wrap_fragment_in_root(fragment: &str, ns_ctx: &NamespaceContext) -> (r: String)
    ensures
        r@ == wrapped_fragment(fragment@, ns_ctx@),
{
    let mut out = chars_of("<root");
    let ghost c = ns_ctx@;
    let mut i: usize = 0;
    while i < ns_ctx.declarations.len()
        invariant
            i <= ns_ctx.declarations@.len(),
            c == ns_ctx@,
            out@ == "<root"@ + declaration_attrs(c.declarations, i as int),
        decreases ns_ctx.declarations@.len() - i,
    {
        let (prefix, uri) = (&ns_ctx.declarations[i].0, &ns_ctx.declarations[i].1);
        assert(c.declarations[i as int] == (prefix@, uri@));
        let esc = crate::text::escape_attr(uri.as_str());
        let ghost before = out@;
        if chars_of(prefix.as_str()).len() == 0 {
            append_str(&mut out, " xmlns=\"");
            append_str(&mut out, esc.as_str());
            append_str(&mut out, "\"");
            assert(out@ =~= before + (" xmlns=\""@ + escape_attr_spec(uri@) + "\""@));
        } else {
            append_str(&mut out, " xmlns:");
            append_str(&mut out, prefix.as_str());
            append_str(&mut out, "=\"");
            append_str(&mut out, esc.as_str());
            append_str(&mut out, "\"");
            assert(out@ =~= before + (" xmlns:"@ + prefix@ + "=\""@ + escape_attr_spec(uri@) + "\""@));
        }
        i += 1;
    }
    append_str(&mut out, ">");
    append_str(&mut out, fragment);
    append_str(&mut out, "</root>");
    string_from_chars(out.as_slice())
}

} // verus!
