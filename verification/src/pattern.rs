//! Regular-expression matching (with the `regex` crate) and the placeholder syntax
//! `{{name:type:format}}` found in document text.
use vstd::prelude::*;
use crate::text::{chars_of, slice_chars, string_from_chars, trim, trim_chars};

verus! {

/// The number of bytes of the UTF-8 encoding of a text.
pub open spec fn byte_len(s: Seq<char>) -> int {
    vstd::utf8::encode_utf8(s).len() as int
}

/// Whether byte offset `b` ends the encoding of a prefix of `text`: a character
/// boundary of the text's UTF-8 bytes.
pub open spec fn is_prefix_end(text: Seq<char>, b: int) -> bool {
    exists|k: int| 0 <= k <= text.len() && byte_len(text.take(k)) == b
}

/// The character position of a character boundary given as a byte offset.
pub open spec fn char_index(text: Seq<char>, b: int) -> int {
    choose|k: int| 0 <= k <= text.len() && byte_len(text.take(k)) == b
}

/// What `regex::Regex::new(pattern)` followed by `captures_iter(text)` yields: `None`
/// when the pattern does not compile, else for each successive match the span of
/// every group (`None` for a group that did not take part), as byte offsets.
pub uninterp spec fn regex_captures_of(pattern: Seq<char>, text: Seq<char>) -> Option<
    Seq<Seq<Option<(int, int)>>>,
>;

/// The spans of `regex_captures_of` as character positions.
pub open spec fn char_captures_of(pattern: Seq<char>, text: Seq<char>) -> Option<Seq<Seq<Option<(int, int)>>>> {
    match regex_captures_of(pattern, text) {
        Some(caps) => Some(
            caps.map_values(
                |m: Seq<Option<(int, int)>>|
                    m.map_values(
                        |g: Option<(int, int)>|
                            match g {
                                Some(sp) => Some((char_index(text, sp.0), char_index(text, sp.1))),
                                None => None,
                            },
                    ),
            ),
        ),
        None => None,
    }
}

/// Spans in machine integers, as mathematical integers.
pub open spec fn spans_view(r: Option<Vec<Vec<Option<(usize, usize)>>>>) -> Option<
    Seq<Seq<Option<(int, int)>>>,
> {
    match r {
        Some(ms) => Some(
            ms@.map_values(
                |m: Vec<Option<(usize, usize)>>|
                    m@.map_values(
                        |g: Option<(usize, usize)>|
                            match g {
                                Some(s) => Some((s.0 as int, s.1 as int)),
                                None => None,
                            },
                    ),
            ),
        ),
        None => None,
    }
}

/// Calls `regex::Regex::new(pattern)` and then `captures_iter(text)`, each group's
/// span as its `start()` and `end()`. Trusted: the result is a function of the pattern
/// and the text; every match has group 0 (the whole match); every span starts at or
/// before its end, and both are byte offsets of character boundaries of the text (the
/// crate's `Match` slices the text there); successive matches do not overlap (each
/// whole match ends at or before the next one starts).
#[verifier::external_body]
fn regex_byte_captures(pattern: &str, text: &str) -> (r: Option<Vec<Vec<Option<(usize, usize)>>>>)
    ensures
        spans_view(r) == regex_captures_of(pattern@, text@),
        r matches Some(ms) ==> {
            &&& forall|i: int| 0 <= i < ms@.len() ==> (#[trigger] ms@[i])@.len() > 0 && ms@[i]@[0] is Some
            &&& forall|i: int, g: int|
                0 <= i < ms@.len() && 0 <= g < ms@[i]@.len() ==> (#[trigger] ms@[i]@[g] matches Some(s)
                    ==> s.0 <= s.1 && is_prefix_end(text@, s.0 as int) && is_prefix_end(text@, s.1 as int))
            &&& forall|i: int, j: int|
                0 <= i < j < ms@.len() ==> (#[trigger] ms@[i]@[0]).unwrap().1 <= (
                #[trigger] ms@[j]@[0]).unwrap().0
        },
{
    let re = regex::Regex::new(pattern).ok()?;
    Some(re.captures_iter(text).map(|c| c.iter().map(|g| g.map(|m| (m.start(), m.end()))).collect()).collect())
}

/// Lemma: encoding one more character appends its encoding.
pub proof fn lemma_encode_push(s: Seq<char>, c: char)
    ensures
        vstd::utf8::encode_utf8(s.push(c)) == vstd::utf8::encode_utf8(s) + vstd::utf8::encode_scalar(c as u32),
    decreases s.len(),
{
    if s.len() == 0 {
        assert(s.push(c) =~= seq![c]);
        assert(seq![c].drop_first() =~= Seq::<char>::empty());
        assert(seq![c][0] == c);
        assert(vstd::utf8::encode_utf8(Seq::<char>::empty()) =~= Seq::<u8>::empty());
        assert(vstd::utf8::encode_utf8(seq![c]) =~= vstd::utf8::encode_scalar(c as u32));
        assert(vstd::utf8::encode_utf8(s) =~= Seq::<u8>::empty());
        assert(vstd::utf8::encode_utf8(s) + vstd::utf8::encode_scalar(c as u32) =~= vstd::utf8::encode_scalar(c as u32));
    } else {
        lemma_encode_push(s.drop_first(), c);
        assert(s.push(c).drop_first() =~= s.drop_first().push(c));
        assert(s.push(c)[0] == s[0]);
        assert(vstd::utf8::encode_utf8(s.push(c)) =~= vstd::utf8::encode_utf8(s) + vstd::utf8::encode_scalar(c as u32));
    }
}

/// The number of bytes of a character's UTF-8 encoding.
fn char_width(c: char) -> (r: usize)
    ensures
        r == vstd::utf8::encode_scalar(c as u32).len(),
        1 <= r <= 4,
{
    proof {
        vstd::utf8::char_is_scalar(c);
    }
    let u = c as u32;
    if u < 0x80 {
        1
    } else if u < 0x800 {
        2
    } else if u < 0x10000 {
        3
    } else {
        4
    }
}

/// Lemma: a longer prefix has a longer encoding.
pub proof fn lemma_byte_len_increasing(text: Seq<char>, i: int, j: int)
    requires
        0 <= i <= j <= text.len(),
    ensures
        byte_len(text.take(i)) + (j - i) <= byte_len(text.take(j)),
    decreases j - i,
{
    if i < j {
        lemma_byte_len_increasing(text, i, j - 1);
        lemma_encode_push(text.take(j - 1), text[j - 1]);
        assert(text.take(j - 1).push(text[j - 1]) =~= text.take(j));
        vstd::utf8::char_is_scalar(text[j - 1]);
    }
}

/// Lemma: a character boundary names exactly one character position.
pub proof fn lemma_char_index(text: Seq<char>, k: int)
    requires
        0 <= k <= text.len(),
    ensures
        is_prefix_end(text, byte_len(text.take(k))),
        char_index(text, byte_len(text.take(k))) == k,
{
    let b = byte_len(text.take(k));
    assert(is_prefix_end(text, b));
    let c = char_index(text, b);
    if c < k {
        lemma_byte_len_increasing(text, c, k);
    } else if c > k {
        lemma_byte_len_increasing(text, k, c);
    }
}

/// The character position of byte offset `b`, a character boundary of the text
/// (see `char_index`).
fn char_index_of_byte(text: &[char], b: usize) -> (k: usize)
    requires
        is_prefix_end(text@, b as int),
    ensures
        k == char_index(text@, b as int),
        k <= text@.len(),
{
    let ghost k0 = choose|k: int| 0 <= k <= text@.len() && byte_len(text@.take(k)) == b;
    let mut k: usize = 0;
    let mut cur: usize = 0;
    assert(text@.take(0) =~= Seq::<char>::empty());
    while cur < b
        invariant
            0 <= k0 <= text@.len(),
            byte_len(text@.take(k0)) == b,
            k <= k0,
            cur == byte_len(text@.take(k as int)),
            cur <= b,
        decreases b - cur,
    {
        proof {
            if k == k0 {
                assert(false);
            }
            lemma_byte_len_increasing(text@, k + 1, k0);
            lemma_encode_push(text@.take(k as int), text@[k as int]);
            assert(text@.take(k as int).push(text@[k as int]) =~= text@.take(k + 1));
        }
        let w = char_width(text[k]);
        cur = cur + w;
        k = k + 1;
    }
    proof {
        if k < k0 {
            lemma_byte_len_increasing(text@, k as int, k0);
        }
        lemma_char_index(text@, k as int);
    }
    k
}

/// Lemma: character positions keep the order of the byte offsets they come from.
pub proof fn lemma_char_index_order(text: Seq<char>, a: int, b: int)
    requires
        is_prefix_end(text, a),
        is_prefix_end(text, b),
        a <= b,
    ensures
        char_index(text, a) <= char_index(text, b),
        0 <= char_index(text, a) <= text.len(),
{
    let ka = char_index(text, a);
    let kb = char_index(text, b);
    if ka > kb {
        lemma_byte_len_increasing(text, kb, ka);
    }
}

/// The matches of `pattern` in `text` (see `regex_byte_captures`), with every span
/// as character positions: `char_captures_of`. Every match has its whole span; spans
/// lie within the text; successive matches do not overlap.
pub(crate) fn regex_captures(pattern: &str, text: &str) -> (r: Option<Vec<Vec<Option<(usize, usize)>>>>)
    ensures
        spans_view(r) == char_captures_of(pattern@, text@),
        r matches Some(ms) ==> {
            &&& forall|i: int| 0 <= i < ms@.len() ==> (#[trigger] ms@[i])@.len() > 0 && ms@[i]@[0] is Some
            &&& forall|i: int, g: int|
                0 <= i < ms@.len() && 0 <= g < ms@[i]@.len() ==> (#[trigger] ms@[i]@[g] matches Some(s)
                    ==> s.0 <= s.1 <= text@.len())
            &&& forall|i: int, j: int|
                0 <= i < j < ms@.len() ==> (#[trigger] ms@[i]@[0]).unwrap().1 <= (
                #[trigger] ms@[j]@[0]).unwrap().0
        },
{
    let raw = match regex_byte_captures(pattern, text) {
        Some(v) => v,
        None => {
            return None;
        },
    };
    let cs = chars_of(text);
    let n = cs.len();
    let ghost rv = spans_view(Some(raw))->0;
    let ghost t = text@;
    let mut out: Vec<Vec<Option<(usize, usize)>>> = Vec::new();
    let mut i: usize = 0;
    while i < raw.len()
        invariant
            cs@ == t,
            t == text@,
            rv == spans_view(Some(raw))->0,
            rv == regex_captures_of(pattern@, t)->0,
            forall|x: int| 0 <= x < raw@.len() ==> (#[trigger] raw@[x])@.len() > 0 && raw@[x]@[0] is Some,
            forall|x: int, g: int|
                0 <= x < raw@.len() && 0 <= g < raw@[x]@.len() ==> (#[trigger] raw@[x]@[g] matches Some(s)
                    ==> s.0 <= s.1 && is_prefix_end(t, s.0 as int) && is_prefix_end(t, s.1 as int)),
            forall|x: int, y: int|
                0 <= x < y < raw@.len() ==> (#[trigger] raw@[x]@[0]).unwrap().1 <= (
                #[trigger] raw@[y]@[0]).unwrap().0,
            i <= raw@.len(),
            out@.len() == i,
            forall|x: int| 0 <= x < i ==> (#[trigger] out@[x])@.len() == raw@[x]@.len(),
            forall|x: int, g: int| 0 <= x < i && 0 <= g < out@[x]@.len() ==> (#[trigger] out@[x]@[g]) == match raw@[x]@[g] {
                Some(s) => Some((char_index(t, s.0 as int) as usize, char_index(t, s.1 as int) as usize)),
                None => None,
            },
            forall|x: int, g: int|
                0 <= x < i && 0 <= g < out@[x]@.len() ==> (#[trigger] out@[x]@[g] matches Some(s)
                    ==> s.0 <= s.1 <= t.len()),
            forall|x: int| 0 <= x < i ==> (#[trigger] out@[x]@[0]) is Some,
            n == t.len(),
        decreases raw@.len() - i,
    {
        let m = &raw[i];
        let mut conv: Vec<Option<(usize, usize)>> = Vec::new();
        let mut g: usize = 0;
        while g < m.len()
            invariant
                cs@ == t,
                i < raw@.len(),
                m@ == raw@[i as int]@,
                forall|h: int| 0 <= h < m@.len() ==> (#[trigger] m@[h] matches Some(s)
                    ==> s.0 <= s.1 && is_prefix_end(t, s.0 as int) && is_prefix_end(t, s.1 as int)),
                g <= m@.len(),
                conv@.len() == g,
                forall|h: int| 0 <= h < g ==> (#[trigger] conv@[h]) == match m@[h] {
                    Some(s) => Some((char_index(t, s.0 as int) as usize, char_index(t, s.1 as int) as usize)),
                    None => None,
                },
                forall|h: int| 0 <= h < g ==> (#[trigger] conv@[h] matches Some(s) ==> s.0 <= s.1 <= t.len()),
            decreases m@.len() - g,
        {
            match m[g] {
                Some((a, b)) => {
                    assert(m@[g as int] == Some((a, b)));
                    let ca = char_index_of_byte(cs.as_slice(), a);
                    let cb = char_index_of_byte(cs.as_slice(), b);
                    proof {
                        lemma_char_index_order(t, a as int, b as int);
                    }
                    conv.push(Some((ca, cb)));
                },
                None => {
                    conv.push(None);
                },
            }
            g += 1;
        }
        proof {
            assert(m@[0] is Some);
            assert(conv@[0] is Some);
        }
        out.push(conv);
        i += 1;
    }
    proof {
        let cv = spans_view(Some(out))->0;
        let want = char_captures_of(pattern@, t)->0;
        assert(cv.len() == want.len());
        assert forall|x: int| 0 <= x < cv.len() implies cv[x] == want[x] by {
            assert(cv[x] =~= want[x]) by {
                assert forall|g: int| 0 <= g < cv[x].len() implies cv[x][g] == want[x][g] by {
                    assert(out@[x]@[g] == match raw@[x]@[g] {
                        Some(s) => Some((char_index(t, s.0 as int) as usize, char_index(t, s.1 as int) as usize)),
                        None => None,
                    });
                    assert(rv[x][g] == match raw@[x]@[g] {
                        Some(s) => Some((s.0 as int, s.1 as int)),
                        None => None,
                    });
                    if let Some(s) = raw@[x]@[g] {
                        lemma_char_index_order(t, s.0 as int, s.1 as int);
                    }
                }
            }
        }
        assert(cv =~= want);
        assert forall|x: int, y: int| 0 <= x < y < out@.len() implies (#[trigger] out@[x]@[0]).unwrap().1 <= (
            #[trigger] out@[y]@[0]).unwrap().0 by {
            let rx = raw@[x]@[0].unwrap();
            let ry = raw@[y]@[0].unwrap();
            assert(raw@[x]@[0] matches Some(s) ==> s.0 <= s.1 && is_prefix_end(t, s.0 as int) && is_prefix_end(t, s.1 as int));
            assert(raw@[y]@[0] matches Some(s) ==> s.0 <= s.1 && is_prefix_end(t, s.0 as int) && is_prefix_end(t, s.1 as int));
            assert(rx.1 <= ry.0);
            lemma_char_index_order(t, rx.1 as int, ry.0 as int);
            lemma_char_index_order(t, ry.0 as int, ry.0 as int);
            assert(out@[x]@[0] == Some((char_index(t, rx.0 as int) as usize, char_index(t, rx.1 as int) as usize)));
            assert(out@[y]@[0] == Some((char_index(t, ry.0 as int) as usize, char_index(t, ry.1 as int) as usize)));
        }
    }
    Some(out)
}

/// The placeholder syntax: one or two opening braces, a body without braces (blank
/// around it ignored), one or two closing braces.
pub const PLACEHOLDER_PATTERN: &'static str = "\\{\\{?\\s*([^{}]+?)\\s*\\}\\}?";

/// A placeholder found in a text: the character range of the whole match and its
/// body (group 1, trimmed).
#[derive(Debug, Clone, PartialEq, Eq)]
pub struct PlaceholderMatch {
    pub start_char: usize,
    pub end_char: usize,
    pub body: String,
}

/// The span of group `g` of a match, if the group took part.
pub open spec fn group(cap: Seq<Option<(int, int)>>, g: int) -> Option<(int, int)> {
    if 0 <= g < cap.len() {
        cap[g]
    } else {
        None
    }
}

/// The placeholder a match stands for, if its body is not blank.
pub open spec fn match_placeholder(text: Seq<char>, cap: Seq<Option<(int, int)>>) -> Option<
    (int, int, Seq<char>),
> {
    match (group(cap, 0), group(cap, 1)) {
        (Some(whole), Some(body)) => {
            let b = trim(text.subrange(body.0, body.1));
            if b.len() > 0 {
                Some((whole.0, whole.1, b))
            } else {
                None
            }
        },
        _ => None,
    }
}

/// The placeholders of the matches, in order.
pub open spec fn placeholders_from(text: Seq<char>, caps: Seq<Seq<Option<(int, int)>>>) -> Seq<
    (int, int, Seq<char>),
>
    decreases caps.len(),
{
    if caps.len() == 0 {
        Seq::empty()
    } else {
        let prev = placeholders_from(text, caps.drop_last());
        match match_placeholder(text, caps.last()) {
            Some(p) => prev.push(p),
            None => prev,
        }
    }
}

/// The placeholders of a text, in order (none when the pattern does not compile).
pub open spec fn placeholders_in(text: Seq<char>) -> Seq<(int, int, Seq<char>)> {
    match char_captures_of(PLACEHOLDER_PATTERN@, text) {
        Some(caps) => placeholders_from(text, caps),
        None => Seq::empty(),
    }
}

/// The views of placeholder matches.
pub open spec fn matches_view(v: Seq<PlaceholderMatch>) -> Seq<(int, int, Seq<char>)> {
    v.map_values(|m: PlaceholderMatch| (m.start_char as int, m.end_char as int, m.body@))
}

/// Finds the placeholders of a text: each match of `PLACEHOLDER_PATTERN` whose body,
/// trimmed, is not empty, with its character range. The ranges lie within the text
/// and follow one another without overlapping.
pub fn find_placeholder_matches(text: &str) -> (r: Vec<PlaceholderMatch>)
    ensures
        matches_view(r@) == placeholders_in(text@),
        forall|i: int| 0 <= i < r@.len() ==> (#[trigger] r@[i]).start_char <= r@[i].end_char <= text@.len(),
        forall|i: int, j: int| 0 <= i < j < r@.len() ==> (#[trigger] r@[i]).end_char <= (#[trigger] r@[j]).start_char,
{
    let caps = match regex_captures(PLACEHOLDER_PATTERN, text) {
        Some(c) => c,
        None => {
            return Vec::new();
        },
    };
    let ghost cv = spans_view(Some(caps))->0;
    let cs = chars_of(text);
    let mut out: Vec<PlaceholderMatch> = Vec::new();
    let mut k: usize = 0;
    while k < caps.len()
        invariant
            k <= caps@.len(),
            cs@ == text@,
            cv == spans_view(Some(caps))->0,
            cv == char_captures_of(PLACEHOLDER_PATTERN@, text@)->0,
            forall|i: int| 0 <= i < caps@.len() ==> (#[trigger] caps@[i])@.len() > 0 && caps@[i]@[0] is Some,
            forall|i: int, g: int|
                0 <= i < caps@.len() && 0 <= g < caps@[i]@.len() ==> (#[trigger] caps@[i]@[g] matches Some(s)
                    ==> s.0 <= s.1 <= text@.len()),
            forall|i: int, j: int|
                0 <= i < j < caps@.len() ==> (#[trigger] caps@[i]@[0]).unwrap().1 <= (
                #[trigger] caps@[j]@[0]).unwrap().0,
            matches_view(out@) == placeholders_from(text@, cv.take(k as int)),
            forall|i: int| 0 <= i < out@.len() ==> (#[trigger] out@[i]).start_char <= out@[i].end_char <= text@.len(),
            forall|i: int, j: int| 0 <= i < j < out@.len() ==> (#[trigger] out@[i]).end_char <= (#[trigger] out@[j]).start_char,
            k < caps@.len() ==> forall|i: int| 0 <= i < out@.len() ==> (#[trigger] out@[i]).end_char <= caps@[k as int]@[0].unwrap().0,
        decreases caps@.len() - k,
    {
        let ghost pre = cv.take(k + 1);
        assert(pre.drop_last() =~= cv.take(k as int));
        let cap = &caps[k];
        assert(pre.last() == cv[k as int]);
        assert(cv[k as int] == cap@.map_values(|g: Option<(usize, usize)>| match g {
            Some(s) => Some((s.0 as int, s.1 as int)),
            None => None,
        }));
        let whole = cap[0];
        let ghost cvk = cv[k as int];
        assert(cvk.len() == cap@.len());
        assert(cvk[0] == match whole { Some(s) => Some((s.0 as int, s.1 as int)), None => None });
        let body_span = if cap.len() > 1 { cap[1] } else { None };
        assert(group(cvk, 1) == match body_span { Some(s) => Some((s.0 as int, s.1 as int)), None => None });
        match (whole, body_span) {
            (Some(w), Some(b)) => {
                assert(cap@[0] == Some(w));
                assert(cap@[1] == Some(b));
                let body_chars = slice_chars(cs.as_slice(), b.0, b.1);
                let body = trim_chars(body_chars.as_slice());
                if body.len() > 0 {
                    let ghost ov = matches_view(out@);
                    out.push(PlaceholderMatch { start_char: w.0, end_char: w.1, body: string_from_chars(body.as_slice()) });
                    assert(matches_view(out@) =~= ov.push((w.0 as int, w.1 as int, body@)));
                }
            },
            _ => {},
        }
        proof {
            if k + 1 < caps@.len() {
                assert(caps@[k as int]@[0].unwrap().1 <= caps@[k + 1]@[0].unwrap().0);
                assert(caps@[k as int]@[0] matches Some(s) ==> s.0 <= s.1);
            }
        }
        k += 1;
    }
    assert(cv.take(cv.len() as int) =~= cv);
    out
}


/// The parts of `s` between occurrences of `sep` (what `str::split` gives for a
/// character): always at least one part.
pub open spec fn split_on(s: Seq<char>, sep: char) -> Seq<Seq<char>>
    decreases s.len(),
{
    if s.len() == 0 {
        seq![Seq::empty()]
    } else {
        let p = split_on(s.drop_last(), sep);
        if s.last() == sep {
            p.push(Seq::empty())
        } else {
            p.update(p.len() - 1, p.last().push(s.last()))
        }
    }
}

/// Lemma: splitting always gives at least one part.
pub proof fn lemma_split_nonempty(s: Seq<char>, sep: char)
    ensures
        split_on(s, sep).len() >= 1,
    decreases s.len(),
{
    if s.len() > 0 {
        lemma_split_nonempty(s.drop_last(), sep);
    }
}

/// The parts of a placeholder body `name:type:format`, trimmed: the name, the type
/// (`text` when absent) and the format (if present). Further parts are ignored.
pub open spec fn placeholder_parts(ph: Seq<char>) -> (Seq<char>, Seq<char>, Option<Seq<char>>) {
    let parts = split_on(ph, ':');
    (
        trim(parts[0]),
        if parts.len() > 1 {
            trim(parts[1])
        } else {
            "text"@
        },
        if parts.len() > 2 {
            Some(trim(parts[2]))
        } else {
            None
        },
    )
}

/// Splits `s` at every `sep`.
pub fn split_chars(s: &[char], sep: char) -> (r: Vec<Vec<char>>)
    ensures
        crate::plan::char_vecs_view(r@) == split_on(s@, sep),
{
    let mut parts: Vec<Vec<char>> = Vec::new();
    let mut cur: Vec<char> = Vec::new();
    let mut i: usize = 0;
    proof {
        assert(s@.take(0) =~= Seq::<char>::empty());
    }
    while i < s.len()
        invariant
            i <= s@.len(),
            crate::plan::char_vecs_view(parts@).push(cur@) == split_on(s@.take(i as int), sep),
        decreases s@.len() - i,
    {
        let ghost pre = s@.take(i + 1);
        assert(pre.drop_last() =~= s@.take(i as int));
        assert(pre.last() == s@[i as int]);
        let ghost pv = crate::plan::char_vecs_view(parts@);
        if s[i] == sep {
            let done = cur;
            cur = Vec::new();
            parts.push(done);
            assert(crate::plan::char_vecs_view(parts@) =~= pv.push(done@));
            assert(crate::plan::char_vecs_view(parts@).push(cur@) =~= pv.push(done@).push(Seq::empty()));
        } else {
            let ghost old_cur = cur@;
            cur.push(s[i]);
            assert(pv.push(cur@) =~= pv.push(old_cur).update(pv.len() as int, old_cur.push(s@[i as int])));
        }
        i += 1;
    }
    assert(s@.take(s@.len() as int) =~= s@);
    let ghost pv = crate::plan::char_vecs_view(parts@);
    parts.push(cur);
    assert(crate::plan::char_vecs_view(parts@) =~= pv.push(cur@));
    parts
}

/// Splits a placeholder body into name, type and format (see `placeholder_parts`).
pub fn parse_placeholder(ph: &str) -> (r: (String, String, Option<String>))
    ensures
        r.0@ == placeholder_parts(ph@).0,
        r.1@ == placeholder_parts(ph@).1,
        match r.2 {
            Some(f) => placeholder_parts(ph@).2 == Some(f@),
            None => placeholder_parts(ph@).2 is None,
        },
{
    let cs = chars_of(ph);
    let parts = split_chars(cs.as_slice(), ':');
    proof {
        lemma_split_nonempty(cs@, ':');
    }
    let ghost pv = crate::plan::char_vecs_view(parts@);
    assert(pv[0] == parts@[0]@);
    let name = string_from_chars(trim_chars(parts[0].as_slice()).as_slice());
    let field_type = if parts.len() > 1 {
        assert(pv[1] == parts@[1]@);
        string_from_chars(trim_chars(parts[1].as_slice()).as_slice())
    } else {
        crate::error::owned("text")
    };
    let format = if parts.len() > 2 {
        assert(pv[2] == parts@[2]@);
        Some(string_from_chars(trim_chars(parts[2].as_slice()).as_slice()))
    } else {
        None
    };
    (name, field_type, format)
}

} // verus!
