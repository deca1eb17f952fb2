//! Stable ordering: the insertion-sort model that every sort of the library follows,
//! and the lexicographic order of strings.
use vstd::prelude::*;
use crate::text::strings_view;

verus! {

/// Strict lexicographic order on character sequences, by code point (the order of `String`,
/// whose byte order under UTF-8 is the code point order).
pub open spec fn seq_lt(a: Seq<char>, b: Seq<char>) -> bool
    decreases a.len(),
{
    if b.len() == 0 {
        false
    } else if a.len() == 0 {
        true
    } else if a[0] != b[0] {
        a[0] < b[0]
    } else {
        seq_lt(a.drop_first(), b.drop_first())
    }
}

/// Where a stable insertion puts `x` into `s`: before the first element that `x`
/// is strictly less than, or at the end.
pub open spec fn insert_pos<T>(s: Seq<T>, x: T, lt: spec_fn(T, T) -> bool) -> int
    decreases s.len(),
{
    if s.len() == 0 {
        0
    } else if lt(x, s[0]) {
        0
    } else {
        1 + insert_pos(s.drop_first(), x, lt)
    }
}

/// The stable sort of `s` by the strict order `lt`: each element, in order, is
/// inserted after every element it is not less than.
pub open spec fn isort<T>(s: Seq<T>, lt: spec_fn(T, T) -> bool) -> Seq<T>
    decreases s.len(),
{
    if s.len() == 0 {
        s
    } else {
        let p = isort(s.drop_last(), lt);
        p.insert(insert_pos(p, s.last(), lt), s.last())
    }
}

/// Lemma: the insertion position lies within the sequence, and every element before
/// it is one that `x` is not less than.
pub proof fn lemma_insert_pos<T>(s: Seq<T>, x: T, lt: spec_fn(T, T) -> bool)
    ensures
        0 <= insert_pos(s, x, lt) <= s.len(),
        forall|j: int| 0 <= j < insert_pos(s, x, lt) ==> !lt(x, #[trigger] s[j]),
        insert_pos(s, x, lt) < s.len() ==> lt(x, s[insert_pos(s, x, lt)]),
    decreases s.len(),
{
    if s.len() > 0 && !lt(x, s[0]) {
        lemma_insert_pos(s.drop_first(), x, lt);
        assert forall|j: int| 0 <= j < insert_pos(s, x, lt) implies !lt(x, #[trigger] s[j]) by {
            if j > 0 {
                assert(s[j] == s.drop_first()[j - 1]);
            }
        }
    }
}

/// Lemma: the insertion position is the first index whose element `x` is less than.
pub proof fn lemma_insert_pos_first<T>(s: Seq<T>, x: T, lt: spec_fn(T, T) -> bool, p: int)
    requires
        0 <= p <= s.len(),
        forall|j: int| 0 <= j < p ==> !lt(x, #[trigger] s[j]),
        p < s.len() ==> lt(x, s[p]),
    ensures
        insert_pos(s, x, lt) == p,
    decreases s.len(),
{
    if s.len() > 0 && p > 0 {
        let t = s.drop_first();
        assert forall|j: int| 0 <= j < p - 1 implies !lt(x, #[trigger] t[j]) by {
            assert(t[j] == s[j + 1]);
        }
        if p < s.len() {
            assert(t[p - 1] == s[p]);
        }
        assert(!lt(x, s[0]));
        lemma_insert_pos_first(t, x, lt, p - 1);
    }
}

/// Lemma: sorting keeps the multiset of elements.
pub proof fn lemma_isort_permutes<T>(s: Seq<T>, lt: spec_fn(T, T) -> bool)
    ensures
        isort(s, lt).to_multiset() == s.to_multiset(),
        isort(s, lt).len() == s.len(),
    decreases s.len(),
{
    if s.len() > 0 {
        let p = isort(s.drop_last(), lt);
        lemma_isort_permutes(s.drop_last(), lt);
        lemma_insert_pos(p, s.last(), lt);
        let i = insert_pos(p, s.last(), lt);
        vstd::seq_lib::to_multiset_insert(p, i, s.last());
        vstd::seq_lib::to_multiset_build(s.drop_last(), s.last());
        assert(s =~= s.drop_last().push(s.last()));
    }
}

/// Lemma: when `lt` is irreflexive and transitive, the sort is ordered: no element is less than one before it.
pub proof fn lemma_isort_sorted<T>(s: Seq<T>, lt: spec_fn(T, T) -> bool)
    requires
        forall|a: T| !#[trigger] lt(a, a),
        forall|a: T, b: T, c: T| #[trigger] lt(a, b) && #[trigger] lt(b, c) ==> lt(a, c),
    ensures
        forall|i: int, j: int|
            0 <= i < j < isort(s, lt).len() ==> !lt(#[trigger] isort(s, lt)[j], #[trigger] isort(s, lt)[i]),
    decreases s.len(),
{
    lemma_isort_permutes(s, lt);
    if s.len() > 0 {
        let p = isort(s.drop_last(), lt);
        let x = s.last();
        lemma_isort_sorted(s.drop_last(), lt);
        lemma_isort_permutes(s.drop_last(), lt);
        lemma_insert_pos(p, x, lt);
        let k = insert_pos(p, x, lt);
        let q = p.insert(k, x);
        assert forall|i: int, j: int| 0 <= i < j < q.len() implies !lt(#[trigger] q[j], #[trigger] q[i]) by {
            if j < k {
                assert(q[i] == p[i] && q[j] == p[j]);
                assert(!lt(p[j], p[i]));
            } else if j == k {
                assert(q[i] == p[i]);
                assert(!lt(x, p[i]));
            } else if i > k {
                assert(q[i] == p[i - 1] && q[j] == p[j - 1]);
                assert(!lt(p[j - 1], p[i - 1]));
            } else if i == k {
                assert(q[j] == p[j - 1]);
                assert(lt(x, p[k]));
                if lt(p[j - 1], x) {
                    assert(lt(p[j - 1], p[k]));
                    if j - 1 > k {
                        assert(!lt(p[j - 1], p[k]));
                    } else {
                        assert(lt(p[k], p[k]));
                    }
                }
            } else {
                assert(q[i] == p[i] && q[j] == p[j - 1]);
                assert(!lt(p[j - 1], p[i]));
            }
        }
    }
}


/// Executable `seq_lt`.
pub fn lt_chars(a: &[char], b: &[char]) -> (r: bool)
    ensures
        r == seq_lt(a@, b@),
{
    let mut i: usize = 0;
    assert(a@.skip(0) =~= a@);
    assert(b@.skip(0) =~= b@);
    while i < a.len() && i < b.len() && a[i] == b[i]
        invariant
            i <= a@.len(),
            i <= b@.len(),
            a@.take(i as int) == b@.take(i as int),
            seq_lt(a@, b@) == seq_lt(a@.skip(i as int), b@.skip(i as int)),
        decreases a@.len() - i,
    {
        proof {
            let x = a@.skip(i as int);
            let y = b@.skip(i as int);
            assert(x[0] == y[0]);
            assert(x.drop_first() =~= a@.skip(i + 1));
            assert(y.drop_first() =~= b@.skip(i + 1));
            assert(a@.take(i + 1) =~= a@.take(i as int).push(a@[i as int]));
            assert(b@.take(i + 1) =~= b@.take(i as int).push(b@[i as int]));
        }
        i += 1;
    }
    proof {
        let x = a@.skip(i as int);
        let y = b@.skip(i as int);
        if i < a@.len() && i < b@.len() {
            assert(x[0] == a@[i as int] && y[0] == b@[i as int]);
        }
    }
    if i == b.len() {
        false
    } else if i == a.len() {
        true
    } else {
        let ca = a[i];
        let cb = b[i];
        assert(a@.skip(i as int)[0] == ca);
        assert(b@.skip(i as int)[0] == cb);
        ca < cb
    }
}

/// Lemma: `seq_lt` is irreflexive.
pub proof fn lemma_seq_lt_irreflexive(a: Seq<char>)
    ensures
        !seq_lt(a, a),
    decreases a.len(),
{
    if a.len() > 0 {
        lemma_seq_lt_irreflexive(a.drop_first());
    }
}

/// Lemma: `seq_lt` is transitive.
pub proof fn lemma_seq_lt_transitive(a: Seq<char>, b: Seq<char>, c: Seq<char>)
    requires
        seq_lt(a, b),
        seq_lt(b, c),
    ensures
        seq_lt(a, c),
    decreases a.len(),
{
    if a.len() > 0 && b.len() > 0 && c.len() > 0 && a[0] == b[0] && b[0] == c[0] {
        lemma_seq_lt_transitive(a.drop_first(), b.drop_first(), c.drop_first());
    }
}

/// Lemma: `seq_lt` is total on distinct sequences.
pub proof fn lemma_seq_lt_total(a: Seq<char>, b: Seq<char>)
    ensures
        a == b || seq_lt(a, b) || seq_lt(b, a),
    decreases a.len(),
{
    if a.len() > 0 && b.len() > 0 && a[0] == b[0] {
        lemma_seq_lt_total(a.drop_first(), b.drop_first());
        if a.drop_first() == b.drop_first() {
            assert(a =~= seq![a[0]] + a.drop_first());
            assert(b =~= seq![b[0]] + b.drop_first());
        }
    } else if a.len() == 0 && b.len() == 0 {
        assert(a =~= b);
    } else if a.len() > 0 && b.len() > 0 {
        assert(a[0] != b[0]);

    }
}


/// The order of strings.
pub open spec fn str_lt() -> spec_fn(Seq<char>, Seq<char>) -> bool {
    |a: Seq<char>, b: Seq<char>| seq_lt(a, b)
}

/// Sorts strings in ascending order (`slice::sort` on strings).
pub fn sort_strings(v: Vec<String>) -> (r: Vec<String>)
    ensures
        strings_view(r@) == isort(strings_view(v@), str_lt()),
{
    let ghost orig = strings_view(v@);
    let total = v.len();
    let mut rest = v;
    let mut out: Vec<String> = Vec::new();
    let mut keys: Vec<Vec<char>> = Vec::new();
    let mut k: usize = 0;
    assert(strings_view(rest@) =~= orig.skip(0));
    while rest.len() > 0
        invariant
            orig.len() == total,
            k <= orig.len(),
            strings_view(rest@) == orig.skip(k as int),
            strings_view(out@) == isort(orig.take(k as int), str_lt()),
            keys@.len() == out@.len(),
            forall|j: int| 0 <= j < out@.len() ==> (#[trigger] keys@[j])@ == out@[j]@,
        decreases rest@.len(),
    {
        let ghost rest_seq = rest@;
        assert(strings_view(rest_seq).len() == rest_seq.len());
        let x = rest.remove(0);
        assert(k < orig.len());
        let xk = crate::text::chars_of(x.as_str());
        let ghost xv = x@;
        let ghost outv = strings_view(out@);
        assert(xv == orig[k as int]) by {
            assert(strings_view(rest_seq)[0] == orig.skip(k as int)[0]);
        }
        let mut p: usize = 0;
        while p < out.len() && !lt_chars(xk.as_slice(), keys[p].as_slice())
            invariant
                p <= out@.len(),
                outv == strings_view(out@),
                keys@.len() == out@.len(),
                forall|j: int| 0 <= j < out@.len() ==> (#[trigger] keys@[j])@ == out@[j]@,
                xk@ == xv,
                forall|j: int| 0 <= j < p ==> !(str_lt())(xv, #[trigger] outv[j]),
            decreases out@.len() - p,
        {
            assert(outv[p as int] == out@[p as int]@);
            p += 1;
        }
        proof {
            if p < out@.len() {
                assert(outv[p as int] == out@[p as int]@);
            }
            lemma_insert_pos_first(outv, xv, str_lt(), p as int);
            let pre = orig.take(k + 1);
            assert(pre.drop_last() =~= orig.take(k as int));
            assert(pre.last() == xv);
        }
        let ghost keys_before = keys@;
        out.insert(p, x);
        keys.insert(p, xk);
        proof {
            assert(strings_view(out@) =~= outv.insert(p as int, xv));
            assert forall|j: int| 0 <= j < out@.len() implies (#[trigger] keys@[j])@ == out@[j]@ by {
                if j > p {
                    assert(keys@[j] == keys_before[j - 1]);
                }
            }
            assert forall|j: int| 0 <= j < rest@.len() implies strings_view(rest@)[j] == orig.skip(k + 1)[j] by {
                assert(rest@[j] == rest_seq[j + 1]);
                assert(strings_view(rest_seq)[j + 1] == orig.skip(k as int)[j + 1]);
            }
            assert(strings_view(rest@) =~= orig.skip(k + 1));
        }
        k += 1;
    }
    assert(orig.take(k as int) =~= orig);
    out
}

} // verus!
