//! Character-level text utilities: trimming, splitting, ordering and
//! normalization of the strings that make up words and answers.

use vstd::prelude::*;
use vstd::string::*;
use vstd::multiset::Multiset;
use vstd::relations::{sorted_by, total_ordering};
use vstd::seq_lib::{lemma_multiset_commutative, lemma_sorted_unique};

verus! {

broadcast use {vstd::seq_lib::group_to_multiset_ensures, vstd::multiset::group_multiset_axioms};

/// What `char::is_whitespace` returns for a character.
pub uninterp spec fn is_space_char(c: char) -> bool;

/// What `str::to_lowercase` returns for a string.
pub uninterp spec fn lower_of(s: Seq<char>) -> Seq<char>;

/// Relies on char::is_whitespace: whether the character has the Unicode
/// White_Space property; the result depends on the character alone.
#[verifier::external_body]
pub(crate) fn is_space(c: char) -> (r: bool)
    ensures
        r == is_space_char(c),
{
    c.is_whitespace()
}

/// Relies on str::to_lowercase: the lowercase equivalent of the string;
/// the result depends on the characters alone.
#[verifier::external_body]
pub(crate) fn lowercased(s: &str) -> (r: String)
    ensures
        r@ == lower_of(s@),
{
    s.to_lowercase()
}

/// The string with leading and trailing whitespace removed.
pub open spec fn trim_spec(s: Seq<char>) -> Seq<char>
    decreases s.len(),
{
    if s.len() == 0 {
        s
    } else if is_space_char(s[0]) {
        trim_spec(s.drop_first())
    } else if is_space_char(s[s.len() - 1]) {
        trim_spec(s.drop_last())
    } else {
        s
    }
}

proof fn lemma_trim_subrange(s: Seq<char>, a: int, b: int)
    requires
        0 <= a <= b <= s.len(),
        forall|k: int| 0 <= k < a ==> is_space_char(#[trigger] s[k]),
        forall|k: int| b <= k < s.len() ==> is_space_char(#[trigger] s[k]),
        a < b ==> !is_space_char(s[a]) && !is_space_char(s[b - 1]),
    ensures
        trim_spec(s) == s.subrange(a, b),
    decreases s.len(),
{
    if s.len() == 0 {
        assert(trim_spec(s) =~= s.subrange(a, b));
    } else if is_space_char(s[0]) {
        if a == 0 {
            // a < b would contradict is_space_char(s[0]), so the result is empty.
            assert(b == 0);
            lemma_trim_subrange(s.drop_first(), 0, 0);
            assert(trim_spec(s) =~= s.subrange(a, b));
        } else {
            lemma_trim_subrange(s.drop_first(), a - 1, b - 1);
            assert(s.drop_first().subrange(a - 1, b - 1) =~= s.subrange(a, b));
        }
    } else if is_space_char(s[s.len() - 1]) {
        // b == s.len() would contradict is_space_char(s[s.len() - 1]).
        assert(b < s.len());
        lemma_trim_subrange(s.drop_last(), a, b);
        assert(s.drop_last().subrange(a, b) =~= s.subrange(a, b));
    } else {
        assert(a == 0);
        assert(b == s.len());
        assert(s.subrange(a, b) =~= s);
    }
}

/// Removes leading and trailing whitespace.
pub fn trim<'a>(s: &'a str) -> (r: &'a str)
    ensures
        r@ == trim_spec(s@),
{
    let n = s.unicode_len();
    let mut a: usize = 0;
    while a < n && is_space(s.get_char(a))
        invariant
            a <= n,
            n == s@.len(),
            forall|k: int| 0 <= k < a ==> is_space_char(#[trigger] s@[k]),
        decreases n - a,
    {
        a = a + 1;
    }
    let mut b: usize = n;
    while b > a && is_space(s.get_char(b - 1))
        invariant
            a <= b <= n,
            n == s@.len(),
            forall|k: int| b <= k < n ==> is_space_char(#[trigger] s@[k]),
        decreases b,
    {
        b = b - 1;
    }
    proof {
        lemma_trim_subrange(s@, a as int, b as int);
    }
    s.substring_char(a, b)
}

/// The parts of the string between occurrences of the separator, in order.
/// A string without the separator is a single part, and adjacent separators
/// enclose an empty part, so the result always has at least one part.
pub open spec fn split_spec(s: Seq<char>, sep: char) -> Seq<Seq<char>>
    decreases s.len(),
{
    if s.len() == 0 {
        seq![Seq::<char>::empty()]
    } else if s[0] == sep {
        seq![Seq::<char>::empty()] + split_spec(s.drop_first(), sep)
    } else {
        let rest = split_spec(s.drop_first(), sep);
        seq![seq![s[0]] + rest[0]] + rest.drop_first()
    }
}

pub proof fn lemma_split_len(s: Seq<char>, sep: char)
    ensures
        split_spec(s, sep).len() >= 1,
    decreases s.len(),
{
    if s.len() == 0 {
    } else {
        lemma_split_len(s.drop_first(), sep)
    }
}

/// Splitting off the first part: if the separator first occurs at `k` (or not
/// at all), the first part is everything before it and the rest splits the
/// remainder.
proof fn lemma_split_head(s: Seq<char>, sep: char, k: int)
    requires
        0 <= k <= s.len(),
        forall|j: int| 0 <= j < k ==> s[j] != sep,
        k < s.len() ==> s[k] == sep,
    ensures
        k == s.len() ==> split_spec(s, sep) == seq![s],
        k < s.len() ==> split_spec(s, sep) == seq![s.subrange(0, k)] + split_spec(
            s.subrange(k + 1, s.len() as int),
            sep,
        ),
    decreases k,
{
    lemma_split_len(s.drop_first(), sep);
    if k == 0 {
        if s.len() == 0 {
            assert(split_spec(s, sep) =~~= seq![s]);
        } else {
            assert(s[0] == sep);
            assert(s.drop_first() =~= s.subrange(1, s.len() as int));
            assert(s.subrange(0, 0) =~= Seq::<char>::empty());
            assert(split_spec(s, sep) =~= seq![s.subrange(0, 0)] + split_spec(
                s.subrange(1, s.len() as int),
                sep,
            ));
        }
    } else {
        assert(s.len() > 0 && s[0] != sep);
        let df = s.drop_first();
        let rest = split_spec(df, sep);
        lemma_split_head(df, sep, k - 1);
        if k == s.len() {
            assert(rest == seq![df]);
            assert(rest[0] == df);
            assert(rest.drop_first() =~= Seq::<Seq<char>>::empty());
            assert(seq![s[0]] + df =~= s);
            assert(split_spec(s, sep) =~~= seq![s]);
        } else {
            assert(df.subrange(0, k - 1) =~= s.subrange(1, k));
            assert(df.subrange(k, df.len() as int) =~= s.subrange(k + 1, s.len() as int));
            assert(rest == seq![s.subrange(1, k)] + split_spec(
                s.subrange(k + 1, s.len() as int),
                sep,
            ));
            assert(rest[0] == s.subrange(1, k));
            assert(seq![s[0]] + s.subrange(1, k) =~= s.subrange(0, k));
            assert(rest.drop_first() =~= split_spec(s.subrange(k + 1, s.len() as int), sep));
            assert(split_spec(s, sep) =~~= seq![s.subrange(0, k)] + split_spec(
                s.subrange(k + 1, s.len() as int),
                sep,
            ));
        }
    }
}

/// Splits the string on every occurrence of the separator.
pub fn split_char(s: &str, sep: char) -> (r: Vec<String>)
    ensures
        r.deep_view() == split_spec(s@, sep),
{
    let n = s.unicode_len();
    let mut parts: Vec<String> = Vec::new();
    proof {
        assert(s@.subrange(0, n as int) =~= s@);
        assert(parts.deep_view() =~= Seq::<Seq<char>>::empty());
        assert(parts.deep_view() + split_spec(s@, sep) =~= split_spec(s@, sep));
    }
    let mut start: usize = 0;
    let mut i: usize = 0;
    while i < n
        invariant
            start <= i <= n,
            n == s@.len(),
            forall|k: int| start <= k < i ==> s@[k] != sep,
            split_spec(s@, sep) == parts.deep_view() + split_spec(
                s@.subrange(start as int, n as int),
                sep,
            ),
        decreases n - i,
    {
        if s.get_char(i) == sep {
            let part = s.substring_char(start, i);
            let ghost old_parts = parts.deep_view();
            parts.push(part.to_owned());
            proof {
                let t = s@.subrange(start as int, n as int);
                lemma_split_head(t, sep, i - start);
                assert(t.subrange(0, i - start) =~= s@.subrange(start as int, i as int));
                assert(t.subrange(i - start + 1, t.len() as int) =~= s@.subrange(
                    i + 1,
                    n as int,
                ));
                assert(parts.deep_view() =~= old_parts.push(part@));
                assert(parts.deep_view() + split_spec(s@.subrange(i + 1, n as int), sep)
                    =~= old_parts + split_spec(t, sep));
            }
            start = i + 1;
        }
        i = i + 1;
    }
    let part = s.substring_char(start, n);
    let ghost old_parts = parts.deep_view();
    parts.push(part.to_owned());
    proof {
        let t = s@.subrange(start as int, n as int);
        lemma_split_head(t, sep, n - start);
        assert(parts.deep_view() =~= old_parts.push(part@));
        assert(parts.deep_view() =~= old_parts + split_spec(t, sep));
    }
    parts
}

/// The non-empty parts, in order.
pub open spec fn nonempty_parts(ps: Seq<Seq<char>>) -> Seq<Seq<char>>
    decreases ps.len(),
{
    if ps.len() == 0 {
        Seq::empty()
    } else if ps.first().len() > 0 {
        seq![ps.first()] + nonempty_parts(ps.drop_first())
    } else {
        nonempty_parts(ps.drop_first())
    }
}

pub proof fn lemma_nonempty_parts_add(a: Seq<Seq<char>>, b: Seq<Seq<char>>)
    ensures
        nonempty_parts(a + b) == nonempty_parts(a) + nonempty_parts(b),
    decreases a.len(),
{
    if a.len() == 0 {
        assert(a + b =~= b);
        assert(nonempty_parts(a) + nonempty_parts(b) =~= nonempty_parts(b));
    } else {
        assert((a + b).first() == a.first());
        assert((a + b).drop_first() =~= a.drop_first() + b);
        lemma_nonempty_parts_add(a.drop_first(), b);
        if a.first().len() > 0 {
            assert(seq![a.first()] + (nonempty_parts(a.drop_first()) + nonempty_parts(b))
                =~= (seq![a.first()] + nonempty_parts(a.drop_first())) + nonempty_parts(b));
        }
    }
}

/// Keeps only the non-empty parts, in order.
pub(crate) fn keep_nonempty(parts: &Vec<String>) -> (r: Vec<String>)
    ensures
        r.deep_view() == nonempty_parts(parts.deep_view()),
{
    let mut out: Vec<String> = Vec::new();
    proof {
        assert(out.deep_view() =~= nonempty_parts(parts.deep_view().take(0)));
    }
    let mut i: usize = 0;
    while i < parts.len()
        invariant
            i <= parts.len(),
            out.deep_view() == nonempty_parts(parts.deep_view().take(i as int)),
        decreases parts.len() - i,
    {
        let ghost dv = parts.deep_view();
        let ghost old_out = out.deep_view();
        if !parts[i].as_str().is_empty() {
            out.push(parts[i].clone());
        }
        proof {
            reveal_with_fuel(nonempty_parts, 3);
            let one = seq![dv[i as int]];
            assert(dv[i as int] == parts@[i as int]@);
            assert(dv.take(i + 1) =~= dv.take(i as int) + one);
            lemma_nonempty_parts_add(dv.take(i as int), one);
            assert(one.drop_first() =~= Seq::<Seq<char>>::empty());
            if dv[i as int].len() > 0 {
                assert(nonempty_parts(one) =~= one);
                assert(out.deep_view() =~= old_out + one);
            } else {
                assert(nonempty_parts(one) =~= Seq::<Seq<char>>::empty());
                assert(out.deep_view() =~= old_out + nonempty_parts(one));
            }
        }
        i = i + 1;
    }
    proof {
        assert(parts.deep_view().take(parts.len() as int) =~= parts.deep_view());
    }
    out
}

/// Lexicographic order on strings, by character code point.
pub open spec fn chars_le(a: Seq<char>, b: Seq<char>) -> bool
    decreases a.len(),
{
    if a.len() == 0 {
        true
    } else if b.len() == 0 {
        false
    } else if a[0] == b[0] {
        chars_le(a.drop_first(), b.drop_first())
    } else {
        (a[0] as u32) < (b[0] as u32)
    }
}

/// The order under which the variants of a slot are kept sorted.
pub open spec fn char_le_fn() -> spec_fn(Seq<char>, Seq<char>) -> bool {
    |a: Seq<char>, b: Seq<char>| chars_le(a, b)
}

pub proof fn lemma_chars_le_refl(a: Seq<char>)
    ensures
        chars_le(a, a),
    decreases a.len(),
{
    if a.len() > 0 {
        lemma_chars_le_refl(a.drop_first());
    }
}

pub proof fn lemma_chars_le_total(a: Seq<char>, b: Seq<char>)
    ensures
        chars_le(a, b) || chars_le(b, a),
    decreases a.len(),
{
    if a.len() == 0 || b.len() == 0 {
    } else if a[0] == b[0] {
        lemma_chars_le_total(a.drop_first(), b.drop_first());
    } else {
        lemma_char_ne_u32(a[0], b[0]);
    }
}

proof fn lemma_char_ne_u32(c: char, d: char)
    requires
        c != d,
    ensures
        (c as u32) != (d as u32),
{
}

pub proof fn lemma_chars_le_antisym(a: Seq<char>, b: Seq<char>)
    requires
        chars_le(a, b),
        chars_le(b, a),
    ensures
        a == b,
    decreases a.len(),
{
    if a.len() == 0 {
        assert(b.len() == 0);
        assert(a =~= b);
    } else {
        assert(b.len() > 0);
        assert(a[0] == b[0]);
        lemma_chars_le_antisym(a.drop_first(), b.drop_first());
        assert(a.drop_first() == b.drop_first());
        assert forall|i: int| 0 <= i < a.len() implies a[i] == b[i] by {
            if i > 0 {
                assert(a[i] == a.drop_first()[i - 1]);
                assert(b[i] == b.drop_first()[i - 1]);
            }
        }
        assert(a =~= b);
    }
}

pub proof fn lemma_chars_le_trans(a: Seq<char>, b: Seq<char>, c: Seq<char>)
    requires
        chars_le(a, b),
        chars_le(b, c),
    ensures
        chars_le(a, c),
    decreases a.len(),
{
    if a.len() == 0 {
    } else {
        assert(b.len() > 0);
        assert(c.len() > 0);
        if a[0] == b[0] && b[0] == c[0] {
            lemma_chars_le_trans(a.drop_first(), b.drop_first(), c.drop_first());
        }
    }
}

pub proof fn lemma_char_le_total_ordering()
    ensures
        total_ordering(char_le_fn()),
{
    let le = char_le_fn();
    assert forall|a: Seq<char>| #[trigger] le(a, a) by {
        lemma_chars_le_refl(a);
    }
    assert forall|a: Seq<char>, b: Seq<char>| #[trigger] le(a, b) && #[trigger] le(b, a)
        implies a == b by {
        lemma_chars_le_antisym(a, b);
    }
    assert forall|a: Seq<char>, b: Seq<char>, c: Seq<char>|
        #[trigger] le(a, b) && #[trigger] le(b, c) implies le(a, c) by {
        lemma_chars_le_trans(a, b, c);
    }
    assert forall|a: Seq<char>, b: Seq<char>| !(#[trigger] le(a, b)) implies le(b, a) by {
        lemma_chars_le_total(a, b);
    }
}

/// Compares two strings in the lexicographic order.
pub fn str_le(a: &str, b: &str) -> (r: bool)
    ensures
        r == chars_le(a@, b@),
{
    let na = a.unicode_len();
    let nb = b.unicode_len();
    proof {
        assert(a@.skip(0) =~= a@);
        assert(b@.skip(0) =~= b@);
    }
    let mut i: usize = 0;
    while i < na && i < nb
        invariant
            i <= na,
            i <= nb,
            na == a@.len(),
            nb == b@.len(),
            chars_le(a@, b@) == chars_le(a@.skip(i as int), b@.skip(i as int)),
            chars_le(b@, a@) == chars_le(b@.skip(i as int), a@.skip(i as int)),
        decreases na - i,
    {
        let ca = a.get_char(i);
        let cb = b.get_char(i);
        if ca == cb {
            proof {
                assert(a@.skip(i as int).drop_first() =~= a@.skip(i + 1));
                assert(b@.skip(i as int).drop_first() =~= b@.skip(i + 1));
            }
            i = i + 1;
        } else {
            return (ca as u32) < (cb as u32);
        }
    }
    proof {
        if i == na {
            assert(a@.skip(i as int).len() == 0);
        } else {
            assert(b@.skip(i as int).len() == 0);
            assert(a@.skip(i as int).len() > 0);
        }
    }
    i == na
}

/// Inserts a string into a sorted list, keeping it sorted.
fn insert_sorted(v: &mut Vec<String>, x: String)
    requires
        sorted_by(old(v).deep_view(), char_le_fn()),
    ensures
        sorted_by(final(v).deep_view(), char_le_fn()),
        final(v).deep_view().to_multiset() == old(v).deep_view().to_multiset().insert(x@),
{
    let ghost dv = v.deep_view();
    let mut p: usize = 0;
    while p < v.len() && str_le(v[p].as_str(), x.as_str())
        invariant
            p <= v.len(),
            dv == v.deep_view(),
            forall|k: int| 0 <= k < p ==> chars_le(#[trigger] dv[k], x@),
        decreases v.len() - p,
    {
        p = p + 1;
    }
    let ghost pos = p as int;
    v.insert(p, x);
    proof {
        let ndv = v.deep_view();
        assert(ndv =~= dv.insert(pos, x@));
        // Sortedness of the new list.
        if pos < dv.len() {
            lemma_chars_le_total(dv[pos], x@);
        }
        assert forall|i: int, j: int| 0 <= i < j < ndv.len() implies #[trigger] char_le_fn()(
            ndv[i],
            ndv[j],
        ) by {
            if i < pos && j == pos {
                assert(chars_le(dv[i], x@));
            } else if i == pos && j > pos {
                assert(chars_le(x@, dv[pos]));
                if pos < j - 1 {
                    assert(char_le_fn()(dv[pos], dv[j - 1]));
                    lemma_chars_le_trans(x@, dv[pos], dv[j - 1]);
                }
            } else if i < pos && j > pos {
                assert(char_le_fn()(dv[i], dv[j - 1]));
            } else if i < pos && j < pos {
                assert(char_le_fn()(dv[i], dv[j]));
            }
        }
        // The contents grew by exactly the inserted string.
        assert(dv =~= dv.take(pos) + dv.skip(pos));
        assert(ndv =~= dv.take(pos) + seq![x@] + dv.skip(pos));
        lemma_multiset_commutative(dv.take(pos), dv.skip(pos));
        lemma_multiset_commutative(dv.take(pos) + seq![x@], dv.skip(pos));
        lemma_multiset_commutative(dv.take(pos), seq![x@]);
        assert(seq![x@] =~= Seq::<Seq<char>>::empty().push(x@));
        assert(Seq::<Seq<char>>::empty().to_multiset() =~= Multiset::<Seq<char>>::empty());
        assert(ndv.to_multiset() =~= dv.to_multiset().insert(x@));
    }
}

/// Sorts a list of strings in the lexicographic order.
pub fn sort_strings(v: &Vec<String>) -> (r: Vec<String>)
    ensures
        r.deep_view() == v.deep_view().sort_by(char_le_fn()),
{
    let ghost dv = v.deep_view();
    let mut out: Vec<String> = Vec::new();
    proof {
        assert(out.deep_view() =~= Seq::<Seq<char>>::empty());
        assert(dv.take(0) =~= Seq::<Seq<char>>::empty());
        assert(out.deep_view().to_multiset() =~= dv.take(0).to_multiset());
    }
    let mut i: usize = 0;
    while i < v.len()
        invariant
            i <= v.len(),
            dv == v.deep_view(),
            sorted_by(out.deep_view(), char_le_fn()),
            out.deep_view().to_multiset() == dv.take(i as int).to_multiset(),
        decreases v.len() - i,
    {
        let x = v[i].clone();
        proof {
            assert(x@ == dv[i as int]);
            assert(dv.take(i + 1) =~= dv.take(i as int).push(dv[i as int]));
        }
        insert_sorted(&mut out, x);
        i = i + 1;
    }
    proof {
        assert(dv.take(v.len() as int) =~= dv);
        lemma_char_le_total_ordering();
        dv.lemma_sort_by_ensures(char_le_fn());
        lemma_sorted_unique(out.deep_view(), dv.sort_by(char_le_fn()), char_le_fn());
        assert(out.deep_view() =~= dv.sort_by(char_le_fn()));
    }
    out
}

/// A string as it is stored: trimmed, then lowercased.
pub open spec fn canon_str(v: Seq<char>) -> Seq<char> {
    lower_of(trim_spec(v))
}

pub open spec fn canon_str_fn() -> spec_fn(Seq<char>) -> Seq<char> {
    |v: Seq<char>| canon_str(v)
}

/// Trims and lowercases one string.
pub(crate) fn canonicalize_str(v: &str) -> (r: String)
    ensures
        r@ == canon_str(v@),
{
    lowercased(trim(v))
}

/// A slot as it is stored: every variant trimmed and lowercased, and the
/// variants sorted.
pub open spec fn canon_slot(vars: Seq<Seq<char>>) -> Seq<Seq<char>> {
    vars.map_values(canon_str_fn()).sort_by(char_le_fn())
}

/// Normalizes the variants of one slot.
pub(crate) fn canonicalize_slot(vars: &Vec<String>) -> (r: Vec<String>)
    ensures
        r.deep_view() == canon_slot(vars.deep_view()),
{
    let ghost dv = vars.deep_view();
    let mut mapped: Vec<String> = Vec::new();
    proof {
        assert(mapped.deep_view() =~= dv.take(0).map_values(canon_str_fn()));
    }
    let mut i: usize = 0;
    while i < vars.len()
        invariant
            i <= vars.len(),
            dv == vars.deep_view(),
            mapped.deep_view() == dv.take(i as int).map_values(canon_str_fn()),
        decreases vars.len() - i,
    {
        let ghost old_mapped = mapped.deep_view();
        mapped.push(canonicalize_str(vars[i].as_str()));
        proof {
            assert(mapped.deep_view() =~= old_mapped.push(canon_str(dv[i as int])));
            assert(dv.take(i + 1).map_values(canon_str_fn()) =~= old_mapped.push(
                canon_str(dv[i as int]),
            ));
        }
        i = i + 1;
    }
    proof {
        assert(dv.take(vars.len() as int) =~= dv);
    }
    sort_strings(&mapped)
}

} // verus!
