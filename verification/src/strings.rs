//! Character-sequence primitives: prefix and substring tests, removal of a
//! pattern, splitting on commas, and ASCII case folding, each as a spec
//! function with a verified executable counterpart.
use vstd::prelude::*;

verus! {

use vstd::string::StrSliceExecFns;
use vstd::string::StringExecFns;

/// `c` with an ASCII upper-case letter folded to lower case.
pub open spec fn lower_char(c: char) -> char {
    if 65 <= c as int && c as int <= 90 {
        ((c as int) + 32) as char
    } else {
        c
    }
}

/// `s` folded to lower case character by character.
pub open spec fn lower_seq(s: Seq<char>) -> Seq<char> {
    Seq::new(s.len(), |i: int| lower_char(s[i]))
}

/// `p` occurs in `t` starting at position `i`.
pub open spec fn occurs_at(t: Seq<char>, p: Seq<char>, i: int) -> bool {
    0 <= i && i + p.len() <= t.len() && t.subrange(i, i + p.len() as int) == p
}

/// `p` occurs somewhere in `t`.
pub open spec fn contains_seq(t: Seq<char>, p: Seq<char>) -> bool {
    exists|i: int| occurs_at(t, p, i)
}

/// `t` with every occurrence of `p` removed, found scanning left to right
/// without overlap; `t` itself when `p` is empty.
pub open spec fn remove_all(t: Seq<char>, p: Seq<char>) -> Seq<char>
    decreases t.len(),
{
    if p.len() == 0 || t.len() == 0 {
        t
    } else if p.is_prefix_of(t) {
        remove_all(t.skip(p.len() as int), p)
    } else {
        seq![t[0]] + remove_all(t.skip(1), p)
    }
}

/// `s` split on every comma, character by character: a comma closes the
/// current part and opens a new one, so there is one part more than there
/// are commas, and an empty input yields one empty part.
pub open spec fn split_commas(s: Seq<char>) -> Seq<Seq<char>>
    decreases s.len(),
{
    if s.len() == 0 {
        seq![Seq::<char>::empty()]
    } else if s[0] == ',' {
        seq![Seq::<char>::empty()] + split_commas(s.drop_first())
    } else {
        let rest = split_commas(s.drop_first());
        seq![seq![s[0]] + rest[0]] + rest.drop_first()
    }
}

/// Splitting yields at least one part.
pub proof fn lemma_split_commas_len(s: Seq<char>)
    ensures
        split_commas(s).len() >= 1,
    decreases s.len(),
{
    if s.len() == 0 {
    } else {
        lemma_split_commas_len(s.drop_first());
    }
}

/// How one more character extends a split: a comma opens a new empty part,
/// any other character is appended to the last part.
pub proof fn lemma_split_commas_push(s: Seq<char>, c: char)
    ensures
        c == ',' ==> split_commas(s.push(c)) == split_commas(s) + seq![Seq::<char>::empty()],
        c != ',' ==> split_commas(s.push(c)) == split_commas(s).update(
            split_commas(s).len() - 1,
            split_commas(s).last().push(c),
        ),
    decreases s.len(),
{
    lemma_split_commas_len(s);
    if s.len() == 0 {
        assert(s =~= Seq::<char>::empty());
        assert(s.push(c)[0] == c);
        assert(s.push(c).drop_first() =~= s);
        if c == ',' {
            assert(split_commas(s.push(c)) =~= split_commas(s) + seq![Seq::<char>::empty()]);
        } else {
            assert(seq![c] + split_commas(s.push(c).drop_first())[0] =~= Seq::<char>::empty().push(
                c,
            ));
            assert(split_commas(s.push(c)) =~= split_commas(s).update(
                split_commas(s).len() - 1,
                split_commas(s).last().push(c),
            ));
        }
    } else {
        lemma_split_commas_push(s.drop_first(), c);
        lemma_split_commas_len(s.drop_first());
        assert(s.push(c)[0] == s[0]);
        assert(s.push(c).drop_first() =~= s.drop_first().push(c));
        let rest = split_commas(s.drop_first());
        let rest2 = split_commas(s.drop_first().push(c));
        if s[0] == ',' {
            if c == ',' {
                assert(split_commas(s.push(c)) =~= split_commas(s) + seq![Seq::<char>::empty()]);
            } else {
                assert(split_commas(s.push(c)) =~= split_commas(s).update(
                    split_commas(s).len() - 1,
                    split_commas(s).last().push(c),
                ));
            }
        } else {
            if c == ',' {
                assert(rest2 == rest + seq![Seq::<char>::empty()]);
                assert(rest2[0] == rest[0]);
                assert(rest2.drop_first() =~= rest.drop_first() + seq![Seq::<char>::empty()]);
                assert(split_commas(s.push(c)) =~= split_commas(s) + seq![Seq::<char>::empty()]);
            } else {
                assert(rest2 == rest.update(rest.len() - 1, rest.last().push(c)));
                if rest.len() == 1 {
                    assert(rest2[0] == rest[0].push(c));
                    assert(seq![s[0]] + rest2[0] =~= (seq![s[0]] + rest[0]).push(c));
                    assert(rest2.drop_first() =~= rest.drop_first());
                    assert(split_commas(s.push(c)) =~= split_commas(s).update(
                        split_commas(s).len() - 1,
                        split_commas(s).last().push(c),
                    ));
                } else {
                    assert(rest2[0] == rest[0]);
                    assert(rest2.drop_first() =~= rest.drop_first().update(
                        rest.drop_first().len() - 1,
                        rest.drop_first().last().push(c),
                    ));
                    assert(split_commas(s.push(c)) =~= split_commas(s).update(
                        split_commas(s).len() - 1,
                        split_commas(s).last().push(c),
                    ));
                }
            }
        }
    }
}

/// Starting with `p` is the same as an occurrence of `p` at position zero.
pub proof fn lemma_prefix_is_occurrence(t: Seq<char>, p: Seq<char>)
    ensures
        p.is_prefix_of(t) == occurs_at(t, p, 0),
{
    if p.is_prefix_of(t) {
        assert(t.subrange(0, p.len() as int) == p);
    }
    if occurs_at(t, p, 0) {
        assert(p.is_prefix_of(t));
    }
}

/// An occurrence inside a suffix of `t` is an occurrence in `t`, shifted.
pub proof fn lemma_occurrence_in_skip(t: Seq<char>, p: Seq<char>, k: int, j: int)
    requires
        0 <= k <= t.len(),
        occurs_at(t.skip(k), p, j),
    ensures
        occurs_at(t, p, k + j),
{
    assert(t.subrange(k + j, k + j + p.len() as int) =~= t.skip(k).subrange(
        j,
        j + p.len() as int,
    ));
}

/// When `p` occurs nowhere in `t`, removal leaves `t` unchanged.
pub proof fn lemma_remove_all_absent(t: Seq<char>, p: Seq<char>)
    requires
        forall|j: int| !occurs_at(t, p, j),
    ensures
        remove_all(t, p) == t,
    decreases t.len(),
{
    if p.len() == 0 {
        assert(t.subrange(0, 0) =~= p);
        assert(occurs_at(t, p, 0));
    } else if t.len() == 0 {
    } else {
        lemma_prefix_is_occurrence(t, p);
        assert(!p.is_prefix_of(t));
        assert forall|j: int| !occurs_at(t.skip(1), p, j) by {
            if occurs_at(t.skip(1), p, j) {
                lemma_occurrence_in_skip(t, p, 1, j);
            }
        }
        lemma_remove_all_absent(t.skip(1), p);
        assert(seq![t[0]] + t.skip(1) =~= t);
    }
}

/// When the only occurrence of `p` in `t` is at the start, removal strips
/// exactly that leading occurrence.
pub proof fn lemma_remove_all_leading(t: Seq<char>, p: Seq<char>)
    requires
        p.len() >= 1,
        p.is_prefix_of(t),
        forall|j: int| 1 <= j ==> !occurs_at(t, p, j),
    ensures
        remove_all(t, p) == t.skip(p.len() as int),
{
    assert(remove_all(t, p) == remove_all(t.skip(p.len() as int), p));
    assert forall|j: int| !occurs_at(t.skip(p.len() as int), p, j) by {
        if occurs_at(t.skip(p.len() as int), p, j) {
            lemma_occurrence_in_skip(t, p, p.len() as int, j);
        }
    }
    lemma_remove_all_absent(t.skip(p.len() as int), p);
}

/// Case-equality of two characters, ignoring ASCII case.
fn chars_eq_ci(a: char, b: char) -> (r: bool)
    ensures
        r == (lower_char(a) == lower_char(b)),
{
    let x = a as u32;
    let y = b as u32;
    let xl = if 65 <= x && x <= 90 {
        x + 32
    } else {
        x
    };
    let yl = if 65 <= y && y <= 90 {
        y + 32
    } else {
        y
    };
    assert(xl == lower_char(a) as u32 && yl == lower_char(b) as u32);
    assert((lower_char(a) == lower_char(b)) == (lower_char(a) as u32 == lower_char(b) as u32));
    xl == yl
}

/// Whether `t` starts with `p`.
pub fn has_prefix(t: &str, p: &str) -> (r: bool)
    ensures
        r == p@.is_prefix_of(t@),
{
    let tn = t.unicode_len();
    let pn = p.unicode_len();
    if pn > tn {
        return false;
    }
    let mut j: usize = 0;
    while j < pn
        invariant
            0 <= j <= pn,
            pn <= tn,
            pn == p@.len(),
            tn == t@.len(),
            forall|k: int| 0 <= k < j ==> t@[k] == p@[k],
        decreases pn - j,
    {
        if t.get_char(j) != p.get_char(j) {
            assert(t@.subrange(0, pn as int)[j as int] != p@[j as int]);
            return false;
        }
        j += 1;
    }
    assert(t@.subrange(0, pn as int) =~= p@);
    true
}

/// Whether `p` occurs in `t` starting at position `i`.
fn matches_at(t: &str, p: &str, i: usize) -> (r: bool)
    requires
        i + p@.len() <= t@.len(),
        t@.len() <= usize::MAX,
    ensures
        r == occurs_at(t@, p@, i as int),
{
    let pn = p.unicode_len();
    let mut j: usize = 0;
    while j < pn
        invariant
            0 <= j <= pn,
            pn == p@.len(),
            i + pn <= t@.len(),
            t@.len() <= usize::MAX,
            forall|k: int| 0 <= k < j ==> t@[i + k] == p@[k],
        decreases pn - j,
    {
        if t.get_char(i + j) != p.get_char(j) {
            assert(t@.subrange(i as int, i + pn as int)[j as int] != p@[j as int]);
            return false;
        }
        j += 1;
    }
    assert(t@.subrange(i as int, i + pn as int) =~= p@);
    true
}

/// Whether `p` occurs somewhere in `t` as a contiguous substring.
pub fn contains_str(t: &str, p: &str) -> (r: bool)
    ensures
        r == contains_seq(t@, p@),
{
    let tn = t.unicode_len();
    let pn = p.unicode_len();
    if pn > tn {
        return false;
    }
    if pn == 0 {
        assert(t@.subrange(0, 0) =~= p@);
        assert(occurs_at(t@, p@, 0));
        return true;
    }
    let mut i: usize = 0;
    while i <= tn - pn
        invariant
            0 <= i,
            1 <= pn <= tn,
            pn == p@.len(),
            tn == t@.len(),
            i <= tn - pn + 1,
            forall|k: int| 0 <= k < i ==> !occurs_at(t@, p@, k),
        decreases tn - pn + 1 - i,
    {
        if matches_at(t, p, i) {
            return true;
        }
        i += 1;
    }
    false
}

/// Whether `p` occurs in `t` at position `i`, ignoring ASCII case.
fn matches_at_ci(t: &str, p: &str, i: usize) -> (r: bool)
    requires
        i + p@.len() <= t@.len(),
        t@.len() <= usize::MAX,
    ensures
        r == occurs_at(lower_seq(t@), lower_seq(p@), i as int),
{
    let pn = p.unicode_len();
    let mut j: usize = 0;
    while j < pn
        invariant
            0 <= j <= pn,
            pn == p@.len(),
            i + pn <= t@.len(),
            t@.len() <= usize::MAX,
            forall|k: int| 0 <= k < j ==> lower_char(t@[i + k]) == lower_char(p@[k]),
        decreases pn - j,
    {
        if !chars_eq_ci(t.get_char(i + j), p.get_char(j)) {
            assert(lower_seq(t@).subrange(i as int, i + pn as int)[j as int] != lower_seq(
                p@,
            )[j as int]);
            return false;
        }
        j += 1;
    }
    assert(lower_seq(t@).subrange(i as int, i + pn as int) =~= lower_seq(p@));
    true
}

/// Whether `p` occurs somewhere in `t`, ignoring ASCII case.
pub fn contains_str_ci(t: &str, p: &str) -> (r: bool)
    ensures
        r == contains_seq(lower_seq(t@), lower_seq(p@)),
{
    let tn = t.unicode_len();
    let pn = p.unicode_len();
    if pn > tn {
        return false;
    }
    if pn == 0 {
        assert(lower_seq(t@).subrange(0, 0) =~= lower_seq(p@));
        assert(occurs_at(lower_seq(t@), lower_seq(p@), 0));
        return true;
    }
    let mut i: usize = 0;
    while i <= tn - pn
        invariant
            0 <= i,
            1 <= pn <= tn,
            pn == p@.len(),
            tn == t@.len(),
            i <= tn - pn + 1,
            forall|k: int| 0 <= k < i ==> !occurs_at(lower_seq(t@), lower_seq(p@), k),
        decreases tn - pn + 1 - i,
    {
        if matches_at_ci(t, p, i) {
            return true;
        }
        i += 1;
    }
    false
}

/// `t` with every occurrence of `p` removed, scanning left to right.
pub fn remove_all_str(t: &str, p: &str) -> (r: String)
    ensures
        r@ == remove_all(t@, p@),
{
    let tn = t.unicode_len();
    let pn = p.unicode_len();
    if pn == 0 {
        return t.to_owned();
    }
    let mut out = String::new();
    let mut i: usize = 0;
    proof {
        assert(t@.skip(0) =~= t@);
        assert(out@ + remove_all(t@, p@) =~= remove_all(t@, p@));
    }
    while i < tn
        invariant
            0 <= i <= tn,
            1 <= pn == p@.len(),
            tn == t@.len(),
            out@ + remove_all(t@.skip(i as int), p@) == remove_all(t@, p@),
        decreases tn - i,
    {
        let ghost suffix = t@.skip(i as int);
        proof {
            lemma_prefix_is_occurrence(suffix, p@);
        }
        if pn <= tn - i && matches_at(t, p, i) {
            proof {
                assert(suffix.subrange(0, pn as int) =~= t@.subrange(i as int, i + pn as int));
                assert(p@.is_prefix_of(suffix));
                assert(remove_all(suffix, p@) == remove_all(suffix.skip(pn as int), p@));
                assert(suffix.skip(pn as int) =~= t@.skip(i + pn as int));
            }
            i += pn;
        } else {
            proof {
                if p@.is_prefix_of(suffix) {
                    lemma_occurrence_in_skip(t@, p@, i as int, 0);
                }
                assert(!p@.is_prefix_of(suffix));
                assert(remove_all(suffix, p@) == seq![suffix[0]] + remove_all(
                    suffix.skip(1),
                    p@,
                ));
                assert(suffix.skip(1) =~= t@.skip(i + 1));
                assert(t@.subrange(i as int, i + 1) =~= seq![t@[i as int]]);
                assert((out@ + seq![t@[i as int]]) + remove_all(t@.skip(i + 1), p@) =~= out@ + (
                seq![suffix[0]] + remove_all(t@.skip(i + 1), p@)));
            }
            out.append(t.substring_char(i, i + 1));
            i += 1;
        }
    }
    proof {
        assert(t@.skip(tn as int) =~= Seq::<char>::empty());
        assert(remove_all(Seq::<char>::empty(), p@) == Seq::<char>::empty());
        assert(out@ + Seq::<char>::empty() =~= out@);
    }
    out
}

/// `s` split on every comma into owned parts.
pub fn split_str(s: &str) -> (r: Vec<String>)
    ensures
        r.deep_view() == split_commas(s@),
{
    let n = s.unicode_len();
    let mut r: Vec<String> = Vec::new();
    let mut cur = String::new();
    let mut i: usize = 0;
    proof {
        assert(s@.subrange(0, 0) =~= Seq::<char>::empty());
        assert(r.deep_view() + seq![cur@] =~= split_commas(s@.subrange(0, 0)));
    }
    while i < n
        invariant
            0 <= i <= n,
            n == s@.len(),
            r.deep_view() + seq![cur@] == split_commas(s@.subrange(0, i as int)),
        decreases n - i,
    {
        let ghost pre = s@.subrange(0, i as int);
        proof {
            lemma_split_commas_push(pre, s@[i as int]);
            lemma_split_commas_len(pre);
            assert(s@.subrange(0, i + 1) =~= pre.push(s@[i as int]));
        }
        let c = s.get_char(i);
        if c == ',' {
            r.push(cur);
            cur = String::new();
            proof {
                assert(r.deep_view() + seq![cur@] =~= split_commas(pre) + seq![
                    Seq::<char>::empty(),
                ]);
            }
        } else {
            proof {
                let parts = split_commas(pre);
                assert(parts.last() == cur@);
                assert(s@.subrange(i as int, i + 1) =~= seq![s@[i as int]]);
                assert(cur@ + seq![s@[i as int]] =~= cur@.push(s@[i as int]));
                assert(r.deep_view() + seq![cur@.push(s@[i as int])] =~= parts.update(
                    parts.len() - 1,
                    parts.last().push(s@[i as int]),
                ));
            }
            cur.append(s.substring_char(i, i + 1));
        }
        i += 1;
    }
    proof {
        assert(s@.subrange(0, n as int) =~= s@);
    }
    r.push(cur);
    proof {
        assert(r.deep_view() =~= split_commas(s@));
    }
    r
}

} // verus!
