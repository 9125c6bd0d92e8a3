//! Byte strings (package names, paths) and their lexicographic order.
use vstd::prelude::*;

verus! {

use vstd::set_lib::lemma_len_subset;

/// Strict lexicographic order on byte strings: a proper prefix comes first,
/// otherwise the first differing byte decides.
pub open spec fn lex_lt(a: Seq<u8>, b: Seq<u8>) -> bool
    decreases a.len(),
{
    if b.len() == 0 {
        false
    } else if a.len() == 0 {
        true
    } else if a[0] < b[0] {
        true
    } else if a[0] > b[0] {
        false
    } else {
        lex_lt(a.drop_first(), b.drop_first())
    }
}

pub proof fn lemma_lex_trichotomy(a: Seq<u8>, b: Seq<u8>)
    ensures
        lex_lt(a, b) || lex_lt(b, a) || a == b,
    decreases a.len(),
{
    if b.len() == 0 {
        if a.len() == 0 {
            assert(a =~= b);
        }
    } else if a.len() == 0 {
    } else if a[0] == b[0] {
        let ta = a.drop_first();
        let tb = b.drop_first();
        lemma_lex_trichotomy(ta, tb);
        if ta == tb {
            assert(a.len() == ta.len() + 1);
            assert(b.len() == tb.len() + 1);
            assert forall|k: int| 0 <= k < a.len() implies a[k] == b[k] by {
                if k > 0 {
                    assert(ta[k - 1] == tb[k - 1]);
                }
            }
            assert(a =~= b);
        }
    }
}

pub proof fn lemma_lex_asym(a: Seq<u8>, b: Seq<u8>)
    requires
        lex_lt(a, b),
    ensures
        !lex_lt(b, a),
        a != b,
    decreases a.len(),
{
    if b.len() == 0 {
    } else if a.len() == 0 {
    } else if a[0] == b[0] {
        lemma_lex_asym(a.drop_first(), b.drop_first());
        assert(a != b) by {
            if a == b {
                assert(a.drop_first() =~= b.drop_first());
            }
        }
    }
}

pub proof fn lemma_lex_trans(a: Seq<u8>, b: Seq<u8>, c: Seq<u8>)
    requires
        lex_lt(a, b),
        lex_lt(b, c),
    ensures
        lex_lt(a, c),
    decreases a.len(),
{
    if a.len() == 0 {
    } else if a[0] == b[0] && b[0] == c[0] {
        lemma_lex_trans(a.drop_first(), b.drop_first(), c.drop_first());
    }
}

/// Whether some element of `s` holds the byte string `n`.
pub open spec fn seq_has_name(s: Seq<Vec<u8>>, n: Seq<u8>) -> bool {
    exists|i: int| 0 <= i < s.len() && s[i]@ == n
}

/// Strictly ascending by `lex_lt`; rules out duplicates as well.
pub open spec fn sorted_names(s: Seq<Vec<u8>>) -> bool {
    forall|i: int, j: int| 0 <= i < j < s.len() ==> lex_lt(#[trigger] s[i]@, #[trigger] s[j]@)
}

/// No two elements hold the same byte string.
pub open spec fn distinct_names(s: Seq<Vec<u8>>) -> bool {
    forall|i: int, j: int| 0 <= i < j < s.len() ==> #[trigger] s[i]@ != #[trigger] s[j]@
}

pub fn bytes_eq(a: &Vec<u8>, b: &Vec<u8>) -> (r: bool)
    ensures
        r == (a@ == b@),
{
    if a.len() != b.len() {
        return false;
    }
    let mut i: usize = 0;
    while i < a.len()
        invariant
            0 <= i <= a.len(),
            a.len() == b.len(),
            forall|k: int| 0 <= k < i ==> a@[k] == b@[k],
        decreases a.len() - i,
    {
        if a[i] != b[i] {
            return false;
        }
        i = i + 1;
    }
    proof {
        assert(a@ =~= b@);
    }
    true
}

pub fn bytes_lt(a: &Vec<u8>, b: &Vec<u8>) -> (r: bool)
    ensures
        r == lex_lt(a@, b@),
{
    let mut i: usize = 0;
    proof {
        assert(a@.skip(0) =~= a@);
        assert(b@.skip(0) =~= b@);
    }
    loop
        invariant
            0 <= i <= a.len(),
            0 <= i <= b.len(),
            lex_lt(a@, b@) == lex_lt(a@.skip(i as int), b@.skip(i as int)),
        decreases a.len() - i,
    {
        if i >= b.len() {
            return false;
        }
        if i >= a.len() {
            return true;
        }
        proof {
            assert(a@.skip(i as int).drop_first() =~= a@.skip(i + 1));
            assert(b@.skip(i as int).drop_first() =~= b@.skip(i + 1));
        }
        if a[i] < b[i] {
            return true;
        }
        if a[i] > b[i] {
            return false;
        }
        i = i + 1;
    }
}

pub fn bytes_copy(v: &Vec<u8>) -> (r: Vec<u8>)
    ensures
        r@ == v@,
{
    let mut r: Vec<u8> = Vec::new();
    let mut i: usize = 0;
    while i < v.len()
        invariant
            0 <= i <= v.len(),
            r@ =~= v@.take(i as int),
        decreases v.len() - i,
    {
        r.push(v[i]);
        i = i + 1;
    }
    proof {
        assert(v@.take(v@.len() as int) =~= v@);
    }
    r
}

pub fn has_name(v: &Vec<Vec<u8>>, n: &Vec<u8>) -> (r: bool)
    ensures
        r == seq_has_name(v@, n@),
{
    let mut i: usize = 0;
    while i < v.len()
        invariant
            0 <= i <= v.len(),
            forall|k: int| 0 <= k < i ==> v@[k]@ != n@,
        decreases v.len() - i,
    {
        if bytes_eq(&v[i], n) {
            return true;
        }
        i = i + 1;
    }
    false
}

/// Insert `n` into a strictly sorted list of names, keeping it sorted and
/// duplicate-free; inserting a name already present changes nothing.
pub fn insert_name_sorted(v: &mut Vec<Vec<u8>>, n: Vec<u8>)
    requires
        sorted_names(old(v)@),
    ensures
        sorted_names(final(v)@),
        forall|m: Seq<u8>| seq_has_name(final(v)@, m) <==> (seq_has_name(old(v)@, m) || m == n@),
{
    let ghost orig = v@;
    let mut i: usize = 0;
    let mut stop: bool = false;
    while i < v.len() && !stop
        invariant
            0 <= i <= v.len(),
            v@ == orig,
            sorted_names(orig),
            forall|k: int| 0 <= k < i ==> lex_lt(#[trigger] orig[k]@, n@),
            stop ==> i < v.len() && !lex_lt(orig[i as int]@, n@),
        decreases v.len() - i + (if stop { 0int } else { 1int }),
    {
        if bytes_lt(&v[i], &n) {
            i = i + 1;
        } else {
            stop = true;
        }
    }
    if i < v.len() {
        if bytes_eq(&v[i], &n) {
            proof {
                assert(forall|m: Seq<u8>| seq_has_name(v@, m) ==> (seq_has_name(orig, m) || m
                    == n@));
            }
            return;
        }
    }
    proof {
        // n is not at position i, and everything before i is below n, so n
        // goes exactly at i.
        if i < orig.len() {
            lemma_lex_trichotomy(orig[i as int]@, n@);
            assert(lex_lt(n@, orig[i as int]@));
        }
    }
    v.insert(i, n);
    proof {
        let iv = v@;
        assert forall|p: int, q: int| 0 <= p < q < iv.len() implies lex_lt(iv[p]@, iv[q]@) by {
            if p < i && q == i {
            } else if p == i && q > i {
                if q - 1 > i {
                    lemma_lex_trans(n@, orig[i as int]@, orig[q - 1]@);
                }
            } else if p < i && q > i {
                if q - 1 > i {
                    lemma_lex_trans(n@, orig[i as int]@, orig[q - 1]@);
                }
                lemma_lex_trans(orig[p]@, n@, orig[q - 1]@);
            }
        }
        assert forall|m: Seq<u8>|
            seq_has_name(iv, m) <==> (seq_has_name(orig, m) || m == n@) by {
            assert(iv[i as int]@ == n@);
            if seq_has_name(orig, m) {
                let k = choose|k: int| 0 <= k < orig.len() && orig[k]@ == m;
                if k < i {
                    assert(iv[k]@ == m);
                } else {
                    assert(iv[k + 1]@ == m);
                }
            }
            if seq_has_name(iv, m) {
                let k = choose|k: int| 0 <= k < iv.len() && iv[k]@ == m;
                if k < i {
                    assert(orig[k]@ == m);
                } else if k == i {
                } else {
                    assert(orig[k - 1]@ == m);
                }
            }
        }
    }
}


/// `sub` occurs somewhere in `s`.
pub open spec fn contains_sub(s: Seq<u8>, sub: Seq<u8>) -> bool {
    exists|i: int| 0 <= i && i + sub.len() <= s.len() && #[trigger] s.subrange(i, i + sub.len())
        == sub
}

pub fn contains_sub_exec(s: &Vec<u8>, sub: &Vec<u8>) -> (r: bool)
    ensures
        r == contains_sub(s@, sub@),
{
    if sub.len() > s.len() {
        proof {
            assert(!contains_sub(s@, sub@));
        }
        return false;
    }
    if sub.len() == 0 {
        proof {
            assert(s@.subrange(0, 0 + sub@.len() as int) =~= sub@);
            assert(contains_sub(s@, sub@));
        }
        return true;
    }
    let mut i: usize = 0;
    while i <= s.len() - sub.len()
        invariant
            1 <= sub.len() <= s.len(),
            0 <= i <= s.len() - sub.len() + 1,
            forall|i2: int|
                0 <= i2 < i ==> #[trigger] s@.subrange(i2, i2 + sub@.len()) != sub@,
        decreases s.len() - sub.len() - i + 1,
    {
        let mut j: usize = 0;
        let mut matched: bool = true;
        while j < sub.len()
            invariant
                0 <= j <= sub.len(),
                0 <= i,
                i + sub.len() <= s.len(),
                matched ==> forall|k: int| 0 <= k < j ==> s@[i + k] == sub@[k],
                !matched ==> s@.subrange(i as int, i + sub@.len()) != sub@,
            decreases sub.len() - j,
        {
            if s[i + j] != sub[j] {
                proof {
                    assert(s@.subrange(i as int, i + sub@.len())[j as int] == s@[i + j]);
                }
                matched = false;
                j = sub.len();
            } else {
                j = j + 1;
            }
        }
        if matched {
            proof {
                assert(s@.subrange(i as int, i + sub@.len()) =~= sub@);
            }
            return true;
        }
        i = i + 1;
    }
    proof {
        assert forall|i2: int| 0 <= i2 && i2 + sub@.len() <= s@.len() implies #[trigger] s@.subrange(
            i2,
            i2 + sub@.len(),
        ) != sub@ by {
            assert(i2 < i);
        }
    }
    false
}

/// Two strictly sorted name lists with the same membership are equal
/// element by element.
pub proof fn lemma_sorted_names_equal(s1: Seq<Vec<u8>>, s2: Seq<Vec<u8>>)
    requires
        sorted_names(s1),
        sorted_names(s2),
        forall|m: Seq<u8>| seq_has_name(s1, m) <==> seq_has_name(s2, m),
    ensures
        s1.len() == s2.len(),
        forall|i: int| 0 <= i < s1.len() ==> #[trigger] s1[i]@ == s2[i]@,
    decreases s1.len(),
{
    if s1.len() == 0 {
        if s2.len() > 0 {
            assert(seq_has_name(s2, s2[0]@));
        }
    } else if s2.len() == 0 {
        assert(seq_has_name(s1, s1[0]@));
    } else {
        // The heads are both the unique minimum of the common name set.
        assert(seq_has_name(s1, s1[0]@));
        assert(seq_has_name(s2, s2[0]@));
        let j = choose|j: int| 0 <= j < s2.len() && s2[j]@ == s1[0]@;
        let i = choose|i: int| 0 <= i < s1.len() && s1[i]@ == s2[0]@;
        if j > 0 {
            assert(lex_lt(s2[0]@, s2[j]@));
            if i > 0 {
                assert(lex_lt(s1[0]@, s1[i]@));
                lemma_lex_trans(s1[0]@, s1[i]@, s2[j]@);
                lemma_lex_asym(s1[0]@, s2[j]@);
            }
        }
        assert(s1[0]@ == s2[0]@);
        let t1 = s1.drop_first();
        let t2 = s2.drop_first();
        assert forall|m: Seq<u8>| seq_has_name(t1, m) <==> seq_has_name(t2, m) by {
            lemma_tail_membership(s1, m);
            lemma_tail_membership(s2, m);
        }
        lemma_sorted_names_equal(t1, t2);
        assert forall|i2: int| 0 <= i2 < s1.len() implies #[trigger] s1[i2]@ == s2[i2]@ by {
            if i2 > 0 {
                assert(t1[i2 - 1]@ == t2[i2 - 1]@);
            }
        }
    }
}

/// In a strictly sorted list, the tail holds exactly the names other than
/// the head.
proof fn lemma_tail_membership(s: Seq<Vec<u8>>, m: Seq<u8>)
    requires
        sorted_names(s),
        s.len() > 0,
    ensures
        seq_has_name(s.drop_first(), m) <==> (seq_has_name(s, m) && m != s[0]@),
{
    let t = s.drop_first();
    if seq_has_name(t, m) {
        let k = choose|k: int| 0 <= k < t.len() && t[k]@ == m;
        assert(s[k + 1]@ == m);
        assert(lex_lt(s[0]@, s[k + 1]@));
        lemma_lex_asym(s[0]@, s[k + 1]@);
    }
    if seq_has_name(s, m) && m != s[0]@ {
        let k = choose|k: int| 0 <= k < s.len() && s[k]@ == m;
        assert(t[k - 1]@ == m);
    }
}

/// A duplicate-free list of names drawn from a finite set is no longer than
/// the set's cardinality.
pub proof fn lemma_distinct_names_bounded(s: Seq<Vec<u8>>, u: Set<Seq<u8>>)
    requires
        distinct_names(s),
        u.finite(),
        forall|i: int| 0 <= i < s.len() ==> u.contains(#[trigger] s[i]@),
    ensures
        s.len() <= u.len(),
{
    broadcast use vstd::seq_lib::seq_to_set_is_finite;

    let t = s.map_values(|x: Vec<u8>| x@);
    assert(t.no_duplicates());
    t.unique_seq_to_set();
    assert forall|m: Seq<u8>| t.to_set().contains(m) implies u.contains(m) by {
        let k = choose|k: int| 0 <= k < t.len() && t[k] == m;
        assert(s[k]@ == m);
    }
    assert(t.to_set() <= u);
    lemma_len_subset(t.to_set(), u);
}

} // verus!
