//! Executable helpers over identifier vectors: membership tests, duplicate
//! detection and copying, each proved against the sequence view.

use vstd::prelude::*;

verus! {

/// Whether every element of `s` occurs in it exactly once.
pub open spec fn distinct(s: Seq<u64>) -> bool {
    forall|i: int, j: int| 0 <= i < j < s.len() ==> s[i] != s[j]
}

/// Whether every element of `a` occurs in `b`.
pub open spec fn all_in(a: Seq<u64>, b: Seq<u64>) -> bool {
    forall|i: int| 0 <= i < a.len() ==> b.contains(#[trigger] a[i])
}

/// Linear membership scan.
pub fn id_present(v: &Vec<u64>, x: u64) -> (present: bool)
    ensures
        present == v@.contains(x),
{
    let n = v.len();
    let mut i: usize = 0;
    while i < n
        invariant
            i <= n,
            n == v@.len(),
            forall|k: int| 0 <= k < i ==> v@[k] != x,
        decreases n - i,
    {
        if v[i] == x {
            return true;
        }
        i += 1;
    }
    false
}

/// An element-for-element copy of an identifier vector.
pub fn copy_ids(v: &Vec<u64>) -> (r: Vec<u64>)
    ensures
        r@ == v@,
{
    let n = v.len();
    let mut r: Vec<u64> = Vec::new();
    let mut i: usize = 0;
    while i < n
        invariant
            i <= n,
            n == v@.len(),
            r@ == v@.take(i as int),
        decreases n - i,
    {
        r.push(v[i]);
        proof {
            assert(r@ =~= v@.take(i + 1));
        }
        i += 1;
    }
    proof {
        assert(v@.take(n as int) =~= v@);
    }
    r
}

/// Appending an element extends exactly what the sequence contains by it.
pub proof fn lemma_push_contains(s: Seq<u64>, x: u64)
    ensures
        forall|q: u64| #[trigger] s.push(x).contains(q) <==> s.contains(q) || q == x,
{
    assert forall|q: u64| #[trigger] s.push(x).contains(q) <==> s.contains(q) || q == x by {
        if s.contains(q) {
            let w = choose|w: int| 0 <= w < s.len() && s[w] == q;
            assert(s.push(x)[w] == q);
        }
        assert(s.push(x)[s.len() as int] == x);
        if s.push(x).contains(q) {
            let w = choose|w: int| 0 <= w < s.push(x).len() && s.push(x)[w] == q;
            if w < s.len() {
                assert(s[w] == q);
            }
        }
    }
}

/// Appending a fresh element keeps a sequence duplicate-free.
pub proof fn lemma_push_distinct(s: Seq<u64>, x: u64)
    requires
        distinct(s),
        !s.contains(x),
    ensures
        distinct(s.push(x)),
{
    assert forall|i: int, j: int| 0 <= i < j < s.push(x).len() implies s.push(x)[i] != s.push(
        x,
    )[j] by {
        if j == s.len() {
            assert(s.push(x)[i] == s[i]);
            assert(s.contains(s[i]));
        } else {
            assert(s.push(x)[i] == s[i] && s.push(x)[j] == s[j]);
        }
    }
}

/// Removes the single occurrence of `x` from a duplicate-free vector.
pub fn remove_id(v: &mut Vec<u64>, x: u64)
    requires
        distinct(old(v)@),
        old(v)@.contains(x),
    ensures
        distinct(final(v)@),
        !final(v)@.contains(x),
        forall|q: u64| q != x ==> (final(v)@.contains(q) <==> old(v)@.contains(q)),
        all_in(final(v)@, old(v)@),
        final(v)@.len() == old(v)@.len() - 1,
{
    let ghost s = old(v)@;
    let n = v.len();
    let mut i: usize = 0;
    while i < n
        invariant
            i <= n,
            n == s.len(),
            s == old(v)@,
            v@ == s,
            distinct(s),
            s.contains(x),
            forall|k: int| 0 <= k < i ==> s[k] != x,
        decreases n - i,
    {
        if v[i] == x {
            v.remove(i);
            proof {
                let t = s.remove(i as int);
                assert(v@ == t);
                assert(t.len() == s.len() - 1);
                assert forall|k: int| 0 <= k < t.len() implies t[k] == (if k < i {
                    s[k]
                } else {
                    s[k + 1]
                }) by {}
                assert forall|a: int, b: int| 0 <= a < b < t.len() implies t[a] != t[b] by {
                    let a2: int = if a < i {
                        a
                    } else {
                        a + 1
                    };
                    let b2: int = if b < i {
                        b
                    } else {
                        b + 1
                    };
                    assert(t[a] == s[a2] && t[b] == s[b2] && a2 < b2);
                }
                assert forall|k: int| 0 <= k < t.len() implies s.contains(#[trigger] t[k]) by {
                    if k < i {
                        assert(t[k] == s[k]);
                    } else {
                        assert(t[k] == s[k + 1]);
                    }
                }
                if t.contains(x) {
                    let w = choose|w: int| 0 <= w < t.len() && t[w] == x;
                    assert(s[i as int] == x);
                    assert(t[w] == (if w < i {
                        s[w]
                    } else {
                        s[w + 1]
                    }));
                    assert(false);
                }
                assert forall|q: u64| q != x && s.contains(q) implies t.contains(q) by {
                    let w = choose|w: int| 0 <= w < s.len() && s[w] == q;
                    if w < i {
                        assert(t[w] == q);
                    } else {
                        assert(w != i);
                        assert(t[w - 1] == q);
                    }
                }
            }
            return ;
        }
        i += 1;
    }
    proof {
        let w = choose|w: int| 0 <= w < s.len() && s[w] == x;
        assert(false);
    }
}

/// A distinct sequence that lies in `b` but misses some element of `b`
/// is strictly shorter than `b`.
pub proof fn lemma_distinct_proper_subset_len(a: Seq<u64>, b: Seq<u64>, x: u64)
    requires
        distinct(a),
        all_in(a, b),
        b.contains(x),
        !a.contains(x),
    ensures
        a.len() < b.len(),
{
    a.unique_seq_to_set();
    lemma_contained_set_len(a.to_set().insert(x), b);
}

/// A finite set whose elements all occur in the sequence `b` has at most
/// `b.len()` elements.
pub proof fn lemma_contained_set_len(s: Set<u64>, b: Seq<u64>)
    requires
        s.finite(),
        forall|x: u64| s.contains(x) ==> b.contains(x),
    ensures
        s.len() <= b.len(),
        s.len() == b.len() && distinct(b) ==> forall|x: u64| b.contains(x) ==> s.contains(x),
    decreases b.len(),
{
    if b.len() == 0 {
        if !s.is_empty() {
            let x = s.choose();
            assert(s.contains(x));
        }
        assert(s =~= Set::empty());
    } else {
        let last = b.last();
        let front = b.drop_last();
        let s2 = s.remove(last);
        assert forall|x: u64| s2.contains(x) implies front.contains(x) by {
            assert(b.contains(x));
            let i = choose|i: int| 0 <= i < b.len() && b[i] == x;
            assert(i < b.len() - 1 || x == last);
            assert(front[i] == x || x == last);
        }
        lemma_contained_set_len(s2, front);
        if s.contains(last) {
            assert(s.len() == s2.len() + 1);
        }
        if s.len() == b.len() && distinct(b) {
            assert forall|x: u64| b.contains(x) implies s.contains(x) by {
                if x == last {
                    if !s.contains(last) {
                        assert(s2 == s);
                        assert(s2.len() <= front.len());
                    }
                } else {
                    let i = choose|i: int| 0 <= i < b.len() && b[i] == x;
                    if i == b.len() - 1 {
                        assert(x == last);
                    } else {
                        assert(front[i] == x);
                        assert(front.contains(x));
                        assert(s.contains(last));
                        assert(s2.len() == s.len() - 1);
                        assert(distinct(front));
                        assert(s2.contains(x));
                    }
                }
            }
        }
    }
}

} // verus!
