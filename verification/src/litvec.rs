//! Verified helpers for plain vectors of SAT literals.

use vstd::prelude::*;

use crate::cnf::{lemma_lit_set_contains, lemma_lit_set_equiv, lemma_lit_set_push, lit_seq,
    lit_set, valid_lits};

verus! {

/// Whether `x` occurs in `v`.
pub fn contains_lit(v: &Vec<i32>, x: i32) -> (r: bool)
    ensures
        r <==> lit_set(v@).contains(x as int),
{
    let mut i: usize = 0;
    while i < v.len()
        invariant
            0 <= i <= v@.len(),
            forall|k: int| 0 <= k < i ==> v@[k] != x,
        decreases v@.len() - i,
    {
        if v[i] == x {
            proof {
                lemma_lit_set_contains(v@, i as int);
            }
            return true;
        }
        i += 1;
    }
    proof {
        lemma_lit_set_equiv(v@, x as int);
    }
    false
}

/// Whether every literal of `v` is valid.
pub fn lits_all_valid(v: &Vec<i32>) -> (r: bool)
    ensures
        r == valid_lits(lit_seq(v@)),
{
    let mut i: usize = 0;
    while i < v.len()
        invariant
            0 <= i <= v@.len(),
            forall|k: int| 0 <= k < i ==> crate::cnf::valid_lit(#[trigger] lit_seq(v@)[k]),
        decreases v@.len() - i,
    {
        proof {
            assert(lit_seq(v@)[i as int] == v@[i as int] as int);
        }
        if !crate::cnf::valid_lit_exec(v[i]) {
            return false;
        }
        i += 1;
    }
    true
}

/// Every literal of `a` occurs in `b`.
pub fn lits_subset(a: &Vec<i32>, b: &Vec<i32>) -> (r: bool)
    ensures
        r <==> lit_set(a@).subset_of(lit_set(b@)),
{
    let mut i: usize = 0;
    while i < a.len()
        invariant
            0 <= i <= a@.len(),
            forall|k: int| 0 <= k < i ==> lit_set(b@).contains(#[trigger] a@[k] as int),
        decreases a@.len() - i,
    {
        if !contains_lit(b, a[i]) {
            proof {
                lemma_lit_set_contains(a@, i as int);
            }
            return false;
        }
        i += 1;
    }
    proof {
        assert forall|x: int| lit_set(a@).contains(x) implies lit_set(b@).contains(x) by {
            lemma_lit_set_equiv(a@, x);
            let k = choose|k: int| 0 <= k < a@.len() && a@[k] as int == x;
            assert(lit_set(b@).contains(a@[k] as int));
        }
    }
    true
}

/// A copy of `v` with duplicates dropped (first occurrences kept).
pub fn dedup_lits(v: &Vec<i32>) -> (r: Vec<i32>)
    ensures
        r@.no_duplicates(),
        lit_set(r@) =~= lit_set(v@),
        valid_lits(lit_seq(v@)) ==> valid_lits(lit_seq(r@)),
{
    let mut r: Vec<i32> = Vec::new();
    let mut i: usize = 0;
    proof {
        crate::cnf::lemma_lit_set_empty();
    }
    while i < v.len()
        invariant
            0 <= i <= v@.len(),
            r@.no_duplicates(),
            lit_set(r@) =~= lit_set(v@.subrange(0, i as int)),
            forall|k: int| 0 <= k < r@.len() ==> exists|j: int| 0 <= j < i && v@[j] == #[trigger] r@[k],
        decreases v@.len() - i,
    {
        let ghost pre = r@;
        let x = v[i];
        if !contains_lit(&r, x) {
            proof {
                assert forall|k: int| 0 <= k < pre.len() implies pre[k] != x by {
                    if pre[k] == x {
                        lemma_lit_set_contains(pre, k);
                    }
                }
            }
            r.push(x);
            proof {
                lemma_lit_set_push(pre, x);
            }
        }
        proof {
            assert(v@.subrange(0, i + 1) =~= v@.subrange(0, i as int).push(v@[i as int]));
            lemma_lit_set_push(v@.subrange(0, i as int), v@[i as int]);
        }
        i += 1;
    }
    proof {
        assert(v@.subrange(0, v@.len() as int) =~= v@);
        assert forall|k: int| 0 <= k < r@.len() implies valid_lits(lit_seq(v@)) ==> crate::cnf::valid_lit(
            #[trigger] r@[k] as int,
        ) by {
            let j = choose|j: int| 0 <= j < v@.len() && v@[j] == r@[k];
            assert(lit_seq(v@)[j] == v@[j] as int);
        }
    }
    r
}

/// A copy of `v` with every occurrence of `x` dropped.
pub fn remove_lit(v: &Vec<i32>, x: i32) -> (r: Vec<i32>)
    ensures
        lit_set(r@) =~= lit_set(v@).remove(x as int),
        v@.no_duplicates() ==> r@.no_duplicates(),
        sorted_lits(v@) ==> sorted_lits(r@),
        valid_lits(lit_seq(v@)) ==> valid_lits(lit_seq(r@)),
{
    let mut r: Vec<i32> = Vec::new();
    let mut i: usize = 0;
    proof {
        crate::cnf::lemma_lit_set_empty();
    }
    while i < v.len()
        invariant
            0 <= i <= v@.len(),
            lit_set(r@) =~= lit_set(v@.subrange(0, i as int)).remove(x as int),
            forall|k: int| 0 <= k < r@.len() ==> exists|j: int| 0 <= j < i && v@[j] == #[trigger] r@[k],
            v@.no_duplicates() ==> r@.no_duplicates(),
            sorted_lits(v@) ==> sorted_lits(r@),
        decreases v@.len() - i,
    {
        let ghost pre = r@;
        if v[i] != x {
            proof {
                if v@.no_duplicates() {
                    assert forall|k: int| 0 <= k < pre.len() implies pre[k] != v@[i as int] by {
                        let j = choose|j: int| 0 <= j < i && v@[j] == pre[k];
                    }
                }
            }
            r.push(v[i]);
            proof {
                lemma_lit_set_push(pre, v@[i as int]);
                if sorted_lits(v@) {
                    assert forall|a: int, b: int|
                        0 <= a < b < r@.len() implies lit_key(#[trigger] r@[a] as int) < lit_key(
                        #[trigger] r@[b] as int,
                    ) by {
                        if b == r@.len() - 1 {
                            assert(r@[a] == pre[a]);
                            let j = choose|j: int| 0 <= j < i && v@[j] == pre[a];
                            assert(lit_key(v@[j] as int) < lit_key(v@[i as int] as int));
                        } else {
                            assert(r@[a] == pre[a] && r@[b] == pre[b]);
                        }
                    }
                }
            }
        }
        proof {
            assert(v@.subrange(0, i + 1) =~= v@.subrange(0, i as int).push(v@[i as int]));
            lemma_lit_set_push(v@.subrange(0, i as int), v@[i as int]);
        }
        i += 1;
    }
    proof {
        assert(v@.subrange(0, v@.len() as int) =~= v@);
        assert forall|k: int| 0 <= k < r@.len() implies valid_lits(lit_seq(v@)) ==> crate::cnf::valid_lit(
            #[trigger] r@[k] as int,
        ) by {
            let j = choose|j: int| 0 <= j < v@.len() && v@[j] == r@[k];
            assert(lit_seq(v@)[j] == v@[j] as int);
        }
    }
    r
}

/// The canonical ordering key of a literal: literals are ordered by
/// variable, the positive literal before the negative one.
pub open spec fn lit_key(l: int) -> int {
    if l < 0 {
        (-l) * 2 + 1
    } else {
        l * 2
    }
}

/// The ordering key, executable.
pub fn lit_key_exec(l: i32) -> (r: u64)
    ensures
        r == lit_key(l as int),
{
    if l < 0 {
        let m: u64 = if l == i32::MIN {
            2147483648u64
        } else {
            (-l) as u64
        };
        m * 2 + 1
    } else {
        (l as u64) * 2
    }
}

/// Distinct literals have distinct keys.
pub proof fn lemma_lit_key_injective(a: int, b: int)
    ensures
        lit_key(a) == lit_key(b) ==> a == b,
{
}

/// Strictly ascending in the canonical literal order (hence duplicate-free).
pub open spec fn sorted_lits(s: Seq<i32>) -> bool {
    forall|i: int, j: int|
        0 <= i < j < s.len() ==> lit_key(#[trigger] s[i] as int) < lit_key(#[trigger] s[j] as int)
}

/// A sorted literal vector has as many elements as its set of literals.
pub proof fn lemma_sorted_lits_len(s: Seq<i32>)
    requires
        sorted_lits(s),
    ensures
        lit_set(s).len() == s.len(),
        lit_set(s).finite(),
{
    assert forall|i: int, j: int| 0 <= i < j < lit_seq(s).len() implies lit_seq(s)[i] != lit_seq(
        s,
    )[j] by {
        assert(lit_seq(s)[i] == s[i] as int && lit_seq(s)[j] == s[j] as int);
        assert(lit_key(s[i] as int) < lit_key(s[j] as int));
    }
    assert(lit_seq(s).no_duplicates());
    lit_seq(s).unique_seq_to_set();
}

/// Two sorted literal vectors with the same contents are identical.
pub proof fn lemma_sorted_unique(a: Seq<i32>, b: Seq<i32>)
    requires
        sorted_lits(a),
        sorted_lits(b),
        lit_set(a) == lit_set(b),
    ensures
        a == b,
    decreases a.len(),
{
    if a.len() == 0 {
        if b.len() > 0 {
            lemma_lit_set_contains(b, 0);
            lemma_lit_set_equiv(a, b[0] as int);
        }
        assert(a =~= b);
    } else if b.len() == 0 {
        lemma_lit_set_contains(a, 0);
        lemma_lit_set_equiv(b, a[0] as int);
    } else {
        // The least element of each side is its first, so the heads agree.
        lemma_lit_set_contains(a, 0);
        lemma_lit_set_equiv(b, a[0] as int);
        let ja = choose|j: int| 0 <= j < b.len() && b[j] as int == a[0] as int;
        lemma_lit_set_contains(b, 0);
        lemma_lit_set_equiv(a, b[0] as int);
        let jb = choose|j: int| 0 <= j < a.len() && a[j] as int == b[0] as int;
        assert(a[0] == b[0]);
        let a1 = a.drop_first();
        let b1 = b.drop_first();
        assert forall|x: int| lit_set(a1).contains(x) implies lit_set(b1).contains(x) by {
            lemma_lit_set_equiv(a1, x);
            let i = choose|i: int| 0 <= i < a1.len() && a1[i] as int == x;
            assert(a[i + 1] as int == x);
            lemma_lit_set_contains(a, i + 1);
            lemma_lit_set_equiv(b, x);
            let j = choose|j: int| 0 <= j < b.len() && b[j] as int == x;
            if j == 0 {
                assert(lit_key(a[i + 1] as int) > lit_key(a[0] as int));
                assert(false);
            }
            assert(b1[j - 1] as int == x);
            lemma_lit_set_contains(b1, j - 1);
        }
        assert forall|x: int| lit_set(b1).contains(x) implies lit_set(a1).contains(x) by {
            lemma_lit_set_equiv(b1, x);
            let i = choose|i: int| 0 <= i < b1.len() && b1[i] as int == x;
            assert(b[i + 1] as int == x);
            lemma_lit_set_contains(b, i + 1);
            lemma_lit_set_equiv(a, x);
            let j = choose|j: int| 0 <= j < a.len() && a[j] as int == x;
            if j == 0 {
                assert(lit_key(b[i + 1] as int) > lit_key(b[0] as int));
                assert(false);
            }
            assert(a1[j - 1] as int == x);
            lemma_lit_set_contains(a1, j - 1);
        }
        assert(lit_set(a1) =~= lit_set(b1));
        assert(sorted_lits(a1)) by {
            assert forall|i: int, j: int|
                0 <= i < j < a1.len() implies lit_key(#[trigger] a1[i] as int) < lit_key(
                #[trigger] a1[j] as int,
            ) by {
                assert(a1[i] == a[i + 1] && a1[j] == a[j + 1]);
            }
        }
        assert(sorted_lits(b1)) by {
            assert forall|i: int, j: int|
                0 <= i < j < b1.len() implies lit_key(#[trigger] b1[i] as int) < lit_key(
                #[trigger] b1[j] as int,
            ) by {
                assert(b1[i] == b[i + 1] && b1[j] == b[j + 1]);
            }
        }
        lemma_sorted_unique(a1, b1);
        assert forall|i: int| 0 <= i < a.len() implies a[i] == b[i] by {
            if i > 0 {
                assert(a1[i - 1] == b1[i - 1]);
            }
        }
        assert(a =~= b);
    }
}

/// Inserts `x` into the sorted vector `v`, keeping it sorted; a literal
/// already present is not duplicated.
pub fn insert_sorted(v: &Vec<i32>, x: i32) -> (r: Vec<i32>)
    requires
        sorted_lits(v@),
    ensures
        sorted_lits(r@),
        lit_set(r@) =~= lit_set(v@).insert(x as int),
        valid_lits(lit_seq(v@)) && crate::cnf::valid_lit(x as int) ==> valid_lits(lit_seq(r@)),
{
    let key = lit_key_exec(x);
    let mut r: Vec<i32> = Vec::new();
    let mut i: usize = 0;
    proof {
        crate::cnf::lemma_lit_set_empty();
    }
    // Copy the strictly smaller prefix.
    while i < v.len()
        invariant
            0 <= i <= v@.len(),
            sorted_lits(v@),
            key == lit_key(x as int),
            r@ =~= v@.subrange(0, i as int),
            forall|k: int| 0 <= k < i ==> lit_key(#[trigger] v@[k] as int) < lit_key(x as int),
        ensures
            0 <= i <= v@.len(),
            r@ =~= v@.subrange(0, i as int),
            forall|k: int| 0 <= k < i ==> lit_key(#[trigger] v@[k] as int) < lit_key(x as int),
            i < v@.len() ==> lit_key(v@[i as int] as int) >= lit_key(x as int),
        decreases v@.len() - i,
    {
        let ki = lit_key_exec(v[i]);
        if ki >= key {
            break;
        }
        r.push(v[i]);
        proof {
            assert(v@.subrange(0, i + 1) =~= v@.subrange(0, i as int).push(v@[i as int]));
        }
        i += 1;
    }
    let ghost prefix = r@;
    let dup = i < v.len() && v[i] == x;
    if !dup {
        r.push(x);
    }
    let mut j: usize = i;
    while j < v.len()
        invariant
            i <= j <= v@.len(),
            sorted_lits(v@),
            prefix =~= v@.subrange(0, i as int),
            forall|k: int| 0 <= k < i ==> lit_key(#[trigger] v@[k] as int) < lit_key(x as int),
            i < v@.len() ==> lit_key(v@[i as int] as int) >= lit_key(x as int),
            dup <==> (i < v@.len() && v@[i as int] == x),
            r@ =~= if dup {
                prefix + v@.subrange(i as int, j as int)
            } else {
                prefix + seq![x] + v@.subrange(i as int, j as int)
            },
        decreases v@.len() - j,
    {
        r.push(v[j]);
        proof {
            assert(v@.subrange(i as int, j + 1) =~= v@.subrange(i as int, j as int).push(
                v@[j as int],
            ));
        }
        j += 1;
    }
    proof {
        assert(v@ =~= v@.subrange(0, i as int) + v@.subrange(i as int, v@.len() as int));
        let tail = v@.subrange(i as int, v@.len() as int);
        if dup {
            assert(r@ =~= v@);
            assert(lit_set(v@).contains(x as int)) by {
                lemma_lit_set_contains(v@, i as int);
            }
            assert(lit_set(r@) =~= lit_set(v@).insert(x as int));
        } else {
            // r = prefix + [x] + tail: prove ordering and contents.
            assert forall|p: int, q: int|
                0 <= p < q < r@.len() implies lit_key(#[trigger] r@[p] as int) < lit_key(
                #[trigger] r@[q] as int,
            ) by {
                let il = i as int;
                assert(r@.len() == v@.len() + 1);
                if p < il && q < il {
                    assert(r@[p] == v@[p] && r@[q] == v@[q]);
                } else if p < il && q == il {
                    assert(r@[p] == v@[p]);
                } else if p < il && q > il {
                    assert(r@[p] == v@[p] && r@[q] == v@[q - 1]);
                    if q - 1 == il {
                        assert(lit_key(v@[p] as int) < lit_key(x as int));
                        assert(lit_key(x as int) <= lit_key(v@[il] as int));
                    } else {
                        assert(lit_key(v@[p] as int) < lit_key(v@[q - 1] as int));
                    }
                } else if p == il {
                    assert(r@[q] == v@[q - 1]);
                    assert(lit_key(x as int) <= lit_key(v@[il] as int));
                    lemma_lit_key_injective(x as int, v@[il] as int);
                    assert(lit_key(x as int) < lit_key(v@[il] as int));
                    if q - 1 > il {
                        assert(lit_key(v@[il] as int) < lit_key(v@[q - 1] as int));
                    }
                } else {
                    assert(r@[p] == v@[p - 1] && r@[q] == v@[q - 1]);
                }
            }
            assert forall|y: int| lit_set(r@).contains(y) implies lit_set(v@).insert(
                x as int,
            ).contains(y) by {
                lemma_lit_set_equiv(r@, y);
                let p = choose|p: int| 0 <= p < r@.len() && r@[p] as int == y;
                let il = i as int;
                if p < il {
                    lemma_lit_set_contains(v@, p);
                } else if p > il {
                    lemma_lit_set_contains(v@, p - 1);
                }
            }
            assert forall|y: int|
                lit_set(v@).insert(x as int).contains(y) implies lit_set(r@).contains(y) by {
                let il = i as int;
                if y == x as int {
                    lemma_lit_set_contains(r@, il);
                } else {
                    lemma_lit_set_equiv(v@, y);
                    let p = choose|p: int| 0 <= p < v@.len() && v@[p] as int == y;
                    if p < il {
                        lemma_lit_set_contains(r@, p);
                    } else {
                        lemma_lit_set_contains(r@, p + 1);
                    }
                }
            }
            assert(lit_set(r@) =~= lit_set(v@).insert(x as int));
        }
        assert forall|k: int| 0 <= k < r@.len() implies (valid_lits(lit_seq(v@))
            && crate::cnf::valid_lit(x as int)) ==> crate::cnf::valid_lit(
            #[trigger] r@[k] as int,
        ) by {
            if valid_lits(lit_seq(v@)) && crate::cnf::valid_lit(x as int) {
                lemma_lit_set_contains(r@, k);
                if r@[k] != x {
                    lemma_lit_set_equiv(v@, r@[k] as int);
                    let j2 = choose|j2: int| 0 <= j2 < v@.len() && v@[j2] as int == r@[k] as int;
                    assert(lit_seq(v@)[j2] == v@[j2] as int);
                }
            }
        }
    }
    r
}

/// The sorted, duplicate-free vector holding the same literals as `v`.
pub fn sort_lits(v: &Vec<i32>) -> (r: Vec<i32>)
    ensures
        sorted_lits(r@),
        lit_set(r@) =~= lit_set(v@),
        valid_lits(lit_seq(v@)) ==> valid_lits(lit_seq(r@)),
{
    let mut r: Vec<i32> = Vec::new();
    let mut i: usize = 0;
    proof {
        crate::cnf::lemma_lit_set_empty();
    }
    while i < v.len()
        invariant
            0 <= i <= v@.len(),
            sorted_lits(r@),
            lit_set(r@) =~= lit_set(v@.subrange(0, i as int)),
            valid_lits(lit_seq(v@)) ==> valid_lits(lit_seq(r@)),
        decreases v@.len() - i,
    {
        proof {
            assert(lit_seq(v@)[i as int] == v@[i as int] as int);
            assert(v@.subrange(0, i + 1) =~= v@.subrange(0, i as int).push(v@[i as int]));
            lemma_lit_set_push(v@.subrange(0, i as int), v@[i as int]);
        }
        let next = insert_sorted(&r, v[i]);
        r = next;
        i += 1;
    }
    proof {
        assert(v@.subrange(0, v@.len() as int) =~= v@);
    }
    r
}

/// The sorted union of two sorted literal vectors.
pub fn union_sorted(a: &Vec<i32>, b: &Vec<i32>) -> (r: Vec<i32>)
    requires
        sorted_lits(a@),
        sorted_lits(b@),
    ensures
        sorted_lits(r@),
        lit_set(r@) =~= lit_set(a@).union(lit_set(b@)),
        valid_lits(lit_seq(a@)) && valid_lits(lit_seq(b@)) ==> valid_lits(lit_seq(r@)),
{
    let mut r: Vec<i32> = Vec::new();
    let mut j: usize = 0;
    while j < a.len()
        invariant
            0 <= j <= a@.len(),
            sorted_lits(a@),
            r@ =~= a@.subrange(0, j as int),
        decreases a@.len() - j,
    {
        r.push(a[j]);
        proof {
            assert(a@.subrange(0, j + 1) =~= a@.subrange(0, j as int).push(a@[j as int]));
        }
        j += 1;
    }
    proof {
        assert(r@ =~= a@);
        assert(lit_set(b@.subrange(0, 0)) =~= Set::<int>::empty()) by {
            assert(b@.subrange(0, 0) =~= Seq::<i32>::empty());
            crate::cnf::lemma_lit_set_empty();
        }
        assert(lit_set(r@) =~= lit_set(a@).union(lit_set(b@.subrange(0, 0))));
    }
    let mut i: usize = 0;
    while i < b.len()
        invariant
            0 <= i <= b@.len(),
            sorted_lits(b@),
            sorted_lits(r@),
            lit_set(r@) =~= lit_set(a@).union(lit_set(b@.subrange(0, i as int))),
        decreases b@.len() - i,
    {
        proof {
            assert(b@.subrange(0, i + 1) =~= b@.subrange(0, i as int).push(b@[i as int]));
            lemma_lit_set_push(b@.subrange(0, i as int), b@[i as int]);
        }
        let next = insert_sorted(&r, b[i]);
        r = next;
        i += 1;
    }
    proof {
        assert(b@.subrange(0, b@.len() as int) =~= b@);
        if valid_lits(lit_seq(a@)) && valid_lits(lit_seq(b@)) {
            assert forall|k: int| 0 <= k < lit_seq(r@).len() implies crate::cnf::valid_lit(
                #[trigger] lit_seq(r@)[k],
            ) by {
                assert(lit_seq(r@)[k] == r@[k] as int);
                lemma_lit_set_contains(r@, k);
                if lit_set(a@).contains(r@[k] as int) {
                    lemma_lit_set_equiv(a@, r@[k] as int);
                    let q = choose|q: int| 0 <= q < a@.len() && a@[q] as int == r@[k] as int;
                    assert(lit_seq(a@)[q] == a@[q] as int);
                } else {
                    lemma_lit_set_equiv(b@, r@[k] as int);
                    let q = choose|q: int| 0 <= q < b@.len() && b@[q] as int == r@[k] as int;
                    assert(lit_seq(b@)[q] == b@[q] as int);
                }
            }
        }
    }
    r
}

/// Lexicographic order on literal vectors, by the canonical literal order.
pub open spec fn lex_lt(a: Seq<i32>, b: Seq<i32>) -> bool
    decreases a.len(),
{
    if b.len() == 0 {
        false
    } else if a.len() == 0 {
        true
    } else if lit_key(a[0] as int) < lit_key(b[0] as int) {
        true
    } else if lit_key(a[0] as int) > lit_key(b[0] as int) {
        false
    } else {
        lex_lt(a.drop_first(), b.drop_first())
    }
}

/// A vector strictly below another is not equal to it.
pub proof fn lemma_lex_lt_irrefl(a: Seq<i32>, b: Seq<i32>)
    ensures
        lex_lt(a, b) ==> a != b,
    decreases a.len(),
{
    if a.len() > 0 && b.len() > 0 && a == b {
        if lex_lt(a, b) {
            assert(lex_lt(a.drop_first(), b.drop_first()));
            lemma_lex_lt_irrefl(a.drop_first(), b.drop_first());
        }
    }
}

/// Compares two literal vectors lexicographically: negative for less,
/// zero for equal, positive for greater.
pub fn lex_cmp(a: &Vec<i32>, b: &Vec<i32>) -> (r: i8)
    ensures
        r == 0 <==> a@ == b@,
        r < 0 <==> lex_lt(a@, b@),
        r > 0 <==> lex_lt(b@, a@),
{
    let mut i: usize = 0;
    let alen = a.len();
    let blen = b.len();
    proof {
        assert(a@.skip(0) =~= a@);
        assert(b@.skip(0) =~= b@);
    }
    while i < alen && i < blen
        invariant
            0 <= i <= a@.len(),
            0 <= i <= b@.len(),
            alen == a@.len(),
            blen == b@.len(),
            forall|k: int| 0 <= k < i ==> a@[k] == b@[k],
            lex_lt(a@, b@) <==> lex_lt(a@.skip(i as int), b@.skip(i as int)),
            lex_lt(b@, a@) <==> lex_lt(b@.skip(i as int), a@.skip(i as int)),
        decreases a@.len() - i,
    {
        let ka = lit_key_exec(a[i]);
        let kb = lit_key_exec(b[i]);
        proof {
            assert(a@.skip(i as int)[0] == a@[i as int]);
            assert(b@.skip(i as int)[0] == b@[i as int]);
            assert(a@.skip(i as int).drop_first() =~= a@.skip(i + 1));
            assert(b@.skip(i as int).drop_first() =~= b@.skip(i + 1));
        }
        if ka < kb {
            return -1;
        }
        if ka > kb {
            proof {
                assert(lex_lt(b@.skip(i as int), a@.skip(i as int)));
            }
            return 1;
        }
        proof {
            lemma_lit_key_injective(a@[i as int] as int, b@[i as int] as int);
        }
        i += 1;
    }
    proof {
        assert(a@.skip(i as int).len() == a@.len() - i);
        assert(b@.skip(i as int).len() == b@.len() - i);
    }
    if alen < blen {
        proof {
            assert(lex_lt(a@.skip(i as int), b@.skip(i as int)));
        }
        -1
    } else if alen > blen {
        proof {
            assert(lex_lt(b@.skip(i as int), a@.skip(i as int)));
        }
        1
    } else {
        proof {
            assert(a@ =~= b@);
        }
        0
    }
}

} // verus!
