//! The MUS dictionary: for each deducible literal, the smallest minimal
//! unsatisfiable subsets found so far, and the merge of contexts that share
//! one MUS.

use vstd::prelude::*;

use crate::cnf::{lit_seq, lit_set, valid_lits};
use crate::litvec::{lex_cmp, lex_lt, sort_lits, sorted_lits, union_sorted};

verus! {

/// A set of deduced literals together with the MUS of constraint literals
/// that justifies them.  Both vectors are kept sorted in the canonical
/// literal order, so equal sets are equal vectors.
#[derive(Debug, Clone)]
pub struct MusContext {
    /// The literals this MUS proves.
    pub lits: Vec<i32>,
    /// The constraint literals of the minimal unsatisfiable subset.
    pub mus: Vec<i32>,
}

impl MusContext {
    pub open spec fn wf(&self) -> bool {
        sorted_lits(self.lits@) && sorted_lits(self.mus@)
    }

    /// The context of one literal and its MUS.
    pub fn new(l: i32, mus: &Vec<i32>) -> (r: MusContext)
        ensures
            r.wf(),
            lit_set(r.lits@) =~= Set::<int>::empty().insert(l as int),
            lit_set(r.mus@) =~= lit_set(mus@),
    {
        let mut lits: Vec<i32> = Vec::new();
        lits.push(l);
        proof {
            crate::cnf::lemma_lit_set_empty();
            crate::cnf::lemma_lit_set_push(Seq::<i32>::empty(), l);
        }
        MusContext { lits, mus: sort_lits(mus) }
    }

    /// The context of several literals and their common MUS.
    pub fn new_multi_lit(lits: &Vec<i32>, mus: &Vec<i32>) -> (r: MusContext)
        ensures
            r.wf(),
            lit_set(r.lits@) =~= lit_set(lits@),
            lit_set(r.mus@) =~= lit_set(mus@),
    {
        MusContext { lits: sort_lits(lits), mus: sort_lits(mus) }
    }

    /// The context `mc` with `lits` added to its literals.
    pub fn new_with_more_lits(lits: &Vec<i32>, mc: &MusContext) -> (r: MusContext)
        requires
            mc.wf(),
        ensures
            r.wf(),
            lit_set(r.lits@) =~= lit_set(lits@).union(lit_set(mc.lits@)),
            r.mus@ == mc.mus@,
            valid_lits(lit_seq(lits@)) && valid_lits(lit_seq(mc.lits@)) ==> valid_lits(
                lit_seq(r.lits@),
            ),
    {
        let sorted = sort_lits(lits);
        MusContext { lits: union_sorted(&sorted, &mc.lits), mus: copy_lits(&mc.mus) }
    }

    /// How many constraints the MUS holds.
    pub fn mus_len(&self) -> (r: usize)
        ensures
            r == self.mus@.len(),
    {
        self.mus.len()
    }

    /// An identical copy.
    pub fn duplicate(&self) -> (r: MusContext)
        ensures
            r.lits@ == self.lits@,
            r.mus@ == self.mus@,
    {
        MusContext { lits: copy_lits(&self.lits), mus: copy_lits(&self.mus) }
    }
}

impl PartialEq for MusContext {
    fn eq(&self, other: &MusContext) -> (r: bool) {
        eq_lits(&self.lits, &other.lits) && eq_lits(&self.mus, &other.mus)
    }
}

impl vstd::std_specs::cmp::PartialEqSpecImpl for MusContext {
    open spec fn obeys_eq_spec() -> bool {
        true
    }

    open spec fn eq_spec(&self, other: &MusContext) -> bool {
        self.lits@ == other.lits@ && self.mus@ == other.mus@
    }
}

/// Whether two literal vectors are identical.
pub fn eq_lits(a: &Vec<i32>, b: &Vec<i32>) -> (r: bool)
    ensures
        r <==> a@ =~= b@,
{
    if a.len() != b.len() {
        return false;
    }
    let mut i: usize = 0;
    while i < a.len()
        invariant
            0 <= i <= a@.len(),
            a@.len() == b@.len(),
            forall|k: int| 0 <= k < i ==> a@[k] == b@[k],
        decreases a@.len() - i,
    {
        if a[i] != b[i] {
            return false;
        }
        i += 1;
    }
    true
}

/// An identical copy of a literal vector.
pub fn copy_lits(v: &Vec<i32>) -> (r: Vec<i32>)
    ensures
        r@ == v@,
{
    let mut r: Vec<i32> = Vec::new();
    let mut i: usize = 0;
    while i < v.len()
        invariant
            0 <= i <= v@.len(),
            r@ =~= v@.subrange(0, i as int),
        decreases v@.len() - i,
    {
        r.push(v[i]);
        proof {
            assert(v@.subrange(0, i + 1) =~= v@.subrange(0, i as int).push(v@[i as int]));
        }
        i += 1;
    }
    proof {
        assert(r@ =~= v@);
    }
    r
}

/// An identical copy of an `i64` vector.
pub fn copy_i64s(v: &Vec<i64>) -> (r: Vec<i64>)
    ensures
        r@ == v@,
{
    let mut r: Vec<i64> = Vec::new();
    let mut i: usize = 0;
    while i < v.len()
        invariant
            0 <= i <= v@.len(),
            r@ =~= v@.subrange(0, i as int),
        decreases v@.len() - i,
    {
        r.push(v[i]);
        proof {
            assert(v@.subrange(0, i + 1) =~= v@.subrange(0, i as int).push(v@[i as int]));
        }
        i += 1;
    }
    proof {
        assert(r@ =~= v@);
    }
    r
}

/// Every context is well formed.
pub open spec fn all_wf(s: Seq<MusContext>) -> bool {
    forall|i: int| 0 <= i < s.len() ==> (#[trigger] s[i]).wf()
}

/// The MUSes that occur in a list of contexts.
pub open spec fn mus_keys(s: Seq<MusContext>) -> Set<Seq<i32>> {
    Set::new(|m: Seq<i32>| exists|i: int| 0 <= i < s.len() && (#[trigger] s[i]).mus@ == m)
}

/// The union of the literal sets of every context whose MUS is `m`.
pub open spec fn merged_lits(s: Seq<MusContext>, m: Seq<i32>) -> Set<int>
    decreases s.len(),
{
    if s.len() == 0 {
        Set::empty()
    } else if s.last().mus@ == m {
        merged_lits(s.drop_last(), m).union(lit_set(s.last().lits@))
    } else {
        merged_lits(s.drop_last(), m)
    }
}

/// What merging means: the output has one context per MUS of the input, in
/// ascending MUS order, holding the union of the literals the input
/// associates with that MUS.
pub open spec fn merge_post(input: Seq<MusContext>, out: Seq<MusContext>) -> bool {
    &&& all_wf(out)
    &&& (forall|i: int, j: int|
        0 <= i < j < out.len() ==> lex_lt((#[trigger] out[i]).mus@, (#[trigger] out[j]).mus@))
    &&& mus_keys(out) =~= mus_keys(input)
    &&& (forall|i: int|
        0 <= i < out.len() ==> lit_set((#[trigger] out[i]).lits@) =~= merged_lits(
            input,
            out[i].mus@,
        ))
}

/// A MUS that never occurs contributes no literals.
proof fn lemma_merged_lits_absent(s: Seq<MusContext>, m: Seq<i32>)
    requires
        !mus_keys(s).contains(m),
    ensures
        merged_lits(s, m) =~= Set::<int>::empty(),
    decreases s.len(),
{
    if s.len() > 0 {
        assert(s.last().mus@ != m);
        assert forall|i: int| 0 <= i < s.drop_last().len() implies (#[trigger] s.drop_last()[i]).mus@
            != m by {
            assert(s[i] == s.drop_last()[i]);
        }
        lemma_merged_lits_absent(s.drop_last(), m);
    }
}

/// Merging ignores the literals of other MUSes.
proof fn lemma_merged_lits_push(s: Seq<MusContext>, mc: MusContext, m: Seq<i32>)
    ensures
        mc.mus@ == m ==> merged_lits(s.push(mc), m) == merged_lits(s, m).union(lit_set(mc.lits@)),
        mc.mus@ != m ==> merged_lits(s.push(mc), m) == merged_lits(s, m),
{
    assert(s.push(mc).drop_last() =~= s);
    assert(s.push(mc).last() == mc);
}

/// `lex_lt` is transitive.
pub proof fn lemma_lex_lt_trans(a: Seq<i32>, b: Seq<i32>, c: Seq<i32>)
    requires
        lex_lt(a, b),
        lex_lt(b, c),
    ensures
        lex_lt(a, c),
    decreases a.len() + b.len() + c.len(),
{
    if c.len() == 0 {
        // lex_lt(b, c) would be false.
    } else if a.len() == 0 {
    } else if b.len() == 0 {
        // lex_lt(a, b) would be false.
    } else {
        let ka = crate::litvec::lit_key(a[0] as int);
        let kb = crate::litvec::lit_key(b[0] as int);
        let kc = crate::litvec::lit_key(c[0] as int);
        if ka == kb && kb == kc {
            lemma_lex_lt_trans(a.drop_first(), b.drop_first(), c.drop_first());
        }
    }
}

/// Order on contexts: by the literals they prove, then by their MUS.
pub open spec fn mc_lt(a: MusContext, b: MusContext) -> bool {
    lex_lt(a.lits@, b.lits@) || (a.lits@ == b.lits@ && lex_lt(a.mus@, b.mus@))
}

/// `mc_lt` is transitive.
pub proof fn lemma_mc_lt_trans(a: MusContext, b: MusContext, c: MusContext)
    requires
        mc_lt(a, b),
        mc_lt(b, c),
    ensures
        mc_lt(a, c),
{
    if lex_lt(a.lits@, b.lits@) && lex_lt(b.lits@, c.lits@) {
        lemma_lex_lt_trans(a.lits@, b.lits@, c.lits@);
    }
    if a.lits@ == b.lits@ && b.lits@ == c.lits@ && lex_lt(a.mus@, b.mus@) && lex_lt(
        b.mus@,
        c.mus@,
    ) {
        lemma_lex_lt_trans(a.mus@, b.mus@, c.mus@);
    }
}

/// A context strictly below another is not equal to it.
pub proof fn lemma_mc_lt_irrefl(a: MusContext, b: MusContext)
    ensures
        mc_lt(a, b) ==> !(a.lits@ == b.lits@ && a.mus@ == b.mus@),
{
    crate::litvec::lemma_lex_lt_irrefl(a.lits@, b.lits@);
    crate::litvec::lemma_lex_lt_irrefl(a.mus@, b.mus@);
}

/// Compares two contexts: by literals, then by MUS.
pub fn mc_cmp(a: &MusContext, b: &MusContext) -> (r: i8)
    ensures
        r == 0 <==> (a.lits@ == b.lits@ && a.mus@ == b.mus@),
        r < 0 <==> mc_lt(*a, *b),
        r > 0 <==> mc_lt(*b, *a),
{
    let c = lex_cmp(&a.lits, &b.lits);
    if c != 0 {
        return c;
    }
    lex_cmp(&a.mus, &b.mus)
}

/// Whether a context list holds a context with these fields.
pub open spec fn mcs_contains(s: Seq<MusContext>, lits: Seq<i32>, mus: Seq<i32>) -> bool {
    exists|i: int| 0 <= i < s.len() && (#[trigger] s[i]).lits@ == lits && s[i].mus@ == mus
}

/// A strictly ascending list of contexts.
pub open spec fn sorted_mcs(s: Seq<MusContext>) -> bool {
    forall|i: int, j: int| 0 <= i < j < s.len() ==> mc_lt(#[trigger] s[i], #[trigger] s[j])
}

/// Inserts a context into a sorted, duplicate-free list, keeping it so.
fn insert_context(v: Vec<MusContext>, mc: MusContext) -> (r: Vec<MusContext>)
    requires
        sorted_mcs(v@),
    ensures
        sorted_mcs(r@),
        r@.len() >= 1,
        forall|l: Seq<i32>, m: Seq<i32>|
            #![auto]
            mcs_contains(r@, l, m) <==> (mcs_contains(v@, l, m) || (l == mc.lits@ && m
                == mc.mus@)),
        all_wf(v@) && mc.wf() ==> all_wf(r@),
        forall|k: int|
            0 <= k < r@.len() ==> (#[trigger] r@[k]).mus@.len() == mc.mus@.len() || exists|q: int|
                0 <= q < v@.len() && (#[trigger] v@[q]).mus@.len() == r@[k].mus@.len(),
{
    let ghost v0 = v@;
    let mut i: usize = 0;
    while i < v.len()
        invariant
            0 <= i <= v@.len(),
            v@ == v0,
            sorted_mcs(v@),
            forall|k: int| 0 <= k < i ==> mc_lt(#[trigger] v@[k], mc),
        ensures
            0 <= i <= v@.len(),
            v@ == v0,
            forall|k: int| 0 <= k < i ==> mc_lt(#[trigger] v@[k], mc),
            i < v@.len() ==> !mc_lt(v@[i as int], mc),
        decreases v@.len() - i,
    {
        let c = mc_cmp(&v[i], &mc);
        if c >= 0 {
            break;
        }
        i += 1;
    }
    let dup = if i < v.len() {
        mc_cmp(&v[i], &mc) == 0
    } else {
        false
    };
    let mut r = v;
    let ghost il = i as int;
    if !dup {
        r.insert(i, mc);
    }
    proof {
        if dup {
            assert(v0[il].lits@ == mc.lits@ && v0[il].mus@ == mc.mus@);
            assert(mcs_contains(v0, mc.lits@, mc.mus@));
        } else {
            assert(r@ =~= v0.subrange(0, il) + seq![mc] + v0.subrange(il, v0.len() as int));
            assert forall|p: int, q: int|
                0 <= p < q < r@.len() implies mc_lt(#[trigger] r@[p], #[trigger] r@[q]) by {
                if p < il && q < il {
                    assert(r@[p] == v0[p] && r@[q] == v0[q]);
                } else if p < il && q == il {
                    assert(r@[p] == v0[p]);
                } else if p < il && q > il {
                    assert(r@[p] == v0[p] && r@[q] == v0[q - 1]);
                    if q - 1 == il {
                        assert(!mc_lt(v0[il], mc));
                        assert(mc_lt(mc, v0[il]) || (mc.lits@ == v0[il].lits@ && mc.mus@
                            == v0[il].mus@));
                        lemma_mc_lt_trans(v0[p], mc, v0[il]);
                    } else {
                        assert(mc_lt(v0[p], v0[q - 1]));
                    }
                } else if p == il {
                    assert(r@[q] == v0[q - 1]);
                    assert(!mc_lt(v0[il], mc));
                    assert(mc_lt(mc, v0[il]));
                    if q - 1 > il {
                        lemma_mc_lt_trans(mc, v0[il], v0[q - 1]);
                    }
                } else {
                    assert(r@[p] == v0[p - 1] && r@[q] == v0[q - 1]);
                }
            }
            assert forall|l: Seq<i32>, m: Seq<i32>|
                #![auto]
                mcs_contains(r@, l, m) implies (mcs_contains(v0, l, m) || (l == mc.lits@ && m
                == mc.mus@)) by {
                let p = choose|p: int|
                    0 <= p < r@.len() && (#[trigger] r@[p]).lits@ == l && r@[p].mus@ == m;
                if p < il {
                    assert(v0[p].lits@ == l && v0[p].mus@ == m);
                } else if p > il {
                    assert(v0[p - 1].lits@ == l && v0[p - 1].mus@ == m);
                }
            }
            assert forall|l: Seq<i32>, m: Seq<i32>|
                #![auto]
                (mcs_contains(v0, l, m) || (l == mc.lits@ && m == mc.mus@)) implies mcs_contains(
                r@,
                l,
                m,
            ) by {
                if mcs_contains(v0, l, m) {
                    let p = choose|p: int|
                        0 <= p < v0.len() && (#[trigger] v0[p]).lits@ == l && v0[p].mus@ == m;
                    if p < il {
                        assert(r@[p].lits@ == l && r@[p].mus@ == m);
                    } else {
                        assert(r@[p + 1].lits@ == l && r@[p + 1].mus@ == m);
                    }
                } else {
                    assert(r@[il].lits@ == l && r@[il].mus@ == m);
                }
            }
        }
        assert forall|k: int|
            0 <= k < r@.len() implies (#[trigger] r@[k]).mus@.len() == mc.mus@.len() || exists|
                q: int,
            |
                0 <= q < v0.len() && (#[trigger] v0[q]).mus@.len() == r@[k].mus@.len() by {
            if dup {
                assert(r@[k] == v0[k]);
            } else {
                if k < il {
                    assert(r@[k] == v0[k]);
                } else if k > il {
                    assert(r@[k] == v0[k - 1]);
                }
            }
        }
        if all_wf(v0) && mc.wf() {
            assert forall|k: int| 0 <= k < r@.len() implies (#[trigger] r@[k]).wf() by {
                if dup {
                    assert(r@[k] == v0[k]);
                } else {
                    if k < il {
                        assert(r@[k] == v0[k]);
                    } else if k > il {
                        assert(r@[k] == v0[k - 1]);
                    }
                }
            }
        }
    }
    r
}

/// Two context lists are the same, looked at mathematically.
pub open spec fn mc_seq_eq(a: Seq<MusContext>, b: Seq<MusContext>) -> bool {
    &&& a.len() == b.len()
    &&& forall|i: int|
        0 <= i < a.len() ==> (#[trigger] a[i]).mus@ == b[i].mus@ && a[i].lits@ == b[i].lits@
}

/// Sequences strictly sorted by MUS with the same MUSes list them in the
/// same order.
proof fn lemma_sorted_mus_unique(a: Seq<MusContext>, b: Seq<MusContext>)
    requires
        forall|i: int, j: int|
            0 <= i < j < a.len() ==> lex_lt((#[trigger] a[i]).mus@, (#[trigger] a[j]).mus@),
        forall|i: int, j: int|
            0 <= i < j < b.len() ==> lex_lt((#[trigger] b[i]).mus@, (#[trigger] b[j]).mus@),
        mus_keys(a) == mus_keys(b),
    ensures
        a.len() == b.len(),
        forall|i: int| 0 <= i < a.len() ==> (#[trigger] a[i]).mus@ == b[i].mus@,
    decreases a.len(),
{
    if a.len() == 0 {
        if b.len() > 0 {
            assert(mus_keys(b).contains(b[0].mus@));
            assert(mus_keys(a).contains(b[0].mus@));
            let j = choose|j: int| 0 <= j < a.len() && (#[trigger] a[j]).mus@ == b[0].mus@;
            assert(false);
        }
    } else if b.len() == 0 {
        assert(mus_keys(a).contains(a[0].mus@));
        assert(mus_keys(b).contains(a[0].mus@));
        let j = choose|j: int| 0 <= j < b.len() && (#[trigger] b[j]).mus@ == a[0].mus@;
        assert(false);
    } else {
        // The first MUS on each side is the least, so they agree.
        assert(mus_keys(a).contains(a[0].mus@));
        assert(mus_keys(b).contains(a[0].mus@));
        let ja = choose|j: int| 0 <= j < b.len() && (#[trigger] b[j]).mus@ == a[0].mus@;
        assert(mus_keys(b).contains(b[0].mus@));
        assert(mus_keys(a).contains(b[0].mus@));
        let jb = choose|j: int| 0 <= j < a.len() && (#[trigger] a[j]).mus@ == b[0].mus@;
        assert(a[0].mus@ == b[0].mus@) by {
            if ja > 0 && jb > 0 {
                assert(lex_lt(b[0].mus@, b[ja].mus@));
                assert(lex_lt(a[0].mus@, a[jb].mus@));
                lemma_lex_lt_trans(a[0].mus@, b[0].mus@, a[0].mus@);
                crate::litvec::lemma_lex_lt_irrefl(a[0].mus@, a[0].mus@);
            }
        }
        let a1 = a.drop_first();
        let b1 = b.drop_first();
        assert forall|m: Seq<i32>| mus_keys(a1).contains(m) implies mus_keys(b1).contains(m) by {
            let j = choose|j: int| 0 <= j < a1.len() && (#[trigger] a1[j]).mus@ == m;
            assert(a[j + 1].mus@ == m);
            assert(mus_keys(a).contains(m));
            assert(mus_keys(b).contains(m));
            let q = choose|q: int| 0 <= q < b.len() && (#[trigger] b[q]).mus@ == m;
            if q == 0 {
                // Then m is the common least key, below a[j + 1]'s: impossible.
                assert(lex_lt(a[0].mus@, a[j + 1].mus@));
                crate::litvec::lemma_lex_lt_irrefl(a[0].mus@, a[j + 1].mus@);
            }
            assert(b1[q - 1].mus@ == m);
        }
        assert forall|m: Seq<i32>| mus_keys(b1).contains(m) implies mus_keys(a1).contains(m) by {
            let j = choose|j: int| 0 <= j < b1.len() && (#[trigger] b1[j]).mus@ == m;
            assert(b[j + 1].mus@ == m);
            assert(mus_keys(b).contains(m));
            assert(mus_keys(a).contains(m));
            let q = choose|q: int| 0 <= q < a.len() && (#[trigger] a[q]).mus@ == m;
            if q == 0 {
                assert(lex_lt(b[0].mus@, b[j + 1].mus@));
                crate::litvec::lemma_lex_lt_irrefl(b[0].mus@, b[j + 1].mus@);
            }
            assert(a1[q - 1].mus@ == m);
        }
        assert(mus_keys(a1) =~= mus_keys(b1));
        assert forall|i: int, j: int|
            0 <= i < j < a1.len() implies lex_lt(
            (#[trigger] a1[i]).mus@,
            (#[trigger] a1[j]).mus@,
        ) by {
            assert(a1[i] == a[i + 1] && a1[j] == a[j + 1]);
        }
        assert forall|i: int, j: int|
            0 <= i < j < b1.len() implies lex_lt(
            (#[trigger] b1[i]).mus@,
            (#[trigger] b1[j]).mus@,
        ) by {
            assert(b1[i] == b[i + 1] && b1[j] == b[j + 1]);
        }
        lemma_sorted_mus_unique(a1, b1);
        assert forall|i: int| 0 <= i < a.len() implies (#[trigger] a[i]).mus@ == b[i].mus@ by {
            if i > 0 {
                assert(a1[i - 1].mus@ == b1[i - 1].mus@);
            }
        }
    }
}

/// Merging determines its output: any two lists that satisfy the merge
/// contract for the same input are the same.
pub proof fn lemma_merge_canonical(input: Seq<MusContext>, r1: Seq<MusContext>, r2: Seq<
    MusContext,
>)
    requires
        merge_post(input, r1),
        merge_post(input, r2),
    ensures
        mc_seq_eq(r1, r2),
{
    lemma_sorted_mus_unique(r1, r2);
    assert forall|i: int| 0 <= i < r1.len() implies (#[trigger] r1[i]).mus@ == r2[i].mus@
        && r1[i].lits@ == r2[i].lits@ by {
        assert(lit_set(r1[i].lits@) =~= merged_lits(input, r1[i].mus@));
        assert(lit_set(r2[i].lits@) =~= merged_lits(input, r2[i].mus@));
        crate::litvec::lemma_sorted_unique(r1[i].lits@, r2[i].lits@);
    }
}

/// In a list whose MUSes are pairwise distinct, the merged literals of an
/// entry's MUS are exactly that entry's literals.
proof fn lemma_merged_lits_of_distinct(s: Seq<MusContext>, j: int)
    requires
        0 <= j < s.len(),
        forall|p: int, q: int|
            0 <= p < q < s.len() ==> (#[trigger] s[p]).mus@ != (#[trigger] s[q]).mus@,
    ensures
        merged_lits(s, s[j].mus@) =~= lit_set(s[j].lits@),
    decreases s.len(),
{
    let last = s.len() - 1;
    if j == last {
        assert forall|i: int| 0 <= i < s.drop_last().len() implies (#[trigger] s.drop_last()[
            i
        ]).mus@ != s[j].mus@ by {
            assert(s.drop_last()[i] == s[i]);
        }
        assert(!mus_keys(s.drop_last()).contains(s[j].mus@));
        lemma_merged_lits_absent(s.drop_last(), s[j].mus@);
    } else {
        assert(s.last().mus@ != s[j].mus@);
        assert(s.drop_last()[j] == s[j]);
        lemma_merged_lits_of_distinct(s.drop_last(), j);
    }
}

/// Every merged literal comes from an input context with that same MUS.
pub proof fn lemma_merged_lits_member(s: Seq<MusContext>, m: Seq<i32>, x: int)
    requires
        merged_lits(s, m).contains(x),
    ensures
        exists|k: int|
            0 <= k < s.len() && (#[trigger] s[k]).mus@ == m && lit_set(s[k].lits@).contains(x),
    decreases s.len(),
{
    if s.len() > 0 {
        if s.last().mus@ == m && lit_set(s.last().lits@).contains(x) {
            assert(s[s.len() - 1].mus@ == m && lit_set(s[s.len() - 1].lits@).contains(x));
        } else {
            lemma_merged_lits_member(s.drop_last(), m, x);
            let k = choose|k: int|
                0 <= k < s.drop_last().len() && (#[trigger] s.drop_last()[k]).mus@ == m && lit_set(
                    s.drop_last()[k].lits@,
                ).contains(x);
            assert(s[k] == s.drop_last()[k]);
        }
    }
}

/// Merging is idempotent: merging an already merged list gives it back.
///
/// Stated over the merge contract: if `r` is a merge of `v` and `rr` a
/// merge of `r`, then `rr` is `r`.
pub proof fn lemma_merge_idempotent(v: Seq<MusContext>, r: Seq<MusContext>, rr: Seq<MusContext>)
    requires
        merge_post(v, r),
        merge_post(r, rr),
    ensures
        mc_seq_eq(rr, r),
{
    // `r` is already a merge of itself.
    assert forall|p: int, q: int|
        0 <= p < q < r.len() implies (#[trigger] r[p]).mus@ != (#[trigger] r[q]).mus@ by {
        crate::litvec::lemma_lex_lt_irrefl(r[p].mus@, r[q].mus@);
    }
    assert forall|i: int| 0 <= i < r.len() implies lit_set((#[trigger] r[i]).lits@)
        =~= merged_lits(r, r[i].mus@) by {
        lemma_merged_lits_of_distinct(r, i);
    }
    assert(merge_post(r, r));
    lemma_merge_canonical(r, rr, r);
}

/// The merged literals of a concatenation are the union of each part's.
proof fn lemma_merged_lits_concat(x: Seq<MusContext>, y: Seq<MusContext>, m: Seq<i32>)
    ensures
        merged_lits(x + y, m) =~= merged_lits(x, m).union(merged_lits(y, m)),
    decreases y.len(),
{
    if y.len() == 0 {
        assert(x + y =~= x);
    } else {
        assert((x + y).drop_last() =~= x + y.drop_last());
        assert((x + y).last() == y.last());
        lemma_merged_lits_concat(x, y.drop_last(), m);
    }
}

/// The MUSes of a concatenation are the union of each part's.
proof fn lemma_mus_keys_concat(x: Seq<MusContext>, y: Seq<MusContext>)
    ensures
        mus_keys(x + y) =~= mus_keys(x).union(mus_keys(y)),
{
    assert forall|m: Seq<i32>| mus_keys(x + y).contains(m) implies mus_keys(x).union(
        mus_keys(y),
    ).contains(m) by {
        let i = choose|i: int| 0 <= i < (x + y).len() && (#[trigger] (x + y)[i]).mus@ == m;
        if i < x.len() {
            assert(x[i].mus@ == m);
        } else {
            assert(y[i - x.len()].mus@ == m);
        }
    }
    assert forall|m: Seq<i32>| mus_keys(x).union(mus_keys(y)).contains(m) implies mus_keys(
        x + y,
    ).contains(m) by {
        if mus_keys(x).contains(m) {
            let i = choose|i: int| 0 <= i < x.len() && (#[trigger] x[i]).mus@ == m;
            assert((x + y)[i].mus@ == m);
        } else {
            let i = choose|i: int| 0 <= i < y.len() && (#[trigger] y[i]).mus@ == m;
            assert((x + y)[x.len() + i].mus@ == m);
        }
    }
}

/// Replacing a part of the input by its merge leaves the merge contract's
/// right-hand sides unchanged.
proof fn lemma_merge_same_groups(y: Seq<MusContext>, ym: Seq<MusContext>)
    requires
        merge_post(y, ym),
    ensures
        mus_keys(ym) =~= mus_keys(y),
        forall|m: Seq<i32>| #![auto] merged_lits(ym, m) =~= merged_lits(y, m),
{
    assert forall|p: int, q: int|
        0 <= p < q < ym.len() implies (#[trigger] ym[p]).mus@ != (#[trigger] ym[q]).mus@ by {
        crate::litvec::lemma_lex_lt_irrefl(ym[p].mus@, ym[q].mus@);
    }
    assert forall|m: Seq<i32>| #![auto] merged_lits(ym, m) =~= merged_lits(y, m) by {
        if mus_keys(ym).contains(m) {
            let i = choose|i: int| 0 <= i < ym.len() && (#[trigger] ym[i]).mus@ == m;
            lemma_merged_lits_of_distinct(ym, i);
            assert(merged_lits(ym, m) =~= lit_set(ym[i].lits@));
        } else {
            lemma_merged_lits_absent(ym, m);
            lemma_merged_lits_absent(y, m);
        }
    }
}

/// Merging is associative: merging `a` against an already merged `b ++ c`
/// gives the same list as merging an already merged `a ++ b` against `c`.
pub proof fn lemma_merge_associative(
    a: Seq<MusContext>,
    b: Seq<MusContext>,
    c: Seq<MusContext>,
    bc: Seq<MusContext>,
    ab: Seq<MusContext>,
    left: Seq<MusContext>,
    right: Seq<MusContext>,
)
    requires
        merge_post(b + c, bc),
        merge_post(a + bc, left),
        merge_post(a + b, ab),
        merge_post(ab + c, right),
    ensures
        mc_seq_eq(left, right),
{
    let whole = a + b + c;
    // `left` merges a ++ (b ++ c) seen through the merged bc.
    lemma_merge_same_groups(b + c, bc);
    lemma_mus_keys_concat(a, bc);
    lemma_mus_keys_concat(b, c);
    lemma_mus_keys_concat(a, b);
    lemma_mus_keys_concat(a + b, c);
    assert(mus_keys(whole) =~= mus_keys(a + bc)) by {
        assert(mus_keys(a + bc) =~= mus_keys(a).union(mus_keys(bc)));
    }
    assert(merge_post(whole, left)) by {
        assert forall|i: int| 0 <= i < left.len() implies lit_set((#[trigger] left[i]).lits@)
            =~= merged_lits(whole, left[i].mus@) by {
            lemma_merged_lits_concat(a, bc, left[i].mus@);
            lemma_merged_lits_concat(a, b + c, left[i].mus@);
            lemma_merged_lits_concat(b, c, left[i].mus@);
            assert(whole =~= a + (b + c));
        }
        assert(mus_keys(left) =~= mus_keys(whole));
    }
    // `right` merges (a ++ b) ++ c seen through the merged ab.
    lemma_merge_same_groups(a + b, ab);
    lemma_mus_keys_concat(ab, c);
    assert(mus_keys(whole) =~= mus_keys(ab + c)) by {
        assert(mus_keys(ab + c) =~= mus_keys(ab).union(mus_keys(c)));
    }
    assert(merge_post(whole, right)) by {
        assert forall|i: int| 0 <= i < right.len() implies lit_set((#[trigger] right[i]).lits@)
            =~= merged_lits(whole, right[i].mus@) by {
            lemma_merged_lits_concat(ab, c, right[i].mus@);
            lemma_merged_lits_concat(a + b, c, right[i].mus@);
            assert(whole =~= (a + b) + c);
        }
        assert(mus_keys(right) =~= mus_keys(whole));
    }
    lemma_merge_canonical(whole, left, right);
}

/// Merges contexts with identical MUSes, unioning their literals.
///
/// The result lists each MUS of the input exactly once, in ascending order,
/// with all the literals the input justifies by it.
pub fn merge_muscontexts(v: &Vec<MusContext>) -> (r: Vec<MusContext>)
    requires
        all_wf(v@),
    ensures
        merge_post(v@, r@),
{
    let mut out: Vec<MusContext> = Vec::new();
    let mut i: usize = 0;
    while i < v.len()
        invariant
            0 <= i <= v@.len(),
            all_wf(v@),
            merge_post(v@.subrange(0, i as int), out@),
        decreases v@.len() - i,
    {
        let ghost prefix = v@.subrange(0, i as int);
        let ghost old_out = out@;
        let mc = &v[i];
        proof {
            assert(v@.subrange(0, i + 1) =~= prefix.push(v@[i as int]));
        }
        // Find where this MUS belongs in the sorted output.
        let mut pos: usize = 0;
        let mut found = false;
        while pos < out.len()
            invariant
                0 <= pos <= out@.len(),
                out@ == old_out,
                mc == &v@[i as int],
                0 <= i < v@.len(),
                all_wf(v@),
                merge_post(prefix, out@),
                !found ==> forall|k: int|
                    0 <= k < pos ==> lex_lt((#[trigger] out@[k]).mus@, v@[i as int].mus@),
                found ==> pos < out@.len() && out@[pos as int].mus@ == v@[i as int].mus@,
            ensures
                0 <= pos <= out@.len(),
                out@ == old_out,
                found ==> pos < out@.len() && out@[pos as int].mus@ == v@[i as int].mus@,
                !found ==> forall|k: int|
                    0 <= k < pos ==> lex_lt((#[trigger] out@[k]).mus@, v@[i as int].mus@),
                !found ==> (pos < out@.len() ==> lex_lt(v@[i as int].mus@, out@[pos as int].mus@)),
            decreases out@.len() - pos,
        {
            let c = lex_cmp(&out[pos].mus, &mc.mus);
            if c == 0 {
                found = true;
                break;
            }
            if c > 0 {
                break;
            }
            pos += 1;
        }
        proof {
            if !found {
                assert forall|k: int|
                    0 <= k < out@.len() implies (#[trigger] out@[k]).mus@ != v@[i as int].mus@ by {
                    if k < pos {
                        crate::litvec::lemma_lex_lt_irrefl(out@[k].mus@, v@[i as int].mus@);
                    } else if k == pos {
                        crate::litvec::lemma_lex_lt_irrefl(v@[i as int].mus@, out@[k].mus@);
                    } else {
                        assert(lex_lt(out@[pos as int].mus@, out@[k].mus@));
                        lemma_lex_lt_trans(
                            v@[i as int].mus@,
                            out@[pos as int].mus@,
                            out@[k].mus@,
                        );
                        crate::litvec::lemma_lex_lt_irrefl(v@[i as int].mus@, out@[k].mus@);
                    }
                }
            }
        }
        if found {
            let merged = MusContext {
                lits: union_sorted(&out[pos].lits, &mc.lits),
                mus: copy_lits(&out[pos].mus),
            };
            out.set(pos, merged);
            proof {
                let newv = prefix.push(v@[i as int]);
                assert(out@[pos as int].mus@ == old_out[pos as int].mus@);
                assert(out@[pos as int].wf());
                assert forall|k: int| 0 <= k < out@.len() implies (#[trigger] out@[k]).mus@
                    == old_out[k].mus@ && out@[k].wf() by {
                    if k != pos {
                        assert(out@[k] == old_out[k]);
                    }
                }
                assert forall|m: Seq<i32>| mus_keys(newv).contains(m) implies mus_keys(
                    out@,
                ).contains(m) by {
                    let j = choose|j: int| 0 <= j < newv.len() && (#[trigger] newv[j]).mus@ == m;
                    if j < prefix.len() {
                        assert(mus_keys(prefix).contains(m));
                        let q = choose|q: int|
                            0 <= q < old_out.len() && (#[trigger] old_out[q]).mus@ == m;
                        assert(out@[q].mus@ == m);
                    } else {
                        assert(out@[pos as int].mus@ == m);
                    }
                }
                assert forall|m: Seq<i32>| mus_keys(out@).contains(m) implies mus_keys(
                    newv,
                ).contains(m) by {
                    let q = choose|q: int| 0 <= q < out@.len() && (#[trigger] out@[q]).mus@ == m;
                    assert(old_out[q].mus@ == m);
                    assert(mus_keys(prefix).contains(m));
                    let j = choose|j: int|
                        0 <= j < prefix.len() && (#[trigger] prefix[j]).mus@ == m;
                    assert(newv[j].mus@ == m);
                }
                assert forall|q: int| 0 <= q < out@.len() implies lit_set(
                    (#[trigger] out@[q]).lits@,
                ) =~= merged_lits(newv, out@[q].mus@) by {
                    lemma_merged_lits_push(prefix, v@[i as int], out@[q].mus@);
                    if q == pos {
                        assert(lit_set(out@[q].lits@) =~= lit_set(old_out[q].lits@).union(
                            lit_set(v@[i as int].lits@),
                        ));
                    } else {
                        assert(out@[q] == old_out[q]);
                        assert(out@[q].mus@ != v@[i as int].mus@) by {
                            if out@[q].mus@ == v@[i as int].mus@ {
                                if q < pos {
                                    assert(lex_lt(old_out[q].mus@, old_out[pos as int].mus@));
                                } else {
                                    assert(lex_lt(old_out[pos as int].mus@, old_out[q].mus@));
                                }
                                crate::litvec::lemma_lex_lt_irrefl(
                                    old_out[pos as int].mus@,
                                    old_out[pos as int].mus@,
                                );
                            }
                        }
                    }
                }
                assert(merge_post(newv, out@));
            }
        } else {
            let fresh = mc.duplicate();
            out.insert(pos, fresh);
            proof {
                let newv = prefix.push(v@[i as int]);
                let il = pos as int;
                // Sortedness of the output after the insertion.
                assert forall|p: int, q: int|
                    0 <= p < q < out@.len() implies lex_lt(
                    (#[trigger] out@[p]).mus@,
                    (#[trigger] out@[q]).mus@,
                ) by {
                    if p < il && q < il {
                        assert(out@[p] == old_out[p] && out@[q] == old_out[q]);
                    } else if p < il && q == il {
                        assert(out@[p] == old_out[p]);
                    } else if p < il && q > il {
                        assert(out@[p] == old_out[p] && out@[q] == old_out[q - 1]);
                        if q - 1 == il {
                            lemma_lex_lt_trans(
                                old_out[p].mus@,
                                v@[i as int].mus@,
                                old_out[q - 1].mus@,
                            );
                        }
                    } else if p == il {
                        assert(out@[q] == old_out[q - 1]);
                        if q - 1 > il {
                            lemma_lex_lt_trans(
                                v@[i as int].mus@,
                                old_out[il].mus@,
                                old_out[q - 1].mus@,
                            );
                        }
                    } else {
                        assert(out@[p] == old_out[p - 1] && out@[q] == old_out[q - 1]);
                    }
                }
                assert forall|m: Seq<i32>| mus_keys(newv).contains(m) implies mus_keys(
                    out@,
                ).contains(m) by {
                    let j = choose|j: int| 0 <= j < newv.len() && (#[trigger] newv[j]).mus@ == m;
                    if j < prefix.len() {
                        assert(mus_keys(prefix).contains(m));
                        let q = choose|q: int|
                            0 <= q < old_out.len() && (#[trigger] old_out[q]).mus@ == m;
                        if q < il {
                            assert(out@[q].mus@ == m);
                        } else {
                            assert(out@[q + 1].mus@ == m);
                        }
                    } else {
                        assert(out@[il].mus@ == m);
                    }
                }
                assert forall|m: Seq<i32>| mus_keys(out@).contains(m) implies mus_keys(
                    newv,
                ).contains(m) by {
                    let q = choose|q: int| 0 <= q < out@.len() && (#[trigger] out@[q]).mus@ == m;
                    if q == il {
                        assert(newv[newv.len() - 1].mus@ == m);
                    } else {
                        let qo = if q < il {
                            q
                        } else {
                            q - 1
                        };
                        assert(old_out[qo].mus@ == m);
                        assert(mus_keys(prefix).contains(m));
                        let j = choose|j: int|
                            0 <= j < prefix.len() && (#[trigger] prefix[j]).mus@ == m;
                        assert(newv[j].mus@ == m);
                    }
                }
                assert forall|q: int| 0 <= q < out@.len() implies lit_set(
                    (#[trigger] out@[q]).lits@,
                ) =~= merged_lits(newv, out@[q].mus@) by {
                    lemma_merged_lits_push(prefix, v@[i as int], out@[q].mus@);
                    if q == il {
                        assert(!mus_keys(prefix).contains(v@[i as int].mus@)) by {
                            if mus_keys(prefix).contains(v@[i as int].mus@) {
                                let j = choose|j: int|
                                    0 <= j < old_out.len() && (#[trigger] old_out[j]).mus@
                                        == v@[i as int].mus@;
                            }
                        }
                        lemma_merged_lits_absent(prefix, v@[i as int].mus@);
                        assert(lit_set(out@[q].lits@) =~= lit_set(v@[i as int].lits@));
                    } else {
                        let qo = if q < il {
                            q
                        } else {
                            q - 1
                        };
                        assert(out@[q] == old_out[qo]);
                        assert(out@[q].mus@ != v@[i as int].mus@);
                    }
                }
                assert(merge_post(newv, out@));
            }
        }
        i += 1;
    }
    proof {
        assert(v@.subrange(0, v@.len() as int) =~= v@);
    }
    out
}


/// The mathematical value of one context: its literal list and MUS views.
pub open spec fn mc_view(mc: MusContext) -> (Seq<i32>, Seq<i32>) {
    (mc.lits@, mc.mus@)
}

/// The mathematical value of a context list.
pub open spec fn mcs_view(s: Seq<MusContext>) -> Seq<(Seq<i32>, Seq<i32>)> {
    s.map_values(|mc: MusContext| mc_view(mc))
}

/// One slot of the dictionary: a literal and the contexts of the smallest
/// MUSes found for it so far.
#[derive(Debug, Clone)]
pub struct MusEntry {
    /// The deducible literal this entry is about.
    pub key: i32,
    /// The contexts stored for it; never empty, all with MUSes of one size.
    pub contexts: Vec<MusContext>,
}

/// A dictionary from each deducible literal to the smallest MUSes found so
/// far that prove it.
#[derive(Debug, Clone)]
pub struct MusDict {
    entries: Vec<MusEntry>,
}

/// The dictionary a list of entries denotes.
pub open spec fn entries_map(s: Seq<MusEntry>) -> Map<int, Seq<(Seq<i32>, Seq<i32>)>>
    decreases s.len(),
{
    if s.len() == 0 {
        Map::empty()
    } else {
        entries_map(s.drop_last()).insert(s.last().key as int, mcs_view(s.last().contexts@))
    }
}

impl MusDict {
    /// The dictionary as a map from literals to stored contexts.
    pub closed spec fn dictv(&self) -> Map<int, Seq<(Seq<i32>, Seq<i32>)>> {
        entries_map(self.entries@)
    }

    pub closed spec fn wf(&self) -> bool {
        &&& (forall|i: int, j: int|
            0 <= i < j < self.entries@.len() ==> (#[trigger] self.entries@[i]).key != (
            #[trigger] self.entries@[j]).key)
        &&& (forall|i: int|
            0 <= i < self.entries@.len() ==> {
                let cs = (#[trigger] self.entries@[i]).contexts@;
                &&& cs.len() > 0
                &&& all_wf(cs)
                &&& sorted_mcs(cs)
                &&& (forall|k: int| 0 <= k < cs.len() ==> (#[trigger] cs[k]).mus@.len() == cs[0].mus@.len())
            })
    }

    /// An empty dictionary.
    pub fn new() -> (r: MusDict)
        ensures
            r.wf(),
            r.dictv() == Map::<int, Seq<(Seq<i32>, Seq<i32>)>>::empty(),
    {
        MusDict { entries: Vec::new() }
    }

    /// Whether no literal has an entry.
    pub fn is_empty(&self) -> (r: bool)
        requires
            self.wf(),
        ensures
            r <==> self.dictv().dom() =~= Set::<int>::empty(),
    {
        proof {
            lemma_entries_map_dom(self.entries@);
            if self.entries@.len() > 0 {
                assert(self.dictv().dom().contains(self.entries@[0].key as int)) by {
                    assert(entry_keys(self.entries@).contains(self.entries@[0].key as int));
                }
            }
        }
        self.entries.is_empty()
    }

    /// The stored entries, for iteration.  Each entry is the dictionary's
    /// image of its key.
    pub fn entries(&self) -> (r: &Vec<MusEntry>)
        ensures
            entries_map(r@) == self.dictv(),
            self.wf() ==> forall|i: int|
                0 <= i < r@.len() ==> {
                    let cs = (#[trigger] r@[i]).contexts@;
                    &&& cs.len() > 0
                    &&& all_wf(cs)
                    &&& sorted_mcs(cs)
                    &&& self.dictv().dom().contains(r@[i].key as int)
                    &&& self.dictv()[r@[i].key as int] == mcs_view(cs)
                },
    {
        proof {
            if self.wf() {
                assert forall|i: int| 0 <= i < self.entries@.len() implies self.dictv().dom().contains(
                    (#[trigger] self.entries@[i]).key as int,
                ) && self.dictv()[self.entries@[i].key as int] == mcs_view(
                    self.entries@[i].contexts@,
                ) by {
                    lemma_entries_map_at(self.entries@, i);
                }
            }
        }
        &self.entries
    }

    /// The stored entries, under the dictionary's traditional name.
    pub fn muses(&self) -> (r: &Vec<MusEntry>)
        ensures
            entries_map(r@) == self.dictv(),
    {
        &self.entries
    }

    /// The contexts stored for a literal.
    pub fn get(&self, lit: i32) -> (r: Option<&Vec<MusContext>>)
        requires
            self.wf(),
        ensures
            match r {
                Some(cs) => {
                    &&& self.dictv().dom().contains(lit as int)
                    &&& self.dictv()[lit as int] == mcs_view(cs@)
                    &&& cs@.len() > 0
                    &&& all_wf(cs@)
                    &&& sorted_mcs(cs@)
                    &&& forall|k: int|
                        0 <= k < cs@.len() ==> (#[trigger] cs@[k]).mus@.len() == cs@[0].mus@.len()
                },
                None => !self.dictv().dom().contains(lit as int),
            },
    {
        proof {
            lemma_entries_map_dom(self.entries@);
        }
        let mut i: usize = 0;
        while i < self.entries.len()
            invariant
                0 <= i <= self.entries@.len(),
                self.wf(),
                forall|k: int| 0 <= k < i ==> (#[trigger] self.entries@[k]).key != lit,
            decreases self.entries@.len() - i,
        {
            if self.entries[i].key == lit {
                proof {
                    lemma_entries_map_at(self.entries@, i as int);
                }
                return Some(&self.entries[i].contexts);
            }
            i += 1;
        }
        proof {
            if entry_keys(self.entries@).contains(lit as int) {
                let k = choose|k: int|
                    0 <= k < self.entries@.len() && (#[trigger] self.entries@[k]).key as int
                        == lit as int;
            }
        }
        None
    }

    /// The size of the smallest MUS stored for a literal, or `None` if none
    /// is stored.
    pub fn min_lit(&self, lit: i32) -> (r: Option<usize>)
        requires
            self.wf(),
        ensures
            match r {
                Some(n) => self.dictv().dom().contains(lit as int) && self.dictv()[lit as int].len()
                    > 0 && n == self.dictv()[lit as int][0].1.len(),
                None => !self.dictv().dom().contains(lit as int),
            },
    {
        match self.get(lit) {
            Some(cs) => {
                proof {
                    assert(mcs_view(cs@)[0] == mc_view(cs@[0]));
                    assert(self.dictv()[lit as int].len() == cs@.len());
                }
                Some(cs[0].mus_len())
            },
            None => None,
        }
    }

    /// The size of the smallest MUS stored for any literal, or `None` if the
    /// dictionary is empty.
    pub fn min(&self) -> (r: Option<usize>)
        requires
            self.wf(),
        ensures
            match r {
                Some(n) => {
                    &&& exists|l: int|
                        #![auto]
                        self.dictv().dom().contains(l) && self.dictv()[l].len() > 0
                            && self.dictv()[l][0].1.len() == n
                    &&& forall|l: int|
                        #![auto]
                        self.dictv().dom().contains(l) && self.dictv()[l].len() > 0 ==> n
                            <= self.dictv()[l][0].1.len()
                },
                None => self.dictv().dom() =~= Set::<int>::empty(),
            },
    {
        proof {
            lemma_entries_map_dom(self.entries@);
        }
        if self.entries.len() == 0 {
            proof {
                assert forall|l: int| !entry_keys(self.entries@).contains(l) by {
                    if entry_keys(self.entries@).contains(l) {
                        let k = choose|k: int|
                            0 <= k < self.entries@.len() && (#[trigger] self.entries@[k]).key as int
                                == l;
                    }
                }
                assert(self.dictv().dom() =~= Set::<int>::empty());
            }
            return None;
        }
        let mut best: usize = self.entries[0].contexts[0].mus_len();
        proof {
            lemma_entries_map_at(self.entries@, 0);
            assert(mcs_view(self.entries@[0].contexts@)[0] == mc_view(self.entries@[0].contexts@[0]));
        }
        let mut i: usize = 1;
        while i < self.entries.len()
            invariant
                1 <= i <= self.entries@.len(),
                self.wf(),
                exists|k: int|
                    #![auto]
                    0 <= k < i && best == (self.entries@[k]).contexts@[0].mus@.len(),
                forall|k: int|
                    0 <= k < i ==> best <= (#[trigger] self.entries@[k]).contexts@[0].mus@.len(),
            decreases self.entries@.len() - i,
        {
            let n = self.entries[i].contexts[0].mus_len();
            if n < best {
                best = n;
            }
            i += 1;
        }
        proof {
            let kw = choose|k: int|
                #![auto]
                0 <= k < self.entries@.len() && best == (self.entries@[k]).contexts@[0].mus@.len();
            lemma_entries_map_at(self.entries@, kw);
            assert(mcs_view(self.entries@[kw].contexts@)[0] == mc_view(
                self.entries@[kw].contexts@[0],
            ));
            assert(self.dictv().dom().contains(self.entries@[kw].key as int)
                && self.dictv()[self.entries@[kw].key as int][0].1.len() == best);
            assert forall|l: int|
                #![auto]
                self.dictv().dom().contains(l) && self.dictv()[l].len() > 0 implies best
                <= self.dictv()[l][0].1.len() by {
                lemma_entries_map_dom(self.entries@);
                assert(entry_keys(self.entries@).contains(l));
                let k = choose|k: int|
                    0 <= k < self.entries@.len() && (#[trigger] self.entries@[k]).key as int == l;
                lemma_entries_map_at(self.entries@, k);
                assert(mcs_view(self.entries@[k].contexts@)[0] == mc_view(
                    self.entries@[k].contexts@[0],
                ));
            }
        }
        Some(best)
    }

    /// Records a MUS for a literal.
    ///
    /// A literal not yet present gets a fresh entry.  Otherwise the new MUS
    /// is compared with the size of those already stored: strictly smaller
    /// replaces them all, equal is stored alongside, larger is discarded.
    pub fn add_mus(&mut self, lit: i32, mus: &Vec<i32>)
        requires
            old(self).wf(),
        ensures
            final(self).wf(),
            final(self).dictv().dom() =~= old(self).dictv().dom().insert(lit as int),
            forall|l: int|
                #![auto]
                l != lit as int && old(self).dictv().dom().contains(l) ==> final(self).dictv()[l]
                    == old(self).dictv()[l],
            final(self).dictv()[lit as int].len() > 0,
            // A fresh or replacing entry holds exactly the new MUS.
            (!old(self).dictv().dom().contains(lit as int) || lit_set(mus@).len() < old(
                self,
            ).dictv()[lit as int][0].1.len() as nat) ==> {
                &&& final(self).dictv()[lit as int].len() == 1
                &&& lit_set(final(self).dictv()[lit as int][0].0) =~= Set::<int>::empty().insert(
                    lit as int,
                )
                &&& lit_set(final(self).dictv()[lit as int][0].1) =~= lit_set(mus@)
            },
            // An equally small MUS is stored alongside the old ones.
            (old(self).dictv().dom().contains(lit as int) && lit_set(mus@).len() == old(
                self,
            ).dictv()[lit as int][0].1.len() as nat) ==> {
                &&& (forall|i: int|
                    0 <= i < old(self).dictv()[lit as int].len() ==> exists|j: int|
                        #![auto]
                        0 <= j < final(self).dictv()[lit as int].len()
                            && final(self).dictv()[lit as int][j] == #[trigger] old(
                            self,
                        ).dictv()[lit as int][i])
                &&& (exists|j: int|
                    #![auto]
                    0 <= j < final(self).dictv()[lit as int].len() && lit_set(
                        final(self).dictv()[lit as int][j].0,
                    ) =~= Set::<int>::empty().insert(lit as int) && lit_set(
                        final(self).dictv()[lit as int][j].1,
                    ) =~= lit_set(mus@))
                &&& (forall|j: int|
                    0 <= j < final(self).dictv()[lit as int].len() ==> (exists|i: int|
                        #![auto]
                        0 <= i < old(self).dictv()[lit as int].len() && old(
                            self,
                        ).dictv()[lit as int][i] == #[trigger] final(self).dictv()[lit as int][j])
                        || (lit_set(
                        final(self).dictv()[lit as int][j].0,
                    ) =~= Set::<int>::empty().insert(lit as int) && lit_set(
                        final(self).dictv()[lit as int][j].1,
                    ) =~= lit_set(mus@)))
            },
            // A larger MUS is discarded.
            (old(self).dictv().dom().contains(lit as int) && lit_set(mus@).len() > old(
                self,
            ).dictv()[lit as int][0].1.len() as nat) ==> final(self).dictv() == old(self).dictv(),
    {
        proof {
            lemma_entries_map_dom(self.entries@);
        }
        let fresh = MusContext::new(lit, mus);
        proof {
            crate::litvec::lemma_sorted_lits_len(fresh.mus@);
            crate::litvec::lemma_sorted_lits_len(fresh.lits@);
            assert(lit_set(fresh.mus@).len() == fresh.mus@.len());
        }
        let newlen = fresh.mus.len();
        let ghost pre = self.entries@;
        let mut i: usize = 0;
        while i < self.entries.len()
            invariant
                0 <= i <= self.entries@.len(),
                self.entries@ == pre,
                pre == old(self).entries@,
                fresh.wf(),
                lit_set(fresh.lits@) =~= Set::<int>::empty().insert(lit as int),
                lit_set(fresh.mus@) =~= lit_set(mus@),
                lit_set(fresh.mus@).len() == fresh.mus@.len(),
                newlen == fresh.mus@.len(),
                old(self).wf(),
                self.wf(),
                forall|k: int| 0 <= k < i ==> (#[trigger] self.entries@[k]).key != lit,
            decreases self.entries@.len() - i,
        {
            if self.entries[i].key == lit {
                proof {
                    lemma_entries_map_at(pre, i as int);
                    assert(mcs_view(pre[i as int].contexts@)[0] == mc_view(
                        pre[i as int].contexts@[0],
                    ));
                }
                let curlen = self.entries[i].contexts[0].mus_len();
                if newlen < curlen {
                    let mut contexts: Vec<MusContext> = Vec::new();
                    contexts.push(fresh);
                    let entry = MusEntry { key: lit, contexts };
                    self.entries.set(i, entry);
                    proof {
                        lemma_entries_map_update(pre, self.entries@, i as int);
                        assert(self.dictv() == entries_map(pre).insert(
                            lit as int,
                            mcs_view(self.entries@[i as int].contexts@),
                        ));
                        assert(self.dictv().dom() =~= old(self).dictv().dom().insert(lit as int));
                        assert(mcs_view(self.entries@[i as int].contexts@)[0] == mc_view(fresh));
                    }
                } else if newlen == curlen {
                    let copied = copy_contexts(&self.entries[i].contexts);
                    let ghost copiedv = copied@;
                    let contexts = insert_context(copied, fresh);
                    proof {
                        let precs = pre[i as int].contexts@;
                        assert forall|l: Seq<i32>, m: Seq<i32>|
                            #[trigger] mcs_contains(contexts@, l, m) <==> (mcs_contains(
                            precs,
                            l,
                            m,
                        ) || (l == fresh.lits@ && m == fresh.mus@)) by {
                            assert(mcs_contains(contexts@, l, m) <==> (mcs_contains(copiedv, l, m)
                                || (l == fresh.lits@ && m == fresh.mus@)));
                            assert(mcs_contains(copiedv, l, m) <==> mcs_contains(precs, l, m)) by {
                                if mcs_contains(copiedv, l, m) {
                                    let q = choose|q: int|
                                        0 <= q < copiedv.len() && (#[trigger] copiedv[q]).lits@
                                            == l && copiedv[q].mus@ == m;
                                    assert(precs[q].lits@ == l && precs[q].mus@ == m);
                                }
                                if mcs_contains(precs, l, m) {
                                    let q = choose|q: int|
                                        0 <= q < precs.len() && (#[trigger] precs[q]).lits@ == l
                                            && precs[q].mus@ == m;
                                    assert(copiedv[q].lits@ == l && copiedv[q].mus@ == m);
                                }
                            }
                        }
                        lemma_mcs_view_total(precs, contexts@, fresh);
                    }
                    let entry = MusEntry { key: lit, contexts };
                    self.entries.set(i, entry);
                    proof {
                        lemma_entries_map_update(pre, self.entries@, i as int);
                        assert(self.dictv() == entries_map(pre).insert(
                            lit as int,
                            mcs_view(self.entries@[i as int].contexts@),
                        ));
                        assert(self.dictv().dom() =~= old(self).dictv().dom().insert(lit as int));
                        lemma_entries_map_at(pre, i as int);
                        let precs2 = pre[i as int].contexts@;
                        assert(old(self).dictv()[lit as int] == mcs_view(precs2));
                        assert(self.dictv()[lit as int] == mcs_view(contexts@));
                        assert forall|ii: int|
                            0 <= ii < old(self).dictv()[lit as int].len() implies exists|j: int|
                            #![auto]
                            0 <= j < self.dictv()[lit as int].len() && self.dictv()[lit as int][j]
                                == #[trigger] old(self).dictv()[lit as int][ii] by {
                            assert(old(self).dictv()[lit as int][ii] == mcs_view(precs2)[ii]);
                            let j = choose|j: int|
                                #![auto]
                                0 <= j < mcs_view(contexts@).len() && mcs_view(contexts@)[j]
                                    == mcs_view(precs2)[ii];
                            assert(self.dictv()[lit as int][j] == mcs_view(contexts@)[j]);
                        }
                        let jf = choose|j: int|
                            #![auto]
                            0 <= j < contexts@.len() && mcs_view(contexts@)[j].0 == fresh.lits@
                                && mcs_view(contexts@)[j].1 == fresh.mus@;
                        assert(lit_set(self.dictv()[lit as int][jf].0) =~= Set::<
                            int,
                        >::empty().insert(lit as int));
                        assert(lit_set(self.dictv()[lit as int][jf].1) =~= lit_set(mus@));
                        assert forall|j: int|
                            0 <= j < self.dictv()[lit as int].len() implies (exists|ii: int|
                                #![auto]
                                0 <= ii < mcs_view(precs2).len() && mcs_view(precs2)[ii]
                                    == #[trigger] self.dictv()[lit as int][j]) || (lit_set(
                            self.dictv()[lit as int][j].0,
                        ) =~= Set::<int>::empty().insert(lit as int) && lit_set(
                            self.dictv()[lit as int][j].1,
                        ) =~= lit_set(mus@)) by {
                            assert(self.dictv()[lit as int][j] == mcs_view(contexts@)[j]);
                            assert(mcs_view(contexts@)[j] == mc_view(contexts@[j]));
                            assert(mcs_contains(
                                contexts@,
                                contexts@[j].lits@,
                                contexts@[j].mus@,
                            ));
                            if mcs_contains(precs2, contexts@[j].lits@, contexts@[j].mus@) {
                                let ii = choose|ii: int|
                                    0 <= ii < precs2.len() && (#[trigger] precs2[ii]).lits@
                                        == contexts@[j].lits@ && precs2[ii].mus@
                                        == contexts@[j].mus@;
                                assert(mcs_view(precs2)[ii] == mc_view(precs2[ii]));
                            } else {
                                assert(contexts@[j].lits@ == fresh.lits@ && contexts@[j].mus@
                                    == fresh.mus@);
                            }
                        }
                    }
                } else {
                    proof {
                        assert(self.dictv() == old(self).dictv());
                        lemma_entries_map_dom(self.entries@);
                        assert(entry_keys(self.entries@).contains(lit as int));
                        assert(self.dictv().dom() =~= old(self).dictv().dom().insert(lit as int));
                        lemma_entries_map_at(pre, i as int);
                    }
                }
                return ;
            }
            i += 1;
        }
        // No entry yet: append a fresh one.
        let mut contexts: Vec<MusContext> = Vec::new();
        contexts.push(fresh);
        let entry = MusEntry { key: lit, contexts };
        self.entries.push(entry);
        proof {
            assert(self.entries@.drop_last() =~= pre);
            assert(self.entries@.last() == entry);
            lemma_entries_map_dom(self.entries@);
            lemma_entries_map_dom(pre);
            assert(entry_keys(self.entries@) =~= entry_keys(pre).insert(lit as int));
            assert(!entry_keys(pre).contains(lit as int)) by {
                if entry_keys(pre).contains(lit as int) {
                    let k = choose|k: int|
                        0 <= k < pre.len() && (#[trigger] pre[k]).key as int == lit as int;
                }
            }
            assert(mcs_view(entry.contexts@)[0] == mc_view(fresh));
        }
    }
}

impl Default for MusDict {
    fn default() -> (r: MusDict)
        ensures
            r.wf(),
            r.dictv() == Map::<int, Seq<(Seq<i32>, Seq<i32>)>>::empty(),
    {
        MusDict::new()
    }
}

/// The keys of a list of entries.
pub open spec fn entry_keys(s: Seq<MusEntry>) -> Set<int> {
    Set::new(|l: int| exists|i: int| 0 <= i < s.len() && (#[trigger] s[i]).key as int == l)
}

/// The domain of the denoted map is the set of keys.
proof fn lemma_entries_map_dom(s: Seq<MusEntry>)
    ensures
        entries_map(s).dom() =~= entry_keys(s),
    decreases s.len(),
{
    if s.len() > 0 {
        lemma_entries_map_dom(s.drop_last());
        assert forall|l: int| entries_map(s).dom().contains(l) implies entry_keys(s).contains(
            l,
        ) by {
            if l == s.last().key as int {
                assert(s[s.len() - 1].key as int == l);
            } else {
                let i = choose|i: int|
                    0 <= i < s.drop_last().len() && (#[trigger] s.drop_last()[i]).key as int == l;
                assert(s[i].key as int == l);
            }
        }
        assert forall|l: int| entry_keys(s).contains(l) implies entries_map(s).dom().contains(
            l,
        ) by {
            let i = choose|i: int| 0 <= i < s.len() && (#[trigger] s[i]).key as int == l;
            if i < s.len() - 1 {
                assert(s.drop_last()[i].key as int == l);
                assert(entry_keys(s.drop_last()).contains(l));
            }
        }
    }
}

/// With unique keys, the denoted map reads each entry back.
proof fn lemma_entries_map_at(s: Seq<MusEntry>, i: int)
    requires
        0 <= i < s.len(),
        forall|p: int, q: int|
            0 <= p < q < s.len() ==> (#[trigger] s[p]).key != (#[trigger] s[q]).key,
    ensures
        entries_map(s).dom().contains(s[i].key as int),
        entries_map(s)[s[i].key as int] == mcs_view(s[i].contexts@),
    decreases s.len(),
{
    if i == s.len() - 1 {
    } else {
        assert forall|p: int, q: int|
            0 <= p < q < s.drop_last().len() implies (#[trigger] s.drop_last()[p]).key != (
        #[trigger] s.drop_last()[q]).key by {
            assert(s.drop_last()[p] == s[p] && s.drop_last()[q] == s[q]);
        }
        assert(s.drop_last()[i] == s[i]);
        lemma_entries_map_at(s.drop_last(), i);
        assert(s[i].key != s.last().key);
    }
}

/// Updating one entry (keeping its key) updates only that key's image.
proof fn lemma_entries_map_update(pre: Seq<MusEntry>, post: Seq<MusEntry>, i: int)
    requires
        0 <= i < pre.len(),
        post.len() == pre.len(),
        forall|k: int| 0 <= k < pre.len() && k != i ==> post[k] == pre[k],
        post[i].key == pre[i].key,
        forall|p: int, q: int|
            0 <= p < q < pre.len() ==> (#[trigger] pre[p]).key != (#[trigger] pre[q]).key,
    ensures
        entries_map(post) == entries_map(pre).insert(
            pre[i].key as int,
            mcs_view(post[i].contexts@),
        ),
    decreases pre.len(),
{
    let key = pre[i].key as int;
    lemma_entries_map_dom(pre);
    lemma_entries_map_dom(post);
    assert(entry_keys(post) =~= entry_keys(pre));
    assert forall|p: int, q: int|
        0 <= p < q < post.len() implies (#[trigger] post[p]).key != (#[trigger] post[q]).key by {
        if p != i && q != i {
            assert(post[p] == pre[p] && post[q] == pre[q]);
        } else if p == i {
            assert(post[q] == pre[q]);
        } else {
            assert(post[p] == pre[p]);
        }
    }
    assert forall|l: int| #![auto] entries_map(post).dom().contains(l) implies entries_map(post)[l]
        == entries_map(pre).insert(key, mcs_view(post[i].contexts@))[l] by {
        assert(entry_keys(post).contains(l));
        let k = choose|k: int| 0 <= k < post.len() && (#[trigger] post[k]).key as int == l;
        lemma_entries_map_at(post, k);
        if l == key {
            assert(k == i) by {
                if k != i {
                    assert(post[k] == pre[k]);
                }
            }
        } else {
            assert(k != i);
            assert(post[k] == pre[k]);
            lemma_entries_map_at(pre, k);
        }
    }
    assert(entries_map(post).dom() =~= entries_map(pre).insert(
        key,
        mcs_view(post[i].contexts@),
    ).dom()) by {
        assert(entry_keys(pre).contains(key));
    }
    assert(entries_map(post) =~= entries_map(pre).insert(key, mcs_view(post[i].contexts@)));
}

/// Copying contexts keeps their mathematical value.
fn copy_contexts(v: &Vec<MusContext>) -> (r: Vec<MusContext>)
    ensures
        mcs_view(r@) == mcs_view(v@),
        r@.len() == v@.len(),
        forall|k: int|
            0 <= k < v@.len() ==> (#[trigger] r@[k]).lits@ == v@[k].lits@ && r@[k].mus@
                == v@[k].mus@,
        sorted_mcs(v@) ==> sorted_mcs(r@),
        all_wf(v@) ==> all_wf(r@),
{
    let mut r: Vec<MusContext> = Vec::new();
    let mut i: usize = 0;
    while i < v.len()
        invariant
            0 <= i <= v@.len(),
            r@.len() == i,
            forall|k: int|
                0 <= k < i ==> (#[trigger] r@[k]).lits@ == v@[k].lits@ && r@[k].mus@ == v@[k].mus@,
        decreases v@.len() - i,
    {
        r.push(v[i].duplicate());
        i += 1;
    }
    proof {
        assert(mcs_view(r@) =~= mcs_view(v@)) by {
            assert forall|k: int| 0 <= k < r@.len() implies mcs_view(r@)[k] == mcs_view(v@)[k] by {
                assert(mcs_view(r@)[k] == mc_view(r@[k]));
                assert(mcs_view(v@)[k] == mc_view(v@[k]));
            }
        }
        if sorted_mcs(v@) {
            assert forall|p: int, q: int|
                0 <= p < q < r@.len() implies mc_lt(#[trigger] r@[p], #[trigger] r@[q]) by {
                assert(mc_lt(v@[p], v@[q]));
            }
        }
        if all_wf(v@) {
            assert forall|k: int| 0 <= k < r@.len() implies (#[trigger] r@[k]).wf() by {
                assert(v@[k].wf());
            }
        }
    }
    r
}

/// The view of an inserted list relates to the old one entrywise.
proof fn lemma_mcs_view_total(olds: Seq<MusContext>, news: Seq<MusContext>, fresh: MusContext)
    requires
        forall|l: Seq<i32>, m: Seq<i32>|
            #[trigger] mcs_contains(news, l, m) <==> (mcs_contains(olds, l, m) || (l == fresh.lits@
                && m == fresh.mus@)),
    ensures
        forall|i: int|
            0 <= i < olds.len() ==> exists|j: int|
                #![auto]
                0 <= j < news.len() && mcs_view(news)[j] == #[trigger] mcs_view(olds)[i],
        exists|j: int|
            #![auto]
            0 <= j < news.len() && mcs_view(news)[j].0 == fresh.lits@ && mcs_view(news)[j].1
                == fresh.mus@,
{
    assert forall|i: int| 0 <= i < olds.len() implies exists|j: int|
        #![auto]
        0 <= j < news.len() && mcs_view(news)[j] == #[trigger] mcs_view(olds)[i] by {
        assert(mcs_contains(olds, olds[i].lits@, olds[i].mus@));
        assert(mcs_contains(news, olds[i].lits@, olds[i].mus@));
        let j = choose|j: int|
            0 <= j < news.len() && (#[trigger] news[j]).lits@ == olds[i].lits@ && news[j].mus@
                == olds[i].mus@;
        assert(mcs_view(news)[j] == mc_view(news[j]));
        assert(mcs_view(olds)[i] == mc_view(olds[i]));
    }
    assert(mcs_contains(news, fresh.lits@, fresh.mus@));
    let j = choose|j: int|
        0 <= j < news.len() && (#[trigger] news[j]).lits@ == fresh.lits@ && news[j].mus@
            == fresh.mus@;
    assert(mcs_view(news)[j] == mc_view(news[j]));
}

} // verus!
