//! The puzzle data model: variables, variable-value pairs, puzzle literals
//! and constraint identifiers.  All of them are created during compilation
//! and immutable afterwards.

use vstd::prelude::*;

use crate::strutil::{chars_of, i64_to_chars, int_rep, string_from_chars};

verus! {

/// The mathematical value of a [`PuzVar`]: a name and a list of indices.
pub struct PuzVarView {
    pub name: Seq<char>,
    pub indices: Seq<i64>,
}

/// A puzzle variable: a named identifier plus a (possibly empty) list of
/// integer indices.  Two variables with the same name and indices are the
/// same variable.
#[derive(Debug, Clone)]
pub struct PuzVar {
    name: String,
    indices: Vec<i64>,
}

impl View for PuzVar {
    type V = PuzVarView;

    closed spec fn view(&self) -> PuzVarView {
        PuzVarView { name: self.name@, indices: self.indices@ }
    }
}

/// Whether two `i64` vectors hold the same numbers.
pub fn eq_indices(a: &Vec<i64>, b: &Vec<i64>) -> (r: bool)
    ensures
        r <==> a@ =~= b@,
{
    if a.len() != b.len() {
        return false;
    }
    let mut i: usize = 0;
    while i < a.len()
        invariant
            0 <= i <= a@.len(),
            a@.len() == b@.len(),
            forall|k: int| 0 <= k < i ==> a@[k] == b@[k],
        decreases a@.len() - i,
    {
        if a[i] != b[i] {
            return false;
        }
        i += 1;
    }
    true
}

impl PartialEq for PuzVar {
    fn eq(&self, other: &PuzVar) -> (r: bool) {
        self.name == other.name && eq_indices(&self.indices, &other.indices)
    }
}

impl vstd::std_specs::cmp::PartialEqSpecImpl for PuzVar {
    open spec fn obeys_eq_spec() -> bool {
        true
    }

    open spec fn eq_spec(&self, other: &PuzVar) -> bool {
        self@ == other@
    }
}

impl PuzVar {
    /// Creates a variable from its name and indices.
    pub fn new(name: &str, indices: Vec<i64>) -> (r: PuzVar)
        ensures
            r@.name == name@,
            r@.indices == indices@,
    {
        PuzVar { name: name.to_owned(), indices }
    }

    /// The name of the variable.
    pub fn name(&self) -> (r: &String)
        ensures
            r@ == self@.name,
    {
        &self.name
    }

    /// The indices of the variable.
    pub fn indices(&self) -> (r: &Vec<i64>)
        ensures
            r@ == self@.indices,
    {
        &self.indices
    }

    /// The variable's name in a form usable as a CSS class: `.` and `-`
    /// become `_`, and each index is appended after a `_`.
    pub fn to_css_string(&self) -> (r: String)
        ensures
            r@ == css_of_var(self@),
    {
        let name_chars = chars_of(&self.name);
        let mut out: Vec<char> = Vec::new();
        let mut i: usize = 0;
        while i < name_chars.len()
            invariant
                0 <= i <= name_chars@.len(),
                out@ =~= name_chars@.subrange(0, i as int).map_values(|c: char| css_escape(c)),
            decreases name_chars@.len() - i,
        {
            let c = name_chars[i];
            if c == '.' || c == '-' {
                out.push('_');
            } else {
                out.push(c);
            }
            proof {
                assert(name_chars@.subrange(0, i + 1) =~= name_chars@.subrange(0, i as int).push(
                    name_chars@[i as int],
                ));
                assert(name_chars@.subrange(0, i + 1).map_values(|c: char| css_escape(c))
                    =~= name_chars@.subrange(0, i as int).map_values(|c: char| css_escape(c)).push(
                    css_escape(name_chars@[i as int]),
                ));
            }
            i += 1;
        }
        proof {
            assert(name_chars@.subrange(0, name_chars@.len() as int) =~= name_chars@);
        }
        let mut j: usize = 0;
        while j < self.indices.len()
            invariant
                0 <= j <= self@.indices.len(),
                out@ =~= self@.name.map_values(|c: char| css_escape(c)) + indices_css(
                    self@.indices.subrange(0, j as int),
                ),
            decreases self@.indices.len() - j,
        {
            out.push('_');
            let mut digits = i64_to_chars(self.indices[j]);
            let ghost mid = out@;
            let mut k: usize = 0;
            while k < digits.len()
                invariant
                    0 <= k <= digits@.len(),
                    out@ =~= mid + digits@.subrange(0, k as int),
                decreases digits@.len() - k,
            {
                out.push(digits[k]);
                proof {
                    assert(digits@.subrange(0, k + 1) =~= digits@.subrange(0, k as int).push(
                        digits@[k as int],
                    ));
                }
                k += 1;
            }
            proof {
                assert(digits@.subrange(0, digits@.len() as int) =~= digits@);
                assert(self@.indices.subrange(0, j + 1).drop_last() =~= self@.indices.subrange(
                    0,
                    j as int,
                ));
                assert(self@.indices.subrange(0, j + 1).last() == self@.indices[j as int]);
                assert(out@ =~= self@.name.map_values(|c: char| css_escape(c)) + indices_css(
                    self@.indices.subrange(0, j + 1),
                ));
            }
            j += 1;
        }
        proof {
            assert(self@.indices.subrange(0, self@.indices.len() as int) =~= self@.indices);
        }
        string_from_chars(&out)
    }

    /// The variable rendered for people: the name followed by the index
    /// list in brackets.
    pub fn render(&self) -> (r: String)
        ensures
            r@ == var_display(self@),
    {
        let mut out = chars_of(&self.name);
        out.push('[');
        let ghost base = out@;
        let mut j: usize = 0;
        while j < self.indices.len()
            invariant
                0 <= j <= self@.indices.len(),
                base == self@.name + seq!['['],
                out@ =~= base + indices_display(self@.indices.subrange(0, j as int)),
            decreases self@.indices.len() - j,
        {
            if j > 0 {
                out.push(',');
                out.push(' ');
            }
            let mut digits = i64_to_chars(self.indices[j]);
            let ghost mid = out@;
            let mut k: usize = 0;
            while k < digits.len()
                invariant
                    0 <= k <= digits@.len(),
                    out@ =~= mid + digits@.subrange(0, k as int),
                decreases digits@.len() - k,
            {
                out.push(digits[k]);
                proof {
                    assert(digits@.subrange(0, k + 1) =~= digits@.subrange(0, k as int).push(
                        digits@[k as int],
                    ));
                }
                k += 1;
            }
            proof {
                assert(digits@.subrange(0, digits@.len() as int) =~= digits@);
                assert(self@.indices.subrange(0, j + 1).drop_last() =~= self@.indices.subrange(
                    0,
                    j as int,
                ));
                assert(self@.indices.subrange(0, j + 1).last() == self@.indices[j as int]);
                assert(out@ =~= base + indices_display(self@.indices.subrange(0, j + 1)));
            }
            j += 1;
        }
        out.push(']');
        proof {
            assert(self@.indices.subrange(0, self@.indices.len() as int) =~= self@.indices);
            assert(out@ =~= var_display(self@));
        }
        string_from_chars(&out)
    }
}

/// `.` and `-` drawn as `_`; anything else kept.
pub open spec fn css_escape(c: char) -> char {
    if c == '.' || c == '-' {
        '_'
    } else {
        c
    }
}

/// The indices part of a CSS name: `_` before each index.
pub open spec fn indices_css(s: Seq<i64>) -> Seq<char>
    decreases s.len(),
{
    if s.len() == 0 {
        Seq::empty()
    } else {
        indices_css(s.drop_last()) + seq!['_'] + int_rep(s.last() as int)
    }
}

/// The whole CSS name of a variable.
pub open spec fn css_of_var(v: PuzVarView) -> Seq<char> {
    v.name.map_values(|c: char| css_escape(c)) + indices_css(v.indices)
}

/// The indices drawn as a bracketed, comma-separated list body.
pub open spec fn indices_display(s: Seq<i64>) -> Seq<char>
    decreases s.len(),
{
    if s.len() == 0 {
        Seq::empty()
    } else if s.len() == 1 {
        int_rep(s.last() as int)
    } else {
        indices_display(s.drop_last()) + seq![',', ' '] + int_rep(s.last() as int)
    }
}

/// A variable rendered for people.
pub open spec fn var_display(v: PuzVarView) -> Seq<char> {
    v.name + seq!['['] + indices_display(v.indices) + seq![']']
}

/// The mathematical value of a [`VarValPair`].
pub struct VarValPairView {
    pub var: PuzVarView,
    pub val: i64,
}

/// A (variable, value) pair: the statement that the variable takes this
/// value.
#[derive(Debug, Clone)]
pub struct VarValPair {
    var: PuzVar,
    val: i64,
}

impl View for VarValPair {
    type V = VarValPairView;

    closed spec fn view(&self) -> VarValPairView {
        VarValPairView { var: self.var@, val: self.val }
    }
}

impl PartialEq for VarValPair {
    fn eq(&self, other: &VarValPair) -> (r: bool) {
        self.var == other.var && self.val == other.val
    }
}

impl vstd::std_specs::cmp::PartialEqSpecImpl for VarValPair {
    open spec fn obeys_eq_spec() -> bool {
        true
    }

    open spec fn eq_spec(&self, other: &VarValPair) -> bool {
        self@ == other@
    }
}

impl VarValPair {
    /// Creates the pair of a variable and a value.
    pub fn new(var: &PuzVar, val: i64) -> (r: VarValPair)
        ensures
            r@.var == var@,
            r@.val == val,
    {
        VarValPair { var: var.duplicate(), val }
    }

    /// The variable of the pair.
    pub fn var(&self) -> (r: &PuzVar)
        ensures
            r@ == self@.var,
    {
        &self.var
    }

    /// The value of the pair.
    pub fn val(&self) -> (r: i64)
        ensures
            r == self@.val,
    {
        self.val
    }

    /// Whether `puzlit` speaks about exactly this pair.
    pub fn is_lit(&self, puzlit: &PuzLit) -> (r: bool)
        ensures
            r <==> self@ == puzlit@.varval,
    {
        let other = puzlit.varval_ref();
        self == other
    }

    /// The pair's CSS class name.
    pub fn to_css_string(&self) -> (r: String)
        ensures
            r@ == css_of_pair(self@),
    {
        let mut out = chars_of("lit_");
        proof {
            reveal_strlit("lit_");
        }
        let var_css = self.var.to_css_string();
        let var_chars = chars_of(var_css.as_str());
        let ghost base = out@;
        let mut i: usize = 0;
        while i < var_chars.len()
            invariant
                0 <= i <= var_chars@.len(),
                out@ =~= base + var_chars@.subrange(0, i as int),
            decreases var_chars@.len() - i,
        {
            out.push(var_chars[i]);
            proof {
                assert(var_chars@.subrange(0, i + 1) =~= var_chars@.subrange(0, i as int).push(
                    var_chars@[i as int],
                ));
            }
            i += 1;
        }
        out.push('_');
        out.push('_');
        let digits = i64_to_chars(self.val);
        let ghost mid = out@;
        let mut k: usize = 0;
        while k < digits.len()
            invariant
                0 <= k <= digits@.len(),
                out@ =~= mid + digits@.subrange(0, k as int),
            decreases digits@.len() - k,
        {
            out.push(digits[k]);
            proof {
                assert(digits@.subrange(0, k + 1) =~= digits@.subrange(0, k as int).push(
                    digits@[k as int],
                ));
            }
            k += 1;
        }
        proof {
            assert(var_chars@.subrange(0, var_chars@.len() as int) =~= var_chars@);
            assert(digits@.subrange(0, digits@.len() as int) =~= digits@);
            assert(out@ =~= css_of_pair(self@));
        }
        string_from_chars(&out)
    }

    /// An identical copy.
    pub fn duplicate(&self) -> (r: VarValPair)
        ensures
            r@ == self@,
    {
        VarValPair { var: self.var.duplicate(), val: self.val }
    }
}

/// The CSS class name of a (variable, value) pair.
pub open spec fn css_of_pair(p: VarValPairView) -> Seq<char> {
    "lit_"@ + css_of_var(p.var) + seq!['_', '_'] + int_rep(p.val as int)
}

/// The mathematical value of a [`PuzLit`].
pub struct PuzLitView {
    pub varval: VarValPairView,
    pub equal: bool,
}

impl PuzLitView {
    /// The literal asserting the opposite.
    pub open spec fn negv(self) -> PuzLitView {
        PuzLitView { varval: self.varval, equal: !self.equal }
    }
}

/// A puzzle literal: a (variable, value) pair asserted (`=`) or denied
/// (`!=`).
#[derive(Debug, Clone)]
pub struct PuzLit {
    varval: VarValPair,
    equal: bool,
}

impl View for PuzLit {
    type V = PuzLitView;

    closed spec fn view(&self) -> PuzLitView {
        PuzLitView { varval: self.varval@, equal: self.equal }
    }
}

impl PartialEq for PuzLit {
    fn eq(&self, other: &PuzLit) -> (r: bool) {
        self.varval == other.varval && self.equal == other.equal
    }
}

impl vstd::std_specs::cmp::PartialEqSpecImpl for PuzLit {
    open spec fn obeys_eq_spec() -> bool {
        true
    }

    open spec fn eq_spec(&self, other: &PuzLit) -> bool {
        self@ == other@
    }
}

impl PuzLit {
    /// The literal asserting that the pair holds.
    pub fn new_eq(varval: VarValPair) -> (r: PuzLit)
        ensures
            r@.varval == varval@,
            r@.equal,
    {
        PuzLit { varval, equal: true }
    }

    /// The literal denying that the pair holds.
    pub fn new_neq(varval: VarValPair) -> (r: PuzLit)
        ensures
            r@.varval == varval@,
            !r@.equal,
    {
        PuzLit { varval, equal: false }
    }

    /// The (variable, value) pair the literal speaks about.
    pub fn varval(&self) -> (r: VarValPair)
        ensures
            r@ == self@.varval,
    {
        self.varval.duplicate()
    }

    /// The pair, borrowed.
    pub fn varval_ref(&self) -> (r: &VarValPair)
        ensures
            r@ == self@.varval,
    {
        &self.varval
    }

    /// Whether the literal speaks about exactly this pair.
    pub fn is_varval(&self, varval: &VarValPair) -> (r: bool)
        ensures
            r <==> self@.varval == varval@,
    {
        &self.varval == varval
    }

    /// The variable the literal speaks about.
    pub fn var(&self) -> (r: PuzVar)
        ensures
            r@ == self@.varval.var,
    {
        self.varval.var().duplicate()
    }

    /// The value the literal speaks about.
    pub fn val(&self) -> (r: i64)
        ensures
            r == self@.varval.val,
    {
        self.varval.val()
    }

    /// The sign: `true` for `=`, `false` for `!=`.
    pub fn sign(&self) -> (r: bool)
        ensures
            r == self@.equal,
    {
        self.equal
    }

    /// The literal asserting the opposite.
    pub fn neg(&self) -> (r: PuzLit)
        ensures
            r@ == self@.negv(),
    {
        PuzLit { varval: self.varval.duplicate(), equal: !self.equal }
    }

    /// Whether the two literals speak about the same pair, with either sign.
    pub fn equal_mod_sign(&self, other: &PuzLit) -> (r: bool)
        ensures
            r <==> self@.varval == other@.varval,
    {
        &self.varval == &other.varval
    }

    /// An identical copy.
    pub fn duplicate(&self) -> (r: PuzLit)
        ensures
            r@ == self@,
    {
        PuzLit { varval: self.varval.duplicate(), equal: self.equal }
    }

    /// The literal rendered for people: `var[is]=v` or `var[is]!=v`.
    pub fn render(&self) -> (r: String)
        ensures
            r@ == lit_display(self@),
    {
        let mut out = chars_of(self.varval.var().render().as_str());
        if !self.equal {
            out.push('!');
        }
        out.push('=');
        let digits = i64_to_chars(self.varval.val());
        let ghost mid = out@;
        let mut k: usize = 0;
        while k < digits.len()
            invariant
                0 <= k <= digits@.len(),
                out@ =~= mid + digits@.subrange(0, k as int),
            decreases digits@.len() - k,
        {
            out.push(digits[k]);
            proof {
                assert(digits@.subrange(0, k + 1) =~= digits@.subrange(0, k as int).push(
                    digits@[k as int],
                ));
            }
            k += 1;
        }
        proof {
            assert(digits@.subrange(0, digits@.len() as int) =~= digits@);
            assert(out@ =~= lit_display(self@));
        }
        string_from_chars(&out)
    }
}

/// A literal rendered for people.
pub open spec fn lit_display(l: PuzLitView) -> Seq<char> {
    var_display(l.varval.var) + (if l.equal {
        seq!['=']
    } else {
        seq!['!', '=']
    }) + int_rep(l.varval.val as int)
}

/// The mathematical value of a [`ConID`].
pub struct ConIDView {
    pub lit: PuzLitView,
    pub name: Seq<char>,
}

/// A constraint identifier: the puzzle literal that switches the constraint
/// on, together with its rendered, human-readable name.
#[derive(Debug, Clone)]
pub struct ConID {
    pub lit: PuzLit,
    pub name: String,
}

impl View for ConID {
    type V = ConIDView;

    closed spec fn view(&self) -> ConIDView {
        ConIDView { lit: self.lit@, name: self.name@ }
    }
}

impl PartialEq for ConID {
    fn eq(&self, other: &ConID) -> (r: bool) {
        self.lit == other.lit && self.name == other.name
    }
}

impl vstd::std_specs::cmp::PartialEqSpecImpl for ConID {
    open spec fn obeys_eq_spec() -> bool {
        true
    }

    open spec fn eq_spec(&self, other: &ConID) -> bool {
        self@ == other@
    }
}

impl ConID {
    /// Creates a constraint identifier.
    pub fn new(lit: PuzLit, name: String) -> (r: ConID)
        ensures
            r@.lit == lit@,
            r@.name == name@,
    {
        ConID { lit, name }
    }
}

impl PuzVar {
    /// An identical copy.
    pub fn duplicate(&self) -> (r: PuzVar)
        ensures
            r@ == self@,
    {
        let mut indices: Vec<i64> = Vec::new();
        let mut i: usize = 0;
        while i < self.indices.len()
            invariant
                0 <= i <= self@.indices.len(),
                indices@ =~= self@.indices.subrange(0, i as int),
            decreases self@.indices.len() - i,
        {
            indices.push(self.indices[i]);
            proof {
                assert(self@.indices.subrange(0, i + 1) =~= self@.indices.subrange(
                    0,
                    i as int,
                ).push(self@.indices[i as int]));
            }
            i += 1;
        }
        proof {
            assert(self@.indices.subrange(0, self@.indices.len() as int) =~= self@.indices);
        }
        PuzVar { name: self.name.clone(), indices }
    }
}


/// Appends a string's characters to a character buffer.
pub fn push_chars(out: &mut Vec<char>, s: &str)
    ensures
        final(out)@ == old(out)@ + s@,
{
    let cs = chars_of(s);
    let ghost base = out@;
    let mut i: usize = 0;
    while i < cs.len()
        invariant
            0 <= i <= cs@.len(),
            cs@ == s@,
            out@ =~= base + cs@.subrange(0, i as int),
        decreases cs@.len() - i,
    {
        out.push(cs[i]);
        proof {
            assert(cs@.subrange(0, i + 1) =~= cs@.subrange(0, i as int).push(cs@[i as int]));
        }
        i += 1;
    }
    proof {
        assert(cs@.subrange(0, cs@.len() as int) =~= cs@);
        assert(out@ =~= base + s@);
    }
}

impl PuzLit {
    /// Draws a list of literals for people, as HTML: literals are grouped
    /// by variable; a variable with a positive literal shows each assignment
    /// on its own, and one with only denials shows them joined by "or".  An
    /// empty list draws as the empty string, and a non-empty one as
    /// non-empty markup.
    pub fn nice_puzlit_list_html(puz_container: &Vec<PuzLit>) -> (r: String)
        ensures
            puz_container@.len() == 0 ==> r@ =~= Seq::<char>::empty(),
            puz_container@.len() > 0 ==> r@.len() > 0,
    {
        // Group the literals by variable, keeping values sorted; a later
        // literal about the same pair wins.
        let mut groups: Vec<(PuzVar, Vec<(i64, bool)>)> = Vec::new();
        let mut i: usize = 0;
        while i < puz_container.len()
            invariant
                puz_container@.len() == 0 ==> groups@.len() == 0,
                i > 0 ==> groups@.len() > 0,
                forall|j: int| 0 <= j < groups@.len() ==> (#[trigger] groups@[j]).1@.len() > 0,
            decreases puz_container@.len() - i,
        {
            let lit = &puz_container[i];
            let var = lit.var();
            let val = lit.val();
            let equal = lit.sign();
            let mut gi: Option<usize> = None;
            let mut k: usize = 0;
            while k < groups.len()
                invariant
                    0 <= k <= groups@.len(),
                    gi matches Some(g) ==> 0 <= g < groups@.len(),
                    forall|j: int| 0 <= j < groups@.len() ==> (#[trigger] groups@[j]).1@.len() > 0,
                decreases groups@.len() - k,
            {
                if &groups[k].0 == &var {
                    gi = Some(k);
                }
                k += 1;
            }
            match gi {
                Some(g) => {
                    let ghost pre_groups = groups@;
                    let pair = groups.swap_remove(g);
                    proof {
                        assert forall|j: int| 0 <= j < groups@.len() implies (#[trigger] groups@[j]).1@.len() > 0 by {
                            if j == g {
                                assert(groups@[j] == pre_groups[pre_groups.len() - 1]);
                            } else {
                                assert(groups@[j] == pre_groups[j]);
                            }
                        }
                    }
                    let (key, mut vals) = pair;
                    let mut placed = false;
                    let mut q: usize = 0;
                    let mut newvals: Vec<(i64, bool)> = Vec::new();
                    while q < vals.len()
                        invariant
                            0 <= q <= vals@.len(),
                            q > 0 ==> newvals@.len() > 0,
                            placed ==> newvals@.len() > 0,
                        decreases vals@.len() - q,
                    {
                        let (v, e) = vals[q];
                        if v == val {
                            newvals.push((v, equal));
                            placed = true;
                        } else {
                            if v > val && !placed {
                                newvals.push((val, equal));
                                placed = true;
                            }
                            newvals.push((v, e));
                        }
                        q += 1;
                    }
                    if !placed {
                        newvals.push((val, equal));
                    }
                    groups.push((key, newvals));
                },
                None => {
                    let mut vals: Vec<(i64, bool)> = Vec::new();
                    vals.push((val, equal));
                    groups.push((var, vals));
                },
            }
            i += 1;
        }
        // Draw each group.
        let mut parts: Vec<String> = Vec::new();
        let mut g: usize = 0;
        while g < groups.len()
            invariant
                groups@.len() == 0 ==> parts@.len() == 0,
                g > 0 ==> parts@.len() > 0,
                forall|j: int| 0 <= j < groups@.len() ==> (#[trigger] groups@[j]).1@.len() > 0,
                forall|j: int| 0 <= j < parts@.len() ==> (#[trigger] parts@[j])@.len() > 0,
            decreases groups@.len() - g,
        {
            let var = &groups[g].0;
            let vals = &groups[g].1;
            let mut any_positive = false;
            let mut k: usize = 0;
            while k < vals.len()
                invariant
                    0 <= k <= vals@.len(),
                    any_positive ==> exists|j: int|
                        0 <= j < vals@.len() && (#[trigger] vals@[j]).1,
                decreases vals@.len() - k,
            {
                if vals[k].1 {
                    any_positive = true;
                }
                k += 1;
            }
            let ghost parts_before = parts@.len();
            if any_positive {
                let mut k2: usize = 0;
                while k2 < vals.len()
                    invariant
                        0 <= k2 <= vals@.len(),
                        parts@.len() >= parts_before,
                        (exists|j: int| 0 <= j < k2 && (#[trigger] vals@[j]).1) ==> parts@.len()
                            > parts_before,
                        forall|j: int| 0 <= j < parts@.len() ==> (#[trigger] parts@[j])@.len() > 0,
                    decreases vals@.len() - k2,
                {
                    if vals[k2].1 {
                        let v = vals[k2].0;
                        let mut out: Vec<char> = Vec::new();
                        proof {
                            reveal_strlit("<div style=\"display:inline\" class=\"highlight_");
                        }
                        push_chars(&mut out, "<div style=\"display:inline\" class=\"highlight_");
                        let css = VarValPair::new(var, v).to_css_string();
                        push_chars(&mut out, css.as_str());
                        push_chars(&mut out, " js_highlighter\">");
                        let shown = var.render();
                        push_chars(&mut out, shown.as_str());
                        push_chars(&mut out, " = ");
                        let digits = i64_to_chars(v);
                        let mut d: usize = 0;
                        while d < digits.len()
                            invariant
                                out@.len() > 0,
                            decreases digits@.len() - d,
                        {
                            out.push(digits[d]);
                            d += 1;
                        }
                        push_chars(&mut out, "</div>");
                        parts.push(string_from_chars(&out));
                    }
                    k2 += 1;
                }
            } else if vals.len() > 0 {
                let mut out: Vec<char> = Vec::new();
                proof {
                    reveal_strlit("<div style=\"display:inline\" class=\"");
                }
                push_chars(&mut out, "<div style=\"display:inline\" class=\"");
                let mut k3: usize = 0;
                let mut first = true;
                while k3 < vals.len()
                    invariant
                        out@.len() > 0,
                    decreases vals@.len() - k3,
                {
                    if !first {
                        push_chars(&mut out, " ");
                    }
                    push_chars(&mut out, "highlight_");
                    let css = VarValPair::new(var, vals[k3].0).to_css_string();
                    push_chars(&mut out, css.as_str());
                    first = false;
                    k3 += 1;
                }
                push_chars(&mut out, " js_highlighter\">");
                let shown = var.render();
                push_chars(&mut out, shown.as_str());
                push_chars(&mut out, " != ");
                let mut k4: usize = 0;
                let mut first2 = true;
                while k4 < vals.len()
                    invariant
                        out@.len() > 0,
                    decreases vals@.len() - k4,
                {
                    if !first2 {
                        push_chars(&mut out, " or ");
                    }
                    let digits = i64_to_chars(vals[k4].0);
                    let mut d: usize = 0;
                    while d < digits.len()
                        invariant
                            out@.len() > 0,
                        decreases digits@.len() - d,
                    {
                        out.push(digits[d]);
                        d += 1;
                    }
                    first2 = false;
                    k4 += 1;
                }
                push_chars(&mut out, "</div>");
                parts.push(string_from_chars(&out));
            }
            g += 1;
        }
        let mut all: Vec<char> = Vec::new();
        let mut p: usize = 0;
        while p < parts.len()
            invariant
                0 <= p <= parts@.len(),
                parts@.len() == 0 ==> all@ =~= Seq::<char>::empty(),
                forall|j: int| 0 <= j < parts@.len() ==> (#[trigger] parts@[j])@.len() > 0,
                p > 0 ==> all@.len() > 0,
            decreases parts@.len() - p,
        {
            if p > 0 {
                push_chars(&mut all, ", ");
            }
            push_chars(&mut all, parts[p].as_str());
            p += 1;
        }
        string_from_chars(&all)
    }
}

} // verus!
