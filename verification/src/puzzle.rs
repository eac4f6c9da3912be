//! The compiled puzzle: annotations from the model file, the clause
//! database, and the bijection between puzzle literals and SAT literals.

use vstd::prelude::*;

use crate::cnf::{cnf_view, lit_seq, lit_set, valid_cnf, valid_lit, valid_lits};
use crate::model::{PuzLit, PuzLitView, PuzVar, PuzVarView, VarValPair};
use crate::params::{params_at, params_has, params_get, ParamValue};
use crate::strutil::{int_rep, str_eq};

verus! {

/// A parse or consistency error, with a message for people.
#[derive(Debug)]
pub struct ParseError {
    pub message: String,
}

impl ParseError {
    /// An error with the given message.
    pub fn new(message: &str) -> (r: ParseError)
        ensures
            r.message@ == message@,
    {
        ParseError { message: message.to_owned() }
    }
}

/// Whether a name list holds this name.
pub open spec fn names_has(s: Seq<String>, n: Seq<char>) -> bool {
    exists|i: int| 0 <= i < s.len() && (#[trigger] s[i])@ == n
}

/// Looks a name up in a name list.
pub fn names_contains(s: &Vec<String>, n: &str) -> (r: bool)
    ensures
        r == names_has(s@, n@),
{
    let mut i: usize = 0;
    while i < s.len()
        invariant
            0 <= i <= s@.len(),
            forall|k: int| 0 <= k < i ==> (#[trigger] s@[k])@ != n@,
        decreases s@.len() - i,
    {
        if str_eq(s[i].as_str(), n) {
            return true;
        }
        i += 1;
    }
    false
}

/// Whether a (name, text) list holds this name.
pub open spec fn assoc_has(s: Seq<(String, String)>, n: Seq<char>) -> bool {
    exists|i: int| 0 <= i < s.len() && (#[trigger] s[i]).0@ == n
}

/// The (name, text) list's entry at `i` is the first one for the name `n`.
pub open spec fn assoc_first_at(s: Seq<(String, String)>, n: Seq<char>, i: int) -> bool {
    &&& 0 <= i < s.len()
    &&& s[i].0@ == n
    &&& forall|k: int| 0 <= k < i ==> (#[trigger] s[k]).0@ != n
}

/// Two first entries for the same name are the same entry.
pub proof fn lemma_assoc_first_unique(s: Seq<(String, String)>, n: Seq<char>, i: int, j: int)
    requires
        assoc_first_at(s, n, i),
        assoc_first_at(s, n, j),
    ensures
        i == j,
{
    if i < j {
        assert(s[i].0@ != n);
    } else if j < i {
        assert(s[j].0@ != n);
    }
}

/// Looks a name up in a (name, text) list, returning the first match.
pub fn assoc_get<'a>(s: &'a Vec<(String, String)>, n: &str) -> (r: Option<&'a String>)
    ensures
        r is Some <==> assoc_has(s@, n@),
        r matches Some(v) ==> exists|i: int|
            0 <= i < s@.len() && (#[trigger] s@[i]).0@ == n@ && s@[i].1@ == v@ && assoc_first_at(
                s@,
                n@,
                i,
            ),
{
    let mut i: usize = 0;
    while i < s.len()
        invariant
            0 <= i <= s@.len(),
            forall|k: int| 0 <= k < i ==> (#[trigger] s@[k]).0@ != n@,
        decreases s@.len() - i,
    {
        if str_eq(s[i].0.as_str(), n) {
            return Some(&s[i].1);
        }
        i += 1;
    }
    None
}

/// Inserts into a (name, text) list, refusing a repeated key.
pub fn safe_insert(dict: &mut Vec<(String, String)>, key: String, value: String) -> (r: Result<
    (),
    ParseError,
>)
    ensures
        r is Ok <==> !assoc_has(old(dict)@, key@),
        r is Ok ==> final(dict)@ == old(dict)@.push((key, value)),
        r is Err ==> final(dict)@ == old(dict)@,
{
    if assoc_get(dict, key.as_str()).is_some() {
        return Err(ParseError::new("internal error: repeated key"));
    }
    dict.push((key, value));
    Ok(())
}

/// The annotations read from the model file: the declared names, the
/// constraint templates, the reveal relations, the instance parameters and
/// the puzzle kind.
#[derive(Debug)]
pub struct EPrimeAnnotations {
    /// The decision variables.
    pub vars: Vec<String>,
    /// The auxiliary variables.
    pub auxvars: Vec<String>,
    /// Constraint names and their description templates.
    pub cons: Vec<(String, String)>,
    /// Reveal relations: knowing the source uncovers the target.
    pub reveal: Vec<(String, String)>,
    /// The targets of the reveal relations.
    pub reveal_values: Vec<String>,
    /// The instance parameters.
    pub params: Vec<(String, ParamValue)>,
    /// The puzzle kind tag, for rendering.
    pub kind: Option<String>,
}

impl EPrimeAnnotations {
    /// Whether the instance defines this parameter.
    pub fn has_param(&self, s: &str) -> (r: bool)
        ensures
            r == params_has(self.params@, s@),
    {
        match params_get(&self.params, s) {
            Some(_) => true,
            None => false,
        }
    }

    /// The parameter as a boolean.
    pub fn param_bool(&self, s: &str) -> (r: Result<bool, ParseError>)
        ensures
            r matches Ok(b) ==> params_has(self.params@, s@) && params_at(self.params@, s@)
                == ParamValue::Bool(b),
            r is Err ==> !params_has(self.params@, s@) || !(params_at(self.params@, s@) is Bool),
    {
        match params_get(&self.params, s) {
            Some(ParamValue::Bool(b)) => Ok(*b),
            Some(_) => Err(ParseError::new("param is not bool")),
            None => Err(ParseError::new("missing param")),
        }
    }

    /// The parameter as an integer.
    pub fn param_i64(&self, s: &str) -> (r: Result<i64, ParseError>)
        ensures
            r matches Ok(v) ==> params_has(self.params@, s@) && params_at(self.params@, s@)
                == ParamValue::Int(v),
            r is Err ==> !params_has(self.params@, s@) || !(params_at(self.params@, s@) is Int),
    {
        match params_get(&self.params, s) {
            Some(ParamValue::Int(v)) => Ok(*v),
            Some(_) => Err(ParseError::new("param is not an integer")),
            None => Err(ParseError::new("missing param")),
        }
    }
}

/// The dictionary entry whose key is the decimal of `i`, if any.
pub open spec fn dict_at_index(s: Seq<(String, ParamValue)>, i: int) -> ParamValue {
    params_at(s, int_rep(i))
}

/// Looks up the entry keyed by the decimal representation of `i`.
pub fn dict_get_index<'a>(s: &'a Vec<(String, ParamValue)>, i: u64) -> (r: Option<
    &'a ParamValue,
>)
    ensures
        match r {
            Some(v) => params_has(s@, int_rep(i as int)) && *v == dict_at_index(s@, i as int),
            None => !params_has(s@, int_rep(i as int)),
        },
{
    let key = crate::strutil::string_from_chars(&crate::strutil::u64_to_chars(i));
    params_get(s, key.as_str())
}

impl EPrimeAnnotations {
    /// The parameter as a list of integers.
    ///
    /// The CSP compiler writes arrays as dictionaries keyed `1..n`, so the
    /// entry is accepted in that shape.
    pub fn param_vec_i64(&self, s: &str) -> (r: Result<Vec<i64>, ParseError>)
        ensures
            r matches Ok(v) ==> {
                &&& params_has(self.params@, s@)
                &&& (params_at(self.params@, s@) matches ParamValue::Dict(d) && v@.len()
                    == d@.len() && (forall|i: int|
                    0 <= i < v@.len() ==> dict_at_index(d@, i + 1) == ParamValue::Int(
                        #[trigger] v@[i],
                    )))
            },
    {
        let d = match params_get(&self.params, s) {
            Some(ParamValue::Dict(d)) => d,
            Some(_) => {
                return Err(ParseError::new("param is not an array of integers"));
            },
            None => {
                return Err(ParseError::new("missing param"));
            },
        };
        let mut out: Vec<i64> = Vec::new();
        let n = d.len();
        let mut i: usize = 0;
        while i < n
            invariant
                0 <= i <= n,
                n == d@.len(),
                out@.len() == i,
                forall|k: int|
                    0 <= k < i ==> dict_at_index(d@, k + 1) == ParamValue::Int(#[trigger] out@[k]),
            decreases n - i,
        {
            match dict_get_index(d, (i as u64) + 1) {
                Some(ParamValue::Int(v)) => {
                    out.push(*v);
                },
                _ => {
                    return Err(ParseError::new("malformed param"));
                },
            }
            i += 1;
        }
        Ok(out)
    }

    /// The parameter as a two-dimensional array of integers.
    pub fn param_vec_vec_i64(&self, s: &str) -> (r: Result<Vec<Vec<i64>>, ParseError>)
        ensures
            r matches Ok(v) ==> params_has(self.params@, s@) && (params_at(
                self.params@,
                s@,
            ) matches ParamValue::Dict(d) && v@.len() == d@.len()),
    {
        let d = match params_get(&self.params, s) {
            Some(ParamValue::Dict(d)) => d,
            Some(_) => {
                return Err(ParseError::new("param is not a 2d array of integers"));
            },
            None => {
                return Err(ParseError::new("missing param"));
            },
        };
        let mut out: Vec<Vec<i64>> = Vec::new();
        let n = d.len();
        let mut i: usize = 0;
        while i < n
            invariant
                0 <= i <= n,
                n == d@.len(),
                out@.len() == i,
            decreases n - i,
        {
            let row = match dict_get_index(d, (i as u64) + 1) {
                Some(ParamValue::Dict(row)) => row,
                _ => {
                    return Err(ParseError::new("malformed param"));
                },
            };
            let mut rowvec: Vec<i64> = Vec::new();
            let m = row.len();
            let mut j: usize = 0;
            while j < m
                invariant
                    0 <= j <= m,
                    m == row@.len(),
                decreases m - j,
            {
                match dict_get_index(row, (j as u64) + 1) {
                    Some(ParamValue::Int(v)) => {
                        rowvec.push(*v);
                    },
                    _ => {
                        return Err(ParseError::new("malformed param"));
                    },
                }
                j += 1;
            }
            out.push(rowvec);
            i += 1;
        }
        Ok(out)
    }

    /// The parameter as a two-dimensional array of integers and blanks.
    pub fn param_vec_vec_option_i64(&self, s: &str) -> (r: Result<
        Vec<Vec<Option<i64>>>,
        ParseError,
    >)
        ensures
            r matches Ok(v) ==> params_has(self.params@, s@) && (params_at(
                self.params@,
                s@,
            ) matches ParamValue::Dict(d) && v@.len() == d@.len()),
    {
        let d = match params_get(&self.params, s) {
            Some(ParamValue::Dict(d)) => d,
            Some(_) => {
                return Err(ParseError::new("param is not a 2d array of integers and nulls"));
            },
            None => {
                return Err(ParseError::new("missing param"));
            },
        };
        let mut out: Vec<Vec<Option<i64>>> = Vec::new();
        let n = d.len();
        let mut i: usize = 0;
        while i < n
            invariant
                0 <= i <= n,
                n == d@.len(),
                out@.len() == i,
            decreases n - i,
        {
            let row = match dict_get_index(d, (i as u64) + 1) {
                Some(ParamValue::Dict(row)) => row,
                _ => {
                    return Err(ParseError::new("malformed param"));
                },
            };
            let mut rowvec: Vec<Option<i64>> = Vec::new();
            let m = row.len();
            let mut j: usize = 0;
            while j < m
                invariant
                    0 <= j <= m,
                    m == row@.len(),
                decreases m - j,
            {
                match dict_get_index(row, (j as u64) + 1) {
                    Some(ParamValue::Int(v)) => {
                        rowvec.push(Some(*v));
                    },
                    Some(ParamValue::Null) => {
                        rowvec.push(None);
                    },
                    _ => {
                        return Err(ParseError::new("malformed param"));
                    },
                }
                j += 1;
            }
            out.push(rowvec);
            i += 1;
        }
        Ok(out)
    }

    /// The parameter as a list of strings; integers are accepted and drawn
    /// as their decimals.
    pub fn param_vec_string(&self, s: &str) -> (r: Result<Vec<String>, ParseError>)
        ensures
            r matches Ok(v) ==> params_has(self.params@, s@) && (params_at(
                self.params@,
                s@,
            ) matches ParamValue::Dict(d) && v@.len() == d@.len()),
    {
        let d = match params_get(&self.params, s) {
            Some(ParamValue::Dict(d)) => d,
            Some(_) => {
                return Err(ParseError::new("param is not an array of labels"));
            },
            None => {
                return Err(ParseError::new("missing param"));
            },
        };
        let mut out: Vec<String> = Vec::new();
        let n = d.len();
        let mut i: usize = 0;
        while i < n
            invariant
                0 <= i <= n,
                n == d@.len(),
                out@.len() == i,
            decreases n - i,
        {
            match dict_get_index(d, (i as u64) + 1) {
                Some(ParamValue::Text(t)) => {
                    out.push(t.clone());
                },
                Some(ParamValue::Int(v)) => {
                    out.push(
                        crate::strutil::string_from_chars(&crate::strutil::i64_to_chars(*v)),
                    );
                },
                _ => {
                    return Err(ParseError::new("malformed param"));
                },
            }
            i += 1;
        }
        Ok(out)
    }
}


/// Whether the literal map binds this puzzle literal to this SAT literal.
pub open spec fn litmap_has(s: Seq<(PuzLit, i32)>, p: PuzLitView, l: int) -> bool {
    exists|i: int| 0 <= i < s.len() && (#[trigger] s[i]).0@ == p && s[i].1 as int == l
}

/// Whether the literal map has an entry for this puzzle literal.
pub open spec fn litmap_key(s: Seq<(PuzLit, i32)>, p: PuzLitView) -> bool {
    exists|i: int| 0 <= i < s.len() && (#[trigger] s[i]).0@ == p
}

/// No puzzle literal appears twice.
pub open spec fn litmap_unique(s: Seq<(PuzLit, i32)>) -> bool {
    forall|i: int, j: int|
        0 <= i < j < s.len() ==> (#[trigger] s[i]).0@ != (#[trigger] s[j]).0@
}

/// Each bound literal's negation is bound to the negated SAT literal.
pub open spec fn sign_consistent(s: Seq<(PuzLit, i32)>) -> bool {
    forall|i: int|
        0 <= i < s.len() ==> litmap_has(s, (#[trigger] s[i]).0@.negv(), -(s[i].1 as int))
}

/// Every bound SAT literal is usable by the backend.
pub open spec fn litmap_valid(s: Seq<(PuzLit, i32)>) -> bool {
    forall|i: int| 0 <= i < s.len() ==> valid_lit((#[trigger] s[i]).1 as int)
}

/// Looks a puzzle literal up in the literal map.
pub fn litmap_get(s: &Vec<(PuzLit, i32)>, p: &PuzLit) -> (r: Option<i32>)
    ensures
        match r {
            Some(l) => litmap_has(s@, p@, l as int),
            None => !litmap_key(s@, p@),
        },
{
    let mut i: usize = 0;
    while i < s.len()
        invariant
            0 <= i <= s@.len(),
            forall|k: int| 0 <= k < i ==> (#[trigger] s@[k]).0@ != p@,
        decreases s@.len() - i,
    {
        if &s[i].0 == p {
            return Some(s[i].1);
        }
        i += 1;
    }
    None
}

/// Whether the inverse map binds this SAT literal.
pub open spec fn invmap_key(s: Seq<(i32, Vec<PuzLit>)>, l: int) -> bool {
    exists|i: int| 0 <= i < s.len() && (#[trigger] s[i]).0 as int == l
}

/// Looks a SAT literal up in the inverse map.
/// The inverse map's entry at `i` is the first one for the literal `l`.
pub open spec fn invmap_first_at(s: Seq<(i32, Vec<PuzLit>)>, l: int, i: int) -> bool {
    &&& 0 <= i < s.len()
    &&& s[i].0 as int == l
    &&& forall|k: int| 0 <= k < i ==> (#[trigger] s[k]).0 as int != l
}

/// The domain map's entry at `i` is the first one for the variable `v`.
pub open spec fn domainmap_first_at(s: Seq<(PuzVar, Vec<i64>)>, v: crate::model::PuzVarView, i: int) -> bool {
    &&& 0 <= i < s.len()
    &&& s[i].0@ == v
    &&& forall|k: int| 0 <= k < i ==> (#[trigger] s[k]).0@ != v
}

/// The puzzle literal denying that variable `v` takes value `d`.
pub open spec fn denial_view(v: crate::model::PuzVarView, d: i64) -> crate::model::PuzLitView {
    crate::model::PuzLitView {
        varval: crate::model::VarValPairView { var: v, val: d },
        equal: false,
    }
}

/// Every SAT literal the map binds to the puzzle literal `p` is in `known`.
pub open spec fn denial_known(lm: Seq<(PuzLit, i32)>, p: crate::model::PuzLitView, known: Set<int>) -> bool {
    forall|nl: int| litmap_has(lm, p, nl) ==> known.contains(nl)
}

/// One value exclusion that follows from asserting the SAT literal `lit`:
/// the first inverse-map entry for `lit` holds an assignment literal at
/// `pi`, and the first domain entry for its variable holds, at `qi`, a
/// value other than the assigned one.
pub open spec fn exclusion_case(
    inv: Seq<(i32, Vec<PuzLit>)>,
    dm: Seq<(PuzVar, Vec<i64>)>,
    lit: int,
    ei: int,
    pi: int,
    di: int,
    qi: int,
) -> bool {
    &&& invmap_first_at(inv, lit, ei)
    &&& 0 <= pi < inv[ei].1@.len()
    &&& inv[ei].1@[pi]@.equal
    &&& domainmap_first_at(dm, inv[ei].1@[pi]@.varval.var, di)
    &&& 0 <= qi < dm[di].1@.len()
    &&& dm[di].1@[qi] != inv[ei].1@[pi]@.varval.val
}

/// Two first entries for the same literal are the same entry.
pub proof fn lemma_invmap_first_unique(s: Seq<(i32, Vec<PuzLit>)>, l: int, i: int, j: int)
    requires
        invmap_first_at(s, l, i),
        invmap_first_at(s, l, j),
    ensures
        i == j,
{
    if i < j {
        assert(s[i].0 as int != l);
    } else if j < i {
        assert(s[j].0 as int != l);
    }
}

/// Two first entries for the same variable are the same entry.
pub proof fn lemma_domainmap_first_unique(
    s: Seq<(PuzVar, Vec<i64>)>,
    v: crate::model::PuzVarView,
    i: int,
    j: int,
)
    requires
        domainmap_first_at(s, v, i),
        domainmap_first_at(s, v, j),
    ensures
        i == j,
{
    if i < j {
        assert(s[i].0@ != v);
    } else if j < i {
        assert(s[j].0@ != v);
    }
}

/// In a map without repeated keys, a puzzle literal is bound to at most one
/// SAT literal.
pub proof fn lemma_litmap_unique_value(
    s: Seq<(PuzLit, i32)>,
    p: crate::model::PuzLitView,
    a: int,
    b: int,
)
    requires
        litmap_unique(s),
        litmap_has(s, p, a),
        litmap_has(s, p, b),
    ensures
        a == b,
{
    let i1 = choose|i: int| 0 <= i < s.len() && (#[trigger] s[i]).0@ == p && s[i].1 as int == a;
    let i2 = choose|i: int| 0 <= i < s.len() && (#[trigger] s[i]).0@ == p && s[i].1 as int == b;
    if i1 < i2 {
        assert(s[i1].0@ != s[i2].0@);
    } else if i2 < i1 {
        assert(s[i2].0@ != s[i1].0@);
    }
}

/// Two entries of a literal map that bind a puzzle literal and its negation
/// to SAT literals that are not negations of one another.
pub open spec fn sign_conflict(s: Seq<(PuzLit, i32)>) -> bool {
    exists|a: int, b: int|
        0 <= a < s.len() && 0 <= b < s.len() && (#[trigger] s[a]).0@.negv() == (#[trigger] s[b]).0@
            && s[b].1 as int != -(s[a].1 as int)
}

/// No SAT literal keys two entries of the inverse map.
pub open spec fn invmap_unique(s: Seq<(i32, Vec<PuzLit>)>) -> bool {
    forall|a: int, b: int| 0 <= a < b < s.len() ==> (#[trigger] s[a]).0 != (#[trigger] s[b]).0
}

/// Every puzzle literal the inverse map lists under a SAT literal is bound
/// to that SAT literal by the literal map.
pub open spec fn invmap_sound(inv: Seq<(i32, Vec<PuzLit>)>, lm: Seq<(PuzLit, i32)>) -> bool {
    forall|e: int, j: int|
        0 <= e < inv.len() && 0 <= j < inv[e].1@.len() ==> litmap_has(
            lm,
            (#[trigger] inv[e].1@[j])@,
            inv[e].0 as int,
        )
}

/// The inverse map's entry `e` lists, at position `j`, the puzzle literal
/// of the literal map's binding `k`, under that binding's SAT literal.
pub open spec fn invmap_entry_at(
    inv: Seq<(i32, Vec<PuzLit>)>,
    lm: Seq<(PuzLit, i32)>,
    k: int,
    e: int,
    j: int,
) -> bool {
    &&& 0 <= e < inv.len()
    &&& inv[e].0 == lm[k].1
    &&& 0 <= j < inv[e].1@.len()
    &&& inv[e].1@[j]@ == lm[k].0@
}

/// The literal map's binding `k` is listed somewhere in the inverse map.
pub open spec fn invmap_has_binding(
    inv: Seq<(i32, Vec<PuzLit>)>,
    lm: Seq<(PuzLit, i32)>,
    k: int,
) -> bool {
    exists|e: int, j: int| #[trigger] invmap_entry_at(inv, lm, k, e, j)
}

/// Every binding of the literal map is listed in the inverse map under its
/// SAT literal.
pub open spec fn invmap_covers(inv: Seq<(i32, Vec<PuzLit>)>, lm: Seq<(PuzLit, i32)>) -> bool {
    forall|k: int| 0 <= k < lm.len() ==> #[trigger] invmap_has_binding(inv, lm, k)
}

/// The inverse map inverts the literal map: every puzzle literal listed
/// under a SAT literal is bound to it by the map, and every binding of the
/// map is listed under its SAT literal.
pub open spec fn invmap_inverts(inv: Seq<(i32, Vec<PuzLit>)>, lm: Seq<(PuzLit, i32)>) -> bool {
    invmap_sound(inv, lm) && invmap_covers(inv, lm)
}

/// The position of the inverse-map entry for `l`, if one exists.
fn invmap_find(s: &Vec<(i32, Vec<PuzLit>)>, l: i32) -> (r: Option<usize>)
    ensures
        r matches Some(x) ==> 0 <= x < s@.len() && s@[x as int].0 == l,
        r is None ==> forall|k: int| 0 <= k < s@.len() ==> (#[trigger] s@[k]).0 != l,
{
    let mut i: usize = 0;
    while i < s.len()
        invariant
            0 <= i <= s@.len(),
            forall|k: int| 0 <= k < i ==> (#[trigger] s@[k]).0 != l,
        decreases s@.len() - i,
    {
        if s[i].0 == l {
            return Some(i);
        }
        i += 1;
    }
    None
}

/// Whether the inverse map's first entry for `l` is non-empty and lists
/// only puzzle literals of the named constraint: such a SAT literal
/// switches that constraint on.
pub open spec fn con_fully_named(inv: Seq<(i32, Vec<PuzLit>)>, l: int, name: Seq<char>) -> bool {
    exists|i: int|
        #[trigger] invmap_first_at(inv, l, i) && inv[i].1@.len() > 0 && (forall|k: int|
            0 <= k < inv[i].1@.len() ==> (#[trigger] inv[i].1@[k])@.varval.var.name == name)
}

/// The reveal target literal of an assignment literal: the target variable
/// is named by the relation, indexed by the source variable's indices
/// followed by the assigned value, and asserted equal to one.
pub open spec fn reveal_target_view(p: PuzLitView, target: Seq<char>) -> PuzLitView {
    PuzLitView {
        varval: crate::model::VarValPairView {
            var: PuzVarView {
                name: target,
                indices: p.varval.var.indices.push(p.varval.val),
            },
            val: 1,
        },
        equal: true,
    }
}

/// One reveal that follows from asserting the SAT literal `lit`: the first
/// inverse-map entry for `lit` holds an assignment literal at `pi`, and the
/// reveal relations' first entry for its variable's name stands at `ri`.
pub open spec fn reveal_case(
    inv: Seq<(i32, Vec<PuzLit>)>,
    rv: Seq<(String, String)>,
    lit: int,
    ei: int,
    pi: int,
    ri: int,
) -> bool {
    &&& invmap_first_at(inv, lit, ei)
    &&& 0 <= pi < inv[ei].1@.len()
    &&& inv[ei].1@[pi]@.equal
    &&& assoc_first_at(rv, inv[ei].1@[pi]@.varval.var.name, ri)
}

pub fn invmap_get<'a>(s: &'a Vec<(i32, Vec<PuzLit>)>, l: i32) -> (r: Option<&'a Vec<PuzLit>>)
    ensures
        r is Some <==> invmap_key(s@, l as int),
        r matches Some(v) ==> exists|i: int|
            0 <= i < s@.len() && (#[trigger] s@[i]).0 == l && s@[i].1@ == v@
                && invmap_first_at(s@, l as int, i),
{
    let mut i: usize = 0;
    while i < s.len()
        invariant
            0 <= i <= s@.len(),
            forall|k: int| 0 <= k < i ==> (#[trigger] s@[k]).0 != l,
        decreases s@.len() - i,
    {
        if s[i].0 == l {
            return Some(&s[i].1);
        }
        i += 1;
    }
    None
}

/// Looks a variable up in the domain map.
pub fn domainmap_get<'a>(s: &'a Vec<(PuzVar, Vec<i64>)>, v: &PuzVar) -> (r: Option<
    &'a Vec<i64>,
>)
    ensures
        r matches Some(d) ==> exists|i: int|
            0 <= i < s@.len() && (#[trigger] s@[i]).0@ == v@ && s@[i].1@ == d@
                && domainmap_first_at(s@, v@, i),
        r is None ==> forall|i: int| 0 <= i < s@.len() ==> (#[trigger] s@[i]).0@ != v@,
{
    let mut i: usize = 0;
    while i < s.len()
        invariant
            0 <= i <= s@.len(),
            forall|k: int| 0 <= k < i ==> (#[trigger] s@[k]).0@ != v@,
        decreases s@.len() - i,
    {
        if &s[i].0 == v {
            return Some(&s[i].1);
        }
        i += 1;
    }
    None
}

/// Looks a SAT literal up in an integer-keyed association list.
pub fn intmap_get<'a>(s: &'a Vec<(i32, Vec<i32>)>, l: i32) -> (r: Option<&'a Vec<i32>>)
    ensures
        r matches Some(v) ==> exists|i: int|
            0 <= i < s@.len() && (#[trigger] s@[i]).0 == l && s@[i].1@ == v@,
{
    let mut i: usize = 0;
    while i < s.len()
        invariant
            0 <= i <= s@.len(),
            forall|k: int| 0 <= k < i ==> (#[trigger] s@[k]).0 != l,
        decreases s@.len() - i,
    {
        if s[i].0 == l {
            return Some(&s[i].1);
        }
        i += 1;
    }
    None
}

/// Looks a SAT literal up among the constraint names.
pub fn conset_get<'a>(s: &'a Vec<(i32, String)>, l: i32) -> (r: Option<&'a String>)
    ensures
        r is Some <==> exists|i: int| 0 <= i < s@.len() && (#[trigger] s@[i]).0 == l,
        r matches Some(v) ==> exists|i: int|
            0 <= i < s@.len() && (#[trigger] s@[i]).0 == l && s@[i].1@ == v@,
{
    let mut i: usize = 0;
    while i < s.len()
        invariant
            0 <= i <= s@.len(),
            forall|k: int| 0 <= k < i ==> (#[trigger] s@[k]).0 != l,
        decreases s@.len() - i,
    {
        if s[i].0 == l {
            return Some(&s[i].1);
        }
        i += 1;
    }
    None
}

/// The result of compiling a puzzle: the clause database of the SAT
/// encoding, and the annotated bijection between puzzle literals and SAT
/// literals.
#[derive(Debug)]
pub struct PuzzleParse {
    /// The annotations from the model file.
    pub eprime: EPrimeAnnotations,
    /// The clause database of the SAT encoding.
    pub cnf: Vec<Vec<i32>>,
    /// The direct encoding: each puzzle literal's SAT literal.
    pub litmap: Vec<(PuzLit, i32)>,
    /// The inverse of `litmap`: each SAT literal's puzzle literals.
    pub invlitmap: Vec<(i32, Vec<PuzLit>)>,
    /// Each variable's domain: the values appearing in its pairs.
    pub domainmap: Vec<(PuzVar, Vec<i64>)>,
    /// Each constraint literal's rendered, human-readable name.
    pub conset: Vec<(i32, String)>,
    /// The decision-variable literals of each constraint's scope.
    pub varlits_in_con: Vec<(i32, Vec<i32>)>,
    /// All SAT literals of decision variables, sorted.
    pub varset_lits: Vec<i32>,
    /// The decision-variable literals that deny an assignment.
    pub varset_lits_neg: Vec<i32>,
    /// The literals that switch constraints on, sorted.
    pub conset_lits: Vec<i32>,
    /// All SAT literals of auxiliary variables.
    pub auxset_lits: Vec<i32>,
    /// The order encoding: each variable's threshold literals.
    pub order_encoding_map: Vec<(PuzVar, Vec<i32>)>,
    /// The inverse of the order encoding.
    pub inv_order_encoding_map: Vec<(i32, PuzVar)>,
    /// Every literal of the order encoding.
    pub order_encoding_all_lits: Vec<i32>,
    /// When the key literal becomes known, the value literal is known too.
    pub reveal_map: Vec<(i32, i32)>,
}

impl PuzzleParse {
    /// The clause database as the formula it denotes.
    pub open spec fn cnfv(&self) -> Seq<Seq<int>> {
        cnf_view(self.cnf@)
    }

    /// The constraint literals, as a set.
    pub open spec fn consetv(&self) -> Set<int> {
        lit_set(self.conset_lits@)
    }

    /// The decision-variable literals, as a set.
    pub open spec fn varsetv(&self) -> Set<int> {
        lit_set(self.varset_lits@)
    }

    pub open spec fn wf(&self) -> bool {
        &&& valid_cnf(self.cnfv())
        &&& litmap_unique(self.litmap@)
        &&& litmap_valid(self.litmap@)
        &&& crate::litvec::sorted_lits(self.varset_lits@)
        &&& crate::litvec::sorted_lits(self.varset_lits_neg@)
        &&& crate::litvec::sorted_lits(self.conset_lits@)
        &&& valid_lits(lit_seq(self.varset_lits@))
        &&& valid_lits(lit_seq(self.varset_lits_neg@))
        &&& valid_lits(lit_seq(self.conset_lits@))
        &&& crate::litvec::sorted_lits(self.auxset_lits@)
        &&& valid_lits(lit_seq(self.auxset_lits@))
        &&& valid_lits(lit_seq(self.order_encoding_all_lits@))
        &&& (forall|i: int|
            0 <= i < self.reveal_map@.len() ==> valid_lit((#[trigger] self.reveal_map@[i]).0 as int)
                && valid_lit(self.reveal_map@[i].1 as int))
        &&& (forall|i: int|
            0 <= i < self.varlits_in_con@.len() ==> valid_lits(
                lit_seq((#[trigger] self.varlits_in_con@[i]).1@),
            ))
    }

    /// An empty parse holding only the model file's annotations.
    pub fn new_from_eprime(
        vars: Vec<String>,
        auxvars: Vec<String>,
        cons: Vec<(String, String)>,
        reveal: Vec<(String, String)>,
        params: Vec<(String, ParamValue)>,
        kind: Option<String>,
    ) -> (r: PuzzleParse)
        ensures
            r.wf(),
            r.eprime.vars@ == vars@,
            r.eprime.auxvars@ == auxvars@,
            r.eprime.cons@ == cons@,
            r.eprime.reveal@ == reveal@,
            r.eprime.params@ == params@,
            r.eprime.kind == kind,
            r.litmap@.len() == 0,
            r.cnf@.len() == 0,
            r.conset_lits@.len() == 0,
    {
        let mut reveal_values: Vec<String> = Vec::new();
        let mut i: usize = 0;
        while i < reveal.len()
            invariant
                0 <= i <= reveal@.len(),
            decreases reveal@.len() - i,
        {
            reveal_values.push(reveal[i].1.clone());
            i += 1;
        }
        PuzzleParse {
            eprime: EPrimeAnnotations {
                vars,
                auxvars,
                cons,
                reveal,
                reveal_values,
                params,
                kind,
            },
            cnf: Vec::new(),
            litmap: Vec::new(),
            invlitmap: Vec::new(),
            domainmap: Vec::new(),
            conset: Vec::new(),
            varlits_in_con: Vec::new(),
            varset_lits: Vec::new(),
            varset_lits_neg: Vec::new(),
            conset_lits: Vec::new(),
            auxset_lits: Vec::new(),
            order_encoding_map: Vec::new(),
            inv_order_encoding_map: Vec::new(),
            order_encoding_all_lits: Vec::new(),
            reveal_map: Vec::new(),
        }
    }

    /// Whether the literal switches a constraint on.
    pub fn lit_is_con(&self, lit: i32) -> (r: bool)
        ensures
            r == self.consetv().contains(lit as int),
    {
        crate::litvec::contains_lit(&self.conset_lits, lit)
    }

    /// Whether the literal belongs to a decision variable.
    pub fn lit_is_var(&self, lit: i32) -> (r: bool)
        ensures
            r == self.varsetv().contains(lit as int),
    {
        crate::litvec::contains_lit(&self.varset_lits, lit)
    }

    /// The rendered name of the constraint this literal switches on.
    pub fn lit_to_con<'a>(&'a self, lit: i32) -> (r: Option<&'a String>) {
        conset_get(&self.conset, lit)
    }

    /// The puzzle literals a SAT literal stands for.
    pub fn lit_to_puzlit<'a>(&'a self, lit: i32) -> (r: Option<&'a Vec<PuzLit>>)
        ensures
            r is Some <==> invmap_key(self.invlitmap@, lit as int),
            r matches Some(v) ==> exists|i: int|
                0 <= i < self.invlitmap@.len() && (#[trigger] self.invlitmap@[i]).0 == lit
                    && self.invlitmap@[i].1@ == v@ && invmap_first_at(
                    self.invlitmap@,
                    lit as int,
                    i,
                ),
    {
        invmap_get(&self.invlitmap, lit)
    }

    /// The SAT literal a puzzle literal stands for.
    pub fn puzlit_to_lit(&self, puzlit: &PuzLit) -> (r: Option<i32>)
        ensures
            r matches Some(l) ==> litmap_has(self.litmap@, puzlit@, l as int),
            r is None ==> !litmap_key(self.litmap@, puzlit@),
    {
        litmap_get(&self.litmap, puzlit)
    }

    /// Whether the puzzle has reveal relations (staged information).
    pub fn has_facts(&self) -> (r: bool)
        ensures
            r == (self.eprime.reveal@.len() > 0),
    {
        self.eprime.reveal.len() > 0
    }

    /// The rendered names of all constraints.
    pub fn constraints(&self) -> (r: Vec<String>)
        ensures
            r@.len() == self.conset@.len(),
            forall|i: int| 0 <= i < r@.len() ==> (#[trigger] r@[i])@ == self.conset@[i].1@,
    {
        let mut out: Vec<String> = Vec::new();
        let mut i: usize = 0;
        while i < self.conset.len()
            invariant
                0 <= i <= self.conset@.len(),
                out@.len() == i,
                forall|k: int| 0 <= k < i ==> (#[trigger] out@[k])@ == self.conset@[k].1@,
            decreases self.conset@.len() - i,
        {
            out.push(self.conset[i].1.clone());
            i += 1;
        }
        out
    }

    /// The (variable, value) pairs a SAT literal can affect, through either
    /// the direct or the order encoding.
    pub fn direct_or_ordered_lit_to_varvalpair(&self, lit: i32) -> (r: Vec<VarValPair>) {
        let mut out: Vec<VarValPair> = Vec::new();
        if let Some(puzlits) = invmap_get(&self.invlitmap, lit) {
            let mut i: usize = 0;
            while i < puzlits.len()
                decreases puzlits@.len() - i,
            {
                out.push(puzlits[i].varval());
                i += 1;
            }
        }
        let mut j: usize = 0;
        while j < self.inv_order_encoding_map.len()
            decreases self.inv_order_encoding_map@.len() - j,
        {
            if self.inv_order_encoding_map[j].0 == lit {
                let var = &self.inv_order_encoding_map[j].1;
                if let Some(domain) = domainmap_get(&self.domainmap, var) {
                    let mut k: usize = 0;
                    while k < domain.len()
                        decreases domain@.len() - k,
                    {
                        out.push(VarValPair::new(var, domain[k]));
                        k += 1;
                    }
                }
            }
            j += 1;
        }
        out
    }

    /// Every (variable, value) pair of every decision-variable literal.
    pub fn all_var_varvals(&self) -> (r: Vec<VarValPair>) {
        let mut out: Vec<VarValPair> = Vec::new();
        let mut i: usize = 0;
        while i < self.varset_lits.len()
            decreases self.varset_lits@.len() - i,
        {
            if let Some(puzlits) = invmap_get(&self.invlitmap, self.varset_lits[i]) {
                let mut k: usize = 0;
                while k < puzlits.len()
                    decreases puzlits@.len() - k,
                {
                    out.push(puzlits[k].varval());
                    k += 1;
                }
            }
            i += 1;
        }
        out
    }

    /// All SAT literals related to decision variables, in either encoding.
    pub fn all_var_related_lits(&self) -> (r: Vec<i32>)
        requires
            self.wf(),
        ensures
            crate::litvec::sorted_lits(r@),
            lit_set(r@) =~= self.varsetv().union(lit_set(self.order_encoding_all_lits@)),
            valid_lits(lit_seq(r@)),
    {
        let sorted_order = crate::litvec::sort_lits(&self.order_encoding_all_lits);
        let r = crate::litvec::union_sorted(&self.varset_lits, &sorted_order);
        proof {
            assert forall|k: int| 0 <= k < lit_seq(r@).len() implies valid_lit(
                #[trigger] lit_seq(r@)[k],
            ) by {
                assert(lit_seq(r@)[k] == r@[k] as int);
                crate::cnf::lemma_lit_set_contains(r@, k);
                if self.varsetv().contains(r@[k] as int) {
                    crate::cnf::lemma_lit_set_equiv(self.varset_lits@, r@[k] as int);
                    let q = choose|q: int|
                        0 <= q < self.varset_lits@.len() && self.varset_lits@[q] as int == r@[
                            k
                        ] as int;
                    assert(lit_seq(self.varset_lits@)[q] == self.varset_lits@[q] as int);
                } else {
                    assert(lit_set(sorted_order@).contains(r@[k] as int));
                    crate::cnf::lemma_lit_set_equiv(self.order_encoding_all_lits@, r@[k] as int);
                    let q = choose|q: int|
                        0 <= q < self.order_encoding_all_lits@.len()
                            && self.order_encoding_all_lits@[q] as int == r@[k] as int;
                    assert(lit_seq(self.order_encoding_all_lits@)[q]
                        == self.order_encoding_all_lits@[q] as int);
                }
            }
        }
        r
    }

    /// The scope of a constraint: the (variable, value) pairs it can affect.
    pub fn constraint_scope(&self, con: &str) -> (r: Vec<VarValPair>) {
        let mut lit: Option<i32> = None;
        let mut i: usize = 0;
        while i < self.conset.len()
            decreases self.conset@.len() - i,
        {
            if str_eq(self.conset[i].1.as_str(), con) {
                lit = Some(self.conset[i].0);
            }
            i += 1;
        }
        let lit = match lit {
            Some(l) => l,
            None => {
                return Vec::new();
            },
        };
        let mut out: Vec<VarValPair> = Vec::new();
        if let Some(lits) = intmap_get(&self.varlits_in_con, lit) {
            let mut k: usize = 0;
            while k < lits.len()
                decreases lits@.len() - k,
            {
                let mut pairs = self.direct_or_ordered_lit_to_varvalpair(lits[k]);
                let mut q: usize = 0;
                while q < pairs.len()
                    decreases pairs@.len() - q,
                {
                    out.push(pairs[q].duplicate());
                    q += 1;
                }
                k += 1;
            }
        }
        out
    }

    /// Drops from the active constraint set every constraint literal whose
    /// puzzle literals all belong to the named constraint.  A name that is
    /// not a declared constraint is refused.
    pub fn filter_out_constraint(&mut self, con: &str) -> (r: Result<(), ParseError>)
        requires
            old(self).wf(),
        ensures
            final(self).wf(),
            final(self).cnfv() == old(self).cnfv(),
            r is Ok <==> assoc_has(old(self).eprime.cons@, con@),
            r is Err ==> *final(self) == *old(self),
            lit_set(final(self).conset_lits@).subset_of(lit_set(old(self).conset_lits@)),
            r is Ok ==> forall|x: int|
                #[trigger] lit_set(final(self).conset_lits@).contains(x) <==> (lit_set(
                    old(self).conset_lits@,
                ).contains(x) && !con_fully_named(old(self).invlitmap@, x, con@)),
    {
        if !assoc_get(&self.eprime.cons, con).is_some() {
            return Err(ParseError::new("no constraint has that name"));
        }
        let mut keep: Vec<i32> = Vec::new();
        let mut i: usize = 0;
        proof {
            crate::cnf::lemma_lit_set_empty();
        }
        while i < self.conset_lits.len()
            invariant
                0 <= i <= self.conset_lits@.len(),
                self.wf(),
                crate::litvec::sorted_lits(keep@),
                lit_set(keep@).subset_of(lit_set(self.conset_lits@)),
                valid_lits(lit_seq(keep@)),
                forall|x: int|
                    #[trigger] lit_set(keep@).contains(x) <==> (lit_set(
                        self.conset_lits@.subrange(0, i as int),
                    ).contains(x) && !con_fully_named(self.invlitmap@, x, con@)),
            decreases self.conset_lits@.len() - i,
        {
            let l = self.conset_lits[i];
            let ghost pre_sub = self.conset_lits@.subrange(0, i as int);
            let mut keep_this = true;
            match invmap_get(&self.invlitmap, l) {
                Some(puzlits) => {
                    let ghost fi = choose|w: int|
                        0 <= w < self.invlitmap@.len() && (#[trigger] self.invlitmap@[w]).0 == l
                            && self.invlitmap@[w].1@ == puzlits@ && invmap_first_at(
                            self.invlitmap@,
                            l as int,
                            w,
                        );
                    let mut all_match = puzlits.len() > 0;
                    let mut k: usize = 0;
                    while k < puzlits.len()
                        invariant
                            0 <= k <= puzlits@.len(),
                            all_match <==> (puzlits@.len() > 0 && (forall|k2: int|
                                0 <= k2 < k ==> (#[trigger] puzlits@[k2])@.varval.var.name
                                    == con@)),
                        decreases puzlits@.len() - k,
                    {
                        if !str_eq(puzlits[k].var().name().as_str(), con) {
                            all_match = false;
                        }
                        k += 1;
                    }
                    if all_match {
                        keep_this = false;
                    }
                    proof {
                        if all_match {
                            assert(con_fully_named(self.invlitmap@, l as int, con@)) by {
                                assert(invmap_first_at(self.invlitmap@, l as int, fi)
                                    && self.invlitmap@[fi].1@.len() > 0 && (forall|k2: int|
                                    0 <= k2 < self.invlitmap@[fi].1@.len() ==> (
                                    #[trigger] self.invlitmap@[fi].1@[k2])@.varval.var.name
                                        == con@));
                            }
                        } else {
                            if con_fully_named(self.invlitmap@, l as int, con@) {
                                let w = choose|w: int|
                                    #[trigger] invmap_first_at(self.invlitmap@, l as int, w)
                                        && self.invlitmap@[w].1@.len() > 0 && (forall|k2: int|
                                        0 <= k2 < self.invlitmap@[w].1@.len() ==> (
                                        #[trigger] self.invlitmap@[w].1@[k2])@.varval.var.name
                                            == con@);
                                lemma_invmap_first_unique(self.invlitmap@, l as int, w, fi);
                                assert(false);
                            }
                        }
                    }
                },
                None => {
                    proof {
                        if con_fully_named(self.invlitmap@, l as int, con@) {
                            let w = choose|w: int|
                                #[trigger] invmap_first_at(self.invlitmap@, l as int, w)
                                    && self.invlitmap@[w].1@.len() > 0 && (forall|k2: int|
                                    0 <= k2 < self.invlitmap@[w].1@.len() ==> (
                                    #[trigger] self.invlitmap@[w].1@[k2])@.varval.var.name
                                        == con@);
                            assert(invmap_key(self.invlitmap@, l as int));
                        }
                    }
                },
            }
            proof {
                assert(self.conset_lits@.subrange(0, i + 1) =~= pre_sub.push(
                    self.conset_lits@[i as int],
                ));
                crate::cnf::lemma_lit_set_push(pre_sub, l);
            }
            if keep_this {
                let ghost pre = keep@;
                proof {
                    crate::cnf::lemma_lit_set_contains(self.conset_lits@, i as int);
                    assert(lit_seq(self.conset_lits@)[i as int] == l as int);
                }
                let next = crate::litvec::insert_sorted(&keep, l);
                keep = next;
            } else {
                proof {
                    if lit_set(keep@).contains(l as int) {
                        crate::cnf::lemma_lit_set_equiv(pre_sub, l as int);
                        let w = choose|w: int|
                            0 <= w < pre_sub.len() && pre_sub[w] as int == l as int;
                        assert(self.conset_lits@[w] == l);
                        assert(crate::litvec::lit_key(self.conset_lits@[w] as int)
                            < crate::litvec::lit_key(self.conset_lits@[i as int] as int));
                    }
                }
            }
            i += 1;
        }
        proof {
            assert(self.conset_lits@.subrange(0, self.conset_lits@.len() as int)
                =~= self.conset_lits@);
        }
        self.conset_lits = keep;
        Ok(())
    }
}


/// A JSON value, declared so wrappers can hand parameters to the template
/// engine.
#[verifier::external_type_specification]
#[verifier::external_body]
pub struct ExJsonValue(serde_json::Value);

/// Converts a parameter value to the JSON value it stands for.
///
/// Relies on serde_json's `Value` constructors: the conversion is one to
/// one in each variant.
#[verifier::external_body]
fn param_to_json(p: &ParamValue) -> serde_json::Value {
    match p {
        ParamValue::Null => serde_json::Value::Null,
        ParamValue::Bool(b) => serde_json::Value::Bool(*b),
        ParamValue::Int(v) => serde_json::Value::from(*v),
        ParamValue::Text(t) => serde_json::Value::String(t.clone()),
        ParamValue::List(l) => serde_json::Value::Array(l.iter().map(param_to_json).collect()),
        ParamValue::Dict(d) => serde_json::Value::Object(
            d.iter().map(|(k, v)| (k.clone(), param_to_json(v))).collect(),
        ),
    }
}

/// Renders a constraint's description template against the instance
/// parameters and the constraint's indices.
///
/// Relies on tera's `Tera::one_off`, which renders a template string
/// against a context.
#[verifier::external_body]
pub fn parse_constraint_name(
    template: &str,
    params: &Vec<(String, ParamValue)>,
    index: &Vec<i64>,
) -> (r: Result<String, ParseError>)
{
    let mut map = serde_json::Map::new();
    for (k, v) in params.iter() {
        map.insert(k.clone(), param_to_json(v));
    }
    let mut context = tera::Context::new();
    context.insert("index", index);
    context.insert("params", &serde_json::Value::Object(map));
    match tera::Tera::one_off(template, &context, false) {
        Ok(s) => Ok(s),
        Err(e) => Err(ParseError { message: e.to_string() }),
    }
}

/// An identical copy of a list of puzzle literals, viewwise.
pub fn copy_puzlits(v: &Vec<crate::model::PuzLit>) -> (r: Vec<crate::model::PuzLit>)
    ensures
        r@.len() == v@.len(),
        forall|k: int| 0 <= k < v@.len() ==> (#[trigger] r@[k])@ == v@[k]@,
{
    let mut r: Vec<crate::model::PuzLit> = Vec::new();
    let mut i: usize = 0;
    while i < v.len()
        invariant
            0 <= i <= v@.len(),
            r@.len() == i,
            forall|k: int| 0 <= k < i ==> (#[trigger] r@[k])@ == v@[k]@,
        decreases v@.len() - i,
    {
        r.push(v[i].duplicate());
        i += 1;
    }
    r
}

/// Whether an `i64` vector holds this value.
pub fn i64_contains(v: &Vec<i64>, x: i64) -> (r: bool)
    ensures
        r == v@.contains(x),
{
    let mut i: usize = 0;
    while i < v.len()
        invariant
            0 <= i <= v@.len(),
            forall|k: int| 0 <= k < i ==> v@[k] != x,
        decreases v@.len() - i,
    {
        if v[i] == x {
            assert(v@[i as int] == x);
            return true;
        }
        i += 1;
    }
    proof {
        if v@.contains(x) {
            let k = choose|k: int| 0 <= k < v@.len() && v@[k] == x;
        }
    }
    false
}

/// A constraint-presence variable ranges over exactly 0 and 1.
pub open spec fn domain_is_boolean(vals: Seq<i64>) -> bool {
    vals.len() == 2 && vals.contains(0) && vals.contains(1)
}

impl PuzzleParse {
    /// Completes the parse: closes the bijection under negation, builds the
    /// inverse map and the domains, classifies every literal, wires the
    /// reveal relations, and checks and names the constraints.
    ///
    /// On success the literal map is sign-consistent (each bound literal's
    /// negation is bound to the negated SAT literal), and every
    /// constraint-presence variable has the domain {0, 1}.
    #[verifier::rlimit(100)]
    #[verifier::spinoff_prover]
    pub fn finalise(&mut self) -> (r: Result<(), ParseError>)
        requires
            old(self).wf(),
        ensures
            final(self).wf(),
            final(self).cnfv() == old(self).cnfv(),
            r is Ok ==> sign_consistent(final(self).litmap@),
            r is Ok ==> !sign_conflict(old(self).litmap@),
            r is Ok ==> old(self).litmap@.is_prefix_of(final(self).litmap@),
            r is Ok ==> invmap_unique(final(self).invlitmap@),
            r is Ok ==> invmap_inverts(final(self).invlitmap@, final(self).litmap@),
            r is Ok ==> forall|i: int|
                0 <= i < final(self).domainmap@.len() && assoc_has(
                    final(self).eprime.cons@,
                    (#[trigger] final(self).domainmap@[i]).0@.name,
                ) ==> domain_is_boolean(final(self).domainmap@[i].1@),
    {
        let ghost orig = self.litmap@;
        // Close the bijection under negation.
        let mut extra: Vec<(PuzLit, i32)> = Vec::new();
        let mut i: usize = 0;
        while i < self.litmap.len()
            invariant
                0 <= i <= self.litmap@.len(),
                self.wf(),
                self.litmap@ == orig,
                litmap_unique(extra@),
                litmap_valid(extra@),
                forall|k: int| 0 <= k < extra@.len() ==> !litmap_key(orig, (#[trigger] extra@[k]).0@),
                forall|k: int|
                    0 <= k < extra@.len() ==> litmap_has(
                        orig,
                        (#[trigger] extra@[k]).0@.negv(),
                        -(extra@[k].1 as int),
                    ),
                forall|k: int|
                    0 <= k < i ==> litmap_has(orig, (#[trigger] orig[k]).0@.negv(), -(orig[k].1 as int))
                        || litmap_has(extra@, orig[k].0@.negv(), -(orig[k].1 as int)),
                forall|a: int, b: int|
                    0 <= a < i && 0 <= b < orig.len() && (#[trigger] orig[a]).0@.negv() == (
                    #[trigger] orig[b]).0@ ==> orig[b].1 as int == -(orig[a].1 as int),
            decreases self.litmap@.len() - i,
        {
            let p = self.litmap[i].0.duplicate();
            let l = self.litmap[i].1;
            let neg = p.neg();
            proof {
                assert(neg@ == orig[i as int].0@.negv());
            }
            match litmap_get(&self.litmap, &neg) {
                Some(v) => {
                    if v != -l {
                        return Err(ParseError::new("malformed SAT compiler output: inconsistent signs"));
                    }
                    proof {
                        assert forall|b: int|
                            0 <= b < orig.len() && orig[i as int].0@.negv() == (
                        #[trigger] orig[b]).0@ implies orig[b].1 as int == -(orig[
                            i as int
                        ].1 as int) by {
                            let w = choose|w: int|
                                0 <= w < orig.len() && (#[trigger] orig[w]).0@ == neg@
                                    && orig[w].1 as int == v as int;
                            if b < w {
                                assert(orig[b].0@ != orig[w].0@);
                            } else if w < b {
                                assert(orig[w].0@ != orig[b].0@);
                            }
                        }
                    }
                },
                None => {
                    match litmap_get(&extra, &neg) {
                        Some(_) => {
                            return Err(ParseError::new("internal error: repeated key"));
                        },
                        None => {
                            let ghost epre = extra@;
                            proof {
                                assert(valid_lit(l as int)) by {
                                    assert(litmap_valid(orig));
                                    assert(valid_lit((orig[i as int]).1 as int));
                                }
                            }
                            extra.push((neg, -l));
                            proof {
                                assert(extra@.drop_last() =~= epre);
                                assert(extra@.last().0@ == orig[i as int].0@.negv());
                                assert(extra@.last().1 as int == -(orig[i as int].1 as int));
                                assert forall|k: int|
                                    0 <= k < extra@.len() implies litmap_has(
                                    orig,
                                    (#[trigger] extra@[k]).0@.negv(),
                                    -(extra@[k].1 as int),
                                ) by {
                                    if k < epre.len() {
                                        assert(extra@[k] == epre[k]);
                                    } else {
                                        assert(extra@[k].0@.negv() == orig[i as int].0@);
                                        assert(litmap_has(
                                            orig,
                                            orig[i as int].0@,
                                            orig[i as int].1 as int,
                                        ));
                                    }
                                }
                            }
                        },
                    }
                },
            }
            i += 1;
        }
        proof {
            assert(!sign_conflict(orig)) by {
                if sign_conflict(orig) {
                    let (a, b) = choose|a: int, b: int|
                        0 <= a < orig.len() && 0 <= b < orig.len() && (#[trigger] orig[
                            a
                        ]).0@.negv() == (#[trigger] orig[b]).0@ && orig[b].1 as int != -(orig[
                            a
                        ].1 as int);
                }
            }
        }
        let ghost extrav = extra@;
        while extra.len() > 0
            invariant
                self.cnfv() == old(self).cnfv(),
                self.wf(),
                !sign_conflict(orig),
                extra@.len() <= extrav.len(),
                extra@ =~= extrav.subrange(
                    extrav.len() - extra@.len(),
                    extrav.len() as int,
                ),
                self.litmap@ =~= orig + extrav.subrange(0, extrav.len() - extra@.len()),
                litmap_unique(extrav),
                litmap_valid(extrav),
                forall|k: int|
                    0 <= k < extrav.len() ==> !litmap_key(orig, (#[trigger] extrav[k]).0@),
            decreases extra@.len(),
        {
            let ghost j = extrav.len() - extra@.len();
            let ghost epre = extra@;
            let pair = extra.remove(0);
            proof {
                assert(epre =~= extrav.subrange(j as int, extrav.len() as int));
                assert(pair == epre[0]);
                assert(epre[0] == extrav.subrange(j as int, extrav.len() as int)[0]);
                assert(extrav.subrange(j as int, extrav.len() as int)[0] == extrav[j as int]);
                assert(pair == extrav[j as int]);
                assert(extra@ == epre.remove(0));
                assert forall|k: int| 0 <= k < extra@.len() implies extra@[k] == extrav[j + 1
                    + k] by {
                    assert(extra@[k] == epre.remove(0)[k]);
                    assert(epre.remove(0)[k] == epre[k + 1]);
                    assert(epre[k + 1] == extrav.subrange(j as int, extrav.len() as int)[k + 1]);
                    assert(extrav.subrange(j as int, extrav.len() as int)[k + 1] == extrav[j + 1
                        + k]);
                }
                assert(extra@ =~= extrav.subrange(j + 1, extrav.len() as int));
                // The grown map keeps unique keys and valid literals.
                let grown = self.litmap@.push(pair);
                assert(grown =~= orig + extrav.subrange(0, j + 1)) by {
                    assert(extrav.subrange(0, j + 1) =~= extrav.subrange(0, j as int).push(
                        extrav[j as int],
                    ));
                }
                assert(litmap_unique(grown)) by {
                    assert forall|a: int, b: int|
                        0 <= a < b < grown.len() implies (#[trigger] grown[a]).0@ != (
                    #[trigger] grown[b]).0@ by {
                        if a < orig.len() && b >= orig.len() {
                            assert(grown[b].0@ == extrav[b - orig.len()].0@);
                            assert(!litmap_key(orig, extrav[b - orig.len()].0@));
                            if grown[a].0@ == grown[b].0@ {
                                assert(litmap_key(orig, extrav[b - orig.len()].0@));
                            }
                        } else if a >= orig.len() {
                            assert(grown[a].0@ == extrav[a - orig.len()].0@);
                            assert(grown[b].0@ == extrav[b - orig.len()].0@);
                        }
                    }
                }
                assert(litmap_valid(grown)) by {
                    assert forall|a: int|
                        0 <= a < grown.len() implies valid_lit((#[trigger] grown[a]).1 as int) by {
                        if a >= orig.len() {
                            assert(grown[a].1 == extrav[a - orig.len()].1);
                        }
                    }
                }
            }
            self.litmap.push(pair);
        }
        proof {
            assert(extrav.subrange(0, extrav.len() as int) =~= extrav);
            // Sign consistency of the completed map.
            assert(sign_consistent(self.litmap@)) by {
                assert forall|k: int| 0 <= k < self.litmap@.len() implies litmap_has(
                    self.litmap@,
                    (#[trigger] self.litmap@[k]).0@.negv(),
                    -(self.litmap@[k].1 as int),
                ) by {
                    let comb = self.litmap@;
                    if k < orig.len() {
                        assert(comb[k].0@ == orig[k].0@ && comb[k].1 == orig[k].1);
                        if litmap_has(orig, orig[k].0@.negv(), -(orig[k].1 as int)) {
                            let q = choose|q: int|
                                0 <= q < orig.len() && (#[trigger] orig[q]).0@ == orig[k].0@.negv()
                                    && orig[q].1 as int == -(orig[k].1 as int);
                            assert(comb[q].0@ == orig[q].0@ && comb[q].1 == orig[q].1);
                        } else {
                            assert(litmap_has(extrav, orig[k].0@.negv(), -(orig[k].1 as int)));
                            let q = choose|q: int|
                                0 <= q < extrav.len() && (#[trigger] extrav[q]).0@
                                    == orig[k].0@.negv() && extrav[q].1 as int == -(orig[k].1 as int);
                            assert(comb[orig.len() + q].0@ == extrav[q].0@);
                            assert(comb[orig.len() + q].1 == extrav[q].1);
                        }
                    } else {
                        let e = k - orig.len();
                        assert(comb[k].0@ == extrav[e].0@ && comb[k].1 == extrav[e].1);
                        assert(litmap_has(orig, extrav[e].0@.negv(), -(extrav[e].1 as int)));
                        let q = choose|q: int|
                            0 <= q < orig.len() && (#[trigger] orig[q]).0@ == extrav[e].0@.negv()
                                && orig[q].1 as int == -(extrav[e].1 as int);
                        assert(comb[q].0@ == orig[q].0@ && comb[q].1 == orig[q].1);
                    }
                }
            }
        }
        let ghost done_litmap = self.litmap@;

        // Build the inverse map afresh.
        proof {
            assert(orig.is_prefix_of(self.litmap@)) by {
                assert(self.litmap@.subrange(0, orig.len() as int) =~= orig);
            }
        }
        self.invlitmap = Vec::new();
        let mut i2: usize = 0;
        while i2 < self.litmap.len()
            invariant
                self.wf(),
                self.cnfv() == old(self).cnfv(),
                self.litmap@ == done_litmap,
                sign_consistent(self.litmap@),
                !sign_conflict(orig),
                orig.is_prefix_of(self.litmap@),
                0 <= i2 <= self.litmap@.len(),
                invmap_unique(self.invlitmap@),
                invmap_sound(self.invlitmap@, done_litmap),
                forall|k: int|
                    0 <= k < i2 ==> #[trigger] invmap_has_binding(
                        self.invlitmap@,
                        done_litmap,
                        k,
                    ),
            decreases self.litmap@.len() - i2,
        {
            let p = self.litmap[i2].0.duplicate();
            let l = self.litmap[i2].1;
            let ghost invpre = self.invlitmap@;
            match invmap_find(&self.invlitmap, l) {
                Some(x) => {
                    let key = self.invlitmap[x].0;
                    let mut list = copy_puzlits(&self.invlitmap[x].1);
                    let ghost listpre = self.invlitmap@[x as int].1@;
                    list.push(p);
                    self.invlitmap.set(x, (key, list));
                    proof {
                        assert(invmap_sound(self.invlitmap@, done_litmap)) by {
                            assert forall|e: int, j: int|
                                0 <= e < self.invlitmap@.len() && 0 <= j
                                    < self.invlitmap@[e].1@.len() implies litmap_has(
                                done_litmap,
                                (#[trigger] self.invlitmap@[e].1@[j])@,
                                self.invlitmap@[e].0 as int,
                            ) by {
                                if e == x {
                                    if j < listpre.len() {
                                        assert(self.invlitmap@[e].1@[j]@ == invpre[x as int].1@[
                                            j
                                        ]@);
                                        assert(litmap_has(
                                            done_litmap,
                                            invpre[x as int].1@[j]@,
                                            invpre[x as int].0 as int,
                                        ));
                                    } else {
                                        assert(self.invlitmap@[e].1@[j]@ == done_litmap[
                                            i2 as int
                                        ].0@);
                                        assert(litmap_has(
                                            done_litmap,
                                            done_litmap[i2 as int].0@,
                                            done_litmap[i2 as int].1 as int,
                                        ));
                                    }
                                } else {
                                    assert(self.invlitmap@[e] == invpre[e]);
                                }
                            }
                        }
                        assert forall|k: int|
                            0 <= k < i2 + 1 implies #[trigger] invmap_has_binding(
                            self.invlitmap@,
                            done_litmap,
                            k,
                        ) by {
                            if k < i2 {
                                assert(invmap_has_binding(invpre, done_litmap, k));
                                let (e, j) = choose|e: int, j: int|
                                    #[trigger] invmap_entry_at(invpre, done_litmap, k, e, j);
                                if e == x {
                                    assert(self.invlitmap@[e].0 == invpre[e].0);
                                    assert(self.invlitmap@[e].1@[j]@ == invpre[e].1@[j]@);
                                    assert(invmap_entry_at(
                                        self.invlitmap@,
                                        done_litmap,
                                        k,
                                        e,
                                        j,
                                    ));
                                } else {
                                    assert(self.invlitmap@[e] == invpre[e]);
                                    assert(invmap_entry_at(
                                        self.invlitmap@,
                                        done_litmap,
                                        k,
                                        e,
                                        j,
                                    ));
                                }
                            } else {
                                assert(self.invlitmap@[x as int].0 == l);
                                assert(self.invlitmap@[x as int].1@[listpre.len() as int]@
                                    == done_litmap[i2 as int].0@);
                                assert(invmap_entry_at(
                                    self.invlitmap@,
                                    done_litmap,
                                    k,
                                    x as int,
                                    listpre.len() as int,
                                ));
                            }
                        }
                        assert(invmap_unique(self.invlitmap@)) by {
                            assert forall|a: int, b: int|
                                0 <= a < b < self.invlitmap@.len() implies (
                            #[trigger] self.invlitmap@[a]).0 != (#[trigger] self.invlitmap@[
                                b
                            ]).0 by {
                                assert(self.invlitmap@[a].0 == invpre[a].0);
                                assert(self.invlitmap@[b].0 == invpre[b].0);
                            }
                        }
                    }
                },
                None => {
                    let mut list: Vec<PuzLit> = Vec::new();
                    list.push(p);
                    self.invlitmap.push((l, list));
                    proof {
                        assert(self.invlitmap@.drop_last() =~= invpre);
                        assert(invmap_sound(self.invlitmap@, done_litmap)) by {
                            assert forall|e: int, j: int|
                                0 <= e < self.invlitmap@.len() && 0 <= j
                                    < self.invlitmap@[e].1@.len() implies litmap_has(
                                done_litmap,
                                (#[trigger] self.invlitmap@[e].1@[j])@,
                                self.invlitmap@[e].0 as int,
                            ) by {
                                if e < invpre.len() {
                                    assert(self.invlitmap@[e] == invpre[e]);
                                } else {
                                    assert(self.invlitmap@[e].1@[j]@ == done_litmap[
                                        i2 as int
                                    ].0@);
                                    assert(litmap_has(
                                        done_litmap,
                                        done_litmap[i2 as int].0@,
                                        done_litmap[i2 as int].1 as int,
                                    ));
                                }
                            }
                        }
                        assert forall|k: int|
                            0 <= k < i2 + 1 implies #[trigger] invmap_has_binding(
                            self.invlitmap@,
                            done_litmap,
                            k,
                        ) by {
                            if k < i2 {
                                assert(invmap_has_binding(invpre, done_litmap, k));
                                let (e, j) = choose|e: int, j: int|
                                    #[trigger] invmap_entry_at(invpre, done_litmap, k, e, j);
                                assert(self.invlitmap@[e] == invpre[e]);
                                assert(invmap_entry_at(self.invlitmap@, done_litmap, k, e, j));
                            } else {
                                assert(self.invlitmap@[invpre.len() as int].0 == l);
                                assert(self.invlitmap@[invpre.len() as int].1@[0]@
                                    == done_litmap[i2 as int].0@);
                                assert(invmap_entry_at(
                                    self.invlitmap@,
                                    done_litmap,
                                    k,
                                    invpre.len() as int,
                                    0,
                                ));
                            }
                        }
                        assert(invmap_unique(self.invlitmap@)) by {
                            assert forall|a: int, b: int|
                                0 <= a < b < self.invlitmap@.len() implies (
                            #[trigger] self.invlitmap@[a]).0 != (#[trigger] self.invlitmap@[
                                b
                            ]).0 by {
                                if b < invpre.len() {
                                    assert(self.invlitmap@[a].0 == invpre[a].0);
                                    assert(self.invlitmap@[b].0 == invpre[b].0);
                                } else {
                                    assert(self.invlitmap@[a].0 == invpre[a].0);
                                    assert(self.invlitmap@[b].0 == l);
                                }
                            }
                        }
                    }
                },
            }
            i2 += 1;
        }
        proof {
            assert(invmap_covers(self.invlitmap@, done_litmap)) by {
                assert forall|k: int|
                    0 <= k < done_litmap.len() implies #[trigger] invmap_has_binding(
                    self.invlitmap@,
                    done_litmap,
                    k,
                ) by {
                    assert(0 <= k < i2);
                }
            }
            assert(invmap_inverts(self.invlitmap@, done_litmap));
        }

        // Build the domains.
        let mut i3: usize = 0;
        while i3 < self.litmap.len()
            invariant
                self.wf(),
                self.cnfv() == old(self).cnfv(),
                self.litmap@ == done_litmap,
                sign_consistent(self.litmap@),
                !sign_conflict(orig),
                orig.is_prefix_of(self.litmap@),
                invmap_unique(self.invlitmap@),
                invmap_inverts(self.invlitmap@, done_litmap),
            decreases self.litmap@.len() - i3,
        {
            if self.litmap[i3].0.sign() {
                let var = self.litmap[i3].0.var();
                let val = self.litmap[i3].0.val();
                let mut idx: Option<usize> = None;
                let mut k: usize = 0;
                while k < self.domainmap.len()
                    invariant
                        0 <= k <= self.domainmap@.len(),
                        idx matches Some(x) ==> 0 <= x < self.domainmap@.len(),
                    decreases self.domainmap@.len() - k,
                {
                    if &self.domainmap[k].0 == &var {
                        idx = Some(k);
                    }
                    k += 1;
                }
                match idx {
                    Some(x) => {
                        let pair = self.domainmap.swap_remove(x);
                        let (key, mut vals) = pair;
                        if !i64_contains(&vals, val) {
                            vals.push(val);
                        }
                        self.domainmap.push((key, vals));
                    },
                    None => {
                        let mut vals: Vec<i64> = Vec::new();
                        vals.push(val);
                        self.domainmap.push((var, vals));
                    },
                }
            }
            i3 += 1;
        }

        // Classify every literal by the name it belongs to.
        let mut i4: usize = 0;
        while i4 < self.litmap.len()
            invariant
                self.wf(),
                self.cnfv() == old(self).cnfv(),
                self.litmap@ == done_litmap,
                sign_consistent(self.litmap@),
                !sign_conflict(orig),
                orig.is_prefix_of(self.litmap@),
                invmap_unique(self.invlitmap@),
                invmap_inverts(self.invlitmap@, done_litmap),
            decreases self.litmap@.len() - i4,
        {
            let p = &self.litmap[i4].0;
            let l = self.litmap[i4].1;
            proof {
                assert(valid_lit(self.litmap@[i4 as int].1 as int));
            }
            let var = p.var();
            let name = var.name().clone();
            let is_sign = p.sign();
            if names_contains(&self.eprime.vars, name.as_str()) {
                let ghost pre = self.varset_lits@;
                let next = crate::litvec::insert_sorted(&self.varset_lits, l);
                self.varset_lits = next;
                if !is_sign {
                    let next_neg = crate::litvec::insert_sorted(&self.varset_lits_neg, l);
                    self.varset_lits_neg = next_neg;
                }
            } else if names_contains(&self.eprime.auxvars, name.as_str()) {
                let next = crate::litvec::insert_sorted(&self.auxset_lits, l);
                self.auxset_lits = next;
            } else if assoc_get(&self.eprime.cons, name.as_str()).is_some() {
                // Constraint literals are handled below.
            } else if names_contains(&self.eprime.reveal_values, name.as_str()) {
                // Reveal targets are wired below.
            } else {
                return Err(ParseError::new("cannot identify a literal's name"));
            }
            i4 += 1;
        }

        // Wire the reveal relations.
        let mut i5: usize = 0;
        while i5 < self.litmap.len()
            invariant
                self.wf(),
                self.cnfv() == old(self).cnfv(),
                self.litmap@ == done_litmap,
                sign_consistent(self.litmap@),
                !sign_conflict(orig),
                orig.is_prefix_of(self.litmap@),
                invmap_unique(self.invlitmap@),
                invmap_inverts(self.invlitmap@, done_litmap),
            decreases self.litmap@.len() - i5,
        {
            let p = self.litmap[i5].0.duplicate();
            let l = self.litmap[i5].1;
            proof {
                assert(valid_lit(self.litmap@[i5 as int].1 as int));
            }
            let name = p.var().name().clone();
            if p.sign() {
                if let Some(target) = assoc_get(&self.eprime.reveal, name.as_str()) {
                    let target = target.clone();
                    let src_indices = p.var();
                    let old_indices = src_indices.indices();
                    let mut indices: Vec<i64> = Vec::new();
                    let mut q: usize = 0;
                    while q < old_indices.len()
                        invariant
                            0 <= q <= old_indices@.len(),
                        decreases old_indices@.len() - q,
                    {
                        indices.push(old_indices[q]);
                        q += 1;
                    }
                    indices.push(p.val());
                    let target_var = PuzVar::new(target.as_str(), indices);
                    let target_pair = VarValPair::new(&target_var, 1);
                    let target_lit = PuzLit::new_eq(target_pair);
                    match litmap_get(&self.litmap, &target_lit) {
                        Some(tl) => {
                            let mut seen = false;
                            let mut q2: usize = 0;
                            while q2 < self.reveal_map.len()
                                invariant
                                    0 <= q2 <= self.reveal_map@.len(),
                                decreases self.reveal_map@.len() - q2,
                            {
                                if self.reveal_map[q2].0 == l {
                                    seen = true;
                                }
                                q2 += 1;
                            }
                            if seen {
                                return Err(ParseError::new("some variable is used in two reveal relations"));
                            }
                            proof {
                                assert(valid_lit(tl as int)) by {
                                    let w = choose|w: int|
                                        0 <= w < self.litmap@.len() && (#[trigger] self.litmap@[
                                            w
                                        ]).0@ == target_lit@ && self.litmap@[w].1 as int == tl as int;
                                    assert(valid_lit(self.litmap@[w].1 as int));
                                }
                            }
                            self.reveal_map.push((l, tl));
                        },
                        None => {
                            // No such target literal: nothing to wire.
                        },
                    }
                }
            }
            i5 += 1;
        }

        // Check and name the constraints.
        let all_vars = self.all_var_related_lits();
        let mut used: Vec<String> = Vec::new();
        let mut i6: usize = 0;
        while i6 < self.domainmap.len()
            invariant
                self.wf(),
                self.cnfv() == old(self).cnfv(),
                self.litmap@ == done_litmap,
                sign_consistent(self.litmap@),
                !sign_conflict(orig),
                orig.is_prefix_of(self.litmap@),
                invmap_unique(self.invlitmap@),
                invmap_inverts(self.invlitmap@, done_litmap),
                crate::litvec::sorted_lits(all_vars@),
                valid_lits(lit_seq(all_vars@)),
                forall|k: int|
                    0 <= k < i6 && assoc_has(
                        self.eprime.cons@,
                        (#[trigger] self.domainmap@[k]).0@.name,
                    ) ==> domain_is_boolean(self.domainmap@[k].1@),
            decreases self.domainmap@.len() - i6,
        {
            let var = self.domainmap[i6].0.duplicate();
            let has_template = assoc_get(&self.eprime.cons, var.name().as_str()).is_some();
            if has_template {
                let template = match assoc_get(&self.eprime.cons, var.name().as_str()) {
                    Some(t) => t.clone(),
                    None => {
                        return Err(ParseError::new("constraint template vanished"));
                    },
                };
                if !i64_contains(&self.domainmap[i6].1, 0) {
                    return Err(ParseError::new("a constraint cannot be made false"));
                }
                if !i64_contains(&self.domainmap[i6].1, 1) {
                    return Err(ParseError::new("a constraint cannot be made true"));
                }
                if self.domainmap[i6].1.len() != 2 {
                    return Err(ParseError::new("a constraint's domain is not 0 and 1"));
                }
                let rendered = match parse_constraint_name(
                    template.as_str(),
                    &self.eprime.params,
                    var.indices(),
                ) {
                    Ok(n) => n,
                    Err(e) => {
                        return Err(e);
                    },
                };
                if names_contains(&used, rendered.as_str()) {
                    return Err(ParseError::new("a constraint name is used twice"));
                }
                used.push(rendered.clone());
                let puzlit = PuzLit::new_eq(VarValPair::new(&var, 1));
                let lit = match litmap_get(&self.litmap, &puzlit) {
                    Some(l) => l,
                    None => {
                        return Err(ParseError::new("a constraint has no literal"));
                    },
                };
                proof {
                    assert(valid_lit(lit as int)) by {
                        let w = choose|w: int|
                            0 <= w < self.litmap@.len() && (#[trigger] self.litmap@[w]).0@
                                == puzlit@ && self.litmap@[w].1 as int == lit as int;
                        assert(valid_lit(self.litmap@[w].1 as int));
                    }
                }
                if conset_get(&self.conset, lit).is_some() {
                    return Err(ParseError::new("internal error: repeated constraint literal"));
                }
                self.conset.push((lit, rendered));
                let next_conset = crate::litvec::insert_sorted(&self.conset_lits, lit);
                self.conset_lits = next_conset;
                let connections = crate::connect::find_var_connections(&self.cnf, &all_vars, lit);
                self.varlits_in_con.push((lit, connections));
                proof {
                    assert forall|q: int|
                        0 <= q < self.varlits_in_con@.len() implies valid_lits(
                        lit_seq((#[trigger] self.varlits_in_con@[q]).1@),
                    ) by {}
                }
            }
            i6 += 1;
        }
        proof {
            assert(invmap_inverts(self.invlitmap@, self.litmap@));
        }
        Ok(())
    }
}

} // verus!
