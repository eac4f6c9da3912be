//! The library's own representation of instance parameters.
//!
//! The outside world reads parameter files as JSON; the engine only ever
//! needs plain values, so they are modelled by this type and converted at
//! the boundary.

use vstd::prelude::*;

verus! {

/// A parameter value: what an instance file can hold.
///
/// The CSP compiler writes arrays as maps keyed `1..n`, so an "array" often
/// arrives as a `Dict` with integer-looking keys.
#[derive(Debug)]
pub enum ParamValue {
    Null,
    Bool(bool),
    Int(i64),
    Text(String),
    List(Vec<ParamValue>),
    Dict(Vec<(String, ParamValue)>),
}

/// A parameter list has an entry with this name and value.
pub open spec fn params_has(s: Seq<(String, ParamValue)>, name: Seq<char>) -> bool {
    exists|i: int| 0 <= i < s.len() && (#[trigger] s[i]).0@ == name
}

/// The value of the first entry with this name.
pub open spec fn params_at(s: Seq<(String, ParamValue)>, name: Seq<char>) -> ParamValue
    decreases s.len(),
{
    if s.len() == 0 {
        ParamValue::Null
    } else if s[0].0@ == name {
        s[0].1
    } else {
        params_at(s.drop_first(), name)
    }
}

/// Looks a parameter up by name.
pub fn params_get<'a>(s: &'a Vec<(String, ParamValue)>, name: &str) -> (r: Option<
    &'a ParamValue,
>)
    ensures
        match r {
            Some(v) => params_has(s@, name@) && *v == params_at(s@, name@),
            None => !params_has(s@, name@),
        },
{
    let mut i: usize = 0;
    while i < s.len()
        invariant
            0 <= i <= s@.len(),
            forall|k: int| 0 <= k < i ==> (#[trigger] s@[k]).0@ != name@,
        decreases s@.len() - i,
    {
        if crate::strutil::str_eq(s[i].0.as_str(), name) {
            proof {
                lemma_params_at_found(s@, name@, i as int);
            }
            return Some(&s[i].1);
        }
        i += 1;
    }
    None
}

/// The first matching entry determines `params_at`.
proof fn lemma_params_at_found(s: Seq<(String, ParamValue)>, name: Seq<char>, i: int)
    requires
        0 <= i < s.len(),
        s[i].0@ == name,
        forall|k: int| 0 <= k < i ==> (#[trigger] s[k]).0@ != name,
    ensures
        params_has(s, name),
        params_at(s, name) == s[i].1,
    decreases i,
{
    if i > 0 {
        assert forall|k: int| 0 <= k < i - 1 implies (#[trigger] s.drop_first()[k]).0@ != name by {
            assert(s.drop_first()[k] == s[k + 1]);
        }
        assert(s.drop_first()[i - 1] == s[i]);
        lemma_params_at_found(s.drop_first(), name, i - 1);
    }
}

} // verus!
