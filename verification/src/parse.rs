//! Parsing of the compiled puzzle's text: model-file annotations, the
//! DIMACS clauses, and the variable-mapping comments the SAT compiler
//! leaves in them.
//!
//! Reading files and running the CSP toolchain happen outside the library;
//! these functions take the file contents as plain lines.

use vstd::prelude::*;

use crate::cnf::{cnf_view, lit_seq, valid_cnf, valid_lit, valid_lits};
use crate::model::{PuzLit, PuzVar, VarValPair};
use crate::puzzle::{assoc_get, assoc_has, names_contains, names_has, ParseError, PuzzleParse};
use crate::strutil::{all_digits, chars_of, dec_val, is_digit_char, parse_u64_digits, str_eq, string_from_chars};

verus! {

/// The position of the last underscore in `s`, or a negative number if it
/// has none.
pub open spec fn last_underscore(s: Seq<char>) -> int
    decreases s.len(),
{
    if s.len() == 0 {
        -1
    } else if s[s.len() - 1] == '_' {
        s.len() - 1
    } else {
        last_underscore(s.drop_last())
    }
}

/// The digit characters of the index group after the underscore at `p`:
/// everything after it, less a leading `n`.
pub open spec fn group_digits(s: Seq<char>, p: int) -> Seq<char> {
    let tail = s.subrange(p + 1, s.len() as int);
    if tail.len() > 0 && tail[0] == 'n' {
        tail.drop_first()
    } else {
        tail
    }
}

/// Whether the group after the underscore at `p` denies a negative value.
pub open spec fn group_negated(s: Seq<char>, p: int) -> bool {
    let tail = s.subrange(p + 1, s.len() as int);
    tail.len() > 0 && tail[0] == 'n'
}

/// Whether the underscore at `p` ends the name with a well-formed index
/// group: five or more digits whose value fits a signed 64-bit integer.
pub open spec fn group_ok(s: Seq<char>, p: int) -> bool {
    &&& group_digits(s, p).len() >= 5
    &&& all_digits(group_digits(s, p))
    &&& dec_val(group_digits(s, p)) <= 0x7fff_ffff_ffff_ffff
}

/// The signed value of the index group after the underscore at `p`.
pub open spec fn group_value(s: Seq<char>, p: int) -> int {
    if group_negated(s, p) {
        -(dec_val(group_digits(s, p)) as int)
    } else {
        dec_val(group_digits(s, p)) as int
    }
}

/// The base of a compiled variable name: what remains after stripping every
/// trailing well-formed index group, right to left.
pub open spec fn split_base(s: Seq<char>) -> Seq<char>
    decreases s.len(),
{
    let p = last_underscore(s);
    if p < 0 || p >= s.len() {
        s
    } else if group_ok(s, p) {
        if p == 0 {
            Seq::empty()
        } else {
            split_base(s.subrange(0, p))
        }
    } else {
        s
    }
}

/// The indices of a compiled variable name, left to right.
pub open spec fn split_indices(s: Seq<char>) -> Seq<int>
    decreases s.len(),
{
    let p = last_underscore(s);
    if p < 0 || p >= s.len() {
        Seq::empty()
    } else if group_ok(s, p) {
        (if p == 0 {
            Seq::<int>::empty()
        } else {
            split_indices(s.subrange(0, p))
        }).push(group_value(s, p))
    } else {
        Seq::empty()
    }
}

/// A reversed integer list, as mathematical integers.
pub open spec fn rev_ints(s: Seq<i64>) -> Seq<int>
    decreases s.len(),
{
    if s.len() == 0 {
        Seq::empty()
    } else {
        seq![s.last() as int] + rev_ints(s.drop_last())
    }
}

proof fn lemma_rev_ints_len(s: Seq<i64>)
    ensures
        rev_ints(s).len() == s.len(),
    decreases s.len(),
{
    if s.len() > 0 {
        lemma_rev_ints_len(s.drop_last());
    }
}

proof fn lemma_rev_ints_index(s: Seq<i64>, i: int)
    requires
        0 <= i < s.len(),
    ensures
        rev_ints(s).len() == s.len(),
        rev_ints(s)[i] == s[s.len() - 1 - i] as int,
    decreases s.len(),
{
    lemma_rev_ints_len(s);
    if i > 0 {
        lemma_rev_ints_index(s.drop_last(), i - 1);
    }
}

proof fn lemma_rev_ints_push(s: Seq<i64>, x: i64)
    ensures
        rev_ints(s.push(x)) =~= seq![x as int] + rev_ints(s),
{
    assert(s.push(x).drop_last() =~= s);
    assert(s.push(x).last() == x);
}

/// A name whose last underscore stands at `p` has that underscore and none
/// later.
proof fn lemma_last_underscore_at(s: Seq<char>, p: int)
    requires
        0 <= p < s.len(),
        s[p] == '_',
        forall|k: int| p < k < s.len() ==> s[k] != '_',
    ensures
        last_underscore(s) == p,
    decreases s.len(),
{
    if p < s.len() - 1 {
        assert(s[s.len() - 1] != '_');
        assert(s.drop_last() =~= s.subrange(0, s.len() - 1));
        assert(s.drop_last()[p] == s[p]);
        assert forall|k: int| p < k < s.drop_last().len() implies s.drop_last()[k] != '_' by {
            assert(s.drop_last()[k] == s[k]);
        }
        lemma_last_underscore_at(s.drop_last(), p);
    }
}

proof fn lemma_last_underscore_none(s: Seq<char>)
    requires
        forall|k: int| 0 <= k < s.len() ==> s[k] != '_',
    ensures
        last_underscore(s) < 0,
    decreases s.len(),
{
    if s.len() > 0 {
        assert forall|k: int| 0 <= k < s.drop_last().len() implies s.drop_last()[k] != '_' by {
            assert(s.drop_last()[k] == s[k]);
        }
        lemma_last_underscore_none(s.drop_last());
    }
}

/// Splits a compiled variable name into its base name and indices: each
/// trailing `_NNNNN` group of five or more digits, optionally prefixed `n`
/// for a negative value, is an index.  The base name is a prefix of the
/// input.
pub fn split_savile_row_name(n: &str) -> (r: (String, Vec<i64>))
    ensures
        chars_prefix(n@, r.0@),
        r.0@ == split_base(n@),
        r.1@.map_values(|v: i64| v as int) == split_indices(n@),
{
    let chars = chars_of(n);
    let mut end: usize = chars.len();
    let mut indices_rev: Vec<i64> = Vec::new();
    proof {
        assert(chars@.subrange(0, chars@.len() as int) =~= n@);
    }
    loop
        invariant
            0 <= end <= chars@.len(),
            chars@ == n@,
            split_base(n@) == split_base(chars@.subrange(0, end as int)),
            split_indices(n@) =~= split_indices(chars@.subrange(0, end as int)) + rev_ints(
                indices_rev@,
            ),
        ensures
            split_base(n@) == chars@.subrange(0, end as int),
            split_indices(n@) =~= rev_ints(indices_rev@),
        decreases end,
    {
        let ghost prefix = chars@.subrange(0, end as int);
        // Find the last underscore before `end`.
        let mut pos: Option<usize> = None;
        let mut k: usize = 0;
        while k < end
            invariant
                0 <= k <= end <= chars@.len(),
                pos matches Some(p) ==> 0 <= p < k && chars@[p as int] == '_' && (forall|k2: int|
                    p < k2 < k ==> chars@[k2] != '_'),
                pos is None ==> forall|k2: int| 0 <= k2 < k ==> chars@[k2] != '_',
            decreases end - k,
        {
            if chars[k] == '_' {
                pos = Some(k);
            }
            k += 1;
        }
        let p = match pos {
            Some(p) => p,
            None => {
                proof {
                    assert forall|k2: int| 0 <= k2 < prefix.len() implies prefix[k2] != '_' by {
                        assert(prefix[k2] == chars@[k2]);
                    }
                    lemma_last_underscore_none(prefix);
                }
                break;
            },
        };
        proof {
            assert(prefix[p as int] == '_');
            assert forall|k2: int| p < k2 < prefix.len() implies prefix[k2] != '_' by {
                assert(prefix[k2] == chars@[k2]);
            }
            lemma_last_underscore_at(prefix, p as int);
        }
        // The candidate index is everything after the underscore.
        let mut digits: Vec<char> = Vec::new();
        let mut negate = false;
        let mut q: usize = p + 1;
        if q < end && chars[q] == 'n' {
            negate = true;
            q += 1;
        }
        let digit_start = q;
        proof {
            assert(group_negated(prefix, p as int) == negate);
            assert(group_digits(prefix, p as int) =~= chars@.subrange(
                digit_start as int,
                end as int,
            ));
        }
        let mut ok = true;
        while q < end
            invariant
                digit_start <= q <= end <= chars@.len(),
                digits@.len() == q - digit_start,
                ok <==> forall|k2: int|
                    digit_start <= k2 < q ==> '0' <= #[trigger] chars@[k2] <= '9',
                ok ==> digits@ =~= chars@.subrange(digit_start as int, q as int),
            decreases end - q,
        {
            if is_digit_char(chars[q]) {
                digits.push(chars[q]);
            } else {
                ok = false;
                digits.push('0');
            }
            proof {
                if ok {
                    assert(chars@.subrange(digit_start as int, q + 1) =~= chars@.subrange(
                        digit_start as int,
                        q as int,
                    ).push(chars@[q as int]));
                }
            }
            q += 1;
        }
        if !ok || digits.len() < 5 {
            proof {
                let gd = group_digits(prefix, p as int);
                if !ok {
                    let bad = choose|k2: int|
                        digit_start <= k2 < end && !('0' <= #[trigger] chars@[k2] <= '9');
                    assert(gd[bad - digit_start] == chars@[bad]);
                    assert(!all_digits(gd));
                } else {
                    assert(gd.len() < 5);
                }
                assert(!group_ok(prefix, p as int));
            }
            break;
        }
        let value = match parse_u64_digits(&digits) {
            Some(v) => v,
            None => {
                proof {
                    let gd = group_digits(prefix, p as int);
                    assert(gd =~= digits@);
                    if gd.len() > 0 && all_digits(gd) && dec_val(gd) <= u64::MAX {
                        assert(false);
                    }
                    assert(!group_ok(prefix, p as int));
                }
                break;
            },
        };
        if value > 0x7fff_ffff_ffff_ffffu64 {
            proof {
                let gd = group_digits(prefix, p as int);
                assert(gd =~= digits@);
                assert(!group_ok(prefix, p as int));
            }
            break;
        }
        let signed: i64 = if negate {
            -(value as i64)
        } else {
            value as i64
        };
        proof {
            let gd = group_digits(prefix, p as int);
            assert(gd =~= digits@);
            assert(group_ok(prefix, p as int));
            assert(group_value(prefix, p as int) == signed as int);
            assert(chars@.subrange(0, p as int) =~= prefix.subrange(0, p as int));
            lemma_rev_ints_push(indices_rev@, signed);
            if p == 0 {
                assert(split_base(prefix) =~= Seq::<char>::empty());
                assert(Seq::<char>::empty() =~= chars@.subrange(0, 0));
                assert(split_base(chars@.subrange(0, 0)) =~= chars@.subrange(0, 0));
                assert(split_indices(prefix) =~= split_indices(chars@.subrange(0, 0)).push(
                    group_value(prefix, p as int),
                ));
                assert(split_indices(n@) =~= split_indices(chars@.subrange(0, 0)) + rev_ints(
                    indices_rev@.push(signed),
                ));
            } else {
                assert(split_base(prefix) == split_base(chars@.subrange(0, p as int)));
                assert(split_indices(prefix) =~= split_indices(chars@.subrange(0, p as int)).push(
                    group_value(prefix, p as int),
                ));
                assert(split_indices(n@) =~= split_indices(chars@.subrange(0, p as int))
                    + rev_ints(indices_rev@.push(signed)));
            }
        }
        indices_rev.push(signed);
        if p == 0 {
            end = 0;
            proof {
                assert(split_base(n@) == chars@.subrange(0, 0));
            }
            break;
        }
        end = p;
    }
    let mut base: Vec<char> = Vec::new();
    let mut b: usize = 0;
    while b < end
        invariant
            0 <= b <= end <= chars@.len(),
            chars@ == n@,
            base@ =~= chars@.subrange(0, b as int),
        decreases end - b,
    {
        base.push(chars[b]);
        proof {
            assert(chars@.subrange(0, b + 1) =~= chars@.subrange(0, b as int).push(
                chars@[b as int],
            ));
        }
        b += 1;
    }
    let mut indices: Vec<i64> = Vec::new();
    let mut r: usize = indices_rev.len();
    proof {
        lemma_rev_ints_len(indices_rev@);
    }
    while r > 0
        invariant
            0 <= r <= indices_rev@.len(),
            indices@.len() == indices_rev@.len() - r,
            forall|t: int|
                0 <= t < indices@.len() ==> #[trigger] indices@[t] == indices_rev@[indices_rev@.len() - 1 - t],
        decreases r,
    {
        r -= 1;
        indices.push(indices_rev[r]);
    }
    proof {
        assert(indices@.map_values(|v: i64| v as int) =~= rev_ints(indices_rev@)) by {
            lemma_rev_ints_len(indices_rev@);
            assert forall|t: int|
                0 <= t < indices@.len() implies indices@.map_values(|v: i64| v as int)[t]
                == rev_ints(indices_rev@)[t] by {
                lemma_rev_ints_index(indices_rev@, t);
            }
        }
    }
    (string_from_chars(&base), indices)
}

/// Recognises a compiled variable name against the declared names: the
/// result names a declared decision variable, constraint, or reveal name,
/// with its indices; names of auxiliaries and of the CSP compiler's own
/// helpers give `None`.
pub fn parse_savile_row_name(parse: &PuzzleParse, n: &str) -> (r: Result<
    Option<PuzVar>,
    ParseError,
>)
    ensures
        r is Ok,
        r matches Ok(Some(v)) ==> v@.name == split_base(n@) && v@.indices.map_values(
            |x: i64| x as int,
        ) == split_indices(n@),
        (r matches Ok(o) && o is Some) <==> (names_has(parse.eprime.vars@, split_base(n@))
            || assoc_has(parse.eprime.cons@, split_base(n@)) || assoc_has(
            parse.eprime.reveal@,
            split_base(n@),
        ) || names_has(parse.eprime.reveal_values@, split_base(n@))),
{
    let (name, indices) = split_savile_row_name(n);
    let matches_vars = names_contains(&parse.eprime.vars, name.as_str());
    let matches_cons = assoc_get(&parse.eprime.cons, name.as_str()).is_some();
    let matches_reveal = assoc_get(&parse.eprime.reveal, name.as_str()).is_some();
    let matches_reveal_values = names_contains(&parse.eprime.reveal_values, name.as_str());
    if matches_vars || matches_cons || matches_reveal || matches_reveal_values {
        Ok(Some(PuzVar::new(name.as_str(), indices)))
    } else {
        Ok(None)
    }
}

/// The names read from one model file, before checking.
pub struct ModelNames {
    /// The decision variables.
    pub vars: Vec<String>,
    /// Puzzle-level names: accepted, not deduced on.
    pub puzzle_names: Vec<String>,
    /// The auxiliary variables.
    pub auxvars: Vec<String>,
    /// Constraint names and templates.
    pub cons: Vec<(String, String)>,
    /// Reveal relations.
    pub reveal: Vec<(String, String)>,
    /// The puzzle kind, at most one.
    pub kind: Option<String>,
}

/// Whether one string starts with another.
pub fn starts_with(s: &Vec<char>, prefix: &str) -> (r: bool)
    ensures
        r == chars_prefix(s@, prefix@),
{
    let p = chars_of(prefix);
    if p.len() > s.len() {
        return false;
    }
    let mut i: usize = 0;
    while i < p.len()
        invariant
            0 <= i <= p@.len() <= s@.len(),
            p@ == prefix@,
            forall|k: int| 0 <= k < i ==> s@[k] == p@[k],
        decreases p@.len() - i,
    {
        if s[i] != p[i] {
            return false;
        }
        i += 1;
    }
    true
}

/// Whether `p` is a prefix of `s`.
pub open spec fn chars_prefix(s: Seq<char>, p: Seq<char>) -> bool {
    p.len() <= s.len() && forall|k: int| 0 <= k < p.len() ==> s[k] == p[k]
}

/// Splits a line into whitespace-separated words.
pub fn split_whitespace_chars(s: &Vec<char>) -> (r: Vec<Vec<char>>) {
    let mut out: Vec<Vec<char>> = Vec::new();
    let mut cur: Vec<char> = Vec::new();
    let mut i: usize = 0;
    while i < s.len()
        decreases s@.len() - i,
    {
        let c = s[i];
        if c == ' ' || c == '\t' || c == '\r' || c == '\n' {
            if cur.len() > 0 {
                out.push(cur);
                cur = Vec::new();
            }
        } else {
            cur.push(c);
        }
        i += 1;
    }
    if cur.len() > 0 {
        out.push(cur);
    }
    out
}

/// Reads the `$#` annotations of a model file: the declared names, the
/// constraint templates, the reveal relations and the puzzle kind.  No name
/// may be declared twice, be a prefix of another, or otherwise break the
/// rules of §the model format.
pub fn parse_model_annotations(lines: &Vec<String>) -> (r: Result<ModelNames, ParseError>)
    ensures
        r matches Ok(m) ==> no_prefix_pair(
            m.vars@ + m.puzzle_names@ + m.auxvars@ + m.reveal@.map_values(
                |p: (String, String)| p.1,
            ),
        ),
{
    let mut names = ModelNames {
        vars: Vec::new(),
        puzzle_names: Vec::new(),
        auxvars: Vec::new(),
        cons: Vec::new(),
        reveal: Vec::new(),
        kind: None,
    };
    let mut all_names: Vec<String> = Vec::new();
    let mut i: usize = 0;
    while i < lines.len()
        decreases lines@.len() - i,
    {
        let chars = chars_of(lines[i].as_str());
        let has_marker = {
            let mut found = false;
            if chars.len() >= 2 {
                let mut k: usize = 0;
                while k < chars.len() - 1
                    invariant
                        chars@.len() >= 2,
                        0 <= k <= chars@.len() - 1,
                    decreases chars@.len() - k,
                {
                    if chars[k] == '$' && chars[k + 1] == '#' {
                        found = true;
                    }
                    k += 1;
                }
            }
            found
        };
        if has_marker {
            let words = split_whitespace_chars(&chars);
            if starts_with(&chars, "$#VAR") {
                if words.len() < 2 {
                    return Err(ParseError::new("a variable line names no variable"));
                }
                let v = string_from_chars(&words[1]);
                if names_contains(&all_names, v.as_str()) {
                    return Err(ParseError::new("a name is declared twice"));
                }
                all_names.push(v.clone());
                names.vars.push(v);
            } else if starts_with(&chars, "$#PUZZLE") {
                if words.len() < 2 {
                    return Err(ParseError::new("a puzzle line names nothing"));
                }
                let v = string_from_chars(&words[1]);
                if names_contains(&all_names, v.as_str()) {
                    return Err(ParseError::new("a name is declared twice"));
                }
                all_names.push(v.clone());
                names.puzzle_names.push(v);
            } else if starts_with(&chars, "$#CON") {
                match parse_con_line(&chars) {
                    Some((con_name, template)) => {
                        if names_contains(&all_names, con_name.as_str()) {
                            return Err(ParseError::new("a name is declared twice"));
                        }
                        all_names.push(con_name.clone());
                        names.cons.push((con_name, template));
                    },
                    None => {
                        return Err(ParseError::new("a constraint line has no quoted template"));
                    },
                }
            } else if starts_with(&chars, "$#AUX") {
                if words.len() < 2 {
                    return Err(ParseError::new("an auxiliary line names no variable"));
                }
                let v = string_from_chars(&words[1]);
                if names_contains(&all_names, v.as_str()) {
                    return Err(ParseError::new("a name is declared twice"));
                }
                all_names.push(v.clone());
                names.auxvars.push(v);
            } else if starts_with(&chars, "$#KIND") {
                if words.len() < 2 {
                    return Err(ParseError::new("a kind line names no kind"));
                }
                if names.kind.is_some() {
                    return Err(ParseError::new("the kind is declared twice"));
                }
                names.kind = Some(string_from_chars(&words[1]));
            } else if starts_with(&chars, "$#REVEAL ") {
                if words.len() != 3 {
                    return Err(ParseError::new(
                        "a reveal line must name a source and a target",
                    ));
                }
                let key = string_from_chars(&words[1]);
                let value = string_from_chars(&words[2]);
                if !names_contains(&names.vars, key.as_str()) {
                    return Err(ParseError::new(
                        "a reveal source must first be declared as a variable",
                    ));
                }
                if names_contains(&all_names, value.as_str()) {
                    return Err(ParseError::new("a name is declared twice"));
                }
                all_names.push(value.clone());
                if assoc_get(&names.reveal, key.as_str()).is_some() {
                    return Err(ParseError::new("a variable is used in two reveal relations"));
                }
                names.reveal.push((key, value));
            } else {
                return Err(ParseError::new("an annotation line is not understood"));
            }
        }
        i += 1;
    }
    // No declared name may be a prefix of another.
    let mut combined: Vec<String> = Vec::new();
    append_names(&mut combined, &names.vars);
    let ghost c1 = combined@;
    append_names(&mut combined, &names.puzzle_names);
    let ghost c2 = combined@;
    append_names(&mut combined, &names.auxvars);
    let ghost base_len = combined@.len();
    let ghost pre_loop = combined@;
    proof {
        assert forall|k: int| 0 <= k < names.vars@.len() implies (#[trigger] pre_loop[k])@
            == names.vars@[k]@ by {
            assert(c1[k]@ == names.vars@[k]@) by {
                assert(c1[0 + k]@ == names.vars@[k]@);
            }
            assert(c2[k] == c1[k]);
            assert(pre_loop[k] == c2[k]);
        }
        assert forall|k: int| 0 <= k < names.puzzle_names@.len() implies (#[trigger] pre_loop[
            names.vars@.len() + k
        ])@ == names.puzzle_names@[k]@ by {
            assert(c2[c1.len() + k]@ == names.puzzle_names@[k]@);
            assert(pre_loop[c1.len() + k] == c2[c1.len() + k]);
        }
        assert forall|k: int| 0 <= k < names.auxvars@.len() implies (#[trigger] pre_loop[
            names.vars@.len() + names.puzzle_names@.len() + k
        ])@ == names.auxvars@[k]@ by {
            assert(pre_loop[c2.len() + k]@ == names.auxvars@[k]@);
        }
    }
    let mut ri: usize = 0;
    while ri < names.reveal.len()
        invariant
            0 <= ri <= names.reveal@.len(),
            base_len == pre_loop.len(),
            combined@.len() == base_len + ri,
            forall|k: int| 0 <= k < base_len ==> combined@[k] == pre_loop[k],
            forall|k: int|
                0 <= k < ri ==> (#[trigger] combined@[base_len + k])@ == names.reveal@[k].1@,
        decreases names.reveal@.len() - ri,
    {
        combined.push(names.reveal[ri].1.clone());
        ri += 1;
    }
    if !check_no_prefix_pair(&combined) {
        return Err(ParseError::new("one name is a prefix of another"));
    }
    proof {
        let whole = names.vars@ + names.puzzle_names@ + names.auxvars@
            + names.reveal@.map_values(|p: (String, String)| p.1);
        assert forall|i: int, j: int|
            0 <= i < whole.len() && 0 <= j < whole.len() && i != j implies !chars_prefix(
            (#[trigger] whole[j])@,
            (#[trigger] whole[i])@,
        ) by {
            assert forall|k: int| 0 <= k < base_len implies (#[trigger] combined@[k])@
                == pre_loop[k]@ by {
                assert(combined@[k] == pre_loop[k]);
            }
            assert(whole[i]@ == combined@[i]@) by {
                lemma_combined_view(names.vars@, names.puzzle_names@, names.auxvars@,
                    names.reveal@, combined@, base_len as int, i);
            }
            assert(whole[j]@ == combined@[j]@) by {
                lemma_combined_view(names.vars@, names.puzzle_names@, names.auxvars@,
                    names.reveal@, combined@, base_len as int, j);
            }
        }
    }
    Ok(names)
}

/// Each slot of the combined list shows the same characters as the matching
/// slot of the concatenated name lists.
proof fn lemma_combined_view(
    vars: Seq<String>,
    puzzle_names: Seq<String>,
    auxvars: Seq<String>,
    reveal: Seq<(String, String)>,
    combined: Seq<String>,
    base_len: int,
    i: int,
)
    requires
        base_len == vars.len() + puzzle_names.len() + auxvars.len(),
        combined.len() == base_len + reveal.len(),
        0 <= i < combined.len(),
        forall|k: int| 0 <= k < vars.len() ==> (#[trigger] combined[k])@ == vars[k]@,
        forall|k: int|
            0 <= k < puzzle_names.len() ==> (#[trigger] combined[vars.len() + k])@
                == puzzle_names[k]@,
        forall|k: int|
            0 <= k < auxvars.len() ==> (#[trigger] combined[vars.len() + puzzle_names.len()
                + k])@ == auxvars[k]@,
        forall|k: int|
            0 <= k < reveal.len() ==> (#[trigger] combined[base_len + k])@ == reveal[k].1@,
    ensures
        ((vars + puzzle_names + auxvars + reveal.map_values(|p: (String, String)| p.1))[i])@
            == combined[i]@,
{
    let whole = vars + puzzle_names + auxvars + reveal.map_values(|p: (String, String)| p.1);
    if i < vars.len() {
        assert(whole[i] == vars[i]);
        assert(combined[i]@ == vars[i]@);
    } else if i < vars.len() + puzzle_names.len() {
        assert(whole[i] == puzzle_names[i - vars.len()]);
        assert(combined[vars.len() + (i - vars.len())]@ == puzzle_names[i - vars.len()]@);
        assert(combined[i] == combined[vars.len() + (i - vars.len())]);
    } else if i < base_len {
        assert(whole[i] == auxvars[i - vars.len() - puzzle_names.len()]);
        assert(combined[vars.len() + puzzle_names.len() + (i - vars.len()
            - puzzle_names.len())]@ == auxvars[i - vars.len() - puzzle_names.len()]@);
        assert(combined[i] == combined[vars.len() + puzzle_names.len() + (i - vars.len()
            - puzzle_names.len())]);
    } else {
        assert(whole[i] == reveal.map_values(|p: (String, String)| p.1)[i - base_len]);
        assert(reveal.map_values(|p: (String, String)| p.1)[i - base_len] == reveal[i
            - base_len].1);
        assert(combined[base_len + (i - base_len)]@ == reveal[i - base_len].1@);
        assert(combined[i] == combined[base_len + (i - base_len)]);
    }
}

/// Appends all names of `src` to `dst`.
fn append_names(dst: &mut Vec<String>, src: &Vec<String>)
    ensures
        final(dst)@.len() == old(dst)@.len() + src@.len(),
        forall|k: int| 0 <= k < old(dst)@.len() ==> final(dst)@[k] == old(dst)@[k],
        forall|k: int|
            0 <= k < src@.len() ==> (#[trigger] final(dst)@[old(dst)@.len() + k])@ == src@[k]@,
{
    let mut i: usize = 0;
    while i < src.len()
        invariant
            0 <= i <= src@.len(),
            dst@.len() == old(dst)@.len() + i,
            forall|k: int| 0 <= k < old(dst)@.len() ==> dst@[k] == old(dst)@[k],
            forall|k: int|
                0 <= k < i ==> (#[trigger] dst@[old(dst)@.len() + k])@ == src@[k]@,
        decreases src@.len() - i,
    {
        dst.push(src[i].clone());
        i += 1;
    }
}

/// No name of the list is a prefix of another.
pub open spec fn no_prefix_pair(s: Seq<String>) -> bool {
    forall|i: int, j: int|
        0 <= i < s.len() && 0 <= j < s.len() && i != j ==> !chars_prefix(
            (#[trigger] s[j])@,
            (#[trigger] s[i])@,
        )
}

/// Checks that no name is a prefix of another.
fn check_no_prefix_pair(v: &Vec<String>) -> (r: bool)
    ensures
        r == no_prefix_pair(v@),
{
    let mut i: usize = 0;
    while i < v.len()
        invariant
            0 <= i <= v@.len(),
            forall|a: int, b: int|
                0 <= a < i && 0 <= b < v@.len() && a != b ==> !chars_prefix(
                    (#[trigger] v@[b])@,
                    (#[trigger] v@[a])@,
                ),
        decreases v@.len() - i,
    {
        let ci = chars_of(v[i].as_str());
        let mut j: usize = 0;
        while j < v.len()
            invariant
                0 <= j <= v@.len(),
                0 <= i < v@.len(),
                ci@ == v@[i as int]@,
                forall|a: int, b: int|
                    0 <= a < i && 0 <= b < v@.len() && a != b ==> !chars_prefix(
                        (#[trigger] v@[b])@,
                        (#[trigger] v@[a])@,
                    ),
                forall|b: int|
                    0 <= b < j && b != i ==> !chars_prefix((#[trigger] v@[b])@, v@[i as int]@),
            decreases v@.len() - j,
        {
            if j != i {
                let cj = chars_of(v[j].as_str());
                if starts_with(&cj, v[i].as_str()) {
                    return false;
                }
            }
            j += 1;
        }
        i += 1;
    }
    true
}

/// Reads a `$#CON name "template"` line: the word after the marker and the
/// text between the first pair of double quotes.
fn parse_con_line(chars: &Vec<char>) -> (r: Option<(String, String)>) {
    let words = split_whitespace_chars(chars);
    if words.len() < 2 {
        return None;
    }
    let con_name = string_from_chars(&words[1]);
    // The template is everything between the first and the last quote.
    let mut first_quote: Option<usize> = None;
    let mut last_quote: Option<usize> = None;
    let mut i: usize = 0;
    while i < chars.len()
        invariant
            0 <= i <= chars@.len(),
            first_quote matches Some(q) ==> 0 <= q < chars@.len(),
            last_quote matches Some(q) ==> 0 <= q < chars@.len(),
        decreases chars@.len() - i,
    {
        if chars[i] == '"' {
            if first_quote.is_none() {
                first_quote = Some(i);
            } else {
                last_quote = Some(i);
            }
        }
        i += 1;
    }
    let fq = match first_quote {
        Some(q) => q,
        None => {
            return None;
        },
    };
    let lq = match last_quote {
        Some(q) => q,
        None => {
            return None;
        },
    };
    if lq <= fq {
        return None;
    }
    let mut template: Vec<char> = Vec::new();
    let mut k: usize = fq + 1;
    while k < lq
        invariant
            fq < k <= lq < chars@.len(),
        decreases lq - k,
    {
        template.push(chars[k]);
        k += 1;
    }
    Some((con_name, string_from_chars(&template)))
}

/// Reads the clauses of a DIMACS file: `c` lines are comments, a `p` line
/// is the header, and every other line lists the literals of clauses, each
/// clause ended by a `0`.  Every literal of the result is valid.
pub fn parse_dimacs_clauses(lines: &Vec<String>) -> (r: Result<Vec<Vec<i32>>, ParseError>)
    ensures
        r matches Ok(cnf) ==> valid_cnf(cnf_view(cnf@)),
{
    let mut cnf: Vec<Vec<i32>> = Vec::new();
    let mut cur: Vec<i32> = Vec::new();
    let mut i: usize = 0;
    while i < lines.len()
        invariant
            0 <= i <= lines@.len(),
            valid_cnf(cnf_view(cnf@)),
            valid_lits(lit_seq(cur@)),
        decreases lines@.len() - i,
    {
        let chars = chars_of(lines[i].as_str());
        let is_comment = chars.len() > 0 && (chars[0] == 'c' || chars[0] == 'p');
        if !is_comment {
            let words = split_whitespace_chars(&chars);
            let mut w: usize = 0;
            while w < words.len()
                invariant
                    0 <= w <= words@.len(),
                    valid_cnf(cnf_view(cnf@)),
                    valid_lits(lit_seq(cur@)),
                decreases words@.len() - w,
            {
                let word = &words[w];
                let (digits, negate) = if word.len() > 0 && word[0] == '-' {
                    let mut d: Vec<char> = Vec::new();
                    let mut k: usize = 1;
                    while k < word.len()
                        invariant
                            1 <= k <= word@.len(),
                        decreases word@.len() - k,
                    {
                        d.push(word[k]);
                        k += 1;
                    }
                    (d, true)
                } else {
                    let mut d: Vec<char> = Vec::new();
                    let mut k: usize = 0;
                    while k < word.len()
                        invariant
                            0 <= k <= word@.len(),
                        decreases word@.len() - k,
                    {
                        d.push(word[k]);
                        k += 1;
                    }
                    (d, false)
                };
                let value = match parse_u64_digits(&digits) {
                    Some(v) => v,
                    None => {
                        return Err(ParseError::new("a clause holds something besides literals"));
                    },
                };
                if value == 0 {
                    let ghost cnf_pre = cnf@;
                    cnf.push(cur);
                    cur = Vec::new();
                    proof {
                        assert forall|k: int|
                            0 <= k < cnf_view(cnf@).len() implies valid_lits(
                            #[trigger] cnf_view(cnf@)[k],
                        ) by {
                            assert(cnf_view(cnf@)[k] == lit_seq(cnf@[k]@));
                            if k < cnf_pre.len() {
                                assert(cnf@[k] == cnf_pre[k]);
                                assert(cnf_view(cnf_pre)[k] == lit_seq(cnf_pre[k]@));
                            }
                        }
                        assert(valid_lits(lit_seq(cur@))) by {
                            assert(cur@ =~= Seq::<i32>::empty());
                        }
                    }
                } else {
                    if value > 0x7fff_ffffu64 {
                        return Err(ParseError::new("a literal is too large for the backend"));
                    }
                    let l: i32 = if negate {
                        -(value as i32)
                    } else {
                        value as i32
                    };
                    let ghost cpre = cur@;
                    cur.push(l);
                    proof {
                        assert forall|k: int| 0 <= k < lit_seq(cur@).len() implies valid_lit(
                            #[trigger] lit_seq(cur@)[k],
                        ) by {
                            assert(lit_seq(cur@)[k] == cur@[k] as int);
                            if k < cpre.len() {
                                assert(lit_seq(cpre)[k] == cpre[k] as int);
                            }
                        }
                    }
                }
                w += 1;
            }
        }
        i += 1;
    }
    Ok(cnf)
}

/// The sentinel the SAT compiler writes for "no literal".
pub const NO_LITERAL_SENTINEL: u64 = 9223372036854775807;

/// Reads the variable-mapping comments of the DIMACS file, filling the
/// direct and order encodings of the parse.  Lines for auxiliaries and for
/// the "no literal" sentinel are skipped.
pub fn parse_dimacs_mapping(lines: &Vec<String>, parse: &mut PuzzleParse) -> (r: Result<
    (),
    ParseError,
>)
    requires
        old(parse).wf(),
    ensures
        final(parse).wf(),
        final(parse).cnfv() == old(parse).cnfv(),
{
    let mut i: usize = 0;
    while i < lines.len()
        invariant
            0 <= i <= lines@.len(),
            parse.wf(),
            parse.cnfv() == old(parse).cnfv(),
        decreases lines@.len() - i,
    {
        let chars = chars_of(lines[i].as_str());
        if starts_with(&chars, "c Var ") {
            match parse_mapping_line(&chars) {
                Some(entry) => {
                    match apply_mapping_entry(parse, &entry) {
                        Ok(()) => {},
                        Err(e) => {
                            return Err(e);
                        },
                    }
                },
                None => {
                    return Err(ParseError::new("a variable-mapping comment is malformed"));
                },
            }
        }
        i += 1;
    }
    Ok(())
}

/// One parsed mapping comment.
pub struct MappingEntry {
    /// The compiled variable name.
    pub name: String,
    /// Whether this is the direct encoding (`false`: the order encoding).
    pub direct: bool,
    /// The represented value.
    pub value: i64,
    /// The SAT literal, as its DIMACS integer.
    pub satlit: i64,
}

/// Reads one `c Var '<name>' <kind> represents '<value>' with '<satlit>'`
/// comment.
fn parse_mapping_line(chars: &Vec<char>) -> (r: Option<MappingEntry>) {
    // The three quoted fields.
    let mut fields: Vec<Vec<char>> = Vec::new();
    let mut cur: Vec<char> = Vec::new();
    let mut in_quote = false;
    let mut i: usize = 0;
    let mut kind_direct = false;
    let mut kind_order = false;
    while i < chars.len()
        invariant
            0 <= i <= chars@.len(),
        decreases chars@.len() - i,
    {
        let c = chars[i];
        if c == '\'' {
            if in_quote {
                fields.push(cur);
                cur = Vec::new();
                in_quote = false;
            } else {
                in_quote = true;
            }
        } else if in_quote {
            cur.push(c);
        }
        i += 1;
    }
    // The encoding kind sits between the first and second quoted field.
    let words = split_whitespace_chars(chars);
    let mut w: usize = 0;
    while w < words.len()
        invariant
            0 <= w <= words@.len(),
        decreases words@.len() - w,
    {
        let word = string_from_chars(&words[w]);
        if str_eq(word.as_str(), "direct") {
            kind_direct = true;
        }
        if str_eq(word.as_str(), "order") {
            kind_order = true;
        }
        w += 1;
    }
    if fields.len() != 3 || (!kind_direct && !kind_order) {
        return None;
    }
    let name = string_from_chars(&fields[0]);
    let value = match parse_signed_i64(&fields[1]) {
        Some(v) => v,
        None => {
            return None;
        },
    };
    let satlit = match parse_signed_i64(&fields[2]) {
        Some(v) => v,
        None => {
            return None;
        },
    };
    Some(MappingEntry { name, direct: kind_direct, value, satlit })
}

/// Reads a decimal integer with an optional leading minus sign.
pub fn parse_signed_i64(digits: &Vec<char>) -> (r: Option<i64>) {
    if digits.len() == 0 {
        return None;
    }
    let negate = digits[0] == '-';
    let mut body: Vec<char> = Vec::new();
    let mut k: usize = if negate {
        1
    } else {
        0
    };
    while k < digits.len()
        invariant
            0 <= k <= digits@.len(),
        decreases digits@.len() - k,
    {
        body.push(digits[k]);
        k += 1;
    }
    let value = match parse_u64_digits(&body) {
        Some(v) => v,
        None => {
            return None;
        },
    };
    if negate {
        if value > 9223372036854775808u64 {
            return None;
        }
        if value == 9223372036854775808u64 {
            return Some(i64::MIN);
        }
        Some(-(value as i64))
    } else {
        if value > 9223372036854775807u64 {
            return None;
        }
        Some(value as i64)
    }
}

/// Applies one mapping comment to the parse: a direct entry binds a puzzle
/// literal; an order entry records the variable's threshold literal.
fn apply_mapping_entry(parse: &mut PuzzleParse, entry: &MappingEntry) -> (r: Result<
    (),
    ParseError,
>)
    requires
        old(parse).wf(),
    ensures
        final(parse).wf(),
        final(parse).cnfv() == old(parse).cnfv(),
{
    let name_chars = chars_of(entry.name.as_str());
    if starts_with(&name_chars, "aux") || starts_with(&name_chars, "conjure_aux") {
        return Ok(());
    }
    if entry.satlit == 9223372036854775807i64 {
        return Ok(());
    }
    if entry.satlit == 0 || entry.satlit > 0x7fff_ffffi64 || entry.satlit < -0x7fff_ffffi64 {
        return Err(ParseError::new("a mapping literal is out of the backend's range"));
    }
    let satlit: i32 = entry.satlit as i32;
    let varid = match parse_savile_row_name(parse, entry.name.as_str()) {
        Ok(Some(v)) => v,
        Ok(None) => {
            return Ok(());
        },
        Err(e) => {
            return Err(e);
        },
    };
    if entry.direct {
        let puzlit = PuzLit::new_eq(VarValPair::new(&varid, entry.value));
        match crate::puzzle::litmap_get(&parse.litmap, &puzlit) {
            Some(_) => {
                return Err(ParseError::new("a puzzle literal is mapped twice"));
            },
            None => {},
        }
        let ghost pre = parse.litmap@;
        parse.litmap.push((puzlit, satlit));
        proof {
            assert forall|a: int, b: int|
                0 <= a < b < parse.litmap@.len() implies (#[trigger] parse.litmap@[a]).0@ != (
            #[trigger] parse.litmap@[b]).0@ by {
                if b < pre.len() {
                    assert(parse.litmap@[a] == pre[a] && parse.litmap@[b] == pre[b]);
                } else if a < pre.len() {
                    assert(parse.litmap@[a] == pre[a]);
                    if parse.litmap@[a].0@ == parse.litmap@[b].0@ {
                        assert(crate::puzzle::litmap_key(pre, parse.litmap@[b].0@));
                    }
                }
            }
            assert forall|a: int|
                0 <= a < parse.litmap@.len() implies valid_lit(
                (#[trigger] parse.litmap@[a]).1 as int,
            ) by {
                if a < pre.len() {
                    assert(parse.litmap@[a] == pre[a]);
                }
            }
        }
        Ok(())
    } else {
        // The order encoding: record the threshold literal, both polarities.
        let mut idx: Option<usize> = None;
        let mut k: usize = 0;
        while k < parse.order_encoding_map.len()
            invariant
                0 <= k <= parse.order_encoding_map@.len(),
                idx matches Some(x) ==> 0 <= x < parse.order_encoding_map@.len(),
            decreases parse.order_encoding_map@.len() - k,
        {
            if &parse.order_encoding_map[k].0 == &varid {
                idx = Some(k);
            }
            k += 1;
        }
        let neg = -satlit;
        match idx {
            Some(x) => {
                let pair = parse.order_encoding_map.swap_remove(x);
                let (key, mut lits) = pair;
                lits.push(satlit);
                lits.push(neg);
                parse.order_encoding_map.push((key, lits));
            },
            None => {
                let mut lits: Vec<i32> = Vec::new();
                lits.push(satlit);
                lits.push(neg);
                parse.order_encoding_map.push((varid.duplicate(), lits));
            },
        }
        let ghost opre = parse.order_encoding_all_lits@;
        parse.order_encoding_all_lits.push(satlit);
        parse.order_encoding_all_lits.push(neg);
        proof {
            assert forall|a: int|
                0 <= a < lit_seq(parse.order_encoding_all_lits@).len() implies valid_lit(
                #[trigger] lit_seq(parse.order_encoding_all_lits@)[a],
            ) by {
                assert(lit_seq(parse.order_encoding_all_lits@)[a]
                    == parse.order_encoding_all_lits@[a] as int);
                if a < opre.len() {
                    assert(lit_seq(opre)[a] == opre[a] as int);
                }
            }
        }
        // Different variables may not share an order literal.
        let mut q: usize = 0;
        let mut clash = false;
        while q < parse.inv_order_encoding_map.len()
            invariant
                0 <= q <= parse.inv_order_encoding_map@.len(),
            decreases parse.inv_order_encoding_map@.len() - q,
        {
            if parse.inv_order_encoding_map[q].0 == satlit
                && !(&parse.inv_order_encoding_map[q].1 == &varid) {
                clash = true;
            }
            q += 1;
        }
        if clash {
            return Err(ParseError::new("an order literal is used for two variables"));
        }
        parse.inv_order_encoding_map.push((satlit, varid.duplicate()));
        parse.inv_order_encoding_map.push((neg, varid));
        Ok(())
    }
}

} // verus!
