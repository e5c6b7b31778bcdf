//! Conditions: clauses joined by ` and `, each comparing a variable with a
//! literal by one of four operators.

use vstd::prelude::*;
use crate::env::{fault, lookup, Env, EnvModel, ErrorKind, Fault, FloatTable, RunError, TableModel};
use crate::literal::{literal_value, parse_literal};
use crate::text::{chars_equal, chars_of, find, find_exec, lemma_find_from_bounds, slice_range, trim, trimmed};
use crate::value::{display, order_key, Val, Value};

verus! {

pub open spec fn op_greater() -> Seq<char> {
    " is greater than "@
}

pub open spec fn op_less() -> Seq<char> {
    " is less than "@
}

pub open spec fn op_not() -> Seq<char> {
    " is not "@
}

pub open spec fn op_is() -> Seq<char> {
    " is "@
}

pub open spec fn conjunction() -> Seq<char> {
    " and "@
}

/// The variable before the operator at `k` and the literal after it.
pub open spec fn operands(c: Seq<char>, k: int, op_len: int, env: EnvModel, ft: TableModel) -> Result<
    (Val, Val),
    Fault,
> {
    let name = trimmed(c.subrange(0, k));
    match lookup(env, name) {
        None => Err(fault(ErrorKind::UndeclaredVariable, name)),
        Some(b) => match literal_value(c.subrange(k + op_len, c.len() as int), env, ft) {
            Err(e) => Err(e),
            Ok(r) => Ok((b.0, r)),
        },
    }
}

/// `a > b` for numbers compared as doubles (false where NaN is involved);
/// a fault naming the clause where either is no number.
pub open spec fn greater(a: Val, b: Val, c: Seq<char>) -> Result<bool, Fault> {
    match (order_key(a), order_key(b)) {
        (Some(x), Some(y)) => Ok(
            x is Some && y is Some && x->Some_0 > y->Some_0,
        ),
        _ => Err(fault(ErrorKind::NotANumber, c)),
    }
}

#[verifier::opaque]
/// The truth of one trimmed clause. The operators are tried in a fixed
/// order, each at its first occurrence.
pub open spec fn clause_value(c: Seq<char>, env: EnvModel, ft: TableModel) -> Result<bool, Fault> {
    if let Some(k) = find(c, op_greater()) {
        match operands(c, k, op_greater().len() as int, env, ft) {
            Err(e) => Err(e),
            Ok((l, r)) => greater(l, r, c),
        }
    } else if let Some(k) = find(c, op_less()) {
        match operands(c, k, op_less().len() as int, env, ft) {
            Err(e) => Err(e),
            Ok((l, r)) => greater(r, l, c),
        }
    } else if let Some(k) = find(c, op_not()) {
        match operands(c, k, op_not().len() as int, env, ft) {
            Err(e) => Err(e),
            Ok((l, r)) => Ok(display(l) != display(r)),
        }
    } else if let Some(k) = find(c, op_is()) {
        match operands(c, k, op_is().len() as int, env, ft) {
            Err(e) => Err(e),
            Ok((l, r)) => Ok(display(l) == display(r)),
        }
    } else {
        Err(fault(ErrorKind::BadCondition, c))
    }
}

/// The truth of a condition: its clauses from left to right, stopping at
/// the first that is false or faulty.
pub open spec fn condition_value(s: Seq<char>, env: EnvModel, ft: TableModel) -> Result<bool, Fault>
    decreases s.len()
        via condition_decreases
{
    match find(s, conjunction()) {
        None => clause_value(trimmed(s), env, ft),
        Some(k) => match clause_value(trimmed(s.subrange(0, k)), env, ft) {
            Err(e) => Err(e),
            Ok(false) => Ok(false),
            Ok(true) => condition_value(s.subrange(k + conjunction().len(), s.len() as int), env, ft),
        },
    }
}

#[via_fn]
proof fn condition_decreases(s: Seq<char>, env: EnvModel, ft: TableModel) {
    reveal_strlit(" and ");
    lemma_find_from_bounds(s, conjunction(), 0);
}

fn compare_greater(l: &Value, r: &Value, c: &Vec<char>) -> (res: Result<bool, RunError>)
    ensures
        res matches Ok(b) ==> greater(l@, r@, c@) == Ok::<bool, Fault>(b),
        res matches Err(e) ==> greater(l@, r@, c@) == Err::<bool, Fault>(e@),
{
    let a = l.number_key();
    let b = r.number_key();
    match (a, b) {
        (Ok(x), Ok(y)) => Ok(
            match (x, y) {
                (Some(p), Some(q)) => p > q,
                _ => false,
            },
        ),
        _ => Err(RunError { kind: ErrorKind::NotANumber, subject: c.clone() }),
    }
}

/// Which operator a clause uses: 0 to 3 in the order of `clause_value`, with
/// the position and length of its first occurrence.
fn split_clause(c: &[char]) -> (r: Option<(u8, usize, usize)>)
    ensures
        r matches Some((w, k, n)) ==> k + n <= c@.len() && {
            &&& w == 0 ==> find(c@, op_greater()) == Some(k as int) && n == op_greater().len()
            &&& w == 1 ==> find(c@, op_greater()) is None && find(c@, op_less()) == Some(k as int) && n == op_less().len()
            &&& w == 2 ==> find(c@, op_greater()) is None && find(c@, op_less()) is None
                && find(c@, op_not()) == Some(k as int) && n == op_not().len()
            &&& w == 3 ==> find(c@, op_greater()) is None && find(c@, op_less()) is None
                && find(c@, op_not()) is None && find(c@, op_is()) == Some(k as int) && n == op_is().len()
            &&& w <= 3
        },
        r is None ==> find(c@, op_greater()) is None && find(c@, op_less()) is None
            && find(c@, op_not()) is None && find(c@, op_is()) is None,
{
    let g = chars_of(" is greater than ");
    if let Some(k) = find_exec(c, g.as_slice()) {
        return Some((0, k, g.len()));
    }
    let l = chars_of(" is less than ");
    if let Some(k) = find_exec(c, l.as_slice()) {
        return Some((1, k, l.len()));
    }
    let n = chars_of(" is not ");
    if let Some(k) = find_exec(c, n.as_slice()) {
        return Some((2, k, n.len()));
    }
    let i = chars_of(" is ");
    if let Some(k) = find_exec(c, i.as_slice()) {
        return Some((3, k, i.len()));
    }
    None
}

/// Evaluates one trimmed clause.
pub fn eval_clause(c: &Vec<char>, env: &Env, ft: &FloatTable) -> (r: Result<bool, RunError>)
    ensures
        r matches Ok(b) ==> clause_value(c@, env@, ft@) == Ok::<bool, Fault>(b),
        r matches Err(e) ==> clause_value(c@, env@, ft@) == Err::<bool, Fault>(e@),
{
    reveal(clause_value);
    let split = split_clause(c.as_slice());
    if split.is_none() {
        return Err(RunError { kind: ErrorKind::BadCondition, subject: c.clone() });
    }
    let (w, k, n) = split.unwrap();
    assert(k + n <= c@.len());
    proof {
        lemma_find_from_bounds(c@, op_greater(), 0);
        lemma_find_from_bounds(c@, op_less(), 0);
        lemma_find_from_bounds(c@, op_not(), 0);
        lemma_find_from_bounds(c@, op_is(), 0);
    }
    let left = slice_range(c.as_slice(), 0, k);
    let name = trim(left.as_slice());
    let lhs = match env.get(name.as_slice()) {
        Some(v) => v,
        None => {
            return Err(RunError { kind: ErrorKind::UndeclaredVariable, subject: name });
        },
    };
    let len = c.len();
    let right = slice_range(c.as_slice(), k + n, len);
    let rhs = match parse_literal(right.as_slice(), env, ft) {
        Ok(v) => v,
        Err(e) => {
            return Err(e);
        },
    };
    if w == 0 {
        compare_greater(&lhs, &rhs, c)
    } else if w == 1 {
        compare_greater(&rhs, &lhs, c)
    } else {
        let same = chars_equal(lhs.to_text().as_slice(), rhs.to_text().as_slice());
        if w == 2 {
            Ok(!same)
        } else {
            Ok(same)
        }
    }
}

/// Evaluates a condition against the bindings.
pub fn eval_condition(s: &[char], env: &Env, ft: &FloatTable) -> (r: Result<bool, RunError>)
    ensures
        r matches Ok(b) ==> condition_value(s@, env@, ft@) == Ok::<bool, Fault>(b),
        r matches Err(e) ==> condition_value(s@, env@, ft@) == Err::<bool, Fault>(e@),
{
    let sep = chars_of(" and ");
    proof {
        reveal_strlit(" and ");
    }
    let mut rest = slice_range(s, 0, s.len());
    assert(rest@ =~= s@);
    loop
        invariant
            sep@ == conjunction(),
            sep@.len() == 5,
            condition_value(s@, env@, ft@) == condition_value(rest@, env@, ft@),
        decreases rest@.len(),
    {
        match find_exec(rest.as_slice(), sep.as_slice()) {
            None => {
                let c = trim(rest.as_slice());
                return eval_clause(&c, env, ft);
            },
            Some(k) => {
                proof {
                    lemma_find_from_bounds(rest@, conjunction(), 0);
                }
                let c = trim(slice_range(rest.as_slice(), 0, k).as_slice());
                match eval_clause(&c, env, ft) {
                    Err(e) => {
                        return Err(e);
                    },
                    Ok(false) => {
                        return Ok(false);
                    },
                    Ok(true) => {},
                }
                let len = rest.len();
                rest = slice_range(rest.as_slice(), k + sep.len(), len);
            },
        }
    }
}

} // verus!
