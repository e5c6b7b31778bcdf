//! Literal tokens: `true`, `false`, `nothing`, quoted text (with `{name}`
//! placeholders in double quotes), integers, and doubles read by the host.

use vstd::prelude::*;
use crate::env::{
    fault, lookup, reading_of, Env, ErrorKind, Fault, EnvModel, FloatTable, RunError, TableModel,
};
use crate::number::{int_literal, parse_int};
use crate::text::{chars_equal, chars_of, slice_range, trim, trimmed};
use crate::value::{display, FloatNum, Val, Value};

verus! {

/// First index at or after `i` holding `}`, or the length of `s`.
pub open spec fn next_close(s: Seq<char>, i: int) -> int
    decreases s.len() - i,
{
    if i < 0 || i >= s.len() || s[i] == '}' {
        i
    } else {
        next_close(s, i + 1)
    }
}

proof fn lemma_next_close_bounds(s: Seq<char>, i: int)
    requires
        0 <= i,
    ensures
        i <= next_close(s, i),
        i <= s.len() ==> next_close(s, i) <= s.len(),
    decreases s.len() - i,
{
    if i < s.len() && s[i] != '}' {
        lemma_next_close_bounds(s, i + 1);
    }
}

/// What a placeholder turns into: the display text of the variable named by
/// its trimmed text, or a visible marker when there is none.
pub open spec fn substitution(name: Seq<char>, env: EnvModel) -> Seq<char> {
    match lookup(env, trimmed(name)) {
        Some(b) => display(b.0),
        None => "{UNKNOWN:"@ + name + "}"@,
    }
}

/// The text of `s[i..]` with each `{name}` replaced; a placeholder that is not
/// closed runs to the end.
pub open spec fn interpolate_from(s: Seq<char>, i: int, env: EnvModel) -> Seq<char>
    decreases s.len() + 1 - i
        via interpolate_decreases
{
    if i < 0 || i >= s.len() {
        seq![]
    } else if s[i] == '{' {
        let j = next_close(s, i + 1);
        substitution(s.subrange(i + 1, j), env) + interpolate_from(s, j + 1, env)
    } else {
        seq![s[i]] + interpolate_from(s, i + 1, env)
    }
}

#[via_fn]
proof fn interpolate_decreases(s: Seq<char>, i: int, env: EnvModel) {
    if 0 <= i < s.len() && s[i] == '{' {
        lemma_next_close_bounds(s, i + 1);
    }
}

pub open spec fn interpolate(s: Seq<char>, env: EnvModel) -> Seq<char> {
    interpolate_from(s, 0, env)
}

pub open spec fn quoted_by(t: Seq<char>, q: char) -> bool {
    t.len() >= 2 && t[0] == q && t[t.len() - 1] == q
}

/// The value of a literal token, looked up in the order: keywords, single
/// quotes, double quotes, integers, doubles.
pub open spec fn literal_value(tok: Seq<char>, env: EnvModel, ft: TableModel) -> Result<Val, Fault> {
    let t = trimmed(tok);
    if t == "true"@ {
        Ok(Val::Bool(true))
    } else if t == "false"@ {
        Ok(Val::Bool(false))
    } else if t == "nothing"@ {
        Ok(Val::Nothing)
    } else if quoted_by(t, '\'') {
        Ok(Val::Str(t.subrange(1, t.len() - 1)))
    } else if quoted_by(t, '"') {
        Ok(Val::Str(interpolate(t.subrange(1, t.len() - 1), env)))
    } else {
        match int_literal(t) {
            Some(i) => Ok(Val::Integer(i)),
            None => match reading_of(ft, t) {
                None => Err(fault(ErrorKind::UnreadFloat, t)),
                Some(None) => Err(fault(ErrorKind::UnrecognizedLiteral, t)),
                Some(Some((b, x))) => Ok(Val::Float(b, x)),
            },
        }
    }
}

fn substitute(name: &[char], env: &Env) -> (r: Vec<char>)
    ensures
        r@ == substitution(name@, env@),
{
    let key = trim(name);
    match env.get(key.as_slice()) {
        Some(v) => v.to_text(),
        None => {
            let mut r = chars_of("{UNKNOWN:");
            let ghost head = r@;
            r.extend_from_slice(name);
            r.push('}');
            proof {
                reveal_strlit("}");
                assert(r@ =~= head + name@ + "}"@);
            }
            r
        },
    }
}

pub fn interpolate_exec(s: &[char], env: &Env) -> (r: Vec<char>)
    ensures
        r@ == interpolate(s@, env@),
{
    let mut out: Vec<char> = Vec::new();
    let mut i: usize = 0;
    let n = s.len();
    while i < n
        invariant
            n == s@.len(),
            interpolate(s@, env@) == out@ + interpolate_from(s@, i as int, env@),
        decreases n - i,
    {
        if s[i] == '{' {
            let mut j: usize = i + 1;
            proof {
                lemma_next_close_bounds(s@, i + 1);
            }
            while j < n && s[j] != '}'
                invariant
                    i + 1 <= j <= n == s@.len(),
                    next_close(s@, i + 1) == next_close(s@, j as int),
                decreases n - j,
            {
                j = j + 1;
            }
            let name = slice_range(s, i + 1, j);
            let sub = substitute(name.as_slice(), env);
            let ghost before = out@;
            out.extend_from_slice(sub.as_slice());
            assert(out@ == before + sub@);
            assert(before + sub@ + interpolate_from(s@, j + 1, env@) =~= before + (sub@ + interpolate_from(s@, j + 1, env@)));
            if j >= n {
                assert(interpolate_from(s@, j + 1, env@) == Seq::<char>::empty());
                assert(out@ + interpolate_from(s@, j + 1, env@) =~= out@);
                return out;
            }
            i = j + 1;
        } else {
            let ghost before = out@;
            out.push(s[i]);
            assert(before + (seq![s@[i as int]] + interpolate_from(s@, i + 1, env@)) =~= out@ + interpolate_from(s@, i + 1, env@));
            i = i + 1;
        }
    }
    assert(out@ + interpolate_from(s@, i as int, env@) =~= out@);
    out
}

fn quoted_by_exec(t: &[char], q: char) -> (r: bool)
    ensures
        r == quoted_by(t@, q),
{
    t.len() >= 2 && t[0] == q && t[t.len() - 1] == q
}

/// Parses a literal token against the current bindings and the host's
/// readings of doubles.
pub fn parse_literal(tok: &[char], env: &Env, ft: &FloatTable) -> (r: Result<Value, RunError>)
    ensures
        r matches Ok(v) ==> literal_value(tok@, env@, ft@) == Ok::<Val, Fault>(v@),
        r matches Err(e) ==> literal_value(tok@, env@, ft@) == Err::<Val, Fault>(e@),
{
    let t = trim(tok);
    let ts = t.as_slice();
    if chars_equal(ts, chars_of("true").as_slice()) {
        return Ok(Value::Bool(true));
    }
    if chars_equal(ts, chars_of("false").as_slice()) {
        return Ok(Value::Bool(false));
    }
    if chars_equal(ts, chars_of("nothing").as_slice()) {
        return Ok(Value::Nothing);
    }
    if quoted_by_exec(ts, '\'') {
        return Ok(Value::Str(slice_range(ts, 1, ts.len() - 1)));
    }
    if quoted_by_exec(ts, '"') {
        let inner = slice_range(ts, 1, ts.len() - 1);
        return Ok(Value::Str(interpolate_exec(inner.as_slice(), env)));
    }
    match parse_int(ts) {
        Some(i) => Ok(Value::Integer(i)),
        None => match ft.read(ts) {
            None => Err(RunError { kind: ErrorKind::UnreadFloat, subject: t }),
            Some(None) => Err(RunError { kind: ErrorKind::UnrecognizedLiteral, subject: t }),
            Some(Some(f)) => Ok(Value::Float(FloatNum { bits: f.bits, text: f.text })),
        },
    }
}

} // verus!
