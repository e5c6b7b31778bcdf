//! General laws of the language, proved over its semantics.

use vstd::prelude::*;
use crate::condition::{clause_value, condition_value, conjunction, op_greater, op_is, op_less, op_not};
use crate::env::{fault, lookup, EnvModel, ErrorKind, Fault, TableModel};
use crate::interp::{
    after, chain_stop, condition_text, if_stop, lemma_scan_within, next_index, opens_block, run_at, run_chain, run_range, scan, State,
    statement,
};
use crate::literal::{interpolate, interpolate_from, literal_value, quoted_by};
use crate::number::int_literal;
use crate::text::{find, has_prefix, lemma_find_from_bounds, trimmed};
use crate::value::{display, Val};

verus! {

/// Keywords, quoted text and integers always parse, whatever the table of
/// double readings holds, and always to the same value.
pub proof fn lemma_literal_total(tok: Seq<char>, env: EnvModel, ft: TableModel, other: TableModel)
    requires
        ({
            let t = trimmed(tok);
            t == "true"@ || t == "false"@ || t == "nothing"@ || quoted_by(t, '\'') || quoted_by(t, '"')
                || int_literal(t) is Some
        }),
    ensures
        literal_value(tok, env, ft) is Ok,
        literal_value(tok, env, ft) == literal_value(tok, env, other),
{
}

/// Text without `{` comes out of interpolation unchanged.
pub proof fn lemma_interpolate_plain(s: Seq<char>, env: EnvModel)
    requires
        forall|i: int| 0 <= i < s.len() ==> s[i] != '{',
    ensures
        interpolate(s, env) == s,
{
    lemma_interpolate_plain_from(s, 0, env);
    assert(s.subrange(0, s.len() as int) =~= s);
}

proof fn lemma_interpolate_plain_from(s: Seq<char>, i: int, env: EnvModel)
    requires
        0 <= i <= s.len(),
        forall|m: int| 0 <= m < s.len() ==> s[m] != '{',
    ensures
        interpolate_from(s, i, env) == s.subrange(i, s.len() as int),
    decreases s.len() - i,
{
    if i < s.len() {
        lemma_interpolate_plain_from(s, i + 1, env);
        assert(seq![s[i]] + s.subrange(i + 1, s.len() as int) =~= s.subrange(i, s.len() as int));
    } else {
        assert(s.subrange(i, s.len() as int) =~= Seq::<char>::empty());
    }
}

/// A conjunction whose parts evaluate without fault is true exactly when
/// both parts are, wherever the evaluation stops.
pub proof fn lemma_conjunction(s: Seq<char>, k: int, env: EnvModel, ft: TableModel, a: bool, b: bool)
    requires
        find(s, conjunction()) == Some(k),
        clause_value(trimmed(s.subrange(0, k)), env, ft) == Ok::<bool, Fault>(a),
        condition_value(s.subrange(k + conjunction().len(), s.len() as int), env, ft) == Ok::<bool, Fault>(b),
    ensures
        condition_value(s, env, ft) == Ok::<bool, Fault>(a && b),
{
}

/// The clauses of a condition, trimmed, in the order they are written.
pub open spec fn clauses(s: Seq<char>) -> Seq<Seq<char>>
    decreases s.len()
        via clauses_decreases
{
    match find(s, conjunction()) {
        None => seq![trimmed(s)],
        Some(k) => seq![trimmed(s.subrange(0, k))] + clauses(s.subrange(k + conjunction().len(), s.len() as int)),
    }
}

#[via_fn]
proof fn clauses_decreases(s: Seq<char>) {
    reveal_strlit(" and ");
    lemma_find_from_bounds(s, conjunction(), 0);
}

/// When no clause of a condition faults, the condition is true exactly when
/// every clause is: the result is the conjunction of all of them, which
/// neither the point where evaluation stops nor the order of the clauses
/// changes.
pub proof fn lemma_conjunction_all(s: Seq<char>, env: EnvModel, ft: TableModel)
    requires
        forall|k: int| 0 <= k < clauses(s).len() ==> #[trigger] clause_value(clauses(s)[k], env, ft) is Ok,
    ensures
        condition_value(s, env, ft) == Ok::<bool, Fault>(
            forall|k: int| 0 <= k < clauses(s).len() ==> #[trigger] clause_value(clauses(s)[k], env, ft) == Ok::<bool, Fault>(true),
        ),
    decreases s.len(),
{
    reveal_strlit(" and ");
    lemma_find_from_bounds(s, conjunction(), 0);
    match find(s, conjunction()) {
        None => {
            let cs = clauses(s);
            assert(cs.len() == 1 && cs[0] == trimmed(s));
            assert(clause_value(cs[0], env, ft) is Ok);
            if clause_value(cs[0], env, ft) == Ok::<bool, Fault>(true) {
                assert forall|j: int| 0 <= j < cs.len() implies #[trigger] clause_value(cs[j], env, ft) == Ok::<bool, Fault>(true) by {
                    assert(j == 0);
                }
                assert(condition_value(s, env, ft) == Ok::<bool, Fault>(true));
            } else {
                let x = clause_value(cs[0], env, ft)->Ok_0;
                assert(clause_value(cs[0], env, ft) == Ok::<bool, Fault>(x));
                assert(!x);
            }
        },
        Some(k) => {
            let rest = s.subrange(k + conjunction().len(), s.len() as int);
            let cs = clauses(s);
            assert(cs[0] == trimmed(s.subrange(0, k)));
            assert forall|j: int| 0 <= j < clauses(rest).len() implies #[trigger] clause_value(clauses(rest)[j], env, ft) is Ok by {
                assert(cs[j + 1] == clauses(rest)[j]);
            }
            lemma_conjunction_all(rest, env, ft);
            assert(clause_value(cs[0], env, ft) is Ok);
            if clause_value(cs[0], env, ft) == Ok::<bool, Fault>(true) {
                let all_rest = forall|j: int| 0 <= j < clauses(rest).len() ==> #[trigger] clause_value(clauses(rest)[j], env, ft) == Ok::<bool, Fault>(true);
                let all = forall|j: int| 0 <= j < cs.len() ==> #[trigger] clause_value(cs[j], env, ft) == Ok::<bool, Fault>(true);
                if all_rest {
                    assert forall|j: int| 0 <= j < cs.len() implies #[trigger] clause_value(cs[j], env, ft) == Ok::<bool, Fault>(true) by {
                        if j > 0 {
                            assert(cs[j] == clauses(rest)[j - 1]);
                        }
                    }
                } else {
                    let j = choose|j: int| 0 <= j < clauses(rest).len() && !(#[trigger] clause_value(clauses(rest)[j], env, ft) == Ok::<bool, Fault>(true));
                    assert(cs[j + 1] == clauses(rest)[j]);
                }
                assert(all == all_rest);
                assert(condition_value(s, env, ft) == condition_value(rest, env, ft));
            } else {
                assert(condition_value(s, env, ft) == Ok::<bool, Fault>(false));
                assert(!(clause_value(cs[0], env, ft) == Ok::<bool, Fault>(true)));
            }
        },
    }
}

/// Equality compares display text: a clause `v is r` is true exactly when
/// the variable's display text equals the literal's, whatever kinds of
/// value they are.
pub proof fn lemma_equality_by_text(v: Seq<char>, r: Seq<char>, env: EnvModel, ft: TableModel, lv: Val, constant: bool, rv: Val)
    requires
        find(v + op_is() + r, op_greater()) is None,
        find(v + op_is() + r, op_less()) is None,
        find(v + op_is() + r, op_not()) is None,
        find(v + op_is() + r, op_is()) == Some(v.len() as int),
        lookup(env, trimmed(v)) == Some((lv, constant)),
        literal_value(r, env, ft) == Ok::<Val, Fault>(rv),
    ensures
        clause_value(v + op_is() + r, env, ft) == Ok::<bool, Fault>(display(lv) == display(rv)),
{
    reveal(clause_value);
    let c = v + op_is() + r;
    assert(c.subrange(0, v.len() as int) =~= v);
    assert(c.subrange(v.len() + op_is().len() as int, c.len() as int) =~= r);
}

/// A constant can never be reassigned: a `becomes` line that names one
/// fails and leaves the state as it was.
pub proof fn lemma_constant_kept(line: Seq<char>, k: int, st: State, ft: TableModel, v: Val)
    requires
        line.len() > 0,
        !has_prefix(line, "//"@),
        !has_prefix(line, "let "@),
        !has_prefix(line, "constant "@),
        find(line, " becomes "@) == Some(k),
        lookup(st.env, trimmed(line.subrange(0, k))) == Some((v, true)),
    ensures
        statement(line, st, ft) == (st, Some(fault(ErrorKind::ConstantReassignment, trimmed(line.subrange(0, k))))),
{
}

/// A value declared by `let` or `constant` and then printed by name shows
/// as its display text.
pub proof fn lemma_declare_then_print(
    decl: Seq<char>,
    print: Seq<char>,
    name: Seq<char>,
    v: Val,
    constant: bool,
    st: State,
    ft: TableModel,
)
    requires
        statement(decl, st, ft) == (State { env: st.env.push((name, v, constant)), out: st.out }, None::<Fault>),
        print.len() > 0,
        !has_prefix(print, "//"@),
        !has_prefix(print, "let "@),
        !has_prefix(print, "constant "@),
        find(print, " becomes "@) is None,
        has_prefix(print, "call print with "@),
        trimmed(after(print, "call print with "@)) == name,
        name.len() > 0 && name[0] != '"' && name[0] != '\'',
    ensures
        statement(print, statement(decl, st, ft).0, ft) == (
            State { env: st.env.push((name, v, constant)), out: st.out.push(display(v)) },
            None::<Fault>,
        ),
{
    let env2 = st.env.push((name, v, constant));
    assert(env2.last().0 == name);
    assert(lookup(env2, name) == Some((v, constant)));
}

/// A closed block ends at an `end` line: the first line at which the count
/// of `if` lines opened since line `i` minus the `end` lines drops to zero.
/// All of its own markers stand before it, and the run goes on after it.
pub proof fn lemma_block_end(ls: Seq<Seq<char>>, i: int)
    requires
        0 <= i < ls.len(),
        opens_block(trimmed(ls[i])),
        scan(ls, i).closed,
    ensures
        i < scan(ls, i).end_idx < ls.len(),
        trimmed(ls[scan(ls, i).end_idx]) == "end"@,
        forall|m: int| 0 <= m < scan(ls, i).else_ifs.len() ==> i < #[trigger] scan(ls, i).else_ifs[m] < scan(ls, i).end_idx,
        scan(ls, i).else_idx matches Some(e) ==> i < e < scan(ls, i).end_idx,
        next_index(ls, i) == scan(ls, i).end_idx + 1,
{
    lemma_scan_within(ls, i);
}

/// Of an `if` with an `else` and no `else if`, the `if` body runs when the
/// condition holds and the `else` body otherwise, never both.
pub proof fn lemma_if_else(ls: Seq<Seq<char>>, i: int, e: int, st: State, ft: TableModel, b: bool)
    requires
        0 <= i < ls.len(),
        opens_block(trimmed(ls[i])),
        scan(ls, i).closed,
        scan(ls, i).else_ifs.len() == 0,
        scan(ls, i).else_idx == Some(e),
        condition_value(condition_text(trimmed(ls[i]), "if "@), st.env, ft) == Ok::<bool, Fault>(b),
    ensures
        b ==> run_at(ls, i, st, ft) == run_range(ls, i + 1, e, st, ft),
        !b ==> run_at(ls, i, st, ft) == run_range(ls, e + 1, scan(ls, i).end_idx, st, ft),
{
    lemma_scan_within(ls, i);
    if !b {
        assert(run_chain(ls, i, 0, st, ft) == run_range(ls, e + 1, scan(ls, i).end_idx, st, ft));
    }
}

/// Of an `if` with `else if` branches, the first branch whose condition
/// holds runs, and only that one: when the `if` and the branches before the
/// `m`-th fail and the `m`-th holds, the block runs exactly that body.
pub proof fn lemma_first_true_branch(ls: Seq<Seq<char>>, i: int, m: int, st: State, ft: TableModel)
    requires
        0 <= i < ls.len(),
        opens_block(trimmed(ls[i])),
        scan(ls, i).closed,
        condition_value(condition_text(trimmed(ls[i]), "if "@), st.env, ft) == Ok::<bool, Fault>(false),
        0 <= m < scan(ls, i).else_ifs.len(),
        forall|n: int|
            0 <= n < m ==> condition_value(
                condition_text(trimmed(ls[#[trigger] scan(ls, i).else_ifs[n]]), "else if "@),
                st.env,
                ft,
            ) == Ok::<bool, Fault>(false),
        condition_value(condition_text(trimmed(ls[scan(ls, i).else_ifs[m]]), "else if "@), st.env, ft)
            == Ok::<bool, Fault>(true),
    ensures
        run_at(ls, i, st, ft) == run_range(ls, scan(ls, i).else_ifs[m] + 1, chain_stop(scan(ls, i), m), st, ft),
{
    lemma_chain_skips(ls, i, 0, m, st, ft);
}

proof fn lemma_chain_skips(ls: Seq<Seq<char>>, i: int, n: int, m: int, st: State, ft: TableModel)
    requires
        0 <= i < ls.len(),
        0 <= n <= m < scan(ls, i).else_ifs.len(),
        forall|q: int|
            0 <= q < m ==> condition_value(
                condition_text(trimmed(ls[#[trigger] scan(ls, i).else_ifs[q]]), "else if "@),
                st.env,
                ft,
            ) == Ok::<bool, Fault>(false),
        condition_value(condition_text(trimmed(ls[scan(ls, i).else_ifs[m]]), "else if "@), st.env, ft)
            == Ok::<bool, Fault>(true),
    ensures
        run_chain(ls, i, n, st, ft) == run_range(ls, scan(ls, i).else_ifs[m] + 1, chain_stop(scan(ls, i), m), st, ft),
    decreases m - n,
{
    if n < m {
        lemma_chain_skips(ls, i, n + 1, m, st, ft);
    }
}

/// When no condition of an `if` block holds, its `else` body runs if it has
/// one; without one nothing runs and the state is unchanged.
pub proof fn lemma_no_condition_holds(ls: Seq<Seq<char>>, i: int, st: State, ft: TableModel)
    requires
        0 <= i < ls.len(),
        opens_block(trimmed(ls[i])),
        scan(ls, i).closed,
        condition_value(condition_text(trimmed(ls[i]), "if "@), st.env, ft) == Ok::<bool, Fault>(false),
        forall|n: int|
            0 <= n < scan(ls, i).else_ifs.len() ==> condition_value(
                condition_text(trimmed(ls[#[trigger] scan(ls, i).else_ifs[n]]), "else if "@),
                st.env,
                ft,
            ) == Ok::<bool, Fault>(false),
    ensures
        run_at(ls, i, st, ft) == match scan(ls, i).else_idx {
            Some(e) => run_range(ls, e + 1, scan(ls, i).end_idx, st, ft),
            None => (st, None::<Fault>),
        },
{
    lemma_chain_none(ls, i, 0, st, ft);
}

proof fn lemma_chain_none(ls: Seq<Seq<char>>, i: int, n: int, st: State, ft: TableModel)
    requires
        0 <= i < ls.len(),
        0 <= n <= scan(ls, i).else_ifs.len(),
        forall|q: int|
            0 <= q < scan(ls, i).else_ifs.len() ==> condition_value(
                condition_text(trimmed(ls[#[trigger] scan(ls, i).else_ifs[q]]), "else if "@),
                st.env,
                ft,
            ) == Ok::<bool, Fault>(false),
    ensures
        run_chain(ls, i, n, st, ft) == match scan(ls, i).else_idx {
            Some(e) => run_range(ls, e + 1, scan(ls, i).end_idx, st, ft),
            None => (st, None::<Fault>),
        },
    decreases scan(ls, i).else_ifs.len() - n,
{
    if n < scan(ls, i).else_ifs.len() {
        lemma_chain_none(ls, i, n + 1, st, ft);
    }
}

/// Of an `if` whose condition holds, only the `if` body runs.
pub proof fn lemma_if_branch(ls: Seq<Seq<char>>, i: int, st: State, ft: TableModel)
    requires
        0 <= i < ls.len(),
        opens_block(trimmed(ls[i])),
        scan(ls, i).closed,
        condition_value(condition_text(trimmed(ls[i]), "if "@), st.env, ft) == Ok::<bool, Fault>(true),
    ensures
        run_at(ls, i, st, ft) == run_range(ls, i + 1, if_stop(scan(ls, i)), st, ft),
{
}

} // verus!
