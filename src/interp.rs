//! Statements and nested `if` / `else if` / `else` / `end` blocks, run over
//! an indexed sequence of source lines.

use vstd::prelude::*;
use crate::condition::{condition_value, eval_condition};
use crate::env::{fault, find_binding, lemma_find_binding_bounds, lookup, Env, EnvModel, ErrorKind, Fault, FloatTable, RunError, TableModel};
use crate::literal::{literal_value, parse_literal};
use crate::text::{chars_equal, chars_of, ends_with, find, find_exec, has_prefix, has_suffix, slice_range, starts_with, trim, trimmed};
use crate::value::display;

verus! {

/// What a run has produced so far: the bindings and the printed lines.
pub ghost struct State {
    pub env: EnvModel,
    pub out: Seq<Seq<char>>,
}

pub open spec fn with_env(st: State, env: EnvModel) -> State {
    State { env, out: st.out }
}

pub open spec fn declaration(
    line: Seq<char>,
    rest: Seq<char>,
    sep: Seq<char>,
    constant: bool,
    st: State,
    ft: TableModel,
) -> (State, Option<Fault>) {
    match find(rest, sep) {
        None => (st, Some(fault(ErrorKind::BadStatement, line))),
        Some(k) => {
            let name = trimmed(rest.subrange(0, k));
            if lookup(st.env, name) is Some {
                (st, Some(fault(ErrorKind::Redeclaration, name)))
            } else {
                match literal_value(rest.subrange(k + sep.len(), rest.len() as int), st.env, ft) {
                    Err(e) => (st, Some(e)),
                    Ok(v) => (with_env(st, st.env.push((name, v, constant))), None),
                }
            }
        },
    }
}

pub open spec fn after(line: Seq<char>, prefix: Seq<char>) -> Seq<char> {
    line.subrange(prefix.len() as int, line.len() as int)
}

/// The effect of one line that opens no block, given trimmed.
pub open spec fn statement(line: Seq<char>, st: State, ft: TableModel) -> (State, Option<Fault>) {
    if line.len() == 0 || has_prefix(line, "//"@) {
        (st, None)
    } else if has_prefix(line, "let "@) {
        declaration(line, after(line, "let "@), " be "@, false, st, ft)
    } else if has_prefix(line, "constant "@) {
        declaration(line, after(line, "constant "@), " is "@, true, st, ft)
    } else if let Some(k) = find(line, " becomes "@) {
        let name = trimmed(line.subrange(0, k));
        let i = find_binding(st.env, name);
        if i < 0 {
            (st, Some(fault(ErrorKind::UndeclaredVariable, name)))
        } else if st.env[i].2 {
            (st, Some(fault(ErrorKind::ConstantReassignment, name)))
        } else {
            match literal_value(line.subrange(k + " becomes "@.len(), line.len() as int), st.env, ft) {
                Err(e) => (st, Some(e)),
                Ok(v) => (with_env(st, st.env.update(i, (name, v, false))), None),
            }
        }
    } else if has_prefix(line, "call print with "@) {
        let tok = trimmed(after(line, "call print with "@));
        let v = if tok.len() > 0 && (tok[0] == '"' || tok[0] == '\'') {
            literal_value(tok, st.env, ft)
        } else {
            match lookup(st.env, tok) {
                None => Err(fault(ErrorKind::UndeclaredVariable, tok)),
                Some(b) => Ok(b.0),
            }
        };
        match v {
            Err(e) => (st, Some(e)),
            Ok(v) => (State { env: st.env, out: st.out.push(display(v)) }, None),
        }
    } else {
        (st, Some(fault(ErrorKind::BadStatement, line)))
    }
}

/// The markers of one `if` block: its `end`, and its own `else if` and
/// `else` lines (those at nesting depth one).
pub ghost struct Scan {
    pub end_idx: int,
    pub else_ifs: Seq<int>,
    pub else_idx: Option<int>,
    /// Whether a matching `end` was found.
    pub closed: bool,
}

pub open spec fn opens_block(l: Seq<char>) -> bool {
    has_prefix(l, "if "@)
}

/// One step of the scan at line `j`, where `depth` counts the blocks open
/// before it.
pub open spec fn scan_from(ls: Seq<Seq<char>>, j: int, depth: int, acc: Scan) -> Scan
    decreases ls.len() - j,
{
    if j < 0 || j >= ls.len() {
        acc
    } else {
        let l = trimmed(ls[j]);
        let d = depth + (if opens_block(l) { 1int } else { 0 }) - (if l == "end"@ { 1int } else { 0 });
        let a1 = if d == 1 && has_prefix(l, "else if "@) {
            Scan { else_ifs: acc.else_ifs.push(j), ..acc }
        } else {
            acc
        };
        let a2 = if d == 1 && l == "else"@ && a1.else_idx is None {
            Scan { else_idx: Some(j), ..a1 }
        } else {
            a1
        };
        if d == 0 {
            Scan { end_idx: j, closed: true, ..a2 }
        } else {
            scan_from(ls, j + 1, d, a2)
        }
    }
}

pub open spec fn scan_start(i: int) -> Scan {
    Scan { end_idx: i + 1, else_ifs: seq![], else_idx: None, closed: false }
}

/// The scan of the block that the `if` at line `i` opens. Without a matching
/// `end` the block is not closed, and its end stands at `i + 1`.
pub open spec fn scan(ls: Seq<Seq<char>>, i: int) -> Scan {
    scan_from(ls, i + 1, 1, scan_start(i))
}

/// Every marker lies before line `j`.
pub open spec fn marks_before(sc: Scan, j: int) -> bool {
    &&& forall|m: int| 0 <= m < sc.else_ifs.len() ==> #[trigger] sc.else_ifs[m] < j
    &&& sc.else_idx matches Some(e) ==> e < j
}

/// A closed block ends at an `end` line, after all of its markers.
pub open spec fn scan_closed(ls: Seq<Seq<char>>, sc: Scan) -> bool {
    sc.closed ==> 0 <= sc.end_idx < ls.len() && trimmed(ls[sc.end_idx]) == "end"@ && marks_before(sc, sc.end_idx)
}

pub open spec fn scan_marks(ls: Seq<Seq<char>>, sc: Scan) -> bool {
    forall|m: int| 0 <= m < sc.else_ifs.len() ==> 0 <= #[trigger] sc.else_ifs[m] < ls.len()
        && has_prefix(trimmed(ls[sc.else_ifs[m]]), "else if "@)
}

pub open spec fn scan_within(sc: Scan, i: int, n: int) -> bool {
    &&& i < sc.end_idx <= n
    &&& forall|m: int| 0 <= m < sc.else_ifs.len() ==> i < #[trigger] sc.else_ifs[m] < n
    &&& sc.else_idx matches Some(e) ==> i < e < n
}

proof fn lemma_scan_from_within(ls: Seq<Seq<char>>, i: int, j: int, depth: int, acc: Scan)
    requires
        0 <= i < j,
        i + 1 <= ls.len(),
        scan_within(acc, i, ls.len() as int),
        scan_marks(ls, acc),
        marks_before(acc, j),
        !acc.closed,
        depth >= 1,
    ensures
        scan_within(scan_from(ls, j, depth, acc), i, ls.len() as int),
        scan_marks(ls, scan_from(ls, j, depth, acc)),
        scan_closed(ls, scan_from(ls, j, depth, acc)),
    decreases ls.len() - j,
{
    if j < ls.len() {
        let l = trimmed(ls[j]);
        let d = depth + (if opens_block(l) { 1int } else { 0 }) - (if l == "end"@ { 1int } else { 0 });
        let a1 = if d == 1 && has_prefix(l, "else if "@) {
            Scan { else_ifs: acc.else_ifs.push(j), ..acc }
        } else {
            acc
        };
        let a2 = if d == 1 && l == "else"@ && a1.else_idx is None {
            Scan { else_idx: Some(j), ..a1 }
        } else {
            a1
        };
        assert(scan_within(a1, i, ls.len() as int) && scan_marks(ls, a1) && marks_before(a1, j + 1)) by {
            if d == 1 && has_prefix(l, "else if "@) {
                assert forall|m: int| 0 <= m < a1.else_ifs.len() implies i < #[trigger] a1.else_ifs[m] < ls.len()
                    && has_prefix(trimmed(ls[a1.else_ifs[m]]), "else if "@) by {
                    if m < acc.else_ifs.len() {
                        assert(a1.else_ifs[m] == acc.else_ifs[m]);
                    }
                }
                assert forall|m: int| 0 <= m < a1.else_ifs.len() implies #[trigger] a1.else_ifs[m] < j + 1 by {
                    if m < acc.else_ifs.len() {
                        assert(a1.else_ifs[m] == acc.else_ifs[m]);
                    }
                }
            }
        }
        if d != 0 {
            lemma_scan_from_within(ls, i, j + 1, d, a2);
        } else {
            reveal_strlit("end");
            reveal_strlit("if ");
            assert(a2 == acc);
        }
    }
}

pub proof fn lemma_scan_within(ls: Seq<Seq<char>>, i: int)
    requires
        0 <= i < ls.len(),
    ensures
        scan_within(scan(ls, i), i, ls.len() as int),
        scan_marks(ls, scan(ls, i)),
        scan_closed(ls, scan(ls, i)),
{
    lemma_scan_from_within(ls, i, i + 1, 1, scan_start(i));
}

/// A condition after its keyword, without an optional trailing ` then`.
pub open spec fn condition_text(l: Seq<char>, keyword: Seq<char>) -> Seq<char> {
    let c = after(l, keyword);
    if has_suffix(c, " then"@) {
        trimmed(c.subrange(0, c.len() - " then"@.len()))
    } else {
        trimmed(c)
    }
}

/// The smaller of `a` and `b`, where `b` may be absent.
pub open spec fn min_with(a: int, b: Option<int>) -> int {
    match b {
        Some(x) => if x < a {
            x
        } else {
            a
        },
        None => a,
    }
}

/// Where the body of the `if` branch stops: at the first of its own
/// markers, whichever kind it is.
pub open spec fn if_stop(sc: Scan) -> int {
    let first_else_if = if sc.else_ifs.len() > 0 {
        Some(sc.else_ifs[0])
    } else {
        None
    };
    min_with(min_with(sc.end_idx, first_else_if), sc.else_idx)
}

/// Where the body of the `n`-th `else if` branch stops: at the next marker
/// after it, whichever kind it is, or at the `end`.
pub open spec fn chain_stop(sc: Scan, n: int) -> int {
    let next_else_if = if n + 1 < sc.else_ifs.len() {
        Some(sc.else_ifs[n + 1])
    } else {
        None
    };
    let later_else = match sc.else_idx {
        Some(e) => if e > sc.else_ifs[n] {
            Some(e)
        } else {
            None
        },
        None => None,
    };
    min_with(min_with(sc.end_idx, next_else_if), later_else)
}

/// The line after the construct that starts at line `k`.
pub open spec fn next_index(ls: Seq<Seq<char>>, k: int) -> int {
    if opens_block(trimmed(ls[k])) {
        scan(ls, k).end_idx + 1
    } else {
        k + 1
    }
}

/// Runs the construct that starts at line `i`: one statement, or a whole
/// `if` block.
pub open spec fn run_at(ls: Seq<Seq<char>>, i: int, st: State, ft: TableModel) -> (State, Option<Fault>)
    decreases ls.len() + 1 - i, 2int, 0int
        via run_at_decreases
{
    if i < 0 || i >= ls.len() {
        (st, None)
    } else {
        let l = trimmed(ls[i]);
        if opens_block(l) && !scan(ls, i).closed {
            (st, Some(fault(ErrorKind::UnclosedBlock, l)))
        } else if opens_block(l) {
            match condition_value(condition_text(l, "if "@), st.env, ft) {
                Err(e) => (st, Some(e)),
                Ok(true) => run_range(ls, i + 1, if_stop(scan(ls, i)), st, ft),
                Ok(false) => run_chain(ls, i, 0, st, ft),
            }
        } else {
            statement(l, st, ft)
        }
    }
}

/// Tries the `else if` branches of the block at line `i` from the `n`-th
/// on, then its `else`.
pub open spec fn run_chain(ls: Seq<Seq<char>>, i: int, n: int, st: State, ft: TableModel) -> (State, Option<Fault>)
    decreases ls.len() + 1 - i, 1int, scan(ls, i).else_ifs.len() - n
        via run_chain_decreases
{
    let sc = scan(ls, i);
    if i < 0 || i >= ls.len() || n < 0 {
        (st, None)
    } else if n < sc.else_ifs.len() {
        let ei = sc.else_ifs[n];
        match condition_value(condition_text(trimmed(ls[ei]), "else if "@), st.env, ft) {
            Err(e) => (st, Some(e)),
            Ok(true) => run_range(ls, ei + 1, chain_stop(sc, n), st, ft),
            Ok(false) => run_chain(ls, i, n + 1, st, ft),
        }
    } else if let Some(e) = sc.else_idx {
        run_range(ls, e + 1, sc.end_idx, st, ft)
    } else {
        (st, None)
    }
}

/// Runs the constructs from line `k` while they start before `stop`.
pub open spec fn run_range(ls: Seq<Seq<char>>, k: int, stop: int, st: State, ft: TableModel) -> (State, Option<Fault>)
    decreases ls.len() + 1 - k, 3int, 0int
        via run_range_decreases
{
    if k < 0 || k >= stop || k >= ls.len() {
        (st, None)
    } else {
        let r = run_at(ls, k, st, ft);
        if r.1 is Some {
            r
        } else {
            run_range(ls, next_index(ls, k), stop, r.0, ft)
        }
    }
}

#[via_fn]
proof fn run_at_decreases(ls: Seq<Seq<char>>, i: int, st: State, ft: TableModel) {
}

#[via_fn]
proof fn run_chain_decreases(ls: Seq<Seq<char>>, i: int, n: int, st: State, ft: TableModel) {
    if 0 <= i < ls.len() {
        lemma_scan_within(ls, i);
    }
}

#[via_fn]
proof fn run_range_decreases(ls: Seq<Seq<char>>, k: int, stop: int, st: State, ft: TableModel) {
    if 0 <= k < ls.len() {
        lemma_scan_within(ls, k);
    }
}

/// The effect of a whole program on a state.
pub open spec fn run_program_spec(ls: Seq<Seq<char>>, st: State, ft: TableModel) -> (State, Option<Fault>) {
    run_range(ls, 0, ls.len() as int, st, ft)
}

pub open spec fn lines_view(ls: &Vec<Vec<char>>) -> Seq<Seq<char>> {
    ls@.map_values(|l: Vec<char>| l@)
}

/// The interpreter: its bindings and the lines it has printed.
pub struct Interpreter {
    pub env: Env,
    pub output: Vec<Vec<char>>,
}

pub open spec fn fault_of<T>(r: Result<T, RunError>) -> Option<Fault> {
    match r {
        Ok(_) => None,
        Err(e) => Some(e@),
    }
}

impl View for Interpreter {
    type V = State;

    open spec fn view(&self) -> State {
        State { env: self.env@, out: self.output@.map_values(|l: Vec<char>| l@) }
    }
}

impl Interpreter {
    pub fn new() -> (r: Interpreter)
        ensures
            r@.env.len() == 0,
            r@.out.len() == 0,
    {
        Interpreter { env: Env::new(), output: Vec::new() }
    }

    fn declare(&mut self, line: &Vec<char>, rest: &Vec<char>, sep: &Vec<char>, constant: bool, ft: &FloatTable) -> (r: Result<(), RunError>)
        ensures
            declaration(line@, rest@, sep@, constant, old(self)@, ft@) == (final(self)@, fault_of(r)),
    {
        let k = match find_exec(rest.as_slice(), sep.as_slice()) {
            None => {
                return Err(RunError { kind: ErrorKind::BadStatement, subject: line.clone() });
            },
            Some(k) => k,
        };
        let name = trim(slice_range(rest.as_slice(), 0, k).as_slice());
        proof {
            lemma_find_binding_bounds(self.env@, name@);
        }
        if self.env.find(name.as_slice()).is_some() {
            return Err(RunError { kind: ErrorKind::Redeclaration, subject: name });
        }
        let len = rest.len();
        let tok = slice_range(rest.as_slice(), k + sep.len(), len);
        match parse_literal(tok.as_slice(), &self.env, ft) {
            Err(e) => Err(e),
            Ok(v) => {
                self.env.declare(name, v, constant);
                assert(final(self)@.out =~= old(self)@.out);
                Ok(())
            },
        }
    }

    /// Runs one line that opens no block; the line is trimmed first.
    pub fn run_line(&mut self, line: &Vec<char>, ft: &FloatTable) -> (r: Result<(), RunError>)
        ensures
            statement(trimmed(line@), old(self)@, ft@) == (final(self)@, fault_of(r)),
    {
        let l = trim(line.as_slice());
        self.run_trimmed_line(&l, ft)
    }

    fn run_trimmed_line(&mut self, line: &Vec<char>, ft: &FloatTable) -> (r: Result<(), RunError>)
        ensures
            statement(line@, old(self)@, ft@) == (final(self)@, fault_of(r)),
    {
        let n = line.len();
        if n == 0 || starts_with(line.as_slice(), chars_of("//").as_slice()) {
            return Ok(());
        }
        let p_let = chars_of("let ");
        if starts_with(line.as_slice(), p_let.as_slice()) {
            let rest = slice_range(line.as_slice(), p_let.len(), n);
            return self.declare(line, &rest, &chars_of(" be "), false, ft);
        }
        let p_const = chars_of("constant ");
        if starts_with(line.as_slice(), p_const.as_slice()) {
            let rest = slice_range(line.as_slice(), p_const.len(), n);
            return self.declare(line, &rest, &chars_of(" is "), true, ft);
        }
        let becomes = chars_of(" becomes ");
        if let Some(k) = find_exec(line.as_slice(), becomes.as_slice()) {
            let name = trim(slice_range(line.as_slice(), 0, k).as_slice());
            proof {
                lemma_find_binding_bounds(self.env@, name@);
            }
            let i = match self.env.find(name.as_slice()) {
                None => {
                    return Err(RunError { kind: ErrorKind::UndeclaredVariable, subject: name });
                },
                Some(i) => i,
            };
            if self.env.bindings[i].constant {
                return Err(RunError { kind: ErrorKind::ConstantReassignment, subject: name });
            }
            let tok = slice_range(line.as_slice(), k + becomes.len(), n);
            return match parse_literal(tok.as_slice(), &self.env, ft) {
                Err(e) => Err(e),
                Ok(v) => {
                    self.env.set(i, v);
                    assert(final(self)@.out =~= old(self)@.out);
                    assert(final(self)@.env =~= old(self)@.env.update(i as int, (name@, v@, false)));
                    Ok(())
                },
            };
        }
        let p_print = chars_of("call print with ");
        if starts_with(line.as_slice(), p_print.as_slice()) {
            let tok = trim(slice_range(line.as_slice(), p_print.len(), n).as_slice());
            let v = if tok.len() > 0 && (tok[0] == '"' || tok[0] == '\'') {
                parse_literal(tok.as_slice(), &self.env, ft)
            } else {
                match self.env.get(tok.as_slice()) {
                    None => Err(RunError { kind: ErrorKind::UndeclaredVariable, subject: tok }),
                    Some(v) => Ok(v),
                }
            };
            return match v {
                Err(e) => Err(e),
                Ok(v) => {
                    let shown = v.to_text();
                    let ghost text = shown@;
                    self.output.push(shown);
                    assert(final(self)@.out =~= old(self)@.out.push(text));
                    Ok(())
                },
            };
        }
        Err(RunError { kind: ErrorKind::BadStatement, subject: line.clone() })
    }
}


/// The markers of one `if` block, as `Scan` describes them.
pub struct BlockScan {
    pub end_idx: usize,
    pub else_ifs: Vec<usize>,
    pub else_idx: Option<usize>,
    pub closed: bool,
}

impl View for BlockScan {
    type V = Scan;

    open spec fn view(&self) -> Scan {
        Scan {
            end_idx: self.end_idx as int,
            else_ifs: self.else_ifs@.map_values(|x: usize| x as int),
            else_idx: match self.else_idx {
                Some(e) => Some(e as int),
                None => None,
            },
            closed: self.closed,
        }
    }
}

/// Finds the `end`, `else if` and `else` lines of the block that the `if` at
/// line `i` opens.
pub fn scan_block(ls: &Vec<Vec<char>>, i: usize) -> (r: BlockScan)
    requires
        i < ls@.len(),
    ensures
        r@ == scan(lines_view(ls), i as int),
{
    let ghost lv = lines_view(ls);
    let n = ls.len();
    let mut acc = BlockScan { end_idx: i + 1, else_ifs: Vec::new(), else_idx: None, closed: false };
    assert(acc@.else_ifs =~= Seq::<int>::empty());
    let mut j: usize = i + 1;
    let mut depth: usize = 1;
    let kw_if = chars_of("if ");
    let kw_else_if = chars_of("else if ");
    let kw_end = chars_of("end");
    let kw_else = chars_of("else");
    while j < n
        invariant
            n == ls@.len() == lv.len(),
            lv == lines_view(ls),
            i < j <= n,
            1 <= depth <= j - i,
            kw_if@ == "if "@,
            kw_else_if@ == "else if "@,
            kw_end@ == "end"@,
            kw_else@ == "else"@,
            scan(lv, i as int) == scan_from(lv, j as int, depth as int, acc@),
        decreases n - j,
    {
        let l = trim(ls[j].as_slice());
        assert(lv[j as int] == ls@[j as int]@);
        let opens = starts_with(l.as_slice(), kw_if.as_slice());
        let closes = chars_equal(l.as_slice(), kw_end.as_slice());
        let d: usize = depth + (if opens { 1usize } else { 0 }) - (if closes { 1usize } else { 0 });
        let ghost before = acc@;
        if d == 1 && starts_with(l.as_slice(), kw_else_if.as_slice()) {
            acc.else_ifs.push(j);
            assert(acc@.else_ifs =~= before.else_ifs.push(j as int));
        }
        if d == 1 && chars_equal(l.as_slice(), kw_else.as_slice()) && acc.else_idx.is_none() {
            acc.else_idx = Some(j);
        }
        if d == 0 {
            acc.end_idx = j;
            acc.closed = true;
            return acc;
        }
        depth = d;
        j = j + 1;
    }
    acc
}

fn condition_of(l: &Vec<char>, keyword: &Vec<char>) -> (r: Vec<char>)
    requires
        keyword@.len() <= l@.len(),
    ensures
        r@ == condition_text(l@, keyword@),
{
    let n = l.len();
    let c = slice_range(l.as_slice(), keyword.len(), n);
    let then = chars_of(" then");
    if ends_with(c.as_slice(), then.as_slice()) {
        let m = c.len();
        trim(slice_range(c.as_slice(), 0, m - then.len()).as_slice())
    } else {
        trim(c.as_slice())
    }
}

impl Interpreter {
    /// Runs the construct that starts at line `i` and returns the index of
    /// the line after it.
    pub fn run_at(&mut self, ls: &Vec<Vec<char>>, i: usize, ft: &FloatTable) -> (r: Result<usize, RunError>)
        requires
            i < ls@.len() < usize::MAX,
        ensures
            run_at(lines_view(ls), i as int, old(self)@, ft@) == (final(self)@, fault_of(r)),
            r matches Ok(nx) ==> nx == next_index(lines_view(ls), i as int),
        decreases ls@.len() - i, 1int,
    {
        let ghost lv = lines_view(ls);
        assert(lv[i as int] == ls@[i as int]@);
        let l = trim(ls[i].as_slice());
        let kw_if = chars_of("if ");
        if !starts_with(l.as_slice(), kw_if.as_slice()) {
            let r = self.run_trimmed_line(&l, ft);
            return match r {
                Ok(()) => Ok(i + 1),
                Err(e) => Err(e),
            };
        }
        proof {
            lemma_scan_within(lv, i as int);
        }
        let sc = scan_block(ls, i);
        if !sc.closed {
            return Err(RunError { kind: ErrorKind::UnclosedBlock, subject: l });
        }
        let cond = condition_of(&l, &kw_if);
        let holds = match eval_condition(cond.as_slice(), &self.env, ft) {
            Err(e) => {
                return Err(e);
            },
            Ok(b) => b,
        };
        if holds {
            let mut stop = sc.end_idx;
            if sc.else_ifs.len() > 0 && sc.else_ifs[0] < stop {
                stop = sc.else_ifs[0];
            }
            if let Some(e) = sc.else_idx {
                if e < stop {
                    stop = e;
                }
            }
            return match self.run_range(ls, i + 1, stop, ft) {
                Ok(()) => Ok(sc.end_idx + 1),
                Err(e) => Err(e),
            };
        }
        let kw_else_if = chars_of("else if ");
        let count = sc.else_ifs.len();
        let mut m: usize = 0;
        while m < count
            invariant
                lv == lines_view(ls),
                i < ls@.len() < usize::MAX,
                sc@ == scan(lv, i as int),
                scan_within(sc@, i as int, lv.len() as int),
                scan_marks(lv, sc@),
                opens_block(trimmed(lv[i as int])),
                count == sc@.else_ifs.len(),
                m <= count,
                kw_else_if@ == "else if "@,
                self@ == old(self)@,
                run_at(lv, i as int, old(self)@, ft@) == run_chain(lv, i as int, m as int, old(self)@, ft@),
            decreases count - m,
        {
            let ei = sc.else_ifs[m];
            assert(i < sc@.else_ifs[m as int] < lv.len());
            assert(lv[ei as int] == ls@[ei as int]@);
            let le = trim(ls[ei].as_slice());
            assert(has_prefix(trimmed(lv[sc@.else_ifs[m as int]]), "else if "@));
            let c = condition_of(&le, &kw_else_if);
            let holds = match eval_condition(c.as_slice(), &self.env, ft) {
                Err(e) => {
                    return Err(e);
                },
                Ok(b) => b,
            };
            if holds {
                let mut stop = sc.end_idx;
                if m + 1 < count && sc.else_ifs[m + 1] < stop {
                    stop = sc.else_ifs[m + 1];
                }
                if let Some(e) = sc.else_idx {
                    if e > ei && e < stop {
                        stop = e;
                    }
                }
                return match self.run_range(ls, ei + 1, stop, ft) {
                    Ok(()) => Ok(sc.end_idx + 1),
                    Err(e) => Err(e),
                };
            }
            m = m + 1;
        }
        if let Some(e) = sc.else_idx {
            return match self.run_range(ls, e + 1, sc.end_idx, ft) {
                Ok(()) => Ok(sc.end_idx + 1),
                Err(e) => Err(e),
            };
        }
        Ok(sc.end_idx + 1)
    }

    /// Runs the constructs from line `k` while they start before `stop`.
    pub fn run_range(&mut self, ls: &Vec<Vec<char>>, k: usize, stop: usize, ft: &FloatTable) -> (r: Result<(), RunError>)
        requires
            k <= ls@.len() < usize::MAX,
        ensures
            run_range(lines_view(ls), k as int, stop as int, old(self)@, ft@) == (final(self)@, fault_of(r)),
        decreases ls@.len() - k, 2int,
    {
        let ghost lv = lines_view(ls);
        let n = ls.len();
        let mut cur: usize = k;
        while cur < stop && cur < n
            invariant
                lv == lines_view(ls),
                n == ls@.len() < usize::MAX,
                k <= cur <= n + 1,
                run_range(lv, k as int, stop as int, old(self)@, ft@) == run_range(lv, cur as int, stop as int, self@, ft@),
            decreases n + 1 - cur,
        {
            proof {
                lemma_scan_within(lv, cur as int);
            }
            match self.run_at(ls, cur, ft) {
                Err(e) => {
                    return Err(e);
                },
                Ok(nx) => {
                    cur = nx;
                },
            }
        }
        Ok(())
    }

    /// Runs a whole program from its first line.
    pub fn run_program(&mut self, ls: &Vec<Vec<char>>, ft: &FloatTable) -> (r: Result<(), RunError>)
        requires
            ls@.len() < usize::MAX,
        ensures
            run_program_spec(lines_view(ls), old(self)@, ft@) == (final(self)@, fault_of(r)),
    {
        let n = ls.len();
        self.run_range(ls, 0, n, ft)
    }
}

} // verus!
