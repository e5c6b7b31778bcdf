//! The binding table (name to value and mutability), the table of double
//! readings that the host supplies, and the library's faults.

use vstd::prelude::*;
use crate::text::chars_equal;
use crate::value::{FloatNum, Value, Val, clone_value};

verus! {

#[derive(Clone, Copy, Debug, PartialEq, Eq, Structural)]
pub enum ErrorKind {
    /// A token that is no literal of any kind.
    UnrecognizedLiteral,
    /// A token that may be a double, and that the readings table does not hold.
    UnreadFloat,
    /// A name that was never declared.
    UndeclaredVariable,
    /// A reassignment of a constant.
    ConstantReassignment,
    /// A second declaration of a name: `let` and `constant` never overwrite.
    Redeclaration,
    /// A clause with none of the comparison operators.
    BadCondition,
    /// A line that is no statement.
    BadStatement,
    /// An `if` without a matching `end`.
    UnclosedBlock,
    /// A numeric comparison with a value that is no number.
    NotANumber,
}

#[derive(Debug)]
pub struct RunError {
    pub kind: ErrorKind,
    /// The name, token, clause or line that the fault is about.
    pub subject: Vec<char>,
}

pub ghost struct Fault {
    pub kind: ErrorKind,
    pub subject: Seq<char>,
}

impl View for RunError {
    type V = Fault;

    open spec fn view(&self) -> Fault {
        Fault { kind: self.kind, subject: self.subject@ }
    }
}

pub open spec fn fault(kind: ErrorKind, subject: Seq<char>) -> Fault {
    Fault { kind, subject }
}

#[derive(Debug)]
pub struct Binding {
    pub name: Vec<char>,
    pub value: Value,
    pub constant: bool,
}

/// Every variable of a run, in order of declaration.
#[derive(Debug)]
pub struct Env {
    pub bindings: Vec<Binding>,
}

pub type EnvModel = Seq<(Seq<char>, Val, bool)>;

impl View for Env {
    type V = EnvModel;

    open spec fn view(&self) -> EnvModel {
        self.bindings@.map_values(|b: Binding| (b.name@, b.value@, b.constant))
    }
}

/// Index of the binding of `name`, or -1.
pub open spec fn find_binding(env: EnvModel, name: Seq<char>) -> int
    decreases env.len(),
{
    if env.len() == 0 {
        -1
    } else if env.last().0 == name {
        env.len() - 1
    } else {
        find_binding(env.drop_last(), name)
    }
}

pub proof fn lemma_find_binding_bounds(env: EnvModel, name: Seq<char>)
    ensures
        -1 <= find_binding(env, name) < env.len(),
        find_binding(env, name) >= 0 ==> env[find_binding(env, name)].0 == name,
    decreases env.len(),
{
    if env.len() > 0 && env.last().0 != name {
        lemma_find_binding_bounds(env.drop_last(), name);
    }
}

pub open spec fn lookup(env: EnvModel, name: Seq<char>) -> Option<(Val, bool)> {
    let i = find_binding(env, name);
    if 0 <= i < env.len() {
        Some((env[i].1, env[i].2))
    } else {
        None
    }
}

impl Env {
    pub fn new() -> (r: Env)
        ensures
            r@.len() == 0,
    {
        Env { bindings: Vec::new() }
    }

    pub fn find(&self, name: &[char]) -> (r: Option<usize>)
        ensures
            r matches Some(i) ==> find_binding(self@, name@) == i as int,
            r is None ==> find_binding(self@, name@) == -1,
    {
        let mut i: usize = self.bindings.len();
        assert(self@.subrange(0, i as int) =~= self@);
        while i > 0
            invariant
                i <= self@.len() == self.bindings@.len(),
                find_binding(self@, name@) == find_binding(self@.subrange(0, i as int), name@),
            decreases i,
        {
            let hit = chars_equal(self.bindings[i - 1].name.as_slice(), name);
            let ghost sub = self@.subrange(0, i as int);
            assert(sub.drop_last() =~= self@.subrange(0, i - 1));
            if hit {
                return Some(i - 1);
            }
            i = i - 1;
        }
        None
    }

    /// The value bound to `name`, if any.
    pub fn get(&self, name: &[char]) -> (r: Option<Value>)
        ensures
            r matches Some(v) ==> lookup(self@, name@) matches Some(b) && b.0 == v@,
            r is None ==> lookup(self@, name@) is None,
    {
        proof {
            lemma_find_binding_bounds(self@, name@);
        }
        match self.find(name) {
            Some(i) => Some(clone_value(&self.bindings[i].value)),
            None => None,
        }
    }

    /// Adds a binding for a name that has none: names stay unique.
    pub fn declare(&mut self, name: Vec<char>, value: Value, constant: bool)
        requires
            find_binding(old(self)@, name@) == -1,
        ensures
            final(self)@ == old(self)@.push((name@, value@, constant)),
    {
        self.bindings.push(Binding { name, value, constant });
        assert(final(self)@ =~= old(self)@.push((name@, value@, constant)));
    }

    pub fn set(&mut self, i: usize, value: Value)
        requires
            i < old(self)@.len(),
        ensures
            final(self)@ == old(self)@.update(i as int, (old(self)@[i as int].0, value@, old(self)@[i as int].2)),
    {
        let name = self.bindings[i].name.clone();
        let constant = self.bindings[i].constant;
        self.bindings.set(i, Binding { name, value, constant });
        assert(final(self)@ =~= old(self)@.update(i as int, (old(self)@[i as int].0, value@, old(self)@[i as int].2)));
    }
}

/// What the host read of one token as a double: its bit pattern and display
/// text, or `None` when it is no double.
#[derive(Debug)]
pub struct FloatReading {
    pub token: Vec<char>,
    pub reading: Option<FloatNum>,
}

#[derive(Debug)]
pub struct FloatTable {
    pub readings: Vec<FloatReading>,
}

pub open spec fn reading_view(r: Option<FloatNum>) -> Option<(u64, Seq<char>)> {
    match r {
        Some(f) => Some((f.bits, f.text@)),
        None => None,
    }
}

pub type TableModel = Seq<(Seq<char>, Option<(u64, Seq<char>)>)>;

impl View for FloatTable {
    type V = TableModel;

    open spec fn view(&self) -> TableModel {
        self.readings@.map_values(
            |r: FloatReading|
(r.token@, reading_view(r.reading)))
    }
}

/// The latest reading of `token`: `None` when the table has none.
pub open spec fn reading_of(ft: TableModel, token: Seq<char>) -> Option<Option<(u64, Seq<char>)>>
    decreases ft.len(),
{
    if ft.len() == 0 {
        None
    } else if ft.last().0 == token {
        Some(ft.last().1)
    } else {
        reading_of(ft.drop_last(), token)
    }
}

impl FloatTable {
    pub fn new() -> (r: FloatTable)
        ensures
            r@.len() == 0,
    {
        FloatTable { readings: Vec::new() }
    }

    pub fn add(&mut self, token: Vec<char>, reading: Option<FloatNum>)
        ensures
            final(self)@ == old(self)@.push((token@, reading_view(reading))),
    {
        let ghost entry = (token@, reading_view(reading));
        self.readings.push(FloatReading { token, reading });
        assert(final(self)@ =~= old(self)@.push(entry));
    }

    pub fn read(&self, token: &[char]) -> (r: Option<Option<FloatNum>>)
        ensures
            r matches Some(Some(f)) ==> reading_of(self@, token@) == Some(Some((f.bits, f.text@))),
            r matches Some(None) ==> reading_of(self@, token@) == Some(None::<(u64, Seq<char>)>),
            r is None ==> reading_of(self@, token@) is None,
    {
        let mut i: usize = self.readings.len();
        assert(self@.subrange(0, i as int) =~= self@);
        while i > 0
            invariant
                i <= self@.len() == self.readings@.len(),
                reading_of(self@, token@) == reading_of(self@.subrange(0, i as int), token@),
            decreases i,
        {
            let ghost sub = self@.subrange(0, i as int);
            assert(sub.drop_last() =~= self@.subrange(0, i - 1));
            if chars_equal(self.readings[i - 1].token.as_slice(), token) {
                return match &self.readings[i - 1].reading {
                    Some(f) => Some(Some(FloatNum { bits: f.bits, text: f.text.clone() })),
                    None => Some(None),
                };
            }
            i = i - 1;
        }
        None
    }
}

} // verus!
