//! The compiled form of a script: instructions, operand syntax, labels, and
//! the well-formedness every compiled script enjoys.

use vstd::prelude::*;

verus! {

/// A value operand: either a literal string or a reference to a variable
/// cell `(name, index)`; a missing index reads as `0`.
#[derive(Debug, PartialEq, Eq)]
pub struct VarOrConst {
    pub is_ref: bool,
    pub name: String,
    pub index: Option<usize>,
}

/// Mathematical form of a `VarOrConst`.
pub struct VarV {
    pub is_ref: bool,
    pub name: Seq<char>,
    pub index: Option<usize>,
}

impl View for VarOrConst {
    type V = VarV;

    open spec fn view(&self) -> VarV {
        VarV { is_ref: self.is_ref, name: self.name@, index: self.index }
    }
}

impl VarOrConst {
    /// A structurally identical copy.
    pub fn dup(&self) -> (r: VarOrConst)
        ensures
            r@ == self@,
    {
        VarOrConst {
            is_ref: self.is_ref,
            name: self.name.clone(),
            index: self.index,
        }
    }
}

/// The comparison kinds a branch supports. Order is lexicographic over the
/// raw string values; there is no numeric coercion.
#[derive(Debug, Clone, Copy, PartialEq, Eq, Structural)]
pub enum Operator {
    Equal,
    NotEqual,
    Less,
    LessEqual,
}

/// A branch target. `Named` and `Indexed` are lookup keys that exist only
/// while compiling; every `Goto` of a compiled script holds an `Offset`.
#[derive(Debug, PartialEq, Eq)]
pub enum Label {
    Offset(usize),
    Indexed(usize),
    Named(String),
}

/// Mathematical form of a `Label`.
pub enum LabelV {
    Offset(usize),
    Indexed(usize),
    Named(Seq<char>),
}

impl View for Label {
    type V = LabelV;

    open spec fn view(&self) -> LabelV {
        match self {
            Label::Offset(o) => LabelV::Offset(*o),
            Label::Indexed(i) => LabelV::Indexed(*i),
            Label::Named(n) => LabelV::Named(n@),
        }
    }
}

impl Label {
    /// A structurally identical copy.
    pub fn dup(&self) -> (r: Label)
        ensures
            r@ == self@,
    {
        match self {
            Label::Offset(o) => Label::Offset(*o),
            Label::Indexed(i) => Label::Indexed(*i),
            Label::Named(n) => Label::Named(n.clone()),
        }
    }
}

/// One compiled directive.
#[derive(Debug, PartialEq, Eq)]
pub enum Instr {
    ClearText,
    SetVar(VarOrConst, String),
    GSetVar(VarOrConst, String),
    BgLoad(VarOrConst, Option<usize>),
    SetImg(VarOrConst, usize, usize),
    Delay(usize),
    Branch(VarOrConst, Operator, String, usize),
    Text(Option<String>, String),
    Goto(Label),
    Sound(String, Option<usize>),
    Music(String),
    Choice(Vec<VarOrConst>),
    Jump(String),
}

/// Mathematical form of an `Instr`.
pub enum InstrV {
    ClearText,
    SetVar(VarV, Seq<char>),
    GSetVar(VarV, Seq<char>),
    BgLoad(VarV, Option<usize>),
    SetImg(VarV, usize, usize),
    Delay(usize),
    Branch(VarV, Operator, Seq<char>, usize),
    Text(Option<Seq<char>>, Seq<char>),
    Goto(LabelV),
    Sound(Seq<char>, Option<usize>),
    Music(Seq<char>),
    Choice(Seq<VarV>),
    Jump(Seq<char>),
}

impl View for Instr {
    type V = InstrV;

    open spec fn view(&self) -> InstrV {
        match self {
            Instr::ClearText => InstrV::ClearText,
            Instr::SetVar(t, v) => InstrV::SetVar(t@, v@),
            Instr::GSetVar(t, v) => InstrV::GSetVar(t@, v@),
            Instr::BgLoad(f, time) => InstrV::BgLoad(f@, *time),
            Instr::SetImg(f, x, y) => InstrV::SetImg(f@, *x, *y),
            Instr::Delay(d) => InstrV::Delay(*d),
            Instr::Branch(l, op, r, e) => InstrV::Branch(l@, *op, r@, *e),
            Instr::Text(who, what) => InstrV::Text(
                match who {
                    Some(w) => Some(w@),
                    None => None,
                },
                what@,
            ),
            Instr::Goto(l) => InstrV::Goto(l@),
            Instr::Sound(f, arg) => InstrV::Sound(f@, *arg),
            Instr::Music(f) => InstrV::Music(f@),
            Instr::Choice(refs) => InstrV::Choice(refs@.map_values(|v: VarOrConst| v@)),
            Instr::Jump(f) => InstrV::Jump(f@),
        }
    }
}

fn dup_option_string(o: &Option<String>) -> (r: Option<String>)
    ensures
        r == *o,
{
    match o {
        Some(s) => Some(s.clone()),
        None => None,
    }
}

fn dup_refs(v: &Vec<VarOrConst>) -> (r: Vec<VarOrConst>)
    ensures
        r@.map_values(|x: VarOrConst| x@) == v@.map_values(|x: VarOrConst| x@),
{
    let mut out: Vec<VarOrConst> = Vec::new();
    let n = v.len();
    let mut i: usize = 0;
    while i < n
        invariant
            0 <= i <= n,
            n == v@.len(),
            out@.len() == i,
            forall|k: int| 0 <= k < i ==> out@[k]@ == v@[k]@,
        decreases n - i,
    {
        out.push(v[i].dup());
        i = i + 1;
    }
    assert(out@.map_values(|x: VarOrConst| x@) =~= v@.map_values(|x: VarOrConst| x@));
    out
}

impl Instr {
    /// A copy with the same mathematical value.
    pub fn dup(&self) -> (r: Instr)
        ensures
            r@ == self@,
    {
        match self {
            Instr::ClearText => Instr::ClearText,
            Instr::SetVar(t, v) => Instr::SetVar(t.dup(), v.clone()),
            Instr::GSetVar(t, v) => Instr::GSetVar(t.dup(), v.clone()),
            Instr::BgLoad(f, time) => Instr::BgLoad(f.dup(), *time),
            Instr::SetImg(f, x, y) => Instr::SetImg(f.dup(), *x, *y),
            Instr::Delay(d) => Instr::Delay(*d),
            Instr::Branch(l, op, r, e) => Instr::Branch(l.dup(), *op, r.clone(), *e),
            Instr::Text(who, what) => Instr::Text(dup_option_string(who), what.clone()),
            Instr::Goto(l) => Instr::Goto(l.dup()),
            Instr::Sound(f, arg) => Instr::Sound(f.clone(), *arg),
            Instr::Music(f) => Instr::Music(f.clone()),
            Instr::Choice(refs) => Instr::Choice(dup_refs(refs)),
            Instr::Jump(f) => Instr::Jump(f.clone()),
        }
    }
}

/// An immutable, compiled script.
#[derive(Debug, PartialEq, Eq)]
pub struct Script {
    pub code: Vec<Instr>,
}

impl View for Script {
    type V = Seq<InstrV>;

    open spec fn view(&self) -> Seq<InstrV> {
        self.code@.map_values(|i: Instr| i@)
    }
}

/// What position `at` in a script of length `len` may hold: a `Goto` is
/// resolved to an offset no further than one past the end, and a branch's
/// else-target lies strictly past the branch, at most one past the end.
pub open spec fn instr_wf(i: InstrV, at: int, len: int) -> bool {
    match i {
        InstrV::Goto(l) => l matches LabelV::Offset(o) && o <= len,
        InstrV::Branch(_l, _op, _r, e) => at < e <= len,
        _ => true,
    }
}

/// The shape every successfully compiled script has.
pub open spec fn script_wf(code: Seq<InstrV>) -> bool {
    forall|k: int| 0 <= k < code.len() ==> instr_wf(#[trigger] code[k], k, code.len() as int)
}

} // verus!
