//! The script compiler: one directive per line, two passes. The line pass
//! emits instructions and records labels; the second pass rewrites every
//! `Goto` to a resolved offset.

use vstd::prelude::*;
use vstd::map::*;
use crate::script::{Instr, InstrV, Label, LabelV, Operator, Script, VarOrConst, VarV};
use crate::text::{
    find_char, find_char_in, is_space, lemma_find_char, parse_usize, parse_usize_spec,
    skip_spaces_front, split_args, split_args_spec, str_eq, strip, strip_spec, token_end, trim,
    trim_spec, trim_start, unescape, unescape_spec,
};

verus! {

broadcast use vstd::string::group_string_axioms;

/// Everything that aborts a compilation, with the 1-based source line.
#[derive(Debug, Clone, Copy, PartialEq, Eq, Structural)]
pub enum CompileError {
    /// The first token is no known directive, or the directive's argument
    /// shape is wrong.
    UnknownDirective { line: usize },
    /// A variable reference could not be parsed.
    BadVarRef { line: usize },
    /// A numeric argument could not be parsed.
    BadNumber { line: usize },
    /// The comparison operator of an `if` is not one of the four.
    UnknownOperator { line: usize },
    /// A `fi` without an open branch to close.
    StrayFi { line: usize },
    /// A `goto` names a label no `label` line defined.
    UnresolvedLabel,
}

/// What `parse_var_ref` accepts: an optional `$`, a name, an optional
/// bracketed index. The index is everything after the first `[` once the
/// trailing `]` is removed.
pub open spec fn parse_var_ref_spec(s: Seq<char>) -> Option<VarV> {
    let dollar = s.len() > 0 && s[0] == '$';
    let t = if dollar {
        s.drop_first()
    } else {
        s
    };
    if t.len() > 0 && t.last() == ']' {
        let iks = t.drop_last();
        let i = find_char(iks, '[');
        if i == -1 {
            None
        } else {
            match parse_usize_spec(iks.skip(i + 1)) {
                None => None,
                Some(x) => Some(VarV { is_ref: dollar, name: iks.take(i), index: Some(x) }),
            }
        }
    } else {
        Some(VarV { is_ref: dollar, name: t, index: None })
    }
}

/// Parse a value operand: `$name`, `$name[i]`, `literal` or `literal[i]`.
pub fn parse_var_ref(s: &str) -> (r: Option<VarOrConst>)
    ensures
        match r {
            Some(v) => parse_var_ref_spec(s@) == Some(v@),
            None => parse_var_ref_spec(s@) is None,
        },
{
    let n = s.unicode_len();
    let (dollar, t, m): (bool, &str, usize) = if n > 0 && s.get_char(0) == '$' {
        let t = s.substring_char(1, n);
        assert(t@ =~= s@.drop_first());
        (true, t, n - 1)
    } else {
        (false, s, n)
    };
    if m > 0 && t.get_char(m - 1) == ']' {
        let iks = t.substring_char(0, m - 1);
        assert(iks@ =~= t@.drop_last());
        match find_char_in(iks, '[') {
            None => None,
            Some(i) => {
                proof {
                    lemma_find_char(iks@, '[');
                }
                let idx_text = iks.substring_char(i + 1, m - 1);
                assert(idx_text@ =~= iks@.skip(i + 1));
                match parse_usize(idx_text) {
                    None => None,
                    Some(x) => {
                        let name = iks.substring_char(0, i);
                        assert(name@ =~= iks@.take(i as int));
                        Some(
                            VarOrConst {
                                is_ref: dollar,
                                name: crate::memory::copy_str(name),
                                index: Some(x),
                            },
                        )
                    },
                }
            },
        }
    } else {
        Some(VarOrConst { is_ref: dollar, name: crate::memory::copy_str(t), index: None })
    }
}

/// How a `text` payload splits: when it holds a `"` and a space, the part
/// before the first space is the speaker; both halves are unescaped.
pub open spec fn parse_text_spec(s: Seq<char>) -> (Option<Seq<char>>, Seq<char>) {
    if find_char(s, '"') != -1 && find_char(s, ' ') != -1 {
        let i = find_char(s, ' ');
        (Some(unescape_spec(s.take(i))), unescape_spec(s.skip(i + 1)))
    } else {
        (None, unescape_spec(s))
    }
}

/// Split a `text` payload into optional speaker and body.
pub fn parse_text(s: &str) -> (r: (Option<String>, String))
    ensures
        parse_text_spec(s@) == (
            match r.0 {
                Some(w) => Some(w@),
                None => None,
            },
            r.1@,
        ),
{
    let n = s.unicode_len();
    let has_quote = find_char_in(s, '"').is_some();
    let space = find_char_in(s, ' ');
    if has_quote && space.is_some() {
        let i = match space {
            Some(i) => i,
            None => 0,
        };
        proof {
            lemma_find_char(s@, ' ');
        }
        let a = s.substring_char(0, i);
        let b = s.substring_char(i + 1, n);
        assert(a@ =~= s@.take(i as int));
        assert(b@ =~= s@.skip(i + 1));
        (Some(unescape(a)), unescape(b))
    } else {
        (None, unescape(s))
    }
}

/// The four comparison tokens.
pub open spec fn op_spec(s: Seq<char>) -> Option<Operator> {
    if s == "=="@ {
        Some(Operator::Equal)
    } else if s == "!="@ {
        Some(Operator::NotEqual)
    } else if s == "<"@ {
        Some(Operator::Less)
    } else if s == "<="@ {
        Some(Operator::LessEqual)
    } else {
        None
    }
}

/// Parse a comparison operator token.
pub fn parse_operator(s: &str) -> (r: Option<Operator>)
    ensures
        r == op_spec(s@),
{
    if str_eq(s, "==") {
        Some(Operator::Equal)
    } else if str_eq(s, "!=") {
        Some(Operator::NotEqual)
    } else if str_eq(s, "<") {
        Some(Operator::Less)
    } else if str_eq(s, "<=") {
        Some(Operator::LessEqual)
    } else {
        None
    }
}

/// The tokens `setvar` and `gsetvar` accept between name and value.
pub open spec fn is_assign_op(s: Seq<char>) -> bool {
    s == "="@ || s == "-"@ || s == "+"@
}

fn check_assign_op(s: &str) -> (r: bool)
    ensures
        r == is_assign_op(s@),
{
    str_eq(s, "=") || str_eq(s, "-") || str_eq(s, "+")
}

/// A `goto` target or `label` name: `@`-prefixed targets are indexed, all
/// others named.
pub open spec fn parse_label_spec(s: Seq<char>) -> Option<LabelV> {
    if s.len() > 0 && s[0] == '@' {
        match parse_usize_spec(s.drop_first()) {
            None => None,
            Some(x) => Some(LabelV::Indexed(x)),
        }
    } else {
        Some(LabelV::Named(s))
    }
}

/// Parse a label token.
pub fn parse_label(s: &str) -> (r: Option<Label>)
    ensures
        match r {
            Some(l) => parse_label_spec(s@) == Some(l@),
            None => parse_label_spec(s@) is None,
        },
{
    let n = s.unicode_len();
    if n > 0 && s.get_char(0) == '@' {
        let t = s.substring_char(1, n);
        assert(t@ =~= s@.drop_first());
        match parse_usize(t) {
            None => None,
            Some(x) => Some(Label::Indexed(x)),
        }
    } else {
        Some(Label::Named(crate::memory::copy_str(s)))
    }
}

/// Split on `|`; empty pieces are kept.
pub open spec fn split_pipe(s: Seq<char>) -> Seq<Seq<char>>
    decreases s.len(),
    via split_pipe_decreases
{
    let i = find_char(s, '|');
    if i == -1 {
        seq![s]
    } else {
        seq![s.take(i)] + split_pipe(s.skip(i + 1))
    }
}

#[via_fn]
proof fn split_pipe_decreases(s: Seq<char>) {
    lemma_find_char(s, '|');
}

fn split_pipe_exec<'a>(s: &'a str) -> (parts: Vec<&'a str>)
    ensures
        parts.deep_view() == split_pipe(s@),
    decreases s@.len(),
{
    let n = s.unicode_len();
    match find_char_in(s, '|') {
        None => {
            let mut parts: Vec<&'a str> = Vec::new();
            parts.push(s);
            assert(parts.deep_view() =~= seq![s@]);
            parts
        },
        Some(i) => {
            proof {
                lemma_find_char(s@, '|');
            }
            let head = s.substring_char(0, i);
            let tail = s.substring_char(i + 1, n);
            assert(head@ =~= s@.take(i as int));
            assert(tail@ =~= s@.skip(i + 1));
            let mut parts: Vec<&'a str> = Vec::new();
            parts.push(head);
            let mut rest = split_pipe_exec(tail);
            parts.append(&mut rest);
            assert(parts.deep_view() =~= seq![head@] + split_pipe(tail@));
            parts
        },
    }
}

/// Parse every piece of a `choice` payload; `None` as soon as one fails.
pub open spec fn parse_refs_spec(pieces: Seq<Seq<char>>) -> Option<Seq<VarV>>
    decreases pieces.len(),
{
    if pieces.len() == 0 {
        Some(Seq::empty())
    } else {
        match parse_var_ref_spec(pieces[0]) {
            None => None,
            Some(v) => match parse_refs_spec(pieces.drop_first()) {
                None => None,
                Some(t) => Some(seq![v] + t),
            },
        }
    }
}

fn parse_refs_from(pieces: &Vec<&str>, i: usize) -> (r: Option<Vec<VarOrConst>>)
    requires
        i <= pieces@.len(),
    ensures
        match r {
            Some(refs) => parse_refs_spec(pieces.deep_view().skip(i as int)) == Some(
                refs@.map_values(|v: VarOrConst| v@),
            ),
            None => parse_refs_spec(pieces.deep_view().skip(i as int)) is None,
        },
    decreases pieces@.len() - i,
{
    let ghost pv = pieces.deep_view();
    if i == pieces.len() {
        let r: Vec<VarOrConst> = Vec::new();
        assert(pv.skip(i as int).len() == 0);
        assert(r@.map_values(|v: VarOrConst| v@) =~= Seq::<VarV>::empty());
        Some(r)
    } else {
        assert(pv.skip(i as int)[0] == pv[i as int]);
        assert(pv[i as int] == pieces@[i as int]@);
        match parse_var_ref(pieces[i]) {
            None => {
                None
            },
            Some(v) => {
                match parse_refs_from(pieces, i + 1) {
                    None => {
                        assert(pv.skip(i as int).drop_first() =~= pv.skip(i + 1));
                        None
                    },
                    Some(mut tail) => {
                        tail.insert(0, v);
                        assert(pv.skip(i as int).drop_first() =~= pv.skip(i + 1));
                        assert(tail@.map_values(|x: VarOrConst| x@) =~= seq![
                            tail@[0]@,
                        ] + parse_refs_spec(pv.skip(i + 1)).unwrap());
                        Some(tail)
                    },
                }
            },
        }
    }
}

/// One trailing carriage return removed, as a line read from a file has.
pub open spec fn strip_cr(l: Seq<char>) -> Seq<char> {
    if l.len() > 0 && l.last() == '\r' {
        l.drop_last()
    } else {
        l
    }
}

/// The lines of a source text: split at `\n`, a `\r` directly before the
/// `\n` removed, no empty line after a final `\n`.
pub open spec fn lines_of(s: Seq<char>) -> Seq<Seq<char>>
    decreases s.len(),
    via lines_of_decreases
{
    if s.len() == 0 {
        Seq::empty()
    } else {
        let i = find_char(s, '\n');
        if i == -1 {
            seq![s]
        } else {
            seq![strip_cr(s.take(i))] + lines_of(s.skip(i + 1))
        }
    }
}

#[via_fn]
proof fn lines_of_decreases(s: Seq<char>) {
    lemma_find_char(s, '\n');
}

fn split_lines<'a>(s: &'a str) -> (lines: Vec<&'a str>)
    ensures
        lines.deep_view() == lines_of(s@),
    decreases s@.len(),
{
    let n = s.unicode_len();
    if n == 0 {
        let lines: Vec<&'a str> = Vec::new();
        assert(lines.deep_view() =~= lines_of(s@));
        lines
    } else {
        match find_char_in(s, '\n') {
            None => {
                let mut lines: Vec<&'a str> = Vec::new();
                lines.push(s);
                assert(lines.deep_view() =~= seq![s@]);
                lines
            },
            Some(i) => {
                proof {
                    lemma_find_char(s@, '\n');
                }
                let head0 = s.substring_char(0, i);
                assert(head0@ =~= s@.take(i as int));
                let hn = head0.unicode_len();
                let head: &str = if hn > 0 && head0.get_char(hn - 1) == '\r' {
                    let h = head0.substring_char(0, hn - 1);
                    assert(h@ =~= head0@.drop_last());
                    h
                } else {
                    head0
                };
                assert(head@ == strip_cr(s@.take(i as int)));
                let tail = s.substring_char(i + 1, n);
                assert(tail@ =~= s@.skip(i + 1));
                let mut lines: Vec<&'a str> = Vec::new();
                lines.push(head);
                let mut rest = split_lines(tail);
                lines.append(&mut rest);
                assert(lines.deep_view() =~= seq![head@] + lines_of(tail@));
                lines
            },
        }
    }
}

/// Mathematical form of an `Emitter`.
#[verifier::ext_equal]
pub struct EmitV {
    pub code: Seq<InstrV>,
    pub last_branch: Option<usize>,
    pub labels: Map<LabelV, usize>,
}

/// The mapping an association vector of labels denotes; a later entry for
/// the same label wins, as re-defining a label overwrites it.
pub open spec fn lbl_map(s: Seq<(Label, usize)>) -> Map<LabelV, usize>
    decreases s.len(),
{
    if s.len() == 0 {
        Map::empty()
    } else {
        lbl_map(s.drop_last()).insert(s.last().0@, s.last().1)
    }
}

/// The line pass's accumulator: emitted code, the one open branch, and the
/// label table.
#[derive(Debug)]
pub struct Emitter {
    pub code: Vec<Instr>,
    pub last_branch: Option<usize>,
    pub labels: Vec<(Label, usize)>,
}

impl View for Emitter {
    type V = EmitV;

    open spec fn view(&self) -> EmitV {
        EmitV {
            code: self.code@.map_values(|i: Instr| i@),
            last_branch: self.last_branch,
            labels: lbl_map(self.labels@),
        }
    }
}

fn label_eq(a: &Label, b: &Label) -> (r: bool)
    ensures
        r == (a@ == b@),
{
    match (a, b) {
        (Label::Offset(x), Label::Offset(y)) => x == y,
        (Label::Indexed(x), Label::Indexed(y)) => x == y,
        (Label::Named(x), Label::Named(y)) => str_eq(x.as_str(), y.as_str()),
        _ => false,
    }
}

fn find_label_from(labels: &Vec<(Label, usize)>, l: &Label, i: usize) -> (r: Option<usize>)
    requires
        i <= labels@.len(),
    ensures
        match r {
            Some(x) => lbl_map(labels@.take(i as int)).contains_key(l@) && lbl_map(
                labels@.take(i as int),
            )[l@] == x,
            None => !lbl_map(labels@.take(i as int)).contains_key(l@),
        },
    decreases i,
{
    if i == 0 {
        assert(labels@.take(0).len() == 0);
        None
    } else {
        assert(labels@.take(i as int).drop_last() =~= labels@.take(i - 1));
        assert(labels@.take(i as int).last() == labels@[i - 1]);
        if label_eq(&labels[i - 1].0, l) {
            Some(labels[i - 1].1)
        } else {
            find_label_from(labels, l, i - 1)
        }
    }
}

/// The offset recorded for `l`, if any `label` line defined it.
fn find_label(labels: &Vec<(Label, usize)>, l: &Label) -> (r: Option<usize>)
    ensures
        match r {
            Some(x) => lbl_map(labels@).contains_key(l@) && lbl_map(labels@)[l@] == x,
            None => !lbl_map(labels@).contains_key(l@),
        },
{
    let n = labels.len();
    let r = find_label_from(labels, l, n);
    assert(labels@.take(n as int) =~= labels@);
    r
}

/// What closing a branch does: the open branch's else-target is rewritten
/// to the next emitted offset. `None` when no branch is open or the
/// recorded position does not hold a branch.
pub open spec fn end_branch_spec(e: EmitV) -> Option<EmitV> {
    match e.last_branch {
        None => None,
        Some(i) => {
            if i < e.code.len() {
                match e.code[i as int] {
                    InstrV::Branch(l, op, r, _else_pc) => Some(
                        EmitV {
                            code: e.code.update(
                                i as int,
                                InstrV::Branch(l, op, r, e.code.len() as usize),
                            ),
                            ..e
                        },
                    ),
                    _ => None,
                }
            } else {
                None
            }
        },
    }
}

impl Emitter {
    /// A fresh emitter with nothing emitted.
    pub fn new() -> (r: Emitter)
        ensures
            r@ == (EmitV {
                code: Seq::empty(),
                last_branch: None::<usize>,
                labels: Map::empty(),
            }),
    {
        let r = Emitter { code: Vec::new(), last_branch: None, labels: Vec::new() };
        assert(r@.code =~= Seq::<InstrV>::empty());
        r
    }

    /// Append one instruction.
    pub fn emit(&mut self, instr: Instr)
        ensures
            final(self)@ == (EmitV { code: old(self)@.code.push(instr@), ..old(self)@ }),
    {
        self.code.push(instr);
        assert(self@.code =~= old(self)@.code.push(instr@));
    }

    /// Remember the next emitted offset as the open branch.
    pub fn begin_branch(&mut self)
        ensures
            final(self)@ == (EmitV {
                last_branch: Some(old(self).code.len() as usize),
                ..old(self)@
            }),
    {
        self.last_branch = Some(self.code.len());
    }

    /// Close the open branch: patch its else-target to the current code
    /// length. Fails when no branch is open.
    pub fn end_branch(&mut self) -> (r: Result<(), ()>)
        ensures
            match end_branch_spec(old(self)@) {
                Some(e2) => r is Ok && final(self)@ == e2,
                None => r is Err && final(self)@ == old(self)@,
            },
    {
        let i = match self.last_branch {
            Some(i) => i,
            None => {
                return Err(());
            },
        };
        if i >= self.code.len() {
            return Err(());
        }
        let next = self.code.len();
        let patched: Instr = match &self.code[i] {
            Instr::Branch(l, op, r, _else_pc) => Instr::Branch(l.dup(), *op, r.clone(), next),
            _ => {
                return Err(());
            },
        };
        self.code.remove(i);
        self.code.insert(i, patched);
        proof {
            assert(self.code@ =~= old(self).code@.update(i as int, patched));
            assert(self@.code =~= old(self)@.code.update(i as int, patched@));
        }
        Ok(())
    }

    /// Record `label` as naming the next emitted offset; re-defining a
    /// label overwrites the earlier record.
    pub fn make_label(&mut self, label: Label)
        ensures
            final(self)@ == (EmitV {
                labels: old(self)@.labels.insert(label@, old(self).code.len() as usize),
                ..old(self)@
            }),
    {
        let at = self.code.len();
        self.labels.push((label, at));
        proof {
            assert(self.labels@.drop_last() =~= old(self).labels@);
        }
    }
}

/// What one instruction becomes in the second pass: a `Goto` is rewritten
/// through the label table, everything else is kept.
pub open spec fn resolve_instr(i: InstrV, labels: Map<LabelV, usize>) -> Option<InstrV> {
    match i {
        InstrV::Goto(l) => {
            if labels.contains_key(l) {
                Some(InstrV::Goto(LabelV::Offset(labels[l])))
            } else {
                None
            }
        },
        _ => Some(i),
    }
}

/// The second pass over all code; `None` when any label is unresolved.
pub open spec fn resolve_spec(code: Seq<InstrV>, labels: Map<LabelV, usize>) -> Option<
    Seq<InstrV>,
>
    decreases code.len(),
{
    if code.len() == 0 {
        Some(Seq::empty())
    } else {
        match resolve_instr(code[0], labels) {
            None => None,
            Some(h) => match resolve_spec(code.drop_first(), labels) {
                None => None,
                Some(t) => Some(seq![h] + t),
            },
        }
    }
}

impl Emitter {
    /// Finish compilation: resolve every `goto` through the label table.
    pub fn into_script(self) -> (r: Result<Script, CompileError>)
        ensures
            match resolve_spec(self@.code, self@.labels) {
                Some(code) => r matches Ok(sc) && sc@ == code,
                None => r matches Err(e) && e == CompileError::UnresolvedLabel,
            },
    {
        let ghost codev = self@.code;
        let ghost labelsv = self@.labels;
        let n = self.code.len();
        let mut out: Vec<Instr> = Vec::new();
        let mut i: usize = 0;
        proof {
            assert(codev.skip(0) =~= codev);
            assert(out@.map_values(|x: Instr| x@) =~= Seq::<InstrV>::empty());
            match resolve_spec(codev, labelsv) {
                Some(t) => {
                    assert(Seq::<InstrV>::empty() + t =~= t);
                },
                None => {},
            }
        }
        while i < n
            invariant
                0 <= i <= n,
                n == self.code@.len(),
                codev == self.code@.map_values(|x: Instr| x@),
                labelsv == lbl_map(self.labels@),
                ({
                    let rest = resolve_spec(codev.skip(i as int), labelsv);
                    match rest {
                        Some(t) => resolve_spec(codev, labelsv) == Some(
                            out@.map_values(|x: Instr| x@) + t,
                        ),
                        None => resolve_spec(codev, labelsv) is None,
                    }
                }),
            decreases n - i,
        {
            assert(codev.skip(i as int)[0] == codev[i as int]);
            assert(codev.skip(i as int).drop_first() =~= codev.skip(i + 1));
            let ghost out_before = out@.map_values(|x: Instr| x@);
            match &self.code[i] {
                Instr::Goto(target) => {
                    match find_label(&self.labels, target) {
                        None => {
                            assert(resolve_spec(codev.skip(i as int), labelsv) is None);
                            return Err(CompileError::UnresolvedLabel);
                        },
                        Some(o) => {
                            out.push(Instr::Goto(Label::Offset(o)));
                        },
                    }
                },
                other => {
                    out.push(other.dup());
                },
            }
            proof {
                let hv = resolve_instr(codev[i as int], labelsv).unwrap();
                assert(out@.map_values(|x: Instr| x@) =~= out_before + seq![hv]);
                let rest1 = resolve_spec(codev.skip(i + 1), labelsv);
                match rest1 {
                    Some(t1) => {
                        assert(resolve_spec(codev.skip(i as int), labelsv) == Some(
                            seq![hv] + t1,
                        ));
                        assert(out_before + (seq![hv] + t1) =~= (out_before + seq![hv]) + t1);
                    },
                    None => {
                        assert(resolve_spec(codev.skip(i as int), labelsv) is None);
                    },
                }
            }
            i = i + 1;
        }
        assert(codev.skip(n as int).len() == 0);
        assert(out@.map_values(|x: Instr| x@) + Seq::<InstrV>::empty() =~= out@.map_values(
            |x: Instr| x@,
        ));
        Ok(Script { code: out })
    }
}

/// `n + 1` with the wrap-around `usize::wrapping_add` has; scripts never
/// get near the wrap, but the definition is total.
pub open spec fn wrap_inc(n: nat) -> usize {
    if n + 1 > usize::MAX {
        (n + 1 - (usize::MAX - usize::MIN + 1)) as usize
    } else {
        (n + 1) as usize
    }
}

/// `e` with one more instruction emitted.
pub open spec fn emit1(e: EmitV, i: InstrV) -> EmitV {
    EmitV { code: e.code.push(i), ..e }
}

/// What one non-blank, trimmed line does to the emitter, or the error it
/// raises; `line_no` is the 1-based line for error reports.
pub open spec fn line_step(e: EmitV, t: Seq<char>, line_no: usize) -> Result<
    EmitV,
    CompileError,
> {
    let parts = split_args_spec(t, 3);
    if parts.len() == 0 {
        Ok(e)
    } else if parts[0] == "cleartext"@ {
        Ok(emit1(e, InstrV::ClearText))
    } else if parts[0] == "gsetvar"@ {
        if parts.len() == 4 && is_assign_op(parts[2]) {
            match parse_var_ref_spec(parts[1]) {
                None => Err(CompileError::BadVarRef { line: line_no }),
                Some(tg) => Ok(emit1(e, InstrV::GSetVar(tg, unescape_spec(parts[3])))),
            }
        } else {
            Err(CompileError::UnknownDirective { line: line_no })
        }
    } else if parts[0] == "setvar"@ {
        if parts.len() == 4 && is_assign_op(parts[2]) {
            match parse_var_ref_spec(parts[1]) {
                None => Err(CompileError::BadVarRef { line: line_no }),
                Some(tg) => Ok(emit1(e, InstrV::SetVar(tg, unescape_spec(parts[3])))),
            }
        } else if parts.len() == 3 {
            match parse_var_ref_spec(parts[1]) {
                None => Err(CompileError::BadVarRef { line: line_no }),
                Some(tg) => Ok(emit1(e, InstrV::SetVar(tg, unescape_spec(parts[2])))),
            }
        } else {
            Err(CompileError::UnknownDirective { line: line_no })
        }
    } else if parts[0] == "bgload"@ {
        if parts.len() == 2 {
            match parse_var_ref_spec(parts[1]) {
                None => Err(CompileError::BadVarRef { line: line_no }),
                Some(f) => Ok(emit1(e, InstrV::BgLoad(f, None))),
            }
        } else if parts.len() == 3 {
            match parse_var_ref_spec(parts[1]) {
                None => Err(CompileError::BadVarRef { line: line_no }),
                Some(f) => match parse_usize_spec(parts[2]) {
                    None => Err(CompileError::BadNumber { line: line_no }),
                    Some(tm) => Ok(emit1(e, InstrV::BgLoad(f, Some(tm)))),
                },
            }
        } else {
            Err(CompileError::UnknownDirective { line: line_no })
        }
    } else if parts[0] == "setimg"@ {
        if parts.len() == 4 {
            match parse_var_ref_spec(parts[1]) {
                None => Err(CompileError::BadVarRef { line: line_no }),
                Some(f) => match parse_usize_spec(parts[2]) {
                    None => Err(CompileError::BadNumber { line: line_no }),
                    Some(x) => match parse_usize_spec(parts[3]) {
                        None => Err(CompileError::BadNumber { line: line_no }),
                        Some(y) => Ok(emit1(e, InstrV::SetImg(f, x, y))),
                    },
                },
            }
        } else {
            Err(CompileError::UnknownDirective { line: line_no })
        }
    } else if parts[0] == "delay"@ {
        if parts.len() == 2 {
            match parse_usize_spec(parts[1]) {
                None => Err(CompileError::BadNumber { line: line_no }),
                Some(d) => Ok(emit1(e, InstrV::Delay(d))),
            }
        } else {
            Err(CompileError::UnknownDirective { line: line_no })
        }
    } else if parts[0] == "if"@ {
        if parts.len() == 4 {
            match parse_var_ref_spec(parts[1]) {
                None => Err(CompileError::BadVarRef { line: line_no }),
                Some(tg) => match op_spec(parts[2]) {
                    None => Err(CompileError::UnknownOperator { line: line_no }),
                    Some(op) => Ok(
                        EmitV {
                            code: e.code.push(
                                InstrV::Branch(
                                    VarV { is_ref: true, ..tg },
                                    op,
                                    parts[3],
                                    wrap_inc(e.code.len()),
                                ),
                            ),
                            last_branch: Some(e.code.len() as usize),
                            labels: e.labels,
                        },
                    ),
                },
            }
        } else {
            Err(CompileError::UnknownDirective { line: line_no })
        }
    } else if parts[0] == "fi"@ {
        if parts.len() == 1 {
            match end_branch_spec(e) {
                None => Err(CompileError::StrayFi { line: line_no }),
                Some(e2) => Ok(e2),
            }
        } else {
            Err(CompileError::UnknownDirective { line: line_no })
        }
    } else if parts[0] == "text"@ {
        let payload = trim_spec(
            if t.len() >= 4 {
                t.skip(4)
            } else {
                Seq::empty()
            },
        );
        Ok(emit1(e, InstrV::Text(parse_text_spec(payload).0, parse_text_spec(payload).1)))
    } else if parts[0] == "goto"@ {
        if parts.len() == 2 {
            match parse_label_spec(parts[1]) {
                None => Err(CompileError::BadNumber { line: line_no }),
                Some(l) => Ok(emit1(e, InstrV::Goto(l))),
            }
        } else {
            Err(CompileError::UnknownDirective { line: line_no })
        }
    } else if parts[0] == "label"@ {
        if parts.len() == 2 {
            match parse_label_spec(parts[1]) {
                None => Err(CompileError::BadNumber { line: line_no }),
                Some(l) => Ok(
                    EmitV { labels: e.labels.insert(l, e.code.len() as usize), ..e },
                ),
            }
        } else {
            Err(CompileError::UnknownDirective { line: line_no })
        }
    } else if parts[0] == "sound"@ {
        if parts.len() == 2 {
            Ok(emit1(e, InstrV::Sound(parts[1], None)))
        } else if parts.len() == 3 {
            match parse_usize_spec(parts[2]) {
                None => Err(CompileError::BadNumber { line: line_no }),
                Some(p) => Ok(emit1(e, InstrV::Sound(parts[1], Some(p)))),
            }
        } else {
            Err(CompileError::UnknownDirective { line: line_no })
        }
    } else if parts[0] == "music"@ {
        if parts.len() == 2 {
            Ok(emit1(e, InstrV::Music(parts[1])))
        } else {
            Err(CompileError::UnknownDirective { line: line_no })
        }
    } else if parts[0] == "choice"@ {
        let payload = skip_spaces_front(
            if t.len() >= 6 {
                t.skip(6)
            } else {
                Seq::empty()
            },
        );
        match parse_refs_spec(split_pipe(payload)) {
            None => Err(CompileError::BadVarRef { line: line_no }),
            Some(refs) => Ok(emit1(e, InstrV::Choice(refs))),
        }
    } else if parts[0] == "jump"@ {
        if parts.len() == 2 {
            Ok(emit1(e, InstrV::Jump(parts[1])))
        } else {
            Err(CompileError::UnknownDirective { line: line_no })
        }
    } else {
        Err(CompileError::UnknownDirective { line: line_no })
    }
}

/// Run `compile_line` on one trimmed source line.
pub fn compile_line(em: &mut Emitter, line: &str, line_no: usize) -> (r: Result<
    (),
    CompileError,
>)
    ensures
        match line_step(old(em)@, line@, line_no) {
            Ok(e2) => r is Ok && final(em)@ == e2,
            Err(er) => (r matches Err(x) && x == er) && final(em)@ == old(em)@,
        },
{
    let parts = split_args(line, 4);
    let ghost pv = split_args_spec(line@, 3);
    let np = parts.len();
    proof {
        assert(parts.deep_view() == pv);
        assert(np == pv.len());
        assert forall|k: int| 0 <= k < np implies #[trigger] parts@[k]@ == pv[k] by {
            assert(parts.deep_view()[k] == parts@[k].deep_view());
        }
    }
    if np == 0 {
        return Ok(());
    }
    let kw: &str = parts[0];
    if str_eq(kw, "cleartext") {
        em.emit(Instr::ClearText);
        Ok(())
    } else if str_eq(kw, "gsetvar") {
        if np == 4 && check_assign_op(parts[2]) {
            match parse_var_ref(parts[1]) {
                None => Err(CompileError::BadVarRef { line: line_no }),
                Some(tg) => {
                    let value = unescape(parts[3]);
                    em.emit(Instr::GSetVar(tg, value));
                    Ok(())
                },
            }
        } else {
            Err(CompileError::UnknownDirective { line: line_no })
        }
    } else if str_eq(kw, "setvar") {
        if np == 4 && check_assign_op(parts[2]) {
            match parse_var_ref(parts[1]) {
                None => Err(CompileError::BadVarRef { line: line_no }),
                Some(tg) => {
                    let value = unescape(parts[3]);
                    em.emit(Instr::SetVar(tg, value));
                    Ok(())
                },
            }
        } else if np == 3 {
            match parse_var_ref(parts[1]) {
                None => Err(CompileError::BadVarRef { line: line_no }),
                Some(tg) => {
                    let value = unescape(parts[2]);
                    em.emit(Instr::SetVar(tg, value));
                    Ok(())
                },
            }
        } else {
            Err(CompileError::UnknownDirective { line: line_no })
        }
    } else if str_eq(kw, "bgload") {
        if np == 2 {
            match parse_var_ref(parts[1]) {
                None => Err(CompileError::BadVarRef { line: line_no }),
                Some(f) => {
                    em.emit(Instr::BgLoad(f, None));
                    Ok(())
                },
            }
        } else if np == 3 {
            match parse_var_ref(parts[1]) {
                None => Err(CompileError::BadVarRef { line: line_no }),
                Some(f) => match parse_usize(parts[2]) {
                    None => Err(CompileError::BadNumber { line: line_no }),
                    Some(tm) => {
                        em.emit(Instr::BgLoad(f, Some(tm)));
                        Ok(())
                    },
                },
            }
        } else {
            Err(CompileError::UnknownDirective { line: line_no })
        }
    } else if str_eq(kw, "setimg") {
        if np == 4 {
            match parse_var_ref(parts[1]) {
                None => Err(CompileError::BadVarRef { line: line_no }),
                Some(f) => match parse_usize(parts[2]) {
                    None => Err(CompileError::BadNumber { line: line_no }),
                    Some(x) => match parse_usize(parts[3]) {
                        None => Err(CompileError::BadNumber { line: line_no }),
                        Some(y) => {
                            em.emit(Instr::SetImg(f, x, y));
                            Ok(())
                        },
                    },
                },
            }
        } else {
            Err(CompileError::UnknownDirective { line: line_no })
        }
    } else if str_eq(kw, "delay") {
        if np == 2 {
            match parse_usize(parts[1]) {
                None => Err(CompileError::BadNumber { line: line_no }),
                Some(d) => {
                    em.emit(Instr::Delay(d));
                    Ok(())
                },
            }
        } else {
            Err(CompileError::UnknownDirective { line: line_no })
        }
    } else if str_eq(kw, "if") {
        if np == 4 {
            match parse_var_ref(parts[1]) {
                None => Err(CompileError::BadVarRef { line: line_no }),
                Some(tg) => match parse_operator(parts[2]) {
                    None => Err(CompileError::UnknownOperator { line: line_no }),
                    Some(op) => {
                        let target = VarOrConst {
                            is_ref: true,
                            name: tg.name,
                            index: tg.index,
                        };
                        let rhs = crate::memory::copy_str(parts[3]);
                        let else_pc = em.code.len().wrapping_add(1);
                        assert(else_pc == wrap_inc(old(em)@.code.len()));
                        em.begin_branch();
                        em.emit(Instr::Branch(target, op, rhs, else_pc));
                        Ok(())
                    },
                },
            }
        } else {
            Err(CompileError::UnknownDirective { line: line_no })
        }
    } else if str_eq(kw, "fi") {
        if np == 1 {
            match em.end_branch() {
                Ok(()) => Ok(()),
                Err(()) => Err(CompileError::StrayFi { line: line_no }),
            }
        } else {
            Err(CompileError::UnknownDirective { line: line_no })
        }
    } else if str_eq(kw, "text") {
        let n = line.unicode_len();
        let payload: &str = if n >= 4 {
            let rest = line.substring_char(4, n);
            assert(rest@ =~= line@.skip(4));
            trim(rest)
        } else {
            let empty_payload = "";
            proof {
                reveal_strlit("");
                assert(empty_payload@ =~= Seq::<char>::empty());
                assert(trim_spec(Seq::<char>::empty()) =~= Seq::<char>::empty());
            }
            empty_payload
        };
        let (who, what) = parse_text(payload);
        em.emit(Instr::Text(who, what));
        Ok(())
    } else if str_eq(kw, "goto") {
        if np == 2 {
            match parse_label(parts[1]) {
                None => Err(CompileError::BadNumber { line: line_no }),
                Some(l) => {
                    em.emit(Instr::Goto(l));
                    Ok(())
                },
            }
        } else {
            Err(CompileError::UnknownDirective { line: line_no })
        }
    } else if str_eq(kw, "label") {
        if np == 2 {
            match parse_label(parts[1]) {
                None => Err(CompileError::BadNumber { line: line_no }),
                Some(l) => {
                    em.make_label(l);
                    Ok(())
                },
            }
        } else {
            Err(CompileError::UnknownDirective { line: line_no })
        }
    } else if str_eq(kw, "sound") {
        if np == 2 {
            let f = crate::memory::copy_str(parts[1]);
            em.emit(Instr::Sound(f, None));
            Ok(())
        } else if np == 3 {
            match parse_usize(parts[2]) {
                None => Err(CompileError::BadNumber { line: line_no }),
                Some(p) => {
                    let f = crate::memory::copy_str(parts[1]);
                    em.emit(Instr::Sound(f, Some(p)));
                    Ok(())
                },
            }
        } else {
            Err(CompileError::UnknownDirective { line: line_no })
        }
    } else if str_eq(kw, "music") {
        if np == 2 {
            let f = crate::memory::copy_str(parts[1]);
            em.emit(Instr::Music(f));
            Ok(())
        } else {
            Err(CompileError::UnknownDirective { line: line_no })
        }
    } else if str_eq(kw, "choice") {
        let n = line.unicode_len();
        let payload: &str = if n >= 6 {
            let rest = line.substring_char(6, n);
            assert(rest@ =~= line@.skip(6));
            trim_start(rest)
        } else {
            let empty_payload = "";
            proof {
                reveal_strlit("");
                assert(empty_payload@ =~= Seq::<char>::empty());
                assert(skip_spaces_front(Seq::<char>::empty()) =~= Seq::<char>::empty());
            }
            empty_payload
        };
        let pieces = split_pipe_exec(payload);
        match parse_refs_from(&pieces, 0) {
            None => {
                proof {
                    assert(pieces.deep_view().skip(0) =~= pieces.deep_view());
                }
                Err(CompileError::BadVarRef { line: line_no })
            },
            Some(refs) => {
                proof {
                    assert(pieces.deep_view().skip(0) =~= pieces.deep_view());
                }
                em.emit(Instr::Choice(refs));
                Ok(())
            },
        }
    } else if str_eq(kw, "jump") {
        if np == 2 {
            let f = crate::memory::copy_str(parts[1]);
            em.emit(Instr::Jump(f));
            Ok(())
        } else {
            Err(CompileError::UnknownDirective { line: line_no })
        }
    } else {
        Err(CompileError::UnknownDirective { line: line_no })
    }
}

/// The fresh emitter the line pass starts from.
pub open spec fn init_emit() -> EmitV {
    EmitV { code: Seq::empty(), last_branch: None, labels: Map::empty() }
}

/// The whole line pass: lines are trimmed, blank ones skipped, the rest
/// dispatched in order; the first error aborts.
pub open spec fn run_lines(e: EmitV, ls: Seq<Seq<char>>, line_no: usize) -> Result<
    EmitV,
    CompileError,
>
    decreases ls.len(),
{
    if ls.len() == 0 {
        Ok(e)
    } else {
        let t = trim_spec(ls[0]);
        if t.len() == 0 {
            run_lines(e, ls.drop_first(), wrap_inc(line_no as nat))
        } else {
            match line_step(e, t, line_no) {
                Err(er) => Err(er),
                Ok(e2) => run_lines(e2, ls.drop_first(), wrap_inc(line_no as nat)),
            }
        }
    }
}

/// What compiling a whole source text yields.
pub open spec fn compile_spec(src: Seq<char>) -> Result<Seq<InstrV>, CompileError> {
    match run_lines(init_emit(), lines_of(src), 1) {
        Err(e) => Err(e),
        Ok(e) => match resolve_spec(e.code, e.labels) {
            None => Err(CompileError::UnresolvedLabel),
            Some(code) => Ok(code),
        },
    }
}

/// A branch instruction at `at` in code of length `len` has its else
/// target strictly past itself and at most one past the end.
pub open spec fn branch_wf(i: InstrV, at: int, len: int) -> bool {
    i matches InstrV::Branch(_l, _op, _r, el) ==> at < el <= len
}

/// What the line pass keeps true of its accumulator: every recorded label
/// offset and every branch target stays within the emitted code.
pub open spec fn emit_inv(e: EmitV) -> bool {
    &&& forall|l: LabelV| #[trigger] e.labels.contains_key(l) ==> e.labels[l] <= e.code.len()
    &&& forall|k: int| 0 <= k < e.code.len() ==> branch_wf(#[trigger] e.code[k], k, e.code.len() as int)
}

proof fn lemma_inv_push(e: EmitV, ins: InstrV)
    requires
        emit_inv(e),
        branch_wf(ins, e.code.len() as int, e.code.len() + 1 as int),
    ensures
        emit_inv(emit1(e, ins)),
{
    let e2 = emit1(e, ins);
    assert forall|k: int| 0 <= k < e2.code.len() implies branch_wf(
        #[trigger] e2.code[k],
        k,
        e2.code.len() as int,
    ) by {
        if k < e.code.len() {
            assert(e2.code[k] == e.code[k]);
            assert(branch_wf(e.code[k], k, e.code.len() as int));
        } else {
            assert(e2.code[k] == ins);
        }
    }
}

proof fn lemma_line_step_inv(e: EmitV, t: Seq<char>, n: usize)
    requires
        emit_inv(e),
        e.code.len() < usize::MAX,
    ensures
        line_step(e, t, n) matches Ok(e2) ==> emit_inv(e2) && e.code.len() <= e2.code.len()
            <= e.code.len() + 1,
{
    reveal_strlit("cleartext");
    reveal_strlit("gsetvar");
    reveal_strlit("setvar");
    reveal_strlit("bgload");
    reveal_strlit("setimg");
    reveal_strlit("delay");
    reveal_strlit("if");
    reveal_strlit("fi");
    reveal_strlit("text");
    reveal_strlit("goto");
    reveal_strlit("label");
    reveal_strlit("sound");
    reveal_strlit("music");
    reveal_strlit("choice");
    reveal_strlit("jump");
    assert("cleartext"@.len() == 9);
    assert("gsetvar"@.len() == 7);
    assert("setvar"@.len() == 6);
    assert("bgload"@.len() == 6);
    assert("setimg"@.len() == 6);
    assert("delay"@.len() == 5);
    assert("if"@.len() == 2);
    assert("fi"@.len() == 2);
    assert("text"@.len() == 4);
    assert("goto"@.len() == 4);
    assert("label"@.len() == 5);
    assert("sound"@.len() == 5);
    assert("music"@.len() == 5);
    assert("choice"@.len() == 6);
    assert("jump"@.len() == 4);
    assert("setvar"@[0] == 's' && "setvar"@[3] == 'v');
    assert("bgload"@[0] == 'b');
    assert("setimg"@[0] == 's' && "setimg"@[3] == 'i');
    assert("choice"@[0] == 'c');
    assert("delay"@[0] == 'd');
    assert("label"@[0] == 'l');
    assert("sound"@[0] == 's');
    assert("music"@[0] == 'm');
    assert("if"@[0] == 'i');
    assert("fi"@[0] == 'f');
    assert("text"@[0] == 't');
    assert("goto"@[0] == 'g');
    assert("jump"@[0] == 'j');
    if line_step(e, t, n) is Ok {
        let e2 = line_step(e, t, n).unwrap();
        let parts = split_args_spec(t, 3);
        if parts.len() == 0 {
        } else if parts[0] == "if"@ && parts.len() == 4 && parse_var_ref_spec(parts[1]) is Some
            && op_spec(parts[2]) is Some {
            let ins = e2.code.last();
            assert(e2.code == e.code.push(ins));
            assert(branch_wf(ins, e.code.len() as int, e.code.len() + 1 as int)) by {
                assert(wrap_inc(e.code.len()) == e.code.len() + 1);
            }
            lemma_inv_push(e, ins);
            assert(e2 == EmitV { last_branch: e2.last_branch, ..emit1(e, ins) });
        } else if parts[0] == "fi"@ && parts.len() == 1 {
            let i = e.last_branch.unwrap() as int;
            assert(e2 == end_branch_spec(e).unwrap());
            assert forall|k: int| 0 <= k < e2.code.len() implies branch_wf(
                #[trigger] e2.code[k],
                k,
                e2.code.len() as int,
            ) by {
                if k != i {
                    assert(e2.code[k] == e.code[k]);
                    assert(branch_wf(e.code[k], k, e.code.len() as int));
                }
            }
        } else if parts[0] == "label"@ && parts.len() == 2 && parse_label_spec(parts[1]) is Some {
            assert(e2.code == e.code);
        } else if e2.code.len() == e.code.len() + 1 {
            let ins = e2.code.last();
            assert(e2.code == e.code.push(ins));
            assert(!(ins matches InstrV::Branch(_l, _op, _r, _el)));
            lemma_inv_push(e, ins);
        } else {
            assert(e2.code == e.code);
            assert(e2.labels == e.labels);
        }
    }
}

proof fn lemma_resolve_elems(code: Seq<InstrV>, labels: Map<LabelV, usize>)
    requires
        resolve_spec(code, labels) is Some,
    ensures
        ({
            let rv = resolve_spec(code, labels).unwrap();
            &&& rv.len() == code.len()
            &&& forall|k: int|
                0 <= k < code.len() ==> resolve_instr(#[trigger] code[k], labels) is Some
                    && rv[k] == resolve_instr(code[k], labels).unwrap()
        }),
    decreases code.len(),
{
    if code.len() > 0 {
        lemma_resolve_elems(code.drop_first(), labels);
        let rv = resolve_spec(code, labels).unwrap();
        let rt = resolve_spec(code.drop_first(), labels).unwrap();
        assert(rv == seq![resolve_instr(code[0], labels).unwrap()] + rt);
        assert(forall|k: int|
            1 <= k < code.len() ==> #[trigger] code[k] == code.drop_first()[k - 1]);
        assert(forall|k: int| 1 <= k < rv.len() ==> #[trigger] rv[k] == rt[k - 1]);
    }
}

/// Compile a whole script source: the line pass, then label resolution.
/// A compiled script is well-formed: every `Goto` is a resolved offset no
/// further than one past the end, and every branch's else-target lies
/// strictly past the branch, at most one past the end.
pub fn compile_script(source: &str) -> (r: Result<Script, CompileError>)
    ensures
        match compile_spec(source@) {
            Ok(code) => r matches Ok(sc) && sc@ == code,
            Err(e) => r matches Err(e2) && e2 == e,
        },
        r matches Ok(sc) ==> crate::script::script_wf(sc@),
{
    let lines = split_lines(source);
    let ghost lv = lines_of(source@);
    let mut em = Emitter::new();
    let ghost em0 = em@;
    let nl = lines.len();
    let mut i: usize = 0;
    let mut ln: usize = 1;
    proof {
        assert(lv.skip(0) =~= lv);
    }
    while i < nl
        invariant
            0 <= i <= nl,
            nl == lines@.len(),
            lines.deep_view() == lv,
            lv == lines_of(source@),
            em0 == init_emit(),
            run_lines(em0, lv, 1) == run_lines(em@, lv.skip(i as int), ln),
            emit_inv(em@),
            em@.code.len() <= i,
        decreases nl - i,
    {
        proof {
            assert(lv.skip(i as int)[0] == lv[i as int]);
            assert(lv[i as int] == lines.deep_view()[i as int]);
            assert(lines.deep_view()[i as int] == lines@[i as int].deep_view());
            assert(lv.skip(i as int).drop_first() =~= lv.skip(i + 1));
        }
        let t = trim(lines[i]);
        if t.unicode_len() == 0 {
        } else {
            proof {
                lemma_line_step_inv(em@, t@, ln);
            }
            match compile_line(&mut em, t, ln) {
                Ok(()) => {},
                Err(e) => {
                    proof {
                        assert(t@ == trim_spec(lv.skip(i as int)[0]));
                        assert(line_step(em@, t@, ln) == Err::<EmitV, CompileError>(e));
                        assert(run_lines(em@, lv.skip(i as int), ln) == Err::<
                            EmitV,
                            CompileError,
                        >(e));
                        assert(run_lines(em0, lv, 1) == Err::<EmitV, CompileError>(e));
                    }
                    return Err(e);
                },
            }
        }
        i = i + 1;
        ln = ln.wrapping_add(1);
    }
    assert(lv.skip(nl as int).len() == 0);
    assert(run_lines(em0, lv, 1) == Ok::<EmitV, CompileError>(em@));
    let ghost ev = em@;
    let r = em.into_script();
    proof {
        if r is Ok {
            let rv = resolve_spec(ev.code, ev.labels).unwrap();
            lemma_resolve_elems(ev.code, ev.labels);
            assert forall|k: int| 0 <= k < rv.len() implies crate::script::instr_wf(
                #[trigger] rv[k],
                k,
                rv.len() as int,
            ) by {
                match ev.code[k] {
                    InstrV::Goto(l) => {
                        assert(resolve_instr(ev.code[k], ev.labels) is Some);
                        assert(ev.labels.contains_key(l));
                        assert(rv[k] == InstrV::Goto(LabelV::Offset(ev.labels[l])));
                    },
                    _ => {
                        assert(rv[k] == ev.code[k]);
                        assert(branch_wf(ev.code[k], k, ev.code.len() as int));
                    },
                }
            }
        }
    }
    r
}

} // verus!
