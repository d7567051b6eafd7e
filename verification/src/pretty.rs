//! Printing a compiled script back to source text. Resolved goto offsets
//! are written through synthetic `@`-labels, one per instruction position,
//! so that compiling the printed text reproduces the instruction vector.

use vstd::prelude::*;
use crate::memory::copy_str;
use crate::script::{Instr, InstrV, Label, LabelV, Operator, Script, VarOrConst, VarV};
use crate::text::{dec_str, usize_to_string};

verus! {

/// A single space, as printed between tokens.
pub open spec fn sp() -> Seq<char> {
    seq![' ']
}

/// The textual form of a comparison operator.
pub open spec fn op_text(op: Operator) -> Seq<char> {
    match op {
        Operator::Equal => "=="@,
        Operator::NotEqual => "!="@,
        Operator::Less => "<"@,
        Operator::LessEqual => "<="@,
    }
}

/// The textual form of an operand: `$` for a reference, the name, and the
/// bracketed index when there is one.
pub open spec fn var_text(v: VarV) -> Seq<char> {
    (if v.is_ref {
        seq!['$']
    } else {
        Seq::empty()
    }) + v.name + (match v.index {
        Some(i) => seq!['['] + dec_str(i as nat) + seq![']'],
        None => Seq::empty(),
    })
}

/// The textual form of a label: indexed and resolved labels print as
/// `@`-numbers, named ones as their name.
pub open spec fn label_text(l: LabelV) -> Seq<char> {
    match l {
        LabelV::Offset(o) => seq!['@'] + dec_str(o as nat),
        LabelV::Indexed(i) => seq!['@'] + dec_str(i as nat),
        LabelV::Named(n) => n,
    }
}

/// The choice alternatives joined with `|`.
pub open spec fn join_pipe(refs: Seq<VarV>) -> Seq<char>
    decreases refs.len(),
{
    if refs.len() == 0 {
        Seq::empty()
    } else if refs.len() == 1 {
        var_text(refs[0])
    } else {
        var_text(refs[0]) + seq!['|'] + join_pipe(refs.drop_first())
    }
}

/// The one-line source form of an instruction. A quoted speaker and body
/// reproduce a two-part text; branches print without their else target,
/// which a following `fi` line re-establishes.
pub open spec fn line_text(i: InstrV) -> Seq<char> {
    match i {
        InstrV::ClearText => "cleartext"@,
        InstrV::SetVar(t, v) => "setvar"@ + sp() + var_text(t) + sp() + "="@ + sp() + v,
        InstrV::GSetVar(t, v) => "gsetvar"@ + sp() + var_text(t) + sp() + "="@ + sp() + v,
        InstrV::BgLoad(f, time) => match time {
            None => "bgload"@ + sp() + var_text(f),
            Some(tm) => "bgload"@ + sp() + var_text(f) + sp() + dec_str(tm as nat),
        },
        InstrV::SetImg(f, x, y) => "setimg"@ + sp() + var_text(f) + sp() + dec_str(x as nat)
            + sp() + dec_str(y as nat),
        InstrV::Delay(d) => "delay"@ + sp() + dec_str(d as nat),
        InstrV::Branch(l, op, r, _e) => "if"@ + sp() + var_text(l) + sp() + op_text(op) + sp()
            + r,
        InstrV::Text(who, b) => match who {
            None => if b.len() == 0 {
                "text"@
            } else {
                "text"@ + sp() + b
            },
            Some(w) => "text"@ + sp() + seq!['"'] + w + seq!['"'] + sp() + seq!['"'] + b
                + seq!['"'],
        },
        InstrV::Goto(l) => "goto"@ + sp() + label_text(l),
        InstrV::Sound(f, arg) => match arg {
            None => "sound"@ + sp() + f,
            Some(p) => "sound"@ + sp() + f + sp() + dec_str(p as nat),
        },
        InstrV::Music(f) => "music"@ + sp() + f,
        InstrV::Choice(refs) => "choice"@ + sp() + join_pipe(refs),
        InstrV::Jump(f) => "jump"@ + sp() + f,
    }
}

fn op_string(op: Operator) -> (r: String)
    ensures
        r@ == op_text(op),
{
    match op {
        Operator::Equal => copy_str("=="),
        Operator::NotEqual => copy_str("!="),
        Operator::Less => copy_str("<"),
        Operator::LessEqual => copy_str("<="),
    }
}

fn var_string(v: &VarOrConst) -> (r: String)
    ensures
        r@ == var_text(v@),
{
    let mut out = String::new();
    if v.is_ref {
        out.append("$");
        proof {
            reveal_strlit("$");
            assert("$"@ =~= seq!['$']);
        }
    }
    out.append(v.name.as_str());
    match v.index {
        Some(i) => {
            out.append("[");
            let d = usize_to_string(i);
            out.append(d.as_str());
            out.append("]");
            proof {
                reveal_strlit("[");
                reveal_strlit("]");
                assert("["@ =~= seq!['[']);
                assert("]"@ =~= seq![']']);
                assert(out@ =~= var_text(v@));
            }
        },
        None => {
            proof {
                assert(out@ =~= var_text(v@));
            }
        },
    }
    out
}

fn label_string(l: &Label) -> (r: String)
    ensures
        r@ == label_text(l@),
{
    match l {
        Label::Offset(o) => {
            let mut out = copy_str("@");
            let d = usize_to_string(*o);
            out.append(d.as_str());
            proof {
                reveal_strlit("@");
                assert("@"@ =~= seq!['@']);
                assert(out@ =~= label_text(l@));
            }
            out
        },
        Label::Indexed(i) => {
            let mut out = copy_str("@");
            let d = usize_to_string(*i);
            out.append(d.as_str());
            proof {
                reveal_strlit("@");
                assert("@"@ =~= seq!['@']);
                assert(out@ =~= label_text(l@));
            }
            out
        },
        Label::Named(n) => n.clone(),
    }
}

fn join_pipe_string(refs: &Vec<VarOrConst>, i: usize) -> (r: String)
    requires
        i <= refs@.len(),
    ensures
        r@ == join_pipe(refs@.map_values(|v: VarOrConst| v@).skip(i as int)),
    decreases refs@.len() - i,
{
    let ghost rv = refs@.map_values(|v: VarOrConst| v@);
    let n = refs.len();
    if i == n {
        let r = String::new();
        assert(r@ =~= join_pipe(rv.skip(i as int)));
        r
    } else {
        assert(rv.skip(i as int)[0] == rv[i as int]);
        let mut out = var_string(&refs[i]);
        if i + 1 < n {
            out.append("|");
            let tail = join_pipe_string(refs, i + 1);
            out.append(tail.as_str());
            proof {
                reveal_strlit("|");
                assert("|"@ =~= seq!['|']);
                assert(rv.skip(i as int).drop_first() =~= rv.skip(i + 1));
                assert(rv.skip(i as int).len() > 1);
                assert(out@ =~= join_pipe(rv.skip(i as int)));
            }
        } else {
            proof {
                assert(rv.skip(i as int).len() == 1);
                assert(out@ =~= join_pipe(rv.skip(i as int)));
            }
        }
        out
    }
}

/// The one-line source form of an instruction.
pub fn instr_line(i: &Instr) -> (r: String)
    ensures
        r@ == line_text(i@),
{
    proof {
        reveal_strlit(" ");
        assert(" "@ =~= sp());
    }
    match i {
        Instr::ClearText => copy_str("cleartext"),
        Instr::SetVar(t, v) => {
            let mut out = copy_str("setvar");
            out.append(" ");
            let tv = var_string(t);
            out.append(tv.as_str());
            out.append(" ");
            out.append("=");
            out.append(" ");
            out.append(v.as_str());
            proof {
                assert(out@ =~= line_text(i@));
            }
            out
        },
        Instr::GSetVar(t, v) => {
            let mut out = copy_str("gsetvar");
            out.append(" ");
            let tv = var_string(t);
            out.append(tv.as_str());
            out.append(" ");
            out.append("=");
            out.append(" ");
            out.append(v.as_str());
            proof {
                assert(out@ =~= line_text(i@));
            }
            out
        },
        Instr::BgLoad(f, time) => {
            let mut out = copy_str("bgload");
            out.append(" ");
            let fv = var_string(f);
            out.append(fv.as_str());
            match time {
                Some(tm) => {
                    out.append(" ");
                    let d = usize_to_string(*tm);
                    out.append(d.as_str());
                },
                None => (),
            }
            proof {
                assert(out@ =~= line_text(i@));
            }
            out
        },
        Instr::SetImg(f, x, y) => {
            let mut out = copy_str("setimg");
            out.append(" ");
            let fv = var_string(f);
            out.append(fv.as_str());
            out.append(" ");
            let dx = usize_to_string(*x);
            out.append(dx.as_str());
            out.append(" ");
            let dy = usize_to_string(*y);
            out.append(dy.as_str());
            proof {
                assert(out@ =~= line_text(i@));
            }
            out
        },
        Instr::Delay(d) => {
            let mut out = copy_str("delay");
            out.append(" ");
            let dd = usize_to_string(*d);
            out.append(dd.as_str());
            proof {
                assert(out@ =~= line_text(i@));
            }
            out
        },
        Instr::Branch(l, op, r2, _e) => {
            let mut out = copy_str("if");
            out.append(" ");
            let lv = var_string(l);
            out.append(lv.as_str());
            out.append(" ");
            let ov = op_string(*op);
            out.append(ov.as_str());
            out.append(" ");
            out.append(r2.as_str());
            proof {
                assert(out@ =~= line_text(i@));
            }
            out
        },
        Instr::Text(who, b) => {
            match who {
                None => {
                    if b.unicode_len() == 0 {
                        let out = copy_str("text");
                        proof {
                            assert(out@ =~= line_text(i@));
                        }
                        out
                    } else {
                        let mut out = copy_str("text");
                        out.append(" ");
                        out.append(b.as_str());
                        proof {
                            assert(out@ =~= line_text(i@));
                        }
                        out
                    }
                },
                Some(w) => {
                    let mut out = copy_str("text");
                    out.append(" ");
                    out.append("\"");
                    out.append(w.as_str());
                    out.append("\"");
                    out.append(" ");
                    out.append("\"");
                    out.append(b.as_str());
                    out.append("\"");
                    proof {
                        reveal_strlit("\"");
                        assert("\""@ =~= seq!['"']);
                        assert(out@ =~= line_text(i@));
                    }
                    out
                },
            }
        },
        Instr::Goto(l) => {
            let mut out = copy_str("goto");
            out.append(" ");
            let lv = label_string(l);
            out.append(lv.as_str());
            proof {
                assert(out@ =~= line_text(i@));
            }
            out
        },
        Instr::Sound(f, arg) => {
            let mut out = copy_str("sound");
            out.append(" ");
            out.append(f.as_str());
            match arg {
                Some(p) => {
                    out.append(" ");
                    let d = usize_to_string(*p);
                    out.append(d.as_str());
                },
                None => (),
            }
            proof {
                assert(out@ =~= line_text(i@));
            }
            out
        },
        Instr::Music(f) => {
            let mut out = copy_str("music");
            out.append(" ");
            out.append(f.as_str());
            proof {
                assert(out@ =~= line_text(i@));
            }
            out
        },
        Instr::Choice(refs) => {
            let mut out = copy_str("choice");
            out.append(" ");
            let j = join_pipe_string(refs, 0);
            out.append(j.as_str());
            proof {
                assert(refs@.map_values(|v: VarOrConst| v@).skip(0) =~= refs@.map_values(
                    |v: VarOrConst| v@,
                ));
                assert(out@ =~= line_text(i@));
            }
            out
        },
        Instr::Jump(f) => {
            let mut out = copy_str("jump");
            out.append(" ");
            out.append(f.as_str());
            proof {
                assert(out@ =~= line_text(i@));
            }
            out
        },
    }
}

/// The `label @k` line printed before instruction position `k`.
pub open spec fn label_line(k: nat) -> Seq<char> {
    "label"@ + sp() + seq!['@'] + dec_str(k)
}

/// All lines of a printed script, from position `k` with `pending` the
/// else-target of the not-yet-closed branch: a `fi` closes it where its
/// target lies, every position gets a synthetic label, and one final label
/// marks the end of the code.
pub open spec fn print_from(code: Seq<InstrV>, k: nat, pending: Option<usize>) -> Seq<Seq<char>>
    decreases code.len() - k,
{
    if k >= code.len() {
        (if pending == Some(code.len() as usize) {
            seq!["fi"@]
        } else {
            Seq::empty()
        }) + seq![label_line(code.len() as nat)]
    } else {
        let fi_here = pending == Some(k as usize);
        let next_pending = match code[k as int] {
            InstrV::Branch(_l, _op, _r, e) => Some(e),
            _ => if fi_here {
                None
            } else {
                pending
            },
        };
        (if fi_here {
            seq!["fi"@]
        } else {
            Seq::empty()
        }) + seq![label_line(k)] + seq![line_text(code[k as int])] + print_from(
            code,
            k + 1,
            next_pending,
        )
    }
}

/// Every line of the printed form of `code`.
pub open spec fn print_lines(code: Seq<InstrV>) -> Seq<Seq<char>> {
    print_from(code, 0, None)
}

/// The printed lines joined with newlines.
pub open spec fn join_lines(ls: Seq<Seq<char>>) -> Seq<char>
    decreases ls.len(),
{
    if ls.len() == 0 {
        Seq::empty()
    } else if ls.len() == 1 {
        ls[0]
    } else {
        ls[0] + seq!['\n'] + join_lines(ls.drop_first())
    }
}

fn label_line_string(k: usize) -> (r: String)
    ensures
        r@ == label_line(k as nat),
{
    let mut l = copy_str("label");
    l.append(" ");
    l.append("@");
    let d = usize_to_string(k);
    l.append(d.as_str());
    proof {
        reveal_strlit(" ");
        reveal_strlit("@");
        assert(" "@ =~= sp());
        assert("@"@ =~= seq!['@']);
        assert(l@ =~= label_line(k as nat));
    }
    l
}

fn print_lines_exec(s: &Script) -> (lines: Vec<String>)
    ensures
        lines@.map_values(|l: String| l@) == print_lines(s@),
{
    let ghost codev = s@;
    let n = s.code.len();
    let mut out: Vec<String> = Vec::new();
    let mut pending: Option<usize> = None;
    let mut k: usize = 0;
    proof {
        assert(out@.map_values(|l: String| l@) + print_from(codev, 0, None) =~= print_from(
            codev,
            0,
            None,
        ));
    }
    while k < n
        invariant
            0 <= k <= n,
            n == s.code@.len(),
            codev == s@,
            print_from(codev, 0, None) == out@.map_values(|l: String| l@) + print_from(
                codev,
                k as nat,
                pending,
            ),
        decreases n - k,
    {
        let ghost out_before = out@.map_values(|l: String| l@);
        let ghost pend_before = pending;
        let fi_here = match pending {
            Some(e) => e == k,
            None => false,
        };
        if fi_here {
            out.push(copy_str("fi"));
            pending = None;
        }
        out.push(label_line_string(k));
        out.push(instr_line(&s.code[k]));
        match &s.code[k] {
            Instr::Branch(_l, _op, _r, e) => {
                pending = Some(*e);
            },
            _ => (),
        }
        proof {
            let emitted = (if fi_here {
                seq!["fi"@]
            } else {
                Seq::<Seq<char>>::empty()
            }) + seq![label_line(k as nat)] + seq![line_text(codev[k as int])];
            assert(out@.map_values(|l: String| l@) =~= out_before + emitted);
            assert(print_from(codev, k as nat, pend_before) =~= emitted + print_from(
                codev,
                (k + 1) as nat,
                pending,
            ));
            assert(out_before + (emitted + print_from(codev, (k + 1) as nat, pending)) =~= (
            out_before + emitted) + print_from(codev, (k + 1) as nat, pending));
        }
        k = k + 1;
    }
    let ghost out_before = out@.map_values(|l: String| l@);
    let ghost pend_before = pending;
    let fi_end = match pending {
        Some(e) => e == n,
        None => false,
    };
    if fi_end {
        out.push(copy_str("fi"));
    }
    out.push(label_line_string(n));
    proof {
        let emitted = (if fi_end {
            seq!["fi"@]
        } else {
            Seq::<Seq<char>>::empty()
        }) + seq![label_line(n as nat)];
        assert(out@.map_values(|l: String| l@) =~= out_before + emitted);
        assert(print_from(codev, n as nat, pend_before) =~= emitted);
        assert(out@.map_values(|l: String| l@) =~= print_from(codev, 0, None));
    }
    out
}

fn join_exec(lines: &Vec<String>) -> (r: String)
    ensures
        r@ == join_lines(lines@.map_values(|l: String| l@)),
{
    let ghost lv = lines@.map_values(|l: String| l@);
    let n = lines.len();
    let mut out = String::new();
    if n == 0 {
        assert(out@ =~= join_lines(lv));
        return out;
    }
    out.append(lines[0].as_str());
    let mut i: usize = 1;
    proof {
        assert(out@ =~= lv[0]);
        if n > 1 {
            assert(lv.drop_first() =~= lv.skip(1));
            assert(join_lines(lv) == lv[0] + seq!['\n'] + join_lines(lv.skip(1)));
            assert(lv[0] + seq!['\n'] + join_lines(lv.skip(1)) =~= out@ + (seq!['\n']
                + join_lines(lv.skip(1))));
        } else {
            assert(join_lines(lv) == lv[0]);
            assert(lv[0] =~= out@ + Seq::<char>::empty());
        }
    }
    while i < n
        invariant
            1 <= i <= n,
            n == lines@.len(),
            lv == lines@.map_values(|l: String| l@),
            join_lines(lv) == out@ + (if i < n {
                seq!['\n'] + join_lines(lv.skip(i as int))
            } else {
                Seq::<char>::empty()
            }),
        decreases n - i,
    {
        let ghost out0 = out@;
        out.append("\n");
        out.append(lines[i].as_str());
        proof {
            reveal_strlit("\n");
            assert("\n"@ =~= seq!['\n']);
            assert(lv.skip(i as int)[0] == lv[i as int]);
            assert(lv.skip(i as int).drop_first() =~= lv.skip(i + 1));
            assert(out@ =~= out0 + seq!['\n'] + lv[i as int]);
            if i + 1 < n {
                assert(lv.skip(i as int).len() > 1);
                assert(join_lines(lv.skip(i as int)) == lv[i as int] + seq!['\n'] + join_lines(
                    lv.skip(i + 1),
                ));
                assert(out0 + (seq!['\n'] + join_lines(lv.skip(i as int))) =~= out@ + (
                seq!['\n'] + join_lines(lv.skip(i + 1))));
            } else {
                assert(lv.skip(i as int).len() == 1);
                assert(join_lines(lv.skip(i as int)) == lv[i as int]);
                assert(out0 + (seq!['\n'] + join_lines(lv.skip(i as int))) =~= out@
                    + Seq::<char>::empty());
            }
        }
        i = i + 1;
    }
    out
}

/// Print a whole script as source text: one `fi` where each branch closes,
/// a `label @k` before each position `k`, the instruction lines, and a
/// final label at the end of the code, joined with newlines.
pub fn print_script(s: &Script) -> (r: String)
    ensures
        r@ == join_lines(print_lines(s@)),
{
    let lines = print_lines_exec(s);
    join_exec(&lines)
}

} // verus!
