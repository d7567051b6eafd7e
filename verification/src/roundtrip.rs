//! Print → compile inversion: compiling the printed form of an instruction
//! reproduces it. The side conditions (`printable_*`) rule out exactly the
//! strings whose printed form would re-tokenize differently — embedded
//! whitespace in a token, quotes or backslashes in an unescaped value, and
//! the like.

use vstd::prelude::*;
use crate::compiler::{
    compile_spec, emit1, end_branch_spec, init_emit, is_assign_op, line_step, op_spec,
    parse_label_spec, parse_refs_spec, parse_text_spec, parse_var_ref_spec, resolve_instr,
    resolve_spec, run_lines, split_pipe, wrap_inc, CompileError, EmitV,
};
use crate::pretty::{
    join_lines, join_pipe, label_line, label_text, line_text, op_text, print_from, print_lines,
    sp, var_text,
};
use crate::script::{InstrV, LabelV, Operator, VarV};
use crate::text::{
    dec_str, digit_char, digits_val, find_char, is_digit, is_space, lemma_find_char,
    parse_digit_run, parse_usize_spec, split_args_spec, strip_spec, token_end, unesc,
    unescape_spec,
};

verus! {

/// The decimal rendering of `n` is a digit run whose value is `n` again.
pub proof fn lemma_dec_str_digits(n: nat)
    ensures
        dec_str(n).len() >= 1,
        forall|i: int| 0 <= i < dec_str(n).len() ==> is_digit(#[trigger] dec_str(n)[i]),
        digits_val(dec_str(n)) == n,
    decreases n,
{
    if n < 10 {
        assert(dec_str(n) == seq![digit_char(n)]);
        assert((48 + n) < 256 && ((48 + n) as u8) as u32 == 48 + n);
        assert((digit_char(n) as u32) == 48 + n);
        assert(is_digit(digit_char(n)));
        assert(dec_str(n).drop_last() =~= Seq::<char>::empty());
        assert(digits_val(dec_str(n)) == digits_val(Seq::<char>::empty()) * 10 + (
        digit_char(n) as u32 - 48) as nat);
    } else {
        assert(n / 10 < n && n / 10 >= 1 && n % 10 < 10) by (nonlinear_arith)
            requires
                n >= 10,
        ;
        lemma_dec_str_digits(n / 10);
        let d = dec_str(n / 10);
        let s = d + seq![digit_char((n % 10) as nat)];
        assert(dec_str(n) == s);
        assert(s.drop_last() =~= d);
        assert(s.last() == digit_char((n % 10) as nat));
        assert(is_digit(digit_char((n % 10) as nat)));
        assert(forall|i: int| 0 <= i < d.len() ==> s[i] == d[i]);
        assert((s.last() as u32 - 48) as nat == n % 10);
        assert(digits_val(s) == digits_val(d) * 10 + n % 10);
        assert((n / 10) * 10 + n % 10 == n) by (nonlinear_arith);
    }
}

/// Parsing the decimal rendering of a `usize` gives it back.
pub proof fn lemma_parse_dec(n: usize)
    ensures
        parse_usize_spec(dec_str(n as nat)) == Some(n),
{
    lemma_dec_str_digits(n as nat);
    let t = dec_str(n as nat);
    assert(!is_digit('+'));
    assert(t[0] != '+');
    assert(parse_digit_run(t) == Some(n));
}

/// A digit is not whitespace, and none of the printer's punctuation is a
/// digit.
pub proof fn lemma_digit_chars(n: nat)
    ensures
        forall|i: int|
            0 <= i < dec_str(n).len() ==> !is_space(#[trigger] dec_str(n)[i]) && dec_str(n)[i]
                != '[' && dec_str(n)[i] != ']' && dec_str(n)[i] != '|' && dec_str(n)[i] != '\n'
                && dec_str(n)[i] != '\r',
{
    lemma_dec_str_digits(n);
}

/// Where `c` first occurs in `a + [c] + b` when `a` avoids it: right after
/// `a`.
pub proof fn lemma_find_char_concat(a: Seq<char>, c: char, b: Seq<char>)
    requires
        forall|i: int| 0 <= i < a.len() ==> a[i] != c,
    ensures
        find_char(a + seq![c] + b, c) == a.len(),
    decreases a.len(),
{
    let s = a + seq![c] + b;
    if a.len() == 0 {
        assert(s[0] == c);
    } else {
        assert(s[0] == a[0]);
        assert(s.drop_first() =~= a.drop_first() + seq![c] + b);
        assert(forall|i: int| 0 <= i < a.len() - 1 ==> #[trigger] a.drop_first()[i] == a[i + 1]);
        lemma_find_char_concat(a.drop_first(), c, b);
    }
}

/// When `c` occurs nowhere in `s`, `find_char` reports `-1`.
pub proof fn lemma_find_char_absent(s: Seq<char>, c: char)
    requires
        forall|i: int| 0 <= i < s.len() ==> s[i] != c,
    ensures
        find_char(s, c) == -1,
{
    lemma_find_char(s, c);
    if find_char(s, c) != -1 {
        assert(s[find_char(s, c)] == c);
    }
}

/// A run of non-whitespace followed by nothing or by whitespace is exactly
/// one token.
pub proof fn lemma_token_end_concat(a: Seq<char>, b: Seq<char>)
    requires
        forall|i: int| 0 <= i < a.len() ==> !is_space(#[trigger] a[i]),
        b.len() == 0 || is_space(b[0]),
    ensures
        token_end(a + b) == a.len(),
    decreases a.len(),
{
    let s = a + b;
    if a.len() == 0 {
        assert(s =~= b);
    } else {
        assert(s[0] == a[0]);
        assert(s.drop_first() =~= a.drop_first() + b);
        assert(forall|i: int| 0 <= i < a.len() - 1 ==> #[trigger] a.drop_first()[i] == a[i + 1]);
        lemma_token_end_concat(a.drop_first(), b);
    }
}

/// Splitting a token, one space and a remainder peels the token off the front.
pub proof fn lemma_split_cons(a: Seq<char>, b: Seq<char>, rem: nat)
    requires
        a.len() > 0,
        forall|i: int| 0 <= i < a.len() ==> !is_space(#[trigger] a[i]),
        rem >= 1,
    ensures
        split_args_spec(a + sp() + b, rem) == seq![a] + split_args_spec(b, (rem - 1) as nat),
{
    let s = a + sp() + b;
    assert(s =~= a + (sp() + b));
    assert((sp() + b)[0] == ' ');
    lemma_token_end_concat(a, sp() + b);
    assert(s[0] == a[0]);
    assert(token_end(s) == a.len());
    assert(s.take(a.len() as int) =~= a);
    assert(s.skip(a.len() as int) =~= sp() + b);
    let u = sp() + b;
    assert(is_space(u[0]));
    assert(u.drop_first() =~= b);
    assert(split_args_spec(s, rem) == seq![s.take(token_end(s) as int)] + split_args_spec(
        s.skip(token_end(s) as int),
        (rem - 1) as nat,
    ));
    assert(seq![s.take(token_end(s) as int)] == seq![a]);
    assert(split_args_spec(u, (rem - 1) as nat) == split_args_spec(b, (rem - 1) as nat));
}

/// A single all-non-whitespace token splits to itself.
pub proof fn lemma_split_single(a: Seq<char>, rem: nat)
    requires
        a.len() > 0,
        forall|i: int| 0 <= i < a.len() ==> !is_space(#[trigger] a[i]),
    ensures
        split_args_spec(a, rem) == seq![a],
{
    if rem > 0 {
        lemma_token_end_concat(a, Seq::empty());
        assert(a + Seq::<char>::empty() =~= a);
        assert(token_end(a) == a.len());
        assert(a.take(a.len() as int) =~= a);
        assert(a.skip(a.len() as int).len() == 0);
        assert(seq![a] + split_args_spec(a.skip(a.len() as int), (rem - 1) as nat) =~= seq![a]);
    }
}

/// The name part of a printable operand: non-empty, no whitespace, no
/// brackets or pipe, no leading `$`, no line breaks.
pub open spec fn name_ok(s: Seq<char>) -> bool {
    &&& s.len() > 0
    &&& s[0] != '$'
    &&& forall|i: int|
        0 <= i < s.len() ==> !is_space(#[trigger] s[i]) && s[i] != '[' && s[i] != ']' && s[i]
            != '|'
}

/// A printable operand.
pub open spec fn var_ok(v: VarV) -> bool {
    name_ok(v.name)
}

/// The characters of a printable operand's text: never whitespace, never a
/// pipe.
pub proof fn lemma_var_text_chars(v: VarV)
    requires
        var_ok(v),
    ensures
        var_text(v).len() > 0,
        forall|i: int|
            0 <= i < var_text(v).len() ==> !is_space(#[trigger] var_text(v)[i]) && var_text(v)[i]
                != '|',
{
    match v.index {
        Some(ix) => {
            lemma_digit_chars(ix as nat);
        },
        None => {},
    }
}

/// Parsing the printed form of a printable operand gives it back.
pub proof fn lemma_var_roundtrip(v: VarV)
    requires
        var_ok(v),
    ensures
        parse_var_ref_spec(var_text(v)) == Some(v),
{
    let s = var_text(v);
    let pre: Seq<char> = if v.is_ref {
        seq!['$']
    } else {
        Seq::empty()
    };
    match v.index {
        None => {
            assert(s =~= pre + v.name);
            if v.is_ref {
                assert(s[0] == '$');
                assert(s.drop_first() =~= v.name);
            } else {
                assert(s =~= v.name);
                assert(s[0] != '$');
            }
            let t = if s.len() > 0 && s[0] == '$' {
                s.drop_first()
            } else {
                s
            };
            assert(t == v.name);
            assert(t.last() != ']');
        },
        Some(ix) => {
            let d = dec_str(ix as nat);
            lemma_dec_str_digits(ix as nat);
            assert(s =~= pre + v.name + (seq!['['] + d + seq![']']));
            let t: Seq<char> = v.name + (seq!['['] + d + seq![']']);
            if v.is_ref {
                assert(s[0] == '$');
                assert(s.drop_first() =~= t);
            } else {
                assert(s =~= t);
                assert(s[0] == v.name[0]);
                assert(s[0] != '$');
            }
            assert(t.last() == ']');
            assert(t.len() > 0);
            let iks = t.drop_last();
            assert(iks =~= v.name + seq!['['] + d);
            assert(forall|i: int| 0 <= i < d.len() ==> #[trigger] d[i] != '[') by {
                lemma_dec_str_digits(ix as nat);
            }
            lemma_find_char_concat(v.name, '[', d);
            assert(find_char(iks, '[') == v.name.len());
            assert(iks.take(v.name.len() as int) =~= v.name);
            assert(iks.skip(v.name.len() as int + 1) =~= d);
            lemma_parse_dec(ix);
        },
    }
}

/// Parsing a printed comparison operator gives it back.
pub proof fn lemma_op_roundtrip(op: Operator)
    ensures
        op_spec(op_text(op)) == Some(op),
{
    reveal_strlit("==");
    reveal_strlit("!=");
    reveal_strlit("<");
    reveal_strlit("<=");
    assert("=="@.len() == 2 && "!="@.len() == 2 && "<"@.len() == 1 && "<="@.len() == 2);
    assert("=="@[0] == '=' && "!="@[0] == '!' && "<="@[0] == '<');
}

/// Parsing a printed `@`-label gives the indexed label back.
pub proof fn lemma_label_roundtrip(o: usize)
    ensures
        parse_label_spec(seq!['@'] + dec_str(o as nat)) == Some(LabelV::Indexed(o)),
{
    let s = seq!['@'] + dec_str(o as nat);
    assert(s[0] == '@');
    assert(s.drop_first() =~= dec_str(o as nat));
    lemma_parse_dec(o);
}

/// A printable free-form value: what survives one line pass and one
/// unescape unchanged. No line breaks, no whitespace at either end, no
/// backslash anywhere, no quote at either end.
pub open spec fn value_ok(s: Seq<char>) -> bool {
    &&& s.len() > 0
    &&& !is_space(s[0])
    &&& !is_space(s.last())
    &&& s[0] != '"' && s[0] != '\''
    &&& s.last() != '"' && s.last() != '\''
    &&& forall|i: int|
        0 <= i < s.len() ==> #[trigger] s[i] != '\\' && s[i] != '\n' && s[i] != '\r'
}

/// A printable value unescapes to itself.
pub proof fn lemma_value_unescape(s: Seq<char>)
    requires
        value_ok(s),
    ensures
        unescape_spec(s) == s,
{
    crate::laws::lemma_unescape_idempotent(s);
}




/// A printable single token: non-empty, no whitespace anywhere.
pub open spec fn token_ok(s: Seq<char>) -> bool {
    s.len() > 0 && forall|i: int| 0 <= i < s.len() ==> !is_space(#[trigger] s[i])
}

/// A printable free-form trailing argument: non-empty, no line breaks, no
/// whitespace at either end; inner spaces are fine, the tokenizer hands the
/// remainder over verbatim.
pub open spec fn rest_ok(s: Seq<char>) -> bool {
    &&& s.len() > 0
    &&& !is_space(s[0])
    &&& !is_space(s.last())
    &&& forall|i: int| 0 <= i < s.len() ==> #[trigger] s[i] != '\n' && s[i] != '\r'
}

/// A printable speaker: printed inside quotes, so it must hold no quote,
/// no backslash and no whitespace, and no single quote at either end.
pub open spec fn speaker_ok(w: Seq<char>) -> bool {
    &&& forall|i: int|
        0 <= i < w.len() ==> !is_space(#[trigger] w[i]) && w[i] != '"' && w[i] != '\\'
    &&& w.len() > 0 ==> w[0] != '\'' && w.last() != '\''
}

/// A printable quoted body: no quote, backslash or line break anywhere, no
/// single quote at either end; inner spaces are fine.
pub open spec fn body_ok(b: Seq<char>) -> bool {
    &&& forall|i: int|
        0 <= i < b.len() ==> #[trigger] b[i] != '"' && b[i] != '\\' && b[i] != '\n' && b[i]
            != '\r'
    &&& b.len() > 0 ==> b[0] != '\'' && b.last() != '\''
}

/// A printable bare body, printed without quotes: empty, or a printable
/// value with no quote anywhere.
pub open spec fn bare_body_ok(b: Seq<char>) -> bool {
    b.len() == 0 || (value_ok(b) && forall|i: int| 0 <= i < b.len() ==> #[trigger] b[i] != '"')
}

/// A bare text payload parses back to a speakerless text.
pub proof fn lemma_text_none(b: Seq<char>)
    requires
        bare_body_ok(b),
    ensures
        parse_text_spec(b) == (None::<Seq<char>>, b),
{
    lemma_find_char_absent(b, '"');
    if b.len() == 0 {
        assert(strip_spec(strip_spec(b, '"'), '\'') =~= b);
        assert(unesc(b) =~= b);
    } else {
        lemma_value_unescape(b);
    }
}

/// The quoted speaker-and-body payload parses back to both halves.
pub proof fn lemma_text_some(w: Seq<char>, b: Seq<char>)
    requires
        speaker_ok(w),
        body_ok(b),
    ensures
        parse_text_spec(
            seq!['"'] + w + seq!['"'] + sp() + seq!['"'] + b + seq!['"'],
        ) == (Some(w), b),
{
    let qw = seq!['"'] + w + seq!['"'];
    let qb = seq!['"'] + b + seq!['"'];
    let payload = seq!['"'] + w + seq!['"'] + sp() + seq!['"'] + b + seq!['"'];
    assert(payload =~= qw + seq![' '] + qb);
    assert(payload[0] == '"');
    lemma_find_char(payload, '"');
    assert(find_char(payload, '"') != -1) by {
        if find_char(payload, '"') == -1 {
            assert(payload[0] != '"');
        }
    }
    assert(forall|i: int| 0 <= i < qw.len() ==> #[trigger] qw[i] != ' ') by {
        assert(qw[0] == '"');
        assert(qw[qw.len() - 1] == '"');
        assert(forall|i: int| 1 <= i < qw.len() - 1 ==> #[trigger] qw[i] == w[i - 1]);
    }
    lemma_find_char_concat(qw, ' ', qb);
    assert(find_char(payload, ' ') == qw.len());
    assert(payload.take(qw.len() as int) =~= qw);
    assert(payload.skip(qw.len() as int + 1) =~= qb);
    assert(unescape_spec(qw) == w) by {
        assert(qw[0] == '"' && qw.last() == '"');
        assert(qw.drop_first() =~= w + seq!['"']);
        assert((w + seq!['"']).last() == '"');
        assert((w + seq!['"']).drop_last() =~= w);
        assert(strip_spec(qw, '"') == w);
        assert(strip_spec(w, '\'') == w);
        crate::laws::lemma_unesc_no_backslash(w);
    }
    assert(unescape_spec(qb) == b) by {
        assert(qb[0] == '"' && qb.last() == '"');
        assert(qb.drop_first() =~= b + seq!['"']);
        assert((b + seq!['"']).last() == '"');
        assert((b + seq!['"']).drop_last() =~= b);
        assert(strip_spec(qb, '"') == b);
        assert(strip_spec(b, '\'') == b);
        assert(forall|i: int| 0 <= i < b.len() ==> #[trigger] b[i] != '\\');
        crate::laws::lemma_unesc_no_backslash(b);
    }
}

/// Splitting the joined alternatives on `|` recovers each printed operand.
pub proof fn lemma_split_join_pipe(refs: Seq<VarV>)
    requires
        refs.len() >= 1,
        forall|k: int| 0 <= k < refs.len() ==> var_ok(#[trigger] refs[k]),
    ensures
        split_pipe(join_pipe(refs)) == refs.map_values(|v: VarV| var_text(v)),
    decreases refs.len(),
{
    lemma_var_text_chars(refs[0]);
    if refs.len() == 1 {
        lemma_find_char_absent(var_text(refs[0]), '|');
        assert(split_pipe(join_pipe(refs)) =~= refs.map_values(|v: VarV| var_text(v)));
    } else {
        let rest = refs.drop_first();
        assert(forall|k: int| 0 <= k < rest.len() ==> #[trigger] rest[k] == refs[k + 1]);
        lemma_split_join_pipe(rest);
        let jp = join_pipe(refs);
        assert(jp == var_text(refs[0]) + seq!['|'] + join_pipe(rest));
        lemma_find_char_concat(var_text(refs[0]), '|', join_pipe(rest));
        assert(find_char(jp, '|') == var_text(refs[0]).len());
        assert(jp.take(var_text(refs[0]).len() as int) =~= var_text(refs[0]));
        assert(jp.skip(var_text(refs[0]).len() as int + 1) =~= join_pipe(rest));
        assert(split_pipe(jp) == seq![var_text(refs[0])] + split_pipe(join_pipe(rest)));
        assert(seq![var_text(refs[0])] + rest.map_values(|v: VarV| var_text(v))
            =~= refs.map_values(|v: VarV| var_text(v)));
    }
}

/// Parsing each printed alternative recovers the operand list.
pub proof fn lemma_parse_refs(refs: Seq<VarV>)
    requires
        forall|k: int| 0 <= k < refs.len() ==> var_ok(#[trigger] refs[k]),
    ensures
        parse_refs_spec(refs.map_values(|v: VarV| var_text(v))) == Some(refs),
    decreases refs.len(),
{
    let pieces = refs.map_values(|v: VarV| var_text(v));
    if refs.len() == 0 {
        assert(parse_refs_spec(pieces) == Some(Seq::<VarV>::empty()));
        assert(Seq::<VarV>::empty() =~= refs);
    } else {
        lemma_var_roundtrip(refs[0]);
        let rest = refs.drop_first();
        assert(forall|k: int| 0 <= k < rest.len() ==> #[trigger] rest[k] == refs[k + 1]);
        lemma_parse_refs(rest);
        assert(pieces.drop_first() =~= rest.map_values(|v: VarV| var_text(v)));
        assert(seq![refs[0]] + rest =~= refs);
    }
}

/// A sequence with no whitespace at either end is already trimmed.
pub proof fn lemma_trim_id(p: Seq<char>)
    requires
        p.len() == 0 || (!is_space(p[0]) && !is_space(p.last())),
    ensures
        crate::text::trim_spec(p) == p,
{
}

/// Trimming a payload printed after one separating space yields the
/// payload.
pub proof fn lemma_trim_sp(p: Seq<char>)
    requires
        p.len() == 0 || (!is_space(p[0]) && !is_space(p.last())),
    ensures
        crate::text::trim_spec(sp() + p) == p,
{
    let u = sp() + p;
    assert(is_space(u[0]));
    assert(u.drop_first() =~= p);
    lemma_trim_id(p);
}

/// Left-trimming a payload printed after one separating space yields the
/// payload.
pub proof fn lemma_skip_front_sp(p: Seq<char>)
    requires
        p.len() == 0 || !is_space(p[0]),
    ensures
        crate::text::skip_spaces_front(sp() + p) == p,
{
    let u = sp() + p;
    assert(is_space(u[0]));
    assert(u.drop_first() =~= p);
    assert(crate::text::skip_spaces_front(p) == p);
}


proof fn kw_cleartext()
    ensures
        "cleartext"@.len() == 9,
        forall|j: int| 0 <= j < "cleartext"@.len() ==> !is_space(#[trigger] "cleartext"@[j]),
        "cleartext"@[0] == 'c',
{
    reveal_strlit("cleartext");
    assert("cleartext"@ =~= seq!['c', 'l', 'e', 'a', 'r', 't', 'e', 'x', 't']);
}

proof fn kw_gsetvar()
    ensures
        "gsetvar"@.len() == 7,
        forall|j: int| 0 <= j < "gsetvar"@.len() ==> !is_space(#[trigger] "gsetvar"@[j]),
        "gsetvar"@[0] == 'g',
{
    reveal_strlit("gsetvar");
    assert("gsetvar"@ =~= seq!['g', 's', 'e', 't', 'v', 'a', 'r']);
}

proof fn kw_setvar()
    ensures
        "setvar"@.len() == 6,
        forall|j: int| 0 <= j < "setvar"@.len() ==> !is_space(#[trigger] "setvar"@[j]),
        "setvar"@[0] == 's',
        "setvar"@[3] == 'v',
{
    reveal_strlit("setvar");
    assert("setvar"@ =~= seq!['s', 'e', 't', 'v', 'a', 'r']);
}

proof fn kw_bgload()
    ensures
        "bgload"@.len() == 6,
        forall|j: int| 0 <= j < "bgload"@.len() ==> !is_space(#[trigger] "bgload"@[j]),
        "bgload"@[0] == 'b',
{
    reveal_strlit("bgload");
    assert("bgload"@ =~= seq!['b', 'g', 'l', 'o', 'a', 'd']);
}

proof fn kw_setimg()
    ensures
        "setimg"@.len() == 6,
        forall|j: int| 0 <= j < "setimg"@.len() ==> !is_space(#[trigger] "setimg"@[j]),
        "setimg"@[0] == 's',
        "setimg"@[3] == 'i',
{
    reveal_strlit("setimg");
    assert("setimg"@ =~= seq!['s', 'e', 't', 'i', 'm', 'g']);
}

proof fn kw_delay()
    ensures
        "delay"@.len() == 5,
        forall|j: int| 0 <= j < "delay"@.len() ==> !is_space(#[trigger] "delay"@[j]),
        "delay"@[0] == 'd',
{
    reveal_strlit("delay");
    assert("delay"@ =~= seq!['d', 'e', 'l', 'a', 'y']);
}

proof fn kw_if_()
    ensures
        "if"@.len() == 2,
        forall|j: int| 0 <= j < "if"@.len() ==> !is_space(#[trigger] "if"@[j]),
        "if"@[0] == 'i',
{
    reveal_strlit("if");
    assert("if"@ =~= seq!['i', 'f']);
}

proof fn kw_fi_()
    ensures
        "fi"@.len() == 2,
        forall|j: int| 0 <= j < "fi"@.len() ==> !is_space(#[trigger] "fi"@[j]),
        "fi"@[0] == 'f',
{
    reveal_strlit("fi");
    assert("fi"@ =~= seq!['f', 'i']);
}

proof fn kw_text()
    ensures
        "text"@.len() == 4,
        forall|j: int| 0 <= j < "text"@.len() ==> !is_space(#[trigger] "text"@[j]),
        "text"@[0] == 't',
{
    reveal_strlit("text");
    assert("text"@ =~= seq!['t', 'e', 'x', 't']);
}

proof fn kw_goto()
    ensures
        "goto"@.len() == 4,
        forall|j: int| 0 <= j < "goto"@.len() ==> !is_space(#[trigger] "goto"@[j]),
        "goto"@[0] == 'g',
{
    reveal_strlit("goto");
    assert("goto"@ =~= seq!['g', 'o', 't', 'o']);
}

proof fn kw_label()
    ensures
        "label"@.len() == 5,
        forall|j: int| 0 <= j < "label"@.len() ==> !is_space(#[trigger] "label"@[j]),
        "label"@[0] == 'l',
{
    reveal_strlit("label");
    assert("label"@ =~= seq!['l', 'a', 'b', 'e', 'l']);
}

proof fn kw_sound()
    ensures
        "sound"@.len() == 5,
        forall|j: int| 0 <= j < "sound"@.len() ==> !is_space(#[trigger] "sound"@[j]),
        "sound"@[0] == 's',
{
    reveal_strlit("sound");
    assert("sound"@ =~= seq!['s', 'o', 'u', 'n', 'd']);
}

proof fn kw_music()
    ensures
        "music"@.len() == 5,
        forall|j: int| 0 <= j < "music"@.len() ==> !is_space(#[trigger] "music"@[j]),
        "music"@[0] == 'm',
{
    reveal_strlit("music");
    assert("music"@ =~= seq!['m', 'u', 's', 'i', 'c']);
}

proof fn kw_choice()
    ensures
        "choice"@.len() == 6,
        forall|j: int| 0 <= j < "choice"@.len() ==> !is_space(#[trigger] "choice"@[j]),
        "choice"@[0] == 'c',
{
    reveal_strlit("choice");
    assert("choice"@ =~= seq!['c', 'h', 'o', 'i', 'c', 'e']);
}

proof fn kw_jump()
    ensures
        "jump"@.len() == 4,
        forall|j: int| 0 <= j < "jump"@.len() ==> !is_space(#[trigger] "jump"@[j]),
        "jump"@[0] == 'j',
{
    reveal_strlit("jump");
    assert("jump"@ =~= seq!['j', 'u', 'm', 'p']);
}


proof fn lemma_flat2(k: Seq<char>, a: Seq<char>, b: Seq<char>)
    ensures
        k + sp() + a + sp() + b == k + sp() + (a + sp() + b),
{
    assert(k + sp() + a + sp() + b =~= k + sp() + (a + sp() + b));
}

proof fn lemma_flat3(k: Seq<char>, a: Seq<char>, b: Seq<char>, c: Seq<char>)
    ensures
        k + sp() + a + sp() + b + sp() + c == k + sp() + (a + sp() + (b + sp() + c)),
{
    assert(k + sp() + a + sp() + b + sp() + c =~= k + sp() + (a + sp() + (b + sp() + c)));
}

proof fn lemma_skip_keyword(k: Seq<char>, b: Seq<char>)
    ensures
        (k + sp() + b).skip(k.len() as int) == sp() + b,
        (k + sp() + b).len() >= k.len(),
{
    assert((k + sp() + b).skip(k.len() as int) =~= sp() + b);
}

proof fn kw_eq_sign()
    ensures
        "="@.len() == 1,
        "="@[0] == '=',
        forall|j: int| 0 <= j < "="@.len() ==> !is_space(#[trigger] "="@[j]),
        is_assign_op("="@),
{
    reveal_strlit("=");
    assert("="@ =~= seq!['=']);
}

proof fn op_facts(op: Operator)
    ensures
        op_text(op).len() > 0,
        forall|j: int| 0 <= j < op_text(op).len() ==> !is_space(#[trigger] op_text(op)[j]),
{
    reveal_strlit("==");
    reveal_strlit("!=");
    reveal_strlit("<");
    reveal_strlit("<=");
    assert("=="@ =~= seq!['=', '=']);
    assert("!="@ =~= seq!['!', '=']);
    assert("<"@ =~= seq!['<']);
    assert("<="@ =~= seq!['<', '=']);
}

proof fn lemma_flat_text(w: Seq<char>, b: Seq<char>)
    ensures
        "text"@ + sp() + seq!['"'] + w + seq!['"'] + sp() + seq!['"'] + b + seq!['"'] == "text"@
            + sp() + (seq!['"'] + w + seq!['"'] + sp() + seq!['"'] + b + seq!['"']),
        (seq!['"'] + w + seq!['"'] + sp() + seq!['"'] + b + seq!['"'])[0] == '"',
        (seq!['"'] + w + seq!['"'] + sp() + seq!['"'] + b + seq!['"']).last() == '"',
        (seq!['"'] + w + seq!['"'] + sp() + seq!['"'] + b + seq!['"']).len() > 0,
{
    assert("text"@ + sp() + seq!['"'] + w + seq!['"'] + sp() + seq!['"'] + b + seq!['"']
        =~= "text"@ + sp() + (seq!['"'] + w + seq!['"'] + sp() + seq!['"'] + b + seq!['"']));
}

/// An instruction whose printed line compiles back to it: operand names
/// are plain tokens, free-form values survive the tokenizer and the
/// unescaper, and goto targets are resolved offsets.
pub open spec fn instr_ok(i: InstrV) -> bool {
    match i {
        InstrV::ClearText => true,
        InstrV::SetVar(t, v) => var_ok(t) && value_ok(v),
        InstrV::GSetVar(t, v) => var_ok(t) && value_ok(v),
        InstrV::BgLoad(f, _time) => var_ok(f),
        InstrV::SetImg(f, _x, _y) => var_ok(f),
        InstrV::Delay(_d) => true,
        InstrV::Branch(l, _op, r, _e) => var_ok(l) && l.is_ref && rest_ok(r),
        InstrV::Text(who, b) => match who {
            None => bare_body_ok(b),
            Some(w) => speaker_ok(w) && body_ok(b),
        },
        InstrV::Goto(l) => l is Offset,
        InstrV::Sound(f, _arg) => token_ok(f),
        InstrV::Music(f) => token_ok(f),
        InstrV::Choice(refs) => refs.len() >= 1 && forall|k: int|
            0 <= k < refs.len() ==> var_ok(#[trigger] refs[k]),
        InstrV::Jump(f) => token_ok(f),
    }
}

/// The offset a resolved goto holds.
pub open spec fn goto_offset(l: LabelV) -> usize {
    match l {
        LabelV::Offset(o) => o,
        LabelV::Indexed(i) => i,
        LabelV::Named(_n) => 0,
    }
}

/// Compiling the printed line of a printable instruction emits exactly that
/// instruction: a branch with the fresh placeholder target, a goto through
/// its synthetic indexed label, and every other instruction verbatim.

#[verifier::spinoff_prover]
proof fn lr_cleartext(e: EmitV, n: usize)
    requires
        true,
    ensures
        line_step(e, line_text(InstrV::ClearText), n) == Ok::<EmitV, CompileError>(emit1(e, InstrV::ClearText)),
{
    kw_cleartext();
    let i = InstrV::ClearText;
    let lt = line_text(i);

            lemma_split_single("cleartext"@, 3);
        }


#[verifier::spinoff_prover]
proof fn lr_setvar(e: EmitV, t: VarV, v: Seq<char>, n: usize)
    requires
        var_ok(t),
        value_ok(v),
    ensures
        line_step(e, line_text(InstrV::SetVar(t, v)), n) == Ok::<EmitV, CompileError>(emit1(e, InstrV::SetVar(t, v))),
{
    kw_cleartext();
    kw_gsetvar();
    kw_setvar();
    kw_eq_sign();
    let i = InstrV::SetVar(t, v);
    let lt = line_text(i);
    lemma_var_text_chars(t);
    lemma_var_roundtrip(t);
    lemma_value_unescape(v);
    lemma_flat3("setvar"@, var_text(t), "="@, v);
    lemma_split_cons("setvar"@, var_text(t) + sp() + ("="@ + sp() + v), 3);
    lemma_split_cons(var_text(t), "="@ + sp() + v, 2);
    lemma_split_cons("="@, v, 1);
    assert(split_args_spec(v, 0) == seq![v]);
    assert(split_args_spec(lt, 3) =~= seq!["setvar"@, var_text(t), "="@, v]);
}


#[verifier::spinoff_prover]
proof fn lr_gsetvar(e: EmitV, t: VarV, v: Seq<char>, n: usize)
    requires
        var_ok(t),
        value_ok(v),
    ensures
        line_step(e, line_text(InstrV::GSetVar(t, v)), n) == Ok::<EmitV, CompileError>(emit1(e, InstrV::GSetVar(t, v))),
{
    kw_cleartext();
    kw_gsetvar();
    
    kw_eq_sign();
    let i = InstrV::GSetVar(t, v);
    let lt = line_text(i);
    lemma_var_text_chars(t);
    lemma_var_roundtrip(t);
    lemma_value_unescape(v);
    lemma_flat3("gsetvar"@, var_text(t), "="@, v);
    lemma_split_cons("gsetvar"@, var_text(t) + sp() + ("="@ + sp() + v), 3);
    lemma_split_cons(var_text(t), "="@ + sp() + v, 2);
    lemma_split_cons("="@, v, 1);
    assert(split_args_spec(v, 0) == seq![v]);
    assert(split_args_spec(lt, 3) =~= seq!["gsetvar"@, var_text(t), "="@, v]);
}


#[verifier::spinoff_prover]
proof fn lr_bgload(e: EmitV, f: VarV, time: Option<usize>, n: usize)
    requires
        var_ok(f),
    ensures
        line_step(e, line_text(InstrV::BgLoad(f, time)), n) == Ok::<EmitV, CompileError>(emit1(e, InstrV::BgLoad(f, time))),
{
    kw_cleartext();
    kw_gsetvar();
    kw_setvar();
    kw_bgload();
    let i = InstrV::BgLoad(f, time);
    let lt = line_text(i);

            lemma_var_text_chars(f);
            lemma_var_roundtrip(f);
            match time {
                None => {
                    assert(lt =~= "bgload"@ + sp() + var_text(f));
                    lemma_split_cons("bgload"@, var_text(f), 3);
                    lemma_split_single(var_text(f), 2);
                    assert(split_args_spec(lt, 3) =~= seq!["bgload"@, var_text(f)]);
                },
                Some(tm) => {
                    let d = dec_str(tm as nat);
                    lemma_digit_chars(tm as nat);
                    lemma_dec_str_digits(tm as nat);
                    lemma_flat2("bgload"@, var_text(f), d);
                    lemma_split_cons("bgload"@, var_text(f) + sp() + d, 3);
                    lemma_split_cons(var_text(f), d, 2);
                    lemma_split_single(d, 1);
                    assert(split_args_spec(lt, 3) =~= seq!["bgload"@, var_text(f), d]);
                    lemma_parse_dec(tm);
                },
            }
        }


#[verifier::spinoff_prover]
proof fn lr_setimg(e: EmitV, f: VarV, x: usize, y: usize, n: usize)
    requires
        var_ok(f),
    ensures
        line_step(e, line_text(InstrV::SetImg(f, x, y)), n) == Ok::<EmitV, CompileError>(emit1(e, InstrV::SetImg(f, x, y))),
{
    kw_cleartext();
    kw_gsetvar();
    kw_setvar();
    kw_bgload();
    kw_setimg();
    let i = InstrV::SetImg(f, x, y);
    let lt = line_text(i);

            lemma_var_text_chars(f);
            lemma_var_roundtrip(f);
            let dx = dec_str(x as nat);
            let dy = dec_str(y as nat);
            lemma_digit_chars(x as nat);
            lemma_digit_chars(y as nat);
            lemma_dec_str_digits(x as nat);
            lemma_dec_str_digits(y as nat);
            lemma_flat3("setimg"@, var_text(f), dx, dy);
            lemma_split_cons("setimg"@, var_text(f) + sp() + (dx + sp() + dy), 3);
            lemma_split_cons(var_text(f), dx + sp() + dy, 2);
            lemma_split_cons(dx, dy, 1);
            assert(split_args_spec(dy, 0) == seq![dy]);
            assert(split_args_spec(lt, 3) =~= seq!["setimg"@, var_text(f), dx, dy]);
            lemma_parse_dec(x);
            lemma_parse_dec(y);
        }


#[verifier::spinoff_prover]
proof fn lr_delay(e: EmitV, dl: usize, n: usize)
    requires
        true,
    ensures
        line_step(e, line_text(InstrV::Delay(dl)), n) == Ok::<EmitV, CompileError>(emit1(e, InstrV::Delay(dl))),
{
    kw_cleartext();
    kw_gsetvar();
    kw_setvar();
    kw_bgload();
    kw_setimg();
    kw_delay();
    let i = InstrV::Delay(dl);
    let lt = line_text(i);

            let d = dec_str(dl as nat);
            lemma_digit_chars(dl as nat);
            lemma_dec_str_digits(dl as nat);
            assert(lt =~= "delay"@ + sp() + d);
            lemma_split_cons("delay"@, d, 3);
            lemma_split_single(d, 2);
            assert(split_args_spec(lt, 3) =~= seq!["delay"@, d]);
            lemma_parse_dec(dl);
        }


#[verifier::spinoff_prover]
proof fn lr_branch(e: EmitV, l: VarV, op: Operator, r: Seq<char>, eo: usize, n: usize)
    requires
        var_ok(l),
        l.is_ref,
        rest_ok(r),
    ensures
        line_step(e, line_text(InstrV::Branch(l, op, r, eo)), n) == Ok::<EmitV, CompileError>(
            EmitV {
                code: e.code.push(InstrV::Branch(l, op, r, wrap_inc(e.code.len()))),
                last_branch: Some(e.code.len() as usize),
                labels: e.labels,
            },
        ),
{
    kw_cleartext();
    kw_gsetvar();
    kw_setvar();
    kw_bgload();
    kw_setimg();
    kw_delay();
    kw_if_();
    op_facts(op);
    let i = InstrV::Branch(l, op, r, eo);
    let lt = line_text(i);
    lemma_var_text_chars(l);
    lemma_var_roundtrip(l);
    lemma_op_roundtrip(op);
    lemma_flat3("if"@, var_text(l), op_text(op), r);
    lemma_split_cons("if"@, var_text(l) + sp() + (op_text(op) + sp() + r), 3);
    lemma_split_cons(var_text(l), op_text(op) + sp() + r, 2);
    lemma_split_cons(op_text(op), r, 1);
    assert(split_args_spec(r, 0) == seq![r]);
    assert(split_args_spec(lt, 3) =~= seq!["if"@, var_text(l), op_text(op), r]);
    assert(VarV { is_ref: true, ..l } == l);
}

#[verifier::spinoff_prover]
proof fn lr_text(e: EmitV, who: Option<Seq<char>>, b: Seq<char>, n: usize)
    requires
        match who {
            None => bare_body_ok(b),
            Some(w) => speaker_ok(w) && body_ok(b),
        },
    ensures
        line_step(e, line_text(InstrV::Text(who, b)), n) == Ok::<EmitV, CompileError>(emit1(e, InstrV::Text(who, b))),
{
    kw_cleartext();
    kw_gsetvar();
    kw_setvar();
    kw_bgload();
    kw_setimg();
    kw_delay();
    kw_if_();
    kw_fi_();
    kw_text();
    let i = InstrV::Text(who, b);
    let lt = line_text(i);
    match who {
        None => {
            if b.len() == 0 {
                lemma_split_single("text"@, 3);
                assert(lt == "text"@);
                assert(lt.skip(4).len() == 0);
                lemma_trim_id(lt.skip(4));
                lemma_text_none(lt.skip(4));
                assert(lt.skip(4) =~= b);
            } else {
                assert(lt == "text"@ + sp() + b);
                lemma_split_cons("text"@, b, 3);
                assert(split_args_spec(lt, 3)[0] == "text"@);
                assert(split_args_spec(lt, 3).len() >= 1);
                lemma_skip_keyword("text"@, b);
                lemma_trim_sp(b);
                lemma_text_none(b);
            }
        },
        Some(w) => {
            let payload = seq!['"'] + w + seq!['"'] + sp() + seq!['"'] + b + seq!['"'];
            lemma_flat_text(w, b);
            assert(lt == "text"@ + sp() + payload);
            lemma_split_cons("text"@, payload, 3);
            assert(split_args_spec(lt, 3)[0] == "text"@);
            assert(split_args_spec(lt, 3).len() >= 1);
            lemma_skip_keyword("text"@, payload);
            lemma_trim_sp(payload);
            lemma_text_some(w, b);
        },
    }
}


#[verifier::spinoff_prover]
proof fn lr_goto(e: EmitV, l: LabelV, n: usize)
    requires
        l is Offset,
    ensures
        line_step(e, line_text(InstrV::Goto(l)), n) == Ok::<EmitV, CompileError>(emit1(e, InstrV::Goto(LabelV::Indexed(goto_offset(l))))),
{
    kw_cleartext();
    kw_gsetvar();
    kw_setvar();
    kw_bgload();
    kw_setimg();
    kw_delay();
    kw_if_();
    kw_fi_();
    kw_text();
    kw_goto();
    let i = InstrV::Goto(l);
    let lt = line_text(i);
    let o = goto_offset(l);
    let ltx = seq!['@'] + dec_str(o as nat);
    lemma_digit_chars(o as nat);
    assert(!is_space('@'));
    assert(forall|j: int| 0 <= j < ltx.len() ==> !is_space(#[trigger] ltx[j])) by {
        assert(ltx[0] == '@');
        assert(forall|j: int|
            1 <= j < ltx.len() ==> #[trigger] ltx[j] == dec_str(o as nat)[j - 1]);
    }
    assert(label_text(l) == ltx);
    assert(lt =~= "goto"@ + sp() + ltx);
    lemma_split_cons("goto"@, ltx, 3);
    lemma_split_single(ltx, 2);
    assert(split_args_spec(lt, 3) =~= seq!["goto"@, ltx]);
    lemma_label_roundtrip(o);
}

#[verifier::spinoff_prover]
proof fn lr_sound(e: EmitV, f: Seq<char>, arg: Option<usize>, n: usize)
    requires
        token_ok(f),
    ensures
        line_step(e, line_text(InstrV::Sound(f, arg)), n) == Ok::<EmitV, CompileError>(emit1(e, InstrV::Sound(f, arg))),
{
    kw_cleartext();
    kw_gsetvar();
    kw_setvar();
    kw_bgload();
    kw_setimg();
    kw_delay();
    kw_if_();
    kw_fi_();
    kw_text();
    kw_goto();
    kw_label();
    kw_sound();
    let i = InstrV::Sound(f, arg);
    let lt = line_text(i);

            match arg {
                None => {
                    assert(lt =~= "sound"@ + sp() + f);
                    lemma_split_cons("sound"@, f, 3);
                    lemma_split_single(f, 2);
                    assert(split_args_spec(lt, 3) =~= seq!["sound"@, f]);
                },
                Some(p) => {
                    let d = dec_str(p as nat);
                    lemma_digit_chars(p as nat);
                    lemma_dec_str_digits(p as nat);
                    lemma_flat2("sound"@, f, d);
                    lemma_split_cons("sound"@, f + sp() + d, 3);
                    lemma_split_cons(f, d, 2);
                    lemma_split_single(d, 1);
                    assert(split_args_spec(lt, 3) =~= seq!["sound"@, f, d]);
                    lemma_parse_dec(p);
                },
            }
        }


#[verifier::spinoff_prover]
proof fn lr_music(e: EmitV, f: Seq<char>, n: usize)
    requires
        token_ok(f),
    ensures
        line_step(e, line_text(InstrV::Music(f)), n) == Ok::<EmitV, CompileError>(emit1(e, InstrV::Music(f))),
{
    kw_cleartext();
    kw_gsetvar();
    kw_setvar();
    kw_bgload();
    kw_setimg();
    kw_delay();
    kw_if_();
    kw_fi_();
    kw_text();
    kw_goto();
    kw_label();
    kw_sound();
    kw_music();
    let i = InstrV::Music(f);
    let lt = line_text(i);

            assert(lt =~= "music"@ + sp() + f);
            lemma_split_cons("music"@, f, 3);
            lemma_split_single(f, 2);
            assert(split_args_spec(lt, 3) =~= seq!["music"@, f]);
        }


#[verifier::spinoff_prover]
proof fn lr_choice(e: EmitV, refs: Seq<VarV>, n: usize)
    requires
        refs.len() >= 1,
        forall|k: int| 0 <= k < refs.len() ==> var_ok(#[trigger] refs[k]),
    ensures
        line_step(e, line_text(InstrV::Choice(refs)), n) == Ok::<EmitV, CompileError>(emit1(e, InstrV::Choice(refs))),
{
    kw_cleartext();
    kw_gsetvar();
    kw_setvar();
    kw_bgload();
    kw_setimg();
    kw_delay();
    kw_if_();
    kw_fi_();
    kw_text();
    kw_goto();
    kw_label();
    kw_sound();
    kw_music();
    kw_choice();
    let i = InstrV::Choice(refs);
    let lt = line_text(i);

            let jp = join_pipe(refs);
            lemma_var_text_chars(refs[0]);
            assert(jp.len() > 0 && !is_space(jp[0])) by {
                if refs.len() == 1 {
                } else {
                    assert(jp == var_text(refs[0]) + seq!['|'] + join_pipe(refs.drop_first()));
                    assert(jp[0] == var_text(refs[0])[0]);
                }
            }
            assert(lt =~= "choice"@ + sp() + jp);
            lemma_split_cons("choice"@, jp, 3);
            assert(split_args_spec(lt, 3)[0] == "choice"@);
            assert(split_args_spec(lt, 3).len() >= 1);
            lemma_skip_keyword("choice"@, jp);
            lemma_skip_front_sp(jp);
            lemma_split_join_pipe(refs);
            lemma_parse_refs(refs);
        }


#[verifier::spinoff_prover]
proof fn lr_jump(e: EmitV, f: Seq<char>, n: usize)
    requires
        token_ok(f),
    ensures
        line_step(e, line_text(InstrV::Jump(f)), n) == Ok::<EmitV, CompileError>(emit1(e, InstrV::Jump(f))),
{
    kw_cleartext();
    kw_gsetvar();
    kw_setvar();
    kw_bgload();
    kw_setimg();
    kw_delay();
    kw_if_();
    kw_fi_();
    kw_text();
    kw_goto();
    kw_label();
    kw_sound();
    kw_music();
    kw_choice();
    kw_jump();
    let i = InstrV::Jump(f);
    let lt = line_text(i);

            assert(lt =~= "jump"@ + sp() + f);
            lemma_split_cons("jump"@, f, 3);
            lemma_split_single(f, 2);
            assert(split_args_spec(lt, 3) =~= seq!["jump"@, f]);
        }

/// Compiling the printed line of a printable instruction emits exactly that
/// instruction: a branch with the fresh placeholder target, a goto through
/// its synthetic indexed label, and every other instruction verbatim.
pub proof fn lemma_line_roundtrip(e: EmitV, i: InstrV, n: usize)
    requires
        instr_ok(i),
    ensures
        line_step(e, line_text(i), n) == (match i {
            InstrV::Branch(l, op, r, _eo) => Ok::<EmitV, CompileError>(
                EmitV {
                    code: e.code.push(InstrV::Branch(l, op, r, wrap_inc(e.code.len()))),
                    last_branch: Some(e.code.len() as usize),
                    labels: e.labels,
                },
            ),
            InstrV::Goto(l) => Ok(emit1(e, InstrV::Goto(LabelV::Indexed(goto_offset(l))))),
            _ => Ok(emit1(e, i)),
        }),
{
    match i {
        InstrV::ClearText => lr_cleartext(e, n),
        InstrV::SetVar(t, v) => lr_setvar(e, t, v, n),
        InstrV::GSetVar(t, v) => lr_gsetvar(e, t, v, n),
        InstrV::BgLoad(f, time) => lr_bgload(e, f, time, n),
        InstrV::SetImg(f, x, y) => lr_setimg(e, f, x, y, n),
        InstrV::Delay(d) => lr_delay(e, d, n),
        InstrV::Branch(l, op, r, eo) => lr_branch(e, l, op, r, eo, n),
        InstrV::Text(who, b) => lr_text(e, who, b, n),
        InstrV::Goto(l) => lr_goto(e, l, n),
        InstrV::Sound(f, arg) => lr_sound(e, f, arg, n),
        InstrV::Music(f) => lr_music(e, f, n),
        InstrV::Choice(refs) => lr_choice(e, refs, n),
        InstrV::Jump(f) => lr_jump(e, f, n),
    }
}





/// Compiling a printed synthetic label line records exactly that indexed
/// label at the current code length.
pub proof fn lemma_label_line_roundtrip(e: EmitV, k: usize, n: usize)
    ensures
        line_step(e, label_line(k as nat), n) == Ok::<EmitV, CompileError>(
            EmitV {
                labels: e.labels.insert(LabelV::Indexed(k), e.code.len() as usize),
                ..e
            },
        ),
{
    kw_cleartext();
    kw_gsetvar();
    kw_setvar();
    kw_bgload();
    kw_setimg();
    kw_delay();
    kw_if_();
    kw_fi_();
    kw_text();
    kw_goto();
    kw_label();
    let ltx = seq!['@'] + dec_str(k as nat);
    lemma_digit_chars(k as nat);
    assert(!is_space('@'));
    assert(forall|j: int| 0 <= j < ltx.len() ==> !is_space(#[trigger] ltx[j])) by {
        assert(ltx[0] == '@');
        assert(forall|j: int|
            1 <= j < ltx.len() ==> #[trigger] ltx[j] == dec_str(k as nat)[j - 1]);
    }
    assert(label_line(k as nat) =~= "label"@ + sp() + ltx);
    lemma_split_cons("label"@, ltx, 3);
    lemma_split_single(ltx, 2);
    assert(split_args_spec(label_line(k as nat), 3) =~= seq!["label"@, ltx]);
    lemma_label_roundtrip(k);
}

/// Compiling a printed `fi` line closes the open branch: its else-target
/// becomes the current code length.
pub proof fn lemma_fi_line_roundtrip(e: EmitV, n: usize)
    requires
        e.last_branch matches Some(p) && p < e.code.len() && e.code[p as int] matches
            InstrV::Branch(_l, _op, _r, _eo),
    ensures
        crate::compiler::end_branch_spec(e) is Some,
        line_step(e, "fi"@, n) == Ok::<EmitV, CompileError>(
            crate::compiler::end_branch_spec(e).unwrap(),
        ),
{
    kw_cleartext();
    kw_gsetvar();
    kw_setvar();
    kw_bgload();
    kw_setimg();
    kw_delay();
    kw_if_();
    kw_fi_();
    lemma_split_single("fi"@, 3);
}


/// No line breaks anywhere in `s`.
pub open spec fn clean(s: Seq<char>) -> bool {
    forall|i: int| 0 <= i < s.len() ==> #[trigger] s[i] != '\n' && s[i] != '\r'
}

/// A sequence fit to stand as one printed line: non-empty, no whitespace at
/// either end, no line break anywhere.
pub open spec fn line_ok(l: Seq<char>) -> bool {
    &&& l.len() > 0
    &&& !is_space(l[0])
    &&& !is_space(l.last())
    &&& clean(l)
}

proof fn lemma_concat_clean(a: Seq<char>, b: Seq<char>)
    requires
        clean(a),
        clean(b),
    ensures
        clean(a + b),
{
    assert forall|i: int|
        0 <= i < (a + b).len() implies #[trigger] (a + b)[i] != '\n' && (a + b)[i] != '\r' by {
        if i < a.len() {
            assert((a + b)[i] == a[i]);
        } else {
            assert((a + b)[i] == b[i - a.len()]);
        }
    }
}

proof fn lemma_nonspace_clean(s: Seq<char>)
    requires
        forall|i: int| 0 <= i < s.len() ==> !is_space(#[trigger] s[i]),
    ensures
        clean(s),
{
}

proof fn lemma_edges1(k: Seq<char>)
    requires
        k.len() > 0,
        forall|i: int| 0 <= i < k.len() ==> !is_space(#[trigger] k[i]),
    ensures
        line_ok(k),
{
    lemma_nonspace_clean(k);
}

proof fn lemma_edges2(k: Seq<char>, a: Seq<char>)
    requires
        k.len() > 0,
        forall|i: int| 0 <= i < k.len() ==> !is_space(#[trigger] k[i]),
        clean(a),
        a.len() > 0,
        !is_space(a.last()),
    ensures
        line_ok(k + sp() + a),
{
    lemma_nonspace_clean(k);
    assert(clean(sp()));
    lemma_concat_clean(k, sp());
    lemma_concat_clean(k + sp(), a);
    let l = k + sp() + a;
    assert(l[0] == k[0]);
    assert(l.last() == a.last());
}

proof fn lemma_edges4(k: Seq<char>, a: Seq<char>, b: Seq<char>, c: Seq<char>)
    requires
        k.len() > 0,
        forall|i: int| 0 <= i < k.len() ==> !is_space(#[trigger] k[i]),
        clean(a),
        clean(b),
        clean(c),
        c.len() > 0,
        !is_space(c.last()),
    ensures
        line_ok(k + sp() + a + sp() + b + sp() + c),
{
    lemma_nonspace_clean(k);
    assert(clean(sp()));
    lemma_concat_clean(k, sp());
    lemma_concat_clean(k + sp(), a);
    lemma_concat_clean(k + sp() + a, sp());
    lemma_concat_clean(k + sp() + a + sp(), b);
    lemma_concat_clean(k + sp() + a + sp() + b, sp());
    lemma_concat_clean(k + sp() + a + sp() + b + sp(), c);
    let l = k + sp() + a + sp() + b + sp() + c;
    assert(l[0] == k[0]);
    assert(l.last() == c.last());
}

/// The joined alternatives hold no whitespace at all.
proof fn lemma_join_pipe_chars(refs: Seq<VarV>)
    requires
        refs.len() >= 1,
        forall|k: int| 0 <= k < refs.len() ==> var_ok(#[trigger] refs[k]),
    ensures
        join_pipe(refs).len() > 0,
        forall|i: int| 0 <= i < join_pipe(refs).len() ==> !is_space(#[trigger] join_pipe(refs)[i]),
    decreases refs.len(),
{
    lemma_var_text_chars(refs[0]);
    if refs.len() > 1 {
        let rest = refs.drop_first();
        assert(forall|k: int| 0 <= k < rest.len() ==> #[trigger] rest[k] == refs[k + 1]);
        lemma_join_pipe_chars(rest);
        let jp = join_pipe(refs);
        let a = var_text(refs[0]);
        assert(jp == a + seq!['|'] + join_pipe(rest));
        assert(!is_space('|'));
        assert forall|i: int| 0 <= i < jp.len() implies !is_space(#[trigger] jp[i]) by {
            if i < a.len() {
                assert(jp[i] == a[i]);
            } else if i == a.len() {
                assert(jp[i] == '|');
            } else {
                assert(jp[i] == join_pipe(rest)[i - a.len() - 1]);
            }
        }
    }
}

/// Every printed instruction line can stand as a source line: non-empty,
/// trimmed, free of line breaks.
pub proof fn lemma_line_text_edges(i: InstrV)
    requires
        instr_ok(i),
    ensures
        line_ok(line_text(i)),
{
    match i {
        InstrV::ClearText => {
            kw_cleartext();
            lemma_edges1("cleartext"@);
        },
        InstrV::SetVar(t, v) => {
            kw_setvar();
            kw_eq_sign();
            lemma_var_text_chars(t);
            lemma_nonspace_clean(var_text(t));
            lemma_nonspace_clean("="@);
            lemma_edges4("setvar"@, var_text(t), "="@, v);
        },
        InstrV::GSetVar(t, v) => {
            kw_gsetvar();
            kw_eq_sign();
            lemma_var_text_chars(t);
            lemma_nonspace_clean(var_text(t));
            lemma_nonspace_clean("="@);
            lemma_edges4("gsetvar"@, var_text(t), "="@, v);
        },
        InstrV::BgLoad(f, time) => {
            kw_bgload();
            lemma_var_text_chars(f);
            lemma_nonspace_clean(var_text(f));
            match time {
                None => {
                    assert(!is_space(var_text(f).last()));
                    lemma_edges2("bgload"@, var_text(f));
                },
                Some(tm) => {
                    lemma_digit_chars(tm as nat);
                    lemma_dec_str_digits(tm as nat);
                    lemma_nonspace_clean(dec_str(tm as nat));
                    assert(clean(sp()));
                    lemma_concat_clean(var_text(f), sp());
                    lemma_concat_clean(var_text(f) + sp(), dec_str(tm as nat));
                    assert((var_text(f) + sp() + dec_str(tm as nat)).last() == dec_str(
                        tm as nat,
                    ).last());
                    lemma_edges2("bgload"@, var_text(f) + sp() + dec_str(tm as nat));
                    assert(line_text(i) == "bgload"@ + sp() + (var_text(f) + sp() + dec_str(
                        tm as nat,
                    )) || line_text(i) == "bgload"@ + sp() + var_text(f) + sp() + dec_str(
                        tm as nat,
                    ));
                    assert(line_text(i) =~= "bgload"@ + sp() + (var_text(f) + sp() + dec_str(
                        tm as nat,
                    )));
                },
            }
        },
        InstrV::SetImg(f, x, y) => {
            kw_setimg();
            lemma_var_text_chars(f);
            lemma_nonspace_clean(var_text(f));
            lemma_digit_chars(x as nat);
            lemma_digit_chars(y as nat);
            lemma_dec_str_digits(x as nat);
            lemma_dec_str_digits(y as nat);
            lemma_nonspace_clean(dec_str(x as nat));
            lemma_nonspace_clean(dec_str(y as nat));
            lemma_edges4("setimg"@, var_text(f), dec_str(x as nat), dec_str(y as nat));
        },
        InstrV::Delay(d) => {
            kw_delay();
            lemma_digit_chars(d as nat);
            lemma_dec_str_digits(d as nat);
            lemma_nonspace_clean(dec_str(d as nat));
            lemma_edges2("delay"@, dec_str(d as nat));
        },
        InstrV::Branch(l, op, r, _eo) => {
            kw_if_();
            op_facts(op);
            lemma_var_text_chars(l);
            lemma_nonspace_clean(var_text(l));
            lemma_nonspace_clean(op_text(op));
            lemma_edges4("if"@, var_text(l), op_text(op), r);
        },
        InstrV::Text(who, b) => {
            kw_text();
            match who {
                None => {
                    if b.len() == 0 {
                        lemma_edges1("text"@);
                    } else {
                        lemma_edges2("text"@, b);
                    }
                },
                Some(w) => {
                    let payload = seq!['"'] + w + seq!['"'] + sp() + seq!['"'] + b + seq!['"'];
                    assert(clean(seq!['"']));
                    assert(clean(sp()));
                    lemma_nonspace_clean(w);
                    lemma_concat_clean(seq!['"'], w);
                    lemma_concat_clean(seq!['"'] + w, seq!['"']);
                    lemma_concat_clean(seq!['"'] + w + seq!['"'], sp());
                    lemma_concat_clean(seq!['"'] + w + seq!['"'] + sp(), seq!['"']);
                    assert(clean(b));
                    lemma_concat_clean(seq!['"'] + w + seq!['"'] + sp() + seq!['"'], b);
                    lemma_concat_clean(
                        seq!['"'] + w + seq!['"'] + sp() + seq!['"'] + b,
                        seq!['"'],
                    );
                    assert(payload.last() == '"');
                    lemma_edges2("text"@, payload);
                    assert(line_text(i) =~= "text"@ + sp() + payload);
                },
            }
        },
        InstrV::Goto(l) => {
            kw_goto();
            let o = goto_offset(l);
            let ltx = seq!['@'] + dec_str(o as nat);
            lemma_digit_chars(o as nat);
            assert(!is_space('@'));
            assert(forall|j: int| 0 <= j < ltx.len() ==> !is_space(#[trigger] ltx[j])) by {
                assert(ltx[0] == '@');
                assert(forall|j: int|
                    1 <= j < ltx.len() ==> #[trigger] ltx[j] == dec_str(o as nat)[j - 1]);
            }
            lemma_nonspace_clean(ltx);
            assert(ltx.last() == dec_str(o as nat).last());
            lemma_edges2("goto"@, ltx);
            assert(label_text(l) == ltx);
        },
        InstrV::Sound(f, arg) => {
            kw_sound();
            lemma_nonspace_clean(f);
            match arg {
                None => {
                    lemma_edges2("sound"@, f);
                },
                Some(p) => {
                    lemma_digit_chars(p as nat);
                    lemma_dec_str_digits(p as nat);
                    lemma_nonspace_clean(dec_str(p as nat));
                    assert(clean(sp()));
                    lemma_concat_clean(f, sp());
                    lemma_concat_clean(f + sp(), dec_str(p as nat));
                    assert((f + sp() + dec_str(p as nat)).last() == dec_str(p as nat).last());
                    lemma_edges2("sound"@, f + sp() + dec_str(p as nat));
                    assert(line_text(i) =~= "sound"@ + sp() + (f + sp() + dec_str(p as nat)));
                },
            }
        },
        InstrV::Music(f) => {
            kw_music();
            lemma_nonspace_clean(f);
            lemma_edges2("music"@, f);
        },
        InstrV::Choice(refs) => {
            kw_choice();
            lemma_join_pipe_chars(refs);
            lemma_nonspace_clean(join_pipe(refs));
            lemma_edges2("choice"@, join_pipe(refs));
        },
        InstrV::Jump(f) => {
            kw_jump();
            lemma_nonspace_clean(f);
            lemma_edges2("jump"@, f);
        },
    }
}

/// Every printed label line can stand as a source line.
pub proof fn lemma_label_line_edges(k: nat)
    ensures
        line_ok(label_line(k)),
{
    kw_label();
    let ltx = seq!['@'] + dec_str(k);
    lemma_digit_chars(k);
    assert(!is_space('@'));
    assert(forall|j: int| 0 <= j < ltx.len() ==> !is_space(#[trigger] ltx[j])) by {
        assert(ltx[0] == '@');
        assert(forall|j: int| 1 <= j < ltx.len() ==> #[trigger] ltx[j] == dec_str(k)[j - 1]);
    }
    lemma_nonspace_clean(ltx);
    assert(ltx.last() == dec_str(k).last());
    lemma_edges2("label"@, ltx);
    assert(label_line(k) =~= "label"@ + sp() + ltx);
}

/// Splitting the joined lines at the newlines recovers every line.
pub proof fn lemma_lines_of_join(ls: Seq<Seq<char>>)
    requires
        ls.len() >= 1,
        forall|k: int| 0 <= k < ls.len() ==> clean(#[trigger] ls[k]),
        ls.last().len() > 0,
    ensures
        crate::compiler::lines_of(join_lines(ls)) == ls,
    decreases ls.len(),
{
    if ls.len() == 1 {
        let l = ls[0];
        assert(forall|i: int| 0 <= i < l.len() ==> #[trigger] l[i] != '\n');
        lemma_find_char_absent(l, '\n');
        assert(crate::compiler::lines_of(join_lines(ls)) =~= ls);
    } else {
        let rest = ls.drop_first();
        assert(forall|k: int| 0 <= k < rest.len() ==> #[trigger] rest[k] == ls[k + 1]);
        assert(rest.last() == ls.last());
        lemma_lines_of_join(rest);
        let l0 = ls[0];
        let j = join_lines(ls);
        assert(j == l0 + seq!['\n'] + join_lines(rest));
        assert(forall|i: int| 0 <= i < l0.len() ==> #[trigger] l0[i] != '\n');
        lemma_find_char_concat(l0, '\n', join_lines(rest));
        assert(find_char(j, '\n') == l0.len());
        assert(j.len() > 0);
        assert(j.take(l0.len() as int) =~= l0);
        assert(j.skip(l0.len() as int + 1) =~= join_lines(rest));
        assert(l0.len() == 0 || l0.last() != '\r');
        assert(crate::compiler::strip_cr(l0) == l0);
        assert(seq![l0] + rest =~= ls);
    }
}


/// A compiled goto, written back to its synthetic indexed label.
pub open spec fn unres(i: InstrV) -> InstrV {
    match i {
        InstrV::Goto(l) => match l {
            LabelV::Offset(o) => InstrV::Goto(LabelV::Indexed(o)),
            _ => i,
        },
        _ => i,
    }
}

/// The whole script as the line pass rebuilds it, before label resolution.
pub open spec fn unres_seq(code: Seq<InstrV>) -> Seq<InstrV> {
    code.map_values(|i: InstrV| unres(i))
}

/// The label table after the synthetic labels `@0 .. @k-1` were recorded:
/// each indexed label maps to its own number.
pub open spec fn ilabels(k: nat) -> Map<LabelV, usize> {
    Map::new(
        |l: LabelV| l matches LabelV::Indexed(j) && (j as nat) < k,
        |l: LabelV|
            match l {
                LabelV::Indexed(j) => j,
                LabelV::Offset(o) => o,
                LabelV::Named(_n) => 0,
            },
    )
}

pub open spec fn is_branch(i: InstrV) -> bool {
    i matches InstrV::Branch(_l, _op, _r, _e)
}

pub open spec fn else_of(i: InstrV) -> usize {
    match i {
        InstrV::Branch(_l, _op, _r, e) => e,
        _ => 0,
    }
}

/// Branch regions never overlap: an earlier branch's else-target lies at or
/// before any later branch. The compiler's one-slot branch stack yields
/// exactly this shape.
pub open spec fn branches_disjoint(code: Seq<InstrV>) -> bool {
    forall|p: int, q: int|
        0 <= p < q < code.len() && is_branch(#[trigger] code[p]) && is_branch(
            #[trigger] code[q],
        ) ==> else_of(code[p]) <= q
}

/// A compiled script the printer reproduces exactly: well-formed, branch
/// regions disjoint, and every instruction printable.
pub open spec fn printable_script(code: Seq<InstrV>) -> bool {
    &&& code.len() < usize::MAX
    &&& crate::script::script_wf(code)
    &&& branches_disjoint(code)
    &&& forall|k: int| 0 <= k < code.len() ==> instr_ok(#[trigger] code[k])
}

/// A branch as it sits in the emitter before its `fi` line is reached: its
/// else-target still holds the fresh placeholder.
pub open spec fn with_placeholder(i: InstrV, at: nat) -> InstrV {
    match i {
        InstrV::Branch(l, op, r, _e) => InstrV::Branch(l, op, r, wrap_inc(at)),
        _ => i,
    }
}

proof fn lemma_run_step(e: EmitV, l: Seq<char>, rest: Seq<Seq<char>>, n: usize, e2: EmitV)
    requires
        line_ok(l),
        line_step(e, l, n) == Ok::<EmitV, CompileError>(e2),
    ensures
        run_lines(e, seq![l] + rest, n) == run_lines(e2, rest, wrap_inc(n as nat)),
{
    let ls = seq![l] + rest;
    assert(ls[0] == l);
    assert(ls.drop_first() =~= rest);
    lemma_trim_id(l);
}

/// Every line the printer emits can stand as a source line.
proof fn lemma_print_lines_ok(code: Seq<InstrV>, k: nat, pending: Option<usize>)
    requires
        forall|j: int| 0 <= j < code.len() ==> instr_ok(#[trigger] code[j]),
        k <= code.len(),
    ensures
        forall|t: int|
            0 <= t < print_from(code, k, pending).len() ==> line_ok(
                #[trigger] print_from(code, k, pending)[t],
            ),
    decreases code.len() - k,
{
    kw_fi_();
    lemma_edges1("fi"@);
    if k >= code.len() {
        lemma_label_line_edges(code.len() as nat);
        let ls = print_from(code, k, pending);
        assert forall|t: int| 0 <= t < ls.len() implies line_ok(#[trigger] ls[t]) by {
            if pending == Some(code.len() as usize) {
                assert(ls =~= seq!["fi"@, label_line(code.len() as nat)]);
            } else {
                assert(ls =~= seq![label_line(code.len() as nat)]);
            }
        }
    } else {
        let i = code[k as int];
        let fi_here = pending == Some(k as usize);
        let next_pending = match i {
            InstrV::Branch(_l, _op, _r, e) => Some(e),
            _ => if fi_here {
                None
            } else {
                pending
            },
        };
        lemma_print_lines_ok(code, k + 1, next_pending);
        lemma_label_line_edges(k);
        lemma_line_text_edges(i);
        let rest = print_from(code, k + 1, next_pending);
        let ls = print_from(code, k, pending);
        if fi_here {
            assert(ls =~= seq!["fi"@, label_line(k), line_text(i)] + rest);
        } else {
            assert(ls =~= seq![label_line(k), line_text(i)] + rest);
        }
        assert forall|t: int| 0 <= t < ls.len() implies line_ok(#[trigger] ls[t]) by {
            let pre: int = if fi_here {
                3
            } else {
                2
            };
            if t >= pre {
                assert(ls[t] == rest[t - pre]);
            }
        }
    }
}

/// What the line pass keeps true while it replays the printed lines: the
/// synthetic labels recorded so far, and the instructions rebuilt up to
/// position `k`, with at most the one open branch still holding its
/// placeholder target.
pub open spec fn print_state_inv(
    code: Seq<InstrV>,
    k: nat,
    pending: Option<usize>,
    pb: nat,
    e: EmitV,
) -> bool {
    &&& k <= code.len()
    &&& e.labels == ilabels(k)
    &&& match pending {
        None => e.code == unres_seq(code).take(k as int),
        Some(ev) => {
            &&& pb < k
            &&& is_branch(code[pb as int])
            &&& else_of(code[pb as int]) == ev
            &&& k <= ev <= code.len()
            &&& e.last_branch == Some(pb as usize)
            &&& e.code == unres_seq(code).take(k as int).update(
                pb as int,
                with_placeholder(code[pb as int], pb),
            )
            &&& forall|j: int| pb < j < k ==> !is_branch(#[trigger] code[j])
        },
    }
}

#[verifier::rlimit(100)]
#[verifier::spinoff_prover]
proof fn lemma_print_run(
    code: Seq<InstrV>,
    k: nat,
    pending: Option<usize>,
    pb: nat,
    e: EmitV,
    n: usize,
)
    requires
        printable_script(code),
        print_state_inv(code, k, pending, pb, e),
    ensures
        run_lines(e, print_from(code, k, pending), n) matches Ok(e2) && e2.code == unres_seq(
            code,
        ) && e2.labels == ilabels((code.len() + 1) as nat),
    decreases code.len() - k,
{
    let len = code.len();
    assert(unres_seq(code).len() == len);
    assert(e.code.len() == k);
    kw_fi_();
    lemma_edges1("fi"@);
    lemma_label_line_edges(k);
    if k == len {
        let e_mid: EmitV = if pending is Some {
            // ev == len here, so the closing `fi` patches the placeholder
            // back to the recorded else target.
            let ev = pending.unwrap();
            assert(ev == len as usize);
            assert(e.code[pb as int] == with_placeholder(code[pb as int], pb));
            assert(is_branch(e.code[pb as int]));
            let e1 = end_branch_spec(e).unwrap();
            assert(e1.code =~= unres_seq(code)) by {
                assert(unres(code[pb as int]) == code[pb as int]);
                assert(forall|j: int|
                    0 <= j < len && j != pb ==> #[trigger] e.code[j] == unres_seq(code)[j]);
            }
            lemma_fi_line_roundtrip(e, n);
            lemma_run_step(
                e,
                "fi"@,
                seq![label_line(len as nat)],
                n,
                e1,
            );
            assert(print_from(code, k, pending) =~= seq!["fi"@] + (seq![
                label_line(len as nat),
            ] + Seq::<Seq<char>>::empty()));
            assert(seq!["fi"@] + seq![label_line(len as nat)] =~= seq!["fi"@] + (seq![
                label_line(len as nat),
            ] + Seq::<Seq<char>>::empty()));
            e1
        } else {
            assert(print_from(code, k, pending) =~= seq![label_line(len as nat)]
                + Seq::<Seq<char>>::empty());
            assert(e.code =~= unres_seq(code));
            e
        };
        lemma_label_line_edges(len as nat);
        lemma_label_line_roundtrip(e_mid, len as usize, n);
        let e_fin = EmitV {
            labels: e_mid.labels.insert(LabelV::Indexed(len as usize), len as usize),
            ..e_mid
        };
        lemma_run_step(
            e_mid,
            label_line(len as nat),
            Seq::<Seq<char>>::empty(),
            n,
            e_fin,
        );
        assert(e_fin.labels =~= ilabels((len + 1) as nat));
        lemma_run_step(
            e_mid,
            label_line(len as nat),
            Seq::<Seq<char>>::empty(),
            wrap_inc(n as nat),
            e_fin,
        );
        assert(run_lines(e_fin, Seq::<Seq<char>>::empty(), wrap_inc(wrap_inc(n as nat) as nat))
            == Ok::<EmitV, CompileError>(e_fin));
        assert(run_lines(e_fin, Seq::<Seq<char>>::empty(), wrap_inc(n as nat))
            == Ok::<EmitV, CompileError>(e_fin));
    } else {
        let i = code[k as int];
        let fi_here = pending == Some(k as usize);
        let next_pending = match i {
            InstrV::Branch(_l, _op, _r, eo) => Some(eo),
            _ => if fi_here {
                None
            } else {
                pending
            },
        };
        let rest = print_from(code, k + 1, next_pending);
        assert(instr_ok(i));
        lemma_line_text_edges(i);
        // After the optional fi the open branch, if any, is the one at pb
        // with a target past k; a branch at k itself would then overlap it.
        let (e_a, n_a): (EmitV, usize) = if fi_here {
            let ev = pending.unwrap();
            assert(ev == k as usize);
            assert(e.code[pb as int] == with_placeholder(code[pb as int], pb));
            assert(is_branch(e.code[pb as int]));
            let e1 = end_branch_spec(e).unwrap();
            assert(e1.code =~= unres_seq(code).take(k as int)) by {
                assert(unres(code[pb as int]) == code[pb as int]);
                assert(forall|j: int|
                    0 <= j < k && j != pb ==> #[trigger] e.code[j] == unres_seq(code).take(
                        k as int,
                    )[j]);
            }
            lemma_fi_line_roundtrip(e, n);
            lemma_run_step(e, "fi"@, seq![label_line(k), line_text(i)] + rest, n, e1);
            assert(print_from(code, k, pending) =~= seq!["fi"@] + (seq![
                label_line(k),
                line_text(i),
            ] + rest));
            (e1, wrap_inc(n as nat))
        } else {
            assert(print_from(code, k, pending) =~= seq![label_line(k), line_text(i)] + rest);
            (e, n)
        };
        lemma_label_line_roundtrip(e_a, k as usize, n_a);
        let e_b = EmitV { labels: e_a.labels.insert(LabelV::Indexed(k as usize), k as usize), ..e_a };
        assert(e_a.code.len() == k);
        lemma_run_step(e_a, label_line(k), seq![line_text(i)] + rest, n_a, e_b);
        assert(seq![label_line(k), line_text(i)] + rest =~= seq![label_line(k)] + (seq![
            line_text(i),
        ] + rest));
        assert(e_b.labels =~= ilabels(k + 1));
        lemma_line_roundtrip(e_b, i, wrap_inc(n_a as nat));
        let e_c: EmitV = match i {
            InstrV::Branch(l2, op2, r2, _eo2) => EmitV {
                code: e_b.code.push(InstrV::Branch(l2, op2, r2, wrap_inc(e_b.code.len()))),
                last_branch: Some(e_b.code.len() as usize),
                labels: e_b.labels,
            },
            InstrV::Goto(l2) => emit1(e_b, InstrV::Goto(LabelV::Indexed(goto_offset(l2)))),
            _ => emit1(e_b, i),
        };
        lemma_run_step(e_b, line_text(i), rest, wrap_inc(n_a as nat), e_c);
        // The next state satisfies the invariant at k + 1.
        let (pending2, pb2): (Option<usize>, nat) = match i {
            InstrV::Branch(_l2, _op2, _r2, eo2) => (Some(eo2), k),
            _ => (
                if fi_here {
                    None
                } else {
                    pending
                },
                pb,
            ),
        };
        assert(pending2 == next_pending);
        if is_branch(i) {
            assert(crate::script::instr_wf(code[k as int], k as int, len as int));
            assert(k < else_of(i) <= len);
            // a branch cannot sit inside the still-open region of an
            // earlier branch
            if !fi_here && pending is Some {
                assert(is_branch(code[pb as int]));
                assert(else_of(code[pb as int]) <= k);
                assert(false);
            }
            assert(e_b.code == unres_seq(code).take(k as int));
            assert(with_placeholder(i, k) == InstrV::Branch(
                i->Branch_0,
                i->Branch_1,
                i->Branch_2,
                wrap_inc(k),
            ));
            assert(e_c.code =~= unres_seq(code).take(k + 1 as int).update(
                k as int,
                with_placeholder(i, k),
            )) by {
                assert(unres_seq(code).take(k + 1 as int)[k as int] == unres(i));
            }
            assert(print_state_inv(code, k + 1, pending2, pb2, e_c));
        } else {
            assert(unres_seq(code).take(k + 1 as int) =~= unres_seq(code).take(k as int).push(
                unres(i),
            ));
            match i {
                InstrV::Goto(l2) => {
                    assert(l2 is Offset);
                    assert(unres(i) == InstrV::Goto(LabelV::Indexed(goto_offset(l2))));
                },
                _ => {
                    assert(unres(i) == i);
                },
            }
            if pending2 is Some {
                assert(!fi_here);
                assert(e_a == e);
                assert(e_c.code =~= unres_seq(code).take(k + 1 as int).update(
                    pb as int,
                    with_placeholder(code[pb as int], pb),
                ));
                assert(forall|j: int| pb < j < k + 1 ==> !is_branch(#[trigger] code[j]));
            } else {
                assert(e_c.code =~= unres_seq(code).take(k + 1 as int));
            }
            assert(print_state_inv(code, k + 1, pending2, pb2, e_c));
        }
        lemma_print_run(code, k + 1, pending2, pb2, e_c, wrap_inc(wrap_inc(n_a as nat) as nat));
    }
}

proof fn lemma_resolve_unres_from(code: Seq<InstrV>, labels: Map<LabelV, usize>, j: nat)
    requires
        j <= code.len(),
        forall|k: int|
            0 <= k < code.len() ==> resolve_instr(#[trigger] unres_seq(code)[k], labels)
                == Some(code[k]),
    ensures
        resolve_spec(unres_seq(code).skip(j as int), labels) == Some(code.skip(j as int)),
    decreases code.len() - j,
{
    let u = unres_seq(code);
    if j < code.len() {
        lemma_resolve_unres_from(code, labels, j + 1);
        assert(u.skip(j as int)[0] == u[j as int]);
        assert(u.skip(j as int).drop_first() =~= u.skip(j + 1 as int));
        assert(seq![code[j as int]] + code.skip(j + 1 as int) =~= code.skip(j as int));
    } else {
        assert(u.skip(j as int).len() == 0);
        assert(code.skip(j as int) =~= Seq::<InstrV>::empty());
    }
}

/// Compile → print → compile: compiling the printed text of a printable
/// compiled script yields exactly the same instruction vector, the synthetic
/// `@`-labels standing in for the resolved offsets.
pub proof fn lemma_print_compile_round_trip(code: Seq<InstrV>)
    requires
        printable_script(code),
    ensures
        compile_spec(join_lines(print_lines(code))) == Ok::<Seq<InstrV>, CompileError>(code),
{
    let len = code.len();
    let ls = print_lines(code);
    lemma_print_lines_ok(code, 0, None);
    assert forall|t: int| 0 <= t < ls.len() implies clean(#[trigger] ls[t]) by {
        assert(line_ok(ls[t]));
    }
    assert(ls.len() >= 1 && ls.last().len() > 0) by {
        lemma_print_from_nonempty(code, 0, None);
        assert(line_ok(ls[ls.len() - 1]));
    }
    lemma_lines_of_join(ls);
    assert(init_emit().labels =~= ilabels(0));
    assert(init_emit().code =~= unres_seq(code).take(0));
    assert(print_state_inv(code, 0, None, 0, init_emit()));
    lemma_print_run(code, 0, None, 0, init_emit(), 1);
    let e2 = run_lines(init_emit(), ls, 1).unwrap();
    assert forall|k: int|
        0 <= k < len implies resolve_instr(#[trigger] unres_seq(code)[k], e2.labels) == Some(
        code[k],
    ) by {
        assert(crate::script::instr_wf(code[k], k, len as int));
        match code[k] {
            InstrV::Goto(l) => {
                let o = goto_offset(l);
                assert(l == LabelV::Offset(o) && o <= len);
                assert(unres_seq(code)[k] == InstrV::Goto(LabelV::Indexed(o)));
                assert(e2.labels.contains_key(LabelV::Indexed(o)));
                assert(e2.labels[LabelV::Indexed(o)] == o);
            },
            _ => {
                assert(unres_seq(code)[k] == code[k]);
            },
        }
    }
    lemma_resolve_unres_from(code, e2.labels, 0);
    assert(unres_seq(code).skip(0) =~= unres_seq(code));
    assert(code.skip(0) =~= code);
}

proof fn lemma_print_from_nonempty(code: Seq<InstrV>, k: nat, pending: Option<usize>)
    ensures
        print_from(code, k, pending).len() >= 1,
    decreases code.len() - k,
{
}

} // verus!
