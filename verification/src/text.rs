//! Low-level text handling for script sources: whitespace splitting,
//! trimming, quote stripping and backslash unescaping.

use vstd::prelude::*;

verus! {

/// The characters `char::is_ascii_whitespace` accepts.
pub open spec fn is_space(c: char) -> bool {
    c == ' ' || c == '\t' || c == '\n' || c == '\r' || c == '\u{c}'
}

/// Executable form of `is_space`.
pub fn is_space_char(c: char) -> (r: bool)
    ensures
        r == is_space(c),
{
    c == ' ' || c == '\t' || c == '\n' || c == '\r' || c == '\u{c}'
}

/// Length of the leading run of non-whitespace characters.
pub open spec fn token_end(s: Seq<char>) -> nat
    decreases s.len(),
{
    if s.len() > 0 && !is_space(s[0]) {
        (1 + token_end(s.drop_first())) as nat
    } else {
        0
    }
}

proof fn lemma_token_end_at(s: Seq<char>, j: int)
    requires
        0 <= j <= s.len(),
        forall|k: int| 0 <= k < j ==> !is_space(s[k]),
        j == s.len() || is_space(s[j]),
    ensures
        token_end(s) == j,
    decreases j,
{
    if j == 0 {
    } else {
        assert(!is_space(s[0]));
        lemma_token_end_at(s.drop_first(), j - 1);
    }
}

/// Splitting of a line into at most `rem` whitespace-delimited tokens,
/// followed, if anything is left, by the rest of the line with leading
/// whitespace removed.
pub open spec fn split_args_spec(s: Seq<char>, rem: nat) -> Seq<Seq<char>>
    decreases s.len(),
    via split_args_spec_decreases
{
    if s.len() == 0 {
        Seq::empty()
    } else if is_space(s[0]) {
        split_args_spec(s.drop_first(), rem)
    } else if rem == 0 {
        seq![s]
    } else {
        seq![s.take(token_end(s) as int)] + split_args_spec(
            s.skip(token_end(s) as int),
            (rem - 1) as nat,
        )
    }
}

pub proof fn lemma_token_end_le(s: Seq<char>)
    ensures
        token_end(s) <= s.len(),
    decreases s.len(),
{
    if s.len() > 0 && !is_space(s[0]) {
        lemma_token_end_le(s.drop_first());
    }
}

#[via_fn]
proof fn split_args_spec_decreases(s: Seq<char>, rem: nat) {
    if s.len() > 0 && !is_space(s[0]) && rem > 0 {
        assert(token_end(s) == 1 + token_end(s.drop_first()));
        lemma_token_end_le(s);
    }
}

fn split_rec<'a>(s: &'a str, rem: usize) -> (parts: Vec<&'a str>)
    ensures
        parts.deep_view() == split_args_spec(s@, rem as nat),
    decreases s@.len(),
{
    let n = s.unicode_len();
    if n == 0 {
        let parts: Vec<&'a str> = Vec::new();
        assert(parts.deep_view() =~= split_args_spec(s@, rem as nat));
        parts
    } else if is_space_char(s.get_char(0)) {
        let tail = s.substring_char(1, n);
        assert(tail@ =~= s@.drop_first());
        split_rec(tail, rem)
    } else if rem == 0 {
        let mut parts: Vec<&'a str> = Vec::new();
        parts.push(s);
        assert(parts.deep_view() =~= seq![s@]);
        parts
    } else {
        let mut j: usize = 1;
        while j < n && !is_space_char(s.get_char(j))
            invariant
                1 <= j <= n,
                n == s@.len(),
                forall|k: int| 0 <= k < j ==> !is_space(s@[k]),
            decreases n - j,
        {
            j = j + 1;
        }
        proof {
            lemma_token_end_at(s@, j as int);
        }
        let tok = s.substring_char(0, j);
        let rest = s.substring_char(j, n);
        let mut parts: Vec<&'a str> = Vec::new();
        parts.push(tok);
        let mut tail = split_rec(rest, rem - 1);
        parts.append(&mut tail);
        assert(tok@ =~= s@.take(token_end(s@) as int));
        assert(rest@ =~= s@.skip(token_end(s@) as int));
        assert(parts.deep_view() =~= seq![tok@] + split_args_spec(
            rest@,
            (rem - 1) as nat,
        ));
        parts
    }
}

/// `s` without its leading run of whitespace.
pub open spec fn skip_spaces_front(s: Seq<char>) -> Seq<char>
    decreases s.len(),
{
    if s.len() > 0 && is_space(s[0]) {
        skip_spaces_front(s.drop_first())
    } else {
        s
    }
}

/// `s` without its trailing run of whitespace.
pub open spec fn skip_spaces_back(s: Seq<char>) -> Seq<char>
    decreases s.len(),
{
    if s.len() > 0 && is_space(s.last()) {
        skip_spaces_back(s.drop_last())
    } else {
        s
    }
}

/// `s` without leading and trailing whitespace.
pub open spec fn trim_spec(s: Seq<char>) -> Seq<char> {
    skip_spaces_back(skip_spaces_front(s))
}

/// Remove leading whitespace.
pub fn trim_start(s: &str) -> (r: &str)
    ensures
        r@ == skip_spaces_front(s@),
    decreases s@.len(),
{
    let n = s.unicode_len();
    if n > 0 && is_space_char(s.get_char(0)) {
        let tail = s.substring_char(1, n);
        assert(tail@ =~= s@.drop_first());
        trim_start(tail)
    } else {
        s
    }
}

/// Remove leading and trailing whitespace.
pub fn trim(s: &str) -> (r: &str)
    ensures
        r@ == trim_spec(s@),
    decreases s@.len(),
{
    let n = s.unicode_len();
    if n == 0 {
        s
    } else if is_space_char(s.get_char(0)) {
        let tail = s.substring_char(1, n);
        assert(tail@ =~= s@.drop_first());
        trim(tail)
    } else if is_space_char(s.get_char(n - 1)) {
        let head = s.substring_char(0, n - 1);
        assert(head@ =~= s@.drop_last());
        assert(skip_spaces_front(s@) == s@);
        assert(skip_spaces_front(head@) == head@);
        trim(head)
    } else {
        assert(skip_spaces_front(s@) == s@);
        assert(skip_spaces_back(s@) == s@);
        s
    }
}

/// One leading and one trailing occurrence of `c` removed, each
/// independently of the other.
pub open spec fn strip_spec(s: Seq<char>, c: char) -> Seq<char> {
    let a = if s.len() > 0 && s[0] == c {
        s.drop_first()
    } else {
        s
    };
    if a.len() > 0 && a.last() == c {
        a.drop_last()
    } else {
        a
    }
}

/// Remove one leading and one trailing occurrence of `c`, if present.
pub fn strip<'a>(s: &'a str, c: char) -> (r: &'a str)
    ensures
        r@ == strip_spec(s@, c),
{
    let n = s.unicode_len();
    let (s1, n1): (&str, usize) = if n > 0 && s.get_char(0) == c {
        let t = s.substring_char(1, n);
        assert(t@ =~= s@.drop_first());
        (t, n - 1)
    } else {
        (s, n)
    };
    if n1 > 0 && s1.get_char(n1 - 1) == c {
        let t = s1.substring_char(0, n1 - 1);
        assert(t@ =~= s1@.drop_last());
        t
    } else {
        s1
    }
}

/// Backslash collapsing: each backslash is dropped and the character after
/// it is kept verbatim.
pub open spec fn unesc(s: Seq<char>) -> Seq<char>
    decreases s.len(),
{
    if s.len() == 0 {
        Seq::empty()
    } else if s[0] == '\\' {
        if s.len() == 1 {
            Seq::empty()
        } else {
            seq![s[1]] + unesc(s.skip(2))
        }
    } else {
        seq![s[0]] + unesc(s.skip(1))
    }
}

/// The unescaped form of a raw value: one optional pair of surrounding `"`
/// and `'` stripped, then backslashes collapsed.
pub open spec fn unescape_spec(s: Seq<char>) -> Seq<char> {
    unesc(strip_spec(strip_spec(s, '"'), '\''))
}

fn unesc_exec(s: &str) -> (r: String)
    ensures
        r@ == unesc(s@),
    decreases s@.len(),
{
    let n = s.unicode_len();
    if n == 0 {
        let r = String::new();
        assert(r@ =~= unesc(s@));
        r
    } else if s.get_char(0) == '\\' {
        if n == 1 {
            let r = String::new();
            assert(r@ =~= unesc(s@));
            r
        } else {
            let mut r = String::from_str(s.substring_char(1, 2));
            let tail = s.substring_char(2, n);
            assert(tail@ =~= s@.skip(2));
            let t = unesc_exec(tail);
            r.append(t.as_str());
            assert(s@.subrange(1, 2) =~= seq![s@[1]]);
            r
        }
    } else {
        let mut r = String::from_str(s.substring_char(0, 1));
        let tail = s.substring_char(1, n);
        assert(tail@ =~= s@.skip(1));
        let t = unesc_exec(tail);
        r.append(t.as_str());
        assert(s@.subrange(0, 1) =~= seq![s@[0]]);
        r
    }
}

/// Strip one optional pair of surrounding `"` or `'`, then collapse every
/// backslash escape.
pub fn unescape(s: &str) -> (r: String)
    ensures
        r@ == unescape_spec(s@),
{
    let s1 = strip(s, '"');
    let s2 = strip(s1, '\'');
    unesc_exec(s2)
}

/// Index of the first occurrence of `c` in `s`, or `-1` when absent.
pub open spec fn find_char(s: Seq<char>, c: char) -> int
    decreases s.len(),
{
    if s.len() == 0 {
        -1
    } else if s[0] == c {
        0
    } else {
        let r = find_char(s.drop_first(), c);
        if r == -1 {
            -1
        } else {
            r + 1
        }
    }
}

pub proof fn lemma_find_char(s: Seq<char>, c: char)
    ensures
        find_char(s, c) == -1 ==> forall|i: int| 0 <= i < s.len() ==> s[i] != c,
        find_char(s, c) != -1 ==> {
            &&& 0 <= find_char(s, c) < s.len()
            &&& s[find_char(s, c)] == c
            &&& forall|i: int| 0 <= i < find_char(s, c) ==> s[i] != c
        },
    decreases s.len(),
{
    if s.len() > 0 && s[0] != c {
        let t = s.drop_first();
        lemma_find_char(t, c);
        assert(forall|i: int| 1 <= i < s.len() ==> s[i] == t[i - 1]);
        if find_char(t, c) == -1 {
            assert forall|i: int| 0 <= i < s.len() implies s[i] != c by {
                if i >= 1 {
                    assert(s[i] == t[i - 1]);
                }
            }
        } else {
            let j = find_char(t, c);
            assert(s[j + 1] == t[j]);
            assert forall|i: int| 0 <= i < j + 1 implies s[i] != c by {
                if i >= 1 {
                    assert(s[i] == t[i - 1]);
                }
            }
        }
    }
}

/// First index of `c` in `s`, if any.
pub fn find_char_in(s: &str, c: char) -> (r: Option<usize>)
    ensures
        match r {
            Some(i) => i as int == find_char(s@, c),
            None => find_char(s@, c) == -1,
        },
    decreases s@.len(),
{
    let n = s.unicode_len();
    if n == 0 {
        None
    } else if s.get_char(0) == c {
        Some(0)
    } else {
        let tail = s.substring_char(1, n);
        assert(tail@ =~= s@.drop_first());
        match find_char_in(tail, c) {
            Some(i) => {
                proof {
                    lemma_find_char(tail@, c);
                }
                Some(i + 1)
            },
            None => None,
        }
    }
}

/// Whether `c` is an ASCII decimal digit.
pub open spec fn is_digit(c: char) -> bool {
    48 <= c as u32 <= 57
}

/// The value of a digit string read in base ten.
pub open spec fn digits_val(s: Seq<char>) -> nat
    decreases s.len(),
{
    if s.len() == 0 {
        0
    } else {
        digits_val(s.drop_last()) * 10 + ((s.last() as u32 - 48) as nat)
    }
}

/// The value of a run of digits, when that is what `t` is and the value
/// fits in `usize`.
pub open spec fn parse_digit_run(t: Seq<char>) -> Option<usize> {
    if t.len() > 0 && (forall|i: int| 0 <= i < t.len() ==> is_digit(t[i])) && digits_val(t)
        <= usize::MAX {
        Some(digits_val(t) as usize)
    } else {
        None
    }
}

/// What `str::parse::<usize>` accepts: an optional leading `+`, then at
/// least one digit, with a value that fits in `usize`.
pub open spec fn parse_usize_spec(s: Seq<char>) -> Option<usize> {
    parse_digit_run(
        if s.len() > 0 && s[0] == '+' {
            s.drop_first()
        } else {
            s
        },
    )
}

proof fn lemma_digits_val_grows(s: Seq<char>, i: int)
    requires
        0 <= i <= s.len(),
    ensures
        digits_val(s.take(i)) <= digits_val(s),
    decreases s.len() - i,
{
    if i < s.len() {
        lemma_digits_val_grows(s, i + 1);
        assert(s.take(i + 1).drop_last() =~= s.take(i));
        assert(digits_val(s.take(i)) <= digits_val(s.take(i + 1)));
    } else {
        assert(s.take(i) =~= s);
    }
}

/// Parse a base-ten `usize`, accepting exactly what `str::parse` does.
pub fn parse_usize(s: &str) -> (r: Option<usize>)
    ensures
        r == parse_usize_spec(s@),
{
    let n = s.unicode_len();
    let (t, m): (&str, usize) = if n > 0 && s.get_char(0) == '+' {
        let t = s.substring_char(1, n);
        assert(t@ =~= s@.drop_first());
        (t, n - 1)
    } else {
        (s, n)
    };
    if m == 0 {
        return None;
    }
    let ghost tv: Seq<char> = if s@.len() > 0 && s@[0] == '+' {
        s@.drop_first()
    } else {
        s@
    };
    assert(t@ == tv);
    let mut v: usize = 0;
    let mut i: usize = 0;
    while i < m
        invariant
            0 <= i <= m,
            m == t@.len(),
            m > 0,
            t@ == tv,
            tv == (if s@.len() > 0 && s@[0] == '+' {
                s@.drop_first()
            } else {
                s@
            }),
            forall|k: int| 0 <= k < i ==> is_digit(t@[k]),
            v as nat == digits_val(t@.take(i as int)),
        decreases m - i,
    {
        let c = t.get_char(i);
        let cu = c as u32;
        if cu < 48 || cu > 57 {
            proof {
                assert((i as int) < tv.len() && !is_digit(tv[i as int]));
                assert(!(forall|k: int| 0 <= k < tv.len() ==> is_digit(tv[k])));
                assert(parse_digit_run(tv) is None);
            }
            return None;
        }
        let d: usize = (cu - 48) as usize;
        let wide: u128 = (v as u128) * 10 + (d as u128);
        assert(t@.take(i + 1).drop_last() =~= t@.take(i as int));
        assert(t@.take(i + 1).last() == t@[i as int]);
        assert(digits_val(t@.take(i + 1)) == (v * 10 + d) as nat);
        if wide > usize::MAX as u128 {
            proof {
                lemma_digits_val_grows(t@, i + 1);
                assert(digits_val(t@) > usize::MAX);
            }
            return None;
        }
        v = (wide as usize);
        i = i + 1;
    }
    assert(t@.take(m as int) =~= t@);
    Some(v)
}

/// Strict lexicographic order on character sequences, by code point. For
/// text encoded as UTF-8 this coincides with the byte order `str`'s `<`
/// uses.
pub open spec fn lex_lt(a: Seq<char>, b: Seq<char>) -> bool
    decreases a.len(),
{
    if b.len() == 0 {
        false
    } else if a.len() == 0 {
        true
    } else if (a[0] as u32) < (b[0] as u32) {
        true
    } else if a[0] == b[0] {
        lex_lt(a.drop_first(), b.drop_first())
    } else {
        false
    }
}

/// Lexicographic order or equality.
pub open spec fn lex_le(a: Seq<char>, b: Seq<char>) -> bool {
    lex_lt(a, b) || a == b
}

/// Whether `a` sorts strictly before `b`.
pub fn str_lt(a: &str, b: &str) -> (r: bool)
    ensures
        r == lex_lt(a@, b@),
    decreases a@.len(),
{
    let na = a.unicode_len();
    let nb = b.unicode_len();
    if nb == 0 {
        false
    } else if na == 0 {
        true
    } else {
        let ca = a.get_char(0);
        let cb = b.get_char(0);
        if (ca as u32) < (cb as u32) {
            true
        } else if ca == cb {
            let ta = a.substring_char(1, na);
            let tb = b.substring_char(1, nb);
            assert(ta@ =~= a@.drop_first());
            assert(tb@ =~= b@.drop_first());
            str_lt(ta, tb)
        } else {
            false
        }
    }
}

/// Whether the two hold the same characters.
pub fn str_eq(a: &str, b: &str) -> (r: bool)
    ensures
        r == (a@ == b@),
{
    let na = a.unicode_len();
    let nb = b.unicode_len();
    if na != nb {
        return false;
    }
    let mut i: usize = 0;
    while i < na
        invariant
            0 <= i <= na,
            na == a@.len(),
            na == b@.len(),
            forall|k: int| 0 <= k < i ==> a@[k] == b@[k],
        decreases na - i,
    {
        if a.get_char(i) != b.get_char(i) {
            return false;
        }
        i = i + 1;
    }
    proof {
        assert(a@ =~= b@);
    }
    true
}

/// `a` sorts before `b` or equals it.
pub fn str_le(a: &str, b: &str) -> (r: bool)
    ensures
        r == lex_le(a@, b@),
{
    if str_lt(a, b) {
        true
    } else {
        str_eq(a, b)
    }
}

/// The decimal digit character for `d`.
pub open spec fn digit_char(d: nat) -> char {
    ((48 + d) as u8) as char
}

/// The base-ten rendering of `n`, without sign or padding.
pub open spec fn dec_str(n: nat) -> Seq<char>
    decreases n,
    via dec_str_decreases
{
    if n < 10 {
        seq![digit_char(n)]
    } else {
        dec_str(n / 10) + seq![digit_char(n % 10)]
    }
}

#[via_fn]
proof fn dec_str_decreases(n: nat) {
    if n >= 10 {
        assert(n / 10 < n) by (nonlinear_arith)
            requires
                n >= 10,
        ;
    }
}

fn digit_str(d: usize) -> (r: String)
    requires
        d < 10,
    ensures
        r@ == seq![digit_char(d as nat)],
{
    let r = match d {
        0 => String::from_str("0"),
        1 => String::from_str("1"),
        2 => String::from_str("2"),
        3 => String::from_str("3"),
        4 => String::from_str("4"),
        5 => String::from_str("5"),
        6 => String::from_str("6"),
        7 => String::from_str("7"),
        8 => String::from_str("8"),
        _ => String::from_str("9"),
    };
    proof {
        reveal_strlit("0");
        reveal_strlit("1");
        reveal_strlit("2");
        reveal_strlit("3");
        reveal_strlit("4");
        reveal_strlit("5");
        reveal_strlit("6");
        reveal_strlit("7");
        reveal_strlit("8");
        reveal_strlit("9");
        assert(r@ =~= seq![digit_char(d as nat)]);
    }
    r
}

/// Render `n` in base ten.
pub fn usize_to_string(n: usize) -> (r: String)
    ensures
        r@ == dec_str(n as nat),
    decreases n,
{
    if n < 10 {
        digit_str(n)
    } else {
        proof {
            assert(n / 10 < n) by (nonlinear_arith)
                requires
                    n >= 10,
            ;
        }
        let mut r = usize_to_string(n / 10);
        let d = digit_str(n % 10);
        r.append(d.as_str());
        r
    }
}

/// Split `line` into at most `limit - 1` whitespace-delimited tokens; the
/// remainder of the line, left-trimmed, becomes the final element when it is
/// not empty. Empty tokens are never produced.
pub fn split_args<'a>(line: &'a str, limit: usize) -> (parts: Vec<&'a str>)
    ensures
        parts.deep_view() == split_args_spec(
            line@,
            if limit == 0 { 0nat } else { (limit - 1) as nat },
        ),
{
    if limit == 0 {
        split_rec(line, 0)
    } else {
        split_rec(line, limit - 1)
    }
}

} // verus!
