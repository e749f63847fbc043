//! Reading Eeyore instructions back from text, one per line.
//!
//! A line is cut at its first `//`, split into tokens (names, numbers,
//! operators, `[`, `]` and `:`; blanks separate them), and the tokens are
//! matched against the forms of the instructions. Lines that match no
//! form are skipped.
use vstd::prelude::*;
use crate::text::{is_digit, digit_value, digits_value, all_digits, string_chars, chars_to_string, lemma_digits_value_monotone};
use crate::eeyore::inst::{
    Inst, InstV, Var, VarUsage, LVal, RVal, Oper, UOper, FnName, inst_view, insts_view, instv_text, lines_text, var_text, rval_text,
    oper_text, uoper_text, usage_text, name_text,
};
use crate::text::{int_text, nat_text, lemma_nat_text_digits, lemma_nat_text_value};

verus! {

pub open spec fn is_space(c: char) -> bool {
    c == ' ' || c == '\t' || c == '\r'
}

pub open spec fn is_letter(c: char) -> bool {
    ('a' <= c <= 'z') || ('A' <= c <= 'Z')
}

pub open spec fn is_ident_start(c: char) -> bool {
    is_letter(c) || c == '_'
}

pub open spec fn is_ident_char(c: char) -> bool {
    is_ident_start(c) || is_digit(c)
}

pub open spec fn is_delim(c: char) -> bool {
    c == '[' || c == ']' || c == ':'
}

pub open spec fn is_op_char(c: char) -> bool {
    c == '+' || c == '-' || c == '*' || c == '/' || c == '%' || c == '<' || c == '>' || c == '='
        || c == '!' || c == '&' || c == '|'
}

/// The two-character operators.
pub open spec fn is_two_op(a: char, b: char) -> bool {
    (b == '=' && (a == '=' || a == '!' || a == '<' || a == '>')) || (a == '&' && b == '&') || (a == '|' && b == '|')
}

/// How many characters at the start of `s` are those of a name.
pub open spec fn ident_run(s: Seq<char>) -> nat
    decreases s.len(),
{
    if s.len() > 0 && is_ident_char(s[0]) {
        1 + ident_run(s.drop_first())
    } else {
        0
    }
}

/// How many characters at the start of `s` are digits.
pub open spec fn digit_run(s: Seq<char>) -> nat
    decreases s.len(),
{
    if s.len() > 0 && is_digit(s[0]) {
        1 + digit_run(s.drop_first())
    } else {
        0
    }
}

/// The length of the token at the start of `s` (which does not start with
/// a blank), or 0 when no token starts there.
pub open spec fn token_len(s: Seq<char>) -> nat {
    if s.len() == 0 {
        0
    } else if is_delim(s[0]) {
        1
    } else if is_ident_start(s[0]) {
        1 + ident_run(s.drop_first())
    } else if is_digit(s[0]) {
        digit_run(s)
    } else if s[0] == '-' && s.len() > 1 && is_digit(s[1]) {
        1 + digit_run(s.drop_first())
    } else if is_op_char(s[0]) {
        if s.len() > 1 && is_two_op(s[0], s[1]) { 2 } else { 1 }
    } else {
        0
    }
}

pub proof fn lemma_runs(s: Seq<char>)
    ensures
        ident_run(s) <= s.len(),
        digit_run(s) <= s.len(),
        digit_run(s) <= ident_run(s),
    decreases s.len(),
{
    if s.len() > 0 {
        lemma_runs(s.drop_first());
    }
}

pub proof fn lemma_token_len(s: Seq<char>)
    ensures
        token_len(s) <= s.len(),
{
    if s.len() > 0 {
        lemma_runs(s);
        lemma_runs(s.drop_first());
    }
}

/// The tokens of `s`, or `None` when a character starts no token.
pub open spec fn tokenize(s: Seq<char>) -> Option<Seq<Seq<char>>>
    decreases s.len(),
{
    if s.len() == 0 {
        Some(Seq::empty())
    } else if is_space(s[0]) {
        tokenize(s.drop_first())
    } else {
        let n = token_len(s);
        if n == 0 {
            None
        } else {
            proof {
                lemma_token_len(s);
            }
            match tokenize(s.skip(n as int)) {
                Some(r) => Some(seq![s.take(n as int)] + r),
                None => None,
            }
        }
    }
}

/// A variable: `T`, `t` or `p`, then its number.
pub open spec fn tok_var(t: Seq<char>) -> Option<Var> {
    if t.len() >= 2 && (t[0] == 'T' || t[0] == 't' || t[0] == 'p') && all_digits(t.drop_first())
        && digits_value(t.drop_first()) <= i32::MAX {
        let u = if t[0] == 'T' { VarUsage::Var } else if t[0] == 't' { VarUsage::Temp } else { VarUsage::Param };
        Some(Var(u, digits_value(t.drop_first()) as i32))
    } else {
        None
    }
}

/// A number, with a leading `-` when negative.
pub open spec fn tok_num(t: Seq<char>) -> Option<i32> {
    if t.len() >= 2 && t[0] == '-' && all_digits(t.drop_first()) && digits_value(t.drop_first()) <= 0x8000_0000 {
        Some((-digits_value(t.drop_first())) as i32)
    } else if t.len() >= 1 && all_digits(t) && digits_value(t) <= i32::MAX {
        Some(digits_value(t) as i32)
    } else {
        None
    }
}

pub open spec fn tok_rval(t: Seq<char>) -> Option<RVal> {
    match tok_var(t) {
        Some(v) => Some(RVal::Sym(v)),
        None => match tok_num(t) {
            Some(n) => Some(RVal::Int(n)),
            None => None,
        },
    }
}

/// A label: `l`, then its number.
pub open spec fn tok_label(t: Seq<char>) -> Option<i32> {
    if t.len() >= 2 && t[0] == 'l' && all_digits(t.drop_first()) && digits_value(t.drop_first()) <= i32::MAX {
        Some(digits_value(t.drop_first()) as i32)
    } else {
        None
    }
}

/// A function: `f_`, then its name.
pub open spec fn tok_fn(t: Seq<char>) -> Option<Seq<char>> {
    if t.len() >= 3 && t[0] == 'f' && t[1] == '_' {
        Some(t.skip(2))
    } else {
        None
    }
}

/// The operator of a one-character token.
pub open spec fn oper1(c: char) -> Option<Oper> {
    if c == '+' { Some(Oper::Add) }
    else if c == '-' { Some(Oper::Sub) }
    else if c == '*' { Some(Oper::Mul) }
    else if c == '/' { Some(Oper::Div) }
    else if c == '%' { Some(Oper::Mod) }
    else if c == '<' { Some(Oper::Lt) }
    else if c == '>' { Some(Oper::Gt) }
    else { None }
}

/// The operator of a two-character token.
pub open spec fn oper2(a: char, b: char) -> Option<Oper> {
    if a == '<' && b == '=' { Some(Oper::Le) }
    else if a == '=' && b == '=' { Some(Oper::Eq) }
    else if a == '!' && b == '=' { Some(Oper::Ne) }
    else if a == '>' && b == '=' { Some(Oper::Ge) }
    else if a == '&' && b == '&' { Some(Oper::And) }
    else if a == '|' && b == '|' { Some(Oper::Or) }
    else { None }
}

pub open spec fn tok_oper(t: Seq<char>) -> Option<Oper> {
    if t.len() == 1 { oper1(t[0]) } else if t.len() == 2 { oper2(t[0], t[1]) } else { None }
}

pub open spec fn tok_uoper(t: Seq<char>) -> Option<UOper> {
    if t.len() == 1 && t[0] == '-' { Some(UOper::Neg) } else if t.len() == 1 && t[0] == '!' { Some(UOper::Not) } else { None }
}

/// The instruction written by the tokens `ts`.
pub open spec fn parse_tokens(ts: Seq<Seq<char>>) -> Option<InstV> {
    let n = ts.len();
    if n == 1 && ts[0] == "return"@ {
        Some(InstV::Ret)
    } else if n == 2 && ts[0] == "var"@ {
        match tok_var(ts[1]) { Some(v) => Some(InstV::DI(v)), None => None }
    } else if n == 3 && ts[0] == "var"@ {
        match (tok_num(ts[1]), tok_var(ts[2])) { (Some(k), Some(v)) => Some(InstV::DArr(k, v)), _ => None }
    } else if n == 2 && ts[0] == "end"@ {
        match tok_fn(ts[1]) { Some(f) => Some(InstV::FnE(f)), None => None }
    } else if n == 2 && ts[0] == "goto"@ {
        match tok_label(ts[1]) { Some(l) => Some(InstV::Jump(l)), None => None }
    } else if n == 2 && ts[1] == ":"@ {
        match tok_label(ts[0]) { Some(l) => Some(InstV::Label(l)), None => None }
    } else if n == 2 && ts[0] == "param"@ {
        match tok_rval(ts[1]) { Some(r) => Some(InstV::Param(r)), None => None }
    } else if n == 2 && ts[0] == "call"@ {
        match tok_fn(ts[1]) { Some(f) => Some(InstV::Call(f)), None => None }
    } else if n == 2 && ts[0] == "return"@ {
        match tok_rval(ts[1]) { Some(r) => Some(InstV::Return(r)), None => None }
    } else if n == 4 && ts[1] == "["@ && ts[3] == "]"@ {
        match (tok_fn(ts[0]), tok_num(ts[2])) { (Some(f), Some(k)) => Some(InstV::Fn(f, k)), _ => None }
    } else if n == 6 && ts[0] == "if"@ && ts[4] == "goto"@ {
        match (tok_rval(ts[1]), tok_oper(ts[2]), tok_rval(ts[3]), tok_label(ts[5])) {
            (Some(a), Some(o), Some(b), Some(l)) => Some(InstV::Brch(a, o, b, l)),
            _ => None,
        }
    } else if n == 6 && ts[1] == "["@ && ts[3] == "]"@ && ts[4] == "="@ {
        match (tok_var(ts[0]), tok_rval(ts[2]), tok_rval(ts[5])) {
            (Some(v), Some(i), Some(r)) => Some(InstV::Ass(LVal::SymA(v, i), r)),
            _ => None,
        }
    } else if n >= 3 && ts[1] == "="@ && tok_var(ts[0]) is Some {
        let v = tok_var(ts[0]).unwrap();
        if n == 3 {
            match tok_rval(ts[2]) { Some(r) => Some(InstV::Ass(LVal::Sym(v), r)), None => None }
        } else if n == 4 && ts[2] == "call"@ {
            match tok_fn(ts[3]) { Some(f) => Some(InstV::CallFn(v, f)), None => None }
        } else if n == 4 {
            match (tok_uoper(ts[2]), tok_rval(ts[3])) { (Some(o), Some(r)) => Some(InstV::UCpt(v, o, r)), _ => None }
        } else if n == 5 {
            match (tok_rval(ts[2]), tok_oper(ts[3]), tok_rval(ts[4])) {
                (Some(a), Some(o), Some(b)) => Some(InstV::Cpt(v, a, o, b)),
                _ => None,
            }
        } else if n == 6 && ts[3] == "["@ && ts[5] == "]"@ {
            match (tok_var(ts[2]), tok_rval(ts[4])) { (Some(b), Some(r)) => Some(InstV::Take(v, b, r)), _ => None }
        } else {
            None
        }
    } else {
        None
    }
}

/// `l` up to its first `//`.
pub open spec fn strip_comment(l: Seq<char>) -> Seq<char>
    decreases l.len(),
{
    if l.len() == 0 || (l.len() >= 2 && l[0] == '/' && l[1] == '/') {
        Seq::empty()
    } else {
        seq![l[0]] + strip_comment(l.drop_first())
    }
}

/// The instruction on a line, if any.
pub open spec fn parse_line(l: Seq<char>) -> Option<InstV> {
    match tokenize(strip_comment(l)) {
        Some(ts) => parse_tokens(ts),
        None => None,
    }
}

/// The lines of `s`: the pieces between line breaks.
pub open spec fn lines_of(s: Seq<char>) -> Seq<Seq<char>>
    decreases s.len(),
{
    if s.len() == 0 {
        seq![Seq::empty()]
    } else if s.last() == '\n' {
        lines_of(s.drop_last()).push(Seq::empty())
    } else {
        let ls = lines_of(s.drop_last());
        ls.update(ls.len() - 1, ls.last().push(s.last()))
    }
}

/// The instructions of the lines that hold one, in order.
pub open spec fn parse_lines(ls: Seq<Seq<char>>) -> Seq<InstV>
    decreases ls.len(),
{
    if ls.len() == 0 {
        Seq::empty()
    } else {
        parse_lines(ls.drop_last()) + match parse_line(ls.last()) {
            Some(i) => seq![i],
            None => Seq::empty(),
        }
    }
}

/// The instructions of a text.
pub open spec fn parse_text(s: Seq<char>) -> Seq<InstV> {
    parse_lines(lines_of(s))
}

// ---------------------------------------------------------------------
// Reading, executed.

fn space(c: char) -> (b: bool)
    ensures
        b == is_space(c),
{
    c == ' ' || c == '\t' || c == '\r'
}

pub(crate) fn ident_start(c: char) -> (b: bool)
    ensures
        b == is_ident_start(c),
{
    ('a' <= c && c <= 'z') || ('A' <= c && c <= 'Z') || c == '_'
}

pub(crate) fn digit(c: char) -> (b: bool)
    ensures
        b == is_digit(c),
{
    '0' <= c && c <= '9'
}

pub(crate) fn ident_char(c: char) -> (b: bool)
    ensures
        b == is_ident_char(c),
{
    ident_start(c) || digit(c)
}

fn delim(c: char) -> (b: bool)
    ensures
        b == is_delim(c),
{
    c == '[' || c == ']' || c == ':'
}

fn op_char(c: char) -> (b: bool)
    ensures
        b == is_op_char(c),
{
    c == '+' || c == '-' || c == '*' || c == '/' || c == '%' || c == '<' || c == '>' || c == '=' || c == '!' || c == '&'
        || c == '|'
}

fn two_op(a: char, b: char) -> (r: bool)
    ensures
        r == is_two_op(a, b),
{
    (b == '=' && (a == '=' || a == '!' || a == '<' || a == '>')) || (a == '&' && b == '&') || (a == '|' && b == '|')
}

proof fn lemma_skip_first(s: Seq<char>, i: int)
    requires
        0 <= i < s.len(),
    ensures
        s.skip(i).drop_first() == s.skip(i + 1),
        s.skip(i)[0] == s[i],
        s.skip(i).len() > 0,
{
    assert(s.skip(i).drop_first() =~= s.skip(i + 1));
}

/// A digit when `digits`, else a character of a name.
fn in_run(c: char, digits: bool) -> (b: bool)
    ensures
        b == (if digits { is_digit(c) } else { is_ident_char(c) }),
{
    if digits { digit(c) } else { ident_char(c) }
}

/// `ident_run` of `l[i..]`, or `digit_run` when `digits`.
fn run(l: &Vec<char>, i: usize, digits: bool) -> (r: usize)
    requires
        i <= l@.len(),
    ensures
        r == (if digits { digit_run(l@.skip(i as int)) } else { ident_run(l@.skip(i as int)) }),
        i + r <= l@.len(),
{
    let mut j: usize = i;
    while j < l.len() && in_run(l[j], digits)
        invariant
            i <= j <= l@.len(),
            (if digits { digit_run(l@.skip(i as int)) } else { ident_run(l@.skip(i as int)) })
                == (j - i) + (if digits { digit_run(l@.skip(j as int)) } else { ident_run(l@.skip(j as int)) }),
        decreases l@.len() - j,
    {
        proof { lemma_skip_first(l@, j as int); }
        j = j + 1;
    }
    if j < l.len() {
        proof { lemma_skip_first(l@, j as int); }
    } else {
        assert(l@.skip(j as int).len() == 0);
    }
    j - i
}

/// The length of the token at `l[i..]`.
fn token_at(l: &Vec<char>, i: usize) -> (r: usize)
    requires
        i < l@.len(),
    ensures
        r == token_len(l@.skip(i as int)),
        i + r <= l@.len(),
{
    let ghost s = l@.skip(i as int);
    proof { lemma_skip_first(l@, i as int); lemma_token_len(s); }
    let len = l.len();
    let c = l[i];
    if delim(c) {
        1
    } else if ident_start(c) {
        1 + run(l, i + 1, false)
    } else if digit(c) {
        run(l, i, true)
    } else if c == '-' && i + 1 < l.len() && digit(l[i + 1]) {
        proof { lemma_skip_first(l@, i + 1); }
        1 + run(l, i + 1, true)
    } else if op_char(c) {
        if i + 1 < l.len() && two_op(c, l[i + 1]) {
            proof { lemma_skip_first(l@, i + 1); }
            2
        } else {
            proof { if i + 1 < l.len() { lemma_skip_first(l@, i + 1); } }
            1
        }
    } else {
        0
    }
}

/// `l[a..b]`.
pub(crate) fn slice(l: &Vec<char>, a: usize, b: usize) -> (r: Vec<char>)
    requires
        a <= b <= l@.len(),
    ensures
        r@ == l@.subrange(a as int, b as int),
{
    let mut r: Vec<char> = Vec::new();
    let mut k: usize = a;
    while k < b
        invariant
            a <= k <= b,
            b <= l@.len(),
            r@ == l@.subrange(a as int, k as int),
        decreases b - k,
    {
        r.push(l[k]);
        k = k + 1;
        assert(r@ =~= l@.subrange(a as int, k as int));
    }
    r
}

pub open spec fn views_of(v: Seq<Vec<char>>) -> Seq<Seq<char>> {
    Seq::new(v.len(), |i: int| v[i]@)
}

/// The tokens of `l`.
pub(crate) fn tokens(l: &Vec<char>) -> (r: Option<Vec<Vec<char>>>)
    ensures
        match tokenize(l@) {
            Some(ts) => r matches Some(v) && views_of(v@) == ts,
            None => r is None,
        },
{
    let mut acc: Vec<Vec<char>> = Vec::new();
    let mut i: usize = 0;
    assert(l@.skip(0) =~= l@);
    assert(views_of(acc@) + Seq::<Seq<char>>::empty() =~= Seq::<Seq<char>>::empty());
    while i < l.len()
        invariant
            i <= l@.len(),
            tokenize(l@) == match tokenize(l@.skip(i as int)) {
                Some(rest) => Some(views_of(acc@) + rest),
                None => None,
            },
        decreases l@.len() - i,
    {
        let ghost s = l@.skip(i as int);
        proof { lemma_skip_first(l@, i as int); }
        if space(l[i]) {
            i = i + 1;
        } else {
            let n = token_at(l, i);
            if n == 0 {
                return None;
            }
            let t = slice(l, i, i + n);
            assert(s.take(n as int) =~= t@);
            assert(s.skip(n as int) =~= l@.skip(i + n));
            let ghost before = acc@;
            acc.push(t);
            assert(views_of(acc@) =~= views_of(before).push(t@));
            proof {
                match tokenize(l@.skip(i + n)) {
                    Some(rest) => {
                        assert(views_of(before) + (seq![t@] + rest) =~= views_of(acc@) + rest);
                    },
                    None => {},
                }
            }
            i = i + n;
        }
    }
    assert(l@.skip(i as int).len() == 0);
    assert(views_of(acc@) + Seq::<Seq<char>>::empty() =~= views_of(acc@));
    Some(acc)
}

/// The value of the digits `t[from..]`, when there is at least one, all
/// are digits, and the value is at most `cap`.
pub(crate) fn read_digits(t: &Vec<char>, from: usize, cap: u64) -> (r: Option<u64>)
    requires
        from <= t@.len(),
        cap <= 0x8000_0000,
    ensures
        match r {
            Some(v) => t@.skip(from as int).len() > 0 && all_digits(t@.skip(from as int))
                && digits_value(t@.skip(from as int)) <= cap && v == digits_value(t@.skip(from as int)),
            None => !(t@.skip(from as int).len() > 0 && all_digits(t@.skip(from as int))
                && digits_value(t@.skip(from as int)) <= cap),
        },
{
    let ghost s = t@.skip(from as int);
    if from == t.len() {
        return None;
    }
    let mut v: u64 = 0;
    let mut j: usize = from;
    assert(t@.subrange(from as int, from as int) =~= Seq::<char>::empty());
    while j < t.len()
        invariant
            from <= j <= t@.len(),
            s == t@.skip(from as int),
            cap <= 0x8000_0000,
            v <= cap,
            v == digits_value(t@.subrange(from as int, j as int)),
            all_digits(t@.subrange(from as int, j as int)),
        decreases t@.len() - j,
    {
        let c = t[j];
        if !digit(c) {
            assert(s[j - from] == c);
            return None;
        }
        let d = (c as u32 - '0' as u32) as u64;
        let ghost sub = t@.subrange(from as int, j + 1);
        assert(sub.drop_last() =~= t@.subrange(from as int, j as int));
        assert(sub.last() == c);
        assert(d == digit_value(c));
        v = v * 10 + d;
        j = j + 1;
        assert(all_digits(sub));
        if v > cap {
            proof {
                assert(sub =~= s.take(j - from));
                if all_digits(s) {
                    lemma_digits_value_monotone(s, j - from);
                }
            }
            return None;
        }
    }
    assert(t@.subrange(from as int, j as int) =~= s);
    Some(v)
}

pub(crate) fn var_tok(t: &Vec<char>) -> (r: Option<Var>)
    ensures
        r == tok_var(t@),
{
    if t.len() < 2 {
        return None;
    }
    let c = t[0];
    let u = if c == 'T' {
        VarUsage::Var
    } else if c == 't' {
        VarUsage::Temp
    } else if c == 'p' {
        VarUsage::Param
    } else {
        return None;
    };
    assert(t@.drop_first() =~= t@.skip(1));
    match read_digits(t, 1, 2147483647u64) {
        Some(v) => Some(Var(u, v as i32)),
        None => None,
    }
}

pub(crate) fn num_tok(t: &Vec<char>) -> (r: Option<i32>)
    ensures
        r == tok_num(t@),
{
    if t.len() == 0 {
        return None;
    }
    assert(t@.drop_first() =~= t@.skip(1));
    assert(t@.skip(0) =~= t@);
    if t[0] == '-' {
        if t.len() < 2 {
            return None;
        }
        match read_digits(t, 1, 0x8000_0000u64) {
            Some(v) => Some((0 - (v as i64)) as i32),
            None => {
                assert(!is_digit(t@[0]));
                None
            },
        }
    } else {
        match read_digits(t, 0, 2147483647u64) {
            Some(v) => Some(v as i32),
            None => None,
        }
    }
}

pub(crate) fn rval_tok(t: &Vec<char>) -> (r: Option<RVal>)
    ensures
        r == tok_rval(t@),
{
    match var_tok(t) {
        Some(v) => Some(RVal::Sym(v)),
        None => match num_tok(t) {
            Some(n) => Some(RVal::Int(n)),
            None => None,
        },
    }
}

pub(crate) fn label_tok(t: &Vec<char>) -> (r: Option<i32>)
    ensures
        r == tok_label(t@),
{
    if t.len() < 2 || t[0] != 'l' {
        return None;
    }
    assert(t@.drop_first() =~= t@.skip(1));
    match read_digits(t, 1, 2147483647u64) {
        Some(v) => Some(v as i32),
        None => None,
    }
}

pub(crate) fn fn_tok(t: &Vec<char>) -> (r: Option<FnName>)
    ensures
        match tok_fn(t@) {
            Some(f) => r matches Some(x) && x.0@ == f,
            None => r is None,
        },
{
    if t.len() >= 3 && t[0] == 'f' && t[1] == '_' {
        let rest = slice(t, 2, t.len());
        assert(rest@ =~= t@.skip(2));
        Some(FnName(chars_to_string(rest)))
    } else {
        None
    }
}

/// Whether the token `t` is `s`.
pub(crate) fn tok_is(t: &Vec<char>, s: &str) -> (b: bool)
    ensures
        b == (t@ == s@),
{
    let n = s.unicode_len();
    if t.len() != n {
        return false;
    }
    let mut i: usize = 0;
    while i < n
        invariant
            n == s@.len(),
            n == t@.len(),
            i <= n,
            t@.subrange(0, i as int) == s@.subrange(0, i as int),
        decreases n - i,
    {
        if t[i] != s.get_char(i) {
            return false;
        }
        i = i + 1;
        assert(t@.subrange(0, i as int) =~= s@.subrange(0, i as int));
    }
    assert(t@ =~= t@.subrange(0, n as int));
    assert(s@ =~= s@.subrange(0, n as int));
    true
}

pub(crate) fn oper_tok(t: &Vec<char>) -> (r: Option<Oper>)
    ensures
        r == tok_oper(t@),
{
    if t.len() == 1 {
        let c = t[0];
        if c == '+' { Some(Oper::Add) }
        else if c == '-' { Some(Oper::Sub) }
        else if c == '*' { Some(Oper::Mul) }
        else if c == '/' { Some(Oper::Div) }
        else if c == '%' { Some(Oper::Mod) }
        else if c == '<' { Some(Oper::Lt) }
        else if c == '>' { Some(Oper::Gt) }
        else { None }
    } else if t.len() == 2 {
        let a = t[0];
        let b = t[1];
        if a == '<' && b == '=' { Some(Oper::Le) }
        else if a == '=' && b == '=' { Some(Oper::Eq) }
        else if a == '!' && b == '=' { Some(Oper::Ne) }
        else if a == '>' && b == '=' { Some(Oper::Ge) }
        else if a == '&' && b == '&' { Some(Oper::And) }
        else if a == '|' && b == '|' { Some(Oper::Or) }
        else { None }
    } else {
        None
    }
}

pub(crate) fn uoper_tok(t: &Vec<char>) -> (r: Option<UOper>)
    ensures
        r == tok_uoper(t@),
{
    if t.len() == 1 && t[0] == '-' {
        Some(UOper::Neg)
    } else if t.len() == 1 && t[0] == '!' {
        Some(UOper::Not)
    } else {
        None
    }
}

/// The instruction written by the tokens `ts`.
fn parse_toks(ts: &Vec<Vec<char>>) -> (r: Option<Inst>)
    ensures
        match parse_tokens(views_of(ts@)) {
            Some(i) => r matches Some(x) && inst_view(x) == i,
            None => r is None,
        },
{
    let ghost tv = views_of(ts@);
    let n = ts.len();
    proof {
        assert forall|k: int| 0 <= k < n implies tv[k] == #[trigger] ts@[k]@ by {}
    }
    if n == 1 && tok_is(&ts[0], "return") {
        return Some(Inst::Ret);
    }
    if n == 2 && tok_is(&ts[0], "var") {
        return match var_tok(&ts[1]) { Some(v) => Some(Inst::DI(v)), None => None };
    }
    if n == 3 && tok_is(&ts[0], "var") {
        return match (num_tok(&ts[1]), var_tok(&ts[2])) { (Some(k), Some(v)) => Some(Inst::DArr(k, v)), _ => None };
    }
    if n == 2 && tok_is(&ts[0], "end") {
        return match fn_tok(&ts[1]) { Some(f) => Some(Inst::FnE(f)), None => None };
    }
    if n == 2 && tok_is(&ts[0], "goto") {
        return match label_tok(&ts[1]) { Some(l) => Some(Inst::Jump(l)), None => None };
    }
    if n == 2 && tok_is(&ts[1], ":") {
        return match label_tok(&ts[0]) { Some(l) => Some(Inst::Label(l)), None => None };
    }
    if n == 2 && tok_is(&ts[0], "param") {
        return match rval_tok(&ts[1]) { Some(r) => Some(Inst::Param(r)), None => None };
    }
    if n == 2 && tok_is(&ts[0], "call") {
        return match fn_tok(&ts[1]) { Some(f) => Some(Inst::Call(f)), None => None };
    }
    if n == 2 && tok_is(&ts[0], "return") {
        return match rval_tok(&ts[1]) { Some(r) => Some(Inst::Return(r)), None => None };
    }
    if n == 4 && tok_is(&ts[1], "[") && tok_is(&ts[3], "]") {
        return match (fn_tok(&ts[0]), num_tok(&ts[2])) { (Some(f), Some(k)) => Some(Inst::Fn(f, k)), _ => None };
    }
    if n == 6 && tok_is(&ts[0], "if") && tok_is(&ts[4], "goto") {
        return match (rval_tok(&ts[1]), oper_tok(&ts[2]), rval_tok(&ts[3]), label_tok(&ts[5])) {
            (Some(a), Some(o), Some(b), Some(l)) => Some(Inst::Brch(a, o, b, l)),
            _ => None,
        };
    }
    if n == 6 && tok_is(&ts[1], "[") && tok_is(&ts[3], "]") && tok_is(&ts[4], "=") {
        return match (var_tok(&ts[0]), rval_tok(&ts[2]), rval_tok(&ts[5])) {
            (Some(v), Some(i), Some(r)) => Some(Inst::Ass(LVal::SymA(v, i), r)),
            _ => None,
        };
    }
    if n >= 3 && tok_is(&ts[1], "=") {
        if let Some(v) = var_tok(&ts[0]) {
            if n == 3 {
                return match rval_tok(&ts[2]) { Some(r) => Some(Inst::Ass(LVal::Sym(v), r)), None => None };
            } else if n == 4 && tok_is(&ts[2], "call") {
                return match fn_tok(&ts[3]) { Some(f) => Some(Inst::CallFn(v, f)), None => None };
            } else if n == 4 {
                return match (uoper_tok(&ts[2]), rval_tok(&ts[3])) { (Some(o), Some(r)) => Some(Inst::UCpt(v, o, r)), _ => None };
            } else if n == 5 {
                return match (rval_tok(&ts[2]), oper_tok(&ts[3]), rval_tok(&ts[4])) {
                    (Some(a), Some(o), Some(b)) => Some(Inst::Cpt(v, a, o, b)),
                    _ => None,
                };
            } else if n == 6 && tok_is(&ts[3], "[") && tok_is(&ts[5], "]") {
                return match (var_tok(&ts[2]), rval_tok(&ts[4])) { (Some(b), Some(r)) => Some(Inst::Take(v, b, r)), _ => None };
            } else {
                return None;
            }
        }
    }
    None
}

/// `l` up to its first `//`.
pub(crate) fn strip(l: &Vec<char>) -> (r: Vec<char>)
    ensures
        r@ == strip_comment(l@),
{
    let mut k: usize = 0;
    let n = l.len();
    assert(l@.skip(0) =~= l@);
    while k < n && !(k + 1 < n && l[k] == '/' && l[k + 1] == '/')
        invariant
            k <= n,
            n == l@.len(),
            strip_comment(l@) == l@.subrange(0, k as int) + strip_comment(l@.skip(k as int)),
        decreases n - k,
    {
        proof {
            lemma_skip_first(l@, k as int);
            let t = l@.skip(k as int);
            assert(strip_comment(t) == seq![t[0]] + strip_comment(t.drop_first()));
            assert(l@.subrange(0, k as int) + (seq![l@[k as int]] + strip_comment(l@.skip(k + 1)))
                =~= l@.subrange(0, k + 1) + strip_comment(l@.skip(k + 1)));
        }
        k = k + 1;
    }
    proof {
        if k < n {
            lemma_skip_first(l@, k as int);
            lemma_skip_first(l@, k + 1);
        }
        assert(strip_comment(l@.skip(k as int)) =~= Seq::<char>::empty());
        assert(l@.subrange(0, k as int) + Seq::<char>::empty() =~= l@.subrange(0, k as int));
    }
    slice(l, 0, k)
}

/// The instruction on a line, if any.
fn parse_one(l: &Vec<char>) -> (r: Option<Inst>)
    ensures
        match parse_line(l@) {
            Some(i) => r matches Some(x) && inst_view(x) == i,
            None => r is None,
        },
{
    let c = strip(l);
    match tokens(&c) {
        Some(ts) => parse_toks(&ts),
        None => None,
    }
}

/// Reads the instructions of a text, one per line; a line holding none
/// is skipped.
pub fn Parse(parseString: &String) -> (r: Vec<Inst>)
    ensures
        insts_view(r@) == parse_text(parseString@),
{
    let s = string_chars(parseString.as_str());
    let mut out: Vec<Inst> = Vec::new();
    let mut cur: Vec<char> = Vec::new();
    let mut i: usize = 0;
    assert(s@.take(0) =~= Seq::<char>::empty());
    assert(insts_view(out@) =~= Seq::<InstV>::empty());
    while i < s.len()
        invariant
            i <= s@.len(),
            s@ == parseString@,
            lines_of(s@.take(i as int)).len() > 0,
            cur@ == lines_of(s@.take(i as int)).last(),
            insts_view(out@) == parse_lines(lines_of(s@.take(i as int)).drop_last()),
        decreases s@.len() - i,
    {
        let ghost ls = lines_of(s@.take(i as int));
        let c = s[i];
        assert(s@.take(i + 1).drop_last() =~= s@.take(i as int));
        assert(s@.take(i + 1).last() == c);
        if c == '\n' {
            let ghost before = out@;
            match parse_one(&cur) {
                Some(x) => {
                    out.push(x);
                    assert(insts_view(out@) =~= insts_view(before).push(inst_view(x)));
                },
                None => {},
            }
            cur = Vec::new();
            assert(ls.push(Seq::empty()).drop_last() =~= ls);
            assert(cur@ =~= Seq::<char>::empty());
        } else {
            cur.push(c);
            let ghost nl = ls.update(ls.len() - 1, ls.last().push(c));
            assert(nl.drop_last() =~= ls.drop_last());
        }
        i = i + 1;
    }
    assert(s@.take(i as int) =~= s@);
    let ghost ls = lines_of(s@);
    let ghost before = out@;
    match parse_one(&cur) {
        Some(x) => {
            out.push(x);
            assert(insts_view(out@) =~= insts_view(before).push(inst_view(x)));
        },
        None => {},
    }
    assert(ls.drop_last().push(ls.last()) =~= ls);
    out
}

// ---------------------------------------------------------------------
// Reading back what was written.

/// A function name that reads back: letters, digits and `_`.
pub open spec fn name_ok(f: Seq<char>) -> bool {
    f.len() > 0 && forall|k: int| 0 <= k < f.len() ==> is_ident_char(#[trigger] f[k])
}

/// Variables with a number of at least 0 read back.
pub open spec fn var_ok(v: Var) -> bool {
    v.1 >= 0
}

pub open spec fn rval_ok(r: RVal) -> bool {
    match r {
        RVal::Sym(v) => var_ok(v),
        RVal::Int(_) => true,
    }
}

/// An instruction whose text reads back: its variables and labels have
/// numbers of at least 0, and its function names are made of letters,
/// digits and `_`.
pub open spec fn instv_ok(i: InstV) -> bool {
    match i {
        InstV::DArr(_, v) => var_ok(v),
        InstV::DI(v) => var_ok(v),
        InstV::Ass(LVal::Sym(v), r) => var_ok(v) && rval_ok(r),
        InstV::Ass(LVal::SymA(v, x), r) => var_ok(v) && rval_ok(x) && rval_ok(r),
        InstV::Take(a, b, r) => var_ok(a) && var_ok(b) && rval_ok(r),
        InstV::Cpt(v, a, _, b) => var_ok(v) && rval_ok(a) && rval_ok(b),
        InstV::UCpt(v, _, a) => var_ok(v) && rval_ok(a),
        InstV::Brch(a, _, b, l) => rval_ok(a) && rval_ok(b) && l >= 0,
        InstV::Jump(l) => l >= 0,
        InstV::Label(l) => l >= 0,
        InstV::Param(r) => rval_ok(r),
        InstV::Call(f) => name_ok(f),
        InstV::CallFn(v, f) => var_ok(v) && name_ok(f),
        InstV::Return(r) => rval_ok(r),
        InstV::Ret => true,
        InstV::Fn(f, _) => name_ok(f),
        InstV::FnE(f) => name_ok(f),
    }
}

/// The pieces joined.
pub open spec fn flat(ps: Seq<Seq<char>>) -> Seq<char>
    decreases ps.len(),
{
    if ps.len() == 0 {
        Seq::empty()
    } else {
        ps[0] + flat(ps.drop_first())
    }
}

pub open spec fn is_blank(p: Seq<char>) -> bool {
    p == seq![' '] || p == seq!['\t']
}

/// The pieces that are not blanks.
pub open spec fn toks_of(ps: Seq<Seq<char>>) -> Seq<Seq<char>>
    decreases ps.len(),
{
    if ps.len() == 0 {
        Seq::empty()
    } else if is_blank(ps[0]) {
        toks_of(ps.drop_first())
    } else {
        seq![ps[0]] + toks_of(ps.drop_first())
    }
}

pub open spec fn is_word(t: Seq<char>) -> bool {
    t.len() > 0 && is_ident_start(t[0]) && forall|k: int| 0 <= k < t.len() ==> is_ident_char(#[trigger] t[k])
}

pub open spec fn is_number(t: Seq<char>) -> bool {
    (t.len() > 0 && all_digits(t)) || (t.len() > 1 && t[0] == '-' && all_digits(t.drop_first()))
}

pub open spec fn is_op(t: Seq<char>) -> bool {
    (t.len() == 1 && is_op_char(t[0])) || (t.len() == 2 && is_two_op(t[0], t[1]))
}

pub open spec fn is_tok(t: Seq<char>) -> bool {
    is_word(t) || is_number(t) || is_op(t) || (t.len() == 1 && is_delim(t[0]))
}

/// Blanks and tokens, each token followed by a blank, a delimiter or
/// nothing.
pub open spec fn layout_ok(ps: Seq<Seq<char>>) -> bool {
    forall|k: int| 0 <= k < ps.len() ==> {
        &&& #[trigger] ps[k].len() > 0
        &&& is_blank(ps[k]) || (is_tok(ps[k]) && (is_delim_tok(ps[k]) || k + 1 == ps.len() || is_space(ps[k + 1][0]) || is_delim(ps[k + 1][0])))
    }
}

pub open spec fn is_delim_tok(t: Seq<char>) -> bool {
    t.len() == 1 && is_delim(t[0])
}

proof fn lemma_ident_run_concat(a: Seq<char>, r: Seq<char>)
    requires
        forall|k: int| 0 <= k < a.len() ==> is_ident_char(#[trigger] a[k]),
        r.len() == 0 || !is_ident_char(r[0]),
    ensures
        ident_run(a + r) == a.len(),
    decreases a.len(),
{
    if a.len() > 0 {
        assert((a + r).drop_first() =~= a.drop_first() + r);
        assert(a[0] == (a + r)[0]);
        lemma_ident_run_concat(a.drop_first(), r);
    } else {
        assert(a + r =~= r);
    }
}

proof fn lemma_digit_run_concat(a: Seq<char>, r: Seq<char>)
    requires
        all_digits(a),
        r.len() == 0 || !is_digit(r[0]),
    ensures
        digit_run(a + r) == a.len(),
    decreases a.len(),
{
    if a.len() > 0 {
        assert((a + r).drop_first() =~= a.drop_first() + r);
        assert(a[0] == (a + r)[0]);
        assert(is_digit(a[0]));
        lemma_digit_run_concat(a.drop_first(), r);
    } else {
        assert(a + r =~= r);
    }
}

/// A token followed by a blank, a delimiter or nothing is read whole.
proof fn lemma_token_max(t: Seq<char>, r: Seq<char>)
    requires
        is_tok(t),
        is_delim_tok(t) || r.len() == 0 || is_space(r[0]) || is_delim(r[0]),
    ensures
        token_len(t + r) == t.len(),
{
    let s = t + r;
    assert(s[0] == t[0]);
    if t.len() > 1 {
        assert(s[1] == t[1]);
    } else if r.len() > 0 {
        assert(s[1] == r[0]);
    }
    if is_word(t) {
        assert(s.drop_first() =~= t.drop_first() + r);
        lemma_ident_run_concat(t.drop_first(), r);
    } else if t.len() > 0 && all_digits(t) {
        assert(is_digit(t[0]));
        lemma_digit_run_concat(t, r);
    } else if t.len() > 1 && t[0] == '-' && all_digits(t.drop_first()) {
        assert(is_digit(t.drop_first()[0]));
        assert(s.drop_first() =~= t.drop_first() + r);
        lemma_digit_run_concat(t.drop_first(), r);
    }
}

/// Tokens laid out with blanks read back as the tokens.
pub proof fn lemma_tokenize_layout(ps: Seq<Seq<char>>)
    requires
        layout_ok(ps),
    ensures
        tokenize(flat(ps)) == Some(toks_of(ps)),
    decreases ps.len(),
{
    if ps.len() > 0 {
        let rest = ps.drop_first();
        assert(layout_ok(rest)) by {
            assert forall|k: int| 0 <= k < rest.len() implies {
                &&& #[trigger] rest[k].len() > 0
                &&& is_blank(rest[k]) || (is_tok(rest[k]) && (is_delim_tok(rest[k]) || k + 1 == rest.len() || is_space(rest[k + 1][0]) || is_delim(rest[k + 1][0])))
            } by {
                assert(rest[k] == ps[k + 1]);
                if k + 1 < rest.len() {
                    assert(rest[k + 1] == ps[k + 2]);
                }
            }
        }
        lemma_tokenize_layout(rest);
        let t = ps[0];
        let r = flat(rest);
        assert(ps[0].len() > 0);
        if rest.len() > 0 {
            assert(rest[0] == ps[1]);
            assert(rest[0].len() > 0);
            assert(r[0] == rest[0][0]);
        }
        if is_blank(t) {
            assert(flat(ps).drop_first() =~= r);
        } else {
            assert(is_tok(t));
            lemma_token_max(t, r);
            let s = flat(ps);
            assert(s == t + r);
            assert(!is_space(s[0])) by {
                if is_word(t) {} else if t.len() > 0 && all_digits(t) { assert(is_digit(t[0])); } else {}
            }
            assert(s.take(t.len() as int) =~= t);
            assert(s.skip(t.len() as int) =~= r);
        }
    }
}

pub open spec fn no_slash(p: Seq<char>) -> bool {
    forall|k: int| 0 <= k < p.len() ==> #[trigger] p[k] != '/'
}

/// Every `/` stands alone and is followed by a blank.
pub open spec fn slash_ok(ps: Seq<Seq<char>>) -> bool {
    forall|k: int| 0 <= k < ps.len() ==> no_slash(#[trigger] ps[k]) || (ps[k] == seq!['/'] && k + 1 < ps.len() && ps[k + 1] == seq![' '])
}

proof fn lemma_strip_no_slash(a: Seq<char>, b: Seq<char>)
    requires
        no_slash(a),
    ensures
        strip_comment(a + b) == a + strip_comment(b),
    decreases a.len(),
{
    if a.len() > 0 {
        assert((a + b)[0] == a[0]);
        assert((a + b).drop_first() =~= a.drop_first() + b);
        lemma_strip_no_slash(a.drop_first(), b);
        assert(a =~= seq![a[0]] + a.drop_first());
        assert(seq![a[0]] + (a.drop_first() + strip_comment(b)) =~= a + strip_comment(b));
    } else {
        assert(a + b =~= b);
        assert(a + strip_comment(b) =~= strip_comment(b));
    }
}

/// Text laid out so that no two `/` meet has no comment.
pub proof fn lemma_strip_layout(ps: Seq<Seq<char>>)
    requires
        slash_ok(ps),
    ensures
        strip_comment(flat(ps)) == flat(ps),
    decreases ps.len(),
{
    if ps.len() == 0 {
    } else {
        let rest = ps.drop_first();
        assert(slash_ok(rest)) by {
            assert forall|k: int| 0 <= k < rest.len() implies no_slash(#[trigger] rest[k]) || (rest[k] == seq!['/'] && k + 1 < rest.len() && rest[k + 1] == seq![' ']) by {
                assert(rest[k] == ps[k + 1]);
                if k + 1 < rest.len() {
                    assert(rest[k + 1] == ps[k + 2]);
                }
            }
        }
        lemma_strip_layout(rest);
        if no_slash(ps[0]) {
            lemma_strip_no_slash(ps[0], flat(rest));
        } else {
            assert(ps[0] == seq!['/']);
            assert(rest[0] == seq![' ']);
            let s = flat(ps);
            assert(flat(rest) == rest[0] + flat(rest.drop_first()));
            assert(s == seq!['/'] + flat(rest));
            assert(s[1] == ' ');
            assert(s.drop_first() =~= flat(rest));
        }
    }
}

/// The pieces of the text of an instruction.
pub open spec fn inst_pieces(i: InstV) -> Seq<Seq<char>> {
    let sp = seq![' '];
    let tab = seq!['\t'];
    let eq = seq!['='];
    match i {
        InstV::DArr(n, v) => seq![tab, "var"@, sp, int_text(n as int), sp, var_text(v)],
        InstV::DI(v) => seq![tab, "var"@, sp, var_text(v)],
        InstV::Ass(LVal::Sym(v), r) => seq![tab, var_text(v), sp, eq, sp, rval_text(r)],
        InstV::Ass(LVal::SymA(v, x), r) => seq![tab, var_text(v), seq!['['], rval_text(x), seq![']'], sp, eq, sp, rval_text(r)],
        InstV::Take(a, b, r) => seq![tab, var_text(a), sp, eq, sp, var_text(b), seq!['['], rval_text(r), seq![']']],
        InstV::Cpt(v, a, o, b) => seq![tab, var_text(v), sp, eq, sp, rval_text(a), sp, oper_text(o), sp, rval_text(b)],
        InstV::UCpt(v, o, a) => seq![tab, var_text(v), sp, eq, sp, uoper_text(o), sp, rval_text(a)],
        InstV::Brch(a, o, b, l) => seq![
            tab, "if"@, sp, rval_text(a), sp, oper_text(o), sp, rval_text(b), sp, "goto"@, sp, seq!['l'] + int_text(l as int),
        ],
        InstV::Jump(l) => seq![tab, "goto"@, sp, seq!['l'] + int_text(l as int)],
        InstV::Label(l) => seq![seq!['l'] + int_text(l as int), seq![':']],
        InstV::Param(r) => seq![tab, "param"@, sp, rval_text(r)],
        InstV::Call(f) => seq![tab, "call"@, sp, name_text(f)],
        InstV::CallFn(v, f) => seq![tab, var_text(v), sp, eq, sp, "call"@, sp, name_text(f)],
        InstV::Return(r) => seq![tab, "return"@, sp, rval_text(r)],
        InstV::Ret => seq![tab, "return"@],
        InstV::Fn(f, n) => seq![name_text(f), sp, seq!['['], int_text(n as int), seq![']']],
        InstV::FnE(f) => seq!["end"@, sp, name_text(f)],
    }
}

/// What a piece of text is, for reading it back.
pub open spec fn piece_fine(p: Seq<char>) -> bool {
    p.len() > 0 && (is_blank(p) || is_tok(p))
}

pub(crate) proof fn lemma_digits_no_slash(t: Seq<char>)
    requires
        all_digits(t),
    ensures
        no_slash(t),
        forall|k: int| 0 <= k < t.len() ==> is_ident_char(#[trigger] t[k]),
{
    assert forall|k: int| 0 <= k < t.len() implies #[trigger] t[k] != '/' && is_ident_char(t[k]) by {
        assert(is_digit(t[k]));
    }
}

pub(crate) proof fn lemma_int_text(n: i32)
    ensures
        is_number(int_text(n as int)),
        no_slash(int_text(n as int)),
        tok_num(int_text(n as int)) == Some(n),
        tok_var(int_text(n as int)) is None,
        int_text(n as int).len() > 0,
        int_text(n as int)[0] == '-' || is_digit(int_text(n as int)[0]),
{
    let t = int_text(n as int);
    if n < 0 {
        let m = (-n) as nat;
        lemma_nat_text_digits(m);
        lemma_nat_text_value(m);
        assert(t.drop_first() =~= nat_text(m));
        lemma_digits_no_slash(nat_text(m));
        assert forall|k: int| 0 <= k < t.len() implies #[trigger] t[k] != '/' by {
            if k > 0 {
                assert(t[k] == nat_text(m)[k - 1]);
            }
        }
    } else {
        let m = n as nat;
        lemma_nat_text_digits(m);
        lemma_nat_text_value(m);
        lemma_digits_no_slash(nat_text(m));
        assert(is_digit(t[0]));
    }
}

proof fn lemma_var_text(v: Var)
    requires
        var_ok(v),
    ensures
        is_word(var_text(v)),
        no_slash(var_text(v)),
        tok_var(var_text(v)) == Some(v),
        var_text(v).len() >= 2,
        var_text(v)[0] == 'T' || var_text(v)[0] == 't' || var_text(v)[0] == 'p',
        is_digit(var_text(v)[1]),
{
    let t = var_text(v);
    let m = v.1 as nat;
    lemma_nat_text_digits(m);
    lemma_nat_text_value(m);
    reveal_strlit("T");
    reveal_strlit("t");
    reveal_strlit("p");
    assert(usage_text(v.0).len() == 1);
    assert(t.drop_first() =~= nat_text(m));
    lemma_digits_no_slash(nat_text(m));
    assert(t[1] == nat_text(m)[0]);
    assert forall|k: int| 0 <= k < t.len() implies #[trigger] t[k] != '/' && is_ident_char(t[k]) by {
        if k > 0 {
            assert(t[k] == nat_text(m)[k - 1]);
        }
    }
}

proof fn lemma_rval_text(r: RVal)
    requires
        rval_ok(r),
    ensures
        is_tok(rval_text(r)),
        no_slash(rval_text(r)),
        tok_rval(rval_text(r)) == Some(r),
        rval_text(r).len() > 0,
        rval_text(r)[0] == 'T' || rval_text(r)[0] == 't' || rval_text(r)[0] == 'p' || rval_text(r)[0] == '-' || is_digit(rval_text(r)[0]),
        rval_text(r)[0] == 'p' ==> rval_text(r).len() >= 2 && is_digit(rval_text(r)[1]),
{
    match r {
        RVal::Sym(v) => lemma_var_text(v),
        RVal::Int(n) => {
            lemma_int_text(n);
            assert(int_text(n as int)[0] != 'p');
        },
    }
}

pub(crate) proof fn lemma_label_text(l: i32)
    requires
        l >= 0,
    ensures
        is_word(seq!['l'] + int_text(l as int)),
        no_slash(seq!['l'] + int_text(l as int)),
        tok_label(seq!['l'] + int_text(l as int)) == Some(l),
        (seq!['l'] + int_text(l as int))[0] == 'l',
{
    let t = seq!['l'] + int_text(l as int);
    let m = l as nat;
    lemma_nat_text_digits(m);
    lemma_nat_text_value(m);
    assert(t.drop_first() =~= nat_text(m));
    lemma_digits_no_slash(nat_text(m));
    assert forall|k: int| 0 <= k < t.len() implies #[trigger] t[k] != '/' && is_ident_char(t[k]) by {
        if k > 0 {
            assert(t[k] == nat_text(m)[k - 1]);
        }
    }
}

proof fn lemma_name_text(f: Seq<char>)
    requires
        name_ok(f),
    ensures
        is_word(name_text(f)),
        no_slash(name_text(f)),
        tok_fn(name_text(f)) == Some(f),
        name_text(f)[0] == 'f',
        name_text(f)[1] == '_',
{
    reveal_strlit("f_");
    let t = name_text(f);
    assert(t.skip(2) =~= f);
    assert forall|k: int| 0 <= k < t.len() implies #[trigger] t[k] != '/' && is_ident_char(t[k]) by {
        if k >= 2 {
            assert(t[k] == f[k - 2]);
        }
    }
}

pub(crate) proof fn lemma_oper_text(o: Oper)
    ensures
        is_op(oper_text(o)),
        no_slash(oper_text(o)) || oper_text(o) == seq!['/'],
        tok_oper(oper_text(o)) == Some(o),
        tok_uoper(oper_text(o)) is None || o == Oper::Sub,
{
    reveal_strlit("+");
    reveal_strlit("-");
    reveal_strlit("*");
    reveal_strlit("/");
    reveal_strlit("%");
    reveal_strlit("<");
    reveal_strlit("<=");
    reveal_strlit("==");
    reveal_strlit("!=");
    reveal_strlit(">=");
    reveal_strlit(">");
    reveal_strlit("&&");
    reveal_strlit("||");
    reveal_strlit("!");
    let t = oper_text(o);
    assert(t.len() <= 2);
    assert(no_slash(t) || t =~= seq!['/']);
}

pub(crate) proof fn lemma_uoper_text(o: UOper)
    ensures
        is_op(uoper_text(o)),
        no_slash(uoper_text(o)),
        tok_uoper(uoper_text(o)) == Some(o),
        uoper_text(o) != "call"@,
{
    reveal_strlit("-");
    reveal_strlit("!");
    reveal_strlit("call");
    reveal_strlit("+");
}

pub(crate) proof fn lemma_cons(p: Seq<char>, ps: Seq<Seq<char>>)
    ensures
        flat(seq![p] + ps) == p + flat(ps),
        toks_of(seq![p] + ps) == (if is_blank(p) { toks_of(ps) } else { seq![p] + toks_of(ps) }),
        (layout_ok(ps) && piece_fine(p) && (is_blank(p) || is_delim_tok(p) || ps.len() == 0 || is_space(ps[0][0]) || is_delim(ps[0][0])))
            ==> layout_ok(seq![p] + ps),
        (slash_ok(ps) && (no_slash(p) || (p == seq!['/'] && ps.len() > 0 && ps[0] == seq![' '])))
            ==> slash_ok(seq![p] + ps),
{
    let q = seq![p] + ps;
    assert(q.drop_first() =~= ps);
    assert(q[0] == p);
    if layout_ok(ps) && piece_fine(p) && (is_blank(p) || is_delim_tok(p) || ps.len() == 0 || is_space(ps[0][0]) || is_delim(ps[0][0])) {
        assert forall|k: int| 0 <= k < q.len() implies {
            &&& #[trigger] q[k].len() > 0
            &&& is_blank(q[k]) || (is_tok(q[k]) && (is_delim_tok(q[k]) || k + 1 == q.len() || is_space(q[k + 1][0]) || is_delim(q[k + 1][0])))
        } by {
            if k > 0 {
                assert(q[k] == ps[k - 1]);
                if k + 1 < q.len() {
                    assert(q[k + 1] == ps[k]);
                }
            } else if ps.len() > 0 {
                assert(q[1] == ps[0]);
            }
        }
    }
    if slash_ok(ps) && (no_slash(p) || (p == seq!['/'] && ps.len() > 0 && ps[0] == seq![' '])) {
        assert forall|k: int| 0 <= k < q.len() implies no_slash(#[trigger] q[k]) || (q[k] == seq!['/'] && k + 1 < q.len() && q[k + 1] == seq![' ']) by {
            if k > 0 {
                assert(q[k] == ps[k - 1]);
                if k + 1 < q.len() {
                    assert(q[k + 1] == ps[k]);
                }
            } else if ps.len() > 0 {
                assert(q[1] == ps[0]);
            }
        }
    }
}

pub(crate) proof fn lemma_blanks()
    ensures
        piece_fine(seq![' ']),
        piece_fine(seq!['\t']),
        no_slash(seq![' ']),
        no_slash(seq!['\t']),
        piece_fine(seq!['=']),
        no_slash(seq!['=']),
        piece_fine(seq!['[']),
        no_slash(seq!['[']),
        piece_fine(seq![']']),
        no_slash(seq![']']),
        piece_fine(seq![':']),
        no_slash(seq![':']),
        is_space(' '),
        is_delim('['),
        is_delim(']'),
        is_delim(':'),
        !is_blank(seq!['=']),
        !is_blank(seq!['[']),
        !is_blank(seq![']']),
        !is_blank(seq![':']),
{
    assert(is_op(seq!['=']));
    lemma_not_blank(seq!['=']);
    lemma_not_blank(seq!['[']);
    lemma_not_blank(seq![']']);
    lemma_not_blank(seq![':']);
}

pub(crate) proof fn lemma_keyword(w: Seq<char>)
    requires
        w.len() > 0,
        is_letter(w[0]),
        forall|k: int| 0 <= k < w.len() ==> is_letter(#[trigger] w[k]),
    ensures
        piece_fine(w),
        no_slash(w),
        !is_blank(w),
{
    assert forall|k: int| 0 <= k < w.len() implies #[trigger] w[k] != '/' && is_ident_char(w[k]) by {
        assert(is_letter(w[k]));
    }
    if is_blank(w) {
        assert(is_letter(w[0]));
    }
}

proof fn lemma_keywords()
    ensures
        piece_fine("var"@), no_slash("var"@), !is_blank("var"@),
        piece_fine("if"@), no_slash("if"@), !is_blank("if"@),
        piece_fine("goto"@), no_slash("goto"@), !is_blank("goto"@),
        piece_fine("param"@), no_slash("param"@), !is_blank("param"@),
        piece_fine("call"@), no_slash("call"@), !is_blank("call"@),
        piece_fine("return"@), no_slash("return"@), !is_blank("return"@),
        piece_fine("end"@), no_slash("end"@), !is_blank("end"@),
{
    reveal_strlit("var");
    reveal_strlit("if");
    reveal_strlit("goto");
    reveal_strlit("param");
    reveal_strlit("call");
    reveal_strlit("return");
    reveal_strlit("end");
    lemma_keyword("var"@);
    lemma_keyword("if"@);
    lemma_keyword("goto"@);
    lemma_keyword("param"@);
    lemma_keyword("call"@);
    lemma_keyword("return"@);
    lemma_keyword("end"@);
}

pub(crate) proof fn lemma_not_blank(t: Seq<char>)
    requires
        t.len() > 0,
        t[0] != ' ' && t[0] != '\t',
    ensures
        !is_blank(t),
{
    if t == seq![' '] {
        assert(t[0] == ' ');
    }
    if t == seq!['\t'] {
        assert(t[0] == '\t');
    }
}

/// The one-character tokens, as written in the forms.
pub(crate) proof fn lemma_lits()
    ensures
        seq!['='] == "="@,
        seq!['['] == "["@,
        seq![']'] == "]"@,
        seq![':'] == ":"@,
        seq!['='] != "["@,
        seq!['='] != ":"@,
{
    reveal_strlit("=");
    reveal_strlit("[");
    reveal_strlit("]");
    reveal_strlit(":");
    assert(seq!['='] =~= "="@);
    assert(seq!['['] =~= "["@);
    assert(seq![']'] =~= "]"@);
    assert(seq![':'] =~= ":"@);
    assert(seq!['='][0] != "["@[0]);
    assert(seq!['='][0] != ":"@[0]);
}

/// A token that starts like no keyword and no one-character token is none
/// of them.
proof fn lemma_not_kw(t: Seq<char>)
    requires
        t.len() > 0,
        t[0] != 'v' && t[0] != 'e' && t[0] != 'g' && t[0] != 'c' && t[0] != 'r' && t[0] != 'i',
        t[0] != '=' && t[0] != '[' && t[0] != ']' && t[0] != ':',
        t[0] == 'p' ==> t.len() >= 2 && is_digit(t[1]),
    ensures
        t != "var"@,
        t != "end"@,
        t != "goto"@,
        t != "param"@,
        t != "call"@,
        t != "return"@,
        t != "if"@,
        t != "="@,
        t != "["@,
        t != "]"@,
        t != ":"@,
{
    reveal_strlit("var");
    reveal_strlit("end");
    reveal_strlit("goto");
    reveal_strlit("param");
    reveal_strlit("call");
    reveal_strlit("return");
    reveal_strlit("if");
    reveal_strlit("=");
    reveal_strlit("[");
    reveal_strlit("]");
    reveal_strlit(":");
    if t == "param"@ {
        assert(t[1] == 'a');
    }
}

#[verifier::spinoff_prover]
#[verifier::rlimit(100)]
proof fn lemma_toks_d_arr(n: i32, v: Var)
    requires
        var_ok(v),
    ensures
        strip_comment(instv_text(InstV::DArr(n, v))) == instv_text(InstV::DArr(n, v)),
        tokenize(instv_text(InstV::DArr(n, v))) == Some(seq!["var"@, int_text(n as int), var_text(v)]),
{
    lemma_blanks();
    lemma_keywords();
    lemma_int_text(n);
    lemma_not_blank(int_text(n as int));
    lemma_var_text(v);
    lemma_not_blank(var_text(v));
    reveal_strlit("\tvar ");
    reveal_strlit(" ");
    reveal_strlit("var");
    let q6 = Seq::<Seq<char>>::empty();
    lemma_cons(var_text(v), q6);
    let q5 = seq![var_text(v)] + q6;
    lemma_cons(seq![' '], q5);
    let q4 = seq![seq![' ']] + q5;
    lemma_cons(int_text(n as int), q4);
    let q3 = seq![int_text(n as int)] + q4;
    lemma_cons(seq![' '], q3);
    let q2 = seq![seq![' ']] + q3;
    lemma_cons("var"@, q2);
    let q1 = seq!["var"@] + q2;
    lemma_cons(seq!['\t'], q1);
    let q0 = seq![seq!['\t']] + q1;
    let i = InstV::DArr(n, v);
    assert(inst_pieces(i) =~= q0);
    assert(flat(q0) =~= instv_text(i));
    lemma_tokenize_layout(q0);
    lemma_strip_layout(q0);
    assert(toks_of(q0) =~= seq!["var"@, int_text(n as int), var_text(v)]);
}

#[verifier::spinoff_prover]
#[verifier::rlimit(100)]
proof fn lemma_read_d_arr(n: i32, v: Var)
    requires
        var_ok(v),
    ensures
        parse_line(instv_text(InstV::DArr(n, v))) == Some(InstV::DArr(n, v)),
{
    lemma_toks_d_arr(n, v);
    lemma_lits();
    lemma_int_text(n);
    lemma_not_kw(int_text(n as int));
    lemma_var_text(v);
    lemma_not_kw(var_text(v));
    reveal_strlit("var");
    reveal_strlit("end");
    reveal_strlit("goto");
    reveal_strlit("param");
    reveal_strlit("call");
    reveal_strlit("return");
    reveal_strlit("if");
    reveal_strlit("=");
    reveal_strlit("[");
    reveal_strlit("]");
    reveal_strlit(":");
}

#[verifier::spinoff_prover]
#[verifier::rlimit(100)]
proof fn lemma_toks_d_i(v: Var)
    requires
        var_ok(v),
    ensures
        strip_comment(instv_text(InstV::DI(v))) == instv_text(InstV::DI(v)),
        tokenize(instv_text(InstV::DI(v))) == Some(seq!["var"@, var_text(v)]),
{
    lemma_blanks();
    lemma_keywords();
    lemma_var_text(v);
    lemma_not_blank(var_text(v));
    reveal_strlit("\tvar ");
    reveal_strlit("var");
    let q4 = Seq::<Seq<char>>::empty();
    lemma_cons(var_text(v), q4);
    let q3 = seq![var_text(v)] + q4;
    lemma_cons(seq![' '], q3);
    let q2 = seq![seq![' ']] + q3;
    lemma_cons("var"@, q2);
    let q1 = seq!["var"@] + q2;
    lemma_cons(seq!['\t'], q1);
    let q0 = seq![seq!['\t']] + q1;
    let i = InstV::DI(v);
    assert(inst_pieces(i) =~= q0);
    assert(flat(q0) =~= instv_text(i));
    lemma_tokenize_layout(q0);
    lemma_strip_layout(q0);
    assert(toks_of(q0) =~= seq!["var"@, var_text(v)]);
}

#[verifier::spinoff_prover]
#[verifier::rlimit(100)]
proof fn lemma_read_d_i(v: Var)
    requires
        var_ok(v),
    ensures
        parse_line(instv_text(InstV::DI(v))) == Some(InstV::DI(v)),
{
    lemma_toks_d_i(v);
    lemma_lits();
    lemma_var_text(v);
    lemma_not_kw(var_text(v));
    reveal_strlit("var");
    reveal_strlit("end");
    reveal_strlit("goto");
    reveal_strlit("param");
    reveal_strlit("call");
    reveal_strlit("return");
    reveal_strlit("if");
    reveal_strlit("=");
    reveal_strlit("[");
    reveal_strlit("]");
    reveal_strlit(":");
}

#[verifier::spinoff_prover]
#[verifier::rlimit(100)]
proof fn lemma_toks_ass(v: Var, r: RVal)
    requires
        var_ok(v) && rval_ok(r),
    ensures
        strip_comment(instv_text(InstV::Ass(LVal::Sym(v), r))) == instv_text(InstV::Ass(LVal::Sym(v), r)),
        tokenize(instv_text(InstV::Ass(LVal::Sym(v), r))) == Some(seq![var_text(v), seq!['='], rval_text(r)]),
{
    lemma_blanks();
    lemma_keywords();
    lemma_var_text(v);
    lemma_not_blank(var_text(v));
    lemma_rval_text(r);
    lemma_not_blank(rval_text(r));
    reveal_strlit("\t");
    reveal_strlit(" = ");
    let q6 = Seq::<Seq<char>>::empty();
    lemma_cons(rval_text(r), q6);
    let q5 = seq![rval_text(r)] + q6;
    lemma_cons(seq![' '], q5);
    let q4 = seq![seq![' ']] + q5;
    lemma_cons(seq!['='], q4);
    let q3 = seq![seq!['=']] + q4;
    lemma_cons(seq![' '], q3);
    let q2 = seq![seq![' ']] + q3;
    lemma_cons(var_text(v), q2);
    let q1 = seq![var_text(v)] + q2;
    lemma_cons(seq!['\t'], q1);
    let q0 = seq![seq!['\t']] + q1;
    let i = InstV::Ass(LVal::Sym(v), r);
    assert(inst_pieces(i) =~= q0);
    assert(flat(q0) =~= instv_text(i));
    lemma_tokenize_layout(q0);
    lemma_strip_layout(q0);
    assert(toks_of(q0) =~= seq![var_text(v), seq!['='], rval_text(r)]);
}

#[verifier::spinoff_prover]
#[verifier::rlimit(100)]
proof fn lemma_read_ass(v: Var, r: RVal)
    requires
        var_ok(v) && rval_ok(r),
    ensures
        parse_line(instv_text(InstV::Ass(LVal::Sym(v), r))) == Some(InstV::Ass(LVal::Sym(v), r)),
{
    lemma_toks_ass(v, r);
    lemma_lits();
    lemma_var_text(v);
    lemma_not_kw(var_text(v));
    lemma_rval_text(r);
    lemma_not_kw(rval_text(r));
    reveal_strlit("var");
    reveal_strlit("end");
    reveal_strlit("goto");
    reveal_strlit("param");
    reveal_strlit("call");
    reveal_strlit("return");
    reveal_strlit("if");
    reveal_strlit("=");
    reveal_strlit("[");
    reveal_strlit("]");
    reveal_strlit(":");
}

#[verifier::spinoff_prover]
#[verifier::rlimit(100)]
proof fn lemma_toks_ass_a(v: Var, x: RVal, r: RVal)
    requires
        var_ok(v) && rval_ok(x) && rval_ok(r),
    ensures
        strip_comment(instv_text(InstV::Ass(LVal::SymA(v, x), r))) == instv_text(InstV::Ass(LVal::SymA(v, x), r)),
        tokenize(instv_text(InstV::Ass(LVal::SymA(v, x), r))) == Some(seq![var_text(v), seq!['['], rval_text(x), seq![']'], seq!['='], rval_text(r)]),
{
    lemma_blanks();
    lemma_keywords();
    lemma_var_text(v);
    lemma_not_blank(var_text(v));
    lemma_rval_text(x);
    lemma_not_blank(rval_text(x));
    lemma_rval_text(r);
    lemma_not_blank(rval_text(r));
    reveal_strlit("\t");
    reveal_strlit(" = ");
    reveal_strlit("[");
    reveal_strlit("]");
    let q9 = Seq::<Seq<char>>::empty();
    lemma_cons(rval_text(r), q9);
    let q8 = seq![rval_text(r)] + q9;
    lemma_cons(seq![' '], q8);
    let q7 = seq![seq![' ']] + q8;
    lemma_cons(seq!['='], q7);
    let q6 = seq![seq!['=']] + q7;
    lemma_cons(seq![' '], q6);
    let q5 = seq![seq![' ']] + q6;
    lemma_cons(seq![']'], q5);
    let q4 = seq![seq![']']] + q5;
    lemma_cons(rval_text(x), q4);
    let q3 = seq![rval_text(x)] + q4;
    lemma_cons(seq!['['], q3);
    let q2 = seq![seq!['[']] + q3;
    lemma_cons(var_text(v), q2);
    let q1 = seq![var_text(v)] + q2;
    lemma_cons(seq!['\t'], q1);
    let q0 = seq![seq!['\t']] + q1;
    let i = InstV::Ass(LVal::SymA(v, x), r);
    assert(inst_pieces(i) =~= q0);
    assert(flat(q0) =~= instv_text(i));
    lemma_tokenize_layout(q0);
    lemma_strip_layout(q0);
    assert(toks_of(q0) =~= seq![var_text(v), seq!['['], rval_text(x), seq![']'], seq!['='], rval_text(r)]);
}

#[verifier::spinoff_prover]
#[verifier::rlimit(100)]
proof fn lemma_read_ass_a(v: Var, x: RVal, r: RVal)
    requires
        var_ok(v) && rval_ok(x) && rval_ok(r),
    ensures
        parse_line(instv_text(InstV::Ass(LVal::SymA(v, x), r))) == Some(InstV::Ass(LVal::SymA(v, x), r)),
{
    lemma_toks_ass_a(v, x, r);
    lemma_lits();
    lemma_var_text(v);
    lemma_not_kw(var_text(v));
    lemma_rval_text(x);
    lemma_not_kw(rval_text(x));
    lemma_rval_text(r);
    lemma_not_kw(rval_text(r));
    reveal_strlit("var");
    reveal_strlit("end");
    reveal_strlit("goto");
    reveal_strlit("param");
    reveal_strlit("call");
    reveal_strlit("return");
    reveal_strlit("if");
    reveal_strlit("=");
    reveal_strlit("[");
    reveal_strlit("]");
    reveal_strlit(":");
}

#[verifier::spinoff_prover]
#[verifier::rlimit(100)]
proof fn lemma_toks_take(a: Var, b: Var, r: RVal)
    requires
        var_ok(a) && var_ok(b) && rval_ok(r),
    ensures
        strip_comment(instv_text(InstV::Take(a, b, r))) == instv_text(InstV::Take(a, b, r)),
        tokenize(instv_text(InstV::Take(a, b, r))) == Some(seq![var_text(a), seq!['='], var_text(b), seq!['['], rval_text(r), seq![']']]),
{
    lemma_blanks();
    lemma_keywords();
    lemma_var_text(a);
    lemma_not_blank(var_text(a));
    lemma_var_text(b);
    lemma_not_blank(var_text(b));
    lemma_rval_text(r);
    lemma_not_blank(rval_text(r));
    reveal_strlit("\t");
    reveal_strlit(" = ");
    reveal_strlit("[");
    reveal_strlit("]");
    let q9 = Seq::<Seq<char>>::empty();
    lemma_cons(seq![']'], q9);
    let q8 = seq![seq![']']] + q9;
    lemma_cons(rval_text(r), q8);
    let q7 = seq![rval_text(r)] + q8;
    lemma_cons(seq!['['], q7);
    let q6 = seq![seq!['[']] + q7;
    lemma_cons(var_text(b), q6);
    let q5 = seq![var_text(b)] + q6;
    lemma_cons(seq![' '], q5);
    let q4 = seq![seq![' ']] + q5;
    lemma_cons(seq!['='], q4);
    let q3 = seq![seq!['=']] + q4;
    lemma_cons(seq![' '], q3);
    let q2 = seq![seq![' ']] + q3;
    lemma_cons(var_text(a), q2);
    let q1 = seq![var_text(a)] + q2;
    lemma_cons(seq!['\t'], q1);
    let q0 = seq![seq!['\t']] + q1;
    let i = InstV::Take(a, b, r);
    assert(inst_pieces(i) =~= q0);
    assert(flat(q0) =~= instv_text(i));
    lemma_tokenize_layout(q0);
    lemma_strip_layout(q0);
    assert(toks_of(q0) =~= seq![var_text(a), seq!['='], var_text(b), seq!['['], rval_text(r), seq![']']]);
}

#[verifier::spinoff_prover]
#[verifier::rlimit(100)]
proof fn lemma_read_take(a: Var, b: Var, r: RVal)
    requires
        var_ok(a) && var_ok(b) && rval_ok(r),
    ensures
        parse_line(instv_text(InstV::Take(a, b, r))) == Some(InstV::Take(a, b, r)),
{
    lemma_toks_take(a, b, r);
    lemma_lits();
    lemma_var_text(a);
    lemma_not_kw(var_text(a));
    lemma_var_text(b);
    lemma_not_kw(var_text(b));
    lemma_rval_text(r);
    lemma_not_kw(rval_text(r));
    reveal_strlit("var");
    reveal_strlit("end");
    reveal_strlit("goto");
    reveal_strlit("param");
    reveal_strlit("call");
    reveal_strlit("return");
    reveal_strlit("if");
    reveal_strlit("=");
    reveal_strlit("[");
    reveal_strlit("]");
    reveal_strlit(":");
}

#[verifier::spinoff_prover]
#[verifier::rlimit(100)]
proof fn lemma_toks_cpt(v: Var, a: RVal, o: Oper, b: RVal)
    requires
        var_ok(v) && rval_ok(a) && rval_ok(b),
    ensures
        strip_comment(instv_text(InstV::Cpt(v, a, o, b))) == instv_text(InstV::Cpt(v, a, o, b)),
        tokenize(instv_text(InstV::Cpt(v, a, o, b))) == Some(seq![var_text(v), seq!['='], rval_text(a), oper_text(o), rval_text(b)]),
{
    lemma_blanks();
    lemma_keywords();
    lemma_var_text(v);
    lemma_not_blank(var_text(v));
    lemma_rval_text(a);
    lemma_not_blank(rval_text(a));
    lemma_oper_text(o);
    lemma_not_blank(oper_text(o));
    lemma_rval_text(b);
    lemma_not_blank(rval_text(b));
    reveal_strlit("\t");
    reveal_strlit(" = ");
    reveal_strlit(" ");
    let q10 = Seq::<Seq<char>>::empty();
    lemma_cons(rval_text(b), q10);
    let q9 = seq![rval_text(b)] + q10;
    lemma_cons(seq![' '], q9);
    let q8 = seq![seq![' ']] + q9;
    lemma_cons(oper_text(o), q8);
    let q7 = seq![oper_text(o)] + q8;
    lemma_cons(seq![' '], q7);
    let q6 = seq![seq![' ']] + q7;
    lemma_cons(rval_text(a), q6);
    let q5 = seq![rval_text(a)] + q6;
    lemma_cons(seq![' '], q5);
    let q4 = seq![seq![' ']] + q5;
    lemma_cons(seq!['='], q4);
    let q3 = seq![seq!['=']] + q4;
    lemma_cons(seq![' '], q3);
    let q2 = seq![seq![' ']] + q3;
    lemma_cons(var_text(v), q2);
    let q1 = seq![var_text(v)] + q2;
    lemma_cons(seq!['\t'], q1);
    let q0 = seq![seq!['\t']] + q1;
    let i = InstV::Cpt(v, a, o, b);
    assert(inst_pieces(i) =~= q0);
    assert(flat(q0) =~= instv_text(i));
    lemma_tokenize_layout(q0);
    lemma_strip_layout(q0);
    assert(toks_of(q0) =~= seq![var_text(v), seq!['='], rval_text(a), oper_text(o), rval_text(b)]);
}

#[verifier::spinoff_prover]
#[verifier::rlimit(100)]
proof fn lemma_read_cpt(v: Var, a: RVal, o: Oper, b: RVal)
    requires
        var_ok(v) && rval_ok(a) && rval_ok(b),
    ensures
        parse_line(instv_text(InstV::Cpt(v, a, o, b))) == Some(InstV::Cpt(v, a, o, b)),
{
    lemma_toks_cpt(v, a, o, b);
    lemma_lits();
    lemma_var_text(v);
    lemma_not_kw(var_text(v));
    lemma_rval_text(a);
    lemma_not_kw(rval_text(a));
    lemma_oper_text(o);
    lemma_rval_text(b);
    lemma_not_kw(rval_text(b));
    reveal_strlit("var");
    reveal_strlit("end");
    reveal_strlit("goto");
    reveal_strlit("param");
    reveal_strlit("call");
    reveal_strlit("return");
    reveal_strlit("if");
    reveal_strlit("=");
    reveal_strlit("[");
    reveal_strlit("]");
    reveal_strlit(":");
}

#[verifier::spinoff_prover]
#[verifier::rlimit(100)]
proof fn lemma_toks_unary(v: Var, u: Seq<char>, a: RVal)
    requires
        var_ok(v) && rval_ok(a),
        is_op(u),
        no_slash(u),
        !is_blank(u),
        u.len() == 1,
    ensures
        strip_comment("\t"@ + var_text(v) + " = "@ + u + " "@ + rval_text(a)) == "\t"@ + var_text(v) + " = "@ + u + " "@ + rval_text(a),
        tokenize("\t"@ + var_text(v) + " = "@ + u + " "@ + rval_text(a)) == Some(seq![var_text(v), seq!['='], u, rval_text(a)]),
{
    lemma_blanks();
    lemma_var_text(v);
    lemma_not_blank(var_text(v));
    lemma_rval_text(a);
    lemma_not_blank(rval_text(a));
    reveal_strlit("\t");
    reveal_strlit(" = ");
    reveal_strlit(" ");
    let q8 = Seq::<Seq<char>>::empty();
    lemma_cons(rval_text(a), q8);
    let q7 = seq![rval_text(a)] + q8;
    lemma_cons(seq![' '], q7);
    let q6 = seq![seq![' ']] + q7;
    lemma_cons(u, q6);
    let q5 = seq![u] + q6;
    lemma_cons(seq![' '], q5);
    let q4 = seq![seq![' ']] + q5;
    lemma_cons(seq!['='], q4);
    let q3 = seq![seq!['=']] + q4;
    lemma_cons(seq![' '], q3);
    let q2 = seq![seq![' ']] + q3;
    lemma_cons(var_text(v), q2);
    let q1 = seq![var_text(v)] + q2;
    lemma_cons(seq!['\t'], q1);
    let q0 = seq![seq!['\t']] + q1;
    assert(flat(q0) =~= "\t"@ + var_text(v) + " = "@ + u + " "@ + rval_text(a));
    lemma_tokenize_layout(q0);
    lemma_strip_layout(q0);
    assert(toks_of(q0) =~= seq![var_text(v), seq!['='], u, rval_text(a)]);
}

proof fn lemma_toks_ucpt(v: Var, o: UOper, a: RVal)
    requires
        var_ok(v) && rval_ok(a),
    ensures
        strip_comment(instv_text(InstV::UCpt(v, o, a))) == instv_text(InstV::UCpt(v, o, a)),
        tokenize(instv_text(InstV::UCpt(v, o, a))) == Some(seq![var_text(v), seq!['='], uoper_text(o), rval_text(a)]),
{
    reveal_strlit("-");
    reveal_strlit("!");
    lemma_uoper_text(o);
    lemma_not_blank(uoper_text(o));
    lemma_toks_unary(v, uoper_text(o), a);
}

#[verifier::spinoff_prover]
#[verifier::rlimit(100)]
proof fn lemma_read_ucpt(v: Var, o: UOper, a: RVal)
    requires
        var_ok(v) && rval_ok(a),
    ensures
        parse_line(instv_text(InstV::UCpt(v, o, a))) == Some(InstV::UCpt(v, o, a)),
{
    lemma_toks_ucpt(v, o, a);
    lemma_lits();
    lemma_var_text(v);
    lemma_not_kw(var_text(v));
    lemma_uoper_text(o);
    lemma_rval_text(a);
    lemma_not_kw(rval_text(a));
    reveal_strlit("var");
    reveal_strlit("end");
    reveal_strlit("goto");
    reveal_strlit("param");
    reveal_strlit("call");
    reveal_strlit("return");
    reveal_strlit("if");
    reveal_strlit("=");
    reveal_strlit("[");
    reveal_strlit("]");
    reveal_strlit(":");
}

#[verifier::spinoff_prover]
#[verifier::rlimit(100)]
proof fn lemma_toks_brch(a: RVal, o: Oper, b: RVal, l: i32)
    requires
        rval_ok(a) && rval_ok(b) && l >= 0,
    ensures
        strip_comment(instv_text(InstV::Brch(a, o, b, l))) == instv_text(InstV::Brch(a, o, b, l)),
        tokenize(instv_text(InstV::Brch(a, o, b, l))) == Some(seq!["if"@, rval_text(a), oper_text(o), rval_text(b), "goto"@, seq!['l'] + int_text(l as int)]),
{
    lemma_blanks();
    lemma_keywords();
    lemma_rval_text(a);
    lemma_not_blank(rval_text(a));
    lemma_oper_text(o);
    lemma_not_blank(oper_text(o));
    lemma_rval_text(b);
    lemma_not_blank(rval_text(b));
    lemma_label_text(l);
    lemma_not_blank(seq!['l'] + int_text(l as int));
    reveal_strlit("\tif ");
    reveal_strlit(" ");
    reveal_strlit(" goto l");
    reveal_strlit("if");
    reveal_strlit("goto");
    let q12 = Seq::<Seq<char>>::empty();
    lemma_cons(seq!['l'] + int_text(l as int), q12);
    let q11 = seq![seq!['l'] + int_text(l as int)] + q12;
    lemma_cons(seq![' '], q11);
    let q10 = seq![seq![' ']] + q11;
    lemma_cons("goto"@, q10);
    let q9 = seq!["goto"@] + q10;
    lemma_cons(seq![' '], q9);
    let q8 = seq![seq![' ']] + q9;
    lemma_cons(rval_text(b), q8);
    let q7 = seq![rval_text(b)] + q8;
    lemma_cons(seq![' '], q7);
    let q6 = seq![seq![' ']] + q7;
    lemma_cons(oper_text(o), q6);
    let q5 = seq![oper_text(o)] + q6;
    lemma_cons(seq![' '], q5);
    let q4 = seq![seq![' ']] + q5;
    lemma_cons(rval_text(a), q4);
    let q3 = seq![rval_text(a)] + q4;
    lemma_cons(seq![' '], q3);
    let q2 = seq![seq![' ']] + q3;
    lemma_cons("if"@, q2);
    let q1 = seq!["if"@] + q2;
    lemma_cons(seq!['\t'], q1);
    let q0 = seq![seq!['\t']] + q1;
    let i = InstV::Brch(a, o, b, l);
    assert(inst_pieces(i) =~= q0);
    assert(flat(q0) =~= instv_text(i));
    lemma_tokenize_layout(q0);
    lemma_strip_layout(q0);
    assert(toks_of(q0) =~= seq!["if"@, rval_text(a), oper_text(o), rval_text(b), "goto"@, seq!['l'] + int_text(l as int)]);
}

#[verifier::spinoff_prover]
#[verifier::rlimit(100)]
proof fn lemma_read_brch(a: RVal, o: Oper, b: RVal, l: i32)
    requires
        rval_ok(a) && rval_ok(b) && l >= 0,
    ensures
        parse_line(instv_text(InstV::Brch(a, o, b, l))) == Some(InstV::Brch(a, o, b, l)),
{
    lemma_toks_brch(a, o, b, l);
    lemma_lits();
    lemma_rval_text(a);
    lemma_not_kw(rval_text(a));
    lemma_oper_text(o);
    lemma_rval_text(b);
    lemma_not_kw(rval_text(b));
    lemma_label_text(l);
    lemma_not_kw(seq!['l'] + int_text(l as int));
    reveal_strlit("var");
    reveal_strlit("end");
    reveal_strlit("goto");
    reveal_strlit("param");
    reveal_strlit("call");
    reveal_strlit("return");
    reveal_strlit("if");
    reveal_strlit("=");
    reveal_strlit("[");
    reveal_strlit("]");
    reveal_strlit(":");
}

#[verifier::spinoff_prover]
#[verifier::rlimit(100)]
proof fn lemma_toks_jump(l: i32)
    requires
        l >= 0,
    ensures
        strip_comment(instv_text(InstV::Jump(l))) == instv_text(InstV::Jump(l)),
        tokenize(instv_text(InstV::Jump(l))) == Some(seq!["goto"@, seq!['l'] + int_text(l as int)]),
{
    lemma_blanks();
    lemma_keywords();
    lemma_label_text(l);
    lemma_not_blank(seq!['l'] + int_text(l as int));
    reveal_strlit("\tgoto l");
    reveal_strlit("goto");
    let q4 = Seq::<Seq<char>>::empty();
    lemma_cons(seq!['l'] + int_text(l as int), q4);
    let q3 = seq![seq!['l'] + int_text(l as int)] + q4;
    lemma_cons(seq![' '], q3);
    let q2 = seq![seq![' ']] + q3;
    lemma_cons("goto"@, q2);
    let q1 = seq!["goto"@] + q2;
    lemma_cons(seq!['\t'], q1);
    let q0 = seq![seq!['\t']] + q1;
    let i = InstV::Jump(l);
    assert(inst_pieces(i) =~= q0);
    assert(flat(q0) =~= instv_text(i));
    lemma_tokenize_layout(q0);
    lemma_strip_layout(q0);
    assert(toks_of(q0) =~= seq!["goto"@, seq!['l'] + int_text(l as int)]);
}

#[verifier::spinoff_prover]
#[verifier::rlimit(100)]
proof fn lemma_read_jump(l: i32)
    requires
        l >= 0,
    ensures
        parse_line(instv_text(InstV::Jump(l))) == Some(InstV::Jump(l)),
{
    lemma_toks_jump(l);
    lemma_lits();
    lemma_label_text(l);
    lemma_not_kw(seq!['l'] + int_text(l as int));
    reveal_strlit("var");
    reveal_strlit("end");
    reveal_strlit("goto");
    reveal_strlit("param");
    reveal_strlit("call");
    reveal_strlit("return");
    reveal_strlit("if");
    reveal_strlit("=");
    reveal_strlit("[");
    reveal_strlit("]");
    reveal_strlit(":");
}

#[verifier::spinoff_prover]
#[verifier::rlimit(100)]
proof fn lemma_toks_label(l: i32)
    requires
        l >= 0,
    ensures
        strip_comment(instv_text(InstV::Label(l))) == instv_text(InstV::Label(l)),
        tokenize(instv_text(InstV::Label(l))) == Some(seq![seq!['l'] + int_text(l as int), seq![':']]),
{
    lemma_blanks();
    lemma_keywords();
    lemma_label_text(l);
    lemma_not_blank(seq!['l'] + int_text(l as int));
    reveal_strlit("l");
    reveal_strlit(":");
    let q2 = Seq::<Seq<char>>::empty();
    lemma_cons(seq![':'], q2);
    let q1 = seq![seq![':']] + q2;
    lemma_cons(seq!['l'] + int_text(l as int), q1);
    let q0 = seq![seq!['l'] + int_text(l as int)] + q1;
    let i = InstV::Label(l);
    assert(inst_pieces(i) =~= q0);
    assert(flat(q0) =~= instv_text(i));
    lemma_tokenize_layout(q0);
    lemma_strip_layout(q0);
    assert(toks_of(q0) =~= seq![seq!['l'] + int_text(l as int), seq![':']]);
}

#[verifier::spinoff_prover]
#[verifier::rlimit(100)]
proof fn lemma_read_label(l: i32)
    requires
        l >= 0,
    ensures
        parse_line(instv_text(InstV::Label(l))) == Some(InstV::Label(l)),
{
    lemma_toks_label(l);
    lemma_lits();
    lemma_label_text(l);
    lemma_not_kw(seq!['l'] + int_text(l as int));
    reveal_strlit("var");
    reveal_strlit("end");
    reveal_strlit("goto");
    reveal_strlit("param");
    reveal_strlit("call");
    reveal_strlit("return");
    reveal_strlit("if");
    reveal_strlit("=");
    reveal_strlit("[");
    reveal_strlit("]");
    reveal_strlit(":");
}

#[verifier::spinoff_prover]
#[verifier::rlimit(100)]
proof fn lemma_toks_param(r: RVal)
    requires
        rval_ok(r),
    ensures
        strip_comment(instv_text(InstV::Param(r))) == instv_text(InstV::Param(r)),
        tokenize(instv_text(InstV::Param(r))) == Some(seq!["param"@, rval_text(r)]),
{
    lemma_blanks();
    lemma_keywords();
    lemma_rval_text(r);
    lemma_not_blank(rval_text(r));
    reveal_strlit("\tparam ");
    reveal_strlit("param");
    let q4 = Seq::<Seq<char>>::empty();
    lemma_cons(rval_text(r), q4);
    let q3 = seq![rval_text(r)] + q4;
    lemma_cons(seq![' '], q3);
    let q2 = seq![seq![' ']] + q3;
    lemma_cons("param"@, q2);
    let q1 = seq!["param"@] + q2;
    lemma_cons(seq!['\t'], q1);
    let q0 = seq![seq!['\t']] + q1;
    let i = InstV::Param(r);
    assert(inst_pieces(i) =~= q0);
    assert(flat(q0) =~= instv_text(i));
    lemma_tokenize_layout(q0);
    lemma_strip_layout(q0);
    assert(toks_of(q0) =~= seq!["param"@, rval_text(r)]);
}

#[verifier::spinoff_prover]
#[verifier::rlimit(100)]
proof fn lemma_read_param(r: RVal)
    requires
        rval_ok(r),
    ensures
        parse_line(instv_text(InstV::Param(r))) == Some(InstV::Param(r)),
{
    lemma_toks_param(r);
    lemma_lits();
    lemma_rval_text(r);
    lemma_not_kw(rval_text(r));
    reveal_strlit("var");
    reveal_strlit("end");
    reveal_strlit("goto");
    reveal_strlit("param");
    reveal_strlit("call");
    reveal_strlit("return");
    reveal_strlit("if");
    reveal_strlit("=");
    reveal_strlit("[");
    reveal_strlit("]");
    reveal_strlit(":");
}

#[verifier::spinoff_prover]
#[verifier::rlimit(100)]
proof fn lemma_toks_call(f: Seq<char>)
    requires
        name_ok(f),
    ensures
        strip_comment(instv_text(InstV::Call(f))) == instv_text(InstV::Call(f)),
        tokenize(instv_text(InstV::Call(f))) == Some(seq!["call"@, name_text(f)]),
{
    lemma_blanks();
    lemma_keywords();
    lemma_name_text(f);
    lemma_not_blank(name_text(f));
    reveal_strlit("\tcall ");
    reveal_strlit("call");
    let q4 = Seq::<Seq<char>>::empty();
    lemma_cons(name_text(f), q4);
    let q3 = seq![name_text(f)] + q4;
    lemma_cons(seq![' '], q3);
    let q2 = seq![seq![' ']] + q3;
    lemma_cons("call"@, q2);
    let q1 = seq!["call"@] + q2;
    lemma_cons(seq!['\t'], q1);
    let q0 = seq![seq!['\t']] + q1;
    let i = InstV::Call(f);
    assert(inst_pieces(i) =~= q0);
    assert(flat(q0) =~= instv_text(i));
    lemma_tokenize_layout(q0);
    lemma_strip_layout(q0);
    assert(toks_of(q0) =~= seq!["call"@, name_text(f)]);
}

#[verifier::spinoff_prover]
#[verifier::rlimit(100)]
proof fn lemma_read_call(f: Seq<char>)
    requires
        name_ok(f),
    ensures
        parse_line(instv_text(InstV::Call(f))) == Some(InstV::Call(f)),
{
    lemma_toks_call(f);
    lemma_lits();
    lemma_name_text(f);
    lemma_not_kw(name_text(f));
    reveal_strlit("var");
    reveal_strlit("end");
    reveal_strlit("goto");
    reveal_strlit("param");
    reveal_strlit("call");
    reveal_strlit("return");
    reveal_strlit("if");
    reveal_strlit("=");
    reveal_strlit("[");
    reveal_strlit("]");
    reveal_strlit(":");
}

#[verifier::spinoff_prover]
#[verifier::rlimit(100)]
proof fn lemma_toks_call_fn(v: Var, f: Seq<char>)
    requires
        var_ok(v) && name_ok(f),
    ensures
        strip_comment(instv_text(InstV::CallFn(v, f))) == instv_text(InstV::CallFn(v, f)),
        tokenize(instv_text(InstV::CallFn(v, f))) == Some(seq![var_text(v), seq!['='], "call"@, name_text(f)]),
{
    lemma_blanks();
    lemma_keywords();
    lemma_var_text(v);
    lemma_not_blank(var_text(v));
    lemma_name_text(f);
    lemma_not_blank(name_text(f));
    reveal_strlit("\t");
    reveal_strlit(" = call ");
    reveal_strlit("call");
    let q8 = Seq::<Seq<char>>::empty();
    lemma_cons(name_text(f), q8);
    let q7 = seq![name_text(f)] + q8;
    lemma_cons(seq![' '], q7);
    let q6 = seq![seq![' ']] + q7;
    lemma_cons("call"@, q6);
    let q5 = seq!["call"@] + q6;
    lemma_cons(seq![' '], q5);
    let q4 = seq![seq![' ']] + q5;
    lemma_cons(seq!['='], q4);
    let q3 = seq![seq!['=']] + q4;
    lemma_cons(seq![' '], q3);
    let q2 = seq![seq![' ']] + q3;
    lemma_cons(var_text(v), q2);
    let q1 = seq![var_text(v)] + q2;
    lemma_cons(seq!['\t'], q1);
    let q0 = seq![seq!['\t']] + q1;
    let i = InstV::CallFn(v, f);
    assert(inst_pieces(i) =~= q0);
    assert(flat(q0) =~= instv_text(i));
    lemma_tokenize_layout(q0);
    lemma_strip_layout(q0);
    assert(toks_of(q0) =~= seq![var_text(v), seq!['='], "call"@, name_text(f)]);
}

#[verifier::spinoff_prover]
#[verifier::rlimit(100)]
proof fn lemma_read_call_fn(v: Var, f: Seq<char>)
    requires
        var_ok(v) && name_ok(f),
    ensures
        parse_line(instv_text(InstV::CallFn(v, f))) == Some(InstV::CallFn(v, f)),
{
    lemma_toks_call_fn(v, f);
    lemma_lits();
    lemma_var_text(v);
    lemma_not_kw(var_text(v));
    lemma_name_text(f);
    lemma_not_kw(name_text(f));
    reveal_strlit("var");
    reveal_strlit("end");
    reveal_strlit("goto");
    reveal_strlit("param");
    reveal_strlit("call");
    reveal_strlit("return");
    reveal_strlit("if");
    reveal_strlit("=");
    reveal_strlit("[");
    reveal_strlit("]");
    reveal_strlit(":");
}

#[verifier::spinoff_prover]
#[verifier::rlimit(100)]
proof fn lemma_toks_return(r: RVal)
    requires
        rval_ok(r),
    ensures
        strip_comment(instv_text(InstV::Return(r))) == instv_text(InstV::Return(r)),
        tokenize(instv_text(InstV::Return(r))) == Some(seq!["return"@, rval_text(r)]),
{
    lemma_blanks();
    lemma_keywords();
    lemma_rval_text(r);
    lemma_not_blank(rval_text(r));
    reveal_strlit("\treturn ");
    reveal_strlit("return");
    let q4 = Seq::<Seq<char>>::empty();
    lemma_cons(rval_text(r), q4);
    let q3 = seq![rval_text(r)] + q4;
    lemma_cons(seq![' '], q3);
    let q2 = seq![seq![' ']] + q3;
    lemma_cons("return"@, q2);
    let q1 = seq!["return"@] + q2;
    lemma_cons(seq!['\t'], q1);
    let q0 = seq![seq!['\t']] + q1;
    let i = InstV::Return(r);
    assert(inst_pieces(i) =~= q0);
    assert(flat(q0) =~= instv_text(i));
    lemma_tokenize_layout(q0);
    lemma_strip_layout(q0);
    assert(toks_of(q0) =~= seq!["return"@, rval_text(r)]);
}

#[verifier::spinoff_prover]
#[verifier::rlimit(100)]
proof fn lemma_read_return(r: RVal)
    requires
        rval_ok(r),
    ensures
        parse_line(instv_text(InstV::Return(r))) == Some(InstV::Return(r)),
{
    lemma_toks_return(r);
    lemma_lits();
    lemma_rval_text(r);
    lemma_not_kw(rval_text(r));
    reveal_strlit("var");
    reveal_strlit("end");
    reveal_strlit("goto");
    reveal_strlit("param");
    reveal_strlit("call");
    reveal_strlit("return");
    reveal_strlit("if");
    reveal_strlit("=");
    reveal_strlit("[");
    reveal_strlit("]");
    reveal_strlit(":");
}

#[verifier::spinoff_prover]
#[verifier::rlimit(100)]
proof fn lemma_toks_ret()
    requires
        true,
    ensures
        strip_comment(instv_text(InstV::Ret)) == instv_text(InstV::Ret),
        tokenize(instv_text(InstV::Ret)) == Some(seq!["return"@]),
{
    lemma_blanks();
    lemma_keywords();
    reveal_strlit("\treturn");
    reveal_strlit("return");
    let q2 = Seq::<Seq<char>>::empty();
    lemma_cons("return"@, q2);
    let q1 = seq!["return"@] + q2;
    lemma_cons(seq!['\t'], q1);
    let q0 = seq![seq!['\t']] + q1;
    let i = InstV::Ret;
    assert(inst_pieces(i) =~= q0);
    assert(flat(q0) =~= instv_text(i));
    lemma_tokenize_layout(q0);
    lemma_strip_layout(q0);
    assert(toks_of(q0) =~= seq!["return"@]);
}

#[verifier::spinoff_prover]
#[verifier::rlimit(100)]
proof fn lemma_read_ret()
    requires
        true,
    ensures
        parse_line(instv_text(InstV::Ret)) == Some(InstV::Ret),
{
    lemma_toks_ret();
    lemma_lits();
    reveal_strlit("var");
    reveal_strlit("end");
    reveal_strlit("goto");
    reveal_strlit("param");
    reveal_strlit("call");
    reveal_strlit("return");
    reveal_strlit("if");
    reveal_strlit("=");
    reveal_strlit("[");
    reveal_strlit("]");
    reveal_strlit(":");
}

#[verifier::spinoff_prover]
#[verifier::rlimit(100)]
proof fn lemma_toks_fn(f: Seq<char>, n: i32)
    requires
        name_ok(f),
    ensures
        strip_comment(instv_text(InstV::Fn(f, n))) == instv_text(InstV::Fn(f, n)),
        tokenize(instv_text(InstV::Fn(f, n))) == Some(seq![name_text(f), seq!['['], int_text(n as int), seq![']']]),
{
    lemma_blanks();
    lemma_keywords();
    lemma_name_text(f);
    lemma_not_blank(name_text(f));
    lemma_int_text(n);
    lemma_not_blank(int_text(n as int));
    reveal_strlit(" [");
    reveal_strlit("]");
    let q5 = Seq::<Seq<char>>::empty();
    lemma_cons(seq![']'], q5);
    let q4 = seq![seq![']']] + q5;
    lemma_cons(int_text(n as int), q4);
    let q3 = seq![int_text(n as int)] + q4;
    lemma_cons(seq!['['], q3);
    let q2 = seq![seq!['[']] + q3;
    lemma_cons(seq![' '], q2);
    let q1 = seq![seq![' ']] + q2;
    lemma_cons(name_text(f), q1);
    let q0 = seq![name_text(f)] + q1;
    let i = InstV::Fn(f, n);
    assert(inst_pieces(i) =~= q0);
    assert(flat(q0) =~= instv_text(i));
    lemma_tokenize_layout(q0);
    lemma_strip_layout(q0);
    assert(toks_of(q0) =~= seq![name_text(f), seq!['['], int_text(n as int), seq![']']]);
}

#[verifier::spinoff_prover]
#[verifier::rlimit(100)]
proof fn lemma_read_fn(f: Seq<char>, n: i32)
    requires
        name_ok(f),
    ensures
        parse_line(instv_text(InstV::Fn(f, n))) == Some(InstV::Fn(f, n)),
{
    lemma_toks_fn(f, n);
    lemma_lits();
    lemma_name_text(f);
    lemma_not_kw(name_text(f));
    lemma_int_text(n);
    lemma_not_kw(int_text(n as int));
    reveal_strlit("var");
    reveal_strlit("end");
    reveal_strlit("goto");
    reveal_strlit("param");
    reveal_strlit("call");
    reveal_strlit("return");
    reveal_strlit("if");
    reveal_strlit("=");
    reveal_strlit("[");
    reveal_strlit("]");
    reveal_strlit(":");
}

#[verifier::spinoff_prover]
#[verifier::rlimit(100)]
proof fn lemma_toks_fn_e(f: Seq<char>)
    requires
        name_ok(f),
    ensures
        strip_comment(instv_text(InstV::FnE(f))) == instv_text(InstV::FnE(f)),
        tokenize(instv_text(InstV::FnE(f))) == Some(seq!["end"@, name_text(f)]),
{
    lemma_blanks();
    lemma_keywords();
    lemma_name_text(f);
    lemma_not_blank(name_text(f));
    reveal_strlit("end ");
    reveal_strlit("end");
    let q3 = Seq::<Seq<char>>::empty();
    lemma_cons(name_text(f), q3);
    let q2 = seq![name_text(f)] + q3;
    lemma_cons(seq![' '], q2);
    let q1 = seq![seq![' ']] + q2;
    lemma_cons("end"@, q1);
    let q0 = seq!["end"@] + q1;
    let i = InstV::FnE(f);
    assert(inst_pieces(i) =~= q0);
    assert(flat(q0) =~= instv_text(i));
    lemma_tokenize_layout(q0);
    lemma_strip_layout(q0);
    assert(toks_of(q0) =~= seq!["end"@, name_text(f)]);
}

#[verifier::spinoff_prover]
#[verifier::rlimit(100)]
proof fn lemma_read_fn_e(f: Seq<char>)
    requires
        name_ok(f),
    ensures
        parse_line(instv_text(InstV::FnE(f))) == Some(InstV::FnE(f)),
{
    lemma_toks_fn_e(f);
    lemma_lits();
    lemma_name_text(f);
    lemma_not_kw(name_text(f));
    reveal_strlit("var");
    reveal_strlit("end");
    reveal_strlit("goto");
    reveal_strlit("param");
    reveal_strlit("call");
    reveal_strlit("return");
    reveal_strlit("if");
    reveal_strlit("=");
    reveal_strlit("[");
    reveal_strlit("]");
    reveal_strlit(":");
}

/// The text of a well-formed instruction has no comment and splits into
/// tokens.
proof fn lemma_inst_toks(i: InstV)
    requires
        instv_ok(i),
    ensures
        strip_comment(instv_text(i)) == instv_text(i),
        tokenize(instv_text(i)) is Some,
{
    match i {
        InstV::DArr(n, v) => lemma_toks_d_arr(n, v),
        InstV::DI(v) => lemma_toks_d_i(v),
        InstV::Ass(LVal::Sym(v), r) => lemma_toks_ass(v, r),
        InstV::Ass(LVal::SymA(v, x), r) => lemma_toks_ass_a(v, x, r),
        InstV::Take(a, b, r) => lemma_toks_take(a, b, r),
        InstV::Cpt(v, a, o, b) => lemma_toks_cpt(v, a, o, b),
        InstV::UCpt(v, o, a) => lemma_toks_ucpt(v, o, a),
        InstV::Brch(a, o, b, l) => lemma_toks_brch(a, o, b, l),
        InstV::Jump(l) => lemma_toks_jump(l),
        InstV::Label(l) => lemma_toks_label(l),
        InstV::Param(r) => lemma_toks_param(r),
        InstV::Call(f) => lemma_toks_call(f),
        InstV::CallFn(v, f) => lemma_toks_call_fn(v, f),
        InstV::Return(r) => lemma_toks_return(r),
        InstV::Ret => lemma_toks_ret(),
        InstV::Fn(f, n) => lemma_toks_fn(f, n),
        InstV::FnE(f) => lemma_toks_fn_e(f),
    }
}

/// Reading the text of an instruction gives the instruction back, for
/// instructions whose variables and labels have numbers of at least 0 and
/// whose function names are made of letters, digits and `_`.
pub proof fn law_read_inst(i: InstV)
    requires
        instv_ok(i),
    ensures
        parse_line(instv_text(i)) == Some(i),
{
    match i {
        InstV::DArr(n, v) => lemma_read_d_arr(n, v),
        InstV::DI(v) => lemma_read_d_i(v),
        InstV::Ass(LVal::Sym(v), r) => lemma_read_ass(v, r),
        InstV::Ass(LVal::SymA(v, x), r) => lemma_read_ass_a(v, x, r),
        InstV::Take(a, b, r) => lemma_read_take(a, b, r),
        InstV::Cpt(v, a, o, b) => lemma_read_cpt(v, a, o, b),
        InstV::UCpt(v, o, a) => lemma_read_ucpt(v, o, a),
        InstV::Brch(a, o, b, l) => lemma_read_brch(a, o, b, l),
        InstV::Jump(l) => lemma_read_jump(l),
        InstV::Label(l) => lemma_read_label(l),
        InstV::Param(r) => lemma_read_param(r),
        InstV::Call(f) => lemma_read_call(f),
        InstV::CallFn(v, f) => lemma_read_call_fn(v, f),
        InstV::Return(r) => lemma_read_return(r),
        InstV::Ret => lemma_read_ret(),
        InstV::Fn(f, n) => lemma_read_fn(f, n),
        InstV::FnE(f) => lemma_read_fn_e(f),
    }
}

proof fn lemma_run_chars(s: Seq<char>, k: int)
    requires
        0 <= k,
    ensures
        k < ident_run(s) ==> is_ident_char(s[k]),
        k < digit_run(s) ==> is_digit(s[k]),
    decreases s.len(),
{
    lemma_runs(s);
    if s.len() > 0 && k > 0 {
        lemma_run_chars(s.drop_first(), k - 1);
        if k < s.len() {
            assert(s[k] == s.drop_first()[k - 1]);
        }
    }
}

proof fn lemma_token_chars(s: Seq<char>, k: int)
    requires
        0 <= k < token_len(s),
    ensures
        s[k] != '\n',
{
    lemma_token_len(s);
    if k > 0 && s.len() > 0 {
        lemma_run_chars(s.drop_first(), k - 1);
        lemma_run_chars(s, k);
    } else {
        lemma_run_chars(s, k);
    }
}

/// Text that splits into tokens has no line break.
pub(crate) proof fn lemma_tokenize_no_newline(s: Seq<char>)
    requires
        tokenize(s) is Some,
    ensures
        forall|k: int| 0 <= k < s.len() ==> #[trigger] s[k] != '\n',
    decreases s.len(),
{
    if s.len() > 0 {
        if is_space(s[0]) {
            lemma_tokenize_no_newline(s.drop_first());
            assert forall|k: int| 0 <= k < s.len() implies #[trigger] s[k] != '\n' by {
                if k > 0 {
                    assert(s[k] == s.drop_first()[k - 1]);
                }
            }
        } else {
            let n = token_len(s);
            lemma_token_len(s);
            lemma_tokenize_no_newline(s.skip(n as int));
            assert forall|k: int| 0 <= k < s.len() implies #[trigger] s[k] != '\n' by {
                if k < n {
                    lemma_token_chars(s, k);
                } else {
                    assert(s[k] == s.skip(n as int)[k - n]);
                }
            }
        }
    }
}

/// Appending text without a line break extends the last line.
pub(crate) proof fn lemma_lines_extend(a: Seq<char>, t: Seq<char>)
    requires
        forall|k: int| 0 <= k < t.len() ==> #[trigger] t[k] != '\n',
    ensures
        lines_of(a + t) == lines_of(a).update(lines_of(a).len() - 1, lines_of(a).last() + t),
        lines_of(a).len() > 0,
    decreases t.len(),
{
    lemma_lines_len(a);
    if t.len() == 0 {
        assert(a + t =~= a);
        assert(lines_of(a).last() + t =~= lines_of(a).last());
        assert(lines_of(a).update(lines_of(a).len() - 1, lines_of(a).last()) =~= lines_of(a));
    } else {
        let t0 = t.drop_last();
        lemma_lines_extend(a, t0);
        assert((a + t).drop_last() =~= a + t0);
        assert((a + t).last() == t.last());
        let ls = lines_of(a);
        let l0 = ls.update(ls.len() - 1, ls.last() + t0);
        assert(lines_of(a + t) == l0.update(l0.len() - 1, l0.last().push(t.last())));
        assert(l0.last().push(t.last()) =~= ls.last() + t);
        assert(l0.update(l0.len() - 1, l0.last().push(t.last())) =~= ls.update(ls.len() - 1, ls.last() + t));
    }
}

pub(crate) proof fn lemma_lines_len(s: Seq<char>)
    ensures
        lines_of(s).len() > 0,
    decreases s.len(),
{
    if s.len() > 0 {
        lemma_lines_len(s.drop_last());
    }
}

/// The lines of printed instructions: their texts, then an empty line.
pub(crate) proof fn lemma_lines_printed(is: Seq<InstV>)
    requires
        forall|k: int| 0 <= k < is.len() ==> instv_ok(#[trigger] is[k]),
    ensures
        lines_of(lines_text(is)) == Seq::new(is.len(), |k: int| instv_text(is[k])).push(Seq::empty()),
    decreases is.len(),
{
    if is.len() == 0 {
        assert(lines_text(is) =~= Seq::<char>::empty());
        assert(Seq::new(0, |k: int| instv_text(is[k])).push(Seq::empty()) =~= seq![Seq::<char>::empty()]);
    } else {
        let pre = is.drop_last();
        let x = is.last();
        assert forall|k: int| 0 <= k < pre.len() implies instv_ok(#[trigger] pre[k]) by {
            assert(pre[k] == is[k]);
        }
        lemma_lines_printed(pre);
        lemma_inst_toks(x);
        lemma_tokenize_no_newline(instv_text(x));
        let a = lines_text(pre);
        let t = instv_text(x);
        lemma_lines_extend(a, t);
        reveal_strlit("\n");
        let s = lines_text(is);
        assert(s == a + t + "\n"@);
        assert(s.drop_last() =~= a + t);
        assert(s.last() == '\n');
        let ls = lines_of(a);
        assert(ls.update(ls.len() - 1, ls.last() + t) =~= Seq::new(is.len(), |k: int| instv_text(is[k]))) by {
            assert(ls.last() + t =~= t);
            assert forall|k: int| 0 <= k < is.len() implies #[trigger] ls.update(ls.len() - 1, ls.last() + t)[k] == instv_text(is[k]) by {
                if k < pre.len() {
                    assert(ls[k] == instv_text(pre[k]));
                }
            }
        }
    }
}

proof fn lemma_parse_lines_map(is: Seq<InstV>)
    requires
        forall|k: int| 0 <= k < is.len() ==> instv_ok(#[trigger] is[k]),
    ensures
        parse_lines(Seq::new(is.len(), |k: int| instv_text(is[k]))) == is,
    decreases is.len(),
{
    if is.len() > 0 {
        let pre = is.drop_last();
        assert forall|k: int| 0 <= k < pre.len() implies instv_ok(#[trigger] pre[k]) by {
            assert(pre[k] == is[k]);
        }
        lemma_parse_lines_map(pre);
        let ls = Seq::new(is.len(), |k: int| instv_text(is[k]));
        assert(ls.drop_last() =~= Seq::new(pre.len(), |k: int| instv_text(pre[k])));
        law_read_inst(is.last());
        assert(is =~= pre.push(is.last()));
    } else {
        assert(Seq::new(0, |k: int| instv_text(is[k])) =~= Seq::<Seq<char>>::empty());
    }
}

/// Reading printed instructions, one per line, gives them back, when each
/// reads back on its own (see `law_read_inst`).
pub proof fn law_read_printed(is: Seq<InstV>)
    requires
        forall|k: int| 0 <= k < is.len() ==> instv_ok(#[trigger] is[k]),
    ensures
        parse_text(lines_text(is)) == is,
{
    lemma_lines_printed(is);
    lemma_parse_lines_map(is);
    let ls = Seq::new(is.len(), |k: int| instv_text(is[k]));
    let all = ls.push(Seq::empty());
    assert(all.drop_last() =~= ls);
    assert(tokenize(strip_comment(Seq::<char>::empty())) == Some(Seq::<Seq<char>>::empty()));
    assert(parse_tokens(Seq::<Seq<char>>::empty()) is None);
    assert(parse_lines(all) =~= parse_lines(ls));
}


/// The lines of two texts joined by a line break: those of the first, then
/// those of the second.
proof fn lemma_lines_join(s1: Seq<char>, s2: Seq<char>)
    ensures
        lines_of(s1 + seq!['\n'] + s2) == lines_of(s1) + lines_of(s2),
    decreases s2.len(),
{
    let s = s1 + seq!['\n'] + s2;
    if s2.len() == 0 {
        assert(s.drop_last() =~= s1);
        assert(lines_of(s1).push(Seq::empty()) =~= lines_of(s1) + seq![Seq::<char>::empty()]);
    } else {
        lemma_lines_join(s1, s2.drop_last());
        assert(s.drop_last() =~= s1 + seq!['\n'] + s2.drop_last());
        assert(s.last() == s2.last());
        let a = lines_of(s1);
        let b = lines_of(s2.drop_last());
        lemma_lines_len(s2.drop_last());
        if s2.last() == '\n' {
            assert((a + b).push(Seq::empty()) =~= a + b.push(Seq::empty()));
        } else {
            let ab = a + b;
            assert(ab.last() == b.last());
            assert(ab.update(ab.len() - 1, ab.last().push(s2.last())) =~= a + b.update(b.len() - 1, b.last().push(s2.last())));
        }
    }
}

proof fn lemma_parse_lines_add(a: Seq<Seq<char>>, b: Seq<Seq<char>>)
    ensures
        parse_lines(a + b) == parse_lines(a) + parse_lines(b),
    decreases b.len(),
{
    if b.len() == 0 {
        assert(a + b =~= a);
        assert(parse_lines(a) + Seq::<InstV>::empty() =~= parse_lines(a));
    } else {
        lemma_parse_lines_add(a, b.drop_last());
        assert((a + b).drop_last() =~= a + b.drop_last());
        assert((a + b).last() == b.last());
        let t = match parse_line(b.last()) {
            Some(i) => seq![i],
            None => Seq::empty(),
        };
        assert(parse_lines(a) + parse_lines(b.drop_last()) + t =~= parse_lines(a) + (parse_lines(b.drop_last()) + t));
    }
}

/// Reading two texts joined by a line break gives the instructions of the
/// first, then those of the second.
pub proof fn law_parse_join(s1: Seq<char>, s2: Seq<char>)
    ensures
        parse_text(s1 + "\n"@ + s2) == parse_text(s1) + parse_text(s2),
{
    reveal_strlit("\n");
    assert("\n"@ =~= seq!['\n']);
    lemma_lines_join(s1, s2);
    lemma_parse_lines_add(lines_of(s1), lines_of(s2));
}

/// No `//` stands in `x`.
pub open spec fn no_comment(x: Seq<char>) -> bool {
    forall|k: int| 0 <= k < x.len() - 1 ==> !(#[trigger] x[k] == '/' && x[k + 1] == '/')
}

proof fn lemma_strip_no_comment(x: Seq<char>, c: Seq<char>)
    requires
        no_comment(x),
        x.len() == 0 || x.last() != '/',
    ensures
        strip_comment(x + seq!['/', '/'] + c) == x,
        strip_comment(x) == x,
    decreases x.len(),
{
    let s = x + seq!['/', '/'] + c;
    if x.len() == 0 {
        assert(s[0] == '/' && s[1] == '/');
    } else {
        let r = x.drop_first();
        assert(no_comment(r)) by {
            assert forall|k: int| 0 <= k < r.len() - 1 implies !(#[trigger] r[k] == '/' && r[k + 1] == '/') by {
                assert(r[k] == x[k + 1] && r[k + 1] == x[k + 2]);
            }
        }
        lemma_strip_no_comment(r, c);
        assert(s.drop_first() =~= r + seq!['/', '/'] + c);
        if x.len() >= 2 {
            assert(!(x[0] == '/' && x[1] == '/'));
            assert(s[1] == x[1]);
        } else {
            assert(s[1] == '/');
            assert(x[0] == x.last());
        }
        assert(seq![x[0]] + r =~= x);
    }
}

/// Text without a line break is one line.
proof fn lemma_one_line(x: Seq<char>)
    requires
        forall|k: int| 0 <= k < x.len() ==> #[trigger] x[k] != '\n',
    ensures
        lines_of(x) == seq![x],
    decreases x.len(),
{
    if x.len() > 0 {
        lemma_one_line(x.drop_last());
        assert(x.last() == x[x.len() - 1]);
        assert(x.drop_last().push(x.last()) =~= x);
        assert(seq![x.drop_last()].update(0, x.drop_last().push(x.last())) =~= seq![x]);
    } else {
        assert(x =~= Seq::<char>::empty());
    }
}

/// A comment after a line changes nothing that is read from it: for a
/// line `x` and a comment `c`, neither with a line break, where `x` holds
/// no `//` and does not end in `/` (else the comment would start earlier).
pub proof fn law_parse_comment(x: Seq<char>, c: Seq<char>)
    requires
        forall|k: int| 0 <= k < x.len() ==> #[trigger] x[k] != '\n',
        forall|k: int| 0 <= k < c.len() ==> #[trigger] c[k] != '\n',
        no_comment(x),
        x.len() == 0 || x.last() != '/',
    ensures
        parse_text(x + "//"@ + c) == parse_text(x),
{
    reveal_strlit("//");
    assert("//"@ =~= seq!['/', '/']);
    let s = x + seq!['/', '/'] + c;
    assert forall|k: int| 0 <= k < s.len() implies #[trigger] s[k] != '\n' by {
        if k < x.len() {
        } else if k < x.len() + 2 {
        } else {
            assert(s[k] == c[k - x.len() - 2]);
        }
    }
    lemma_one_line(s);
    lemma_one_line(x);
    lemma_strip_no_comment(x, c);
    assert(seq![s].drop_last() =~= Seq::<Seq<char>>::empty());
    assert(seq![x].drop_last() =~= Seq::<Seq<char>>::empty());
}

} // verus!
