//! Reading Tigger programs from text, one line at a time.
//!
//! Outside a function, a line declares a global (`v0 = 5`,
//! `v1 = malloc 40`) or starts a function (`f_main [0] [4]`); inside one,
//! a line holds an instruction, and `end f_main` closes the function.
//! Lines are cut at their first `//` and split into tokens as Eeyore lines
//! are; lines that match no form are skipped.
use vstd::prelude::*;
use crate::text::{digits_value, all_digits, string_chars, chars_to_string};
use crate::eeyore::parser::{
    tokenize, strip_comment, lines_of, views_of, tok_num, tok_label, tok_fn, tok_oper, tok_uoper, tokens, strip,
    read_digits, num_tok, label_tok, tok_is, oper_tok, uoper_tok, slice, fn_tok, ident_start, ident_char, is_word,
    is_ident_char, digit,
};
use crate::tigger::inst::{
    Inst, VarD, Fn, FnV, Prog, Glo, fnm, intern, is_reg_name, spec_treg, reg_text, inst_text, vard_text,
    law_reg_name, spec_freg,
};
use crate::eeyore::parser::{
    flat, toks_of, layout_ok, slash_ok, no_slash, is_blank, piece_fine, lemma_cons, lemma_blanks, lemma_keyword,
    lemma_not_blank, lemma_int_text, lemma_label_text, lemma_oper_text, lemma_uoper_text, lemma_tokenize_layout,
    lemma_strip_layout, lemma_lits, lemma_digits_no_slash, lemma_tokenize_no_newline, lemma_lines_extend,
};
use crate::eeyore::inst::{Oper, UOper, oper_text, uoper_text};
use crate::text::{int_text, nat_text, is_digit, lemma_nat_text_digits, lemma_nat_text_value};

verus! {

/// A register.
pub open spec fn tok_reg(t: Seq<char>) -> Option<u8> {
    if is_reg_name(t) { Some(spec_treg(t) as u8) } else { None }
}

/// A global variable: `v`, then its number.
pub open spec fn tok_gvar(t: Seq<char>) -> Option<i32> {
    if t.len() >= 2 && t[0] == 'v' && all_digits(t.drop_first()) && digits_value(t.drop_first()) <= i32::MAX {
        Some(digits_value(t.drop_first()) as i32)
    } else {
        None
    }
}

/// The function named after `call`: a name (a letter or `_`, then letters,
/// digits and `_`), without its `f_` when it has one.
pub open spec fn tok_name(t: Seq<char>) -> Option<Seq<char>> {
    if !is_word(t) {
        None
    } else {
        match tok_fn(t) {
            Some(f) => Some(f),
            None => Some(t),
        }
    }
}

/// A line inside a function: an instruction, a call of a named function,
/// or the end of the function.
pub enum TLine {
    I(Inst),
    Call(Seq<char>),
    End,
}

/// A line outside functions: the start of a function (its name, its number
/// of parameters and the size of its stack), or a global.
pub enum FdLine {
    F(Seq<char>, i32, i32),
    D(VarD),
}

/// The line inside a function written by the tokens `ts`.
pub open spec fn parse_ins_tokens(ts: Seq<Seq<char>>) -> Option<TLine> {
    let n = ts.len();
    if n == 1 && ts[0] == "return"@ {
        Some(TLine::I(Inst::Rt))
    } else if n == 2 && ts[0] == "goto"@ {
        match tok_label(ts[1]) { Some(l) => Some(TLine::I(Inst::Jm(l))), None => None }
    } else if n == 2 && ts[1] == ":"@ {
        match tok_label(ts[0]) { Some(l) => Some(TLine::I(Inst::Lb(l))), None => None }
    } else if n == 2 && ts[0] == "call"@ {
        match tok_name(ts[1]) { Some(f) => Some(TLine::Call(f)), None => None }
    } else if n == 2 && ts[0] == "end"@ {
        match tok_fn(ts[1]) { Some(_) => Some(TLine::End), None => None }
    } else if n == 3 && ts[0] == "store"@ {
        match (tok_reg(ts[1]), tok_num(ts[2])) { (Some(a), Some(b)) => Some(TLine::I(Inst::Sst(a, b))), _ => None }
    } else if n == 3 && ts[0] == "load"@ {
        match (tok_gvar(ts[1]), tok_num(ts[1]), tok_reg(ts[2])) {
            (Some(v), _, Some(b)) => Some(TLine::I(Inst::Vld(v, b))),
            (None, Some(k), Some(b)) => Some(TLine::I(Inst::Sld(k, b))),
            _ => None,
        }
    } else if n == 3 && ts[0] == "loadaddr"@ {
        match (tok_gvar(ts[1]), tok_num(ts[1]), tok_reg(ts[2])) {
            (Some(v), _, Some(b)) => Some(TLine::I(Inst::Vla(v, b))),
            (None, Some(k), Some(b)) => Some(TLine::I(Inst::Sla(k, b))),
            _ => None,
        }
    } else if n == 6 && ts[0] == "if"@ && ts[4] == "goto"@ {
        match (tok_reg(ts[1]), tok_oper(ts[2]), tok_reg(ts[3]), tok_label(ts[5])) {
            (Some(a), Some(o), Some(b), Some(l)) => Some(TLine::I(Inst::Cj(a, o, b, l))),
            _ => None,
        }
    } else if n == 6 && ts[1] == "["@ && ts[3] == "]"@ && ts[4] == "="@ {
        match (tok_reg(ts[0]), tok_num(ts[2]), tok_reg(ts[5])) {
            (Some(a), Some(c), Some(d)) => Some(TLine::I(Inst::St(a, c, d))),
            _ => None,
        }
    } else if n >= 3 && ts[1] == "="@ && tok_reg(ts[0]) is Some {
        let a = tok_reg(ts[0]).unwrap();
        if n == 3 {
            match (tok_reg(ts[2]), tok_num(ts[2])) {
                (Some(b), _) => Some(TLine::I(Inst::Ts(a, b))),
                (None, Some(k)) => Some(TLine::I(Inst::Li(a, k))),
                _ => None,
            }
        } else if n == 4 {
            match (tok_uoper(ts[2]), tok_reg(ts[3])) { (Some(o), Some(d)) => Some(TLine::I(Inst::Ou(a, o, d))), _ => None }
        } else if n == 5 && ts[2] == "sp"@ && ts[3] == "+"@ {
            match tok_reg(ts[4]) { Some(b) => Some(TLine::I(Inst::Spa(a, b))), None => None }
        } else if n == 5 {
            match (tok_reg(ts[2]), tok_oper(ts[3]), tok_reg(ts[4]), tok_num(ts[4])) {
                (Some(b), Some(o), Some(d), _) => Some(TLine::I(Inst::Op(a, b, o, d))),
                (Some(b), Some(o), None, Some(k)) => Some(TLine::I(Inst::Oi(a, b, o, k))),
                _ => None,
            }
        } else if n == 6 && ts[3] == "["@ && ts[5] == "]"@ {
            match (tok_reg(ts[2]), tok_num(ts[4])) { (Some(c), Some(d)) => Some(TLine::I(Inst::Ld(a, c, d))), _ => None }
        } else {
            None
        }
    } else {
        None
    }
}

/// The line outside functions written by the tokens `ts`.
pub open spec fn parse_fd_tokens(ts: Seq<Seq<char>>) -> Option<FdLine> {
    let n = ts.len();
    if n == 7 && ts[1] == "["@ && ts[3] == "]"@ && ts[4] == "["@ && ts[6] == "]"@ {
        match (tok_fn(ts[0]), tok_num(ts[2]), tok_num(ts[5])) {
            (Some(f), Some(i), Some(j)) => Some(FdLine::F(f, i, j)),
            _ => None,
        }
    } else if n == 3 && ts[1] == "="@ {
        match (tok_gvar(ts[0]), tok_num(ts[2])) { (Some(v), Some(k)) => Some(FdLine::D(VarD::I(v, k))), _ => None }
    } else if n == 4 && ts[1] == "="@ && ts[2] == "malloc"@ {
        match (tok_gvar(ts[0]), tok_num(ts[3])) { (Some(v), Some(k)) => Some(FdLine::D(VarD::A(v, k))), _ => None }
    } else {
        None
    }
}

/// Where reading a program stands: the globals and functions read, the
/// instructions of the open function, the open function (its number,
/// parameters and stack size), and the table of function names.
pub struct PStateV {
    pub vdef: Seq<VarD>,
    pub fdef: Seq<FnV>,
    pub idef: Seq<Inst>,
    pub inf: Option<(i32, i32, i32)>,
    pub names: Seq<Seq<char>>,
}

/// The state after one more line.
pub open spec fn read_line(st: PStateV, line: Seq<char>) -> PStateV {
    match tokenize(strip_comment(line)) {
        None => st,
        Some(ts) => match st.inf {
            None => match parse_fd_tokens(ts) {
                Some(FdLine::F(f, i, j)) => {
                    let names = intern(st.names, f);
                    PStateV { inf: Some((names.index_of(f) as i32, i, j)), names: names, ..st }
                },
                Some(FdLine::D(d)) => PStateV { vdef: st.vdef.push(d), ..st },
                None => st,
            },
            Some((n, i, j)) => match parse_ins_tokens(ts) {
                Some(TLine::End) => PStateV {
                    fdef: st.fdef.push(FnV { name: n, par: i, sta: j, inst: st.idef }),
                    idef: Seq::empty(),
                    inf: None,
                    ..st
                },
                Some(TLine::I(x)) => PStateV { idef: st.idef.push(x), ..st },
                Some(TLine::Call(f)) => {
                    let names = intern(st.names, f);
                    PStateV { idef: st.idef.push(Inst::Cl(names.index_of(f) as i32)), names: names, ..st }
                },
                None => st,
            },
        },
    }
}

/// The state after the lines `ls`, in order.
pub open spec fn read_lines(st: PStateV, ls: Seq<Seq<char>>) -> PStateV
    decreases ls.len(),
{
    if ls.len() == 0 {
        st
    } else {
        read_line(read_lines(st, ls.drop_last()), ls.last())
    }
}

/// The state after reading the text `s` with the name table `names`.
pub open spec fn read_program(s: Seq<char>, names: Seq<Seq<char>>) -> PStateV {
    read_lines(PStateV { vdef: Seq::empty(), fdef: Seq::empty(), idef: Seq::empty(), inf: None, names: names }, lines_of(s))
}

// ---------------------------------------------------------------------
// Reading, executed.

fn reg_tok(t: &Vec<char>) -> (r: Option<u8>)
    ensures
        r == tok_reg(t@),
{
    if t.len() < 2 {
        return None;
    }
    let c = t[0];
    let off: u64 = if c == 'x' {
        0
    } else if c == 's' {
        1
    } else if c == 't' {
        13
    } else if c == 'a' {
        20
    } else {
        return None;
    };
    let start: usize = if t[1] == '+' { 2 } else { 1 };
    assert(t@.drop_first() =~= t@.skip(1));
    assert(t@.skip(1).drop_first() =~= t@.skip(2));
    match read_digits(t, start, 255 - off) {
        Some(v) => Some((v + off) as u8),
        None => None,
    }
}

fn gvar_tok(t: &Vec<char>) -> (r: Option<i32>)
    ensures
        r == tok_gvar(t@),
{
    if t.len() < 2 || t[0] != 'v' {
        return None;
    }
    assert(t@.drop_first() =~= t@.skip(1));
    match read_digits(t, 1, 2147483647u64) {
        Some(v) => Some(v as i32),
        None => None,
    }
}

fn name_tok(t: &Vec<char>) -> (r: Option<Vec<char>>)
    ensures
        match tok_name(t@) {
            Some(f) => r matches Some(x) && x@ == f,
            None => r is None,
        },
{
    if t.len() == 0 || !ident_start(t[0]) {
        return None;
    }
    let mut i: usize = 0;
    while i < t.len()
        invariant
            i <= t@.len(),
            forall|k: int| 0 <= k < i ==> is_ident_char(#[trigger] t@[k]),
        decreases t@.len() - i,
    {
        if !ident_char(t[i]) {
            return None;
        }
        i = i + 1;
    }
    if t.len() >= 3 && t[0] == 'f' && t[1] == '_' {
        let rest = slice(t, 2, t.len());
        assert(rest@ =~= t@.skip(2));
        Some(rest)
    } else {
        Some(slice(t, 0, t.len()))
    }
}

/// A line inside a function, as read.
enum TLineE {
    I(Inst),
    Call(Vec<char>),
    End,
}

spec fn tline_view(x: TLineE) -> TLine {
    match x {
        TLineE::I(i) => TLine::I(i),
        TLineE::Call(f) => TLine::Call(f@),
        TLineE::End => TLine::End,
    }
}

/// A line outside functions, as read.
enum FdLineE {
    F(Vec<char>, i32, i32),
    D(VarD),
}

spec fn fd_view(x: FdLineE) -> FdLine {
    match x {
        FdLineE::F(f, i, j) => FdLine::F(f@, i, j),
        FdLineE::D(d) => FdLine::D(d),
    }
}

fn parse_ins(ts: &Vec<Vec<char>>) -> (r: Option<TLineE>)
    ensures
        match parse_ins_tokens(views_of(ts@)) {
            Some(x) => r matches Some(y) && tline_view(y) == x,
            None => r is None,
        },
{
    let ghost tv = views_of(ts@);
    let n = ts.len();
    proof {
        assert forall|k: int| 0 <= k < n implies tv[k] == #[trigger] ts@[k]@ by {}
    }
    if n == 1 && tok_is(&ts[0], "return") {
        return Some(TLineE::I(Inst::Rt));
    }
    if n == 2 && tok_is(&ts[0], "goto") {
        return match label_tok(&ts[1]) { Some(l) => Some(TLineE::I(Inst::Jm(l))), None => None };
    }
    if n == 2 && tok_is(&ts[1], ":") {
        return match label_tok(&ts[0]) { Some(l) => Some(TLineE::I(Inst::Lb(l))), None => None };
    }
    if n == 2 && tok_is(&ts[0], "call") {
        return match name_tok(&ts[1]) { Some(f) => Some(TLineE::Call(f)), None => None };
    }
    if n == 2 && tok_is(&ts[0], "end") {
        return match fn_tok(&ts[1]) { Some(_) => Some(TLineE::End), None => None };
    }
    if n == 3 && tok_is(&ts[0], "store") {
        return match (reg_tok(&ts[1]), num_tok(&ts[2])) { (Some(a), Some(b)) => Some(TLineE::I(Inst::Sst(a, b))), _ => None };
    }
    if n == 3 && tok_is(&ts[0], "load") {
        return match (gvar_tok(&ts[1]), num_tok(&ts[1]), reg_tok(&ts[2])) {
            (Some(v), _, Some(b)) => Some(TLineE::I(Inst::Vld(v, b))),
            (None, Some(k), Some(b)) => Some(TLineE::I(Inst::Sld(k, b))),
            _ => None,
        };
    }
    if n == 3 && tok_is(&ts[0], "loadaddr") {
        return match (gvar_tok(&ts[1]), num_tok(&ts[1]), reg_tok(&ts[2])) {
            (Some(v), _, Some(b)) => Some(TLineE::I(Inst::Vla(v, b))),
            (None, Some(k), Some(b)) => Some(TLineE::I(Inst::Sla(k, b))),
            _ => None,
        };
    }
    if n == 6 && tok_is(&ts[0], "if") && tok_is(&ts[4], "goto") {
        return match (reg_tok(&ts[1]), oper_tok(&ts[2]), reg_tok(&ts[3]), label_tok(&ts[5])) {
            (Some(a), Some(o), Some(b), Some(l)) => Some(TLineE::I(Inst::Cj(a, o, b, l))),
            _ => None,
        };
    }
    if n == 6 && tok_is(&ts[1], "[") && tok_is(&ts[3], "]") && tok_is(&ts[4], "=") {
        return match (reg_tok(&ts[0]), num_tok(&ts[2]), reg_tok(&ts[5])) {
            (Some(a), Some(c), Some(d)) => Some(TLineE::I(Inst::St(a, c, d))),
            _ => None,
        };
    }
    if n >= 3 && tok_is(&ts[1], "=") {
        if let Some(a) = reg_tok(&ts[0]) {
            if n == 3 {
                return match (reg_tok(&ts[2]), num_tok(&ts[2])) {
                    (Some(b), _) => Some(TLineE::I(Inst::Ts(a, b))),
                    (None, Some(k)) => Some(TLineE::I(Inst::Li(a, k))),
                    _ => None,
                };
            } else if n == 4 {
                return match (uoper_tok(&ts[2]), reg_tok(&ts[3])) { (Some(o), Some(d)) => Some(TLineE::I(Inst::Ou(a, o, d))), _ => None };
            } else if n == 5 && tok_is(&ts[2], "sp") && tok_is(&ts[3], "+") {
                return match reg_tok(&ts[4]) { Some(b) => Some(TLineE::I(Inst::Spa(a, b))), None => None };
            } else if n == 5 {
                return match (reg_tok(&ts[2]), oper_tok(&ts[3]), reg_tok(&ts[4]), num_tok(&ts[4])) {
                    (Some(b), Some(o), Some(d), _) => Some(TLineE::I(Inst::Op(a, b, o, d))),
                    (Some(b), Some(o), None, Some(k)) => Some(TLineE::I(Inst::Oi(a, b, o, k))),
                    _ => None,
                };
            } else if n == 6 && tok_is(&ts[3], "[") && tok_is(&ts[5], "]") {
                return match (reg_tok(&ts[2]), num_tok(&ts[4])) { (Some(c), Some(d)) => Some(TLineE::I(Inst::Ld(a, c, d))), _ => None };
            } else {
                return None;
            }
        }
    }
    None
}

fn parse_fd(ts: &Vec<Vec<char>>) -> (r: Option<FdLineE>)
    ensures
        match parse_fd_tokens(views_of(ts@)) {
            Some(x) => r matches Some(y) && fd_view(y) == x,
            None => r is None,
        },
{
    let ghost tv = views_of(ts@);
    let n = ts.len();
    proof {
        assert forall|k: int| 0 <= k < n implies tv[k] == #[trigger] ts@[k]@ by {}
    }
    if n == 7 && tok_is(&ts[1], "[") && tok_is(&ts[3], "]") && tok_is(&ts[4], "[") && tok_is(&ts[6], "]") {
        return match (fn_tok(&ts[0]), num_tok(&ts[2]), num_tok(&ts[5])) {
            (Some(f), Some(i), Some(j)) => Some(FdLineE::F(string_chars(f.0.as_str()), i, j)),
            _ => None,
        };
    }
    if n == 3 && tok_is(&ts[1], "=") {
        return match (gvar_tok(&ts[0]), num_tok(&ts[2])) { (Some(v), Some(k)) => Some(FdLineE::D(VarD::I(v, k))), _ => None };
    }
    if n == 4 && tok_is(&ts[1], "=") && tok_is(&ts[2], "malloc") {
        return match (gvar_tok(&ts[0]), num_tok(&ts[3])) { (Some(v), Some(k)) => Some(FdLineE::D(VarD::A(v, k))), _ => None };
    }
    None
}

/// The functions read, as views.
pub open spec fn fns_view(f: Seq<Fn>) -> Seq<FnV> {
    Seq::new(f.len(), |k: int| f[k]@)
}

/// Where reading stands.
struct PState {
    vdef: Vec<VarD>,
    fdef: Vec<Fn>,
    idef: Vec<Inst>,
    inf: Option<(i32, i32, i32)>,
}

spec fn pstate_view(s: PState, names: Seq<Seq<char>>) -> PStateV {
    PStateV { vdef: s.vdef@, fdef: fns_view(s.fdef@), idef: s.idef@, inf: s.inf, names: names }
}

impl PState {
    /// Reads one more line.
    fn line(&mut self, l: &Vec<char>, glo: &mut Glo)
        requires
            old(glo).wf(),
            old(glo).names().len() < i32::MAX,
        ensures
            final(glo).wf(),
            final(glo).names().len() <= old(glo).names().len() + 1,
            pstate_view(*final(self), final(glo).names()) == read_line(pstate_view(*old(self), old(glo).names()), l@),
    {
        let ghost st = pstate_view(*self, glo.names());
        let c = strip(l);
        let ts = match tokens(&c) {
            Some(ts) => ts,
            None => return,
        };
        match self.inf {
            None => match parse_fd(&ts) {
                Some(FdLineE::F(f, i, j)) => {
                    let name = chars_to_string(f);
                    let id = fnm(glo, name.as_str());
                    self.inf = Some((id, i, j));
                },
                Some(FdLineE::D(d)) => {
                    self.vdef.push(d);
                },
                None => {},
            },
            Some((n, i, j)) => match parse_ins(&ts) {
                Some(TLineE::End) => {
                    let mut body: Vec<Inst> = Vec::new();
                    std::mem::swap(&mut body, &mut self.idef);
                    let ghost before = self.fdef@;
                    let f = Fn { name: n, par: i, sta: j, inst: body };
                    self.fdef.push(f);
                    assert(fns_view(self.fdef@) =~= fns_view(before).push(f@));
                    self.inf = None;
                    assert(self.idef@ =~= Seq::<Inst>::empty());
                },
                Some(TLineE::I(x)) => {
                    self.idef.push(x);
                },
                Some(TLineE::Call(f)) => {
                    let name = chars_to_string(f);
                    let id = fnm(glo, name.as_str());
                    self.idef.push(Inst::Cl(id));
                },
                None => {},
            },
        }
    }
}

impl Prog {
    /// Reads a program from text; function names are numbered in `glo`.
    /// Lines that match no form are skipped, and a function without its
    /// `end` line is dropped.
    pub fn parse(a: String, glo: &mut Glo) -> (p: Prog)
        requires
            old(glo).wf(),
            a@.len() + old(glo).names().len() < i32::MAX,
        ensures
            final(glo).wf(),
            final(glo).names() == read_program(a@, old(glo).names()).names,
            p.vdef@ == read_program(a@, old(glo).names()).vdef,
            fns_view(p.fdef@) == read_program(a@, old(glo).names()).fdef,
    {
        let ghost names0 = glo.names();
        let s = string_chars(a.as_str());
        let mut st = PState { vdef: Vec::new(), fdef: Vec::new(), idef: Vec::new(), inf: None };
        let ghost init = pstate_view(st, names0);
        assert(fns_view(st.fdef@) =~= Seq::<FnV>::empty());
        let mut cur: Vec<char> = Vec::new();
        let mut i: usize = 0;
        assert(s@.take(0) =~= Seq::<char>::empty());
        while i < s.len()
            invariant
                i <= s@.len(),
                s@ == a@,
                s@.len() + names0.len() < i32::MAX,
                glo.wf(),
                glo.names().len() <= names0.len() + i,
                lines_of(s@.take(i as int)).len() > 0,
                cur@ == lines_of(s@.take(i as int)).last(),
                init == (PStateV { vdef: Seq::empty(), fdef: Seq::empty(), idef: Seq::empty(), inf: None, names: names0 }),
                pstate_view(st, glo.names()) == read_lines(init, lines_of(s@.take(i as int)).drop_last()),
            decreases s@.len() - i,
        {
            let ghost ls = lines_of(s@.take(i as int));
            let c = s[i];
            assert(s@.take(i + 1).drop_last() =~= s@.take(i as int));
            assert(s@.take(i + 1).last() == c);
            if c == '\n' {
                st.line(&cur, glo);
                cur = Vec::new();
                assert(ls.push(Seq::empty()).drop_last() =~= ls);
                assert(ls.drop_last().push(ls.last()) =~= ls);
                assert(cur@ =~= Seq::<char>::empty());
            } else {
                cur.push(c);
                let ghost nl = ls.update(ls.len() - 1, ls.last().push(c));
                assert(nl.drop_last() =~= ls.drop_last());
            }
            i = i + 1;
        }
        assert(s@.take(i as int) =~= s@);
        let ghost ls = lines_of(s@);
        st.line(&cur, glo);
        assert(ls.drop_last().push(ls.last()) =~= ls);
        Prog { vdef: st.vdef, fdef: st.fdef }
    }
}

// ---------------------------------------------------------------------
// Reading back what was written.

/// The line inside a function on a line of text.
pub open spec fn parse_ins_line(l: Seq<char>) -> Option<TLine> {
    match tokenize(strip_comment(l)) {
        Some(ts) => parse_ins_tokens(ts),
        None => None,
    }
}

/// The line outside functions on a line of text.
pub open spec fn parse_fd_line(l: Seq<char>) -> Option<FdLine> {
    match tokenize(strip_comment(l)) {
        Some(ts) => parse_fd_tokens(ts),
        None => None,
    }
}

/// An instruction whose text reads back: its labels and globals have
/// numbers of at least 0, a called function has a registered name that is
/// a word not starting with `f_`, and it is not the end marker (which has
/// no text).
pub open spec fn tinst_ok(i: Inst, names: Seq<Seq<char>>) -> bool {
    match i {
        Inst::Cj(_, _, _, d) => d >= 0,
        Inst::Jm(a) => a >= 0,
        Inst::Lb(a) => a >= 0,
        Inst::Cl(a) => 0 <= a < names.len() && is_word(names[a as int]) && tok_fn(names[a as int]) is None,
        Inst::Vld(a, _) => a >= 0,
        Inst::Vla(a, _) => a >= 0,
        Inst::Edf => false,
        _ => true,
    }
}

/// What reading the text of an instruction gives.
pub open spec fn tline_of(i: Inst, names: Seq<Seq<char>>) -> TLine {
    match i {
        Inst::Cl(a) => TLine::Call(names[a as int]),
        _ => TLine::I(i),
    }
}

proof fn lemma_reg_text(a: u8)
    ensures
        is_word(reg_text(a)),
        no_slash(reg_text(a)),
        tok_reg(reg_text(a)) == Some(a),
        reg_text(a).len() >= 2,
        is_digit(reg_text(a)[1]),
        !is_blank(reg_text(a)),
        tok_num(reg_text(a)) is None,
{
    law_reg_name(a);
    let (c, k) = spec_freg(a);
    let t = reg_text(a);
    lemma_nat_text_digits(k as nat);
    assert(t.drop_first() =~= nat_text(k as nat));
    lemma_digits_no_slash(nat_text(k as nat));
    assert(t[1] == nat_text(k as nat)[0]);
    assert forall|j: int| 0 <= j < t.len() implies #[trigger] t[j] != '/' && is_ident_char(t[j]) by {
        if j > 0 {
            assert(t[j] == nat_text(k as nat)[j - 1]);
        }
    }
    lemma_not_blank(t);
    assert(!is_digit(t[0]));
}

proof fn lemma_gvar_text(a: i32)
    requires
        a >= 0,
    ensures
        is_word(seq!['v'] + int_text(a as int)),
        no_slash(seq!['v'] + int_text(a as int)),
        tok_gvar(seq!['v'] + int_text(a as int)) == Some(a),
        tok_reg(seq!['v'] + int_text(a as int)) is None,
        (seq!['v'] + int_text(a as int)).len() >= 2,
        is_digit((seq!['v'] + int_text(a as int))[1]),
        !is_blank(seq!['v'] + int_text(a as int)),
{
    let t = seq!['v'] + int_text(a as int);
    let m = a as nat;
    lemma_nat_text_digits(m);
    lemma_nat_text_value(m);
    assert(t.drop_first() =~= nat_text(m));
    lemma_digits_no_slash(nat_text(m));
    assert(t[1] == nat_text(m)[0]);
    assert forall|j: int| 0 <= j < t.len() implies #[trigger] t[j] != '/' && is_ident_char(t[j]) by {
        if j > 0 {
            assert(t[j] == nat_text(m)[j - 1]);
        }
    }
    lemma_not_blank(t);
}

proof fn lemma_num_text(n: i32)
    ensures
        tok_reg(int_text(n as int)) is None,
        tok_gvar(int_text(n as int)) is None,
        !is_blank(int_text(n as int)),
{
    lemma_int_text(n);
    let t = int_text(n as int);
    lemma_not_blank(t);
}

proof fn lemma_label_more(l: i32)
    requires
        l >= 0,
    ensures
        (seq!['l'] + int_text(l as int)).len() >= 2,
        is_digit((seq!['l'] + int_text(l as int))[1]),
        !is_blank(seq!['l'] + int_text(l as int)),
{
    lemma_int_text(l);
    lemma_nat_text_digits(l as nat);
    assert((seq!['l'] + int_text(l as int))[1] == int_text(l as int)[0]);
    lemma_not_blank(seq!['l'] + int_text(l as int));
}

/// A token that starts with a digit or `-`, or has a digit after its first
/// character, is no keyword and no one-character token.
proof fn lemma_not_tkw(t: Seq<char>)
    requires
        t.len() > 0,
        t[0] == '-' || is_digit(t[0]) || (t.len() >= 2 && is_digit(t[1])),
    ensures
        t != "return"@, t != "goto"@, t != "call"@, t != "end"@, t != "store"@, t != "load"@,
        t != "loadaddr"@, t != "if"@, t != "sp"@, t != "malloc"@, t != ":"@, t != "="@, t != "["@, t != "]"@,
        t != "+"@,
{
    reveal_strlit("return");
    reveal_strlit("goto");
    reveal_strlit("call");
    reveal_strlit("end");
    reveal_strlit("store");
    reveal_strlit("load");
    reveal_strlit("loadaddr");
    reveal_strlit("if");
    reveal_strlit("sp");
    reveal_strlit("malloc");
    reveal_strlit(":");
    reveal_strlit("=");
    reveal_strlit("[");
    reveal_strlit("]");
    reveal_strlit("+");
}

proof fn lemma_tlits()
    ensures
        seq!['+'] == "+"@,
{
    reveal_strlit("+");
    assert(seq!['+'] =~= "+"@);
}

proof fn lemma_tkeywords()
    ensures
        piece_fine("return"@), no_slash("return"@), !is_blank("return"@),
        piece_fine("goto"@), no_slash("goto"@), !is_blank("goto"@),
        piece_fine("call"@), no_slash("call"@), !is_blank("call"@),
        piece_fine("store"@), no_slash("store"@), !is_blank("store"@),
        piece_fine("load"@), no_slash("load"@), !is_blank("load"@),
        piece_fine("loadaddr"@), no_slash("loadaddr"@), !is_blank("loadaddr"@),
        piece_fine("if"@), no_slash("if"@), !is_blank("if"@),
        piece_fine("sp"@), no_slash("sp"@), !is_blank("sp"@),
        piece_fine("malloc"@), no_slash("malloc"@), !is_blank("malloc"@),
        piece_fine(seq!['+']), no_slash(seq!['+']), !is_blank(seq!['+']),
{
    reveal_strlit("return");
    reveal_strlit("goto");
    reveal_strlit("call");
    reveal_strlit("store");
    reveal_strlit("load");
    reveal_strlit("loadaddr");
    reveal_strlit("if");
    reveal_strlit("sp");
    reveal_strlit("malloc");
    lemma_keyword("return"@);
    lemma_keyword("goto"@);
    lemma_keyword("call"@);
    lemma_keyword("store"@);
    lemma_keyword("load"@);
    lemma_keyword("loadaddr"@);
    lemma_keyword("if"@);
    lemma_keyword("sp"@);
    lemma_keyword("malloc"@);
    lemma_not_blank(seq!['+']);
    assert(crate::eeyore::parser::is_op(seq!['+']));
}

proof fn lemma_name_piece(f: Seq<char>)
    requires
        is_word(f),
        tok_fn(f) is None,
    ensures
        piece_fine(f),
        no_slash(f),
        !is_blank(f),
        tok_name(f) == Some(f),
{
    assert forall|j: int| 0 <= j < f.len() implies #[trigger] f[j] != '/' by {
        assert(is_ident_char(f[j]));
    }
    lemma_not_blank(f);
}


#[verifier::spinoff_prover]
#[verifier::rlimit(100)]
proof fn lemma_tlay_op(a: u8, b: u8, c: Oper, d: u8, names: Seq<Seq<char>>)
    ensures
        layout_ok(seq![reg_text(a), seq![' '], seq!['='], seq![' '], reg_text(b), seq![' '], oper_text(c), seq![' '], reg_text(d)]),
        slash_ok(seq![reg_text(a), seq![' '], seq!['='], seq![' '], reg_text(b), seq![' '], oper_text(c), seq![' '], reg_text(d)]),
        flat(seq![reg_text(a), seq![' '], seq!['='], seq![' '], reg_text(b), seq![' '], oper_text(c), seq![' '], reg_text(d)]) == inst_text(Inst::Op(a, b, c, d), names),
        toks_of(seq![reg_text(a), seq![' '], seq!['='], seq![' '], reg_text(b), seq![' '], oper_text(c), seq![' '], reg_text(d)]) == seq![reg_text(a), seq!['='], reg_text(b), oper_text(c), reg_text(d)],
{
    lemma_blanks();
    lemma_tkeywords();
    lemma_reg_text(a);
    lemma_reg_text(b);
    lemma_oper_text(c);
    lemma_not_blank(oper_text(c));
    lemma_reg_text(d);
    reveal_strlit(" = ");
    reveal_strlit(" ");
    let q9 = Seq::<Seq<char>>::empty();
    lemma_cons(reg_text(d), q9);
    let q8 = seq![reg_text(d)] + q9;
    lemma_cons(seq![' '], q8);
    let q7 = seq![seq![' ']] + q8;
    lemma_cons(oper_text(c), q7);
    let q6 = seq![oper_text(c)] + q7;
    lemma_cons(seq![' '], q6);
    let q5 = seq![seq![' ']] + q6;
    lemma_cons(reg_text(b), q5);
    let q4 = seq![reg_text(b)] + q5;
    lemma_cons(seq![' '], q4);
    let q3 = seq![seq![' ']] + q4;
    lemma_cons(seq!['='], q3);
    let q2 = seq![seq!['=']] + q3;
    lemma_cons(seq![' '], q2);
    let q1 = seq![seq![' ']] + q2;
    lemma_cons(reg_text(a), q1);
    let q0 = seq![reg_text(a)] + q1;
    assert(q0 =~= seq![reg_text(a), seq![' '], seq!['='], seq![' '], reg_text(b), seq![' '], oper_text(c), seq![' '], reg_text(d)]);
    assert(flat(q0) =~= inst_text(Inst::Op(a, b, c, d), names));
    assert(toks_of(q0) =~= seq![reg_text(a), seq!['='], reg_text(b), oper_text(c), reg_text(d)]);
}

proof fn lemma_ttoks_op(a: u8, b: u8, c: Oper, d: u8, names: Seq<Seq<char>>)
    ensures
        strip_comment(inst_text(Inst::Op(a, b, c, d), names)) == inst_text(Inst::Op(a, b, c, d), names),
        tokenize(inst_text(Inst::Op(a, b, c, d), names)) == Some(seq![reg_text(a), seq!['='], reg_text(b), oper_text(c), reg_text(d)]),
{
    lemma_tlay_op(a, b, c, d, names);
    lemma_tokenize_layout(seq![reg_text(a), seq![' '], seq!['='], seq![' '], reg_text(b), seq![' '], oper_text(c), seq![' '], reg_text(d)]);
    lemma_strip_layout(seq![reg_text(a), seq![' '], seq!['='], seq![' '], reg_text(b), seq![' '], oper_text(c), seq![' '], reg_text(d)]);
}

#[verifier::spinoff_prover]
#[verifier::rlimit(100)]
proof fn lemma_tread_op(a: u8, b: u8, c: Oper, d: u8, names: Seq<Seq<char>>)
    ensures
        parse_ins_line(inst_text(Inst::Op(a, b, c, d), names)) == Some(tline_of(Inst::Op(a, b, c, d), names)),
{
    lemma_ttoks_op(a, b, c, d, names);
    lemma_lits();
    lemma_tlits();
    lemma_reg_text(a);
    lemma_not_tkw(reg_text(a));
    lemma_reg_text(b);
    lemma_not_tkw(reg_text(b));
    lemma_oper_text(c);
    lemma_reg_text(d);
    lemma_not_tkw(reg_text(d));
    reveal_strlit("return");
    reveal_strlit("goto");
    reveal_strlit(":");
    reveal_strlit("call");
    reveal_strlit("end");
    reveal_strlit("store");
    reveal_strlit("load");
    reveal_strlit("loadaddr");
    reveal_strlit("if");
    reveal_strlit("[");
    reveal_strlit("]");
    reveal_strlit("=");
    reveal_strlit("sp");
    reveal_strlit("+");
    reveal_strlit("malloc");
}

#[verifier::spinoff_prover]
#[verifier::rlimit(100)]
proof fn lemma_tlay_oi(a: u8, b: u8, c: Oper, d: i32, names: Seq<Seq<char>>)
    ensures
        layout_ok(seq![reg_text(a), seq![' '], seq!['='], seq![' '], reg_text(b), seq![' '], oper_text(c), seq![' '], int_text(d as int)]),
        slash_ok(seq![reg_text(a), seq![' '], seq!['='], seq![' '], reg_text(b), seq![' '], oper_text(c), seq![' '], int_text(d as int)]),
        flat(seq![reg_text(a), seq![' '], seq!['='], seq![' '], reg_text(b), seq![' '], oper_text(c), seq![' '], int_text(d as int)]) == inst_text(Inst::Oi(a, b, c, d), names),
        toks_of(seq![reg_text(a), seq![' '], seq!['='], seq![' '], reg_text(b), seq![' '], oper_text(c), seq![' '], int_text(d as int)]) == seq![reg_text(a), seq!['='], reg_text(b), oper_text(c), int_text(d as int)],
{
    lemma_blanks();
    lemma_tkeywords();
    lemma_reg_text(a);
    lemma_reg_text(b);
    lemma_oper_text(c);
    lemma_not_blank(oper_text(c));
    lemma_int_text(d);
    lemma_num_text(d);
    reveal_strlit(" = ");
    reveal_strlit(" ");
    let q9 = Seq::<Seq<char>>::empty();
    lemma_cons(int_text(d as int), q9);
    let q8 = seq![int_text(d as int)] + q9;
    lemma_cons(seq![' '], q8);
    let q7 = seq![seq![' ']] + q8;
    lemma_cons(oper_text(c), q7);
    let q6 = seq![oper_text(c)] + q7;
    lemma_cons(seq![' '], q6);
    let q5 = seq![seq![' ']] + q6;
    lemma_cons(reg_text(b), q5);
    let q4 = seq![reg_text(b)] + q5;
    lemma_cons(seq![' '], q4);
    let q3 = seq![seq![' ']] + q4;
    lemma_cons(seq!['='], q3);
    let q2 = seq![seq!['=']] + q3;
    lemma_cons(seq![' '], q2);
    let q1 = seq![seq![' ']] + q2;
    lemma_cons(reg_text(a), q1);
    let q0 = seq![reg_text(a)] + q1;
    assert(q0 =~= seq![reg_text(a), seq![' '], seq!['='], seq![' '], reg_text(b), seq![' '], oper_text(c), seq![' '], int_text(d as int)]);
    assert(flat(q0) =~= inst_text(Inst::Oi(a, b, c, d), names));
    assert(toks_of(q0) =~= seq![reg_text(a), seq!['='], reg_text(b), oper_text(c), int_text(d as int)]);
}

proof fn lemma_ttoks_oi(a: u8, b: u8, c: Oper, d: i32, names: Seq<Seq<char>>)
    ensures
        strip_comment(inst_text(Inst::Oi(a, b, c, d), names)) == inst_text(Inst::Oi(a, b, c, d), names),
        tokenize(inst_text(Inst::Oi(a, b, c, d), names)) == Some(seq![reg_text(a), seq!['='], reg_text(b), oper_text(c), int_text(d as int)]),
{
    lemma_tlay_oi(a, b, c, d, names);
    lemma_tokenize_layout(seq![reg_text(a), seq![' '], seq!['='], seq![' '], reg_text(b), seq![' '], oper_text(c), seq![' '], int_text(d as int)]);
    lemma_strip_layout(seq![reg_text(a), seq![' '], seq!['='], seq![' '], reg_text(b), seq![' '], oper_text(c), seq![' '], int_text(d as int)]);
}

#[verifier::spinoff_prover]
#[verifier::rlimit(100)]
proof fn lemma_tread_oi(a: u8, b: u8, c: Oper, d: i32, names: Seq<Seq<char>>)
    ensures
        parse_ins_line(inst_text(Inst::Oi(a, b, c, d), names)) == Some(tline_of(Inst::Oi(a, b, c, d), names)),
{
    lemma_ttoks_oi(a, b, c, d, names);
    lemma_lits();
    lemma_tlits();
    lemma_reg_text(a);
    lemma_not_tkw(reg_text(a));
    lemma_reg_text(b);
    lemma_not_tkw(reg_text(b));
    lemma_oper_text(c);
    lemma_int_text(d);
    lemma_num_text(d);
    lemma_not_tkw(int_text(d as int));
    reveal_strlit("return");
    reveal_strlit("goto");
    reveal_strlit(":");
    reveal_strlit("call");
    reveal_strlit("end");
    reveal_strlit("store");
    reveal_strlit("load");
    reveal_strlit("loadaddr");
    reveal_strlit("if");
    reveal_strlit("[");
    reveal_strlit("]");
    reveal_strlit("=");
    reveal_strlit("sp");
    reveal_strlit("+");
    reveal_strlit("malloc");
}

#[verifier::spinoff_prover]
#[verifier::rlimit(100)]
proof fn lemma_tlay_ou(a: u8, c: UOper, d: u8, names: Seq<Seq<char>>)
    ensures
        layout_ok(seq![reg_text(a), seq![' '], seq!['='], seq![' '], uoper_text(c), seq![' '], reg_text(d)]),
        slash_ok(seq![reg_text(a), seq![' '], seq!['='], seq![' '], uoper_text(c), seq![' '], reg_text(d)]),
        flat(seq![reg_text(a), seq![' '], seq!['='], seq![' '], uoper_text(c), seq![' '], reg_text(d)]) == inst_text(Inst::Ou(a, c, d), names),
        toks_of(seq![reg_text(a), seq![' '], seq!['='], seq![' '], uoper_text(c), seq![' '], reg_text(d)]) == seq![reg_text(a), seq!['='], uoper_text(c), reg_text(d)],
{
    lemma_blanks();
    lemma_tkeywords();
    lemma_reg_text(a);
    lemma_uoper_text(c);
    lemma_not_blank(uoper_text(c));
    lemma_reg_text(d);
    reveal_strlit(" = ");
    reveal_strlit(" ");
    let q7 = Seq::<Seq<char>>::empty();
    lemma_cons(reg_text(d), q7);
    let q6 = seq![reg_text(d)] + q7;
    lemma_cons(seq![' '], q6);
    let q5 = seq![seq![' ']] + q6;
    lemma_cons(uoper_text(c), q5);
    let q4 = seq![uoper_text(c)] + q5;
    lemma_cons(seq![' '], q4);
    let q3 = seq![seq![' ']] + q4;
    lemma_cons(seq!['='], q3);
    let q2 = seq![seq!['=']] + q3;
    lemma_cons(seq![' '], q2);
    let q1 = seq![seq![' ']] + q2;
    lemma_cons(reg_text(a), q1);
    let q0 = seq![reg_text(a)] + q1;
    assert(q0 =~= seq![reg_text(a), seq![' '], seq!['='], seq![' '], uoper_text(c), seq![' '], reg_text(d)]);
    assert(flat(q0) =~= inst_text(Inst::Ou(a, c, d), names));
    assert(toks_of(q0) =~= seq![reg_text(a), seq!['='], uoper_text(c), reg_text(d)]);
}

proof fn lemma_ttoks_ou(a: u8, c: UOper, d: u8, names: Seq<Seq<char>>)
    ensures
        strip_comment(inst_text(Inst::Ou(a, c, d), names)) == inst_text(Inst::Ou(a, c, d), names),
        tokenize(inst_text(Inst::Ou(a, c, d), names)) == Some(seq![reg_text(a), seq!['='], uoper_text(c), reg_text(d)]),
{
    lemma_tlay_ou(a, c, d, names);
    lemma_tokenize_layout(seq![reg_text(a), seq![' '], seq!['='], seq![' '], uoper_text(c), seq![' '], reg_text(d)]);
    lemma_strip_layout(seq![reg_text(a), seq![' '], seq!['='], seq![' '], uoper_text(c), seq![' '], reg_text(d)]);
}

#[verifier::spinoff_prover]
#[verifier::rlimit(100)]
proof fn lemma_tread_ou(a: u8, c: UOper, d: u8, names: Seq<Seq<char>>)
    ensures
        parse_ins_line(inst_text(Inst::Ou(a, c, d), names)) == Some(tline_of(Inst::Ou(a, c, d), names)),
{
    lemma_ttoks_ou(a, c, d, names);
    lemma_lits();
    lemma_tlits();
    lemma_reg_text(a);
    lemma_not_tkw(reg_text(a));
    lemma_uoper_text(c);
    lemma_reg_text(d);
    lemma_not_tkw(reg_text(d));
    reveal_strlit("return");
    reveal_strlit("goto");
    reveal_strlit(":");
    reveal_strlit("call");
    reveal_strlit("end");
    reveal_strlit("store");
    reveal_strlit("load");
    reveal_strlit("loadaddr");
    reveal_strlit("if");
    reveal_strlit("[");
    reveal_strlit("]");
    reveal_strlit("=");
    reveal_strlit("sp");
    reveal_strlit("+");
    reveal_strlit("malloc");
}

#[verifier::spinoff_prover]
#[verifier::rlimit(100)]
proof fn lemma_tlay_ts(a: u8, b: u8, names: Seq<Seq<char>>)
    ensures
        layout_ok(seq![reg_text(a), seq![' '], seq!['='], seq![' '], reg_text(b)]),
        slash_ok(seq![reg_text(a), seq![' '], seq!['='], seq![' '], reg_text(b)]),
        flat(seq![reg_text(a), seq![' '], seq!['='], seq![' '], reg_text(b)]) == inst_text(Inst::Ts(a, b), names),
        toks_of(seq![reg_text(a), seq![' '], seq!['='], seq![' '], reg_text(b)]) == seq![reg_text(a), seq!['='], reg_text(b)],
{
    lemma_blanks();
    lemma_tkeywords();
    lemma_reg_text(a);
    lemma_reg_text(b);
    reveal_strlit(" = ");
    let q5 = Seq::<Seq<char>>::empty();
    lemma_cons(reg_text(b), q5);
    let q4 = seq![reg_text(b)] + q5;
    lemma_cons(seq![' '], q4);
    let q3 = seq![seq![' ']] + q4;
    lemma_cons(seq!['='], q3);
    let q2 = seq![seq!['=']] + q3;
    lemma_cons(seq![' '], q2);
    let q1 = seq![seq![' ']] + q2;
    lemma_cons(reg_text(a), q1);
    let q0 = seq![reg_text(a)] + q1;
    assert(q0 =~= seq![reg_text(a), seq![' '], seq!['='], seq![' '], reg_text(b)]);
    assert(flat(q0) =~= inst_text(Inst::Ts(a, b), names));
    assert(toks_of(q0) =~= seq![reg_text(a), seq!['='], reg_text(b)]);
}

proof fn lemma_ttoks_ts(a: u8, b: u8, names: Seq<Seq<char>>)
    ensures
        strip_comment(inst_text(Inst::Ts(a, b), names)) == inst_text(Inst::Ts(a, b), names),
        tokenize(inst_text(Inst::Ts(a, b), names)) == Some(seq![reg_text(a), seq!['='], reg_text(b)]),
{
    lemma_tlay_ts(a, b, names);
    lemma_tokenize_layout(seq![reg_text(a), seq![' '], seq!['='], seq![' '], reg_text(b)]);
    lemma_strip_layout(seq![reg_text(a), seq![' '], seq!['='], seq![' '], reg_text(b)]);
}

#[verifier::spinoff_prover]
#[verifier::rlimit(100)]
proof fn lemma_tread_ts(a: u8, b: u8, names: Seq<Seq<char>>)
    ensures
        parse_ins_line(inst_text(Inst::Ts(a, b), names)) == Some(tline_of(Inst::Ts(a, b), names)),
{
    lemma_ttoks_ts(a, b, names);
    lemma_lits();
    lemma_tlits();
    lemma_reg_text(a);
    lemma_not_tkw(reg_text(a));
    lemma_reg_text(b);
    lemma_not_tkw(reg_text(b));
    reveal_strlit("return");
    reveal_strlit("goto");
    reveal_strlit(":");
    reveal_strlit("call");
    reveal_strlit("end");
    reveal_strlit("store");
    reveal_strlit("load");
    reveal_strlit("loadaddr");
    reveal_strlit("if");
    reveal_strlit("[");
    reveal_strlit("]");
    reveal_strlit("=");
    reveal_strlit("sp");
    reveal_strlit("+");
    reveal_strlit("malloc");
}

#[verifier::spinoff_prover]
#[verifier::rlimit(100)]
proof fn lemma_tlay_li(a: u8, b: i32, names: Seq<Seq<char>>)
    ensures
        layout_ok(seq![reg_text(a), seq![' '], seq!['='], seq![' '], int_text(b as int)]),
        slash_ok(seq![reg_text(a), seq![' '], seq!['='], seq![' '], int_text(b as int)]),
        flat(seq![reg_text(a), seq![' '], seq!['='], seq![' '], int_text(b as int)]) == inst_text(Inst::Li(a, b), names),
        toks_of(seq![reg_text(a), seq![' '], seq!['='], seq![' '], int_text(b as int)]) == seq![reg_text(a), seq!['='], int_text(b as int)],
{
    lemma_blanks();
    lemma_tkeywords();
    lemma_reg_text(a);
    lemma_int_text(b);
    lemma_num_text(b);
    reveal_strlit(" = ");
    let q5 = Seq::<Seq<char>>::empty();
    lemma_cons(int_text(b as int), q5);
    let q4 = seq![int_text(b as int)] + q5;
    lemma_cons(seq![' '], q4);
    let q3 = seq![seq![' ']] + q4;
    lemma_cons(seq!['='], q3);
    let q2 = seq![seq!['=']] + q3;
    lemma_cons(seq![' '], q2);
    let q1 = seq![seq![' ']] + q2;
    lemma_cons(reg_text(a), q1);
    let q0 = seq![reg_text(a)] + q1;
    assert(q0 =~= seq![reg_text(a), seq![' '], seq!['='], seq![' '], int_text(b as int)]);
    assert(flat(q0) =~= inst_text(Inst::Li(a, b), names));
    assert(toks_of(q0) =~= seq![reg_text(a), seq!['='], int_text(b as int)]);
}

proof fn lemma_ttoks_li(a: u8, b: i32, names: Seq<Seq<char>>)
    ensures
        strip_comment(inst_text(Inst::Li(a, b), names)) == inst_text(Inst::Li(a, b), names),
        tokenize(inst_text(Inst::Li(a, b), names)) == Some(seq![reg_text(a), seq!['='], int_text(b as int)]),
{
    lemma_tlay_li(a, b, names);
    lemma_tokenize_layout(seq![reg_text(a), seq![' '], seq!['='], seq![' '], int_text(b as int)]);
    lemma_strip_layout(seq![reg_text(a), seq![' '], seq!['='], seq![' '], int_text(b as int)]);
}

#[verifier::spinoff_prover]
#[verifier::rlimit(100)]
proof fn lemma_tread_li(a: u8, b: i32, names: Seq<Seq<char>>)
    ensures
        parse_ins_line(inst_text(Inst::Li(a, b), names)) == Some(tline_of(Inst::Li(a, b), names)),
{
    lemma_ttoks_li(a, b, names);
    lemma_lits();
    lemma_tlits();
    lemma_reg_text(a);
    lemma_not_tkw(reg_text(a));
    lemma_int_text(b);
    lemma_num_text(b);
    lemma_not_tkw(int_text(b as int));
    reveal_strlit("return");
    reveal_strlit("goto");
    reveal_strlit(":");
    reveal_strlit("call");
    reveal_strlit("end");
    reveal_strlit("store");
    reveal_strlit("load");
    reveal_strlit("loadaddr");
    reveal_strlit("if");
    reveal_strlit("[");
    reveal_strlit("]");
    reveal_strlit("=");
    reveal_strlit("sp");
    reveal_strlit("+");
    reveal_strlit("malloc");
}

#[verifier::spinoff_prover]
#[verifier::rlimit(100)]
proof fn lemma_tlay_st(a: u8, c: i32, d: u8, names: Seq<Seq<char>>)
    ensures
        layout_ok(seq![reg_text(a), seq!['['], int_text(c as int), seq![']'], seq![' '], seq!['='], seq![' '], seq![' '], reg_text(d)]),
        slash_ok(seq![reg_text(a), seq!['['], int_text(c as int), seq![']'], seq![' '], seq!['='], seq![' '], seq![' '], reg_text(d)]),
        flat(seq![reg_text(a), seq!['['], int_text(c as int), seq![']'], seq![' '], seq!['='], seq![' '], seq![' '], reg_text(d)]) == inst_text(Inst::St(a, c, d), names),
        toks_of(seq![reg_text(a), seq!['['], int_text(c as int), seq![']'], seq![' '], seq!['='], seq![' '], seq![' '], reg_text(d)]) == seq![reg_text(a), seq!['['], int_text(c as int), seq![']'], seq!['='], reg_text(d)],
{
    lemma_blanks();
    lemma_tkeywords();
    lemma_reg_text(a);
    lemma_int_text(c);
    lemma_num_text(c);
    lemma_reg_text(d);
    reveal_strlit("[");
    reveal_strlit("] =  ");
    let q9 = Seq::<Seq<char>>::empty();
    lemma_cons(reg_text(d), q9);
    let q8 = seq![reg_text(d)] + q9;
    lemma_cons(seq![' '], q8);
    let q7 = seq![seq![' ']] + q8;
    lemma_cons(seq![' '], q7);
    let q6 = seq![seq![' ']] + q7;
    lemma_cons(seq!['='], q6);
    let q5 = seq![seq!['=']] + q6;
    lemma_cons(seq![' '], q5);
    let q4 = seq![seq![' ']] + q5;
    lemma_cons(seq![']'], q4);
    let q3 = seq![seq![']']] + q4;
    lemma_cons(int_text(c as int), q3);
    let q2 = seq![int_text(c as int)] + q3;
    lemma_cons(seq!['['], q2);
    let q1 = seq![seq!['[']] + q2;
    lemma_cons(reg_text(a), q1);
    let q0 = seq![reg_text(a)] + q1;
    assert(q0 =~= seq![reg_text(a), seq!['['], int_text(c as int), seq![']'], seq![' '], seq!['='], seq![' '], seq![' '], reg_text(d)]);
    assert(flat(q0) =~= inst_text(Inst::St(a, c, d), names));
    assert(toks_of(q0) =~= seq![reg_text(a), seq!['['], int_text(c as int), seq![']'], seq!['='], reg_text(d)]);
}

proof fn lemma_ttoks_st(a: u8, c: i32, d: u8, names: Seq<Seq<char>>)
    ensures
        strip_comment(inst_text(Inst::St(a, c, d), names)) == inst_text(Inst::St(a, c, d), names),
        tokenize(inst_text(Inst::St(a, c, d), names)) == Some(seq![reg_text(a), seq!['['], int_text(c as int), seq![']'], seq!['='], reg_text(d)]),
{
    lemma_tlay_st(a, c, d, names);
    lemma_tokenize_layout(seq![reg_text(a), seq!['['], int_text(c as int), seq![']'], seq![' '], seq!['='], seq![' '], seq![' '], reg_text(d)]);
    lemma_strip_layout(seq![reg_text(a), seq!['['], int_text(c as int), seq![']'], seq![' '], seq!['='], seq![' '], seq![' '], reg_text(d)]);
}

#[verifier::spinoff_prover]
#[verifier::rlimit(100)]
proof fn lemma_tread_st(a: u8, c: i32, d: u8, names: Seq<Seq<char>>)
    ensures
        parse_ins_line(inst_text(Inst::St(a, c, d), names)) == Some(tline_of(Inst::St(a, c, d), names)),
{
    lemma_ttoks_st(a, c, d, names);
    lemma_lits();
    lemma_tlits();
    lemma_reg_text(a);
    lemma_not_tkw(reg_text(a));
    lemma_int_text(c);
    lemma_num_text(c);
    lemma_not_tkw(int_text(c as int));
    lemma_reg_text(d);
    lemma_not_tkw(reg_text(d));
    reveal_strlit("return");
    reveal_strlit("goto");
    reveal_strlit(":");
    reveal_strlit("call");
    reveal_strlit("end");
    reveal_strlit("store");
    reveal_strlit("load");
    reveal_strlit("loadaddr");
    reveal_strlit("if");
    reveal_strlit("[");
    reveal_strlit("]");
    reveal_strlit("=");
    reveal_strlit("sp");
    reveal_strlit("+");
    reveal_strlit("malloc");
}

#[verifier::spinoff_prover]
#[verifier::rlimit(100)]
proof fn lemma_tlay_ld(a: u8, c: u8, d: i32, names: Seq<Seq<char>>)
    ensures
        layout_ok(seq![reg_text(a), seq![' '], seq!['='], seq![' '], seq![' '], reg_text(c), seq!['['], int_text(d as int), seq![']']]),
        slash_ok(seq![reg_text(a), seq![' '], seq!['='], seq![' '], seq![' '], reg_text(c), seq!['['], int_text(d as int), seq![']']]),
        flat(seq![reg_text(a), seq![' '], seq!['='], seq![' '], seq![' '], reg_text(c), seq!['['], int_text(d as int), seq![']']]) == inst_text(Inst::Ld(a, c, d), names),
        toks_of(seq![reg_text(a), seq![' '], seq!['='], seq![' '], seq![' '], reg_text(c), seq!['['], int_text(d as int), seq![']']]) == seq![reg_text(a), seq!['='], reg_text(c), seq!['['], int_text(d as int), seq![']']],
{
    lemma_blanks();
    lemma_tkeywords();
    lemma_reg_text(a);
    lemma_reg_text(c);
    lemma_int_text(d);
    lemma_num_text(d);
    reveal_strlit(" =  ");
    reveal_strlit("[");
    reveal_strlit("]");
    let q9 = Seq::<Seq<char>>::empty();
    lemma_cons(seq![']'], q9);
    let q8 = seq![seq![']']] + q9;
    lemma_cons(int_text(d as int), q8);
    let q7 = seq![int_text(d as int)] + q8;
    lemma_cons(seq!['['], q7);
    let q6 = seq![seq!['[']] + q7;
    lemma_cons(reg_text(c), q6);
    let q5 = seq![reg_text(c)] + q6;
    lemma_cons(seq![' '], q5);
    let q4 = seq![seq![' ']] + q5;
    lemma_cons(seq![' '], q4);
    let q3 = seq![seq![' ']] + q4;
    lemma_cons(seq!['='], q3);
    let q2 = seq![seq!['=']] + q3;
    lemma_cons(seq![' '], q2);
    let q1 = seq![seq![' ']] + q2;
    lemma_cons(reg_text(a), q1);
    let q0 = seq![reg_text(a)] + q1;
    assert(q0 =~= seq![reg_text(a), seq![' '], seq!['='], seq![' '], seq![' '], reg_text(c), seq!['['], int_text(d as int), seq![']']]);
    assert(flat(q0) =~= inst_text(Inst::Ld(a, c, d), names));
    assert(toks_of(q0) =~= seq![reg_text(a), seq!['='], reg_text(c), seq!['['], int_text(d as int), seq![']']]);
}

proof fn lemma_ttoks_ld(a: u8, c: u8, d: i32, names: Seq<Seq<char>>)
    ensures
        strip_comment(inst_text(Inst::Ld(a, c, d), names)) == inst_text(Inst::Ld(a, c, d), names),
        tokenize(inst_text(Inst::Ld(a, c, d), names)) == Some(seq![reg_text(a), seq!['='], reg_text(c), seq!['['], int_text(d as int), seq![']']]),
{
    lemma_tlay_ld(a, c, d, names);
    lemma_tokenize_layout(seq![reg_text(a), seq![' '], seq!['='], seq![' '], seq![' '], reg_text(c), seq!['['], int_text(d as int), seq![']']]);
    lemma_strip_layout(seq![reg_text(a), seq![' '], seq!['='], seq![' '], seq![' '], reg_text(c), seq!['['], int_text(d as int), seq![']']]);
}

#[verifier::spinoff_prover]
#[verifier::rlimit(100)]
proof fn lemma_tread_ld(a: u8, c: u8, d: i32, names: Seq<Seq<char>>)
    ensures
        parse_ins_line(inst_text(Inst::Ld(a, c, d), names)) == Some(tline_of(Inst::Ld(a, c, d), names)),
{
    lemma_ttoks_ld(a, c, d, names);
    lemma_lits();
    lemma_tlits();
    lemma_reg_text(a);
    lemma_not_tkw(reg_text(a));
    lemma_reg_text(c);
    lemma_not_tkw(reg_text(c));
    lemma_int_text(d);
    lemma_num_text(d);
    lemma_not_tkw(int_text(d as int));
    reveal_strlit("return");
    reveal_strlit("goto");
    reveal_strlit(":");
    reveal_strlit("call");
    reveal_strlit("end");
    reveal_strlit("store");
    reveal_strlit("load");
    reveal_strlit("loadaddr");
    reveal_strlit("if");
    reveal_strlit("[");
    reveal_strlit("]");
    reveal_strlit("=");
    reveal_strlit("sp");
    reveal_strlit("+");
    reveal_strlit("malloc");
}

#[verifier::spinoff_prover]
#[verifier::rlimit(100)]
proof fn lemma_tlay_cj_tail(c: u8, d: i32)
    requires
        d >= 0,
    ensures
        layout_ok(seq![reg_text(c), seq![' '], "goto"@, seq![' '], seq!['l'] + int_text(d as int)]),
        slash_ok(seq![reg_text(c), seq![' '], "goto"@, seq![' '], seq!['l'] + int_text(d as int)]),
        flat(seq![reg_text(c), seq![' '], "goto"@, seq![' '], seq!['l'] + int_text(d as int)]) == reg_text(c) + " goto l"@ + int_text(d as int),
        toks_of(seq![reg_text(c), seq![' '], "goto"@, seq![' '], seq!['l'] + int_text(d as int)]) == seq![reg_text(c), "goto"@, seq!['l'] + int_text(d as int)],
{
    lemma_blanks();
    lemma_tkeywords();
    lemma_reg_text(c);
    lemma_label_text(d);
    lemma_label_more(d);
    reveal_strlit(" goto l");
    reveal_strlit("goto");
    let q11 = Seq::<Seq<char>>::empty();
    lemma_cons(seq!['l'] + int_text(d as int), q11);
    let q10 = seq![seq!['l'] + int_text(d as int)] + q11;
    lemma_cons(seq![' '], q10);
    let q9 = seq![seq![' ']] + q10;
    lemma_cons("goto"@, q9);
    let q8 = seq!["goto"@] + q9;
    lemma_cons(seq![' '], q8);
    let q7 = seq![seq![' ']] + q8;
    lemma_cons(reg_text(c), q7);
    let q6 = seq![reg_text(c)] + q7;
    assert(q6 =~= seq![reg_text(c), seq![' '], "goto"@, seq![' '], seq!['l'] + int_text(d as int)]);
    assert(flat(q6) =~= reg_text(c) + " goto l"@ + int_text(d as int));
    assert(toks_of(q6) =~= seq![reg_text(c), "goto"@, seq!['l'] + int_text(d as int)]);
}

#[verifier::spinoff_prover]
#[verifier::rlimit(100)]
proof fn lemma_tlay_cj(a: u8, b: Oper, c: u8, d: i32, names: Seq<Seq<char>>)
    requires
        d >= 0,
    ensures
        layout_ok(seq!["if"@, seq![' '], reg_text(a), seq![' '], oper_text(b), seq![' '], reg_text(c), seq![' '], "goto"@, seq![' '], seq!['l'] + int_text(d as int)]),
        slash_ok(seq!["if"@, seq![' '], reg_text(a), seq![' '], oper_text(b), seq![' '], reg_text(c), seq![' '], "goto"@, seq![' '], seq!['l'] + int_text(d as int)]),
        flat(seq!["if"@, seq![' '], reg_text(a), seq![' '], oper_text(b), seq![' '], reg_text(c), seq![' '], "goto"@, seq![' '], seq!['l'] + int_text(d as int)]) == inst_text(Inst::Cj(a, b, c, d), names),
        toks_of(seq!["if"@, seq![' '], reg_text(a), seq![' '], oper_text(b), seq![' '], reg_text(c), seq![' '], "goto"@, seq![' '], seq!['l'] + int_text(d as int)]) == seq!["if"@, reg_text(a), oper_text(b), reg_text(c), "goto"@, seq!['l'] + int_text(d as int)],
{
    lemma_blanks();
    lemma_tkeywords();
    lemma_reg_text(a);
    lemma_oper_text(b);
    lemma_not_blank(oper_text(b));
    lemma_reg_text(c);
    lemma_tlay_cj_tail(c, d);
    reveal_strlit("if ");
    reveal_strlit(" ");
    reveal_strlit("if");
    let q6 = seq![reg_text(c), seq![' '], "goto"@, seq![' '], seq!['l'] + int_text(d as int)];
    lemma_cons(seq![' '], q6);
    let q5 = seq![seq![' ']] + q6;
    lemma_cons(oper_text(b), q5);
    let q4 = seq![oper_text(b)] + q5;
    lemma_cons(seq![' '], q4);
    let q3 = seq![seq![' ']] + q4;
    lemma_cons(reg_text(a), q3);
    let q2 = seq![reg_text(a)] + q3;
    lemma_cons(seq![' '], q2);
    let q1 = seq![seq![' ']] + q2;
    lemma_cons("if"@, q1);
    let q0 = seq!["if"@] + q1;
    assert(q0 =~= seq!["if"@, seq![' '], reg_text(a), seq![' '], oper_text(b), seq![' '], reg_text(c), seq![' '], "goto"@, seq![' '], seq!['l'] + int_text(d as int)]);
    assert(flat(q0) =~= inst_text(Inst::Cj(a, b, c, d), names));
    assert(toks_of(q0) =~= seq!["if"@, reg_text(a), oper_text(b), reg_text(c), "goto"@, seq!['l'] + int_text(d as int)]);
}

proof fn lemma_ttoks_cj(a: u8, b: Oper, c: u8, d: i32, names: Seq<Seq<char>>)
    requires
        d >= 0,
    ensures
        strip_comment(inst_text(Inst::Cj(a, b, c, d), names)) == inst_text(Inst::Cj(a, b, c, d), names),
        tokenize(inst_text(Inst::Cj(a, b, c, d), names)) == Some(seq!["if"@, reg_text(a), oper_text(b), reg_text(c), "goto"@, seq!['l'] + int_text(d as int)]),
{
    lemma_tlay_cj(a, b, c, d, names);
    lemma_tokenize_layout(seq!["if"@, seq![' '], reg_text(a), seq![' '], oper_text(b), seq![' '], reg_text(c), seq![' '], "goto"@, seq![' '], seq!['l'] + int_text(d as int)]);
    lemma_strip_layout(seq!["if"@, seq![' '], reg_text(a), seq![' '], oper_text(b), seq![' '], reg_text(c), seq![' '], "goto"@, seq![' '], seq!['l'] + int_text(d as int)]);
}

#[verifier::spinoff_prover]
#[verifier::rlimit(100)]
proof fn lemma_tread_cj(a: u8, b: Oper, c: u8, d: i32, names: Seq<Seq<char>>)
    requires
        d >= 0,
    ensures
        parse_ins_line(inst_text(Inst::Cj(a, b, c, d), names)) == Some(tline_of(Inst::Cj(a, b, c, d), names)),
{
    lemma_ttoks_cj(a, b, c, d, names);
    lemma_lits();
    lemma_tlits();
    lemma_reg_text(a);
    lemma_not_tkw(reg_text(a));
    lemma_oper_text(b);
    lemma_reg_text(c);
    lemma_not_tkw(reg_text(c));
    lemma_label_text(d);
    lemma_label_more(d);
    lemma_not_tkw(seq!['l'] + int_text(d as int));
    reveal_strlit("return");
    reveal_strlit("goto");
    reveal_strlit(":");
    reveal_strlit("call");
    reveal_strlit("end");
    reveal_strlit("store");
    reveal_strlit("load");
    reveal_strlit("loadaddr");
    reveal_strlit("if");
    reveal_strlit("[");
    reveal_strlit("]");
    reveal_strlit("=");
    reveal_strlit("sp");
    reveal_strlit("+");
    reveal_strlit("malloc");
}

#[verifier::spinoff_prover]
#[verifier::rlimit(100)]
proof fn lemma_tlay_jm(a: i32, names: Seq<Seq<char>>)
    requires
        a >= 0,
    ensures
        layout_ok(seq!["goto"@, seq![' '], seq!['l'] + int_text(a as int)]),
        slash_ok(seq!["goto"@, seq![' '], seq!['l'] + int_text(a as int)]),
        flat(seq!["goto"@, seq![' '], seq!['l'] + int_text(a as int)]) == inst_text(Inst::Jm(a), names),
        toks_of(seq!["goto"@, seq![' '], seq!['l'] + int_text(a as int)]) == seq!["goto"@, seq!['l'] + int_text(a as int)],
{
    lemma_blanks();
    lemma_tkeywords();
    lemma_label_text(a);
    lemma_label_more(a);
    reveal_strlit("goto l");
    reveal_strlit("goto");
    let q3 = Seq::<Seq<char>>::empty();
    lemma_cons(seq!['l'] + int_text(a as int), q3);
    let q2 = seq![seq!['l'] + int_text(a as int)] + q3;
    lemma_cons(seq![' '], q2);
    let q1 = seq![seq![' ']] + q2;
    lemma_cons("goto"@, q1);
    let q0 = seq!["goto"@] + q1;
    assert(q0 =~= seq!["goto"@, seq![' '], seq!['l'] + int_text(a as int)]);
    assert(flat(q0) =~= inst_text(Inst::Jm(a), names));
    assert(toks_of(q0) =~= seq!["goto"@, seq!['l'] + int_text(a as int)]);
}

proof fn lemma_ttoks_jm(a: i32, names: Seq<Seq<char>>)
    requires
        a >= 0,
    ensures
        strip_comment(inst_text(Inst::Jm(a), names)) == inst_text(Inst::Jm(a), names),
        tokenize(inst_text(Inst::Jm(a), names)) == Some(seq!["goto"@, seq!['l'] + int_text(a as int)]),
{
    lemma_tlay_jm(a, names);
    lemma_tokenize_layout(seq!["goto"@, seq![' '], seq!['l'] + int_text(a as int)]);
    lemma_strip_layout(seq!["goto"@, seq![' '], seq!['l'] + int_text(a as int)]);
}

#[verifier::spinoff_prover]
#[verifier::rlimit(100)]
proof fn lemma_tread_jm(a: i32, names: Seq<Seq<char>>)
    requires
        a >= 0,
    ensures
        parse_ins_line(inst_text(Inst::Jm(a), names)) == Some(tline_of(Inst::Jm(a), names)),
{
    lemma_ttoks_jm(a, names);
    lemma_lits();
    lemma_tlits();
    lemma_label_text(a);
    lemma_label_more(a);
    lemma_not_tkw(seq!['l'] + int_text(a as int));
    reveal_strlit("return");
    reveal_strlit("goto");
    reveal_strlit(":");
    reveal_strlit("call");
    reveal_strlit("end");
    reveal_strlit("store");
    reveal_strlit("load");
    reveal_strlit("loadaddr");
    reveal_strlit("if");
    reveal_strlit("[");
    reveal_strlit("]");
    reveal_strlit("=");
    reveal_strlit("sp");
    reveal_strlit("+");
    reveal_strlit("malloc");
}

#[verifier::spinoff_prover]
#[verifier::rlimit(100)]
proof fn lemma_tlay_lb(a: i32, names: Seq<Seq<char>>)
    requires
        a >= 0,
    ensures
        layout_ok(seq![seq!['l'] + int_text(a as int), seq![':']]),
        slash_ok(seq![seq!['l'] + int_text(a as int), seq![':']]),
        flat(seq![seq!['l'] + int_text(a as int), seq![':']]) == inst_text(Inst::Lb(a), names),
        toks_of(seq![seq!['l'] + int_text(a as int), seq![':']]) == seq![seq!['l'] + int_text(a as int), seq![':']],
{
    lemma_blanks();
    lemma_tkeywords();
    lemma_label_text(a);
    lemma_label_more(a);
    reveal_strlit("l");
    reveal_strlit(":");
    let q2 = Seq::<Seq<char>>::empty();
    lemma_cons(seq![':'], q2);
    let q1 = seq![seq![':']] + q2;
    lemma_cons(seq!['l'] + int_text(a as int), q1);
    let q0 = seq![seq!['l'] + int_text(a as int)] + q1;
    assert(q0 =~= seq![seq!['l'] + int_text(a as int), seq![':']]);
    assert(flat(q0) =~= inst_text(Inst::Lb(a), names));
    assert(toks_of(q0) =~= seq![seq!['l'] + int_text(a as int), seq![':']]);
}

proof fn lemma_ttoks_lb(a: i32, names: Seq<Seq<char>>)
    requires
        a >= 0,
    ensures
        strip_comment(inst_text(Inst::Lb(a), names)) == inst_text(Inst::Lb(a), names),
        tokenize(inst_text(Inst::Lb(a), names)) == Some(seq![seq!['l'] + int_text(a as int), seq![':']]),
{
    lemma_tlay_lb(a, names);
    lemma_tokenize_layout(seq![seq!['l'] + int_text(a as int), seq![':']]);
    lemma_strip_layout(seq![seq!['l'] + int_text(a as int), seq![':']]);
}

#[verifier::spinoff_prover]
#[verifier::rlimit(100)]
proof fn lemma_tread_lb(a: i32, names: Seq<Seq<char>>)
    requires
        a >= 0,
    ensures
        parse_ins_line(inst_text(Inst::Lb(a), names)) == Some(tline_of(Inst::Lb(a), names)),
{
    lemma_ttoks_lb(a, names);
    lemma_lits();
    lemma_tlits();
    lemma_label_text(a);
    lemma_label_more(a);
    lemma_not_tkw(seq!['l'] + int_text(a as int));
    reveal_strlit("return");
    reveal_strlit("goto");
    reveal_strlit(":");
    reveal_strlit("call");
    reveal_strlit("end");
    reveal_strlit("store");
    reveal_strlit("load");
    reveal_strlit("loadaddr");
    reveal_strlit("if");
    reveal_strlit("[");
    reveal_strlit("]");
    reveal_strlit("=");
    reveal_strlit("sp");
    reveal_strlit("+");
    reveal_strlit("malloc");
}

#[verifier::spinoff_prover]
#[verifier::rlimit(100)]
proof fn lemma_tlay_cl(a: i32, names: Seq<Seq<char>>)
    requires
        0 <= a < names.len() && is_word(names[a as int]) && tok_fn(names[a as int]) is None,
    ensures
        layout_ok(seq!["call"@, seq![' '], names[a as int]]),
        slash_ok(seq!["call"@, seq![' '], names[a as int]]),
        flat(seq!["call"@, seq![' '], names[a as int]]) == inst_text(Inst::Cl(a), names),
        toks_of(seq!["call"@, seq![' '], names[a as int]]) == seq!["call"@, names[a as int]],
{
    lemma_blanks();
    lemma_tkeywords();
    lemma_name_piece(names[a as int]);
    reveal_strlit("call ");
    reveal_strlit("call");
    let q3 = Seq::<Seq<char>>::empty();
    lemma_cons(names[a as int], q3);
    let q2 = seq![names[a as int]] + q3;
    lemma_cons(seq![' '], q2);
    let q1 = seq![seq![' ']] + q2;
    lemma_cons("call"@, q1);
    let q0 = seq!["call"@] + q1;
    assert(q0 =~= seq!["call"@, seq![' '], names[a as int]]);
    assert(flat(q0) =~= inst_text(Inst::Cl(a), names));
    assert(toks_of(q0) =~= seq!["call"@, names[a as int]]);
}

proof fn lemma_ttoks_cl(a: i32, names: Seq<Seq<char>>)
    requires
        0 <= a < names.len() && is_word(names[a as int]) && tok_fn(names[a as int]) is None,
    ensures
        strip_comment(inst_text(Inst::Cl(a), names)) == inst_text(Inst::Cl(a), names),
        tokenize(inst_text(Inst::Cl(a), names)) == Some(seq!["call"@, names[a as int]]),
{
    lemma_tlay_cl(a, names);
    lemma_tokenize_layout(seq!["call"@, seq![' '], names[a as int]]);
    lemma_strip_layout(seq!["call"@, seq![' '], names[a as int]]);
}

#[verifier::spinoff_prover]
#[verifier::rlimit(100)]
proof fn lemma_tread_cl(a: i32, names: Seq<Seq<char>>)
    requires
        0 <= a < names.len() && is_word(names[a as int]) && tok_fn(names[a as int]) is None,
    ensures
        parse_ins_line(inst_text(Inst::Cl(a), names)) == Some(tline_of(Inst::Cl(a), names)),
{
    lemma_ttoks_cl(a, names);
    lemma_lits();
    lemma_tlits();
    lemma_name_piece(names[a as int]);
    reveal_strlit("return");
    reveal_strlit("goto");
    reveal_strlit(":");
    reveal_strlit("call");
    reveal_strlit("end");
    reveal_strlit("store");
    reveal_strlit("load");
    reveal_strlit("loadaddr");
    reveal_strlit("if");
    reveal_strlit("[");
    reveal_strlit("]");
    reveal_strlit("=");
    reveal_strlit("sp");
    reveal_strlit("+");
    reveal_strlit("malloc");
}

#[verifier::spinoff_prover]
#[verifier::rlimit(100)]
proof fn lemma_tlay_rt(names: Seq<Seq<char>>)
    ensures
        layout_ok(seq!["return"@]),
        slash_ok(seq!["return"@]),
        flat(seq!["return"@]) == inst_text(Inst::Rt, names),
        toks_of(seq!["return"@]) == seq!["return"@],
{
    lemma_blanks();
    lemma_tkeywords();
    reveal_strlit("return");
    let q1 = Seq::<Seq<char>>::empty();
    lemma_cons("return"@, q1);
    let q0 = seq!["return"@] + q1;
    assert(q0 =~= seq!["return"@]);
    assert(flat(q0) =~= inst_text(Inst::Rt, names));
    assert(toks_of(q0) =~= seq!["return"@]);
}

proof fn lemma_ttoks_rt(names: Seq<Seq<char>>)
    ensures
        strip_comment(inst_text(Inst::Rt, names)) == inst_text(Inst::Rt, names),
        tokenize(inst_text(Inst::Rt, names)) == Some(seq!["return"@]),
{
    lemma_tlay_rt(names);
    lemma_tokenize_layout(seq!["return"@]);
    lemma_strip_layout(seq!["return"@]);
}

#[verifier::spinoff_prover]
#[verifier::rlimit(100)]
proof fn lemma_tread_rt(names: Seq<Seq<char>>)
    ensures
        parse_ins_line(inst_text(Inst::Rt, names)) == Some(tline_of(Inst::Rt, names)),
{
    lemma_ttoks_rt(names);
    lemma_lits();
    lemma_tlits();
    reveal_strlit("return");
    reveal_strlit("goto");
    reveal_strlit(":");
    reveal_strlit("call");
    reveal_strlit("end");
    reveal_strlit("store");
    reveal_strlit("load");
    reveal_strlit("loadaddr");
    reveal_strlit("if");
    reveal_strlit("[");
    reveal_strlit("]");
    reveal_strlit("=");
    reveal_strlit("sp");
    reveal_strlit("+");
    reveal_strlit("malloc");
}

#[verifier::spinoff_prover]
#[verifier::rlimit(100)]
proof fn lemma_tlay_sst(a: u8, b: i32, names: Seq<Seq<char>>)
    ensures
        layout_ok(seq!["store"@, seq![' '], reg_text(a), seq![' '], int_text(b as int)]),
        slash_ok(seq!["store"@, seq![' '], reg_text(a), seq![' '], int_text(b as int)]),
        flat(seq!["store"@, seq![' '], reg_text(a), seq![' '], int_text(b as int)]) == inst_text(Inst::Sst(a, b), names),
        toks_of(seq!["store"@, seq![' '], reg_text(a), seq![' '], int_text(b as int)]) == seq!["store"@, reg_text(a), int_text(b as int)],
{
    lemma_blanks();
    lemma_tkeywords();
    lemma_reg_text(a);
    lemma_int_text(b);
    lemma_num_text(b);
    reveal_strlit("store ");
    reveal_strlit(" ");
    reveal_strlit("store");
    let q5 = Seq::<Seq<char>>::empty();
    lemma_cons(int_text(b as int), q5);
    let q4 = seq![int_text(b as int)] + q5;
    lemma_cons(seq![' '], q4);
    let q3 = seq![seq![' ']] + q4;
    lemma_cons(reg_text(a), q3);
    let q2 = seq![reg_text(a)] + q3;
    lemma_cons(seq![' '], q2);
    let q1 = seq![seq![' ']] + q2;
    lemma_cons("store"@, q1);
    let q0 = seq!["store"@] + q1;
    assert(q0 =~= seq!["store"@, seq![' '], reg_text(a), seq![' '], int_text(b as int)]);
    assert(flat(q0) =~= inst_text(Inst::Sst(a, b), names));
    assert(toks_of(q0) =~= seq!["store"@, reg_text(a), int_text(b as int)]);
}

proof fn lemma_ttoks_sst(a: u8, b: i32, names: Seq<Seq<char>>)
    ensures
        strip_comment(inst_text(Inst::Sst(a, b), names)) == inst_text(Inst::Sst(a, b), names),
        tokenize(inst_text(Inst::Sst(a, b), names)) == Some(seq!["store"@, reg_text(a), int_text(b as int)]),
{
    lemma_tlay_sst(a, b, names);
    lemma_tokenize_layout(seq!["store"@, seq![' '], reg_text(a), seq![' '], int_text(b as int)]);
    lemma_strip_layout(seq!["store"@, seq![' '], reg_text(a), seq![' '], int_text(b as int)]);
}

#[verifier::spinoff_prover]
#[verifier::rlimit(100)]
proof fn lemma_tread_sst(a: u8, b: i32, names: Seq<Seq<char>>)
    ensures
        parse_ins_line(inst_text(Inst::Sst(a, b), names)) == Some(tline_of(Inst::Sst(a, b), names)),
{
    lemma_ttoks_sst(a, b, names);
    lemma_lits();
    lemma_tlits();
    lemma_reg_text(a);
    lemma_not_tkw(reg_text(a));
    lemma_int_text(b);
    lemma_num_text(b);
    lemma_not_tkw(int_text(b as int));
    reveal_strlit("return");
    reveal_strlit("goto");
    reveal_strlit(":");
    reveal_strlit("call");
    reveal_strlit("end");
    reveal_strlit("store");
    reveal_strlit("load");
    reveal_strlit("loadaddr");
    reveal_strlit("if");
    reveal_strlit("[");
    reveal_strlit("]");
    reveal_strlit("=");
    reveal_strlit("sp");
    reveal_strlit("+");
    reveal_strlit("malloc");
}

#[verifier::spinoff_prover]
#[verifier::rlimit(100)]
proof fn lemma_tlay_sld(a: i32, b: u8, names: Seq<Seq<char>>)
    ensures
        layout_ok(seq!["load"@, seq![' '], int_text(a as int), seq![' '], reg_text(b)]),
        slash_ok(seq!["load"@, seq![' '], int_text(a as int), seq![' '], reg_text(b)]),
        flat(seq!["load"@, seq![' '], int_text(a as int), seq![' '], reg_text(b)]) == inst_text(Inst::Sld(a, b), names),
        toks_of(seq!["load"@, seq![' '], int_text(a as int), seq![' '], reg_text(b)]) == seq!["load"@, int_text(a as int), reg_text(b)],
{
    lemma_blanks();
    lemma_tkeywords();
    lemma_int_text(a);
    lemma_num_text(a);
    lemma_reg_text(b);
    reveal_strlit("load ");
    reveal_strlit(" ");
    reveal_strlit("load");
    let q5 = Seq::<Seq<char>>::empty();
    lemma_cons(reg_text(b), q5);
    let q4 = seq![reg_text(b)] + q5;
    lemma_cons(seq![' '], q4);
    let q3 = seq![seq![' ']] + q4;
    lemma_cons(int_text(a as int), q3);
    let q2 = seq![int_text(a as int)] + q3;
    lemma_cons(seq![' '], q2);
    let q1 = seq![seq![' ']] + q2;
    lemma_cons("load"@, q1);
    let q0 = seq!["load"@] + q1;
    assert(q0 =~= seq!["load"@, seq![' '], int_text(a as int), seq![' '], reg_text(b)]);
    assert(flat(q0) =~= inst_text(Inst::Sld(a, b), names));
    assert(toks_of(q0) =~= seq!["load"@, int_text(a as int), reg_text(b)]);
}

proof fn lemma_ttoks_sld(a: i32, b: u8, names: Seq<Seq<char>>)
    ensures
        strip_comment(inst_text(Inst::Sld(a, b), names)) == inst_text(Inst::Sld(a, b), names),
        tokenize(inst_text(Inst::Sld(a, b), names)) == Some(seq!["load"@, int_text(a as int), reg_text(b)]),
{
    lemma_tlay_sld(a, b, names);
    lemma_tokenize_layout(seq!["load"@, seq![' '], int_text(a as int), seq![' '], reg_text(b)]);
    lemma_strip_layout(seq!["load"@, seq![' '], int_text(a as int), seq![' '], reg_text(b)]);
}

#[verifier::spinoff_prover]
#[verifier::rlimit(100)]
proof fn lemma_tread_sld(a: i32, b: u8, names: Seq<Seq<char>>)
    ensures
        parse_ins_line(inst_text(Inst::Sld(a, b), names)) == Some(tline_of(Inst::Sld(a, b), names)),
{
    lemma_ttoks_sld(a, b, names);
    lemma_lits();
    lemma_tlits();
    lemma_int_text(a);
    lemma_num_text(a);
    lemma_not_tkw(int_text(a as int));
    lemma_reg_text(b);
    lemma_not_tkw(reg_text(b));
    reveal_strlit("return");
    reveal_strlit("goto");
    reveal_strlit(":");
    reveal_strlit("call");
    reveal_strlit("end");
    reveal_strlit("store");
    reveal_strlit("load");
    reveal_strlit("loadaddr");
    reveal_strlit("if");
    reveal_strlit("[");
    reveal_strlit("]");
    reveal_strlit("=");
    reveal_strlit("sp");
    reveal_strlit("+");
    reveal_strlit("malloc");
}

#[verifier::spinoff_prover]
#[verifier::rlimit(100)]
proof fn lemma_tlay_vld(a: i32, b: u8, names: Seq<Seq<char>>)
    requires
        a >= 0,
    ensures
        layout_ok(seq!["load"@, seq![' '], seq!['v'] + int_text(a as int), seq![' '], reg_text(b)]),
        slash_ok(seq!["load"@, seq![' '], seq!['v'] + int_text(a as int), seq![' '], reg_text(b)]),
        flat(seq!["load"@, seq![' '], seq!['v'] + int_text(a as int), seq![' '], reg_text(b)]) == inst_text(Inst::Vld(a, b), names),
        toks_of(seq!["load"@, seq![' '], seq!['v'] + int_text(a as int), seq![' '], reg_text(b)]) == seq!["load"@, seq!['v'] + int_text(a as int), reg_text(b)],
{
    lemma_blanks();
    lemma_tkeywords();
    lemma_gvar_text(a);
    lemma_reg_text(b);
    reveal_strlit("load v");
    reveal_strlit(" ");
    reveal_strlit("load");
    let q5 = Seq::<Seq<char>>::empty();
    lemma_cons(reg_text(b), q5);
    let q4 = seq![reg_text(b)] + q5;
    lemma_cons(seq![' '], q4);
    let q3 = seq![seq![' ']] + q4;
    lemma_cons(seq!['v'] + int_text(a as int), q3);
    let q2 = seq![seq!['v'] + int_text(a as int)] + q3;
    lemma_cons(seq![' '], q2);
    let q1 = seq![seq![' ']] + q2;
    lemma_cons("load"@, q1);
    let q0 = seq!["load"@] + q1;
    assert(q0 =~= seq!["load"@, seq![' '], seq!['v'] + int_text(a as int), seq![' '], reg_text(b)]);
    assert(flat(q0) =~= inst_text(Inst::Vld(a, b), names));
    assert(toks_of(q0) =~= seq!["load"@, seq!['v'] + int_text(a as int), reg_text(b)]);
}

proof fn lemma_ttoks_vld(a: i32, b: u8, names: Seq<Seq<char>>)
    requires
        a >= 0,
    ensures
        strip_comment(inst_text(Inst::Vld(a, b), names)) == inst_text(Inst::Vld(a, b), names),
        tokenize(inst_text(Inst::Vld(a, b), names)) == Some(seq!["load"@, seq!['v'] + int_text(a as int), reg_text(b)]),
{
    lemma_tlay_vld(a, b, names);
    lemma_tokenize_layout(seq!["load"@, seq![' '], seq!['v'] + int_text(a as int), seq![' '], reg_text(b)]);
    lemma_strip_layout(seq!["load"@, seq![' '], seq!['v'] + int_text(a as int), seq![' '], reg_text(b)]);
}

#[verifier::spinoff_prover]
#[verifier::rlimit(100)]
proof fn lemma_tread_vld(a: i32, b: u8, names: Seq<Seq<char>>)
    requires
        a >= 0,
    ensures
        parse_ins_line(inst_text(Inst::Vld(a, b), names)) == Some(tline_of(Inst::Vld(a, b), names)),
{
    lemma_ttoks_vld(a, b, names);
    lemma_lits();
    lemma_tlits();
    lemma_gvar_text(a);
    lemma_not_tkw(seq!['v'] + int_text(a as int));
    lemma_reg_text(b);
    lemma_not_tkw(reg_text(b));
    reveal_strlit("return");
    reveal_strlit("goto");
    reveal_strlit(":");
    reveal_strlit("call");
    reveal_strlit("end");
    reveal_strlit("store");
    reveal_strlit("load");
    reveal_strlit("loadaddr");
    reveal_strlit("if");
    reveal_strlit("[");
    reveal_strlit("]");
    reveal_strlit("=");
    reveal_strlit("sp");
    reveal_strlit("+");
    reveal_strlit("malloc");
}

#[verifier::spinoff_prover]
#[verifier::rlimit(100)]
proof fn lemma_tlay_sla(a: i32, b: u8, names: Seq<Seq<char>>)
    ensures
        layout_ok(seq!["loadaddr"@, seq![' '], int_text(a as int), seq![' '], reg_text(b)]),
        slash_ok(seq!["loadaddr"@, seq![' '], int_text(a as int), seq![' '], reg_text(b)]),
        flat(seq!["loadaddr"@, seq![' '], int_text(a as int), seq![' '], reg_text(b)]) == inst_text(Inst::Sla(a, b), names),
        toks_of(seq!["loadaddr"@, seq![' '], int_text(a as int), seq![' '], reg_text(b)]) == seq!["loadaddr"@, int_text(a as int), reg_text(b)],
{
    lemma_blanks();
    lemma_tkeywords();
    lemma_int_text(a);
    lemma_num_text(a);
    lemma_reg_text(b);
    reveal_strlit("loadaddr ");
    reveal_strlit(" ");
    reveal_strlit("loadaddr");
    let q5 = Seq::<Seq<char>>::empty();
    lemma_cons(reg_text(b), q5);
    let q4 = seq![reg_text(b)] + q5;
    lemma_cons(seq![' '], q4);
    let q3 = seq![seq![' ']] + q4;
    lemma_cons(int_text(a as int), q3);
    let q2 = seq![int_text(a as int)] + q3;
    lemma_cons(seq![' '], q2);
    let q1 = seq![seq![' ']] + q2;
    lemma_cons("loadaddr"@, q1);
    let q0 = seq!["loadaddr"@] + q1;
    assert(q0 =~= seq!["loadaddr"@, seq![' '], int_text(a as int), seq![' '], reg_text(b)]);
    assert(flat(q0) =~= inst_text(Inst::Sla(a, b), names));
    assert(toks_of(q0) =~= seq!["loadaddr"@, int_text(a as int), reg_text(b)]);
}

proof fn lemma_ttoks_sla(a: i32, b: u8, names: Seq<Seq<char>>)
    ensures
        strip_comment(inst_text(Inst::Sla(a, b), names)) == inst_text(Inst::Sla(a, b), names),
        tokenize(inst_text(Inst::Sla(a, b), names)) == Some(seq!["loadaddr"@, int_text(a as int), reg_text(b)]),
{
    lemma_tlay_sla(a, b, names);
    lemma_tokenize_layout(seq!["loadaddr"@, seq![' '], int_text(a as int), seq![' '], reg_text(b)]);
    lemma_strip_layout(seq!["loadaddr"@, seq![' '], int_text(a as int), seq![' '], reg_text(b)]);
}

#[verifier::spinoff_prover]
#[verifier::rlimit(100)]
proof fn lemma_tread_sla(a: i32, b: u8, names: Seq<Seq<char>>)
    ensures
        parse_ins_line(inst_text(Inst::Sla(a, b), names)) == Some(tline_of(Inst::Sla(a, b), names)),
{
    lemma_ttoks_sla(a, b, names);
    lemma_lits();
    lemma_tlits();
    lemma_int_text(a);
    lemma_num_text(a);
    lemma_not_tkw(int_text(a as int));
    lemma_reg_text(b);
    lemma_not_tkw(reg_text(b));
    reveal_strlit("return");
    reveal_strlit("goto");
    reveal_strlit(":");
    reveal_strlit("call");
    reveal_strlit("end");
    reveal_strlit("store");
    reveal_strlit("load");
    reveal_strlit("loadaddr");
    reveal_strlit("if");
    reveal_strlit("[");
    reveal_strlit("]");
    reveal_strlit("=");
    reveal_strlit("sp");
    reveal_strlit("+");
    reveal_strlit("malloc");
}

#[verifier::spinoff_prover]
#[verifier::rlimit(100)]
proof fn lemma_tlay_vla(a: i32, b: u8, names: Seq<Seq<char>>)
    requires
        a >= 0,
    ensures
        layout_ok(seq!["loadaddr"@, seq![' '], seq!['v'] + int_text(a as int), seq![' '], reg_text(b)]),
        slash_ok(seq!["loadaddr"@, seq![' '], seq!['v'] + int_text(a as int), seq![' '], reg_text(b)]),
        flat(seq!["loadaddr"@, seq![' '], seq!['v'] + int_text(a as int), seq![' '], reg_text(b)]) == inst_text(Inst::Vla(a, b), names),
        toks_of(seq!["loadaddr"@, seq![' '], seq!['v'] + int_text(a as int), seq![' '], reg_text(b)]) == seq!["loadaddr"@, seq!['v'] + int_text(a as int), reg_text(b)],
{
    lemma_blanks();
    lemma_tkeywords();
    lemma_gvar_text(a);
    lemma_reg_text(b);
    reveal_strlit("loadaddr v");
    reveal_strlit(" ");
    reveal_strlit("loadaddr");
    let q5 = Seq::<Seq<char>>::empty();
    lemma_cons(reg_text(b), q5);
    let q4 = seq![reg_text(b)] + q5;
    lemma_cons(seq![' '], q4);
    let q3 = seq![seq![' ']] + q4;
    lemma_cons(seq!['v'] + int_text(a as int), q3);
    let q2 = seq![seq!['v'] + int_text(a as int)] + q3;
    lemma_cons(seq![' '], q2);
    let q1 = seq![seq![' ']] + q2;
    lemma_cons("loadaddr"@, q1);
    let q0 = seq!["loadaddr"@] + q1;
    assert(q0 =~= seq!["loadaddr"@, seq![' '], seq!['v'] + int_text(a as int), seq![' '], reg_text(b)]);
    assert(flat(q0) =~= inst_text(Inst::Vla(a, b), names));
    assert(toks_of(q0) =~= seq!["loadaddr"@, seq!['v'] + int_text(a as int), reg_text(b)]);
}

proof fn lemma_ttoks_vla(a: i32, b: u8, names: Seq<Seq<char>>)
    requires
        a >= 0,
    ensures
        strip_comment(inst_text(Inst::Vla(a, b), names)) == inst_text(Inst::Vla(a, b), names),
        tokenize(inst_text(Inst::Vla(a, b), names)) == Some(seq!["loadaddr"@, seq!['v'] + int_text(a as int), reg_text(b)]),
{
    lemma_tlay_vla(a, b, names);
    lemma_tokenize_layout(seq!["loadaddr"@, seq![' '], seq!['v'] + int_text(a as int), seq![' '], reg_text(b)]);
    lemma_strip_layout(seq!["loadaddr"@, seq![' '], seq!['v'] + int_text(a as int), seq![' '], reg_text(b)]);
}

#[verifier::spinoff_prover]
#[verifier::rlimit(100)]
proof fn lemma_tread_vla(a: i32, b: u8, names: Seq<Seq<char>>)
    requires
        a >= 0,
    ensures
        parse_ins_line(inst_text(Inst::Vla(a, b), names)) == Some(tline_of(Inst::Vla(a, b), names)),
{
    lemma_ttoks_vla(a, b, names);
    lemma_lits();
    lemma_tlits();
    lemma_gvar_text(a);
    lemma_not_tkw(seq!['v'] + int_text(a as int));
    lemma_reg_text(b);
    lemma_not_tkw(reg_text(b));
    reveal_strlit("return");
    reveal_strlit("goto");
    reveal_strlit(":");
    reveal_strlit("call");
    reveal_strlit("end");
    reveal_strlit("store");
    reveal_strlit("load");
    reveal_strlit("loadaddr");
    reveal_strlit("if");
    reveal_strlit("[");
    reveal_strlit("]");
    reveal_strlit("=");
    reveal_strlit("sp");
    reveal_strlit("+");
    reveal_strlit("malloc");
}

#[verifier::spinoff_prover]
#[verifier::rlimit(100)]
proof fn lemma_tlay_spa(a: u8, b: u8, names: Seq<Seq<char>>)
    ensures
        layout_ok(seq![reg_text(a), seq![' '], seq!['='], seq![' '], "sp"@, seq![' '], seq!['+'], seq![' '], reg_text(b)]),
        slash_ok(seq![reg_text(a), seq![' '], seq!['='], seq![' '], "sp"@, seq![' '], seq!['+'], seq![' '], reg_text(b)]),
        flat(seq![reg_text(a), seq![' '], seq!['='], seq![' '], "sp"@, seq![' '], seq!['+'], seq![' '], reg_text(b)]) == inst_text(Inst::Spa(a, b), names),
        toks_of(seq![reg_text(a), seq![' '], seq!['='], seq![' '], "sp"@, seq![' '], seq!['+'], seq![' '], reg_text(b)]) == seq![reg_text(a), seq!['='], "sp"@, seq!['+'], reg_text(b)],
{
    lemma_blanks();
    lemma_tkeywords();
    lemma_reg_text(a);
    lemma_reg_text(b);
    reveal_strlit(" = sp + ");
    reveal_strlit("sp");
    let q9 = Seq::<Seq<char>>::empty();
    lemma_cons(reg_text(b), q9);
    let q8 = seq![reg_text(b)] + q9;
    lemma_cons(seq![' '], q8);
    let q7 = seq![seq![' ']] + q8;
    lemma_cons(seq!['+'], q7);
    let q6 = seq![seq!['+']] + q7;
    lemma_cons(seq![' '], q6);
    let q5 = seq![seq![' ']] + q6;
    lemma_cons("sp"@, q5);
    let q4 = seq!["sp"@] + q5;
    lemma_cons(seq![' '], q4);
    let q3 = seq![seq![' ']] + q4;
    lemma_cons(seq!['='], q3);
    let q2 = seq![seq!['=']] + q3;
    lemma_cons(seq![' '], q2);
    let q1 = seq![seq![' ']] + q2;
    lemma_cons(reg_text(a), q1);
    let q0 = seq![reg_text(a)] + q1;
    assert(q0 =~= seq![reg_text(a), seq![' '], seq!['='], seq![' '], "sp"@, seq![' '], seq!['+'], seq![' '], reg_text(b)]);
    assert(flat(q0) =~= inst_text(Inst::Spa(a, b), names));
    assert(toks_of(q0) =~= seq![reg_text(a), seq!['='], "sp"@, seq!['+'], reg_text(b)]);
}

proof fn lemma_ttoks_spa(a: u8, b: u8, names: Seq<Seq<char>>)
    ensures
        strip_comment(inst_text(Inst::Spa(a, b), names)) == inst_text(Inst::Spa(a, b), names),
        tokenize(inst_text(Inst::Spa(a, b), names)) == Some(seq![reg_text(a), seq!['='], "sp"@, seq!['+'], reg_text(b)]),
{
    lemma_tlay_spa(a, b, names);
    lemma_tokenize_layout(seq![reg_text(a), seq![' '], seq!['='], seq![' '], "sp"@, seq![' '], seq!['+'], seq![' '], reg_text(b)]);
    lemma_strip_layout(seq![reg_text(a), seq![' '], seq!['='], seq![' '], "sp"@, seq![' '], seq!['+'], seq![' '], reg_text(b)]);
}

#[verifier::spinoff_prover]
#[verifier::rlimit(100)]
proof fn lemma_tread_spa(a: u8, b: u8, names: Seq<Seq<char>>)
    ensures
        parse_ins_line(inst_text(Inst::Spa(a, b), names)) == Some(tline_of(Inst::Spa(a, b), names)),
{
    lemma_ttoks_spa(a, b, names);
    lemma_lits();
    lemma_tlits();
    lemma_reg_text(a);
    lemma_not_tkw(reg_text(a));
    lemma_reg_text(b);
    lemma_not_tkw(reg_text(b));
    reveal_strlit("return");
    reveal_strlit("goto");
    reveal_strlit(":");
    reveal_strlit("call");
    reveal_strlit("end");
    reveal_strlit("store");
    reveal_strlit("load");
    reveal_strlit("loadaddr");
    reveal_strlit("if");
    reveal_strlit("[");
    reveal_strlit("]");
    reveal_strlit("=");
    reveal_strlit("sp");
    reveal_strlit("+");
    reveal_strlit("malloc");
}

#[verifier::spinoff_prover]
#[verifier::rlimit(100)]
proof fn lemma_tlay_vi(a: i32, b: i32)
    requires
        a >= 0,
    ensures
        layout_ok(seq![seq!['v'] + int_text(a as int), seq![' '], seq!['='], seq![' '], int_text(b as int)]),
        slash_ok(seq![seq!['v'] + int_text(a as int), seq![' '], seq!['='], seq![' '], int_text(b as int)]),
        flat(seq![seq!['v'] + int_text(a as int), seq![' '], seq!['='], seq![' '], int_text(b as int)]) == vard_text(VarD::I(a, b)).drop_last(),
        toks_of(seq![seq!['v'] + int_text(a as int), seq![' '], seq!['='], seq![' '], int_text(b as int)]) == seq![seq!['v'] + int_text(a as int), seq!['='], int_text(b as int)],
{
    lemma_blanks();
    lemma_tkeywords();
    lemma_gvar_text(a);
    lemma_int_text(b);
    lemma_num_text(b);
    reveal_strlit("v");
    reveal_strlit(" = ");
    reveal_strlit("\n");
    let q5 = Seq::<Seq<char>>::empty();
    lemma_cons(int_text(b as int), q5);
    let q4 = seq![int_text(b as int)] + q5;
    lemma_cons(seq![' '], q4);
    let q3 = seq![seq![' ']] + q4;
    lemma_cons(seq!['='], q3);
    let q2 = seq![seq!['=']] + q3;
    lemma_cons(seq![' '], q2);
    let q1 = seq![seq![' ']] + q2;
    lemma_cons(seq!['v'] + int_text(a as int), q1);
    let q0 = seq![seq!['v'] + int_text(a as int)] + q1;
    assert(q0 =~= seq![seq!['v'] + int_text(a as int), seq![' '], seq!['='], seq![' '], int_text(b as int)]);
    assert(flat(q0) =~= vard_text(VarD::I(a, b)).drop_last());
    assert(toks_of(q0) =~= seq![seq!['v'] + int_text(a as int), seq!['='], int_text(b as int)]);
}

proof fn lemma_ttoks_vi(a: i32, b: i32)
    requires
        a >= 0,
    ensures
        strip_comment(vard_text(VarD::I(a, b)).drop_last()) == vard_text(VarD::I(a, b)).drop_last(),
        tokenize(vard_text(VarD::I(a, b)).drop_last()) == Some(seq![seq!['v'] + int_text(a as int), seq!['='], int_text(b as int)]),
{
    lemma_tlay_vi(a, b);
    lemma_tokenize_layout(seq![seq!['v'] + int_text(a as int), seq![' '], seq!['='], seq![' '], int_text(b as int)]);
    lemma_strip_layout(seq![seq!['v'] + int_text(a as int), seq![' '], seq!['='], seq![' '], int_text(b as int)]);
}

#[verifier::spinoff_prover]
#[verifier::rlimit(100)]
proof fn lemma_tread_vi(a: i32, b: i32)
    requires
        a >= 0,
    ensures
        parse_fd_line(vard_text(VarD::I(a, b)).drop_last()) == Some(FdLine::D(VarD::I(a, b))),
{
    lemma_ttoks_vi(a, b);
    lemma_lits();
    lemma_tlits();
    lemma_gvar_text(a);
    lemma_not_tkw(seq!['v'] + int_text(a as int));
    lemma_int_text(b);
    lemma_num_text(b);
    lemma_not_tkw(int_text(b as int));
    reveal_strlit("return");
    reveal_strlit("goto");
    reveal_strlit(":");
    reveal_strlit("call");
    reveal_strlit("end");
    reveal_strlit("store");
    reveal_strlit("load");
    reveal_strlit("loadaddr");
    reveal_strlit("if");
    reveal_strlit("[");
    reveal_strlit("]");
    reveal_strlit("=");
    reveal_strlit("sp");
    reveal_strlit("+");
    reveal_strlit("malloc");
}

#[verifier::spinoff_prover]
#[verifier::rlimit(100)]
proof fn lemma_tlay_va(a: i32, b: i32)
    requires
        a >= 0,
    ensures
        layout_ok(seq![seq!['v'] + int_text(a as int), seq![' '], seq!['='], seq![' '], "malloc"@, seq![' '], int_text(b as int)]),
        slash_ok(seq![seq!['v'] + int_text(a as int), seq![' '], seq!['='], seq![' '], "malloc"@, seq![' '], int_text(b as int)]),
        flat(seq![seq!['v'] + int_text(a as int), seq![' '], seq!['='], seq![' '], "malloc"@, seq![' '], int_text(b as int)]) == vard_text(VarD::A(a, b)).drop_last(),
        toks_of(seq![seq!['v'] + int_text(a as int), seq![' '], seq!['='], seq![' '], "malloc"@, seq![' '], int_text(b as int)]) == seq![seq!['v'] + int_text(a as int), seq!['='], "malloc"@, int_text(b as int)],
{
    lemma_blanks();
    lemma_tkeywords();
    lemma_gvar_text(a);
    lemma_int_text(b);
    lemma_num_text(b);
    reveal_strlit("v");
    reveal_strlit(" = malloc ");
    reveal_strlit("\n");
    reveal_strlit("malloc");
    let q7 = Seq::<Seq<char>>::empty();
    lemma_cons(int_text(b as int), q7);
    let q6 = seq![int_text(b as int)] + q7;
    lemma_cons(seq![' '], q6);
    let q5 = seq![seq![' ']] + q6;
    lemma_cons("malloc"@, q5);
    let q4 = seq!["malloc"@] + q5;
    lemma_cons(seq![' '], q4);
    let q3 = seq![seq![' ']] + q4;
    lemma_cons(seq!['='], q3);
    let q2 = seq![seq!['=']] + q3;
    lemma_cons(seq![' '], q2);
    let q1 = seq![seq![' ']] + q2;
    lemma_cons(seq!['v'] + int_text(a as int), q1);
    let q0 = seq![seq!['v'] + int_text(a as int)] + q1;
    assert(q0 =~= seq![seq!['v'] + int_text(a as int), seq![' '], seq!['='], seq![' '], "malloc"@, seq![' '], int_text(b as int)]);
    assert(flat(q0) =~= vard_text(VarD::A(a, b)).drop_last());
    assert(toks_of(q0) =~= seq![seq!['v'] + int_text(a as int), seq!['='], "malloc"@, int_text(b as int)]);
}

proof fn lemma_ttoks_va(a: i32, b: i32)
    requires
        a >= 0,
    ensures
        strip_comment(vard_text(VarD::A(a, b)).drop_last()) == vard_text(VarD::A(a, b)).drop_last(),
        tokenize(vard_text(VarD::A(a, b)).drop_last()) == Some(seq![seq!['v'] + int_text(a as int), seq!['='], "malloc"@, int_text(b as int)]),
{
    lemma_tlay_va(a, b);
    lemma_tokenize_layout(seq![seq!['v'] + int_text(a as int), seq![' '], seq!['='], seq![' '], "malloc"@, seq![' '], int_text(b as int)]);
    lemma_strip_layout(seq![seq!['v'] + int_text(a as int), seq![' '], seq!['='], seq![' '], "malloc"@, seq![' '], int_text(b as int)]);
}

#[verifier::spinoff_prover]
#[verifier::rlimit(100)]
proof fn lemma_tread_va(a: i32, b: i32)
    requires
        a >= 0,
    ensures
        parse_fd_line(vard_text(VarD::A(a, b)).drop_last()) == Some(FdLine::D(VarD::A(a, b))),
{
    lemma_ttoks_va(a, b);
    lemma_lits();
    lemma_tlits();
    lemma_gvar_text(a);
    lemma_not_tkw(seq!['v'] + int_text(a as int));
    lemma_int_text(b);
    lemma_num_text(b);
    lemma_not_tkw(int_text(b as int));
    reveal_strlit("return");
    reveal_strlit("goto");
    reveal_strlit(":");
    reveal_strlit("call");
    reveal_strlit("end");
    reveal_strlit("store");
    reveal_strlit("load");
    reveal_strlit("loadaddr");
    reveal_strlit("if");
    reveal_strlit("[");
    reveal_strlit("]");
    reveal_strlit("=");
    reveal_strlit("sp");
    reveal_strlit("+");
    reveal_strlit("malloc");
}

/// Reading the text of an instruction gives it back (a call gives the name
/// of the called function), for instructions whose labels and globals have
/// numbers of at least 0 and whose called function has a name that is a
/// word not starting with `f_`.
pub proof fn law_read_tinst(i: Inst, names: Seq<Seq<char>>)
    requires
        tinst_ok(i, names),
    ensures
        parse_ins_line(inst_text(i, names)) == Some(tline_of(i, names)),
{
    match i {
        Inst::Op(a, b, c, d) => lemma_tread_op(a, b, c, d, names),
        Inst::Oi(a, b, c, d) => lemma_tread_oi(a, b, c, d, names),
        Inst::Ou(a, c, d) => lemma_tread_ou(a, c, d, names),
        Inst::Ts(a, b) => lemma_tread_ts(a, b, names),
        Inst::Li(a, b) => lemma_tread_li(a, b, names),
        Inst::St(a, c, d) => lemma_tread_st(a, c, d, names),
        Inst::Ld(a, c, d) => lemma_tread_ld(a, c, d, names),
        Inst::Cj(a, b, c, d) => lemma_tread_cj(a, b, c, d, names),
        Inst::Jm(a) => lemma_tread_jm(a, names),
        Inst::Lb(a) => lemma_tread_lb(a, names),
        Inst::Cl(a) => lemma_tread_cl(a, names),
        Inst::Rt => lemma_tread_rt(names),
        Inst::Sst(a, b) => lemma_tread_sst(a, b, names),
        Inst::Sld(a, b) => lemma_tread_sld(a, b, names),
        Inst::Vld(a, b) => lemma_tread_vld(a, b, names),
        Inst::Sla(a, b) => lemma_tread_sla(a, b, names),
        Inst::Vla(a, b) => lemma_tread_vla(a, b, names),
        Inst::Spa(a, b) => lemma_tread_spa(a, b, names),
        Inst::Edf => {},
    }
}

/// A global definition whose text reads back: its global is numbered
/// from 0.
pub open spec fn vard_ok(d: VarD) -> bool {
    match d {
        VarD::I(a, _) => a >= 0,
        VarD::A(a, _) => a >= 0,
    }
}

/// Reading the line of a global definition (its text without the line
/// break) gives the definition back, for globals numbered from 0.
pub proof fn law_read_vard(d: VarD)
    requires
        vard_ok(d),
    ensures
        parse_fd_line(vard_text(d).drop_last()) == Some(FdLine::D(d)),
{
    match d {
        VarD::I(a, b) => lemma_tread_vi(a, b),
        VarD::A(a, b) => lemma_tread_va(a, b),
    }
}

/// The texts of global definitions, one after another.
pub open spec fn vards_text(ds: Seq<VarD>) -> Seq<char>
    decreases ds.len(),
{
    if ds.len() == 0 {
        Seq::empty()
    } else {
        vards_text(ds.drop_last()) + vard_text(ds.last())
    }
}

/// The text of a global definition is one line, ended by a line break.
proof fn lemma_vard_line(d: VarD)
    requires
        vard_ok(d),
    ensures
        vard_text(d) == vard_text(d).drop_last() + "\n"@,
        forall|k: int| 0 <= k < vard_text(d).drop_last().len() ==> #[trigger] vard_text(d).drop_last()[k] != '\n',
{
    reveal_strlit("\n");
    match d {
        VarD::I(a, b) => lemma_ttoks_vi(a, b),
        VarD::A(a, b) => lemma_ttoks_va(a, b),
    }
    lemma_tokenize_no_newline(vard_text(d).drop_last());
    assert(vard_text(d).last() == '\n');
    assert(vard_text(d) =~= vard_text(d).drop_last() + "\n"@);
}

/// The lines of printed global definitions: their lines, then an empty
/// line.
proof fn lemma_lines_vards(ds: Seq<VarD>)
    requires
        forall|k: int| 0 <= k < ds.len() ==> vard_ok(#[trigger] ds[k]),
    ensures
        lines_of(vards_text(ds)) == Seq::new(ds.len(), |k: int| vard_text(ds[k]).drop_last()).push(Seq::empty()),
    decreases ds.len(),
{
    if ds.len() == 0 {
        assert(vards_text(ds) =~= Seq::<char>::empty());
        assert(Seq::new(0, |k: int| vard_text(ds[k]).drop_last()).push(Seq::empty()) =~= seq![Seq::<char>::empty()]);
    } else {
        let pre = ds.drop_last();
        let x = ds.last();
        assert forall|k: int| 0 <= k < pre.len() implies vard_ok(#[trigger] pre[k]) by {
            assert(pre[k] == ds[k]);
        }
        lemma_lines_vards(pre);
        lemma_vard_line(x);
        let a = vards_text(pre);
        let t = vard_text(x).drop_last();
        lemma_lines_extend(a, t);
        reveal_strlit("\n");
        let s = vards_text(ds);
        assert(s =~= a + t + "\n"@);
        assert(s.drop_last() =~= a + t);
        assert(s.last() == '\n');
        let ls = lines_of(a);
        assert(ls.update(ls.len() - 1, ls.last() + t) =~= Seq::new(ds.len(), |k: int| vard_text(ds[k]).drop_last())) by {
            assert(ls.last() + t =~= t);
            assert forall|k: int| 0 <= k < ds.len() implies #[trigger] ls.update(ls.len() - 1, ls.last() + t)[k]
                == vard_text(ds[k]).drop_last() by {
                if k < pre.len() {
                    assert(ls[k] == vard_text(pre[k]).drop_last());
                }
            }
        }
    }
}

/// Reading the lines of global definitions outside functions adds the
/// definitions, in order, and changes nothing else.
proof fn lemma_read_vard_lines(st: PStateV, ds: Seq<VarD>)
    requires
        st.inf is None,
        forall|k: int| 0 <= k < ds.len() ==> vard_ok(#[trigger] ds[k]),
    ensures
        read_lines(st, Seq::new(ds.len(), |k: int| vard_text(ds[k]).drop_last())) == (PStateV { vdef: st.vdef + ds, ..st }),
    decreases ds.len(),
{
    let ls = Seq::new(ds.len(), |k: int| vard_text(ds[k]).drop_last());
    if ds.len() == 0 {
        assert(st.vdef + ds =~= st.vdef);
    } else {
        let pre = ds.drop_last();
        assert forall|k: int| 0 <= k < pre.len() implies vard_ok(#[trigger] pre[k]) by {
            assert(pre[k] == ds[k]);
        }
        lemma_read_vard_lines(st, pre);
        assert(ls.drop_last() =~= Seq::new(pre.len(), |k: int| vard_text(pre[k]).drop_last()));
        law_read_vard(ds.last());
        assert(st.vdef + pre.push(ds.last()) =~= (st.vdef + pre).push(ds.last()));
        assert(pre.push(ds.last()) =~= ds);
    }
}

/// Reading printed global definitions, one after another, gives them back,
/// with no function and the name table unchanged, for globals numbered
/// from 0.
pub proof fn law_read_vards(ds: Seq<VarD>, names: Seq<Seq<char>>)
    requires
        forall|k: int| 0 <= k < ds.len() ==> vard_ok(#[trigger] ds[k]),
    ensures
        read_program(vards_text(ds), names) == (PStateV {
            vdef: ds,
            fdef: Seq::empty(),
            idef: Seq::empty(),
            inf: None,
            names: names,
        }),
{
    lemma_lines_vards(ds);
    let init = PStateV { vdef: Seq::empty(), fdef: Seq::empty(), idef: Seq::empty(), inf: None, names: names };
    let ls = Seq::new(ds.len(), |k: int| vard_text(ds[k]).drop_last());
    let all = ls.push(Seq::empty());
    assert(all.drop_last() =~= ls);
    lemma_read_vard_lines(init, ds);
    assert(Seq::<VarD>::empty() + ds =~= ds);
    assert(tokenize(strip_comment(Seq::<char>::empty())) == Some(Seq::<Seq<char>>::empty()));
    assert(parse_fd_tokens(Seq::<Seq<char>>::empty()) is None);
}


/// The instruction on a line inside a function, when it holds one.
pub open spec fn line_inst(l: Seq<char>) -> Inst {
    match parse_ins_line(l) {
        Some(TLine::I(x)) => x,
        _ => Inst::Edf,
    }
}

proof fn lemma_read_lines_append(st: PStateV, a: Seq<Seq<char>>, b: Seq<Seq<char>>)
    ensures
        read_lines(st, a + b) == read_lines(read_lines(st, a), b),
    decreases b.len(),
{
    if b.len() == 0 {
        assert(a + b =~= a);
    } else {
        lemma_read_lines_append(st, a, b.drop_last());
        assert((a + b).drop_last() =~= a + b.drop_last());
        assert((a + b).last() == b.last());
    }
}

/// Reading instruction lines inside a function adds their instructions to
/// the open function, in order, and changes nothing else.
proof fn lemma_read_body(st: PStateV, ls: Seq<Seq<char>>)
    requires
        st.inf is Some,
        forall|k: int| 0 <= k < ls.len() ==> parse_ins_line(#[trigger] ls[k]) matches Some(TLine::I(_)),
    ensures
        read_lines(st, ls) == (PStateV { idef: st.idef + Seq::new(ls.len(), |k: int| line_inst(ls[k])), ..st }),
    decreases ls.len(),
{
    let body = Seq::new(ls.len(), |k: int| line_inst(ls[k]));
    if ls.len() == 0 {
        assert(st.idef + body =~= st.idef);
    } else {
        let pre = ls.drop_last();
        assert forall|k: int| 0 <= k < pre.len() implies parse_ins_line(#[trigger] pre[k]) matches Some(TLine::I(_)) by {
            assert(pre[k] == ls[k]);
        }
        lemma_read_body(st, pre);
        let l = ls.last();
        assert(parse_ins_line(ls[ls.len() - 1]) matches Some(TLine::I(_)));
        assert(st.idef + Seq::new(pre.len(), |k: int| line_inst(pre[k])) + seq![line_inst(l)] =~= st.idef + body);
        assert((st.idef + Seq::new(pre.len(), |k: int| line_inst(pre[k]))).push(line_inst(l)) =~= st.idef + body);
    }
}

/// A function read from its header line, its instruction lines and its end
/// line holds exactly the instructions of those lines, in order, under the
/// number of its name and with the parameters and stack size of its header;
/// after it no instruction is left open, so the next function starts empty.
pub proof fn law_read_function(st: PStateV, h: Seq<char>, ls: Seq<Seq<char>>, e: Seq<char>, f: Seq<char>, i: i32, j: i32)
    requires
        st.inf is None,
        st.idef == Seq::<Inst>::empty(),
        parse_fd_line(h) == Some(FdLine::F(f, i, j)),
        forall|k: int| 0 <= k < ls.len() ==> parse_ins_line(#[trigger] ls[k]) matches Some(TLine::I(_)),
        parse_ins_line(e) == Some(TLine::End),
    ensures
        read_lines(st, seq![h] + ls + seq![e]) == (PStateV {
            vdef: st.vdef,
            fdef: st.fdef.push(
                FnV {
                    name: intern(st.names, f).index_of(f) as i32,
                    par: i,
                    sta: j,
                    inst: Seq::new(ls.len(), |k: int| line_inst(ls[k])),
                },
            ),
            idef: Seq::empty(),
            inf: None,
            names: intern(st.names, f),
        }),
{
    let names = intern(st.names, f);
    let st1 = read_line(st, h);
    assert(read_lines(st, seq![h]) == st1) by {
        assert(seq![h].drop_last() =~= Seq::<Seq<char>>::empty());
        assert(read_lines(st, seq![h].drop_last()) == st);
        assert(seq![h].last() == h);
    }
    assert(st1 == PStateV { inf: Some((names.index_of(f) as i32, i, j)), names: names, ..st });
    lemma_read_body(st1, ls);
    lemma_read_lines_append(st, seq![h], ls);
    lemma_read_lines_append(st, seq![h] + ls, seq![e]);
    let st2 = read_lines(st1, ls);
    let body = Seq::new(ls.len(), |k: int| line_inst(ls[k]));
    assert(st2.idef =~= body);
    assert(read_lines(st2, seq![e]) == read_line(st2, e)) by {
        assert(seq![e].drop_last() =~= Seq::<Seq<char>>::empty());
        assert(read_lines(st2, seq![e].drop_last()) == st2);
        assert(seq![e].last() == e);
    }
}

} // verus!
