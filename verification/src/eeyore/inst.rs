//! Eeyore instructions and their text form.
use vstd::prelude::*;
use crate::text::{int_text, push_int, push_str, push_string, chars_to_string};

verus! {

#[derive(Copy, Clone, PartialEq, Eq, Structural, Debug)]
pub enum UOper {
    Neg,
    Not,
}

#[derive(Copy, Clone, PartialEq, Eq, Structural, Debug)]
pub enum Oper {
    Add,
    Sub,
    Mul,
    Div,
    Mod,
    Lt,
    Le,
    Eq,
    Ne,
    Ge,
    Gt,
    And,
    Or,
}

#[derive(Copy, Clone, PartialEq, Eq, Structural, Debug)]
pub enum VarUsage {
    Var,
    Temp,
    Param,
}

/// A variable: its kind and its number.
#[derive(Copy, Clone, PartialEq, Eq, Structural, Debug)]
pub struct Var(pub VarUsage, pub i32);

#[derive(Copy, Clone, PartialEq, Eq, Structural, Debug)]
pub enum LVal {
    Sym(Var),
    SymA(Var, RVal),
}

#[derive(Copy, Clone, PartialEq, Eq, Structural, Debug)]
pub enum RVal {
    Sym(Var),
    Int(i32),
}

/// A function name (without the `f_` prefix).
#[derive(Debug)]
pub struct FnName(pub String);

impl Clone for FnName {
    fn clone(&self) -> (r: Self)
        ensures
            r == *self,
    {
        FnName(self.0.clone())
    }
}

#[derive(Debug)]
pub enum Inst {
    DArr(i32, Var),
    DI(Var),
    Ass(LVal, RVal),
    Take(Var, Var, RVal),
    Cpt(Var, RVal, Oper, RVal),
    UCpt(Var, UOper, RVal),
    Brch(RVal, Oper, RVal, i32),
    Jump(i32),
    Label(i32),
    Param(RVal),
    Call(FnName),
    CallFn(Var, FnName),
    Return(RVal),
    Ret,
    Fn(FnName, i32),
    FnE(FnName),
}

impl Clone for Inst {
    fn clone(&self) -> (r: Self)
        ensures
            r == *self,
    {
        match self {
            Inst::DArr(a, b) => Inst::DArr(*a, *b),
            Inst::DI(a) => Inst::DI(*a),
            Inst::Ass(a, b) => Inst::Ass(*a, *b),
            Inst::Take(a, b, c) => Inst::Take(*a, *b, *c),
            Inst::Cpt(a, b, c, d) => Inst::Cpt(*a, *b, *c, *d),
            Inst::UCpt(a, b, c) => Inst::UCpt(*a, *b, *c),
            Inst::Brch(a, b, c, d) => Inst::Brch(*a, *b, *c, *d),
            Inst::Jump(a) => Inst::Jump(*a),
            Inst::Label(a) => Inst::Label(*a),
            Inst::Param(a) => Inst::Param(*a),
            Inst::Call(f) => Inst::Call(f.clone()),
            Inst::CallFn(a, f) => Inst::CallFn(*a, f.clone()),
            Inst::Return(a) => Inst::Return(*a),
            Inst::Ret => Inst::Ret,
            Inst::Fn(f, a) => Inst::Fn(f.clone(), *a),
            Inst::FnE(f) => Inst::FnE(f.clone()),
        }
    }
}

pub open spec fn uoper_text(o: UOper) -> Seq<char> {
    match o {
        UOper::Neg => "-"@,
        UOper::Not => "!"@,
    }
}

pub open spec fn oper_text(o: Oper) -> Seq<char> {
    match o {
        Oper::Add => "+"@,
        Oper::Sub => "-"@,
        Oper::Mul => "*"@,
        Oper::Div => "/"@,
        Oper::Mod => "%"@,
        Oper::Lt => "<"@,
        Oper::Le => "<="@,
        Oper::Eq => "=="@,
        Oper::Ne => "!="@,
        Oper::Ge => ">="@,
        Oper::Gt => ">"@,
        Oper::And => "&&"@,
        Oper::Or => "||"@,
    }
}

pub open spec fn usage_text(u: VarUsage) -> Seq<char> {
    match u {
        VarUsage::Var => "T"@,
        VarUsage::Temp => "t"@,
        VarUsage::Param => "p"@,
    }
}

pub open spec fn var_text(v: Var) -> Seq<char> {
    usage_text(v.0) + int_text(v.1 as int)
}

pub open spec fn rval_text(r: RVal) -> Seq<char> {
    match r {
        RVal::Sym(v) => var_text(v),
        RVal::Int(i) => int_text(i as int),
    }
}

pub open spec fn lval_text(l: LVal) -> Seq<char> {
    match l {
        LVal::Sym(v) => var_text(v),
        LVal::SymA(v, r) => var_text(v) + "["@ + rval_text(r) + "]"@,
    }
}

pub open spec fn fn_name_text(f: FnName) -> Seq<char> {
    "f_"@ + f.0@
}

/// The text of a function name.
pub open spec fn name_text(f: Seq<char>) -> Seq<char> {
    "f_"@ + f
}

/// The text of one instruction (one line, without its line break).
pub open spec fn instv_text(i: InstV) -> Seq<char> {
    match i {
        InstV::DArr(n, v) => "\tvar "@ + int_text(n as int) + " "@ + var_text(v),
        InstV::DI(v) => "\tvar "@ + var_text(v),
        InstV::Ass(l, r) => "\t"@ + lval_text(l) + " = "@ + rval_text(r),
        InstV::Take(a, b, r) => "\t"@ + var_text(a) + " = "@ + var_text(b) + "["@ + rval_text(r) + "]"@,
        InstV::Cpt(v, a, o, b) => "\t"@ + var_text(v) + " = "@ + rval_text(a) + " "@ + oper_text(o) + " "@ + rval_text(b),
        InstV::UCpt(v, o, a) => "\t"@ + var_text(v) + " = "@ + uoper_text(o) + " "@ + rval_text(a),
        InstV::Brch(a, o, b, l) => "\tif "@ + rval_text(a) + " "@ + oper_text(o) + " "@ + rval_text(b) + " goto l"@ + int_text(l as int),
        InstV::Jump(l) => "\tgoto l"@ + int_text(l as int),
        InstV::Label(l) => "l"@ + int_text(l as int) + ":"@,
        InstV::Param(r) => "\tparam "@ + rval_text(r),
        InstV::Call(f) => "\tcall "@ + name_text(f),
        InstV::CallFn(v, f) => "\t"@ + var_text(v) + " = call "@ + name_text(f),
        InstV::Return(r) => "\treturn "@ + rval_text(r),
        InstV::Ret => "\treturn"@,
        InstV::Fn(f, n) => name_text(f) + " ["@ + int_text(n as int) + "]"@,
        InstV::FnE(f) => "end "@ + name_text(f),
    }
}

/// The text of one instruction (one line, without its line break).
pub open spec fn inst_text(i: Inst) -> Seq<char> {
    match i {
        Inst::DArr(n, v) => "\tvar "@ + int_text(n as int) + " "@ + var_text(v),
        Inst::DI(v) => "\tvar "@ + var_text(v),
        Inst::Ass(l, r) => "\t"@ + lval_text(l) + " = "@ + rval_text(r),
        Inst::Take(a, b, r) => "\t"@ + var_text(a) + " = "@ + var_text(b) + "["@ + rval_text(r) + "]"@,
        Inst::Cpt(v, a, o, b) => "\t"@ + var_text(v) + " = "@ + rval_text(a) + " "@ + oper_text(o) + " "@ + rval_text(b),
        Inst::UCpt(v, o, a) => "\t"@ + var_text(v) + " = "@ + uoper_text(o) + " "@ + rval_text(a),
        Inst::Brch(a, o, b, l) => "\tif "@ + rval_text(a) + " "@ + oper_text(o) + " "@ + rval_text(b) + " goto l"@ + int_text(l as int),
        Inst::Jump(l) => "\tgoto l"@ + int_text(l as int),
        Inst::Label(l) => "l"@ + int_text(l as int) + ":"@,
        Inst::Param(r) => "\tparam "@ + rval_text(r),
        Inst::Call(f) => "\tcall "@ + fn_name_text(f),
        Inst::CallFn(v, f) => "\t"@ + var_text(v) + " = call "@ + fn_name_text(f),
        Inst::Return(r) => "\treturn "@ + rval_text(r),
        Inst::Ret => "\treturn"@,
        Inst::Fn(f, n) => fn_name_text(f) + " ["@ + int_text(n as int) + "]"@,
        Inst::FnE(f) => "end "@ + fn_name_text(f),
    }
}

impl UOper {
    pub fn render(&self, out: &mut Vec<char>)
        ensures
            final(out)@ == old(out)@ + uoper_text(*self),
    {
        match self {
            UOper::Neg => push_str(out, "-"),
            UOper::Not => push_str(out, "!"),
        }
    }
}

impl Oper {
    pub fn render(&self, out: &mut Vec<char>)
        ensures
            final(out)@ == old(out)@ + oper_text(*self),
    {
        match self {
            Oper::Add => push_str(out, "+"),
            Oper::Sub => push_str(out, "-"),
            Oper::Mul => push_str(out, "*"),
            Oper::Div => push_str(out, "/"),
            Oper::Mod => push_str(out, "%"),
            Oper::Lt => push_str(out, "<"),
            Oper::Le => push_str(out, "<="),
            Oper::Eq => push_str(out, "=="),
            Oper::Ne => push_str(out, "!="),
            Oper::Ge => push_str(out, ">="),
            Oper::Gt => push_str(out, ">"),
            Oper::And => push_str(out, "&&"),
            Oper::Or => push_str(out, "||"),
        }
    }
}

impl Var {
    pub fn render(&self, out: &mut Vec<char>)
        ensures
            final(out)@ == old(out)@ + var_text(*self),
    {
        match self.0 {
            VarUsage::Var => push_str(out, "T"),
            VarUsage::Temp => push_str(out, "t"),
            VarUsage::Param => push_str(out, "p"),
        }
        push_int(out, self.1 as i64);
        assert(final(out)@ =~= old(out)@ + var_text(*self));
    }
}

impl RVal {
    pub fn render(&self, out: &mut Vec<char>)
        ensures
            final(out)@ == old(out)@ + rval_text(*self),
    {
        match self {
            RVal::Sym(v) => v.render(out),
            RVal::Int(i) => push_int(out, *i as i64),
        }
    }
}

impl LVal {
    pub fn render(&self, out: &mut Vec<char>)
        ensures
            final(out)@ == old(out)@ + lval_text(*self),
    {
        match self {
            LVal::Sym(v) => v.render(out),
            LVal::SymA(v, r) => {
                v.render(out);
                push_str(out, "[");
                r.render(out);
                push_str(out, "]");
                assert(final(out)@ =~= old(out)@ + lval_text(*self));
            },
        }
    }
}

impl FnName {
    pub fn render(&self, out: &mut Vec<char>)
        ensures
            final(out)@ == old(out)@ + fn_name_text(*self),
    {
        push_str(out, "f_");
        push_string(out, &self.0);
        assert(final(out)@ =~= old(out)@ + fn_name_text(*self));
    }
}

impl Inst {
    /// Appends the text of this instruction.
    #[verifier::spinoff_prover]
    #[verifier::rlimit(100)]
    pub fn render(&self, out: &mut Vec<char>)
        ensures
            final(out)@ == old(out)@ + inst_text(*self),
    {
        let ghost start = out@;
        match self {
            Inst::DArr(n, v) => {
                push_str(out, "\tvar ");
                push_int(out, *n as i64);
                push_str(out, " ");
                v.render(out);
                assert(out@ =~= start + inst_text(*self));
            },
            Inst::DI(v) => {
                push_str(out, "\tvar ");
                v.render(out);
                assert(out@ =~= start + inst_text(*self));
            },
            Inst::Ass(l, r) => {
                push_str(out, "\t");
                l.render(out);
                push_str(out, " = ");
                r.render(out);
                assert(out@ =~= start + inst_text(*self));
            },
            Inst::Take(a, b, r) => {
                push_str(out, "\t");
                a.render(out);
                push_str(out, " = ");
                b.render(out);
                push_str(out, "[");
                r.render(out);
                push_str(out, "]");
                assert(out@ =~= start + inst_text(*self));
            },
            Inst::Cpt(v, a, o, b) => {
                push_str(out, "\t");
                v.render(out);
                push_str(out, " = ");
                a.render(out);
                push_str(out, " ");
                o.render(out);
                push_str(out, " ");
                b.render(out);
                assert(out@ =~= start + inst_text(*self));
            },
            Inst::UCpt(v, o, a) => {
                push_str(out, "\t");
                v.render(out);
                push_str(out, " = ");
                o.render(out);
                push_str(out, " ");
                a.render(out);
                assert(out@ =~= start + inst_text(*self));
            },
            Inst::Brch(a, o, b, l) => {
                push_str(out, "\tif ");
                a.render(out);
                push_str(out, " ");
                o.render(out);
                push_str(out, " ");
                b.render(out);
                push_str(out, " goto l");
                push_int(out, *l as i64);
                assert(out@ =~= start + inst_text(*self));
            },
            Inst::Jump(l) => {
                push_str(out, "\tgoto l");
                push_int(out, *l as i64);
                assert(out@ =~= start + inst_text(*self));
            },
            Inst::Label(l) => {
                push_str(out, "l");
                push_int(out, *l as i64);
                push_str(out, ":");
                assert(out@ =~= start + inst_text(*self));
            },
            Inst::Param(r) => {
                push_str(out, "\tparam ");
                r.render(out);
                assert(out@ =~= start + inst_text(*self));
            },
            Inst::Call(f) => {
                push_str(out, "\tcall ");
                f.render(out);
                assert(out@ =~= start + inst_text(*self));
            },
            Inst::CallFn(v, f) => {
                push_str(out, "\t");
                v.render(out);
                push_str(out, " = call ");
                f.render(out);
                assert(out@ =~= start + inst_text(*self));
            },
            Inst::Return(r) => {
                push_str(out, "\treturn ");
                r.render(out);
                assert(out@ =~= start + inst_text(*self));
            },
            Inst::Ret => {
                push_str(out, "\treturn");
                assert(out@ =~= start + inst_text(*self));
            },
            Inst::Fn(f, n) => {
                f.render(out);
                push_str(out, " [");
                push_int(out, *n as i64);
                push_str(out, "]");
                assert(out@ =~= start + inst_text(*self));
            },
            Inst::FnE(f) => {
                push_str(out, "end ");
                f.render(out);
                assert(out@ =~= start + inst_text(*self));
            },
        }
    }

    /// The text of this instruction.
    pub fn to_string(&self) -> (s: String)
        ensures
            s@ == inst_text(*self),
    {
        let mut out: Vec<char> = Vec::new();
        self.render(&mut out);
        assert(out@ =~= inst_text(*self));
        chars_to_string(out)
    }
}


/// An instruction as a mathematical value: function names are their
/// characters.
pub enum InstV {
    DArr(i32, Var),
    DI(Var),
    Ass(LVal, RVal),
    Take(Var, Var, RVal),
    Cpt(Var, RVal, Oper, RVal),
    UCpt(Var, UOper, RVal),
    Brch(RVal, Oper, RVal, i32),
    Jump(i32),
    Label(i32),
    Param(RVal),
    Call(Seq<char>),
    CallFn(Var, Seq<char>),
    Return(RVal),
    Ret,
    Fn(Seq<char>, i32),
    FnE(Seq<char>),
}

pub open spec fn inst_view(i: Inst) -> InstV {
    match i {
        Inst::DArr(n, v) => InstV::DArr(n, v),
        Inst::DI(v) => InstV::DI(v),
        Inst::Ass(l, r) => InstV::Ass(l, r),
        Inst::Take(a, b, r) => InstV::Take(a, b, r),
        Inst::Cpt(v, a, o, b) => InstV::Cpt(v, a, o, b),
        Inst::UCpt(v, o, a) => InstV::UCpt(v, o, a),
        Inst::Brch(a, o, b, l) => InstV::Brch(a, o, b, l),
        Inst::Jump(l) => InstV::Jump(l),
        Inst::Label(l) => InstV::Label(l),
        Inst::Param(r) => InstV::Param(r),
        Inst::Call(f) => InstV::Call(f.0@),
        Inst::CallFn(v, f) => InstV::CallFn(v, f.0@),
        Inst::Return(r) => InstV::Return(r),
        Inst::Ret => InstV::Ret,
        Inst::Fn(f, n) => InstV::Fn(f.0@, n),
        Inst::FnE(f) => InstV::FnE(f.0@),
    }
}

/// The lines of `ins`, each ended by a line break.
pub open spec fn lines_text(ins: Seq<InstV>) -> Seq<char>
    decreases ins.len(),
{
    if ins.len() == 0 {
        Seq::empty()
    } else {
        lines_text(ins.drop_last()) + instv_text(ins.last()) + "\n"@
    }
}

/// An instruction and its view have the same text.
pub proof fn lemma_inst_text(i: Inst)
    ensures
        inst_text(i) == instv_text(inst_view(i)),
{
}

pub open spec fn insts_view(s: Seq<Inst>) -> Seq<InstV> {
    Seq::new(s.len(), |i: int| inst_view(s[i]))
}

} // verus!
