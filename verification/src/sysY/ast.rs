//! The SysY syntax tree.
use vstd::prelude::*;
use crate::text::{int_text, push_int, push_str, push_string, chars_to_string};

verus! {

pub enum CompUnit {
    Decl(Box<Decl>),
    Func(Box<Func>),
}

#[derive(Copy, Clone, PartialEq, Eq, Structural, Debug)]
pub enum DeclType {
    Const,
    Var,
}

#[derive(Copy, Clone, PartialEq, Eq, Structural, Debug)]
pub enum FunctType {
    Void,
    Int,
}

#[derive(Copy, Clone, PartialEq, Eq, Structural, Debug)]
pub enum UOper {
    Neg,
    Pos,
    Not,
}

#[derive(Copy, Clone, PartialEq, Eq, Structural, Debug)]
pub enum Oper {
    Add,
    Sub,
    Mul,
    Div,
    Mod,
    Lt,
    Le,
    Eq,
    Ne,
    Ge,
    Gt,
}

pub type VarDecls = Vec<Box<VarDecl>>;

/// A declaration: its kind and the variables it declares.
pub struct Decl(pub DeclType, pub VarDecls);

/// One declared variable: kind, name, array dimensions (empty for an
/// integer; the first is `Nil` for an array parameter), initializer.
pub struct VarDecl {
    pub dtype: DeclType,
    pub name: String,
    pub dims: Vec<Exp>,
    pub init: VarInit,
}

pub type Exp = Box<Expr>;

pub type Con = Box<CondExpr>;

/// An initializer: none, one still made of expressions, or one evaluated.
pub enum VarInit {
    Nil,
    I(ExprInit),
    E(ValueType),
}

/// A (possibly nested, brace-enclosed) initializer list.
pub enum InitCont<T> {
    Val(T),
    Vax(Vec<Box<InitCont<T>>>),
}

pub type ValueType = Box<InitCont<i32>>;

pub type ExprInit = Box<InitCont<Exp>>;

pub struct Func {
    pub name: String,
    pub ret: FunctType,
    pub param: VarDecls,
    pub body: Block,
}

pub enum BlockItem {
    Decl(Box<Decl>),
    Stmt(Box<Stmt>),
}

pub type Block = Vec<Box<BlockItem>>;

pub enum Stmt {
    Assign(LVal, Exp),
    Expr(Exp),
    Block(Block),
    If(Con, Box<Stmt>, Option<Box<Stmt>>),
    While(Con, Box<Stmt>),
    Break,
    Continue,
    Ret(Exp),
}

/// A variable, possibly indexed.
pub struct LVal {
    pub name: String,
    pub ind: Vec<Exp>,
}

pub enum Expr {
    Nil,
    FnCall(String, Vec<Exp>),
    Num(i32),
    LVal(LVal),
    Op(Exp, Oper, Exp),
    UOp(UOper, Exp),
}

pub enum CondExpr {
    And(Con, Con),
    Or(Con, Con),
    Comp(Exp),
}

impl Stmt {
    /// `if (a) b`.
    pub fn If1(a: Con, b: Box<Stmt>) -> (r: Box<Stmt>)
        ensures
            *r == Stmt::If(a, b, None),
    {
        Box::new(Stmt::If(a, b, Option::None))
    }

    /// `if (a) b else c`.
    pub fn If2(a: Con, b: Box<Stmt>, c: Box<Stmt>) -> (r: Box<Stmt>)
        ensures
            *r == Stmt::If(a, b, Some(c)),
    {
        Box::new(Stmt::If(a, b, Option::Some(c)))
    }

    /// `while (a) b`.
    pub fn Whi(a: Con, b: Box<Stmt>) -> (r: Box<Stmt>)
        ensures
            *r == Stmt::While(a, b),
    {
        Box::new(Stmt::While(a, b))
    }
}

impl Expr {
    /// Whether this is the empty expression (as in `return;`).
    pub fn is_n(&self) -> (b: bool)
        ensures
            b == (*self is Nil),
    {
        match self {
            Expr::Nil => true,
            _ => false,
        }
    }
}


// ---------------------------------------------------------------------
// The syntax tree as mathematical values.

pub enum ExprV {
    Nil,
    FnCall(Seq<char>, Seq<ExprV>),
    Num(i32),
    LVal(Seq<char>, Seq<ExprV>),
    Op(Box<ExprV>, Oper, Box<ExprV>),
    UOp(UOper, Box<ExprV>),
}

pub enum CondV {
    And(Box<CondV>, Box<CondV>),
    Or(Box<CondV>, Box<CondV>),
    Comp(ExprV),
}

/// An initializer list of expressions.
pub enum InitEV {
    Val(ExprV),
    Vax(Seq<InitEV>),
}

/// An evaluated initializer list.
pub enum InitIV {
    Val(i32),
    Vax(Seq<InitIV>),
}

pub enum VarInitV {
    Nil,
    I(InitEV),
    E(InitIV),
}

pub struct VarDeclV {
    pub dtype: DeclType,
    pub name: Seq<char>,
    pub dims: Seq<ExprV>,
    pub init: VarInitV,
}

pub struct DeclV {
    pub dtype: DeclType,
    pub vars: Seq<VarDeclV>,
}

pub enum StmtV {
    Assign(Seq<char>, Seq<ExprV>, ExprV),
    Expr(ExprV),
    Block(Seq<ItemV>),
    If(CondV, Box<StmtV>, Option<Box<StmtV>>),
    While(CondV, Box<StmtV>),
    Break,
    Continue,
    Ret(ExprV),
}

pub enum ItemV {
    Decl(DeclV),
    Stmt(Box<StmtV>),
}

pub struct FuncV {
    pub name: Seq<char>,
    pub ret: FunctType,
    pub param: Seq<VarDeclV>,
    pub body: Seq<ItemV>,
}

pub enum UnitV {
    Decl(DeclV),
    Func(FuncV),
}

pub open spec fn expr_view(e: Expr) -> ExprV
    decreases e,
{
    match e {
        Expr::Nil => ExprV::Nil,
        Expr::FnCall(n, a) => ExprV::FnCall(
            n@,
            Seq::new(a@.len(), |i: int| if 0 <= i < a@.len() { expr_view(*a@[i]) } else { ExprV::Nil }),
        ),
        Expr::Num(t) => ExprV::Num(t),
        Expr::LVal(l) => ExprV::LVal(
            l.name@,
            Seq::new(l.ind@.len(), |i: int| if 0 <= i < l.ind@.len() { expr_view(*l.ind@[i]) } else { ExprV::Nil }),
        ),
        Expr::Op(a, o, b) => ExprV::Op(Box::new(expr_view(*a)), o, Box::new(expr_view(*b))),
        Expr::UOp(o, a) => ExprV::UOp(o, Box::new(expr_view(*a))),
    }
}

/// The trees of a sequence of expressions.
pub open spec fn exprs_view(a: Seq<Exp>) -> Seq<ExprV> {
    Seq::new(a.len(), |i: int| if 0 <= i < a.len() { expr_view(*a[i]) } else { ExprV::Nil })
}

pub open spec fn cond_view(c: CondExpr) -> CondV
    decreases c,
{
    match c {
        CondExpr::And(a, b) => CondV::And(Box::new(cond_view(*a)), Box::new(cond_view(*b))),
        CondExpr::Or(a, b) => CondV::Or(Box::new(cond_view(*a)), Box::new(cond_view(*b))),
        CondExpr::Comp(e) => CondV::Comp(expr_view(*e)),
    }
}

pub open spec fn init_e_view(c: InitCont<Exp>) -> InitEV
    decreases c,
{
    match c {
        InitCont::Val(e) => InitEV::Val(expr_view(*e)),
        InitCont::Vax(a) => InitEV::Vax(
            Seq::new(a@.len(), |i: int| if 0 <= i < a@.len() { init_e_view(*a@[i]) } else { InitEV::Vax(Seq::empty()) }),
        ),
    }
}

pub open spec fn init_i_view(c: InitCont<i32>) -> InitIV
    decreases c,
{
    match c {
        InitCont::Val(t) => InitIV::Val(t),
        InitCont::Vax(a) => InitIV::Vax(
            Seq::new(a@.len(), |i: int| if 0 <= i < a@.len() { init_i_view(*a@[i]) } else { InitIV::Vax(Seq::empty()) }),
        ),
    }
}

pub open spec fn var_init_view(v: VarInit) -> VarInitV {
    match v {
        VarInit::Nil => VarInitV::Nil,
        VarInit::I(c) => VarInitV::I(init_e_view(*c)),
        VarInit::E(c) => VarInitV::E(init_i_view(*c)),
    }
}

pub open spec fn var_decl_view(d: VarDecl) -> VarDeclV {
    VarDeclV { dtype: d.dtype, name: d.name@, dims: exprs_view(d.dims@), init: var_init_view(d.init) }
}

pub open spec fn var_decls_view(a: Seq<Box<VarDecl>>) -> Seq<VarDeclV> {
    Seq::new(a.len(), |i: int| var_decl_view(*a[i]))
}

pub open spec fn decl_view(d: Decl) -> DeclV {
    DeclV { dtype: d.0, vars: var_decls_view(d.1@) }
}

pub open spec fn stmt_view(s: Stmt) -> StmtV
    decreases s,
{
    match s {
        Stmt::Assign(l, e) => StmtV::Assign(l.name@, exprs_view(l.ind@), expr_view(*e)),
        Stmt::Expr(e) => StmtV::Expr(expr_view(*e)),
        Stmt::Block(b) => StmtV::Block(
            Seq::new(b@.len(), |i: int| if 0 <= i < b@.len() { item_view(*b@[i]) } else { ItemV::Stmt(Box::new(StmtV::Break)) }),
        ),
        Stmt::If(c, t, e) => StmtV::If(
            cond_view(*c),
            Box::new(stmt_view(*t)),
            match e {
                Some(x) => Some(Box::new(stmt_view(*x))),
                None => None,
            },
        ),
        Stmt::While(c, t) => StmtV::While(cond_view(*c), Box::new(stmt_view(*t))),
        Stmt::Break => StmtV::Break,
        Stmt::Continue => StmtV::Continue,
        Stmt::Ret(e) => StmtV::Ret(expr_view(*e)),
    }
}

pub open spec fn item_view(b: BlockItem) -> ItemV
    decreases b,
{
    match b {
        BlockItem::Decl(d) => ItemV::Decl(decl_view(*d)),
        BlockItem::Stmt(s) => ItemV::Stmt(Box::new(stmt_view(*s))),
    }
}

pub open spec fn items_view(a: Seq<Box<BlockItem>>) -> Seq<ItemV> {
    Seq::new(a.len(), |i: int| if 0 <= i < a.len() { item_view(*a[i]) } else { ItemV::Stmt(Box::new(StmtV::Break)) })
}

pub open spec fn func_view(f: Func) -> FuncV {
    FuncV { name: f.name@, ret: f.ret, param: var_decls_view(f.param@), body: items_view(f.body@) }
}

pub open spec fn unit_view(u: CompUnit) -> UnitV {
    match u {
        CompUnit::Decl(d) => UnitV::Decl(decl_view(*d)),
        CompUnit::Func(f) => UnitV::Func(func_view(*f)),
    }
}

// ---------------------------------------------------------------------
// The syntax tree as text.

/// The characters of each string.
pub open spec fn strings_view(a: Seq<String>) -> Seq<Seq<char>> {
    Seq::new(a.len(), |i: int| a[i]@)
}

/// `start` and the first item, then `sep` and each further item up to the
/// `k`-th, each item after a space.
pub open spec fn list_body(items: Seq<Seq<char>>, sep: Seq<char>, start: Seq<char>, k: nat) -> Seq<char>
    decreases k,
{
    if k == 0 {
        Seq::empty()
    } else if k == 1 {
        start + " "@ + items[0]
    } else {
        list_body(items, sep, start, (k - 1) as nat) + sep + " "@ + items[k - 1]
    }
}

/// A list: its body, then `end`; nothing for an empty list.
pub open spec fn list_text(items: Seq<Seq<char>>, sep: Seq<char>, start: Seq<char>, end: Seq<char>) -> Seq<char> {
    if items.len() == 0 {
        Seq::empty()
    } else {
        list_body(items, sep, start, items.len()) + end
    }
}

/// Prints a list of texts with a start, a separator and an end.
pub struct VecPrinter {
    obj: Vec<String>,
    start: String,
    sep: String,
    end: String,
}

impl VecPrinter {
    /// The text printed.
    pub closed spec fn text(&self) -> Seq<char> {
        list_text(strings_view(self.obj@), self.sep@, self.start@, self.end@)
    }

    /// The text of the list.
    pub fn to_string(&self) -> (s: String)
        ensures
            s@ == self.text(),
    {
        let ghost items = strings_view(self.obj@);
        let mut out: Vec<char> = Vec::new();
        if self.obj.len() == 0 {
            return chars_to_string(out);
        }
        let mut i: usize = 0;
        while i < self.obj.len()
            invariant
                i <= self.obj@.len(),
                items == strings_view(self.obj@),
                out@ == list_body(items, self.sep@, self.start@, i as nat),
            decreases self.obj@.len() - i,
        {
            if i == 0 {
                push_string(&mut out, &self.start);
            } else {
                push_string(&mut out, &self.sep);
            }
            push_str(&mut out, " ");
            push_string(&mut out, &self.obj[i]);
            proof { reveal_strlit(" "); }
            i = i + 1;
        }
        push_string(&mut out, &self.end);
        chars_to_string(out)
    }
}

/// A printer of the texts `a`.
pub fn pvec(a: &Vec<String>, sep: &str, start: &str, end: &str) -> (r: VecPrinter)
    ensures
        r.text() == list_text(strings_view(a@), sep@, start@, end@),
{
    let mut obj: Vec<String> = Vec::new();
    let mut i: usize = 0;
    while i < a.len()
        invariant
            i <= a@.len(),
            obj@.len() == i,
            forall|j: int| 0 <= j < i ==> #[trigger] obj@[j]@ == a@[j]@,
        decreases a@.len() - i,
    {
        let c = a[i].clone();
        obj.push(c);
        i = i + 1;
    }
    assert(strings_view(obj@) =~= strings_view(a@));
    VecPrinter { obj, start: start.to_owned(), sep: sep.to_owned(), end: end.to_owned() }
}

/// The text of the list `a` as in an index: `[ a][ b]`.
pub open spec fn dvec_text(a: Seq<Seq<char>>) -> Seq<char> {
    list_text(a, "]["@, "["@, "]"@)
}

/// The text of the list `a` as arguments: ` a, b`.
pub open spec fn prvec_text(a: Seq<Seq<char>>) -> Seq<char> {
    list_text(a, ","@, ""@, ""@)
}

fn dvec(a: &Vec<String>) -> (r: VecPrinter)
    ensures
        r.text() == dvec_text(strings_view(a@)),
{
    pvec(a, "][", "[", "]")
}

fn prvec(a: &Vec<String>) -> (r: VecPrinter)
    ensures
        r.text() == prvec_text(strings_view(a@)),
{
    pvec(a, ",", "", "")
}

pub open spec fn decl_type_text(t: DeclType) -> Seq<char> {
    match t {
        DeclType::Const => "const int"@,
        DeclType::Var => "int"@,
    }
}

pub open spec fn funct_type_text(t: FunctType) -> Seq<char> {
    match t {
        FunctType::Void => "void"@,
        FunctType::Int => "int"@,
    }
}

pub open spec fn uoper_text(o: UOper) -> Seq<char> {
    match o {
        UOper::Neg => "-"@,
        UOper::Pos => "+"@,
        UOper::Not => "!"@,
    }
}

pub open spec fn oper_text(o: Oper) -> Seq<char> {
    match o {
        Oper::Add => "+"@,
        Oper::Sub => "-"@,
        Oper::Mul => "*"@,
        Oper::Div => "/"@,
        Oper::Mod => "%"@,
        Oper::Lt => "<"@,
        Oper::Le => "<="@,
        Oper::Eq => "=="@,
        Oper::Ne => "!="@,
        Oper::Ge => ">="@,
        Oper::Gt => ">"@,
    }
}

pub open spec fn expr_text(e: ExprV) -> Seq<char>
    decreases e, 1int,
{
    match e {
        ExprV::Nil => Seq::empty(),
        ExprV::FnCall(n, ps) => n + "("@ + prvec_text(exprs_text(ps)) + ")"@,
        ExprV::Num(t) => int_text(t as int),
        ExprV::LVal(n, ind) => n + dvec_text(exprs_text(ind)),
        ExprV::Op(a, o, b) => "("@ + expr_text(*a) + ") "@ + oper_text(o) + " ("@ + expr_text(*b) + ")"@,
        ExprV::UOp(o, a) => uoper_text(o) + " ("@ + expr_text(*a) + ")"@,
    }
}

/// The text of each expression.
pub open spec fn exprs_text(s: Seq<ExprV>) -> Seq<Seq<char>>
    decreases s, 0int,
{
    Seq::new(s.len(), |i: int| if 0 <= i < s.len() { expr_text(s[i]) } else { Seq::empty() })
}

pub open spec fn cond_text(c: CondV) -> Seq<char>
    decreases c,
{
    match c {
        CondV::And(l, r) => "("@ + cond_text(*l) + ") && ("@ + cond_text(*r) + ")"@,
        CondV::Or(l, r) => "("@ + cond_text(*l) + ") || ("@ + cond_text(*r) + ")"@,
        CondV::Comp(e) => expr_text(e),
    }
}

pub open spec fn init_e_text(c: InitEV) -> Seq<char>
    decreases c, 1int,
{
    match c {
        InitEV::Val(e) => expr_text(e),
        InitEV::Vax(s) => "{ "@ + prvec_text(init_e_texts(s)) + " }"@,
    }
}

/// The text of each list of a list.
pub open spec fn init_e_texts(s: Seq<InitEV>) -> Seq<Seq<char>>
    decreases s, 0int,
{
    Seq::new(s.len(), |i: int| if 0 <= i < s.len() { init_e_text(s[i]) } else { Seq::empty() })
}

pub open spec fn init_i_text(c: InitIV) -> Seq<char>
    decreases c, 1int,
{
    match c {
        InitIV::Val(t) => int_text(t as int),
        InitIV::Vax(s) => "{ "@ + prvec_text(init_i_texts(s)) + " }"@,
    }
}

/// The text of each list of a list.
pub open spec fn init_i_texts(s: Seq<InitIV>) -> Seq<Seq<char>>
    decreases s, 0int,
{
    Seq::new(s.len(), |i: int| if 0 <= i < s.len() { init_i_text(s[i]) } else { Seq::empty() })
}

pub open spec fn var_init_text(v: VarInitV) -> Seq<char> {
    match v {
        VarInitV::Nil => Seq::empty(),
        VarInitV::I(c) => "= "@ + init_e_text(c),
        VarInitV::E(c) => "= "@ + init_i_text(c),
    }
}

pub open spec fn var_decl_text(d: VarDeclV) -> Seq<char> {
    d.name + " "@ + dvec_text(exprs_text(d.dims)) + " "@ + var_init_text(d.init)
}

pub open spec fn var_decls_text(s: Seq<VarDeclV>) -> Seq<Seq<char>> {
    Seq::new(s.len(), |i: int| var_decl_text(s[i]))
}

/// A declaration: its kind and its variables.
pub open spec fn decl_text(d: DeclV) -> Seq<char> {
    decl_type_text(d.dtype) + " "@ + prvec_text(var_decls_text(d.vars)) + ";\n"@
}

pub open spec fn stmt_text(s: StmtV) -> Seq<char>
    decreases s, 1int,
{
    match s {
        StmtV::Assign(n, ind, e) => n + dvec_text(exprs_text(ind)) + " = "@ + expr_text(e) + ";\n"@,
        StmtV::Expr(e) => expr_text(e) + ";\n"@,
        StmtV::Block(items) => "{\n"@ + list_text(items_text(items), "\n"@, ""@, ""@) + "\n}\n"@,
        StmtV::If(c, t, x) => match x {
            None => "if( "@ + cond_text(c) + " ) "@ + stmt_text(*t),
            Some(x) => "if( "@ + cond_text(c) + " ) "@ + stmt_text(*t) + " else "@ + stmt_text(*x),
        },
        StmtV::While(c, t) => "while( "@ + cond_text(c) + " ) "@ + stmt_text(*t),
        StmtV::Break => "break;\n"@,
        StmtV::Continue => "continue;\n"@,
        StmtV::Ret(e) => "return "@ + expr_text(e) + ";\n"@,
    }
}

pub open spec fn item_text(i: ItemV) -> Seq<char>
    decreases i, 2int,
{
    match i {
        ItemV::Decl(d) => decl_text(d),
        ItemV::Stmt(s) => stmt_text(*s),
    }
}

/// The text of each item.
pub open spec fn items_text(s: Seq<ItemV>) -> Seq<Seq<char>>
    decreases s, 0int,
{
    Seq::new(s.len(), |i: int| if 0 <= i < s.len() { item_text(s[i]) } else { Seq::empty() })
}

pub open spec fn func_text(f: FuncV) -> Seq<char> {
    funct_type_text(f.ret) + " "@ + f.name + "("@ + prvec_text(var_decls_text(f.param)) + "){\n"@
        + list_text(items_text(f.body), "\n"@, ""@, ""@) + "\n}\n"@
}

pub open spec fn unit_text(u: UnitV) -> Seq<char> {
    match u {
        UnitV::Decl(d) => decl_text(d),
        UnitV::Func(f) => func_text(f),
    }
}

impl DeclType {
    pub fn to_string(&self) -> (s: String)
        ensures
            s@ == decl_type_text(*self),
    {
        let mut out: Vec<char> = Vec::new();
        match self {
            DeclType::Const => push_str(&mut out, "const int"),
            DeclType::Var => push_str(&mut out, "int"),
        }
        assert(out@ =~= decl_type_text(*self));
        chars_to_string(out)
    }
}

impl FunctType {
    pub fn to_string(&self) -> (s: String)
        ensures
            s@ == funct_type_text(*self),
    {
        let mut out: Vec<char> = Vec::new();
        match self {
            FunctType::Void => push_str(&mut out, "void"),
            FunctType::Int => push_str(&mut out, "int"),
        }
        assert(out@ =~= funct_type_text(*self));
        chars_to_string(out)
    }
}

impl UOper {
    pub fn to_string(&self) -> (s: String)
        ensures
            s@ == uoper_text(*self),
    {
        let mut out: Vec<char> = Vec::new();
        match self {
            UOper::Neg => push_str(&mut out, "-"),
            UOper::Pos => push_str(&mut out, "+"),
            UOper::Not => push_str(&mut out, "!"),
        }
        assert(out@ =~= uoper_text(*self));
        chars_to_string(out)
    }
}

impl Oper {
    pub fn to_string(&self) -> (s: String)
        ensures
            s@ == oper_text(*self),
    {
        let mut out: Vec<char> = Vec::new();
        match self {
            Oper::Add => push_str(&mut out, "+"),
            Oper::Sub => push_str(&mut out, "-"),
            Oper::Mul => push_str(&mut out, "*"),
            Oper::Div => push_str(&mut out, "/"),
            Oper::Mod => push_str(&mut out, "%"),
            Oper::Lt => push_str(&mut out, "<"),
            Oper::Le => push_str(&mut out, "<="),
            Oper::Eq => push_str(&mut out, "=="),
            Oper::Ne => push_str(&mut out, "!="),
            Oper::Ge => push_str(&mut out, ">="),
            Oper::Gt => push_str(&mut out, ">"),
        }
        assert(out@ =~= oper_text(*self));
        chars_to_string(out)
    }
}

/// The text of each expression of `a`.
fn exprs_strings(a: &Vec<Exp>) -> (r: Vec<String>)
    ensures
        strings_view(r@) == exprs_text(exprs_view(a@)),
    decreases exprs_view(a@), 0int,
{
    let ghost ev = exprs_view(a@);
    let mut r: Vec<String> = Vec::new();
    let mut i: usize = 0;
    while i < a.len()
        invariant
            i <= a@.len(),
            ev == exprs_view(a@),
            r@.len() == i,
            forall|j: int| 0 <= j < i ==> #[trigger] r@[j]@ == expr_text(ev[j]),
        decreases a@.len() - i,
    {
        assert(ev[i as int] == expr_view(*a@[i as int]));
        assert(decreases_to!(ev => ev[i as int]));
        let t = a[i].to_string();
        r.push(t);
        i = i + 1;
    }
    assert(strings_view(r@) =~= exprs_text(ev));
    r
}

impl Expr {
    /// The text of this expression.
    pub fn to_string(&self) -> (s: String)
        ensures
            s@ == expr_text(expr_view(*self)),
        decreases expr_view(*self), 1int,
    {
        let ghost e = expr_view(*self);
        let mut out: Vec<char> = Vec::new();
        match self {
            Expr::Nil => {},
            Expr::FnCall(n, ps) => {
                assert(e->FnCall_1 =~= exprs_view(ps@));
                assert(decreases_to!(e => e->FnCall_1));
                let v = exprs_strings(ps);
                let p = prvec(&v).to_string();
                push_string(&mut out, n);
                push_str(&mut out, "(");
                push_string(&mut out, &p);
                push_str(&mut out, ")");
            },
            Expr::Num(t) => {
                push_int(&mut out, *t as i64);
            },
            Expr::LVal(l) => {
                assert(e->LVal_1 =~= exprs_view(l.ind@));
                assert(decreases_to!(e => e->LVal_1));
                let t = l.to_string();
                push_string(&mut out, &t);
            },
            Expr::Op(a, o, b) => {
                assert(decreases_to!(e => e->Op_0));
                assert(decreases_to!(e => e->Op_2));
                let ta = a.to_string();
                let tb = b.to_string();
                let to = o.to_string();
                push_str(&mut out, "(");
                push_string(&mut out, &ta);
                push_str(&mut out, ") ");
                push_string(&mut out, &to);
                push_str(&mut out, " (");
                push_string(&mut out, &tb);
                push_str(&mut out, ")");
            },
            Expr::UOp(o, a) => {
                assert(decreases_to!(e => e->UOp_1));
                let ta = a.to_string();
                let to = o.to_string();
                push_string(&mut out, &to);
                push_str(&mut out, " (");
                push_string(&mut out, &ta);
                push_str(&mut out, ")");
            },
        }
        assert(out@ =~= expr_text(e));
        chars_to_string(out)
    }
}

impl LVal {
    /// The text of this variable and its indices.
    pub fn to_string(&self) -> (s: String)
        ensures
            s@ == self.name@ + dvec_text(exprs_text(exprs_view(self.ind@))),
        decreases exprs_view(self.ind@), 2int,
    {
        let v = exprs_strings(&self.ind);
        let d = dvec(&v).to_string();
        let mut out: Vec<char> = Vec::new();
        push_string(&mut out, &self.name);
        push_string(&mut out, &d);
        chars_to_string(out)
    }
}

impl CondExpr {
    pub fn to_string(&self) -> (s: String)
        ensures
            s@ == cond_text(cond_view(*self)),
        decreases cond_view(*self),
    {
        let ghost c = cond_view(*self);
        let mut out: Vec<char> = Vec::new();
        match self {
            CondExpr::And(l, r) => {
                assert(decreases_to!(c => c->And_0));
                assert(decreases_to!(c => c->And_1));
                let tl = l.to_string();
                let tr = r.to_string();
                push_str(&mut out, "(");
                push_string(&mut out, &tl);
                push_str(&mut out, ") && (");
                push_string(&mut out, &tr);
                push_str(&mut out, ")");
            },
            CondExpr::Or(l, r) => {
                assert(decreases_to!(c => c->Or_0));
                assert(decreases_to!(c => c->Or_1));
                let tl = l.to_string();
                let tr = r.to_string();
                push_str(&mut out, "(");
                push_string(&mut out, &tl);
                push_str(&mut out, ") || (");
                push_string(&mut out, &tr);
                push_str(&mut out, ")");
            },
            CondExpr::Comp(e) => {
                let t = e.to_string();
                push_string(&mut out, &t);
            },
        }
        assert(out@ =~= cond_text(cond_view(*self)));
        chars_to_string(out)
    }
}

impl InitCont<Exp> {
    pub fn to_string(&self) -> (s: String)
        ensures
            s@ == init_e_text(init_e_view(*self)),
        decreases init_e_view(*self), 1int,
    {
        let ghost c = init_e_view(*self);
        let mut out: Vec<char> = Vec::new();
        match self {
            InitCont::Val(e) => {
                let t = e.to_string();
                push_string(&mut out, &t);
            },
            InitCont::Vax(a) => {
                let ghost items = c->Vax_0;
                let mut v: Vec<String> = Vec::new();
                let mut i: usize = 0;
                while i < a.len()
                    invariant
                        i <= a@.len(),
                        c == init_e_view(*self),
                        *self == InitCont::Vax(*a),
                        items == c->Vax_0,
                        items.len() == a@.len(),
                        v@.len() == i,
                        forall|j: int| 0 <= j < i ==> #[trigger] v@[j]@ == init_e_text(items[j]),
                    decreases a@.len() - i,
                {
                    assert(items[i as int] == init_e_view(*a@[i as int]));
                    assert(decreases_to!(c => c->Vax_0));
                    assert(decreases_to!(c->Vax_0 => c->Vax_0[i as int]));
                    let t = a[i].to_string();
                    v.push(t);
                    i = i + 1;
                }
                let ghost texts = init_e_texts(items);
                assert forall|k: int| 0 <= k < texts.len() implies strings_view(v@)[k] == texts[k] by {
                    assert(v@[k]@ == init_e_text(items[k]));
                }
                assert(strings_view(v@) =~= texts);
                let p = prvec(&v).to_string();
                push_str(&mut out, "{ ");
                push_string(&mut out, &p);
                push_str(&mut out, " }");
            },
        }
        assert(out@ =~= init_e_text(c));
        chars_to_string(out)
    }
}

impl InitCont<i32> {
    pub fn to_string(&self) -> (s: String)
        ensures
            s@ == init_i_text(init_i_view(*self)),
        decreases init_i_view(*self), 1int,
    {
        let ghost c = init_i_view(*self);
        let mut out: Vec<char> = Vec::new();
        match self {
            InitCont::Val(t) => {
                push_int(&mut out, *t as i64);
            },
            InitCont::Vax(a) => {
                let ghost items = c->Vax_0;
                let mut v: Vec<String> = Vec::new();
                let mut i: usize = 0;
                while i < a.len()
                    invariant
                        i <= a@.len(),
                        c == init_i_view(*self),
                        *self == InitCont::Vax(*a),
                        items == c->Vax_0,
                        items.len() == a@.len(),
                        v@.len() == i,
                        forall|j: int| 0 <= j < i ==> #[trigger] v@[j]@ == init_i_text(items[j]),
                    decreases a@.len() - i,
                {
                    assert(items[i as int] == init_i_view(*a@[i as int]));
                    assert(decreases_to!(c => c->Vax_0));
                    assert(decreases_to!(c->Vax_0 => c->Vax_0[i as int]));
                    let t = a[i].to_string();
                    v.push(t);
                    i = i + 1;
                }
                let ghost texts = init_i_texts(items);
                assert forall|k: int| 0 <= k < texts.len() implies strings_view(v@)[k] == texts[k] by {
                    assert(v@[k]@ == init_i_text(items[k]));
                }
                assert(strings_view(v@) =~= texts);
                let p = prvec(&v).to_string();
                push_str(&mut out, "{ ");
                push_string(&mut out, &p);
                push_str(&mut out, " }");
            },
        }
        assert(out@ =~= init_i_text(c));
        chars_to_string(out)
    }
}

impl VarInit {
    pub fn to_string(&self) -> (s: String)
        ensures
            s@ == var_init_text(var_init_view(*self)),
    {
        let mut out: Vec<char> = Vec::new();
        match self {
            VarInit::Nil => {},
            VarInit::I(c) => {
                let t = c.to_string();
                push_str(&mut out, "= ");
                push_string(&mut out, &t);
            },
            VarInit::E(c) => {
                let t = c.to_string();
                push_str(&mut out, "= ");
                push_string(&mut out, &t);
            },
        }
        assert(out@ =~= var_init_text(var_init_view(*self)));
        chars_to_string(out)
    }
}

impl VarDecl {
    pub fn to_string(&self) -> (s: String)
        ensures
            s@ == var_decl_text(var_decl_view(*self)),
    {
        let v = exprs_strings(&self.dims);
        let d = dvec(&v).to_string();
        let t = self.init.to_string();
        let mut out: Vec<char> = Vec::new();
        push_string(&mut out, &self.name);
        push_str(&mut out, " ");
        push_string(&mut out, &d);
        push_str(&mut out, " ");
        push_string(&mut out, &t);
        assert(out@ =~= var_decl_text(var_decl_view(*self)));
        chars_to_string(out)
    }
}

/// The text of each declared variable of `a`.
fn var_decls_strings(a: &Vec<Box<VarDecl>>) -> (r: Vec<String>)
    ensures
        strings_view(r@) == var_decls_text(var_decls_view(a@)),
{
    let mut r: Vec<String> = Vec::new();
    let mut i: usize = 0;
    while i < a.len()
        invariant
            i <= a@.len(),
            r@.len() == i,
            forall|j: int| 0 <= j < i ==> #[trigger] r@[j]@ == var_decl_text(var_decl_view(*a@[j])),
        decreases a@.len() - i,
    {
        let t = a[i].to_string();
        r.push(t);
        i = i + 1;
    }
    assert(strings_view(r@) =~= var_decls_text(var_decls_view(a@)));
    r
}

impl Decl {
    pub fn to_string(&self) -> (s: String)
        ensures
            s@ == decl_text(decl_view(*self)),
    {
        let ty = self.0.to_string();
        let v = var_decls_strings(&self.1);
        let p = prvec(&v).to_string();
        let mut out: Vec<char> = Vec::new();
        push_string(&mut out, &ty);
        push_str(&mut out, " ");
        push_string(&mut out, &p);
        push_str(&mut out, ";\n");
        assert(out@ =~= decl_text(decl_view(*self)));
        chars_to_string(out)
    }
}

/// The text of each item of `a`.
fn items_strings(a: &Vec<Box<BlockItem>>) -> (r: Vec<String>)
    ensures
        strings_view(r@) == items_text(items_view(a@)),
    decreases items_view(a@), 0int,
{
    let ghost iv = items_view(a@);
    let mut r: Vec<String> = Vec::new();
    let mut i: usize = 0;
    while i < a.len()
        invariant
            i <= a@.len(),
            iv == items_view(a@),
            r@.len() == i,
            forall|j: int| 0 <= j < i ==> #[trigger] r@[j]@ == item_text(iv[j]),
        decreases a@.len() - i,
    {
        assert(iv[i as int] == item_view(*a@[i as int]));
        assert(decreases_to!(iv => iv[i as int]));
        let t = a[i].to_string();
        r.push(t);
        i = i + 1;
    }
    assert(strings_view(r@) =~= items_text(iv));
    r
}

impl Stmt {
    pub fn to_string(&self) -> (s: String)
        ensures
            s@ == stmt_text(stmt_view(*self)),
        decreases stmt_view(*self), 1int,
    {
        let ghost sv = stmt_view(*self);
        let mut out: Vec<char> = Vec::new();
        match self {
            Stmt::Assign(l, e) => {
                let tl = l.to_string();
                let te = e.to_string();
                push_string(&mut out, &tl);
                push_str(&mut out, " = ");
                push_string(&mut out, &te);
                push_str(&mut out, ";\n");
            },
            Stmt::Expr(e) => {
                let te = e.to_string();
                push_string(&mut out, &te);
                push_str(&mut out, ";\n");
            },
            Stmt::Block(e) => {
                assert(sv->Block_0 =~= items_view(e@));
                assert(decreases_to!(sv => sv->Block_0));
                let v = items_strings(e);
                let p = pvec(&v, "\n", "", "").to_string();
                push_str(&mut out, "{\n");
                push_string(&mut out, &p);
                push_str(&mut out, "\n}\n");
            },
            Stmt::If(c, t, x) => {
                assert(decreases_to!(sv => sv->If_1));
                let tc = c.to_string();
                let tt = t.to_string();
                push_str(&mut out, "if( ");
                push_string(&mut out, &tc);
                push_str(&mut out, " ) ");
                push_string(&mut out, &tt);
                match x {
                    None => {},
                    Some(x) => {
                        assert(decreases_to!(sv => sv->If_2));
                        assert(decreases_to!(sv->If_2 => sv->If_2->Some_0));
                        let tx = x.to_string();
                        push_str(&mut out, " else ");
                        push_string(&mut out, &tx);
                    },
                }
            },
            Stmt::While(c, t) => {
                assert(decreases_to!(sv => sv->While_1));
                let tc = c.to_string();
                let tt = t.to_string();
                push_str(&mut out, "while( ");
                push_string(&mut out, &tc);
                push_str(&mut out, " ) ");
                push_string(&mut out, &tt);
            },
            Stmt::Break => push_str(&mut out, "break;\n"),
            Stmt::Continue => push_str(&mut out, "continue;\n"),
            Stmt::Ret(e) => {
                let te = e.to_string();
                push_str(&mut out, "return ");
                push_string(&mut out, &te);
                push_str(&mut out, ";\n");
            },
        }
        assert(out@ =~= stmt_text(sv));
        chars_to_string(out)
    }
}

impl BlockItem {
    pub fn to_string(&self) -> (s: String)
        ensures
            s@ == item_text(item_view(*self)),
        decreases item_view(*self), 2int,
    {
        match self {
            BlockItem::Decl(d) => d.to_string(),
            BlockItem::Stmt(s) => {
                assert(decreases_to!(item_view(*self) => item_view(*self)->Stmt_0));
                s.to_string()
            },
        }
    }
}

impl Func {
    pub fn to_string(&self) -> (s: String)
        ensures
            s@ == func_text(func_view(*self)),
    {
        let tr = self.ret.to_string();
        let pv = var_decls_strings(&self.param);
        let tp = prvec(&pv).to_string();
        let bv = items_strings(&self.body);
        let tb = pvec(&bv, "\n", "", "").to_string();
        let mut out: Vec<char> = Vec::new();
        push_string(&mut out, &tr);
        push_str(&mut out, " ");
        push_string(&mut out, &self.name);
        push_str(&mut out, "(");
        push_string(&mut out, &tp);
        push_str(&mut out, "){\n");
        push_string(&mut out, &tb);
        push_str(&mut out, "\n}\n");
        assert(out@ =~= func_text(func_view(*self)));
        chars_to_string(out)
    }
}

impl CompUnit {
    pub fn to_string(&self) -> (s: String)
        ensures
            s@ == unit_text(unit_view(*self)),
    {
        match self {
            CompUnit::Decl(d) => d.to_string(),
            CompUnit::Func(f) => f.to_string(),
        }
    }
}

} // verus!
