use msysypi::sysY::ast::{
    pvec, BlockItem, CompUnit, CondExpr, Decl, DeclType, Expr, Func, FunctType, InitCont, LVal, Oper, Stmt, UOper,
    VarDecl, VarInit,
};

fn num(n: i32) -> Box<Expr> {
    Box::new(Expr::Num(n))
}

fn var(n: &str) -> Box<Expr> {
    Box::new(Expr::LVal(LVal { name: n.to_string(), ind: vec![] }))
}

#[test]
fn list_printer() {
    let items = vec!["a".to_string(), "b".to_string(), "c".to_string()];
    assert_eq!(pvec(&items, ";", "<", ">").to_string(), "< a; b; c>");
    assert_eq!(pvec(&vec![], ";", "<", ">").to_string(), "");
    assert_eq!(pvec(&vec!["x".to_string()], ",", "", "").to_string(), " x");
}

#[test]
fn operator_text() {
    assert_eq!(Oper::Le.to_string(), "<=");
    assert_eq!(Oper::Mod.to_string(), "%");
    assert_eq!(UOper::Pos.to_string(), "+");
    assert_eq!(DeclType::Const.to_string(), "const int");
    assert_eq!(FunctType::Void.to_string(), "void");
}

#[test]
fn expression_text() {
    assert_eq!(Expr::Op(var("a"), Oper::Add, num(1)).to_string(), "(a) + (1)");
    assert_eq!(Expr::UOp(UOper::Neg, num(-3)).to_string(), "- (-3)");
    assert_eq!(Expr::FnCall("f".to_string(), vec![num(1), var("x")]).to_string(), "f( 1, x)");
    assert_eq!(Expr::FnCall("g".to_string(), vec![]).to_string(), "g()");
    let l = LVal { name: "m".to_string(), ind: vec![num(1), var("i")] };
    assert_eq!(l.to_string(), "m[ 1][ i]");
    assert_eq!(Expr::Nil.to_string(), "");
}

#[test]
fn condition_text() {
    let c = CondExpr::Or(Box::new(CondExpr::Comp(var("a"))), Box::new(CondExpr::Comp(var("b"))));
    assert_eq!(c.to_string(), "(a) || (b)");
    let d = CondExpr::And(Box::new(c), Box::new(CondExpr::Comp(num(0))));
    assert_eq!(d.to_string(), "((a) || (b)) && (0)");
}

#[test]
fn declaration_text() {
    let init = VarInit::I(Box::new(InitCont::Vax(vec![Box::new(InitCont::Val(num(1))), Box::new(InitCont::Val(num(2)))])));
    let d = VarDecl { dtype: DeclType::Var, name: "x".to_string(), dims: vec![num(2)], init };
    assert_eq!(d.to_string(), "x [ 2] = {  1, 2 }");
    let e = VarDecl { dtype: DeclType::Const, name: "k".to_string(), dims: vec![], init: VarInit::E(Box::new(InitCont::Val(7))) };
    assert_eq!(e.to_string(), "k  = 7");
    let decl = Decl(DeclType::Const, vec![Box::new(e)]);
    assert_eq!(decl.to_string(), "const int  k  = 7;\n");
}

#[test]
fn statement_text() {
    let s = Stmt::Assign(LVal { name: "a".to_string(), ind: vec![] }, num(1));
    assert_eq!(s.to_string(), "a = 1;\n");
    assert_eq!(Stmt::Break.to_string(), "break;\n");
    assert_eq!(Stmt::Ret(Box::new(Expr::Nil)).to_string(), "return ;\n");
    let w = Stmt::Whi(Box::new(CondExpr::Comp(var("i"))), Box::new(Stmt::Continue));
    assert_eq!(w.to_string(), "while( i ) continue;\n");
    let i = Stmt::If2(Box::new(CondExpr::Comp(var("i"))), Box::new(Stmt::Break), Box::new(Stmt::Continue));
    assert_eq!(i.to_string(), "if( i ) break;\n else continue;\n");
    let b = Stmt::Block(vec![Box::new(BlockItem::Stmt(Box::new(Stmt::Break)))]);
    assert_eq!(b.to_string(), "{\n break;\n\n}\n");
}

#[test]
fn function_text() {
    let f = Func {
        name: "main".to_string(),
        ret: FunctType::Int,
        param: vec![],
        body: vec![Box::new(BlockItem::Stmt(Box::new(Stmt::Ret(num(0)))))],
    };
    assert_eq!(f.to_string(), "int main(){\n return 0;\n\n}\n");
    let u = CompUnit::Func(Box::new(f));
    assert_eq!(u.to_string(), "int main(){\n return 0;\n\n}\n");
}
