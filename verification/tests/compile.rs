use msysypi::sysY::ast::{
    BlockItem, CompUnit, CondExpr, Decl, DeclType, Expr, Func, FunctType, InitCont, LVal, Oper, Stmt, VarDecl, VarInit,
};
use msysypi::sysY::compile::compile;

fn num(n: i32) -> Box<Expr> {
    Box::new(Expr::Num(n))
}

fn var(n: &str) -> Box<Expr> {
    Box::new(Expr::LVal(LVal { name: n.to_string(), ind: vec![] }))
}

fn scalar(n: &str, init: VarInit) -> Box<VarDecl> {
    Box::new(VarDecl { dtype: DeclType::Var, name: n.to_string(), dims: vec![], init })
}

fn decl(vars: Vec<Box<VarDecl>>) -> Box<BlockItem> {
    Box::new(BlockItem::Decl(Box::new(Decl(DeclType::Var, vars))))
}

fn stmt(s: Stmt) -> Box<BlockItem> {
    Box::new(BlockItem::Stmt(Box::new(s)))
}

fn func(name: &str, param: Vec<Box<VarDecl>>, body: Vec<Box<BlockItem>>) -> Box<CompUnit> {
    Box::new(CompUnit::Func(Box::new(Func { name: name.to_string(), ret: FunctType::Int, param, body })))
}

#[test]
fn compile_return_constant() {
    let prog = vec![func("main", vec![], vec![stmt(Stmt::Ret(num(0)))])];
    assert_eq!(compile(prog).print(), "f_main [0]\n\treturn 0\nend f_main\n");
}

#[test]
fn compile_empty_program() {
    assert_eq!(compile(vec![]).print(), "\n");
}

#[test]
fn compile_global_variable() {
    let g = Box::new(CompUnit::Decl(Box::new(Decl(
        DeclType::Var,
        vec![scalar("a", VarInit::I(Box::new(InitCont::Val(num(3)))))],
    ))));
    let prog = vec![g, func("main", vec![], vec![stmt(Stmt::Ret(var("a")))])];
    assert_eq!(compile(prog).print(), "\tvar T0\n\tT0 = 3\nf_main [0]\n\treturn T0\nend f_main\n");
}

#[test]
fn compile_increment() {
    let body = vec![
        decl(vec![scalar("x", VarInit::Nil)]),
        stmt(Stmt::Assign(LVal { name: "x".to_string(), ind: vec![] }, Box::new(Expr::Op(var("x"), Oper::Add, num(1))))),
        stmt(Stmt::Ret(var("x"))),
    ];
    let prog = vec![func("main", vec![], body)];
    assert_eq!(compile(prog).print(), "f_main [0]\n\tvar T0\n\tT0 = T0 + 1\n\treturn T0\nend f_main\n");
}

#[test]
fn compile_if_without_else() {
    let cond = Box::new(CondExpr::Comp(Box::new(Expr::Op(var("x"), Oper::Lt, num(1)))));
    let then = Box::new(Stmt::Assign(LVal { name: "x".to_string(), ind: vec![] }, num(2)));
    let body = vec![
        decl(vec![scalar("x", VarInit::Nil)]),
        Box::new(BlockItem::Stmt(Stmt::If1(cond, then))),
        stmt(Stmt::Ret(var("x"))),
    ];
    let prog = vec![func("main", vec![], body)];
    assert_eq!(
        compile(prog).print(),
        "f_main [0]\n\tvar T0\n\tif T0 < 1 goto l0\n\tgoto l1\nl0:\n\tT0 = 2\nl1:\n\treturn T0\nend f_main\n"
    );
}

#[test]
fn compile_if_with_else() {
    let cond = Box::new(CondExpr::Comp(var("x")));
    let then = Box::new(Stmt::Assign(LVal { name: "x".to_string(), ind: vec![] }, num(2)));
    let other = Box::new(Stmt::Assign(LVal { name: "x".to_string(), ind: vec![] }, num(3)));
    let body = vec![decl(vec![scalar("x", VarInit::Nil)]), Box::new(BlockItem::Stmt(Stmt::If2(cond, then, other)))];
    let prog = vec![func("main", vec![], body)];
    assert_eq!(
        compile(prog).print(),
        "f_main [0]\n\tvar T0\n\tif 0 != T0 goto l0\n\tgoto l2\nl0:\n\tT0 = 2\n\tgoto l1\nl2:\n\tT0 = 3\nl1:\nend f_main\n"
    );
}

#[test]
fn compile_while_with_break() {
    let cond = Box::new(CondExpr::Comp(var("i")));
    let body = Box::new(Stmt::Block(vec![stmt(Stmt::Break)]));
    let items = vec![
        decl(vec![scalar("i", VarInit::Nil)]),
        Box::new(BlockItem::Stmt(Stmt::Whi(cond, body))),
        stmt(Stmt::Ret(num(0))),
    ];
    let prog = vec![func("main", vec![], items)];
    assert_eq!(
        compile(prog).print(),
        "f_main [0]\n\tvar T0\nl0:\n\tif 0 != T0 goto l1\n\tgoto l2\nl1:\n\tgoto l2\n\tgoto l0\nl2:\n\treturn 0\nend f_main\n"
    );
}

#[test]
fn compile_while_with_continue() {
    let cond = Box::new(CondExpr::Comp(var("i")));
    let body = Box::new(Stmt::Continue);
    let items = vec![decl(vec![scalar("i", VarInit::Nil)]), Box::new(BlockItem::Stmt(Stmt::Whi(cond, body)))];
    let prog = vec![func("main", vec![], items)];
    assert_eq!(
        compile(prog).print(),
        "f_main [0]\n\tvar T0\nl0:\n\tif 0 != T0 goto l1\n\tgoto l2\nl1:\n\tgoto l0\n\tgoto l0\nl2:\nend f_main\n"
    );
}

#[test]
fn compile_short_circuit_and() {
    let l = Box::new(CondExpr::Comp(var("a")));
    let r = Box::new(CondExpr::Comp(var("b")));
    let cond = Box::new(CondExpr::And(l, r));
    let items = vec![
        decl(vec![scalar("a", VarInit::Nil), scalar("b", VarInit::Nil)]),
        Box::new(BlockItem::Stmt(Stmt::If1(cond, Box::new(Stmt::Ret(num(1)))))),
    ];
    let prog = vec![func("main", vec![], items)];
    assert_eq!(
        compile(prog).print(),
        "f_main [0]\n\tvar T0\n\tvar T1\n\tif 0 != T0 goto l0\n\tgoto l2\nl0:\n\tif 0 != T1 goto l1\n\tgoto l2\nl1:\n\treturn 1\nl2:\nend f_main\n"
    );
}

#[test]
fn compile_array_and_call() {
    let a = Box::new(VarDecl { dtype: DeclType::Var, name: "a".to_string(), dims: vec![Box::new(Expr::Nil)], init: VarInit::Nil });
    let fbody = vec![stmt(Stmt::Ret(Box::new(Expr::LVal(LVal { name: "a".to_string(), ind: vec![num(1)] }))))];
    let b = Box::new(VarDecl {
        dtype: DeclType::Var,
        name: "b".to_string(),
        dims: vec![num(2)],
        init: VarInit::I(Box::new(InitCont::Vax(vec![Box::new(InitCont::Val(num(1))), Box::new(InitCont::Val(num(2)))]))),
    });
    let call = Box::new(Expr::FnCall("f".to_string(), vec![var("b")]));
    let mbody = vec![decl(vec![b]), stmt(Stmt::Ret(call))];
    let prog = vec![func("f", vec![a], fbody), func("main", vec![], mbody)];
    assert_eq!(
        compile(prog).print(),
        "f_f [1]\n\tvar t0\n\tvar t1\n\tt1 = 1 * 4\n\tt0 = p0[t1]\n\treturn t0\nend f_f\nf_main [0]\n\tvar 8 T0\n\tvar t0\n\tT0[0] = 1\n\tT0[4] = 2\n\tparam T0\n\tt0 = call f_f\n\treturn t0\nend f_main\n"
    );
}

#[test]
fn compile_constant_folded() {
    let c = Box::new(CompUnit::Decl(Box::new(Decl(
        DeclType::Const,
        vec![Box::new(VarDecl {
            dtype: DeclType::Const,
            name: "n".to_string(),
            dims: vec![],
            init: VarInit::I(Box::new(InitCont::Val(num(4)))),
        })],
    ))));
    let ret = Box::new(Expr::Op(var("n"), Oper::Mul, num(2)));
    let prog = vec![c, func("main", vec![], vec![stmt(Stmt::Ret(ret))])];
    assert_eq!(compile(prog).print(), "\tvar T0\n\tT0 = 4\nf_main [0]\n\treturn 8\nend f_main\n");
}

#[test]
fn compile_labels_placed_once() {
    let inner = Box::new(Stmt::Block(vec![
        Box::new(BlockItem::Stmt(Stmt::If2(
            Box::new(CondExpr::Or(Box::new(CondExpr::Comp(var("a"))), Box::new(CondExpr::Comp(var("b"))))),
            Box::new(Stmt::Break),
            Box::new(Stmt::Continue),
        ))),
    ]));
    let items = vec![
        decl(vec![scalar("a", VarInit::Nil), scalar("b", VarInit::Nil)]),
        Box::new(BlockItem::Stmt(Stmt::Whi(Box::new(CondExpr::Comp(var("a"))), inner))),
        Box::new(BlockItem::Stmt(Stmt::Whi(Box::new(CondExpr::Comp(var("b"))), Box::new(Stmt::Break)))),
        stmt(Stmt::Ret(num(0))),
    ];
    let out = compile(vec![func("main", vec![], items)]).print();
    let labels: Vec<&str> = out.lines().filter(|l| l.ends_with(':')).collect();
    let mut sorted = labels.clone();
    sorted.sort();
    sorted.dedup();
    assert_eq!(sorted.len(), labels.len());
    assert_eq!(labels.len(), 10);
    for l in out.lines().filter(|l| l.contains("goto")) {
        let target = format!("{}:", l.rsplit(' ').next().unwrap());
        assert!(labels.contains(&target.as_str()), "jump to {} has no label", target);
    }
}

#[test]
fn compile_functions_restart_locals() {
    let f = func("f", vec![], vec![decl(vec![scalar("x", VarInit::Nil)]), stmt(Stmt::Ret(var("x")))]);
    let m = func("main", vec![], vec![decl(vec![scalar("y", VarInit::Nil)]), stmt(Stmt::Ret(var("y")))]);
    assert_eq!(
        compile(vec![f, m]).print(),
        "f_f [0]\n\tvar T0\n\treturn T0\nend f_f\nf_main [0]\n\tvar T0\n\treturn T0\nend f_main\n"
    );
}

#[test]
fn compile_unary_plus_assigns_target() {
    let plus = |e: Box<Expr>| Box::new(Expr::UOp(msysypi::sysY::ast::UOper::Pos, e));
    let x = || LVal { name: "x".to_string(), ind: vec![] };
    let body = vec![
        decl(vec![scalar("x", VarInit::Nil), scalar("y", VarInit::Nil)]),
        stmt(Stmt::Assign(x(), plus(num(5)))),
        stmt(Stmt::Assign(x(), plus(var("y")))),
        stmt(Stmt::Assign(x(), plus(var("x")))),
        stmt(Stmt::Ret(plus(var("x")))),
    ];
    let prog = vec![func("main", vec![], body)];
    assert_eq!(
        compile(prog).print(),
        "f_main [0]\n\tvar T0\n\tvar T1\n\tvar t0\n\tT0 = 5\n\tT0 = T1\n\treturn T0\nend f_main\n"
    );
}

#[test]
fn compile_nested_block_keeps_outer_variable() {
    let inner = Stmt::Block(vec![decl(vec![scalar("a", VarInit::I(Box::new(InitCont::Val(num(2)))))])]);
    let body = vec![
        decl(vec![scalar("a", VarInit::I(Box::new(InitCont::Val(num(1)))))]),
        stmt(inner),
        stmt(Stmt::Ret(var("a"))),
    ];
    let prog = vec![func("main", vec![], body)];
    assert_eq!(
        compile(prog).print(),
        "f_main [0]\n\tvar T0\n\tvar T1\n\tT0 = 1\n\tT1 = 2\n\treturn T0\nend f_main\n"
    );
}

#[test]
fn compile_parameter_hides_constant() {
    let c = Box::new(CompUnit::Decl(Box::new(Decl(
        DeclType::Const,
        vec![Box::new(VarDecl {
            dtype: DeclType::Const,
            name: "n".to_string(),
            dims: vec![],
            init: VarInit::I(Box::new(InitCont::Val(num(5)))),
        })],
    ))));
    let f = func("f", vec![scalar("n", VarInit::Nil)], vec![stmt(Stmt::Ret(var("n")))]);
    let m = func("main", vec![], vec![stmt(Stmt::Ret(var("n")))]);
    let out = compile(vec![c, f, m]).print();
    assert!(out.contains("f_f [1]\n\treturn p0\nend f_f\n"), "{}", out);
    assert!(out.contains("f_main [0]\n\treturn 5\nend f_main\n"), "{}", out);
}
