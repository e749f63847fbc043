use msysypi::sysY::ast::{CompUnit, Decl, DeclType, Expr, InitCont, LVal, VarDecl, VarInit};
use msysypi::sysY::eval::{bmult, dicast, incast, vicast, vprep, Prep, VScope, VR};

fn num(n: i32) -> Box<Expr> {
    Box::new(Expr::Num(n))
}

#[test]
fn strides_of_dimensions() {
    assert_eq!(bmult(&vec![2, 3]), vec![6, 3, 1]);
    assert_eq!(bmult(&vec![]), vec![1]);
    assert_eq!(bmult(&vec![4]), vec![4, 1]);
}

#[test]
fn dimension_casts() {
    assert_eq!(dicast(&vec![num(2), Box::new(Expr::Nil)]), vec![2, -1]);
    assert_eq!(incast(&vec![num(1), num(2)]), Some(vec![1, 2]));
    let x = Box::new(Expr::LVal(LVal { name: "x".to_string(), ind: vec![] }));
    assert_eq!(incast(&vec![num(1), x]), None);
    assert_eq!(vicast(&vec![num(5), num(6)]), vec![5, 6]);
}

#[test]
fn scopes_shadow_and_restore() {
    let mut s = VScope::new();
    let x = "x".to_string();
    assert!(s.find(&x).is_none());
    s.register(&x, VR::Int(3), 0);
    match s.find(&x) {
        Some((VR::Int(v), d)) => {
            assert_eq!(*v, 3);
            assert_eq!(*d, 0);
        },
        _ => panic!("x not found"),
    }
    s.enter();
    s.register(&x, VR::Int(4), 0);
    match s.find(&x) {
        Some((VR::Int(v), _)) => assert_eq!(*v, 4),
        _ => panic!("x not found"),
    }
    s.exit();
    match s.find(&x) {
        Some((VR::Int(v), _)) => assert_eq!(*v, 3),
        _ => panic!("x not found"),
    }
}

#[test]
fn folding_constants() {
    let mut s = VScope::new();
    s.register(&"n".to_string(), VR::Int(5), 0);
    let e = Expr::Op(Box::new(Expr::LVal(LVal { name: "n".to_string(), ind: vec![] })), msysypi::sysY::ast::Oper::Mul, num(3));
    let f = e.fold(&s);
    assert_eq!(f.to_string(), "15");
    let g = Expr::Op(num(7), msysypi::sysY::ast::Oper::Mod, num(-2)).fold(&s);
    assert_eq!(g.to_string(), "1");
    let h = Expr::Op(num(-7), msysypi::sysY::ast::Oper::Div, num(2)).fold(&s);
    assert_eq!(h.to_string(), "-3");
}

#[test]
fn constant_array_keeps_its_shape() {
    let vals: Vec<Box<InitCont<Box<Expr>>>> = (1..=5).map(|k| Box::new(InitCont::Val(num(k)))).collect();
    let a = Box::new(VarDecl {
        dtype: DeclType::Const,
        name: "a".to_string(),
        dims: vec![num(2), num(2)],
        init: VarInit::I(Box::new(InitCont::Vax(vals))),
    });
    let unit = Box::new(CompUnit::Decl(Box::new(Decl(DeclType::Const, vec![a]))));
    let mut s = VScope::new();
    let r = vprep(vec![unit], &mut s);
    assert_eq!(r[0].to_string(), "const int  a [ 2][ 2] = {  {  1, 2 }, {  3, 4 } };\n");
}

#[test]
fn constant_array_rows_from_nested_lists() {
    let row = |k: i32| Box::new(InitCont::Vax(vec![Box::new(InitCont::Val(num(k)))]));
    let vals: Vec<Box<InitCont<Box<Expr>>>> =
        vec![row(1), Box::new(InitCont::Val(num(2))), Box::new(InitCont::Val(num(3))), row(4)];
    let a = Box::new(VarDecl {
        dtype: DeclType::Const,
        name: "a".to_string(),
        dims: vec![num(2), num(2)],
        init: VarInit::I(Box::new(InitCont::Vax(vals))),
    });
    let unit = Box::new(CompUnit::Decl(Box::new(Decl(DeclType::Const, vec![a]))));
    let mut s = VScope::new();
    let r = vprep(vec![unit], &mut s);
    assert_eq!(r[0].to_string(), "const int  a [ 2][ 2] = {  {  1 }, {  2, 3 } };\n");
}

#[test]
fn constant_array_reads_row_major() {
    let vals: Vec<Box<InitCont<Box<Expr>>>> = (1..=4).map(|k| Box::new(InitCont::Val(num(k)))).collect();
    let a = Box::new(VarDecl {
        dtype: DeclType::Const,
        name: "a".to_string(),
        dims: vec![num(2), num(3)],
        init: VarInit::I(Box::new(InitCont::Vax(vals))),
    });
    let unit = Box::new(CompUnit::Decl(Box::new(Decl(DeclType::Const, vec![a]))));
    let mut s = VScope::new();
    let _ = vprep(vec![unit], &mut s);
    let at = |i: i32, j: i32| Expr::LVal(LVal { name: "a".to_string(), ind: vec![num(i), num(j)] }).fold(&s).to_string();
    assert_eq!(at(0, 0), "1");
    assert_eq!(at(0, 2), "3");
    assert_eq!(at(1, 0), "4");
    assert_eq!(at(1, 1), "0");
    assert_eq!(at(1, 2), "0");
}

#[test]
fn constant_array_without_initializer_reads_zero() {
    let a = Box::new(VarDecl {
        dtype: DeclType::Const,
        name: "a".to_string(),
        dims: vec![num(2), num(2)],
        init: VarInit::Nil,
    });
    let unit = Box::new(CompUnit::Decl(Box::new(Decl(DeclType::Const, vec![a]))));
    let mut s = VScope::new();
    let _ = vprep(vec![unit], &mut s);
    for i in 0..2 {
        for j in 0..2 {
            let e = Expr::LVal(LVal { name: "a".to_string(), ind: vec![num(i), num(j)] }).fold(&s);
            assert_eq!(e.to_string(), "0");
        }
    }
}

#[test]
fn local_variable_hides_outer_constant() {
    let mut s = VScope::new();
    let n = "n".to_string();
    s.register(&n, VR::Int(5), 0);
    s.enter();
    let d = VarDecl { dtype: DeclType::Var, name: n.clone(), dims: vec![], init: VarInit::Nil };
    let _ = d.prep(&mut s);
    assert!(s.find(&n).is_none());
    let e = Expr::LVal(LVal { name: n.clone(), ind: vec![] }).fold(&s);
    assert_eq!(e.to_string(), "n");
    s.exit();
    match s.find(&n) {
        Some((VR::Int(v), _)) => assert_eq!(*v, 5),
        _ => panic!("n not found"),
    }
}

#[test]
fn folding_with_no_scope() {
    let mut s = VScope::new();
    s.exit();
    let d = Box::new(VarDecl {
        dtype: DeclType::Var,
        name: "x".to_string(),
        dims: vec![],
        init: VarInit::I(Box::new(InitCont::Val(Box::new(Expr::Op(num(2), msysypi::sysY::ast::Oper::Add, num(3)))))),
    });
    let r = vprep(vec![d], &mut s);
    assert_eq!(r[0].to_string(), "x  = 5");
    assert!(s.find(&"x".to_string()).is_none());
}
