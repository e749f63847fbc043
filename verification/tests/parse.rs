use msysypi::eeyore::inst::{FnName, Inst, LVal, Oper, RVal, UOper, Var, VarUsage};
use msysypi::eeyore::parser::Parse;

fn texts(a: &Vec<Inst>) -> Vec<String> {
    a.iter().map(|i| i.to_string()).collect()
}

#[test]
fn parse_function() {
    let src = "f_main [0]\n\tvar T0\n\tT0 = 3\n\treturn T0\nend f_main\n".to_string();
    let r = Parse(&src);
    assert_eq!(texts(&r), vec!["f_main [0]", "\tvar T0", "\tT0 = 3", "\treturn T0", "end f_main"]);
}

#[test]
fn parse_skips_comments_and_junk() {
    let src = "// a comment\n\tT1 = t0 + 4 // sum\n???\n\n  goto   l3\nl3:".to_string();
    let r = Parse(&src);
    assert_eq!(texts(&r), vec!["\tT1 = t0 + 4", "\tgoto l3", "l3:"]);
}

#[test]
fn parse_spacing_is_free() {
    let src = "T0=T1[t2]\nT3 [ 4 ] = -5\nif t1>=t2 goto l0\nt0=call f_getint\nt1 = !t0".to_string();
    let r = Parse(&src);
    assert_eq!(
        texts(&r),
        vec!["\tT0 = T1[t2]", "\tT3[4] = -5", "\tif t1 >= t2 goto l0", "\tt0 = call f_getint", "\tt1 = ! t0"]
    );
}

#[test]
fn parse_rejects_out_of_range() {
    let src = "\tvar T99999999999\n\tT0 = 2147483648\n\tT0 = -2147483648".to_string();
    let r = Parse(&src);
    assert_eq!(texts(&r), vec!["\tT0 = -2147483648"]);
}

#[test]
fn print_then_parse() {
    let t = |n: i32| Var(VarUsage::Temp, n);
    let prog = vec![
        Inst::Fn(FnName("f_1".to_string()), 2),
        Inst::DArr(400, Var(VarUsage::Var, 0)),
        Inst::DI(t(0)),
        Inst::Ass(LVal::SymA(Var(VarUsage::Var, 0), RVal::Sym(t(0))), RVal::Int(-1)),
        Inst::Take(t(1), Var(VarUsage::Param, 0), RVal::Int(8)),
        Inst::Cpt(t(0), RVal::Sym(t(1)), Oper::Div, RVal::Int(2)),
        Inst::Cpt(t(0), RVal::Sym(t(1)), Oper::And, RVal::Sym(t(0))),
        Inst::UCpt(t(2), UOper::Neg, RVal::Int(7)),
        Inst::Brch(RVal::Int(0), Oper::Ne, RVal::Sym(t(2)), 4),
        Inst::Jump(4),
        Inst::Label(4),
        Inst::Param(RVal::Sym(t(2))),
        Inst::Call(FnName("putint".to_string())),
        Inst::CallFn(t(3), FnName("getint".to_string())),
        Inst::Return(RVal::Sym(t(3))),
        Inst::Ret,
        Inst::FnE(FnName("f_1".to_string())),
    ];
    let mut printed = String::new();
    for i in prog.iter() {
        printed.push_str(&i.to_string());
        printed.push('\n');
    }
    assert_eq!(texts(&Parse(&printed)), texts(&prog));
}

#[test]
fn parse_joined_texts() {
    let a = "\tvar T0\n\tT0 = 3".to_string();
    let b = "\treturn T0\n???".to_string();
    let joined = format!("{}\n{}", a, b);
    let mut both = texts(&Parse(&a));
    both.extend(texts(&Parse(&b)));
    assert_eq!(texts(&Parse(&joined)), both);
    assert_eq!(both, vec!["\tvar T0", "\tT0 = 3", "\treturn T0"]);
}

#[test]
fn parse_trailing_comment() {
    let x = "\tT0 = T1 / t2".to_string();
    assert_eq!(texts(&Parse(&format!("{}//then {}", x, "T9 = 1"))), texts(&Parse(&x)));
    assert_eq!(texts(&Parse(&x)), vec!["\tT0 = T1 / t2"]);
}
