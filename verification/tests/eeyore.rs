use msysypi::eeyore::inst::{FnName, Inst, LVal, Oper, RVal, UOper, Var, VarUsage};
use msysypi::eeyore::trans::{Ldef, YAss};

fn t(n: i32) -> Var {
    Var(VarUsage::Temp, n)
}

fn v(n: i32) -> Var {
    Var(VarUsage::Var, n)
}

fn p(n: i32) -> Var {
    Var(VarUsage::Param, n)
}

#[test]
fn declarations_text() {
    assert_eq!(Inst::DI(t(3)).to_string(), "\tvar t3");
    assert_eq!(Inst::DArr(40, v(1)).to_string(), "\tvar 40 T1");
}

#[test]
fn assignment_text() {
    assert_eq!(Inst::Ass(LVal::Sym(v(0)), RVal::Int(-7)).to_string(), "\tT0 = -7");
    assert_eq!(Inst::Ass(LVal::SymA(v(2), RVal::Sym(t(1))), RVal::Sym(p(0))).to_string(), "\tT2[t1] = p0");
    assert_eq!(Inst::Take(t(0), p(1), RVal::Int(8)).to_string(), "\tt0 = p1[8]");
}

#[test]
fn computation_text() {
    assert_eq!(Inst::Cpt(t(0), RVal::Sym(v(1)), Oper::Le, RVal::Int(4)).to_string(), "\tt0 = T1 <= 4");
    assert_eq!(Inst::Cpt(t(0), RVal::Int(1), Oper::Or, RVal::Int(0)).to_string(), "\tt0 = 1 || 0");
    assert_eq!(Inst::UCpt(t(2), UOper::Neg, RVal::Sym(t(1))).to_string(), "\tt2 = - t1");
    assert_eq!(Inst::UCpt(t(2), UOper::Not, RVal::Int(0)).to_string(), "\tt2 = ! 0");
}

#[test]
fn control_text() {
    assert_eq!(Inst::Brch(RVal::Sym(t(0)), Oper::Ne, RVal::Int(0), 3).to_string(), "\tif t0 != 0 goto l3");
    assert_eq!(Inst::Jump(12).to_string(), "\tgoto l12");
    assert_eq!(Inst::Label(5).to_string(), "l5:");
    assert_eq!(Inst::Param(RVal::Int(9)).to_string(), "\tparam 9");
    assert_eq!(Inst::Call(FnName("putint".to_string())).to_string(), "\tcall f_putint");
    assert_eq!(Inst::CallFn(t(4), FnName("getint".to_string())).to_string(), "\tt4 = call f_getint");
    assert_eq!(Inst::Return(RVal::Sym(v(0))).to_string(), "\treturn T0");
    assert_eq!(Inst::Ret.to_string(), "\treturn");
    assert_eq!(Inst::Fn(FnName("main".to_string()), 2).to_string(), "f_main [2]");
    assert_eq!(Inst::FnE(FnName("main".to_string())).to_string(), "end f_main");
}

#[test]
fn clone_keeps_instruction() {
    let i = Inst::CallFn(t(1), FnName("f".to_string()));
    assert_eq!(i.clone().to_string(), i.to_string());
}

const FRAME_HEAD: &str = "   .text\n    .align 2\n    .global main\n    .type main, @function\nmain:\n    addi sp, sp, -16\n    sw ra,12(sp)\n";
const FRAME_TAIL: &str = "\n    .size main,.-main\n";

#[test]
fn assemble_return_constant() {
    let prog = vec![
        Inst::Fn(FnName("main".to_string()), 0),
        Inst::Return(RVal::Int(0)),
        Inst::FnE(FnName("main".to_string())),
    ];
    let expected = format!("\n{}li a0,0\nlw ra, 12(sp)\naddi sp, sp, 16\nret\n{}", FRAME_HEAD, FRAME_TAIL);
    assert_eq!(YAss(prog), expected);
}

#[test]
fn assemble_global_read() {
    let prog = vec![
        Inst::DI(v(0)),
        Inst::Ass(LVal::Sym(v(0)), RVal::Int(3)),
        Inst::Fn(FnName("main".to_string()), 0),
        Inst::Return(RVal::Sym(v(0))),
        Inst::FnE(FnName("main".to_string())),
    ];
    let data = "    .global v0\n    .section .sdata\n    .align  2\n    .type   v0, @object\n    .size   v0, 4\nv0:\n    .word   3\n\n";
    let expected = format!(
        "{}\n{}lui a0,%hi(v0)\nlw a0,%lo(v0)(a0)\nlw ra, 12(sp)\naddi sp, sp, 16\nret\n{}",
        data, FRAME_HEAD, FRAME_TAIL
    );
    assert_eq!(YAss(prog), expected);
}

#[test]
fn assemble_local_sum() {
    let prog = vec![
        Inst::Fn(FnName("main".to_string()), 0),
        Inst::DI(t(0)),
        Inst::Cpt(t(0), RVal::Int(1), Oper::Add, RVal::Int(2)),
        Inst::Return(RVal::Sym(t(0))),
        Inst::FnE(FnName("main".to_string())),
    ];
    let code = "li s1,1\nli s2,2\nadd s1,s1,s2\nsw s1,0(sp)\nlw a0,0(sp)\nlw ra, 28(sp)\naddi sp, sp, 32\nret\n";
    let head = "   .text\n    .align 2\n    .global main\n    .type main, @function\nmain:\n    addi sp, sp, -32\n    sw ra,28(sp)\n";
    let expected = format!("\n{}{}{}", head, code, FRAME_TAIL);
    assert_eq!(YAss(prog), expected);
}

#[test]
fn local_slots_follow_each_other() {
    let mut l = Ldef::new();
    assert_eq!(l.reg(t(0), 0), 0);
    assert_eq!(l.reg(t(1), 8), 4);
    assert_eq!(l.reg(v(0), 0), 12);
    assert_eq!(l.st(), 16);
    assert_eq!(l.fnd(t(0)), Some((0, 0)));
    assert_eq!(l.fnd(t(1)), Some((4, 8)));
    assert_eq!(l.fnd(v(0)), Some((12, 0)));
    assert_eq!(l.fnd(p(0)), None);
}
