use msysypi::eeyore::inst::{Oper, UOper};
use msysypi::tigger::inst::{fnm, freg, is_int10, is_int12, sfn, sreg, treg, Fn, Glo, Inst, Prog, VarD};

#[test]
fn register_names() {
    assert_eq!(treg("x0"), 0);
    assert_eq!(treg("s0"), 1);
    assert_eq!(treg("s11"), 12);
    assert_eq!(treg("t0"), 13);
    assert_eq!(treg("t6"), 19);
    assert_eq!(treg("a0"), 20);
    assert_eq!(treg("a7"), 27);
    assert_eq!(freg(0), ('x', 0));
    assert_eq!(freg(12), ('s', 11));
    assert_eq!(freg(13), ('t', 0));
    assert_eq!(freg(27), ('a', 7));
    assert_eq!(sreg(5), "s4");
    assert_eq!(sreg(21), "a1");
}

#[test]
fn register_name_roundtrip() {
    for r in 0u8..28 {
        assert_eq!(treg(&sreg(r)), r);
    }
}

#[test]
fn immediate_ranges() {
    assert!(is_int12(2047));
    assert!(!is_int12(2048));
    assert!(is_int12(-2048));
    assert!(!is_int12(-2049));
    assert!(is_int10(511));
    assert!(!is_int10(512));
    assert!(is_int10(-512));
    assert!(!is_int10(-513));
}

#[test]
fn function_name_table() {
    let mut g = Glo::new();
    assert_eq!(fnm(&mut g, "main"), 0);
    assert_eq!(fnm(&mut g, "putint"), 1);
    assert_eq!(fnm(&mut g, "main"), 0);
    assert_eq!(sfn(&g, 0), "main");
    assert_eq!(sfn(&g, 1), "putint");
}

#[test]
fn instruction_text() {
    let mut g = Glo::new();
    let f = fnm(&mut g, "getint");
    assert_eq!(Inst::Op(2, 3, Oper::Add, 20).ts(&g), "s1 = s2 + a0");
    assert_eq!(Inst::Oi(2, 3, Oper::Lt, -4).ts(&g), "s1 = s2 < -4");
    assert_eq!(Inst::Ou(2, UOper::Neg, 3).ts(&g), "s1 = - s2");
    assert_eq!(Inst::Ts(13, 0).ts(&g), "t0 = x0");
    assert_eq!(Inst::Li(20, 7).ts(&g), "a0 = 7");
    assert_eq!(Inst::St(2, 4, 3).ts(&g), "s1[4] =  s2");
    assert_eq!(Inst::Ld(2, 3, 4).ts(&g), "s1 =  s2[4]");
    assert_eq!(Inst::Cj(2, Oper::Ge, 3, 9).ts(&g), "if s1 >= s2 goto l9");
    assert_eq!(Inst::Jm(9).ts(&g), "goto l9");
    assert_eq!(Inst::Lb(9).ts(&g), "l9:");
    assert_eq!(Inst::Cl(f).ts(&g), "call getint");
    assert_eq!(Inst::Rt.ts(&g), "return");
    assert_eq!(Inst::Sst(2, 3).ts(&g), "store s1 3");
    assert_eq!(Inst::Sld(3, 2).ts(&g), "load 3 s1");
    assert_eq!(Inst::Vld(1, 2).ts(&g), "load v1 s1");
    assert_eq!(Inst::Sla(3, 2).ts(&g), "loadaddr 3 s1");
    assert_eq!(Inst::Vla(1, 2).ts(&g), "loadaddr v1 s1");
    assert_eq!(Inst::Edf.ts(&g), "");
}

#[test]
fn instruction_assembly() {
    let mut g = Glo::new();
    let f = fnm(&mut g, "putint");
    assert_eq!(Inst::Op(2, 3, Oper::Add, 4).tr(16, &g), "add s1,s2,s3\n");
    assert_eq!(Inst::Op(2, 3, Oper::Eq, 4).tr(16, &g), "xor s1,s2,s3\nseqz s1,s1\n");
    assert_eq!(Inst::Op(2, 3, Oper::Le, 4).tr(16, &g), "sgt s1,s2,s3\nseqz s1,s1\n");
    assert_eq!(Inst::Op(2, 3, Oper::Ne, 4).tr(16, &g), "xor s1,s2,s3\nsnez s1,s1\n");
    assert_eq!(Inst::Op(2, 3, Oper::Or, 4).tr(16, &g), "or s1,s2,s3\nsnez s1,s1\n");
    assert_eq!(Inst::Op(2, 3, Oper::And, 4).tr(16, &g), "snez s1,s2\nsnez s0,s3\nand s1,s1,s0\n");
    assert_eq!(Inst::Oi(2, 3, Oper::Add, 5).tr(16, &g), "addi s1,s2,5\n");
    assert_eq!(Inst::Oi(2, 3, Oper::Lt, 5).tr(16, &g), "slti s1,s2,5\n");
    assert_eq!(Inst::Oi(2, 3, Oper::Mul, 5).tr(16, &g), "li s0,5\nmul s1,s2,s0\n");
    assert_eq!(Inst::Oi(2, 3, Oper::Add, 5000).tr(16, &g), "li s0,5000\nadd s1,s2,s0\n");
    assert_eq!(Inst::Ou(2, UOper::Neg, 3).tr(16, &g), "neg s1,s2\n");
    assert_eq!(Inst::Ou(2, UOper::Not, 3).tr(16, &g), "seqz s1,s2\n");
    assert_eq!(Inst::Ts(2, 3).tr(16, &g), "mv s1,s2\n");
    assert_eq!(Inst::Li(2, -3).tr(16, &g), "li s1,-3\n");
    assert_eq!(Inst::St(2, 8, 3).tr(16, &g), "sw s2,8(s1)\n");
    assert_eq!(Inst::St(2, 4096, 3).tr(16, &g), "li s0,4096\nadd s0,s0,s1\nsw s2,0(s0)\n");
    assert_eq!(Inst::Ld(2, 3, 8).tr(16, &g), "lw s1,8(s2)\n");
    assert_eq!(Inst::Cj(2, Oper::Lt, 3, 7).tr(16, &g), "blt s1,s2,.l7\n");
    assert_eq!(Inst::Jm(7).tr(16, &g), "j .l7\n");
    assert_eq!(Inst::Lb(7).tr(16, &g), ".l7:\n");
    assert_eq!(Inst::Cl(f).tr(16, &g), "call putint\n");
    assert_eq!(Inst::Rt.tr(16, &g), "lw ra, 12(sp)\naddi sp, sp, 16\nret\n");
    assert_eq!(Inst::Rt.tr(4096, &g), "\nli s0,4096\nadd sp,sp,s0\nlw ra, -4(sp)\nret\n");
    assert_eq!(Inst::Sst(2, 3).tr(16, &g), "sw s1,12(sp)\n");
    assert_eq!(Inst::Sld(3, 2).tr(16, &g), "lw s1,12(sp)\n");
    assert_eq!(Inst::Vld(0, 2).tr(16, &g), "lui s1,%hi(v0)\nlw s1,%lo(v0)(s1)\n");
    assert_eq!(Inst::Sla(3, 2).tr(16, &g), "addi s1,sp,12\n");
    assert_eq!(Inst::Sla(600, 2).tr(16, &g), "li s0,600\nadd s1,s0,sp\n");
    assert_eq!(Inst::Vla(1, 2).tr(16, &g), "la s1,v1\n");
    assert_eq!(Inst::Edf.tr(16, &g), "");
}

#[test]
fn definitions() {
    assert_eq!(VarD::I(0, 5).to_string(), "v0 = 5\n");
    assert_eq!(VarD::A(1, 40).to_string(), "v1 = malloc 40\n");
    assert_eq!(
        VarD::I(0, 5).tr(),
        "   .global v0\n    .section .sdata\n    .align 2\n    .type v0,@object\n    .size v0,4\nv0:\n    .word 5\n"
    );
    assert_eq!(VarD::A(1, 40).tr(), "   .comm v1, 40, 4\n");
}

#[test]
fn function_frame() {
    let mut g = Glo::new();
    let mut f = Fn::new();
    f.name = fnm(&mut g, "main");
    f.ps(Inst::Li(20, 0));
    f.ps(Inst::Rt);
    let expected = "   .text\n    .align 2\n    .global main\n    .type main, @function\nmain:\n    addi sp, sp, -16\n    sw ra,12(sp)\nli a0,0\nlw ra, 12(sp)\naddi sp, sp, 16\nret\n\n    .size main,.-main\n";
    assert_eq!(f.tr(&g), expected);
}

#[test]
fn function_frame_large() {
    let mut g = Glo::new();
    let mut f = Fn::new();
    f.name = fnm(&mut g, "big");
    f.sta = 8192;
    f.ps(Inst::Rt);
    let expected = "   .text\n.align 2\n.global big\n.type big, @function\nbig:\nsw ra,-4(sp)\nli s0, -32784\nadd sp, sp, s0\n\nli s0,32784\nadd sp,sp,s0\nlw ra, -4(sp)\nret\n\n.size big,.-big\n";
    assert_eq!(f.tr(&g), expected);
}

#[test]
fn program_text() {
    let mut g = Glo::new();
    let mut f = Fn::new();
    f.name = fnm(&mut g, "main");
    f.ps(Inst::Rt);
    let p = Prog { vdef: vec![VarD::A(0, 8)], fdef: vec![f] };
    let expected = "   .comm v0, 8, 4\n   .text\n    .align 2\n    .global main\n    .type main, @function\nmain:\n    addi sp, sp, -16\n    sw ra,12(sp)\nlw ra, 12(sp)\naddi sp, sp, 16\nret\n\n    .size main,.-main\n";
    assert_eq!(p.tr(&g), expected);
}

#[test]
fn program_parse() {
    let text = "v0 = 5\nv1 = malloc 40\nf_main [0] [4]\n  s0 = 5   // load five\n  a0 = s0 + s1\n  call f_putint\n  s1[4] =  s2\n  load v1 s1\n  ~~ not an instruction\nl3:\n  if s1 >= s2 goto l3\n  return\nend f_main\nf_dangling [1] [0]\n  return\n";
    let mut g = Glo::new();
    let p = Prog::parse(text.to_string(), &mut g);
    assert_eq!(p.vdef, vec![VarD::I(0, 5), VarD::A(1, 40)]);
    assert_eq!(p.fdef.len(), 1);
    let f = &p.fdef[0];
    assert_eq!(f.name, 0);
    assert_eq!(f.par, 0);
    assert_eq!(f.sta, 4);
    assert_eq!(
        f.inst,
        vec![
            Inst::Li(1, 5),
            Inst::Op(20, 1, Oper::Add, 2),
            Inst::Cl(1),
            Inst::St(2, 4, 3),
            Inst::Vld(1, 2),
            Inst::Lb(3),
            Inst::Cj(2, Oper::Ge, 3, 3),
            Inst::Rt,
        ]
    );
    assert_eq!(sfn(&g, 0), "main");
    assert_eq!(sfn(&g, 1), "putint");
    assert_eq!(sfn(&g, 2), "dangling");
}

#[test]
fn printed_instructions_read_back() {
    let mut g = Glo::new();
    let main = fnm(&mut g, "main");
    let put = fnm(&mut g, "putint");
    let insts = vec![
        Inst::Op(2, 3, Oper::Div, 20),
        Inst::Oi(2, 3, Oper::Sub, -4),
        Inst::Ou(2, UOper::Not, 3),
        Inst::Ts(13, 0),
        Inst::Li(20, -7),
        Inst::St(2, 4, 3),
        Inst::Ld(2, 3, 4),
        Inst::Cj(2, Oper::Ne, 3, 9),
        Inst::Jm(9),
        Inst::Lb(9),
        Inst::Cl(put),
        Inst::Sst(2, 3),
        Inst::Sld(3, 2),
        Inst::Vld(1, 2),
        Inst::Sla(3, 2),
        Inst::Vla(1, 2),
        Inst::Spa(20, 21),
        Inst::Rt,
    ];
    let mut text = String::from("f_main [2] [8]\n");
    for i in &insts {
        text.push_str(&i.ts(&g));
        text.push('\n');
    }
    text.push_str("end f_main\n");
    let p = Prog::parse(text, &mut g);
    assert_eq!(p.fdef.len(), 1);
    assert_eq!(p.fdef[0].name, main);
    assert_eq!(p.fdef[0].par, 2);
    assert_eq!(p.fdef[0].sta, 8);
    assert_eq!(p.fdef[0].inst, insts);
    assert_eq!(sfn(&g, 1), "putint");
}

#[test]
fn printed_globals_read_back() {
    let ds = vec![VarD::I(0, -3), VarD::A(1, 400), VarD::I(7, 2147483647)];
    let mut text = String::new();
    for d in &ds {
        text.push_str(&d.to_string());
    }
    let mut g = Glo::new();
    let p = Prog::parse(text, &mut g);
    assert_eq!(p.vdef, ds);
    assert_eq!(p.fdef.len(), 0);
}
