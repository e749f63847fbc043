//! Tigger instructions, register names, the table of function names, and
//! RISC-V assembly emission.
use vstd::prelude::*;
use crate::text::{lemma_nat_text_digits, lemma_nat_text_value, nat_text, int_text, push_nat, push_int, push_str, push_string, push_chars, chars_to_string, string_chars, is_digit, digits_value, all_digits, lemma_digits_value_monotone};
use crate::eeyore::inst::{Oper, UOper, oper_text, uoper_text};

verus! {

pub open spec fn spec_is_int12(i: int) -> bool {
    -2048 <= i < 2048
}

pub open spec fn spec_is_int10(i: int) -> bool {
    -512 <= i < 512
}

/// Whether `i` fits in a 12-bit signed immediate.
pub fn is_int12(i: i32) -> (b: bool)
    ensures
        b == spec_is_int12(i as int),
{
    i >= -2048 && i < 2048
}

/// Whether `i` fits in a 10-bit signed immediate.
pub fn is_int10(i: i32) -> (b: bool)
    ensures
        b == spec_is_int10(i as int),
{
    i >= -512 && i < 512
}

// ---------------------------------------------------------------------
// Register names: register numbers 0..=27 are x0, s0..s11, t0..t6, a0..a7.

/// The letter and the index of register number `a`.
pub open spec fn spec_freg(a: u8) -> (char, u8) {
    if a < 1 {
        ('x', 0u8)
    } else if a < 13 {
        ('s', (a - 1) as u8)
    } else if a < 20 {
        ('t', (a - 13) as u8)
    } else {
        ('a', (a - 20) as u8)
    }
}

/// The first register number of the bank named by letter `c`.
pub open spec fn reg_offset(c: char) -> nat {
    if c == 'x' {
        0
    } else if c == 's' {
        1
    } else if c == 't' {
        13
    } else {
        20
    }
}

pub open spec fn is_reg_letter(c: char) -> bool {
    c == 'x' || c == 's' || c == 't' || c == 'a'
}

/// The decimal part of a register name: an optional `+`, then at least one digit.
pub open spec fn reg_index_digits(s: Seq<char>) -> Seq<char> {
    if s.len() > 0 && s[0] == '+' {
        s.drop_first()
    } else {
        s
    }
}

/// A register name that `treg` reads: a bank letter, then an unsigned decimal
/// index, such that the register number fits in a `u8`.
pub open spec fn is_reg_name(s: Seq<char>) -> bool {
    &&& s.len() >= 2
    &&& is_reg_letter(s[0])
    &&& reg_index_digits(s.drop_first()).len() > 0
    &&& all_digits(reg_index_digits(s.drop_first()))
    &&& digits_value(reg_index_digits(s.drop_first())) + reg_offset(s[0]) <= 255
}

/// The register number that a register name denotes.
pub open spec fn spec_treg(s: Seq<char>) -> nat {
    digits_value(reg_index_digits(s.drop_first())) + reg_offset(s[0])
}

/// The name of register number `a`.
pub open spec fn reg_text(a: u8) -> Seq<char> {
    seq![spec_freg(a).0] + nat_text(spec_freg(a).1 as nat)
}

/// Reading the name of a register gives its number back.
pub proof fn law_reg_name(a: u8)
    ensures
        is_reg_name(reg_text(a)),
        spec_treg(reg_text(a)) == a,
{
    let (c, k) = spec_freg(a);
    let t = reg_text(a);
    lemma_nat_text_digits(k as nat);
    lemma_nat_text_value(k as nat);
    assert(t.drop_first() =~= nat_text(k as nat));
    assert(is_digit(nat_text(k as nat)[0]));
    assert(reg_index_digits(t.drop_first()) == nat_text(k as nat));
}

/// The register number that the name `a` denotes.
pub fn treg(a: &str) -> (r: u8)
    requires
        is_reg_name(a@),
    ensures
        r as nat == spec_treg(a@),
{
    let t = string_chars(a);
    let first = t[0];
    let o: u8 = if first == 'x' {
        0
    } else if first == 's' {
        1
    } else if first == 't' {
        13
    } else {
        20
    };
    let ghost rest = t@.drop_first();
    let ghost ds = reg_index_digits(rest);
    let mut i: usize = if t[1] == '+' { 2 } else { 1 };
    let start: usize = i;
    assert(ds =~= t@.subrange(start as int, t@.len() as int));
    let mut c: u32 = 0;
    while i < t.len()
        invariant
            t@ == a@,
            start <= i <= t@.len(),
            ds =~= t@.subrange(start as int, t@.len() as int),
            all_digits(ds),
            digits_value(ds) + reg_offset(t@[0]) <= 255,
            c == digits_value(ds.take(i - start)),
        decreases t@.len() - i,
    {
        let ch = t[i];
        assert(is_digit(ds[i - start]));
        proof {
            lemma_digits_value_monotone(ds, i - start + 1);
            assert(ds.take(i - start + 1).drop_last() =~= ds.take(i - start));
            assert(ds.take(i - start + 1).last() == ch);
        }
        let d: u32 = (ch as u32) - ('0' as u32);
        c = c * 10 + d;
        i = i + 1;
    }
    assert(ds.take(i - start) =~= ds);
    (c as u8) + o
}

/// The letter and the index of register number `a`.
pub fn freg(a: u8) -> (r: (char, u8))
    ensures
        r == spec_freg(a),
{
    if a < 1 {
        return ('x', 0);
    }
    if a < 13 {
        return ('s', a - 1);
    }
    if a < 20 {
        return ('t', a - 13);
    }
    ('a', a - 20)
}

/// Appends the name of register number `a`.
pub fn render_reg(out: &mut Vec<char>, a: u8)
    ensures
        final(out)@ == old(out)@ + reg_text(a),
{
    let (c, b) = freg(a);
    out.push(c);
    push_nat(out, b as u128);
    assert(final(out)@ =~= old(out)@ + reg_text(a));
}

/// The name of register number `a`.
pub fn sreg(a: u8) -> (s: String)
    ensures
        s@ == reg_text(a),
{
    let mut out: Vec<char> = Vec::new();
    render_reg(&mut out, a);
    assert(out@ =~= reg_text(a));
    chars_to_string(out)
}


// ---------------------------------------------------------------------
// The table of function names: each name gets the number of its first
// registration.

/// The names in `names`, with `a` added at the end unless it is already there.
pub open spec fn intern(names: Seq<Seq<char>>, a: Seq<char>) -> Seq<Seq<char>> {
    if names.contains(a) {
        names
    } else {
        names.push(a)
    }
}

/// The table of function names.
#[derive(Clone)]
pub struct Glo {
    fnMap: Vec<String>,
}

impl Glo {
    /// The registered names, by number.
    pub closed spec fn names(&self) -> Seq<Seq<char>> {
        self.fnMap@.map_values(|s: String| s@)
    }

    /// No name is registered twice.
    pub open spec fn wf(&self) -> bool {
        self.names().no_duplicates()
    }

    pub fn new() -> (g: Glo)
        ensures
            g.wf(),
            g.names() == Seq::<Seq<char>>::empty(),
    {
        let g = Glo { fnMap: Vec::new() };
        assert(g.names() =~= Seq::<Seq<char>>::empty());
        g
    }

    /// The number of the name `name`; a name not yet registered is
    /// registered first.
    pub fn fnd(&mut self, name: &str) -> (id: i32)
        requires
            old(self).wf(),
            old(self).names().len() < i32::MAX,
        ensures
            final(self).wf(),
            final(self).names() == intern(old(self).names(), name@),
            0 <= id < final(self).names().len(),
            final(self).names()[id as int] == name@,
            id as int == final(self).names().index_of(name@),
    {
        let key: String = name.to_owned();
        let n = self.fnMap.len();
        let mut i: usize = 0;
        while i < n
            invariant
                n == self.fnMap@.len(),
                n < i32::MAX,
                i <= n,
                key@ == name@,
                self.wf(),
                self.names().len() == n,
                forall|j: int| 0 <= j < i ==> self.names()[j] != name@,
            decreases n - i,
        {
            if self.fnMap[i] == key {
                assert(self.names()[i as int] == name@);
                assert(self.names().contains(name@));
                let ghost k = self.names().index_of(name@);
                assert(self.names()[k] == name@);
                return i as i32;
            }
            i = i + 1;
        }
        let ghost old_names = self.names();
        assert(!old_names.contains(name@));
        self.fnMap.push(key);
        assert(self.names() =~= old_names.push(name@));
        assert(self.names()[n as int] == name@);
        assert(self.names().contains(name@));
        let ghost k = self.names().index_of(name@);
        assert(self.names()[k] == name@);
        n as i32
    }
}

/// The number of function name `a` in the table `glo`, registering it if needed.
pub fn fnm(glo: &mut Glo, a: &str) -> (id: i32)
    requires
        old(glo).wf(),
        old(glo).names().len() < i32::MAX,
    ensures
        final(glo).wf(),
        final(glo).names() == intern(old(glo).names(), a@),
        0 <= id < final(glo).names().len(),
        final(glo).names()[id as int] == a@,
        id as int == final(glo).names().index_of(a@),
{
    glo.fnd(a)
}

/// The function name registered under number `a`.
pub fn sfn(glo: &Glo, a: i32) -> (s: String)
    requires
        0 <= a < glo.names().len(),
    ensures
        s@ == glo.names()[a as int],
{
    glo.fnMap[a as usize].clone()
}

/// Registering a name and reading back its number gives the name; registering
/// it again changes nothing and gives the same number; two different names get
/// different numbers. A new name is appended and gets the next number (so
/// numbers are given densely from 0 in order of first use); a known name
/// leaves the table unchanged; a name keeps its number when others are
/// registered after it.
pub proof fn law_name_table(names: Seq<Seq<char>>, a: Seq<char>, b: Seq<char>)
    requires
        names.no_duplicates(),
    ensures
        !names.contains(a) ==> intern(names, a) == names.push(a) && intern(names, a).index_of(a) == names.len(),
        names.contains(a) ==> intern(names, a) == names,
        intern(intern(names, a), b).index_of(a) == intern(names, a).index_of(a),
        intern(names, a).no_duplicates(),
        intern(names, a).contains(a),
        intern(names, a)[intern(names, a).index_of(a)] == a,
        intern(intern(names, a), a) == intern(names, a),
        a != b ==> intern(intern(names, a), b).index_of(a) != intern(intern(names, a), b).index_of(b),
{
    let n1 = intern(names, a);
    if !names.contains(a) {
        assert(n1[names.len() as int] == a);
    }
    assert(n1.contains(a));
    let n2 = intern(n1, b);
    if !n1.contains(b) {
        assert(n2[n1.len() as int] == b);
    }
    assert(n2.contains(b));
    assert forall|i: int, j: int| 0 <= i < n2.len() && 0 <= j < n2.len() && i != j implies n2[i] != n2[j] by {
    }
    assert(n2.contains(a)) by {
        let k = n1.index_of(a);
        assert(n2[k] == a);
    }
    let k1 = n1.index_of(a);
    assert(n1[k1] == a);
    assert(n2[k1] == a);
    let k2 = n2.index_of(a);
    assert(n2[k2] == a);
    assert(k2 == k1);
    if !names.contains(a) {
        assert(n1[names.len() as int] == a);
        assert(k1 == names.len());
    }
}


// ---------------------------------------------------------------------
// Global variable definitions.

#[derive(Copy, Clone, PartialEq, Eq, Structural, Debug)]
pub enum VarD {
    /// Global integer `v{0}` with initial value `{1}`.
    I(i32, i32),
    /// Global array `v{0}` of `{1}` bytes.
    A(i32, i32),
}

/// The Tigger text of a global definition.
pub open spec fn vard_text(d: VarD) -> Seq<char> {
    match d {
        VarD::I(a, b) => "v"@ + int_text(a as int) + " = "@ + int_text(b as int) + "\n"@,
        VarD::A(a, b) => "v"@ + int_text(a as int) + " = malloc "@ + int_text(b as int) + "\n"@,
    }
}

/// The assembly of a global definition.
pub open spec fn vard_asm(d: VarD) -> Seq<char> {
    match d {
        VarD::I(a, b) => {
            let n = int_text(a as int);
            "   .global v"@ + n + "\n    .section .sdata\n    .align 2\n    .type v"@ + n
                + ",@object\n    .size v"@ + n + ",4\nv"@ + n + ":\n    .word "@ + int_text(b as int)
                + "\n"@
        },
        VarD::A(a, b) => "   .comm v"@ + int_text(a as int) + ", "@ + int_text(b as int) + ", 4\n"@,
    }
}

impl VarD {
    /// The Tigger text of this definition.
    pub fn to_string(&self) -> (s: String)
        ensures
            s@ == vard_text(*self),
    {
        let mut out: Vec<char> = Vec::new();
        match *self {
            VarD::I(a, b) => {
                push_str(&mut out, "v");
                push_int(&mut out, a as i64);
                push_str(&mut out, " = ");
                push_int(&mut out, b as i64);
                push_str(&mut out, "\n");
            },
            VarD::A(a, b) => {
                push_str(&mut out, "v");
                push_int(&mut out, a as i64);
                push_str(&mut out, " = malloc ");
                push_int(&mut out, b as i64);
                push_str(&mut out, "\n");
            },
        }
        assert(out@ =~= vard_text(*self));
        chars_to_string(out)
    }

    /// Appends the assembly of this definition.
    pub fn render_asm(&self, out: &mut Vec<char>)
        ensures
            final(out)@ == old(out)@ + vard_asm(*self),
    {
        match *self {
            VarD::I(a, b) => {
                push_str(out, "   .global v");
                push_int(out, a as i64);
                push_str(out, "\n    .section .sdata\n    .align 2\n    .type v");
                push_int(out, a as i64);
                push_str(out, ",@object\n    .size v");
                push_int(out, a as i64);
                push_str(out, ",4\nv");
                push_int(out, a as i64);
                push_str(out, ":\n    .word ");
                push_int(out, b as i64);
                push_str(out, "\n");
            },
            VarD::A(a, b) => {
                push_str(out, "   .comm v");
                push_int(out, a as i64);
                push_str(out, ", ");
                push_int(out, b as i64);
                push_str(out, ", 4\n");
            },
        }
        assert(final(out)@ =~= old(out)@ + vard_asm(*self));
    }

    /// The assembly of this definition.
    pub fn tr(&self) -> (s: String)
        ensures
            s@ == vard_asm(*self),
    {
        let mut out: Vec<char> = Vec::new();
        self.render_asm(&mut out);
        assert(out@ =~= vard_asm(*self));
        chars_to_string(out)
    }
}

/// A line of a Tigger program outside function bodies: a function header
/// (name, parameter count, stack size) or a global definition.
pub enum FD {
    F(i32, i32, i32),
    D(VarD),
}

// ---------------------------------------------------------------------
// Tigger instructions.

#[derive(Copy, Clone, PartialEq, Eq, Structural, Debug)]
pub enum Inst {
    Op(u8, u8, Oper, u8),
    Oi(u8, u8, Oper, i32),
    Ou(u8, UOper, u8),
    Ts(u8, u8),
    Li(u8, i32),
    St(u8, i32, u8),
    Ld(u8, u8, i32),
    Cj(u8, Oper, u8, i32),
    Jm(i32),
    Lb(i32),
    Cl(i32),
    Rt,
    Sst(u8, i32),
    Sld(i32, u8),
    Vld(i32, u8),
    Sla(i32, u8),
    Vla(i32, u8),
    /// `{0} = sp + {1}`: an address in the stack frame.
    Spa(u8, u8),
    Edf,
}

/// Text of a three-register instruction `op a,u,v`.
pub open spec fn rrr_text(op: Seq<char>, a: u8, u: u8, v: u8) -> Seq<char> {
    op + " "@ + reg_text(a) + ","@ + reg_text(u) + ","@ + reg_text(v) + "\n"@
}

/// `r = u o v` on registers, as RISC-V (`s0` is scratch).
pub open spec fn popr_text(a: u8, u: u8, o: Oper, v: u8) -> Seq<char> {
    match o {
        Oper::Add => rrr_text("add"@, a, u, v),
        Oper::Sub => rrr_text("sub"@, a, u, v),
        Oper::Mul => rrr_text("mul"@, a, u, v),
        Oper::Div => rrr_text("div"@, a, u, v),
        Oper::Mod => rrr_text("rem"@, a, u, v),
        Oper::Lt => rrr_text("slt"@, a, u, v),
        Oper::Gt => rrr_text("sgt"@, a, u, v),
        Oper::Le => rrr_text("sgt"@, a, u, v) + "seqz "@ + reg_text(a) + ","@ + reg_text(a) + "\n"@,
        Oper::Ge => rrr_text("slt"@, a, u, v) + "seqz "@ + reg_text(a) + ","@ + reg_text(a) + "\n"@,
        Oper::Eq => rrr_text("xor"@, a, u, v) + "seqz "@ + reg_text(a) + ","@ + reg_text(a) + "\n"@,
        Oper::And => "snez "@ + reg_text(a) + ","@ + reg_text(u) + "\nsnez s0,"@ + reg_text(v)
            + "\nand "@ + reg_text(a) + ","@ + reg_text(a) + ",s0\n"@,
        Oper::Or => rrr_text("or"@, a, u, v) + "snez "@ + reg_text(a) + ","@ + reg_text(a) + "\n"@,
        Oper::Ne => rrr_text("xor"@, a, u, v) + "snez "@ + reg_text(a) + ","@ + reg_text(a) + "\n"@,
    }
}

/// A store of register text `d` to `c(a)`, through `s0` when the offset
/// does not fit in 12 bits.
pub open spec fn sw_text(a: Seq<char>, c: int, d: Seq<char>) -> Seq<char> {
    if spec_is_int12(c) {
        "sw "@ + d + ","@ + int_text(c) + "("@ + a + ")\n"@
    } else {
        "li s0,"@ + int_text(c) + "\nadd s0,s0,"@ + a + "\n"@ + "sw "@ + d + ",0(s0)\n"@
    }
}

/// A load into register text `a` from `d(c)`, through `s0` when the offset
/// does not fit in 12 bits.
pub open spec fn lw_text(a: Seq<char>, c: Seq<char>, d: int) -> Seq<char> {
    if spec_is_int12(d) {
        "lw "@ + a + ","@ + int_text(d) + "("@ + c + ")\n"@
    } else {
        "li s0,"@ + int_text(d) + "\nadd s0,s0,"@ + c + "\n"@ + "lw "@ + a + ",0(s0)\n"@
    }
}

pub open spec fn is_comparison(o: Oper) -> bool {
    o == Oper::Lt || o == Oper::Gt || o == Oper::Le || o == Oper::Ge || o == Oper::Ne || o == Oper::Eq
}

pub open spec fn branch_text(o: Oper) -> Seq<char> {
    match o {
        Oper::Lt => "blt"@,
        Oper::Gt => "bgt"@,
        Oper::Le => "ble"@,
        Oper::Ge => "bge"@,
        Oper::Ne => "bne"@,
        _ => "beq"@,
    }
}

/// The register an instruction writes, if any.
pub open spec fn inst_writes(i: Inst) -> Option<u8> {
    match i {
        Inst::Op(a, _, _, _) => Some(a),
        Inst::Oi(a, _, _, _) => Some(a),
        Inst::Ou(a, _, _) => Some(a),
        Inst::Ts(a, _) => Some(a),
        Inst::Li(a, _) => Some(a),
        Inst::Ld(a, _, _) => Some(a),
        Inst::Sld(_, b) => Some(b),
        Inst::Vld(_, b) => Some(b),
        Inst::Sla(_, b) => Some(b),
        Inst::Vla(_, b) => Some(b),
        Inst::Spa(a, _) => Some(a),
        _ => None,
    }
}

/// What a RISC-V conditional branch `m` tests of the values of its first
/// and second registers.
pub open spec fn riscv_branch_holds(m: Seq<char>, x: int, y: int) -> bool {
    if m == "blt"@ {
        x < y
    } else if m == "bgt"@ {
        x > y
    } else if m == "ble"@ {
        x <= y
    } else if m == "bge"@ {
        x >= y
    } else if m == "bne"@ {
        x != y
    } else if m == "beq"@ {
        x == y
    } else {
        false
    }
}

/// What a Tigger comparison `x o y` states.
pub open spec fn tigger_compare(o: Oper, x: int, y: int) -> bool {
    match o {
        Oper::Lt => x < y,
        Oper::Gt => x > y,
        Oper::Le => x <= y,
        Oper::Ge => x >= y,
        Oper::Ne => x != y,
        Oper::Eq => x == y,
        _ => false,
    }
}

/// The assembly of a Tigger conditional jump `if a o c goto l` is one
/// RISC-V branch on `a` (first) and `c` (second) to `.l`, taken exactly
/// when `a o c` holds.
pub proof fn law_branch(a: u8, o: Oper, c: u8, d: i32, stk: int, names: Seq<Seq<char>>)
    requires
        is_comparison(o),
    ensures
        inst_asm(Inst::Cj(a, o, c, d), stk, names) == inst_asm(Inst::Cj(a, o, c, d), stk, names).take(3) + " "@
            + reg_text(a) + ","@ + reg_text(c) + ",.l"@ + int_text(d as int) + "\n"@,
        forall|x: int, y: int| riscv_branch_holds(#[trigger] inst_asm(Inst::Cj(a, o, c, d), stk, names).take(3), x, y)
            == tigger_compare(o, x, y),
{
    reveal_strlit("blt");
    reveal_strlit("bgt");
    reveal_strlit("ble");
    reveal_strlit("bge");
    reveal_strlit("bne");
    reveal_strlit("beq");
    let t = inst_asm(Inst::Cj(a, o, c, d), stk, names);
    let m = branch_text(o);
    assert(m.len() == 3);
    assert(t.take(3) =~= m);
    assert(t =~= m + " "@ + reg_text(a) + ","@ + reg_text(c) + ",.l"@ + int_text(d as int) + "\n"@);
    let lits = seq!["blt"@, "bgt"@, "ble"@, "bge"@, "bne"@, "beq"@];
    assert forall|p: int, q: int| 0 <= p < q < 6 implies #[trigger] lits[p] != #[trigger] lits[q] by {
        assert(lits[p][1] != lits[q][1] || lits[p][2] != lits[q][2]);
    }
    assert(lits[0] != lits[1] && lits[0] != lits[2] && lits[0] != lits[3] && lits[0] != lits[4] && lits[0] != lits[5]);
    assert(lits[1] != lits[2] && lits[1] != lits[3] && lits[1] != lits[4] && lits[1] != lits[5]);
    assert(lits[2] != lits[3] && lits[2] != lits[4] && lits[2] != lits[5]);
    assert(lits[3] != lits[4] && lits[3] != lits[5]);
    assert(lits[4] != lits[5]);
}

/// An instruction can be emitted: branches compare, calls name a registered
/// function, and stack slots turn into byte offsets that fit in an `i32`.
pub open spec fn inst_ok(i: Inst, names: Seq<Seq<char>>) -> bool {
    match i {
        Inst::Cj(_, o, _, _) => is_comparison(o),
        Inst::Cl(a) => 0 <= a < names.len(),
        Inst::Sst(_, b) => i32::MIN <= b * 4 <= i32::MAX,
        Inst::Sld(a, _) => i32::MIN <= a * 4 <= i32::MAX,
        _ => true,
    }
}

/// The Tigger text of an instruction.
pub open spec fn inst_text(i: Inst, names: Seq<Seq<char>>) -> Seq<char> {
    match i {
        Inst::Op(a, b, c, d) => reg_text(a) + " = "@ + reg_text(b) + " "@ + oper_text(c) + " "@ + reg_text(d),
        Inst::Oi(a, b, c, d) => reg_text(a) + " = "@ + reg_text(b) + " "@ + oper_text(c) + " "@ + int_text(d as int),
        Inst::Ou(a, c, d) => reg_text(a) + " = "@ + uoper_text(c) + " "@ + reg_text(d),
        Inst::Ts(a, b) => reg_text(a) + " = "@ + reg_text(b),
        Inst::Li(a, b) => reg_text(a) + " = "@ + int_text(b as int),
        Inst::St(a, c, d) => reg_text(a) + "["@ + int_text(c as int) + "] =  "@ + reg_text(d),
        Inst::Ld(a, c, d) => reg_text(a) + " =  "@ + reg_text(c) + "["@ + int_text(d as int) + "]"@,
        Inst::Cj(a, b, c, d) => "if "@ + reg_text(a) + " "@ + oper_text(b) + " "@ + reg_text(c) + " goto l"@ + int_text(d as int),
        Inst::Jm(a) => "goto l"@ + int_text(a as int),
        Inst::Lb(a) => "l"@ + int_text(a as int) + ":"@,
        Inst::Cl(a) => "call "@ + names[a as int],
        Inst::Rt => "return"@,
        Inst::Sst(a, b) => "store "@ + reg_text(a) + " "@ + int_text(b as int),
        Inst::Sld(a, b) => "load "@ + int_text(a as int) + " "@ + reg_text(b),
        Inst::Vld(a, b) => "load v"@ + int_text(a as int) + " "@ + reg_text(b),
        Inst::Sla(a, b) => "loadaddr "@ + int_text(a as int) + " "@ + reg_text(b),
        Inst::Vla(a, b) => "loadaddr v"@ + int_text(a as int) + " "@ + reg_text(b),
        Inst::Spa(a, b) => reg_text(a) + " = sp + "@ + reg_text(b),
        Inst::Edf => Seq::empty(),
    }
}

/// The RISC-V assembly of an instruction inside a function whose frame has
/// `stk` bytes.
pub open spec fn inst_asm(i: Inst, stk: int, names: Seq<Seq<char>>) -> Seq<char> {
    match i {
        Inst::Op(a, b, c, d) => popr_text(a, b, c, d),
        Inst::Oi(a, b, c, d) => {
            if spec_is_int12(d as int) && c == Oper::Add {
                "addi "@ + reg_text(a) + ","@ + reg_text(b) + ","@ + int_text(d as int) + "\n"@
            } else if spec_is_int12(d as int) && c == Oper::Lt {
                "slti "@ + reg_text(a) + ","@ + reg_text(b) + ","@ + int_text(d as int) + "\n"@
            } else {
                "li s0,"@ + int_text(d as int) + "\n"@ + popr_text(a, b, c, 1)
            }
        },
        Inst::Ou(a, c, d) => match c {
            UOper::Neg => "neg "@ + reg_text(a) + ","@ + reg_text(d) + "\n"@,
            UOper::Not => "seqz "@ + reg_text(a) + ","@ + reg_text(d) + "\n"@,
        },
        Inst::Ts(a, b) => "mv "@ + reg_text(a) + ","@ + reg_text(b) + "\n"@,
        Inst::Li(a, b) => "li "@ + reg_text(a) + ","@ + int_text(b as int) + "\n"@,
        Inst::St(a, c, d) => sw_text(reg_text(a), c as int, reg_text(d)),
        Inst::Ld(a, c, d) => lw_text(reg_text(a), reg_text(c), d as int),
        Inst::Cj(a, b, c, d) => branch_text(b) + " "@ + reg_text(a) + ","@ + reg_text(c) + ",.l"@ + int_text(d as int) + "\n"@,
        Inst::Jm(a) => "j .l"@ + int_text(a as int) + "\n"@,
        Inst::Lb(a) => ".l"@ + int_text(a as int) + ":\n"@,
        Inst::Cl(a) => "call "@ + names[a as int] + "\n"@,
        Inst::Rt => {
            if spec_is_int12(stk) {
                "lw ra, "@ + int_text(stk - 4) + "(sp)\naddi sp, sp, "@ + int_text(stk) + "\nret\n"@
            } else {
                "\nli s0,"@ + int_text(stk) + "\nadd sp,sp,s0\nlw ra, -4(sp)\nret\n"@
            }
        },
        Inst::Sst(a, b) => sw_text("sp"@, b * 4, reg_text(a)),
        Inst::Sld(a, b) => lw_text(reg_text(b), "sp"@, a * 4),
        Inst::Vld(a, b) => "lui "@ + reg_text(b) + ",%hi(v"@ + int_text(a as int) + ")\nlw "@ + reg_text(b)
            + ",%lo(v"@ + int_text(a as int) + ")("@ + reg_text(b) + ")\n"@,
        Inst::Sla(a, b) => {
            if spec_is_int10(a as int) {
                "addi "@ + reg_text(b) + ",sp,"@ + int_text(a * 4) + "\n"@
            } else {
                "li s0,"@ + int_text(a as int) + "\nadd "@ + reg_text(b) + ",s0,sp\n"@
            }
        },
        Inst::Vla(a, b) => "la "@ + reg_text(b) + ",v"@ + int_text(a as int) + "\n"@,
        Inst::Spa(a, b) => "add "@ + reg_text(a) + ",sp,"@ + reg_text(b) + "\n"@,
        Inst::Edf => Seq::empty(),
    }
}

/// The name of register number `a`, as characters.
fn reg_chars(a: u8) -> (t: Vec<char>)
    ensures
        t@ == reg_text(a),
{
    let mut t: Vec<char> = Vec::new();
    render_reg(&mut t, a);
    assert(t@ =~= reg_text(a));
    t
}

fn rrr(out: &mut Vec<char>, op: &str, a: u8, u: u8, v: u8)
    ensures
        final(out)@ == old(out)@ + rrr_text(op@, a, u, v),
{
    push_str(out, op);
    push_str(out, " ");
    render_reg(out, a);
    push_str(out, ",");
    render_reg(out, u);
    push_str(out, ",");
    render_reg(out, v);
    push_str(out, "\n");
    assert(final(out)@ =~= old(out)@ + rrr_text(op@, a, u, v));
}

/// Appends `z a,a` and a line break.
fn fix_reg(out: &mut Vec<char>, z: &str, a: u8)
    ensures
        final(out)@ == old(out)@ + z@ + reg_text(a) + ","@ + reg_text(a) + "\n"@,
{
    push_str(out, z);
    render_reg(out, a);
    push_str(out, ",");
    render_reg(out, a);
    push_str(out, "\n");
    assert(final(out)@ =~= old(out)@ + z@ + reg_text(a) + ","@ + reg_text(a) + "\n"@);
}

/// Appends the assembly of `a = u o v` on registers.
#[verifier::spinoff_prover]
#[verifier::rlimit(100)]
fn popr(out: &mut Vec<char>, a: u8, u: u8, o: Oper, v: u8)
    ensures
        final(out)@ == old(out)@ + popr_text(a, u, o, v),
{
    let ghost start = out@;
    match o {
        Oper::Add => rrr(out, "add", a, u, v),
        Oper::Sub => rrr(out, "sub", a, u, v),
        Oper::Mul => rrr(out, "mul", a, u, v),
        Oper::Div => rrr(out, "div", a, u, v),
        Oper::Mod => rrr(out, "rem", a, u, v),
        Oper::Lt => rrr(out, "slt", a, u, v),
        Oper::Gt => rrr(out, "sgt", a, u, v),
        Oper::Le => {
            rrr(out, "sgt", a, u, v);
            fix_reg(out, "seqz ", a);
        },
        Oper::Ge => {
            rrr(out, "slt", a, u, v);
            fix_reg(out, "seqz ", a);
        },
        Oper::Eq => {
            rrr(out, "xor", a, u, v);
            fix_reg(out, "seqz ", a);
        },
        Oper::And => {
            push_str(out, "snez ");
            render_reg(out, a);
            push_str(out, ",");
            render_reg(out, u);
            push_str(out, "\nsnez s0,");
            render_reg(out, v);
            push_str(out, "\nand ");
            render_reg(out, a);
            push_str(out, ",");
            render_reg(out, a);
            push_str(out, ",s0\n");
        },
        Oper::Or => {
            rrr(out, "or", a, u, v);
            fix_reg(out, "snez ", a);
        },
        Oper::Ne => {
            rrr(out, "xor", a, u, v);
            fix_reg(out, "snez ", a);
        },
    }
    assert(out@ =~= start + popr_text(a, u, o, v));
}

/// Appends a store of register text `d` to `c(a)`.
fn sw(out: &mut Vec<char>, a: &Vec<char>, c: i32, d: &Vec<char>)
    ensures
        final(out)@ == old(out)@ + sw_text(a@, c as int, d@),
{
    if is_int12(c) {
        push_str(out, "sw ");
        push_chars(out, d);
        push_str(out, ",");
        push_int(out, c as i64);
        push_str(out, "(");
        push_chars(out, a);
        push_str(out, ")\n");
    } else {
        push_str(out, "li s0,");
        push_int(out, c as i64);
        push_str(out, "\nadd s0,s0,");
        push_chars(out, a);
        push_str(out, "\n");
        push_str(out, "sw ");
        push_chars(out, d);
        push_str(out, ",0(s0)\n");
    }
    assert(final(out)@ =~= old(out)@ + sw_text(a@, c as int, d@));
}

/// Appends a load into register text `a` from `d(c)`.
fn lw(out: &mut Vec<char>, a: &Vec<char>, c: &Vec<char>, d: i32)
    ensures
        final(out)@ == old(out)@ + lw_text(a@, c@, d as int),
{
    if is_int12(d) {
        push_str(out, "lw ");
        push_chars(out, a);
        push_str(out, ",");
        push_int(out, d as i64);
        push_str(out, "(");
        push_chars(out, c);
        push_str(out, ")\n");
    } else {
        push_str(out, "li s0,");
        push_int(out, d as i64);
        push_str(out, "\nadd s0,s0,");
        push_chars(out, c);
        push_str(out, "\n");
        push_str(out, "lw ");
        push_chars(out, a);
        push_str(out, ",0(s0)\n");
    }
    assert(final(out)@ =~= old(out)@ + lw_text(a@, c@, d as int));
}


impl Inst {
    /// Appends the Tigger text of this instruction.
    #[verifier::spinoff_prover]
    #[verifier::rlimit(100)]
    pub fn render_text(&self, out: &mut Vec<char>, glo: &Glo)
        requires
            inst_ok(*self, glo.names()),
        ensures
            final(out)@ == old(out)@ + inst_text(*self, glo.names()),
    {
        let ghost start = out@;
        match *self {
            Inst::Op(a, b, c, d) => {
                render_reg(out, a);
                push_str(out, " = ");
                render_reg(out, b);
                push_str(out, " ");
                c.render(out);
                push_str(out, " ");
                render_reg(out, d);
            },
            Inst::Oi(a, b, c, d) => {
                render_reg(out, a);
                push_str(out, " = ");
                render_reg(out, b);
                push_str(out, " ");
                c.render(out);
                push_str(out, " ");
                push_int(out, d as i64);
            },
            Inst::Ou(a, c, d) => {
                render_reg(out, a);
                push_str(out, " = ");
                c.render(out);
                push_str(out, " ");
                render_reg(out, d);
            },
            Inst::Ts(a, b) => {
                render_reg(out, a);
                push_str(out, " = ");
                render_reg(out, b);
            },
            Inst::Li(a, b) => {
                render_reg(out, a);
                push_str(out, " = ");
                push_int(out, b as i64);
            },
            Inst::St(a, c, d) => {
                render_reg(out, a);
                push_str(out, "[");
                push_int(out, c as i64);
                push_str(out, "] =  ");
                render_reg(out, d);
            },
            Inst::Ld(a, c, d) => {
                render_reg(out, a);
                push_str(out, " =  ");
                render_reg(out, c);
                push_str(out, "[");
                push_int(out, d as i64);
                push_str(out, "]");
            },
            Inst::Cj(a, b, c, d) => {
                push_str(out, "if ");
                render_reg(out, a);
                push_str(out, " ");
                b.render(out);
                push_str(out, " ");
                render_reg(out, c);
                push_str(out, " goto l");
                push_int(out, d as i64);
            },
            Inst::Jm(a) => {
                push_str(out, "goto l");
                push_int(out, a as i64);
            },
            Inst::Lb(a) => {
                push_str(out, "l");
                push_int(out, a as i64);
                push_str(out, ":");
            },
            Inst::Cl(a) => {
                push_str(out, "call ");
                let f = sfn(glo, a);
                push_string(out, &f);
            },
            Inst::Rt => {
                push_str(out, "return");
            },
            Inst::Sst(a, b) => {
                push_str(out, "store ");
                render_reg(out, a);
                push_str(out, " ");
                push_int(out, b as i64);
            },
            Inst::Sld(a, b) => {
                push_str(out, "load ");
                push_int(out, a as i64);
                push_str(out, " ");
                render_reg(out, b);
            },
            Inst::Vld(a, b) => {
                push_str(out, "load v");
                push_int(out, a as i64);
                push_str(out, " ");
                render_reg(out, b);
            },
            Inst::Sla(a, b) => {
                push_str(out, "loadaddr ");
                push_int(out, a as i64);
                push_str(out, " ");
                render_reg(out, b);
            },
            Inst::Vla(a, b) => {
                push_str(out, "loadaddr v");
                push_int(out, a as i64);
                push_str(out, " ");
                render_reg(out, b);
            },
            Inst::Spa(a, b) => {
                render_reg(out, a);
                push_str(out, " = sp + ");
                render_reg(out, b);
            },
            Inst::Edf => {},
        }
        assert(out@ =~= start + inst_text(*self, glo.names()));
    }

    /// The Tigger text of this instruction.
    pub fn ts(&self, glo: &Glo) -> (s: String)
        requires
            inst_ok(*self, glo.names()),
        ensures
            s@ == inst_text(*self, glo.names()),
    {
        let mut out: Vec<char> = Vec::new();
        self.render_text(&mut out, glo);
        assert(out@ =~= inst_text(*self, glo.names()));
        chars_to_string(out)
    }

    /// Appends the assembly of this instruction, in a frame of `stk` bytes.
    #[verifier::spinoff_prover]
    #[verifier::rlimit(100)]
    pub fn render_asm(&self, out: &mut Vec<char>, stk: i32, glo: &Glo)
        requires
            inst_ok(*self, glo.names()),
        ensures
            final(out)@ == old(out)@ + inst_asm(*self, stk as int, glo.names()),
    {
        let ghost start = out@;
        match *self {
            Inst::Op(a, b, c, d) => popr(out, a, b, c, d),
            Inst::Oi(a, b, c, d) => {
                if is_int12(d) && c == Oper::Add {
                    push_str(out, "addi ");
                    render_reg(out, a);
                    push_str(out, ",");
                    render_reg(out, b);
                    push_str(out, ",");
                    push_int(out, d as i64);
                    push_str(out, "\n");
                } else if is_int12(d) && c == Oper::Lt {
                    push_str(out, "slti ");
                    render_reg(out, a);
                    push_str(out, ",");
                    render_reg(out, b);
                    push_str(out, ",");
                    push_int(out, d as i64);
                    push_str(out, "\n");
                } else {
                    push_str(out, "li s0,");
                    push_int(out, d as i64);
                    push_str(out, "\n");
                    popr(out, a, b, c, 1);
                }
            },
            Inst::Ou(a, c, d) => {
                match c {
                    UOper::Neg => push_str(out, "neg "),
                    UOper::Not => push_str(out, "seqz "),
                }
                render_reg(out, a);
                push_str(out, ",");
                render_reg(out, d);
                push_str(out, "\n");
            },
            Inst::Ts(a, b) => {
                push_str(out, "mv ");
                render_reg(out, a);
                push_str(out, ",");
                render_reg(out, b);
                push_str(out, "\n");
            },
            Inst::Li(a, b) => {
                push_str(out, "li ");
                render_reg(out, a);
                push_str(out, ",");
                push_int(out, b as i64);
                push_str(out, "\n");
            },
            Inst::St(a, c, d) => {
                let ra = reg_chars(a);
                let rd = reg_chars(d);
                sw(out, &ra, c, &rd);
            },
            Inst::Ld(a, c, d) => {
                let ra = reg_chars(a);
                let rc = reg_chars(c);
                lw(out, &ra, &rc, d);
            },
            Inst::Cj(a, b, c, d) => {
                match b {
                    Oper::Lt => push_str(out, "blt"),
                    Oper::Gt => push_str(out, "bgt"),
                    Oper::Le => push_str(out, "ble"),
                    Oper::Ge => push_str(out, "bge"),
                    Oper::Ne => push_str(out, "bne"),
                    _ => push_str(out, "beq"),
                }
                push_str(out, " ");
                render_reg(out, a);
                push_str(out, ",");
                render_reg(out, c);
                push_str(out, ",.l");
                push_int(out, d as i64);
                push_str(out, "\n");
            },
            Inst::Jm(a) => {
                push_str(out, "j .l");
                push_int(out, a as i64);
                push_str(out, "\n");
            },
            Inst::Lb(a) => {
                push_str(out, ".l");
                push_int(out, a as i64);
                push_str(out, ":\n");
            },
            Inst::Cl(a) => {
                push_str(out, "call ");
                let f = sfn(glo, a);
                push_string(out, &f);
                push_str(out, "\n");
            },
            Inst::Rt => {
                if is_int12(stk) {
                    push_str(out, "lw ra, ");
                    push_int(out, stk as i64 - 4);
                    push_str(out, "(sp)\naddi sp, sp, ");
                    push_int(out, stk as i64);
                    push_str(out, "\nret\n");
                } else {
                    push_str(out, "\nli s0,");
                    push_int(out, stk as i64);
                    push_str(out, "\nadd sp,sp,s0\nlw ra, -4(sp)\nret\n");
                }
            },
            Inst::Sst(a, b) => {
                let sp = string_chars("sp");
                let ra = reg_chars(a);
                sw(out, &sp, b * 4, &ra);
            },
            Inst::Sld(a, b) => {
                let sp = string_chars("sp");
                let rb = reg_chars(b);
                lw(out, &rb, &sp, a * 4);
            },
            Inst::Vld(a, b) => {
                push_str(out, "lui ");
                render_reg(out, b);
                push_str(out, ",%hi(v");
                push_int(out, a as i64);
                push_str(out, ")\nlw ");
                render_reg(out, b);
                push_str(out, ",%lo(v");
                push_int(out, a as i64);
                push_str(out, ")(");
                render_reg(out, b);
                push_str(out, ")\n");
            },
            Inst::Sla(a, b) => {
                if is_int10(a) {
                    push_str(out, "addi ");
                    render_reg(out, b);
                    push_str(out, ",sp,");
                    push_int(out, (a * 4) as i64);
                    push_str(out, "\n");
                } else {
                    push_str(out, "li s0,");
                    push_int(out, a as i64);
                    push_str(out, "\nadd ");
                    render_reg(out, b);
                    push_str(out, ",s0,sp\n");
                }
            },
            Inst::Vla(a, b) => {
                push_str(out, "la ");
                render_reg(out, b);
                push_str(out, ",v");
                push_int(out, a as i64);
                push_str(out, "\n");
            },
            Inst::Spa(a, b) => {
                push_str(out, "add ");
                render_reg(out, a);
                push_str(out, ",sp,");
                render_reg(out, b);
                push_str(out, "\n");
            },
            Inst::Edf => {},
        }
        assert(out@ =~= start + inst_asm(*self, stk as int, glo.names()));
    }

    /// The assembly of this instruction, in a frame of `stk` bytes.
    pub fn tr(&self, stk: i32, glo: &Glo) -> (s: String)
        requires
            inst_ok(*self, glo.names()),
        ensures
            s@ == inst_asm(*self, stk as int, glo.names()),
    {
        let mut out: Vec<char> = Vec::new();
        self.render_asm(&mut out, stk, glo);
        assert(out@ =~= inst_asm(*self, stk as int, glo.names()));
        chars_to_string(out)
    }
}


// ---------------------------------------------------------------------
// Functions and programs.

/// A Tigger function: its number in the name table, parameter count, stack
/// bytes used by its slots, and its body.
#[derive(Clone)]
pub struct Fn {
    pub name: i32,
    pub par: i32,
    pub sta: i32,
    pub inst: Vec<Inst>,
}

/// What a function holds: name number, parameter count, slot bytes, body.
#[verifier::ext_equal]
pub struct FnV {
    pub name: i32,
    pub par: i32,
    pub sta: i32,
    pub inst: Seq<Inst>,
}

impl View for Fn {
    type V = FnV;

    open spec fn view(&self) -> FnV {
        FnV { name: self.name, par: self.par, sta: self.sta, inst: self.inst@ }
    }
}

/// The assembly of a sequence of instructions.
pub open spec fn insts_asm(s: Seq<Inst>, stk: int, names: Seq<Seq<char>>) -> Seq<char>
    decreases s.len(),
{
    if s.len() == 0 {
        Seq::empty()
    } else {
        insts_asm(s.drop_last(), stk, names) + inst_asm(s.last(), stk, names)
    }
}

/// Frame size in bytes of a function whose slots take `sta` bytes: the
/// number of whole words in `sta`, plus one, times 16.
pub open spec fn frame_size(sta: int) -> int {
    (trunc_div(sta, 4) + 1) * 16
}

/// Integer division rounding toward zero, as Rust's `/` does.
pub open spec fn trunc_div(a: int, b: int) -> int {
    if a >= 0 {
        a / b
    } else {
        -((-a) / b)
    }
}

/// A function can be emitted.
pub open spec fn fn_ok(f: FnV, names: Seq<Seq<char>>) -> bool {
    &&& i32::MIN <= frame_size(f.sta as int) <= i32::MAX
    &&& 0 <= f.name < names.len()
    &&& forall|i: int| 0 <= i < f.inst.len() ==> inst_ok(#[trigger] f.inst[i], names)
}

/// A function's assembly around its body `code`: prologue saving `ra` in a
/// frame of `stk` bytes, the body, and the size directive.
pub open spec fn frame_text(func: Seq<char>, stk: int, code: Seq<char>) -> Seq<char> {
    if spec_is_int12(stk) {
        "   .text\n    .align 2\n    .global "@ + func + "\n    .type "@ + func + ", @function\n"@ + func
            + ":\n    addi sp, sp, "@ + int_text(-stk) + "\n    sw ra,"@ + int_text(stk - 4) + "(sp)\n"@
            + code + "\n    .size "@ + func + ",.-"@ + func + "\n"@
    } else {
        "   .text\n.align 2\n.global "@ + func + "\n.type "@ + func + ", @function\n"@ + func
            + ":\nsw ra,-4(sp)\nli s0, "@ + int_text(-stk) + "\nadd sp, sp, s0\n"@ + code + "\n.size "@
            + func + ",.-"@ + func + "\n"@
    }
}

/// The assembly of a function.
pub open spec fn fn_asm(f: FnV, names: Seq<Seq<char>>) -> Seq<char> {
    let stk = frame_size(f.sta as int);
    frame_text(names[f.name as int], stk, insts_asm(f.inst, stk, names))
}

/// The start of a function's assembly, up to and with its label line.
pub open spec fn frame_head(func: Seq<char>, stk: int) -> Seq<char> {
    if spec_is_int12(stk) {
        "   .text\n    .align 2\n    .global "@ + func + "\n    .type "@ + func + ", @function\n"@ + func + ":\n"@
    } else {
        "   .text\n.align 2\n.global "@ + func + "\n.type "@ + func + ", @function\n"@ + func + ":\n"@
    }
}

/// The entry of a frame of `stk` bytes: `sp` is lowered by `stk` and `ra`
/// is saved 4 bytes below the `sp` of the caller.
pub open spec fn frame_entry(stk: int) -> Seq<char> {
    if spec_is_int12(stk) {
        "    addi sp, sp, "@ + int_text(-stk) + "\n    sw ra,"@ + int_text(stk - 4) + "(sp)\n"@
    } else {
        "sw ra,-4(sp)\nli s0, "@ + int_text(-stk) + "\nadd sp, sp, s0\n"@
    }
}

/// A return from a frame of `stk` bytes: `ra` is reloaded from 4 bytes
/// below the `sp` of the caller and `sp` is raised by `stk` again.
pub open spec fn frame_return(stk: int) -> Seq<char> {
    if spec_is_int12(stk) {
        "lw ra, "@ + int_text(stk - 4) + "(sp)\naddi sp, sp, "@ + int_text(stk) + "\nret\n"@
    } else {
        "\nli s0,"@ + int_text(stk) + "\nadd sp,sp,s0\nlw ra, -4(sp)\nret\n"@
    }
}

/// A function's frame: its size is a multiple of 16 that leaves room for
/// `ra` above the slots; the function's assembly enters that frame right
/// after its label, and every `return` in its body leaves the same frame,
/// undoing the entry.
#[verifier::spinoff_prover]
#[verifier::rlimit(80)]
pub proof fn law_frame(f: FnV, names: Seq<Seq<char>>)
    requires
        f.sta >= 0,
    ensures
        frame_size(f.sta as int) % 16 == 0,
        frame_size(f.sta as int) >= f.sta + 4,
        fn_asm(f, names) == frame_head(names[f.name as int], frame_size(f.sta as int)) + frame_entry(frame_size(f.sta as int))
            + insts_asm(f.inst, frame_size(f.sta as int), names) + (if spec_is_int12(frame_size(f.sta as int)) {
            "\n    .size "@
        } else {
            "\n.size "@
        }) + names[f.name as int] + ",.-"@ + names[f.name as int] + "\n"@,
        forall|k: int| 0 <= k < f.inst.len() && f.inst[k] == Inst::Rt ==>
            inst_asm(#[trigger] f.inst[k], frame_size(f.sta as int), names) == frame_return(frame_size(f.sta as int)),
{
    let sta = f.sta as int;
    let q = sta / 4;
    let r = sta % 4;
    vstd::arithmetic::div_mod::lemma_fundamental_div_mod(sta, 4);
    vstd::arithmetic::div_mod::lemma_mod_bound(sta, 4);
    assert(trunc_div(sta, 4) == q);
    let stk = frame_size(sta);
    assert(stk == (q + 1) * 16);
    vstd::arithmetic::div_mod::lemma_fundamental_div_mod_converse(stk, 16, q + 1, 0);
    assert(stk >= sta + 4);
    let func = names[f.name as int];
    let code = insts_asm(f.inst, stk, names);
    if spec_is_int12(stk) {
        reveal_strlit("   .text\n    .align 2\n    .global ");
        reveal_strlit("\n    .type ");
        reveal_strlit(", @function\n");
        reveal_strlit(":\n    addi sp, sp, ");
        reveal_strlit("\n    sw ra,");
        reveal_strlit("(sp)\n");
        reveal_strlit("\n    .size ");
        reveal_strlit(",.-");
        reveal_strlit("\n");
        reveal_strlit(":\n");
        reveal_strlit("    addi sp, sp, ");
        assert(fn_asm(f, names) =~= frame_head(func, stk) + frame_entry(stk) + code + "\n    .size "@ + func + ",.-"@ + func + "\n"@);
    } else {
        reveal_strlit("   .text\n.align 2\n.global ");
        reveal_strlit("\n.type ");
        reveal_strlit(", @function\n");
        reveal_strlit(":\nsw ra,-4(sp)\nli s0, ");
        reveal_strlit("\nadd sp, sp, s0\n");
        reveal_strlit("\n.size ");
        reveal_strlit(",.-");
        reveal_strlit("\n");
        reveal_strlit(":\n");
        reveal_strlit("sw ra,-4(sp)\nli s0, ");
        assert(fn_asm(f, names) =~= frame_head(func, stk) + frame_entry(stk) + code + "\n.size "@ + func + ",.-"@ + func + "\n"@);
    }
}

/// Appends a function's assembly around its body `code`.
fn render_frame(out: &mut Vec<char>, func: &String, stk: i32, code: &Vec<char>)
    ensures
        final(out)@ == old(out)@ + frame_text(func@, stk as int, code@),
{
    if is_int12(stk) {
        push_str(out, "   .text\n    .align 2\n    .global ");
        push_string(out, func);
        push_str(out, "\n    .type ");
        push_string(out, func);
        push_str(out, ", @function\n");
        push_string(out, func);
        push_str(out, ":\n    addi sp, sp, ");
        push_int(out, -(stk as i64));
        push_str(out, "\n    sw ra,");
        push_int(out, stk as i64 - 4);
        push_str(out, "(sp)\n");
        push_chars(out, code);
        push_str(out, "\n    .size ");
        push_string(out, func);
        push_str(out, ",.-");
        push_string(out, func);
        push_str(out, "\n");
        assert(final(out)@ =~= old(out)@ + frame_text(func@, stk as int, code@));
    } else {
        push_str(out, "   .text\n.align 2\n.global ");
        push_string(out, func);
        push_str(out, "\n.type ");
        push_string(out, func);
        push_str(out, ", @function\n");
        push_string(out, func);
        push_str(out, ":\nsw ra,-4(sp)\nli s0, ");
        push_int(out, -(stk as i64));
        push_str(out, "\nadd sp, sp, s0\n");
        push_chars(out, code);
        push_str(out, "\n.size ");
        push_string(out, func);
        push_str(out, ",.-");
        push_string(out, func);
        push_str(out, "\n");
        assert(final(out)@ =~= old(out)@ + frame_text(func@, stk as int, code@));
    }
}

impl Fn {
    /// An empty function.
    pub fn new() -> (f: Fn)
        ensures
            f.name == 0,
            f.par == 0,
            f.sta == 0,
            f.inst@ == Seq::<Inst>::empty(),
    {
        Fn { name: 0, par: 0, sta: 0, inst: Vec::new() }
    }

    /// Appends an instruction to the body.
    pub fn ps(&mut self, i: Inst)
        ensures
            final(self).inst@ == old(self).inst@.push(i),
            final(self).name == old(self).name,
            final(self).par == old(self).par,
            final(self).sta == old(self).sta,
    {
        self.inst.push(i);
    }

    /// Appends the assembly of this function.
    pub fn render_asm(&self, out: &mut Vec<char>, glo: &Glo)
        requires
            fn_ok(self@, glo.names()),
        ensures
            final(out)@ == old(out)@ + fn_asm(self@, glo.names()),
    {
        let ghost names = glo.names();
        let func = sfn(glo, self.name);
        let stk: i32 = (self.sta / 4 + 1) * 16;
        let mut code: Vec<char> = Vec::new();
        let mut i: usize = 0;
        while i < self.inst.len()
            invariant
                fn_ok(self@, names),
                names == glo.names(),
                stk as int == frame_size(self.sta as int),
                i <= self.inst@.len(),
                code@ == insts_asm(self.inst@.take(i as int), stk as int, names),
            decreases self.inst@.len() - i,
        {
            assert(inst_ok(self@.inst[i as int], names));
            self.inst[i].render_asm(&mut code, stk, glo);
            i = i + 1;
            assert(self.inst@.take(i as int).drop_last() =~= self.inst@.take(i - 1));
        }
        assert(self.inst@.take(i as int) =~= self.inst@);
        render_frame(out, &func, stk, &code);
        assert(final(out)@ =~= old(out)@ + fn_asm(self@, names));
    }

    /// The assembly of this function.
    pub fn tr(&self, glo: &Glo) -> (s: String)
        requires
            fn_ok(self@, glo.names()),
        ensures
            s@ == fn_asm(self@, glo.names()),
    {
        let mut out: Vec<char> = Vec::new();
        self.render_asm(&mut out, glo);
        assert(out@ =~= fn_asm(self@, glo.names()));
        chars_to_string(out)
    }
}

/// A Tigger program: global definitions and functions.
#[derive(Clone)]
pub struct Prog {
    pub vdef: Vec<VarD>,
    pub fdef: Vec<Fn>,
}

pub open spec fn vards_asm(s: Seq<VarD>) -> Seq<char>
    decreases s.len(),
{
    if s.len() == 0 {
        Seq::empty()
    } else {
        vards_asm(s.drop_last()) + vard_asm(s.last())
    }
}

pub open spec fn fns_asm(s: Seq<FnV>, names: Seq<Seq<char>>) -> Seq<char>
    decreases s.len(),
{
    if s.len() == 0 {
        Seq::empty()
    } else {
        fns_asm(s.drop_last(), names) + fn_asm(s.last(), names)
    }
}

/// The assembly of a program: its global definitions, then its functions.
pub open spec fn prog_asm(p: Prog, names: Seq<Seq<char>>) -> Seq<char> {
    vards_asm(p.vdef@) + fns_asm(p.fdef@.map_values(|f: Fn| f@), names)
}

impl Prog {
    /// Appends the assembly of global definitions `vdef`.
    pub fn render_vards(out: &mut Vec<char>, vdef: &Vec<VarD>)
        ensures
            final(out)@ == old(out)@ + vards_asm(vdef@),
    {
        let mut i: usize = 0;
        while i < vdef.len()
            invariant
                i <= vdef@.len(),
                out@ == old(out)@ + vards_asm(vdef@.take(i as int)),
            decreases vdef@.len() - i,
        {
            vdef[i].render_asm(out);
            i = i + 1;
            assert(vdef@.take(i as int).drop_last() =~= vdef@.take(i - 1));
            assert(out@ =~= old(out)@ + vards_asm(vdef@.take(i as int)));
        }
        assert(vdef@.take(i as int) =~= vdef@);
    }

    /// Appends the assembly of functions `fdef`.
    pub fn render_fns(out: &mut Vec<char>, fdef: &Vec<Fn>, glo: &Glo)
        requires
            forall|i: int| 0 <= i < fdef@.len() ==> fn_ok(#[trigger] fdef@[i]@, glo.names()),
        ensures
            final(out)@ == old(out)@ + fns_asm(fdef@.map_values(|f: Fn| f@), glo.names()),
    {
        let mut i: usize = 0;
        while i < fdef.len()
            invariant
                forall|i: int| 0 <= i < fdef@.len() ==> fn_ok(#[trigger] fdef@[i]@, glo.names()),
                i <= fdef@.len(),
                out@ == old(out)@ + fns_asm(fdef@.map_values(|f: Fn| f@).take(i as int), glo.names()),
            decreases fdef@.len() - i,
        {
            assert(fn_ok(fdef@[i as int]@, glo.names()));
            fdef[i].render_asm(out, glo);
            i = i + 1;
            let ghost fv = fdef@.map_values(|f: Fn| f@);
            assert(fv.take(i as int).drop_last() =~= fv.take(i - 1));
            assert(out@ =~= old(out)@ + fns_asm(fv.take(i as int), glo.names()));
        }
        assert(fdef@.map_values(|f: Fn| f@).take(i as int) =~= fdef@.map_values(|f: Fn| f@));
    }

    /// The assembly of this program.
    pub fn tr(&self, glo: &Glo) -> (s: String)
        requires
            forall|i: int| 0 <= i < self.fdef@.len() ==> fn_ok(#[trigger] self.fdef@[i]@, glo.names()),
        ensures
            s@ == prog_asm(*self, glo.names()),
    {
        let mut out: Vec<char> = Vec::new();
        Prog::render_vards(&mut out, &self.vdef);
        Prog::render_fns(&mut out, &self.fdef, glo);
        assert(out@ =~= prog_asm(*self, glo.names()));
        chars_to_string(out)
    }
}

} // verus!
