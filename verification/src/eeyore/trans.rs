//! Translation of Eeyore into Tigger instructions and RISC-V assembly.
use vstd::prelude::*;
use crate::text::{nat_text, int_text, push_nat, push_int, push_str, push_chars, chars_to_string};
use crate::eeyore::inst::{Inst as Yi, Var as Yv, LVal, RVal, VarUsage, Oper};
use crate::tigger::inst::{Inst as Ti, Fn as TFn, FnV, Glo, Prog, fnm, intern, fn_ok, fns_asm, inst_ok, frame_size, inst_writes};
use crate::eeyore::inst::FnName;

verus! {

/// The registers, in the order of their numbers.
#[derive(Copy, Clone, PartialEq, Eq, Structural, Debug)]
enum Reg {
    x0, s0, s1, s2, s3, s4, s5, s6, s7, s8, s9, s10, s11,
    t0, t1, t2, t3, t4, t5, t6,
    a0, a1, a2, a3, a4, a5, a6, a7,
}

impl Reg {
    /// The register's number.
    fn tu(&self) -> (r: u8)
        ensures
            r < 28,
            *self == Reg::s1 ==> r == 2,
            *self == Reg::s2 ==> r == 3,
            *self == Reg::s4 ==> r == 5,
            *self == Reg::s5 ==> r == 6,
            *self == Reg::a0 ==> r == 20,
    {
        match *self {
            Reg::x0 => 0, Reg::s0 => 1, Reg::s1 => 2, Reg::s2 => 3, Reg::s3 => 4, Reg::s4 => 5,
            Reg::s5 => 6, Reg::s6 => 7, Reg::s7 => 8, Reg::s8 => 9, Reg::s9 => 10, Reg::s10 => 11,
            Reg::s11 => 12, Reg::t0 => 13, Reg::t1 => 14, Reg::t2 => 15, Reg::t3 => 16, Reg::t4 => 17,
            Reg::t5 => 18, Reg::t6 => 19, Reg::a0 => 20, Reg::a1 => 21, Reg::a2 => 22, Reg::a3 => 23,
            Reg::a4 => 24, Reg::a5 => 25, Reg::a6 => 26, Reg::a7 => 27,
        }
    }
}

pub open spec fn S1() -> u8 { 2 }
pub open spec fn S2() -> u8 { 3 }
pub open spec fn S4() -> u8 { 5 }
pub open spec fn S5() -> u8 { 6 }
pub open spec fn A0() -> u8 { 20 }

// ---------------------------------------------------------------------
// Association of variables to data: the last position holding a key.

/// The last position of `k` in `keys`, or -1.
pub open spec fn key_index(keys: Seq<Yv>, k: Yv) -> int
    decreases keys.len(),
{
    if keys.len() == 0 {
        -1
    } else if keys.last() == k {
        keys.len() - 1
    } else {
        key_index(keys.drop_last(), k)
    }
}

proof fn lemma_key_index(keys: Seq<Yv>, k: Yv)
    ensures
        -1 <= key_index(keys, k) < keys.len(),
        key_index(keys, k) >= 0 ==> keys[key_index(keys, k)] == k,
        key_index(keys, k) < 0 ==> !keys.contains(k),
    decreases keys.len(),
{
    if keys.len() > 0 {
        lemma_key_index(keys.drop_last(), k);
        if keys.last() != k && key_index(keys, k) < 0 {
            assert forall|i: int| 0 <= i < keys.len() implies keys[i] != k by {
                if i < keys.len() - 1 {
                    assert(keys.drop_last()[i] == keys[i]);
                }
            }
        }
    }
}

/// The position of `k` in `keys`, found as `key_index` describes.
fn find_key(keys: &Vec<Yv>, k: Yv) -> (r: Option<usize>)
    ensures
        r is None <==> key_index(keys@, k) < 0,
        r matches Some(i) ==> i as int == key_index(keys@, k) && i < keys@.len(),
{
    let mut i: usize = keys.len();
    assert(keys@.take(i as int) =~= keys@);
    while i > 0
        invariant
            i <= keys@.len(),
            key_index(keys@, k) == key_index(keys@.take(i as int), k),
        decreases i,
    {
        assert(keys@.take(i as int).drop_last() =~= keys@.take(i - 1));
        if keys[i - 1] == k {
            return Some(i - 1);
        }
        i = i - 1;
    }
    assert(keys@.take(0) =~= Seq::<Yv>::empty());
    None
}

// ---------------------------------------------------------------------
// Local variables of the function being translated: each has its byte
// position in the frame and its array size (0 for an integer).

pub struct Ldef {
    keys: Vec<Yv>,
    vals: Vec<(i32, i32)>,
    st: i32,
}

/// What the local table holds: variables, their (position, size), and the
/// bytes taken so far.
#[verifier::ext_equal]
pub struct LdefV {
    pub keys: Seq<Yv>,
    pub vals: Seq<(i32, i32)>,
    pub st: int,
}

pub open spec fn ldef_wf(l: LdefV) -> bool {
    l.keys.len() == l.vals.len()
}

/// Registering `a` with array size `b` (0 for an integer, which takes 4 bytes).
pub open spec fn ldef_reg(l: LdefV, a: Yv, b: i32) -> LdefV {
    let k = key_index(l.keys, a);
    let v = (l.st as i32, b);
    LdefV {
        keys: if k >= 0 { l.keys } else { l.keys.push(a) },
        vals: if k >= 0 { l.vals.update(k, v) } else { l.vals.push(v) },
        st: l.st + b + if b == 0 { 4int } else { 0int },
    }
}

pub open spec fn ldef_reg_ok(l: LdefV, b: i32) -> bool {
    i32::MIN <= l.st + b + (if b == 0 { 4int } else { 0int }) <= i32::MAX
}

pub open spec fn ldef_get(l: LdefV, a: Yv) -> Option<(i32, i32)> {
    let k = key_index(l.keys, a);
    if k >= 0 { Some(l.vals[k]) } else { None }
}

/// The bytes a local takes: its array size, or 4 for an integer.
pub open spec fn slot_size(b: i32) -> int {
    if b == 0 { 4 } else { b as int }
}

/// Where the `i`-th of locals of sizes `bs` starts when they are given
/// slots one after another from 0.
pub open spec fn slot_start(bs: Seq<i32>, i: int) -> int
    decreases i,
{
    if i <= 0 {
        0
    } else {
        slot_start(bs, i - 1) + slot_size(bs[i - 1])
    }
}

/// The table after registering the locals `vs` with sizes `bs`, in order.
pub open spec fn ldef_regs(l: LdefV, vs: Seq<Yv>, bs: Seq<i32>) -> LdefV
    decreases vs.len(),
{
    if vs.len() == 0 || bs.len() == 0 {
        l
    } else {
        ldef_reg(ldef_regs(l, vs.drop_last(), bs.drop_last()), vs.last(), bs.last())
    }
}

proof fn lemma_slot_start_mono(bs: Seq<i32>, i: int, j: int)
    requires
        0 <= i <= j <= bs.len(),
        forall|k: int| 0 <= k < bs.len() ==> #[trigger] bs[k] >= 0,
    ensures
        slot_start(bs, i) <= slot_start(bs, j),
        i < j ==> slot_start(bs, i) + slot_size(bs[i]) <= slot_start(bs, j),
    decreases j,
{
    if i < j {
        lemma_slot_start_mono(bs, i, j - 1);
        assert(bs[j - 1] >= 0);
    }
}

proof fn lemma_ldef_regs(vs: Seq<Yv>, bs: Seq<i32>)
    requires
        vs.len() == bs.len(),
        vs.no_duplicates(),
        forall|k: int| 0 <= k < bs.len() ==> #[trigger] bs[k] >= 0,
        slot_start(bs, bs.len() as int) <= i32::MAX,
    ensures
        ldef_regs(empty_ldef(), vs, bs).keys == vs,
        ldef_regs(empty_ldef(), vs, bs).vals == Seq::new(vs.len(), |i: int| (slot_start(bs, i) as i32, bs[i])),
        ldef_regs(empty_ldef(), vs, bs).st == slot_start(bs, bs.len() as int),
    decreases vs.len(),
{
    if vs.len() > 0 {
        let n = vs.len() as int;
        let v0 = vs.drop_last();
        let b0 = bs.drop_last();
        assert(v0.no_duplicates()) by {
            assert forall|i: int, j: int| 0 <= i < v0.len() && 0 <= j < v0.len() && i != j implies v0[i] != v0[j] by {
                assert(v0[i] == vs[i] && v0[j] == vs[j]);
            }
        }
        assert forall|k: int| 0 <= k < b0.len() implies #[trigger] b0[k] >= 0 by {
            assert(b0[k] == bs[k]);
        }
        assert forall|k: int| 0 <= k <= b0.len() implies #[trigger] slot_start(b0, k) == slot_start(bs, k) by {
            lemma_slot_start_prefix(bs, k);
        }
        lemma_slot_start_mono(bs, n - 1, n);
        lemma_ldef_regs(v0, b0);
        let l = ldef_regs(empty_ldef(), v0, b0);
        lemma_key_index(l.keys, vs.last());
        if key_index(l.keys, vs.last()) >= 0 {
            let k = key_index(l.keys, vs.last());
            assert(vs[k] == vs[n - 1]);
        }
        assert(l.keys.push(vs.last()) =~= vs);
        assert(l.vals.push((l.st as i32, bs.last())) =~= Seq::new(vs.len(), |i: int| (slot_start(bs, i) as i32, bs[i])));
    }
}

proof fn lemma_slot_start_prefix(bs: Seq<i32>, k: int)
    requires
        0 <= k < bs.len(),
    ensures
        slot_start(bs.drop_last(), k) == slot_start(bs, k),
    decreases k,
{
    if k > 0 {
        lemma_slot_start_prefix(bs, k - 1);
        assert(bs.drop_last()[k - 1] == bs[k - 1]);
    }
}

/// Registering distinct locals one after another in an empty table gives
/// each its own slot: the first starts at 0, each next one where the one
/// before it ends (an integer takes 4 bytes), so slots never overlap; each
/// local is found with its slot and size, a local not registered is not
/// found, and the bytes taken are the sum of the sizes.
pub proof fn law_ldef_slots(vs: Seq<Yv>, bs: Seq<i32>, w: Yv)
    requires
        vs.len() == bs.len(),
        vs.no_duplicates(),
        forall|k: int| 0 <= k < bs.len() ==> #[trigger] bs[k] >= 0,
        slot_start(bs, bs.len() as int) <= i32::MAX,
    ensures
        forall|i: int| 0 <= i < vs.len() ==> ldef_get(ldef_regs(empty_ldef(), vs, bs), #[trigger] vs[i]) == Some(
            (slot_start(bs, i) as i32, bs[i]),
        ),
        !vs.contains(w) ==> ldef_get(ldef_regs(empty_ldef(), vs, bs), w) is None,
        forall|i: int, j: int| 0 <= i < j < vs.len() ==> #[trigger] slot_start(bs, i) + slot_size(bs[i]) <= #[trigger] slot_start(bs, j),
        ldef_regs(empty_ldef(), vs, bs).st == slot_start(bs, bs.len() as int),
{
    lemma_ldef_regs(vs, bs);
    let l = ldef_regs(empty_ldef(), vs, bs);
    assert forall|i: int| 0 <= i < vs.len() implies ldef_get(l, #[trigger] vs[i]) == Some((slot_start(bs, i) as i32, bs[i])) by {
        lemma_key_index(vs, vs[i]);
        let k = key_index(vs, vs[i]);
        assert(vs.contains(vs[i]));
        assert(vs[k] == vs[i]);
    }
    lemma_key_index(vs, w);
    assert forall|i: int, j: int| 0 <= i < j < vs.len() implies #[trigger] slot_start(bs, i) + slot_size(bs[i]) <= #[trigger] slot_start(bs, j) by {
        lemma_slot_start_mono(bs, i, j);
    }
}

impl View for Ldef {
    type V = LdefV;

    closed spec fn view(&self) -> LdefV {
        LdefV { keys: self.keys@, vals: self.vals@, st: self.st as int }
    }
}

impl Ldef {
    pub fn new() -> (l: Ldef)
        ensures
            ldef_wf(l@),
            l@.keys == Seq::<Yv>::empty(),
            l@.vals == Seq::<(i32, i32)>::empty(),
            l@.st == 0,
    {
        Ldef { keys: Vec::new(), vals: Vec::new(), st: 0 }
    }

    pub fn st(&self) -> (r: i32)
        ensures
            r as int == self@.st,
    {
        self.st
    }

    /// Registers `a` with array size `b`; returns its position.
    pub fn reg(&mut self, a: Yv, b: i32) -> (id: i32)
        requires
            ldef_wf(old(self)@),
            ldef_reg_ok(old(self)@, b),
        ensures
            ldef_wf(final(self)@),
            final(self)@ == ldef_reg(old(self)@, a, b),
            id as int == old(self)@.st,
    {
        let id = self.st;
        self.st = self.st + b;
        if b == 0 {
            self.st = self.st + 4;
        }
        match find_key(&self.keys, a) {
            Some(k) => {
                self.vals.set(k, (id, b));
            },
            None => {
                self.keys.push(a);
                self.vals.push((id, b));
            },
        }
        id
    }

    /// The position and size of `a`, if it is a local.
    pub fn fnd(&self, a: Yv) -> (r: Option<(i32, i32)>)
        requires
            ldef_wf(self@),
        ensures
            r == ldef_get(self@, a),
    {
        match find_key(&self.keys, a) {
            Some(k) => Some(self.vals[k]),
            None => None,
        }
    }
}

// ---------------------------------------------------------------------
// Global variables: their number, byte size (0 for an integer) and
// initial contents (empty when never assigned).

pub struct Vdc {
    name: i32,
    size: usize,
    cont: Vec<i32>,
}

#[verifier::ext_equal]
pub struct VdcV {
    pub name: i32,
    pub size: usize,
    pub cont: Seq<i32>,
}

impl View for Vdc {
    type V = VdcV;

    closed spec fn view(&self) -> VdcV {
        VdcV { name: self.name, size: self.size, cont: self.cont@ }
    }
}

/// Assigning `cnt` to word `ind` of a global: an integer holds just `cnt`;
/// an array is first filled with zeros.
pub open spec fn vdc_ass(d: VdcV, ind: usize, cnt: i32) -> VdcV {
    if d.size == 0 {
        VdcV { cont: seq![cnt], ..d }
    } else {
        let c = if d.cont.len() == 0 { Seq::new((d.size >> 2) as nat, |k: int| 0i32) } else { d.cont };
        VdcV { cont: c.update(ind as int, cnt), ..d }
    }
}

pub open spec fn vdc_ass_ok(d: VdcV, ind: usize) -> bool {
    d.size != 0 ==> ind < (if d.cont.len() == 0 { (d.size >> 2) as int } else { d.cont.len() as int })
}

/// `.comm` directive for an uninitialized global array.
pub open spec fn comm_text(n: i32, s: usize) -> Seq<char> {
    "    .comm v"@ + int_text(n as int) + ","@ + nat_text(s as nat) + ",4\n"@
}

pub open spec fn words_text(s: Seq<i32>) -> Seq<char>
    decreases s.len(),
{
    if s.len() == 0 {
        Seq::empty()
    } else {
        words_text(s.drop_last()) + "    .word   "@ + int_text(s.last() as int) + "\n"@
    }
}

/// `.sdata` definition of an initialized global.
pub open spec fn sdata_text(n: i32, s: Seq<i32>) -> Seq<char> {
    let nm = int_text(n as int);
    "    .global v"@ + nm + "\n    .section .sdata\n    .align  2\n    .type   v"@ + nm
        + ", @object\n    .size   v"@ + nm + ", "@ + nat_text(s.len() * 4) + "\nv"@ + nm + ":\n"@
        + words_text(s) + "\n"@
}

/// The assembly of a global.
pub open spec fn vdc_asm(d: VdcV) -> Seq<char> {
    if d.size == 0 {
        if d.cont.len() == 0 { sdata_text(d.name, seq![0i32]) } else { sdata_text(d.name, d.cont) }
    } else {
        if d.cont.len() == 0 { comm_text(d.name, d.size) } else { sdata_text(d.name, d.cont) }
    }
}

/// Appends the `.comm` directive of an uninitialized global array.
fn comm(out: &mut Vec<char>, n: i32, s: usize)
    ensures
        final(out)@ == old(out)@ + comm_text(n, s),
{
    push_str(out, "    .comm v");
    push_int(out, n as i64);
    push_str(out, ",");
    push_nat(out, s as u128);
    push_str(out, ",4\n");
    assert(final(out)@ =~= old(out)@ + comm_text(n, s));
}

/// Appends the `.sdata` definition of an initialized global.
fn sdata(out: &mut Vec<char>, n: i32, s: &Vec<i32>)
    ensures
        final(out)@ == old(out)@ + sdata_text(n, s@),
{
    let mut init: Vec<char> = Vec::new();
    let mut i: usize = 0;
    while i < s.len()
        invariant
            i <= s@.len(),
            init@ == words_text(s@.take(i as int)),
        decreases s@.len() - i,
    {
        let ghost before = init@;
        push_str(&mut init, "    .word   ");
        push_int(&mut init, s[i] as i64);
        push_str(&mut init, "\n");
        i = i + 1;
        assert(s@.take(i as int).drop_last() =~= s@.take(i - 1));
        assert(init@ =~= words_text(s@.take(i as int)));
    }
    assert(s@.take(i as int) =~= s@);
    push_str(out, "    .global v");
    push_int(out, n as i64);
    push_str(out, "\n    .section .sdata\n    .align  2\n    .type   v");
    push_int(out, n as i64);
    push_str(out, ", @object\n    .size   v");
    push_int(out, n as i64);
    push_str(out, ", ");
    push_nat(out, (s.len() as u128) * 4);
    push_str(out, "\nv");
    push_int(out, n as i64);
    push_str(out, ":\n");
    push_chars(out, &init);
    push_str(out, "\n");
    assert(final(out)@ =~= old(out)@ + sdata_text(n, s@));
}

impl Vdc {
    pub fn new(name: i32, size: i32) -> (d: Vdc)
        ensures
            d@ == (VdcV { name, size: size as usize, cont: Seq::empty() }),
    {
        let d = Vdc { name, size: size as usize, cont: Vec::new() };
        assert(d@.cont =~= Seq::<i32>::empty());
        d
    }

    pub fn name(&self) -> (r: i32)
        ensures
            r == self@.name,
    {
        self.name
    }

    pub fn size(&self) -> (r: usize)
        ensures
            r == self@.size,
    {
        self.size
    }

    /// Appends the assembly of this global.
    pub fn tr(&self, out: &mut Vec<char>)
        ensures
            final(out)@ == old(out)@ + vdc_asm(self@),
    {
        if self.size == 0 {
            if self.cont.len() == 0 {
                let z: Vec<i32> = vec![0i32];
                assert(z@ =~= seq![0i32]);
                sdata(out, self.name, &z);
            } else {
                sdata(out, self.name, &self.cont);
            }
        } else {
            if self.cont.len() == 0 {
                comm(out, self.name, self.size);
            } else {
                sdata(out, self.name, &self.cont);
            }
        }
    }

    /// Assigns `cnt` to word `ind`.
    pub fn ass(&mut self, ind: usize, cnt: i32)
        requires
            vdc_ass_ok(old(self)@, ind),
        ensures
            final(self)@ == vdc_ass(old(self)@, ind, cnt),
    {
        if self.size == 0 {
            self.cont = vec![cnt];
            assert(self.cont@ =~= seq![cnt]);
        } else {
            if self.cont.len() == 0 {
                let n = self.size >> 2;
                let mut z: Vec<i32> = Vec::new();
                let mut k: usize = 0;
                while k < n
                    invariant
                        k <= n,
                        z@ == Seq::new(k as nat, |j: int| 0i32),
                    decreases n - k,
                {
                    z.push(0);
                    k = k + 1;
                    assert(z@ =~= Seq::new(k as nat, |j: int| 0i32));
                }
                self.cont = z;
            }
            self.cont.set(ind, cnt);
            assert(self@ == vdc_ass(old(self)@, ind, cnt));
        }
    }
}

pub struct Gdef {
    keys: Vec<Yv>,
    vals: Vec<Vdc>,
    al: i32,
}

/// What the global table holds: variables, their definitions, and the
/// number of globals registered so far.
#[verifier::ext_equal]
pub struct GdefV {
    pub keys: Seq<Yv>,
    pub vals: Seq<VdcV>,
    pub al: int,
}

impl View for Gdef {
    type V = GdefV;

    closed spec fn view(&self) -> GdefV {
        GdefV { keys: self.keys@, vals: self.vals@.map_values(|d: Vdc| d@), al: self.al as int }
    }
}

pub open spec fn gdef_wf(g: GdefV) -> bool {
    g.keys.len() == g.vals.len()
}

/// Registering global `a` of `b` bytes (0 for an integer).
pub open spec fn gdef_reg(g: GdefV, a: Yv, b: usize) -> GdefV {
    let k = key_index(g.keys, a);
    let d = VdcV { name: g.al as i32, size: (b as i32) as usize, cont: Seq::empty() };
    GdefV {
        keys: if k >= 0 { g.keys } else { g.keys.push(a) },
        vals: if k >= 0 { g.vals.update(k, d) } else { g.vals.push(d) },
        al: g.al + 1,
    }
}

/// Assigning `cn` at byte offset `b` of global `a`.
pub open spec fn gdef_ass(g: GdefV, a: Yv, b: i32, cn: i32) -> GdefV {
    let k = key_index(g.keys, a);
    GdefV { vals: g.vals.update(k, vdc_ass(g.vals[k], (b >> 2) as usize, cn)), ..g }
}

pub open spec fn gdef_ass_ok(g: GdefV, a: Yv, b: i32) -> bool {
    let k = key_index(g.keys, a);
    k >= 0 && vdc_ass_ok(g.vals[k], (b >> 2) as usize)
}

pub open spec fn vdcs_asm(s: Seq<VdcV>) -> Seq<char>
    decreases s.len(),
{
    if s.len() == 0 {
        Seq::empty()
    } else {
        vdcs_asm(s.drop_last()) + vdc_asm(s.last())
    }
}

impl Gdef {
    pub fn new() -> (g: Gdef)
        ensures
            gdef_wf(g@),
            g@.keys == Seq::<Yv>::empty(),
            g@.vals == Seq::<VdcV>::empty(),
            g@.al == 0,
    {
        let g = Gdef { keys: Vec::new(), vals: Vec::new(), al: 0 };
        assert(g@.vals =~= Seq::<VdcV>::empty());
        g
    }

    /// Registers global `a` of `b` bytes.
    pub fn reg(&mut self, a: Yv, b: usize)
        requires
            gdef_wf(old(self)@),
            old(self)@.al < i32::MAX,
        ensures
            gdef_wf(final(self)@),
            final(self)@ == gdef_reg(old(self)@, a, b),
    {
        let id = self.al;
        self.al = self.al + 1;
        let d = Vdc::new(id, b as i32);
        let ghost dv = d@;
        match find_key(&self.keys, a) {
            Some(k) => {
                self.vals.set(k, d);
                assert(self@.vals =~= old(self)@.vals.update(k as int, dv));
            },
            None => {
                self.keys.push(a);
                self.vals.push(d);
                assert(self@.vals =~= old(self)@.vals.push(dv));
            },
        }
    }

    /// Assigns `cn` at byte offset `b` of global `a`.
    pub fn ass(&mut self, a: Yv, b: i32, cn: i32)
        requires
            gdef_wf(old(self)@),
            gdef_ass_ok(old(self)@, a, b),
        ensures
            gdef_wf(final(self)@),
            final(self)@ == gdef_ass(old(self)@, a, b, cn),
    {
        let b = (b >> 2) as usize;
        let k = find_key(&self.keys, a).unwrap();
        assert(self.vals@[k as int]@ == self@.vals[k as int]);
        self.vals[k].ass(b, cn);
        assert(self@.vals =~= old(self)@.vals.update(k as int, vdc_ass(old(self)@.vals[k as int], b, cn)));
    }

    /// Appends the assembly of all globals, in order of first registration.
    pub fn tr(&self, out: &mut Vec<char>)
        ensures
            final(out)@ == old(out)@ + vdcs_asm(self@.vals),
    {
        let mut i: usize = 0;
        while i < self.vals.len()
            invariant
                i <= self.vals@.len(),
                out@ == old(out)@ + vdcs_asm(self@.vals.take(i as int)),
            decreases self.vals@.len() - i,
        {
            self.vals[i].tr(out);
            i = i + 1;
            assert(self@.vals.take(i as int).drop_last() =~= self@.vals.take(i - 1));
            assert(out@ =~= old(out)@ + vdcs_asm(self@.vals.take(i as int)));
        }
        assert(self@.vals.take(i as int) =~= self@.vals);
    }

    /// The number and byte size of global `a`.
    pub fn fnd(&self, a: Yv) -> (r: (i32, i32))
        requires
            gdef_wf(self@),
            key_index(self@.keys, a) >= 0,
        ensures
            r.0 == self@.vals[key_index(self@.keys, a)].name,
            r.1 == self@.vals[key_index(self@.keys, a)].size as i32,
    {
        let k = find_key(&self.keys, a).unwrap();
        let d = &self.vals[k];
        (d.name, d.size as i32)
    }
}


// ---------------------------------------------------------------------
// Loading values into registers and storing registers into variables.
// `s4` and `s5` are scratch registers of stores.

proof fn lemma_shr2(i: i32)
    ensures
        -536870912 <= (i >> 2) <= 536870911,
{
    assert(-536870912 <= (i >> 2) <= 536870911) by (bit_vector);
}

/// `f` with `code` appended to its body.
pub open spec fn with_code(f: FnV, code: Seq<Ti>) -> FnV {
    FnV { inst: f.inst + code, ..f }
}

/// A variable can be found: as a local, or else as a global.
pub open spec fn var_known(lv: LdefV, gv: GdefV, v: Yv) -> bool {
    ldef_get(lv, v) is Some || key_index(gv.keys, v) >= 0
}

pub open spec fn load_ok(lv: LdefV, gv: GdefV, a: RVal) -> bool {
    match a {
        RVal::Sym(v) => var_known(lv, gv, v),
        RVal::Int(_) => true,
    }
}

/// Code loading `a` into register `b`: a local integer is loaded from its
/// slot, a local array by its address; likewise for globals.
pub open spec fn load_code(lv: LdefV, gv: GdefV, a: RVal, b: u8) -> Seq<Ti> {
    match a {
        RVal::Int(t) => seq![Ti::Li(b, t)],
        RVal::Sym(v) => match ldef_get(lv, v) {
            Some((i, j)) => if j == 0 { seq![Ti::Sld(i >> 2, b)] } else { seq![Ti::Sla(i >> 2, b)] },
            None => {
                let d = gv.vals[key_index(gv.keys, v)];
                if d.size as i32 == 0 { seq![Ti::Vld(d.name, b)] } else { seq![Ti::Vla(d.name, b)] }
            },
        },
    }
}

/// The variable, index and whether an element is addressed, of a store target.
pub open spec fn target(b: LVal) -> (Yv, RVal, bool) {
    match b {
        LVal::Sym(t) => (t, RVal::Int(0), false),
        LVal::SymA(t, x) => (t, x, true),
    }
}

pub open spec fn store_ok(lv: LdefV, gv: GdefV, b: LVal) -> bool {
    let (t, bind, r) = target(b);
    &&& var_known(lv, gv, t)
    &&& (r ==> load_ok(lv, gv, bind))
    &&& match ldef_get(lv, t) {
        Some((i, j)) => (r && j != 0 && bind is Int) ==> i32::MIN <= i + bind->Int_0 <= i32::MAX,
        None => true,
    }
}

/// Code storing register `a` into `b`.
pub open spec fn store_code(lv: LdefV, gv: GdefV, a: u8, b: LVal) -> Seq<Ti> {
    let (t, bind, r) = target(b);
    match ldef_get(lv, t) {
        Some((i, j)) => {
            if !r {
                seq![Ti::Sst(a, i >> 2)]
            } else {
                match bind {
                    RVal::Int(x) => if j == 0 {
                        seq![Ti::Sld(i >> 2, S4()), Ti::St(S4(), x, a)]
                    } else {
                        seq![Ti::Sst(a, ((i + x) as i32) >> 2)]
                    },
                    RVal::Sym(x) => if j == 0 {
                        load_code(lv, gv, RVal::Sym(x), S5()) + seq![
                            Ti::Sld(i >> 2, S4()),
                            Ti::Op(S4(), S4(), Oper::Add, S5()),
                            Ti::St(S5(), 0, a),
                        ]
                    } else {
                        load_code(lv, gv, RVal::Sym(x), S4()) + seq![Ti::Spa(S4(), S4()), Ti::St(S4(), i, a)]
                    },
                }
            }
        },
        None => {
            let d = gv.vals[key_index(gv.keys, t)];
            let i = d.name;
            let base = if d.size as i32 == 0 { Ti::Vld(i, S4()) } else { Ti::Vla(i, S4()) };
            if !r {
                seq![Ti::Vla(i, S4()), Ti::St(S4(), 0, a)]
            } else {
                match bind {
                    RVal::Int(x) => seq![base, Ti::St(S4(), x, a)],
                    RVal::Sym(x) => seq![base] + load_code(lv, gv, RVal::Sym(x), S5()) + seq![
                        Ti::Op(S4(), S4(), Oper::Add, S5()),
                        Ti::St(S4(), 0, a),
                    ],
                }
            }
        },
    }
}

/// Instructions that need nothing of the name table, and only compare in branches.
pub open spec fn code_ok(c: Seq<Ti>) -> bool {
    forall|k: int| 0 <= k < c.len() ==> inst_ok(#[trigger] c[k], Seq::empty())
}

proof fn lemma_load_ok(lv: LdefV, gv: GdefV, a: RVal, b: u8)
    ensures
        code_ok(load_code(lv, gv, a, b)),
{
    match a {
        RVal::Sym(v) => match ldef_get(lv, v) {
            Some((i, j)) => lemma_shr2(i),
            None => {},
        },
        _ => {},
    }
}

proof fn lemma_store_ok(lv: LdefV, gv: GdefV, a: u8, b: LVal)
    requires
        store_ok(lv, gv, b),
    ensures
        code_ok(store_code(lv, gv, a, b)),
{
    let (t, bind, r) = target(b);
    match bind {
        RVal::Sym(x) => {
            lemma_load_ok(lv, gv, RVal::Sym(x), S5());
            lemma_load_ok(lv, gv, RVal::Sym(x), S4());
        },
        _ => {},
    }
    match ldef_get(lv, t) {
        Some((i, j)) => {
            lemma_shr2(i);
            if r && j != 0 && bind is Int {
                lemma_shr2((i + bind->Int_0) as i32);
            }
        },
        None => {},
    }
}

/// Appends to `nfn` the code loading `a` into register `b`.
fn load(lv: &Ldef, gv: &Gdef, nfn: &mut TFn, a: RVal, b: u8)
    requires
        ldef_wf(lv@),
        gdef_wf(gv@),
        load_ok(lv@, gv@, a),
    ensures
        final(nfn)@ == with_code(old(nfn)@, load_code(lv@, gv@, a, b)),
{
    match a {
        RVal::Int(t) => nfn.ps(Ti::Li(b, t)),
        RVal::Sym(v) => {
            match lv.fnd(v) {
                Some((i, j)) => {
                    if j == 0 {
                        nfn.ps(Ti::Sld(i >> 2, b));
                    } else {
                        nfn.ps(Ti::Sla(i >> 2, b));
                    }
                },
                None => {
                    let (i, j) = gv.fnd(v);
                    if j == 0 {
                        nfn.ps(Ti::Vld(i, b));
                    } else {
                        nfn.ps(Ti::Vla(i, b));
                    }
                },
            }
        },
    }
    assert(final(nfn)@ =~= with_code(old(nfn)@, load_code(lv@, gv@, a, b)));
}

/// Appends to `nfn` the code storing register `a` into `b`.
fn store(lv: &Ldef, gv: &Gdef, nfn: &mut TFn, a: u8, b: LVal)
    requires
        ldef_wf(lv@),
        gdef_wf(gv@),
        store_ok(lv@, gv@, b),
    ensures
        final(nfn)@ == with_code(old(nfn)@, store_code(lv@, gv@, a, b)),
{
    let s4: u8 = Reg::s4.tu();
    let s5: u8 = Reg::s5.tu();
    let (bvname, bind, r) = match b {
        LVal::Sym(t) => (t, RVal::Int(0), false),
        LVal::SymA(t, x) => (t, x, true),
    };
    let ghost before = nfn@;
    match lv.fnd(bvname) {
        Some((i, j)) => {
            if !r {
                nfn.ps(Ti::Sst(a, i >> 2));
            } else {
                match bind {
                    RVal::Int(t) => {
                        if j == 0 {
                            nfn.ps(Ti::Sld(i >> 2, s4));
                            nfn.ps(Ti::St(s4, t, a));
                        } else {
                            nfn.ps(Ti::Sst(a, (i + t) >> 2));
                        }
                    },
                    RVal::Sym(t) => {
                        if j == 0 {
                            load(lv, gv, nfn, RVal::Sym(t), s5);
                            nfn.ps(Ti::Sld(i >> 2, s4));
                            nfn.ps(Ti::Op(s4, s4, Oper::Add, s5));
                            nfn.ps(Ti::St(s5, 0, a));
                        } else {
                            load(lv, gv, nfn, RVal::Sym(t), s4);
                            nfn.ps(Ti::Spa(s4, s4));
                            nfn.ps(Ti::St(s4, i, a));
                        }
                    },
                }
            }
        },
        None => {
            let (i, j) = gv.fnd(bvname);
            if !r {
                nfn.ps(Ti::Vla(i, s4));
                nfn.ps(Ti::St(s4, 0, a));
            } else {
                if j == 0 {
                    nfn.ps(Ti::Vld(i, s4));
                } else {
                    nfn.ps(Ti::Vla(i, s4));
                }
                match bind {
                    RVal::Int(t) => {
                        nfn.ps(Ti::St(s4, t, a));
                    },
                    RVal::Sym(t) => {
                        load(lv, gv, nfn, RVal::Sym(t), s5);
                        nfn.ps(Ti::Op(s4, s4, Oper::Add, s5));
                        nfn.ps(Ti::St(s4, 0, a));
                    },
                }
            }
        },
    }
    assert(final(nfn)@ =~= with_code(before, store_code(lv@, gv@, a, b)));
}


// ---------------------------------------------------------------------
// The translation, one Eeyore instruction at a time.

/// The state of the translation: globals, locals of the function being
/// translated, that function, the finished functions, whether a function
/// is open, how many parameters are loaded for the next call, and the
/// table of function names.
#[verifier::ext_equal]
pub struct TransV {
    pub gv: GdefV,
    pub lv: LdefV,
    pub cur: FnV,
    pub fns: Seq<FnV>,
    pub ifn: bool,
    pub fnpar: int,
    pub names: Seq<Seq<char>>,
}

pub open spec fn empty_fn() -> FnV {
    FnV { name: 0, par: 0, sta: 0, inst: Seq::empty() }
}

pub open spec fn empty_ldef() -> LdefV {
    LdefV { keys: Seq::empty(), vals: Seq::empty(), st: 0 }
}

/// The state before the first instruction.
pub open spec fn trans_init() -> TransV {
    TransV {
        gv: GdefV { keys: Seq::empty(), vals: Seq::empty(), al: 0 },
        lv: empty_ldef(),
        cur: empty_fn(),
        fns: Seq::empty(),
        ifn: false,
        fnpar: 0,
        names: Seq::empty(),
    }
}

/// `s` with `code` appended to the open function.
pub open spec fn emit(s: TransV, code: Seq<Ti>) -> TransV {
    TransV { cur: with_code(s.cur, code), ..s }
}

pub open spec fn load_of(s: TransV, a: RVal, b: u8) -> Seq<Ti> {
    load_code(s.lv, s.gv, a, b)
}

pub open spec fn store_of(s: TransV, a: u8, b: LVal) -> Seq<Ti> {
    store_code(s.lv, s.gv, a, b)
}

/// After registering the first `k` parameters of a function that is being
/// opened: parameter `p{i}` gets a word slot, and the code saves argument
/// register `a{i}` there.
pub open spec fn params_state(s: TransV, k: int) -> TransV
    decreases k,
{
    if k <= 0 {
        s
    } else {
        let p = params_state(s, k - 1);
        let slot = p.lv.st as i32;
        TransV {
            lv: ldef_reg(p.lv, Yv(VarUsage::Param, (k - 1) as i32), 0),
            cur: with_code(p.cur, seq![Ti::Sst((20 + (k - 1)) as u8, slot >> 2)]),
            ..p
        }
    }
}

/// Registers a function name and gives its number.
pub open spec fn name_id(names: Seq<Seq<char>>, f: Seq<char>) -> int {
    intern(names, f).index_of(f)
}

/// After a call of function `f`: its name is registered, the call is
/// emitted, and no argument is loaded any more.
pub open spec fn after_call(s: TransV, f: Seq<char>) -> TransV {
    TransV { fnpar: 0, names: intern(s.names, f), ..emit(s, seq![Ti::Cl(name_id(s.names, f) as i32)]) }
}

/// Translating an Eeyore branch `if x o y goto l` inside a function appends
/// three instructions: one loading `x` into a register, one loading `y`
/// into another register, and a conditional jump to `l` that compares the
/// register holding `x` (first) with the register holding `y` (second).
pub proof fn law_branch_operands(s: TransV, x: RVal, o: Oper, y: RVal, l: i32)
    requires
        s.ifn,
    ensures
        ({
            let c = step(s, Yi::Brch(x, o, y, l)).cur.inst;
            let k = s.cur.inst.len() as int;
            &&& c.len() == k + 3
            &&& c.take(k) == s.cur.inst
            &&& inst_writes(c[k]) is Some
            &&& inst_writes(c[k + 1]) is Some
            &&& inst_writes(c[k]) != inst_writes(c[k + 1])
            &&& seq![c[k]] == load_of(s, x, inst_writes(c[k]).unwrap())
            &&& seq![c[k + 1]] == load_of(s, y, inst_writes(c[k + 1]).unwrap())
            &&& c[k + 2] == Ti::Cj(inst_writes(c[k]).unwrap(), o, inst_writes(c[k + 1]).unwrap(), l)
        }),
{
    let c = step(s, Yi::Brch(x, o, y, l)).cur.inst;
    let k = s.cur.inst.len() as int;
    let lx = load_of(s, x, S1());
    let ly = load_of(s, y, S2());
    assert(lx.len() == 1 && inst_writes(lx[0]) == Some(S1()));
    assert(ly.len() == 1 && inst_writes(ly[0]) == Some(S2()));
    assert(c =~= s.cur.inst + lx + ly + seq![Ti::Cj(S1(), o, S2(), l)]);
    assert(c[k] == lx[0]);
    assert(c[k + 1] == ly[0]);
    assert(seq![c[k]] =~= lx);
    assert(seq![c[k + 1]] =~= ly);
    assert(c.take(k) =~= s.cur.inst);
}

/// The effect of translating one instruction.
pub open spec fn step(s: TransV, i: Yi) -> TransV {
    if s.ifn {
        match i {
            Yi::DArr(u, j) => TransV { lv: ldef_reg(s.lv, j, u), ..s },
            Yi::DI(u) => TransV { lv: ldef_reg(s.lv, u, 0), ..s },
            Yi::Ass(l, r) => emit(s, load_of(s, r, S1()) + store_of(s, S1(), l)),
            Yi::Take(a, b, r) => emit(s, load_of(s, r, S1()) + load_of(s, RVal::Sym(b), S2())
                + seq![Ti::Op(S1(), S1(), Oper::Add, S2()), Ti::Ld(S1(), S1(), 0)]
                + store_of(s, S1(), LVal::Sym(a))),
            Yi::Cpt(r, a, o, b) => emit(s, load_of(s, a, S1()) + load_of(s, b, S2())
                + seq![Ti::Op(S1(), S1(), o, S2())] + store_of(s, S1(), LVal::Sym(r))),
            Yi::UCpt(r, o, a) => emit(s, load_of(s, a, S1()) + seq![Ti::Ou(S1(), o, S1())]
                + store_of(s, S1(), LVal::Sym(r))),
            Yi::Brch(l, o, r, lb) => emit(s, load_of(s, l, S1()) + load_of(s, r, S2())
                + seq![Ti::Cj(S1(), o, S2(), lb)]),
            Yi::Jump(l) => emit(s, seq![Ti::Jm(l)]),
            Yi::Label(l) => emit(s, seq![Ti::Lb(l)]),
            Yi::Param(r) => TransV { fnpar: s.fnpar + 1, ..emit(s, load_of(s, r, (20 + s.fnpar) as u8)) },
            Yi::Call(f) => after_call(s, f.0@),
            Yi::CallFn(a, f) => emit(after_call(s, f.0@), store_of(s, A0(), LVal::Sym(a))),
            Yi::Return(v) => emit(s, load_of(s, v, A0()) + seq![Ti::Rt]),
            Yi::Ret => emit(s, seq![Ti::Rt]),
            Yi::FnE(_) => TransV {
                fns: s.fns.push(FnV { sta: s.lv.st as i32, ..s.cur }),
                cur: empty_fn(),
                ifn: false,
                lv: empty_ldef(),
                ..s
            },
            Yi::Fn(_, _) => s,
        }
    } else {
        match i {
            Yi::DArr(u, j) => TransV { gv: gdef_reg(s.gv, j, u as usize), ..s },
            Yi::DI(u) => TransV { gv: gdef_reg(s.gv, u, 0), ..s },
            Yi::Ass(LVal::Sym(v), RVal::Int(t)) => TransV { gv: gdef_ass(s.gv, v, 0, t), ..s },
            Yi::Ass(LVal::SymA(v, RVal::Int(k)), RVal::Int(t)) => TransV { gv: gdef_ass(s.gv, v, k, t), ..s },
            Yi::Fn(f, n) => {
                let opened = TransV {
                    ifn: true,
                    names: intern(s.names, f.0@),
                    cur: FnV { name: name_id(s.names, f.0@) as i32, par: n, ..s.cur },
                    ..s
                };
                params_state(opened, n as int)
            },
            _ => s,
        }
    }
}

/// The instruction can be translated (and its translation emitted).
pub open spec fn step_ok(s: TransV, i: Yi) -> bool {
    if s.ifn {
        match i {
            Yi::DArr(u, j) => ldef_reg_ok(s.lv, u),
            Yi::DI(u) => ldef_reg_ok(s.lv, 0),
            Yi::Ass(l, r) => load_ok(s.lv, s.gv, r) && store_ok(s.lv, s.gv, l),
            Yi::Take(a, b, r) => load_ok(s.lv, s.gv, r) && load_ok(s.lv, s.gv, RVal::Sym(b))
                && store_ok(s.lv, s.gv, LVal::Sym(a)),
            Yi::Cpt(r, a, o, b) => load_ok(s.lv, s.gv, a) && load_ok(s.lv, s.gv, b)
                && store_ok(s.lv, s.gv, LVal::Sym(r)),
            Yi::UCpt(r, o, a) => load_ok(s.lv, s.gv, a) && store_ok(s.lv, s.gv, LVal::Sym(r)),
            Yi::Brch(l, o, r, lb) => load_ok(s.lv, s.gv, l) && load_ok(s.lv, s.gv, r)
                && crate::tigger::inst::is_comparison(o),
            Yi::Param(r) => load_ok(s.lv, s.gv, r) && s.fnpar < 8,
            Yi::Call(f) => s.names.len() < i32::MAX,
            Yi::CallFn(a, f) => s.names.len() < i32::MAX && store_ok(s.lv, s.gv, LVal::Sym(a)),
            Yi::Return(v) => load_ok(s.lv, s.gv, v),
            Yi::FnE(_) => i32::MIN <= frame_size(s.lv.st) <= i32::MAX,
            Yi::Fn(_, _) => false,
            _ => true,
        }
    } else {
        match i {
            Yi::DArr(u, j) => s.gv.al < i32::MAX,
            Yi::DI(u) => s.gv.al < i32::MAX,
            Yi::Ass(LVal::Sym(v), RVal::Int(t)) => gdef_ass_ok(s.gv, v, 0),
            Yi::Ass(LVal::SymA(v, RVal::Int(k)), RVal::Int(t)) => gdef_ass_ok(s.gv, v, k),
            Yi::Fn(f, n) => s.names.len() < i32::MAX && s.lv.st + 4 * (if n > 0 { n as int } else { 0 })
                <= i32::MAX && s.lv.st >= 0,
            _ => false,
        }
    }
}

/// The state after translating `a`.
pub open spec fn run(a: Seq<Yi>) -> TransV
    decreases a.len(),
{
    if a.len() == 0 {
        trans_init()
    } else {
        step(run(a.drop_last()), a.last())
    }
}

/// Every instruction of `a` can be translated.
pub open spec fn run_ok(a: Seq<Yi>) -> bool
    decreases a.len(),
{
    a.len() == 0 || (run_ok(a.drop_last()) && step_ok(run(a.drop_last()), a.last()))
}

/// The output: global definitions, a blank line, then the finished functions.
pub open spec fn yass_text(s: TransV) -> Seq<char> {
    vdcs_asm(s.gv.vals) + "\n"@ + fns_asm(s.fns, s.names)
}


/// What the translation keeps true: every emitted instruction can be
/// emitted as assembly, every finished function can be, and an open
/// function has a registered name.
pub open spec fn all_ok(s: TransV) -> bool {
    &&& forall|k: int| 0 <= k < s.cur.inst.len() ==> inst_ok(#[trigger] s.cur.inst[k], s.names)
    &&& forall|k: int| 0 <= k < s.fns.len() ==> fn_ok(#[trigger] s.fns[k], s.names)
    &&& s.ifn ==> 0 <= s.cur.name < s.names.len()
    &&& 0 <= s.fnpar <= 8
    &&& s.names.no_duplicates()
    &&& ldef_wf(s.lv)
    &&& gdef_wf(s.gv)
}

proof fn lemma_inst_ok_grow(i: Ti, n1: Seq<Seq<char>>, n2: Seq<Seq<char>>)
    requires
        inst_ok(i, n1),
        n1.len() <= n2.len(),
    ensures
        inst_ok(i, n2),
{
}

proof fn lemma_fn_ok_grow(f: FnV, n1: Seq<Seq<char>>, n2: Seq<Seq<char>>)
    requires
        fn_ok(f, n1),
        n1.len() <= n2.len(),
    ensures
        fn_ok(f, n2),
{
    assert forall|k: int| 0 <= k < f.inst.len() implies inst_ok(#[trigger] f.inst[k], n2) by {
        lemma_inst_ok_grow(f.inst[k], n1, n2);
    }
}

/// Appending code that is fine and growing the name table keeps `all_ok`.
proof fn lemma_all_ok_emit(s: TransV, c: Seq<Ti>, names: Seq<Seq<char>>)
    requires
        all_ok(s),
        forall|k: int| 0 <= k < c.len() ==> inst_ok(#[trigger] c[k], names),
        s.names.len() <= names.len(),
        names.no_duplicates(),
    ensures
        all_ok(TransV { names: names, ..emit(s, c) }),
{
    let t = TransV { names: names, ..emit(s, c) };
    assert forall|k: int| 0 <= k < t.cur.inst.len() implies inst_ok(#[trigger] t.cur.inst[k], names) by {
        if k < s.cur.inst.len() {
            assert(t.cur.inst[k] == s.cur.inst[k]);
            lemma_inst_ok_grow(s.cur.inst[k], s.names, names);
        } else {
            assert(t.cur.inst[k] == c[k - s.cur.inst.len()]);
        }
    }
    assert forall|k: int| 0 <= k < t.fns.len() implies fn_ok(#[trigger] t.fns[k], names) by {
        lemma_fn_ok_grow(s.fns[k], s.names, names);
    }
}

proof fn lemma_code_ok(c: Seq<Ti>, names: Seq<Seq<char>>)
    requires
        code_ok(c),
    ensures
        forall|k: int| 0 <= k < c.len() ==> inst_ok(#[trigger] c[k], names),
{
    assert forall|k: int| 0 <= k < c.len() implies inst_ok(#[trigger] c[k], names) by {
        lemma_inst_ok_grow(c[k], Seq::empty(), names);
    }
}

struct Trans {
    gv: Gdef,
    lv: Ldef,
    nfn: TFn,
    fns: Vec<TFn>,
    ifn: bool,
    fnpar: usize,
    glo: Glo,
}

impl View for Trans {
    type V = TransV;

    closed spec fn view(&self) -> TransV {
        TransV {
            gv: self.gv@,
            lv: self.lv@,
            cur: self.nfn@,
            fns: self.fns@.map_values(|f: TFn| f@),
            ifn: self.ifn,
            fnpar: self.fnpar as int,
            names: self.glo.names(),
        }
    }
}

impl Trans {
    fn new() -> (t: Trans)
        ensures
            t@ == trans_init(),
            all_ok(t@),
            t.glo.wf(),
    {
        let t = Trans {
            gv: Gdef::new(),
            lv: Ldef::new(),
            nfn: TFn::new(),
            fns: Vec::new(),
            ifn: false,
            fnpar: 0,
            glo: Glo::new(),
        };
        assert(t@ =~= trans_init());
        t
    }

    /// Appends `load_of(a, b)` to the open function.
    fn ld(&mut self, a: RVal, b: u8)
        requires
            all_ok(old(self)@),
            old(self).glo.wf(),
            load_ok(old(self)@.lv, old(self)@.gv, a),
        ensures
            final(self)@ == emit(old(self)@, load_of(old(self)@, a, b)),
            final(self).glo.wf(),
            all_ok(final(self)@),
    {
        proof {
            lemma_load_ok(self@.lv, self@.gv, a, b);
            lemma_code_ok(load_of(self@, a, b), self@.names);
            lemma_all_ok_emit(self@, load_of(self@, a, b), self@.names);
        }
        let ghost before = self@;
        load(&self.lv, &self.gv, &mut self.nfn, a, b);
        assert(self@ =~= emit(before, load_of(before, a, b)));
    }

    /// Appends `store_of(a, b)` for the state `base` to the open function.
    fn st(&mut self, a: u8, b: LVal, Ghost(base): Ghost<TransV>)
        requires
            all_ok(old(self)@),
            old(self).glo.wf(),
            old(self)@.lv == base.lv,
            old(self)@.gv == base.gv,
            store_ok(base.lv, base.gv, b),
        ensures
            final(self)@ == emit(old(self)@, store_of(base, a, b)),
            final(self).glo.wf(),
            all_ok(final(self)@),
    {
        proof {
            lemma_store_ok(base.lv, base.gv, a, b);
            lemma_code_ok(store_of(base, a, b), self@.names);
            lemma_all_ok_emit(self@, store_of(base, a, b), self@.names);
        }
        let ghost before = self@;
        store(&self.lv, &self.gv, &mut self.nfn, a, b);
        assert(self@ =~= emit(before, store_of(base, a, b)));
    }

    /// Registers function name `f` and appends a call of it.
    fn call(&mut self, f: &FnName)
        requires
            all_ok(old(self)@),
            old(self).glo.wf(),
            old(self)@.names.len() < i32::MAX,
        ensures
            final(self)@ == after_call(old(self)@, f.0@),
            final(self).glo.wf(),
            all_ok(final(self)@),
    {
        let ghost before = self@;
        self.fnpar = 0;
        let id = fnm(&mut self.glo, f.0.as_str());
        proof {
            let names = self.glo.names();
            assert(inst_ok(Ti::Cl(id), names));
            lemma_all_ok_emit(TransV { fnpar: 0, ..before }, seq![Ti::Cl(id)], names);
        }
        self.nfn.ps(Ti::Cl(id));
        assert(self@ =~= after_call(before, f.0@));
    }

    /// Appends one instruction that needs nothing of the tables.
    fn put(&mut self, i: Ti)
        requires
            all_ok(old(self)@),
            old(self).glo.wf(),
            inst_ok(i, Seq::empty()),
        ensures
            final(self)@ == emit(old(self)@, seq![i]),
            final(self).glo.wf(),
            all_ok(final(self)@),
    {
        proof {
            assert(code_ok(seq![i]));
            lemma_code_ok(seq![i], self@.names);
            lemma_all_ok_emit(self@, seq![i], self@.names);
        }
        let ghost before = self@;
        self.nfn.ps(i);
        assert(self@ =~= emit(before, seq![i]));
    }
}


proof fn lemma_emit2(s: TransV, a: Seq<Ti>, b: Seq<Ti>)
    ensures
        emit(emit(s, a), b) == emit(s, a + b),
{
    assert(emit(emit(s, a), b).cur.inst =~= emit(s, a + b).cur.inst);
    assert(emit(emit(s, a), b) =~= emit(s, a + b));
}

impl Trans {
    /// Translates one instruction.
    #[verifier::spinoff_prover]
    #[verifier::rlimit(100)]
    fn step(&mut self, i: &Yi)
        requires
            all_ok(old(self)@),
            old(self).glo.wf(),
            step_ok(old(self)@, *i),
        ensures
            final(self)@ == step(old(self)@, *i),
            final(self).glo.wf(),
            all_ok(final(self)@),
    {
        let s1: u8 = Reg::s1.tu();
        let s2: u8 = Reg::s2.tu();
        let a0: u8 = Reg::a0.tu();
        let ghost base = self@;
        if self.ifn {
            match i {
                Yi::DArr(u, j) => {
                    self.lv.reg(*j, *u);
                    assert(self@ =~= step(base, *i));
                },
                Yi::DI(u) => {
                    self.lv.reg(*u, 0);
                    assert(self@ =~= step(base, *i));
                },
                Yi::Ass(l, r) => {
                    self.ld(*r, s1);
                    self.st(s1, *l, Ghost(base));
                    proof { lemma_emit2(base, load_of(base, *r, S1()), store_of(base, S1(), *l)); }
                },
                Yi::Take(a, b, r) => {
                    self.ld(*r, s1);
                    self.ld(RVal::Sym(*b), s2);
                    self.put(Ti::Op(s1, s1, Oper::Add, s2));
                    self.put(Ti::Ld(s1, s1, 0));
                    self.st(s1, LVal::Sym(*a), Ghost(base));
                    proof {
                        let c1 = load_of(base, *r, S1());
                        let c2 = load_of(base, RVal::Sym(*b), S2());
                        let c3 = seq![Ti::Op(S1(), S1(), Oper::Add, S2())];
                        let c4 = seq![Ti::Ld(S1(), S1(), 0)];
                        let c5 = store_of(base, S1(), LVal::Sym(*a));
                        lemma_emit2(base, c1, c2);
                        lemma_emit2(base, c1 + c2, c3);
                        lemma_emit2(base, c1 + c2 + c3, c4);
                        lemma_emit2(base, c1 + c2 + c3 + c4, c5);
                        assert(c1 + c2 + c3 + c4 =~= c1 + c2 + seq![Ti::Op(S1(), S1(), Oper::Add, S2()), Ti::Ld(S1(), S1(), 0)]);
                    }
                },
                Yi::Cpt(r, a, o, b) => {
                    self.ld(*a, s1);
                    self.ld(*b, s2);
                    self.put(Ti::Op(s1, s1, *o, s2));
                    self.st(s1, LVal::Sym(*r), Ghost(base));
                    proof {
                        let c1 = load_of(base, *a, S1());
                        let c2 = load_of(base, *b, S2());
                        let c3 = seq![Ti::Op(S1(), S1(), *o, S2())];
                        let c5 = store_of(base, S1(), LVal::Sym(*r));
                        lemma_emit2(base, c1, c2);
                        lemma_emit2(base, c1 + c2, c3);
                        lemma_emit2(base, c1 + c2 + c3, c5);
                    }
                },
                Yi::UCpt(r, o, a) => {
                    self.ld(*a, s1);
                    self.put(Ti::Ou(s1, *o, s1));
                    self.st(s1, LVal::Sym(*r), Ghost(base));
                    proof {
                        let c1 = load_of(base, *a, S1());
                        let c3 = seq![Ti::Ou(S1(), *o, S1())];
                        let c5 = store_of(base, S1(), LVal::Sym(*r));
                        lemma_emit2(base, c1, c3);
                        lemma_emit2(base, c1 + c3, c5);
                    }
                },
                Yi::Brch(l, o, r, lb) => {
                    self.ld(*l, s1);
                    self.ld(*r, s2);
                    self.put(Ti::Cj(s1, *o, s2, *lb));
                    proof {
                        let c1 = load_of(base, *l, S1());
                        let c2 = load_of(base, *r, S2());
                        lemma_emit2(base, c1, c2);
                        lemma_emit2(base, c1 + c2, seq![Ti::Cj(S1(), *o, S2(), *lb)]);
                    }
                },
                Yi::Jump(l) => {
                    self.put(Ti::Jm(*l));
                },
                Yi::Label(l) => {
                    self.put(Ti::Lb(*l));
                },
                Yi::Param(r) => {
                    let reg: u8 = (20 + self.fnpar) as u8;
                    self.ld(*r, reg);
                    self.fnpar = self.fnpar + 1;
                    assert(self@ =~= step(base, *i));
                },
                Yi::Call(f) => {
                    self.call(f);
                },
                Yi::CallFn(a, f) => {
                    self.call(f);
                    let ghost mid = self@;
                    self.st(a0, LVal::Sym(*a), Ghost(base));
                    assert(self@ =~= step(base, *i));
                },
                Yi::Return(v) => {
                    self.ld(*v, a0);
                    self.put(Ti::Rt);
                    proof { lemma_emit2(base, load_of(base, *v, A0()), seq![Ti::Rt]); }
                },
                Yi::Ret => {
                    self.put(Ti::Rt);
                },
                Yi::FnE(_) => {
                    self.nfn.sta = self.lv.st();
                    let mut done = TFn::new();
                    std::mem::swap(&mut done, &mut self.nfn);
                    let ghost fv = done@;
                    self.fns.push(done);
                    self.ifn = false;
                    self.lv = Ldef::new();
                    assert(self@.fns =~= base.fns.push(fv));
                    assert(self@ =~= step(base, *i));
                    assert(fn_ok(fv, base.names));
                    assert(forall|k: int| 0 <= k < self@.fns.len() ==> fn_ok(#[trigger] self@.fns[k], self@.names)) by {
                        assert forall|k: int| 0 <= k < self@.fns.len() implies fn_ok(#[trigger] self@.fns[k], self@.names) by {
                            if k < base.fns.len() {
                                assert(self@.fns[k] == base.fns[k]);
                            }
                        }
                    }
                },
                Yi::Fn(_, _) => {},
            }
        } else {
            match i {
                Yi::DArr(u, j) => {
                    self.gv.reg(*j, *u as usize);
                    assert(self@ =~= step(base, *i));
                },
                Yi::DI(u) => {
                    self.gv.reg(*u, 0);
                    assert(self@ =~= step(base, *i));
                },
                Yi::Ass(LVal::Sym(v), RVal::Int(t)) => {
                    self.gv.ass(*v, 0, *t);
                    assert(self@ =~= step(base, *i));
                },
                Yi::Ass(LVal::SymA(v, RVal::Int(k)), RVal::Int(t)) => {
                    self.gv.ass(*v, *k, *t);
                    assert(self@ =~= step(base, *i));
                },
                Yi::Fn(f, n) => {
                    self.open_fn(f, *n);
                },
                _ => {},
            }
        }
    }

    /// Opens function `f` with `n` parameters.
    fn open_fn(&mut self, f: &FnName, n: i32)
        requires
            all_ok(old(self)@),
            old(self).glo.wf(),
            !old(self)@.ifn,
            step_ok(old(self)@, Yi::Fn(*f, n)),
        ensures
            final(self)@ == step(old(self)@, Yi::Fn(*f, n)),
            final(self).glo.wf(),
            all_ok(final(self)@),
    {
        let ghost base = self@;
        self.ifn = true;
        let id = fnm(&mut self.glo, f.0.as_str());
        self.nfn.name = id;
        self.nfn.par = n;
        let ghost opened = TransV {
            ifn: true,
            names: intern(base.names, f.0@),
            cur: FnV { name: name_id(base.names, f.0@) as i32, par: n, ..base.cur },
            ..base
        };
        assert(self@ =~= opened);
        proof {
            assert forall|k: int| 0 <= k < opened.fns.len() implies fn_ok(#[trigger] opened.fns[k], opened.names) by {
                lemma_fn_ok_grow(base.fns[k], base.names, opened.names);
            }
            assert forall|k: int| 0 <= k < opened.cur.inst.len() implies inst_ok(#[trigger] opened.cur.inst[k], opened.names) by {
                lemma_inst_ok_grow(base.cur.inst[k], base.names, opened.names);
            }
        }
        let mut k: i32 = 0;
        while k < n
            invariant
                0 <= k,
                n > 0 ==> k <= n,
                n <= 0 ==> k == 0,
                self@ == params_state(opened, k as int),
                self.glo.wf(),
                all_ok(self@),
                self@.lv.st == base.lv.st + 4 * k,
                base.lv.st >= 0,
                base.lv.st + 4 * (if n > 0 { n as int } else { 0 }) <= i32::MAX,
            decreases n - k,
        {
            let ghost prev = self@;
            let cpos = self.lv.reg(Yv(VarUsage::Param, k), 0);
            proof { lemma_shr2(cpos); }
            let r: u8 = #[verifier::truncate] ((20 + k) as u8);
            let ins = Ti::Sst(r, cpos >> 2);
            assert(inst_ok(ins, Seq::empty()));
            assert(self@ =~= TransV { lv: ldef_reg(prev.lv, Yv(VarUsage::Param, k), 0), ..prev });
            assert(all_ok(self@));
            self.put(ins);
            k = k + 1;
            proof {
                let p = params_state(opened, k - 1);
                assert(p == prev);
                assert(r == (20 + (k - 1)) as u8);
                assert(cpos == (p.lv.st as i32));
                assert(self@.cur =~= with_code(p.cur, seq![Ti::Sst((20 + (k - 1)) as u8, (p.lv.st as i32) >> 2)]));
                assert(self@.lv =~= ldef_reg(p.lv, Yv(VarUsage::Param, (k - 1) as i32), 0));
                let q = TransV {
                    lv: ldef_reg(p.lv, Yv(VarUsage::Param, (k - 1) as i32), 0),
                    cur: with_code(p.cur, seq![Ti::Sst((20 + (k - 1)) as u8, (p.lv.st as i32) >> 2)]),
                    ..p
                };
                assert(params_state(opened, k as int) == q);
                assert(self@ =~= q);
            }
            assert(self@ =~= params_state(opened, k as int));
        }
        assert(params_state(opened, n as int) == params_state(opened, k as int));
        assert(self@ =~= step(base, Yi::Fn(*f, n)));
    }
}

proof fn lemma_run_prefix(a: Seq<Yi>, k: int)
    requires
        run_ok(a),
        0 <= k <= a.len(),
    ensures
        run_ok(a.take(k)),
        k < a.len() ==> step_ok(run(a.take(k)), a[k]),
    decreases a.len() - k,
{
    if k == a.len() {
        assert(a.take(k) =~= a);
    } else {
        lemma_run_prefix(a.drop_last(), k);
        assert(a.drop_last().take(k) =~= a.take(k));
        if k + 1 == a.len() {
            assert(a.drop_last() =~= a.take(k));
        } else {
            lemma_run_prefix(a.drop_last(), k + 1);
            assert(a.drop_last().take(k + 1) =~= a.take(k + 1));
            assert(a.take(k + 1).drop_last() =~= a.take(k));
            assert(a.take(k + 1).last() == a[k]);
        }
    }
}

/// Translates an Eeyore program into RISC-V assembly: the global
/// definitions, a blank line, then each function.
pub fn YAss(a: Vec<Yi>) -> (r: String)
    requires
        run_ok(a@),
    ensures
        r@ == yass_text(run(a@)),
{
    let mut t = Trans::new();
    let mut k: usize = 0;
    while k < a.len()
        invariant
            run_ok(a@),
            k <= a@.len(),
            t@ == run(a@.take(k as int)),
            t.glo.wf(),
            all_ok(t@),
        decreases a@.len() - k,
    {
        proof {
            lemma_run_prefix(a@, k as int);
            assert(a@.take(k + 1).drop_last() =~= a@.take(k as int));
            assert(a@.take(k + 1).last() == a@[k as int]);
        }
        t.step(&a[k]);
        k = k + 1;
    }
    assert(a@.take(k as int) =~= a@);
    let mut out: Vec<char> = Vec::new();
    t.gv.tr(&mut out);
    push_str(&mut out, "\n");
    assert(forall|i: int| 0 <= i < t.fns@.len() ==> fn_ok(#[trigger] t.fns@[i]@, t.glo.names())) by {
        assert forall|i: int| 0 <= i < t.fns@.len() implies fn_ok(#[trigger] t.fns@[i]@, t.glo.names()) by {
            assert(t@.fns[i] == t.fns@[i]@);
        }
    }
    Prog::render_fns(&mut out, &t.fns, &t.glo);
    assert(out@ =~= yass_text(run(a@)));
    chars_to_string(out)
}

} // verus!
