//! Compilation of SysY into Eeyore.
//!
//! Code is built in segments. A segment holds instructions and four lists of
//! positions of jumps whose targets are not known yet: where control goes
//! when a condition holds (0), when it fails (1), on `break` (2) and on
//! `continue` (3). Filling a list sets the target of its jumps.
use vstd::prelude::*;
use crate::eeyore::inst::{
    Inst, InstV, inst_view, insts_view, lines_text, lemma_inst_text, Var, VarUsage, LVal, RVal, Oper, UOper, FnName,
};
use crate::sysY::ast;
use crate::sysY::ast::{
    CompUnit, Decl, VarDecl, InitCont, VarInit, Expr, Exp, Func, BlockItem, Stmt, CondExpr, ExprV,
    CondV, InitEV, InitIV, VarInitV, VarDeclV, StmtV, ItemV, FuncV, UnitV, expr_view,
    exprs_view, cond_view, init_e_view, init_i_view, var_init_view, var_decl_view, var_decls_view,
    decl_view, stmt_view, item_view, items_view, func_view, unit_view,
};
use crate::sysY::eval;
use crate::sysY::eval::Prep;
use crate::sysY::eval::{bmult, dicast, dims_of, strides, dims_fit};
use crate::text::{push_str, chars_to_string};

verus! {

// ---------------------------------------------------------------------
// Variables of the scopes being compiled.

/// What is known of a variable: its strides (one element for an integer)
/// and its Eeyore variable.
struct Vmeta {
    dim: Vec<i32>,
    vdef: Var,
}

impl Vmeta {
    /// A copy of this entry.
    fn dup(&self) -> (r: Self)
        ensures
            vmeta_view(r) == vmeta_view(*self),
    {
        let r = Vmeta { dim: self.dim.clone(), vdef: self.vdef };
        assert(r.dim@ =~= self.dim@);
        r
    }
}

pub struct VmetaV {
    pub dim: Seq<i32>,
    pub vdef: Var,
}

spec fn vmeta_view(m: Vmeta) -> VmetaV {
    VmetaV { dim: m.dim@, vdef: m.vdef }
}

/// The declaration of a variable: none for a parameter, `var` for an
/// integer, `var` with its size in bytes for an array.
pub open spec fn vmeta_dump(m: VmetaV) -> Option<InstV> {
    if m.vdef.0 == VarUsage::Param {
        None
    } else if m.dim.len() == 1 {
        Some(InstV::DI(m.vdef))
    } else {
        Some(InstV::DArr((m.dim[0] * 4) as i32, m.vdef))
    }
}

pub open spec fn vmeta_dump_ok(m: VmetaV) -> bool {
    m.vdef.0 != VarUsage::Param && m.dim.len() != 1 ==> m.dim.len() >= 1 && i32::MIN <= m.dim[0] * 4 <= i32::MAX
}

impl Vmeta {
    fn dump(&self) -> (r: Option<Inst>)
        requires
            vmeta_dump_ok(vmeta_view(*self)),
        ensures
            match vmeta_dump(vmeta_view(*self)) {
                Some(i) => r matches Some(x) && inst_view(x) == i,
                None => r is None,
            },
    {
        if let Var(VarUsage::Param, t) = self.vdef {
            return None;
        }
        Some(
            if self.dim.len() == 1 {
                Inst::DI(self.vdef)
            } else {
                Inst::DArr(self.dim[0] * 4, self.vdef)
            },
        )
    }
}

/// The variables of one scope, and the numbers given so far to locals
/// (counted across the scopes of a function), temporaries and parameters.
/// The variables of the blocks already closed inside it are kept apart, to
/// be declared with the scope's own.
struct VScope {
    map: Vec<(String, Vmeta)>,
    local: i32,
    temp: i32,
    param: i32,
    blocks: Vec<(String, Vmeta)>,
}

pub struct FScopeV {
    pub map: Seq<(Seq<char>, VmetaV)>,
    pub local: i32,
    pub temp: i32,
    pub param: i32,
    pub blocks: Seq<(Seq<char>, VmetaV)>,
}

spec fn metas_view(m: Seq<(String, Vmeta)>) -> Seq<(Seq<char>, VmetaV)> {
    Seq::new(m.len(), |i: int| (m[i].0@, vmeta_view(m[i].1)))
}

spec fn fscope_view(s: VScope) -> FScopeV {
    FScopeV {
        map: metas_view(s.map@),
        local: s.local,
        temp: s.temp,
        param: s.param,
        blocks: metas_view(s.blocks@),
    }
}

pub open spec fn fscope_new(fcnt: i32) -> FScopeV {
    FScopeV { map: Seq::empty(), local: fcnt, temp: 0, param: 0, blocks: Seq::empty() }
}

/// The last position of `n` in `map`, or -1.
pub open spec fn meta_index(map: Seq<(Seq<char>, VmetaV)>, n: Seq<char>) -> int
    decreases map.len(),
{
    if map.len() == 0 {
        -1
    } else if map.last().0 == n {
        map.len() - 1
    } else {
        meta_index(map.drop_last(), n)
    }
}

proof fn lemma_meta_index(map: Seq<(Seq<char>, VmetaV)>, n: Seq<char>)
    ensures
        -1 <= meta_index(map, n) < map.len(),
        meta_index(map, n) >= 0 ==> map[meta_index(map, n)].0 == n,
    decreases map.len(),
{
    if map.len() > 0 {
        lemma_meta_index(map.drop_last(), n);
    }
}

pub open spec fn meta_get(map: Seq<(Seq<char>, VmetaV)>, n: Seq<char>) -> Option<VmetaV> {
    let k = meta_index(map, n);
    if k >= 0 { Some(map[k].1) } else { None }
}

pub open spec fn meta_put(map: Seq<(Seq<char>, VmetaV)>, n: Seq<char>, m: VmetaV) -> Seq<(Seq<char>, VmetaV)> {
    let k = meta_index(map, n);
    if k >= 0 { map.update(k, (n, m)) } else { map.push((n, m)) }
}

/// The declarations of the variables of a scope, in order.
pub open spec fn map_dump(map: Seq<(Seq<char>, VmetaV)>) -> Seq<InstV>
    decreases map.len(),
{
    if map.len() == 0 {
        Seq::empty()
    } else {
        map_dump(map.drop_last()) + match vmeta_dump(map.last().1) {
            Some(i) => seq![i],
            None => Seq::empty(),
        }
    }
}

pub open spec fn map_dump_ok(map: Seq<(Seq<char>, VmetaV)>) -> bool {
    forall|i: int| 0 <= i < map.len() ==> vmeta_dump_ok(#[trigger] map[i].1)
}

/// The declarations of a scope can be written.
pub open spec fn fscope_dump_ok(s: FScopeV) -> bool {
    map_dump_ok(s.map) && map_dump_ok(s.blocks)
}

/// The declarations of a scope: its variables, those of the blocks closed
/// inside it, then temporaries `t0`, `t1`, ...
pub open spec fn fscope_dump(s: FScopeV) -> Seq<InstV> {
    map_dump(s.map) + map_dump(s.blocks) + Seq::new(
        if s.temp >= 0 { s.temp as nat } else { 0 },
        |x: int| InstV::DI(Var(VarUsage::Temp, x as i32)),
    )
}

/// The declarations of the variables `m`, in order.
fn dump_metas(m: &Vec<(String, Vmeta)>) -> (r: Vec<Inst>)
    requires
        map_dump_ok(metas_view(m@)),
    ensures
        insts_view(r@) == map_dump(metas_view(m@)),
{
    let ghost map = metas_view(m@);
    let mut loc: Vec<Inst> = Vec::new();
    let mut i: usize = 0;
    while i < m.len()
        invariant
            i <= m@.len(),
            map == metas_view(m@),
            map_dump_ok(map),
            insts_view(loc@) == map_dump(map.take(i as int)),
        decreases m@.len() - i,
    {
        assert(map.take(i + 1).drop_last() =~= map.take(i as int));
        assert(map[i as int].1 == vmeta_view(m@[i as int].1));
        let ghost before = loc@;
        match m[i].1.dump() {
            Some(x) => {
                loc.push(x);
                assert(insts_view(loc@) =~= insts_view(before) + seq![inst_view(x)]);
            },
            None => {},
        }
        i = i + 1;
        assert(insts_view(loc@) =~= map_dump(map.take(i as int)));
    }
    assert(map.take(i as int) =~= map);
    loc
}

impl VScope {
    fn new(fcnt: i32) -> (s: VScope)
        ensures
            fscope_view(s) == fscope_new(fcnt),
    {
        let s = VScope { map: Vec::new(), local: fcnt, temp: 0, param: 0, blocks: Vec::new() };
        assert(fscope_view(s).map =~= Seq::<(Seq<char>, VmetaV)>::empty());
        assert(fscope_view(s).blocks =~= Seq::<(Seq<char>, VmetaV)>::empty());
        s
    }

    /// Binds `n` to `m` in this scope.
    #[verifier::loop_isolation(false)]
    fn put(&mut self, n: &str, m: Vmeta)
        ensures
            fscope_view(*final(self)) == (FScopeV {
                map: meta_put(fscope_view(*old(self)).map, n@, vmeta_view(m)),
                ..fscope_view(*old(self))
            }),
    {
        let ghost map = fscope_view(*self).map;
        let key: String = n.to_owned();
        let mut j: usize = self.map.len();
        let mut found: Option<usize> = None;
        assert(map.take(j as int) =~= map);
        while j > 0 && found.is_none()
            invariant
                j <= self.map@.len(),
                map == fscope_view(*self).map,
                found is None ==> meta_index(map, n@) == meta_index(map.take(j as int), n@),
                found matches Some(k) ==> meta_index(map, n@) == k && k < self.map@.len(),
            decreases j,
        {
            assert(map.take(j as int).drop_last() =~= map.take(j - 1));
            if self.map[j - 1].0 == key {
                proof {
                    assert(map.take(j as int).last() == map[j - 1]);
                }
                found = Some(j - 1);
            }
            j = j - 1;
        }
        proof {
            if found is None {
                assert(map.take(j as int) =~= Seq::<(Seq<char>, VmetaV)>::empty());
            }
        }
        let ghost mv = vmeta_view(m);
        let e = (key, m);
        match found {
            Some(k) => {
                self.map.set(k, e);
                assert(fscope_view(*self).map =~= map.update(k as int, (n@, mv)));
            },
            None => {
                self.map.push(e);
                assert(fscope_view(*self).map =~= map.push((n@, mv)));
            },
        }
    }

    /// A new local of strides `d`, named `n`.
    fn reg_loc(&mut self, n: &str, d: &Vec<i32>) -> (r: Var)
        requires
            old(self).local < i32::MAX,
        ensures
            r == Var(VarUsage::Var, old(self).local),
            fscope_view(*final(self)) == (FScopeV {
                map: meta_put(fscope_view(*old(self)).map, n@, VmetaV { dim: d@, vdef: r }),
                local: (old(self).local + 1) as i32,
                ..fscope_view(*old(self))
            }),
    {
        let id = self.local;
        self.local += 1;
        let ret = Var(VarUsage::Var, id);
        let meta = Vmeta { dim: d.clone(), vdef: ret };
        assert(meta.dim@ =~= d@);
        self.put(n, meta);
        ret
    }

    /// A new parameter of strides `d`, named `n`.
    fn reg_par(&mut self, n: &str, d: &Vec<i32>) -> (r: Var)
        requires
            old(self).param < i32::MAX,
        ensures
            r == Var(VarUsage::Param, old(self).param),
            fscope_view(*final(self)) == (FScopeV {
                map: meta_put(fscope_view(*old(self)).map, n@, VmetaV { dim: d@, vdef: r }),
                param: (old(self).param + 1) as i32,
                ..fscope_view(*old(self))
            }),
    {
        let id = self.param;
        self.param += 1;
        let ret = Var(VarUsage::Param, id);
        let meta = Vmeta { dim: d.clone(), vdef: ret };
        assert(meta.dim@ =~= d@);
        self.put(n, meta);
        ret
    }

    /// A new temporary.
    fn reg_tmp(&mut self) -> (r: Var)
        requires
            old(self).temp < i32::MAX,
        ensures
            r == Var(VarUsage::Temp, old(self).temp),
            fscope_view(*final(self)) == (FScopeV { temp: (old(self).temp + 1) as i32, ..fscope_view(*old(self)) }),
    {
        let id = self.temp;
        self.temp += 1;
        let ret = Var(VarUsage::Temp, id);
        ret
    }

    /// The declarations of this scope.
    fn dump(&self) -> (r: Vec<Inst>)
        requires
            fscope_dump_ok(fscope_view(*self)),
        ensures
            insts_view(r@) == fscope_dump(fscope_view(*self)),
    {
        let loc0 = dump_metas(&self.map);
        let loc1 = dump_metas(&self.blocks);
        let ghost l0 = loc0@;
        let ghost l1 = loc1@;
        let loc = mdq(loc0, loc1);
        proof { lemma_insts_view_add(l0, l1); }
        let mut tmp: Vec<Inst> = Vec::new();
        let mut x: i32 = 0;
        while x < self.temp
            invariant
                0 <= x,
                self.temp >= 0 ==> x <= self.temp,
                self.temp < 0 ==> x == 0,
                insts_view(tmp@) =~= Seq::new(x as nat, |k: int| InstV::DI(Var(VarUsage::Temp, k as i32))),
            decreases self.temp - x,
        {
            let ghost before = tmp@;
            tmp.push(Inst::DI(Var(VarUsage::Temp, x)));
            proof { lemma_insts_view_push(before, Inst::DI(Var(VarUsage::Temp, x))); }
            x = x + 1;
            assert forall|k: int| 0 <= k < x implies insts_view(tmp@)[k] == InstV::DI(Var(VarUsage::Temp, k as i32)) by {
                if k < x - 1 {
                    assert(insts_view(tmp@)[k] == insts_view(before)[k]);
                }
            }
            assert(insts_view(tmp@) =~= Seq::new(x as nat, |k: int| InstV::DI(Var(VarUsage::Temp, k as i32))));
        }
        let ghost lv = loc@;
        let ghost tv = tmp@;
        let r = mdq(loc, tmp);
        proof { lemma_insts_view_add(lv, tv); }
        assert(insts_view(r@) =~= fscope_dump(fscope_view(*self)));
        r
    }
}

pub proof fn lemma_insts_view_push(a: Seq<Inst>, x: Inst)
    ensures
        insts_view(a.push(x)) == insts_view(a).push(inst_view(x)),
{
    assert(insts_view(a.push(x)) =~= insts_view(a).push(inst_view(x)));
}

pub proof fn lemma_insts_view_add(a: Seq<Inst>, b: Seq<Inst>)
    ensures
        insts_view(a + b) == insts_view(a) + insts_view(b),
{
    assert(insts_view(a + b) =~= insts_view(a) + insts_view(b));
}

/// `a` followed by `b`.
fn mdq(mut a: Vec<Inst>, mut b: Vec<Inst>) -> (r: Vec<Inst>)
    ensures
        r@ == a@ + b@,
{
    a.append(&mut b);
    a
}

/// `a` followed by the positions of `b` moved by `c`.
fn mls(mut a: Vec<usize>, b: Vec<usize>, c: usize) -> (r: Vec<usize>)
    requires
        forall|k: int| 0 <= k < b@.len() ==> b@[k] + c <= usize::MAX,
    ensures
        r@ == a@ + shift(b@, c as nat),
{
    let ghost a0 = a@;
    let mut i: usize = 0;
    while i < b.len()
        invariant
            i <= b@.len(),
            forall|k: int| 0 <= k < b@.len() ==> b@[k] + c <= usize::MAX,
            a@ == a0 + shift(b@, c as nat).take(i as int),
        decreases b@.len() - i,
    {
        a.push(b[i] + c);
        i = i + 1;
        assert(a@ =~= a0 + shift(b@, c as nat).take(i as int));
    }
    assert(shift(b@, c as nat).take(i as int) =~= shift(b@, c as nat));
    a
}

/// Positions moved by `c`.
pub open spec fn shift(l: Seq<usize>, c: nat) -> Seq<usize> {
    Seq::new(l.len(), |k: int| (l[k] + c) as usize)
}


// ---------------------------------------------------------------------
// The stack of scopes of the function being compiled, and the label counter.

struct VStack {
    st: Vec<VScope>,
    lab: i32,
}

pub struct StackV {
    pub st: Seq<FScopeV>,
    pub lab: i32,
}

spec fn stack_view(b: VStack) -> StackV {
    StackV { st: Seq::new(b.st@.len(), |i: int| fscope_view(b.st@[i])), lab: b.lab }
}

pub open spec fn stack_new() -> StackV {
    StackV { st: seq![fscope_new(0)], lab: 0 }
}

/// A fresh label.
pub open spec fn get_lab(b: StackV) -> Option<(i32, StackV)> {
    if b.lab < i32::MAX { Some((b.lab, StackV { lab: (b.lab + 1) as i32, ..b })) } else { None }
}

/// A new scope, whose locals are numbered after those of the current one.
pub open spec fn stack_enter(b: StackV) -> Option<StackV> {
    if b.st.len() > 0 { Some(StackV { st: b.st.push(fscope_new(b.st.last().local)), ..b }) } else { None }
}

/// The innermost scope, removed.
pub open spec fn stack_exit(b: StackV) -> Option<(FScopeV, StackV)> {
    if b.st.len() > 0 { Some((b.st.last(), StackV { st: b.st.drop_last(), ..b })) } else { None }
}

/// What is known of `n`, from the innermost scope that holds it.
pub open spec fn stack_find(s: Seq<FScopeV>, n: Seq<char>) -> Option<VmetaV>
    decreases s.len(),
{
    if s.len() == 0 {
        None
    } else {
        match meta_get(s.last().map, n) {
            Some(m) => Some(m),
            None => stack_find(s.drop_last(), n),
        }
    }
}

pub open spec fn with_top(b: StackV, f: FScopeV) -> StackV {
    StackV { st: b.st.update(b.st.len() - 1, f), ..b }
}

/// A new scope for a block: it starts with no variables and takes over the
/// numbering of locals and temporaries from the scope around it.
pub open spec fn stack_block_enter(b: StackV) -> Option<StackV> {
    if b.st.len() > 0 {
        Some(StackV { st: b.st.push(FScopeV { map: Seq::empty(), blocks: Seq::empty(), ..b.st.last() }), ..b })
    } else {
        None
    }
}

/// A block's scope closed: its variables are no longer found; the scope
/// around it keeps them, to declare them, and numbers on after them.
pub open spec fn stack_block_exit(b: StackV) -> Option<StackV> {
    if b.st.len() >= 2 {
        let inner = b.st.last();
        let outer = b.st[b.st.len() - 2];
        Some(StackV {
            st: b.st.drop_last().update(
                b.st.len() - 2,
                FScopeV { local: inner.local, temp: inner.temp, blocks: outer.blocks + inner.map + inner.blocks, ..outer },
            ),
            ..b
        })
    } else {
        None
    }
}

/// A new local `n` of strides `d` in the innermost scope.
pub open spec fn reg_loc(b: StackV, n: Seq<char>, d: Seq<i32>) -> Option<(Var, StackV)> {
    if b.st.len() > 0 && b.st.last().local < i32::MAX {
        let f = b.st.last();
        let v = Var(VarUsage::Var, f.local);
        Some((v, with_top(b, FScopeV { map: meta_put(f.map, n, VmetaV { dim: d, vdef: v }), local: (f.local + 1) as i32, ..f })))
    } else {
        None
    }
}

/// A new parameter `n` of strides `d` in the innermost scope.
pub open spec fn reg_par(b: StackV, n: Seq<char>, d: Seq<i32>) -> Option<(Var, StackV)> {
    if b.st.len() > 0 && b.st.last().param < i32::MAX {
        let f = b.st.last();
        let v = Var(VarUsage::Param, f.param);
        Some((v, with_top(b, FScopeV { map: meta_put(f.map, n, VmetaV { dim: d, vdef: v }), param: (f.param + 1) as i32, ..f })))
    } else {
        None
    }
}

/// A new temporary in the innermost scope.
pub open spec fn reg_tmp(b: StackV) -> Option<(Var, StackV)> {
    if b.st.len() > 0 && b.st.last().temp < i32::MAX {
        let f = b.st.last();
        Some((Var(VarUsage::Temp, f.temp), with_top(b, FScopeV { temp: (f.temp + 1) as i32, ..f })))
    } else {
        None
    }
}

impl VStack {
    fn new() -> (b: VStack)
        ensures
            stack_view(b) == stack_new(),
    {
        let mut st: Vec<VScope> = Vec::new();
        st.push(VScope::new(0));
        let b = VStack { st, lab: 0 };
        assert(stack_view(b).st =~= seq![fscope_new(0)]);
        b
    }

    fn get_lab(&mut self) -> (r: i32)
        requires
            get_lab(stack_view(*old(self))) is Some,
        ensures
            get_lab(stack_view(*old(self))) == Some((r, stack_view(*final(self)))),
    {
        let r = self.lab;
        self.lab += 1;
        r
    }

    fn enter(&mut self)
        requires
            stack_enter(stack_view(*old(self))) is Some,
        ensures
            stack_enter(stack_view(*old(self))) == Some(stack_view(*final(self))),
    {
        let k = self.st.len() - 1;
        let r = self.st[k].local;
        self.st.push(VScope::new(r));
        assert(stack_view(*self).st =~= stack_view(*old(self)).st.push(fscope_new(r)));
    }

    fn block_enter(&mut self)
        requires
            stack_block_enter(stack_view(*old(self))) is Some,
        ensures
            stack_block_enter(stack_view(*old(self))) == Some(stack_view(*final(self))),
    {
        let k = self.st.len() - 1;
        let sc = VScope {
            map: Vec::new(),
            local: self.st[k].local,
            temp: self.st[k].temp,
            param: self.st[k].param,
            blocks: Vec::new(),
        };
        let ghost top = stack_view(*old(self)).st.last();
        assert(top == fscope_view(self.st@[k as int]));
        assert(fscope_view(sc).map =~= Seq::<(Seq<char>, VmetaV)>::empty());
        assert(fscope_view(sc).blocks =~= Seq::<(Seq<char>, VmetaV)>::empty());
        assert(fscope_view(sc) == (FScopeV { map: Seq::empty(), blocks: Seq::empty(), ..top }));
        self.st.push(sc);
        assert(stack_view(*self).st =~= stack_view(*old(self)).st.push(fscope_view(sc)));
    }

    fn block_exit(&mut self)
        requires
            stack_block_exit(stack_view(*old(self))) is Some,
        ensures
            stack_block_exit(stack_view(*old(self))) == Some(stack_view(*final(self))),
    {
        let ghost sv = stack_view(*old(self)).st;
        let mut inner = self.st.pop().unwrap();
        let mut outer = self.st.pop().unwrap();
        let ghost ov = fscope_view(outer);
        let ghost iv = fscope_view(inner);
        assert(iv == sv.last());
        assert(ov == sv[sv.len() - 2]);
        outer.local = inner.local;
        outer.temp = inner.temp;
        let ghost ob = outer.blocks@;
        let ghost im = inner.map@;
        let ghost ib = inner.blocks@;
        outer.blocks.append(&mut inner.map);
        outer.blocks.append(&mut inner.blocks);
        assert(outer.blocks@ =~= ob + im + ib);
        assert(fscope_view(outer).blocks =~= ov.blocks + iv.map + iv.blocks);
        assert(fscope_view(outer) =~= (FScopeV { local: iv.local, temp: iv.temp, blocks: ov.blocks + iv.map + iv.blocks, ..ov }));
        self.st.push(outer);
        assert(stack_view(*self).st =~= sv.drop_last().update(sv.len() - 2, fscope_view(outer)));
    }

    fn exit(&mut self) -> (r: VScope)
        requires
            stack_exit(stack_view(*old(self))) is Some,
        ensures
            stack_exit(stack_view(*old(self))) == Some((fscope_view(r), stack_view(*final(self)))),
    {
        let r = self.st.pop().unwrap();
        assert(stack_view(*self).st =~= stack_view(*old(self)).st.drop_last());
        r
    }

    /// What is known of `name`.
    #[verifier::loop_isolation(false)]
    fn find(&self, name: &String) -> (r: Option<Vmeta>)
        ensures
            match stack_find(stack_view(*self).st, name@) {
                Some(m) => r matches Some(x) && vmeta_view(x) == m,
                None => r is None,
            },
    {
        let ghost sv = stack_view(*self).st;
        let mut i: usize = self.st.len();
        assert(sv.take(i as int) =~= sv);
        while i > 0
            invariant
                i <= self.st@.len(),
                stack_find(sv, name@) == stack_find(sv.take(i as int), name@),
            decreases i,
        {
            let sc = &self.st[i - 1];
            let ghost map = sv[i - 1].map;
            assert(sv.take(i as int).drop_last() =~= sv.take(i - 1));
            assert(sv.take(i as int).last() == sv[i - 1]);
            let mut j: usize = sc.map.len();
            assert(map.take(j as int) =~= map);
            while j > 0
                invariant
                    j <= sc.map@.len(),
                    map == fscope_view(*sc).map,
                    meta_index(map, name@) == meta_index(map.take(j as int), name@),
                decreases j,
            {
                assert(map.take(j as int).drop_last() =~= map.take(j - 1));
                if sc.map[j - 1].0 == *name {
                    assert(map.take(j as int).last() == map[j - 1]);
                    return Some(sc.map[j - 1].1.dup());
                }
                j = j - 1;
            }
            assert(map.take(0) =~= Seq::<(Seq<char>, VmetaV)>::empty());
            i = i - 1;
        }
        assert(sv.take(0) =~= Seq::<FScopeV>::empty());
        None
    }

    /// The innermost scope.
    fn top(&mut self) -> (r: &mut VScope)
        requires
            old(self).st@.len() > 0,
        ensures
            *r == old(self).st@.last(),
            final(self).st@ == old(self).st@.update(old(self).st@.len() - 1, *final(r)),
            final(self).lab == old(self).lab,
    {
        let k = self.st.len() - 1;
        &mut self.st[k]
    }
}

// ---------------------------------------------------------------------
// Segments of code.

/// Instructions, the four lists of jumps to be filled, and the value left.
pub struct Segment {
    ins: Vec<Inst>,
    list: Vec<Vec<usize>>,
    ret: Option<RVal>,
}

pub struct SegV {
    pub ins: Seq<InstV>,
    pub list: Seq<Seq<usize>>,
    pub ret: Option<RVal>,
}

impl View for Segment {
    type V = SegV;

    closed spec fn view(&self) -> SegV {
        SegV {
            ins: insts_view(self.ins@),
            list: Seq::new(self.list@.len(), |k: int| self.list@[k]@),
            ret: self.ret,
        }
    }
}

/// Four lists, and every position in them is that of an instruction.
pub open spec fn seg_wf(s: SegV) -> bool {
    &&& s.list.len() == 4
    &&& forall|k: int, j: int| 0 <= k < 4 && 0 <= j < s.list[k].len() ==> #[trigger] s.list[k][j] < s.ins.len()
}

pub open spec fn no_lists() -> Seq<Seq<usize>> {
    seq![Seq::empty(), Seq::empty(), Seq::empty(), Seq::empty()]
}

pub open spec fn seg_from(a: Seq<InstV>) -> SegV {
    SegV { ins: a, list: no_lists(), ret: None }
}

pub open spec fn seg_new() -> SegV {
    seg_from(Seq::empty())
}

/// `a` then `b`: the positions of `b` move past the instructions of `a`.
pub open spec fn seg_cat(a: SegV, b: SegV) -> SegV {
    SegV {
        ins: a.ins + b.ins,
        list: Seq::new(4, |k: int| a.list[k] + shift(b.list[k], a.ins.len())),
        ret: b.ret,
    }
}

/// A jump or branch sent to `lab`; any other instruction is kept.
pub open spec fn retarget(i: InstV, lab: i32) -> InstV {
    match i {
        InstV::Brch(a, o, b, _) => InstV::Brch(a, o, b, lab),
        InstV::Jump(_) => InstV::Jump(lab),
        _ => i,
    }
}

/// The jumps of list `k` sent to `lab`, and the list emptied.
pub open spec fn seg_fill(s: SegV, k: int, lab: i32) -> SegV {
    SegV {
        ins: Seq::new(s.ins.len(), |p: int| if s.list[k].contains(p as usize) { retarget(s.ins[p], lab) } else { s.ins[p] }),
        list: s.list.update(k, Seq::empty()),
        ret: s.ret,
    }
}

pub open spec fn seg_push(s: SegV, i: InstV) -> SegV {
    SegV { ins: s.ins.push(i), ..s }
}

/// `c` appended, and its position added to list `x`.
pub open spec fn seg_jumpx(s: SegV, c: InstV, x: int) -> SegV {
    SegV { ins: s.ins.push(c), list: s.list.update(x, s.list[x].push(s.ins.len() as usize)), ret: s.ret }
}

/// `s` after a fresh label.
pub open spec fn seg_lab(s: SegV, b: StackV) -> Option<(SegV, i32, StackV)> {
    match get_lab(b) {
        Some((l, b1)) => Some((seg_cat(seg_from(seq![InstV::Label(l)]), s), l, b1)),
        None => None,
    }
}

impl Segment {
    fn new() -> (r: Segment)
        ensures
            r@ == seg_new(),
            seg_wf(r@),
    {
        let r = Segment::from(Vec::new());
        assert(insts_view(Seq::<Inst>::empty()) =~= Seq::<InstV>::empty());
        r
    }

    fn from(a: Vec<Inst>) -> (r: Segment)
        ensures
            r@ == seg_from(insts_view(a@)),
            seg_wf(r@),
    {
        let mut list: Vec<Vec<usize>> = Vec::new();
        list.push(Vec::new());
        list.push(Vec::new());
        list.push(Vec::new());
        list.push(Vec::new());
        let r = Segment { ins: a, list, ret: None };
        assert(r@.list =~= no_lists());
        r
    }

    fn push(&mut self, a: Inst)
        ensures
            final(self)@ == seg_push(old(self)@, inst_view(a)),
            seg_wf(old(self)@) ==> seg_wf(final(self)@),
    {
        let ghost before = self.ins@;
        self.ins.push(a);
        proof { lemma_insts_view_push(before, a); }
        assert(self@.list =~= old(self)@.list);
    }

    fn cat(a: Segment, b: Segment) -> (r: Segment)
        requires
            seg_wf(a@),
            seg_wf(b@),
        ensures
            r@ == seg_cat(a@, b@),
            seg_wf(r@),
    {
        let ghost av = a@;
        let ghost bv = b@;
        let Segment { ins: ai, list: al, ret: _ } = a;
        let Segment { ins: bi, list: bl, ret: bret } = b;
        let c = ai.len();
        let ghost aiv = ai@;
        let ghost biv = bi@;
        let ins = mdq(ai, bi);
        proof { lemma_insts_view_add(aiv, biv); }
        assert(ins@.len() == c + biv.len());
        let total = ins.len();
        assert(ins@.len() == total);
        let mut list: Vec<Vec<usize>> = Vec::new();
        let mut k: usize = 0;
        let mut al = al;
        let mut bl = bl;
        assert(forall|j: int| 0 <= j < 4 ==> al@[j]@ == #[trigger] av.list[j]);
        assert(forall|j: int| 0 <= j < 4 ==> bl@[j]@ == #[trigger] bv.list[j]);
        while k < 4
            invariant
                k <= 4,
                al@.len() == 4,
                bl@.len() == 4,
                list@.len() == k,
                c == av.ins.len(),
                ins@.len() == c + bv.ins.len(),
                ins@.len() <= usize::MAX,
                forall|j: int| k <= j < 4 ==> al@[j]@ == av.list[j] && bl@[j]@ == bv.list[j],
                forall|j: int| 0 <= j < k ==> list@[j]@ == av.list[j] + shift(bv.list[j], c as nat),
                seg_wf(av),
                seg_wf(bv),
            decreases 4 - k,
        {
            let mut x: Vec<usize> = Vec::new();
            let mut y: Vec<usize> = Vec::new();
            std::mem::swap(&mut x, &mut al[k]);
            std::mem::swap(&mut y, &mut bl[k]);
            assert(x@ == av.list[k as int]);
            assert(y@ == bv.list[k as int]);
            assert forall|j: int| 0 <= j < y@.len() implies y@[j] + c <= usize::MAX by {
                assert(bv.list[k as int][j] < bv.ins.len());
            }
            list.push(mls(x, y, c));
            k = k + 1;
        }
        let r = Segment { ins, list, ret: bret };
        assert(r@.list =~= seg_cat(av, bv).list);
        assert(r@ == seg_cat(av, bv));
        assert forall|k: int, j: int| 0 <= k < 4 && 0 <= j < r@.list[k].len() implies #[trigger] r@.list[k][j] < r@.ins.len() by {
            if j < av.list[k].len() {
                assert(r@.list[k][j] == av.list[k][j]);
            } else {
                assert(r@.list[k][j] == (bv.list[k][j - av.list[k].len()] + c) as usize);
                assert(bv.list[k][j - av.list[k].len()] < bv.ins.len());
            }
        }
        r
    }
    /// The jumps of list `k` sent to `lab`; the list is emptied.
    fn fill(self, k: usize, lab: i32) -> (r: Segment)
        requires
            seg_wf(self@),
            k < 4,
        ensures
            r@ == seg_fill(self@, k as int, lab),
            seg_wf(r@),
    {
        let mut s = self;
        let ghost sv = s@;
        let ghost l = s.list@[k as int]@;
        let ghost lists0 = s.list@;
        let n = s.list[k].len();
        let tot = s.ins.len();
        let mut j: usize = 0;
        assert(l == sv.list[k as int]);
        while j < n
            invariant
                j <= n,
                n == l.len(),
                l == sv.list[k as int],
                s.list@ == lists0,
                s.ret == sv.ret,
                seg_wf(sv),
                k < 4,
                sv.list == Seq::new(lists0.len(), |q: int| lists0[q]@),
                sv.ins.len() == s.ins@.len(),
                tot == sv.ins.len(),
                insts_view(s.ins@) == Seq::new(sv.ins.len(), |p: int| if l.take(j as int).contains(p as usize) { retarget(sv.ins[p], lab) } else { sv.ins[p] }),
            decreases n - j,
        {
            let p = s.list[k][j];
            assert(l[j as int] == p);
            assert(p < sv.ins.len());
            let ghost before = s.ins@;
            let ni = match &s.ins[p] {
                Inst::Brch(a, o, b, _) => Inst::Brch(*a, *o, *b, lab),
                Inst::Jump(_) => Inst::Jump(lab),
                t => t.clone(),
            };
            assert(inst_view(ni) == retarget(inst_view(before[p as int]), lab));
            s.ins.set(p, ni);
            let ghost lo = l.take(j as int);
            let ghost ln = l.take(j + 1);
            assert(ln =~= lo.push(p));
            assert forall|q: int| 0 <= q < sv.ins.len() implies
                #[trigger] insts_view(s.ins@)[q] == (if ln.contains(q as usize) { retarget(sv.ins[q], lab) } else { sv.ins[q] }) by {
                assert(insts_view(before)[q] == (if lo.contains(q as usize) { retarget(sv.ins[q], lab) } else { sv.ins[q] }));
                assert(insts_view(before)[q] == inst_view(before[q]));
                if q == p as int {
                    assert(ln[lo.len() as int] == p);
                    assert(ln.contains(p));
                } else {
                    assert(s.ins@[q] == before[q]);
                    if ln.contains(q as usize) {
                        let w = choose|w: int| 0 <= w < ln.len() && #[trigger] ln[w] == q as usize;
                        assert(ln[lo.len() as int] == p);
                        assert(w < lo.len());
                        assert(lo[w] == q as usize);
                    }
                    if lo.contains(q as usize) {
                        let w = choose|w: int| 0 <= w < lo.len() && #[trigger] lo[w] == q as usize;
                        assert(ln[w] == q as usize);
                    }
                }
            }
            j = j + 1;
            assert(insts_view(s.ins@) =~= Seq::new(sv.ins.len(), |p: int| if l.take(j as int).contains(p as usize) { retarget(sv.ins[p], lab) } else { sv.ins[p] }));
        }
        assert(l.take(n as int) =~= l);
        s.list.set(k, Vec::new());
        assert(s@.list =~= sv.list.update(k as int, Seq::empty()));
        assert(s@.ins =~= seg_fill(sv, k as int, lab).ins);
        s
    }

    /// A fresh label, then this segment.
    fn lab(self, b: &mut VStack) -> (r: (Segment, i32))
        requires
            seg_wf(self@),
            get_lab(stack_view(*old(b))) is Some,
        ensures
            seg_lab(self@, stack_view(*old(b))) == Some((r.0@, r.1, stack_view(*final(b)))),
            seg_wf(r.0@),
    {
        let label = b.get_lab();
        let mut v: Vec<Inst> = Vec::new();
        v.push(Inst::Label(label));
        let lab = Segment::from(v);
        assert(insts_view(v@) =~= seq![InstV::Label(label)]);
        (Segment::cat(lab, self), label)
    }

    /// This segment, then label `a`.
    fn plab(self, a: i32) -> (r: Segment)
        requires
            seg_wf(self@),
        ensures
            r@ == seg_push(self@, InstV::Label(a)),
            seg_wf(r@),
    {
        let mut s = self;
        s.push(Inst::Label(a));
        s
    }

    /// This segment, then a jump to `lab`.
    fn jump(self, lab: i32) -> (r: Segment)
        requires
            seg_wf(self@),
        ensures
            r@ == seg_push(self@, InstV::Jump(lab)),
            seg_wf(r@),
    {
        let mut s = self;
        s.push(Inst::Jump(lab));
        s
    }

    /// This segment, then `c`, whose position joins list `x`.
    fn jumpx(self, c: Inst, x: usize) -> (r: Segment)
        requires
            seg_wf(self@),
            x < 4,
        ensures
            r@ == seg_jumpx(self@, inst_view(c), x as int),
            seg_wf(r@),
    {
        let mut s = self;
        let ghost sv = s@;
        let n = s.ins.len();
        let mut l: Vec<usize> = Vec::new();
        std::mem::swap(&mut l, &mut s.list[x]);
        l.push(n);
        std::mem::swap(&mut l, &mut s.list[x]);
        s.push(c);
        assert(s@.list =~= sv.list.update(x as int, sv.list[x as int].push(n)));
        assert forall|k: int, j: int| 0 <= k < 4 && 0 <= j < s@.list[k].len() implies #[trigger] s@.list[k][j] < s@.ins.len() by {
            if k == x as int && j == sv.list[k].len() {
            } else {
                assert(s@.list[k][j] == sv.list[k][j]);
            }
        }
        s
    }
}

// ---------------------------------------------------------------------
// Expressions.
//
// Each function below gives, for an input and the state of the scopes,
// the code produced, what it yields, and the state after; `None` where
// compiling fails (an unknown name, a dimension that does not fit, a
// counter or a size that leaves `i32`).

/// The Eeyore operator of a SysY operator.
pub open spec fn oper_ee(o: ast::Oper) -> Oper {
    match o {
        ast::Oper::Add => Oper::Add,
        ast::Oper::Sub => Oper::Sub,
        ast::Oper::Mul => Oper::Mul,
        ast::Oper::Div => Oper::Div,
        ast::Oper::Mod => Oper::Mod,
        ast::Oper::Lt => Oper::Lt,
        ast::Oper::Le => Oper::Le,
        ast::Oper::Eq => Oper::Eq,
        ast::Oper::Ne => Oper::Ne,
        ast::Oper::Ge => Oper::Ge,
        ast::Oper::Gt => Oper::Gt,
    }
}

/// A comparison, whose result can drive a branch.
pub open spec fn oper_is_co(o: ast::Oper) -> bool {
    match o {
        ast::Oper::Lt | ast::Oper::Le | ast::Oper::Eq | ast::Oper::Ne | ast::Oper::Ge | ast::Oper::Gt => true,
        _ => false,
    }
}

/// The variable that receives a value: `a`, or a new temporary.
pub open spec fn target(a: Option<Var>, b: StackV) -> Option<(Var, StackV)> {
    match a {
        Some(v) => Some((v, b)),
        None => reg_tmp(b),
    }
}

/// Code for `e`, and the value it leaves; the value is `a` when given.
/// Without `a`, a unary `+` passes its operand's value on.
pub open spec fn expr_code(e: ExprV, a: Option<Var>, b: StackV) -> Option<(Seq<InstV>, RVal, StackV)>
    decreases e, 4int,
{
    if a is None && e is Nil {
        Some((Seq::empty(), RVal::Int(0), b))
    } else if a is None && e is Num {
        Some((Seq::empty(), RVal::Int(e->Num_0), b))
    } else if a is None && e is LVal && e->LVal_1.len() == 0 && stack_find(b.st, e->LVal_0) is Some {
        Some((Seq::empty(), RVal::Sym(stack_find(b.st, e->LVal_0).unwrap().vdef), b))
    } else {
        match target(a, b) {
            None => None,
            Some((av, b1)) => match e {
                ExprV::Nil => Some((Seq::empty(), RVal::Sym(av), b1)),
                ExprV::Num(t) => Some((seq![InstV::Ass(LVal::Sym(av), RVal::Int(t))], RVal::Sym(av), b1)),
                ExprV::FnCall(f, ps) => match params_code(ps, b1) {
                    Some((is, b2)) => Some((is.push(InstV::CallFn(av, f)), RVal::Sym(av), b2)),
                    None => None,
                },
                ExprV::LVal(n, ind) => lval_value_code(n, ind, Some(av), b1),
                ExprV::Op(u, o, v) => match expr_code(*u, None, b1) {
                    Some((uu, su, b2)) => match expr_code(*v, None, b2) {
                        Some((vv, sv, b3)) => Some(((uu + vv).push(InstV::Cpt(av, su, oper_ee(o), sv)), RVal::Sym(av), b3)),
                        None => None,
                    },
                    None => None,
                },
                ExprV::UOp(o, v) => match expr_code(*v, None, b1) {
                    Some((vv, sv, b2)) => match o {
                        ast::UOper::Pos => match a {
                            Some(_) => if sv == RVal::Sym(av) {
                                Some((vv, sv, b2))
                            } else {
                                Some((vv.push(InstV::Ass(LVal::Sym(av), sv)), RVal::Sym(av), b2))
                            },
                            None => Some((vv, sv, b2)),
                        },
                        ast::UOper::Neg => Some((vv.push(InstV::UCpt(av, UOper::Neg, sv)), RVal::Sym(av), b2)),
                        ast::UOper::Not => Some((vv.push(InstV::UCpt(av, UOper::Not, sv)), RVal::Sym(av), b2)),
                    },
                    None => None,
                },
            },
        }
    }
}

/// Code passing the arguments `ps` in order.
pub open spec fn params_code(ps: Seq<ExprV>, b: StackV) -> Option<(Seq<InstV>, StackV)>
    decreases ps, 3int,
{
    if ps.len() == 0 {
        Some((Seq::empty(), b))
    } else {
        match expr_code(ps[0], None, b) {
            Some((z, r, b1)) => match params_code(ps.subrange(1, ps.len() as int), b1) {
                Some((rest, b2)) => Some((z.push(InstV::Param(r)) + rest, b2)),
                None => None,
            },
            None => None,
        }
    }
}

/// Code for the variable `n` indexed by `ind` as a value.
pub open spec fn lval_value_code(n: Seq<char>, ind: Seq<ExprV>, a: Option<Var>, b: StackV) -> Option<(Seq<InstV>, RVal, StackV)>
    decreases ind, 3int,
{
    match lval_place_code(n, ind, a, b) {
        None => None,
        Some((v, l, t, b1)) => match l {
            LVal::Sym(x) => Some((v, RVal::Sym(x), b1)),
            LVal::SymA(vr, off) => match reg_tmp(b1) {
                None => None,
                Some((re, b2)) => Some((
                    v.push(if t { InstV::Take(re, vr, off) } else { InstV::Cpt(re, RVal::Sym(vr), Oper::Add, off) }),
                    RVal::Sym(re),
                    b2,
                )),
            },
        },
    }
}

/// Code for the variable `n` indexed by `ind` as a place: the place,
/// and whether it is a whole element (not a part of an array).
pub open spec fn lval_place_code(n: Seq<char>, ind: Seq<ExprV>, a: Option<Var>, b: StackV) -> Option<(Seq<InstV>, LVal, bool, StackV)>
    decreases ind, 2int,
{
    match stack_find(b.st, n) {
        None => None,
        Some(meta) => match place_code(meta.vdef, meta.dim, ind, b) {
            None => None,
            Some((v, q, b1)) => {
                let full = meta.dim.len() == ind.len() + 1;
                match a {
                    None => match q {
                        LVal::Sym(_) => Some((v, q, true, b1)),
                        LVal::SymA(_, _) => Some((v, q, full, b1)),
                    },
                    Some(x) => match q {
                        LVal::Sym(t) => Some((v.push(InstV::Ass(LVal::Sym(x), RVal::Sym(t))), LVal::Sym(x), true, b1)),
                        LVal::SymA(t, i) => if full {
                            Some((v.push(InstV::Take(x, t, i)), LVal::Sym(x), true, b1))
                        } else {
                            Some((v.push(InstV::Cpt(x, RVal::Sym(t), Oper::Add, i)), LVal::Sym(x), false, b1))
                        },
                    },
                }
            },
        },
    }
}

/// The place of `v`, of strides `dim`, indexed by `ind`: `v` itself for
/// an integer, else `v` and a byte offset.
pub open spec fn place_code(v: Var, dim: Seq<i32>, ind: Seq<ExprV>, b: StackV) -> Option<(Seq<InstV>, LVal, StackV)>
    decreases ind, 1int,
{
    if dim.len() == 1 {
        Some((Seq::empty(), LVal::Sym(v), b))
    } else if dim.len() == 0 {
        None
    } else {
        match offset_code(dim.subrange(1, dim.len() as int), ind, b) {
            Some((w, off, b1)) => Some((w, LVal::SymA(v, off), b1)),
            None => None,
        }
    }
}

/// The byte offset of `ind` in an array whose rows hold `dim[0]`,
/// `dim[1]`, ... elements; the last index is computed first.
pub open spec fn offset_code(dim: Seq<i32>, ind: Seq<ExprV>, b: StackV) -> Option<(Seq<InstV>, RVal, StackV)>
    decreases ind, 0int,
{
    if ind.len() == 0 {
        Some((Seq::empty(), RVal::Int(0), b))
    } else if dim.len() == 0 || !(i32::MIN <= dim[0] * 4 <= i32::MAX) {
        None
    } else {
        match offset_code(dim.subrange(1, dim.len() as int), ind.subrange(1, ind.len() as int), b) {
            None => None,
            Some((w, rb, b1)) => {
                let mult = (dim[0] * 4) as i32;
                match expr_code(ind[0], None, b1) {
                    None => None,
                    Some((ov, or, b2)) => match reg_tmp(b2) {
                        None => None,
                        Some((c, b3)) => if rb == RVal::Int(0) {
                            Some(((w + ov).push(InstV::Cpt(c, or, Oper::Mul, RVal::Int(mult))), RVal::Sym(c), b3))
                        } else {
                            match reg_tmp(b3) {
                                None => None,
                                Some((d, b4)) => Some((
                                    (w + ov).push(InstV::Cpt(c, or, Oper::Mul, RVal::Int(mult))).push(InstV::Cpt(d, RVal::Sym(c), Oper::Add, rb)),
                                    RVal::Sym(d),
                                    b4,
                                )),
                            }
                        },
                    },
                }
            },
        }
    }
}

proof fn lemma_top(b0: VStack, b1: VStack, f: FScopeV)
    requires
        b0.st@.len() > 0,
        b1.st@.len() == b0.st@.len(),
        fscope_view(b1.st@.last()) == f,
        forall|i: int| 0 <= i < b0.st@.len() - 1 ==> b1.st@[i] == b0.st@[i],
        b1.lab == b0.lab,
    ensures
        stack_view(b1) == with_top(stack_view(b0), f),
{
    assert(stack_view(b1).st =~= with_top(stack_view(b0), f).st);
}

/// A new temporary of the innermost scope.
fn new_tmp(b: &mut VStack) -> (r: Var)
    requires
        reg_tmp(stack_view(*old(b))) is Some,
    ensures
        reg_tmp(stack_view(*old(b))) == Some((r, stack_view(*final(b)))),
{
    let ghost b0 = *b;
    assert(stack_view(b0).st.last() == fscope_view(b0.st@.last()));
    let r = b.top().reg_tmp();
    proof { lemma_top(b0, *b, FScopeV { temp: (b0.st@.last().temp + 1) as i32, ..fscope_view(b0.st@.last()) }); }
    r
}

impl ast::Oper {
    fn to_ee(&self) -> (r: Oper)
        ensures
            r == oper_ee(*self),
    {
        match self {
            ast::Oper::Add => Oper::Add,
            ast::Oper::Sub => Oper::Sub,
            ast::Oper::Mul => Oper::Mul,
            ast::Oper::Div => Oper::Div,
            ast::Oper::Mod => Oper::Mod,
            ast::Oper::Lt => Oper::Lt,
            ast::Oper::Le => Oper::Le,
            ast::Oper::Eq => Oper::Eq,
            ast::Oper::Ne => Oper::Ne,
            ast::Oper::Ge => Oper::Ge,
            ast::Oper::Gt => Oper::Gt,
        }
    }

    fn is_co(&self) -> (r: bool)
        ensures
            r == oper_is_co(*self),
    {
        match self {
            ast::Oper::Add => false,
            ast::Oper::Sub => false,
            ast::Oper::Mul => false,
            ast::Oper::Div => false,
            ast::Oper::Mod => false,
            ast::Oper::Lt => true,
            ast::Oper::Le => true,
            ast::Oper::Eq => true,
            ast::Oper::Ne => true,
            ast::Oper::Ge => true,
            ast::Oper::Gt => true,
        }
    }
}

proof fn lemma_params_step(ps: Seq<ExprV>, i: int)
    requires
        0 <= i < ps.len(),
    ensures
        ps.subrange(i, ps.len() as int)[0] == ps[i],
        ps.subrange(i, ps.len() as int).subrange(1, ps.len() - i) == ps.subrange(i + 1, ps.len() as int),
        ps.subrange(i, ps.len() as int).len() > 0,
{
    assert(ps.subrange(i, ps.len() as int).subrange(1, ps.len() - i) =~= ps.subrange(i + 1, ps.len() as int));
}

impl Expr {
    /// Code for this expression and the value it leaves, in `a` when given.
    fn cv(&self, a: Option<Var>, b: &mut VStack) -> (r: (Vec<Inst>, RVal))
        requires
            expr_code(expr_view(*self), a, stack_view(*old(b))) is Some,
        ensures
            expr_code(expr_view(*self), a, stack_view(*old(b))) == Some((insts_view(r.0@), r.1, stack_view(*final(b)))),
        decreases expr_view(*self), 4int, 0int,
    {
        let ghost e = expr_view(*self);
        if a.is_none() {
            match self {
                Expr::Nil => {
                    assert(insts_view(Seq::<Inst>::empty()) =~= Seq::<InstV>::empty());
                    return (Vec::new(), RVal::Int(0));
                },
                Expr::Num(t) => {
                    assert(insts_view(Seq::<Inst>::empty()) =~= Seq::<InstV>::empty());
                    return (Vec::new(), RVal::Int(*t));
                },
                Expr::LVal(l) => {
                    if l.ind.len() == 0 {
                        let me = b.find(&l.name);
                        if let Some(c) = me {
                            assert(insts_view(Seq::<Inst>::empty()) =~= Seq::<InstV>::empty());
                            return (Vec::new(), RVal::Sym(c.vdef));
                        }
                    }
                },
                _ => {},
            }
        }
        let av = match a {
            Some(v) => v,
            None => new_tmp(b),
        };
        match self {
            Expr::Nil => {
                assert(insts_view(Seq::<Inst>::empty()) =~= Seq::<InstV>::empty());
                (Vec::new(), RVal::Sym(av))
            },
            Expr::Num(t) => {
                let mut v: Vec<Inst> = Vec::new();
                v.push(Inst::Ass(LVal::Sym(av), RVal::Int(*t)));
                assert(insts_view(v@) =~= seq![InstV::Ass(LVal::Sym(av), RVal::Int(*t))]);
                (v, RVal::Sym(av))
            },
            Expr::FnCall(fnm, para) => {
                let ghost ps = exprs_view(para@);
                let ghost n = ps.len();
                let ghost b1 = stack_view(*b);
                let mut out: Vec<Inst> = Vec::new();
                let mut i: usize = 0;
                assert(ps.subrange(0, n as int) =~= ps);
                assert(insts_view(out@) =~= Seq::<InstV>::empty());
                assert(e->FnCall_1 =~= ps);
                assert(e == ExprV::FnCall(fnm@, ps));
                assert(params_code(ps, b1) is Some);
                assert(params_code(ps, b1).unwrap().0 =~= insts_view(out@) + params_code(ps, b1).unwrap().0);
                while i < para.len()
                    invariant
                        i <= para@.len(),
                        n == para@.len(),
                        ps == exprs_view(para@),
                        e == ExprV::FnCall(fnm@, ps),
                        e == expr_view(*self),
                        params_code(ps.subrange(i as int, n as int), stack_view(*b)) is Some,
                        params_code(ps, b1) == Some((
                            insts_view(out@) + params_code(ps.subrange(i as int, n as int), stack_view(*b)).unwrap().0,
                            params_code(ps.subrange(i as int, n as int), stack_view(*b)).unwrap().1,
                        )),
                    decreases para@.len() - i,
                {
                    proof { lemma_params_step(ps, i as int); }
                    assert(ps[i as int] == expr_view(*para@[i as int]));
                    assert(decreases_to!(e => e->FnCall_1));
                    assert(decreases_to!(ps => ps[i as int]));
                    let ghost cur = stack_view(*b);
                    let ghost ob = out@;
                    let (mut z, r) = para[i].cv(None, b);
                    let ghost zb = z@;
                    z.push(Inst::Param(r));
                    proof { lemma_insts_view_push(zb, Inst::Param(r)); }
                    let ghost zv = z@;
                    out = mdq(out, z);
                    proof { lemma_insts_view_add(ob, zv); }
                    i = i + 1;
                    proof {
                        let rest = params_code(ps.subrange(i as int, n as int), stack_view(*b)).unwrap().0;
                        assert(insts_view(ob) + (insts_view(zv) + rest) =~= insts_view(out@) + rest);
                    }
                }
                assert(ps.subrange(n as int, n as int) =~= Seq::<ExprV>::empty());
                assert(insts_view(out@) + Seq::<InstV>::empty() =~= insts_view(out@));
                let ghost ob = out@;
                let fnn = FnName(fnm.clone());
                out.push(Inst::CallFn(av, fnn));
                proof { lemma_insts_view_push(ob, Inst::CallFn(av, fnn)); }
                (out, RVal::Sym(av))
            },
            Expr::LVal(c) => {
                assert(e->LVal_1 =~= exprs_view(c.ind@));
                assert(decreases_to!(e => e->LVal_1));
                c.cv(Some(av), b)
            },
            Expr::Op(u, o, v) => {
                let (uu, su) = u.cv(None, b);
                let (vv, sv) = v.cv(None, b);
                let ghost uv = uu@;
                let ghost vvv = vv@;
                let mut cs = mdq(uu, vv);
                proof { lemma_insts_view_add(uv, vvv); }
                let ghost cb = cs@;
                let oe = o.to_ee();
                cs.push(Inst::Cpt(av, su, oe, sv));
                proof { lemma_insts_view_push(cb, Inst::Cpt(av, su, oe, sv)); }
                (cs, RVal::Sym(av))
            },
            Expr::UOp(o, v) => {
                let (mut vv, sv) = v.cv(None, b);
                let z = match o {
                    ast::UOper::Pos => {
                        if a.is_none() || sv == RVal::Sym(av) {
                            return (vv, sv);
                        }
                        let ghost vb = vv@;
                        vv.push(Inst::Ass(LVal::Sym(av), sv));
                        proof { lemma_insts_view_push(vb, Inst::Ass(LVal::Sym(av), sv)); }
                        return (vv, RVal::Sym(av));
                    },
                    ast::UOper::Neg => UOper::Neg,
                    ast::UOper::Not => UOper::Not,
                };
                let ghost vb = vv@;
                vv.push(Inst::UCpt(av, z, sv));
                proof { lemma_insts_view_push(vb, Inst::UCpt(av, z, sv)); }
                (vv, RVal::Sym(av))
            },
        }
    }
}

impl ast::LVal {
    /// Code for this variable as a place; with `a`, its value is stored in
    /// `a` and the place is `a`. Also whether it is a whole element.
    fn cl(&self, a: Option<Var>, b: &mut VStack) -> (r: (Vec<Inst>, LVal, bool))
        requires
            lval_place_code(self.name@, exprs_view(self.ind@), a, stack_view(*old(b))) is Some,
        ensures
            lval_place_code(self.name@, exprs_view(self.ind@), a, stack_view(*old(b)))
                == Some((insts_view(r.0@), r.1, r.2, stack_view(*final(b)))),
        decreases exprs_view(self.ind@), 2int, 0int,
    {
        let meta = b.find(&self.name).unwrap();
        let (mut v, q) = cvi(meta.vdef, &meta.dim, &self.ind, b);
        let full = meta.dim.len() >= 1 && meta.dim.len() - 1 == self.ind.len();
        let ghost vb = v@;
        match a {
            None => match q {
                LVal::Sym(t) => (v, q, true),
                LVal::SymA(t, ind) => (v, q, full),
            },
            Some(a) => match q {
                LVal::Sym(t) => {
                    v.push(Inst::Ass(LVal::Sym(a), RVal::Sym(t)));
                    proof { lemma_insts_view_push(vb, Inst::Ass(LVal::Sym(a), RVal::Sym(t))); }
                    (v, LVal::Sym(a), true)
                },
                LVal::SymA(t, ind) => {
                    if full {
                        v.push(Inst::Take(a, t, ind));
                        proof { lemma_insts_view_push(vb, Inst::Take(a, t, ind)); }
                        (v, LVal::Sym(a), true)
                    } else {
                        v.push(Inst::Cpt(a, RVal::Sym(t), Oper::Add, ind));
                        proof { lemma_insts_view_push(vb, Inst::Cpt(a, RVal::Sym(t), Oper::Add, ind)); }
                        (v, LVal::Sym(a), false)
                    }
                },
            },
        }
    }

    /// Code for this variable as a value; with `a`, the value is `a`.
    fn cv(&self, a: Option<Var>, b: &mut VStack) -> (r: (Vec<Inst>, RVal))
        requires
            lval_value_code(self.name@, exprs_view(self.ind@), a, stack_view(*old(b))) is Some,
        ensures
            lval_value_code(self.name@, exprs_view(self.ind@), a, stack_view(*old(b)))
                == Some((insts_view(r.0@), r.1, stack_view(*final(b)))),
        decreases exprs_view(self.ind@), 3int, 0int,
    {
        let (mut v, l, t) = self.cl(a, b);
        match l {
            LVal::Sym(t) => (v, RVal::Sym(t)),
            LVal::SymA(vr, off) => {
                let re = new_tmp(b);
                let ghost vb = v@;
                if t {
                    v.push(Inst::Take(re, vr, off));
                    proof { lemma_insts_view_push(vb, Inst::Take(re, vr, off)); }
                } else {
                    v.push(Inst::Cpt(re, RVal::Sym(vr), Oper::Add, off));
                    proof { lemma_insts_view_push(vb, Inst::Cpt(re, RVal::Sym(vr), Oper::Add, off)); }
                }
                (v, RVal::Sym(re))
            },
        }
    }
}

/// The place of `a`, of strides `dim`, indexed by `ind`.
fn cvi(a: Var, dim: &Vec<i32>, ind: &Vec<Exp>, b: &mut VStack) -> (r: (Vec<Inst>, LVal))
    requires
        place_code(a, dim@, exprs_view(ind@), stack_view(*old(b))) is Some,
    ensures
        place_code(a, dim@, exprs_view(ind@), stack_view(*old(b))) == Some((insts_view(r.0@), r.1, stack_view(*final(b)))),
    decreases exprs_view(ind@), 1int, 0int,
{
    if dim.len() == 1 {
        assert(insts_view(Seq::<Inst>::empty()) =~= Seq::<InstV>::empty());
        return (Vec::new(), LVal::Sym(a));
    }
    assert(exprs_view(ind@).subrange(0, ind@.len() as int) =~= exprs_view(ind@));
    let (v, off) = cvind(dim, 1, ind, 0, b);
    (v, LVal::SymA(a, off))
}

/// The byte offset of `ind[ik..]` in rows of `dim[dk..]` elements.
fn cvind(dim: &Vec<i32>, dk: usize, ind: &Vec<Exp>, ik: usize, b: &mut VStack) -> (r: (Vec<Inst>, RVal))
    requires
        dk <= dim@.len(),
        ik <= ind@.len(),
        offset_code(dim@.subrange(dk as int, dim@.len() as int), exprs_view(ind@).subrange(ik as int, ind@.len() as int), stack_view(*old(b))) is Some,
    ensures
        offset_code(dim@.subrange(dk as int, dim@.len() as int), exprs_view(ind@).subrange(ik as int, ind@.len() as int), stack_view(*old(b)))
            == Some((insts_view(r.0@), r.1, stack_view(*final(b)))),
    decreases exprs_view(ind@).subrange(ik as int, ind@.len() as int), 0int, 0int,
{
    let ghost dv = dim@.subrange(dk as int, dim@.len() as int);
    let ghost iv = exprs_view(ind@).subrange(ik as int, ind@.len() as int);
    if ik == ind.len() {
        assert(insts_view(Seq::<Inst>::empty()) =~= Seq::<InstV>::empty());
        return (Vec::new(), RVal::Int(0));
    }
    assert(dv.subrange(1, dv.len() as int) =~= dim@.subrange(dk + 1, dim@.len() as int));
    assert(iv.subrange(1, iv.len() as int) =~= exprs_view(ind@).subrange(ik + 1, ind@.len() as int));
    assert(decreases_to!(iv => iv.subrange(1, iv.len() as int)));
    assert(iv.len() > 0);
    assert(dv.len() > 0);
    assert(i32::MIN <= dv[0] * 4 <= i32::MAX);
    assert(dv[0] == dim@[dk as int]);
    let nd = dim.len();
    assert(dk < nd);
    let d0 = dim[dk];
    assert(i32::MIN <= d0 * 4 <= i32::MAX);
    let mult = d0 * 4;
    let (mut v, rb) = cvind(dim, dk + 1, ind, ik + 1, b);
    assert(iv[0] == expr_view(*ind@[ik as int]));
    assert(decreases_to!(iv => iv[0]));
    let (ov, or) = ind[ik].cv(None, b);
    let ghost vv = v@;
    let ghost ovv = ov@;
    let c = new_tmp(b);
    v = mdq(v, ov);
    proof { lemma_insts_view_add(vv, ovv); }
    let ghost v1 = v@;
    v.push(Inst::Cpt(c, or, Oper::Mul, RVal::Int(mult)));
    proof { lemma_insts_view_push(v1, Inst::Cpt(c, or, Oper::Mul, RVal::Int(mult))); }
    if rb == RVal::Int(0) {
        (v, RVal::Sym(c))
    } else {
        let d = new_tmp(b);
        let ghost v2 = v@;
        v.push(Inst::Cpt(d, RVal::Sym(c), Oper::Add, rb));
        proof { lemma_insts_view_push(v2, Inst::Cpt(d, RVal::Sym(c), Oper::Add, rb)); }
        (v, RVal::Sym(d))
    }
}

// ---------------------------------------------------------------------
// Stores and initializers.

/// The variable that receives a value bound for `a`: `a` itself when it is
/// a variable, else a new temporary.
pub open spec fn get_ref(a: LVal, b: StackV) -> Option<(Var, StackV)> {
    match a {
        LVal::Sym(v) => Some((v, b)),
        LVal::SymA(_, _) => reg_tmp(b),
    }
}

/// `q`, then the copy of `ax` into `l` where `l` is not `ax` itself.
pub open spec fn store_to(l: LVal, ax: Var, q: Seq<InstV>) -> Seq<InstV> {
    match l {
        LVal::Sym(_) => q,
        _ => q.push(InstV::Ass(l, RVal::Sym(ax))),
    }
}

/// Code storing the value of `e` into `a`.
pub open spec fn expr_store_code(e: ExprV, a: LVal, b: StackV) -> Option<(Seq<InstV>, StackV)> {
    match e {
        ExprV::Nil => Some((Seq::empty(), b)),
        ExprV::Num(t) => Some((seq![InstV::Ass(a, RVal::Int(t))], b)),
        _ => match get_ref(a, b) {
            None => None,
            Some((ax, b1)) => match expr_code(e, Some(ax), b1) {
                None => None,
                Some((uu, _, b2)) => Some((store_to(a, ax, uu), b2)),
            },
        },
    }
}

/// An evaluated initializer as one of expressions: numbers stand for
/// their values.
pub open spec fn int_to_expr_init(c: InitIV) -> InitEV
    decreases c,
{
    match c {
        InitIV::Val(t) => InitEV::Val(ExprV::Num(t)),
        InitIV::Vax(s) => InitEV::Vax(Seq::new(s.len(), |k: int| if 0 <= k < s.len() { int_to_expr_init(s[k]) } else { InitEV::Vax(Seq::empty()) })),
    }
}

/// Where a nested list starts: `t`, when it is at the start of a row of
/// `db` elements, else `(t + db) % db` (a remainder with the sign of the
/// dividend).
pub open spec fn pad(t: i32, db: i32) -> Option<i32> {
    if db == 0 || (t == i32::MIN && db == -1) {
        None
    } else if eval::trem(t as int, db as int) == 0 {
        Some(t)
    } else if !(i32::MIN <= t + db <= i32::MAX) {
        None
    } else {
        Some(eval::trem(t + db, db as int) as i32)
    }
}

/// Code storing `c` at byte offset `off` of `a`, an array whose rows hold
/// `dim[0]`, `dim[1]`, ... elements.
pub open spec fn init_code(c: InitEV, a: Var, off: i32, dim: Seq<i32>, b: StackV) -> Option<(Seq<InstV>, StackV)>
    decreases c, 1int, 0int,
{
    match c {
        InitEV::Val(e) => expr_store_code(e, LVal::SymA(a, RVal::Int(off)), b),
        InitEV::Vax(items) => if dim.len() <= 1 {
            None
        } else {
            match init_items_code(items, a, off, dim, items.len() as int, b) {
                Some((q, _, b1)) => Some((q, b1)),
                None => None,
            }
        },
    }
}

/// Code for the first `k` items of a list, and the number of elements
/// placed after them.
pub open spec fn init_items_code(items: Seq<InitEV>, a: Var, off: i32, dim: Seq<i32>, k: int, b: StackV) -> Option<(Seq<InstV>, i32, StackV)>
    decreases items, 0int, k,
{
    if k <= 0 || dim.len() < 2 || k > items.len() {
        Some((Seq::empty(), 0, b))
    } else {
        match init_items_code(items, a, off, dim, k - 1, b) {
            None => None,
            Some((vx, ptr, b1)) => {
                let db = dim[1];
                let it = items[k - 1];
                let start = if it is Val { Some(ptr) } else { pad(ptr, db) };
                match start {
                    None => None,
                    Some(p) => if !(i32::MIN <= p * 4 <= i32::MAX && i32::MIN <= off + p * 4 <= i32::MAX) {
                        None
                    } else {
                        match init_code(it, a, (off + p * 4) as i32, dim.subrange(1, dim.len() as int), b1) {
                            None => None,
                            Some((q, b2)) => {
                                let next = if it is Val { p + 1 } else { p + db };
                                if !(i32::MIN <= next <= i32::MAX) {
                                    None
                                } else {
                                    Some((vx + q, next as i32, b2))
                                }
                            },
                        }
                    },
                }
            },
        }
    }
}

/// Code storing the initializer `c` of a variable `a` of strides `dim`.
pub open spec fn init_top_code(c: InitEV, a: Var, dim: Seq<i32>, b: StackV) -> Option<(Seq<InstV>, StackV)> {
    if dim.len() == 1 {
        match c {
            InitEV::Val(e) => expr_store_code(e, LVal::Sym(a), b),
            InitEV::Vax(_) => None,
        }
    } else {
        init_code(c, a, 0, dim, b)
    }
}

/// Code initializing `a`, of strides `dim`, with `init`.
pub open spec fn rci_code(a: Var, dim: Seq<i32>, init: VarInitV, b: StackV) -> Option<(SegV, StackV)> {
    let q = match init {
        VarInitV::Nil => Some((Seq::empty(), b)),
        VarInitV::E(t) => init_top_code(int_to_expr_init(t), a, dim, b),
        VarInitV::I(t) => init_top_code(t, a, dim, b),
    };
    match q {
        Some((is, b1)) => Some((seg_from(is), b1)),
        None => None,
    }
}

/// A declared variable: a new local of the innermost scope, and its
/// initialization.
pub open spec fn var_decl_code(d: VarDeclV, b: StackV) -> Option<(SegV, StackV)> {
    let dims = dims_of(d.dims);
    if !dims_fit(dims) {
        None
    } else {
        match reg_loc(b, d.name, strides(dims)) {
            None => None,
            Some((v, b1)) => rci_code(v, strides(dims), d.init, b1),
        }
    }
}

/// The code of the first `k` declared variables, in order.
pub open spec fn vars_code(vs: Seq<VarDeclV>, k: int, b: StackV) -> Option<(SegV, StackV)>
    decreases k,
{
    if k <= 0 || k > vs.len() {
        Some((seg_new(), b))
    } else {
        match vars_code(vs, k - 1, b) {
            None => None,
            Some((acc, b1)) => match var_decl_code(vs[k - 1], b1) {
                None => None,
                Some((x, b2)) => Some((seg_cat(acc, x), b2)),
            },
        }
    }
}

/// A parameter: a new parameter of the innermost scope.
pub open spec fn param_code(d: VarDeclV, b: StackV) -> Option<StackV> {
    let dims = dims_of(d.dims);
    if !dims_fit(dims) {
        None
    } else {
        match reg_par(b, d.name, strides(dims)) {
            None => None,
            Some((_, b1)) => Some(b1),
        }
    }
}

/// The first `k` parameters registered in order.
pub open spec fn params_reg(ps: Seq<VarDeclV>, k: int, b: StackV) -> Option<StackV>
    decreases k,
{
    if k <= 0 || k > ps.len() {
        Some(b)
    } else {
        match params_reg(ps, k - 1, b) {
            None => None,
            Some(b1) => param_code(ps[k - 1], b1),
        }
    }
}

// ---------------------------------------------------------------------
// Control flow.

/// A condition: a branch (list 0) taken when it holds, then a jump
/// (list 1) taken when it fails.
pub open spec fn comp_code(e: ExprV, b: StackV) -> Option<(SegV, StackV)> {
    if e is Op && oper_is_co(e->Op_1) {
        match expr_code(*e->Op_0, None, b) {
            None => None,
            Some((ls, l, b1)) => match expr_code(*e->Op_2, None, b1) {
                None => None,
                Some((rs, r, b2)) => Some((
                    seg_jumpx(seg_jumpx(seg_from(ls + rs), InstV::Brch(l, oper_ee(e->Op_1), r, -1i32), 0), InstV::Jump(-1i32), 1),
                    b2,
                )),
            },
        }
    } else {
        match expr_code(e, None, b) {
            None => None,
            Some((zs, q, b1)) => Some((
                seg_jumpx(seg_jumpx(seg_from(zs), InstV::Brch(RVal::Int(0), Oper::Ne, q, -1i32), 0), InstV::Jump(-1i32), 1),
                b1,
            )),
        }
    }
}

/// A condition with short-circuit evaluation: for `l && r` the jumps of
/// `l` taken when it holds go to `r`; for `l || r`, those taken when it
/// fails.
pub open spec fn cond_code(c: CondV, b: StackV) -> Option<(SegV, StackV)>
    decreases c,
{
    match c {
        CondV::Comp(e) => comp_code(e, b),
        CondV::And(l, r) => match cond_code(*l, b) {
            None => None,
            Some((ls, b1)) => match cond_code(*r, b1) {
                None => None,
                Some((rs0, b2)) => match seg_lab(rs0, b2) {
                    None => None,
                    Some((rs, rl, b3)) => Some((seg_cat(seg_fill(ls, 0, rl), rs), b3)),
                },
            },
        },
        CondV::Or(l, r) => match cond_code(*l, b) {
            None => None,
            Some((ls, b1)) => match cond_code(*r, b1) {
                None => None,
                Some((rs0, b2)) => match seg_lab(rs0, b2) {
                    None => None,
                    Some((rs, rl, b3)) => Some((seg_cat(seg_fill(ls, 1, rl), rs), b3)),
                },
            },
        },
    }
}

/// Short-circuit `||`: in the code of `l || r`, the jumps of `l` taken
/// when `l` holds stay jumps taken when the whole condition holds (true
/// exits, list 0), and only the jumps of `l` taken when it fails lead to a
/// label that starts the code of `r`; every jump taken when the whole
/// condition fails (list 1) comes from `r`.
pub proof fn law_cond_or(l: CondV, r: CondV, b: StackV)
    requires
        cond_code(CondV::Or(Box::new(l), Box::new(r)), b) is Some,
    ensures
        cond_code(l, b) is Some,
        cond_code(r, cond_code(l, b).unwrap().1) is Some,
        ({
            let c = cond_code(CondV::Or(Box::new(l), Box::new(r)), b).unwrap().0;
            let ls = cond_code(l, b).unwrap().0;
            let rs = cond_code(r, cond_code(l, b).unwrap().1).unwrap().0;
            let n = ls.ins.len() as int;
            &&& c.ins.len() == n + 1 + rs.ins.len()
            &&& c.ins[n] is Label
            &&& c.list[0].len() == ls.list[0].len() + rs.list[0].len()
            &&& forall|j: int| 0 <= j < ls.list[0].len() ==> c.list[0][j] == ls.list[0][j]
            &&& c.list[1].len() == rs.list[1].len()
            &&& forall|p: int| 0 <= p < n && #[trigger] ls.list[1].contains(p as usize) ==>
                c.ins[p] == retarget(ls.ins[p], c.ins[n]->Label_0)
        }),
{
    let (ls, b1) = cond_code(l, b).unwrap();
    let (rs0, b2) = cond_code(r, b1).unwrap();
    let (rs, rl, b3) = seg_lab(rs0, b2).unwrap();
    let f = seg_fill(ls, 1, rl);
    let c = seg_cat(f, rs);
    assert(rs.ins =~= seq![InstV::Label(rl)] + rs0.ins);
    assert(rs.list[0].len() == rs0.list[0].len());
    assert(rs.list[1].len() == rs0.list[1].len());
    assert(c.ins[ls.ins.len() as int] == InstV::Label(rl));
    assert forall|j: int| 0 <= j < ls.list[0].len() implies c.list[0][j] == ls.list[0][j] by {
        assert(f.list[0] == ls.list[0]);
    }
    assert forall|p: int| 0 <= p < ls.ins.len() && #[trigger] ls.list[1].contains(p as usize) implies
        c.ins[p] == retarget(ls.ins[p], rl) by {
        assert(c.ins[p] == f.ins[p]);
    }
}

/// Short-circuit `&&`: in the code of `l && r`, the jumps of `l` taken
/// when `l` fails stay jumps taken when the whole condition fails (false
/// exits, list 1), and only the jumps of `l` taken when it holds lead to a
/// label that starts the code of `r`; every jump taken when the whole
/// condition holds (list 0) comes from `r`.
pub proof fn law_cond_and(l: CondV, r: CondV, b: StackV)
    requires
        cond_code(CondV::And(Box::new(l), Box::new(r)), b) is Some,
    ensures
        cond_code(l, b) is Some,
        cond_code(r, cond_code(l, b).unwrap().1) is Some,
        ({
            let c = cond_code(CondV::And(Box::new(l), Box::new(r)), b).unwrap().0;
            let ls = cond_code(l, b).unwrap().0;
            let rs = cond_code(r, cond_code(l, b).unwrap().1).unwrap().0;
            let n = ls.ins.len() as int;
            &&& c.ins.len() == n + 1 + rs.ins.len()
            &&& c.ins[n] is Label
            &&& c.list[1].len() == ls.list[1].len() + rs.list[1].len()
            &&& forall|j: int| 0 <= j < ls.list[1].len() ==> c.list[1][j] == ls.list[1][j]
            &&& c.list[0].len() == rs.list[0].len()
            &&& forall|p: int| 0 <= p < n && #[trigger] ls.list[0].contains(p as usize) ==>
                c.ins[p] == retarget(ls.ins[p], c.ins[n]->Label_0)
        }),
{
    let (ls, b1) = cond_code(l, b).unwrap();
    let (rs0, b2) = cond_code(r, b1).unwrap();
    let (rs, rl, b3) = seg_lab(rs0, b2).unwrap();
    let f = seg_fill(ls, 0, rl);
    let c = seg_cat(f, rs);
    assert(rs.ins =~= seq![InstV::Label(rl)] + rs0.ins);
    assert(rs.list[1].len() == rs0.list[1].len());
    assert(rs.list[0].len() == rs0.list[0].len());
    assert(c.ins[ls.ins.len() as int] == InstV::Label(rl));
    assert forall|j: int| 0 <= j < ls.list[1].len() implies c.list[1][j] == ls.list[1][j] by {
        assert(f.list[1] == ls.list[1]);
    }
    assert forall|p: int| 0 <= p < ls.ins.len() && #[trigger] ls.list[0].contains(p as usize) implies
        c.ins[p] == retarget(ls.ins[p], rl) by {
        assert(c.ins[p] == f.ins[p]);
    }
}

/// The code of a statement. A `break` or `continue` leaves its jump in
/// list 2 or 3, for the enclosing loop to fill.
pub open spec fn stmt_code(s: StmtV, b: StackV) -> Option<(SegV, StackV)>
    decreases s, 2int, 0int,
{
    match s {
        StmtV::Assign(n, ind, e) => match lval_place_code(n, ind, None, b) {
            None => None,
            Some((il, lv, cm, b1)) => if !cm {
                None
            } else {
                match get_ref(lv, b1) {
                    None => None,
                    Some((qv, b2)) => match expr_code(e, Some(qv), b2) {
                        None => None,
                        Some((ins, _, b3)) => Some((seg_from(il + store_to(lv, qv, ins)), b3)),
                    },
                }
            },
        },
        StmtV::Expr(e) => match expr_code(e, None, b) {
            None => None,
            Some((is, _, b1)) => Some((seg_from(is), b1)),
        },
        StmtV::Block(items) => match stack_block_enter(b) {
            None => None,
            Some(b1) => match items_code(items, items.len() as int, b1) {
                None => None,
                Some((seg, b2)) => match stack_block_exit(b2) {
                    None => None,
                    Some(b3) => Some((seg, b3)),
                },
            },
        },
        StmtV::If(c, l, r) => match cond_code(c, b) {
            None => None,
            Some((cs, b1)) => match stmt_code(*l, b1) {
                None => None,
                Some((ls0, b2)) => match seg_lab(ls0, b2) {
                    None => None,
                    Some((ls, tlab, b3)) => match get_lab(b3) {
                        None => None,
                        Some((qlab, b4)) => match r {
                            None => Some((
                                seg_cat(seg_cat(seg_fill(seg_fill(cs, 0, tlab), 1, qlab), ls), seg_push(seg_new(), InstV::Label(qlab))),
                                b4,
                            )),
                            Some(t) => match stmt_code(*t, b4) {
                                None => None,
                                Some((u0, b5)) => match seg_lab(u0, b5) {
                                    None => None,
                                    Some((u, flab, b6)) => Some((
                                        seg_cat(
                                            seg_cat(seg_fill(seg_fill(cs, 0, tlab), 1, flab), seg_push(ls, InstV::Jump(qlab))),
                                            seg_push(u, InstV::Label(qlab)),
                                        ),
                                        b6,
                                    )),
                                },
                            },
                        },
                    },
                },
            },
        },
        StmtV::While(c, body) => match cond_code(c, b) {
            None => None,
            Some((cs0, b1)) => match seg_lab(cs0, b1) {
                None => None,
                Some((cs, cl, b2)) => match stmt_code(*body, b2) {
                    None => None,
                    Some((ss0, b3)) => match seg_lab(ss0, b3) {
                        None => None,
                        Some((ss, sl, b4)) => match get_lab(b4) {
                            None => None,
                            Some((q, b5)) => Some((
                                seg_cat(
                                    seg_fill(seg_fill(cs, 0, sl), 1, q),
                                    seg_fill(seg_fill(seg_push(seg_push(ss, InstV::Jump(cl)), InstV::Label(q)), 2, q), 3, cl),
                                ),
                                b5,
                            )),
                        },
                    },
                },
            },
        },
        StmtV::Break => Some((seg_jumpx(seg_new(), InstV::Jump(-1i32), 2), b)),
        StmtV::Continue => Some((seg_jumpx(seg_new(), InstV::Jump(-1i32), 3), b)),
        StmtV::Ret(e) => if e is Nil {
            Some((seg_from(seq![InstV::Ret]), b))
        } else {
            match expr_code(e, None, b) {
                None => None,
                Some((i, c, b1)) => Some((seg_from(i.push(InstV::Return(c))), b1)),
            }
        },
    }
}

/// The code of the first `k` items of a block, in order.
pub open spec fn items_code(items: Seq<ItemV>, k: int, b: StackV) -> Option<(SegV, StackV)>
    decreases items, 1int, k,
{
    if k <= 0 || k > items.len() {
        Some((seg_new(), b))
    } else {
        match items_code(items, k - 1, b) {
            None => None,
            Some((acc, b1)) => match item_code(items[k - 1], b1) {
                None => None,
                Some((x, b2)) => Some((seg_cat(acc, x), b2)),
            },
        }
    }
}

pub open spec fn item_code(i: ItemV, b: StackV) -> Option<(SegV, StackV)>
    decreases i, 3int, 0int,
{
    match i {
        ItemV::Decl(d) => vars_code(d.vars, d.vars.len() as int, b),
        ItemV::Stmt(s) => stmt_code(*s, b),
    }
}

// ---------------------------------------------------------------------
// Functions and programs.

/// A function: its header and declarations (those of its outermost
/// scope), its body, and its end.
pub open spec fn func_code(f: FuncV, b: StackV) -> Option<(SegV, StackV)> {
    match stack_enter(b) {
        None => None,
        Some(b1) => match params_reg(f.param, f.param.len() as int, b1) {
            None => None,
            Some(b2) => match items_code(f.body, f.body.len() as int, b2) {
                None => None,
                Some((body, b3)) => match stack_exit(b3) {
                    None => None,
                    Some((r, b4)) => if !fscope_dump_ok(r) {
                        None
                    } else {
                        Some((
                            seg_from(seq![InstV::Fn(f.name, f.param.len() as i32)] + fscope_dump(r) + body.ins.push(InstV::FnE(f.name))),
                            b4,
                        ))
                    },
                },
            },
        },
    }
}

pub open spec fn unit_code(u: UnitV, b: StackV) -> Option<(SegV, StackV)> {
    match u {
        UnitV::Decl(d) => vars_code(d.vars, d.vars.len() as int, b),
        UnitV::Func(f) => func_code(f, b),
    }
}

/// The code of the first `k` units, in order.
pub open spec fn units_code(us: Seq<UnitV>, k: int, b: StackV) -> Option<(SegV, StackV)>
    decreases k,
{
    if k <= 0 || k > us.len() {
        Some((seg_new(), b))
    } else {
        match units_code(us, k - 1, b) {
            None => None,
            Some((acc, b1)) => match unit_code(us[k - 1], b1) {
                None => None,
                Some((x, b2)) => Some((seg_cat(acc, x), b2)),
            },
        }
    }
}

/// A program of units already folded: the declarations of the globals,
/// then the code of the units.
pub open spec fn program_code(us: Seq<UnitV>) -> Option<SegV> {
    match units_code(us, us.len() as int, stack_new()) {
        None => None,
        Some((rseg, b1)) => match stack_exit(b1) {
            None => None,
            Some((g, _)) => if fscope_dump_ok(g) { Some(seg_cat(seg_from(fscope_dump(g)), rseg)) } else { None },
        },
    }
}

/// The units of `a` folded in order, each in the constants left by the
/// ones before it.
pub open spec fn prepped_units(a: Seq<Box<CompUnit>>) -> Seq<UnitV> {
    Seq::new(a.len(), |k: int| eval::prep_unit(unit_view(*a[k]), eval::vscope(a, eval::scope_init(), k)).0)
}

// ---------------------------------------------------------------------
// Stores and initializers, executed.

impl LVal {
    /// The variable that receives a value bound for this place.
    fn get_ref(&self, b: &mut VStack) -> (r: Var)
        requires
            get_ref(*self, stack_view(*old(b))) is Some,
        ensures
            get_ref(*self, stack_view(*old(b))) == Some((r, stack_view(*final(b)))),
    {
        match self {
            LVal::Sym(a) => *a,
            LVal::SymA(a, r) => new_tmp(b),
        }
    }

    /// Appends the copy of `a` into this place, where it is not `a` itself.
    fn store(&self, a: Var, q: &mut Vec<Inst>)
        ensures
            insts_view(final(q)@) == store_to(*self, a, insts_view(old(q)@)),
    {
        match self {
            LVal::Sym(_) => {},
            t => {
                let ghost before = q@;
                q.push(Inst::Ass(*t, RVal::Sym(a)));
                proof { lemma_insts_view_push(before, Inst::Ass(*t, RVal::Sym(a))); }
            },
        }
    }
}

impl RVal {
    /// Appends the copy of this value into `a`, unless it is `a` itself.
    fn store(&self, a: Var, q: &mut Vec<Inst>)
        ensures
            insts_view(final(q)@) == (if *self == RVal::Sym(a) {
                insts_view(old(q)@)
            } else {
                insts_view(old(q)@).push(InstV::Ass(LVal::Sym(a), *self))
            }),
    {
        let ghost before = q@;
        match self {
            RVal::Int(t) => {
                q.push(Inst::Ass(LVal::Sym(a), *self));
                proof { lemma_insts_view_push(before, Inst::Ass(LVal::Sym(a), *self)); }
            },
            RVal::Sym(t) => if *t != a {
                q.push(Inst::Ass(LVal::Sym(a), *self));
                proof { lemma_insts_view_push(before, Inst::Ass(LVal::Sym(a), *self)); }
            },
        }
    }
}

impl Expr {
    /// Code storing the value of this expression into `a`.
    fn cz(&self, a: LVal, b: &mut VStack) -> (r: Vec<Inst>)
        requires
            expr_store_code(expr_view(*self), a, stack_view(*old(b))) is Some,
        ensures
            expr_store_code(expr_view(*self), a, stack_view(*old(b))) == Some((insts_view(r@), stack_view(*final(b)))),
    {
        match self {
            Expr::Nil => {
                assert(insts_view(Seq::<Inst>::empty()) =~= Seq::<InstV>::empty());
                Vec::new()
            },
            Expr::Num(t) => {
                let mut v: Vec<Inst> = Vec::new();
                v.push(Inst::Ass(a, RVal::Int(*t)));
                assert(insts_view(v@) =~= seq![InstV::Ass(a, RVal::Int(*t))]);
                v
            },
            t => {
                let ax = a.get_ref(b);
                let (mut uu, su) = t.cv(Some(ax), b);
                a.store(ax, &mut uu);
                uu
            },
        }
    }
}

/// Where a nested list starts, from `t` elements placed in rows of `db`.
fn ps(t: i32, db: i32) -> (r: i32)
    requires
        pad(t, db) is Some,
    ensures
        pad(t, db) == Some(r),
{
    if eval::op(ast::Oper::Mod, t, db) == 0 {
        t
    } else {
        eval::op(ast::Oper::Mod, t + db, db)
    }
}

proof fn lemma_init_items_total_prefix(items: Seq<InitEV>, a: Var, off: i32, dim: Seq<i32>, k: int, j: int, b: StackV)
    requires
        0 <= j <= k,
        k <= items.len(),
    ensures
        init_items_code(items, a, off, dim, k, b) is Some ==> init_items_code(items, a, off, dim, j, b) is Some,
    decreases k,
{
    if j < k && k > 0 {
        lemma_init_items_total_prefix(items, a, off, dim, k - 1, j, b);
    }
}

impl InitCont<Exp> {
    /// Code storing this initializer at byte offset `off` of `a`, whose
    /// rows hold `dim[dk]`, `dim[dk + 1]`, ... elements.
    #[verifier::loop_isolation(false)]
    fn cz(&self, a: Var, off: i32, dim: &Vec<i32>, dk: usize, b: &mut VStack) -> (r: Vec<Inst>)
        requires
            dk <= dim@.len(),
            init_code(init_e_view(*self), a, off, dim@.subrange(dk as int, dim@.len() as int), stack_view(*old(b))) is Some,
        ensures
            init_code(init_e_view(*self), a, off, dim@.subrange(dk as int, dim@.len() as int), stack_view(*old(b)))
                == Some((insts_view(r@), stack_view(*final(b)))),
        decreases init_e_view(*self), 1int, 0int,
    {
        let ghost dv = dim@.subrange(dk as int, dim@.len() as int);
        match self {
            InitCont::Val(t) => t.cz(LVal::SymA(a, RVal::Int(off)), b),
            InitCont::Vax(t) => {
                let ghost c = init_e_view(*self);
                let ghost items = c->Vax_0;
                let ghost b0 = stack_view(*b);
                assert(items.len() == t@.len());
                assert(dv.len() >= 2);
                let nd = dim.len();
                let db = dim[dk + 1];
                assert(db == dv[1]);
                assert(dv.subrange(1, dv.len() as int) =~= dim@.subrange(dk + 1, dim@.len() as int));
                let mut ptr: i32 = 0;
                let mut vx: Vec<Inst> = Vec::new();
                let mut i: usize = 0;
                assert(insts_view(vx@) =~= Seq::<InstV>::empty());
                while i < t.len()
                    invariant
                        i <= t@.len(),
                        items.len() == t@.len(),
                        c == init_e_view(*self),
                        c == InitEV::Vax(items),
                        dv == dim@.subrange(dk as int, dim@.len() as int),
                        dv.len() >= 2,
                        db == dv[1],
                        nd == dim@.len(),
                        dk + 1 < nd,
                        init_items_code(items, a, off, dv, items.len() as int, b0) is Some,
                        init_items_code(items, a, off, dv, i as int, b0) == Some((insts_view(vx@), ptr, stack_view(*b))),
                    decreases t@.len() - i,
                {
                    proof { lemma_init_items_total_prefix(items, a, off, dv, items.len() as int, i + 1, b0); }
                    assert(items[i as int] == init_e_view(*t@[i as int]));
                    let ghost vb = vx@;
                    let ghost st_i = stack_view(*b);
                    let ghost ptr_i = ptr;
                    assert(init_items_code(items, a, off, dv, i + 1, b0) is Some);
                    let is_val = match &*t[i] {
                        InitCont::Val(_) => true,
                        InitCont::Vax(_) => false,
                    };
                    assert(is_val == (items[i as int] is Val));
                    if !is_val {
                        ptr = ps(ptr, db);
                    }
                    assert(i32::MIN <= ptr * 4 <= i32::MAX);
                    assert(i32::MIN <= off + ptr * 4 <= i32::MAX);
                    let q = t[i].cz(a, off + ptr * 4, dim, dk + 1, b);
                    let ghost qv = q@;
                    vx = mdq(vx, q);
                    proof { lemma_insts_view_add(vb, qv); }
                    if is_val {
                        ptr = ptr + 1;
                    } else {
                        ptr = ptr + db;
                    }
                    i = i + 1;
                }
                vx
            },
        }
    }

    /// Code storing this initializer into `a`, of strides `dim`.
    fn rcz(&self, a: Var, dim: &Vec<i32>, b: &mut VStack) -> (r: Vec<Inst>)
        requires
            init_top_code(init_e_view(*self), a, dim@, stack_view(*old(b))) is Some,
        ensures
            init_top_code(init_e_view(*self), a, dim@, stack_view(*old(b))) == Some((insts_view(r@), stack_view(*final(b)))),
    {
        if dim.len() == 1 {
            match self {
                InitCont::Val(t) => t.cz(LVal::Sym(a), b),
                InitCont::Vax(t) => {
                    assert(false);
                    Vec::new()
                },
            }
        } else {
            assert(dim@.subrange(0, dim@.len() as int) =~= dim@);
            self.cz(a, 0, dim, 0, b)
        }
    }
}

impl InitCont<i32> {
    /// Code storing this initializer at byte offset `off` of `a`, whose
    /// rows hold `dim[dk]`, `dim[dk + 1]`, ... elements.
    #[verifier::loop_isolation(false)]
    fn cz(&self, a: Var, off: i32, dim: &Vec<i32>, dk: usize, b: &mut VStack) -> (r: Vec<Inst>)
        requires
            dk <= dim@.len(),
            init_code(int_to_expr_init(init_i_view(*self)), a, off, dim@.subrange(dk as int, dim@.len() as int), stack_view(*old(b))) is Some,
        ensures
            init_code(int_to_expr_init(init_i_view(*self)), a, off, dim@.subrange(dk as int, dim@.len() as int), stack_view(*old(b)))
                == Some((insts_view(r@), stack_view(*final(b)))),
        decreases init_i_view(*self), 1int, 0int,
    {
        let ghost dv = dim@.subrange(dk as int, dim@.len() as int);
        match self {
            InitCont::Val(t) => {
                let mut v: Vec<Inst> = Vec::new();
                v.push(Inst::Ass(LVal::SymA(a, RVal::Int(off)), RVal::Int(*t)));
                assert(insts_view(v@) =~= seq![InstV::Ass(LVal::SymA(a, RVal::Int(off)), RVal::Int(*t))]);
                v
            },
            InitCont::Vax(t) => {
                let ghost c = int_to_expr_init(init_i_view(*self));
                let ghost items = c->Vax_0;
                let ghost b0 = stack_view(*b);
                assert(items.len() == t@.len());
                assert(dv.len() >= 2);
                let nd = dim.len();
                let db = dim[dk + 1];
                assert(db == dv[1]);
                assert(dv.subrange(1, dv.len() as int) =~= dim@.subrange(dk + 1, dim@.len() as int));
                let mut ptr: i32 = 0;
                let mut vx: Vec<Inst> = Vec::new();
                let mut i: usize = 0;
                assert(insts_view(vx@) =~= Seq::<InstV>::empty());
                while i < t.len()
                    invariant
                        i <= t@.len(),
                        items.len() == t@.len(),
                        c == int_to_expr_init(init_i_view(*self)),
                        c == InitEV::Vax(items),
                        dv == dim@.subrange(dk as int, dim@.len() as int),
                        dv.len() >= 2,
                        db == dv[1],
                        nd == dim@.len(),
                        dk + 1 < nd,
                        init_items_code(items, a, off, dv, items.len() as int, b0) is Some,
                        init_items_code(items, a, off, dv, i as int, b0) == Some((insts_view(vx@), ptr, stack_view(*b))),
                    decreases t@.len() - i,
                {
                    proof { lemma_init_items_total_prefix(items, a, off, dv, items.len() as int, i + 1, b0); }
                    assert(items[i as int] == int_to_expr_init(init_i_view(*t@[i as int])));
                    let ghost vb = vx@;
                    let ghost st_i = stack_view(*b);
                    let ghost ptr_i = ptr;
                    assert(init_items_code(items, a, off, dv, i + 1, b0) is Some);
                    let is_val = match &*t[i] {
                        InitCont::Val(_) => true,
                        InitCont::Vax(_) => false,
                    };
                    assert(is_val == (items[i as int] is Val));
                    if !is_val {
                        ptr = ps(ptr, db);
                    }
                    assert(i32::MIN <= ptr * 4 <= i32::MAX);
                    assert(i32::MIN <= off + ptr * 4 <= i32::MAX);
                    let q = t[i].cz(a, off + ptr * 4, dim, dk + 1, b);
                    let ghost qv = q@;
                    vx = mdq(vx, q);
                    proof { lemma_insts_view_add(vb, qv); }
                    if is_val {
                        ptr = ptr + 1;
                    } else {
                        ptr = ptr + db;
                    }
                    i = i + 1;
                }
                vx
            },
        }
    }

    /// Code storing this initializer into `a`, of strides `dim`.
    fn rcz(&self, a: Var, dim: &Vec<i32>, b: &mut VStack) -> (r: Vec<Inst>)
        requires
            init_top_code(int_to_expr_init(init_i_view(*self)), a, dim@, stack_view(*old(b))) is Some,
        ensures
            init_top_code(int_to_expr_init(init_i_view(*self)), a, dim@, stack_view(*old(b))) == Some((insts_view(r@), stack_view(*final(b)))),
    {
        if dim.len() == 1 {
            match self {
                InitCont::Val(t) => {
                    let mut v: Vec<Inst> = Vec::new();
                    v.push(Inst::Ass(LVal::Sym(a), RVal::Int(*t)));
                    assert(insts_view(v@) =~= seq![InstV::Ass(LVal::Sym(a), RVal::Int(*t))]);
                    v
                },
                InitCont::Vax(t) => {
                    assert(false);
                    Vec::new()
                },
            }
        } else {
            assert(dim@.subrange(0, dim@.len() as int) =~= dim@);
            self.cz(a, 0, dim, 0, b)
        }
    }
}

/// Code initializing `a`, of strides `dim`, with `init`.
fn rci(a: Var, dim: Vec<i32>, init: &VarInit, b: &mut VStack) -> (r: Segment)
    requires
        rci_code(a, dim@, var_init_view(*init), stack_view(*old(b))) is Some,
    ensures
        rci_code(a, dim@, var_init_view(*init), stack_view(*old(b))) == Some((r@, stack_view(*final(b)))),
        seg_wf(r@),
{
    match init {
        VarInit::Nil => {
            let r = Segment::new();
            assert(insts_view(Seq::<Inst>::empty()) =~= Seq::<InstV>::empty());
            r
        },
        VarInit::E(t) => Segment::from(t.rcz(a, &dim, b)),
        VarInit::I(t) => Segment::from(t.rcz(a, &dim, b)),
    }
}

/// The top scope replaced, as `with_top` says, after `f` was done to it.
proof fn lemma_top_view(b0: VStack, b1: VStack)
    requires
        b0.st@.len() > 0,
        b1.st@.len() == b0.st@.len(),
        forall|i: int| 0 <= i < b0.st@.len() - 1 ==> b1.st@[i] == b0.st@[i],
        b1.lab == b0.lab,
    ensures
        stack_view(b1) == with_top(stack_view(b0), fscope_view(b1.st@.last())),
        stack_view(b0).st.last() == fscope_view(b0.st@.last()),
{
    lemma_top(b0, b1, fscope_view(b1.st@.last()));
}

impl VarDecl {
    /// Declares this variable in the innermost scope and initializes it.
    fn cc(&self, b: &mut VStack) -> (r: Segment)
        requires
            var_decl_code(var_decl_view(*self), stack_view(*old(b))) is Some,
        ensures
            var_decl_code(var_decl_view(*self), stack_view(*old(b))) == Some((r@, stack_view(*final(b)))),
            seg_wf(r@),
    {
        let ghost d = var_decl_view(*self);
        let dims = eval::dicast(&self.dims);
        let dims = bmult(&dims);
        assert(dims@ =~= strides(dims_of(d.dims)));
        let ghost b0 = *b;
        proof { lemma_top_view(b0, b0); }
        let var = b.top().reg_loc(self.name.as_str(), &dims);
        proof { lemma_top_view(b0, *b); }
        rci(var, dims, &self.init, b)
    }

    /// Registers this parameter in the innermost scope.
    fn rg(&self, b: &mut VStack)
        requires
            param_code(var_decl_view(*self), stack_view(*old(b))) is Some,
        ensures
            param_code(var_decl_view(*self), stack_view(*old(b))) == Some(stack_view(*final(b))),
    {
        let ghost d = var_decl_view(*self);
        let dims = eval::dicast(&self.dims);
        let dims = bmult(&dims);
        assert(dims@ =~= strides(dims_of(d.dims)));
        let ghost b0 = *b;
        proof { lemma_top_view(b0, b0); }
        b.top().reg_par(self.name.as_str(), &dims);
        proof { lemma_top_view(b0, *b); }
    }
}

proof fn lemma_vars_prefix(vs: Seq<VarDeclV>, k: int, j: int, b: StackV)
    requires
        0 <= j <= k <= vs.len(),
        vars_code(vs, k, b) is Some,
    ensures
        vars_code(vs, j, b) is Some,
    decreases k,
{
    if j < k {
        lemma_vars_prefix(vs, k - 1, j, b);
    }
}

/// The declared variables of `a`, in order.
fn vcc_vars(a: &Vec<Box<VarDecl>>, b: &mut VStack) -> (r: Segment)
    requires
        vars_code(var_decls_view(a@), a@.len() as int, stack_view(*old(b))) is Some,
    ensures
        vars_code(var_decls_view(a@), a@.len() as int, stack_view(*old(b))) == Some((r@, stack_view(*final(b)))),
        seg_wf(r@),
{
    let ghost vs = var_decls_view(a@);
    let ghost b0 = stack_view(*b);
    let mut acc = Segment::new();
    let mut i: usize = 0;
    while i < a.len()
        invariant
            i <= a@.len(),
            vs == var_decls_view(a@),
            vars_code(vs, a@.len() as int, b0) is Some,
            vars_code(vs, i as int, b0) == Some((acc@, stack_view(*b))),
            seg_wf(acc@),
        decreases a@.len() - i,
    {
        proof { lemma_vars_prefix(vs, a@.len() as int, i + 1, b0); }
        assert(vs[i as int] == var_decl_view(*a@[i as int]));
        let x = a[i].cc(b);
        acc = Segment::cat(acc, x);
        i = i + 1;
    }
    acc
}

impl Decl {
    fn cc(&self, b: &mut VStack) -> (r: Segment)
        requires
            vars_code(decl_view(*self).vars, decl_view(*self).vars.len() as int, stack_view(*old(b))) is Some,
        ensures
            vars_code(decl_view(*self).vars, decl_view(*self).vars.len() as int, stack_view(*old(b))) == Some((r@, stack_view(*final(b)))),
            seg_wf(r@),
    {
        vcc_vars(&self.1, b)
    }
}

// ---------------------------------------------------------------------
// Control flow, executed.

impl Expr {
    /// This expression as a condition.
    fn cn(&self, b: &mut VStack) -> (r: Segment)
        requires
            comp_code(expr_view(*self), stack_view(*old(b))) is Some,
        ensures
            comp_code(expr_view(*self), stack_view(*old(b))) == Some((r@, stack_view(*final(b)))),
            seg_wf(r@),
    {
        match self {
            Expr::Op(u, o, v) => {
                if o.is_co() {
                    let (ls, l) = u.cv(None, b);
                    let (rs, r) = v.cv(None, b);
                    let ghost lv = ls@;
                    let ghost rv = rs@;
                    let all = mdq(ls, rs);
                    proof { lemma_insts_view_add(lv, rv); }
                    let mut zs = Segment::from(all);
                    let oe = o.to_ee();
                    zs = zs.jumpx(Inst::Brch(l, oe, r, -1), 0);
                    return zs.jumpx(Inst::Jump(-1), 1);
                }
            },
            _ => {},
        }
        let (zs, q) = self.cv(None, b);
        let mut zs = Segment::from(zs);
        zs = zs.jumpx(Inst::Brch(RVal::Int(0), Oper::Ne, q, -1), 0);
        zs.jumpx(Inst::Jump(-1), 1)
    }
}

impl CondExpr {
    fn cc(&self, b: &mut VStack) -> (r: Segment)
        requires
            cond_code(cond_view(*self), stack_view(*old(b))) is Some,
        ensures
            cond_code(cond_view(*self), stack_view(*old(b))) == Some((r@, stack_view(*final(b)))),
            seg_wf(r@),
        decreases cond_view(*self),
    {
        match self {
            CondExpr::Comp(t) => t.cn(b),
            CondExpr::And(l, r) => {
                let ls = l.cc(b);
                let (rs, r) = r.cc(b).lab(b);
                Segment::cat(ls.fill(0, r), rs)
            },
            CondExpr::Or(l, r) => {
                let ls = l.cc(b);
                let (rs, r) = r.cc(b).lab(b);
                Segment::cat(ls.fill(1, r), rs)
            },
        }
    }
}

impl Stmt {
    fn cc(&self, b: &mut VStack) -> (r: Segment)
        requires
            stmt_code(stmt_view(*self), stack_view(*old(b))) is Some,
        ensures
            stmt_code(stmt_view(*self), stack_view(*old(b))) == Some((r@, stack_view(*final(b)))),
            seg_wf(r@),
        decreases stmt_view(*self), 2int, 0int,
    {
        let ghost sv = stmt_view(*self);
        match self {
            Stmt::Assign(l, e) => {
                let (il, lv, cm) = l.cl(None, b);
                let qv = lv.get_ref(b);
                let (mut ins, qb) = e.cv(Some(qv), b);
                lv.store(qv, &mut ins);
                let ghost iv = il@;
                let ghost nv = ins@;
                let all = mdq(il, ins);
                proof { lemma_insts_view_add(iv, nv); }
                Segment::from(all)
            },
            Stmt::Expr(e) => {
                let (is, _) = e.cv(None, b);
                Segment::from(is)
            },
            Stmt::Block(e) => {
                assert(sv->Block_0 =~= items_view(e@));
                assert(decreases_to!(sv => sv->Block_0));
                block_cc(e, b)
            },
            Stmt::If(c, l, r) => {
                let cs = c.cc(b);
                let (ls, tlab) = l.cc(b).lab(b);
                let qlab = b.get_lab();
                let (rs, flab) = match r {
                    None => (Segment::new().plab(qlab), qlab),
                    Some(t) => {
                        let (u, v) = t.cc(b).lab(b);
                        (u.plab(qlab), v)
                    },
                };
                let cs = cs.fill(0, tlab);
                let cs = cs.fill(1, flab);
                let ls = match r {
                    None => ls,
                    Some(_) => ls.jump(qlab),
                };
                Segment::cat(Segment::cat(cs, ls), rs)
            },
            Stmt::While(c, s) => {
                let (cs, cl) = c.cc(b).lab(b);
                let (ss, sl) = s.cc(b).lab(b);
                let q = b.get_lab();
                let ss = ss.jump(cl);
                let ss = ss.plab(q);
                let cs = cs.fill(0, sl);
                let cs = cs.fill(1, q);
                let ss = ss.fill(2, q);
                let ss = ss.fill(3, cl);
                Segment::cat(cs, ss)
            },
            Stmt::Break => Segment::new().jumpx(Inst::Jump(-1), 2),
            Stmt::Continue => Segment::new().jumpx(Inst::Jump(-1), 3),
            Stmt::Ret(r) => {
                if r.is_n() {
                    let mut v: Vec<Inst> = Vec::new();
                    v.push(Inst::Ret);
                    assert(insts_view(v@) =~= seq![InstV::Ret]);
                    Segment::from(v)
                } else {
                    let (mut i, c) = r.cv(None, b);
                    let ghost iv = i@;
                    i.push(Inst::Return(c));
                    proof { lemma_insts_view_push(iv, Inst::Return(c)); }
                    Segment::from(i)
                }
            },
        }
    }
}

impl BlockItem {
    fn cc(&self, b: &mut VStack) -> (r: Segment)
        requires
            item_code(item_view(*self), stack_view(*old(b))) is Some,
        ensures
            item_code(item_view(*self), stack_view(*old(b))) == Some((r@, stack_view(*final(b)))),
            seg_wf(r@),
        decreases item_view(*self), 3int, 0int,
    {
        match self {
            BlockItem::Decl(t) => t.cc(b),
            BlockItem::Stmt(t) => t.cc(b),
        }
    }
}

proof fn lemma_items_prefix(items: Seq<ItemV>, k: int, j: int, b: StackV)
    requires
        0 <= j <= k <= items.len(),
        items_code(items, k, b) is Some,
    ensures
        items_code(items, j, b) is Some,
    decreases k,
{
    if j < k {
        lemma_items_prefix(items, k - 1, j, b);
    }
}

/// The items of a block, in order.
/// The code of a block, in a scope of its own.
fn block_cc(a: &Vec<Box<BlockItem>>, b: &mut VStack) -> (r: Segment)
    requires
        stmt_code(StmtV::Block(items_view(a@)), stack_view(*old(b))) is Some,
    ensures
        stmt_code(StmtV::Block(items_view(a@)), stack_view(*old(b))) == Some((r@, stack_view(*final(b)))),
        seg_wf(r@),
    decreases items_view(a@), 1int, 1int,
{
    b.block_enter();
    let r = vcc_items(a, b);
    b.block_exit();
    r
}

fn vcc_items(a: &Vec<Box<BlockItem>>, b: &mut VStack) -> (r: Segment)
    requires
        items_code(items_view(a@), a@.len() as int, stack_view(*old(b))) is Some,
    ensures
        items_code(items_view(a@), a@.len() as int, stack_view(*old(b))) == Some((r@, stack_view(*final(b)))),
        seg_wf(r@),
    decreases items_view(a@), 1int, 0int,
{
    let ghost vs = items_view(a@);
    let ghost b0 = stack_view(*b);
    let mut acc = Segment::new();
    let mut i: usize = 0;
    while i < a.len()
        invariant
            i <= a@.len(),
            vs == items_view(a@),
            items_code(vs, a@.len() as int, b0) is Some,
            items_code(vs, i as int, b0) == Some((acc@, stack_view(*b))),
            seg_wf(acc@),
        decreases a@.len() - i,
    {
        proof { lemma_items_prefix(vs, a@.len() as int, i + 1, b0); }
        assert(vs[i as int] == item_view(*a@[i as int]));
        assert(decreases_to!(vs => vs[i as int]));
        let x = a[i].cc(b);
        acc = Segment::cat(acc, x);
        i = i + 1;
    }
    acc
}

// ---------------------------------------------------------------------
// Functions and programs, executed.

proof fn lemma_params_prefix(ps: Seq<VarDeclV>, k: int, j: int, b: StackV)
    requires
        0 <= j <= k <= ps.len(),
        params_reg(ps, k, b) is Some,
    ensures
        params_reg(ps, j, b) is Some,
    decreases k,
{
    if j < k {
        lemma_params_prefix(ps, k - 1, j, b);
    }
}

impl Func {
    fn cc(&self, b: &mut VStack) -> (r: Segment)
        requires
            func_code(func_view(*self), stack_view(*old(b))) is Some,
        ensures
            func_code(func_view(*self), stack_view(*old(b))) == Some((r@, stack_view(*final(b)))),
            seg_wf(r@),
    {
        let ghost f = func_view(*self);
        b.enter();
        let ghost b1 = stack_view(*b);
        let mut i: usize = 0;
        while i < self.param.len()
            invariant
                i <= self.param@.len(),
                f == func_view(*self),
                params_reg(f.param, f.param.len() as int, b1) is Some,
                params_reg(f.param, i as int, b1) == Some(stack_view(*b)),
            decreases self.param@.len() - i,
        {
            proof { lemma_params_prefix(f.param, f.param.len() as int, i + 1, b1); }
            assert(f.param[i as int] == var_decl_view(*self.param@[i as int]));
            self.param[i].rg(b);
            i = i + 1;
        }
        let mut body = vcc_items(&self.body, b);
        let r = b.exit();
        let vdefs = r.dump();
        let fnn = FnName(self.name.clone());
        let mut head: Vec<Inst> = Vec::new();
        head.push(Inst::Fn(fnn.clone(), self.param.len() as i32));
        assert(insts_view(head@) =~= seq![InstV::Fn(f.name, f.param.len() as i32)]);
        let ghost hv = head@;
        let ghost dv = vdefs@;
        let vdefs = mdq(head, vdefs);
        proof { lemma_insts_view_add(hv, dv); }
        body.push(Inst::FnE(fnn));
        let ghost vv = vdefs@;
        let ghost bv = body.ins@;
        let all = mdq(vdefs, body.ins);
        proof { lemma_insts_view_add(vv, bv); }
        Segment::from(all)
    }
}

impl CompUnit {
    fn cc(&self, b: &mut VStack) -> (r: Segment)
        requires
            unit_code(unit_view(*self), stack_view(*old(b))) is Some,
        ensures
            unit_code(unit_view(*self), stack_view(*old(b))) == Some((r@, stack_view(*final(b)))),
            seg_wf(r@),
    {
        match self {
            CompUnit::Decl(a) => a.cc(b),
            CompUnit::Func(a) => a.cc(b),
        }
    }
}

proof fn lemma_units_prefix(us: Seq<UnitV>, k: int, j: int, b: StackV)
    requires
        0 <= j <= k <= us.len(),
        units_code(us, k, b) is Some,
    ensures
        units_code(us, j, b) is Some,
    decreases k,
{
    if j < k {
        lemma_units_prefix(us, k - 1, j, b);
    }
}

/// Compiles a program: its constants are folded, then each unit is
/// compiled in order, and the declarations of the globals come first.
pub fn compile(a: Vec<Box<CompUnit>>) -> (r: Segment)
    requires
        eval::vprep_ok(a@, eval::scope_init()),
        program_code(prepped_units(a@)) is Some,
    ensures
        program_code(prepped_units(a@)) == Some(r@),
        seg_wf(r@),
{
    let ghost a0 = a@;
    let ghost pu = prepped_units(a0);
    let mut scope = eval::VScope::new();
    let mut b = VStack::new();
    let a = eval::vprep(a, &mut scope);
    assert forall|k: int| 0 <= k < a@.len() implies #[trigger] unit_view(*a@[k]) == pu[k] by {
        assert((*a0[k]).prepped(&*a@[k], eval::vscope(a0, eval::scope_init(), k)));
    }
    let mut rseg = Segment::new();
    let mut i: usize = 0;
    while i < a.len()
        invariant
            i <= a@.len(),
            a@.len() == pu.len(),
            pu == prepped_units(a0),
            forall|k: int| 0 <= k < a@.len() ==> #[trigger] unit_view(*a@[k]) == pu[k],
            program_code(pu) is Some,
            units_code(pu, i as int, stack_new()) == Some((rseg@, stack_view(b))),
            seg_wf(rseg@),
        decreases a@.len() - i,
    {
        proof { lemma_units_prefix(pu, pu.len() as int, i + 1, stack_new()); }
        let x = a[i].cc(&mut b);
        rseg = Segment::cat(rseg, x);
        i = i + 1;
    }
    let g = b.exit();
    let cc = g.dump();
    Segment::cat(Segment::from(cc), rseg)
}

/// The text of a segment: a line for each instruction, or one empty line
/// when there is none.
pub open spec fn seg_text(s: SegV) -> Seq<char> {
    if s.ins.len() == 0 {
        "\n"@
    } else {
        lines_text(s.ins)
    }
}

impl Segment {
    /// The text of this segment.
    pub fn print(&self) -> (s: String)
        ensures
            s@ == seg_text(self@),
    {
        let ghost iv = insts_view(self.ins@);
        let mut out: Vec<char> = Vec::new();
        let mut i: usize = 0;
        assert(iv.take(0) =~= Seq::<InstV>::empty());
        while i < self.ins.len()
            invariant
                i <= self.ins@.len(),
                iv == insts_view(self.ins@),
                out@ == lines_text(iv.take(i as int)),
            decreases self.ins@.len() - i,
        {
            let ghost before = out@;
            self.ins[i].render(&mut out);
            proof { lemma_inst_text(self.ins@[i as int]); }
            push_str(&mut out, "\n");
            proof {
                reveal_strlit("\n");
                assert(iv.take(i + 1).drop_last() =~= iv.take(i as int));
                assert(iv.take(i + 1).last() == inst_view(self.ins@[i as int]));
            }
            i = i + 1;
            assert(out@ =~= lines_text(iv.take(i as int)));
        }
        assert(iv.take(i as int) =~= iv);
        if self.ins.len() == 0 {
            push_str(&mut out, "\n");
            proof { reveal_strlit("\n"); }
            assert(out@ =~= "\n"@);
        }
        chars_to_string(out)
    }
}

// ---------------------------------------------------------------------
// Laws.

/// Joining after an empty segment leaves a segment unchanged.
pub proof fn law_cat_new_left(s: SegV)
    requires
        seg_wf(s),
    ensures
        seg_cat(seg_new(), s) == s,
{
    let r = seg_cat(seg_new(), s);
    assert forall|k: int| 0 <= k < 4 implies r.list[k] =~= s.list[k] by {
        assert(shift(s.list[k], 0) =~= s.list[k]);
    }
    assert(r.list =~= s.list);
    assert(r.ins =~= s.ins);
}

/// Joining an empty segment after one keeps its code and jumps; the value
/// left is that of the empty segment.
pub proof fn law_cat_new_right(s: SegV)
    requires
        seg_wf(s),
    ensures
        seg_cat(s, seg_new()) == (SegV { ret: None, ..s }),
{
    let r = seg_cat(s, seg_new());
    assert forall|k: int| 0 <= k < 4 implies r.list[k] =~= s.list[k] by {
        assert(shift(Seq::<usize>::empty(), s.ins.len()) =~= Seq::<usize>::empty());
    }
    assert(r.list =~= s.list);
    assert(r.ins =~= s.ins);
}

/// Joining segments is associative, for positions that fit in `usize`.
pub proof fn law_cat_assoc(a: SegV, b: SegV, c: SegV)
    requires
        seg_wf(a),
        seg_wf(b),
        seg_wf(c),
        a.ins.len() + b.ins.len() + c.ins.len() <= usize::MAX,
    ensures
        seg_cat(seg_cat(a, b), c) == seg_cat(a, seg_cat(b, c)),
{
    let l = seg_cat(seg_cat(a, b), c);
    let r = seg_cat(a, seg_cat(b, c));
    assert(l.ins =~= r.ins);
    assert forall|k: int| 0 <= k < 4 implies l.list[k] =~= r.list[k] by {
        let x = a.list[k];
        let y = b.list[k];
        let z = c.list[k];
        let na = a.ins.len();
        let nb = b.ins.len();
        assert(shift(y + shift(z, nb), na) =~= shift(y, na) + shift(shift(z, nb), na));
        assert forall|j: int| 0 <= j < z.len() implies shift(shift(z, nb), na)[j] == shift(z, na + nb)[j] by {
            assert(z[j] < c.ins.len());
        }
        assert(shift(shift(z, nb), na) =~= shift(z, na + nb));
        assert(l.list[k] =~= x + shift(y, na) + shift(z, na + nb));
        assert(r.list[k] =~= x + (shift(y, na) + shift(shift(z, nb), na)));
    }
    assert(l.list =~= r.list);
}

/// Joining keeps segments well formed.
pub proof fn law_cat_wf(a: SegV, b: SegV)
    requires
        seg_wf(a),
        seg_wf(b),
        a.ins.len() + b.ins.len() <= usize::MAX,
    ensures
        seg_wf(seg_cat(a, b)),
{
    let r = seg_cat(a, b);
    assert forall|k: int, j: int| 0 <= k < 4 && 0 <= j < r.list[k].len() implies #[trigger] r.list[k][j] < r.ins.len() by {
        if j >= a.list[k].len() {
            assert(b.list[k][j - a.list[k].len()] < b.ins.len());
        }
    }
}

/// Every position on a jump list of `s` is that of a jump or a branch.
pub open spec fn jumps_ok(s: SegV) -> bool {
    &&& seg_wf(s)
    &&& forall|k: int, j: int| 0 <= k < 4 && 0 <= j < s.list[k].len() ==> {
        let i = s.ins[#[trigger] s.list[k][j] as int];
        i is Brch || i is Jump
    }
}

/// Joining segments keeps every jump list pointing at the same jumps and
/// branches: a position from the first segment is unchanged, and one from
/// the second is moved past the first segment's code.
pub proof fn law_cat_jumps(a: SegV, b: SegV)
    requires
        jumps_ok(a),
        jumps_ok(b),
        a.ins.len() + b.ins.len() <= usize::MAX,
    ensures
        jumps_ok(seg_cat(a, b)),
        forall|k: int, j: int| 0 <= k < 4 && 0 <= j < a.list[k].len() ==>
            seg_cat(a, b).ins[seg_cat(a, b).list[k][j] as int] == a.ins[#[trigger] a.list[k][j] as int],
        forall|k: int, j: int| 0 <= k < 4 && 0 <= j < b.list[k].len() ==>
            seg_cat(a, b).ins[seg_cat(a, b).list[k][a.list[k].len() + j] as int] == b.ins[#[trigger] b.list[k][j] as int],
{
    law_cat_wf(a, b);
    let c = seg_cat(a, b);
    assert forall|k: int, j: int| 0 <= k < 4 && 0 <= j < a.list[k].len() implies
        c.ins[c.list[k][j] as int] == a.ins[#[trigger] a.list[k][j] as int] by {
        assert(c.list[k][j] == a.list[k][j]);
        assert(a.list[k][j] < a.ins.len());
    }
    assert forall|k: int, j: int| 0 <= k < 4 && 0 <= j < b.list[k].len() implies
        c.ins[c.list[k][a.list[k].len() + j] as int] == b.ins[#[trigger] b.list[k][j] as int] by {
        assert(c.list[k][a.list[k].len() + j] == shift(b.list[k], a.ins.len())[j]);
        assert(b.list[k][j] < b.ins.len());
        assert(c.list[k][a.list[k].len() + j] as int == b.list[k][j] + a.ins.len());
    }
    assert forall|k: int, j: int| 0 <= k < 4 && 0 <= j < c.list[k].len() implies {
        let i = c.ins[#[trigger] c.list[k][j] as int];
        i is Brch || i is Jump
    } by {
        if j < a.list[k].len() {
            assert(c.list[k][j] == a.list[k][j]);
            assert(a.list[k][j] < a.ins.len());
            let i = a.ins[a.list[k][j] as int];
            assert(i is Brch || i is Jump);
        } else {
            let j2 = j - a.list[k].len();
            assert(c.list[k][j] == shift(b.list[k], a.ins.len())[j2]);
            assert(b.list[k][j2] < b.ins.len());
            let i = b.ins[b.list[k][j2] as int];
            assert(i is Brch || i is Jump);
        }
    }
}

/// Filling a list leaves no jump in it, keeps the other lists and the
/// number of instructions, and changes only jumps and branches.
pub proof fn law_fill(s: SegV, k: int, lab: i32)
    requires
        seg_wf(s),
        0 <= k < 4,
    ensures
        seg_wf(seg_fill(s, k, lab)),
        seg_fill(s, k, lab).list[k].len() == 0,
        forall|j: int| 0 <= j < 4 && j != k ==> seg_fill(s, k, lab).list[j] == s.list[j],
        seg_fill(s, k, lab).ins.len() == s.ins.len(),
        forall|p: int| 0 <= p < s.ins.len() && !(s.ins[p] is Brch) && !(s.ins[p] is Jump) ==> seg_fill(s, k, lab).ins[p] == s.ins[p],
        forall|j: int| 0 <= j < s.list[k].len() ==> seg_fill(s, k, lab).ins[#[trigger] s.list[k][j] as int] == retarget(s.ins[s.list[k][j] as int], lab),
{
    let r = seg_fill(s, k, lab);
    assert forall|j: int| 0 <= j < s.list[k].len() implies r.ins[#[trigger] s.list[k][j] as int] == retarget(s.ins[s.list[k][j] as int], lab) by {
        let p = s.list[k][j];
        assert(p < s.ins.len());
        assert(s.list[k].contains(p));
        assert((p as int) as usize == p);
    }
    assert forall|q: int, j: int| 0 <= q < 4 && 0 <= j < r.list[q].len() implies #[trigger] r.list[q][j] < r.ins.len() by {
        assert(r.list[q][j] == s.list[q][j]);
    }
}

/// With a variable to receive it, an expression leaves its value in that
/// variable.
pub proof fn law_cv_target(e: ExprV, v: Var, b: StackV)
    requires
        expr_code(e, Some(v), b) is Some,
    ensures
        expr_code(e, Some(v), b).unwrap().1 == RVal::Sym(v),
{
    match e {
        ExprV::LVal(n, ind) => {
            assert(expr_code(e, Some(v), b) == lval_value_code(n, ind, Some(v), b));
            law_cl_target(n, ind, v, b);
        },
        _ => {},
    }
}

/// With a variable to receive it, a place is that variable.
pub proof fn law_cl_target(n: Seq<char>, ind: Seq<ExprV>, v: Var, b: StackV)
    requires
        lval_place_code(n, ind, Some(v), b) is Some,
    ensures
        lval_place_code(n, ind, Some(v), b).unwrap().1 == LVal::Sym(v),
{
    let meta = stack_find(b.st, n).unwrap();
    let (w, q, b1) = place_code(meta.vdef, meta.dim, ind, b).unwrap();
    match q {
        LVal::Sym(_) => {},
        LVal::SymA(_, _) => {},
    }
}

/// The number of scopes is the same and the label counter has not gone
/// down.
pub open spec fn kept(b: StackV, b1: StackV) -> bool {
    b1.st.len() == b.st.len() && b.lab <= b1.lab
}

proof fn lemma_expr_kept(e: ExprV, a: Option<Var>, b: StackV)
    requires
        expr_code(e, a, b) is Some,
    ensures
        kept(b, expr_code(e, a, b).unwrap().2),
    decreases e, 4int,
{
    if a is None && e is Nil {
    } else if a is None && e is Num {
    } else if a is None && e is LVal && e->LVal_1.len() == 0 && stack_find(b.st, e->LVal_0) is Some {
    } else {
        let (av, b1) = target(a, b).unwrap();
        match e {
            ExprV::FnCall(f, ps) => lemma_params_kept(ps, b1),
            ExprV::LVal(n, ind) => lemma_lval_value_kept(n, ind, Some(av), b1),
            ExprV::Op(u, o, v) => {
                lemma_expr_kept(*u, None, b1);
                let b2 = expr_code(*u, None, b1).unwrap().2;
                lemma_expr_kept(*v, None, b2);
            },
            ExprV::UOp(o, v) => lemma_expr_kept(*v, None, b1),
            _ => {},
        }
    }
}

proof fn lemma_params_kept(ps: Seq<ExprV>, b: StackV)
    requires
        params_code(ps, b) is Some,
    ensures
        kept(b, params_code(ps, b).unwrap().1),
    decreases ps, 3int,
{
    if ps.len() > 0 {
        lemma_expr_kept(ps[0], None, b);
        let b1 = expr_code(ps[0], None, b).unwrap().2;
        lemma_params_kept(ps.subrange(1, ps.len() as int), b1);
    }
}

proof fn lemma_lval_value_kept(n: Seq<char>, ind: Seq<ExprV>, a: Option<Var>, b: StackV)
    requires
        lval_value_code(n, ind, a, b) is Some,
    ensures
        kept(b, lval_value_code(n, ind, a, b).unwrap().2),
    decreases ind, 3int,
{
    lemma_lval_place_kept(n, ind, a, b);
}

proof fn lemma_lval_place_kept(n: Seq<char>, ind: Seq<ExprV>, a: Option<Var>, b: StackV)
    requires
        lval_place_code(n, ind, a, b) is Some,
    ensures
        kept(b, lval_place_code(n, ind, a, b).unwrap().3),
    decreases ind, 2int,
{
    let meta = stack_find(b.st, n).unwrap();
    lemma_place_kept(meta.vdef, meta.dim, ind, b);
}

proof fn lemma_place_kept(v: Var, dim: Seq<i32>, ind: Seq<ExprV>, b: StackV)
    requires
        place_code(v, dim, ind, b) is Some,
    ensures
        kept(b, place_code(v, dim, ind, b).unwrap().2),
    decreases ind, 1int,
{
    if dim.len() > 1 {
        lemma_offset_kept(dim.subrange(1, dim.len() as int), ind, b);
    }
}

proof fn lemma_offset_kept(dim: Seq<i32>, ind: Seq<ExprV>, b: StackV)
    requires
        offset_code(dim, ind, b) is Some,
    ensures
        kept(b, offset_code(dim, ind, b).unwrap().2),
    decreases ind, 0int,
{
    if ind.len() > 0 {
        lemma_offset_kept(dim.subrange(1, dim.len() as int), ind.subrange(1, ind.len() as int), b);
        let b1 = offset_code(dim.subrange(1, dim.len() as int), ind.subrange(1, ind.len() as int), b).unwrap().2;
        lemma_expr_kept(ind[0], None, b1);
    }
}

proof fn lemma_store_kept(e: ExprV, a: LVal, b: StackV)
    requires
        expr_store_code(e, a, b) is Some,
    ensures
        kept(b, expr_store_code(e, a, b).unwrap().1),
{
    match e {
        ExprV::Nil => {},
        ExprV::Num(_) => {},
        _ => {
            let (ax, b1) = get_ref(a, b).unwrap();
            lemma_expr_kept(e, Some(ax), b1);
        },
    }
}

proof fn lemma_init_kept(c: InitEV, a: Var, off: i32, dim: Seq<i32>, b: StackV)
    requires
        init_code(c, a, off, dim, b) is Some,
    ensures
        kept(b, init_code(c, a, off, dim, b).unwrap().1),
    decreases c, 1int, 0int,
{
    match c {
        InitEV::Val(e) => lemma_store_kept(e, LVal::SymA(a, RVal::Int(off)), b),
        InitEV::Vax(items) => lemma_init_items_kept(items, a, off, dim, items.len() as int, b),
    }
}

proof fn lemma_init_items_kept(items: Seq<InitEV>, a: Var, off: i32, dim: Seq<i32>, k: int, b: StackV)
    requires
        init_items_code(items, a, off, dim, k, b) is Some,
    ensures
        kept(b, init_items_code(items, a, off, dim, k, b).unwrap().2),
    decreases items, 0int, k,
{
    if !(k <= 0 || dim.len() < 2 || k > items.len()) {
        lemma_init_items_kept(items, a, off, dim, k - 1, b);
        let (vx, ptr, b1) = init_items_code(items, a, off, dim, k - 1, b).unwrap();
        let it = items[k - 1];
        let p = if it is Val { ptr } else { pad(ptr, dim[1]).unwrap() };
        lemma_init_kept(it, a, (off + p * 4) as i32, dim.subrange(1, dim.len() as int), b1);
    }
}

proof fn lemma_var_decl_kept(d: VarDeclV, b: StackV)
    requires
        var_decl_code(d, b) is Some,
    ensures
        kept(b, var_decl_code(d, b).unwrap().1),
{
    let dims = dims_of(d.dims);
    let (v, b1) = reg_loc(b, d.name, strides(dims)).unwrap();
    match d.init {
        VarInitV::Nil => {},
        VarInitV::E(t) => {
            let c = int_to_expr_init(t);
            if strides(dims).len() == 1 {
                if let InitEV::Val(e) = c {
                    lemma_store_kept(e, LVal::Sym(v), b1);
                }
            } else {
                lemma_init_kept(c, v, 0, strides(dims), b1);
            }
        },
        VarInitV::I(c) => {
            if strides(dims).len() == 1 {
                if let InitEV::Val(e) = c {
                    lemma_store_kept(e, LVal::Sym(v), b1);
                }
            } else {
                lemma_init_kept(c, v, 0, strides(dims), b1);
            }
        },
    }
}

proof fn lemma_vars_kept(vs: Seq<VarDeclV>, k: int, b: StackV)
    requires
        vars_code(vs, k, b) is Some,
    ensures
        kept(b, vars_code(vs, k, b).unwrap().1),
    decreases k,
{
    if !(k <= 0 || k > vs.len()) {
        lemma_vars_kept(vs, k - 1, b);
        lemma_var_decl_kept(vs[k - 1], vars_code(vs, k - 1, b).unwrap().1);
    }
}

proof fn lemma_params_reg_kept(ps: Seq<VarDeclV>, k: int, b: StackV)
    requires
        params_reg(ps, k, b) is Some,
    ensures
        kept(b, params_reg(ps, k, b).unwrap()),
    decreases k,
{
    if !(k <= 0 || k > ps.len()) {
        lemma_params_reg_kept(ps, k - 1, b);
    }
}

proof fn lemma_comp_kept(e: ExprV, b: StackV)
    requires
        comp_code(e, b) is Some,
    ensures
        kept(b, comp_code(e, b).unwrap().1),
{
    if e is Op && oper_is_co(e->Op_1) {
        lemma_expr_kept(*e->Op_0, None, b);
        lemma_expr_kept(*e->Op_2, None, expr_code(*e->Op_0, None, b).unwrap().2);
    } else {
        lemma_expr_kept(e, None, b);
    }
}

proof fn lemma_cond_kept(c: CondV, b: StackV)
    requires
        cond_code(c, b) is Some,
    ensures
        kept(b, cond_code(c, b).unwrap().1),
    decreases c,
{
    match c {
        CondV::Comp(e) => lemma_comp_kept(e, b),
        CondV::And(l, r) => {
            lemma_cond_kept(*l, b);
            lemma_cond_kept(*r, cond_code(*l, b).unwrap().1);
        },
        CondV::Or(l, r) => {
            lemma_cond_kept(*l, b);
            lemma_cond_kept(*r, cond_code(*l, b).unwrap().1);
        },
    }
}

/// Compiling a statement keeps the number of scopes and never lowers the
/// label counter.
#[verifier::spinoff_prover]
#[verifier::rlimit(100)]
pub proof fn law_stmt_kept(s: StmtV, b: StackV)
    requires
        stmt_code(s, b) is Some,
    ensures
        kept(b, stmt_code(s, b).unwrap().1),
    decreases s, 2int, 0int,
{
    match s {
        StmtV::Assign(n, ind, e) => {
            lemma_lval_place_kept(n, ind, None, b);
            let (il, lv, cm, b1) = lval_place_code(n, ind, None, b).unwrap();
            let (qv, b2) = get_ref(lv, b1).unwrap();
            lemma_expr_kept(e, Some(qv), b2);
        },
        StmtV::Expr(e) => lemma_expr_kept(e, None, b),
        StmtV::Block(items) => {
            let b1 = stack_block_enter(b).unwrap();
            law_items_kept(items, items.len() as int, b1);
        },
        StmtV::If(c, l, r) => {
            lemma_cond_kept(c, b);
            let b1 = cond_code(c, b).unwrap().1;
            law_stmt_kept(*l, b1);
            let b2 = stmt_code(*l, b1).unwrap().1;
            let b4 = get_lab(seg_lab(stmt_code(*l, b1).unwrap().0, b2).unwrap().2).unwrap().1;
            match r {
                None => {},
                Some(t) => law_stmt_kept(*t, b4),
            }
        },
        StmtV::While(c, body) => {
            lemma_cond_kept(c, b);
            let (cs0, b1) = cond_code(c, b).unwrap();
            let b2 = seg_lab(cs0, b1).unwrap().2;
            law_stmt_kept(*body, b2);
        },
        StmtV::Ret(e) => if !(e is Nil) {
            lemma_expr_kept(e, None, b);
        },
        _ => {},
    }
}

/// Compiling the first `k` items of a block keeps the number of scopes and
/// never lowers the label counter.
pub proof fn law_items_kept(items: Seq<ItemV>, k: int, b: StackV)
    requires
        items_code(items, k, b) is Some,
    ensures
        kept(b, items_code(items, k, b).unwrap().1),
    decreases items, 1int, k,
{
    if !(k <= 0 || k > items.len()) {
        law_items_kept(items, k - 1, b);
        let b1 = items_code(items, k - 1, b).unwrap().1;
        assert(item_code(items[k - 1], b1) is Some);
        match items[k - 1] {
            ItemV::Decl(d) => lemma_vars_kept(d.vars, d.vars.len() as int, b1),
            ItemV::Stmt(st) => law_stmt_kept(*st, b1),
        }
    }
}

/// Compiling a unit keeps the number of scopes and never lowers the label
/// counter: a function's scope is gone when its code is done.
pub proof fn law_unit_kept(u: UnitV, b: StackV)
    requires
        unit_code(u, b) is Some,
    ensures
        kept(b, unit_code(u, b).unwrap().1),
{
    match u {
        UnitV::Decl(d) => lemma_vars_kept(d.vars, d.vars.len() as int, b),
        UnitV::Func(f) => {
            let b1 = stack_enter(b).unwrap();
            lemma_params_reg_kept(f.param, f.param.len() as int, b1);
            let b2 = params_reg(f.param, f.param.len() as int, b1).unwrap();
            law_items_kept(f.body, f.body.len() as int, b2);
        },
    }
}

// ---------------------------------------------------------------------
// Labels.

/// The labels placed in `s` are in `[lo, hi)`, and none is placed twice.
pub open spec fn labels_fresh(s: Seq<InstV>, lo: int, hi: int) -> bool {
    &&& forall|p: int| 0 <= p < s.len() && (#[trigger] s[p]) is Label ==> lo <= s[p]->Label_0 < hi
    &&& forall|p: int, q: int|
        0 <= p < q < s.len() && (#[trigger] s[p]) is Label && (#[trigger] s[q]) is Label ==> s[p]->Label_0 != s[q]->Label_0
}

/// `s` places no label.
pub open spec fn no_labels(s: Seq<InstV>) -> bool {
    forall|p: int| 0 <= p < s.len() ==> !((#[trigger] s[p]) is Label)
}

proof fn lemma_no_labels_cat(a: Seq<InstV>, b: Seq<InstV>)
    requires
        no_labels(a),
        no_labels(b),
    ensures
        no_labels(a + b),
{
    assert forall|p: int| 0 <= p < (a + b).len() implies !((#[trigger] (a + b)[p]) is Label) by {
        if p < a.len() {
            assert((a + b)[p] == a[p]);
        } else {
            assert((a + b)[p] == b[p - a.len()]);
        }
    }
}

proof fn lemma_no_labels_push(a: Seq<InstV>, x: InstV)
    requires
        no_labels(a),
        !(x is Label),
    ensures
        no_labels(a.push(x)),
{
    assert forall|p: int| 0 <= p < a.push(x).len() implies !((#[trigger] a.push(x)[p]) is Label) by {
        if p < a.len() {
            assert(a.push(x)[p] == a[p]);
        }
    }
}

proof fn lemma_fresh_cat(a: Seq<InstV>, b: Seq<InstV>, lo: int, mid: int, hi: int)
    requires
        labels_fresh(a, lo, mid),
        labels_fresh(b, mid, hi),
        lo <= mid <= hi,
    ensures
        labels_fresh(a + b, lo, hi),
{
    let c = a + b;
    assert forall|p: int| 0 <= p < c.len() && (#[trigger] c[p]) is Label implies lo <= c[p]->Label_0 < hi by {
        if p < a.len() {
            assert(c[p] == a[p]);
        } else {
            assert(c[p] == b[p - a.len()]);
        }
    }
    assert forall|p: int, q: int| 0 <= p < q < c.len() && (#[trigger] c[p]) is Label && (#[trigger] c[q]) is Label implies c[p]->Label_0 != c[q]->Label_0 by {
        if q < a.len() {
            assert(c[p] == a[p]);
            assert(c[q] == a[q]);
        } else if p >= a.len() {
            assert(c[p] == b[p - a.len()]);
            assert(c[q] == b[q - a.len()]);
        } else {
            assert(c[p] == a[p]);
            assert(c[q] == b[q - a.len()]);
        }
    }
}

proof fn lemma_fresh_widen(s: Seq<InstV>, lo: int, hi: int, lo2: int, hi2: int)
    requires
        labels_fresh(s, lo, hi),
        lo2 <= lo,
        hi <= hi2,
    ensures
        labels_fresh(s, lo2, hi2),
{
}

proof fn lemma_fresh_push(s: Seq<InstV>, x: InstV, lo: int, hi: int)
    requires
        labels_fresh(s, lo, hi),
        !(x is Label),
    ensures
        labels_fresh(s.push(x), lo, hi),
{
    assert(s.push(x) =~= s + seq![x]);
    assert forall|p: int| 0 <= p < s.push(x).len() && (#[trigger] s.push(x)[p]) is Label implies lo <= s.push(x)[p]->Label_0 < hi by {
        assert(s.push(x)[p] == s[p]);
    }
    assert forall|p: int, q: int| 0 <= p < q < s.push(x).len() && (#[trigger] s.push(x)[p]) is Label && (#[trigger] s.push(x)[q]) is Label
        implies s.push(x)[p]->Label_0 != s.push(x)[q]->Label_0 by {
        assert(s.push(x)[p] == s[p]);
        assert(s.push(x)[q] == s[q]);
    }
}

proof fn lemma_fresh_push_label(s: Seq<InstV>, l: i32, lo: int, hi: int)
    requires
        labels_fresh(s, lo, hi),
        lo <= hi <= l,
    ensures
        labels_fresh(s.push(InstV::Label(l)), lo, l + 1),
{
    lemma_fresh_widen(s, lo, hi, lo, l as int);
    assert(labels_fresh(seq![InstV::Label(l)], l as int, l + 1));
    assert(s.push(InstV::Label(l)) =~= s + seq![InstV::Label(l)]);
    lemma_fresh_cat(s, seq![InstV::Label(l)], lo, l as int, l + 1);
}

/// Filling a list changes no label.
proof fn lemma_fresh_fill(s: SegV, k: int, lab: i32, lo: int, hi: int)
    requires
        labels_fresh(s.ins, lo, hi),
    ensures
        labels_fresh(seg_fill(s, k, lab).ins, lo, hi),
{
    let r = seg_fill(s, k, lab).ins;
    assert forall|p: int| 0 <= p < r.len() implies ((#[trigger] r[p]) is Label) == (s.ins[p] is Label)
        && (r[p] is Label ==> r[p]->Label_0 == s.ins[p]->Label_0) by {
    }
    assert forall|p: int, q: int| 0 <= p < q < r.len() && (#[trigger] r[p]) is Label && (#[trigger] r[q]) is Label implies r[p]->Label_0 != r[q]->Label_0 by {
        assert(s.ins[p] is Label && s.ins[q] is Label);
    }
}

proof fn lemma_fresh_lab(s: SegV, b: StackV, lo: int)
    requires
        seg_lab(s, b) is Some,
        labels_fresh(s.ins, lo, b.lab as int),
        lo <= b.lab,
    ensures
        labels_fresh(seg_lab(s, b).unwrap().0.ins, lo, b.lab + 1),
        seg_lab(s, b).unwrap().1 == b.lab,
        seg_lab(s, b).unwrap().2.lab == b.lab + 1,
{
    let l = b.lab;
    assert(seg_cat(seg_from(seq![InstV::Label(l)]), s).ins == seq![InstV::Label(l)] + s.ins);
    assert forall|p: int| 0 <= p < (seq![InstV::Label(l)] + s.ins).len() && (#[trigger] (seq![InstV::Label(l)] + s.ins)[p]) is Label
        implies lo <= (seq![InstV::Label(l)] + s.ins)[p]->Label_0 < l + 1 by {
        if p > 0 {
            assert((seq![InstV::Label(l)] + s.ins)[p] == s.ins[p - 1]);
        }
    }
    let c = seq![InstV::Label(l)] + s.ins;
    assert forall|p: int, q: int| 0 <= p < q < c.len() && (#[trigger] c[p]) is Label && (#[trigger] c[q]) is Label implies c[p]->Label_0 != c[q]->Label_0 by {
        assert(c[q] == s.ins[q - 1]);
        if p > 0 {
            assert(c[p] == s.ins[p - 1]);
        }
    }
}

proof fn lemma_expr_nolab(e: ExprV, a: Option<Var>, b: StackV)
    requires
        expr_code(e, a, b) is Some,
    ensures
        no_labels(expr_code(e, a, b).unwrap().0),
    decreases e, 4int,
{
    if a is None && e is Nil {
    } else if a is None && e is Num {
    } else if a is None && e is LVal && e->LVal_1.len() == 0 && stack_find(b.st, e->LVal_0) is Some {
    } else {
        let (av, b1) = target(a, b).unwrap();
        match e {
            ExprV::FnCall(f, ps) => {
                lemma_params_nolab(ps, b1);
                lemma_no_labels_push(params_code(ps, b1).unwrap().0, InstV::CallFn(av, f));
            },
            ExprV::LVal(n, ind) => lemma_lval_value_nolab(n, ind, Some(av), b1),
            ExprV::Op(u, o, v) => {
                lemma_expr_nolab(*u, None, b1);
                let (uu, su, b2) = expr_code(*u, None, b1).unwrap();
                lemma_expr_nolab(*v, None, b2);
                let (vv, sv, b3) = expr_code(*v, None, b2).unwrap();
                lemma_no_labels_cat(uu, vv);
                lemma_no_labels_push(uu + vv, InstV::Cpt(av, su, oper_ee(o), sv));
            },
            ExprV::UOp(o, v) => {
                lemma_expr_nolab(*v, None, b1);
                let (vv, sv, b2) = expr_code(*v, None, b1).unwrap();
                lemma_no_labels_push(vv, InstV::UCpt(av, UOper::Neg, sv));
                lemma_no_labels_push(vv, InstV::UCpt(av, UOper::Not, sv));
            },
            _ => {},
        }
    }
}

proof fn lemma_params_nolab(ps: Seq<ExprV>, b: StackV)
    requires
        params_code(ps, b) is Some,
    ensures
        no_labels(params_code(ps, b).unwrap().0),
    decreases ps, 3int,
{
    if ps.len() > 0 {
        lemma_expr_nolab(ps[0], None, b);
        let (z, r, b1) = expr_code(ps[0], None, b).unwrap();
        lemma_params_nolab(ps.subrange(1, ps.len() as int), b1);
        lemma_no_labels_push(z, InstV::Param(r));
        lemma_no_labels_cat(z.push(InstV::Param(r)), params_code(ps.subrange(1, ps.len() as int), b1).unwrap().0);
    }
}

proof fn lemma_lval_value_nolab(n: Seq<char>, ind: Seq<ExprV>, a: Option<Var>, b: StackV)
    requires
        lval_value_code(n, ind, a, b) is Some,
    ensures
        no_labels(lval_value_code(n, ind, a, b).unwrap().0),
    decreases ind, 3int,
{
    lemma_lval_place_nolab(n, ind, a, b);
    let (v, l, t, b1) = lval_place_code(n, ind, a, b).unwrap();
    match l {
        LVal::SymA(vr, off) => {
            let re = reg_tmp(b1).unwrap().0;
            lemma_no_labels_push(v, InstV::Take(re, vr, off));
            lemma_no_labels_push(v, InstV::Cpt(re, RVal::Sym(vr), Oper::Add, off));
        },
        _ => {},
    }
}

proof fn lemma_lval_place_nolab(n: Seq<char>, ind: Seq<ExprV>, a: Option<Var>, b: StackV)
    requires
        lval_place_code(n, ind, a, b) is Some,
    ensures
        no_labels(lval_place_code(n, ind, a, b).unwrap().0),
    decreases ind, 2int,
{
    let meta = stack_find(b.st, n).unwrap();
    lemma_place_nolab(meta.vdef, meta.dim, ind, b);
    let (v, q, b1) = place_code(meta.vdef, meta.dim, ind, b).unwrap();
    match (a, q) {
        (Some(x), LVal::Sym(t)) => lemma_no_labels_push(v, InstV::Ass(LVal::Sym(x), RVal::Sym(t))),
        (Some(x), LVal::SymA(t, i)) => {
            lemma_no_labels_push(v, InstV::Take(x, t, i));
            lemma_no_labels_push(v, InstV::Cpt(x, RVal::Sym(t), Oper::Add, i));
        },
        _ => {},
    }
}

proof fn lemma_place_nolab(v: Var, dim: Seq<i32>, ind: Seq<ExprV>, b: StackV)
    requires
        place_code(v, dim, ind, b) is Some,
    ensures
        no_labels(place_code(v, dim, ind, b).unwrap().0),
    decreases ind, 1int,
{
    if dim.len() > 1 {
        lemma_offset_nolab(dim.subrange(1, dim.len() as int), ind, b);
    }
}

proof fn lemma_offset_nolab(dim: Seq<i32>, ind: Seq<ExprV>, b: StackV)
    requires
        offset_code(dim, ind, b) is Some,
    ensures
        no_labels(offset_code(dim, ind, b).unwrap().0),
    decreases ind, 0int,
{
    if ind.len() > 0 {
        let d1 = dim.subrange(1, dim.len() as int);
        let i1 = ind.subrange(1, ind.len() as int);
        lemma_offset_nolab(d1, i1, b);
        let (w, rb, b1) = offset_code(d1, i1, b).unwrap();
        lemma_expr_nolab(ind[0], None, b1);
        let (ov, or, b2) = expr_code(ind[0], None, b1).unwrap();
        let (c, b3) = reg_tmp(b2).unwrap();
        let mult = (dim[0] * 4) as i32;
        lemma_no_labels_cat(w, ov);
        lemma_no_labels_push(w + ov, InstV::Cpt(c, or, Oper::Mul, RVal::Int(mult)));
        if rb != RVal::Int(0) {
            let d = reg_tmp(b3).unwrap().0;
            lemma_no_labels_push((w + ov).push(InstV::Cpt(c, or, Oper::Mul, RVal::Int(mult))), InstV::Cpt(d, RVal::Sym(c), Oper::Add, rb));
        }
    }
}

proof fn lemma_store_nolab(e: ExprV, a: LVal, b: StackV)
    requires
        expr_store_code(e, a, b) is Some,
    ensures
        no_labels(expr_store_code(e, a, b).unwrap().0),
{
    match e {
        ExprV::Nil => {},
        ExprV::Num(_) => {},
        _ => {
            let (ax, b1) = get_ref(a, b).unwrap();
            lemma_expr_nolab(e, Some(ax), b1);
            let uu = expr_code(e, Some(ax), b1).unwrap().0;
            lemma_no_labels_push(uu, InstV::Ass(a, RVal::Sym(ax)));
        },
    }
}

proof fn lemma_init_nolab(c: InitEV, a: Var, off: i32, dim: Seq<i32>, b: StackV)
    requires
        init_code(c, a, off, dim, b) is Some,
    ensures
        no_labels(init_code(c, a, off, dim, b).unwrap().0),
    decreases c, 1int, 0int,
{
    match c {
        InitEV::Val(e) => lemma_store_nolab(e, LVal::SymA(a, RVal::Int(off)), b),
        InitEV::Vax(items) => lemma_init_items_nolab(items, a, off, dim, items.len() as int, b),
    }
}

proof fn lemma_init_items_nolab(items: Seq<InitEV>, a: Var, off: i32, dim: Seq<i32>, k: int, b: StackV)
    requires
        init_items_code(items, a, off, dim, k, b) is Some,
    ensures
        no_labels(init_items_code(items, a, off, dim, k, b).unwrap().0),
    decreases items, 0int, k,
{
    if !(k <= 0 || dim.len() < 2 || k > items.len()) {
        lemma_init_items_nolab(items, a, off, dim, k - 1, b);
        let (vx, ptr, b1) = init_items_code(items, a, off, dim, k - 1, b).unwrap();
        let it = items[k - 1];
        let p = if it is Val { ptr } else { pad(ptr, dim[1]).unwrap() };
        lemma_init_nolab(it, a, (off + p * 4) as i32, dim.subrange(1, dim.len() as int), b1);
        lemma_no_labels_cat(vx, init_code(it, a, (off + p * 4) as i32, dim.subrange(1, dim.len() as int), b1).unwrap().0);
    }
}

proof fn lemma_var_decl_nolab(d: VarDeclV, b: StackV)
    requires
        var_decl_code(d, b) is Some,
    ensures
        no_labels(var_decl_code(d, b).unwrap().0.ins),
{
    let dims = dims_of(d.dims);
    let (v, b1) = reg_loc(b, d.name, strides(dims)).unwrap();
    let c = match d.init {
        VarInitV::E(t) => int_to_expr_init(t),
        VarInitV::I(c) => c,
        VarInitV::Nil => InitEV::Vax(Seq::empty()),
    };
    if !(d.init is Nil) {
        if strides(dims).len() == 1 {
            if let InitEV::Val(e) = c {
                lemma_store_nolab(e, LVal::Sym(v), b1);
            }
        } else {
            lemma_init_nolab(c, v, 0, strides(dims), b1);
        }
    }
}

proof fn lemma_vars_nolab(vs: Seq<VarDeclV>, k: int, b: StackV)
    requires
        vars_code(vs, k, b) is Some,
    ensures
        no_labels(vars_code(vs, k, b).unwrap().0.ins),
    decreases k,
{
    if !(k <= 0 || k > vs.len()) {
        lemma_vars_nolab(vs, k - 1, b);
        let (acc, b1) = vars_code(vs, k - 1, b).unwrap();
        lemma_var_decl_nolab(vs[k - 1], b1);
        lemma_no_labels_cat(acc.ins, var_decl_code(vs[k - 1], b1).unwrap().0.ins);
    }
}

proof fn lemma_fresh_push_label_below(s: Seq<InstV>, l: i32, lo: int, hi: int)
    requires
        labels_fresh(s, lo, hi),
        l < lo <= hi,
    ensures
        labels_fresh(s.push(InstV::Label(l)), l as int, hi),
{
    let t = s.push(InstV::Label(l));
    assert forall|p: int| 0 <= p < t.len() && (#[trigger] t[p]) is Label implies l <= t[p]->Label_0 < hi by {
        if p < s.len() {
            assert(t[p] == s[p]);
        }
    }
    assert forall|p: int, q: int| 0 <= p < q < t.len() && (#[trigger] t[p]) is Label && (#[trigger] t[q]) is Label implies t[p]->Label_0 != t[q]->Label_0 by {
        assert(t[p] == s[p]);
        if q < s.len() {
            assert(t[q] == s[q]);
        }
    }
}

proof fn lemma_comp_labels(e: ExprV, b: StackV)
    requires
        comp_code(e, b) is Some,
    ensures
        no_labels(comp_code(e, b).unwrap().0.ins),
{
    if e is Op && oper_is_co(e->Op_1) {
        lemma_expr_nolab(*e->Op_0, None, b);
        let (ls, l, b1) = expr_code(*e->Op_0, None, b).unwrap();
        lemma_expr_nolab(*e->Op_2, None, b1);
        let (rs, r, b2) = expr_code(*e->Op_2, None, b1).unwrap();
        lemma_no_labels_cat(ls, rs);
        lemma_no_labels_push(ls + rs, InstV::Brch(l, oper_ee(e->Op_1), r, -1i32));
        lemma_no_labels_push((ls + rs).push(InstV::Brch(l, oper_ee(e->Op_1), r, -1i32)), InstV::Jump(-1i32));
    } else {
        lemma_expr_nolab(e, None, b);
        let (zs, q, b1) = expr_code(e, None, b).unwrap();
        lemma_no_labels_push(zs, InstV::Brch(RVal::Int(0), Oper::Ne, q, -1i32));
        lemma_no_labels_push(zs.push(InstV::Brch(RVal::Int(0), Oper::Ne, q, -1i32)), InstV::Jump(-1i32));
    }
}

proof fn lemma_cond_labels(c: CondV, b: StackV)
    requires
        cond_code(c, b) is Some,
    ensures
        labels_fresh(cond_code(c, b).unwrap().0.ins, b.lab as int, cond_code(c, b).unwrap().1.lab as int),
    decreases c,
{
    lemma_cond_kept(c, b);
    match c {
        CondV::Comp(e) => lemma_comp_labels(e, b),
        CondV::And(l, r) => {
            lemma_cond_labels(*l, b);
            lemma_cond_kept(*l, b);
            let (ls, b1) = cond_code(*l, b).unwrap();
            lemma_cond_labels(*r, b1);
            lemma_cond_kept(*r, b1);
            let (rs0, b2) = cond_code(*r, b1).unwrap();
            lemma_fresh_lab(rs0, b2, b1.lab as int);
            let (rs, rl, b3) = seg_lab(rs0, b2).unwrap();
            lemma_fresh_fill(ls, 0, rl, b.lab as int, b1.lab as int);
            lemma_fresh_cat(seg_fill(ls, 0, rl).ins, rs.ins, b.lab as int, b1.lab as int, b3.lab as int);
        },
        CondV::Or(l, r) => {
            lemma_cond_labels(*l, b);
            lemma_cond_kept(*l, b);
            let (ls, b1) = cond_code(*l, b).unwrap();
            lemma_cond_labels(*r, b1);
            lemma_cond_kept(*r, b1);
            let (rs0, b2) = cond_code(*r, b1).unwrap();
            lemma_fresh_lab(rs0, b2, b1.lab as int);
            let (rs, rl, b3) = seg_lab(rs0, b2).unwrap();
            lemma_fresh_fill(ls, 1, rl, b.lab as int, b1.lab as int);
            lemma_fresh_cat(seg_fill(ls, 1, rl).ins, rs.ins, b.lab as int, b1.lab as int, b3.lab as int);
        },
    }
}

/// The labels placed by a statement are new: from the label counter before
/// it up to the counter after it, each placed once.
#[verifier::spinoff_prover]
pub proof fn law_stmt_labels(s: StmtV, b: StackV)
    requires
        stmt_code(s, b) is Some,
    ensures
        labels_fresh(stmt_code(s, b).unwrap().0.ins, b.lab as int, stmt_code(s, b).unwrap().1.lab as int),
    decreases s, 2int, 0int,
{
    law_stmt_kept(s, b);
    match s {
        StmtV::Assign(n, ind, e) => {
            lemma_lval_place_nolab(n, ind, None, b);
            let (il, lv, cm, b1) = lval_place_code(n, ind, None, b).unwrap();
            let (qv, b2) = get_ref(lv, b1).unwrap();
            lemma_expr_nolab(e, Some(qv), b2);
            let ins = expr_code(e, Some(qv), b2).unwrap().0;
            lemma_no_labels_push(ins, InstV::Ass(lv, RVal::Sym(qv)));
            lemma_no_labels_cat(il, store_to(lv, qv, ins));
        },
        StmtV::Expr(e) => lemma_expr_nolab(e, None, b),
        StmtV::Block(items) => {
            let b1 = stack_block_enter(b).unwrap();
            law_items_kept(items, items.len() as int, b1);
            law_items_labels(items, items.len() as int, b1);
        },
        StmtV::If(_, _, _) => lemma_if_labels(s, b),
        StmtV::While(_, _) => lemma_while_labels(s, b),
        StmtV::Break => {
            lemma_no_labels_push(Seq::<InstV>::empty(), InstV::Jump(-1i32));
        },
        StmtV::Continue => {
            lemma_no_labels_push(Seq::<InstV>::empty(), InstV::Jump(-1i32));
        },
        StmtV::Ret(e) => if !(e is Nil) {
            lemma_expr_nolab(e, None, b);
            let (i, c, b1) = expr_code(e, None, b).unwrap();
            lemma_no_labels_push(i, InstV::Return(c));
        },
    }
}

#[verifier::spinoff_prover]
#[verifier::rlimit(50)]
proof fn lemma_if_labels(s: StmtV, b: StackV)
    requires
        s is If,
        stmt_code(s, b) is Some,
    ensures
        labels_fresh(stmt_code(s, b).unwrap().0.ins, b.lab as int, stmt_code(s, b).unwrap().1.lab as int),
    decreases s, 1int, 0int,
{
    let c = s->If_0;
    let l = s->If_1;
    let r = s->If_2;
    lemma_cond_labels(c, b);
    lemma_cond_kept(c, b);
    let (cs, b1) = cond_code(c, b).unwrap();
    law_stmt_labels(*l, b1);
    law_stmt_kept(*l, b1);
    let (ls0, b2) = stmt_code(*l, b1).unwrap();
    lemma_fresh_lab(ls0, b2, b1.lab as int);
    let (ls, tlab, b3) = seg_lab(ls0, b2).unwrap();
    let (qlab, b4) = get_lab(b3).unwrap();
    match r {
        None => {
            let rs = seg_push(seg_new(), InstV::Label(qlab));
            assert(rs.ins =~= seq![InstV::Label(qlab)]);
            assert(labels_fresh(rs.ins, b3.lab as int, b4.lab as int));
            let cs2 = seg_fill(seg_fill(cs, 0, tlab), 1, qlab);
            lemma_fresh_fill(cs, 0, tlab, b.lab as int, b1.lab as int);
            lemma_fresh_fill(seg_fill(cs, 0, tlab), 1, qlab, b.lab as int, b1.lab as int);
            lemma_fresh_cat(cs2.ins, ls.ins, b.lab as int, b1.lab as int, b3.lab as int);
            lemma_fresh_cat(cs2.ins + ls.ins, rs.ins, b.lab as int, b3.lab as int, b4.lab as int);
            assert(seg_cat(seg_cat(cs2, ls), rs).ins == cs2.ins + ls.ins + rs.ins);
        },
        Some(t) => {
            law_stmt_labels(*t, b4);
            law_stmt_kept(*t, b4);
            let (u0, b5) = stmt_code(*t, b4).unwrap();
            lemma_fresh_lab(u0, b5, b4.lab as int);
            let (u, flab, b6) = seg_lab(u0, b5).unwrap();
            lemma_fresh_push_label_below(u.ins, qlab, b4.lab as int, b6.lab as int);
            let rs = seg_push(u, InstV::Label(qlab));
            let ls2 = seg_push(ls, InstV::Jump(qlab));
            lemma_fresh_push(ls.ins, InstV::Jump(qlab), b1.lab as int, b3.lab as int);
            let cs2 = seg_fill(seg_fill(cs, 0, tlab), 1, flab);
            lemma_fresh_fill(cs, 0, tlab, b.lab as int, b1.lab as int);
            lemma_fresh_fill(seg_fill(cs, 0, tlab), 1, flab, b.lab as int, b1.lab as int);
            lemma_fresh_cat(cs2.ins, ls2.ins, b.lab as int, b1.lab as int, b3.lab as int);
            lemma_fresh_cat(cs2.ins + ls2.ins, rs.ins, b.lab as int, b3.lab as int, b6.lab as int);
            assert(seg_cat(seg_cat(cs2, ls2), rs).ins == cs2.ins + ls2.ins + rs.ins);
        },
    }
}

#[verifier::spinoff_prover]
#[verifier::rlimit(50)]
proof fn lemma_while_labels(s: StmtV, b: StackV)
    requires
        s is While,
        stmt_code(s, b) is Some,
    ensures
        labels_fresh(stmt_code(s, b).unwrap().0.ins, b.lab as int, stmt_code(s, b).unwrap().1.lab as int),
    decreases s, 1int, 0int,
{
    let c = s->While_0;
    let body = s->While_1;
    lemma_cond_labels(c, b);
    lemma_cond_kept(c, b);
    let (cs0, b1) = cond_code(c, b).unwrap();
    lemma_fresh_lab(cs0, b1, b.lab as int);
    let (cs, cl, b2) = seg_lab(cs0, b1).unwrap();
    law_stmt_labels(*body, b2);
    law_stmt_kept(*body, b2);
    let (ss0, b3) = stmt_code(*body, b2).unwrap();
    lemma_fresh_lab(ss0, b3, b2.lab as int);
    let (ss, sl, b4) = seg_lab(ss0, b3).unwrap();
    let (q, b5) = get_lab(b4).unwrap();
    let ss1 = seg_push(seg_push(ss, InstV::Jump(cl)), InstV::Label(q));
    lemma_fresh_push(ss.ins, InstV::Jump(cl), b2.lab as int, b4.lab as int);
    lemma_fresh_push_label(ss.ins.push(InstV::Jump(cl)), q, b2.lab as int, b4.lab as int);
    let ss2 = seg_fill(seg_fill(ss1, 2, q), 3, cl);
    lemma_fresh_fill(ss1, 2, q, b2.lab as int, b5.lab as int);
    lemma_fresh_fill(seg_fill(ss1, 2, q), 3, cl, b2.lab as int, b5.lab as int);
    let cs2 = seg_fill(seg_fill(cs, 0, sl), 1, q);
    lemma_fresh_fill(cs, 0, sl, b.lab as int, b2.lab as int);
    lemma_fresh_fill(seg_fill(cs, 0, sl), 1, q, b.lab as int, b2.lab as int);
    lemma_fresh_cat(cs2.ins, ss2.ins, b.lab as int, b2.lab as int, b5.lab as int);
}

/// The labels placed by the first `k` items of a block are new and each is
/// placed once.
pub proof fn law_items_labels(items: Seq<ItemV>, k: int, b: StackV)
    requires
        items_code(items, k, b) is Some,
    ensures
        labels_fresh(items_code(items, k, b).unwrap().0.ins, b.lab as int, items_code(items, k, b).unwrap().1.lab as int),
    decreases items, 1int, k,
{
    law_items_kept(items, k, b);
    if !(k <= 0 || k > items.len()) {
        law_items_labels(items, k - 1, b);
        law_items_kept(items, k - 1, b);
        let (acc, b1) = items_code(items, k - 1, b).unwrap();
        assert(item_code(items[k - 1], b1) is Some);
        match items[k - 1] {
            ItemV::Decl(d) => {
                lemma_vars_nolab(d.vars, d.vars.len() as int, b1);
                lemma_vars_kept(d.vars, d.vars.len() as int, b1);
            },
            ItemV::Stmt(st) => {
                law_stmt_labels(*st, b1);
                law_stmt_kept(*st, b1);
            },
        }
        let (x, b2) = item_code(items[k - 1], b1).unwrap();
        lemma_fresh_cat(acc.ins, x.ins, b.lab as int, b1.lab as int, b2.lab as int);
    } else {
        assert(seg_new().ins =~= Seq::<InstV>::empty());
    }
}

proof fn lemma_map_dump_nolab(map: Seq<(Seq<char>, VmetaV)>)
    ensures
        no_labels(map_dump(map)),
    decreases map.len(),
{
    if map.len() > 0 {
        lemma_map_dump_nolab(map.drop_last());
        let tail = match vmeta_dump(map.last().1) {
            Some(i) => seq![i],
            None => Seq::<InstV>::empty(),
        };
        assert(no_labels(tail));
        lemma_no_labels_cat(map_dump(map.drop_last()), tail);
    }
}

proof fn lemma_dump_nolab(f: FScopeV)
    ensures
        no_labels(fscope_dump(f)),
{
    lemma_map_dump_nolab(f.map);
    lemma_map_dump_nolab(f.blocks);
    let t = Seq::new(if f.temp >= 0 { f.temp as nat } else { 0 }, |x: int| InstV::DI(Var(VarUsage::Temp, x as i32)));
    assert(no_labels(t));
    lemma_no_labels_cat(map_dump(f.map), map_dump(f.blocks));
    lemma_no_labels_cat(map_dump(f.map) + map_dump(f.blocks), t);
}

/// The labels placed by a unit are new and each is placed once.
pub proof fn law_unit_labels(u: UnitV, b: StackV)
    requires
        unit_code(u, b) is Some,
    ensures
        labels_fresh(unit_code(u, b).unwrap().0.ins, b.lab as int, unit_code(u, b).unwrap().1.lab as int),
{
    law_unit_kept(u, b);
    match u {
        UnitV::Decl(d) => lemma_vars_nolab(d.vars, d.vars.len() as int, b),
        UnitV::Func(f) => {
            let b1 = stack_enter(b).unwrap();
            lemma_params_reg_kept(f.param, f.param.len() as int, b1);
            let b2 = params_reg(f.param, f.param.len() as int, b1).unwrap();
            law_items_labels(f.body, f.body.len() as int, b2);
            law_items_kept(f.body, f.body.len() as int, b2);
            let (body, b3) = items_code(f.body, f.body.len() as int, b2).unwrap();
            let (r, b4) = stack_exit(b3).unwrap();
            assert(b1.lab == b.lab);
            let head = seq![InstV::Fn(f.name, f.param.len() as i32)] + fscope_dump(r);
            lemma_dump_nolab(r);
            assert(no_labels(seq![InstV::Fn(f.name, f.param.len() as i32)]));
            lemma_no_labels_cat(seq![InstV::Fn(f.name, f.param.len() as i32)], fscope_dump(r));
            lemma_fresh_push(body.ins, InstV::FnE(f.name), b2.lab as int, b3.lab as int);
            lemma_fresh_cat(head, body.ins.push(InstV::FnE(f.name)), b.lab as int, b2.lab as int, b3.lab as int);
        },
    }
}

proof fn lemma_units_labels(us: Seq<UnitV>, k: int, b: StackV)
    requires
        units_code(us, k, b) is Some,
    ensures
        labels_fresh(units_code(us, k, b).unwrap().0.ins, b.lab as int, units_code(us, k, b).unwrap().1.lab as int),
        kept(b, units_code(us, k, b).unwrap().1),
    decreases k,
{
    if !(k <= 0 || k > us.len()) {
        lemma_units_labels(us, k - 1, b);
        let (acc, b1) = units_code(us, k - 1, b).unwrap();
        law_unit_labels(us[k - 1], b1);
        law_unit_kept(us[k - 1], b1);
        let (x, b2) = unit_code(us[k - 1], b1).unwrap();
        lemma_fresh_cat(acc.ins, x.ins, b.lab as int, b1.lab as int, b2.lab as int);
    } else {
        assert(seg_new().ins =~= Seq::<InstV>::empty());
    }
}

/// In the code of a program, every label is at least 0 and none is placed
/// twice.
pub proof fn law_program_labels(us: Seq<UnitV>)
    requires
        program_code(us) is Some,
    ensures
        labels_fresh(program_code(us).unwrap().ins, 0, 0x8000_0000),
{
    lemma_units_labels(us, us.len() as int, stack_new());
    let (rseg, b1) = units_code(us, us.len() as int, stack_new()).unwrap();
    let (g, b2) = stack_exit(b1).unwrap();
    lemma_dump_nolab(g);
    lemma_fresh_cat(fscope_dump(g), rseg.ins, 0, 0, b1.lab as int);
    lemma_fresh_widen(fscope_dump(g) + rseg.ins, 0, b1.lab as int, 0, 0x8000_0000);
}

} // verus!
