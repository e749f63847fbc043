//! Evaluation of constants: values of constant variables and arrays,
//! reshaping of initializer lists, and constant folding of the syntax tree.
use vstd::prelude::*;
use crate::sysY::ast::{
    CompUnit, DeclType, UOper, Oper, Decl, VarDecl, Exp, VarInit, InitCont, ValueType, Func,
    BlockItem, Block, Stmt, LVal, Expr, CondExpr, ExprV, CondV, InitEV, InitIV, VarInitV, VarDeclV,
    DeclV, StmtV, ItemV, FuncV, UnitV, expr_view, exprs_view, cond_view, init_e_view, init_i_view,
    var_init_view, var_decl_view, var_decls_view, decl_view, stmt_view, item_view, items_view,
    func_view, unit_view,
};

verus! {

/// A constant value: an integer or an array of values.
pub enum VR {
    Int(i32),
    Arr(Vec<VR>),
}

/// A constant value as a mathematical tree.
pub enum VRV {
    Int(i32),
    Arr(Seq<VRV>),
}

/// The tree of a value.
pub open spec fn vr_view(v: VR) -> VRV
    decreases v,
{
    match v {
        VR::Int(t) => VRV::Int(t),
        VR::Arr(a) => VRV::Arr(
            Seq::new(a@.len(), |i: int| if 0 <= i < a@.len() { vr_view(a@[i]) } else { VRV::Int(0) }),
        ),
    }
}

/// The trees of a sequence of values.
pub open spec fn views(a: Seq<VR>) -> Seq<VRV> {
    Seq::new(a.len(), |i: int| if 0 <= i < a.len() { vr_view(a[i]) } else { VRV::Int(0) })
}

pub proof fn lemma_view_arr(a: Vec<VR>)
    ensures
        vr_view(VR::Arr(a)) == VRV::Arr(views(a@)),
{
    let w = vr_view(VR::Arr(a));
    assert(w is Arr);
    let s = w->Arr_0;
    assert(s.len() == a@.len());
    assert forall|i: int| 0 <= i < s.len() implies s[i] == views(a@)[i] by {
        assert(s[i] == vr_view(a@[i]));
    }
    assert(s =~= views(a@));
}

/// The element of `v` at index path `ind`; 0 where the path leaves the value.
pub open spec fn vrv_at(v: VRV, ind: Seq<i32>) -> i32
    decreases v, ind.len(),
{
    match v {
        VRV::Int(t) => t,
        VRV::Arr(a) => {
            if ind.len() == 0 {
                0
            } else if (ind[0] as usize) < a.len() {
                vrv_at(a[(ind[0] as usize) as int], ind.drop_first())
            } else {
                0
            }
        },
    }
}

/// The first integer of `v` (0 for an empty array).
pub open spec fn vrv_val(v: VRV) -> i32
    decreases v,
{
    match v {
        VRV::Int(t) => t,
        VRV::Arr(a) => if a.len() > 0 { vrv_val(a[0]) } else { 0 },
    }
}

impl VR {
    fn at_from(&self, ind: &[i32], k: usize) -> (r: i32)
        requires
            k <= ind@.len(),
        ensures
            r == vrv_at(vr_view(*self), ind@.subrange(k as int, ind@.len() as int)),
        decreases *self,
    {
        match self {
            VR::Int(t) => *t,
            VR::Arr(a) => {
                proof { lemma_view_arr(*a); }
                if k < ind.len() {
                    let t = ind[k];
                    let ghost rest = ind@.subrange(k as int, ind@.len() as int);
                    assert(rest[0] == t);
                    assert(rest.drop_first() =~= ind@.subrange(k + 1, ind@.len() as int));
                    if (t as usize) < a.len() {
                        a[t as usize].at_from(ind, k + 1)
                    } else {
                        0
                    }
                } else {
                    0
                }
            },
        }
    }

    /// The element at index path `ind`.
    fn at(&self, ind: &[i32]) -> (r: i32)
        ensures
            r == vrv_at(vr_view(*self), ind@),
    {
        assert(ind@.subrange(0, ind@.len() as int) =~= ind@);
        self.at_from(ind, 0)
    }

    /// The first integer.
    fn val(&self) -> (r: i32)
        ensures
            r == vrv_val(vr_view(*self)),
        decreases *self,
    {
        match self {
            VR::Int(t) => *t,
            VR::Arr(a) => {
                proof { lemma_view_arr(*a); }
                if a.len() > 0 {
                    a[0].val()
                } else {
                    0
                }
            },
        }
    }
}

/// The product of `t[i..]`.
pub open spec fn suffix_prod(t: Seq<i32>, i: int) -> int
    decreases t.len() - i,
{
    if i >= t.len() {
        1
    } else {
        suffix_prod(t, i + 1) * t[i]
    }
}

/// Strides of an array of dimensions `t`: element `i` is the product of
/// `t[i..]`, and a final 1 is appended.
pub fn bmult(t: &Vec<i32>) -> (r: Vec<i32>)
    requires
        forall|i: int| 0 <= i <= t@.len() ==> i32::MIN <= #[trigger] suffix_prod(t@, i) <= i32::MAX,
    ensures
        r@.len() == t@.len() + 1,
        forall|i: int| 0 <= i <= t@.len() ==> r@[i] == suffix_prod(t@, i),
{
    let mut ac: i32 = 1;
    let mut a: Vec<i32> = t.clone();
    let n = a.len();
    let mut i: usize = n;
    assert(a@ =~= t@);
    while i > 0
        invariant
            n == t@.len(),
            a@.len() == n,
            i <= n,
            ac as int == suffix_prod(t@, i as int),
            forall|j: int| 0 <= j < i ==> a@[j] == t@[j],
            forall|j: int| i <= j < n ==> a@[j] == suffix_prod(t@, j),
            forall|i: int| 0 <= i <= t@.len() ==> i32::MIN <= #[trigger] suffix_prod(t@, i) <= i32::MAX,
        decreases i,
    {
        i = i - 1;
        assert(suffix_prod(t@, i as int) == suffix_prod(t@, i + 1) * t@[i as int]);
        ac = ac * a[i];
        a.set(i, ac);
    }
    a.push(1);
    a
}


// ---------------------------------------------------------------------
// Reshaping an initializer list to the shape of an array.
//
// `ind` holds the strides of the array: `ind[0]` elements in all, `ind[1]`
// in each row of the first dimension, and so on down to 1. Integers of a
// list fill rows in order; a nested list starts a new row (closing the
// current partial one) and fills exactly one row.

/// Where reshaping a list stands: elements placed so far, the integers of
/// the current partial row, the rows made, and whether the array is full.
#[verifier::ext_equal]
pub struct RState {
    pub ptr: int,
    pub sub: Seq<VRV>,
    pub thi: Seq<VRV>,
    pub done: bool,
}

/// The state after the first `n` items of a list.
pub open spec fn reshape_loop(items: Seq<VRV>, ind: Seq<i32>, n: int) -> RState
    decreases ind.len(), 0int, n,
{
    if n <= 0 || ind.len() < 2 {
        RState { ptr: 0, sub: Seq::empty(), thi: Seq::empty(), done: false }
    } else {
        let st = reshape_loop(items, ind, n - 1);
        let di = ind[0] as int;
        let im = ind[1] as int;
        let rest = ind.drop_first();
        if st.done {
            st
        } else {
            match items[n - 1] {
                VRV::Int(t) => {
                    let sub = st.sub.push(VRV::Int(t));
                    let ptr = st.ptr + 1;
                    if ptr % im == 0 {
                        RState {
                            ptr: ptr,
                            sub: Seq::empty(),
                            thi: st.thi.push(reshape_v(VRV::Arr(sub), rest)),
                            done: ptr >= di,
                        }
                    } else {
                        RState { ptr: ptr, sub: sub, thi: st.thi, done: false }
                    }
                },
                VRV::Arr(v) => {
                    let (ptr, sub, thi) = if st.ptr % im != 0 {
                        (st.ptr - st.ptr % im + im, Seq::<VRV>::empty(), st.thi.push(reshape_v(VRV::Arr(st.sub), rest)))
                    } else {
                        (st.ptr, st.sub, st.thi)
                    };
                    if ptr >= di {
                        RState { ptr: ptr, sub: sub, thi: thi, done: true }
                    } else {
                        RState {
                            ptr: ptr + im,
                            sub: sub,
                            thi: thi.push(reshape_v(VRV::Arr(v), rest)),
                            done: ptr + im >= di,
                        }
                    }
                },
            }
        }
    }
}

/// `val` reshaped to strides `ind`.
pub open spec fn reshape_v(val: VRV, ind: Seq<i32>) -> VRV
    decreases ind.len(), 1int, 0int,
{
    if ind.len() < 2 {
        VRV::Int(vrv_val(val))
    } else {
        match val {
            VRV::Arr(items) => {
                let st = reshape_loop(items, ind, items.len() as int);
                if st.sub.len() != 0 {
                    VRV::Arr(st.thi.push(reshape_v(VRV::Arr(st.sub), ind.drop_first())))
                } else {
                    VRV::Arr(st.thi)
                }
            },
            VRV::Int(t) => VRV::Arr(seq![VRV::Int(t)]),
        }
    }
}

/// Strides are positive.
pub open spec fn strides_ok(ind: Seq<i32>) -> bool {
    forall|i: int| 0 <= i < ind.len() ==> #[trigger] ind[i] > 0
}


/// Strides of dimensions `dims`.
pub open spec fn strides(dims: Seq<i32>) -> Seq<i32> {
    Seq::new((dims.len() + 1) as nat, |i: int| suffix_prod(dims, i) as i32)
}

/// The products of dimensions fit in an `i32`.
pub open spec fn dims_fit(dims: Seq<i32>) -> bool {
    forall|i: int| 0 <= i <= dims.len() ==> i32::MIN <= #[trigger] suffix_prod(dims, i) <= i32::MAX
}

pub open spec fn dims_positive(dims: Seq<i32>) -> bool {
    forall|i: int| 0 <= i < dims.len() ==> #[trigger] dims[i] > 0
}

proof fn lemma_suffix_prod_positive(dims: Seq<i32>, i: int)
    requires
        dims_positive(dims),
        0 <= i <= dims.len(),
    ensures
        suffix_prod(dims, i) > 0,
    decreases dims.len() - i,
{
    if i < dims.len() {
        lemma_suffix_prod_positive(dims, i + 1);
        let a = suffix_prod(dims, i + 1);
        let b = dims[i] as int;
        assert(a * b > 0) by (nonlinear_arith)
            requires
                a > 0,
                b > 0,
        ;
    }
}

impl VR {
    /// `val` reshaped to the strides `ind[k..]`. The strides are positive:
    /// they are those of an array's dimensions, which SysY requires to be
    /// positive (a zero one would divide by zero), and with positive
    /// strides the remainders taken here are the same in `int` and in `i128`.
    fn int_reshape(val: &VR, ind: &Vec<i32>, k: usize) -> (r: VR)
        requires
            k < ind@.len(),
            strides_ok(ind@.subrange(k as int, ind@.len() as int)),
        ensures
            vr_view(r) == reshape_v(vr_view(*val), ind@.subrange(k as int, ind@.len() as int)),
        decreases ind@.len() - k,
    {
        let ghost sind = ind@.subrange(k as int, ind@.len() as int);
        if ind.len() - k == 1 {
            return VR::Int(val.val());
        }
        let ghost rest = ind@.subrange(k + 1, ind@.len() as int);
        assert(sind.drop_first() =~= rest);
        assert(strides_ok(rest)) by {
            assert forall|i: int| 0 <= i < rest.len() implies #[trigger] rest[i] > 0 by {
                assert(rest[i] == sind[i + 1]);
            }
        }
        assert(sind[0] == ind@[k as int] && sind[1] == ind@[k + 1]);
        let k1: usize = k + 1;
        let di: i128 = ind[k] as i128;
        let im: i128 = ind[k1] as i128;
        assert(di > 0 && im > 0);
        match val {
            VR::Arr(ar) => {
                proof { lemma_view_arr(*ar); }
                let ghost items = views(ar@);
                let mut ptr: i128 = 0;
                let mut sub: Vec<VR> = Vec::new();
                let mut thi: Vec<VR> = Vec::new();
                let mut done = false;
                let mut j: usize = 0;
                assert(reshape_loop(items, sind, 0) =~= (RState { ptr: ptr as int, sub: views(sub@), thi: views(thi@), done }));
                while j < ar.len() && !done
                    invariant
                        j <= ar@.len(),
                        items == views(ar@),
                        k1 == k + 1,
                        k1 < ind@.len(),
                        sind == ind@.subrange(k as int, ind@.len() as int),
                        rest == ind@.subrange(k + 1, ind@.len() as int),
                        sind.drop_first() == rest,
                        strides_ok(rest),
                        di == sind[0],
                        im == sind[1],
                        di > 0,
                        im > 0,
                        di <= i32::MAX,
                        im <= i32::MAX,
                        0 <= ptr <= j * 0x1_0000_0000,
                        reshape_loop(items, sind, j as int) == (RState { ptr: ptr as int, sub: views(sub@), thi: views(thi@), done }),
                    decreases ar@.len() - j,
                {
                    let ghost st = reshape_loop(items, sind, j as int);
                    assert(items[j as int] == vr_view(ar@[j as int]));
                    match &ar[j] {
                        VR::Int(t) => {
                            sub.push(VR::Int(*t));
                            assert(views(sub@) =~= st.sub.push(VRV::Int(*t)));
                            ptr = ptr + 1;
                            if ptr % im == 0 {
                                let p = sub;
                                sub = Vec::new();
                                let pv = VR::Arr(p);
                                proof { lemma_view_arr(p); }
                                let r = VR::int_reshape(&pv, ind, k1);
                                thi.push(r);
                                assert(views(thi@) =~= st.thi.push(reshape_v(VRV::Arr(st.sub.push(VRV::Int(*t))), rest)));
                                assert(views(sub@) =~= Seq::<VRV>::empty());
                                done = ptr >= di;
                            }
                        },
                        VR::Arr(v) => {
                            proof { lemma_view_arr(*v); }
                            let ghost thi0 = views(thi@);
                            if ptr % im != 0 {
                                let p = sub;
                                sub = Vec::new();
                                let pv = VR::Arr(p);
                                proof { lemma_view_arr(p); }
                                let r = VR::int_reshape(&pv, ind, k1);
                                thi.push(r);
                                assert(views(thi@) =~= st.thi.push(reshape_v(VRV::Arr(st.sub), rest)));
                                assert(views(sub@) =~= Seq::<VRV>::empty());
                                ptr = ptr - ptr % im + im;
                            }
                            if ptr >= di {
                                done = true;
                            } else {
                                let ghost thi1 = views(thi@);
                                let r = VR::int_reshape(&ar[j], ind, k1);
                                thi.push(r);
                                assert(views(thi@) =~= thi1.push(reshape_v(VRV::Arr(views(v@)), rest)));
                                ptr = ptr + im;
                                done = ptr >= di;
                            }
                        },
                    }
                    j = j + 1;
                    assert(reshape_loop(items, sind, j as int) =~= (RState { ptr: ptr as int, sub: views(sub@), thi: views(thi@), done }));
                }
                let ghost st = reshape_loop(items, sind, j as int);
                assert(reshape_loop(items, sind, items.len() as int) == st) by {
                    if j < ar@.len() {
                        lemma_loop_done(items, sind, j as int, items.len() as int);
                    }
                }
                if sub.len() != 0 {
                    let pv = VR::Arr(sub);
                    proof { lemma_view_arr(sub); }
                    let r = VR::int_reshape(&pv, ind, k1);
                    thi.push(r);
                    assert(views(thi@) =~= st.thi.push(reshape_v(VRV::Arr(st.sub), rest)));
                } else {
                    assert(st.sub.len() == 0);
                }
                proof { lemma_view_arr(thi); }
                VR::Arr(thi)
            },
            VR::Int(t) => {
                let mut v: Vec<VR> = Vec::new();
                v.push(VR::Int(*t));
                proof { lemma_view_arr(v); }
                assert(views(v@) =~= seq![VRV::Int(*t)]);
                VR::Arr(v)
            },
        }
    }
}

/// Once the array is full, further items change nothing.
proof fn lemma_loop_done(items: Seq<VRV>, ind: Seq<i32>, j: int, n: int)
    requires
        0 <= j <= n,
        ind.len() >= 2,
        reshape_loop(items, ind, j).done,
    ensures
        reshape_loop(items, ind, n) == reshape_loop(items, ind, j),
    decreases n - j,
{
    if n > j {
        lemma_loop_done(items, ind, j, n - 1);
    }
}


// ---------------------------------------------------------------------
// Arithmetic of constants, as `i32` arithmetic that does not overflow.

pub open spec fn abs(a: int) -> int {
    if a < 0 { -a } else { a }
}

/// Division rounding toward zero.
pub open spec fn tdiv(u: int, v: int) -> int {
    let q = abs(u) / abs(v);
    if (u < 0) != (v < 0) { -q } else { q }
}

/// Remainder of division rounding toward zero: it has the sign of `u`.
pub open spec fn trem(u: int, v: int) -> int {
    let r = abs(u) % abs(v);
    if u < 0 { -r } else { r }
}

pub open spec fn spec_compare(a: Oper, u: i32, v: i32) -> bool {
    match a {
        Oper::Lt => u < v,
        Oper::Le => u <= v,
        Oper::Eq => u == v,
        Oper::Ne => u != v,
        Oper::Ge => u >= v,
        Oper::Gt => u > v,
        _ => true,
    }
}

/// The value of `u a v`; a comparison gives 1 or 0.
pub open spec fn spec_op(a: Oper, u: i32, v: i32) -> int {
    match a {
        Oper::Add => u + v,
        Oper::Sub => u - v,
        Oper::Mul => u * v,
        Oper::Div => tdiv(u as int, v as int),
        Oper::Mod => trem(u as int, v as int),
        _ => if spec_compare(a, u, v) { 1 } else { 0 },
    }
}

/// `u a v` is defined: no division by zero and no overflow.
pub open spec fn op_ok(a: Oper, u: i32, v: i32) -> bool {
    match a {
        Oper::Div => v != 0 && !(u == i32::MIN && v == -1),
        Oper::Mod => v != 0 && !(u == i32::MIN && v == -1),
        _ => i32::MIN <= spec_op(a, u, v) <= i32::MAX,
    }
}

/// The value of `a u`; `!` complements the bits.
pub open spec fn spec_uop(a: UOper, u: i32) -> i32 {
    match a {
        UOper::Pos => u,
        UOper::Neg => (-u) as i32,
        UOper::Not => !u,
    }
}

pub open spec fn uop_ok(a: UOper, u: i32) -> bool {
    a == UOper::Neg ==> u != i32::MIN
}

fn compare(a: Oper, u: i32, v: i32) -> (r: bool)
    ensures
        r == spec_compare(a, u, v),
{
    match a {
        Oper::Lt => u < v,
        Oper::Le => u <= v,
        Oper::Eq => u == v,
        Oper::Ne => u != v,
        Oper::Ge => u >= v,
        Oper::Gt => u > v,
        _ => true,
    }
}

pub(crate) fn op(a: Oper, u: i32, v: i32) -> (r: i32)
    requires
        op_ok(a, u, v),
    ensures
        r as int == spec_op(a, u, v),
{
    match a {
        Oper::Add => u + v,
        Oper::Sub => u - v,
        Oper::Mul => u * v,
        Oper::Div => {
            let x: i64 = if u < 0 { -(u as i64) } else { u as i64 };
            let y: i64 = if v < 0 { -(v as i64) } else { v as i64 };
            let q: i64 = x / y;
            assert(q <= x) by (nonlinear_arith)
                requires
                    x >= 0,
                    y >= 1,
                    q == x / y,
            ;
            if (u < 0) != (v < 0) {
                (-q) as i32
            } else {
                assert(q <= i32::MAX) by (nonlinear_arith)
                    requires
                        x >= 0,
                        y >= 1,
                        q == x / y,
                        x <= 0x8000_0000,
                        (x == 0x8000_0000 ==> y >= 2),
                ;
                q as i32
            }
        },
        Oper::Mod => {
            let x: i64 = if u < 0 { -(u as i64) } else { u as i64 };
            let y: i64 = if v < 0 { -(v as i64) } else { v as i64 };
            let q: i64 = x % y;
            if u < 0 {
                (-q) as i32
            } else {
                q as i32
            }
        },
        _ => {
            if compare(a, u, v) {
                1
            } else {
                0
            }
        },
    }
}

fn uop(a: UOper, u: i32) -> (r: i32)
    requires
        uop_ok(a, u),
    ensures
        r == spec_uop(a, u),
{
    match a {
        UOper::Pos => u,
        UOper::Neg => -u,
        UOper::Not => !u,
    }
}

/// Folds `l o r` when both sides are numbers.
pub open spec fn expr_op_v(l: ExprV, o: Oper, r: ExprV) -> ExprV {
    if l is Num && r is Num {
        ExprV::Num(spec_op(o, l->Num_0, r->Num_0) as i32)
    } else {
        ExprV::Op(Box::new(l), o, Box::new(r))
    }
}

/// Division and remainder of `u` by `v` rounding toward zero: `u` is
/// `w * v` plus a remainder smaller than `v` in size, with the sign of `u`.
pub open spec fn is_trunc_quot(u: int, v: int, w: int) -> bool {
    let r = u - w * v;
    &&& abs(r) < abs(v)
    &&& (r == 0 || (r < 0) == (u < 0))
}

proof fn lemma_trunc_div_mod(u: int, v: int)
    requires
        v != 0,
    ensures
        is_trunc_quot(u, v, tdiv(u, v)),
        trem(u, v) == u - tdiv(u, v) * v,
{
    let au = abs(u);
    let av = abs(v);
    let q = au / av;
    let m = au % av;
    vstd::arithmetic::div_mod::lemma_fundamental_div_mod(au, av);
    vstd::arithmetic::div_mod::lemma_mod_bound(au, av);
    assert(au == q * av + m) by (nonlinear_arith)
        requires
            au == av * (au / av) + au % av,
            q == au / av,
            m == au % av,
    ;
    if u >= 0 && v > 0 {
        assert(u - q * v == m);
    } else if u >= 0 {
        assert(u - (-q) * v == m) by (nonlinear_arith)
            requires
                u == q * av + m,
                av == -v,
        ;
    } else if v > 0 {
        assert(u - (-q) * v == -m) by (nonlinear_arith)
            requires
                -u == q * av + m,
                av == v,
        ;
    } else {
        assert(u - q * v == -m) by (nonlinear_arith)
            requires
                -u == q * av + m,
                av == -v,
        ;
    }
}

proof fn lemma_tdiv_range(u: i32, v: i32)
    requires
        v != 0,
        !(u == i32::MIN && v == -1),
    ensures
        i32::MIN <= tdiv(u as int, v as int) <= i32::MAX,
        i32::MIN <= trem(u as int, v as int) <= i32::MAX,
{
    let au = abs(u as int);
    let av = abs(v as int);
    let q = au / av;
    let m = au % av;
    vstd::arithmetic::div_mod::lemma_fundamental_div_mod(au, av);
    vstd::arithmetic::div_mod::lemma_mod_bound(au, av);
    vstd::arithmetic::div_mod::lemma_div_pos_is_pos(au, av);
    assert(au == q * av + m) by (nonlinear_arith)
        requires
            au == av * (au / av) + au % av,
            q == au / av,
            m == au % av,
    ;
    assert(q <= au) by (nonlinear_arith)
        requires
            au == q * av + m,
            av >= 1,
            m >= 0,
            q >= 0,
    ;
    if q == 0x8000_0000 {
        assert(av == 1) by (nonlinear_arith)
            requires
                au == q * av + m,
                av >= 1,
                m >= 0,
                q == 0x8000_0000,
                au <= 0x8000_0000,
        ;
        assert(u == i32::MIN);
    }
}

/// Folding an operator applied to two numbers gives the number the
/// operator computes: the sum, the difference, the product, the quotient
/// and remainder rounding toward zero, or 1 when a comparison holds and 0
/// when it does not.
pub proof fn law_fold_arith(u: i32, o: Oper, v: i32, st: ScopeV)
    requires
        fold_ok(ExprV::Op(Box::new(ExprV::Num(u)), o, Box::new(ExprV::Num(v))), st),
    ensures
        fold_expr(ExprV::Op(Box::new(ExprV::Num(u)), o, Box::new(ExprV::Num(v))), st) matches ExprV::Num(w) && match o {
            Oper::Add => w == u + v,
            Oper::Sub => w == u - v,
            Oper::Mul => w == u * v,
            Oper::Div => is_trunc_quot(u as int, v as int, w as int),
            Oper::Mod => v != 0 && (u - w) % abs(v as int) == 0 && abs(w as int) < abs(v as int) && (w == 0 || (w < 0) == (u
                < 0)),
            Oper::Lt => w == (if u < v { 1i32 } else { 0i32 }),
            Oper::Le => w == (if u <= v { 1i32 } else { 0i32 }),
            Oper::Eq => w == (if u == v { 1i32 } else { 0i32 }),
            Oper::Ne => w == (if u != v { 1i32 } else { 0i32 }),
            Oper::Ge => w == (if u >= v { 1i32 } else { 0i32 }),
            Oper::Gt => w == (if u > v { 1i32 } else { 0i32 }),
        },
{
    let e = ExprV::Op(Box::new(ExprV::Num(u)), o, Box::new(ExprV::Num(v)));
    assert(fold_expr(e, st) == expr_op_v(ExprV::Num(u), o, ExprV::Num(v)));
    match o {
        Oper::Div => {
            lemma_trunc_div_mod(u as int, v as int);
            lemma_tdiv_range(u, v);
        },
        Oper::Mod => {
            lemma_trunc_div_mod(u as int, v as int);
            lemma_tdiv_range(u, v);
            let q = tdiv(u as int, v as int);
            let w = trem(u as int, v as int);
            assert(u - w == q * v);
            let k = if v > 0 { q } else { -q };
            assert(u - w == k * abs(v as int)) by (nonlinear_arith)
                requires
                    u - w == q * v,
                    k == (if v > 0 { q } else { -q }),
                    abs(v as int) == (if v > 0 { v as int } else { -v }),
            ;
            vstd::arithmetic::div_mod::lemma_fundamental_div_mod_converse(u - w, abs(v as int), k, 0);
        },
        _ => {},
    }
}

pub open spec fn expr_op_ok(l: ExprV, o: Oper, r: ExprV) -> bool {
    (l is Num && r is Num) ==> op_ok(o, l->Num_0, r->Num_0)
}

/// Folds `o r` when `r` is a number.
pub open spec fn expr_uop_v(o: UOper, r: ExprV) -> ExprV {
    if r is Num {
        ExprV::Num(spec_uop(o, r->Num_0))
    } else {
        ExprV::UOp(o, Box::new(r))
    }
}

pub open spec fn expr_uop_ok(o: UOper, r: ExprV) -> bool {
    r is Num ==> uop_ok(o, r->Num_0)
}

pub trait Reduce: Sized {
    type Scope;

    fn reduce(&self, s: &Self::Scope) -> Self;
}

pub trait Eval {
    type Eval;

    fn eval(&self) -> Option<Self::Eval>;
}

impl Eval for Expr {
    type Eval = i32;

    /// The number this expression is, if it is one.
    fn eval(&self) -> (r: Option<i32>)
        ensures
            r == (match expr_view(*self) {
                ExprV::Num(t) => Some(t),
                _ => None,
            }),
    {
        match self {
            Expr::Num(t) => Some(*t),
            _ => None,
        }
    }
}

impl Expr {
    /// Whether this expression is a number or empty.
    fn is_evaluated(&self) -> (b: bool)
        ensures
            b == (*self is Num || *self is Nil),
    {
        match *self {
            Expr::Num(_) => true,
            Expr::Nil => true,
            _ => false,
        }
    }
}

/// `l o r`, folded when both sides are numbers.
fn ExprOp(l: Expr, o: Oper, r: Expr) -> (e: Expr)
    requires
        expr_op_ok(expr_view(l), o, expr_view(r)),
    ensures
        expr_view(e) == expr_op_v(expr_view(l), o, expr_view(r)),
{
    if let Expr::Num(u) = l {
        if let Expr::Num(v) = r {
            return Expr::Num(op(o, u, v));
        }
    }
    return Expr::Op(Box::new(l), o, Box::new(r))
}

/// `o r`, folded when `r` is a number.
fn ExprUop(o: UOper, r: Expr) -> (e: Expr)
    requires
        expr_uop_ok(o, expr_view(r)),
    ensures
        expr_view(e) == expr_uop_v(o, expr_view(r)),
{
    if let Expr::Num(v) = r {
        return Expr::Num(uop(o, v));
    }
    Expr::UOp(o, Box::new(r))
}


// ---------------------------------------------------------------------
// Initializer lists and values.

/// The value an evaluated initializer list denotes.
pub open spec fn iiv_to_vrv(c: InitIV) -> VRV
    decreases c,
{
    match c {
        InitIV::Val(t) => VRV::Int(t),
        InitIV::Vax(s) => VRV::Arr(Seq::new(s.len(), |i: int| if 0 <= i < s.len() { iiv_to_vrv(s[i]) } else { VRV::Int(0) })),
    }
}

/// The initializer list that spells a value.
pub open spec fn vrv_to_iiv(v: VRV) -> InitIV
    decreases v,
{
    match v {
        VRV::Int(t) => InitIV::Val(t),
        VRV::Arr(s) => InitIV::Vax(Seq::new(s.len(), |i: int| if 0 <= i < s.len() { vrv_to_iiv(s[i]) } else { InitIV::Val(0) })),
    }
}

/// Spelling a value as an initializer list and reading the list back gives
/// the value: the nesting and every leaf are kept.
pub proof fn law_value_list_roundtrip(v: VRV)
    ensures
        iiv_to_vrv(vrv_to_iiv(v)) == v,
    decreases v,
{
    match v {
        VRV::Int(_) => {},
        VRV::Arr(s) => {
            let c = vrv_to_iiv(v);
            let back = iiv_to_vrv(c);
            assert forall|i: int| 0 <= i < s.len() implies #[trigger] back->Arr_0[i] == s[i] by {
                law_value_list_roundtrip(s[i]);
            }
            assert(back->Arr_0 =~= s);
        },
    }
}

/// Every leaf of an initializer list is a number.
pub open spec fn init_all_num(c: InitEV) -> bool
    decreases c,
{
    match c {
        InitEV::Val(e) => e is Num,
        InitEV::Vax(s) => forall|i: int| 0 <= i < s.len() ==> init_all_num(#[trigger] s[i]),
    }
}

/// The numbers of an initializer list whose leaves are numbers.
pub open spec fn init_val_cast(c: InitEV) -> InitIV
    decreases c,
{
    match c {
        InitEV::Val(e) => InitIV::Val(e->Num_0),
        InitEV::Vax(s) => InitIV::Vax(Seq::new(s.len(), |i: int| if 0 <= i < s.len() { init_val_cast(s[i]) } else { InitIV::Val(0) })),
    }
}

pub open spec fn init_i_views(a: Seq<Box<InitCont<i32>>>) -> Seq<InitIV> {
    Seq::new(a.len(), |i: int| if 0 <= i < a.len() { init_i_view(*a[i]) } else { InitIV::Vax(Seq::empty()) })
}

pub open spec fn init_e_views(a: Seq<Box<InitCont<Exp>>>) -> Seq<InitEV> {
    Seq::new(a.len(), |i: int| if 0 <= i < a.len() { init_e_view(*a[i]) } else { InitEV::Vax(Seq::empty()) })
}

pub proof fn lemma_init_i_vax(a: Vec<Box<InitCont<i32>>>)
    ensures
        init_i_view(InitCont::Vax(a)) == InitIV::Vax(init_i_views(a@)),
{
    let w = init_i_view(InitCont::Vax(a));
    let s = w->Vax_0;
    assert forall|i: int| 0 <= i < s.len() implies s[i] == init_i_views(a@)[i] by {}
    assert(s =~= init_i_views(a@));
}

pub proof fn lemma_init_e_vax(a: Vec<Box<InitCont<Exp>>>)
    ensures
        init_e_view(InitCont::Vax(a)) == InitEV::Vax(init_e_views(a@)),
{
    let w = init_e_view(InitCont::Vax(a));
    let s = w->Vax_0;
    assert forall|i: int| 0 <= i < s.len() implies s[i] == init_e_views(a@)[i] by {}
    assert(s =~= init_e_views(a@));
}

impl InitCont<Exp> {
    /// The numbers of this list, whose leaves are numbers.
    #[verifier::loop_isolation(false)]
    fn valCast(self) -> (r: ValueType)
        requires
            init_all_num(init_e_view(self)),
        ensures
            init_i_view(*r) == init_val_cast(init_e_view(self)),
        decreases self,
    {
        let ghost orig = self;
        match self {
            InitCont::Val(x) => {
                let t = x.eval();
                bo(InitCont::Val(t.unwrap()))
            },
            InitCont::Vax(t) => {
                proof { lemma_init_e_vax(t); }
                let ghost tv = t@;
                let ghost ev = init_e_views(tv);
                let mut out: Vec<Box<InitCont<i32>>> = Vec::new();
                for x in iter: t.into_iter()
                    invariant
                        iter.seq() == tv,
                        ev == init_e_views(tv),
                        forall|i: int| 0 <= i < ev.len() ==> init_all_num(#[trigger] ev[i]),
                        out@.len() == iter.index(),
                        forall|i: int| 0 <= i < iter.index() ==> init_i_view(*#[trigger] out@[i]) == init_val_cast(ev[i]),
                {
                    let ghost k = iter.index();
                    assert(ev[k] == init_e_view(*tv[k]));
                    assert(x == tv[k]);
                    assert(decreases_to!(orig => tv[k]));
                    let y = (*x).valCast();
                    out.push(y);
                }
                proof {
                    lemma_init_i_vax(out);
                    let want = init_val_cast(InitEV::Vax(ev));
                    assert(init_i_views(out@) =~= want->Vax_0);
                }
                bo(InitCont::Vax(out))
            },
        }
    }
}

impl InitCont<i32> {
    /// The value this list spells.
    #[verifier::loop_isolation(false)]
    fn toValue(&self) -> (r: VR)
        ensures
            vr_view(r) == iiv_to_vrv(init_i_view(*self)),
        decreases *self,
    {
        match self {
            InitCont::Val(x) => VR::Int(*x),
            InitCont::Vax(x) => {
                proof { lemma_init_i_vax(*x); }
                let mut out: Vec<VR> = Vec::new();
                let mut i: usize = 0;
                while i < x.len()
                    invariant
                        i <= x@.len(),
                        out@.len() == i,
                        forall|j: int| 0 <= j < i ==> vr_view(#[trigger] out@[j]) == iiv_to_vrv(init_i_view(*x@[j])),
                    decreases x@.len() - i,
                {
                    assert(decreases_to!(*self => x@[i as int]));
                    let v = x[i].toValue();
                    out.push(v);
                    i = i + 1;
                }
                proof {
                    lemma_view_arr(out);
                    let want = iiv_to_vrv(init_i_view(*self));
                    assert(views(out@) =~= want->Arr_0);
                }
                VR::Arr(out)
            },
        }
    }
}

impl VR {
    /// The initializer list that spells this value.
    #[verifier::loop_isolation(false)]
    fn to_cn(&self) -> (r: InitCont<i32>)
        ensures
            init_i_view(r) == vrv_to_iiv(vr_view(*self)),
        decreases *self,
    {
        match self {
            VR::Int(t) => InitCont::Val(*t),
            VR::Arr(a) => {
                proof { lemma_view_arr(*a); }
                let mut out: Vec<Box<InitCont<i32>>> = Vec::new();
                let mut i: usize = 0;
                while i < a.len()
                    invariant
                        i <= a@.len(),
                        out@.len() == i,
                        forall|j: int| 0 <= j < i ==> init_i_view(*#[trigger] out@[j]) == vrv_to_iiv(vr_view(a@[j])),
                    decreases a@.len() - i,
                {
                    assert(decreases_to!(*self => a@[i as int]));
                    let c = a[i].to_cn();
                    out.push(bo(c));
                    i = i + 1;
                }
                proof {
                    lemma_init_i_vax(out);
                    let want = vrv_to_iiv(vr_view(*self));
                    assert(init_i_views(out@) =~= want->Vax_0);
                }
                InitCont::Vax(out)
            },
        }
    }

    /// The evaluated initializer spelling this value.
    fn to_vi(&self) -> (r: VarInit)
        ensures
            var_init_view(r) == VarInitV::E(vrv_to_iiv(vr_view(*self))),
    {
        VarInit::E(bo(self.to_cn()))
    }

    /// `val` (zero when absent) reshaped to an array of dimensions `ind`.
    fn reshape(val: Option<VR>, ind: &Vec<i32>) -> (r: VR)
        requires
            dims_fit(ind@),
            dims_positive(ind@),
        ensures
            vr_view(r) == reshape_v(
                match val {
                    Some(v) => vr_view(v),
                    None => VRV::Int(0),
                },
                strides(ind@),
            ),
    {
        let st = bmult(ind);
        proof {
            assert(st@ =~= strides(ind@)) by {
                assert forall|i: int| 0 <= i < st@.len() implies st@[i] == strides(ind@)[i] by {}
            }
        }
        let ghost sv = st@;
        assert(sv.subrange(0, sv.len() as int) =~= sv);
        assert(strides_ok(sv)) by {
            assert forall|i: int| 0 <= i < sv.len() implies #[trigger] sv[i] > 0 by {
                lemma_suffix_prod_positive(ind@, i);
            }
        }
        match val {
            None => VR::int_reshape(&VR::Int(0), &st, 0),
            Some(val) => VR::int_reshape(&val, &st, 0),
        }
    }
}

// ---------------------------------------------------------------------
// Reshaping never overfills an array.

/// Every list in `v` holds at most as many entries as the dimension at its
/// depth, and no list is deeper than the dimensions.
pub open spec fn within(v: VRV, dims: Seq<i32>) -> bool
    decreases v,
{
    match v {
        VRV::Int(_) => true,
        VRV::Arr(items) => {
            &&& dims.len() >= 1
            &&& items.len() <= dims[0]
            &&& forall|k: int| 0 <= k < items.len() ==> within(#[trigger] items[k], dims.drop_first())
        },
    }
}

/// `ind` are strides of `dims`: each is the next one times its dimension,
/// and all are positive.
spec fn stride_chain(ind: Seq<i32>, dims: Seq<i32>) -> bool {
    &&& ind.len() == dims.len() + 1
    &&& forall|k: int| 0 <= k < ind.len() ==> #[trigger] ind[k] > 0
    &&& forall|k: int| 0 <= k < dims.len() ==> #[trigger] dims[k] > 0
    &&& forall|k: int| 0 <= k < dims.len() ==> ind[k] == #[trigger] dims[k] * ind[k + 1]
}

proof fn lemma_stride_chain_rest(ind: Seq<i32>, dims: Seq<i32>)
    requires
        stride_chain(ind, dims),
        dims.len() >= 1,
    ensures
        stride_chain(ind.drop_first(), dims.drop_first()),
{
    let i2 = ind.drop_first();
    let d2 = dims.drop_first();
    assert forall|k: int| 0 <= k < i2.len() implies #[trigger] i2[k] > 0 by {
        assert(i2[k] == ind[k + 1]);
    }
    assert forall|k: int| 0 <= k < d2.len() implies #[trigger] d2[k] > 0 by {
        assert(d2[k] == dims[k + 1]);
    }
    assert forall|k: int| 0 <= k < d2.len() implies i2[k] == #[trigger] d2[k] * i2[k + 1] by {
        assert(d2[k] == dims[k + 1]);
        assert(i2[k] == ind[k + 1]);
        assert(i2[k + 1] == ind[k + 2]);
    }
}

/// Facts on `t * m + s`, with `0 <= s < m`, used by the reshaping steps.
proof fn lemma_row_count(t: int, s: int, m: int, d: int)
    requires
        m > 0,
        0 <= s < m,
        t >= 0,
        d >= 0,
    ensures
        (t * m + s) % m == s,
        t * m + s < d * m ==> t < d,
        s + 1 == m ==> t * m + s + 1 == (t + 1) * m,
        t * m + s - (t * m + s) % m + m == (t + 1) * m,
        (t * m + s - (t * m + s) % m + m) % m == 0,
        (t * m) % m == 0,
        t < d ==> (t + 1) * m <= d * m,
        t <= d ==> t * m <= d * m,
{
    vstd::arithmetic::div_mod::lemma_fundamental_div_mod_converse(t * m + s, m, t, s);
    vstd::arithmetic::div_mod::lemma_fundamental_div_mod_converse((t + 1) * m, m, t + 1, 0);
    vstd::arithmetic::div_mod::lemma_fundamental_div_mod_converse(t * m, m, t, 0);
    assert((t + 1) * m == t * m + m) by (nonlinear_arith);
    if t * m + s < d * m {
        assert(t < d) by (nonlinear_arith)
            requires
                t * m + s < d * m,
                s >= 0,
                m > 0,
        ;
    }
    if t < d {
        assert((t + 1) * m <= d * m) by (nonlinear_arith)
            requires
                t < d,
                m > 0,
        ;
    }
    if t <= d {
        assert(t * m <= d * m) by (nonlinear_arith)
            requires
                t <= d,
                m > 0,
        ;
    }
}

/// What holds of the state after the first `n` items of a list: the
/// elements placed are the full rows and the partial row, the partial row
/// is shorter than a row, no more rows than the dimension are made, and
/// the rows made are within the remaining dimensions.
#[verifier::spinoff_prover]
#[verifier::rlimit(60)]
proof fn lemma_reshape_loop_within(items: Seq<VRV>, ind: Seq<i32>, dims: Seq<i32>, n: int)
    requires
        stride_chain(ind, dims),
        dims.len() >= 1,
        0 <= n <= items.len(),
    ensures
        ({
            let st = reshape_loop(items, ind, n);
            let im = ind[1] as int;
            &&& st.thi.len() * im + st.sub.len() == st.ptr
            &&& st.sub.len() < im
            &&& st.thi.len() <= dims[0]
            &&& (st.done ==> st.sub.len() == 0)
            &&& (!st.done ==> st.ptr < ind[0])
            &&& forall|j: int| 0 <= j < st.thi.len() ==> within(#[trigger] st.thi[j], dims.drop_first())
        }),
    decreases ind.len(), 0int, n,
{
    let im = ind[1] as int;
    let di = ind[0] as int;
    let d = dims[0] as int;
    assert(di == d * im);
    if n <= 0 {
        assert(0 * im == 0) by (nonlinear_arith);
    } else {
        lemma_reshape_loop_within(items, ind, dims, n - 1);
        let st = reshape_loop(items, ind, n - 1);
        let t = st.thi.len() as int;
        let sl = st.sub.len() as int;
        let rest = ind.drop_first();
        lemma_stride_chain_rest(ind, dims);
        lemma_row_count(t, sl, im, d);
        if !st.done {
            let r = reshape_loop(items, ind, n);
            match items[n - 1] {
                VRV::Int(x) => {
                    lemma_reshape_within(VRV::Arr(st.sub.push(VRV::Int(x))), rest, dims.drop_first());
                    if sl + 1 == im {
                        lemma_row_count(t + 1, 0, im, d);
                        assert(r.thi.len() == t + 1 && r.sub.len() == 0 && r.ptr == (t + 1) * im);
                    } else {
                        lemma_row_count(t, sl + 1, im, d);
                        assert(r.thi.len() == t && r.sub.len() == sl + 1 && r.ptr == t * im + sl + 1);
                    }
                    assert forall|j: int| 0 <= j < r.thi.len() implies within(#[trigger] r.thi[j], dims.drop_first()) by {
                        if j < t {
                            assert(r.thi[j] == st.thi[j]);
                        }
                    }
                },
                VRV::Arr(v) => {
                    lemma_reshape_within(VRV::Arr(st.sub), rest, dims.drop_first());
                    lemma_reshape_within(VRV::Arr(v), rest, dims.drop_first());
                    if sl != 0 {
                        lemma_row_count(t + 1, 0, im, d);
                    }
                    assert forall|j: int| 0 <= j < r.thi.len() implies within(#[trigger] r.thi[j], dims.drop_first()) by {
                        if j < t {
                            assert(r.thi[j] == st.thi[j]);
                        }
                    }
                },
            }
        }
    }
}

/// A value reshaped to strides `ind` of dimensions `dims` is within them.
#[verifier::spinoff_prover]
proof fn lemma_reshape_within(val: VRV, ind: Seq<i32>, dims: Seq<i32>)
    requires
        stride_chain(ind, dims),
    ensures
        within(reshape_v(val, ind), dims),
    decreases ind.len(), 1int, 0int,
{
    if ind.len() >= 2 {
        let im = ind[1] as int;
        let d = dims[0] as int;
        assert(ind[0] == d * im);
        match val {
            VRV::Arr(items) => {
                lemma_reshape_loop_within(items, ind, dims, items.len() as int);
                let st = reshape_loop(items, ind, items.len() as int);
                let t = st.thi.len() as int;
                lemma_row_count(t, st.sub.len() as int, im, d);
                if st.sub.len() != 0 {
                    lemma_stride_chain_rest(ind, dims);
                    lemma_reshape_within(VRV::Arr(st.sub), ind.drop_first(), dims.drop_first());
                    let r = st.thi.push(reshape_v(VRV::Arr(st.sub), ind.drop_first()));
                    assert forall|j: int| 0 <= j < r.len() implies within(#[trigger] r[j], dims.drop_first()) by {
                        if j < t {
                            assert(r[j] == st.thi[j]);
                        }
                    }
                    assert(reshape_v(val, ind) == VRV::Arr(r));
                } else {
                    assert(reshape_v(val, ind) == VRV::Arr(st.thi));
                }
            },
            VRV::Int(_) => {
                assert(d >= 1);
                let r = seq![val];
                assert(r[0] == val);
                assert(within(val, dims.drop_first()));
                assert(reshape_v(val, ind) == VRV::Arr(r));
            },
        }
    }
}

/// Reshaping an initializer to an array never overfills it: in the
/// result, every list holds at most as many entries as the dimension at
/// its depth, and no list is deeper than the dimensions.
pub proof fn law_reshape_within(val: VRV, dims: Seq<i32>)
    requires
        dims_fit(dims),
        dims_positive(dims),
    ensures
        within(reshape_v(val, strides(dims)), dims),
{
    lemma_strides_chain(dims);
    lemma_reshape_within(val, strides(dims), dims);
}

proof fn lemma_strides_chain(dims: Seq<i32>)
    requires
        dims_fit(dims),
        dims_positive(dims),
    ensures
        stride_chain(strides(dims), dims),
{
    let ind = strides(dims);
    assert forall|k: int| 0 <= k < ind.len() implies #[trigger] ind[k] > 0 by {
        lemma_suffix_prod_positive(dims, k);
    }
    assert forall|k: int| 0 <= k < dims.len() implies ind[k] == #[trigger] dims[k] * ind[k + 1] by {
        assert(suffix_prod(dims, k) == suffix_prod(dims, k + 1) * dims[k]);
        assert(suffix_prod(dims, k + 1) * dims[k] == dims[k] * suffix_prod(dims, k + 1)) by (nonlinear_arith);
    }
}

// ---------------------------------------------------------------------
// A flat initializer list reads back in row-major order.

/// The integers `vals` as a list of values.
pub open spec fn ints(vals: Seq<i32>) -> Seq<VRV> {
    vals.map_values(|x: i32| VRV::Int(x))
}

/// The row-major position of the index `idx` in an array of strides
/// `ind`: the sum of each index times the stride after it.
pub open spec fn row_major(idx: Seq<i32>, ind: Seq<i32>) -> int
    decreases idx.len(),
{
    if idx.len() == 0 || ind.len() < 2 {
        0
    } else {
        idx[0] * ind[1] + row_major(idx.drop_first(), ind.drop_first())
    }
}

/// The index `idx` is inside an array of dimensions `dims`.
pub open spec fn index_in(idx: Seq<i32>, dims: Seq<i32>) -> bool {
    &&& idx.len() == dims.len()
    &&& forall|k: int| 0 <= k < idx.len() ==> 0 <= #[trigger] idx[k] < dims[k]
}

proof fn lemma_row_major_bound(idx: Seq<i32>, ind: Seq<i32>, dims: Seq<i32>)
    requires
        stride_chain(ind, dims),
        index_in(idx, dims),
    ensures
        0 <= row_major(idx, ind) < ind[0],
    decreases idx.len(),
{
    if idx.len() > 0 {
        lemma_stride_chain_rest(ind, dims);
        let i2 = idx.drop_first();
        let d2 = dims.drop_first();
        assert forall|k: int| 0 <= k < i2.len() implies 0 <= #[trigger] i2[k] < d2[k] by {
            assert(i2[k] == idx[k + 1] && d2[k] == dims[k + 1]);
        }
        lemma_row_major_bound(i2, ind.drop_first(), d2);
        let i = idx[0] as int;
        let m = ind[1] as int;
        let r = row_major(i2, ind.drop_first());
        assert(ind.drop_first()[0] == ind[1]);
        assert(ind[0] == dims[0] * ind[1]);
        assert(i * m + r < dims[0] * m) by (nonlinear_arith)
            requires
                0 <= i < dims[0],
                0 <= r < m,
        ;
        assert(0 <= i * m) by (nonlinear_arith)
            requires
                0 <= i,
                0 <= m,
        ;
    }
}

/// The state after the first `n` integers of a flat list, up to a full
/// array: `n` elements placed, the full rows made, and the partial row.
#[verifier::spinoff_prover]
proof fn lemma_reshape_loop_flat(vals: Seq<i32>, ind: Seq<i32>, dims: Seq<i32>, n: int)
    requires
        stride_chain(ind, dims),
        dims.len() >= 1,
        0 <= n <= vals.len(),
        n <= ind[0],
    ensures
        ({
            let st = reshape_loop(ints(vals), ind, n);
            let m = ind[1] as int;
            &&& st.ptr == n
            &&& st.done == (n == ind[0])
            &&& st.thi.len() == n / m
            &&& forall|r: int| 0 <= r < n / m ==> #[trigger] st.thi[r] == reshape_v(
                VRV::Arr(ints(vals.subrange(r * m, r * m + m))),
                ind.drop_first(),
            )
            &&& st.sub == ints(vals.subrange((n / m) * m, n))
        }),
    decreases n,
{
    let m = ind[1] as int;
    assert(ind[0] == dims[0] * ind[1]);
    if n == 0 {
        vstd::arithmetic::div_mod::lemma_fundamental_div_mod_converse(0, m, 0, 0);
        assert(ints(vals.subrange(0, 0)) =~= Seq::<VRV>::empty());
    } else {
        lemma_reshape_loop_flat(vals, ind, dims, n - 1);
        let st = reshape_loop(ints(vals), ind, n - 1);
        let q = (n - 1) / m;
        let r0 = (n - 1) % m;
        vstd::arithmetic::div_mod::lemma_fundamental_div_mod(n - 1, m);
        assert(0 <= r0 < m) by {
            vstd::arithmetic::div_mod::lemma_mod_bound(n - 1, m);
        }
        assert(q >= 0) by {
            vstd::arithmetic::div_mod::lemma_div_pos_is_pos(n - 1, m);
        }
        assert(n - 1 == q * m + r0) by (nonlinear_arith)
            requires
                n - 1 == m * ((n - 1) / m) + (n - 1) % m,
                q == (n - 1) / m,
                r0 == (n - 1) % m,
        ;
        assert(!st.done);
        assert(ints(vals)[n - 1] == VRV::Int(vals[n - 1]));
        let sub = st.sub.push(VRV::Int(vals[n - 1]));
        assert(sub =~= ints(vals.subrange(q * m, n)));
        let st2 = reshape_loop(ints(vals), ind, n);
        if r0 + 1 == m {
            assert(n == (q + 1) * m) by (nonlinear_arith)
                requires
                    n - 1 == q * m + r0,
                    r0 + 1 == m,
            ;
            vstd::arithmetic::div_mod::lemma_fundamental_div_mod_converse(n, m, q + 1, 0);
            assert(q * m + m == (q + 1) * m) by (nonlinear_arith);
            assert(ints(vals.subrange(n, n)) =~= Seq::<VRV>::empty());
            assert forall|r: int| 0 <= r < n / m implies #[trigger] st2.thi[r] == reshape_v(
                VRV::Arr(ints(vals.subrange(r * m, r * m + m))),
                ind.drop_first(),
            ) by {
                if r < q {
                    assert(st2.thi[r] == st.thi[r]);
                }
            }
        } else {
            vstd::arithmetic::div_mod::lemma_fundamental_div_mod_converse(n, m, q, r0 + 1);
            assert((q + 1) * m == q * m + m) by (nonlinear_arith);
            assert(n < ind[0]) by {
                if n == ind[0] {
                    vstd::arithmetic::div_mod::lemma_fundamental_div_mod_converse(n, m, dims[0] as int, 0);
                }
            }
        }
    }
}

/// Once the array is full, further integers change nothing.
proof fn lemma_reshape_loop_full(items: Seq<VRV>, ind: Seq<i32>, n: int, full: int)
    requires
        ind.len() >= 2,
        0 <= full <= n <= items.len(),
        reshape_loop(items, ind, full).done,
    ensures
        reshape_loop(items, ind, n) == reshape_loop(items, ind, full),
    decreases n,
{
    if n > full {
        lemma_reshape_loop_full(items, ind, n - 1, full);
    }
}

/// The value at `idx` of a flat list reshaped to strides `ind`.
#[verifier::spinoff_prover]
proof fn lemma_reshape_flat_at(vals: Seq<i32>, ind: Seq<i32>, dims: Seq<i32>, idx: Seq<i32>)
    requires
        stride_chain(ind, dims),
        index_in(idx, dims),
    ensures
        vrv_at(reshape_v(VRV::Arr(ints(vals)), ind), idx) == (if row_major(idx, ind) < vals.len() {
            vals[row_major(idx, ind)]
        } else {
            0
        }),
    decreases dims.len(),
{
    if dims.len() == 0 {
        assert(row_major(idx, ind) == 0);
        if vals.len() > 0 {
            assert(ints(vals)[0] == VRV::Int(vals[0]));
            assert(vrv_val(VRV::Int(vals[0])) == vals[0]);
            assert(vrv_val(VRV::Arr(ints(vals))) == vals[0]);
        } else {
            assert(vrv_val(VRV::Arr(ints(vals))) == 0);
        }
        assert(reshape_v(VRV::Arr(ints(vals)), ind) == VRV::Int(vrv_val(VRV::Arr(ints(vals)))));
        assert(vrv_at(reshape_v(VRV::Arr(ints(vals)), ind), idx) == (if row_major(idx, ind) < vals.len() { vals[row_major(idx, ind)] } else { 0 }));
    } else {
        let m = ind[1] as int;
        let di = ind[0] as int;
        let d0 = dims[0] as int;
        assert(di == d0 * m);
        lemma_stride_chain_rest(ind, dims);
        let rest = ind.drop_first();
        let ds = dims.drop_first();
        let i = idx[0] as int;
        let i2 = idx.drop_first();
        assert forall|k: int| 0 <= k < i2.len() implies 0 <= #[trigger] i2[k] < ds[k] by {
            assert(i2[k] == idx[k + 1] && ds[k] == dims[k + 1]);
        }
        lemma_row_major_bound(i2, rest, ds);
        assert(rest[0] == ind[1]);
        let p2 = row_major(i2, rest);
        let p = row_major(idx, ind);
        assert(p == i * m + p2);
        let items = ints(vals);
        let len = vals.len() as int;
        let nf = if len < di { len } else { di };
        lemma_reshape_loop_flat(vals, ind, dims, nf);
        let stf = reshape_loop(items, ind, nf);
        if len > di {
            lemma_reshape_loop_full(items, ind, len, di);
        }
        let st = reshape_loop(items, ind, items.len() as int);
        assert(st == stf);
        let q = nf / m;
        let s = nf % m;
        vstd::arithmetic::div_mod::lemma_fundamental_div_mod(nf, m);
        vstd::arithmetic::div_mod::lemma_mod_bound(nf, m);
        vstd::arithmetic::div_mod::lemma_div_pos_is_pos(nf, m);
        assert(nf == q * m + s) by (nonlinear_arith)
            requires
                nf == m * (nf / m) + nf % m,
                q == nf / m,
                s == nf % m,
        ;
        let res = reshape_v(VRV::Arr(items), ind);
        let rows = if st.sub.len() != 0 { st.thi.push(reshape_v(VRV::Arr(st.sub), rest)) } else { st.thi };
        assert(res == VRV::Arr(rows));
        assert(st.sub.len() == s) by {
            assert(ints(vals.subrange(q * m, nf)).len() == nf - q * m);
        }
        assert((i as usize) as int == i);
        if i < q {
            assert(rows[i] == st.thi[i]);
            assert(i * m + m <= q * m) by (nonlinear_arith)
                requires
                    i < q,
                    m > 0,
            ;
            assert(0 <= i * m) by (nonlinear_arith)
                requires
                    0 <= i,
                    0 <= m,
            ;
            let row = vals.subrange(i * m, i * m + m);
            assert(st.thi[i] == reshape_v(VRV::Arr(ints(row)), rest));
            lemma_reshape_flat_at(row, rest, ds, i2);
            assert(row[p2] == vals[p]);
            assert(vrv_at(rows[i], i2) == vals[p]);
            assert(vrv_at(res, idx) == vrv_at(rows[i], i2));
            assert(p < len);
            assert(vrv_at(reshape_v(VRV::Arr(ints(vals)), ind), idx) == (if row_major(idx, ind) < vals.len() { vals[row_major(idx, ind)] } else { 0 }));
        } else if i == q && s != 0 {
            assert(rows[i] == reshape_v(VRV::Arr(st.sub), rest));
            assert(0 <= q * m) by (nonlinear_arith)
                requires
                    0 <= q,
                    0 <= m,
            ;
            let row = vals.subrange(q * m, nf);
            lemma_reshape_flat_at(row, rest, ds, i2);
            assert(nf == len) by {
                if nf == di {
                    vstd::arithmetic::div_mod::lemma_fundamental_div_mod_converse(nf, m, d0, 0);
                }
            }
            if p2 < row.len() {
                assert(row[p2] == vals[p]);
            }
            assert(vrv_at(res, idx) == vrv_at(rows[i], i2));
            assert(row.len() == len - q * m);
            assert(vrv_at(reshape_v(VRV::Arr(ints(vals)), ind), idx) == (if row_major(idx, ind) < vals.len() { vals[row_major(idx, ind)] } else { 0 }));
        } else {
            assert(rows.len() <= i);
            assert(q * m <= i * m) by (nonlinear_arith)
                requires
                    q <= i,
                    m > 0,
            ;
            assert(nf == len) by {
                if nf == di {
                    vstd::arithmetic::div_mod::lemma_fundamental_div_mod_converse(nf, m, d0, 0);
                    assert(i < d0);
                    assert(i * m < d0 * m) by (nonlinear_arith)
                        requires
                            i < d0,
                            m > 0,
                    ;
                }
            }
            assert(vrv_at(res, idx) == 0);
            if i > q {
                assert((q + 1) * m <= i * m) by (nonlinear_arith)
                    requires
                        q + 1 <= i,
                        m > 0,
                ;
                assert((q + 1) * m == q * m + m) by (nonlinear_arith);
            }
            assert(p >= len);
            assert(vrv_at(reshape_v(VRV::Arr(ints(vals)), ind), idx) == (if row_major(idx, ind) < vals.len() { vals[row_major(idx, ind)] } else { 0 }));
        }
    }
}

/// A constant array declared without initializer (its value reshaped from
/// 0) reads 0 at every index.
pub proof fn law_reshape_zero(dims: Seq<i32>, idx: Seq<i32>)
    ensures
        vrv_at(reshape_v(VRV::Int(0), strides(dims)), idx) == 0,
{
    let ind = strides(dims);
    if ind.len() >= 2 {
        let r = seq![VRV::Int(0)];
        assert(reshape_v(VRV::Int(0), ind) == VRV::Arr(r));
        if idx.len() > 0 && (idx[0] as usize) < 1 {
            assert(r[(idx[0] as usize) as int] == VRV::Int(0));
            assert(vrv_at(VRV::Int(0), idx.drop_first()) == 0);
            assert(vrv_at(VRV::Arr(r), idx) == 0);
        } else {
            assert(vrv_at(VRV::Arr(r), idx) == 0);
        }
    } else {
        assert(vrv_val(VRV::Int(0)) == 0);
        assert(reshape_v(VRV::Int(0), ind) == VRV::Int(0));
    }
}

/// A constant array initialized by a flat list of integers reads back, at
/// each index inside the array, the integer at that index's row-major
/// position in the list, or 0 past the end of the list.
pub proof fn law_reshape_flat(vals: Seq<i32>, dims: Seq<i32>, idx: Seq<i32>)
    requires
        dims_fit(dims),
        dims_positive(dims),
        index_in(idx, dims),
    ensures
        vrv_at(reshape_v(VRV::Arr(ints(vals)), strides(dims)), idx) == (if row_major(idx, strides(dims)) < vals.len() {
            vals[row_major(idx, strides(dims))]
        } else {
            0
        }),
{
    lemma_strides_chain(dims);
    lemma_reshape_flat_at(vals, strides(dims), dims, idx);
}

impl VarInit {
    /// The initializer with its list evaluated.
    fn valCast(self) -> (r: Self)
        requires
            var_init_view(self) matches VarInitV::I(c) ==> init_all_num(c),
        ensures
            var_init_view(r) == (match var_init_view(self) {
                VarInitV::I(c) => VarInitV::E(init_val_cast(c)),
                v => v,
            }),
    {
        match self {
            VarInit::Nil => VarInit::Nil,
            VarInit::I(t) => VarInit::E((*t).valCast()),
            VarInit::E(t) => VarInit::E(t),
        }
    }

    /// The value of an evaluated initializer; none without one.
    fn toValue(&self) -> (r: Option<VR>)
        requires
            !(*self is I),
        ensures
            match var_init_view(*self) {
                VarInitV::E(c) => r matches Some(v) && vr_view(v) == iiv_to_vrv(c),
                _ => r is None,
            },
    {
        match self {
            VarInit::Nil => None,
            VarInit::I(_) => None,
            VarInit::E(t) => Some(t.toValue()),
        }
    }
}

// ---------------------------------------------------------------------
// Indices and dimensions.

/// Appends `p` to `q` when both are present.
fn ifpush<T>(q: Option<Vec<T>>, p: Option<T>) -> (r: Option<Vec<T>>)
    ensures
        r is Some <==> (q is Some && p is Some),
        r matches Some(v) ==> v@ == q->Some_0@.push(p->Some_0),
{
    match (q, p) {
        (None, _) => None,
        (_, None) => None,
        (Some(mut t), Some(p)) => {
            t.push(p);
            Some(t)
        },
    }
}

/// All expressions are numbers.
pub open spec fn all_num(s: Seq<ExprV>) -> bool {
    forall|i: int| 0 <= i < s.len() ==> #[trigger] s[i] is Num
}

/// The numbers of expressions that are all numbers.
pub open spec fn nums(s: Seq<ExprV>) -> Seq<i32> {
    Seq::new(s.len(), |i: int| s[i]->Num_0)
}

/// The numbers, when all the expressions are numbers.
pub open spec fn incast_v(s: Seq<ExprV>) -> Option<Seq<i32>> {
    if all_num(s) { Some(nums(s)) } else { None }
}

/// The numbers of `t`, when all are numbers.
pub fn incast(t: &Vec<Exp>) -> (r: Option<Vec<i32>>)
    ensures
        match incast_v(exprs_view(t@)) {
            Some(s) => r matches Some(v) && v@ == s,
            None => r is None,
        },
{
    let ghost tv = exprs_view(t@);
    let mut acc: Option<Vec<i32>> = Some(Vec::new());
    let mut i: usize = 0;
    while i < t.len()
        invariant
            i <= t@.len(),
            tv == exprs_view(t@),
            acc is Some <==> all_num(tv.take(i as int)),
            acc matches Some(v) ==> v@ == nums(tv.take(i as int)),
        decreases t@.len() - i,
    {
        let e = t[i].eval();
        acc = ifpush(acc, e);
        i = i + 1;
        proof {
            assert(tv[i - 1] == expr_view(*t@[i - 1]));
            if acc is Some {
                assert(all_num(tv.take(i as int))) by {
                    assert forall|j: int| 0 <= j < i implies #[trigger] tv.take(i as int)[j] is Num by {
                        if j < i - 1 {
                            assert(tv.take(i as int)[j] == tv.take(i - 1)[j]);
                        }
                    }
                }
                assert(acc->Some_0@ =~= nums(tv.take(i as int)));
            } else {
                if all_num(tv.take(i as int)) {
                    assert(tv.take(i as int)[i - 1] is Num);
                    assert forall|j: int| 0 <= j < i - 1 implies #[trigger] tv.take(i - 1)[j] is Num by {
                        assert(tv.take(i as int)[j] == tv.take(i - 1)[j]);
                    }
                }
            }
        }
    }
    assert(tv.take(i as int) =~= tv);
    acc
}

/// The numbers of `t`, all of which are numbers.
pub fn vicast(t: &Vec<Exp>) -> (r: Vec<i32>)
    requires
        all_num(exprs_view(t@)),
    ensures
        r@ == nums(exprs_view(t@)),
{
    let ghost tv = exprs_view(t@);
    let mut r: Vec<i32> = Vec::new();
    let mut i: usize = 0;
    while i < t.len()
        invariant
            i <= t@.len(),
            tv == exprs_view(t@),
            all_num(tv),
            r@ == nums(tv).take(i as int),
        decreases t@.len() - i,
    {
        assert(tv[i as int] == expr_view(*t@[i as int]));
        assert(tv[i as int] is Num);
        let e = t[i].eval();
        r.push(e.unwrap());
        i = i + 1;
        assert(r@ =~= nums(tv).take(i as int));
    }
    assert(nums(tv).take(i as int) =~= nums(tv));
    r
}

/// Dimensions: the numbers of `t`, with -1 for an expression that is not one
/// (the omitted first dimension of an array parameter).
pub fn dicast(t: &Vec<Exp>) -> (r: Vec<i32>)
    ensures
        r@ == dims_of(exprs_view(t@)),
{
    let ghost tv = exprs_view(t@);
    let mut r: Vec<i32> = Vec::new();
    let mut i: usize = 0;
    while i < t.len()
        invariant
            i <= t@.len(),
            tv == exprs_view(t@),
            r@ == dims_of(tv).take(i as int),
        decreases t@.len() - i,
    {
        assert(tv[i as int] == expr_view(*t@[i as int]));
        let d = match t[i].eval() {
            Some(x) => x,
            None => -1,
        };
        r.push(d);
        i = i + 1;
        assert(r@ =~= dims_of(tv).take(i as int));
    }
    assert(dims_of(tv).take(i as int) =~= dims_of(tv));
    r
}

pub open spec fn dims_of(s: Seq<ExprV>) -> Seq<i32> {
    Seq::new(s.len(), |i: int| if s[i] is Num { s[i]->Num_0 } else { -1i32 })
}

fn bo<T>(a: T) -> (r: Box<T>)
    ensures
        *r == a,
{
    Box::new(a)
}


// ---------------------------------------------------------------------
// Scopes of constants: a stack of scopes, each mapping names to a value
// and its number of dimensions.

/// A name bound in a scope: to the value and number of dimensions of a
/// constant, or to nothing for a variable, which hides outer constants.
pub type Entry = (String, Option<(VR, usize)>);

pub type Scope = Vec<Entry>;

pub type ScopeV = Seq<Seq<(Seq<char>, Option<(VRV, usize)>)>>;

/// One empty scope.
pub open spec fn scope_init() -> ScopeV {
    seq![Seq::<(Seq<char>, Option<(VRV, usize)>)>::empty()]
}

/// The last position of `name` in a scope, or -1.
pub open spec fn entry_index(sc: Seq<(Seq<char>, Option<(VRV, usize)>)>, name: Seq<char>) -> int
    decreases sc.len(),
{
    if sc.len() == 0 {
        -1
    } else if sc.last().0 == name {
        sc.len() - 1
    } else {
        entry_index(sc.drop_last(), name)
    }
}

proof fn lemma_entry_index(sc: Seq<(Seq<char>, Option<(VRV, usize)>)>, name: Seq<char>)
    ensures
        -1 <= entry_index(sc, name) < sc.len(),
        entry_index(sc, name) >= 0 ==> sc[entry_index(sc, name)].0 == name,
    decreases sc.len(),
{
    if sc.len() > 0 {
        lemma_entry_index(sc.drop_last(), name);
    }
}

/// The binding of `name` in a scope, if it has one.
pub open spec fn scope_lookup(sc: Seq<(Seq<char>, Option<(VRV, usize)>)>, name: Seq<char>) -> Option<Option<(VRV, usize)>> {
    let k = entry_index(sc, name);
    if k >= 0 { Some(sc[k].1) } else { None }
}

/// The value of `name` in the innermost scope that binds it: none when
/// that binding is a variable.
pub open spec fn scopes_find(st: ScopeV, name: Seq<char>) -> Option<(VRV, usize)>
    decreases st.len(),
{
    if st.len() == 0 {
        None
    } else {
        match scope_lookup(st.last(), name) {
            Some(x) => x,
            None => scopes_find(st.drop_last(), name),
        }
    }
}

pub open spec fn scope_put(sc: Seq<(Seq<char>, Option<(VRV, usize)>)>, name: Seq<char>, b: Option<(VRV, usize)>) -> Seq<(Seq<char>, Option<(VRV, usize)>)> {
    let k = entry_index(sc, name);
    if k >= 0 { sc.update(k, (name, b)) } else { sc.push((name, b)) }
}

/// `name` bound to `v` with `d` dimensions in the innermost scope.
pub open spec fn scopes_register(st: ScopeV, name: Seq<char>, v: VRV, d: usize) -> ScopeV {
    st.update(st.len() - 1, scope_put(st.last(), name, Some((v, d))))
}

/// `name` bound to a variable in the innermost scope, if there is one: it
/// hides the constants of that name in outer scopes.
pub open spec fn scopes_hide(st: ScopeV, name: Seq<char>) -> ScopeV {
    if st.len() > 0 { st.update(st.len() - 1, scope_put(st.last(), name, None)) } else { st }
}

pub open spec fn scopes_enter(st: ScopeV) -> ScopeV {
    st.push(Seq::empty())
}

pub open spec fn scopes_exit(st: ScopeV) -> ScopeV {
    if st.len() > 0 { st.drop_last() } else { st }
}

pub struct VScope {
    stack: Vec<Scope>,
}

pub open spec fn entry_view(e: Entry) -> (Seq<char>, Option<(VRV, usize)>) {
    (e.0@, match e.1 {
        Some(p) => Some((vr_view(p.0), p.1)),
        None => None,
    })
}

pub open spec fn scope_view(sc: Scope) -> Seq<(Seq<char>, Option<(VRV, usize)>)> {
    Seq::new(sc@.len(), |j: int| entry_view(sc@[j]))
}

impl View for VScope {
    type V = ScopeV;

    closed spec fn view(&self) -> ScopeV {
        Seq::new(self.stack@.len(), |i: int| scope_view(self.stack@[i]))
    }
}

/// Binding a constant and looking it up gives it back; other names keep
/// their values. Binding a variable hides every constant of its name, and
/// other names keep their values. Entering a scope and leaving it restores
/// the scopes, and a new scope hides nothing.
pub proof fn law_scopes(st: ScopeV, n: Seq<char>, v: VRV, d: usize, m: Seq<char>)
    requires
        st.len() > 0,
    ensures
        scopes_find(scopes_register(st, n, v, d), n) == Some((v, d)),
        m != n ==> scopes_find(scopes_register(st, n, v, d), m) == scopes_find(st, m),
        scopes_find(scopes_hide(st, n), n) is None,
        m != n ==> scopes_find(scopes_hide(st, n), m) == scopes_find(st, m),
        scopes_exit(scopes_enter(st)) == st,
        scopes_find(scopes_enter(st), m) == scopes_find(st, m),
{
    let top = st.last();
    lemma_put_index(top, n, Some((v, d)), n);
    lemma_put_index(top, n, Some((v, d)), m);
    lemma_put_index(top, n, None, n);
    lemma_put_index(top, n, None, m);
    let st2 = scopes_register(st, n, v, d);
    assert(st2.last() == scope_put(top, n, Some((v, d))));
    assert(st2.drop_last() =~= st.drop_last());
    let st3 = scopes_hide(st, n);
    assert(st3.last() == scope_put(top, n, None));
    assert(st3.drop_last() =~= st.drop_last());
    assert(scopes_enter(st).drop_last() =~= st);
    assert(scope_lookup(Seq::<(Seq<char>, Option<(VRV, usize)>)>::empty(), m) is None);
}

/// A binding of a constant (`Some`) or of a variable (`None`).
pub open spec fn scopes_bind(st: ScopeV, name: Seq<char>, b: Option<(VRV, usize)>) -> ScopeV {
    match b {
        Some((v, d)) => scopes_register(st, name, v, d),
        None => scopes_hide(st, name),
    }
}

/// The scopes after the bindings `bs`, made in order.
pub open spec fn scopes_bind_all(st: ScopeV, bs: Seq<(Seq<char>, Option<(VRV, usize)>)>) -> ScopeV
    decreases bs.len(),
{
    if bs.len() == 0 {
        st
    } else {
        let s1 = scopes_bind_all(st, bs.drop_last());
        scopes_bind(s1, bs.last().0, bs.last().1)
    }
}

proof fn lemma_bind_all_shape(st: ScopeV, bs: Seq<(Seq<char>, Option<(VRV, usize)>)>)
    requires
        st.len() > 0,
    ensures
        scopes_bind_all(st, bs).len() == st.len(),
        scopes_bind_all(st, bs).drop_last() == st.drop_last(),
    decreases bs.len(),
{
    if bs.len() > 0 {
        lemma_bind_all_shape(st, bs.drop_last());
        let s1 = scopes_bind_all(st, bs.drop_last());
        assert(scopes_bind(s1, bs.last().0, bs.last().1).drop_last() =~= s1.drop_last());
    }
}

/// Leaving a scope undoes every binding made since entering it: after
/// entering, any bindings of constants and variables, and leaving, every
/// name is looked up as before.
pub proof fn law_scope_exit(st: ScopeV, bs: Seq<(Seq<char>, Option<(VRV, usize)>)>, m: Seq<char>)
    ensures
        scopes_exit(scopes_bind_all(scopes_enter(st), bs)) == st,
        scopes_find(scopes_exit(scopes_bind_all(scopes_enter(st), bs)), m) == scopes_find(st, m),
{
    lemma_bind_all_shape(scopes_enter(st), bs);
    assert(scopes_enter(st).drop_last() =~= st);
}

proof fn lemma_put_index(sc: Seq<(Seq<char>, Option<(VRV, usize)>)>, n: Seq<char>, b: Option<(VRV, usize)>, m: Seq<char>)
    ensures
        scope_lookup(scope_put(sc, n, b), n) == Some(b),
        m != n ==> scope_lookup(scope_put(sc, n, b), m) == scope_lookup(sc, m),
    decreases sc.len(),
{
    lemma_entry_index(sc, n);
    lemma_entry_index(sc, m);
    let k = entry_index(sc, n);
    let sc2 = scope_put(sc, n, b);
    if k >= 0 {
        lemma_update_index(sc, k, (n, b), n);
        lemma_update_index(sc, k, (n, b), m);
        if m != n {
            let km = entry_index(sc, m);
            if km >= 0 {
                assert(km != k);
                assert(sc2[km] == sc[km]);
            }
        }
    } else {
        assert(sc2.drop_last() =~= sc);
        assert(sc2.last().0 == n);
        if m != n {
            let km = entry_index(sc, m);
            assert(entry_index(sc2, m) == km);
            if km >= 0 {
                assert(sc2[km] == sc[km]);
            }
        }
    }
}

proof fn lemma_update_index(sc: Seq<(Seq<char>, Option<(VRV, usize)>)>, k: int, e: (Seq<char>, Option<(VRV, usize)>), m: Seq<char>)
    requires
        0 <= k < sc.len(),
        sc[k].0 == e.0,
        entry_index(sc, e.0) == k,
    ensures
        entry_index(sc.update(k, e), m) == entry_index(sc, m),
    decreases sc.len(),
{
    if k < sc.len() - 1 {
        assert(sc.update(k, e).drop_last() =~= sc.drop_last().update(k, e));
        lemma_update_index(sc.drop_last(), k, e, m);
    } else {
        assert(sc.update(k, e).drop_last() =~= sc.drop_last());
    }
}

impl VScope {
    /// A stack holding one empty scope.
    pub fn new() -> (s: VScope)
        ensures
            s@ == scope_init(),
    {
        let mut stack: Vec<Scope> = Vec::new();
        stack.push(Vec::new());
        let s = VScope { stack };
        assert(s@[0] =~= Seq::<(Seq<char>, Option<(VRV, usize)>)>::empty());
        assert(s@ =~= seq![Seq::<(Seq<char>, Option<(VRV, usize)>)>::empty()]);
        s
    }

    /// The value and dimensions of `name`, from the innermost scope holding it.
    #[verifier::loop_isolation(false)]
    pub fn find(&self, name: &String) -> (r: Option<&(VR, usize)>)
        ensures
            match scopes_find(self@, name@) {
                Some((v, d)) => r matches Some(p) && vr_view(p.0) == v && p.1 == d,
                None => r is None,
            },
    {
        let mut i: usize = self.stack.len();
        assert(self@.take(i as int) =~= self@);
        while i > 0
            invariant
                i <= self.stack@.len(),
                scopes_find(self@, name@) == scopes_find(self@.take(i as int), name@),
            decreases i,
        {
            let sc = &self.stack[i - 1];
            let ghost scv = self@[i - 1];
            assert(scv == scope_view(*sc));
            assert(self@.take(i as int).drop_last() =~= self@.take(i - 1));
            assert(self@.take(i as int).last() == scv);
            let mut j: usize = sc.len();
            assert(scv.take(j as int) =~= scv);
            while j > 0
                invariant
                    j <= sc@.len(),
                    scv == scope_view(*sc),
                    entry_index(scv, name@) == entry_index(scv.take(j as int), name@),
                decreases j,
            {
                assert(scv.take(j as int).drop_last() =~= scv.take(j - 1));
                if sc[j - 1].0 == *name {
                    assert(scv[j - 1] == entry_view(sc@[j - 1]));
                    assert(scv.take(j as int).last() == scv[j - 1]);
                    assert(scope_lookup(scv, name@) == Some(scv[j - 1].1));
                    return match &sc[j - 1].1 {
                        Some(p) => Some(p),
                        None => None,
                    };
                }
                j = j - 1;
            }
            assert(scv.take(0) =~= Seq::<(Seq<char>, Option<(VRV, usize)>)>::empty());
            i = i - 1;
        }
        assert(self@.take(0) =~= Seq::<Seq<(Seq<char>, Option<(VRV, usize)>)>>::empty());
        None
    }

    /// Opens a new, empty scope.
    pub fn enter(&mut self)
        ensures
            final(self)@ == scopes_enter(old(self)@),
    {
        self.stack.push(Vec::new());
        assert(self@[self@.len() - 1] =~= Seq::<(Seq<char>, Option<(VRV, usize)>)>::empty());
        assert(self@ =~= scopes_enter(old(self)@));
    }

    /// Closes the innermost scope.
    pub fn exit(&mut self)
        ensures
            final(self)@ == scopes_exit(old(self)@),
    {
        self.stack.pop();
        assert(self@ =~= scopes_exit(old(self)@));
    }

    /// Binds `name` to `val` with `dim` dimensions in the innermost scope.
    pub fn register(&mut self, name: &String, val: VR, dim: usize)
        requires
            old(self)@.len() > 0,
        ensures
            final(self)@ == scopes_register(old(self)@, name@, vr_view(val), dim),
    {
        let ghost v = vr_view(val);
        self.put(name, Some((val, dim)));
        assert(entry_view((*name, Some((val, dim)))).1 == Some((v, dim)));
    }

    /// Binds `name` to a variable in the innermost scope, if there is one,
    /// hiding the constants of that name in outer scopes.
    pub fn bind_var(&mut self, name: &String)
        ensures
            final(self)@ == scopes_hide(old(self)@, name@),
    {
        if self.stack.len() > 0 {
            self.put(name, None);
        }
    }

    /// Binds `name` to `b` in the innermost scope.
    #[verifier::loop_isolation(false)]
    fn put(&mut self, name: &String, b: Option<(VR, usize)>)
        requires
            old(self)@.len() > 0,
        ensures
            final(self)@ == old(self)@.update(
                old(self)@.len() - 1,
                scope_put(old(self)@.last(), name@, entry_view((*name, b)).1),
            ),
    {
        let r = self.stack.len() - 1;
        let ghost top = self@[r as int];
        assert(top == scope_view(self.stack@[r as int]));
        let mut j: usize = self.stack[r].len();
        let mut found: Option<usize> = None;
        assert(top.take(j as int) =~= top);
        while j > 0 && found.is_none()
            invariant
                r < self.stack@.len(),
                j <= self.stack@[r as int]@.len(),
                top == scope_view(self.stack@[r as int]),
                found is None ==> entry_index(top, name@) == entry_index(top.take(j as int), name@),
                found matches Some(k) ==> entry_index(top, name@) == k && k < self.stack@[r as int]@.len(),
            decreases j,
        {
            assert(top.take(j as int).drop_last() =~= top.take(j - 1));
            if self.stack[r][j - 1].0 == *name {
                proof {
                    assert(top[j - 1] == entry_view(self.stack@[r as int]@[j - 1]));
                    assert(top.take(j as int).last() == top[j - 1]);
                }
                found = Some(j - 1);
            }
            j = j - 1;
        }
        proof {
            if found is None {
                assert(top.take(j as int) =~= Seq::<(Seq<char>, Option<(VRV, usize)>)>::empty());
            }
        }
        let ghost ev = entry_view((*name, b));
        let e: Entry = (name.clone(), b);
        assert(entry_view(e) == ev);
        match found {
            Some(k) => {
                assert(entry_index(top, name@) == k);
                self.stack[r].set(k, e);
                assert(self@[r as int] =~= top.update(k as int, ev));
            },
            None => {
                assert(entry_index(top, name@) == -1);
                self.stack[r].push(e);
                assert(self@[r as int] =~= top.push(ev));
            },
        }
        assert(self@ =~= old(self)@.update(r as int, scope_put(top, name@, ev.1))) by {
            assert(self@[r as int] =~= scope_put(top, name@, ev.1));
        }
    }
}


// ---------------------------------------------------------------------
// Constant folding of the syntax tree. A variable declared `const` is
// evaluated, reshaped to its dimensions and bound in the innermost scope;
// a use of a bound constant whose indices are all numbers becomes its
// value; operators on numbers are computed.

/// `n[ind]` after folding its indices: the element of a bound constant
/// when every index is a number and there are as many as its dimensions.
pub open spec fn lval_fold(n: Seq<char>, ind: Seq<ExprV>, st: ScopeV) -> ExprV {
    match scopes_find(st, n) {
        Some((t, d)) => match incast_v(ind) {
            Some(r) => if r.len() == d { ExprV::Num(vrv_at(t, r)) } else { ExprV::LVal(n, ind) },
            None => ExprV::LVal(n, ind),
        },
        None => ExprV::LVal(n, ind),
    }
}

/// An expression with constants folded.
pub open spec fn fold_expr(e: ExprV, st: ScopeV) -> ExprV
    decreases e,
{
    match e {
        ExprV::Nil => ExprV::Nil,
        ExprV::FnCall(n, a) => ExprV::FnCall(n, fold_all(a, st)),
        ExprV::Num(t) => ExprV::Num(t),
        ExprV::LVal(n, ind) => lval_fold(n, fold_all(ind, st), st),
        ExprV::Op(l, o, r) => expr_op_v(fold_expr(*l, st), o, fold_expr(*r, st)),
        ExprV::UOp(o, r) => expr_uop_v(o, fold_expr(*r, st)),
    }
}

/// Folding does not divide by zero or overflow.
pub open spec fn fold_ok(e: ExprV, st: ScopeV) -> bool
    decreases e,
{
    match e {
        ExprV::FnCall(n, a) => forall|i: int| 0 <= i < a.len() ==> fold_ok(#[trigger] a[i], st),
        ExprV::LVal(n, ind) => forall|i: int| 0 <= i < ind.len() ==> fold_ok(#[trigger] ind[i], st),
        ExprV::Op(l, o, r) => fold_ok(*l, st) && fold_ok(*r, st) && expr_op_ok(fold_expr(*l, st), o, fold_expr(*r, st)),
        ExprV::UOp(o, r) => fold_ok(*r, st) && expr_uop_ok(o, fold_expr(*r, st)),
        _ => true,
    }
}

/// Each expression folded.
pub open spec fn fold_all(a: Seq<ExprV>, st: ScopeV) -> Seq<ExprV>
    decreases a,
{
    Seq::new(a.len(), |i: int| if 0 <= i < a.len() { fold_expr(a[i], st) } else { ExprV::Nil })
}

pub open spec fn fold_all_ok(a: Seq<ExprV>, st: ScopeV) -> bool {
    forall|i: int| 0 <= i < a.len() ==> fold_ok(#[trigger] a[i], st)
}

pub open spec fn fold_cond(c: CondV, st: ScopeV) -> CondV
    decreases c,
{
    match c {
        CondV::And(a, b) => CondV::And(Box::new(fold_cond(*a, st)), Box::new(fold_cond(*b, st))),
        CondV::Or(a, b) => CondV::Or(Box::new(fold_cond(*a, st)), Box::new(fold_cond(*b, st))),
        CondV::Comp(e) => CondV::Comp(fold_expr(e, st)),
    }
}

pub open spec fn fold_cond_ok(c: CondV, st: ScopeV) -> bool
    decreases c,
{
    match c {
        CondV::And(a, b) => fold_cond_ok(*a, st) && fold_cond_ok(*b, st),
        CondV::Or(a, b) => fold_cond_ok(*a, st) && fold_cond_ok(*b, st),
        CondV::Comp(e) => fold_ok(e, st),
    }
}

pub open spec fn fold_init(c: InitEV, st: ScopeV) -> InitEV
    decreases c,
{
    match c {
        InitEV::Val(e) => InitEV::Val(fold_expr(e, st)),
        InitEV::Vax(s) => InitEV::Vax(
            Seq::new(s.len(), |i: int| if 0 <= i < s.len() { fold_init(s[i], st) } else { InitEV::Vax(Seq::empty()) }),
        ),
    }
}

pub open spec fn fold_init_ok(c: InitEV, st: ScopeV) -> bool
    decreases c,
{
    match c {
        InitEV::Val(e) => fold_ok(e, st),
        InitEV::Vax(s) => forall|i: int| 0 <= i < s.len() ==> fold_init_ok(#[trigger] s[i], st),
    }
}

pub open spec fn fold_var_init(v: VarInitV, st: ScopeV) -> VarInitV {
    match v {
        VarInitV::I(c) => VarInitV::I(fold_init(c, st)),
        v => v,
    }
}

pub open spec fn fold_var_init_ok(v: VarInitV, st: ScopeV) -> bool {
    match v {
        VarInitV::I(c) => fold_init_ok(c, st),
        _ => true,
    }
}

/// The value of an initializer after folding: its list evaluated, or none.
pub open spec fn init_value(v: VarInitV) -> Option<VRV> {
    match v {
        VarInitV::I(c) => Some(iiv_to_vrv(init_val_cast(c))),
        VarInitV::E(c) => Some(iiv_to_vrv(c)),
        VarInitV::Nil => None,
    }
}

/// The value a constant declaration binds: its initializer (zero when it
/// has none) reshaped to its dimensions.
pub open spec fn const_value(d: VarDeclV, st: ScopeV) -> VRV {
    let dims = nums(fold_all(d.dims, st));
    let v = match init_value(fold_var_init(d.init, st)) {
        Some(v) => v,
        None => VRV::Int(0),
    };
    reshape_v(v, strides(dims))
}

/// A declared variable after folding, and the scopes after it: a constant
/// is bound to its value, a variable hides the constants of its name.
pub open spec fn prep_var_decl(d: VarDeclV, st: ScopeV) -> (VarDeclV, ScopeV) {
    let dims = fold_all(d.dims, st);
    if d.dtype == DeclType::Const {
        let v = const_value(d, st);
        (
            VarDeclV { dims: dims, init: VarInitV::E(vrv_to_iiv(v)), ..d },
            scopes_register(st, d.name, v, nums(dims).len() as usize),
        )
    } else {
        (VarDeclV { dims: dims, init: fold_var_init(d.init, st), ..d }, scopes_hide(st, d.name))
    }
}

/// Folding a declared variable is defined: a constant has a scope to be
/// bound in, dimensions and initializer that fold to numbers, and positive
/// dimensions whose products fit in an `i32`.
pub open spec fn prep_var_decl_ok(d: VarDeclV, st: ScopeV) -> bool {
    &&& d.dtype == DeclType::Const ==> st.len() > 0
    &&& fold_all_ok(d.dims, st)
    &&& fold_var_init_ok(d.init, st)
    &&& d.dtype == DeclType::Const ==> {
        let dims = fold_all(d.dims, st);
        &&& all_num(dims)
        &&& dims_fit(nums(dims))
        &&& dims_positive(nums(dims))
        &&& fold_var_init(d.init, st) matches VarInitV::I(c) ==> init_all_num(c)
    }
}

/// Declared variables folded in order, each in the scopes left by the
/// ones before it.
pub open spec fn prep_var_decls(s: Seq<VarDeclV>, st: ScopeV) -> (Seq<VarDeclV>, ScopeV)
    decreases s.len(),
{
    if s.len() == 0 {
        (Seq::empty(), st)
    } else {
        let (pre, st1) = prep_var_decls(s.drop_last(), st);
        let (d, st2) = prep_var_decl(s.last(), st1);
        (pre.push(d), st2)
    }
}

pub open spec fn prep_var_decls_ok(s: Seq<VarDeclV>, st: ScopeV) -> bool
    decreases s.len(),
{
    s.len() == 0 || (prep_var_decls_ok(s.drop_last(), st) && prep_var_decl_ok(
        s.last(),
        prep_var_decls(s.drop_last(), st).1,
    ))
}

pub open spec fn prep_decl(d: DeclV, st: ScopeV) -> (DeclV, ScopeV) {
    let (v, st2) = prep_var_decls(d.vars, st);
    (DeclV { dtype: d.dtype, vars: v }, st2)
}

pub open spec fn prep_stmt(s: StmtV, st: ScopeV) -> StmtV
    decreases s,
{
    match s {
        StmtV::Assign(n, ind, e) => StmtV::Assign(n, fold_all(ind, st), fold_expr(e, st)),
        StmtV::Expr(e) => StmtV::Expr(fold_expr(e, st)),
        StmtV::Block(b) => StmtV::Block(prep_items(b, scopes_enter(st)).0),
        StmtV::If(c, t, x) => StmtV::If(
            fold_cond(c, st),
            Box::new(prep_stmt(*t, st)),
            match x {
                Some(y) => Some(Box::new(prep_stmt(*y, st))),
                None => None,
            },
        ),
        StmtV::While(c, t) => StmtV::While(fold_cond(c, st), Box::new(prep_stmt(*t, st))),
        StmtV::Ret(e) => StmtV::Ret(fold_expr(e, st)),
        s => s,
    }
}

/// The items of a block folded in order, and the scopes after them.
pub open spec fn prep_items(b: Seq<ItemV>, st: ScopeV) -> (Seq<ItemV>, ScopeV)
    decreases b,
{
    if b.len() == 0 {
        (Seq::empty(), st)
    } else {
        let (pre, st1) = prep_items(b.drop_last(), st);
        let (x, st2) = prep_item(b.last(), st1);
        (pre.push(x), st2)
    }
}

pub open spec fn prep_item(i: ItemV, st: ScopeV) -> (ItemV, ScopeV)
    decreases i,
{
    match i {
        ItemV::Decl(d) => {
            let (d2, st2) = prep_decl(d, st);
            (ItemV::Decl(d2), st2)
        },
        ItemV::Stmt(s) => (ItemV::Stmt(Box::new(prep_stmt(*s, st))), st),
    }
}

pub open spec fn prep_stmt_ok(s: StmtV, st: ScopeV) -> bool
    decreases s,
{
    match s {
        StmtV::Assign(n, ind, e) => fold_all_ok(ind, st) && fold_ok(e, st),
        StmtV::Expr(e) => fold_ok(e, st),
        StmtV::Block(b) => prep_items_ok(b, scopes_enter(st)),
        StmtV::If(c, t, x) => fold_cond_ok(c, st) && prep_stmt_ok(*t, st) && match x {
            Some(y) => prep_stmt_ok(*y, st),
            None => true,
        },
        StmtV::While(c, t) => fold_cond_ok(c, st) && prep_stmt_ok(*t, st),
        StmtV::Ret(e) => fold_ok(e, st),
        _ => true,
    }
}

pub open spec fn prep_items_ok(b: Seq<ItemV>, st: ScopeV) -> bool
    decreases b,
{
    b.len() == 0 || (prep_items_ok(b.drop_last(), st) && prep_item_ok(b.last(), prep_items(b.drop_last(), st).1))
}

pub open spec fn prep_item_ok(i: ItemV, st: ScopeV) -> bool
    decreases i,
{
    match i {
        ItemV::Decl(d) => prep_var_decls_ok(d.vars, st),
        ItemV::Stmt(s) => prep_stmt_ok(*s, st),
    }
}

/// A function folded: its parameters in a scope of their own, which hides
/// the constants of their names, and its body in a scope inside that one;
/// the scopes are left as they were.
pub open spec fn prep_func(f: FuncV, st: ScopeV) -> (FuncV, ScopeV) {
    let (p, st1) = prep_var_decls(f.param, scopes_enter(st));
    (FuncV { param: p, body: prep_items(f.body, scopes_enter(st1)).0, ..f }, st)
}

pub open spec fn prep_func_ok(f: FuncV, st: ScopeV) -> bool {
    let (p, st1) = prep_var_decls(f.param, scopes_enter(st));
    prep_var_decls_ok(f.param, scopes_enter(st)) && prep_items_ok(f.body, scopes_enter(st1))
}

pub open spec fn prep_unit(u: UnitV, st: ScopeV) -> (UnitV, ScopeV) {
    match u {
        UnitV::Decl(d) => {
            let (d2, st2) = prep_decl(d, st);
            (UnitV::Decl(d2), st2)
        },
        UnitV::Func(f) => {
            let (f2, st2) = prep_func(f, st);
            (UnitV::Func(f2), st2)
        },
    }
}

pub open spec fn prep_unit_ok(u: UnitV, st: ScopeV) -> bool {
    match u {
        UnitV::Decl(d) => prep_var_decls_ok(d.vars, st),
        UnitV::Func(f) => prep_func_ok(f, st),
    }
}


proof fn lemma_register_shape(st: ScopeV, n: Seq<char>, v: VRV, d: usize)
    ensures
        st.len() > 0 ==> scopes_register(st, n, v, d).len() == st.len(),
        st.len() > 0 ==> scopes_register(st, n, v, d).drop_last() == st.drop_last(),
        scopes_hide(st, n).len() == st.len(),
        st.len() > 0 ==> scopes_hide(st, n).drop_last() == st.drop_last(),
{
    if st.len() > 0 {
        assert(scopes_register(st, n, v, d).drop_last() =~= st.drop_last());
        assert(scopes_hide(st, n).drop_last() =~= st.drop_last());
    }
}

/// Folding declarations changes only the innermost scope.
proof fn lemma_var_decls_shape(s: Seq<VarDeclV>, st: ScopeV)
    requires
        st.len() > 0 || prep_var_decls_ok(s, st),
    ensures
        prep_var_decls(s, st).1.len() == st.len(),
        st.len() > 0 ==> prep_var_decls(s, st).1.drop_last() == st.drop_last(),
    decreases s.len(),
{
    if s.len() > 0 {
        lemma_var_decls_shape(s.drop_last(), st);
        let st1 = prep_var_decls(s.drop_last(), st).1;
        let d = s.last();
        let dims = fold_all(d.dims, st1);
        lemma_register_shape(st1, d.name, const_value(d, st1), nums(dims).len() as usize);
    }
}

/// Folding the items of a block changes only the innermost scope.
proof fn lemma_items_shape(b: Seq<ItemV>, st: ScopeV)
    requires
        st.len() > 0,
    ensures
        prep_items(b, st).1.len() == st.len(),
        prep_items(b, st).1.drop_last() == st.drop_last(),
    decreases b.len(),
{
    if b.len() > 0 {
        lemma_items_shape(b.drop_last(), st);
        let st1 = prep_items(b.drop_last(), st).1;
        let st2 = prep_item(b.last(), st1).1;
        assert(prep_items(b, st).1 == st2);
        match b.last() {
            ItemV::Decl(d) => {
                lemma_var_decls_shape(d.vars, st1);
                assert(st2 == prep_var_decls(d.vars, st1).1);
            },
            ItemV::Stmt(_) => {
                assert(st2 == st1);
            },
        }
    }
}

pub proof fn lemma_exprs_view_push(a: Seq<Exp>, x: Exp)
    ensures
        exprs_view(a.push(x)) == exprs_view(a).push(expr_view(*x)),
{
    assert(exprs_view(a.push(x)) =~= exprs_view(a).push(expr_view(*x)));
}

impl Expr {
    /// This expression with constants folded.
    pub fn fold(self, scope: &VScope) -> (r: Expr)
        requires
            fold_ok(expr_view(self), scope@),
        ensures
            expr_view(r) == fold_expr(expr_view(self), scope@),
        decreases self,
    {
        let ghost orig = self;
        match self {
            Expr::Nil => Expr::Nil,
            Expr::FnCall(a, b) => {
                let ghost bv = exprs_view(b@);
                assert(expr_view(orig) == ExprV::FnCall(a@, bv)) by {
                    assert(expr_view(orig)->FnCall_1 =~= bv);
                }
                let b2 = fold_vec(b, scope);
                let r = Expr::FnCall(a, b2);
                assert(expr_view(r) == ExprV::FnCall(a@, fold_all(bv, scope@))) by {
                    assert(expr_view(r)->FnCall_1 =~= fold_all(bv, scope@));
                }
                r
            },
            Expr::Num(a) => Expr::Num(a),
            Expr::LVal(a) => {
                let ghost iv = exprs_view(a.ind@);
                assert(expr_view(orig) == ExprV::LVal(a.name@, iv)) by {
                    assert(expr_view(orig)->LVal_1 =~= iv);
                }
                let a = a.fold(scope);
                let ghost folded = fold_all(iv, scope@);
                assert(exprs_view(a.ind@) == folded);
                assert(fold_expr(expr_view(orig), scope@) == lval_fold(a.name@, folded, scope@));
                let val = scope.find(&a.name);
                let plain = Expr::LVal(a);
                assert(expr_view(plain) == ExprV::LVal(plain->LVal_0.name@, folded)) by {
                    assert(expr_view(plain)->LVal_1 =~= folded);
                }
                if let Some((t, d)) = val {
                    let Expr::LVal(a) = plain else { return plain; };
                    let r = incast(&a.ind);
                    if let Some(r) = r {
                        if r.len() == *d {
                            Expr::Num(t.at(r.as_slice()))
                        } else {
                            Expr::LVal(a)
                        }
                    } else {
                        Expr::LVal(a)
                    }
                } else {
                    plain
                }
            },
            Expr::Op(l, o, r) => {
                let l2 = (*l).fold(scope);
                let r2 = (*r).fold(scope);
                ExprOp(l2, o, r2)
            },
            Expr::UOp(o, r) => {
                let r2 = (*r).fold(scope);
                ExprUop(o, r2)
            },
        }
    }
}

impl LVal {
    /// This variable with its indices folded.
    pub fn fold(self, scope: &VScope) -> (r: LVal)
        requires
            fold_all_ok(exprs_view(self.ind@), scope@),
        ensures
            r.name == self.name,
            exprs_view(r.ind@) == fold_all(exprs_view(self.ind@), scope@),
        decreases self,
    {
        LVal { ind: fold_vec(self.ind, scope), ..self }
    }
}

/// Each expression of `a` folded.
pub fn fold_vec(a: Vec<Exp>, scope: &VScope) -> (r: Vec<Exp>)
    requires
        fold_all_ok(exprs_view(a@), scope@),
    ensures
        exprs_view(r@) == fold_all(exprs_view(a@), scope@),
    decreases a,
{
    let ghost orig = a;
    let ghost av = a@;
    let ghost ev = exprs_view(av);
    let mut out: Vec<Exp> = Vec::new();
    for x in iter: a.into_iter()
        invariant
            iter.seq() == av,
            av == orig@,
            ev == exprs_view(av),
            fold_all_ok(ev, scope@),
            out@.len() == iter.index(),
            exprs_view(out@) == fold_all(ev, scope@).take(iter.index() as int),
    {
        let ghost k = iter.index();
        assert(x == av[k]);
        assert(ev[k] == expr_view(*av[k]));
        assert(fold_ok(ev[k], scope@));
        assert(decreases_to!(orig => av[k]));
        let y = (*x).fold(scope);
        let ghost before = out@;
        out.push(Box::new(y));
        proof {
            lemma_exprs_view_push(before, Box::new(y));
            assert(exprs_view(out@) =~= fold_all(ev, scope@).take(k + 1));
        }
    }
    assert(fold_all(ev, scope@).take(av.len() as int) =~= fold_all(ev, scope@));
    out
}


pub proof fn lemma_stmt_block(b: Block)
    ensures
        stmt_view(Stmt::Block(b)) == StmtV::Block(items_view(b@)),
{
    let w = stmt_view(Stmt::Block(b));
    assert(w->Block_0 =~= items_view(b@));
}

pub proof fn lemma_items_view_push(a: Seq<Box<BlockItem>>, x: Box<BlockItem>)
    ensures
        items_view(a.push(x)) == items_view(a).push(item_view(*x)),
{
    assert(items_view(a.push(x)) =~= items_view(a).push(item_view(*x)));
}

pub proof fn lemma_var_decls_view_push(a: Seq<Box<VarDecl>>, x: Box<VarDecl>)
    ensures
        var_decls_view(a.push(x)) == var_decls_view(a).push(var_decl_view(*x)),
{
    assert(var_decls_view(a.push(x)) =~= var_decls_view(a).push(var_decl_view(*x)));
}

proof fn lemma_items_prefix(b: Seq<ItemV>, st: ScopeV, k: int)
    requires
        prep_items_ok(b, st),
        0 <= k <= b.len(),
    ensures
        prep_items_ok(b.take(k), st),
        k < b.len() ==> prep_item_ok(b[k], prep_items(b.take(k), st).1),
    decreases b.len() - k,
{
    if k == b.len() {
        assert(b.take(k) =~= b);
    } else {
        lemma_items_prefix(b.drop_last(), st, k);
        assert(b.drop_last().take(k) =~= b.take(k));
        if k + 1 == b.len() {
            assert(b.drop_last() =~= b.take(k));
        } else {
            lemma_items_prefix(b.drop_last(), st, k + 1);
            assert(b.drop_last().take(k + 1) =~= b.take(k + 1));
            assert(b.take(k + 1).drop_last() =~= b.take(k));
        }
    }
}

proof fn lemma_var_decls_prefix(b: Seq<VarDeclV>, st: ScopeV, k: int)
    requires
        prep_var_decls_ok(b, st),
        0 <= k <= b.len(),
    ensures
        prep_var_decls_ok(b.take(k), st),
        k < b.len() ==> prep_var_decl_ok(b[k], prep_var_decls(b.take(k), st).1),
    decreases b.len() - k,
{
    if k == b.len() {
        assert(b.take(k) =~= b);
    } else {
        lemma_var_decls_prefix(b.drop_last(), st, k);
        assert(b.drop_last().take(k) =~= b.take(k));
        if k + 1 == b.len() {
            assert(b.drop_last() =~= b.take(k));
        } else {
            lemma_var_decls_prefix(b.drop_last(), st, k + 1);
            assert(b.drop_last().take(k + 1) =~= b.take(k + 1));
            assert(b.take(k + 1).drop_last() =~= b.take(k));
        }
    }
}

impl CondExpr {
    /// This condition with constants folded.
    pub fn fold(self, scope: &VScope) -> (r: CondExpr)
        requires
            fold_cond_ok(cond_view(self), scope@),
        ensures
            cond_view(r) == fold_cond(cond_view(self), scope@),
        decreases self,
    {
        match self {
            CondExpr::And(a, b) => CondExpr::And(bo((*a).fold(scope)), bo((*b).fold(scope))),
            CondExpr::Or(a, b) => CondExpr::Or(bo((*a).fold(scope)), bo((*b).fold(scope))),
            CondExpr::Comp(a) => CondExpr::Comp(bo((*a).fold(scope))),
        }
    }
}

impl InitCont<Exp> {
    /// This initializer list with constants folded.
    #[verifier::loop_isolation(false)]
    pub fn fold(self, scope: &VScope) -> (r: InitCont<Exp>)
        requires
            fold_init_ok(init_e_view(self), scope@),
        ensures
            init_e_view(r) == fold_init(init_e_view(self), scope@),
        decreases self,
    {
        let ghost orig = self;
        match self {
            InitCont::Val(e) => InitCont::Val(bo((*e).fold(scope))),
            InitCont::Vax(t) => {
                proof { lemma_init_e_vax(t); }
                let ghost tv = t@;
                let ghost ev = init_e_views(tv);
                let mut out: Vec<Box<InitCont<Exp>>> = Vec::new();
                for x in iter: t.into_iter()
                    invariant
                        iter.seq() == tv,
                        out@.len() == iter.index(),
                        forall|i: int| 0 <= i < iter.index() ==> init_e_view(*#[trigger] out@[i]) == fold_init(ev[i], scope@),
                {
                    let ghost k = iter.index();
                    assert(x == tv[k]);
                    assert(ev[k] == init_e_view(*tv[k]));
                    assert(decreases_to!(orig => tv[k]));
                    let y = (*x).fold(scope);
                    out.push(bo(y));
                }
                proof {
                    lemma_init_e_vax(out);
                    let want = fold_init(InitEV::Vax(ev), scope@);
                    assert(init_e_views(out@) =~= want->Vax_0);
                }
                InitCont::Vax(out)
            },
        }
    }
}

impl VarInit {
    /// This initializer with constants folded.
    pub fn fold(self, scope: &VScope) -> (r: VarInit)
        requires
            fold_var_init_ok(var_init_view(self), scope@),
        ensures
            var_init_view(r) == fold_var_init(var_init_view(self), scope@),
    {
        match self {
            VarInit::Nil => VarInit::Nil,
            VarInit::I(e) => VarInit::I(Box::new((*e).fold(scope))),
            VarInit::E(e) => VarInit::E(e),
        }
    }
}

impl VarDecl {
    /// This declared variable folded; a constant is evaluated and bound.
    pub fn prep_d(self, scope: &mut VScope) -> (r: VarDecl)
        requires
            prep_var_decl_ok(var_decl_view(self), old(scope)@),
        ensures
            (var_decl_view(r), final(scope)@) == prep_var_decl(var_decl_view(self), old(scope)@),
    {
        let ghost st = scope@;
        let ghost dv = var_decl_view(self);
        let VarDecl { dtype, name, dims, init } = self;
        let dims = fold_vec(dims, scope);
        let init = init.fold(scope);
        if dtype == DeclType::Const {
            let init = init.valCast();
            let eval = init.toValue();
            let d = vicast(&dims);
            let eval = VR::reshape(eval, &d);
            assert(vr_view(eval) == const_value(dv, st));
            let init = eval.to_vi();
            let n = d.len();
            scope.register(&name, eval, n);
            let r = VarDecl { dtype, name, dims, init };
            assert(var_decl_view(r) == prep_var_decl(dv, st).0);
            r
        } else {
            scope.bind_var(&name);
            VarDecl { dtype, name, dims, init }
        }
    }
}

/// Declared variables folded in order.
pub fn prep_var_decls_vec(v: Vec<Box<VarDecl>>, scope: &mut VScope) -> (r: Vec<Box<VarDecl>>)
    requires
        prep_var_decls_ok(var_decls_view(v@), old(scope)@),
    ensures
        (var_decls_view(r@), final(scope)@) == prep_var_decls(var_decls_view(v@), old(scope)@),
{
    let ghost st = scope@;
    let ghost vv = v@;
    let ghost dv = var_decls_view(vv);
    let mut out: Vec<Box<VarDecl>> = Vec::new();
    assert(dv.take(0) =~= Seq::<VarDeclV>::empty());
    assert(var_decls_view(out@) =~= Seq::<VarDeclV>::empty());
    for x in iter: v.into_iter()
        invariant
            iter.seq() == vv,
            dv == var_decls_view(vv),
            prep_var_decls_ok(dv, st),
            out@.len() == iter.index(),
            (var_decls_view(out@), scope@) == prep_var_decls(dv.take(iter.index() as int), st),
    {
        let ghost k = iter.index();
        proof {
            lemma_var_decls_prefix(dv, st, k);
            lemma_var_decls_shape(dv.take(k), st);
            assert(dv.take(k + 1).drop_last() =~= dv.take(k));
            assert(dv[k] == var_decl_view(*vv[k]));
            assert(x == vv[k]);
        }
        let y = (*x).prep_d(scope);
        let ghost before = out@;
        out.push(bo(y));
        proof {
            lemma_var_decls_view_push(before, out@.last());
            assert(out@ =~= before.push(out@.last()));
        }
    }
    assert(dv.take(vv.len() as int) =~= dv);
    out
}

impl Decl {
    /// This declaration folded.
    pub fn prep_decl(self, scope: &mut VScope) -> (r: Decl)
        requires
            prep_var_decls_ok(decl_view(self).vars, old(scope)@),
        ensures
            (decl_view(r), final(scope)@) == prep_decl(decl_view(self), old(scope)@),
    {
        let Decl(l, r) = self;
        Decl(l, prep_var_decls_vec(r, scope))
    }
}

impl Stmt {
    /// This statement folded; the scopes are left as they were.
    pub fn prep_s(self, scope: &mut VScope) -> (r: Stmt)
        requires
            prep_stmt_ok(stmt_view(self), old(scope)@),
        ensures
            stmt_view(r) == prep_stmt(stmt_view(self), old(scope)@),
            final(scope)@ == old(scope)@,
        decreases self,
    {
        let ghost st = scope@;
        match self {
            Stmt::Assign(l, e) => {
                let l2 = l.fold(scope);
                let e2 = (*e).fold(scope);
                Stmt::Assign(l2, bo(e2))
            },
            Stmt::Expr(e) => Stmt::Expr(bo((*e).fold(scope))),
            Stmt::Block(b) => {
                proof { lemma_stmt_block(b); }
                scope.enter();
                let r = prep_block_items(b, scope);
                proof { lemma_items_shape(items_view(b@), scopes_enter(st)); }
                scope.exit();
                assert(scope@ =~= st);
                proof { lemma_stmt_block(r); }
                Stmt::Block(r)
            },
            Stmt::If(c, t, s) => {
                let c2 = (*c).fold(scope);
                let t2 = (*t).prep_s(scope);
                let s2 = match s {
                    Some(x) => Some(bo((*x).prep_s(scope))),
                    None => None,
                };
                Stmt::If(bo(c2), bo(t2), s2)
            },
            Stmt::While(c, s) => {
                let c2 = (*c).fold(scope);
                let s2 = (*s).prep_s(scope);
                Stmt::While(bo(c2), bo(s2))
            },
            Stmt::Ret(e) => Stmt::Ret(bo((*e).fold(scope))),
            n => n,
        }
    }
}

impl BlockItem {
    /// This item folded.
    pub fn prep_i(self, scope: &mut VScope) -> (r: BlockItem)
        requires
            prep_item_ok(item_view(self), old(scope)@),
        ensures
            (item_view(r), final(scope)@) == prep_item(item_view(self), old(scope)@),
        decreases self,
    {
        match self {
            BlockItem::Decl(t) => BlockItem::Decl(bo((*t).prep_decl(scope))),
            BlockItem::Stmt(t) => BlockItem::Stmt(bo((*t).prep_s(scope))),
        }
    }
}

/// The items of a block folded in order.
pub fn prep_block_items(b: Block, scope: &mut VScope) -> (r: Block)
    requires
        old(scope)@.len() > 0,
        prep_items_ok(items_view(b@), old(scope)@),
    ensures
        (items_view(r@), final(scope)@) == prep_items(items_view(b@), old(scope)@),
    decreases b,
{
    let ghost orig = b;
    let ghost st = scope@;
    let ghost bv = b@;
    let ghost iv = items_view(bv);
    let mut out: Block = Vec::new();
    assert(iv.take(0) =~= Seq::<ItemV>::empty());
    assert(items_view(out@) =~= Seq::<ItemV>::empty());
    for x in iter: b.into_iter()
        invariant
            iter.seq() == bv,
            bv == orig@,
            iv == items_view(bv),
            prep_items_ok(iv, st),
            st.len() > 0,
            out@.len() == iter.index(),
            (items_view(out@), scope@) == prep_items(iv.take(iter.index() as int), st),
    {
        let ghost k = iter.index();
        proof {
            lemma_items_prefix(iv, st, k);
            lemma_items_shape(iv.take(k), st);
            assert(iv.take(k + 1).drop_last() =~= iv.take(k));
            assert(iv[k] == item_view(*bv[k]));
            assert(x == bv[k]);
            assert(decreases_to!(orig => bv[k]));
        }
        let y = (*x).prep_i(scope);
        let ghost before = out@;
        out.push(bo(y));
        proof {
            lemma_items_view_push(before, out@.last());
            assert(out@ =~= before.push(out@.last()));
        }
    }
    assert(iv.take(bv.len() as int) =~= iv);
    out
}

/// A block folded in a new scope, which is closed afterwards.
fn vpp(a: Block, s: &mut VScope) -> (r: Block)
    requires
        prep_items_ok(items_view(a@), scopes_enter(old(s)@)),
    ensures
        items_view(r@) == prep_items(items_view(a@), scopes_enter(old(s)@)).0,
        final(s)@ == old(s)@,
{
    let ghost st = s@;
    let ghost av = a@;
    s.enter();
    let r = prep_block_items(a, s);
    proof { lemma_items_shape(items_view(av), scopes_enter(st)); }
    s.exit();
    assert(s@ =~= st);
    r
}


impl Func {
    /// This function folded: its parameters in a new scope, its body in a
    /// scope inside that one.
    pub fn prep_f(self, scope: &mut VScope) -> (r: Func)
        requires
            prep_func_ok(func_view(self), old(scope)@),
        ensures
            (func_view(r), final(scope)@) == prep_func(func_view(self), old(scope)@),
    {
        let ghost st = scope@;
        let Func { name, ret, param, body } = self;
        let ghost pv = param@;
        scope.enter();
        let param = prep_var_decls_vec(param, scope);
        proof { lemma_var_decls_shape(var_decls_view(pv), scopes_enter(st)); }
        let body = vpp(body, scope);
        scope.exit();
        assert(scope@ =~= st) by {
            assert(scopes_enter(st).drop_last() =~= st);
        }
        Func { name, ret, param, body }
    }
}

impl CompUnit {
    /// This unit folded.
    pub fn prep_u(self, scope: &mut VScope) -> (r: CompUnit)
        requires
            prep_unit_ok(unit_view(self), old(scope)@),
        ensures
            (unit_view(r), final(scope)@) == prep_unit(unit_view(self), old(scope)@),
    {
        match self {
            CompUnit::Decl(t) => CompUnit::Decl(bo((*t).prep_decl(scope))),
            CompUnit::Func(t) => CompUnit::Func(bo((*t).prep_f(scope))),
        }
    }
}

/// Constant folding of a part of the syntax tree, in the scopes of
/// constants, which it may extend.
pub trait Prep: Sized {
    /// Folding is defined on this part in scopes `st`.
    spec fn prep_ok(&self, st: ScopeV) -> bool;

    /// The scopes after folding this part.
    spec fn prep_scope(&self, st: ScopeV) -> ScopeV;

    /// `r` is this part folded in scopes `st`.
    spec fn prepped(&self, r: &Self, st: ScopeV) -> bool;

    fn prep(self, scope: &mut VScope) -> (r: Self)
        requires
            self.prep_ok(old(scope)@),
        ensures
            final(scope)@ == self.prep_scope(old(scope)@),
            final(scope)@.len() == old(scope)@.len(),
            self.prepped(&r, old(scope)@),
    ;
}

impl Prep for Expr {
    open spec fn prep_ok(&self, st: ScopeV) -> bool {
        fold_ok(expr_view(*self), st)
    }

    open spec fn prep_scope(&self, st: ScopeV) -> ScopeV {
        st
    }

    open spec fn prepped(&self, r: &Self, st: ScopeV) -> bool {
        expr_view(*r) == fold_expr(expr_view(*self), st)
    }

    fn prep(self, scope: &mut VScope) -> (r: Self) {
        self.fold(scope)
    }
}

impl Prep for LVal {
    open spec fn prep_ok(&self, st: ScopeV) -> bool {
        fold_all_ok(exprs_view(self.ind@), st)
    }

    open spec fn prep_scope(&self, st: ScopeV) -> ScopeV {
        st
    }

    open spec fn prepped(&self, r: &Self, st: ScopeV) -> bool {
        r.name == self.name && exprs_view(r.ind@) == fold_all(exprs_view(self.ind@), st)
    }

    fn prep(self, scope: &mut VScope) -> (r: Self) {
        self.fold(scope)
    }
}

impl Prep for CondExpr {
    open spec fn prep_ok(&self, st: ScopeV) -> bool {
        fold_cond_ok(cond_view(*self), st)
    }

    open spec fn prep_scope(&self, st: ScopeV) -> ScopeV {
        st
    }

    open spec fn prepped(&self, r: &Self, st: ScopeV) -> bool {
        cond_view(*r) == fold_cond(cond_view(*self), st)
    }

    fn prep(self, scope: &mut VScope) -> (r: Self) {
        self.fold(scope)
    }
}

impl Prep for InitCont<Exp> {
    open spec fn prep_ok(&self, st: ScopeV) -> bool {
        fold_init_ok(init_e_view(*self), st)
    }

    open spec fn prep_scope(&self, st: ScopeV) -> ScopeV {
        st
    }

    open spec fn prepped(&self, r: &Self, st: ScopeV) -> bool {
        init_e_view(*r) == fold_init(init_e_view(*self), st)
    }

    fn prep(self, scope: &mut VScope) -> (r: Self) {
        self.fold(scope)
    }
}

impl Prep for VarInit {
    open spec fn prep_ok(&self, st: ScopeV) -> bool {
        fold_var_init_ok(var_init_view(*self), st)
    }

    open spec fn prep_scope(&self, st: ScopeV) -> ScopeV {
        st
    }

    open spec fn prepped(&self, r: &Self, st: ScopeV) -> bool {
        var_init_view(*r) == fold_var_init(var_init_view(*self), st)
    }

    fn prep(self, scope: &mut VScope) -> (r: Self) {
        self.fold(scope)
    }
}

impl Prep for VarDecl {
    open spec fn prep_ok(&self, st: ScopeV) -> bool {
        prep_var_decl_ok(var_decl_view(*self), st)
    }

    open spec fn prep_scope(&self, st: ScopeV) -> ScopeV {
        prep_var_decl(var_decl_view(*self), st).1
    }

    open spec fn prepped(&self, r: &Self, st: ScopeV) -> bool {
        var_decl_view(*r) == prep_var_decl(var_decl_view(*self), st).0
    }

    fn prep(self, scope: &mut VScope) -> (r: Self) {
        let ghost st = scope@;
        let ghost d = var_decl_view(self);
        let r = self.prep_d(scope);
        proof {
            lemma_register_shape(st, d.name, const_value(d, st), nums(fold_all(d.dims, st)).len() as usize);
        }
        r
    }
}

impl Prep for Decl {
    open spec fn prep_ok(&self, st: ScopeV) -> bool {
        prep_var_decls_ok(decl_view(*self).vars, st)
    }

    open spec fn prep_scope(&self, st: ScopeV) -> ScopeV {
        prep_decl(decl_view(*self), st).1
    }

    open spec fn prepped(&self, r: &Self, st: ScopeV) -> bool {
        decl_view(*r) == prep_decl(decl_view(*self), st).0
    }

    fn prep(self, scope: &mut VScope) -> (r: Self) {
        proof { lemma_var_decls_shape(decl_view(self).vars, scope@); }
        self.prep_decl(scope)
    }
}

impl Prep for Stmt {
    open spec fn prep_ok(&self, st: ScopeV) -> bool {
        prep_stmt_ok(stmt_view(*self), st)
    }

    open spec fn prep_scope(&self, st: ScopeV) -> ScopeV {
        st
    }

    open spec fn prepped(&self, r: &Self, st: ScopeV) -> bool {
        stmt_view(*r) == prep_stmt(stmt_view(*self), st)
    }

    fn prep(self, scope: &mut VScope) -> (r: Self) {
        self.prep_s(scope)
    }
}

impl Prep for BlockItem {
    open spec fn prep_ok(&self, st: ScopeV) -> bool {
        prep_item_ok(item_view(*self), st)
    }

    open spec fn prep_scope(&self, st: ScopeV) -> ScopeV {
        prep_item(item_view(*self), st).1
    }

    open spec fn prepped(&self, r: &Self, st: ScopeV) -> bool {
        item_view(*r) == prep_item(item_view(*self), st).0
    }

    fn prep(self, scope: &mut VScope) -> (r: Self) {
        proof {
            match item_view(self) {
                ItemV::Decl(d) => lemma_var_decls_shape(d.vars, scope@),
                _ => {},
            }
        }
        self.prep_i(scope)
    }
}

impl Prep for Func {
    open spec fn prep_ok(&self, st: ScopeV) -> bool {
        prep_func_ok(func_view(*self), st)
    }

    open spec fn prep_scope(&self, st: ScopeV) -> ScopeV {
        prep_func(func_view(*self), st).1
    }

    open spec fn prepped(&self, r: &Self, st: ScopeV) -> bool {
        func_view(*r) == prep_func(func_view(*self), st).0
    }

    fn prep(self, scope: &mut VScope) -> (r: Self) {
        self.prep_f(scope)
    }
}

impl Prep for CompUnit {
    open spec fn prep_ok(&self, st: ScopeV) -> bool {
        prep_unit_ok(unit_view(*self), st)
    }

    open spec fn prep_scope(&self, st: ScopeV) -> ScopeV {
        prep_unit(unit_view(*self), st).1
    }

    open spec fn prepped(&self, r: &Self, st: ScopeV) -> bool {
        unit_view(*r) == prep_unit(unit_view(*self), st).0
    }

    fn prep(self, scope: &mut VScope) -> (r: Self) {
        proof {
            match unit_view(self) {
                UnitV::Decl(d) => lemma_var_decls_shape(d.vars, scope@),
                UnitV::Func(f) => {},
            }
        }
        self.prep_u(scope)
    }
}

/// The scopes after folding the first `k` parts of `a` in order.
pub open spec fn vscope<T: Prep>(a: Seq<Box<T>>, st: ScopeV, k: int) -> ScopeV
    decreases k,
{
    if k <= 0 {
        st
    } else {
        (*a[k - 1]).prep_scope(vscope(a, st, k - 1))
    }
}

/// Folding every part of `a` in order is defined.
pub open spec fn vprep_ok<T: Prep>(a: Seq<Box<T>>, st: ScopeV) -> bool {
    forall|k: int| 0 <= k < a.len() ==> (*#[trigger] a[k]).prep_ok(vscope(a, st, k))
}

/// The parts of `a` folded in order, each in the scopes left by the ones
/// before it.
pub fn vprep<T: Prep>(a: Vec<Box<T>>, s: &mut VScope) -> (r: Vec<Box<T>>)
    requires
        vprep_ok(a@, old(s)@),
    ensures
        r@.len() == a@.len(),
        forall|k: int| 0 <= k < a@.len() ==> (*a@[k]).prepped(&*#[trigger] r@[k], vscope(a@, old(s)@, k)),
        final(s)@ == vscope(a@, old(s)@, a@.len() as int),
        final(s)@.len() == old(s)@.len(),
{
    let ghost st = s@;
    let ghost av = a@;
    let mut out: Vec<Box<T>> = Vec::new();
    for x in iter: a.into_iter()
        invariant
            iter.seq() == av,
            vprep_ok(av, st),
            out@.len() == iter.index(),
            s@ == vscope(av, st, iter.index() as int),
            s@.len() == st.len(),
            forall|k: int| 0 <= k < iter.index() ==> (*av[k]).prepped(&*#[trigger] out@[k], vscope(av, st, k)),
    {
        let ghost k = iter.index();
        assert(x == av[k]);
        assert((*av[k]).prep_ok(vscope(av, st, k)));
        let y = (*x).prep(s);
        out.push(bo(y));
    }
    out
}

} // verus!
