use vstd::prelude::*;

use crate::ast::{Abstain, Expr, Program, Stmt, StmtBody, VType, Var};
use crate::err::{ErrCode, ErrView, Res, RtError};
use crate::numerals::{
    all_digit_words, decimal_value, first_unknown, from_english,
    roman_text, to_roman, word_digits, words,
};
use crate::stdops::{
    check_chance, in_state, in_value, next_rand, out_bytes, out_state,
    and16_value, and32_value, and_16, and_32, dims_product, flat_index, in_range, mingle,
    mingle_value, or16_value, or32_value, or_16, or_32, prefix_in_range,
    select, select_bits, xor16_value, xor32_value, xor_16, xor_32, Array, ArrayView, Bind,
    BindView,
};

verus! {

/// The error with the given code, no word and no line yet.
pub open spec fn err0(code: ErrCode) -> RtError {
    RtError { code, word: None, line: 0 }
}

/// Type of an expression.
#[derive(Clone, Copy, PartialEq, Eq, Structural, Debug)]
pub enum Val {
    I16(u16),
    I32(u32),
}

impl Val {
    /// The value as a 32-bit number.
    pub open spec fn spec_as_u32(&self) -> u32 {
        match *self {
            Val::I16(v) => v as u32,
            Val::I32(v) => v,
        }
    }

    /// The value as a 16-bit number, or IE275 when it does not fit.
    pub open spec fn spec_as_u16(&self) -> Res<u16> {
        match *self {
            Val::I16(v) => Ok(v),
            Val::I32(v) => if v > 0xffff {
                Err(err0(ErrCode::IE275))
            } else {
                Ok(v as u16)
            },
        }
    }

    /// Cast as a 16-bit value; returns an Error if 32-bit and too big.
    pub fn as_u16(&self) -> (r: Res<u16>)
        ensures
            r == self.spec_as_u16(),
    {
        match *self {
            Val::I16(v) => Ok(v),
            Val::I32(v) => {
                if v > (u16::MAX as u32) {
                    return ErrCode::IE275.err();
                }
                Ok(v as u16)
            },
        }
    }

    /// Cast as a 32-bit value; always succeeds.
    #[verifier::when_used_as_spec(spec_as_u32)]
    pub fn as_u32(&self) -> (r: u32)
        ensures
            r == self.spec_as_u32(),
    {
        match *self {
            Val::I16(v) => v as u32,
            Val::I32(v) => v,
        }
    }

    /// Cast as an usize value; always succeeds.
    pub fn as_usize(&self) -> (r: usize)
        ensures
            r == self.spec_as_u32(),
    {
        self.as_u32() as usize
    }

    /// Create from a 32-bit value; will select the smallest possible type.
    pub fn from_u32(v: u32) -> (r: Val)
        ensures
            r == val_from_u32(v),
    {
        assert((v & 0xFFFF == v) == (v <= 0xffff)) by (bit_vector);
        if v & 0xFFFF == v {
            Val::I16(v as u16)
        } else {
            Val::I32(v)
        }
    }
}

/// Where the interpreter stands within the current statement.
#[derive(Clone, Copy, PartialEq, Eq, Structural, Debug)]
pub enum Phase {
    /// About to take up the statement at the program counter.
    Fetch,
    /// Carrying out item `k` of the READ OUT, WRITE IN or PRINT at the
    /// program counter.
    Item(usize),
    /// Waiting to hear whether the bytes of READ OUT item `k` were written.
    AwaitWritten(usize),
    /// Waiting for the line of input for WRITE IN item `k`.
    AwaitLine(usize),
    /// Waiting for the bytes of input for WRITE IN item `k`.
    AwaitBytes(usize),
    /// About to carry out the statement at the program counter, after its
    /// trace was shown.
    Run,
    /// The program has ended.
    Done,
}

/// What the interpreter's variables and control state hold.
pub struct EvalView {
    pub spot: Seq<BindView<u16>>,
    pub twospot: Seq<BindView<u32>>,
    pub tail: Seq<BindView<ArrayView<u16>>>,
    pub hybrid: Seq<BindView<ArrayView<u32>>>,
    pub jumps: Seq<u16>,
    pub abstain: Seq<u32>,
    pub last_in: u8,
    pub last_out: u8,
    pub stmt_ctr: usize,
    pub rand: u32,
    pub pctr: usize,
    pub phase: Phase,
    pub debug: bool,
}

/// The element of an array with the given subscripts: `None` where there is
/// no element at that position (a never dimensioned array read without
/// subscripts), IE241 when the subscripts do not fit the dimensions.
pub open spec fn array_get<T>(a: ArrayView<T>, subs: Seq<usize>) -> Option<Res<T>> {
    if in_range(subs, a.dims) && flat_index(subs, a.dims) >= a.elems.len() {
        None
    } else if in_range(subs, a.dims) {
        Some(Ok(a.elems[flat_index(subs, a.dims)]))
    } else {
        Some(Err(err0(ErrCode::IE241)))
    }
}

/// Apply a binary operator to two values: `None` where the arithmetic would
/// overflow or shift by 32 bits or more.
pub open spec fn apply2(e: Expr, va: Val, vb: Val) -> Option<Res<Val>> {
    let v = va.spec_as_u32();
    let w = vb.spec_as_u32();
    match e {
        Expr::Mingle(_, _) => if v > 0xffff || w > 0xffff {
            Some(Err(err0(ErrCode::IE533)))
        } else {
            Some(Ok(Val::I32(mingle_value(v, w))))
        },
        Expr::Select(t, _, _) => if t == VType::I16 {
            match vb.spec_as_u16() {
                Err(x) => Some(Err(x)),
                Ok(w16) => Some(Ok(Val::I16(select_bits(v as nat, w16 as nat) as u16))),
            }
        } else {
            Some(Ok(Val::I32(select_bits(v as nat, w as nat) as u32)))
        },
        Expr::RsAnd(_, _) => Some(Ok(Val::I32(v & w))),
        Expr::RsOr(_, _) => Some(Ok(Val::I32(v | w))),
        Expr::RsXor(_, _) => Some(Ok(Val::I32(v ^ w))),
        Expr::RsRshift(_, _) => if w >= 32 {
            None
        } else {
            Some(Ok(Val::I32(v >> w)))
        },
        Expr::RsLshift(_, _) => if w >= 32 {
            None
        } else {
            Some(Ok(Val::I32(v << w)))
        },
        Expr::RsNotEqual(_, _) => Some(Ok(Val::I32(if v != w { 1 } else { 0 }))),
        Expr::RsPlus(_, _) => if v + w > u32::MAX {
            None
        } else {
            Some(Ok(Val::I32((v + w) as u32)))
        },
        Expr::RsMinus(_, _) => if v < w {
            None
        } else {
            Some(Ok(Val::I32((v - w) as u32)))
        },
        _ => None,
    }
}

/// Apply a unary operator to a value.
pub open spec fn apply1(e: Expr, va: Val) -> Option<Res<Val>> {
    let v = va.spec_as_u32();
    match e {
        Expr::And(t, _) => if t == VType::I16 {
            match va.spec_as_u16() {
                Err(x) => Some(Err(x)),
                Ok(x) => Some(Ok(Val::I16(and16_value(x as u32) as u16))),
            }
        } else {
            Some(Ok(Val::I32(and32_value(v))))
        },
        Expr::Or(t, _) => if t == VType::I16 {
            match va.spec_as_u16() {
                Err(x) => Some(Err(x)),
                Ok(x) => Some(Ok(Val::I16(or16_value(x as u32) as u16))),
            }
        } else {
            Some(Ok(Val::I32(or32_value(v))))
        },
        Expr::Xor(t, _) => if t == VType::I16 {
            match va.spec_as_u16() {
                Err(x) => Some(Err(x)),
                Ok(x) => Some(Ok(Val::I16(xor16_value(x as u32) as u16))),
            }
        } else {
            Some(Ok(Val::I32(xor32_value(v))))
        },
        Expr::RsNot(_) => Some(Ok(Val::I32(!v))),
        _ => None,
    }
}

/// The outcome of a binary operator on the outcomes of its operands,
/// evaluated left to right.
pub open spec fn combine2(e: Expr, ra: Option<Res<Val>>, rb: Option<Res<Val>>) -> Option<Res<Val>> {
    match ra {
        None => None,
        Some(Err(x)) => Some(Err(x)),
        Some(Ok(va)) => match rb {
            None => None,
            Some(Err(x)) => Some(Err(x)),
            Some(Ok(vb)) => apply2(e, va, vb),
        },
    }
}

/// The outcome of a unary operator on the outcome of its operand.
pub open spec fn combine1(e: Expr, ra: Option<Res<Val>>) -> Option<Res<Val>> {
    match ra {
        None => None,
        Some(Err(x)) => Some(Err(x)),
        Some(Ok(va)) => apply1(e, va),
    }
}

impl EvalView {
    /// The state has a variable for the index that `var` names.
    pub open spec fn holds(self, var: Var) -> bool {
        match var {
            Var::I16(n) => n < self.spot.len(),
            Var::I32(n) => n < self.twospot.len(),
            Var::A16(n, _) => n < self.tail.len(),
            Var::A32(n, _) => n < self.hybrid.len(),
        }
    }

    /// The value of a variable: `None` where reading it would crash (an
    /// index outside its table, or see `array_get`).
    pub open spec fn look(self, var: Var) -> Option<Res<Val>>
        decreases var,
    {
        match var {
            Var::I16(n) => if n < self.spot.len() {
                Some(Ok(Val::I16(self.spot[n as int].val)))
            } else {
                None
            },
            Var::I32(n) => if n < self.twospot.len() {
                Some(Ok(Val::I32(self.twospot[n as int].val)))
            } else {
                None
            },
            Var::A16(n, subs) => match self.eval_subs(subs@) {
                None => None,
                Some(Err(x)) => Some(Err(x)),
                Some(Ok(ss)) => if n >= self.tail.len() {
                    None
                } else {
                    match array_get(self.tail[n as int].val, ss) {
                        None => None,
                        Some(Err(x)) => Some(Err(x)),
                        Some(Ok(v)) => Some(Ok(Val::I16(v))),
                    }
                },
            },
            Var::A32(n, subs) => match self.eval_subs(subs@) {
                None => None,
                Some(Err(x)) => Some(Err(x)),
                Some(Ok(ss)) => if n >= self.hybrid.len() {
                    None
                } else {
                    match array_get(self.hybrid[n as int].val, ss) {
                        None => None,
                        Some(Err(x)) => Some(Err(x)),
                        Some(Ok(v)) => Some(Ok(Val::I32(v))),
                    }
                },
            },
        }
    }

    /// The value of an expression: `None` where evaluating it would crash.
    pub open spec fn eval_e(self, e: Expr) -> Option<Res<Val>>
        decreases e,
    {
        match e {
            Expr::Num(t, v) => Some(
                Ok(
                    match t {
                        VType::I16 => Val::I16(v as u16),
                        VType::I32 => Val::I32(v),
                    },
                ),
            ),
            Expr::Var(var) => self.look(var),
            Expr::Mingle(a, b) => combine2(e, self.eval_e(*a), self.eval_e(*b)),
            Expr::Select(_, a, b) => combine2(e, self.eval_e(*a), self.eval_e(*b)),
            Expr::And(_, a) => combine1(e, self.eval_e(*a)),
            Expr::Or(_, a) => combine1(e, self.eval_e(*a)),
            Expr::Xor(_, a) => combine1(e, self.eval_e(*a)),
            Expr::RsNot(a) => combine1(e, self.eval_e(*a)),
            Expr::RsAnd(a, b) => combine2(e, self.eval_e(*a), self.eval_e(*b)),
            Expr::RsOr(a, b) => combine2(e, self.eval_e(*a), self.eval_e(*b)),
            Expr::RsXor(a, b) => combine2(e, self.eval_e(*a), self.eval_e(*b)),
            Expr::RsRshift(a, b) => combine2(e, self.eval_e(*a), self.eval_e(*b)),
            Expr::RsLshift(a, b) => combine2(e, self.eval_e(*a), self.eval_e(*b)),
            Expr::RsNotEqual(a, b) => combine2(e, self.eval_e(*a), self.eval_e(*b)),
            Expr::RsPlus(a, b) => combine2(e, self.eval_e(*a), self.eval_e(*b)),
            Expr::RsMinus(a, b) => combine2(e, self.eval_e(*a), self.eval_e(*b)),
        }
    }

    /// The values of subscript expressions, left to right.
    pub open spec fn eval_subs(self, s: Seq<Expr>) -> Option<Res<Seq<usize>>>
        decreases s,
    {
        if s.len() == 0 {
            Some(Ok(seq![]))
        } else {
            match self.eval_subs(s.subrange(0, s.len() - 1)) {
                None => None,
                Some(Err(x)) => Some(Err(x)),
                Some(Ok(pre)) => match self.eval_e(s[s.len() - 1]) {
                    None => None,
                    Some(Err(x)) => Some(Err(x)),
                    Some(Ok(v)) => Some(Ok(pre.push(v.spec_as_u32() as usize))),
                },
            }
        }
    }
}

/// The interpreter: the program it runs, its variables, the NEXT stack, the
/// ABSTAIN counters, the input and output states of character I/O, the
/// number of statements executed, the chance generator, the current
/// statement, and whether to trace each statement before it runs.
pub struct Eval<'a> {
    pub program: &'a Program,
    pub spot: Vec<Bind<u16>>,
    pub twospot: Vec<Bind<u32>>,
    pub tail: Vec<Bind<Array<u16>>>,
    pub hybrid: Vec<Bind<Array<u32>>>,
    pub jumps: Vec<u16>,
    pub abstain: Vec<u32>,
    pub last_in: u8,
    pub last_out: u8,
    pub stmt_ctr: usize,
    pub rand: u32,
    pub pctr: usize,
    pub phase: Phase,
    pub debug: bool,
}

impl<'a> View for Eval<'a> {
    type V = EvalView;

    open spec fn view(&self) -> EvalView {
        EvalView {
            spot: self.spot@.map_values(|b: Bind<u16>| b@),
            twospot: self.twospot@.map_values(|b: Bind<u32>| b@),
            tail: self.tail@.map_values(|b: Bind<Array<u16>>| b@),
            hybrid: self.hybrid@.map_values(|b: Bind<Array<u32>>| b@),
            jumps: self.jumps@,
            abstain: self.abstain@,
            last_in: self.last_in,
            last_out: self.last_out,
            stmt_ctr: self.stmt_ctr,
            rand: self.rand,
            pctr: self.pctr,
            phase: self.phase,
            debug: self.debug,
        }
    }
}

impl EvalView {
    /// The variable tables have the sizes the program asks for, and every
    /// array held or stashed is well formed.
    pub open spec fn vars_wf(self, c: (usize, usize, usize, usize)) -> bool {
        &&& self.spot.len() == c.0
        &&& self.twospot.len() == c.1
        &&& self.tail.len() == c.2
        &&& self.hybrid.len() == c.3
        &&& forall|n: int| 0 <= n < self.tail.len() ==> (#[trigger] self.tail[n]).val.wf()
        &&& forall|n: int, k: int|
            0 <= n < self.tail.len() && 0 <= k < self.tail[n].stack.len()
                ==> (#[trigger] self.tail[n].stack[k]).wf()
        &&& forall|n: int| 0 <= n < self.hybrid.len() ==> (#[trigger] self.hybrid[n]).val.wf()
        &&& forall|n: int, k: int|
            0 <= n < self.hybrid.len() && 0 <= k < self.hybrid[n].stack.len()
                ==> (#[trigger] self.hybrid[n].stack[k]).wf()
    }
}

impl<'a> Eval<'a> {
    /// The value of subscript expressions, left to right.
    fn eval_subs(&self, subs: &Vec<Expr>) -> (r: Option<Res<Vec<usize>>>)
        requires
            self@.vars_wf(self.program.var_info),
        ensures
            match r {
                None => self@.eval_subs(subs@) is None,
                Some(Err(x)) => self@.eval_subs(subs@) == Some(Err::<Seq<usize>, RtError>(x)),
                Some(Ok(v)) => self@.eval_subs(subs@) == Some(Ok::<Seq<usize>, RtError>(v@))
                    && v@.len() == subs@.len(),
            },
        decreases subs@,
    {
        let mut out: Vec<usize> = Vec::new();
        let mut i: usize = 0;
        while i < subs.len()
            invariant
                i <= subs@.len(),
                self@.vars_wf(self.program.var_info),
                self@.eval_subs(subs@.subrange(0, i as int)) == Some(Ok::<Seq<usize>, RtError>(out@)),
                out@.len() == i,
            decreases subs@.len() - i,
        {
            proof {
                let pre = subs@.subrange(0, i + 1);
                assert(pre.subrange(0, pre.len() - 1) =~= subs@.subrange(0, i as int));
                assert(pre[pre.len() - 1] == subs@[i as int]);
            }
            match self.eval_expr(&subs[i]) {
                None => {
                    proof {
                        lemma_eval_subs_fail(self@, subs@, i as int + 1);
                    }
                    return None;
                },
                Some(Err(x)) => {
                    proof {
                        lemma_eval_subs_fail(self@, subs@, i as int + 1);
                    }
                    return Some(Err(x));
                },
                Some(Ok(v)) => {
                    out.push(v.as_usize());
                },
            }
            i = i + 1;
        }
        assert(subs@.subrange(0, subs@.len() as int) =~= subs@);
        Some(Ok(out))
    }
}

/// Once a prefix of the subscripts fails to evaluate, so do all of them.
proof fn lemma_eval_subs_fail(st: EvalView, s: Seq<Expr>, j: int)
    requires
        0 <= j <= s.len(),
        !(st.eval_subs(s.subrange(0, j)) matches Some(Ok(_))),
    ensures
        st.eval_subs(s) == st.eval_subs(s.subrange(0, j)),
    decreases s.len(),
{
    if j == s.len() {
        assert(s.subrange(0, j) =~= s);
    } else {
        let pre = s.subrange(0, s.len() - 1);
        assert(pre.subrange(0, j) =~= s.subrange(0, j));
        lemma_eval_subs_fail(st, pre, j);
    }
}

impl<'a> Eval<'a> {
    /// Look up the value of a variable.
    fn lookup(&self, var: &Var) -> (r: Option<Res<Val>>)
        requires
            self@.vars_wf(self.program.var_info),
        ensures
            r == self@.look(*var),
        decreases *var,
    {
        match var {
            Var::I16(n) => {
                if *n >= self.spot.len() {
                    return None;
                }
                Some(Ok(Val::I16(self.spot[*n].val)))
            },
            Var::I32(n) => {
                if *n >= self.twospot.len() {
                    return None;
                }
                Some(Ok(Val::I32(self.twospot[*n].val)))
            },
            Var::A16(n, subs) => {
                let ss = match self.eval_subs(subs) {
                    None => return None,
                    Some(Err(x)) => return Some(Err(x)),
                    Some(Ok(ss)) => ss,
                };
                if *n >= self.tail.len() {
                    return None;
                }
                let b = &self.tail[*n];
                assert(self@.tail[*n as int] == b@);
                if (ss.len() == 0 && b.val.dims.len() == 0
                    && b.val.elems.len() == 0) {
                    return None;
                }
                match b.get_md(ss, 0) {
                    Ok(v) => Some(Ok(Val::I16(v))),
                    Err(x) => Some(Err(x)),
                }
            },
            Var::A32(n, subs) => {
                let ss = match self.eval_subs(subs) {
                    None => return None,
                    Some(Err(x)) => return Some(Err(x)),
                    Some(Ok(ss)) => ss,
                };
                if *n >= self.hybrid.len() {
                    return None;
                }
                let b = &self.hybrid[*n];
                assert(self@.hybrid[*n as int] == b@);
                if (ss.len() == 0 && b.val.dims.len() == 0
                    && b.val.elems.len() == 0) {
                    return None;
                }
                match b.get_md(ss, 0) {
                    Ok(v) => Some(Ok(Val::I32(v))),
                    Err(x) => Some(Err(x)),
                }
            },
        }
    }

    /// Evaluate an expression to a value.
    fn eval_expr(&self, expr: &Expr) -> (r: Option<Res<Val>>)
        requires
            self@.vars_wf(self.program.var_info),
        ensures
            r == self@.eval_e(*expr),
        decreases *expr,
    {
        match expr {
            Expr::Num(vtype, v) => match vtype {
                VType::I16 => Some(Ok(Val::I16(*v as u16))),
                VType::I32 => Some(Ok(Val::I32(*v))),
            },
            Expr::Var(var) => self.lookup(var),
            Expr::Mingle(a, b) | Expr::Select(_, a, b) | Expr::RsAnd(a, b) | Expr::RsOr(a, b)
            | Expr::RsXor(a, b) | Expr::RsRshift(a, b) | Expr::RsLshift(a, b) | Expr::RsNotEqual(
                a,
                b,
            ) | Expr::RsPlus(a, b) | Expr::RsMinus(a, b) => {
                let va = match self.eval_expr(a) {
                    None => return None,
                    Some(Err(x)) => return Some(Err(x)),
                    Some(Ok(v)) => v,
                };
                let vb = match self.eval_expr(b) {
                    None => return None,
                    Some(Err(x)) => return Some(Err(x)),
                    Some(Ok(v)) => v,
                };
                binop(expr, va, vb)
            },
            Expr::And(_, a) | Expr::Or(_, a) | Expr::Xor(_, a) | Expr::RsNot(a) => {
                let va = match self.eval_expr(a) {
                    None => return None,
                    Some(Err(x)) => return Some(Err(x)),
                    Some(Ok(v)) => v,
                };
                unop(expr, va)
            },
        }
    }
}

/// Select's result is no larger than its mask.
pub proof fn lemma_select_bound(v: nat, w: nat)
    ensures
        select_bits(v, w) <= w,
    decreases w,
{
    if w > 0 {
        lemma_select_bound(v / 2, w / 2);
    }
}

/// Apply a binary operator to the values of its operands.
fn binop(e: &Expr, va: Val, vb: Val) -> (r: Option<Res<Val>>)
    ensures
        r == apply2(*e, va, vb),
{
    let v = va.as_u32();
    let w = vb.as_u32();
    match e {
        Expr::Mingle(_, _) => {
            let v = match crate::stdops::check_ovf(v, 0) {
                Ok(x) => x,
                Err(x) => return Some(Err(x)),
            };
            let w = match crate::stdops::check_ovf(w, 0) {
                Ok(x) => x,
                Err(x) => return Some(Err(x)),
            };
            Some(Ok(Val::I32(mingle(v, w))))
        },
        Expr::Select(vtype, _, _) => {
            if *vtype == VType::I16 {
                let w16 = match vb.as_u16() {
                    Ok(x) => x,
                    Err(x) => return Some(Err(x)),
                };
                Some(Ok(Val::I16(select(v, w16 as u32) as u16)))
            } else {
                proof {
                    lemma_select_bound(v as nat, w as nat);
                }
                Some(Ok(Val::I32(select(v, w))))
            }
        },
        Expr::RsAnd(_, _) => Some(Ok(Val::I32(v & w))),
        Expr::RsOr(_, _) => Some(Ok(Val::I32(v | w))),
        Expr::RsXor(_, _) => Some(Ok(Val::I32(v ^ w))),
        Expr::RsRshift(_, _) => {
            if w >= 32 {
                return None;
            }
            Some(Ok(Val::I32(v >> w)))
        },
        Expr::RsLshift(_, _) => {
            if w >= 32 {
                return None;
            }
            Some(Ok(Val::I32(v << w)))
        },
        Expr::RsNotEqual(_, _) => Some(Ok(Val::I32(if v != w { 1 } else { 0 }))),
        Expr::RsPlus(_, _) => {
            if v > u32::MAX - w {
                return None;
            }
            Some(Ok(Val::I32(v + w)))
        },
        Expr::RsMinus(_, _) => {
            if v < w {
                return None;
            }
            Some(Ok(Val::I32(v - w)))
        },
        _ => None,
    }
}

/// Apply a unary operator to the value of its operand.
fn unop(e: &Expr, va: Val) -> (r: Option<Res<Val>>)
    ensures
        r == apply1(*e, va),
{
    match e {
        Expr::And(vtype, _) => match vtype {
            VType::I16 => match va.as_u16() {
                Ok(x) => Some(Ok(Val::I16(and_16(x as u32) as u16))),
                Err(x) => Some(Err(x)),
            },
            VType::I32 => Some(Ok(Val::I32(and_32(va.as_u32())))),
        },
        Expr::Or(vtype, _) => match vtype {
            VType::I16 => match va.as_u16() {
                Ok(x) => Some(Ok(Val::I16(or_16(x as u32) as u16))),
                Err(x) => Some(Err(x)),
            },
            VType::I32 => Some(Ok(Val::I32(or_32(va.as_u32())))),
        },
        Expr::Xor(vtype, _) => match vtype {
            VType::I16 => match va.as_u16() {
                Ok(x) => Some(Ok(Val::I16(xor_16(x as u32) as u16))),
                Err(x) => Some(Err(x)),
            },
            VType::I32 => Some(Ok(Val::I32(xor_32(va.as_u32())))),
        },
        Expr::RsNot(_) => Some(Ok(Val::I32(!va.as_u32()))),
        _ => None,
    }
}

/// A variable after an assignment: the new value unless it is ignored.
pub open spec fn assigned<T>(b: BindView<T>, v: T) -> BindView<T> {
    if b.rw {
        BindView { val: v, stack: b.stack, rw: b.rw }
    } else {
        b
    }
}

/// An array variable after assigning `x` to the element with subscripts
/// `subs`: `None` where there is no element at that position, IE241 when the
/// subscripts do not fit.
pub open spec fn array_set<T>(b: BindView<ArrayView<T>>, subs: Seq<usize>, x: T) -> Option<
    Res<BindView<ArrayView<T>>>,
> {
    let a = b.val;
    if in_range(subs, a.dims) && flat_index(subs, a.dims) >= a.elems.len() {
        None
    } else if in_range(subs, a.dims) {
        Some(
            Ok(
                assigned(
                    b,
                    ArrayView { dims: a.dims, elems: a.elems.update(flat_index(subs, a.dims), x) },
                ),
            ),
        )
    } else {
        Some(Err(err0(ErrCode::IE241)))
    }
}

impl EvalView {
    /// The state after assigning `val` to `var`: `None` where the run cannot
    /// go on (see `array_set`); an error leaves the state as it was.
    pub open spec fn assign_spec(self, var: Var, val: Val) -> Option<Res<EvalView>> {
        match var {
            Var::I16(n) => if n >= self.spot.len() {
                None
            } else {
                match val.spec_as_u16() {
                    Err(x) => Some(Err(x)),
                    Ok(x) => Some(
                        Ok(EvalView { spot: self.spot.update(n as int, assigned(self.spot[n as int], x)), ..self }),
                    ),
                }
            },
            Var::I32(n) => if n >= self.twospot.len() {
                None
            } else {
                Some(
                    Ok(
                        EvalView {
                            twospot: self.twospot.update(
                                n as int,
                                assigned(self.twospot[n as int], val.spec_as_u32()),
                            ),
                            ..self
                        },
                    ),
                )
            },
            Var::A16(n, subs) => match self.eval_subs(subs@) {
                None => None,
                Some(Err(x)) => Some(Err(x)),
                Some(Ok(ss)) => if n >= self.tail.len() {
                    None
                } else {
                    match val.spec_as_u16() {
                        Err(x) => Some(Err(x)),
                        Ok(x) => match array_set(self.tail[n as int], ss, x) {
                            None => None,
                            Some(Err(e)) => Some(Err(e)),
                            Some(Ok(b)) => Some(Ok(EvalView { tail: self.tail.update(n as int, b), ..self })),
                        },
                    }
                },
            },
            Var::A32(n, subs) => match self.eval_subs(subs@) {
                None => None,
                Some(Err(x)) => Some(Err(x)),
                Some(Ok(ss)) => if n >= self.hybrid.len() {
                    None
                } else {
                    match array_set(self.hybrid[n as int], ss, val.spec_as_u32()) {
                        None => None,
                        Some(Err(e)) => Some(Err(e)),
                        Some(Ok(b)) => Some(Ok(EvalView { hybrid: self.hybrid.update(n as int, b), ..self })),
                    }
                },
            },
        }
    }
}

impl<'a> Eval<'a> {
    /// Assign to a variable.
    fn assign(&mut self, var: &Var, val: Val) -> (r: Option<Res<()>>)
        requires
            old(self)@.vars_wf(old(self).program.var_info),
        ensures
            final(self).program == old(self).program,
            final(self)@.vars_wf(final(self).program.var_info),
            match r {
                None => old(self)@.assign_spec(*var, val) is None && final(self)@ == old(self)@,
                Some(Err(x)) => old(self)@.assign_spec(*var, val) == Some(Err::<EvalView, RtError>(x))
                    && final(self)@ == old(self)@,
                Some(Ok(())) => old(self)@.assign_spec(*var, val) == Some(Ok::<EvalView, RtError>(final(self)@)),
            },
    {
        match var {
            Var::I16(n) => {
                if *n >= self.spot.len() {
                    return None;
                }
                let x = match val.as_u16() {
                    Ok(x) => x,
                    Err(e) => return Some(Err(e)),
                };
                self.spot[*n].assign(x);
                proof {
                    assert(self@.spot =~= old(self)@.spot.update(*n as int, assigned(old(self)@.spot[*n as int], x)));
                }
                Some(Ok(()))
            },
            Var::I32(n) => {
                if *n >= self.twospot.len() {
                    return None;
                }
                let x = val.as_u32();
                self.twospot[*n].assign(x);
                proof {
                    assert(self@.twospot =~= old(self)@.twospot.update(
                        *n as int,
                        assigned(old(self)@.twospot[*n as int], x),
                    ));
                }
                Some(Ok(()))
            },
            Var::A16(n, subs) => {
                let ss = match self.eval_subs(subs) {
                    None => return None,
                    Some(Err(x)) => return Some(Err(x)),
                    Some(Ok(ss)) => ss,
                };
                if *n >= self.tail.len() {
                    return None;
                }
                let x = match val.as_u16() {
                    Ok(x) => x,
                    Err(e) => return Some(Err(e)),
                };
                assert(self@.tail[*n as int] == self.tail@[*n as int]@);
                if (ss.len() == 0
                    && self.tail[*n].val.dims.len() == 0 && self.tail[*n].val.elems.len() == 0) {
                    return None;
                }
                let ghost ssv = ss@;
                match self.tail[*n].set_md(ss, x, 0) {
                    Ok(()) => {
                        proof {
                            let b = self.tail@[*n as int];
                            assert(array_set(old(self)@.tail[*n as int], ssv, x) == Some(Ok::<BindView<ArrayView<u16>>, RtError>(b@)));
                            assert(self@.tail =~= old(self)@.tail.update(*n as int, b@));
                        }
                        Some(Ok(()))
                    },
                    Err(e) => {
                        proof {
                            assert(self@.tail =~= old(self)@.tail);
                        }
                        Some(Err(e))
                    },
                }
            },
            Var::A32(n, subs) => {
                let ss = match self.eval_subs(subs) {
                    None => return None,
                    Some(Err(x)) => return Some(Err(x)),
                    Some(Ok(ss)) => ss,
                };
                if *n >= self.hybrid.len() {
                    return None;
                }
                let x = val.as_u32();
                assert(self@.hybrid[*n as int] == self.hybrid@[*n as int]@);
                if (ss.len() == 0
                    && self.hybrid[*n].val.dims.len() == 0 && self.hybrid[*n].val.elems.len() == 0) {
                    return None;
                }
                let ghost ssv = ss@;
                match self.hybrid[*n].set_md(ss, x, 0) {
                    Ok(()) => {
                        proof {
                            let b = self.hybrid@[*n as int];
                            assert(array_set(old(self)@.hybrid[*n as int], ssv, x) == Some(Ok::<BindView<ArrayView<u32>>, RtError>(b@)));
                            assert(self@.hybrid =~= old(self)@.hybrid.update(*n as int, b@));
                        }
                        Some(Ok(()))
                    },
                    Err(e) => {
                        proof {
                            assert(self@.hybrid =~= old(self)@.hybrid);
                        }
                        Some(Err(e))
                    },
                }
            },
        }
    }
}

/// A variable after STASH: its value pushed onto its stack.
pub open spec fn stashed<T>(b: BindView<T>) -> BindView<T> {
    BindView { val: b.val, stack: b.stack.push(b.val), rw: b.rw }
}

/// A variable after a successful RETRIEVE: the last stashed value popped,
/// and restored unless the variable is ignored.
pub open spec fn retrieved<T>(b: BindView<T>) -> BindView<T> {
    BindView {
        val: if b.rw {
            b.stack.last()
        } else {
            b.val
        },
        stack: b.stack.drop_last(),
        rw: b.rw,
    }
}

/// A variable after IGNORE (`rw` false) or REMEMBER (`rw` true).
pub open spec fn with_rw<T>(b: BindView<T>, rw: bool) -> BindView<T> {
    BindView { val: b.val, stack: b.stack, rw }
}

/// An array variable after DIMENSION to `dims` (unless it is ignored): a
/// fresh array of zeros.
pub open spec fn dimensioned<T>(b: BindView<ArrayView<T>>, dims: Seq<usize>, zero: T) -> BindView<ArrayView<T>> {
    assigned(b, ArrayView { dims, elems: Seq::new(dims_product(dims), |i: int| zero) })
}

/// How ABSTAIN and REINSTATE change a statement's abstention counter.
#[derive(Clone, Copy)]
pub enum AbstainOp {
    /// ABSTAIN n TIMES: add n, saturating.
    Add(u32),
    /// ABSTAIN: set to one.
    One,
    /// REINSTATE: subtract one, stopping at zero.
    Sub1,
}

impl AbstainOp {
    /// The new counter.
    pub open spec fn spec_apply(self, v: u32) -> u32 {
        match self {
            AbstainOp::Add(n) => if v + n > u32::MAX {
                u32::MAX
            } else {
                (v + n) as u32
            },
            AbstainOp::One => 1,
            AbstainOp::Sub1 => if v == 0 {
                0
            } else {
                (v - 1) as u32
            },
        }
    }

    /// The new counter.
    pub fn apply(self, v: u32) -> (r: u32)
        ensures
            r == self.spec_apply(v),
    {
        match self {
            AbstainOp::Add(n) => v.saturating_add(n),
            AbstainOp::One => 1,
            AbstainOp::Sub1 => v.saturating_sub(1),
        }
    }
}

impl EvalView {
    /// The state after STASHing `var`.
    pub open spec fn stash_spec(self, var: Var) -> EvalView {
        match var {
            Var::I16(n) => EvalView { spot: self.spot.update(n as int, stashed(self.spot[n as int])), ..self },
            Var::I32(n) => EvalView {
                twospot: self.twospot.update(n as int, stashed(self.twospot[n as int])),
                ..self
            },
            Var::A16(n, _) => EvalView { tail: self.tail.update(n as int, stashed(self.tail[n as int])), ..self },
            Var::A32(n, _) => EvalView {
                hybrid: self.hybrid.update(n as int, stashed(self.hybrid[n as int])),
                ..self
            },
        }
    }

    /// The state after RETRIEVing `var`: IE436 when nothing is stashed.
    pub open spec fn retrieve_spec(self, var: Var) -> Res<EvalView> {
        match var {
            Var::I16(n) => if self.spot[n as int].stack.len() == 0 {
                Err(err0(ErrCode::IE436))
            } else {
                Ok(EvalView { spot: self.spot.update(n as int, retrieved(self.spot[n as int])), ..self })
            },
            Var::I32(n) => if self.twospot[n as int].stack.len() == 0 {
                Err(err0(ErrCode::IE436))
            } else {
                Ok(
                    EvalView {
                        twospot: self.twospot.update(n as int, retrieved(self.twospot[n as int])),
                        ..self
                    },
                )
            },
            Var::A16(n, _) => if self.tail[n as int].stack.len() == 0 {
                Err(err0(ErrCode::IE436))
            } else {
                Ok(EvalView { tail: self.tail.update(n as int, retrieved(self.tail[n as int])), ..self })
            },
            Var::A32(n, _) => if self.hybrid[n as int].stack.len() == 0 {
                Err(err0(ErrCode::IE436))
            } else {
                Ok(
                    EvalView {
                        hybrid: self.hybrid.update(n as int, retrieved(self.hybrid[n as int])),
                        ..self
                    },
                )
            },
        }
    }

    /// The state after IGNORE (`rw` false) or REMEMBER (`rw` true) of `var`.
    pub open spec fn set_rw_spec(self, var: Var, rw: bool) -> EvalView {
        match var {
            Var::I16(n) => EvalView { spot: self.spot.update(n as int, with_rw(self.spot[n as int], rw)), ..self },
            Var::I32(n) => EvalView {
                twospot: self.twospot.update(n as int, with_rw(self.twospot[n as int], rw)),
                ..self
            },
            Var::A16(n, _) => EvalView { tail: self.tail.update(n as int, with_rw(self.tail[n as int], rw)), ..self },
            Var::A32(n, _) => EvalView {
                hybrid: self.hybrid.update(n as int, with_rw(self.hybrid[n as int], rw)),
                ..self
            },
        }
    }

    /// The state after ABSTAIN or REINSTATE of `what`: a label names one
    /// statement (which is left alone if it is a GIVE UP), a gerund every
    /// statement of its kind.
    pub open spec fn abstain_spec(self, p: Program, what: Abstain, op: AbstainOp) -> Option<EvalView> {
        match what {
            Abstain::Label(l) => if !p.labels@.dom().contains(l) || p.labels@[l] >= p.stmts@.len() {
                None
            } else {
                let idx = p.labels@[l] as int;
                if p.stmts@[idx].body is GiveUp {
                    Some(self)
                } else if idx >= self.abstain.len() {
                    None
                } else {
                    Some(EvalView { abstain: self.abstain.update(idx, op.spec_apply(self.abstain[idx])), ..self })
                }
            },
            _ => if exists|i: int|
                self.abstain.len() <= i < p.stmt_types@.len() && #[trigger] p.stmt_types@[i] == what {
                None
            } else {
                Some(
                    EvalView {
                        abstain: Seq::new(
                            self.abstain.len(),
                            |i: int|
                                if i < p.stmt_types@.len() && p.stmt_types@[i] == what {
                                    op.spec_apply(self.abstain[i])
                                } else {
                                    self.abstain[i]
                                },
                        ),
                        ..self
                    },
                )
            },
        }
    }

    /// The state after DIMENSIONing `var` to the values of `dims`: `None`
    /// where the run cannot go on (the running product of the dimensions
    /// overflows), IE240 when a dimension is zero.
    pub open spec fn dim_spec(self, var: Var, dims: Seq<Expr>) -> Option<Res<EvalView>> {
        match self.eval_subs(dims) {
            None => None,
            Some(Err(x)) => Some(Err(x)),
            Some(Ok(ds)) => if !var.spec_is_dim() || !self.holds(var) || !crate::stdops::products_fit(ds) {
                None
            } else if dims_product(ds) == 0 {
                Some(Err(err0(ErrCode::IE240)))
            } else {
                match var {
                    Var::A16(n, _) => Some(
                        Ok(EvalView { tail: self.tail.update(n as int, dimensioned(self.tail[n as int], ds, 0u16)), ..self }),
                    ),
                    Var::A32(n, _) => Some(
                        Ok(
                            EvalView {
                                hybrid: self.hybrid.update(n as int, dimensioned(self.hybrid[n as int], ds, 0u32)),
                                ..self
                            },
                        ),
                    ),
                    _ => None,
                }
            },
        }
    }
}

/// Whether every running product of the dimensions fits in a `usize`.
fn products_fit_check(dims: &Vec<usize>) -> (r: bool)
    ensures
        r == crate::stdops::products_fit(dims@),
{
    let mut total: usize = 1;
    let mut n: usize = 0;
    assert(dims@.take(0) =~= Seq::<usize>::empty());
    while n < dims.len()
        invariant
            n <= dims@.len(),
            total == dims_product(dims@.take(n as int)),
            forall|k: int| 0 <= k <= n ==> #[trigger] dims_product(dims@.take(k)) <= usize::MAX,
        decreases dims@.len() - n,
    {
        assert(dims@.take(n + 1).drop_last() =~= dims@.take(n as int));
        match total.checked_mul(dims[n]) {
            Some(t) => {
                total = t;
            },
            None => {
                assert(dims_product(dims@.take(n + 1)) > usize::MAX);
                return false;
            },
        }
        n = n + 1;
    }
    true
}

proof fn lemma_stash_view<T: View>(b0: Bind<T>, b1: Bind<T>)
    requires
        b1.val == b0.val,
        b1.rw == b0.rw,
        b1.stack@.len() == b0.stack@.len() + 1,
        b1.stack@.drop_last() == b0.stack@,
        b1.stack@.last()@ == b0.val@,
    ensures
        b1@ == stashed(b0@),
{
    assert(b1@.stack =~= b0@.stack.push(b0@.val)) by {
        assert forall|k: int| 0 <= k < b1.stack@.len() implies #[trigger] b1@.stack[k]
            == b0@.stack.push(b0@.val)[k] by {
            if k < b0.stack@.len() {
                assert(b1.stack@[k] == b1.stack@.drop_last()[k]);
            }
        }
    }
}

proof fn lemma_retrieve_view<T: View>(b0: Bind<T>, b1: Bind<T>)
    requires
        b0.stack@.len() > 0,
        b1.stack@ == b0.stack@.drop_last(),
        b1.val == (if b0.rw { b0.stack@.last() } else { b0.val }),
        b1.rw == b0.rw,
    ensures
        b1@ == retrieved(b0@),
{
    assert(b1@.stack =~= b0@.stack.drop_last());
}

impl<'a> Eval<'a> {
    /// Whether the interpreter has a variable for the index that `var` names.
    fn has_var(&self, var: &Var) -> (r: bool)
        ensures
            r == self@.holds(*var),
    {
        match var {
            Var::I16(n) => *n < self.spot.len(),
            Var::I32(n) => *n < self.twospot.len(),
            Var::A16(n, _) => *n < self.tail.len(),
            Var::A32(n, _) => *n < self.hybrid.len(),
        }
    }

    /// Process a STASH statement.
    fn stash(&mut self, var: &Var)
        requires
            old(self)@.vars_wf(old(self).program.var_info),
            old(self)@.holds(*var),
        ensures
            final(self).program == old(self).program,
            final(self)@ == old(self)@.stash_spec(*var),
            final(self)@.vars_wf(final(self).program.var_info),
    {
        match var {
            Var::I16(n) => {
                let ghost b0 = self.spot@[*n as int];
                self.spot[*n].stash();
                proof {
                    lemma_stash_view(b0, self.spot@[*n as int]);
                    assert(self@.spot =~= old(self)@.spot.update(*n as int, stashed(b0@)));
                }
            },
            Var::I32(n) => {
                let ghost b0 = self.twospot@[*n as int];
                self.twospot[*n].stash();
                proof {
                    lemma_stash_view(b0, self.twospot@[*n as int]);
                    assert(self@.twospot =~= old(self)@.twospot.update(*n as int, stashed(b0@)));
                }
            },
            Var::A16(n, _) => {
                let ghost b0 = self.tail@[*n as int];
                self.tail[*n].stash();
                proof {
                    let b1 = self.tail@[*n as int];
                    assert(b1.stack@.last()@ == b0.val@);
                    lemma_stash_view(b0, b1);
                    assert(self@.tail =~= old(self)@.tail.update(*n as int, stashed(b0@)));
                }
            },
            Var::A32(n, _) => {
                let ghost b0 = self.hybrid@[*n as int];
                self.hybrid[*n].stash();
                proof {
                    let b1 = self.hybrid@[*n as int];
                    assert(b1.stack@.last()@ == b0.val@);
                    lemma_stash_view(b0, b1);
                    assert(self@.hybrid =~= old(self)@.hybrid.update(*n as int, stashed(b0@)));
                }
            },
        }
    }

    /// Process a RETRIEVE statement.
    fn retrieve(&mut self, var: &Var) -> (r: Res<()>)
        requires
            old(self)@.vars_wf(old(self).program.var_info),
            old(self)@.holds(*var),
        ensures
            final(self).program == old(self).program,
            final(self)@.vars_wf(final(self).program.var_info),
            match r {
                Err(x) => old(self)@.retrieve_spec(*var) == Err::<EvalView, RtError>(x) && final(self)@
                    == old(self)@,
                Ok(()) => old(self)@.retrieve_spec(*var) == Ok::<EvalView, RtError>(final(self)@),
            },
    {
        match var {
            Var::I16(n) => {
                let ghost b0 = self.spot@[*n as int];
                let r = self.spot[*n].retrieve(0);
                proof {
                    let b1 = self.spot@[*n as int];
                    if r is Ok {
                        lemma_retrieve_view(b0, b1);
                        assert(self@.spot =~= old(self)@.spot.update(*n as int, retrieved(b0@)));
                    } else {
                        assert(b1@.stack =~= b0@.stack);
                        assert(self@.spot =~= old(self)@.spot);
                    }
                }
                r
            },
            Var::I32(n) => {
                let ghost b0 = self.twospot@[*n as int];
                let r = self.twospot[*n].retrieve(0);
                proof {
                    let b1 = self.twospot@[*n as int];
                    if r is Ok {
                        lemma_retrieve_view(b0, b1);
                        assert(self@.twospot =~= old(self)@.twospot.update(*n as int, retrieved(b0@)));
                    } else {
                        assert(b1@.stack =~= b0@.stack);
                        assert(self@.twospot =~= old(self)@.twospot);
                    }
                }
                r
            },
            Var::A16(n, _) => {
                let ghost b0 = self.tail@[*n as int];
                let r = self.tail[*n].retrieve(0);
                proof {
                    let b1 = self.tail@[*n as int];
                    if r is Ok {
                        lemma_retrieve_view(b0, b1);
                        assert(self@.tail =~= old(self)@.tail.update(*n as int, retrieved(b0@)));
                        assert(b0@.stack.last() == b0.stack@.last()@);
                    } else {
                        assert(b1@.stack =~= b0@.stack);
                        assert(self@.tail =~= old(self)@.tail);
                    }
                }
                r
            },
            Var::A32(n, _) => {
                let ghost b0 = self.hybrid@[*n as int];
                let r = self.hybrid[*n].retrieve(0);
                proof {
                    let b1 = self.hybrid@[*n as int];
                    if r is Ok {
                        lemma_retrieve_view(b0, b1);
                        assert(self@.hybrid =~= old(self)@.hybrid.update(*n as int, retrieved(b0@)));
                        assert(b0@.stack.last() == b0.stack@.last()@);
                    } else {
                        assert(b1@.stack =~= b0@.stack);
                        assert(self@.hybrid =~= old(self)@.hybrid);
                    }
                }
                r
            },
        }
    }

    /// Process an IGNORE or REMEMBER statement.  Cannot fail.
    fn set_rw(&mut self, var: &Var, rw: bool)
        requires
            old(self)@.vars_wf(old(self).program.var_info),
            old(self)@.holds(*var),
        ensures
            final(self).program == old(self).program,
            final(self)@ == old(self)@.set_rw_spec(*var, rw),
            final(self)@.vars_wf(final(self).program.var_info),
    {
        match var {
            Var::I16(n) => {
                self.spot[*n].rw = rw;
                assert(self@.spot =~= old(self)@.spot.update(*n as int, with_rw(old(self)@.spot[*n as int], rw)));
            },
            Var::I32(n) => {
                self.twospot[*n].rw = rw;
                assert(self@.twospot =~= old(self)@.twospot.update(
                    *n as int,
                    with_rw(old(self)@.twospot[*n as int], rw),
                ));
            },
            Var::A16(n, _) => {
                self.tail[*n].rw = rw;
                assert(self@.tail =~= old(self)@.tail.update(*n as int, with_rw(old(self)@.tail[*n as int], rw)));
            },
            Var::A32(n, _) => {
                self.hybrid[*n].rw = rw;
                assert(self@.hybrid =~= old(self)@.hybrid.update(
                    *n as int,
                    with_rw(old(self)@.hybrid[*n as int], rw),
                ));
            },
        }
    }
}

impl<'a> Eval<'a> {
    /// Process an ABSTAIN or REINSTATE statement: false where the run cannot
    /// go on (a label that names no statement, or a statement kind listed
    /// past the end of the program).
    fn abstain(&mut self, what: &Abstain, op: AbstainOp) -> (ok: bool)
        ensures
            final(self).program == old(self).program,
            ok ==> old(self)@.abstain_spec(*old(self).program, *what, op) == Some(final(self)@),
            !ok ==> old(self)@.abstain_spec(*old(self).program, *what, op) is None,
            final(self).abstain@.len() == old(self).abstain@.len(),
            final(self).spot == old(self).spot,
            final(self).twospot == old(self).twospot,
            final(self).tail == old(self).tail,
            final(self).hybrid == old(self).hybrid,
            final(self).jumps == old(self).jumps,
            final(self).pctr == old(self).pctr,
            final(self).phase == old(self).phase,
            final(self).stmt_ctr == old(self).stmt_ctr,
            final(self).rand == old(self).rand,
    {
        broadcast use vstd::std_specs::hash::group_hash_axioms;

        if let Abstain::Label(lbl) = what {
            match self.program.labels.get(lbl) {
                Some(idx) => {
                    let idx = *idx as usize;
                    if idx >= self.program.stmts.len() {
                        return false;
                    }
                    if let StmtBody::GiveUp = &self.program.stmts[idx].body {
                    } else {
                        if idx >= self.abstain.len() {
                            return false;
                        }
                        let v = self.abstain[idx];
                        self.abstain.set(idx, op.apply(v));
                    }
                    true
                },
                None => false,
            }
        } else {
            let ghost a0 = self.abstain@;
            let n = self.program.stmt_types.len();
            let m = self.abstain.len();
            let mut i: usize = 0;
            while i < n
                invariant
                    i <= n,
                    n == self.program.stmt_types@.len(),
                    m == a0.len(),
                    self.program == old(self).program,
                    a0 == old(self).abstain@,
                    self.spot == old(self).spot,
                    self.twospot == old(self).twospot,
                    self.tail == old(self).tail,
                    self.hybrid == old(self).hybrid,
                    self.jumps == old(self).jumps,
                    self.last_in == old(self).last_in,
                    self.last_out == old(self).last_out,
                    self.stmt_ctr == old(self).stmt_ctr,
                    self.phase == old(self).phase,
                    self.rand == old(self).rand,
                    self.pctr == old(self).pctr,
                    self.debug == old(self).debug,
                    self.abstain@.len() == m,
                    forall|k: int| m <= k < i ==> #[trigger] self.program.stmt_types@[k] != *what,
                    !(*what is Label),
                    forall|k: int|
                        0 <= k < m ==> #[trigger] self.abstain@[k] == if k < i
                            && self.program.stmt_types@[k] == *what {
                            op.spec_apply(a0[k])
                        } else {
                            a0[k]
                        },
                decreases n - i,
            {
                if self.program.stmt_types[i] == *what {
                    if i >= m {
                        proof {
                            let p = *old(self).program;
                            assert(p.stmt_types@[i as int] == *what);
                            assert(old(self)@.abstain.len() <= i < p.stmt_types@.len());
                            assert(exists|j: int|
                                old(self)@.abstain.len() <= j < p.stmt_types@.len()
                                    && #[trigger] p.stmt_types@[j] == *what);
                        }
                        return false;
                    }
                    let v = self.abstain[i];
                    self.abstain.set(i, op.apply(v));
                }
                i = i + 1;
            }
            proof {
                let p = *old(self).program;
                assert(!(exists|k: int|
                    m <= k < p.stmt_types@.len() && #[trigger] p.stmt_types@[k] == *what));
                let t = old(self)@.abstain_spec(p, *what, op)->Some_0;
                assert(self@.abstain =~= t.abstain);
            }
            true
        }
    }

    /// Dimension an array.
    fn array_dim(&mut self, var: &Var, dims: &Vec<Expr>) -> (r: Option<Res<()>>)
        requires
            old(self)@.vars_wf(old(self).program.var_info),
        ensures
            final(self).program == old(self).program,
            final(self)@.vars_wf(final(self).program.var_info),
            match r {
                None => old(self)@.dim_spec(*var, dims@) is None && final(self)@ == old(self)@,
                Some(Err(x)) => old(self)@.dim_spec(*var, dims@) == Some(Err::<EvalView, RtError>(x))
                    && final(self)@ == old(self)@,
                Some(Ok(())) => old(self)@.dim_spec(*var, dims@) == Some(Ok::<EvalView, RtError>(final(self)@)),
            },
    {
        let ds = match self.eval_subs(dims) {
            None => return None,
            Some(Err(x)) => return Some(Err(x)),
            Some(Ok(ds)) => ds,
        };
        if !var.is_dim() || !self.has_var(var) || !products_fit_check(&ds) {
            return None;
        }
        let ghost dsv = ds@;
        match var {
            Var::A16(n, _) => {
                let ghost b0 = self.tail@[*n as int];
                match self.tail[*n].dimension(ds, 0) {
                    Ok(()) => {
                        proof {
                            let b1 = self.tail@[*n as int];
                            if b0.rw {
                                assert(b1@.val.elems =~= Seq::new(dims_product(dsv), |i: int| 0u16));
                            }
                            assert(b1@.stack =~= b0@.stack);
                            assert(self@.tail =~= old(self)@.tail.update(*n as int, dimensioned(b0@, dsv, 0u16)));
                        }
                        Some(Ok(()))
                    },
                    Err(e) => {
                        proof {
                            assert(self.tail@[*n as int]@.stack =~= b0@.stack);
                            assert(self@.tail =~= old(self)@.tail);
                        }
                        Some(Err(e))
                    },
                }
            },
            Var::A32(n, _) => {
                let ghost b0 = self.hybrid@[*n as int];
                match self.hybrid[*n].dimension(ds, 0) {
                    Ok(()) => {
                        proof {
                            let b1 = self.hybrid@[*n as int];
                            if b0.rw {
                                assert(b1@.val.elems =~= Seq::new(dims_product(dsv), |i: int| 0u32));
                            }
                            assert(b1@.stack =~= b0@.stack);
                            assert(self@.hybrid =~= old(self)@.hybrid.update(*n as int, dimensioned(b0@, dsv, 0u32)));
                        }
                        Some(Ok(()))
                    },
                    Err(e) => {
                        proof {
                            assert(self.hybrid@[*n as int]@.stack =~= b0@.stack);
                            assert(self@.hybrid =~= old(self)@.hybrid);
                        }
                        Some(Err(e))
                    },
                }
            },
            _ => None,
        }
    }
}

/// What a statement leads to.
#[derive(Clone, Copy, PartialEq, Eq, Structural, Debug)]
pub enum StmtRes {
    /// normal execution, next statement
    Next,
    /// DO ... NEXT
    Jump(usize),
    /// RESUME
    Back(usize),
    /// TRY AGAIN
    FromTop,
    /// GIVE UP
    End,
}

/// READ OUT, WRITE IN and PRINT talk to the outside world.
pub open spec fn is_io(b: StmtBody) -> bool {
    b is ReadOut || b is WriteIn || b is Print
}

impl EvalView {
    /// The state after IGNORE or REMEMBER of the variables `vs`, in order.
    pub open spec fn set_rw_all(self, vs: Seq<Var>, rw: bool) -> Option<EvalView>
        decreases vs.len(),
    {
        if vs.len() == 0 {
            Some(self)
        } else {
            match self.set_rw_all(vs.drop_last(), rw) {
                None => None,
                Some(t) => if t.holds(vs.last()) {
                    Some(t.set_rw_spec(vs.last(), rw))
                } else {
                    None
                },
            }
        }
    }

    /// The state after STASHing the variables `vs`, in order.
    pub open spec fn stash_all(self, vs: Seq<Var>) -> Option<EvalView>
        decreases vs.len(),
    {
        if vs.len() == 0 {
            Some(self)
        } else {
            match self.stash_all(vs.drop_last()) {
                None => None,
                Some(t) => if t.holds(vs.last()) {
                    Some(t.stash_spec(vs.last()))
                } else {
                    None
                },
            }
        }
    }

    /// The state after RETRIEVing the variables `vs` in order, stopping at the
    /// first error.
    pub open spec fn retrieve_all(self, vs: Seq<Var>) -> Option<(EvalView, Res<()>)>
        decreases vs.len(),
    {
        if vs.len() == 0 {
            Some((self, Ok(())))
        } else {
            match self.retrieve_all(vs.drop_last()) {
                None => None,
                Some((s1, Err(x))) => Some((s1, Err(x))),
                Some((s1, Ok(()))) => if !s1.holds(vs.last()) {
                    None
                } else {
                    match s1.retrieve_spec(vs.last()) {
                        Err(x) => Some((s1, Err(x))),
                        Ok(s2) => Some((s2, Ok(()))),
                    }
                },
            }
        }
    }

    /// The state after ABSTAIN or REINSTATE of each of `ws`, in order.
    pub open spec fn abstain_all(self, p: Program, ws: Seq<Abstain>, op: AbstainOp) -> Option<EvalView>
        decreases ws.len(),
    {
        if ws.len() == 0 {
            Some(self)
        } else {
            match self.abstain_all(p, ws.drop_last(), op) {
                None => None,
                Some(t) => t.abstain_spec(p, ws.last(), op),
            }
        }
    }

    /// The state and result after a statement that does no I/O: `None` where
    /// the run cannot go on (arithmetic that overflows, a shift by 32 or more,
    /// an index that fails).
    pub open spec fn stmt_spec(self, p: Program, b: StmtBody) -> Option<(EvalView, Res<StmtRes>)> {
        match b {
            StmtBody::Error(e) => Some((self, Err(e))),
            StmtBody::Calc(var, e) => match self.eval_e(e) {
                None => None,
                Some(Err(x)) => Some((self, Err(x))),
                Some(Ok(v)) => match self.assign_spec(var, v) {
                    None => None,
                    Some(Err(x)) => Some((self, Err(x))),
                    Some(Ok(s2)) => Some((s2, Ok(StmtRes::Next))),
                },
            },
            StmtBody::Dim(var, es) => match self.dim_spec(var, es@) {
                None => None,
                Some(Err(x)) => Some((self, Err(x))),
                Some(Ok(s2)) => Some((s2, Ok(StmtRes::Next))),
            },
            StmtBody::DoNext(n) => if p.labels@.dom().contains(n) {
                if self.jumps.len() >= 80 {
                    Some((self, Err(err0(ErrCode::IE123))))
                } else {
                    Some((self, Ok(StmtRes::Jump(p.labels@[n] as usize))))
                }
            } else {
                Some((self, Err(err0(ErrCode::IE129))))
            },
            StmtBody::ComeFrom(_) => Some((self, Ok(StmtRes::Next))),
            StmtBody::Resume(e) => match self.eval_e(e) {
                None => None,
                Some(Err(x)) => Some((self, Err(x))),
                Some(Ok(v)) => {
                    let n = v.spec_as_u32();
                    let len = self.jumps.len();
                    if n == 0 {
                        Some((self, Err(err0(ErrCode::IE621))))
                    } else if len < n {
                        Some((self, Err(err0(ErrCode::IE632))))
                    } else {
                        Some(
                            (
                                EvalView { jumps: self.jumps.take(len - n), ..self },
                                Ok(StmtRes::Back(self.jumps[len - n] as usize)),
                            ),
                        )
                    }
                },
            },
            StmtBody::Forget(e) => match self.eval_e(e) {
                None => None,
                Some(Err(x)) => Some((self, Err(x))),
                Some(Ok(v)) => {
                    let n = v.spec_as_u32();
                    let len = self.jumps.len();
                    if n == 0 {
                        Some((self, Ok(StmtRes::Next)))
                    } else if len < n {
                        Some((EvalView { jumps: seq![], ..self }, Ok(StmtRes::Next)))
                    } else {
                        Some((EvalView { jumps: self.jumps.take(len - n), ..self }, Ok(StmtRes::Next)))
                    }
                },
            },
            StmtBody::Ignore(vs) => next_of(self.set_rw_all(vs@, false)),
            StmtBody::Remember(vs) => next_of(self.set_rw_all(vs@, true)),
            StmtBody::Stash(vs) => next_of(self.stash_all(vs@)),
            StmtBody::Retrieve(vs) => match self.retrieve_all(vs@) {
                None => None,
                Some((s2, Err(x))) => Some((s2, Err(x))),
                Some((s2, Ok(()))) => Some((s2, Ok(StmtRes::Next))),
            },
            StmtBody::Abstain(oe, ws) => match oe {
                None => next_of(self.abstain_all(p, ws@, AbstainOp::One)),
                Some(e) => match self.eval_e(e) {
                    None => None,
                    Some(Err(x)) => Some((self, Err(x))),
                    Some(Ok(v)) => next_of(self.abstain_all(p, ws@, AbstainOp::Add(v.spec_as_u32()))),
                },
            },
            StmtBody::Reinstate(ws) => next_of(self.abstain_all(p, ws@, AbstainOp::Sub1)),
            StmtBody::TryAgain => Some((self, Ok(StmtRes::FromTop))),
            StmtBody::GiveUp => Some((self, Ok(StmtRes::End))),
            _ => None,
        }
    }
}

/// A statement that goes on to the next one with the state `s`, or crashes.
pub open spec fn next_of(s: Option<EvalView>) -> Option<(EvalView, Res<StmtRes>)> {
    match s {
        None => None,
        Some(t) => Some((t, Ok(StmtRes::Next))),
    }
}

/// An outcome agrees with the one a specification gives: the same value, or
/// an error that says the same.
pub open spec fn res_agrees<T>(r: Res<T>, s: Res<T>) -> bool {
    match r {
        Ok(a) => s == Ok::<T, RtError>(a),
        Err(x) => s matches Err(y) && x@ == y@,
    }
}

proof fn lemma_retrieve_all_stops(st: EvalView, vs: Seq<Var>, j: int)
    requires
        0 <= j <= vs.len(),
        !(st.retrieve_all(vs.take(j)) matches Some((_, Ok(())))),
    ensures
        st.retrieve_all(vs) == st.retrieve_all(vs.take(j)),
    decreases vs.len(),
{
    if j == vs.len() {
        assert(vs.take(j) =~= vs);
    } else {
        assert(vs.drop_last().take(j) =~= vs.take(j));
        lemma_retrieve_all_stops(st, vs.drop_last(), j);
    }
}

proof fn lemma_set_rw_all_stops(st: EvalView, vs: Seq<Var>, j: int, rw: bool)
    requires
        0 <= j <= vs.len(),
        st.set_rw_all(vs.take(j), rw) is None,
    ensures
        st.set_rw_all(vs, rw) is None,
    decreases vs.len(),
{
    if j == vs.len() {
        assert(vs.take(j) =~= vs);
    } else {
        assert(vs.drop_last().take(j) =~= vs.take(j));
        lemma_set_rw_all_stops(st, vs.drop_last(), j, rw);
    }
}

proof fn lemma_stash_all_stops(st: EvalView, vs: Seq<Var>, j: int)
    requires
        0 <= j <= vs.len(),
        st.stash_all(vs.take(j)) is None,
    ensures
        st.stash_all(vs) is None,
    decreases vs.len(),
{
    if j == vs.len() {
        assert(vs.take(j) =~= vs);
    } else {
        assert(vs.drop_last().take(j) =~= vs.take(j));
        lemma_stash_all_stops(st, vs.drop_last(), j);
    }
}

proof fn lemma_abstain_all_stops(st: EvalView, p: Program, ws: Seq<Abstain>, j: int, op: AbstainOp)
    requires
        0 <= j <= ws.len(),
        st.abstain_all(p, ws.take(j), op) is None,
    ensures
        st.abstain_all(p, ws, op) is None,
    decreases ws.len(),
{
    if j == ws.len() {
        assert(ws.take(j) =~= ws);
    } else {
        assert(ws.drop_last().take(j) =~= ws.take(j));
        lemma_abstain_all_stops(st, p, ws.drop_last(), j, op);
    }
}

impl<'a> Eval<'a> {
    /// Process a single statement that does no I/O.
    #[verifier::rlimit(60)]
    fn eval_stmt(&mut self, stmt: &Stmt) -> (r: Option<Res<StmtRes>>)
        requires
            old(self)@.vars_wf(old(self).program.var_info),
            old(self).abstain@.len() == old(self).program.stmts@.len(),
            !is_io(stmt.body),
        ensures
            final(self).program == old(self).program,
            final(self)@.vars_wf(final(self).program.var_info),
            final(self).abstain@.len() == old(self).abstain@.len(),
            final(self).pctr == old(self).pctr,
            final(self).phase == old(self).phase,
            final(self).stmt_ctr == old(self).stmt_ctr,
            final(self).rand == old(self).rand,
            jumps_within(old(self).jumps@, old(self).program.stmts@.len()) ==> jumps_within(
                final(self).jumps@,
                old(self).program.stmts@.len(),
            ),
            r matches Some(Ok(StmtRes::Back(n))) ==> (jumps_within(
                old(self).jumps@,
                old(self).program.stmts@.len(),
            ) ==> n < old(self).program.stmts@.len()),
            match r {
                None => old(self)@.stmt_spec(*old(self).program, stmt.body) is None,
                Some(res) => old(self)@.stmt_spec(*old(self).program, stmt.body) matches Some((s2, sres))
                    && final(self)@ == s2 && res_agrees(res, sres),
            },
    {
        broadcast use vstd::std_specs::hash::group_hash_axioms;

        let ghost p = *self.program;
        let ghost c = self.program.var_info;
        match &stmt.body {
            StmtBody::Calc(var, expr) => {
                let val = match self.eval_expr(expr) {
                    None => return None,
                    Some(Err(x)) => return Some(Err(x)),
                    Some(Ok(v)) => v,
                };
                match self.assign(var, val) {
                    None => None,
                    Some(Err(x)) => Some(Err(x)),
                    Some(Ok(())) => Some(Ok(StmtRes::Next)),
                }
            },
            StmtBody::Dim(var, exprs) => match self.array_dim(var, exprs) {
                None => None,
                Some(Err(x)) => Some(Err(x)),
                Some(Ok(())) => Some(Ok(StmtRes::Next)),
            },
            StmtBody::DoNext(n) => {
                let j = self.jumps.len();
                match self.program.labels.get(n) {
                    Some(i) => {
                        if j >= 80 {
                            Some(ErrCode::IE123.err())
                        } else {
                            Some(Ok(StmtRes::Jump(*i as usize)))
                        }
                    },
                    None => Some(ErrCode::IE129.err()),
                }
            },
            StmtBody::ComeFrom(_) => Some(Ok(StmtRes::Next)),
            StmtBody::Resume(expr) => {
                let n = match self.eval_expr(expr) {
                    None => return None,
                    Some(Err(x)) => return Some(Err(x)),
                    Some(Ok(v)) => v.as_u32(),
                };
                proof {
                    assert(self.jumps@.take(self.jumps@.len() as int) =~= self.jumps@);
                }
                match crate::stdops::pop_jumps(&mut self.jumps, n, true, 0) {
                    Ok(Some(next)) => Some(Ok(StmtRes::Back(next as usize))),
                    Ok(None) => None,
                    Err(e) => Some(Err(e)),
                }
            },
            StmtBody::Forget(expr) => {
                let n = match self.eval_expr(expr) {
                    None => return None,
                    Some(Err(x)) => return Some(Err(x)),
                    Some(Ok(v)) => v.as_u32(),
                };
                match crate::stdops::pop_jumps(&mut self.jumps, n, false, 0) {
                    Ok(_) => {
                        proof {
                            let (s2, _) = old(self)@.stmt_spec(p, stmt.body)->0;
                            assert(self@.jumps =~= s2.jumps);
                        }
                        Some(Ok(StmtRes::Next))
                    },
                    Err(e) => Some(Err(e)),
                }
            },
            StmtBody::Ignore(vars) | StmtBody::Remember(vars) => {
                let rw = if let StmtBody::Remember(_) = &stmt.body { true } else { false };
                let mut i: usize = 0;
                assert(vars@.take(0) =~= Seq::<Var>::empty());
                while i < vars.len()
                    invariant
                        i <= vars@.len(),
                        self.program == old(self).program,
                        c == self.program.var_info,
                        self@.vars_wf(c),
                        self.abstain@.len() == old(self).abstain@.len(),
                        self.pctr == old(self).pctr,
                        self.phase == old(self).phase,
                        self.stmt_ctr == old(self).stmt_ctr,
                        self.rand == old(self).rand,
                        self.jumps@ == old(self).jumps@,
                        old(self)@.set_rw_all(vars@.take(i as int), rw) == Some(self@),
                        stmt.body is Ignore ==> stmt.body->Ignore_0 == *vars && !rw,
                        stmt.body is Remember ==> stmt.body->Remember_0 == *vars && rw,
                        stmt.body is Ignore || stmt.body is Remember,
                        p == *old(self).program,
                    decreases vars@.len() - i,
                {
                    proof {
                        assert(vars@.take(i + 1).drop_last() =~= vars@.take(i as int));
                    }
                    if !self.has_var(&vars[i]) {
                        proof {
                            lemma_set_rw_all_stops(old(self)@, vars@, i + 1, rw);
                        }
                        return None;
                    }
                    self.set_rw(&vars[i], rw);
                    proof {
                        assert(vars@.take(i + 1).drop_last() =~= vars@.take(i as int));
                    }
                    i = i + 1;
                }
                assert(vars@.take(vars@.len() as int) =~= vars@);
                Some(Ok(StmtRes::Next))
            },
            StmtBody::Stash(vars) => {
                let mut i: usize = 0;
                assert(vars@.take(0) =~= Seq::<Var>::empty());
                while i < vars.len()
                    invariant
                        i <= vars@.len(),
                        self.program == old(self).program,
                        c == self.program.var_info,
                        self@.vars_wf(c),
                        self.abstain@.len() == old(self).abstain@.len(),
                        self.pctr == old(self).pctr,
                        self.phase == old(self).phase,
                        self.stmt_ctr == old(self).stmt_ctr,
                        self.rand == old(self).rand,
                        self.jumps@ == old(self).jumps@,
                        old(self)@.stash_all(vars@.take(i as int)) == Some(self@),
                        stmt.body is Stash && stmt.body->Stash_0 == *vars,
                        p == *old(self).program,
                    decreases vars@.len() - i,
                {
                    proof {
                        assert(vars@.take(i + 1).drop_last() =~= vars@.take(i as int));
                    }
                    if !self.has_var(&vars[i]) {
                        proof {
                            lemma_stash_all_stops(old(self)@, vars@, i + 1);
                        }
                        return None;
                    }
                    self.stash(&vars[i]);
                    proof {
                        assert(vars@.take(i + 1).drop_last() =~= vars@.take(i as int));
                    }
                    i = i + 1;
                }
                assert(vars@.take(vars@.len() as int) =~= vars@);
                Some(Ok(StmtRes::Next))
            },
            StmtBody::Retrieve(vars) => {
                let mut i: usize = 0;
                assert(vars@.take(0) =~= Seq::<Var>::empty());
                while i < vars.len()
                    invariant
                        i <= vars@.len(),
                        self.program == old(self).program,
                        c == self.program.var_info,
                        self@.vars_wf(c),
                        self.abstain@.len() == old(self).abstain@.len(),
                        self.pctr == old(self).pctr,
                        self.phase == old(self).phase,
                        self.stmt_ctr == old(self).stmt_ctr,
                        self.rand == old(self).rand,
                        self.jumps@ == old(self).jumps@,
                        old(self)@.retrieve_all(vars@.take(i as int)) == Some((self@, Ok::<(), RtError>(()))),
                        stmt.body is Retrieve && stmt.body->Retrieve_0 == *vars,
                        p == *old(self).program,
                    decreases vars@.len() - i,
                {
                    let ghost s_before = self@;
                    proof {
                        assert(vars@.take(i + 1).drop_last() =~= vars@.take(i as int));
                    }
                    if !self.has_var(&vars[i]) {
                        proof {
                            lemma_retrieve_all_stops(old(self)@, vars@, i + 1);
                        }
                        return None;
                    }
                    let r = self.retrieve(&vars[i]);
                    match r {
                        Err(e) => {
                            proof {
                                assert(old(self)@.retrieve_all(vars@.take(i + 1)) == Some((self@, Err::<(), RtError>(e))));
                                lemma_retrieve_all_stops(old(self)@, vars@, i + 1);
                                assert(old(self)@.retrieve_all(vars@) == Some((self@, Err::<(), RtError>(e))));
                                assert(old(self)@.stmt_spec(p, stmt.body) == Some(
                                    (self@, Err::<StmtRes, RtError>(e)),
                                ));
                            }
                            return Some(Err(e));
                        },
                        Ok(()) => {},
                    }
                    i = i + 1;
                }
                assert(vars@.take(vars@.len() as int) =~= vars@);
                Some(Ok(StmtRes::Next))
            },
            StmtBody::Abstain(oexpr, whats) => {
                let op = match oexpr {
                    Some(e) => match self.eval_expr(e) {
                        None => return None,
                        Some(Err(x)) => return Some(Err(x)),
                        Some(Ok(v)) => AbstainOp::Add(v.as_u32()),
                    },
                    None => AbstainOp::One,
                };
                if !self.abstain_list(whats, op) {
                    return None;
                }
                Some(Ok(StmtRes::Next))
            },
            StmtBody::Reinstate(whats) => {
                if !self.abstain_list(whats, AbstainOp::Sub1) {
                    return None;
                }
                Some(Ok(StmtRes::Next))
            },
            StmtBody::TryAgain => Some(Ok(StmtRes::FromTop)),
            StmtBody::GiveUp => Some(Ok(StmtRes::End)),
            StmtBody::Error(e) => Some(Err(e.duplicate())),
            _ => None,
        }
    }

    /// ABSTAIN or REINSTATE each of `whats`, in order: false where the run
    /// cannot go on.
    fn abstain_list(&mut self, whats: &Vec<Abstain>, op: AbstainOp) -> (ok: bool)
        requires
            old(self)@.vars_wf(old(self).program.var_info),
        ensures
            final(self).program == old(self).program,
            final(self)@.vars_wf(final(self).program.var_info),
            final(self).abstain@.len() == old(self).abstain@.len(),
            ok ==> old(self)@.abstain_all(*old(self).program, whats@, op) == Some(final(self)@),
            !ok ==> old(self)@.abstain_all(*old(self).program, whats@, op) is None,
            final(self).pctr == old(self).pctr,
            final(self).phase == old(self).phase,
            final(self).stmt_ctr == old(self).stmt_ctr,
            final(self).rand == old(self).rand,
            final(self).jumps@ == old(self).jumps@,
    {
        let mut i: usize = 0;
        assert(whats@.take(0) =~= Seq::<Abstain>::empty());
        while i < whats.len()
            invariant
                i <= whats@.len(),
                self.program == old(self).program,
                self@.vars_wf(self.program.var_info),
                self.abstain@.len() == old(self).abstain@.len(),
                old(self)@.abstain_all(*old(self).program, whats@.take(i as int), op) == Some(self@),
                self.pctr == old(self).pctr,
                self.phase == old(self).phase,
                self.stmt_ctr == old(self).stmt_ctr,
                self.rand == old(self).rand,
                self.jumps@ == old(self).jumps@,
            decreases whats@.len() - i,
        {
            proof {
                assert(whats@.take(i + 1).drop_last() =~= whats@.take(i as int));
            }
            if !self.abstain(&whats[i], op) {
                proof {
                    lemma_abstain_all_stops(old(self)@, *old(self).program, whats@, i + 1, op);
                }
                return false;
            }
            i = i + 1;
        }
        assert(whats@.take(whats@.len() as int) =~= whats@);
        true
    }
}

/// What the interpreter asks of the world outside after a step.
pub enum Action {
    /// Nothing: take the next step.
    Continue,
    /// Write this number text (a failure to write is ignored), then take the
    /// next step.
    WriteNumber(String),
    /// Write this text (PRINT; the run cannot go on if writing fails), then
    /// take the next step.
    WriteText(String),
    /// Write these bytes, then take the next step with `Event::Written`.
    WriteBytes(Vec<u8>),
    /// Read a line, then take the next step with `Event::Line` (or
    /// `Event::ReadFailed`).
    ReadLine,
    /// Read this many bytes (256 for each one past the end of input), then
    /// take the next step with `Event::Bytes`.
    ReadBytes(usize),
    /// The program has ended: the number of statements executed, or the
    /// error it stopped with.
    Finished(Res<usize>),
    /// Show the trace of the statement about to run: the statement counter,
    /// the variables and the NEXT stack as they stand, and the statement;
    /// then take the next step.
    Trace,
    /// The run cannot go on: the program reached a point where the
    /// interpreter's arithmetic or indexing fails (a variable, label or
    /// statement that does not exist, a READ OUT of an expression, an
    /// overflow), or the event did not answer the request.
    Crash,
}

/// What an action asks for.
pub enum ActionView {
    Continue,
    WriteNumber(Seq<char>),
    WriteText(Seq<char>),
    WriteBytes(Seq<u8>),
    ReadLine,
    ReadBytes(usize),
    Finished(Result<usize, ErrView>),
    Trace,
    Crash,
}

impl View for Action {
    type V = ActionView;

    open spec fn view(&self) -> ActionView {
        match self {
            Action::Continue => ActionView::Continue,
            Action::WriteNumber(s) => ActionView::WriteNumber(s@),
            Action::WriteText(s) => ActionView::WriteText(s@),
            Action::WriteBytes(b) => ActionView::WriteBytes(b@),
            Action::ReadLine => ActionView::ReadLine,
            Action::ReadBytes(n) => ActionView::ReadBytes(*n),
            Action::Finished(r) => ActionView::Finished(
                match r {
                    Ok(n) => Ok(*n),
                    Err(e) => Err(e@),
                },
            ),
            Action::Trace => ActionView::Trace,
            Action::Crash => ActionView::Crash,
        }
    }
}

/// What the world outside answers to an action.
pub enum Event {
    /// No answer (after `Continue` and the writes of text).
    Nothing,
    /// Whether the bytes were written.
    Written(bool),
    /// The line read, and the number of bytes reading it took.
    Line(String, usize),
    /// Reading a line failed.
    ReadFailed,
    /// The bytes read (256 for each one past the end of input).
    Bytes(Vec<u16>),
}

/// What an event says.
pub enum EventView {
    Nothing,
    Written(bool),
    Line(Seq<char>, usize),
    ReadFailed,
    Bytes(Seq<u16>),
}

impl View for Event {
    type V = EventView;

    open spec fn view(&self) -> EventView {
        match self {
            Event::Nothing => EventView::Nothing,
            Event::Written(ok) => EventView::Written(*ok),
            Event::Line(s, n) => EventView::Line(s@, *n),
            Event::ReadFailed => EventView::ReadFailed,
            Event::Bytes(b) => EventView::Bytes(b@),
        }
    }
}

/// Whether a statement with the given chance runs, and the generator state
/// after deciding.
pub open spec fn chance_spec(c: u8, st: u32) -> (bool, u32) {
    if c == 100 {
        (true, st)
    } else {
        let n = next_rand(st);
        ((n / 65536) % 100 < c as u32, n)
    }
}

/// The statement at `pc` is a NEXT to a label that stands outside the
/// program, so that its error line cannot be looked up.
pub open spec fn next_target_outside(p: Program, pc: usize) -> bool {
    match p.stmts@[pc as int].body {
        StmtBody::DoNext(n) => p.labels@.dom().contains(n) && p.labels@[n] >= p.stmts@.len(),
        _ => false,
    }
}

/// The line an error in the statement at `pc` is reported at: the line it is
/// on the way to, or for a NEXT to a label the line of the labelled statement.
pub open spec fn error_line(p: Program, pc: usize) -> usize {
    match p.stmts@[pc as int].body {
        StmtBody::DoNext(n) => if p.labels@.dom().contains(n) {
            p.stmts@[p.labels@[n] as int].props.srcline
        } else {
            p.stmts@[pc as int].props.onthewayto
        },
        _ => p.stmts@[pc as int].props.onthewayto,
    }
}

/// The value that a 32-bit number read in becomes.
pub open spec fn val_from_u32(x: u32) -> Val {
    if x <= 0xffff {
        Val::I16(x as u16)
    } else {
        Val::I32(x)
    }
}

/// What `from_english` makes of a line (the error's line left at zero).
pub open spec fn english_result(text: Seq<char>) -> Result<u32, ErrView> {
    if !all_digit_words(words(text)) {
        Err(ErrView { code: ErrCode::IE579, word: Some(first_unknown(words(text))), line: 0 })
    } else if decimal_value(word_digits(words(text))) > u32::MAX {
        Err(ErrView { code: ErrCode::IE533, word: None, line: 0 })
    } else {
        Ok(decimal_value(word_digits(words(text))) as u32)
    }
}

/// An array variable after WRITE IN from `input` with input state `s0`.
pub open spec fn written_in16(b: BindView<ArrayView<u16>>, input: Seq<u16>, s0: u8) -> BindView<ArrayView<u16>> {
    assigned(b, ArrayView { dims: b.val.dims, elems: Seq::new(input.len(), |i: int| in_value(input, s0, i) as u16) })
}

/// An array variable after WRITE IN from `input` with input state `s0`.
pub open spec fn written_in32(b: BindView<ArrayView<u32>>, input: Seq<u16>, s0: u8) -> BindView<ArrayView<u32>> {
    assigned(b, ArrayView { dims: b.val.dims, elems: Seq::new(input.len(), |i: int| in_value(input, s0, i) as u32) })
}

/// Every entry of the NEXT stack is below `len`.
pub open spec fn jumps_within(jumps: Seq<u16>, len: nat) -> bool {
    forall|k: int| 0 <= k < jumps.len() ==> #[trigger] jumps[k] < len
}

/// Item `k` of the statement at `pc` is an array read out.
pub open spec fn readout_array_item(p: Program, pc: usize, k: usize) -> bool {
    match p.stmts@[pc as int].body {
        StmtBody::ReadOut(es) => k < es@.len() && match es@[k as int] {
            Expr::Var(v) => v.spec_is_dim(),
            _ => false,
        },
        _ => false,
    }
}

/// Item `k` of the statement at `pc` is a WRITE IN of an array (`dim`) or of
/// a number.
pub open spec fn writein_item(p: Program, pc: usize, k: usize, dim: bool) -> bool {
    match p.stmts@[pc as int].body {
        StmtBody::WriteIn(vs) => k < vs@.len() && vs@[k as int].spec_is_dim() == dim,
        _ => false,
    }
}

impl EvalView {
    /// The interpreter's state fits the program: the variables are well
    /// formed, there is a counter for each statement, the NEXT stack and the
    /// program counter point into the program, and a statement in progress
    /// is an I/O statement whose item the phase names.
    pub open spec fn wf(self, p: Program) -> bool {
        let len = p.stmts@.len();
        &&& self.vars_wf(p.var_info)
        &&& self.abstain.len() == len
        &&& jumps_within(self.jumps, len)
        &&& (!(self.phase is Fetch) && !(self.phase is Done) && !(self.phase is Run)) ==> self.pctr
            < len && is_io(p.stmts@[self.pctr as int].body)
        &&& (self.phase is Run ==> self.pctr < len)
        &&& (self.phase matches Phase::AwaitWritten(k) ==> readout_array_item(p, self.pctr, k))
        &&& (self.phase matches Phase::AwaitLine(k) ==> writein_item(p, self.pctr, k, false))
        &&& (self.phase matches Phase::AwaitBytes(k) ==> writein_item(p, self.pctr, k, true))
    }

    /// Stop with the error `e`, reported at the statement's error line.
    pub open spec fn fail(self, p: Program, e: ErrView) -> (EvalView, ActionView) {
        if next_target_outside(p, self.pctr) {
            (self, ActionView::Crash)
        } else {
            (
                EvalView { phase: Phase::Done, ..self },
                ActionView::Finished(Err(ErrView { line: error_line(p, self.pctr), ..e })),
            )
        }
    }

    /// Move on from the current statement: to the statement that COMEs FROM
    /// it, if there is one that is not abstained from and whose chance comes
    /// up, else to the next statement.
    pub open spec fn come_from(self, p: Program) -> (EvalView, ActionView) {
        let pc = self.pctr;
        match p.stmts@[pc as int].comefrom {
            Some(next) => if next >= self.abstain.len() {
                (self, ActionView::Crash)
            } else if self.abstain[next as int] == 0 {
                let (run, r2) = chance_spec(p.stmts@[next as int].props.chance, self.rand);
                if run {
                    (EvalView { pctr: next as usize, rand: r2, phase: Phase::Fetch, ..self }, ActionView::Continue)
                } else {
                    (EvalView { pctr: (pc + 1) as usize, rand: r2, phase: Phase::Fetch, ..self }, ActionView::Continue)
                }
            } else {
                (EvalView { pctr: (pc + 1) as usize, phase: Phase::Fetch, ..self }, ActionView::Continue)
            },
            None => (EvalView { pctr: (pc + 1) as usize, phase: Phase::Fetch, ..self }, ActionView::Continue),
        }
    }

    /// Where a statement's result leads.
    pub open spec fn control(self, p: Program, res: StmtRes) -> (EvalView, ActionView) {
        match res {
            StmtRes::Next => self.come_from(p),
            StmtRes::Jump(n) => (
                EvalView { jumps: self.jumps.push(self.pctr as u16), pctr: n, phase: Phase::Fetch, ..self },
                ActionView::Continue,
            ),
            StmtRes::Back(n) => EvalView { pctr: n, ..self }.come_from(p),
            StmtRes::FromTop => (EvalView { pctr: 0, phase: Phase::Fetch, ..self }, ActionView::Continue),
            StmtRes::End => (EvalView { phase: Phase::Done, ..self }, ActionView::Finished(Ok(self.stmt_ctr))),
        }
    }

    /// Take up the statement at the program counter.
    pub open spec fn fetch(self, p: Program) -> (EvalView, ActionView) {
        let len = p.stmts@.len();
        let pc = self.pctr;
        if pc >= len && len == 0 {
            (self, ActionView::Crash)
        } else if pc >= len {
            (
                EvalView { phase: Phase::Done, ..self },
                ActionView::Finished(
                    if p.stmts@[len - 1].body is TryAgain {
                        Ok(self.stmt_ctr)
                    } else {
                        Err(err0(ErrCode::IE633)@)
                    },
                ),
            )
        } else if self.stmt_ctr == usize::MAX {
            (self, ActionView::Crash)
        } else {
            let s1 = EvalView { stmt_ctr: (self.stmt_ctr + 1) as usize, ..self };
            let stmt = p.stmts@[pc as int];
            if s1.abstain[pc as int] != 0 {
                s1.come_from(p)
            } else {
                let (run, r2) = chance_spec(stmt.props.chance, s1.rand);
                let s2 = EvalView { rand: r2, ..s1 };
                if !run {
                    s2.come_from(p)
                } else if s2.debug {
                    (EvalView { phase: Phase::Run, ..s2 }, ActionView::Trace)
                } else {
                    s2.run(p)
                }
            }
        }
    }

    /// Carry out the statement at the program counter, which is to run.
    pub open spec fn run(self, p: Program) -> (EvalView, ActionView) {
        let stmt = p.stmts@[self.pctr as int];
        if is_io(stmt.body) {
            (EvalView { phase: Phase::Item(0), ..self }, ActionView::Continue)
        } else {
            match self.stmt_spec(p, stmt.body) {
                None => (self, ActionView::Crash),
                Some((s3, Err(e))) => s3.fail(p, e@),
                Some((s3, Ok(res))) => s3.control(p, res),
            }
        }
    }

    /// Carry out item `k` of the I/O statement at the program counter.
    pub open spec fn item(self, p: Program, k: usize) -> (EvalView, ActionView) {
        let done = EvalView { phase: Phase::Fetch, ..self };
        match p.stmts@[self.pctr as int].body {
            StmtBody::ReadOut(es) => if k >= es@.len() {
                done.come_from(p)
            } else {
                match es@[k as int] {
                    Expr::Num(_, v) => (
                        EvalView { phase: Phase::Item((k + 1) as usize), ..self },
                        ActionView::WriteNumber(roman_text(v)),
                    ),
                    Expr::Var(var) => match var {
                        Var::A16(n, _) => {
                            let a = self.tail[n as int].val;
                            if n >= self.tail.len() {
                                (self, ActionView::Crash)
                            } else if a.dims.len() != 1 {
                                self.fail(p, err0(ErrCode::IE241)@)
                            } else {
                                (
                                    EvalView {
                                        last_out: out_state(a.elems, self.last_out),
                                        phase: Phase::AwaitWritten(k),
                                        ..self
                                    },
                                    ActionView::WriteBytes(out_bytes(a.elems, self.last_out)),
                                )
                            }
                        },
                        Var::A32(n, _) => {
                            let a = self.hybrid[n as int].val;
                            if n >= self.hybrid.len() {
                                (self, ActionView::Crash)
                            } else if a.dims.len() != 1 {
                                self.fail(p, err0(ErrCode::IE241)@)
                            } else {
                                (
                                    EvalView {
                                        last_out: out_state(a.elems, self.last_out),
                                        phase: Phase::AwaitWritten(k),
                                        ..self
                                    },
                                    ActionView::WriteBytes(out_bytes(a.elems, self.last_out)),
                                )
                            }
                        },
                        _ => match self.look(var) {
                            None => (self, ActionView::Crash),
                            Some(Err(e)) => self.fail(p, e@),
                            Some(Ok(v)) => (
                                EvalView { phase: Phase::Item((k + 1) as usize), ..self },
                                ActionView::WriteNumber(roman_text(v.spec_as_u32())),
                            ),
                        },
                    },
                    _ => (self, ActionView::Crash),
                }
            },
            StmtBody::WriteIn(vs) => if k >= vs@.len() {
                done.come_from(p)
            } else {
                match vs@[k as int] {
                    Var::A16(n, _) => if n >= self.tail.len() {
                        (self, ActionView::Crash)
                    } else if self.tail[n as int].val.dims.len() != 1 {
                        self.fail(p, err0(ErrCode::IE241)@)
                    } else {
                        (
                            EvalView { phase: Phase::AwaitBytes(k), ..self },
                            ActionView::ReadBytes(self.tail[n as int].val.elems.len() as usize),
                        )
                    },
                    Var::A32(n, _) => if n >= self.hybrid.len() {
                        (self, ActionView::Crash)
                    } else if self.hybrid[n as int].val.dims.len() != 1 {
                        self.fail(p, err0(ErrCode::IE241)@)
                    } else {
                        (
                            EvalView { phase: Phase::AwaitBytes(k), ..self },
                            ActionView::ReadBytes(self.hybrid[n as int].val.elems.len() as usize),
                        )
                    },
                    _ => (EvalView { phase: Phase::AwaitLine(k), ..self }, ActionView::ReadLine),
                }
            },
            StmtBody::Print(text) => if k >= 1 {
                done.come_from(p)
            } else {
                (EvalView { phase: Phase::Item(1), ..self }, ActionView::WriteText(text@))
            },
            _ => (self, ActionView::Crash),
        }
    }

    /// Go on after the bytes of READ OUT item `k` were written, or failed to be.
    pub open spec fn on_written(self, p: Program, k: usize, ok: bool) -> (EvalView, ActionView) {
        if ok {
            (EvalView { phase: Phase::Item((k + 1) as usize), ..self }, ActionView::Continue)
        } else {
            self.fail(p, err0(ErrCode::IE252)@)
        }
    }

    /// Go on with the line read (`nread` bytes) for WRITE IN item `k`.
    pub open spec fn on_line(self, p: Program, k: usize, text: Seq<char>, nread: usize) -> (EvalView, ActionView) {
        let var = p.stmts@[self.pctr as int].body->WriteIn_0@[k as int];
        if nread <= 1 {
            self.fail(p, err0(ErrCode::IE562)@)
        } else {
            match english_result(text) {
                Err(e) => self.fail(p, e),
                Ok(x) => match self.assign_spec(var, val_from_u32(x)) {
                    None => (self, ActionView::Crash),
                    Some(Err(e)) => self.fail(p, e@),
                    Some(Ok(s2)) => (EvalView { phase: Phase::Item((k + 1) as usize), ..s2 }, ActionView::Continue),
                },
            }
        }
    }

    /// Go on with the bytes read for WRITE IN item `k`.
    pub open spec fn on_bytes(self, p: Program, k: usize, input: Seq<u16>) -> (EvalView, ActionView) {
        let var = p.stmts@[self.pctr as int].body->WriteIn_0@[k as int];
        match var {
            Var::A16(n, _) => {
                let b = self.tail[n as int];
                if n >= self.tail.len() {
                    (self, ActionView::Crash)
                } else if b.val.dims.len() != 1 {
                    self.fail(p, err0(ErrCode::IE241)@)
                } else if input.len() != b.val.elems.len() || exists|i: int| 0 <= i < input.len() && #[trigger] input[i] > 256 {
                    (self, ActionView::Crash)
                } else {
                    (
                        EvalView {
                            tail: self.tail.update(n as int, written_in16(b, input, self.last_in)),
                            last_in: in_state(input, self.last_in),
                            phase: Phase::Item((k + 1) as usize),
                            ..self
                        },
                        ActionView::Continue,
                    )
                }
            },
            Var::A32(n, _) => {
                let b = self.hybrid[n as int];
                if n >= self.hybrid.len() {
                    (self, ActionView::Crash)
                } else if b.val.dims.len() != 1 {
                    self.fail(p, err0(ErrCode::IE241)@)
                } else if input.len() != b.val.elems.len() || exists|i: int| 0 <= i < input.len() && #[trigger] input[i] > 256 {
                    (self, ActionView::Crash)
                } else {
                    (
                        EvalView {
                            hybrid: self.hybrid.update(n as int, written_in32(b, input, self.last_in)),
                            last_in: in_state(input, self.last_in),
                            phase: Phase::Item((k + 1) as usize),
                            ..self
                        },
                        ActionView::Continue,
                    )
                }
            },
            _ => (self, ActionView::Crash),
        }
    }

    /// One step of the interpreter with the answer `ev` to the last action.
    pub open spec fn step_spec(self, p: Program, ev: EventView) -> (EvalView, ActionView) {
        match self.phase {
            Phase::Fetch => self.fetch(p),
            Phase::Item(k) => self.item(p, k),
            Phase::AwaitWritten(k) => match ev {
                EventView::Written(ok) => self.on_written(p, k, ok),
                _ => (self, ActionView::Crash),
            },
            Phase::AwaitLine(k) => match ev {
                EventView::Line(text, nread) => self.on_line(p, k, text, nread),
                EventView::ReadFailed => self.fail(p, err0(ErrCode::IE562)@),
                _ => (self, ActionView::Crash),
            },
            Phase::AwaitBytes(k) => match ev {
                EventView::Bytes(input) => self.on_bytes(p, k, input),
                _ => (self, ActionView::Crash),
            },
            Phase::Run => EvalView { phase: Phase::Fetch, ..self }.run(p),
            Phase::Done => (self, ActionView::Crash),
        }
    }
}

/// The state a run starts in: every variable zero (arrays empty), writable
/// and with nothing stashed; the statements that start out disabled
/// abstained from once; the generator seeded with `seed`.
pub open spec fn initial_view(p: Program, seed: u32, debug: bool) -> EvalView {
    let c = p.var_info;
    EvalView {
        spot: Seq::new(c.0 as nat, |i: int| BindView { val: 0u16, stack: seq![], rw: true }),
        twospot: Seq::new(c.1 as nat, |i: int| BindView { val: 0u32, stack: seq![], rw: true }),
        tail: Seq::new(
            c.2 as nat,
            |i: int| BindView { val: ArrayView { dims: seq![], elems: seq![] }, stack: seq![], rw: true },
        ),
        hybrid: Seq::new(
            c.3 as nat,
            |i: int| BindView { val: ArrayView { dims: seq![], elems: seq![] }, stack: seq![], rw: true },
        ),
        jumps: seq![],
        abstain: Seq::new(
            p.stmts@.len(),
            |i: int|
                if p.stmts@[i].props.disabled {
                    1u32
                } else {
                    0u32
                },
        ),
        last_in: 0,
        last_out: 0,
        stmt_ctr: 0,
        rand: seed,
        pctr: 0,
        phase: Phase::Fetch,
        debug,
    }
}

impl<'a> Eval<'a> {
    /// The interpreter's state fits its program.
    pub open spec fn wf(&self) -> bool {
        self@.wf(*self.program)
    }

    /// A fresh interpreter for `program`, its chance generator seeded with
    /// `seed`; with `debug`, it asks for a trace before each statement it
    /// runs.
    pub fn new(program: &'a Program, seed: u32, debug: bool) -> (r: Eval<'a>)
        ensures
            r.program == program,
            r@ == initial_view(*program, seed, debug),
            r.wf(),
    {
        let nstmts = program.stmts.len();
        let mut abs: Vec<u32> = Vec::new();
        while abs.len() < nstmts
            invariant
                abs@.len() <= nstmts,
                nstmts == program.stmts@.len(),
                forall|i: int| 0 <= i < abs@.len() ==> #[trigger] abs@[i] == (if program.stmts@[i].props.disabled {
                    1u32
                } else {
                    0u32
                }),
            decreases nstmts - abs@.len(),
        {
            let i = abs.len();
            abs.push(if program.stmts[i].props.disabled { 1 } else { 0 });
        }
        let mut spot: Vec<Bind<u16>> = Vec::new();
        while spot.len() < program.var_info.0
            invariant
                spot@.len() <= program.var_info.0,
                forall|i: int| 0 <= i < spot@.len() ==> (#[trigger] spot@[i])@ == (BindView { val: 0u16, stack: Seq::<u16>::empty(), rw: true }),
            decreases program.var_info.0 - spot@.len(),
        {
            let b = Bind::new(0u16);
            assert(b@.stack =~= Seq::<u16>::empty());
            spot.push(b);
        }
        let mut twospot: Vec<Bind<u32>> = Vec::new();
        while twospot.len() < program.var_info.1
            invariant
                twospot@.len() <= program.var_info.1,
                forall|i: int| 0 <= i < twospot@.len() ==> (#[trigger] twospot@[i])@ == (BindView { val: 0u32, stack: Seq::<u32>::empty(), rw: true }),
            decreases program.var_info.1 - twospot@.len(),
        {
            let b = Bind::new(0u32);
            assert(b@.stack =~= Seq::<u32>::empty());
            twospot.push(b);
        }
        let mut tail: Vec<Bind<Array<u16>>> = Vec::new();
        while tail.len() < program.var_info.2
            invariant
                tail@.len() <= program.var_info.2,
                forall|i: int| 0 <= i < tail@.len() ==> (#[trigger] tail@[i])@ == (BindView {
                    val: ArrayView { dims: Seq::<usize>::empty(), elems: Seq::<u16>::empty() },
                    stack: Seq::<ArrayView<u16>>::empty(),
                    rw: true,
                }),
            decreases program.var_info.2 - tail@.len(),
        {
            let b = Bind::new(Array::empty());
            assert(b@.stack =~= Seq::<ArrayView<u16>>::empty());
            assert(b@.val.dims =~= Seq::<usize>::empty());
            assert(b@.val.elems =~= Seq::<u16>::empty());
            tail.push(b);
        }
        let mut hybrid: Vec<Bind<Array<u32>>> = Vec::new();
        while hybrid.len() < program.var_info.3
            invariant
                hybrid@.len() <= program.var_info.3,
                forall|i: int| 0 <= i < hybrid@.len() ==> (#[trigger] hybrid@[i])@ == (BindView {
                    val: ArrayView { dims: Seq::<usize>::empty(), elems: Seq::<u32>::empty() },
                    stack: Seq::<ArrayView<u32>>::empty(),
                    rw: true,
                }),
            decreases program.var_info.3 - hybrid@.len(),
        {
            let b = Bind::new(Array::empty());
            assert(b@.stack =~= Seq::<ArrayView<u32>>::empty());
            assert(b@.val.dims =~= Seq::<usize>::empty());
            assert(b@.val.elems =~= Seq::<u32>::empty());
            hybrid.push(b);
        }
        let r = Eval {
            program,
            spot,
            twospot,
            tail,
            hybrid,
            jumps: Vec::new(),
            abstain: abs,
            last_in: 0,
            last_out: 0,
            stmt_ctr: 0,
            rand: seed,
            pctr: 0,
            phase: Phase::Fetch,
            debug,
        };
        proof {
            let iv = initial_view(*program, seed, debug);
            assert(r@.spot =~= iv.spot);
            assert(r@.twospot =~= iv.twospot);
            assert(r@.tail =~= iv.tail);
            assert(r@.hybrid =~= iv.hybrid);
            assert(r@.abstain =~= iv.abstain);
            assert(r@.jumps =~= iv.jumps);
            assert(Seq::<usize>::empty().take(0) =~= Seq::<usize>::empty());
        }
        r
    }
}

impl<'a> Eval<'a> {
    /// Stop with the error `e`, reported at the current statement's error line.
    fn fail(&mut self, e: RtError) -> (a: Action)
        requires
            old(self).wf(),
            old(self).pctr < old(self).program.stmts@.len(),
        ensures
            final(self).program == old(self).program,
            final(self).wf(),
            (final(self)@, a@) == old(self)@.fail(*old(self).program, e@),
    {
        broadcast use vstd::std_specs::hash::group_hash_axioms;

        let program = self.program;
        let stmt = &program.stmts[self.pctr];
        let mut e = e;
        e.set_line(stmt.props.onthewayto);
        if let StmtBody::DoNext(n) = &stmt.body {
            if let Some(i) = program.labels.get(n) {
                if *i as usize >= program.stmts.len() {
                    return Action::Crash;
                }
                e.set_line(program.stmts[*i as usize].props.srcline);
            }
        }
        self.phase = Phase::Done;
        Action::Finished(Err(e))
    }

    /// Move on from the current statement, to a statement that COMEs FROM it
    /// or to the next one.
    fn come_from(&mut self) -> (a: Action)
        requires
            old(self).wf(),
            old(self).pctr < old(self).program.stmts@.len(),
        ensures
            final(self).program == old(self).program,
            final(self).wf(),
            (final(self)@, a@) == old(self)@.come_from(*old(self).program),
    {
        let program = self.program;
        let pc = self.pctr;
        let nstmts = program.stmts.len();
        assert(pc < nstmts);
        if let Some(next) = program.stmts[pc].comefrom {
            let next = next as usize;
            if next >= self.abstain.len() {
                return Action::Crash;
            }
            if self.abstain[next] == 0 {
                let (run, r2) = check_chance(program.stmts[next].props.chance, self.rand);
                self.rand = r2;
                if run {
                    self.pctr = next;
                    self.phase = Phase::Fetch;
                    return Action::Continue;
                }
            }
        }
        self.pctr = pc + 1;
        self.phase = Phase::Fetch;
        Action::Continue
    }

    /// Go where a statement's result leads.
    fn control(&mut self, res: StmtRes) -> (a: Action)
        requires
            old(self).wf(),
            old(self).pctr < old(self).program.stmts@.len(),
            res matches StmtRes::Back(n) ==> n < old(self).program.stmts@.len(),
            old(self).phase is Fetch,
        ensures
            final(self).program == old(self).program,
            final(self).wf(),
            (final(self)@, a@) == old(self)@.control(*old(self).program, res),
    {
        match res {
            StmtRes::Next => self.come_from(),
            StmtRes::Jump(n) => {
                // push the line with the NEXT
                self.jumps.push(self.pctr as u16);
                self.pctr = n;
                self.phase = Phase::Fetch;
                Action::Continue
            },
            StmtRes::Back(n) => {
                self.pctr = n;
                self.come_from()
            },
            StmtRes::FromTop => {
                self.pctr = 0;
                self.phase = Phase::Fetch;
                Action::Continue
            },
            StmtRes::End => {
                self.phase = Phase::Done;
                Action::Finished(Ok(self.stmt_ctr))
            },
        }
    }
}

/// Whether a statement does I/O.
fn is_io_stmt(b: &StmtBody) -> (r: bool)
    ensures
        r == is_io(*b),
{
    match b {
        StmtBody::ReadOut(_) | StmtBody::WriteIn(_) | StmtBody::Print(_) => true,
        _ => false,
    }
}

/// A step ends in the action that `spec` gives and, unless the run crashed,
/// in its state (a crash may leave a statement half done).
pub open spec fn outcome(s: EvalView, a: ActionView, spec: (EvalView, ActionView)) -> bool {
    &&& a == spec.1
    &&& !(a is Crash) ==> s == spec.0
}

/// The error with the given code, no word and no line yet.
fn error(code: ErrCode) -> (e: RtError)
    ensures
        e == err0(code),
{
    RtError { code, word: None, line: 0 }
}

/// Whether every byte read is a byte or the end-of-input mark 256.
fn bytes_valid(input: &Vec<u16>) -> (r: bool)
    ensures
        r == !(exists|i: int| 0 <= i < input@.len() && #[trigger] input@[i] > 256),
{
    let mut i: usize = 0;
    while i < input.len()
        invariant
            i <= input@.len(),
            forall|j: int| 0 <= j < i ==> #[trigger] input@[j] <= 256,
        decreases input@.len() - i,
    {
        if input[i] > 256 {
            return false;
        }
        i = i + 1;
    }
    true
}

impl<'a> Eval<'a> {
    /// Take up the statement at the program counter.
    fn fetch(&mut self) -> (a: Action)
        requires
            old(self).wf(),
            old(self).phase is Fetch,
        ensures
            final(self).program == old(self).program,
            final(self).wf(),
            outcome(final(self)@, a@, old(self)@.fetch(*old(self).program)),
    {
        broadcast use vstd::std_specs::hash::group_hash_axioms;

        let program = self.program;
        let nstmts = program.stmts.len();
        let pc = self.pctr;
        // check for falling off the end
        if pc >= nstmts {
            if nstmts == 0 {
                return Action::Crash;
            }
            self.phase = Phase::Done;
            // if the last statement was a TRY AGAIN, falling off the end is fine
            if let StmtBody::TryAgain = program.stmts[nstmts - 1].body {
                return Action::Finished(Ok(self.stmt_ctr));
            }
            return Action::Finished(Err(error(ErrCode::IE633)));
        }
        if self.stmt_ctr == usize::MAX {
            return Action::Crash;
        }
        self.stmt_ctr = self.stmt_ctr + 1;
        // execute statement if not abstained
        if self.abstain[pc] == 0 {
            let stmt = &program.stmts[pc];
            // check execution chance
            let (run, r2) = check_chance(stmt.props.chance, self.rand);
            self.rand = r2;
            if run {
                if self.debug {
                    self.phase = Phase::Run;
                    return Action::Trace;
                }
                return self.run();
            }
        }
        self.come_from()
    }

    /// Carry out the statement at the program counter, which is to run.
    fn run(&mut self) -> (a: Action)
        requires
            old(self).wf(),
            old(self).phase is Fetch,
            old(self).pctr < old(self).program.stmts@.len(),
        ensures
            final(self).program == old(self).program,
            final(self).wf(),
            outcome(final(self)@, a@, old(self)@.run(*old(self).program)),
    {
        let program = self.program;
        let stmt = &program.stmts[self.pctr];
        if is_io_stmt(&stmt.body) {
            self.phase = Phase::Item(0);
            return Action::Continue;
        }
        match self.eval_stmt(stmt) {
            None => Action::Crash,
            Some(Err(e)) => self.fail(e),
            Some(Ok(res)) => self.control(res),
        }
    }
}

impl<'a> Eval<'a> {
    /// Carry out item `k` of the I/O statement at the program counter.
    fn item(&mut self, k: usize) -> (a: Action)
        requires
            old(self).wf(),
            old(self).phase == Phase::Item(k),
        ensures
            final(self).program == old(self).program,
            final(self).wf(),
            (final(self)@, a@) == old(self)@.item(*old(self).program, k),
    {
        let program = self.program;
        let pc = self.pctr;
        match &program.stmts[pc].body {
            StmtBody::ReadOut(es) => {
                if k >= es.len() {
                    self.phase = Phase::Fetch;
                    return self.come_from();
                }
                match &es[k] {
                    Expr::Num(_, v) => {
                        self.phase = Phase::Item(k + 1);
                        Action::WriteNumber(to_roman(*v))
                    },
                    Expr::Var(var) => match var {
                        Var::A16(n, _) => {
                            if *n >= self.tail.len() {
                                return Action::Crash;
                            }
                            let mut st = self.last_out;
                            match self.tail[*n].readout(&mut st, 0) {
                                Ok(bytes) => {
                                    self.last_out = st;
                                    self.phase = Phase::AwaitWritten(k);
                                    Action::WriteBytes(bytes)
                                },
                                Err(e) => self.fail(e),
                            }
                        },
                        Var::A32(n, _) => {
                            if *n >= self.hybrid.len() {
                                return Action::Crash;
                            }
                            let mut st = self.last_out;
                            match self.hybrid[*n].readout(&mut st, 0) {
                                Ok(bytes) => {
                                    self.last_out = st;
                                    self.phase = Phase::AwaitWritten(k);
                                    Action::WriteBytes(bytes)
                                },
                                Err(e) => self.fail(e),
                            }
                        },
                        _ => match self.lookup(var) {
                            None => Action::Crash,
                            Some(Err(e)) => self.fail(e),
                            Some(Ok(v)) => {
                                self.phase = Phase::Item(k + 1);
                                Action::WriteNumber(to_roman(v.as_u32()))
                            },
                        },
                    },
                    _ => Action::Crash,
                }
            },
            StmtBody::WriteIn(vs) => {
                if k >= vs.len() {
                    self.phase = Phase::Fetch;
                    return self.come_from();
                }
                match &vs[k] {
                    Var::A16(n, _) => {
                        if *n >= self.tail.len() {
                            return Action::Crash;
                        }
                        if self.tail[*n].val.dims.len() != 1 {
                            return self.fail(error(ErrCode::IE241));
                        }
                        self.phase = Phase::AwaitBytes(k);
                        Action::ReadBytes(self.tail[*n].val.elems.len())
                    },
                    Var::A32(n, _) => {
                        if *n >= self.hybrid.len() {
                            return Action::Crash;
                        }
                        if self.hybrid[*n].val.dims.len() != 1 {
                            return self.fail(error(ErrCode::IE241));
                        }
                        self.phase = Phase::AwaitBytes(k);
                        Action::ReadBytes(self.hybrid[*n].val.elems.len())
                    },
                    _ => {
                        self.phase = Phase::AwaitLine(k);
                        Action::ReadLine
                    },
                }
            },
            StmtBody::Print(text) => {
                if k >= 1 {
                    self.phase = Phase::Fetch;
                    return self.come_from();
                }
                self.phase = Phase::Item(1);
                Action::WriteText(text.clone())
            },
            _ => Action::Crash,
        }
    }
}

impl<'a> Eval<'a> {
    /// Go on after the bytes of READ OUT item `k` were written, or failed to be.
    fn on_written(&mut self, k: usize, ok: bool) -> (a: Action)
        requires
            old(self).wf(),
            old(self).phase == Phase::AwaitWritten(k),
        ensures
            final(self).program == old(self).program,
            final(self).wf(),
            (final(self)@, a@) == old(self)@.on_written(*old(self).program, k, ok),
    {
        let program = self.program;
        let nitems = match &program.stmts[self.pctr].body {
            StmtBody::ReadOut(es) => es.len(),
            _ => return Action::Crash,
        };
        if ok {
            assert(k < nitems);
            self.phase = Phase::Item(k + 1);
            Action::Continue
        } else {
            self.fail(error(ErrCode::IE252))
        }
    }

    /// Go on with the line read for WRITE IN item `k`.
    fn on_line(&mut self, k: usize, text: String, nread: usize) -> (a: Action)
        requires
            old(self).wf(),
            old(self).phase == Phase::AwaitLine(k),
        ensures
            final(self).program == old(self).program,
            final(self).wf(),
            (final(self)@, a@) == old(self)@.on_line(*old(self).program, k, text@, nread),
    {
        let program = self.program;
        let pc = self.pctr;
        let (var, nvars) = match &program.stmts[pc].body {
            StmtBody::WriteIn(vs) => (&vs[k], vs.len()),
            _ => return Action::Crash,
        };
        if nread <= 1 {
            return self.fail(error(ErrCode::IE562));
        }
        match from_english(text.as_str(), 0) {
            Err(e) => self.fail(e),
            Ok(x) => match self.assign(var, Val::from_u32(x)) {
                None => Action::Crash,
                Some(Err(e)) => self.fail(e),
                Some(Ok(())) => {
                    self.phase = Phase::Item(k + 1);
                    Action::Continue
                },
            },
        }
    }

    /// Go on with the bytes read for WRITE IN item `k`.
    fn on_bytes(&mut self, k: usize, input: Vec<u16>) -> (a: Action)
        requires
            old(self).wf(),
            old(self).phase == Phase::AwaitBytes(k),
        ensures
            final(self).program == old(self).program,
            final(self).wf(),
            (final(self)@, a@) == old(self)@.on_bytes(*old(self).program, k, input@),
    {
        let program = self.program;
        let pc = self.pctr;
        let (var, nvars) = match &program.stmts[pc].body {
            StmtBody::WriteIn(vs) => (&vs[k], vs.len()),
            _ => return Action::Crash,
        };
        match var {
            Var::A16(n, _) => {
                if *n >= self.tail.len() {
                    return Action::Crash;
                }
                let ghost b0 = self.tail@[*n as int];
                if self.tail[*n].val.dims.len() != 1 {
                    return self.fail(error(ErrCode::IE241));
                }
                if input.len() != self.tail[*n].val.elems.len() || !bytes_valid(&input) {
                    return Action::Crash;
                }
                let mut st = self.last_in;
                match self.tail[*n].writein(&input, &mut st, 0) {
                    Ok(()) => {
                        self.last_in = st;
                        self.phase = Phase::Item(k + 1);
                        proof {
                            let b1 = self.tail@[*n as int];
                            if b0.rw {
                                assert(b1@.val.elems =~= Seq::new(
                                    input@.len(),
                                    |i: int| in_value(input@, old(self).last_in, i) as u16,
                                ));
                            }
                            assert(b1@.stack =~= b0@.stack);
                            assert(self@.tail =~= old(self)@.tail.update(
                                *n as int,
                                written_in16(b0@, input@, old(self).last_in),
                            ));
                        }
                        Action::Continue
                    },
                    Err(e) => {
                        proof {
                            assert(self.tail@[*n as int]@ == b0@);
                            assert(self@.tail =~= old(self)@.tail);
                        }
                        self.fail(e)
                    },
                }
            },
            Var::A32(n, _) => {
                if *n >= self.hybrid.len() {
                    return Action::Crash;
                }
                let ghost b0 = self.hybrid@[*n as int];
                if self.hybrid[*n].val.dims.len() != 1 {
                    return self.fail(error(ErrCode::IE241));
                }
                if input.len() != self.hybrid[*n].val.elems.len() || !bytes_valid(&input) {
                    return Action::Crash;
                }
                let mut st = self.last_in;
                match self.hybrid[*n].writein(&input, &mut st, 0) {
                    Ok(()) => {
                        self.last_in = st;
                        self.phase = Phase::Item(k + 1);
                        proof {
                            let b1 = self.hybrid@[*n as int];
                            if b0.rw {
                                assert(b1@.val.elems =~= Seq::new(
                                    input@.len(),
                                    |i: int| in_value(input@, old(self).last_in, i) as u32,
                                ));
                            }
                            assert(b1@.stack =~= b0@.stack);
                            assert(self@.hybrid =~= old(self)@.hybrid.update(
                                *n as int,
                                written_in32(b0@, input@, old(self).last_in),
                            ));
                        }
                        Action::Continue
                    },
                    Err(e) => {
                        proof {
                            assert(self.hybrid@[*n as int]@ == b0@);
                            assert(self@.hybrid =~= old(self)@.hybrid);
                        }
                        self.fail(e)
                    },
                }
            },
            _ => Action::Crash,
        }
    }

    /// One step of the run, given the answer to the last action (`Nothing`
    /// for `Continue`, `Trace` and the writes of text).  A step that crashes
    /// may leave the statement it was in half done.
    pub fn step(&mut self, ev: Event) -> (a: Action)
        requires
            old(self).wf(),
        ensures
            final(self).program == old(self).program,
            final(self).wf(),
            outcome(final(self)@, a@, old(self)@.step_spec(*old(self).program, ev@)),
    {
        match self.phase {
            Phase::Fetch => self.fetch(),
            Phase::Item(k) => self.item(k),
            Phase::AwaitWritten(k) => match ev {
                Event::Written(ok) => self.on_written(k, ok),
                _ => Action::Crash,
            },
            Phase::AwaitLine(k) => match ev {
                Event::Line(text, nread) => self.on_line(k, text, nread),
                Event::ReadFailed => self.fail(error(ErrCode::IE562)),
                _ => Action::Crash,
            },
            Phase::AwaitBytes(k) => match ev {
                Event::Bytes(input) => self.on_bytes(k, input),
                _ => Action::Crash,
            },
            Phase::Run => {
                self.phase = Phase::Fetch;
                self.run()
            },
            Phase::Done => Action::Crash,
        }
    }
}

} // verus!
