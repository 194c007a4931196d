use vstd::prelude::*;
use vstd::string::*;

use crate::ast::{Abstain, Expr, Program, StmtBody, VType, Var};
use crate::err::{ErrCode, ErrView, RtError};
use crate::numerals::{decimal_value, digit_roles, digit_symbols, english_digit, roman_symbol, roman_symbols, roman_text};
use crate::eval::{
    array_get, array_set, assigned, dimensioned, retrieved, stashed, val_from_u32, with_rw,
    ActionView, AbstainOp, EvalView, Phase, StmtRes, Val, chance_spec, lemma_select_bound,
};
use crate::stdops::{
    in_state, in_value, out_bytes, out_state, LikeU16, lemma_select_undoes_mingle, next_rand, bit, lemma_mingle_value_bits, lemma_unary_value_bits, Bind, dims_product, flat_index, in_range, prefix_in_range, ArrayView, BindView,
};

verus! {

impl EvalView {
    /// Whether the variable that `var` names may be changed (not IGNOREd).
    pub open spec fn writable(self, var: Var) -> bool {
        match var {
            Var::I16(n) => self.spot[n as int].rw,
            Var::I32(n) => self.twospot[n as int].rw,
            Var::A16(n, _) => self.tail[n as int].rw,
            Var::A32(n, _) => self.hybrid[n as int].rw,
        }
    }
}

/// RETRIEVE undoes STASH: a variable stashed and then retrieved is exactly
/// as it was, whether or not it is ignored.
pub proof fn lemma_retrieve_after_stash<T>(b: BindView<T>)
    ensures
        retrieved(stashed(b)) == b,
{
    assert(stashed(b).stack.drop_last() =~= b.stack);
}

/// RETRIEVE undoes STASH for every variable of the interpreter: the state
/// after STASH and then RETRIEVE of the same variable is the state before.
pub proof fn lemma_state_retrieve_after_stash(s: EvalView, var: Var)
    requires
        s.holds(var),
    ensures
        s.stash_spec(var).retrieve_spec(var) == Ok::<EvalView, RtError>(s),
{
    match var {
        Var::I16(n) => {
            lemma_retrieve_after_stash(s.spot[n as int]);
            assert(s.stash_spec(var).spot.update(n as int, retrieved(s.stash_spec(var).spot[n as int]))
                =~= s.spot);
        },
        Var::I32(n) => {
            lemma_retrieve_after_stash(s.twospot[n as int]);
            assert(s.stash_spec(var).twospot.update(
                n as int,
                retrieved(s.stash_spec(var).twospot[n as int]),
            ) =~= s.twospot);
        },
        Var::A16(n, _) => {
            lemma_retrieve_after_stash(s.tail[n as int]);
            assert(s.stash_spec(var).tail.update(n as int, retrieved(s.stash_spec(var).tail[n as int]))
                =~= s.tail);
        },
        Var::A32(n, _) => {
            lemma_retrieve_after_stash(s.hybrid[n as int]);
            assert(s.stash_spec(var).hybrid.update(
                n as int,
                retrieved(s.stash_spec(var).hybrid[n as int]),
            ) =~= s.hybrid);
        },
    }
}

/// An ignored variable keeps its value: an assignment to it that does not
/// fail leaves the whole state as it was.
pub proof fn lemma_ignored_assign(s: EvalView, var: Var, val: Val)
    requires
        s.holds(var),
        !s.writable(var),
    ensures
        s.assign_spec(var, val) matches Some(Ok(t)) ==> t == s,
{
    match var {
        Var::I16(n) => {
            assert(s.spot.update(n as int, s.spot[n as int]) =~= s.spot);
        },
        Var::I32(n) => {
            assert(s.twospot.update(n as int, s.twospot[n as int]) =~= s.twospot);
        },
        Var::A16(n, subs) => {
            if let Some(Ok(ss)) = s.eval_subs(subs@) {
                if let Ok(x) = val.spec_as_u16() {
                    if let Some(Ok(b)) = array_set(s.tail[n as int], ss, x) {
                        assert(b == s.tail[n as int]);
                        assert(s.tail.update(n as int, b) =~= s.tail);
                    }
                }
            }
        },
        Var::A32(n, subs) => {
            if let Some(Ok(ss)) = s.eval_subs(subs@) {
                if let Some(Ok(b)) = array_set(s.hybrid[n as int], ss, val.spec_as_u32()) {
                    assert(b == s.hybrid[n as int]);
                    assert(s.hybrid.update(n as int, b) =~= s.hybrid);
                }
            }
        },
    }
}

/// REMEMBER undoes IGNORE: a writable variable ignored and then remembered
/// leaves the state as it was.
pub proof fn lemma_remember_after_ignore(s: EvalView, var: Var)
    requires
        s.holds(var),
        s.writable(var),
    ensures
        s.set_rw_spec(var, false).set_rw_spec(var, true) == s,
{
    match var {
        Var::I16(n) => {
            assert(s.set_rw_spec(var, false).set_rw_spec(var, true).spot =~= s.spot);
        },
        Var::I32(n) => {
            assert(s.set_rw_spec(var, false).set_rw_spec(var, true).twospot =~= s.twospot);
        },
        Var::A16(n, _) => {
            assert(s.set_rw_spec(var, false).set_rw_spec(var, true).tail =~= s.tail);
        },
        Var::A32(n, _) => {
            assert(s.set_rw_spec(var, false).set_rw_spec(var, true).hybrid =~= s.hybrid);
        },
    }
}

/// An ignored variable stays ignored and unchanged by any number of
/// assignments: IGNORE then assign then REMEMBER gives back the variable.
pub proof fn lemma_ignore_protects<T>(b: BindView<T>, v: T)
    requires
        b.rw,
    ensures
        with_rw(assigned(with_rw(b, false), v), true) == b,
{
}

/// REINSTATE undoes a plain ABSTAIN: the counter is zero again, whatever it
/// was before.
pub proof fn lemma_reinstate_after_abstain(v: u32)
    ensures
        AbstainOp::Sub1.spec_apply(AbstainOp::One.spec_apply(v)) == 0,
{
}

/// ABSTAIN `n` TIMES is undone by `n` REINSTATEs, as long as the counter does
/// not saturate.
pub proof fn lemma_reinstate_n_times(v: u32, n: u32)
    requires
        v + n <= u32::MAX,
    ensures
        reinstated(AbstainOp::Add(n).spec_apply(v), n as nat) == v,
{
    lemma_reinstated_from(v, n as nat);
}

/// The counter after `k` REINSTATEs.
pub open spec fn reinstated(v: u32, k: nat) -> u32
    decreases k,
{
    if k == 0 {
        v
    } else {
        reinstated(AbstainOp::Sub1.spec_apply(v), (k - 1) as nat)
    }
}

proof fn lemma_reinstated_from(v: u32, k: nat)
    requires
        v + k <= u32::MAX,
    ensures
        reinstated((v + k) as u32, k) == v,
    decreases k,
{
    if k > 0 {
        lemma_reinstated_from(v, (k - 1) as nat);
        assert(AbstainOp::Sub1.spec_apply((v + k) as u32) == (v + (k - 1)) as u32);
    }
}

/// A number made a value and read back as 32 bits is the number itself; it
/// fits 16 bits exactly when it is at most 65535.
pub proof fn lemma_val_round_trip(v: u32)
    ensures
        val_from_u32(v).spec_as_u32() == v,
        val_from_u32(v).spec_as_u16() is Ok <==> v <= 0xffff,
        v <= 0xffff ==> val_from_u32(v).spec_as_u16() == Ok::<u16, RtError>(v as u16),
{
}

/// A value's 16-bit reading, where it has one, is its 32-bit reading.
pub proof fn lemma_val_widths_agree(x: Val)
    ensures
        x.spec_as_u16() matches Ok(w) ==> w as u32 == x.spec_as_u32(),
        x.spec_as_u16() is Ok <==> x.spec_as_u32() <= 0xffff,
{
}

/// The flat position of subscripts that fit the dimensions lies within the
/// array.
pub proof fn lemma_flat_index_bound(subs: Seq<usize>, dims: Seq<usize>)
    requires
        in_range(subs, dims),
    ensures
        0 <= flat_index(subs, dims) < dims_product(dims),
    decreases subs.len(),
{
    if subs.len() > 0 {
        let s1 = subs.drop_last();
        let d1 = dims.drop_last();
        assert(in_range(s1, d1)) by {
            assert forall|j: int| 0 <= j < s1.len() implies 1 <= #[trigger] s1[j] <= d1[j] by {
                assert(1 <= subs[j] <= dims[j]);
            }
        }
        lemma_flat_index_bound(s1, d1);
        let f1 = flat_index(s1, d1);
        let p1 = dims_product(d1);
        let l = subs.last();
        let dl = dims.last();
        assert(l <= dl) by {
            assert(subs[subs.len() - 1] <= dims[subs.len() - 1]);
        }
        assert(l >= 1) by {
            assert(subs[subs.len() - 1] >= 1);
        }
        assert(f1 + (l - 1) * p1 < p1 * dl) by (nonlinear_arith)
            requires
                0 <= f1 < p1,
                1 <= l <= dl,
        ;
        assert(0 <= f1 + (l - 1) * p1) by (nonlinear_arith)
            requires
                0 <= f1,
                1 <= l,
                0 <= p1,
        ;
    }
}

/// Different subscripts that fit the dimensions name different elements.
pub proof fn lemma_flat_index_injective(a: Seq<usize>, b: Seq<usize>, dims: Seq<usize>)
    requires
        in_range(a, dims),
        in_range(b, dims),
        flat_index(a, dims) == flat_index(b, dims),
    ensures
        a == b,
    decreases a.len(),
{
    if a.len() == 0 {
        assert(a =~= b);
    } else {
        let a1 = a.drop_last();
        let b1 = b.drop_last();
        let d1 = dims.drop_last();
        assert(in_range(a1, d1)) by {
            assert forall|j: int| 0 <= j < a1.len() implies 1 <= #[trigger] a1[j] <= d1[j] by {
                assert(1 <= a[j] <= dims[j]);
            }
        }
        assert(in_range(b1, d1)) by {
            assert forall|j: int| 0 <= j < b1.len() implies 1 <= #[trigger] b1[j] <= d1[j] by {
                assert(1 <= b[j] <= dims[j]);
            }
        }
        lemma_flat_index_bound(a1, d1);
        lemma_flat_index_bound(b1, d1);
        let fa = flat_index(a1, d1);
        let fb = flat_index(b1, d1);
        let p = dims_product(d1) as int;
        let la = a.last() - 1;
        let lb = b.last() - 1;
        assert(a.last() >= 1) by {
            assert(a[a.len() - 1] >= 1);
        }
        assert(b.last() >= 1) by {
            assert(b[b.len() - 1] >= 1);
        }
        assert(fa + la * p == fb + lb * p);
        assert(la == lb && fa == fb) by (nonlinear_arith)
            requires
                0 <= fa < p,
                0 <= fb < p,
                0 <= la,
                0 <= lb,
                fa + la * p == fb + lb * p,
        {
            if la < lb {
                assert(la * p + p <= lb * p);
            } else if lb < la {
                assert(lb * p + p <= la * p);
            }
        }
        lemma_flat_index_injective(a1, b1, d1);
        assert(a =~= a1.push(a.last()));
        assert(b =~= b1.push(b.last()));
    }
}

/// A write to an array element that succeeds is read back: the element with
/// the same subscripts then holds the written value.
pub proof fn lemma_array_read_after_write<T>(b: BindView<ArrayView<T>>, subs: Seq<usize>, x: T)
    requires
        b.rw,
    ensures
        array_set(b, subs, x) matches Some(Ok(b2)) ==> array_get(b2.val, subs) == Some(
            Ok::<T, RtError>(x),
        ),
{
    if let Some(Ok(b2)) = array_set(b, subs, x) {
        let a = b.val;
        let f = flat_index(subs, a.dims);
        assert(in_range(subs, a.dims));
        lemma_flat_index_bound(subs, a.dims);
        assert(b2.val.dims == a.dims);
        assert(b2.val.elems == a.elems.update(f, x));
        assert(b2.val.elems.len() == a.elems.len());
        assert(b2.val.elems[f] == x);
    }
}

/// A write to an array element leaves every other element as it was, and the
/// dimensions too.
pub proof fn lemma_array_write_frame<T>(
    b: BindView<ArrayView<T>>,
    subs: Seq<usize>,
    other: Seq<usize>,
    x: T,
)
    requires
        subs != other,
    ensures
        array_set(b, subs, x) matches Some(Ok(b2)) ==> b2.val.dims == b.val.dims && array_get(
            b2.val,
            other,
        ) == array_get(b.val, other),
{
    if let Some(Ok(b2)) = array_set(b, subs, x) {
        let a = b.val;
        assert(in_range(subs, a.dims));
        lemma_flat_index_bound(subs, a.dims);
        if b.rw {
            assert(b2.val.dims == a.dims);
            assert(b2.val.elems == a.elems.update(flat_index(subs, a.dims), x));
        } else {
            assert(b2 == b);
        }
        if b.rw {
            assert(b2.val.elems.len() == a.elems.len());
            if in_range(other, a.dims) {
                lemma_flat_index_bound(other, a.dims);
                let fo = flat_index(other, a.dims);
                if fo == flat_index(subs, a.dims) {
                    lemma_flat_index_injective(subs, other, a.dims);
                }
                if fo < a.elems.len() {
                    assert(b2.val.elems[fo] == a.elems[fo]);
                }
            }
        }
    }
}

/// A DIMENSIONed array reads zero at every position its dimensions allow.
pub proof fn lemma_dimensioned_reads_zero<T>(
    b: BindView<ArrayView<T>>,
    dims: Seq<usize>,
    zero: T,
    subs: Seq<usize>,
)
    requires
        b.rw,
        in_range(subs, dims),
    ensures
        array_get(dimensioned(b, dims, zero).val, subs) == Some(Ok::<T, RtError>(zero)),
{
    lemma_flat_index_bound(subs, dims);
}

/// RESUME #1 undoes the push of a NEXT: popping one jump off a stack that
/// had `pc` pushed onto it gives back `pc` and the stack as it was before.
pub proof fn lemma_resume_after_next(jumps: Seq<u16>, pc: u16)
    ensures
        ({
            let pushed = jumps.push(pc);
            &&& pushed.take(pushed.len() - 1) == jumps
            &&& pushed[pushed.len() - 1] == pc
        }),
{
    assert(jumps.push(pc).take(jumps.len() as int) =~= jumps);
}

/// A variable after the assignments `xs`, one after the other.
pub open spec fn assigned_each<T>(b: BindView<T>, xs: Seq<T>) -> BindView<T>
    decreases xs.len(),
{
    if xs.len() == 0 {
        b
    } else {
        assigned(assigned_each(b, xs.drop_last()), xs.last())
    }
}

proof fn lemma_assigned_each_keeps_stack<T>(b: BindView<T>, xs: Seq<T>)
    ensures
        assigned_each(b, xs).stack == b.stack,
        assigned_each(b, xs).rw == b.rw,
    decreases xs.len(),
{
    if xs.len() > 0 {
        lemma_assigned_each_keeps_stack(b, xs.drop_last());
    }
}

/// STASH, any number of assignments, then RETRIEVE: a writable variable has
/// its value and its stash back as they were before the STASH.
pub proof fn lemma_retrieve_after_stash_and_assignments<T>(b: BindView<T>, xs: Seq<T>)
    requires
        b.rw,
    ensures
        retrieved(assigned_each(stashed(b), xs)) == b,
{
    lemma_assigned_each_keeps_stack(stashed(b), xs);
    assert(stashed(b).stack.drop_last() =~= b.stack);
}

/// IGNORE protects a variable at the level of statements: IGNORE of `var`
/// only marks it read-only; an assignment statement to it then leaves the
/// whole state as it was (whether it succeeds or fails); REMEMBER makes it
/// writable again, as it was before the IGNORE if it was writable then.
pub proof fn lemma_ignore_statement(s: EvalView, p: Program, vs: Vec<Var>, var: Var, e: Expr)
    requires
        s.holds(var),
        vs@ == seq![var],
    ensures
        s.stmt_spec(p, StmtBody::Ignore(vs)) == Some(
            (s.set_rw_spec(var, false), Ok::<StmtRes, RtError>(StmtRes::Next)),
        ),
        s.set_rw_spec(var, false).stmt_spec(p, StmtBody::Calc(var, e)) matches Some((u, _)) ==> u
            == s.set_rw_spec(var, false),
        s.set_rw_spec(var, false).stmt_spec(p, StmtBody::Remember(vs)) == Some(
            (s.set_rw_spec(var, true), Ok::<StmtRes, RtError>(StmtRes::Next)),
        ),
        s.writable(var) ==> s.set_rw_spec(var, true) == s,
{
    let t = s.set_rw_spec(var, false);
    assert(vs@.drop_last() =~= Seq::<Var>::empty());
    assert(vs@.last() == var);
    assert(s.set_rw_all(vs@.drop_last(), false) == Some(s));
    assert(s.set_rw_all(vs@, false) == Some(t));
    assert(t.holds(var));
    assert(t.set_rw_all(vs@.drop_last(), true) == Some(t));
    assert(t.set_rw_all(vs@, true) == Some(t.set_rw_spec(var, true)));
    match var {
        Var::I16(n) => {
            assert(t.set_rw_spec(var, true).spot =~= s.set_rw_spec(var, true).spot);
            assert(s.writable(var) ==> s.set_rw_spec(var, true).spot =~= s.spot);
        },
        Var::I32(n) => {
            assert(t.set_rw_spec(var, true).twospot =~= s.set_rw_spec(var, true).twospot);
            assert(s.writable(var) ==> s.set_rw_spec(var, true).twospot =~= s.twospot);
        },
        Var::A16(n, _) => {
            assert(t.set_rw_spec(var, true).tail =~= s.set_rw_spec(var, true).tail);
            assert(s.writable(var) ==> s.set_rw_spec(var, true).tail =~= s.tail);
        },
        Var::A32(n, _) => {
            assert(t.set_rw_spec(var, true).hybrid =~= s.set_rw_spec(var, true).hybrid);
            assert(s.writable(var) ==> s.set_rw_spec(var, true).hybrid =~= s.hybrid);
        },
    }
    assert(!t.writable(var));
    if let Some(Ok(v)) = t.eval_e(e) {
        lemma_ignored_assign(t, var, v);
    }
}

/// An assignment statement to a writable spot or two-spot variable that
/// succeeds sets it to the value of the expression.
pub proof fn lemma_assign_statement(s: EvalView, p: Program, var: Var, e: Expr)
    requires
        s.holds(var),
        s.writable(var),
        var is I16 || var is I32,
    ensures
        s.stmt_spec(p, StmtBody::Calc(var, e)) matches Some((u, Ok(_))) ==> {
            &&& s.eval_e(e) matches Some(Ok(v))
            &&& var matches Var::I16(n) ==> u.spot[n as int].val as u32 == v.spec_as_u32()
            &&& var matches Var::I32(n) ==> u.twospot[n as int].val == v.spec_as_u32()
        },
{
    if let Some(Ok(v)) = s.eval_e(e) {
        lemma_val_widths_agree(v);
    }
}

/// A write through `set_md` to a dimensioned array is read back by `get_md`
/// with the same subscripts: the position lies within the elements, and the
/// updated elements hold the written value there.
pub proof fn lemma_set_md_then_get_md<T>(a: ArrayView<T>, subs: Seq<usize>, v: T)
    requires
        a.elems.len() == dims_product(a.dims),
        in_range(subs, a.dims),
    ensures
        0 <= flat_index(subs, a.dims) < a.elems.len(),
        a.elems.update(flat_index(subs, a.dims), v)[flat_index(subs, a.dims)] == v,
{
    lemma_flat_index_bound(subs, a.dims);
}

/// STASH, assignments and RETRIEVE on a variable of any type, as the
/// contracts of `Bind::stash`, `Bind::assign` / `Bind::assign_unchecked` and
/// `Bind::retrieve` describe each step: the stash is back as it was, the
/// variable is still writable, and its value is the copy that STASH made.
pub proof fn lemma_bind_stash_assign_retrieve<T: Clone>(
    before: Bind<T>,
    stashed_b: Bind<T>,
    assigned_b: Bind<T>,
    after: Bind<T>,
)
    requires
        before.rw,
        stashed_b.val == before.val,
        stashed_b.rw == before.rw,
        stashed_b.stack@.len() == before.stack@.len() + 1,
        stashed_b.stack@.drop_last() == before.stack@,
        cloned(before.val, stashed_b.stack@.last()),
        assigned_b.stack@ == stashed_b.stack@,
        assigned_b.rw == stashed_b.rw,
        after.stack@ == assigned_b.stack@.drop_last(),
        after.val == (if assigned_b.rw {
            assigned_b.stack@.last()
        } else {
            assigned_b.val
        }),
        after.rw == assigned_b.rw,
    ensures
        after.stack@ == before.stack@,
        after.rw,
        cloned(before.val, after.val),
{
}

/// The 16-bit unary operators on an operand with a 16-bit value `x` give a
/// 16-bit value each of whose bits combines the same bit of `x` with the
/// next higher one, bit 15 with bit 0.
pub proof fn lemma_unary16_expression(s: EvalView, a: Expr, x: u16)
    requires
        s.eval_e(a) matches Some(Ok(va)) && va.spec_as_u16() == Ok::<u16, RtError>(x),
    ensures
        s.eval_e(Expr::And(VType::I16, Box::new(a))) matches Some(Ok(Val::I16(r))) && forall|i: u32|
            i < 16 ==> #[trigger] bit(r as u32, i) == (bit(x as u32, i) && bit(x as u32, ((i + 1) % 16) as u32)),
        s.eval_e(Expr::Or(VType::I16, Box::new(a))) matches Some(Ok(Val::I16(r))) && forall|i: u32|
            i < 16 ==> #[trigger] bit(r as u32, i) == (bit(x as u32, i) || bit(x as u32, ((i + 1) % 16) as u32)),
        s.eval_e(Expr::Xor(VType::I16, Box::new(a))) matches Some(Ok(Val::I16(r))) && forall|i: u32|
            i < 16 ==> #[trigger] bit(r as u32, i) == (bit(x as u32, i) != bit(x as u32, ((i + 1) % 16) as u32)),
{
    let v = x as u32;
    lemma_unary_value_bits(v);
    assert(!bit(v, 16u32)) by (bit_vector)
        requires
            v < 0x10000,
    ;
    assert forall|r: u32, i: u32| r < 0x10000 && i < 16 implies #[trigger] bit(((r as u16) as u32), i) == bit(r, i) by {
        assert(bit(((r as u16) as u32), i) == bit(r, i)) by (bit_vector)
            requires
                r < 0x10000,
        ;
    }
}

/// The 32-bit unary operators on an operand with value `x` give a 32-bit value
/// each of whose bits combines the same bit of `x` with the next higher one,
/// bit 31 with bit 0.
pub proof fn lemma_unary32_expression(s: EvalView, a: Expr, x: u32)
    requires
        s.eval_e(a) matches Some(Ok(va)) && va.spec_as_u32() == x,
    ensures
        s.eval_e(Expr::And(VType::I32, Box::new(a))) matches Some(Ok(Val::I32(r))) && forall|i: u32|
            i < 32 ==> #[trigger] bit(r, i) == (bit(x, i) && bit(x, ((i + 1) % 32) as u32)),
        s.eval_e(Expr::Or(VType::I32, Box::new(a))) matches Some(Ok(Val::I32(r))) && forall|i: u32|
            i < 32 ==> #[trigger] bit(r, i) == (bit(x, i) || bit(x, ((i + 1) % 32) as u32)),
        s.eval_e(Expr::Xor(VType::I32, Box::new(a))) matches Some(Ok(Val::I32(r))) && forall|i: u32|
            i < 32 ==> #[trigger] bit(r, i) == (bit(x, i) != bit(x, ((i + 1) % 32) as u32)),
{
    lemma_unary_value_bits(x);
}

/// A 16-bit unary operator on an operand that does not fit in 16 bits fails
/// with IE275.
pub proof fn lemma_unary16_too_wide(s: EvalView, a: Expr, va: Val)
    requires
        s.eval_e(a) == Some(Ok::<Val, RtError>(va)),
        va.spec_as_u32() > 0xffff,
    ensures
        s.eval_e(Expr::And(VType::I16, Box::new(a))) matches Some(Err(e)) && e.code == ErrCode::IE275,
        s.eval_e(Expr::Or(VType::I16, Box::new(a))) matches Some(Err(e)) && e.code == ErrCode::IE275,
        s.eval_e(Expr::Xor(VType::I16, Box::new(a))) matches Some(Err(e)) && e.code == ErrCode::IE275,
{
}

/// Mingle interleaves the two 16-bit operands: bit `2i + 1` of the result is
/// bit `i` of the left operand, bit `2i` is bit `i` of the right one; an
/// operand wider than 16 bits fails with IE533.
pub proof fn lemma_mingle_expression(s: EvalView, a: Expr, b: Expr, va: Val, vb: Val)
    requires
        s.eval_e(a) == Some(Ok::<Val, RtError>(va)),
        s.eval_e(b) == Some(Ok::<Val, RtError>(vb)),
    ensures
        va.spec_as_u32() <= 0xffff && vb.spec_as_u32() <= 0xffff ==> (s.eval_e(
            Expr::Mingle(Box::new(a), Box::new(b)),
        ) matches Some(Ok(Val::I32(r))) && forall|i: u32|
            i < 16 ==> #[trigger] bit(r, (2 * i + 1) as u32) == bit(va.spec_as_u32(), i) && bit(
                r,
                (2 * i) as u32,
            ) == bit(vb.spec_as_u32(), i)),
        va.spec_as_u32() > 0xffff || vb.spec_as_u32() > 0xffff ==> (s.eval_e(
            Expr::Mingle(Box::new(a), Box::new(b)),
        ) matches Some(Err(e)) && e.code == ErrCode::IE533),
{
    lemma_mingle_value_bits(va.spec_as_u32(), vb.spec_as_u32());
}

/// The digit words: ZERO and OH stand for 0, ONE for 1, TWO for 2, THREE for
/// 3, FOUR for 4, FIVE for 5, SIX for 6, SEVEN for 7, EIGHT for 8, NINE and
/// NINER for 9, and no other word stands for a digit.
pub proof fn lemma_digit_words(w: Seq<char>)
    ensures
        english_digit("ZERO"@) == Some(0u8),
        english_digit("OH"@) == Some(0u8),
        english_digit("ONE"@) == Some(1u8),
        english_digit("TWO"@) == Some(2u8),
        english_digit("THREE"@) == Some(3u8),
        english_digit("FOUR"@) == Some(4u8),
        english_digit("FIVE"@) == Some(5u8),
        english_digit("SIX"@) == Some(6u8),
        english_digit("SEVEN"@) == Some(7u8),
        english_digit("EIGHT"@) == Some(8u8),
        english_digit("NINE"@) == Some(9u8),
        english_digit("NINER"@) == Some(9u8),
        english_digit(w) is Some ==> w == "ZERO"@ || w == "OH"@ || w == "ONE"@ || w == "TWO"@ || w == "THREE"@ || w == "FOUR"@ || w == "FIVE"@ || w == "SIX"@ || w == "SEVEN"@ || w == "EIGHT"@ || w == "NINE"@ || w == "NINER"@,
{
    reveal_strlit("ZERO");
    reveal_strlit("OH");
    reveal_strlit("ONE");
    reveal_strlit("TWO");
    reveal_strlit("THREE");
    reveal_strlit("FOUR");
    reveal_strlit("FIVE");
    reveal_strlit("SIX");
    reveal_strlit("SEVEN");
    reveal_strlit("EIGHT");
    reveal_strlit("NINE");
    reveal_strlit("NINER");
    assert("ZERO"@ =~= seq!['Z', 'E', 'R', 'O']);
    assert("OH"@ =~= seq!['O', 'H']);
    assert("ONE"@ =~= seq!['O', 'N', 'E']);
    assert("TWO"@ =~= seq!['T', 'W', 'O']);
    assert("THREE"@ =~= seq!['T', 'H', 'R', 'E', 'E']);
    assert("FOUR"@ =~= seq!['F', 'O', 'U', 'R']);
    assert("FIVE"@ =~= seq!['F', 'I', 'V', 'E']);
    assert("SIX"@ =~= seq!['S', 'I', 'X']);
    assert("SEVEN"@ =~= seq!['S', 'E', 'V', 'E', 'N']);
    assert("EIGHT"@ =~= seq!['E', 'I', 'G', 'H', 'T']);
    assert("NINE"@ =~= seq!['N', 'I', 'N', 'E']);
    assert("NINER"@ =~= seq!['N', 'I', 'N', 'E', 'R']);
}

/// FORGET #n drops the top `n` entries of the NEXT stack (all of them when
/// there are fewer) and changes nothing else; FORGET #0 drops nothing.
pub proof fn lemma_forget_statement(s: EvalView, p: Program, e: Expr, v: Val)
    requires
        s.eval_e(e) == Some(Ok::<Val, RtError>(v)),
    ensures
        s.stmt_spec(p, StmtBody::Forget(e)) matches Some((t, Ok(StmtRes::Next))) && {
            let n = v.spec_as_u32() as int;
            let len = s.jumps.len() as int;
            &&& t == EvalView { jumps: t.jumps, ..s }
            &&& n <= len ==> t.jumps.len() + n == len
            &&& n > len ==> t.jumps.len() == 0
            &&& forall|k: int| 0 <= k < t.jumps.len() ==> #[trigger] t.jumps[k] == s.jumps[k]
        },
{
}

/// RESUME #n with `0 < n <=` the NEXT stack's size drops the top `n` entries
/// and goes back to the last one dropped; RESUME #0 is IE621, and RESUME
/// past the bottom of the stack is IE632, both leaving the state alone.
pub proof fn lemma_resume_statement(s: EvalView, p: Program, e: Expr, v: Val)
    requires
        s.eval_e(e) == Some(Ok::<Val, RtError>(v)),
    ensures
        ({
            let n = v.spec_as_u32() as int;
            let len = s.jumps.len() as int;
            &&& n == 0 ==> (s.stmt_spec(p, StmtBody::Resume(e)) matches Some((t, Err(x))) && t == s
                && x.code == ErrCode::IE621)
            &&& n > len ==> (s.stmt_spec(p, StmtBody::Resume(e)) matches Some((t, Err(x))) && t == s
                && x.code == ErrCode::IE632)
            &&& 0 < n <= len ==> (s.stmt_spec(p, StmtBody::Resume(e)) matches Some(
                (t, Ok(StmtRes::Back(back))),
            ) && t == EvalView { jumps: t.jumps, ..s } && t.jumps.len() + n == len && back
                == s.jumps[len - n] && forall|k: int|
                0 <= k < t.jumps.len() ==> #[trigger] t.jumps[k] == s.jumps[k])
        }),
{
}

/// NEXT to a label jumps to the labelled statement, pushing the statement of
/// the NEXT onto the stack; with 80 entries on the stack it is IE123, and to
/// a missing label IE129.
pub proof fn lemma_next_statement(s: EvalView, p: Program, l: u16)
    ensures
        !p.labels@.dom().contains(l) ==> (s.stmt_spec(p, StmtBody::DoNext(l)) matches Some(
            (t, Err(x)),
        ) && t == s && x.code == ErrCode::IE129),
        p.labels@.dom().contains(l) && s.jumps.len() >= 80 ==> (s.stmt_spec(
            p,
            StmtBody::DoNext(l),
        ) matches Some((t, Err(x))) && t == s && x.code == ErrCode::IE123),
        p.labels@.dom().contains(l) && s.jumps.len() < 80 ==> (s.stmt_spec(p, StmtBody::DoNext(l))
            matches Some((t, Ok(StmtRes::Jump(target)))) && t == s && target == p.labels@[l]),
        ({
            let (t, a) = s.control(p, StmtRes::Jump(p.labels@[l] as usize));
            &&& a == ActionView::Continue
            &&& t.pctr == p.labels@[l]
            &&& t.jumps.len() == s.jumps.len() + 1
            &&& t.jumps.last() == s.pctr as u16
            &&& forall|k: int| 0 <= k < s.jumps.len() ==> #[trigger] t.jumps[k] == s.jumps[k]
        }),
{
}

/// Moving on from a statement: when no COME FROM names it, or the COME FROM
/// that does is abstained from, control goes to the next statement with the
/// chance generator untouched; when the COME FROM is not abstained from, a
/// draw decides (a chance of 100 always follows it).
pub proof fn lemma_come_from_moves_on(s: EvalView, p: Program)
    requires
        s.pctr < p.stmts@.len(),
    ensures
        ({
            let pc = s.pctr;
            let moved_on = (
                EvalView { pctr: (pc + 1) as usize, phase: Phase::Fetch, ..s },
                ActionView::Continue,
            );
            match p.stmts@[pc as int].comefrom {
                None => s.come_from(p) == moved_on,
                Some(next) => next < s.abstain.len() ==> {
                    &&& s.abstain[next as int] != 0 ==> s.come_from(p) == moved_on
                    &&& s.abstain[next as int] == 0 && p.stmts@[next as int].props.chance == 100
                        ==> s.come_from(p) == (
                        EvalView { pctr: next as usize, phase: Phase::Fetch, ..s },
                        ActionView::Continue,
                    )
                    &&& s.abstain[next as int] == 0 ==> s.come_from(p).0.rand == (if p.stmts@[
                        next as int].props.chance == 100 {
                        s.rand
                    } else {
                        next_rand(s.rand)
                    })
                },
            }
        }),
{
}

/// A statement that is abstained from does not run: taking it up only counts
/// it and moves on as from any statement.
pub proof fn lemma_abstained_statement_skipped(s: EvalView, p: Program)
    requires
        s.pctr < p.stmts@.len(),
        s.stmt_ctr < usize::MAX,
        s.pctr < s.abstain.len(),
        s.abstain[s.pctr as int] != 0,
    ensures
        s.fetch(p) == (EvalView { stmt_ctr: (s.stmt_ctr + 1) as usize, ..s }).come_from(p),
{
}

/// The value of a roman letter: I 1, V 5, X 10, L 50, C 100, D 500, M 1000,
/// and the lower-case letters a million times as much.
pub open spec fn letter_value(c: char) -> int {
    if c == 'I' { 1 }
    else if c == 'V' { 5 }
    else if c == 'X' { 10 }
    else if c == 'L' { 50 }
    else if c == 'C' { 100 }
    else if c == 'D' { 500 }
    else if c == 'M' { 1000 }
    else if c == 'i' { 1_000_000 }
    else if c == 'v' { 5_000_000 }
    else if c == 'x' { 10_000_000 }
    else if c == 'l' { 50_000_000 }
    else if c == 'c' { 100_000_000 }
    else if c == 'd' { 500_000_000 }
    else if c == 'm' { 1_000_000_000 }
    else { 0 }
}

/// The value of a letter under an overbar mark: an overbar multiplies it by
/// a thousand.
pub open spec fn marked_value(bar: char, c: char) -> int {
    if bar == '_' {
        1000 * letter_value(c)
    } else {
        letter_value(c)
    }
}

/// The number that a roman numeral reads as, given its overbar line and its
/// letter line: the sum of the letters' values, except that a letter worth
/// less than the one after it is subtracted.
pub open spec fn roman_reading(bars: Seq<char>, chars: Seq<char>) -> int
    decreases chars.len(),
{
    if chars.len() == 0 {
        0
    } else {
        let a = marked_value(bars[0], chars[0]);
        let rest = roman_reading(bars.drop_first(), chars.drop_first());
        if chars.len() > 1 && a < marked_value(bars[1], chars[1]) {
            rest - a
        } else {
            rest + a
        }
    }
}

spec fn ten_to(n: nat) -> nat
    decreases n,
{
    if n == 0 {
        1
    } else {
        10 * ten_to((n - 1) as nat)
    }
}

spec fn sym_value(sym: (char, char)) -> int {
    marked_value(sym.0, sym.1)
}

spec fn sym_reading(syms: Seq<(char, char)>) -> int
    decreases syms.len(),
{
    if syms.len() == 0 {
        0
    } else {
        let a = sym_value(syms[0]);
        let rest = sym_reading(syms.drop_first());
        if syms.len() > 1 && a < sym_value(syms[1]) {
            rest - a
        } else {
            rest + a
        }
    }
}

spec fn role_weight(role: int) -> int {
    if role <= 1 {
        1
    } else if role == 2 {
        5
    } else {
        10
    }
}

proof fn lemma_symbol_table(place: int, role: int)
    requires
        0 <= place <= 9,
        0 <= role <= 3,
    ensures
        sym_value(roman_symbol(place, role)) == role_weight(role) * ten_to(place as nat),
{
    reveal_with_fuel(ten_to, 11);
}

spec fn bar_line(syms: Seq<(char, char)>) -> Seq<char> {
    syms.map_values(|s: (char, char)| s.0)
}

spec fn letter_line(syms: Seq<(char, char)>) -> Seq<char> {
    syms.map_values(|s: (char, char)| s.1)
}

proof fn lemma_reading_of_lines(syms: Seq<(char, char)>)
    ensures
        roman_reading(bar_line(syms), letter_line(syms)) == sym_reading(syms),
    decreases syms.len(),
{
    if syms.len() > 0 {
        let rest = syms.drop_first();
        assert(bar_line(syms).drop_first() =~= bar_line(rest));
        assert(letter_line(syms).drop_first() =~= letter_line(rest));
        lemma_reading_of_lines(rest);
    }
}

proof fn lemma_reading_concat(a: Seq<(char, char)>, b: Seq<(char, char)>)
    requires
        a.len() == 0 || b.len() == 0 || sym_value(a.last()) >= sym_value(b[0]),
    ensures
        sym_reading(a + b) == sym_reading(a) + sym_reading(b),
    decreases a.len(),
{
    if a.len() == 0 {
        assert(a + b =~= b);
    } else if b.len() == 0 {
        assert(a + b =~= a);
    } else {
        let a1 = a.drop_first();
        assert((a + b).drop_first() =~= a1 + b);
        if a1.len() > 0 {
            assert(a1.last() == a.last());
        }
        lemma_reading_concat(a1, b);
    }
}

#[verifier::spinoff_prover]
proof fn lemma_digit_reading(d: int, place: int)
    requires
        0 <= d <= 9,
        0 <= place <= 9,
    ensures
        sym_reading(digit_symbols(d, place)) == d * ten_to(place as nat),
        forall|k: int|
            0 <= k < digit_symbols(d, place).len() ==> ten_to(place as nat) <= #[trigger] sym_value(
                digit_symbols(d, place)[k],
            ) <= 10 * ten_to(place as nat),
{
    let u = ten_to(place as nat) as int;
    let syms = digit_symbols(d, place);
    let roles = digit_roles(d);
    assert(syms.len() == roles.len());
    assert forall|k: int| 0 <= k < roles.len() implies #[trigger] sym_value(syms[k]) == role_weight(
        roles[k],
    ) * u by {
        lemma_symbol_table(place, roles[k]);
    }
    assert(u >= 1) by {
        reveal_with_fuel(ten_to, 11);
    }
    assert(sym_reading(syms) == d * u) by {
        if d == 0 {
            assert(syms.len() == 0);
        }
        if d == 1 {
            let t0 = syms;
            let t1 = t0.drop_first();
            assert(t1.len() == 0);
            assert(sym_reading(t1) == 0);
            assert(t0[0] == syms[0]);
            assert(sym_value(syms[0]) == 1 * u);
            assert(sym_reading(t0) == 1 * u);
        }
        if d == 2 {
            let t0 = syms;
            let t1 = t0.drop_first();
            let t2 = t1.drop_first();
            assert(t2.len() == 0);
            assert(sym_reading(t2) == 0);
            assert(t0[0] == syms[0]);
            assert(sym_value(syms[0]) == 1 * u);
            assert(t0[1] == syms[1]);
            assert(t1[0] == syms[1]);
            assert(sym_value(syms[1]) == 1 * u);
            assert(sym_reading(t1) == 1 * u);
            assert(sym_reading(t0) == 2 * u);
        }
        if d == 3 {
            let t0 = syms;
            let t1 = t0.drop_first();
            let t2 = t1.drop_first();
            let t3 = t2.drop_first();
            assert(t3.len() == 0);
            assert(sym_reading(t3) == 0);
            assert(t0[0] == syms[0]);
            assert(sym_value(syms[0]) == 1 * u);
            assert(t0[1] == syms[1]);
            assert(t1[0] == syms[1]);
            assert(sym_value(syms[1]) == 1 * u);
            assert(t1[1] == syms[2]);
            assert(t2[0] == syms[2]);
            assert(sym_value(syms[2]) == 1 * u);
            assert(sym_reading(t2) == 1 * u);
            assert(sym_reading(t1) == 2 * u);
            assert(sym_reading(t0) == 3 * u);
        }
        if d == 4 {
            let t0 = syms;
            let t1 = t0.drop_first();
            let t2 = t1.drop_first();
            assert(t2.len() == 0);
            assert(sym_reading(t2) == 0);
            assert(t0[0] == syms[0]);
            assert(sym_value(syms[0]) == 1 * u);
            assert(t0[1] == syms[1]);
            assert(t1[0] == syms[1]);
            assert(sym_value(syms[1]) == 5 * u);
            assert(sym_reading(t1) == 5 * u);
            assert(sym_reading(t0) == 4 * u);
        }
        if d == 5 {
            let t0 = syms;
            let t1 = t0.drop_first();
            assert(t1.len() == 0);
            assert(sym_reading(t1) == 0);
            assert(t0[0] == syms[0]);
            assert(sym_value(syms[0]) == 5 * u);
            assert(sym_reading(t0) == 5 * u);
        }
        if d == 6 {
            let t0 = syms;
            let t1 = t0.drop_first();
            let t2 = t1.drop_first();
            assert(t2.len() == 0);
            assert(sym_reading(t2) == 0);
            assert(t0[0] == syms[0]);
            assert(sym_value(syms[0]) == 5 * u);
            assert(t0[1] == syms[1]);
            assert(t1[0] == syms[1]);
            assert(sym_value(syms[1]) == 1 * u);
            assert(sym_reading(t1) == 1 * u);
            assert(sym_reading(t0) == 6 * u);
        }
        if d == 7 {
            let t0 = syms;
            let t1 = t0.drop_first();
            let t2 = t1.drop_first();
            let t3 = t2.drop_first();
            assert(t3.len() == 0);
            assert(sym_reading(t3) == 0);
            assert(t0[0] == syms[0]);
            assert(sym_value(syms[0]) == 5 * u);
            assert(t0[1] == syms[1]);
            assert(t1[0] == syms[1]);
            assert(sym_value(syms[1]) == 1 * u);
            assert(t1[1] == syms[2]);
            assert(t2[0] == syms[2]);
            assert(sym_value(syms[2]) == 1 * u);
            assert(sym_reading(t2) == 1 * u);
            assert(sym_reading(t1) == 2 * u);
            assert(sym_reading(t0) == 7 * u);
        }
        if d == 8 {
            let t0 = syms;
            let t1 = t0.drop_first();
            let t2 = t1.drop_first();
            let t3 = t2.drop_first();
            let t4 = t3.drop_first();
            assert(t4.len() == 0);
            assert(sym_reading(t4) == 0);
            assert(t0[0] == syms[0]);
            assert(sym_value(syms[0]) == 5 * u);
            assert(t0[1] == syms[1]);
            assert(t1[0] == syms[1]);
            assert(sym_value(syms[1]) == 1 * u);
            assert(t1[1] == syms[2]);
            assert(t2[0] == syms[2]);
            assert(sym_value(syms[2]) == 1 * u);
            assert(t2[1] == syms[3]);
            assert(t3[0] == syms[3]);
            assert(sym_value(syms[3]) == 1 * u);
            assert(sym_reading(t3) == 1 * u);
            assert(sym_reading(t2) == 2 * u);
            assert(sym_reading(t1) == 3 * u);
            assert(sym_reading(t0) == 8 * u);
        }
        if d == 9 {
            let t0 = syms;
            let t1 = t0.drop_first();
            let t2 = t1.drop_first();
            assert(t2.len() == 0);
            assert(sym_reading(t2) == 0);
            assert(t0[0] == syms[0]);
            assert(sym_value(syms[0]) == 1 * u);
            assert(t0[1] == syms[1]);
            assert(t1[0] == syms[1]);
            assert(sym_value(syms[1]) == 10 * u);
            assert(sym_reading(t1) == 10 * u);
            assert(sym_reading(t0) == 9 * u);
        }
    }
    assert forall|k: int| 0 <= k < syms.len() implies u <= #[trigger] sym_value(syms[k]) <= 10 * u by {
        assert(sym_value(syms[k]) == role_weight(roles[k]) * u);
        assert(1 <= role_weight(roles[k]) <= 10);
        assert(u <= role_weight(roles[k]) * u <= 10 * u) by (nonlinear_arith)
            requires
                1 <= role_weight(roles[k]) <= 10,
                u >= 1,
        ;
    }
}

proof fn lemma_symbols_reading(v: nat, place: nat)
    requires
        place <= 9,
        v < ten_to((10 - place) as nat),
    ensures
        sym_reading(roman_symbols(v, place as int)) == v * ten_to(place),
        forall|k: int|
            0 <= k < roman_symbols(v, place as int).len() ==> ten_to(place) <= #[trigger] sym_value(
                roman_symbols(v, place as int)[k],
            ),
    decreases v,
{
    reveal_with_fuel(ten_to, 2);
    if v > 0 {
        let hi = v / 10;
        let d = (v % 10) as int;
        let a = roman_symbols(hi, (place + 1) as int);
        let b = digit_symbols(d, place as int);
        lemma_digit_reading(d, place as int);
        let u = ten_to(place) as int;
        assert(ten_to((10 - place) as nat) == 10 * ten_to((10 - place - 1) as nat));
        if hi > 0 {
            assert(place + 1 <= 9) by {
                if place == 9 {
                    assert(ten_to(1) == 10);
                    assert(ten_to(0) == 1);
                }
            }
            assert(hi < ten_to((10 - (place + 1)) as nat)) by (nonlinear_arith)
                requires
                    v < 10 * ten_to((10 - place - 1) as nat),
                    hi == v / 10,
            ;
            lemma_symbols_reading(hi, (place + 1) as nat);
            assert(ten_to((place + 1) as nat) == 10 * u);
        } else {
            assert(a.len() == 0);
        }
        if a.len() > 0 && b.len() > 0 {
            assert(sym_value(a.last()) >= 10 * u);
            assert(sym_value(b[0]) <= 10 * u);
        }
        lemma_reading_concat(a, b);
        assert(roman_symbols(v, place as int) == a + b);
        assert(hi * (10 * u) + d * u == v * u) by (nonlinear_arith)
            requires
                hi == v / 10,
                d == v % 10,
        ;
        if hi > 0 {
            assert(sym_reading(a) == hi * (10 * u));
        } else {
            assert(sym_reading(a) == 0);
        }
        assert forall|k: int| 0 <= k < (a + b).len() implies u <= #[trigger] sym_value((a + b)[k]) by {
            if k < a.len() {
                assert((a + b)[k] == a[k]);
                assert(sym_value(a[k]) >= 10 * u);
            } else {
                assert((a + b)[k] == b[k - a.len()]);
            }
        }
    }
}

/// Roman numerals read back: the text of a positive number is an overbar
/// line and a letter line of the same length, each ended by a newline, that
/// read as the number under the usual letter values (an overbar multiplying
/// by a thousand, lower case by a million, a letter worth less than the one
/// after it subtracted); zero is a lone overbar.
pub proof fn lemma_roman_reads_back(v: u32)
    ensures
        v == 0 ==> roman_text(v) == seq!['_', '\n', '\n'],
        v > 0 ==> exists|bars: Seq<char>, chars: Seq<char>|
            bars.len() == chars.len() && roman_text(v) == bars + seq!['\n'] + chars + seq!['\n']
                && #[trigger] roman_reading(bars, chars) == v,
{
    if v > 0 {
        let syms = roman_symbols(v as nat, 0);
        let bars = bar_line(syms);
        let chars = letter_line(syms);
        assert(roman_text(v) == bars + seq!['\n'] + chars + seq!['\n']);
        assert(ten_to(10) == 10_000_000_000) by {
            reveal_with_fuel(ten_to, 11);
        }
        lemma_symbols_reading(v as nat, 0);
        lemma_reading_of_lines(syms);
        let t = ten_to(0);
        assert(t == 1);
        assert(v as nat * t == v as nat) by (nonlinear_arith)
            requires
                t == 1,
        ;
        assert(sym_reading(syms) == v);
        assert(roman_reading(bars, chars) == sym_reading(syms));
        assert(roman_reading(bars, chars) == v);
    }
}

/// Select undoes Mingle in expressions: selecting with the odd-bit mask from
/// the mingle of two 16-bit values gives back the left one, with the
/// even-bit mask the right one.
pub proof fn lemma_select_mingle_expression(s: EvalView, a: Expr, b: Expr, va: Val, vb: Val)
    requires
        s.eval_e(a) == Some(Ok::<Val, RtError>(va)),
        s.eval_e(b) == Some(Ok::<Val, RtError>(vb)),
        va.spec_as_u32() <= 0xffff,
        vb.spec_as_u32() <= 0xffff,
    ensures
        s.eval_e(
            Expr::Select(
                VType::I32,
                Box::new(Expr::Mingle(Box::new(a), Box::new(b))),
                Box::new(Expr::Num(VType::I32, 0xaaaa_aaaa)),
            ),
        ) == Some(Ok::<Val, RtError>(Val::I32(va.spec_as_u32()))),
        s.eval_e(
            Expr::Select(
                VType::I32,
                Box::new(Expr::Mingle(Box::new(a), Box::new(b))),
                Box::new(Expr::Num(VType::I32, 0x5555_5555)),
            ),
        ) == Some(Ok::<Val, RtError>(Val::I32(vb.spec_as_u32()))),
{
    let v = va.spec_as_u32();
    let w = vb.spec_as_u32();
    lemma_select_undoes_mingle(v, w);
    let m = crate::stdops::mingle_value(v, w);
    let mg = Expr::Mingle(Box::new(a), Box::new(b));
    assert(s.eval_e(mg) == Some(Ok::<Val, RtError>(Val::I32(m))));
    assert(s.eval_e(Expr::Num(VType::I32, 0xaaaa_aaaa)) == Some(Ok::<Val, RtError>(Val::I32(0xaaaa_aaaa))));
    assert(s.eval_e(Expr::Num(VType::I32, 0x5555_5555)) == Some(Ok::<Val, RtError>(Val::I32(0x5555_5555))));
    assert(v % 0x10000 == v);
    assert(w % 0x10000 == w);
}

/// The binary operators on 32-bit values: AND, OR and XOR combine bit by
/// bit, NOT flips each bit, "not equal" gives 1 or 0, PLUS and MINUS are
/// exact sums and differences (no result where they leave 32 bits), and the
/// shifts move the bits (no result for a shift by 32 or more).
pub proof fn lemma_rs_expressions(s: EvalView, a: Expr, b: Expr, v: u32, w: u32)
    requires
        s.eval_e(a) matches Some(Ok(va)) && va.spec_as_u32() == v,
        s.eval_e(b) matches Some(Ok(vb)) && vb.spec_as_u32() == w,
    ensures
        s.eval_e(Expr::RsAnd(Box::new(a), Box::new(b))) matches Some(Ok(Val::I32(r))) && forall|i: u32|
            i < 32 ==> #[trigger] bit(r, i) == (bit(v, i) && bit(w, i)),
        s.eval_e(Expr::RsOr(Box::new(a), Box::new(b))) matches Some(Ok(Val::I32(r))) && forall|i: u32|
            i < 32 ==> #[trigger] bit(r, i) == (bit(v, i) || bit(w, i)),
        s.eval_e(Expr::RsXor(Box::new(a), Box::new(b))) matches Some(Ok(Val::I32(r))) && forall|i: u32|
            i < 32 ==> #[trigger] bit(r, i) == (bit(v, i) != bit(w, i)),
        s.eval_e(Expr::RsNot(Box::new(a))) matches Some(Ok(Val::I32(r))) && forall|i: u32|
            i < 32 ==> #[trigger] bit(r, i) == !bit(v, i),
        s.eval_e(Expr::RsNotEqual(Box::new(a), Box::new(b))) == Some(
            Ok::<Val, RtError>(Val::I32(if v == w { 0 } else { 1 })),
        ),
        v + w <= u32::MAX ==> (s.eval_e(Expr::RsPlus(Box::new(a), Box::new(b))) matches Some(Ok(Val::I32(r)))
            && r == v + w),
        v + w > u32::MAX ==> s.eval_e(Expr::RsPlus(Box::new(a), Box::new(b))) is None,
        v >= w ==> (s.eval_e(Expr::RsMinus(Box::new(a), Box::new(b))) matches Some(Ok(Val::I32(r))) && r + w == v),
        v < w ==> s.eval_e(Expr::RsMinus(Box::new(a), Box::new(b))) is None,
        w < 32 ==> (s.eval_e(Expr::RsRshift(Box::new(a), Box::new(b))) matches Some(Ok(Val::I32(r))) && forall|i: u32|
            i < 32 ==> #[trigger] bit(r, i) == (i + w < 32 && bit(v, (i + w) as u32))),
        w < 32 ==> (s.eval_e(Expr::RsLshift(Box::new(a), Box::new(b))) matches Some(Ok(Val::I32(r))) && forall|i: u32|
            i < 32 ==> #[trigger] bit(r, i) == (i >= w && bit(v, (i - w) as u32))),
        w >= 32 ==> s.eval_e(Expr::RsRshift(Box::new(a), Box::new(b))) is None,
        w >= 32 ==> s.eval_e(Expr::RsLshift(Box::new(a), Box::new(b))) is None,
{
    assert forall|i: u32| i < 32 implies #[trigger] bit(v & w, i) == (bit(v, i) && bit(w, i)) by {
        assert(bit(v & w, i) == (bit(v, i) && bit(w, i))) by (bit_vector)
            requires
                i < 32,
        ;
    }
    assert forall|i: u32| i < 32 implies #[trigger] bit(v | w, i) == (bit(v, i) || bit(w, i)) by {
        assert(bit(v | w, i) == (bit(v, i) || bit(w, i))) by (bit_vector)
            requires
                i < 32,
        ;
    }
    assert forall|i: u32| i < 32 implies #[trigger] bit(v ^ w, i) == (bit(v, i) != bit(w, i)) by {
        assert(bit(v ^ w, i) == (bit(v, i) != bit(w, i))) by (bit_vector)
            requires
                i < 32,
        ;
    }
    assert forall|i: u32| i < 32 implies #[trigger] bit(!v, i) == !bit(v, i) by {
        assert(bit(!v, i) == !bit(v, i)) by (bit_vector)
            requires
                i < 32,
        ;
    }
    if w < 32 {
        assert forall|i: u32| i < 32 implies #[trigger] bit(v >> w, i) == (i + w < 32 && bit(
            v,
            (i + w) as u32,
        )) by {
            assert(bit(v >> w, i) == (i + w < 32 && bit(v, (i + w) as u32))) by (bit_vector)
                requires
                    i < 32,
                    w < 32,
            ;
        }
        assert forall|i: u32| i < 32 implies #[trigger] bit(v << w, i) == (i >= w && bit(
            v,
            (i - w) as u32,
        )) by {
            assert(bit(v << w, i) == (i >= w && bit(v, (i - w) as u32))) by (bit_vector)
                requires
                    i < 32,
                    w < 32,
            ;
        }
    }
}

/// Where a statement's result leads: TRY AGAIN starts over from the first
/// statement, GIVE UP ends the run with the number of statements executed,
/// and RESUME to statement `n` moves on from `n` as after any statement.
pub proof fn lemma_control_results(s: EvalView, p: Program, n: usize)
    ensures
        s.control(p, StmtRes::FromTop) == (
            EvalView { pctr: 0, phase: Phase::Fetch, ..s },
            ActionView::Continue,
        ),
        s.control(p, StmtRes::End) == (
            EvalView { phase: Phase::Done, ..s },
            ActionView::Finished(Ok(s.stmt_ctr)),
        ),
        s.control(p, StmtRes::Back(n)) == (EvalView { pctr: n, ..s }).come_from(p),
        s.control(p, StmtRes::Next) == s.come_from(p),
{
}

/// A failing statement ends the run with its error reported at the line the
/// statement is on the way to, or, for a NEXT to an existing label, at the
/// line of the labelled statement.
pub proof fn lemma_failure_line(s: EvalView, p: Program, e: ErrView)
    requires
        s.pctr < p.stmts@.len(),
        !(p.stmts@[s.pctr as int].body is DoNext),
    ensures
        s.fail(p, e) == (
            EvalView { phase: Phase::Done, ..s },
            ActionView::Finished(Err(ErrView { line: p.stmts@[s.pctr as int].props.onthewayto, ..e })),
        ),
{
}

/// Running off the end of the program finishes it: successfully (with the
/// number of statements executed) when the last statement is a TRY AGAIN,
/// else with IE633.
pub proof fn lemma_fall_off_end(s: EvalView, p: Program)
    requires
        s.pctr >= p.stmts@.len(),
        p.stmts@.len() > 0,
    ensures
        s.fetch(p).1 == (if p.stmts@[p.stmts@.len() - 1].body is TryAgain {
            ActionView::Finished(Ok(s.stmt_ctr))
        } else {
            ActionView::Finished(Err(ErrView { code: ErrCode::IE633, word: None, line: 0 }))
        }),
        s.fetch(p).0 == (EvalView { phase: Phase::Done, ..s }),
{
}

/// A statement whose chance does not come up does not run: it is counted,
/// the generator advances, and control moves on; a statement with a chance
/// of 0 never runs, one with a chance of 100 always does.
pub proof fn lemma_statement_chance(s: EvalView, p: Program)
    requires
        s.pctr < p.stmts@.len(),
        s.stmt_ctr < usize::MAX,
        s.pctr < s.abstain.len(),
        s.abstain[s.pctr as int] == 0,
    ensures
        ({
            let c = p.stmts@[s.pctr as int].props.chance;
            let s1 = EvalView { stmt_ctr: (s.stmt_ctr + 1) as usize, ..s };
            &&& c == 0 ==> s.fetch(p) == (EvalView { rand: next_rand(s.rand), ..s1 }).come_from(p)
            &&& c == 100 && !s.debug ==> s.fetch(p) == s1.run(p)
            &&& c == 100 && s.debug ==> s.fetch(p) == (
                EvalView { phase: Phase::Run, ..s1 },
                ActionView::Trace,
            )
            &&& !chance_spec(c, s.rand).0 ==> s.fetch(p) == (EvalView { rand: chance_spec(c, s.rand).1, ..s1 }).come_from(p)
        }),
{
}

/// Select at 16 bits agrees with Select at 32 bits on a 16-bit mask, and
/// its result fits in 16 bits; a mask wider than 16 bits is IE275.
pub proof fn lemma_select16_expression(s: EvalView, a: Expr, b: Expr, va: Val, vb: Val)
    requires
        s.eval_e(a) == Some(Ok::<Val, RtError>(va)),
        s.eval_e(b) == Some(Ok::<Val, RtError>(vb)),
    ensures
        vb.spec_as_u32() <= 0xffff ==> (s.eval_e(Expr::Select(VType::I32, Box::new(a), Box::new(b)))
            matches Some(Ok(Val::I32(r))) && r <= 0xffff && s.eval_e(
            Expr::Select(VType::I16, Box::new(a), Box::new(b)),
        ) == Some(Ok::<Val, RtError>(Val::I16(r as u16)))),
        vb.spec_as_u32() > 0xffff ==> (s.eval_e(Expr::Select(VType::I16, Box::new(a), Box::new(b)))
            matches Some(Err(e)) && e.code == ErrCode::IE275),
{
    lemma_select_bound(va.spec_as_u32() as nat, vb.spec_as_u32() as nat);
}

/// The error line of a failing NEXT: the line of the labelled statement when
/// the label exists, else the line the NEXT is on the way to.
pub proof fn lemma_next_failure_line(s: EvalView, p: Program, e: ErrView, l: u16)
    requires
        s.pctr < p.stmts@.len(),
        p.stmts@[s.pctr as int].body == StmtBody::DoNext(l),
    ensures
        p.labels@.dom().contains(l) && p.labels@[l] < p.stmts@.len() ==> s.fail(p, e) == (
            EvalView { phase: Phase::Done, ..s },
            ActionView::Finished(
                Err(ErrView { line: p.stmts@[p.labels@[l] as int].props.srcline, ..e }),
            ),
        ),
        !p.labels@.dom().contains(l) ==> s.fail(p, e) == (
            EvalView { phase: Phase::Done, ..s },
            ActionView::Finished(Err(ErrView { line: p.stmts@[s.pctr as int].props.onthewayto, ..e })),
        ),
{
}

/// ABSTAIN and REINSTATE by label change the counter of the labelled
/// statement alone (a GIVE UP is left alone); by gerund, the counter of
/// every statement of that kind and of no other.
pub proof fn lemma_abstain_targets(s: EvalView, p: Program, what: Abstain, op: AbstainOp)
    requires
        s.abstain.len() == p.stmts@.len(),
        p.stmt_types@.len() == p.stmts@.len(),
    ensures
        what matches Abstain::Label(l) ==> (p.labels@.dom().contains(l) && p.labels@[l]
            < p.stmts@.len() ==> (s.abstain_spec(p, what, op) matches Some(t) && t == EvalView {
            abstain: t.abstain,
            ..s
        } && t.abstain.len() == s.abstain.len() && forall|i: int|
            0 <= i < s.abstain.len() ==> #[trigger] t.abstain[i] == if i == p.labels@[l] as int
                && !(p.stmts@[i].body is GiveUp) {
                op.spec_apply(s.abstain[i])
            } else {
                s.abstain[i]
            })),
        !(what is Label) ==> (s.abstain_spec(p, what, op) matches Some(t) && t == EvalView {
            abstain: t.abstain,
            ..s
        } && t.abstain.len() == s.abstain.len() && forall|i: int|
            0 <= i < s.abstain.len() ==> #[trigger] t.abstain[i] == if p.stmt_types@[i] == what {
                op.spec_apply(s.abstain[i])
            } else {
                s.abstain[i]
            }),
{
}

/// The counters: ABSTAIN sets it to one, ABSTAIN n TIMES adds n (staying at
/// the largest counter once there), REINSTATE takes one off (staying at
/// zero); a statement runs only at zero.
pub proof fn lemma_abstain_counters(v: u32, n: u32)
    ensures
        AbstainOp::One.spec_apply(v) == 1,
        AbstainOp::Sub1.spec_apply(v) + 1 == v || (v == 0 && AbstainOp::Sub1.spec_apply(v) == 0),
        AbstainOp::Add(n).spec_apply(v) == v + n || (v + n > u32::MAX
            && AbstainOp::Add(n).spec_apply(v) == u32::MAX),
{
}

/// READ OUT of an array: each byte written is the bit-reversal of the new
/// output state, and each new state is the one before minus the element,
/// modulo 256.
pub proof fn lemma_readout_bytes<T: LikeU16>(vals: Seq<T>, s0: u8)
    ensures
        out_bytes(vals, s0).len() == vals.len(),
        forall|i: int, k: u8|
            0 <= i < vals.len() && k < 8 ==> (#[trigger] (out_bytes(vals, s0)[i] >> k)) & 1 == (out_state(
                vals.take(i + 1),
                s0,
            ) >> (7 - k) as u8) & 1,
        forall|i: int|
            0 <= i < vals.len() ==> #[trigger] out_state(vals.take(i + 1), s0) as int == (out_state(
                vals.take(i),
                s0,
            ) as int - vals[i].wide()) % 256,
{
    assert forall|i: int, k: u8|
        0 <= i < vals.len() && k < 8 implies (#[trigger] (out_bytes(vals, s0)[i] >> k)) & 1 == (out_state(
        vals.take(i + 1),
        s0,
    ) >> (7 - k) as u8) & 1 by {
        let b = out_state(vals.take(i + 1), s0);
        assert((crate::stdops::reverse_bits(b) >> k) & 1 == (b >> (7 - k) as u8) & 1) by (bit_vector)
            requires
                k < 8,
        ;
    }
    assert forall|i: int| 0 <= i < vals.len() implies #[trigger] out_state(vals.take(i + 1), s0) as int
        == (out_state(vals.take(i), s0) as int - vals[i].wide()) % 256 by {
        assert(vals.take(i + 1).drop_last() =~= vals.take(i));
        assert(vals.take(i + 1).last() == vals[i]);
    }
}

/// WRITE IN of bytes: each byte is stored as its difference from the byte
/// before it (from the input state for the first, from 0 after the end of
/// input), modulo 256; the end of input is stored as 256.
pub proof fn lemma_writein_values(input: Seq<u16>, s0: u8)
    requires
        forall|i: int| 0 <= i < input.len() ==> #[trigger] input[i] <= 256,
    ensures
        forall|i: int|
            0 <= i < input.len() ==> #[trigger] in_value(input, s0, i) == if input[i] == 256 {
                256
            } else {
                let prev: int = if i == 0 {
                    s0 as int
                } else if input[i - 1] == 256 {
                    0
                } else {
                    input[i - 1] as int
                };
                ((input[i] as int - prev) % 256) as nat
            },
{
    assert forall|i: int| 0 <= i < input.len() && i > 0 implies #[trigger] input.take(i).last()
        == input[i - 1] by {}
}

/// Spelled-out numbers are read most significant digit first: a single
/// digit reads as itself, leading zeros change nothing, and another digit
/// at the end multiplies what came before by ten and adds itself.
pub proof fn lemma_decimal_reading(ds: Seq<u8>, d: u8)
    ensures
        decimal_value(seq![d]) == d,
        decimal_value(seq![0u8] + ds) == decimal_value(ds),
        decimal_value(ds.push(d)) == 10 * decimal_value(ds) + d,
    decreases ds.len(),
{
    assert(seq![d].drop_last() =~= Seq::<u8>::empty());
    assert(decimal_value(Seq::<u8>::empty()) == 0);
    assert(decimal_value(seq![d]) == decimal_value(Seq::<u8>::empty()) * 10 + d);
    if ds.len() > 0 {
        let pre = ds.drop_last();
        lemma_decimal_reading(pre, ds.last());
        assert((seq![0u8] + ds).drop_last() =~= seq![0u8] + pre);
        assert((seq![0u8] + ds).last() == ds.last());
        assert(decimal_value(seq![0u8] + ds) == decimal_value(seq![0u8] + pre) * 10 + ds.last());
        assert(decimal_value(ds) == decimal_value(pre) * 10 + ds.last());
    } else {
        assert(seq![0u8] + ds =~= seq![0u8]);
        assert(seq![0u8].drop_last() =~= Seq::<u8>::empty());
        assert(decimal_value(seq![0u8]) == decimal_value(Seq::<u8>::empty()) * 10 + 0);
    }
    assert(ds.push(d).drop_last() =~= ds);
}

} // verus!
