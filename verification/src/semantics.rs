//! What a program does when it runs, and what the passes keep of it.
//!
//! A run starts from a state that gives every register a value (the
//! registers a program never assigns are its inputs), executes the
//! instructions in order, and yields the values printed plus whether it
//! ran to the end: an assignment whose operation has no result (a
//! division by zero) stops the run there.

use vstd::prelude::*;
use crate::ir::{SpecExpr, SpecInstr, SpecValue};
use crate::ir::{spec_apply, spec_uses, value_regs};
use crate::passes::{
    dce,
    fold_program,
    folded,
    keeps,
    known_after,
    live_in,
    live_step,
    prop_from,
    prop_instr,
    propagate_program,
    round_changed,
    changed_within,
    simp_bin,
    simplified,
    simplify_program,
    spec_pass,
    stage,
    subst,
};

verus! {

/// The state with register `r` set to `n`.
pub open spec fn update(st: spec_fn(Seq<char>) -> i64, r: Seq<char>, n: i64) -> spec_fn(
    Seq<char>,
) -> i64 {
    |x: Seq<char>| if x == r { n } else { st(x) }
}

pub open spec fn value_of(st: spec_fn(Seq<char>) -> i64, v: SpecValue) -> i64 {
    match v {
        SpecValue::Const(n) => n,
        SpecValue::Reg(r) => st(r),
    }
}

/// The value of an expression, or nothing for a division by zero.
pub open spec fn eval(st: spec_fn(Seq<char>) -> i64, e: SpecExpr) -> Option<i64> {
    match e {
        SpecExpr::Copy(v) => Some(value_of(st, v)),
        SpecExpr::Bin(a, op, b) => spec_apply(op, value_of(st, a), value_of(st, b)),
    }
}

/// Run `p` from state `st`: the values printed, in order, and whether
/// the run reached the end.
pub open spec fn run(p: Seq<SpecInstr>, st: spec_fn(Seq<char>) -> i64) -> (Seq<i64>, bool)
    decreases p.len(),
{
    if p.len() == 0 {
        (seq![], true)
    } else {
        match p[0] {
            SpecInstr::Print(v) => {
                let r = run(p.drop_first(), st);
                (seq![value_of(st, v)] + r.0, r.1)
            },
            SpecInstr::Assign { dst, expr } => match eval(st, expr) {
                None => (seq![], false),
                Some(n) => run(p.drop_first(), update(st, dst, n)),
            },
        }
    }
}

proof fn lemma_cons_instr(x: SpecInstr, s: Seq<SpecInstr>)
    ensures
        (seq![x] + s).len() == s.len() + 1,
        (seq![x] + s)[0] == x,
        (seq![x] + s).drop_first() == s,
{
    assert((seq![x] + s).drop_first() =~= s);
}

// ---------------------------------------------------------------------
// Constant folding
// ---------------------------------------------------------------------

/// Constant folding does not change what a program does: from every
/// state, the folded program prints the same values and stops at the
/// same point.
pub proof fn lemma_fold_preserves_run(p: Seq<SpecInstr>, st: spec_fn(Seq<char>) -> i64)
    ensures
        run(fold_program(p), st) == run(p, st),
    decreases p.len(),
{
    if p.len() > 0 {
        lemma_cons_instr(folded(p[0]), fold_program(p.drop_first()));
        match p[0] {
            SpecInstr::Print(v) => {
                lemma_fold_preserves_run(p.drop_first(), st);
            },
            SpecInstr::Assign { dst, expr } => {
                assert(eval(st, expr) == eval(st, folded(p[0])->Assign_expr));
                if let Some(n) = eval(st, expr) {
                    lemma_fold_preserves_run(p.drop_first(), update(st, dst, n));
                }
            },
        }
    }
}

// ---------------------------------------------------------------------
// Algebraic simplification
// ---------------------------------------------------------------------

proof fn lemma_simp_bin_value(st: spec_fn(Seq<char>) -> i64, a: SpecValue, op: crate::ir::BinOp, b: SpecValue)
    requires
        simp_bin(a, op, b) is Some,
    ensures
        spec_apply(op, value_of(st, a), value_of(st, b)) == Some(
            value_of(st, simp_bin(a, op, b)->Some_0),
        ),
{
    let x = value_of(st, a);
    let y = value_of(st, b);
    let range: int = 0x1_0000_0000_0000_0000;
    assert(x * 1 == x && 1 * y == y && x * 0 == 0 && 0 * y == 0) by (nonlinear_arith);
    if x >= 0 {
        assert((x as int) % range == x) by (nonlinear_arith)
            requires
                0 <= x < range,
        ;
    } else {
        assert((x as int) % range == x + range) by (nonlinear_arith)
            requires
                -range < x < 0,
        ;
    }
    if y >= 0 {
        assert((y as int) % range == y) by (nonlinear_arith)
            requires
                0 <= y < range,
        ;
    } else {
        assert((y as int) % range == y + range) by (nonlinear_arith)
            requires
                -range < y < 0,
        ;
    }
    assert(0int % range == 0);
    assert((x as int) / 1 == x);
    assert((x as int * -1) / 1 == x * -1);
}

/// Algebraic simplification does not change what a program does.
pub proof fn lemma_simplify_preserves_run(p: Seq<SpecInstr>, st: spec_fn(Seq<char>) -> i64)
    ensures
        run(simplify_program(p), st) == run(p, st),
    decreases p.len(),
{
    if p.len() > 0 {
        lemma_cons_instr(simplified(p[0]), simplify_program(p.drop_first()));
        match p[0] {
            SpecInstr::Print(v) => {
                lemma_simplify_preserves_run(p.drop_first(), st);
            },
            SpecInstr::Assign { dst, expr } => {
                if let SpecExpr::Bin(a, op, b) = expr {
                    if simp_bin(a, op, b) is Some {
                        lemma_simp_bin_value(st, a, op, b);
                    }
                }
                assert(eval(st, expr) == eval(st, simplified(p[0])->Assign_expr));
                if let Some(n) = eval(st, expr) {
                    lemma_simplify_preserves_run(p.drop_first(), update(st, dst, n));
                }
            },
        }
    }
}

// ---------------------------------------------------------------------
// Constant propagation
// ---------------------------------------------------------------------

/// Every register in `known` holds, in `st`, the constant recorded for it.
pub open spec fn known_holds(known: Map<Seq<char>, i64>, st: spec_fn(Seq<char>) -> i64) -> bool {
    forall|r: Seq<char>| #[trigger] known.contains_key(r) ==> st(r) == known[r]
}

proof fn lemma_subst_value(v: SpecValue, known: Map<Seq<char>, i64>, st: spec_fn(Seq<char>) -> i64)
    requires
        known_holds(known, st),
    ensures
        value_of(st, subst(v, known)) == value_of(st, v),
{
    if let SpecValue::Reg(r) = v {
        if known.contains_key(r) {
            assert(st(r) == known[r]);
        }
    }
}

proof fn lemma_prop_step(i: SpecInstr, known: Map<Seq<char>, i64>, st: spec_fn(Seq<char>) -> i64)
    requires
        known_holds(known, st),
        i is Assign,
    ensures
        prop_instr(i, known) is Assign,
        prop_instr(i, known)->Assign_dst == i->Assign_dst,
        eval(st, prop_instr(i, known)->Assign_expr) == eval(st, i->Assign_expr),
        eval(st, i->Assign_expr) matches Some(n) ==> known_holds(
            known_after(prop_instr(i, known), known),
            update(st, i->Assign_dst, n),
        ),
{
    let dst = i->Assign_dst;
    let expr = i->Assign_expr;
    match expr {
        SpecExpr::Copy(v) => {
            lemma_subst_value(v, known, st);
        },
        SpecExpr::Bin(a, op, b) => {
            lemma_subst_value(a, known, st);
            lemma_subst_value(b, known, st);
        },
    }
    if let Some(n) = eval(st, expr) {
        let k2 = known_after(prop_instr(i, known), known);
        let st2 = update(st, dst, n);
        assert forall|r: Seq<char>| #[trigger] k2.contains_key(r) implies st2(r) == k2[r] by {
            if r != dst {
                assert(known.contains_key(r));
            }
        }
    }
}

/// Propagating constants that hold in `st` does not change what the
/// rest of the program does from `st`.
pub proof fn lemma_prop_from_preserves_run(
    p: Seq<SpecInstr>,
    known: Map<Seq<char>, i64>,
    st: spec_fn(Seq<char>) -> i64,
)
    requires
        known_holds(known, st),
    ensures
        run(prop_from(p, known), st) == run(p, st),
    decreases p.len(),
{
    if p.len() > 0 {
        let ni = prop_instr(p[0], known);
        lemma_cons_instr(ni, prop_from(p.drop_first(), known_after(ni, known)));
        match p[0] {
            SpecInstr::Print(v) => {
                lemma_subst_value(v, known, st);
                lemma_prop_from_preserves_run(p.drop_first(), known, st);
            },
            SpecInstr::Assign { dst, expr } => {
                lemma_prop_step(p[0], known, st);
                if let Some(n) = eval(st, expr) {
                    lemma_prop_from_preserves_run(
                        p.drop_first(),
                        known_after(ni, known),
                        update(st, dst, n),
                    );
                }
            },
        }
    }
}

/// Constant propagation does not change what a program does.
pub proof fn lemma_propagate_preserves_run(p: Seq<SpecInstr>, st: spec_fn(Seq<char>) -> i64)
    ensures
        run(propagate_program(p), st) == run(p, st),
{
    lemma_prop_from_preserves_run(p, Map::empty(), st);
}

// ---------------------------------------------------------------------
// Dead code elimination
// ---------------------------------------------------------------------

/// Two states that give the registers in `regs` the same values.
pub open spec fn agree_on(
    st1: spec_fn(Seq<char>) -> i64,
    st2: spec_fn(Seq<char>) -> i64,
    regs: Set<Seq<char>>,
) -> bool {
    forall|r: Seq<char>| #[trigger] regs.contains(r) ==> st1(r) == st2(r)
}

proof fn lemma_value_agree(
    st1: spec_fn(Seq<char>) -> i64,
    st2: spec_fn(Seq<char>) -> i64,
    regs: Set<Seq<char>>,
    v: SpecValue,
)
    requires
        agree_on(st1, st2, regs),
        forall|r: Seq<char>| value_regs(v).contains(r) ==> regs.contains(r),
    ensures
        value_of(st1, v) == value_of(st2, v),
{
    if let SpecValue::Reg(r) = v {
        assert(value_regs(v)[0] == r);
        assert(value_regs(v).contains(r));
        assert(regs.contains(r));
    }
}

proof fn lemma_uses_agree(
    st1: spec_fn(Seq<char>) -> i64,
    st2: spec_fn(Seq<char>) -> i64,
    regs: Set<Seq<char>>,
    i: SpecInstr,
)
    requires
        i is Assign,
        agree_on(st1, st2, regs + spec_uses(i).to_set()),
    ensures
        eval(st1, i->Assign_expr) == eval(st2, i->Assign_expr),
{
    let all = regs + spec_uses(i).to_set();
    match i->Assign_expr {
        SpecExpr::Copy(v) => {
            assert forall|r: Seq<char>| value_regs(v).contains(r) implies all.contains(r) by {
                assert(spec_uses(i).to_set().contains(r));
            }
            lemma_value_agree(st1, st2, all, v);
        },
        SpecExpr::Bin(a, op, b) => {
            let u = spec_uses(i);
            assert(u == value_regs(a) + value_regs(b));
            assert forall|r: Seq<char>| value_regs(a).contains(r) implies all.contains(r) by {
                let k = choose|k: int| 0 <= k < value_regs(a).len() && value_regs(a)[k] == r;
                assert(u[k] == r);
                assert(u.contains(r));
            }
            assert forall|r: Seq<char>| value_regs(b).contains(r) implies all.contains(r) by {
                let k = choose|k: int| 0 <= k < value_regs(b).len() && value_regs(b)[k] == r;
                assert(u[value_regs(a).len() + k] == r);
                assert(u.contains(r));
            }
            lemma_value_agree(st1, st2, all, a);
            lemma_value_agree(st1, st2, all, b);
        },
    }
}

/// Dead code elimination, run from a state that agrees with the
/// original's on the registers the program needs, does what the
/// original does whenever the original runs to the end.
pub proof fn lemma_dce_agreeing_run(
    p: Seq<SpecInstr>,
    st1: spec_fn(Seq<char>) -> i64,
    st2: spec_fn(Seq<char>) -> i64,
)
    requires
        agree_on(st1, st2, live_in(p)),
        run(p, st1).1,
    ensures
        run(dce(p), st2) == run(p, st1),
    decreases p.len(),
{
    if p.len() > 0 {
        let rest = p.drop_first();
        let live = live_in(rest);
        match p[0] {
            SpecInstr::Print(v) => {
                lemma_cons_instr(p[0], dce(rest));
                assert(live_in(p) == live + spec_uses(p[0]).to_set());
                assert forall|r: Seq<char>| value_regs(v).contains(r) implies live_in(p).contains(
                    r,
                ) by {
                    assert(spec_uses(p[0]).to_set().contains(r));
                }
                lemma_value_agree(st1, st2, live_in(p), v);
                assert forall|r: Seq<char>| #[trigger] live.contains(r) implies st1(r) == st2(r) by {
                    assert(live_in(p).contains(r));
                }
                lemma_dce_agreeing_run(rest, st1, st2);
            },
            SpecInstr::Assign { dst, expr } => {
                let n = eval(st1, expr)->Some_0;
                if live.contains(dst) {
                    lemma_cons_instr(p[0], dce(rest));
                    assert(live_in(p) == live.remove(dst) + spec_uses(p[0]).to_set());
                    assert(agree_on(st1, st2, live.remove(dst) + spec_uses(p[0]).to_set()));
                    lemma_uses_agree(st1, st2, live.remove(dst), p[0]);
                    let s1 = update(st1, dst, n);
                    let s2 = update(st2, dst, n);
                    assert forall|r: Seq<char>| #[trigger] live.contains(r) implies s1(r) == s2(
                        r,
                    ) by {
                        if r != dst {
                            assert(live_in(p).contains(r));
                        }
                    }
                    lemma_dce_agreeing_run(rest, s1, s2);
                } else {
                    assert(live_in(p) == live);
                    let s1 = update(st1, dst, n);
                    assert forall|r: Seq<char>| #[trigger] live.contains(r) implies s1(r) == st2(
                        r,
                    ) by {
                        assert(live_in(p).contains(r));
                    }
                    lemma_dce_agreeing_run(rest, s1, st2);
                }
            },
        }
    }
}

/// Dead code elimination does not change what a program does when the
/// program runs to the end. (A removed assignment may have been a
/// division by zero: then the original stops and the result runs on.)
pub proof fn lemma_dce_preserves_run(p: Seq<SpecInstr>, st: spec_fn(Seq<char>) -> i64)
    requires
        run(p, st).1,
    ensures
        run(dce(p), st) == run(p, st),
{
    lemma_dce_agreeing_run(p, st, st);
}

/// The prints of a program, in order.
pub open spec fn prints(p: Seq<SpecInstr>) -> Seq<SpecValue>
    decreases p.len(),
{
    if p.len() == 0 {
        seq![]
    } else {
        match p[0] {
            SpecInstr::Print(v) => seq![v] + prints(p.drop_first()),
            SpecInstr::Assign { .. } => prints(p.drop_first()),
        }
    }
}

/// Dead code elimination keeps every print, unchanged and in order.
pub proof fn lemma_dce_keeps_prints(p: Seq<SpecInstr>)
    ensures
        prints(dce(p)) == prints(p),
    decreases p.len(),
{
    if p.len() > 0 {
        lemma_dce_keeps_prints(p.drop_first());
        if keeps(p[0], live_in(p.drop_first())) {
            lemma_cons_instr(p[0], dce(p.drop_first()));
        }
    }
}

// ---------------------------------------------------------------------
// The pipeline
// ---------------------------------------------------------------------

/// Every pass keeps what a program does when the program runs to the
/// end.
pub proof fn lemma_pass_preserves_run(j: int, p: Seq<SpecInstr>, st: spec_fn(Seq<char>) -> i64)
    requires
        run(p, st).1,
    ensures
        run(spec_pass(j, p), st) == run(p, st),
{
    if j == 0 {
        lemma_fold_preserves_run(p, st);
    } else if j == 1 {
        lemma_propagate_preserves_run(p, st);
    } else if j == 2 {
        lemma_simplify_preserves_run(p, st);
    } else {
        lemma_dce_preserves_run(p, st);
    }
}

/// However many passes of the pipeline have run, the program does what
/// the original does whenever the original runs to the end; in
/// particular the final program of `optimize`, which is stage
/// `4 * iterations`.
pub proof fn lemma_pipeline_preserves_run(p: Seq<SpecInstr>, k: nat, st: spec_fn(Seq<char>) -> i64)
    requires
        run(p, st).1,
    ensures
        run(stage(p, k), st) == run(p, st),
    decreases k,
{
    if k > 0 {
        lemma_pipeline_preserves_run(p, (k - 1) as nat, st);
        lemma_pass_preserves_run(((k - 1) % 4) as int, stage(p, (k - 1) as nat), st);
    }
}

/// A round that changes nothing ends at a fixed point: none of the four
/// passes changes the program it leaves. This is what `optimize` reports
/// with `hit_cap == false` about its final round.
pub proof fn lemma_quiet_round_is_fixed_point(p: Seq<SpecInstr>, r: nat)
    requires
        !round_changed(p, r as int),
    ensures
        stage(p, 4 * r + 4) == stage(p, 4 * r),
        forall|j: int| 0 <= j < 4 ==> #[trigger] spec_pass(j, stage(p, 4 * r + 4)) == stage(p, 4 * r + 4),
{
    let b = 4 * r;
    assert(!changed_within(p, b, 4));
    assert(!changed_within(p, b, 3));
    assert(!changed_within(p, b, 2));
    assert(!changed_within(p, b, 1));
    assert(stage(p, b + 1) == stage(p, b));
    assert(stage(p, b + 2) == stage(p, b + 1));
    assert(stage(p, b + 3) == stage(p, b + 2));
    assert(stage(p, b + 4) == stage(p, b + 3));
    assert((b + 0) % 4 == 0 && (b + 1) % 4 == 1 && (b + 2) % 4 == 2 && (b + 3) % 4 == 3)
        by (nonlinear_arith)
        requires
            b == 4 * r,
    ;
    assert(stage(p, b + 1) == spec_pass(0, stage(p, b)));
    assert(stage(p, b + 2) == spec_pass(1, stage(p, b + 1)));
    assert(stage(p, b + 3) == spec_pass(2, stage(p, b + 2)));
    assert(stage(p, b + 4) == spec_pass(3, stage(p, b + 3)));
}

} // verus!
