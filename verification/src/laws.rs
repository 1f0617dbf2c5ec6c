//! What each pass does, stated position by position over its input and
//! output, and what the notes and listings of a run hold.

use vstd::prelude::*;
use crate::ir::{BinOp, SpecExpr, SpecInstr, SpecValue};
use crate::ir::{spec_apply, spec_uses, trunc_div, lemma_trunc_div_in_range};
use crate::passes::{
    changed_notes,
    dce_notes,
    fold_instr,
    fold_notes,
    prop_notes_from,
    propagate_notes,
    removed_note,
    rewrite_note,
    simp_instr,
    simplify_notes,
    dce,
    fold_program,
    folded,
    keeps,
    known_after,
    live_in,
    prop_from,
    prop_instr,
    propagate_program,
    simplified,
    simplify_program,
    subst,
    PassReport,
};
use crate::render::{note_lines, report_block, report_blocks, stderr_text, stdout_text};
use crate::passes::{pass_name_text, spec_pass, OptimizeResult};
use crate::ir::program_text;
use crate::store::views_of;

verus! {

proof fn lemma_cons<A>(x: A, s: Seq<A>)
    ensures
        (seq![x] + s).len() == s.len() + 1,
        (seq![x] + s)[0] == x,
        (seq![x] + s).drop_first() == s,
        forall|i: int| 0 < i < s.len() + 1 ==> (seq![x] + s)[i] == s[i - 1],
{
    assert((seq![x] + s).drop_first() =~= s);
}

// ---------------------------------------------------------------------
// Constant folding
// ---------------------------------------------------------------------

/// What folding does to one instruction: an assignment of `a op b` over
/// two constants whose operation has a result `r` becomes `dst = r`;
/// everything else stays.
pub open spec fn fold_expected(i: SpecInstr) -> SpecInstr {
    match i {
        SpecInstr::Assign { dst, expr: SpecExpr::Bin(SpecValue::Const(a), op, SpecValue::Const(b)) } => {
            match spec_apply(op, a, b) {
                Some(r) => SpecInstr::Assign { dst, expr: SpecExpr::Copy(SpecValue::Const(r)) },
                None => i,
            }
        },
        _ => i,
    }
}

/// Folding keeps the length of a program, and at every position replaces
/// an assignment of an operation on two constants that has a result by
/// that result, leaving every other instruction as it was.
pub proof fn lemma_fold_positions(p: Seq<SpecInstr>)
    ensures
        fold_program(p).len() == p.len(),
        forall|i: int| 0 <= i < p.len() ==> #[trigger] fold_program(p)[i] == fold_expected(p[i]),
    decreases p.len(),
{
    if p.len() > 0 {
        lemma_fold_positions(p.drop_first());
        lemma_cons(folded(p[0]), fold_program(p.drop_first()));
        assert forall|i: int| 0 <= i < p.len() implies #[trigger] fold_program(p)[i]
            == fold_expected(p[i]) by {
            if i > 0 {
                assert(p[i] == p.drop_first()[i - 1]);
            }
        }
    }
}

// ---------------------------------------------------------------------
// Constant propagation
// ---------------------------------------------------------------------

/// The expression last assigned to `r` in `q`, if any.
pub open spec fn last_assigned(q: Seq<SpecInstr>, r: Seq<char>) -> Option<SpecExpr>
    decreases q.len(),
{
    if q.len() == 0 {
        None
    } else {
        match q.last() {
            SpecInstr::Assign { dst, expr } => if dst == r {
                Some(expr)
            } else {
                last_assigned(q.drop_last(), r)
            },
            SpecInstr::Print(_) => last_assigned(q.drop_last(), r),
        }
    }
}

/// The constant `r` holds after `q`, when the last assignment to `r` in
/// `q` is a copy of a constant.
pub open spec fn constant_after(q: Seq<SpecInstr>, r: Seq<char>) -> Option<i64> {
    match last_assigned(q, r) {
        Some(SpecExpr::Copy(SpecValue::Const(n))) => Some(n),
        _ => None,
    }
}

/// An operand with a register replaced by the constant it holds after `q`.
pub open spec fn value_after(v: SpecValue, q: Seq<SpecInstr>) -> SpecValue {
    match v {
        SpecValue::Reg(r) => match constant_after(q, r) {
            Some(n) => SpecValue::Const(n),
            None => v,
        },
        SpecValue::Const(_) => v,
    }
}

/// An instruction with every operand replaced as `value_after` says.
pub open spec fn instr_after(i: SpecInstr, q: Seq<SpecInstr>) -> SpecInstr {
    match i {
        SpecInstr::Assign { dst, expr } => SpecInstr::Assign {
            dst,
            expr: match expr {
                SpecExpr::Copy(v) => SpecExpr::Copy(value_after(v, q)),
                SpecExpr::Bin(a, op, b) => SpecExpr::Bin(value_after(a, q), op, value_after(b, q)),
            },
        },
        SpecInstr::Print(v) => SpecInstr::Print(value_after(v, q)),
    }
}

/// The map `known` records, for every register, the constant it holds
/// after `q`.
pub open spec fn known_matches(known: Map<Seq<char>, i64>, q: Seq<SpecInstr>) -> bool {
    forall|r: Seq<char>|
        #![trigger known.contains_key(r)]
        #![trigger constant_after(q, r)]
        (known.contains_key(r) <==> constant_after(q, r) is Some) && (known.contains_key(r)
            ==> known[r] == constant_after(q, r)->Some_0)
}

proof fn lemma_known_step(known: Map<Seq<char>, i64>, q: Seq<SpecInstr>, ni: SpecInstr)
    requires
        known_matches(known, q),
    ensures
        known_matches(known_after(ni, known), q.push(ni)),
{
    let k2 = known_after(ni, known);
    let q2 = q.push(ni);
    assert(q2.drop_last() =~= q);
    assert(q2.last() == ni);
    assert forall|r: Seq<char>|
        (k2.contains_key(r) <==> constant_after(q2, r) is Some) && (k2.contains_key(r) ==> k2[r]
            == constant_after(q2, r)->Some_0) by {
        assert(known.contains_key(r) <==> constant_after(q, r) is Some);
    }
}

proof fn lemma_subst_matches(v: SpecValue, known: Map<Seq<char>, i64>, q: Seq<SpecInstr>)
    requires
        known_matches(known, q),
    ensures
        subst(v, known) == value_after(v, q),
{
    if let SpecValue::Reg(r) = v {
        assert(known.contains_key(r) <==> constant_after(q, r) is Some);
    }
}

proof fn lemma_prop_from_positions(p: Seq<SpecInstr>, known: Map<Seq<char>, i64>, q: Seq<SpecInstr>)
    requires
        known_matches(known, q),
    ensures
        prop_from(p, known).len() == p.len(),
        forall|i: int|
            0 <= i < p.len() ==> #[trigger] prop_from(p, known)[i] == instr_after(
                p[i],
                q + prop_from(p, known).take(i),
            ),
    decreases p.len(),
{
    if p.len() > 0 {
        let ni = prop_instr(p[0], known);
        let k2 = known_after(ni, known);
        let rest = prop_from(p.drop_first(), k2);
        let out = prop_from(p, known);
        lemma_cons(ni, rest);
        match p[0] {
            SpecInstr::Assign { dst, expr } => match expr {
                SpecExpr::Copy(v) => {
                    lemma_subst_matches(v, known, q);
                },
                SpecExpr::Bin(a, op, b) => {
                    lemma_subst_matches(a, known, q);
                    lemma_subst_matches(b, known, q);
                },
            },
            SpecInstr::Print(v) => {
                lemma_subst_matches(v, known, q);
            },
        }
        assert(q + out.take(0) =~= q);
        lemma_known_step(known, q, ni);
        lemma_prop_from_positions(p.drop_first(), k2, q.push(ni));
        assert forall|i: int| 0 <= i < p.len() implies #[trigger] out[i] == instr_after(
            p[i],
            q + out.take(i),
        ) by {
            if i > 0 {
                assert(p[i] == p.drop_first()[i - 1]);
                assert(q + out.take(i) =~= q.push(ni) + rest.take(i - 1));
            }
        }
    }
}

/// Propagation keeps the length of a program, and at every position
/// replaces each register operand by the constant the register holds at
/// that point of the result: the one its last assignment before that
/// position copied, if that assignment copied a constant. A register
/// assigned anything else, or never assigned, is left as it is; an
/// assignment to one register leaves what is known of every other one.
pub proof fn lemma_propagate_positions(p: Seq<SpecInstr>)
    ensures
        propagate_program(p).len() == p.len(),
        forall|i: int|
            0 <= i < p.len() ==> #[trigger] propagate_program(p)[i] == instr_after(
                p[i],
                propagate_program(p).take(i),
            ),
{
    let q = Seq::<SpecInstr>::empty();
    assert forall|r: Seq<char>|
        (Map::<Seq<char>, i64>::empty().contains_key(r) <==> constant_after(q, r) is Some) && (
        Map::<Seq<char>, i64>::empty().contains_key(r) ==> Map::<Seq<char>, i64>::empty()[r]
            == constant_after(q, r)->Some_0) by {}
    lemma_prop_from_positions(p, Map::empty(), q);
    let out = propagate_program(p);
    assert forall|i: int| 0 <= i < p.len() implies #[trigger] out[i] == instr_after(
        p[i],
        out.take(i),
    ) by {
        assert(q + out.take(i) =~= out.take(i));
    }
}

// ---------------------------------------------------------------------
// Algebraic simplification
// ---------------------------------------------------------------------

/// `a op b` is one of the identities: `x + 0`, `0 + x`, `x - 0`, `x * 1`,
/// `1 * x`, `x / 1`, `x * 0`, `0 * x`.
pub open spec fn is_identity(a: SpecValue, op: BinOp, b: SpecValue) -> bool {
    ||| op == BinOp::Add && (b == SpecValue::Const(0) || a == SpecValue::Const(0))
    ||| op == BinOp::Sub && b == SpecValue::Const(0)
    ||| op == BinOp::Mul && (b == SpecValue::Const(1) || a == SpecValue::Const(1) || b
        == SpecValue::Const(0) || a == SpecValue::Const(0))
    ||| op == BinOp::Div && b == SpecValue::Const(1)
}

pub open spec fn has_identity(i: SpecInstr) -> bool {
    match i {
        SpecInstr::Assign { expr: SpecExpr::Bin(a, op, b), .. } => is_identity(a, op, b),
        _ => false,
    }
}

/// Simplification keeps the length of a program, rewrites exactly the
/// assignments that are identities, each into a copy to the same
/// register, and leaves no identity behind.
pub proof fn lemma_simplify_positions(p: Seq<SpecInstr>)
    ensures
        simplify_program(p).len() == p.len(),
        forall|i: int|
            0 <= i < p.len() ==> !has_identity(#[trigger] simplify_program(p)[i]),
        forall|i: int|
            0 <= i < p.len() ==> (#[trigger] simplify_program(p)[i] != p[i] <==> has_identity(
                p[i],
            )),
        forall|i: int|
            0 <= i < p.len() && has_identity(p[i]) ==> (#[trigger] simplify_program(p)[i] matches SpecInstr::Assign {
                dst,
                expr: SpecExpr::Copy(_),
            } && dst == p[i]->Assign_dst),
    decreases p.len(),
{
    if p.len() > 0 {
        lemma_simplify_positions(p.drop_first());
        lemma_cons(simplified(p[0]), simplify_program(p.drop_first()));
        assert forall|i: int| 0 <= i < p.len() implies {
            &&& !has_identity(#[trigger] simplify_program(p)[i])
            &&& (simplify_program(p)[i] != p[i] <==> has_identity(p[i]))
            &&& (has_identity(p[i]) ==> (simplify_program(p)[i] matches SpecInstr::Assign {
                dst,
                expr: SpecExpr::Copy(_),
            } && dst == p[i]->Assign_dst))
        } by {
            if i > 0 {
                assert(p[i] == p.drop_first()[i - 1]);
            }
        }
    }
}

// ---------------------------------------------------------------------
// Dead code elimination
// ---------------------------------------------------------------------

pub open spec fn writes(i: SpecInstr, r: Seq<char>) -> bool {
    match i {
        SpecInstr::Assign { dst, .. } => dst == r,
        SpecInstr::Print(_) => false,
    }
}

/// `r` is read in `q` before anything in `q` overwrites it.
pub open spec fn read_before_overwritten(q: Seq<SpecInstr>, r: Seq<char>) -> bool
    decreases q.len(),
{
    if q.len() == 0 {
        false
    } else {
        spec_uses(q[0]).contains(r) || (!writes(q[0], r) && read_before_overwritten(
            q.drop_first(),
            r,
        ))
    }
}

proof fn lemma_live_is_read(s: Seq<SpecInstr>, r: Seq<char>)
    ensures
        live_in(s).contains(r) <==> read_before_overwritten(dce(s), r),
    decreases s.len(),
{
    if s.len() > 0 {
        let rest = s.drop_first();
        lemma_live_is_read(rest, r);
        if keeps(s[0], live_in(rest)) {
            lemma_cons(s[0], dce(rest));
        }
    }
}

/// The result of dead code elimination is a part of the program, in
/// order: it keeps every print, and every assignment it keeps is read
/// later in the result before it is overwritten.
pub proof fn lemma_dce_leaves_no_dead_assignment(s: Seq<SpecInstr>)
    ensures
        dce(s).len() <= s.len(),
        forall|i: int|
            0 <= i < dce(s).len() ==> (#[trigger] dce(s)[i] is Assign ==> read_before_overwritten(
                dce(s).skip(i + 1),
                dce(s)[i]->Assign_dst,
            )),
        forall|i: int| 0 <= i < dce(s).len() ==> s.contains(#[trigger] dce(s)[i]),
    decreases s.len(),
{
    if s.len() > 0 {
        let rest = s.drop_first();
        let d = dce(s);
        lemma_dce_leaves_no_dead_assignment(rest);
        assert forall|i: int| 0 <= i < dce(rest).len() implies s.contains(#[trigger] dce(rest)[i]) by {
            let k = choose|k: int| 0 <= k < rest.len() && rest[k] == dce(rest)[i];
            assert(s[k + 1] == rest[k]);
        }
        if keeps(s[0], live_in(rest)) {
            lemma_cons(s[0], dce(rest));
            assert forall|i: int| 0 <= i < d.len() implies {
                &&& (#[trigger] d[i] is Assign ==> read_before_overwritten(
                    d.skip(i + 1),
                    d[i]->Assign_dst,
                ))
                &&& s.contains(d[i])
            } by {
                if i == 0 {
                    assert(d.skip(1) =~= dce(rest));
                    assert(s[0] == d[0]);
                    if d[0] is Assign {
                        lemma_live_is_read(rest, d[0]->Assign_dst);
                    }
                } else {
                    assert(d.skip(i + 1) =~= dce(rest).skip(i));
                    assert(d[i] == dce(rest)[i - 1]);
                }
            }
        }
    }
}

// ---------------------------------------------------------------------
// Notes of a run
// ---------------------------------------------------------------------

/// The notes a report contributes: all of its notes if its pass changed
/// the program, none otherwise.
pub open spec fn report_notes(r: PassReport) -> Seq<Seq<char>> {
    if r.before@ != r.after@ {
        views_of(r.notes@)
    } else {
        seq![]
    }
}

/// The notes of a run are the notes of every report whose pass changed
/// the program, whatever its round, concatenated in the order the passes
/// ran.
pub proof fn lemma_changed_notes_concat(rs: Seq<PassReport>)
    ensures
        changed_notes(rs) == rs.map_values(|r: PassReport| report_notes(r)).flatten(),
    decreases rs.len(),
{
    let m = rs.map_values(|r: PassReport| report_notes(r));
    lemma_changed_notes_alt(rs);
    m.lemma_flatten_and_flatten_alt_are_equivalent();
}

proof fn lemma_changed_notes_alt(rs: Seq<PassReport>)
    ensures
        changed_notes(rs) == rs.map_values(|r: PassReport| report_notes(r)).flatten_alt(),
    decreases rs.len(),
{
    let m = rs.map_values(|r: PassReport| report_notes(r));
    if rs.len() == 0 {
        assert(m =~= Seq::<Seq<Seq<char>>>::empty());
    } else {
        lemma_changed_notes_alt(rs.drop_last());
        assert(m.drop_last() =~= rs.drop_last().map_values(|r: PassReport| report_notes(r)));
        assert(m.last() == report_notes(rs.last()));
    }
}

// ---------------------------------------------------------------------
// The pass-by-pass listing
// ---------------------------------------------------------------------

/// The text a report contributes to the listing: its block if its pass
/// changed the program, nothing otherwise.
pub open spec fn report_text(r: PassReport) -> Seq<char> {
    if r.before@ != r.after@ {
        report_block(r)
    } else {
        seq![]
    }
}

proof fn lemma_report_blocks_alt(rs: Seq<PassReport>)
    ensures
        report_blocks(rs) == rs.map_values(|r: PassReport| report_text(r)).flatten_alt(),
    decreases rs.len(),
{
    let m = rs.map_values(|r: PassReport| report_text(r));
    if rs.len() == 0 {
        assert(m =~= Seq::<Seq<char>>::empty());
    } else {
        lemma_report_blocks_alt(rs.drop_last());
        assert(m.drop_last() =~= rs.drop_last().map_values(|r: PassReport| report_text(r)));
        assert(m.last() == report_text(rs.last()));
    }
}

/// The listing shows the block of every report whose pass changed the
/// program, whatever its round, in the order the passes ran, and
/// nothing else.
pub proof fn lemma_report_blocks_concat(rs: Seq<PassReport>)
    ensures
        report_blocks(rs) == rs.map_values(|r: PassReport| report_text(r)).flatten(),
{
    let m = rs.map_values(|r: PassReport| report_text(r));
    lemma_report_blocks_alt(rs);
    m.lemma_flatten_and_flatten_alt_are_equivalent();
}

// ---------------------------------------------------------------------
// What an operator computes
// ---------------------------------------------------------------------

/// `r` and `x` are equal modulo 2^64.
pub open spec fn same_mod_2_64(r: int, x: int) -> bool {
    (r - x) % 0x1_0000_0000_0000_0000int == 0
}

pub open spec fn abs(x: int) -> int {
    if x < 0 {
        -x
    } else {
        x
    }
}

proof fn lemma_multiple_of_range(k: int)
    ensures
        (k * 0x1_0000_0000_0000_0000int) % 0x1_0000_0000_0000_0000int == 0,
{
    vstd::arithmetic::div_mod::lemma_mod_multiples_basic(k, 0x1_0000_0000_0000_0000int);
}

proof fn lemma_rem_bounds(p: int, q: int)
    requires
        p >= 0,
        q > 0,
    ensures
        0 <= p - (p / q) * q < q,
{
    vstd::arithmetic::div_mod::lemma_fundamental_div_mod(p, q);
    vstd::arithmetic::div_mod::lemma_mod_pos_bound(p, q);
    assert(p - (p / q) * q == p % q) by (nonlinear_arith)
        requires
            p == q * (p / q) + (p % q),
    ;
}

/// What each operator computes on two constants: `+ - *` the exact
/// result taken modulo 2^64 (in the range of `i64`); `/` nothing for a
/// zero divisor, `i64::MIN` for `i64::MIN / -1`, and otherwise the
/// quotient rounded toward zero, so that the remainder is smaller than
/// the divisor and has the sign of the dividend; the comparisons `1`
/// when they hold and `0` when they do not.
pub proof fn lemma_apply_meaning(op: BinOp, a: i64, b: i64)
    ensures
        op == BinOp::Add ==> spec_apply(op, a, b) is Some && same_mod_2_64(
            spec_apply(op, a, b)->Some_0 as int,
            a + b,
        ),
        op == BinOp::Sub ==> spec_apply(op, a, b) is Some && same_mod_2_64(
            spec_apply(op, a, b)->Some_0 as int,
            a - b,
        ),
        op == BinOp::Mul ==> spec_apply(op, a, b) is Some && same_mod_2_64(
            spec_apply(op, a, b)->Some_0 as int,
            a * b,
        ),
        op == BinOp::Div ==> (spec_apply(op, a, b) is None <==> b == 0),
        op == BinOp::Div && a == i64::MIN && b == -1 ==> spec_apply(op, a, b) == Some(i64::MIN),
        op == BinOp::Div && b != 0 && !(a == i64::MIN && b == -1) ==> ({
            let q = spec_apply(op, a, b)->Some_0 as int;
            let m = a - q * b;
            &&& spec_apply(op, a, b) is Some
            &&& abs(m) < abs(b as int)
            &&& (a > 0 ==> m >= 0)
            &&& (a < 0 ==> m <= 0)
        }),
        op == BinOp::Eq ==> spec_apply(op, a, b) == Some(if a == b { 1i64 } else { 0i64 }),
        op == BinOp::Ne ==> spec_apply(op, a, b) == Some(if a != b { 1i64 } else { 0i64 }),
        op == BinOp::Lt ==> spec_apply(op, a, b) == Some(if a < b { 1i64 } else { 0i64 }),
        op == BinOp::Le ==> spec_apply(op, a, b) == Some(if a <= b { 1i64 } else { 0i64 }),
        op == BinOp::Gt ==> spec_apply(op, a, b) == Some(if a > b { 1i64 } else { 0i64 }),
        op == BinOp::Ge ==> spec_apply(op, a, b) == Some(if a >= b { 1i64 } else { 0i64 }),
{
    let big: int = 0x1_0000_0000_0000_0000int;
    lemma_multiple_of_range(0);
    lemma_multiple_of_range(1);
    lemma_multiple_of_range(-1);
    assert(0int % big == 0);
    if op == BinOp::Mul {
        let x = a * b;
        vstd::arithmetic::div_mod::lemma_fundamental_div_mod(x, big);
        lemma_multiple_of_range(-(x / big));
        lemma_multiple_of_range(-(x / big) - 1);
        assert(x % big - x == (-(x / big)) * big) by (nonlinear_arith)
            requires
                x == big * (x / big) + (x % big),
        ;
        assert(x % big - big - x == (-(x / big) - 1) * big) by (nonlinear_arith)
            requires
                x == big * (x / big) + (x % big),
        ;
    }
    if op == BinOp::Div && b != 0 && !(a == i64::MIN && b == -1) {
        lemma_trunc_div_in_range(a, b);
        let x = a as int;
        let d = b as int;
        let q = trunc_div(x, d);
        if x > 0 && d > 0 {
            lemma_rem_bounds(x, d);
        } else if x < 0 && d < 0 {
            lemma_rem_bounds(-x, -d);
            assert(x - q * d == -((-x) - ((-x) / (-d)) * (-d))) by (nonlinear_arith)
                requires
                    q == (x * -1) / (d * -1),
            ;
        } else if x < 0 && d > 0 {
            lemma_rem_bounds(-x, d);
            assert(x - q * d == -((-x) - ((-x) / d) * d)) by (nonlinear_arith)
                requires
                    q == ((x * -1) / d) * -1,
            ;
        } else if x > 0 && d < 0 {
            lemma_rem_bounds(x, -d);
            assert(x - q * d == x - (x / (-d)) * (-d)) by (nonlinear_arith)
                requires
                    q == (x / (d * -1)) * -1,
            ;
        } else {
            assert(q * d == 0) by (nonlinear_arith)
                requires
                    q == 0,
            ;
        }
    }
}

// ---------------------------------------------------------------------
// Notes of each pass
// ---------------------------------------------------------------------

/// The note for one position: one line when the pass changed the
/// instruction there, none when it did not.
pub open spec fn change_note(prefix: Seq<char>, old: SpecInstr, new: SpecInstr) -> Seq<Seq<char>> {
    if old != new {
        seq![rewrite_note(prefix, old, new)]
    } else {
        seq![]
    }
}

/// The notes for a rewrite of `before` into `after`, position by
/// position, in program order.
pub open spec fn notes_of_changes(
    prefix: Seq<char>,
    before: Seq<SpecInstr>,
    after: Seq<SpecInstr>,
) -> Seq<Seq<char>> {
    Seq::new(before.len(), |i: int| change_note(prefix, before[i], after[i])).flatten()
}

proof fn lemma_notes_of_changes_cons(prefix: Seq<char>, before: Seq<SpecInstr>, after: Seq<SpecInstr>)
    requires
        before.len() == after.len(),
    ensures
        before.len() == 0 ==> notes_of_changes(prefix, before, after) == Seq::<Seq<char>>::empty(),
        before.len() > 0 ==> notes_of_changes(prefix, before, after) == change_note(
            prefix,
            before[0],
            after[0],
        ) + notes_of_changes(prefix, before.drop_first(), after.drop_first()),
{
    let m = Seq::new(before.len(), |i: int| change_note(prefix, before[i], after[i]));
    if before.len() > 0 {
        assert(m.drop_first() =~= Seq::new(
            before.drop_first().len(),
            |i: int| change_note(prefix, before.drop_first()[i], after.drop_first()[i]),
        ));
    } else {
        assert(m =~= Seq::<Seq<Seq<char>>>::empty());
    }
}

/// Folding writes one note for each instruction it changed, naming the
/// instruction before and after, in program order, and no other note.
pub proof fn lemma_fold_notes(p: Seq<SpecInstr>)
    ensures
        fold_notes(p) == notes_of_changes("constant folding: `"@, p, fold_program(p)),
    decreases p.len(),
{
    lemma_fold_positions(p);
    lemma_notes_of_changes_cons("constant folding: `"@, p, fold_program(p));
    if p.len() > 0 {
        lemma_fold_notes(p.drop_first());
        lemma_cons(folded(p[0]), fold_program(p.drop_first()));
        if let Some(n) = fold_instr(p[0]) {
            assert(n != p[0]);
        }
    }
}

/// Simplification writes one note for each instruction it changed, in
/// program order, and no other note.
pub proof fn lemma_simplify_notes(p: Seq<SpecInstr>)
    ensures
        simplify_notes(p) == notes_of_changes("algebraic simplification: `"@, p, simplify_program(p)),
    decreases p.len(),
{
    lemma_simplify_positions(p);
    lemma_notes_of_changes_cons("algebraic simplification: `"@, p, simplify_program(p));
    if p.len() > 0 {
        lemma_simplify_notes(p.drop_first());
        lemma_cons(simplified(p[0]), simplify_program(p.drop_first()));
        if let Some(n) = simp_instr(p[0]) {
            assert(n != p[0]);
        }
    }
}

proof fn lemma_prop_notes_from(p: Seq<SpecInstr>, known: Map<Seq<char>, i64>)
    ensures
        prop_from(p, known).len() == p.len(),
        prop_notes_from(p, known) == notes_of_changes(
            "constant propagation: `"@,
            p,
            prop_from(p, known),
        ),
    decreases p.len(),
{
    if p.len() == 0 {
        lemma_notes_of_changes_cons("constant propagation: `"@, p, prop_from(p, known));
    } else {
        let ni = prop_instr(p[0], known);
        let k2 = known_after(ni, known);
        lemma_prop_notes_from(p.drop_first(), k2);
        lemma_cons(ni, prop_from(p.drop_first(), k2));
        lemma_notes_of_changes_cons("constant propagation: `"@, p, prop_from(p, known));
    }
}

/// Propagation writes one note for each instruction it changed, in
/// program order, and no other note.
pub proof fn lemma_propagate_notes(p: Seq<SpecInstr>)
    ensures
        propagate_notes(p) == notes_of_changes(
            "constant propagation: `"@,
            p,
            propagate_program(p),
        ),
{
    lemma_prop_notes_from(p, Map::empty());
}

/// Dead code elimination writes one note per instruction it removed, so
/// that kept instructions and notes together number the instructions of
/// the program, and every note names an assignment of the program.
pub proof fn lemma_dce_notes(s: Seq<SpecInstr>)
    ensures
        dce_notes(s).len() + dce(s).len() == s.len(),
        forall|j: int|
            0 <= j < dce_notes(s).len() ==> exists|k: int|
                0 <= k < s.len() && s[k] is Assign && #[trigger] dce_notes(s)[j] == removed_note(
                    s[k],
                ),
    decreases s.len(),
{
    if s.len() > 0 {
        let rest = s.drop_first();
        lemma_dce_notes(rest);
        if !keeps(s[0], live_in(rest)) {
            let ns = dce_notes(s);
            lemma_cons(removed_note(s[0]), dce_notes(rest));
            assert forall|j: int| 0 <= j < ns.len() implies exists|k: int|
                0 <= k < s.len() && s[k] is Assign && #[trigger] ns[j] == removed_note(s[k]) by {
                if j == 0 {
                    assert(s[0] is Assign && ns[0] == removed_note(s[0]));
                } else {
                    assert(ns[j] == dce_notes(rest)[j - 1]);
                    let k = choose|k: int|
                        0 <= k < rest.len() && rest[k] is Assign && dce_notes(rest)[j - 1]
                            == removed_note(rest[k]);
                    assert(s[k + 1] == rest[k]);
                }
            }
        } else {
            lemma_cons(s[0], dce(rest));
            assert forall|j: int| 0 <= j < dce_notes(s).len() implies exists|k: int|
                0 <= k < s.len() && s[k] is Assign && #[trigger] dce_notes(s)[j] == removed_note(
                    s[k],
                ) by {
                let k = choose|k: int|
                    0 <= k < rest.len() && rest[k] is Assign && dce_notes(rest)[j] == removed_note(
                        rest[k],
                    );
                assert(s[k + 1] == rest[k]);
            }
        }
    }
}

// ---------------------------------------------------------------------
// The text written for a run
// ---------------------------------------------------------------------

pub open spec fn note_line(n: Seq<char>) -> Seq<char> {
    "  "@ + n + "\n"@
}

proof fn lemma_note_lines_alt(ns: Seq<Seq<char>>)
    ensures
        note_lines(ns) == ns.map_values(|n: Seq<char>| note_line(n)).flatten_alt(),
    decreases ns.len(),
{
    let m = ns.map_values(|n: Seq<char>| note_line(n));
    if ns.len() == 0 {
        assert(m =~= Seq::<Seq<char>>::empty());
    } else {
        lemma_note_lines_alt(ns.drop_last());
        assert(m.drop_last() =~= ns.drop_last().map_values(|n: Seq<char>| note_line(n)));
        assert(note_lines(ns) =~= note_lines(ns.drop_last()) + note_line(ns.last()));
    }
}

/// Every note is written on a line of its own, indented by two spaces,
/// in order, and nothing else is written between them.
pub proof fn lemma_note_lines(ns: Seq<Seq<char>>)
    ensures
        note_lines(ns) == ns.map_values(|n: Seq<char>| note_line(n)).flatten(),
{
    lemma_note_lines_alt(ns);
    ns.map_values(|n: Seq<char>| note_line(n)).lemma_flatten_and_flatten_alt_are_equivalent();
}

/// Standard output ends with the final program and a line break; without
/// the pass-by-pass listing it is just that, and standard error then
/// holds the change list exactly when some pass changed the program.
/// With the listing, standard output begins with the original program
/// and standard error is empty.
pub proof fn lemma_output_shape(res: OptimizeResult, show_passes: bool)
    ensures
        ({
            let out = stdout_text(res, show_passes);
            let tail = program_text(res.final_program@) + "\n"@;
            &&& out.len() >= tail.len()
            &&& out.skip(out.len() - tail.len()) == tail
        }),
        !show_passes ==> stdout_text(res, show_passes) == program_text(res.final_program@)
            + "\n"@,
        show_passes ==> stdout_text(res, show_passes).take(
            ("=== original ===\n"@ + program_text(res.original@)).len() as int,
        ) == "=== original ===\n"@ + program_text(res.original@),
        show_passes ==> stderr_text(res, show_passes).len() == 0,
        !show_passes && !res.hit_cap ==> stderr_text(res, show_passes) == (if changed_notes(
            res.reports@,
        ).len() == 0 {
            Seq::<char>::empty()
        } else {
            "\n"@ + "changes:\n"@ + changed_notes(res.reports@).map_values(
                |n: Seq<char>| note_line(n),
            ).flatten()
        }),
{
    let out = stdout_text(res, show_passes);
    let tail = program_text(res.final_program@) + "\n"@;
    if show_passes {
        let pre = "=== original ===\n"@ + program_text(res.original@);
        let rest = "\n"@ + "\n"@ + report_blocks(res.reports@) + crate::render::closing_line(res)
            + "\n"@;
        assert(out =~= pre + rest + tail);
        assert(out.take(pre.len() as int) =~= pre);
        assert(out.skip(out.len() - tail.len()) =~= tail);
    } else {
        assert(out =~= Seq::<char>::empty() + tail);
        assert(out.skip(out.len() - tail.len()) =~= tail);
        lemma_note_lines(changed_notes(res.reports@));
        assert(Seq::<char>::empty() + stderr_text(res, show_passes) =~= stderr_text(
            res,
            show_passes,
        ));
    }
}

/// Each round runs folding, propagation, simplification and dead code
/// elimination, in that order, and each report is named after its pass.
pub proof fn lemma_pass_order(p: Seq<SpecInstr>)
    ensures
        spec_pass(0, p) == fold_program(p) && pass_name_text(0) == "constant folding"@,
        spec_pass(1, p) == propagate_program(p) && pass_name_text(1) == "constant propagation"@,
        spec_pass(2, p) == simplify_program(p) && pass_name_text(2)
            == "algebraic simplification"@,
        spec_pass(3, p) == dce(p) && pass_name_text(3) == "dead code elimination"@,
{
}

} // verus!
