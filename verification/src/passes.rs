//! Optimization passes over the Whetstone IR.
//!
//! Every pass is a pure function from `Program` to `Program` plus a
//! list of human-readable notes describing what it changed. The IR
//! has no branches or jumps, so liveness and constant state can be
//! computed with a single linear scan, no fixed-point dataflow
//! analysis is needed inside a pass. The fixed point that does
//! matter is across passes: folding can expose new dead code, and
//! dead-code elimination can expose new folding opportunities, so
//! `optimize` reruns the whole pipeline until nothing changes.
//!
//! Each pass is specified by a spec function over the program's view
//! (`fold_program`, `propagate_program`, `simplify_program`, `dce`) and
//! its notes by another (`fold_notes`, ...).

use vstd::prelude::*;
use crate::ir::{BinOp, Expr, Instr, Program, SpecExpr, SpecInstr, SpecValue, Value};
use crate::ir::{instr_text, spec_apply, spec_uses};
use crate::store::{views_of, ConstMap, RegSet};

verus! {

/// The least number of rounds the pipeline may run before it stops
/// without a fixed point. A program gets more when it is larger: every
/// round that changes a program lowers its size (`measure`), so one
/// round more than that size always reaches a fixed point, and the cap
/// (`round_cap`) is never below it. The cap stays as a hard backstop, so
/// that two passes that fought each other could not spin forever.
pub const MAX_ITERATIONS: usize = 100;

/// The views of a sequence of instructions.
pub open spec fn instr_views(v: Seq<Instr>) -> Seq<SpecInstr> {
    v.map_values(|i: Instr| i@)
}

proof fn lemma_skip_step<A>(s: Seq<A>, k: int)
    requires
        0 <= k < s.len(),
    ensures
        s.skip(k).len() > 0,
        s.skip(k)[0] == s[k],
        s.skip(k).drop_first() == s.skip(k + 1),
{
    assert(s.skip(k).drop_first() =~= s.skip(k + 1));
}

proof fn lemma_skip_end<A>(s: Seq<A>)
    ensures
        s.skip(s.len() as int) == Seq::<A>::empty(),
        s.skip(0) == s,
{
    assert(s.skip(s.len() as int) =~= Seq::<A>::empty());
    assert(s.skip(0) =~= s);
}

/// The note that records one rewritten instruction.
pub open spec fn rewrite_note(prefix: Seq<char>, old: SpecInstr, new: SpecInstr) -> Seq<char> {
    prefix + instr_text(old) + "` -> `"@ + instr_text(new) + "`"@
}

fn rewrite_note_string(prefix: &str, old: &Instr, new: &Instr) -> (r: String)
    ensures
        r@ == rewrite_note(prefix@, old@, new@),
{
    let mut s = String::new();
    s.append(prefix);
    let a = old.to_string();
    s.append(a.as_str());
    s.append("` -> `");
    let b = new.to_string();
    s.append(b.as_str());
    s.append("`");
    assert(s@ =~= rewrite_note(prefix@, old@, new@));
    s
}

proof fn lemma_push_views(before: Seq<Instr>, after: Seq<Instr>, i: Instr)
    requires
        after == before.push(i),
    ensures
        instr_views(after) == instr_views(before).push(i@),
{
    assert(instr_views(after) =~= instr_views(before).push(i@));
}

proof fn lemma_push_notes(before: Seq<String>, after: Seq<String>, s: String)
    requires
        after == before.push(s),
    ensures
        views_of(after) == views_of(before).push(s@),
{
    assert(views_of(after) =~= views_of(before).push(s@));
}

// ---------------------------------------------------------------------
// Constant folding
// ---------------------------------------------------------------------

/// The folded form of an instruction, when it is `dst = a op b` over two
/// constants and the operation has a result.
pub open spec fn fold_instr(i: SpecInstr) -> Option<SpecInstr> {
    match i {
        SpecInstr::Assign { dst, expr: SpecExpr::Bin(SpecValue::Const(a), op, SpecValue::Const(b)) } => {
            match spec_apply(op, a, b) {
                Some(r) => Some(SpecInstr::Assign { dst, expr: SpecExpr::Copy(SpecValue::Const(r)) }),
                None => None,
            }
        },
        _ => None,
    }
}

pub open spec fn folded(i: SpecInstr) -> SpecInstr {
    match fold_instr(i) {
        Some(n) => n,
        None => i,
    }
}

/// Constant folding: every instruction replaced by its folded form.
pub open spec fn fold_program(p: Seq<SpecInstr>) -> Seq<SpecInstr>
    decreases p.len(),
{
    if p.len() == 0 {
        seq![]
    } else {
        seq![folded(p[0])] + fold_program(p.drop_first())
    }
}

/// One note per folded instruction, in program order.
pub open spec fn fold_notes(p: Seq<SpecInstr>) -> Seq<Seq<char>>
    decreases p.len(),
{
    if p.len() == 0 {
        seq![]
    } else {
        (match fold_instr(p[0]) {
            Some(n) => seq![rewrite_note("constant folding: `"@, p[0], n)],
            None => seq![],
        }) + fold_notes(p.drop_first())
    }
}

/// Fold a binary operation over two literal constants into a single
/// literal. `t1 = 2 + 3` becomes `t1 = 5`. A fold that would divide
/// by zero is left alone, so the program can still fail at runtime
/// instead of silently changing meaning.
pub fn constant_fold(prog: &Program) -> (r: (Program, Vec<String>))
    ensures
        r.0@ == fold_program(prog@),
        views_of(r.1@) == fold_notes(prog@),
{
    let mut notes: Vec<String> = Vec::new();
    let mut instrs: Vec<Instr> = Vec::new();
    let mut k: usize = 0;
    proof {
        lemma_skip_end(prog@);
        assert(instr_views(instrs@) =~= Seq::<SpecInstr>::empty());
        assert(views_of(notes@) =~= Seq::<Seq<char>>::empty());
    }
    while k < prog.instrs.len()
        invariant
            k <= prog.instrs.len(),
            fold_program(prog@) == instr_views(instrs@) + fold_program(prog@.skip(k as int)),
            fold_notes(prog@) == views_of(notes@) + fold_notes(prog@.skip(k as int)),
        decreases prog.instrs.len() - k,
    {
        let ghost s = prog@.skip(k as int);
        let ghost iv = instr_views(instrs@);
        let ghost nv = views_of(notes@);
        proof {
            lemma_skip_step(prog@, k as int);
        }
        let instr = &prog.instrs[k];
        let mut new_note = false;
        let new_instr = match instr {
            Instr::Assign { dst, expr: Expr::Bin(Value::Const(a), op, Value::Const(b)) } => {
                match op.apply(*a, *b) {
                    Some(result) => {
                        new_note = true;
                        Instr::Assign { dst: dst.clone(), expr: Expr::Copy(Value::Const(result)) }
                    },
                    None => instr.clone(),
                }
            },
            _ => instr.clone(),
        };
        proof {
            assert(new_instr@ == folded(s[0]));
            assert(new_note == fold_instr(s[0]) is Some);
        }
        if new_note {
            let note = rewrite_note_string("constant folding: `", instr, &new_instr);
            let ghost before = notes@;
            notes.push(note);
            proof {
                lemma_push_notes(before, notes@, note);
                assert(nv.push(note@) + fold_notes(prog@.skip(k + 1)) =~= nv + fold_notes(s));
            }
        } else {
            proof {
                assert(nv + fold_notes(prog@.skip(k + 1)) =~= nv + fold_notes(s));
            }
        }
        let ghost before = instrs@;
        instrs.push(new_instr);
        proof {
            lemma_push_views(before, instrs@, new_instr);
            assert(iv.push(new_instr@) + fold_program(prog@.skip(k + 1)) =~= iv + fold_program(s));
        }
        k += 1;
    }
    proof {
        lemma_skip_end(prog@);
        assert(instr_views(instrs@) + Seq::<SpecInstr>::empty() =~= instr_views(instrs@));
        assert(views_of(notes@) + Seq::<Seq<char>>::empty() =~= views_of(notes@));
    }
    (Program { instrs }, notes)
}

// ---------------------------------------------------------------------
// Constant propagation
// ---------------------------------------------------------------------

/// A register operand known to hold a constant, replaced by it.
pub open spec fn subst(v: SpecValue, known: Map<Seq<char>, i64>) -> SpecValue {
    match v {
        SpecValue::Reg(r) => if known.contains_key(r) {
            SpecValue::Const(known[r])
        } else {
            v
        },
        SpecValue::Const(_) => v,
    }
}

/// An instruction with every operand substituted.
pub open spec fn prop_instr(i: SpecInstr, known: Map<Seq<char>, i64>) -> SpecInstr {
    match i {
        SpecInstr::Assign { dst, expr } => SpecInstr::Assign {
            dst,
            expr: match expr {
                SpecExpr::Copy(v) => SpecExpr::Copy(subst(v, known)),
                SpecExpr::Bin(a, op, b) => SpecExpr::Bin(subst(a, known), op, subst(b, known)),
            },
        },
        SpecInstr::Print(v) => SpecInstr::Print(subst(v, known)),
    }
}

/// What is known after an (already rewritten) instruction: an assignment
/// of a constant records it, any other assignment forgets its register.
pub open spec fn known_after(i: SpecInstr, known: Map<Seq<char>, i64>) -> Map<Seq<char>, i64> {
    match i {
        SpecInstr::Assign { dst, expr } => match expr {
            SpecExpr::Copy(SpecValue::Const(n)) => known.insert(dst, n),
            _ => known.remove(dst),
        },
        SpecInstr::Print(_) => known,
    }
}

/// Constant propagation of `p`, starting from what is `known`.
pub open spec fn prop_from(p: Seq<SpecInstr>, known: Map<Seq<char>, i64>) -> Seq<SpecInstr>
    decreases p.len(),
{
    if p.len() == 0 {
        seq![]
    } else {
        let ni = prop_instr(p[0], known);
        seq![ni] + prop_from(p.drop_first(), known_after(ni, known))
    }
}

/// One note per instruction that propagation changed.
pub open spec fn prop_notes_from(p: Seq<SpecInstr>, known: Map<Seq<char>, i64>) -> Seq<Seq<char>>
    decreases p.len(),
{
    if p.len() == 0 {
        seq![]
    } else {
        let ni = prop_instr(p[0], known);
        (if ni != p[0] {
            seq![rewrite_note("constant propagation: `"@, p[0], ni)]
        } else {
            seq![]
        }) + prop_notes_from(p.drop_first(), known_after(ni, known))
    }
}

/// Constant propagation: a forward scan from nothing known.
pub open spec fn propagate_program(p: Seq<SpecInstr>) -> Seq<SpecInstr> {
    prop_from(p, Map::empty())
}

pub open spec fn propagate_notes(p: Seq<SpecInstr>) -> Seq<Seq<char>> {
    prop_notes_from(p, Map::empty())
}

fn substitute(v: &Value, known: &ConstMap) -> (r: Option<Value>)
    ensures
        match r {
            Some(nv) => nv@ == subst(v@, known@),
            None => subst(v@, known@) == v@,
        },
{
    if let Value::Reg(r) = v {
        match known.get(r) {
            Some(n) => Some(Value::Const(n)),
            None => None,
        }
    } else {
        None
    }
}

fn substituted(v: &Value, known: &ConstMap) -> (r: Value)
    ensures
        r@ == subst(v@, known@),
{
    match substitute(v, known) {
        Some(nv) => nv,
        None => v.clone(),
    }
}

/// Replace a register operand with the constant it is known to hold
/// at that point in the program. Because the IR is straight-line
/// with no branches, a single forward scan tracking "this register
/// currently holds constant N" is exact: a later reassignment to a
/// non-constant simply drops the register from the known-constant
/// map for every instruction after it.
pub fn constant_propagate(prog: &Program) -> (r: (Program, Vec<String>))
    ensures
        r.0@ == propagate_program(prog@),
        views_of(r.1@) == propagate_notes(prog@),
{
    let mut notes: Vec<String> = Vec::new();
    let mut known = ConstMap::new();
    let mut instrs: Vec<Instr> = Vec::new();
    let mut k: usize = 0;
    proof {
        lemma_skip_end(prog@);
        assert(instr_views(instrs@) =~= Seq::<SpecInstr>::empty());
        assert(views_of(notes@) =~= Seq::<Seq<char>>::empty());
    }
    while k < prog.instrs.len()
        invariant
            k <= prog.instrs.len(),
            propagate_program(prog@) == instr_views(instrs@) + prop_from(
                prog@.skip(k as int),
                known@,
            ),
            propagate_notes(prog@) == views_of(notes@) + prop_notes_from(
                prog@.skip(k as int),
                known@,
            ),
        decreases prog.instrs.len() - k,
    {
        let ghost s = prog@.skip(k as int);
        let ghost iv = instr_views(instrs@);
        let ghost nv = views_of(notes@);
        let ghost k0 = known@;
        proof {
            lemma_skip_step(prog@, k as int);
        }
        let instr = &prog.instrs[k];
        let new_instr = match instr {
            Instr::Assign { dst, expr } => {
                let new_expr = match expr {
                    Expr::Copy(v) => match substitute(v, &known) {
                        Some(nv) => Expr::Copy(nv),
                        None => expr.clone(),
                    },
                    Expr::Bin(a, op, b) => {
                        let na = substituted(a, &known);
                        let nb = substituted(b, &known);
                        Expr::Bin(na, *op, nb)
                    },
                };
                Instr::Assign { dst: dst.clone(), expr: new_expr }
            },
            Instr::Print(v) => match substitute(v, &known) {
                Some(nv) => Instr::Print(nv),
                None => instr.clone(),
            },
        };
        proof {
            assert(new_instr@ == prop_instr(s[0], k0));
        }
        if !new_instr.eq(instr) {
            let note = rewrite_note_string("constant propagation: `", instr, &new_instr);
            let ghost before = notes@;
            notes.push(note);
            proof {
                lemma_push_notes(before, notes@, note);
            }
        }
        // Update the known-constant map for what comes after.
        match &new_instr {
            Instr::Assign { dst, expr } => match expr {
                Expr::Copy(Value::Const(n)) => {
                    known.insert(dst, *n);
                },
                _ => {
                    known.remove(dst);
                },
            },
            Instr::Print(_) => {},
        }
        proof {
            assert(known@ == known_after(new_instr@, k0));
            let rest = prop_notes_from(prog@.skip(k + 1), known@);
            if new_instr@ != s[0] {
                assert(views_of(notes@) + rest =~= nv + prop_notes_from(s, k0));
            } else {
                assert(views_of(notes@) + rest =~= nv + prop_notes_from(s, k0));
            }
        }
        let ghost before = instrs@;
        instrs.push(new_instr);
        proof {
            lemma_push_views(before, instrs@, new_instr);
            assert(iv.push(new_instr@) + prop_from(prog@.skip(k + 1), known@) =~= iv + prop_from(
                s,
                k0,
            ));
        }
        k += 1;
    }
    proof {
        lemma_skip_end(prog@);
        assert(instr_views(instrs@) + Seq::<SpecInstr>::empty() =~= instr_views(instrs@));
        assert(views_of(notes@) + Seq::<Seq<char>>::empty() =~= views_of(notes@));
    }
    (Program { instrs }, notes)
}

// ---------------------------------------------------------------------
// Algebraic simplification
// ---------------------------------------------------------------------

/// The value `a op b` reduces to by an identity, if one applies:
/// `x + 0`, `0 + x`, `x - 0`, `x * 1`, `1 * x`, `x / 1` give `x`;
/// `x * 0`, `0 * x` give `0`. The first rule that matches, in that
/// order, is the one used.
pub open spec fn simp_bin(a: SpecValue, op: BinOp, b: SpecValue) -> Option<SpecValue> {
    if op == BinOp::Add && b == SpecValue::Const(0) {
        Some(a)
    } else if op == BinOp::Add && a == SpecValue::Const(0) {
        Some(b)
    } else if op == BinOp::Sub && b == SpecValue::Const(0) {
        Some(a)
    } else if op == BinOp::Mul && b == SpecValue::Const(1) {
        Some(a)
    } else if op == BinOp::Mul && a == SpecValue::Const(1) {
        Some(b)
    } else if op == BinOp::Div && b == SpecValue::Const(1) {
        Some(a)
    } else if op == BinOp::Mul && b == SpecValue::Const(0) {
        Some(SpecValue::Const(0))
    } else if op == BinOp::Mul && a == SpecValue::Const(0) {
        Some(SpecValue::Const(0))
    } else {
        None
    }
}

/// The simplified form of an instruction, when an identity applies.
pub open spec fn simp_instr(i: SpecInstr) -> Option<SpecInstr> {
    match i {
        SpecInstr::Assign { dst, expr: SpecExpr::Bin(a, op, b) } => match simp_bin(a, op, b) {
            Some(v) => Some(SpecInstr::Assign { dst, expr: SpecExpr::Copy(v) }),
            None => None,
        },
        _ => None,
    }
}

pub open spec fn simplified(i: SpecInstr) -> SpecInstr {
    match simp_instr(i) {
        Some(n) => n,
        None => i,
    }
}

/// Algebraic simplification: every instruction replaced by its
/// simplified form.
pub open spec fn simplify_program(p: Seq<SpecInstr>) -> Seq<SpecInstr>
    decreases p.len(),
{
    if p.len() == 0 {
        seq![]
    } else {
        seq![simplified(p[0])] + simplify_program(p.drop_first())
    }
}

pub open spec fn simplify_notes(p: Seq<SpecInstr>) -> Seq<Seq<char>>
    decreases p.len(),
{
    if p.len() == 0 {
        seq![]
    } else {
        (match simp_instr(p[0]) {
            Some(n) => seq![rewrite_note("algebraic simplification: `"@, p[0], n)],
            None => seq![],
        }) + simplify_notes(p.drop_first())
    }
}

fn is_const(v: &Value, n: i64) -> (r: bool)
    ensures
        r == (v@ == SpecValue::Const(n)),
{
    match v {
        Value::Const(m) => *m == n,
        Value::Reg(_) => false,
    }
}

fn simplify_bin(a: &Value, op: BinOp, b: &Value) -> (r: Option<Value>)
    ensures
        match r {
            Some(v) => simp_bin(a@, op, b@) == Some(v@),
            None => simp_bin(a@, op, b@) is None,
        },
{
    if op == BinOp::Add && is_const(b, 0) {
        Some(a.clone())
    } else if op == BinOp::Add && is_const(a, 0) {
        Some(b.clone())
    } else if op == BinOp::Sub && is_const(b, 0) {
        Some(a.clone())
    } else if op == BinOp::Mul && is_const(b, 1) {
        Some(a.clone())
    } else if op == BinOp::Mul && is_const(a, 1) {
        Some(b.clone())
    } else if op == BinOp::Div && is_const(b, 1) {
        Some(a.clone())
    } else if op == BinOp::Mul && is_const(b, 0) {
        Some(Value::Const(0))
    } else if op == BinOp::Mul && is_const(a, 0) {
        Some(Value::Const(0))
    } else {
        None
    }
}

/// Rewrite identities that do not need arithmetic at all:
/// `x + 0`, `0 + x`, `x - 0` -> `x`
/// `x * 1`, `1 * x`, `x / 1` -> `x`
/// `x * 0`, `0 * x` -> `0`
pub fn algebraic_simplify(prog: &Program) -> (r: (Program, Vec<String>))
    ensures
        r.0@ == simplify_program(prog@),
        views_of(r.1@) == simplify_notes(prog@),
{
    let mut notes: Vec<String> = Vec::new();
    let mut instrs: Vec<Instr> = Vec::new();
    let mut k: usize = 0;
    proof {
        lemma_skip_end(prog@);
        assert(instr_views(instrs@) =~= Seq::<SpecInstr>::empty());
        assert(views_of(notes@) =~= Seq::<Seq<char>>::empty());
    }
    while k < prog.instrs.len()
        invariant
            k <= prog.instrs.len(),
            simplify_program(prog@) == instr_views(instrs@) + simplify_program(
                prog@.skip(k as int),
            ),
            simplify_notes(prog@) == views_of(notes@) + simplify_notes(prog@.skip(k as int)),
        decreases prog.instrs.len() - k,
    {
        let ghost s = prog@.skip(k as int);
        let ghost iv = instr_views(instrs@);
        let ghost nv = views_of(notes@);
        proof {
            lemma_skip_step(prog@, k as int);
        }
        let instr = &prog.instrs[k];
        let mut rewritten: Option<Instr> = None;
        if let Instr::Assign { dst, expr: Expr::Bin(a, op, b) } = instr {
            if let Some(v) = simplify_bin(a, *op, b) {
                rewritten = Some(Instr::Assign { dst: dst.clone(), expr: Expr::Copy(v) });
            }
        }
        let new_instr = match rewritten {
            Some(new_instr) => {
                assert(simp_instr(s[0]) == Some(new_instr@));
                let note = rewrite_note_string("algebraic simplification: `", instr, &new_instr);
                let ghost before = notes@;
                notes.push(note);
                proof {
                    lemma_push_notes(before, notes@, note);
                    assert(nv.push(note@) + simplify_notes(prog@.skip(k + 1)) =~= nv
                        + simplify_notes(s));
                }
                new_instr
            },
            None => {
                assert(simp_instr(s[0]) is None);
                assert(nv + simplify_notes(prog@.skip(k + 1)) =~= nv + simplify_notes(s));
                instr.clone()
            },
        };
        let ghost before = instrs@;
        instrs.push(new_instr);
        proof {
            lemma_push_views(before, instrs@, new_instr);
            assert(iv.push(new_instr@) + simplify_program(prog@.skip(k + 1)) =~= iv
                + simplify_program(s));
        }
        k += 1;
    }
    proof {
        lemma_skip_end(prog@);
        assert(instr_views(instrs@) + Seq::<SpecInstr>::empty() =~= instr_views(instrs@));
        assert(views_of(notes@) + Seq::<Seq<char>>::empty() =~= views_of(notes@));
    }
    (Program { instrs }, notes)
}

// ---------------------------------------------------------------------
// Dead code elimination
// ---------------------------------------------------------------------

/// Whether an instruction is kept when the registers in `live` are
/// needed after it: a print always is, an assignment only if its
/// register is needed.
pub open spec fn keeps(i: SpecInstr, live: Set<Seq<char>>) -> bool {
    match i {
        SpecInstr::Print(_) => true,
        SpecInstr::Assign { dst, .. } => live.contains(dst),
    }
}

/// The registers needed before an instruction, given those needed
/// after it: a kept instruction no longer needs its own register and
/// needs those it reads; a dropped one changes nothing.
pub open spec fn live_step(i: SpecInstr, live: Set<Seq<char>>) -> Set<Seq<char>> {
    match i {
        SpecInstr::Print(_) => live + spec_uses(i).to_set(),
        SpecInstr::Assign { dst, .. } => if live.contains(dst) {
            live.remove(dst) + spec_uses(i).to_set()
        } else {
            live
        },
    }
}

/// The registers that the program `s` needs on entry.
pub open spec fn live_in(s: Seq<SpecInstr>) -> Set<Seq<char>>
    decreases s.len(),
{
    if s.len() == 0 {
        Set::empty()
    } else {
        live_step(s[0], live_in(s.drop_first()))
    }
}

/// Dead code elimination: the instructions of `s` that are kept, in
/// order.
pub open spec fn dce(s: Seq<SpecInstr>) -> Seq<SpecInstr>
    decreases s.len(),
{
    if s.len() == 0 {
        seq![]
    } else if keeps(s[0], live_in(s.drop_first())) {
        seq![s[0]] + dce(s.drop_first())
    } else {
        dce(s.drop_first())
    }
}

pub open spec fn removed_note(i: SpecInstr) -> Seq<char> {
    "dead code elimination: removed `"@ + instr_text(i) + "` (result never used)"@
}

/// One note per removed instruction, in program order.
pub open spec fn dce_notes(s: Seq<SpecInstr>) -> Seq<Seq<char>>
    decreases s.len(),
{
    if s.len() == 0 {
        seq![]
    } else if keeps(s[0], live_in(s.drop_first())) {
        dce_notes(s.drop_first())
    } else {
        seq![removed_note(s[0])] + dce_notes(s.drop_first())
    }
}

proof fn lemma_take_push_to_set(s: Seq<Seq<char>>, m: int)
    requires
        0 <= m < s.len(),
    ensures
        s.take(m + 1).to_set() == s.take(m).to_set().insert(s[m]),
{
    let a = s.take(m + 1);
    let b = s.take(m);
    assert forall|x: Seq<char>| a.contains(x) <==> (b.contains(x) || x == s[m]) by {
        if a.contains(x) {
            let k = choose|k: int| 0 <= k < a.len() && a[k] == x;
            if k < m {
                assert(b[k] == x);
            }
        }
        if b.contains(x) {
            let k = choose|k: int| 0 <= k < b.len() && b[k] == x;
            assert(a[k] == x);
        }
        if x == s[m] {
            assert(a[m] == x);
        }
    }
    assert(a.to_set() =~= b.to_set().insert(s[m]));
}

/// Add every register that `instr` reads to `live`.
fn add_uses(live: &mut RegSet, instr: &Instr)
    ensures
        final(live)@ == old(live)@ + spec_uses(instr@).to_set(),
{
    let uses = instr.uses();
    let ghost u = uses@.map_values(|s: &str| s@);
    let ghost base = live@;
    let mut m: usize = 0;
    assert(u.take(0).to_set() =~= Set::<Seq<char>>::empty());
    assert(base + Set::<Seq<char>>::empty() =~= base);
    while m < uses.len()
        invariant
            m <= uses.len(),
            u == uses@.map_values(|s: &str| s@),
            live@ == base + u.take(m as int).to_set(),
        decreases uses.len() - m,
    {
        live.insert(uses[m]);
        proof {
            lemma_take_push_to_set(u, m as int);
            assert(live@ =~= base + u.take(m + 1).to_set());
        }
        m += 1;
    }
    assert(u.take(m as int) =~= u);
}

fn removed_note_string(instr: &Instr) -> (r: String)
    ensures
        r@ == removed_note(instr@),
{
    let mut s = String::new();
    s.append("dead code elimination: removed `");
    let t = instr.to_string();
    s.append(t.as_str());
    s.append("` (result never used)");
    assert(s@ =~= removed_note(instr@));
    s
}

/// Drop any assignment whose result is never used again and that
/// has no side effect. A single backward scan is enough: walk from
/// the last instruction to the first, tracking which registers are
/// still needed by something kept so far.
pub fn dead_code_eliminate(prog: &Program) -> (r: (Program, Vec<String>))
    ensures
        r.0@ == dce(prog@),
        views_of(r.1@) == dce_notes(prog@),
{
    let mut notes: Vec<String> = Vec::new();
    let mut live = RegSet::new();
    let mut kept: Vec<Instr> = Vec::new();
    let mut k = prog.instrs.len();
    proof {
        lemma_skip_end(prog@);
        assert(instr_views(kept@) =~= Seq::<SpecInstr>::empty());
        assert(views_of(notes@) =~= Seq::<Seq<char>>::empty());
    }
    while k > 0
        invariant
            k <= prog.instrs.len(),
            instr_views(kept@) == dce(prog@.skip(k as int)),
            live@ == live_in(prog@.skip(k as int)),
            views_of(notes@) == dce_notes(prog@.skip(k as int)),
        decreases k,
    {
        k -= 1;
        let ghost s = prog@.skip(k as int);
        let ghost after = live@;
        proof {
            lemma_skip_step(prog@, k as int);
        }
        let instr = &prog.instrs[k];
        let keep = match instr {
            Instr::Print(_) => true,
            Instr::Assign { dst, .. } => instr.has_side_effect() || live.remove(dst),
        };
        proof {
            assert(keep == keeps(s[0], after));
        }
        if keep {
            add_uses(&mut live, instr);
            let ghost before = kept@;
            kept.insert(0, instr.clone());
            proof {
                assert(instr_views(kept@) =~= seq![s[0]] + instr_views(before));
                assert(live@ =~= live_step(s[0], after));
            }
        } else {
            let note = removed_note_string(instr);
            let ghost before = notes@;
            notes.insert(0, note);
            proof {
                assert(views_of(notes@) =~= seq![note@] + views_of(before));
                assert(live@ =~= live_step(s[0], after));
            }
        }
    }
    proof {
        lemma_skip_end(prog@);
    }
    // Notes were gathered while scanning backward, each placed in front of
    // the later ones, so they read in forward program order like every
    // other pass's notes.
    (Program { instrs: kept }, notes)
}

// ---------------------------------------------------------------------
// The pipeline
// ---------------------------------------------------------------------

/// Pass `j` of a round: folding, propagation, simplification, then
/// dead code elimination.
pub open spec fn spec_pass(j: int, p: Seq<SpecInstr>) -> Seq<SpecInstr> {
    if j == 0 {
        fold_program(p)
    } else if j == 1 {
        propagate_program(p)
    } else if j == 2 {
        simplify_program(p)
    } else {
        dce(p)
    }
}

/// The notes of pass `j` on `p`.
pub open spec fn spec_pass_notes(j: int, p: Seq<SpecInstr>) -> Seq<Seq<char>> {
    if j == 0 {
        fold_notes(p)
    } else if j == 1 {
        propagate_notes(p)
    } else if j == 2 {
        simplify_notes(p)
    } else {
        dce_notes(p)
    }
}

/// The name of pass `j`.
pub open spec fn pass_name_text(j: int) -> Seq<char> {
    if j == 0 {
        "constant folding"@
    } else if j == 1 {
        "constant propagation"@
    } else if j == 2 {
        "algebraic simplification"@
    } else {
        "dead code elimination"@
    }
}

/// The program after the first `k` passes of the pipeline have run on
/// `p`, the passes taken in their fixed order round after round.
pub open spec fn stage(p: Seq<SpecInstr>, k: nat) -> Seq<SpecInstr>
    decreases k,
{
    if k == 0 {
        p
    } else {
        spec_pass(((k - 1) % 4) as int, stage(p, (k - 1) as nat))
    }
}

/// Whether one of the first `j` passes after stage `base` changed the
/// program.
pub open spec fn changed_within(p: Seq<SpecInstr>, base: nat, j: nat) -> bool
    decreases j,
{
    if j == 0 {
        false
    } else {
        changed_within(p, base, (j - 1) as nat) || stage(p, base + j) != stage(
            p,
            (base + j - 1) as nat,
        )
    }
}

/// Whether round `r` (counting from 0) changed the program.
pub open spec fn round_changed(p: Seq<SpecInstr>, r: int) -> bool {
    changed_within(p, (4 * r) as nat, 4)
}

/// The size of an instruction: one, plus one for a binary operation,
/// plus one per register it reads. Every change a pass makes lowers the
/// total size of the program.
pub open spec fn weight(i: SpecInstr) -> nat {
    1 + (match i {
        SpecInstr::Assign { expr: SpecExpr::Bin(..), .. } => 1nat,
        _ => 0nat,
    }) + spec_uses(i).len()
}

/// The total size of a program.
pub open spec fn measure(p: Seq<SpecInstr>) -> nat
    decreases p.len(),
{
    if p.len() == 0 {
        0
    } else {
        weight(p[0]) + measure(p.drop_first())
    }
}

proof fn lemma_cons<A>(x: A, s: Seq<A>)
    ensures
        (seq![x] + s).len() == s.len() + 1,
        (seq![x] + s)[0] == x,
        (seq![x] + s).drop_first() == s,
{
    assert((seq![x] + s).drop_first() =~= s);
}

proof fn lemma_fold_measure(p: Seq<SpecInstr>)
    ensures
        measure(fold_program(p)) <= measure(p),
        fold_program(p) != p ==> measure(fold_program(p)) < measure(p),
    decreases p.len(),
{
    if p.len() == 0 {
        assert(fold_program(p) =~= p);
    }
    if p.len() > 0 {
        let q = fold_program(p);
        lemma_cons(folded(p[0]), fold_program(p.drop_first()));
        lemma_fold_measure(p.drop_first());
        if folded(p[0]) == p[0] && fold_program(p.drop_first()) == p.drop_first() {
            assert(q =~= p);
        }
    }
}

proof fn lemma_simplify_measure(p: Seq<SpecInstr>)
    ensures
        measure(simplify_program(p)) <= measure(p),
        simplify_program(p) != p ==> measure(simplify_program(p)) < measure(p),
    decreases p.len(),
{
    if p.len() == 0 {
        assert(simplify_program(p) =~= p);
    }
    if p.len() > 0 {
        let q = simplify_program(p);
        lemma_cons(simplified(p[0]), simplify_program(p.drop_first()));
        lemma_simplify_measure(p.drop_first());
        if simplified(p[0]) == p[0] && simplify_program(p.drop_first()) == p.drop_first() {
            assert(q =~= p);
        }
    }
}

proof fn lemma_subst_regs(v: SpecValue, known: Map<Seq<char>, i64>)
    ensures
        crate::ir::value_regs(subst(v, known)).len() <= crate::ir::value_regs(v).len(),
        subst(v, known) != v ==> crate::ir::value_regs(subst(v, known)).len() < crate::ir::value_regs(
            v,
        ).len(),
{
}

proof fn lemma_prop_instr_weight(i: SpecInstr, known: Map<Seq<char>, i64>)
    ensures
        weight(prop_instr(i, known)) <= weight(i),
        prop_instr(i, known) != i ==> weight(prop_instr(i, known)) < weight(i),
{
    match i {
        SpecInstr::Assign { dst, expr } => match expr {
            SpecExpr::Copy(v) => {
                lemma_subst_regs(v, known);
            },
            SpecExpr::Bin(a, op, b) => {
                lemma_subst_regs(a, known);
                lemma_subst_regs(b, known);
            },
        },
        SpecInstr::Print(v) => {
            lemma_subst_regs(v, known);
        },
    }
}

proof fn lemma_prop_measure(p: Seq<SpecInstr>, known: Map<Seq<char>, i64>)
    ensures
        measure(prop_from(p, known)) <= measure(p),
        prop_from(p, known) != p ==> measure(prop_from(p, known)) < measure(p),
    decreases p.len(),
{
    if p.len() == 0 {
        assert(prop_from(p, known) =~= p);
    }
    if p.len() > 0 {
        let ni = prop_instr(p[0], known);
        let rest = prop_from(p.drop_first(), known_after(ni, known));
        lemma_cons(ni, rest);
        lemma_prop_instr_weight(p[0], known);
        lemma_prop_measure(p.drop_first(), known_after(ni, known));
        if ni == p[0] && rest == p.drop_first() {
            assert(prop_from(p, known) =~= p);
        }
    }
}

proof fn lemma_dce_measure(p: Seq<SpecInstr>)
    ensures
        measure(dce(p)) <= measure(p),
        dce(p) != p ==> measure(dce(p)) < measure(p),
    decreases p.len(),
{
    if p.len() == 0 {
        assert(dce(p) =~= p);
    }
    if p.len() > 0 {
        lemma_dce_measure(p.drop_first());
        if keeps(p[0], live_in(p.drop_first())) {
            lemma_cons(p[0], dce(p.drop_first()));
            if dce(p.drop_first()) == p.drop_first() {
                assert(dce(p) =~= p);
            }
        }
    }
}

/// Every pass leaves the size of a program as it was or lowers it, and
/// lowers it whenever it changes the program.
pub proof fn lemma_pass_measure(j: int, p: Seq<SpecInstr>)
    ensures
        measure(spec_pass(j, p)) <= measure(p),
        spec_pass(j, p) != p ==> measure(spec_pass(j, p)) < measure(p),
{
    if j == 0 {
        lemma_fold_measure(p);
    } else if j == 1 {
        lemma_prop_measure(p, Map::empty());
    } else if j == 2 {
        lemma_simplify_measure(p);
    } else {
        lemma_dce_measure(p);
    }
}

fn run_pass(j: usize, p: &Program) -> (r: (Program, Vec<String>))
    requires
        j < 4,
    ensures
        r.0@ == spec_pass(j as int, p@),
        views_of(r.1@) == spec_pass_notes(j as int, p@),
{
    if j == 0 {
        constant_fold(p)
    } else if j == 1 {
        constant_propagate(p)
    } else if j == 2 {
        algebraic_simplify(p)
    } else {
        dead_code_eliminate(p)
    }
}

fn pass_name(j: usize) -> (r: &'static str)
    ensures
        r@ == pass_name_text(j as int),
{
    if j == 0 {
        "constant folding"
    } else if j == 1 {
        "constant propagation"
    } else if j == 2 {
        "algebraic simplification"
    } else {
        "dead code elimination"
    }
}

/// The result of a single pass, including a before/after snapshot
/// and notes for `--show-passes`.
pub struct PassReport {
    pub name: &'static str,
    pub iteration: usize,
    pub before: Program,
    pub after: Program,
    pub notes: Vec<String>,
}

impl PassReport {
    fn changed(&self) -> (r: bool)
        ensures
            r == (self.before@ != self.after@),
    {
        !self.before.eq(&self.after)
    }
}

/// That `rep` describes pass number `k` (counting from 0) of the pipeline
/// run on `p`.
pub open spec fn report_matches(rep: PassReport, p: Seq<SpecInstr>, k: nat) -> bool {
    &&& rep.name@ == pass_name_text((k % 4) as int)
    &&& rep.iteration == k / 4 + 1
    &&& rep.before@ == stage(p, k)
    &&& rep.after@ == stage(p, k + 1)
    &&& views_of(rep.notes@) == spec_pass_notes((k % 4) as int, stage(p, k))
}

/// The notes of the reports whose pass changed the program, in order.
pub open spec fn changed_notes(rs: Seq<PassReport>) -> Seq<Seq<char>>
    decreases rs.len(),
{
    if rs.len() == 0 {
        seq![]
    } else {
        changed_notes(rs.drop_last()) + (if rs.last().before@ != rs.last().after@ {
            views_of(rs.last().notes@)
        } else {
            seq![]
        })
    }
}

/// The result of running the full pipeline to a fixed point.
pub struct OptimizeResult {
    pub original: Program,
    pub final_program: Program,
    pub reports: Vec<PassReport>,
    pub iterations: usize,
    pub hit_cap: bool,
}

impl OptimizeResult {
    /// Notes from every pass that actually changed something,
    /// in the order the passes ran.
    pub fn all_notes(&self) -> (r: Vec<String>)
        ensures
            views_of(r@) == changed_notes(self.reports@),
    {
        let mut out: Vec<String> = Vec::new();
        let mut k: usize = 0;
        assert(views_of(out@) =~= changed_notes(self.reports@.take(0)));
        while k < self.reports.len()
            invariant
                k <= self.reports.len(),
                views_of(out@) == changed_notes(self.reports@.take(k as int)),
            decreases self.reports.len() - k,
        {
            let rep = &self.reports[k];
            let ghost before = views_of(out@);
            proof {
                assert(self.reports@.take(k + 1).drop_last() =~= self.reports@.take(k as int));
            }
            if rep.changed() {
                let mut m: usize = 0;
                while m < rep.notes.len()
                    invariant
                        m <= rep.notes.len(),
                        views_of(out@) == before + views_of(rep.notes@).take(m as int),
                    decreases rep.notes.len() - m,
                {
                    let ghost b = out@;
                    out.push(rep.notes[m].clone());
                    proof {
                        assert(views_of(out@) =~= views_of(b).push(rep.notes@[m as int]@));
                        assert(views_of(rep.notes@).take(m + 1) =~= views_of(rep.notes@).take(
                            m as int,
                        ).push(rep.notes@[m as int]@));
                    }
                    m += 1;
                }
                assert(views_of(rep.notes@).take(m as int) =~= views_of(rep.notes@));
            } else {
                assert(before + Seq::<Seq<char>>::empty() =~= before);
            }
            k += 1;
        }
        assert(self.reports@.take(k as int) =~= self.reports@);
        out
    }
}

proof fn lemma_stage_step(p: Seq<SpecInstr>, r: nat, j: nat)
    requires
        j < 4,
    ensures
        (4 * r + j) % 4 == j,
        (4 * r + j) / 4 == r,
        stage(p, 4 * r + j + 1) == spec_pass(j as int, stage(p, 4 * r + j)),
{
    assert((4 * r + j) % 4 == j) by (nonlinear_arith)
        requires
            j < 4,
    ;
    assert((4 * r + j) / 4 == r) by (nonlinear_arith)
        requires
            j < 4,
    ;
}

/// The number of rounds after which `optimize` stops even without a
/// fixed point: `MAX_ITERATIONS`, or one more than the size of the
/// program when that is larger (as far as `usize` reaches).
pub open spec fn round_cap(p: Seq<SpecInstr>) -> nat {
    if measure(p) < MAX_ITERATIONS {
        MAX_ITERATIONS as nat
    } else if measure(p) < usize::MAX {
        measure(p) + 1
    } else {
        usize::MAX as nat
    }
}

fn value_regs_count(v: &Value) -> (r: usize)
    ensures
        r == crate::ir::value_regs(v@).len(),
{
    match v {
        Value::Reg(_) => 1,
        Value::Const(_) => 0,
    }
}

fn instr_weight(i: &Instr) -> (r: usize)
    ensures
        r == weight(i@),
        1 <= r <= 4,
{
    match i {
        Instr::Assign { expr, .. } => match expr {
            Expr::Copy(v) => 1 + value_regs_count(v),
            Expr::Bin(a, _, b) => {
                proof {
                    assert(spec_uses(i@).len() == crate::ir::value_regs(a@).len()
                        + crate::ir::value_regs(b@).len());
                }
                2 + value_regs_count(a) + value_regs_count(b)
            },
        },
        Instr::Print(v) => 1 + value_regs_count(v),
    }
}

/// The cap on rounds for `p`.
fn round_cap_of(p: &Program) -> (r: usize)
    ensures
        r == round_cap(p@),
{
    let mut size: usize = 0;
    let mut k = p.instrs.len();
    proof {
        lemma_skip_end(p@);
    }
    while k > 0
        invariant
            k <= p.instrs.len(),
            size == (if measure(p@.skip(k as int)) < usize::MAX {
                measure(p@.skip(k as int))
            } else {
                usize::MAX as nat
            }),
        decreases k,
    {
        k -= 1;
        proof {
            lemma_skip_step(p@, k as int);
        }
        let w = instr_weight(&p.instrs[k]);
        if size > usize::MAX - w {
            size = usize::MAX;
        } else {
            size = size + w;
        }
    }
    proof {
        lemma_skip_end(p@);
    }
    if size < MAX_ITERATIONS {
        MAX_ITERATIONS
    } else if size < usize::MAX {
        size + 1
    } else {
        usize::MAX
    }
}

/// Run the full pipeline (fold, propagate, simplify, eliminate dead
/// code) repeatedly until a full round makes no change, or the
/// cap on rounds is hit, which a program that fits in memory never
/// reaches.
///
/// The number of rounds is bounded by the program's size plus one. On
/// every program tried it is also at most the number of instructions
/// plus one (a chain of `n` links fed by `x * 0` takes exactly that),
/// but that tighter bound is not part of this contract.
pub fn optimize(prog: &Program) -> (res: OptimizeResult)
    ensures
        res.original@ == prog@,
        1 <= res.iterations <= round_cap(prog@),
        res.final_program@ == stage(prog@, 4 * res.iterations as nat),
        res.reports.len() == 4 * res.iterations,
        forall|k: int|
            0 <= k < res.reports.len() ==> report_matches(
                #[trigger] res.reports@[k],
                prog@,
                k as nat,
            ),
        forall|r: int| 0 <= r < res.iterations - 1 ==> #[trigger] round_changed(prog@, r),
        res.hit_cap == round_changed(prog@, res.iterations - 1),
        res.hit_cap ==> res.iterations == round_cap(prog@),
        res.iterations <= measure(prog@) + 1,
        measure(prog@) < usize::MAX ==> !res.hit_cap,
{
    let cap = round_cap_of(prog);
    let mut current = prog.clone();
    let mut reports: Vec<PassReport> = Vec::new();
    let mut iter: usize = 0;
    let mut hit_cap = true;
    while hit_cap && iter < cap
        invariant
            cap == round_cap(prog@),
            iter <= cap,
            current@ == stage(prog@, 4 * iter as nat),
            reports.len() == 4 * iter,
            forall|k: int|
                0 <= k < reports.len() ==> report_matches(#[trigger] reports@[k], prog@, k as nat),
            hit_cap ==> forall|r: int| 0 <= r < iter ==> #[trigger] round_changed(prog@, r),
            hit_cap ==> measure(stage(prog@, 4 * iter as nat)) + iter <= measure(prog@),
            !hit_cap ==> {
                &&& iter >= 1
                &&& forall|r: int| 0 <= r < iter - 1 ==> #[trigger] round_changed(prog@, r)
                &&& !round_changed(prog@, iter - 1)
                &&& iter - 1 <= measure(prog@)
            },
        decreases cap - iter,
    {
        let ghost base: nat = 4 * iter as nat;
        let mut changed_this_round = false;
        let mut j: usize = 0;
        while j < 4
            invariant
                j <= 4,
                iter < cap,
                base == 4 * iter,
                current@ == stage(prog@, base + j as nat),
                reports.len() == base + j,
                forall|k: int|
                    0 <= k < reports.len() ==> report_matches(
                        #[trigger] reports@[k],
                        prog@,
                        k as nat,
                    ),
                changed_this_round == changed_within(prog@, base, j as nat),
                measure(stage(prog@, base + j as nat)) + (if changed_this_round {
                    1int
                } else {
                    0int
                }) <= measure(stage(prog@, base)),
            decreases 4 - j,
        {
            proof {
                lemma_stage_step(prog@, iter as nat, j as nat);
                lemma_pass_measure(j as int, stage(prog@, base + j as nat));
            }
            let before = current.clone();
            let (after, notes) = run_pass(j, &before);
            let changed = !after.eq(&before);
            changed_this_round = changed_this_round || changed;
            let after_copy = after.clone();
            let ghost old_reports = reports@;
            reports.push(
                PassReport { name: pass_name(j), iteration: iter + 1, before, after: after_copy, notes },
            );
            proof {
                assert forall|k: int| 0 <= k < reports.len() implies report_matches(
                    #[trigger] reports@[k],
                    prog@,
                    k as nat,
                ) by {
                    if k < old_reports.len() {
                        assert(reports@[k] == old_reports[k]);
                    }
                }
            }
            current = after;
            j += 1;
        }
        proof {
            if changed_this_round {
                assert(forall|r: int| 0 <= r < iter ==> #[trigger] round_changed(prog@, r));
                assert(round_changed(prog@, iter as int));
                assert(4 * (iter + 1) == base + 4);
            }
        }
        iter += 1;
        if !changed_this_round {
            hit_cap = false;
        }
    }
    OptimizeResult {
        original: prog.clone(),
        final_program: current,
        reports,
        iterations: iter,
        hit_cap,
    }
}

} // verus!
