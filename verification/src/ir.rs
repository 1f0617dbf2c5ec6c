//! The Whetstone intermediate representation and its parser.
//!
//! A program is a flat sequence of three-address instructions over
//! virtual registers. Two kinds of instruction exist: an assignment
//! that computes a value into a register, and a print that observes
//! a value. Print is the only instruction with a side effect, which
//! is what makes dead-code elimination decidable: anything that is
//! not a print and whose result register is never read again can go.
//!
//! Each executable type has a mathematical view (`SpecValue`,
//! `SpecExpr`, `SpecInstr`, and `Seq<SpecInstr>` for a program), and
//! the text form of each is given by a spec function (`instr_text`,
//! `program_text`, ...).

use vstd::prelude::*;
use vstd::std_specs::cmp::PartialEqSpecImpl;
use vstd::wrapping::i64_specs;
use crate::text::{self, chars_of, find_char, i64_text, ident_continue, ident_start, read_i64, str_eq, usize_text, words_of_line};

verus! {

// ---------------------------------------------------------------------
// Operators
// ---------------------------------------------------------------------

/// A binary operator supported by the IR.
#[derive(Clone, Copy, Debug, PartialEq, Eq, Structural)]
pub enum BinOp {
    Add,
    Sub,
    Mul,
    Div,
    Eq,
    Ne,
    Lt,
    Le,
    Gt,
    Ge,
}

/// The symbol an operator is written with.
pub open spec fn op_text(op: BinOp) -> Seq<char> {
    match op {
        BinOp::Add => "+"@,
        BinOp::Sub => "-"@,
        BinOp::Mul => "*"@,
        BinOp::Div => "/"@,
        BinOp::Eq => "=="@,
        BinOp::Ne => "!="@,
        BinOp::Lt => "<"@,
        BinOp::Le => "<="@,
        BinOp::Gt => ">"@,
        BinOp::Ge => ">="@,
    }
}

/// The operator written with the symbol `t`, if any.
pub open spec fn op_of_text(t: Seq<char>) -> Option<BinOp> {
    if t == "+"@ {
        Some(BinOp::Add)
    } else if t == "-"@ {
        Some(BinOp::Sub)
    } else if t == "*"@ {
        Some(BinOp::Mul)
    } else if t == "/"@ {
        Some(BinOp::Div)
    } else if t == "=="@ {
        Some(BinOp::Eq)
    } else if t == "!="@ {
        Some(BinOp::Ne)
    } else if t == "<"@ {
        Some(BinOp::Lt)
    } else if t == "<="@ {
        Some(BinOp::Le)
    } else if t == ">"@ {
        Some(BinOp::Gt)
    } else if t == ">="@ {
        Some(BinOp::Ge)
    } else {
        None
    }
}

/// Reading an operator's symbol gives that operator back, and a text
/// that is no operator's symbol is read as no operator.
pub proof fn lemma_op_text_round_trip(op: BinOp, t: Seq<char>)
    ensures
        op_of_text(op_text(op)) == Some(op),
        op_of_text(t) matches Some(o) ==> t == op_text(o),
        (forall|o: BinOp| t != #[trigger] op_text(o)) ==> op_of_text(t) is None,
{
    reveal_strlit("+");
    reveal_strlit("-");
    reveal_strlit("*");
    reveal_strlit("/");
    reveal_strlit("==");
    reveal_strlit("!=");
    reveal_strlit("<");
    reveal_strlit("<=");
    reveal_strlit(">");
    reveal_strlit(">=");
    assert("+"@ =~= seq!['+']);
    assert("-"@ =~= seq!['-']);
    assert("*"@ =~= seq!['*']);
    assert("/"@ =~= seq!['/']);
    assert("=="@ =~= seq!['=', '=']);
    assert("!="@ =~= seq!['!', '=']);
    assert("<"@ =~= seq!['<']);
    assert("<="@ =~= seq!['<', '=']);
    assert(">"@ =~= seq!['>']);
    assert(">="@ =~= seq!['>', '=']);
    // Two symbols of different length or first character differ.
    let o = op_text(op);
    assert(o.len() == 1 ==> (o[0] == '+' || o[0] == '-' || o[0] == '*' || o[0] == '/' || o[0]
        == '<' || o[0] == '>'));
    if op_of_text(t) is Some {
        assert(t == op_text(op_of_text(t)->Some_0));
    }
}

/// Division rounding toward zero, as Rust's integer `/` does.
pub open spec fn trunc_div(x: int, d: int) -> int {
    if x == 0 {
        0
    } else if x > 0 && d > 0 {
        x / d
    } else if x < 0 && d < 0 {
        (x * -1) / (d * -1)
    } else if x < 0 {
        ((x * -1) / d) * -1
    } else {
        (x / (d * -1)) * -1
    }
}

pub open spec fn bool_value(b: bool) -> i64 {
    if b {
        1
    } else {
        0
    }
}

/// The result of applying `op` to two constants: wrapping arithmetic
/// for `+ - * /`, `0` or `1` for the comparisons, and no result for a
/// division by zero.
pub open spec fn spec_apply(op: BinOp, a: i64, b: i64) -> Option<i64> {
    match op {
        BinOp::Add => Some(i64_specs::wrapping_add(a, b)),
        BinOp::Sub => Some(i64_specs::wrapping_sub(a, b)),
        BinOp::Mul => Some(i64_specs::wrapping_mul(a, b)),
        BinOp::Div => if b == 0 {
            None
        } else if a == i64::MIN && b == -1 {
            Some(i64::MIN)
        } else {
            Some(trunc_div(a as int, b as int) as i64)
        },
        BinOp::Eq => Some(bool_value(a == b)),
        BinOp::Ne => Some(bool_value(a != b)),
        BinOp::Lt => Some(bool_value(a < b)),
        BinOp::Le => Some(bool_value(a <= b)),
        BinOp::Gt => Some(bool_value(a > b)),
        BinOp::Ge => Some(bool_value(a >= b)),
    }
}

proof fn lemma_div_bounds(p: int, q: int)
    requires
        p >= 0,
        q >= 1,
    ensures
        0 <= p / q <= p,
        q >= 2 ==> 2 * (p / q) <= p,
{
    assert(0 <= p / q <= p) by (nonlinear_arith)
        requires
            p >= 0,
            q >= 1,
    ;
    assert(q >= 2 ==> 2 * (p / q) <= p) by (nonlinear_arith)
        requires
            p >= 0,
            q >= 1,
    ;
}

/// A quotient fits in `i64` unless it is `i64::MIN / -1`.
pub proof fn lemma_trunc_div_in_range(a: i64, b: i64)
    requires
        b != 0,
        !(a == i64::MIN && b == -1),
    ensures
        i64::MIN <= trunc_div(a as int, b as int) <= i64::MAX,
{
    let x = a as int;
    let d = b as int;
    if x > 0 && d > 0 {
        lemma_div_bounds(x, d);
    } else if x < 0 && d < 0 {
        lemma_div_bounds(x * -1, d * -1);
    } else if x < 0 && d > 0 {
        lemma_div_bounds(x * -1, d);
    } else if x > 0 && d < 0 {
        lemma_div_bounds(x, d * -1);
    }
}

impl BinOp {
    /// The operator's symbol.
    pub fn as_str(self) -> (r: &'static str)
        ensures
            r@ == op_text(self),
    {
        match self {
            BinOp::Add => "+",
            BinOp::Sub => "-",
            BinOp::Mul => "*",
            BinOp::Div => "/",
            BinOp::Eq => "==",
            BinOp::Ne => "!=",
            BinOp::Lt => "<",
            BinOp::Le => "<=",
            BinOp::Gt => ">",
            BinOp::Ge => ">=",
        }
    }

    /// The operator written with the symbol `s`, if any.
    pub fn from_str(s: &str) -> (r: Option<BinOp>)
        ensures
            r == op_of_text(s@),
    {
        if str_eq(s, "+") {
            Some(BinOp::Add)
        } else if str_eq(s, "-") {
            Some(BinOp::Sub)
        } else if str_eq(s, "*") {
            Some(BinOp::Mul)
        } else if str_eq(s, "/") {
            Some(BinOp::Div)
        } else if str_eq(s, "==") {
            Some(BinOp::Eq)
        } else if str_eq(s, "!=") {
            Some(BinOp::Ne)
        } else if str_eq(s, "<") {
            Some(BinOp::Lt)
        } else if str_eq(s, "<=") {
            Some(BinOp::Le)
        } else if str_eq(s, ">") {
            Some(BinOp::Gt)
        } else if str_eq(s, ">=") {
            Some(BinOp::Ge)
        } else {
            None
        }
    }

    /// Apply the operator to two constant integers, folding it away.
    /// Returns `None` for a division by zero, which is left unfolded
    /// so it can fail at runtime instead of at compile time.
    pub fn apply(self, a: i64, b: i64) -> (r: Option<i64>)
        ensures
            r == spec_apply(self, a, b),
    {
        match self {
            BinOp::Add => Some(a.wrapping_add(b)),
            BinOp::Sub => Some(a.wrapping_sub(b)),
            BinOp::Mul => Some(a.wrapping_mul(b)),
            BinOp::Div => {
                if b == 0 {
                    None
                } else if a == i64::MIN && b == -1 {
                    Some(i64::MIN)
                } else {
                    proof {
                        lemma_trunc_div_in_range(a, b);
                    }
                    a.checked_div(b)
                }
            },
            BinOp::Eq => Some(if a == b { 1 } else { 0 }),
            BinOp::Ne => Some(if a != b { 1 } else { 0 }),
            BinOp::Lt => Some(if a < b { 1 } else { 0 }),
            BinOp::Le => Some(if a <= b { 1 } else { 0 }),
            BinOp::Gt => Some(if a > b { 1 } else { 0 }),
            BinOp::Ge => Some(if a >= b { 1 } else { 0 }),
        }
    }

    /// The operator's symbol.
    pub fn to_string(&self) -> (r: String)
        ensures
            r@ == op_text(*self),
    {
        String::from_str(self.as_str())
    }
}

// ---------------------------------------------------------------------
// Values, expressions, instructions, programs
// ---------------------------------------------------------------------

/// A value used as an operand: either a literal integer or a
/// reference to a virtual register.
#[derive(Debug)]
pub enum Value {
    Const(i64),
    Reg(String),
}

/// The mathematical view of a `Value`.
pub enum SpecValue {
    Const(i64),
    Reg(Seq<char>),
}

impl View for Value {
    type V = SpecValue;

    open spec fn view(&self) -> SpecValue {
        match self {
            Value::Const(n) => SpecValue::Const(*n),
            Value::Reg(r) => SpecValue::Reg(r@),
        }
    }
}

impl Clone for Value {
    fn clone(&self) -> (r: Self)
        ensures
            r == *self,
    {
        match self {
            Value::Const(n) => Value::Const(*n),
            Value::Reg(r) => Value::Reg(r.clone()),
        }
    }
}

impl PartialEq for Value {
    fn eq(&self, other: &Self) -> (r: bool) {
        match (self, other) {
            (Value::Const(a), Value::Const(b)) => *a == *b,
            (Value::Reg(a), Value::Reg(b)) => a.eq(b),
            _ => false,
        }
    }
}

impl PartialEqSpecImpl for Value {
    open spec fn obeys_eq_spec() -> bool {
        true
    }

    open spec fn eq_spec(&self, other: &Value) -> bool {
        self@ == other@
    }
}

impl Eq for Value {

}

/// The right-hand side of an assignment.
#[derive(Debug)]
pub enum Expr {
    /// A bare value, e.g. `t2 = t1` or `t2 = 5`.
    Copy(Value),
    /// A binary operation, e.g. `t2 = t1 * x`.
    Bin(Value, BinOp, Value),
}

/// The mathematical view of an `Expr`.
pub enum SpecExpr {
    Copy(SpecValue),
    Bin(SpecValue, BinOp, SpecValue),
}

impl View for Expr {
    type V = SpecExpr;

    open spec fn view(&self) -> SpecExpr {
        match self {
            Expr::Copy(v) => SpecExpr::Copy(v@),
            Expr::Bin(a, op, b) => SpecExpr::Bin(a@, *op, b@),
        }
    }
}

impl Clone for Expr {
    fn clone(&self) -> (r: Self)
        ensures
            r == *self,
    {
        match self {
            Expr::Copy(v) => Expr::Copy(v.clone()),
            Expr::Bin(a, op, b) => Expr::Bin(a.clone(), *op, b.clone()),
        }
    }
}

impl PartialEq for Expr {
    fn eq(&self, other: &Self) -> (r: bool) {
        match (self, other) {
            (Expr::Copy(a), Expr::Copy(b)) => a.eq(b),
            (Expr::Bin(a1, op1, b1), Expr::Bin(a2, op2, b2)) => a1.eq(a2) && *op1 == *op2 && b1.eq(
                b2,
            ),
            _ => false,
        }
    }
}

impl PartialEqSpecImpl for Expr {
    open spec fn obeys_eq_spec() -> bool {
        true
    }

    open spec fn eq_spec(&self, other: &Expr) -> bool {
        self@ == other@
    }
}

impl Eq for Expr {

}

/// One instruction in the program.
#[derive(Debug)]
pub enum Instr {
    /// `dst = expr`
    Assign { dst: String, expr: Expr },
    /// `print value`, the only instruction with an observable effect.
    Print(Value),
}

/// The mathematical view of an `Instr`.
pub enum SpecInstr {
    Assign { dst: Seq<char>, expr: SpecExpr },
    Print(SpecValue),
}

impl View for Instr {
    type V = SpecInstr;

    open spec fn view(&self) -> SpecInstr {
        match self {
            Instr::Assign { dst, expr } => SpecInstr::Assign { dst: dst@, expr: expr@ },
            Instr::Print(v) => SpecInstr::Print(v@),
        }
    }
}

impl Clone for Instr {
    fn clone(&self) -> (r: Self)
        ensures
            r == *self,
    {
        match self {
            Instr::Assign { dst, expr } => Instr::Assign { dst: dst.clone(), expr: expr.clone() },
            Instr::Print(v) => Instr::Print(v.clone()),
        }
    }
}

impl PartialEq for Instr {
    fn eq(&self, other: &Self) -> (r: bool) {
        match (self, other) {
            (Instr::Assign { dst: d1, expr: e1 }, Instr::Assign { dst: d2, expr: e2 }) => d1.eq(d2)
                && e1.eq(e2),
            (Instr::Print(a), Instr::Print(b)) => a.eq(b),
            _ => false,
        }
    }
}

impl PartialEqSpecImpl for Instr {
    open spec fn obeys_eq_spec() -> bool {
        true
    }

    open spec fn eq_spec(&self, other: &Instr) -> bool {
        self@ == other@
    }
}

impl Eq for Instr {

}

/// The registers a value reads: its register, if it names one.
pub open spec fn value_regs(v: SpecValue) -> Seq<Seq<char>> {
    match v {
        SpecValue::Reg(r) => seq![r],
        SpecValue::Const(_) => seq![],
    }
}

/// The register an instruction defines, if any.
pub open spec fn spec_def(i: SpecInstr) -> Option<Seq<char>> {
    match i {
        SpecInstr::Assign { dst, .. } => Some(dst),
        SpecInstr::Print(_) => None,
    }
}

/// The registers an instruction reads, left to right.
pub open spec fn spec_uses(i: SpecInstr) -> Seq<Seq<char>> {
    match i {
        SpecInstr::Assign { expr, .. } => match expr {
            SpecExpr::Copy(v) => value_regs(v),
            SpecExpr::Bin(a, _, b) => value_regs(a) + value_regs(b),
        },
        SpecInstr::Print(v) => value_regs(v),
    }
}

fn push_value_reg<'a>(out: &mut Vec<&'a str>, v: &'a Value)
    ensures
        final(out)@.map_values(|s: &str| s@) == old(out)@.map_values(|s: &str| s@) + value_regs(
            v@,
        ),
{
    let ghost before = out@.map_values(|s: &str| s@);
    match v {
        Value::Reg(r) => {
            out.push(r.as_str());
            assert(out@.map_values(|s: &str| s@) =~= before + value_regs(v@));
        },
        Value::Const(_) => {
            assert(out@.map_values(|s: &str| s@) =~= before + value_regs(v@));
        },
    }
}

impl Instr {
    /// The register this instruction defines, if any.
    pub fn def(&self) -> (r: Option<&str>)
        ensures
            match r {
                Some(s) => spec_def(self@) == Some(s@),
                None => spec_def(self@) is None,
            },
    {
        match self {
            Instr::Assign { dst, .. } => Some(dst.as_str()),
            Instr::Print(_) => None,
        }
    }

    /// The registers this instruction reads.
    pub fn uses(&self) -> (r: Vec<&str>)
        ensures
            r@.map_values(|s: &str| s@) == spec_uses(self@),
    {
        let mut out: Vec<&str> = Vec::new();
        assert(out@.map_values(|s: &str| s@) =~= Seq::<Seq<char>>::empty());
        match self {
            Instr::Assign { expr, .. } => match expr {
                Expr::Copy(v) => {
                    push_value_reg(&mut out, v);
                    assert(Seq::<Seq<char>>::empty() + value_regs(v@) =~= value_regs(v@));
                },
                Expr::Bin(a, _, b) => {
                    push_value_reg(&mut out, a);
                    push_value_reg(&mut out, b);
                    assert(Seq::<Seq<char>>::empty() + value_regs(a@) + value_regs(b@)
                        =~= value_regs(a@) + value_regs(b@));
                },
            },
            Instr::Print(v) => {
                push_value_reg(&mut out, v);
                assert(Seq::<Seq<char>>::empty() + value_regs(v@) =~= value_regs(v@));
            },
        }
        out
    }

    /// True if this instruction has a side effect and can never be
    /// dropped by dead-code elimination.
    pub fn has_side_effect(&self) -> (r: bool)
        ensures
            r == (self@ is Print),
    {
        match self {
            Instr::Print(_) => true,
            Instr::Assign { .. } => false,
        }
    }
}

/// A whole program: an ordered list of instructions.
#[derive(Debug)]
pub struct Program {
    pub instrs: Vec<Instr>,
}

impl View for Program {
    type V = Seq<SpecInstr>;

    open spec fn view(&self) -> Seq<SpecInstr> {
        self.instrs@.map_values(|i: Instr| i@)
    }
}

impl Clone for Program {
    fn clone(&self) -> (r: Self)
        ensures
            r@ == self@,
    {
        let mut instrs: Vec<Instr> = Vec::new();
        let mut k: usize = 0;
        while k < self.instrs.len()
            invariant
                k <= self.instrs.len(),
                instrs@.map_values(|i: Instr| i@) == self@.take(k as int),
            decreases self.instrs.len() - k,
        {
            instrs.push(self.instrs[k].clone());
            proof {
                assert(self@.take(k + 1) =~= self@.take(k as int).push(self@[k as int]));
                assert(instrs@.map_values(|i: Instr| i@) =~= self@.take(k + 1));
            }
            k += 1;
        }
        assert(self@.take(k as int) =~= self@);
        Program { instrs }
    }
}

impl PartialEq for Program {
    fn eq(&self, other: &Self) -> (r: bool) {
        if self.instrs.len() != other.instrs.len() {
            assert(self@.len() != other@.len());
            return false;
        }
        let mut k: usize = 0;
        while k < self.instrs.len()
            invariant
                k <= self.instrs.len() == other.instrs.len(),
                forall|j: int| 0 <= j < k ==> self@[j] == other@[j],
            decreases self.instrs.len() - k,
        {
            if !self.instrs[k].eq(&other.instrs[k]) {
                assert(self@[k as int] != other@[k as int]);
                return false;
            }
            k += 1;
        }
        assert(self@ =~= other@);
        true
    }
}

impl PartialEqSpecImpl for Program {
    open spec fn obeys_eq_spec() -> bool {
        true
    }

    open spec fn eq_spec(&self, other: &Program) -> bool {
        self@ == other@
    }
}

impl Eq for Program {

}

impl Default for Program {
    fn default() -> (r: Self)
        ensures
            r@ == Seq::<SpecInstr>::empty(),
    {
        let r = Program { instrs: Vec::new() };
        assert(r@ =~= Seq::<SpecInstr>::empty());
        r
    }
}

// ---------------------------------------------------------------------
// Text form
// ---------------------------------------------------------------------

pub open spec fn value_text(v: SpecValue) -> Seq<char> {
    match v {
        SpecValue::Const(n) => text::int_text(n as int),
        SpecValue::Reg(r) => r,
    }
}

pub open spec fn expr_text(e: SpecExpr) -> Seq<char> {
    match e {
        SpecExpr::Copy(v) => value_text(v),
        SpecExpr::Bin(a, op, b) => value_text(a) + " "@ + op_text(op) + " "@ + value_text(b),
    }
}

/// An instruction as one line of IR text.
pub open spec fn instr_text(i: SpecInstr) -> Seq<char> {
    match i {
        SpecInstr::Assign { dst, expr } => dst + " = "@ + expr_text(expr),
        SpecInstr::Print(v) => "print "@ + value_text(v),
    }
}

/// A program as IR text: one instruction per line, lines joined by a
/// newline, no newline at the end.
pub open spec fn program_text(p: Seq<SpecInstr>) -> Seq<char>
    decreases p.len(),
{
    if p.len() == 0 {
        seq![]
    } else if p.len() == 1 {
        instr_text(p[0])
    } else {
        program_text(p.drop_last()) + "\n"@ + instr_text(p.last())
    }
}

fn append_value(s: &mut String, v: &Value)
    ensures
        final(s)@ == old(s)@ + value_text(v@),
{
    match v {
        Value::Const(n) => {
            let t = i64_text(*n);
            s.append(t.as_str());
        },
        Value::Reg(r) => {
            s.append(r.as_str());
        },
    }
}

fn append_expr(s: &mut String, e: &Expr)
    ensures
        final(s)@ == old(s)@ + expr_text(e@),
{
    match e {
        Expr::Copy(v) => append_value(s, v),
        Expr::Bin(a, op, b) => {
            let ghost s0 = s@;
            append_value(s, a);
            s.append(" ");
            s.append(op.as_str());
            s.append(" ");
            append_value(s, b);
            assert(s@ =~= s0 + expr_text(e@));
        },
    }
}

fn append_instr(s: &mut String, i: &Instr)
    ensures
        final(s)@ == old(s)@ + instr_text(i@),
{
    let ghost s0 = s@;
    match i {
        Instr::Assign { dst, expr } => {
            s.append(dst.as_str());
            s.append(" = ");
            append_expr(s, expr);
        },
        Instr::Print(v) => {
            s.append("print ");
            append_value(s, v);
        },
    }
    assert(s@ =~= s0 + instr_text(i@));
}

impl Value {
    /// The value as IR text.
    pub fn to_string(&self) -> (r: String)
        ensures
            r@ == value_text(self@),
    {
        let mut s = String::new();
        append_value(&mut s, self);
        assert(s@ =~= value_text(self@));
        s
    }
}

impl Expr {
    /// The expression as IR text.
    pub fn to_string(&self) -> (r: String)
        ensures
            r@ == expr_text(self@),
    {
        let mut s = String::new();
        append_expr(&mut s, self);
        assert(s@ =~= expr_text(self@));
        s
    }
}

impl Instr {
    /// The instruction as one line of IR text.
    pub fn to_string(&self) -> (r: String)
        ensures
            r@ == instr_text(self@),
    {
        let mut s = String::new();
        append_instr(&mut s, self);
        assert(s@ =~= instr_text(self@));
        s
    }
}

impl Program {
    /// The program as IR text, one instruction per line.
    pub fn to_string(&self) -> (r: String)
        ensures
            r@ == program_text(self@),
    {
        let mut s = String::new();
        let mut k: usize = 0;
        assert(s@ =~= program_text(self@.take(0)));
        while k < self.instrs.len()
            invariant
                k <= self.instrs.len(),
                s@ == program_text(self@.take(k as int)),
            decreases self.instrs.len() - k,
        {
            let ghost s0 = s@;
            if k > 0 {
                s.append("\n");
            }
            append_instr(&mut s, &self.instrs[k]);
            proof {
                let t = self@.take(k + 1);
                assert(t.drop_last() =~= self@.take(k as int));
                assert(t.last() == self@[k as int]);
                if k == 0 {
                    assert(s@ =~= instr_text(t[0]));
                } else {
                    assert(s@ =~= program_text(t.drop_last()) + "\n"@ + instr_text(t.last()));
                }
            }
            k += 1;
        }
        assert(self@.take(k as int) =~= self@);
        s
    }
}

// ---------------------------------------------------------------------
// Parsing
// ---------------------------------------------------------------------

/// A parse error, with the 1-based line number and a message.
#[derive(Debug)]
pub struct ParseError {
    pub line: usize,
    pub message: String,
}

/// The mathematical view of a `ParseError`.
pub struct SpecParseError {
    pub line: nat,
    pub message: Seq<char>,
}

impl View for ParseError {
    type V = SpecParseError;

    open spec fn view(&self) -> SpecParseError {
        SpecParseError { line: self.line as nat, message: self.message@ }
    }
}

impl Clone for ParseError {
    fn clone(&self) -> (r: Self)
        ensures
            r == *self,
    {
        ParseError { line: self.line, message: self.message.clone() }
    }
}

impl PartialEq for ParseError {
    fn eq(&self, other: &Self) -> (r: bool) {
        self.line == other.line && self.message.eq(&other.message)
    }
}

impl PartialEqSpecImpl for ParseError {
    open spec fn obeys_eq_spec() -> bool {
        true
    }

    open spec fn eq_spec(&self, other: &ParseError) -> bool {
        self@ == other@
    }
}

impl Eq for ParseError {

}

impl ParseError {
    /// The error as text: `line N: message`.
    pub fn to_string(&self) -> (r: String)
        ensures
            r@ == "line "@ + text::nat_text(self.line as nat) + ": "@ + self.message@,
    {
        let mut s = String::new();
        s.append("line ");
        let n = usize_text(self.line);
        s.append(n.as_str());
        s.append(": ");
        s.append(self.message.as_str());
        assert(s@ =~= "line "@ + text::nat_text(self.line as nat) + ": "@ + self.message@);
        s
    }
}

/// A register name: an ASCII letter or `_`, then ASCII letters, digits
/// or `_`.
pub open spec fn is_ident_text(s: Seq<char>) -> bool {
    &&& s.len() > 0
    &&& text::is_ident_start(s[0])
    &&& forall|k: int| 1 <= k < s.len() ==> text::is_ident_continue(#[trigger] s[k])
}

pub open spec fn parse_error(line: nat, message: Seq<char>) -> SpecParseError {
    SpecParseError { line, message }
}

/// A word read as an operand: an integer if it parses as one, else a
/// register if it is a register name.
pub open spec fn spec_parse_value(tok: Seq<char>, line: nat) -> Result<SpecValue, SpecParseError> {
    match text::parse_i64(tok) {
        Some(n) => Ok(SpecValue::Const(n)),
        None => if is_ident_text(tok) {
            Ok(SpecValue::Reg(tok))
        } else {
            Err(
                parse_error(
                    line,
                    "expected a number or a register name, found `"@ + tok + "`"@,
                ),
            )
        },
    }
}

pub open spec fn msg_bad_shape() -> Seq<char> {
    "expected `dst = value`, `dst = value op value`, or `print value`"@
}

/// The outcome of one line, given its words: nothing (a blank or
/// comment line), one instruction, or an error.
pub open spec fn spec_parse_line(toks: Seq<Seq<char>>, line: nat) -> Result<
    Option<SpecInstr>,
    SpecParseError,
> {
    if toks.len() == 0 {
        Ok(None)
    } else if toks[0] == "print"@ {
        if toks.len() != 2 {
            Err(
                parse_error(
                    line,
                    "`print` takes exactly one value, found "@ + text::nat_text((toks.len() - 1) as nat)
                        + " tokens"@,
                ),
            )
        } else {
            match spec_parse_value(toks[1], line) {
                Ok(v) => Ok(Some(SpecInstr::Print(v))),
                Err(e) => Err(e),
            }
        }
    } else if toks.len() < 3 || toks[1] != "="@ {
        Err(parse_error(line, msg_bad_shape()))
    } else if !is_ident_text(toks[0]) {
        Err(parse_error(line, "`"@ + toks[0] + "` is not a valid register name"@))
    } else if toks.len() == 3 {
        match spec_parse_value(toks[2], line) {
            Ok(v) => Ok(Some(SpecInstr::Assign { dst: toks[0], expr: SpecExpr::Copy(v) })),
            Err(e) => Err(e),
        }
    } else if toks.len() == 5 {
        match spec_parse_value(toks[2], line) {
            Err(e) => Err(e),
            Ok(a) => match op_of_text(toks[3]) {
                None => Err(parse_error(line, "unknown operator `"@ + toks[3] + "`"@)),
                Some(op) => match spec_parse_value(toks[4], line) {
                    Err(e) => Err(e),
                    Ok(b) => Ok(
                        Some(SpecInstr::Assign { dst: toks[0], expr: SpecExpr::Bin(a, op, b) }),
                    ),
                },
            },
        }
    } else {
        Err(
            parse_error(
                line,
                "expected `dst = value` or `dst = value op value`, found "@ + text::nat_text(
                    toks.len(),
                ) + " tokens"@,
            ),
        )
    }
}

/// Parse the text `s`, whose first line is line `idx + 1` of the source.
/// Lines end at `\n`; each line contributes what `spec_parse_line` makes
/// of its words; the first error stops the parse.
pub open spec fn parse_from(s: Seq<char>, idx: nat) -> Result<Seq<SpecInstr>, SpecParseError>
    decreases s.len(),
{
    if s.len() == 0 {
        Ok(seq![])
    } else {
        let n = text::first_index(s, '\n');
        let rest = if n < s.len() {
            s.skip((n + 1) as int)
        } else {
            seq![]
        };
        if rest.len() < s.len() {
            match spec_parse_line(text::line_words(s.take(n as int)), idx + 1) {
                Err(e) => Err(e),
                Ok(None) => parse_from(rest, idx + 1),
                Ok(Some(i)) => match parse_from(rest, idx + 1) {
                    Ok(p) => Ok(seq![i] + p),
                    Err(e) => Err(e),
                },
            }
        } else {
            Ok(seq![])
        }
    }
}

/// What `parse` makes of a source text.
pub open spec fn spec_parse(source: Seq<char>) -> Result<Seq<SpecInstr>, SpecParseError> {
    parse_from(source, 0)
}

pub open spec fn prepend(pre: Seq<SpecInstr>, r: Result<Seq<SpecInstr>, SpecParseError>) -> Result<
    Seq<SpecInstr>,
    SpecParseError,
> {
    match r {
        Ok(p) => Ok(pre + p),
        Err(e) => Err(e),
    }
}

proof fn lemma_parse_line_error_line(toks: Seq<Seq<char>>, line: nat)
    ensures
        spec_parse_line(toks, line) matches Err(e) ==> e.line == line,
{
}

proof fn lemma_parse_from_error_line(s: Seq<char>, idx: nat)
    ensures
        parse_from(s, idx) matches Err(e) ==> idx + 1 <= e.line <= idx + newlines(s) + 1,
    decreases s.len(),
{
    if s.len() > 0 {
        let n = text::first_index(s, '\n');
        text::lemma_first_index(s, '\n');
        let rest = if n < s.len() {
            s.skip((n + 1) as int)
        } else {
            seq![]
        };
        lemma_parse_line_error_line(text::line_words(s.take(n as int)), idx + 1);
        lemma_parse_from_error_line(rest, idx + 1);
        if n < s.len() {
            assert(s =~= s.take(n as int) + (seq!['\n'] + rest));
            lemma_newlines_concat(s.take(n as int), seq!['\n'] + rest);
            lemma_newlines_concat(seq!['\n'], rest);
            assert(forall|k: int| 0 <= k < s.take(n as int).len() ==> s.take(n as int)[k] == s[k]);
            lemma_newlines_none(s.take(n as int));
            let nl = seq!['\n'];
            assert(nl.drop_first() =~= Seq::<char>::empty());
            assert(nl[0] == '\n');
            assert(newlines(nl.drop_first()) == 0);
        }
    }
}

/// Bad input is reported with the number of a line of the source: at
/// least 1, and at most the number of lines (one more than the number
/// of line breaks).
pub proof fn lemma_parse_error_line(source: Seq<char>)
    ensures
        spec_parse(source) matches Err(e) ==> 1 <= e.line <= newlines(source) + 1,
{
    lemma_parse_from_error_line(source, 0);
}

/// The number of line breaks in `s`.
pub open spec fn newlines(s: Seq<char>) -> nat
    decreases s.len(),
{
    if s.len() == 0 {
        0
    } else {
        (if s[0] == '\n' {
            1nat
        } else {
            0nat
        }) + newlines(s.drop_first())
    }
}

proof fn lemma_newlines_concat(x: Seq<char>, y: Seq<char>)
    ensures
        newlines(x + y) == newlines(x) + newlines(y),
    decreases x.len(),
{
    if x.len() == 0 {
        assert(x + y =~= y);
    } else {
        assert((x + y).drop_first() =~= x.drop_first() + y);
        lemma_newlines_concat(x.drop_first(), y);
    }
}

proof fn lemma_newlines_none(x: Seq<char>)
    requires
        forall|k: int| 0 <= k < x.len() ==> x[k] != '\n',
    ensures
        newlines(x) == 0,
    decreases x.len(),
{
    if x.len() > 0 {
        assert forall|k: int| 0 <= k < x.drop_first().len() implies x.drop_first()[k] != '\n' by {
            assert(x.drop_first()[k] == x[k + 1]);
        }
        lemma_newlines_none(x.drop_first());
    }
}

/// The result of parsing one text after another: the first error, or
/// the instructions of both in order.
pub open spec fn then_parse(
    first: Result<Seq<SpecInstr>, SpecParseError>,
    second: Result<Seq<SpecInstr>, SpecParseError>,
) -> Result<Seq<SpecInstr>, SpecParseError> {
    match first {
        Err(e) => Err(e),
        Ok(p1) => match second {
            Err(e) => Err(e),
            Ok(p2) => Ok(p1 + p2),
        },
    }
}

/// Parsing two texts joined by a line break is parsing the first, then
/// the second with its lines numbered after those of the first: the
/// instructions come in order, and the first error wins.
pub proof fn lemma_parse_concat(a: Seq<char>, b: Seq<char>, idx: nat)
    ensures
        parse_from(a + seq!['\n'] + b, idx) == then_parse(
            parse_from(a, idx),
            parse_from(b, idx + newlines(a) + 1),
        ),
    decreases a.len(),
{
    let s = a + seq!['\n'] + b;
    let m = text::first_index(a, '\n');
    text::lemma_first_index(a, '\n');
    if m < a.len() {
        // The first line ends inside `a`.
        assert forall|k: int| 0 <= k < m implies s[k] != '\n' by {
            assert(s[k] == a[k]);
        }
        assert(s[m as int] == a[m as int]);
        text::lemma_first_index_unique(s, '\n', m);
        let a2 = a.skip((m + 1) as int);
        assert(s.take(m as int) =~= a.take(m as int));
        assert(s.skip((m + 1) as int) =~= a2 + seq!['\n'] + b);
        lemma_parse_concat(a2, b, idx + 1);
        assert(a =~= a.take(m as int) + (seq!['\n'] + a2));
        lemma_newlines_concat(a.take(m as int), seq!['\n'] + a2);
        lemma_newlines_concat(seq!['\n'], a2);
        assert(forall|k: int| 0 <= k < a.take(m as int).len() ==> a.take(m as int)[k] == a[k]);
        lemma_newlines_none(a.take(m as int));
        assert(newlines(seq!['\n']) == 1) by {
            let nl = seq!['\n'];
            assert(nl.drop_first() =~= Seq::<char>::empty());
            assert(nl[0] == '\n');
            assert(newlines(nl.drop_first()) == 0);
        }
        let line = spec_parse_line(text::line_words(a.take(m as int)), idx + 1);
        let r1 = parse_from(a2, idx + 1);
        let r2 = parse_from(b, idx + newlines(a) + 1);
        if line is Ok && line->Ok_0 is Some && r1 is Ok && r2 is Ok {
            let i = line->Ok_0->Some_0;
            assert(seq![i] + (r1->Ok_0 + r2->Ok_0) =~= (seq![i] + r1->Ok_0) + r2->Ok_0);
        }
    } else {
        // `a` holds no line break: it is the first line.
        assert forall|k: int| 0 <= k < a.len() implies s[k] != '\n' by {
            assert(s[k] == a[k]);
        }
        assert(s[a.len() as int] == '\n');
        text::lemma_first_index_unique(s, '\n', a.len());
        assert(s.take(a.len() as int) =~= a);
        assert(s.skip((a.len() + 1) as int) =~= b);
        lemma_newlines_none(a);
        if a.len() == 0 {
            assert(text::line_words(a) =~= Seq::<Seq<char>>::empty());
            assert(parse_from(b, idx + 1) matches Ok(p) ==> Seq::<SpecInstr>::empty() + p =~= p);
        } else {
            assert(a.take(a.len() as int) =~= a);
            assert(parse_from(Seq::<char>::empty(), idx + 1) == Ok::<Seq<SpecInstr>, SpecParseError>(seq![]));
            let line = spec_parse_line(text::line_words(a), idx + 1);
            let r2 = parse_from(b, idx + 1);
            if line is Ok && line->Ok_0 is Some && r2 is Ok {
                let i = line->Ok_0->Some_0;
                assert((seq![i] + Seq::<SpecInstr>::empty()) + r2->Ok_0 =~= seq![i] + r2->Ok_0);
            }
            if line is Ok && line->Ok_0 is None && r2 is Ok {
                assert(Seq::<SpecInstr>::empty() + r2->Ok_0 =~= r2->Ok_0);
            }
        }
    }
}

// ---------------------------------------------------------------------
// Reading back the text form
// ---------------------------------------------------------------------

/// A value the parser can produce: a constant, or a register whose name
/// is a register name.
pub open spec fn wf_value(v: SpecValue) -> bool {
    match v {
        SpecValue::Const(_) => true,
        SpecValue::Reg(r) => is_ident_text(r),
    }
}

/// An instruction the parser can produce: register names throughout,
/// and no assignment to a register called `print`.
pub open spec fn wf_instr(i: SpecInstr) -> bool {
    match i {
        SpecInstr::Assign { dst, expr } => {
            &&& is_ident_text(dst)
            &&& dst != "print"@
            &&& match expr {
                SpecExpr::Copy(v) => wf_value(v),
                SpecExpr::Bin(a, _, b) => wf_value(a) && wf_value(b),
            }
        },
        SpecInstr::Print(v) => wf_value(v),
    }
}

pub open spec fn wf_program(p: Seq<SpecInstr>) -> bool {
    forall|k: int| 0 <= k < p.len() ==> wf_instr(#[trigger] p[k])
}

/// The words an instruction is written with.
pub open spec fn instr_words(i: SpecInstr) -> Seq<Seq<char>> {
    match i {
        SpecInstr::Assign { dst, expr } => match expr {
            SpecExpr::Copy(v) => seq![dst, "="@, value_text(v)],
            SpecExpr::Bin(a, op, b) => seq![dst, "="@, value_text(a), op_text(op), value_text(b)],
        },
        SpecInstr::Print(v) => seq!["print"@, value_text(v)],
    }
}

/// A word with no whitespace, `#` or line break in it.
pub open spec fn single_word(w: Seq<char>) -> bool {
    text::plain_word(w) && forall|k: int| 0 <= k < w.len() ==> (#[trigger] w[k]) != '\n'
}

proof fn lemma_ident_word(r: Seq<char>)
    requires
        is_ident_text(r),
    ensures
        single_word(r),
        text::parse_i64(r) is None,
{
    assert forall|k: int| 0 <= k < r.len() implies !text::is_ws(#[trigger] r[k]) && r[k] != '#'
        && r[k] != '\n' by {
        if k > 0 {
            assert(text::is_ident_continue(r[k]));
        }
    }
    assert(!text::is_ascii_digit(r[0]));
}

proof fn lemma_value_word(v: SpecValue, line: nat)
    requires
        wf_value(v),
    ensures
        single_word(value_text(v)),
        spec_parse_value(value_text(v), line) == Ok::<SpecValue, SpecParseError>(v),
{
    match v {
        SpecValue::Const(n) => {
            text::lemma_int_text_parses(n);
        },
        SpecValue::Reg(r) => {
            lemma_ident_word(r);
        },
    }
}

proof fn lemma_literals()
    ensures
        "="@ =~= seq!['='],
        " = "@ =~= seq![' ', '=', ' '],
        " "@ =~= seq![' '],
        "print"@ =~= seq!['p', 'r', 'i', 'n', 't'],
        "print "@ =~= seq!['p', 'r', 'i', 'n', 't', ' '],
        "\n"@ =~= seq!['\n'],
{
    reveal_strlit("=");
    reveal_strlit(" = ");
    reveal_strlit(" ");
    reveal_strlit("print");
    reveal_strlit("print ");
    reveal_strlit("\n");
}

proof fn lemma_op_word(op: BinOp)
    ensures
        single_word(op_text(op)),
{
    reveal_strlit("+");
    reveal_strlit("-");
    reveal_strlit("*");
    reveal_strlit("/");
    reveal_strlit("==");
    reveal_strlit("!=");
    reveal_strlit("<");
    reveal_strlit("<=");
    reveal_strlit(">");
    reveal_strlit(">=");
    let t = op_text(op);
    assert forall|k: int| 0 <= k < t.len() implies !text::is_ws(#[trigger] t[k]) && t[k] != '#'
        && t[k] != '\n' by {
        assert(t[k] == '+' || t[k] == '-' || t[k] == '*' || t[k] == '/' || t[k] == '=' || t[k]
            == '!' || t[k] == '<' || t[k] == '>');
    }
}

/// Words joined by single spaces: the words back, and no line break.
proof fn lemma_join_words(w: Seq<char>, rest: Seq<char>, rest_words: Seq<Seq<char>>)
    requires
        single_word(w),
        text::split_ws(rest) == rest_words,
        forall|k: int| 0 <= k < rest.len() ==> rest[k] != '#' && rest[k] != '\n',
    ensures
        text::split_ws(w + seq![' '] + rest) == seq![w] + rest_words,
        forall|k: int|
            0 <= k < (w + seq![' '] + rest).len() ==> (w + seq![' '] + rest)[k] != '#' && (w
                + seq![' '] + rest)[k] != '\n',
{
    let r2 = seq![' '] + rest;
    assert(w + seq![' '] + rest =~= w + r2);
    text::lemma_split_word(w, r2);
    text::lemma_split_ws_skip(' ', rest);
    let s = w + seq![' '] + rest;
    assert forall|k: int| 0 <= k < s.len() implies s[k] != '#' && s[k] != '\n' by {
        if k < w.len() {
            assert(s[k] == w[k]);
        } else if k > w.len() {
            assert(s[k] == rest[k - w.len() - 1]);
        }
    }
}

proof fn lemma_last_word(w: Seq<char>)
    requires
        single_word(w),
    ensures
        text::split_ws(w) == seq![w],
{
    text::lemma_split_word(w, Seq::<char>::empty());
    assert(w + Seq::<char>::empty() =~= w);
    assert(seq![w] + Seq::<Seq<char>>::empty() =~= seq![w]);
}

/// The text of an instruction is one line, made of its words.
proof fn lemma_instr_line(i: SpecInstr)
    requires
        wf_instr(i),
    ensures
        text::line_words(instr_text(i)) == instr_words(i),
        instr_text(i).len() > 0,
        forall|k: int| 0 <= k < instr_text(i).len() ==> (#[trigger] instr_text(i)[k]) != '\n',
{
    lemma_literals();
    let eq = seq!['='];
    assert(single_word(eq));
    let t = instr_text(i);
    match i {
        SpecInstr::Assign { dst, expr } => {
            lemma_ident_word(dst);
            match expr {
                SpecExpr::Copy(v) => {
                    let vt = value_text(v);
                    lemma_value_word(v, 0);
                    lemma_last_word(vt);
                    lemma_join_words(eq, vt, seq![vt]);
                    lemma_join_words(dst, eq + seq![' '] + vt, seq![eq] + seq![vt]);
                    assert(t =~= dst + seq![' '] + (eq + seq![' '] + vt));
                    assert(seq![dst] + (seq![eq] + seq![vt]) =~= instr_words(i));
                },
                SpecExpr::Bin(a, op, b) => {
                    let at = value_text(a);
                    let ot = op_text(op);
                    let bt = value_text(b);
                    lemma_value_word(a, 0);
                    lemma_value_word(b, 0);
                    lemma_op_word(op);
                    lemma_last_word(bt);
                    lemma_join_words(ot, bt, seq![bt]);
                    lemma_join_words(at, ot + seq![' '] + bt, seq![ot] + seq![bt]);
                    let r3 = at + seq![' '] + (ot + seq![' '] + bt);
                    let w3 = seq![at] + (seq![ot] + seq![bt]);
                    lemma_join_words(eq, r3, w3);
                    lemma_join_words(dst, eq + seq![' '] + r3, seq![eq] + w3);
                    assert(t =~= dst + seq![' '] + (eq + seq![' '] + r3));
                    assert(seq![dst] + (seq![eq] + w3) =~= instr_words(i));
                },
            }
        },
        SpecInstr::Print(v) => {
            let vt = value_text(v);
            let pr = seq!['p', 'r', 'i', 'n', 't'];
            assert(single_word(pr));
            lemma_value_word(v, 0);
            lemma_last_word(vt);
            lemma_join_words(pr, vt, seq![vt]);
            assert(t =~= pr + seq![' '] + vt);
            assert(seq![pr] + seq![vt] =~= instr_words(i));
        },
    }
    text::lemma_line_words_no_comment(t);
}

/// The words of an instruction parse back to that instruction.
proof fn lemma_parse_instr_words(i: SpecInstr, line: nat)
    requires
        wf_instr(i),
    ensures
        spec_parse_line(instr_words(i), line) == Ok::<Option<SpecInstr>, SpecParseError>(Some(i)),
{
    lemma_literals();
    match i {
        SpecInstr::Assign { dst, expr } => match expr {
            SpecExpr::Copy(v) => {
                lemma_value_word(v, line);
            },
            SpecExpr::Bin(a, op, b) => {
                lemma_value_word(a, line);
                lemma_value_word(b, line);
                lemma_op_text_round_trip(op, op_text(op));
            },
        },
        SpecInstr::Print(v) => {
            lemma_value_word(v, line);
        },
    }
}

proof fn lemma_parse_instr_text(i: SpecInstr, idx: nat)
    requires
        wf_instr(i),
    ensures
        parse_from(instr_text(i), idx) == Ok::<Seq<SpecInstr>, SpecParseError>(seq![i]),
{
    let s = instr_text(i);
    lemma_instr_line(i);
    lemma_parse_instr_words(i, idx + 1);
    text::lemma_first_index_unique(s, '\n', s.len());
    assert(s.take(s.len() as int) =~= s);
    assert(parse_from(Seq::<char>::empty(), idx + 1) == Ok::<Seq<SpecInstr>, SpecParseError>(
        seq![],
    ));
    assert(seq![i] + Seq::<SpecInstr>::empty() =~= seq![i]);
}

/// Parsing the text of a program the parser could have produced gives
/// that program back, whatever line the text starts on.
pub proof fn lemma_parse_program_text(p: Seq<SpecInstr>, idx: nat)
    requires
        wf_program(p),
    ensures
        parse_from(program_text(p), idx) == Ok::<Seq<SpecInstr>, SpecParseError>(p),
    decreases p.len(),
{
    if p.len() == 0 {
        assert(p =~= Seq::<SpecInstr>::empty());
    } else if p.len() == 1 {
        assert(wf_instr(p[0]));
        lemma_parse_instr_text(p[0], idx);
        assert(seq![p[0]] =~= p);
    } else {
        let a = program_text(p.drop_last());
        let b = instr_text(p.last());
        lemma_literals();
        assert(program_text(p) =~= a + seq!['\n'] + b);
        assert(wf_program(p.drop_last()));
        assert(wf_instr(p[p.len() - 1]));
        lemma_parse_program_text(p.drop_last(), idx);
        lemma_parse_instr_text(p.last(), idx + newlines(a) + 1);
        lemma_parse_concat(a, b, idx);
        assert(p.drop_last() + seq![p.last()] =~= p);
    }
}

/// Printing a program the parser could have produced and parsing the
/// text gives the program back.
pub proof fn lemma_print_then_parse(p: Seq<SpecInstr>)
    requires
        wf_program(p),
    ensures
        spec_parse(program_text(p)) == Ok::<Seq<SpecInstr>, SpecParseError>(p),
{
    lemma_parse_program_text(p, 0);
}

proof fn lemma_parse_line_wf(toks: Seq<Seq<char>>, line: nat)
    ensures
        spec_parse_line(toks, line) matches Ok(Some(i)) ==> wf_instr(i),
{
}

proof fn lemma_parse_from_wf(s: Seq<char>, idx: nat)
    ensures
        parse_from(s, idx) matches Ok(p) ==> wf_program(p),
    decreases s.len(),
{
    if s.len() > 0 {
        let n = text::first_index(s, '\n');
        let rest = if n < s.len() {
            s.skip((n + 1) as int)
        } else {
            seq![]
        };
        let toks = text::line_words(s.take(n as int));
        lemma_parse_line_wf(toks, idx + 1);
        lemma_parse_from_wf(rest, idx + 1);
        if let Ok(Some(i)) = spec_parse_line(toks, idx + 1) {
            if let Ok(p2) = parse_from(rest, idx + 1) {
                let p = seq![i] + p2;
                assert forall|k: int| 0 <= k < p.len() implies wf_instr(#[trigger] p[k]) by {
                    if k > 0 {
                        assert(p[k] == p2[k - 1]);
                    }
                }
            }
        }
    }
}

/// Whatever the parser reads, printing it and parsing the text again
/// gives the same program.
pub proof fn lemma_parse_print_parse(source: Seq<char>)
    ensures
        spec_parse(source) matches Ok(p) ==> spec_parse(program_text(p)) == Ok::<
            Seq<SpecInstr>,
            SpecParseError,
        >(p),
{
    lemma_parse_from_wf(source, 0);
    if let Ok(p) = spec_parse(source) {
        lemma_print_then_parse(p);
    }
}

fn is_ident(s: &str) -> (r: bool)
    ensures
        r == is_ident_text(s@),
{
    let v = chars_of(s);
    if v.len() == 0 || !ident_start(v[0]) {
        return false;
    }
    let mut k: usize = 1;
    while k < v.len()
        invariant
            v@ == s@,
            1 <= k <= v.len(),
            forall|j: int| 1 <= j < k ==> text::is_ident_continue(#[trigger] v@[j]),
        decreases v.len() - k,
    {
        if !ident_continue(v[k]) {
            return false;
        }
        k += 1;
    }
    true
}

fn parse_value(tok: &str, line: usize) -> (r: Result<Value, ParseError>)
    ensures
        match r {
            Ok(v) => spec_parse_value(tok@, line as nat) == Ok::<SpecValue, SpecParseError>(v@),
            Err(e) => spec_parse_value(tok@, line as nat) == Err::<SpecValue, SpecParseError>(e@),
        },
{
    let v = chars_of(tok);
    if let Some(n) = read_i64(&v) {
        return Ok(Value::Const(n));
    }
    if is_ident(tok) {
        return Ok(Value::Reg(String::from_str(tok)));
    }
    let mut message = String::new();
    message.append("expected a number or a register name, found `");
    message.append(tok);
    message.append("`");
    assert(message@ =~= "expected a number or a register name, found `"@ + tok@ + "`"@);
    Err(ParseError { line, message })
}

pub open spec fn instr_opt_view(o: Option<Instr>) -> Option<SpecInstr> {
    match o {
        Some(i) => Some(i@),
        None => None,
    }
}

fn count_message(prefix: &str, n: usize) -> (r: String)
    ensures
        r@ == prefix@ + text::nat_text(n as nat) + " tokens"@,
{
    let mut message = String::new();
    message.append(prefix);
    let t = usize_text(n);
    message.append(t.as_str());
    message.append(" tokens");
    assert(message@ =~= prefix@ + text::nat_text(n as nat) + " tokens"@);
    message
}

/// Parse one line, given its words.
fn parse_line(tokens: &Vec<String>, line: usize) -> (r: Result<Option<Instr>, ParseError>)
    ensures
        match r {
            Ok(o) => spec_parse_line(tokens@.map_values(|w: String| w@), line as nat) == Ok::<
                Option<SpecInstr>,
                SpecParseError,
            >(instr_opt_view(o)),
            Err(e) => spec_parse_line(tokens@.map_values(|w: String| w@), line as nat) == Err::<
                Option<SpecInstr>,
                SpecParseError,
            >(e@),
        },
{
    let ghost toks = tokens@.map_values(|w: String| w@);
    if tokens.len() == 0 {
        return Ok(None);
    }
    assert(toks[0] == tokens@[0]@);
    if str_eq(tokens[0].as_str(), "print") {
        if tokens.len() != 2 {
            let message = count_message("`print` takes exactly one value, found ", tokens.len() - 1);
            return Err(ParseError { line, message });
        }
        assert(toks[1] == tokens@[1]@);
        let v = parse_value(tokens[1].as_str(), line)?;
        return Ok(Some(Instr::Print(v)));
    }
    if tokens.len() < 3 || !str_eq(tokens[1].as_str(), "=") {
        proof {
            if tokens.len() >= 3 {
                assert(toks[1] == tokens@[1]@);
            }
        }
        return Err(ParseError { line, message: String::from_str("expected `dst = value`, `dst = value op value`, or `print value`") });
    }
    assert(toks[1] == tokens@[1]@);
    assert(toks[2] == tokens@[2]@);
    let dst = &tokens[0];
    if !is_ident(dst.as_str()) {
        let mut message = String::new();
        message.append("`");
        message.append(dst.as_str());
        message.append("` is not a valid register name");
        assert(message@ =~= "`"@ + toks[0] + "` is not a valid register name"@);
        return Err(ParseError { line, message });
    }
    let expr = if tokens.len() == 3 {
        Expr::Copy(parse_value(tokens[2].as_str(), line)?)
    } else if tokens.len() == 5 {
        assert(toks[3] == tokens@[3]@);
        assert(toks[4] == tokens@[4]@);
        let a = parse_value(tokens[2].as_str(), line)?;
        let op = match BinOp::from_str(tokens[3].as_str()) {
            Some(op) => op,
            None => {
                let mut message = String::new();
                message.append("unknown operator `");
                message.append(tokens[3].as_str());
                message.append("`");
                assert(message@ =~= "unknown operator `"@ + toks[3] + "`"@);
                return Err(ParseError { line, message });
            },
        };
        let b = parse_value(tokens[4].as_str(), line)?;
        Expr::Bin(a, op, b)
    } else {
        let message = count_message(
            "expected `dst = value` or `dst = value op value`, found ",
            tokens.len(),
        );
        return Err(ParseError { line, message });
    };
    Ok(Some(Instr::Assign { dst: dst.clone(), expr }))
}

/// Parse Whetstone IR text into a `Program`.
///
/// Grammar, one instruction per line, blank lines and lines starting
/// with `#` are ignored:
/// ```text
/// dst = value
/// dst = value op value
/// print value
/// ```
pub fn parse(source: &str) -> (r: Result<Program, ParseError>)
    ensures
        match r {
            Ok(p) => spec_parse(source@) == Ok::<Seq<SpecInstr>, SpecParseError>(p@),
            Err(e) => spec_parse(source@) == Err::<Seq<SpecInstr>, SpecParseError>(e@),
        },
{
    let chars = chars_of(source);
    let mut instrs: Vec<Instr> = Vec::new();
    let mut pos: usize = 0;
    let mut idx: usize = 0;
    assert(chars@.skip(0) =~= chars@);
    assert(instrs@.map_values(|i: Instr| i@) =~= Seq::<SpecInstr>::empty());
    while pos < chars.len()
        invariant
            chars@ == source@,
            pos <= chars.len(),
            idx <= pos,
            spec_parse(source@) == prepend(
                instrs@.map_values(|i: Instr| i@),
                parse_from(chars@.skip(pos as int), idx as nat),
            ),
        decreases chars.len() - pos,
    {
        let ghost s = chars@.skip(pos as int);
        let end = find_char(&chars, pos, chars.len(), '\n');
        proof {
            assert(chars@.subrange(pos as int, chars.len() as int) =~= s);
            text::lemma_first_index(s, '\n');
            assert(s.take(end - pos) =~= chars@.subrange(pos as int, end as int));
        }
        let words = words_of_line(&chars, pos, end);
        let next = if end < chars.len() {
            end + 1
        } else {
            end
        };
        proof {
            let n = text::first_index(s, '\n');
            if n < s.len() {
                assert(s.skip((n + 1) as int) =~= chars@.skip(next as int));
            } else {
                assert(chars@.skip(next as int) =~= Seq::<char>::empty());
            }
        }
        let ghost before = instrs@.map_values(|i: Instr| i@);
        match parse_line(&words, idx + 1) {
            Err(e) => {
                return Err(e);
            },
            Ok(None) => {},
            Ok(Some(instr)) => {
                instrs.push(instr);
                proof {
                    assert(instrs@.map_values(|i: Instr| i@) =~= before.push(instrs@.last()@));
                    let r = parse_from(chars@.skip(next as int), (idx + 1) as nat);
                    if r is Ok {
                        assert(before.push(instrs@.last()@) + r->Ok_0 =~= before + (seq![
                            instrs@.last()@,
                        ] + r->Ok_0));
                    }
                }
            },
        }
        pos = next;
        idx = idx + 1;
    }
    proof {
        assert(chars@.skip(pos as int) =~= Seq::<char>::empty());
        assert(instrs@.map_values(|i: Instr| i@) + Seq::<SpecInstr>::empty() =~= instrs@.map_values(
            |i: Instr| i@,
        ));
    }
    Ok(Program { instrs })
}

} // verus!
