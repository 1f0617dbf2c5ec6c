use whetstone::ir::parse;
use whetstone::render::render_output;
use whetstone::passes::{
    algebraic_simplify, constant_fold, constant_propagate, dead_code_eliminate, optimize,
    MAX_ITERATIONS,
};

#[test]
fn folds_a_literal_chain() {
    let prog = parse("t1 = 2 + 3\nt2 = t1 * 4\nprint t2\n").unwrap();
    let result = optimize(&prog);
    // Folds to a single constant, then t1 and t2 are dead once
    // their value has been propagated all the way to the print.
    assert_eq!(result.final_program.to_string(), "print 20");
}

#[test]
fn propagates_then_folds_a_dependent_chain() {
    let prog = parse("t1 = 5\nt2 = t1\nt3 = t2 + 1\nprint t3\n").unwrap();
    let result = optimize(&prog);
    // t1 is dead once everything downstream is folded to a literal.
    assert_eq!(result.final_program.to_string(), "print 6");
}

#[test]
fn simplifies_identity_multiply_and_add() {
    // Constant propagation only tracks registers known to hold a
    // constant, x is a free variable, so the register-to-register
    // copies stay, but each identity rewrites to a plain copy.
    let prog = parse("t1 = x * 1\nt2 = t1 + 0\nprint t2\n").unwrap();
    let result = optimize(&prog);
    assert_eq!(result.final_program.to_string(), "t1 = x\nt2 = t1\nprint t2");
}

#[test]
fn simplifies_multiply_by_zero() {
    let prog = parse("t1 = x * 0\nprint t1\n").unwrap();
    let result = optimize(&prog);
    assert_eq!(result.final_program.to_string(), "print 0");
}

#[test]
fn removes_unused_pure_instruction() {
    let prog = parse("t1 = x + 1\nt2 = 5\nprint t2\n").unwrap();
    let result = optimize(&prog);
    assert_eq!(result.final_program.to_string(), "print 5");
}

#[test]
fn keeps_a_value_that_is_used() {
    let prog = parse("t1 = x + 1\nprint t1\n").unwrap();
    let result = optimize(&prog);
    assert_eq!(result.final_program.to_string(), "t1 = x + 1\nprint t1");
}

#[test]
fn terminates_within_the_iteration_cap() {
    let mut src = String::new();
    for i in 0..200 {
        src.push_str(&format!("t{i} = {i} + 1\n"));
    }
    src.push_str("print t0\n");
    let prog = parse(&src).unwrap();
    let result = optimize(&prog);
    assert!(result.iterations <= MAX_ITERATIONS);
    assert!(!result.hit_cap, "pipeline should reach a real fixed point, not the cap");
}

#[test]
fn folding_leaves_division_by_zero_alone() {
    let prog = parse("t1 = 1 / 0\nt2 = 6 / 3\nprint t1\nprint t2\n").unwrap();
    let (folded, notes) = constant_fold(&prog);
    assert_eq!(folded.to_string(), "t1 = 1 / 0\nt2 = 2\nprint t1\nprint t2");
    assert_eq!(notes, vec!["constant folding: `t2 = 6 / 3` -> `t2 = 2`".to_string()]);
    let result = optimize(&prog);
    assert_eq!(result.final_program.to_string(), "t1 = 1 / 0\nprint t1\nprint 2");
}

#[test]
fn folding_wraps_like_the_runtime() {
    let prog = parse("t1 = 9223372036854775807 + 1\nprint t1\n").unwrap();
    let result = optimize(&prog);
    assert_eq!(result.final_program.to_string(), "print -9223372036854775808");
    let prog = parse("t1 = 0 - 5\nt2 = t1 < 0\nprint t2\nprint t1\n").unwrap();
    let result = optimize(&prog);
    assert_eq!(result.final_program.to_string(), "print 1\nprint -5");
}

#[test]
fn propagation_forgets_a_register_reassigned_to_an_unknown() {
    let prog = parse("a = 1\nprint a\na = x\nprint a\n").unwrap();
    let (out, notes) = constant_propagate(&prog);
    assert_eq!(out.to_string(), "a = 1\nprint 1\na = x\nprint a");
    assert_eq!(notes, vec!["constant propagation: `print a` -> `print 1`".to_string()]);
}

#[test]
fn propagation_substitutes_both_operands() {
    let prog = parse("a = 2\nb = 3\nc = a * b\nprint c\n").unwrap();
    let (out, _) = constant_propagate(&prog);
    assert_eq!(out.to_string(), "a = 2\nb = 3\nc = 2 * 3\nprint c");
}

#[test]
fn simplification_applies_every_identity() {
    let prog = parse(
        "a = x + 0\nb = 0 + x\nc = x - 0\nd = x * 1\ne = 1 * x\nf = x / 1\ng = x * 0\nh = 0 * x\ni = 0 - x\n",
    )
    .unwrap();
    let (out, notes) = algebraic_simplify(&prog);
    assert_eq!(
        out.to_string(),
        "a = x\nb = x\nc = x\nd = x\ne = x\nf = x\ng = 0\nh = 0\ni = 0 - x"
    );
    assert_eq!(notes.len(), 8);
    assert_eq!(notes[0], "algebraic simplification: `a = x + 0` -> `a = x`");
}

#[test]
fn dead_code_elimination_keeps_prints_and_what_they_need() {
    let prog = parse("a = 1\nb = a + x\nc = 9\nprint b\nd = b\n").unwrap();
    let (out, notes) = dead_code_eliminate(&prog);
    assert_eq!(out.to_string(), "a = 1\nb = a + x\nprint b");
    assert_eq!(
        notes,
        vec![
            "dead code elimination: removed `c = 9` (result never used)".to_string(),
            "dead code elimination: removed `d = b` (result never used)".to_string(),
        ]
    );
}

#[test]
fn dead_code_elimination_drops_an_overwritten_assignment() {
    let prog = parse("a = 1\na = 2\nprint a\n").unwrap();
    let (out, _) = dead_code_eliminate(&prog);
    assert_eq!(out.to_string(), "a = 2\nprint a");
}

#[test]
fn reports_record_every_pass_of_every_round() {
    let prog = parse("t1 = 2 + 3\nprint t1\n").unwrap();
    let result = optimize(&prog);
    assert_eq!(result.original, prog);
    assert_eq!(result.iterations, 2);
    assert!(!result.hit_cap);
    assert_eq!(result.reports.len(), 8);
    let names: Vec<&str> = result.reports.iter().map(|r| r.name).collect();
    assert_eq!(
        names[..4],
        ["constant folding", "constant propagation", "algebraic simplification", "dead code elimination"]
    );
    assert_eq!(result.reports[5].iteration, 2);
    assert_eq!(result.reports[0].before, prog);
    assert_eq!(result.reports[3].after, result.final_program);
    assert_eq!(result.final_program.to_string(), "print 5");
    assert_eq!(
        result.all_notes(),
        vec![
            "constant folding: `t1 = 2 + 3` -> `t1 = 5`".to_string(),
            "constant propagation: `print t1` -> `print 5`".to_string(),
            "dead code elimination: removed `t1 = 5` (result never used)".to_string(),
        ]
    );
}

#[test]
fn a_program_already_optimal_takes_one_round() {
    let prog = parse("t = x + y\nprint t\n").unwrap();
    let result = optimize(&prog);
    assert_eq!(result.iterations, 1);
    assert!(!result.hit_cap);
    assert!(result.all_notes().is_empty());
    assert_eq!(result.final_program, prog);
}

#[test]
fn the_final_program_is_a_fixed_point_of_every_pass() {
    let prog = parse("a = 4\nb = a * x\nc = b - 0\nd = 2 * 3\nprint c\nprint d\n").unwrap();
    let result = optimize(&prog);
    let p = &result.final_program;
    assert_eq!(&constant_fold(p).0, p);
    assert_eq!(&constant_propagate(p).0, p);
    assert_eq!(&algebraic_simplify(p).0, p);
    assert_eq!(&dead_code_eliminate(p).0, p);
    assert_eq!(p.to_string(), "b = 4 * x\nc = b\nprint c\nprint 6");
}

#[test]
fn a_chain_longer_than_the_least_cap_still_reaches_a_fixed_point() {
    // Each round turns one more link of the chain into the constant 0, so
    // a chain of 150 links needs more rounds than `MAX_ITERATIONS`; the
    // cap grows with the program, and the fixed point is reached.
    let mut src = String::from("a0 = x * 0\n");
    for i in 1..150 {
        src.push_str(&format!("a{i} = a{} * y\n", i - 1));
    }
    src.push_str("print a149\n");
    let prog = parse(&src).unwrap();
    let result = optimize(&prog);
    assert!(!result.hit_cap);
    assert_eq!(result.iterations, 152);
    assert_eq!(result.reports.len(), 4 * 152);
    assert_eq!(result.final_program.to_string(), "print 0");
}

#[test]
fn a_short_chain_of_zero_products_reaches_a_fixed_point() {
    let prog = parse("a = x * 0\nb = a * y\nprint b\n").unwrap();
    let result = optimize(&prog);
    assert!(!result.hit_cap);
    assert_eq!(result.iterations, 4);
    assert_eq!(result.final_program.to_string(), "print 0");
}

#[test]
fn a_product_by_zero_takes_one_round_more_than_it_has_instructions() {
    // Round 1 simplifies, round 2 propagates and removes, round 3 is quiet.
    let prog = parse("t1 = x * 0\nprint t1\n").unwrap();
    let result = optimize(&prog);
    assert_eq!(result.iterations, 3);
    assert!(!result.hit_cap);
}

#[test]
fn rounds_stay_within_one_more_than_the_instructions_on_generated_programs() {
    // A small linear congruential generator drives the shapes of the programs.
    let mut seed: u64 = 12345;
    let mut next = move |n: u64| {
        seed = seed.wrapping_mul(6364136223846793005).wrapping_add(1442695040888963407);
        (seed >> 33) % n
    };
    let ops = ["+", "-", "*", "/", "==", "<"];
    for _ in 0..300 {
        let len = 1 + next(12);
        let mut src = String::new();
        for i in 0..len {
            let operand = |k: u64, i: u64| -> String {
                match k % 4 {
                    0 => format!("{}", k % 3),
                    1 => "x".to_string(),
                    _ if i > 0 => format!("r{}", (k / 4) % i),
                    _ => "y".to_string(),
                }
            };
            let a = operand(next(40), i);
            let b = operand(next(40), i);
            if next(5) == 0 {
                src.push_str(&format!("print {a}\n"));
            } else if next(4) == 0 {
                src.push_str(&format!("r{i} = {a}\n"));
            } else {
                let op = ops[next(ops.len() as u64) as usize];
                src.push_str(&format!("r{i} = {a} {op} {b}\n"));
            }
        }
        src.push_str(&format!("print r{}\n", len - 1));
        let prog = parse(&src).unwrap();
        let result = optimize(&prog);
        assert!(!result.hit_cap);
        assert!(result.iterations <= prog.instrs.len() + 1, "{src}");
    }
}

#[test]
fn render_shows_only_the_passes_that_changed_something() {
    let prog = parse("t1 = 2 + 3\nprint t1\n").unwrap();
    let result = optimize(&prog);
    let (out, err) = render_output(&result, true);
    assert_eq!(
        out,
        "=== original ===\nt1 = 2 + 3\nprint t1\n\n\
=== constant folding (round 1) ===\n--- before ---\nt1 = 2 + 3\nprint t1\n--- after ---\nt1 = 5\nprint t1\n  constant folding: `t1 = 2 + 3` -> `t1 = 5`\n\n\
=== constant propagation (round 1) ===\n--- before ---\nt1 = 5\nprint t1\n--- after ---\nt1 = 5\nprint 5\n  constant propagation: `print t1` -> `print 5`\n\n\
=== dead code elimination (round 1) ===\n--- before ---\nt1 = 5\nprint 5\n--- after ---\nprint 5\n  dead code elimination: removed `t1 = 5` (result never used)\n\n\
=== fixed point reached in 2 rounds ===\n\nprint 5\n"
    );
    assert_eq!(err, "");
}

#[test]
fn render_lists_the_changes_on_the_error_stream() {
    let prog = parse("t1 = x * 1\nprint t1\n").unwrap();
    let result = optimize(&prog);
    let (out, err) = render_output(&result, false);
    assert_eq!(out, "t1 = x\nprint t1\n");
    assert_eq!(err, "\nchanges:\n  algebraic simplification: `t1 = x * 1` -> `t1 = x`\n");
    let quiet = optimize(&parse("print 1\n").unwrap());
    let (out, err) = render_output(&quiet, false);
    assert_eq!(out, "print 1\n");
    assert_eq!(err, "");
    let (out, _) = render_output(&quiet, true);
    assert_eq!(out, "=== original ===\nprint 1\n\n=== fixed point reached in 1 round ===\n\nprint 1\n");
}
