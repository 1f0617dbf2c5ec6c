//! The text that the command-line program writes for an optimization
//! result: on standard output, the final program (preceded, when every
//! pass is to be shown, by the original and each pass that changed
//! something, round by round); on standard error, the list of changes.

use vstd::prelude::*;
use crate::ir::{program_text, Program};
use crate::passes::{changed_notes, OptimizeResult, PassReport};
use crate::store::views_of;
use crate::text::{self, usize_text};

verus! {

/// One indented line per note.
pub open spec fn note_lines(ns: Seq<Seq<char>>) -> Seq<char>
    decreases ns.len(),
{
    if ns.len() == 0 {
        seq![]
    } else {
        note_lines(ns.drop_last()) + "  "@ + ns.last() + "\n"@
    }
}

/// The block that shows one pass: its name and round, the program before
/// and after it, and its notes.
pub open spec fn report_block(rep: PassReport) -> Seq<char> {
    "=== "@ + rep.name@ + " (round "@ + text::nat_text(rep.iteration as nat) + ") ===\n"@
        + "--- before ---\n"@ + program_text(rep.before@) + "\n"@ + "--- after ---\n"@
        + program_text(rep.after@) + "\n"@ + note_lines(views_of(rep.notes@)) + "\n"@
}

/// The blocks of the passes that changed the program, in order.
pub open spec fn report_blocks(rs: Seq<PassReport>) -> Seq<char>
    decreases rs.len(),
{
    if rs.len() == 0 {
        seq![]
    } else {
        report_blocks(rs.drop_last()) + (if rs.last().before@ != rs.last().after@ {
            report_block(rs.last())
        } else {
            seq![]
        })
    }
}

/// The line that closes the pass-by-pass listing: a fixed point reached
/// in so many rounds, or the cap hit.
pub open spec fn closing_line(res: OptimizeResult) -> Seq<char> {
    if res.hit_cap {
        "=== stopped at the cap of "@ + text::nat_text(res.iterations as nat)
            + " rounds without a fixed point ===\n"@
    } else {
        "=== fixed point reached in "@ + text::nat_text(res.iterations as nat) + " round"@ + (if res.iterations
            == 1 {
            seq![]
        } else {
            "s"@
        }) + " ===\n"@
    }
}

/// What goes to standard output.
pub open spec fn stdout_text(res: OptimizeResult, show_passes: bool) -> Seq<char> {
    (if show_passes {
        "=== original ===\n"@ + program_text(res.original@) + "\n"@ + "\n"@ + report_blocks(
            res.reports@,
        ) + closing_line(res) + "\n"@
    } else {
        seq![]
    }) + program_text(res.final_program@) + "\n"@
}

/// What goes to standard error: nothing when every pass is shown;
/// otherwise a note if the cap was hit, then the list of changes, if
/// there were any.
pub open spec fn stderr_text(res: OptimizeResult, show_passes: bool) -> Seq<char> {
    if show_passes {
        seq![]
    } else {
        (if res.hit_cap {
            "note: stopped at the cap of "@ + text::nat_text(res.iterations as nat)
                + " rounds without a fixed point\n"@
        } else {
            seq![]
        }) + (if changed_notes(res.reports@).len() == 0 {
            seq![]
        } else {
            "\n"@ + "changes:\n"@ + note_lines(changed_notes(res.reports@))
        })
    }
}

fn append_note_lines(s: &mut String, notes: &Vec<String>)
    ensures
        final(s)@ == old(s)@ + note_lines(views_of(notes@)),
{
    let ghost s0 = s@;
    let ghost ns = views_of(notes@);
    let mut k: usize = 0;
    assert(ns.take(0) =~= Seq::<Seq<char>>::empty());
    assert(s@ =~= s0 + note_lines(ns.take(0)));
    while k < notes.len()
        invariant
            k <= notes.len(),
            ns == views_of(notes@),
            s@ == s0 + note_lines(ns.take(k as int)),
        decreases notes.len() - k,
    {
        s.append("  ");
        s.append(notes[k].as_str());
        s.append("\n");
        proof {
            let t = ns.take(k + 1);
            assert(t.drop_last() =~= ns.take(k as int));
            assert(t.last() == notes@[k as int]@);
            assert(s@ =~= s0 + note_lines(t));
        }
        k += 1;
    }
    assert(ns.take(k as int) =~= ns);
}

fn append_program(s: &mut String, p: &Program)
    ensures
        final(s)@ == old(s)@ + program_text(p@),
{
    let t = p.to_string();
    s.append(t.as_str());
}

fn append_report_block(s: &mut String, rep: &PassReport)
    ensures
        final(s)@ == old(s)@ + report_block(*rep),
{
    let ghost s0 = s@;
    s.append("=== ");
    s.append(rep.name);
    s.append(" (round ");
    let n = usize_text(rep.iteration);
    s.append(n.as_str());
    s.append(") ===\n");
    s.append("--- before ---\n");
    append_program(s, &rep.before);
    s.append("\n");
    s.append("--- after ---\n");
    append_program(s, &rep.after);
    s.append("\n");
    append_note_lines(s, &rep.notes);
    s.append("\n");
    assert(s@ =~= s0 + report_block(*rep));
}

/// The text for standard output and for standard error, in that order.
pub fn render_output(result: &OptimizeResult, show_passes: bool) -> (out: (String, String))
    ensures
        out.0@ == stdout_text(*result, show_passes),
        out.1@ == stderr_text(*result, show_passes),
{
    let mut out = String::new();
    if show_passes {
        out.append("=== original ===\n");
        append_program(&mut out, &result.original);
        out.append("\n");
        out.append("\n");
        let ghost prefix = out@;
        let mut k: usize = 0;
        assert(result.reports@.take(0) =~= Seq::<PassReport>::empty());
        assert(out@ =~= prefix + report_blocks(result.reports@.take(0)));
        while k < result.reports.len()
            invariant
                k <= result.reports.len(),
                out@ == prefix + report_blocks(result.reports@.take(k as int)),
            decreases result.reports.len() - k,
        {
            let ghost before = out@;
            let rep = &result.reports[k];
            proof {
                let t = result.reports@.take(k + 1);
                assert(t.drop_last() =~= result.reports@.take(k as int));
                assert(t.last() == result.reports@[k as int]);
            }
            if !rep.before.eq(&rep.after) {
                append_report_block(&mut out, rep);
                assert(out@ =~= prefix + report_blocks(result.reports@.take(k + 1)));
            } else {
                assert(out@ =~= prefix + report_blocks(result.reports@.take(k + 1)));
            }
            k += 1;
        }
        assert(result.reports@.take(k as int) =~= result.reports@);
        let n = usize_text(result.iterations);
        if result.hit_cap {
            out.append("=== stopped at the cap of ");
            out.append(n.as_str());
            out.append(" rounds without a fixed point ===\n");
        } else {
            out.append("=== fixed point reached in ");
            out.append(n.as_str());
            out.append(" round");
            if result.iterations != 1 {
                out.append("s");
            }
            out.append(" ===\n");
        }
        out.append("\n");
    }
    append_program(&mut out, &result.final_program);
    out.append("\n");
    assert(out@ =~= stdout_text(*result, show_passes));
    let mut err = String::new();
    if !show_passes {
        if result.hit_cap {
            err.append("note: stopped at the cap of ");
            let n = usize_text(result.iterations);
            err.append(n.as_str());
            err.append(" rounds without a fixed point\n");
        }
        let notes = result.all_notes();
        if notes.len() > 0 {
            err.append("\n");
            err.append("changes:\n");
            append_note_lines(&mut err, &notes);
        }
    }
    assert(err@ =~= stderr_text(*result, show_passes));
    (out, err)
}

} // verus!
