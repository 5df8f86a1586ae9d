//! Alpenglow Votor timing budget: the deadline banking is graded against.
//!
//! Source: Alpenglow White Paper v1.1, Figure 7 (p22, Votor per-round lifecycle), with the
//! numeric bounds in the abstract, Section 1.5, Table 6, and Definition 17. (Not Figure 2,
//! the double-Merkle block-data hierarchy, a common mis-citation from an older draft.)

use vstd::prelude::*;

use crate::text;

verus! {

/// Block-production budget.
pub const DELTA_BLOCK_MS: u64 = 400;

/// One all-to-all message delay (assumed).
pub const DELTA_MS: u64 = 50;

/// Finalization takes the fast path or the slow one, whichever is done first: one message
/// delay among 80% of the stake, or two among 60%, each delay taken as `delta`.
pub open spec fn finalization(delta: nat) -> nat {
    if delta <= 2 * delta {
        delta
    } else {
        2 * delta
    }
}

/// A round is given up after three message delays beyond the block budget.
pub open spec fn liveness(delta: nat) -> nat {
    3 * delta + DELTA_BLOCK_MS as nat
}

/// Finalization time for a message delay.
pub fn finalization_ms(delta: u64) -> (r: u64)
    requires
        2 * delta <= u64::MAX,
    ensures
        r == finalization(delta as nat),
{
    let slow: u64 = 2 * delta;
    if delta < slow {
        delta
    } else {
        slow
    }
}

/// Liveness ceiling for a message delay: the give-up line, not a target.
pub fn liveness_ms(delta: u64) -> (r: u64)
    requires
        3 * delta + DELTA_BLOCK_MS <= u64::MAX,
    ensures
        r == liveness(delta as nat),
{
    3 * delta + DELTA_BLOCK_MS
}

/// A line of the sensitivity table: a message delay, and the finalization and liveness
/// times that go with it.
pub open spec fn sweep_row(delta: nat) -> Seq<char> {
    sweep_columns(
        text::decimal(delta),
        text::decimal(finalization(delta)),
        text::decimal(liveness(delta)),
    )
}

/// Three columns of the sensitivity table.
pub open spec fn sweep_columns(a: Seq<char>, b: Seq<char>, c: Seq<char>) -> Seq<char> {
    "  "@ + text::flush_right(a, 8) + " "@ + text::flush_right(b, 16) + " "@ + text::flush_right(
        c,
        14,
    ) + "\n"@
}

/// The three figures of the budget, after a line that names their source.
pub open spec fn budget_lines() -> Seq<char> {
    "\nVotor budget (Alpenglow v1.1, Fig 7 + Table 6 + Def 17):\n"@
        + "  block production : Δ_block            = "@ + text::decimal(DELTA_BLOCK_MS as nat)
        + " ms   <-- banking judged here\n"@ + "  finalization     : min(δ_80, 2·δ_60)  = "@
        + text::decimal(finalization(DELTA_MS as nat)) + " ms    (consensus layer)\n"@
        + "  liveness ceiling : 3·δ + Δ_block       = "@ + text::decimal(
        liveness(DELTA_MS as nat),
    ) + " ms   (give-up line, not a target)\n"@
}

/// The sensitivity table: the block budget is fixed, but the finalization and liveness
/// times move with the message delay that is assumed.
pub open spec fn sweep_lines() -> Seq<char> {
    "\n  δ sensitivity (finalization = min(δ,2δ)=δ ; liveness = 3δ+400):\n"@ + sweep_columns(
        "δ (ms)"@,
        "finalize (ms)"@,
        "liveness (ms)"@,
    ) + sweep_row(25) + sweep_row(50) + sweep_row(100)
}

fn push_sweep_row(out: &mut String, delta: u64)
    requires
        3 * delta + DELTA_BLOCK_MS <= u64::MAX,
    ensures
        final(out)@ == old(out)@ + sweep_row(delta as nat),
{
    out.append("  ");
    text::push_number(out, delta, 8);
    out.append(" ");
    text::push_number(out, finalization_ms(delta), 16);
    out.append(" ");
    text::push_number(out, liveness_ms(delta), 14);
    out.append("\n");
    assert(out@ =~= old(out)@ + sweep_row(delta as nat));
}

/// The report that `print_votor_budget` prints.
pub fn format_votor_budget() -> (r: String)
    ensures
        r@ == budget_lines() + sweep_lines(),
{
    let mut out = String::new();
    out.append("\nVotor budget (Alpenglow v1.1, Fig 7 + Table 6 + Def 17):\n");
    out.append("  block production : Δ_block            = ");
    text::push_decimal(&mut out, DELTA_BLOCK_MS);
    out.append(" ms   <-- banking judged here\n");
    out.append("  finalization     : min(δ_80, 2·δ_60)  = ");
    text::push_decimal(&mut out, finalization_ms(DELTA_MS));
    out.append(" ms    (consensus layer)\n");
    out.append("  liveness ceiling : 3·δ + Δ_block       = ");
    text::push_decimal(&mut out, liveness_ms(DELTA_MS));
    out.append(" ms   (give-up line, not a target)\n");
    assert(out@ =~= budget_lines());
    out.append("\n  δ sensitivity (finalization = min(δ,2δ)=δ ; liveness = 3δ+400):\n");
    out.append("  ");
    text::push_right(&mut out, "δ (ms)", 8);
    out.append(" ");
    text::push_right(&mut out, "finalize (ms)", 16);
    out.append(" ");
    text::push_right(&mut out, "liveness (ms)", 14);
    out.append("\n");
    push_sweep_row(&mut out, 25);
    push_sweep_row(&mut out, 50);
    push_sweep_row(&mut out, 100);
    assert(out@ =~= budget_lines() + sweep_lines());
    out
}

// ---- laws ----

/// The fast path is never the slower one: finalization takes one message delay.
pub proof fn law_finalization_is_one_delay(delta: nat)
    ensures
        finalization(delta) == delta,
{
}

/// The give-up line lies beyond the block budget and finalization together, by two message
/// delays.
pub proof fn law_liveness_leaves_room(delta: nat)
    ensures
        liveness(delta) == DELTA_BLOCK_MS + finalization(delta) + 2 * delta,
        liveness(delta) >= DELTA_BLOCK_MS,
{
}

/// A longer message delay never shortens either time.
pub proof fn law_budget_grows_with_delay(a: nat, b: nat)
    requires
        a <= b,
    ensures
        finalization(a) <= finalization(b),
        liveness(a) <= liveness(b),
{
}

} // verus!
