use banking_jitter::votor::{
    finalization_ms, format_votor_budget, liveness_ms, DELTA_BLOCK_MS, DELTA_MS,
};

#[test]
fn budget_figures() {
    assert_eq!(DELTA_BLOCK_MS, 400);
    assert_eq!(DELTA_MS, 50);
    assert_eq!(finalization_ms(DELTA_MS), 50);
    assert_eq!(liveness_ms(DELTA_MS), 550);
    for (delta, ceiling) in [(0u64, 400u64), (25, 475), (50, 550), (100, 700)] {
        assert_eq!(finalization_ms(delta), delta);
        assert_eq!(liveness_ms(delta), ceiling);
    }
}

#[test]
fn report() {
    let expected = [
        "",
        "Votor budget (Alpenglow v1.1, Fig 7 + Table 6 + Def 17):",
        "  block production : Δ_block            = 400 ms   <-- banking judged here",
        "  finalization     : min(δ_80, 2·δ_60)  = 50 ms    (consensus layer)",
        "  liveness ceiling : 3·δ + Δ_block       = 550 ms   (give-up line, not a target)",
        "",
        "  δ sensitivity (finalization = min(δ,2δ)=δ ; liveness = 3δ+400):",
        "    δ (ms)    finalize (ms)  liveness (ms)",
        "        25               25            475",
        "        50               50            550",
        "       100              100            700",
        "",
    ];
    assert_eq!(format_votor_budget(), expected.join("\n"));
}
