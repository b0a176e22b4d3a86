//! Laws of the simulated shoes: how shoes follow each other, and what their rounds come to.

use vstd::prelude::*;

use crate::baccarat::random;
use crate::baccarat::round::RoundOutcome;
use crate::baccarat::simulation;
use crate::baccarat::simulation::BaccaratSimulationConfig;

verus! {

proof fn lemma_shoe_has_winners(codes: Seq<u8>, n: nat)
    ensures
        simulation::wins_of(codes, n, RoundOutcome::Player) + simulation::wins_of(
            codes,
            n,
            RoundOutcome::Banker,
        ) + simulation::wins_of(codes, n, RoundOutcome::Tie) == n,
    decreases n,
{
    if n > 0 {
        lemma_shoe_has_winners(codes, (n - 1) as nat);
    }
}

/// Every round of the first shoes ends in one way: the rounds that the player wins, those that the
/// banker wins and the ties come to all rounds.
pub proof fn lemma_every_round_has_an_end(config: BaccaratSimulationConfig, n: nat)
    ensures
        simulation::wins_in_shoes(config, n, RoundOutcome::Player) + simulation::wins_in_shoes(
            config,
            n,
            RoundOutcome::Banker,
        ) + simulation::wins_in_shoes(config, n, RoundOutcome::Tie) == n
            * config.max_rounds_per_shoe,
    decreases n,
{
    if n > 0 {
        let k = (n - 1) as nat;
        let rounds = config.max_rounds_per_shoe as nat;
        lemma_every_round_has_an_end(config, k);
        lemma_shoe_has_winners(simulation::shoe_codes(config, k), rounds);
        assert(n * rounds == k * rounds + rounds) by (nonlinear_arith)
            requires
                n == k + 1,
        ;
    } else {
        assert(0 * config.max_rounds_per_shoe == 0);
    }
}

/// A simulation goes on where it was left: one that starts from the random state after some shoes
/// shuffles the shoes that would have come next.
pub proof fn lemma_a_simulation_goes_on(
    whole: BaccaratSimulationConfig,
    rest: BaccaratSimulationConfig,
    m: nat,
    n: nat,
)
    requires
        rest.decks == whole.decks,
        rest.seed == simulation::state_before(whole, m),
        random::seeded(rest.seed) == rest.seed,
    ensures
        simulation::state_before(rest, n) == simulation::state_before(whole, m + n),
        simulation::shoe_codes(rest, n) == simulation::shoe_codes(whole, m + n),
    decreases n,
{
    if n > 0 {
        lemma_a_simulation_goes_on(whole, rest, m, (n - 1) as nat);
        assert((m + n - 1) as nat == m + (n - 1) as nat);
    }
}

} // verus!
