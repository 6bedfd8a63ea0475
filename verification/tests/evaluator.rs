use postflop::bets::BetSizeCandidates;
use postflop::cards::{flop_from_str, NOT_DEALT};
use postflop::config::GameConfig;
use postflop::game::PostFlopGame;
use postflop::range::HandRange;
use postflop::strength::build_strength_one;
use postflop::tree::PostFlopNode;

fn tiny_config(flop: &str, r0: HandRange, r1: HandRange) -> GameConfig {
    GameConfig {
        flop: flop_from_str(flop).unwrap(),
        initial_pot: 60,
        initial_stack: 1000,
        range: [r0, r1],
        flop_bet_sizes: [BetSizeCandidates::empty(), BetSizeCandidates::empty()],
        turn_bet_sizes: [BetSizeCandidates::empty(), BetSizeCandidates::empty()],
        river_bet_sizes: [BetSizeCandidates::empty(), BetSizeCandidates::empty()],
        max_num_bet: 0,
    }
}

fn fold_leaf(folder: u16, amount: i32) -> PostFlopNode {
    PostFlopNode {
        player: 0x300 + folder,
        turn: NOT_DEALT,
        river: NOT_DEALT,
        amount,
        children: Vec::new(),
        iso_chances: Vec::new(),
    }
}

// Board Qs Jh 2h = [2, 38, 43]. OOP: {2c2d, 7c8c}; IP: {2c2d, AcAd}.
fn two_hand_game() -> PostFlopGame {
    let mut r0 = HandRange::new();
    r0.set_weight(0, 1, 1); // 2c 2d
    r0.set_weight(20, 24, 1); // 7c 8c
    let mut r1 = HandRange::new();
    r1.set_weight(0, 1, 1); // 2c 2d (identical to an OOP hand)
    r1.set_weight(48, 49, 1); // Ac Ad
    PostFlopGame::new(tiny_config("Qs Jh 2h", r0, r1), None).unwrap()
}

#[test]
fn fold_evaluator_exact_values() {
    let game = two_hand_game();
    // IP folded after OOP committed 10 beyond the initial pot
    let node = fold_leaf(1, 10);
    let cfreach: Vec<u64> = vec![100, 100]; // both IP hands reached fully
    let mut res: Vec<i128> = vec![0, 0];
    game.evaluate(&mut res, &node, 0, &cfreach);
    // payoff for OOP = pot + amount = 70; scaled values are 2 * 70 * reach
    // OOP 2c2d: opponent hands disjoint: only AcAd (2c2d shares both cards,
    // excluded by inclusion-exclusion; the identical-hand term cancels)
    assert_eq!(res[0], 2 * 70 * 100);
    // OOP 7c8c: both IP hands disjoint from it and the board
    assert_eq!(res[1], 2 * 70 * 200);

    // from IP's view at the same node, IP loses its commitment
    let mut res1: Vec<i128> = vec![0, 0];
    game.evaluate(&mut res1, &node, 1, &vec![100, 100]);
    assert_eq!(res1[0], 2 * -10 * 100); // 2c2d vs 7c8c only
    assert_eq!(res1[1], 2 * -10 * 200); // AcAd vs both OOP hands
}

#[test]
fn fold_evaluator_blocked_hand_is_zero() {
    let game = two_hand_game();
    // fold on the turn 7c: OOP's 7c8c is blocked
    let node = PostFlopNode {
        player: 0x301,
        turn: 20, // 7c
        river: NOT_DEALT,
        amount: 0,
        children: Vec::new(),
        iso_chances: Vec::new(),
    };
    let mut res: Vec<i128> = vec![0, 0];
    game.evaluate(&mut res, &node, 0, &vec![100, 100]);
    assert_eq!(res[1], 0); // 7c8c conflicts with the board
    assert_eq!(res[0], 2 * 60 * 100); // 2c2d still wins the pot vs AcAd
}

#[test]
fn fold_zero_sum_identity() {
    // summing both players' reach-weighted fold values equals the pot times
    // the cross reach of non-conflicting hand pairs
    let game = two_hand_game();
    let node = fold_leaf(0, 25);
    let pot: i128 = 60;
    let reach0: Vec<u64> = vec![3, 5];
    let reach1: Vec<u64> = vec![7, 11];
    let mut res0: Vec<i128> = vec![0, 0];
    let mut res1: Vec<i128> = vec![0, 0];
    game.evaluate(&mut res0, &node, 0, &reach1);
    game.evaluate(&mut res1, &node, 1, &reach0);
    let sum0: i128 = (0..2).map(|i| reach0[i] as i128 * res0[i]).sum();
    let sum1: i128 = (0..2).map(|i| reach1[i] as i128 * res1[i]).sum();
    // disjoint pairs: (2c2d, AcAd): 3*11; (7c8c, 2c2d): 5*7; (7c8c, AcAd): 5*11
    let cross: i128 = 3 * 11 + 5 * 7 + 5 * 11;
    assert_eq!(sum0 + sum1, 2 * pot * cross);
}

#[test]
fn showdown_evaluator_best_hand_wins() {
    let game = two_hand_game();
    // showdown on board Qs Jh 2h + 3d 4d: AcAd beats 7c8c high card,
    // 2c2d trips beat AcAd
    let node = PostFlopNode {
        player: 0x100,
        turn: 5,  // 3d
        river: 9, // 4d
        amount: 40,
        children: Vec::new(),
        iso_chances: Vec::new(),
    };
    let mut res: Vec<i128> = vec![0, 0];
    game.evaluate(&mut res, &node, 0, &vec![100, 100]);
    // OOP 2c2d (trips of twos): beats AcAd at pot + amount per unit of
    // reach. The identical IP hand 2c2d sits in the tie band, where the
    // correction exactly cancels its double subtraction: an impossible
    // matchup contributes nothing.
    assert_eq!(res[0], 2 * 100 * 100);
    // OOP 7c8c: loses to AcAd (-40), loses to 2c2d (-40)
    assert_eq!(res[1], 2 * -40 * 100 + 2 * -40 * 100);
}

#[test]
fn strength_thresholds_are_ordered() {
    // opponent scores: one board conflict (0), then 5, 5, 9
    let ps: Vec<u32> = vec![1, 5, 7, 9, 12];
    let os: Vec<u32> = vec![5, 0, 9, 5];
    let hs = build_strength_one(&ps, &os);
    assert_eq!(hs.exclude_threshold, 1);
    // permutation lists the zero first, then 5s by index, then 9
    assert_eq!(hs.opponent_increasing_index, vec![1, 0, 3, 2]);
    for i in 0..ps.len() {
        assert!(hs.win_threshold[i] <= hs.tie_threshold[i]);
        assert!(hs.exclude_threshold <= hs.win_threshold[i]);
    }
    assert_eq!(hs.win_threshold, vec![1, 1, 3, 3, 4]);
    assert_eq!(hs.tie_threshold, vec![1, 3, 3, 4, 4]);
}
