use postflop::bets::{BetSize, BetSizeCandidates};
use postflop::cards::flop_from_str;
use postflop::config::GameConfig;
use postflop::game::PostFlopGame;
use postflop::range::HandRange;
use postflop::tree::PostFlopNode;

fn rank_of_char(ch: u8) -> u8 {
    match ch {
        b'A' => 12,
        b'K' => 11,
        b'Q' => 10,
        b'J' => 9,
        b'T' => 8,
        b'2'..=b'9' => ch - b'2',
        _ => panic!("bad rank"),
    }
}

fn add_pair(range: &mut HandRange, r: u8) {
    for s1 in 0..4u8 {
        for s2 in (s1 + 1)..4u8 {
            range.set_weight(r * 4 + s1, r * 4 + s2, 1);
        }
    }
}

fn add_nonpair(range: &mut HandRange, hi: u8, lo: u8) {
    assert!(hi > lo);
    for s1 in 0..4u8 {
        for s2 in 0..4u8 {
            let c1 = lo * 4 + s2;
            let c2 = hi * 4 + s1;
            range.set_weight(c1.min(c2), c1.max(c2), 1);
        }
    }
}

fn parse_range(s: &str) -> HandRange {
    let mut range = HandRange::new();
    for tok in s.split(',') {
        let b = tok.as_bytes();
        match b.len() {
            2 => {
                let r1 = rank_of_char(b[0]);
                let r2 = rank_of_char(b[1]);
                if r1 == r2 {
                    add_pair(&mut range, r1);
                } else {
                    add_nonpair(&mut range, r1.max(r2), r1.min(r2));
                }
            }
            3 => {
                assert_eq!(b[2], b'+');
                let r1 = rank_of_char(b[0]);
                let r2 = rank_of_char(b[1]);
                if r1 == r2 {
                    for r in r1..13 {
                        add_pair(&mut range, r);
                    }
                } else {
                    assert!(r1 > r2);
                    for lo in r2..r1 {
                        add_nonpair(&mut range, r1, lo);
                    }
                }
            }
            5 => {
                assert_eq!(b[2], b'-');
                let hi = rank_of_char(b[0]);
                assert_eq!(hi, rank_of_char(b[3]));
                let top = rank_of_char(b[1]);
                let bottom = rank_of_char(b[4]);
                for lo in bottom..=top {
                    add_nonpair(&mut range, hi, lo);
                }
            }
            _ => panic!("bad token"),
        }
    }
    range
}

const SCALE: u64 = 1 << 20;

fn cfv_rec(game: &PostFlopGame, node: &PostFlopNode, player: usize, reach: &Vec<u64>) -> Vec<f64> {
    if node.is_terminal() {
        let n = game.num_private_hands(player);
        let mut res: Vec<i128> = vec![0; n];
        game.evaluate(&mut res, node, player, reach);
        return res.iter().map(|&v| v as f64 * 0.5).collect();
    }
    let n_own = game.num_private_hands(player);
    let mut total = vec![0.0f64; n_own];
    if node.is_chance() {
        let denom = node.chance_denominator() as f64;
        for a in 0..node.num_actions() {
            let v = cfv_rec(game, node.play(a), player, reach);
            for i in 0..n_own {
                total[i] += v[i];
            }
        }
        let opp = 1 - player;
        for rec in node.isomorphic_chances() {
            let mut sreach = reach.clone();
            for &(x, y) in &rec.swap_list[opp] {
                sreach.swap(x, y);
            }
            let mut v = cfv_rec(game, node.play(rec.index), player, &sreach);
            for &(x, y) in &rec.swap_list[player] {
                v.swap(x, y);
            }
            for i in 0..n_own {
                total[i] += v[i];
            }
        }
        for t in total.iter_mut() {
            *t /= denom;
        }
    } else {
        let acts = node.num_actions();
        if node.player() == player {
            for a in 0..acts {
                let v = cfv_rec(game, node.play(a), player, reach);
                for i in 0..n_own {
                    total[i] += v[i];
                }
            }
            for t in total.iter_mut() {
                *t /= acts as f64;
            }
        } else {
            let r2: Vec<u64> = reach.iter().map(|&x| x / acts as u64).collect();
            for a in 0..acts {
                let v = cfv_rec(game, node.play(a), player, &r2);
                for i in 0..n_own {
                    total[i] += v[i];
                }
            }
        }
    }
    total
}

fn compute_ev(game: &PostFlopGame, player: usize) -> f64 {
    let opp = 1 - player;
    let reach: Vec<u64> = game
        .initial_reach(opp)
        .iter()
        .map(|&w| w as u64 * SCALE)
        .collect();
    let cfv = cfv_rec(game, game.root(), player, &reach);
    let own = game.initial_reach(player);
    let mut ev = 0.0;
    for i in 0..cfv.len() {
        ev += own[i] as f64 * cfv[i];
    }
    ev / SCALE as f64 / game.num_combinations() as f64
}

fn base_config(flop: &str, r0: &str, r1: &str) -> GameConfig {
    GameConfig {
        flop: flop_from_str(flop).unwrap(),
        initial_pot: 80,
        initial_stack: 960,
        range: [parse_range(r0), parse_range(r1)],
        flop_bet_sizes: [BetSizeCandidates::empty(), BetSizeCandidates::empty()],
        turn_bet_sizes: [BetSizeCandidates::empty(), BetSizeCandidates::empty()],
        river_bet_sizes: [BetSizeCandidates::empty(), BetSizeCandidates::empty()],
        max_num_bet: 0,
    }
}

const ALL_RANGE: &str = "22+,A2+,K2+,Q2+,J2+,T2+,92+,82+,72+,62+,52+,42+,32";

#[test]
fn all_check_all_range() {
    let config = base_config("Td9d6h", ALL_RANGE, ALL_RANGE);
    let game = PostFlopGame::new(config, None).unwrap();
    let ev0 = compute_ev(&game, 0);
    let ev1 = compute_ev(&game, 1);
    assert!((ev0 - 40.0).abs() < 1e-5);
    assert!((ev1 - 40.0).abs() < 1e-5);
}

#[test]
fn one_raise_all_range() {
    let mut config = base_config("Td9d6h", ALL_RANGE, ALL_RANGE);
    config.river_bet_sizes = [
        BetSizeCandidates {
            bet: vec![BetSize::PotRelative(5000)],
            raise: vec![],
        },
        BetSizeCandidates::empty(),
    ];
    config.max_num_bet = 1;
    let game = PostFlopGame::new(config, None).unwrap();
    let ev0 = compute_ev(&game, 0);
    let ev1 = compute_ev(&game, 1);
    assert!((ev0 - 50.0).abs() < 1e-5);
    assert!((ev1 - 30.0).abs() < 1e-5);
}

#[test]
fn always_win() {
    // beware of straight flushes
    let lose_range_str = "22+,A2+,K9-K2,Q8-Q2,J8-J2,T8-T2,92+,82+,72+,62+";
    let config = base_config("AcAdKh", "AA", lose_range_str);
    let game = PostFlopGame::new(config, None).unwrap();
    let ev0 = compute_ev(&game, 0);
    let ev1 = compute_ev(&game, 1);
    assert!((ev0 - 80.0).abs() < 1e-5);
    assert!((ev1 - 0.0).abs() < 1e-5);
}

#[test]
fn no_assignment() {
    let config = base_config("Td9d6h", "TT", "TT");
    let game = PostFlopGame::new(config, None);
    assert!(game.is_err());
}

#[test]
fn memory_cap_exceeded() {
    let sizes = BetSizeCandidates {
        bet: vec![BetSize::PotRelative(5000)],
        raise: vec![BetSize::PotRelative(5000)],
    };
    let mut config = base_config("Td9d6h", "AA", "KK");
    config.flop_bet_sizes = [sizes.clone(), sizes.clone()];
    config.turn_bet_sizes = [sizes.clone(), sizes.clone()];
    config.river_bet_sizes = [sizes.clone(), sizes.clone()];
    config.max_num_bet = 5;
    let game = PostFlopGame::new(config, Some(1));
    assert!(game.is_err());
}

#[test]
fn memory_cap_generous_is_fine() {
    let config = base_config("Td9d6h", "AA", "KK");
    let game = PostFlopGame::new(config, Some(4096));
    assert!(game.is_ok());
}

#[test]
fn iso_chance_structure() {
    // Td9d6h: clubs and spades look alike on this flop, so every spade deal
    // is recorded as isomorphic to the club deal of the same rank
    let config = base_config("Td9d6h", ALL_RANGE, ALL_RANGE);
    let game = PostFlopGame::new(config, None).unwrap();
    let after_checks = game.root().play(0).play(0);
    assert!(after_checks.is_chance());
    let real = after_checks.num_actions();
    let isos = after_checks.isomorphic_chances();
    // 49 cards can come on the turn; 13 spades are represented by clubs
    assert_eq!(real, 36);
    assert_eq!(isos.len(), 13);
    for rec in isos {
        // the canonical sibling is a real, earlier chance child
        assert!(rec.index < real);
        // swapping twice is the identity: every transposition is within range
        // and pairs two distinct hands
        for p in 0..2 {
            for &(a, b) in &rec.swap_list[p] {
                assert!(a < game.num_private_hands(p));
                assert!(b < game.num_private_hands(p));
                assert_ne!(a, b);
            }
        }
    }
}

#[test]
fn config_validation_errors() {
    // flop not initialized
    let mut c = base_config("Td9d6h", "AA", "KK");
    c.flop = [0xff, 0xff, 0xff];
    assert!(PostFlopGame::new(c, None).is_err());
    // duplicate flop cards
    let mut c = base_config("Td9d6h", "AA", "KK");
    c.flop = [3, 3, 10];
    assert!(PostFlopGame::new(c, None).is_err());
    // non-positive stakes
    let mut c = base_config("Td9d6h", "AA", "KK");
    c.initial_pot = 0;
    assert!(PostFlopGame::new(c, None).is_err());
    let mut c = base_config("Td9d6h", "AA", "KK");
    c.initial_stack = 0;
    assert!(PostFlopGame::new(c, None).is_err());
    // empty range
    let mut c = base_config("Td9d6h", "AA", "KK");
    c.range[1] = HandRange::new();
    assert!(PostFlopGame::new(c, None).is_err());
    // a raise-only size offered as an opening bet
    let mut c = base_config("Td9d6h", "AA", "KK");
    c.river_bet_sizes[0].bet = vec![BetSize::LastBetRelative(30000)];
    assert!(PostFlopGame::new(c, None).is_err());
}
