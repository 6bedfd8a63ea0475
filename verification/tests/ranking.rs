use postflop::hand_rank::rank7;

// card encoding: rank * 4 + suit, ranks 0..13 = 2..A, suits c d h s
fn c(rank: u8, suit: u8) -> u8 {
    rank * 4 + suit
}

#[test]
fn rank_categories_order() {
    // straight flush (clubs 2..6) over quads
    let sflush = rank7(&[c(0, 0), c(1, 0), c(2, 0), c(3, 0), c(4, 0), c(12, 1), c(11, 1)]);
    let quads = rank7(&[c(12, 0), c(12, 1), c(12, 2), c(12, 3), c(4, 0), c(5, 1), c(6, 1)]);
    let boat = rank7(&[c(12, 0), c(12, 1), c(12, 2), c(11, 0), c(11, 1), c(5, 1), c(6, 1)]);
    let flush = rank7(&[c(0, 2), c(2, 2), c(4, 2), c(6, 2), c(9, 2), c(12, 1), c(11, 0)]);
    let straight = rank7(&[c(3, 0), c(4, 1), c(5, 2), c(6, 3), c(7, 0), c(12, 1), c(11, 0)]);
    let trips = rank7(&[c(9, 0), c(9, 1), c(9, 2), c(4, 0), c(6, 1), c(11, 3), c(0, 0)]);
    let two_pair = rank7(&[c(9, 0), c(9, 1), c(7, 2), c(7, 0), c(6, 1), c(11, 3), c(0, 0)]);
    let pair = rank7(&[c(9, 0), c(9, 1), c(7, 2), c(5, 0), c(3, 1), c(11, 3), c(0, 0)]);
    let high = rank7(&[c(9, 0), c(7, 1), c(5, 2), c(3, 0), c(1, 1), c(11, 3), c(0, 2)]);
    assert!(sflush > quads);
    assert!(quads > boat);
    assert!(boat > flush);
    assert!(flush > straight);
    assert!(straight > trips);
    assert!(trips > two_pair);
    assert!(two_pair > pair);
    assert!(pair > high);
    assert!(high >= 1);
}

#[test]
fn rank_wheel_straight_is_lowest_straight() {
    // A 2 3 4 5 vs 2 3 4 5 6
    let wheel = rank7(&[c(12, 0), c(0, 1), c(1, 2), c(2, 3), c(3, 0), c(9, 1), c(7, 0)]);
    let six_high = rank7(&[c(0, 1), c(1, 2), c(2, 3), c(3, 0), c(4, 1), c(9, 1), c(7, 0)]);
    assert!(wheel < six_high);
    // both are straights: above any trips
    let trips = rank7(&[c(12, 0), c(12, 1), c(12, 2), c(4, 0), c(6, 1), c(8, 3), c(0, 0)]);
    assert!(wheel > trips);
}

#[test]
fn rank_kickers_break_ties() {
    // same pair of aces, better kicker wins
    let ak = rank7(&[c(12, 0), c(12, 1), c(11, 2), c(7, 0), c(5, 1), c(3, 3), c(1, 0)]);
    let aq = rank7(&[c(12, 0), c(12, 1), c(10, 2), c(7, 0), c(5, 1), c(3, 3), c(1, 0)]);
    assert!(ak > aq);
    // identical hands tie regardless of suits
    let h1 = rank7(&[c(12, 0), c(11, 1), c(9, 2), c(7, 0), c(5, 1), c(3, 3), c(1, 0)]);
    let h2 = rank7(&[c(12, 1), c(11, 2), c(9, 3), c(7, 1), c(5, 2), c(3, 0), c(1, 1)]);
    assert_eq!(h1, h2);
}

#[test]
fn rank_full_house_from_two_trips() {
    // two trips make a full house of the higher trips
    let tt = rank7(&[c(9, 0), c(9, 1), c(9, 2), c(7, 0), c(7, 1), c(7, 2), c(0, 0)]);
    let weaker_boat = rank7(&[c(9, 0), c(9, 1), c(9, 2), c(6, 0), c(6, 1), c(6, 2), c(0, 0)]);
    assert!(tt > weaker_boat);
    // flush loses to any full house
    let flush = rank7(&[c(0, 2), c(2, 2), c(4, 2), c(6, 2), c(12, 2), c(11, 0), c(9, 1)]);
    assert!(weaker_boat > flush);
}
