use engine::player::Position;

#[test]
fn position_short_label_all_variants() {
    assert_eq!(Position::Utg.short_label(), "UTG");
    assert_eq!(Position::UtgPlus1.short_label(), "UTG+1");
    assert_eq!(Position::UtgPlus2.short_label(), "UTG+2");
    assert_eq!(Position::Lojack.short_label(), "LJ");
    assert_eq!(Position::Hijack.short_label(), "HJ");
    assert_eq!(Position::Cutoff.short_label(), "CO");
    assert_eq!(Position::Dealer.short_label(), "BTN");
    assert_eq!(Position::SmallBlind.short_label(), "SB");
    assert_eq!(Position::BigBlind.short_label(), "BB");
}

#[test]
fn position_labels_9max_use_lojack_not_mp() {
    let active: Vec<u8> = (0..9).collect();
    let dealer = 0u8;
    let labels: std::collections::HashSet<String> = active
        .iter()
        .map(|&s| {
            Position::for_seat(s, dealer, &active)
                .short_label()
                .to_string()
        })
        .collect();
    let expected: std::collections::HashSet<String> =
        ["UTG", "UTG+1", "UTG+2", "LJ", "HJ", "CO", "BTN", "SB", "BB"]
            .iter()
            .map(|s| s.to_string())
            .collect();
    assert_eq!(labels, expected, "9-max must use LJ not MP");
    assert!(!labels.contains("MP"), "MP must not appear in 9-max labels");
}

#[test]
fn non_contiguous_seats_no_duplicate_positions() {
    let active = [0u8, 1, 3];
    let dealer = 1u8;
    let positions: Vec<Position> = active
        .iter()
        .map(|&s| Position::for_seat(s, dealer, &active))
        .collect();
    let mut seen = std::collections::HashSet::new();
    for pos in &positions {
        assert!(
            seen.insert(*pos),
            "Duplicate position {:?} for seats {:?} with dealer={}",
            pos,
            active,
            dealer
        );
    }
    assert_eq!(
        Position::for_seat(1, dealer, &active),
        Position::Dealer,
        "seat 1 is the dealer"
    );
    assert_eq!(
        Position::for_seat(3, dealer, &active),
        Position::SmallBlind,
        "seat 3 should be SB"
    );
    assert_eq!(
        Position::for_seat(0, dealer, &active),
        Position::BigBlind,
        "seat 0 should be BB"
    );
}

#[test]
fn missing_dealer_seat_does_not_mislabel_off_phantom_button() {
    let active = [0u8, 1, 2];
    assert_eq!(
        Position::for_seat(1, 5, &active),
        Position::Dealer,
        "absent dealer must not produce a phantom rank-0 button labelling"
    );
}

#[test]
fn contiguous_4_seats_correct_positions() {
    let active = [0u8, 1, 2, 3];
    assert_eq!(Position::for_seat(0, 0, &active), Position::Dealer);
    assert_eq!(Position::for_seat(1, 0, &active), Position::SmallBlind);
    assert_eq!(Position::for_seat(2, 0, &active), Position::BigBlind);
    assert_eq!(Position::for_seat(3, 0, &active), Position::Utg);
}

#[test]
fn heads_up_dealer_is_sb() {
    let active = [0u8, 1];
    assert_eq!(Position::for_seat(0, 0, &active), Position::SmallBlind);
    assert_eq!(Position::for_seat(1, 0, &active), Position::BigBlind);
}

#[test]
fn nine_max_position_order_includes_lj_between_utg2_and_hj() {
    let active: Vec<u8> = (0..9).collect();
    let dealer = 0u8;

    let expected_by_dist = ["BTN", "SB", "BB", "UTG", "UTG+1", "UTG+2", "LJ", "HJ", "CO"];

    for (dist, &expected_label) in expected_by_dist.iter().enumerate() {
        let seat = dist as u8;
        let pos = Position::for_seat(seat, dealer, &active);
        assert_eq!(
            pos.short_label(),
            expected_label,
            "9-max dist={dist}: expected {expected_label} but got {}",
            pos.short_label()
        );
    }

    assert_eq!(
        Position::for_seat(5, dealer, &active).short_label(),
        "UTG+2",
        "dist=5 must be UTG+2"
    );
    assert_eq!(
        Position::for_seat(6, dealer, &active).short_label(),
        "LJ",
        "dist=6 must be LJ (not MP or any other label)"
    );
    assert_eq!(
        Position::for_seat(7, dealer, &active).short_label(),
        "HJ",
        "dist=7 must be HJ"
    );
}
