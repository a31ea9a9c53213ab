use lrc_engine::dice::{face_of_roll, DieFace};
use lrc_engine::engine::{check_winner, get_winner, GameEngine, GameError};

fn names(n: usize) -> Vec<String> {
    let mut v = Vec::new();
    for i in 0..n {
        v.push(format!("player{}", i));
    }
    v
}

fn chips_vec(e: &GameEngine) -> Vec<u32> {
    let mut v = Vec::new();
    for i in 0..e.player_count() {
        v.push(e.chips_of(i));
    }
    v
}

#[test]
fn new_three_players_all_start_with_three_chips() {
    let e = GameEngine::new(3, names(3)).unwrap();
    assert_eq!(e.player_count(), 3);
    assert_eq!(chips_vec(&e), vec![3, 3, 3]);
    assert_eq!(e.current_player_index(), 0);
    assert_eq!(e.retired_to_center(), 0);
    let total: u32 = chips_vec(&e).iter().sum();
    assert_eq!(total, 9);
    assert!(!e.is_game_over());
}

#[test]
fn new_many_players_sum_is_three_per_player() {
    let e = GameEngine::new(7, names(7)).unwrap();
    let total: u32 = chips_vec(&e).iter().sum();
    assert_eq!(total, 21);
    for i in 0..7 {
        assert_eq!(e.chips_of(i), 3);
        assert_eq!(e.name_of(i), format!("player{}", i));
    }
}

#[test]
fn new_rejects_too_few_players() {
    assert!(matches!(GameEngine::new(2, names(2)), Err(GameError::InvalidSetup)));
    assert!(matches!(GameEngine::new(0, names(0)), Err(GameError::InvalidSetup)));
}

#[test]
fn new_rejects_name_count_mismatch() {
    assert!(matches!(GameEngine::new(3, names(2)), Err(GameError::InvalidSetup)));
    assert!(matches!(GameEngine::new(4, names(5)), Err(GameError::InvalidSetup)));
}

#[test]
fn forced_left_right_center_sequence() {
    let mut e = GameEngine::new(3, names(3)).unwrap();
    e.apply_face(0, DieFace::Left);
    assert_eq!(chips_vec(&e), vec![2, 3, 4]);
    e.apply_face(0, DieFace::Right);
    assert_eq!(chips_vec(&e), vec![1, 4, 4]);
    e.apply_face(0, DieFace::Center);
    assert_eq!(chips_vec(&e), vec![0, 4, 4]);
    assert_eq!(e.retired_to_center(), 1);
    let total: u32 = chips_vec(&e).iter().sum();
    assert_eq!(total + e.retired_to_center(), 9);
}

#[test]
fn right_roll_by_last_player_credits_player_zero() {
    let mut e = GameEngine::new(3, names(3)).unwrap();
    e.apply_face(2, DieFace::Right);
    assert_eq!(chips_vec(&e), vec![4, 3, 2]);
    assert_eq!(e.retired_to_center(), 0);
}

#[test]
fn left_roll_by_player_zero_credits_last_player() {
    let mut e = GameEngine::new(4, names(4)).unwrap();
    e.apply_face(0, DieFace::Left);
    assert_eq!(chips_vec(&e), vec![2, 3, 3, 4]);
}

#[test]
fn dot_moves_nothing() {
    let mut e = GameEngine::new(3, names(3)).unwrap();
    e.apply_face(1, DieFace::Dot);
    assert_eq!(chips_vec(&e), vec![3, 3, 3]);
    assert_eq!(e.retired_to_center(), 0);
}

#[test]
fn empty_hand_transfers_nothing() {
    let mut e = GameEngine::new(3, names(3)).unwrap();
    for _ in 0..3 {
        e.apply_face(1, DieFace::Center);
    }
    assert_eq!(chips_vec(&e), vec![3, 0, 3]);
    assert_eq!(e.retired_to_center(), 3);
    e.apply_face(1, DieFace::Left);
    e.apply_face(1, DieFace::Right);
    e.apply_face(1, DieFace::Center);
    assert_eq!(chips_vec(&e), vec![3, 0, 3]);
    assert_eq!(e.retired_to_center(), 3);
}

#[test]
fn dice_cap_five_chips_rolls_three_dice() {
    let mut e = GameEngine::new(3, names(3)).unwrap();
    e.apply_face(1, DieFace::Left);
    e.apply_face(1, DieFace::Left);
    assert_eq!(chips_vec(&e), vec![5, 1, 3]);
    let faces = e.take_turn(0);
    assert_eq!(faces.len(), 3);
}

#[test]
fn dice_count_matches_small_hand() {
    let mut e = GameEngine::new(3, names(3)).unwrap();
    e.apply_face(0, DieFace::Center);
    e.apply_face(0, DieFace::Center);
    assert_eq!(e.chips_of(0), 1);
    let faces = e.take_turn(0);
    assert_eq!(faces.len(), 1);
}

#[test]
fn take_turn_conserves_chips_and_matches_returned_faces() {
    let mut e = GameEngine::new(4, names(4)).unwrap();
    let before = chips_vec(&e);
    let retired_before = e.retired_to_center();
    let faces = e.take_turn(1);
    assert_eq!(faces.len(), 3);

    // replay the returned faces against a model of the old state
    let mut model = before.clone();
    let mut retired = retired_before;
    for f in &faces {
        if model[1] == 0 {
            continue;
        }
        match f {
            DieFace::Dot => {}
            DieFace::Left => {
                model[1] -= 1;
                model[0] += 1;
            }
            DieFace::Right => {
                model[1] -= 1;
                model[2] += 1;
            }
            DieFace::Center => {
                model[1] -= 1;
                retired += 1;
            }
        }
    }
    assert_eq!(chips_vec(&e), model);
    assert_eq!(e.retired_to_center(), retired);
    assert!(e.retired_to_center() >= retired_before);
    let total: u32 = chips_vec(&e).iter().sum();
    assert_eq!(total + e.retired_to_center(), 12);
}

#[test]
fn roll_for_current_player_rolls_for_the_cursor() {
    let mut e = GameEngine::new(3, names(3)).unwrap();
    assert_eq!(e.current_player_index(), 0);
    let faces = e.roll_for_current_player();
    assert_eq!(faces.len(), 3);
    assert_eq!(e.current_player_index(), 0);
    let total: u32 = chips_vec(&e).iter().sum();
    assert_eq!(total + e.retired_to_center(), 9);
}

#[test]
fn advance_turn_skips_eliminated_player() {
    let mut e = GameEngine::new(3, names(3)).unwrap();
    for _ in 0..3 {
        e.apply_face(1, DieFace::Center);
    }
    assert_eq!(chips_vec(&e), vec![3, 0, 3]);
    assert_eq!(e.advance_turn(0), 2);
    assert_eq!(e.current_player_index(), 2);
    assert_eq!(e.advance_turn(2), 0);
    assert_eq!(e.current_player_index(), 0);
}

#[test]
fn advance_turn_wraps_to_sole_holder() {
    let mut e = GameEngine::new(3, names(3)).unwrap();
    for p in [0, 1] {
        for _ in 0..3 {
            e.apply_face(p, DieFace::Center);
        }
    }
    assert_eq!(chips_vec(&e), vec![0, 0, 3]);
    assert_eq!(e.advance_turn(2), 2);
    assert_eq!(e.advance_turn(0), 2);
}

#[test]
fn two_active_players_is_not_yet_over_one_is() {
    let mut e = GameEngine::new(5, names(5)).unwrap();
    // eliminate players 1, 3 and 4; players 0 and 2 stay active
    for p in [1, 3, 4] {
        for _ in 0..3 {
            e.apply_face(p, DieFace::Center);
        }
    }
    assert_eq!(chips_vec(&e), vec![3, 0, 3, 0, 0]);
    assert!(!e.is_game_over());
    assert_eq!(e.winner(), Err(GameError::NoWinnerYet));
    // the moment a second-to-last player is eliminated, the game is over
    for _ in 0..3 {
        e.apply_face(0, DieFace::Center);
    }
    assert!(e.is_game_over());
    assert_eq!(e.winner(), Ok(2));
    assert_eq!(e.winner_name(), "player2");
}

#[test]
fn winner_before_game_over_is_no_winner_yet() {
    let e = GameEngine::new(3, names(3)).unwrap();
    assert_eq!(e.winner(), Err(GameError::NoWinnerYet));
}

#[test]
fn check_winner_counts_exactly_one_holder() {
    assert!(check_winner(&vec![0, 0, 5]));
    assert!(check_winner(&vec![1, 0, 0]));
    assert!(!check_winner(&vec![1, 1, 0]));
    assert!(!check_winner(&vec![0, 0, 0]));
    assert!(!check_winner(&vec![2, 3, 4]));
}

#[test]
fn get_winner_returns_first_holder_name() {
    let ns = vec!["ann".to_string(), "bo".to_string(), "cy".to_string()];
    assert_eq!(get_winner(&ns, &vec![0, 2, 1], 3), "bo");
    assert_eq!(get_winner(&ns, &vec![0, 0, 4], 3), "cy");
    assert_eq!(get_winner(&ns, &vec![0, 0, 0], 3), "");
}

#[test]
fn face_of_roll_maps_rolls_to_faces() {
    assert_eq!(face_of_roll(1), DieFace::Left);
    assert_eq!(face_of_roll(2), DieFace::Right);
    assert_eq!(face_of_roll(3), DieFace::Center);
    assert_eq!(face_of_roll(4), DieFace::Dot);
    assert_eq!(face_of_roll(5), DieFace::Dot);
    assert_eq!(face_of_roll(6), DieFace::Dot);
}

#[test]
fn full_game_reaches_a_single_winner() {
    let mut e = GameEngine::new(3, names(3)).unwrap();
    let mut turns = 0;
    while !e.is_game_over() {
        let cur = e.current_player_index();
        e.take_turn(cur);
        if e.is_game_over() {
            break;
        }
        e.advance_turn(cur);
        turns += 1;
        assert!(turns < 100000, "game did not converge");
    }
    let w = e.winner().unwrap();
    assert!(e.chips_of(w) > 0);
    let total: u32 = chips_vec(&e).iter().sum();
    assert_eq!(total + e.retired_to_center(), 9);
}
