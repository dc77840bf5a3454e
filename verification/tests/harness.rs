use relearn::commands::play::share_out;
use relearn::commands::{play_games, GamesResult};
use relearn::game::{self, Game, State};
use relearn::players::{HumanPlayer, Player, PlayerKind, RandomPlayer};
use relearn::ReLearnError;

#[test]
fn tally_starts_empty() {
    assert_eq!(GamesResult::new(), GamesResult { victories: 0, draws: 0, losses: 0 });
}

#[test]
fn game_counts_for_the_mark_that_the_player_held() {
    let mut tally = GamesResult::new();
    tally.record(Some(game::Player::X), true);
    assert_eq!(tally, GamesResult { victories: 1, draws: 0, losses: 0 });
    tally.record(Some(game::Player::O), false);
    assert_eq!(tally, GamesResult { victories: 2, draws: 0, losses: 0 });
    tally.record(Some(game::Player::O), true);
    assert_eq!(tally, GamesResult { victories: 2, draws: 0, losses: 1 });
    tally.record(Some(game::Player::X), false);
    assert_eq!(tally, GamesResult { victories: 2, draws: 0, losses: 2 });
    tally.record(None, true);
    tally.record(None, false);
    assert_eq!(tally, GamesResult { victories: 2, draws: 2, losses: 2 });
}

#[test]
fn tallies_add_up() {
    let mut tally = GamesResult { victories: 3, draws: 4, losses: 5 };
    tally.add_assign(GamesResult { victories: 10, draws: 20, losses: 30 });
    assert_eq!(tally, GamesResult { victories: 13, draws: 24, losses: 35 });
    let mut other = GamesResult { victories: 10, draws: 20, losses: 30 };
    other.add_assign(GamesResult { victories: 3, draws: 4, losses: 5 });
    assert_eq!(other, tally);
    tally.add_assign(GamesResult::new());
    assert_eq!(other, tally);
}

#[test]
fn games_are_shared_out_evenly() {
    assert_eq!(share_out(8, 1000), (8, 125));
    // Two of the ten games are left over and are not played.
    assert_eq!(share_out(4, 10), (4, 2));
    assert_eq!(share_out(8, 3), (3, 1));
    assert_eq!(share_out(1, 7), (1, 7));
    assert_eq!(share_out(8, 0), (0, 0));
    assert_eq!(share_out(0, 5), (0, 0));
}

#[test]
fn every_game_of_a_batch_is_counted() {
    for n in [0usize, 1, 2, 17] {
        let tally = play_games(&RandomPlayer, &RandomPlayer, n);
        assert_eq!((tally.victories + tally.draws + tally.losses) as usize, n);
    }
}

#[test]
fn random_player_picks_an_open_move() {
    let state = State::from_array([
        Some(game::Player::X),
        Some(game::Player::O),
        None,
        None,
        Some(game::Player::X),
        None,
        Some(game::Player::O),
        None,
        None,
    ]);
    let mut seen = [false; 9];
    for _ in 0..400 {
        let position = RandomPlayer.play(&state, game::Player::X);
        assert!(Game::available_moves(&state).contains(&position));
        seen[position as usize] = true;
    }
    assert_eq!(seen, [false, false, true, true, false, true, false, true, true]);
    let last = State::from_array([
        Some(game::Player::X),
        Some(game::Player::O),
        Some(game::Player::X),
        Some(game::Player::O),
        Some(game::Player::X),
        Some(game::Player::O),
        Some(game::Player::O),
        None,
        Some(game::Player::O),
    ]);
    assert_eq!(RandomPlayer.play(&last, game::Player::X), 7);
    assert_eq!(RandomPlayer::pick(&state, 0), 2);
    assert_eq!(RandomPlayer::pick(&state, 4), 8);
}

#[test]
fn random_player_has_nothing_to_learn() {
    let mut player = RandomPlayer;
    player.learn(&Game);
    assert!(RandomPlayer.play(&State::new(), game::Player::O) < 9);
}

#[test]
fn human_player_is_shown_the_board_and_the_moves() {
    let mut state = State::from_array([
        Some(game::Player::X),
        Some(game::Player::O),
        None,
        None,
        None,
        None,
        None,
        None,
        None,
    ]);
    state.act(game::Player::X, 3).unwrap();
    assert_eq!(
        HumanPlayer::prompt(&state),
        " X | O |   \n---+---+---\n X |   |   \n---+---+---\n   |   |   \n\nAvailable moves: [2, 8, 4, 5, 6, 7]\n"
    );
    let full = State::from_array([Some(game::Player::O); 9]);
    assert!(HumanPlayer::prompt(&full).ends_with("\nAvailable moves: []\n"));
}

#[test]
fn errors_are_worded_for_the_user() {
    assert_eq!(
        ReLearnError::SaveAgentError("disk full".to_string()).message(),
        "Could not save the learned agent. Err: disk full"
    );
    assert_eq!(
        ReLearnError::LoadAgentError("no such file".to_string()).message(),
        "Could not load the agent. Err: no such file"
    );
}

#[test]
fn only_the_searching_player_can_be_trained() {
    assert!(PlayerKind::MinMax.is_trainable());
    assert!(!PlayerKind::Random.is_trainable());
    assert!(!PlayerKind::Human.is_trainable());
}
