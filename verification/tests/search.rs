use relearn::commands::play_games;
use relearn::game::{self, Game, State};
use relearn::players::{MinMaxPlayer, Player, RandomPlayer};

const X: Option<game::Player> = Some(game::Player::X);
const O: Option<game::Player> = Some(game::Player::O);
const E: Option<game::Player> = None;

fn learned() -> MinMaxPlayer {
    let mut player = MinMaxPlayer::new();
    player.learn(&Game);
    player
}

#[test]
fn outcome_is_worth_one_zero_or_minus_one() {
    let player = MinMaxPlayer::new();
    assert_eq!(player.utility(Some(game::Player::X), game::Player::X), 1);
    assert_eq!(player.utility(Some(game::Player::O), game::Player::X), -1);
    assert_eq!(player.utility(Some(game::Player::X), game::Player::O), -1);
    assert_eq!(player.utility(Some(game::Player::O), game::Player::O), 1);
    assert_eq!(player.utility(None, game::Player::X), 0);
    assert_eq!(player.utility(None, game::Player::O), 0);
}

#[test]
fn search_takes_the_win() {
    let player = MinMaxPlayer::new();
    let state = State::from_array([
        X, X, E, //
        O, O, E, //
        E, E, E,
    ]);
    assert_eq!(player.maximize(&Game, &state, game::Player::X), (1, Some(2)));
    assert_eq!(player.search(&Game, &state, game::Player::X), 2);
    // With O to move the same position is lost for X, and already by the
    // first move in the list: at 2, O stops the row of X and then threatens
    // both its own row and a diagonal.
    assert_eq!(player.minimize(&Game, &state, game::Player::X), (-1, Some(2)));
    assert_eq!(player.maximize(&Game, &state, game::Player::O), (1, Some(2)));
    let state = State::from_array([
        X, X, E, //
        E, X, E, //
        O, O, E,
    ]);
    // Here X wins at once after every move of O but the last in the list,
    // which completes the row of O.
    assert_eq!(Game::available_moves(&state), &vec![2, 3, 5, 8]);
    assert_eq!(player.minimize(&Game, &state, game::Player::X), (-1, Some(8)));
}

#[test]
fn search_blocks_the_threat() {
    let player = MinMaxPlayer::new();
    let state = State::from_array([
        O, O, E, //
        X, X, O, //
        E, E, E,
    ]);
    // Every move but the block at 2 loses at once; after it the game is drawn.
    assert_eq!(player.maximize(&Game, &state, game::Player::X), (0, Some(2)));
    let state = State::from_array([
        O, O, E, //
        E, X, E, //
        E, E, X,
    ]);
    // Here the block at 2 also makes two threats, at 5 and at 6.
    assert_eq!(player.maximize(&Game, &state, game::Player::X), (1, Some(2)));
}

#[test]
fn search_keeps_the_first_of_equal_moves() {
    let player = MinMaxPlayer::new();
    // From the empty board every move leads to a draw.
    assert_eq!(player.maximize(&Game, &State::new(), game::Player::X), (0, Some(0)));
    let state = State::from_array([
        E, E, E, //
        E, E, E, //
        X, O, E,
    ]);
    let mut swapped = state.clone();
    swapped.act(game::Player::X, 0).unwrap();
    assert_eq!(Game::available_moves(&swapped), &vec![8, 1, 2, 3, 4, 5]);
    let sorted = State::from_array([
        X, E, E, //
        E, E, E, //
        X, O, E,
    ]);
    assert_eq!(Game::available_moves(&sorted), &vec![1, 2, 3, 4, 5, 8]);
    assert_eq!(swapped, sorted);
    // O is to move and is lost: if it stops the column at 3, X takes the
    // centre and threatens both diagonals. Every move is then as bad as any
    // other, and the first in the list is kept.
    assert_eq!(player.minimize(&Game, &swapped, game::Player::X), (1, Some(8)));
    assert_eq!(player.minimize(&Game, &sorted, game::Player::X), (1, Some(1)));
}

#[test]
fn search_of_a_finished_game_names_no_move() {
    let player = MinMaxPlayer::new();
    let won = State::from_array([
        X, X, X, //
        O, O, E, //
        E, E, E,
    ]);
    assert_eq!(player.maximize(&Game, &won, game::Player::X), (1, None));
    assert_eq!(player.maximize(&Game, &won, game::Player::O), (-1, None));
    assert_eq!(player.minimize(&Game, &won, game::Player::O), (-1, None));
    let drawn = State::from_array([
        X, O, X, //
        O, X, O, //
        O, X, O,
    ]);
    assert_eq!(player.maximize(&Game, &drawn, game::Player::X), (0, None));
    assert_eq!(player.minimize(&Game, &drawn, game::Player::X), (0, None));
}

#[test]
fn no_move_beats_the_chosen_one() {
    let player = MinMaxPlayer::new();
    let state = State::from_array([
        X, E, E, //
        E, O, E, //
        E, E, E,
    ]);
    let (value, action) = player.maximize(&Game, &state, game::Player::X);
    let action = action.unwrap();
    for position in Game::available_moves(&state).clone() {
        let mut next = state.clone();
        Game::act(game::Player::X, position, &mut next).unwrap();
        let (reply, _) = player.minimize(&Game, &next, game::Player::X);
        assert!(reply <= value);
        if position == action {
            assert_eq!(reply, value);
        }
    }
    assert_eq!(value, 0);
}

#[test]
fn new_player_knows_nothing() {
    let player = MinMaxPlayer::new();
    assert!(player.entries().is_empty());
    assert!(!player.is_prepared());
    assert_eq!(player.recall(&State::new()), None);
}

#[test]
fn learning_covers_every_open_position() {
    let player = learned();
    assert!(player.is_prepared());
    // 5478 positions can be reached, and 958 of them end the game.
    assert_eq!(player.entries().len(), 4520);
    assert_eq!(player.recall(&State::new()), Some(0));
    assert_eq!(player.play(&State::new(), game::Player::X), 0);
    let state = State::from_array([
        X, X, E, //
        O, O, E, //
        E, E, E,
    ]);
    assert_eq!(player.recall(&state), Some(2));
    // Nothing is written down for a position where the game is over, nor for
    // one that no game comes to.
    let over = State::from_array([
        X, X, X, //
        O, O, E, //
        E, E, E,
    ]);
    assert_eq!(player.recall(&over), None);
    let unreachable = State::from_array([
        X, X, E, //
        E, E, E, //
        E, E, E,
    ]);
    assert_eq!(player.recall(&unreachable), None);
}

#[test]
fn learned_moves_are_best_moves() {
    let player = learned();
    let search = MinMaxPlayer::new();
    let state = State::from_array([
        O, O, E, //
        E, X, E, //
        E, E, X,
    ]);
    let action = player.play(&state, game::Player::X);
    let (value, _) = search.maximize(&Game, &state, game::Player::X);
    let mut next = state.clone();
    Game::act(game::Player::X, action, &mut next).unwrap();
    assert_eq!(search.minimize(&Game, &next, game::Player::X).0, value);
    assert_eq!(action, 2);
    // With O to move, the table holds the move of O that is worst for X:
    // here the block at 2, after which the game is drawn.
    let state = State::from_array([
        X, X, E, //
        E, O, E, //
        E, E, E,
    ]);
    assert_eq!(search.minimize(&Game, &state, game::Player::X), (0, Some(2)));
    assert_eq!(player.play(&state, game::Player::O), 2);
}

#[test]
fn learning_leaves_other_entries_alone() {
    let mut player = MinMaxPlayer::from_entries(&vec![(19000, 7), (1, 5), (40000, 1)]);
    assert_eq!(player.entries(), vec![(1, 5), (19000, 7)]);
    player.learn(&Game);
    let entries = player.entries();
    // Code 1 is the board with X in the corner, which a game comes to: its
    // entry is written anew. Code 19000 stands for no such board.
    assert_eq!(entries.len(), 4521);
    assert!(entries.contains(&(19000, 7)));
    assert!(!entries.contains(&(1, 5)));
    assert_eq!(entries[0].0, 0);
}

#[test]
fn table_comes_back_from_its_entries() {
    let player = learned();
    let entries = player.entries();
    let restored = MinMaxPlayer::from_entries(&entries);
    assert_eq!(restored.entries(), entries);
    assert!(restored.is_prepared());
    let again = MinMaxPlayer::from_entries(&vec![(5, 1), (3, 2), (5, 4)]);
    assert_eq!(again.entries(), vec![(3, 2), (5, 4)]);
}

#[test]
fn table_with_a_taken_cell_is_not_prepared() {
    let player = learned();
    let mut entries = player.entries();
    // Code 1 is the board with X in the corner, where cell 0 is taken.
    let slot = entries.iter().position(|entry| entry.0 == 1).unwrap();
    entries[slot].1 = 0;
    let spoiled = MinMaxPlayer::from_entries(&entries);
    assert!(!spoiled.is_prepared());
    assert_eq!(spoiled.recall(&State::from_array([X, E, E, E, E, E, E, E, E])), None);
    entries.remove(slot);
    assert!(!MinMaxPlayer::from_entries(&entries).is_prepared());
}

#[test]
fn perfect_players_always_draw() {
    let player = learned();
    assert_eq!(Game::play(&player, &player), None);
    let tally = play_games(&player, &player, 25);
    assert_eq!((tally.victories, tally.draws, tally.losses), (0, 25, 0));
}

#[test]
fn perfect_player_never_loses_to_chance() {
    let player = learned();
    let tally = play_games(&player, &RandomPlayer, 1000);
    assert_eq!(tally.losses, 0);
    assert_eq!(tally.victories + tally.draws, 1000);
    let tally = play_games(&RandomPlayer, &player, 1000);
    assert_eq!(tally.victories, 0);
    assert_eq!(tally.draws + tally.losses, 1000);
}

#[test]
fn game_ends_with_the_winner_that_the_board_shows() {
    for _ in 0..50 {
        let winner = Game::play(&RandomPlayer, &RandomPlayer);
        assert!(matches!(winner, None | Some(game::Player::X) | Some(game::Player::O)));
    }
}
