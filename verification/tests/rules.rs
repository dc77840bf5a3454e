use relearn::game::{Game, MoveError, Player, State, Status};

const X: Option<Player> = Some(Player::X);
const O: Option<Player> = Some(Player::O);
const E: Option<Player> = None;

fn occupied(state: &State) -> usize {
    (0..9u8).filter(|position| state.cell(*position).is_some()).count()
}

#[test]
fn test_act() {
    let mut state = State::from_array([
        X, O, E, //
        E, E, E, //
        E, E, E,
    ]);

    assert!(Game::act(Player::X, 3, &mut state).is_ok());
    assert_eq!(
        state,
        State::from_array([
            X, O, E, //
            X, E, E, //
            E, E, E,
        ])
    );
    assert_eq!(Game::available_moves(&state), &vec![2, 8, 4, 5, 6, 7]);

    assert!(Game::act(Player::X, 0, &mut state).is_err());

    assert!(Game::act(Player::O, 4, &mut state).is_ok());
    assert_eq!(
        state,
        State::from_array([
            X, O, E, //
            X, O, E, //
            E, E, E,
        ])
    );
    assert_eq!(Game::available_moves(&state), &vec![2, 8, 7, 5, 6]);

    assert!(Game::act(Player::X, 8, &mut state).is_ok());
    assert_eq!(
        state,
        State::from_array([
            X, O, E, //
            X, O, E, //
            E, E, X,
        ])
    );
    assert_eq!(Game::available_moves(&state), &vec![2, 6, 7, 5]);

    assert!(Game::act(Player::O, 7, &mut state).is_ok());
    assert_eq!(
        state,
        State::from_array([
            X, O, E, //
            X, O, E, //
            E, O, X,
        ])
    );
    assert_eq!(Game::available_moves(&state), &vec![2, 6, 5]);
    assert_eq!(Game::status(&state), Status::Finished(Some(Player::O)));
}

#[test]
fn test_status() {
    assert_eq!(
        Game::status(&State::from_array([
            X, X, X, //
            O, O, E, //
            E, E, E,
        ])),
        Status::Finished(Some(Player::X))
    );
    assert_eq!(
        Game::status(&State::from_array([
            X, E, X, //
            O, O, E, //
            E, E, E,
        ])),
        Status::OnGoing
    );
    assert_eq!(
        Game::status(&State::from_array([
            O, X, X, //
            O, E, E, //
            O, X, E,
        ])),
        Status::Finished(Some(Player::O))
    );
    assert_eq!(
        Game::status(&State::from_array([
            O, X, O, //
            E, X, E, //
            O, X, E,
        ])),
        Status::Finished(Some(Player::X))
    );
    assert_eq!(
        Game::status(&State::from_array([
            O, X, X, //
            O, X, E, //
            X, O, E,
        ])),
        Status::Finished(Some(Player::X))
    );
    assert_eq!(
        Game::status(&State::from_array([
            X, O, X, //
            O, O, X, //
            E, E, E,
        ])),
        Status::OnGoing
    );
    assert_eq!(
        Game::status(&State::from_array([
            X, O, X, //
            O, X, X, //
            O, X, O,
        ])),
        Status::Finished(None)
    );
}

#[test]
fn empty_board_is_open_with_nine_moves() {
    let state = State::new();
    assert_eq!(Game::status(&state), Status::OnGoing);
    assert_eq!(Game::available_moves(&state), &vec![0, 1, 2, 3, 4, 5, 6, 7, 8]);
    assert_eq!(state, State::from_array([E; 9]));
}

#[test]
fn top_row_wins_for_x() {
    let state = State::from_array([
        X, X, X, //
        O, O, E, //
        E, E, E,
    ]);
    assert_eq!(Game::status(&state), Status::Finished(Some(Player::X)));
    assert_eq!(Game::winner(&state), Some(Player::X));
}

#[test]
fn full_board_without_line_is_a_draw() {
    let state = State::from_array([
        X, O, X, //
        O, X, O, //
        O, X, O,
    ]);
    assert_eq!(Game::status(&state), Status::Finished(None));
    assert_eq!(Game::winner(&state), None);
    assert!(Game::available_moves(&state).is_empty());
}

#[test]
fn occupied_cell_is_refused() {
    let mut state = State::from_array([
        X, O, E, //
        E, E, E, //
        E, E, E,
    ]);
    assert_eq!(occupied(&state), 2);
    assert!(matches!(Game::act(Player::O, 0, &mut state), Err(MoveError::NonEmptyField)));
    assert_eq!(occupied(&state), 2);
    assert_eq!(state.cell(0), X);
    assert!(matches!(Game::act(Player::X, 1, &mut state), Err(MoveError::NonEmptyField)));
    assert_eq!(state.cell(1), O);
    assert_eq!(Game::available_moves(&state), &vec![2, 3, 4, 5, 6, 7, 8]);
}

#[test]
fn position_off_the_board_is_refused() {
    let mut state = State::new();
    assert!(matches!(Game::act(Player::X, 9, &mut state), Err(MoveError::OutOfBound)));
    assert!(matches!(Game::act(Player::X, 255, &mut state), Err(MoveError::OutOfBound)));
    assert!(matches!(state.act(Player::X, 8), Ok(())));
}

#[test]
fn refused_move_changes_nothing() {
    let mut state = State::from_array([
        X, O, E, //
        E, X, E, //
        E, E, O,
    ]);
    assert!(Game::act(Player::X, 2, &mut state).is_ok());
    let before = state.clone();
    let moves_before = Game::available_moves(&state).clone();
    assert!(Game::act(Player::O, 4, &mut state).is_err());
    assert!(Game::act(Player::O, 42, &mut state).is_err());
    assert_eq!(state, before);
    assert_eq!(Game::available_moves(&state), &moves_before);
    assert_eq!(moves_before, vec![7, 3, 5, 6]);
}

#[test]
fn marks_and_moves_are_nine_together() {
    let mut state = State::new();
    let mut mark = Player::X;
    for (made, position) in [4u8, 0, 8, 2, 1, 7].iter().enumerate() {
        assert_eq!(occupied(&state), made);
        assert_eq!(Game::available_moves(&state).len(), 9 - made);
        assert!(Game::act(mark, *position, &mut state).is_ok());
        assert!(Game::act(mark, *position, &mut state).is_err());
        mark = mark.next_player();
    }
    assert_eq!(
        state,
        State::from_array([
            O, X, O, //
            E, X, E, //
            E, O, X,
        ])
    );
    assert_eq!(occupied(&state), 6);
    assert_eq!(Game::available_moves(&state), &vec![3, 6, 5]);
}

#[test]
fn line_wins_however_many_cells_are_empty() {
    assert_eq!(
        Game::status(&State::from_array([
            X, X, X, //
            E, E, E, //
            E, E, E,
        ])),
        Status::Finished(Some(Player::X))
    );
    assert_eq!(
        Game::status(&State::from_array([
            E, E, O, //
            E, O, E, //
            O, E, E,
        ])),
        Status::Finished(Some(Player::O))
    );
    assert_eq!(
        Game::status(&State::from_array([
            E, X, E, //
            E, X, E, //
            E, X, O,
        ])),
        Status::Finished(Some(Player::X))
    );
}

#[test]
fn x_is_named_where_both_hold_a_line() {
    assert_eq!(
        Game::status(&State::from_array([
            O, O, O, //
            X, X, X, //
            E, E, E,
        ])),
        Status::Finished(Some(Player::X))
    );
}

#[test]
fn status_is_the_same_when_asked_again() {
    let state = State::from_array([
        X, O, X, //
        O, O, X, //
        E, E, E,
    ]);
    let first = Game::status(&state);
    assert_eq!(Game::status(&state), first);
    assert_eq!(Game::status(&state.clone()), first);
}

#[test]
fn states_are_equal_by_their_cells() {
    let mut one = State::new();
    one.act(Player::X, 0).unwrap();
    one.act(Player::O, 1).unwrap();
    one.act(Player::X, 2).unwrap();
    let mut other = State::new();
    other.act(Player::X, 2).unwrap();
    other.act(Player::O, 1).unwrap();
    other.act(Player::X, 0).unwrap();
    assert_eq!(Game::available_moves(&one), &vec![8, 7, 6, 3, 4, 5]);
    assert_eq!(Game::available_moves(&other), &vec![6, 7, 8, 3, 4, 5]);
    assert_eq!(one, other);
    assert_eq!(one.encode_state(), other.encode_state());
    other.act(Player::O, 3).unwrap();
    assert_ne!(one, other);
}

#[test]
fn codes_are_base_three() {
    assert_eq!(State::new().encode_state(), 0);
    assert_eq!(State::from_array([X, E, E, E, E, E, E, E, E]).encode_state(), 1);
    assert_eq!(State::from_array([O, E, E, E, E, E, E, E, E]).encode_state(), 2);
    assert_eq!(State::from_array([E, X, E, E, E, E, E, E, E]).encode_state(), 3);
    assert_eq!(State::from_array([E, E, E, E, E, E, E, E, O]).encode_state(), 13122);
    assert_eq!(State::from_array([O; 9]).encode_state(), 19682);
    assert_eq!(State::from_array([X; 9]).encode_state(), 9841);
    assert_eq!(
        State::from_array([
            X, O, X, //
            O, X, O, //
            O, X, O,
        ])
        .encode_state(),
        1 + 2 * 3 + 9 + 2 * 27 + 81 + 2 * 243 + 2 * 729 + 2187 + 2 * 6561
    );
}

#[test]
fn moves_of_an_array_are_ascending() {
    let state = State::from_array([
        E, O, E, //
        X, E, E, //
        X, E, O,
    ]);
    assert_eq!(Game::available_moves(&state), &vec![0, 2, 4, 5, 7]);
    assert!(state.is_available(0));
    assert!(!state.is_available(1));
    assert!(!state.is_available(9));
}

#[test]
fn turns_alternate() {
    assert_eq!(Player::X.next_player(), Player::O);
    assert_eq!(Player::O.next_player(), Player::X);
    assert_eq!(Player::X.label(), "X");
    assert_eq!(Player::O.label(), "O");
}

#[test]
fn board_is_drawn_in_three_rows() {
    let state = State::from_array([
        X, O, E, //
        E, X, E, //
        O, O, X,
    ]);
    assert_eq!(
        state.render(),
        " X | O |   \n---+---+---\n   | X |   \n---+---+---\n O | O | X \n"
    );
    assert_eq!(
        State::new().render(),
        "   |   |   \n---+---+---\n   |   |   \n---+---+---\n   |   |   \n"
    );
}
