use chain_orb::board::create_empty_board;
use chain_orb::board::Cell;
use chain_orb::game::claim_timeout;
use chain_orb::game::confirm_deposit;
use chain_orb::game::create_lobby;
use chain_orb::game::join_lobby;
use chain_orb::game::leave_lobby;
use chain_orb::game::make_move;
use chain_orb::game::start_game;
use chain_orb::game::GameError;
use chain_orb::game::GameMove;
use chain_orb::game::LobbyRoom;
use chain_orb::game::Status;

const HOST: u64 = 11;
const GUEST: u64 = 22;

fn two_player_lobby() -> LobbyRoom {
    let mut room = create_lobby(
        8453,
        7,
        "0xarena".to_string(),
        "0xHOSTADDR".to_string(),
        "1000000".to_string(),
        2,
        "alice".to_string(),
        "lobby1".to_string(),
        HOST,
        1_000,
    );
    join_lobby(&mut room, GUEST, 2_000, "0xGUESTADDR".to_string(), "bob".to_string())
        .expect("guest joins");
    room
}

fn live_two_player_lobby() -> LobbyRoom {
    let mut room = two_player_lobby();
    confirm_deposit(&mut room, "0xguestaddr".to_string()).expect("deposit confirmed");
    start_game(&mut room, HOST, 3_000).expect("game starts");
    room
}

#[test]
fn create_lobby_sets_up_host_and_board() {
    let room = two_player_lobby();
    assert_eq!(room.lobby.status, Status::Waiting);
    assert_eq!(room.players.len(), 2);
    assert!(room.players[0].is_host);
    assert_eq!(room.players[0].color, 0);
    assert_eq!(room.players[1].color, 1);
    assert!(room.players[0].has_deposited);
    assert!(!room.players[1].has_deposited);
    assert_eq!(room.state.board.rows, 9);
    assert_eq!(room.state.board.cols, 6);
}

#[test]
fn five_player_lobby_gets_large_board() {
    let room = create_lobby(
        8453,
        9,
        "0xarena".to_string(),
        "0xhost".to_string(),
        "0".to_string(),
        5,
        "alice".to_string(),
        "lobby2".to_string(),
        HOST,
        1_000,
    );
    assert_eq!(room.state.board.rows, 15);
    assert_eq!(room.state.board.cols, 15);
}

#[test]
fn deposit_match_is_case_insensitive() {
    let mut room = two_player_lobby();
    assert!(!room.players[1].has_deposited);
    confirm_deposit(&mut room, "0xGuEsTaDdR".to_string()).expect("mixed case matches");
    assert!(room.players[1].has_deposited);
}

#[test]
fn deposit_unknown_address_is_not_found() {
    let mut room = two_player_lobby();
    assert_eq!(
        confirm_deposit(&mut room, "0xnobody".to_string()),
        Err(GameError::NotFound)
    );
}

#[test]
fn start_requires_all_deposits() {
    let mut room = two_player_lobby();
    assert_eq!(start_game(&mut room, HOST, 3_000), Err(GameError::InvalidState));
}

#[test]
fn start_requires_host() {
    let mut room = two_player_lobby();
    confirm_deposit(&mut room, "0xguestaddr".to_string()).unwrap();
    assert_eq!(start_game(&mut room, GUEST, 3_000), Err(GameError::Unauthorized));
}

#[test]
fn start_requires_two_players() {
    let mut room = create_lobby(
        8453,
        7,
        "0xarena".to_string(),
        "0xhost".to_string(),
        "0".to_string(),
        2,
        "alice".to_string(),
        "lobby3".to_string(),
        HOST,
        1_000,
    );
    assert_eq!(start_game(&mut room, HOST, 3_000), Err(GameError::InvalidState));
}

#[test]
fn start_sets_deadline() {
    let room = live_two_player_lobby();
    assert_eq!(room.lobby.status, Status::Live);
    assert_eq!(room.state.turn_deadline, 3_000 + 30_000_000);
}

#[test]
fn join_after_start_is_invalid_state() {
    let mut room = live_two_player_lobby();
    assert_eq!(
        join_lobby(&mut room, 33, 4_000, "0xc".to_string(), "carol".to_string()),
        Err(GameError::InvalidState)
    );
}

#[test]
fn duplicate_join_is_conflict() {
    let mut room = two_player_lobby();
    assert_eq!(
        join_lobby(&mut room, GUEST, 2_500, "0xother".to_string(), "bob2".to_string()),
        Err(GameError::Conflict)
    );
}

#[test]
fn full_lobby_is_conflict() {
    let mut room = two_player_lobby();
    assert_eq!(
        join_lobby(&mut room, 33, 2_500, "0xc".to_string(), "carol".to_string()),
        Err(GameError::Conflict)
    );
}

#[test]
fn leave_cancels_lobby_when_host_leaves() {
    let mut room = two_player_lobby();
    leave_lobby(&mut room, HOST, 2_500).expect("host leaves");
    assert_eq!(room.lobby.status, Status::Cancelled);
    assert_eq!(room.players.len(), 0);
}

#[test]
fn leave_removes_guest_only() {
    let mut room = two_player_lobby();
    leave_lobby(&mut room, GUEST, 2_500).expect("guest leaves");
    assert_eq!(room.lobby.status, Status::Waiting);
    assert_eq!(room.players.len(), 1);
    assert_eq!(room.players[0].identity, HOST);
}

#[test]
fn leave_after_start_is_invalid_state() {
    let mut room = live_two_player_lobby();
    assert_eq!(leave_lobby(&mut room, GUEST, 4_000), Err(GameError::InvalidState));
}

#[test]
fn out_of_turn_move_is_unauthorized() {
    let mut room = live_two_player_lobby();
    assert_eq!(make_move(&mut room, GUEST, 4_000, 0, 0), Err(GameError::Unauthorized));
}

#[test]
fn out_of_bounds_move_is_conflict() {
    let mut room = live_two_player_lobby();
    assert_eq!(make_move(&mut room, HOST, 4_000, 9, 0), Err(GameError::Conflict));
    assert_eq!(make_move(&mut room, HOST, 4_000, 0, 6), Err(GameError::Conflict));
}

#[test]
fn rival_cell_is_conflict() {
    let mut room = live_two_player_lobby();
    make_move(&mut room, HOST, 4_000, 2, 2).expect("host moves");
    assert_eq!(make_move(&mut room, GUEST, 5_000, 2, 2), Err(GameError::Conflict));
}

#[test]
fn move_while_animating_is_timing() {
    let mut room = live_two_player_lobby();
    room.state.is_animating = true;
    assert_eq!(make_move(&mut room, HOST, 4_000, 0, 0), Err(GameError::Timing));
}

#[test]
fn moves_are_logged_contiguously() {
    let mut room = live_two_player_lobby();
    make_move(&mut room, HOST, 4_000, 0, 0).expect("host moves");
    make_move(&mut room, GUEST, 5_000, 8, 5).expect("guest moves");
    assert_eq!(room.state.move_count, 2);
    assert_eq!(room.moves.len(), 2);
    assert_eq!(room.moves[0].move_index, 0);
    assert_eq!(room.moves[0].player_identity, HOST);
    assert_eq!(room.moves[1].move_index, 1);
    assert_eq!(room.moves[1].player_identity, GUEST);
}

#[test]
fn corner_explosion_scenario() {
    // red (the host) plays the corner twice; the second orb reaches the
    // corner's capacity of two and explodes into (0,1) and (1,0)
    let mut room = live_two_player_lobby();
    make_move(&mut room, HOST, 4_000, 0, 0).expect("red takes the corner");
    make_move(&mut room, GUEST, 5_000, 8, 5).expect("blue plays elsewhere");
    make_move(&mut room, HOST, 6_000, 0, 0).expect("red fills the corner");
    let b = &room.state.board;
    assert_eq!(b.cells[0].orbs, 0);
    assert_eq!(b.cells[0].owner, None);
    assert_eq!(b.cells[1].orbs, 1);
    assert_eq!(b.cells[1].owner, Some(0));
    assert_eq!(b.cells[6].orbs, 1);
    assert_eq!(b.cells[6].owner, Some(0));
}

#[test]
fn claim_before_deadline_is_timing_and_changes_nothing() {
    let mut room = live_two_player_lobby();
    let deadline = room.state.turn_deadline;
    let index = room.state.current_player_index;
    assert_eq!(claim_timeout(&mut room, deadline - 1), Err(GameError::Timing));
    assert_eq!(room.lobby.status, Status::Live);
    assert_eq!(room.state.turn_deadline, deadline);
    assert_eq!(room.state.current_player_index, index);
    assert!(room.players.iter().all(|p| p.is_alive));
}

#[test]
fn claim_at_deadline_eliminates_current_player() {
    let mut room = live_two_player_lobby();
    let deadline = room.state.turn_deadline;
    claim_timeout(&mut room, deadline).expect("deadline passed");
    assert!(!room.players[0].is_alive);
    assert!(room.players[1].is_alive);
    assert_eq!(room.lobby.status, Status::Finished);
    assert_eq!(room.lobby.winner_identity, Some(GUEST));
    assert_eq!(room.lobby.winner_address.as_deref(), Some("0xGUESTADDR"));
}

#[test]
fn elimination_sweep_finishes_the_match() {
    // two alive players; red's corner explosion captures blue's only orb,
    // blue drops to zero orbs and is eliminated, red becomes sole winner
    let mut room = live_two_player_lobby();
    let mut board = create_empty_board(9, 6);
    board.set(0, 0, Cell { orbs: 1, owner: Some(0) });
    board.set(0, 1, Cell { orbs: 1, owner: Some(1) });
    room.state.board = board;
    room.state.move_count = 4;
    room.moves.clear();
    for i in 0..4u32 {
        room.moves.push(GameMove {
            move_index: i,
            player_identity: if i % 2 == 0 { HOST } else { GUEST },
            row: 0,
            col: i,
            timestamp: 4_000 + i as u64,
        });
    }
    make_move(&mut room, HOST, 9_000, 0, 0).expect("red explodes the corner");
    assert!(room.players[0].is_alive);
    assert!(!room.players[1].is_alive);
    assert_eq!(room.lobby.status, Status::Finished);
    assert_eq!(room.lobby.winner_identity, Some(HOST));
    assert_eq!(room.lobby.winner_address.as_deref(), Some("0xHOSTADDR"));
}

#[test]
fn finished_lobby_rejects_further_actions() {
    let mut room = live_two_player_lobby();
    let deadline = room.state.turn_deadline;
    claim_timeout(&mut room, deadline).expect("forfeit finishes the match");
    let winner = room.lobby.winner_identity;
    assert_eq!(make_move(&mut room, GUEST, deadline + 1, 0, 0), Err(GameError::InvalidState));
    assert_eq!(claim_timeout(&mut room, deadline + 1), Err(GameError::InvalidState));
    assert_eq!(room.lobby.winner_identity, winner);
}

#[test]
fn no_first_round_elimination() {
    // during the first round a player with no orbs on the board survives
    let mut room = live_two_player_lobby();
    make_move(&mut room, HOST, 4_000, 0, 0).expect("red moves first");
    assert!(room.players[1].is_alive);
}

#[test]
fn timeout_keeps_index_without_increment() {
    // three players; when the middle one times out, the stored index keeps
    // naming the player who is next in join order
    let mut room = create_lobby(
        8453,
        7,
        "0xarena".to_string(),
        "0xa".to_string(),
        "0".to_string(),
        3,
        "alice".to_string(),
        "lobby4".to_string(),
        HOST,
        1_000,
    );
    join_lobby(&mut room, GUEST, 2_000, "0xb".to_string(), "bob".to_string()).unwrap();
    join_lobby(&mut room, 33, 2_500, "0xc".to_string(), "carol".to_string()).unwrap();
    confirm_deposit(&mut room, "0xb".to_string()).unwrap();
    confirm_deposit(&mut room, "0xc".to_string()).unwrap();
    start_game(&mut room, HOST, 3_000).unwrap();
    make_move(&mut room, HOST, 4_000, 0, 0).expect("alice moves");
    assert_eq!(room.state.current_player_index, 1);
    // bob (index 1) times out; carol slides into ordinal 1
    let deadline = room.state.turn_deadline;
    claim_timeout(&mut room, deadline).expect("bob forfeits");
    assert!(!room.players[1].is_alive);
    assert_eq!(room.lobby.status, Status::Live);
    assert_eq!(room.state.current_player_index, 1);
    // it is carol's turn now, not alice's
    assert_eq!(
        make_move(&mut room, HOST, deadline + 1, 1, 1),
        Err(GameError::Unauthorized)
    );
    make_move(&mut room, 33, deadline + 1, 1, 1).expect("carol moves");
    // a player never comes back from elimination
    assert!(!room.players[1].is_alive);
    assert!(room.players[0].is_alive && room.players[2].is_alive);
}

#[test]
fn palette_exhaustion_falls_back_to_first_color() {
    let mut room = create_lobby(
        8453,
        7,
        "0xarena".to_string(),
        "0xhost".to_string(),
        "0".to_string(),
        10,
        "alice".to_string(),
        "lobby5".to_string(),
        HOST,
        1_000,
    );
    for i in 0..9u64 {
        join_lobby(
            &mut room,
            100 + i,
            2_000 + i,
            format!("0xp{}", i),
            format!("p{}", i),
        )
        .expect("lobby has space");
    }
    let colors: Vec<u8> = room.players.iter().map(|p| p.color).collect();
    assert_eq!(colors[..8], [0, 1, 2, 3, 4, 5, 6, 7]);
    // all eight palette entries are taken: the ninth joiner falls back
    assert_eq!(colors[8], 0);
    assert_eq!(colors[9], 0);
}

#[test]
fn roster_stays_sorted_by_join_time() {
    let mut room = create_lobby(
        8453,
        7,
        "0xarena".to_string(),
        "0xhost".to_string(),
        "0".to_string(),
        3,
        "alice".to_string(),
        "lobby6".to_string(),
        HOST,
        1_000,
    );
    // a joiner whose timestamp precedes the host's sorts ahead of the host
    join_lobby(&mut room, GUEST, 500, "0xb".to_string(), "bob".to_string()).unwrap();
    assert_eq!(room.players[0].identity, GUEST);
    assert_eq!(room.players[1].identity, HOST);
    let times: Vec<u64> = room.players.iter().map(|p| p.joined_at).collect();
    assert!(times.windows(2).all(|w| w[0] <= w[1]));
}

#[test]
fn first_round_exemption_counts_the_whole_roster() {
    // three players; bob forfeits in the first round, and alice's second
    // move captures carol's only orb while fewer moves than roster players
    // have been made: the sweep is still exempt, so carol survives
    let mut room = create_lobby(
        8453,
        7,
        "0xarena".to_string(),
        "0xa".to_string(),
        "0".to_string(),
        3,
        "alice".to_string(),
        "lobby7".to_string(),
        HOST,
        1_000,
    );
    join_lobby(&mut room, GUEST, 2_000, "0xb".to_string(), "bob".to_string()).unwrap();
    join_lobby(&mut room, 33, 2_500, "0xc".to_string(), "carol".to_string()).unwrap();
    confirm_deposit(&mut room, "0xb".to_string()).unwrap();
    confirm_deposit(&mut room, "0xc".to_string()).unwrap();
    start_game(&mut room, HOST, 3_000).unwrap();
    make_move(&mut room, HOST, 4_000, 0, 0).expect("alice takes the corner");
    let deadline = room.state.turn_deadline;
    claim_timeout(&mut room, deadline).expect("bob forfeits");
    make_move(&mut room, 33, deadline + 1, 0, 1).expect("carol plays beside the corner");
    // two moves made, three players in the roster: still the first round
    make_move(&mut room, HOST, deadline + 2, 0, 0).expect("alice explodes the corner");
    assert_eq!(room.state.board.cells[1].owner, Some(0));
    assert!(room.players[2].is_alive);
    assert_eq!(room.lobby.status, Status::Live);
}

