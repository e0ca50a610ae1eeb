//! Turn/match state machine: lobby lifecycle, roster, moves, timeouts.
//!
//! A `LobbyRoom` aggregates everything the host stores for one match: the
//! lobby record, the roster ordered by join time, the match state, and the
//! append-only move log. Every action validates its preconditions first and
//! either applies the full transition or returns an error leaving the room
//! untouched, mirroring an all-or-nothing transaction.

use vstd::prelude::*;

use crate::board::Board;
use crate::board::BoardM;
use crate::board::CellM;
use crate::board::color_orbs;
use crate::board::create_empty_board;
use crate::board::get_board_size;
use crate::board::lemma_orbs_from_zero;
use crate::board::spec_board_size;
use crate::board::total_orbs;
use crate::board::PALETTE_SIZE;

verus! {

/// Length of one turn, in microseconds.
pub const TURN_MICROS: u64 = 30000000;

/// Lobby lifecycle status.
#[derive(Clone, Copy, Debug, PartialEq, Eq, Structural)]
pub enum Status {
    Waiting,
    Live,
    Finished,
    Cancelled,
}

/// Why an action was rejected; the whole call aborts with no state change.
#[derive(Clone, Copy, Debug, PartialEq, Eq, Structural)]
pub enum GameError {
    /// A referenced lobby, match, or player does not exist.
    NotFound,
    /// The action does not apply in the lobby's current status.
    InvalidState,
    /// The caller may not perform this action now.
    Unauthorized,
    /// The action collides with existing state: duplicate join, full lobby,
    /// contested cell, or an out-of-range position.
    Conflict,
    /// The action is too early, or blocked while an animation plays.
    Timing,
}

/// One player in a lobby.
pub struct LobbyPlayer {
    pub identity: u64,
    pub address: String,
    pub name: String,
    pub color: u8,
    pub is_host: bool,
    pub is_alive: bool,
    pub has_deposited: bool,
    pub joined_at: u64,
}

/// Mathematical model of a player record.
pub ghost struct PlayerV {
    pub identity: u64,
    pub address: Seq<char>,
    pub name: Seq<char>,
    pub color: u8,
    pub is_host: bool,
    pub is_alive: bool,
    pub has_deposited: bool,
    pub joined_at: u64,
}

impl View for LobbyPlayer {
    type V = PlayerV;

    open spec fn view(&self) -> PlayerV {
        PlayerV {
            identity: self.identity,
            address: self.address@,
            name: self.name@,
            color: self.color,
            is_host: self.is_host,
            is_alive: self.is_alive,
            has_deposited: self.has_deposited,
            joined_at: self.joined_at,
        }
    }
}

/// The lobby record: match metadata, status, and the winner once decided.
pub struct Lobby {
    pub id: String,
    pub chain_id: u32,
    pub match_id: u64,
    pub arena_address: String,
    pub host_identity: u64,
    pub host_address: String,
    pub entry_fee: String,
    pub max_players: u32,
    pub status: Status,
    pub winner_identity: Option<u64>,
    pub winner_address: Option<String>,
    pub created_at: u64,
    pub updated_at: u64,
}

/// Mathematical model of a lobby record.
pub ghost struct LobbyV {
    pub id: Seq<char>,
    pub chain_id: u32,
    pub match_id: u64,
    pub arena_address: Seq<char>,
    pub host_identity: u64,
    pub host_address: Seq<char>,
    pub entry_fee: Seq<char>,
    pub max_players: u32,
    pub status: Status,
    pub winner_identity: Option<u64>,
    pub winner_address: Option<Seq<char>>,
    pub created_at: u64,
    pub updated_at: u64,
}

impl View for Lobby {
    type V = LobbyV;

    open spec fn view(&self) -> LobbyV {
        LobbyV {
            id: self.id@,
            chain_id: self.chain_id,
            match_id: self.match_id,
            arena_address: self.arena_address@,
            host_identity: self.host_identity,
            host_address: self.host_address@,
            entry_fee: self.entry_fee@,
            max_players: self.max_players,
            status: self.status,
            winner_identity: self.winner_identity,
            winner_address: (match self.winner_address {
                Some(ref a) => Some(a@),
                None => None,
            }),
            created_at: self.created_at,
            updated_at: self.updated_at,
        }
    }
}

/// The per-lobby match state: board, whose turn, move counter, deadline.
pub struct GameState {
    pub board: Board,
    pub current_player_index: u32,
    pub is_animating: bool,
    pub move_count: u32,
    pub last_move_at: u64,
    pub turn_deadline: u64,
}

/// Mathematical model of the match state.
pub ghost struct StateV {
    pub board: BoardM,
    pub current_player_index: u32,
    pub is_animating: bool,
    pub move_count: u32,
    pub last_move_at: u64,
    pub turn_deadline: u64,
}

impl View for GameState {
    type V = StateV;

    open spec fn view(&self) -> StateV {
        StateV {
            board: self.board@,
            current_player_index: self.current_player_index,
            is_animating: self.is_animating,
            move_count: self.move_count,
            last_move_at: self.last_move_at,
            turn_deadline: self.turn_deadline,
        }
    }
}

/// One recorded move, keyed by its contiguous index.
#[derive(Clone, Copy, Debug)]
pub struct GameMove {
    pub move_index: u32,
    pub player_identity: u64,
    pub row: u32,
    pub col: u32,
    pub timestamp: u64,
}

/// Everything the host stores for one match.
pub struct LobbyRoom {
    pub lobby: Lobby,
    pub players: Vec<LobbyPlayer>,
    pub state: GameState,
    pub moves: Vec<GameMove>,
}

/// Mathematical model of a room.
pub ghost struct RoomV {
    pub lobby: LobbyV,
    pub players: Seq<PlayerV>,
    pub state: StateV,
    pub moves: Seq<GameMove>,
}

/// The models of a roster of player records.
pub open spec fn pviews(players: Seq<LobbyPlayer>) -> Seq<PlayerV> {
    players.map(|i: int, p: LobbyPlayer| p@)
}

impl View for LobbyRoom {
    type V = RoomV;

    open spec fn view(&self) -> RoomV {
        RoomV {
            lobby: self.lobby@,
            players: pviews(self.players@),
            state: self.state@,
            moves: self.moves@,
        }
    }
}

/// Number of alive players in `ps[i..]`.
pub open spec fn alive_count_from(ps: Seq<PlayerV>, i: int) -> int
    decreases ps.len() - i,
{
    if i < 0 || i >= ps.len() {
        0
    } else {
        (if ps[i].is_alive {
            1int
        } else {
            0int
        }) + alive_count_from(ps, i + 1)
    }
}

/// Number of alive players.
pub open spec fn alive_count(ps: Seq<PlayerV>) -> int {
    alive_count_from(ps, 0)
}

/// Index into `ps` of the `k`-th alive player at or after `i`; -1 if there
/// is none.
pub open spec fn nth_alive_from(ps: Seq<PlayerV>, k: int, i: int) -> int
    decreases ps.len() - i,
{
    if i < 0 || i >= ps.len() {
        -1
    } else if ps[i].is_alive {
        if k == 0 {
            i
        } else {
            nth_alive_from(ps, k - 1, i + 1)
        }
    } else {
        nth_alive_from(ps, k, i + 1)
    }
}

/// Index into `ps` of the `k`-th alive player. The roster is kept sorted by
/// join time, so this is the `k`-th alive player in join order.
pub open spec fn nth_alive(ps: Seq<PlayerV>, k: int) -> int {
    nth_alive_from(ps, k, 0)
}

/// The `k`-th alive position, for `k` below the alive count, is a real,
/// alive roster index.
pub proof fn lemma_nth_alive_props(ps: Seq<PlayerV>, k: int, i: int)
    requires
        0 <= i,
        0 <= k < alive_count_from(ps, i),
    ensures
        i <= nth_alive_from(ps, k, i) < ps.len(),
        ps[nth_alive_from(ps, k, i)].is_alive,
    decreases ps.len() - i,
{
    if ps[i].is_alive && k == 0 {
    } else if ps[i].is_alive {
        lemma_nth_alive_props(ps, k - 1, i + 1);
    } else {
        lemma_nth_alive_props(ps, k, i + 1);
    }
}

/// Distinct alive ordinals name distinct roster indices, in increasing
/// order: each ordinal below the alive count names exactly one alive player.
pub proof fn lemma_nth_alive_increasing(ps: Seq<PlayerV>, k1: int, k2: int, i: int)
    requires
        0 <= i,
        0 <= k1 < k2 < alive_count_from(ps, i),
    ensures
        nth_alive_from(ps, k1, i) < nth_alive_from(ps, k2, i),
    decreases ps.len() - i,
{
    lemma_nth_alive_props(ps, k1, i);
    lemma_nth_alive_props(ps, k2, i);
    if ps[i].is_alive && k1 == 0 {
        lemma_nth_alive_props(ps, k2 - 1, i + 1);
    } else if ps[i].is_alive {
        lemma_nth_alive_increasing(ps, k1 - 1, k2 - 1, i + 1);
    } else {
        lemma_nth_alive_increasing(ps, k1, k2, i + 1);
    }
}

impl RoomV {
    /// Internal consistency of a room: distinct player identities, palette
    /// colors, roster sorted by join time, a contiguous move log that counts
    /// the moves, a board that cannot hold more orbs than moves made, and a
    /// winner exactly when the match is finished.
    pub open spec fn wf(self) -> bool {
        &&& self.state.board.wf()
        &&& self.players.len() <= u32::MAX
        &&& (forall|i: int, j: int|
            0 <= i < j < self.players.len() ==> #[trigger] self.players[i].identity
                != #[trigger] self.players[j].identity)
        &&& (forall|i: int| 0 <= i < self.players.len() ==> #[trigger] self.players[i].color
            < PALETTE_SIZE)
        &&& (forall|i: int, j: int|
            0 <= i < j < self.players.len() ==> #[trigger] self.players[i].joined_at
                <= #[trigger] self.players[j].joined_at)
        &&& self.moves.len() == self.state.move_count
        &&& (forall|i: int| 0 <= i < self.moves.len() ==> #[trigger] self.moves[i].move_index
            == i)
        &&& total_orbs(self.state.board) <= self.state.move_count
        &&& (self.lobby.status == Status::Finished <==> self.lobby.winner_identity is Some)
        &&& (self.lobby.winner_identity is Some <==> self.lobby.winner_address is Some)
    }
}

/// The room a fresh lobby starts with: the host is its only player, already
/// alive and deposited, holding the first palette color; the board is empty
/// and sized from the declared player cap; nothing has moved yet.
pub open spec fn spec_create_lobby(
    chain_id: u32,
    match_id: u64,
    arena_address: Seq<char>,
    host_address: Seq<char>,
    entry_fee: Seq<char>,
    max_players: u32,
    host_name: Seq<char>,
    lobby_id: Seq<char>,
    host_identity: u64,
    now: u64,
) -> RoomV {
    let dims = spec_board_size(max_players as int);
    RoomV {
        lobby: LobbyV {
            id: lobby_id,
            chain_id: chain_id,
            match_id: match_id,
            arena_address: arena_address,
            host_identity: host_identity,
            host_address: host_address,
            entry_fee: entry_fee,
            max_players: max_players,
            status: Status::Waiting,
            winner_identity: None,
            winner_address: None,
            created_at: now,
            updated_at: now,
        },
        players: seq![
            PlayerV {
                identity: host_identity,
                address: host_address,
                name: host_name,
                color: 0,
                is_host: true,
                is_alive: true,
                has_deposited: true,
                joined_at: now,
            }
        ],
        state: StateV {
            board: BoardM {
                rows: dims.0,
                cols: dims.1,
                cells: Seq::new((dims.0 * dims.1) as nat, |i: int| CellM { orbs: 0, owner: None }),
            },
            current_player_index: 0,
            is_animating: false,
            move_count: 0,
            last_move_at: now,
            turn_deadline: now,
        },
        moves: Seq::empty(),
    }
}

/// Create a lobby: the caller becomes host and first player; the board is
/// created empty, sized by `max_players`; the turn deadline stays at `now`
/// until the game starts.
pub fn create_lobby(
    chain_id: u32,
    match_id: u64,
    arena_address: String,
    host_address: String,
    entry_fee: String,
    max_players: u32,
    host_name: String,
    lobby_id: String,
    host_identity: u64,
    now: u64,
) -> (room: LobbyRoom)
    ensures
        room@ == spec_create_lobby(
            chain_id,
            match_id,
            arena_address@,
            host_address@,
            entry_fee@,
            max_players,
            host_name@,
            lobby_id@,
            host_identity,
            now,
        ),
        room@.wf(),
{
    let (rows, cols) = get_board_size(max_players);
    let board = create_empty_board(rows, cols);
    let host_addr_copy = host_address.clone();
    let host = LobbyPlayer {
        identity: host_identity,
        address: host_addr_copy,
        name: host_name,
        color: 0,
        is_host: true,
        is_alive: true,
        has_deposited: true,
        joined_at: now,
    };
    let lobby = Lobby {
        id: lobby_id,
        chain_id,
        match_id,
        arena_address,
        host_identity,
        host_address,
        entry_fee,
        max_players,
        status: Status::Waiting,
        winner_identity: None,
        winner_address: None,
        created_at: now,
        updated_at: now,
    };
    let state = GameState {
        board,
        current_player_index: 0,
        is_animating: false,
        move_count: 0,
        last_move_at: now,
        turn_deadline: now,
    };
    let mut players: Vec<LobbyPlayer> = Vec::new();
    players.push(host);
    let room = LobbyRoom { lobby, players, state, moves: Vec::new() };
    proof {
        let sv = spec_create_lobby(
            chain_id,
            match_id,
            arena_address@,
            host_address@,
            entry_fee@,
            max_players,
            host_name@,
            lobby_id@,
            host_identity,
            now,
        );
        assert(room@.players =~= sv.players);
        assert(room@.moves =~= sv.moves);
        assert(room@.state.board.cells =~= sv.state.board.cells);
        assert(room@.state.board == sv.state.board);
        lemma_orbs_from_zero(room@.state.board.cells, 0);
    }
    room
}

/// What `str::to_lowercase` returns for the given characters; the result is
/// a function of the input alone.
pub uninterp spec fn lower_of(s: Seq<char>) -> Seq<char>;

/// Relies on str::to_lowercase: the lowercased text depends only on the
/// input characters.
#[verifier::external_body]
fn lowercase(s: &String) -> (r: String)
    ensures
        r@ == lower_of(s@),
{
    s.as_str().to_lowercase()
}

/// Index of the first player at or after `i` with the given identity; -1 if
/// there is none.
pub open spec fn find_identity_from(ps: Seq<PlayerV>, identity: u64, i: int) -> int
    decreases ps.len() - i,
{
    if i < 0 || i >= ps.len() {
        -1
    } else if ps[i].identity == identity {
        i
    } else {
        find_identity_from(ps, identity, i + 1)
    }
}

/// Index of the first player at or after `i` whose lowercased address is
/// `target`; -1 if there is none.
pub open spec fn find_lower_addr_from(ps: Seq<PlayerV>, target: Seq<char>, i: int) -> int
    decreases ps.len() - i,
{
    if i < 0 || i >= ps.len() {
        -1
    } else if lower_of(ps[i].address) == target {
        i
    } else {
        find_lower_addr_from(ps, target, i + 1)
    }
}

/// A found index is in range and matches; everything before it does not.
pub proof fn lemma_find_identity_props(ps: Seq<PlayerV>, identity: u64, i: int)
    requires
        0 <= i,
    ensures
        find_identity_from(ps, identity, i) >= 0 ==> i <= find_identity_from(ps, identity, i)
            < ps.len() && ps[find_identity_from(ps, identity, i)].identity == identity,
        find_identity_from(ps, identity, i) < 0 ==> (forall|j: int|
            i <= j < ps.len() ==> #[trigger] ps[j].identity != identity),
    decreases ps.len() - i,
{
    if i < ps.len() && ps[i].identity != identity {
        lemma_find_identity_props(ps, identity, i + 1);
    }
}

/// Find the roster index of a player by identity.
#[verifier::loop_isolation(false)]
fn find_identity_exec(players: &Vec<LobbyPlayer>, identity: u64) -> (r: Option<usize>)
    ensures
        (match r {
            Some(i) => find_identity_from(pviews(players@), identity, 0) == i,
            None => find_identity_from(pviews(players@), identity, 0) == -1,
        }),
{
    let ghost ps = pviews(players@);
    let n = players.len();
    let mut i: usize = 0;
    while i < n
        invariant
            i <= n,
            find_identity_from(ps, identity, 0) == find_identity_from(ps, identity, i as int),
        decreases n - i,
    {
        if players[i].identity == identity {
            return Some(i);
        }
        i = i + 1;
    }
    None
}

/// Whether some player already holds palette color `c`.
pub open spec fn color_used(ps: Seq<PlayerV>, c: int) -> bool {
    exists|i: int| 0 <= i < ps.len() && #[trigger] ps[i].color == c
}

/// The first palette color, scanning from `c`, that no player holds; the
/// first palette entry when every color is taken.
pub open spec fn first_free_from(ps: Seq<PlayerV>, c: int) -> int
    decreases PALETTE_SIZE - c,
{
    if c < 0 || c >= PALETTE_SIZE {
        0
    } else if color_used(ps, c) {
        first_free_from(ps, c + 1)
    } else {
        c
    }
}

/// The color a joining player is assigned: the first unused palette entry,
/// falling back to the first entry when all are taken.
pub open spec fn first_free_color(ps: Seq<PlayerV>) -> int {
    first_free_from(ps, 0)
}

/// The assigned color is a palette index.
pub proof fn lemma_first_free_in_palette(ps: Seq<PlayerV>, c: int)
    ensures
        0 <= first_free_from(ps, c) < PALETTE_SIZE,
    decreases PALETTE_SIZE - c,
{
    if 0 <= c < PALETTE_SIZE && color_used(ps, c) {
        lemma_first_free_in_palette(ps, c + 1);
    }
}

/// Whether some player holds color `c`.
#[verifier::loop_isolation(false)]
fn color_used_exec(players: &Vec<LobbyPlayer>, c: u8) -> (r: bool)
    ensures
        r == color_used(pviews(players@), c as int),
{
    let ghost ps = pviews(players@);
    let n = players.len();
    let mut i: usize = 0;
    while i < n
        invariant
            i <= n,
            forall|j: int| 0 <= j < i ==> #[trigger] ps[j].color != c,
        decreases n - i,
    {
        if players[i].color == c {
            proof {
                assert(ps[i as int].color == c);
            }
            return true;
        }
        i = i + 1;
    }
    false
}

/// Assign the first unused palette color.
#[verifier::loop_isolation(false)]
fn pick_color(players: &Vec<LobbyPlayer>) -> (r: u8)
    ensures
        r as int == first_free_color(pviews(players@)),
        r < PALETTE_SIZE,
{
    let ghost ps = pviews(players@);
    proof {
        lemma_first_free_in_palette(ps, 0);
    }
    let mut c: u8 = 0;
    while c < PALETTE_SIZE
        invariant
            c <= PALETTE_SIZE,
            first_free_from(ps, 0) == first_free_from(ps, c as int),
        decreases PALETTE_SIZE - c,
    {
        if !color_used_exec(players, c) {
            return c;
        }
        c = c + 1;
    }
    0
}

/// Where a player joining at `now` is inserted: after every player who
/// joined at or before `now`, so the roster stays sorted by join time.
pub open spec fn insert_pos_from(ps: Seq<PlayerV>, now: u64, i: int) -> int
    decreases ps.len() - i,
{
    if i < 0 || i >= ps.len() {
        ps.len() as int
    } else if ps[i].joined_at <= now {
        insert_pos_from(ps, now, i + 1)
    } else {
        i
    }
}

pub open spec fn insert_pos(ps: Seq<PlayerV>, now: u64) -> int {
    insert_pos_from(ps, now, 0)
}

/// The insert position splits the roster into joins at or before `now` and
/// joins after it.
pub proof fn lemma_insert_pos_props(ps: Seq<PlayerV>, now: u64, i: int)
    requires
        0 <= i <= ps.len(),
    ensures
        i <= insert_pos_from(ps, now, i) <= ps.len(),
        forall|j: int|
            i <= j < insert_pos_from(ps, now, i) ==> #[trigger] ps[j].joined_at <= now,
        insert_pos_from(ps, now, i) < ps.len() ==> ps[insert_pos_from(ps, now, i)].joined_at
            > now,
    decreases ps.len() - i,
{
    if i < ps.len() && ps[i].joined_at <= now {
        lemma_insert_pos_props(ps, now, i + 1);
    }
}

/// Why a join is rejected: the lobby is no longer waiting, the caller has
/// already joined, or the lobby is full.
pub open spec fn join_err(v: RoomV, sender: u64) -> Option<GameError> {
    if v.lobby.status != Status::Waiting {
        Some(GameError::InvalidState)
    } else if find_identity_from(v.players, sender, 0) >= 0 {
        Some(GameError::Conflict)
    } else if v.players.len() >= v.lobby.max_players {
        Some(GameError::Conflict)
    } else {
        None
    }
}

/// The record a join inserts.
pub open spec fn joined_player(
    v: RoomV,
    sender: u64,
    now: u64,
    address: Seq<char>,
    name: Seq<char>,
) -> PlayerV {
    PlayerV {
        identity: sender,
        address: address,
        name: name,
        color: first_free_color(v.players) as u8,
        is_host: false,
        is_alive: true,
        has_deposited: false,
        joined_at: now,
    }
}

/// The room after a successful join: the new player sits at the position
/// that keeps the roster sorted by join time, and the lobby's update stamp
/// moves to `now`.
pub open spec fn spec_join(
    v: RoomV,
    sender: u64,
    now: u64,
    address: Seq<char>,
    name: Seq<char>,
) -> RoomV {
    RoomV {
        lobby: LobbyV { updated_at: now, ..v.lobby },
        players: v.players.insert(insert_pos(v.players, now), joined_player(v, sender, now, address, name)),
        ..v
    }
}

/// Join a waiting lobby. Rejected with `InvalidState` when the lobby is not
/// waiting, and with `Conflict` on a duplicate join or a full lobby; errors
/// leave the room unchanged.
#[verifier::loop_isolation(false)]
pub fn join_lobby(
    room: &mut LobbyRoom,
    sender: u64,
    now: u64,
    player_address: String,
    player_name: String,
) -> (r: Result<(), GameError>)
    requires
        old(room)@.wf(),
    ensures
        final(room)@.wf(),
        (match r {
            Err(e) => final(room)@ == old(room)@ && join_err(old(room)@, sender) == Some(e),
            Ok(()) => join_err(old(room)@, sender) is None && final(room)@ == spec_join(
                old(room)@,
                sender,
                now,
                player_address@,
                player_name@,
            ),
        }),
{
    let ghost v0 = room@;
    if room.lobby.status != Status::Waiting {
        return Err(GameError::InvalidState);
    }
    proof {
        lemma_find_identity_props(v0.players, sender, 0);
    }
    if find_identity_exec(&room.players, sender).is_some() {
        return Err(GameError::Conflict);
    }
    if room.players.len() >= room.lobby.max_players as usize {
        return Err(GameError::Conflict);
    }
    let color = pick_color(&room.players);
    let newp = LobbyPlayer {
        identity: sender,
        address: player_address,
        name: player_name,
        color: color,
        is_host: false,
        is_alive: true,
        has_deposited: false,
        joined_at: now,
    };
    let n = room.players.len();
    let mut i: usize = 0;
    while i < n && room.players[i].joined_at <= now
        invariant
            i <= n,
            insert_pos(v0.players, now) == insert_pos_from(v0.players, now, i as int),
            room@ == v0,
        decreases n - i,
    {
        i = i + 1;
    }
    proof {
        assert(insert_pos(v0.players, now) == i as int);
        lemma_insert_pos_props(v0.players, now, 0);
    }
    room.players.insert(i, newp);
    room.lobby.updated_at = now;
    proof {
        let sv = spec_join(v0, sender, now, player_address@, player_name@);
        assert(room@.players =~= sv.players);
        assert(room@ == sv);
        lemma_first_free_in_palette(v0.players, 0);
        lemma_find_identity_props(v0.players, sender, 0);
        assert(room@.wf()) by {
            let ps = room@.players;
            let pos = insert_pos(v0.players, now);
            assert(forall|j: int| 0 <= j < pos ==> ps[j] == v0.players[j]);
            assert(ps[pos] == joined_player(v0, sender, now, player_address@, player_name@));
            assert(forall|j: int| pos < j < ps.len() ==> ps[j] == v0.players[j - 1]);
            assert forall|a: int, b: int| 0 <= a < b < ps.len() implies #[trigger] ps[a].joined_at
                <= #[trigger] ps[b].joined_at by {}
            assert forall|a: int, b: int| 0 <= a < b < ps.len() implies #[trigger] ps[a].identity
                != #[trigger] ps[b].identity by {}
        }
    }
    Ok(())
}

/// Why a deposit confirmation is rejected: no player in the lobby has the
/// given wallet address, compared case-insensitively.
pub open spec fn confirm_err(v: RoomV, address: Seq<char>) -> Option<GameError> {
    if find_lower_addr_from(v.players, lower_of(address), 0) < 0 {
        Some(GameError::NotFound)
    } else {
        None
    }
}

/// The room after a successful deposit confirmation: the first player whose
/// lowercased address matches is marked as deposited.
pub open spec fn spec_confirm(v: RoomV, address: Seq<char>) -> RoomV {
    let i = find_lower_addr_from(v.players, lower_of(address), 0);
    RoomV {
        players: v.players.update(i, PlayerV { has_deposited: true, ..v.players[i] }),
        ..v
    }
}

/// Mark the player with the given wallet address, matched
/// case-insensitively, as having deposited. Rejected with `NotFound` when no
/// player matches; an error leaves the room unchanged.
#[verifier::loop_isolation(false)]
pub fn confirm_deposit(room: &mut LobbyRoom, player_address: String) -> (r: Result<
    (),
    GameError,
>)
    requires
        old(room)@.wf(),
    ensures
        final(room)@.wf(),
        (match r {
            Err(e) => final(room)@ == old(room)@ && confirm_err(old(room)@, player_address@)
                == Some(e),
            Ok(()) => confirm_err(old(room)@, player_address@) is None && final(room)@
                == spec_confirm(old(room)@, player_address@),
        }),
{
    let ghost v0 = room@;
    let ghost target = lower_of(player_address@);
    let low = lowercase(&player_address);
    let n = room.players.len();
    let mut i: usize = 0;
    while i < n
        invariant
            i <= n,
            room@ == v0,
            low@ == target,
            find_lower_addr_from(v0.players, target, 0) == find_lower_addr_from(
                v0.players,
                target,
                i as int,
            ),
        decreases n - i,
    {
        let pl = lowercase(&room.players[i].address);
        if pl == low {
            room.players[i].has_deposited = true;
            proof {
                let sv = spec_confirm(v0, player_address@);
                assert(room@.players =~= sv.players);
                assert(room@ == sv);
                assert(room@.wf()) by {
                    let ps = room@.players;
                    assert(forall|j: int|
                        0 <= j < ps.len() && j != i as int ==> ps[j] == v0.players[j]);
                }
            }
            return Ok(());
        }
        i = i + 1;
    }
    Err(GameError::NotFound)
}

/// Why starting the game is rejected: the caller is not the host, the lobby
/// already started, fewer than two players joined, or someone has not
/// deposited.
pub open spec fn start_err(v: RoomV, sender: u64) -> Option<GameError> {
    if v.lobby.host_identity != sender {
        Some(GameError::Unauthorized)
    } else if v.lobby.status != Status::Waiting {
        Some(GameError::InvalidState)
    } else if v.players.len() < 2 {
        Some(GameError::InvalidState)
    } else if exists|i: int| 0 <= i < v.players.len() && !(#[trigger] v.players[i].has_deposited) {
        Some(GameError::InvalidState)
    } else {
        None
    }
}

/// The room after the game starts: the lobby goes live and the first turn's
/// deadline is one turn length after `now`. The board does not change.
pub open spec fn spec_start(v: RoomV, now: u64) -> RoomV {
    RoomV {
        lobby: LobbyV { status: Status::Live, updated_at: now, ..v.lobby },
        state: StateV { turn_deadline: (now + TURN_MICROS) as u64, ..v.state },
        ..v
    }
}

/// Start the game. Only the host may start it, only from `Waiting`, only
/// with at least two players, all of whom have deposited; errors leave the
/// room unchanged.
#[verifier::loop_isolation(false)]
pub fn start_game(room: &mut LobbyRoom, sender: u64, now: u64) -> (r: Result<(), GameError>)
    requires
        old(room)@.wf(),
        now <= u64::MAX - TURN_MICROS,
    ensures
        final(room)@.wf(),
        (match r {
            Err(e) => final(room)@ == old(room)@ && start_err(old(room)@, sender) == Some(e),
            Ok(()) => start_err(old(room)@, sender) is None && final(room)@ == spec_start(
                old(room)@,
                now,
            ),
        }),
{
    let ghost v0 = room@;
    if room.lobby.host_identity != sender {
        return Err(GameError::Unauthorized);
    }
    if room.lobby.status != Status::Waiting {
        return Err(GameError::InvalidState);
    }
    if room.players.len() < 2 {
        return Err(GameError::InvalidState);
    }
    let n = room.players.len();
    let mut i: usize = 0;
    while i < n
        invariant
            i <= n,
            room@ == v0,
            forall|j: int| 0 <= j < i ==> #[trigger] v0.players[j].has_deposited,
        decreases n - i,
    {
        if !room.players[i].has_deposited {
            proof {
                assert(!v0.players[i as int].has_deposited);
            }
            return Err(GameError::InvalidState);
        }
        i = i + 1;
    }
    room.lobby.status = Status::Live;
    room.lobby.updated_at = now;
    room.state.turn_deadline = now + TURN_MICROS;
    proof {
        assert(room@ == spec_start(v0, now));
    }
    Ok(())
}

/// Why leaving is rejected: the game already started, or the caller never
/// joined this lobby.
pub open spec fn leave_err(v: RoomV, sender: u64) -> Option<GameError> {
    if v.lobby.status != Status::Waiting {
        Some(GameError::InvalidState)
    } else if find_identity_from(v.players, sender, 0) < 0 {
        Some(GameError::NotFound)
    } else {
        None
    }
}

/// The room after a leave: if the host left, the lobby is cancelled and the
/// roster emptied; otherwise only the leaving player's record is removed.
pub open spec fn spec_leave(v: RoomV, sender: u64, now: u64) -> RoomV {
    let i = find_identity_from(v.players, sender, 0);
    if v.players[i].is_host {
        RoomV {
            lobby: LobbyV { status: Status::Cancelled, updated_at: now, ..v.lobby },
            players: Seq::empty(),
            ..v
        }
    } else {
        RoomV {
            lobby: LobbyV { updated_at: now, ..v.lobby },
            players: v.players.remove(i),
            ..v
        }
    }
}

/// Leave a waiting lobby. When the host leaves, the lobby is cancelled and
/// every player removed; otherwise the caller's record alone is removed.
/// Rejected with `InvalidState` once the game has started and `NotFound`
/// when the caller is not in the lobby; errors leave the room unchanged.
pub fn leave_lobby(room: &mut LobbyRoom, sender: u64, now: u64) -> (r: Result<(), GameError>)
    requires
        old(room)@.wf(),
    ensures
        final(room)@.wf(),
        (match r {
            Err(e) => final(room)@ == old(room)@ && leave_err(old(room)@, sender) == Some(e),
            Ok(()) => leave_err(old(room)@, sender) is None && final(room)@ == spec_leave(
                old(room)@,
                sender,
                now,
            ),
        }),
{
    let ghost v0 = room@;
    if room.lobby.status != Status::Waiting {
        return Err(GameError::InvalidState);
    }
    proof {
        lemma_find_identity_props(v0.players, sender, 0);
    }
    let found = find_identity_exec(&room.players, sender);
    match found {
        None => Err(GameError::NotFound),
        Some(i) => {
            if room.players[i].is_host {
                room.lobby.status = Status::Cancelled;
                room.lobby.updated_at = now;
                room.players.clear();
                proof {
                    let sv = spec_leave(v0, sender, now);
                    assert(room@.players =~= sv.players);
                    assert(room@ == sv);
                }
            } else {
                room.players.remove(i);
                room.lobby.updated_at = now;
                proof {
                    let sv = spec_leave(v0, sender, now);
                    assert(room@.players =~= sv.players);
                    assert(room@ == sv);
                    assert(room@.wf()) by {
                        let ps = room@.players;
                        assert(forall|j: int| 0 <= j < i ==> ps[j] == v0.players[j]);
                        assert(forall|j: int|
                            i <= j < ps.len() ==> ps[j] == v0.players[j + 1]);
                    }
                }
            }
            Ok(())
        },
    }
}

/// An alive count is nonnegative and no larger than the roster.
pub proof fn lemma_alive_count_nonneg(ps: Seq<PlayerV>, i: int)
    ensures
        0 <= alive_count_from(ps, i) <= ps.len(),
        0 <= i <= ps.len() ==> alive_count_from(ps, i) <= ps.len() - i,
    decreases ps.len() - i,
{
    if 0 <= i < ps.len() {
        lemma_alive_count_nonneg(ps, i + 1);
    } else if i < 0 {
        lemma_alive_count_nonneg(ps, 0);
    }
}

/// Number of alive players in the roster.
#[verifier::loop_isolation(false)]
fn count_alive(players: &Vec<LobbyPlayer>) -> (r: usize)
    ensures
        r == alive_count(pviews(players@)),
{
    let ghost ps = pviews(players@);
    let n = players.len();
    let mut acc: usize = 0;
    let mut i: usize = 0;
    while i < n
        invariant
            i <= n,
            acc <= i,
            acc + alive_count_from(ps, i as int) == alive_count(ps),
        decreases n - i,
    {
        if players[i].is_alive {
            acc = acc + 1;
        }
        i = i + 1;
    }
    acc
}

/// Roster index of the `k`-th alive player.
#[verifier::loop_isolation(false)]
fn nth_alive_exec(players: &Vec<LobbyPlayer>, k: usize) -> (r: usize)
    requires
        k < alive_count(pviews(players@)),
    ensures
        r == nth_alive(pviews(players@), k as int),
        r < players.len(),
        pviews(players@)[r as int].is_alive,
{
    let ghost ps = pviews(players@);
    proof {
        lemma_nth_alive_props(ps, k as int, 0);
    }
    let n = players.len();
    let mut kk: usize = k;
    let mut i: usize = 0;
    while i < n
        invariant
            i <= n,
            kk <= k,
            kk < alive_count_from(ps, i as int),
            nth_alive(ps, k as int) == nth_alive_from(ps, kk as int, i as int),
        decreases n - i,
    {
        if players[i].is_alive {
            if kk == 0 {
                proof {
                    lemma_nth_alive_props(ps, k as int, 0);
                }
                return i;
            }
            kk = kk - 1;
        }
        i = i + 1;
    }
    proof {
        assert(false);
    }
    0
}

/// The roster index whose turn it is: the alive ordinal named by the stored
/// index, taken modulo the current alive count.
pub open spec fn turn_idx(v: RoomV) -> int {
    nth_alive(v.players, v.state.current_player_index as int % alive_count(v.players))
}

/// The stored index, taken modulo the alive count, names exactly one alive
/// player: a real roster index, alive, and named by no other alive ordinal.
pub proof fn lemma_turn_names_one_alive(ps: Seq<PlayerV>, idx: u32)
    requires
        alive_count(ps) > 0,
    ensures
        0 <= idx as int % alive_count(ps) < alive_count(ps),
        0 <= nth_alive(ps, idx as int % alive_count(ps)) < ps.len(),
        ps[nth_alive(ps, idx as int % alive_count(ps))].is_alive,
        forall|k2: int|
            0 <= k2 < alive_count(ps) && k2 != idx as int % alive_count(ps) ==> #[trigger]
            nth_alive(ps, k2) != nth_alive(ps, idx as int % alive_count(ps)),
{
    let cnt = alive_count(ps);
    let k = idx as int % cnt;
    lemma_nth_alive_props(ps, k, 0);
    assert forall|k2: int| 0 <= k2 < cnt && k2 != k implies nth_alive(ps, k2) != nth_alive(
        ps,
        k,
    ) by {
        if k2 < k {
            lemma_nth_alive_increasing(ps, k2, k, 0);
        } else {
            lemma_nth_alive_increasing(ps, k, k2, 0);
        }
    }
}

/// One player after the elimination sweep against board `b`: an alive player
/// holding no orbs is eliminated; everyone else is unchanged.
pub open spec fn elim_one(p: PlayerV, b: BoardM) -> PlayerV {
    if p.is_alive && color_orbs(b, p.color as int) == 0 {
        PlayerV { is_alive: false, ..p }
    } else {
        p
    }
}

/// The roster after the elimination sweep against board `b`.
pub open spec fn eliminate(ps: Seq<PlayerV>, b: BoardM) -> Seq<PlayerV> {
    Seq::new(ps.len(), |i: int| elim_one(ps[i], b))
}

/// No player ever returns from elimination: same roster length, and whoever
/// was not alive before is not alive after.
pub open spec fn no_revival(a: Seq<PlayerV>, b: Seq<PlayerV>) -> bool {
    &&& a.len() == b.len()
    &&& forall|i: int| 0 <= i < a.len() && !a[i].is_alive ==> !(#[trigger] b[i].is_alive)
}

/// Why a move is rejected, in the order the checks run: the game is not
/// live; an animation is playing; no player is alive; it is not the
/// caller's turn; the position is out of range; the cell is owned by a rival
/// color.
pub open spec fn move_err(v: RoomV, sender: u64, row: u32, col: u32) -> Option<GameError> {
    if v.lobby.status != Status::Live {
        Some(GameError::InvalidState)
    } else if v.state.is_animating {
        Some(GameError::Timing)
    } else if alive_count(v.players) == 0 {
        Some(GameError::NotFound)
    } else if v.players[turn_idx(v)].identity != sender {
        Some(GameError::Unauthorized)
    } else if !v.state.board.in_bounds(row as int, col as int) {
        Some(GameError::Conflict)
    } else if v.state.board.at(row as int, col as int).owner matches Some(k)
        && k != v.players[turn_idx(v)].color as int {
        Some(GameError::Conflict)
    } else {
        None
    }
}

/// The room after a successful move whose cascade settled on board `nb`:
/// the sweep eliminates orbless players once as many moves have been made as
/// the roster holds players, so the first full round is exempt;
/// if exactly one player remains alive on a non-empty board the lobby
/// finishes with that winner; the move is appended at the next contiguous
/// index; the turn advances by one alive ordinal and the deadline resets.
pub open spec fn spec_after_move(
    v: RoomV,
    nb: BoardM,
    sender: u64,
    now: u64,
    row: u32,
    col: u32,
) -> RoomV {
    let ps1 = if v.state.move_count as int >= v.players.len() {
        eliminate(v.players, nb)
    } else {
        v.players
    };
    let cnt1 = alive_count(ps1);
    let lobby1 = if cnt1 == 1 && total_orbs(nb) > 0 {
        LobbyV {
            status: Status::Finished,
            winner_identity: Some(ps1[nth_alive(ps1, 0)].identity),
            winner_address: Some(ps1[nth_alive(ps1, 0)].address),
            updated_at: now,
            ..v.lobby
        }
    } else {
        v.lobby
    };
    let idx1 = if cnt1 > 0 {
        ((v.state.current_player_index as int + 1) % cnt1) as u32
    } else {
        0u32
    };
    RoomV {
        lobby: lobby1,
        players: ps1,
        state: StateV {
            board: nb,
            current_player_index: idx1,
            move_count: (v.state.move_count + 1) as u32,
            last_move_at: now,
            turn_deadline: (now + TURN_MICROS) as u64,
            ..v.state
        },
        moves: v.moves.push(
            GameMove {
                move_index: v.state.move_count,
                player_identity: sender,
                row: row,
                col: col,
                timestamp: now,
            },
        ),
    }
}

/// Place an orb for the caller at `(row, col)` and resolve the cascade.
///
/// Rejected, leaving the room unchanged, exactly as `move_err` says; in
/// particular a caller other than the one alive player named by the stored
/// index modulo the alive count gets `Unauthorized`, and a finished lobby
/// rejects every move with `InvalidState`. A cascade that does not settle
/// within `PASS_LIMIT` passes is also rejected as `Conflict`. On success the
/// room becomes `spec_after_move` of the settled board: the total of orbs
/// grows by at most the one placed orb, no eliminated player returns, and a
/// winner, once recorded, never changes.
#[verifier::loop_isolation(false)]
pub fn make_move(room: &mut LobbyRoom, sender: u64, now: u64, row: u32, col: u32) -> (r:
    Result<(), GameError>)
    requires
        old(room)@.wf(),
        old(room)@.state.move_count < u32::MAX,
        now <= u64::MAX - TURN_MICROS,
    ensures
        final(room)@.wf(),
        no_revival(old(room)@.players, final(room)@.players),
        old(room)@.lobby.winner_identity is Some ==> final(room)@.lobby.winner_identity
            == old(room)@.lobby.winner_identity,
        old(room)@.lobby.status == Status::Finished ==> r == Err::<(), GameError>(
            GameError::InvalidState,
        ) && final(room)@ == old(room)@,
        (match r {
            Err(e) => final(room)@ == old(room)@ && (move_err(old(room)@, sender, row, col)
                == Some(e) || (move_err(old(room)@, sender, row, col) is None && e
                == GameError::Conflict && crate::engine::cascade(
                crate::engine::place(
                    old(room)@.state.board,
                    row as int,
                    col as int,
                    old(room)@.players[turn_idx(old(room)@)].color as int,
                ),
                crate::engine::PASS_LIMIT as nat,
            ) is None)),
            Ok(()) => {
                &&& move_err(old(room)@, sender, row, col) is None
                &&& (exists|nb: BoardM|
                    crate::engine::cascade(
                        crate::engine::place(
                            old(room)@.state.board,
                            row as int,
                            col as int,
                            old(room)@.players[turn_idx(old(room)@)].color as int,
                        ),
                        crate::engine::PASS_LIMIT as nat,
                    ) == Some(nb) && final(room)@ == spec_after_move(
                        old(room)@,
                        nb,
                        sender,
                        now,
                        row,
                        col,
                    ) && total_orbs(nb) <= total_orbs(old(room)@.state.board) + 1)
            },
        }),
{
    let ghost v0 = room@;
    if room.lobby.status != Status::Live {
        return Err(GameError::InvalidState);
    }
    if room.state.is_animating {
        return Err(GameError::Timing);
    }
    let cnt = count_alive(&room.players);
    if cnt == 0 {
        return Err(GameError::NotFound);
    }
    proof {
        lemma_alive_count_nonneg(v0.players, 0);
        lemma_turn_names_one_alive(v0.players, v0.state.current_player_index);
    }
    let k = (room.state.current_player_index as u64 % cnt as u64) as usize;
    let ti = nth_alive_exec(&room.players, k);
    proof {
        assert(ti as int == turn_idx(v0));
    }
    if room.players[ti].identity != sender {
        return Err(GameError::Unauthorized);
    }
    let color = room.players[ti].color;
    if !((row as usize) < room.state.board.rows && (col as usize) < room.state.board.cols) {
        return Err(GameError::Conflict);
    }
    let cell = room.state.board.get(row as usize, col as usize);
    match cell.owner {
        Some(c2) => {
            if c2 != color {
                return Err(GameError::Conflict);
            }
        },
        None => {},
    }
    proof {
        crate::board::lemma_total_orbs_bound(v0.state.board.cells, 0);
        assert(total_orbs(v0.state.board) + 1 <= u32::MAX);
    }
    let resolved = crate::engine::resolve(&room.state.board, row, col, color);
    let newb = match resolved {
        None => {
            return Err(GameError::Conflict);
        },
        Some(b) => b,
    };
    let ghost nb = newb@;
    room.state.board = newb;
    let ghost ps0 = v0.players;
    if room.state.move_count as usize >= room.players.len() {
        let n = room.players.len();
        let mut newps: Vec<LobbyPlayer> = Vec::new();
        let mut i: usize = 0;
        while i < n
            invariant
                i <= n,
                n == room.players.len(),
                room@ == (RoomV { state: (StateV { board: nb, ..v0.state }), ..v0 }),
                newps@.len() == i,
                forall|j: int| 0 <= j < i ==> pviews(newps@)[j] == elim_one(ps0[j], nb),
            decreases n - i,
        {
            let alive = room.players[i].is_alive;
            let c = room.players[i].color;
            let keep_alive = if alive {
                let orbs = crate::board::count_color_orbs(&room.state.board, c);
                orbs != 0
            } else {
                false
            };
            let np = LobbyPlayer {
                identity: room.players[i].identity,
                address: room.players[i].address.clone(),
                name: room.players[i].name.clone(),
                color: c,
                is_host: room.players[i].is_host,
                is_alive: keep_alive,
                has_deposited: room.players[i].has_deposited,
                joined_at: room.players[i].joined_at,
            };
            let ghost prev = newps@;
            newps.push(np);
            proof {
                assert forall|j: int| 0 <= j < i + 1 implies pviews(newps@)[j] == elim_one(
                    ps0[j],
                    nb,
                ) by {
                    if j < i as int {
                        assert(pviews(prev)[j] == elim_one(ps0[j], nb));
                        assert(newps@[j] == prev[j]);
                        assert(pviews(newps@)[j] == newps@[j]@);
                        assert(pviews(prev)[j] == prev[j]@);
                    } else {
                        assert(pviews(newps@)[i as int] == elim_one(ps0[i as int], nb));
                    }
                }
            }
            i = i + 1;
        }
        room.players = newps;
        proof {
            assert(room@.players =~= eliminate(ps0, nb));
        }
    }
    let ghost ps1 = if v0.state.move_count as int >= v0.players.len() {
        eliminate(ps0, nb)
    } else {
        ps0
    };
    proof {
        assert(room@.players == ps1);
    }
    let cnt1 = count_alive(&room.players);
    let total = crate::board::count_total_orbs(&room.state.board);
    if cnt1 == 1 && total > 0 {
        proof {
            lemma_nth_alive_props(ps1, 0, 0);
        }
        let wi = nth_alive_exec(&room.players, 0);
        room.lobby.status = Status::Finished;
        room.lobby.winner_identity = Some(room.players[wi].identity);
        let waddr = room.players[wi].address.clone();
        room.lobby.winner_address = Some(waddr);
        room.lobby.updated_at = now;
    }
    room.moves.push(
        GameMove {
            move_index: room.state.move_count,
            player_identity: sender,
            row: row,
            col: col,
            timestamp: now,
        },
    );
    proof {
        lemma_alive_count_nonneg(ps1, 0);
    }
    let next_idx: u32 = if cnt1 > 0 {
        ((room.state.current_player_index as u64 + 1) % cnt1 as u64) as u32
    } else {
        0
    };
    room.state.current_player_index = next_idx;
    room.state.move_count = room.state.move_count + 1;
    room.state.last_move_at = now;
    room.state.turn_deadline = now + TURN_MICROS;
    proof {
        let sv = spec_after_move(v0, nb, sender, now, row, col);
        assert(room@.moves =~= sv.moves);
        assert(room@ == sv);
        assert(room@.wf()) by {
            let ps = room@.players;
            assert(forall|j: int|
                0 <= j < ps.len() ==> #[trigger] ps[j].identity == ps0[j].identity
                    && #[trigger] ps[j].color == ps0[j].color && #[trigger] ps[j].joined_at
                    == ps0[j].joined_at);
        }
    }
    Ok(())
}

/// Why a timeout claim is rejected, in the order the checks run: the game is
/// not live; the deadline has not passed; no player is alive.
pub open spec fn timeout_err(v: RoomV, now: u64) -> Option<GameError> {
    if v.lobby.status != Status::Live {
        Some(GameError::InvalidState)
    } else if now < v.state.turn_deadline {
        Some(GameError::Timing)
    } else if alive_count(v.players) == 0 {
        Some(GameError::NotFound)
    } else {
        None
    }
}

/// The room after a successful timeout claim: the player on turn is
/// eliminated. If exactly one player remains the lobby finishes with that
/// winner and the match state is left as it was; otherwise the stored index
/// is reduced modulo the new alive count — not advanced, because removing
/// the occupant shifts the players after it one ordinal left — and the
/// deadline resets.
pub open spec fn spec_timeout(v: RoomV, now: u64) -> RoomV {
    let ti = turn_idx(v);
    let ps1 = v.players.update(ti, PlayerV { is_alive: false, ..v.players[ti] });
    let cnt1 = alive_count(ps1);
    if cnt1 == 1 {
        timeout_finish(v, ps1, now)
    } else {
        RoomV {
            players: ps1,
            state: StateV {
                current_player_index: (if cnt1 > 0 {
                    ((v.state.current_player_index as int % cnt1) as u32)
                } else {
                    0u32
                }),
                turn_deadline: (now + TURN_MICROS) as u64,
                ..v.state
            },
            ..v
        }
    }
}

/// The finished-lobby outcome of a timeout claim.
pub open spec fn timeout_finish(v: RoomV, ps1: Seq<PlayerV>, now: u64) -> RoomV {
    RoomV {
        lobby: LobbyV {
            status: Status::Finished,
            winner_identity: Some(ps1[nth_alive(ps1, 0)].identity),
            winner_address: Some(ps1[nth_alive(ps1, 0)].address),
            updated_at: now,
            ..v.lobby
        },
        players: ps1,
        ..v
    }
}

/// Forfeit the turn of the player currently on turn, callable by anyone once
/// the deadline has passed.
///
/// Rejected, leaving the room unchanged, exactly as `timeout_err` says: in
/// particular a claim before `turn_deadline` gets `Timing`, and a finished
/// lobby rejects every claim with `InvalidState`. On success the room
/// becomes `spec_timeout`: the player on turn is eliminated and never
/// returns, and a winner, once recorded, never changes.
pub fn claim_timeout(room: &mut LobbyRoom, now: u64) -> (r: Result<(), GameError>)
    requires
        old(room)@.wf(),
        now <= u64::MAX - TURN_MICROS,
    ensures
        final(room)@.wf(),
        no_revival(old(room)@.players, final(room)@.players),
        old(room)@.lobby.winner_identity is Some ==> final(room)@.lobby.winner_identity
            == old(room)@.lobby.winner_identity,
        old(room)@.lobby.status == Status::Finished ==> r == Err::<(), GameError>(
            GameError::InvalidState,
        ) && final(room)@ == old(room)@,
        (match r {
            Err(e) => final(room)@ == old(room)@ && timeout_err(old(room)@, now) == Some(e),
            Ok(()) => timeout_err(old(room)@, now) is None && final(room)@ == spec_timeout(
                old(room)@,
                now,
            ),
        }),
{
    let ghost v0 = room@;
    if room.lobby.status != Status::Live {
        return Err(GameError::InvalidState);
    }
    if now < room.state.turn_deadline {
        return Err(GameError::Timing);
    }
    let cnt = count_alive(&room.players);
    if cnt == 0 {
        return Err(GameError::NotFound);
    }
    proof {
        lemma_alive_count_nonneg(v0.players, 0);
        lemma_turn_names_one_alive(v0.players, v0.state.current_player_index);
    }
    let k = (room.state.current_player_index as u64 % cnt as u64) as usize;
    let ti = nth_alive_exec(&room.players, k);
    proof {
        assert(ti as int == turn_idx(v0));
    }
    room.players[ti].is_alive = false;
    let ghost ps1 = v0.players.update(
        turn_idx(v0),
        PlayerV { is_alive: false, ..v0.players[turn_idx(v0)] },
    );
    proof {
        assert(room@.players =~= ps1);
    }
    let cnt1 = count_alive(&room.players);
    if cnt1 == 1 {
        proof {
            lemma_nth_alive_props(ps1, 0, 0);
        }
        let wi = nth_alive_exec(&room.players, 0);
        room.lobby.status = Status::Finished;
        room.lobby.winner_identity = Some(room.players[wi].identity);
        let waddr = room.players[wi].address.clone();
        room.lobby.winner_address = Some(waddr);
        room.lobby.updated_at = now;
        proof {
            assert(room@ == spec_timeout(v0, now));
            assert(room@.wf()) by {
                assert(forall|j: int|
                    0 <= j < ps1.len() && j != turn_idx(v0) ==> ps1[j] == v0.players[j]);
            }
        }
    } else {
        proof {
            lemma_alive_count_nonneg(ps1, 0);
        }
        let next_idx: u32 = if cnt1 > 0 {
            (room.state.current_player_index as u64 % cnt1 as u64) as u32
        } else {
            0
        };
        room.state.current_player_index = next_idx;
        room.state.turn_deadline = now + TURN_MICROS;
        proof {
            assert(room@ == spec_timeout(v0, now));
            assert(room@.wf()) by {
                assert(forall|j: int|
                    0 <= j < ps1.len() && j != turn_idx(v0) ==> ps1[j] == v0.players[j]);
            }
        }
    }
    Ok(())
}

} // verus!
