use samogonki::api::{handle_info, handle_packet, handle_seeds, PostReply, SeedsOutcome};
use samogonki::data::{Packet, PacketType, Player, PlayerTurnInfo, UrlProperty};
use samogonki::entity::game::GameType;
use samogonki::entity::{game, turn, user};
use samogonki::manager::{GameManager, GameManagerError, GameStatus, TurnWrite};

fn game_model(players_cnt: u32, owner_id: u32) -> game::Model {
    game::Model {
        id: 1,
        owner_id,
        world_id: 0,
        track_id: 0,
        rnd: 123,
        game_type: GameType::Winner,
        laps: 1,
        seeds: 10,
        duration: 100,
        is_express: true,
        players_cnt,
    }
}

fn turn_row(
    user_id: u32,
    player_number: u32,
    step_number: u32,
    user_seeds_cnt: u32,
    seeds: Option<&str>,
    is_received: bool,
    steam_id: i64,
    login: &str,
) -> (turn::Model, user::Model) {
    (
        turn::Model {
            id: 0,
            game_id: 1,
            user_id,
            player_number,
            step_number,
            is_finished: false,
            rank: 0,
            move_time: 0,
            move_steps: 0,
            bottles_cnt: 0,
            total_seeds_cnt: 0,
            arcanes_cnt: 0,
            destroys_cnt: 0,
            user_seeds_cnt,
            seeds: seeds.map(|s| s.to_owned()),
            prop_pers: 1,
            prop_car: 1,
            prop_fwheel: 1,
            prop_bwheel: 1,
            is_received,
        },
        user::Model {
            id: user_id,
            steam_id,
            login: Some(String::from(login)),
            is_blocked: user::UserBlocked::Nope,
        },
    )
}

#[test]
fn empty_open_game() {
    let manager = GameManager::new(game_model(3, 0), vec![]);
    assert_eq!(manager.status(), GameStatus::Open);
    assert_eq!(manager.move_cnt(), 0);
}

#[test]
fn open_game_with_2_players() {
    let manager = GameManager::new(
        game_model(3, 1),
        vec![
            turn_row(1, 0, 1, 0, None, false, 111, "login111"),
            turn_row(2, 1, 1, 0, None, false, 222, "login222"),
        ],
    );
    assert_eq!(manager.status(), GameStatus::Open);
    assert_eq!(manager.move_cnt(), 0);
}

#[test]
fn started_game_with_no_steps() {
    let manager = GameManager::new(
        game_model(3, 1),
        vec![
            turn_row(1, 0, 1, 0, None, false, 111, "login111"),
            turn_row(2, 1, 1, 0, None, false, 222, "login222"),
            turn_row(3, 2, 1, 0, None, false, 333, "login333"),
        ],
    );
    assert_eq!(manager.status(), GameStatus::Started);
    assert_eq!(manager.move_cnt(), 0);
}

#[test]
fn started_game_with_1_step_by_2nd_player() {
    let manager = GameManager::new(
        game_model(3, 1),
        vec![
            turn_row(1, 0, 1, 0, None, false, 111, "login111"),
            turn_row(2, 1, 1, 10, Some("seed"), false, 222, "login222"),
            turn_row(3, 2, 1, 0, None, false, 333, "login333"),
        ],
    );
    assert_eq!(manager.status(), GameStatus::Started);
    assert_eq!(manager.move_cnt(), 0);
}

#[test]
fn started_game_with_1_step_by_all_players_without_received() {
    let manager = GameManager::new(
        game_model(3, 1),
        vec![
            turn_row(1, 0, 1, 1, Some("seed1"), false, 111, "login111"),
            turn_row(2, 1, 1, 2, Some("seed2"), false, 222, "login222"),
            turn_row(3, 2, 1, 3, Some("seed3"), false, 333, "login333"),
        ],
    );
    assert_eq!(manager.status(), GameStatus::Started);
    assert_eq!(manager.move_cnt(), 1);
}

#[test]
fn started_game_with_1_step_by_all_players_with_received_2nd_player() {
    let manager = GameManager::new(
        game_model(3, 1),
        vec![
            turn_row(1, 0, 1, 1, Some("seed1"), false, 111, "login111"),
            turn_row(2, 1, 1, 2, Some("seed2"), true, 222, "login222"),
            turn_row(3, 2, 1, 3, Some("seed3"), false, 333, "login333"),
        ],
    );
    assert_eq!(manager.status(), GameStatus::Started);
    assert_eq!(manager.move_cnt(), 1);
}

#[test]
fn started_game_with_1_step_by_all_players_with_step2_by_2nd_player() {
    let mut rows = vec![
        turn_row(1, 0, 1, 1, Some("seed1"), false, 111, "login111"),
        turn_row(2, 1, 1, 2, Some("seed2"), false, 222, "login222"),
        turn_row(3, 2, 1, 3, Some("seed3"), false, 333, "login333"),
    ];
    let mut ahead = turn_row(2, 1, 2, 22, Some("seed2-2"), false, 222, "login222");
    ahead.0.total_seeds_cnt = 2;
    rows.push(ahead);
    let manager = GameManager::new(game_model(3, 1), rows);
    assert_eq!(manager.status(), GameStatus::Started);
    assert_eq!(manager.move_cnt(), 1);
}

#[test]
fn started_game_with_received_1_step_all_players() {
    let manager = GameManager::new(
        game_model(3, 1),
        vec![
            turn_row(1, 0, 1, 1, Some("seed1"), true, 111, "login111"),
            turn_row(2, 1, 1, 2, Some("seed2"), true, 222, "login222"),
            turn_row(3, 2, 1, 3, Some("seed3"), true, 333, "login333"),
        ],
    );
    assert_eq!(manager.status(), GameStatus::Started);
    assert_eq!(manager.move_cnt(), 1);
}

#[test]
fn started_game_with_received_1_step_by_all_step_2_by_player_2() {
    let mut rows = vec![
        turn_row(1, 0, 1, 1, Some("seed1"), true, 111, "login111"),
        turn_row(2, 1, 1, 2, Some("seed2"), true, 222, "login222"),
        turn_row(3, 2, 1, 3, Some("seed3"), true, 333, "login333"),
    ];
    let mut ahead = turn_row(2, 1, 2, 22, Some("seed2-2"), false, 222, "login222");
    ahead.0.total_seeds_cnt = 2;
    rows.push(ahead);
    let manager = GameManager::new(game_model(3, 1), rows);
    assert_eq!(manager.status(), GameStatus::Started);
    assert_eq!(manager.move_cnt(), 1);
}

// ---------------------------------------------------------------------------
// a full two-player game, played through step one
// ---------------------------------------------------------------------------

fn boundary_game() -> game::Model {
    game::Model {
        id: 1,
        owner_id: 1,
        world_id: 0,
        track_id: 0,
        rnd: 12711,
        game_type: GameType::All,
        laps: 1,
        seeds: 100,
        duration: 10,
        is_express: true,
        players_cnt: 2,
    }
}

fn seeds_packet(pid: u32, step: u32, blob: &str) -> Packet {
    Packet {
        version: 104,
        t_type: PacketType::OG_SEEDS_PACKET,
        gmid: 1,
        language: samogonki::data::Language::Ru,
        game_owner_pid: 0,
        packet_owner_pid: pid,
        password: String::from("password"),
        kd_world_id: 0,
        kd_route_id: 0,
        game_rnd: 12711,
        game_type: GameType::All,
        laps: 1,
        seeds: 100,
        duration: 10,
        move_cnt: 0,
        is_express: true,
        url: UrlProperty::default(),
        players: vec![],
        steps: vec![PlayerTurnInfo {
            step_number: step,
            player_id: pid,
            is_finished: false,
            rank: 0,
            move_time: 7,
            move_steps: 3,
            bottles_cnt: 0,
            total_seeds_cnt: 0,
            arcanes_cnt: 0,
            destroys_cnt: 0,
            user_seeds_cnt: 4,
            seeds: String::from(blob),
        }],
    }
}

fn refresh_packet(pid: u32, move_cnt: u32) -> Packet {
    Packet {
        version: 104,
        t_type: PacketType::OG_REFRESH_PACKET,
        gmid: 1,
        language: samogonki::data::Language::Ru,
        game_owner_pid: 0,
        packet_owner_pid: pid,
        password: String::from("password"),
        kd_world_id: 0,
        kd_route_id: 0,
        game_rnd: 12711,
        game_type: GameType::All,
        laps: 1,
        seeds: 100,
        duration: 10,
        move_cnt,
        is_express: true,
        url: UrlProperty::default(),
        players: vec![],
        steps: vec![],
    }
}

#[test]
fn boundary_two_player_game() {
    // both players join: a step-1 record each, no move yet
    let mut gm = GameManager::new(
        boundary_game(),
        vec![
            turn_row(1, 0, 1, 0, None, false, 111, "login111"),
            turn_row(2, 1, 1, 0, None, false, 222, "login222"),
        ],
    );
    assert_eq!(gm.status(), GameStatus::Started);
    assert_eq!(gm.move_cnt(), 0);

    // a poll before the step is complete: a bare answer, no write
    gm.set_pid(0).unwrap();
    let early = gm.get_refresh_packet(&refresh_packet(0, 0)).unwrap();
    assert_eq!(early.t_type, PacketType::OG_REFRESH_ANSWER_PACKET);
    assert_eq!(early.move_cnt, 0);
    assert!(gm.take_writes().is_empty());

    // player 0 moves; one player still lags, so the count stays at 0
    gm.set_pid(0).unwrap();
    gm.apply_step(&seeds_packet(0, 1, "blob-p0")).unwrap();
    assert_eq!(gm.move_cnt(), 0);
    let w = gm.take_writes();
    assert_eq!(w.len(), 1);
    assert!(matches!(&w[0], TurnWrite::Update(t) if t.player_number == 0));

    // player 1 moves too: step 1 is complete
    gm.set_pid(1).unwrap();
    gm.apply_step(&seeds_packet(1, 1, "blob-p1")).unwrap();
    assert_eq!(gm.move_cnt(), 1);
    let w = gm.take_writes();
    assert_eq!(w.len(), 1);
    assert!(matches!(&w[0], TurnWrite::Update(t) if t.player_number == 1));

    // a refresh by player 1 delivers the step to player 1 only
    gm.set_pid(1).unwrap();
    let p = gm.get_refresh_packet(&refresh_packet(1, 0)).unwrap();
    assert_eq!(p.t_type, PacketType::OG_GAME_PACKET);
    assert_eq!(p.move_cnt, 1);
    assert_eq!(p.players.len(), 2);
    assert_eq!(p.steps.len(), 2);
    assert!(gm.turns[1].0.is_received);
    assert!(!gm.turns[0].0.is_received);
    let w = gm.take_writes();
    assert_eq!(w.len(), 1);
    assert!(matches!(&w[0], TurnWrite::Update(t) if t.player_number == 1 && t.is_received));

    // a refresh by player 0 then delivers it to player 0 as well
    gm.set_pid(0).unwrap();
    let q = gm.get_refresh_packet(&refresh_packet(0, 0)).unwrap();
    assert_eq!(q.t_type, PacketType::OG_GAME_PACKET);
    assert_eq!(q.move_cnt, 1);
    assert!(gm.turns[0].0.is_received);
    assert!(gm.turns[1].0.is_received);
    let w = gm.take_writes();
    assert_eq!(w.len(), 1);
}

#[test]
fn refresh_answer_is_delivered_at_most_once() {
    let mut gm = GameManager::new(
        boundary_game(),
        vec![
            turn_row(1, 0, 1, 4, Some("blob-p0"), false, 111, "login111"),
            turn_row(2, 1, 1, 4, Some("blob-p1"), false, 222, "login222"),
        ],
    );
    gm.set_pid(1).unwrap();
    let first = gm.get_refresh_packet(&refresh_packet(1, 0)).unwrap();
    let second = gm.get_refresh_packet(&refresh_packet(1, 0)).unwrap();

    // identical answers, and one single write in total
    assert_eq!(first.t_type, PacketType::OG_GAME_PACKET);
    assert_eq!(second.t_type, PacketType::OG_GAME_PACKET);
    assert_eq!(first.move_cnt, second.move_cnt);
    assert_eq!(first.players, second.players);
    assert_eq!(first.steps, second.steps);
    assert_eq!(gm.take_writes().len(), 1);
}

// ---------------------------------------------------------------------------
// the step-advance policy
// ---------------------------------------------------------------------------

#[test]
fn apply_step_updates_record_of_current_step_in_place() {
    let mut gm = GameManager::new(
        boundary_game(),
        vec![
            turn_row(1, 0, 1, 0, None, false, 111, "login111"),
            turn_row(2, 1, 1, 0, None, false, 222, "login222"),
        ],
    );
    gm.set_pid(0).unwrap();
    gm.apply_step(&seeds_packet(0, 1, "first-try")).unwrap();
    // the record for step 1 already exists: no new row
    assert_eq!(gm.turns.len(), 2);
    assert_eq!(gm.turns[0].0.step_number, 1);
    assert_eq!(gm.turns[0].0.seeds.as_deref(), Some("first-try"));
    let w = gm.take_writes();
    assert!(matches!(&w[0], TurnWrite::Update(t) if t.seeds.as_deref() == Some("first-try")));
}

#[test]
fn apply_step_inserts_fresh_record_for_new_step() {
    let mut gm = GameManager::new(
        boundary_game(),
        vec![
            turn_row(1, 0, 1, 4, Some("blob-p0"), true, 111, "login111"),
            turn_row(2, 1, 1, 4, Some("blob-p1"), true, 222, "login222"),
        ],
    );
    // step 1 is complete, so the current step is 2 and player 0's latest
    // record belongs to step 1: a fresh row is appended
    gm.set_pid(0).unwrap();
    gm.apply_step(&seeds_packet(0, 2, "step2-move")).unwrap();
    assert_eq!(gm.turns.len(), 3);
    let fresh = &gm.turns[2].0;
    assert_eq!(fresh.step_number, 2);
    assert_eq!(fresh.player_number, 0);
    assert_eq!(fresh.seeds.as_deref(), Some("step2-move"));
    assert!(!fresh.is_received);
    assert_eq!(fresh.id, 0);
    let w = gm.take_writes();
    assert!(matches!(&w[0], TurnWrite::Insert(t) if t.step_number == 2));
}

#[test]
fn apply_step_normalizes_empty_seeds() {
    let mut gm = GameManager::new(
        boundary_game(),
        vec![
            turn_row(1, 0, 1, 0, None, false, 111, "login111"),
            turn_row(2, 1, 1, 0, None, false, 222, "login222"),
        ],
    );
    gm.set_pid(0).unwrap();
    gm.apply_step(&seeds_packet(0, 1, "")).unwrap();
    assert_eq!(gm.turns[0].0.seeds, None);
}

// ---------------------------------------------------------------------------
// error answers
// ---------------------------------------------------------------------------

#[test]
fn set_pid_rejects_unknown_slot() {
    let mut gm = GameManager::new(
        boundary_game(),
        vec![turn_row(1, 0, 1, 0, None, false, 111, "login111")],
    );
    assert_eq!(gm.set_pid(7), Err(GameManagerError::IncorrectPlayerId(7)));
}

#[test]
fn apply_step_rejects_open_game() {
    let mut gm = GameManager::new(
        boundary_game(),
        vec![turn_row(1, 0, 1, 0, None, false, 111, "login111")],
    );
    gm.set_pid(0).unwrap();
    assert_eq!(
        gm.apply_step(&seeds_packet(0, 1, "x")),
        Err(GameManagerError::GameNotActive(1))
    );
}

#[test]
fn apply_step_rejects_wrong_step() {
    let mut gm = GameManager::new(
        boundary_game(),
        vec![
            turn_row(1, 0, 1, 0, None, false, 111, "login111"),
            turn_row(2, 1, 1, 0, None, false, 222, "login222"),
        ],
    );
    gm.set_pid(0).unwrap();
    // the current step is 1, but the packet carries an entry for step 2
    assert_eq!(
        gm.apply_step(&seeds_packet(0, 2, "x")),
        Err(GameManagerError::IncorrectStepNumber)
    );
}

fn control_packet(pid: u32, move_cnt: u32, entries: Vec<PlayerTurnInfo>, players: Vec<Player>) -> Packet {
    Packet {
        version: 104,
        t_type: PacketType::OG_CONTROL_PACKET,
        gmid: 1,
        language: samogonki::data::Language::Ru,
        game_owner_pid: 0,
        packet_owner_pid: pid,
        password: String::from("password"),
        kd_world_id: 0,
        kd_route_id: 0,
        game_rnd: 12711,
        game_type: GameType::All,
        laps: 1,
        seeds: 100,
        duration: 10,
        move_cnt,
        is_express: true,
        url: UrlProperty::default(),
        players,
        steps: entries,
    }
}

fn result_entry(pid: u32, step: u32, rank: u32) -> PlayerTurnInfo {
    PlayerTurnInfo {
        step_number: step,
        player_id: pid,
        is_finished: false,
        rank,
        move_time: 9,
        move_steps: 5,
        bottles_cnt: 1,
        total_seeds_cnt: 2,
        arcanes_cnt: 0,
        destroys_cnt: 0,
        user_seeds_cnt: 4,
        seeds: String::new(),
    }
}

#[test]
fn apply_results_rejects_wrong_move_count() {
    let mut gm = GameManager::new(
        boundary_game(),
        vec![
            turn_row(1, 0, 1, 4, Some("a"), false, 111, "login111"),
            turn_row(2, 1, 1, 4, Some("b"), false, 222, "login222"),
        ],
    );
    gm.set_pid(0).unwrap();
    // one step is complete, so only its results (move_cnt 1) are accepted
    let p = control_packet(0, 2, vec![result_entry(0, 2, 1), result_entry(1, 2, 2)], vec![]);
    assert_eq!(gm.apply_results(&p), Err(GameManagerError::IncorrectStepNumber));
}

#[test]
fn apply_results_rejects_incomplete_entries() {
    let mut gm = GameManager::new(
        boundary_game(),
        vec![
            turn_row(1, 0, 1, 4, Some("a"), false, 111, "login111"),
            turn_row(2, 1, 1, 4, Some("b"), false, 222, "login222"),
        ],
    );
    gm.set_pid(0).unwrap();
    // only one of the two players' entries is present
    let p = control_packet(0, 1, vec![result_entry(0, 1, 1)], vec![]);
    assert_eq!(gm.apply_results(&p), Err(GameManagerError::IncorrectIncomeSteps));
}

#[test]
fn apply_results_rejects_missing_player_descriptor() {
    let mut gm = GameManager::new(
        boundary_game(),
        vec![
            turn_row(1, 0, 1, 4, Some("a"), false, 111, "login111"),
            turn_row(2, 1, 1, 4, Some("b"), false, 222, "login222"),
        ],
    );
    gm.set_pid(0).unwrap();
    // entries are complete but no roster entry names the players
    let p = control_packet(0, 1, vec![result_entry(0, 1, 1), result_entry(1, 1, 2)], vec![]);
    assert_eq!(gm.apply_results(&p), Err(GameManagerError::IncorrectIncomePlayers));
}

#[test]
fn apply_results_records_outcome_statistics() {
    let mut gm = GameManager::new(
        boundary_game(),
        vec![
            turn_row(1, 0, 1, 4, Some("a"), false, 111, "login111"),
            turn_row(2, 1, 1, 4, Some("b"), false, 222, "login222"),
        ],
    );
    gm.set_pid(0).unwrap();
    let players = vec![Player::new(0, "login111"), Player::new(1, "login222")];
    let p = control_packet(0, 1, vec![result_entry(0, 1, 1), result_entry(1, 1, 2)], players);
    gm.apply_results(&p).unwrap();
    assert_eq!(gm.turns[0].0.rank, 1);
    assert_eq!(gm.turns[1].0.rank, 2);
    assert_eq!(gm.turns[0].0.move_time, 9);
    // the move blob and its count stay untouched
    assert_eq!(gm.turns[0].0.seeds.as_deref(), Some("a"));
    assert_eq!(gm.turns[0].0.user_seeds_cnt, 4);
    assert_eq!(gm.take_writes().len(), 2);
}

#[test]
fn apply_results_empty_report_is_a_noop() {
    let mut gm = GameManager::new(
        boundary_game(),
        vec![
            turn_row(1, 0, 1, 0, None, false, 111, "login111"),
            turn_row(2, 1, 1, 0, None, false, 222, "login222"),
        ],
    );
    gm.set_pid(0).unwrap();
    let p = control_packet(0, 0, vec![], vec![]);
    assert_eq!(gm.apply_results(&p), Ok(()));
    assert!(gm.take_writes().is_empty());
}

// ---------------------------------------------------------------------------
// the boundary handlers
// ---------------------------------------------------------------------------

#[test]
fn handle_info_builds_snapshot() {
    let mut gm = GameManager::new(
        boundary_game(),
        vec![
            turn_row(1, 0, 1, 4, Some("a"), false, 111, "login111"),
            turn_row(2, 1, 1, 4, Some("b"), false, 222, "login222"),
        ],
    );
    gm.set_pid(1).unwrap();
    let p = handle_info(&gm);
    assert_eq!(p.version, 104);
    assert_eq!(p.t_type, PacketType::OG_CONTROL_PACKET);
    assert_eq!(p.gmid, 1);
    assert_eq!(p.game_owner_pid, 0);
    assert_eq!(p.packet_owner_pid, 1);
    assert_eq!(p.password, "password");
    assert_eq!(p.move_cnt, 1);
    assert_eq!(p.players.len(), 2);
    assert_eq!(p.players[0].nickname, "login111");
    assert_eq!(p.players[1].nickname, "login222");
    assert_eq!(p.steps.len(), 2);
    assert_eq!(p.steps[0].seeds, "a");
    assert_eq!(p.steps[1].seeds, "b");
}

#[test]
fn handle_packet_dispatches_seeds() {
    let mut gm = GameManager::new(
        boundary_game(),
        vec![
            turn_row(1, 0, 1, 0, None, false, 111, "login111"),
            turn_row(2, 1, 1, 0, None, false, 222, "login222"),
        ],
    );
    let r = handle_packet(&mut gm, &seeds_packet(0, 1, "blob")).unwrap();
    assert!(matches!(r, PostReply::Ack));
    assert_eq!(gm.turns[0].0.seeds.as_deref(), Some("blob"));
}

#[test]
fn handle_packet_rejects_unknown_sender() {
    let mut gm = GameManager::new(
        boundary_game(),
        vec![turn_row(1, 0, 1, 0, None, false, 111, "login111")],
    );
    let r = handle_packet(&mut gm, &seeds_packet(9, 1, "blob"));
    assert_eq!(r.unwrap_err(), GameManagerError::IncorrectPlayerId(9));
}

#[test]
fn handle_seeds_reports_acceptance() {
    let mut gm = GameManager::new(
        boundary_game(),
        vec![
            turn_row(1, 0, 1, 0, None, false, 111, "login111"),
            turn_row(2, 1, 1, 0, None, false, 222, "login222"),
        ],
    );
    gm.set_pid(0).unwrap();
    assert_eq!(
        handle_seeds(&mut gm, &seeds_packet(0, 1, "blob")),
        Ok(SeedsOutcome::Accepted)
    );
}

#[test]
fn with_pid_binds_or_returns_session() {
    let gm = GameManager::new(
        boundary_game(),
        vec![turn_row(1, 0, 1, 0, None, false, 111, "login111")],
    );
    let gm = match gm.with_pid(0) {
        Ok(m) => m,
        Err(_) => panic!("slot 0 exists"),
    };
    assert!(gm.with_pid(5).is_err());
}

#[test]
fn get_info_roster_stops_at_first_gap() {
    // slots 0 and 2 have joined, slot 1 has not: the roster ends before it
    let mut gm = GameManager::new(
        game_model(3, 1),
        vec![
            turn_row(1, 0, 1, 0, None, false, 111, "login111"),
            turn_row(3, 2, 1, 0, None, false, 333, "login333"),
        ],
    );
    gm.set_pid(0).unwrap();
    let p = gm.get_info(PacketType::OG_CONTROL_PACKET);
    assert_eq!(p.players.len(), 1);
    assert_eq!(p.players[0].uid, 0);
}

#[test]
fn get_info_roster_takes_latest_record_of_each_slot() {
    let mut rows = vec![
        turn_row(1, 0, 1, 1, Some("seed1"), true, 111, "login111"),
        turn_row(2, 1, 1, 2, Some("seed2"), true, 222, "login222"),
    ];
    let mut ahead = turn_row(1, 0, 2, 9, Some("seed1-2"), false, 111, "login111");
    ahead.0.prop_car = 8;
    rows.push(ahead);
    let mut gm = GameManager::new(boundary_game(), rows);
    gm.set_pid(0).unwrap();
    let p = gm.get_info(PacketType::OG_CONTROL_PACKET);
    // slot 0 is shown with its step-2 customization, and the character
    // field repeats the car id
    assert_eq!(p.players[0].pers_car_comp_id, 8);
    assert_eq!(p.players[0].front_car_comp_id, 8);
    // only moves of completed steps are listed: step 1 by both players
    assert_eq!(p.move_cnt, 1);
    assert_eq!(p.steps.len(), 2);
}

#[test]
fn handle_packet_acknowledges_unhandled_types() {
    let mut gm = GameManager::new(
        boundary_game(),
        vec![
            turn_row(1, 0, 1, 0, None, false, 111, "login111"),
            turn_row(2, 1, 1, 0, None, false, 222, "login222"),
        ],
    );
    let mut p = seeds_packet(0, 1, "ignored");
    p.t_type = PacketType::OG_SYS_PACKET;
    let r = handle_packet(&mut gm, &p).unwrap();
    assert!(matches!(r, PostReply::Ack));
    assert!(gm.take_writes().is_empty());
    assert_eq!(gm.turns[0].0.seeds, None);
}
