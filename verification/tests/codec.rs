use samogonki::data::{KdlabCodec, Language, Packet, PacketType, Player, PlayerTurnInfo, UrlProperty};
use samogonki::entity::game::GameType;

#[test]
fn packet_bothcode_type2_players_2() {
    let input = "KDLAB;104;2;1;0;0;1;password;0;0;47792;A;3;100;10;0;2;0;Y;;0;;;0;player;1;1;1;1;N;1;player2;1;1;1;1;N;BITRIX";
    let p = Packet::decode(&input).unwrap();
    assert_eq!(p.version, 104);
    assert_eq!(p.t_type, PacketType::OG_CONTROL_PACKET);
    assert_eq!(p.gmid, 1);
    assert_eq!(p.language, Language::Ru);
    assert_eq!(p.game_owner_pid, 0);
    assert_eq!(p.packet_owner_pid, 1);
    assert_eq!(p.password.as_str(), "password");
    assert_eq!(p.kd_world_id, 0);
    assert_eq!(p.kd_route_id, 0);
    assert_eq!(p.game_rnd, 47792);
    assert_eq!(p.game_type, GameType::All);
    assert_eq!(p.laps, 3);
    assert_eq!(p.seeds, 100);
    assert_eq!(p.duration, 10);
    assert_eq!(p.move_cnt, 0);
    assert!(p.url.post.is_empty());
    assert_eq!(p.url.post_port, 0);
    assert!(p.url.post.is_empty());
    assert!(p.url.post.is_empty());
    assert_eq!(p.is_express, true);
    assert_eq!(
        p.players,
        vec![
            Player {
                uid: 0,
                nickname: "player".to_owned(),
                pers_car_comp_id: 1,
                front_car_comp_id: 1,
                fwheel_car_comp_id: 1,
                bwheel_car_comp_id: 1,
                is_robot: false,
                password: None
            },
            Player {
                uid: 1,
                nickname: "player2".to_owned(),
                pers_car_comp_id: 1,
                front_car_comp_id: 1,
                fwheel_car_comp_id: 1,
                bwheel_car_comp_id: 1,
                is_robot: false,
                password: None
            }
        ]
    );

    assert_eq!(input, &p.encode());
}

#[test]
fn packet_encode_type7_without_players_with_single_step() {
    let packet = Packet {
        version: 104,
        t_type: PacketType::OG_REFRESH_ANSWER_PACKET,
        gmid: 0,
        language: Language::Ru,
        game_owner_pid: 0,
        packet_owner_pid: 0,
        password: String::from("password"),
        kd_world_id: 0,
        kd_route_id: 0,
        game_rnd: 0,
        game_type: GameType::All,
        laps: 5,
        seeds: 200,
        duration: 10,
        move_cnt: 0,
        is_express: true,
        url: UrlProperty::default(),
        players: vec![],
        steps: vec![PlayerTurnInfo {
            step_number: 1,
            player_id: 0,
            is_finished: false,
            rank: 0,
            move_time: 0,
            move_steps: 0,
            bottles_cnt: 0,
            total_seeds_cnt: 0,
            arcanes_cnt: 0,
            destroys_cnt: 0,
            user_seeds_cnt: 4,
            seeds: String::from("661#348#50#-1#1181#291#51#-1#1616#423#51#-1#1879#702#51#-1"),
        }],
    };

    assert_eq!(packet.encode(), "KDLAB;104;7;0;0;0;0;password;0;0;0;A;5;200;10;0;0;1;Y;;0;;;1;1;0;N;0;0;0;0;0;0;0;4;661#348#50#-1#1181#291#51#-1#1616#423#51#-1#1879#702#51#-1;BITRIX");
}

fn sample_packet() -> Packet {
    Packet {
        version: 104,
        t_type: PacketType::OG_GAME_PACKET,
        gmid: 42,
        language: Language::En,
        game_owner_pid: 0,
        packet_owner_pid: 1,
        password: String::from("token-1"),
        kd_world_id: 3,
        kd_route_id: 2,
        game_rnd: 55555,
        game_type: GameType::Winner,
        laps: 4,
        seeds: 120,
        duration: 30,
        move_cnt: 2,
        is_express: false,
        url: UrlProperty {
            post: String::from("host"),
            post_port: 8080,
            post_path: String::from("path"),
            sreturn: String::from("ret"),
        },
        players: vec![
            Player {
                uid: 0,
                nickname: String::from("alice"),
                pers_car_comp_id: 2,
                front_car_comp_id: 3,
                fwheel_car_comp_id: 4,
                bwheel_car_comp_id: 5,
                is_robot: false,
                password: Some(String::from("secret")),
            },
            Player {
                uid: 1,
                nickname: String::from("bob"),
                pers_car_comp_id: 6,
                front_car_comp_id: 7,
                fwheel_car_comp_id: 8,
                bwheel_car_comp_id: 9,
                is_robot: true,
                password: None,
            },
        ],
        steps: vec![
            PlayerTurnInfo {
                step_number: 2,
                player_id: 0,
                is_finished: false,
                rank: 1,
                move_time: 17,
                move_steps: 8,
                bottles_cnt: 1,
                total_seeds_cnt: 9,
                arcanes_cnt: 2,
                destroys_cnt: 0,
                user_seeds_cnt: 4,
                seeds: String::from("10#20#30"),
            },
            PlayerTurnInfo {
                step_number: 3,
                player_id: 1,
                is_finished: true,
                rank: 2,
                move_time: 23,
                move_steps: 6,
                bottles_cnt: 0,
                total_seeds_cnt: 5,
                arcanes_cnt: 1,
                destroys_cnt: 1,
                user_seeds_cnt: 3,
                seeds: String::from("7#8#9"),
            },
        ],
    }
}

#[test]
fn round_trip_reproduces_fields() {
    // the packet type carries both the roster and step data; only the
    // highest step's single entry survives encoding, players lose their
    // passwords, and the address block is discarded
    let p = sample_packet();
    let decoded = Packet::decode(&p.encode()).unwrap();
    assert_eq!(decoded.version, p.version);
    assert_eq!(decoded.t_type, p.t_type);
    assert_eq!(decoded.gmid, p.gmid);
    assert_eq!(decoded.language, p.language);
    assert_eq!(decoded.game_owner_pid, p.game_owner_pid);
    assert_eq!(decoded.packet_owner_pid, p.packet_owner_pid);
    assert_eq!(decoded.password, p.password);
    assert_eq!(decoded.kd_world_id, p.kd_world_id);
    assert_eq!(decoded.kd_route_id, p.kd_route_id);
    assert_eq!(decoded.game_rnd, p.game_rnd);
    assert_eq!(decoded.game_type, p.game_type);
    assert_eq!(decoded.laps, p.laps);
    assert_eq!(decoded.seeds, p.seeds);
    assert_eq!(decoded.duration, p.duration);
    assert_eq!(decoded.move_cnt, p.move_cnt);
    assert_eq!(decoded.is_express, p.is_express);
    // the address block comes back empty
    assert!(decoded.url.post.is_empty());
    assert_eq!(decoded.url.post_port, 0);
    assert!(decoded.url.post_path.is_empty());
    assert!(decoded.url.sreturn.is_empty());
    // the roster survives except for the passwords
    assert_eq!(decoded.players.len(), 2);
    for (d, o) in decoded.players.iter().zip(p.players.iter()) {
        assert_eq!(d.uid, o.uid);
        assert_eq!(d.nickname, o.nickname);
        assert_eq!(d.pers_car_comp_id, o.pers_car_comp_id);
        assert_eq!(d.front_car_comp_id, o.front_car_comp_id);
        assert_eq!(d.fwheel_car_comp_id, o.fwheel_car_comp_id);
        assert_eq!(d.bwheel_car_comp_id, o.bwheel_car_comp_id);
        assert_eq!(d.is_robot, o.is_robot);
        assert_eq!(d.password, None);
    }
    // only the entry at the highest step (3) survives
    assert_eq!(decoded.steps.len(), 1);
    assert_eq!(decoded.steps[0], p.steps[1]);
}

#[test]
fn round_trip_suppresses_roster_for_refresh_answer() {
    let mut p = sample_packet();
    p.t_type = PacketType::OG_REFRESH_ANSWER_PACKET;
    p.steps.truncate(1);
    let decoded = Packet::decode(&p.encode()).unwrap();
    assert_eq!(decoded.t_type, PacketType::OG_REFRESH_ANSWER_PACKET);
    assert!(decoded.players.is_empty());
    assert_eq!(decoded.steps.len(), 1);
    assert_eq!(decoded.steps[0], p.steps[0]);
}

#[test]
fn decode_rejects_missing_tag() {
    assert!(Packet::decode("BITRIX;104;2;1").is_none());
    assert!(Packet::decode("").is_none());
    assert!(Packet::decode("kdlab;104;2;1;0;0;1;p;0;0;1;A;3;100;10;0;0;0;Y;;0;;;BITRIX").is_none());
}

#[test]
fn decode_rejects_short_records() {
    assert!(Packet::decode("KDLAB").is_none());
    assert!(Packet::decode("KDLAB;104;2").is_none());
    assert!(Packet::decode("KDLAB;104;2;1;0;0;1;password;0;0;47792;A;3;100;10;0").is_none());
}

#[test]
fn decode_rejects_bad_scalars() {
    // a non-numeric game id
    assert!(Packet::decode("KDLAB;104;2;abc;0;0;1;p;0;0;1;A;3;100;10;0;0;0;Y;;0;;;BITRIX").is_none());
    // an unknown packet type numeral
    assert!(Packet::decode("KDLAB;104;9;1;0;0;1;p;0;0;1;A;3;100;10;0;0;0;Y;;0;;;BITRIX").is_none());
    // an unknown language numeral
    assert!(Packet::decode("KDLAB;104;2;1;7;0;1;p;0;0;1;A;3;100;10;0;0;0;Y;;0;;;BITRIX").is_none());
    // an unknown game type letter
    assert!(Packet::decode("KDLAB;104;2;1;0;0;1;p;0;0;1;X;3;100;10;0;0;0;Y;;0;;;BITRIX").is_none());
    // a world id beyond one byte
    assert!(Packet::decode("KDLAB;104;2;1;0;0;1;p;256;0;1;A;3;100;10;0;0;0;Y;;0;;;BITRIX").is_none());
}

#[test]
fn decode_tolerates_trailing_data() {
    // a missing or mangled terminator is not a hard failure
    let p = Packet::decode("KDLAB;104;2;1;0;0;1;p;0;0;1;A;3;100;10;0;0;0;Y;;0;;").unwrap();
    assert_eq!(p.gmid, 1);
    let q = Packet::decode("KDLAB;104;2;1;0;0;1;p;0;0;1;A;3;100;10;0;0;0;Y;;0;;;BITRIX;;;").unwrap();
    assert_eq!(q.gmid, 1);
}

#[test]
fn decode_accepts_case_insensitive_game_type_and_plus_signs() {
    let p = Packet::decode("KDLAB;104;2;1;0;0;1;p;0;0;1;a;3;100;10;0;0;0;Y;;0;;;BITRIX").unwrap();
    assert_eq!(p.game_type, GameType::All);
    let q = Packet::decode("KDLAB;104;2;1;0;0;1;p;0;0;1;w;+3;100;10;0;0;0;Y;;0;;;BITRIX").unwrap();
    assert_eq!(q.game_type, GameType::Winner);
    assert_eq!(q.laps, 3);
}

#[test]
fn decode_reads_multiple_step_blocks() {
    // two blocks, each with one entry, flatten into one step list
    let input = "KDLAB;104;2;1;0;0;1;p;0;0;1;A;3;100;10;1;0;2;Y;;0;;;1;1;0;N;0;0;0;0;0;0;0;4;s1;2;1;1;Y;1;2;3;4;5;6;7;8;s2;BITRIX";
    let p = Packet::decode(input).unwrap();
    assert_eq!(p.steps.len(), 2);
    assert_eq!(p.steps[0].step_number, 1);
    assert_eq!(p.steps[0].seeds, "s1");
    assert_eq!(p.steps[1].step_number, 2);
    assert_eq!(p.steps[1].player_id, 1);
    assert!(p.steps[1].is_finished);
    assert_eq!(p.steps[1].seeds, "s2");
}

#[test]
fn decode_accepts_negative_turn_count_as_empty_block() {
    // a block declaring a negative entry count contributes no entries
    let input = "KDLAB;104;2;1;0;0;1;p;0;0;1;A;3;100;10;1;0;1;Y;;0;;;5;-3;BITRIX";
    let p = Packet::decode(input).unwrap();
    assert!(p.steps.is_empty());
}

#[test]
fn encode_through_codec_trait() {
    fn encode_any<T: KdlabCodec>(value: &T) -> String {
        value.encode()
    }
    let p = sample_packet();
    assert_eq!(encode_any(&p), p.encode());
}
