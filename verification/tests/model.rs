use samogonki::data::{Language, PacketType};
use samogonki::entity::game::{GameType, Model as GameModel, World};
use samogonki::entity::user;
use samogonki::game::TransferWatch;
use samogonki::text;

#[test]
fn world_ids_round() {
    let w = World::from_ids(4, 7).unwrap();
    assert_eq!(w.id(), (4, 7));
    assert_eq!(w.world_id(), 4);
    assert_eq!(w.track_id(), 7);
    assert!(World::from_ids(13, 0).is_none());
    assert!(World::from_ids(0, 256).is_none());
    let r = World::available_world_ids();
    assert_eq!(r.start, 0);
    assert_eq!(r.end, 13);
}

#[test]
fn game_model_world() {
    let g = GameModel {
        id: 1,
        owner_id: 1,
        world_id: 2,
        track_id: 5,
        rnd: 0,
        game_type: GameType::All,
        laps: 1,
        seeds: 10,
        duration: 10,
        is_express: true,
        players_cnt: 2,
    };
    assert_eq!(g.world().id(), (2, 5));
}

#[test]
fn game_type_wire_letters() {
    assert_eq!(GameType::from_wire("W"), Some(GameType::Winner));
    assert_eq!(GameType::from_wire("w"), Some(GameType::Winner));
    assert_eq!(GameType::from_wire("A"), Some(GameType::All));
    assert_eq!(GameType::from_wire("a"), Some(GameType::All));
    assert_eq!(GameType::from_wire("B"), None);
    assert_eq!(GameType::from_wire("WW"), None);
    assert_eq!(GameType::from_wire(""), None);
    assert_eq!(GameType::Winner.wire_char(), "W");
    assert_eq!(GameType::All.wire_char(), "A");
}

#[test]
fn packet_type_codes() {
    assert_eq!(PacketType::from_u8(1), Some(PacketType::OG_GAME_PACKET));
    assert_eq!(PacketType::from_u8(8), Some(PacketType::OG_ARCADE_GAME_PACKET));
    assert_eq!(PacketType::from_u8(0), None);
    assert_eq!(PacketType::from_u8(9), None);
    assert_eq!(PacketType::OG_SEEDS_PACKET.code(), 3);
    assert_eq!(Language::from_u8(0), Some(Language::Ru));
    assert_eq!(Language::from_u8(1), Some(Language::En));
    assert_eq!(Language::from_u8(2), None);
    assert_eq!(Language::En.code(), 1);
}

#[test]
fn user_login_name() {
    let named = user::Model {
        id: 1,
        steam_id: 777,
        login: Some(String::from("racer")),
        is_blocked: user::UserBlocked::Nope,
    };
    assert_eq!(named.login(), "racer");
    let unnamed = user::Model { id: 2, steam_id: 777, login: None, is_blocked: user::UserBlocked::Nope };
    assert_eq!(unnamed.login(), "№777");
    let negative = user::Model { id: 3, steam_id: -5, login: None, is_blocked: user::UserBlocked::Nope };
    assert_eq!(negative.login(), "№-5");
}

#[test]
fn transfer_watch_progress() {
    let mut w = TransferWatch::new();
    assert!(!w.is_completed());
    assert!(!w.is_active_sending(2));
    w.received.push(0);
    w.received.push(1);
    assert!(!w.is_completed());
    assert!(w.is_active_sending(2));
    w.sent.push(0);
    w.sent.push(1);
    assert!(w.is_completed());
    assert!(!w.is_active_sending(2));
}

#[test]
fn decimal_rendering() {
    assert_eq!(text::u64_to_dec(0), "0");
    assert_eq!(text::u64_to_dec(7), "7");
    assert_eq!(text::u64_to_dec(47792), "47792");
    assert_eq!(text::u64_to_dec(u64::MAX), "18446744073709551615");
    assert_eq!(text::i64_to_dec(-1), "-1");
    assert_eq!(text::i64_to_dec(i64::MIN), "-9223372036854775808");
    assert_eq!(text::i64_to_dec(42), "42");
}

#[test]
fn decimal_parsing() {
    assert_eq!(text::parse_dec_field("0", u64::MAX), Some(0));
    assert_eq!(text::parse_dec_field("47792", u64::MAX), Some(47792));
    assert_eq!(text::parse_dec_field("+12", u64::MAX), Some(12));
    assert_eq!(text::parse_dec_field("007", u64::MAX), Some(7));
    assert_eq!(text::parse_dec_field("", u64::MAX), None);
    assert_eq!(text::parse_dec_field("+", u64::MAX), None);
    assert_eq!(text::parse_dec_field("-1", u64::MAX), None);
    assert_eq!(text::parse_dec_field("1 2", u64::MAX), None);
    assert_eq!(text::parse_dec_field("12x", u64::MAX), None);
    // values above the bound are refused, at the bound accepted
    assert_eq!(text::parse_dec_field("256", 255), None);
    assert_eq!(text::parse_dec_field("255", 255), Some(255));
    assert_eq!(text::parse_dec_field("18446744073709551616", u64::MAX), None);
    assert_eq!(text::parse_dec_field("18446744073709551615", u64::MAX), Some(u64::MAX));
}

#[test]
fn signed_parsing() {
    assert_eq!(text::parse_i32_field("0"), Some(0));
    assert_eq!(text::parse_i32_field("-3"), Some(-3));
    assert_eq!(text::parse_i32_field("+3"), Some(3));
    assert_eq!(text::parse_i32_field("-+3"), None);
    assert_eq!(text::parse_i32_field("2147483647"), Some(i32::MAX));
    assert_eq!(text::parse_i32_field("2147483648"), None);
    assert_eq!(text::parse_i32_field("-2147483648"), Some(i32::MIN));
    assert_eq!(text::parse_i32_field("-2147483649"), None);
    assert_eq!(text::parse_i32_field("-"), None);
}

#[test]
fn field_splitting_and_joining() {
    let fields = text::split_fields("a;;c");
    assert_eq!(fields, vec!["a", "", "c"]);
    assert_eq!(text::split_fields(""), vec![""]);
    let joined = text::join_fields(&vec![String::from("a"), String::new(), String::from("c")]);
    assert_eq!(joined, "a;;c");
}
