//! Wire-protocol data: the packet value, its parts, and the KDLAB codec.
//!
//! A packet is a flat, ordered, semicolon-separated field list on the wire.
//! Its mathematical model is [`PacketView`], a ghost mirror of the packet in
//! which every string is a `Seq<char>`.  Encoding is specified field by field
//! through [`packet_wire_fields`]; decoding through [`parse_packet_text`].

use vstd::prelude::*;
use vstd::string::*;

use crate::entity::game::GameType;
use crate::text::{dec_str, u64_to_dec};

verus! {

/// Client language of a game.
#[derive(Debug, Clone, Copy, PartialEq, Eq, Structural)]
pub enum Language {
    Ru,
    En,
}

impl Language {
    /// The numeral this language travels as.
    pub open spec fn spec_code(self) -> u8 {
        match self {
            Language::Ru => 0,
            Language::En => 1,
        }
    }

    pub fn code(self) -> (r: u8)
        ensures
            r == self.spec_code(),
    {
        match self {
            Language::Ru => 0,
            Language::En => 1,
        }
    }

    /// The languages a numeral names.
    pub open spec fn spec_from_u8(v: u8) -> Option<Language> {
        if v == 0 {
            Some(Language::Ru)
        } else if v == 1 {
            Some(Language::En)
        } else {
            None
        }
    }

    pub fn from_u8(v: u8) -> (r: Option<Language>)
        ensures
            r == Language::spec_from_u8(v),
    {
        if v == 0 {
            Some(Language::Ru)
        } else if v == 1 {
            Some(Language::En)
        } else {
            None
        }
    }
}

/// The eight packet kinds of the protocol, by their wire numerals 1 to 8.
#[allow(non_camel_case_types)]
#[derive(Debug, Clone, Copy, PartialEq, Eq, Structural)]
pub enum PacketType {
    /// Server to game: header plus the recorded moves.
    OG_GAME_PACKET,
    /// A player's acknowledgement and computed step results.
    OG_CONTROL_PACKET,
    /// A player's own moves.
    OG_SEEDS_PACKET,
    /// Summary of a finished game.
    OG_COMPLETED_GAME_PACKET,
    /// Administrative consistency check.
    OG_SYS_PACKET,
    /// Poll for fresh step data in an express game.
    OG_REFRESH_PACKET,
    /// Answer to a refresh poll.
    OG_REFRESH_ANSWER_PACKET,
    /// Launch of a server-side trial game.
    OG_ARCADE_GAME_PACKET,
}

impl PacketType {
    /// The numeral this packet type travels as.
    pub open spec fn spec_code(self) -> u8 {
        match self {
            PacketType::OG_GAME_PACKET => 1,
            PacketType::OG_CONTROL_PACKET => 2,
            PacketType::OG_SEEDS_PACKET => 3,
            PacketType::OG_COMPLETED_GAME_PACKET => 4,
            PacketType::OG_SYS_PACKET => 5,
            PacketType::OG_REFRESH_PACKET => 6,
            PacketType::OG_REFRESH_ANSWER_PACKET => 7,
            PacketType::OG_ARCADE_GAME_PACKET => 8,
        }
    }

    pub fn code(self) -> (r: u8)
        ensures
            r == self.spec_code(),
    {
        match self {
            PacketType::OG_GAME_PACKET => 1,
            PacketType::OG_CONTROL_PACKET => 2,
            PacketType::OG_SEEDS_PACKET => 3,
            PacketType::OG_COMPLETED_GAME_PACKET => 4,
            PacketType::OG_SYS_PACKET => 5,
            PacketType::OG_REFRESH_PACKET => 6,
            PacketType::OG_REFRESH_ANSWER_PACKET => 7,
            PacketType::OG_ARCADE_GAME_PACKET => 8,
        }
    }

    /// The packet types a numeral names.
    pub open spec fn spec_from_u8(v: u8) -> Option<PacketType> {
        if v == 1 {
            Some(PacketType::OG_GAME_PACKET)
        } else if v == 2 {
            Some(PacketType::OG_CONTROL_PACKET)
        } else if v == 3 {
            Some(PacketType::OG_SEEDS_PACKET)
        } else if v == 4 {
            Some(PacketType::OG_COMPLETED_GAME_PACKET)
        } else if v == 5 {
            Some(PacketType::OG_SYS_PACKET)
        } else if v == 6 {
            Some(PacketType::OG_REFRESH_PACKET)
        } else if v == 7 {
            Some(PacketType::OG_REFRESH_ANSWER_PACKET)
        } else if v == 8 {
            Some(PacketType::OG_ARCADE_GAME_PACKET)
        } else {
            None
        }
    }

    pub fn from_u8(v: u8) -> (r: Option<PacketType>)
        ensures
            r == PacketType::spec_from_u8(v),
    {
        if v == 1 {
            Some(PacketType::OG_GAME_PACKET)
        } else if v == 2 {
            Some(PacketType::OG_CONTROL_PACKET)
        } else if v == 3 {
            Some(PacketType::OG_SEEDS_PACKET)
        } else if v == 4 {
            Some(PacketType::OG_COMPLETED_GAME_PACKET)
        } else if v == 5 {
            Some(PacketType::OG_SYS_PACKET)
        } else if v == 6 {
            Some(PacketType::OG_REFRESH_PACKET)
        } else if v == 7 {
            Some(PacketType::OG_REFRESH_ANSWER_PACKET)
        } else if v == 8 {
            Some(PacketType::OG_ARCADE_GAME_PACKET)
        } else {
            None
        }
    }

    /// Packet types that never carry a player roster on the wire.
    pub open spec fn suppresses_players(self) -> bool {
        self == PacketType::OG_SEEDS_PACKET || self == PacketType::OG_REFRESH_PACKET || self
            == PacketType::OG_REFRESH_ANSWER_PACKET
    }
}

/// The server-address block carried by every packet; consumed and discarded
/// by the decoder, passed through untouched by everything else.
#[derive(Debug)]
pub struct UrlProperty {
    pub post: String,
    pub post_port: u16,
    pub post_path: String,
    pub sreturn: String,
}

/// Ghost mirror of [`UrlProperty`].
#[verifier::ext_equal]
pub ghost struct UrlView {
    pub post: Seq<char>,
    pub post_port: u16,
    pub post_path: Seq<char>,
    pub sreturn: Seq<char>,
}

impl UrlView {
    /// The value the decoder always yields for the discarded block.
    pub open spec fn empty() -> UrlView {
        UrlView { post: Seq::empty(), post_port: 0, post_path: Seq::empty(), sreturn: Seq::empty() }
    }
}

impl View for UrlProperty {
    type V = UrlView;

    open spec fn view(&self) -> UrlView {
        UrlView {
            post: self.post@,
            post_port: self.post_port,
            post_path: self.post_path@,
            sreturn: self.sreturn@,
        }
    }
}

impl Default for UrlProperty {
    fn default() -> (r: Self)
        ensures
            r@ == UrlView::empty(),
    {
        UrlProperty {
            post: String::new(),
            post_port: 0,
            post_path: String::new(),
            sreturn: String::new(),
        }
    }
}

impl Clone for UrlProperty {
    fn clone(&self) -> (r: Self)
        ensures
            r == *self,
    {
        UrlProperty {
            post: self.post.clone(),
            post_port: self.post_port,
            post_path: self.post_path.clone(),
            sreturn: self.sreturn.clone(),
        }
    }
}

/// One roster entry: a player slot with its display name and customization.
#[derive(Debug, PartialEq, Eq)]
pub struct Player {
    pub uid: u32,
    pub nickname: String,
    pub pers_car_comp_id: u32,
    pub front_car_comp_id: u32,
    pub fwheel_car_comp_id: u32,
    pub bwheel_car_comp_id: u32,
    pub is_robot: bool,
    pub password: Option<String>,
}

/// Ghost mirror of [`Player`].
#[verifier::ext_equal]
pub ghost struct PlayerView {
    pub uid: u32,
    pub nickname: Seq<char>,
    pub pers_car_comp_id: u32,
    pub front_car_comp_id: u32,
    pub fwheel_car_comp_id: u32,
    pub bwheel_car_comp_id: u32,
    pub is_robot: bool,
    pub password: Option<Seq<char>>,
}

impl View for Player {
    type V = PlayerView;

    open spec fn view(&self) -> PlayerView {
        PlayerView {
            uid: self.uid,
            nickname: self.nickname@,
            pers_car_comp_id: self.pers_car_comp_id,
            front_car_comp_id: self.front_car_comp_id,
            fwheel_car_comp_id: self.fwheel_car_comp_id,
            bwheel_car_comp_id: self.bwheel_car_comp_id,
            is_robot: self.is_robot,
            password: match self.password {
                Some(p) => Some(p@),
                None => None,
            },
        }
    }
}

impl Player {
    /// A fresh human entry with default customization and no password.
    pub fn new(uid: u32, nickname: &str) -> (r: Self)
        ensures
            r@ == (PlayerView {
                uid,
                nickname: nickname@,
                pers_car_comp_id: 1,
                front_car_comp_id: 1,
                fwheel_car_comp_id: 1,
                bwheel_car_comp_id: 1,
                is_robot: false,
                password: None,
            }),
    {
        Player {
            uid,
            nickname: nickname.to_owned(),
            pers_car_comp_id: 1,
            front_car_comp_id: 1,
            fwheel_car_comp_id: 1,
            bwheel_car_comp_id: 1,
            is_robot: false,
            password: None,
        }
    }
}

impl Clone for Player {
    fn clone(&self) -> (r: Self)
        ensures
            r == *self,
    {
        Player {
            uid: self.uid,
            nickname: self.nickname.clone(),
            pers_car_comp_id: self.pers_car_comp_id,
            front_car_comp_id: self.front_car_comp_id,
            fwheel_car_comp_id: self.fwheel_car_comp_id,
            bwheel_car_comp_id: self.bwheel_car_comp_id,
            is_robot: self.is_robot,
            password: match &self.password {
                Some(p) => Some(p.clone()),
                None => None,
            },
        }
    }
}

/// One player's move for one step, as carried on the wire.
#[derive(Debug, PartialEq, Eq)]
pub struct PlayerTurnInfo {
    pub step_number: u32,
    pub player_id: u32,
    pub is_finished: bool,
    pub rank: u32,
    pub move_time: u32,
    pub move_steps: u32,
    pub bottles_cnt: u32,
    pub total_seeds_cnt: u32,
    pub arcanes_cnt: u32,
    pub destroys_cnt: u32,
    pub user_seeds_cnt: u32,
    pub seeds: String,
}

/// Ghost mirror of [`PlayerTurnInfo`].
#[verifier::ext_equal]
pub ghost struct TurnInfoView {
    pub step_number: u32,
    pub player_id: u32,
    pub is_finished: bool,
    pub rank: u32,
    pub move_time: u32,
    pub move_steps: u32,
    pub bottles_cnt: u32,
    pub total_seeds_cnt: u32,
    pub arcanes_cnt: u32,
    pub destroys_cnt: u32,
    pub user_seeds_cnt: u32,
    pub seeds: Seq<char>,
}

impl View for PlayerTurnInfo {
    type V = TurnInfoView;

    open spec fn view(&self) -> TurnInfoView {
        TurnInfoView {
            step_number: self.step_number,
            player_id: self.player_id,
            is_finished: self.is_finished,
            rank: self.rank,
            move_time: self.move_time,
            move_steps: self.move_steps,
            bottles_cnt: self.bottles_cnt,
            total_seeds_cnt: self.total_seeds_cnt,
            arcanes_cnt: self.arcanes_cnt,
            destroys_cnt: self.destroys_cnt,
            user_seeds_cnt: self.user_seeds_cnt,
            seeds: self.seeds@,
        }
    }
}

impl Clone for PlayerTurnInfo {
    fn clone(&self) -> (r: Self)
        ensures
            r == *self,
    {
        PlayerTurnInfo {
            step_number: self.step_number,
            player_id: self.player_id,
            is_finished: self.is_finished,
            rank: self.rank,
            move_time: self.move_time,
            move_steps: self.move_steps,
            bottles_cnt: self.bottles_cnt,
            total_seeds_cnt: self.total_seeds_cnt,
            arcanes_cnt: self.arcanes_cnt,
            destroys_cnt: self.destroys_cnt,
            user_seeds_cnt: self.user_seeds_cnt,
            seeds: self.seeds.clone(),
        }
    }
}

/// A whole protocol message.
#[derive(Debug)]
pub struct Packet {
    /// Protocol version numeral.
    pub version: usize,
    pub t_type: PacketType,
    /// Unique game id.
    pub gmid: u32,
    pub language: Language,
    /// Player slot of the game's owner.
    pub game_owner_pid: u32,
    /// Player slot of the packet's sender.
    pub packet_owner_pid: u32,
    /// Access token for the sender's slot; validated only by slot membership.
    pub password: String,
    pub kd_world_id: u8,
    pub kd_route_id: u8,
    /// The game's shared random seed.
    pub game_rnd: u16,
    pub game_type: GameType,
    pub laps: u32,
    /// Seed allowance per step.
    pub seeds: u32,
    /// Step duration in minutes.
    pub duration: u32,
    /// Number of fully completed steps.
    pub move_cnt: u32,
    pub is_express: bool,
    pub url: UrlProperty,
    pub players: Vec<Player>,
    pub steps: Vec<PlayerTurnInfo>,
}

/// Ghost mirror of [`Packet`].
#[verifier::ext_equal]
pub ghost struct PacketView {
    pub version: usize,
    pub t_type: PacketType,
    pub gmid: u32,
    pub language: Language,
    pub game_owner_pid: u32,
    pub packet_owner_pid: u32,
    pub password: Seq<char>,
    pub kd_world_id: u8,
    pub kd_route_id: u8,
    pub game_rnd: u16,
    pub game_type: GameType,
    pub laps: u32,
    pub seeds: u32,
    pub duration: u32,
    pub move_cnt: u32,
    pub is_express: bool,
    pub url: UrlView,
    pub players: Seq<PlayerView>,
    pub steps: Seq<TurnInfoView>,
}

impl View for Packet {
    type V = PacketView;

    open spec fn view(&self) -> PacketView {
        PacketView {
            version: self.version,
            t_type: self.t_type,
            gmid: self.gmid,
            language: self.language,
            game_owner_pid: self.game_owner_pid,
            packet_owner_pid: self.packet_owner_pid,
            password: self.password@,
            kd_world_id: self.kd_world_id,
            kd_route_id: self.kd_route_id,
            game_rnd: self.game_rnd,
            game_type: self.game_type,
            laps: self.laps,
            seeds: self.seeds,
            duration: self.duration,
            move_cnt: self.move_cnt,
            is_express: self.is_express,
            url: self.url@,
            players: self.players@.map_values(|p: Player| p@),
            steps: self.steps@.map_values(|t: PlayerTurnInfo| t@),
        }
    }
}

/// The two wire booleans.
pub open spec fn yn_view(b: bool) -> Seq<char> {
    if b {
        "Y"@
    } else {
        "N"@
    }
}

/// Renders a wire boolean.
pub fn yn_slice(b: bool) -> (r: &'static str)
    ensures
        r@ == yn_view(b),
{
    proof {
        reveal_strlit("Y");
        reveal_strlit("N");
    }
    if b {
        "Y"
    } else {
        "N"
    }
}

// ---------------------------------------------------------------------------
// Encoding: the wire field list of a packet
// ---------------------------------------------------------------------------

/// The seven wire fields of one roster entry.
pub open spec fn player_fields(p: PlayerView) -> Seq<Seq<char>> {
    seq![
        dec_str(p.uid as nat),
        p.nickname,
        dec_str(p.pers_car_comp_id as nat),
        dec_str(p.front_car_comp_id as nat),
        dec_str(p.fwheel_car_comp_id as nat),
        dec_str(p.bwheel_car_comp_id as nat),
        yn_view(p.is_robot),
    ]
}

pub open spec fn players_fields(ps: Seq<PlayerView>) -> Seq<Seq<char>>
    decreases ps.len(),
{
    if ps.len() == 0 {
        Seq::empty()
    } else {
        players_fields(ps.drop_last()) + player_fields(ps.last())
    }
}

/// The eleven wire fields of one step entry (the step number itself stands
/// once, before the entries of its block).
pub open spec fn turn_fields(t: TurnInfoView) -> Seq<Seq<char>> {
    seq![
        dec_str(t.player_id as nat),
        yn_view(t.is_finished),
        dec_str(t.rank as nat),
        dec_str(t.move_time as nat),
        dec_str(t.move_steps as nat),
        dec_str(t.bottles_cnt as nat),
        dec_str(t.total_seeds_cnt as nat),
        dec_str(t.arcanes_cnt as nat),
        dec_str(t.destroys_cnt as nat),
        dec_str(t.user_seeds_cnt as nat),
        t.seeds,
    ]
}

pub open spec fn turns_fields(ts: Seq<TurnInfoView>) -> Seq<Seq<char>>
    decreases ts.len(),
{
    if ts.len() == 0 {
        Seq::empty()
    } else {
        turns_fields(ts.drop_last()) + turn_fields(ts.last())
    }
}

/// The highest step number present, 0 when there are no entries.
pub open spec fn max_step_view(ts: Seq<TurnInfoView>) -> u32
    decreases ts.len(),
{
    if ts.len() == 0 {
        0
    } else {
        let m = max_step_view(ts.drop_last());
        if ts.last().step_number > m {
            ts.last().step_number
        } else {
            m
        }
    }
}

/// Membership in one step.
pub open spec fn at_step(m: u32) -> spec_fn(TurnInfoView) -> bool {
    |t: TurnInfoView| t.step_number == m
}

/// The roster entries a packet puts on the wire: none at all for the packet
/// types that suppress the roster.
pub open spec fn emitted_players(p: PacketView) -> Seq<PlayerView> {
    if p.players.len() > 0 && !p.t_type.suppresses_players() {
        p.players
    } else {
        Seq::empty()
    }
}

/// The step entries a packet puts on the wire: only those at the highest
/// step number present; the rest are silently dropped.
pub open spec fn emitted_steps(p: PacketView) -> Seq<TurnInfoView> {
    p.steps.filter(at_step(max_step_view(p.steps)))
}

/// The fixed-position header: tag through the discarded address block.
pub open spec fn header_fields(p: PacketView) -> Seq<Seq<char>> {
    seq![
        "KDLAB"@,
        dec_str(p.version as nat),
        dec_str(p.t_type.spec_code() as nat),
        dec_str(p.gmid as nat),
        dec_str(p.language.spec_code() as nat),
        dec_str(p.game_owner_pid as nat),
        dec_str(p.packet_owner_pid as nat),
        p.password,
        dec_str(p.kd_world_id as nat),
        dec_str(p.kd_route_id as nat),
        dec_str(p.game_rnd as nat),
        p.game_type.wire_view(),
        dec_str(p.laps as nat),
        dec_str(p.seeds as nat),
        dec_str(p.duration as nat),
        dec_str(p.move_cnt as nat),
        dec_str(emitted_players(p).len()),
        dec_str(emitted_steps(p).len()),
        yn_view(p.is_express),
        p.url.post,
        dec_str(p.url.post_port as nat),
        p.url.post_path,
        p.url.sreturn,
    ]
}

/// The one step block a packet emits: highest step number, entry count, then
/// the entries.  An empty entry list emits nothing at all.
pub open spec fn steps_section(p: PacketView) -> Seq<Seq<char>> {
    let es = emitted_steps(p);
    if es.len() == 0 {
        Seq::empty()
    } else {
        seq![dec_str(max_step_view(p.steps) as nat), dec_str(es.len() as nat)] + turns_fields(es)
    }
}

/// Every wire field of a packet, in order.
pub open spec fn packet_wire_fields(p: PacketView) -> Seq<Seq<char>> {
    header_fields(p) + players_fields(emitted_players(p)) + steps_section(p) + seq!["BITRIX"@]
}

impl Packet {
    /// Encodes the packet as one semicolon-joined wire record.
    pub fn encode(&self) -> (r: String)
        ensures
            r@ == crate::text::join_semi(packet_wire_fields(self@)),
    {
        let ghost pv = self@;
        let ghost sv = self@.steps;
        let mut ret: Vec<String> = Vec::new();
        ret.push("KDLAB".to_owned());
        ret.push(u64_to_dec(self.version as u64));
        ret.push(u64_to_dec(self.t_type.code() as u64));
        ret.push(u64_to_dec(self.gmid as u64));
        ret.push(u64_to_dec(self.language.code() as u64));
        ret.push(u64_to_dec(self.game_owner_pid as u64));
        ret.push(u64_to_dec(self.packet_owner_pid as u64));
        ret.push(self.password.clone());
        ret.push(u64_to_dec(self.kd_world_id as u64));
        ret.push(u64_to_dec(self.kd_route_id as u64));
        ret.push(u64_to_dec(self.game_rnd as u64));
        ret.push(self.game_type.wire_char().to_owned());
        ret.push(u64_to_dec(self.laps as u64));
        ret.push(u64_to_dec(self.seeds as u64));
        ret.push(u64_to_dec(self.duration as u64));
        ret.push(u64_to_dec(self.move_cnt as u64));

        let emit_players: bool = self.players.len() > 0 && !matches!(
            self.t_type,
            PacketType::OG_SEEDS_PACKET
            | PacketType::OG_REFRESH_PACKET
            | PacketType::OG_REFRESH_ANSWER_PACKET
        );
        proof {
            assert(emit_players == (pv.players.len() > 0 && !pv.t_type.suppresses_players()));
            if emit_players {
                assert(emitted_players(pv) == pv.players);
            } else {
                assert(emitted_players(pv) == Seq::<PlayerView>::empty());
            }
        }
        let pcnt: usize = if emit_players {
            self.players.len()
        } else {
            0
        };

        let mut max_step: u32 = 0;
        let mut i: usize = 0;
        while i < self.steps.len()
            invariant
                0 <= i <= self.steps.len(),
                sv == self@.steps,
                sv.len() == self.steps.len(),
                max_step == max_step_view(sv.take(i as int)),
            decreases self.steps.len() - i,
        {
            proof {
                assert(sv.take(i + 1).drop_last() =~= sv.take(i as int));
                assert(sv.take(i + 1).last() == sv[i as int]);
                assert(sv[i as int] == self.steps@[i as int]@);
            }
            if self.steps[i].step_number > max_step {
                max_step = self.steps[i].step_number;
            }
            i = i + 1;
        }
        proof {
            assert(sv.take(sv.len() as int) =~= sv);
            assert(max_step == max_step_view(sv));
        }

        let mut scnt: usize = 0;
        let mut i: usize = 0;
        while i < self.steps.len()
            invariant
                0 <= i <= self.steps.len(),
                sv == self@.steps,
                sv.len() == self.steps.len(),
                max_step == max_step_view(sv),
                scnt == sv.take(i as int).filter(at_step(max_step)).len(),
                scnt <= i,
            decreases self.steps.len() - i,
        {
            proof {
                reveal(Seq::filter);
                assert(sv.take(i + 1).drop_last() =~= sv.take(i as int));
                assert(sv.take(i + 1).last() == sv[i as int]);
                assert(sv[i as int] == self.steps@[i as int]@);
                if sv[i as int].step_number == max_step {
                    assert(sv.take(i + 1).filter(at_step(max_step)) == sv.take(i as int).filter(
                        at_step(max_step),
                    ).push(sv[i as int]));
                } else {
                    assert(sv.take(i + 1).filter(at_step(max_step)) == sv.take(i as int).filter(
                        at_step(max_step),
                    ));
                }
            }
            if self.steps[i].step_number == max_step {
                scnt = scnt + 1;
            }
            i = i + 1;
        }
        proof {
            assert(sv.take(sv.len() as int) =~= sv);
            assert(scnt == emitted_steps(pv).len());
        }

        ret.push(u64_to_dec(pcnt as u64));
        ret.push(u64_to_dec(scnt as u64));
        ret.push(yn_slice(self.is_express).to_owned());
        ret.push(self.url.post.clone());
        ret.push(u64_to_dec(self.url.post_port as u64));
        ret.push(self.url.post_path.clone());
        ret.push(self.url.sreturn.clone());
        proof {
            assert(crate::text::views(ret@) =~= header_fields(pv));
        }

        if emit_players {
            let ghost psv = pv.players;
            let mut i: usize = 0;
            while i < self.players.len()
                invariant
                    0 <= i <= self.players.len(),
                    psv == self@.players,
                    psv.len() == self.players.len(),
                    crate::text::views(ret@) == header_fields(pv) + players_fields(
                        psv.take(i as int),
                    ),
                decreases self.players.len() - i,
            {
                let ghost pre = crate::text::views(ret@);
                let p = &self.players[i];
                ret.push(u64_to_dec(p.uid as u64));
                ret.push(p.nickname.clone());
                ret.push(u64_to_dec(p.pers_car_comp_id as u64));
                ret.push(u64_to_dec(p.front_car_comp_id as u64));
                ret.push(u64_to_dec(p.fwheel_car_comp_id as u64));
                ret.push(u64_to_dec(p.bwheel_car_comp_id as u64));
                ret.push(yn_slice(p.is_robot).to_owned());
                proof {
                    assert(psv[i as int] == self.players@[i as int]@);
                    assert(crate::text::views(ret@) =~= pre + player_fields(psv[i as int]));
                    assert(psv.take(i + 1).drop_last() =~= psv.take(i as int));
                    assert(psv.take(i + 1).last() == psv[i as int]);
                    assert(crate::text::views(ret@) =~= header_fields(pv) + players_fields(
                        psv.take(i + 1),
                    ));
                }
                i = i + 1;
            }
            proof {
                assert(psv.take(psv.len() as int) =~= psv);
            }
        }
        proof {
            assert(crate::text::views(ret@) =~= header_fields(pv) + players_fields(
                emitted_players(pv),
            ));
        }

        let ghost before_steps = crate::text::views(ret@);
        if scnt > 0 {
            ret.push(u64_to_dec(max_step as u64));
            ret.push(u64_to_dec(scnt as u64));
            let mut i: usize = 0;
            while i < self.steps.len()
                invariant
                    0 <= i <= self.steps.len(),
                    sv == self@.steps,
                    sv.len() == self.steps.len(),
                    max_step == max_step_view(sv),
                    crate::text::views(ret@) == before_steps + seq![
                        dec_str(max_step as nat),
                        dec_str(emitted_steps(self@).len() as nat),
                    ] + turns_fields(sv.take(i as int).filter(at_step(max_step))),
                    before_steps == header_fields(self@) + players_fields(emitted_players(self@)),
                    scnt == emitted_steps(self@).len(),
                decreases self.steps.len() - i,
            {
                proof {
                    reveal(Seq::filter);
                    assert(sv.take(i + 1).drop_last() =~= sv.take(i as int));
                    assert(sv.take(i + 1).last() == sv[i as int]);
                    assert(sv[i as int] == self.steps@[i as int]@);
                }
                if self.steps[i].step_number == max_step {
                    let ghost pre = crate::text::views(ret@);
                    let t = &self.steps[i];
                    ret.push(u64_to_dec(t.player_id as u64));
                    ret.push(yn_slice(t.is_finished).to_owned());
                    ret.push(u64_to_dec(t.rank as u64));
                    ret.push(u64_to_dec(t.move_time as u64));
                    ret.push(u64_to_dec(t.move_steps as u64));
                    ret.push(u64_to_dec(t.bottles_cnt as u64));
                    ret.push(u64_to_dec(t.total_seeds_cnt as u64));
                    ret.push(u64_to_dec(t.arcanes_cnt as u64));
                    ret.push(u64_to_dec(t.destroys_cnt as u64));
                    ret.push(u64_to_dec(t.user_seeds_cnt as u64));
                    ret.push(t.seeds.clone());
                    proof {
                        assert(crate::text::views(ret@) =~= pre + turn_fields(sv[i as int]));
                        let fpre = sv.take(i as int).filter(at_step(max_step));
                        let fpost = sv.take(i + 1).filter(at_step(max_step));
                        assert(fpost == fpre.push(sv[i as int])) by {
                            reveal(Seq::filter);
                        }
                        assert(turns_fields(fpost) == turns_fields(fpre) + turn_fields(
                            sv[i as int],
                        )) by {
                            assert(fpost.drop_last() =~= fpre);
                            assert(fpost.last() == sv[i as int]);
                        }
                        assert(crate::text::views(ret@) =~= before_steps + seq![
                            dec_str(max_step as nat),
                            dec_str(emitted_steps(self@).len() as nat),
                        ] + turns_fields(fpost));
                    }
                } else {
                    proof {
                        reveal(Seq::filter);
                        assert(sv.take(i + 1).filter(at_step(max_step)) == sv.take(
                            i as int,
                        ).filter(at_step(max_step)));
                    }
                }
                i = i + 1;
            }
            proof {
                assert(sv.take(sv.len() as int) =~= sv);
                assert(crate::text::views(ret@) =~= before_steps + steps_section(pv));
            }
        } else {
            proof {
                assert(steps_section(pv) =~= Seq::<Seq<char>>::empty());
                assert(crate::text::views(ret@) =~= before_steps + steps_section(pv));
            }
        }

        ret.push("BITRIX".to_owned());
        proof {
            assert(crate::text::views(ret@) =~= packet_wire_fields(pv));
        }
        crate::text::join_fields(&ret)
    }
}

// ---------------------------------------------------------------------------
// Decoding: positional parsing of the wire field list
// ---------------------------------------------------------------------------

/// The field at position `i`, if the record has one.
pub open spec fn get_field(fs: Seq<Seq<char>>, i: int) -> Option<Seq<char>> {
    if 0 <= i < fs.len() {
        Some(fs[i])
    } else {
        None
    }
}

/// An unsigned decimal field at position `i`, bounded by `max`.
pub open spec fn f_dec(fs: Seq<Seq<char>>, i: int, max: nat) -> Option<nat> {
    match get_field(fs, i) {
        Some(s) => match crate::text::parse_dec(s) {
            Some(v) => if v <= max {
                Some(v)
            } else {
                None
            },
            None => None,
        },
        None => None,
    }
}

pub open spec fn f_u32(fs: Seq<Seq<char>>, i: int) -> Option<u32> {
    match f_dec(fs, i, u32::MAX as nat) {
        Some(v) => Some(v as u32),
        None => None,
    }
}

pub open spec fn f_u16(fs: Seq<Seq<char>>, i: int) -> Option<u16> {
    match f_dec(fs, i, u16::MAX as nat) {
        Some(v) => Some(v as u16),
        None => None,
    }
}

pub open spec fn f_u8(fs: Seq<Seq<char>>, i: int) -> Option<u8> {
    match f_dec(fs, i, u8::MAX as nat) {
        Some(v) => Some(v as u8),
        None => None,
    }
}

pub open spec fn f_usize(fs: Seq<Seq<char>>, i: int) -> Option<usize> {
    match f_dec(fs, i, usize::MAX as nat) {
        Some(v) => Some(v as usize),
        None => None,
    }
}

pub open spec fn f_i32(fs: Seq<Seq<char>>, i: int) -> Option<i32> {
    match get_field(fs, i) {
        Some(s) => match crate::text::parse_signed(s) {
            Some(v) => if i32::MIN <= v <= i32::MAX {
                Some(v as i32)
            } else {
                None
            },
            None => None,
        },
        None => None,
    }
}

/// A wire boolean: the field must exist, and only `Y` means true.
pub open spec fn f_yn(fs: Seq<Seq<char>>, i: int) -> Option<bool> {
    match get_field(fs, i) {
        Some(s) => Some(s == "Y"@),
        None => None,
    }
}

/// One roster entry read at position `i`; decoded entries never carry a
/// password.
pub open spec fn parse_player_at(fs: Seq<Seq<char>>, i: int) -> Option<PlayerView> {
    match (
        f_u32(fs, i),
        get_field(fs, i + 1),
        f_u32(fs, i + 2),
        f_u32(fs, i + 3),
        f_u32(fs, i + 4),
        f_u32(fs, i + 5),
        f_yn(fs, i + 6),
    ) {
        (
            Some(uid),
            Some(nickname),
            Some(pers),
            Some(front),
            Some(fwheel),
            Some(bwheel),
            Some(is_robot),
        ) => Some(
            PlayerView {
                uid,
                nickname,
                pers_car_comp_id: pers,
                front_car_comp_id: front,
                fwheel_car_comp_id: fwheel,
                bwheel_car_comp_id: bwheel,
                is_robot,
                password: None,
            },
        ),
        _ => None,
    }
}

/// `cnt` roster entries from position `i`, with the position after them.
pub open spec fn parse_players_at(fs: Seq<Seq<char>>, i: int, cnt: nat) -> Option<
    (Seq<PlayerView>, int),
>
    decreases cnt,
{
    if cnt == 0 {
        Some((Seq::empty(), i))
    } else {
        match parse_player_at(fs, i) {
            Some(p) => match parse_players_at(fs, i + 7, (cnt - 1) as nat) {
                Some((ps, j)) => Some((seq![p] + ps, j)),
                None => None,
            },
            None => None,
        }
    }
}

/// One step entry read at position `i`, belonging to step `step`.
pub open spec fn parse_turn_at(fs: Seq<Seq<char>>, i: int, step: u32) -> Option<TurnInfoView> {
    match (
        f_u32(fs, i),
        f_yn(fs, i + 1),
        f_u32(fs, i + 2),
        f_u32(fs, i + 3),
        f_u32(fs, i + 4),
        f_u32(fs, i + 5),
        f_u32(fs, i + 6),
        f_u32(fs, i + 7),
        f_u32(fs, i + 8),
        f_u32(fs, i + 9),
        get_field(fs, i + 10),
    ) {
        (
            Some(player_id),
            Some(is_finished),
            Some(rank),
            Some(move_time),
            Some(move_steps),
            Some(bottles_cnt),
            Some(total_seeds_cnt),
            Some(arcanes_cnt),
            Some(destroys_cnt),
            Some(user_seeds_cnt),
            Some(seeds),
        ) => Some(
            TurnInfoView {
                step_number: step,
                player_id,
                is_finished,
                rank,
                move_time,
                move_steps,
                bottles_cnt,
                total_seeds_cnt,
                arcanes_cnt,
                destroys_cnt,
                user_seeds_cnt,
                seeds,
            },
        ),
        _ => None,
    }
}

/// `cnt` step entries from position `i`, with the position after them.
pub open spec fn parse_turns_at(fs: Seq<Seq<char>>, i: int, step: u32, cnt: nat) -> Option<
    (Seq<TurnInfoView>, int),
>
    decreases cnt,
{
    if cnt == 0 {
        Some((Seq::empty(), i))
    } else {
        match parse_turn_at(fs, i, step) {
            Some(t) => match parse_turns_at(fs, i + 11, step, (cnt - 1) as nat) {
                Some((ts, j)) => Some((seq![t] + ts, j)),
                None => None,
            },
            None => None,
        }
    }
}

/// `blocks` step blocks from position `i`: each opens with a step number and
/// an entry count; a count below one contributes no entries.  All entries of
/// all blocks are flattened into one list.
pub open spec fn parse_blocks_at(fs: Seq<Seq<char>>, i: int, blocks: nat) -> Option<
    (Seq<TurnInfoView>, int),
>
    decreases blocks,
{
    if blocks == 0 {
        Some((Seq::empty(), i))
    } else {
        match (f_u32(fs, i), f_i32(fs, i + 1)) {
            (Some(step), Some(tc)) => {
                let cnt: nat = if tc > 0 {
                    tc as nat
                } else {
                    0
                };
                match parse_turns_at(fs, i + 2, step, cnt) {
                    Some((ts, j)) => match parse_blocks_at(fs, j, (blocks - 1) as nat) {
                        Some((ts2, k)) => Some((ts + ts2, k)),
                        None => None,
                    },
                    None => None,
                }
            },
            _ => None,
        }
    }
}

/// The packet a wire field list decodes to, or nothing when a field is
/// missing or fails its scalar parse.  Everything after the last parsed
/// position is tolerated as trailing data.
pub open spec fn parse_packet_fields(fs: Seq<Seq<char>>) -> Option<PacketView> {
    if fs.len() == 0 || fs[0] != "KDLAB"@ {
        None
    } else {
        match (
            f_usize(fs, 1),
            f_u8(fs, 2),
            f_u32(fs, 3),
            f_u8(fs, 4),
            f_u32(fs, 5),
            f_u32(fs, 6),
            get_field(fs, 7),
        ) {
            (
                Some(version),
                Some(tcode),
                Some(gmid),
                Some(lang_code),
                Some(game_owner_pid),
                Some(packet_owner_pid),
                Some(password),
            ) => match (PacketType::spec_from_u8(tcode), Language::spec_from_u8(lang_code)) {
                (Some(t_type), Some(language)) => match (
                    f_u8(fs, 8),
                    f_u8(fs, 9),
                    f_u16(fs, 10),
                    get_field(fs, 11),
                    f_u32(fs, 12),
                    f_u32(fs, 13),
                    f_u32(fs, 14),
                    f_u32(fs, 15),
                ) {
                    (
                        Some(kd_world_id),
                        Some(kd_route_id),
                        Some(game_rnd),
                        Some(gt_field),
                        Some(laps),
                        Some(seeds),
                        Some(duration),
                        Some(move_cnt),
                    ) => match GameType::from_wire_view(gt_field) {
                        Some(game_type) => match (f_usize(fs, 16), f_usize(fs, 17), f_yn(fs, 18)) {
                            (Some(players_cnt), Some(steps_cnt), Some(is_express)) => {
                                let pr = if players_cnt > 0 && !t_type.suppresses_players() {
                                    parse_players_at(fs, 23, players_cnt as nat)
                                } else {
                                    Some((Seq::empty(), 23))
                                };
                                match pr {
                                    Some((players, pi)) => match parse_blocks_at(
                                        fs,
                                        pi,
                                        steps_cnt as nat,
                                    ) {
                                        Some((steps, _)) => Some(
                                            PacketView {
                                                version,
                                                t_type,
                                                gmid,
                                                language,
                                                game_owner_pid,
                                                packet_owner_pid,
                                                password,
                                                kd_world_id,
                                                kd_route_id,
                                                game_rnd,
                                                game_type,
                                                laps,
                                                seeds,
                                                duration,
                                                move_cnt,
                                                is_express,
                                                url: UrlView::empty(),
                                                players,
                                                steps,
                                            },
                                        ),
                                        None => None,
                                    },
                                    None => None,
                                }
                            },
                            _ => None,
                        },
                        None => None,
                    },
                    _ => None,
                },
                _ => None,
            },
            _ => None,
        }
    }
}

/// The packet a wire text decodes to.
pub open spec fn parse_packet_text(s: Seq<char>) -> Option<PacketView> {
    parse_packet_fields(crate::text::split_semi(s))
}

// ---------------------------------------------------------------------------
// Decoding: executable field readers
// ---------------------------------------------------------------------------

fn read_dec(fields: &Vec<String>, i: usize, max: u64) -> (r: Option<u64>)
    ensures
        match f_dec(crate::text::views(fields@), i as int, max as nat) {
            Some(v) => r is Some && r->0 == v,
            None => r is None,
        },
{
    if i < fields.len() {
        proof {
            assert(crate::text::views(fields@)[i as int] == fields@[i as int]@);
        }
        crate::text::parse_dec_field(fields[i].as_str(), max)
    } else {
        None
    }
}

fn read_u32(fields: &Vec<String>, i: usize) -> (r: Option<u32>)
    ensures
        r == f_u32(crate::text::views(fields@), i as int),
{
    match read_dec(fields, i, 0xFFFF_FFFFu64) {
        Some(v) => Some(v as u32),
        None => None,
    }
}

fn read_u16(fields: &Vec<String>, i: usize) -> (r: Option<u16>)
    ensures
        r == f_u16(crate::text::views(fields@), i as int),
{
    match read_dec(fields, i, 0xFFFFu64) {
        Some(v) => Some(v as u16),
        None => None,
    }
}

fn read_u8(fields: &Vec<String>, i: usize) -> (r: Option<u8>)
    ensures
        r == f_u8(crate::text::views(fields@), i as int),
{
    match read_dec(fields, i, 0xFFu64) {
        Some(v) => Some(v as u8),
        None => None,
    }
}

fn read_usize(fields: &Vec<String>, i: usize) -> (r: Option<usize>)
    ensures
        r == f_usize(crate::text::views(fields@), i as int),
{
    match read_dec(fields, i, usize::MAX as u64) {
        Some(v) => Some(v as usize),
        None => None,
    }
}

fn read_i32(fields: &Vec<String>, i: usize) -> (r: Option<i32>)
    ensures
        r == f_i32(crate::text::views(fields@), i as int),
{
    if i < fields.len() {
        proof {
            assert(crate::text::views(fields@)[i as int] == fields@[i as int]@);
        }
        crate::text::parse_i32_field(fields[i].as_str())
    } else {
        None
    }
}

fn read_yn(fields: &Vec<String>, i: usize) -> (r: Option<bool>)
    ensures
        r == f_yn(crate::text::views(fields@), i as int),
{
    if i < fields.len() {
        proof {
            assert(crate::text::views(fields@)[i as int] == fields@[i as int]@);
        }
        Some(crate::text::str_eq(fields[i].as_str(), "Y"))
    } else {
        None
    }
}

fn read_string(fields: &Vec<String>, i: usize) -> (r: Option<String>)
    ensures
        match get_field(crate::text::views(fields@), i as int) {
            Some(s) => r is Some && r->0@ == s,
            None => r is None,
        },
{
    if i < fields.len() {
        proof {
            assert(crate::text::views(fields@)[i as int] == fields@[i as int]@);
        }
        Some(fields[i].clone())
    } else {
        None
    }
}

// ---------------------------------------------------------------------------
// Decoding: executable structure readers
// ---------------------------------------------------------------------------

fn read_player_at(fields: &Vec<String>, i: usize) -> (r: Option<Player>)
    ensures
        match parse_player_at(crate::text::views(fields@), i as int) {
            Some(pv) => r is Some && r->0@ == pv,
            None => r is None,
        },
{
    if fields.len() < 7 || i > fields.len() - 7 {
        proof {
            assert(get_field(crate::text::views(fields@), i + 6) is None);
        }
        return None;
    }
    let uid = match read_u32(fields, i) {
        Some(v) => v,
        None => {
            return None;
        },
    };
    let nickname = match read_string(fields, i + 1) {
        Some(v) => v,
        None => {
            return None;
        },
    };
    let pers = match read_u32(fields, i + 2) {
        Some(v) => v,
        None => {
            return None;
        },
    };
    let front = match read_u32(fields, i + 3) {
        Some(v) => v,
        None => {
            return None;
        },
    };
    let fwheel = match read_u32(fields, i + 4) {
        Some(v) => v,
        None => {
            return None;
        },
    };
    let bwheel = match read_u32(fields, i + 5) {
        Some(v) => v,
        None => {
            return None;
        },
    };
    let is_robot = match read_yn(fields, i + 6) {
        Some(v) => v,
        None => {
            return None;
        },
    };
    Some(
        Player {
            uid,
            nickname,
            pers_car_comp_id: pers,
            front_car_comp_id: front,
            fwheel_car_comp_id: fwheel,
            bwheel_car_comp_id: bwheel,
            is_robot,
            password: None,
        },
    )
}

fn read_players_at(fields: &Vec<String>, i: usize, cnt: usize) -> (r: Option<(Vec<Player>, usize)>)
    ensures
        match parse_players_at(crate::text::views(fields@), i as int, cnt as nat) {
            Some((ps, j)) => r is Some && (r->0).0@.map_values(|p: Player| p@) == ps && (r->0).1 == j,
            None => r is None,
        },
    decreases cnt,
{
    if cnt == 0 {
        let ps: Vec<Player> = Vec::new();
        proof {
            assert(ps@.map_values(|p: Player| p@) =~= Seq::<PlayerView>::empty());
        }
        return Some((ps, i));
    }
    let p = match read_player_at(fields, i) {
        Some(p) => p,
        None => {
            return None;
        },
    };
    let flen = fields.len();
    proof {
        // the seventh field of the entry exists, so `i + 7` stays in range
        assert(get_field(crate::text::views(fields@), i + 6) is Some);
        assert(i + 7 <= flen);
    }
    match read_players_at(fields, i + 7, cnt - 1) {
        Some((mut ps, j)) => {
            ps.insert(0, p);
            proof {
                let ghost f = |p: Player| p@;
                assert(ps@.map_values(f) =~= seq![p@] + ps@.drop_first().map_values(f));
            }
            Some((ps, j))
        },
        None => None,
    }
}

fn read_turn_at(fields: &Vec<String>, i: usize, step: u32) -> (r: Option<PlayerTurnInfo>)
    ensures
        match parse_turn_at(crate::text::views(fields@), i as int, step) {
            Some(tv) => r is Some && r->0@ == tv,
            None => r is None,
        },
{
    if fields.len() < 11 || i > fields.len() - 11 {
        proof {
            assert(get_field(crate::text::views(fields@), i + 10) is None);
        }
        return None;
    }
    let player_id = match read_u32(fields, i) {
        Some(v) => v,
        None => {
            return None;
        },
    };
    let is_finished = match read_yn(fields, i + 1) {
        Some(v) => v,
        None => {
            return None;
        },
    };
    let rank = match read_u32(fields, i + 2) {
        Some(v) => v,
        None => {
            return None;
        },
    };
    let move_time = match read_u32(fields, i + 3) {
        Some(v) => v,
        None => {
            return None;
        },
    };
    let move_steps = match read_u32(fields, i + 4) {
        Some(v) => v,
        None => {
            return None;
        },
    };
    let bottles_cnt = match read_u32(fields, i + 5) {
        Some(v) => v,
        None => {
            return None;
        },
    };
    let total_seeds_cnt = match read_u32(fields, i + 6) {
        Some(v) => v,
        None => {
            return None;
        },
    };
    let arcanes_cnt = match read_u32(fields, i + 7) {
        Some(v) => v,
        None => {
            return None;
        },
    };
    let destroys_cnt = match read_u32(fields, i + 8) {
        Some(v) => v,
        None => {
            return None;
        },
    };
    let user_seeds_cnt = match read_u32(fields, i + 9) {
        Some(v) => v,
        None => {
            return None;
        },
    };
    let seeds = match read_string(fields, i + 10) {
        Some(v) => v,
        None => {
            return None;
        },
    };
    Some(
        PlayerTurnInfo {
            step_number: step,
            player_id,
            is_finished,
            rank,
            move_time,
            move_steps,
            bottles_cnt,
            total_seeds_cnt,
            arcanes_cnt,
            destroys_cnt,
            user_seeds_cnt,
            seeds,
        },
    )
}

fn read_turns_at(fields: &Vec<String>, i: usize, step: u32, cnt: usize) -> (r: Option<
    (Vec<PlayerTurnInfo>, usize),
>)
    ensures
        match parse_turns_at(crate::text::views(fields@), i as int, step, cnt as nat) {
            Some((ts, j)) => r is Some && (r->0).0@.map_values(|t: PlayerTurnInfo| t@) == ts
                && (r->0).1 == j,
            None => r is None,
        },
    decreases cnt,
{
    if cnt == 0 {
        let ts: Vec<PlayerTurnInfo> = Vec::new();
        proof {
            assert(ts@.map_values(|t: PlayerTurnInfo| t@) =~= Seq::<TurnInfoView>::empty());
        }
        return Some((ts, i));
    }
    let t = match read_turn_at(fields, i, step) {
        Some(t) => t,
        None => {
            return None;
        },
    };
    let flen = fields.len();
    proof {
        // the eleventh field of the entry exists, so `i + 11` stays in range
        assert(get_field(crate::text::views(fields@), i + 10) is Some);
        assert(i + 11 <= flen);
    }
    match read_turns_at(fields, i + 11, step, cnt - 1) {
        Some((mut ts, j)) => {
            ts.insert(0, t);
            proof {
                let ghost f = |t: PlayerTurnInfo| t@;
                assert(ts@.map_values(f) =~= seq![t@] + ts@.drop_first().map_values(f));
            }
            Some((ts, j))
        },
        None => None,
    }
}

fn read_blocks_at(fields: &Vec<String>, i: usize, blocks: usize) -> (r: Option<
    (Vec<PlayerTurnInfo>, usize),
>)
    ensures
        match parse_blocks_at(crate::text::views(fields@), i as int, blocks as nat) {
            Some((ts, j)) => r is Some && (r->0).0@.map_values(|t: PlayerTurnInfo| t@) == ts
                && (r->0).1 == j,
            None => r is None,
        },
    decreases blocks,
{
    if blocks == 0 {
        let ts: Vec<PlayerTurnInfo> = Vec::new();
        proof {
            assert(ts@.map_values(|t: PlayerTurnInfo| t@) =~= Seq::<TurnInfoView>::empty());
        }
        return Some((ts, i));
    }
    if i >= fields.len() {
        return None;
    }
    let step = match read_u32(fields, i) {
        Some(v) => v,
        None => {
            return None;
        },
    };
    let tc = match read_i32(fields, i + 1) {
        Some(v) => v,
        None => {
            return None;
        },
    };
    let cnt: usize = if tc > 0 {
        tc as usize
    } else {
        0
    };
    let (mut ts, j) = match read_turns_at(fields, i + 2, step, cnt) {
        Some(p) => p,
        None => {
            return None;
        },
    };
    match read_blocks_at(fields, j, blocks - 1) {
        Some((mut ts2, k)) => {
            let ghost tsv = ts@;
            let ghost ts2v = ts2@;
            ts.append(&mut ts2);
            proof {
                let ghost f = |t: PlayerTurnInfo| t@;
                assert(ts@.map_values(f) =~= tsv.map_values(f) + ts2v.map_values(f));
            }
            Some((ts, k))
        },
        None => None,
    }
}

impl Packet {
    /// Decodes one wire record; yields nothing unless the record opens with
    /// the `KDLAB` tag and every field parses at its position.  Trailing
    /// data after the parsed fields is tolerated.
    pub fn decode(input: &str) -> (r: Option<Packet>)
        ensures
            match parse_packet_text(input@) {
                Some(pv) => r is Some && r->0@ == pv,
                None => r is None,
            },
    {
        let fields = crate::text::split_fields(input);
        let ghost fs = crate::text::views(fields@);
        proof {
            crate::text::lemma_split_len(input@);
            assert(fields@.len() >= 1);
            assert(fs[0] == fields@[0]@);
        }
        if !crate::text::str_eq(fields[0].as_str(), "KDLAB") {
            return None;
        }
        let version = match read_usize(&fields, 1) {
            Some(v) => v,
            None => {
                return None;
            },
        };
        let tcode = match read_u8(&fields, 2) {
            Some(v) => v,
            None => {
                return None;
            },
        };
        let t_type = match PacketType::from_u8(tcode) {
            Some(t) => t,
            None => {
                return None;
            },
        };
        let gmid = match read_u32(&fields, 3) {
            Some(v) => v,
            None => {
                return None;
            },
        };
        let lang_code = match read_u8(&fields, 4) {
            Some(v) => v,
            None => {
                return None;
            },
        };
        let language = match Language::from_u8(lang_code) {
            Some(l) => l,
            None => {
                return None;
            },
        };
        let game_owner_pid = match read_u32(&fields, 5) {
            Some(v) => v,
            None => {
                return None;
            },
        };
        let packet_owner_pid = match read_u32(&fields, 6) {
            Some(v) => v,
            None => {
                return None;
            },
        };
        let password = match read_string(&fields, 7) {
            Some(v) => v,
            None => {
                return None;
            },
        };
        let kd_world_id = match read_u8(&fields, 8) {
            Some(v) => v,
            None => {
                return None;
            },
        };
        let kd_route_id = match read_u8(&fields, 9) {
            Some(v) => v,
            None => {
                return None;
            },
        };
        let game_rnd = match read_u16(&fields, 10) {
            Some(v) => v,
            None => {
                return None;
            },
        };
        let gt_field = match read_string(&fields, 11) {
            Some(v) => v,
            None => {
                return None;
            },
        };
        let game_type = match GameType::from_wire(gt_field.as_str()) {
            Some(g) => g,
            None => {
                return None;
            },
        };
        let laps = match read_u32(&fields, 12) {
            Some(v) => v,
            None => {
                return None;
            },
        };
        let seeds = match read_u32(&fields, 13) {
            Some(v) => v,
            None => {
                return None;
            },
        };
        let duration = match read_u32(&fields, 14) {
            Some(v) => v,
            None => {
                return None;
            },
        };
        let move_cnt = match read_u32(&fields, 15) {
            Some(v) => v,
            None => {
                return None;
            },
        };
        let players_cnt = match read_usize(&fields, 16) {
            Some(v) => v,
            None => {
                return None;
            },
        };
        let steps_cnt = match read_usize(&fields, 17) {
            Some(v) => v,
            None => {
                return None;
            },
        };
        let is_express = match read_yn(&fields, 18) {
            Some(v) => v,
            None => {
                return None;
            },
        };

        let emit_players: bool = players_cnt > 0 && !matches!(
            t_type,
            PacketType::OG_SEEDS_PACKET
            | PacketType::OG_REFRESH_PACKET
            | PacketType::OG_REFRESH_ANSWER_PACKET
        );
        proof {
            assert(emit_players == (players_cnt > 0 && !t_type.suppresses_players()));
        }
        let (players, pi) = if emit_players {
            match read_players_at(&fields, 23, players_cnt) {
                Some(p) => p,
                None => {
                    return None;
                },
            }
        } else {
            (Vec::new(), 23)
        };
        proof {
            if !emit_players {
                assert(players@.map_values(|p: Player| p@) =~= Seq::<PlayerView>::empty());
            }
        }
        let steps = match read_blocks_at(&fields, pi, steps_cnt) {
            Some((ts, _)) => ts,
            None => {
                return None;
            },
        };

        let p = Packet {
            version,
            t_type,
            gmid,
            language,
            game_owner_pid,
            packet_owner_pid,
            password,
            kd_world_id,
            kd_route_id,
            game_rnd,
            laps,
            seeds,
            duration,
            move_cnt,
            game_type,
            is_express,
            url: UrlProperty::default(),
            players,
            steps,
        };
        Some(p)
    }
}

// ---------------------------------------------------------------------------
// The codec round trip
// ---------------------------------------------------------------------------

/// A packet whose free-text fields can travel on the wire: none of them may
/// hold the field separator, and the lists must have wire-expressible
/// lengths.
pub open spec fn wire_safe(p: PacketView) -> bool {
    &&& crate::text::no_semi(p.password)
    &&& crate::text::no_semi(p.url.post)
    &&& crate::text::no_semi(p.url.post_path)
    &&& crate::text::no_semi(p.url.sreturn)
    &&& forall|i: int|
        0 <= i < p.players.len() ==> crate::text::no_semi(#[trigger] p.players[i].nickname)
    &&& forall|i: int| 0 <= i < p.steps.len() ==> crate::text::no_semi(#[trigger] p.steps[i].seeds)
    &&& p.players.len() <= usize::MAX
    &&& p.steps.len() <= usize::MAX
}

/// Dropping the password of a roster entry, as the wire does.
pub open spec fn strip_password(q: PlayerView) -> PlayerView {
    PlayerView { password: None, ..q }
}

/// What decoding an encoded packet gives back: the roster only where the
/// packet type carries one and always without passwords, the step entries
/// only at the highest step, and the address block reset.
pub open spec fn round_trip_view(p: PacketView) -> PacketView {
    PacketView {
        url: UrlView::empty(),
        players: emitted_players(p).map_values(|q: PlayerView| strip_password(q)),
        steps: emitted_steps(p),
        ..p
    }
}

proof fn lemma_dec_str_no_semi(n: nat)
    ensures
        crate::text::no_semi(dec_str(n)),
{
    crate::text::lemma_dec_str_wf(n);
    assert forall|i: int| 0 <= i < dec_str(n).len() implies #[trigger] dec_str(n)[i] != ';' by {
        assert(crate::text::is_digit_char(dec_str(n)[i]));
    }
}

proof fn lemma_players_fields_len(ps: Seq<PlayerView>)
    ensures
        players_fields(ps).len() == 7 * ps.len(),
    decreases ps.len(),
{
    if ps.len() > 0 {
        lemma_players_fields_len(ps.drop_last());
    }
}

proof fn lemma_turns_fields_len(ts: Seq<TurnInfoView>)
    ensures
        turns_fields(ts).len() == 11 * ts.len(),
    decreases ts.len(),
{
    if ts.len() > 0 {
        lemma_turns_fields_len(ts.drop_last());
    }
}

proof fn lemma_players_fields_front(ps: Seq<PlayerView>)
    requires
        ps.len() > 0,
    ensures
        players_fields(ps) == player_fields(ps[0]) + players_fields(ps.drop_first()),
    decreases ps.len(),
{
    if ps.len() == 1 {
        assert(ps.drop_last() =~= Seq::<PlayerView>::empty());
        assert(ps.drop_first() =~= Seq::<PlayerView>::empty());
        assert(ps.last() == ps[0]);
        assert(players_fields(ps) =~= player_fields(ps[0]) + players_fields(ps.drop_first()));
    } else {
        lemma_players_fields_front(ps.drop_last());
        assert(ps.drop_last()[0] == ps[0]);
        assert(ps.drop_last().drop_first() =~= ps.drop_first().drop_last());
        assert(ps.drop_first().last() == ps.last());
        assert(players_fields(ps) == players_fields(ps.drop_last()) + player_fields(ps.last()));
        assert(players_fields(ps.drop_first()) == players_fields(ps.drop_first().drop_last())
            + player_fields(ps.drop_first().last()));
        assert(players_fields(ps) =~= player_fields(ps[0]) + players_fields(ps.drop_first()));
    }
}

proof fn lemma_turns_fields_front(ts: Seq<TurnInfoView>)
    requires
        ts.len() > 0,
    ensures
        turns_fields(ts) == turn_fields(ts[0]) + turns_fields(ts.drop_first()),
    decreases ts.len(),
{
    if ts.len() == 1 {
        assert(ts.drop_last() =~= Seq::<TurnInfoView>::empty());
        assert(ts.drop_first() =~= Seq::<TurnInfoView>::empty());
        assert(ts.last() == ts[0]);
        assert(turns_fields(ts) =~= turn_fields(ts[0]) + turns_fields(ts.drop_first()));
    } else {
        lemma_turns_fields_front(ts.drop_last());
        assert(ts.drop_last()[0] == ts[0]);
        assert(ts.drop_last().drop_first() =~= ts.drop_first().drop_last());
        assert(ts.drop_first().last() == ts.last());
        assert(turns_fields(ts) == turns_fields(ts.drop_last()) + turn_fields(ts.last()));
        assert(turns_fields(ts.drop_first()) == turns_fields(ts.drop_first().drop_last())
            + turn_fields(ts.drop_first().last()));
        assert(turns_fields(ts) =~= turn_fields(ts[0]) + turns_fields(ts.drop_first()));
    }
}

/// Parsing a roster region that was written by `players_fields` gives the
/// entries back, passwords dropped.
proof fn lemma_parse_players_section(fs: Seq<Seq<char>>, i: int, ps: Seq<PlayerView>)
    requires
        0 <= i,
        i + 7 * ps.len() <= fs.len(),
        forall|k: int| 0 <= k < 7 * ps.len() ==> fs[i + k] == players_fields(ps)[k],
    ensures
        parse_players_at(fs, i, ps.len()) == Some(
            (ps.map_values(|q: PlayerView| strip_password(q)), i + 7 * ps.len()),
        ),
    decreases ps.len(),
{
    reveal_strlit("Y");
    reveal_strlit("N");
    lemma_players_fields_len(ps);
    if ps.len() == 0 {
        assert(ps.map_values(|q: PlayerView| strip_password(q)) =~= Seq::<PlayerView>::empty());
    } else {
        let p0 = ps[0];
        lemma_players_fields_front(ps);
        lemma_players_fields_len(ps.drop_first());
        assert forall|k: int| 0 <= k < 7 implies fs[i + k] == player_fields(p0)[k] by {
            assert(players_fields(ps)[k] == player_fields(p0)[k]);
        }
        // each of the seven fields of the first entry parses back
        crate::text::lemma_parse_dec_str(p0.uid as nat);
        crate::text::lemma_parse_dec_str(p0.pers_car_comp_id as nat);
        crate::text::lemma_parse_dec_str(p0.front_car_comp_id as nat);
        crate::text::lemma_parse_dec_str(p0.fwheel_car_comp_id as nat);
        crate::text::lemma_parse_dec_str(p0.bwheel_car_comp_id as nat);
        assert(yn_view(true) != yn_view(false)) by {
            reveal_strlit("Y");
            reveal_strlit("N");
            assert("Y"@ =~= seq!['Y']);
            assert("N"@ =~= seq!['N']);
            assert("Y"@[0] == 'Y' && "N"@[0] == 'N');
        }
        assert((yn_view(p0.is_robot) == "Y"@) == p0.is_robot);
        assert(parse_player_at(fs, i) == Some(strip_password(p0)));
        // the rest of the roster parses by induction
        assert forall|k: int| 0 <= k < 7 * ps.drop_first().len() implies fs[(i + 7) + k]
            == players_fields(ps.drop_first())[k] by {
            assert(players_fields(ps)[7 + k] == players_fields(ps.drop_first())[k]);
            assert(fs[i + (7 + k)] == players_fields(ps)[7 + k]);
        }
        lemma_parse_players_section(fs, i + 7, ps.drop_first());
        let f = |q: PlayerView| strip_password(q);
        assert(seq![strip_password(p0)] + ps.drop_first().map_values(f) =~= ps.map_values(f));
    }
}

/// Parsing a step-entry region that was written by `turns_fields` gives the
/// entries back, provided they all belong to the named step.
proof fn lemma_parse_turns_section(fs: Seq<Seq<char>>, i: int, step: u32, ts: Seq<TurnInfoView>)
    requires
        0 <= i,
        i + 11 * ts.len() <= fs.len(),
        forall|k: int| 0 <= k < 11 * ts.len() ==> fs[i + k] == turns_fields(ts)[k],
        forall|j: int| 0 <= j < ts.len() ==> #[trigger] ts[j].step_number == step,
    ensures
        parse_turns_at(fs, i, step, ts.len()) == Some((ts, i + 11 * ts.len())),
    decreases ts.len(),
{
    reveal_strlit("Y");
    reveal_strlit("N");
    lemma_turns_fields_len(ts);
    if ts.len() == 0 {
        assert(parse_turns_at(fs, i, step, 0) == Some((Seq::<TurnInfoView>::empty(), i)));
        assert(ts =~= Seq::<TurnInfoView>::empty());
    } else {
        let t0 = ts[0];
        lemma_turns_fields_front(ts);
        lemma_turns_fields_len(ts.drop_first());
        assert forall|k: int| 0 <= k < 11 implies fs[i + k] == turn_fields(t0)[k] by {
            assert(turns_fields(ts)[k] == turn_fields(t0)[k]);
        }
        crate::text::lemma_parse_dec_str(t0.player_id as nat);
        crate::text::lemma_parse_dec_str(t0.rank as nat);
        crate::text::lemma_parse_dec_str(t0.move_time as nat);
        crate::text::lemma_parse_dec_str(t0.move_steps as nat);
        crate::text::lemma_parse_dec_str(t0.bottles_cnt as nat);
        crate::text::lemma_parse_dec_str(t0.total_seeds_cnt as nat);
        crate::text::lemma_parse_dec_str(t0.arcanes_cnt as nat);
        crate::text::lemma_parse_dec_str(t0.destroys_cnt as nat);
        crate::text::lemma_parse_dec_str(t0.user_seeds_cnt as nat);
        assert(yn_view(true) != yn_view(false)) by {
            reveal_strlit("Y");
            reveal_strlit("N");
            assert("Y"@ =~= seq!['Y']);
            assert("N"@ =~= seq!['N']);
            assert("Y"@[0] == 'Y' && "N"@[0] == 'N');
        }
        assert((yn_view(t0.is_finished) == "Y"@) == t0.is_finished);
        assert(t0.step_number == step);
        assert(parse_turn_at(fs, i, step) is Some);
        assert(parse_turn_at(fs, i, step) == Some(t0)) by {
            assert(parse_turn_at(fs, i, step)->0 =~= t0);
        }
        assert forall|k: int| 0 <= k < 11 * ts.drop_first().len() implies fs[(i + 11) + k]
            == turns_fields(ts.drop_first())[k] by {
            assert(turns_fields(ts)[11 + k] == turns_fields(ts.drop_first())[k]);
            assert(fs[i + (11 + k)] == turns_fields(ts)[11 + k]);
        }
        lemma_parse_turns_section(fs, i + 11, step, ts.drop_first());
        assert(seq![t0] + ts.drop_first() =~= ts);
    }
}

/// What the fixed-position header of an encoded packet parses back to.
pub open spec fn parsed_header_ok(fs: Seq<Seq<char>>, p: PacketView) -> bool {
    &&& fs.len() >= 19
    &&& fs[0] == "KDLAB"@
    &&& f_usize(fs, 1) == Some(p.version)
    &&& f_u8(fs, 2) == Some(p.t_type.spec_code())
    &&& f_u32(fs, 3) == Some(p.gmid)
    &&& f_u8(fs, 4) == Some(p.language.spec_code())
    &&& f_u32(fs, 5) == Some(p.game_owner_pid)
    &&& f_u32(fs, 6) == Some(p.packet_owner_pid)
    &&& get_field(fs, 7) == Some(p.password)
    &&& f_u8(fs, 8) == Some(p.kd_world_id)
    &&& f_u8(fs, 9) == Some(p.kd_route_id)
    &&& f_u16(fs, 10) == Some(p.game_rnd)
    &&& get_field(fs, 11) == Some(p.game_type.wire_view())
    &&& f_u32(fs, 12) == Some(p.laps)
    &&& f_u32(fs, 13) == Some(p.seeds)
    &&& f_u32(fs, 14) == Some(p.duration)
    &&& f_u32(fs, 15) == Some(p.move_cnt)
    &&& f_usize(fs, 16) == Some(emitted_players(p).len() as usize)
    &&& f_usize(fs, 17) == Some(emitted_steps(p).len() as usize)
    &&& f_yn(fs, 18) == Some(p.is_express)
}

/// No wire field of a packet holds the separator.
proof fn lemma_wire_fields_no_semi(p: PacketView)
    requires
        wire_safe(p),
    ensures
        crate::text::all_no_semi(packet_wire_fields(p)),
{
    reveal_strlit("KDLAB");
    reveal_strlit("BITRIX");
    reveal_strlit("Y");
    reveal_strlit("N");
    reveal_strlit("W");
    reveal_strlit("w");
    reveal_strlit("A");
    reveal_strlit("a");
    let fields = packet_wire_fields(p);
    let players = emitted_players(p);
    let es = emitted_steps(p);
    let header = header_fields(p);
    let pf = players_fields(players);
    let sf = steps_section(p);
    lemma_players_fields_len(players);
    lemma_turns_fields_len(es);
    assert forall|i: int| 0 <= i < fields.len() implies crate::text::no_semi(
        #[trigger] fields[i],
    ) by {
        assert("KDLAB"@ =~= seq!['K', 'D', 'L', 'A', 'B']);
        assert("BITRIX"@ =~= seq!['B', 'I', 'T', 'R', 'I', 'X']);
        assert("Y"@ =~= seq!['Y']);
        assert("N"@ =~= seq!['N']);
        assert("W"@ =~= seq!['W']);
        assert("A"@ =~= seq!['A']);
        if i < 23 {
            assert(fields[i] == header[i]);
            lemma_dec_str_no_semi(p.version as nat);
            lemma_dec_str_no_semi(p.t_type.spec_code() as nat);
            lemma_dec_str_no_semi(p.gmid as nat);
            lemma_dec_str_no_semi(p.language.spec_code() as nat);
            lemma_dec_str_no_semi(p.game_owner_pid as nat);
            lemma_dec_str_no_semi(p.packet_owner_pid as nat);
            lemma_dec_str_no_semi(p.kd_world_id as nat);
            lemma_dec_str_no_semi(p.kd_route_id as nat);
            lemma_dec_str_no_semi(p.game_rnd as nat);
            lemma_dec_str_no_semi(p.laps as nat);
            lemma_dec_str_no_semi(p.seeds as nat);
            lemma_dec_str_no_semi(p.duration as nat);
            lemma_dec_str_no_semi(p.move_cnt as nat);
            lemma_dec_str_no_semi(players.len());
            lemma_dec_str_no_semi(es.len());
            lemma_dec_str_no_semi(p.url.post_port as nat);
        } else if i < 23 + pf.len() {
            let k = i - 23;
            assert(fields[i] == pf[k]);
            lemma_players_fields_index_no_semi(players, k);
        } else if i < 23 + pf.len() + sf.len() {
            let k = i - 23 - pf.len();
            assert(fields[i] == sf[k]);
            if es.len() > 0 {
                lemma_dec_str_no_semi(max_step_view(p.steps) as nat);
                lemma_dec_str_no_semi(es.len());
                if k >= 2 {
                    assert forall|j: int| 0 <= j < es.len() implies crate::text::no_semi(
                        #[trigger] es[j].seeds,
                    ) by {
                        lemma_filter_element_of(p.steps, at_step(max_step_view(p.steps)), j);
                    }
                    lemma_turns_fields_index_no_semi(es, k - 2);
                }
            }
        } else {
            assert(fields[i] == "BITRIX"@);
        }
    }
}

/// The header of an encoded packet parses back field by field.
#[verifier::rlimit(100)]
proof fn lemma_header_parses(p: PacketView)
    requires
        wire_safe(p),
        emitted_steps(p).len() <= usize::MAX,
    ensures
        parsed_header_ok(packet_wire_fields(p), p),
{
    let fs = packet_wire_fields(p);
    let players = emitted_players(p);
    let es = emitted_steps(p);
    lemma_players_fields_len(players);
    lemma_turns_fields_len(es);
    assert(fs[0] == "KDLAB"@);
    crate::text::lemma_parse_dec_str(p.version as nat);
    crate::text::lemma_parse_dec_str(p.t_type.spec_code() as nat);
    crate::text::lemma_parse_dec_str(p.gmid as nat);
    crate::text::lemma_parse_dec_str(p.language.spec_code() as nat);
    crate::text::lemma_parse_dec_str(p.game_owner_pid as nat);
    crate::text::lemma_parse_dec_str(p.packet_owner_pid as nat);
    crate::text::lemma_parse_dec_str(p.kd_world_id as nat);
    crate::text::lemma_parse_dec_str(p.kd_route_id as nat);
    crate::text::lemma_parse_dec_str(p.game_rnd as nat);
    crate::text::lemma_parse_dec_str(p.laps as nat);
    crate::text::lemma_parse_dec_str(p.seeds as nat);
    crate::text::lemma_parse_dec_str(p.duration as nat);
    crate::text::lemma_parse_dec_str(p.move_cnt as nat);
    crate::text::lemma_parse_dec_str(players.len());
    crate::text::lemma_parse_dec_str(es.len());
    assert(f_usize(fs, 1) == Some(p.version));
    assert(f_u8(fs, 2) == Some(p.t_type.spec_code()));
    assert(f_u32(fs, 3) == Some(p.gmid));
    assert(f_u8(fs, 4) == Some(p.language.spec_code()));
    assert(f_u32(fs, 5) == Some(p.game_owner_pid));
    assert(f_u32(fs, 6) == Some(p.packet_owner_pid));
    assert(get_field(fs, 7) == Some(p.password));
    assert(f_u8(fs, 8) == Some(p.kd_world_id));
    assert(f_u8(fs, 9) == Some(p.kd_route_id));
    assert(f_u16(fs, 10) == Some(p.game_rnd));
    assert(get_field(fs, 11) == Some(p.game_type.wire_view()));
    assert(f_u32(fs, 12) == Some(p.laps));
    assert(f_u32(fs, 13) == Some(p.seeds));
    assert(f_u32(fs, 14) == Some(p.duration));
    assert(f_u32(fs, 15) == Some(p.move_cnt));
    assert(f_usize(fs, 16) == Some(players.len() as usize));
    assert(f_usize(fs, 17) == Some(es.len() as usize));
    assert(f_yn(fs, 18) == Some(p.is_express)) by {
        reveal_strlit("Y");
        reveal_strlit("N");
        assert("Y"@ =~= seq!['Y']);
        assert("N"@ =~= seq!['N']);
        assert("Y"@[0] == 'Y' && "N"@[0] == 'N');
        assert((yn_view(p.is_express) == "Y"@) == p.is_express);
    }
}

/// Round trip: decoding an encoded packet succeeds and reproduces every
/// field, except those the wire format itself drops (`round_trip_view`).
/// The step list must not hold more than one entry at its highest step:
/// for more, the encoder's entry count is read back as a block count, and
/// the missing further blocks make the decode fail.
#[verifier::rlimit(100)]
pub proof fn lemma_codec_round_trip(p: PacketView)
    requires
        wire_safe(p),
        emitted_steps(p).len() <= 1,
    ensures
        parse_packet_text(crate::text::join_semi(packet_wire_fields(p))) == Some(
            round_trip_view(p),
        ),
{
    reveal_strlit("W");
    reveal_strlit("w");
    reveal_strlit("A");
    reveal_strlit("a");
    let fields = packet_wire_fields(p);
    let players = emitted_players(p);
    let es = emitted_steps(p);
    p.steps.lemma_filter_len(at_step(max_step_view(p.steps)));
    let pf = players_fields(players);
    let sf = steps_section(p);
    lemma_players_fields_len(players);
    lemma_turns_fields_len(es);

    lemma_wire_fields_no_semi(p);
    crate::text::lemma_split_join(fields);
    lemma_header_parses(p);
    let fs = fields;
    assert(PacketType::spec_from_u8(p.t_type.spec_code()) == Some(p.t_type));
    assert(Language::spec_from_u8(p.language.spec_code()) == Some(p.language));
    assert(GameType::from_wire_view(p.game_type.wire_view()) == Some(p.game_type)) by {
        assert("W"@ =~= seq!['W']);
        assert("w"@ =~= seq!['w']);
        assert("A"@ =~= seq!['A']);
        assert("a"@ =~= seq!['a']);
        assert("W"@[0] == 'W' && "w"@[0] == 'w' && "A"@[0] == 'A' && "a"@[0] == 'a');
    }

    // the roster region parses back
    let pcnt = players.len() as usize;
    if pcnt > 0 && !p.t_type.suppresses_players() {
        assert forall|k: int| 0 <= k < 7 * players.len() implies fs[23 + k] == pf[k] by {
            assert(fields[23 + k] == pf[k]);
        }
        lemma_parse_players_section(fs, 23, players);
    } else {
        assert(players.len() == 0);
        assert(parse_players_at(fs, 23, 0) == Some((Seq::<PlayerView>::empty(), 23int)));
    }
    let pi: int = 23 + 7 * (players.len() as int);
    assert(pi == 23 + pf.len());

    // the step section parses back: none, or exactly one block
    if es.len() == 0 {
        assert(parse_blocks_at(fs, pi, 0) == Some((Seq::<TurnInfoView>::empty(), pi)));
        assert(es =~= Seq::<TurnInfoView>::empty());
    } else {
        assert(es.len() == 1);
        let m = max_step_view(p.steps);
        crate::text::lemma_parse_dec_str(m as nat);
        assert(sf[0] == dec_str(m as nat));
        assert(sf[1] == dec_str(1));
        assert(fs[pi] == sf[0]);
        assert(fs[pi + 1] == sf[1]);
        assert(f_u32(fs, pi) == Some(m));
        crate::text::lemma_parse_dec_str(1);
        assert(f_i32(fs, pi + 1) == Some(1i32));
        assert forall|k: int| 0 <= k < 11 implies fs[(pi + 2) + k] == turns_fields(es)[k] by {
            assert(sf[2 + k] == turns_fields(es)[k]);
            assert(fields[pi + (2 + k)] == sf[2 + k]);
        }
        assert forall|j: int| 0 <= j < es.len() implies #[trigger] es[j].step_number == m by {
            p.steps.lemma_filter_pred(at_step(m), j);
        }
        lemma_parse_turns_section(fs, pi + 2, m, es);
        assert(parse_blocks_at(fs, pi + 2 + 11, 0) == Some(
            (Seq::<TurnInfoView>::empty(), pi + 13),
        ));
        assert(parse_blocks_at(fs, pi, 1) == Some((es + Seq::<TurnInfoView>::empty(), pi + 13)));
        assert(es + Seq::<TurnInfoView>::empty() =~= es);
    }

    // the decoded packet is the round-trip image
    let decoded = parse_packet_fields(fs);
    assert(decoded is Some);
    assert(decoded->0 =~~= round_trip_view(p));
}

proof fn lemma_players_fields_index_no_semi(ps: Seq<PlayerView>, k: int)
    requires
        0 <= k < players_fields(ps).len(),
        forall|i: int| 0 <= i < ps.len() ==> crate::text::no_semi(#[trigger] ps[i].nickname),
    ensures
        crate::text::no_semi(players_fields(ps)[k]),
    decreases ps.len(),
{
    reveal_strlit("Y");
    reveal_strlit("N");
    lemma_players_fields_len(ps);
    if ps.len() > 0 {
        lemma_players_fields_len(ps.drop_last());
        if k < 7 * (ps.len() - 1) {
            lemma_players_fields_index_no_semi(ps.drop_last(), k);
            assert(players_fields(ps)[k] == players_fields(ps.drop_last())[k]);
        } else {
            let j = k - 7 * (ps.len() - 1);
            assert(players_fields(ps)[k] == player_fields(ps.last())[j]);
            lemma_dec_str_no_semi(ps.last().uid as nat);
            lemma_dec_str_no_semi(ps.last().pers_car_comp_id as nat);
            lemma_dec_str_no_semi(ps.last().front_car_comp_id as nat);
            lemma_dec_str_no_semi(ps.last().fwheel_car_comp_id as nat);
            lemma_dec_str_no_semi(ps.last().bwheel_car_comp_id as nat);
            assert("Y"@ =~= seq!['Y']);
            assert("N"@ =~= seq!['N']);
            assert(crate::text::no_semi(yn_view(ps.last().is_robot)));
        }
    }
}

/// An element of a filtered list is an element of the list.
proof fn lemma_filter_element_of<A>(s: Seq<A>, pred: spec_fn(A) -> bool, j: int)
    requires
        0 <= j < s.filter(pred).len(),
    ensures
        exists|i: int| 0 <= i < s.len() && s[i] == #[trigger] s.filter(pred)[j],
    decreases s.len(),
{
    reveal(Seq::filter);
    if s.len() > 0 {
        let d = s.drop_last();
        let f = s.filter(pred);
        if pred(s.last()) && j == f.len() - 1 {
            assert(s[s.len() - 1] == f[j]);
        } else {
            lemma_filter_element_of(d, pred, j);
            let i = choose|i: int| 0 <= i < d.len() && d[i] == d.filter(pred)[j];
            assert(s[i] == f[j]);
        }
    }
}

proof fn lemma_turns_fields_index_no_semi(ts: Seq<TurnInfoView>, k: int)
    requires
        0 <= k < turns_fields(ts).len(),
        forall|i: int| 0 <= i < ts.len() ==> crate::text::no_semi(#[trigger] ts[i].seeds),
    ensures
        crate::text::no_semi(turns_fields(ts)[k]),
    decreases ts.len(),
{
    reveal_strlit("Y");
    reveal_strlit("N");
    lemma_turns_fields_len(ts);
    if ts.len() > 0 {
        lemma_turns_fields_len(ts.drop_last());
        if k < 11 * (ts.len() - 1) {
            lemma_turns_fields_index_no_semi(ts.drop_last(), k);
            assert(turns_fields(ts)[k] == turns_fields(ts.drop_last())[k]);
        } else {
            let j = k - 11 * (ts.len() - 1);
            assert(turns_fields(ts)[k] == turn_fields(ts.last())[j]);
            lemma_dec_str_no_semi(ts.last().player_id as nat);
            lemma_dec_str_no_semi(ts.last().rank as nat);
            lemma_dec_str_no_semi(ts.last().move_time as nat);
            lemma_dec_str_no_semi(ts.last().move_steps as nat);
            lemma_dec_str_no_semi(ts.last().bottles_cnt as nat);
            lemma_dec_str_no_semi(ts.last().total_seeds_cnt as nat);
            lemma_dec_str_no_semi(ts.last().arcanes_cnt as nat);
            lemma_dec_str_no_semi(ts.last().destroys_cnt as nat);
            lemma_dec_str_no_semi(ts.last().user_seeds_cnt as nat);
            assert("Y"@ =~= seq!['Y']);
            assert("N"@ =~= seq!['N']);
            assert(crate::text::no_semi(yn_view(ts.last().is_finished)));
        }
    }
}

/// The wire codec, as the transport layer sees it: the contracts live on the
/// inherent `Packet::encode` and `Packet::decode`.
pub trait KdlabCodec where Self: Sized {
    fn encode(&self) -> String;

    fn decode(input: &str) -> Option<Self>;
}

impl KdlabCodec for Packet {
    fn encode(&self) -> String {
        Packet::encode(self)
    }

    fn decode(input: &str) -> Option<Packet> {
        Packet::decode(input)
    }
}

} // verus!
