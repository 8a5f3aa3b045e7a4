//! The protocol boundary: one entry point per client-triggered action, and
//! the dispatcher that picks the action from a decoded packet.
//!
//! The transport layer decodes a raw body into a [`Packet`], hands it to
//! [`handle_packet`], encodes the reply, and persists the writes the session
//! has pending.  Nothing here touches storage or the network.

use vstd::prelude::*;

use crate::data::{Packet, PacketType, PacketView};
use crate::manager::{
    apply_results_spec, apply_step_spec, has_player, refresh_deliverable, refresh_spec,
    steps_bounded, steps_positive, GameManager, GameManagerError, TurnWrite,
};

verus! {

/// The outcome of a move submission, as reported to the client.
#[derive(Debug, Clone, Copy, PartialEq, Eq, Structural)]
pub enum SeedsOutcome {
    /// The move was recorded.
    Accepted,
    /// The submission did not match the step's records; the client is told
    /// to try its next move rather than given a hard error.
    TryNextMove,
}

/// What the dispatcher answers with.
#[derive(Debug)]
pub enum PostReply {
    /// The plain acknowledgement body.
    Ack,
    /// The soft answer for a mismatched move submission.
    NextMove,
    /// An encoded packet body.
    Answer(Packet),
}

/// Records a client's computed results for the last completed step.
pub fn handle_control(gm: &mut GameManager, packet: &Packet) -> (r: Result<(), GameManagerError>)
    requires
        old(gm).active() is Some,
        packet.t_type == PacketType::OG_CONTROL_PACKET,
        packet.move_cnt < u32::MAX,
        steps_positive(old(gm).turns@),
        steps_bounded(old(gm).turns@),
    ensures
        final(gm).game == old(gm).game,
        final(gm).active() == old(gm).active(),
        ({
            let (t2, w, res) = apply_results_spec(old(gm).game, old(gm).turns@, *packet);
            final(gm).turns@ == t2 && final(gm).pending() == old(gm).pending() + w && r == res
        }),
{
    gm.apply_results(packet)
}

/// Records a player's own move, reporting a mismatched submission as a soft
/// try-next-move outcome instead of a hard error.
pub fn handle_seeds(gm: &mut GameManager, packet: &Packet) -> (r: Result<
    SeedsOutcome,
    GameManagerError,
>)
    requires
        old(gm).active() is Some,
        has_player(old(gm).turns@, old(gm).active()->0),
        packet.t_type == PacketType::OG_SEEDS_PACKET,
        steps_positive(old(gm).turns@),
        steps_bounded(old(gm).turns@),
    ensures
        final(gm).game == old(gm).game,
        final(gm).active() == old(gm).active(),
        ({
            let (t2, w, res) = apply_step_spec(
                old(gm).game,
                old(gm).turns@,
                *packet,
                old(gm).active()->0,
            );
            &&& final(gm).turns@ == t2
            &&& final(gm).pending() == old(gm).pending() + w
            &&& r == (match res {
                Ok(()) => Ok::<SeedsOutcome, GameManagerError>(SeedsOutcome::Accepted),
                Err(GameManagerError::IncorrectIncomeSteps) => Ok(SeedsOutcome::TryNextMove),
                Err(e) => Err(e),
            })
        }),
{
    match gm.apply_step(packet) {
        Ok(()) => Ok(SeedsOutcome::Accepted),
        Err(GameManagerError::IncorrectIncomeSteps) => Ok(SeedsOutcome::TryNextMove),
        Err(e) => Err(e),
    }
}

/// Answers a refresh poll.
pub fn handle_refresh(gm: &mut GameManager, packet: &Packet) -> (r: Result<
    Packet,
    GameManagerError,
>)
    requires
        old(gm).active() is Some,
        old(gm).active() == Some(packet.packet_owner_pid),
        packet.t_type == PacketType::OG_REFRESH_PACKET,
        packet.move_cnt < u32::MAX,
        steps_positive(old(gm).turns@),
        refresh_deliverable(
            old(gm).game,
            old(gm).turns@,
            (packet.move_cnt + 1) as u32,
            packet.packet_owner_pid,
        ),
    ensures
        final(gm).game == old(gm).game,
        final(gm).active() == old(gm).active(),
        ({
            let (pv, t2, w) = refresh_spec(old(gm).game, old(gm).turns@, *packet);
            &&& r matches Ok(p) && p@ == pv
            &&& final(gm).turns@ == t2
            &&& final(gm).pending() == old(gm).pending() + (match w {
                Some(x) => seq![x],
                None => Seq::<TurnWrite>::empty(),
            })
        }),
{
    gm.get_refresh_packet(packet)
}

/// Builds the snapshot packet for a client's very first connection.
pub fn handle_info(gm: &GameManager) -> (r: Packet)
    requires
        gm.active() is Some,
        steps_positive(gm.turns@),
    ensures
        r@ == crate::manager::info_packet_spec(
            gm.game,
            gm.turns@,
            PacketType::OG_CONTROL_PACKET,
            gm.active()->0,
        ),
{
    gm.get_info(PacketType::OG_CONTROL_PACKET)
}

/// Binds the session to the packet's sender and dispatches on the packet
/// type: results, move submission, or refresh; every other packet type is
/// acknowledged without work.
pub fn handle_packet(gm: &mut GameManager, packet: &Packet) -> (r: Result<
    PostReply,
    GameManagerError,
>)
    requires
        steps_positive(old(gm).turns@),
        steps_bounded(old(gm).turns@),
        (packet.t_type == PacketType::OG_CONTROL_PACKET || packet.t_type
            == PacketType::OG_REFRESH_PACKET) ==> packet.move_cnt < u32::MAX,
        packet.t_type == PacketType::OG_REFRESH_PACKET ==> refresh_deliverable(
            old(gm).game,
            old(gm).turns@,
            (packet.move_cnt + 1) as u32,
            packet.packet_owner_pid,
        ),
    ensures
        final(gm).game == old(gm).game,
        !has_player(old(gm).turns@, packet.packet_owner_pid) ==> final(gm).turns == old(gm).turns
            && final(gm).pending() == old(gm).pending() && r == Err::<
            PostReply,
            GameManagerError,
        >(GameManagerError::IncorrectPlayerId(packet.packet_owner_pid)),
        has_player(old(gm).turns@, packet.packet_owner_pid) ==> ({
            let pid = packet.packet_owner_pid;
            if packet.t_type == PacketType::OG_CONTROL_PACKET {
                let (t2, w, res) = apply_results_spec(old(gm).game, old(gm).turns@, *packet);
                &&& final(gm).turns@ == t2
                &&& final(gm).pending() == old(gm).pending() + w
                &&& r == (match res {
                    Ok(()) => Ok::<PostReply, GameManagerError>(PostReply::Ack),
                    Err(e) => Err(e),
                })
            } else if packet.t_type == PacketType::OG_SEEDS_PACKET {
                let (t2, w, res) = apply_step_spec(old(gm).game, old(gm).turns@, *packet, pid);
                &&& final(gm).turns@ == t2
                &&& final(gm).pending() == old(gm).pending() + w
                &&& r == (match res {
                    Ok(()) => Ok::<PostReply, GameManagerError>(PostReply::Ack),
                    Err(GameManagerError::IncorrectIncomeSteps) => Ok(PostReply::NextMove),
                    Err(e) => Err(e),
                })
            } else if packet.t_type == PacketType::OG_REFRESH_PACKET {
                let (pv, t2, w) = refresh_spec(old(gm).game, old(gm).turns@, *packet);
                &&& final(gm).turns@ == t2
                &&& final(gm).pending() == old(gm).pending() + (match w {
                    Some(x) => seq![x],
                    None => Seq::<TurnWrite>::empty(),
                })
                &&& r matches Ok(p2) && p2 matches PostReply::Answer(a) && a@ == pv
            } else {
                &&& final(gm).turns == old(gm).turns
                &&& final(gm).pending() == old(gm).pending()
                &&& r matches Ok(p2) && p2 is Ack
            }
        }),
{
    match gm.set_pid(packet.packet_owner_pid) {
        Ok(()) => (),
        Err(e) => {
            return Err(e);
        },
    }
    match packet.t_type {
        PacketType::OG_CONTROL_PACKET => {
            match gm.apply_results(packet) {
                Ok(()) => Ok(PostReply::Ack),
                Err(e) => Err(e),
            }
        },
        PacketType::OG_SEEDS_PACKET => {
            match gm.apply_step(packet) {
                Ok(()) => Ok(PostReply::Ack),
                Err(GameManagerError::IncorrectIncomeSteps) => Ok(PostReply::NextMove),
                Err(e) => Err(e),
            }
        },
        PacketType::OG_REFRESH_PACKET => {
            match gm.get_refresh_packet(packet) {
                Ok(p) => Ok(PostReply::Answer(p)),
                Err(e) => Err(e),
            }
        },
        _ => Ok(PostReply::Ack),
    }
}

} // verus!
