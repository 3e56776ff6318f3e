//! End-to-end check of a card: one ARP request, broadcast by hand, and the
//! reply to it.
//!
//! Nothing in here uses the protocol stack: the twenty-eight byte payload is
//! written out byte by byte and the reply is picked apart the same way, so what
//! passes or fails is the driver and only the driver.
//!
//! The first request may go unanswered while the card is still coming up, so
//! the check asks several times, and then does a second exchange to show what
//! the round trip costs once the card is past that.

use crate::bytes::{self, extend, push_be16, read_be16};
use vstd::prelude::*;

verus! {

pub const ETHERTYPE_ARP: u16 = 0x0806;

pub const ARP_HTYPE_ETHERNET: u16 = 1;

pub const ARP_PTYPE_IPV4: u16 = 0x0800;

pub const ARP_REQUEST: u16 = 1;

pub const ARP_REPLY: u16 = 2;

/// How long to wait for one reply, in timer ticks.
pub const REPLY_TIMEOUT_TICKS: u64 = 50;

/// Requests to send before giving up.
pub const ATTEMPTS: u32 = 5;

/// One Ethernet frame carrying an ARP request: to everybody, from this card,
/// asking from `sender` who has `target`, with zeroes where the answer goes.
pub open spec fn request_for(mac: Seq<u8>, sender: Seq<u8>, target: Seq<u8>) -> Seq<u8> {
    seq![0xFFu8, 0xFF, 0xFF, 0xFF, 0xFF, 0xFF] + mac + seq![8u8, 6, 0, 1, 8, 0, 6, 4, 0, 1] + mac
        + sender + seq![0u8, 0, 0, 0, 0, 0] + target
}

/// One Ethernet frame carrying an ARP request for `target`.
pub fn build_request(mac: &[u8; 6], sender: [u8; 4], target: [u8; 4]) -> (frame: Vec<u8>)
    ensures
        frame@ == request_for(mac@, sender@, target@),
        frame@.len() == 42,
{
    let everybody: [u8; 6] = [0xFF, 0xFF, 0xFF, 0xFF, 0xFF, 0xFF];
    let nobody: [u8; 6] = [0, 0, 0, 0, 0, 0];
    let mut frame: Vec<u8> = Vec::new();
    extend(&mut frame, everybody.as_slice());
    extend(&mut frame, mac.as_slice());
    push_be16(&mut frame, ETHERTYPE_ARP);
    push_be16(&mut frame, ARP_HTYPE_ETHERNET);
    push_be16(&mut frame, ARP_PTYPE_IPV4);
    frame.push(6);
    frame.push(4);
    push_be16(&mut frame, ARP_REQUEST);
    extend(&mut frame, mac.as_slice());
    extend(&mut frame, sender.as_slice());
    extend(&mut frame, nobody.as_slice());
    extend(&mut frame, target.as_slice());
    assert(frame@ =~= request_for(mac@, sender@, target@));
    frame
}

/// Whether a frame is an ARP reply from `gateway`. A reply's sender protocol
/// address is the address that was asked about, so this says the gateway
/// answered and not somebody else.
pub open spec fn is_reply_from(frame: Seq<u8>, gateway: Seq<u8>) -> bool {
    &&& frame.len() >= 42
    &&& bytes::be16(frame, 12) == ETHERTYPE_ARP
    &&& bytes::be16(frame, 14) == ARP_HTYPE_ETHERNET
    &&& bytes::be16(frame, 16) == ARP_PTYPE_IPV4
    &&& bytes::be16(frame, 20) == ARP_REPLY
    &&& frame.subrange(28, 32) == gateway
}

/// Look at one received frame for the reply this check is waiting for: the
/// hardware address `gateway` answered with.
pub fn observe(frame: &[u8], gateway: [u8; 4]) -> (answer: Option<[u8; 6]>)
    ensures
        answer is Some <==> is_reply_from(frame@, gateway@),
        answer matches Some(mac) ==> mac@ == frame@.subrange(22, 28),
{
    if frame.len() < 42 {
        return None;
    }
    if read_be16(frame, 12) != ETHERTYPE_ARP {
        return None;
    }
    if read_be16(frame, 14) != ARP_HTYPE_ETHERNET || read_be16(frame, 16) != ARP_PTYPE_IPV4
        || read_be16(frame, 20) != ARP_REPLY {
        return None;
    }
    let same = frame[28] == gateway[0] && frame[29] == gateway[1] && frame[30] == gateway[2]
        && frame[31] == gateway[3];
    proof {
        let sender = frame@.subrange(28, 32);
        assert(sender[0] == frame@[28] && sender[1] == frame@[29] && sender[2] == frame@[30]
            && sender[3] == frame@[31]);
        if same {
            assert(sender =~= gateway@);
        }
    }
    if !same {
        return None;
    }
    let mac: [u8; 6] = [frame[22], frame[23], frame[24], frame[25], frame[26], frame[27]];
    assert(mac@ =~= frame@.subrange(22, 28));
    Some(mac)
}

/// What waiting for a reply comes to.
#[derive(Debug, Clone, Copy, PartialEq, Eq, Structural)]
pub enum Wait {
    /// It is here.
    Answered,
    /// Sleep a tick and look again.
    Sleep,
    TimedOut,
}

/// Whether to go on waiting for the reply to a request sent at `sent`.
pub fn exchange(sent: u64, now: u64, answered: bool) -> (wait: Wait)
    requires
        sent + REPLY_TIMEOUT_TICKS <= u64::MAX,
    ensures
        wait == (if now >= sent + REPLY_TIMEOUT_TICKS {
            Wait::TimedOut
        } else if answered {
            Wait::Answered
        } else {
            Wait::Sleep
        }),
{
    if now >= sent + REPLY_TIMEOUT_TICKS {
        Wait::TimedOut
    } else if answered {
        Wait::Answered
    } else {
        Wait::Sleep
    }
}

/// Where a check has got to.
#[derive(Debug, Clone, Copy, PartialEq, Eq)]
pub enum Stage {
    /// Asking for the first time, with this many requests unanswered.
    Asking(u32),
    /// Asking again, now that the gateway has answered with this address.
    Again([u8; 6]),
    Over(Verdict),
}

/// What a check found.
#[derive(Debug, Clone, Copy, PartialEq, Eq)]
pub enum Verdict {
    /// Nobody ever answered.
    NoReply,
    /// The gateway answered twice, the second time after this many ticks.
    Twice(u64),
    /// Somebody else answered the second time.
    SomebodyElse([u8; 6]),
    NoSecondReply,
}

/// How many of the two exchanges passed, and how many failed.
pub fn tally(verdict: Verdict) -> (counts: (u32, u32))
    ensures
        counts == (match verdict {
            Verdict::NoReply => (0u32, 1u32),
            Verdict::Twice(_) => (2, 0),
            Verdict::SomebodyElse(_) => (1, 1),
            Verdict::NoSecondReply => (1, 1),
        }),
{
    match verdict {
        Verdict::NoReply => (0, 1),
        Verdict::Twice(_) => (2, 0),
        Verdict::SomebodyElse(_) => (1, 1),
        Verdict::NoSecondReply => (1, 1),
    }
}

/// Where a check goes from what came of one exchange: the address that
/// answered and how many ticks it took, or nothing.
pub fn run(stage: Stage, answer: Option<([u8; 6], u64)>) -> (next: Stage)
    requires
        stage matches Stage::Asking(unanswered) ==> unanswered < ATTEMPTS,
    ensures
        match stage {
            Stage::Asking(unanswered) => match answer {
                Some((mac, _)) => next == Stage::Again(mac),
                None => next == (if unanswered + 1 < ATTEMPTS {
                    Stage::Asking((unanswered + 1) as u32)
                } else {
                    Stage::Over(Verdict::NoReply)
                }),
            },
            Stage::Again(gateway) => match answer {
                Some((mac, ticks)) => next == (if mac@ == gateway@ {
                    Stage::Over(Verdict::Twice(ticks))
                } else {
                    Stage::Over(Verdict::SomebodyElse(mac))
                }),
                None => next == Stage::Over(Verdict::NoSecondReply),
            },
            Stage::Over(_) => next == stage,
        },
{
    match stage {
        Stage::Asking(unanswered) => match answer {
            Some((mac, _)) => Stage::Again(mac),
            None => if unanswered + 1 < ATTEMPTS {
                Stage::Asking(unanswered + 1)
            } else {
                Stage::Over(Verdict::NoReply)
            },
        },
        Stage::Again(gateway) => match answer {
            Some((mac, ticks)) => {
                if bytes::same_bytes(mac.as_slice(), gateway.as_slice()) {
                    Stage::Over(Verdict::Twice(ticks))
                } else {
                    Stage::Over(Verdict::SomebodyElse(mac))
                }
            },
            None => Stage::Over(Verdict::NoSecondReply),
        },
        Stage::Over(verdict) => Stage::Over(verdict),
    }
}

/// The reply to a request is one this check knows: the same frame turned round,
/// with the gateway's address where the zeroes were, is observed as the
/// gateway's answer.
pub proof fn a_reply_is_recognised(mac: Seq<u8>, sender: Seq<u8>, gateway_mac: Seq<u8>, gateway: Seq<
    u8,
>)
    requires
        mac.len() == 6,
        gateway_mac.len() == 6,
        sender.len() == 4,
        gateway.len() == 4,
    ensures
        ({
            let reply = mac + gateway_mac + seq![8u8, 6, 0, 1, 8, 0, 6, 4, 0, 2] + gateway_mac
                + gateway + mac + sender;
            &&& is_reply_from(reply, gateway)
            &&& reply.subrange(22, 28) == gateway_mac
        }),
{
    let reply = mac + gateway_mac + seq![8u8, 6, 0, 1, 8, 0, 6, 4, 0, 2] + gateway_mac + gateway
        + mac + sender;
    assert(reply.subrange(28, 32) =~= gateway);
    assert(reply.subrange(22, 28) =~= gateway_mac);
    let fixed = seq![8u8, 6, 0, 1, 8, 0, 6, 4, 0, 2];
    assert(reply[12] == fixed[0] && reply[13] == fixed[1] && reply[14] == fixed[2] && reply[15]
        == fixed[3] && reply[16] == fixed[4] && reply[17] == fixed[5] && reply[20] == fixed[8]
        && reply[21] == fixed[9]);
}

} // verus!
