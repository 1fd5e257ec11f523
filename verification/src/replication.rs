//! Replica registry on the master, and the slave-side handshake state
//! machine. Network streams stay outside the library; a registration
//! names its replica by the port it announced.

use vstd::prelude::*;
use crate::ascii::{
    capa_vec, lit_capa, lit_listening_port, lit_neg_one, lit_ok, lit_ping_up,
    lit_pong, lit_psync2, lit_psync_up, lit_qmark, lit_replconf_up, listening_port_vec,
    neg_one_vec, ok_vec, ping_up_vec, pong_vec, psync2_vec, psync_up_vec, qmark_vec,
    replconf_up_vec,
};
use crate::db::{bytes_eq, clone_bytes};
use crate::resp::{bulk_array_frame, bulks_of, encode_data, RespData};

verus! {

/// One registered replica, named by its announced listening port. The
/// write half of its connection lives with the caller, keyed by the same
/// port.
#[derive(Debug)]
pub struct Replication {
    pub port: Vec<u8>,
}

/// The master's registry of replicas, and whether fan-out has begun.
#[derive(Debug)]
pub struct ReplicationSet {
    pub repls: Vec<Replication>,
    pub ready: bool,
}

impl ReplicationSet {
    /// The announced ports, in registration order.
    pub open spec fn ports(self) -> Seq<Seq<u8>> {
        self.repls@.map_values(|r: Replication| r.port@)
    }

    pub fn new() -> (r: ReplicationSet)
        ensures
            r.ports() == Seq::<Seq<u8>>::empty(),
            !r.ready,
    {
        let r = ReplicationSet { repls: Vec::new(), ready: false };
        proof {
            assert(r.ports() =~= Seq::<Seq<u8>>::empty());
        }
        r
    }

    /// Registers a replica. The registry is keyed by the announced port:
    /// a registration with a port already present replaces it, so at most
    /// one registration per port ever exists.
    pub fn add_a_repl(&mut self, a_repl: Replication)
        ensures
            final(self).ports() == if old(self).ports().contains(a_repl.port@) {
                old(self).ports()
            } else {
                old(self).ports().push(a_repl.port@)
            },
            final(self).ready == old(self).ready,
    {
        let ghost p = a_repl.port@;
        let mut i: usize = 0;
        while i < self.repls.len()
            invariant
                i <= self.repls@.len(),
                self == old(self),
                p == a_repl.port@,
                forall|j: int| 0 <= j < i ==> self.ports()[j] != p,
            decreases self.repls@.len() - i,
        {
            if bytes_eq(self.repls[i].port.as_slice(), a_repl.port.as_slice()) {
                assert(self.ports()[i as int] == p);
                self.repls.set(i, a_repl);
                proof {
                    assert(final(self).ports() =~= old(self).ports());
                }
                return;
            }
            assert(self.ports()[i as int] != p);
            i = i + 1;
        }
        assert(!self.ports().contains(p)) by {
            if self.ports().contains(p) {
                let j = choose|j: int| 0 <= j < self.ports().len() && self.ports()[j] == p;
            }
        }
        self.repls.push(a_repl);
        proof {
            assert(final(self).ports() =~= old(self).ports().push(p));
        }
    }

    /// Whether some registration announced the same port.
    pub fn is_exsits(&self, a_repl: &Replication) -> (r: bool)
        ensures
            r == self.ports().contains(a_repl.port@),
    {
        let mut i: usize = 0;
        while i < self.repls.len()
            invariant
                i <= self.repls@.len(),
                forall|j: int| 0 <= j < i ==> self.ports()[j] != a_repl.port@,
            decreases self.repls@.len() - i,
        {
            if bytes_eq(self.repls[i].port.as_slice(), a_repl.port.as_slice()) {
                assert(self.ports()[i as int] == a_repl.port@);
                return true;
            }
            assert(self.ports()[i as int] != a_repl.port@);
            i = i + 1;
        }
        assert(!self.ports().contains(a_repl.port@)) by {
            if self.ports().contains(a_repl.port@) {
                let j = choose|j: int|
                    0 <= j < self.ports().len() && self.ports()[j] == a_repl.port@;
            }
        }
        false
    }

    pub fn is_empty(&self) -> (r: bool)
        ensures
            r == (self.ports().len() == 0),
    {
        self.repls.len() == 0
    }

    pub fn get_repls(&self) -> (r: &Vec<Replication>)
        ensures
            r == self.repls,
    {
        &self.repls
    }

    pub fn is_ready(&self) -> (r: bool)
        ensures
            r == self.ready,
    {
        self.ready
    }

    pub fn set_ready(&mut self, flag: bool)
        ensures
            final(self).ready == flag,
            final(self).ports() == old(self).ports(),
    {
        self.ready = flag;
    }
}

/// Fan-out plan: every registered replica, in registration order, is to
/// be sent exactly the accepted frame bytes, unchanged. The caller
/// performs the writes, one stream at a time, in this order.
pub fn plan_fanout(set: &ReplicationSet, frame: &[u8]) -> (r: Vec<(Vec<u8>, Vec<u8>)>)
    ensures
        r@.len() == set.ports().len(),
        forall|i: int|
            0 <= i < r@.len() ==> (#[trigger] r@[i]).0@ == set.ports()[i] && r@[i].1@ == frame@,
{
    let mut out: Vec<(Vec<u8>, Vec<u8>)> = Vec::new();
    let mut i: usize = 0;
    while i < set.repls.len()
        invariant
            i <= set.repls@.len(),
            out@.len() == i,
            forall|j: int|
                0 <= j < i ==> (#[trigger] out@[j]).0@ == set.ports()[j] && out@[j].1@ == frame@,
        decreases set.repls@.len() - i,
    {
        let entry = (clone_bytes(&set.repls[i].port), vstd::slice::slice_to_vec(frame));
        out.push(entry);
        i = i + 1;
    }
    out
}

// ---------------------------------------------------------------------
// Slave-side handshake

/// Where the slave stands in its handshake with the master.
#[derive(Debug, Clone, Copy, PartialEq, Eq, Structural)]
pub enum HandshakeState {
    AwaitPong,
    AwaitPortOk,
    AwaitCapaOk,
    AwaitFullresync,
    Established,
}

/// The master's reply did not match the protocol.
#[derive(Debug, Clone, Copy, PartialEq, Eq, Structural)]
pub enum HandshakeError {
    UnexpectedReply,
}

/// The wire frame of the first handshake request.
pub open spec fn ping_frame() -> Seq<u8> {
    encode_data(RespData::Arr(seq![RespData::Bulk(lit_ping_up())]))
}

/// The wire frame announcing the slave's listening port.
pub open spec fn replconf_port_frame(port: Seq<u8>) -> Seq<u8> {
    encode_data(
        RespData::Arr(
            seq![
                RespData::Bulk(lit_replconf_up()),
                RespData::Bulk(lit_listening_port()),
                RespData::Bulk(port),
            ],
        ),
    )
}

/// The wire frame announcing the slave's capabilities.
pub open spec fn replconf_capa_frame() -> Seq<u8> {
    encode_data(
        RespData::Arr(
            seq![
                RespData::Bulk(lit_replconf_up()),
                RespData::Bulk(lit_capa()),
                RespData::Bulk(lit_psync2()),
            ],
        ),
    )
}

/// The wire frame requesting a full resynchronisation.
pub open spec fn psync_frame() -> Seq<u8> {
    encode_data(
        RespData::Arr(
            seq![
                RespData::Bulk(lit_psync_up()),
                RespData::Bulk(lit_qmark()),
                RespData::Bulk(lit_neg_one()),
            ],
        ),
    )
}

/// Starts the handshake: the frame to send first, and the state that
/// awaits the master's answer to it.
pub fn handshake_init() -> (r: (HandshakeState, Vec<u8>))
    ensures
        r.0 == HandshakeState::AwaitPong,
        r.1@ == ping_frame(),
{
    let mut words: Vec<Vec<u8>> = Vec::new();
    words.push(ping_up_vec());
    let frame = bulk_array_frame(&words);
    proof {
        assert(words@.map_values(|w: Vec<u8>| w@) =~= seq![lit_ping_up()]);
        assert(bulks_of(seq![lit_ping_up()]) =~= seq![RespData::Bulk(lit_ping_up())]);
    }
    (HandshakeState::AwaitPong, frame)
}

/// The shape of the master's resynchronisation status line: the word
/// FULLRESYNC, a space, a non-empty replication id, a space, and a
/// decimal offset.
pub open spec fn fullresync_reply_ok(reply: Seq<u8>) -> bool {
    let p = crate::ascii::lit_fullresync_prefix();
    &&& reply.len() > p.len()
    &&& reply.subrange(0, p.len() as int) == p
    &&& {
        let rest = reply.skip(p.len() as int);
        let sp = crate::num::find_space(rest, 0);
        &&& 0 < sp
        &&& sp + 1 < rest.len()
        &&& crate::num::all_digits(rest.skip(sp + 1))
    }
}

/// What the handshake expects of the master at each waiting state: PONG,
/// then OK twice, then a well-shaped FULLRESYNC line.
pub open spec fn expected_reply_ok(st: HandshakeState, reply: Seq<u8>) -> bool {
    match st {
        HandshakeState::AwaitPong => reply == lit_pong(),
        HandshakeState::AwaitPortOk => reply == lit_ok(),
        HandshakeState::AwaitCapaOk => reply == lit_ok(),
        HandshakeState::AwaitFullresync => fullresync_reply_ok(reply),
        HandshakeState::Established => false,
    }
}

/// The state after a successful step, and the frame it sends.
pub open spec fn next_state(st: HandshakeState) -> HandshakeState {
    match st {
        HandshakeState::AwaitPong => HandshakeState::AwaitPortOk,
        HandshakeState::AwaitPortOk => HandshakeState::AwaitCapaOk,
        HandshakeState::AwaitCapaOk => HandshakeState::AwaitFullresync,
        HandshakeState::AwaitFullresync => HandshakeState::Established,
        HandshakeState::Established => HandshakeState::Established,
    }
}

/// The frame sent on entering the successor state: the port
/// announcement, the capability announcement, the resynchronisation
/// request, and nothing once established.
pub open spec fn frame_after(st: HandshakeState, port: Seq<u8>) -> Seq<u8> {
    match st {
        HandshakeState::AwaitPong => replconf_port_frame(port),
        HandshakeState::AwaitPortOk => replconf_capa_frame(),
        HandshakeState::AwaitCapaOk => psync_frame(),
        HandshakeState::AwaitFullresync => Seq::empty(),
        HandshakeState::Established => Seq::empty(),
    }
}

/// Drives one handshake step: `reply` is the content of the simple
/// string the master answered with. On the expected reply the successor
/// state and the next frame to send come back; on anything else the
/// handshake fails and startup is to be aborted.
pub fn handshake_step(st: HandshakeState, reply: &[u8], port: &Vec<u8>) -> (r: Result<
    (HandshakeState, Vec<u8>),
    HandshakeError,
>)
    requires
        st != HandshakeState::Established,
    ensures
        match r {
            Result::Ok((st2, frame)) => expected_reply_ok(st, reply@) && st2 == next_state(st)
                && frame@ == frame_after(st, port@),
            Result::Err(_) => !expected_reply_ok(st, reply@),
        },
{
    match st {
        HandshakeState::AwaitPong => {
            let expect = pong_vec();
            if bytes_eq(reply, expect.as_slice()) {
                let mut words: Vec<Vec<u8>> = Vec::new();
                words.push(replconf_up_vec());
                words.push(listening_port_vec());
                words.push(clone_bytes(port));
                let frame = bulk_array_frame(&words);
                proof {
                    assert(words@.map_values(|w: Vec<u8>| w@) =~= seq![
                        lit_replconf_up(),
                        lit_listening_port(),
                        port@,
                    ]);
                    assert(bulks_of(seq![lit_replconf_up(), lit_listening_port(), port@]) =~= seq![
                        RespData::Bulk(lit_replconf_up()),
                        RespData::Bulk(lit_listening_port()),
                        RespData::Bulk(port@),
                    ]);
                }
                Ok((HandshakeState::AwaitPortOk, frame))
            } else {
                Err(HandshakeError::UnexpectedReply)
            }
        },
        HandshakeState::AwaitPortOk => {
            let expect = ok_vec();
            if bytes_eq(reply, expect.as_slice()) {
                let mut words: Vec<Vec<u8>> = Vec::new();
                words.push(replconf_up_vec());
                words.push(capa_vec());
                words.push(psync2_vec());
                let frame = bulk_array_frame(&words);
                proof {
                    assert(words@.map_values(|w: Vec<u8>| w@) =~= seq![
                        lit_replconf_up(),
                        lit_capa(),
                        lit_psync2(),
                    ]);
                    assert(bulks_of(seq![lit_replconf_up(), lit_capa(), lit_psync2()]) =~= seq![
                        RespData::Bulk(lit_replconf_up()),
                        RespData::Bulk(lit_capa()),
                        RespData::Bulk(lit_psync2()),
                    ]);
                }
                Ok((HandshakeState::AwaitCapaOk, frame))
            } else {
                Err(HandshakeError::UnexpectedReply)
            }
        },
        HandshakeState::AwaitCapaOk => {
            let expect = ok_vec();
            if bytes_eq(reply, expect.as_slice()) {
                let mut words: Vec<Vec<u8>> = Vec::new();
                words.push(psync_up_vec());
                words.push(qmark_vec());
                words.push(neg_one_vec());
                let frame = bulk_array_frame(&words);
                proof {
                    assert(words@.map_values(|w: Vec<u8>| w@) =~= seq![
                        lit_psync_up(),
                        lit_qmark(),
                        lit_neg_one(),
                    ]);
                    assert(bulks_of(seq![lit_psync_up(), lit_qmark(), lit_neg_one()]) =~= seq![
                        RespData::Bulk(lit_psync_up()),
                        RespData::Bulk(lit_qmark()),
                        RespData::Bulk(lit_neg_one()),
                    ]);
                }
                Ok((HandshakeState::AwaitFullresync, frame))
            } else {
                Err(HandshakeError::UnexpectedReply)
            }
        },
        HandshakeState::AwaitFullresync => {
            let prefix = crate::ascii::fullresync_prefix_vec();
            if reply.len() > prefix.len() {
                let head = vstd::slice::slice_subrange(reply, 0, prefix.len());
                if bytes_eq(head, prefix.as_slice()) {
                    let rest = vstd::slice::slice_subrange(reply, prefix.len(), reply.len());
                    proof {
                        assert(rest@ =~= reply@.skip(prefix@.len() as int));
                    }
                    let rlen = rest.len();
                    if let Some(sp) = crate::num::find_space_exec(rest) {
                        proof {
                            crate::num::lemma_find_space(rest@, 0);
                        }
                        if sp > 0 && sp + 1 < rlen {
                            let digits = vstd::slice::slice_subrange(rest, sp + 1, rest.len());
                            proof {
                                assert(digits@ =~= rest@.skip(sp + 1));
                            }
                            if crate::num::all_digits_exec(digits) {
                                return Ok((HandshakeState::Established, Vec::new()));
                            }
                        }
                    }
                }
            }
            Err(HandshakeError::UnexpectedReply)
        },
        HandshakeState::Established => Err(HandshakeError::UnexpectedReply),
    }
}

} // verus!
