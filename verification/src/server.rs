//! The server's end of a session, as a machine that is told what happened and says what to do.
//!
//! A connection carries one request after the other in version 2, and one in version 1. Whoever
//! runs a session feeds the connection with the bytes that arrive, calls `step` until it asks to
//! wait or to act, sends what the connection has to send, and reports what came of the action.
use crate::addr::SocketAddr;
use crate::aead;
use crate::handshake;
use crate::handshake::{Handshake, HandshakeStop};
use crate::obfs;
use crate::session;
use crate::snell;
use crate::snell::{
    SnellConn, CMD_CONNECT, CMD_CONNECT_V2, CMD_PING, CMD_UDP, RELAY_BUF_SIZE, RESP_PONG, RESP_READY, RESP_TUNNEL,
};
use crate::udp;
use crate::udp::{FrameFault, UdpRelay, UdpStep};
use crate::wire;
use crate::wire::{IoError, Wire};
use vstd::prelude::*;

verus! {

/// What a session is at.
pub enum Phase {
    /// Reading a request.
    Handshake(Handshake),
    /// Waiting for the connection to the target.
    Connecting,
    /// Passing data between the client and the target.
    Relaying,
    /// Dropping what the client still sends for a target, until it ends the stream.
    Draining,
    /// Waiting for the UDP socket.
    BindingUdp,
    /// Passing datagrams on.
    Udp(UdpRelay),
    /// Over.
    Closed,
}

/// What a session fails for.
#[derive(Debug)]
pub enum SessionFault {
    /// No request could be read.
    Handshake(IoError),
    /// A request with an unknown command.
    Command(u8),
    /// No frame of a UDP session could be read.
    Udp(IoError),
    /// A bad frame of a UDP session.
    Frame(FrameFault),
}

/// What a session asks for.
#[derive(Debug)]
pub enum ServerAction {
    /// Call `step` again.
    Again,
    /// Wait for bytes from the client.
    AwaitClient,
    /// Wait for bytes from the client or the target.
    AwaitEither,
    /// Wait for what was asked for before.
    AwaitAnswer,
    /// Connect to a target; `connected` or `connect_failed` reports.
    Connect(String),
    /// Send bytes to the target; `target_ended` reports a failure.
    ToTarget(Vec<u8>),
    /// Open a UDP socket; `udp_bound` or `target_ended` reports.
    BindUdp,
    /// Look a target up; `udp_resolved` reports.
    Resolve(String),
    /// Send a datagram; `target_ended` reports a failure.
    SendUdp { to: SocketAddr, data: Vec<u8> },
    /// Close the connection.
    Close,
    /// Close the connection, because of a fault.
    Fail(SessionFault),
}

/// The server's end of a session.
pub struct ServerSession {
    /// The connection to the client.
    pub conn: SnellConn,
    /// Whether the connection is kept for further requests.
    pub is_v2: bool,
    /// What the session is at.
    pub phase: Phase,
}

/// How a request goes on: what the session is at, what it asks for and what it replies.
pub open spec fn on_request(command: u8, target: Seq<char>, before: ServerSession, action: ServerAction, after: ServerSession) -> bool {
    if command == CMD_CONNECT || command == CMD_CONNECT_V2 {
        &&& action matches ServerAction::Connect(t) && t@ == target
        &&& after.phase is Connecting
        &&& after.is_v2 == (before.is_v2 && command == CMD_CONNECT_V2)
    } else if command == CMD_UDP {
        action is BindUdp && after.phase is BindingUdp && after.is_v2 == before.is_v2
    } else if command == CMD_PING {
        action is Close && after.phase is Closed && after.is_v2 == before.is_v2
    } else {
        &&& action matches ServerAction::Fail(SessionFault::Command(c)) && c == command
        &&& after.phase is Closed
        &&& after.is_v2 == before.is_v2
    }
}

/// The reply to a request that is answered at once.
pub open spec fn request_reply(command: u8) -> Option<Seq<u8>> {
    if command == CMD_PING {
        Some(seq![RESP_PONG])
    } else {
        None
    }
}

/// How a relay ends. In version 2 the server ends its stream too, and is then ready for the next
/// request, once the client has ended its own; in version 1 the connection closes.
pub open spec fn relay_over(before: ServerSession, client_ended: bool, action: ServerAction, after: ServerSession) -> bool {
    &&& after.is_v2 == before.is_v2
    &&& if before.is_v2 {
        &&& action is Again
        &&& after.phase == (if client_ended {
            Phase::Handshake(Handshake::Head)
        } else {
            Phase::Draining
        })
    } else {
        action is Close && after.phase is Closed
    }
}

/// What a UDP session asks for, as a step of its relay.
pub open spec fn udp_step(action: ServerAction) -> UdpStep {
    match action {
        ServerAction::SendUdp { to, data } => UdpStep::Send { to, data },
        ServerAction::Resolve(target) => UdpStep::Resolve(target),
        ServerAction::Again => UdpStep::Nothing,
        ServerAction::Fail(SessionFault::Frame(fault)) => UdpStep::Bad(fault),
        _ => UdpStep::Bad(FrameFault::Truncated),
    }
}

/// A step while a request is read.
pub open spec fn handshake_stepped(p: Handshake, before: ServerSession, action: ServerAction, after: ServerSession) -> bool {
    let h = handshake::handshake(p, before.conn.decoder(), before.conn.wire().inbox@, before.conn.wire().eof);
    match h.result {
        Ok((target, command)) => {
            &&& session::answers(before.conn, h.next, h.rest, request_reply(command), after.conn)
            &&& on_request(command, target, before, action, after)
        },
        Err(stop) => {
            &&& session::answers(before.conn, h.next, h.rest, None, after.conn)
            &&& after.is_v2 == before.is_v2
            &&& if stop matches HandshakeStop::Read(stop) && session::waits(stop) {
                action is AwaitClient && after.phase == Phase::Handshake(h.progress)
            } else {
                &&& action matches ServerAction::Fail(SessionFault::Handshake(e)) && handshake::tells(e, stop)
                &&& after.phase is Closed
            }
        },
    }
}

/// A step of a relay: what the client sends goes to the target, until the client ends its stream or
/// the connection fails.
pub open spec fn relay_stepped(before: ServerSession, action: ServerAction, after: ServerSession) -> bool {
    let t = snell::snell_read(
        before.conn.decoder(),
        before.conn.wire().inbox@,
        before.conn.wire().eof,
        RELAY_BUF_SIZE as nat,
    );
    match t.result {
        Ok(out) => if out.len() > 0 {
            &&& session::answers(before.conn, t.next, t.rest, None, after.conn)
            &&& action matches ServerAction::ToTarget(data) && data@ == out
            &&& after.phase is Relaying
            &&& after.is_v2 == before.is_v2
        } else {
            &&& session::answers(before.conn, t.next, t.rest, session::relay_reply(before.is_v2), after.conn)
            &&& relay_over(before, false, action, after)
        },
        Err(stop) => if session::waits(stop) {
            &&& session::answers(before.conn, t.next, t.rest, None, after.conn)
            &&& action is AwaitEither
            &&& after.phase is Relaying
            &&& after.is_v2 == before.is_v2
        } else {
            &&& session::answers(before.conn, t.next, t.rest, session::relay_reply(before.is_v2), after.conn)
            &&& relay_over(before, stop is ZeroChunk, action, after)
        },
    }
}

/// A step of draining: what the client sends is dropped, until it ends its stream or the connection
/// fails; then the next request is read.
pub open spec fn drain_stepped(before: ServerSession, action: ServerAction, after: ServerSession) -> bool {
    let t = snell::snell_read(
        before.conn.decoder(),
        before.conn.wire().inbox@,
        before.conn.wire().eof,
        RELAY_BUF_SIZE as nat,
    );
    &&& session::answers(before.conn, t.next, t.rest, None, after.conn)
    &&& after.is_v2 == before.is_v2
    &&& match t.result {
        Ok(_) => action is Again && after.phase is Draining,
        Err(stop) => if session::waits(stop) {
            action is AwaitClient && after.phase is Draining
        } else {
            action is Again && after.phase == Phase::Handshake(Handshake::Head)
        },
    }
}

/// A step of a UDP session: a frame is taken in.
pub open spec fn udp_stepped(relay: UdpRelay, before: ServerSession, action: ServerAction, after: ServerSession) -> bool {
    let t = snell::snell_read(
        before.conn.decoder(),
        before.conn.wire().inbox@,
        before.conn.wire().eof,
        RELAY_BUF_SIZE as nat,
    );
    &&& session::answers(before.conn, t.next, t.rest, None, after.conn)
    &&& after.is_v2 == before.is_v2
    &&& match t.result {
        Ok(frame) => match udp::udp_frame(frame) {
            Err(fault) => {
                &&& action matches ServerAction::Fail(SessionFault::Frame(f)) && f == fault
                &&& after.phase is Closed
            },
            Ok(_) => after.phase matches Phase::Udp(next) && udp::frame_taken(relay, frame, udp_step(action), next),
        },
        Err(stop) => if session::waits(stop) {
            action is AwaitClient && after.phase == Phase::Udp(relay)
        } else {
            &&& action matches ServerAction::Fail(SessionFault::Udp(e)) && snell::tells(e, stop)
            &&& after.phase is Closed
        },
    }
}

/// A step of a session.
pub open spec fn stepped(before: ServerSession, action: ServerAction, after: ServerSession) -> bool {
    match before.phase {
        Phase::Handshake(p) => handshake_stepped(p, before, action, after),
        Phase::Relaying => relay_stepped(before, action, after),
        Phase::Draining => drain_stepped(before, action, after),
        Phase::Udp(relay) => udp_stepped(relay, before, action, after),
        Phase::Connecting | Phase::BindingUdp => action is AwaitAnswer && after == before,
        Phase::Closed => action is Close && after == before,
    }
}

impl ServerSession {
    /// The connection and the relay are well formed.
    pub open spec fn wf(&self) -> bool {
        self.conn.wf() && (self.phase matches Phase::Udp(relay) ==> relay.wf())
    }

    /// A session on a fresh connection.
    pub fn new(psk: &str, obfs_type: &str) -> (r: Result<ServerSession, IoError>)
        requires
            aead::psk_fits(vstd::utf8::encode_utf8(psk@)),
        ensures
            r matches Ok(session) && session.wf() && session.is_v2 && session.phase == Phase::Handshake(Handshake::Head)
                && session.conn.decoder() == snell::fresh_decoder(
                snell::server_mode(obfs_type@),
                vstd::utf8::encode_utf8(psk@),
                aead::Suite::Aes128Gcm,
                Some(aead::Suite::ChaCha20Poly1305),
            ) && session.conn.encoder() == snell::fresh_encoder(
                obfs::Writer { kind: snell::server_mode(obfs_type@), host: seq![], port: seq![], first: true },
            ) && session.conn.wire().inbox@ == Seq::<u8>::empty() && session.conn.wire().outbox@ == Seq::<u8>::empty()
                && !session.conn.wire().eof,
    {
        match SnellConn::new_server_conn(Wire::new(), psk.as_bytes(), obfs_type) {
            Err(e) => Err(e),
            Ok(conn) => Ok(ServerSession { conn, is_v2: true, phase: Phase::Handshake(Handshake::Head) }),
        }
    }

    fn reply(&mut self, data: &[u8])
        requires
            old(self).conn.wf(),
        ensures
            session::replies(old(self).conn, Some(data@), final(self).conn),
            final(self).is_v2 == old(self).is_v2,
            final(self).phase == old(self).phase,
    {
        let _written = self.conn.snell_write(data);
    }

    /// Ends a relay.
    fn end_relay(&mut self, client_ended: bool) -> (action: ServerAction)
        requires
            old(self).conn.wf(),
        ensures
            session::replies(old(self).conn, session::relay_reply(old(self).is_v2), final(self).conn),
            relay_over(*old(self), client_ended, action, *final(self)),
    {
        if self.is_v2 {
            let _written = self.conn.write_zero_chunk();
            if client_ended {
                self.phase = Phase::Handshake(Handshake::Head);
            } else {
                self.phase = Phase::Draining;
            }
            ServerAction::Again
        } else {
            self.phase = Phase::Closed;
            ServerAction::Close
        }
    }

    fn step_handshake(&mut self, p: Handshake) -> (action: ServerAction)
        requires
            old(self).conn.wf(),
        ensures
            handshake_stepped(p, *old(self), action, *final(self)),
    {
        let mut progress = p;
        match handshake::server_handshake(&mut self.conn, &mut progress) {
            Err(IoError::WouldBlock) => {
                self.phase = Phase::Handshake(progress);
                ServerAction::AwaitClient
            },
            Err(e) => {
                self.phase = Phase::Closed;
                ServerAction::Fail(SessionFault::Handshake(e))
            },
            Ok((target, command)) => {
                if command == CMD_PING {
                    let pong: [u8; 1] = [RESP_PONG];
                    let ghost mid = self.conn;
                    self.reply(&pong);
                    proof {
                        assert(pong@ =~= seq![RESP_PONG]);
                        session::lemma_answer(old(self).conn, mid, Some(pong@), self.conn);
                    }
                    self.phase = Phase::Closed;
                    ServerAction::Close
                } else if command == CMD_CONNECT || command == CMD_CONNECT_V2 {
                    if command == CMD_CONNECT {
                        self.is_v2 = false;
                    }
                    self.phase = Phase::Connecting;
                    ServerAction::Connect(target)
                } else if command == CMD_UDP {
                    self.phase = Phase::BindingUdp;
                    ServerAction::BindUdp
                } else {
                    self.phase = Phase::Closed;
                    ServerAction::Fail(SessionFault::Command(command))
                }
            },
        }
    }

    fn step_relay(&mut self) -> (action: ServerAction)
        requires
            old(self).conn.wf(),
        ensures
            relay_stepped(*old(self), action, *final(self)),
    {
        match self.conn.read_up_to(RELAY_BUF_SIZE) {
            Err(IoError::WouldBlock) => {
                self.phase = Phase::Relaying;
                ServerAction::AwaitEither
            },
            Err(e) => {
                let client_ended = wire::is_zero_chunk(&e);
                let ghost mid = self.conn;
                let action = self.end_relay(client_ended);
                proof {
                    session::lemma_answer(old(self).conn, mid, session::relay_reply(old(self).is_v2), self.conn);
                }
                action
            },
            Ok(out) => {
                if out.len() > 0 {
                    self.phase = Phase::Relaying;
                    ServerAction::ToTarget(out)
                } else {
                    let ghost mid = self.conn;
                    let action = self.end_relay(false);
                    proof {
                        session::lemma_answer(old(self).conn, mid, session::relay_reply(old(self).is_v2), self.conn);
                    }
                    action
                }
            },
        }
    }

    fn step_drain(&mut self) -> (action: ServerAction)
        requires
            old(self).conn.wf(),
        ensures
            drain_stepped(*old(self), action, *final(self)),
    {
        match self.conn.read_up_to(RELAY_BUF_SIZE) {
            Err(IoError::WouldBlock) => {
                self.phase = Phase::Draining;
                ServerAction::AwaitClient
            },
            Err(_) => {
                self.phase = Phase::Handshake(Handshake::Head);
                ServerAction::Again
            },
            Ok(_) => {
                self.phase = Phase::Draining;
                ServerAction::Again
            },
        }
    }

    fn step_udp(&mut self, relay: UdpRelay) -> (action: ServerAction)
        requires
            old(self).conn.wf(),
            relay.wf(),
        ensures
            udp_stepped(relay, *old(self), action, *final(self)),
            final(self).wf(),
    {
        let mut relay = relay;
        match self.conn.read_up_to(RELAY_BUF_SIZE) {
            Err(IoError::WouldBlock) => {
                self.phase = Phase::Udp(relay);
                ServerAction::AwaitClient
            },
            Err(e) => {
                self.phase = Phase::Closed;
                ServerAction::Fail(SessionFault::Udp(e))
            },
            Ok(frame) => match relay.take_frame(frame.as_slice()) {
                UdpStep::Bad(fault) => {
                    self.phase = Phase::Closed;
                    ServerAction::Fail(SessionFault::Frame(fault))
                },
                UdpStep::Send { to, data } => {
                    self.phase = Phase::Udp(relay);
                    ServerAction::SendUdp { to, data }
                },
                UdpStep::Resolve(target) => {
                    self.phase = Phase::Udp(relay);
                    ServerAction::Resolve(target)
                },
                UdpStep::Nothing => {
                    self.phase = Phase::Udp(relay);
                    ServerAction::Again
                },
            },
        }
    }

    /// Goes on with the bytes that have arrived.
    pub fn step(&mut self) -> (action: ServerAction)
        requires
            old(self).wf(),
        ensures
            final(self).wf(),
            stepped(*old(self), action, *final(self)),
    {
        let mut phase = Phase::Closed;
        std::mem::swap(&mut phase, &mut self.phase);
        match phase {
            Phase::Handshake(p) => self.step_handshake(p),
            Phase::Relaying => self.step_relay(),
            Phase::Draining => self.step_drain(),
            Phase::Udp(relay) => self.step_udp(relay),
            Phase::Connecting => {
                self.phase = Phase::Connecting;
                ServerAction::AwaitAnswer
            },
            Phase::BindingUdp => {
                self.phase = Phase::BindingUdp;
                ServerAction::AwaitAnswer
            },
            Phase::Closed => ServerAction::Close,
        }
    }
}

// ---- Reports ----

/// What a report to a session does: a reply, and the phase behind it.
pub open spec fn reported(before: ServerSession, reply: Option<Seq<u8>>, phase: Phase, after: ServerSession) -> bool {
    session::replies(before.conn, reply, after.conn) && after.phase == phase && after.is_v2 == before.is_v2
}

/// The phase behind a relay that the target ended.
pub open spec fn behind_relay(is_v2: bool) -> Phase {
    if is_v2 {
        Phase::Draining
    } else {
        Phase::Closed
    }
}

impl ServerSession {
    /// Reports that the target is connected: the client is told so, and the relay begins.
    pub fn connected(&mut self)
        requires
            old(self).wf(),
        ensures
            final(self).wf(),
            if old(self).phase is Connecting {
                reported(*old(self), Some(seq![RESP_TUNNEL]), Phase::Relaying, *final(self))
            } else {
                *final(self) == *old(self)
            },
    {
        if let Phase::Connecting = self.phase {
            let ready: [u8; 1] = [RESP_TUNNEL];
            self.reply(&ready);
            assert(ready@ =~= seq![RESP_TUNNEL]);
            self.phase = Phase::Relaying;
        }
    }

    /// Reports that the target could not be connected: the client is told why. In version 2 the
    /// next request is read.
    pub fn connect_failed(&mut self, message: &str)
        requires
            old(self).wf(),
        ensures
            final(self).wf(),
            if old(self).phase is Connecting {
                reported(
                    *old(self),
                    Some(handshake::error_response(message@)),
                    if old(self).is_v2 {
                        Phase::Handshake(Handshake::Head)
                    } else {
                        Phase::Closed
                    },
                    *final(self),
                )
            } else {
                *final(self) == *old(self)
            },
    {
        if let Phase::Connecting = self.phase {
            let _written = handshake::write_error(&mut self.conn, message);
            self.phase = if self.is_v2 {
                Phase::Handshake(Handshake::Head)
            } else {
                Phase::Closed
            };
        }
    }

    /// Reports bytes from the target, which go to the client. No bytes are the end of the target's
    /// stream.
    pub fn target_data(&mut self, data: &[u8])
        requires
            old(self).wf(),
        ensures
            final(self).wf(),
            if old(self).phase is Relaying {
                if data@.len() > 0 {
                    reported(*old(self), Some(data@), Phase::Relaying, *final(self))
                } else {
                    reported(
                        *old(self),
                        session::relay_reply(old(self).is_v2),
                        behind_relay(old(self).is_v2),
                        *final(self),
                    )
                }
            } else {
                *final(self) == *old(self)
            },
    {
        if let Phase::Relaying = self.phase {
            if data.len() > 0 {
                self.reply(data);
            } else {
                let _again = self.end_relay(false);
            }
        }
    }

    /// Reports that the target's stream, or the UDP socket, failed.
    pub fn target_ended(&mut self)
        requires
            old(self).wf(),
        ensures
            final(self).wf(),
            match old(self).phase {
                Phase::Relaying => reported(
                    *old(self),
                    session::relay_reply(old(self).is_v2),
                    behind_relay(old(self).is_v2),
                    *final(self),
                ),
                Phase::BindingUdp | Phase::Udp(_) => reported(*old(self), None, Phase::Closed, *final(self)),
                _ => *final(self) == *old(self),
            },
    {
        match self.phase {
            Phase::Relaying => {
                let _again = self.end_relay(false);
            },
            Phase::BindingUdp => {
                self.phase = Phase::Closed;
            },
            Phase::Udp(_) => {
                self.phase = Phase::Closed;
            },
            _ => {},
        }
    }

    /// Reports that the UDP socket is open: the client is told so, and frames are taken in.
    pub fn udp_bound(&mut self)
        requires
            old(self).wf(),
        ensures
            final(self).wf(),
            if old(self).phase is BindingUdp {
                &&& final(self).phase matches Phase::Udp(relay) && relay.known() == Seq::<(Seq<char>, SocketAddr)>::empty()
                    && relay.waiting() is None
                &&& session::replies(old(self).conn, Some(seq![RESP_READY]), final(self).conn)
                &&& final(self).is_v2 == old(self).is_v2
            } else {
                *final(self) == *old(self)
            },
    {
        if let Phase::BindingUdp = self.phase {
            let ready: [u8; 1] = [RESP_READY];
            self.reply(&ready);
            assert(ready@ =~= seq![RESP_READY]);
            self.phase = Phase::Udp(UdpRelay::new());
        }
    }

    /// Reports what a lookup gave.
    pub fn udp_resolved(&mut self, a: Option<SocketAddr>) -> (action: ServerAction)
        requires
            old(self).wf(),
        ensures
            final(self).wf(),
            match old(self).phase {
                Phase::Udp(relay) => {
                    &&& final(self).phase matches Phase::Udp(next) && udp::lookup_taken(relay, a, udp_step(action), next)
                    &&& session::replies(old(self).conn, None, final(self).conn)
                    &&& final(self).is_v2 == old(self).is_v2
                },
                _ => action is Again && *final(self) == *old(self),
            },
    {
        let mut phase = Phase::Closed;
        std::mem::swap(&mut phase, &mut self.phase);
        match phase {
            Phase::Udp(relay) => {
                let mut relay = relay;
                let step = relay.resolved(a);
                self.phase = Phase::Udp(relay);
                match step {
                    UdpStep::Bad(fault) => ServerAction::Fail(SessionFault::Frame(fault)),
                    UdpStep::Send { to, data } => ServerAction::SendUdp { to, data },
                    UdpStep::Resolve(target) => ServerAction::Resolve(target),
                    UdpStep::Nothing => ServerAction::Again,
                }
            },
            other => {
                self.phase = other;
                ServerAction::Again
            },
        }
    }
}

}
