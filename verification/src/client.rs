//! The client's end of a session, and what it takes to open one.
//!
//! As on the server's side, whoever runs a session feeds the connection with the bytes that arrive,
//! calls `step` until it asks to wait or to act, and reports what came of it.
use crate::aead;
use crate::handshake;
use crate::handshake::ErrorPart;
use crate::obfs;
use crate::session;
use crate::snell;
use crate::snell::{SnellConn, Stop, RELAY_BUF_SIZE, RESP_ERROR, RESP_TUNNEL};
use crate::socks5;
use crate::socks5::SocksAddr;
use crate::text;
use crate::wire;
use crate::wire::{IoError, Wire};
use vstd::prelude::*;

verus! {

// ---- Opening a session ----

/// What a client needs to know of its server.
#[derive(Clone)]
pub struct SnellClient {
    server: String,
    obfs: String,
    obfs_host: String,
    psk: String,
    is_v2: bool,
}

/// The port of a server address: what stands behind its last colon, or all of it.
pub open spec fn port_text(server: Seq<char>) -> Seq<char> {
    match text::rsplit_once(server, ':') {
        Some((_, port)) => port,
        None => server,
    }
}

/// What a client does for an application.
#[derive(Debug)]
pub enum ClientPlan {
    /// Keeps the application's connection open until it closes it.
    Hold,
    /// Opens a tunnel to a target.
    Tunnel(String),
}

/// What a client does on a SOCKS command.
pub fn plan(address: &SocksAddr, command: u8) -> (r: ClientPlan)
    ensures
        if command == socks5::CMD_UDP_ASSOCIATE {
            r is Hold
        } else {
            r matches ClientPlan::Tunnel(target) && target@ == socks5::addr_text(address.data@)
        },
{
    if command == socks5::CMD_UDP_ASSOCIATE {
        ClientPlan::Hold
    } else {
        ClientPlan::Tunnel(address.to_string_addr())
    }
}

impl SnellClient {
    /// The address of the server.
    pub closed spec fn server(&self) -> Seq<char> {
        self.server@
    }

    /// The obfuscation type.
    pub closed spec fn obfs(&self) -> Seq<char> {
        self.obfs@
    }

    /// The host that the disguise presents.
    pub closed spec fn obfs_host(&self) -> Seq<char> {
        self.obfs_host@
    }

    /// The pre-shared key.
    pub closed spec fn psk(&self) -> Seq<char> {
        self.psk@
    }

    /// Whether the client speaks version 2.
    pub closed spec fn is_v2(&self) -> bool {
        self.is_v2
    }

    /// The writing half of the disguise.
    pub open spec fn writer(&self) -> obfs::Writer {
        snell::client_writer(self.obfs(), self.obfs_host(), port_text(self.server()))
    }

    /// A client of a server.
    pub fn new(server: &str, obfs: &str, obfs_host: &str, psk: &str, is_v2: bool) -> (c: SnellClient)
        ensures
            c.server() == server@,
            c.obfs() == obfs@,
            c.obfs_host() == obfs_host@,
            c.psk() == psk@,
            c.is_v2() == is_v2,
    {
        SnellClient {
            server: server.to_owned(),
            obfs: obfs.to_owned(),
            obfs_host: obfs_host.to_owned(),
            psk: psk.to_owned(),
            is_v2,
        }
    }

    /// The address of the server, to connect to.
    pub fn server_addr(&self) -> (r: &str)
        ensures
            r@ == self.server(),
    {
        self.server.as_str()
    }

    /// The port of the server, as text.
    fn server_port(&self) -> (r: String)
        ensures
            r@ == port_text(self.server()),
    {
        let chars = text::chars_of(self.server.as_str());
        let n: usize = chars.len();
        match text::find_last(chars.as_slice(), ':') {
            None => text::string_of(chars.as_slice()),
            Some(i) => {
                let port = vstd::slice::slice_subrange(chars.as_slice(), i + 1, n);
                assert(port@ =~= self.server@.skip(i + 1));
                text::string_of(port)
            },
        }
    }

    /// Opens a session on a fresh connection to the server: the request for the target goes out.
    pub fn create_session(&self, target: &str) -> (r: Result<ClientSession, IoError>)
        requires
            aead::psk_fits(vstd::utf8::encode_utf8(self.psk())),
        ensures
            r matches Ok(session) && session.conn.wf() && session.is_v2 == self.is_v2() && session.phase is Response
                && session.conn.decoder() == snell::fresh_decoder(
                self.writer().kind,
                vstd::utf8::encode_utf8(self.psk()),
                snell::client_suite(self.is_v2()),
                None,
            ) && session.conn.wire().inbox@ == Seq::<u8>::empty() && !session.conn.wire().eof && asks(
                *self,
                target@,
                session.conn,
            ),
    {
        let port = self.server_port();
        let wire = Wire::new();
        let conn = SnellConn::new_client_conn(
            wire,
            self.psk.as_str().as_bytes(),
            self.obfs.as_str(),
            self.obfs_host.as_str(),
            port.as_str(),
            self.is_v2,
        );
        match conn {
            Err(e) => Err(e),
            Ok(conn) => {
                let mut conn = conn;
                let ghost before = conn;
                let _written = handshake::write_header(&mut conn, target, self.is_v2);
                assert(obfs::appended(before.wire(), conn.wire()) =~= conn.wire().outbox@);
                Ok(ClientSession { conn, is_v2: self.is_v2, phase: ClientPhase::Response })
            },
        }
    }
}

/// Whether a connection has to send a request for a target, and nothing else.
pub open spec fn asks(client: SnellClient, target: Seq<char>, conn: SnellConn) -> bool {
    exists|salt: Seq<u8>| #[trigger]
        snell::sends(
            snell::fresh_encoder(client.writer()),
            snell::client_suite(client.is_v2()),
            vstd::utf8::encode_utf8(client.psk()),
            salt,
            snell::chunks(handshake::request(target, client.is_v2())),
            conn.wire().outbox@,
            conn.encoder(),
        )
}

// ---- The session ----

/// What a session is at.
#[derive(Clone, Copy, PartialEq, Eq, Structural, Debug)]
pub enum ClientPhase {
    /// Waiting for the server's response.
    Response,
    /// Reading the message of an error response.
    Details(ErrorPart),
    /// Passing data between the application and the server.
    Relaying,
    /// Dropping what the server still sends, until it ends its stream.
    Draining,
    /// Over.
    Closed,
}

/// What a session asks for.
#[derive(Debug)]
pub enum ClientAction {
    /// Call `step` again.
    Again,
    /// Wait for bytes from the server.
    AwaitServer,
    /// Wait for bytes from the server or the application.
    AwaitEither,
    /// Send bytes to the application; `app_ended` reports a failure.
    ToApp(Vec<u8>),
    /// Close both connections.
    Close,
    /// Close both connections, because of an error.
    Fail(IoError),
}

/// The client's end of a session.
pub struct ClientSession {
    /// The connection to the server.
    pub conn: SnellConn,
    /// Whether the session speaks version 2.
    pub is_v2: bool,
    /// What the session is at.
    pub phase: ClientPhase,
}

/// Whether a session fails for what stopped a read.
pub open spec fn fails(action: ClientAction, stop: Stop) -> bool {
    action matches ClientAction::Fail(e) && snell::tells(e, stop)
}

/// A step while the response is awaited.
pub open spec fn response_stepped(before: ClientSession, action: ClientAction, after: ClientSession) -> bool {
    let t = snell::snell_read(before.conn.decoder(), before.conn.wire().inbox@, before.conn.wire().eof, 1);
    &&& session::answers(before.conn, t.next, t.rest, None, after.conn)
    &&& match t.result {
        Ok(got) => {
            let code = handshake::buffer(got, 1)[0];
            if code == RESP_ERROR {
                action is Again && after.phase == ClientPhase::Details(ErrorPart::Code)
            } else if code == RESP_TUNNEL {
                action is Again && after.phase == ClientPhase::Relaying
            } else {
                action matches ClientAction::Fail(IoError::UnsupportedResponse) && after.phase == ClientPhase::Closed
            }
        },
        Err(stop) => if session::waits(stop) {
            action is AwaitServer && after.phase == ClientPhase::Response
        } else {
            fails(action, stop) && after.phase == ClientPhase::Closed
        },
    }
}

/// A step while the message of an error response is read.
pub open spec fn details_stepped(p: ErrorPart, before: ClientSession, action: ClientAction, after: ClientSession) -> bool {
    let e = handshake::error_read(p, before.conn.decoder(), before.conn.wire().inbox@, before.conn.wire().eof);
    &&& session::answers(before.conn, e.next, e.rest, None, after.conn)
    &&& match e.result {
        Ok(message) => action matches ClientAction::Fail(IoError::Server(m)) && m@ == message && after.phase
            == ClientPhase::Closed,
        Err(stop) => if session::waits(stop) {
            action is AwaitServer && after.phase == ClientPhase::Details(e.progress)
        } else {
            fails(action, stop) && after.phase == ClientPhase::Closed
        },
    }
}

/// The phase behind a relay: in version 2 what the server still sends is dropped, unless it has
/// ended its stream.
pub open spec fn behind_relay(is_v2: bool, server_ended: bool) -> ClientPhase {
    if is_v2 && !server_ended {
        ClientPhase::Draining
    } else {
        ClientPhase::Closed
    }
}

/// A step of a relay: what the server sends goes to the application, until the server ends its
/// stream or the connection fails.
pub open spec fn relay_stepped(before: ClientSession, action: ClientAction, after: ClientSession) -> bool {
    let t = snell::snell_read(
        before.conn.decoder(),
        before.conn.wire().inbox@,
        before.conn.wire().eof,
        RELAY_BUF_SIZE as nat,
    );
    let over = session::relay_reply(before.is_v2);
    match t.result {
        Ok(out) => if out.len() > 0 {
            &&& session::answers(before.conn, t.next, t.rest, None, after.conn)
            &&& action matches ClientAction::ToApp(data) && data@ == out
            &&& after.phase == ClientPhase::Relaying
        } else {
            &&& session::answers(before.conn, t.next, t.rest, over, after.conn)
            &&& action is Again
            &&& after.phase == behind_relay(before.is_v2, false)
        },
        Err(stop) => if session::waits(stop) {
            &&& session::answers(before.conn, t.next, t.rest, None, after.conn)
            &&& action is AwaitEither
            &&& after.phase == ClientPhase::Relaying
        } else {
            &&& session::answers(before.conn, t.next, t.rest, over, after.conn)
            &&& action is Again
            &&& after.phase == behind_relay(before.is_v2, stop is ZeroChunk)
        },
    }
}

/// A step of draining.
pub open spec fn drain_stepped(before: ClientSession, action: ClientAction, after: ClientSession) -> bool {
    let t = snell::snell_read(
        before.conn.decoder(),
        before.conn.wire().inbox@,
        before.conn.wire().eof,
        RELAY_BUF_SIZE as nat,
    );
    &&& session::answers(before.conn, t.next, t.rest, None, after.conn)
    &&& match t.result {
        Ok(_) => action is Again && after.phase == ClientPhase::Draining,
        Err(stop) => if session::waits(stop) {
            action is AwaitServer && after.phase == ClientPhase::Draining
        } else {
            action is Close && after.phase == ClientPhase::Closed
        },
    }
}

/// A step of a session.
pub open spec fn stepped(before: ClientSession, action: ClientAction, after: ClientSession) -> bool {
    &&& after.is_v2 == before.is_v2
    &&& match before.phase {
        ClientPhase::Response => response_stepped(before, action, after),
        ClientPhase::Details(p) => details_stepped(p, before, action, after),
        ClientPhase::Relaying => relay_stepped(before, action, after),
        ClientPhase::Draining => drain_stepped(before, action, after),
        ClientPhase::Closed => action is Close && after == before,
    }
}

impl ClientSession {
    /// Ends a relay.
    fn end_relay(&mut self, server_ended: bool)
        requires
            old(self).conn.wf(),
        ensures
            session::replies(old(self).conn, session::relay_reply(old(self).is_v2), final(self).conn),
            final(self).phase == behind_relay(old(self).is_v2, server_ended),
            final(self).is_v2 == old(self).is_v2,
    {
        if self.is_v2 {
            let _written = self.conn.write_zero_chunk();
            self.phase = if server_ended {
                ClientPhase::Closed
            } else {
                ClientPhase::Draining
            };
        } else {
            self.phase = ClientPhase::Closed;
        }
    }

    fn step_response(&mut self) -> (action: ClientAction)
        requires
            old(self).conn.wf(),
            old(self).phase == ClientPhase::Response,
        ensures
            response_stepped(*old(self), action, *final(self)),
            final(self).is_v2 == old(self).is_v2,
    {
        match self.conn.read_response() {
            Err(IoError::WouldBlock) => ClientAction::AwaitServer,
            Err(e) => {
                self.phase = ClientPhase::Closed;
                ClientAction::Fail(e)
            },
            Ok(code) => {
                if code == RESP_ERROR {
                    self.phase = ClientPhase::Details(ErrorPart::Code);
                    ClientAction::Again
                } else if code == RESP_TUNNEL {
                    self.phase = ClientPhase::Relaying;
                    ClientAction::Again
                } else {
                    self.phase = ClientPhase::Closed;
                    ClientAction::Fail(IoError::UnsupportedResponse)
                }
            },
        }
    }

    fn step_details(&mut self, p: ErrorPart) -> (action: ClientAction)
        requires
            old(self).conn.wf(),
        ensures
            details_stepped(p, *old(self), action, *final(self)),
            final(self).is_v2 == old(self).is_v2,
    {
        let mut progress = p;
        match self.conn.read_error_response(&mut progress) {
            Err(IoError::WouldBlock) => {
                self.phase = ClientPhase::Details(progress);
                ClientAction::AwaitServer
            },
            Err(e) => {
                self.phase = ClientPhase::Closed;
                ClientAction::Fail(e)
            },
            Ok(message) => {
                self.phase = ClientPhase::Closed;
                ClientAction::Fail(IoError::Server(message))
            },
        }
    }

    fn step_relay(&mut self) -> (action: ClientAction)
        requires
            old(self).conn.wf(),
            old(self).phase == ClientPhase::Relaying,
        ensures
            relay_stepped(*old(self), action, *final(self)),
            final(self).is_v2 == old(self).is_v2,
    {
        let server_ended = match self.conn.read_up_to(RELAY_BUF_SIZE) {
            Err(IoError::WouldBlock) => {
                return ClientAction::AwaitEither;
            },
            Err(e) => wire::is_zero_chunk(&e),
            Ok(out) => {
                if out.len() > 0 {
                    return ClientAction::ToApp(out);
                }
                false
            },
        };
        let ghost mid = self.conn;
        self.end_relay(server_ended);
        proof {
            session::lemma_answer(old(self).conn, mid, session::relay_reply(old(self).is_v2), self.conn);
        }
        ClientAction::Again
    }

    fn step_drain(&mut self) -> (action: ClientAction)
        requires
            old(self).conn.wf(),
            old(self).phase == ClientPhase::Draining,
        ensures
            drain_stepped(*old(self), action, *final(self)),
            final(self).is_v2 == old(self).is_v2,
    {
        match self.conn.read_up_to(RELAY_BUF_SIZE) {
            Err(IoError::WouldBlock) => ClientAction::AwaitServer,
            Err(_) => {
                self.phase = ClientPhase::Closed;
                ClientAction::Close
            },
            Ok(_) => ClientAction::Again,
        }
    }

    /// Goes on with the bytes that have arrived.
    pub fn step(&mut self) -> (action: ClientAction)
        requires
            old(self).conn.wf(),
        ensures
            final(self).conn.wf(),
            stepped(*old(self), action, *final(self)),
    {
        match self.phase {
            ClientPhase::Response => self.step_response(),
            ClientPhase::Details(p) => self.step_details(p),
            ClientPhase::Relaying => self.step_relay(),
            ClientPhase::Draining => self.step_drain(),
            ClientPhase::Closed => ClientAction::Close,
        }
    }

    /// Reports bytes from the application, which go to the server. No bytes are the end of the
    /// application's stream.
    pub fn app_data(&mut self, data: &[u8])
        requires
            old(self).conn.wf(),
        ensures
            final(self).conn.wf(),
            final(self).is_v2 == old(self).is_v2,
            if old(self).phase == ClientPhase::Relaying {
                if data@.len() > 0 {
                    &&& session::replies(old(self).conn, Some(data@), final(self).conn)
                    &&& final(self).phase == ClientPhase::Relaying
                } else {
                    &&& session::replies(old(self).conn, session::relay_reply(old(self).is_v2), final(self).conn)
                    &&& final(self).phase == behind_relay(old(self).is_v2, false)
                }
            } else {
                *final(self) == *old(self)
            },
    {
        if self.phase == ClientPhase::Relaying {
            if data.len() > 0 {
                let _written = self.conn.snell_write(data);
            } else {
                self.end_relay(false);
            }
        }
    }

    /// Reports that the application's stream failed.
    pub fn app_ended(&mut self)
        requires
            old(self).conn.wf(),
        ensures
            final(self).conn.wf(),
            final(self).is_v2 == old(self).is_v2,
            if old(self).phase == ClientPhase::Relaying {
                &&& session::replies(old(self).conn, session::relay_reply(old(self).is_v2), final(self).conn)
                &&& final(self).phase == behind_relay(old(self).is_v2, false)
            } else {
                *final(self) == *old(self)
            },
    {
        if self.phase == ClientPhase::Relaying {
            self.end_relay(false);
        }
    }
}

/// The port of a server address is what stands behind its last colon, and all of an address that holds
/// none.
pub proof fn lemma_port_text(host: Seq<char>, port: Seq<char>)
    requires
        !port.contains(':'),
    ensures
        port_text(host + seq![':'] + port) == port,
        port_text(port) == port,
{
    text::lemma_rsplit_once(host, ':', port);
}

/// A client opens a tunnel to the address that an application asks for, whatever its type; where the
/// application asks for UDP, it holds the connection.
pub proof fn lemma_plan(address: SocksAddr, command: u8, r: ClientPlan)
    requires
        call_ensures(plan, (&address, command), r),
    ensures
        command == 3 ==> r is Hold,
        command != 3 ==> (r matches ClientPlan::Tunnel(target) && target@ == socks5::addr_text(address.data@)),
{
}

}
