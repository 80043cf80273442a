//! What the sessions of both sides share: a read and a reply in one step, and the end of a relay.
use crate::obfs;
use crate::snell;
use crate::snell::{Decoder, SnellConn, Stop};
use vstd::prelude::*;

verus! {

/// What a session reads and writes in a step: a read comes to `next` with `rest` unread, and then
/// `reply`, if any, goes out in records.
pub open spec fn answers(before: SnellConn, next: Decoder, rest: Seq<u8>, reply: Option<Seq<u8>>, after: SnellConn) -> bool {
    &&& after.wf()
    &&& after.decoder() == next
    &&& after.wire().inbox@ == rest
    &&& after.wire().eof == before.wire().eof
    &&& match reply {
        None => after.encoder() == before.encoder() && after.wire().outbox@ == before.wire().outbox@,
        Some(data) => snell::sent(before, snell::write_suite(next), next.psk, data, after),
    }
}

/// A reply and nothing read.
pub open spec fn replies(before: SnellConn, reply: Option<Seq<u8>>, after: SnellConn) -> bool {
    answers(before, before.decoder(), before.wire().inbox@, reply, after)
}

/// A read and then a reply.
pub proof fn lemma_answer(before: SnellConn, mid: SnellConn, reply: Option<Seq<u8>>, after: SnellConn)
    requires
        snell::moves(before, mid.decoder(), mid.wire().inbox@, mid),
        replies(mid, reply, after),
    ensures
        answers(before, mid.decoder(), mid.wire().inbox@, reply, after),
{
    assert(obfs::appended(before.wire(), after.wire()) == obfs::appended(mid.wire(), after.wire()));
}

/// Whether a read waits for more bytes.
pub open spec fn waits(stop: Stop) -> bool {
    stop is Lacking
}

/// What a side writes at the end of a relay: in version 2 the record that ends its stream.
pub open spec fn relay_reply(is_v2: bool) -> Option<Seq<u8>> {
    if is_v2 {
        Some(seq![])
    } else {
        None
    }
}

}
