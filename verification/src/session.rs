//! What a connection may send, and what a control message may bring.

use crate::http::{
    header_end, law_remainder_holds_no_request, law_streams_may_be_cut_anywhere, remainder,
    requests, responses, Asked,
};
use vstd::prelude::*;

verus! {

/// How many bytes a connection may leave unanswered.
pub const MAX_PENDING: usize = 16_384;

/// Whether a connection with bytes pending stays open after a read: something was read, and not
/// too much is pending then.
pub open spec fn stays_open(pending: Seq<u8>, chunk: Seq<u8>) -> bool {
    chunk.len() > 0 && pending.len() + chunk.len() <= MAX_PENDING
}

/// Adds what was read to what is pending, and says whether the connection stays open: it is
/// closed once nothing more comes, or too much is pending.
pub fn receive(pending: &mut Vec<u8>, chunk: &[u8]) -> (open: bool)
    ensures
        final(pending)@ == old(pending)@ + chunk@,
        open == stays_open(old(pending)@, chunk@),
{
    if chunk.len() == 0 {
        assert(pending@ =~= pending@ + chunk@);
        return false;
    }
    pending.extend_from_slice(chunk);
    pending.len() <= MAX_PENDING
}

/// The level and the type of a control message.
#[derive(Clone, Copy, Debug, PartialEq, Eq, Structural)]
pub struct ControlKind {
    pub level: i32,
    pub kind: i32,
}

/// Whether a message brings descriptors: something was received, with a control message of the
/// kind that carries them.
pub fn brings_descriptor(received: isize, control: Option<ControlKind>, rights: ControlKind) -> (
    answer: bool)
    ensures
        answer == (received > 0 && control == Some(rights)),
{
    match control {
        Some(control) => received > 0 && control == rights,
        None => false,
    }
}

/// The descriptor, unless it is negative.
pub fn valid_descriptor(descriptor: i32) -> (valid: Option<i32>)
    ensures
        valid == if descriptor >= 0 {
            Some(descriptor)
        } else {
            None
        },
{
    if descriptor >= 0 {
        Some(descriptor)
    } else {
        None
    }
}

/// Where the control socket of a server lies.
pub fn control_path(socket_path: &str) -> (path: String)
    ensures
        path@ == socket_path@ + ".ctrl"@,
{
    let mut path: String = socket_path.to_string();
    path.append(".ctrl");
    path
}

/// The requests that a connection answers: after each read, all that are whole by then, until it
/// is closed or nothing more comes.
pub open spec fn served(pending: Seq<u8>, reads: Seq<Seq<u8>>) -> Seq<Asked>
    decreases reads.len(),
{
    if reads.len() == 0 || !stays_open(pending, reads[0]) {
        seq![]
    } else {
        let input = pending + reads[0];
        requests(input) + served(remainder(input), reads.drop_first())
    }
}

/// No read closes the connection.
pub open spec fn all_accepted(pending: Seq<u8>, reads: Seq<Seq<u8>>) -> bool
    decreases reads.len(),
{
    reads.len() > 0 ==> stays_open(pending, reads[0]) && all_accepted(
        remainder(pending + reads[0]),
        reads.drop_first(),
    )
}

/// A connection that no read closes answers the requests of all that it was sent, as if that had
/// come in one piece.
pub proof fn law_reads_are_answered_as_one_stream(pending: Seq<u8>, reads: Seq<Seq<u8>>)
    requires
        all_accepted(pending, reads),
        requests(pending) == Seq::<Asked>::empty(),
    ensures
        served(pending, reads) == requests(pending + reads.flatten()),
    decreases reads.len(),
{
    if reads.len() == 0 {
        assert(pending + reads.flatten() =~= pending);
    } else {
        let input = pending + reads[0];
        let rest = reads.drop_first();
        law_remainder_holds_no_request(input);
        law_reads_are_answered_as_one_stream(remainder(input), rest);
        law_streams_may_be_cut_anywhere(input, rest.flatten());
        assert(pending + reads.flatten() =~= input + rest.flatten());
    }
}

/// Reads that bring no more than may be pending close no connection, unless one brings nothing.
pub proof fn law_short_streams_are_accepted(pending: Seq<u8>, reads: Seq<Seq<u8>>)
    requires
        forall|i: int| 0 <= i < reads.len() ==> (#[trigger] reads[i]).len() > 0,
        pending.len() + reads.flatten().len() <= MAX_PENDING,
    ensures
        all_accepted(pending, reads),
    decreases reads.len(),
{
    if reads.len() > 0 {
        let rest = reads.drop_first();
        assert(reads.flatten() =~= reads[0] + rest.flatten());
        assert forall|i: int| 0 <= i < rest.len() implies (#[trigger] rest[i]).len() > 0 by {
            assert(rest[i] == reads[i + 1]);
        }
        law_remainder_holds_no_request(pending + reads[0]);
        law_short_streams_are_accepted(remainder(pending + reads[0]), rest);
    }
}

/// How a stream is cut into reads makes no difference: two connections that are sent the same
/// bytes, no more than may be pending, answer the same requests with the same bytes. These are the
/// requests of the whole stream; one that is not whole at its end gets no answer.
pub proof fn law_cuts_do_not_change_the_answers(
    one: Seq<Seq<u8>>,
    other: Seq<Seq<u8>>,
    frauds: spec_fn(Seq<u8>) -> Option<nat>,
)
    requires
        one.flatten() == other.flatten(),
        one.flatten().len() <= MAX_PENDING,
        forall|i: int| 0 <= i < one.len() ==> (#[trigger] one[i]).len() > 0,
        forall|i: int| 0 <= i < other.len() ==> (#[trigger] other[i]).len() > 0,
    ensures
        all_accepted(seq![], one),
        all_accepted(seq![], other),
        served(seq![], one) == requests(one.flatten()),
        served(seq![], other) == served(seq![], one),
        responses(served(seq![], other), frauds) == responses(served(seq![], one), frauds),
{
    let nothing = Seq::<u8>::empty();
    assert(header_end(nothing, 0) is None);
    assert(requests(nothing) =~= seq![]);
    law_short_streams_are_accepted(nothing, one);
    law_short_streams_are_accepted(nothing, other);
    law_reads_are_answered_as_one_stream(nothing, one);
    law_reads_are_answered_as_one_stream(nothing, other);
    assert(nothing + one.flatten() =~= one.flatten());
}

/// A connection is closed by a read that brings nothing, and by one after which more than 16384
/// bytes are pending, and by no other.
pub proof fn law_connections_are_closed_for_two_reasons(pending: Seq<u8>, chunk: Seq<u8>)
    ensures
        chunk.len() == 0 ==> !stays_open(pending, chunk),
        (pending + chunk).len() > 16_384 ==> !stays_open(pending, chunk),
        chunk.len() > 0 && (pending + chunk).len() <= 16_384 ==> stays_open(pending, chunk),
{
}

} // verus!
