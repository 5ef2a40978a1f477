//! What a client takes from the replies to its calls, by their places.

use vstd::prelude::*;

use crate::client::{assigned_id, got_message, granted, received, replied, Client, ClientView};
use crate::descriptor::{md_decoded, options_decoded, MQGMO_CATCHER};
use crate::error::{Fault, TransportError};
use crate::segment::{api_decoded, ApiHeader, Segment, SegmentView};
use crate::text::{decimal, hex_byte};

use super::calls::{a_connect_by_its_places, is_conn, is_next_call};
use super::reading::number_at;
use super::structures::{
    a_message_descriptor_is_read_by_its_places, initial_data_is_read_by_its_places, not_that,
    opens_with, options_are_read_by_their_places,
};
use super::wire::a_header_is_read_by_its_places;

verus! {

/// Whether a failure with `reason` clears by itself.
pub open spec fn will_clear(reason: u32) -> bool {
    reason == 2009 || reason == 2053 || reason == 2059 || reason == 2161 || reason == 2162
        || reason == 2195
}

/// How `reply` fails where the type `due` is due, or the type `kind` of the
/// call itself: there is none, or it is of another type.
pub open spec fn not_due(reply: Option<SegmentView>, kind: u8, due: u8) -> Option<Fault> {
    match reply {
        None => Some(
            Fault {
                message: "the queue manager closed without replying"@,
                retryable: false,
            },
        ),
        Some(segment) => if segment.kind == kind || segment.kind == due {
            None
        } else {
            Some(
                Fault {
                    message: "a 0x"@ + hex_byte(segment.kind) + " segment where a 0x"@ + hex_byte(
                        due,
                    ) + " reply was due"@,
                    retryable: false,
                },
            )
        },
    }
}

/// How a reply of the right type fails: it is too short for a header, or its
/// completion, four bytes in, is not 0; then its reason stands eight bytes in.
pub open spec fn not_granted(body: Seq<u8>) -> Option<Fault> {
    if body.len() < 16 {
        Some(Fault { message: "a segment too short for an API header"@, retryable: false })
    } else if number_at(body, 4) != 0 {
        Some(
            Fault {
                message: "the queue manager refused"@ + ": MQRC "@ + decimal(
                    number_at(body, 8) as nat,
                ),
                retryable: will_clear(number_at(body, 8)),
            },
        )
    } else {
        None
    }
}

/// How the reply to a call of type `kind` fails, if it does.
pub open spec fn failure_of(reply: Option<SegmentView>, kind: u8, due: u8) -> Option<Fault> {
    match not_due(reply, kind, due) {
        Some(fault) => Some(fault),
        None => not_granted(reply->0.body),
    }
}

proof fn lemma_replied(reply: Option<SegmentView>, kind: u8, due: u8)
    requires
        kind == 0x01 && due == 0x01 || kind != 0x01 && due == kind | 0x10u8,
    ensures
        replied(kind, reply) == (match not_due(reply, kind, due) {
            Some(fault) => Err::<SegmentView, Fault>(fault),
            None => Ok(reply->0),
        }),
{
}

/// The types of replies.
pub proof fn lemma_due()
    ensures
        0x81u8 | 0x10u8 == 0x91u8,
        0x82u8 | 0x10u8 == 0x92u8,
        0x83u8 | 0x10u8 == 0x93u8,
        0x84u8 | 0x10u8 == 0x94u8,
        0x85u8 | 0x10u8 == 0x95u8,
        0x86u8 | 0x10u8 == 0x96u8,
{
    assert(0x81u8 | 0x10u8 == 0x91u8 && 0x82u8 | 0x10u8 == 0x92u8 && 0x83u8 | 0x10u8 == 0x93u8
        && 0x84u8 | 0x10u8 == 0x94u8 && 0x85u8 | 0x10u8 == 0x95u8 && 0x86u8 | 0x10u8 == 0x96u8)
        by (bit_vector);
}

proof fn lemma_header(body: Seq<u8>)
    requires
        body.len() >= 16,
    ensures
        api_decoded(body) matches Ok((header, rest)) && header.completion == number_at(body, 4)
            && header.reason == number_at(body, 8) && header.handle == number_at(body, 12)
            && rest == body.skip(16),
{
    a_header_is_read_by_its_places(body);
    let (header, rest) = api_decoded(body)->Ok_0;
    assert(rest =~= body.skip(16));
}

/// What a reply to a call of type `kind` comes to.
pub proof fn lemma_granted(reply: Option<SegmentView>, kind: u8, due: u8)
    requires
        kind != 0x01 && due == kind | 0x10u8,
    ensures
        match failure_of(reply, kind, due) {
            Some(fault) => granted(kind, reply) == Err::<(ApiHeader, Seq<u8>), Fault>(
                fault,
            ),
            None => granted(kind, reply) matches Ok((header, rest)) && header.handle == number_at(
                reply->0.body,
                12,
            ) && rest == reply->0.body.skip(16),
        },
{
    lemma_replied(reply, kind, due);
    if not_due(reply, kind, due) is None && reply->0.body.len() >= 16 {
        lemma_header(reply->0.body);
    }
}

/// Whether `result` is the failure `fault`.
pub open spec fn fails_as<T>(result: Result<T, TransportError>, fault: Fault) -> bool {
    result matches Err(error) && error.message@ == fault.message && error.retryable
        == fault.retryable
}

/// A connect, a close and a disconnect are granted exactly where their
/// replies are of their types and say completion 0.
pub proof fn calls_are_granted_by_their_replies(
    reply: Option<Segment>,
    connected: Result<(), TransportError>,
    closed: Result<(), TransportError>,
    disconnected: Result<(), TransportError>,
)
    requires
        call_ensures(Client::connected, (reply,), connected),
        call_ensures(Client::closed, (reply,), closed),
        call_ensures(Client::disconnected, (reply,), disconnected),
    ensures
        match failure_of(received(reply), 0x81, 0x91) {
            Some(fault) => fails_as(connected, fault),
            None => connected is Ok,
        },
        match failure_of(received(reply), 0x84, 0x94) {
            Some(fault) => fails_as(closed, fault),
            None => closed is Ok,
        },
        match failure_of(received(reply), 0x82, 0x92) {
            Some(fault) => fails_as(disconnected, fault),
            None => disconnected is Ok,
        },
{
    lemma_due();
    lemma_granted(received(reply), 0x81, 0x91);
    lemma_granted(received(reply), 0x84, 0x94);
    lemma_granted(received(reply), 0x82, 0x92);
}

/// What was received is the reply as it came.
pub proof fn a_reply_is_received_as_it_came(reply: Option<Segment>)
    ensures
        match reply {
            None => received(reply) is None,
            Some(segment) => received(reply) matches Some(view) && view.kind == segment.kind
                && view.conversation == segment.conversation && view.request == segment.request
                && view.body == segment.body@,
        },
{
}

/// An open gives the handle twelve bytes into its reply.
pub proof fn open_gives_the_handle_of_its_reply(
    reply: Option<Segment>,
    result: Result<u32, TransportError>,
)
    requires
        call_ensures(Client::opened, (reply,), result),
    ensures
        match failure_of(received(reply), 0x83, 0x93) {
            Some(fault) => fails_as(result, fault),
            None => result matches Ok(handle) && handle == number_at(
                received(reply)->0.body,
                12,
            ),
        },
{
    lemma_due();
    lemma_granted(received(reply), 0x83, 0x93);
}

/// What a reply to a put comes to.
pub proof fn lemma_assigned(reply: Option<SegmentView>)
    ensures
        match failure_of(reply, 0x86, 0x96) {
            Some(fault) => assigned_id(reply) == Err::<Seq<u8>, Fault>(fault),
            None => {
                let body = reply->0.body;
                if body.len() >= 340 && opens_with(body.skip(16), 0x4d, 0x44, 0x20, 0x20) {
                    assigned_id(reply) == Ok::<Seq<u8>, Fault>(body.subrange(64, 88))
                } else {
                    assigned_id(reply) == Err::<Seq<u8>, Fault>(
                        Fault {
                            message: not_that(body.skip(16), seq![0x4du8, 0x44, 0x20, 0x20]),
                            retryable: false,
                        },
                    )
                }
            },
        },
{
    lemma_due();
    lemma_granted(reply, 0x86, 0x96);
    if failure_of(reply, 0x86, 0x96) is None {
        let body = reply->0.body;
        a_message_descriptor_is_read_by_its_places(body.skip(16));
        if body.len() >= 340 {
            assert(body.skip(16).subrange(48, 72) =~= body.subrange(64, 88));
        }
    }
}

/// A put gives the id of the descriptor in its reply, 64 bytes in.
pub proof fn put_gives_the_id_of_its_reply(
    reply: Option<Segment>,
    result: Result<[u8; 24], TransportError>,
)
    requires
        call_ensures(Client::assigned, (reply,), result),
    ensures
        match failure_of(received(reply), 0x86, 0x96) {
            Some(fault) => fails_as(result, fault),
            None => {
                let body = received(reply)->0.body;
                if body.len() >= 340 && opens_with(body.skip(16), 0x4d, 0x44, 0x20, 0x20) {
                    result matches Ok(id) && id@ == body.subrange(64, 88)
                } else {
                    fails_as(
                        result,
                        Fault {
                            message: not_that(body.skip(16), seq![0x4du8, 0x44, 0x20, 0x20]),
                            retryable: false,
                        },
                    )
                }
            },
        },
{
    lemma_assigned(received(reply));
}

/// What the body of a granted get holds: the id 64 bytes in and, behind get
/// options, as many bytes as the length 412 bytes in says; or how it fails.
pub open spec fn message_in(body: Seq<u8>) -> Result<(Seq<u8>, Seq<u8>), Seq<char>> {
    if body.len() < 340 || !opens_with(body.skip(16), 0x4d, 0x44, 0x20, 0x20) {
        Err(not_that(body.skip(16), seq![0x4du8, 0x44, 0x20, 0x20]))
    } else if body.len() < 412 || !opens_with(body.skip(340), 0x47, 0x4d, 0x4f, 0x20) {
        Err(not_that(body.skip(340), seq![0x47u8, 0x4d, 0x4f, 0x20]))
    } else if body.len() < 416 {
        Err("a structure cut short at byte "@ + decimal(72))
    } else if body.len() < 416 + number_at(body, 412) {
        Err("a got message shorter than its length"@)
    } else {
        Ok((body.subrange(64, 88), body.subrange(416, 416 + number_at(body, 412))))
    }
}

proof fn lemma_got_body(body: Seq<u8>)
    requires
        body.len() >= 16,
    ensures
        ({
            let read: Result<(Seq<u8>, Seq<u8>), Fault> = match md_decoded(body.skip(16)) {
                Err(fault) => Err(fault),
                Ok((md, rest)) => match options_decoded(rest, MQGMO_CATCHER@, 72) {
                    Err(fault) => Err(fault),
                    Ok((length, data)) => if data.len() < length {
                        Err(
                            Fault {
                                message: "a got message shorter than its length"@,
                                retryable: false,
                            },
                        )
                    } else {
                        Ok((md.message_id, data.take(length as int)))
                    },
                },
            };
            read == (match message_in(body) {
                Ok(message) => Ok::<(Seq<u8>, Seq<u8>), Fault>(message),
                Err(message) => Err(Fault { message, retryable: false }),
            })
        }),
{
    let rest = body.skip(16);
    a_message_descriptor_is_read_by_its_places(rest);
    if body.len() >= 340 {
        assert(rest.subrange(48, 72) =~= body.subrange(64, 88));
        assert(rest.skip(324) =~= body.skip(340));
        assert(MQGMO_CATCHER@ =~= seq![0x47u8, 0x4d, 0x4f, 0x20]);
        let options = body.skip(340);
        options_are_read_by_their_places(options, MQGMO_CATCHER@, 72);
        if body.len() >= 416 {
            assert(options[72] == body[412] && options[73] == body[413] && options[74] == body[414]
                && options[75] == body[415]);
            assert(options.skip(76) =~= body.skip(416));
            if let Ok((length, data)) = options_decoded(options, MQGMO_CATCHER@, 72) {
                assert(length == number_at(body, 412));
                if data.len() >= length {
                    assert(data.take(length as int) =~= body.subrange(416, 416 + length));
                }
            }
        }
    }
}

/// What a reply to a get comes to.
pub proof fn lemma_got(reply: Option<SegmentView>)
    ensures
        match not_due(reply, 0x85, 0x95) {
            Some(fault) => got_message(reply) == Err::<Option<(Seq<u8>, Seq<u8>)>, Fault>(fault),
            None => {
                let body = reply->0.body;
                if body.len() >= 16 && number_at(body, 8) == 2033 {
                    got_message(reply) == Ok::<Option<(Seq<u8>, Seq<u8>)>, Fault>(None)
                } else {
                    match not_granted(body) {
                        Some(fault) => got_message(reply) == Err::<
                            Option<(Seq<u8>, Seq<u8>)>,
                            Fault,
                        >(fault),
                        None => match message_in(body) {
                            Ok(message) => got_message(reply) == Ok::<
                                Option<(Seq<u8>, Seq<u8>)>,
                                Fault,
                            >(Some(message)),
                            Err(message) => got_message(reply) == Err::<
                                Option<(Seq<u8>, Seq<u8>)>,
                                Fault,
                            >(Fault { message, retryable: false }),
                        },
                    }
                }
            },
        },
{
    lemma_due();
    lemma_replied(reply, 0x85, 0x95);
    if not_due(reply, 0x85, 0x95) is None && reply->0.body.len() >= 16 {
        lemma_header(reply->0.body);
        lemma_got_body(reply->0.body);
    }
}

/// A get finds nothing exactly where its reply's reason is 2033; else it
/// gives the message that a granted reply holds, its id and its bytes.
pub proof fn get_gives_the_message_of_its_reply(
    reply: Option<Segment>,
    result: Result<Option<([u8; 24], Vec<u8>)>, TransportError>,
)
    requires
        call_ensures(Client::got, (reply,), result),
    ensures
        match not_due(received(reply), 0x85, 0x95) {
            Some(fault) => fails_as(result, fault),
            None => {
                let body = received(reply)->0.body;
                if body.len() >= 16 && number_at(body, 8) == 2033 {
                    result is Ok && result->Ok_0 is None
                } else {
                    match not_granted(body) {
                        Some(fault) => fails_as(result, fault),
                        None => match message_in(body) {
                            Ok((id, bytes)) => result matches Ok(Some(got)) && got.0@ == id
                                && got.1@ == bytes,
                            Err(message) => fails_as(
                                result,
                                Fault { message, retryable: false },
                            ),
                        },
                    }
                }
            },
        },
{
    lemma_got(received(reply));
}

/// What an answer to initial data comes to.
pub proof fn lemma_agreed(
    client: ClientView,
    answer: Option<SegmentView>,
    application: Seq<char>,
    kind: u32,
)
    ensures
        match not_due(answer, 0x01, 0x01) {
            Some(fault) => client.agree(answer, application, kind) == Err::<
                (ClientView, SegmentView),
                Fault,
            >(fault),
            None => {
                let body = answer->0.body;
                if body.len() < 96 || !opens_with(body, 0x49, 0x44, 0x20, 0x20) {
                    client.agree(answer, application, kind) == Err::<
                        (ClientView, SegmentView),
                        Fault,
                    >(
                        Fault {
                            message: not_that(body, seq![0x49u8, 0x44, 0x20, 0x20]),
                            retryable: false,
                        },
                    )
                } else {
                    let theirs = number_at(body, 15);
                    &&& client.agree(answer, application, kind) matches Ok((agreed, call))
                    &&& agreed.max_message == (if theirs < client.max_message {
                        theirs
                    } else {
                        client.max_message
                    })
                    &&& agreed.queue_manager == client.queue_manager
                    &&& client.request < u32::MAX ==> agreed.request == client.request + 1
                    &&& call.kind == 0x81 && call.conversation == 1 && call.request
                        == agreed.request
                    &&& is_conn(call.body, client.queue_manager, application, kind as int)
                }
            },
        },
{
    lemma_replied(answer, 0x01, 0x01);
    a_connect_by_its_places(client.queue_manager, application, kind);
    if not_due(answer, 0x01, 0x01) is None {
        initial_data_is_read_by_its_places(answer->0.body);
    }
}

/// A client agrees the smaller of its size and the one that stands 15 bytes
/// into the queue manager's initial data, and then connects to the queue
/// manager it was made for; an answer that is no initial data is refused.
pub proof fn agree_takes_the_smaller_size_and_connects(
    client: Client,
    answer: Option<Segment>,
    application: &str,
    kind: u32,
    result: Result<(Client, Segment), TransportError>,
)
    requires
        call_ensures(Client::agree, (client, answer, application, kind), result),
        client@.request < u32::MAX,
    ensures
        match not_due(received(answer), 0x01, 0x01) {
            Some(fault) => fails_as(result, fault),
            None => {
                let body = received(answer)->0.body;
                if body.len() < 96 || !opens_with(body, 0x49, 0x44, 0x20, 0x20) {
                    fails_as(
                        result,
                        Fault {
                            message: not_that(body, seq![0x49u8, 0x44, 0x20, 0x20]),
                            retryable: false,
                        },
                    )
                } else {
                    let theirs = number_at(body, 15);
                    &&& result matches Ok((agreed, call))
                    &&& agreed@.max_message == (if theirs < client@.max_message {
                        theirs
                    } else {
                        client@.max_message
                    })
                    &&& agreed@.queue_manager == client@.queue_manager
                    &&& agreed@.request == client@.request + 1
                    &&& is_next_call(call, 0x81, client@.request)
                    &&& is_conn(call.body@, client@.queue_manager, application@, kind as int)
                }
            },
        },
{
    lemma_agreed(client@, received(answer), application@, kind);
    if let Ok((_, call)) = result {
        assert(call@.body == call.body@ && call@.kind == call.kind && call@.request
            == call.request && call@.conversation == call.conversation);
    }
}

} // verus!
