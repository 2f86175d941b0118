//! A whole connection: the requests that its reads yield, whatever sizes the
//! reads have.
use vstd::prelude::*;

use crate::parse::{
    law_broken_stays_broken, law_parsed_request_is_canonical, law_request_roundtrip,
    law_stream_emits_request,
    spec_encode_request, spec_parse_command, spec_receive, spec_resume, valid_request,
    CommandView, ParseError, StreamActionView,
};
use crate::encode::spec_encode_response;
use crate::prefixes::{law_request_beginning_needs_more, starts_encoding};
use crate::store::spec_exec;

verus! {

/// A request that is read takes at least one byte and no more than there are.
pub proof fn lemma_request_takes_bytes(s: Seq<u8>)
    requires
        spec_parse_command(s) is Ok,
    ensures
        1 <= spec_parse_command(s).unwrap().1 <= s.len(),
{
    law_parsed_request_is_canonical(s);
}

/// The requests that a connection yields, in order, when `buf` is already
/// held and the reads then return `reads`, until the stream stops. A read
/// that returns nothing, or the reads running out, is the end of the stream.
///
/// Each step is that of `CommandStream`: `resume` on what is held, and when it
/// asks for more, `receive` of the next read, which for a non-empty read is
/// `resume` on the held bytes and the read together.
pub open spec fn session(buf: Seq<u8>, reads: Seq<Seq<u8>>) -> Seq<CommandView>
    decreases reads.len(), buf.len(),
{
    match spec_resume(buf).0 {
        StreamActionView::Emit(c) => {
            proof {
                lemma_request_takes_bytes(buf);
            }
            seq![c] + session(spec_resume(buf).1, reads)
        },
        StreamActionView::Stop => Seq::empty(),
        StreamActionView::ReadMore => if reads.len() == 0 || reads[0].len() == 0 {
            Seq::empty()
        } else {
            session(buf + reads[0], reads.drop_first())
        },
    }
}

/// The bytes of the requests `cs`, one after another.
pub open spec fn encode_all(cs: Seq<CommandView>) -> Seq<u8>
    decreases cs.len(),
{
    if cs.len() == 0 {
        Seq::empty()
    } else {
        spec_encode_request(cs[0]) + encode_all(cs.drop_first())
    }
}

/// When the stream waits for more and the end of the stream comes instead,
/// it stops: the end step of `session` is that of `receive`.
pub proof fn law_end_after_wait_stops(buf: Seq<u8>)
    requires
        spec_resume(buf).0 == StreamActionView::ReadMore,
    ensures
        spec_receive(buf, Seq::empty()) == (StreamActionView::Stop, buf),
{
}

/// A read of bytes while the stream waits is `resume` on the held bytes and
/// the read together: the read step of `session` is that of `receive`.
pub proof fn law_read_is_resume_on_more(buf: Seq<u8>, read: Seq<u8>)
    requires
        read.len() > 0,
    ensures
        spec_receive(buf, read) == spec_resume(buf + read),
{
}

/// Once the stream stops on a broken buffer it stays stopped: resuming keeps
/// it stopped and unchanged, and whatever is read afterwards, or the end of
/// the stream, stops it again.
pub proof fn law_stop_is_final(buf: Seq<u8>, more: Seq<u8>)
    requires
        spec_resume(buf).0 == StreamActionView::Stop,
    ensures
        spec_resume(buf) == (StreamActionView::Stop, buf),
        spec_receive(buf, more).0 == StreamActionView::Stop,
{
    law_broken_stays_broken(buf, more);
}

proof fn lemma_session_emit(buf: Seq<u8>, reads: Seq<Seq<u8>>, c: CommandView)
    requires
        spec_resume(buf).0 == StreamActionView::Emit(c),
    ensures
        session(buf, reads) == seq![c] + session(spec_resume(buf).1, reads),
{
}

proof fn lemma_session_wait(buf: Seq<u8>, reads: Seq<Seq<u8>>)
    requires
        spec_parse_command(buf) == Err::<(CommandView, int), ParseError>(ParseError::NeedMoreData),
        reads.len() > 0,
        reads[0].len() > 0,
    ensures
        session(buf, reads) == session(buf + reads[0], reads.drop_first()),
{
}

proof fn lemma_split_long(buf: Seq<u8>, f: Seq<u8>, e: Seq<u8>, r: Seq<u8>)
    requires
        buf + f == e + r,
        buf.len() >= e.len(),
    ensures
        buf == e + buf.skip(e.len() as int),
        buf.skip(e.len() as int) + f == r,
{
    let b = buf.skip(e.len() as int);
    let whole = buf + f;
    assert(whole.len() == buf.len() + f.len());
    assert(whole.len() == e.len() + r.len());
    assert forall|j: int| 0 <= j < e.len() implies buf[j] == e[j] by {
        assert(whole[j] == buf[j]);
        assert(whole[j] == (e + r)[j]);
    }
    assert(buf =~= e + b);
    assert forall|j: int| 0 <= j < r.len() implies (b + f)[j] == r[j] by {
        let k = e.len() + j;
        assert(whole[k] == (e + r)[k]);
        assert((e + r)[k] == r[j]);
        if j < b.len() {
            assert(whole[k] == buf[k]);
            assert(b[j] == buf[k]);
        } else {
            assert(whole[k] == f[k - buf.len()]);
        }
    }
    assert(b + f =~= r);
}

proof fn lemma_split_short(buf: Seq<u8>, f: Seq<u8>, e: Seq<u8>, r: Seq<u8>)
    requires
        buf + f == e + r,
        buf.len() < e.len(),
    ensures
        buf == e.take(buf.len() as int),
        f.len() > 0,
{
    let whole = buf + f;
    assert(whole.len() == buf.len() + f.len());
    assert(whole.len() == e.len() + r.len());
    assert forall|j: int| 0 <= j < buf.len() implies buf[j] == e[j] by {
        assert(whole[j] == buf[j]);
        assert(whole[j] == (e + r)[j]);
    }
    assert(buf =~= e.take(buf.len() as int));
}

#[verifier::spinoff_prover]
proof fn lemma_session_of_requests(buf: Seq<u8>, reads: Seq<Seq<u8>>, cs: Seq<CommandView>)
    requires
        forall|i: int| 0 <= i < cs.len() ==> valid_request(#[trigger] cs[i]),
        forall|i: int| 0 <= i < reads.len() ==> (#[trigger] reads[i]).len() > 0,
        buf + reads.flatten() == encode_all(cs),
    ensures
        session(buf, reads) == cs,
    decreases reads.len(), buf.len(),
{
    let f = reads.flatten();
    if reads.len() > 0 {
        assert(f == reads[0] + reads.drop_first().flatten());
    }
    if cs.len() == 0 {
        assert(buf.len() == 0 && f.len() == 0);
        assert(reads.len() == 0);
        assert(spec_parse_command(buf) == Err::<(CommandView, int), ParseError>(
            ParseError::NeedMoreData,
        ));
        assert(session(buf, reads) =~= cs);
    } else {
        let c = cs[0];
        let e = spec_encode_request(c);
        let r = encode_all(cs.drop_first());
        if buf.len() >= e.len() {
            lemma_split_long(buf, f, e, r);
            let b = buf.skip(e.len() as int);
            law_stream_emits_request(c, b);
            assert forall|i: int| 0 <= i < cs.drop_first().len() implies valid_request(
                #[trigger] cs.drop_first()[i],
            ) by {
                assert(cs.drop_first()[i] == cs[i + 1]);
            }
            lemma_request_takes_bytes(buf);
            lemma_session_emit(buf, reads, c);
            lemma_session_of_requests(b, reads, cs.drop_first());
            assert(cs =~= seq![c] + cs.drop_first());
        } else {
            lemma_split_short(buf, f, e, r);
            law_request_beginning_needs_more(buf, c);
            let rest = reads.drop_first();
            assert forall|i: int| 0 <= i < rest.len() implies (#[trigger] rest[i]).len() > 0 by {
                assert(rest[i] == reads[i + 1]);
            }
            assert((buf + reads[0]) + rest.flatten() =~= buf + f);
            lemma_session_wait(buf, reads);
            lemma_session_of_requests(buf + reads[0], rest, cs);
        }
    }
}

/// However the bytes of a sequence of valid requests are split into reads,
/// the connection yields exactly those requests, in order, and then stops at
/// the end of the stream.
pub proof fn law_any_split_yields_the_requests(cs: Seq<CommandView>, reads: Seq<Seq<u8>>)
    requires
        forall|i: int| 0 <= i < cs.len() ==> valid_request(#[trigger] cs[i]),
        forall|i: int| 0 <= i < reads.len() ==> (#[trigger] reads[i]).len() > 0,
        reads.flatten() == encode_all(cs),
    ensures
        session(Seq::empty(), reads) == cs,
{
    assert(Seq::<u8>::empty() + reads.flatten() =~= reads.flatten());
    lemma_session_of_requests(Seq::empty(), reads, cs);
}

/// The bytes that answer the requests `cs`, executed in turn on a store
/// holding `m`: the reply to each, one after another.
pub open spec fn replies(m: Map<Seq<u8>, Seq<u8>>, cs: Seq<CommandView>) -> Seq<u8>
    decreases cs.len(),
{
    if cs.len() == 0 {
        Seq::empty()
    } else {
        let (m1, r) = spec_exec(m, cs[0]);
        spec_encode_response(r) + replies(m1, cs.drop_first())
    }
}

/// What a store holding `m` holds after executing the requests `cs` in turn.
pub open spec fn after_requests(m: Map<Seq<u8>, Seq<u8>>, cs: Seq<CommandView>) -> Map<
    Seq<u8>,
    Seq<u8>,
>
    decreases cs.len(),
{
    if cs.len() == 0 {
        m
    } else {
        after_requests(spec_exec(m, cs[0]).0, cs.drop_first())
    }
}

/// However the bytes of a sequence of valid requests are split into reads,
/// a connection to a store holding `m` is written back the replies to those
/// requests, in order, and leaves the store as executing them in turn does.
pub proof fn law_any_split_gets_the_replies(
    m: Map<Seq<u8>, Seq<u8>>,
    cs: Seq<CommandView>,
    reads: Seq<Seq<u8>>,
)
    requires
        forall|i: int| 0 <= i < cs.len() ==> valid_request(#[trigger] cs[i]),
        forall|i: int| 0 <= i < reads.len() ==> (#[trigger] reads[i]).len() > 0,
        reads.flatten() == encode_all(cs),
    ensures
        replies(m, session(Seq::empty(), reads)) == replies(m, cs),
        after_requests(m, session(Seq::empty(), reads)) == after_requests(m, cs),
{
    law_any_split_yields_the_requests(cs, reads);
}

/// At the end of the stream (a read of nothing) a buffer that starts with a
/// complete request yields that request and keeps exactly the bytes after it.
pub proof fn law_end_of_stream_takes_last_request(buf: Seq<u8>)
    requires
        spec_parse_command(buf) is Ok,
    ensures
        spec_receive(buf, Seq::empty()) == (
            StreamActionView::Emit(spec_parse_command(buf).unwrap().0),
            buf.skip(spec_parse_command(buf).unwrap().1),
        ),
{
    lemma_request_takes_bytes(buf);
}

/// At the end of the stream, a buffer holding a valid request as the grammar
/// writes it, followed by anything, yields that request and keeps the rest.
pub proof fn law_end_of_stream_yields_encoded_request(c: CommandView, rest: Seq<u8>)
    requires
        valid_request(c),
    ensures
        spec_receive(spec_encode_request(c) + rest, Seq::empty()) == (
            StreamActionView::Emit(c),
            rest,
        ),
{
    law_request_roundtrip(c, rest);
    let b = spec_encode_request(c) + rest;
    lemma_request_takes_bytes(b);
    assert(b.skip(spec_encode_request(c).len() as int) =~= rest);
}

} // verus!
