//! The decisions a connection makes between reading and writing: when its
//! buffer has grown too large, and how each received frame is answered.

use bytes::BytesMut;
use vstd::prelude::*;
use crate::buffer::buffered;
use crate::command::{command_spec, execute_spec, Command};
use crate::db::Db;
use crate::frame::{lemma_views_of, parse_frame, parse_spec, views_of, FrameView, RespFrame};
use crate::frame_laws::lemma_parse_determined_by_prefix;

verus! {

/// The most bytes a connection may hold unparsed; past it the connection
/// is told so and closed.
pub const MAX_BUFFER_BYTES: usize = 64 * 1024 * 1024;

/// The error to send before closing a connection whose buffer holds `len`
/// bytes, or `None` while it is within the limit.
pub fn buffer_overflow_reply(len: usize) -> (res: Option<RespFrame>)
    ensures
        res is Some <==> len > MAX_BUFFER_BYTES,
        res matches Some(f) ==> f@ == FrameView::Error("ERR buffer limit exceeded"@),
{
    if len > MAX_BUFFER_BYTES {
        Some(RespFrame::Error("ERR buffer limit exceeded".to_owned()))
    } else {
        None
    }
}

/// The reply to a received frame, and the store afterwards: the result of
/// running the command it carries, or, when it carries none, an error frame
/// with `ERR ` before the reason and the store unchanged.
pub open spec fn respond_spec(f: FrameView, db: Map<Seq<char>, Seq<u8>>) -> (
    FrameView,
    Map<Seq<char>, Seq<u8>>,
) {
    match command_spec(f) {
        Ok(cmd) => execute_spec(cmd, db),
        Err(msg) => (FrameView::Error("ERR "@ + msg), db),
    }
}

/// What a connection makes of the bytes `s` it holds: the replies to the
/// whole frames at their start, one per frame and in order, the bytes left
/// after them (which hold no whole frame), and the store afterwards.
pub open spec fn serve_spec(s: Seq<u8>, db: Map<Seq<char>, Seq<u8>>) -> (
    Seq<FrameView>,
    Seq<u8>,
    Map<Seq<char>, Seq<u8>>,
)
    decreases s.len(),
{
    match parse_spec(s) {
        Some((f, n)) => if 0 < n <= s.len() {
            let (reply, db1) = respond_spec(f, db);
            let (more, rest, db2) = serve_spec(s.skip(n), db1);
            (seq![reply] + more, rest, db2)
        } else {
            (Seq::empty(), s, db)
        },
        None => (Seq::empty(), s, db),
    }
}

/// The reply to one received frame: the result of running the command it
/// carries, or, when it carries none, an error frame with `ERR ` before the
/// reason.
pub fn respond(frame: RespFrame, db: &mut Db) -> (res: RespFrame)
    ensures
        (res@, final(db)@) == respond_spec(frame@, old(db)@),
{
    match Command::parse(frame) {
        Ok(cmd) => cmd.execute(db),
        Err(msg) => {
            let mut text = "ERR ".to_owned();
            text.append(msg.as_str());
            RespFrame::Error(text)
        },
    }
}

/// Answers every whole frame at the start of `buf`, in order, taking those
/// frames off `buf`; what is left holds no whole frame and waits for more
/// bytes.
pub fn answer_all(buf: &mut BytesMut, db: &mut Db) -> (res: Vec<RespFrame>)
    ensures
        ({
            let (replies, rest, after) = serve_spec(buffered(*old(buf)), old(db)@);
            &&& views_of(res@) == replies
            &&& buffered(*final(buf)) == rest
            &&& final(db)@ == after
        }),
{
    let ghost start = buffered(*buf);
    let ghost db0 = db@;
    let mut replies: Vec<RespFrame> = Vec::new();
    assert(serve_spec(start, db0) == ({
        let (more, rest, d) = serve_spec(buffered(*buf), db@);
        (views_of(replies@) + more, rest, d)
    })) by {
        assert(views_of(replies@) + serve_spec(start, db0).0 =~= serve_spec(start, db0).0);
    }
    loop
        invariant
            serve_spec(start, db0) == ({
                let (more, rest, d) = serve_spec(buffered(*buf), db@);
                (views_of(replies@) + more, rest, d)
            }),
        ensures
            views_of(replies@) == serve_spec(start, db0).0,
            buffered(*buf) == serve_spec(start, db0).1,
            db@ == serve_spec(start, db0).2,
        decreases buffered(*buf).len(),
    {
        let ghost before = buffered(*buf);
        let ghost old_replies = replies@;
        proof {
            lemma_parse_determined_by_prefix(before, before);
        }
        match parse_frame(buf) {
            None => {
                assert(serve_spec(buffered(*buf), db@) == (Seq::<FrameView>::empty(), buffered(
                    *buf,
                ), db@));
                assert(views_of(replies@) + Seq::<FrameView>::empty() =~= views_of(replies@));
                break;
            },
            Some(frame) => {
                let reply = respond(frame, db);
                replies.push(reply);
                proof {
                    assert(replies@.drop_last() =~= old_replies);
                    let (more, rest, d) = serve_spec(buffered(*buf), db@);
                    assert(views_of(replies@) + more =~= views_of(old_replies) + (seq![reply@]
                        + more));
                }
            },
        }
    }
    replies
}

} // verus!
