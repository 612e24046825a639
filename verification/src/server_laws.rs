//! Laws of a whole connection: every whole frame is answered once and in
//! order, and how the bytes were split into reads makes no difference.

use vstd::prelude::*;
use crate::frame::{parse_spec, serialized, serialized_items, FrameView};
use crate::frame_laws::{
    lemma_parse_determined_by_prefix, lemma_parse_extend, lemma_parse_serialized,
    lemma_serialized_nonempty, well_formed,
};
use crate::command::{command_spec, execute_spec, CommandView};
use crate::server::{respond_spec, serve_spec};

verus! {

/// Serving the bytes `a` and then what is left of them followed by `b`
/// answers the same frames, in the same order, leaves the same bytes and
/// the same store as serving `a` and `b` arriving together.
pub proof fn lemma_serve_split(a: Seq<u8>, b: Seq<u8>, db: Map<Seq<char>, Seq<u8>>)
    ensures
        ({
            let (r1, rest1, db1) = serve_spec(a, db);
            let (r2, rest2, db2) = serve_spec(rest1 + b, db1);
            serve_spec(a + b, db) == (r1 + r2, rest2, db2)
        }),
    decreases a.len(),
{
    lemma_parse_determined_by_prefix(a, a);
    match parse_spec(a) {
        Some((f, n)) => {
            lemma_parse_extend(a, b);
            let (reply, db1) = respond_spec(f, db);
            assert((a + b).skip(n) =~= a.skip(n) + b);
            lemma_serve_split(a.skip(n), b, db1);
            let (more, rest1, d1) = serve_spec(a.skip(n), db1);
            let (r2, rest2, d2) = serve_spec(rest1 + b, d1);
            assert(seq![reply] + more + r2 =~= seq![reply] + (more + r2));
        },
        None => {
            assert(Seq::<FrameView>::empty() + serve_spec(a + b, db).0 =~= serve_spec(a + b, db).0);
        },
    }
}

/// The bytes of several reads, one after another.
pub open spec fn joined(reads: Seq<Seq<u8>>) -> Seq<u8>
    decreases reads.len(),
{
    if reads.len() == 0 {
        Seq::empty()
    } else {
        reads[0] + joined(reads.drop_first())
    }
}

/// A connection holding `pending` that receives `reads` one at a time and
/// answers what it holds after each: all the replies in order, the bytes
/// left at the end, and the store afterwards.
pub open spec fn serve_reads(
    pending: Seq<u8>,
    reads: Seq<Seq<u8>>,
    db: Map<Seq<char>, Seq<u8>>,
) -> (Seq<FrameView>, Seq<u8>, Map<Seq<char>, Seq<u8>>)
    decreases reads.len(),
{
    if reads.len() == 0 {
        (Seq::empty(), pending, db)
    } else {
        let (r1, rest1, db1) = serve_spec(pending + reads[0], db);
        let (r2, rest2, db2) = serve_reads(rest1, reads.drop_first(), db1);
        (r1 + r2, rest2, db2)
    }
}

/// However the bytes a connection receives are split into reads, it sends
/// the same replies in the same order, keeps the same unanswered bytes and
/// leaves the same store as when they all arrive at once. The bytes it
/// starts with hold no whole frame, as at the start of a connection or
/// after answering.
pub proof fn lemma_serve_reads(
    pending: Seq<u8>,
    reads: Seq<Seq<u8>>,
    db: Map<Seq<char>, Seq<u8>>,
)
    requires
        parse_spec(pending) is None,
    ensures
        serve_reads(pending, reads, db) == serve_spec(pending + joined(reads), db),
    decreases reads.len(),
{
    if reads.len() == 0 {
        assert(pending + joined(reads) =~= pending);
    } else {
        let first = pending + reads[0];
        let (r1, rest1, db1) = serve_spec(first, db);
        lemma_serve_rest_incomplete(first, db);
        lemma_serve_reads(rest1, reads.drop_first(), db1);
        lemma_serve_split(first, joined(reads.drop_first()), db);
        assert(pending + joined(reads) =~= first + joined(reads.drop_first()));
    }
}

/// What serving leaves behind holds no whole frame.
pub proof fn lemma_serve_rest_incomplete(s: Seq<u8>, db: Map<Seq<char>, Seq<u8>>)
    ensures
        parse_spec(serve_spec(s, db).1) is None,
    decreases s.len(),
{
    lemma_parse_determined_by_prefix(s, s);
    match parse_spec(s) {
        Some((f, n)) => {
            let (reply, db1) = respond_spec(f, db);
            lemma_serve_rest_incomplete(s.skip(n), db1);
        },
        None => {},
    }
}

/// The replies to the frames `fs` received in order, and the store
/// afterwards.
pub open spec fn replies_spec(fs: Seq<FrameView>, db: Map<Seq<char>, Seq<u8>>) -> (
    Seq<FrameView>,
    Map<Seq<char>, Seq<u8>>,
)
    decreases fs.len(),
{
    if fs.len() == 0 {
        (Seq::empty(), db)
    } else {
        let (r, db1) = respond_spec(fs[0], db);
        let (more, db2) = replies_spec(fs.drop_first(), db1);
        (seq![r] + more, db2)
    }
}

/// A connection that receives the encodings of the frames `fs` followed by
/// bytes that hold no whole frame answers each frame once, in order, and
/// keeps those last bytes waiting.
pub proof fn lemma_serve_requests(
    fs: Seq<FrameView>,
    tail: Seq<u8>,
    db: Map<Seq<char>, Seq<u8>>,
)
    requires
        forall|i: int| 0 <= i < fs.len() ==> well_formed(#[trigger] fs[i]),
        parse_spec(tail) is None,
    ensures
        serve_spec(serialized_items(fs) + tail, db) == (
            replies_spec(fs, db).0,
            tail,
            replies_spec(fs, db).1,
        ),
    decreases fs.len(),
{
    let s = serialized_items(fs) + tail;
    if fs.len() == 0 {
        assert(s =~= tail);
    } else {
        let others = fs.drop_first();
        assert(well_formed(fs[0]));
        assert forall|i: int| 0 <= i < others.len() implies well_formed(#[trigger] others[i]) by {
            assert(others[i] == fs[i + 1]);
        }
        lemma_parse_serialized(fs[0], serialized_items(others) + tail);
        assert(s =~= serialized(fs[0]) + (serialized_items(others) + tail));
        lemma_serialized_nonempty(fs[0]);
        let n = serialized(fs[0]).len() as int;
        assert(s.skip(n) =~= serialized_items(others) + tail);
        let (r, db1) = respond_spec(fs[0], db);
        lemma_serve_requests(others, tail, db1);
    }
}

/// A request that decodes to a command is answered by running that command
/// once on the store: the reply and the store afterwards are that
/// command's.
pub proof fn lemma_respond_runs_command_once(f: FrameView, db: Map<Seq<char>, Seq<u8>>)
    ensures
        command_spec(f) matches Ok(cmd) ==> respond_spec(f, db) == execute_spec(cmd, db),
{
}

/// A request that decodes to no command is answered with an error frame
/// holding `ERR ` and the reason, and leaves the store as it was.
pub proof fn lemma_respond_refusal(f: FrameView, db: Map<Seq<char>, Seq<u8>>)
    ensures
        command_spec(f) matches Err(msg) ==> respond_spec(f, db) == (
            FrameView::Error("ERR "@ + msg),
            db,
        ),
{
}

/// GET of a key the store does not hold is answered with a null bulk
/// string, and GET of a key it holds with that key's value; neither
/// changes the store.
pub proof fn lemma_respond_get(f: FrameView, db: Map<Seq<char>, Seq<u8>>, key: Seq<char>)
    requires
        command_spec(f) == Ok::<CommandView, Seq<char>>(CommandView::Get { key }),
    ensures
        !db.contains_key(key) ==> respond_spec(f, db) == (FrameView::BulkString(None), db),
        db.contains_key(key) ==> respond_spec(f, db) == (FrameView::BulkString(Some(db[key])), db),
{
}

/// DEL of a key the store holds is answered with 1, and the store
/// afterwards lacks that key and keeps every other one.
pub proof fn lemma_respond_del(f: FrameView, db: Map<Seq<char>, Seq<u8>>, key: Seq<char>)
    requires
        command_spec(f) == Ok::<CommandView, Seq<char>>(CommandView::Del { key }),
    ensures
        respond_spec(f, db).0 == FrameView::Integer(
            if db.contains_key(key) {
                1
            } else {
                0
            },
        ),
        respond_spec(f, db).1 == db.remove(key),
{
}

/// SET is answered with `OK`, and the store afterwards maps the key to the
/// value and keeps every other key.
pub proof fn lemma_respond_set(
    f: FrameView,
    db: Map<Seq<char>, Seq<u8>>,
    key: Seq<char>,
    value: Seq<u8>,
)
    requires
        command_spec(f) == Ok::<CommandView, Seq<char>>(CommandView::SetValue { key, value }),
    ensures
        respond_spec(f, db) == (FrameView::SimpleString("OK"@), db.insert(key, value)),
{
}

/// A connection holding exactly one whole request followed by bytes that
/// hold no whole frame answers it once: one reply, that request's, and the
/// store as that request leaves it.
pub proof fn lemma_serve_one(s: Seq<u8>, db: Map<Seq<char>, Seq<u8>>)
    ensures
        parse_spec(s) matches Some((f, n)) ==> (parse_spec(s.skip(n)) is None ==> serve_spec(
            s,
            db,
        ) == (seq![respond_spec(f, db).0], s.skip(n), respond_spec(f, db).1)),
{
    lemma_parse_determined_by_prefix(s, s);
    if let Some((f, n)) = parse_spec(s) {
        if parse_spec(s.skip(n)) is None {
            let (reply, db1) = respond_spec(f, db);
            assert(serve_spec(s.skip(n), db1) == (Seq::<FrameView>::empty(), s.skip(n), db1));
            assert(seq![reply] + Seq::<FrameView>::empty() =~= seq![reply]);
        }
    }
}

} // verus!
