//! RESP frames: their model, their encoding, and the streaming parser.

use bytes::BytesMut;
use vstd::prelude::*;
use vstd::utf8::*;
use vstd::slice::slice_subrange;
use vstd::slice::slice_to_vec;
use crate::buffer::{advance, buffered, chunk, extend_bytes, new_buffer};
use crate::text::{
    int_decimal, i64_to_string, parse_i64, parse_isize, parsed_i64, parsed_isize, str_from_utf8,
    usize_to_string, utf8_lossy, utf8_lossy_string,
};

verus! {

/// One frame of the RESP protocol.
#[derive(Debug, PartialEq)]
pub enum RespFrame {
    /// `+OK\r\n`
    SimpleString(String),
    /// `-ERR message\r\n`
    Error(String),
    /// `:1000\r\n`
    Integer(i64),
    /// `$6\r\nfoobar\r\n`, or `$-1\r\n` for null
    BulkString(Option<Vec<u8>>),
    /// `*2\r\n$3\r\nfoo\r\n$3\r\nbar\r\n`, or `*-1\r\n` for null
    Array(Option<Vec<RespFrame>>),
}

/// A frame as a mathematical value: texts as character sequences and
/// payloads as byte sequences.
pub enum FrameView {
    SimpleString(Seq<char>),
    Error(Seq<char>),
    Integer(i64),
    BulkString(Option<Seq<u8>>),
    Array(Option<Seq<FrameView>>),
}

/// The models of a sequence of frames, element by element.
pub open spec fn views_of(s: Seq<RespFrame>) -> Seq<FrameView>
    decreases s,
{
    if s.len() == 0 {
        Seq::empty()
    } else {
        views_of(s.drop_last()).push(s.last().model())
    }
}

impl RespFrame {
    /// The model of this frame.
    pub open spec fn model(self) -> FrameView
        decreases self,
    {
        match self {
            RespFrame::SimpleString(s) => FrameView::SimpleString(s@),
            RespFrame::Error(s) => FrameView::Error(s@),
            RespFrame::Integer(i) => FrameView::Integer(i),
            RespFrame::BulkString(b) => FrameView::BulkString(
                match b {
                    Some(v) => Some(v@),
                    None => None,
                },
            ),
            RespFrame::Array(a) => FrameView::Array(
                match a {
                    Some(v) => Some(views_of(v@)),
                    None => None,
                },
            ),
        }
    }
}

impl Clone for RespFrame {
    /// A copy of the frame, equal to it in every part.
    fn clone(&self) -> (res: Self)
        ensures
            res@ == self@,
        decreases serialized(self@).len(),
    {
        match self {
            RespFrame::SimpleString(s) => RespFrame::SimpleString(s.clone()),
            RespFrame::Error(s) => RespFrame::Error(s.clone()),
            RespFrame::Integer(i) => RespFrame::Integer(*i),
            RespFrame::BulkString(Some(d)) => RespFrame::BulkString(Some(slice_to_vec(d.as_slice()))),
            RespFrame::BulkString(None) => RespFrame::BulkString(None),
            RespFrame::Array(Some(items)) => {
                let ghost views = views_of(items@);
                proof {
                    lemma_views_of(items@);
                }
                let mut copies: Vec<RespFrame> = Vec::new();
                let mut i: usize = 0;
                while i < items.len()
                    invariant
                        i <= items.len(),
                        views == views_of(items@),
                        views.len() == items@.len(),
                        forall|j: int| 0 <= j < items@.len() ==> #[trigger] views[j] == items@[j]@,
                        views_of(copies@) == views.take(i as int),
                        serialized(self@) == header_line(42u8, int_decimal(items.len() as int))
                            + serialized_items(views),
                    decreases items.len() - i,
                {
                    proof {
                        lemma_serialized_items_step(views, i as int);
                    }
                    let copy = items[i].clone();
                    let ghost before = copies@;
                    copies.push(copy);
                    proof {
                        assert(copies@.drop_last() =~= before);
                        assert(views_of(copies@) =~= views.take(i + 1));
                    }
                    i = i + 1;
                }
                assert(views.take(items.len() as int) =~= views);
                RespFrame::Array(Some(copies))
            },
            RespFrame::Array(None) => RespFrame::Array(None),
        }
    }
}

impl View for RespFrame {
    type V = FrameView;

    open spec fn view(&self) -> FrameView {
        self.model()
    }
}

/// The views of a sequence of frames line up with the frames.
pub proof fn lemma_views_of(s: Seq<RespFrame>)
    ensures
        views_of(s).len() == s.len(),
        forall|i: int| 0 <= i < s.len() ==> #[trigger] views_of(s)[i] == s[i]@,
    decreases s.len(),
{
    if s.len() > 0 {
        lemma_views_of(s.drop_last());
    }
}

/// The line terminator `\r\n`.
pub open spec fn crlf() -> Seq<u8> {
    seq![13u8, 10u8]
}

/// A header line: a type byte, then `text` in UTF-8, then `\r\n`.
pub open spec fn header_line(tag: u8, text: Seq<char>) -> Seq<u8> {
    seq![tag] + encode_utf8(text) + crlf()
}

/// The encoding of a null bulk string or null array: `$-1\r\n` or `*-1\r\n`.
pub open spec fn null_line(tag: u8) -> Seq<u8> {
    seq![tag, 45u8, 49u8, 13u8, 10u8]
}

/// The RESP encoding of a frame.
pub open spec fn serialized(f: FrameView) -> Seq<u8>
    decreases f,
{
    match f {
        FrameView::SimpleString(s) => header_line(43u8, s),
        FrameView::Error(s) => header_line(45u8, s),
        FrameView::Integer(i) => header_line(58u8, int_decimal(i as int)),
        FrameView::BulkString(Some(d)) => header_line(36u8, int_decimal(d.len() as int)) + d
            + crlf(),
        FrameView::BulkString(None) => null_line(36u8),
        FrameView::Array(Some(items)) => header_line(42u8, int_decimal(items.len() as int))
            + serialized_items(items),
        FrameView::Array(None) => null_line(42u8),
    }
}

/// The encodings of `items`, one after another.
pub open spec fn serialized_items(items: Seq<FrameView>) -> Seq<u8>
    decreases items,
{
    if items.len() == 0 {
        Seq::empty()
    } else {
        serialized(items[0]) + serialized_items(items.drop_first())
    }
}

/// The encoding of a sequence of frames is the encoding of a prefix followed
/// by that of the rest.
pub proof fn lemma_serialized_items_split(items: Seq<FrameView>, i: int)
    requires
        0 <= i <= items.len(),
    ensures
        serialized_items(items) == serialized_items(items.take(i)) + serialized_items(
            items.skip(i),
        ),
    decreases items.len(),
{
    if i == 0 {
        assert(items.take(0) =~= Seq::<FrameView>::empty());
        assert(items.skip(0) =~= items);
        assert(serialized_items(items) =~= Seq::<u8>::empty() + serialized_items(items));
    } else {
        let rest = items.drop_first();
        lemma_serialized_items_split(rest, i - 1);
        assert(items.take(i)[0] == items[0]);
        assert(items.take(i).drop_first() =~= rest.take(i - 1));
        assert(items.skip(i) =~= rest.skip(i - 1));
        assert(serialized_items(items) =~= serialized_items(items.take(i)) + serialized_items(
            items.skip(i),
        ));
    }
}

/// Appending the encoding of one more frame extends the encoding of a
/// prefix by one frame.
pub proof fn lemma_serialized_items_step(items: Seq<FrameView>, i: int)
    requires
        0 <= i < items.len(),
    ensures
        serialized_items(items.take(i + 1)) == serialized_items(items.take(i)) + serialized(
            items[i],
        ),
        serialized_items(items.take(i + 1)).len() <= serialized_items(items).len(),
{
    let t = items.take(i + 1);
    lemma_serialized_items_split(t, i);
    assert(t.take(i) =~= items.take(i));
    let one = t.skip(i);
    assert(one.len() == 1 && one[0] == items[i]);
    assert(one.drop_first() =~= Seq::<FrameView>::empty());
    assert(serialized_items(one) =~= serialized(items[i]) + serialized_items(one.drop_first()));
    assert(serialized_items(one) =~= serialized(items[i]));
    lemma_serialized_items_split(items, i + 1);
}

/// `s` holds `\r\n` at position `i`.
pub open spec fn crlf_at(s: Seq<u8>, i: int) -> bool {
    0 <= i && i + 1 < s.len() && s[i] == 13u8 && s[i + 1] == 10u8
}

/// No `\r\n` starts in `s` before position `k`.
pub open spec fn no_crlf_before(s: Seq<u8>, k: int) -> bool {
    forall|j: int| 0 <= j < k ==> !#[trigger] crlf_at(s, j)
}

/// Where the first `\r\n` of `s` starts, if it holds one.
pub open spec fn first_crlf(s: Seq<u8>) -> Option<int> {
    if exists|i: int| crlf_at(s, i) && no_crlf_before(s, i) {
        Some(choose|i: int| crlf_at(s, i) && no_crlf_before(s, i))
    } else {
        None
    }
}

/// A `\r\n` at `i` that no earlier one precedes is the first one.
pub proof fn lemma_first_crlf_at(s: Seq<u8>, i: int)
    requires
        crlf_at(s, i),
        no_crlf_before(s, i),
    ensures
        first_crlf(s) == Some(i),
{
    let p = choose|p: int| crlf_at(s, p) && no_crlf_before(s, p);
    assert(crlf_at(s, p) && no_crlf_before(s, p));
    if p < i {
        assert(!crlf_at(s, p));
    } else if p > i {
        assert(!crlf_at(s, i));
    }
}

/// Without any `\r\n` there is no first one.
pub proof fn lemma_first_crlf_none(s: Seq<u8>)
    requires
        no_crlf_before(s, s.len() as int),
    ensures
        first_crlf(s) is None,
{
}

/// The text of a simple string or error line: its UTF-8 decoding, or, for
/// ill-formed bytes, the lossy decoding.
pub open spec fn line_text(line: Seq<u8>) -> Seq<char> {
    if valid_utf8(line) {
        decode_utf8(line)
    } else {
        utf8_lossy(line)
    }
}

/// The integer on a header line, read as UTF-8 text and parsed as an `isize`.
pub open spec fn line_isize(line: Seq<u8>) -> Option<isize> {
    if valid_utf8(line) {
        parsed_isize(decode_utf8(line))
    } else {
        None
    }
}

/// The integer on a header line, read as UTF-8 text and parsed as an `i64`.
pub open spec fn line_i64(line: Seq<u8>) -> Option<i64> {
    if valid_utf8(line) {
        parsed_i64(decode_utf8(line))
    } else {
        None
    }
}

/// The frame at the start of `s` and the number of bytes it takes, or
/// `None` when `s` does not start with a whole frame (too few bytes, an
/// unknown type byte, or a malformed header line).
pub open spec fn parse_spec(s: Seq<u8>) -> Option<(FrameView, int)>
    decreases s.len(), 0int,
{
    if s.len() == 0 {
        None
    } else {
        let rest = s.skip(1);
        match first_crlf(rest) {
            None => None,
            Some(p) => {
                let line = rest.take(p);
                let hdr = p + 3;
                let tag = s[0];
                if tag == 43u8 {
                    Some((FrameView::SimpleString(line_text(line)), hdr))
                } else if tag == 45u8 {
                    Some((FrameView::Error(line_text(line)), hdr))
                } else if tag == 58u8 {
                    match line_i64(line) {
                        Some(v) => Some((FrameView::Integer(v), hdr)),
                        None => None,
                    }
                } else if tag == 36u8 {
                    match line_isize(line) {
                        Some(len) => if len == -1 {
                            Some((FrameView::BulkString(None), hdr))
                        } else if len < 0 || s.len() < hdr + len + 2 || s[hdr + len] != 13u8 || s[hdr
                            + len + 1] != 10u8 {
                            None
                        } else {
                            Some(
                                (
                                    FrameView::BulkString(Some(s.subrange(hdr, hdr + len))),
                                    hdr + len + 2,
                                ),
                            )
                        },
                        None => None,
                    }
                } else if tag == 42u8 {
                    match line_isize(line) {
                        Some(len) => if len == -1 {
                            Some((FrameView::Array(None), hdr))
                        } else if len < 0 {
                            None
                        } else {
                            match parse_items_spec(s.skip(hdr), len as nat) {
                                Some((items, n)) => Some((FrameView::Array(Some(items)), hdr + n)),
                                None => None,
                            }
                        },
                        None => None,
                    }
                } else {
                    None
                }
            },
        }
    }
}

/// `count` frames read one after another from the start of `s`, and the
/// number of bytes they take together.
pub open spec fn parse_items_spec(s: Seq<u8>, count: nat) -> Option<(Seq<FrameView>, int)>
    decreases s.len(), count,
{
    if count == 0 {
        Some((Seq::empty(), 0))
    } else {
        match parse_spec(s) {
            None => None,
            Some((f, n)) => if 0 < n <= s.len() {
                match parse_items_spec(s.skip(n), (count - 1) as nat) {
                    None => None,
                    Some((fs, m)) => Some((seq![f] + fs, n + m)),
                }
            } else {
                None
            },
        }
    }
}

/// Finds the first `\r\n` in `src`: the bytes before it, and how many bytes
/// the line takes with its terminator.
pub fn read_line_from(src: &[u8]) -> (res: Option<(&[u8], usize)>)
    ensures
        match res {
            Some((line, n)) => {
                &&& first_crlf(src@) == Some(line@.len() as int)
                &&& line@ == src@.take(line@.len() as int)
                &&& n == line@.len() + 2
            },
            None => first_crlf(src@) is None,
        },
{
    let mut i: usize = 0;
    while src.len() > 0 && i < src.len() - 1
        invariant
            i <= src@.len(),
            no_crlf_before(src@, i as int),
        decreases src.len() - i,
    {
        if src[i] == 13u8 && src[i + 1] == 10u8 {
            proof {
                lemma_first_crlf_at(src@, i as int);
            }
            let line = slice_subrange(src, 0, i);
            return Some((line, i + 2));
        }
        i = i + 1;
    }
    proof {
        assert forall|j: int| 0 <= j < src@.len() implies !#[trigger] crlf_at(src@, j) by {
            if j < i {
            }
        }
        lemma_first_crlf_none(src@);
    }
    None
}

/// Reads the frame at the start of `src`: the frame and the number of bytes
/// it takes, or `None` when `src` does not start with a whole frame.
pub fn parse_bytes(src: &[u8]) -> (res: Option<(RespFrame, usize)>)
    ensures
        match res {
            Some((f, n)) => parse_spec(src@) == Some((f@, n as int)) && 0 < n <= src@.len(),
            None => parse_spec(src@) is None,
        },
    decreases src@.len(),
{
    if src.len() == 0 {
        return None;
    }
    let first = src[0];
    let rest = slice_subrange(src, 1, src.len());
    assert(rest@ == src@.skip(1));
    let (line, n) = match read_line_from(rest) {
        Some(found) => found,
        None => {
            return None;
        },
    };
    let consumed: usize = 1 + n;
    assert(line@ == src@.skip(1).take(line@.len() as int));
    if first == 43u8 {
        let text = utf8_lossy_string(line);
        Some((RespFrame::SimpleString(text), consumed))
    } else if first == 45u8 {
        let text = utf8_lossy_string(line);
        Some((RespFrame::Error(text), consumed))
    } else if first == 58u8 {
        let text = match str_from_utf8(line) {
            Some(t) => t,
            None => {
                return None;
            },
        };
        match parse_i64(text) {
            Some(v) => Some((RespFrame::Integer(v), consumed)),
            None => None,
        }
    } else if first == 36u8 {
        let text = match str_from_utf8(line) {
            Some(t) => t,
            None => {
                return None;
            },
        };
        let len = match parse_isize(text) {
            Some(v) => v,
            None => {
                return None;
            },
        };
        if len == -1 {
            Some((RespFrame::BulkString(None), consumed))
        } else if len < 0 {
            None
        } else {
            let len = len as usize;
            let payload = slice_subrange(src, consumed, src.len());
            if payload.len() < len + 2 || payload[len] != 13u8 || payload[len + 1] != 10u8 {
                return None;
            }
            let data = slice_to_vec(slice_subrange(payload, 0, len));
            assert(data@ == src@.subrange(consumed as int, consumed + len));
            Some((RespFrame::BulkString(Some(data)), consumed + len + 2))
        }
    } else if first == 42u8 {
        let text = match str_from_utf8(line) {
            Some(t) => t,
            None => {
                return None;
            },
        };
        let len = match parse_isize(text) {
            Some(v) => v,
            None => {
                return None;
            },
        };
        if len == -1 {
            Some((RespFrame::Array(None), consumed))
        } else if len < 0 {
            None
        } else {
            let len = len as usize;
            let ghost body = src@.skip(consumed as int);
            let mut children: Vec<RespFrame> = Vec::new();
            let mut inner = slice_subrange(src, consumed, src.len());
            let mut total: usize = consumed;
            let mut i: usize = 0;
            assert(views_of(children@) =~= Seq::<FrameView>::empty());
            assert(match parse_items_spec(body, len as nat) {
                Some((fs, m)) => Some((Seq::<FrameView>::empty() + fs, m)),
                None => None,
            } == parse_items_spec(body, len as nat)) by {
                match parse_items_spec(body, len as nat) {
                    Some((fs, m)) => {
                        assert(Seq::<FrameView>::empty() + fs =~= fs);
                    },
                    None => {},
                }
            }
            while i < len
                invariant
                    1 <= consumed <= total <= src@.len(),
                    i <= len,
                    body == src@.skip(consumed as int),
                    inner@ == src@.skip(total as int),
                    parse_spec(src@) == match parse_items_spec(body, len as nat) {
                        Some((items, m)) => Some((FrameView::Array(Some(items)), consumed + m)),
                        None => None,
                    },
                    parse_items_spec(body, len as nat) == match parse_items_spec(
                        inner@,
                        (len - i) as nat,
                    ) {
                        Some((fs, m)) => Some((views_of(children@) + fs, (total - consumed) + m)),
                        None => None,
                    },
                decreases len - i,
            {
                let parsed = parse_bytes(inner);
                let (child, k) = match parsed {
                    Some(found) => found,
                    None => {
                        return None;
                    },
                };
                assert(k <= inner@.len());
                assert(total + k <= src@.len());
                assert(src@.len() == src.len());
                assert(inner@.len() == src@.len() - total);
                let ghost old_children = children@;
                let ghost old_inner = inner@;
                children.push(child);
                inner = slice_subrange(inner, k, inner.len());
                total = total + k;
                i = i + 1;
                proof {
                    assert(inner@ =~= old_inner.skip(k as int));
                    assert(inner@ =~= src@.skip(total as int));
                    assert(children@.drop_last() =~= old_children);
                    let tail = parse_items_spec(inner@, (len - i) as nat);
                    match tail {
                        Some((fs, m)) => {
                            assert(views_of(children@) + fs =~= views_of(old_children) + (seq![
                                child@,
                            ] + fs));
                        },
                        None => {},
                    }
                }
            }
            assert(views_of(children@) + Seq::<FrameView>::empty() =~= views_of(children@));
            Some((RespFrame::Array(Some(children)), total))
        }
    } else {
        None
    }
}

/// Takes one whole frame off the front of `buf`. When `buf` does not start
/// with a whole frame, returns `None` and leaves `buf` as it was.
pub fn parse_frame(buf: &mut BytesMut) -> (res: Option<RespFrame>)
    ensures
        match parse_spec(buffered(*old(buf))) {
            Some((f, n)) => {
                &&& res matches Some(frame) && frame@ == f
                &&& buffered(*final(buf)) == buffered(*old(buf)).skip(n)
            },
            None => res is None && buffered(*final(buf)) == buffered(*old(buf)),
        },
{
    let (frame, n) = match parse_bytes(chunk(buf)) {
        Some(found) => found,
        None => {
            return None;
        },
    };
    advance(buf, n);
    Some(frame)
}

/// Appends one byte.
fn put_byte(dst: &mut BytesMut, b: u8)
    requires
        buffered(*old(dst)).len() + 1 <= isize::MAX,
    ensures
        buffered(*final(dst)) == buffered(*old(dst)) + seq![b],
{
    let one = [b];
    extend_bytes(dst, one.as_slice());
}

/// Appends `\r\n`.
fn put_crlf(dst: &mut BytesMut)
    requires
        buffered(*old(dst)).len() + 2 <= isize::MAX,
    ensures
        buffered(*final(dst)) == buffered(*old(dst)) + crlf(),
{
    let end = [13u8, 10u8];
    extend_bytes(dst, end.as_slice());
    assert(end@ =~= crlf());
}

/// Appends a header line made of `tag` and `text`.
fn put_header(dst: &mut BytesMut, tag: u8, text: &str)
    requires
        buffered(*old(dst)).len() + header_line(tag, text@).len() <= isize::MAX,
    ensures
        buffered(*final(dst)) == buffered(*old(dst)) + header_line(tag, text@),
{
    put_byte(dst, tag);
    extend_bytes(dst, text.as_bytes());
    put_crlf(dst);
    assert(buffered(*dst) =~= buffered(*old(dst)) + header_line(tag, text@));
}

/// Appends the five bytes of a null line.
fn put_null(dst: &mut BytesMut, tag: u8)
    requires
        buffered(*old(dst)).len() + 5 <= isize::MAX,
    ensures
        buffered(*final(dst)) == buffered(*old(dst)) + null_line(tag),
{
    let line = [tag, 45u8, 49u8, 13u8, 10u8];
    extend_bytes(dst, line.as_slice());
    assert(line@ =~= null_line(tag));
}

impl RespFrame {
    /// Appends the RESP encoding of this frame to `dst`.
    pub fn serialize(&self, dst: &mut BytesMut)
        requires
            buffered(*old(dst)).len() + serialized(self@).len() <= isize::MAX,
        ensures
            buffered(*final(dst)) == buffered(*old(dst)) + serialized(self@),
        decreases serialized(self@).len(),
    {
        match self {
            RespFrame::SimpleString(s) => {
                put_header(dst, 43u8, s.as_str());
            },
            RespFrame::Error(s) => {
                put_header(dst, 45u8, s.as_str());
            },
            RespFrame::Integer(i) => {
                let text = i64_to_string(*i);
                put_header(dst, 58u8, text.as_str());
            },
            RespFrame::BulkString(Some(data)) => {
                let text = usize_to_string(data.len());
                put_header(dst, 36u8, text.as_str());
                extend_bytes(dst, data.as_slice());
                put_crlf(dst);
                assert(buffered(*dst) =~= buffered(*old(dst)) + serialized(self@));
            },
            RespFrame::BulkString(None) => {
                put_null(dst, 36u8);
            },
            RespFrame::Array(Some(items)) => {
                proof {
                    lemma_views_of(items@);
                }
                let text = usize_to_string(items.len());
                put_header(dst, 42u8, text.as_str());
                let ghost start = buffered(*dst);
                let ghost views = views_of(items@);
                let mut i: usize = 0;
                while i < items.len()
                    invariant
                        i <= items.len(),
                        views == views_of(items@),
                        views.len() == items@.len(),
                        forall|j: int| 0 <= j < items@.len() ==> #[trigger] views[j] == items@[j]@,
                        start == buffered(*old(dst)) + header_line(42u8, int_decimal(items.len() as int)),
                        buffered(*dst) == start + serialized_items(views.take(i as int)),
                        start.len() + serialized_items(views).len() <= isize::MAX,
                        serialized(self@) == header_line(42u8, int_decimal(items.len() as int))
                            + serialized_items(views),
                    decreases items.len() - i,
                {
                    proof {
                        lemma_serialized_items_step(views, i as int);
                    }
                    items[i].serialize(dst);
                    proof {
                        assert(buffered(*dst) =~= start + serialized_items(views.take(i + 1)));
                    }
                    i = i + 1;
                }
                assert(views.take(items.len() as int) =~= views);
                assert(buffered(*dst) =~= buffered(*old(dst)) + serialized(self@));
            },
            RespFrame::Array(None) => {
                put_null(dst, 42u8);
            },
        }
    }

    /// The payload of a non-null bulk string, and `None` for any other frame.
    pub fn as_bulk(&self) -> (res: Option<&[u8]>)
        ensures
            res is Some <==> self@ matches FrameView::BulkString(Some(_)),
            res matches Some(b) ==> self@ == FrameView::BulkString(Some(b@)),
    {
        match self {
            RespFrame::BulkString(Some(b)) => Some(b.as_slice()),
            _ => None,
        }
    }
}

/// The number of bytes a header line with `text` takes, or `None` when that
/// number does not fit in a `usize`.
fn header_len(text: &str) -> (res: Option<usize>)
    ensures
        match res {
            Some(n) => n == encode_utf8(text@).len() + 3,
            None => encode_utf8(text@).len() + 3 > usize::MAX,
        },
{
    text.as_bytes().len().checked_add(3)
}

impl RespFrame {
    /// The number of bytes the encoding of this frame takes, or `None` when
    /// that number does not fit in a `usize`.
    pub fn encoded_len(&self) -> (res: Option<usize>)
        ensures
            match res {
                Some(n) => n == serialized(self@).len(),
                None => serialized(self@).len() > usize::MAX,
            },
        decreases serialized(self@).len(),
    {
        match self {
            RespFrame::SimpleString(s) => header_len(s.as_str()),
            RespFrame::Error(s) => header_len(s.as_str()),
            RespFrame::Integer(i) => {
                let text = i64_to_string(*i);
                header_len(text.as_str())
            },
            RespFrame::BulkString(Some(data)) => {
                let text = usize_to_string(data.len());
                match header_len(text.as_str()) {
                    Some(h) => match h.checked_add(data.len()) {
                        Some(m) => m.checked_add(2),
                        None => None,
                    },
                    None => None,
                }
            },
            RespFrame::BulkString(None) => Some(5),
            RespFrame::Array(Some(items)) => {
                proof {
                    lemma_views_of(items@);
                }
                let ghost views = views_of(items@);
                let text = usize_to_string(items.len());
                let mut total = match header_len(text.as_str()) {
                    Some(h) => h,
                    None => {
                        return None;
                    },
                };
                let ghost head = header_line(42u8, int_decimal(items.len() as int));
                let mut i: usize = 0;
                while i < items.len()
                    invariant
                        i <= items.len(),
                        views == views_of(items@),
                        views.len() == items@.len(),
                        forall|j: int| 0 <= j < items@.len() ==> #[trigger] views[j] == items@[j]@,
                        head == header_line(42u8, int_decimal(items.len() as int)),
                        serialized(self@) == head + serialized_items(views),
                        total == head.len() + serialized_items(views.take(i as int)).len(),
                    decreases items.len() - i,
                {
                    proof {
                        lemma_serialized_items_step(views, i as int);
                        assert(serialized(items@[i as int]@).len() < serialized(self@).len());
                    }
                    let k = match items[i].encoded_len() {
                        Some(k) => k,
                        None => {
                            return None;
                        },
                    };
                    total = match total.checked_add(k) {
                        Some(t) => t,
                        None => {
                            return None;
                        },
                    };
                    i = i + 1;
                }
                assert(views.take(items.len() as int) =~= views);
                Some(total)
            },
            RespFrame::Array(None) => Some(5),
        }
    }

    /// The encoding of this frame in a new buffer, or `None` when it would
    /// take more than `isize::MAX` bytes, more than a buffer can hold.
    pub fn to_bytes(&self) -> (res: Option<BytesMut>)
        ensures
            match res {
                Some(b) => buffered(b) == serialized(self@),
                None => serialized(self@).len() > isize::MAX,
            },
    {
        match self.encoded_len() {
            Some(n) => {
                if n > isize::MAX as usize {
                    return None;
                }
                let mut out = new_buffer();
                self.serialize(&mut out);
                assert(buffered(out) =~= serialized(self@));
                Some(out)
            },
            None => None,
        }
    }
}

/// The text that `format!("{:?}", ..)` makes of a string: quoted, with
/// special characters escaped.
pub uninterp spec fn debug_str(s: Seq<char>) -> Seq<char>;

/// Formats a string with its `Debug` impl.
#[verifier::external_body]
fn debug_text(s: &str) -> (res: String)
    ensures
        res@ == debug_str(s@),
{
    format!("{:?}", s)
}

/// The text that `format!("{:?}", ..)` makes of a vector of frames through
/// the derived `Debug` of `RespFrame`.
pub uninterp spec fn debug_frames(items: Seq<FrameView>) -> Seq<char>;

/// Formats a vector of frames with its `Debug` impl.
#[verifier::external_body]
fn frames_debug_text(items: &Vec<RespFrame>) -> (res: String)
    ensures
        res@ == debug_frames(views_of(items@)),
{
    format!("{:?}", items)
}

/// The text a frame is shown by in logs: its kind, then its content in
/// brackets, or `null`.
pub open spec fn described(f: FrameView) -> Seq<char> {
    match f {
        FrameView::SimpleString(s) => "SimpleString("@ + debug_str(s) + ")"@,
        FrameView::Error(s) => "Error("@ + debug_str(s) + ")"@,
        FrameView::Integer(i) => "Integer("@ + int_decimal(i as int) + ")"@,
        FrameView::BulkString(Some(b)) => "BulkString("@ + debug_str(line_text(b)) + ")"@,
        FrameView::BulkString(None) => "BulkString(null)"@,
        FrameView::Array(Some(items)) => "Array("@ + debug_frames(items) + ")"@,
        FrameView::Array(None) => "Array(null)"@,
    }
}

/// `kind` and `(`, then `inner`, then `)`.
fn bracketed(kind: &str, inner: &str) -> (res: String)
    ensures
        res@ == kind@ + "("@ + inner@ + ")"@,
{
    let mut text = kind.to_owned();
    text.append("(");
    text.append(inner);
    text.append(")");
    text
}

impl RespFrame {
    /// The text this frame is shown by in logs.
    pub fn describe(&self) -> (res: String)
        ensures
            res@ == described(self@),
    {
        proof {
            reveal_strlit("SimpleString");
            reveal_strlit("SimpleString(");
            reveal_strlit("Error");
            reveal_strlit("Error(");
            reveal_strlit("Integer");
            reveal_strlit("Integer(");
            reveal_strlit("BulkString");
            reveal_strlit("BulkString(");
            reveal_strlit("Array");
            reveal_strlit("Array(");
            reveal_strlit("(");
        }
        match self {
            RespFrame::SimpleString(s) => bracketed("SimpleString", debug_text(s.as_str()).as_str()),
            RespFrame::Error(s) => bracketed("Error", debug_text(s.as_str()).as_str()),
            RespFrame::Integer(i) => bracketed("Integer", i64_to_string(*i).as_str()),
            RespFrame::BulkString(Some(b)) => {
                let text = utf8_lossy_string(b.as_slice());
                bracketed("BulkString", debug_text(text.as_str()).as_str())
            },
            RespFrame::BulkString(None) => "BulkString(null)".to_owned(),
            RespFrame::Array(Some(items)) => bracketed("Array", frames_debug_text(items).as_str()),
            RespFrame::Array(None) => "Array(null)".to_owned(),
        }
    }
}

} // verus!
