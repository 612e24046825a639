//! Laws of the wire format: what the parser reads back of what the
//! serializer writes, and how a parse behaves as more bytes arrive.

use vstd::prelude::*;
use vstd::utf8::*;
use crate::frame::{
    crlf, crlf_at, first_crlf, header_line, lemma_first_crlf_at, lemma_first_crlf_none, line_i64, line_isize, line_text,
    no_crlf_before, null_line, parse_items_spec, parse_spec, serialized, serialized_items,
    FrameView,
};
use crate::text::{decimal_value, int_decimal, is_digit, lemma_decimal_roundtrip};

verus! {

broadcast use {encode_utf8_valid_utf8, encode_utf8_decode_utf8};

/// A frame that the encoding can carry: texts of simple strings and errors
/// hold no `\r\n` once encoded, and lengths fit in an `isize`, the type the
/// parser reads them as.
pub open spec fn well_formed(f: FrameView) -> bool
    decreases f,
{
    match f {
        FrameView::SimpleString(s) => no_crlf_before(encode_utf8(s), encode_utf8(s).len() as int),
        FrameView::Error(s) => no_crlf_before(encode_utf8(s), encode_utf8(s).len() as int),
        FrameView::Integer(_) => true,
        FrameView::BulkString(Some(d)) => d.len() <= isize::MAX,
        FrameView::BulkString(None) => true,
        FrameView::Array(Some(items)) => items.len() <= isize::MAX && forall|i: int|
            0 <= i < items.len() ==> well_formed(#[trigger] items[i]),
        FrameView::Array(None) => true,
    }
}

/// The decimal text of an integer, once encoded, holds no `\r\n` and
/// decodes back to the same text.
proof fn lemma_decimal_bytes(v: int)
    ensures
        no_crlf_before(
            encode_utf8(int_decimal(v)),
            encode_utf8(int_decimal(v)).len() as int,
        ),
        valid_utf8(encode_utf8(int_decimal(v))),
        decode_utf8(encode_utf8(int_decimal(v))) == int_decimal(v),
        decimal_value(int_decimal(v)) == Some(v),
{
    lemma_decimal_roundtrip(v);
    let t = int_decimal(v);
    let e = encode_utf8(t);
    is_ascii_chars_encode_utf8(t);
    assert forall|j: int| 0 <= j < e.len() implies !#[trigger] crlf_at(e, j) by {
        assert(t[j] == '-' || is_digit(t[j]));
        assert(t[j] as u8 == e[j]);
    }
}

/// A line of bytes `e` without `\r\n`, after a type byte and before a
/// terminator and any `rest`, is found as the first line.
proof fn lemma_line(tag: u8, e: Seq<u8>, rest: Seq<u8>)
    requires
        no_crlf_before(e, e.len() as int),
    ensures
        ({
            let s = seq![tag] + e + crlf() + rest;
            &&& s[0] == tag
            &&& s.len() == e.len() + 3 + rest.len()
            &&& first_crlf(s.skip(1)) == Some(e.len() as int)
            &&& s.skip(1).take(e.len() as int) == e
            &&& s.skip(e.len() + 3int) == rest
        }),
{
    let s = seq![tag] + e + crlf() + rest;
    let r = s.skip(1);
    assert(r =~= e + crlf() + rest);
    assert(crlf_at(r, e.len() as int));
    assert forall|j: int| 0 <= j < e.len() implies !#[trigger] crlf_at(r, j) by {
        if j + 1 < e.len() {
            assert(!crlf_at(e, j));
        }
    }
    lemma_first_crlf_at(r, e.len() as int);
    assert(r.take(e.len() as int) =~= e);
    assert(s.skip(e.len() + 3int) =~= rest);
}

/// Every encoding starts with its type byte, so it is never empty.
pub proof fn lemma_serialized_nonempty(f: FrameView)
    ensures
        serialized(f).len() > 0,
{
    match f {
        FrameView::BulkString(Some(d)) => {
            assert((header_line(36u8, int_decimal(d.len() as int)) + d + crlf())[0] == 36u8);
        },
        FrameView::Array(Some(items)) => {
            assert((header_line(42u8, int_decimal(items.len() as int)) + serialized_items(
                items,
            ))[0] == 42u8);
        },
        _ => {},
    }
}

/// A simple string or error line reads back as its text.
proof fn lemma_parse_text_line(tag: u8, t: Seq<char>, rest: Seq<u8>)
    requires
        tag == 43u8 || tag == 45u8,
        no_crlf_before(encode_utf8(t), encode_utf8(t).len() as int),
    ensures
        parse_spec(header_line(tag, t) + rest) == Some(
            (
                if tag == 43u8 {
                    FrameView::SimpleString(t)
                } else {
                    FrameView::Error(t)
                },
                header_line(tag, t).len() as int,
            ),
        ),
{
    lemma_line(tag, encode_utf8(t), rest);
    assert(header_line(tag, t) + rest =~= seq![tag] + encode_utf8(t) + crlf() + rest);
    assert(line_text(encode_utf8(t)) == t);
}

/// An integer line reads back as its integer.
proof fn lemma_parse_integer(v: i64, rest: Seq<u8>)
    ensures
        parse_spec(serialized(FrameView::Integer(v)) + rest) == Some(
            (FrameView::Integer(v), serialized(FrameView::Integer(v)).len() as int),
        ),
{
    let e = encode_utf8(int_decimal(v as int));
    lemma_decimal_bytes(v as int);
    lemma_line(58u8, e, rest);
    assert(serialized(FrameView::Integer(v)) + rest =~= seq![58u8] + e + crlf() + rest);
    assert(line_i64(e) == Some(v));
}

/// A bulk string reads back as its payload.
proof fn lemma_parse_bulk(d: Seq<u8>, rest: Seq<u8>)
    requires
        d.len() <= isize::MAX,
    ensures
        parse_spec(serialized(FrameView::BulkString(Some(d))) + rest) == Some(
            (
                FrameView::BulkString(Some(d)),
                serialized(FrameView::BulkString(Some(d))).len() as int,
            ),
        ),
{
    let s = serialized(FrameView::BulkString(Some(d))) + rest;
    let e = encode_utf8(int_decimal(d.len() as int));
    lemma_decimal_bytes(d.len() as int);
    lemma_line(36u8, e, d + crlf() + rest);
    assert(s =~= seq![36u8] + e + crlf() + (d + crlf() + rest));
    assert(line_isize(e) == Some(d.len() as isize));
    let hdr = e.len() + 3;
    assert(s.subrange(hdr as int, hdr + d.len() as int) =~= d);
    assert(s[hdr + d.len() as int] == 13u8 && s[hdr + d.len() as int + 1] == 10u8);
}

/// The bytes `-1`, the decimal text of minus one.
proof fn lemma_minus_one()
    ensures
        encode_utf8(int_decimal(-1)) == seq![45u8, 49u8],
{
    lemma_decimal_roundtrip(-1);
    is_ascii_chars_encode_utf8(int_decimal(-1));
    assert(int_decimal(-1) =~= seq!['-', '1']);
    assert(encode_utf8(int_decimal(-1)) =~= seq![45u8, 49u8]);
}

/// A null bulk string or null array reads back as itself.
proof fn lemma_parse_null(tag: u8, rest: Seq<u8>)
    requires
        tag == 36u8 || tag == 42u8,
    ensures
        parse_spec(null_line(tag) + rest) == Some(
            (
                if tag == 36u8 {
                    FrameView::BulkString(None)
                } else {
                    FrameView::Array(None)
                },
                5int,
            ),
        ),
{
    let e = seq![45u8, 49u8];
    lemma_minus_one();
    lemma_decimal_bytes(-1);
    lemma_line(tag, e, rest);
    assert(null_line(tag) + rest =~= seq![tag] + e + crlf() + rest);
    assert(line_isize(e) == Some(-1isize));
}

/// Reading back what was written gives the same frame, and takes exactly
/// the bytes written, whatever follows them.
pub proof fn lemma_parse_serialized(f: FrameView, rest: Seq<u8>)
    requires
        well_formed(f),
    ensures
        parse_spec(serialized(f) + rest) == Some((f, serialized(f).len() as int)),
    decreases f,
{
    match f {
        FrameView::SimpleString(t) => {
            lemma_parse_text_line(43u8, t, rest);
        },
        FrameView::Error(t) => {
            lemma_parse_text_line(45u8, t, rest);
        },
        FrameView::Integer(v) => {
            lemma_parse_integer(v, rest);
        },
        FrameView::BulkString(Some(d)) => {
            lemma_parse_bulk(d, rest);
        },
        FrameView::BulkString(None) => {
            lemma_parse_null(36u8, rest);
        },
        FrameView::Array(Some(items)) => {
            let s = serialized(f) + rest;
            let e = encode_utf8(int_decimal(items.len() as int));
            lemma_decimal_bytes(items.len() as int);
            lemma_line(42u8, e, serialized_items(items) + rest);
            assert(s =~= seq![42u8] + e + crlf() + (serialized_items(items) + rest));
            assert(line_isize(e) == Some(items.len() as isize));
            lemma_parse_serialized_items(items, rest);
        },
        FrameView::Array(None) => {
            lemma_parse_null(42u8, rest);
        },
    }
}

/// Reading back a run of written frames gives the same frames, and takes
/// exactly the bytes written.
pub proof fn lemma_parse_serialized_items(items: Seq<FrameView>, rest: Seq<u8>)
    requires
        forall|i: int| 0 <= i < items.len() ==> well_formed(#[trigger] items[i]),
    ensures
        parse_items_spec(serialized_items(items) + rest, items.len()) == Some(
            (items, serialized_items(items).len() as int),
        ),
    decreases items,
{
    let s = serialized_items(items) + rest;
    if items.len() == 0 {
        assert(items =~= Seq::<FrameView>::empty());
    } else {
        let first = items[0];
        let others = items.drop_first();
        assert(well_formed(items[0]));
        assert forall|i: int| 0 <= i < others.len() implies well_formed(#[trigger] others[i]) by {
            assert(others[i] == items[i + 1]);
        }
        lemma_parse_serialized(first, serialized_items(others) + rest);
        assert(s =~= serialized(first) + (serialized_items(others) + rest));
        lemma_serialized_nonempty(first);
        let n = serialized(first).len() as int;
        assert(s.skip(n) =~= serialized_items(others) + rest);
        lemma_parse_serialized_items(others, rest);
        assert(seq![first] + others =~= items);
    }
}

/// Bytes that agree with `s` on its first `n` bytes agree on where the first
/// line of `s.skip(1)` ends, when it ends within them.
proof fn lemma_same_first_line(s: Seq<u8>, u: Seq<u8>, p: int, n: int)
    requires
        first_crlf(s.skip(1)) == Some(p),
        p + 3 <= n <= s.len(),
        n <= u.len(),
        u.take(n) == s.take(n),
    ensures
        first_crlf(u.skip(1)) == Some(p),
        u.skip(1).take(p) == s.skip(1).take(p),
        u[0] == s[0],
{
    let rs = s.skip(1);
    let ru = u.skip(1);
    assert(forall|i: int| 0 <= i < n ==> #[trigger] u[i] == s[i]) by {
        assert forall|i: int| 0 <= i < n implies #[trigger] u[i] == s[i] by {
            assert(u.take(n)[i] == s.take(n)[i]);
            assert(u.take(n)[i] == u[i]);
            assert(s.take(n)[i] == s[i]);
        }
    }
    let q = choose|i: int| crlf_at(rs, i) && no_crlf_before(rs, i);
    assert(crlf_at(rs, q) && no_crlf_before(rs, q));
    assert(q == p);
    assert(ru[p] == rs[p] && ru[p + 1] == rs[p + 1]);
    assert(crlf_at(ru, p));
    assert forall|j: int| 0 <= j < p implies !#[trigger] crlf_at(ru, j) by {
        assert(!crlf_at(rs, j));
        assert(ru[j] == rs[j] && ru[j + 1] == rs[j + 1]);
    }
    lemma_first_crlf_at(ru, p);
    assert(ru.take(p) =~= rs.take(p));
    assert(u[0] == s[0]);
}

/// A frame read from `s` takes between one byte and all of `s`, and any
/// bytes that begin with the same bytes as that frame read back as the same
/// frame.
pub proof fn lemma_parse_determined_by_prefix(s: Seq<u8>, u: Seq<u8>)
    ensures
        parse_spec(s) matches Some((f, n)) ==> {
            &&& 0 < n <= s.len()
            &&& (n <= u.len() && u.take(n) == s.take(n)) ==> parse_spec(u) == Some((f, n))
        },
    decreases s.len(), 0int,
{
    if let Some((f, n)) = parse_spec(s) {
        let rs = s.skip(1);
        let p = first_crlf(rs)->0;
        let q = choose|i: int| crlf_at(rs, i) && no_crlf_before(rs, i);
        assert(crlf_at(rs, q) && no_crlf_before(rs, q));
        let hdr = p + 3;
        let tag = s[0];
        if tag == 42u8 && line_isize(rs.take(p)) is Some && line_isize(rs.take(p))->0 >= 0 {
            let len = line_isize(rs.take(p))->0;
            lemma_items_determined_by_prefix(s.skip(hdr), u.skip(hdr), len as nat);
            if n <= u.len() && u.take(n) == s.take(n) {
                lemma_same_first_line(s, u, p, n);
                let m = n - hdr;
                assert(u.skip(hdr).take(m) =~= s.skip(hdr).take(m)) by {
                    assert forall|i: int| 0 <= i < m implies #[trigger] u.skip(hdr).take(m)[i]
                        == s.skip(hdr).take(m)[i] by {
                        assert(u.take(n)[hdr + i] == s.take(n)[hdr + i]);
                    }
                }
            }
        } else if n <= u.len() && u.take(n) == s.take(n) {
            lemma_same_first_line(s, u, p, n);
            if tag == 36u8 {
                let len = line_isize(rs.take(p))->0;
                if len >= 0 {
                    if s.len() >= hdr + len + 2 && s[hdr + len] == 13u8 && s[hdr + len + 1] == 10u8 {
                        assert(u.take(n)[hdr + len] == s.take(n)[hdr + len]);
                        assert(u.take(n)[hdr + len + 1] == s.take(n)[hdr + len + 1]);
                    }
                    let su = u.subrange(hdr, hdr + len);
                    let ss = s.subrange(hdr, hdr + len);
                    assert(su =~= ss) by {
                        assert forall|i: int| 0 <= i < len implies #[trigger] su[i] == ss[i] by {
                            assert(u.take(n)[hdr + i] == s.take(n)[hdr + i]);
                        }
                    }
                }
            }
        }
    }
}

/// A run of `count` frames read from `s` takes at most all of `s`, and any
/// bytes that begin with the same bytes read back as the same run.
pub proof fn lemma_items_determined_by_prefix(s: Seq<u8>, u: Seq<u8>, count: nat)
    ensures
        parse_items_spec(s, count) matches Some((fs, m)) ==> {
            &&& 0 <= m <= s.len()
            &&& (m <= u.len() && u.take(m) == s.take(m)) ==> parse_items_spec(u, count) == Some(
                (fs, m),
            )
        },
    decreases s.len(), count,
{
    if count > 0 {
        if let Some((fs, m)) = parse_items_spec(s, count) {
            let (f, k) = parse_spec(s)->0;
            lemma_parse_determined_by_prefix(s, u);
            lemma_items_determined_by_prefix(s.skip(k), u.skip(k), (count - 1) as nat);
            if m <= u.len() && u.take(m) == s.take(m) {
                assert(u.take(k) =~= s.take(k)) by {
                    assert forall|i: int| 0 <= i < k implies #[trigger] u.take(k)[i] == s.take(k)[i] by {
                        assert(u.take(m)[i] == s.take(m)[i]);
                    }
                }
                let m2 = m - k;
                assert(u.skip(k).take(m2) =~= s.skip(k).take(m2)) by {
                    assert forall|i: int| 0 <= i < m2 implies #[trigger] u.skip(k).take(m2)[i]
                        == s.skip(k).take(m2)[i] by {
                        assert(u.take(m)[k + i] == s.take(m)[k + i]);
                    }
                }
            }
        }
    }
}

/// Once the bytes hold a whole frame, more bytes arriving behind them do not
/// change which frame is read or how many bytes it takes.
pub proof fn lemma_parse_extend(s: Seq<u8>, more: Seq<u8>)
    ensures
        parse_spec(s) matches Some((f, n)) ==> parse_spec(s + more) == Some((f, n)),
{
    lemma_parse_determined_by_prefix(s, s + more);
    if let Some((f, n)) = parse_spec(s) {
        assert((s + more).take(n) =~= s.take(n));
    }
}

/// No proper prefix of the bytes a frame takes holds a whole frame: until
/// its last byte has arrived, the parser reports that nothing is complete.
pub proof fn lemma_proper_prefix_incomplete(s: Seq<u8>, k: int)
    ensures
        parse_spec(s) matches Some((f, n)) && 0 <= k < n ==> parse_spec(s.take(k)) is None,
    decreases s.len(), 0int,
{
    if let Some((f, n)) = parse_spec(s) {
        if 0 <= k < n {
            lemma_parse_determined_by_prefix(s, s);
            let t = s.take(k);
            if k > 0 {
                let rs = s.skip(1);
                let rt = t.skip(1);
                let p = first_crlf(rs)->0;
                let q = choose|i: int| crlf_at(rs, i) && no_crlf_before(rs, i);
                assert(crlf_at(rs, q) && no_crlf_before(rs, q));
                let hdr = p + 3;
                if k < hdr {
                    assert forall|j: int| 0 <= j < rt.len() implies !#[trigger] crlf_at(rt, j) by {
                        if crlf_at(rt, j) {
                            assert(rt[j] == rs[j] && rt[j + 1] == rs[j + 1]);
                            assert(crlf_at(rs, j));
                        }
                    }
                    lemma_first_crlf_none(rt);
                } else {
                    assert(t.take(hdr) =~= s.take(hdr));
                    lemma_same_first_line(s, t, p, hdr);
                    let tag = s[0];
                    if tag == 42u8 && line_isize(rs.take(p)) is Some && line_isize(rs.take(p))->0
                        >= 0 {
                        let len = line_isize(rs.take(p))->0;
                        assert(t.skip(hdr) =~= s.skip(hdr).take(k - hdr));
                        lemma_items_proper_prefix(s.skip(hdr), len as nat, k - hdr);
                    }
                }
            }
        }
    }
}

/// No proper prefix of the bytes a run of frames takes holds the whole run.
pub proof fn lemma_items_proper_prefix(s: Seq<u8>, count: nat, k: int)
    ensures
        parse_items_spec(s, count) matches Some((fs, m)) && 0 <= k < m ==> parse_items_spec(
            s.take(k),
            count,
        ) is None,
    decreases s.len(), count,
{
    if count > 0 {
        if let Some((fs, m)) = parse_items_spec(s, count) {
            if 0 <= k < m {
                let (f, n1) = parse_spec(s)->0;
                lemma_items_determined_by_prefix(s, s, count);
                let t = s.take(k);
                if k < n1 {
                    lemma_proper_prefix_incomplete(s, k);
                } else {
                    lemma_parse_determined_by_prefix(s, t);
                    assert(t.take(n1) =~= s.take(n1));
                    assert(t.skip(n1) =~= s.skip(n1).take(k - n1));
                    lemma_items_proper_prefix(s.skip(n1), (count - 1) as nat, k - n1);
                }
            }
        }
    }
}

/// The wire forms: a type byte (`+`, `-`, `:`, `$` or `*`), then the
/// text, decimal integer or length, then `\r\n`; a bulk string's payload
/// follows its length and ends in `\r\n`; an array's elements follow its
/// length in order; null is written `-1`.
pub proof fn lemma_wire_forms(t: Seq<char>, i: i64, d: Seq<u8>, items: Seq<FrameView>)
    ensures
        serialized(FrameView::SimpleString(t)) == seq![43u8] + encode_utf8(t) + seq![13u8, 10u8],
        serialized(FrameView::Error(t)) == seq![45u8] + encode_utf8(t) + seq![13u8, 10u8],
        serialized(FrameView::Integer(i)) == seq![58u8] + encode_utf8(int_decimal(i as int))
            + seq![13u8, 10u8],
        serialized(FrameView::BulkString(Some(d))) == seq![36u8] + encode_utf8(
            int_decimal(d.len() as int),
        ) + seq![13u8, 10u8] + d + seq![13u8, 10u8],
        serialized(FrameView::BulkString(None)) == seq![36u8, 45u8, 49u8, 13u8, 10u8],
        serialized(FrameView::Array(None)) == seq![42u8, 45u8, 49u8, 13u8, 10u8],
        serialized(FrameView::Array(Some(items))) == seq![42u8] + encode_utf8(
            int_decimal(items.len() as int),
        ) + seq![13u8, 10u8] + serialized_items(items),
        items.len() == 0 ==> serialized_items(items) == Seq::<u8>::empty(),
        items.len() > 0 ==> serialized_items(items) == serialized(items[0]) + serialized_items(
            items.drop_first(),
        ),
{
}

/// Bytes that start with no known type byte, or hold no `\r\n` after it,
/// hold no frame; nor do the bytes of a bulk string whose payload is not
/// followed by `\r\n`.
pub proof fn lemma_parse_refusals(s: Seq<u8>, d: Seq<u8>, x: u8, y: u8, rest: Seq<u8>)
    ensures
        s.len() == 0 ==> parse_spec(s) is None,
        s.len() > 0 && s[0] != 43u8 && s[0] != 45u8 && s[0] != 58u8 && s[0] != 36u8 && s[0]
            != 42u8 ==> parse_spec(s) is None,
        s.len() > 0 && no_crlf_before(s.skip(1), s.len() - 1) ==> parse_spec(s) is None,
        d.len() <= isize::MAX && !(x == 13u8 && y == 10u8) ==> parse_spec(
            seq![36u8] + encode_utf8(int_decimal(d.len() as int)) + seq![13u8, 10u8] + d + seq![
                x,
                y,
            ] + rest,
        ) is None,
{
    if s.len() > 0 && no_crlf_before(s.skip(1), s.len() - 1) {
        lemma_first_crlf_none(s.skip(1));
    }
    if d.len() <= isize::MAX && !(x == 13u8 && y == 10u8) {
        let e = encode_utf8(int_decimal(d.len() as int));
        let tail = d + seq![x, y] + rest;
        lemma_decimal_bytes(d.len() as int);
        lemma_line(36u8, e, tail);
        let b = seq![36u8] + e + seq![13u8, 10u8] + d + seq![x, y] + rest;
        assert(b =~= seq![36u8] + e + crlf() + tail);
        assert(line_isize(e) == Some(d.len() as isize));
        let hdr = e.len() + 3;
        assert(b[hdr + d.len() as int] == x && b[hdr + d.len() as int + 1] == y);
    }
}

} // verus!
