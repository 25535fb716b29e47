//! The frame model: the recursive value type exchanged over the wire,
//! and its mathematical view.

use crate::wire::{
    all_digits, combine_elems, digits_val, frames_wf, frame_wf, is_digit_byte, is_null_line,
    lemma_combine_assoc, lemma_combine_left_empty, lemma_digits_val_mono, lemma_find_crlf_first,
    lemma_find_crlf_props, lemma_mul10_fit, lemma_parse_consumed, lemma_skip_skip, lemma_skip_take,
    len_line_ok, lemma_serialize_elems_push, payload_ok, spec_accum, spec_digits, spec_find_crlf,
    spec_parse, spec_parse_array, spec_parse_bulk, spec_parse_elems, spec_parse_integer,
    spec_parse_simple, spec_serialize, spec_serialize_elems, spec_signed_digits, FrameView,
    ProtocolError, SpecInt, SpecLine, SpecParse, SpecParseElems, CR, LF,
};
use vstd::prelude::*;

verus! {

/// One complete protocol value. `Simple` and `Error` carry line-oriented
/// payloads that may not contain a terminator byte; `Bulk` carries an
/// arbitrary binary payload; `Array` nests frames; `Null` is the absent
/// value, written on the wire as a bulk of declared length -1.
#[derive(Debug, PartialEq, Eq)]
pub enum RESPType {
    Simple(Vec<u8>),
    Error(Vec<u8>),
    Integer(i64),
    Bulk(Vec<u8>),
    Array(Vec<RESPType>),
    Null,
}

/// The mathematical view of a frame.
pub open spec fn frame_view(f: RESPType) -> FrameView
    decreases f,
{
    match f {
        RESPType::Simple(p) => FrameView::Simple(p@),
        RESPType::Error(p) => FrameView::Error(p@),
        RESPType::Integer(n) => FrameView::Integer(n),
        RESPType::Bulk(p) => FrameView::Bulk(p@),
        RESPType::Array(elems) => FrameView::Array(frames_view(elems@)),
        RESPType::Null => FrameView::Null,
    }
}

/// The views of a sequence of frames, in order.
pub open spec fn frames_view(s: Seq<RESPType>) -> Seq<FrameView>
    decreases s,
{
    if s.len() == 0 {
        Seq::empty()
    } else {
        seq![frame_view(s[0])] + frames_view(s.skip(1))
    }
}

impl View for RESPType {
    type V = FrameView;

    open spec fn view(&self) -> FrameView {
        frame_view(*self)
    }
}

/// `frames_view` maps the sequence element by element.
pub proof fn lemma_frames_view(s: Seq<RESPType>)
    ensures
        frames_view(s).len() == s.len(),
        forall|i: int| 0 <= i < s.len() ==> frames_view(s)[i] == frame_view(#[trigger] s[i]),
    decreases s,
{
    if s.len() > 0 {
        lemma_frames_view(s.skip(1));
        assert forall|i: int| 0 <= i < s.len() implies frames_view(s)[i] == frame_view(
            #[trigger] s[i],
        ) by {
            if i > 0 {
                assert(s.skip(1)[i - 1] == s[i]);
                assert(frames_view(s)[i] == frames_view(s.skip(1))[i - 1]);
            }
        }
    }
}

/// Appending a frame appends its view.
pub proof fn lemma_frames_view_push(s: Seq<RESPType>, x: RESPType)
    ensures
        frames_view(s.push(x)) == frames_view(s).push(frame_view(x)),
{
    lemma_frames_view(s.push(x));
    lemma_frames_view(s);
    assert forall|i: int| 0 <= i < s.len() + 1 implies frames_view(s.push(x))[i] == frames_view(
        s,
    ).push(frame_view(x))[i] by {
        if i < s.len() {
            assert(s.push(x)[i] == s[i]);
        } else {
            assert(s.push(x)[i] == x);
        }
    }
    assert(frames_view(s.push(x)) =~= frames_view(s).push(frame_view(x)));
}

/// The incremental frame decoder. Parsing never mutates the buffer: it
/// works over an explicit read position, and moves that position past a
/// frame only when the frame is complete.
pub struct RESPParser {}

impl RESPParser {
    /// Byte at `pos`, if any.
    pub fn get_u8(data: &Vec<u8>, pos: usize) -> (r: Option<u8>)
        ensures
            match r {
                Some(b) => pos < data@.len() && b == data@[pos as int],
                None => pos >= data@.len(),
            },
    {
        if pos < data.len() {
            Some(data[pos])
        } else {
            None
        }
    }

    /// Position of the first line terminator at or after `from`.
    #[verifier::loop_isolation(false)]
    fn find_crlf(data: &Vec<u8>, from: usize) -> (r: Option<usize>)
        requires
            from <= data@.len(),
        ensures
            match spec_find_crlf(data@.skip(from as int)) {
                Some(k) => r matches Some(e) && from + k == e,
                None => r is None,
            },
    {
        proof {
            lemma_find_crlf_props(data@.skip(from as int));
        }
        let dlen = data.len();
        if dlen == 0 {
            return None;
        }
        let mut i = from;
        while i < dlen - 1
            invariant
                from <= i,
                i <= data@.len(),
                forall|j: int|
                    from <= j < i ==> !(#[trigger] data@[j] == CR && data@[j + 1] == LF),
            decreases data@.len() - i,
        {
            if data[i] == CR && data[i + 1] == LF {
                proof {
                    let s = data@.skip(from as int);
                    assert forall|j: int| 0 <= j < i - from implies !(#[trigger] s[j] == CR
                        && s[j + 1] == LF) by {
                        assert(s[j] == data@[from + j]);
                        assert(s[j + 1] == data@[from + j + 1]);
                    }
                    assert(s[i - from] == data@[i as int]);
                    assert(s[i - from + 1] == data@[i as int + 1]);
                    lemma_find_crlf_first(s, i - from);
                }
                return Some(i);
            }
            i = i + 1;
        }
        proof {
            let s = data@.skip(from as int);
            match spec_find_crlf(s) {
                Some(k) => {
                    assert(s[k as int] == data@[from + k]);
                    assert(s[k as int + 1] == data@[from + k + 1]);
                    assert(false);
                },
                None => {},
            }
        }
        None
    }

    /// Decode one simple-string or error payload beginning at `pos`,
    /// which stands just past the type tag. On success the position
    /// moves past the payload and its terminator; otherwise it is
    /// unchanged.
    #[verifier::loop_isolation(false)]
    pub fn parse_simple(data: &Vec<u8>, pos: &mut usize) -> (r: Result<
        Option<Vec<u8>>,
        ProtocolError,
    >)
        requires
            *old(pos) <= data@.len(),
        ensures
            ({
                let rem = data@.skip(*old(pos) as int);
                match spec_parse_simple(rem) {
                    SpecLine::Complete(p, c) => match r {
                        Ok(Some(v)) => v@ == p && *final(pos) == *old(pos) + c,
                        _ => false,
                    },
                    SpecLine::Incomplete => r == Ok::<Option<Vec<u8>>, ProtocolError>(None)
                        && *final(pos) == *old(pos),
                    SpecLine::Fail(e) => r == Err::<Option<Vec<u8>>, ProtocolError>(e)
                        && *final(pos) == *old(pos),
                }
            }),
    {
        let start = *pos;
        let dlen = data.len();
        let ghost rem = data@.skip(start as int);
        match Self::find_crlf(data, start) {
            None => Ok(None),
            Some(end) => {
                proof {
                    lemma_find_crlf_props(rem);
                    match spec_find_crlf(rem) {
                        Some(k0) => {
                            assert(end == start + k0);
                            assert(k0 + 2 <= rem.len());
                        },
                        None => {
                            assert(false);
                        },
                    }
                    lemma_skip_take(data@, start as int, end - start);
                }
                let ghost k = end - start;
                let mut v: Vec<u8> = Vec::new();
                let mut i = start;
                while i < end
                    invariant
                        start <= i <= end,
                        end + 2 <= data@.len(),
                        v@ == data@.subrange(start as int, i as int),
                        forall|j: int|
                            start <= j < i ==> #[trigger] data@[j] != CR && data@[j] != LF,
                    decreases end - i,
                {
                    let b = data[i];
                    if b == CR || b == LF {
                        proof {
                            assert(rem.take(k)[i - start] == data@[i as int]);
                            assert(!payload_ok(rem.take(k)));
                        }
                        return Err(ProtocolError::TerminatorInSimple);
                    }
                    v.push(b);
                    proof {
                        assert(v@ =~= data@.subrange(start as int, i as int + 1));
                    }
                    i = i + 1;
                }
                proof {
                    assert forall|j: int| 0 <= j < k implies #[trigger] rem.take(k)[j] != CR
                        && rem.take(k)[j] != LF by {
                        assert(rem.take(k)[j] == data@[start + j]);
                    }
                    assert(payload_ok(rem.take(k)));
                    assert(v@ == rem.take(k));
                }
                *pos = end + 2;
                Ok(Some(v))
            },
        }
    }

    /// Decode one integer field beginning at `pos`, just past the type
    /// tag: an optional sign, then decimal digits folded with wrapping
    /// 64-bit arithmetic, the sign applied at the end.
    #[verifier::loop_isolation(false)]
    pub fn parse_integer(data: &Vec<u8>, pos: &mut usize) -> (r: Result<
        Option<i64>,
        ProtocolError,
    >)
        requires
            *old(pos) <= data@.len(),
        ensures
            ({
                let rem = data@.skip(*old(pos) as int);
                match spec_parse_integer(rem) {
                    SpecInt::Complete(v, c) => match r {
                        Ok(Some(x)) => x == v && *final(pos) == *old(pos) + c,
                        _ => false,
                    },
                    SpecInt::Incomplete => r == Ok::<Option<i64>, ProtocolError>(None)
                        && *final(pos) == *old(pos),
                    SpecInt::Fail(e) => r == Err::<Option<i64>, ProtocolError>(e)
                        && *final(pos) == *old(pos),
                }
            }),
    {
        let start = *pos;
        let dlen = data.len();
        let ghost rem = data@.skip(start as int);
        match Self::find_crlf(data, start) {
            None => Ok(None),
            Some(end) => {
                proof {
                    lemma_find_crlf_props(rem);
                    match spec_find_crlf(rem) {
                        Some(k0) => {
                            assert(end == start + k0);
                            assert(k0 + 2 <= rem.len());
                        },
                        None => {
                            assert(false);
                        },
                    }
                    lemma_skip_take(data@, start as int, end - start);
                }
                let ghost k = end - start;
                let ghost line = rem.take(k);
                if end == start {
                    return Err(ProtocolError::BadDigit);
                }
                let first = data[start];
                let neg = first == 45;
                let i0: usize = if first == 45 || first == 43 {
                    start + 1
                } else {
                    start
                };
                let ghost ds = if first == 45 || first == 43 {
                    line.skip(1)
                } else {
                    line
                };
                proof {
                    assert(line[0] == data@[start as int]);
                    assert(ds =~= data@.subrange(i0 as int, end as int));
                }
                let mut acc: i64 = 0;
                let mut i = i0;
                while i < end
                    invariant
                        i0 <= i <= end,
                        acc == spec_accum(data@.subrange(i0 as int, i as int)),
                        all_digits(data@.subrange(i0 as int, i as int)),
                    decreases end - i,
                {
                    let b = data[i];
                    if b < 48 || b > 57 {
                        proof {
                            assert(ds[i - i0] == data@[i as int]);
                            assert(!all_digits(ds));
                        }
                        return Err(ProtocolError::BadDigit);
                    }
                    acc = acc.wrapping_mul(10).wrapping_add((b - 48) as i64);
                    proof {
                        let pre = data@.subrange(i0 as int, i as int);
                        let cur = data@.subrange(i0 as int, i as int + 1);
                        assert(cur.drop_last() =~= pre);
                        assert(cur.last() == data@[i as int]);
                        assert forall|j: int| 0 <= j < cur.len() implies is_digit_byte(
                            #[trigger] cur[j],
                        ) by {
                            if j < i - i0 {
                                assert(cur[j] == pre[j]);
                            } else {
                                assert(cur[j] == data@[i as int]);
                            }
                        }
                    }
                    i = i + 1;
                }
                proof {
                    assert(data@.subrange(i0 as int, end as int) == ds);
                }
                let sign: i64 = if neg {
                    -1
                } else {
                    1
                };
                let result = acc.wrapping_mul(sign);
                *pos = end + 2;
                Ok(Some(result))
            },
        }
    }

    /// Decode a length or count line: one or more decimal digits whose
    /// value fits the machine.
    #[verifier::loop_isolation(false)]
    fn parse_len(data: &Vec<u8>, start: usize, end: usize) -> (r: Result<usize, ProtocolError>)
        requires
            start <= end <= data@.len(),
        ensures
            ({
                let line = data@.subrange(start as int, end as int);
                match r {
                    Ok(n) => len_line_ok(line) && n == digits_val(line),
                    Err(e) => e == ProtocolError::BadLength && !len_line_ok(line),
                }
            }),
    {
        let ghost line = data@.subrange(start as int, end as int);
        if start == end {
            return Err(ProtocolError::BadLength);
        }
        let mut acc: usize = 0;
        let mut i = start;
        while i < end
            invariant
                start <= i <= end,
                acc == digits_val(data@.subrange(start as int, i as int)),
                all_digits(data@.subrange(start as int, i as int)),
            decreases end - i,
        {
            let b = data[i];
            if b < 48 || b > 57 {
                proof {
                    assert(line[i - start] == data@[i as int]);
                    assert(!all_digits(line));
                }
                return Err(ProtocolError::BadLength);
            }
            let d = (b - 48) as usize;
            let ghost pre = data@.subrange(start as int, i as int);
            let ghost cur = data@.subrange(start as int, i as int + 1);
            proof {
                assert(cur.drop_last() =~= pre);
                assert(cur.last() == data@[i as int]);
                assert forall|j: int| 0 <= j < cur.len() implies is_digit_byte(
                    #[trigger] cur[j],
                ) by {
                    if j < i - start {
                        assert(cur[j] == pre[j]);
                    } else {
                        assert(cur[j] == data@[i as int]);
                    }
                }
                lemma_mul10_fit(acc as int, d as int, usize::MAX as int);
            }
            if acc > (usize::MAX - d) / 10 {
                proof {
                    // whatever the rest of the line holds, it cannot
                    // name a value that fits the machine
                    if all_digits(line) {
                        lemma_digits_val_mono(line, i + 1 - start);
                        assert(line.take(i + 1 - start) =~= cur);
                        assert(digits_val(line) >= digits_val(cur));
                    }
                }
                return Err(ProtocolError::BadLength);
            }
            acc = acc * 10 + d;
            i = i + 1;
        }
        proof {
            assert(data@.subrange(start as int, end as int) == line);
        }
        Ok(acc)
    }

    /// Decode one bulk frame beginning at `pos`, just past the type
    /// tag: a length line, then either the null marker, or exactly that
    /// many payload bytes and a terminator. A body that is not yet
    /// fully buffered is incomplete, not an error.
    #[verifier::loop_isolation(false)]
    pub fn parse_bulk(data: &Vec<u8>, pos: &mut usize) -> (r: Result<
        Option<RESPType>,
        ProtocolError,
    >)
        requires
            *old(pos) <= data@.len(),
        ensures
            ({
                let rem = data@.skip(*old(pos) as int);
                match spec_parse_bulk(rem) {
                    SpecParse::Complete(f, c) => match r {
                        Ok(Some(fr)) => frame_view(fr) == f && *final(pos) == *old(pos) + c,
                        _ => false,
                    },
                    SpecParse::Incomplete => r == Ok::<Option<RESPType>, ProtocolError>(None)
                        && *final(pos) == *old(pos),
                    SpecParse::Fail(e) => r == Err::<Option<RESPType>, ProtocolError>(e)
                        && *final(pos) == *old(pos),
                }
            }),
    {
        let start = *pos;
        let dlen = data.len();
        let ghost rem = data@.skip(start as int);
        match Self::find_crlf(data, start) {
            None => Ok(None),
            Some(end) => {
                proof {
                    lemma_find_crlf_props(rem);
                    match spec_find_crlf(rem) {
                        Some(k0) => {
                            assert(end == start + k0);
                            assert(k0 + 2 <= rem.len());
                        },
                        None => {
                            assert(false);
                        },
                    }
                    lemma_skip_take(data@, start as int, end - start);
                }
                let ghost k = end - start;
                if end - start == 2 && data[start] == 45 && data[start + 1] == 49 {
                    proof {
                        assert(rem[0] == data@[start as int]);
                        assert(rem[1] == data@[start as int + 1]);
                    }
                    *pos = end + 2;
                    return Ok(Some(RESPType::Null));
                }
                proof {
                    assert(rem[0] == data@[start as int]);
                    if k == 2 {
                        assert(rem[1] == data@[start as int + 1]);
                    }
                    assert(!is_null_line(rem, k as nat));
                }
                let n = match Self::parse_len(data, start, end) {
                    Ok(n) => n,
                    Err(e) => {
                        return Err(e);
                    },
                };
                let body_start = end + 2;
                let ghost body = rem.skip(k + 2);
                proof {
                    lemma_skip_skip(data@, start as int, k + 2);
                    assert(body == data@.skip(body_start as int));
                }
                let avail = dlen - body_start;
                if avail < n || avail - n < 2 {
                    return Ok(None);
                }
                proof {
                    assert(body[n as int] == data@[body_start + n]);
                    assert(body[n as int + 1] == data@[body_start + n + 1]);
                }
                if data[body_start + n] != CR || data[body_start + n + 1] != LF {
                    return Err(ProtocolError::BadBulkEnd);
                }
                let mut v: Vec<u8> = Vec::new();
                let mut i = body_start;
                while i < body_start + n
                    invariant
                        body_start <= i <= body_start + n,
                        body_start + n + 2 <= dlen,
                        v@ == data@.subrange(body_start as int, i as int),
                    decreases body_start + n - i,
                {
                    v.push(data[i]);
                    proof {
                        assert(v@ =~= data@.subrange(body_start as int, i as int + 1));
                    }
                    i = i + 1;
                }
                proof {
                    lemma_skip_take(data@, body_start as int, n as int);
                    assert(v@ == body.take(n as int));
                }
                *pos = body_start + n + 2;
                Ok(Some(RESPType::Bulk(v)))
            },
        }
    }

    /// Decode one array frame beginning at `pos`, just past the type
    /// tag: a count line, then either the null marker, or exactly that
    /// many nested frames. If any element is incomplete the whole array
    /// is incomplete: no partial array materializes.
    #[verifier::loop_isolation(false)]
    pub fn parse_array(data: &Vec<u8>, pos: &mut usize) -> (r: Result<
        Option<RESPType>,
        ProtocolError,
    >)
        requires
            *old(pos) <= data@.len(),
        ensures
            ({
                let rem = data@.skip(*old(pos) as int);
                match spec_parse_array(rem) {
                    SpecParse::Complete(f, c) => match r {
                        Ok(Some(fr)) => frame_view(fr) == f && *final(pos) == *old(pos) + c,
                        _ => false,
                    },
                    SpecParse::Incomplete => r == Ok::<Option<RESPType>, ProtocolError>(None)
                        && *final(pos) == *old(pos),
                    SpecParse::Fail(e) => r == Err::<Option<RESPType>, ProtocolError>(e)
                        && *final(pos) == *old(pos),
                }
            }),
        decreases data@.len() - *old(pos), 0int,
    {
        let start = *pos;
        let dlen = data.len();
        let ghost rem = data@.skip(start as int);
        match Self::find_crlf(data, start) {
            None => Ok(None),
            Some(end) => {
                proof {
                    lemma_find_crlf_props(rem);
                    match spec_find_crlf(rem) {
                        Some(k0) => {
                            assert(end == start + k0);
                            assert(k0 + 2 <= rem.len());
                        },
                        None => {
                            assert(false);
                        },
                    }
                    lemma_skip_take(data@, start as int, end - start);
                }
                let ghost k = end - start;
                if end - start == 2 && data[start] == 45 && data[start + 1] == 49 {
                    proof {
                        assert(rem[0] == data@[start as int]);
                        assert(rem[1] == data@[start as int + 1]);
                    }
                    *pos = end + 2;
                    return Ok(Some(RESPType::Null));
                }
                proof {
                    assert(rem[0] == data@[start as int]);
                    if k == 2 {
                        assert(rem[1] == data@[start as int + 1]);
                    }
                    assert(!is_null_line(rem, k as nat));
                }
                let n = match Self::parse_len(data, start, end) {
                    Ok(n) => n,
                    Err(e) => {
                        return Err(e);
                    },
                };
                let ghost t = rem.skip(k + 2);
                proof {
                    lemma_skip_skip(data@, start as int, k + 2);
                    assert(t == data@.skip(end as int + 2));
                }
                let mut elems: Vec<RESPType> = Vec::new();
                let mut count: usize = 0;
                let mut p: usize = end + 2;
                proof {
                    lemma_combine_left_empty(spec_parse_elems(t, n as nat));
                }
                while count < n
                    invariant
                        count <= n,
                        end + 2 <= p <= dlen,
                        elems@.len() == count,
                        spec_parse_elems(t, n as nat) == combine_elems(
                            frames_view(elems@),
                            (p - (end + 2)) as nat,
                            spec_parse_elems(data@.skip(p as int), (n - count) as nat),
                        ),
                    decreases n - count,
                {
                    let ghost p0 = p;
                    let ghost u = data@.skip(p0 as int);
                    let ghost elems0 = elems@;
                    match Self::parse(data, &mut p) {
                        Err(e) => {
                            proof {
                                assert(spec_parse_elems(u, (n - count) as nat) matches
                                    SpecParseElems::Fail(e2) && e2 == e);
                            }
                            return Err(e);
                        },
                        Ok(None) => {
                            return Ok(None);
                        },
                        Ok(Some(f)) => {
                            proof {
                                lemma_parse_consumed(u);
                                let fv = frame_view(f);
                                let c = (p - p0) as nat;
                                assert(spec_parse(u) == SpecParse::Complete(fv, c));
                                lemma_skip_skip(data@, p0 as int, c as int);
                                assert(u.skip(c as int) == data@.skip(p as int));
                                assert(spec_parse_elems(u, (n - count) as nat) == combine_elems(
                                    seq![fv],
                                    c,
                                    spec_parse_elems(data@.skip(p as int), (n - count - 1) as nat),
                                ));
                                lemma_combine_assoc(
                                    frames_view(elems0),
                                    (p0 - (end + 2)) as nat,
                                    seq![fv],
                                    c,
                                    spec_parse_elems(data@.skip(p as int), (n - count - 1) as nat),
                                );
                                lemma_frames_view_push(elems0, f);
                                assert(frames_view(elems0) + seq![fv] =~= frames_view(
                                    elems0,
                                ).push(fv));
                            }
                            elems.push(f);
                            count = count + 1;
                        },
                    }
                }
                proof {
                    assert(frames_view(elems@) + Seq::<FrameView>::empty() =~= frames_view(
                        elems@,
                    ));
                    assert(spec_parse_elems(t, n as nat) == SpecParseElems::Complete(
                        frames_view(elems@),
                        (p - (end + 2)) as nat,
                    ));
                }
                *pos = p;
                Ok(Some(RESPType::Array(elems)))
            },
        }
    }

    /// Decode one frame beginning at `pos`. A frame is attempted only
    /// when a line terminator is present in the buffered bytes; its
    /// absence is always "incomplete", never an error. On success the
    /// position moves exactly past the frame; otherwise it is
    /// unchanged.
    pub fn parse(data: &Vec<u8>, pos: &mut usize) -> (r: Result<Option<RESPType>, ProtocolError>)
        requires
            *old(pos) <= data@.len(),
        ensures
            ({
                let rem = data@.skip(*old(pos) as int);
                match spec_parse(rem) {
                    SpecParse::Complete(f, c) => match r {
                        Ok(Some(fr)) => frame_view(fr) == f && *final(pos) == *old(pos) + c,
                        _ => false,
                    },
                    SpecParse::Incomplete => r == Ok::<Option<RESPType>, ProtocolError>(None)
                        && *final(pos) == *old(pos),
                    SpecParse::Fail(e) => r == Err::<Option<RESPType>, ProtocolError>(e)
                        && *final(pos) == *old(pos),
                }
            }),
        decreases data@.len() - *old(pos), 1int,
    {
        let start = *pos;
        let dlen = data.len();
        let ghost rem = data@.skip(start as int);
        match Self::find_crlf(data, start) {
            None => {
                return Ok(None);
            },
            Some(_) => {},
        }
        proof {
            lemma_find_crlf_props(rem);
            assert(rem[0] == data@[start as int]);
            assert(start + 2 <= dlen);
            lemma_skip_skip(data@, start as int, 1);
        }
        let tag = data[start];
        let mut p = start + 1;
        if tag == 43 {
            match Self::parse_simple(data, &mut p) {
                Err(e) => Err(e),
                Ok(None) => Ok(None),
                Ok(Some(v)) => {
                    *pos = p;
                    Ok(Some(RESPType::Simple(v)))
                },
            }
        } else if tag == 45 {
            match Self::parse_simple(data, &mut p) {
                Err(e) => Err(e),
                Ok(None) => Ok(None),
                Ok(Some(v)) => {
                    *pos = p;
                    Ok(Some(RESPType::Error(v)))
                },
            }
        } else if tag == 58 {
            match Self::parse_integer(data, &mut p) {
                Err(e) => Err(e),
                Ok(None) => Ok(None),
                Ok(Some(x)) => {
                    *pos = p;
                    Ok(Some(RESPType::Integer(x)))
                },
            }
        } else if tag == 36 {
            match Self::parse_bulk(data, &mut p) {
                Err(e) => Err(e),
                Ok(None) => Ok(None),
                Ok(Some(f)) => {
                    *pos = p;
                    Ok(Some(f))
                },
            }
        } else if tag == 42 {
            match Self::parse_array(data, &mut p) {
                Err(e) => Err(e),
                Ok(None) => Ok(None),
                Ok(Some(f)) => {
                    *pos = p;
                    Ok(Some(f))
                },
            }
        } else {
            Err(ProtocolError::UnknownType)
        }
    }
}

/// A frame built of well-formed parts is well formed as soon as its own
/// payload is; array lengths are bounded by what a vector can hold.
pub proof fn lemma_frames_wf_index(s: Seq<FrameView>)
    ensures
        frames_wf(s) <==> (forall|i: int| 0 <= i < s.len() ==> frame_wf(#[trigger] s[i])),
    decreases s,
{
    if s.len() > 0 {
        lemma_frames_wf_index(s.skip(1));
        if forall|i: int| 0 <= i < s.len() ==> frame_wf(#[trigger] s[i]) {
            assert(frame_wf(s[0]));
            assert(forall|i: int| 0 <= i < s.skip(1).len() ==> frame_wf(#[trigger] s.skip(1)[i]))
                by {
                assert forall|i: int| 0 <= i < s.skip(1).len() implies frame_wf(
                    #[trigger] s.skip(1)[i],
                ) by {
                    assert(s.skip(1)[i] == s[i + 1]);
                }
            }
        }
        if frames_wf(s) {
            assert forall|i: int| 0 <= i < s.len() implies frame_wf(#[trigger] s[i]) by {
                if i == 0 {
                } else {
                    assert(s[i] == s.skip(1)[i - 1]);
                }
            }
        }
    }
}

/// The frame encoder: a pure function from a frame to its wire bytes,
/// total but for frames whose simple payloads contain a terminator
/// byte.
pub struct RESPSerializer {}

impl RESPSerializer {
    /// Append every byte of `src` to `dst`.
    #[verifier::loop_isolation(false)]
    fn push_all(dst: &mut Vec<u8>, src: &Vec<u8>)
        ensures
            final(dst)@ == old(dst)@ + src@,
    {
        let mut i: usize = 0;
        while i < src.len()
            invariant
                i <= src@.len(),
                dst@ == old(dst)@ + src@.take(i as int),
            decreases src@.len() - i,
        {
            dst.push(src[i]);
            proof {
                assert(old(dst)@ + src@.take(i as int + 1) =~= (old(dst)@ + src@.take(i as int)).push(
                    src@[i as int],
                ));
            }
            i = i + 1;
        }
        proof {
            assert(src@.take(src@.len() as int) =~= src@);
        }
    }

    /// The decimal digit string of `mag`, most significant digit first.
    #[verifier::loop_isolation(false)]
    fn fmt_digits(mag: u64) -> (out: Vec<u8>)
        ensures
            out@ == spec_digits(mag as nat),
    {
        let mut digs: Vec<u8> = Vec::new();
        let ghost mut acc: Seq<u8> = Seq::empty();
        let mut x = mag;
        digs.push((x % 10) as u8 + 48);
        proof {
            acc = seq![((x % 10) + 48) as u8];
        }
        x = x / 10;
        while x > 0
            invariant
                digs@.len() == acc.len(),
                forall|j: int| 0 <= j < acc.len() ==> acc[j] == digs@[acc.len() - 1 - j],
                spec_digits(mag as nat) == if x > 0 {
                    spec_digits(x as nat) + acc
                } else {
                    acc
                },
            decreases x,
        {
            let d = (x % 10) as u8 + 48;
            digs.push(d);
            proof {
                let acc0 = acc;
                acc = seq![d] + acc;
                assert(forall|j: int| 1 <= j < acc.len() ==> acc[j] == acc0[j - 1]);
                if x >= 10 {
                    assert(spec_digits(x as nat) == spec_digits((x as nat) / 10) + seq![
                        ((x as nat) % 10 + 48) as u8,
                    ]);
                    assert((spec_digits((x / 10) as nat) + seq![d]) + acc0 =~= spec_digits(
                        (x / 10) as nat,
                    ) + (seq![d] + acc0));
                } else {
                    assert(spec_digits(x as nat) == seq![((x as nat) + 48) as u8]);
                    assert(seq![d] + acc0 =~= spec_digits(x as nat) + acc0);
                }
            }
            x = x / 10;
        }
        let mut out: Vec<u8> = Vec::new();
        let mut i = digs.len();
        while i > 0
            invariant
                i <= digs@.len(),
                digs@.len() == acc.len(),
                forall|j: int| 0 <= j < acc.len() ==> acc[j] == digs@[acc.len() - 1 - j],
                out@.len() == digs@.len() - i,
                forall|j: int| 0 <= j < out@.len() ==> out@[j] == acc[j],
            decreases i,
        {
            i = i - 1;
            out.push(digs[i]);
        }
        proof {
            assert(out@ =~= acc);
        }
        out
    }

    /// The decimal rendering of `n`: a minus sign for negatives, then
    /// the digits of the magnitude.
    fn fmt_signed(n: i64) -> (out: Vec<u8>)
        ensures
            out@ == spec_signed_digits(n as int),
    {
        if n >= 0 {
            Self::fmt_digits(n as u64)
        } else {
            let mag: u64 = ((-(n + 1)) as u64) + 1;
            proof {
                assert(mag == -(n as int));
            }
            let mut out: Vec<u8> = Vec::new();
            out.push(45);
            let digs = Self::fmt_digits(mag);
            Self::push_all(&mut out, &digs);
            proof {
                assert(seq![45u8] + spec_digits(mag as nat) =~= out@);
            }
            out
        }
    }

    /// Encode one simple-string or error payload: the payload followed
    /// by the terminator; a payload containing a terminator byte is
    /// rejected.
    #[verifier::loop_isolation(false)]
    pub fn serialize_simple(src: &Vec<u8>) -> (r: Result<Vec<u8>, ProtocolError>)
        ensures
            payload_ok(src@) ==> (r matches Ok(v) && v@ == src@ + seq![CR, LF]),
            !payload_ok(src@) ==> r == Err::<Vec<u8>, ProtocolError>(
                ProtocolError::TerminatorInSimple,
            ),
    {
        let mut out: Vec<u8> = Vec::new();
        let mut i: usize = 0;
        while i < src.len()
            invariant
                i <= src@.len(),
                out@ == src@.take(i as int),
                forall|j: int| 0 <= j < i ==> #[trigger] src@[j] != CR && src@[j] != LF,
            decreases src@.len() - i,
        {
            let b = src[i];
            if b == CR || b == LF {
                return Err(ProtocolError::TerminatorInSimple);
            }
            out.push(b);
            proof {
                assert(out@ =~= src@.take(i as int + 1));
            }
            i = i + 1;
        }
        out.push(CR);
        out.push(LF);
        proof {
            assert(src@.take(src@.len() as int) =~= src@);
            assert(out@ =~= src@ + seq![CR, LF]);
        }
        Ok(out)
    }

    /// Encode one frame as its exact wire bytes. Fails precisely when a
    /// simple or error payload somewhere in the frame contains a
    /// terminator byte; bulk payloads are emitted verbatim, whatever
    /// bytes they hold.
    #[verifier::loop_isolation(false)]
    pub fn serialize(msg: &RESPType) -> (r: Result<Vec<u8>, ProtocolError>)
        ensures
            frame_wf(msg@) ==> (r matches Ok(v) && v@ == spec_serialize(msg@)),
            !frame_wf(msg@) ==> r == Err::<Vec<u8>, ProtocolError>(
                ProtocolError::TerminatorInSimple,
            ),
        decreases *msg,
    {
        match msg {
            RESPType::Simple(p) => {
                let tail = Self::serialize_simple(p)?;
                let mut out: Vec<u8> = Vec::new();
                out.push(43);
                Self::push_all(&mut out, &tail);
                proof {
                    assert(out@ =~= seq![43u8] + p@ + seq![CR, LF]);
                }
                Ok(out)
            },
            RESPType::Error(p) => {
                let tail = Self::serialize_simple(p)?;
                let mut out: Vec<u8> = Vec::new();
                out.push(45);
                Self::push_all(&mut out, &tail);
                proof {
                    assert(out@ =~= seq![45u8] + p@ + seq![CR, LF]);
                }
                Ok(out)
            },
            RESPType::Integer(n) => {
                let mut out: Vec<u8> = Vec::new();
                out.push(58);
                let digs = Self::fmt_signed(*n);
                Self::push_all(&mut out, &digs);
                out.push(CR);
                out.push(LF);
                proof {
                    assert(out@ =~= seq![58u8] + spec_signed_digits(*n as int) + seq![CR, LF]);
                }
                Ok(out)
            },
            RESPType::Bulk(p) => {
                let mut out: Vec<u8> = Vec::new();
                out.push(36);
                let digs = Self::fmt_digits(p.len() as u64);
                Self::push_all(&mut out, &digs);
                out.push(CR);
                out.push(LF);
                Self::push_all(&mut out, p);
                out.push(CR);
                out.push(LF);
                proof {
                    assert(out@ =~= seq![36u8] + spec_digits(p@.len()) + seq![CR, LF] + p@ + seq![
                        CR,
                        LF,
                    ]);
                }
                Ok(out)
            },
            RESPType::Null => {
                let mut out: Vec<u8> = Vec::new();
                out.push(36);
                out.push(45);
                out.push(49);
                out.push(CR);
                out.push(LF);
                proof {
                    assert(out@ =~= seq![36u8, 45u8, 49u8, CR, LF]);
                }
                Ok(out)
            },
            RESPType::Array(elems) => {
                let mut out: Vec<u8> = Vec::new();
                out.push(42);
                let digs = Self::fmt_digits(elems.len() as u64);
                Self::push_all(&mut out, &digs);
                out.push(CR);
                out.push(LF);
                let ghost header = seq![42u8] + spec_digits(elems@.len()) + seq![CR, LF];
                proof {
                    assert(out@ =~= header);
                    lemma_frames_view(elems@);
                }
                let mut i: usize = 0;
                while i < elems.len()
                    invariant
                        i <= elems@.len(),
                        out@ == header + spec_serialize_elems(frames_view(elems@).take(i as int)),
                        forall|j: int| 0 <= j < i ==> frame_wf(#[trigger] frames_view(elems@)[j]),
                    decreases elems@.len() - i,
                {
                    let ghost fvs = frames_view(elems@);
                    match Self::serialize(&elems[i]) {
                        Err(_) => {
                            proof {
                                lemma_frames_wf_index(fvs);
                                assert(fvs[i as int] == frame_view(elems@[i as int]));
                                assert(!frames_wf(fvs));
                            }
                            return Err(ProtocolError::TerminatorInSimple);
                        },
                        Ok(piece) => {
                            proof {
                                assert(fvs[i as int] == frame_view(elems@[i as int]));
                            }
                            Self::push_all(&mut out, &piece);
                            proof {
                                lemma_serialize_elems_push(fvs.take(i as int), fvs[i as int]);
                                assert(fvs.take(i as int).push(fvs[i as int]) =~= fvs.take(
                                    i as int + 1,
                                ));
                            }
                            i = i + 1;
                        },
                    }
                }
                proof {
                    let fvs = frames_view(elems@);
                    assert(fvs.take(fvs.len() as int) =~= fvs);
                    lemma_frames_wf_index(fvs);
                }
                Ok(out)
            },
        }
    }
}

} // verus!
