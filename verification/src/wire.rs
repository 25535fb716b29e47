//! Byte-level specification of the wire format.
//!
//! `FrameView` is the mathematical model of a frame; `spec_serialize`
//! gives the exact wire bytes of a frame, and `spec_parse` gives the
//! outcome of attempting to decode one frame from the front of an
//! arbitrary byte sequence: a complete frame with the number of bytes
//! it occupies, a signal that more bytes are needed, or a protocol
//! error. The executable parser and serializer are proved against
//! these functions.

use vstd::prelude::*;

verus! {

/// Carriage return, the first byte of the line terminator.
pub const CR: u8 = 13;
/// Line feed, the second byte of the line terminator.
pub const LF: u8 = 10;

/// Mathematical model of a frame: payloads are byte sequences, arrays
/// are sequences of models.
pub enum FrameView {
    Simple(Seq<u8>),
    Error(Seq<u8>),
    Integer(i64),
    Bulk(Seq<u8>),
    Array(Seq<FrameView>),
    Null,
}

/// A protocol violation: the byte stream cannot be decoded, and the
/// framing alignment of the stream can no longer be trusted.
#[derive(Debug, Clone, Copy, PartialEq, Eq, Structural)]
pub enum ProtocolError {
    /// The first byte of a frame is not one of the five type tags.
    UnknownType,
    /// A simple string or error payload contains a terminator byte.
    TerminatorInSimple,
    /// An integer field holds a byte that is neither a sign nor a digit.
    BadDigit,
    /// A bulk or array length prefix is not a decimal number that fits
    /// the machine, and is not the null marker.
    BadLength,
    /// A bulk body of the declared length is not followed by the
    /// terminator.
    BadBulkEnd,
}

/// Outcome of decoding one frame from the front of a byte sequence.
pub enum SpecParse {
    /// A full frame, and the number of bytes it occupies.
    Complete(FrameView, nat),
    /// More bytes are needed; never an error.
    Incomplete,
    /// A protocol violation.
    Fail(ProtocolError),
}

/// Outcome of decoding a run of consecutive frames.
pub enum SpecParseElems {
    Complete(Seq<FrameView>, nat),
    Incomplete,
    Fail(ProtocolError),
}

/// Outcome of decoding one terminator-delimited line payload.
pub enum SpecLine {
    Complete(Seq<u8>, nat),
    Incomplete,
    Fail(ProtocolError),
}

/// Outcome of decoding one integer field.
pub enum SpecInt {
    Complete(i64, nat),
    Incomplete,
    Fail(ProtocolError),
}

/// A line payload free of terminator bytes.
pub open spec fn payload_ok(p: Seq<u8>) -> bool {
    forall|i: int| 0 <= i < p.len() ==> p[i] != CR && p[i] != LF
}

pub open spec fn is_digit_byte(b: u8) -> bool {
    48 <= b <= 57
}

pub open spec fn all_digits(s: Seq<u8>) -> bool {
    forall|i: int| 0 <= i < s.len() ==> is_digit_byte(#[trigger] s[i])
}

/// Value of a decimal digit string, most significant digit first.
pub open spec fn digits_val(s: Seq<u8>) -> nat
    decreases s.len(),
{
    if s.len() == 0 {
        0
    } else {
        (digits_val(s.drop_last()) * 10 + (s.last() - 48)) as nat
    }
}

/// Decimal digit string of `n`, most significant digit first.
pub open spec fn spec_digits(n: nat) -> Seq<u8>
    decreases n,
{
    if n < 10 {
        seq![(n + 48) as u8]
    } else {
        spec_digits(n / 10) + seq![(n % 10 + 48) as u8]
    }
}

/// Decimal rendering of a signed value: a minus sign for negatives,
/// then the digits of the magnitude.
pub open spec fn spec_signed_digits(n: int) -> Seq<u8> {
    if n < 0 {
        seq![45u8] + spec_digits((-n) as nat)
    } else {
        spec_digits(n as nat)
    }
}

/// The digit accumulator of the parser: digits are folded in from the
/// left with wrapping 64-bit arithmetic.
pub open spec fn spec_accum(s: Seq<u8>) -> i64
    decreases s.len(),
{
    if s.len() == 0 {
        0
    } else {
        vstd::wrapping::i64_specs::wrapping_add(
            vstd::wrapping::i64_specs::wrapping_mul(spec_accum(s.drop_last()), 10),
            (s.last() - 48) as i64,
        )
    }
}

/// Position of the first line terminator in `s`, if any.
pub open spec fn spec_find_crlf(s: Seq<u8>) -> Option<nat>
    decreases s.len(),
{
    if s.len() < 2 {
        None
    } else if s[0] == CR && s[1] == LF {
        Some(0)
    } else {
        match spec_find_crlf(s.skip(1)) {
            None => None,
            Some(k) => Some((k + 1) as nat),
        }
    }
}

/// Decode one simple-string or error payload: the bytes up to the first
/// terminator, which may themselves contain no terminator byte.
pub open spec fn spec_parse_simple(s: Seq<u8>) -> SpecLine {
    match spec_find_crlf(s) {
        None => SpecLine::Incomplete,
        Some(k) => if payload_ok(s.take(k as int)) {
            SpecLine::Complete(s.take(k as int), (k + 2) as nat)
        } else {
            SpecLine::Fail(ProtocolError::TerminatorInSimple)
        },
    }
}

/// Decode one integer field: an optional sign, then decimal digits,
/// folded with wrapping arithmetic, the sign applied at the end.
pub open spec fn spec_parse_integer(s: Seq<u8>) -> SpecInt {
    match spec_find_crlf(s) {
        None => SpecInt::Incomplete,
        Some(k) => {
            let line = s.take(k as int);
            if k == 0 {
                SpecInt::Fail(ProtocolError::BadDigit)
            } else {
                let sign: i64 = if line[0] == 45 { -1i64 } else { 1i64 };
                let ds = if line[0] == 45 || line[0] == 43 { line.skip(1) } else { line };
                if all_digits(ds) {
                    SpecInt::Complete(
                        vstd::wrapping::i64_specs::wrapping_mul(spec_accum(ds), sign),
                        (k + 2) as nat,
                    )
                } else {
                    SpecInt::Fail(ProtocolError::BadDigit)
                }
            }
        },
    }
}

/// The null marker: a declared length of -1.
pub open spec fn is_null_line(s: Seq<u8>, k: nat) -> bool {
    k == 2 && s[0] == 45 && s[1] == 49
}

/// A well-formed length prefix line: one or more decimal digits.
pub open spec fn len_line_ok(line: Seq<u8>) -> bool {
    line.len() > 0 && all_digits(line) && digits_val(line) <= usize::MAX
}

/// Decode one bulk frame after its tag: a length line, then either the
/// null marker, or exactly that many payload bytes and a terminator.
pub open spec fn spec_parse_bulk(s: Seq<u8>) -> SpecParse {
    match spec_find_crlf(s) {
        None => SpecParse::Incomplete,
        Some(k) => if k + 2 > s.len() {
            SpecParse::Incomplete
        } else if is_null_line(s, k) {
            SpecParse::Complete(FrameView::Null, (k + 2) as nat)
        } else if !len_line_ok(s.take(k as int)) {
            SpecParse::Fail(ProtocolError::BadLength)
        } else {
            let n = digits_val(s.take(k as int));
            let body = s.skip((k + 2) as int);
            if body.len() < n + 2 {
                SpecParse::Incomplete
            } else if body[n as int] == CR && body[n as int + 1] == LF {
                SpecParse::Complete(FrameView::Bulk(body.take(n as int)), (k + 2 + n + 2) as nat)
            } else {
                SpecParse::Fail(ProtocolError::BadBulkEnd)
            }
        },
    }
}

/// Decode one frame from the front of `s`. A frame is attempted only
/// when a line terminator is present somewhere in `s`; its absence is
/// always "incomplete", never an error.
pub open spec fn spec_parse(s: Seq<u8>) -> SpecParse
    decreases s.len(), 0nat, 1nat,
{
    if spec_find_crlf(s) is None {
        SpecParse::Incomplete
    } else {
        let rest = s.skip(1);
        if s[0] == 43 {
            match spec_parse_simple(rest) {
                SpecLine::Complete(p, c) => SpecParse::Complete(FrameView::Simple(p), (1 + c) as nat),
                SpecLine::Incomplete => SpecParse::Incomplete,
                SpecLine::Fail(e) => SpecParse::Fail(e),
            }
        } else if s[0] == 45 {
            match spec_parse_simple(rest) {
                SpecLine::Complete(p, c) => SpecParse::Complete(FrameView::Error(p), (1 + c) as nat),
                SpecLine::Incomplete => SpecParse::Incomplete,
                SpecLine::Fail(e) => SpecParse::Fail(e),
            }
        } else if s[0] == 58 {
            match spec_parse_integer(rest) {
                SpecInt::Complete(v, c) => SpecParse::Complete(FrameView::Integer(v), (1 + c) as nat),
                SpecInt::Incomplete => SpecParse::Incomplete,
                SpecInt::Fail(e) => SpecParse::Fail(e),
            }
        } else if s[0] == 36 {
            match spec_parse_bulk(rest) {
                SpecParse::Complete(f, c) => SpecParse::Complete(f, (1 + c) as nat),
                SpecParse::Incomplete => SpecParse::Incomplete,
                SpecParse::Fail(e) => SpecParse::Fail(e),
            }
        } else if s[0] == 42 {
            match spec_parse_array(rest) {
                SpecParse::Complete(f, c) => SpecParse::Complete(f, (1 + c) as nat),
                SpecParse::Incomplete => SpecParse::Incomplete,
                SpecParse::Fail(e) => SpecParse::Fail(e),
            }
        } else {
            SpecParse::Fail(ProtocolError::UnknownType)
        }
    }
}

/// Decode one array frame after its tag: a count line, then either the
/// null marker, or exactly that many nested frames in order.
pub open spec fn spec_parse_array(s: Seq<u8>) -> SpecParse
    decreases s.len(), 0nat, 0nat,
{
    match spec_find_crlf(s) {
        None => SpecParse::Incomplete,
        Some(k) => if k + 2 > s.len() {
            SpecParse::Incomplete
        } else if is_null_line(s, k) {
            SpecParse::Complete(FrameView::Null, (k + 2) as nat)
        } else if !len_line_ok(s.take(k as int)) {
            SpecParse::Fail(ProtocolError::BadLength)
        } else {
            match spec_parse_elems(s.skip((k + 2) as int), digits_val(s.take(k as int))) {
                SpecParseElems::Complete(fs, m) => SpecParse::Complete(
                    FrameView::Array(fs),
                    (k + 2 + m) as nat,
                ),
                SpecParseElems::Incomplete => SpecParse::Incomplete,
                SpecParseElems::Fail(e) => SpecParse::Fail(e),
            }
        },
    }
}

/// Decode `n` consecutive frames from the front of `s`. If any element
/// is incomplete the whole run is incomplete: no partial run is kept.
pub open spec fn spec_parse_elems(s: Seq<u8>, n: nat) -> SpecParseElems
    decreases s.len(), 1nat, n,
{
    if n == 0 {
        SpecParseElems::Complete(Seq::empty(), 0)
    } else {
        match spec_parse(s) {
            SpecParse::Incomplete => SpecParseElems::Incomplete,
            SpecParse::Fail(e) => SpecParseElems::Fail(e),
            SpecParse::Complete(f, c) => if 1 <= c <= s.len() {
                match spec_parse_elems(s.skip(c as int), (n - 1) as nat) {
                    SpecParseElems::Complete(fs, m) => SpecParseElems::Complete(
                        seq![f] + fs,
                        (c + m) as nat,
                    ),
                    SpecParseElems::Incomplete => SpecParseElems::Incomplete,
                    SpecParseElems::Fail(e) => SpecParseElems::Fail(e),
                }
            } else {
                // a complete frame always occupies between one byte and
                // the whole input; this branch is never taken
                SpecParseElems::Fail(ProtocolError::UnknownType)
            },
        }
    }
}

/// A frame that can be serialized: simple and error payloads carry no
/// terminator byte, and declared lengths fit the machine.
pub open spec fn frame_wf(f: FrameView) -> bool
    decreases f,
{
    match f {
        FrameView::Simple(p) => payload_ok(p),
        FrameView::Error(p) => payload_ok(p),
        FrameView::Integer(_) => true,
        FrameView::Bulk(p) => p.len() <= usize::MAX,
        FrameView::Array(elems) => elems.len() <= usize::MAX && frames_wf(elems),
        FrameView::Null => true,
    }
}

pub open spec fn frames_wf(s: Seq<FrameView>) -> bool
    decreases s,
{
    if s.len() == 0 {
        true
    } else {
        frame_wf(s[0]) && frames_wf(s.skip(1))
    }
}

/// The wire encoding of a frame, defined for every frame value.
/// Serialization of frames that are not well formed is rejected at run
/// time; the encoding itself is total.
pub open spec fn spec_serialize(f: FrameView) -> Seq<u8>
    decreases f,
{
    match f {
        FrameView::Simple(p) => seq![43u8] + p + seq![CR, LF],
        FrameView::Error(p) => seq![45u8] + p + seq![CR, LF],
        FrameView::Integer(n) => seq![58u8] + spec_signed_digits(n as int) + seq![CR, LF],
        FrameView::Bulk(p) => seq![36u8] + spec_digits(p.len()) + seq![CR, LF] + p + seq![CR, LF],
        FrameView::Array(elems) => seq![42u8] + spec_digits(elems.len()) + seq![CR, LF]
            + spec_serialize_elems(elems),
        FrameView::Null => seq![36u8, 45u8, 49u8, CR, LF],
    }
}

/// Concatenation of the wire encodings of a sequence of frames.
pub open spec fn spec_serialize_elems(s: Seq<FrameView>) -> Seq<u8>
    decreases s,
{
    if s.len() == 0 {
        Seq::empty()
    } else {
        spec_serialize(s[0]) + spec_serialize_elems(s.skip(1))
    }
}

/// Serializing one more frame appends its encoding.
pub proof fn lemma_serialize_elems_push(s: Seq<FrameView>, x: FrameView)
    ensures
        spec_serialize_elems(s.push(x)) == spec_serialize_elems(s) + spec_serialize(x),
    decreases s,
{
    if s.len() == 0 {
        assert(s.push(x)[0] == x);
        assert(s.push(x).skip(1) =~= Seq::<FrameView>::empty());
        assert(spec_serialize_elems(Seq::<FrameView>::empty()) == Seq::<u8>::empty());
        assert(spec_serialize_elems(s.push(x)) == spec_serialize(x) + Seq::<u8>::empty());
        assert(spec_serialize(x) + Seq::<u8>::empty() =~= spec_serialize(x));
        assert(Seq::<u8>::empty() + spec_serialize(x) =~= spec_serialize(x));
    } else {
        assert(s.push(x).skip(1) =~= s.skip(1).push(x));
        lemma_serialize_elems_push(s.skip(1), x);
        assert(s.push(x)[0] == s[0]);
        assert(spec_serialize(s[0]) + (spec_serialize_elems(s.skip(1)) + spec_serialize(x))
            =~= (spec_serialize(s[0]) + spec_serialize_elems(s.skip(1))) + spec_serialize(x));
    }
}

/// Prepend an already-decoded run of frames to the outcome of decoding
/// the frames that follow them.
pub open spec fn combine_elems(prefix: Seq<FrameView>, c0: nat, r: SpecParseElems) -> SpecParseElems {
    match r {
        SpecParseElems::Complete(fs, m) => SpecParseElems::Complete(prefix + fs, (c0 + m) as nat),
        SpecParseElems::Incomplete => SpecParseElems::Incomplete,
        SpecParseElems::Fail(e) => SpecParseElems::Fail(e),
    }
}

/// Of a digit string, every prefix names a value no larger than the
/// whole.
pub proof fn lemma_digits_val_mono(s: Seq<u8>, m: int)
    requires
        0 <= m <= s.len(),
        all_digits(s),
    ensures
        digits_val(s.take(m)) <= digits_val(s),
    decreases s.len() - m,
{
    if m < s.len() {
        lemma_digits_val_mono(s, m + 1);
        assert(s.take(m + 1).drop_last() =~= s.take(m));
        assert(is_digit_byte(s[m]));
        assert(s.take(m + 1).last() == s[m]);
        assert(digits_val(s.take(m + 1)) == digits_val(s.take(m)) * 10 + (s[m] - 48));
    } else {
        assert(s.take(m) =~= s);
    }
}

/// Whether one more digit still fits under `max` is decided by the
/// quotient test the decoder uses.
pub proof fn lemma_mul10_fit(a: int, d: int, max: int)
    requires
        0 <= a,
        0 <= d <= 9,
        d <= max,
    ensures
        a <= (max - d) / 10 ==> a * 10 + d <= max,
        a > (max - d) / 10 ==> a * 10 + d > max,
{
    let q = (max - d) / 10;
    assert(q * 10 <= max - d < q * 10 + 10) by (nonlinear_arith)
        requires
            q == (max - d) / 10,
            0 <= max - d,
    ;
    if a <= q {
        assert(a * 10 <= q * 10) by (nonlinear_arith)
            requires
                a <= q,
        ;
    } else {
        assert(a * 10 >= q * 10 + 10) by (nonlinear_arith)
            requires
                a >= q + 1,
        ;
    }
}

/// Prepending nothing changes nothing.
pub proof fn lemma_combine_left_empty(r: SpecParseElems)
    ensures
        combine_elems(Seq::empty(), 0, r) == r,
{
    match r {
        SpecParseElems::Complete(fs, m) => {
            assert(Seq::<FrameView>::empty() + fs =~= fs);
        },
        _ => {},
    }
}

/// Prepending two runs one after the other prepends their
/// concatenation.
pub proof fn lemma_combine_assoc(
    a: Seq<FrameView>,
    ca: nat,
    b: Seq<FrameView>,
    cb: nat,
    r: SpecParseElems,
)
    ensures
        combine_elems(a, ca, combine_elems(b, cb, r)) == combine_elems(
            a + b,
            (ca + cb) as nat,
            r,
        ),
{
    match r {
        SpecParseElems::Complete(fs, m) => {
            assert(a + (b + fs) =~= (a + b) + fs);
        },
        _ => {},
    }
}

/// What `spec_find_crlf` returns: the position of a terminator before
/// which no terminator stands, within bounds; or a guarantee that no
/// terminator stands anywhere.
pub proof fn lemma_find_crlf_props(s: Seq<u8>)
    ensures
        match spec_find_crlf(s) {
            Some(k) => k + 2 <= s.len() && s[k as int] == CR && s[k as int + 1] == LF
                && (forall|j: int| 0 <= j < k ==> !(#[trigger] s[j] == CR && s[j + 1] == LF)),
            None => forall|j: int| 0 <= j && j + 1 < s.len() ==> !(#[trigger] s[j] == CR && s[j + 1] == LF),
        },
    decreases s.len(),
{
    if s.len() < 2 {
    } else if s[0] == CR && s[1] == LF {
    } else {
        lemma_find_crlf_props(s.skip(1));
        assert(forall|j: int| 0 <= j && j + 1 < s.skip(1).len() ==> s.skip(1)[j] == s[j + 1]);
        match spec_find_crlf(s.skip(1)) {
            Some(k) => {
                assert forall|j: int| 0 <= j < k + 1 implies !(#[trigger] s[j] == CR && s[j + 1] == LF) by {
                    if j > 0 {
                        assert(s.skip(1)[j - 1] == s[j]);
                        assert(s.skip(1)[j] == s[j + 1]);
                    }
                }
            },
            None => {
                assert forall|j: int| 0 <= j && j + 1 < s.len() implies !(#[trigger] s[j] == CR
                    && s[j + 1] == LF) by {
                    if j > 0 {
                        assert(s.skip(1)[j - 1] == s[j]);
                        assert(s.skip(1)[j] == s[j + 1]);
                    }
                }
            },
        }
    }
}

/// The terminator position is determined: a terminator with none before
/// it is what `spec_find_crlf` finds.
pub proof fn lemma_find_crlf_first(s: Seq<u8>, k: int)
    requires
        0 <= k,
        k + 1 < s.len(),
        s[k] == CR,
        s[k + 1] == LF,
        forall|j: int| 0 <= j < k ==> !(#[trigger] s[j] == CR && s[j + 1] == LF),
    ensures
        spec_find_crlf(s) == Some(k as nat),
    decreases s.len(),
{
    if k == 0 {
    } else {
        assert(!(s[0] == CR && s[1] == LF));
        assert(s.skip(1)[k - 1] == s[k]);
        assert(s.skip(1)[k] == s[k + 1]);
        assert forall|j: int| 0 <= j < k - 1 implies !(#[trigger] s.skip(1)[j] == CR
            && s.skip(1)[j + 1] == LF) by {
            assert(s.skip(1)[j] == s[j + 1]);
            assert(s.skip(1)[j + 1] == s[j + 2]);
        }
        lemma_find_crlf_first(s.skip(1), k - 1);
    }
}

/// Dropping `a` bytes and then `b` more drops `a + b` bytes.
pub proof fn lemma_skip_skip(s: Seq<u8>, a: int, b: int)
    requires
        0 <= a,
        0 <= b,
        a + b <= s.len(),
    ensures
        s.skip(a).skip(b) == s.skip(a + b),
{
    assert(s.skip(a).skip(b) =~= s.skip(a + b));
}

/// A window taken after a drop is a subrange of the whole sequence.
pub proof fn lemma_skip_take(s: Seq<u8>, a: int, b: int)
    requires
        0 <= a,
        0 <= b,
        a + b <= s.len(),
    ensures
        s.skip(a).take(b) == s.subrange(a, a + b),
{
    assert(s.skip(a).take(b) =~= s.subrange(a, a + b));
}

/// A complete frame occupies at least one byte and no more than the
/// whole input.
pub proof fn lemma_parse_consumed(s: Seq<u8>)
    ensures
        spec_parse(s) matches SpecParse::Complete(f, c) ==> 1 <= c <= s.len(),
    decreases s.len(), 0nat, 1nat,
{
    if spec_find_crlf(s) is Some {
        lemma_find_crlf_props(s);
        let rest = s.skip(1);
        if s[0] == 43 || s[0] == 45 {
            lemma_find_crlf_props(rest);
        } else if s[0] == 58 {
            lemma_find_crlf_props(rest);
        } else if s[0] == 36 {
            lemma_find_crlf_props(rest);
        } else if s[0] == 42 {
            lemma_parse_array_consumed(rest);
        }
    }
}

/// A complete array body occupies no more than the input after its tag.
pub proof fn lemma_parse_array_consumed(s: Seq<u8>)
    ensures
        spec_parse_array(s) matches SpecParse::Complete(f, c) ==> 1 <= c <= s.len(),
    decreases s.len(), 0nat, 0nat,
{
    if spec_find_crlf(s) is Some {
        lemma_find_crlf_props(s);
        let k = spec_find_crlf(s)->Some_0;
        if k + 2 <= s.len() && !is_null_line(s, k) && len_line_ok(s.take(k as int)) {
            lemma_parse_elems_consumed(s.skip((k + 2) as int), digits_val(s.take(k as int)));
        }
    }
}

/// A complete run of `n` frames holds exactly `n` of them and occupies
/// no more than the input.
pub proof fn lemma_parse_elems_consumed(s: Seq<u8>, n: nat)
    ensures
        spec_parse_elems(s, n) matches SpecParseElems::Complete(fs, m) ==> m <= s.len()
            && fs.len() == n,
    decreases s.len(), 1nat, n,
{
    if n > 0 {
        match spec_parse(s) {
            SpecParse::Complete(f, c) => {
                if 1 <= c <= s.len() {
                    lemma_parse_elems_consumed(s.skip(c as int), (n - 1) as nat);
                }
            },
            _ => {},
        }
    }
}

} // verus!
