//! Laws of the codec: what holds between `spec_serialize` and
//! `spec_parse` for every frame, stated and proved once, here.

use crate::wire::{
    all_digits, digits_val, frames_wf, frame_wf, is_digit_byte, is_null_line, len_line_ok,
    lemma_find_crlf_first, payload_ok, spec_accum, spec_digits, spec_find_crlf, spec_parse,
    spec_parse_array, spec_parse_bulk, spec_parse_elems, spec_parse_integer, spec_parse_simple,
    spec_serialize, spec_serialize_elems, spec_signed_digits, FrameView, SpecInt, SpecLine,
    SpecParse, SpecParseElems, CR, LF,
};
use vstd::prelude::*;

verus! {

/// The digit string of `n` is one or more decimal digits whose value is
/// `n` again.
pub proof fn lemma_digits_shape(n: nat)
    ensures
        spec_digits(n).len() >= 1,
        all_digits(spec_digits(n)),
        digits_val(spec_digits(n)) == n,
    decreases n,
{
    if n < 10 {
        assert(spec_digits(n) =~= seq![(n + 48) as u8]);
        assert(spec_digits(n).drop_last() =~= Seq::<u8>::empty());
        assert(digits_val(Seq::<u8>::empty()) == 0);
        assert(spec_digits(n).last() == (n + 48) as u8);
        assert(digits_val(spec_digits(n)) == n);
    } else {
        lemma_digits_shape(n / 10);
        let pre = spec_digits(n / 10);
        let s = spec_digits(n);
        assert(s == pre + seq![(n % 10 + 48) as u8]);
        assert(s.drop_last() =~= pre);
        assert(s.last() == (n % 10 + 48) as u8);
        assert forall|i: int| 0 <= i < s.len() implies is_digit_byte(#[trigger] s[i]) by {
            if i < pre.len() {
                assert(s[i] == pre[i]);
            }
        }
        assert(digits_val(s) == digits_val(pre) * 10 + (n % 10));
        assert(n == (n / 10) * 10 + n % 10);
    }
}

/// Folding the digits of a value below the sign bit with wrapping
/// arithmetic never wraps.
pub proof fn lemma_accum_exact(s: Seq<u8>)
    requires
        all_digits(s),
        digits_val(s) < 0x8000_0000_0000_0000,
    ensures
        spec_accum(s) == digits_val(s),
    decreases s.len(),
{
    if s.len() > 0 {
        let pre = s.drop_last();
        let d = (s.last() - 48) as int;
        assert(forall|i: int| 0 <= i < pre.len() ==> pre[i] == s[i]);
        assert(is_digit_byte(s.last()));
        assert(digits_val(s) == digits_val(pre) * 10 + d);
        assert(digits_val(pre) <= digits_val(pre) * 10 + d) by (nonlinear_arith)
            requires
                0 <= d,
                0 <= digits_val(pre),
        ;
        lemma_accum_exact(pre);
        let v = digits_val(pre) as int;
        assert(vstd::wrapping::i64_specs::wrapping_mul(v as i64, 10) == v * 10) by {
            assert(0 <= v * 10 <= i64::MAX) by (nonlinear_arith)
                requires
                    0 <= v,
                    v * 10 + d < 0x8000_0000_0000_0000,
                    0 <= d,
            ;
            assert((v * 10) % 0x1_0000_0000_0000_0000 == v * 10);
        }
        assert(vstd::wrapping::i64_specs::wrapping_add((v * 10) as i64, d as i64) == v * 10 + d);
    }
}

/// Folding the digits of exactly the sign bit wraps once, to the least
/// signed value.
pub proof fn lemma_accum_min(s: Seq<u8>)
    requires
        all_digits(s),
        digits_val(s) == 0x8000_0000_0000_0000,
    ensures
        spec_accum(s) == i64::MIN,
{
    let pre = s.drop_last();
    let d = (s.last() - 48) as int;
    assert(s.len() > 0);
    assert(forall|i: int| 0 <= i < pre.len() ==> pre[i] == s[i]);
    assert(is_digit_byte(s.last()));
    assert(digits_val(pre) * 10 + d == 0x8000_0000_0000_0000);
    let v = digits_val(pre) as int;
    assert(v == 0x0ccc_cccc_cccc_cccc && d == 8) by (nonlinear_arith)
        requires
            v * 10 + d == 0x8000_0000_0000_0000,
            0 <= d <= 9,
            0 <= v,
    ;
    lemma_accum_exact(pre);
    assert(vstd::wrapping::i64_specs::wrapping_mul(v as i64, 10) == v * 10) by {
        assert((v * 10) % 0x1_0000_0000_0000_0000 == v * 10);
    }
    assert(vstd::wrapping::i64_specs::wrapping_add((v * 10) as i64, 8) == i64::MIN);
}

/// A value in the signed 64-bit range is its own remainder, shifted by
/// the modulus when negative.
proof fn lemma_mod_word(x: int)
    requires
        -0x1_0000_0000_0000_0000 <= x < 0x1_0000_0000_0000_0000,
    ensures
        x >= 0 ==> x % 0x1_0000_0000_0000_0000 == x,
        x < 0 ==> x % 0x1_0000_0000_0000_0000 == x + 0x1_0000_0000_0000_0000,
{
    if x >= 0 {
        assert(x % 0x1_0000_0000_0000_0000 == x) by (nonlinear_arith)
            requires
                0 <= x < 0x1_0000_0000_0000_0000,
        ;
    } else {
        assert(x % 0x1_0000_0000_0000_0000 == x + 0x1_0000_0000_0000_0000) by (nonlinear_arith)
            requires
                -0x1_0000_0000_0000_0000 <= x < 0,
        ;
    }
}

/// Layout of one tagged, terminator-delimited line: where the first
/// terminator stands, and what the bytes around it are.
pub proof fn lemma_tagged_line(tag: u8, line: Seq<u8>, tail: Seq<u8>)
    requires
        tag != CR,
        forall|j: int| 0 <= j < line.len() ==> #[trigger] line[j] != CR,
    ensures
        (seq![tag] + line + seq![CR, LF] + tail)[0] == tag,
        spec_find_crlf(seq![tag] + line + seq![CR, LF] + tail) == Some((1 + line.len()) as nat),
        (seq![tag] + line + seq![CR, LF] + tail).skip(1) == line + seq![CR, LF] + tail,
        spec_find_crlf(line + seq![CR, LF] + tail) == Some(line.len() as nat),
        (line + seq![CR, LF] + tail).take(line.len() as int) == line,
        (line + seq![CR, LF] + tail).skip(line.len() as int + 2) == tail,
        (line + seq![CR, LF] + tail).len() == line.len() + 2 + tail.len(),
{
    let s = seq![tag] + line + seq![CR, LF] + tail;
    let r = line + seq![CR, LF] + tail;
    let n = line.len() as int;
    assert(s[0] == tag);
    assert(s.skip(1) =~= r);
    assert forall|j: int| 0 <= j < n implies #[trigger] r[j] == line[j] by {
        assert(r[j] == (line + seq![CR, LF])[j]);
    }
    assert(r[n] == (line + seq![CR, LF])[n]);
    assert(r[n + 1] == (line + seq![CR, LF])[n + 1]);
    assert forall|j: int| 0 <= j < n implies !(#[trigger] r[j] == CR && r[j + 1] == LF) by {
        assert(r[j] == line[j]);
    }
    lemma_find_crlf_first(r, n);
    assert forall|j: int| 0 <= j < n + 1 implies !(#[trigger] s[j] == CR && s[j + 1] == LF) by {
        if j > 0 {
            assert(s[j] == r[j - 1]);
        }
    }
    assert(s[n + 1] == r[n]);
    assert(s[n + 2] == r[n + 1]);
    lemma_find_crlf_first(s, n + 1);
    assert(r.take(n) =~= line);
    assert(r.skip(n + 2) =~= tail);
}

/// Parsing the encoding of a well-formed frame, whatever bytes follow
/// it, yields that frame back and consumes exactly the encoding: later
/// arrivals in the buffer never change what the first frame decodes to.
#[verifier::rlimit(60)]
pub proof fn lemma_parse_serialize(f: FrameView, extra: Seq<u8>)
    requires
        frame_wf(f),
    ensures
        spec_parse(spec_serialize(f) + extra) == SpecParse::Complete(f, spec_serialize(f).len()),
    decreases f,
{
    let ser = spec_serialize(f);
    let s = ser + extra;
    match f {
        FrameView::Simple(p) => {
            assert(s =~= seq![43u8] + p + seq![CR, LF] + extra);
            lemma_tagged_line(43, p, extra);
            let r = p + seq![CR, LF] + extra;
            assert(payload_ok(r.take(p.len() as int)));
            assert(spec_parse_simple(r) == SpecLine::Complete(p, (p.len() + 2) as nat));
            assert(ser.len() == 1 + p.len() + 2);
        },
        FrameView::Error(p) => {
            assert(s =~= seq![45u8] + p + seq![CR, LF] + extra);
            lemma_tagged_line(45, p, extra);
            let r = p + seq![CR, LF] + extra;
            assert(payload_ok(r.take(p.len() as int)));
            assert(spec_parse_simple(r) == SpecLine::Complete(p, (p.len() + 2) as nat));
            assert(s[0] == 45 && s[0] != 43);
            assert(ser.len() == 1 + p.len() + 2);
        },
        FrameView::Integer(n) => {
            let line = spec_signed_digits(n as int);
            let mag: nat = if n < 0 {
                (-(n as int)) as nat
            } else {
                n as nat
            };
            lemma_digits_shape(mag);
            let digits = spec_digits(mag);
            assert forall|j: int| 0 <= j < line.len() implies #[trigger] line[j] != CR by {
                if n < 0 {
                    if j == 0 {
                        assert(line[0] == 45u8);
                    } else {
                        assert(line[j] == digits[j - 1]);
                        assert(is_digit_byte(digits[j - 1]));
                    }
                } else {
                    assert(is_digit_byte(digits[j]));
                }
            }
            assert(s =~= seq![58u8] + line + seq![CR, LF] + extra);
            lemma_tagged_line(58, line, extra);
            let r = line + seq![CR, LF] + extra;
            let k = line.len() as int;
            assert(r.take(k) == line);
            assert(line.len() >= 1);
            let value = if n < 0 {
                let ds = line.skip(1);
                assert(line[0] == 45u8);
                assert(ds =~= digits);
                if mag < 0x8000_0000_0000_0000 {
                    lemma_accum_exact(ds);
                } else {
                    assert(mag == 0x8000_0000_0000_0000);
                    lemma_accum_min(ds);
                }
                assert(spec_accum(ds) == n as int || spec_accum(ds) == mag as int);
                let acc = spec_accum(ds);
                assert(vstd::wrapping::i64_specs::wrapping_mul(acc, -1i64) == n) by {
                    if n == i64::MIN {
                        assert(acc == i64::MIN);
                        assert(acc as int * -1 == 0x8000_0000_0000_0000);
                        assert(vstd::wrapping::i64_specs::signed_crop(0x8000_0000_0000_0000)
                            == i64::MIN);
                    } else {
                        assert(acc == mag as int);
                        assert(acc as int * -1 == n as int);
                        lemma_mod_word(n as int);
                    }
                }
                vstd::wrapping::i64_specs::wrapping_mul(spec_accum(line.skip(1)), -1i64)
            } else {
                assert(line == digits);
                assert(is_digit_byte(line[0]));
                assert(line[0] != 45 && line[0] != 43);
                lemma_accum_exact(line);
                assert(spec_accum(line) == n);
                lemma_mod_word(n as int);
                assert(vstd::wrapping::i64_specs::wrapping_mul(spec_accum(line), 1i64) == n);
                vstd::wrapping::i64_specs::wrapping_mul(spec_accum(line), 1i64)
            };
            assert(value == n);
            assert(spec_parse_integer(r) == SpecInt::Complete(n, (k + 2) as nat));
            assert(s[0] == 58 && s[0] != 43 && s[0] != 45);
            assert(ser.len() == 1 + k + 2);
        },
        FrameView::Bulk(p) => {
            let line = spec_digits(p.len());
            lemma_digits_shape(p.len());
            assert forall|j: int| 0 <= j < line.len() implies #[trigger] line[j] != CR by {
                assert(is_digit_byte(line[j]));
            }
            let tail = p + seq![CR, LF] + extra;
            assert(s =~= seq![36u8] + line + seq![CR, LF] + tail);
            lemma_tagged_line(36, line, tail);
            let r = line + seq![CR, LF] + tail;
            let d = line.len() as int;
            let n = p.len() as int;
            assert(r[0] == line[0]);
            assert(is_digit_byte(line[0]));
            assert(!is_null_line(r, d as nat));
            assert(r.take(d) == line);
            assert(len_line_ok(line));
            assert(digits_val(line) == p.len());
            let body = r.skip(d + 2);
            assert(body == tail);
            assert(body.len() == n + 2 + extra.len());
            assert(body[n] == (p + seq![CR, LF])[n]);
            assert(body[n + 1] == (p + seq![CR, LF])[n + 1]);
            assert(body[n] == CR && body[n + 1] == LF);
            assert(body.take(n) =~= p);
            assert(spec_parse_bulk(r) == SpecParse::Complete(
                FrameView::Bulk(p),
                (d + 2 + n + 2) as nat,
            ));
            assert(s[0] == 36 && s[0] != 43 && s[0] != 45 && s[0] != 58);
            assert(ser.len() == 1 + d + 2 + n + 2);
        },
        FrameView::Null => {
            let line = seq![45u8, 49u8];
            assert forall|j: int| 0 <= j < line.len() implies #[trigger] line[j] != CR by {}
            assert(s =~= seq![36u8] + line + seq![CR, LF] + extra);
            lemma_tagged_line(36, line, extra);
            let r = line + seq![CR, LF] + extra;
            assert(r[0] == line[0] && r[1] == line[1]);
            assert(is_null_line(r, 2));
            assert(spec_parse_bulk(r) == SpecParse::Complete(FrameView::Null, 4));
            assert(s[0] == 36 && s[0] != 43 && s[0] != 45 && s[0] != 58);
            assert(ser.len() == 5);
        },
        FrameView::Array(elems) => {
            let line = spec_digits(elems.len());
            lemma_digits_shape(elems.len());
            assert forall|j: int| 0 <= j < line.len() implies #[trigger] line[j] != CR by {
                assert(is_digit_byte(line[j]));
            }
            let se = spec_serialize_elems(elems);
            let tail = se + extra;
            assert(s =~= seq![42u8] + line + seq![CR, LF] + tail);
            lemma_tagged_line(42, line, tail);
            let r = line + seq![CR, LF] + tail;
            let d = line.len() as int;
            assert(r[0] == line[0]);
            assert(is_digit_byte(line[0]));
            assert(!is_null_line(r, d as nat));
            assert(r.take(d) == line);
            assert(len_line_ok(line));
            assert(digits_val(line) == elems.len());
            assert(r.skip(d + 2) == tail);
            lemma_parse_serialize_elems(elems, extra);
            assert(spec_parse_elems(tail, elems.len()) == SpecParseElems::Complete(
                elems,
                se.len(),
            ));
            assert(spec_parse_array(r) == SpecParse::Complete(
                FrameView::Array(elems),
                (d + 2 + se.len()) as nat,
            ));
            assert(s[0] == 42 && s[0] != 43 && s[0] != 45 && s[0] != 58 && s[0] != 36);
            assert(ser.len() == 1 + d + 2 + se.len());
        },
    }
}

/// Parsing the encodings of a run of well-formed frames, whatever bytes
/// follow them, yields those frames back in order.
pub proof fn lemma_parse_serialize_elems(fs: Seq<FrameView>, extra: Seq<u8>)
    requires
        frames_wf(fs),
    ensures
        spec_parse_elems(spec_serialize_elems(fs) + extra, fs.len())
            == SpecParseElems::Complete(fs, spec_serialize_elems(fs).len()),
    decreases fs,
{
    if fs.len() == 0 {
        assert(fs =~= Seq::<FrameView>::empty());
        assert(spec_serialize_elems(fs) == Seq::<u8>::empty());
    } else {
        let f0 = fs[0];
        let rest = fs.skip(1);
        let st = spec_serialize_elems(rest) + extra;
        let s = spec_serialize_elems(fs) + extra;
        assert(s =~= spec_serialize(f0) + st);
        lemma_parse_serialize(f0, st);
        let c0 = spec_serialize(f0).len();
        crate::wire::lemma_parse_consumed(s);
        assert(1 <= c0 <= s.len());
        assert(s.skip(c0 as int) =~= st);
        lemma_parse_serialize_elems(rest, extra);
        assert(seq![f0] + rest =~= fs);
        assert(spec_serialize_elems(fs).len() == c0 + spec_serialize_elems(rest).len());
    }
}

/// A byte sequence whose bytes, except possibly the last, are all
/// other than a carriage return holds no terminator.
proof fn lemma_find_none(t: Seq<u8>)
    requires
        forall|j: int| 0 <= j && j + 1 < t.len() ==> #[trigger] t[j] != CR,
    ensures
        spec_find_crlf(t) is None,
{
    crate::wire::lemma_find_crlf_props(t);
    match spec_find_crlf(t) {
        Some(k) => {
            assert(t[k as int] != CR);
            assert(false);
        },
        None => {},
    }
}

/// Every strict prefix of the encoding of a well-formed frame is
/// incomplete: never an error, never a shorter frame.
#[verifier::rlimit(60)]
pub proof fn lemma_prefix_incomplete(f: FrameView, m: int)
    requires
        frame_wf(f),
        0 <= m < spec_serialize(f).len(),
    ensures
        spec_parse(spec_serialize(f).take(m)) == SpecParse::Incomplete,
    decreases f,
{
    let ser = spec_serialize(f);
    let t = ser.take(m);
    match f {
        FrameView::Simple(p) => {
            lemma_tagged_line(43, p, Seq::empty());
            assert(ser =~= seq![43u8] + p + seq![CR, LF] + Seq::<u8>::empty());
            let nl = p.len() as int;
            assert forall|j: int| 0 <= j && j + 1 < t.len() implies #[trigger] t[j] != CR by {
                assert(t[j] == ser[j]);
                if 1 <= j && j <= nl {
                    assert(ser[j] == (ser.skip(1))[j - 1]);
                }
            }
            lemma_find_none(t);
        },
        FrameView::Error(p) => {
            lemma_tagged_line(45, p, Seq::empty());
            assert(ser =~= seq![45u8] + p + seq![CR, LF] + Seq::<u8>::empty());
            let nl = p.len() as int;
            assert forall|j: int| 0 <= j && j + 1 < t.len() implies #[trigger] t[j] != CR by {
                assert(t[j] == ser[j]);
                if 1 <= j && j <= nl {
                    assert(ser[j] == (ser.skip(1))[j - 1]);
                }
            }
            lemma_find_none(t);
        },
        FrameView::Integer(n) => {
            let line = spec_signed_digits(n as int);
            let mag: nat = if n < 0 {
                (-(n as int)) as nat
            } else {
                n as nat
            };
            lemma_digits_shape(mag);
            let digits = spec_digits(mag);
            assert forall|j: int| 0 <= j < line.len() implies #[trigger] line[j] != CR by {
                if n < 0 {
                    if j == 0 {
                        assert(line[0] == 45u8);
                    } else {
                        assert(line[j] == digits[j - 1]);
                        assert(is_digit_byte(digits[j - 1]));
                    }
                } else {
                    assert(is_digit_byte(digits[j]));
                }
            }
            lemma_tagged_line(58, line, Seq::empty());
            assert(ser =~= seq![58u8] + line + seq![CR, LF] + Seq::<u8>::empty());
            let nl = line.len() as int;
            assert forall|j: int| 0 <= j && j + 1 < t.len() implies #[trigger] t[j] != CR by {
                assert(t[j] == ser[j]);
                if 1 <= j && j <= nl {
                    assert(ser[j] == (ser.skip(1))[j - 1]);
                    assert((ser.skip(1))[j - 1] == line[j - 1]) by {
                        assert(ser.skip(1).take(nl) == line);
                    }
                }
            }
            lemma_find_none(t);
        },
        FrameView::Null => {
            let line = seq![45u8, 49u8];
            lemma_tagged_line(36, line, Seq::empty());
            assert(ser =~= seq![36u8] + line + seq![CR, LF] + Seq::<u8>::empty());
            assert forall|j: int| 0 <= j && j + 1 < t.len() implies #[trigger] t[j] != CR by {
                assert(t[j] == ser[j]);
            }
            lemma_find_none(t);
        },
        FrameView::Bulk(p) => {
            let line = spec_digits(p.len());
            lemma_digits_shape(p.len());
            assert forall|j: int| 0 <= j < line.len() implies #[trigger] line[j] != CR by {
                assert(is_digit_byte(line[j]));
            }
            let ptail = p + seq![CR, LF];
            lemma_tagged_line(36, line, ptail);
            assert(ser =~= seq![36u8] + line + seq![CR, LF] + ptail);
            let d = line.len() as int;
            let h = 1 + d + 2;
            let r = line + seq![CR, LF] + ptail;
            assert(ser.skip(1) == r);
            if m < h {
                assert forall|j: int| 0 <= j && j + 1 < t.len() implies #[trigger] t[j] != CR by {
                    assert(t[j] == ser[j]);
                    if 1 <= j && j <= d {
                        assert(ser[j] == r[j - 1]);
                        assert(r[j - 1] == line[j - 1]) by {
                            assert(r.take(d) == line);
                        }
                    }
                }
                lemma_find_none(t);
            } else {
                let rt = t.skip(1);
                assert(rt =~= r.take(m - 1));
                assert forall|j: int| 0 <= j < d implies !(#[trigger] rt[j] == CR && rt[j + 1]
                    == LF) by {
                    assert(rt[j] == r[j]);
                    assert(r[j] == line[j]) by {
                        assert(r.take(d) == line);
                    }
                }
                assert(rt[d] == r[d] && rt[d + 1] == r[d + 1]);
                assert(r[d] == CR && r[d + 1] == LF) by {
                    assert(spec_find_crlf(r) == Some(d as nat));
                    crate::wire::lemma_find_crlf_props(r);
                }
                lemma_find_crlf_first(rt, d);
                assert forall|j: int| 0 <= j < 1 + d implies !(#[trigger] t[j] == CR && t[j + 1]
                    == LF) by {
                    assert(t[j] == ser[j]);
                    if j > 0 {
                        assert(ser[j] == r[j - 1]);
                        assert(r[j - 1] == line[j - 1]) by {
                            assert(r.take(d) == line);
                        }
                    }
                }
                assert(t[1 + d] == rt[d] && t[1 + d + 1] == rt[d + 1]);
                lemma_find_crlf_first(t, 1 + d);
                assert(t[0] == ser[0]);
                assert(rt.take(d) =~= line);
                assert(rt[0] == line[0]);
                assert(is_digit_byte(line[0]));
                assert(!is_null_line(rt, d as nat));
                assert(len_line_ok(line));
                let body = rt.skip(d + 2);
                assert(body.len() == m - h);
                assert(m - h < p.len() + 2);
                assert(spec_parse_bulk(rt) == SpecParse::Incomplete);
            }
        },
        FrameView::Array(elems) => {
            let line = spec_digits(elems.len());
            lemma_digits_shape(elems.len());
            assert forall|j: int| 0 <= j < line.len() implies #[trigger] line[j] != CR by {
                assert(is_digit_byte(line[j]));
            }
            let se = spec_serialize_elems(elems);
            lemma_tagged_line(42, line, se);
            assert(ser =~= seq![42u8] + line + seq![CR, LF] + se);
            let d = line.len() as int;
            let h = 1 + d + 2;
            let r = line + seq![CR, LF] + se;
            assert(ser.skip(1) == r);
            if m < h {
                assert forall|j: int| 0 <= j && j + 1 < t.len() implies #[trigger] t[j] != CR by {
                    assert(t[j] == ser[j]);
                    if 1 <= j && j <= d {
                        assert(ser[j] == r[j - 1]);
                        assert(r[j - 1] == line[j - 1]) by {
                            assert(r.take(d) == line);
                        }
                    }
                }
                lemma_find_none(t);
            } else {
                let rt = t.skip(1);
                assert(rt =~= r.take(m - 1));
                assert forall|j: int| 0 <= j < d implies !(#[trigger] rt[j] == CR && rt[j + 1]
                    == LF) by {
                    assert(rt[j] == r[j]);
                    assert(r[j] == line[j]) by {
                        assert(r.take(d) == line);
                    }
                }
                assert(rt[d] == r[d] && rt[d + 1] == r[d + 1]);
                assert(r[d] == CR && r[d + 1] == LF) by {
                    assert(spec_find_crlf(r) == Some(d as nat));
                    crate::wire::lemma_find_crlf_props(r);
                }
                lemma_find_crlf_first(rt, d);
                assert forall|j: int| 0 <= j < 1 + d implies !(#[trigger] t[j] == CR && t[j + 1]
                    == LF) by {
                    assert(t[j] == ser[j]);
                    if j > 0 {
                        assert(ser[j] == r[j - 1]);
                        assert(r[j - 1] == line[j - 1]) by {
                            assert(r.take(d) == line);
                        }
                    }
                }
                assert(t[1 + d] == rt[d] && t[1 + d + 1] == rt[d + 1]);
                lemma_find_crlf_first(t, 1 + d);
                assert(t[0] == ser[0]);
                assert(rt.take(d) =~= line);
                assert(rt[0] == line[0]);
                assert(is_digit_byte(line[0]));
                assert(!is_null_line(rt, d as nat));
                assert(len_line_ok(line));
                assert(digits_val(line) == elems.len());
                assert(rt.skip(d + 2) =~= se.take(m - h));
                assert(se.len() > 0);
                lemma_prefix_incomplete_elems(elems, m - h);
                assert(spec_parse_array(rt) == SpecParse::Incomplete);
            }
        },
    }
}

/// Every strict prefix of the encodings of a run of well-formed frames
/// decodes to "incomplete" when the full count is expected.
pub proof fn lemma_prefix_incomplete_elems(fs: Seq<FrameView>, m: int)
    requires
        frames_wf(fs),
        0 <= m < spec_serialize_elems(fs).len(),
    ensures
        spec_parse_elems(spec_serialize_elems(fs).take(m), fs.len()) == SpecParseElems::Incomplete,
    decreases fs,
{
    assert(fs.len() > 0);
    let f0 = fs[0];
    let rest = fs.skip(1);
    let se = spec_serialize_elems(fs);
    let c0 = spec_serialize(f0).len() as int;
    assert(se == spec_serialize(f0) + spec_serialize_elems(rest));
    let t = se.take(m);
    lemma_roundtrip(f0);
    crate::wire::lemma_parse_consumed(spec_serialize(f0));
    assert(c0 >= 1);
    if m < c0 {
        assert(t =~= spec_serialize(f0).take(m));
        lemma_prefix_incomplete(f0, m);
    } else if m == c0 {
        assert(t =~= spec_serialize(f0));
        assert(spec_parse(t) == SpecParse::Complete(f0, c0 as nat));
        assert(t.skip(c0) =~= Seq::<u8>::empty());
        assert(spec_serialize_elems(rest).len() > 0);
        assert(rest.len() > 0);
        assert(spec_find_crlf(Seq::<u8>::empty()) is None);
        assert(spec_parse(Seq::<u8>::empty()) == SpecParse::Incomplete);
        assert(spec_parse_elems(Seq::<u8>::empty(), rest.len()) == SpecParseElems::Incomplete);
    } else {
        let mr = m - c0;
        assert(t =~= spec_serialize(f0) + spec_serialize_elems(rest).take(mr));
        lemma_parse_serialize(f0, spec_serialize_elems(rest).take(mr));
        assert(spec_parse(t) == SpecParse::Complete(f0, c0 as nat));
        assert(t.skip(c0) =~= spec_serialize_elems(rest).take(mr));
        lemma_prefix_incomplete_elems(rest, mr);
    }
}

/// Round trip: the encoding of any well-formed frame decodes back to
/// that frame and occupies exactly its own length.
pub proof fn lemma_roundtrip(f: FrameView)
    requires
        frame_wf(f),
    ensures
        spec_parse(spec_serialize(f)) == SpecParse::Complete(f, spec_serialize(f).len()),
{
    lemma_parse_serialize(f, Seq::empty());
    assert(spec_serialize(f) + Seq::<u8>::empty() =~= spec_serialize(f));
}

} // verus!
