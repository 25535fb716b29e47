//! Well-formed text: the UTF-8 byte grammar, as a predicate on byte
//! sequences and a verified checker. Keys are text; this is how the
//! command mapper tells text from arbitrary bytes.

use crate::wire::lemma_skip_skip;
use vstd::prelude::*;

verus! {

/// A UTF-8 continuation byte.
pub open spec fn utf8_cont(b: u8) -> bool {
    0x80 <= b <= 0xBF
}

/// Whether `s` is a well-formed UTF-8 byte sequence: a run of one- to
/// four-byte scalar encodings, with overlong forms, surrogates and
/// values beyond the last scalar excluded.
pub open spec fn is_utf8(s: Seq<u8>) -> bool
    decreases s.len(),
{
    if s.len() == 0 {
        true
    } else {
        let b0 = s[0];
        if b0 <= 0x7F {
            is_utf8(s.skip(1))
        } else if 0xC2 <= b0 <= 0xDF {
            s.len() >= 2 && utf8_cont(s[1]) && is_utf8(s.skip(2))
        } else if b0 == 0xE0 {
            s.len() >= 3 && 0xA0 <= s[1] <= 0xBF && utf8_cont(s[2]) && is_utf8(s.skip(3))
        } else if 0xE1 <= b0 <= 0xEC {
            s.len() >= 3 && utf8_cont(s[1]) && utf8_cont(s[2]) && is_utf8(s.skip(3))
        } else if b0 == 0xED {
            s.len() >= 3 && 0x80 <= s[1] <= 0x9F && utf8_cont(s[2]) && is_utf8(s.skip(3))
        } else if 0xEE <= b0 <= 0xEF {
            s.len() >= 3 && utf8_cont(s[1]) && utf8_cont(s[2]) && is_utf8(s.skip(3))
        } else if b0 == 0xF0 {
            s.len() >= 4 && 0x90 <= s[1] <= 0xBF && utf8_cont(s[2]) && utf8_cont(s[3]) && is_utf8(
                s.skip(4),
            )
        } else if 0xF1 <= b0 <= 0xF3 {
            s.len() >= 4 && utf8_cont(s[1]) && utf8_cont(s[2]) && utf8_cont(s[3]) && is_utf8(
                s.skip(4),
            )
        } else if b0 == 0xF4 {
            s.len() >= 4 && 0x80 <= s[1] <= 0x8F && utf8_cont(s[2]) && utf8_cont(s[3]) && is_utf8(
                s.skip(4),
            )
        } else {
            false
        }
    }
}

/// One step of the checker: the width of the scalar encoded at `i`, or
/// nothing when the bytes at `i` begin no well-formed scalar.
#[verifier::loop_isolation(false)]
fn utf8_step(s: &Vec<u8>, i: usize) -> (r: Option<usize>)
    requires
        i < s@.len(),
    ensures
        match r {
            Some(w) => 1 <= w <= 4 && i + w <= s@.len() && (is_utf8(s@.skip(i as int)) <==> is_utf8(
                s@.skip(i as int + w as int),
            )),
            None => !is_utf8(s@.skip(i as int)),
        },
{
    let ghost t = s@.skip(i as int);
    proof {
        assert(t[0] == s@[i as int]);
    }
    let n = s.len();
    let b0 = s[i];
    if b0 <= 0x7F {
        proof {
            lemma_skip_skip(s@, i as int, 1);
        }
        Some(1)
    } else if 0xC2 <= b0 && b0 <= 0xDF {
        if n - i >= 2 && 0x80 <= s[i + 1] && s[i + 1] <= 0xBF {
            proof {
                assert(t[1] == s@[i as int + 1]);
                lemma_skip_skip(s@, i as int, 2);
            }
            Some(2)
        } else {
            proof {
                if t.len() >= 2 {
                    assert(t[1] == s@[i as int + 1]);
                }
            }
            None
        }
    } else if 0xE0 <= b0 && b0 <= 0xEF {
        let lo: u8 = if b0 == 0xE0 {
            0xA0
        } else if b0 == 0xED {
            0x80
        } else {
            0x80
        };
        let hi: u8 = if b0 == 0xE0 {
            0xBF
        } else if b0 == 0xED {
            0x9F
        } else {
            0xBF
        };
        if n - i >= 3 && lo <= s[i + 1] && s[i + 1] <= hi && 0x80 <= s[i + 2] && s[i + 2] <= 0xBF {
            proof {
                assert(t[1] == s@[i as int + 1]);
                assert(t[2] == s@[i as int + 2]);
                lemma_skip_skip(s@, i as int, 3);
            }
            Some(3)
        } else {
            proof {
                if t.len() >= 2 {
                    assert(t[1] == s@[i as int + 1]);
                }
                if t.len() >= 3 {
                    assert(t[2] == s@[i as int + 2]);
                }
            }
            None
        }
    } else if 0xF0 <= b0 && b0 <= 0xF4 {
        let lo: u8 = if b0 == 0xF0 {
            0x90
        } else {
            0x80
        };
        let hi: u8 = if b0 == 0xF4 {
            0x8F
        } else {
            0xBF
        };
        if n - i >= 4 && lo <= s[i + 1] && s[i + 1] <= hi && 0x80 <= s[i + 2] && s[i + 2] <= 0xBF
            && 0x80 <= s[i + 3] && s[i + 3] <= 0xBF {
            proof {
                assert(t[1] == s@[i as int + 1]);
                assert(t[2] == s@[i as int + 2]);
                assert(t[3] == s@[i as int + 3]);
                lemma_skip_skip(s@, i as int, 4);
            }
            Some(4)
        } else {
            proof {
                if t.len() >= 2 {
                    assert(t[1] == s@[i as int + 1]);
                }
                if t.len() >= 3 {
                    assert(t[2] == s@[i as int + 2]);
                }
                if t.len() >= 4 {
                    assert(t[3] == s@[i as int + 3]);
                }
            }
            None
        }
    } else {
        None
    }
}

/// Whether the bytes are well-formed UTF-8 text.
#[verifier::loop_isolation(false)]
pub fn is_utf8_bytes(s: &Vec<u8>) -> (r: bool)
    ensures
        r == is_utf8(s@),
{
    let mut i: usize = 0;
    proof {
        assert(s@.skip(0) =~= s@);
    }
    while i < s.len()
        invariant
            i <= s@.len(),
            is_utf8(s@) <==> is_utf8(s@.skip(i as int)),
        decreases s@.len() - i,
    {
        match utf8_step(s, i) {
            Some(w) => {
                i = i + w;
            },
            None => {
                return false;
            },
        }
    }
    proof {
        assert(s@.skip(s@.len() as int) =~= Seq::<u8>::empty());
    }
    true
}

} // verus!
