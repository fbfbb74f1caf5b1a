//! Executable UTF-8 encoding and decoding of character sequences.

use vstd::prelude::*;
use vstd::utf8::{
    char_is_scalar, char_u32_cast, decode_utf8, encode_scalar, encode_utf8, is_scalar, valid_utf8,
};

verus! {

/// Relies on `char::from_u32`: it returns the character of a Unicode
/// scalar value, and `None` exactly for surrogates and values above
/// `0x10FFFF`.
pub assume_specification[ char::from_u32 ](u: u32) -> (r: Option<char>)
    ensures
        match r {
            Some(c) => is_scalar(u) && c as u32 == u,
            None => !is_scalar(u),
        },
;

/// Splitting a character sequence splits its UTF-8 encoding.
pub proof fn lemma_encode_utf8_append(a: Seq<char>, b: Seq<char>)
    ensures
        encode_utf8(a + b) == encode_utf8(a) + encode_utf8(b),
    decreases a.len(),
{
    if a.len() == 0 {
        assert(a + b =~= b);
        assert(encode_utf8(a) + encode_utf8(b) =~= encode_utf8(b));
    } else {
        lemma_encode_utf8_append(a.drop_first(), b);
        assert((a + b).drop_first() =~= a.drop_first() + b);
        assert((a + b)[0] == a[0]);
        assert(encode_utf8(a + b) =~= encode_utf8(a) + encode_utf8(b));
    }
}

/// The UTF-8 bytes of the characters, in order.
pub fn utf8_of_chars(s: &Vec<char>) -> (r: Vec<u8>)
    ensures
        r@ == encode_utf8(s@),
{
    let mut out: Vec<u8> = Vec::new();
    let mut i: usize = 0;
    proof {
        assert(s@.take(0) =~= Seq::<char>::empty());
    }
    while i < s.len()
        invariant
            i <= s@.len(),
            out@ == encode_utf8(s@.take(i as int)),
        decreases s@.len() - i,
    {
        let c = s[i];
        let u = c as u32;
        proof {
            char_is_scalar(c);
        }
        if u <= 0x7F {
            out.push((u & 0x7F) as u8);
        } else if u <= 0x7FF {
            out.push(0xC0u8 | ((u >> 6) & 0x1F) as u8);
            out.push(0x80u8 | (u & 0x3F) as u8);
        } else if u <= 0xFFFF {
            out.push(0xE0u8 | ((u >> 12) & 0x0F) as u8);
            out.push(0x80u8 | ((u >> 6) & 0x3F) as u8);
            out.push(0x80u8 | (u & 0x3F) as u8);
        } else {
            out.push(0xF0u8 | ((u >> 18) & 0x7) as u8);
            out.push(0x80u8 | ((u >> 12) & 0x3F) as u8);
            out.push(0x80u8 | ((u >> 6) & 0x3F) as u8);
            out.push(0x80u8 | (u & 0x3F) as u8);
        }
        proof {
            lemma_encode_utf8_append(s@.take(i as int), seq![c]);
            assert(s@.take(i + 1) =~= s@.take(i as int) + seq![c]);
            assert(seq![c].drop_first().len() == 0);
            assert(encode_utf8(seq![c].drop_first()) =~= Seq::<u8>::empty());
            assert(encode_utf8(seq![c]) =~= encode_scalar(u));
            assert(out@ =~= encode_utf8(s@.take(i + 1)));
        }
        i = i + 1;
    }
    proof {
        assert(s@.take(s@.len() as int) =~= s@);
    }
    out
}

/// Decodes the UTF-8 bytes between `start` and `end` into characters;
/// fails exactly when the bytes are not valid UTF-8.
pub fn chars_of_utf8(b: &Vec<u8>, start: usize, end: usize) -> (r: Option<Vec<char>>)
    requires
        start <= end <= b@.len(),
    ensures
        match r {
            Some(v) => valid_utf8(b@.subrange(start as int, end as int)) && v@ == decode_utf8(
                b@.subrange(start as int, end as int),
            ),
            None => !valid_utf8(b@.subrange(start as int, end as int)),
        },
{
    let ghost chunk = b@.subrange(start as int, end as int);
    let mut out: Vec<char> = Vec::new();
    let mut pos: usize = start;
    while pos < end
        invariant
            start <= pos <= end <= b@.len(),
            chunk == b@.subrange(start as int, end as int),
            valid_utf8(chunk) <==> valid_utf8(b@.subrange(pos as int, end as int)),
            valid_utf8(b@.subrange(pos as int, end as int)) ==> decode_utf8(chunk) == out@
                + decode_utf8(b@.subrange(pos as int, end as int)),
        decreases end - pos,
    {
        let ghost rest = b@.subrange(pos as int, end as int);
        let b0 = b[pos];
        let u: u32;
        let w: usize;
        if b0 < 0x80 {
            u = (b0 & 0x7F) as u32;
            w = 1;
        } else if 0xC0 <= b0 && b0 <= 0xDF {
            if end - pos < 2 {
                proof {
                    assert(!valid_utf8(rest));
                }
                return None;
            }
            let b1 = b[pos + 1];
            if !(0x80 <= b1 && b1 <= 0xBF) {
                proof {
                    assert(rest[1] == b1);
                    assert(!valid_utf8(rest));
                }
                return None;
            }
            u = (((b0 & 0x1F) as u32) << 6u32) | ((b1 & 0x3F) as u32);
            if u < 0x80 {
                proof {
                    assert(rest[1] == b1);
                    assert(!valid_utf8(rest));
                }
                return None;
            }
            w = 2;
            proof {
                assert(rest[1] == b1);
            }
        } else if 0xE0 <= b0 && b0 <= 0xEF {
            if end - pos < 3 {
                proof {
                    assert(pos + 1 < end ==> rest[1] == b@[pos + 1]);
                    assert(!valid_utf8(rest));
                }
                return None;
            }
            let b1 = b[pos + 1];
            let b2 = b[pos + 2];
            if !(0x80 <= b1 && b1 <= 0xBF) || !(0x80 <= b2 && b2 <= 0xBF) {
                proof {
                    assert(rest[1] == b1 && rest[2] == b2);
                    assert(!valid_utf8(rest));
                }
                return None;
            }
            u = (((b0 & 0x0F) as u32) << 12u32) | (((b1 & 0x3F) as u32) << 6u32) | ((b2
                & 0x3F) as u32);
            if u < 0x800 {
                proof {
                    assert(rest[1] == b1 && rest[2] == b2);
                    assert(!valid_utf8(rest));
                }
                return None;
            }
            w = 3;
            proof {
                assert(rest[1] == b1 && rest[2] == b2);
            }
        } else if 0xF0 <= b0 && b0 <= 0xF7 {
            if end - pos < 4 {
                proof {
                    assert(pos + 1 < end ==> rest[1] == b@[pos + 1]);
                    assert(pos + 2 < end ==> rest[2] == b@[pos + 2]);
                    assert(!valid_utf8(rest));
                }
                return None;
            }
            let b1 = b[pos + 1];
            let b2 = b[pos + 2];
            let b3 = b[pos + 3];
            if !(0x80 <= b1 && b1 <= 0xBF) || !(0x80 <= b2 && b2 <= 0xBF) || !(0x80 <= b3 && b3
                <= 0xBF) {
                proof {
                    assert(rest[1] == b1 && rest[2] == b2 && rest[3] == b3);
                    assert(!valid_utf8(rest));
                }
                return None;
            }
            u = (((b0 & 0x07) as u32) << 18u32) | (((b1 & 0x3F) as u32) << 12u32) | (((b2
                & 0x3F) as u32) << 6u32) | ((b3 & 0x3F) as u32);
            if u < 0x10000 || u > 0x10FFFF {
                proof {
                    assert(rest[1] == b1 && rest[2] == b2 && rest[3] == b3);
                    assert(!valid_utf8(rest));
                }
                return None;
            }
            w = 4;
            proof {
                assert(rest[1] == b1 && rest[2] == b2 && rest[3] == b3);
            }
        } else {
            proof {
                assert(!valid_utf8(rest));
            }
            return None;
        }
        let c = match char::from_u32(u) {
            Some(c) => c,
            None => {
                proof {
                    assert(rest.len() > 0 && rest[0] == b0);
                    assert(vstd::utf8::decode_first_codepoint(rest) == u);
                    if w == 1 {
                        assert(u <= 0x7F) by (bit_vector)
                            requires
                                u == (b0 & 0x7F) as u32,
                        ;
                        assert(false);
                    } else if w == 2 {
                        let b1 = rest[1];
                        assert(u <= 0x7FF) by (bit_vector)
                            requires
                                u == (((b0 & 0x1F) as u32) << 6u32) | ((b1 & 0x3F) as u32),
                        ;
                        assert(false);
                    } else if w == 3 {
                        let b1 = rest[1];
                        let b2 = rest[2];
                        assert(u <= 0xFFFF) by (bit_vector)
                            requires
                                u == (((b0 & 0x0F) as u32) << 12u32) | (((b1 & 0x3F) as u32)
                                    << 6u32) | ((b2 & 0x3F) as u32),
                        ;
                        assert(0xD800 <= u <= 0xDFFF);
                        assert(!vstd::utf8::valid_first_scalar(rest));
                    } else {
                        assert(false);
                    }
                    assert(!valid_utf8(rest));
                }
                return None;
            },
        };
        out.push(c);
        pos = pos + w;
        proof {
            let newrest = b@.subrange(pos as int, end as int);
            assert(vstd::utf8::valid_first_scalar(rest));
            assert(vstd::utf8::decode_first_scalar(rest) == u);
            assert(vstd::utf8::length_of_first_scalar(rest) == w);
            assert(vstd::utf8::pop_first_scalar(rest) =~= newrest);
            char_u32_cast(c, u);
            assert(valid_utf8(rest) <==> valid_utf8(newrest));
            if valid_utf8(newrest) {
                assert(decode_utf8(rest) == seq![c] + decode_utf8(newrest));
            }
        }
    }
    proof {
        let empty = b@.subrange(pos as int, end as int);
        assert(empty.len() == 0);
        assert(valid_utf8(empty));
        assert(decode_utf8(empty) =~= Seq::<char>::empty());
        assert(out@ =~= decode_utf8(chunk));
    }
    Some(out)
}

} // verus!
