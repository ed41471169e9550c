//! The periodic sender of a port: every `sender_period_ms` it sends the
//! datagram given base64-encoded in `sender_data_base64` (empty if unset) to
//! the port's `sendto` addresses, not to the hub.
use vstd::prelude::*;

use crate::config::Port;
use vstd::utf8::encode_utf8;

verus! {

/// The value of a base64 character (standard alphabet), if it is one.
pub open spec fn sextet(c: u8) -> Option<u8> {
    if 65 <= c <= 90 {
        Some((c - 65) as u8)
    } else if 97 <= c <= 122 {
        Some((c - 71) as u8)
    } else if 48 <= c <= 57 {
        Some((c + 4) as u8)
    } else if c == 43 {
        Some(62u8)
    } else if c == 47 {
        Some(63u8)
    } else {
        None
    }
}

/// The padding character `=`.
pub open spec fn is_pad(c: u8) -> bool {
    c == 61
}

/// The bytes a group of four base64 characters stands for: three, or two or
/// one when the group ends in one or two padding characters.
pub open spec fn decode_group(a: u8, b: u8, c: u8, d: u8) -> Option<Seq<u8>> {
    match (sextet(a), sextet(b)) {
        (Some(va), Some(vb)) => {
            let b0 = (va * 4 + vb / 16) as u8;
            if is_pad(c) {
                if is_pad(d) { Some(seq![b0]) } else { None }
            } else {
                match sextet(c) {
                    Some(vc) => {
                        let b1 = ((vb % 16) * 16 + vc / 4) as u8;
                        if is_pad(d) {
                            Some(seq![b0, b1])
                        } else {
                            match sextet(d) {
                                Some(vd) => Some(seq![b0, b1, ((vc % 4) * 64 + vd) as u8]),
                                None => None,
                            }
                        }
                    },
                    None => None,
                }
            }
        },
        _ => None,
    }
}

/// The bytes that the base64 text `s` (standard alphabet, padded) stands
/// for, if it is valid: groups of four characters, padding only in the last.
pub open spec fn decode_base64(s: Seq<u8>) -> Option<Seq<u8>>
    decreases s.len(),
{
    if s.len() == 0 {
        Some(Seq::empty())
    } else if s.len() < 4 {
        None
    } else {
        match decode_group(s[0], s[1], s[2], s[3]) {
            Some(g) => if g.len() < 3 && s.len() > 4 {
                None
            } else {
                match decode_base64(s.skip(4)) {
                    Some(r) => Some(g + r),
                    None => None,
                }
            },
            None => None,
        }
    }
}

/// The base64 character (standard alphabet) of a value below 64.
pub open spec fn b64_char(v: u8) -> u8 {
    if v < 26 {
        (v + 65) as u8
    } else if v < 52 {
        (v + 71) as u8
    } else if v < 62 {
        (v - 4) as u8
    } else if v == 62 {
        43u8
    } else {
        47u8
    }
}

/// The padded base64 text (standard alphabet) of the bytes `b`.
pub open spec fn encode_base64(b: Seq<u8>) -> Seq<u8>
    decreases b.len(),
{
    if b.len() == 0 {
        Seq::empty()
    } else if b.len() == 1 {
        seq![b64_char(b[0] / 4), b64_char(((b[0] % 4) * 16) as u8), 61u8, 61u8]
    } else if b.len() == 2 {
        seq![
            b64_char(b[0] / 4),
            b64_char(((b[0] % 4) * 16 + b[1] / 16) as u8),
            b64_char(((b[1] % 16) * 4) as u8),
            61u8,
        ]
    } else {
        seq![
            b64_char(b[0] / 4),
            b64_char(((b[0] % 4) * 16 + b[1] / 16) as u8),
            b64_char(((b[1] % 16) * 4 + b[2] / 64) as u8),
            b64_char(b[2] % 64),
        ] + encode_base64(b.skip(3))
    }
}

proof fn lemma_char_sextet(v: u8)
    requires
        v < 64,
    ensures
        sextet(b64_char(v)) == Some(v),
        !is_pad(b64_char(v)),
{
}

proof fn lemma_group_arith(b0: u8, b1: u8, b2: u8)
    ensures
        (b0 / 4) * 4 + ((b0 % 4) * 16 + b1 / 16) / 16 == b0,
        ((((b0 % 4) * 16 + b1 / 16) % 16) * 16 + ((b1 % 16) * 4 + b2 / 64) / 4) == b1,
        ((((b1 % 16) * 4 + b2 / 64) % 4) * 64 + b2 % 64) == b2,
{
    assert((b0 / 4) * 4 + ((b0 % 4) * 16 + b1 / 16) / 16 == b0) by (bit_vector);
    assert((((b0 % 4) * 16 + b1 / 16) % 16) * 16 + ((b1 % 16) * 4 + b2 / 64) / 4 == b1) by (bit_vector);
    assert(((((b1 % 16) * 4 + b2 / 64) % 4) * 64 + b2 % 64) == b2) by (bit_vector);
}

/// Decoding the base64 text of any bytes gives those bytes back: every
/// datagram can be given to the periodic sender.
pub proof fn lemma_decode_encode(b: Seq<u8>)
    ensures
        decode_base64(encode_base64(b)) == Some(b),
    decreases b.len(),
{
    let e = encode_base64(b);
    if b.len() == 0 {
        assert(b =~= Seq::<u8>::empty());
    } else {
        let b0 = b[0];
        let b1 = if b.len() >= 2 { b[1] } else { 0u8 };
        let b2 = if b.len() >= 3 { b[2] } else { 0u8 };
        lemma_group_arith(b0, b1, b2);
        lemma_char_sextet(b0 / 4);
        lemma_char_sextet(((b0 % 4) * 16 + b1 / 16) as u8);
        lemma_char_sextet(((b0 % 4) * 16) as u8);
        lemma_char_sextet(((b1 % 16) * 4 + b2 / 64) as u8);
        lemma_char_sextet(((b1 % 16) * 4) as u8);
        lemma_char_sextet(b2 % 64);
        if b.len() == 1 {
            assert(e.skip(4) =~= Seq::<u8>::empty());
            assert(decode_base64(e.skip(4)) == Some(Seq::<u8>::empty()));
            assert(e.len() == 4);
            assert(decode_group(e[0], e[1], e[2], e[3]) == Some(seq![b0]));
            assert(seq![b0] + Seq::<u8>::empty() =~= b);
            assert(decode_base64(e) == Some(b));
        } else if b.len() == 2 {
            assert(e.skip(4) =~= Seq::<u8>::empty());
            assert(decode_base64(e.skip(4)) == Some(Seq::<u8>::empty()));
            assert(e.len() == 4);
            assert(decode_group(e[0], e[1], e[2], e[3]) == Some(seq![b0, b1]));
            assert(seq![b0, b1] + Seq::<u8>::empty() =~= b);
            assert(decode_base64(e) == Some(b));
        } else {
            lemma_decode_encode(b.skip(3));
            assert(e.skip(4) =~= encode_base64(b.skip(3)));
            assert(decode_group(e[0], e[1], e[2], e[3]) == Some(seq![b0, b1, b2]));
            assert(seq![b0, b1, b2] + b.skip(3) =~= b);
            assert(decode_base64(e) == Some(b));
        }
    }
}

fn sextet_of(c: u8) -> (res: Option<u8>)
    ensures
        res == sextet(c),
{
    if 65 <= c && c <= 90 {
        Some(c - 65)
    } else if 97 <= c && c <= 122 {
        Some(c - 71)
    } else if 48 <= c && c <= 57 {
        Some(c + 4)
    } else if c == 43 {
        Some(62)
    } else if c == 47 {
        Some(63)
    } else {
        None
    }
}

fn group_bytes(a: u8, b: u8, c: u8, d: u8) -> (res: Option<Vec<u8>>)
    ensures
        match res {
            Some(v) => decode_group(a, b, c, d) == Some(v@),
            None => decode_group(a, b, c, d) is None,
        },
{
    let va = match sextet_of(a) {
        Some(v) => v,
        None => return None,
    };
    let vb = match sextet_of(b) {
        Some(v) => v,
        None => return None,
    };
    let b0 = (va as u32 * 4 + vb as u32 / 16) as u8;
    if c == 61 {
        if d == 61 {
            let r = vec![b0];
            assert(r@ =~= seq![b0]);
            return Some(r);
        } else {
            return None;
        }
    }
    let vc = match sextet_of(c) {
        Some(v) => v,
        None => return None,
    };
    let b1 = ((vb as u32 % 16) * 16 + vc as u32 / 4) as u8;
    if d == 61 {
        let r = vec![b0, b1];
        assert(r@ =~= seq![b0, b1]);
        return Some(r);
    }
    let vd = match sextet_of(d) {
        Some(v) => v,
        None => return None,
    };
    let r = vec![b0, b1, ((vc as u32 % 4) * 64 + vd as u32) as u8];
    assert(r@ =~= seq![b0, b1, ((vc % 4) * 64 + vd) as u8]);
    Some(r)
}

/// Decodes the base64 text `s`, if it is valid.
pub fn base64_decode(s: &str) -> (res: Option<Vec<u8>>)
    ensures
        match res {
            Some(v) => decode_base64(encode_utf8(s@)) == Some(v@),
            None => decode_base64(encode_utf8(s@)) is None,
        },
{
    let bytes = s.as_bytes();
    let ghost all = bytes@;
    assert(all == encode_utf8(s@));
    let mut out: Vec<u8> = Vec::new();
    let mut i: usize = 0;
    assert(all.skip(0) =~= all);
    proof {
        match decode_base64(all) {
            Some(r) => assert(Seq::<u8>::empty() + r =~= r),
            None => {},
        }
    }
    while i < bytes.len()
        invariant
            i <= bytes.len(),
            all == bytes@,
            all == encode_utf8(s@),
            decode_base64(all) == match decode_base64(all.skip(i as int)) {
                Some(r) => Some(out@ + r),
                None => None::<Seq<u8>>,
            },
        decreases bytes.len() - i,
    {
        let rest = bytes.len() - i;
        assert(all.skip(i as int).len() == rest);
        if rest < 4 {
            return None;
        }
        let g = group_bytes(bytes[i], bytes[i + 1], bytes[i + 2], bytes[i + 3]);
        proof {
            let t = all.skip(i as int);
            assert(t[0] == bytes@[i as int] && t[1] == bytes@[i + 1] && t[2] == bytes@[i + 2] && t[3] == bytes@[i + 3]);
            assert(t.skip(4) =~= all.skip(i + 4));
        }
        match g {
            Some(v) => {
                if v.len() < 3 && rest > 4 {
                    return None;
                }
                let ghost before = out@;
                let ghost group = v@;
                let mut v = v;
                out.append(&mut v);
                proof {
                    match decode_base64(all.skip(i + 4)) {
                        Some(r) => {
                            assert(before + (group + r) =~= out@ + r);
                        },
                        None => {},
                    }
                }
            },
            None => {
                return None;
            },
        }
        i = i + 4;
    }
    assert(all.skip(i as int) =~= Seq::<u8>::empty());
    assert(out@ + Seq::<u8>::empty() =~= out@);
    Some(out)
}

/// Why a port's periodic sender cannot be set up.
#[derive(Clone, Copy, PartialEq, Eq, Structural)]
pub enum SenderError {
    /// The period is zero.
    ZeroPeriod,
    /// `sender_data_base64` is not valid base64.
    BadData,
}

/// What a port's periodic sender is, as plain values: `Ok(None)` when it has
/// none, else its period in milliseconds and the bytes it sends.
pub open spec fn sender_setup(period: Option<u64>, data: Option<Seq<u8>>) -> Result<Option<(u64, Seq<u8>)>, SenderError> {
    match period {
        None => Ok(None),
        Some(ms) => if ms == 0 {
            Err(SenderError::ZeroPeriod)
        } else {
            match data {
                None => Ok(Some((ms, Seq::empty()))),
                Some(text) => match decode_base64(text) {
                    Some(bytes) => Ok(Some((ms, bytes))),
                    None => Err(SenderError::BadData),
                },
            }
        },
    }
}

/// The bytes of port `c`'s `sender_data_base64` text, if it has one.
pub open spec fn sender_text(c: Port) -> Option<Seq<u8>> {
    match c.sender_data_base64 {
        Some(s) => Some(encode_utf8(s@)),
        None => None,
    }
}

/// The periodic sender of port `c`: its period and datagram, if it has one.
pub fn sender_of(c: &Port) -> (res: Result<Option<(u64, Vec<u8>)>, SenderError>)
    ensures
        sender_setup(c.sender_period_ms, sender_text(*c)) == match res {
            Ok(None) => Ok(None),
            Ok(Some((ms, bytes))) => Ok(Some((ms, bytes@))),
            Err(e) => Err::<Option<(u64, Seq<u8>)>, SenderError>(e),
        },
{
    match c.sender_period_ms {
        None => Ok(None),
        Some(ms) => {
            if ms == 0 {
                return Err(SenderError::ZeroPeriod);
            }
            match &c.sender_data_base64 {
                None => Ok(Some((ms, Vec::new()))),
                Some(text) => match base64_decode(text.as_str()) {
                    Some(bytes) => Ok(Some((ms, bytes))),
                    None => Err(SenderError::BadData),
                },
            }
        },
    }
}

} // verus!
