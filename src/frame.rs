//! Length-prefixed framing of messages: eight hex digits of the payload length, eight hex
//! digits of twice that length less one, then the payload.
use vstd::prelude::*;
use crate::number::{
    hex_digits,
    hex_value,
    is_hex_digit,
    lemma_hex_digits,
    lemma_pow16_8,
    write_hex,
    read_hex,
};

verus! {

/// Why a frame header is refused.
#[derive(PartialEq, Eq, Structural, Clone, Copy, Debug)]
pub enum FrameError {
    /// The header is not sixteen hexadecimal digits.
    BadHeader,
    /// The second field is not twice the first less one.
    Checksum,
}

/// The largest payload whose check value fits in eight hex digits.
pub const MAX_PAYLOAD: usize = 0x8000_0000;

/// The header of a payload of `len` bytes.
pub open spec fn header(len: nat) -> Seq<u8> {
    hex_digits(len, 8) + hex_digits((2 * len - 1) as nat, 8)
}

pub open spec fn all_hex(h: Seq<u8>) -> bool {
    forall|i: int| 0 <= i < h.len() ==> is_hex_digit(#[trigger] h[i])
}

/// The payload length that a header announces, where the header is valid.
pub open spec fn header_length(h: Seq<u8>) -> Option<nat> {
    if h.len() == 16 && all_hex(h) && hex_value(h.subrange(8, 16)) == 2 * hex_value(h.subrange(0, 8))
        - 1 {
        Some(hex_value(h.subrange(0, 8)))
    } else {
        None
    }
}

/// The header and the payload.
pub fn frame(payload: &[u8]) -> (r: Vec<u8>)
    requires
        1 <= payload@.len() <= MAX_PAYLOAD,
    ensures
        r@ == header(payload@.len() as nat) + payload@,
{
    let n = payload.len() as u64;
    let mut out: Vec<u8> = Vec::new();
    write_hex(&mut out, n, 8);
    write_hex(&mut out, 2 * n - 1, 8);
    let mut i: usize = 0;
    while i < payload.len()
        invariant
            i <= payload@.len(),
            out@ == header(n as nat) + payload@.subrange(0, i as int),
        decreases payload@.len() - i,
    {
        out.push(payload[i]);
        i = i + 1;
        assert(out@ =~= header(n as nat) + payload@.subrange(0, i as int));
    }
    assert(payload@.subrange(0, i as int) =~= payload@);
    out
}

/// The payload length announced by a header.
pub fn read_header(h: &[u8]) -> (r: Result<usize, FrameError>)
    ensures
        r matches Ok(n) ==> header_length(h@) == Some(n as nat),
        r is Err <==> header_length(h@) is None,
        r == Err::<usize, FrameError>(FrameError::Checksum) <==> (h@.len() == 16 && all_hex(h@)
            && header_length(h@) is None),
{
    if h.len() != 16 {
        return Err(FrameError::BadHeader);
    }
    let a = vstd::slice::slice_subrange(h, 0, 8);
    let b = vstd::slice::slice_subrange(h, 8, 16);
    let x = read_hex(a);
    let y = read_hex(b);
    proof {
        assert(all_hex(h@) <==> (forall|i: int| 0 <= i < 8 ==> is_hex_digit(#[trigger] a@[i])) && (
        forall|i: int| 0 <= i < 8 ==> is_hex_digit(#[trigger] b@[i]))) by {
            if (forall|i: int| 0 <= i < 8 ==> is_hex_digit(#[trigger] a@[i])) && (forall|i: int|
                0 <= i < 8 ==> is_hex_digit(#[trigger] b@[i])) {
                assert forall|i: int| 0 <= i < 16 implies is_hex_digit(#[trigger] h@[i]) by {
                    if i < 8 {
                        assert(h@[i] == a@[i]);
                    } else {
                        assert(h@[i] == b@[i - 8]);
                    }
                }
            }
            if all_hex(h@) {
                assert forall|i: int| 0 <= i < 8 implies is_hex_digit(#[trigger] a@[i]) by {
                    assert(h@[i] == a@[i]);
                }
                assert forall|i: int| 0 <= i < 8 implies is_hex_digit(#[trigger] b@[i]) by {
                    assert(h@[i + 8] == b@[i]);
                }
            }
        }
    }
    match (x, y) {
        (Some(x), Some(y)) => {
            if x >= 1 && y == 2 * x - 1 {
                assert(x <= MAX_PAYLOAD);
                assert(a@ == h@.subrange(0, 8) && b@ == h@.subrange(8, 16));
                Ok(x as usize)
            } else {
                assert(a@ == h@.subrange(0, 8) && b@ == h@.subrange(8, 16));
                Err(FrameError::Checksum)
            }
        },
        _ => Err(FrameError::BadHeader),
    }
}

/// A header announces the length of the payload it was made for.
pub proof fn lemma_header_round_trip(len: nat)
    requires
        1 <= len <= MAX_PAYLOAD,
    ensures
        header_length(header(len)) == Some(len),
{
    lemma_pow16_8();
    lemma_hex_digits(len, 8);
    lemma_hex_digits((2 * len - 1) as nat, 8);
    let h = header(len);
    assert(h.subrange(0, 8) =~= hex_digits(len, 8));
    assert(h.subrange(8, 16) =~= hex_digits((2 * len - 1) as nat, 8));
    assert forall|i: int| 0 <= i < h.len() implies is_hex_digit(#[trigger] h[i]) by {
        if i < 8 {
            assert(h[i] == hex_digits(len, 8)[i]);
        } else {
            assert(h[i] == hex_digits((2 * len - 1) as nat, 8)[i - 8]);
        }
    }
}

/// The text with each doubled backslash, read from the left, made single.
pub open spec fn undoubled(x: Seq<u8>) -> Seq<u8>
    decreases x.len(),
{
    if x.len() == 0 {
        Seq::empty()
    } else if x.len() >= 2 && x[0] == 92 && x[1] == 92 {
        seq![92u8] + undoubled(x.subrange(2, x.len() as int))
    } else {
        seq![x[0]] + undoubled(x.drop_first())
    }
}

/// Undoes the doubling of backslashes over a whole inbound payload.
pub fn undouble(x: &[u8]) -> (r: Vec<u8>)
    ensures
        r@ == undoubled(x@),
{
    let mut out: Vec<u8> = Vec::new();
    let mut i: usize = 0;
    assert(x@.subrange(0, x@.len() as int) =~= x@);
    assert(out@ + x@ =~= x@);
    while i < x.len()
        invariant
            i <= x@.len(),
            undoubled(x@) == out@ + undoubled(x@.subrange(i as int, x@.len() as int)),
        decreases x@.len() - i,
    {
        let ghost y = x@.subrange(i as int, x@.len() as int);
        if x.len() - i >= 2 && x[i] == 92 && x[i + 1] == 92 {
            proof {
                assert(y.subrange(2, y.len() as int) =~= x@.subrange(i + 2, x@.len() as int));
                assert(out@.push(92u8) + undoubled(x@.subrange(i + 2, x@.len() as int)) =~= out@ + (
                seq![92u8] + undoubled(x@.subrange(i + 2, x@.len() as int))));
            }
            out.push(92u8);
            i = i + 2;
        } else {
            let c = x[i];
            proof {
                assert(y.drop_first() =~= x@.subrange(i + 1, x@.len() as int));
                assert(out@.push(c) + undoubled(x@.subrange(i + 1, x@.len() as int)) =~= out@ + (seq![c]
                    + undoubled(x@.subrange(i + 1, x@.len() as int))));
            }
            out.push(c);
            i = i + 1;
        }
    }
    proof {
        assert(x@.subrange(i as int, x@.len() as int) =~= Seq::<u8>::empty());
        assert(out@ + Seq::<u8>::empty() =~= out@);
    }
    out
}

} // verus!
