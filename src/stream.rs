//! The two byte streams of a session: framed messages out, frames cut from received bytes in.
use vstd::prelude::*;
use crate::value::Val;
use crate::codec::enc_value;
use crate::frame::{header, header_length, read_header, undoubled};
use crate::message::{ToLuaMessage, FromLuaMessage, message_model, valid_inbound};
use crate::session::{LuaError, fits, inbound_matches, encode_message, decode_message};

verus! {

/// Framed messages waiting to be written to the interpreter.
pub struct LuaSender {
    pending: Vec<u8>,
}

impl View for LuaSender {
    type V = Seq<u8>;

    closed spec fn view(&self) -> Seq<u8> {
        self.pending@
    }
}

impl LuaSender {
    pub fn new() -> (r: LuaSender)
        ensures
            r@ == Seq::<u8>::empty(),
    {
        LuaSender { pending: Vec::new() }
    }

    /// Appends the frame of `message` to the pending bytes.
    pub fn encode(&mut self, message: ToLuaMessage) -> (r: Result<(), LuaError>)
        ensures
            r is Ok <==> fits(message),
            r is Ok ==> final(self)@ == old(self)@ + header(
                enc_value(message_model(message)).len() as nat,
            ) + enc_value(message_model(message)),
            r is Err ==> final(self)@ == old(self)@,
    {
        match encode_message(message) {
            Ok(mut b) => {
                self.pending.append(&mut b);
                Ok(())
            },
            Err(e) => Err(e),
        }
    }

    /// Hands out the pending bytes, in order, and forgets them.
    pub fn take(&mut self) -> (r: Vec<u8>)
        ensures
            r@ == old(self)@,
            final(self)@ == Seq::<u8>::empty(),
    {
        let mut out: Vec<u8> = Vec::new();
        std::mem::swap(&mut out, &mut self.pending);
        out
    }
}

/// Bytes received from the interpreter that do not yet form a whole frame.
pub struct LuaReceiver {
    buf: Vec<u8>,
}

impl View for LuaReceiver {
    type V = Seq<u8>;

    closed spec fn view(&self) -> Seq<u8> {
        self.buf@
    }
}

/// How many bytes the next frame needs in all, where its header is known.
pub open spec fn frame_size(b: Seq<u8>) -> Option<nat> {
    match header_length(b.take(16)) {
        Some(n) => Some(16 + n),
        None => None,
    }
}

/// What reading the payload text `p` gives: for the valid value `w` whose text `p` is, a
/// message exactly where `w` is a valid inbound message table, and that message; a decoding
/// error where `p` is the text of no valid value.
pub open spec fn payload_outcome(p: Seq<u8>, r: Option<Result<FromLuaMessage, LuaError>>) -> bool {
    &&& r is Some
    &&& forall|w: Val|
        w.wf() && p == #[trigger] enc_value(w) ==> ((r matches Some(Ok(_))) <==> (w is Table
            && valid_inbound(w))) && (r matches Some(Ok(m)) ==> inbound_matches(m, w))
    &&& (forall|w: Val| !(w.wf() && p == #[trigger] enc_value(w))) ==> r matches Some(
        Err(LuaError::Decode(_)),
    )
}

impl LuaReceiver {
    pub fn new() -> (r: LuaReceiver)
        ensures
            r@ == Seq::<u8>::empty(),
    {
        LuaReceiver { buf: Vec::new() }
    }

    /// Adds received bytes.
    pub fn push(&mut self, bytes: &[u8])
        ensures
            final(self)@ == old(self)@ + bytes@,
    {
        let mut i: usize = 0;
        while i < bytes.len()
            invariant
                i <= bytes@.len(),
                self@ == old(self)@ + bytes@.subrange(0, i as int),
            decreases bytes@.len() - i,
        {
            self.buf.push(bytes[i]);
            i = i + 1;
            assert(self@ =~= old(self)@ + bytes@.subrange(0, i as int));
        }
        assert(bytes@.subrange(0, i as int) =~= bytes@);
    }

    /// How many more bytes the next frame needs: sixteen for its header, then as many as
    /// its payload lacks. Fails where the header is refused.
    pub fn wanted(&self) -> (r: Result<usize, LuaError>)
        ensures
            self@.len() < 16 ==> r == Ok::<usize, LuaError>((16 - self@.len()) as usize),
            self@.len() >= 16 ==> (r is Ok <==> frame_size(self@) is Some),
            self@.len() >= 16 ==> (r matches Ok(n) ==> if self@.len() >= frame_size(self@)->Some_0 {
                n == 0
            } else {
                n + self@.len() == frame_size(self@)->Some_0
            }),
            r matches Err(e) ==> e is Protocol,
    {
        if self.buf.len() < 16 {
            return Ok(16 - self.buf.len());
        }
        let h = vstd::slice::slice_subrange(self.buf.as_slice(), 0, 16);
        assert(h@ == self@.take(16));
        match read_header(h) {
            Ok(n) => {
                let rest = self.buf.len() - 16;
                if rest >= n {
                    Ok(0)
                } else {
                    Ok(n - rest)
                }
            },
            Err(e) => Err(LuaError::Protocol(e)),
        }
    }

    /// Cuts the next whole frame from the received bytes and reads its message. `None`
    /// where the bytes do not yet hold a whole frame; then nothing is consumed.
    pub fn decode(&mut self) -> (r: Option<Result<FromLuaMessage, LuaError>>)
        ensures
            r is None ==> final(self)@ == old(self)@,
            r is None <==> (old(self)@.len() < 16 || (frame_size(old(self)@) is Some && old(self)@.len()
                < frame_size(old(self)@)->Some_0)),
            r matches Some(Err(LuaError::Protocol(_))) <==> (old(self)@.len() >= 16
                && frame_size(old(self)@) is None),
            r matches Some(Ok(m)) ==> exists|w: Val|
                w.wf() && undoubled(old(self)@.subrange(16, frame_size(old(self)@)->Some_0 as int))
                    == enc_value(w) && #[trigger] inbound_matches(m, w),
            (frame_size(old(self)@) is Some && frame_size(old(self)@)->Some_0 <= old(self)@.len())
                ==> final(self)@ == old(self)@.subrange(
                frame_size(old(self)@)->Some_0 as int,
                old(self)@.len() as int,
            ),
            (frame_size(old(self)@) is Some && frame_size(old(self)@)->Some_0 <= old(self)@.len())
                ==> payload_outcome(
                undoubled(old(self)@.subrange(16, frame_size(old(self)@)->Some_0 as int)),
                r,
            ),
            r matches Some(Err(LuaError::Protocol(_))) ==> final(self)@ == old(self)@,
    {
        if self.buf.len() < 16 {
            return None;
        }
        let h = vstd::slice::slice_subrange(self.buf.as_slice(), 0, 16);
        assert(h@ == self@.take(16));
        let n = match read_header(h) {
            Ok(n) => n,
            Err(e) => {
                return Some(Err(LuaError::Protocol(e)));
            },
        };
        if self.buf.len() - 16 < n {
            return None;
        }
        let end = 16 + n;
        let payload = vstd::slice::slice_to_vec(
            vstd::slice::slice_subrange(self.buf.as_slice(), 16, end),
        );
        let mut rest: Vec<u8> = Vec::new();
        let mut i: usize = end;
        while i < self.buf.len()
            invariant
                end <= i <= self.buf@.len(),
                self.buf@ == old(self).buf@,
                rest@ == self.buf@.subrange(end as int, i as int),
            decreases self.buf@.len() - i,
        {
            rest.push(self.buf[i]);
            i = i + 1;
            assert(rest@ =~= self.buf@.subrange(end as int, i as int));
        }
        self.buf = rest;
        assert(payload@ == old(self)@.subrange(16, end as int));
        Some(decode_message(payload.as_slice()))
    }
}

} // verus!
