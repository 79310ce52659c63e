//! Reassembly of characters from a byte stream that may pause mid-character.

use vstd::prelude::*;
use vstd::utf8::*;

verus! {

/// What one byte fed to the decoder produced.
#[derive(Clone, Copy, Debug, PartialEq, Eq)]
pub enum Decoded {
    /// The byte was the "no data" sentinel: nothing arrived.
    NoData,
    /// The byte was taken; the character is not complete yet.
    Pending,
    /// A whole character was assembled.
    Char(char),
}

/// Number of bytes announced by the first byte of a group; an invalid first
/// byte makes a group of one byte.
pub open spec fn group_len(b: u8) -> nat {
    if b <= 0x7F {
        1
    } else if 0xC0 <= b <= 0xDF {
        2
    } else if 0xE0 <= b <= 0xEF {
        3
    } else if 0xF0 <= b <= 0xF7 {
        4
    } else {
        1
    }
}

/// The character a complete group decodes to: a space where the bytes are not UTF-8.
pub open spec fn group_char(bytes: Seq<u8>) -> char {
    if valid_utf8(bytes) && decode_utf8(bytes).len() > 0 {
        decode_utf8(bytes)[0]
    } else {
        ' '
    }
}

/// One step of the decoder, over the bytes of the group collected so far.
pub open spec fn decode_step(pending: Seq<u8>, b: u8) -> (Seq<u8>, Decoded) {
    if b == 0 {
        (pending, Decoded::NoData)
    } else {
        let group = pending.push(b);
        if group.len() >= group_len(group[0]) {
            (Seq::empty(), Decoded::Char(group_char(group)))
        } else {
            (group, Decoded::Pending)
        }
    }
}

/// Decoder state after a whole byte sequence, with what it emitted and how
/// many of the bytes began a group (arrived while no group was open).
pub open spec fn decode_run(pending: Seq<u8>, bytes: Seq<u8>) -> (Seq<u8>, Seq<char>, nat)
    decreases bytes.len(),
{
    if bytes.len() == 0 {
        (pending, Seq::empty(), 0)
    } else {
        let (pend, out, n) = decode_run(pending, bytes.drop_last());
        let b = bytes.last();
        let starts = if pend.len() == 0 && b != 0 { n + 1 } else { n };
        let (pend_next, d) = decode_step(pend, b);
        let out_next = match d {
            Decoded::Char(c) => out.push(c),
            _ => out,
        };
        (pend_next, out_next, starts)
    }
}

/// Every group that was started has produced exactly one character, except
/// possibly the one still open at the end; an invalid first byte closes its
/// group at once.
pub proof fn lemma_decoder_progress(bytes: Seq<u8>)
    ensures
        ({
            let (p, out, starts) = decode_run(Seq::empty(), bytes);
            &&& out.len() + (if p.len() > 0 { 1int } else { 0int }) == starts
            &&& p.len() > 0 ==> p.len() < group_len(p[0])
        }),
        forall|b: u8|
            b != 0 && group_len(b) == 1 ==> (#[trigger] decode_step(Seq::empty(), b)).1 is Char,
    decreases bytes.len(),
{
    if bytes.len() > 0 {
        lemma_decoder_progress(bytes.drop_last());
        let (pend, out, n) = decode_run(Seq::empty(), bytes.drop_last());
        let b = bytes.last();
        if b != 0 {
            let group = pend.push(b);
            assert(group[0] == if pend.len() > 0 { pend[0] } else { b });
        }
    }
}

/// Reassembles characters from bytes handed over one at a time.
pub struct Decoder {
    pending: Vec<u8>,
}

impl Decoder {
    pub closed spec fn pending_bytes(&self) -> Seq<u8> {
        self.pending@
    }

    pub open spec fn wf(&self) -> bool {
        self.pending_bytes().len() > 0 ==> self.pending_bytes().len() < group_len(
            self.pending_bytes()[0],
        )
    }

    pub fn new() -> (d: Decoder)
        ensures
            d.wf(),
            d.pending_bytes().len() == 0,
    {
        Decoder { pending: Vec::new() }
    }

    /// Takes one byte from the channel; 0 means that nothing was pending there.
    pub fn feed(&mut self, b: u8) -> (r: Decoded)
        requires
            old(self).wf(),
        ensures
            final(self).wf(),
            (final(self).pending_bytes(), r) == decode_step(old(self).pending_bytes(), b),
    {
        if b == 0 {
            return Decoded::NoData;
        }
        self.pending.push(b);
        let need = group_length(self.pending[0]);
        if self.pending.len() >= need {
            let c = decode_group(&self.pending);
            self.pending = Vec::new();
            Decoded::Char(c)
        } else {
            Decoded::Pending
        }
    }
}

/// Classifies a first byte.
pub fn group_length(b: u8) -> (n: usize)
    ensures
        n == group_len(b),
{
    if b <= 0x7F {
        1
    } else if 0xC0 <= b && b <= 0xDF {
        2
    } else if 0xE0 <= b && b <= 0xEF {
        3
    } else if 0xF0 <= b && b <= 0xF7 {
        4
    } else {
        1
    }
}

/// Relies on std::str::from_utf8: `Ok` exactly when the bytes are UTF-8, and
/// then the text they encode.
#[verifier::external_body]
fn utf8_text(bytes: &[u8]) -> (r: Option<&str>)
    ensures
        r is Some <==> valid_utf8(bytes@),
        r matches Some(s) ==> s@ == decode_utf8(bytes@),
{
    std::str::from_utf8(bytes).ok()
}

/// Decodes one complete group of bytes.
pub fn decode_group(bytes: &Vec<u8>) -> (c: char)
    ensures
        c == group_char(bytes@),
{
    match utf8_text(bytes.as_slice()) {
        Some(s) => {
            if s.unicode_len() > 0 {
                s.get_char(0)
            } else {
                ' '
            }
        },
        None => ' ',
    }
}

} // verus!
