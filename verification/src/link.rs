//! The byte-stream abstraction over which commands and responses travel,
//! and the framing of that stream into newline-terminated lines.
//!
//! [`Link`] is the driver's model of the serial port: a pending input of
//! bytes that the device will deliver, and a transcript of every byte
//! written to it. The contracts describe an ideal link that delivers its
//! pending input reliably and accepts every write; a production
//! implementation over a real port reports a failure through the same
//! return values, and the verified callers translate such a failure into
//! an I/O error at run time even where the model rules it out. A timeout
//! appears in the model as exhausted pending input.
//!
//! [`ReplayLink`] is the scripted implementation that proofs and tests
//! run against.

use vstd::prelude::*;

use vstd::string::StringSliceAdditionalSpecFns;
use vstd::utf8::{decode_utf8, encode_utf8, is_ascii_chars, valid_utf8};

verus! {

/// The newline byte that terminates each frame of the wire protocol.
pub const NEWLINE_BYTE: u8 = 10;

/// The hard cap on the bytes of one frame: a line that reaches it is
/// returned truncated, with the rest of the stream left pending.
pub const LINE_BYTE_CAP: usize = 99;

/// A duplex byte stream: the minimal capability set the protocol layer
/// needs from a serial port.
pub trait Link {
    /// The bytes the device will deliver, oldest first. The default is
    /// for implementations outside the verified world (a real port has
    /// no knowable pending input); the scripted link overrides it.
    open spec fn incoming(&self) -> Seq<u8> {
        Seq::empty()
    }

    /// Every byte written toward the device so far, oldest first. The
    /// default is for implementations outside the verified world; the
    /// scripted link overrides it.
    open spec fn written(&self) -> Seq<u8> {
        Seq::empty()
    }

    /// Reads one byte: the first pending byte, or `None` when the
    /// pending input is exhausted (on a real port: a read failure or
    /// timeout).
    fn read_byte(&mut self) -> (r: Option<u8>)
        ensures
            old(self).incoming().len() > 0 ==> r == Some(old(self).incoming()[0])
                && final(self).incoming() == old(self).incoming().skip(1),
            old(self).incoming().len() == 0 ==> r is None && final(self).incoming() == old(self).incoming(),
            final(self).written() == old(self).written(),
    ;

    /// Writes bytes, appending them to the transcript. The model link
    /// accepts every write; a production implementation returns `false`
    /// on a port failure and the callers turn that into an I/O error.
    fn write_bytes(&mut self, data: &[u8]) -> (r: bool)
        ensures
            r,
            final(self).written() == old(self).written() + data@,
            final(self).incoming() == old(self).incoming(),
    ;

    /// Flushes the write buffer. The model link cannot fail here; a
    /// production implementation returns `false` on a port failure.
    fn flush(&mut self) -> (r: bool)
        ensures
            r,
            final(self).written() == old(self).written(),
            final(self).incoming() == old(self).incoming(),
    ;

    /// Blocks for a settle delay of `ms` milliseconds, allowing physical
    /// actuation to complete. The model carries no clock, so nothing
    /// else happens.
    fn settle(&mut self, ms: u64)
        ensures
            final(self).written() == old(self).written(),
            final(self).incoming() == old(self).incoming(),
    ;
}

/// A scripted link: replays a fixed byte sequence as the device's side
/// of the conversation and records everything written to it. This is the
/// test double that makes the protocol layer testable without hardware.
pub struct ReplayLink {
    /// The whole scripted input.
    pub input: Vec<u8>,
    /// How many scripted bytes were already delivered.
    pub delivered: usize,
    /// Every byte written to the link.
    pub output: Vec<u8>,
}

impl ReplayLink {
    /// A link that will replay `input` and has written nothing.
    pub fn new(input: Vec<u8>) -> (r: ReplayLink)
        ensures
            r.incoming() == input@,
            r.written() == Seq::<u8>::empty(),
    {
        let r = ReplayLink { input, delivered: 0, output: Vec::new() };
        proof {
            assert(r.input@.skip(0) =~= r.input@);
            assert(r.output@ =~= Seq::<u8>::empty());
        }
        r
    }

    /// Appends one scripted line: the text followed by a newline.
    pub fn script_line(&mut self, line: &str)
        requires
            old(self).delivered <= old(self).input@.len(),
        ensures
            final(self).incoming() == old(self).incoming() + line.spec_bytes() + seq![
                NEWLINE_BYTE,
            ],
            final(self).written() == old(self).written(),
            final(self).delivered == old(self).delivered,
            final(self).delivered <= final(self).input@.len(),
    {
        let bytes = line.as_bytes();
        self.input.extend_from_slice(bytes);
        self.input.push(NEWLINE_BYTE);
        proof {
            assert(self.input@.skip(self.delivered as int) =~= old(self).input@.skip(
                old(self).delivered as int,
            ) + line.spec_bytes() + seq![NEWLINE_BYTE]);
        }
    }
}

impl Link for ReplayLink {
    /// The scripted bytes not yet delivered; a cursor past the end (which
    /// no method produces) counts as exhausted.
    open spec fn incoming(&self) -> Seq<u8> {
        if self.delivered <= self.input@.len() {
            self.input@.skip(self.delivered as int)
        } else {
            Seq::empty()
        }
    }

    open spec fn written(&self) -> Seq<u8> {
        self.output@
    }

    fn read_byte(&mut self) -> (r: Option<u8>)
        ensures
            old(self).incoming().len() > 0 ==> r == Some(old(self).incoming()[0])
                && final(self).incoming() == old(self).incoming().skip(1),
            old(self).incoming().len() == 0 ==> r is None && final(self).incoming() == old(self).incoming(),
            final(self).written() == old(self).written(),
    {
        if self.delivered < self.input.len() {
            let b = self.input[self.delivered];
            self.delivered = self.delivered + 1;
            proof {
                assert(self.input@.skip(self.delivered as int) =~= old(self).input@.skip(
                    old(self).delivered as int,
                ).skip(1));
            }
            Some(b)
        } else {
            None
        }
    }

    fn write_bytes(&mut self, data: &[u8]) -> (r: bool)
        ensures
            r,
            final(self).written() == old(self).written() + data@,
            final(self).incoming() == old(self).incoming(),
    {
        self.output.extend_from_slice(data);
        true
    }

    fn flush(&mut self) -> (r: bool)
        ensures
            r,
            final(self).written() == old(self).written(),
            final(self).incoming() == old(self).incoming(),
    {
        true
    }

    fn settle(&mut self, ms: u64)
        ensures
            final(self).written() == old(self).written(),
            final(self).incoming() == old(self).incoming(),
    {
        let _ = ms;
    }
}

/// Index of the first newline byte in `bytes`, or `bytes.len()`.
pub open spec fn first_nl_idx(bytes: Seq<u8>) -> nat
    decreases bytes.len(),
{
    if bytes.len() == 0 {
        0
    } else if bytes[0] == NEWLINE_BYTE {
        0
    } else {
        1 + first_nl_idx(bytes.skip(1))
    }
}

/// Characterization of [`first_nl_idx`].
pub proof fn lemma_first_nl_idx(bytes: Seq<u8>, k: int)
    requires
        0 <= k <= bytes.len(),
        forall|j: int| 0 <= j < k ==> bytes[j] != NEWLINE_BYTE,
        k < bytes.len() ==> bytes[k] == NEWLINE_BYTE,
    ensures
        first_nl_idx(bytes) == k,
    decreases bytes.len(),
{
    if bytes.len() == 0 {
    } else if bytes[0] == NEWLINE_BYTE {
        assert(k == 0);
    } else {
        assert(k >= 1);
        let t = bytes.skip(1);
        assert forall|j: int| 0 <= j < k - 1 implies t[j] != NEWLINE_BYTE by {
            assert(t[j] == bytes[j + 1]);
        }
        lemma_first_nl_idx(t, k - 1);
    }
}

/// Without a newline among the first `i` bytes, the first newline is no
/// earlier than `i`.
pub proof fn lemma_first_nl_idx_lower(bytes: Seq<u8>, i: int)
    requires
        0 <= i <= bytes.len(),
        forall|j: int| 0 <= j < i ==> bytes[j] != NEWLINE_BYTE,
    ensures
        first_nl_idx(bytes) >= i,
    decreases i,
{
    if i > 0 {
        let t = bytes.skip(1);
        assert forall|j: int| 0 <= j < i - 1 implies t[j] != NEWLINE_BYTE by {
            assert(t[j] == bytes[j + 1]);
        }
        lemma_first_nl_idx_lower(t, i - 1);
    }
}

/// [`first_nl_idx`] is at most the length.
pub proof fn lemma_first_nl_idx_le(bytes: Seq<u8>)
    ensures
        first_nl_idx(bytes) <= bytes.len(),
    decreases bytes.len(),
{
    if bytes.len() > 0 && bytes[0] != NEWLINE_BYTE {
        lemma_first_nl_idx_le(bytes.skip(1));
    }
}

/// The byte budget of the next frame: the cap, or less if the stream is
/// shorter.
pub open spec fn line_cap(bytes: Seq<u8>) -> int {
    if bytes.len() < LINE_BYTE_CAP {
        bytes.len() as int
    } else {
        LINE_BYTE_CAP as int
    }
}

/// Whether one whole frame can be read: a newline within the budget, or
/// a full budget of bytes to return truncated.
pub open spec fn line_ready(bytes: Seq<u8>) -> bool {
    first_nl_idx(bytes) < line_cap(bytes) || bytes.len() >= LINE_BYTE_CAP
}

/// The bytes of the next frame, without its newline.
pub open spec fn line_take(bytes: Seq<u8>) -> Seq<u8> {
    let k = first_nl_idx(bytes) as int;
    if k < line_cap(bytes) {
        bytes.take(k)
    } else {
        bytes.take(line_cap(bytes))
    }
}

/// What remains pending after reading one frame (after a failed read:
/// nothing).
pub open spec fn line_rest(bytes: Seq<u8>) -> Seq<u8> {
    let k = first_nl_idx(bytes) as int;
    if k < line_cap(bytes) {
        bytes.skip(k + 1)
    } else {
        bytes.skip(line_cap(bytes))
    }
}

/// The outcome of framing and decoding one line from the stream: an I/O
/// error when the stream gives out before a frame is complete, an
/// encoding error when the frame is not valid text, else the text.
pub open spec fn read_line_result(bytes: Seq<u8>) -> Result<Seq<char>, crate::error::GetDataError> {
    if !line_ready(bytes) {
        Err(crate::error::GetDataError::Io)
    } else if !valid_utf8(line_take(bytes)) {
        Err(crate::error::GetDataError::Parse)
    } else {
        Ok(decode_utf8(line_take(bytes)))
    }
}

/// Relies on `String::from_utf8`: it returns `Ok` exactly when the bytes
/// are valid UTF-8, and then the string is their decoding — the
/// specification vstd itself gives to UTF-8 in `vstd::utf8`.
#[verifier::external_body]
pub(crate) fn utf8_to_string(bytes: Vec<u8>) -> (r: Option<String>)
    ensures
        r is Some <==> valid_utf8(bytes@),
        r is Some ==> (r->0)@ == decode_utf8(bytes@),
{
    match String::from_utf8(bytes) {
        Ok(s) => Some(s),
        Err(_) => None,
    }
}

/// The wire bytes of a block of lines, each newline-terminated: how the
/// device's side of a conversation is laid out on the stream.
pub open spec fn bytes_of_lines(ls: Seq<Seq<char>>) -> Seq<u8>
    decreases ls.len(),
{
    if ls.len() == 0 {
        Seq::empty()
    } else {
        encode_utf8(ls[0]) + seq![NEWLINE_BYTE] + bytes_of_lines(ls.skip(1))
    }
}

/// A line as the device sends one: ASCII, short enough for one frame,
/// with no embedded newline.
pub open spec fn frameable(l: Seq<char>) -> bool {
    &&& is_ascii_chars(l)
    &&& l.len() < LINE_BYTE_CAP
    &&& forall|j: int| 0 <= j < l.len() ==> l[j] != '\n'
}

/// Framing one scripted line: the frame is exactly the line, and the
/// stream then stands at whatever follows its newline.
pub proof fn lemma_frame_scripted(l: Seq<char>, rest: Seq<u8>)
    requires
        frameable(l),
    ensures
        line_ready(encode_utf8(l) + seq![NEWLINE_BYTE] + rest),
        read_line_result(encode_utf8(l) + seq![NEWLINE_BYTE] + rest) == Ok::<
            Seq<char>,
            crate::error::GetDataError,
        >(l),
        line_rest(encode_utf8(l) + seq![NEWLINE_BYTE] + rest) == rest,
{
    let enc = encode_utf8(l);
    let bytes = enc + seq![NEWLINE_BYTE] + rest;
    vstd::utf8::is_ascii_chars_encode_utf8(l);
    assert(enc =~= Seq::new(l.len(), |i: int| l[i] as u8));
    assert forall|j: int| 0 <= j < l.len() implies bytes[j] != NEWLINE_BYTE by {
        assert(bytes[j] == enc[j]);
        assert(enc[j] == l[j] as u8);
        assert((l[j] as u32) < 128);
        if (l[j] as u8) == NEWLINE_BYTE {
            vstd::utf8::char_u32_cast(l[j], 10);
            assert(l[j] == '\n');
        }
    }
    assert(bytes[l.len() as int] == NEWLINE_BYTE);
    lemma_first_nl_idx(bytes, l.len() as int);
    assert(first_nl_idx(bytes) < line_cap(bytes));
    assert(line_take(bytes) =~= enc);
    assert(line_rest(bytes) =~= rest);
    vstd::utf8::encode_utf8_valid_utf8(l);
    vstd::utf8::encode_utf8_decode_utf8(l);
}

} // verus!
