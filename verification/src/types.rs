//! The library's data: peer-wire messages and their framing, the torrent
//! metainfo, the tracker request, and the per-piece download state.

use vstd::prelude::*;
use vstd::string::StringExecFns;
use vstd::slice::slice_to_vec;
use crate::text::{decimal_string, spec_decimal, spec_hex_lower};
use crate::digest::hex_encode;
use crate::json::{json_string, json_u64, push_without_quotes, spec_json_string, strip_quotes};
use crate::text::push_char;
use crate::clock::instant_now;
use std::time::Instant;

verus! {

/// The kinds of peer-wire messages, numbered as on the wire.
#[derive(Debug, Clone, Copy, PartialEq, Eq, Structural)]
pub enum MessageTypes {
    Choke,
    Unchoke,
    Interested,
    NotInterested,
    Have,
    Bitfield,
    Request,
    Piece,
    Cancel,
}

impl MessageTypes {
    /// The wire number of a message kind.
    pub open spec fn spec_byte(self) -> u8 {
        match self {
            MessageTypes::Choke => 0,
            MessageTypes::Unchoke => 1,
            MessageTypes::Interested => 2,
            MessageTypes::NotInterested => 3,
            MessageTypes::Have => 4,
            MessageTypes::Bitfield => 5,
            MessageTypes::Request => 6,
            MessageTypes::Piece => 7,
            MessageTypes::Cancel => 8,
        }
    }

    /// The message kind with a given wire number, if there is one.
    pub open spec fn spec_from_byte(b: u8) -> Option<MessageTypes> {
        if b == 0 {
            Some(MessageTypes::Choke)
        } else if b == 1 {
            Some(MessageTypes::Unchoke)
        } else if b == 2 {
            Some(MessageTypes::Interested)
        } else if b == 3 {
            Some(MessageTypes::NotInterested)
        } else if b == 4 {
            Some(MessageTypes::Have)
        } else if b == 5 {
            Some(MessageTypes::Bitfield)
        } else if b == 6 {
            Some(MessageTypes::Request)
        } else if b == 7 {
            Some(MessageTypes::Piece)
        } else if b == 8 {
            Some(MessageTypes::Cancel)
        } else {
            None
        }
    }

    /// The text of the error for a byte that names no message kind.
    pub open spec fn unknown_type_text(b: u8) -> Seq<char> {
        "Unknown message type "@ + spec_decimal(b as nat)
    }

    /// The wire number of this message kind.
    pub fn as_byte(&self) -> (b: u8)
        ensures
            b == self.spec_byte(),
    {
        match self {
            MessageTypes::Choke => 0,
            MessageTypes::Unchoke => 1,
            MessageTypes::Interested => 2,
            MessageTypes::NotInterested => 3,
            MessageTypes::Have => 4,
            MessageTypes::Bitfield => 5,
            MessageTypes::Request => 6,
            MessageTypes::Piece => 7,
            MessageTypes::Cancel => 8,
        }
    }

    /// The message kind with wire number `value`, or the error text naming it.
    pub fn try_from_byte(value: u8) -> (r: Result<MessageTypes, String>)
        ensures
            r matches Ok(t) ==> Self::spec_from_byte(value) == Some(t),
            r matches Err(e) ==> Self::spec_from_byte(value) is None
                && e@ == Self::unknown_type_text(value),
            r is Ok <==> Self::spec_from_byte(value) is Some,
    {
        if value == 0 {
            Ok(MessageTypes::Choke)
        } else if value == 1 {
            Ok(MessageTypes::Unchoke)
        } else if value == 2 {
            Ok(MessageTypes::Interested)
        } else if value == 3 {
            Ok(MessageTypes::NotInterested)
        } else if value == 4 {
            Ok(MessageTypes::Have)
        } else if value == 5 {
            Ok(MessageTypes::Bitfield)
        } else if value == 6 {
            Ok(MessageTypes::Request)
        } else if value == 7 {
            Ok(MessageTypes::Piece)
        } else if value == 8 {
            Ok(MessageTypes::Cancel)
        } else {
            let mut text = String::new();
            text.append("Unknown message type ");
            let digits = decimal_string(value as u64);
            text.append(digits.as_str());
            Err(text)
        }
    }
}

/// The four bytes of a 32-bit word, most significant first.
pub open spec fn be_bytes(x: u32) -> Seq<u8> {
    seq![(x >> 24u32) as u8, (x >> 16u32) as u8, (x >> 8u32) as u8, x as u8]
}

/// The 32-bit word whose bytes, most significant first, are `b0 b1 b2 b3`.
pub open spec fn be_u32(b0: u8, b1: u8, b2: u8, b3: u8) -> u32 {
    ((b0 as u32) << 24u32) | ((b1 as u32) << 16u32) | ((b2 as u32) << 8u32) | (b3 as u32)
}

/// Reading back the bytes of a word gives the word.
pub proof fn lemma_be_u32_of_bytes(x: u32)
    ensures
        be_u32(be_bytes(x)[0], be_bytes(x)[1], be_bytes(x)[2], be_bytes(x)[3]) == x,
{
    assert((((((x >> 24u32) as u8) as u32) << 24u32) | ((((x >> 16u32) as u8) as u32) << 16u32)
        | ((((x >> 8u32) as u8) as u32) << 8u32) | ((x as u8) as u32)) == x) by (bit_vector);
}

/// Writing out the word read from four bytes gives the bytes.
pub proof fn lemma_bytes_of_be_u32(b0: u8, b1: u8, b2: u8, b3: u8)
    ensures
        be_bytes(be_u32(b0, b1, b2, b3)) == seq![b0, b1, b2, b3],
{
    let x = be_u32(b0, b1, b2, b3);
    assert((x >> 24u32) as u8 == b0 && (x >> 16u32) as u8 == b1 && (x >> 8u32) as u8 == b2
        && x as u8 == b3) by (bit_vector)
        requires
            x == ((b0 as u32) << 24u32) | ((b1 as u32) << 16u32) | ((b2 as u32) << 8u32) | (
            b3 as u32),
    ;
    assert(be_bytes(x) =~= seq![b0, b1, b2, b3]);
}

/// A peer-wire message: a length prefix, a kind and a payload.
pub struct Message {
    pub prefix: i32,
    pub id: MessageTypes,
    pub payload: Vec<u8>,
}

impl View for Message {
    type V = (i32, MessageTypes, Seq<u8>);

    open spec fn view(&self) -> (i32, MessageTypes, Seq<u8>) {
        (self.prefix, self.id, self.payload@)
    }
}

impl Clone for Message {
    fn clone(&self) -> (m: Self)
        ensures
            m@ == self@,
    {
        let mut payload: Vec<u8> = Vec::new();
        let mut i: usize = 0;
        while i < self.payload.len()
            invariant
                i <= self.payload@.len(),
                payload@ == self.payload@.subrange(0, i as int),
            decreases self.payload@.len() - i,
        {
            payload.push(self.payload[i]);
            i = i + 1;
        }
        assert(payload@ =~= self.payload@);
        Message { prefix: self.prefix, id: self.id, payload }
    }
}

/// The bytes that a message with these parts takes on the wire: the
/// length prefix as four big-endian bytes, the kind, then the payload.
pub open spec fn spec_wire(prefix: i32, id: MessageTypes, payload: Seq<u8>) -> Seq<u8> {
    be_bytes(prefix as u32) + seq![id.spec_byte()] + payload
}

/// The length prefix that `Message::new` gives a payload of `n` bytes.
pub open spec fn prefix_for_len(n: nat) -> i32 {
    ((n as i32) + 1) as i32
}

/// Whether a length prefix of a message with a payload of `n` bytes is the
/// one that `Message::new` gives it.
pub open spec fn well_prefixed(m: (i32, MessageTypes, Seq<u8>)) -> bool {
    &&& m.2.len() < i32::MAX
    &&& m.0 == m.2.len() + 1
}

impl Message {
    /// A message of kind `id` carrying a copy of `payload`; its prefix counts
    /// the kind byte and the payload.
    pub fn new(id: MessageTypes, payload: &[u8]) -> (m: Message)
        requires
            (payload@.len() as i32) < i32::MAX,
        ensures
            m.id == id,
            m.payload@ == payload@,
            m.prefix == prefix_for_len(payload@.len()),
    {
        let n = payload.len() as i32;
        Message { id, prefix: n + 1, payload: slice_to_vec(payload) }
    }

    /// The bytes of this message on the wire.
    pub fn to_bytes(&self) -> (out: Vec<u8>)
        ensures
            out@ == spec_wire(self.prefix, self.id, self.payload@),
    {
        let p = self.prefix as u32;
        let mut out: Vec<u8> = Vec::new();
        out.push((p >> 24u32) as u8);
        out.push((p >> 16u32) as u8);
        out.push((p >> 8u32) as u8);
        out.push(p as u8);
        out.push(self.id.as_byte());
        let ghost head = out@;
        assert(head =~= be_bytes(p) + seq![self.id.spec_byte()]);
        let mut i: usize = 0;
        while i < self.payload.len()
            invariant
                i <= self.payload@.len(),
                out@ == head + self.payload@.subrange(0, i as int),
            decreases self.payload@.len() - i,
        {
            out.push(self.payload[i]);
            i = i + 1;
            assert(out@ =~= head + self.payload@.subrange(0, i as int));
        }
        assert(self.payload@.subrange(0, i as int) =~= self.payload@);
        out
    }
}

/// Why a byte string is not one whole message frame.
#[derive(Debug, Clone, Copy, PartialEq, Eq, Structural)]
pub enum FrameError {
    /// Shorter than the four length bytes and the kind byte.
    Truncated,
    /// The length prefix does not count the bytes that follow it.
    LengthMismatch,
}

/// The length prefix of a frame of at least four bytes.
pub open spec fn frame_length(frame: Seq<u8>) -> u32 {
    be_u32(frame[0], frame[1], frame[2], frame[3])
}

/// The inputs on which reading a frame would panic: a known kind with a
/// zero length prefix, or a payload length that the prefix arithmetic of
/// `Message::new` overflows on.
pub open spec fn frame_panics(frame: Seq<u8>) -> bool {
    &&& frame.len() >= 5
    &&& MessageTypes::spec_from_byte(frame[4]) is Some
    &&& (frame_length(frame) == 0 || (frame.len() == 4 + frame_length(frame) && (((frame_length(
        frame,
    ) - 1) as nat) as i32) == i32::MAX))
}

/// What reading a frame gives: `None` for an unknown kind, the message's
/// parts otherwise.
pub open spec fn spec_parse_frame(frame: Seq<u8>) -> Result<
    Option<(i32, MessageTypes, Seq<u8>)>,
    FrameError,
> {
    if frame.len() < 5 {
        Err(FrameError::Truncated)
    } else {
        match MessageTypes::spec_from_byte(frame[4]) {
            None => Ok(None),
            Some(id) => if frame.len() != 4 + frame_length(frame) {
                Err(FrameError::LengthMismatch)
            } else {
                Ok(Some((prefix_for_len((frame.len() - 5) as nat), id, frame.subrange(5, frame.len() as int))))
            },
        }
    }
}

/// The view of the result of reading a frame.
pub open spec fn frame_result_view(r: Result<Option<Message>, FrameError>) -> Result<
    Option<(i32, MessageTypes, Seq<u8>)>,
    FrameError,
> {
    match r {
        Ok(Some(m)) => Ok(Some(m@)),
        Ok(None) => Ok(None),
        Err(e) => Err(e),
    }
}

/// The number of payload bytes that follow a five-byte message header, or
/// `None` when the kind byte names no message kind.
pub fn payload_len_of_header(header: &[u8]) -> (r: Option<u32>)
    requires
        header@.len() >= 5,
        MessageTypes::spec_from_byte(header@[4]) is Some ==> frame_length(header@) >= 1,
    ensures
        MessageTypes::spec_from_byte(header@[4]) is None ==> r is None,
        MessageTypes::spec_from_byte(header@[4]) is Some ==> r == Some(
            (frame_length(header@) - 1) as u32,
        ),
{
    let length = ((header[0] as u32) << 24u32) | ((header[1] as u32) << 16u32) | ((
    header[2] as u32) << 8u32) | (header[3] as u32);
    match MessageTypes::try_from_byte(header[4]) {
        Ok(_) => Some(length - 1),
        Err(_) => None,
    }
}

/// Reads one whole frame: the length prefix, the kind byte and exactly the
/// payload that the prefix counts.
pub fn parse_frame(frame: &[u8]) -> (r: Result<Option<Message>, FrameError>)
    requires
        !frame_panics(frame@),
    ensures
        frame_result_view(r) == spec_parse_frame(frame@),
        frame@.len() < 5 ==> r matches Err(FrameError::Truncated),
        frame@.len() >= 5 && MessageTypes::spec_from_byte(frame@[4]) is None ==> r matches Ok(None),
        frame@.len() >= 5 && MessageTypes::spec_from_byte(frame@[4]) is Some && frame@.len() != 4
            + frame_length(frame@) ==> r matches Err(FrameError::LengthMismatch),
        frame@.len() >= 5 && MessageTypes::spec_from_byte(frame@[4]) is Some && frame@.len() == 4
            + frame_length(frame@) ==> (r matches Ok(Some(m)) && Some(m.id) == MessageTypes::spec_from_byte(
            frame@[4],
        ) && m.payload@ == frame@.subrange(5, frame@.len() as int)),
{
    if frame.len() < 5 {
        return Err(FrameError::Truncated);
    }
    let length = ((frame[0] as u32) << 24u32) | ((frame[1] as u32) << 16u32) | ((
    frame[2] as u32) << 8u32) | (frame[3] as u32);
    match MessageTypes::try_from_byte(frame[4]) {
        Err(_) => Ok(None),
        Ok(id) => {
            if frame.len() - 4 != length as usize {
                return Err(FrameError::LengthMismatch);
            }
            let payload = vstd::slice::slice_subrange(frame, 5, frame.len());
            Ok(Some(Message::new(id, payload)))
        },
    }
}

/// Reading a frame skips every frame of at least five bytes whose kind byte
/// names no message kind, whatever its length prefix and payload; a frame of
/// a known kind is read exactly when its prefix counts the bytes after it,
/// as a message of that kind with the bytes after the kind byte as payload;
/// a frame of fewer than five bytes is truncated.
pub proof fn lemma_frame_reading(frame: Seq<u8>)
    ensures
        frame.len() < 5 ==> spec_parse_frame(frame) == Err::<Option<(i32, MessageTypes, Seq<u8>)>, FrameError>(FrameError::Truncated),
        frame.len() >= 5 && MessageTypes::spec_from_byte(frame[4]) is None ==> spec_parse_frame(frame)
            == Ok::<Option<(i32, MessageTypes, Seq<u8>)>, FrameError>(None),
        frame.len() >= 5 && MessageTypes::spec_from_byte(frame[4]) is Some ==> (spec_parse_frame(frame) is Ok
            <==> frame.len() == 4 + frame_length(frame)),
        spec_parse_frame(frame) matches Ok(Some(m)) ==> Some(m.1) == MessageTypes::spec_from_byte(frame[4])
            && m.2 == frame.subrange(5, frame.len() as int),
{
}

/// Reading back the bytes of a message gives the message, for every
/// message whose prefix is the one `Message::new` gives its payload.
pub proof fn lemma_frame_roundtrip(m: (i32, MessageTypes, Seq<u8>))
    requires
        well_prefixed(m),
    ensures
        spec_parse_frame(spec_wire(m.0, m.1, m.2)) == Ok::<_, FrameError>(Some(m)),
{
    let w = spec_wire(m.0, m.1, m.2);
    lemma_be_u32_of_bytes(m.0 as u32);
    assert(w[0] == be_bytes(m.0 as u32)[0]);
    assert(w[1] == be_bytes(m.0 as u32)[1]);
    assert(w[2] == be_bytes(m.0 as u32)[2]);
    assert(w[3] == be_bytes(m.0 as u32)[3]);
    assert(w[4] == m.1.spec_byte());
    assert(frame_length(w) == m.0 as u32);
    let x = m.0;
    assert(0 < x ==> (x as u32) as int == x as int) by (bit_vector);
    assert(w.subrange(5, w.len() as int) =~= m.2);
}

/// A frame that reads as a message is the wire form of that message.
pub proof fn lemma_parsed_frame_is_wire(frame: Seq<u8>)
    requires
        spec_parse_frame(frame) matches Ok(Some(_)),
        !frame_panics(frame),
    ensures
        spec_parse_frame(frame) matches Ok(Some(m)) && spec_wire(m.0, m.1, m.2) == frame,
{
    let n = frame_length(frame);
    lemma_bytes_of_be_u32(frame[0], frame[1], frame[2], frame[3]);
    let p = prefix_for_len((frame.len() - 5) as nat);
    assert(1 <= n);
    let k = (n - 1) as u32;
    assert((frame.len() - 5) as nat == k as nat);
    assert((k as i32) != 0x7fff_ffffi32 ==> (((k as i32) + 1) as i32) as u32 == n) by (bit_vector)
        requires
            k == n - 1,
            n >= 1,
    ;
    assert(p as u32 == n);
    assert(spec_wire(p, MessageTypes::spec_from_byte(frame[4]).unwrap(), frame.subrange(5, frame.len() as int)) =~= frame);
}

/// The twenty-byte piece hashes of a torrent, in piece order.
#[derive(Debug)]
pub struct HashList(pub Vec<[u8; 20]>);

impl Clone for HashList {
    fn clone(&self) -> (h: Self)
        ensures
            h.0@ == self.0@,
    {
        let mut v: Vec<[u8; 20]> = Vec::new();
        let mut i: usize = 0;
        while i < self.0.len()
            invariant
                i <= self.0@.len(),
                v@ == self.0@.subrange(0, i as int),
            decreases self.0@.len() - i,
        {
            let a: [u8; 20] = self.0[i];
            v.push(a);
            i = i + 1;
            assert(v@ =~= self.0@.subrange(0, i as int));
        }
        assert(self.0@.subrange(0, i as int) =~= self.0@);
        HashList(v)
    }
}

/// Why a byte string is not a list of piece hashes.
#[derive(Debug, Clone, Copy, PartialEq, Eq, Structural)]
pub enum HashListError {
    /// Its length is not a multiple of twenty.
    InvalidLength,
}

impl View for HashList {
    type V = Seq<Seq<u8>>;

    open spec fn view(&self) -> Seq<Seq<u8>> {
        self.0@.map_values(|a: [u8; 20]| a@)
    }
}

/// The consecutive twenty-byte pieces of a byte string.
pub open spec fn hash_chunks(v: Seq<u8>) -> Seq<Seq<u8>> {
    Seq::new(v.len() / 20, |i: int| v.subrange(20 * i, 20 * i + 20))
}

/// The byte strings of a sequence, one after the other.
pub open spec fn concat_chunks(s: Seq<Seq<u8>>) -> Seq<u8>
    decreases s.len(),
{
    if s.len() == 0 {
        Seq::empty()
    } else {
        concat_chunks(s.drop_last()) + s.last()
    }
}

proof fn lemma_chunk_bounds(i: int, n: int, len: int)
    requires
        0 <= i < n,
        n == len / 20,
        len >= 0,
    ensures
        20 * i + 20 <= len,
{
    assert(20 * i + 20 <= 20 * n) by (nonlinear_arith)
        requires
            i < n,
    ;
    assert(20 * (len / 20) <= len) by (nonlinear_arith)
        requires
            len >= 0,
    ;
}

impl HashList {
    /// Splits a byte string into twenty-byte hashes; fails unless its length
    /// is a multiple of twenty.
    pub fn from_bytes(v: &[u8]) -> (r: Result<HashList, HashListError>)
        ensures
            r is Err <==> v@.len() % 20 != 0,
            r matches Ok(h) ==> h@ == hash_chunks(v@),
    {
        if v.len() % 20 != 0 {
            return Err(HashListError::InvalidLength);
        }
        let len = v.len();
        let n = len / 20;
        let mut out: Vec<[u8; 20]> = Vec::new();
        let mut i: usize = 0;
        while i < n
            invariant
                len == v@.len(),
                n == v@.len() / 20,
                i <= n,
                out@.len() == i,
                forall|j: int|
                    0 <= j < i ==> #[trigger] out@[j]@ == v@.subrange(20 * j, 20 * j + 20),
            decreases n - i,
        {
            proof {
                lemma_chunk_bounds(i as int, n as int, v@.len() as int);
            }
            assert(20 * i + 20 <= len);
            let base = 20 * i;
            let mut a: [u8; 20] = [0u8; 20];
            let mut k: usize = 0;
            while k < 20
                invariant
                    k <= 20,
                    len == v@.len(),
                    base + 20 <= len,
                    forall|t: int| 0 <= t < k ==> #[trigger] a@[t] == v@[base + t],
                decreases 20 - k,
            {
                a[k] = v[base + k];
                k = k + 1;
            }
            assert(a@ =~= v@.subrange(20 * i, 20 * i + 20));
            out.push(a);
            i = i + 1;
        }
        let h = HashList(out);
        assert(h@ =~= hash_chunks(v@));
        Ok(h)
    }

    /// The hashes one after the other, as one byte string.
    pub fn to_bytes(&self) -> (out: Vec<u8>)
        ensures
            out@ == concat_chunks(self@),
    {
        let mut out: Vec<u8> = Vec::new();
        let mut i: usize = 0;
        while i < self.0.len()
            invariant
                i <= self.0@.len(),
                out@ == concat_chunks(self@.take(i as int)),
            decreases self.0@.len() - i,
        {
            let a: &[u8; 20] = &self.0[i];
            let ghost before = out@;
            let mut k: usize = 0;
            while k < 20
                invariant
                    k <= 20,
                    out@ == before + a@.subrange(0, k as int),
                decreases 20 - k,
            {
                out.push(a[k]);
                k = k + 1;
                assert(out@ =~= before + a@.subrange(0, k as int));
            }
            assert(self@.take(i + 1).drop_last() =~= self@.take(i as int));
            assert(a@.subrange(0, 20) =~= a@);
            i = i + 1;
        }
        assert(self@.take(i as int) =~= self@);
        out
    }

    /// The number of hashes.
    pub fn len(&self) -> (n: usize)
        ensures
            n == self@.len(),
    {
        self.0.len()
    }
}

proof fn lemma_hash_chunks_drop_last(v: Seq<u8>)
    requires
        v.len() >= 20,
        v.len() % 20 == 0,
    ensures
        hash_chunks(v).drop_last() == hash_chunks(v.subrange(0, v.len() - 20)),
        hash_chunks(v).last() == v.subrange(v.len() - 20, v.len() as int),
        (v.len() - 20) % 20 == 0,
{
    let w = v.subrange(0, v.len() - 20);
    assert(w.len() / 20 == v.len() / 20 - 1);
    assert forall|i: int| 0 <= i < w.len() / 20 implies #[trigger] hash_chunks(v)[i] == hash_chunks(
        w,
    )[i] by {
        lemma_chunk_bounds(i, (w.len() / 20) as int, w.len() as int);
        assert(v.subrange(20 * i, 20 * i + 20) =~= w.subrange(20 * i, 20 * i + 20));
    }
    assert(hash_chunks(v).drop_last() =~= hash_chunks(w));
    assert(20 * (v.len() / 20 - 1) == v.len() - 20);
}

/// Splitting a byte string whose length is a multiple of twenty into hashes
/// and joining them again gives the byte string.
pub proof fn lemma_hash_bytes_roundtrip(v: Seq<u8>)
    requires
        v.len() % 20 == 0,
    ensures
        concat_chunks(hash_chunks(v)) == v,
    decreases v.len(),
{
    if v.len() == 0 {
        assert(hash_chunks(v) =~= Seq::<Seq<u8>>::empty());
        assert(concat_chunks(hash_chunks(v)) =~= v);
    } else {
        let w = v.subrange(0, v.len() - 20);
        lemma_hash_chunks_drop_last(v);
        lemma_hash_bytes_roundtrip(w);
        assert(concat_chunks(hash_chunks(v)) == concat_chunks(hash_chunks(w)) + v.subrange(
            v.len() - 20,
            v.len() as int,
        ));
        assert(w + v.subrange(v.len() - 20, v.len() as int) =~= v);
    }
}

proof fn lemma_concat_chunks_shape(s: Seq<Seq<u8>>)
    requires
        forall|i: int| 0 <= i < s.len() ==> (#[trigger] s[i]).len() == 20,
    ensures
        concat_chunks(s).len() == 20 * s.len(),
        forall|i: int|
            0 <= i < s.len() ==> #[trigger] concat_chunks(s).subrange(20 * i, 20 * i + 20) == s[i],
    decreases s.len(),
{
    if s.len() > 0 {
        let t = s.drop_last();
        lemma_concat_chunks_shape(t);
        let c = concat_chunks(s);
        assert(c == concat_chunks(t) + s.last());
        assert forall|i: int| 0 <= i < s.len() implies #[trigger] c.subrange(20 * i, 20 * i + 20)
            == s[i] by {
            if i < t.len() {
                assert(20 * i + 20 <= 20 * t.len()) by (nonlinear_arith)
                    requires
                        i < t.len(),
                ;
                assert(concat_chunks(t).subrange(20 * i, 20 * i + 20) == t[i]);
                assert(c.subrange(20 * i, 20 * i + 20) =~= concat_chunks(t).subrange(
                    20 * i,
                    20 * i + 20,
                ));
            } else {
                assert(c.subrange(20 * i, 20 * i + 20) =~= s.last());
            }
        }
    }
}

/// Joining hashes of twenty bytes each and splitting the result gives the
/// hashes.
pub proof fn lemma_hash_list_roundtrip(s: Seq<Seq<u8>>)
    requires
        forall|i: int| 0 <= i < s.len() ==> (#[trigger] s[i]).len() == 20,
    ensures
        hash_chunks(concat_chunks(s)) == s,
{
    lemma_concat_chunks_shape(s);
    let c = concat_chunks(s);
    assert(c.len() / 20 == s.len()) by (nonlinear_arith)
        requires
            c.len() == 20 * s.len(),
    ;
    assert(hash_chunks(c) =~= s);
}

/// The `info` dictionary of a torrent.
#[derive(Debug)]
pub struct Info {
    pub length: u64,
    pub name: String,
    pub piece_length: u64,
    pub pieces: HashList,
}

impl Info {
    /// The piece hashes in lowercase hexadecimal, in piece order.
    pub fn get_hashes(&self) -> (r: Vec<String>)
        ensures
            r@.len() == self.pieces@.len(),
            forall|i: int|
                0 <= i < r@.len() ==> (#[trigger] r@[i])@ == spec_hex_lower(self.pieces@[i]),
    {
        let mut r: Vec<String> = Vec::new();
        let mut i: usize = 0;
        while i < self.pieces.0.len()
            invariant
                i <= self.pieces@.len(),
                r@.len() == i,
                forall|j: int|
                    0 <= j < i ==> (#[trigger] r@[j])@ == spec_hex_lower(self.pieces@[j]),
            decreases self.pieces@.len() - i,
        {
            let a: &[u8; 20] = &self.pieces.0[i];
            r.push(hex_encode(a.as_slice()));
            i = i + 1;
        }
        r
    }

    /// The hash of piece `index` in lowercase hexadecimal.
    pub fn hash_by_index(&self, index: usize) -> (r: String)
        requires
            index < self.pieces@.len(),
        ensures
            r@ == spec_hex_lower(self.pieces@[index as int]),
    {
        let hashes = self.get_hashes();
        hashes[index].clone()
    }
}

/// A torrent's metainfo.
#[derive(Debug)]
pub struct Torrent {
    pub announce: String,
    pub created_by: String,
    pub info: Info,
}

/// The parameters of an announce request to a tracker.
#[derive(Debug)]
pub struct TorrentServerRequest {
    pub info_hash: String,
    pub peer_id: String,
    pub port: u16,
    pub uploaded: u64,
    pub downloaded: u64,
    pub left: u64,
    pub compact: u8,
}

/// One `key=value` pair of the query, the value's JSON rendering without
/// its quotation marks.
pub open spec fn query_pair(key: Seq<char>, rendered: Seq<char>) -> Seq<char> {
    key + seq!['='] + strip_quotes(rendered)
}

impl TorrentServerRequest {
    /// The query string: `?` and the fields as `key=value` pairs joined by
    /// `&`, in the alphabetical order of their names, each value as its JSON
    /// rendering with the quotation marks removed.
    pub open spec fn spec_query_string(self) -> Seq<char> {
        seq!['?'] + query_pair("compact"@, spec_decimal(self.compact as nat)) + seq!['&']
            + query_pair("downloaded"@, spec_decimal(self.downloaded as nat)) + seq!['&']
            + query_pair("info_hash"@, spec_json_string(self.info_hash@)) + seq!['&']
            + query_pair("left"@, spec_decimal(self.left as nat)) + seq!['&'] + query_pair(
            "peer_id"@,
            spec_json_string(self.peer_id@),
        ) + seq!['&'] + query_pair("port"@, spec_decimal(self.port as nat)) + seq!['&']
            + query_pair("uploaded"@, spec_decimal(self.uploaded as nat))
    }

    /// Renders the request as the query string of an announce URL.
    pub fn query_string(self) -> (q: String)
        ensures
            q@ == self.spec_query_string(),
    {
        let mut q = String::new();
        push_char(&mut q, '?');
        assert(q@ =~= seq!['?']);
        let v = json_u64(self.compact as u64);
        push_pair(&mut q, "compact", v.as_str());
        push_mark(&mut q, '&');
        let v = json_u64(self.downloaded);
        push_pair(&mut q, "downloaded", v.as_str());
        push_mark(&mut q, '&');
        let v = json_string(self.info_hash.as_str());
        push_pair(&mut q, "info_hash", v.as_str());
        push_mark(&mut q, '&');
        let v = json_u64(self.left);
        push_pair(&mut q, "left", v.as_str());
        push_mark(&mut q, '&');
        let v = json_string(self.peer_id.as_str());
        push_pair(&mut q, "peer_id", v.as_str());
        push_mark(&mut q, '&');
        let v = json_u64(self.port as u64);
        push_pair(&mut q, "port", v.as_str());
        push_mark(&mut q, '&');
        let v = json_u64(self.uploaded);
        push_pair(&mut q, "uploaded", v.as_str());
        q
    }
}

/// Appends one character, as a one-character sequence.
fn push_mark(q: &mut String, c: char)
    ensures
        final(q)@ == old(q)@ + seq![c],
{
    push_char(q, c);
    assert(q@ =~= old(q)@ + seq![c]);
}

/// Appends `key=value`, the value without its quotation marks.
fn push_pair(q: &mut String, key: &str, rendered: &str)
    ensures
        final(q)@ == old(q)@ + query_pair(key@, rendered@),
{
    q.append(key);
    push_char(q, '=');
    push_without_quotes(q, rendered);
    assert(q@ =~= old(q)@ + query_pair(key@, rendered@));
}

/// A tracker's answer: the peers in compact form, six bytes each.
#[derive(Debug)]
pub struct TorrentServerResponse {
    pub peers: Vec<u8>,
}

/// Where the download of one piece stands.
#[derive(Debug)]
pub enum PieceStatus {
    Pending,
    InProgress { peer_id: String, started_at: Instant, worker_id: String },
    Completed { written_to_disk: bool },
    Failed { retry_count: usize, last_error: String },
}

impl PieceStatus {
    /// A copy of this status.
    pub fn duplicate(&self) -> (r: PieceStatus)
        ensures
            r == *self,
    {
        match self {
            PieceStatus::Pending => PieceStatus::Pending,
            PieceStatus::InProgress { peer_id, started_at, worker_id } => PieceStatus::InProgress {
                peer_id: peer_id.clone(),
                started_at: *started_at,
                worker_id: worker_id.clone(),
            },
            PieceStatus::Completed { written_to_disk } => PieceStatus::Completed {
                written_to_disk: *written_to_disk,
            },
            PieceStatus::Failed { retry_count, last_error } => PieceStatus::Failed {
                retry_count: *retry_count,
                last_error: last_error.clone(),
            },
        }
    }
}

/// The counters of a download at one moment.
#[derive(Debug)]
pub struct DownloadProgress {
    pub completed_pieces: usize,
    pub in_progress_pieces: usize,
    pub failed_pieces: usize,
    pub total_pieces: usize,
    pub bytes_downloaded: u64,
    pub total_bytes: u64,
}

/// The abstract state of a download: the status of each piece and the
/// counters.
pub struct DownloadModel {
    pub statuses: Seq<PieceStatus>,
    pub completed: usize,
    pub in_progress: usize,
    pub failed: usize,
    pub total_pieces: usize,
    pub bytes_downloaded: u64,
    pub total_bytes: u64,
}

/// A counter after an increment that wraps at the top of `usize`.
pub open spec fn bump(x: usize) -> usize {
    if x == usize::MAX {
        0
    } else {
        (x + 1) as usize
    }
}

/// A counter after a decrement that wraps at zero.
pub open spec fn drop1(x: usize) -> usize {
    if x == 0 {
        usize::MAX
    } else {
        (x - 1) as usize
    }
}

/// The number of statuses that are `InProgress`.
pub open spec fn count_in_progress(s: Seq<PieceStatus>) -> nat
    decreases s.len(),
{
    if s.len() == 0 {
        0
    } else {
        count_in_progress(s.drop_last()) + if s.last() is InProgress {
            1nat
        } else {
            0nat
        }
    }
}

/// The state after piece `idx` takes `status`: the in-progress counter
/// follows the piece into and out of `InProgress`, and entering `Failed` or
/// `Completed` counts one more failure or completion, whatever the piece's
/// status was; the completion and failure counters never go down.
pub open spec fn with_status(m: DownloadModel, idx: int, status: PieceStatus) -> DownloadModel {
    let left = if m.statuses[idx] is InProgress {
        drop1(m.in_progress)
    } else {
        m.in_progress
    };
    DownloadModel {
        statuses: m.statuses.update(idx, status),
        in_progress: if status is InProgress {
            bump(left)
        } else {
            left
        },
        failed: if status is Failed {
            bump(m.failed)
        } else {
            m.failed
        },
        completed: if status is Completed {
            bump(m.completed)
        } else {
            m.completed
        },
        ..m
    }
}

/// The state after a piece is marked completed.
pub open spec fn after_completed(m: DownloadModel, idx: int) -> DownloadModel {
    with_status(m, idx, PieceStatus::Completed { written_to_disk: true })
}

/// The retry count that a failure of a piece in status `s` records.
pub open spec fn next_retry_count(s: PieceStatus) -> usize {
    match s {
        PieceStatus::Failed { retry_count, .. } => (retry_count + 1) as usize,
        _ => 1,
    }
}

/// The state after a piece is marked failed with `error`: its retry count
/// is one more than the last failure's, or one.
pub open spec fn after_failed(m: DownloadModel, idx: int, error: String) -> DownloadModel
    recommends
        0 <= idx < m.statuses.len(),
{
    with_status(
        m,
        idx,
        PieceStatus::Failed { retry_count: next_retry_count(m.statuses[idx]), last_error: error },
    )
}

/// The download state: the status of every piece and the counters of
/// completions, failures and pieces in progress.
pub struct DownloadState {
    piece_status: Vec<PieceStatus>,
    completed_pieces: usize,
    in_progress_pieces: usize,
    failed_pieces: usize,
    total_pieces: usize,
    bytes_downloaded: u64,
    total_bytes: u64,
}

impl View for DownloadState {
    type V = DownloadModel;

    closed spec fn view(&self) -> DownloadModel {
        DownloadModel {
            statuses: self.piece_status@,
            completed: self.completed_pieces,
            in_progress: self.in_progress_pieces,
            failed: self.failed_pieces,
            total_pieces: self.total_pieces,
            bytes_downloaded: self.bytes_downloaded,
            total_bytes: self.total_bytes,
        }
    }
}

/// The invariant of a download state: one status per piece, and the
/// in-progress counter equal to the number of pieces in progress.
pub open spec fn model_wf(m: DownloadModel) -> bool {
    &&& m.statuses.len() == m.total_pieces
    &&& m.in_progress == count_in_progress(m.statuses)
}

proof fn lemma_count_in_progress_bound(s: Seq<PieceStatus>)
    ensures
        count_in_progress(s) <= s.len(),
    decreases s.len(),
{
    if s.len() > 0 {
        lemma_count_in_progress_bound(s.drop_last());
    }
}

proof fn lemma_count_in_progress_update(s: Seq<PieceStatus>, i: int, x: PieceStatus)
    requires
        0 <= i < s.len(),
    ensures
        count_in_progress(s.update(i, x)) + (if s[i] is InProgress {
            1int
        } else {
            0int
        }) == count_in_progress(s) + (if x is InProgress {
            1int
        } else {
            0int
        }),
        s[i] is InProgress ==> count_in_progress(s) >= 1,
    decreases s.len(),
{
    let t = s.update(i, x);
    if i == s.len() - 1 {
        assert(t.drop_last() =~= s.drop_last());
    } else {
        lemma_count_in_progress_update(s.drop_last(), i, x);
        assert(t.drop_last() =~= s.drop_last().update(i, x));
    }
}

/// Setting a status keeps the invariant.
pub proof fn lemma_with_status_wf(m: DownloadModel, idx: int, status: PieceStatus)
    requires
        model_wf(m),
        0 <= idx < m.statuses.len(),
    ensures
        model_wf(with_status(m, idx, status)),
{
    lemma_count_in_progress_update(m.statuses, idx, status);
    lemma_count_in_progress_bound(m.statuses.update(idx, status));
}

impl DownloadState {
    /// The invariant of this state.
    pub open spec fn wf(&self) -> bool {
        model_wf(self@)
    }

    /// A download of `total_pieces` pieces, all pending, of `total_bytes` bytes.
    pub fn new(total_pieces: usize, total_bytes: u64) -> (s: DownloadState)
        ensures
            s.wf(),
            s@.statuses == Seq::new(total_pieces as nat, |i: int| PieceStatus::Pending),
            s@.completed == 0,
            s@.in_progress == 0,
            s@.failed == 0,
            s@.total_pieces == total_pieces,
            s@.bytes_downloaded == 0,
            s@.total_bytes == total_bytes,
    {
        let mut statuses: Vec<PieceStatus> = Vec::new();
        let mut i: usize = 0;
        while i < total_pieces
            invariant
                i <= total_pieces,
                statuses@ == Seq::new(i as nat, |j: int| PieceStatus::Pending),
                count_in_progress(statuses@) == 0,
            decreases total_pieces - i,
        {
            statuses.push(PieceStatus::Pending);
            i = i + 1;
            assert(statuses@.drop_last() =~= Seq::new((i - 1) as nat, |j: int| PieceStatus::Pending));
            assert(statuses@ =~= Seq::new(i as nat, |j: int| PieceStatus::Pending));
        }
        DownloadState {
            piece_status: statuses,
            completed_pieces: 0,
            in_progress_pieces: 0,
            failed_pieces: 0,
            total_pieces,
            bytes_downloaded: 0,
            total_bytes,
        }
    }

    /// The status of piece `piece_idx`.
    pub fn get_piece_status(&self, piece_idx: usize) -> (r: PieceStatus)
        requires
            self.wf(),
            piece_idx < self@.total_pieces,
        ensures
            r == self@.statuses[piece_idx as int],
    {
        self.piece_status[piece_idx].duplicate()
    }

    /// Gives piece `piece_idx` a new status and updates the counters.
    fn set_piece_status(&mut self, piece_idx: usize, status: PieceStatus)
        requires
            old(self).wf(),
            piece_idx < old(self)@.total_pieces,
        ensures
            final(self).wf(),
            final(self)@ == with_status(old(self)@, piece_idx as int, status),
    {
        proof {
            lemma_with_status_wf(self@, piece_idx as int, status);
            lemma_count_in_progress_update(self@.statuses, piece_idx as int, status);
            lemma_count_in_progress_bound(self@.statuses.update(piece_idx as int, status));
        }
        let was_in_progress = match &self.piece_status[piece_idx] {
            PieceStatus::InProgress { .. } => true,
            _ => false,
        };
        let entering = match &status {
            PieceStatus::InProgress { .. } => 1u8,
            PieceStatus::Failed { .. } => 2u8,
            PieceStatus::Completed { .. } => 3u8,
            PieceStatus::Pending => 0u8,
        };
        self.piece_status.set(piece_idx, status);
        if was_in_progress {
            self.in_progress_pieces = self.in_progress_pieces - 1;
        }
        if entering == 1 {
            self.in_progress_pieces = self.in_progress_pieces + 1;
        } else if entering == 2 {
            self.failed_pieces = wrapping_increment(self.failed_pieces);
        } else if entering == 3 {
            self.completed_pieces = wrapping_increment(self.completed_pieces);
        }
    }

    /// Marks piece `piece_idx` as being downloaded from `peer_id` by
    /// `worker_id`, from now on.
    pub fn mark_piece_in_progress(&mut self, piece_idx: usize, peer_id: &str, worker_id: String)
        requires
            old(self).wf(),
            piece_idx < old(self)@.total_pieces,
        ensures
            final(self).wf(),
            final(self)@.statuses[piece_idx as int] matches PieceStatus::InProgress {
                peer_id: p,
                worker_id: w,
                ..
            } && p@ == peer_id@ && w == worker_id,
            final(self)@ == with_status(
                old(self)@,
                piece_idx as int,
                final(self)@.statuses[piece_idx as int],
            ),
    {
        let status = PieceStatus::InProgress {
            peer_id: peer_id.to_owned(),
            started_at: instant_now(),
            worker_id,
        };
        self.set_piece_status(piece_idx, status);
    }

    /// Marks piece `piece_idx` as downloaded and written, and counts one
    /// more completion.
    pub fn mark_piece_completed(&mut self, piece_idx: usize)
        requires
            old(self).wf(),
            piece_idx < old(self)@.total_pieces,
        ensures
            final(self).wf(),
            final(self)@ == after_completed(old(self)@, piece_idx as int),
            final(self)@.completed == bump(old(self)@.completed),
            final(self)@.failed == old(self)@.failed,
    {
        let status = PieceStatus::Completed { written_to_disk: true };
        self.set_piece_status(piece_idx, status);
    }

    /// Marks piece `piece_idx` as failed with `error`; the retry count is one
    /// more than the last failure's, or one.
    pub fn mark_piece_failed(&mut self, piece_idx: usize, error: String)
        requires
            old(self).wf(),
            piece_idx < old(self)@.total_pieces,
            !(old(self)@.statuses[piece_idx as int] matches PieceStatus::Failed { retry_count, .. }
                && retry_count == usize::MAX),
        ensures
            final(self).wf(),
            final(self)@ == after_failed(old(self)@, piece_idx as int, error),
            final(self)@.failed == bump(old(self)@.failed),
            final(self)@.completed == old(self)@.completed,
            final(self)@.statuses[piece_idx as int] == (PieceStatus::Failed {
                retry_count: next_retry_count(old(self)@.statuses[piece_idx as int]),
                last_error: error,
            }),
    {
        let retry_count = match &self.piece_status[piece_idx] {
            PieceStatus::Failed { retry_count, .. } => *retry_count + 1,
            _ => 1,
        };
        let status = PieceStatus::Failed { retry_count, last_error: error };
        self.set_piece_status(piece_idx, status);
    }

    /// Puts piece `piece_idx` back to pending.
    pub fn reset_piece_to_pending(&mut self, piece_idx: usize)
        requires
            old(self).wf(),
            piece_idx < old(self)@.total_pieces,
        ensures
            final(self).wf(),
            final(self)@ == with_status(old(self)@, piece_idx as int, PieceStatus::Pending),
    {
        self.set_piece_status(piece_idx, PieceStatus::Pending);
    }

    /// The counters as they stand.
    pub fn get_progress_snapshot(&self) -> (p: DownloadProgress)
        ensures
            p.completed_pieces == self@.completed,
            p.in_progress_pieces == self@.in_progress,
            p.failed_pieces == self@.failed,
            p.total_pieces == self@.total_pieces,
            p.bytes_downloaded == self@.bytes_downloaded,
            p.total_bytes == self@.total_bytes,
    {
        DownloadProgress {
            completed_pieces: self.completed_pieces,
            in_progress_pieces: self.in_progress_pieces,
            failed_pieces: self.failed_pieces,
            total_pieces: self.total_pieces,
            bytes_downloaded: self.bytes_downloaded,
            total_bytes: self.total_bytes,
        }
    }

    /// Whether the completion counter has reached the number of pieces.
    pub fn is_complete(&self) -> (b: bool)
        ensures
            b == (self@.completed == self@.total_pieces),
    {
        self.completed_pieces == self.total_pieces
    }
}

/// Increments a counter, wrapping at the top of `usize`.
fn wrapping_increment(x: usize) -> (r: usize)
    ensures
        r == bump(x),
{
    if x == usize::MAX {
        0
    } else {
        x + 1
    }
}

/// The command line: the one command of the client.
#[derive(Debug)]
pub struct Args {
    pub command: Command,
}

/// What the client is asked to do.
#[derive(Debug)]
pub enum Command {
    /// Download the torrent at `torrent_path` to the file `output`.
    Download { output: String, torrent_path: String },
}

impl vstd::std_specs::convert::TryFromSpecImpl<u8> for MessageTypes {
    /// The error of a failed conversion is a `String`, which no spec value
    /// stands for; the contract of `try_from` below says what it returns.
    open spec fn obeys_try_from_spec() -> bool {
        false
    }

    open spec fn try_from_spec(v: u8) -> Result<MessageTypes, String> {
        match Self::spec_from_byte(v) {
            Some(t) => Ok(t),
            None => Err(arbitrary()),
        }
    }
}

impl TryFrom<u8> for MessageTypes {
    type Error = String;

    fn try_from(value: u8) -> (r: Result<MessageTypes, String>)
        ensures
            r matches Ok(t) ==> Self::spec_from_byte(value) == Some(t),
            r matches Err(e) ==> Self::spec_from_byte(value) is None
                && e@ == Self::unknown_type_text(value),
    {
        Self::try_from_byte(value)
    }
}

/// Starting a pending piece and putting it back to pending leaves the
/// download state as it was.
pub proof fn lemma_reset_undoes_start(m: DownloadModel, idx: int, started: PieceStatus)
    requires
        model_wf(m),
        0 <= idx < m.statuses.len(),
        m.statuses[idx] == PieceStatus::Pending,
        started is InProgress,
    ensures
        with_status(with_status(m, idx, started), idx, PieceStatus::Pending) == m,
{
    lemma_count_in_progress_update(m.statuses, idx, started);
    lemma_count_in_progress_bound(m.statuses.update(idx, started));
    let n = with_status(m, idx, started);
    assert(n.statuses.update(idx, PieceStatus::Pending) =~= m.statuses);
}

/// Whatever status replaces whatever status of a piece, the in-progress
/// counter stays the number of pieces in progress; the completion counter
/// goes up by one exactly when the new status is `Completed`, and the
/// failure counter exactly when it is `Failed`.
pub proof fn lemma_counters_follow_statuses(m: DownloadModel, idx: int, status: PieceStatus)
    requires
        model_wf(m),
        0 <= idx < m.statuses.len(),
    ensures
        with_status(m, idx, status).in_progress == count_in_progress(with_status(m, idx, status).statuses),
        with_status(m, idx, status).completed == if status is Completed {
            bump(m.completed)
        } else {
            m.completed
        },
        with_status(m, idx, status).failed == if status is Failed {
            bump(m.failed)
        } else {
            m.failed
        },
{
    lemma_with_status_wf(m, idx, status);
}

/// The state after a sequence of status changes, each a piece and the
/// status it takes, applied in order.
pub open spec fn after_steps(m: DownloadModel, steps: Seq<(int, PieceStatus)>) -> DownloadModel
    decreases steps.len(),
{
    if steps.len() == 0 {
        m
    } else {
        with_status(after_steps(m, steps.drop_last()), steps.last().0, steps.last().1)
    }
}

/// Over any sequence of status changes of pieces of the download, the
/// number of pieces, the size and the bytes downloaded stay as they were,
/// and the invariant holds after each change.
pub proof fn lemma_steps_keep_totals(m: DownloadModel, steps: Seq<(int, PieceStatus)>)
    requires
        model_wf(m),
        forall|k: int| 0 <= k < steps.len() ==> 0 <= (#[trigger] steps[k]).0 < m.total_pieces,
    ensures
        model_wf(after_steps(m, steps)),
        after_steps(m, steps).total_pieces == m.total_pieces,
        after_steps(m, steps).total_bytes == m.total_bytes,
        after_steps(m, steps).bytes_downloaded == m.bytes_downloaded,
    decreases steps.len(),
{
    if steps.len() > 0 {
        let rest = steps.drop_last();
        assert forall|k: int| 0 <= k < rest.len() implies 0 <= (#[trigger] rest[k]).0 < m.total_pieces by {
            assert(rest[k] == steps[k]);
        }
        lemma_steps_keep_totals(m, rest);
        let last = steps[steps.len() - 1];
        lemma_with_status_wf(after_steps(m, rest), last.0, last.1);
    }
}

/// The status changes that mark each piece of `idxs` completed, in order.
pub open spec fn completions(idxs: Seq<int>) -> Seq<(int, PieceStatus)> {
    idxs.map_values(|i: int| (i, PieceStatus::Completed { written_to_disk: true }))
}

proof fn lemma_completions_count(m: DownloadModel, idxs: Seq<int>)
    requires
        model_wf(m),
        m.completed == 0,
        forall|i: int| 0 <= i < m.total_pieces ==> !(#[trigger] m.statuses[i] is Completed),
        idxs.len() <= m.total_pieces,
        forall|k: int| 0 <= k < idxs.len() ==> 0 <= #[trigger] idxs[k] < m.total_pieces,
    ensures
        after_steps(m, completions(idxs)).completed == idxs.len(),
        after_steps(m, completions(idxs)).statuses.len() == m.total_pieces,
        after_steps(m, completions(idxs)).total_pieces == m.total_pieces,
        forall|i: int|
            0 <= i < m.total_pieces ==> ((#[trigger] after_steps(m, completions(idxs)).statuses[i]) is Completed
                <==> idxs.contains(i)),
    decreases idxs.len(),
{
    let steps = completions(idxs);
    assert forall|k: int| 0 <= k < steps.len() implies 0 <= (#[trigger] steps[k]).0 < m.total_pieces by {
        assert(steps[k].0 == idxs[k]);
    }
    lemma_steps_keep_totals(m, steps);
    if idxs.len() > 0 {
        let rest = idxs.drop_last();
        assert(steps.drop_last() =~= completions(rest));
        lemma_completions_count(m, rest);
        let prev = after_steps(m, completions(rest));
        let last = idxs[idxs.len() - 1];
        assert(steps.last() == (last, PieceStatus::Completed { written_to_disk: true }));
        assert forall|i: int| 0 <= i < m.total_pieces implies ((#[trigger] after_steps(m, steps).statuses[i]) is Completed
            <==> idxs.contains(i)) by {
            if i == last {
                assert(idxs[idxs.len() - 1] == i);
            } else {
                if rest.contains(i) {
                    let k = choose|k: int| 0 <= k < rest.len() && rest[k] == i;
                    assert(idxs[k] == i);
                }
                if idxs.contains(i) {
                    let k = choose|k: int| 0 <= k < idxs.len() && idxs[k] == i;
                    assert(rest[k] == i);
                }
            }
        }
    } else {
        assert forall|i: int| 0 <= i < m.total_pieces implies !((#[trigger] after_steps(m, steps).statuses[i]) is Completed)
            && !idxs.contains(i) by {
        }
    }
}

/// From a fresh download, marking each piece of a set of distinct pieces
/// completed exactly once counts one completion per piece: the download is
/// complete exactly when the set holds every piece, and then every piece is
/// completed.
pub proof fn lemma_marking_each_piece_once(m: DownloadModel, idxs: Seq<int>)
    requires
        model_wf(m),
        m.completed == 0,
        forall|i: int| 0 <= i < m.total_pieces ==> !(#[trigger] m.statuses[i] is Completed),
        idxs.no_duplicates(),
        forall|k: int| 0 <= k < idxs.len() ==> 0 <= #[trigger] idxs[k] < m.total_pieces,
    ensures
        after_steps(m, completions(idxs)).completed == idxs.len(),
        (after_steps(m, completions(idxs)).completed == after_steps(m, completions(idxs)).total_pieces)
            <==> idxs.len() == m.total_pieces,
        after_steps(m, completions(idxs)).completed == after_steps(m, completions(idxs)).total_pieces
            ==> forall|i: int| 0 <= i < m.total_pieces ==> (#[trigger] after_steps(m, completions(idxs)).statuses[i]) is Completed,
{
    let range = vstd::set_lib::set_int_range(0, m.total_pieces as int);
    vstd::set_lib::lemma_int_range(0, m.total_pieces as int);
    idxs.unique_seq_to_set();
    assert(idxs.to_set().subset_of(range));
    vstd::set_lib::lemma_len_subset(idxs.to_set(), range);
    lemma_completions_count(m, idxs);
    if idxs.len() == m.total_pieces {
        vstd::set_lib::lemma_subset_equality(idxs.to_set(), range);
        assert forall|i: int| 0 <= i < m.total_pieces implies (#[trigger] after_steps(m, completions(idxs)).statuses[i]) is Completed by {
            assert(range.contains(i));
            assert(idxs.to_set().contains(i));
        }
    }
}

} // verus!
