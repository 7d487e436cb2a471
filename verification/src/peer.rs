//! Remote peers: their addresses in compact form, the bookkeeping of their
//! connection and load, the handshake, and the plan by which a piece is
//! fetched from one of them in blocks.

use vstd::prelude::*;
use std::time::Instant;
use crate::clock::instant_now;
use crate::digest::{hex_encode, spec_sha1};
use crate::text::{lemma_hex_lower_injective, spec_hex_lower};
use vstd::string::StringSliceAdditionalSpecFns;
use crate::types::{be_bytes, Message, MessageTypes, Torrent};
use crate::utils::{verify_piece_hash, lemma_pieces_tile_file};
use crate::utils::{
    calc_piece_offset, get_piece_size, piece_arith_ok, spec_piece_offset, spec_piece_size,
    spec_total_pieces,
};

verus! {

/// The largest block requested from a peer at once.
pub const BLOCK_SIZE: i32 = 16384;

/// An IPv4 address and port.
#[derive(Debug, Clone, Copy)]
pub struct PeerAddress {
    pub ip: [u8; 4],
    pub port: u16,
}

/// Counters of a peer's work.
#[derive(Debug)]
pub struct PeerStats {
    active_downloads: usize,
    completed_pieces: usize,
    failed_pieces: usize,
    total_download_time_ms: u64,
    last_activity: Instant,
    connection_failures: usize,
}

/// A counter after an increment that wraps at the top of `usize`.
pub open spec fn wrap_inc(x: usize) -> usize {
    if x == usize::MAX {
        0
    } else {
        (x + 1) as usize
    }
}

/// A counter after a decrement that wraps at zero.
pub open spec fn wrap_dec(x: usize) -> usize {
    if x == 0 {
        usize::MAX
    } else {
        (x - 1) as usize
    }
}

/// A sum that wraps at the top of `u64`.
pub open spec fn wrap_add_u64(x: u64, y: u64) -> u64 {
    if x + y <= u64::MAX {
        (x + y) as u64
    } else {
        (x + y - u64::MAX - 1) as u64
    }
}

fn inc(x: usize) -> (r: usize)
    ensures
        r == wrap_inc(x),
{
    if x == usize::MAX {
        0
    } else {
        x + 1
    }
}

fn dec(x: usize) -> (r: usize)
    ensures
        r == wrap_dec(x),
{
    if x == 0 {
        usize::MAX
    } else {
        x - 1
    }
}

fn add_u64(x: u64, y: u64) -> (r: u64)
    ensures
        r == wrap_add_u64(x, y),
{
    if x <= u64::MAX - y {
        x + y
    } else {
        y - (u64::MAX - x) - 1
    }
}

impl PeerStats {
    /// Pieces being downloaded from the peer now.
    pub closed spec fn active(&self) -> usize {
        self.active_downloads
    }

    /// Pieces downloaded from the peer.
    pub closed spec fn completed(&self) -> usize {
        self.completed_pieces
    }

    /// Pieces that failed with the peer.
    pub closed spec fn failed(&self) -> usize {
        self.failed_pieces
    }

    /// Milliseconds spent on completed pieces.
    pub closed spec fn download_time_ms(&self) -> u64 {
        self.total_download_time_ms
    }

    /// Failed attempts to connect to the peer.
    pub closed spec fn connection_failures(&self) -> usize {
        self.connection_failures
    }

    /// All counters at zero.
    pub fn new() -> (s: PeerStats)
        ensures
            s.active() == 0,
            s.completed() == 0,
            s.failed() == 0,
            s.download_time_ms() == 0,
            s.connection_failures() == 0,
    {
        PeerStats {
            active_downloads: 0,
            completed_pieces: 0,
            failed_pieces: 0,
            total_download_time_ms: 0,
            last_activity: instant_now(),
            connection_failures: 0,
        }
    }

    /// A copy of these counters.
    pub fn duplicate(&self) -> (s: PeerStats)
        ensures
            s == *self,
    {
        PeerStats {
            active_downloads: self.active_downloads,
            completed_pieces: self.completed_pieces,
            failed_pieces: self.failed_pieces,
            total_download_time_ms: self.total_download_time_ms,
            last_activity: self.last_activity,
            connection_failures: self.connection_failures,
        }
    }

    /// One more download in progress.
    pub fn increment_active(&mut self)
        ensures
            final(self).active() == wrap_inc(old(self).active()),
            final(self).completed() == old(self).completed(),
            final(self).failed() == old(self).failed(),
            final(self).download_time_ms() == old(self).download_time_ms(),
            final(self).connection_failures() == old(self).connection_failures(),
    {
        self.active_downloads = inc(self.active_downloads);
    }

    /// One download fewer in progress.
    pub fn decrement_active(&mut self)
        ensures
            final(self).active() == wrap_dec(old(self).active()),
            final(self).completed() == old(self).completed(),
            final(self).failed() == old(self).failed(),
            final(self).download_time_ms() == old(self).download_time_ms(),
            final(self).connection_failures() == old(self).connection_failures(),
    {
        self.active_downloads = dec(self.active_downloads);
    }

    /// One more completed piece, which took `download_time_ms`.
    pub fn record_completion(&mut self, download_time_ms: u64)
        ensures
            final(self).active() == old(self).active(),
            final(self).completed() == wrap_inc(old(self).completed()),
            final(self).failed() == old(self).failed(),
            final(self).download_time_ms() == wrap_add_u64(
                old(self).download_time_ms(),
                download_time_ms,
            ),
            final(self).connection_failures() == old(self).connection_failures(),
    {
        self.completed_pieces = inc(self.completed_pieces);
        self.total_download_time_ms = add_u64(self.total_download_time_ms, download_time_ms);
    }

    /// One more failed piece.
    pub fn record_failure(&mut self)
        ensures
            final(self).active() == old(self).active(),
            final(self).completed() == old(self).completed(),
            final(self).failed() == wrap_inc(old(self).failed()),
            final(self).download_time_ms() == old(self).download_time_ms(),
            final(self).connection_failures() == old(self).connection_failures(),
    {
        self.failed_pieces = inc(self.failed_pieces);
    }

    /// One more failed connection.
    pub fn record_connection_failure(&mut self)
        ensures
            final(self).active() == old(self).active(),
            final(self).completed() == old(self).completed(),
            final(self).failed() == old(self).failed(),
            final(self).download_time_ms() == old(self).download_time_ms(),
            final(self).connection_failures() == wrap_inc(old(self).connection_failures()),
    {
        self.connection_failures = inc(self.connection_failures);
    }

    /// The completed pieces and the milliseconds they took, when both are
    /// non-zero; the average speed is the first divided by the second.
    pub fn average_speed_parts(&self) -> (r: Option<(usize, u64)>)
        ensures
            (self.download_time_ms() == 0 || self.completed() == 0) <==> r is None,
            r matches Some(p) ==> p.0 == self.completed() && p.1 == self.download_time_ms(),
    {
        if self.total_download_time_ms == 0 || self.completed_pieces == 0 {
            None
        } else {
            Some((self.completed_pieces, self.total_download_time_ms))
        }
    }

    /// The peer's load: its downloads in progress.
    pub fn get_load_score(&self) -> (n: usize)
        ensures
            n == self.active(),
    {
        self.active_downloads
    }
}

/// The number of starts (`true`) among a sequence of downloads started and
/// finished.
pub open spec fn starts(ops: Seq<bool>) -> nat
    decreases ops.len(),
{
    if ops.len() == 0 {
        0
    } else {
        starts(ops.drop_last()) + if ops.last() {
            1nat
        } else {
            0nat
        }
    }
}

/// The number of finishes (`false`) among a sequence of downloads started
/// and finished.
pub open spec fn finishes(ops: Seq<bool>) -> nat
    decreases ops.len(),
{
    if ops.len() == 0 {
        0
    } else {
        finishes(ops.drop_last()) + if ops.last() {
            0nat
        } else {
            1nat
        }
    }
}

/// The active counter after `increment_active` for each start and
/// `decrement_active` for each finish, in order, from `active`.
pub open spec fn load_after(active: usize, ops: Seq<bool>) -> usize
    decreases ops.len(),
{
    if ops.len() == 0 {
        active
    } else if ops.last() {
        wrap_inc(load_after(active, ops.drop_last()))
    } else {
        wrap_dec(load_after(active, ops.drop_last()))
    }
}

/// A peer's load is its downloads started less those finished: from fresh
/// counters, after any sequence of starts and finishes in which no prefix
/// finishes more than it starts (and fewer than `usize::MAX` start), the
/// load is the number of starts minus the number of finishes. The other
/// calls on the counters leave the load as it is.
pub proof fn lemma_load_is_starts_minus_finishes(ops: Seq<bool>)
    requires
        forall|k: int| 0 <= k <= ops.len() ==> finishes(#[trigger] ops.take(k)) <= starts(ops.take(k)),
        starts(ops) < usize::MAX,
    ensures
        load_after(0, ops) == starts(ops) - finishes(ops),
    decreases ops.len(),
{
    if ops.len() > 0 {
        let rest = ops.drop_last();
        assert forall|k: int| 0 <= k <= rest.len() implies finishes(#[trigger] rest.take(k)) <= starts(rest.take(k)) by {
            assert(rest.take(k) =~= ops.take(k));
        }
        lemma_load_is_starts_minus_finishes(rest);
        assert(ops.take(ops.len() as int) =~= ops);
    }
}

impl Clone for PeerStats {
    fn clone(&self) -> (s: Self)
        ensures
            s == *self,
    {
        self.duplicate()
    }
}

/// Whether `a` is the address that six bytes of a compact peer list spell:
/// four bytes of IPv4 address, then the port, most significant byte first.
pub open spec fn address_of_bytes(a: PeerAddress, b: Seq<u8>) -> bool {
    &&& a.ip@ == b.subrange(0, 4)
    &&& a.port == b[4] as int * 256 + b[5] as int
}

/// Whether bit `k` of a byte, counted from the most significant, is set.
pub open spec fn bit_set(byte: u8, k: int) -> bool {
    ((byte >> ((7 - k) as u8)) & 1u8) == 1u8
}

/// The view of an optional message.
pub open spec fn opt_message_view(m: Option<Message>) -> Option<(i32, MessageTypes, Seq<u8>)> {
    match m {
        Some(m) => Some(m@),
        None => None,
    }
}

/// A remote peer: its address, the id it gave in the handshake, the
/// bitfield it sent, whether it is connected, and its counters.
pub struct Peer {
    pub address: PeerAddress,
    pub id: Option<String>,
    pub bitfield: Option<Message>,
    pub is_connected: bool,
    pub stats: PeerStats,
}

/// Why the handshake with a peer did not succeed.
#[derive(Debug, Clone, Copy, PartialEq, Eq, Structural)]
pub enum PeerError {
    /// The peer did not answer with a first message.
    HandshakeFailed,
}

/// Whether a bitfield marks piece `piece_idx`: piece `i` is bit `i % 8`,
/// counted from the most significant, of byte `i / 8`.
pub open spec fn bitfield_has(payload: Seq<u8>, piece_idx: int) -> bool {
    0 <= piece_idx && piece_idx / 8 < payload.len() && bit_set(payload[piece_idx / 8], piece_idx % 8)
}

/// What `Peer::has_piece` answers: whether the peer's bitfield, if it sent
/// one, marks the piece.
pub open spec fn spec_has_piece(bitfield: Option<Message>, piece_idx: int) -> bool {
    match bitfield {
        Some(m) => bitfield_has(m.payload@, piece_idx),
        None => false,
    }
}

/// The ASCII bytes of the protocol name in the handshake.
pub open spec fn protocol_name() -> Seq<u8> {
    "BitTorrent protocol".spec_bytes()
}

/// The handshake that opens a connection: the length of the protocol name,
/// the name, eight reserved zero bytes, the info hash and our peer id.
pub open spec fn spec_handshake(info_hash: Seq<u8>, peer_id: Seq<u8>) -> Seq<u8> {
    seq![19u8] + protocol_name() + Seq::new(8, |i: int| 0u8) + info_hash + peer_id
}

/// Appends a byte string to a byte vector.
fn extend_bytes(out: &mut Vec<u8>, b: &[u8])
    ensures
        final(out)@ == old(out)@ + b@,
{
    let mut i: usize = 0;
    while i < b.len()
        invariant
            i <= b@.len(),
            out@ == old(out)@ + b@.subrange(0, i as int),
        decreases b@.len() - i,
    {
        out.push(b[i]);
        i = i + 1;
        assert(out@ =~= old(out)@ + b@.subrange(0, i as int));
    }
    assert(b@.subrange(0, i as int) =~= b@);
}

/// The handshake that opens a connection to a peer.
pub fn build_handshake(info_hash: &[u8], peer_id: &str) -> (out: Vec<u8>)
    ensures
        out@ == spec_handshake(info_hash@, peer_id.spec_bytes()),
{
    let mut out: Vec<u8> = Vec::new();
    out.push(19u8);
    extend_bytes(&mut out, "BitTorrent protocol".as_bytes());
    let mut i: usize = 0;
    while i < 8
        invariant
            i <= 8,
            out@ == seq![19u8] + protocol_name() + Seq::new(i as nat, |j: int| 0u8),
        decreases 8 - i,
    {
        out.push(0u8);
        i = i + 1;
        assert(out@ =~= seq![19u8] + protocol_name() + Seq::new(i as nat, |j: int| 0u8));
    }
    extend_bytes(&mut out, info_hash);
    extend_bytes(&mut out, peer_id.as_bytes());
    out
}

/// The payload of a request for `length` bytes at `begin` of piece `index`.
pub open spec fn spec_request_payload(index: i32, begin: i32, length: i32) -> Seq<u8> {
    be_bytes(index as u32) + be_bytes(begin as u32) + be_bytes(length as u32)
}

/// Appends the four big-endian bytes of a signed word.
fn push_i32(out: &mut Vec<u8>, x: i32)
    ensures
        final(out)@ == old(out)@ + be_bytes(x as u32),
{
    let u = x as u32;
    out.push((u >> 24u32) as u8);
    out.push((u >> 16u32) as u8);
    out.push((u >> 8u32) as u8);
    out.push(u as u8);
    assert(out@ =~= old(out)@ + be_bytes(x as u32));
}

/// The request for `length` bytes at `begin` of piece `index`.
pub fn request_message(index: i32, begin: i32, length: i32) -> (m: Message)
    ensures
        m.id == MessageTypes::Request,
        m.payload@ == spec_request_payload(index, begin, length),
        m.prefix == 13,
{
    let mut payload: Vec<u8> = Vec::new();
    push_i32(&mut payload, index);
    push_i32(&mut payload, begin);
    push_i32(&mut payload, length);
    assert(payload@ =~= spec_request_payload(index, begin, length));
    Message::new(MessageTypes::Request, payload.as_slice())
}

impl Peer {
    /// The invariant of a peer: a connected peer has given its id.
    pub open spec fn wf(&self) -> bool {
        self.is_connected ==> self.id is Some
    }

    /// Whether this peer is fresh: no id, no bitfield, not connected and all
    /// counters at zero.
    pub open spec fn is_fresh(&self) -> bool {
        &&& self.id is None
        &&& self.bitfield is None
        &&& !self.is_connected
        &&& self.stats.active() == 0
        &&& self.stats.completed() == 0
        &&& self.stats.failed() == 0
        &&& self.stats.download_time_ms() == 0
        &&& self.stats.connection_failures() == 0
    }

    /// A fresh peer at `address`.
    pub fn from_socket(address: PeerAddress) -> (p: Peer)
        ensures
            p.address == address,
            p.is_fresh(),
            p.wf(),
    {
        Peer { address, id: None, bitfield: None, is_connected: false, stats: PeerStats::new() }
    }

    /// A fresh peer at the address that the first six bytes spell.
    pub fn new(bytes: &[u8]) -> (p: Peer)
        requires
            bytes@.len() >= 6,
        ensures
            address_of_bytes(p.address, bytes@),
            p.is_fresh(),
            p.wf(),
    {
        let ip: [u8; 4] = [bytes[0], bytes[1], bytes[2], bytes[3]];
        let port = (bytes[4] as u16) * 256 + (bytes[5] as u16);
        assert(ip@ =~= bytes@.subrange(0, 4));
        Peer::from_socket(PeerAddress { ip, port })
    }

    /// The peers of a compact list, six bytes each; a shorter tail is
    /// ignored.
    pub fn from_bytes(bytes: &[u8]) -> (peers: Vec<Peer>)
        ensures
            peers@.len() == bytes@.len() / 6,
            forall|i: int|
                0 <= i < peers@.len() ==> address_of_bytes(
                    #[trigger] peers@[i].address,
                    bytes@.subrange(6 * i, 6 * i + 6),
                ) && peers@[i].is_fresh() && peers@[i].wf(),
    {
        let len = bytes.len();
        let n = len / 6;
        let mut peers: Vec<Peer> = Vec::new();
        let mut i: usize = 0;
        while i < n
            invariant
                len == bytes@.len(),
                n == len / 6,
                i <= n,
                peers@.len() == i,
                forall|j: int|
                    0 <= j < i ==> address_of_bytes(
                        #[trigger] peers@[j].address,
                        bytes@.subrange(6 * j, 6 * j + 6),
                    ) && peers@[j].is_fresh() && peers@[j].wf(),
            decreases n - i,
        {
            assert(6 * i + 6 <= len) by (nonlinear_arith)
                requires
                    i < n,
                    n == len / 6,
            ;
            let chunk = vstd::slice::slice_subrange(bytes, 6 * i, 6 * i + 6);
            peers.push(Peer::new(chunk));
            i = i + 1;
        }
        peers
    }

    /// Whether the peer's bitfield marks piece `piece_idx`: the bit
    /// `piece_idx % 8`, counted from the most significant, of byte
    /// `piece_idx / 8`.
    pub fn has_piece(&self, piece_idx: usize) -> (b: bool)
        ensures
            b == spec_has_piece(self.bitfield, piece_idx as int),
    {
        let byte_idx = piece_idx / 8;
        let bit_idx = piece_idx % 8;
        match &self.bitfield {
            Some(bitfield) => {
                if byte_idx < bitfield.payload.len() {
                    let byte = bitfield.payload[byte_idx];
                    ((byte >> ((7 - bit_idx) as u8)) & 1u8) == 1u8
                } else {
                    false
                }
            },
            None => false,
        }
    }

    /// Whether the peer is connected and has fewer than `max_concurrency`
    /// downloads in progress.
    pub fn can_accept_download(&self, max_concurrency: usize) -> (b: bool)
        ensures
            b == (self.is_connected && self.stats.active() < max_concurrency),
    {
        self.is_connected && self.stats.get_load_score() < max_concurrency
    }

    /// Whether the peer is connected.
    pub fn is_connected(&self) -> (b: bool)
        ensures
            b == self.is_connected,
    {
        self.is_connected
    }

    /// Marks the peer disconnected and counts a connection failure.
    pub fn mark_disconnected(&mut self)
        ensures
            !final(self).is_connected,
            final(self).stats.connection_failures() == wrap_inc(
                old(self).stats.connection_failures(),
            ),
            final(self).stats.active() == old(self).stats.active(),
            final(self).stats.completed() == old(self).stats.completed(),
            final(self).stats.failed() == old(self).stats.failed(),
            final(self).stats.download_time_ms() == old(self).stats.download_time_ms(),
            final(self).address == old(self).address,
            final(self).id == old(self).id,
            final(self).bitfield == old(self).bitfield,
            final(self).wf(),
    {
        self.is_connected = false;
        self.stats.record_connection_failure();
    }

    /// Records the peer's answer to our handshake: its id is the hexadecimal
    /// rendering of the last twenty of the sixty-eight bytes.
    pub fn set_remote_id(&mut self, reply: &[u8])
        requires
            reply@.len() == 68,
        ensures
            final(self).id matches Some(id) && id@ == spec_hex_lower(reply@.subrange(48, 68)),
            final(self).address == old(self).address,
            final(self).bitfield == old(self).bitfield,
            final(self).is_connected == old(self).is_connected,
            final(self).stats == old(self).stats,
            final(self).wf(),
    {
        let tail = vstd::slice::slice_subrange(reply, 48, 68);
        self.id = Some(hex_encode(tail));
    }

    /// Ends a handshake: with a first message from the peer, keeps it as the
    /// bitfield and marks the peer connected; without one, counts a
    /// connection failure and marks the peer disconnected.
    pub fn finish_handshake(&mut self, first_message: Option<Message>) -> (r: Result<
        (),
        PeerError,
    >)
        requires
            first_message is Some ==> old(self).id is Some,
        ensures
            r is Ok <==> first_message is Some,
            final(self).wf(),
            final(self).address == old(self).address,
            final(self).id == old(self).id,
            first_message is Some ==> final(self).is_connected && final(self).bitfield
                == first_message && final(self).stats == old(self).stats,
            first_message is None ==> !final(self).is_connected && final(self).bitfield
                == old(self).bitfield && final(self).stats.connection_failures() == wrap_inc(
                old(self).stats.connection_failures(),
            ) && final(self).stats.active() == old(self).stats.active()
                && final(self).stats.completed() == old(self).stats.completed()
                && final(self).stats.failed() == old(self).stats.failed()
                && final(self).stats.download_time_ms() == old(self).stats.download_time_ms(),
    {
        match first_message {
            Some(msg) => {
                self.bitfield = Some(msg);
                self.is_connected = true;
                Ok(())
            },
            None => {
                self.stats.record_connection_failure();
                self.is_connected = false;
                Err(PeerError::HandshakeFailed)
            },
        }
    }

    /// A copy of this peer.
    pub fn duplicate(&self) -> (p: Peer)
        ensures
            p.address == self.address,
            p.id == self.id,
            opt_message_view(p.bitfield) == opt_message_view(self.bitfield),
            p.is_connected == self.is_connected,
            p.stats == self.stats,
            self.wf() ==> p.wf(),
    {
        let id = match &self.id {
            Some(s) => Some(s.clone()),
            None => None,
        };
        let bitfield = match &self.bitfield {
            Some(m) => Some(m.clone()),
            None => None,
        };
        Peer {
            address: self.address,
            id,
            bitfield,
            is_connected: self.is_connected,
            stats: self.stats.duplicate(),
        }
    }
}

impl Clone for Peer {
    fn clone(&self) -> (p: Self)
        ensures
            p.address == self.address,
            p.id == self.id,
            opt_message_view(p.bitfield) == opt_message_view(self.bitfield),
            p.is_connected == self.is_connected,
            p.stats == self.stats,
    {
        self.duplicate()
    }
}

/// The eight bits of a byte as the characters `0` and `1`, most
/// significant first.
pub open spec fn byte_bits(v: u8) -> Seq<char> {
    Seq::new(8, |k: int| if bit_set(v, k) { '1' } else { '0' })
}

/// The bits of the bytes of a bitfield, one byte after the other.
pub open spec fn bitfield_bits(payload: Seq<u8>) -> Seq<char>
    decreases payload.len(),
{
    if payload.len() == 0 {
        Seq::empty()
    } else {
        bitfield_bits(payload.drop_last()) + byte_bits(payload.last())
    }
}

/// Character `i` of the bits of a bitfield is the bit that marks piece `i`.
pub proof fn lemma_bitfield_bits_index(payload: Seq<u8>, i: int)
    requires
        0 <= i < 8 * payload.len(),
    ensures
        bitfield_bits(payload).len() == 8 * payload.len(),
        bitfield_bits(payload)[i] == if bitfield_has(payload, i) { '1' } else { '0' },
    decreases payload.len(),
{
    let n = payload.len();
    let rest = payload.drop_last();
    lemma_bitfield_bits_len(rest);
    if i < 8 * (n - 1) {
        lemma_bitfield_bits_index(rest, i);
        assert(i / 8 < n - 1);
        assert(rest[i / 8] == payload[i / 8]);
    } else {
        assert(i / 8 == n - 1);
        assert(i % 8 == i - 8 * (n - 1));
    }
}

proof fn lemma_bitfield_bits_len(payload: Seq<u8>)
    ensures
        bitfield_bits(payload).len() == 8 * payload.len(),
    decreases payload.len(),
{
    if payload.len() > 0 {
        lemma_bitfield_bits_len(payload.drop_last());
    }
}

fn push_byte_bits(out: &mut Vec<char>, v: u8)
    ensures
        final(out)@ == old(out)@ + byte_bits(v),
{
    let mut k: u8 = 0;
    while k < 8
        invariant
            k <= 8,
            out@ == old(out)@ + byte_bits(v).subrange(0, k as int),
        decreases 8 - k,
    {
        let set = ((v >> (7 - k)) & 1u8) == 1u8;
        out.push(if set { '1' } else { '0' });
        k = k + 1;
        assert(out@ =~= old(out)@ + byte_bits(v).subrange(0, k as int));
    }
    assert(byte_bits(v).subrange(0, 8) =~= byte_bits(v));
}

/// Whether character `p_index` of the bitfield's bytes written in binary,
/// eight digits each and one after the other, is `1`: whether the bitfield
/// marks piece `p_index`.
pub fn peer_has_piece(bitfield: Message, p_index: usize) -> (b: bool)
    ensures
        b == (p_index < bitfield_bits(bitfield.payload@).len() && bitfield_bits(
            bitfield.payload@,
        )[p_index as int] == '1'),
        b == bitfield_has(bitfield.payload@, p_index as int),
{
    let mut bits: Vec<char> = Vec::new();
    let mut i: usize = 0;
    while i < bitfield.payload.len()
        invariant
            i <= bitfield.payload@.len(),
            bits@ == bitfield_bits(bitfield.payload@.subrange(0, i as int)),
        decreases bitfield.payload@.len() - i,
    {
        push_byte_bits(&mut bits, bitfield.payload[i]);
        assert(bitfield.payload@.subrange(0, i + 1).drop_last() =~= bitfield.payload@.subrange(
            0,
            i as int,
        ));
        i = i + 1;
    }
    assert(bitfield.payload@.subrange(0, i as int) =~= bitfield.payload@);
    proof {
        lemma_bitfield_bits_len(bitfield.payload@);
        if p_index < bits@.len() {
            lemma_bitfield_bits_index(bitfield.payload@, p_index as int);
        }
    }
    p_index < bits.len() && bits[p_index] == '1'
}

/// A request for `length` bytes at `begin` of piece `index`.
#[derive(Debug, Clone, Copy, PartialEq, Eq, Structural)]
pub struct BlockRequest {
    pub index: i32,
    pub begin: i32,
    pub length: i32,
}

/// The smaller of two block lengths.
pub open spec fn min_i32(a: i32, b: i32) -> i32 {
    if a <= b {
        a
    } else {
        b
    }
}

/// The fetching of one piece from a peer in blocks of at most
/// `BLOCK_SIZE` bytes, front to back: where the next block begins, what
/// remains, and the data received so far.
pub struct PieceDownload {
    piece_idx: usize,
    piece_offset: u64,
    piece_size: u64,
    begin: i32,
    remainder: i32,
    received: Vec<u8>,
}

impl PieceDownload {
    /// The index of the piece.
    pub closed spec fn index(&self) -> usize {
        self.piece_idx
    }

    /// Where the piece starts in the file.
    pub closed spec fn offset(&self) -> u64 {
        self.piece_offset
    }

    /// The length of the piece.
    pub closed spec fn size(&self) -> u64 {
        self.piece_size
    }

    /// The index of the piece.
    pub fn piece_index(&self) -> (i: usize)
        ensures
            i == self.index(),
    {
        self.piece_idx
    }

    /// The length of the piece.
    pub fn piece_len(&self) -> (n: u64)
        ensures
            n == self.size(),
    {
        self.piece_size
    }

    /// Where the next block begins within the piece.
    pub closed spec fn next_begin(&self) -> i32 {
        self.begin
    }

    /// The bytes of the piece not yet requested.
    pub closed spec fn remaining(&self) -> i32 {
        self.remainder
    }

    /// The data received so far, block after block.
    pub closed spec fn data(&self) -> Seq<u8> {
        self.received@
    }

    /// The invariant: what has been requested and what remains make up the
    /// piece, and the piece ends inside the 64-bit file offsets.
    pub open spec fn wf(&self) -> bool {
        &&& 0 <= self.next_begin()
        &&& 0 <= self.remaining()
        &&& self.next_begin() + self.remaining() == self.size()
        &&& self.offset() + self.size() <= u64::MAX
        &&& self.size() <= i32::MAX
    }

    /// Whether all blocks have been requested.
    pub open spec fn done(&self) -> bool {
        self.remaining() == 0
    }

    /// The fetching of piece `piece_idx` of the torrent, nothing requested
    /// yet.
    pub fn start(torrent: &Torrent, piece_idx: usize) -> (d: PieceDownload)
        requires
            piece_arith_ok(torrent.info.length, torrent.info.piece_length),
            piece_idx < spec_total_pieces(torrent.info.length, torrent.info.piece_length),
            spec_piece_size(torrent.info.length, torrent.info.piece_length, piece_idx as int)
                <= i32::MAX,
        ensures
            d.wf(),
            d.index() == piece_idx,
            d.offset() == spec_piece_offset(piece_idx as int, torrent.info.piece_length),
            d.size() == spec_piece_size(
                torrent.info.length,
                torrent.info.piece_length,
                piece_idx as int,
            ),
            d.next_begin() == 0,
            d.remaining() == d.size(),
            d.size() > 0,
            d.data() == Seq::<u8>::empty(),
    {
        proof {
            lemma_pieces_tile_file(torrent.info.length, torrent.info.piece_length);
            let t = spec_total_pieces(torrent.info.length, torrent.info.piece_length);
            let p = torrent.info.piece_length as int;
            let i = piece_idx as int;
            assert(spec_piece_size(torrent.info.length, torrent.info.piece_length, i) > 0);
            // Every piece ends within the file.
            assert(i * p + spec_piece_size(torrent.info.length, torrent.info.piece_length, i)
                <= torrent.info.length) by {
                if i < t - 1 {
                    assert(i * p + p <= (t - 1) * p) by (nonlinear_arith)
                        requires
                            i < t - 1,
                            p > 0,
                    ;
                    assert((t - 1) * p + spec_piece_size(
                        torrent.info.length,
                        torrent.info.piece_length,
                        t - 1,
                    ) == torrent.info.length);
                }
            }
        }
        let piece_offset = calc_piece_offset(piece_idx, torrent.info.piece_length);
        let piece_size = get_piece_size(torrent, piece_idx);
        PieceDownload {
            piece_idx,
            piece_offset,
            piece_size,
            begin: 0,
            remainder: piece_size as i32,
            received: Vec::new(),
        }
    }

    /// The next block to request: at most `BLOCK_SIZE` bytes where the last
    /// one ended; `None` once the whole piece has been requested.
    pub fn next_block(&self) -> (r: Option<BlockRequest>)
        requires
            self.wf(),
        ensures
            self.done() <==> r is None,
            r matches Some(b) ==> b.index == self.index() as i32 && b.begin
                == self.next_begin() && b.length == min_i32(BLOCK_SIZE, self.remaining()) && 0
                < b.length <= BLOCK_SIZE,
    {
        if self.remainder == 0 {
            None
        } else {
            let length = if BLOCK_SIZE <= self.remainder {
                BLOCK_SIZE
            } else {
                self.remainder
            };
            Some(BlockRequest { index: self.piece_idx as i32, begin: self.begin, length })
        }
    }

    /// Takes the answer to the block that `next_block` asked for: its data
    /// follows the eight bytes of piece index and offset. Returns where in
    /// the file the data goes and the data.
    pub fn accept_block(&mut self, block: &Message) -> (r: (u64, Vec<u8>))
        requires
            old(self).wf(),
            !old(self).done(),
            block.payload@.len() >= 8,
        ensures
            final(self).wf(),
            final(self).index() == old(self).index(),
            final(self).offset() == old(self).offset(),
            final(self).size() == old(self).size(),
            final(self).next_begin() == old(self).next_begin() + min_i32(
                BLOCK_SIZE,
                old(self).remaining(),
            ),
            final(self).remaining() == old(self).remaining() - min_i32(
                BLOCK_SIZE,
                old(self).remaining(),
            ),
            r.0 == old(self).offset() + old(self).next_begin(),
            r.1@ == block.payload@.subrange(8, block.payload@.len() as int),
            final(self).data() == old(self).data() + r.1@,
    {
        let length = if BLOCK_SIZE <= self.remainder {
            BLOCK_SIZE
        } else {
            self.remainder
        };
        let offset = self.piece_offset + self.begin as u64;
        let chunk = vstd::slice::slice_subrange(block.payload.as_slice(), 8, block.payload.len());
        let data = vstd::slice::slice_to_vec(chunk);
        extend_bytes(&mut self.received, chunk);
        self.remainder = self.remainder - length;
        self.begin = self.begin + length;
        (offset, data)
    }

    /// Whether the SHA-1 digest of the data received is the piece's hash in
    /// the torrent; the two are compared in lowercase hexadecimal.
    pub fn finish(&self, torrent: &Torrent) -> (b: bool)
        requires
            self.index() < torrent.info.pieces@.len(),
        ensures
            b == (spec_sha1(self.data()) == torrent.info.pieces@[self.index() as int]),
    {
        proof {
            lemma_hex_lower_injective(
                spec_sha1(self.data()),
                torrent.info.pieces@[self.index() as int],
            );
        }
        let expected = torrent.info.hash_by_index(self.piece_idx);
        verify_piece_hash(self.received.as_slice(), expected.as_str())
    }
}

/// Once every block has been requested, the blocks requested cover the
/// whole piece: the next one would begin at its end.
pub proof fn lemma_blocks_cover_piece(d: PieceDownload)
    requires
        d.wf(),
        d.done(),
    ensures
        d.next_begin() == d.size(),
{
}

} // verus!
