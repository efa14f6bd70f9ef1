//! Write-ahead log framing: the byte layout of one log entry, decoding of a
//! segment's bytes into entries, the segment file names, and the writer's
//! sync and rotation decisions.
//!
//! A frame is `magic(4) | seq(8) | timestamp(8) | payload_len(4) | crc(4) |
//! payload`, every integer little-endian; the CRC-32 covers the first 24
//! header bytes followed by the payload.

use vstd::prelude::*;
use crate::mod_validator::{all_digits, digit_value, digits_value, is_digit_spec, parse_u64_chars, parse_u64_spec};
use crate::text::{chars_of, decimal_chars, decimal_spec, digit_char_spec, string_of};

verus! {

/// The four bytes that open every frame: ASCII `WAL1`.
pub const FRAME_MAGIC: [u8; 4] = [0x57u8, 0x41u8, 0x4Cu8, 0x31u8];

/// Length of the fixed frame header in bytes.
pub const FRAME_HEADER_LEN: usize = 28;

/// Size after which the writer moves on to a new segment file (64 MiB).
pub const SEGMENT_ROTATE_BYTES: u64 = 67108864;

/// Unsynced bytes after which the writer issues a data sync (1 KiB).
pub const FSYNC_BYTE_THRESHOLD: u64 = 1024;

/// Time since the last sync, in microseconds, after which the writer issues
/// a data sync (1 ms).
pub const FSYNC_TIME_THRESHOLD_MICROS: u64 = 1000;

// ── Little-endian integers ────────────────────────────────────────────────

/// `256^n`.
pub open spec fn pow256(n: nat) -> nat
    decreases n,
{
    if n == 0 {
        1
    } else {
        256 * pow256((n - 1) as nat)
    }
}

/// The `n` low bytes of `v`, least significant first.
pub open spec fn le_bytes(v: nat, n: nat) -> Seq<u8>
    decreases n,
{
    if n == 0 {
        Seq::<u8>::empty()
    } else {
        seq![(v % 256) as u8] + le_bytes(v / 256, (n - 1) as nat)
    }
}

/// The number whose little-endian bytes are `s`.
pub open spec fn le_value(s: Seq<u8>) -> nat
    decreases s.len(),
{
    if s.len() == 0 {
        0
    } else {
        s[0] as nat + 256 * le_value(s.drop_first())
    }
}

proof fn lemma_pow256_facts()
    ensures
        pow256(4) == 0x1_0000_0000,
        pow256(7) == 0x100_0000_0000_0000,
        pow256(8) == 0x1_0000_0000_0000_0000,
{
    reveal_with_fuel(pow256, 9);
}

proof fn lemma_pow256_mono(a: nat, b: nat)
    requires
        a <= b,
    ensures
        pow256(a) <= pow256(b),
    decreases b,
{
    if a < b {
        lemma_pow256_mono(a, (b - 1) as nat);
    }
}

/// `le_bytes` yields exactly `n` bytes.
pub proof fn lemma_le_bytes_len(v: nat, n: nat)
    ensures
        le_bytes(v, n).len() == n,
    decreases n,
{
    if n > 0 {
        lemma_le_bytes_len(v / 256, (n - 1) as nat);
    }
}

/// A little-endian value of `n` bytes is below `256^n`.
pub proof fn lemma_le_value_bound(s: Seq<u8>)
    ensures
        le_value(s) < pow256(s.len()),
    decreases s.len(),
{
    if s.len() > 0 {
        lemma_le_value_bound(s.drop_first());
        let r = le_value(s.drop_first());
        let p = pow256((s.len() - 1) as nat);
        assert(s[0] as nat + 256 * r < 256 * p) by (nonlinear_arith)
            requires
                r < p,
                s[0] < 256,
        ;
    }
}

/// Reading back the `n` little-endian bytes of `v` gives `v`, when `v` fits.
pub proof fn lemma_le_roundtrip(v: nat, n: nat)
    requires
        v < pow256(n),
    ensures
        le_value(le_bytes(v, n)) == v,
    decreases n,
{
    if n > 0 {
        let b = le_bytes(v, n);
        assert(b.drop_first() =~= le_bytes(v / 256, (n - 1) as nat));
        let p = pow256((n - 1) as nat);
        assert(v / 256 < p) by (nonlinear_arith)
            requires
                v < 256 * p,
        ;
        lemma_le_roundtrip(v / 256, (n - 1) as nat);
        assert(v % 256 + 256 * (v / 256) == v) by (nonlinear_arith);
    }
}

/// Appends the `n` low bytes of `v` to `out`, least significant first.
fn push_le(out: &mut Vec<u8>, v: u64, n: usize)
    ensures
        final(out)@ == old(out)@ + le_bytes(v as nat, n as nat),
    decreases n,
{
    if n > 0 {
        out.push((v % 256) as u8);
        push_le(out, v / 256, n - 1);
        assert(old(out)@ + le_bytes(v as nat, n as nat) =~= old(out)@.push((v % 256) as u8)
            + le_bytes((v / 256) as nat, (n - 1) as nat));
    }
}

/// The little-endian number held in `buf[start .. start + n]`.
fn read_le(buf: &[u8], start: usize, n: usize) -> (r: u64)
    requires
        n <= 8,
        start + n <= buf.len(),
    ensures
        r as nat == le_value(buf@.subrange(start as int, start + n)),
    decreases n,
{
    if n == 0 {
        0
    } else {
        let rest = read_le(buf, start + 1, n - 1);
        let ghost s = buf@.subrange(start as int, start + n);
        assert(s.drop_first() =~= buf@.subrange(start + 1, start + n));
        proof {
            lemma_le_value_bound(s.drop_first());
            lemma_pow256_mono((n - 1) as nat, 7);
            lemma_pow256_facts();
        }
        let b = buf[start] as u64;
        assert(b + 256 * rest <= u64::MAX) by (nonlinear_arith)
            requires
                rest < 0x100_0000_0000_0000,
                b < 256,
        ;
        b + 256 * rest
    }
}

/// Appends `src[from .. to]` to `out`.
fn extend_from(out: &mut Vec<u8>, src: &[u8], from: usize, to: usize)
    requires
        from <= to <= src.len(),
    ensures
        final(out)@ == old(out)@ + src@.subrange(from as int, to as int),
{
    let mut i = from;
    while i < to
        invariant
            from <= i <= to <= src.len(),
            out@ == old(out)@ + src@.subrange(from as int, i as int),
        decreases to - i,
    {
        out.push(src[i]);
        i = i + 1;
        assert(out@ =~= old(out)@ + src@.subrange(from as int, i as int));
    }
}

// ── Frames ────────────────────────────────────────────────────────────────

/// The magic bytes as a sequence.
pub open spec fn magic_spec() -> Seq<u8> {
    seq![0x57u8, 0x41u8, 0x4Cu8, 0x31u8]
}

/// One bit step of the reflected CRC-32 register (polynomial 0xEDB88320).
pub open spec fn crc_shift(c: u32) -> u32 {
    if c & 1u32 == 1u32 {
        (c >> 1u32) ^ 0xEDB8_8320u32
    } else {
        c >> 1u32
    }
}

/// `k` bit steps of the register.
pub open spec fn crc_shifts(c: u32, k: nat) -> u32
    decreases k,
{
    if k == 0 {
        c
    } else {
        crc_shifts(crc_shift(c), (k - 1) as nat)
    }
}

/// The register after feeding `data`, starting from all ones.
pub open spec fn crc_register(data: Seq<u8>) -> u32
    decreases data.len(),
{
    if data.len() == 0 {
        0xFFFF_FFFFu32
    } else {
        crc_shifts(crc_register(data.drop_last()) ^ (data.last() as u32), 8)
    }
}

/// The CRC-32 (IEEE 802.3, reflected, initial and final value all ones)
/// checksum of `data`.
pub open spec fn crc32_of(data: Seq<u8>) -> u32 {
    crc_register(data) ^ 0xFFFF_FFFFu32
}

/// CRC-32 of a byte slice.
///
/// Calls `crc32fast::hash`, which computes the IEEE CRC-32 of the bytes
/// (with a table or with SIMD instructions, the same checksum either way);
/// the contract states that checksum as `crc32_of`.
#[verifier::external_body]
fn crc32(data: &[u8]) -> (c: u32)
    ensures
        c == crc32_of(data@),
{
    crc32fast::hash(data)
}

/// The first 24 header bytes of a frame: magic, sequence number, timestamp
/// and the payload length (which the length field holds modulo `2^32`).
pub open spec fn frame_head(seq: u64, timestamp: u64, len: nat) -> Seq<u8> {
    magic_spec() + le_bytes(seq as nat, 8) + le_bytes(timestamp as nat, 8) + le_bytes(
        len % 0x1_0000_0000,
        4,
    )
}

/// A whole frame whose checksum field holds `crc`.
pub open spec fn frame_with_crc(seq: u64, timestamp: u64, payload: Seq<u8>, crc: u32) -> Seq<
    u8,
> {
    frame_head(seq, timestamp, payload.len()) + le_bytes(crc as nat, 4) + payload
}

/// The frame the writer emits for one entry: its checksum covers the 24
/// header bytes followed by the payload.
pub open spec fn frame_bytes(seq: u64, timestamp: u64, payload: Seq<u8>) -> Seq<u8> {
    frame_with_crc(
        seq,
        timestamp,
        payload,
        crc32_of(frame_head(seq, timestamp, payload.len()) + payload),
    )
}

/// Appends the 24 header bytes of a frame to `out`.
fn push_head(out: &mut Vec<u8>, seq: u64, timestamp: u64, len: usize)
    ensures
        final(out)@ == old(out)@ + frame_head(seq, timestamp, len as nat),
{
    out.push(0x57u8);
    out.push(0x41u8);
    out.push(0x4Cu8);
    out.push(0x31u8);
    assert(out@ =~= old(out)@ + magic_spec());
    push_le(out, seq, 8);
    push_le(out, timestamp, 8);
    let l = (len as u64) % 0x1_0000_0000u64;
    push_le(out, l, 4);
    assert(out@ =~= old(out)@ + frame_head(seq, timestamp, len as nat));
}

/// Lays out a frame around `payload` with the given checksum.
pub fn assemble_frame(seq: u64, timestamp: u64, payload: &[u8], crc: u32) -> (frame: Vec<u8>)
    ensures
        frame@ == frame_with_crc(seq, timestamp, payload@, crc),
{
    let mut out: Vec<u8> = Vec::new();
    push_head(&mut out, seq, timestamp, payload.len());
    push_le(&mut out, crc as u64, 4);
    extend_from(&mut out, payload, 0, payload.len());
    assert(payload@.subrange(0, payload@.len() as int) =~= payload@);
    assert(out@ =~= frame_with_crc(seq, timestamp, payload@, crc));
    out
}

/// Encodes one log entry as a frame, checksum included.
pub fn build_frame(seq: u64, timestamp: u64, payload: &[u8]) -> (frame: Vec<u8>)
    ensures
        frame@ == frame_bytes(seq, timestamp, payload@),
{
    let mut covered: Vec<u8> = Vec::new();
    push_head(&mut covered, seq, timestamp, payload.len());
    extend_from(&mut covered, payload, 0, payload.len());
    assert(payload@.subrange(0, payload@.len() as int) =~= payload@);
    let crc = crc32(covered.as_slice());
    assemble_frame(seq, timestamp, payload, crc)
}

// ── Decoding ──────────────────────────────────────────────────────────────

/// What reading one frame at some offset of a segment yields.
#[derive(Debug)]
pub enum FrameOutcome {
    /// No bytes remain: the segment ends cleanly here.
    Eof,
    /// The segment ends inside a frame. `seq` is known when the whole
    /// header was present.
    Torn {
        /// Sequence number of the cut frame, if its header was complete.
        seq: Option<u64>,
    },
    /// The four bytes at `offset` are not the frame magic.
    BadMagic {
        /// The bytes found where the magic belongs.
        found: [u8; 4],
        /// Offset of the frame within the segment.
        offset: u64,
    },
    /// The stored checksum does not match the frame's bytes.
    ChecksumMismatch {
        /// Sequence number of the corrupt frame.
        seq: u64,
    },
    /// A complete, intact frame.
    Entry {
        /// Sequence number.
        seq: u64,
        /// Timestamp in microseconds since the Unix epoch.
        timestamp: u64,
        /// The payload bytes.
        payload: Vec<u8>,
        /// Offset just past the frame, where the next one starts.
        end: usize,
    },
}

/// The little-endian field `buf[off + a .. off + b]`.
pub open spec fn field(buf: Seq<u8>, off: int, a: int, b: int) -> nat {
    le_value(buf.subrange(off + a, off + b))
}

/// Payload length recorded in the frame header at `off`.
pub open spec fn payload_len_at(buf: Seq<u8>, off: int) -> nat {
    field(buf, off, 20, 24)
}

/// Offset just past the frame that starts at `off`.
pub open spec fn frame_end_at(buf: Seq<u8>, off: int) -> int {
    off + 28 + payload_len_at(buf, off)
}

/// The bytes the checksum of the frame at `off` covers.
pub open spec fn crc_input_at(buf: Seq<u8>, off: int) -> Seq<u8> {
    buf.subrange(off, off + 24) + buf.subrange(off + 28, frame_end_at(buf, off))
}

/// Whether a complete frame with the right magic starts at `off`.
pub open spec fn frame_complete_at(buf: Seq<u8>, off: int) -> bool {
    &&& buf.len() - off >= 28
    &&& buf.subrange(off, off + 4) == magic_spec()
    &&& frame_end_at(buf, off) <= buf.len()
}

/// Whether an intact entry starts at `off`.
pub open spec fn entry_at(buf: Seq<u8>, off: int) -> bool {
    &&& frame_complete_at(buf, off)
    &&& crc32_of(crc_input_at(buf, off)) == field(buf, off, 24, 28)
}

/// The outcome `r` is what reading a frame at `off` yields when the
/// checksum computed over the frame's covered bytes is `crc`.
pub open spec fn outcome_with_crc(r: FrameOutcome, buf: Seq<u8>, off: int, crc: u32) -> bool {
    let rest = buf.len() - off;
    if rest == 0 {
        r is Eof
    } else if rest < 12 {
        r == (FrameOutcome::Torn { seq: None })
    } else if rest < 28 {
        r == (FrameOutcome::Torn { seq: Some(field(buf, off, 4, 12) as u64) })
    } else if buf.subrange(off, off + 4) != magic_spec() {
        &&& r is BadMagic
        &&& r->found@ == buf.subrange(off, off + 4)
        &&& r->offset == off
    } else if frame_end_at(buf, off) > buf.len() {
        r == (FrameOutcome::Torn { seq: Some(field(buf, off, 4, 12) as u64) })
    } else if crc != field(buf, off, 24, 28) {
        r == (FrameOutcome::ChecksumMismatch { seq: field(buf, off, 4, 12) as u64 })
    } else {
        &&& r is Entry
        &&& r->Entry_seq == field(buf, off, 4, 12)
        &&& r->timestamp == field(buf, off, 12, 20)
        &&& r->payload@ == buf.subrange(off + 28, frame_end_at(buf, off))
        &&& r->end == frame_end_at(buf, off)
    }
}

/// The outcome `r` is what reading a frame at `off` of `buf` yields.
pub open spec fn outcome_at(r: FrameOutcome, buf: Seq<u8>, off: int) -> bool {
    outcome_with_crc(r, buf, off, crc32_of(crc_input_at(buf, off)))
}

/// Classifies the frame at `offset` given the checksum `crc` computed over
/// its covered bytes (ignored unless the frame is complete).
pub fn classify_frame(buf: &[u8], offset: usize, crc: u32) -> (r: FrameOutcome)
    requires
        offset <= buf.len(),
    ensures
        outcome_with_crc(r, buf@, offset as int, crc),
{
    let rest = buf.len() - offset;
    if rest == 0 {
        return FrameOutcome::Eof;
    }
    if rest < 12 {
        return FrameOutcome::Torn { seq: None };
    }
    if rest < FRAME_HEADER_LEN {
        let seq = read_le(buf, offset + 4, 8);
        return FrameOutcome::Torn { seq: Some(seq) };
    }
    let found: [u8; 4] = [buf[offset], buf[offset + 1], buf[offset + 2], buf[offset + 3]];
    if found[0] != 0x57u8 || found[1] != 0x41u8 || found[2] != 0x4Cu8 || found[3] != 0x31u8 {
        assert(buf@.subrange(offset as int, offset + 4) != magic_spec()) by {
            if buf@.subrange(offset as int, offset + 4) == magic_spec() {
                assert(buf@.subrange(offset as int, offset + 4)[0] == buf@[offset as int]);
                assert(buf@.subrange(offset as int, offset + 4)[1] == buf@[offset + 1]);
                assert(buf@.subrange(offset as int, offset + 4)[2] == buf@[offset + 2]);
                assert(buf@.subrange(offset as int, offset + 4)[3] == buf@[offset + 3]);
            }
        }
        assert(found@ =~= buf@.subrange(offset as int, offset + 4));
        return FrameOutcome::BadMagic { found, offset: offset as u64 };
    }
    assert(buf@.subrange(offset as int, offset + 4) =~= magic_spec());
    let seq = read_le(buf, offset + 4, 8);
    let timestamp = read_le(buf, offset + 12, 8);
    let len = read_le(buf, offset + 20, 4);
    let stored = read_le(buf, offset + 24, 4);
    proof {
        lemma_le_value_bound(buf@.subrange(offset + 20, offset + 24));
        lemma_le_value_bound(buf@.subrange(offset + 24, offset + 28));
        lemma_pow256_facts();
    }
    if (rest as u64) - 28 < len {
        return FrameOutcome::Torn { seq: Some(seq) };
    }
    if crc as u64 != stored {
        return FrameOutcome::ChecksumMismatch { seq };
    }
    let end = offset + 28 + len as usize;
    let mut payload: Vec<u8> = Vec::new();
    extend_from(&mut payload, buf, offset + 28, end);
    FrameOutcome::Entry { seq, timestamp, payload, end }
}

/// Reads the frame that starts at `offset` of a segment's bytes.
pub fn decode_frame(buf: &[u8], offset: usize) -> (r: FrameOutcome)
    requires
        offset <= buf.len(),
    ensures
        outcome_at(r, buf@, offset as int),
{
    let ghost off = offset as int;
    let mut crc: u32 = 0;
    let rest = buf.len() - offset;
    if rest >= FRAME_HEADER_LEN && buf[offset] == 0x57u8 && buf[offset + 1] == 0x41u8
        && buf[offset + 2] == 0x4Cu8 && buf[offset + 3] == 0x31u8 {
        let len = read_le(buf, offset + 20, 4);
        proof {
            lemma_le_value_bound(buf@.subrange(offset + 20, offset + 24));
            lemma_pow256_facts();
        }
        if (rest as u64) - 28 >= len {
            let end = offset + 28 + len as usize;
            let mut covered: Vec<u8> = Vec::new();
            extend_from(&mut covered, buf, offset, offset + 24);
            extend_from(&mut covered, buf, offset + 28, end);
            assert(covered@ =~= crc_input_at(buf@, off));
            crc = crc32(covered.as_slice());
        }
    }
    classify_frame(buf, offset, crc)
}

/// Layout facts about an encoded frame: its length, and the value each
/// header field reads back as.
proof fn lemma_frame_fields(seq: u64, timestamp: u64, payload: Seq<u8>, crc: u32, buf: Seq<u8>)
    requires
        payload.len() < 0x1_0000_0000,
        buf.len() >= 28 + payload.len(),
        buf.subrange(0, 28 + payload.len() as int) == frame_with_crc(seq, timestamp, payload, crc),
    ensures
        buf.subrange(0, 4) == magic_spec(),
        field(buf, 0, 4, 12) == seq,
        field(buf, 0, 12, 20) == timestamp,
        payload_len_at(buf, 0) == payload.len(),
        field(buf, 0, 24, 28) == crc,
        frame_end_at(buf, 0) == 28 + payload.len(),
        buf.subrange(0, 24) == frame_head(seq, timestamp, payload.len()),
        buf.subrange(28, 28 + payload.len() as int) == payload,
{
    let f = frame_with_crc(seq, timestamp, payload, crc);
    let n = payload.len();
    lemma_le_bytes_len(seq as nat, 8);
    lemma_le_bytes_len(timestamp as nat, 8);
    lemma_le_bytes_len(n % 0x1_0000_0000, 4);
    lemma_le_bytes_len(crc as nat, 4);
    lemma_pow256_facts();
    lemma_le_roundtrip(seq as nat, 8);
    lemma_le_roundtrip(timestamp as nat, 8);
    lemma_le_roundtrip(n % 0x1_0000_0000, 4);
    lemma_le_roundtrip(crc as nat, 4);
    assert(f.subrange(0, 4) =~= magic_spec());
    assert(f.subrange(4, 12) =~= le_bytes(seq as nat, 8));
    assert(f.subrange(12, 20) =~= le_bytes(timestamp as nat, 8));
    assert(f.subrange(20, 24) =~= le_bytes(n % 0x1_0000_0000, 4));
    assert(f.subrange(24, 28) =~= le_bytes(crc as nat, 4));
    assert(f.subrange(0, 24) =~= frame_head(seq, timestamp, n));
    assert(f.subrange(28, 28 + n as int) =~= payload);
    assert(buf.subrange(0, 4) =~= f.subrange(0, 4));
    assert(buf.subrange(4, 12) =~= f.subrange(4, 12));
    assert(buf.subrange(12, 20) =~= f.subrange(12, 20));
    assert(buf.subrange(20, 24) =~= f.subrange(20, 24));
    assert(buf.subrange(24, 28) =~= f.subrange(24, 28));
    assert(buf.subrange(0, 24) =~= f.subrange(0, 24));
    assert(buf.subrange(28, 28 + n as int) =~= f.subrange(28, 28 + n as int));
}

/// A frame the writer produced, whatever bytes follow it, is an intact
/// entry holding what was written, and it ends where the frame ends.
proof fn lemma_frame_is_entry(seq: u64, timestamp: u64, payload: Seq<u8>, rest: Seq<u8>)
    requires
        payload.len() < 0x1_0000_0000,
    ensures
        entry_at(frame_bytes(seq, timestamp, payload) + rest, 0),
        entry_view_at(frame_bytes(seq, timestamp, payload) + rest, 0) == (
            seq,
            timestamp,
            payload,
        ),
        frame_end_at(frame_bytes(seq, timestamp, payload) + rest, 0) == frame_bytes(
            seq,
            timestamp,
            payload,
        ).len(),
        frame_bytes(seq, timestamp, payload).len() == 28 + payload.len(),
{
    let crc = crc32_of(frame_head(seq, timestamp, payload.len()) + payload);
    let f = frame_bytes(seq, timestamp, payload);
    let buf = f + rest;
    lemma_le_bytes_len(seq as nat, 8);
    lemma_le_bytes_len(timestamp as nat, 8);
    lemma_le_bytes_len(payload.len() % 0x1_0000_0000, 4);
    lemma_le_bytes_len(crc as nat, 4);
    assert(buf.subrange(0, 28 + payload.len() as int) =~= f);
    lemma_frame_fields(seq, timestamp, payload, crc, buf);
    assert(crc_input_at(buf, 0) =~= frame_head(seq, timestamp, payload.len()) + payload);
}

/// Reading back a frame the writer produced, whatever bytes follow it,
/// yields exactly the entry that was written, and the next frame starts
/// right after it.
pub proof fn lemma_frame_roundtrip(
    seq: u64,
    timestamp: u64,
    payload: Seq<u8>,
    rest: Seq<u8>,
    r: FrameOutcome,
)
    requires
        payload.len() < 0x1_0000_0000,
        outcome_at(r, frame_bytes(seq, timestamp, payload) + rest, 0),
    ensures
        r is Entry,
        r->Entry_seq == seq,
        r->timestamp == timestamp,
        r->payload@ == payload,
        r->end == 28 + payload.len(),
{
    lemma_frame_is_entry(seq, timestamp, payload, rest);
}

/// A frame cut short anywhere is never taken for an entry: with nothing left
/// it reads as a clean end, otherwise as a torn frame, which carries the
/// sequence number once the whole header survived.
pub proof fn lemma_truncated_frame_is_torn(
    seq: u64,
    timestamp: u64,
    payload: Seq<u8>,
    keep: nat,
    r: FrameOutcome,
)
    requires
        payload.len() < 0x1_0000_0000,
        keep < frame_bytes(seq, timestamp, payload).len(),
        outcome_at(r, frame_bytes(seq, timestamp, payload).take(keep as int), 0),
    ensures
        keep == 0 ==> r is Eof,
        keep > 0 ==> r is Torn,
        keep >= 12 ==> r == (FrameOutcome::Torn { seq: Some(seq) }),
{
    let crc = crc32_of(frame_head(seq, timestamp, payload.len()) + payload);
    let f = frame_bytes(seq, timestamp, payload);
    let buf = f.take(keep as int);
    lemma_le_bytes_len(seq as nat, 8);
    lemma_le_bytes_len(timestamp as nat, 8);
    lemma_le_bytes_len(payload.len() % 0x1_0000_0000, 4);
    lemma_le_bytes_len(crc as nat, 4);
    if keep >= 12 {
        let full = f;
        assert(full.subrange(0, 28 + payload.len() as int) =~= f);
        lemma_frame_fields(seq, timestamp, payload, crc, full);
        assert(buf.subrange(0, 4) =~= full.subrange(0, 4));
        assert(buf.subrange(4, 12) =~= full.subrange(4, 12));
        if keep >= 28 {
            assert(buf.subrange(20, 24) =~= full.subrange(20, 24));
        }
    }
}

// ── Segments ──────────────────────────────────────────────────────────────

/// One intact log entry read back from a segment.
#[derive(Debug)]
pub struct WalEntry {
    /// Sequence number.
    pub seq: u64,
    /// Timestamp in microseconds since the Unix epoch.
    pub timestamp: u64,
    /// The payload bytes (an encoded world mutation).
    pub payload: Vec<u8>,
}

impl View for WalEntry {
    type V = (u64, u64, Seq<u8>);

    open spec fn view(&self) -> (u64, u64, Seq<u8>) {
        (self.seq, self.timestamp, self.payload@)
    }
}

/// The views of a sequence of entries.
pub open spec fn entry_views(s: Seq<WalEntry>) -> Seq<(u64, u64, Seq<u8>)> {
    Seq::new(s.len(), |i: int| s[i]@)
}

/// The entry that starts at `off`, as a view.
pub open spec fn entry_view_at(buf: Seq<u8>, off: int) -> (u64, u64, Seq<u8>) {
    (
        field(buf, off, 4, 12) as u64,
        field(buf, off, 12, 20) as u64,
        buf.subrange(off + 28, frame_end_at(buf, off)),
    )
}

/// The intact entries read in order from `off` up to the first frame that
/// is not one.
pub open spec fn entries_from(buf: Seq<u8>, off: int) -> Seq<(u64, u64, Seq<u8>)>
    decreases buf.len() - off,
{
    if 0 <= off && entry_at(buf, off) {
        seq![entry_view_at(buf, off)] + entries_from(buf, frame_end_at(buf, off))
    } else {
        Seq::empty()
    }
}

/// Offset of the first frame, from `off` on, that is not an intact entry.
pub open spec fn stop_offset(buf: Seq<u8>, off: int) -> int
    decreases buf.len() - off,
{
    if 0 <= off && entry_at(buf, off) {
        stop_offset(buf, frame_end_at(buf, off))
    } else {
        off
    }
}

/// Whether the outcome is one of the two endings of a healthy segment: a
/// clean end or a torn final frame.
pub open spec fn stop_is_clean(stop: FrameOutcome) -> bool {
    stop is Eof || stop is Torn
}

/// The entries read from one segment and what ended the reading.
#[derive(Debug)]
pub struct SegmentScan {
    /// The intact entries, in order.
    pub entries: Vec<WalEntry>,
    /// The first outcome that was not an entry.
    pub stop: FrameOutcome,
}

proof fn lemma_outcome_entry_iff(r: FrameOutcome, buf: Seq<u8>, off: int)
    requires
        0 <= off <= buf.len(),
        outcome_at(r, buf, off),
    ensures
        (r is Entry) <==> entry_at(buf, off),
        r is Entry ==> (r->Entry_seq, r->timestamp, r->payload@) == entry_view_at(buf, off),
        r is Entry ==> r->end == frame_end_at(buf, off),
{
}

/// Reads a segment's frames from the start until the first one that is not
/// an intact entry.
pub fn scan_segment(buf: &[u8]) -> (r: SegmentScan)
    ensures
        entry_views(r.entries@) == entries_from(buf@, 0),
        outcome_at(r.stop, buf@, stop_offset(buf@, 0)),
        !(r.stop is Entry),
{
    let mut entries: Vec<WalEntry> = Vec::new();
    let mut off: usize = 0;
    loop
        invariant
            off <= buf.len(),
            entry_views(entries@) + entries_from(buf@, off as int) == entries_from(buf@, 0),
            stop_offset(buf@, off as int) == stop_offset(buf@, 0),
        decreases buf.len() - off,
    {
        let r = decode_frame(buf, off);
        proof {
            lemma_outcome_entry_iff(r, buf@, off as int);
        }
        match r {
            FrameOutcome::Entry { seq, timestamp, payload, end } => {
                let ghost before = entries@;
                let e = WalEntry { seq, timestamp, payload };
                entries.push(e);
                assert(entry_views(entries@) =~= entry_views(before).push(
                    entry_view_at(buf@, off as int),
                ));
                assert(entry_views(entries@) + entries_from(buf@, end as int) =~= entry_views(
                    before,
                ) + entries_from(buf@, off as int));
                off = end;
            },
            other => {
                assert(entries_from(buf@, off as int) =~= Seq::empty());
                assert(entry_views(entries@) =~= entries_from(buf@, 0));
                return SegmentScan { entries, stop: other };
            },
        }
    }
}

/// The segments' bytes, as sequences.
pub open spec fn segment_views(segs: Seq<Vec<u8>>) -> Seq<Seq<u8>> {
    Seq::new(segs.len(), |i: int| segs[i]@)
}

/// Whether reading the segment ends cleanly at its last byte.
pub open spec fn segment_is_clean(buf: Seq<u8>) -> bool {
    stop_offset(buf, 0) == buf.len()
}

/// The entries recovered from segments `i..`, read in order: a segment that
/// ends cleanly hands over to the next one, any other ending stops the
/// reading.
pub open spec fn entries_across(segs: Seq<Seq<u8>>, i: int) -> Seq<(u64, u64, Seq<u8>)>
    decreases segs.len() - i,
{
    if 0 <= i < segs.len() {
        if segment_is_clean(segs[i]) {
            entries_from(segs[i], 0) + entries_across(segs, i + 1)
        } else {
            entries_from(segs[i], 0)
        }
    } else {
        Seq::empty()
    }
}

/// Index of the first segment, from `i` on, that does not end cleanly, or
/// the number of segments when all do.
pub open spec fn stopping_segment(segs: Seq<Seq<u8>>, i: int) -> int
    decreases segs.len() - i,
{
    if 0 <= i < segs.len() {
        if segment_is_clean(segs[i]) {
            stopping_segment(segs, i + 1)
        } else {
            i
        }
    } else {
        segs.len() as int
    }
}

/// `stop_offset` never moves backwards nor past the end of the buffer.
pub proof fn lemma_stop_offset_bounds(buf: Seq<u8>, off: int)
    requires
        0 <= off <= buf.len(),
    ensures
        off <= stop_offset(buf, off) <= buf.len(),
    decreases buf.len() - off,
{
    if entry_at(buf, off) {
        lemma_stop_offset_bounds(buf, frame_end_at(buf, off));
    }
}

/// Everything read back from a sequence of segment files.
#[derive(Debug)]
pub struct WalScan {
    /// The intact entries, in order.
    pub entries: Vec<WalEntry>,
    /// How reading ended: `Eof` when every segment ended cleanly, otherwise
    /// the outcome that stopped it.
    pub stop: FrameOutcome,
}

/// Reads segments in order, moving to the next one at each clean end and
/// stopping at the first torn, corrupt or foreign frame.
pub fn scan_segments(segs: &Vec<Vec<u8>>) -> (r: WalScan)
    ensures
        entry_views(r.entries@) == entries_across(segment_views(segs@), 0),
        stopping_segment(segment_views(segs@), 0) == segs.len() ==> r.stop is Eof,
        stopping_segment(segment_views(segs@), 0) < segs.len() ==> {
            let k = stopping_segment(segment_views(segs@), 0);
            &&& outcome_at(r.stop, segs@[k]@, stop_offset(segs@[k]@, 0))
            &&& !(r.stop is Eof)
            &&& !(r.stop is Entry)
        },
{
    let ghost sv = segment_views(segs@);
    let mut entries: Vec<WalEntry> = Vec::new();
    let mut i: usize = 0;
    while i < segs.len()
        invariant
            i <= segs.len(),
            sv == segment_views(segs@),
            entry_views(entries@) + entries_across(sv, i as int) == entries_across(sv, 0),
            stopping_segment(sv, i as int) == stopping_segment(sv, 0),
        decreases segs.len() - i,
    {
        let mut scan = scan_segment(segs[i].as_slice());
        let ghost before = entries@;
        proof {
            lemma_stop_offset_bounds(sv[i as int], 0);
        }
        entries.append(&mut scan.entries);
        assert(entry_views(entries@) =~= entry_views(before) + entries_from(sv[i as int], 0));
        match scan.stop {
            FrameOutcome::Eof => {
                assert(segment_is_clean(sv[i as int]));
                assert(entry_views(entries@) + entries_across(sv, i + 1) =~= entry_views(before)
                    + entries_across(sv, i as int));
                i = i + 1;
            },
            other => {
                assert(!segment_is_clean(sv[i as int]));
                assert(entry_views(entries@) =~= entries_across(sv, 0));
                return WalScan { entries, stop: other };
            },
        }
    }
    assert(entries_across(sv, i as int) =~= Seq::empty());
    assert(entry_views(entries@) =~= entries_across(sv, 0));
    WalScan { entries, stop: FrameOutcome::Eof }
}

/// Whether a recovery that stopped at `stop` keeps what it read: a clean
/// end, or a torn final frame (the expected trace of an interrupted write),
/// is not an error; a foreign or corrupt frame is.
pub fn recovery_succeeds(stop: &FrameOutcome) -> (r: bool)
    ensures
        r == stop_is_clean(*stop),
{
    match stop {
        FrameOutcome::Eof => true,
        FrameOutcome::Torn { .. } => true,
        _ => false,
    }
}

/// The sequence number a writer resuming the scanned segment hands out
/// next: one past the last intact entry (wrapping at `u64::MAX`), or 0 when
/// there is none. `None` when the segment holds a foreign or corrupt frame.
pub fn resume_sequence(scan: &SegmentScan) -> (r: Option<u64>)
    ensures
        !stop_is_clean(scan.stop) ==> r is None,
        stop_is_clean(scan.stop) && scan.entries@.len() == 0 ==> r == Some(0u64),
        stop_is_clean(scan.stop) && scan.entries@.len() > 0 ==> r == Some(
            if scan.entries@.last().seq == u64::MAX { 0u64 } else {
                (scan.entries@.last().seq + 1) as u64
            },
        ),
{
    if !recovery_succeeds(&scan.stop) {
        return None;
    }
    let n = scan.entries.len();
    if n == 0 {
        Some(0)
    } else {
        let last = scan.entries[n - 1].seq;
        if last == u64::MAX {
            Some(0)
        } else {
            Some(last + 1)
        }
    }
}

/// One past the last of `entries` (0 when there are none, or when the last
/// has the largest sequence number), or `None` after a stop at corruption.
pub open spec fn resume_across_spec(entries: Seq<WalEntry>, stop: FrameOutcome) -> Option<u64> {
    if !stop_is_clean(stop) {
        None
    } else if entries.len() == 0 {
        Some(0u64)
    } else if entries.last().seq == u64::MAX {
        Some(0u64)
    } else {
        Some((entries.last().seq + 1) as u64)
    }
}

/// The sequence number a writer reopening the whole log continues with:
/// one past the last intact entry of all its segments, read in order (0
/// for a log without entries), or `None` when reading stopped at
/// corruption. An empty newest segment, as a rotation leaves it, does not
/// restart the numbering.
pub fn resume_sequence_across(scan: &WalScan) -> (r: Option<u64>)
    ensures
        r == resume_across_spec(scan.entries@, scan.stop),
        !stop_is_clean(scan.stop) ==> r is None,
        stop_is_clean(scan.stop) && scan.entries@.len() == 0 ==> r == Some(0u64),
        stop_is_clean(scan.stop) && scan.entries@.len() > 0 ==> r == Some(
            if scan.entries@.last().seq == u64::MAX { 0u64 } else {
                (scan.entries@.last().seq + 1) as u64
            },
        ),
{
    if !recovery_succeeds(&scan.stop) {
        return None;
    }
    let n = scan.entries.len();
    if n == 0 {
        Some(0)
    } else {
        let last = scan.entries[n - 1].seq;
        if last == u64::MAX {
            Some(0)
        } else {
            Some(last + 1)
        }
    }
}

// ── Recovery of what was written ──────────────────────────────────────────

/// The bytes of a segment into which the writer appended `es`, in order.
pub open spec fn frames_of(es: Seq<(u64, u64, Seq<u8>)>) -> Seq<u8>
    decreases es.len(),
{
    if es.len() == 0 {
        Seq::empty()
    } else {
        frame_bytes(es[0].0, es[0].1, es[0].2) + frames_of(es.drop_first())
    }
}

/// Every payload's length fits the 32-bit length field.
pub open spec fn payloads_fit(es: Seq<(u64, u64, Seq<u8>)>) -> bool {
    forall|i: int| 0 <= i < es.len() ==> (#[trigger] es[i]).2.len() < 0x1_0000_0000
}

proof fn lemma_sub_shift(p: Seq<u8>, b: Seq<u8>, x: int, y: int)
    requires
        0 <= x <= y <= b.len(),
    ensures
        (p + b).subrange(p.len() + x, p.len() + y) == b.subrange(x, y),
{
    assert((p + b).subrange(p.len() + x, p.len() + y) =~= b.subrange(x, y));
}

/// Reading at offset `o` of `b` is the same as reading at `|p| + o` of
/// `p + b`, field by field.
proof fn lemma_shift_frame(p: Seq<u8>, b: Seq<u8>, o: int)
    requires
        0 <= o <= b.len(),
    ensures
        b.len() - o >= 28 ==> {
            &&& (p + b).subrange(p.len() + o, p.len() + o + 4) == b.subrange(o, o + 4)
            &&& field(p + b, p.len() + o, 4, 12) == field(b, o, 4, 12)
            &&& field(p + b, p.len() + o, 12, 20) == field(b, o, 12, 20)
            &&& field(p + b, p.len() + o, 24, 28) == field(b, o, 24, 28)
            &&& frame_end_at(p + b, p.len() + o) == p.len() + frame_end_at(b, o)
        },
        entry_at(p + b, p.len() + o) == entry_at(b, o),
        entry_at(b, o) ==> entry_view_at(p + b, p.len() + o) == entry_view_at(b, o),
{
    let q = p + b;
    let o2 = p.len() + o;
    if b.len() - o >= 28 {
        lemma_sub_shift(p, b, o, o + 4);
        lemma_sub_shift(p, b, o + 4, o + 12);
        lemma_sub_shift(p, b, o + 12, o + 20);
        lemma_sub_shift(p, b, o + 20, o + 24);
        lemma_sub_shift(p, b, o + 24, o + 28);
        if frame_end_at(b, o) <= b.len() {
            lemma_sub_shift(p, b, o, o + 24);
            lemma_sub_shift(p, b, o + 28, frame_end_at(b, o));
            assert(crc_input_at(q, o2) =~= crc_input_at(b, o));
        }
    }
}

/// Reading entries from `|p| + o` of `p + b` gives what reading from `o` of
/// `b` gives, and stops at the shifted offset.
proof fn lemma_entries_shift(p: Seq<u8>, b: Seq<u8>, o: int)
    requires
        0 <= o <= b.len(),
    ensures
        entries_from(p + b, p.len() + o) == entries_from(b, o),
        stop_offset(p + b, p.len() + o) == p.len() + stop_offset(b, o),
    decreases b.len() - o,
{
    lemma_shift_frame(p, b, o);
    if entry_at(b, o) {
        lemma_entries_shift(p, b, frame_end_at(b, o));
    }
}

/// A frame cut short is not an intact entry.
proof fn lemma_truncated_not_entry(seq: u64, timestamp: u64, payload: Seq<u8>, keep: nat)
    requires
        payload.len() < 0x1_0000_0000,
        keep < frame_bytes(seq, timestamp, payload).len(),
    ensures
        !entry_at(frame_bytes(seq, timestamp, payload).take(keep as int), 0),
        keep >= 28 ==> {
            let t = frame_bytes(seq, timestamp, payload).take(keep as int);
            &&& t.subrange(0, 4) == magic_spec()
            &&& frame_end_at(t, 0) > t.len()
        },
{
    let crc = crc32_of(frame_head(seq, timestamp, payload.len()) + payload);
    let f = frame_bytes(seq, timestamp, payload);
    let t = f.take(keep as int);
    lemma_frame_is_entry(seq, timestamp, payload, Seq::empty());
    assert(f + Seq::<u8>::empty() =~= f);
    if keep >= 28 {
        assert(f.subrange(0, 28 + payload.len() as int) =~= f);
        lemma_frame_fields(seq, timestamp, payload, crc, f);
        assert(t.subrange(0, 4) =~= f.subrange(0, 4));
        assert(t.subrange(20, 24) =~= f.subrange(20, 24));
    }
}

/// The torn tail of a segment never stops recovery with an error.
proof fn lemma_tail_is_clean(
    prefix: Seq<u8>,
    seq: u64,
    timestamp: u64,
    payload: Seq<u8>,
    keep: nat,
    r: FrameOutcome,
)
    requires
        payload.len() < 0x1_0000_0000,
        keep < frame_bytes(seq, timestamp, payload).len(),
        outcome_at(r, prefix + frame_bytes(seq, timestamp, payload).take(keep as int), prefix.len() as int),
    ensures
        stop_is_clean(r),
{
    let t = frame_bytes(seq, timestamp, payload).take(keep as int);
    lemma_truncated_not_entry(seq, timestamp, payload, keep);
    lemma_shift_frame(prefix, t, 0);
}

/// A segment into which the writer appended `written`, possibly followed by
/// the torn start of one more frame (cut after `keep` bytes; `keep == 0`
/// means the segment ends cleanly), reads back exactly `written`, and what
/// stops the reading is never an error.
pub proof fn lemma_segment_recovers_written(
    written: Seq<(u64, u64, Seq<u8>)>,
    tail_seq: u64,
    tail_timestamp: u64,
    tail_payload: Seq<u8>,
    keep: nat,
)
    requires
        payloads_fit(written),
        tail_payload.len() < 0x1_0000_0000,
        keep < frame_bytes(tail_seq, tail_timestamp, tail_payload).len(),
    ensures
        ({
            let buf = frames_of(written) + frame_bytes(tail_seq, tail_timestamp, tail_payload).take(
                keep as int,
            );
            &&& entries_from(buf, 0) == written
            &&& stop_offset(buf, 0) == frames_of(written).len()
            &&& forall|r: FrameOutcome| #[trigger]
                outcome_at(r, buf, stop_offset(buf, 0)) ==> stop_is_clean(r)
        }),
{
    let t = frame_bytes(tail_seq, tail_timestamp, tail_payload).take(keep as int);
    lemma_segment_entries(written, t, tail_seq, tail_timestamp, tail_payload, keep);
    let buf = frames_of(written) + t;
    assert forall|r: FrameOutcome| #[trigger]
        outcome_at(r, buf, stop_offset(buf, 0)) implies stop_is_clean(r) by {
        lemma_tail_is_clean(frames_of(written), tail_seq, tail_timestamp, tail_payload, keep, r);
    }
}

/// The entries written into segments `i..` of a log, in order.
pub open spec fn written_from(ws: Seq<Seq<(u64, u64, Seq<u8>)>>, i: int) -> Seq<(u64, u64, Seq<u8>)>
    decreases ws.len() - i,
{
    if 0 <= i < ws.len() {
        ws[i] + written_from(ws, i + 1)
    } else {
        Seq::empty()
    }
}

/// The segment files of a log into which the writer appended `ws[k]` to
/// segment `k`, the last one possibly followed by the first `keep` bytes of
/// one more frame.
pub open spec fn log_segments(
    ws: Seq<Seq<(u64, u64, Seq<u8>)>>,
    tail: Seq<u8>,
    keep: nat,
) -> Seq<Seq<u8>> {
    Seq::new(
        ws.len(),
        |k: int|
            if k < ws.len() - 1 {
                frames_of(ws[k])
            } else {
                frames_of(ws[k]) + tail.take(keep as int)
            },
    )
}

/// Recovery across rotated segments: reading back the segment files of a
/// log, each holding what the writer appended to it and the newest possibly
/// ending in a torn frame, yields exactly the entries written, in order.
pub proof fn lemma_log_recovers_written(
    ws: Seq<Seq<(u64, u64, Seq<u8>)>>,
    tail_seq: u64,
    tail_timestamp: u64,
    tail_payload: Seq<u8>,
    keep: nat,
)
    requires
        forall|k: int| 0 <= k < ws.len() ==> payloads_fit(#[trigger] ws[k]),
        tail_payload.len() < 0x1_0000_0000,
        keep < frame_bytes(tail_seq, tail_timestamp, tail_payload).len(),
    ensures
        entries_across(
            log_segments(ws, frame_bytes(tail_seq, tail_timestamp, tail_payload), keep),
            0,
        ) == written_from(ws, 0),
{
    lemma_log_recovers_from(ws, tail_seq, tail_timestamp, tail_payload, keep, 0);
}

proof fn lemma_log_recovers_from(
    ws: Seq<Seq<(u64, u64, Seq<u8>)>>,
    tail_seq: u64,
    tail_timestamp: u64,
    tail_payload: Seq<u8>,
    keep: nat,
    i: int,
)
    requires
        forall|k: int| 0 <= k < ws.len() ==> payloads_fit(#[trigger] ws[k]),
        tail_payload.len() < 0x1_0000_0000,
        keep < frame_bytes(tail_seq, tail_timestamp, tail_payload).len(),
        0 <= i <= ws.len(),
    ensures
        entries_across(
            log_segments(ws, frame_bytes(tail_seq, tail_timestamp, tail_payload), keep),
            i,
        ) == written_from(ws, i),
    decreases ws.len() - i,
{
    let tail = frame_bytes(tail_seq, tail_timestamp, tail_payload);
    let segs = log_segments(ws, tail, keep);
    if i < ws.len() {
        lemma_log_recovers_from(ws, tail_seq, tail_timestamp, tail_payload, keep, i + 1);
        if i < ws.len() - 1 {
            lemma_segment_recovers_written(ws[i], tail_seq, tail_timestamp, tail_payload, 0);
            assert(frames_of(ws[i]) + tail.take(0) =~= segs[i]);
            assert(segment_is_clean(segs[i]));
        } else {
            lemma_segment_recovers_written(ws[i], tail_seq, tail_timestamp, tail_payload, keep);
            assert(entries_across(segs, i + 1) == Seq::<(u64, u64, Seq<u8>)>::empty());
            assert(written_from(ws, i + 1) == Seq::<(u64, u64, Seq<u8>)>::empty());
            assert(ws[i] + Seq::<(u64, u64, Seq<u8>)>::empty() =~= ws[i]);
        }
    }
}

#[verifier::spinoff_prover]
#[verifier::rlimit(40)]
proof fn lemma_segment_entries(
    written: Seq<(u64, u64, Seq<u8>)>,
    t: Seq<u8>,
    tail_seq: u64,
    tail_timestamp: u64,
    tail_payload: Seq<u8>,
    keep: nat,
)
    requires
        payloads_fit(written),
        tail_payload.len() < 0x1_0000_0000,
        keep < frame_bytes(tail_seq, tail_timestamp, tail_payload).len(),
        t == frame_bytes(tail_seq, tail_timestamp, tail_payload).take(keep as int),
    ensures
        entries_from(frames_of(written) + t, 0) == written,
        stop_offset(frames_of(written) + t, 0) == frames_of(written).len(),
    decreases written.len(),
{
    if written.len() == 0 {
        assert(frames_of(written) + t =~= t);
        lemma_truncated_not_entry(tail_seq, tail_timestamp, tail_payload, keep);
        assert(entries_from(t, 0) =~= written);
    } else {
        let e = written[0];
        let f = frame_bytes(e.0, e.1, e.2);
        let rest = written.drop_first();
        assert(payloads_fit(rest)) by {
            assert forall|i: int| 0 <= i < rest.len() implies (#[trigger] rest[i]).2.len()
                < 0x1_0000_0000 by {
                assert(rest[i] == written[i + 1]);
            }
        }
        assert(written[0].2.len() < 0x1_0000_0000);
        lemma_segment_entries(rest, t, tail_seq, tail_timestamp, tail_payload, keep);
        let b = frames_of(rest) + t;
        assert(frames_of(written) + t =~= f + b);
        lemma_frame_is_entry(e.0, e.1, e.2, b);
        lemma_entries_shift(f, b, 0);
        assert(entries_from(f + b, 0) =~= seq![e] + entries_from(b, 0));
        assert(seq![e] + rest =~= written);
    }
}

// ── Segment files ─────────────────────────────────────────────────────────

/// `d` left-padded with `0` to at least four characters, as `{:04}` pads.
pub open spec fn zero_pad4(d: Seq<char>) -> Seq<char> {
    if d.len() < 4 {
        Seq::new((4 - d.len()) as nat, |i: int| '0') + d
    } else {
        d
    }
}

/// File name of segment `index`: `wal_` and the index padded to four
/// digits, then `.bin`.
pub open spec fn segment_name_spec(index: u32) -> Seq<char> {
    seq!['w', 'a', 'l', '_'] + zero_pad4(decimal_spec(index as nat)) + seq!['.', 'b', 'i', 'n']
}

/// `dir` joined with the relative file name `name`, as `Path::join` joins
/// them on Unix: a separator is added unless `dir` is empty or already ends
/// with one.
pub open spec fn join_spec(dir: Seq<char>, name: Seq<char>) -> Seq<char> {
    if dir.len() == 0 {
        name
    } else if dir.last() == '/' {
        dir + name
    } else {
        dir + seq!['/'] + name
    }
}

/// The segment index a file name stands for: the name must be `wal_`, four
/// decimal digits, and `.bin`.
pub open spec fn parse_segment_name_spec(n: Seq<char>) -> Option<u32> {
    if n.len() == 12 && n.take(4) == seq!['w', 'a', 'l', '_'] && n.skip(8) == seq![
        '.',
        'b',
        'i',
        'n',
    ] {
        match parse_u64_spec(n.subrange(4, 8)) {
            Some(v) => Some(v as u32),
            None => None,
        }
    } else {
        None
    }
}

proof fn lemma_digit_char(k: int)
    requires
        0 <= k < 10,
    ensures
        is_digit_spec(digit_char_spec(k)),
        digit_value(digit_char_spec(k)) == k,
{
}

proof fn lemma_decimal_digits(n: nat)
    ensures
        all_digits(decimal_spec(n)),
        digits_value(decimal_spec(n)) == n,
        1 <= decimal_spec(n).len(),
        n <= 9999 ==> decimal_spec(n).len() <= 4,
        n <= 999 ==> decimal_spec(n).len() <= 3,
        n <= 99 ==> decimal_spec(n).len() <= 2,
        n <= 9 ==> decimal_spec(n).len() <= 1,
    decreases n,
{
    if n < 10 {
        lemma_digit_char(n as int);
        let d = decimal_spec(n);
        assert(d.drop_last() =~= Seq::<char>::empty());
        assert(d.last() == digit_char_spec(n as int));
        assert(digits_value(d) == digits_value(d.drop_last()) * 10 + digit_value(d.last()));
        assert(digits_value(Seq::<char>::empty()) == 0);
    } else {
        lemma_decimal_digits(n / 10);
        lemma_digit_char((n % 10) as int);
        let d = decimal_spec(n);
        assert(d.drop_last() =~= decimal_spec(n / 10));
        assert(d.last() == digit_char_spec((n % 10) as int));
        assert(digits_value(d) == digits_value(d.drop_last()) * 10 + digit_value(d.last()));
        assert((n / 10) * 10 + n % 10 == n);
    }
}

proof fn lemma_leading_zeros(k: nat, d: Seq<char>)
    ensures
        digits_value(Seq::new(k, |i: int| '0') + d) == digits_value(d),
        all_digits(d) ==> all_digits(Seq::new(k, |i: int| '0') + d),
    decreases k + d.len(),
{
    let z = Seq::new(k, |i: int| '0');
    if d.len() == 0 {
        assert(z + d =~= z);
        if k > 0 {
            assert(z.drop_last() =~= Seq::new((k - 1) as nat, |i: int| '0'));
            lemma_leading_zeros((k - 1) as nat, d);
            assert(Seq::new((k - 1) as nat, |i: int| '0') + d =~= Seq::new((k - 1) as nat, |i: int| '0'));
        }
    } else {
        lemma_leading_zeros(k, d.drop_last());
        assert((z + d).drop_last() =~= z + d.drop_last());
    }
}

/// Segment file names round-trip: the name of every index up to 9999
/// parses back to that index.
pub proof fn lemma_segment_name_round_trip(index: u32)
    requires
        index <= 9999,
    ensures
        parse_segment_name_spec(segment_name_spec(index)) == Some(index),
{
    let d = decimal_spec(index as nat);
    lemma_decimal_digits(index as nat);
    let p = zero_pad4(d);
    if d.len() < 4 {
        lemma_leading_zeros((4 - d.len()) as nat, d);
    }
    assert(p.len() == 4);
    let n = segment_name_spec(index);
    assert(n.take(4) =~= seq!['w', 'a', 'l', '_']);
    assert(n.skip(8) =~= seq!['.', 'b', 'i', 'n']);
    assert(n.subrange(4, 8) =~= p);
}

/// `10^n`.
pub open spec fn pow10(n: nat) -> nat
    decreases n,
{
    if n == 0 {
        1
    } else {
        10 * pow10((n - 1) as nat)
    }
}

proof fn lemma_pow10_mono(a: nat, b: nat)
    requires
        a <= b,
    ensures
        pow10(a) <= pow10(b),
    decreases b,
{
    if a < b {
        lemma_pow10_mono(a, (b - 1) as nat);
    }
}

/// `n` decimal digits write a number below `10^n`.
proof fn lemma_digits_bound(d: Seq<char>)
    requires
        all_digits(d),
    ensures
        digits_value(d) < pow10(d.len()),
    decreases d.len(),
{
    if d.len() > 0 {
        assert(all_digits(d.drop_last())) by {
            assert forall|i: int| 0 <= i < d.drop_last().len() implies is_digit_spec(
                #[trigger] d.drop_last()[i],
            ) by {
                assert(d.drop_last()[i] == d[i]);
            }
        }
        lemma_digits_bound(d.drop_last());
        assert(is_digit_spec(d[d.len() - 1]));
        let a = digits_value(d.drop_last());
        let p = pow10((d.len() - 1) as nat);
        assert(a * 10 + digit_value(d.last()) < 10 * p) by (nonlinear_arith)
            requires
                a < p,
                digit_value(d.last()) <= 9,
        ;
    }
}

/// File name of segment `index`.
pub fn segment_file_name(index: u32) -> (name: String)
    ensures
        name@ == segment_name_spec(index),
{
    let digits = decimal_chars(index as u64);
    let mut v: Vec<char> = Vec::new();
    v.push('w');
    v.push('a');
    v.push('l');
    v.push('_');
    let mut k = digits.len();
    while k < 4
        invariant
            digits.len() <= k <= 4 || (k == digits.len() && digits.len() > 4),
            v@ == seq!['w', 'a', 'l', '_'] + Seq::new((k - digits.len()) as nat, |i: int| '0'),
        decreases 4 - k,
    {
        v.push('0');
        k = k + 1;
        assert(v@ =~= seq!['w', 'a', 'l', '_'] + Seq::new(
            (k - digits.len()) as nat,
            |i: int| '0',
        ));
    }
    let mut i: usize = 0;
    let ghost pre = v@;
    while i < digits.len()
        invariant
            i <= digits.len(),
            v@ == pre + digits@.take(i as int),
        decreases digits.len() - i,
    {
        v.push(digits[i]);
        i = i + 1;
        assert(v@ =~= pre + digits@.take(i as int));
    }
    v.push('.');
    v.push('b');
    v.push('i');
    v.push('n');
    assert(digits@.take(digits.len() as int) =~= digits@);
    if digits.len() < 4 {
        assert(pre =~= seq!['w', 'a', 'l', '_'] + Seq::new(
            (4 - digits@.len()) as nat,
            |i: int| '0',
        ));
    } else {
        assert(pre =~= seq!['w', 'a', 'l', '_']);
    }
    assert(v@ =~= segment_name_spec(index));
    string_of(&v)
}

/// Path of segment `index` inside the directory `dir`.
pub fn segment_path(dir: &str, index: u32) -> (path: String)
    ensures
        path@ == join_spec(dir@, segment_name_spec(index)),
{
    let name = segment_file_name(index);
    let d = chars_of(dir);
    let mut v = d.clone();
    if d.len() > 0 && d[d.len() - 1] != '/' {
        v.push('/');
    }
    let n = chars_of(name.as_str());
    let ghost pre = v@;
    let mut i: usize = 0;
    while i < n.len()
        invariant
            i <= n.len(),
            v@ == pre + n@.take(i as int),
        decreases n.len() - i,
    {
        v.push(n[i]);
        i = i + 1;
        assert(v@ =~= pre + n@.take(i as int));
    }
    assert(n@.take(n.len() as int) =~= n@);
    assert(v@ =~= join_spec(dir@, segment_name_spec(index)));
    string_of(&v)
}

/// The segment index named by `name`, if it is a segment file name.
pub fn parse_segment_name(name: &str) -> (r: Option<u32>)
    ensures
        r == parse_segment_name_spec(name@),
{
    let c = chars_of(name);
    if c.len() != 12 || c[0] != 'w' || c[1] != 'a' || c[2] != 'l' || c[3] != '_' || c[8] != '.'
        || c[9] != 'b' || c[10] != 'i' || c[11] != 'n' {
        proof {
            if c@.len() == 12 && c@.take(4) == seq!['w', 'a', 'l', '_'] && c@.skip(8) == seq![
                '.',
                'b',
                'i',
                'n',
            ] {
                assert(c@.take(4)[0] == c@[0] && c@.take(4)[1] == c@[1] && c@.take(4)[2] == c@[2]
                    && c@.take(4)[3] == c@[3]);
                assert(c@.skip(8)[0] == c@[8] && c@.skip(8)[1] == c@[9] && c@.skip(8)[2] == c@[10]
                    && c@.skip(8)[3] == c@[11]);
            }
        }
        return None;
    }
    assert(c@.take(4) =~= seq!['w', 'a', 'l', '_']);
    assert(c@.skip(8) =~= seq!['.', 'b', 'i', 'n']);
    let mut stem: Vec<char> = Vec::new();
    stem.push(c[4]);
    stem.push(c[5]);
    stem.push(c[6]);
    stem.push(c[7]);
    assert(stem@ =~= c@.subrange(4, 8));
    match parse_u64_chars(&stem) {
        Some(v) => {
            assert(v <= 9999) by {
                let d = stem@;
                lemma_digits_bound(d);
                lemma_pow10_mono(d.len(), 4);
                reveal_with_fuel(pow10, 5);
            }
            Some(v as u32)
        },
        None => None,
    }
}

/// The highest segment index among `names`, or 0 when none is a segment
/// file name.
pub open spec fn max_segment_index(names: Seq<String>) -> u32
    decreases names.len(),
{
    if names.len() == 0 {
        0
    } else {
        let prev = max_segment_index(names.drop_last());
        match parse_segment_name_spec(names.last()@) {
            Some(i) => if i > prev {
                i
            } else {
                prev
            },
            None => prev,
        }
    }
}

/// The highest segment index among the directory entry names `names`, or 0
/// when there is no segment file.
pub fn latest_segment_index(names: &Vec<String>) -> (r: u32)
    ensures
        r == max_segment_index(names@),
{
    let mut best: u32 = 0;
    let mut i: usize = 0;
    while i < names.len()
        invariant
            i <= names.len(),
            best == max_segment_index(names@.take(i as int)),
        decreases names.len() - i,
    {
        assert(names@.take(i + 1).drop_last() =~= names@.take(i as int));
        match parse_segment_name(names[i].as_str()) {
            Some(idx) => {
                if idx > best {
                    best = idx;
                }
            },
            None => {},
        }
        i = i + 1;
    }
    assert(names@.take(names.len() as int) =~= names@);
    best
}

/// `(index, position)` pairs in lexicographic order.
pub open spec fn pair_lt(a: (u32, usize), b: (u32, usize)) -> bool {
    a.0 < b.0 || (a.0 == b.0 && a.1 < b.1)
}

/// `order` lists the segment files among `names` for reading: each pair
/// holds a segment index and the position of the name that carries it, every
/// segment file appears exactly once, and the pairs ascend by index, names
/// with equal index keeping their listing order.
pub open spec fn is_segment_order(names: Seq<String>, order: Seq<(u32, usize)>) -> bool {
    &&& forall|k: int|
        0 <= k < order.len() ==> {
            &&& (#[trigger] order[k]).1 < names.len()
            &&& parse_segment_name_spec(names[order[k].1 as int]@) == Some(order[k].0)
        }
    &&& forall|p: int|
        0 <= p < names.len() && (#[trigger] parse_segment_name_spec(names[p]@)) is Some
            ==> exists|k: int| 0 <= k < order.len() && order[k].1 == p
    &&& forall|k: int, l: int| 0 <= k < l < order.len() ==> pair_lt(order[k], order[l])
}

/// The segment files among the directory entry names `names`, in reading
/// order: ascending segment index, ties in listing order.
pub fn segment_order(names: &Vec<String>) -> (order: Vec<(u32, usize)>)
    ensures
        is_segment_order(names@, order@),
{
    let mut order: Vec<(u32, usize)> = Vec::new();
    let mut p: usize = 0;
    while p < names.len()
        invariant
            p <= names.len(),
            forall|k: int|
                0 <= k < order.len() ==> {
                    &&& (#[trigger] order@[k]).1 < p
                    &&& parse_segment_name_spec(names@[order@[k].1 as int]@) == Some(
                        order@[k].0,
                    )
                },
            forall|q: int|
                0 <= q < p && (#[trigger] parse_segment_name_spec(names@[q]@)) is Some
                    ==> exists|k: int| 0 <= k < order.len() && order@[k].1 == q,
            forall|k: int, l: int| 0 <= k < l < order.len() ==> pair_lt(order@[k], order@[l]),
        decreases names.len() - p,
    {
        match parse_segment_name(names[p].as_str()) {
            Some(idx) => {
                let mut j: usize = order.len();
                while j > 0 && order[j - 1].0 > idx
                    invariant
                        j <= order.len(),
                        forall|k: int| j <= k < order.len() ==> (#[trigger] order@[k]).0 > idx,
                    decreases j,
                {
                    j = j - 1;
                }
                let ghost before = order@;
                order.insert(j, (idx, p));
                assert forall|k: int, l: int| 0 <= k < l < order.len() implies pair_lt(
                    order@[k],
                    order@[l],
                ) by {
                    if l < j {
                        assert(order@[k] == before[k] && order@[l] == before[l]);
                    } else if l == j {
                        assert(order@[k] == before[k]);
                        assert(j > 0 && !(before[j - 1].0 > idx));
                        if k < j - 1 {
                            assert(pair_lt(before[k], before[j - 1]));
                        }
                    } else if k < j {
                        assert(order@[k] == before[k] && order@[l] == before[l - 1]);
                    } else if k == j {
                        assert(order@[l] == before[l - 1]);
                    } else {
                        assert(order@[k] == before[k - 1] && order@[l] == before[l - 1]);
                    }
                }
                assert forall|q: int|
                    0 <= q < p + 1 && (#[trigger] parse_segment_name_spec(
                        names@[q]@,
                    )) is Some implies exists|k: int| 0 <= k < order.len() && order@[k].1 == q by {
                    if q == p {
                        assert(order@[j as int].1 == q);
                    } else {
                        let k0 = choose|k: int| 0 <= k < before.len() && before[k].1 == q;
                        if k0 < j {
                            assert(order@[k0].1 == q);
                        } else {
                            assert(order@[k0 + 1].1 == q);
                        }
                    }
                }
            },
            None => {},
        }
        p = p + 1;
    }
    order
}

// ── Writer decisions ──────────────────────────────────────────────────────

/// Where the writer starts: the segment to append to, and whether its
/// existing entries must be read to learn the next sequence number. With no
/// segment on disk (`latest_index == 0`) a fresh log starts at segment 1.
pub fn starting_segment(latest_index: u32) -> (r: (u32, bool))
    ensures
        r == (if latest_index == 0 { (1u32, false) } else { (latest_index, true) }),
{
    if latest_index == 0 {
        (1, false)
    } else {
        (latest_index, true)
    }
}

/// The bookkeeping of an open log writer: which segment it appends to, how
/// large that segment is, the next sequence number, and how many bytes were
/// written since the last data sync.
#[derive(Clone, Copy, Debug, PartialEq, Eq, Structural)]
pub struct WalWriterState {
    /// Index of the segment being appended to.
    pub segment_index: u32,
    /// Bytes in that segment.
    pub segment_bytes: u64,
    /// Sequence number the next entry receives.
    pub next_seq: u64,
    /// Bytes written since the last data sync.
    pub unflushed_bytes: u64,
}

/// The bookkeeping after a frame of `frame_len` bytes was written.
pub open spec fn write_effect(s: WalWriterState, frame_len: u64) -> WalWriterState {
    WalWriterState {
        segment_index: s.segment_index,
        segment_bytes: (s.segment_bytes + frame_len) as u64,
        next_seq: (s.next_seq + 1) as u64,
        unflushed_bytes: (s.unflushed_bytes + frame_len) as u64,
    }
}

/// One step of a writer's bookkeeping, from `a` to `b`: a write, which
/// hands out the number `wrote` holds, or a sync or either half of a
/// rotation, which hand out none.
pub open spec fn bookkeeping_step(a: WalWriterState, b: WalWriterState, wrote: Option<u64>) -> bool {
    ||| wrote == Some(a.next_seq) && exists|len: u64| b == #[trigger] write_effect(a, len)
    ||| wrote is None && b == (WalWriterState { unflushed_bytes: 0, ..a })
    ||| wrote is None && b == (WalWriterState { segment_index: (a.segment_index + 1) as u32, ..a })
    ||| wrote is None && b == (WalWriterState { segment_bytes: 0, ..a })
}

/// The numbers handed out, in order.
pub open spec fn handed_out(wrote: Seq<Option<u64>>) -> Seq<u64>
    decreases wrote.len(),
{
    if wrote.len() == 0 {
        Seq::empty()
    } else {
        let rest = handed_out(wrote.drop_last());
        match wrote.last() {
            Some(n) => rest.push(n),
            None => rest,
        }
    }
}

/// Sequence numbers continue without reuse: along any run of bookkeeping
/// steps in which no number overflows, the writes hand out the numbers
/// `s0`, `s0 + 1`, ... in order, where `s0` is the next number at the
/// start — after reopening, one past the last intact entry of the whole
/// log (see [`WalWriterState::resumed`]).
pub proof fn lemma_sequence_numbers_continue(states: Seq<WalWriterState>, wrote: Seq<Option<u64>>)
    requires
        states.len() == wrote.len() + 1,
        forall|i: int| 0 <= i < wrote.len() ==> bookkeeping_step(states[i], #[trigger] states[i + 1], wrote[i]),
        forall|i: int| 0 <= i < wrote.len() ==> (#[trigger] states[i]).next_seq < u64::MAX,
    ensures
        states.last().next_seq == states[0].next_seq + handed_out(wrote).len(),
        forall|j: int| 0 <= j < handed_out(wrote).len() ==> #[trigger] handed_out(wrote)[j] == states[0].next_seq + j,
    decreases wrote.len(),
{
    if wrote.len() > 0 {
        let n = wrote.len() - 1;
        let st = states.drop_last();
        assert forall|i: int| 0 <= i < wrote.drop_last().len() implies bookkeeping_step(st[i], #[trigger] st[i + 1], wrote.drop_last()[i]) by {
            assert(st[i] == states[i] && st[i + 1] == states[i + 1]);
            assert(bookkeeping_step(states[i], states[i + 1], wrote[i]));
        }
        assert forall|i: int| 0 <= i < wrote.drop_last().len() implies (#[trigger] st[i]).next_seq < u64::MAX by {
            assert(st[i] == states[i]);
        }
        lemma_sequence_numbers_continue(st, wrote.drop_last());
        assert(bookkeeping_step(states[n], states[n + 1], wrote[n]));
        assert(st.last() == states[n]);
        assert(states.last() == states[n + 1]);
        if wrote[n] is Some {
            let len = choose|len: u64| states[n + 1] == #[trigger] write_effect(states[n], len);
        }
    }
}

impl WalWriterState {
    /// The state of a writer reopening the log whose segments read as
    /// `scan`, appending to segment `segment_index` of `segment_bytes`
    /// bytes: it continues with the number one past the last intact entry
    /// of the whole log; `None` when reading stopped at corruption.
    pub fn resumed(segment_index: u32, segment_bytes: u64, scan: &WalScan) -> (r: Option<Self>)
        ensures
            r is None <==> resume_across_spec(scan.entries@, scan.stop) is None,
            r matches Some(s) ==> s == (WalWriterState {
                segment_index,
                segment_bytes,
                next_seq: resume_across_spec(scan.entries@, scan.stop)->0,
                unflushed_bytes: 0,
            }),
    {
        match resume_sequence_across(scan) {
            Some(next_seq) => Some(Self::opened(segment_index, segment_bytes, next_seq)),
            None => None,
        }
    }

    /// The state right after opening segment `segment_index`, which already
    /// holds `segment_bytes` bytes.
    pub fn opened(segment_index: u32, segment_bytes: u64, next_seq: u64) -> (s: Self)
        ensures
            s == (WalWriterState { segment_index, segment_bytes, next_seq, unflushed_bytes: 0 }),
    {
        WalWriterState { segment_index, segment_bytes, next_seq, unflushed_bytes: 0 }
    }

    /// Records that a frame of `frame_len` bytes was written; returns the
    /// sequence number the entry received.
    pub fn record_write(&mut self, frame_len: u64) -> (seq: u64)
        requires
            old(self).next_seq < u64::MAX,
            old(self).segment_bytes + frame_len <= u64::MAX,
            old(self).unflushed_bytes + frame_len <= u64::MAX,
        ensures
            seq == old(self).next_seq,
            *final(self) == write_effect(*old(self), frame_len),
    {
        let seq = self.next_seq;
        self.segment_bytes = self.segment_bytes + frame_len;
        self.unflushed_bytes = self.unflushed_bytes + frame_len;
        self.next_seq = self.next_seq + 1;
        seq
    }

    /// Whether a data sync is due: at least 1 KiB unsynced, or at least 1 ms
    /// since the last sync.
    pub fn needs_sync(&self, elapsed_micros: u64) -> (r: bool)
        ensures
            r == (self.unflushed_bytes >= FSYNC_BYTE_THRESHOLD || elapsed_micros
                >= FSYNC_TIME_THRESHOLD_MICROS),
    {
        self.unflushed_bytes >= FSYNC_BYTE_THRESHOLD || elapsed_micros >= FSYNC_TIME_THRESHOLD_MICROS
    }

    /// Records a successful data sync.
    pub fn record_sync(&mut self)
        ensures
            *final(self) == (WalWriterState { unflushed_bytes: 0, ..*old(self) }),
    {
        self.unflushed_bytes = 0;
    }

    /// Whether the current segment has reached the rotation size.
    pub fn needs_rotation(&self) -> (r: bool)
        ensures
            r == (self.segment_bytes >= SEGMENT_ROTATE_BYTES),
    {
        self.segment_bytes >= SEGMENT_ROTATE_BYTES
    }

    /// Moves to the next segment index; returns the index of the segment to
    /// open. The index advances even if opening that file then fails.
    pub fn begin_rotation(&mut self) -> (next: u32)
        requires
            old(self).segment_index < u32::MAX,
        ensures
            next == old(self).segment_index + 1,
            *final(self) == (WalWriterState { segment_index: next, ..*old(self) }),
    {
        self.segment_index = self.segment_index + 1;
        self.segment_index
    }

    /// Records that the new segment file is open and empty.
    pub fn finish_rotation(&mut self)
        ensures
            *final(self) == (WalWriterState { segment_bytes: 0, ..*old(self) }),
    {
        self.segment_bytes = 0;
    }
}

} // verus!
