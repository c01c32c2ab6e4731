//! The Standard MIDI File codec: variable-length quantities, the event-stream
//! scanner that collects note-on pitches, the chunk-level decoder, and the
//! encoder that emits a complete file.

use vstd::prelude::*;
use vstd::arithmetic::div_mod::{
    lemma_add_mod_noop, lemma_fundamental_div_mod, lemma_fundamental_div_mod_converse,
    lemma_mul_mod_noop_left, lemma_small_mod,
};
use crate::rng::rand_in_range;

verus! {

/// The pitches of one track, in the order their note-on events appear.
pub type MidiTrack = Vec<u8>;

/// Everything that can go wrong while decoding a MIDI byte stream.
#[derive(Debug, Clone, Copy, PartialEq, Eq)]
pub enum MidiError {
    /// A malformed file header, or (with the track index) a malformed track
    /// chunk tag.
    InvalidFile(Option<u16>),
    /// The requested track index is at least the file's declared track count.
    InvalidTrackNumber(u16),
    /// The bytes ran out in the middle of a structurally required field.
    TruncatedStream,
    /// The bytes ran out at an event boundary before any end-of-track marker.
    UnexpectedEndOfTrack,
    /// The track loop ended without reaching the requested track; unreachable
    /// once the track count has been checked, and kept as a defensive variant.
    UnknownError,
}

// ---------------------------------------------------------------------------
// Variable-length quantities
// ---------------------------------------------------------------------------

/// Does a variable-length quantity starting at `pos` terminate inside `s`?
/// A byte below 128 (continuation bit clear) terminates it.
pub open spec fn vlq_has_end(s: Seq<u8>, pos: int) -> bool
    decreases s.len() - pos,
{
    if pos < 0 || pos >= s.len() {
        false
    } else if s[pos] < 128 {
        true
    } else {
        vlq_has_end(s, pos + 1)
    }
}

/// Index of the terminating byte of the quantity starting at `pos`.
pub open spec fn vlq_end(s: Seq<u8>, pos: int) -> int
    recommends
        vlq_has_end(s, pos),
    decreases s.len() - pos,
{
    if pos < 0 || pos >= s.len() {
        pos
    } else if s[pos] < 128 {
        pos
    } else {
        vlq_end(s, pos + 1)
    }
}

/// The unbounded value of a quantity's byte string: seven payload bits per
/// byte, most significant byte first.
pub open spec fn vlq_value_nat(s: Seq<u8>) -> nat
    decreases s.len(),
{
    if s.len() == 0 {
        0
    } else {
        vlq_value_nat(s.drop_last()) * 128 + (s.last() % 128) as nat
    }
}

/// The value a 32-bit decoder produces: the unbounded value reduced mod 2^32.
pub open spec fn vlq_value(s: Seq<u8>) -> u32 {
    (vlq_value_nat(s) % 0x1_0000_0000) as u32
}

/// Every byte but the last carries the continuation bit; the last does not.
pub open spec fn vlq_wellformed(s: Seq<u8>) -> bool {
    &&& s.len() >= 1
    &&& forall|i: int| 0 <= i < s.len() - 1 ==> s[i] >= 128
    &&& s[s.len() - 1] < 128
}

/// Well-formed with no redundant leading zero group.
pub open spec fn vlq_minimal(s: Seq<u8>) -> bool {
    &&& vlq_wellformed(s)
    &&& s.len() > 1 ==> s[0] % 128 != 0
}

/// Reads one variable-length quantity from `data` at `pos`: bytes are
/// consumed through the first one whose continuation bit is clear, and the
/// accumulated value is returned together with the position just past it.
/// Fails with `TruncatedStream` when the bytes run out first.
pub fn extract_varlen(data: &Vec<u8>, pos: usize) -> (res: Result<(u32, usize), MidiError>)
    requires
        pos <= data@.len(),
    ensures
        vlq_has_end(data@, pos as int) ==> res == Ok::<(u32, usize), MidiError>((
            vlq_value(data@.subrange(pos as int, vlq_end(data@, pos as int) + 1)),
            (vlq_end(data@, pos as int) + 1) as usize,
        )),
        !vlq_has_end(data@, pos as int) ==> res == Err::<(u32, usize), MidiError>(
            MidiError::TruncatedStream,
        ),
{
    let ghost s = data@;
    let mut i: usize = pos;
    let mut acc: u32 = 0;
    loop
        invariant
            pos <= i <= s.len(),
            s == data@,
            forall|j: int| pos <= j < i ==> s[j] >= 128,
            acc == vlq_value(s.subrange(pos as int, i as int)),
            vlq_has_end(s, pos as int) == vlq_has_end(s, i as int),
            vlq_has_end(s, pos as int) ==> vlq_end(s, pos as int) == vlq_end(s, i as int),
        decreases s.len() - i,
    {
        if i >= data.len() {
            return Err(MidiError::TruncatedStream);
        }
        let b = data[i];
        let wide: u64 = (acc as u64) * 128 + (b % 128) as u64;
        let acc2: u32 = (wide % 0x1_0000_0000) as u32;
        proof {
            lemma_vlq_value_step(s, pos as int, i as int, acc, acc2);
        }
        acc = acc2;
        i = i + 1;
        if b < 128 {
            return Ok((acc, i));
        }
    }
}

/// One accumulation step of the decoder preserves the mod-2^32 value.
proof fn lemma_vlq_value_step(s: Seq<u8>, pos: int, i: int, acc: u32, acc2: u32)
    requires
        0 <= pos <= i < s.len(),
        acc == vlq_value(s.subrange(pos, i)),
        acc2 == ((acc as int) * 128 + (s[i] % 128) as int) % 0x1_0000_0000,
    ensures
        acc2 == vlq_value(s.subrange(pos, i + 1)),
{
    let m = 0x1_0000_0000int;
    let sub1 = s.subrange(pos, i + 1);
    let sub0 = s.subrange(pos, i);
    assert(sub1.drop_last() =~= sub0);
    assert(sub1.last() == s[i]);
    let n = vlq_value_nat(sub0) as int;
    let g = (s[i] % 128) as int;
    assert(vlq_value_nat(sub1) == n * 128 + g);
    assert(acc == n % m);
    lemma_mul_mod_noop_left(n, 128, m);
    lemma_add_mod_noop(n * 128, g, m);
    lemma_add_mod_noop((n % m) * 128, g, m);
    lemma_small_mod(g as nat, m as nat);
    assert(((n % m) * 128 + g) % m == (n * 128 + g) % m);
}

/// Appends the minimal big-endian seven-bit groups of `v`, continuation bits
/// set on every byte, to `out`.
fn encode_varlen_cont(v: u32, out: &mut Vec<u8>)
    ensures
        final(out)@ == old(out)@ + vlq_encoding_cont(v as nat),
    decreases v,
{
    if v >= 128 {
        encode_varlen_cont(v / 128, out);
        out.push((v % 128 + 128) as u8);
        assert(final(out)@ =~= old(out)@ + vlq_encoding_cont(v as nat));
    } else {
        out.push((v + 128) as u8);
        assert(final(out)@ =~= old(out)@ + vlq_encoding_cont(v as nat));
    }
}

/// The minimal encoding of `v`: big-endian seven-bit groups, continuation
/// bits set on every byte but the last.
pub open spec fn vlq_encoding(v: nat) -> Seq<u8>
    decreases v,
{
    if v < 128 {
        seq![v as u8]
    } else {
        vlq_encoding_cont(v / 128).push((v % 128) as u8)
    }
}

/// The groups of `v` as they appear before a terminating byte: each with the
/// continuation bit set.
pub open spec fn vlq_encoding_cont(v: nat) -> Seq<u8>
    decreases v,
{
    if v < 128 {
        seq![(v + 128) as u8]
    } else {
        vlq_encoding_cont(v / 128).push((v % 128 + 128) as u8)
    }
}

/// Encodes `value` as a minimal variable-length quantity.
pub fn encode_varlen(value: u32) -> (r: Vec<u8>)
    ensures
        r@ == vlq_encoding(value as nat),
{
    let mut r: Vec<u8> = Vec::new();
    if value >= 128 {
        encode_varlen_cont(value / 128, &mut r);
        r.push((value % 128) as u8);
        assert(r@ =~= vlq_encoding(value as nat));
    } else {
        r.push(value as u8);
        assert(r@ =~= vlq_encoding(value as nat));
    }
    r
}

/// The continuation groups of `v` are all marked, decode back to `v`, and
/// (for positive `v`) start with a nonzero group.
proof fn lemma_vlq_cont(v: nat)
    ensures
        vlq_encoding_cont(v).len() >= 1,
        forall|i: int|
            0 <= i < vlq_encoding_cont(v).len() ==> #[trigger] vlq_encoding_cont(v)[i] >= 128,
        vlq_value_nat(vlq_encoding_cont(v)) == v,
        v >= 1 ==> vlq_encoding_cont(v)[0] % 128 != 0,
    decreases v,
{
    if v < 128 {
        let s = vlq_encoding_cont(v);
        assert(s =~= seq![(v + 128) as u8]);
        assert(s.drop_last() =~= Seq::<u8>::empty());
        assert(vlq_value_nat(Seq::<u8>::empty()) == 0);
        assert(vlq_value_nat(s) == v);
    } else {
        lemma_vlq_cont(v / 128);
        let pre = vlq_encoding_cont(v / 128);
        let s = vlq_encoding_cont(v);
        assert(s == pre.push((v % 128 + 128) as u8));
        assert(s.drop_last() =~= pre);
        assert(vlq_value_nat(s) == vlq_value_nat(pre) * 128 + ((v % 128 + 128) as u8 % 128) as nat);
        lemma_fundamental_div_mod(v as int, 128);
        assert(forall|i: int| 0 <= i < s.len() ==> #[trigger] s[i] >= 128) by {
            assert(forall|i: int| 0 <= i < pre.len() ==> #[trigger] pre[i] >= 128);
        }
        assert(v / 128 >= 1) by {
            lemma_fundamental_div_mod(v as int, 128);
        }
        assert(s[0] == pre[0]);
    }
}

/// Encoding then decoding is the identity on values: the minimal encoding of
/// any value is a minimal well-formed quantity that decodes back to it.
pub proof fn lemma_vlq_decode_encode(v: nat)
    ensures
        vlq_minimal(vlq_encoding(v)),
        vlq_value_nat(vlq_encoding(v)) == v,
    decreases v,
{
    if v < 128 {
        let s = vlq_encoding(v);
        assert(s =~= seq![v as u8]);
        assert(s.drop_last() =~= Seq::<u8>::empty());
        assert(vlq_value_nat(Seq::<u8>::empty()) == 0);
        assert(vlq_value_nat(s) == v);
    } else {
        lemma_vlq_cont(v / 128);
        let pre = vlq_encoding_cont(v / 128);
        let s = vlq_encoding(v);
        assert(s == pre.push((v % 128) as u8));
        assert(s.drop_last() =~= pre);
        assert(vlq_value_nat(s) == vlq_value_nat(pre) * 128 + ((v % 128) as u8 % 128) as nat);
        lemma_fundamental_div_mod(v as int, 128);
        assert(v / 128 >= 1) by {
            lemma_fundamental_div_mod(v as int, 128);
        }
        assert(s[0] == pre[0]);
        assert(s[s.len() - 1] < 128);
    }
}

/// A leading nonzero group bounds the value from below.
proof fn lemma_vlq_leading_nonzero(s: Seq<u8>)
    requires
        s.len() >= 1,
        s[0] % 128 != 0,
    ensures
        vlq_value_nat(s) >= 1,
        s.len() >= 2 ==> vlq_value_nat(s) >= 128,
    decreases s.len(),
{
    if s.len() == 1 {
        assert(s.drop_last() =~= Seq::<u8>::empty());
    } else {
        let pre = s.drop_last();
        assert(pre[0] == s[0]);
        lemma_vlq_leading_nonzero(pre);
        assert(vlq_value_nat(s) == vlq_value_nat(pre) * 128 + (s.last() % 128) as nat);
        assert(vlq_value_nat(pre) * 128 >= 128) by (nonlinear_arith)
            requires vlq_value_nat(pre) >= 1,
        ;
    }
}

/// Completeness for continuation strings: a nonempty all-continuation string
/// with a nonzero leading group is reproduced by `vlq_encoding_cont`.
proof fn lemma_vlq_cont_complete(s: Seq<u8>)
    requires
        s.len() >= 1,
        forall|i: int| 0 <= i < s.len() ==> s[i] >= 128,
        s[0] % 128 != 0,
    ensures
        vlq_encoding_cont(vlq_value_nat(s)) == s,
    decreases s.len(),
{
    let v = vlq_value_nat(s);
    lemma_vlq_leading_nonzero(s);
    if s.len() == 1 {
        assert(s.drop_last() =~= Seq::<u8>::empty());
        assert(vlq_value_nat(Seq::<u8>::empty()) == 0);
        assert(v == (s[0] % 128) as nat);
        assert(v < 128);
        assert(vlq_encoding_cont(v) =~= seq![(v + 128) as u8]);
        assert((v + 128) as u8 == s[0]);
        assert(vlq_encoding_cont(v) =~= s);
    } else {
        let pre = s.drop_last();
        let n = vlq_value_nat(pre);
        let g = (s.last() % 128) as nat;
        assert(pre[0] == s[0]);
        lemma_vlq_leading_nonzero(pre);
        assert(v == n * 128 + g);
        assert(v >= 128);
        lemma_fundamental_div_mod_converse(v as int, 128, n as int, g as int);
        assert(v / 128 == n && v % 128 == g);
        lemma_vlq_cont_complete(pre);
        assert((v % 128 + 128) as u8 == s.last());
        assert(vlq_encoding_cont(v) == pre.push(s.last()));
        assert(pre.push(s.last()) =~= s);
    }
}

/// Decoding then encoding is the identity on byte strings: any minimal
/// well-formed quantity is reproduced exactly by encoding its value.
pub proof fn lemma_vlq_encode_decode(s: Seq<u8>)
    requires
        vlq_minimal(s),
    ensures
        vlq_encoding(vlq_value_nat(s)) == s,
    decreases s.len(),
{
    let v = vlq_value_nat(s);
    if s.len() == 1 {
        assert(s.drop_last() =~= Seq::<u8>::empty());
        assert(vlq_value_nat(Seq::<u8>::empty()) == 0);
        assert(v == (s[0] % 128) as nat);
        assert(v < 128);
        assert(vlq_encoding(v) =~= seq![v as u8]);
        assert(v as u8 == s[0]);
        assert(vlq_encoding(v) =~= s);
    } else {
        let pre = s.drop_last();
        let n = vlq_value_nat(pre);
        let g = (s.last() % 128) as nat;
        assert(pre[0] == s[0]);
        lemma_vlq_leading_nonzero(pre);
        assert(v == n * 128 + g);
        assert(v >= 128);
        lemma_fundamental_div_mod_converse(v as int, 128, n as int, g as int);
        lemma_vlq_cont_complete(pre);
        assert((v % 128) as u8 == s.last());
        assert(vlq_encoding(v) == pre.push(s.last()));
        assert(pre.push(s.last()) =~= s);
    }
}

/// A well-formed quantity occupying all of `s` from `pos` terminates exactly
/// at the last byte.
proof fn lemma_vlq_wf_has_end_from(s: Seq<u8>, pos: int)
    requires
        vlq_wellformed(s),
        0 <= pos < s.len(),
    ensures
        vlq_has_end(s, pos),
        vlq_end(s, pos) == s.len() - 1,
    decreases s.len() - pos,
{
    if pos < s.len() - 1 {
        lemma_vlq_wf_has_end_from(s, pos + 1);
    }
}

/// A quantity that terminates does so at or after its first byte, inside the
/// buffer.
proof fn lemma_vlq_end_ge(s: Seq<u8>, pos: int)
    requires
        0 <= pos,
        vlq_has_end(s, pos),
    ensures
        pos <= vlq_end(s, pos) < s.len(),
    decreases s.len() - pos,
{
    if s[pos] >= 128 {
        lemma_vlq_end_ge(s, pos + 1);
    }
}

/// The full round trip a 32-bit caller sees: the minimal encoding of `v` is
/// a single quantity filling its buffer, and decoding it yields `v` again.
pub proof fn lemma_vlq_round_trip(v: u32)
    ensures
        vlq_minimal(vlq_encoding(v as nat)),
        vlq_has_end(vlq_encoding(v as nat), 0),
        vlq_end(vlq_encoding(v as nat), 0) == vlq_encoding(v as nat).len() - 1,
        vlq_value(vlq_encoding(v as nat)) == v,
{
    lemma_vlq_decode_encode(v as nat);
    lemma_vlq_wf_has_end_from(vlq_encoding(v as nat), 0);
    lemma_small_mod(v as nat, 0x1_0000_0000);
}

// ---------------------------------------------------------------------------
// Event-stream scanner
// ---------------------------------------------------------------------------

/// Prepends the pitches one event emitted to the rest of a scan.
pub open spec fn scan_cons(
    emitted: Seq<u8>,
    rest: Result<(Seq<u8>, int), MidiError>,
) -> Result<(Seq<u8>, int), MidiError> {
    match rest {
        Ok(r) => Ok((emitted + r.0, r.1)),
        Err(e) => Err(e),
    }
}

/// The scan of one track body from `pos`, with `last_event` the status byte
/// that running status would reuse. Each step consumes a delta-time quantity
/// and one event; a meta end-of-track event (status 0xFF, type 0x2F) ends the
/// scan, yielding the note-on pitches with nonzero velocity and the position
/// just past the marker.
pub open spec fn scan_spec(s: Seq<u8>, pos: int, last_event: u8) -> Result<
    (Seq<u8>, int),
    MidiError,
>
    decreases s.len() - pos,
        via scan_spec_dec
{
    if pos < 0 || pos >= s.len() {
        Err(MidiError::UnexpectedEndOfTrack)
    } else if !vlq_has_end(s, pos) {
        Err(MidiError::TruncatedStream)
    } else {
        let p1 = vlq_end(s, pos) + 1;
        if p1 >= s.len() {
            Err(MidiError::TruncatedStream)
        } else {
            let first_byte = s[p1];
            let need_reuse = first_byte < 128;
            let type_and_channel = if need_reuse {
                last_event
            } else {
                first_byte
            };
            if !need_reuse && p1 + 1 >= s.len() {
                Err(MidiError::TruncatedStream)
            } else {
                let param_1 = if need_reuse {
                    first_byte
                } else {
                    s[p1 + 1]
                };
                let p2 = if need_reuse {
                    p1 + 1
                } else {
                    p1 + 2
                };
                if type_and_channel == 0xFF {
                    if !vlq_has_end(s, p2) {
                        Err(MidiError::TruncatedStream)
                    } else {
                        let meta_len = vlq_value(s.subrange(p2, vlq_end(s, p2) + 1)) as int;
                        let p3 = vlq_end(s, p2) + 1 + meta_len;
                        if p3 > s.len() {
                            Err(MidiError::TruncatedStream)
                        } else if param_1 == 0x2F {
                            Ok((Seq::empty(), p3))
                        } else {
                            scan_cons(Seq::empty(), scan_spec(s, p3, type_and_channel))
                        }
                    }
                } else if type_and_channel / 16 == 0xF {
                    if !vlq_has_end(s, p2) {
                        Err(MidiError::TruncatedStream)
                    } else {
                        let sysex_len = vlq_value(s.subrange(p2, vlq_end(s, p2) + 1)) as int;
                        let p3 = vlq_end(s, p2) + 1 + sysex_len;
                        if p3 > s.len() {
                            Err(MidiError::TruncatedStream)
                        } else {
                            scan_cons(Seq::empty(), scan_spec(s, p3, type_and_channel))
                        }
                    }
                } else if type_and_channel / 16 == 9 {
                    if p2 >= s.len() {
                        Err(MidiError::TruncatedStream)
                    } else {
                        let emitted = if s[p2] != 0 {
                            seq![param_1]
                        } else {
                            Seq::empty()
                        };
                        scan_cons(emitted, scan_spec(s, p2 + 1, type_and_channel))
                    }
                } else if type_and_channel / 16 == 8 || type_and_channel / 16 == 0xA
                    || type_and_channel / 16 == 0xB || type_and_channel / 16 == 0xE {
                    if p2 >= s.len() {
                        Err(MidiError::TruncatedStream)
                    } else {
                        scan_cons(Seq::empty(), scan_spec(s, p2 + 1, type_and_channel))
                    }
                } else {
                    scan_cons(Seq::empty(), scan_spec(s, p2, type_and_channel))
                }
            }
        }
    }
}

#[via_fn]
proof fn scan_spec_dec(s: Seq<u8>, pos: int, last_event: u8) {
    if 0 <= pos && pos < s.len() && vlq_has_end(s, pos) {
        lemma_vlq_end_ge(s, pos);
        let p1 = vlq_end(s, pos) + 1;
        if p1 < s.len() {
            let need_reuse = s[p1] < 128;
            let p2 = if need_reuse {
                p1 + 1
            } else {
                p1 + 2
            };
            if vlq_has_end(s, p2) {
                lemma_vlq_end_ge(s, p2);
            }
        }
    }
}

/// Scans one track's events starting at `pos` and collects the pitches of
/// the note-on events with nonzero velocity, applying running status, until
/// the meta end-of-track marker.
pub fn get_track_notes(data: &Vec<u8>, pos: usize) -> (res: Result<MidiTrack, MidiError>)
    requires
        pos <= data@.len(),
    ensures
        match scan_spec(data@, pos as int, 0u8) {
            Ok(r) => res matches Ok(v) && v@ == r.0,
            Err(e) => res == Err::<MidiTrack, MidiError>(e),
        },
{
    let ghost s = data@;
    let mut notes: Vec<u8> = Vec::new();
    let mut last_event: u8 = 0;
    let mut i: usize = pos;
    proof {
        match scan_spec(s, pos as int, 0u8) {
            Ok(r) => {
                assert(Seq::<u8>::empty() + r.0 =~= r.0);
            },
            Err(_) => {},
        }
    }
    loop
        invariant
            s == data@,
            i <= s.len(),
            match scan_spec(s, i as int, last_event) {
                Ok(r) => scan_spec(s, pos as int, 0u8) == Ok::<(Seq<u8>, int), MidiError>(
                    (notes@ + r.0, r.1),
                ),
                Err(e) => scan_spec(s, pos as int, 0u8) == Err::<(Seq<u8>, int), MidiError>(e),
            },
        decreases s.len() - i,
    {
        if i >= data.len() {
            return Err(MidiError::UnexpectedEndOfTrack);
        }
        let p1 = match extract_varlen(data, i) {
            Ok(p) => p.1,
            Err(e) => {
                return Err(e);
            },
        };
        proof {
            lemma_vlq_end_ge(s, i as int);
        }
        if p1 >= data.len() {
            return Err(MidiError::TruncatedStream);
        }
        let first_byte = data[p1];
        let need_reuse = first_byte < 128;
        let type_and_channel = if need_reuse {
            last_event
        } else {
            first_byte
        };
        let event_type = type_and_channel / 16;
        let (param_1, p2) = if need_reuse {
            (first_byte, p1 + 1)
        } else {
            if p1 + 1 >= data.len() {
                return Err(MidiError::TruncatedStream);
            }
            (data[p1 + 1], p1 + 2)
        };
        let ghost notes_before = notes@;
        let ghost mut em: Seq<u8> = Seq::empty();
        let next_i: usize;
        if type_and_channel == 0xFF {
            let ml = match extract_varlen(data, p2) {
                Ok(p) => p,
                Err(e) => {
                    return Err(e);
                },
            };
            proof {
                lemma_vlq_end_ge(s, p2 as int);
            }
            let meta_len = ml.0 as usize;
            let p3 = ml.1;
            if meta_len > data.len() - p3 {
                return Err(MidiError::TruncatedStream);
            }
            let after = p3 + meta_len;
            if param_1 == 0x2F {
                proof {
                    assert(notes@ + Seq::<u8>::empty() =~= notes@);
                }
                return Ok(notes);
            }
            next_i = after;
        } else if event_type == 0xF {
            let sl = match extract_varlen(data, p2) {
                Ok(p) => p,
                Err(e) => {
                    return Err(e);
                },
            };
            proof {
                lemma_vlq_end_ge(s, p2 as int);
            }
            let sysex_len = sl.0 as usize;
            let p3 = sl.1;
            if sysex_len > data.len() - p3 {
                return Err(MidiError::TruncatedStream);
            }
            next_i = p3 + sysex_len;
        } else if event_type == 9 {
            if p2 >= data.len() {
                return Err(MidiError::TruncatedStream);
            }
            let velocity = data[p2];
            if velocity != 0 {
                notes.push(param_1);
                proof {
                    em = seq![param_1];
                }
            }
            next_i = p2 + 1;
        } else if event_type == 8 || event_type == 0xA || event_type == 0xB || event_type == 0xE {
            if p2 >= data.len() {
                return Err(MidiError::TruncatedStream);
            }
            next_i = p2 + 1;
        } else {
            next_i = p2;
        }
        proof {
            assert(scan_spec(s, i as int, last_event) == scan_cons(
                em,
                scan_spec(s, next_i as int, type_and_channel),
            ));
            assert(notes@ =~= notes_before + em);
            match scan_spec(s, next_i as int, type_and_channel) {
                Ok(r2) => {
                    assert((notes_before + em) + r2.0 =~= notes_before + (em + r2.0));
                },
                Err(_) => {},
            }
        }
        last_event = type_and_channel;
        i = next_i;
    }
}

// ---------------------------------------------------------------------------
// File-level decoder
// ---------------------------------------------------------------------------

/// The file header tag `MThd`.
pub open spec fn mthd_tag() -> Seq<u8> {
    seq![0x4Du8, 0x54u8, 0x68u8, 0x64u8]
}

/// The track chunk tag `MTrk`.
pub open spec fn mtrk_tag() -> Seq<u8> {
    seq![0x4Du8, 0x54u8, 0x72u8, 0x6Bu8]
}

/// A big-endian 16-bit integer from two bytes.
pub open spec fn be16(b0: u8, b1: u8) -> int {
    b0 * 256 + b1
}

/// A big-endian 32-bit integer from four bytes.
pub open spec fn be32(b0: u8, b1: u8, b2: u8, b3: u8) -> int {
    ((b0 * 256 + b1) * 256 + b2) * 256 + b3
}

/// Walks the track chunks from `pos` (chunk index `tn`) to the start of the
/// body of track `track_no`: each chunk must carry the `MTrk` tag, and the
/// chunks before the requested one are skipped over by their declared length.
pub open spec fn find_track(s: Seq<u8>, pos: int, tn: u16, track_no: u16, ntracks: u16) -> Result<
    int,
    MidiError,
>
    decreases ntracks - tn,
{
    if tn >= ntracks {
        Err(MidiError::UnknownError)
    } else if pos + 4 > s.len() {
        Err(MidiError::TruncatedStream)
    } else if s.subrange(pos, pos + 4) != mtrk_tag() {
        Err(MidiError::InvalidFile(Some(tn)))
    } else if pos + 8 > s.len() {
        Err(MidiError::TruncatedStream)
    } else {
        let chunk = be32(s[pos + 4], s[pos + 5], s[pos + 6], s[pos + 7]);
        if tn == track_no {
            Ok(pos + 8)
        } else if pos + 8 + chunk > s.len() {
            Err(MidiError::TruncatedStream)
        } else {
            find_track(s, pos + 8 + chunk, (tn + 1) as u16, track_no, ntracks)
        }
    }
}

/// Locating track `track_no` and then scanning its events.
pub open spec fn decode_from(s: Seq<u8>, pos: int, tn: u16, track_no: u16, ntracks: u16) -> Result<
    Seq<u8>,
    MidiError,
> {
    match find_track(s, pos, tn, track_no, ntracks) {
        Ok(p) => match scan_spec(s, p, 0u8) {
            Ok(r) => Ok(r.0),
            Err(e) => Err(e),
        },
        Err(e) => Err(e),
    }
}

/// The whole decode of a file: validate the `MThd` tag, read the declared
/// track count (the header length and format fields are skipped, not
/// validated), check the requested index against it before any track is
/// touched, skip the time division, then find and scan the requested track.
pub open spec fn decode_spec(s: Seq<u8>, track_no: u16) -> Result<Seq<u8>, MidiError> {
    if s.len() < 4 {
        Err(MidiError::TruncatedStream)
    } else if s.subrange(0, 4) != mthd_tag() {
        Err(MidiError::InvalidFile(None))
    } else if s.len() < 12 {
        Err(MidiError::TruncatedStream)
    } else {
        let ntracks = be16(s[10], s[11]);
        if track_no >= ntracks {
            Err(MidiError::InvalidTrackNumber(track_no))
        } else if s.len() < 14 {
            Err(MidiError::TruncatedStream)
        } else {
            decode_from(s, 14, 0, track_no, ntracks as u16)
        }
    }
}

/// Decodes the note-on pitches of track `track_no` from the bytes of a
/// Standard MIDI File.
pub fn get_notes(data: &Vec<u8>, track_no: u16) -> (res: Result<MidiTrack, MidiError>)
    ensures
        match decode_spec(data@, track_no) {
            Ok(ns) => res matches Ok(v) && v@ == ns,
            Err(e) => res == Err::<MidiTrack, MidiError>(e),
        },
{
    let ghost s = data@;
    if data.len() < 4 {
        return Err(MidiError::TruncatedStream);
    }
    if !(data[0] == 0x4D && data[1] == 0x54 && data[2] == 0x68 && data[3] == 0x64) {
        proof {
            assert(s.subrange(0, 4)[0] == s[0]);
            assert(s.subrange(0, 4)[1] == s[1]);
            assert(s.subrange(0, 4)[2] == s[2]);
            assert(s.subrange(0, 4)[3] == s[3]);
        }
        return Err(MidiError::InvalidFile(None));
    }
    proof {
        assert(s.subrange(0, 4) =~= mthd_tag());
    }
    if data.len() < 12 {
        return Err(MidiError::TruncatedStream);
    }
    let ntracks: u16 = (data[10] as u16) * 256 + (data[11] as u16);
    if track_no >= ntracks {
        return Err(MidiError::InvalidTrackNumber(track_no));
    }
    if data.len() < 14 {
        return Err(MidiError::TruncatedStream);
    }
    let mut pos: usize = 14;
    let mut tn: u16 = 0;
    loop
        invariant
            s == data@,
            pos <= s.len(),
            tn <= track_no,
            track_no < ntracks,
            decode_spec(s, track_no) == decode_from(s, pos as int, tn, track_no, ntracks),
        decreases ntracks - tn,
    {
        if data.len() - pos < 4 {
            return Err(MidiError::TruncatedStream);
        }
        if !(data[pos] == 0x4D && data[pos + 1] == 0x54 && data[pos + 2] == 0x72 && data[pos + 3]
            == 0x6B) {
            proof {
                assert(s.subrange(pos as int, pos as int + 4)[0] == s[pos as int]);
                assert(s.subrange(pos as int, pos as int + 4)[1] == s[pos as int + 1]);
                assert(s.subrange(pos as int, pos as int + 4)[2] == s[pos as int + 2]);
                assert(s.subrange(pos as int, pos as int + 4)[3] == s[pos as int + 3]);
            }
            return Err(MidiError::InvalidFile(Some(tn)));
        }
        proof {
            assert(s.subrange(pos as int, pos as int + 4) =~= mtrk_tag());
        }
        if data.len() - pos < 8 {
            return Err(MidiError::TruncatedStream);
        }
        let chunk: u32 = (((data[pos + 4] as u32) * 256 + (data[pos + 5] as u32)) * 256 + (data[pos
            + 6] as u32)) * 256 + (data[pos + 7] as u32);
        if tn == track_no {
            return get_track_notes(data, pos + 8);
        }
        let chunk_len = chunk as usize;
        if chunk_len > data.len() - (pos + 8) {
            return Err(MidiError::TruncatedStream);
        }
        pos = pos + 8 + chunk_len;
        tn = tn + 1;
    }
}

// ---------------------------------------------------------------------------
// File-level encoder
// ---------------------------------------------------------------------------

/// The four-byte end-of-track meta event (delta 0, 0xFF, type 0x2F, length 0).
pub open spec fn eot_marker() -> Seq<u8> {
    seq![0u8, 0xFFu8, 0x2Fu8, 0u8]
}

/// The eight bytes synthesized for one pitch: delta 0, note-on on channel 1
/// at velocity 127, then a randomized delta in [15, 30] and the matching
/// note-off at velocity 0.
pub open spec fn valid_note_events(body: Seq<u8>, off: int, note: u8) -> bool {
    &&& body[off] == 0u8
    &&& body[off + 1] == 0x91u8
    &&& body[off + 2] == note
    &&& body[off + 3] == 127u8
    &&& 15 <= body[off + 4] <= 30
    &&& body[off + 5] == 0x81u8
    &&& body[off + 6] == note
    &&& body[off + 7] == 0u8
}

/// A synthesized track body: eight bytes per pitch, then the end-of-track
/// marker, and nothing else.
pub open spec fn valid_track_body(body: Seq<u8>, notes: Seq<u8>) -> bool {
    &&& body.len() == 8 * notes.len() + 4
    &&& forall|i: int| 0 <= i < notes.len() ==> valid_note_events(body, 8 * i, #[trigger] notes[i])
    &&& body.subrange(body.len() - 4, body.len() as int) == eot_marker()
}

/// An empty note sequence still gets a structurally valid body: it is
/// exactly the four-byte end-of-track marker.
pub proof fn lemma_empty_track_body(body: Seq<u8>)
    requires
        valid_track_body(body, Seq::<u8>::empty()),
    ensures
        body == eot_marker(),
{
    assert(body.len() == 4);
    assert(body.subrange(0, 4) =~= body);
}

/// Builds the event bytes of one track (the chunk body, without the tag and
/// length): a note-on/note-off pair per pitch with a randomized inter-note
/// delay, closed by the end-of-track marker.
pub fn build_track_data(notes: &MidiTrack) -> (r: Vec<u8>)
    ensures
        valid_track_body(r@, notes@),
{
    let mut result: Vec<u8> = Vec::new();
    let mut idx: usize = 0;
    while idx < notes.len()
        invariant
            idx <= notes@.len(),
            result@.len() == 8 * idx,
            forall|i: int|
                0 <= i < idx ==> valid_note_events(result@, 8 * i, #[trigger] notes@[i]),
        decreases notes@.len() - idx,
    {
        let ghost before = result@;
        let note = notes[idx];
        let delta = rand_in_range(15, 30);
        let delta8 = delta as u8;
        result.push(0x00);
        result.push(0x91);
        result.push(note);
        result.push(127);
        result.push(delta8);
        result.push(0x81);
        result.push(note);
        result.push(0x00);
        proof {
            assert(result@ =~= before + seq![0u8, 0x91u8, note, 127u8, delta8, 0x81u8, note, 0u8]);
            assert forall|i: int| 0 <= i < idx + 1 implies valid_note_events(
                result@,
                8 * i,
                #[trigger] notes@[i],
            ) by {
                if i < idx {
                    assert(valid_note_events(before, 8 * i, notes@[i]));
                    assert(8 * i + 8 <= before.len());
                }
            }
        }
        idx = idx + 1;
    }
    let ghost with_notes = result@;
    result.push(0x00);
    result.push(0xFF);
    result.push(0x2F);
    result.push(0x00);
    proof {
        assert(result@ =~= with_notes + eot_marker());
        assert(result@.subrange(result@.len() - 4, result@.len() as int) =~= eot_marker());
        assert forall|i: int| 0 <= i < notes@.len() implies valid_note_events(
            result@,
            8 * i,
            #[trigger] notes@[i],
        ) by {
            assert(valid_note_events(with_notes, 8 * i, notes@[i]));
            assert(8 * i + 8 <= with_notes.len());
        }
    }
    result
}

/// The views of a vector of tracks.
pub open spec fn track_views(tracks: Seq<Vec<u8>>) -> Seq<Seq<u8>> {
    tracks.map_values(|t: Vec<u8>| t@)
}

/// The 14 header bytes: `MThd`, declared length 6, format 1, the big-endian
/// track count, and the fixed time division.
pub open spec fn file_header(ntracks: int) -> Seq<u8> {
    seq![
        0x4Du8,
        0x54u8,
        0x68u8,
        0x64u8,
        0u8,
        0u8,
        0u8,
        6u8,
        0u8,
        1u8,
        (ntracks / 256) as u8,
        (ntracks % 256) as u8,
        0u8,
        0x30u8,
    ]
}

/// The total byte length of the first `i` encoded track chunks.
pub open spec fn chunks_len(tracks: Seq<Seq<u8>>, i: int) -> int
    decreases i,
{
    if i <= 0 {
        0
    } else {
        chunks_len(tracks, i - 1) + 8 + 8 * tracks[i - 1].len() + 4
    }
}

/// One encoded track chunk at `off`: the `MTrk` tag, the big-endian body
/// length, then a valid body for `notes`.
pub open spec fn valid_track_chunk(file: Seq<u8>, off: int, notes: Seq<u8>) -> bool {
    &&& file.subrange(off, off + 4) == mtrk_tag()
    &&& be32(file[off + 4], file[off + 5], file[off + 6], file[off + 7]) == 8 * notes.len() + 4
    &&& valid_track_body(file.subrange(off + 8, off + 8 + 8 * notes.len() + 4), notes)
}

/// Chunk lengths accumulate monotonically.
proof fn lemma_chunks_len_mono(ts: Seq<Seq<u8>>, i: int, k: int)
    requires
        0 <= i <= k,
    ensures
        chunks_len(ts, i) <= chunks_len(ts, k),
    decreases k - i,
{
    if i < k {
        lemma_chunks_len_mono(ts, i, k - 1);
    }
}

/// A chunk already written is untouched by appending more bytes.
proof fn lemma_chunk_stable(a: Seq<u8>, b: Seq<u8>, off: int, notes: Seq<u8>)
    requires
        valid_track_chunk(a, off, notes),
        0 <= off,
        off + 8 + 8 * notes.len() + 4 <= a.len(),
    ensures
        valid_track_chunk(a + b, off, notes),
{
    assert((a + b).subrange(off, off + 4) =~= a.subrange(off, off + 4));
    assert((a + b).subrange(off + 8, off + 8 + 8 * notes.len() + 4) =~= a.subrange(
        off + 8,
        off + 8 + 8 * notes.len() + 4,
    ));
}

/// Appends a complete Standard MIDI File to `out`: the `MThd` header with
/// the track count, then one `MTrk` chunk per note sequence, each carrying
/// its declared byte length and a synthesized body.
#[verifier::rlimit(80)]
pub fn write_midi_file(out: &mut Vec<u8>, tracks: &Vec<MidiTrack>)
    requires
        tracks@.len() <= 0xFFFF,
        forall|i: int|
            0 <= i < tracks@.len() ==> 8 * track_views(tracks@)[i].len() + 4 <= 0xFFFF_FFFF,
    ensures
        final(out)@.len() == old(out)@.len() as int + 14 + chunks_len(
            track_views(tracks@),
            tracks@.len() as int,
        ),
        final(out)@.subrange(0, old(out)@.len() as int) == old(out)@,
        final(out)@.subrange(old(out)@.len() as int, old(out)@.len() as int + 14) == file_header(
            tracks@.len() as int,
        ),
        forall|i: int|
            0 <= i < tracks@.len() ==> valid_track_chunk(
                final(out)@,
                old(out)@.len() as int + 14 + chunks_len(track_views(tracks@), i),
                track_views(tracks@)[i],
            ),
{
    let ghost base = old(out)@.len() as int;
    let ghost ts = track_views(tracks@);
    let n: u16 = tracks.len() as u16;
    out.push(0x4D);
    out.push(0x54);
    out.push(0x68);
    out.push(0x64);
    out.push(0x00);
    out.push(0x00);
    out.push(0x00);
    out.push(0x06);
    out.push(0x00);
    out.push(0x01);
    out.push((n / 256) as u8);
    out.push((n % 256) as u8);
    out.push(0x00);
    out.push(0x30);
    proof {
        assert(out@ =~= old(out)@ + file_header(tracks@.len() as int));
        assert(out@.subrange(0, base) =~= old(out)@);
        assert(out@.subrange(base, base + 14) =~= file_header(tracks@.len() as int));
    }
    let mut k: usize = 0;
    while k < tracks.len()
        invariant
            k <= tracks@.len(),
            ts == track_views(tracks@),
            tracks@.len() <= 0xFFFF,
            forall|i: int| 0 <= i < tracks@.len() ==> 8 * ts[i].len() + 4 <= 0xFFFF_FFFF,
            base == old(out)@.len(),
            out@.len() == base + 14 + chunks_len(ts, k as int),
            out@.subrange(0, base) == old(out)@,
            out@.subrange(base, base + 14) == file_header(tracks@.len() as int),
            forall|i: int|
                0 <= i < k ==> valid_track_chunk(
                    out@,
                    base + 14 + #[trigger] chunks_len(ts, i),
                    ts[i],
                ),
        decreases tracks@.len() - k,
    {
        let ghost a = out@;
        let ghost off = base + 14 + chunks_len(ts, k as int);
        proof {
            lemma_chunks_len_mono(ts, 0, k as int);
        }
        let t = &tracks[k];
        assert(t@ == ts[k as int]);
        let blen: u32 = 8 * (t.len() as u32) + 4;
        let b3 = (blen % 256) as u8;
        let q1 = blen / 256;
        let b2 = (q1 % 256) as u8;
        let q2 = q1 / 256;
        let b1 = (q2 % 256) as u8;
        let b0 = (q2 / 256) as u8;
        out.push(0x4D);
        out.push(0x54);
        out.push(0x72);
        out.push(0x6B);
        out.push(b0);
        out.push(b1);
        out.push(b2);
        out.push(b3);
        let ghost a8 = out@;
        let mut body = build_track_data(t);
        let ghost body_view = body@;
        out.append(&mut body);
        proof {
            assert(a8 =~= a + seq![0x4Du8, 0x54u8, 0x72u8, 0x6Bu8, b0, b1, b2, b3]);
            assert(out@ == a8 + body_view);
            let chunk = seq![0x4Du8, 0x54u8, 0x72u8, 0x6Bu8, b0, b1, b2, b3] + body_view;
            assert(out@ =~= a + chunk);
            // the four length bytes re-assemble to the body length
            assert(be32(b0, b1, b2, b3) == blen) by {
                lemma_fundamental_div_mod(blen as int, 256);
                lemma_fundamental_div_mod(q1 as int, 256);
                lemma_fundamental_div_mod(q2 as int, 256);
            }
            // the new chunk is valid at its offset
            assert(out@.subrange(off, off + 4) =~= mtrk_tag());
            assert(out@[off + 4] == b0 && out@[off + 5] == b1 && out@[off + 6] == b2 && out@[off
                + 7] == b3);
            assert(out@.subrange(off + 8, off + 8 + 8 * ts[k as int].len() + 4) =~= body_view);
            assert(valid_track_chunk(out@, off, ts[k as int]));
            // the chunks already written are untouched
            assert forall|i: int| 0 <= i < k + 1 implies valid_track_chunk(
                out@,
                base + 14 + #[trigger] chunks_len(ts, i),
                ts[i],
            ) by {
                if i < k {
                    lemma_chunks_len_mono(ts, 0, i);
                    lemma_chunks_len_mono(ts, i + 1, k as int);
                    lemma_chunk_stable(a, chunk, base + 14 + chunks_len(ts, i), ts[i]);
                }
            }
            // the prefix and header are untouched
            assert(out@.subrange(0, base) =~= a.subrange(0, base));
            assert(out@.subrange(base, base + 14) =~= a.subrange(base, base + 14));
        }
        k = k + 1;
    }
}

} // verus!
