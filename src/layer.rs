//! The reader of one layer record.
use crate::bytes::{as_i16_be, as_u16_be, as_u32_be, as_u64_be, be_i16, be_u16, be_u32, be_u64};
use crate::channel::{kind_of_id, PsdLayerChannel};
use crate::error::{len_size, DecodeError, DocumentFormat};
use vstd::prelude::*;
use vstd::slice::{slice_subrange, slice_to_vec};
use vstd::utf8::{decode_utf8, valid_utf8};

verus! {

/// Bytes of the layer rectangle (top, left, bottom, right as 32-bit values).
pub const RECT_SIZE: usize = 16;

/// Bytes from the start of a record to its first channel entry: the rectangle and
/// the channel count.
pub const CHANNELS_OFFSET: usize = 18;

/// Bytes from the end of the channel entries to the start of the extra data: blend
/// mode signature and key, opacity, clipping, flags, filler and the extra data length.
pub const BLEND_FIELDS_SIZE: usize = 16;

/// A layer record within the layer info section.
pub struct LayerRecord {
    /// The name of the layer.
    pub name: String,
    /// The channels that this record has and the number of bytes of data of each,
    /// in the order of the record.
    pub channels: Vec<(PsdLayerChannel, u64)>,
}

/// A layer record as a value: its name and channel directory.
pub type RecordModel = (Seq<char>, Seq<(PsdLayerChannel, u64)>);

impl View for LayerRecord {
    type V = RecordModel;

    open spec fn view(&self) -> RecordModel {
        (self.name@, self.channels@)
    }
}

/// Bytes of one channel entry: a 2-byte id and a length field.
pub open spec fn entry_size(f: DocumentFormat) -> int {
    2 + len_size(f)
}

/// The length field at `p` in the given layout.
pub open spec fn be_len(b: Seq<u8>, p: int, f: DocumentFormat) -> int {
    match f {
        DocumentFormat::Psd => be_u32(b, p),
        DocumentFormat::Psb => be_u64(b, p),
    }
}

/// Whether `k` is among the kinds of `chs`.
pub open spec fn has_kind(chs: Seq<(PsdLayerChannel, u64)>, k: PsdLayerChannel) -> bool {
    exists|i: int| 0 <= i < chs.len() && #[trigger] chs[i].0 == k
}

/// The first `n` channel entries of a record, the first of which starts at `base`.
pub open spec fn entries_spec(b: Seq<u8>, base: int, f: DocumentFormat, n: nat) -> Result<
    Seq<(PsdLayerChannel, u64)>,
    DecodeError,
>
    decreases n,
{
    if n == 0 {
        Ok(seq![])
    } else {
        match entries_spec(b, base, f, (n - 1) as nat) {
            Err(e) => Err(e),
            Ok(chs) => {
                let e = base + (n - 1) * entry_size(f);
                if e + entry_size(f) > b.len() {
                    Err(DecodeError::TruncatedInput)
                } else {
                    match kind_of_id(be_i16(b, e)) {
                        None => Err(DecodeError::InvalidChannelId { raw_id: be_i16(b, e) as i16 }),
                        Some(k) => if has_kind(chs, k) {
                            Err(DecodeError::DuplicateChannel { kind: k })
                        } else {
                            Ok(chs.push((k, be_len(b, e + 2, f) as u64)))
                        },
                    }
                }
            },
        }
    }
}

/// Whether the kinds of `chs` are pairwise distinct.
pub open spec fn distinct_kinds<T>(chs: Seq<(PsdLayerChannel, T)>) -> bool {
    forall|i: int, j: int| 0 <= i < j < chs.len() ==> #[trigger] chs[i].0 != #[trigger] chs[j].0
}

/// A channel directory read from `n` entries has `n` channels of distinct kinds.
proof fn lemma_entries_ok(b: Seq<u8>, base: int, f: DocumentFormat, n: nat)
    ensures
        entries_spec(b, base, f, n) matches Ok(chs) ==> chs.len() == n && distinct_kinds(chs),
    decreases n,
{
    if n > 0 {
        lemma_entries_ok(b, base, f, (n - 1) as nat);
        if let Ok(chs) = entries_spec(b, base, f, n) {
            let prev = entries_spec(b, base, f, (n - 1) as nat)->Ok_0;
            assert(chs == prev.push(chs.last()));
            assert forall|i: int, j: int| 0 <= i < j < chs.len() implies #[trigger] chs[i].0
                != #[trigger] chs[j].0 by {
                if j == chs.len() - 1 {
                    assert(prev[i].0 == chs[i].0);
                    if chs[i].0 == chs[j].0 {
                        assert(has_kind(prev, chs[j].0));
                    }
                } else {
                    assert(prev[i] == chs[i] && prev[j] == chs[j]);
                }
            }
        }
    }
}

/// A decoded layer record has exactly as many channels as its channel count declares,
/// of pairwise distinct kinds, and ends right after its declared extra data: past the
/// 34 bytes of fixed fields, one channel entry (6 bytes in a standard document) per
/// channel, and the extra data length's worth of bytes. The next record starts there.
pub proof fn lemma_record_layout(b: Seq<u8>, p: int, f: DocumentFormat)
    ensures
        record_spec(b, p, f) matches Ok((name, chs, end)) ==> {
            &&& chs.len() == be_u16(b, p + RECT_SIZE)
            &&& distinct_kinds(chs)
            &&& end == p + 34 + chs.len() * entry_size(f) + be_u32(
                b,
                blend_offset(p, f, chs.len() as int) + 12,
            )
            &&& (f == DocumentFormat::Psd ==> end == p + 34 + 6 * chs.len() + be_u32(
                b,
                p + 30 + 6 * chs.len(),
            ))
            &&& end <= b.len()
        },
{
    if p + CHANNELS_OFFSET <= b.len() {
        let c = be_u16(b, p + RECT_SIZE);
        lemma_entries_ok(b, p + CHANNELS_OFFSET, f, c as nat);
        if f == DocumentFormat::Psd {
            assert(entry_size(f) == 6);
            assert(c * entry_size(f) == 6 * c) by (nonlinear_arith)
                requires
                    entry_size(f) == 6,
            ;
        }
    }
}

/// Once the channel directory fails, reading more entries fails the same way.
proof fn lemma_entries_err_stays(b: Seq<u8>, base: int, f: DocumentFormat, n: nat, m: nat)
    requires
        n <= m,
        entries_spec(b, base, f, n) is Err,
    ensures
        entries_spec(b, base, f, m) == entries_spec(b, base, f, n),
    decreases m - n,
{
    if n < m {
        lemma_entries_err_stays(b, base, f, n, (m - 1) as nat);
    }
}

/// The bytes of the layer name in the extra data that spans `[s, end)`: after the
/// length-prefixed layer mask data and blending ranges comes a 1-byte length and the
/// name's bytes. Where the span ends before the name's length byte, the name is empty;
/// where the name's bytes run past the span, there is none (`None`).
pub open spec fn name_field(b: Seq<u8>, s: int, end: int) -> Option<Seq<u8>> {
    if s + 4 > end {
        Some(seq![])
    } else {
        let r = s + 4 + be_u32(b, s);
        if r + 4 > end {
            Some(seq![])
        } else {
            let np = r + 4 + be_u32(b, r);
            if np + 1 > end {
                Some(seq![])
            } else if np + 1 + b[np] > end {
                None
            } else {
                Some(b.subrange(np + 1, np + 1 + b[np]))
            }
        }
    }
}

/// The layer name held by the extra data that spans `[s, end)`.
pub open spec fn name_spec(b: Seq<u8>, s: int, end: int) -> Result<Seq<char>, DecodeError> {
    match name_field(b, s, end) {
        None => Err(DecodeError::TruncatedInput),
        Some(nb) => if valid_utf8(nb) {
            Ok(decode_utf8(nb))
        } else {
            Err(DecodeError::InvalidStringEncoding)
        },
    }
}

/// Whether the four bytes at `q` are the blend mode signature `8BIM`.
pub open spec fn is_blend_signature(b: Seq<u8>, q: int) -> bool {
    b[q] == 0x38u8 && b[q + 1] == 0x42u8 && b[q + 2] == 0x49u8 && b[q + 3] == 0x4du8
}

/// Offset of the blend mode signature of a record at `p` with `c` channels.
pub open spec fn blend_offset(p: int, f: DocumentFormat, c: int) -> int {
    p + CHANNELS_OFFSET + c * entry_size(f)
}

/// Decoding of the layer record that starts at `p`: its name, its channel directory,
/// and the offset just past it, which is past the declared extra data.
pub open spec fn record_spec(b: Seq<u8>, p: int, f: DocumentFormat) -> Result<
    (Seq<char>, Seq<(PsdLayerChannel, u64)>, int),
    DecodeError,
> {
    if p + CHANNELS_OFFSET > b.len() {
        Err(DecodeError::TruncatedInput)
    } else {
        let c = be_u16(b, p + RECT_SIZE);
        match entries_spec(b, p + CHANNELS_OFFSET, f, c as nat) {
            Err(e) => Err(e),
            Ok(chs) => {
                let q = blend_offset(p, f, c);
                if q + 4 > b.len() {
                    Err(DecodeError::TruncatedInput)
                } else if !is_blend_signature(b, q) {
                    Err(DecodeError::InvalidBlendModeSignature)
                } else if q + BLEND_FIELDS_SIZE > b.len() {
                    Err(DecodeError::TruncatedInput)
                } else {
                    let s = q + BLEND_FIELDS_SIZE;
                    let end = s + be_u32(b, q + 12);
                    if end > b.len() {
                        Err(DecodeError::TruncatedInput)
                    } else {
                        match name_spec(b, s, end) {
                            Err(e) => Err(e),
                            Ok(name) => Ok((name, chs, end)),
                        }
                    }
                }
            },
        }
    }
}

/// Whether offset `i` lies in the contents of the layer mask data or of the blending
/// ranges of the record at `p`: bytes that the decoder skips by their length prefixes.
pub open spec fn in_skipped_fields(b: Seq<u8>, p: int, f: DocumentFormat, i: int) -> bool {
    let s = blend_offset(p, f, be_u16(b, p + RECT_SIZE)) + BLEND_FIELDS_SIZE;
    let r = s + 4 + be_u32(b, s);
    (s + 4 <= i < r) || (r + 4 <= i < r + 4 + be_u32(b, r))
}

/// Channel entries read from two buffers that agree on them are the same.
proof fn lemma_entries_agree(b1: Seq<u8>, b2: Seq<u8>, base: int, f: DocumentFormat, n: nat)
    requires
        0 <= base,
        b1.len() == b2.len(),
        forall|i: int| 0 <= i < b1.len() && i < base + n * entry_size(f) ==> b1[i] == b2[i],
    ensures
        entries_spec(b1, base, f, n) == entries_spec(b2, base, f, n),
    decreases n,
{
    if n > 0 {
        let es = entry_size(f);
        let e = base + (n - 1) * es;
        assert(e + es == base + n * es) by (nonlinear_arith)
            requires
                e == base + (n - 1) * es,
        ;
        assert(base <= e) by (nonlinear_arith)
            requires
                e == base + (n - 1) * es,
                n >= 1,
                es > 0,
        ;
        lemma_entries_agree(b1, b2, base, f, (n - 1) as nat);
        if e + es <= b1.len() {
            assert(b1[e] == b2[e] && b1[e + 1] == b2[e + 1]);
            assert(b1[e + 2] == b2[e + 2] && b1[e + 3] == b2[e + 3]);
            assert(b1[e + 4] == b2[e + 4] && b1[e + 5] == b2[e + 5]);
            if es == 10 {
                assert(b1[e + 6] == b2[e + 6] && b1[e + 7] == b2[e + 7]);
                assert(b1[e + 8] == b2[e + 8] && b1[e + 9] == b2[e + 9]);
            }
        }
    }
}

/// Changing only the contents of a record's layer mask data and blending ranges, which
/// the decoder skips by their declared lengths, changes neither what the record decodes
/// to nor where the record ends.
pub proof fn lemma_record_ignores_skipped_fields(
    b1: Seq<u8>,
    b2: Seq<u8>,
    p: int,
    f: DocumentFormat,
)
    requires
        0 <= p,
        b1.len() == b2.len(),
        forall|i: int| 0 <= i < b1.len() && !in_skipped_fields(b1, p, f, i) ==> b1[i] == b2[i],
    ensures
        record_spec(b1, p, f) == record_spec(b2, p, f),
{
    if p + CHANNELS_OFFSET <= b1.len() {
        assert(!in_skipped_fields(b1, p, f, p + 16) && !in_skipped_fields(b1, p, f, p + 17));
        let c = be_u16(b1, p + RECT_SIZE);
        assert(b1[p + 16] == b2[p + 16] && b1[p + 17] == b2[p + 17]);
        let q = blend_offset(p, f, c);
        let s = q + BLEND_FIELDS_SIZE;
        assert(p + CHANNELS_OFFSET <= q) by (nonlinear_arith)
            requires
                q == p + CHANNELS_OFFSET + c * entry_size(f),
                c >= 0,
                entry_size(f) > 0,
        ;
        lemma_entries_agree(b1, b2, p + CHANNELS_OFFSET, f, c as nat);
        if s + 4 <= b1.len() {
            assert(b1[s] == b2[s] && b1[s + 1] == b2[s + 1] && b1[s + 2] == b2[s + 2] && b1[s + 3]
                == b2[s + 3]);
            let r = s + 4 + be_u32(b1, s);
            if r + 4 <= b1.len() {
                assert(b1[r] == b2[r] && b1[r + 1] == b2[r + 1] && b1[r + 2] == b2[r + 2] && b1[r
                    + 3] == b2[r + 3]);
            }
        }
        if q + 16 <= b1.len() {
            assert(b1[q] == b2[q] && b1[q + 1] == b2[q + 1] && b1[q + 2] == b2[q + 2] && b1[q + 3]
                == b2[q + 3]);
            assert(b1[q + 12] == b2[q + 12] && b1[q + 13] == b2[q + 13] && b1[q + 14] == b2[q + 14]
                && b1[q + 15] == b2[q + 15]);
            let end = s + be_u32(b1, q + 12);
            if end <= b1.len() {
                if s + 4 <= end {
                    let r = s + 4 + be_u32(b1, s);
                    if r + 4 <= end {
                        let np = r + 4 + be_u32(b1, r);
                        if np + 1 <= end {
                            assert(b1[np] == b2[np]);
                            if np + 1 + b1[np] <= end {
                                assert forall|i: int| np + 1 <= i < np + 1 + b1[np] implies b1[i]
                                    == b2[i] by {
                                    assert(!in_skipped_fields(b1, p, f, i));
                                }
                                assert(b1.subrange(np + 1, np + 1 + b1[np]) =~= b2.subrange(
                                    np + 1,
                                    np + 1 + b1[np],
                                ));
                            }
                        }
                    }
                }
                assert(name_field(b1, s, end) == name_field(b2, s, end));
            }
        } else if q + 4 <= b1.len() {
            assert(b1[q] == b2[q] && b1[q + 1] == b2[q + 1] && b1[q + 2] == b2[q + 2] && b1[q + 3]
                == b2[q + 3]);
        }
    }
}

/// Relies on `String::from_utf8`: it succeeds exactly on valid UTF-8 and then holds
/// the characters that the bytes encode.
#[verifier::external_body]
fn string_from_utf8(v: Vec<u8>) -> (r: Option<String>)
    ensures
        r is Some <==> valid_utf8(v@),
        r matches Some(s) ==> s@ == decode_utf8(v@),
{
    String::from_utf8(v).ok()
}

/// Reads a length field at `p` in the given layout.
pub(crate) fn read_len(b: &[u8], p: usize, f: DocumentFormat) -> (r: u64)
    requires
        p + len_size(f) <= b.len(),
    ensures
        r == be_len(b@, p as int, f),
{
    match f {
        DocumentFormat::Psd => as_u32_be(b, p) as u64,
        DocumentFormat::Psb => as_u64_be(b, p),
    }
}

/// Whether `k` is among the kinds of `chs`.
fn contains_kind(chs: &Vec<(PsdLayerChannel, u64)>, k: PsdLayerChannel) -> (r: bool)
    ensures
        r == has_kind(chs@, k),
{
    let mut i: usize = 0;
    while i < chs.len()
        invariant
            i <= chs@.len(),
            forall|j: int| 0 <= j < i ==> chs@[j].0 != k,
        decreases chs@.len() - i,
    {
        if chs[i].0 == k {
            return true;
        }
        i = i + 1;
    }
    false
}

/// Reads the layer name from the extra data that spans `[s, end)`.
fn read_name(b: &[u8], s: usize, end: usize) -> (r: Result<String, DecodeError>)
    requires
        s <= end <= b.len(),
    ensures
        match name_spec(b@, s as int, end as int) {
            Ok(name) => r matches Ok(n) && n@ == name,
            Err(e) => r == Err::<String, DecodeError>(e),
        },
{
    let mut nb: Vec<u8> = Vec::new();
    if end - s >= 4 {
        let m = as_u32_be(b, s) as usize;
        if end - s - 4 >= m && end - s - 4 - m >= 4 {
            let r = s + 4 + m;
            let rl = as_u32_be(b, r) as usize;
            if end - r - 4 >= rl && end - r - 4 - rl >= 1 {
                let np = r + 4 + rl;
                let n = b[np] as usize;
                if end - np - 1 >= n {
                    nb = slice_to_vec(slice_subrange(b, np + 1, np + 1 + n));
                } else {
                    return Err(DecodeError::TruncatedInput);
                }
            }
        }
    }
    assert(name_field(b@, s as int, end as int) == Some(nb@));
    match string_from_utf8(nb) {
        Some(name) => Ok(name),
        None => Err(DecodeError::InvalidStringEncoding),
    }
}

/// Reads, from the cursor on, one layer record of the layer records section, and leaves
/// the cursor just past the record's extra data. The rectangle, the blend mode key,
/// opacity, clipping, flags, filler, layer mask data and blending ranges are skipped;
/// the channel data that follows the record is not read here.
/// On an error the cursor is left where it was.
pub fn read_layer_record(bytes: &[u8], cursor: &mut usize, format: DocumentFormat) -> (r: Result<
    LayerRecord,
    DecodeError,
>)
    ensures
        match record_spec(bytes@, *old(cursor) as int, format) {
            Ok((name, chs, end)) => {
                &&& r matches Ok(rec) && rec.name@ == name && rec.channels@ == chs
                &&& *final(cursor) == end
            },
            Err(e) => r == Err::<LayerRecord, DecodeError>(e) && *final(cursor) == *old(cursor),
        },
{
    let p = *cursor;
    let len = bytes.len();
    if p > len || len - p < CHANNELS_OFFSET {
        return Err(DecodeError::TruncatedInput);
    }
    let c = as_u16_be(bytes, p + RECT_SIZE) as usize;
    let es = format.length_size() + 2;
    let base = p + CHANNELS_OFFSET;
    let mut e = base;
    let mut channels: Vec<(PsdLayerChannel, u64)> = Vec::new();
    let mut i: usize = 0;
    while i < c
        invariant
            *cursor == p,
            p + CHANNELS_OFFSET <= len,
            len == bytes@.len(),
            base == p + CHANNELS_OFFSET,
            c == be_u16(bytes@, p + RECT_SIZE),
            es == entry_size(format),
            i <= c,
            e == base + i * es,
            e <= len,
            entries_spec(bytes@, base as int, format, i as nat) == Ok::<_, DecodeError>(channels@),
        decreases c - i,
    {
        if len - e < es {
            proof {
                lemma_entries_err_stays(bytes@, base as int, format, (i + 1) as nat, c as nat);
            }
            return Err(DecodeError::TruncatedInput);
        }
        let id = as_i16_be(bytes, e);
        let dlen = read_len(bytes, e + 2, format);
        if id < -128 || id > 127 {
            proof {
                lemma_entries_err_stays(bytes@, base as int, format, (i + 1) as nat, c as nat);
            }
            return Err(DecodeError::InvalidChannelId { raw_id: id });
        }
        let k = match PsdLayerChannel::new(id as i8) {
            Ok(k) => k,
            Err(_) => {
                proof {
                lemma_entries_err_stays(bytes@, base as int, format, (i + 1) as nat, c as nat);
            }
            return Err(DecodeError::InvalidChannelId { raw_id: id });
            },
        };
        if contains_kind(&channels, k) {
            proof {
                lemma_entries_err_stays(bytes@, base as int, format, (i + 1) as nat, c as nat);
            }
            return Err(DecodeError::DuplicateChannel { kind: k });
        }
        channels.push((k, dlen));
        assert(base + (i + 1) * es == base + i * es + es) by (nonlinear_arith);
        e = e + es;
        i = i + 1;
    }
    let q = e;
    if len - q < 4 {
        return Err(DecodeError::TruncatedInput);
    }
    if !(bytes[q] == 0x38u8 && bytes[q + 1] == 0x42u8 && bytes[q + 2] == 0x49u8 && bytes[q + 3]
        == 0x4du8) {
        return Err(DecodeError::InvalidBlendModeSignature);
    }
    if len - q < BLEND_FIELDS_SIZE {
        return Err(DecodeError::TruncatedInput);
    }
    let s = q + BLEND_FIELDS_SIZE;
    let extra = as_u32_be(bytes, q + 12) as usize;
    if len - s < extra {
        return Err(DecodeError::TruncatedInput);
    }
    let end = s + extra;
    let name = read_name(bytes, s, end)?;
    *cursor = end;
    Ok(LayerRecord { name, channels })
}

} // verus!
