//! What the decoder does on a buffer cut short.
use crate::bytes::{be_i16, be_u16, be_u32};
use crate::channel::PsdLayerChannel;
use crate::error::{len_size, DecodeError, DocumentFormat};
use crate::layer::{
    be_len, entries_spec, entry_size, lemma_record_layout, name_field, name_spec, record_spec,
};
use crate::section::{
    channel_data_spec, declared_layer_count, layers_spec, lemma_channel_data_ok,
    lemma_section_layers, section_spec, SectionModel,
};
use vstd::prelude::*;

verus! {

/// Channel entries read from the first `m` bytes: the same where they lie within them,
/// else a truncation.
proof fn lemma_entries_prefix(b: Seq<u8>, m: int, base: int, f: DocumentFormat, n: nat)
    requires
        0 <= m <= b.len(),
        0 <= base <= m,
        entries_spec(b, base, f, n) is Ok,
    ensures
        base + n * entry_size(f) <= m ==> entries_spec(b.subrange(0, m), base, f, n)
            == entries_spec(b, base, f, n),
        base + n * entry_size(f) > m ==> entries_spec(b.subrange(0, m), base, f, n) == Err::<
            Seq<(PsdLayerChannel, u64)>,
            DecodeError,
        >(DecodeError::TruncatedInput),
    decreases n,
{
    let t = b.subrange(0, m);
    let es = entry_size(f);
    if n > 0 {
        lemma_entries_prefix(b, m, base, f, (n - 1) as nat);
        let e = base + (n - 1) * es;
        assert(base + n * es == e + es) by (nonlinear_arith)
            requires
                e == base + (n - 1) * es,
        ;
        if e <= m && e + es <= m {
            assert(t[e] == b[e] && t[e + 1] == b[e + 1]);
            assert(t[e + 2] == b[e + 2] && t[e + 3] == b[e + 3]);
            assert(t[e + 4] == b[e + 4] && t[e + 5] == b[e + 5]);
            if es == 10 {
                assert(t[e + 6] == b[e + 6] && t[e + 7] == b[e + 7]);
                assert(t[e + 8] == b[e + 8] && t[e + 9] == b[e + 9]);
            }
        }
    }
}

/// The name held by extra data that lies within the first `m` bytes is read alike from
/// them.
proof fn lemma_name_prefix(b: Seq<u8>, m: int, s: int, end: int)
    requires
        0 <= s <= end <= m <= b.len(),
    ensures
        name_spec(b.subrange(0, m), s, end) == name_spec(b, s, end),
{
    let t = b.subrange(0, m);
    if s + 4 <= end {
        assert(t[s] == b[s] && t[s + 1] == b[s + 1] && t[s + 2] == b[s + 2] && t[s + 3] == b[s
            + 3]);
        let r = s + 4 + be_u32(b, s);
        if r + 4 <= end {
            assert(t[r] == b[r] && t[r + 1] == b[r + 1] && t[r + 2] == b[r + 2] && t[r + 3] == b[r
                + 3]);
            let np = r + 4 + be_u32(b, r);
            if np + 1 <= end {
                assert(t[np] == b[np]);
                if np + 1 + b[np] <= end {
                    assert(t.subrange(np + 1, np + 1 + b[np]) =~= b.subrange(np + 1, np + 1 + b[np]));
                }
            }
        }
    }
    assert(name_field(t, s, end) == name_field(b, s, end));
}

/// A layer record read from the first `m` bytes: the same where it lies within them,
/// else a truncation.
proof fn lemma_record_prefix(b: Seq<u8>, m: int, p: int, f: DocumentFormat)
    requires
        0 <= m <= b.len(),
        0 <= p,
        record_spec(b, p, f) is Ok,
    ensures
        record_spec(b, p, f)->Ok_0.2 <= m ==> record_spec(b.subrange(0, m), p, f)
            == record_spec(b, p, f),
        record_spec(b, p, f)->Ok_0.2 > m ==> record_spec(b.subrange(0, m), p, f) == Err::<
            (Seq<char>, Seq<(PsdLayerChannel, u64)>, int),
            DecodeError,
        >(DecodeError::TruncatedInput),
{
    let t = b.subrange(0, m);
    lemma_record_layout(b, p, f);
    if p + 18 <= m {
        assert(t[p + 16] == b[p + 16] && t[p + 17] == b[p + 17]);
        let c = be_u16(b, p + 16);
        lemma_entries_prefix(b, m, p + 18, f, c as nat);
        let q = p + 18 + c * entry_size(f);
        if q + 4 <= m {
            assert(t[q] == b[q] && t[q + 1] == b[q + 1] && t[q + 2] == b[q + 2] && t[q + 3] == b[q
                + 3]);
        }
        if q + 16 <= m {
            assert(t[q + 12] == b[q + 12] && t[q + 13] == b[q + 13] && t[q + 14] == b[q + 14]
                && t[q + 15] == b[q + 15]);
            let end = record_spec(b, p, f)->Ok_0.2;
            if end <= m {
                lemma_name_prefix(b, m, q + 16, end);
            }
        }
    }
}

/// Channel data read from the first `m` bytes: the same where it lies within them,
/// else missing.
proof fn lemma_channel_data_prefix(
    b: Seq<u8>,
    m: int,
    p: int,
    chs: Seq<(PsdLayerChannel, u64)>,
    n: nat,
)
    requires
        0 <= m <= b.len(),
        0 <= p <= m,
        n <= chs.len(),
        channel_data_spec(b, p, chs, n) is Some,
    ensures
        p <= channel_data_spec(b, p, chs, n)->Some_0.1,
        channel_data_spec(b, p, chs, n)->Some_0.1 <= m ==> channel_data_spec(
            b.subrange(0, m),
            p,
            chs,
            n,
        ) == channel_data_spec(b, p, chs, n),
        channel_data_spec(b, p, chs, n)->Some_0.1 > m ==> channel_data_spec(
            b.subrange(0, m),
            p,
            chs,
            n,
        ) is None,
    decreases n,
{
    let t = b.subrange(0, m);
    if n > 0 {
        lemma_channel_data_prefix(b, m, p, chs, (n - 1) as nat);
        let q = channel_data_spec(b, p, chs, (n - 1) as nat)->Some_0.1;
        let l = chs[n - 1].1 as int;
        if q + l <= m {
            assert(t.subrange(q, q + l) =~= b.subrange(q, q + l));
        }
    }
}

/// Layers read from the first `m` bytes: the same where they lie within them, else a
/// truncation.
proof fn lemma_layers_prefix(b: Seq<u8>, m: int, start: int, f: DocumentFormat, k: nat)
    requires
        0 <= m <= b.len(),
        0 <= start <= m,
        layers_spec(b, start, f, k) is Ok,
    ensures
        start <= layers_spec(b, start, f, k)->Ok_0.2,
        layers_spec(b, start, f, k)->Ok_0.2 <= m ==> layers_spec(b.subrange(0, m), start, f, k)
            == layers_spec(b, start, f, k),
        layers_spec(b, start, f, k)->Ok_0.2 > m ==> layers_spec(b.subrange(0, m), start, f, k)
            == Err::<(SectionModel, Seq<Seq<char>>, int), DecodeError>(DecodeError::TruncatedInput),
    decreases k,
{
    if k > 0 {
        lemma_layers_prefix(b, m, start, f, (k - 1) as nat);
        let p = layers_spec(b, start, f, (k - 1) as nat)->Ok_0.2;
        lemma_record_layout(b, p, f);
        let (_, chs, end) = record_spec(b, p, f)->Ok_0;
        lemma_channel_data_ok(b, end, chs, chs.len());
        if p <= m {
            lemma_record_prefix(b, m, p, f);
            if end <= m {
                lemma_channel_data_prefix(b, m, end, chs, chs.len());
            }
        }
    }
}

/// A buffer cut short of what a successful decode read, by any number of bytes, fails
/// to decode with a truncation, and with no other error.
pub proof fn lemma_truncated_input(b: Seq<u8>, f: DocumentFormat, m: int)
    requires
        section_spec(b, f) matches Ok((_, end)) && 0 <= m < end,
    ensures
        section_spec(b.subrange(0, m), f) == Err::<(SectionModel, int), DecodeError>(
            DecodeError::TruncatedInput,
        ),
{
    lemma_section_layers(b, f);
    let t = b.subrange(0, m);
    let w = len_size(f);
    if w <= m {
        assert(t[0] == b[0] && t[1] == b[1] && t[2] == b[2] && t[3] == b[3]);
        if w == 8 {
            assert(t[4] == b[4] && t[5] == b[5] && t[6] == b[6] && t[7] == b[7]);
        }
        assert(be_len(t, 0, f) == be_len(b, 0, f));
        if 2 * w + 2 <= m {
            assert(t[2 * w] == b[2 * w] && t[2 * w + 1] == b[2 * w + 1]);
            assert(declared_layer_count(t, f) == declared_layer_count(b, f));
            let n = declared_layer_count(b, f);
            lemma_layers_prefix(b, m, 2 * w + 2, f, n as nat);
        }
    }
}

} // verus!
