//! Byte layout of an RPKN v1.1 peak file.
//!
//! ```text
//! 4B magic "RPKN" | 1B channels | 1B mipmap_count
//! | 4B sample_rate | 4B src_timestamp | 4B src_filesize
//! | per mipmap 8B: <i32 div, u32 npeak>
//! | payload: every wave layer, then every spectral layer, then every loudness layer
//! ```
//! Assembly is a pure function of its arguments; the sign of `div` is chosen
//! by the caller (positive for wave, `-'s'` for spectral, `-'r'` for loudness).
use vstd::prelude::*;

verus! {

/// Header of one mipmap: its signed division factor and its peak count.
#[derive(Debug, Clone, Copy, PartialEq, Eq)]
pub struct MipmapHeader {
    /// Division factor (spectral and loudness layers carry the negative tokens
    /// `-'s'` and `-'r'`).
    pub div: i32,
    /// Number of peaks in the mipmap.
    pub peak_count: u32,
}

/// A group of mipmaps of one kind: `headers[i]` describes the payload `data[i]`.
#[derive(Debug, Clone)]
pub struct LayerData {
    pub headers: Vec<MipmapHeader>,
    /// Serialized payload of each mipmap.
    pub data: Vec<Vec<u8>>,
}

/// The four magic bytes `"RPKN"`.
pub open spec fn magic() -> Seq<u8> {
    seq![82u8, 80u8, 75u8, 78u8]
}

/// Little-endian bytes of an unsigned 32-bit value.
pub open spec fn u32_le(x: u32) -> Seq<u8> {
    seq![
        (x % 256) as u8,
        ((x / 256) % 256) as u8,
        ((x / 65536) % 256) as u8,
        (x / 16777216) as u8,
    ]
}

/// Two's complement bit pattern of a signed 32-bit value.
pub open spec fn i32_bits(v: i32) -> u32 {
    if v >= 0 {
        v as u32
    } else {
        (v + 4294967296) as u32
    }
}

/// Little-endian bytes of a signed 32-bit value.
pub open spec fn i32_le(v: i32) -> Seq<u8> {
    u32_le(i32_bits(v))
}

/// The eight bytes of one mipmap header.
pub open spec fn header_bytes(h: MipmapHeader) -> Seq<u8> {
    i32_le(h.div) + u32_le(h.peak_count)
}

/// The header bytes of a sequence of mipmap headers, in order.
pub open spec fn headers_bytes(hs: Seq<MipmapHeader>) -> Seq<u8>
    decreases hs.len(),
{
    if hs.len() == 0 {
        Seq::empty()
    } else {
        headers_bytes(hs.drop_last()) + header_bytes(hs.last())
    }
}

/// Contents of a layer group: mipmap headers and payloads.
pub type GroupView = (Seq<MipmapHeader>, Seq<Seq<u8>>);

/// Contents of a list of layer groups.
pub open spec fn groups_view(layers: Seq<LayerData>) -> Seq<GroupView> {
    Seq::new(
        layers.len(),
        |i: int|
            (
                layers[i].headers@,
                Seq::new(layers[i].data@.len(), |j: int| layers[i].data@[j]@),
            ),
    )
}

/// Concatenation of byte sequences, in order.
pub open spec fn concat_bytes(ds: Seq<Seq<u8>>) -> Seq<u8>
    decreases ds.len(),
{
    if ds.len() == 0 {
        Seq::empty()
    } else {
        concat_bytes(ds.drop_last()) + ds.last()
    }
}

/// Number of mipmaps over all layer groups.
pub open spec fn mipmap_count(groups: Seq<GroupView>) -> nat
    decreases groups.len(),
{
    if groups.len() == 0 {
        0
    } else {
        mipmap_count(groups.drop_last()) + groups.last().0.len()
    }
}

/// The mipmap header section for all layer groups, in order.
pub open spec fn headers_section(groups: Seq<GroupView>) -> Seq<u8>
    decreases groups.len(),
{
    if groups.len() == 0 {
        Seq::empty()
    } else {
        headers_section(groups.drop_last()) + headers_bytes(groups.last().0)
    }
}

/// The payload section for all layer groups, in order.
pub open spec fn payload_section(groups: Seq<GroupView>) -> Seq<u8>
    decreases groups.len(),
{
    if groups.len() == 0 {
        Seq::empty()
    } else {
        payload_section(groups.drop_last()) + concat_bytes(groups.last().1)
    }
}

/// Every payload of the group holds, per peak and per channel, four bytes:
/// its length is `4 * channels * peak_count` of its header.
pub open spec fn group_matches(g: GroupView, channels: nat) -> bool {
    &&& g.0.len() == g.1.len()
    &&& forall|j: int| 0 <= j < g.0.len() ==> (#[trigger] g.1[j]).len() == 4 * channels * g.0[j].peak_count
}

/// Every group's payloads match their headers.
pub open spec fn payloads_match(groups: Seq<GroupView>, channels: nat) -> bool {
    forall|g: int| 0 <= g < groups.len() ==> group_matches(#[trigger] groups[g], channels)
}

/// The complete peak file for the given global fields and layer groups.
pub open spec fn rpkn_bytes(
    channels: u8,
    sample_rate: u32,
    src_timestamp: i32,
    src_filesize: i32,
    groups: Seq<GroupView>,
) -> Seq<u8> {
    magic() + seq![channels, mipmap_count(groups) as u8] + u32_le(sample_rate) + i32_le(
        src_timestamp,
    ) + i32_le(src_filesize) + headers_section(groups) + payload_section(groups)
}

/// Little-endian bytes of an unsigned 32-bit value, appended to `out`.
pub fn push_u32_le(out: &mut Vec<u8>, x: u32)
    ensures
        final(out)@ == old(out)@ + u32_le(x),
{
    out.push((x % 256) as u8);
    out.push(((x / 256) % 256) as u8);
    out.push(((x / 65536) % 256) as u8);
    out.push((x / 16777216) as u8);
}

/// Two's complement bit pattern of `v`.
pub fn i32_to_bits(v: i32) -> (r: u32)
    ensures
        r == i32_bits(v),
{
    if v >= 0 {
        v as u32
    } else {
        (v as i64 + 4294967296i64) as u32
    }
}

/// Appends the bytes of `data` to `out`.
pub fn push_all(out: &mut Vec<u8>, data: &[u8])
    ensures
        final(out)@ == old(out)@ + data@,
{
    let n = data.len();
    let mut i: usize = 0;
    while i < n
        invariant
            n == data@.len(),
            i <= n,
            out@ == old(out)@ + data@.take(i as int),
        decreases n - i,
    {
        out.push(data[i]);
        i += 1;
        assert(data@.take(i as int) == data@.take(i - 1) + seq![data@[i - 1]]);
    }
    assert(data@.take(n as int) == data@);
}

/// The mipmap count of a concatenation of group lists is the sum of their counts.
pub proof fn lemma_mipmap_count_concat(g1: Seq<GroupView>, g2: Seq<GroupView>)
    ensures
        mipmap_count(g1 + g2) == mipmap_count(g1) + mipmap_count(g2),
    decreases g2.len(),
{
    if g2.len() == 0 {
        assert(g1 + g2 =~= g1);
    } else {
        lemma_mipmap_count_concat(g1, g2.drop_last());
        assert((g1 + g2).drop_last() =~= g1 + g2.drop_last());
    }
}

/// A single group counts its own headers.
pub proof fn lemma_mipmap_count_one(g: GroupView)
    ensures
        mipmap_count(seq![g]) == g.0.len(),
{
    let s = seq![g];
    assert(s.drop_last() =~= Seq::<GroupView>::empty());
    assert(mipmap_count(s.drop_last()) == 0);
    assert(s.last() == g);
}

proof fn lemma_mipmap_count_prefix(groups: Seq<GroupView>, i: int)
    requires
        0 <= i <= groups.len(),
    ensures
        mipmap_count(groups.take(i)) <= mipmap_count(groups),
    decreases groups.len() - i,
{
    if i < groups.len() {
        lemma_mipmap_count_prefix(groups, i + 1);
        assert(groups.take(i + 1).drop_last() == groups.take(i));
    } else {
        assert(groups.take(i) == groups);
    }
}

/// Assembles a complete peak file.
///
/// The payload follows the order of `layers` (wave, then spectral, then
/// loudness in the streamer). The mipmap count is one byte: more than 255
/// mipmaps are not representable.
pub fn assemble(
    channels: u8,
    sample_rate: u32,
    src_timestamp: i32,
    src_filesize: i32,
    layers: &[LayerData],
) -> (out: Vec<u8>)
    requires
        mipmap_count(groups_view(layers@)) <= 255,
    ensures
        out@ == rpkn_bytes(channels, sample_rate, src_timestamp, src_filesize, groups_view(layers@)),
{
    let nl = layers.len();
    let ghost g = groups_view(layers@);
    let mut count: usize = 0;
    let mut i: usize = 0;
    while i < nl
        invariant
            nl == layers@.len(),
            g == groups_view(layers@),
            i <= nl,
            count == mipmap_count(g.take(i as int)),
            mipmap_count(g) <= 255,
        decreases nl - i,
    {
        proof {
            lemma_mipmap_count_prefix(g, i + 1);
            assert(g.take(i + 1).drop_last() == g.take(i as int));
        }
        count = count + layers[i].headers.len();
        i += 1;
    }
    assert(g.take(nl as int) == g);
    let mut out: Vec<u8> = Vec::new();
    out.push(82u8);
    out.push(80u8);
    out.push(75u8);
    out.push(78u8);
    out.push(channels);
    out.push(count as u8);
    push_u32_le(&mut out, sample_rate);
    push_u32_le(&mut out, i32_to_bits(src_timestamp));
    push_u32_le(&mut out, i32_to_bits(src_filesize));
    let ghost prefix = out@;
    assert(prefix == magic() + seq![channels, mipmap_count(g) as u8] + u32_le(sample_rate)
        + i32_le(src_timestamp) + i32_le(src_filesize));
    let mut i: usize = 0;
    while i < nl
        invariant
            nl == layers@.len(),
            g == groups_view(layers@),
            i <= nl,
            out@ == prefix + headers_section(g.take(i as int)),
        decreases nl - i,
    {
        let hs = &layers[i].headers;
        let nh = hs.len();
        let ghost before = out@;
        let mut j: usize = 0;
        while j < nh
            invariant
                nh == hs@.len(),
                j <= nh,
                out@ == before + headers_bytes(hs@.take(j as int)),
            decreases nh - j,
        {
            let h = hs[j];
            push_u32_le(&mut out, i32_to_bits(h.div));
            push_u32_le(&mut out, h.peak_count);
            j += 1;
            assert(hs@.take(j as int).drop_last() == hs@.take(j - 1));
        }
        assert(hs@.take(nh as int) == hs@);
        assert(g[i as int].0 == hs@);
        i += 1;
        assert(g.take(i as int).drop_last() == g.take(i - 1));
    }
    assert(g.take(nl as int) == g);
    let ghost mid = out@;
    let mut i: usize = 0;
    while i < nl
        invariant
            nl == layers@.len(),
            g == groups_view(layers@),
            i <= nl,
            out@ == mid + payload_section(g.take(i as int)),
        decreases nl - i,
    {
        let ds = &layers[i].data;
        let nd = ds.len();
        let ghost before = out@;
        let ghost gd = g[i as int].1;
        assert(gd.len() == nd);
        let mut j: usize = 0;
        while j < nd
            invariant
                nd == ds@.len(),
                gd == Seq::new(ds@.len(), |k: int| ds@[k]@),
                j <= nd,
                out@ == before + concat_bytes(gd.take(j as int)),
            decreases nd - j,
        {
            push_all(&mut out, ds[j].as_slice());
            j += 1;
            assert(gd.take(j as int).drop_last() == gd.take(j - 1));
        }
        assert(gd.take(nd as int) == gd);
        i += 1;
        assert(g.take(i as int).drop_last() == g.take(i - 1));
    }
    assert(g.take(nl as int) == g);
    out
}

/// Header of a wave mipmap (positive division factor).
pub fn wave_header(div: u32, peak_count: u32) -> (h: MipmapHeader)
    ensures
        h.div == div as i32,
        h.peak_count == peak_count,
{
    MipmapHeader { div: div as i32, peak_count }
}

/// The spectral token `-'s'`.
pub open spec fn spectral_token() -> i32 {
    -115i32
}

/// The loudness token `-'r'`.
pub open spec fn loudness_token() -> i32 {
    -114i32
}

/// Header of a spectral mipmap (division factor `-'s'`).
pub fn spectral_header(peak_count: u32) -> (h: MipmapHeader)
    ensures
        h.div == spectral_token(),
        h.peak_count == peak_count,
{
    MipmapHeader { div: -115, peak_count }
}

/// Header of a loudness mipmap (division factor `-'r'`).
pub fn loudness_header(peak_count: u32) -> (h: MipmapHeader)
    ensures
        h.div == loudness_token(),
        h.peak_count == peak_count,
{
    MipmapHeader { div: -114, peak_count }
}

/// Sum of the peak counts of a sequence of mipmap headers.
pub open spec fn headers_peaks(hs: Seq<MipmapHeader>) -> nat
    decreases hs.len(),
{
    if hs.len() == 0 {
        0
    } else {
        headers_peaks(hs.drop_last()) + hs.last().peak_count as nat
    }
}

/// Sum of the peak counts of all mipmaps of all groups.
pub open spec fn peak_total(groups: Seq<GroupView>) -> nat
    decreases groups.len(),
{
    if groups.len() == 0 {
        0
    } else {
        peak_total(groups.drop_last()) + headers_peaks(groups.last().0)
    }
}

proof fn lemma_headers_bytes_len(hs: Seq<MipmapHeader>)
    ensures
        headers_bytes(hs).len() == 8 * hs.len(),
    decreases hs.len(),
{
    if hs.len() > 0 {
        lemma_headers_bytes_len(hs.drop_last());
    }
}

proof fn lemma_group_payload_len(hs: Seq<MipmapHeader>, ds: Seq<Seq<u8>>, channels: nat)
    requires
        group_matches((hs, ds), channels),
    ensures
        concat_bytes(ds).len() == 4 * channels * headers_peaks(hs),
    decreases hs.len(),
{
    if hs.len() > 0 {
        let (h2, d2) = (hs.drop_last(), ds.drop_last());
        assert forall|j: int| 0 <= j < h2.len() implies (#[trigger] d2[j]).len() == 4 * channels * h2[j].peak_count by {
            assert(d2[j] == ds[j] && h2[j] == hs[j]);
        }
        lemma_group_payload_len(h2, d2, channels);
        assert(ds.last() == ds[ds.len() - 1]);
        assert(ds.last().len() == 4 * channels * hs.last().peak_count);
        assert(concat_bytes(ds) == concat_bytes(d2) + ds.last());
        assert(headers_peaks(hs) == headers_peaks(h2) + hs.last().peak_count);
        let (a, b) = (headers_peaks(h2), hs.last().peak_count as nat);
        assert(4 * channels * a + 4 * channels * b == 4 * channels * (a + b)) by (nonlinear_arith);
        assert(concat_bytes(ds).len() == 4 * channels * a + 4 * channels * b);
    } else {
        assert(ds.len() == 0);
        assert(4 * channels * 0 == 0);
    }
}

proof fn lemma_sections_len(groups: Seq<GroupView>, channels: nat)
    requires
        payloads_match(groups, channels),
    ensures
        headers_section(groups).len() == 8 * mipmap_count(groups),
        payload_section(groups).len() == 4 * channels * peak_total(groups),
    decreases groups.len(),
{
    if groups.len() > 0 {
        let g2 = groups.drop_last();
        assert forall|g: int| 0 <= g < g2.len() implies group_matches(#[trigger] g2[g], channels) by {
            assert(g2[g] == groups[g]);
        }
        lemma_sections_len(g2, channels);
        let last = groups.last();
        assert(group_matches(groups[groups.len() - 1], channels));
        lemma_headers_bytes_len(last.0);
        lemma_group_payload_len(last.0, last.1, channels);
        assert(payload_section(groups) == payload_section(g2) + concat_bytes(last.1));
        assert(peak_total(groups) == peak_total(g2) + headers_peaks(last.0));
        let (a, b) = (peak_total(g2), headers_peaks(last.0));
        assert(4 * channels * a + 4 * channels * b == 4 * channels * (a + b)) by (nonlinear_arith);
        assert(payload_section(groups).len() == 4 * channels * a + 4 * channels * b);
    } else {
        assert(4 * channels * 0 == 0);
    }
}

/// Length of a file whose payloads match their headers: 18 bytes of global
/// header, 8 per mipmap header and `4 * channels` per peak.
pub proof fn lemma_rpkn_len(
    channels_byte: u8,
    sample_rate: u32,
    src_timestamp: i32,
    src_filesize: i32,
    groups: Seq<GroupView>,
    channels: nat,
)
    requires
        payloads_match(groups, channels),
    ensures
        rpkn_bytes(channels_byte, sample_rate, src_timestamp, src_filesize, groups).len() == 18 + 8
            * mipmap_count(groups) + 4 * channels * peak_total(groups),
{
    lemma_sections_len(groups, channels);
}

} // verus!
