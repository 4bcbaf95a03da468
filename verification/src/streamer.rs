//! `ReapeaksStreamer`: consumes interleaved s16le bytes in arbitrary chunks and
//! produces the bytes of a complete RPKN file.
//!
//! - `feed(&[u8])`: any chunking (trailing bytes of an incomplete frame are
//!   carried over to the next call); the state after a sequence of chunks is
//!   the state after their concatenation.
//! - `finish(..)`: flushes the open buckets, trims the spectral layers to
//!   `c_total // div` with `c_total = fine_div * fine_npeak - 1280`, pads or
//!   truncates the loudness layers, and assembles the file.
//!
//! Spectral windows are cut here; their codes come from a floating-point
//! analysis done by the caller and are recorded with
//! [`ReapeaksStreamer::record_spectral_codes`]. Likewise the loudness payloads
//! (`f32` RMS values of the exact records kept here) are supplied to `finish`.
use vstd::prelude::*;
use crate::bucket::{ceil_div, lemma_open_tail_short, lemma_short};
use crate::format::{
    i32_le,
    LayerData, MipmapHeader, GroupView, group_matches, groups_view, lemma_rpkn_len, payloads_match, peak_total,
    rpkn_bytes, mipmap_count, push_all,
};
use crate::loudness::{
    LoudnessLayer, LoudnessView, SquareSum, lemma_loudness_content, lemma_loudness_feed_concat, lemma_loudness_peak_count,
    loud_summary, sq_sum,
};
use crate::options::{Feature, OptionsError, StreamerOptions};
use crate::spectral::{
    SpectralLayer, SpectralView, windows_view, i32_seq_le, lemma_frames_add,
    lemma_spectral_fed_concat, lemma_spectral_windows_concat, lemma_spectral_feed_consistent,
    lemma_stop_bound, lemma_stop_same, lemma_spectral_codes_inert, lemma_spectral_coded_step,
    lemma_spectral_coded_shape, lemma_i32_seq_le_len, lemma_i32_seq_le_index, reached,
};
use crate::wave::{
    WaveLayer, WaveView, i16_le, i16_seq_le, lemma_i16_seq_le_len, lemma_wave_feed_concat, lemma_wave_peak_count,
    wave_summary,
};

verus! {

/// Streaming error.
#[derive(Debug, Clone, PartialEq, Eq)]
pub enum StreamerError {
    /// `feed` after `finish`.
    FeedAfterFinish,
}

/// Signed 16-bit value of two little-endian bytes.
pub open spec fn i16_from_le(lo: u8, hi: u8) -> i16 {
    let v = lo + 256 * hi;
    if v >= 32768 {
        (v - 65536) as i16
    } else {
        v as i16
    }
}

/// Samples of little-endian s16 bytes (a trailing odd byte is ignored).
pub open spec fn decode_s16le(b: Seq<u8>) -> Seq<i16> {
    Seq::new(b.len() / 2, |i: int| i16_from_le(b[2 * i], b[2 * i + 1]))
}

/// Number of bytes of whole frames in `n` bytes.
pub open spec fn whole_frame_bytes(n: nat, ch: nat) -> nat {
    (n / (2 * ch)) * (2 * ch)
}

/// Contents of the windows returned for each spectral layer.
pub open spec fn layer_windows_view(ws: Seq<Vec<Vec<i16>>>) -> Seq<Seq<Seq<i16>>> {
    Seq::new(ws.len(), |i: int| windows_view(ws[i]@))
}

/// Division factors of the two loudness layers for a sample rate.
pub open spec fn loudness_divs(sample_rate: u32) -> (u32, u32) {
    (
        if sample_rate / 40 >= 1 { sample_rate / 40 } else { 1 },
        if sample_rate / 2 >= 1 { sample_rate / 2 } else { 1 },
    )
}

/// The first `n` bytes of `b`, or all of `b` when it is shorter.
pub open spec fn truncated(b: Seq<u8>, n: nat) -> Seq<u8> {
    if n <= b.len() {
        b.take(n as int)
    } else {
        b
    }
}

/// `b` padded with zero bytes, or truncated, to exactly `n` bytes.
pub open spec fn padded(b: Seq<u8>, n: nat) -> Seq<u8> {
    if n <= b.len() {
        b.take(n as int)
    } else {
        b + Seq::new((n - b.len()) as nat, |i: int| 0u8)
    }
}

/// The wave layer of division factor `div` after consuming `stream`
/// (flushed once the input is closed).
pub open spec fn wave_state(div: nat, ch: nat, stream: Seq<i16>, closed: bool) -> WaveView {
    let w = WaveView::initial(div, ch).fed(stream);
    if closed {
        w.flushed()
    } else {
        w
    }
}

/// The loudness layer of division factor `div` after consuming `stream`
/// (flushed when `flushed` holds).
pub open spec fn loudness_state(div: nat, ch: nat, stream: Seq<i16>, flushed: bool) -> LoudnessView {
    let l = LoudnessView::initial(div, ch).fed(stream);
    if flushed {
        l.flushed()
    } else {
        l
    }
}

/// Abstract state of a streamer.
pub struct StreamerView {
    pub sample_rate: u32,
    pub channels: nat,
    /// Frames consumed so far.
    pub total_frames: nat,
    /// Bytes of an incomplete frame carried to the next `feed`.
    pub carry: Seq<u8>,
    pub wave: Seq<WaveView>,
    pub spectral: Seq<SpectralView>,
    pub loudness: Seq<LoudnessView>,
    pub finished: bool,
    /// All samples consumed so far.
    pub stream: Seq<i16>,
}

impl StreamerView {
    /// Bytes per frame.
    pub open spec fn frame_bytes(self) -> nat {
        2 * self.channels
    }

    /// The whole frames available when `data` arrives, as samples.
    pub open spec fn frames_of(self, data: Seq<u8>) -> Seq<i16> {
        let buf = self.carry + data;
        decode_s16le(buf.take(whole_frame_bytes(buf.len(), self.channels) as int))
    }

    /// The bytes left over when `data` arrives.
    pub open spec fn carry_after(self, data: Seq<u8>) -> Seq<u8> {
        let buf = self.carry + data;
        buf.skip(whole_frame_bytes(buf.len(), self.channels) as int)
    }

    /// The state after `data` is fed (unchanged once finished).
    pub open spec fn fed(self, data: Seq<u8>) -> StreamerView {
        if self.finished {
            self
        } else {
            let frames = self.frames_of(data);
            StreamerView {
                total_frames: self.total_frames + frames.len() / self.channels,
                carry: self.carry_after(data),
                wave: Seq::new(self.wave.len(), |i: int| self.wave[i].fed(frames)),
                spectral: Seq::new(
                    self.spectral.len(),
                    |i: int| self.spectral[i].fed(frames, self.total_frames),
                ),
                loudness: Seq::new(self.loudness.len(), |i: int| self.loudness[i].fed(frames)),
                stream: self.stream + frames,
                ..self
            }
        }
    }

    /// The windows returned, per spectral layer, when `data` is fed.
    pub open spec fn windows_for(self, data: Seq<u8>) -> Seq<Seq<Seq<i16>>> {
        Seq::new(
            self.spectral.len(),
            |i: int| self.spectral[i].windows_for(self.frames_of(data), self.total_frames),
        )
    }

    /// The state after `data` is fed and the code `code(w)` of every window
    /// `w` it releases is recorded (unchanged once finished).
    pub open spec fn fed_coded(self, data: Seq<u8>, code: spec_fn(Seq<i16>) -> i32) -> StreamerView {
        if self.finished {
            self
        } else {
            let f = self.fed(data);
            let w = self.windows_for(data);
            StreamerView {
                spectral: Seq::new(
                    f.spectral.len(),
                    |i: int| SpectralView { out: f.spectral[i].out + w[i].map_values(code), ..f.spectral[i] },
                ),
                ..f
            }
        }
    }

    /// The state after the chunks are fed in order.
    pub open spec fn fed_all(self, chunks: Seq<Seq<u8>>) -> StreamerView
        decreases chunks.len(),
    {
        if chunks.len() == 0 {
            self
        } else {
            self.fed_all(chunks.drop_last()).fed(chunks.last())
        }
    }

    /// The state after the chunks are fed in order, the codes of the windows
    /// released by each being recorded.
    pub open spec fn fed_coded_all(self, chunks: Seq<Seq<u8>>, code: spec_fn(Seq<i16>) -> i32) -> StreamerView
        decreases chunks.len(),
    {
        if chunks.len() == 0 {
            self
        } else {
            self.fed_coded_all(chunks.drop_last(), code).fed_coded(chunks.last(), code)
        }
    }

    /// The streamer is consistent and every spectral layer holds the code
    /// `code(w)` of every window `w` of the stream released so far.
    pub open spec fn coded(self, code: spec_fn(Seq<i16>) -> i32) -> bool {
        &&& self.consistent()
        &&& forall|i: int| 0 <= i < self.spectral.len() ==> #[trigger] self.spectral[i].coded(self.stream, code)
    }

    /// The state after the input is closed: the open wave buckets and the
    /// open bucket of the first loudness layer are emitted.
    pub open spec fn closed(self) -> StreamerView {
        StreamerView {
            finished: true,
            wave: Seq::new(self.wave.len(), |i: int| self.wave[i].flushed()),
            loudness: Seq::new(
                self.loudness.len(),
                |i: int|
                    if i == 0 {
                        self.loudness[i].flushed()
                    } else {
                        self.loudness[i]
                    },
            ),
            ..self
        }
    }

    /// The streamer consumed `stream` in order from frame 0: layer parameters
    /// agree, every layer is the state its parameters reach on the stream, and
    /// the wave and spectral levels share their division factors.
    pub open spec fn consistent(self) -> bool {
        &&& self.channels >= 1
        &&& self.carry.len() < self.frame_bytes()
        &&& self.stream.len() == self.total_frames * self.channels
        &&& forall|i: int|
            0 <= i < self.wave.len() ==> (#[trigger] self.wave[i]).channels == self.channels
                && self.wave[i].div >= 1
        &&& forall|i: int|
            0 <= i < self.loudness.len() ==> (#[trigger] self.loudness[i]).channels == self.channels
                && self.loudness[i].div >= 1
        &&& forall|i: int|
            0 <= i < self.spectral.len() ==> (#[trigger] self.spectral[i]).channels == self.channels
                && self.spectral[i].consistent(self.stream)
        &&& forall|i: int|
            0 <= i < self.wave.len() ==> #[trigger] self.wave[i] == wave_state(
                self.wave[i].div,
                self.channels,
                self.stream,
                self.finished,
            )
        &&& self.loudness.len() == 0 || self.loudness.len() == 2
        &&& self.loudness.len() == 2 ==> {
            &&& self.loudness[0] == loudness_state(self.loudness[0].div, self.channels, self.stream, self.finished)
            &&& self.loudness[1] == loudness_state(self.loudness[1].div, self.channels, self.stream, false)
        }
        &&& self.wave.len() > 0 && self.spectral.len() > 0 ==> {
            &&& self.wave.len() == self.spectral.len()
            &&& forall|i: int| 0 <= i < self.wave.len() ==> #[trigger] self.wave[i].div == self.spectral[i].div
        }
    }

    /// Peak count of a wave layer.
    pub open spec fn wave_npeak(self, i: int) -> nat {
        self.wave[i].out.len() / (2 * self.channels)
    }

    /// Peak count at the finest wave resolution used to trim the spectral layers.
    pub open spec fn fine_npeak(self) -> nat {
        if self.wave.len() > 0 {
            self.wave_npeak(0)
        } else {
            ceil_div(self.total_frames, self.spectral[0].div)
        }
    }

    /// `fine_div * fine_npeak - 1280`.
    pub open spec fn c_total(self) -> int {
        self.spectral[0].div * self.fine_npeak() - 1280
    }

    /// Peak count kept in a spectral layer.
    pub open spec fn spectral_npeak(self, i: int) -> u32 {
        (if self.c_total() <= 0 {
            0
        } else {
            self.c_total() / self.spectral[i].div as int
        }) as u32
    }

    /// Peak count of the first loudness layer: `ceil(total / div1) + 1`.
    pub open spec fn loudness_npeak1(self) -> nat {
        ceil_div(self.total_frames, self.loudness[0].div) + 1
    }

    /// Peak count of the second loudness layer: `floor(total / div2)`.
    pub open spec fn loudness_npeak2(self) -> nat {
        self.total_frames / self.loudness[1].div
    }

    /// The wave layer group.
    pub open spec fn wave_group(self) -> GroupView {
        (
            Seq::new(
                self.wave.len(),
                |i: int|
                    MipmapHeader {
                        div: self.wave[i].div as u32 as i32,
                        peak_count: self.wave_npeak(i) as u32,
                    },
            ),
            Seq::new(self.wave.len(), |i: int| i16_seq_le(self.wave[i].out)),
        )
    }

    /// The spectral layer group (trimmed to `c_total // div` peaks).
    pub open spec fn spectral_group(self) -> GroupView {
        (
            Seq::new(
                self.spectral.len(),
                |i: int| MipmapHeader { div: -115i32, peak_count: self.spectral_npeak(i) },
            ),
            Seq::new(
                self.spectral.len(),
                |i: int|
                    truncated(
                        i32_seq_le(self.spectral[i].out),
                        self.spectral_npeak(i) as nat * self.channels * 4,
                    ),
            ),
        )
    }

    /// The loudness layer group for the given payloads (first layer padded
    /// or truncated, second truncated).
    pub open spec fn loudness_group(self, payloads: Seq<Seq<u8>>) -> GroupView {
        (
            seq![
                MipmapHeader { div: -114i32, peak_count: self.loudness_npeak1() as u32 },
                MipmapHeader { div: -114i32, peak_count: self.loudness_npeak2() as u32 },
            ],
            seq![
                padded(payloads[0], self.loudness_npeak1() * self.channels * 4),
                truncated(payloads[1], self.loudness_npeak2() * self.channels * 4),
            ],
        )
    }

    /// Layer groups of the output: wave, then spectral and loudness when present.
    pub open spec fn output_groups(self, payloads: Seq<Seq<u8>>) -> Seq<GroupView> {
        seq![self.wave_group()] + (if self.spectral.len() > 0 {
            seq![self.spectral_group()]
        } else {
            Seq::empty()
        }) + (if self.loudness.len() > 0 {
            seq![self.loudness_group(payloads)]
        } else {
            Seq::empty()
        })
    }

    /// The RPKN bytes of a closed streamer.
    pub open spec fn output(self, src_timestamp: i32, src_filesize: i32, payloads: Seq<Seq<u8>>) -> Seq<u8> {
        rpkn_bytes(
            self.channels as u8,
            self.sample_rate,
            src_timestamp,
            src_filesize,
            self.output_groups(payloads),
        )
    }

    /// The arithmetic of `finish` stays within the machine integers and the
    /// mipmap count fits its byte.
    pub open spec fn finish_fits(self) -> bool {
        &&& self.wave.len() + self.spectral.len() + self.loudness.len() <= 255
        &&& self.spectral.len() > 0 ==> {
            &&& self.fine_npeak() <= i64::MAX
            &&& self.spectral[0].div * self.fine_npeak() <= i64::MAX
            &&& forall|i: int|
                0 <= i < self.spectral.len() ==> self.spectral_npeak(i) * self.channels * 4
                    <= usize::MAX
        }
        &&& self.loudness.len() > 0 ==> {
            &&& self.loudness_npeak1() * self.channels * 4 <= usize::MAX
            &&& self.loudness_npeak2() * self.channels * 4 <= usize::MAX
        }
    }
}

/// Streaming generator.
pub struct ReapeaksStreamer {
    sample_rate: u32,
    channels: usize,
    /// Frames consumed so far (per channel).
    total_frames: u64,
    /// Bytes of an incomplete frame (< channels * 2).
    carry: Vec<u8>,
    wave_layers: Vec<WaveLayer>,
    spectral_layers: Vec<SpectralLayer>,
    /// Two layers (div = sr/40 and sr/2) when loudness is enabled.
    loudness_layers: Vec<LoudnessLayer>,
    /// Set by `close`/`finish`; `feed` is refused afterwards.
    finished: bool,
    /// All samples consumed so far.
    stream: Ghost<Seq<i16>>,
}

impl View for ReapeaksStreamer {
    type V = StreamerView;

    closed spec fn view(&self) -> StreamerView {
        StreamerView {
            sample_rate: self.sample_rate,
            channels: self.channels as nat,
            total_frames: self.total_frames as nat,
            carry: self.carry@,
            wave: Seq::new(self.wave_layers@.len(), |i: int| self.wave_layers@[i]@),
            spectral: Seq::new(self.spectral_layers@.len(), |i: int| self.spectral_layers@[i]@),
            loudness: Seq::new(self.loudness_layers@.len(), |i: int| self.loudness_layers@[i]@),
            finished: self.finished,
            stream: self.stream@,
        }
    }
}

/// The initial state for the given parameters.
pub open spec fn initial_view(sample_rate: u32, channels: nat, options: StreamerOptions) -> StreamerView {
    let k = options.spec_layer_count();
    let divs = options.divs@;
    StreamerView {
        sample_rate,
        channels,
        total_frames: 0,
        carry: Seq::empty(),
        wave: if options.features@.contains(Feature::Wave) {
            Seq::new(k, |i: int| WaveView::initial(divs[i] as nat, channels))
        } else {
            Seq::empty()
        },
        spectral: if options.features@.contains(Feature::Spectral) {
            Seq::new(k, |i: int| SpectralView::initial(divs[i] as nat, channels, sample_rate as nat))
        } else {
            Seq::empty()
        },
        loudness: if options.features@.contains(Feature::Loudness) {
            seq![
                LoudnessView::initial(loudness_divs(sample_rate).0 as nat, channels),
                LoudnessView::initial(loudness_divs(sample_rate).1 as nat, channels),
            ]
        } else {
            Seq::empty()
        },
        finished: false,
        stream: Seq::empty(),
    }
}

/// Splices the carried bytes and `data`, returning the samples of the whole
/// frames and the bytes left over.
fn splice_frames(carry: &[u8], data: &[u8], channels: usize) -> (r: (Vec<i16>, Vec<u8>))
    requires
        channels >= 1,
        channels <= usize::MAX / 4096,
        carry@.len() + data@.len() <= usize::MAX,
    ensures
        ({
            let buf = carry@ + data@;
            let n = whole_frame_bytes(buf.len(), channels as nat);
            &&& r.0@ == decode_s16le(buf.take(n as int))
            &&& r.1@ == buf.skip(n as int)
        }),
{
    let frame_bytes = channels * 2;
    let mut buf: Vec<u8> = Vec::new();
    push_all(&mut buf, carry);
    push_all(&mut buf, data);
    let bl = buf.len();
    assert(bl / frame_bytes * frame_bytes <= bl) by (nonlinear_arith)
        requires
            frame_bytes > 0,
    ;
    let n_complete = bl / frame_bytes * frame_bytes;
    let ghost nb = whole_frame_bytes(bl as nat, channels as nat);
    assert(n_complete == nb);
    assert(n_complete <= bl) by (nonlinear_arith)
        requires
            n_complete == bl / frame_bytes * frame_bytes,
            frame_bytes > 0,
    ;
    let mut rest: Vec<u8> = Vec::new();
    let mut i: usize = n_complete;
    while i < bl
        invariant
            bl == buf@.len(),
            n_complete <= i <= bl,
            rest@ == buf@.subrange(n_complete as int, i as int),
        decreases bl - i,
    {
        rest.push(buf[i]);
        i += 1;
        assert(buf@.subrange(n_complete as int, i as int) == buf@.subrange(n_complete as int, i - 1) + seq![buf@[i - 1]]);
    }
    assert(buf@.subrange(n_complete as int, bl as int) == buf@.skip(n_complete as int));
    let ghost head = buf@.take(n_complete as int);
    let half = n_complete / 2;
    let mut frames: Vec<i16> = Vec::new();
    let mut j: usize = 0;
    while j < half
        invariant
            bl == buf@.len(),
            n_complete <= bl,
            half == n_complete / 2,
            head == buf@.take(n_complete as int),
            j <= half,
            frames@ == decode_s16le(head).take(j as int),
        decreases half - j,
    {
        let lo = buf[2 * j];
        let hi = buf[2 * j + 1];
        let v: i32 = lo as i32 + 256 * (hi as i32);
        let x: i16 = if v >= 32768 {
            (v - 65536) as i16
        } else {
            v as i16
        };
        proof {
            assert(head[2 * j] == lo);
            assert(head[2 * j + 1] == hi);
            assert(decode_s16le(head)[j as int] == x);
            assert(decode_s16le(head).take(j + 1) == decode_s16le(head).take(j as int) + seq![x]);
        }
        frames.push(x);
        j += 1;
    }
    assert(decode_s16le(head).take(half as int) == decode_s16le(head));
    (frames, rest)
}


fn feed_wave_layers(layers: &mut Vec<WaveLayer>, block: &[i16])
    requires
        forall|i: int|
            0 <= i < old(layers)@.len() ==> (#[trigger] old(layers)@[i]).wf() && block@.len() as int
                % (old(layers)@[i]@.channels as int) == 0,
    ensures
        final(layers)@.len() == old(layers)@.len(),
        forall|i: int|
            0 <= i < final(layers)@.len() ==> (#[trigger] final(layers)@[i]).wf() && final(layers)@[i]@
                == old(layers)@[i]@.fed(block@),
{
    let n = layers.len();
    let mut i: usize = 0;
    while i < n
        invariant
            n == layers@.len(),
            n == old(layers)@.len(),
            i <= n,
            forall|j: int|
                0 <= j < i ==> (#[trigger] layers@[j]).wf() && layers@[j]@ == old(layers)@[j]@.fed(
                    block@,
                ),
            forall|j: int| i <= j < n ==> #[trigger] layers@[j] == old(layers)@[j],
            forall|j: int|
                0 <= j < n ==> (#[trigger] old(layers)@[j]).wf() && block@.len() as int % (old(
                    layers,
                )@[j]@.channels as int) == 0,
        decreases n - i,
    {
        layers[i].feed(block);
        i += 1;
    }
}

fn feed_loudness_layers(layers: &mut Vec<LoudnessLayer>, block: &[i16])
    requires
        forall|i: int|
            0 <= i < old(layers)@.len() ==> (#[trigger] old(layers)@[i]).wf() && block@.len() as int
                % (old(layers)@[i]@.channels as int) == 0,
    ensures
        final(layers)@.len() == old(layers)@.len(),
        forall|i: int|
            0 <= i < final(layers)@.len() ==> (#[trigger] final(layers)@[i]).wf() && final(layers)@[i]@
                == old(layers)@[i]@.fed(block@),
{
    let n = layers.len();
    let mut i: usize = 0;
    while i < n
        invariant
            n == layers@.len(),
            n == old(layers)@.len(),
            i <= n,
            forall|j: int|
                0 <= j < i ==> (#[trigger] layers@[j]).wf() && layers@[j]@ == old(layers)@[j]@.fed(
                    block@,
                ),
            forall|j: int| i <= j < n ==> #[trigger] layers@[j] == old(layers)@[j],
            forall|j: int|
                0 <= j < n ==> (#[trigger] old(layers)@[j]).wf() && block@.len() as int % (old(
                    layers,
                )@[j]@.channels as int) == 0,
        decreases n - i,
    {
        layers[i].feed(block);
        i += 1;
    }
}

fn feed_spectral_layers(layers: &mut Vec<SpectralLayer>, block: &[i16], start: u64) -> (ws: Vec<
    Vec<Vec<i16>>,
>)
    requires
        forall|i: int|
            0 <= i < old(layers)@.len() ==> {
                &&& (#[trigger] old(layers)@[i]).wf()
                &&& block@.len() as int % (old(layers)@[i]@.channels as int) == 0
                &&& old(layers)@[i]@.next_center + old(layers)@[i]@.div + 1024 <= u64::MAX
                &&& start + old(layers)@[i]@.block_frames(block@) + old(layers)@[i]@.div + 1024
                    <= u64::MAX
            },
    ensures
        final(layers)@.len() == old(layers)@.len(),
        ws@.len() == old(layers)@.len(),
        forall|i: int|
            0 <= i < final(layers)@.len() ==> {
                &&& (#[trigger] final(layers)@[i]).wf()
                &&& final(layers)@[i]@ == old(layers)@[i]@.fed(block@, start as nat)
                &&& windows_view(ws@[i]@) == old(layers)@[i]@.windows_for(block@, start as nat)
            },
{
    let n = layers.len();
    let mut ws: Vec<Vec<Vec<i16>>> = Vec::new();
    let mut i: usize = 0;
    while i < n
        invariant
            n == layers@.len(),
            n == old(layers)@.len(),
            i <= n,
            ws@.len() == i,
            forall|j: int|
                0 <= j < i ==> {
                    &&& (#[trigger] layers@[j]).wf()
                    &&& layers@[j]@ == old(layers)@[j]@.fed(block@, start as nat)
                    &&& windows_view(ws@[j]@) == old(layers)@[j]@.windows_for(block@, start as nat)
                },
            forall|j: int| i <= j < n ==> #[trigger] layers@[j] == old(layers)@[j],
            forall|j: int|
                0 <= j < n ==> {
                    &&& (#[trigger] old(layers)@[j]).wf()
                    &&& block@.len() as int % (old(layers)@[j]@.channels as int) == 0
                    &&& old(layers)@[j]@.next_center + old(layers)@[j]@.div + 1024 <= u64::MAX
                    &&& start + old(layers)@[j]@.block_frames(block@) + old(layers)@[j]@.div + 1024
                        <= u64::MAX
                },
        decreases n - i,
    {
        let ghost ws0 = ws@;
        let ghost l0 = layers@;
        let w = layers[i].feed(block, start);
        ws.push(w);
        proof {
            assert(ws@ == ws0.push(w));
            assert(layers@ == l0.update(i as int, layers@[i as int]));
            assert forall|j: int| 0 <= j < i + 1 implies {
                &&& (#[trigger] layers@[j]).wf()
                &&& layers@[j]@ == old(layers)@[j]@.fed(block@, start as nat)
                &&& windows_view(ws@[j]@) == old(layers)@[j]@.windows_for(block@, start as nat)
            } by {
                if j < i {
                    assert(layers@[j] == l0[j]);
                    assert(ws@[j] == ws0[j]);
                } else {
                    assert(ws@[j] == w);
                }
            }
        }
        i += 1;
    }
    ws
}

fn finish_wave_layers(layers: &mut Vec<WaveLayer>)
    requires
        forall|i: int| 0 <= i < old(layers)@.len() ==> (#[trigger] old(layers)@[i]).wf(),
    ensures
        final(layers)@.len() == old(layers)@.len(),
        forall|i: int|
            0 <= i < final(layers)@.len() ==> (#[trigger] final(layers)@[i]).wf() && final(layers)@[i]@
                == old(layers)@[i]@.flushed(),
{
    let n = layers.len();
    let mut i: usize = 0;
    while i < n
        invariant
            n == layers@.len(),
            n == old(layers)@.len(),
            i <= n,
            forall|j: int|
                0 <= j < i ==> (#[trigger] layers@[j]).wf() && layers@[j]@ == old(layers)@[j]@.flushed(),
            forall|j: int| i <= j < n ==> #[trigger] layers@[j] == old(layers)@[j],
            forall|j: int| 0 <= j < n ==> (#[trigger] old(layers)@[j]).wf(),
        decreases n - i,
    {
        layers[i].finish();
        i += 1;
    }
}

/// `b` padded with zero bytes, or truncated, to exactly `n` bytes.
fn pad_to(b: &Vec<u8>, n: usize) -> (r: Vec<u8>)
    ensures
        r@ == padded(b@, n as nat),
        r@.len() == n,
        forall|i: int| 0 <= i < n ==> #[trigger] r@[i] == if i < b@.len() { b@[i] } else { 0u8 },
{
    let bl = b.len();
    let mut r: Vec<u8> = Vec::new();
    if n <= bl {
        push_all(&mut r, &b.as_slice()[0..n]);
        assert(r@ =~= padded(b@, n as nat));
    } else {
        push_all(&mut r, b.as_slice());
        let mut i: usize = bl;
        while i < n
            invariant
                bl == b@.len(),
                bl <= i <= n,
                r@ == b@ + Seq::new((i - bl) as nat, |k: int| 0u8),
            decreases n - i,
        {
            r.push(0u8);
            i += 1;
            assert(r@ =~= b@ + Seq::new((i - bl) as nat, |k: int| 0u8));
        }
    }
    r
}

/// The first `n` bytes of `b`, or all of `b`.
fn truncate_to(b: Vec<u8>, n: usize) -> (r: Vec<u8>)
    ensures
        r@ == truncated(b@, n as nat),
        r@.len() == if n <= b@.len() { n as nat } else { b@.len() },
        forall|i: int| 0 <= i < r@.len() ==> #[trigger] r@[i] == b@[i],
{
    let mut b = b;
    b.truncate(n);
    b
}

/// Contents of the loudness payloads.
pub open spec fn payloads_view(lp: Seq<Vec<u8>>) -> Seq<Seq<u8>> {
    Seq::new(lp.len(), |i: int| lp[i]@)
}

impl ReapeaksStreamer {
    /// Well-formedness of the streamer and of all its layers.
    pub closed spec fn wf(&self) -> bool {
        &&& self.channels >= 1
        &&& self.channels <= usize::MAX / 4096
        &&& self@.consistent()
        &&& forall|i: int| 0 <= i < self.wave_layers@.len() ==> (#[trigger] self.wave_layers@[i]).wf()
        &&& forall|i: int|
            0 <= i < self.spectral_layers@.len() ==> (#[trigger] self.spectral_layers@[i]).wf()
        &&& forall|i: int|
            0 <= i < self.loudness_layers@.len() ==> (#[trigger] self.loudness_layers@[i]).wf()
        &&& self.loudness_layers@.len() == 0 || self.loudness_layers@.len() == 2
    }

    /// Builds a streamer; `channels` must be at least 1. The wave and
    /// spectral levels use `options.wave_divs()`; the two loudness layers use
    /// `max(sr / 40, 1)` and `max(sr / 2, 1)`.
    pub fn new(sample_rate: u32, channels: u32, options: StreamerOptions) -> (r: Result<
        ReapeaksStreamer,
        OptionsError,
    >)
        requires
            forall|i: int| 0 <= i < options.spec_layer_count() ==> options.divs@[i] >= 1,
            channels as nat <= usize::MAX / 4096,
        ensures
            channels < 1 ==> r == Err::<ReapeaksStreamer, OptionsError>(
                OptionsError::InvalidChannels(channels),
            ),
            channels >= 1 ==> (r matches Ok(s) && s.wf() && s@ == initial_view(
                sample_rate,
                channels as nat,
                options,
            )),
    {
        if channels < 1 {
            return Err(OptionsError::InvalidChannels(channels));
        }
        let ch = channels as usize;
        let divs = options.wave_divs();
        let k = divs.len();
        let ghost init = initial_view(sample_rate, ch as nat, options);
        let mut wave_layers: Vec<WaveLayer> = Vec::new();
        if options.is_enabled(Feature::Wave) {
            let mut i: usize = 0;
            while i < k
                invariant
                    k == divs@.len(),
                    divs@ == options.divs@.take(options.spec_layer_count() as int),
                    forall|j: int| 0 <= j < options.spec_layer_count() ==> options.divs@[j] >= 1,
                    1 <= ch <= usize::MAX / 4096,
                    i <= k,
                    wave_layers@.len() == i,
                    forall|j: int|
                        0 <= j < i ==> (#[trigger] wave_layers@[j]).wf() && wave_layers@[j]@
                            == WaveView::initial(divs@[j] as nat, ch as nat),
                decreases k - i,
            {
                wave_layers.push(WaveLayer::new(divs[i], ch));
                i += 1;
            }
        }
        let mut spectral_layers: Vec<SpectralLayer> = Vec::new();
        if options.is_enabled(Feature::Spectral) {
            let mut i: usize = 0;
            while i < k
                invariant
                    k == divs@.len(),
                    divs@ == options.divs@.take(options.spec_layer_count() as int),
                    forall|j: int| 0 <= j < options.spec_layer_count() ==> options.divs@[j] >= 1,
                    1 <= ch <= usize::MAX / 4096,
                    i <= k,
                    spectral_layers@.len() == i,
                    forall|j: int|
                        0 <= j < i ==> (#[trigger] spectral_layers@[j]).wf() && spectral_layers@[j]@
                            == SpectralView::initial(divs@[j] as nat, ch as nat, sample_rate as nat),
                decreases k - i,
            {
                spectral_layers.push(SpectralLayer::new(divs[i], ch, sample_rate));
                i += 1;
            }
        }
        let mut loudness_layers: Vec<LoudnessLayer> = Vec::new();
        if options.is_enabled(Feature::Loudness) {
            let div1 = if sample_rate / 40 >= 1 {
                sample_rate / 40
            } else {
                1
            };
            let div2 = if sample_rate / 2 >= 1 {
                sample_rate / 2
            } else {
                1
            };
            loudness_layers.push(LoudnessLayer::new(div1, ch));
            loudness_layers.push(LoudnessLayer::new(div2, ch));
        }
        let s = ReapeaksStreamer {
            sample_rate,
            channels: ch,
            total_frames: 0,
            carry: Vec::new(),
            wave_layers,
            spectral_layers,
            loudness_layers,
            finished: false,
            stream: Ghost(Seq::empty()),
        };
        proof {
            assert(s@.wave =~= init.wave);
            assert(s@.spectral =~= init.spectral);
            assert(s@.loudness =~= init.loudness);
            assert(s@.carry =~= init.carry);
            assert forall|i: int| 0 <= i < s@.spectral.len() implies (#[trigger] s@.spectral[i]).channels
                == s@.channels && s@.spectral[i].consistent(s@.stream) by {
                assert(s@.stream.len() == 0);
                assert(crate::spectral::recent(s@.stream, 2048 * s@.channels) =~= Seq::<i16>::empty());
            }
            assert(s@.carry.len() < s@.frame_bytes());
            assert(s@.stream.len() == s@.total_frames * s@.channels) by (nonlinear_arith)
                requires
                    s@.stream.len() == 0,
                    s@.total_frames == 0,
            ;
            assert forall|i: int| 0 <= i < s@.wave.len() implies (#[trigger] s@.wave[i]).channels == s@.channels by {
                assert(s@.wave[i] == s.wave_layers@[i]@);
            }
            assert forall|i: int| 0 <= i < s@.loudness.len() implies (#[trigger] s@.loudness[i]).channels == s@.channels by {
                assert(s@.loudness[i] == s.loudness_layers@[i]@);
            }
            assert(s@.consistent());
            assert(s.wf());
        }
        Ok(s)
    }


    /// Consumes a chunk of interleaved s16le bytes, of any length: bytes of
    /// an incomplete trailing frame are carried to the next call. Returns,
    /// per spectral layer, the windows the stream has now reached, whose codes
    /// are to be recorded with `record_spectral_codes`. After `finish` (or
    /// `close`) it is refused.
    pub fn feed(&mut self, data: &[u8]) -> (r: Result<Vec<Vec<Vec<i16>>>, StreamerError>)
        requires
            old(self).wf(),
            !old(self)@.finished ==> data@.len() <= usize::MAX / 2,
            !old(self)@.finished ==> old(self)@.total_frames + data@.len() + 0x4_0000_0000 <= u64::MAX,
        ensures
            final(self).wf(),
            old(self)@.finished ==> r == Err::<Vec<Vec<Vec<i16>>>, StreamerError>(
                StreamerError::FeedAfterFinish,
            ) && final(self)@ == old(self)@,
            !old(self)@.finished ==> (r matches Ok(ws) && layer_windows_view(ws@) == old(
                self,
            )@.windows_for(data@) && final(self)@ == old(self)@.fed(data@)),
    {
        if self.finished {
            return Err(StreamerError::FeedAfterFinish);
        }
        let ghost v0 = self@;
        let ch = self.channels;
        let ghost ch_n = ch as nat;
        let (frames, new_carry) = splice_frames(self.carry.as_slice(), data, ch);
        let ghost buf = v0.carry + data@;
        let ghost nb = whole_frame_bytes(buf.len(), ch_n);
        proof {
            let q = buf.len() / (2 * ch_n);
            assert(nb == q * (2 * ch_n));
            assert(q * (2 * ch_n) <= buf.len()) by (nonlinear_arith)
                requires
                    q == buf.len() / (2 * ch_n),
                    ch_n > 0,
            ;
            assert(buf.take(nb as int).len() == nb);
            assert(frames@.len() == nb / 2);
            assert(frames@.len() == q * ch_n) by (nonlinear_arith)
                requires
                    nb == q * (2 * ch_n),
                    frames@.len() == nb / 2,
            ;
            assert(frames@.len() as int % (ch_n as int) == 0) by (nonlinear_arith)
                requires
                    frames@.len() == q * ch_n,
                    ch_n > 0,
            ;
            assert(frames@.len() / ch_n == q) by (nonlinear_arith)
                requires
                    frames@.len() == q * ch_n,
                    ch_n > 0,
            ;
            assert(q <= buf.len()) by (nonlinear_arith)
                requires
                    q == buf.len() / (2 * ch_n),
                    ch_n > 0,
            ;
            assert(new_carry@.len() < 2 * ch_n) by (nonlinear_arith)
                requires
                    new_carry@.len() == buf.len() - q * (2 * ch_n),
                    q == buf.len() / (2 * ch_n),
                    ch_n > 0,
            ;
            assert(q <= data@.len() + 1) by (nonlinear_arith)
                requires
                    q * (2 * ch_n) <= buf.len(),
                    buf.len() < 2 * ch_n + data@.len(),
                    ch_n > 0,
            ;
            assert(frames@ == v0.frames_of(data@));
            assert(new_carry@ == v0.carry_after(data@));
            assert forall|i: int| 0 <= i < v0.spectral.len() implies {
                &&& v0.spectral[i].next_center + v0.spectral[i].div + 1024 <= u64::MAX
                &&& v0.total_frames + v0.spectral[i].block_frames(frames@) + v0.spectral[i].div + 1024 <= u64::MAX
            } by {
                let sv = v0.spectral[i];
                assert(sv == self.spectral_layers@[i]@);
                assert(sv.channels == ch_n);
                assert(sv.block_frames(frames@) == q);
                assert(sv.consistent(v0.stream));
                assert(v0.stream.len() / ch_n == v0.total_frames) by (nonlinear_arith)
                    requires
                        v0.stream.len() == v0.total_frames * ch_n,
                        ch_n > 0,
                ;
                lemma_stop_bound(sv, v0.total_frames, 0);
                self.spectral_layers@[i].lemma_view_bounds();
            }
        }
        self.carry = new_carry;
        let start = self.total_frames;
        let n = frames.len() / ch;
        proof {
            assert forall|i: int| 0 <= i < self.wave_layers@.len() implies (#[trigger] self.wave_layers@[i]).wf()
                && frames@.len() as int % (self.wave_layers@[i]@.channels as int) == 0 by {
                assert(v0.wave[i] == self.wave_layers@[i]@);
            }
            assert forall|i: int| 0 <= i < self.loudness_layers@.len() implies (#[trigger] self.loudness_layers@[i]).wf()
                && frames@.len() as int % (self.loudness_layers@[i]@.channels as int) == 0 by {
                assert(v0.loudness[i] == self.loudness_layers@[i]@);
            }
            assert forall|i: int| 0 <= i < self.spectral_layers@.len() implies {
                &&& (#[trigger] self.spectral_layers@[i]).wf()
                &&& frames@.len() as int % (self.spectral_layers@[i]@.channels as int) == 0
                &&& self.spectral_layers@[i]@.next_center + self.spectral_layers@[i]@.div + 1024 <= u64::MAX
                &&& start + self.spectral_layers@[i]@.block_frames(frames@) + self.spectral_layers@[i]@.div + 1024
                    <= u64::MAX
            } by {
                assert(v0.spectral[i] == self.spectral_layers@[i]@);
            }
        }
        let ghost old_wave = self.wave_layers@;
        let ghost old_loud = self.loudness_layers@;
        let ghost old_spec = self.spectral_layers@;
        feed_wave_layers(&mut self.wave_layers, frames.as_slice());
        feed_loudness_layers(&mut self.loudness_layers, frames.as_slice());
        let ws = feed_spectral_layers(&mut self.spectral_layers, frames.as_slice(), start);
        self.total_frames = start + n as u64;
        self.stream = Ghost(v0.stream + frames@);
        proof {
            let v1 = self@;
            let target = v0.fed(data@);
            assert(v1.wave =~= target.wave);
            assert(v1.loudness =~= target.loudness);
            assert(v1.spectral =~= target.spectral);
            assert(v1.stream == target.stream);
            assert(v1.total_frames == target.total_frames);
            assert(v1 == target);
            assert forall|i: int| 0 <= i < ws@.len() implies #[trigger] windows_view(ws@[i]@) == v0.windows_for(data@)[i] by {
                assert(self.spectral_layers@[i]@ == old_spec[i]@.fed(frames@, start as nat));
                assert(old_spec[i]@ == v0.spectral[i]);
            }
            assert(layer_windows_view(ws@) =~= v0.windows_for(data@));
            assert((v0.stream + frames@).len() == (v0.total_frames + n) * ch_n) by (nonlinear_arith)
                requires
                    v0.stream.len() == v0.total_frames * ch_n,
                    frames@.len() == n * ch_n,
            ;
            assert(frames@.len() == n * ch_n) by (nonlinear_arith)
                requires
                    frames@.len() as int % (ch_n as int) == 0,
                    n == frames@.len() / ch_n,
                    ch_n > 0,
            ;
            assert forall|i: int| 0 <= i < v1.spectral.len() implies (#[trigger] v1.spectral[i]).channels
                == v1.channels && v1.spectral[i].consistent(v1.stream) by {
                assert(v0.stream.len() / ch_n == v0.total_frames) by (nonlinear_arith)
                    requires
                        v0.stream.len() == v0.total_frames * ch_n,
                        ch_n > 0,
                ;
                lemma_spectral_feed_consistent(v0.spectral[i], v0.stream, frames@);
            }
            assert forall|i: int| 0 <= i < v1.wave.len() implies (#[trigger] v1.wave[i]).channels == v1.channels by {
                assert(v0.wave[i].channels == v0.channels);
            }
            assert forall|i: int| 0 <= i < v1.loudness.len() implies (#[trigger] v1.loudness[i]).channels == v1.channels by {
                assert(v0.loudness[i].channels == v0.channels);
            }
            lemma_layers_follow(v0, frames@);
            assert forall|i: int| 0 <= i < v1.wave.len() implies #[trigger] v1.wave[i] == wave_state(
                v1.wave[i].div,
                v1.channels,
                v1.stream,
                v1.finished,
            ) by {
                assert(v1.wave[i] == v0.wave[i].fed(frames@));
            }
            assert(v1.consistent());
        }
        Ok(ws)
    }


    /// Appends the codes of the windows returned by `feed` for spectral
    /// layer `layer`, in window order.
    pub fn record_spectral_codes(&mut self, layer: usize, codes: &[i32])
        requires
            old(self).wf(),
            layer < old(self)@.spectral.len(),
        ensures
            final(self).wf(),
            final(self)@ == (StreamerView {
                spectral: old(self)@.spectral.update(
                    layer as int,
                    SpectralView { out: old(self)@.spectral[layer as int].out + codes@, ..old(self)@.spectral[layer as int] },
                ),
                ..old(self)@
            }),
    {
        let ghost v0 = self@;
        self.spectral_layers[layer].record_codes(codes);
        proof {
            let v1 = self@;
            let target = StreamerView {
                spectral: v0.spectral.update(
                    layer as int,
                    SpectralView { out: v0.spectral[layer as int].out + codes@, ..v0.spectral[layer as int] },
                ),
                ..v0
            };
            assert(v1.spectral =~= target.spectral);
            assert(v1 == target);
            assert forall|i: int| 0 <= i < v1.spectral.len() implies (#[trigger] v1.spectral[i]).channels
                == v1.channels && v1.spectral[i].consistent(v1.stream) by {
                assert(v0.spectral[i].channels == v0.channels && v0.spectral[i].consistent(v0.stream));
                lemma_stop_same(v1.spectral[i], v0.spectral[i], v0.stream.len() / v0.channels, 0);
            }
            assert(v1.consistent());
        }
    }

    /// Closes the input: the open wave buckets and the open bucket of the
    /// first loudness layer are emitted; `feed` is refused from now on.
    pub fn close(&mut self)
        requires
            old(self).wf(),
        ensures
            final(self).wf(),
            final(self)@ == old(self)@.closed(),
    {
        let ghost v0 = self@;
        self.finished = true;
        finish_wave_layers(&mut self.wave_layers);
        if self.loudness_layers.len() > 0 {
            self.loudness_layers[0].finish();
        }
        proof {
            let v1 = self@;
            let target = v0.closed();
            assert(v1.wave =~= target.wave);
            assert(v1.loudness =~= target.loudness);
            assert(v1.spectral =~= target.spectral);
            assert(v1 == target);
            assert forall|i: int| 0 <= i < v1.wave.len() implies (#[trigger] v1.wave[i]).channels == v1.channels by {
                assert(v0.wave[i].channels == v0.channels);
            }
            assert forall|i: int| 0 <= i < v1.loudness.len() implies (#[trigger] v1.loudness[i]).channels == v1.channels by {
                assert(v0.loudness[i].channels == v0.channels);
            }
            assert forall|i: int| 0 <= i < v1.spectral.len() implies (#[trigger] v1.spectral[i]).channels
                == v1.channels && v1.spectral[i].consistent(v1.stream) by {
                assert(v0.spectral[i].channels == v0.channels && v0.spectral[i].consistent(v0.stream));
            }
            assert(v1.consistent());
        }
    }


    /// Builds the output file of a streamer whose input is closed.
    fn assemble_output(&self, src_timestamp: i32, src_filesize: i32, loudness_payloads: &[Vec<u8>]) -> (out: Vec<u8>)
        requires
            self.wf(),
            loudness_payloads@.len() == self@.loudness.len(),
            self@.finish_fits(),
        ensures
            out@ == self@.output(src_timestamp, src_filesize, payloads_view(loudness_payloads@)),
    {
        let ghost v = self@;
        let ghost pv = payloads_view(loudness_payloads@);
        let ch = self.channels;
        let total = self.total_frames;
        // Loudness: first layer padded to ceil(total / div1) + 1 peaks, second truncated to floor(total / div2).
        let mut loud_headers: Vec<MipmapHeader> = Vec::new();
        let mut loud_data: Vec<Vec<u8>> = Vec::new();
        if self.loudness_layers.len() > 0 {
            let div1 = self.loudness_layers[0].div() as u64;
            let div2 = self.loudness_layers[1].div() as u64;
            assert(v.loudness[0] == self.loudness_layers@[0]@);
            assert(v.loudness[1] == self.loudness_layers@[1]@);
            proof {
                self.loudness_layers@[0].lemma_view_bounds();
                self.loudness_layers@[1].lemma_view_bounds();
                assert(v.loudness_npeak1() <= usize::MAX) by (nonlinear_arith)
                    requires
                        v.loudness_npeak1() * v.channels * 4 <= usize::MAX,
                        v.channels >= 1,
                ;
                assert(v.loudness_npeak2() <= usize::MAX) by (nonlinear_arith)
                    requires
                        v.loudness_npeak2() * v.channels * 4 <= usize::MAX,
                        v.channels >= 1,
                ;
            }
            let npeak1: u64 = total / div1 + (if total % div1 > 0 { 1u64 } else { 0u64 }) + 1;
            proof {
                assert(npeak1 == v.loudness_npeak1());
            }
            let limit1 = npeak1 as usize * ch * 4;
            let data1 = pad_to(&loudness_payloads[0], limit1);
            loud_headers.push(crate::format::loudness_header(npeak1 as u32));
            loud_data.push(data1);
            let npeak2: u64 = total / div2;
            let limit2 = npeak2 as usize * ch * 4;
            let data2 = truncate_to(loudness_payloads[1].clone(), limit2);
            loud_headers.push(crate::format::loudness_header(npeak2 as u32));
            loud_data.push(data2);
            proof {
                let g = v.loudness_group(pv);
                assert(loud_headers@ =~= g.0);
                assert(Seq::new(loud_data@.len(), |j: int| loud_data@[j]@) =~= g.1);
            }
        }
        // Spectral: every layer trimmed to c_total / div peaks.
        let mut spec_headers: Vec<MipmapHeader> = Vec::new();
        let mut spec_data: Vec<Vec<u8>> = Vec::new();
        let ns = self.spectral_layers.len();
        if ns > 0 {
            assert(v.spectral[0] == self.spectral_layers@[0]@);
            let fine_div: i64 = self.spectral_layers[0].div() as i64;
            let fine_npeak: i64 = if self.wave_layers.len() > 0 {
                assert(v.wave[0] == self.wave_layers@[0]@);
                self.wave_layers[0].peak_count() as i64
            } else {
                let d = self.spectral_layers[0].div() as u64;
                (total / d + (if total % d > 0 { 1u64 } else { 0u64 })) as i64
            };
            assert(fine_npeak == v.fine_npeak());
            let c_total: i64 = fine_div * fine_npeak - 1280;
            assert(c_total == v.c_total());
            let mut i: usize = 0;
            while i < ns
                invariant
                    self.wf(),
                    v == self@,
                    ns == self.spectral_layers@.len(),
                    ns == v.spectral.len(),
                    ch == v.channels,
                    c_total == v.c_total(),
                    v.finish_fits(),
                    i <= ns,
                    spec_headers@ =~= v.spectral_group().0.take(i as int),
                    Seq::new(spec_data@.len(), |j: int| spec_data@[j]@) =~= v.spectral_group().1.take(i as int),
                decreases ns - i,
            {
                assert(v.spectral[i as int] == self.spectral_layers@[i as int]@);
                proof {
                    self.spectral_layers@[i as int].lemma_view_bounds();
                }
                let div = self.spectral_layers[i].div() as i64;
                let q: i64 = if c_total <= 0 {
                    0
                } else {
                    c_total / div
                };
                let npeak = q as u32;
                assert(npeak == v.spectral_npeak(i as int));
                let limit = npeak as usize * ch * 4;
                let data = truncate_to(self.spectral_layers[i].bytes(), limit);
                let ghost old_data = spec_data@;
                spec_headers.push(crate::format::spectral_header(npeak));
                spec_data.push(data);
                proof {
                    let g = v.spectral_group();
                    assert(g.0.take(i + 1) =~= g.0.take(i as int).push(g.0[i as int]));
                    assert(g.1.take(i + 1) =~= g.1.take(i as int).push(g.1[i as int]));
                    assert(Seq::new(spec_data@.len(), |j: int| spec_data@[j]@) =~= Seq::new(old_data.len(), |j: int| old_data[j]@).push(data@));
                }
                i += 1;
            }
            assert(v.spectral_group().0.take(ns as int) =~= v.spectral_group().0);
            assert(v.spectral_group().1.take(ns as int) =~= v.spectral_group().1);
        }
        // Wave: every layer with its peak count.
        let mut wave_headers: Vec<MipmapHeader> = Vec::new();
        let mut wave_data: Vec<Vec<u8>> = Vec::new();
        let nw = self.wave_layers.len();
        let mut i: usize = 0;
        while i < nw
            invariant
                self.wf(),
                v == self@,
                nw == self.wave_layers@.len(),
                nw == v.wave.len(),
                ch == v.channels,
                i <= nw,
                wave_headers@ =~= v.wave_group().0.take(i as int),
                Seq::new(wave_data@.len(), |j: int| wave_data@[j]@) =~= v.wave_group().1.take(i as int),
            decreases nw - i,
        {
            assert(v.wave[i as int] == self.wave_layers@[i as int]@);
            let layer = &self.wave_layers[i];
            let div = layer.div();
            let np = layer.peak_count();
            let ghost old_data = wave_data@;
            let data = layer.bytes();
            wave_headers.push(crate::format::wave_header(div, np as u32));
            wave_data.push(data);
            proof {
                let g = v.wave_group();
                assert(g.0.take(i + 1) =~= g.0.take(i as int).push(g.0[i as int]));
                assert(g.1.take(i + 1) =~= g.1.take(i as int).push(g.1[i as int]));
                assert(Seq::new(wave_data@.len(), |j: int| wave_data@[j]@) =~= Seq::new(old_data.len(), |j: int| old_data[j]@).push(data@));
            }
            i += 1;
        }
        assert(v.wave_group().0.take(nw as int) =~= v.wave_group().0);
        assert(v.wave_group().1.take(nw as int) =~= v.wave_group().1);
        // Groups in payload order: wave, spectral, loudness.
        let has_spec = spec_headers.len() > 0;
        let has_loud = loud_headers.len() > 0;
        let ghost sg = v.spectral_group();
        let ghost lg = v.loudness_group(pv);
        let ghost wg = v.wave_group();
        let mut layers: Vec<LayerData> = Vec::new();
        layers.push(LayerData { headers: wave_headers, data: wave_data });
        assert(groups_view(layers@) =~= seq![wg]);
        if has_spec {
            let ghost before = layers@;
            layers.push(LayerData { headers: spec_headers, data: spec_data });
            assert(groups_view(layers@) =~= groups_view(before).push(sg));
        }
        if has_loud {
            let ghost before = layers@;
            layers.push(LayerData { headers: loud_headers, data: loud_data });
            assert(groups_view(layers@) =~= groups_view(before).push(lg));
        }
        proof {
            let og = v.output_groups(pv);
            assert(has_spec == (v.spectral.len() > 0));
            assert(has_loud == (v.loudness.len() > 0));
            assert(groups_view(layers@) =~= og);
            let s1: Seq<GroupView> = if v.spectral.len() > 0 { seq![sg] } else { Seq::empty() };
            let s2: Seq<GroupView> = if v.loudness.len() > 0 { seq![lg] } else { Seq::empty() };
            crate::format::lemma_mipmap_count_concat(seq![wg], s1);
            crate::format::lemma_mipmap_count_concat(seq![wg] + s1, s2);
            crate::format::lemma_mipmap_count_one(wg);
            crate::format::lemma_mipmap_count_one(sg);
            crate::format::lemma_mipmap_count_one(lg);
            assert(mipmap_count(Seq::<GroupView>::empty()) == 0);
            assert(mipmap_count(og) <= 255);
        }
        crate::format::assemble(ch as u8, self.sample_rate, src_timestamp, src_filesize, layers.as_slice())
    }

    /// Closes the input (see `close`) and assembles the complete file.
    /// `src_timestamp` and `src_filesize` go to the global header.
    /// `loudness_payloads[i]` is the payload of loudness layer `i`: the `f32`
    /// little-endian RMS values of its records after `close`. The first
    /// payload is padded with zeros or truncated to `ceil(total / div1) + 1`
    /// peaks, the second truncated to `floor(total / div2)` peaks. Calling it
    /// again gives the same bytes.
    pub fn finish(&mut self, src_timestamp: i32, src_filesize: i32, loudness_payloads: &[Vec<u8>]) -> (out: Vec<u8>)
        requires
            old(self).wf(),
            loudness_payloads@.len() == old(self)@.loudness.len(),
            old(self)@.closed().finish_fits(),
        ensures
            final(self).wf(),
            final(self)@ == old(self)@.closed(),
            out@ == old(self)@.closed().output(src_timestamp, src_filesize, payloads_view(loudness_payloads@)),
    {
        self.close();
        self.assemble_output(src_timestamp, src_filesize, loudness_payloads)
    }

    /// Number of spectral layers.
    pub fn spectral_layer_count(&self) -> (n: usize)
        ensures
            n == self@.spectral.len(),
    {
        self.spectral_layers.len()
    }

    /// Number of loudness layers (0 or 2).
    pub fn loudness_layer_count(&self) -> (n: usize)
        ensures
            n == self@.loudness.len(),
    {
        self.loudness_layers.len()
    }

    /// The exact records of loudness layer `layer` (`channels` per peak).
    pub fn loudness_records(&self, layer: usize) -> (r: &Vec<SquareSum>)
        requires
            layer < self@.loudness.len(),
        ensures
            r@ == self@.loudness[layer as int].out,
    {
        self.loudness_layers[layer].records()
    }

    /// Whether the input is closed (`feed` is then refused).
    pub fn is_finished(&self) -> (r: bool)
        ensures
            r == self@.finished,
    {
        self.finished
    }

    /// Sample rate.
    pub fn sample_rate(&self) -> (r: u32)
        ensures
            r == self@.sample_rate,
    {
        self.sample_rate
    }

    /// Channel count.
    pub fn channels(&self) -> (r: usize)
        ensures
            r == self@.channels,
    {
        self.channels
    }

    /// Frames consumed so far.
    pub fn total_frames(&self) -> (r: u64)
        ensures
            r == self@.total_frames,
    {
        self.total_frames
    }
}

proof fn lemma_decode_concat(x: Seq<u8>, y: Seq<u8>)
    requires
        x.len() as int % 2 == 0,
    ensures
        decode_s16le(x + y) == decode_s16le(x) + decode_s16le(y),
{
    assert((x + y).len() / 2 == x.len() / 2 + y.len() / 2);
    let d = decode_s16le(x + y);
    let e = decode_s16le(x) + decode_s16le(y);
    assert forall|i: int| 0 <= i < d.len() implies #[trigger] d[i] == e[i] by {
        if i < x.len() / 2 {
            assert(2 * i + 1 < x.len());
        } else {
            let j = i - x.len() / 2;
            assert(2 * i == x.len() + 2 * j);
        }
    }
    assert(d =~= e);
}

proof fn lemma_whole_frame_bytes_add(n1: nat, m: nat, fb: nat)
    requires
        fb > 0,
        n1 as int % (fb as int) == 0,
    ensures
        (n1 + m) / fb * fb == n1 + m / fb * fb,
{
    vstd::arithmetic::div_mod::lemma_fundamental_div_mod(n1 as int, fb as int);
    vstd::arithmetic::div_mod::lemma_fundamental_div_mod(m as int, fb as int);
    let q1 = n1 as int / fb as int;
    let qm = m as int / fb as int;
    let rm = m as int % fb as int;
    assert(n1 + m == fb * (q1 + qm) + rm) by (nonlinear_arith)
        requires
            n1 == fb * q1,
            m == fb * qm + rm,
    ;
    vstd::arithmetic::div_mod::lemma_div_multiples_vanish_fancy(q1 + qm, rm, fb as int);
    assert((q1 + qm) * fb == n1 + qm * fb) by (nonlinear_arith)
        requires
            n1 == fb * q1,
    ;
}

/// Splitting the input bytes anywhere yields the same frames and carry.
proof fn lemma_frames_split(v: StreamerView, a: Seq<u8>, b: Seq<u8>)
    requires
        v.channels >= 1,
    ensures
        v.frames_of(a) + (StreamerView { carry: v.carry_after(a), ..v }).frames_of(b) == v.frames_of(a + b),
        (StreamerView { carry: v.carry_after(a), ..v }).carry_after(b) == v.carry_after(a + b),
        v.frames_of(a).len() as int % (v.channels as int) == 0,
{
    let ch = v.channels;
    let fb = 2 * ch;
    let buf1 = v.carry + a;
    let n1 = whole_frame_bytes(buf1.len(), ch);
    let buf2 = buf1.skip(n1 as int) + b;
    let n2 = whole_frame_bytes(buf2.len(), ch);
    let buf = v.carry + (a + b);
    assert(n1 <= buf1.len()) by (nonlinear_arith)
        requires
            n1 == buf1.len() / fb * fb,
            fb > 0,
    ;
    assert(n2 <= buf2.len()) by (nonlinear_arith)
        requires
            n2 == buf2.len() / fb * fb,
            fb > 0,
    ;
    assert(buf =~= buf1.take(n1 as int) + buf2);
    assert(n1 as int % (fb as int) == 0) by (nonlinear_arith)
        requires
            n1 == buf1.len() / fb * fb,
            fb > 0,
    ;
    lemma_whole_frame_bytes_add(n1, buf2.len(), fb);
    assert(whole_frame_bytes(buf.len(), ch) == n1 + n2);
    assert(buf.take((n1 + n2) as int) =~= buf1.take(n1 as int) + buf2.take(n2 as int));
    assert(buf.skip((n1 + n2) as int) =~= buf2.skip(n2 as int));
    let q0 = buf1.len() / fb;
    assert(n1 == 2 * (q0 * ch)) by (nonlinear_arith)
        requires
            n1 == q0 * (2 * ch),
    ;
    assert(n1 as int % 2 == 0);
    lemma_decode_concat(buf1.take(n1 as int), buf2.take(n2 as int));
    assert(a + b == a + b);
    assert(v.carry + a + b == buf);
    let q = buf1.len() / fb;
    assert(v.frames_of(a).len() == q * ch) by (nonlinear_arith)
        requires
            v.frames_of(a).len() == n1 / 2,
            n1 == q * (2 * ch),
    ;
    assert(v.frames_of(a).len() as int % (ch as int) == 0) by (nonlinear_arith)
        requires
            v.frames_of(a).len() == q * ch,
            ch > 0,
    ;
}

/// Feeding frames to layers that follow the stream keeps them following the
/// longer stream.
proof fn lemma_layers_follow(v: StreamerView, frames: Seq<i16>)
    requires
        v.consistent(),
        !v.finished,
    ensures
        forall|i: int|
            0 <= i < v.wave.len() ==> #[trigger] v.wave[i].fed(frames) == wave_state(
                v.wave[i].div,
                v.channels,
                v.stream + frames,
                false,
            ),
        v.loudness.len() == 2 ==> {
            &&& v.loudness[0].fed(frames) == loudness_state(v.loudness[0].div, v.channels, v.stream + frames, false)
            &&& v.loudness[1].fed(frames) == loudness_state(v.loudness[1].div, v.channels, v.stream + frames, false)
        },
{
    assert forall|i: int| 0 <= i < v.wave.len() implies #[trigger] v.wave[i].fed(frames) == wave_state(
        v.wave[i].div,
        v.channels,
        v.stream + frames,
        false,
    ) by {
        lemma_wave_feed_concat(WaveView::initial(v.wave[i].div, v.channels), v.stream, frames);
    }
    if v.loudness.len() == 2 {
        lemma_loudness_feed_concat(LoudnessView::initial(v.loudness[0].div, v.channels), v.stream, frames);
        lemma_loudness_feed_concat(LoudnessView::initial(v.loudness[1].div, v.channels), v.stream, frames);
    }
}

/// Feeding the streamer two chunks in turn leaves it in the same state as
/// feeding it their concatenation, and the spectral windows returned for the
/// two chunks are, layer by layer, the windows returned for the concatenation:
/// the output does not depend on how the input is split into chunks.
pub proof fn lemma_streamer_feed_concat(v: StreamerView, a: Seq<u8>, b: Seq<u8>)
    requires
        v.consistent(),
    ensures
        v.fed(a).consistent(),
        v.fed(a).fed(b) == v.fed(a + b),
        !v.finished ==> forall|i: int|
            0 <= i < v.spectral.len() ==> #[trigger] v.windows_for(a)[i] + v.fed(a).windows_for(b)[i]
                == v.windows_for(a + b)[i],
{
    let ch = v.channels;
    let t = v.total_frames;
    let fa = v.frames_of(a);
    let va = v.fed(a);
    lemma_frames_split(v, a, b);
    assert(v.stream.len() / ch == t) by (nonlinear_arith)
        requires
            v.stream.len() == t * ch,
            ch > 0,
    ;
    if !v.finished {
        let fbb = va.frames_of(b);
        assert(va.carry == v.carry_after(a));
        assert((StreamerView { carry: v.carry_after(a), ..v }).frames_of(b) == fbb);
        assert(fbb.len() as int % (ch as int) == 0) by {
            lemma_frames_split(va, b, Seq::empty());
        }
        lemma_frames_add(fa.len(), fbb.len(), ch);
        vstd::arithmetic::div_mod::lemma_mod_multiples_basic(t as int, ch as int);
        lemma_frames_add(v.stream.len(), fa.len(), ch);
        // consistency after the first chunk
        assert(va.carry.len() < va.frame_bytes()) by {
            let buf1 = v.carry + a;
            let n1 = whole_frame_bytes(buf1.len(), ch);
            assert(n1 <= buf1.len()) by (nonlinear_arith)
                requires
                    n1 == buf1.len() / (2 * ch) * (2 * ch),
                    ch > 0,
            ;
            assert(buf1.len() - n1 < 2 * ch) by (nonlinear_arith)
                requires
                    n1 == buf1.len() / (2 * ch) * (2 * ch),
                    ch > 0,
            ;
        }
        assert(va.stream.len() == va.total_frames * ch) by (nonlinear_arith)
            requires
                va.stream.len() == v.stream.len() + fa.len(),
                v.stream.len() == t * ch,
                fa.len() == (fa.len() / ch) * ch,
                va.total_frames == t + fa.len() / ch,
        ;
        assert forall|i: int| 0 <= i < va.spectral.len() implies (#[trigger] va.spectral[i]).channels
            == va.channels && va.spectral[i].consistent(va.stream) by {
            lemma_spectral_feed_consistent(v.spectral[i], v.stream, fa);
        }
        assert forall|i: int| 0 <= i < va.wave.len() implies (#[trigger] va.wave[i]).channels == va.channels by {
            assert(v.wave[i].channels == ch);
        }
        assert forall|i: int| 0 <= i < va.loudness.len() implies (#[trigger] va.loudness[i]).channels == va.channels by {
            assert(v.loudness[i].channels == ch);
        }
        lemma_layers_follow(v, fa);
        assert forall|i: int| 0 <= i < va.wave.len() implies #[trigger] va.wave[i] == wave_state(
            va.wave[i].div,
            va.channels,
            va.stream,
            va.finished,
        ) by {
            assert(va.wave[i] == v.wave[i].fed(fa));
        }
        assert(va.consistent());
        // state after both chunks
        let vab = va.fed(b);
        let w = v.fed(a + b);
        assert(v.frames_of(a + b) == fa + fbb);
        assert forall|i: int| 0 <= i < v.wave.len() implies #[trigger] vab.wave[i] == w.wave[i] by {
            lemma_wave_feed_concat(v.wave[i], fa, fbb);
        }
        assert forall|i: int| 0 <= i < v.loudness.len() implies #[trigger] vab.loudness[i] == w.loudness[i] by {
            lemma_loudness_feed_concat(v.loudness[i], fa, fbb);
        }
        assert forall|i: int| 0 <= i < v.spectral.len() implies #[trigger] vab.spectral[i] == w.spectral[i] by {
            lemma_spectral_fed_concat(v.spectral[i], fa, fbb, t);
        }
        assert(vab.wave =~= w.wave);
        assert(vab.loudness =~= w.loudness);
        assert(vab.spectral =~= w.spectral);
        assert(vab.stream =~= w.stream);
        assert(vab == w);
        assert forall|i: int| 0 <= i < v.spectral.len() implies #[trigger] v.windows_for(a)[i] + v.fed(a).windows_for(b)[i]
            == v.windows_for(a + b)[i] by {
            lemma_spectral_windows_concat(v.spectral[i], v.stream, fa, fbb);
            assert((v.stream + fa).len() / ch == t + fa.len() / ch);
        }
    }
}

/// Closing twice is closing once, so `finish` may be called again with the
/// same result; once closed, feeding (with or without codes) changes nothing.
pub proof fn lemma_close_idempotent(v: StreamerView)
    ensures
        v.closed().closed() == v.closed(),
        forall|ts: i32, fs: i32, p: Seq<Seq<u8>>|
            #[trigger] v.closed().closed().output(ts, fs, p) == v.closed().output(ts, fs, p),
        forall|d: Seq<u8>| #[trigger] v.closed().fed(d) == v.closed(),
        forall|d: Seq<u8>, code: spec_fn(Seq<i16>) -> i32| #[trigger] v.closed().fed_coded(d, code) == v.closed(),
{
    let c = v.closed();
    assert(c.closed().wave =~= c.wave);
    assert(c.closed().loudness =~= c.loudness);
}

/// Layout of `i16_seq_le`: two bytes per value, in order.
proof fn lemma_i16_seq_le_index(s: Seq<i16>)
    ensures
        i16_seq_le(s).len() == 2 * s.len(),
        forall|i: int|
            0 <= i < s.len() ==> i16_seq_le(s)[2 * i] == (#[trigger] i16_le(s[i]))[0]
                && i16_seq_le(s)[2 * i + 1] == i16_le(s[i])[1],
    decreases s.len(),
{
    if s.len() > 0 {
        let p = s.drop_last();
        lemma_i16_seq_le_index(p);
        assert forall|i: int| 0 <= i < s.len() implies i16_seq_le(s)[2 * i] == (#[trigger] i16_le(s[i]))[0]
            && i16_seq_le(s)[2 * i + 1] == i16_le(s[i])[1] by {
            if i < p.len() {
                assert(s[i] == p[i]);
            }
        }
    }
}

/// Reading back the little-endian bytes of a sample gives the sample.
proof fn lemma_i16_le_roundtrip(v: i16)
    ensures
        i16_from_le(i16_le(v)[0], i16_le(v)[1]) == v,
{
}

/// Decoding the little-endian bytes written for a sequence of samples gives
/// the samples back: the s16le input and the wave payload use one encoding.
pub proof fn lemma_s16le_roundtrip(s: Seq<i16>)
    ensures
        decode_s16le(i16_seq_le(s)) == s,
{
    lemma_i16_seq_le_index(s);
    let d = decode_s16le(i16_seq_le(s));
    assert forall|i: int| 0 <= i < s.len() implies d[i] == s[i] by {
        lemma_i16_le_roundtrip(s[i]);
        assert(i16_le(s[i])[0] == i16_seq_le(s)[2 * i]);
    }
    assert(d =~= s);
}

/// The stream of a consistent streamer holds whole frames, `total_frames` of them.
proof fn lemma_stream_frames(v: StreamerView)
    requires
        v.consistent(),
    ensures
        v.stream.len() % v.channels == 0,
        v.stream.len() / v.channels == v.total_frames,
{
    let ch = v.channels;
    assert(v.stream.len() % ch == 0 && v.stream.len() / ch == v.total_frames) by (nonlinear_arith)
        requires
            v.stream.len() == v.total_frames * ch,
            ch >= 1,
    ;
}

/// Once the input is closed, every wave level holds `ceil(total / div)`
/// peaks; so the spectral trim counts the same peaks whether or not wave
/// levels are generated.
pub proof fn lemma_closed_wave_peaks(v: StreamerView)
    requires
        v.consistent(),
        v.finished,
    ensures
        forall|i: int|
            0 <= i < v.wave.len() ==> #[trigger] v.wave_npeak(i) == ceil_div(v.total_frames, v.wave[i].div),
        v.spectral.len() > 0 ==> v.fine_npeak() == ceil_div(v.total_frames, v.spectral[0].div),
{
    let ch = v.channels;
    lemma_stream_frames(v);
    assert forall|i: int| 0 <= i < v.wave.len() implies #[trigger] v.wave_npeak(i) == ceil_div(
        v.total_frames,
        v.wave[i].div,
    ) by {
        let d = v.wave[i].div;
        lemma_wave_peak_count(d, ch, v.stream);
        let c = ceil_div(v.total_frames, d);
        assert(v.wave[i].out.len() == 2 * ch * c);
        assert((2 * ch * c) / (2 * ch) == c) by (nonlinear_arith)
            requires
                ch >= 1,
        ;
    }
    if v.spectral.len() > 0 && v.wave.len() > 0 {
        assert(v.wave[0].div == v.spectral[0].div);
    }
}

/// Once the input is closed, the first loudness layer holds `ceil(total / div1)`
/// peaks and the second `floor(total / div2)`: padding the first to
/// `ceil(total / div1) + 1` peaks appends exactly one peak, and truncating the
/// second to `floor(total / div2)` peaks removes none.
pub proof fn lemma_closed_loudness_peaks(v: StreamerView)
    requires
        v.consistent(),
        v.finished,
        v.loudness.len() > 0,
    ensures
        v.loudness[0].out.len() == v.channels * (v.loudness_npeak1() - 1),
        v.loudness[1].out.len() == v.channels * v.loudness_npeak2(),
{
    lemma_stream_frames(v);
    assert(v.loudness[0].channels == v.channels && v.loudness[0].div >= 1);
    assert(v.loudness[1].channels == v.channels && v.loudness[1].div >= 1);
    lemma_loudness_peak_count(v.loudness[0].div, v.channels, v.stream);
    lemma_loudness_peak_count(v.loudness[1].div, v.channels, v.stream);
}

/// Chunk-splitting invariance with the spectral codes: for any analysis
/// `code` of the windows, feeding two chunks in turn (recording the codes of
/// the windows each releases) reaches the same state as feeding their
/// concatenation, so the file produced does not depend on the chunking.
pub proof fn lemma_streamer_coded_concat(v: StreamerView, a: Seq<u8>, b: Seq<u8>, code: spec_fn(Seq<i16>) -> i32)
    requires
        v.consistent(),
    ensures
        v.fed_coded(a, code).consistent(),
        v.fed_coded(a, code).fed_coded(b, code) == v.fed_coded(a + b, code),
{
    lemma_streamer_feed_concat(v, a, b);
    if !v.finished {
        let va = v.fed(a);
        let wa = v.windows_for(a);
        let vc = v.fed_coded(a, code);
        let fb = va.frames_of(b);
        let t = va.total_frames;
        lemma_stream_frames(va);
        lemma_frames_split(va, b, Seq::empty());
        assert(vc.frames_of(b) == fb);
        assert(vc.windows_for(b) =~= va.windows_for(b)) by {
            assert forall|i: int| 0 <= i < va.spectral.len() implies #[trigger] vc.windows_for(b)[i] == va.windows_for(b)[i] by {
                lemma_spectral_codes_inert(va.spectral[i], vc.spectral[i].out, va.stream, fb);
                assert(vc.spectral[i] == SpectralView { out: vc.spectral[i].out, ..va.spectral[i] });
            }
        }
        assert forall|i: int| 0 <= i < va.spectral.len() implies #[trigger] vc.fed(b).spectral[i] == (SpectralView {
            out: vc.spectral[i].out,
            ..va.fed(b).spectral[i]
        }) by {
            lemma_spectral_codes_inert(va.spectral[i], vc.spectral[i].out, va.stream, fb);
            assert(vc.spectral[i] == SpectralView { out: vc.spectral[i].out, ..va.spectral[i] });
        }
        let lhs = vc.fed_coded(b, code);
        let rhs = v.fed_coded(a + b, code);
        assert forall|i: int| 0 <= i < v.spectral.len() implies #[trigger] lhs.spectral[i] == rhs.spectral[i] by {
            let wb = va.windows_for(b)[i];
            assert(wa[i] + wb == v.windows_for(a + b)[i]);
            assert((wa[i] + wb).map_values(code) =~= wa[i].map_values(code) + wb.map_values(code));
            assert(va.spectral[i].out == v.spectral[i].out);
            assert(va.fed(b).spectral[i].out == va.spectral[i].out);
            assert(v.spectral[i].out + wa[i].map_values(code) + wb.map_values(code) == v.spectral[i].out
                + (wa[i].map_values(code) + wb.map_values(code)));
        }
        assert(lhs.spectral =~= rhs.spectral);
        assert(lhs.wave == rhs.wave);
        assert(lhs.loudness == rhs.loudness);
        // consistency after the first chunk with its codes
        assert forall|i: int| 0 <= i < vc.spectral.len() implies (#[trigger] vc.spectral[i]).channels == vc.channels
            && vc.spectral[i].consistent(vc.stream) by {
            assert(va.spectral[i].consistent(va.stream));
            lemma_stop_same(vc.spectral[i], va.spectral[i], va.stream.len() / va.channels, 0);
        }
        assert(vc.consistent());
    }
}

/// Feeding nothing changes nothing.
proof fn lemma_fed_nothing(v: StreamerView, code: spec_fn(Seq<i16>) -> i32)
    requires
        v.consistent(),
    ensures
        v.fed(Seq::empty()) == v,
        v.fed_coded(Seq::empty(), code) == v,
{
    if !v.finished {
        let ch = v.channels;
        let e = Seq::<u8>::empty();
        assert(v.carry + e == v.carry);
        let (cl, fb) = (v.carry.len() as int, 2 * ch as int);
        assert(cl / fb == 0) by (nonlinear_arith)
            requires
                0 <= cl < fb,
        ;
        assert(whole_frame_bytes(v.carry.len(), ch) == 0);
        assert(v.carry.take(0) == Seq::<u8>::empty());
        let fr = v.frames_of(e);
        assert(fr =~= Seq::<i16>::empty());
        assert(v.carry_after(e) =~= v.carry);
        let w = v.fed(e);
        assert forall|i: int| 0 <= i < v.wave.len() implies #[trigger] w.wave[i] == v.wave[i] by {
            let wv = v.wave[i];
            let k = wv.bucket_len();
            assert(k > 0) by (nonlinear_arith)
                requires
                    k == wv.div * wv.channels,
                    wv.div >= 1,
                    wv.channels >= 1,
            ;
            lemma_open_tail_short(v.stream, k);
            lemma_short(wv.open, k, wave_summary(wv.channels));
            assert(wv.open + fr =~= wv.open);
            assert(wv.out + Seq::<i16>::empty() =~= wv.out);
        }
        assert forall|i: int| 0 <= i < v.loudness.len() implies #[trigger] w.loudness[i] == v.loudness[i] by {
            let lv = v.loudness[i];
            let k = lv.bucket_len();
            assert(k > 0) by (nonlinear_arith)
                requires
                    k == lv.div * lv.channels,
                    lv.div >= 1,
                    lv.channels >= 1,
            ;
            lemma_open_tail_short(v.stream, k);
            lemma_short(lv.open, k, loud_summary(lv.channels));
            assert(lv.open + fr =~= lv.open);
            assert(lv.out + Seq::<SquareSum>::empty() =~= lv.out);
        }
        assert forall|i: int| 0 <= i < v.spectral.len() implies #[trigger] w.spectral[i] == v.spectral[i] by {
            assert(v.spectral[i].block_frames(fr) == 0);
        }
        assert(w.wave =~= v.wave);
        assert(w.loudness =~= v.loudness);
        assert(w.spectral =~= v.spectral);
        assert(w.stream =~= v.stream);
        let wc = v.fed_coded(e, code);
        assert forall|i: int| 0 <= i < v.spectral.len() implies #[trigger] wc.spectral[i] == v.spectral[i] by {
            assert(v.spectral[i].block_frames(fr) == 0);
            assert(v.windows_for(e)[i] =~= Seq::<Seq<i16>>::empty());
            assert(v.spectral[i].out + v.windows_for(e)[i].map_values(code) =~= v.spectral[i].out);
        }
        assert(wc.spectral =~= v.spectral);
    }
}

/// Feeding any number of chunks in turn reaches the state of feeding their
/// concatenation at once.
pub proof fn lemma_streamer_fed_all(v: StreamerView, chunks: Seq<Seq<u8>>)
    requires
        v.consistent(),
    ensures
        v.fed_all(chunks).consistent(),
        v.fed_all(chunks) == v.fed(chunks.flatten()),
    decreases chunks.len(),
{
    chunks.lemma_flatten_and_flatten_alt_are_equivalent();
    if chunks.len() == 0 {
        lemma_fed_nothing(v, |w: Seq<i16>| 0i32);
    } else {
        let init = chunks.drop_last();
        lemma_streamer_fed_all(v, init);
        init.lemma_flatten_and_flatten_alt_are_equivalent();
        lemma_streamer_feed_concat(v, init.flatten(), chunks.last());
        lemma_streamer_feed_concat(v.fed(init.flatten()), chunks.last(), Seq::empty());
    }
}

/// Feeding any number of chunks in turn, recording the codes of the windows
/// each releases, reaches the state of feeding their concatenation at once:
/// the file does not depend on the chunking.
pub proof fn lemma_streamer_coded_all(v: StreamerView, chunks: Seq<Seq<u8>>, code: spec_fn(Seq<i16>) -> i32)
    requires
        v.consistent(),
    ensures
        v.fed_coded_all(chunks, code).consistent(),
        v.fed_coded_all(chunks, code) == v.fed_coded(chunks.flatten(), code),
    decreases chunks.len(),
{
    chunks.lemma_flatten_and_flatten_alt_are_equivalent();
    if chunks.len() == 0 {
        lemma_fed_nothing(v, code);
    } else {
        let init = chunks.drop_last();
        lemma_streamer_coded_all(v, init, code);
        init.lemma_flatten_and_flatten_alt_are_equivalent();
        lemma_streamer_coded_concat(v, init.flatten(), chunks.last(), code);
        lemma_streamer_coded_concat(v.fed_coded(init.flatten(), code), chunks.last(), Seq::empty(), code);
    }
}

/// A consistent streamer that has consumed nothing and holds no code is coded.
pub proof fn lemma_streamer_coded_start(v: StreamerView, code: spec_fn(Seq<i16>) -> i32)
    requires
        v.consistent(),
        v.stream.len() == 0,
        forall|i: int| 0 <= i < v.spectral.len() ==> (#[trigger] v.spectral[i]).out.len() == 0,
    ensures
        v.coded(code),
{
    assert forall|i: int| 0 <= i < v.spectral.len() implies #[trigger] v.spectral[i].coded(v.stream, code) by {
        let sv = v.spectral[i];
        assert(v.stream.len() / sv.channels == 0);
        assert(sv.out =~= sv.stream_windows_from(v.stream, 0, 0).map_values(code));
    }
}

/// Feeding a coded streamer a chunk, recording the codes of the released
/// windows, keeps it coded.
pub proof fn lemma_streamer_coded_step(v: StreamerView, d: Seq<u8>, code: spec_fn(Seq<i16>) -> i32)
    requires
        v.coded(code),
    ensures
        v.fed_coded(d, code).coded(code),
{
    lemma_streamer_coded_concat(v, d, Seq::empty(), code);
    if !v.finished {
        let w = v.fed_coded(d, code);
        let fr = v.frames_of(d);
        lemma_frames_split(v, d, Seq::empty());
        lemma_stream_frames(v);
        assert forall|i: int| 0 <= i < w.spectral.len() implies #[trigger] w.spectral[i].coded(w.stream, code) by {
            assert(v.spectral[i].coded(v.stream, code));
            assert(v.spectral[i].channels == v.channels);
            lemma_spectral_coded_step(v.spectral[i], v.stream, fr, code);
        }
    }
}

/// Closing keeps a streamer coded.
pub proof fn lemma_streamer_coded_close(v: StreamerView, code: spec_fn(Seq<i16>) -> i32)
    requires
        v.coded(code),
    ensures
        v.closed().coded(code),
{
    let c = v.closed();
    assert forall|i: int| 0 <= i < c.spectral.len() implies #[trigger] c.spectral[i].coded(c.stream, code) by {
        assert(v.spectral[i].coded(v.stream, code));
    }
    assert forall|i: int| 0 <= i < c.spectral.len() implies (#[trigger] c.spectral[i]).channels == c.channels
        && c.spectral[i].consistent(c.stream) by {
        assert(v.spectral[i].channels == v.channels);
    }
    assert(c.consistent());
}

/// Frames counted after chunks of `N` bytes in all (from no carried byte):
/// `N / (2 * channels)`; the bytes of a trailing incomplete frame are carried.
pub proof fn lemma_total_frames(v: StreamerView, chunks: Seq<Seq<u8>>)
    requires
        v.consistent(),
        !v.finished,
        v.carry.len() == 0,
    ensures
        v.fed_all(chunks).total_frames == v.total_frames + chunks.flatten().len() / (2 * v.channels),
        v.fed_all(chunks).carry == chunks.flatten().skip(
            whole_frame_bytes(chunks.flatten().len(), v.channels) as int,
        ),
{
    lemma_streamer_fed_all(v, chunks);
    let d = chunks.flatten();
    let ch = v.channels;
    assert(v.carry + d =~= d);
    let n = d.len() as int;
    let fb = 2 * ch as int;
    let q = n / fb;
    let wb = whole_frame_bytes(d.len(), ch);
    assert(wb == q * fb);
    assert(0 <= q * fb <= n) by (nonlinear_arith)
        requires
            q == n / fb,
            fb > 0,
            n >= 0,
    ;
    let fr = v.frames_of(d);
    assert(fr.len() == wb / 2);
    assert(fr.len() == q * ch) by (nonlinear_arith)
        requires
            fr.len() == wb / 2,
            wb == q * fb,
            fb == 2 * ch,
    ;
    assert(fr.len() / ch == q) by (nonlinear_arith)
        requires
            fr.len() == q * ch,
            ch >= 1,
    ;
}

/// `ceil(t / d) <= t` and `d * ceil(t / d) < t + d`.
proof fn lemma_ceil_bounds(t: nat, d: nat)
    requires
        d >= 1,
    ensures
        ceil_div(t, d) <= t,
        d * ceil_div(t, d) < t + d,
{
    let (ti, di) = (t as int, d as int);
    vstd::arithmetic::div_mod::lemma_fundamental_div_mod(ti, di);
    let (q, r) = (ti / di, ti % di);
    assert(q * di + r == ti && 0 <= r < di);
    assert(q <= ti) by (nonlinear_arith)
        requires
            q * di + r == ti,
            0 <= r,
            di >= 1,
            q >= 0,
    ;
    if r > 0 {
        assert(q + 1 <= ti) by (nonlinear_arith)
            requires
                q * di + r == ti,
                0 < r,
                di >= 1,
                q >= 0,
        ;
        assert(di * (q + 1) < ti + di) by (nonlinear_arith)
            requires
                q * di + r == ti,
                0 < r,
        ;
    } else {
        assert(di * q < ti + di) by (nonlinear_arith)
            requires
                q * di + r == ti,
                r == 0,
                di >= 1,
        ;
    }
}

/// With the finest level first (`d0 <= d`), the spectral trim keeps no more
/// peaks than the centres a stream of `t` frames has reached.
proof fn lemma_trim_within(t: nat, d0: nat, d: nat)
    requires
        1 <= d0 <= d,
    ensures
        ({
            let c = d0 * ceil_div(t, d0) - 1280;
            (if c <= 0 { 0 } else { c / (d as int) }) <= reached(t, 0, d)
        }),
        reached(t, 0, d) <= t,
{
    lemma_ceil_bounds(t, d0);
    let c: int = d0 * ceil_div(t, d0) - 1280;
    let di = d as int;
    if t >= 1024 {
        let a = (t - 1024) as int;
        let q = a / di;
        vstd::arithmetic::div_mod::lemma_fundamental_div_mod(a, di);
        assert(q <= a) by (nonlinear_arith)
            requires
                q == a / di,
                a >= 0,
                di >= 1,
        ;
        if c > 0 {
            assert(c < (q + 2) * di) by (nonlinear_arith)
                requires
                    c < t + d0 - 1280,
                    d0 <= di,
                    a == t - 1024,
                    a == di * q + a % di,
                    a % di < di,
            ;
            assert(c / di <= q + 1) by (nonlinear_arith)
                requires
                    0 < c < (q + 2) * di,
                    di >= 1,
            ;
        }
    } else if c > 0 {
        assert(c / di == 0) by (nonlinear_arith)
            requires
                0 < c < di,
        ;
    }
}

/// Well-formedness of the output of a closed coded streamer: every payload
/// holds `4 * channels` bytes per peak of its header, so no payload is shorter
/// or longer than its header says. This needs the finest level first (the
/// spectral layers are trimmed by the finest division factor), header peak
/// counts that fit their `u32` (fewer than `u32::MAX` frames) and loudness
/// payloads of four bytes per record.
pub proof fn lemma_output_well_formed(v: StreamerView, code: spec_fn(Seq<i16>) -> i32, payloads: Seq<Seq<u8>>)
    requires
        v.coded(code),
        v.finished,
        v.total_frames < u32::MAX,
        forall|i: int| 0 <= i < v.spectral.len() ==> v.spectral[0].div <= #[trigger] v.spectral[i].div,
        v.loudness.len() > 0 ==> {
            &&& payloads.len() == 2
            &&& payloads[0].len() == 4 * v.loudness[0].out.len()
            &&& payloads[1].len() == 4 * v.loudness[1].out.len()
        },
    ensures
        payloads_match(v.output_groups(payloads), v.channels),
        forall|ts: i32, fs: i32|
            #![trigger v.output(ts, fs, payloads)]
            v.output(ts, fs, payloads).len() == 18 + 8 * mipmap_count(v.output_groups(payloads)) + 4 * v.channels
                * peak_total(v.output_groups(payloads)),
{
    let ch = v.channels;
    let t = v.total_frames;
    lemma_stream_frames(v);
    lemma_closed_wave_peaks(v);
    // wave
    let wg = v.wave_group();
    assert forall|j: int| 0 <= j < wg.0.len() implies (#[trigger] wg.1[j]).len() == 4 * ch * wg.0[j].peak_count by {
        let d = v.wave[j].div;
        lemma_wave_peak_count(d, ch, v.stream);
        lemma_i16_seq_le_len(v.wave[j].out);
        lemma_ceil_bounds(t, d);
        let c = ceil_div(t, d);
        assert(v.wave[j].out.len() == 2 * ch * c);
        assert(2 * (2 * ch * c) == 4 * ch * c) by (nonlinear_arith);
    }
    assert(group_matches(wg, ch));
    // spectral
    if v.spectral.len() > 0 {
        let sg = v.spectral_group();
        assert forall|j: int| 0 <= j < sg.0.len() implies (#[trigger] sg.1[j]).len() == 4 * ch * sg.0[j].peak_count by {
            let sv = v.spectral[j];
            let d0 = v.spectral[0].div;
            assert(v.spectral[0].div >= 1 && sv.div >= 1 && sv.channels == ch);
            assert(sv.coded(v.stream, code));
            lemma_spectral_coded_shape(sv, v.stream, code);
            lemma_i32_seq_le_len(sv.out);
            lemma_trim_within(t, d0, sv.div);
            let r = reached(t, 0, sv.div);
            let n = v.spectral_npeak(j);
            assert(n <= r);
            assert(n as nat * ch * 4 <= 4 * (ch * r)) by (nonlinear_arith)
                requires
                    n <= r,
            ;
            assert(n as nat * ch * 4 == 4 * ch * n) by (nonlinear_arith);
        }
        assert(group_matches(sg, ch));
    }
    // loudness
    if v.loudness.len() > 0 {
        lemma_closed_loudness_peaks(v);
        let lg = v.loudness_group(payloads);
        lemma_ceil_bounds(t, v.loudness[0].div);
        let d2 = v.loudness[1].div;
        assert(d2 >= 1);
        assert(t / d2 <= t) by (nonlinear_arith)
            requires
                d2 >= 1,
        ;
        assert forall|j: int| 0 <= j < lg.0.len() implies (#[trigger] lg.1[j]).len() == 4 * ch * lg.0[j].peak_count by {
            let n1 = v.loudness_npeak1();
            let n2 = v.loudness_npeak2();
            assert(n1 * ch * 4 == 4 * ch * n1 && n2 * ch * 4 == 4 * ch * n2) by (nonlinear_arith);
            assert(4 * (ch * n2) == 4 * ch * n2) by (nonlinear_arith);
        }
        assert(group_matches(lg, ch));
    }
    let gs = v.output_groups(payloads);
    assert forall|g: int| 0 <= g < gs.len() implies group_matches(#[trigger] gs[g], ch) by {
        if g == 0 {
            assert(gs[g] == wg);
        } else if g == 1 && v.spectral.len() > 0 {
            assert(gs[g] == v.spectral_group());
        } else {
            assert(gs[g] == v.loudness_group(payloads));
        }
    }
    assert forall|ts: i32, fs: i32|
        #![trigger v.output(ts, fs, payloads)]
        v.output(ts, fs, payloads).len() == 18 + 8 * mipmap_count(gs) + 4 * ch * peak_total(gs) by {
        lemma_rpkn_len(ch as u8, v.sample_rate, ts, fs, gs, ch);
    }
}

/// Spectral peaks kept at finish for a level of division factor `d` when the
/// finest level has division factor `d0` and the stream `t` frames:
/// `(d0 * ceil(t / d0) - 1280) / d`, none when that is not positive.
pub open spec fn trimmed_peaks(t: nat, d0: nat, d: nat) -> nat {
    let c: int = d0 * ceil_div(t, d0) - 1280;
    if c <= 0 {
        0
    } else {
        (c / (d as int)) as nat
    }
}

/// Order of the mipmaps in the file: the wave levels first (their own
/// division factors), then, when enabled, one spectral mipmap per level
/// (token `-'s'`), then the two loudness mipmaps (token `-'r'`).
pub proof fn lemma_output_order(v: StreamerView, payloads: Seq<Seq<u8>>)
    ensures
        ({
            let gs = v.output_groups(payloads);
            &&& gs.len() == 1 + (if v.spectral.len() > 0 { 1int } else { 0 }) + (if v.loudness.len() > 0 {
                1int
            } else {
                0
            })
            &&& gs[0].0.len() == v.wave.len()
            &&& forall|i: int| 0 <= i < v.wave.len() ==> (#[trigger] gs[0].0[i]).div == v.wave[i].div as u32 as i32
            &&& v.spectral.len() > 0 ==> {
                &&& gs[1].0.len() == v.spectral.len()
                &&& forall|i: int| 0 <= i < v.spectral.len() ==> (#[trigger] gs[1].0[i]).div == -115i32
            }
            &&& v.loudness.len() > 0 ==> {
                &&& gs[gs.len() - 1].0.len() == 2
                &&& gs[gs.len() - 1].0[0].div == -114i32
                &&& gs[gs.len() - 1].0[1].div == -114i32
            }
        }),
{
    let gs = v.output_groups(payloads);
    let s1: Seq<GroupView> = if v.spectral.len() > 0 { seq![v.spectral_group()] } else { Seq::empty() };
    let s2: Seq<GroupView> = if v.loudness.len() > 0 { seq![v.loudness_group(payloads)] } else { Seq::empty() };
    assert(gs == seq![v.wave_group()] + s1 + s2);
    if v.loudness.len() > 0 {
        assert(gs[gs.len() - 1] == v.loudness_group(payloads));
    }
    if v.spectral.len() > 0 {
        assert(gs[1] == v.spectral_group());
    }
}

/// Wave mipmap `i` of the file: division factor `div_i`, `ceil(total / div_i)`
/// peaks, and the payload of that level's own peaks (the max/min of its
/// buckets of `div_i` frames, see `lemma_wave_content`).
pub proof fn lemma_output_wave(v: StreamerView, payloads: Seq<Seq<u8>>)
    requires
        v.consistent(),
        v.finished,
    ensures
        ({
            let g = v.output_groups(payloads)[0];
            &&& g.0.len() == v.wave.len()
            &&& g.1.len() == v.wave.len()
            &&& forall|i: int|
                0 <= i < v.wave.len() ==> {
                    &&& (#[trigger] g.0[i]) == (MipmapHeader {
                        div: v.wave[i].div as u32 as i32,
                        peak_count: ceil_div(v.total_frames, v.wave[i].div) as u32,
                    })
                    &&& g.1[i] == i16_seq_le(WaveView::peaks_of(v.wave[i].div, v.channels, v.stream))
                }
        }),
{
    lemma_output_order(v, payloads);
    lemma_closed_wave_peaks(v);
    let g = v.output_groups(payloads)[0];
    assert(g == v.wave_group());
    assert forall|i: int| 0 <= i < v.wave.len() implies {
        &&& (#[trigger] g.0[i]) == (MipmapHeader {
            div: v.wave[i].div as u32 as i32,
            peak_count: ceil_div(v.total_frames, v.wave[i].div) as u32,
        })
        &&& g.1[i] == i16_seq_le(WaveView::peaks_of(v.wave[i].div, v.channels, v.stream))
    } by {
        assert(v.wave[i].channels == v.channels);
        assert(v.wave[i] == wave_state(v.wave[i].div, v.channels, v.stream, true));
    }
}

/// Spectral mipmap `i` of the file (streamer coded with `code`, finest level
/// first): `trimmed_peaks(total, div_0, div_i)` peaks, all centred on frames
/// the stream has fully reached, and the 4 bytes of peak `k`, channel `c` are
/// the code of the window of channel `c` centred at frame `k * div_i` of the
/// stream: the first codes of that same level, in order.
pub proof fn lemma_output_spectral(v: StreamerView, code: spec_fn(Seq<i16>) -> i32, payloads: Seq<Seq<u8>>)
    requires
        v.coded(code),
        v.finished,
        v.total_frames < u32::MAX,
        forall|i: int| 0 <= i < v.spectral.len() ==> v.spectral[0].div <= #[trigger] v.spectral[i].div,
    ensures
        v.spectral.len() > 0 ==> {
            &&& v.output_groups(payloads)[1].0.len() == v.spectral.len()
            &&& v.output_groups(payloads)[1].1.len() == v.spectral.len()
        },
        forall|i: int|
            0 <= i < v.spectral.len() ==> #[trigger] spectral_level_ok(v, code, payloads, i),
{
    if v.spectral.len() > 0 {
        lemma_output_order(v, payloads);
        assert(v.output_groups(payloads)[1] == v.spectral_group());
    }
    assert forall|i: int| 0 <= i < v.spectral.len() implies #[trigger] spectral_level_ok(v, code, payloads, i) by {
        lemma_output_spectral_level(v, code, payloads, i);
    }
}

/// What spectral mipmap `i` of the file holds: header `-'s'` with
/// `trimmed_peaks(total, div_0, div_i)` peaks, all centred on frames the
/// stream has fully reached, and for peak `k`, channel `c`, the code of the
/// window of channel `c` centred at frame `k * div_i`.
pub open spec fn spectral_level_ok(v: StreamerView, code: spec_fn(Seq<i16>) -> i32, payloads: Seq<Seq<u8>>, i: int) -> bool {
    let g = v.output_groups(payloads)[1];
    let t = v.total_frames;
    let ch = v.channels;
    let d = v.spectral[i].div;
    let n = trimmed_peaks(t, v.spectral[0].div, d);
    &&& g.0[i] == (MipmapHeader { div: -115i32, peak_count: n as u32 })
    &&& n as u32 == n
    &&& g.1[i].len() == 4 * ch * n
    &&& n > 0 ==> (n - 1) * d + 1024 <= t
    &&& forall|k: int, c: int|
        0 <= k < n && 0 <= c < ch ==> #[trigger] g.1[i].subrange(4 * (k * ch + c), 4 * (k * ch + c) + 4) == i32_le(
            code(v.spectral[i].stream_window(v.stream, (k * d) as nat, c as nat)),
        )
}

proof fn lemma_output_spectral_level(v: StreamerView, code: spec_fn(Seq<i16>) -> i32, payloads: Seq<Seq<u8>>, i: int)
    requires
        v.coded(code),
        v.finished,
        v.total_frames < u32::MAX,
        forall|i: int| 0 <= i < v.spectral.len() ==> v.spectral[0].div <= #[trigger] v.spectral[i].div,
        0 <= i < v.spectral.len(),
    ensures
        spectral_level_ok(v, code, payloads, i),
{
    lemma_output_order(v, payloads);
    lemma_closed_wave_peaks(v);
    lemma_stream_frames(v);
    let g = v.output_groups(payloads)[1];
    let t = v.total_frames;
    let ch = v.channels;
    assert(g == v.spectral_group());
    let sv = v.spectral[i];
    let d0 = v.spectral[0].div;
    let n = trimmed_peaks(t, d0, sv.div);
    assert(d0 >= 1 && sv.div >= 1 && sv.channels == ch);
    assert(d0 <= sv.div);
    assert(sv.coded(v.stream, code));
    lemma_spectral_coded_shape(sv, v.stream, code);
    lemma_i32_seq_le_len(sv.out);
    lemma_trim_within(t, d0, sv.div);
    let r = reached(t, 0, sv.div);
    assert(n <= r);
    assert(v.fine_npeak() == ceil_div(t, d0));
    assert(v.spectral_npeak(i) == n as u32);
    let b = i32_seq_le(sv.out);
    let m = n * ch * 4;
    assert(m <= 4 * (ch * r)) by (nonlinear_arith)
        requires
            n <= r,
            m == n * ch * 4,
    ;
    assert(m == 4 * ch * n) by (nonlinear_arith)
        requires
            m == n * ch * 4,
    ;
    assert(g.1[i] == b.take(m as int));
    if n > 0 {
        lemma_centre_reached(t, sv.div, r, n - 1);
    }
    assert forall|k: int, c: int| 0 <= k < n && 0 <= c < ch implies #[trigger] g.1[i].subrange(
        4 * (k * ch + c),
        4 * (k * ch + c) + 4,
    ) == i32_le(code(sv.stream_window(v.stream, (k * sv.div) as nat, c as nat))) by {
        let j = k * ch + c;
        assert(0 <= j < ch * n) by (nonlinear_arith)
            requires
                0 <= k < n,
                0 <= c < ch,
                j == k * ch + c,
        ;
        assert(j < sv.out.len());
        lemma_i32_seq_le_index(sv.out, j);
        assert(4 * j + 4 <= m) by (nonlinear_arith)
            requires
                0 <= j < ch * n,
                m == 4 * ch * n,
        ;
        assert(b.take(m as int).subrange(4 * j, 4 * j + 4) =~= b.subrange(4 * j, 4 * j + 4));
        assert(4 * (k * ch + c) == 4 * j);
    }
}

/// The two loudness mipmaps of the file: the first carries the payload of the
/// first loudness layer followed by exactly one peak of zeros
/// (`ceil(total / div1) + 1` peaks), the second exactly the payload of the
/// second layer (`floor(total / div2)` peaks), whose record `k * channels + c`
/// is the sum of squares of channel `c` over frames `[k * div2, (k + 1) * div2)`.
pub proof fn lemma_output_loudness(v: StreamerView, payloads: Seq<Seq<u8>>)
    requires
        v.consistent(),
        v.finished,
        v.loudness.len() > 0,
        v.loudness[1].div <= u32::MAX,
        payloads.len() == 2,
        payloads[0].len() == 4 * v.loudness[0].out.len(),
        payloads[1].len() == 4 * v.loudness[1].out.len(),
    ensures
        ({
            let gs = v.output_groups(payloads);
            let g = gs[gs.len() - 1];
            let t = v.total_frames;
            let ch = v.channels;
            let d1 = v.loudness[0].div;
            let d2 = v.loudness[1].div;
            &&& g.0 == seq![
                MipmapHeader { div: -114i32, peak_count: (ceil_div(t, d1) + 1) as u32 },
                MipmapHeader { div: -114i32, peak_count: (t / d2) as u32 },
            ]
            &&& g.1.len() == 2
            &&& g.1[0] == payloads[0] + Seq::new(4 * ch, |i: int| 0u8)
            &&& g.1[1] == payloads[1]
            &&& v.loudness[1].out.len() == ch * (t / d2)
            &&& forall|k: int, c: int|
                0 <= k < t / d2 && 0 <= c < ch ==> {
                    &&& (#[trigger] v.loudness[1].out[k * ch + c]).frames == d2
                    &&& v.loudness[1].out[k * ch + c].sum == sq_sum(
                        v.stream.subrange(k * d2 * ch, (k + 1) * d2 * ch),
                        ch,
                        c as nat,
                        d2,
                    )
                }
        }),
{
    lemma_output_order(v, payloads);
    lemma_closed_loudness_peaks(v);
    lemma_stream_frames(v);
    let gs = v.output_groups(payloads);
    let ch = v.channels;
    let t = v.total_frames;
    assert(gs[gs.len() - 1] == v.loudness_group(payloads));
    let n1 = v.loudness_npeak1();
    let n2 = v.loudness_npeak2();
    let p0 = payloads[0];
    assert(p0.len() == 4 * (ch * (n1 - 1)));
    assert(n1 * ch * 4 == p0.len() + 4 * ch) by (nonlinear_arith)
        requires
            p0.len() == 4 * (ch * (n1 - 1)),
            n1 >= 1,
    ;
    assert(padded(p0, n1 * ch * 4) =~= p0 + Seq::new(4 * ch, |i: int| 0u8));
    assert(n2 * ch * 4 == payloads[1].len()) by (nonlinear_arith)
        requires
            payloads[1].len() == 4 * (ch * n2),
    ;
    assert(truncated(payloads[1], n2 * ch * 4) =~= payloads[1]);
    assert(v.loudness[1] == loudness_state(v.loudness[1].div, ch, v.stream, false));
    assert(v.loudness[1].channels == ch);
    lemma_loudness_content(v.loudness[1].div, ch, v.stream);
}

/// Centre `k * d` of a stream of `t` frames is reached when `k` is below the
/// number of reached centres.
proof fn lemma_centre_reached(t: nat, d: nat, r: nat, k: int)
    requires
        d >= 1,
        r == reached(t, 0, d),
        0 <= k < r,
    ensures
        k * d + 1024 <= t,
{
    assert(t >= 1024);
    let a: int = t - 1024;
    let dd: int = d as int;
    assert(r == a / dd + 1);
    assert(k <= a / dd);
    vstd::arithmetic::div_mod::lemma_fundamental_div_mod(a, dd);
    vstd::arithmetic::mul::lemma_mul_inequality(k, a / dd, dd);
    assert(dd * (a / dd) == (a / dd) * dd) by (nonlinear_arith);
    assert(k * dd <= a);
}

} // verus!
