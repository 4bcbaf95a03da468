//! Wave mipmap: per bucket of `div` frames, the maximum and minimum sample
//! of every channel.
//!
//! Payload layout (RPKN v1.1): per peak and channel `[max: i16, min: i16]`,
//! channels interleaved: `L0MAX L0MIN R0MAX R0MIN L1MAX L1MIN ...`.
//! A trailing bucket shorter than `div` still yields its max/min on `finish`.
use vstd::prelude::*;
use crate::bucket::{
    ceil_div, complete_buckets, open_tail, lemma_bucket_counts, lemma_bucket_index, lemma_frame_bucket_counts, lemma_mul_lt,
    lemma_open_tail_short, lemma_open_tail_skip, lemma_short, lemma_split, lemma_step,
};

verus! {

/// Largest sample of channel `c` over the first `n` frames of `s`
/// (`i16::MIN` for no frame).
pub open spec fn frames_max(s: Seq<i16>, ch: nat, c: nat, n: nat) -> i16
    decreases n,
{
    if n == 0 {
        i16::MIN
    } else {
        let prev = frames_max(s, ch, c, (n - 1) as nat);
        let v = s[(n - 1) * ch + c];
        if v > prev {
            v
        } else {
            prev
        }
    }
}

/// Smallest sample of channel `c` over the first `n` frames of `s`
/// (`i16::MAX` for no frame).
pub open spec fn frames_min(s: Seq<i16>, ch: nat, c: nat, n: nat) -> i16
    decreases n,
{
    if n == 0 {
        i16::MAX
    } else {
        let prev = frames_min(s, ch, c, (n - 1) as nat);
        let v = s[(n - 1) * ch + c];
        if v < prev {
            v
        } else {
            prev
        }
    }
}

/// The peak of one bucket: `[max, min]` of every channel, channels interleaved.
pub open spec fn wave_peak(b: Seq<i16>, ch: nat) -> Seq<i16> {
    Seq::new(
        2 * ch,
        |i: int|
            if i % 2 == 0 {
                frames_max(b, ch, (i / 2) as nat, b.len() / ch)
            } else {
                frames_min(b, ch, (i / 2) as nat, b.len() / ch)
            },
    )
}

/// Bucket summary of the wave mipmap for `ch` channels.
pub open spec fn wave_summary(ch: nat) -> spec_fn(Seq<i16>) -> Seq<i16> {
    |b: Seq<i16>| wave_peak(b, ch)
}

/// Abstract state of a wave layer: its parameters, the peaks output so far
/// and the samples of the bucket that is still open.
pub struct WaveView {
    pub div: nat,
    pub channels: nat,
    pub out: Seq<i16>,
    pub open: Seq<i16>,
}

impl WaveView {
    /// Samples per bucket.
    pub open spec fn bucket_len(self) -> nat {
        self.div * self.channels
    }

    /// The state after consuming `block` (whole frames).
    pub open spec fn fed(self, block: Seq<i16>) -> WaveView {
        let s = self.open + block;
        WaveView {
            div: self.div,
            channels: self.channels,
            out: self.out + complete_buckets(s, self.bucket_len(), wave_summary(self.channels)),
            open: open_tail(s, self.bucket_len()),
        }
    }

    /// The state after the open bucket (if any) is emitted as a peak.
    pub open spec fn flushed(self) -> WaveView {
        WaveView {
            div: self.div,
            channels: self.channels,
            out: if self.open.len() > 0 {
                self.out + wave_peak(self.open, self.channels)
            } else {
                self.out
            },
            open: Seq::empty(),
        }
    }

    /// The state after consuming the blocks in order.
    pub open spec fn fed_all(self, blocks: Seq<Seq<i16>>) -> WaveView
        decreases blocks.len(),
    {
        if blocks.len() == 0 {
            self
        } else {
            self.fed_all(blocks.drop_last()).fed(blocks.last())
        }
    }

    /// The empty layer.
    pub open spec fn initial(div: nat, channels: nat) -> WaveView {
        WaveView { div, channels, out: Seq::empty(), open: Seq::empty() }
    }

    /// All peaks of a stream: its complete buckets, then the trailing partial one.
    pub open spec fn peaks_of(div: nat, channels: nat, stream: Seq<i16>) -> Seq<i16> {
        WaveView::initial(div, channels).fed(stream).flushed().out
    }
}

/// Two's complement bit pattern of a signed 16-bit value.
pub open spec fn i16_bits(v: i16) -> u16 {
    if v >= 0 {
        v as u16
    } else {
        (v + 65536) as u16
    }
}

/// Little-endian bytes of a signed 16-bit value.
pub open spec fn i16_le(v: i16) -> Seq<u8> {
    seq![(i16_bits(v) % 256) as u8, (i16_bits(v) / 256) as u8]
}

/// Little-endian bytes of a sequence of signed 16-bit values.
pub open spec fn i16_seq_le(s: Seq<i16>) -> Seq<u8>
    decreases s.len(),
{
    if s.len() == 0 {
        Seq::empty()
    } else {
        i16_seq_le(s.drop_last()) + i16_le(s.last())
    }
}

/// Appends the little-endian bytes of `v` to `out`.
pub fn push_i16_le(out: &mut Vec<u8>, v: i16)
    ensures
        final(out)@ == old(out)@ + i16_le(v),
{
    let bits: u16 = if v >= 0 {
        v as u16
    } else {
        (v as i32 + 65536i32) as u16
    };
    out.push((bits % 256) as u8);
    out.push((bits / 256) as u8);
}

/// Single wave mipmap accumulator.
pub struct WaveLayer {
    div: u32,
    channels: usize,
    /// Peaks output so far, `2 * channels` values per peak.
    out: Vec<i16>,
    /// Per-channel maximum of the open bucket.
    acc_max: Vec<i16>,
    /// Per-channel minimum of the open bucket.
    acc_min: Vec<i16>,
    /// Frames in the open bucket (0: no open bucket).
    acc_count: u32,
    /// Samples of the open bucket.
    open: Ghost<Seq<i16>>,
}

impl View for WaveLayer {
    type V = WaveView;

    closed spec fn view(&self) -> WaveView {
        WaveView {
            div: self.div as nat,
            channels: self.channels as nat,
            out: self.out@,
            open: self.open@,
        }
    }
}

proof fn lemma_frames_prefix(s1: Seq<i16>, s2: Seq<i16>, ch: nat, c: nat, n: nat)
    requires
        c < ch,
        n * ch <= s1.len(),
        n * ch <= s2.len(),
        forall|i: int| 0 <= i < n * ch ==> s1[i] == s2[i],
    ensures
        frames_max(s1, ch, c, n) == frames_max(s2, ch, c, n),
        frames_min(s1, ch, c, n) == frames_min(s2, ch, c, n),
    decreases n,
{
    if n > 0 {
        assert((n - 1) * ch + c < n * ch) by (nonlinear_arith)
            requires
                c < ch,
                n > 0,
        ;
        assert((n - 1) * ch <= n * ch) by (nonlinear_arith)
            requires
                n > 0,
        ;
        lemma_frames_prefix(s1, s2, ch, c, (n - 1) as nat);
    }
}

fn filled(v: i16, n: usize) -> (r: Vec<i16>)
    ensures
        r@.len() == n,
        forall|i: int| 0 <= i < n ==> r@[i] == v,
{
    let mut r: Vec<i16> = Vec::new();
    let mut i: usize = 0;
    while i < n
        invariant
            i <= n,
            r@.len() == i,
            forall|j: int| 0 <= j < i ==> r@[j] == v,
        decreases n - i,
    {
        r.push(v);
        i += 1;
    }
    r
}

impl WaveLayer {
    /// Accumulator state is consistent with the open bucket, which may be full.
    spec fn acc_shape(&self) -> bool {
        &&& self.div >= 1
        &&& self.channels >= 1
        &&& self.channels <= usize::MAX / 4
        &&& self.acc_max@.len() == self.channels
        &&& self.acc_min@.len() == self.channels
        &&& self.acc_count <= self.div
        &&& self.out@.len() as int % (2 * self.channels as int) == 0
    }

    spec fn acc_ok(&self) -> bool {
        &&& self.div >= 1
        &&& self.channels >= 1
        &&& self.channels <= usize::MAX / 4
        &&& self.acc_max@.len() == self.channels
        &&& self.acc_min@.len() == self.channels
        &&& self.acc_count <= self.div
        &&& self.open@.len() == self.acc_count * self.channels
        &&& self.out@.len() as int % (2 * self.channels as int) == 0
        &&& forall|c: int|
            0 <= c < self.channels ==> self.acc_max@[c] == frames_max(
                self.open@,
                self.channels as nat,
                c as nat,
                self.acc_count as nat,
            )
        &&& forall|c: int|
            0 <= c < self.channels ==> self.acc_min@[c] == frames_min(
                self.open@,
                self.channels as nat,
                c as nat,
                self.acc_count as nat,
            )
    }

    /// Well-formedness: consistent accumulators and an open bucket shorter than `div`.
    pub closed spec fn wf(&self) -> bool {
        self.acc_ok() && self.acc_count < self.div
    }

    /// New layer with division factor `div` (>= 1) for `channels` (>= 1) channels.
    pub fn new(div: u32, channels: usize) -> (l: WaveLayer)
        requires
            div >= 1,
            channels >= 1,
            channels <= usize::MAX / 4,
        ensures
            l.wf(),
            l@ == WaveView::initial(div as nat, channels as nat),
    {
        let l = WaveLayer {
            div,
            channels,
            out: Vec::new(),
            acc_max: filled(i16::MIN, channels),
            acc_min: filled(i16::MAX, channels),
            acc_count: 0,
            open: Ghost(Seq::empty()),
        };
        assert(l.open@ == Seq::<i16>::empty());
        assert(0int % (2 * channels as int) == 0) by (nonlinear_arith)
            requires
                channels >= 1,
        ;
        l
    }

    /// Bounds of the parameters of a well-formed layer.
    pub proof fn lemma_view_bounds(&self)
        requires
            self.wf(),
        ensures
            1 <= self@.div <= u32::MAX,
            1 <= self@.channels <= usize::MAX / 4,
    {
    }

    /// Division factor of this layer.
    pub fn div(&self) -> (d: u32)
        ensures
            d == self@.div,
    {
        self.div
    }

    /// Emits the open bucket as a peak and empties it.
    fn flush_acc(&mut self)
        requires
            old(self).acc_ok(),
        ensures
            final(self).wf(),
            final(self)@ == (WaveView { div: old(self)@.div, channels: old(self)@.channels, out: old(self)@.out + wave_peak(old(self)@.open, old(self)@.channels), open: Seq::empty() }),
    {
        let ch = self.channels;
        let ghost out0 = self.out@;
        let ghost ch_n = ch as nat;
        let ghost n = self.acc_count as nat;
        let ghost peak = wave_peak(self.open@, ch_n);
        assert(self.open@.len() / ch_n == n) by (nonlinear_arith)
            requires
                self.open@.len() == n * ch_n,
                ch_n > 0,
        ;
        let mut add: Vec<i16> = Vec::new();
        let mut c: usize = 0;
        while c < ch
            invariant
                self.acc_ok(),
                ch == self.channels,
                ch_n == ch,
                n == self.acc_count,
                peak == wave_peak(self.open@, ch_n),
                self.open@.len() / ch_n == n,
                c <= ch,
                add@ == peak.take(2 * c),
            decreases ch - c,
        {
            let mx = self.acc_max[c];
            let mn = self.acc_min[c];
            add.push(mx);
            add.push(mn);
            proof {
                assert((2 * c) % 2 == 0) by (nonlinear_arith);
                assert((2 * c + 1) % 2 == 1) by (nonlinear_arith);
                assert((2 * c) / 2 == c) by (nonlinear_arith);
                assert((2 * c + 1) / 2 == c) by (nonlinear_arith);
                assert(peak[2 * c] == mx);
                assert(peak[2 * c + 1] == mn);
                assert(peak.take(2 * (c + 1)) == peak.take(2 * c) + seq![mx, mn]);
            }
            c += 1;
        }
        assert(peak.take(2 * ch) == peak);
        self.out.append(&mut add);
        proof {
            let l = self.out@.len();
            assert(l == out0.len() + 2 * ch_n);
            assert(out0.len() as int % (2 * ch_n as int) == 0);
            assert(l as int % (2 * ch_n as int) == 0) by (nonlinear_arith)
                requires
                    l == out0.len() + 2 * ch_n,
                    out0.len() as int % (2 * ch_n as int) == 0,
                    ch_n > 0,
            ;
        }
        self.acc_max = filled(i16::MIN, ch);
        self.acc_min = filled(i16::MAX, ch);
        self.acc_count = 0;
        self.open = Ghost(Seq::empty());
    }

    /// Adds one frame (`block[base..base + channels]`) to the open bucket,
    /// emitting it when it reaches `div` frames.
    fn add_frame(&mut self, block: &[i16], base: usize)
        requires
            old(self).wf(),
            base + old(self).channels <= block@.len(),
        ensures
            final(self).wf(),
            ({
                let o2 = old(self)@.open + block@.subrange(base as int, base + old(self).channels);
                if old(self).acc_count + 1 == old(self).div {
                    final(self)@ == (WaveView { div: old(self)@.div, channels: old(self)@.channels, out: old(self)@.out + wave_peak(o2, old(self)@.channels), open: Seq::empty() })
                } else {
                    final(self)@ == (WaveView { div: old(self)@.div, channels: old(self)@.channels, out: old(self)@.out, open: o2 })
                }
            }),
    {
        let ch = self.channels;
        let ghost ch_n = ch as nat;
        let ghost k = self.acc_count as nat;
        let ghost open0 = self.open@;
        let ghost fr = block@.subrange(base as int, base + ch);
        let ghost o2 = open0 + fr;
        let bl = block.len();
        proof {
            lemma_mul_lt(k, self.div as nat, ch_n);
        }
        let mut c: usize = 0;
        while c < ch
            invariant
                self.acc_shape(),
                self.acc_count < self.div,
                ch == self.channels,
                ch_n == ch,
                k == self.acc_count,
                open0 == self.open@,
                open0.len() == k * ch_n,
                o2 == open0 + fr,
                fr == block@.subrange(base as int, base + ch),
                base + ch <= block@.len(),
                bl == block@.len(),
                self.div == old(self).div,
                self.out@ == old(self).out@,
                c <= ch,
                forall|j: int|
                    0 <= j < c ==> self.acc_max@[j] == frames_max(o2, ch_n, j as nat, k + 1)
                        && self.acc_min@[j] == frames_min(o2, ch_n, j as nat, k + 1),
                forall|j: int|
                    c <= j < ch ==> self.acc_max@[j] == frames_max(open0, ch_n, j as nat, k)
                        && self.acc_min@[j] == frames_min(open0, ch_n, j as nat, k),
            decreases ch - c,
        {
            let v = block[base + c];
            proof {
                lemma_frames_prefix(o2, open0, ch_n, c as nat, k);
                assert(o2[k * ch_n + c] == v);
            }
            let mx = self.acc_max[c];
            let mn = self.acc_min[c];
            if v > mx {
                self.acc_max.set(c, v);
            }
            if v < mn {
                self.acc_min.set(c, v);
            }
            c += 1;
        }
        self.acc_count = self.acc_count + 1;
        self.open = Ghost(o2);
        proof {
            assert(o2.len() == (k + 1) * ch_n);
        }
        if self.acc_count == self.div {
            self.flush_acc();
        }
    }

    /// Consumes a block of whole frames of interleaved samples
    /// (`block.len()` is a multiple of the channel count).
    pub fn feed(&mut self, block: &[i16])
        requires
            old(self).wf(),
            block@.len() as int % (old(self)@.channels as int) == 0,
        ensures
            final(self).wf(),
            final(self)@ == old(self)@.fed(block@),
    {
        let ch = self.channels;
        let n = block.len() / ch;
        let ghost ch_n = ch as nat;
        let ghost kk = old(self)@.bucket_len();
        let ghost f = wave_summary(ch_n);
        proof {
            assert(block@.len() == n * ch_n) by (nonlinear_arith)
                requires
                    block@.len() as int % (ch_n as int) == 0,
                    n == block@.len() / ch_n,
                    ch_n > 0,
            ;
            assert(kk > 0) by (nonlinear_arith)
                requires
                    kk == self.div * ch_n,
                    self.div >= 1,
                    ch_n >= 1,
            ;
            assert(block@.take(0) == Seq::<i16>::empty());
            assert(old(self)@.open + Seq::<i16>::empty() == old(self)@.open);
            assert(self.open@.len() < kk) by (nonlinear_arith)
                requires
                    self.open@.len() == self.acc_count * ch_n,
                    kk == self.div * ch_n,
                    self.acc_count < self.div,
                    ch_n > 0,
            ;
            lemma_short(old(self)@.open, kk, f);
            assert(old(self)@.out + Seq::<i16>::empty() == old(self)@.out);
        }
        let bl = block.len();
        let mut i: usize = 0;
        let mut base: usize = 0;
        while i < n
            invariant
                self.wf(),
                bl == block@.len(),
                ch == self.channels,
                ch_n == ch,
                kk == self.div * ch_n,
                kk > 0,
                f == wave_summary(ch_n),
                self.div == old(self).div,
                self.channels == old(self).channels,
                block@.len() == n * ch_n,
                i <= n,
                base == i * ch_n,
                self@ == old(self)@.fed(block@.take(base as int)),
            decreases n - i,
        {
            proof {
                lemma_mul_lt(i as nat, n as nat, ch_n);
            }
            let ghost x = old(self)@.open + block@.take(base as int);
            let ghost fr = block@.subrange(base as int, base + ch);
            let ghost pre = self@;
            let ghost acc = self.acc_count;
            proof {
                assert(pre.open == open_tail(x, kk));
                assert(pre.out == old(self)@.out + complete_buckets(x, kk, f));
                assert(pre.open.len() + fr.len() <= kk) by (nonlinear_arith)
                    requires
                        pre.open.len() == acc * ch_n,
                        fr.len() == ch_n,
                        kk == self.div * ch_n,
                        acc < self.div,
                ;
                lemma_step(x, fr, kk, f);
                assert(x + fr == old(self)@.open + block@.take(base + ch));
            }
            self.add_frame(block, base);
            proof {
                if acc + 1 == self.div {
                    assert(pre.open.len() + fr.len() == kk) by (nonlinear_arith)
                        requires
                            pre.open.len() == acc * ch_n,
                            fr.len() == ch_n,
                            kk == self.div * ch_n,
                            acc + 1 == self.div,
                    ;
                } else {
                    assert(pre.open.len() + fr.len() < kk) by (nonlinear_arith)
                        requires
                            pre.open.len() == acc * ch_n,
                            fr.len() == ch_n,
                            kk == self.div * ch_n,
                            acc + 1 < self.div,
                            ch_n > 0,
                    ;
                }
                assert(old(self)@.out + complete_buckets(x, kk, f) + f(pre.open + fr) == old(self)@.out + (complete_buckets(x, kk, f) + f(pre.open + fr)));
            }
            base = base + ch;
            i = i + 1;
        }
        assert(block@.take(base as int) == block@);
    }

    /// Emits the open bucket, however short, as a final peak.
    pub fn finish(&mut self)
        requires
            old(self).wf(),
        ensures
            final(self).wf(),
            final(self)@ == old(self)@.flushed(),
    {
        if self.acc_count > 0 {
            proof {
                assert(self.open@.len() > 0) by (nonlinear_arith)
                    requires
                        self.open@.len() == self.acc_count * self.channels,
                        self.acc_count > 0,
                        self.channels > 0,
                ;
            }
            self.flush_acc();
        } else {
            assert(self.open@.len() == 0) by (nonlinear_arith)
                requires
                    self.open@.len() == self.acc_count * self.channels,
                    self.acc_count == 0,
            ;
            assert(self.open@ =~= Seq::<i16>::empty());
        }
    }

    /// Number of peaks output so far (`2 * channels` values each).
    pub fn peak_count(&self) -> (n: usize)
        requires
            self.wf(),
        ensures
            n == self@.out.len() / (2 * self@.channels),
    {
        self.out.len() / (2 * self.channels)
    }

    /// The output always holds whole peaks: `bytes()` has `4 * channels`
    /// bytes per peak.
    pub proof fn lemma_whole_peaks(&self)
        requires
            self.wf(),
        ensures
            self@.out.len() == 2 * self@.channels * (self@.out.len() / (2 * self@.channels)),
            i16_seq_le(self@.out).len() == 4 * self@.channels * (self@.out.len() / (2 * self@.channels)),
    {
        let (n, d) = (self@.out.len() as int, 2 * self@.channels as int);
        assert(n == d * (n / d)) by (nonlinear_arith)
            requires
                n % d == 0,
                d > 0,
        ;
        lemma_i16_seq_le_len(self@.out);
        assert(2 * (d * (n / d)) == 4 * self@.channels * (n / d)) by (nonlinear_arith)
            requires
                d == 2 * self@.channels,
        ;
    }

    /// The peaks output so far, as little-endian bytes.
    pub fn bytes(&self) -> (b: Vec<u8>)
        ensures
            b@ == i16_seq_le(self@.out),
    {
        let n = self.out.len();
        let mut b: Vec<u8> = Vec::new();
        let mut i: usize = 0;
        while i < n
            invariant
                n == self.out@.len(),
                i <= n,
                b@ == i16_seq_le(self.out@.take(i as int)),
            decreases n - i,
        {
            push_i16_le(&mut b, self.out[i]);
            i += 1;
            assert(self.out@.take(i as int).drop_last() == self.out@.take(i - 1));
        }
        assert(self.out@.take(n as int) == self.out@);
        b
    }
}

/// Feeding a layer two blocks in turn leaves it in the same state as
/// feeding it their concatenation: the output does not depend on how the
/// stream is split into blocks.
pub proof fn lemma_wave_feed_concat(v: WaveView, a: Seq<i16>, b: Seq<i16>)
    ensures
        v.fed(a).fed(b) == v.fed(a + b),
{
    let k = v.bucket_len();
    let f = wave_summary(v.channels);
    lemma_split(v.open + a, b, k, f);
    assert(v.open + a + b == v.open + (a + b));
    assert(v.out + complete_buckets(v.open + a, k, f) + complete_buckets(open_tail(v.open + a, k) + b, k, f)
        == v.out + (complete_buckets(v.open + a, k, f) + complete_buckets(open_tail(v.open + a, k) + b, k, f)));
}

/// A stream of `frames` whole frames yields `ceil(frames / div)` peaks of
/// `2 * channels` values: one per complete bucket and one for a trailing
/// partial bucket.
pub proof fn lemma_wave_peak_count(div: nat, ch: nat, stream: Seq<i16>)
    requires
        div >= 1,
        ch >= 1,
        stream.len() % ch == 0,
    ensures
        WaveView::peaks_of(div, ch, stream).len() == 2 * ch * ceil_div(stream.len() / ch, div),
{
    let v = WaveView::initial(div, ch);
    let f = wave_summary(ch);
    assert(v.open + stream == stream);
    assert forall|b: Seq<i16>| b.len() == div * ch implies #[trigger] f(b).len() == 2 * ch by {}
    lemma_frame_bucket_counts(stream, div, ch, f, 2 * ch);
    let q = stream.len() / ch / div;
    assert(q * (2 * ch) + 2 * ch == 2 * ch * (q + 1) && q * (2 * ch) == 2 * ch * q) by (nonlinear_arith);
}

/// Two little-endian bytes per value.
pub proof fn lemma_i16_seq_le_len(s: Seq<i16>)
    ensures
        i16_seq_le(s).len() == 2 * s.len(),
    decreases s.len(),
{
    if s.len() > 0 {
        lemma_i16_seq_le_len(s.drop_last());
    }
}

/// The maximum of a non-empty range of frames is at least its minimum.
pub proof fn lemma_max_ge_min(s: Seq<i16>, ch: nat, c: nat, n: nat)
    requires
        n >= 1,
    ensures
        frames_max(s, ch, c, n) >= frames_min(s, ch, c, n),
    decreases n,
{
    if n > 1 {
        lemma_max_ge_min(s, ch, c, (n - 1) as nat);
    }
}

/// Content of the wave peaks of a stream of `n` whole frames: before the
/// input ends, peak `k < n / div` holds, per channel `c`, the max and min of
/// the frames `[k * div, (k + 1) * div)` (max first, and max >= min); the
/// frames after the last complete bucket stay open. Finishing appends, when
/// `div` does not divide `n`, one peak with the max and min of those last
/// `n % div` frames, and finishing again changes nothing.
pub proof fn lemma_wave_content(div: nat, ch: nat, stream: Seq<i16>)
    requires
        div >= 1,
        ch >= 1,
        stream.len() % ch == 0,
    ensures
        ({
            let n = stream.len() / ch;
            let q = n / div;
            let v = WaveView::initial(div, ch).fed(stream);
            let w = v.flushed();
            &&& v.out.len() == 2 * ch * q
            &&& forall|k: int, c: int|
                0 <= k < q && 0 <= c < ch ==> {
                    let b = stream.subrange(k * div * ch, (k + 1) * div * ch);
                    &&& #[trigger] v.out[2 * (k * ch + c)] == frames_max(b, ch, c as nat, div)
                    &&& v.out[2 * (k * ch + c) + 1] == frames_min(b, ch, c as nat, div)
                    &&& v.out[2 * (k * ch + c)] >= v.out[2 * (k * ch + c) + 1]
                }
            &&& v.open == stream.skip((q * div * ch) as int)
            &&& w.out.subrange(0, v.out.len() as int) == v.out
            &&& n % div == 0 ==> w.out == v.out
            &&& n % div != 0 ==> {
                &&& w.out.len() == v.out.len() + 2 * ch
                &&& forall|c: int|
                    0 <= c < ch ==> {
                        &&& #[trigger] w.out[2 * (q * ch + c)] == frames_max(v.open, ch, c as nat, n % div)
                        &&& w.out[2 * (q * ch + c) + 1] == frames_min(v.open, ch, c as nat, n % div)
                        &&& w.out[2 * (q * ch + c)] >= w.out[2 * (q * ch + c) + 1]
                    }
            }
            &&& w.flushed() == w
        }),
{
    let n = stream.len() / ch;
    let q = n / div;
    let k = div * ch;
    let f = wave_summary(ch);
    let v = WaveView::initial(div, ch).fed(stream);
    let w = v.flushed();
    assert(WaveView::initial(div, ch).open + stream == stream);
    assert forall|b: Seq<i16>| b.len() == k implies #[trigger] f(b).len() == 2 * ch by {}
    lemma_frame_bucket_counts(stream, div, ch, f, 2 * ch);
    lemma_wave_peak_count(div, ch, stream);
    assert(k > 0) by (nonlinear_arith)
        requires
            k == div * ch,
            div >= 1,
            ch >= 1,
    ;
    let (ni, di, ci) = (n as int, div as int, ch as int);
    assert(stream.len() == ni * ci) by (nonlinear_arith)
        requires
            stream.len() % ch == 0,
            ni == stream.len() / ch,
            ci == ch,
            ch >= 1,
    ;
    lemma_bucket_counts(stream, k, f, 2 * ch);
    let sk = stream.len() / k;
    assert(sk == q) by (nonlinear_arith)
        requires
            sk * (2 * ch) == q * (2 * ch),
            ch >= 1,
    ;
    assert(q * (2 * ch) == 2 * ch * q) by (nonlinear_arith);
    assert forall|kk: int, c: int| 0 <= kk < q && 0 <= c < ch implies {
        let b = stream.subrange(kk * div * ch, (kk + 1) * div * ch);
        &&& #[trigger] v.out[2 * (kk * ch + c)] == frames_max(b, ch, c as nat, div)
        &&& v.out[2 * (kk * ch + c) + 1] == frames_min(b, ch, c as nat, div)
        &&& v.out[2 * (kk * ch + c)] >= v.out[2 * (kk * ch + c) + 1]
    } by {
        let b = stream.subrange(kk * div * ch, (kk + 1) * div * ch);
        assert(kk * k == kk * div * ch && (kk + 1) * k == (kk + 1) * div * ch) by (nonlinear_arith)
            requires
                k == div * ch,
        ;
        assert(2 * (kk * ch + c) == kk * (2 * ch) + 2 * c) by (nonlinear_arith);
        lemma_bucket_index(stream, k, f, 2 * ch, kk, 2 * c);
        lemma_bucket_index(stream, k, f, 2 * ch, kk, 2 * c + 1);
        assert(0 <= kk * k && (kk + 1) * k <= stream.len()) by (nonlinear_arith)
            requires
                0 <= kk < q,
                q == stream.len() / k,
                k > 0,
        ;
        assert((kk + 1) * div * ch - kk * div * ch == div * ch) by (nonlinear_arith);
        assert(b.len() == k);
        assert(b.len() / ch == div) by (nonlinear_arith)
            requires
                b.len() == div * ch,
                ch >= 1,
        ;
        assert(v.out == complete_buckets(stream, k, f));
        lemma_max_ge_min(b, ch, c as nat, div);
    }
    lemma_open_tail_skip(stream, k);
    assert((q * k) as int == q * div * ch) by (nonlinear_arith)
        requires
            k == div * ch,
    ;
    assert(w.out.subrange(0, v.out.len() as int) =~= v.out);
    lemma_frame_bucket_counts(stream, div, ch, f, 2 * ch);
    if n % div != 0 {
        let o = v.open;
        assert(o == open_tail(stream, div * ch));
        assert(o.len() == (n % div) * ch);
        assert(o.len() / ch == n % div) by {
            let r = (n % div) as int;
            vstd::arithmetic::div_mod::lemma_div_multiples_vanish(r, ch as int);
            assert(ch * r == r * ch) by (nonlinear_arith);
        }
        assert forall|c: int| 0 <= c < ch implies {
            &&& #[trigger] w.out[2 * (q * ch + c)] == frames_max(o, ch, c as nat, n % div)
            &&& w.out[2 * (q * ch + c) + 1] == frames_min(o, ch, c as nat, n % div)
            &&& w.out[2 * (q * ch + c)] >= w.out[2 * (q * ch + c) + 1]
        } by {
            assert(2 * (q * ch + c) == v.out.len() + 2 * c) by (nonlinear_arith)
                requires
                    v.out.len() == 2 * ch * q,
            ;
            lemma_max_ge_min(o, ch, c as nat, n % div);
        }
    } else {
        assert(v.open.len() == 0);
    }
    assert(w.flushed().open =~= w.open);
}

/// Feeding any number of blocks in turn leaves a layer (whose open bucket is
/// not full) in the same state as feeding their concatenation at once.
pub proof fn lemma_wave_fed_all(v: WaveView, blocks: Seq<Seq<i16>>)
    requires
        v.open.len() < v.bucket_len(),
    ensures
        v.fed_all(blocks) == v.fed(blocks.flatten()),
    decreases blocks.len(),
{
    blocks.lemma_flatten_and_flatten_alt_are_equivalent();
    if blocks.len() == 0 {
        lemma_short(v.open, v.bucket_len(), wave_summary(v.channels));
        assert(v.open + Seq::<i16>::empty() == v.open);
        assert(v.out + Seq::empty() == v.out);
    } else {
        let init = blocks.drop_last();
        lemma_wave_fed_all(v, init);
        init.lemma_flatten_and_flatten_alt_are_equivalent();
        lemma_wave_feed_concat(v, init.flatten(), blocks.last());
    }
}

} // verus!
