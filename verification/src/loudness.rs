//! Loudness mipmap: per bucket of `div` frames, the exact sum of squared
//! samples of every channel together with the bucket's frame count.
//!
//! The stored value of a loudness peak is the RMS `sqrt(sum / frames) / 32768`
//! as an `f32`; that floating-point step is applied by the caller to the exact
//! integer records kept here. Squares are summed in `i64`, which cannot
//! overflow: a bucket holds at most `u32::MAX` frames of squares `<= 2^30`.
use vstd::prelude::*;
use crate::bucket::{
    ceil_div, complete_buckets, open_tail, lemma_bucket_counts, lemma_bucket_index, lemma_frame_bucket_counts, lemma_mul_lt,
    lemma_open_tail_skip, lemma_step, lemma_short, lemma_split,
};

verus! {

/// Exact data of one loudness value: the sum of squared samples of one
/// channel over a bucket, and the number of frames in the bucket.
#[derive(Debug, Clone, Copy, PartialEq, Eq)]
pub struct SquareSum {
    pub sum: i64,
    pub frames: u32,
}

/// Sum of the squared samples of channel `c` over the first `n` frames of `s`.
pub open spec fn sq_sum(s: Seq<i16>, ch: nat, c: nat, n: nat) -> int
    decreases n,
{
    if n == 0 {
        0
    } else {
        let v = s[(n - 1) * ch + c] as int;
        sq_sum(s, ch, c, (n - 1) as nat) + v * v
    }
}

/// The loudness records of one bucket, one per channel.
pub open spec fn loud_peak(b: Seq<i16>, ch: nat) -> Seq<SquareSum> {
    Seq::new(
        ch,
        |c: int|
            SquareSum {
                sum: sq_sum(b, ch, c as nat, b.len() / ch) as i64,
                frames: (b.len() / ch) as u32,
            },
    )
}

/// Bucket summary of the loudness mipmap for `ch` channels.
pub open spec fn loud_summary(ch: nat) -> spec_fn(Seq<i16>) -> Seq<SquareSum> {
    |b: Seq<i16>| loud_peak(b, ch)
}

/// Abstract state of a loudness layer: parameters, records output so far
/// (`channels` per peak) and the samples of the open bucket.
pub struct LoudnessView {
    pub div: nat,
    pub channels: nat,
    pub out: Seq<SquareSum>,
    pub open: Seq<i16>,
}

impl LoudnessView {
    /// Samples per bucket.
    pub open spec fn bucket_len(self) -> nat {
        self.div * self.channels
    }

    /// The state after consuming `block` (whole frames).
    pub open spec fn fed(self, block: Seq<i16>) -> LoudnessView {
        let s = self.open + block;
        LoudnessView {
            div: self.div,
            channels: self.channels,
            out: self.out + complete_buckets(s, self.bucket_len(), loud_summary(self.channels)),
            open: open_tail(s, self.bucket_len()),
        }
    }

    /// The state after the open bucket (if any) is emitted as a peak.
    pub open spec fn flushed(self) -> LoudnessView {
        LoudnessView {
            div: self.div,
            channels: self.channels,
            out: if self.open.len() > 0 {
                self.out + loud_peak(self.open, self.channels)
            } else {
                self.out
            },
            open: Seq::empty(),
        }
    }

    /// The state after consuming the blocks in order.
    pub open spec fn fed_all(self, blocks: Seq<Seq<i16>>) -> LoudnessView
        decreases blocks.len(),
    {
        if blocks.len() == 0 {
            self
        } else {
            self.fed_all(blocks.drop_last()).fed(blocks.last())
        }
    }

    /// The empty layer.
    pub open spec fn initial(div: nat, channels: nat) -> LoudnessView {
        LoudnessView { div, channels, out: Seq::empty(), open: Seq::empty() }
    }
}

/// Single loudness mipmap accumulator.
pub struct LoudnessLayer {
    div: u32,
    channels: usize,
    /// Records output so far, `channels` per peak.
    out: Vec<SquareSum>,
    /// Per-channel sum of squares of the open bucket.
    acc_sq: Vec<i64>,
    /// Frames in the open bucket.
    acc_count: u32,
    /// Samples of the open bucket.
    open: Ghost<Seq<i16>>,
}

impl View for LoudnessLayer {
    type V = LoudnessView;

    closed spec fn view(&self) -> LoudnessView {
        LoudnessView {
            div: self.div as nat,
            channels: self.channels as nat,
            out: self.out@,
            open: self.open@,
        }
    }
}

proof fn lemma_sq_prefix(s1: Seq<i16>, s2: Seq<i16>, ch: nat, c: nat, n: nat)
    requires
        c < ch,
        n * ch <= s1.len(),
        n * ch <= s2.len(),
        forall|i: int| 0 <= i < n * ch ==> s1[i] == s2[i],
    ensures
        sq_sum(s1, ch, c, n) == sq_sum(s2, ch, c, n),
    decreases n,
{
    if n > 0 {
        assert((n - 1) * ch + c < n * ch) by (nonlinear_arith)
            requires
                c < ch,
                n > 0,
        ;
        assert((n - 1) * ch <= n * ch) by (nonlinear_arith)
            requires
                n > 0,
        ;
        lemma_sq_prefix(s1, s2, ch, c, (n - 1) as nat);
    }
}

proof fn lemma_sq_bound(s: Seq<i16>, ch: nat, c: nat, n: nat)
    ensures
        0 <= sq_sum(s, ch, c, n) <= n * 1073741824,
    decreases n,
{
    if n > 0 {
        lemma_sq_bound(s, ch, c, (n - 1) as nat);
        let v = s[(n - 1) * ch + c] as int;
        assert(0 <= v * v <= 1073741824) by (nonlinear_arith)
            requires
                -32768 <= v <= 32767,
        ;
        assert((n - 1) * 1073741824 + 1073741824 == n * 1073741824);
    }
}

fn zeros(n: usize) -> (r: Vec<i64>)
    ensures
        r@.len() == n,
        forall|i: int| 0 <= i < n ==> r@[i] == 0,
{
    let mut r: Vec<i64> = Vec::new();
    let mut i: usize = 0;
    while i < n
        invariant
            i <= n,
            r@.len() == i,
            forall|j: int| 0 <= j < i ==> r@[j] == 0,
        decreases n - i,
    {
        r.push(0);
        i += 1;
    }
    r
}

impl LoudnessLayer {
    spec fn acc_shape(&self) -> bool {
        &&& self.div >= 1
        &&& self.channels >= 1
        &&& self.channels <= usize::MAX / 4
        &&& self.acc_sq@.len() == self.channels
        &&& self.acc_count <= self.div
        &&& self.out@.len() as int % (self.channels as int) == 0
    }

    spec fn acc_ok(&self) -> bool {
        &&& self.acc_shape()
        &&& self.open@.len() == self.acc_count * self.channels
        &&& forall|c: int|
            0 <= c < self.channels ==> self.acc_sq@[c] == sq_sum(
                self.open@,
                self.channels as nat,
                c as nat,
                self.acc_count as nat,
            )
    }

    /// Well-formedness: consistent accumulators and an open bucket shorter than `div`.
    pub closed spec fn wf(&self) -> bool {
        self.acc_ok() && self.acc_count < self.div
    }

    /// New layer with division factor `div` (>= 1) for `channels` (>= 1) channels.
    pub fn new(div: u32, channels: usize) -> (l: LoudnessLayer)
        requires
            div >= 1,
            channels >= 1,
            channels <= usize::MAX / 4,
        ensures
            l.wf(),
            l@ == LoudnessView::initial(div as nat, channels as nat),
    {
        let l = LoudnessLayer {
            div,
            channels,
            out: Vec::new(),
            acc_sq: zeros(channels),
            acc_count: 0,
            open: Ghost(Seq::empty()),
        };
        assert(l.open@ == Seq::<i16>::empty());
        assert(0int % (channels as int) == 0) by (nonlinear_arith)
            requires
                channels >= 1,
        ;
        l
    }

    /// Bounds of the parameters of a well-formed layer.
    pub proof fn lemma_view_bounds(&self)
        requires
            self.wf(),
        ensures
            1 <= self@.div <= u32::MAX,
            1 <= self@.channels <= usize::MAX / 4,
    {
    }

    /// Division factor of this layer.
    pub fn div(&self) -> (d: u32)
        ensures
            d == self@.div,
    {
        self.div
    }

    /// Emits the open bucket as a peak and empties it.
    fn flush_acc(&mut self)
        requires
            old(self).acc_ok(),
        ensures
            final(self).wf(),
            final(self)@ == (LoudnessView { div: old(self)@.div, channels: old(self)@.channels, out: old(self)@.out + loud_peak(old(self)@.open, old(self)@.channels), open: Seq::empty() }),
    {
        let ch = self.channels;
        let ghost out0 = self.out@;
        let ghost ch_n = ch as nat;
        let ghost n = self.acc_count as nat;
        let ghost peak = loud_peak(self.open@, ch_n);
        assert(self.open@.len() / ch_n == n) by (nonlinear_arith)
            requires
                self.open@.len() == n * ch_n,
                ch_n > 0,
        ;
        let count = self.acc_count;
        let mut add: Vec<SquareSum> = Vec::new();
        let mut c: usize = 0;
        while c < ch
            invariant
                self.acc_ok(),
                ch == self.channels,
                ch_n == ch,
                n == self.acc_count,
                count == self.acc_count,
                peak == loud_peak(self.open@, ch_n),
                self.open@.len() / ch_n == n,
                c <= ch,
                add@ == peak.take(c as int),
            decreases ch - c,
        {
            let r = SquareSum { sum: self.acc_sq[c], frames: count };
            add.push(r);
            proof {
                lemma_sq_bound(self.open@, ch_n, c as nat, n);
                assert(n * 1073741824 <= 4294967295 * 1073741824) by (nonlinear_arith)
                    requires
                        n <= 4294967295,
                ;
                assert(peak[c as int] == r);
                assert(peak.take(c + 1) == peak.take(c as int) + seq![r]);
            }
            c += 1;
        }
        assert(peak.take(ch as int) == peak);
        self.out.append(&mut add);
        proof {
            let l = self.out@.len();
            assert(l as int % (ch_n as int) == 0) by (nonlinear_arith)
                requires
                    l == out0.len() + ch_n,
                    out0.len() as int % (ch_n as int) == 0,
                    ch_n > 0,
            ;
        }
        self.acc_sq = zeros(ch);
        self.acc_count = 0;
        self.open = Ghost(Seq::empty());
    }

    /// Adds one frame (`block[base..base + channels]`) to the open bucket,
    /// emitting it when it reaches `div` frames.
    fn add_frame(&mut self, block: &[i16], base: usize)
        requires
            old(self).wf(),
            base + old(self).channels <= block@.len(),
        ensures
            final(self).wf(),
            ({
                let o2 = old(self)@.open + block@.subrange(base as int, base + old(self).channels);
                if old(self).acc_count + 1 == old(self).div {
                    final(self)@ == (LoudnessView { div: old(self)@.div, channels: old(self)@.channels, out: old(self)@.out + loud_peak(o2, old(self)@.channels), open: Seq::empty() })
                } else {
                    final(self)@ == (LoudnessView { div: old(self)@.div, channels: old(self)@.channels, out: old(self)@.out, open: o2 })
                }
            }),
    {
        let ch = self.channels;
        let ghost ch_n = ch as nat;
        let ghost k = self.acc_count as nat;
        let ghost open0 = self.open@;
        let ghost fr = block@.subrange(base as int, base + ch);
        let ghost o2 = open0 + fr;
        let bl = block.len();
        proof {
            lemma_mul_lt(k, self.div as nat, ch_n);
        }
        let mut c: usize = 0;
        while c < ch
            invariant
                self.acc_shape(),
                self.acc_count < self.div,
                ch == self.channels,
                ch_n == ch,
                k == self.acc_count,
                open0 == self.open@,
                open0.len() == k * ch_n,
                o2 == open0 + fr,
                fr == block@.subrange(base as int, base + ch),
                base + ch <= block@.len(),
                bl == block@.len(),
                self.div == old(self).div,
                self.out@ == old(self).out@,
                c <= ch,
                forall|j: int| 0 <= j < c ==> self.acc_sq@[j] == sq_sum(o2, ch_n, j as nat, k + 1),
                forall|j: int| c <= j < ch ==> self.acc_sq@[j] == sq_sum(open0, ch_n, j as nat, k),
            decreases ch - c,
        {
            let v = block[base + c] as i64;
            proof {
                lemma_sq_prefix(o2, open0, ch_n, c as nat, k);
                assert(o2[k * ch_n + c] == v);
                lemma_sq_bound(open0, ch_n, c as nat, k);
                assert(0 <= v * v <= 1073741824) by (nonlinear_arith)
                    requires
                        -32768 <= v <= 32767,
                ;
                assert(k * 1073741824 + 1073741824 <= 4294967296 * 1073741824) by (nonlinear_arith)
                    requires
                        k < 4294967295,
                ;
            }
            let acc = self.acc_sq[c];
            assert(acc == sq_sum(open0, ch_n, c as nat, k));
            assert(0 <= acc <= k * 1073741824);
            assert(acc + v * v <= 4611686018427387904);
            self.acc_sq.set(c, acc + v * v);
            c += 1;
        }
        self.acc_count = self.acc_count + 1;
        self.open = Ghost(o2);
        proof {
            assert(o2.len() == (k + 1) * ch_n);
        }
        if self.acc_count == self.div {
            self.flush_acc();
        }
    }

    /// Consumes a block of whole frames of interleaved samples
    /// (`block.len()` is a multiple of the channel count).
    pub fn feed(&mut self, block: &[i16])
        requires
            old(self).wf(),
            block@.len() as int % (old(self)@.channels as int) == 0,
        ensures
            final(self).wf(),
            final(self)@ == old(self)@.fed(block@),
    {
        let ch = self.channels;
        let n = block.len() / ch;
        let ghost ch_n = ch as nat;
        let ghost kk = old(self)@.bucket_len();
        let ghost f = loud_summary(ch_n);
        proof {
            assert(block@.len() == n * ch_n) by (nonlinear_arith)
                requires
                    block@.len() as int % (ch_n as int) == 0,
                    n == block@.len() / ch_n,
                    ch_n > 0,
            ;
            assert(kk > 0) by (nonlinear_arith)
                requires
                    kk == self.div * ch_n,
                    self.div >= 1,
                    ch_n >= 1,
            ;
            assert(block@.take(0) == Seq::<i16>::empty());
            assert(old(self)@.open + Seq::<i16>::empty() == old(self)@.open);
            assert(self.open@.len() < kk) by (nonlinear_arith)
                requires
                    self.open@.len() == self.acc_count * ch_n,
                    kk == self.div * ch_n,
                    self.acc_count < self.div,
                    ch_n > 0,
            ;
            lemma_short(old(self)@.open, kk, f);
            assert(old(self)@.out + Seq::<SquareSum>::empty() == old(self)@.out);
        }
        let bl = block.len();
        let mut i: usize = 0;
        let mut base: usize = 0;
        while i < n
            invariant
                self.wf(),
                bl == block@.len(),
                ch == self.channels,
                ch_n == ch,
                kk == self.div * ch_n,
                kk > 0,
                f == loud_summary(ch_n),
                self.div == old(self).div,
                self.channels == old(self).channels,
                block@.len() == n * ch_n,
                i <= n,
                base == i * ch_n,
                self@ == old(self)@.fed(block@.take(base as int)),
            decreases n - i,
        {
            proof {
                lemma_mul_lt(i as nat, n as nat, ch_n);
            }
            let ghost x = old(self)@.open + block@.take(base as int);
            let ghost fr = block@.subrange(base as int, base + ch);
            let ghost pre = self@;
            let ghost acc = self.acc_count;
            proof {
                assert(pre.open.len() + fr.len() <= kk) by (nonlinear_arith)
                    requires
                        pre.open.len() == acc * ch_n,
                        fr.len() == ch_n,
                        kk == self.div * ch_n,
                        acc < self.div,
                ;
                lemma_step(x, fr, kk, f);
                assert(x + fr == old(self)@.open + block@.take(base + ch));
            }
            self.add_frame(block, base);
            proof {
                if acc + 1 == self.div {
                    assert(pre.open.len() + fr.len() == kk) by (nonlinear_arith)
                        requires
                            pre.open.len() == acc * ch_n,
                            fr.len() == ch_n,
                            kk == self.div * ch_n,
                            acc + 1 == self.div,
                    ;
                } else {
                    assert(pre.open.len() + fr.len() < kk) by (nonlinear_arith)
                        requires
                            pre.open.len() == acc * ch_n,
                            fr.len() == ch_n,
                            kk == self.div * ch_n,
                            acc + 1 < self.div,
                            ch_n > 0,
                    ;
                }
                assert(old(self)@.out + complete_buckets(x, kk, f) + f(pre.open + fr) == old(
                    self,
                )@.out + (complete_buckets(x, kk, f) + f(pre.open + fr)));
            }
            base = base + ch;
            i = i + 1;
        }
        assert(block@.take(base as int) == block@);
    }

    /// Emits the open bucket, however short, as a final peak.
    pub fn finish(&mut self)
        requires
            old(self).wf(),
        ensures
            final(self).wf(),
            final(self)@ == old(self)@.flushed(),
    {
        if self.acc_count > 0 {
            proof {
                assert(self.open@.len() > 0) by (nonlinear_arith)
                    requires
                        self.open@.len() == self.acc_count * self.channels,
                        self.acc_count > 0,
                        self.channels > 0,
                ;
            }
            self.flush_acc();
        } else {
            assert(self.open@.len() == 0) by (nonlinear_arith)
                requires
                    self.open@.len() == self.acc_count * self.channels,
                    self.acc_count == 0,
            ;
            assert(self.open@ =~= Seq::<i16>::empty());
        }
    }

    /// Number of peaks output so far (`channels` records each).
    pub fn peak_count(&self) -> (n: usize)
        requires
            self.wf(),
        ensures
            n == self@.out.len() / self@.channels,
    {
        self.out.len() / self.channels
    }

    /// The output always holds whole peaks of `channels` records.
    pub proof fn lemma_whole_peaks(&self)
        requires
            self.wf(),
        ensures
            self@.out.len() == self@.channels * (self@.out.len() / self@.channels),
    {
        let (n, d) = (self@.out.len() as int, self@.channels as int);
        assert(n == d * (n / d)) by (nonlinear_arith)
            requires
                n % d == 0,
                d > 0,
        ;
    }

    /// The records output so far, peak by peak, channels interleaved.
    pub fn records(&self) -> (r: &Vec<SquareSum>)
        ensures
            r@ == self@.out,
    {
        &self.out
    }
}

/// Feeding a layer two blocks in turn leaves it in the same state as
/// feeding it their concatenation.
pub proof fn lemma_loudness_feed_concat(v: LoudnessView, a: Seq<i16>, b: Seq<i16>)
    ensures
        v.fed(a).fed(b) == v.fed(a + b),
{
    let k = v.bucket_len();
    let f = loud_summary(v.channels);
    lemma_split(v.open + a, b, k, f);
    assert(v.open + a + b == v.open + (a + b));
    assert(v.out + complete_buckets(v.open + a, k, f) + complete_buckets(
        open_tail(v.open + a, k) + b,
        k,
        f,
    ) == v.out + (complete_buckets(v.open + a, k, f) + complete_buckets(
        open_tail(v.open + a, k) + b,
        k,
        f,
    )));
}

/// The `i64` sum of a loudness record never wraps: for a bucket of at most
/// `u32::MAX` frames it is the exact sum of squares, at most `frames * 2^30`.
pub proof fn lemma_loud_peak_exact(b: Seq<i16>, ch: nat, c: nat)
    requires
        c < ch,
        b.len() / ch <= u32::MAX,
    ensures
        loud_peak(b, ch)[c as int].frames == b.len() / ch,
        loud_peak(b, ch)[c as int].sum == sq_sum(b, ch, c, b.len() / ch),
        0 <= sq_sum(b, ch, c, b.len() / ch) <= (b.len() / ch) * 1073741824,
{
    let n = b.len() / ch;
    lemma_sq_bound(b, ch, c, n);
    assert(n * 1073741824 <= 4294967295 * 1073741824) by (nonlinear_arith)
        requires
            n <= 4294967295,
    ;
}

/// A stream of `frames` whole frames yields `frames / div` complete buckets
/// of `channels` records each, and `ceil(frames / div)` once the trailing
/// partial bucket is flushed.
pub proof fn lemma_loudness_peak_count(div: nat, ch: nat, stream: Seq<i16>)
    requires
        div >= 1,
        ch >= 1,
        stream.len() % ch == 0,
    ensures
        LoudnessView::initial(div, ch).fed(stream).out.len() == ch * (stream.len() / ch / div),
        LoudnessView::initial(div, ch).fed(stream).flushed().out.len() == ch * ceil_div(
            stream.len() / ch,
            div,
        ),
{
    let v = LoudnessView::initial(div, ch);
    let f = loud_summary(ch);
    assert(v.open + stream == stream);
    assert forall|b: Seq<i16>| b.len() == div * ch implies #[trigger] f(b).len() == ch by {}
    lemma_frame_bucket_counts(stream, div, ch, f, ch);
    let q = stream.len() / ch / div;
    assert(q * ch + ch == ch * (q + 1) && q * ch == ch * q) by (nonlinear_arith);
}

/// Feeding any number of blocks in turn leaves a layer (whose open bucket is
/// not full) in the same state as feeding their concatenation at once.
pub proof fn lemma_loudness_fed_all(v: LoudnessView, blocks: Seq<Seq<i16>>)
    requires
        v.open.len() < v.bucket_len(),
    ensures
        v.fed_all(blocks) == v.fed(blocks.flatten()),
    decreases blocks.len(),
{
    blocks.lemma_flatten_and_flatten_alt_are_equivalent();
    if blocks.len() == 0 {
        lemma_short(v.open, v.bucket_len(), loud_summary(v.channels));
        assert(v.open + Seq::<i16>::empty() == v.open);
        assert(v.out + Seq::empty() == v.out);
    } else {
        let init = blocks.drop_last();
        lemma_loudness_fed_all(v, init);
        init.lemma_flatten_and_flatten_alt_are_equivalent();
        lemma_loudness_feed_concat(v, init.flatten(), blocks.last());
    }
}

/// Content of the loudness records of a stream of `n` whole frames: before
/// the input ends, record `k * ch + c` (`k < n / div`) is the exact sum of the
/// squares of channel `c` over the frames `[k * div, (k + 1) * div)`, with
/// `div` frames; the frames after the last complete bucket stay open.
/// Finishing appends, when `div` does not divide `n`, one record per channel
/// over those last `n % div` frames.
pub proof fn lemma_loudness_content(div: nat, ch: nat, stream: Seq<i16>)
    requires
        1 <= div <= u32::MAX,
        ch >= 1,
        stream.len() % ch == 0,
    ensures
        ({
            let n = stream.len() / ch;
            let q = n / div;
            let v = LoudnessView::initial(div, ch).fed(stream);
            let w = v.flushed();
            &&& v.out.len() == ch * q
            &&& forall|k: int, c: int|
                0 <= k < q && 0 <= c < ch ==> {
                    let b = stream.subrange(k * div * ch, (k + 1) * div * ch);
                    &&& (#[trigger] v.out[k * ch + c]).frames == div
                    &&& v.out[k * ch + c].sum == sq_sum(b, ch, c as nat, div)
                }
            &&& v.open == stream.skip((q * div * ch) as int)
            &&& w.out.subrange(0, v.out.len() as int) == v.out
            &&& n % div == 0 ==> w.out == v.out
            &&& n % div != 0 ==> {
                &&& w.out.len() == v.out.len() + ch
                &&& forall|c: int|
                    0 <= c < ch ==> {
                        &&& (#[trigger] w.out[q * ch + c]).frames == n % div
                        &&& w.out[q * ch + c].sum == sq_sum(v.open, ch, c as nat, n % div)
                    }
            }
        }),
{
    let n = stream.len() / ch;
    let q = n / div;
    let k = div * ch;
    let f = loud_summary(ch);
    let v = LoudnessView::initial(div, ch).fed(stream);
    let w = v.flushed();
    assert(LoudnessView::initial(div, ch).open + stream == stream);
    assert forall|b: Seq<i16>| b.len() == k implies #[trigger] f(b).len() == ch by {}
    lemma_frame_bucket_counts(stream, div, ch, f, ch);
    assert(k > 0) by (nonlinear_arith)
        requires
            k == div * ch,
            div >= 1,
            ch >= 1,
    ;
    lemma_bucket_counts(stream, k, f, ch);
    let sk = stream.len() / k;
    assert(sk == q) by (nonlinear_arith)
        requires
            sk * ch == q * ch,
            ch >= 1,
    ;
    assert(q * ch == ch * q) by (nonlinear_arith);
    assert forall|kk: int, c: int| 0 <= kk < q && 0 <= c < ch implies {
        let b = stream.subrange(kk * div * ch, (kk + 1) * div * ch);
        &&& (#[trigger] v.out[kk * ch + c]).frames == div
        &&& v.out[kk * ch + c].sum == sq_sum(b, ch, c as nat, div)
    } by {
        assert(kk * k == kk * div * ch && (kk + 1) * k == (kk + 1) * div * ch) by (nonlinear_arith)
            requires
                k == div * ch,
        ;
        assert(0 <= kk * k && (kk + 1) * k <= stream.len()) by (nonlinear_arith)
            requires
                0 <= kk < q,
                q == stream.len() / k,
                k > 0,
        ;
        let b = stream.subrange(kk * div * ch, (kk + 1) * div * ch);
        lemma_bucket_index(stream, k, f, ch, kk, c);
        assert((kk + 1) * div * ch - kk * div * ch == div * ch) by (nonlinear_arith);
        assert(b.len() == k);
        assert(b.len() / ch == div) by {
            vstd::arithmetic::div_mod::lemma_div_multiples_vanish(div as int, ch as int);
            assert(ch * div == div * ch) by (nonlinear_arith);
        }
        assert(v.out == complete_buckets(stream, k, f));
        lemma_loud_peak_exact(b, ch, c as nat);
    }
    lemma_open_tail_skip(stream, k);
    assert((q * k) as int == q * div * ch) by (nonlinear_arith)
        requires
            k == div * ch,
    ;
    assert(w.out.subrange(0, v.out.len() as int) =~= v.out);
    if n % div != 0 {
        let o = v.open;
        assert(o == open_tail(stream, div * ch));
        assert(o.len() == (n % div) * ch);
        assert(o.len() / ch == n % div) by {
            let r = (n % div) as int;
            vstd::arithmetic::div_mod::lemma_div_multiples_vanish(r, ch as int);
            assert(ch * r == r * ch) by (nonlinear_arith);
        }
        assert(n % div < div) by (nonlinear_arith)
            requires
                div >= 1,
        ;
        assert forall|c: int| 0 <= c < ch implies {
            &&& (#[trigger] w.out[q * ch + c]).frames == n % div
            &&& w.out[q * ch + c].sum == sq_sum(o, ch, c as nat, n % div)
        } by {
            lemma_loud_peak_exact(o, ch, c as nat);
        }
    } else {
        assert(v.open.len() == 0);
    }
}

} // verus!
