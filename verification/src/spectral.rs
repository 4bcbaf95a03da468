//! Spectral mipmap: one 32-bit code `freq | density << 15` per peak and
//! channel, computed from a 2048-sample window centred on the peak.
//!
//! Peak centres start at frame 0 and step by `div`; a centre is analysed as
//! soon as the stream reaches `centre + 1024` frames. The window of a centre
//! covers frames `[max(0, centre - 1024), centre + 1024)` of one channel (it is
//! shorter at the very start of the stream). To cut windows that straddle
//! block boundaries, the layer keeps the last 2048 frames it has seen.
//!
//! The layer schedules windows and keeps the codes; the code of a window is a
//! floating-point spectral analysis done by the caller, whose results are
//! appended with [`SpectralLayer::record_codes`].
use vstd::prelude::*;

verus! {

/// Half of the window length.
pub const HALF_FFT: u64 = 1024;

/// Window length.
pub const FFT_LEN: usize = 2048;

/// Abstract state of a spectral layer.
pub struct SpectralView {
    pub div: nat,
    pub channels: nat,
    pub sample_rate: nat,
    /// Next peak centre (absolute frame).
    pub next_center: nat,
    /// The most recent frames seen (at most 2048), interleaved.
    pub hist: Seq<i16>,
    /// Codes recorded so far, peak by peak, channels interleaved.
    pub out: Seq<i32>,
}

/// The last `min(x.len(), k)` elements of `x`.
pub open spec fn recent(x: Seq<i16>, k: nat) -> Seq<i16> {
    if x.len() < k {
        x
    } else {
        x.skip(x.len() - k)
    }
}

/// Number of centres `nc, nc + div, ...` that a stream of `t` frames has
/// reached (a centre is reached at `centre + 1024` frames).
pub open spec fn reached(t: nat, nc: nat, div: nat) -> nat {
    if nc + 1024 > t {
        0
    } else {
        ((t - 1024 - nc) / (div as int) + 1) as nat
    }
}

/// First frame of the window of `center`.
pub open spec fn win_start(center: nat) -> nat {
    if center >= 1024 {
        (center - 1024) as nat
    } else {
        0
    }
}

impl SpectralView {
    /// Frames held in the history.
    pub open spec fn hist_frames(self) -> nat {
        self.hist.len() / self.channels
    }

    /// First absolute frame visible through the history when a block starts at `start`.
    pub open spec fn base(self, start: nat) -> nat {
        if start >= self.hist_frames() {
            (start - self.hist_frames()) as nat
        } else {
            0
        }
    }

    /// Sample of channel `c` at absolute frame `abs`, read from the history
    /// (frames before `start`) or from `block`.
    pub open spec fn sample(self, block: Seq<i16>, start: nat, abs: nat, c: nat) -> i16 {
        if abs < start {
            self.hist[(abs - self.base(start)) * self.channels + c]
        } else {
            block[(abs - start) * self.channels + c]
        }
    }

    /// Window of channel `c` around `center`.
    pub open spec fn window(self, block: Seq<i16>, start: nat, center: nat, c: nat) -> Seq<i16> {
        let s0 = win_start(center);
        Seq::new((center + 1024 - s0) as nat, |i: int| self.sample(block, start, (s0 + i) as nat, c))
    }

    /// Windows of all channels around `center` (none when the window would
    /// start before the visible frames).
    pub open spec fn center_windows(self, block: Seq<i16>, start: nat, center: nat) -> Seq<Seq<i16>> {
        if win_start(center) < self.base(start) {
            Seq::empty()
        } else {
            Seq::new(self.channels, |c: int| self.window(block, start, center, c as nat))
        }
    }

    /// Windows of the centres `nc, nc + div, ...` that the stream has reached
    /// at frame `total`.
    pub open spec fn windows_from(self, block: Seq<i16>, start: nat, total: nat, nc: nat) -> Seq<Seq<i16>>
        decreases if nc > total { 0 } else { total - nc },
    {
        if self.div == 0 || nc + 1024 > total {
            Seq::empty()
        } else {
            self.center_windows(block, start, nc) + self.windows_from(block, start, total, nc + self.div)
        }
    }

    /// First centre from `nc` on (in steps of `div`) that the stream has not reached at frame `total`.
    pub open spec fn stop_center(self, total: nat, nc: nat) -> nat
        decreases if nc > total { 0 } else { total - nc },
    {
        if self.div == 0 || nc + 1024 > total {
            nc
        } else {
            self.stop_center(total, nc + self.div)
        }
    }

    /// Frames in `block`.
    pub open spec fn block_frames(self, block: Seq<i16>) -> nat {
        block.len() / self.channels
    }

    /// Windows to analyse when `block` (whole frames) starting at frame `start` arrives.
    pub open spec fn windows_for(self, block: Seq<i16>, start: nat) -> Seq<Seq<i16>> {
        if self.block_frames(block) == 0 {
            Seq::empty()
        } else {
            self.windows_from(block, start, start + self.block_frames(block), self.next_center)
        }
    }

    /// The state after `block` starting at frame `start` has been consumed.
    pub open spec fn fed(self, block: Seq<i16>, start: nat) -> SpectralView {
        if self.block_frames(block) == 0 {
            self
        } else {
            SpectralView {
                next_center: self.stop_center(start + self.block_frames(block), self.next_center),
                hist: recent(self.hist + block, 2048 * self.channels),
                ..self
            }
        }
    }

    /// The empty layer.
    pub open spec fn initial(div: nat, channels: nat, sample_rate: nat) -> SpectralView {
        SpectralView {
            div,
            channels,
            sample_rate,
            next_center: 0,
            hist: Seq::empty(),
            out: Seq::empty(),
        }
    }
}

/// Single spectral mipmap accumulator.
pub struct SpectralLayer {
    div: u32,
    channels: usize,
    sample_rate: u32,
    /// Next peak centre (absolute frame).
    next_center: u64,
    /// The last (at most 2048) frames seen; `None` before the first block.
    hist: Option<Vec<i16>>,
    /// Codes recorded so far, peak by peak, channels interleaved.
    out: Vec<i32>,
}

/// The history as a sequence (empty when there is none).
pub open spec fn hist_seq(h: Option<Vec<i16>>) -> Seq<i16> {
    match h {
        Some(v) => v@,
        None => Seq::empty(),
    }
}

impl View for SpectralLayer {
    type V = SpectralView;

    closed spec fn view(&self) -> SpectralView {
        SpectralView {
            div: self.div as nat,
            channels: self.channels as nat,
            sample_rate: self.sample_rate as nat,
            next_center: self.next_center as nat,
            hist: hist_seq(self.hist),
            out: self.out@,
        }
    }
}

impl SpectralLayer {
    /// Well-formedness: positive division factor and channel count.
    pub closed spec fn wf(&self) -> bool {
        &&& self.div >= 1
        &&& self.channels >= 1
        &&& self.channels <= usize::MAX / 4096
    }

    /// New layer with division factor `div` (>= 1) for `channels` (>= 1)
    /// channels of a stream at `sample_rate`.
    pub fn new(div: u32, channels: usize, sample_rate: u32) -> (l: SpectralLayer)
        requires
            div >= 1,
            channels >= 1,
            channels <= usize::MAX / 4096,
        ensures
            l.wf(),
            l@ == SpectralView::initial(div as nat, channels as nat, sample_rate as nat),
    {
        SpectralLayer {
            div,
            channels,
            sample_rate,
            next_center: 0,
            hist: None,
            out: Vec::new(),
        }
    }

    /// Bounds of the parameters of a well-formed layer.
    pub proof fn lemma_view_bounds(&self)
        requires
            self.wf(),
        ensures
            1 <= self@.div <= u32::MAX,
            1 <= self@.channels <= usize::MAX / 4096,
    {
    }

    /// Division factor of this layer.
    pub fn div(&self) -> (d: u32)
        ensures
            d == self@.div,
    {
        self.div
    }

    /// Sample rate of the stream, used by the spectral analysis.
    pub fn sample_rate(&self) -> (r: u32)
        ensures
            r == self@.sample_rate,
    {
        self.sample_rate
    }

    /// Copies the window of channel `c` around `center`.
    fn cut_window(
        &self,
        block: &[i16],
        start: u64,
        base: u64,
        center: u64,
        c: usize,
    ) -> (w: Vec<i16>)
        requires
            self.wf(),
            c < self.channels,
            base == self@.base(start as nat),
            win_start(center as nat) >= base,
            center + 1024 <= start + self@.block_frames(block@),
            center + 1024 <= u64::MAX,
        ensures
            w@ == self@.window(block@, start as nat, center as nat, c as nat),
    {
        let ch = self.channels;
        let s0: u64 = if center >= 1024 {
            center - 1024
        } else {
            0
        };
        let s1: u64 = center + 1024;
        let ghost v = self@;
        let ghost spec_w = v.window(block@, start as nat, center as nat, c as nat);
        let mut w: Vec<i16> = Vec::new();
        let mut abs: u64 = s0;
        while abs < s1
            invariant
                self.wf(),
                v == self@,
                ch == self.channels,
                c < ch,
                s0 == win_start(center as nat),
                s1 == center + 1024,
                s0 <= abs <= s1,
                base == v.base(start as nat),
                s0 >= base,
                s1 <= start + v.block_frames(block@),
                spec_w == v.window(block@, start as nat, center as nat, c as nat),
                w@ == spec_w.take(abs - s0),
            decreases s1 - abs,
        {
            let x: i16;
            if abs < start {
                let ghost hf = v.hist_frames();
                proof {
                    if start >= hf {
                        assert(abs - base < hf);
                    } else {
                        assert(base == 0);
                        assert(abs < hf);
                    }
                    let r = (abs - base) as nat;
                    assert(r * ch + c < hf * ch) by (nonlinear_arith)
                        requires
                            r < hf,
                            c < ch,
                    ;
                    assert(hf * ch <= v.hist.len()) by (nonlinear_arith)
                        requires
                            hf == v.hist.len() / (ch as nat),
                            ch > 0,
                    ;
                }
                match &self.hist {
                    Some(h) => {
                        let hl = h.len();
                        proof {
                            assert(hl == v.hist.len());
                            assert((abs - base) * ch + c < hl);
                        }
                        let idx = (abs - base) as usize;
                        x = h[idx * ch + c];
                    },
                    None => {
                        proof {
                            assert(v.hist.len() == 0);
                            assert(false);
                        }
                        x = 0;
                    },
                }
            } else {
                let ghost nb = v.block_frames(block@);
                proof {
                    let r = (abs - start) as nat;
                    assert(r < nb);
                    assert(r * ch + c < nb * ch) by (nonlinear_arith)
                        requires
                            r < nb,
                            c < ch,
                    ;
                    assert(nb * ch <= block@.len()) by (nonlinear_arith)
                        requires
                            nb == block@.len() / (ch as nat),
                            ch > 0,
                    ;
                }
                let blen = block.len();
                assert((abs - start) * ch + c < blen);
                let idx = (abs - start) as usize;
                x = block[idx * ch + c];
            }
            proof {
                assert(spec_w[abs - s0] == x);
                assert(spec_w.take(abs - s0 + 1) == spec_w.take(abs - s0) + seq![x]);
            }
            w.push(x);
            abs = abs + 1;
        }
        assert(spec_w.take(s1 - s0) == spec_w);
        w
    }

    /// Consumes a block of whole frames whose first frame is the absolute
    /// frame `block_start_frame`, and returns the windows of every peak centre
    /// the stream has now reached (centre by centre, channels interleaved).
    /// Their codes are to be recorded with [`SpectralLayer::record_codes`].
    pub fn feed(&mut self, block: &[i16], block_start_frame: u64) -> (windows: Vec<Vec<i16>>)
        requires
            old(self).wf(),
            block@.len() as int % (old(self)@.channels as int) == 0,
            old(self)@.next_center + old(self)@.div + 1024 <= u64::MAX,
            block_start_frame + old(self)@.block_frames(block@) + old(self)@.div + 1024 <= u64::MAX,
        ensures
            final(self).wf(),
            windows_view(windows@) == old(self)@.windows_for(block@, block_start_frame as nat),
            final(self)@ == old(self)@.fed(block@, block_start_frame as nat),
    {
        let ch = self.channels;
        let n_frames = (block.len() / ch) as u64;
        let mut windows: Vec<Vec<i16>> = Vec::new();
        let ghost v0 = self@;
        if n_frames == 0 {
            assert(windows_view(windows@) =~= Seq::<Seq<i16>>::empty());
            return windows;
        }
        let hist_frames: u64 = match &self.hist {
            Some(h) => (h.len() / ch) as u64,
            None => 0,
        };
        let base: u64 = if block_start_frame >= hist_frames {
            block_start_frame - hist_frames
        } else {
            0
        };
        let total_after = block_start_frame + n_frames;
        let div = self.div as u64;
        let ghost total = total_after as nat;
        let ghost all = v0.windows_from(block@, block_start_frame as nat, total, v0.next_center);
        let ghost stop = v0.stop_center(total, v0.next_center);
        assert(windows_view(windows@) =~= Seq::<Seq<i16>>::empty());
        while self.next_center + 1024 <= total_after
            invariant
                self.wf(),
                ch == self.channels,
                div == self.div,
                self.div == v0.div,
                self.channels == v0.channels,
                self.sample_rate == v0.sample_rate,
                self.hist == old(self).hist,
                self.out == old(self).out,
                v0 == old(self)@,
                hist_seq(self.hist) == v0.hist,
                base == v0.base(block_start_frame as nat),
                total == total_after,
                total_after == block_start_frame + v0.block_frames(block@),
                block_start_frame + v0.block_frames(block@) + v0.div + 1024 <= u64::MAX,
                self.next_center + 1024 <= u64::MAX,
                windows_view(windows@) + v0.windows_from(block@, block_start_frame as nat, total, self.next_center as nat) == all,
                v0.stop_center(total, self.next_center as nat) == stop,
            decreases total_after + div - self.next_center,
        {
            let center = self.next_center;
            let s0: u64 = if center >= 1024 {
                center - 1024
            } else {
                0
            };
            let ghost before = windows_view(windows@);
            if s0 >= base {
                let mut c: usize = 0;
                while c < ch
                    invariant
                        self.wf(),
                        ch == self.channels,
                        self@ == (SpectralView { next_center: center as nat, ..v0 }),
                        base == v0.base(block_start_frame as nat),
                        win_start(center as nat) >= base,
                        center + 1024 <= total_after,
                        total_after == block_start_frame + v0.block_frames(block@),
                        total_after <= u64::MAX,
                        c <= ch,
                        windows_view(windows@) == before + v0.center_windows(block@, block_start_frame as nat, center as nat).take(c as int),
                    decreases ch - c,
                {
                    let w = self.cut_window(block, block_start_frame, base, center, c);
                    let ghost cw = v0.center_windows(block@, block_start_frame as nat, center as nat);
                    windows.push(w);
                    proof {
                        assert(cw[c as int] == w@);
                        assert(cw.take(c + 1) == cw.take(c as int) + seq![w@]);
                        assert(windows_view(windows@) =~= before + cw.take(c as int) + seq![w@]);
                    }
                    c += 1;
                }
                assert(v0.center_windows(block@, block_start_frame as nat, center as nat).take(ch as int) == v0.center_windows(block@, block_start_frame as nat, center as nat));
            } else {
                assert(v0.center_windows(block@, block_start_frame as nat, center as nat) == Seq::<Seq<i16>>::empty());
                assert(before + Seq::<Seq<i16>>::empty() == before);
            }
            proof {
                let cw = v0.center_windows(block@, block_start_frame as nat, center as nat);
                let rest = v0.windows_from(block@, block_start_frame as nat, total, (center + div) as nat);
                assert(v0.windows_from(block@, block_start_frame as nat, total, center as nat) == cw + rest);
                assert(before + (cw + rest) == before + cw + rest);
            }
            self.next_center = center + div;
        }
        assert(v0.windows_from(block@, block_start_frame as nat, total, self.next_center as nat) == Seq::<Seq<i16>>::empty());
        assert(windows_view(windows@) + Seq::<Seq<i16>>::empty() == windows_view(windows@));
        // Keep the most recent (at most 2048) frames of history followed by the block.
        let mut stream: Vec<i16> = Vec::new();
        match &self.hist {
            Some(h) => {
                let hl = h.len();
                let mut i: usize = 0;
                while i < hl
                    invariant
                        hl == h@.len(),
                        i <= hl,
                        stream@ == h@.take(i as int),
                    decreases hl - i,
                {
                    stream.push(h[i]);
                    i += 1;
                    assert(h@.take(i as int) == h@.take(i - 1) + seq![h@[i - 1]]);
                }
                assert(h@.take(hl as int) == h@);
            },
            None => {},
        }
        let bl = block.len();
        let ghost sh = stream@;
        let mut i: usize = 0;
        while i < bl
            invariant
                bl == block@.len(),
                i <= bl,
                stream@ == sh + block@.take(i as int),
            decreases bl - i,
        {
            stream.push(block[i]);
            i += 1;
            assert(block@.take(i as int) == block@.take(i - 1) + seq![block@[i - 1]]);
        }
        assert(block@.take(bl as int) == block@);
        let sl = stream.len();
        let cap = FFT_LEN * ch;
        let keep = if sl < cap {
            sl
        } else {
            cap
        };
        let mut h2: Vec<i16> = Vec::new();
        let mut j: usize = sl - keep;
        while j < sl
            invariant
                sl == stream@.len(),
                keep <= sl,
                sl - keep <= j <= sl,
                h2@ == stream@.subrange(sl - keep, j as int),
            decreases sl - j,
        {
            h2.push(stream[j]);
            j += 1;
            assert(stream@.subrange(sl - keep, j as int) == stream@.subrange(sl - keep, j - 1) + seq![stream@[j - 1]]);
        }
        assert(stream@.subrange(sl - keep, sl as int) == stream@.skip(sl - keep));
        proof {
            if sl < cap {
                assert(stream@.skip(0) == stream@);
            }
            assert(stream@ == v0.hist + block@);
            assert(h2@ == recent(v0.hist + block@, 2048 * v0.channels));
        }
        self.hist = Some(h2);
        windows
    }

    /// Appends the codes of analysed windows, in window order.
    pub fn record_codes(&mut self, codes: &[i32])
        requires
            old(self).wf(),
        ensures
            final(self).wf(),
            final(self)@ == (SpectralView { out: old(self)@.out + codes@, ..old(self)@ }),
    {
        let n = codes.len();
        let ghost out0 = self.out@;
        let mut i: usize = 0;
        while i < n
            invariant
                self.wf(),
                n == codes@.len(),
                i <= n,
                self.div == old(self).div,
                self.channels == old(self).channels,
                self.sample_rate == old(self).sample_rate,
                self.next_center == old(self).next_center,
                self.hist == old(self).hist,
                out0 == old(self).out@,
                self.out@ == out0 + codes@.take(i as int),
            decreases n - i,
        {
            self.out.push(codes[i]);
            i += 1;
            assert(codes@.take(i as int) == codes@.take(i - 1) + seq![codes@[i - 1]]);
        }
        assert(codes@.take(n as int) == codes@);
    }

    /// Ends the input. Nothing is pending: codes are only produced for
    /// windows the stream has fully reached.
    pub fn finish(&mut self)
        ensures
            final(self)@ == old(self)@,
            final(self).wf() == old(self).wf(),
    {
    }

    /// Number of peaks recorded so far.
    pub fn peak_count(&self) -> (n: usize)
        requires
            self.wf(),
        ensures
            n == self@.out.len() / self@.channels,
    {
        self.out.len() / self.channels
    }

    /// The codes recorded so far, as little-endian bytes.
    pub fn bytes(&self) -> (b: Vec<u8>)
        ensures
            b@ == i32_seq_le(self@.out),
    {
        let n = self.out.len();
        let mut b: Vec<u8> = Vec::new();
        let mut i: usize = 0;
        while i < n
            invariant
                n == self.out@.len(),
                i <= n,
                b@ == i32_seq_le(self.out@.take(i as int)),
            decreases n - i,
        {
            crate::format::push_u32_le(&mut b, crate::format::i32_to_bits(self.out[i]));
            i += 1;
            assert(self.out@.take(i as int).drop_last() == self.out@.take(i - 1));
        }
        assert(self.out@.take(n as int) == self.out@);
        b
    }
}

/// Spectral code of a window: the frequency (Hz) in the low 15 bits and the
/// density above it.
pub fn pack_code(freq: u16, density: u16) -> (code: i32)
    requires
        freq <= 0x7FFF,
        density <= 0x3FFF,
    ensures
        code == density * 32768 + freq,
        0 <= code < 0x2000_0000,
{
    density as i32 * 32768 + freq as i32
}

/// The contents of a list of windows.
pub open spec fn windows_view(ws: Seq<Vec<i16>>) -> Seq<Seq<i16>> {
    Seq::new(ws.len(), |i: int| ws[i]@)
}

/// Little-endian bytes of a sequence of signed 32-bit values.
pub open spec fn i32_seq_le(s: Seq<i32>) -> Seq<u8>
    decreases s.len(),
{
    if s.len() == 0 {
        Seq::empty()
    } else {
        i32_seq_le(s.drop_last()) + crate::format::i32_le(s.last())
    }
}


impl SpectralView {
    /// Whether the layer has consumed exactly the stream `s` (whole frames,
    /// delivered in order from frame 0 on).
    pub open spec fn consistent(self, s: Seq<i16>) -> bool {
        &&& self.div >= 1
        &&& self.channels >= 1
        &&& s.len() as int % (self.channels as int) == 0
        &&& self.hist == recent(s, 2048 * self.channels)
        &&& self.next_center == self.stop_center(s.len() / self.channels, 0)
    }

    /// Window of channel `c` around `center`, read from the stream `x`.
    pub open spec fn stream_window(self, x: Seq<i16>, center: nat, c: nat) -> Seq<i16> {
        let s0 = win_start(center);
        Seq::new((center + 1024 - s0) as nat, |i: int| x[(s0 + i) * self.channels + c])
    }

    /// The layer has consumed exactly the stream `s` and holds the code
    /// `code(w)` of every window `w` released so far, in order.
    pub open spec fn coded(self, s: Seq<i16>, code: spec_fn(Seq<i16>) -> i32) -> bool {
        &&& self.consistent(s)
        &&& self.out == self.stream_windows_from(s, s.len() / self.channels, 0).map_values(code)
    }

    /// Windows of the stream `x` around the centres `nc, nc + div, ...` that a
    /// stream of `total` frames has reached.
    pub open spec fn stream_windows_from(self, x: Seq<i16>, total: nat, nc: nat) -> Seq<Seq<i16>>
        decreases if nc > total { 0 } else { total - nc },
    {
        if self.div == 0 || nc + 1024 > total {
            Seq::empty()
        } else {
            Seq::new(self.channels, |c: int| self.stream_window(x, nc, c as nat))
                + self.stream_windows_from(x, total, nc + self.div)
        }
    }
}


/// Whole frames add up: for sample counts that are multiples of `ch`, so is
/// their sum, and its frame count is the sum of theirs.
pub proof fn lemma_frames_add(a: nat, b: nat, ch: nat)
    requires
        ch > 0,
        a as int % (ch as int) == 0,
        b as int % (ch as int) == 0,
    ensures
        (a + b) as int % (ch as int) == 0,
        (a + b) / ch == a / ch + b / ch,
        a == (a / ch) * ch,
{
    vstd::arithmetic::div_mod::lemma_fundamental_div_mod(a as int, ch as int);
    vstd::arithmetic::div_mod::lemma_fundamental_div_mod(b as int, ch as int);
    let qa = a as int / ch as int;
    let qb = b as int / ch as int;
    assert(a + b == (qa + qb) * ch) by (nonlinear_arith)
        requires
            a == ch * qa,
            b == ch * qb,
    ;
    assert(a == qa * ch) by (nonlinear_arith)
        requires
            a == ch * qa,
    ;
    vstd::arithmetic::div_mod::lemma_mod_multiples_basic(qa + qb, ch as int);
    vstd::arithmetic::div_mod::lemma_div_multiples_vanish(qa + qb, ch as int);
    assert(ch * (qa + qb) == (qa + qb) * ch) by (nonlinear_arith);
}

/// The stop centre depends only on the division factor.
pub proof fn lemma_stop_same(v1: SpectralView, v2: SpectralView, t: nat, nc: nat)
    requires
        v1.div == v2.div,
    ensures
        v1.stop_center(t, nc) == v2.stop_center(t, nc),
    decreases if nc > t { 0 } else { t - nc },
{
    if !(v1.div == 0 || nc + 1024 > t) {
        lemma_stop_same(v1, v2, t, nc + v1.div);
    }
}

proof fn lemma_stream_windows_same(v1: SpectralView, v2: SpectralView, x: Seq<i16>, t: nat, nc: nat)
    requires
        v1.div == v2.div,
        v1.channels == v2.channels,
    ensures
        v1.stream_windows_from(x, t, nc) == v2.stream_windows_from(x, t, nc),
    decreases if nc > t { 0 } else { t - nc },
{
    if !(v1.div == 0 || nc + 1024 > t) {
        lemma_stream_windows_same(v1, v2, x, t, nc + v1.div);
        assert(Seq::new(v1.channels, |c: int| v1.stream_window(x, nc, c as nat)) =~= Seq::new(v2.channels, |c: int| v2.stream_window(x, nc, c as nat)));
    }
}

/// The stop centre is past the stream.
pub proof fn lemma_stop_past(v: SpectralView, t: nat, nc: nat)
    requires
        v.div >= 1,
    ensures
        v.stop_center(t, nc) + 1024 > t,
        v.stop_center(t, nc) >= nc,
    decreases if nc > t { 0 } else { t - nc },
{
    if nc + 1024 <= t {
        lemma_stop_past(v, t, nc + v.div);
    }
}

/// The stop centre is at most one step past the stream.
pub proof fn lemma_stop_bound(v: SpectralView, t: nat, nc: nat)
    requires
        v.div >= 1,
        nc <= t + v.div,
    ensures
        v.stop_center(t, nc) <= t + v.div,
    decreases if nc > t { 0 } else { t - nc },
{
    if nc + 1024 <= t {
        lemma_stop_bound(v, t, nc + v.div);
    }
}

/// Stopping at `t1` and then going on to `t2` stops where going to `t2` directly does.
pub proof fn lemma_stop_twice(v: SpectralView, t1: nat, t2: nat, nc: nat)
    requires
        t1 <= t2,
    ensures
        v.stop_center(t2, v.stop_center(t1, nc)) == v.stop_center(t2, nc),
    decreases if nc > t1 { 0 } else { t1 - nc },
{
    if !(v.div == 0 || nc + 1024 > t1) {
        lemma_stop_twice(v, t1, t2, nc + v.div);
    }
}

proof fn lemma_stream_windows_split(v: SpectralView, x: Seq<i16>, t1: nat, t2: nat, nc: nat)
    requires
        t1 <= t2,
    ensures
        v.stream_windows_from(x, t2, nc) == v.stream_windows_from(x, t1, nc) + v.stream_windows_from(
            x,
            t2,
            v.stop_center(t1, nc),
        ),
    decreases if nc > t1 { 0 } else { t1 - nc },
{
    if v.div == 0 || nc + 1024 > t1 {
        assert(Seq::<Seq<i16>>::empty() + v.stream_windows_from(x, t2, nc) == v.stream_windows_from(x, t2, nc));
    } else {
        lemma_stream_windows_split(v, x, t1, t2, nc + v.div);
        let w = Seq::new(v.channels, |c: int| v.stream_window(x, nc, c as nat));
        assert(w + v.stream_windows_from(x, t1, nc + v.div) + v.stream_windows_from(x, t2, v.stop_center(t1, nc + v.div))
            == w + (v.stream_windows_from(x, t1, nc + v.div) + v.stream_windows_from(x, t2, v.stop_center(t1, nc + v.div))));
    }
}

proof fn lemma_stream_windows_prefix(v: SpectralView, x: Seq<i16>, y: Seq<i16>, t: nat, nc: nat)
    requires
        t * v.channels <= x.len(),
    ensures
        v.stream_windows_from(x + y, t, nc) == v.stream_windows_from(x, t, nc),
    decreases if nc > t { 0 } else { t - nc },
{
    if !(v.div == 0 || nc + 1024 > t) {
        lemma_stream_windows_prefix(v, x, y, t, nc + v.div);
        let ch = v.channels;
        assert forall|c: int| 0 <= c < ch implies #[trigger] v.stream_window(x + y, nc, c as nat) == v.stream_window(x, nc, c as nat) by {
            let s0 = win_start(nc);
            assert forall|i: int| 0 <= i < nc + 1024 - s0 implies #[trigger] v.stream_window(x + y, nc, c as nat)[i] == v.stream_window(x, nc, c as nat)[i] by {
                let a = s0 + i;
                assert(a * ch + c < t * ch) by (nonlinear_arith)
                    requires
                        a < t,
                        0 <= c < ch,
                ;
            }
            assert(v.stream_window(x + y, nc, c as nat) =~= v.stream_window(x, nc, c as nat));
        }
        assert(Seq::new(ch, |c: int| v.stream_window(x + y, nc, c as nat)) =~= Seq::new(ch, |c: int| v.stream_window(x, nc, c as nat)));
    }
}

proof fn lemma_recent_twice(x: Seq<i16>, y: Seq<i16>, k: nat)
    ensures
        recent(recent(x, k) + y, k) == recent(x + y, k),
{
    let r = recent(x, k);
    if (r + y).len() < k {
        if x.len() >= k {
            assert(false);
        }
        assert(r == x);
    } else if x.len() < k {
        assert(r == x);
    } else {
        assert(recent(r + y, k) =~= recent(x + y, k));
    }
}

/// Frames `base..` of a stream of `t` frames are held by the history of a consistent layer.
proof fn lemma_window_matches(v: SpectralView, s: Seq<i16>, block: Seq<i16>, nc: nat, c: nat)
    requires
        v.consistent(s),
        block.len() as int % (v.channels as int) == 0,
        c < v.channels,
        nc + 1024 > s.len() / v.channels,
        nc + 1024 <= s.len() / v.channels + v.block_frames(block),
    ensures
        win_start(nc) >= v.base(s.len() / v.channels),
        v.window(block, s.len() / v.channels, nc, c) == v.stream_window(s + block, nc, c),
{
    let ch = v.channels;
    let t = s.len() / ch;
    let nb = v.block_frames(block);
    assert(s.len() == t * ch) by (nonlinear_arith)
        requires
            s.len() as int % (ch as int) == 0,
            t == s.len() / ch,
            ch > 0,
    ;
    assert(block.len() == nb * ch) by (nonlinear_arith)
        requires
            block.len() as int % (ch as int) == 0,
            nb == block.len() / ch,
            ch > 0,
    ;
    let m: nat = if t < 2048 { t } else { 2048 };
    assert(m * ch <= t * ch) by (nonlinear_arith)
        requires
            m <= t,
    ;
    assert(v.hist.len() == m * ch) by {
        if t < 2048 {
            assert(s.len() < 2048 * ch) by (nonlinear_arith)
                requires
                    s.len() == t * ch,
                    t < 2048,
                    ch > 0,
            ;
        } else {
            assert(s.len() >= 2048 * ch) by (nonlinear_arith)
                requires
                    s.len() == t * ch,
                    t >= 2048,
            ;
        }
    }
    assert(v.hist_frames() == m) by (nonlinear_arith)
        requires
            v.hist.len() == m * ch,
            ch > 0,
            v.hist_frames() == v.hist.len() / ch,
    ;
    let base = v.base(t);
    assert(base == t - m);
    assert(v.hist =~= s.skip((base * ch) as int)) by {
        assert((t - m) * ch == t * ch - m * ch) by (nonlinear_arith);
    }
    let s0 = win_start(nc);
    let w1 = v.window(block, t, nc, c);
    let w2 = v.stream_window(s + block, nc, c);
    assert forall|i: int| 0 <= i < w1.len() implies #[trigger] w1[i] == w2[i] by {
        let abs = (s0 + i) as nat;
        if abs < t {
            assert((abs - base) * ch + c + base * ch == abs * ch + c) by (nonlinear_arith)
                requires
                    abs >= base,
            ;
            assert(abs * ch + c < t * ch) by (nonlinear_arith)
                requires
                    abs < t,
                    c < ch,
            ;
            assert((abs - base) * ch + c < m * ch) by (nonlinear_arith)
                requires
                    abs - base < m,
                    c < ch,
            ;
        } else {
            assert((abs - t) * ch + c + t * ch == abs * ch + c) by (nonlinear_arith)
                requires
                    abs >= t,
            ;
            assert((abs - t) * ch + c < nb * ch) by (nonlinear_arith)
                requires
                    abs - t < nb,
                    c < ch,
            ;
        }
    }
    assert(w1 =~= w2);
}

proof fn lemma_windows_from_stream(v: SpectralView, s: Seq<i16>, block: Seq<i16>, nc: nat)
    requires
        v.consistent(s),
        block.len() as int % (v.channels as int) == 0,
        nc + 1024 > s.len() / v.channels,
    ensures
        v.windows_from(block, s.len() / v.channels, s.len() / v.channels + v.block_frames(block), nc)
            == v.stream_windows_from(s + block, s.len() / v.channels + v.block_frames(block), nc),
    decreases if nc > s.len() / v.channels + v.block_frames(block) { 0 } else { s.len() / v.channels + v.block_frames(block) - nc },
{
    let t = s.len() / v.channels;
    let total = t + v.block_frames(block);
    if !(v.div == 0 || nc + 1024 > total) {
        lemma_windows_from_stream(v, s, block, nc + v.div);
        assert forall|c: int| 0 <= c < v.channels implies #[trigger] v.window(block, t, nc, c as nat) == v.stream_window(s + block, nc, c as nat) by {
            lemma_window_matches(v, s, block, nc, c as nat);
        }
        lemma_window_matches(v, s, block, nc, 0);
        assert(v.center_windows(block, t, nc) =~= Seq::new(v.channels, |c: int| v.stream_window(s + block, nc, c as nat)));
    }
}

/// A consistent layer fed the next block stays consistent, and the windows
/// it returns are those of the whole stream around the newly reached centres.
pub proof fn lemma_spectral_feed_consistent(v: SpectralView, s: Seq<i16>, block: Seq<i16>)
    requires
        v.consistent(s),
        block.len() as int % (v.channels as int) == 0,
    ensures
        v.fed(block, s.len() / v.channels).consistent(s + block),
        v.windows_for(block, s.len() / v.channels) == v.stream_windows_from(
            s + block,
            (s + block).len() / v.channels,
            v.next_center,
        ),
        v.fed(block, s.len() / v.channels).next_center == v.stop_center((s + block).len() / v.channels, v.next_center),
{
    let ch = v.channels;
    let t = s.len() / ch;
    let nb = v.block_frames(block);
    lemma_frames_add(s.len(), block.len(), ch);
    lemma_stop_past(v, t, 0);
    lemma_stop_twice(v, t, t + nb, 0);
    if nb == 0 {
        assert(block.len() == 0) by (nonlinear_arith)
            requires
                block.len() as int % (ch as int) == 0,
                nb == block.len() / ch,
                nb == 0,
                ch > 0,
        ;
        assert(s + block =~= s);
        assert(v.stop_center(t, v.next_center) == v.next_center);
    } else {
        lemma_recent_twice(s, block, 2048 * ch);
        lemma_windows_from_stream(v, s, block, v.next_center);
    }
    lemma_stop_same(v.fed(block, t), v, t + nb, 0);
}

/// Feeding a layer two blocks in turn leaves it in the same state as feeding
/// it their concatenation.
pub proof fn lemma_spectral_fed_concat(v: SpectralView, a: Seq<i16>, b: Seq<i16>, start: nat)
    requires
        v.channels >= 1,
        a.len() as int % (v.channels as int) == 0,
        b.len() as int % (v.channels as int) == 0,
    ensures
        v.fed(a, start).fed(b, start + v.block_frames(a)) == v.fed(a + b, start),
{
    let ch = v.channels;
    let na = v.block_frames(a);
    let nb = v.block_frames(b);
    lemma_frames_add(a.len(), b.len(), ch);
    if na == 0 {
        assert(a.len() == 0) by (nonlinear_arith)
            requires
                a.len() as int % (ch as int) == 0,
                na == a.len() / ch,
                na == 0,
                ch > 0,
        ;
        assert(a + b =~= b);
    } else if nb == 0 {
        assert(b.len() == 0) by (nonlinear_arith)
            requires
                b.len() as int % (ch as int) == 0,
                nb == b.len() / ch,
                nb == 0,
                ch > 0,
        ;
        assert(a + b =~= a);
    } else {
        lemma_stop_twice(v, start + na, start + na + nb, v.next_center);
        lemma_stop_same(v.fed(a, start), v, start + na + nb, v.stop_center(start + na, v.next_center));
        lemma_recent_twice(v.hist + a, b, 2048 * ch);
        assert(v.hist + a + b == v.hist + (a + b));
    }
}

/// The windows returned for two blocks in turn are the windows returned for
/// their concatenation, when the layer has consumed the stream before them
/// in order.
pub proof fn lemma_spectral_windows_concat(v: SpectralView, s: Seq<i16>, a: Seq<i16>, b: Seq<i16>)
    requires
        v.consistent(s),
        a.len() as int % (v.channels as int) == 0,
        b.len() as int % (v.channels as int) == 0,
    ensures
        v.windows_for(a, s.len() / v.channels) + v.fed(a, s.len() / v.channels).windows_for(
            b,
            (s + a).len() / v.channels,
        ) == v.windows_for(a + b, s.len() / v.channels),
{
    let ch = v.channels;
    let t = s.len() / ch;
    let va = v.fed(a, t);
    lemma_spectral_feed_consistent(v, s, a);
    lemma_spectral_feed_consistent(va, s + a, b);
    assert(s + a + b == s + (a + b));
    lemma_frames_add(a.len(), b.len(), ch);
    lemma_spectral_feed_consistent(v, s, a + b);
    let ta = (s + a).len() / ch;
    let tab = (s + a + b).len() / ch;
    assert(ta <= tab) by (nonlinear_arith)
        requires
            ta == (s + a).len() / ch,
            tab == (s + a + b).len() / ch,
            (s + a).len() <= (s + a + b).len(),
            ch > 0,
    ;
    lemma_stream_windows_split(v, s + a + b, ta, tab, v.next_center);
    assert(ta * ch <= (s + a).len()) by (nonlinear_arith)
        requires
            ta == (s + a).len() / ch,
            ch > 0,
    ;
    lemma_stream_windows_prefix(v, s + a, b, ta, v.next_center);
    assert(va.div == v.div && va.channels == v.channels);
    lemma_stream_windows_same(va, v, s + a + b, tab, va.next_center);
}

/// The codes already recorded play no part in feeding a layer: a layer that
/// differs only in its codes is fed to the same state (but for its codes)
/// and releases the same windows.
pub proof fn lemma_spectral_codes_inert(v: SpectralView, out: Seq<i32>, s: Seq<i16>, block: Seq<i16>)
    requires
        v.consistent(s),
        block.len() as int % (v.channels as int) == 0,
    ensures
        (SpectralView { out, ..v }).fed(block, s.len() / v.channels) == (SpectralView {
            out,
            ..v.fed(block, s.len() / v.channels)
        }),
        (SpectralView { out, ..v }).windows_for(block, s.len() / v.channels) == v.windows_for(
            block,
            s.len() / v.channels,
        ),
{
    let w = SpectralView { out, ..v };
    let t = s.len() / v.channels;
    lemma_stop_same(w, v, t + v.block_frames(block), v.next_center);
    lemma_stop_same(w, v, t, 0);
    lemma_spectral_feed_consistent(v, s, block);
    lemma_spectral_feed_consistent(w, s, block);
    lemma_stream_windows_same(w, v, s + block, (s + block).len() / v.channels, v.next_center);
}

/// Four little-endian bytes per code.
pub proof fn lemma_i32_seq_le_len(s: Seq<i32>)
    ensures
        i32_seq_le(s).len() == 4 * s.len(),
    decreases s.len(),
{
    if s.len() > 0 {
        lemma_i32_seq_le_len(s.drop_last());
    }
}

/// One window per channel for each centre reached.
pub proof fn lemma_stream_windows_len(v: SpectralView, x: Seq<i16>, t: nat, nc: nat)
    requires
        v.div >= 1,
    ensures
        v.stream_windows_from(x, t, nc).len() == v.channels * reached(t, nc, v.div),
    decreases if nc > t { 0 } else { t - nc },
{
    if nc + 1024 <= t {
        lemma_stream_windows_len(v, x, t, nc + v.div);
        let (a, d) = ((t - 1024 - nc) as int, v.div as int);
        if nc + v.div + 1024 > t {
            assert(a / d == 0) by (nonlinear_arith)
                requires
                    0 <= a < d,
            ;
        } else {
            assert((a - d) / d == a / d - 1) by (nonlinear_arith)
                requires
                    a >= d,
                    d > 0,
            ;
        }
        let r = reached(t, nc + v.div, v.div);
        assert(v.channels + v.channels * r == v.channels * (r + 1)) by (nonlinear_arith);
    }
}

/// Window `k * channels + c` is the window of channel `c` around the `k`-th centre.
pub proof fn lemma_stream_windows_index(v: SpectralView, x: Seq<i16>, t: nat, nc: nat, k: int, c: int)
    requires
        v.div >= 1,
        0 <= k < reached(t, nc, v.div),
        0 <= c < v.channels,
    ensures
        v.stream_windows_from(x, t, nc)[k * v.channels + c] == v.stream_window(x, (nc + k * v.div) as nat, c as nat),
    decreases k,
{
    let ch = v.channels;
    assert(nc + 1024 <= t);
    let first = Seq::new(ch, |i: int| v.stream_window(x, nc, i as nat));
    let rest = v.stream_windows_from(x, t, nc + v.div);
    assert(v.stream_windows_from(x, t, nc) == first + rest);
    assert(first.len() == ch);
    if k > 0 {
        lemma_stream_windows_len(v, x, t, nc);
        let (a, d) = ((t - 1024 - nc) as int, v.div as int);
        assert(nc + v.div + 1024 <= t) by (nonlinear_arith)
            requires
                a == t - 1024 - nc,
                d == v.div,
                0 < k < a / d + 1,
                d > 0,
        ;
        assert((a - d) / d == a / d - 1) by (nonlinear_arith)
            requires
                a >= d,
                d > 0,
        ;
        lemma_stream_windows_index(v, x, t, nc + v.div, k - 1, c);
        assert(k * ch + c - ch == (k - 1) * ch + c) by (nonlinear_arith);
        assert(k * ch + c >= ch) by (nonlinear_arith)
            requires
                k >= 1,
                c >= 0,
        ;
        assert(nc + v.div + (k - 1) * v.div == nc + k * v.div) by (nonlinear_arith);
        lemma_stream_windows_len(v, x, t, nc + v.div);
        let r1 = reached(t, nc + v.div, v.div);
        assert(r1 == reached(t, nc, v.div) - 1);
        assert((k - 1) * ch + c < ch * r1) by (nonlinear_arith)
            requires
                0 <= k - 1 < r1,
                0 <= c < ch,
        ;
        assert((first + rest)[k * ch + c] == rest[(k - 1) * ch + c]);
    } else {
        assert(k == 0 && c < first.len());
        assert((first + rest)[c] == first[c]);
        assert(0 * v.channels + c == c);
    }
}

/// The empty layer has coded the empty stream.
pub proof fn lemma_spectral_coded_initial(div: nat, ch: nat, sample_rate: nat, code: spec_fn(Seq<i16>) -> i32)
    requires
        div >= 1,
        ch >= 1,
    ensures
        SpectralView::initial(div, ch, sample_rate).coded(Seq::empty(), code),
{
    let v = SpectralView::initial(div, ch, sample_rate);
    assert(recent(Seq::<i16>::empty(), 2048 * ch) == Seq::<i16>::empty());
    assert(v.out =~= v.stream_windows_from(Seq::empty(), 0, 0).map_values(code));
}

/// Feeding a coded layer a block and recording the codes of the windows it
/// releases gives the layer coded on the longer stream.
pub proof fn lemma_spectral_coded_step(v: SpectralView, s: Seq<i16>, block: Seq<i16>, code: spec_fn(Seq<i16>) -> i32)
    requires
        v.coded(s, code),
        block.len() as int % (v.channels as int) == 0,
    ensures
        (SpectralView {
            out: v.out + v.windows_for(block, s.len() / v.channels).map_values(code),
            ..v.fed(block, s.len() / v.channels)
        }).coded(s + block, code),
{
    let ch = v.channels;
    let t = s.len() / ch;
    let x = s + block;
    let tt = x.len() / ch;
    let f = v.fed(block, t);
    let w = SpectralView { out: v.out + v.windows_for(block, t).map_values(code), ..f };
    lemma_spectral_feed_consistent(v, s, block);
    lemma_frames_add(s.len(), block.len(), ch);
    lemma_stream_windows_split(v, x, t, tt, 0);
    assert(t * ch <= s.len()) by (nonlinear_arith)
        requires
            t == s.len() / ch,
            ch > 0,
    ;
    lemma_stream_windows_prefix(v, s, block, t, 0);
    lemma_stop_same(w, f, tt, 0);
    lemma_stream_windows_same(w, v, x, tt, 0);
    let a = v.stream_windows_from(s, t, 0);
    let b = v.stream_windows_from(x, tt, v.stop_center(t, 0));
    assert((a + b).map_values(code) =~= a.map_values(code) + b.map_values(code));
}

/// A coded layer is determined by its parameters, the stream and the code:
/// any sequence of blocks (each fed with its codes recorded) that makes up the
/// same stream leaves the layer in the same state.
pub proof fn lemma_spectral_coded_unique(v1: SpectralView, v2: SpectralView, s: Seq<i16>, code: spec_fn(Seq<i16>) -> i32)
    requires
        v1.coded(s, code),
        v2.coded(s, code),
        v1.div == v2.div,
        v1.channels == v2.channels,
        v1.sample_rate == v2.sample_rate,
    ensures
        v1 == v2,
{
    lemma_stop_same(v1, v2, s.len() / v1.channels, 0);
    lemma_stream_windows_same(v1, v2, s, s.len() / v1.channels, 0);
}

/// Shape of a coded layer on a stream of `T` frames: it holds
/// `channels * ((T - 1024) / div + 1)` codes (none below 1024 frames), four
/// bytes each, and code `k * channels + c` is the code of the window of
/// channel `c` around centre `k * div`, i.e. frames
/// `[max(0, k * div - 1024), k * div + 1024)`.
pub proof fn lemma_spectral_coded_shape(v: SpectralView, s: Seq<i16>, code: spec_fn(Seq<i16>) -> i32)
    requires
        v.coded(s, code),
    ensures
        v.out.len() == v.channels * reached(s.len() / v.channels, 0, v.div),
        reached(s.len() / v.channels, 0, v.div) == (if s.len() / v.channels >= 1024 {
            ((s.len() / v.channels - 1024) / (v.div as int) + 1) as nat
        } else {
            0
        }),
        i32_seq_le(v.out).len() == 4 * v.out.len(),
        forall|k: int, c: int|
            0 <= k < reached(s.len() / v.channels, 0, v.div) && 0 <= c < v.channels ==> #[trigger] v.out[k
                * v.channels + c] == code(v.stream_window(s, (k * v.div) as nat, c as nat)),
{
    let t = s.len() / v.channels;
    lemma_stream_windows_len(v, s, t, 0);
    lemma_i32_seq_le_len(v.out);
    assert forall|k: int, c: int|
        0 <= k < reached(t, 0, v.div) && 0 <= c < v.channels implies #[trigger] v.out[k * v.channels + c]
            == code(v.stream_window(s, (k * v.div) as nat, c as nat)) by {
        lemma_stream_windows_index(v, s, t, 0, k, c);
        assert(k * v.channels + c < v.channels * reached(t, 0, v.div)) by (nonlinear_arith)
            requires
                0 <= k < reached(t, 0, v.div),
                0 <= c < v.channels,
        ;
    }
}

/// Code `j` occupies bytes `[4 * j, 4 * j + 4)`, little endian.
pub proof fn lemma_i32_seq_le_index(s: Seq<i32>, j: int)
    requires
        0 <= j < s.len(),
    ensures
        i32_seq_le(s).len() == 4 * s.len(),
        i32_seq_le(s).subrange(4 * j, 4 * j + 4) == crate::format::i32_le(s[j]),
    decreases s.len(),
{
    lemma_i32_seq_le_len(s);
    let p = s.drop_last();
    lemma_i32_seq_le_len(p);
    if j < p.len() {
        lemma_i32_seq_le_index(p, j);
        assert(i32_seq_le(s).subrange(4 * j, 4 * j + 4) =~= i32_seq_le(p).subrange(4 * j, 4 * j + 4));
    } else {
        assert(i32_seq_le(s).subrange(4 * j, 4 * j + 4) =~= crate::format::i32_le(s.last()));
    }
}

} // verus!
