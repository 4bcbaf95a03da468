use reapeaks::spectral::{pack_code, SpectralLayer, FFT_LEN};
use realfft::RealFftPlanner;

/// Spectral code `freq | density << 15` of one window (the floating-point
/// analysis that accompanies the layer: Hann window, 2048-point real FFT,
/// peak frequency by parabolic interpolation, density from spectral flatness).
fn spectral_code(window: &[i16], sample_rate: u32) -> i32 {
    let n = window.len();
    if n < 8 {
        return 0;
    }
    let fftn = FFT_LEN;
    let mut buf = vec![0.0f64; fftn];
    let start = (fftn - n) / 2;
    let seg_len = (start + n).min(fftn) - start;
    for (i, &v) in window.iter().take(seg_len).enumerate() {
        let w = if seg_len > 1 {
            0.5 - 0.5 * (2.0 * std::f64::consts::PI * i as f64 / (seg_len - 1) as f64).cos()
        } else {
            1.0
        };
        buf[start + i] = v as f64 / 32768.0 * w;
    }
    let mut planner = RealFftPlanner::<f64>::new();
    let r2c = planner.plan_fft_forward(fftn);
    let mut spectrum = r2c.make_output_vec();
    r2c.process(&mut buf, &mut spectrum).unwrap();
    let mags: Vec<f64> = spectrum.iter().map(|c| c.norm()).collect();
    let ac = &mags[1..];
    let mut idx = 0usize;
    let mut best = ac[0];
    for (i, &v) in ac.iter().enumerate() {
        if v > best {
            best = v;
            idx = i;
        }
    }
    let res = sample_rate as f64 / fftn as f64;
    let freq = if idx == 0 || idx + 1 >= ac.len() {
        0.0
    } else {
        let (y0, y1, y2) = (ac[idx - 1], ac[idx], ac[idx + 1]);
        let den = y0 - 2.0 * y1 + y2;
        let delta = if den.abs() > 1e-12 { 0.5 * (y0 - y2) / den } else { 0.0 };
        (idx + 1) as f64 * res + delta * res
    };
    let sum: f64 = ac.iter().sum();
    let density = if sum <= 0.0 {
        0.0
    } else {
        let log_sum: f64 = ac.iter().map(|&v| v.max(1e-12).ln()).sum();
        let geo = (log_sum / ac.len() as f64).exp();
        let arith = sum / ac.len() as f64;
        let flatness = if arith > 0.0 { geo / arith } else { 0.0 };
        if flatness <= 0.0 {
            0.0
        } else {
            (-2961.5 * flatness.ln() + 3995.3).clamp(1.0, 16383.0)
        }
    };
    let freq = (freq.round() as u16).min(0x7FFF);
    let density = (density.round() as u16).min(0x3FFF);
    pack_code(freq, density)
}

/// Feeds a block and records the codes of the windows it releases.
fn feed(layer: &mut SpectralLayer, block: &[i16], start: u64) -> Vec<Vec<i16>> {
    let windows = layer.feed(block, start);
    let codes: Vec<i32> = windows.iter().map(|w| spectral_code(w, layer.sample_rate())).collect();
    layer.record_codes(&codes);
    windows
}

fn sine(n: usize, freq: f64, sr: u32, amp: f64) -> Vec<i16> {
    (0..n)
        .map(|i| (amp * (2.0 * std::f64::consts::PI * freq * i as f64 / sr as f64).sin()) as i16)
        .collect()
}

#[test]
fn chunk_split_invariance_with_hist_carry() {
    let sr = 44100u32;
    let signal = sine(20000, 440.0, sr, 20000.0);
    let mut one = SpectralLayer::new(147, 1, sr);
    feed(&mut one, &signal, 0);
    one.finish();
    let mut split = SpectralLayer::new(147, 1, sr);
    let mut pos = 0usize;
    let mut frame = 0u64;
    while pos < signal.len() {
        let take = 8192usize.min(signal.len() - pos);
        feed(&mut split, &signal[pos..pos + take], frame);
        pos += take;
        frame += take as u64;
    }
    split.finish();
    assert_eq!(one.bytes(), split.bytes(), "split feeding should equal one feed");
}

#[test]
fn centers_step_by_div() {
    let mut layer = SpectralLayer::new(147, 1, 44100);
    let signal = vec![0i16; 3000];
    feed(&mut layer, &signal, 0);
    layer.finish();
    assert_eq!(layer.peak_count(), 14);
}

#[test]
fn stereo_produces_per_channel_codes() {
    let mut layer = SpectralLayer::new(2048, 2, 44100);
    let n = 4096usize;
    let mut signal = vec![0i16; n * 2];
    for i in 0..n {
        signal[i * 2] = (30000.0 * (2.0 * std::f64::consts::PI * 1000.0 * i as f64 / 44100.0).sin()) as i16;
    }
    feed(&mut layer, &signal, 0);
    layer.finish();
    assert_eq!(layer.peak_count(), 2);
    assert_eq!(layer.bytes().len(), 2 * 2 * 4);
}

#[test]
fn window_lengths_grow_until_the_first_full_window() {
    let mut layer = SpectralLayer::new(147, 1, 44100);
    let signal: Vec<i16> = (0..3000).map(|i| i as i16).collect();
    let windows = layer.feed(&signal, 0);
    // Centres 0, 147, ..., 1911: the window of centre c covers [max(0, c - 1024), c + 1024).
    assert_eq!(windows.len(), 14);
    for (k, w) in windows.iter().enumerate() {
        let c = 147 * k;
        let s0 = c.saturating_sub(1024);
        assert_eq!(w.len(), c + 1024 - s0);
        assert_eq!(w[0], s0 as i16);
        assert_eq!(*w.last().unwrap(), (c + 1023) as i16);
    }
    assert_eq!(layer.peak_count(), 0);
    layer.record_codes(&vec![7; 14]);
    assert_eq!(layer.peak_count(), 14);
    assert_eq!(&layer.bytes()[0..4], &[7, 0, 0, 0]);
}

#[test]
fn windows_across_blocks_match_one_feed() {
    let signal: Vec<i16> = (0..2 * 6000).map(|i| (i % 1000) as i16 - 500).collect();
    let mut one = SpectralLayer::new(300, 2, 8000);
    let all = one.feed(&signal, 0);
    let mut split = SpectralLayer::new(300, 2, 8000);
    let mut got: Vec<Vec<i16>> = Vec::new();
    let mut frame = 0u64;
    for chunk in signal.chunks(2 * 2500) {
        got.extend(split.feed(chunk, frame));
        frame += (chunk.len() / 2) as u64;
    }
    assert_eq!(all, got);
    // 2 channels per centre; centres 0, 300, ..., 4800 (4800 + 1024 <= 6000).
    assert_eq!(all.len(), 2 * 17);
    // channel 1 of centre 1200: frames 176..2224, odd samples
    assert_eq!(all[2 * 4 + 1][0], signal[2 * 176 + 1]);
}

#[test]
fn short_stream_releases_no_window() {
    let mut layer = SpectralLayer::new(10, 1, 8000);
    let windows = feed(&mut layer, &vec![1i16; 1023], 0);
    assert!(windows.is_empty());
    let windows = feed(&mut layer, &[1i16], 1023);
    assert_eq!(windows.len(), 1);
    assert_eq!(windows[0].len(), 1024);
    assert_eq!(layer.peak_count(), 1);
    assert_eq!(layer.div(), 10);
}

#[test]
fn codes_are_little_endian_in_record_order() {
    let mut layer = SpectralLayer::new(5, 1, 8000);
    layer.record_codes(&[0x0102_0304, -1]);
    assert_eq!(layer.bytes(), vec![4, 3, 2, 1, 0xFF, 0xFF, 0xFF, 0xFF]);
}

#[test]
fn silent_windows_give_zero_codes() {
    let mut layer = SpectralLayer::new(1024, 1, 44100);
    feed(&mut layer, &vec![0i16; 4096], 0);
    assert_eq!(layer.peak_count(), 4);
    assert!(layer.bytes().iter().all(|&b| b == 0));
}

#[test]
fn code_packs_frequency_below_density() {
    assert_eq!(pack_code(300, 5000), 5000 * 32768 + 300);
    assert_eq!(pack_code(0x7FFF, 0x3FFF), 0x1FFF_FFFF);
    assert_eq!(pack_code(0, 0), 0);
    assert_eq!(pack_code(1, 0), 1);
    assert_eq!(pack_code(0, 1), 1 << 15);
}

#[test]
fn peak_count_follows_reached_centres_and_codes_follow_windows() {
    // A simple integer stand-in for the analysis: the code of a window is the
    // sum of its samples, so each recorded code identifies its window.
    let code = |w: &[i16]| w.iter().map(|&v| v as i32).sum::<i32>();
    for &(div, ch, frames) in &[(147u32, 1usize, 3000usize), (300, 2, 6000), (1000, 3, 1023), (7, 1, 1024)] {
        let stream: Vec<i16> = (0..frames * ch).map(|i| ((i * 7919) % 201) as i16 - 100).collect();
        let mut layer = SpectralLayer::new(div, ch, 8000);
        for (b, chunk) in stream.chunks(ch * 500).enumerate() {
            let ws = layer.feed(chunk, (b * 500) as u64);
            let codes: Vec<i32> = ws.iter().map(|w| code(w)).collect();
            layer.record_codes(&codes);
        }
        let t = frames;
        let expected = if t >= 1024 { (t - 1024) / div as usize + 1 } else { 0 };
        assert_eq!(layer.peak_count(), expected);
        let bytes = layer.bytes();
        assert_eq!(bytes.len(), 4 * ch * layer.peak_count());
        for k in 0..expected {
            for c in 0..ch {
                let centre = k * div as usize;
                let s0 = centre.saturating_sub(1024);
                let window: Vec<i16> = (s0..centre + 1024).map(|j| stream[j * ch + c]).collect();
                let at = 4 * (k * ch + c);
                let got = i32::from_le_bytes([bytes[at], bytes[at + 1], bytes[at + 2], bytes[at + 3]]);
                assert_eq!(got, code(&window));
            }
        }
    }
}
