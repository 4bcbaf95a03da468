use reapeaks::loudness::SquareSum;
use reapeaks::options::{Feature, OptionsError, StreamerOptions};
use reapeaks::spectral::{pack_code, FFT_LEN};
use reapeaks::streamer::{ReapeaksStreamer, StreamerError};
use realfft::RealFftPlanner;

/// Spectral code `freq | density << 15` of one window.
fn spectral_code(window: &[i16], sample_rate: u32) -> i32 {
    let n = window.len();
    if n < 8 {
        return 0;
    }
    let fftn = FFT_LEN;
    let mut buf = vec![0.0f64; fftn];
    let start = (fftn - n) / 2;
    let seg_len = (start + n).min(fftn) - start;
    for (i, &v) in window.iter().take(seg_len).enumerate() {
        let w = if seg_len > 1 {
            0.5 - 0.5 * (2.0 * std::f64::consts::PI * i as f64 / (seg_len - 1) as f64).cos()
        } else {
            1.0
        };
        buf[start + i] = v as f64 / 32768.0 * w;
    }
    let mut planner = RealFftPlanner::<f64>::new();
    let r2c = planner.plan_fft_forward(fftn);
    let mut spectrum = r2c.make_output_vec();
    r2c.process(&mut buf, &mut spectrum).unwrap();
    let mags: Vec<f64> = spectrum.iter().map(|c| c.norm()).collect();
    let ac = &mags[1..];
    let mut idx = 0usize;
    let mut best = ac[0];
    for (i, &v) in ac.iter().enumerate() {
        if v > best {
            best = v;
            idx = i;
        }
    }
    let res = sample_rate as f64 / fftn as f64;
    let freq = if idx == 0 || idx + 1 >= ac.len() {
        0.0
    } else {
        let (y0, y1, y2) = (ac[idx - 1], ac[idx], ac[idx + 1]);
        let den = y0 - 2.0 * y1 + y2;
        let delta = if den.abs() > 1e-12 { 0.5 * (y0 - y2) / den } else { 0.0 };
        (idx + 1) as f64 * res + delta * res
    };
    let sum: f64 = ac.iter().sum();
    let density = if sum <= 0.0 {
        0.0
    } else {
        let log_sum: f64 = ac.iter().map(|&v| v.max(1e-12).ln()).sum();
        let geo = (log_sum / ac.len() as f64).exp();
        let arith = sum / ac.len() as f64;
        let flatness = if arith > 0.0 { geo / arith } else { 0.0 };
        if flatness <= 0.0 {
            0.0
        } else {
            (-2961.5 * flatness.ln() + 3995.3).clamp(1.0, 16383.0)
        }
    };
    let freq = (freq.round() as u16).min(0x7FFF);
    let density = (density.round() as u16).min(0x3FFF);
    pack_code(freq, density)
}

/// The stored RMS values of loudness records (`f32`, little endian).
fn rms_bytes(records: &[SquareSum]) -> Vec<u8> {
    let mut out = Vec::new();
    for r in records {
        let rms = if r.frames > 0 {
            (r.sum as f64 / r.frames as f64).sqrt() / 32768.0
        } else {
            0.0
        };
        out.extend_from_slice(&(rms as f32).to_le_bytes());
    }
    out
}

/// Feeds a chunk and records the spectral codes of the released windows.
fn feed(s: &mut ReapeaksStreamer, data: &[u8]) -> Result<(), StreamerError> {
    let windows = s.feed(data)?;
    let sr = s.sample_rate();
    for (layer, ws) in windows.iter().enumerate() {
        let codes: Vec<i32> = ws.iter().map(|w| spectral_code(w, sr)).collect();
        s.record_spectral_codes(layer, &codes);
    }
    Ok(())
}

/// Closes the input and assembles the file.
fn finish(s: &mut ReapeaksStreamer, ts: i32, fs: i32) -> Vec<u8> {
    s.close();
    let payloads: Vec<Vec<u8>> = (0..s.loudness_layer_count())
        .map(|i| rms_bytes(s.loudness_records(i)))
        .collect();
    s.finish(ts, fs, &payloads)
}

fn pcm_sine(sr: u32, ch: usize, frames: usize, freq: f64) -> Vec<u8> {
    let mut out = Vec::with_capacity(frames * ch * 2);
    for i in 0..frames {
        for c in 0..ch {
            let v = (16000.0
                * (2.0 * std::f64::consts::PI * freq * (i as f64) / sr as f64 + c as f64 * 1.7).sin())
                as i16;
            out.extend_from_slice(&v.to_le_bytes());
        }
    }
    out
}

fn make_streamer(sr: u32, ch: u32, features: &[Feature], mipmap_levels: usize) -> ReapeaksStreamer {
    let opts = StreamerOptions::new(sr, ch, None, Some(features.to_vec()), mipmap_levels).unwrap();
    ReapeaksStreamer::new(sr, ch, opts).unwrap()
}

fn i32_at(out: &[u8], at: usize) -> i32 {
    i32::from_le_bytes([out[at], out[at + 1], out[at + 2], out[at + 3]])
}

#[test]
fn chunk_split_invariance_random_sizes() {
    let sr = 44100u32;
    let data = pcm_sine(sr, 2, 30000, 440.0);
    let all = [Feature::Wave, Feature::Spectral, Feature::Loudness];
    let mut one = make_streamer(sr, 2, &all, 3);
    feed(&mut one, &data).unwrap();
    let one_bytes = finish(&mut one, 0, 0);
    let mut split = make_streamer(sr, 2, &all, 3);
    let mut i = 0usize;
    let mut rng = 12345u64;
    while i < data.len() {
        rng = rng
            .wrapping_mul(6364136223846793005)
            .wrapping_add(1442695040888963407);
        let take = 4096 + ((rng >> 33) as usize % 4096);
        let take = take.min(data.len() - i);
        feed(&mut split, &data[i..i + take]).unwrap();
        i += take;
    }
    let split_bytes = finish(&mut split, 0, 0);
    assert_eq!(one_bytes, split_bytes, "split feeding should equal one feed");
}

#[test]
fn header_metadata_written_into_finish() {
    let sr = 8000u32;
    let data = pcm_sine(sr, 1, 8000, 440.0);
    let mut s = make_streamer(sr, 1, &[Feature::Wave], 1);
    feed(&mut s, &data).unwrap();
    let out = finish(&mut s, 123456789, 987654321);
    assert_eq!(&out[0..4], b"RPKN");
    assert_eq!(out[4], 1);
    assert_eq!(&out[6..10], &(8000i32).to_le_bytes());
    assert_eq!(&out[10..14], &123456789i32.to_le_bytes());
    assert_eq!(&out[14..18], &987654321i32.to_le_bytes());
}

#[test]
fn wave_only_default_features() {
    let sr = 8000u32;
    let data = pcm_sine(sr, 1, 8000, 440.0);
    let mut s = make_streamer(sr, 1, &[Feature::Wave], 1);
    feed(&mut s, &data).unwrap();
    let out = finish(&mut s, 0, 0);
    let mipmap_count = out[5];
    assert_eq!(mipmap_count, 1, "wave-only output has 1 mipmap");
    assert_eq!(&out[18..22], &(26i32).to_le_bytes());
}

#[test]
fn spectral_trim_uses_c_total_formula() {
    let sr = 8000u32;
    let data = pcm_sine(sr, 1, 8000, 440.0);
    let mut s = make_streamer(sr, 1, &[Feature::Wave, Feature::Spectral], 1);
    feed(&mut s, &data).unwrap();
    let out = finish(&mut s, 0, 0);
    let mipmap_count = out[5];
    assert_eq!(mipmap_count, 2);
    let div = i32::from_le_bytes([out[26], out[27], out[28], out[29]]);
    assert_eq!(div, -('s' as i32));
    // fine npeak = ceil(8000 / 26) = 308; c_total = 26 * 308 - 1280 = 6728; 6728 / 26 = 258.
    assert_eq!(i32_at(&out, 22), 308);
    assert_eq!(i32_at(&out, 30), 258);
    assert_eq!(out.len(), 18 + 16 + 308 * 4 + 258 * 4);
}

#[test]
fn loudness_layer_one_pads_layer_two_truncates() {
    let sr = 8000u32;
    let data = pcm_sine(sr, 1, 8000, 440.0);
    let mut s = make_streamer(sr, 1, &[Feature::Wave, Feature::Loudness], 1);
    feed(&mut s, &data).unwrap();
    let out = finish(&mut s, 0, 0);
    let mipmap_count = out[5];
    assert_eq!(mipmap_count, 3, "wave + two loudness layers = 3 mipmaps");
    // layer 1: div 200, ceil(8000 / 200) + 1 = 41 peaks (the last padded with zeros);
    // layer 2: div 4000, floor(8000 / 4000) = 2 peaks.
    assert_eq!(i32_at(&out, 26), -('r' as i32));
    assert_eq!(i32_at(&out, 30), 41);
    assert_eq!(i32_at(&out, 34), -('r' as i32));
    assert_eq!(i32_at(&out, 38), 2);
    assert_eq!(out.len(), 18 + 24 + 308 * 4 + 41 * 4 + 2 * 4);
    let pad_at = 18 + 24 + 308 * 4 + 40 * 4;
    assert_eq!(&out[pad_at..pad_at + 4], &[0, 0, 0, 0]);
}

#[test]
fn mipmap_levels_2_keeps_two_wave_layers() {
    let sr = 8000u32;
    let data = pcm_sine(sr, 1, 8000, 440.0);
    let mut s = make_streamer(sr, 1, &[Feature::Wave], 2);
    feed(&mut s, &data).unwrap();
    let out = finish(&mut s, 0, 0);
    assert_eq!(out[5], 2, "mipmap_levels=2 keeps 2 wave layers");
    assert_eq!(&out[18..22], &(26i32).to_le_bytes());
    assert_eq!(&out[26..30], &(400i32).to_le_bytes());
}

#[test]
fn odd_byte_tail_carries_across_feeds() {
    let sr = 8000u32;
    let mut s = make_streamer(sr, 1, &[Feature::Wave], 1);
    feed(&mut s, &[1, 0, 2]).unwrap();
    feed(&mut s, &[0]).unwrap();
    let data = pcm_sine(sr, 1, 100, 440.0);
    feed(&mut s, &data).unwrap();
    let out = finish(&mut s, 0, 0);
    assert!(out.len() > 18);
    assert_eq!(s.total_frames(), 102);
}

#[test]
fn golden_small_vector_stereo() {
    let sr = 8000u32;
    let frames: [i16; 8] = [100, -100, 50, 200, -300, 0, 10, -10];
    let mut bytes = Vec::new();
    for v in frames {
        bytes.extend_from_slice(&v.to_le_bytes());
    }
    let mut s = make_streamer(sr, 2, &[Feature::Wave], 1);
    feed(&mut s, &bytes).unwrap();
    let out = finish(&mut s, 0, 0);
    let data = &out[26..];
    let expected: [i16; 4] = [100, -300, 200, -100];
    for (i, &e) in expected.iter().enumerate() {
        let got = i16::from_le_bytes([data[i * 2], data[i * 2 + 1]]);
        assert_eq!(got, e, "peak {i}");
    }
    assert_eq!(data.len(), 8);
}

#[test]
fn feed_after_finish_is_refused() {
    let mut s = make_streamer(8000, 1, &[Feature::Wave], 1);
    feed(&mut s, &[1, 0, 2, 0]).unwrap();
    let first = finish(&mut s, 0, 0);
    assert_eq!(s.feed(&[3, 0]), Err(StreamerError::FeedAfterFinish));
    assert_eq!(s.total_frames(), 2);
    let second = finish(&mut s, 0, 0);
    assert_eq!(first, second);
}

#[test]
fn zero_channels_rejected() {
    let opts = StreamerOptions::new(8000, 1, None, None, 1).unwrap();
    assert_eq!(
        ReapeaksStreamer::new(8000, 0, opts).err(),
        Some(OptionsError::InvalidChannels(0))
    );
}

#[test]
fn byte_at_a_time_equals_one_feed() {
    let sr = 8000u32;
    let data = pcm_sine(sr, 2, 3000, 300.0);
    let feats = [Feature::Wave, Feature::Spectral, Feature::Loudness];
    let mut one = make_streamer(sr, 2, &feats, 2);
    feed(&mut one, &data).unwrap();
    let mut small = make_streamer(sr, 2, &feats, 2);
    for chunk in data.chunks(3) {
        feed(&mut small, chunk).unwrap();
    }
    assert_eq!(one.total_frames(), small.total_frames());
    assert_eq!(finish(&mut one, 5, 6), finish(&mut small, 5, 6));
}

#[test]
fn spectral_without_wave_uses_equivalent_peak_count() {
    let sr = 8000u32;
    let data = pcm_sine(sr, 1, 8000, 440.0);
    let mut s = make_streamer(sr, 1, &[Feature::Spectral], 1);
    feed(&mut s, &data).unwrap();
    let out = finish(&mut s, 0, 0);
    // An empty wave group still leads the output: one spectral mipmap.
    assert_eq!(out[5], 1);
    assert_eq!(i32_at(&out, 18), -('s' as i32));
    assert_eq!(i32_at(&out, 22), 258);
}

#[test]
fn short_input_trims_spectral_to_zero_peaks() {
    let sr = 8000u32;
    let data = pcm_sine(sr, 1, 100, 440.0);
    let mut s = make_streamer(sr, 1, &[Feature::Wave, Feature::Spectral], 1);
    feed(&mut s, &data).unwrap();
    let out = finish(&mut s, 0, 0);
    // 4 wave peaks: c_total = 26 * 4 - 1280 < 0, so no spectral peak is kept.
    assert_eq!(i32_at(&out, 22), 4);
    assert_eq!(i32_at(&out, 30), 0);
    assert_eq!(out.len(), 18 + 16 + 4 * 4);
}

#[test]
fn accessors_report_parameters() {
    let s = make_streamer(22050, 3, &[Feature::Wave, Feature::Loudness], 1);
    assert_eq!(s.sample_rate(), 22050);
    assert_eq!(s.channels(), 3);
    assert_eq!(s.total_frames(), 0);
    assert_eq!(s.spectral_layer_count(), 0);
    assert_eq!(s.loudness_layer_count(), 2);
}

#[test]
fn wave_level_of_one_frame_repeats_the_input_bytes() {
    let sr = 8000u32;
    let samples: [i16; 5] = [0, 1, -1, i16::MAX, i16::MIN];
    let mut bytes = Vec::new();
    for v in samples {
        bytes.extend_from_slice(&v.to_le_bytes());
    }
    let opts = StreamerOptions::new(sr, 1, Some(vec![1]), None, 1).unwrap();
    let mut s = ReapeaksStreamer::new(sr, 1, opts).unwrap();
    feed(&mut s, &bytes).unwrap();
    let out = finish(&mut s, 0, 0);
    let data = &out[26..];
    assert_eq!(data.len(), 2 * bytes.len());
    for (i, pair) in bytes.chunks(2).enumerate() {
        assert_eq!(&data[4 * i..4 * i + 2], pair);
        assert_eq!(&data[4 * i + 2..4 * i + 4], pair);
    }
}

#[test]
fn total_frames_counts_whole_frames_of_all_chunks() {
    let mut s = make_streamer(8000, 3, &[Feature::Wave, Feature::Loudness], 1);
    let mut n = 0usize;
    for len in [1usize, 4, 7, 0, 11, 2, 5] {
        let chunk = vec![1u8; len];
        feed(&mut s, &chunk).unwrap();
        n += len;
        assert_eq!(s.total_frames(), (n / 6) as u64);
    }
}

#[test]
fn every_payload_matches_its_header() {
    let sr = 8000u32;
    let data = pcm_sine(sr, 2, 9000, 330.0);
    let all = [Feature::Wave, Feature::Spectral, Feature::Loudness];
    for features in [&all[..], &all[1..], &all[..2]] {
        let mut s = make_streamer(sr, 2, features, 3);
        feed(&mut s, &data).unwrap();
        let out = finish(&mut s, 0, 0);
        let count = out[5] as usize;
        let mut total = 0usize;
        for m in 0..count {
            total += i32_at(&out, 18 + 8 * m + 4) as usize;
        }
        assert_eq!(out.len(), 18 + 8 * count + 4 * 2 * total);
    }
}
