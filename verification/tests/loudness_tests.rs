use reapeaks::loudness::{LoudnessLayer, SquareSum};

/// The stored RMS values (`sqrt(sum / frames) / 32768` as `f32`, little endian).
fn rms_bytes(records: &[SquareSum]) -> Vec<u8> {
    let mut out = Vec::new();
    for r in records {
        let rms = if r.frames > 0 {
            (r.sum as f64 / r.frames as f64).sqrt() / 32768.0
        } else {
            0.0
        };
        out.extend_from_slice(&(rms as f32).to_le_bytes());
    }
    out
}

fn f32_bytes(v: f32) -> Vec<u8> {
    v.to_le_bytes().to_vec()
}

#[test]
fn rms_of_silence_is_zero() {
    let mut layer = LoudnessLayer::new(4, 1);
    layer.feed(&[0, 0, 0, 0]);
    layer.finish();
    assert_eq!(rms_bytes(layer.records()), f32_bytes(0.0));
}

#[test]
fn rms_of_full_scale_square_wave() {
    let mut layer = LoudnessLayer::new(4, 1);
    layer.feed(&[i16::MAX, i16::MAX, i16::MIN, i16::MIN]);
    layer.finish();
    let b = rms_bytes(layer.records());
    let rms = f32::from_le_bytes([b[0], b[1], b[2], b[3]]);
    assert!((rms - 0.9999695).abs() < 1e-4, "rms={rms}");
}

#[test]
fn partial_tail_flushes_on_finish() {
    let mut layer = LoudnessLayer::new(4, 1);
    layer.feed(&[0, 0, 0, 0, 10000]);
    layer.finish();
    let bytes = rms_bytes(layer.records());
    assert_eq!(bytes.len(), 8);
    let rms1 = f32::from_le_bytes([bytes[4], bytes[5], bytes[6], bytes[7]]);
    assert!((rms1 - (10000.0 / 32768.0)).abs() < 1e-4, "rms1={rms1}");
}

#[test]
fn stereo_channels_independent() {
    let mut layer = LoudnessLayer::new(2, 2);
    layer.feed(&[0, 32767, 0, -32768]);
    layer.finish();
    let bytes = rms_bytes(layer.records());
    let l = f32::from_le_bytes([bytes[0], bytes[1], bytes[2], bytes[3]]);
    let r = f32::from_le_bytes([bytes[4], bytes[5], bytes[6], bytes[7]]);
    assert!(l.abs() < 1e-6, "L should be about 0, got {l}");
    assert!((r - 1.0).abs() < 1e-4, "R should be about 1.0, got {r}");
}

#[test]
fn i64_accumulator_never_overflows() {
    let div = 100_000u32;
    let mut layer = LoudnessLayer::new(div, 1);
    let block = vec![i16::MIN; 1_000_000];
    layer.feed(&block);
    layer.finish();
    let bytes = rms_bytes(layer.records());
    let rms = f32::from_le_bytes([bytes[0], bytes[1], bytes[2], bytes[3]]);
    assert!((rms - 1.0).abs() < 1e-4, "full-scale RMS should be about 1.0, got {rms}");
    assert_eq!(layer.records()[0], SquareSum { sum: 100_000 * (1i64 << 30), frames: div });
}

#[test]
fn loudness_chunk_splitting_invariance() {
    let data: Vec<i16> = (0..500).map(|i| (((i * 37) % 200) as i16) - 100).collect();
    let mut one = LoudnessLayer::new(7, 2);
    let mut interleaved = Vec::with_capacity(data.len() * 2);
    for &v in &data {
        interleaved.push(v);
        interleaved.push(v.wrapping_neg());
    }
    one.feed(&interleaved);
    one.finish();
    let mut split = LoudnessLayer::new(7, 2);
    let mut i = 0;
    let mut rng = 98765u64;
    while i < interleaved.len() {
        rng = rng
            .wrapping_mul(6364136223846793005)
            .wrapping_add(1442695040888963407);
        let take = ((rng >> 33) as usize % 47) + 1;
        let take = take.min(interleaved.len() - i);
        let take = take - take % 2;
        if take == 0 {
            break;
        }
        split.feed(&interleaved[i..i + take]);
        i += take;
    }
    split.finish();
    assert_eq!(rms_bytes(one.records()), rms_bytes(split.records()));
    assert_eq!(one.records(), split.records());
    assert_eq!(one.peak_count(), split.peak_count());
}

#[test]
fn records_hold_exact_square_sums() {
    let mut layer = LoudnessLayer::new(4, 1);
    layer.feed(&[1, -2, 3, -4, 10000]);
    assert_eq!(layer.records(), &vec![SquareSum { sum: 30, frames: 4 }]);
    assert_eq!(layer.peak_count(), 1);
    layer.finish();
    assert_eq!(
        layer.records(),
        &vec![SquareSum { sum: 30, frames: 4 }, SquareSum { sum: 100_000_000, frames: 1 }]
    );
    assert_eq!(layer.peak_count(), 2);
    assert_eq!(layer.div(), 4);
}

#[test]
fn stereo_records_are_interleaved_per_peak() {
    let mut layer = LoudnessLayer::new(2, 2);
    layer.feed(&[1, 2, 3, 4, 5, 6]);
    layer.finish();
    assert_eq!(
        layer.records(),
        &vec![
            SquareSum { sum: 10, frames: 2 },
            SquareSum { sum: 20, frames: 2 },
            SquareSum { sum: 25, frames: 1 },
            SquareSum { sum: 36, frames: 1 },
        ]
    );
}

#[test]
fn finish_without_open_bucket_adds_nothing() {
    let mut layer = LoudnessLayer::new(2, 1);
    layer.feed(&[3, 4]);
    layer.finish();
    layer.finish();
    assert_eq!(layer.records(), &vec![SquareSum { sum: 25, frames: 2 }]);
}

#[test]
fn records_are_bucket_square_sums() {
    let stream: Vec<i16> = (0..3 * 11).map(|i| ((i * 53) % 97) as i16 - 48).collect();
    let mut layer = LoudnessLayer::new(4, 3);
    for chunk in stream.chunks(9) {
        layer.feed(chunk);
    }
    assert_eq!(layer.peak_count(), 2);
    layer.finish();
    assert_eq!(layer.peak_count(), 3);
    let r = layer.records();
    for k in 0..3 {
        let lo = k * 4;
        let hi = (lo + 4).min(11);
        for c in 0..3 {
            let sum: i64 = (lo..hi).map(|j| (stream[j * 3 + c] as i64).pow(2)).sum();
            assert_eq!(r[k * 3 + c], SquareSum { sum, frames: (hi - lo) as u32 });
        }
    }
}
