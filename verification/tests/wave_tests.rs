use reapeaks::wave::WaveLayer;

#[test]
fn single_bucket_mono_minmax() {
    let mut layer = WaveLayer::new(4, 1);
    layer.feed(&[1, 5, -3, 2]);
    layer.finish();
    assert_eq!(layer.peak_count(), 1);
    assert_eq!(layer.bytes(), vec![5, 0, 253, 255]);
}

#[test]
fn exact_bucket_boundary_no_tail() {
    let mut layer = WaveLayer::new(4, 1);
    layer.feed(&[1, 2, 3, 4]);
    layer.finish();
    assert_eq!(layer.peak_count(), 1);
    assert_eq!(layer.bytes(), vec![4, 0, 1, 0]);
}

#[test]
fn partial_tail_bucket_flushes_on_finish() {
    let mut layer = WaveLayer::new(4, 1);
    layer.feed(&[1, 2, 3, 4, 7]);
    assert_eq!(layer.peak_count(), 1);
    layer.finish();
    assert_eq!(layer.peak_count(), 2);
    assert_eq!(layer.bytes(), vec![4, 0, 1, 0, 7, 0, 7, 0]);
}

#[test]
fn stereo_interleaved_layout() {
    let mut layer = WaveLayer::new(2, 2);
    layer.feed(&[10, -5, 3, 8]);
    layer.finish();
    assert_eq!(layer.bytes(), vec![10, 0, 3, 0, 8, 0, 251, 255]);
}

#[test]
fn asymmetric_signal_keeps_max_min_order() {
    let mut layer = WaveLayer::new(4, 1);
    layer.feed(&[-100, -50, -200, -10]);
    layer.finish();
    assert_eq!(layer.bytes(), vec![246, 255, 56, 255]);
}

#[test]
fn wave_chunk_splitting_invariance() {
    let data: Vec<i16> = (0..500).map(|i| ((i * 37) % 200) as i16 - 100).collect();
    let mut one = WaveLayer::new(7, 1);
    one.feed(&data);
    one.finish();
    let mut split = WaveLayer::new(7, 1);
    let mut i = 0;
    let mut rng = 12345u64;
    while i < data.len() {
        rng = rng
            .wrapping_mul(6364136223846793005)
            .wrapping_add(1442695040888963407);
        let take = ((rng >> 33) as usize % 37) + 1;
        let take = take.min(data.len() - i);
        split.feed(&data[i..i + take]);
        i += take;
    }
    split.finish();
    assert_eq!(one.bytes(), split.bytes());
    assert_eq!(one.peak_count(), split.peak_count());
}

#[test]
fn multi_channel_beyond_stereo() {
    let mut layer = WaveLayer::new(2, 4);
    layer.feed(&[1, 2, 3, 4, 5, -1, 3, 0]);
    layer.finish();
    assert_eq!(
        layer.bytes(),
        vec![
            5, 0, 1, 0, //
            2, 0, 255, 255, //
            3, 0, 3, 0, //
            4, 0, 0, 0, //
        ]
    );
}

#[test]
fn empty_feed_and_finish_emit_nothing() {
    let mut layer = WaveLayer::new(3, 2);
    layer.feed(&[]);
    layer.finish();
    assert_eq!(layer.peak_count(), 0);
    assert_eq!(layer.bytes(), Vec::<u8>::new());
    assert_eq!(layer.div(), 3);
}

#[test]
fn finish_twice_adds_nothing_more() {
    let mut layer = WaveLayer::new(4, 1);
    layer.feed(&[1, 2, 3]);
    layer.finish();
    let first = layer.bytes();
    layer.finish();
    assert_eq!(layer.bytes(), first);
    assert_eq!(layer.peak_count(), 1);
}

#[test]
fn extreme_samples_are_kept() {
    let mut layer = WaveLayer::new(2, 1);
    layer.feed(&[i16::MIN, i16::MAX, 0, 0]);
    layer.finish();
    // bucket 0: max 32767, min -32768; bucket 1: max 0, min 0
    assert_eq!(layer.bytes(), vec![0xFF, 0x7F, 0x00, 0x80, 0, 0, 0, 0]);
    assert_eq!(layer.peak_count(), 2);
}

#[test]
fn peak_count_is_ceiling_of_frames_over_div() {
    for n in 0..20usize {
        let data: Vec<i16> = (0..n).map(|i| i as i16).collect();
        let mut layer = WaveLayer::new(6, 1);
        layer.feed(&data);
        layer.finish();
        assert_eq!(layer.peak_count(), (n + 5) / 6);
    }
}

#[test]
fn buckets_before_finish_and_last_peak_after() {
    let stream: Vec<i16> = (0..2 * 23).map(|i| ((i * 37) % 101) as i16 - 50).collect();
    let mut layer = WaveLayer::new(5, 2);
    for chunk in stream.chunks(6) {
        layer.feed(chunk);
    }
    // 23 frames: 4 complete buckets before finish, a fifth of 3 frames after.
    assert_eq!(layer.peak_count(), 4);
    assert_eq!(layer.bytes().len(), 4 * 2 * 4);
    layer.finish();
    assert_eq!(layer.peak_count(), 5);
    let b = layer.bytes();
    let v = |i: usize| i16::from_le_bytes([b[2 * i], b[2 * i + 1]]);
    for k in 0..5 {
        let lo = k * 5;
        let hi = (lo + 5).min(23);
        for c in 0..2 {
            let vals: Vec<i16> = (lo..hi).map(|j| stream[j * 2 + c]).collect();
            assert_eq!(v(2 * (k * 2 + c)), *vals.iter().max().unwrap());
            assert_eq!(v(2 * (k * 2 + c) + 1), *vals.iter().min().unwrap());
            assert!(v(2 * (k * 2 + c)) >= v(2 * (k * 2 + c) + 1));
        }
    }
}
