use reapeaks::options::{choose_division_factors, parse_features, Feature, OptionsError, StreamerOptions};

#[test]
fn default_divs_are_fine_mid_coarse() {
    let divs = choose_division_factors(44100);
    assert_eq!(divs, vec![147, 2205, 44100]);
    let divs = choose_division_factors(100);
    assert_eq!(divs, vec![1, 5, 100]);
}

#[test]
fn features_dedup_and_order_follows_all() {
    let opts = StreamerOptions::new(
        44100,
        2,
        None,
        Some(vec![Feature::Loudness, Feature::Wave, Feature::Spectral, Feature::Wave]),
        1,
    )
    .unwrap();
    assert_eq!(opts.features, vec![Feature::Wave, Feature::Spectral, Feature::Loudness]);
    let opts = StreamerOptions::new(44100, 2, None, None, 1).unwrap();
    assert_eq!(opts.features, vec![Feature::Wave]);
    assert!(opts.is_enabled(Feature::Wave));
    assert!(!opts.is_enabled(Feature::Spectral));
}

#[test]
fn invalid_channels_and_divs_rejected() {
    assert_eq!(
        StreamerOptions::new(44100, 0, None, None, 1),
        Err(OptionsError::InvalidChannels(0))
    );
    assert_eq!(
        StreamerOptions::new(44100, 2, Some(vec![0, 147]), None, 1),
        Err(OptionsError::InvalidDiv(0))
    );
    assert_eq!(
        StreamerOptions::new(44100, 2, Some(vec![]), None, 1),
        Err(OptionsError::InvalidDiv(0))
    );
    assert_eq!(
        StreamerOptions::new(44100, 2, None, Some(vec![]), 1),
        Err(OptionsError::EmptyFeatures)
    );
    assert_eq!(
        StreamerOptions::new(44100, 2, None, None, 0),
        Err(OptionsError::EmptyMipmapLevels)
    );
}

#[test]
fn mipmap_levels_truncates_divs() {
    let opts = StreamerOptions::new(44100, 2, Some(vec![10, 20, 30]), None, 2).unwrap();
    assert_eq!(opts.wave_divs(), &[10, 20]);
    assert_eq!(opts.layer_count(), 2);
    let opts = StreamerOptions::new(44100, 2, Some(vec![10, 20]), None, 5).unwrap();
    assert_eq!(opts.wave_divs(), &[10, 20]);
}

#[test]
fn parse_and_name_are_inverse() {
    for f in Feature::ALL {
        assert_eq!(Feature::parse(f.name()), Some(f));
    }
    assert_eq!(Feature::parse("wave"), Some(Feature::Wave));
    assert_eq!(Feature::parse("spectral"), Some(Feature::Spectral));
    assert_eq!(Feature::parse("loudness"), Some(Feature::Loudness));
    assert_eq!(Feature::parse("Wave"), None);
    assert_eq!(Feature::parse(""), None);
    assert_eq!(Feature::parse("waves"), None);
}

#[test]
fn parse_features_defaults_and_errors() {
    assert_eq!(parse_features(None), Ok(vec![Feature::Wave]));
    assert_eq!(
        parse_features(Some(vec!["loudness".to_string(), "wave".to_string()])),
        Ok(vec![Feature::Loudness, Feature::Wave])
    );
    assert_eq!(
        parse_features(Some(vec!["wave".to_string(), "pitch".to_string(), "bogus".to_string()])),
        Err(OptionsError::UnknownFeature("pitch".to_string()))
    );
    assert_eq!(parse_features(Some(vec![])), Ok(vec![]));
}

#[test]
fn feature_order_and_repetition_do_not_matter() {
    let a = StreamerOptions::new(8000, 1, None, Some(vec![Feature::Spectral, Feature::Wave]), 1).unwrap();
    let b = StreamerOptions::new(
        8000,
        1,
        None,
        Some(vec![Feature::Wave, Feature::Spectral, Feature::Spectral]),
        1,
    )
    .unwrap();
    assert_eq!(a.features, b.features);
    assert_eq!(a.features, vec![Feature::Wave, Feature::Spectral]);
}

#[test]
fn explicit_divs_are_kept_and_default_divs_used_otherwise() {
    let opts = StreamerOptions::new(48000, 1, Some(vec![5, 3]), None, 3).unwrap();
    assert_eq!(opts.divs, vec![5, 3]);
    assert_eq!(opts.mipmap_levels, 3);
    let opts = StreamerOptions::new(48000, 1, None, None, 3).unwrap();
    assert_eq!(opts.divs, vec![160, 2400, 48000]);
    assert_eq!(opts.layer_count(), 3);
    assert_eq!(choose_division_factors(0), vec![1, 1, 0]);
}

#[test]
fn channel_check_comes_before_div_check() {
    assert_eq!(
        StreamerOptions::new(44100, 0, Some(vec![0]), Some(vec![]), 0),
        Err(OptionsError::InvalidChannels(0))
    );
    assert_eq!(
        StreamerOptions::new(44100, 1, Some(vec![0]), Some(vec![]), 0),
        Err(OptionsError::InvalidDiv(0))
    );
    assert_eq!(
        StreamerOptions::new(44100, 1, Some(vec![1]), Some(vec![]), 0),
        Err(OptionsError::EmptyFeatures)
    );
}
