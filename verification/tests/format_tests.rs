use reapeaks::format::{assemble, loudness_header, spectral_header, wave_header, LayerData, MipmapHeader};

#[test]
fn header_layout_matches_spec() {
    let wave = LayerData {
        headers: vec![wave_header(147, 3)],
        data: vec![vec![1, 2, 3, 4]],
    };
    let out = assemble(2, 44100, 123, 456, &[wave]);
    assert_eq!(&out[0..4], b"RPKN");
    assert_eq!(out[4], 2);
    assert_eq!(out[5], 1);
    assert_eq!(&out[6..10], &44100i32.to_le_bytes());
    assert_eq!(&out[10..14], &123i32.to_le_bytes());
    assert_eq!(&out[14..18], &456i32.to_le_bytes());
    assert_eq!(&out[18..22], &147i32.to_le_bytes());
    assert_eq!(&out[22..26], &3i32.to_le_bytes());
    assert_eq!(&out[26..], &[1, 2, 3, 4]);
}

#[test]
fn data_section_concatenated_in_layer_order() {
    let wave = LayerData {
        headers: vec![wave_header(4, 1)],
        data: vec![vec![1, 2]],
    };
    let spec = LayerData {
        headers: vec![spectral_header(1)],
        data: vec![vec![3, 4]],
    };
    let loud = LayerData {
        headers: vec![loudness_header(1)],
        data: vec![vec![5, 6]],
    };
    let out = assemble(1, 8000, 0, 0, &[wave, spec, loud]);
    assert_eq!(out[5], 3);
    // 18 header bytes and three 8-byte mipmap headers precede the payload.
    assert_eq!(&out[42..], &[1, 2, 3, 4, 5, 6]);
}

#[test]
fn byte_order_little_endian() {
    let wave = LayerData {
        headers: vec![wave_header(0x0102_0304, 0x0506_0708)],
        data: vec![vec![1]],
    };
    let out = assemble(1, 0x0A0B_0C0D, 0x1112_1314, 0x1516_1718, &[wave]);
    assert_eq!(&out[6..10], &[0x0D, 0x0C, 0x0B, 0x0A]);
    assert_eq!(&out[10..14], &[0x14, 0x13, 0x12, 0x11]);
    assert_eq!(&out[14..18], &[0x18, 0x17, 0x16, 0x15]);
    assert_eq!(&out[18..22], &[0x04, 0x03, 0x02, 0x01]);
    assert_eq!(&out[22..26], &[0x08, 0x07, 0x06, 0x05]);
}

#[test]
fn negative_tokens_for_spectral_and_loudness() {
    assert_eq!(spectral_header(1).div, -('s' as i32));
    assert_eq!(loudness_header(1).div, -('r' as i32));
    assert!(wave_header(100, 1).div > 0);
}

#[test]
fn headers_precede_payloads_for_several_mipmaps() {
    // Two wave mipmaps and one spectral mipmap: 18 + 3 * 8 header bytes.
    let wave = LayerData {
        headers: vec![wave_header(2, 1), wave_header(4, 1)],
        data: vec![vec![9, 8], vec![7]],
    };
    let spec = LayerData {
        headers: vec![MipmapHeader { div: -115, peak_count: 2 }],
        data: vec![vec![6, 5, 4]],
    };
    let out = assemble(1, 1000, -1, -2, &[wave, spec]);
    assert_eq!(out.len(), 18 + 24 + 6);
    assert_eq!(out[5], 3);
    assert_eq!(&out[10..14], &(-1i32).to_le_bytes());
    assert_eq!(&out[14..18], &(-2i32).to_le_bytes());
    assert_eq!(&out[18..22], &2i32.to_le_bytes());
    assert_eq!(&out[26..30], &4i32.to_le_bytes());
    assert_eq!(&out[34..38], &(-115i32).to_le_bytes());
    assert_eq!(&out[38..42], &2i32.to_le_bytes());
    assert_eq!(&out[42..], &[9, 8, 7, 6, 5, 4]);
}

#[test]
fn empty_layer_list_gives_bare_header() {
    let out = assemble(3, 48000, 0, 0, &[]);
    assert_eq!(out.len(), 18);
    assert_eq!(&out[0..4], b"RPKN");
    assert_eq!(out[4], 3);
    assert_eq!(out[5], 0);
}

#[test]
fn wave_header_keeps_div_and_count() {
    let h = wave_header(147, 9);
    assert_eq!(h, MipmapHeader { div: 147, peak_count: 9 });
    assert_eq!(loudness_header(7).peak_count, 7);
    assert_eq!(spectral_header(5).peak_count, 5);
}
