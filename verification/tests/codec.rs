use dtm::decode::DecodeError;
use dtm::encode::EncodeError;
use dtm::DTM;

fn descriptor(channel_count: u32, width: u32, height: u32) -> DTM {
    DTM { pixel_size: 2, channel_count, width, height }
}

/// The 28-byte container header for the given dimensions and plane lengths.
fn header(pixel_size: u8, width: u32, height: u32, sizes: [u32; 4]) -> Vec<u8> {
    let mut out = Vec::new();
    out.extend_from_slice(b"dtm");
    out.push(pixel_size);
    out.extend_from_slice(&width.to_be_bytes());
    out.extend_from_slice(&height.to_be_bytes());
    for s in sizes.iter() {
        out.extend_from_slice(&s.to_be_bytes());
    }
    out
}

/// Pixel-interleaves per-channel sample planes into little-endian bytes.
fn interleave(planes: &[Vec<u16>]) -> Vec<u8> {
    let n = planes[0].len();
    let mut out = Vec::new();
    for i in 0..n {
        for plane in planes.iter() {
            out.extend_from_slice(&plane[i].to_le_bytes());
        }
    }
    out
}

#[test]
fn constant_plane() {
    let d = descriptor(1, 8, 8);
    let pixels = interleave(&[vec![0x1234u16; 64]]);
    let encoded = d.encode_alloc(&pixels).unwrap();

    let mut expected = header(2, 8, 8, [4, 0, 0, 0]);
    expected.extend_from_slice(&[0xFF, 0x34, 0x12, 0xFE]);
    assert_eq!(encoded.len(), 32);
    assert_eq!(encoded, expected);

    let (back, decoded) = DTM::decode_alloc(&encoded).unwrap();
    assert_eq!(back, d);
    assert_eq!(decoded, pixels);
}

#[test]
fn zero_plane() {
    let d = descriptor(1, 4, 4);
    let pixels = vec![0u8; 32];
    let encoded = d.encode_alloc(&pixels).unwrap();

    let mut expected = header(2, 4, 4, [2, 0, 0, 0]);
    expected.extend_from_slice(&[0x60, 0xCE]);
    assert_eq!(encoded, expected);

    let (back, decoded) = DTM::decode_alloc(&encoded).unwrap();
    assert_eq!(back, d);
    assert_eq!(decoded, pixels);
}

#[test]
fn roundtrip_random_noise() {
    let d = descriptor(1, 16, 16);
    let mut state: u32 = 12345;
    let mut samples = Vec::new();
    for _ in 0..256 {
        state = state.wrapping_mul(1103515245).wrapping_add(12345);
        samples.push((state >> 8) as u16);
    }
    let pixels = interleave(&[samples]);

    let encoded = d.encode_alloc(&pixels).unwrap();
    // The opcode stream cannot beat the raw size, so the plane is stored
    // verbatim: exactly 2 * 16 * 16 = 512 bytes.
    assert_eq!(encoded.len(), 28 + 512);
    assert_eq!(&encoded[..28], &header(2, 16, 16, [512, 0, 0, 0])[..]);

    let (back, decoded) = DTM::decode_alloc(&encoded).unwrap();
    assert_eq!(back, d);
    assert_eq!(decoded, pixels);
}

#[test]
fn two_channel_dual_encode() {
    let d = descriptor(2, 4, 4);
    let pixels = interleave(&[vec![0x0000u16; 16], vec![0xFFFFu16; 16]]);
    let encoded = d.encode_alloc(&pixels).unwrap();

    let mut expected = header(2, 4, 4, [2, 4, 0, 0]);
    expected.extend_from_slice(&[0x60, 0xCE]);
    expected.extend_from_slice(&[0xFF, 0xFF, 0xFF, 0xCE]);
    assert_eq!(encoded, expected);

    let (back, decoded) = DTM::decode_alloc(&encoded).unwrap();
    assert_eq!(back, d);
    assert_eq!(decoded, pixels);
}

#[test]
fn invalid_magic() {
    let mut bad = vec![0u8; 28];
    bad[0] = b'x';
    bad[1] = b'y';
    bad[2] = b'z';
    assert_eq!(DTM::decode_alloc(&bad), Err(DecodeError::InvalidMagic));
}

#[test]
fn truncated_plane() {
    let mut file = header(2, 16, 16, [100, 0, 0, 0]);
    file.extend_from_slice(&[0u8; 50]);
    assert_eq!(DTM::decode_alloc(&file), Err(DecodeError::InsufficientInputData));
}

#[test]
fn roundtrip_gradients_multichannel() {
    for cc in 1..=4u32 {
        let d = descriptor(cc, 7, 5);
        let mut planes = Vec::new();
        for c in 0..cc {
            let mut plane = Vec::new();
            for i in 0..35u32 {
                plane.push((i * 3 + c * 1000 + (i % 7) * 17) as u16);
            }
            planes.push(plane);
        }
        let pixels = interleave(&planes);
        let encoded = d.encode_alloc(&pixels).unwrap();
        let (back, decoded) = DTM::decode_alloc(&encoded).unwrap();
        assert_eq!(back, d);
        assert_eq!(decoded, pixels);
    }
}

#[test]
fn roundtrip_checkerboard() {
    let d = descriptor(1, 8, 8);
    let mut samples = Vec::new();
    for i in 0..64usize {
        let row = i / 8;
        let col = i % 8;
        samples.push(if (row + col) % 2 == 0 { 0x8000 } else { 0x7FFF });
    }
    let pixels = interleave(&[samples]);
    let encoded = d.encode_alloc(&pixels).unwrap();
    let (back, decoded) = DTM::decode_alloc(&encoded).unwrap();
    assert_eq!(back, d);
    assert_eq!(decoded, pixels);
}

#[test]
fn plane_independence() {
    // Channel 1 of a two-channel image encodes to the same payload as a
    // single-channel image holding only that plane.
    let d2 = descriptor(2, 4, 4);
    let pixels = interleave(&[vec![0x0000u16; 16], vec![0xFFFFu16; 16]]);
    let dual = d2.encode_alloc(&pixels).unwrap();

    let d1 = descriptor(1, 4, 4);
    let single = d1.encode_alloc(&interleave(&[vec![0xFFFFu16; 16]])).unwrap();

    // Plane 0 is 2 bytes long, so plane 1 occupies bytes 30..34.
    assert_eq!(&dual[30..34], &single[28..]);
}

#[test]
fn never_expands() {
    // A noisy plane falls back to the raw copy and stops at 2*w*h bytes; a
    // smooth plane stays strictly below it.
    let d = descriptor(1, 16, 16);
    let mut state: u32 = 99991;
    let mut samples = Vec::new();
    for _ in 0..256 {
        state = state.wrapping_mul(1103515245).wrapping_add(12345);
        samples.push((state >> 8) as u16);
    }
    let noisy = d.encode_alloc(&interleave(&[samples])).unwrap();
    assert_eq!(noisy.len() - 28, 512);

    let smooth = d.encode_alloc(&interleave(&[vec![42u16; 256]])).unwrap();
    assert!(smooth.len() - 28 < 512);
}

#[test]
fn swap_adjacent_equal_samples() {
    // Swapping two adjacent equal samples leaves the buffer, and therefore
    // the encoding, unchanged; runs keep the recency cache up to date.
    let d = descriptor(1, 4, 2);
    let original = vec![7u16, 7, 7, 9, 9, 9, 7, 7];
    let mut swapped = original.clone();
    swapped.swap(0, 1);
    swapped.swap(4, 5);
    let a = d.encode_alloc(&interleave(&[original])).unwrap();
    let b = d.encode_alloc(&interleave(&[swapped])).unwrap();
    assert_eq!(a, b);
}

#[test]
fn predictor_prefix_agreement() {
    // The predictor consults only samples before the target index, so the
    // encoder (whole plane) and the decoder (decoded prefix) agree on it.
    let samples: Vec<u16> = vec![3, 9, 1, 4, 8, 2, 6, 5, 7, 0, 11, 13];
    let w = 4usize;
    for i in 0..samples.len() {
        let whole = dtm::plane::paeth(&samples, w, i);
        let prefix = dtm::plane::paeth(&samples[..i], w, i);
        assert_eq!(whole, prefix);
    }
}

#[test]
fn double_diff_packing() {
    let d = descriptor(1, 4, 1);
    let pixels = interleave(&[vec![0u16, 2, 1, 0]]);
    let encoded = d.encode_alloc(&pixels).unwrap();

    let mut expected = header(2, 4, 1, [2, 0, 0, 0]);
    expected.extend_from_slice(&[0xA6, 0x9B]);
    assert_eq!(encoded, expected);

    let (_, decoded) = DTM::decode_alloc(&encoded).unwrap();
    assert_eq!(decoded, pixels);
}

#[test]
fn run_of_one_fuses_into_double_diff() {
    // A pending diff followed by a one-sample run becomes one packed opcode.
    let d = descriptor(1, 4, 1);
    let pixels = interleave(&[vec![1u16, 1, 5, 5]]);
    let encoded = d.encode_alloc(&pixels).unwrap();

    let mut expected = header(2, 4, 1, [3, 0, 0, 0]);
    expected.extend_from_slice(&[0xAC, 0x64, 0xC0]);
    assert_eq!(encoded, expected);

    let (_, decoded) = DTM::decode_alloc(&encoded).unwrap();
    assert_eq!(decoded, pixels);
}

#[test]
fn pending_diff_then_long_run() {
    let d = descriptor(1, 4, 1);
    let pixels = interleave(&[vec![3u16, 3, 3, 9]]);
    let encoded = d.encode_alloc(&pixels).unwrap();

    let mut expected = header(2, 4, 1, [3, 0, 0, 0]);
    expected.extend_from_slice(&[0x63, 0xC1, 0x66]);
    assert_eq!(encoded, expected);

    let (_, decoded) = DTM::decode_alloc(&encoded).unwrap();
    assert_eq!(decoded, pixels);
}

#[test]
fn cache_opcode() {
    // 5000 enters the cache at slot 8; when it recurs far from its
    // prediction, a one-byte cache opcode recalls it.
    let d = descriptor(1, 4, 1);
    let pixels = interleave(&[vec![5000u16, 0, 3, 5000]]);
    let encoded = d.encode_alloc(&pixels).unwrap();

    let mut expected = header(2, 4, 1, [6, 0, 0, 0]);
    expected.extend_from_slice(&[0xFF, 0x88, 0x13, 0x00, 0x63, 0x08]);
    assert_eq!(encoded, expected);

    let (_, decoded) = DTM::decode_alloc(&encoded).unwrap();
    assert_eq!(decoded, pixels);
}

#[test]
fn long_runs_split_at_sixty_three() {
    let d = descriptor(1, 100, 2);
    let pixels = interleave(&[vec![0u16; 200]]);
    let encoded = d.encode_alloc(&pixels).unwrap();
    let (back, decoded) = DTM::decode_alloc(&encoded).unwrap();
    assert_eq!(back, d);
    assert_eq!(decoded, pixels);
}

#[test]
fn encode_short_buffer() {
    let d = descriptor(1, 4, 4);
    let pixels = vec![0u8; 10];
    assert_eq!(d.encode_alloc(&pixels), Err(EncodeError::InsufficientInputData));
}

#[test]
fn decode_zero_channels() {
    let file = header(2, 4, 4, [0, 0, 0, 0]);
    assert_eq!(DTM::decode_alloc(&file), Err(DecodeError::InvalidChannels));
}

#[test]
fn decode_bad_pixel_size() {
    let mut file = header(3, 4, 4, [2, 0, 0, 0]);
    file.extend_from_slice(&[0x60, 0xCE]);
    assert_eq!(DTM::decode_alloc(&file), Err(DecodeError::InvalidChannels));
}

#[test]
fn decode_oversized_plane() {
    let mut file = header(2, 1, 1, [3, 0, 0, 0]);
    file.extend_from_slice(&[0, 0, 0]);
    assert_eq!(DTM::decode_alloc(&file), Err(DecodeError::InvalidChannels));
}

#[test]
fn decode_underfilled_plane() {
    let mut file = header(2, 2, 2, [1, 0, 0, 0]);
    file.push(0x60);
    assert_eq!(DTM::decode_alloc(&file), Err(DecodeError::InsufficientInputData));
}

#[test]
fn decode_overfilled_plane() {
    let mut file = header(2, 2, 2, [2, 0, 0, 0]);
    file.extend_from_slice(&[0xCE, 0xCE]);
    assert_eq!(DTM::decode_alloc(&file), Err(DecodeError::InsufficientInputData));
}

#[test]
fn decode_literal_missing_payload() {
    let mut file = header(2, 2, 2, [1, 0, 0, 0]);
    file.push(0xFF);
    assert_eq!(DTM::decode_alloc(&file), Err(DecodeError::InsufficientInputData));
}

#[test]
fn decode_short_header() {
    assert_eq!(DTM::decode_alloc(&[0x64, 0x74, 0x6D]), Err(DecodeError::InsufficientInputData));
}

#[test]
fn decode_into_buffer() {
    let d = descriptor(1, 4, 4);
    let pixels = vec![0u8; 32];
    let encoded = d.encode_alloc(&pixels).unwrap();

    let mut buffer = vec![0xAAu8; 40];
    let back = DTM::decode(&encoded, &mut buffer).unwrap();
    assert_eq!(back, d);
    assert_eq!(&buffer[..32], &pixels[..]);
    assert_eq!(&buffer[32..], &[0xAAu8; 8][..]);
}

#[test]
fn sizes() {
    let d = descriptor(3, 5, 7);
    assert_eq!(d.image_size(), 2 * 3 * 5 * 7);
    assert_eq!(d.channel_size(), 2 * 5 * 7);
}

#[test]
fn single_pixel() {
    let d = descriptor(1, 1, 1);
    let pixels = vec![0u8, 0];
    let encoded = d.encode_alloc(&pixels).unwrap();

    let mut expected = header(2, 1, 1, [1, 0, 0, 0]);
    expected.push(0x60);
    assert_eq!(encoded, expected);

    let (back, decoded) = DTM::decode_alloc(&encoded).unwrap();
    assert_eq!(back, d);
    assert_eq!(decoded, pixels);
}

#[test]
fn run_boundary_at_sixty_three() {
    // 64 equal samples after the first one: a full 63-run opcode, then a
    // run of one.
    let d = descriptor(1, 65, 1);
    let pixels = interleave(&[vec![7u16; 65]]);
    let encoded = d.encode_alloc(&pixels).unwrap();

    let mut expected = header(2, 65, 1, [3, 0, 0, 0]);
    expected.extend_from_slice(&[0x67, 0xFE, 0xC0]);
    assert_eq!(encoded, expected);

    let (back, decoded) = DTM::decode_alloc(&encoded).unwrap();
    assert_eq!(back, d);
    assert_eq!(decoded, pixels);
}
