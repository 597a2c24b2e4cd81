use filecord::codec::compress_zstd;
use filecord::codec::decoded_or_corrupt;
use filecord::codec::decompress_zstd;
use filecord::codec::encoded_or_failed;
use filecord::codec::CodecError;

fn sample(n: usize) -> Vec<u8> {
    (0..n).map(|i| ((i * 31 + i / 7) % 251) as u8).collect()
}

#[test]
fn decompress_inverts_compress() {
    for n in [0usize, 1, 2, 100, 5000, 70_000] {
        let data = sample(n);
        for level in [-5, 0, 1, 3, 19, 22, 1000] {
            let packed = compress_zstd(&data, level).unwrap();
            assert_eq!(decompress_zstd(&packed), Ok(data.clone()));
        }
    }
}

#[test]
fn compressed_stream_is_a_zstd_frame_and_not_the_input() {
    let data = vec![7u8; 4096];
    let packed = compress_zstd(&data, 3).unwrap();
    assert_eq!(&packed[..4], &[0x28, 0xb5, 0x2f, 0xfd]);
    assert!(packed.len() < data.len());
    assert_ne!(packed, data);
}

#[test]
fn frame_carries_a_checksum() {
    let data = sample(1000);
    let packed = compress_zstd(&data, 3).unwrap();
    assert_eq!(packed[4] & 0x04, 0x04);
    let mut damaged = packed.clone();
    let last = damaged.len() - 1;
    damaged[last] ^= 0x01;
    assert_eq!(decompress_zstd(&damaged), Err(CodecError::CorruptStream));
}

#[test]
fn corrupted_stream_is_rejected() {
    let data = sample(3000);
    let packed = compress_zstd(&data, 3).unwrap();
    for i in 0..packed.len() {
        let mut damaged = packed.clone();
        damaged[i] ^= 0x10;
        match decompress_zstd(&damaged) {
            Err(e) => assert_eq!(e, CodecError::CorruptStream),
            Ok(out) => assert_eq!(out, data),
        }
    }
}

#[test]
fn truncated_stream_is_rejected() {
    let data = sample(3000);
    let packed = compress_zstd(&data, 3).unwrap();
    for keep in 0..packed.len() {
        assert_eq!(decompress_zstd(&packed[..keep]), Err(CodecError::CorruptStream));
    }
}

#[test]
fn raw_bytes_are_not_a_stream() {
    assert_eq!(decompress_zstd(b""), Err(CodecError::CorruptStream));
    assert_eq!(decompress_zstd(b"plain text, not compressed"), Err(CodecError::CorruptStream));
}

#[test]
fn outcomes_of_the_encoder_and_decoder_are_mapped() {
    let boom = || std::io::Error::new(std::io::ErrorKind::Other, "boom");
    assert_eq!(encoded_or_failed(Ok(vec![1, 2, 3])), Ok(vec![1, 2, 3]));
    assert_eq!(encoded_or_failed(Err(boom())), Err(CodecError::EncoderFailed));
    assert_eq!(decoded_or_corrupt(Ok(vec![4, 5])), Ok(vec![4, 5]));
    assert_eq!(decoded_or_corrupt(Ok(Vec::new())), Ok(Vec::new()));
    assert_eq!(decoded_or_corrupt(Err(boom())), Err(CodecError::CorruptStream));
}

#[test]
fn compression_succeeds_at_every_level_tried() {
    let data = sample(2000);
    for level in [i32::MIN, -131072, -1, 0, 1, 22, 23, i32::MAX] {
        let packed = compress_zstd(&data, level);
        assert!(packed.is_ok());
        assert_eq!(decompress_zstd(&packed.unwrap()), Ok(data.clone()));
    }
}

#[test]
fn the_same_input_gives_the_same_frame() {
    let data = sample(5000);
    for level in [1, 3, 19] {
        assert_eq!(compress_zstd(&data, level), compress_zstd(&data, level));
    }
}
