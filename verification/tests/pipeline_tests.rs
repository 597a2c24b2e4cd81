use filecord::chunker::ChunkSpec;
use filecord::codec::CodecError;
use filecord::crypto::CryptoError;
use filecord::hash::cid_blake3;
use filecord::hash::cid_sha256;
use filecord::hash::CidError;
use filecord::manifests::FileChunkRef;
use filecord::pipeline::assemble;
use filecord::pipeline::chunk_bytes;
use filecord::pipeline::copy_bytes;
use filecord::pipeline::prepare_payload;
use filecord::pipeline::restore_payload;
use filecord::pipeline::PipelineError;
use filecord::pipeline::Sealing;

fn content(n: usize) -> Vec<u8> {
    (0..n).map(|i| ((i * 7) % 256) as u8).collect()
}

fn sealing() -> Sealing {
    Sealing { key: [9u8; 32], nonce: [3u8; 24] }
}

#[test]
fn plain_content_is_published_as_it_is() {
    let data = content(5000);
    let p = prepare_payload(&data, None, None, 1600).unwrap();
    assert_eq!(p.payload, data);
    assert_eq!(p.plan.len(), 5);
    assert_eq!(p.file_cid, cid_blake3(&data));
    assert_eq!(p.size, 5000);
    assert!(p.z.is_none());
    assert!(p.enc.is_none());
    assert_eq!(restore_payload(&p.payload, false, None, &p.file_cid), Ok(data));
}

#[test]
fn compressed_content_is_marked_and_restored() {
    let data = vec![1u8; 5000];
    let p = prepare_payload(&data, Some(3), None, 1600).unwrap();
    assert!(p.payload.len() < 100);
    assert_eq!(p.plan.len(), 1);
    assert_eq!(p.z.as_deref(), Some("zstd"));
    assert!(p.enc.is_none());
    assert_eq!(p.size, 5000);
    assert_eq!(p.file_cid, cid_blake3(&data));
    assert_eq!(restore_payload(&p.payload, true, None, &p.file_cid), Ok(data));
}

#[test]
fn sealed_content_is_described_and_restored() {
    let data = content(1000);
    let p = prepare_payload(&data, None, Some(sealing()), 1600).unwrap();
    assert_eq!(p.payload.len(), 1016);
    assert_eq!(p.plan.len(), 1);
    let enc = p.enc.as_ref().unwrap();
    assert_eq!(enc.alg, "xchacha20poly1305");
    assert_eq!(enc.nonce, "030303030303030303030303030303030303030303030303");
    assert!(p.z.is_none());
    assert_eq!(restore_payload(&p.payload, false, Some(sealing()), &p.file_cid), Ok(data));
}

#[test]
fn content_is_compressed_before_it_is_sealed() {
    let data = vec![5u8; 20_000];
    let p = prepare_payload(&data, Some(1), Some(sealing()), 1600).unwrap();
    assert!(p.payload.len() < 200);
    assert_eq!(p.z.as_deref(), Some("zstd"));
    assert!(p.enc.is_some());
    assert_eq!(restore_payload(&p.payload, true, Some(sealing()), &p.file_cid), Ok(data));
}

#[test]
fn the_plan_tiles_the_payload() {
    let data = content(4321);
    for level in [None, Some(3)] {
        for seal in [None, Some(sealing())] {
            let p = prepare_payload(&data, level, seal, 400).unwrap();
            let mut joined: Vec<u8> = Vec::new();
            for (i, c) in p.plan.iter().enumerate() {
                assert_eq!(c.index, i);
                assert_eq!(c.offset, joined.len());
                assert!(c.size <= 300);
                joined.extend_from_slice(&chunk_bytes(&p.payload, c).unwrap());
            }
            assert_eq!(joined, p.payload);
        }
    }
}

#[test]
fn empty_content_has_no_chunk() {
    let p = prepare_payload(b"", None, None, 1600).unwrap();
    assert!(p.payload.is_empty());
    assert!(p.plan.is_empty());
    assert_eq!(p.size, 0);
    assert_eq!(restore_payload(&p.payload, false, None, &p.file_cid), Ok(Vec::new()));
}

#[test]
fn restoring_fails_at_the_first_step_that_fails() {
    let data = content(2000);
    let p = prepare_payload(&data, Some(3), Some(sealing()), 1600).unwrap();
    let mut tampered = p.payload.clone();
    tampered[0] ^= 1;
    assert_eq!(
        restore_payload(&tampered, true, Some(sealing()), &p.file_cid),
        Err(PipelineError::Crypto(CryptoError::AuthenticationFailure))
    );
    let wrong = Sealing { key: [8u8; 32], nonce: [3u8; 24] };
    assert_eq!(
        restore_payload(&p.payload, true, Some(wrong), &p.file_cid),
        Err(PipelineError::Crypto(CryptoError::AuthenticationFailure))
    );
    assert_eq!(
        restore_payload(&p.payload, true, None, &p.file_cid),
        Err(PipelineError::Codec(CodecError::CorruptStream))
    );
    assert_eq!(
        restore_payload(&p.payload, true, Some(sealing()), &cid_blake3(b"other")),
        Err(PipelineError::Cid(CidError::Mismatch))
    );
    assert_eq!(
        restore_payload(&p.payload, true, Some(sealing()), "unknown:00"),
        Err(PipelineError::Cid(CidError::UnknownAlgorithm))
    );
    assert_eq!(
        restore_payload(&p.payload, false, Some(sealing()), &p.file_cid),
        Err(PipelineError::Cid(CidError::Mismatch))
    );
    assert_eq!(restore_payload(&p.payload, true, Some(sealing()), &cid_sha256(&data)), Ok(data));
}

#[test]
fn chunk_bytes_are_the_slice_the_chunk_names() {
    let payload = content(10);
    let c = ChunkSpec { index: 1, offset: 3, size: 4 };
    assert_eq!(chunk_bytes(&payload, &c), Some(payload[3..7].to_vec()));
    let whole = ChunkSpec { index: 0, offset: 0, size: 10 };
    assert_eq!(chunk_bytes(&payload, &whole), Some(payload.clone()));
    let none = ChunkSpec { index: 0, offset: 10, size: 0 };
    assert_eq!(chunk_bytes(&payload, &none), Some(Vec::new()));
    let past = ChunkSpec { index: 0, offset: 8, size: 3 };
    assert_eq!(chunk_bytes(&payload, &past), None);
    let far = ChunkSpec { index: 0, offset: 11, size: 0 };
    assert_eq!(chunk_bytes(&payload, &far), None);
    let huge = ChunkSpec { index: 0, offset: 1, size: usize::MAX };
    assert_eq!(chunk_bytes(&payload, &huge), None);
    assert_eq!(copy_bytes(&payload), payload);
    assert_eq!(copy_bytes(b""), Vec::<u8>::new());
}

fn reference(i: usize, bytes: &[u8]) -> FileChunkRef {
    FileChunkRef { i, cid: cid_blake3(bytes), msg: format!("m{}", i) }
}

#[test]
fn fetched_chunks_are_joined_in_order() {
    let parts = vec![b"abc".to_vec(), b"".to_vec(), b"defg".to_vec()];
    let refs: Vec<FileChunkRef> = parts.iter().enumerate().map(|(i, p)| reference(i, p)).collect();
    assert_eq!(assemble(&refs, &parts), Ok(b"abcdefg".to_vec()));
    assert_eq!(assemble(&Vec::new(), &Vec::new()), Ok(Vec::new()));
}

#[test]
fn a_fetched_chunk_must_bear_the_identifier_of_its_reference() {
    let parts = vec![b"abc".to_vec(), b"def".to_vec()];
    let refs: Vec<FileChunkRef> = parts.iter().enumerate().map(|(i, p)| reference(i, p)).collect();
    let swapped = vec![b"def".to_vec(), b"abc".to_vec()];
    assert_eq!(assemble(&refs, &swapped), Err(PipelineError::Cid(CidError::Mismatch)));
    let damaged = vec![b"abc".to_vec(), b"deF".to_vec()];
    assert_eq!(assemble(&refs, &damaged), Err(PipelineError::Cid(CidError::Mismatch)));
    let mut untagged = refs.clone();
    untagged[1].cid = "nothing".to_string();
    assert_eq!(assemble(&untagged, &parts), Err(PipelineError::Cid(CidError::UnknownAlgorithm)));
    untagged[0].cid = cid_blake3(b"other");
    assert_eq!(assemble(&untagged, &parts), Err(PipelineError::Cid(CidError::Mismatch)));
}

#[test]
fn every_reference_needs_its_chunk() {
    let parts = vec![b"abc".to_vec(), b"def".to_vec()];
    let refs: Vec<FileChunkRef> = parts.iter().enumerate().map(|(i, p)| reference(i, p)).collect();
    assert_eq!(assemble(&refs, &parts[..1].to_vec()), Err(PipelineError::ChunkCount));
    assert_eq!(assemble(&refs[..1].to_vec(), &parts), Err(PipelineError::ChunkCount));
    assert_eq!(assemble(&refs, &Vec::new()), Err(PipelineError::ChunkCount));
}

#[test]
fn assembling_inverts_chunking() {
    let data = content(4321);
    let p = prepare_payload(&data, Some(3), Some(sealing()), 400).unwrap();
    let parts: Vec<Vec<u8>> = p.plan.iter().map(|c| chunk_bytes(&p.payload, c).unwrap()).collect();
    let refs: Vec<FileChunkRef> = parts.iter().enumerate().map(|(i, b)| reference(i, b)).collect();
    let payload = assemble(&refs, &parts).unwrap();
    assert_eq!(payload, p.payload);
    assert_eq!(restore_payload(&payload, true, Some(sealing()), &p.file_cid), Ok(data));
}

#[test]
fn five_thousand_sealed_bytes_are_published_in_five_chunks() {
    let data = content(5000);
    let p = prepare_payload(&data, None, Some(sealing()), 1600).unwrap();
    assert_eq!(p.payload.len(), 5016);
    let sizes: Vec<usize> = p.plan.iter().map(|c| c.size).collect();
    assert_eq!(sizes, vec![1200, 1200, 1200, 1200, 216]);
    let offsets: Vec<usize> = p.plan.iter().map(|c| c.offset).collect();
    assert_eq!(offsets, vec![0, 1200, 2400, 3600, 4800]);
}
