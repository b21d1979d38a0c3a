use chuangshi::codec::{CodecError, ErasureCoder};

fn payload(n: usize) -> Vec<u8> {
    (0..n).map(|i| (i * 31 + 7) as u8).collect()
}

fn decode_all(c: &ErasureCoder, shards: &[Vec<u8>]) -> Vec<u8> {
    let idx: Vec<usize> = (0..shards.len()).collect();
    c.decode(shards, &idx).unwrap()
}

#[test]
fn encode_cuts_into_equal_shards() {
    let c = ErasureCoder::new(4, 2).unwrap();
    let data = payload(4096);
    let shards = c.encode(&data).unwrap();
    assert_eq!(shards.len(), 6);
    for s in &shards {
        assert_eq!(s.len(), 1024);
    }
    for i in 0..4 {
        assert_eq!(shards[i], data[i * 1024..(i + 1) * 1024].to_vec());
    }
}

#[test]
fn encode_pads_last_data_shard_with_zeros() {
    let c = ErasureCoder::new(3, 1).unwrap();
    let shards = c.encode(&[1, 2, 3, 4]).unwrap();
    assert_eq!(shards.len(), 4);
    assert_eq!(shards[0], vec![1, 2]);
    assert_eq!(shards[1], vec![3, 4]);
    assert_eq!(shards[2], vec![0, 0]);
    assert_eq!(shards[3].len(), 2);
}

#[test]
fn parity_is_computed() {
    let c = ErasureCoder::new(2, 2).unwrap();
    let shards = c.encode(&[1, 2, 3, 4]).unwrap();
    assert_ne!(shards[2], vec![0, 0]);
    assert_ne!(shards[3], vec![0, 0]);
}

#[test]
fn round_trip_all_sizes_and_counts() {
    for (k, m) in [(1, 0), (1, 1), (2, 1), (3, 2), (4, 2), (5, 0), (10, 4)] {
        let c = ErasureCoder::new(k, m).unwrap();
        for n in [0usize, 1, 7, 4 * k, 4 * k + 1, 1000] {
            let data = payload(n);
            let shards = c.encode(&data).unwrap();
            assert_eq!(shards.len(), k + m);
            let out = decode_all(&c, &shards);
            assert_eq!(out[..n].to_vec(), data);
            assert!(out[n..].iter().all(|b| *b == 0));
        }
    }
}

#[test]
fn any_k_of_k_plus_m_shards_recover() {
    let (k, m) = (4usize, 2usize);
    let c = ErasureCoder::new(k, m).unwrap();
    let data = payload(4097);
    let shards = c.encode(&data).unwrap();
    for a in 0..k + m {
        for b in a + 1..k + m {
            let idx: Vec<usize> = (0..k + m).filter(|i| *i != a && *i != b).collect();
            let kept: Vec<Vec<u8>> = idx.iter().map(|i| shards[*i].clone()).collect();
            let out = c.decode(&kept, &idx).unwrap();
            assert_eq!(out[..data.len()].to_vec(), data);
        }
    }
}

#[test]
fn shards_in_any_order_recover() {
    let c = ErasureCoder::new(3, 3).unwrap();
    let data = payload(300);
    let shards = c.encode(&data).unwrap();
    let idx = vec![5usize, 3, 4];
    let kept: Vec<Vec<u8>> = idx.iter().map(|i| shards[*i].clone()).collect();
    let out = c.decode(&kept, &idx).unwrap();
    assert_eq!(out[..300].to_vec(), data);
}

#[test]
fn decode_fewer_than_k_shards_fails() {
    let c = ErasureCoder::new(4, 2).unwrap();
    let shards = c.encode(&payload(100)).unwrap();
    let idx = vec![0usize, 1, 5];
    let kept: Vec<Vec<u8>> = idx.iter().map(|i| shards[*i].clone()).collect();
    assert_eq!(c.decode(&kept, &idx), Err(CodecError::DecodingError));
}

#[test]
fn decode_rejects_bad_indices_and_lengths() {
    let c = ErasureCoder::new(2, 1).unwrap();
    let shards = c.encode(&payload(10)).unwrap();
    assert_eq!(
        c.decode(&[shards[0].clone(), shards[0].clone()], &[0, 0]),
        Err(CodecError::DecodingError)
    );
    assert_eq!(
        c.decode(&[shards[0].clone(), shards[1].clone()], &[0, 3]),
        Err(CodecError::DecodingError)
    );
    assert_eq!(
        c.decode(&[shards[0].clone(), vec![1, 2]], &[0, 1]),
        Err(CodecError::DecodingError)
    );
    assert_eq!(c.decode(&[shards[0].clone()], &[0, 1]), Err(CodecError::DecodingError));
}

#[test]
fn invalid_counts_are_refused() {
    assert!(matches!(ErasureCoder::new(0, 2), Err(CodecError::EncodingError)));
    assert!(matches!(ErasureCoder::new(0, 0), Err(CodecError::EncodingError)));
    assert!(matches!(ErasureCoder::new(200, 56), Err(CodecError::EncodingError)));
    assert!(ErasureCoder::new(200, 55).is_ok());
    let c = ErasureCoder::new(3, 0).unwrap();
    assert_eq!(c.data_shards(), 3);
    assert_eq!(c.parity_shards(), 0);
}

#[test]
fn empty_payload_round_trips() {
    let c = ErasureCoder::new(4, 2).unwrap();
    let shards = c.encode(&[]).unwrap();
    assert_eq!(shards.len(), 6);
    assert!(shards.iter().all(|s| s.is_empty()));
    let out = c.decode(&shards[2..].to_vec(), &[2, 3, 4, 5]).unwrap();
    assert!(out.is_empty());
}

#[test]
fn largest_shard_count_recovers() {
    let (k, m) = (250usize, 5usize);
    let c = ErasureCoder::new(k, m).unwrap();
    let data = payload(1000);
    let shards = c.encode(&data).unwrap();
    assert_eq!(shards.len(), 255);
    let idx: Vec<usize> = (5..255).collect();
    let kept: Vec<Vec<u8>> = idx.iter().map(|i| shards[*i].clone()).collect();
    let out = c.decode(&kept, &idx).unwrap();
    assert_eq!(out[..1000].to_vec(), data);
}
