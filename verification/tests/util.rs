use btsniffer::util::{
    neighbor_id, rand_bytes, rand_infohash_key, rand_join_pause, rand_transation_id, CLOSENESS,
    KEY_LENGTH, TID_LENGTH,
};

#[test]
fn test_rand_bytes() {
    let b1 = rand_bytes(KEY_LENGTH);
    assert_eq!(b1.len(), KEY_LENGTH);
    let b2 = rand_bytes(KEY_LENGTH);
    assert_eq!(b2.len(), KEY_LENGTH);
    assert_ne!(b1, b2);
}

#[test]
fn test_rand_transation_id() {
    let id1 = rand_transation_id();
    assert_eq!(id1.len(), TID_LENGTH);
    let id2 = rand_transation_id();
    assert_eq!(id2.len(), TID_LENGTH);
    assert_ne!(id1, id2);
}

#[test]
fn test_neighbor_id() {
    let target = rand_infohash_key();
    let local = rand_infohash_key();
    let res = neighbor_id(&target, &local);
    assert_eq!(res[..CLOSENESS], target[..CLOSENESS]);
    assert_eq!(res[CLOSENESS..], local[CLOSENESS..]);
}

#[test]
fn neighbor_id_of_fixed_ids() {
    let res = neighbor_id(&[0xAA; 20], &[0xBB; 20]);
    assert_eq!(res.len(), 20);
    assert_eq!(res[..15], [0xAA; 15]);
    assert_eq!(res[15..], [0xBB; 5]);
}

#[test]
fn neighbor_id_takes_the_first_20_bytes_of_longer_ids() {
    let target: Vec<u8> = (0..30).collect();
    let local: Vec<u8> = (100..130).collect();
    let res = neighbor_id(&target, &local);
    let expected: Vec<u8> = (0..15).chain(115..120).collect();
    assert_eq!(res, expected);
}

#[test]
fn rand_bytes_are_not_the_zeros_they_overwrite() {
    assert_eq!(rand_bytes(0).len(), 0);
    assert_ne!(rand_bytes(64), vec![0u8; 64]);
    assert_eq!(rand_infohash_key().len(), 20);
}

#[test]
fn join_pause_is_two_to_five_seconds() {
    let mut seen = [false; 6];
    for _ in 0..400 {
        let n = rand_join_pause();
        assert!((2..=5).contains(&n));
        seen[n as usize] = true;
    }
    assert!(seen[2] && seen[3] && seen[4] && seen[5]);
}
