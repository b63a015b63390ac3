use merkle_inclusion_air::air::MmrAir;
use merkle_inclusion_air::bits::{decode_digest, encode_digest, push_hash_as_bits};
use merkle_inclusion_air::trace::{
    compute_root, generate_inclusion_trace, generate_trace_values, push_row, DIRECTION_COLUMN,
    LEFT_COLUMN, RESULT_COLUMN, RIGHT_COLUMN, ROW_WIDTH,
};
use p3_field::PrimeField32;
use p3_matrix::Matrix;
use p3_sha256::Sha256;
use p3_symmetric::CryptographicHasher;

fn h(bytes: &[u8]) -> [u8; 32] {
    Sha256.hash_iter(bytes.iter().copied())
}

fn join(left: &[u8; 32], right: &[u8; 32]) -> [u8; 32] {
    let mut concat = [0u8; 64];
    concat[..32].copy_from_slice(left);
    concat[32..].copy_from_slice(right);
    h(&concat)
}

fn row(trace: &[u8], i: usize) -> &[u8] {
    &trace[i * ROW_WIDTH..(i + 1) * ROW_WIDTH]
}

fn sample_path() -> Vec<(u8, [u8; 32])> {
    vec![(0, h(&[8])), (1, h(&[3])), (0, h(&[4])), (1, h(&[5]))]
}

#[test]
fn encode_orders_bytes_then_most_significant_bit_first() {
    let mut d = [0u8; 32];
    d[0] = 0x80;
    d[1] = 0x01;
    d[31] = 0xA5;
    let bits = encode_digest(&d);
    assert_eq!(bits.len(), 256);
    assert_eq!(&bits[0..8], &[1, 0, 0, 0, 0, 0, 0, 0]);
    assert_eq!(&bits[8..16], &[0, 0, 0, 0, 0, 0, 0, 1]);
    assert!(bits[16..248].iter().all(|&b| b == 0));
    assert_eq!(&bits[248..256], &[1, 0, 1, 0, 0, 1, 0, 1]);
}

#[test]
fn decode_inverts_encode() {
    let mut d = [0u8; 32];
    for (i, b) in d.iter_mut().enumerate() {
        *b = (i as u8).wrapping_mul(37).wrapping_add(11);
    }
    assert_eq!(decode_digest(&encode_digest(&d)), d);
    assert_eq!(decode_digest(&encode_digest(&[0xFF; 32])), [0xFF; 32]);
    assert_eq!(decode_digest(&encode_digest(&[0u8; 32])), [0u8; 32]);
}

#[test]
fn encode_of_a_hash_is_256_bits() {
    let input = [7u8; 64];
    let bits = encode_digest(&h(&input));
    assert_eq!(bits.len(), 256);
    assert!(bits.iter().all(|&b| b <= 1));
}

#[test]
fn push_hash_as_bits_appends() {
    let mut values = vec![9u8, 9];
    push_hash_as_bits(&mut values, [0xFF; 32]);
    assert_eq!(values.len(), 258);
    assert_eq!(&values[..2], &[9, 9]);
    assert!(values[2..].iter().all(|&b| b == 1));
}

#[test]
fn root_of_two_zero_digests() {
    let root = compute_root([0u8; 32], &vec![(0, [0u8; 32])]);
    let expected: [u8; 32] = [
        0xf5, 0xa5, 0xfd, 0x42, 0xd1, 0x6a, 0x20, 0x30, 0x27, 0x98, 0xef, 0x6e, 0xd3, 0x09, 0x97,
        0x9b, 0x43, 0x00, 0x3d, 0x23, 0x20, 0xd9, 0xf0, 0xe8, 0xea, 0x98, 0x31, 0xa9, 0x27, 0x59,
        0xfb, 0x4b,
    ];
    assert_eq!(root, expected);
}

#[test]
fn root_follows_direction_bits() {
    let leaf = h(&[26]);
    let sib = h(&[8]);
    assert_eq!(compute_root(leaf, &vec![(0, sib)]), join(&leaf, &sib));
    assert_eq!(compute_root(leaf, &vec![(1, sib)]), join(&sib, &leaf));
    assert_ne!(join(&leaf, &sib), join(&sib, &leaf));
    assert_eq!(compute_root(leaf, &vec![]), leaf);
}

#[test]
fn trace_has_one_row_per_step() {
    let leaf = h(&[1]);
    let path = sample_path();
    let root = compute_root(leaf, &path);
    let trace = generate_trace_values(leaf, &path);
    assert_eq!(trace.len(), path.len() * ROW_WIDTH);
    for i in 0..path.len() {
        let r = row(&trace, i);
        assert!(r[DIRECTION_COLUMN] <= 1);
        assert_eq!(r[DIRECTION_COLUMN], path[i].0);
        assert!(r.iter().all(|&b| b <= 1));
    }
}

#[test]
fn trace_rows_chain() {
    let leaf = h(&[1]);
    let path = sample_path();
    let trace = generate_trace_values(leaf, &path);
    for i in 1..path.len() {
        let r = row(&trace, i);
        let current = if r[DIRECTION_COLUMN] == 0 {
            &r[LEFT_COLUMN..RIGHT_COLUMN]
        } else {
            &r[RIGHT_COLUMN..DIRECTION_COLUMN]
        };
        let prev = row(&trace, i - 1);
        assert_eq!(
            decode_digest(current),
            decode_digest(&prev[RESULT_COLUMN..ROW_WIDTH])
        );
        let sibling = if r[DIRECTION_COLUMN] == 0 {
            &r[RIGHT_COLUMN..DIRECTION_COLUMN]
        } else {
            &r[LEFT_COLUMN..RIGHT_COLUMN]
        };
        assert_eq!(decode_digest(sibling), path[i].1);
    }
}

#[test]
fn trace_last_row_holds_root() {
    let leaf = h(&[1]);
    let path = sample_path();
    let mut expected = leaf;
    for (dir, sib) in &path {
        expected = if *dir == 0 { join(&expected, sib) } else { join(sib, &expected) };
    }
    let trace = generate_trace_values(leaf, &path);
    let last = row(&trace, path.len() - 1);
    assert_eq!(decode_digest(&last[RESULT_COLUMN..ROW_WIDTH]), expected);
    assert_eq!(compute_root(leaf, &path), expected);
}

#[test]
fn single_sibling_scenario_is_accepted() {
    let hashed_leaf = h(&[26]);
    let hashed_right_leaf = h(&[8]);
    let path = vec![(0u8, hashed_right_leaf)];
    let merkle_root = join(&hashed_leaf, &hashed_right_leaf);
    let trace = generate_trace_values(hashed_leaf, &path);
    assert_eq!(trace.len(), ROW_WIDTH);
    assert_eq!(&trace[RESULT_COLUMN..ROW_WIDTH], encode_digest(&merkle_root).as_slice());
    assert_eq!(&trace[LEFT_COLUMN..RIGHT_COLUMN], encode_digest(&hashed_leaf).as_slice());
    assert_eq!(
        &trace[RIGHT_COLUMN..DIRECTION_COLUMN],
        encode_digest(&hashed_right_leaf).as_slice()
    );
    assert_eq!(trace[DIRECTION_COLUMN], 0);
    let air = MmrAir::new(hashed_leaf, path, merkle_root);
    assert!(air.accepts_trace(&trace));
    assert!(air.eval(&trace, true));
}

#[test]
fn different_root_is_rejected() {
    let hashed_leaf = h(&[26]);
    let hashed_right_leaf = h(&[8]);
    let path = vec![(0u8, hashed_right_leaf)];
    let merkle_root = join(&hashed_leaf, &hashed_right_leaf);
    let trace = generate_trace_values(hashed_leaf, &path);
    let mut other_root = merkle_root;
    other_root[31] ^= 1;
    let air = MmrAir::new(hashed_leaf, path.clone(), other_root);
    assert!(!air.accepts_trace(&trace));
    assert!(!air.eval(&trace, true));
    assert!(air.eval(&trace, false));
    let swapped = MmrAir::new(hashed_leaf, path, join(&hashed_right_leaf, &hashed_leaf));
    assert!(!swapped.accepts_trace(&trace));
}

#[test]
fn non_boolean_direction_is_rejected() {
    let leaf = h(&[1]);
    let path = sample_path();
    let root = compute_root(leaf, &path);
    let air = MmrAir::new(leaf, path.clone(), root);
    let mut trace = generate_trace_values(leaf, &path);
    assert!(air.accepts_trace(&trace));
    trace[ROW_WIDTH + DIRECTION_COLUMN] = 2;
    assert!(!air.accepts_trace(&trace));
    assert!(!air.eval(row(&trace, 1), false));
}

#[test]
fn malformed_tables_are_rejected() {
    let leaf = h(&[1]);
    let path = sample_path();
    let root = compute_root(leaf, &path);
    let air = MmrAir::new(leaf, path.clone(), root);
    assert!(!air.accepts_trace(&vec![]));
    let mut trace = generate_trace_values(leaf, &path);
    trace.push(0);
    assert!(!air.accepts_trace(&trace));
}

#[test]
fn root_binding_applies_to_the_last_row_only() {
    let leaf = h(&[1]);
    let path = sample_path();
    let root = compute_root(leaf, &path);
    let air = MmrAir::new(leaf, path.clone(), root);
    let trace = generate_trace_values(leaf, &path);
    assert!(air.eval(row(&trace, 0), false));
    assert!(!air.eval(row(&trace, 0), true));
}

#[test]
fn width_is_row_width() {
    let air = MmrAir::new([0u8; 32], vec![(0, [0u8; 32])], [0u8; 32]);
    assert_eq!(air.width(), ROW_WIDTH);
    assert_eq!(ROW_WIDTH, 769);
}

#[test]
fn push_row_lays_out_one_row() {
    let mut values = Vec::new();
    let mut left = [0u8; 32];
    left[0] = 0x40;
    push_row(&mut values, left, [0xFF; 32], 1, [0x0F; 32]);
    assert_eq!(values.len(), ROW_WIDTH);
    assert_eq!(&values[0..8], &[0, 1, 0, 0, 0, 0, 0, 0]);
    assert!(values[8..RIGHT_COLUMN].iter().all(|&b| b == 0));
    assert!(values[RIGHT_COLUMN..DIRECTION_COLUMN].iter().all(|&b| b == 1));
    assert_eq!(values[DIRECTION_COLUMN], 1);
    assert_eq!(&values[RESULT_COLUMN..RESULT_COLUMN + 8], &[0, 0, 0, 0, 1, 1, 1, 1]);
    assert_eq!(decode_digest(&values[RESULT_COLUMN..ROW_WIDTH]), [0x0F; 32]);
}

#[test]
fn field_trace_matches_scalar_trace() {
    let leaf = h(&[1]);
    let path = sample_path();
    let root = compute_root(leaf, &path);
    let values = generate_trace_values(leaf, &path);
    let matrix = generate_inclusion_trace(leaf, path.clone(), root);
    assert_eq!(matrix.width(), ROW_WIDTH);
    assert_eq!(matrix.height(), path.len());
    assert_eq!(matrix.values.len(), values.len());
    for (f, v) in matrix.values.iter().zip(values.iter()) {
        assert_eq!(f.as_canonical_u32(), *v as u32);
    }
}
