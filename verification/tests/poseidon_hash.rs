use curve25519_dalek::scalar::Scalar;
use poseidon_merkle::field::FieldElement;
use poseidon_merkle::hex::{check_hex_literal, decode_hex};
use poseidon_merkle::poseidon::{
    default_hasher, get_scalar_from_hex, mat_mul, Poseidon, HASH_WIDTH, PADDING_CONST,
    POSEIDON_FULL_ROUNDS, POSEIDON_PARTIAL_ROUNDS, ZERO_CONST,
};

fn el(x: u64) -> FieldElement {
    FieldElement::from_u64(x)
}

fn scalar_of(x: &FieldElement) -> Scalar {
    Scalar::from_bytes_mod_order(x.to_bytes())
}

/// Width 2, two full rounds around one partial round, matrix [[1, 2], [3, 4]].
fn tiny() -> Poseidon {
    let p = Poseidon {
        width: 2,
        full_rounds: 2,
        partial_rounds: 1,
        round_keys: (0..6).map(el).collect(),
        mds_matrix: vec![vec![el(1), el(2)], vec![el(3), el(4)]],
    };
    assert!(p.is_well_formed());
    p
}

/// The literal of the field element `x`: its 32 bytes, lowest first.
fn literal(x: u64) -> String {
    let mut s = String::from("0x");
    for b in FieldElement::from_u64(x).to_bytes() {
        s.push_str(&format!("{:02x}", b));
    }
    s
}

/// The permutation, computed with the scalars of the curve library.
fn reference_permute(p: &Poseidon, input: &[Scalar]) -> Vec<Scalar> {
    let rounds = p.full_rounds + p.partial_rounds;
    let half = p.full_rounds / 2;
    let mut state = input.to_vec();
    for round in 0..rounds {
        if round < half || round >= rounds - half {
            for x in state.iter_mut() {
                *x = *x * *x * *x;
            }
        } else {
            state[0] = state[0] * state[0] * state[0];
        }
        let mut next = Vec::new();
        for row in &p.mds_matrix {
            let mut sum = Scalar::ZERO;
            for (m, x) in row.iter().zip(state.iter()) {
                sum += scalar_of(m) * x;
            }
            next.push(sum);
        }
        state = next;
    }
    state
}

#[test]
fn constants_have_their_values() {
    assert_eq!(PADDING_CONST, 101);
    assert_eq!(ZERO_CONST, 0);
    assert_eq!(HASH_WIDTH, 6);
    assert_eq!(POSEIDON_FULL_ROUNDS, 8);
    assert_eq!(POSEIDON_PARTIAL_ROUNDS, 57);
}

#[test]
fn sbox_is_the_cube() {
    let p = tiny();
    assert_eq!(p.apply_sbox(&el(3)), el(27));
    assert_eq!(p.apply_sbox(&el(0)), el(0));
    assert_eq!(p.apply_sbox(&el(1)), el(1));
    assert_eq!(p.apply_sbox(&el(1_000_000)), el(1_000_000_000_000_000_000));
}

#[test]
fn matrix_product_is_row_times_vector() {
    let m = vec![vec![el(1), el(2)], vec![el(3), el(4)]];
    assert_eq!(mat_mul(&m, &vec![el(5), el(7)]), vec![el(19), el(43)]);
    let rectangular = vec![vec![el(1), el(0), el(2)]];
    assert_eq!(mat_mul(&rectangular, &vec![el(5), el(7), el(11)]), vec![el(27)]);
    assert_eq!(mat_mul(&Vec::new(), &vec![el(5)]), Vec::<FieldElement>::new());
}

#[test]
fn permutation_of_a_small_state() {
    let p = tiny();
    // after the first full round: [811, 1747]; after the partial round:
    // [533415225, 1600242181]; after the last full round:
    let first: [u8; 32] = [
        99, 159, 73, 81, 84, 204, 201, 167, 159, 226, 248, 26, 0, 0, 0, 0, 0, 0, 0, 0, 0, 0, 0, 0,
        0, 0, 0, 0, 0, 0, 0, 0,
    ];
    let second: [u8; 32] = [
        47, 49, 29, 78, 105, 211, 76, 102, 142, 80, 111, 54, 0, 0, 0, 0, 0, 0, 0, 0, 0, 0, 0, 0, 0,
        0, 0, 0, 0, 0, 0, 0,
    ];
    let out = p.permute(&[el(5), el(7)]);
    assert_eq!(out.len(), 2);
    assert_eq!(out[0].to_bytes(), first);
    assert_eq!(out[1].to_bytes(), second);
}

#[test]
fn rounds_are_full_at_both_ends_only() {
    let one_round = Poseidon { full_rounds: 0, partial_rounds: 1, round_keys: vec![el(0), el(0)], ..tiny() };
    // a partial round cubes word 0 only
    assert_eq!(one_round.permute(&[el(2), el(3)]), vec![el(8 + 6), el(24 + 12)]);
    let two_full = Poseidon { full_rounds: 2, partial_rounds: 0, round_keys: vec![el(0); 4], ..tiny() };
    let once = vec![el(8 + 2 * 27), el(3 * 8 + 4 * 27)];
    let twice = vec![
        el(62 * 62 * 62 + 2 * 132 * 132 * 132),
        el(3 * 62 * 62 * 62 + 4 * 132 * 132 * 132),
    ];
    assert_eq!(once, vec![el(62), el(132)]);
    assert_eq!(two_full.permute(&[el(2), el(3)]), twice);
    let none = Poseidon { full_rounds: 0, partial_rounds: 0, round_keys: Vec::new(), ..tiny() };
    assert_eq!(none.permute(&[el(2), el(3)]), vec![el(2), el(3)]);
}

#[test]
fn round_keys_are_not_added() {
    let p = tiny();
    let other_keys = Poseidon { round_keys: (100..106).map(el).collect(), ..tiny() };
    assert_eq!(p.permute(&[el(5), el(7)]), other_keys.permute(&[el(5), el(7)]));
}

#[test]
fn hash_is_word_one_of_the_permutation() {
    let h = default_hasher();
    let (a, b) = (el(11), el(13));
    let state = [el(0), a, b, el(101), el(0), el(0)];
    assert_eq!(h.hash_2(a, b), h.permute(&state)[1]);
    assert_eq!(h.hash(a, b), h.hash_2(a, b));
    assert_ne!(h.hash_2(a, b), h.hash_2(b, a));
    let (c, d) = (el(17), el(19));
    let state = [el(0), a, b, c, d, el(101)];
    assert_eq!(h.hash_4(a, b, c, d), h.permute(&state)[1]);
    assert_ne!(h.hash_4(a, b, c, d), h.hash_2(a, b));
}

#[test]
fn permutation_agrees_with_the_scalars() {
    let h = default_hasher();
    let input = [el(0), el(3), el(4), el(101), el(0), el(0)];
    let scalars: Vec<Scalar> = input.iter().map(scalar_of).collect();
    let expected = reference_permute(&h, &scalars);
    let out = h.permute(&input);
    assert_eq!(out.len(), 6);
    for (x, e) in out.iter().zip(expected.iter()) {
        assert_eq!(scalar_of(x), *e);
    }
    assert_eq!(scalar_of(&h.hash_2(el(3), el(4))), expected[1]);
}

#[test]
fn default_parameters() {
    let h = default_hasher();
    assert!(h.is_well_formed());
    assert_eq!(h.width, 6);
    assert_eq!(h.full_rounds, 8);
    assert_eq!(h.partial_rounds, 57);
    assert_eq!(h.round_keys.len(), 390);
    assert_eq!(h.round_keys[0], el(1));
    assert_eq!(h.round_keys[389], el(390));
    assert_eq!(h.mds_matrix.len(), 6);
    for i in 0..6 {
        assert_eq!(h.mds_matrix[i].len(), 6);
        for j in 0..6 {
            let x = el((i + j + 6) as u64);
            assert_eq!(h.mds_matrix[i][j].mul(&x), el(1));
        }
    }
    assert_eq!(h.clone(), h);
}

#[test]
fn well_formedness_is_decided() {
    assert!(tiny().is_well_formed());
    assert!(!Poseidon { width: 0, ..tiny() }.is_well_formed());
    assert!(!Poseidon { full_rounds: 3, ..tiny() }.is_well_formed());
    assert!(!Poseidon { partial_rounds: 2, ..tiny() }.is_well_formed());
    assert!(!Poseidon { round_keys: Vec::new(), ..tiny() }.is_well_formed());
    assert!(!Poseidon { mds_matrix: vec![vec![el(1), el(2)]], ..tiny() }.is_well_formed());
    assert!(!Poseidon { mds_matrix: vec![vec![el(1), el(2)], vec![el(3)]], ..tiny() }.is_well_formed());
    assert!(!Poseidon { full_rounds: usize::MAX - 1, partial_rounds: 2, ..tiny() }.is_well_formed());
}

#[test]
fn hex_literals_are_decoded() {
    assert_eq!(decode_hex("0x0a1B"), vec![0x0a, 0x1b]);
    assert_eq!(decode_hex("0x"), Vec::<u8>::new());
    assert_eq!(decode_hex("0x00ff10"), vec![0, 255, 16]);
    assert_eq!(decode_hex("zzAbCdEf"), vec![0xab, 0xcd, 0xef]);
}

#[test]
fn hex_literals_are_recognised() {
    assert!(check_hex_literal("0x"));
    assert!(check_hex_literal("0x0a1B"));
    assert!(!check_hex_literal("0"));
    assert!(!check_hex_literal(""));
    assert!(!check_hex_literal("0x0"));
    assert!(!check_hex_literal("0x0g"));
    assert!(!check_hex_literal("0x+f"));
    assert!(!check_hex_literal("0x0 "));
    assert!(!check_hex_literal("0x\u{e9}0"));
}

#[test]
fn scalars_are_read_from_hex() {
    assert_eq!(get_scalar_from_hex(&literal(1)), el(1));
    assert_eq!(get_scalar_from_hex(&literal(0x0102)), el(0x0102));
    let one = "0x0100000000000000000000000000000000000000000000000000000000000000";
    assert_eq!(get_scalar_from_hex(one), el(1));
    let order = "0xedd3f55c1a631258d69cf7a2def9de1400000000000000000000000000000010";
    assert_eq!(get_scalar_from_hex(order), el(0));
}

#[test]
fn parameters_are_read_from_tables() {
    let width = 2;
    let total = POSEIDON_FULL_ROUNDS + POSEIDON_PARTIAL_ROUNDS;
    let keys: Vec<String> = (0..(width * total + 3) as u64).map(|k| literal(k + 1000)).collect();
    let key_refs: Vec<&str> = keys.iter().map(|s| s.as_str()).collect();
    let rows: Vec<Vec<String>> = vec![vec![literal(1), literal(2)], vec![literal(3), literal(4)]];
    let row_refs: Vec<Vec<&str>> = rows.iter().map(|r| r.iter().map(|s| s.as_str()).collect()).collect();

    let p = Poseidon::new(width, &key_refs, &row_refs);
    assert!(p.is_well_formed());
    assert_eq!(p.width, 2);
    assert_eq!(p.full_rounds, 8);
    assert_eq!(p.partial_rounds, 57);
    assert_eq!(p.round_keys.len(), 130);
    assert_eq!(p.round_keys[0], el(1000));
    assert_eq!(p.round_keys[129], el(1129));
    assert_eq!(p.mds_matrix, vec![vec![el(1), el(2)], vec![el(3), el(4)]]);

    assert_eq!(Poseidon::gen_round_keys(2, 2, &key_refs), vec![el(1000), el(1001), el(1002), el(1003)]);
    assert_eq!(Poseidon::gen_round_keys(2, 0, &key_refs), Vec::<FieldElement>::new());
    assert_eq!(Poseidon::gen_mds_matrix(2, &row_refs), p.mds_matrix);
}
