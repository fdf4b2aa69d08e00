//! The zkey container parser, against synthetic containers.

use share_pipeline::zkey::{read_u32, read_u64, BinFile, ZKey, ZKeyParserError};

fn push_u32(out: &mut Vec<u8>, v: u32) {
    out.extend_from_slice(&v.to_le_bytes());
}

fn push_u64(out: &mut Vec<u8>, v: u64) {
    out.extend_from_slice(&v.to_le_bytes());
}

fn push_section(out: &mut Vec<u8>, id: u32, payload: &[u8]) {
    push_u32(out, id);
    push_u64(out, payload.len() as u64);
    out.extend_from_slice(payload);
}

/// A minimal container: one-byte moduli, four variables, one public
/// input, a domain of four, and synthetic point bytes.
fn sample_zkey() -> Vec<u8> {
    let mut header = Vec::new();
    push_u32(&mut header, 1); // n8q
    header.push(0xab); // q
    push_u32(&mut header, 1); // n8r
    header.push(0xcd); // r
    push_u32(&mut header, 4); // n_vars
    push_u32(&mut header, 1); // n_public
    push_u32(&mut header, 4); // domain size
    // vk: alpha g1, beta g1 (2 bytes each), beta g2, gamma g2 (4 each),
    // delta g1 (2), delta g2 (4)
    header.extend_from_slice(&[1, 2]);
    header.extend_from_slice(&[3, 4]);
    header.extend_from_slice(&[5, 6, 7, 8]);
    header.extend_from_slice(&[9, 10, 11, 12]);
    header.extend_from_slice(&[13, 14]);
    header.extend_from_slice(&[15, 16, 17, 18]);

    let mut coeffs = Vec::new();
    push_u32(&mut coeffs, 3); // number of entries
    for (m, c, s, val) in [(0u32, 2u32, 1u32, 7u8), (1, 2, 3, 9), (0, 0, 0, 5)] {
        push_u32(&mut coeffs, m);
        push_u32(&mut coeffs, c);
        push_u32(&mut coeffs, s);
        coeffs.push(val);
    }

    let ic = [21u8, 22, 23, 24]; // 2 points x 2 bytes
    let a_q = [31u8, 32, 33, 34, 35, 36, 37, 38]; // 4 points x 2 bytes
    let b_g1 = [41u8, 42, 43, 44, 45, 46, 47, 48];
    let b_g2: Vec<u8> = (50u8..66).collect(); // 4 points x 4 bytes
    let l_q = [71u8, 72, 73, 74]; // 2 points x 2 bytes
    let h_q = [81u8, 82, 83, 84, 85, 86, 87, 88]; // 4 points x 2 bytes

    let mut data = Vec::new();
    data.extend_from_slice(b"zkey");
    push_u32(&mut data, 1); // version
    push_u32(&mut data, 8); // section count
    push_section(&mut data, 1, &[1, 0, 0, 0]); // prover kind
    push_section(&mut data, 2, &header);
    push_section(&mut data, 3, &ic);
    push_section(&mut data, 4, &coeffs);
    push_section(&mut data, 5, &a_q);
    push_section(&mut data, 6, &b_g1);
    push_section(&mut data, 7, &b_g2);
    push_section(&mut data, 8, &l_q);
    push_section(&mut data, 9, &h_q);
    // nine sections were written
    data[8..12].copy_from_slice(&9u32.to_le_bytes());
    data
}

#[test]
fn little_endian_readers() {
    let data = vec![0x78, 0x56, 0x34, 0x12, 0xff, 0x00, 0x00, 0x00];
    assert_eq!(read_u32(&data, 0), Some(0x12345678));
    assert_eq!(read_u32(&data, 4), Some(0xff));
    assert_eq!(read_u32(&data, 5), None);
    assert_eq!(read_u64(&data, 0), Some(0x0000_00ff_1234_5678));
    assert_eq!(read_u64(&data, 1), None);
}

#[test]
fn container_frame_parses() {
    let data = sample_zkey();
    let bf = BinFile::new(&data).unwrap();
    assert_eq!(&bf.ftype, b"zkey");
    assert_eq!(bf.version, 1);
    assert_eq!(bf.sections.len(), 9);
    let header_sec = bf.get_section(2).unwrap();
    assert_eq!(header_sec.size, 40);
    assert!(bf.get_section(77).is_none());
}

#[test]
fn whole_container_round_trip() {
    let data = sample_zkey();
    let zkey = ZKey::from_reader(&data, &vec![0xab], &vec![0xcd]).unwrap();
    let (pk, matrices) = zkey.split();
    assert_eq!(pk.header.n8q, 1);
    assert_eq!(pk.header.n8r, 1);
    assert_eq!(pk.header.n_vars, 4);
    assert_eq!(pk.header.n_public, 1);
    assert_eq!(pk.header.domain_size, 4);
    assert_eq!(pk.header.power, 2);
    assert_eq!(pk.header.verifying_key.alpha_g1, vec![1, 2]);
    assert_eq!(pk.header.verifying_key.delta_g2, vec![15, 16, 17, 18]);
    assert_eq!(pk.ic, vec![vec![21, 22], vec![23, 24]]);
    assert_eq!(pk.a_query.len(), 4);
    assert_eq!(pk.a_query[0], vec![31, 32]);
    assert_eq!(pk.b_g2_query.len(), 4);
    assert_eq!(pk.b_g2_query[0], vec![50, 51, 52, 53]);
    assert_eq!(pk.l_query, vec![vec![71, 72], vec![73, 74]]);
    assert_eq!(pk.h_query.len(), 4);

    assert_eq!(matrices.num_instance_variables, 2);
    assert_eq!(matrices.num_witness_variables, 3);
    assert_eq!(matrices.num_constraints, 1);
    assert_eq!(matrices.a_num_non_zero, 1);
    assert_eq!(matrices.b_num_non_zero, 0);
    assert_eq!(matrices.c_num_non_zero, 0);
    assert_eq!(matrices.a.len(), 1);
    assert_eq!(matrices.a[0], vec![(vec![5u8], 0usize)]);
    assert_eq!(matrices.b, vec![vec![]]);
    assert!(matrices.c.is_empty());
}

#[test]
fn wrong_modulus_is_rejected() {
    let data = sample_zkey();
    assert!(matches!(
        ZKey::from_reader(&data, &vec![0xee], &vec![0xcd]),
        Err(ZKeyParserError::InvalidGroth16Header)
    ));
    assert!(matches!(
        ZKey::from_reader(&data, &vec![0xab], &vec![0xee]),
        Err(ZKeyParserError::InvalidGroth16Header)
    ));
}

#[test]
fn truncated_container_fails_cleanly() {
    // every prefix of the container is rejected without a crash
    let data = sample_zkey();
    for cut in [0, 5, 11, 13, 40, 60, data.len() - 1] {
        let short: Vec<u8> = data[..cut].to_vec();
        assert!(ZKey::from_reader(&short, &vec![0xab], &vec![0xcd]).is_err());
    }
}

#[test]
fn tampered_section_length_fails_cleanly() {
    let mut data = sample_zkey();
    // stretch the first section's recorded length beyond the buffer
    let len_off = 12 + 4;
    data[len_off..len_off + 8].copy_from_slice(&u64::MAX.to_le_bytes());
    assert!(matches!(
        BinFile::new(&data),
        Err(ZKeyParserError::UnexpectedEnd)
    ));
}
