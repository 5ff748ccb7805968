use sigma_diagnostics::checksum::{crc8, find_checksums, ChecksumAlgorithm};

/// SAE J1850 CRC-8: poly 0x1D, init 0xFF, xorout 0xFF.
fn j1850(data: &[u8]) -> u8 {
    crc8(data, 0x1D, 0xFF, 0xFF, false)
}

fn payloads_with(cs: impl Fn(&[u8]) -> u8, last_is_cs: bool) -> Vec<Vec<u8>> {
    (0u32..200)
        .map(|i| {
            let data = [(i % 251) as u8, (i * 7 % 253) as u8, (i * 13 % 256) as u8, (i / 3) as u8];
            let c = cs(&data);
            let mut p = data.to_vec();
            if last_is_cs {
                p.push(c);
            } else {
                p.insert(0, c);
            }
            p
        })
        .collect()
}

fn as_refs(p: &[Vec<u8>]) -> Vec<&[u8]> {
    p.iter().map(|v| v.as_slice()).collect()
}

#[test]
fn crc8_known_vector() {
    // CRC-8/SAE-J1850 check value: "123456789" -> 0x4B
    assert_eq!(j1850(b"123456789"), 0x4B);
    // CRC-8/MAXIM (reflected, poly 0x31, init 0x00): "123456789" -> 0xA1
    assert_eq!(crc8(b"123456789", 0x31, 0x00, 0x00, true), 0xA1);
}

#[test]
fn sweep_recovers_check_vector_parameters() {
    let mut p = b"123456789".to_vec();
    p.push(0x4B);
    let payloads = vec![p];
    let proofs = find_checksums(&as_refs(&payloads), 1);
    assert!(proofs.iter().any(|p| p.byte_index == 9
        && p.algorithm == ChecksumAlgorithm::Crc8 { poly: 0x1D, init: 0xFF, xorout: 0xFF, reflect: false }));
}

#[test]
fn finds_j1850_crc_in_last_byte() {
    let payloads = payloads_with(j1850, true);
    let refs = as_refs(&payloads);
    let proofs = find_checksums(&refs, 8);
    let hit = proofs.iter().find(|p| {
        p.byte_index == 4
            && p.algorithm
                == ChecksumAlgorithm::Crc8 { poly: 0x1D, init: 0xFF, xorout: 0xFF, reflect: false }
    });
    assert!(hit.is_some(), "proofs: {proofs:?}");
    assert_eq!(hit.unwrap().frames, 200);
}

#[test]
fn finds_xor_checksum_in_first_byte() {
    let payloads = payloads_with(|d| d.iter().fold(0u8, |a, &b| a ^ b), false);
    let refs = as_refs(&payloads);
    let proofs = find_checksums(&refs, 8);
    assert!(proofs
        .iter()
        .any(|p| p.byte_index == 0 && p.algorithm == ChecksumAlgorithm::XorConst { constant: 0 }));
}

#[test]
fn corrupt_frame_kills_all_proofs_at_that_position() {
    let mut payloads = payloads_with(j1850, true);
    payloads[100][4] ^= 0x01;
    let refs = as_refs(&payloads);
    let proofs = find_checksums(&refs, 8);
    assert!(proofs.iter().all(|p| p.byte_index != 4), "proofs: {proofs:?}");
}

#[test]
fn low_diversity_reports_nothing() {
    let payloads = vec![vec![0x01, 0x02, 0x03]; 50];
    let refs = as_refs(&payloads);
    assert!(find_checksums(&refs, 8).is_empty());
}

#[test]
fn sum_and_negsum_constants_are_solved() {
    let payloads: Vec<Vec<u8>> = (0u8..20)
        .map(|i| {
            let d = [i, i.wrapping_mul(3)];
            vec![d[0], d[1], d[0].wrapping_add(d[1]).wrapping_add(0x10)]
        })
        .collect();
    let refs = as_refs(&payloads);
    let proofs = find_checksums(&refs, 8);
    assert!(proofs
        .iter()
        .any(|p| p.byte_index == 2 && p.algorithm == ChecksumAlgorithm::SumConst { constant: 0x10 }));
    assert!(proofs.iter().all(|p| p.distinct_payloads == 20 && p.frames == 20));
}

#[test]
fn mixed_lengths_or_short_payloads_report_nothing() {
    let payloads = vec![vec![1u8, 2, 3], vec![1u8, 2]];
    assert!(find_checksums(&as_refs(&payloads), 1).is_empty());
    let single = vec![vec![7u8]];
    assert!(find_checksums(&as_refs(&single), 1).is_empty());
    assert!(find_checksums(&[], 0).is_empty());
}

#[test]
fn describe_renders_each_family() {
    assert_eq!(ChecksumAlgorithm::XorConst { constant: 0x5A }.describe(), "XOR ^ 0x5A");
    assert_eq!(ChecksumAlgorithm::SumConst { constant: 0x01 }.describe(), "SUM + 0x01 (mod 256)");
    assert_eq!(ChecksumAlgorithm::NegSumConst { constant: 0xFF }.describe(), "0xFF - SUM (mod 256)");
    assert_eq!(
        ChecksumAlgorithm::Crc8 { poly: 0x1D, init: 0xFF, xorout: 0x00, reflect: true }.describe(),
        "CRC-8 poly=0x1D init=0xFF xorout=0x00 reflected"
    );
}
