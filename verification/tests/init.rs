use std::ops::Range;

use post_init::init::{
    commitment_to_words, truncate_tile, KernelConfig, Scrypter, ScryptError, VrfNonce,
};

#[test]
fn scanning_for_vrf_nonce() {
    let labels = [[0xFF; 32], [0xEE; 32], [0xDD; 32], [0xEE; 32]];
    let labels_bytes: Vec<u8> = labels.iter().copied().flatten().collect();
    let nonce = Scrypter::scan_for_vrf_nonce(&labels_bytes, [0xFFu8; 32]);
    assert_eq!(
        nonce,
        Some(VrfNonce {
            index: 2,
            label: [0xDD; 32]
        })
    );
}

#[test]
fn scan_finds_nothing_at_or_above_difficulty() {
    let labels = [[0xFF; 32], [0xEE; 32]];
    let labels_bytes: Vec<u8> = labels.iter().copied().flatten().collect();
    // 0xEE.. equals the threshold: strict comparison rejects it.
    let nonce = Scrypter::scan_for_vrf_nonce(&labels_bytes, [0xEEu8; 32]);
    assert_eq!(nonce, None);
}

#[test]
fn scan_keeps_first_occurrence_of_minimum() {
    let labels = [[0xEE; 32], [0xDD; 32], [0xDD; 32]];
    let labels_bytes: Vec<u8> = labels.iter().copied().flatten().collect();
    let nonce = Scrypter::scan_for_vrf_nonce(&labels_bytes, [0xFFu8; 32]);
    assert_eq!(
        nonce,
        Some(VrfNonce {
            index: 1,
            label: [0xDD; 32]
        })
    );
}

#[test]
fn scan_of_empty_tile() {
    let nonce = Scrypter::scan_for_vrf_nonce(&[], [0xFFu8; 32]);
    assert_eq!(nonce, None);
}

#[test]
fn buffer_len_of_small_range() {
    let indices: Range<u64> = 0..4000;
    assert_eq!(Scrypter::buffer_len(&indices), Ok(4000 * 16));
}

#[test]
fn buffer_len_of_range_above_u32() {
    let indices: Range<u64> = u32::MAX as u64 - 1000..u32::MAX as u64 + 1000;
    assert_eq!(Scrypter::buffer_len(&indices), Ok(2000 * 16));
}

#[test]
fn buffer_len_rejects_oversized_range() {
    let indices: Range<u64> = 0..u64::MAX;
    assert_eq!(Scrypter::buffer_len(&indices), Err(ScryptError::LabelsRangeTooBig));
}

#[test]
fn check_buffer_accepts_exact_buffer() {
    let indices: Range<u64> = 0..100;
    assert_eq!(Scrypter::check_buffer(&indices, 1600), Ok(()));
}

#[test]
fn check_buffer_rejects_wrong_size() {
    let indices: Range<u64> = 0..100;
    assert_eq!(
        Scrypter::check_buffer(&indices, 1601),
        Err(ScryptError::InvalidBufferSize {
            got: 1601,
            expected: 1600
        })
    );
}

#[test]
fn truncation_keeps_first_sixteen_bytes() {
    let mut tile = Vec::new();
    for label in 0..3u8 {
        for byte in 0..32u8 {
            tile.push(label * 40 + byte);
        }
    }
    let stored = truncate_tile(&tile);
    assert_eq!(stored.len(), 48);
    for label in 0..3u8 {
        for byte in 0..16u8 {
            assert_eq!(
                stored[label as usize * 16 + byte as usize],
                label * 40 + byte
            );
        }
    }
}

#[test]
fn process_tile_tracks_best_nonce_across_tiles() {
    let mut scrypter = Scrypter::new(2, Some([0xFF; 32]));
    let tile_one: Vec<u8> = [[0xFF; 32], [0xEE; 32]].iter().copied().flatten().collect();
    let tile_two: Vec<u8> = [[0xDD; 32], [0xEE; 32]].iter().copied().flatten().collect();

    let stored_one = scrypter.process_tile(0, &tile_one);
    assert_eq!(
        scrypter.vrf_nonce(),
        Some(VrfNonce {
            index: 1,
            label: [0xEE; 32]
        })
    );
    assert_eq!(stored_one.len(), 32);
    assert_eq!(&stored_one[..16], &[0xFF; 16]);
    assert_eq!(&stored_one[16..], &[0xEE; 16]);

    let stored_two = scrypter.process_tile(2, &tile_two);
    assert_eq!(
        scrypter.vrf_nonce(),
        Some(VrfNonce {
            index: 2,
            label: [0xDD; 32]
        })
    );
    assert_eq!(&stored_two[..16], &[0xDD; 16]);
}

#[test]
fn process_tile_ignores_ties_with_running_best() {
    let mut scrypter = Scrypter::new(2, Some([0xFF; 32]));
    let tile_one: Vec<u8> = [[0xEE; 32], [0xFF; 32]].iter().copied().flatten().collect();
    // The second tile's minimum equals the running best: not an update.
    let tile_two: Vec<u8> = [[0xFF; 32], [0xEE; 32]].iter().copied().flatten().collect();

    scrypter.process_tile(0, &tile_one);
    scrypter.process_tile(2, &tile_two);
    assert_eq!(
        scrypter.vrf_nonce(),
        Some(VrfNonce {
            index: 0,
            label: [0xEE; 32]
        })
    );
}

#[test]
fn process_tile_without_difficulty_reports_no_nonce() {
    let mut scrypter = Scrypter::new(2, None);
    let tile: Vec<u8> = [[0x00; 32], [0x01; 32]].iter().copied().flatten().collect();
    let stored = scrypter.process_tile(0, &tile);
    assert_eq!(scrypter.vrf_nonce(), None);
    assert_eq!(&stored[..16], &[0x00; 16]);
    assert_eq!(&stored[16..], &[0x01; 16]);
}

#[test]
fn commitment_words_are_little_endian() {
    let mut commitment = [0u8; 32];
    for (i, byte) in commitment.iter_mut().enumerate() {
        *byte = i as u8;
    }
    let words = commitment_to_words(&commitment);
    assert_eq!(words.len(), 8);
    assert_eq!(words[0], 0x03020100);
    assert_eq!(words[7], 0x1F1E1D1C);
}

#[test]
fn kernel_config_for_canonical_n() {
    let config = KernelConfig::new(8192);
    assert_eq!(config.lookup_gap, 2);
    assert_eq!(config.local_work_size, 20);
    assert_eq!(config.concurrent_threads, 5120);
    assert_eq!(config.global_work_size, 20480);
    assert_eq!(config.pad_size, 5120 * 4 * 8 * 4096);
    assert_eq!(config.output_len, 20480 * 32);
}
