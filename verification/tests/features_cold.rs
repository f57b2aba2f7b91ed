//! Compressed rows.
use aethergraph_core::features::cold_tier::{
    dictionary_size, rows_from_blocks, ColdError, ColdStore, ColdTier, MAX_DICTIONARY_BYTES,
};
use aethergraph_core::features::save::save_features;

fn synthetic(num_rows: usize, row_bytes: usize) -> Vec<u8> {
    // Structured, compressible rows: each row is a slowly varying
    // ramp, the sort of correlated feature data a dictionary exploits.
    let mut data = vec![0u8; num_rows * row_bytes];
    for r in 0..num_rows {
        for b in 0..row_bytes {
            data[r * row_bytes + b] = ((r / 4 + b) % 251) as u8;
        }
    }
    data
}

#[test]
fn round_trips_every_row() {
    let (num_rows, row_bytes) = (2000usize, 128usize);
    let data = synthetic(num_rows, row_bytes);
    let tier = ColdTier::build(&data, row_bytes, 19).unwrap();
    assert_eq!(tier.num_rows(), num_rows);

    // Gather every row in order and compare to the source.
    let all: Vec<u32> = (0..num_rows as u32).collect();
    let got = tier.gather_rows(&all).unwrap();
    assert_eq!(got, data, "full gather must reproduce the source");
}

#[test]
fn gather_subset_and_repeats() {
    let (num_rows, row_bytes) = (1500usize, 64usize);
    let data = synthetic(num_rows, row_bytes);
    let tier = ColdTier::build(&data, row_bytes, 12).unwrap();

    // A scattered subset with a repeat, crossing block boundaries.
    let rows = [0u32, 1, 511, 512, 513, 1499, 512, 0];
    let got = tier.gather_rows(&rows).unwrap();
    for (i, &row) in rows.iter().enumerate() {
        let expect = &data[row as usize * row_bytes..(row as usize + 1) * row_bytes];
        assert_eq!(
            &got[i * row_bytes..(i + 1) * row_bytes],
            expect,
            "row {} at position {}",
            row,
            i
        );
    }
}

#[test]
fn compresses_structured_data() {
    let data = synthetic(5000, 256);
    let tier = ColdTier::build(&data, 256, 19).unwrap();
    let ratio = tier.raw_bytes() as f64 / tier.compressed_bytes() as f64;
    assert!(
        ratio > 3.0,
        "structured data should compress > 3x, got {:.2}x",
        ratio
    );
}

#[test]
fn small_tier_without_dictionary() {
    // Fewer than 8 blocks: no dictionary trained, still round-trips.
    let data = synthetic(100, 32);
    let tier = ColdTier::build(&data, 32, 9).unwrap();
    let all: Vec<u32> = (0..100).collect();
    assert_eq!(tier.gather_rows(&all).unwrap(), data);
}

#[test]
fn large_tier_with_dictionary() {
    // More than eight blocks, so a dictionary is trained.
    let (num_rows, row_bytes) = (512 * 10 + 3, 64usize);
    let data = synthetic(num_rows, row_bytes);
    let tier = ColdTier::build(&data, row_bytes, 3).unwrap();
    assert!(tier.compressed_bytes() < data.len());
    let all: Vec<u32> = (0..num_rows as u32).rev().collect();
    let got = tier.gather_rows(&all).unwrap();
    for (i, &row) in all.iter().enumerate() {
        let expect = &data[row as usize * row_bytes..(row as usize + 1) * row_bytes];
        assert_eq!(&got[i * row_bytes..(i + 1) * row_bytes], expect);
    }
}

#[test]
fn rejects_ragged_data() {
    let data = vec![0u8; 100];
    assert!(ColdTier::build(&data, 33, 3).is_err());
    assert_eq!(
        ColdTier::build(&data, 33, 3).err().unwrap(),
        ColdError::Ragged {
            len: 100,
            row_bytes: 33
        }
    );
    assert_eq!(
        ColdTier::build(&data, 0, 3).err().unwrap(),
        ColdError::RowBytesZero
    );
}

#[test]
fn cold_store_matches_feature_store() {
    let (num_nodes, dim) = (1200usize, 32usize);
    let features: Vec<u32> = (0..num_nodes * dim)
        .map(|i| ((i % 251) as f32 * 0.25).to_bits())
        .collect();
    let file = save_features(&features, num_nodes, dim).unwrap();

    let store = ColdStore::build_from_store(&file, 9).unwrap();
    assert_eq!(store.num_rows(), num_nodes);
    assert_eq!(store.feature_dim(), dim);
    assert_eq!(store.tier().raw_bytes(), num_nodes * dim * 4);

    // Scattered gather with a repeat, crossing block boundaries.
    let nodes = [0u32, 7, 511, 512, 1199, 7];
    let got = store.gather(&nodes).unwrap();
    for (i, &n) in nodes.iter().enumerate() {
        assert_eq!(
            &got[i * dim..(i + 1) * dim],
            &features[n as usize * dim..(n as usize + 1) * dim],
            "node {} at position {}",
            n,
            i
        );
    }
    assert!(ColdStore::build_from_store(&file[..100], 9).is_err());
}

#[test]
fn rejects_out_of_range_row() {
    let data = synthetic(50, 16);
    let tier = ColdTier::build(&data, 16, 3).unwrap();
    assert!(tier.gather_rows(&[49]).is_ok());
    assert!(tier.gather_rows(&[50]).is_err());
    assert_eq!(
        tier.gather_rows(&[3, 50]).unwrap_err(),
        ColdError::RowOutOfRange {
            row: 50,
            num_rows: 50
        }
    );
}

#[test]
fn rows_are_cut_out_of_their_blocks() {
    // Blocks hold 512 rows; only the second and the fourth are there.
    let second: Vec<u8> = (0..512).flat_map(|r| [1, (r % 256) as u8]).collect();
    let fourth: Vec<u8> = (0..512).flat_map(|r| [3, (r % 256) as u8]).collect();
    let got = rows_from_blocks(&[513, 1537, 512], 2, &[1, 3], &vec![second, fourth]);
    assert_eq!(got, vec![1, 1, 3, 1, 1, 0]);
}

#[test]
fn dictionaries_are_bounded() {
    assert_eq!(dictionary_size(0), 4096);
    assert_eq!(dictionary_size(usize::MAX), MAX_DICTIONARY_BYTES);
}

#[test]
fn a_tier_goes_with_the_dictionary_it_is_given() {
    let row_bytes = 16;
    let few: Vec<u8> = (0..512 * row_bytes).map(|i| (i % 7) as u8).collect();
    let many: Vec<u8> = (0..8 * 512 * row_bytes).map(|i| (i % 7) as u8).collect();
    let dictionary: Vec<u8> = (0..4096).map(|i| (i % 7) as u8).collect();
    let plain = ColdTier::build_with(&few, row_bytes, 3, None).unwrap();
    let same = ColdTier::build_with(&few, row_bytes, 3, Some(dictionary.clone())).unwrap();
    assert_eq!(plain.compressed_bytes(), same.compressed_bytes());
    let with = ColdTier::build_with(&many, row_bytes, 3, Some(dictionary)).unwrap();
    assert!(with.compressed_bytes() >= 4096);
    for row in [0u32, 511, 512, 4095] {
        let at = row as usize * row_bytes;
        assert_eq!(with.gather_rows(&[row]).unwrap(), &many[at..at + row_bytes]);
        assert!(plain.gather_rows(&[row]).is_ok() == (row < 512));
    }
    assert_eq!(with.num_rows() * with.row_bytes(), many.len());
    assert!(ColdTier::build(&few, row_bytes, i32::MAX).is_ok());
    assert!(ColdTier::build(&few, row_bytes, i32::MIN).is_ok());
}

#[test]
fn a_copy_of_a_tier_gathers_the_same() {
    let data = synthetic(5000, 16);
    let tier = ColdTier::build(&data, 16, 3).unwrap();
    let copy = tier.clone();
    assert_eq!(format!("{:?}", copy), format!("{:?}", tier));
    assert_eq!(copy.compressed_bytes(), tier.compressed_bytes());
    assert_eq!(
        copy.gather_rows(&[0, 4999, 17]).unwrap(),
        tier.gather_rows(&[0, 4999, 17]).unwrap()
    );
}
