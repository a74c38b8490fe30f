use cram_codec::fqzcomp::{encode_header, record_contexts_exec, reverse_qualities};
use cram_codec::fqzcomp::{fqz_encode_params, split_groups};
use cram_codec::fqzcomp::write_array;
use cram_codec::fqzcomp::encode_single_param;
use cram_codec::fqzcomp::{
    assign_record_groups, build_delta_table, build_position_table, build_quality_table,
    count_duplicate_records, distinct_values, median, quality_map, use_dedup,
};

#[test]
fn test_build_quality_table_non_decreasing() {
    for max_q in [1, 3, 10, 15, 50, 100, 255] {
        for q_bits in [4, 5, 8, 9] {
            let table = build_quality_table(max_q, q_bits);
            assert_eq!(table.len(), 256);
            for w in table.windows(2) {
                assert!(w[0] <= w[1], "not non-decreasing: max_q={max_q}, q_bits={q_bits}");
            }
        }
    }
}

#[test]
fn quality_table_values() {
    let t = build_quality_table(0, 9);
    assert!(t.iter().all(|&v| v == 0));
    let t = build_quality_table(40, 9);
    assert_eq!(t[0], 0);
    assert_eq!(t[1], 6);
    assert_eq!(t[40], 255);
    assert_eq!(t[200], 255);
    let t = build_quality_table(255, 8);
    assert!(t.iter().enumerate().all(|(i, &v)| v as usize == i));
}

#[test]
fn position_and_delta_tables() {
    let p = build_position_table(7, 1);
    assert_eq!(p.len(), 1024);
    assert_eq!(p[0], 0);
    assert_eq!(p[3], 1);
    assert_eq!(p[254], 127);
    assert_eq!(p[1023], 127);
    let p0 = build_position_table(7, 0);
    assert_eq!(p0[100], 100);
    assert_eq!(p0[500], 127);
    let d = build_delta_table();
    assert_eq!(d.len(), 256);
    assert_eq!(d[3], 3);
    assert_eq!(d[7], 7);
    assert_eq!(d[200], 7);
}

#[test]
fn median_of_lengths() {
    assert_eq!(median(&[5, 1, 3]), 3);
    assert_eq!(median(&[4, 4, 1, 9]), 4);
    assert_eq!(median(&[7]), 7);
}

#[test]
fn record_groups() {
    // With 15 short and 15 long records the median is the long length: no group is above it.
    let mut even = vec![5usize; 15];
    even.extend(vec![20usize; 15]);
    assert!(assign_record_groups(&even, 10).is_none());
    let mut lens = vec![5usize; 16];
    lens.extend(vec![20usize; 14]);
    let (groups, n) = assign_record_groups(&lens, 10).unwrap();
    assert_eq!(n, 2);
    assert_eq!(groups.iter().filter(|&&g| g == 1).count(), 14);
    assert_eq!(groups[0], 0);
    assert_eq!(groups[29], 1);
    assert!(assign_record_groups(&vec![10usize; 20], 10).is_none());
    assert!(assign_record_groups(&[3, 10], 10).is_none());
}

#[test]
fn duplicate_records() {
    let lens = [3usize, 3, 3, 2];
    let src = [1u8, 2, 3, 1, 2, 3, 1, 2, 4, 9, 9];
    assert_eq!(count_duplicate_records(&lens, &src), 1);
    assert!(use_dedup(&lens, &src));
    let src2 = [1u8, 2, 3, 4, 5, 6, 7, 8, 9, 9, 9];
    assert_eq!(count_duplicate_records(&lens, &src2), 0);
    assert!(!use_dedup(&lens, &src2));
}

#[test]
fn quality_maps() {
    let src = [5u8, 10, 15, 5, 10, 15];
    assert_eq!(distinct_values(&src), vec![5, 10, 15]);
    let (qmap, inv) = quality_map(&src).unwrap();
    assert_eq!(qmap, vec![5, 10, 15]);
    assert_eq!(inv[5], 0);
    assert_eq!(inv[10], 1);
    assert_eq!(inv[15], 2);
    let single = [7u8; 15];
    assert_eq!(quality_map(&single).unwrap().0, vec![7]);
    let many: Vec<u8> = (0u8..17).map(|v| v * 3).collect();
    assert!(quality_map(&many).is_none());
    let sixteen: Vec<u8> = (0u8..16).map(|v| v * 4).collect();
    assert!(quality_map(&sixteen).is_some());
    assert!(quality_map(&[]).is_none());
}

#[test]
fn table_run_length_form() {
    // runs: value 0 twice, value 1 once, value 2 none, value 3 three times
    let mut out = Vec::new();
    write_array(&mut out, &vec![0, 0, 1, 3, 3, 3]).unwrap();
    // rle1 = [2, 1, 0, 3]; no repeats
    assert_eq!(out, vec![2, 1, 0, 3]);
    // the identity table: rle1 is 256 ones; rle2 keeps 1, 1 then a count of 254
    let identity: Vec<u8> = (0u8..=255).collect();
    let mut out = Vec::new();
    write_array(&mut out, &identity).unwrap();
    assert_eq!(out, vec![1, 1, 254]);
    // a run of 300: chunked as 255 then 45
    let mut out = Vec::new();
    write_array(&mut out, &vec![0u8; 300]).unwrap();
    assert_eq!(out, vec![255, 45]);
}

#[test]
fn parameter_header() {
    let lens = vec![5usize, 5, 5];
    let src = vec![5u8, 10, 15, 5, 10, 15, 5, 10, 15, 5, 10, 15, 5, 10, 15];
    let mut out = Vec::new();
    let (flags, qmap) = encode_single_param(&mut out, &lens, &src, false);
    assert_eq!(qmap, vec![5, 10, 15]);
    // positions table (32), fixed length (4), quality map (16), quality table (128)
    assert_eq!(flags, 32 + 4 + 16 + 128);
    assert_eq!(&out[..7], &[0, 0, flags, 2, 0x95, 0x7f, 0x0f]);
    assert_eq!(&out[7..10], &[5, 10, 15]);
}

#[test]
fn stream_header_single_and_multi() {
    let lens = vec![5usize, 5, 5];
    let src = vec![1u8; 15];
    let mut out = Vec::new();
    fqz_encode_params(&mut out, &lens, &src, true).unwrap();
    assert_eq!(&out[..2], &[5, 4]);
    let mut lens = vec![5usize; 16];
    lens.extend(vec![20usize; 14]);
    let src = vec![3u8; 16 * 5 + 14 * 20];
    let mut out = Vec::new();
    fqz_encode_params(&mut out, &lens, &src, false).unwrap();
    assert_eq!(&out[..4], &[5, 3, 2, 1]);
    // the selector table [0, 1, 1, ...]: rle1 = [1, 255, 0], no repeats
    assert_eq!(&out[4..7], &[1, 255, 0]);
}

#[test]
fn groups_split_records() {
    let lens = [2usize, 1, 3];
    let src = [1u8, 2, 3, 4, 5, 6];
    let (l0, s0, l1, s1) = split_groups(&lens, &src, &vec![0, 1, 0]);
    assert_eq!(l0, vec![2, 3]);
    assert_eq!(s0, vec![1, 2, 4, 5, 6]);
    assert_eq!(l1, vec![1]);
    assert_eq!(s1, vec![3]);
}

#[test]
fn reversal_before_coding() {
    let records = [(3usize, false), (3, true), (1, true)];
    let src = [1u8, 2, 3, 4, 5, 6, 7, 9];
    assert_eq!(reverse_qualities(&records, &src), vec![1, 2, 3, 6, 5, 4, 7, 9]);
}

#[test]
fn contexts_of_a_record() {
    let identity: Vec<u8> = (0u8..=255).collect();
    let p_tab = build_position_table(7, 0);
    assert_eq!(record_contexts_exec(&[1, 2], 2, &identity, &p_tab, None, None), vec![0, 130]);
    // third symbol: history 1 * 32 + 2 = 34, at bit 7; one symbol left before it
    assert_eq!(record_contexts_exec(&[1, 2, 3], 3, &identity, &p_tab, None, None), vec![0, 131, 34 * 128 + 2]);
    let d_tab = build_delta_table();
    // with a deltas table, a change of symbol adds d_tab[changes before it] at bit 15
    assert_eq!(record_contexts_exec(&[1, 2, 3], 3, &identity, &p_tab, Some(&d_tab), None), vec![0, 131, 34 * 128 + 2 + 0x8000]);
    assert_eq!(record_contexts_exec(&[1, 2], 2, &identity, &p_tab, None, Some(1)), vec![0, 130 + 0x8000]);
}

#[test]
fn stream_start() {
    let records = [(2usize, false), (2, true)];
    let src = [5u8, 6, 7, 8];
    let mut out = Vec::new();
    let working = encode_header(&mut out, &records, &src).unwrap();
    assert_eq!(working, vec![5, 6, 8, 7]);
    // 4 values, version 5, reversal flag 4
    assert_eq!(&out[..3], &[4, 5, 4]);
}
