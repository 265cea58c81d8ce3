use haucet_tools::entropy::{most_common, unique_bytes, window_plan, EntropyScan};

#[test]
fn windows_are_planned_across_the_file() {
    assert_eq!(window_plan(0), (0, vec![]));
    assert_eq!(window_plan(100), (100, vec![0]));
    let (size, offsets) = window_plan(4096 + 3);
    assert_eq!(size, 4096);
    assert_eq!(offsets, vec![0, 1, 2, 3]);
    let (size, offsets) = window_plan(1 << 20);
    assert_eq!(size, 8192);
    assert_eq!(offsets.len(), 192);
    assert_eq!(offsets[0], 0);
    assert_eq!(*offsets.last().unwrap(), (1 << 20) - 8192);
    assert!(offsets.windows(2).all(|w| w[0] < w[1]));
    assert_eq!(window_plan(1 << 30).0, 1 << 20);
}

#[test]
fn a_scan_counts_bytes_and_reports_each_planned_window() {
    let data: Vec<u8> = (0..5000_u32).map(|i| (i % 7) as u8).collect();
    let mut scan = EntropyScan::new(data.len() as u64);
    assert_eq!(scan.window_size(), 4096);
    let mut reported = Vec::new();
    for &b in &data {
        if let Some((offset, counts)) = scan.feed(b) {
            reported.push((offset, counts));
        }
    }
    assert_eq!(scan.total(), 5000);
    let (_, offsets) = window_plan(5000);
    assert_eq!(reported.len(), offsets.len());
    for (offset, counts) in &reported {
        let window = &data[*offset as usize..*offset as usize + 4096];
        for v in 0..256 {
            assert_eq!(counts[v], window.iter().filter(|&&x| x as usize == v).count() as u64);
        }
    }
    let counts = scan.counts();
    assert_eq!(counts[0], 715);
    assert_eq!(counts[6], 714);
    assert_eq!(unique_bytes(counts), 7);
    assert_eq!(most_common(counts), Some((0, 715)));
}

#[test]
fn empty_counts_have_no_most_common_byte() {
    let counts = vec![0_u64; 256];
    assert_eq!(unique_bytes(&counts), 0);
    assert_eq!(most_common(&counts), None);
    let mut tie = vec![0_u64; 256];
    tie[9] = 3;
    tie[4] = 3;
    assert_eq!(most_common(&tie), Some((4, 3)));
}
