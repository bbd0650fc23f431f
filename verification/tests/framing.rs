use freq_remapper::framing::{
    bin_targets, complete_spectrum, deposit, frame_hop, normalize_window_size, nyquist_bin,
    taper_index, OVERLAP_RATIO,
};

#[test]
fn overlap_ratio_is_four() {
    assert_eq!(OVERLAP_RATIO, 4);
}

#[test]
fn small_requests_are_raised_to_the_overlap_ratio() {
    assert_eq!(normalize_window_size(0), 4);
    assert_eq!(normalize_window_size(1), 4);
    assert_eq!(normalize_window_size(2), 4);
    assert_eq!(normalize_window_size(3), 4);
    assert_eq!(normalize_window_size(4), 4);
}

#[test]
fn requests_are_rounded_up_to_a_power_of_two() {
    assert_eq!(normalize_window_size(5), 8);
    assert_eq!(normalize_window_size(8), 8);
    assert_eq!(normalize_window_size(9), 16);
    assert_eq!(normalize_window_size(100), 128);
    assert_eq!(normalize_window_size(2047), 2048);
    assert_eq!(normalize_window_size(2048), 2048);
    assert_eq!(normalize_window_size(2049), 4096);
}

#[test]
fn supported_sizes_are_kept() {
    for exponent in 2..20u32 {
        let size = 1usize << exponent;
        assert_eq!(normalize_window_size(size), size);
        assert_eq!(frame_hop(size) * 4, size);
        assert_eq!(nyquist_bin(size) * 2, size);
    }
}

#[test]
fn the_largest_request_is_kept() {
    let largest = usize::MAX / 2 + 1;
    assert_eq!(normalize_window_size(largest), largest);
    assert_eq!(normalize_window_size(largest - 1), largest);
}

#[test]
fn hop_is_a_quarter_window() {
    assert_eq!(frame_hop(4), 1);
    assert_eq!(frame_hop(128), 32);
    assert_eq!(frame_hop(2048), 512);
    assert_eq!(frame_hop(4096), 1024);
}

#[test]
fn nyquist_bin_is_half_the_window() {
    assert_eq!(nyquist_bin(4), 2);
    assert_eq!(nyquist_bin(2048), 1024);
}

#[test]
fn taper_index_rotates_by_the_offset() {
    assert_eq!(taper_index(8, 0, 0), 0);
    assert_eq!(taper_index(8, 7, 0), 7);
    assert_eq!(taper_index(8, 7, 3), 2);
    assert_eq!(taper_index(8, 5, 8), 5);
    assert_eq!(taper_index(8, 5, 4096), 5);
    assert_eq!(taper_index(2048, 2047, 1), 0);
}

#[test]
fn taper_index_takes_the_largest_arguments() {
    let expected = ((usize::MAX % 6) + (usize::MAX % 6)) % 6;
    assert_eq!(taper_index(6, usize::MAX, usize::MAX), expected);
    assert_eq!(taper_index(1, usize::MAX, usize::MAX), 0);
}

#[test]
fn targets_below_the_nyquist_bin_are_a_pair() {
    let targets = bin_targets(8, 2);
    assert_eq!(targets.low, Some(2));
    assert_eq!(targets.high, Some(3));
    let lowest = bin_targets(8, 0);
    assert_eq!(lowest.low, Some(0));
    assert_eq!(lowest.high, Some(1));
}

#[test]
fn target_at_the_nyquist_bin_has_no_upper_bin() {
    let targets = bin_targets(8, 4);
    assert_eq!(targets.low, Some(4));
    assert_eq!(targets.high, None);
}

#[test]
fn targets_above_the_nyquist_bin_are_none() {
    let targets = bin_targets(8, 5);
    assert_eq!(targets.low, None);
    assert_eq!(targets.high, None);
    let far = bin_targets(8, usize::MAX);
    assert_eq!(far.low, None);
    assert_eq!(far.high, None);
}

#[test]
fn deposit_adds_both_shares() {
    let mut spectrum: Vec<i64> = vec![1, 2, 3, 4, 5, 6, 7, 8];
    deposit(&mut spectrum, 2, 10, 20, &|held, share| held + share);
    assert_eq!(spectrum, vec![1, 2, 13, 24, 5, 6, 7, 8]);
}

#[test]
fn deposits_on_one_target_sum() {
    let mut spectrum: Vec<i64> = vec![0; 8];
    deposit(&mut spectrum, 1, 3, 1, &|held, share| held + share);
    deposit(&mut spectrum, 1, 30, 10, &|held, share| held + share);
    assert_eq!(spectrum, vec![0, 33, 11, 0, 0, 0, 0, 0]);
}

#[test]
fn deposit_at_the_nyquist_bin_drops_the_upper_share() {
    let mut spectrum: Vec<i64> = vec![0; 8];
    deposit(&mut spectrum, 4, 5, 7, &|held, share| held + share);
    assert_eq!(spectrum, vec![0, 0, 0, 0, 5, 0, 0, 0]);
}

#[test]
fn deposit_above_the_nyquist_bin_adds_nothing() {
    let mut spectrum: Vec<i64> = vec![1, 2, 3, 4, 5, 6, 7, 8];
    deposit(&mut spectrum, 5, 100, 100, &|held, share| held + share);
    assert_eq!(spectrum, vec![1, 2, 3, 4, 5, 6, 7, 8]);
    deposit(&mut spectrum, usize::MAX, 100, 100, &|held, share| held + share);
    assert_eq!(spectrum, vec![1, 2, 3, 4, 5, 6, 7, 8]);
}

#[test]
fn deposit_on_a_single_bin() {
    let mut spectrum: Vec<i64> = vec![4];
    deposit(&mut spectrum, 0, 1, 2, &|held, share| held + share);
    assert_eq!(spectrum, vec![5]);
}

#[test]
fn completed_spectrum_is_hermitian() {
    let mut spectrum: Vec<(i64, i64)> =
        vec![(1, 9), (2, 3), (4, 5), (6, 7), (8, 9), (0, 0), (0, 0), (0, 0)];
    complete_spectrum(&mut spectrum, |c| (c.0, 0), |c| (c.0, -c.1));
    assert_eq!(
        spectrum,
        vec![(1, 0), (2, 3), (4, 5), (6, 7), (8, 0), (6, -7), (4, -5), (2, -3)]
    );
}

#[test]
fn completed_spectrum_of_the_smallest_window() {
    let mut spectrum: Vec<(i64, i64)> = vec![(1, 1), (2, 2), (3, 3), (4, 4)];
    complete_spectrum(&mut spectrum, |c| (c.0, 0), |c| (c.0, -c.1));
    assert_eq!(spectrum, vec![(1, 0), (2, 2), (3, 0), (2, -2)]);
}

#[test]
fn completed_spectrum_of_two_bins() {
    let mut spectrum: Vec<(i64, i64)> = vec![(1, 1), (2, 2)];
    complete_spectrum(&mut spectrum, |c| (c.0, 0), |c| (c.0, -c.1));
    assert_eq!(spectrum, vec![(1, 0), (2, 0)]);
}

#[test]
fn completed_spectrum_of_odd_length_keeps_the_middle() {
    let mut spectrum: Vec<(i64, i64)> = vec![(1, 1), (2, 2), (3, 3), (4, 4), (5, 5)];
    complete_spectrum(&mut spectrum, |c| (c.0, 0), |c| (c.0, -c.1));
    assert_eq!(spectrum, vec![(1, 0), (2, 2), (3, 0), (4, 4), (2, -2)]);
}
