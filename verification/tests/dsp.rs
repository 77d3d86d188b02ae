use pitch_detection::dsp::{select_peaks, SampleWindow, MAX_PEAKS, MIN_PEAK_SEPARATION_BINS};

#[test]
fn partial_window_gives_nothing() {
    let mut w: SampleWindow<f32> = SampleWindow::new(8);
    assert_eq!(w.window_size(), 8);
    assert_eq!(w.push_samples(&[0.5; 4]), None);
    assert_eq!(w.push_samples(&[0.25; 3]), None);
}

#[test]
fn window_fills_across_calls() {
    let mut w: SampleWindow<i32> = SampleWindow::new(4);
    assert_eq!(w.push_samples(&[1, 2]), None);
    assert_eq!(w.push_samples(&[3, 4, 5]), Some(vec![1, 2, 3, 4]));
    assert_eq!(w.push_samples(&[6, 7]), None);
    assert_eq!(w.push_samples(&[8]), Some(vec![5, 6, 7, 8]));
    assert_eq!(w.push_samples(&[]), None);
}

#[test]
fn one_window_per_call() {
    let mut w: SampleWindow<u8> = SampleWindow::new(2);
    assert_eq!(w.push_samples(&[1, 2, 3, 4, 5, 6]), Some(vec![1, 2]));
    assert_eq!(w.push_samples(&[]), Some(vec![3, 4]));
    assert_eq!(w.push_samples(&[7]), Some(vec![5, 6]));
    assert_eq!(w.push_samples(&[]), None);
    assert_eq!(w.push_samples(&[8]), Some(vec![7, 8]));
}

#[test]
fn exact_window_leaves_nothing_pending() {
    let mut w: SampleWindow<u8> = SampleWindow::new(3);
    assert_eq!(w.push_samples(&[9, 8, 7]), Some(vec![9, 8, 7]));
    assert_eq!(w.push_samples(&[1, 2]), None);
}

#[test]
fn zero_sized_window_hands_out_empty_windows() {
    let mut w: SampleWindow<u8> = SampleWindow::new(0);
    assert_eq!(w.push_samples(&[]), Some(vec![]));
    assert_eq!(w.push_samples(&[1]), Some(vec![]));
}

#[test]
fn peaks_keep_their_distance() {
    assert_eq!(MAX_PEAKS, 6);
    assert_eq!(MIN_PEAK_SEPARATION_BINS, 2);
    assert_eq!(select_peaks(&[]), Vec::<usize>::new());
    assert_eq!(select_peaks(&[19]), vec![19]);
    // 20 and 18 lie within one bin of the stronger 19; 21 is two bins away
    assert_eq!(select_peaks(&[19, 20, 18, 21]), vec![19, 21]);
    assert_eq!(select_peaks(&[5, 5, 7]), vec![5, 7]);
}

#[test]
fn peaks_are_capped() {
    assert_eq!(
        select_peaks(&[10, 11, 30, 9, 50, 60, 70, 80, 90, 100]),
        vec![10, 30, 50, 60, 70, 80]
    );
    assert_eq!(select_peaks(&[2, 4, 6, 8, 10, 12, 14]), vec![2, 4, 6, 8, 10, 12]);
}
