use libgefs::application::AppState;

#[test]
fn new_state_counts_nothing() {
    let a: AppState<u64, u8> = AppState::new();
    assert_eq!(a.frame_count, 0);
    assert_eq!(a.frame_time, 0);
    assert_eq!(a.max_frame_time, 0);
    assert!(a.game_storage.resources.is_empty());
}

#[test]
fn record_frame_tracks_time_and_maximum() {
    let mut a: AppState<u64, u8> = AppState::new();
    a.last_frame_ns = 1_000;
    a.record_frame(1_501_999);
    assert_eq!((a.frame_count, a.frame_time, a.max_frame_time), (1, 1500, 1500));
    assert_eq!(a.last_frame_ns, 1_501_999);
    a.record_frame(2_401_999);
    assert_eq!((a.frame_count, a.frame_time, a.max_frame_time), (2, 900, 1500));
    a.record_frame(4_401_999);
    assert_eq!((a.frame_count, a.frame_time, a.max_frame_time), (3, 2000, 2000));
    // the frame time keeps the low 32 bits of the microseconds
    a.record_frame(4_401_999 + ((1u128 << 32) + 5) * 1000);
    assert_eq!((a.frame_count, a.frame_time, a.max_frame_time), (4, 5, 2000));
}

#[test]
fn a_reading_before_the_last_one_gives_zero_time() {
    let mut a: AppState<u64, u8> = AppState::new();
    a.last_frame_ns = 5_000_000;
    a.record_frame(2_000_000);
    assert_eq!((a.frame_count, a.frame_time, a.last_frame_ns), (1, 0, 2_000_000));
}

#[test]
fn count_reads_the_clock_and_keeps_maximum() {
    let mut a: AppState<u64, u8> = AppState::new();
    let first = a.last_frame_ns;
    let waited = std::time::Instant::now();
    while waited.elapsed() < std::time::Duration::from_millis(3) {}
    a.count();
    assert!(a.last_frame_ns >= first);
    assert!(a.frame_time >= 3000);
    assert_eq!(a.frame_time as u128, (a.last_frame_ns - first) / 1000);
    a.count();
    assert_eq!(a.frame_count, 2);
    assert!(a.max_frame_time >= a.frame_time);
    assert!(a.max_frame_time >= 3000);
}

#[test]
fn longest_frame_covers_every_frame_of_a_run() {
    let mut a: AppState<u64, u8> = AppState::new();
    a.last_frame_ns = 0;
    let readings = [300_000u128, 1_500_000, 2_200_000, 3_300_000, 3_350_000];
    let mut previous_max = 0;
    for (n, r) in readings.iter().enumerate() {
        a.record_frame(*r);
        assert_eq!(a.frame_count, n as u64 + 1);
        assert!(a.frame_time <= a.max_frame_time);
        assert!(a.max_frame_time >= previous_max);
        previous_max = a.max_frame_time;
    }
    assert_eq!(a.max_frame_time, 1200);
}

#[test]
fn count_never_moves_the_last_reading_back() {
    let mut a: AppState<u64, u8> = AppState::new();
    let later = 1u128 << 100;
    a.last_frame_ns = later;
    a.count();
    assert_eq!((a.frame_count, a.frame_time, a.last_frame_ns), (1, 0, later));
}
