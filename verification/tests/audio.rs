use sidecar_core::audio::{
    native_chunk_len, pick_device, str_contains, take_chunk, take_chunks, CHUNK_LEN,
};

#[test]
fn native_chunk_is_160_ms() {
    assert_eq!(native_chunk_len(16_000), CHUNK_LEN);
    assert_eq!(native_chunk_len(48_000), 7_680);
    assert_eq!(native_chunk_len(44_100), 7_040);
    assert_eq!(native_chunk_len(999), 0);
}

#[test]
fn chunks_are_taken_from_the_front() {
    let mut buf: Vec<f32> = (0..10).map(|i| i as f32).collect();
    assert_eq!(take_chunk(&mut buf, 4), Some(vec![0.0, 1.0, 2.0, 3.0]));
    assert_eq!(take_chunk(&mut buf, 4), Some(vec![4.0, 5.0, 6.0, 7.0]));
    assert_eq!(take_chunk(&mut buf, 4), None);
    assert_eq!(buf, vec![8.0, 9.0]);
    assert_eq!(take_chunk(&mut buf, 2), Some(vec![8.0, 9.0]));
    assert!(buf.is_empty());
}

#[test]
fn device_is_found_by_name_fragment() {
    let devs = vec![
        Some("Built-in Microphone".to_string()),
        None,
        Some("USB Audio Device".to_string()),
        Some("USB Headset".to_string()),
    ];
    assert_eq!(pick_device(&devs, "USB"), Some(2));
    assert_eq!(pick_device(&devs, "Headset"), Some(3));
    assert_eq!(pick_device(&devs, "Bluetooth"), None);
    assert_eq!(pick_device(&devs, ""), Some(0));
    assert_eq!(pick_device(&devs, "usb"), None);
}

#[test]
fn containment_matches_std() {
    for (h, n) in [("abc", ""), ("", ""), ("", "a"), ("abc", "bc"), ("abc", "abcd"), ("aab", "ab"), ("héllo", "éll"), ("abc", "ac")] {
        assert_eq!(str_contains(h, n), h.contains(n), "{h:?} {n:?}");
    }
}

#[test]
fn all_whole_chunks_are_taken_in_order() {
    let mut buf: Vec<u32> = (0..11).collect();
    let chunks = take_chunks(&mut buf, 4);
    assert_eq!(chunks, vec![vec![0, 1, 2, 3], vec![4, 5, 6, 7]]);
    assert_eq!(buf, vec![8, 9, 10]);
    let mut short: Vec<u32> = vec![1, 2];
    assert!(take_chunks(&mut short, 4).is_empty());
    assert_eq!(short, vec![1, 2]);
    let mut exact: Vec<f32> = vec![0.5; 2 * CHUNK_LEN];
    assert_eq!(take_chunks(&mut exact, CHUNK_LEN).len(), 2);
    assert!(exact.is_empty());
}
