use kernelcore::vfs::Fs;

#[test]
fn first_handle_is_three_and_ids_increase() {
    let mut fs = Fs::new();
    let a = fs.open(String::from("a"), false, false, false);
    let b = fs.open(String::from("b"), false, false, false);
    assert_eq!(a, 3);
    assert_eq!(b, 4);
}

#[test]
fn round_trip_write_then_read() {
    let mut fs = Fs::new();
    let h = fs.open(String::from("log"), false, false, false);
    assert_eq!(fs.write(h, b"hello"), 5);
    fs.close(h);
    let h2 = fs.open(String::from("log"), false, false, false);
    let mut buf = vec![0u8; 5];
    assert_eq!(fs.read(h2, &mut buf), 5);
    assert_eq!(buf, b"hello".to_vec());
}

#[test]
fn sparse_write_zero_fills_the_gap() {
    let mut fs = Fs::new();
    let h = fs.open(String::from("sparse"), false, false, false);
    assert_eq!(fs.seek(h, 10, 0), 10);
    assert_eq!(fs.write(h, &[1, 2, 3]), 3);
    assert_eq!(fs.seek(h, 0, 0), 0);
    let mut buf = vec![9u8; 13];
    assert_eq!(fs.read(h, &mut buf), 13);
    assert_eq!(buf, vec![0, 0, 0, 0, 0, 0, 0, 0, 0, 0, 1, 2, 3]);
}

#[test]
fn exclusive_create_fails_once_the_name_exists() {
    let mut fs = Fs::new();
    let first = fs.open(String::from("x"), false, true, false);
    let second = fs.open(String::from("x"), false, true, false);
    assert_eq!(first, 3);
    assert_eq!(second, -1);
}

#[test]
fn failed_exclusive_open_still_consumes_an_id() {
    let mut fs = Fs::new();
    assert_eq!(fs.open(String::from("x"), false, true, false), 3);
    assert_eq!(fs.open(String::from("x"), false, true, false), -1);
    assert_eq!(fs.open(String::from("y"), false, false, false), 5);
}

#[test]
fn seek_from_end_and_clamped_absolute() {
    let mut fs = Fs::new();
    let h = fs.open(String::from("f"), false, false, false);
    assert_eq!(fs.write(h, &[10, 20, 30, 40, 50]), 5);
    assert_eq!(fs.seek(h, -2, 2), 3);
    assert_eq!(fs.seek(h, -5, 0), 0);
}

#[test]
fn seek_relative_saturates_at_zero() {
    let mut fs = Fs::new();
    let h = fs.open(String::from("f"), false, false, false);
    assert_eq!(fs.write(h, &[1, 2, 3]), 3);
    assert_eq!(fs.seek(h, -100, 1), 0);
    assert_eq!(fs.seek(h, 2, 1), 2);
}

#[test]
fn seek_saturates_at_the_top_of_the_cursor_range() {
    let mut fs = Fs::new();
    let h = fs.open(String::from("f"), false, false, false);
    assert_eq!(fs.seek(h, isize::MAX, 1), isize::MAX);
    // one more maximal step saturates the cursor just short of the unsigned
    // top, which reads back as -2 through the signed return
    assert_eq!(fs.seek(h, isize::MAX, 1), -2);
}

#[test]
fn seek_rejects_unknown_whence_and_handle() {
    let mut fs = Fs::new();
    let h = fs.open(String::from("f"), false, false, false);
    assert_eq!(fs.seek(h, 0, 7), -1);
    assert_eq!(fs.seek(99, 0, 0), -1);
}

#[test]
fn read_at_end_of_data_returns_zero() {
    let mut fs = Fs::new();
    let h = fs.open(String::from("f"), false, false, false);
    assert_eq!(fs.write(h, &[1, 2]), 2);
    let mut buf = vec![7u8; 4];
    assert_eq!(fs.read(h, &mut buf), 0);
    assert_eq!(buf, vec![7, 7, 7, 7]);
}

#[test]
fn short_read_returns_the_available_remainder() {
    let mut fs = Fs::new();
    let h = fs.open(String::from("f"), false, false, false);
    assert_eq!(fs.write(h, &[1, 2, 3, 4, 5]), 5);
    assert_eq!(fs.seek(h, 3, 0), 3);
    let mut buf = vec![9u8; 4];
    assert_eq!(fs.read(h, &mut buf), 2);
    assert_eq!(buf, vec![4, 5, 9, 9]);
}

#[test]
fn write_overwrites_in_place_and_extends_past_the_end() {
    let mut fs = Fs::new();
    let h = fs.open(String::from("f"), false, false, false);
    assert_eq!(fs.write(h, &[1, 2, 3, 4]), 4);
    assert_eq!(fs.seek(h, 1, 0), 1);
    assert_eq!(fs.write(h, &[8, 9]), 2);
    assert_eq!(fs.seek(h, 3, 0), 3);
    assert_eq!(fs.write(h, &[5, 6, 7]), 3);
    fs.close(h);
    let h2 = fs.open(String::from("f"), false, false, false);
    let mut buf = vec![0u8; 6];
    assert_eq!(fs.read(h2, &mut buf), 6);
    assert_eq!(buf, vec![1, 8, 9, 5, 6, 7]);
}

#[test]
fn read_and_write_fail_on_unknown_handle() {
    let mut fs = Fs::new();
    let mut buf = vec![0u8; 2];
    assert_eq!(fs.read(42, &mut buf), -1);
    assert_eq!(fs.write(42, &[1]), -1);
}

#[test]
fn append_mode_starts_the_cursor_at_the_end() {
    let mut fs = Fs::new();
    let h = fs.open(String::from("f"), false, false, false);
    assert_eq!(fs.write(h, b"ab"), 2);
    fs.close(h);
    let h2 = fs.open(String::from("f"), true, false, false);
    assert_eq!(fs.write(h2, b"cd"), 2);
    fs.close(h2);
    let h3 = fs.open(String::from("f"), false, false, false);
    let mut buf = vec![0u8; 4];
    assert_eq!(fs.read(h3, &mut buf), 4);
    assert_eq!(buf, b"abcd".to_vec());
}

#[test]
fn append_with_truncate_starts_the_cursor_at_zero() {
    let mut fs = Fs::new();
    let h = fs.open(String::from("f"), false, false, false);
    assert_eq!(fs.write(h, b"abcd"), 4);
    fs.close(h);
    let h2 = fs.open(String::from("f"), true, false, true);
    assert_eq!(fs.write(h2, b"XY"), 2);
    fs.close(h2);
    let h3 = fs.open(String::from("f"), false, false, false);
    let mut buf = vec![0u8; 4];
    assert_eq!(fs.read(h3, &mut buf), 4);
    assert_eq!(buf, b"XYcd".to_vec());
}

#[test]
fn handles_snapshot_and_the_last_closer_wins() {
    let mut fs = Fs::new();
    let h = fs.open(String::from("f"), false, false, false);
    assert_eq!(fs.write(h, b"base"), 4);
    fs.close(h);
    let h1 = fs.open(String::from("f"), false, false, false);
    let h2 = fs.open(String::from("f"), false, false, false);
    assert_eq!(fs.write(h1, b"AAAA"), 4);
    assert_eq!(fs.write(h2, b"BB"), 2);
    fs.close(h1);
    fs.close(h2);
    let h3 = fs.open(String::from("f"), false, false, false);
    let mut buf = vec![0u8; 4];
    assert_eq!(fs.read(h3, &mut buf), 4);
    assert_eq!(buf, b"BBse".to_vec());
}
