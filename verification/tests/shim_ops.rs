use kernelcore::records::AllocRecords;
use kernelcore::shim;
use kernelcore::vectors;
use kernelcore::vectors::FaultOutcome;
use kernelcore::vfs::Fs;

#[test]
fn open_flag_bits_decode_independently() {
    let none = shim::decode_open_flags(0);
    assert!(!none.append && !none.exclude && !none.truncate);
    let a = shim::decode_open_flags(0o2000);
    assert!(a.append && !a.exclude && !a.truncate);
    let e = shim::decode_open_flags(0o200);
    assert!(!e.append && e.exclude && !e.truncate);
    let t = shim::decode_open_flags(0o1000);
    assert!(!t.append && !t.exclude && t.truncate);
    let all = shim::decode_open_flags(0o2000 | 0o200 | 0o1000);
    assert!(all.append && all.exclude && all.truncate);
}

#[test]
fn shim_open_write_close_lseek_read() {
    let mut fs = Fs::new();
    let fd = shim::open(&mut fs, String::from("data"), 0);
    assert_eq!(fd, 3);
    assert_eq!(fs.write(fd as isize, b"abcdef"), 6);
    assert_eq!(shim::lseek(&mut fs, fd, 2, 0), 2);
    let mut buf = vec![0u8; 2];
    assert_eq!(fs.read(fd as isize, &mut buf), 2);
    assert_eq!(buf, b"cd".to_vec());
    assert_eq!(shim::close(&mut fs, fd), 0);
}

#[test]
fn shim_exclusive_open_reports_failure() {
    let mut fs = Fs::new();
    assert_eq!(shim::open(&mut fs, String::from("x"), 0o200), 3);
    assert_eq!(shim::open(&mut fs, String::from("x"), 0o200), -1);
}

#[test]
fn shim_open_honours_the_append_bit() {
    let mut fs = Fs::new();
    let fd = shim::open(&mut fs, String::from("f"), 0);
    assert_eq!(fs.write(fd as isize, b"ab"), 2);
    assert_eq!(shim::close(&mut fs, fd), 0);
    let fd2 = shim::open(&mut fs, String::from("f"), 0o2000);
    assert_eq!(fs.write(fd2 as isize, b"cd"), 2);
    assert_eq!(shim::close(&mut fs, fd2), 0);
    let fd3 = shim::open(&mut fs, String::from("f"), 0);
    let mut buf = vec![0u8; 4];
    assert_eq!(fs.read(fd3 as isize, &mut buf), 4);
    assert_eq!(buf, b"abcd".to_vec());
}

#[test]
fn writev_gathers_buffers_in_order() {
    let mut fs = Fs::new();
    let fd = shim::open(&mut fs, String::from("v"), 0);
    let bufs = vec![vec![1u8, 2], vec![], vec![3u8, 4, 5]];
    assert_eq!(shim::writev(&mut fs, fd, &bufs), 5);
    assert_eq!(shim::lseek(&mut fs, fd, 0, 0), 0);
    let mut buf = vec![0u8; 5];
    assert_eq!(fs.read(fd as isize, &mut buf), 5);
    assert_eq!(buf, vec![1, 2, 3, 4, 5]);
}

#[test]
fn writev_to_the_console_counts_without_touching_the_store() {
    let mut fs = Fs::new();
    let bufs = vec![vec![1u8, 2, 3], vec![4u8]];
    assert_eq!(shim::writev(&mut fs, 1, &bufs), 4);
    assert_eq!(shim::writev(&mut fs, 2, &bufs), 4);
    assert_eq!(shim::writev(&mut fs, 0, &bufs), 0);
}

#[test]
fn writev_fails_on_an_unknown_handle() {
    let mut fs = Fs::new();
    let bufs = vec![vec![1u8]];
    assert_eq!(shim::writev(&mut fs, 9, &bufs), -1);
}

#[test]
fn readv_scatters_chunks_in_order() {
    let mut fs = Fs::new();
    let fd = shim::open(&mut fs, String::from("v"), 0);
    assert_eq!(fs.write(fd as isize, &[1, 2, 3, 4, 5]), 5);
    assert_eq!(shim::lseek(&mut fs, fd, 0, 0), 0);
    let (count, chunks) = shim::readv(&mut fs, fd, &vec![2, 2]);
    assert_eq!(count, 4);
    assert_eq!(chunks, vec![vec![1u8, 2], vec![3u8, 4]]);
}

#[test]
fn readv_truncates_the_final_chunk_at_end_of_data() {
    let mut fs = Fs::new();
    let fd = shim::open(&mut fs, String::from("v"), 0);
    assert_eq!(fs.write(fd as isize, &[1, 2, 3]), 3);
    assert_eq!(shim::lseek(&mut fs, fd, 0, 0), 0);
    let (count, chunks) = shim::readv(&mut fs, fd, &vec![2, 4, 4]);
    assert_eq!(count, 3);
    assert_eq!(chunks, vec![vec![1u8, 2], vec![3u8], vec![]]);
}

#[test]
fn readv_of_the_standard_descriptors_is_end_of_file() {
    let mut fs = Fs::new();
    for fd in 0..3i32 {
        let (count, chunks) = shim::readv(&mut fs, fd, &vec![8]);
        assert_eq!(count, 0);
        assert!(chunks.is_empty());
    }
}

#[test]
fn readv_fails_on_an_unknown_handle() {
    let mut fs = Fs::new();
    let (count, chunks) = shim::readv(&mut fs, 9, &vec![4]);
    assert_eq!(count, -1);
    assert!(chunks.is_empty());
}

#[test]
fn stubbed_entry_points_answer_their_fixed_values() {
    assert_eq!(shim::fcntl(5, 1, 2), 0);
    assert_eq!(shim::fstat(5), 0);
    assert_eq!(shim::openat(1, 0, 0), -1);
    assert_eq!(shim::fdatasync(5), 0);
    assert_eq!(shim::clock_getres(0), -1);
    assert_eq!(shim::clock_gettime(0), -1);
}

#[test]
fn cstr_len_stops_at_the_first_nul() {
    assert_eq!(shim::cstr_len(b"hi\0junk"), 2);
    assert_eq!(shim::cstr_len(b"\0"), 0);
}

#[test]
fn strcmp_orders_byte_strings() {
    assert_eq!(shim::strcmp(b"abc\0", b"abc\0"), 0);
    assert_eq!(shim::strcmp(b"abc\0", b"abd\0"), -1);
    assert_eq!(shim::strcmp(b"b\0", b"a\0"), 1);
    assert_eq!(shim::strcmp(b"ab\0", b"abc\0"), -(b'c' as isize));
    assert_eq!(shim::strcmp(b"abc\0xx", b"abc\0yy"), 0);
}

#[test]
fn allocation_records_round_trip() {
    let mut recs = AllocRecords::new();
    recs.record(0x1000, 64, 1);
    assert_eq!(recs.layout_of(0x1000), Some((64, 1)));
    assert_eq!(recs.layout_of(0x2000), None);
    let (size, align) = recs.release(0x1000);
    assert_eq!((size, align), (64, 1));
    assert_eq!(recs.layout_of(0x1000), None);
}

#[test]
fn rerecording_an_address_overwrites_its_layout() {
    let mut recs = AllocRecords::new();
    recs.record(0x1000, 64, 1);
    recs.record(0x1000, 128, 1);
    assert_eq!(recs.layout_of(0x1000), Some((128, 1)));
    recs.record(0x3000, 8, 1);
    assert_eq!(recs.release(0x1000), (128, 1));
    assert_eq!(recs.layout_of(0x3000), Some((8, 1)));
}

#[test]
fn reallocation_moves_the_record_to_the_new_address() {
    let mut recs = AllocRecords::new();
    recs.record(0x1000, 64, 1);
    assert_eq!(recs.reallocate(0x1000, 0x2000, 128, 1), (64, 1));
    assert_eq!(recs.layout_of(0x1000), None);
    assert_eq!(recs.layout_of(0x2000), Some((128, 1)));
    assert_eq!(recs.reallocate(0x2000, 0x2000, 256, 1), (128, 1));
    assert_eq!(recs.layout_of(0x2000), Some((256, 1)));
}

#[test]
fn every_documented_vector_halts_with_its_own_number() {
    let installed = [
        0u8, 1, 2, 3, 4, 5, 6, 7, 8, 10, 11, 12, 13, 14, 16, 17, 18, 19, 20, 21, 28, 29, 30,
    ];
    for &v in installed.iter() {
        assert!(vectors::vector_has_handler(v));
        let FaultOutcome::Halt(d) = vectors::handle_fault(v, 0x55);
        assert_eq!(d.vector, v);
        assert_eq!(d.error_code.is_some(), vectors::pushes_error_code(v));
    }
    assert!(!vectors::vector_has_handler(9));
    assert!(!vectors::vector_has_handler(15));
    assert!(!vectors::vector_has_handler(31));
    assert!(!vectors::vector_has_handler(255));
}

#[test]
fn error_code_vectors_carry_the_hardware_code() {
    let FaultOutcome::Halt(d) = vectors::handle_fault(14, 0xdead);
    assert_eq!(d.vector, 14);
    assert_eq!(d.error_code, Some(0xdead));
    let FaultOutcome::Halt(d2) = vectors::handle_fault(0, 0xdead);
    assert_eq!(d2.vector, 0);
    assert_eq!(d2.error_code, None);
    assert!(vectors::is_abort(8));
    assert!(vectors::is_abort(18));
    assert!(!vectors::is_abort(13));
}
