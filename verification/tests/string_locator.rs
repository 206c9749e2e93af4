use rbase::config::Args;
use rbase::strings::find_string_addresses_in_chunk;
use rbase::strings::Strings;

fn string_args(min_len: usize, max_len: usize, max_strings: usize) -> Args {
    Args {
        filename: String::new(),
        is_32bit: false,
        is_64bit: true,
        is_little_endian: true,
        is_big_endian: false,
        max_string_length: max_len,
        min_string_length: min_len,
        max_strings,
        max_addresses: 1_000_000,
    }
}

fn buffer_with_string(total: usize, offset: usize, text: &[u8]) -> Vec<u8> {
    let mut buf = vec![0u8; total];
    buf[offset..offset + text.len()].copy_from_slice(text);
    buf
}

#[test]
fn finds_basic_string() {
    let buf = buffer_with_string(64, 5, b"hello_world");
    let args = string_args(10, 32, 100_000);
    let strings = Strings::new(&args, &buf);
    assert_eq!(strings.offsets(), &vec![5u64]);
}

#[test]
fn rejects_run_shorter_than_min() {
    let buf = buffer_with_string(64, 5, b"hello_wor");
    let args = string_args(10, 32, 100_000);
    let strings = Strings::new(&args, &buf);
    assert!(strings.offsets().is_empty());
}

#[test]
fn rejects_run_longer_than_max() {
    let buf = buffer_with_string(64, 5, b"abcdef");
    let args = string_args(3, 5, 100_000);
    let strings = Strings::new(&args, &buf);
    assert!(strings.offsets().is_empty());
}

#[test]
fn accepts_exact_min_and_max_lengths() {
    let mut buf = vec![0u8; 64];
    buf[4..7].copy_from_slice(b"abc");
    buf[20..25].copy_from_slice(b"vwxyz");
    let args = string_args(3, 5, 100_000);
    let strings = Strings::new(&args, &buf);
    assert_eq!(strings.offsets(), &vec![4u64, 20u64]);
}

#[test]
fn rejects_run_without_nul_terminator() {
    let mut buf = vec![0u8; 32];
    buf[10..21].copy_from_slice(b"hello_world");
    buf[21] = b'-';
    let args = string_args(10, 32, 100_000);
    let strings = Strings::new(&args, &buf);
    assert!(strings.offsets().is_empty());
}

#[test]
fn rejects_run_touching_buffer_end() {
    let mut buf = vec![0u8; 15];
    buf[4..15].copy_from_slice(b"hello_world");
    let args = string_args(10, 32, 100_000);
    let strings = Strings::new(&args, &buf);
    assert!(strings.offsets().is_empty());
}

#[test]
fn run_start_is_left_maximal() {
    // A printable byte before the run extends it; the run is measured from
    // its true start, not from inside.
    let buf = buffer_with_string(64, 5, b"Aabcdefghij");
    let args = string_args(11, 32, 100_000);
    let strings = Strings::new(&args, &buf);
    assert_eq!(strings.offsets(), &vec![5u64]);

    // With min_len above the full run length nothing is found, even though
    // a suffix of the run would have an acceptable length.
    let args = string_args(11, 11, 100_000);
    let buf2 = buffer_with_string(64, 5, b"Zabcdefghijk");
    let strings2 = Strings::new(&args, &buf2);
    assert!(strings2.offsets().is_empty());

    // A non-printable, non-NUL byte before the run does not extend it.
    let mut buf3 = buffer_with_string(64, 5, b"abcdefghijk");
    buf3[4] = b'-';
    let strings3 = Strings::new(&args, &buf3);
    assert_eq!(strings3.offsets(), &vec![5u64]);
}

#[test]
fn sampling_cap_keeps_first_offsets() {
    let mut buf = vec![0u8; 64];
    buf[2..5].copy_from_slice(b"abc");
    buf[10..13].copy_from_slice(b"def");
    buf[20..23].copy_from_slice(b"ghi");
    let args = string_args(3, 5, 2);
    let strings = Strings::new(&args, &buf);
    assert_eq!(strings.offsets(), &vec![2u64, 10u64]);
}

#[test]
fn offsets_are_indexed_by_page_offset() {
    let mut buf = vec![0u8; 0x2000];
    buf[0x100..0x10c].copy_from_slice(b"first_string");
    buf[0x1100..0x110d].copy_from_slice(b"second_string");
    let args = string_args(10, 32, 100_000);
    let strings = Strings::new(&args, &buf);
    let bucket = strings.get(0x100).expect("bucket 0x100 holds both offsets");
    assert_eq!(bucket, &vec![0x100u64, 0x1100u64]);
    assert!(strings.get(0x200).is_none());
    assert!(strings.get(0x1100).is_none());
}

#[test]
fn empty_buffer_yields_no_strings() {
    let buf: Vec<u8> = Vec::new();
    let args = string_args(10, 32, 100_000);
    let strings = Strings::new(&args, &buf);
    assert!(strings.offsets().is_empty());
}

#[test]
fn chunk_layout_steps_and_clips() {
    let chunks = Strings::get_overlapping_chunks(100, 30, 9);
    assert_eq!(chunks, vec![(0, 39), (30, 69), (60, 99), (90, 100)]);
    let none = Strings::get_overlapping_chunks(0, 8, 3);
    assert!(none.is_empty());
}

#[test]
fn chunked_scan_finds_boundary_straddling_string() {
    // One string straddles the boundary between the two scan ranges; the
    // range that holds its first byte reports it, the other does not.
    let mut buf = vec![0u8; 64];
    buf[28..40].copy_from_slice(b"straddle_str");
    let left = find_string_addresses_in_chunk(&buf, 0, 32, 10, 32);
    let right = find_string_addresses_in_chunk(&buf, 32, 64, 10, 32);
    assert_eq!(left, vec![28u64]);
    assert!(right.is_empty());
    let whole = find_string_addresses_in_chunk(&buf, 0, 64, 10, 32);
    let mut merged = left.clone();
    merged.extend_from_slice(&right);
    assert_eq!(merged, whole);
}
