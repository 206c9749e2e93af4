use rbase::addresses::Addresses;
use rbase::base::Base;
use rbase::buckets::page_key;
use rbase::config::Args;
use rbase::config::ConfigError;
use rbase::config::Endian;
use rbase::config::Size;
use rbase::strings::Strings;

fn voter_args(min_len: usize, max_len: usize) -> Args {
    Args {
        filename: String::new(),
        is_32bit: false,
        is_64bit: true,
        is_little_endian: true,
        is_big_endian: false,
        max_string_length: max_len,
        min_string_length: min_len,
        max_strings: 100_000,
        max_addresses: 1_000_000,
    }
}

fn write_word(buf: &mut [u8], pos: usize, v: u64) {
    buf[pos..pos + 8].copy_from_slice(&v.to_le_bytes());
}

fn write_text(buf: &mut [u8], pos: usize, text: &[u8]) {
    buf[pos..pos + text.len()].copy_from_slice(text);
}

fn run_pipeline(args: &Args, buf: &[u8]) -> (Vec<(u64, usize)>, Option<u64>) {
    let strings = Strings::new(args, buf);
    let addresses = Addresses::new(buf, args.size(), args.endian(), args.max_addresses);
    let ranking = Base::vote(&strings, &addresses);
    let best = Base::new(&strings, &addresses).map(|b| b.base());
    (ranking, best)
}

#[test]
fn two_supporting_pairs_elect_the_base() {
    // Identifiers at 0x100 and 0x180; pointer words base + 0x100 and
    // base + 0x180 for base = 0x9000, each stored twice so the frequency
    // filter keeps them.
    let mut buf = vec![0u8; 0x2000];
    write_text(&mut buf, 0x100, b"firmware_identifier0");
    write_text(&mut buf, 0x180, b"firmware_identifier1");
    write_word(&mut buf, 0x400, 0x9100);
    write_word(&mut buf, 0x408, 0x9100);
    write_word(&mut buf, 0x410, 0x9180);
    write_word(&mut buf, 0x418, 0x9180);
    let args = voter_args(10, 32);
    let (ranking, best) = run_pipeline(&args, &buf);
    assert_eq!(best, Some(0x9000));
    assert_eq!(ranking[0], (0x9000u64, 2usize));
}

#[test]
fn single_supporting_pair_is_filtered_out() {
    // One 20-byte identifier at 0x100 and the pointer word 0x9100 stored at
    // two aligned positions: the value survives the frequency filter but,
    // deduplicated, pairs with the single string only once, so the
    // candidate 0x9000 has support one and is dropped from the ranking.
    let mut buf = vec![0u8; 0x2000];
    write_text(&mut buf, 0x100, b"firmware_identifier0");
    write_word(&mut buf, 0x400, 0x9100);
    write_word(&mut buf, 0x408, 0x9100);
    let args = voter_args(10, 32);
    let (ranking, best) = run_pipeline(&args, &buf);
    assert!(ranking.is_empty());
    assert_eq!(best, None);
}

#[test]
fn strings_sharing_a_bucket_vote_for_one_base() {
    // Two strings whose offsets share the page-offset bucket 0x100, each
    // paired with an address in that bucket via the same base 0x9000.
    let mut buf = vec![0u8; 0x2000];
    write_text(&mut buf, 0x100, b"shared_bucket_str_a");
    write_text(&mut buf, 0x1100, b"shared_bucket_str_b");
    write_word(&mut buf, 0x400, 0x9100);
    write_word(&mut buf, 0x408, 0x9100);
    write_word(&mut buf, 0x410, 0xA100);
    write_word(&mut buf, 0x418, 0xA100);
    let args = voter_args(10, 32);
    let (ranking, best) = run_pipeline(&args, &buf);
    assert_eq!(best, Some(0x9000));
    assert_eq!(ranking[0], (0x9000u64, 2usize));
    // The cross pairs (0x100, 0xA100) and (0x1100, 0x9100 with a >= s)
    // propose candidates supported once each: both are absent.
    for entry in &ranking {
        assert!(entry.1 >= 2);
        assert_ne!(entry.0, 0xA000);
        assert_ne!(entry.0, 0x8000);
    }
}

#[test]
fn repeated_runs_yield_identical_results() {
    let mut buf = vec![0u8; 0x2000];
    write_text(&mut buf, 0x100, b"firmware_identifier0");
    write_text(&mut buf, 0x180, b"firmware_identifier1");
    write_word(&mut buf, 0x400, 0x9100);
    write_word(&mut buf, 0x408, 0x9100);
    write_word(&mut buf, 0x410, 0x9180);
    write_word(&mut buf, 0x418, 0x9180);
    let args = voter_args(10, 32);
    let (ranking1, best1) = run_pipeline(&args, &buf);
    let (ranking2, best2) = run_pipeline(&args, &buf);
    assert_eq!(ranking1, ranking2);
    assert_eq!(best1, best2);
}

#[test]
fn equal_support_breaks_ties_toward_lower_base() {
    let mut buf = vec![0u8; 0x2000];
    write_text(&mut buf, 0x100, b"firmware_identifier0");
    write_text(&mut buf, 0x180, b"firmware_identifier1");
    // Base 0x9000 and base 0x8000, each supported by two pairs.
    write_word(&mut buf, 0x400, 0x9100);
    write_word(&mut buf, 0x408, 0x9100);
    write_word(&mut buf, 0x410, 0x9180);
    write_word(&mut buf, 0x418, 0x9180);
    write_word(&mut buf, 0x420, 0x8100);
    write_word(&mut buf, 0x428, 0x8100);
    write_word(&mut buf, 0x430, 0x8180);
    write_word(&mut buf, 0x438, 0x8180);
    let args = voter_args(10, 32);
    let (ranking, best) = run_pipeline(&args, &buf);
    assert_eq!(best, Some(0x8000));
    assert_eq!(ranking[0], (0x8000u64, 2usize));
    assert_eq!(ranking[1], (0x9000u64, 2usize));
}

#[test]
fn higher_support_ranks_first() {
    let mut buf = vec![0u8; 0x2000];
    write_text(&mut buf, 0x100, b"firmware_identifier0");
    write_text(&mut buf, 0x180, b"firmware_identifier1");
    write_text(&mut buf, 0x200, b"firmware_identifier2");
    // Base 0xB000 supported by three pairs, base 0xA000 by two.
    write_word(&mut buf, 0x400, 0xB100);
    write_word(&mut buf, 0x408, 0xB100);
    write_word(&mut buf, 0x410, 0xB180);
    write_word(&mut buf, 0x418, 0xB180);
    write_word(&mut buf, 0x420, 0xB200);
    write_word(&mut buf, 0x428, 0xB200);
    write_word(&mut buf, 0x430, 0xA100);
    write_word(&mut buf, 0x438, 0xA100);
    write_word(&mut buf, 0x440, 0xA180);
    write_word(&mut buf, 0x448, 0xA180);
    let args = voter_args(10, 32);
    let (ranking, best) = run_pipeline(&args, &buf);
    assert_eq!(best, Some(0xB000));
    assert_eq!(ranking[0], (0xB000u64, 3usize));
    assert_eq!(ranking[1], (0xA000u64, 2usize));
}

#[test]
fn address_below_string_offset_casts_no_vote() {
    let mut buf = vec![0u8; 0x2000];
    write_text(&mut buf, 0x1100, b"late_string_in_image");
    // Same bucket as the string offset, but numerically below it.
    write_word(&mut buf, 0x400, 0x100);
    write_word(&mut buf, 0x408, 0x100);
    let args = voter_args(10, 32);
    let (ranking, best) = run_pipeline(&args, &buf);
    assert!(ranking.is_empty());
    assert_eq!(best, None);
}

#[test]
fn filter_drops_singly_supported_candidates() {
    let bases = vec![(1u64, 1usize), (2, 2), (3, 5), (4, 1)];
    let filtered = Base::filter_base_addresses(bases);
    assert_eq!(filtered, vec![(2u64, 2usize), (3u64, 5usize)]);
}

#[test]
fn ordering_sorts_by_support_then_value() {
    let collated = vec![(5u64, 2usize), (3, 7), (9, 2)];
    let sorted = Base::get_ordered_base_addresses(collated);
    assert_eq!(sorted, vec![(3u64, 7usize), (5u64, 2usize), (9u64, 2usize)]);
}

#[test]
fn empty_buffer_finds_no_base() {
    let buf: Vec<u8> = Vec::new();
    let args = voter_args(10, 32);
    let (ranking, best) = run_pipeline(&args, &buf);
    assert!(ranking.is_empty());
    assert_eq!(best, None);
}

#[test]
fn buffer_shorter_than_min_len_finds_no_base() {
    let buf = vec![0x41u8; 6];
    let args = voter_args(10, 32);
    let (ranking, best) = run_pipeline(&args, &buf);
    assert!(ranking.is_empty());
    assert_eq!(best, None);
}

#[test]
fn min_above_max_is_a_configuration_error() {
    let args = voter_args(33, 32);
    assert_eq!(args.validate(), Err(ConfigError::MinExceedsMax));
    let fine = voter_args(10, 32);
    assert_eq!(fine.validate(), Ok(()));
}

#[test]
fn size_and_endian_resolve_with_defaults() {
    let mut args = voter_args(10, 32);
    args.is_64bit = false;
    args.is_big_endian = true;
    args.is_little_endian = false;
    assert_eq!(args.size(), Size::Bits32);
    assert_eq!(args.endian(), Endian::Big);
    let args2 = voter_args(10, 32);
    assert_eq!(args2.size(), Size::Bits64);
    assert_eq!(args2.endian(), Endian::Little);
}

#[test]
fn page_key_is_the_low_twelve_bits() {
    assert_eq!(page_key(0x9100), 0x100);
    assert_eq!(page_key(0x100), 0x100);
    assert_eq!(page_key(0xFFF), 0xFFF);
    assert_eq!(page_key(0x1000), 0);
    assert_eq!(page_key(0), 0);
}
