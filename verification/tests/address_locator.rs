use rbase::addresses::read_word;
use rbase::addresses::Addresses;
use rbase::config::Endian;
use rbase::config::Size;

fn put_le64(buf: &mut [u8], pos: usize, v: u64) {
    buf[pos..pos + 8].copy_from_slice(&v.to_le_bytes());
}

fn put_be64(buf: &mut [u8], pos: usize, v: u64) {
    buf[pos..pos + 8].copy_from_slice(&v.to_be_bytes());
}

fn put_le32(buf: &mut [u8], pos: usize, v: u32) {
    buf[pos..pos + 4].copy_from_slice(&v.to_le_bytes());
}

#[test]
fn decodes_words_in_both_orders_and_widths() {
    let bytes: [u8; 8] = [0x01, 0x02, 0x03, 0x04, 0x05, 0x06, 0x07, 0x08];
    assert_eq!(
        read_word(&bytes, 0, Size::Bits64, Endian::Little),
        0x0807060504030201
    );
    assert_eq!(
        read_word(&bytes, 0, Size::Bits64, Endian::Big),
        0x0102030405060708
    );
    assert_eq!(read_word(&bytes, 0, Size::Bits32, Endian::Little), 0x04030201);
    assert_eq!(read_word(&bytes, 0, Size::Bits32, Endian::Big), 0x01020304);
    assert_eq!(read_word(&bytes, 4, Size::Bits32, Endian::Little), 0x08070605);
}

#[test]
fn read_addresses_drops_zero_words_and_keeps_order() {
    let mut buf = vec![0u8; 40];
    put_le64(&mut buf, 8, 5);
    put_le64(&mut buf, 24, 7);
    put_le64(&mut buf, 32, 5);
    let values = Addresses::read_addresses(&buf, Size::Bits64, Endian::Little);
    assert_eq!(values, vec![5u64, 7u64, 5u64]);
}

#[test]
fn trailing_partial_word_is_ignored() {
    let mut buf = vec![0u8; 12];
    put_le64(&mut buf, 0, 9);
    buf[8] = 0xFF;
    let values = Addresses::read_addresses(&buf, Size::Bits64, Endian::Little);
    assert_eq!(values, vec![9u64]);
}

#[test]
fn frequencies_count_each_value() {
    let values = vec![5u64, 7, 5];
    let freqs = Addresses::get_address_frequencies(&values);
    assert_eq!(freqs, vec![(5u64, 2usize), (7u64, 1usize)]);
}

#[test]
fn collated_frequencies_add_counts() {
    let first = vec![(5u64, 2usize), (7u64, 1usize)];
    let second = vec![(7u64, 3usize), (9u64, 1usize)];
    let merged = Addresses::collate_frequencies(first, &second);
    let mut lookup = |key: u64| -> usize {
        merged
            .iter()
            .find(|e| e.0 == key)
            .map(|e| e.1)
            .unwrap_or(0)
    };
    assert_eq!(lookup(5), 2);
    assert_eq!(lookup(7), 4);
    assert_eq!(lookup(9), 1);
}

#[test]
fn recurring_keys_survive_the_frequency_filter() {
    let freqs = vec![(5u64, 2usize), (7u64, 1usize), (9u64, 3usize)];
    let unique = Addresses::get_unique_addresses(&freqs);
    assert_eq!(unique, vec![5u64, 9u64]);
}

#[test]
fn single_occurrence_word_never_enters_the_index() {
    let mut buf = vec![0u8; 64];
    put_le64(&mut buf, 0, 0x1111);
    put_le64(&mut buf, 16, 0x1111);
    put_le64(&mut buf, 32, 0x2222);
    let addresses = Addresses::new(&buf, Size::Bits64, Endian::Little, 1_000_000);
    assert_eq!(addresses.values(), &vec![0x1111u64]);
    for bucket in addresses.get_addresses() {
        assert!(!bucket.contains(&0x2222u64));
    }
}

#[test]
fn all_zero_buffer_yields_no_addresses() {
    let buf = vec![0u8; 64];
    let addresses = Addresses::new(&buf, Size::Bits64, Endian::Little, 1_000_000);
    assert!(addresses.values().is_empty());
}

#[test]
fn sampling_cap_limits_retained_addresses() {
    let mut buf = vec![0u8; 96];
    for (slot, v) in [(0usize, 0xAAu64), (1, 0xAA), (2, 0xBB), (3, 0xBB), (4, 0xCC), (5, 0xCC)] {
        put_le64(&mut buf, slot * 8, v);
    }
    let addresses = Addresses::new(&buf, Size::Bits64, Endian::Little, 2);
    assert_eq!(addresses.values(), &vec![0xAAu64, 0xBBu64]);
}

#[test]
fn buffer_shorter_than_one_word_yields_empty_index() {
    let buf = vec![0xFFu8; 7];
    let addresses = Addresses::new(&buf, Size::Bits64, Endian::Little, 1_000_000);
    assert!(addresses.values().is_empty());
}

#[test]
fn thirty_two_bit_words_decode_independently() {
    let mut buf = vec![0u8; 24];
    put_le32(&mut buf, 0, 0x9100);
    put_le32(&mut buf, 8, 0x9100);
    put_le32(&mut buf, 16, 0x7777);
    let addresses = Addresses::new(&buf, Size::Bits32, Endian::Little, 1_000_000);
    assert_eq!(addresses.values(), &vec![0x9100u64]);
}

#[test]
fn big_endian_words_decode_through_the_index() {
    let mut buf = vec![0u8; 32];
    put_be64(&mut buf, 0, 0x4242);
    put_be64(&mut buf, 8, 0x4242);
    let addresses = Addresses::new(&buf, Size::Bits64, Endian::Big, 1_000_000);
    assert_eq!(addresses.values(), &vec![0x4242u64]);
}
