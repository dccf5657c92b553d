use termfreq::boundary::{save_path_is_valid, save_result_from, TermFreqStore};
use termfreq::encoding::check_utf8;
use termfreq::store::TermFrequencyMap;

#[test]
fn insert_then_lookup_returns_value() {
    let mut store = TermFreqStore::new();
    let h = store.create_term_freqs();
    let key = b"network".to_vec();
    store.insert_term_freqs(Some(h), Some(&key), 42u64);
    assert_eq!(store.get_term_freqs(Some(h), Some(&key)), Some(42u64));
    // A second insert for the same key overwrites: lookups see the new
    // value and never the old one.
    store.insert_term_freqs(Some(h), Some(&key), 7u64);
    assert_eq!(store.get_term_freqs(Some(h), Some(&key)), Some(7u64));
}

#[test]
fn float_payload_round_trips_through_bits() {
    let mut store = TermFreqStore::new();
    let h = store.create_term_freqs();
    let key = b"term".to_vec();
    let freq = 0.125f64;
    store.insert_term_freqs(Some(h), Some(&key), freq.to_bits());
    let got = store.get_term_freqs(Some(h), Some(&key)).unwrap();
    assert_eq!(f64::from_bits(got), 0.125f64);
}

#[test]
fn fresh_handle_lookup_is_absent() {
    let mut store = TermFreqStore::new();
    let h = store.create_term_freqs();
    let key = b"anything".to_vec();
    assert_eq!(store.get_term_freqs(Some(h), Some(&key)), None);
}

#[test]
fn null_handle_and_key_are_no_ops() {
    let mut store = TermFreqStore::new();
    let h = store.create_term_freqs();
    let key = b"k".to_vec();
    // Absent handle: insert is a no-op, lookup is absent.
    store.insert_term_freqs(None, Some(&key), 1u64);
    assert_eq!(store.get_term_freqs(None, Some(&key)), None);
    // Absent key: insert is a no-op, lookup is absent.
    store.insert_term_freqs(Some(h), None, 1u64);
    assert_eq!(store.get_term_freqs(Some(h), None), None);
    // Nothing was written by any of the calls above.
    assert_eq!(store.get_term_freqs(Some(h), Some(&key)), None);
}

#[test]
fn stale_handle_is_a_no_op() {
    let mut store = TermFreqStore::new();
    let h = store.create_term_freqs();
    let key = b"k".to_vec();
    store.insert_term_freqs(Some(h + 1), Some(&key), 9u64);
    assert_eq!(store.get_term_freqs(Some(h + 1), Some(&key)), None);
    assert_eq!(store.get_term_freqs(Some(h), Some(&key)), None);
}

#[test]
fn invalid_utf8_key_is_rejected() {
    let mut store = TermFreqStore::new();
    let h = store.create_term_freqs();
    let bad = vec![0xffu8, 0xfe];
    store.insert_term_freqs(Some(h), Some(&bad), 3u64);
    assert_eq!(store.get_term_freqs(Some(h), Some(&bad)), None);
    // The rejected write really discarded the data: a valid key is still
    // absent and the map still accepts ordinary writes.
    let good = b"good".to_vec();
    store.insert_term_freqs(Some(h), Some(&good), 4u64);
    assert_eq!(store.get_term_freqs(Some(h), Some(&good)), Some(4u64));
}

#[test]
fn distinct_handles_are_independent() {
    let mut store = TermFreqStore::new();
    let h1 = store.create_term_freqs();
    let h2 = store.create_term_freqs();
    let key = b"shared".to_vec();
    store.insert_term_freqs(Some(h1), Some(&key), 1u64);
    store.insert_term_freqs(Some(h2), Some(&key), 2u64);
    assert_eq!(store.get_term_freqs(Some(h1), Some(&key)), Some(1u64));
    assert_eq!(store.get_term_freqs(Some(h2), Some(&key)), Some(2u64));
}

#[test]
fn destroy_removes_the_map() {
    let mut store = TermFreqStore::new();
    let h = store.create_term_freqs();
    let key = b"k".to_vec();
    store.insert_term_freqs(Some(h), Some(&key), 5u64);
    store.destroy_term_freqs(Some(h));
    assert_eq!(store.get_term_freqs(Some(h), Some(&key)), None);
    // Destroying an unknown handle, or no handle, changes nothing.
    store.destroy_term_freqs(Some(17));
    store.destroy_term_freqs(None);
}

#[test]
fn direct_map_insert_and_lookup() {
    let mut m = TermFrequencyMap::new();
    m.insert(b"alpha".to_vec(), 10);
    m.insert(b"beta".to_vec(), 20);
    m.insert(b"alpha".to_vec(), 30);
    assert_eq!(m.lookup(&b"alpha".to_vec()), Some(30));
    assert_eq!(m.lookup(&b"beta".to_vec()), Some(20));
    assert_eq!(m.lookup(&b"gamma".to_vec()), None);
}

#[test]
fn utf8_checker_agrees_with_std() {
    let cases: Vec<Vec<u8>> = vec![
        b"".to_vec(),
        b"plain ascii".to_vec(),
        "héllo wörld".as_bytes().to_vec(),
        "日本語".as_bytes().to_vec(),
        "𝄞 clef".as_bytes().to_vec(),
        vec![0x80],                   // stray continuation byte
        vec![0xc0, 0xaf],             // overlong two-byte encoding
        vec![0xc2],                   // truncated two-byte encoding
        vec![0xe0, 0x80, 0x80],      // overlong three-byte encoding
        vec![0xed, 0xa0, 0x80],      // surrogate
        vec![0xf0, 0x90, 0x80, 0x80], // smallest four-byte scalar
        vec![0xf4, 0x90, 0x80, 0x80], // beyond the last scalar
        vec![0xf8, 0x88, 0x80, 0x80, 0x80], // five-byte lead byte
        vec![0x41, 0xc3, 0xa9, 0x42], // mixed ascii and two-byte
    ];
    for bytes in cases {
        assert_eq!(
            check_utf8(&bytes),
            std::str::from_utf8(&bytes).is_ok(),
            "disagreement on {:?}",
            bytes
        );
    }
}

#[test]
fn save_result_reflects_outcome() {
    assert!(!save_result_from(true).error);
    assert!(save_result_from(false).error);
}

#[test]
fn save_path_checks_presence_and_encoding() {
    let good = b"/tmp/out.json".to_vec();
    let bad = vec![0x2fu8, 0xff];
    assert!(save_path_is_valid(Some(&good)));
    assert!(!save_path_is_valid(Some(&bad)));
    assert!(!save_path_is_valid(None));
}
