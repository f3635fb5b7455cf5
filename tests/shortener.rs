use url_shortener::code::{hex_encode, shorten_url};
use url_shortener::metrics::{domain, top_domains};
use url_shortener::persist::{decode_entries, encode_entries, parse_decimal};
use url_shortener::store::{Entry, Store, StoreError};

fn entry(url: &str, code: &str, hits: u64) -> Entry {
    Entry { original_url: url.to_string(), short_code: code.to_string(), hit_count: hits }
}

fn is_lower_hex(s: &str) -> bool {
    s.chars().all(|c| c.is_ascii_digit() || ('a'..='f').contains(&c))
}

#[test]
fn test_shorten_and_retrieve_url() {
    let mut store = Store::new();
    let (code, count) = store.upsert_or_increment("https://coderprog.com").unwrap();
    assert_eq!(count, 1);
    let found = store.get(&code).unwrap();
    assert_eq!(found.original_url, "https://coderprog.com");
}

#[test]
fn code_is_first_six_digest_bytes_in_hex() {
    // SHA3-256 of the empty string and of "abc", first six bytes.
    assert_eq!(shorten_url(""), "a7ffc6f8bf1e");
    assert_eq!(shorten_url("abc"), "3a985da74fe2");
}

#[test]
fn code_is_deterministic() {
    let a = shorten_url("https://coderprog.com");
    let b = shorten_url("https://coderprog.com");
    assert_eq!(a, b);
    assert_eq!(a.len(), 12);
    assert!(is_lower_hex(&a));
    assert_ne!(a, shorten_url("https://coderprog.com/"));
}

#[test]
fn hex_encoding_has_two_digits_per_byte() {
    assert_eq!(hex_encode(&[0x00, 0xab, 0xff, 0x10]), "00abff10");
    assert_eq!(hex_encode(&[]), "");
}

#[test]
fn shortening_twice_counts_twice() {
    let mut store = Store::new();
    let (c1, n1) = store.upsert_or_increment("https://coderprog.com").unwrap();
    assert_eq!(c1.len(), 12);
    assert!(is_lower_hex(&c1));
    assert_eq!(n1, 1);
    let (c2, n2) = store.upsert_or_increment("https://coderprog.com").unwrap();
    assert_eq!(c1, c2);
    assert_eq!(n2, 2);
    assert_eq!(store.len(), 1);
}

#[test]
fn repeated_hits_add_up() {
    let mut store = Store::new();
    for _ in 0..25 {
        store.upsert_or_increment("https://a.com").unwrap();
    }
    let code = shorten_url("https://a.com");
    assert_eq!(store.get(&code).unwrap().hit_count, 25);
}

#[test]
fn redirect_after_shortening() {
    let mut store = Store::new();
    store.upsert_or_increment("https://coderprog.com").unwrap();
    store.upsert_or_increment("https://coderprog.com").unwrap();
    let code = shorten_url("https://coderprog.com");
    let e = store.lookup_and_increment(&code).unwrap();
    assert_eq!(e.original_url, "https://coderprog.com");
    assert_eq!(e.short_code, code);
    assert_eq!(e.hit_count, 3);
    assert_eq!(store.get(&code).unwrap().hit_count, 3);
}

#[test]
fn redirect_miss_leaves_store_unchanged() {
    let mut store = Store::new();
    store.upsert_or_increment("https://a.com/x").unwrap();
    let before = encode_entries(&store.snapshot());
    assert_eq!(store.lookup_and_increment("doesnotexist").unwrap_err(), StoreError::NotFound);
    assert_eq!(encode_entries(&store.snapshot()), before);
    assert!(store.get("doesnotexist").is_none());
}

#[test]
fn full_counter_is_reported() {
    let mut store = Store::new();
    let code = shorten_url("https://a.com/x");
    store.replace_all(vec![entry("https://a.com/x", &code, u64::MAX)]);
    assert!(store.is_full(&code));
    assert_eq!(store.lookup_and_increment(&code).unwrap_err(), StoreError::CounterFull);
    assert_eq!(store.upsert_or_increment("https://a.com/x").unwrap_err(), StoreError::CounterFull);
    assert_eq!(store.get(&code).unwrap().hit_count, u64::MAX);
}

#[test]
fn upsert_code_takes_the_latest_url() {
    let mut store = Store::new();
    assert_eq!(store.upsert_code("k".to_string(), "https://one.com".to_string()), 1);
    assert_eq!(store.upsert_code("k".to_string(), "https://two.com".to_string()), 2);
    let e = store.get("k").unwrap();
    assert_eq!(e.original_url, "https://two.com");
    assert_eq!(e.hit_count, 2);
}

#[test]
fn replace_all_keeps_the_last_of_equal_codes() {
    let mut store = Store::new();
    store.upsert_or_increment("https://old.com/").unwrap();
    store.replace_all(vec![entry("https://a.com", "k1", 4), entry("https://b.com", "k2", 1), entry("https://c.com", "k1", 9)]);
    assert_eq!(store.len(), 2);
    let e = store.get("k1").unwrap();
    assert_eq!(e.original_url, "https://c.com");
    assert_eq!(e.hit_count, 9);
    let snap = store.snapshot();
    assert_eq!(snap[0].short_code, "k1");
    assert_eq!(snap[1].short_code, "k2");
}

#[test]
fn metrics_rank_domains() {
    let mut store = Store::new();
    store.upsert_or_increment("https://a.com/x").unwrap();
    store.upsert_or_increment("https://a.com/x").unwrap();
    store.upsert_or_increment("https://b.com/y").unwrap();
    let top = top_domains(&store.snapshot(), 3);
    assert_eq!(top.len(), 2);
    assert_eq!(top[0].domain, "a.com");
    assert_eq!(top[0].count, 2);
    assert_eq!(top[1].domain, "b.com");
    assert_eq!(top[1].count, 1);
}

#[test]
fn metrics_sum_per_domain_and_keep_first_seen_order_on_ties() {
    let entries = vec![
        entry("https://x.org/1", "c1", 2),
        entry("https://y.org/1", "c2", 5),
        entry("https://x.org/2", "c3", 3),
        entry("no-scheme/1", "c4", 100),
        entry("https://z.org", "c5", 100),
        entry("http://w.org/", "c6", 1),
        entry("ftp://v.org/a", "c7", 1),
    ];
    let top = top_domains(&entries, 3);
    let got: Vec<(String, u128)> = top.iter().map(|d| (d.domain.clone(), d.count)).collect();
    assert_eq!(got, vec![("x.org".to_string(), 5), ("y.org".to_string(), 5), ("w.org".to_string(), 1)]);
    assert_eq!(top_domains(&entries, 10).len(), 4);
    assert!(top_domains(&entries, 0).is_empty());
    assert!(top_domains(&Vec::new(), 3).is_empty());
}

#[test]
fn metrics_totals_exceed_one_counter() {
    let entries = vec![entry("https://a.com/1", "c1", u64::MAX), entry("https://a.com/2", "c2", u64::MAX)];
    let top = top_domains(&entries, 3);
    assert_eq!(top[0].count, 2 * (u64::MAX as u128));
}

#[test]
fn domain_lies_between_scheme_and_slash() {
    assert_eq!(domain("https://a.com/x").unwrap(), "a.com");
    assert_eq!(domain("https://a.com:8080/x/y").unwrap(), "a.com:8080");
    assert_eq!(domain("a://b://c/d").unwrap(), "b:");
    assert!(domain("https://a.com").is_none());
    assert!(domain("a.com/x").is_none());
    assert!(domain("").is_none());
}

#[test]
fn entries_encode_one_line_each() {
    let text = encode_entries(&vec![entry("https://a.com/x", "0123456789ab", 2), entry("u", "", 0)]);
    assert_eq!(text, "https://a.com/x:0123456789ab:2\nu::0\n");
    assert_eq!(encode_entries(&Vec::new()), "");
}

#[test]
fn decoding_skips_malformed_lines() {
    let text = "https://a.com/x:abc:7\nno colons here\nhttps://b.com:def:notanumber\nonly:12\n\nhttps://c.com/:fff:18446744073709551616\nhttps://d.com/:eee:0042";
    let es = decode_entries(text);
    assert_eq!(es.len(), 2);
    assert_eq!(es[0].original_url, "https://a.com/x");
    assert_eq!(es[0].short_code, "abc");
    assert_eq!(es[0].hit_count, 7);
    assert_eq!(es[1].original_url, "https://d.com/");
    assert_eq!(es[1].short_code, "eee");
    assert_eq!(es[1].hit_count, 42);
    assert!(decode_entries("").is_empty());
}

#[test]
fn save_then_load_reproduces_the_store() {
    let mut store = Store::new();
    store.upsert_or_increment("https://a.com/x").unwrap();
    store.upsert_or_increment("https://b.com/y").unwrap();
    store.upsert_or_increment("https://a.com/x").unwrap();
    let text = encode_entries(&store.snapshot());
    let mut loaded = Store::new();
    loaded.replace_all(decode_entries(&text));
    assert_eq!(encode_entries(&loaded.snapshot()), text);
    let code = shorten_url("https://a.com/x");
    assert_eq!(loaded.get(&code).unwrap().hit_count, 2);
    assert_eq!(loaded.len(), 2);
}

#[test]
fn decimal_parsing_bounds() {
    let digits = |s: &str| s.chars().collect::<Vec<char>>();
    assert_eq!(parse_decimal(&digits("18446744073709551615")), Some(u64::MAX));
    assert_eq!(parse_decimal(&digits("18446744073709551616")), None);
    assert_eq!(parse_decimal(&digits("0")), Some(0));
    assert_eq!(parse_decimal(&digits("")), None);
    assert_eq!(parse_decimal(&digits("+1")), None);
}
