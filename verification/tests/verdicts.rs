use pathdns::clock::now_unix;
use pathdns::config::VerdictCacheConfig;
use pathdns::persist::{read_and_check_header, read_le16, read_le32, read_le64, write_header, PersistError};
use pathdns::verdict_cache::{
    decode_verdicts, encode_verdicts, persist_path_for, SavedVerdict, VerdictCache, PERSIST_MAGIC,
};

fn make_cache(ttl_secs: u64) -> VerdictCache {
    VerdictCache::new(Some(&VerdictCacheConfig { capacity: 1000, ttl_secs }))
}

const NOW: u64 = 1_700_000_000;

#[test]
fn save_load_roundtrip() {
    let mut a = make_cache(3600);
    a.add_at("primary.example.com", true, NOW);
    a.add_at("secondary.example.com", false, NOW);
    let (bytes, saved) = a.save_at(42, NOW).unwrap();
    assert_eq!(saved, 2);

    let mut b = make_cache(3600);
    let loaded = b.load_at(&bytes, 42, NOW).unwrap();
    assert_eq!(loaded, 2);
    assert_eq!(b.get_at("primary.example.com", NOW), Some(true));
    assert_eq!(b.get_at("secondary.example.com", NOW), Some(false));
    assert_eq!(b.get_at("unknown.example.com", NOW), None);
}

#[test]
fn fingerprint_mismatch_rejected() {
    let mut a = make_cache(3600);
    a.add_at("example.com", true, NOW);
    let (bytes, _) = a.save_at(1, NOW).unwrap();

    let mut b = make_cache(3600);
    assert!(b.load_at(&bytes, 2, NOW).is_err());
    assert_eq!(b.get_at("example.com", NOW), None);
}

#[test]
fn expired_entries_skipped_on_load() {
    let mut a = make_cache(1);
    a.add_at("example.com", true, NOW);
    let (bytes, _) = a.save_at(7, NOW).unwrap();

    let later = NOW + 2;
    let mut b = make_cache(1);
    let loaded = b.load_at(&bytes, 7, later).unwrap();
    assert_eq!(loaded, 0);
    assert_eq!(b.get_at("example.com", later), None);
}

#[test]
fn zero_ttl_never_expires() {
    let mut a = make_cache(0);
    a.add("example.com", false);
    let (bytes, _) = a.save_at(9, NOW).unwrap();

    let mut b = make_cache(0);
    let loaded = b.load_at(&bytes, 9, NOW).unwrap();
    assert_eq!(loaded, 1);
    assert_eq!(b.get("example.com"), Some(false));
    assert_eq!(b.get_at("example.com", u64::MAX), Some(false));
}

#[test]
fn invalidate_all_removes_cached_verdicts() {
    let mut cache = make_cache(0);
    cache.add("example.com", true);
    assert_eq!(cache.get("example.com"), Some(true));

    cache.invalidate_all();

    assert_eq!(cache.get("example.com"), None);
}

#[test]
fn disabled_cache_saves_nothing() {
    let c = VerdictCache::new(None);
    assert!(!c.enabled());
    assert!(c.save_at(0, NOW).is_none());
}

#[test]
fn verdict_lives_as_long_as_its_time_to_live() {
    let mut c = make_cache(60);
    assert!(c.enabled());
    c.add_at("example.com", true, NOW);
    assert_eq!(c.get_at("example.com", NOW + 59), Some(true));
    assert_eq!(c.get_at("example.com", NOW + 61), None);
    assert_eq!(c.alive_at(NOW + 61).len(), 0);
    assert_eq!(c.alive_at(NOW).len(), 1);
}

#[test]
fn a_later_verdict_replaces_an_earlier_one() {
    let mut c = make_cache(0);
    c.add_at("example.com", true, NOW);
    c.add_at("example.com", false, NOW + 1);
    assert_eq!(c.get_at("example.com", NOW + 1), Some(false));
    assert_eq!(c.alive_at(NOW + 1).len(), 1);
}

#[test]
fn saved_bytes_have_a_fixed_layout() {
    let entries = vec![SavedVerdict {
        inserted_unix: 0x0102_0304,
        is_primary: true,
        qname: b"a.b".to_vec(),
    }];
    let bytes = encode_verdicts(&entries, 0xaabb);
    assert_eq!(&bytes[..8], &PERSIST_MAGIC[..]);
    assert_eq!(read_le64(&bytes, 8), 0xaabb);
    assert_eq!(read_le32(&bytes, 16), 1);
    assert_eq!(read_le64(&bytes, 20), 0x0102_0304);
    assert_eq!(bytes[28], 1);
    assert_eq!(read_le16(&bytes, 29), 3);
    assert_eq!(&bytes[31..], b"a.b");
    match decode_verdicts(&bytes, 0xaabb) {
        Ok((list, complete)) => {
            assert!(complete);
            assert_eq!(list.len(), 1);
            assert_eq!(list[0].qname, b"a.b".to_vec());
            assert_eq!(list[0].inserted_unix, 0x0102_0304);
            assert!(list[0].is_primary);
        }
        Err(_) => panic!("must decode"),
    }
}

#[test]
fn header_errors() {
    let mut out = Vec::new();
    write_header(&mut out, &PERSIST_MAGIC, 5, 3);
    assert_eq!(out.len(), 20);
    assert_eq!(read_and_check_header(&out, &PERSIST_MAGIC, 5), Ok(3));
    assert_eq!(
        read_and_check_header(&out[..19], &PERSIST_MAGIC, 5),
        Err(PersistError::Truncated)
    );
    assert_eq!(
        read_and_check_header(&out, b"PDNSV002", 5),
        Err(PersistError::OtherFormat)
    );
    assert_eq!(
        read_and_check_header(&out, &PERSIST_MAGIC, 6),
        Err(PersistError::OtherConfig)
    );
}

#[test]
fn verdict_file_stands_beside_the_cache_file() {
    assert_eq!(
        persist_path_for(b"/var/lib/pathdns/cache.bin"),
        b"/var/lib/pathdns/cache.bin.verdict".to_vec()
    );
}

#[test]
fn a_restored_cache_gives_no_other_answers() {
    let config = VerdictCacheConfig { capacity: 64, ttl_secs: 100 };
    let mut a = VerdictCache::new(Some(&config));
    for n in 0..64u64 {
        a.add_at(&format!("n{n}.test"), n % 2 == 0, NOW + n);
    }
    let (bytes, saved) = a.save_at(7, NOW + 64).unwrap();
    let mut b = VerdictCache::new(Some(&config));
    let later = NOW + 120;
    let loaded = b.load_at(&bytes, 7, later).unwrap();
    assert!(loaded <= saved);
    for n in 0..64u64 {
        let name = format!("n{n}.test");
        let answer = b.get_at(&name, later);
        assert!(answer.is_none() || answer == a.get_at(&name, later));
        if n <= 20 {
            assert_eq!(answer, None);
        }
    }
}

#[test]
fn verdicts_are_dated_by_the_clock() {
    let mut a = make_cache(3600);
    let before = now_unix();
    a.add("example.com", true);
    let after = now_unix();
    assert_eq!(a.get("example.com"), Some(true));
    assert_eq!(a.get_at("example.com", before + 3599), Some(true));
    assert_eq!(a.get_at("example.com", after + 3600), None);
}
