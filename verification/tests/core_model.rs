use std::io;

use novadb::error::{NovaError, Result};
use novadb::nova_id::{millis_from_reading, NovaId, NOVA_ID_LENGTH, NOVA_ID_PREFIX};
use std::str::FromStr;
use novadb::nova_timestamp::NovaTimestamp;
use novadb::version::{FORMAT_VERSION, MAGIC};

const MS_PER_DAY: i64 = 86_400_000;

#[test]
fn io_error_converts_into_nova_error() {
    let io_err = io::Error::new(io::ErrorKind::NotFound, "file missing");
    let err: NovaError = io_err.into();
    assert!(matches!(err, NovaError::Io(_)));
}

#[test]
fn corruption_flag_is_detected() {
    assert!(NovaError::Corruption("bad checksum".into()).is_corruption());
    assert!(!NovaError::Timeout.is_corruption());
}

#[test]
fn structured_errors_display_clearly() {
    let err = NovaError::NotFound("collection 'students'".into());
    assert_eq!(err.to_string(), "not found: collection 'students'");
}

#[test]
fn result_type_is_usable_across_variants() {
    fn lookup(key: &str) -> Result<u64> {
        if key == "known" {
            Ok(42)
        } else {
            Err(NovaError::NotFound(key.to_owned()))
        }
    }
    assert_eq!(lookup("known").unwrap(), 42);
    assert!(lookup("unknown").is_err());
}

#[test]
fn magic_is_four_ascii_bytes() {
    assert_eq!(&MAGIC, b"NOVA");
}

#[test]
fn version_matches_registry() {
    assert_eq!(FORMAT_VERSION, 1);
}

#[test]
fn new_is_pure_and_deterministic() {
    let a = NovaId::new(1_700_000_000_000, [7u8; 8]);
    let b = NovaId::new(1_700_000_000_000, [7u8; 8]);
    assert_eq!(a, b);
    assert_eq!(a.timestamp_ms(), 1_700_000_000_000);
    assert_eq!(a.random_half(), [7u8; 8]);
}

#[test]
fn byte_order_matches_creation_time() {
    let early = NovaId::new(1_000, [0xff; 8]);
    let late = NovaId::new(1_001, [0x00; 8]);
    assert!(early < late);
    assert!(late > early);

    let low = NovaId::new(5, [0x00; 8]);
    let high = NovaId::new(5, [0xff; 8]);
    assert!(low < high);
}

#[test]
fn uppercase_hex_is_accepted() {
    let id = NovaId::new(42, [0xab; 8]);
    assert_eq!(id.to_hex().to_uppercase().parse::<NovaId>().unwrap(), id);
}

#[test]
fn from_bytes_rejects_bad_lengths() {
    for len in [0usize, 1, 8, 15, 17, 32] {
        let bytes = vec![0u8; len];
        assert!(
            NovaId::from_bytes(&bytes).is_err(),
            "length {len} should be rejected"
        );
    }
}

#[test]
fn from_str_rejects_malformed_input() {
    let bad = [
        "",
        "nova_",
        "zz",
        "0",
        "00",
        "nova_0",
        "xyz123",
        "g",
        "0123456789abcdef0123456789abcdef0",
        "nova_0123456789abcdef0123456789abcde",
    ];
    for s in bad {
        assert!(s.parse::<NovaId>().is_err(), "{s:?} should be rejected");
    }
}

#[test]
fn bytes_round_trip() {
    let id = NovaId::generate().unwrap();
    assert_eq!(NovaId::from_bytes(id.as_bytes()).unwrap(), id);
    assert_eq!(NovaId::from_bytes(&id.to_bytes()).unwrap(), id);
    let mut flipped = id.to_bytes();
    flipped[0] ^= 0x01;
    assert_ne!(NovaId::from_bytes(&flipped).unwrap(), id);
}

#[test]
fn hex_round_trip_with_and_without_prefix() {
    let id = NovaId::generate().unwrap();
    let prefixed = id.to_string();
    let bare = id.to_hex();
    assert_eq!(prefixed.parse::<NovaId>().unwrap(), id);
    assert_eq!(bare.parse::<NovaId>().unwrap(), id);
    assert_eq!(prefixed.parse::<NovaId>().unwrap().to_hex(), bare);
}

#[test]
fn generated_id_has_correct_shape() {
    let id = NovaId::generate().unwrap();
    assert_eq!(id.as_bytes().len(), NOVA_ID_LENGTH);
    let s = id.to_string();
    assert!(s.starts_with(NOVA_ID_PREFIX));
    assert_eq!(s.len(), NOVA_ID_PREFIX.len() + NOVA_ID_LENGTH * 2);
    assert_eq!(id.to_hex().len(), NOVA_ID_LENGTH * 2);
}

#[test]
fn known_id_renders_exact_hex() {
    let id = NovaId::new(0x0102_0304_0506_0708, [0xa0, 0xb1, 0xc2, 0xd3, 0xe4, 0xf5, 0x06, 0x17]);
    assert_eq!(id.to_hex(), "0102030405060708a0b1c2d3e4f50617");
    assert_eq!(id.to_string(), "nova_0102030405060708a0b1c2d3e4f50617");
    assert_eq!(
        "NOVA_0102030405060708a0b1c2d3e4f50617".parse::<NovaId>().is_err(),
        true
    );
}

#[test]
fn ids_are_copy_and_comparable() {
    let a = NovaId::generate().unwrap();
    let b = a;
    assert_eq!(a, b);
    assert_eq!(a.cmp(&b), std::cmp::Ordering::Equal);
}

fn iso(millis: i64) -> String {
    NovaTimestamp::from_millis(millis).to_iso8601()
}

#[test]
fn known_instants_format_exactly() {
    assert_eq!(iso(0), "1970-01-01T00:00:00.000Z");
    assert_eq!(iso(MS_PER_DAY), "1970-01-02T00:00:00.000Z");
    assert_eq!(iso(946_684_800_000), "2000-01-01T00:00:00.000Z");
    assert_eq!(iso(1_104_537_600_000), "2005-01-01T00:00:00.000Z");
    assert_eq!(iso(1_700_000_000_000), "2023-11-14T22:13:20.000Z");
    assert_eq!(iso(1_700_000_000_123), "2023-11-14T22:13:20.123Z");
    assert_eq!(iso(1_700_000_059_999), "2023-11-14T22:14:19.999Z");
}

#[test]
fn pre_epoch_instants_format_exactly() {
    assert_eq!(iso(-1), "1969-12-31T23:59:59.999Z");
    assert_eq!(iso(-365 * MS_PER_DAY), "1969-01-01T00:00:00.000Z");
    assert_eq!(iso(-MS_PER_DAY), "1969-12-31T00:00:00.000Z");
}

#[test]
fn extreme_instants_format_without_panicking() {
    assert_eq!(iso(951_782_400_000), "2000-02-29T00:00:00.000Z");
    assert!(iso(i64::MIN).starts_with('-'));
    assert!(!iso(i64::MAX).is_empty());
}

#[test]
fn now_is_recent_and_sane() {
    let now = NovaTimestamp::now();
    let lower = NovaTimestamp::from_millis(now.millis() - MS_PER_DAY);
    let upper = NovaTimestamp::from_millis(now.millis() + MS_PER_DAY);
    assert!(
        now > lower && now < upper,
        "clock produced a wild timestamp"
    );
}

#[test]
fn ordering_follows_millis() {
    let a = NovaTimestamp::from_millis(1000);
    let b = NovaTimestamp::from_millis(2000);
    assert!(a < b);
    assert_eq!(a.min(b), a);
    assert_eq!(b.max(a), b);
}

#[test]
fn display_matches_iso8601() {
    let ts = NovaTimestamp::from_millis(1_700_000_000_123);
    assert_eq!(ts.to_string(), ts.to_iso8601());
}

#[test]
fn debug_prints_the_timestamp() {
    let ts = NovaTimestamp::from_millis(1_700_000_000_123);
    assert_eq!(ts.debug_string(), "NovaTimestamp(2023-11-14T22:13:20.123Z)");
}

#[test]
fn clock_readings_saturate_into_range() {
    assert_eq!(millis_from_reading(None), 0);
    assert_eq!(millis_from_reading(Some(1_700_000_000_123)), 1_700_000_000_123);
    assert_eq!(millis_from_reading(Some(u128::from(u64::MAX) + 1)), u64::MAX);
    assert_eq!(NovaTimestamp::from_reading(None).millis(), 0);
    assert_eq!(NovaTimestamp::from_reading(Some(42)).millis(), 42);
    assert_eq!(NovaTimestamp::from_reading(Some(u128::from(u64::MAX))).millis(), i64::MAX);
}

#[test]
fn ids_parse_through_from_str() {
    let id = novadb::nova_id::NovaId::new(1, [2; 8]);
    let parsed = novadb::nova_id::NovaId::from_str(&id.to_string()).unwrap();
    assert_eq!(parsed, id);
    assert!(matches!(
        novadb::nova_id::NovaId::from_str("nova_xyz"),
        Err(novadb::error::NovaError::InvalidArgument(_))
    ));
}
