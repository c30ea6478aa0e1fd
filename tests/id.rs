use std::str::FromStr;

use tid::{decode, encode_array, to_100bit, Error, Id, Identifiable};

#[test]
fn test_from_str() {
    let id = Id::from_str("000000-0f000000-000000").unwrap();
    assert_eq!(id.as_u128(), 0b01111 << 60);
    let id = Id::from_str("000000-0f000000-00000f").unwrap();
    assert_eq!(id.as_u128(), 0b01111 << 60 | 0b01111);
    let id = Id::from_str("000000-00000000-00000f").unwrap();
    assert_eq!(id.as_u128(), 0b01111);
    let id = Id::from_str("000000-0fzzzzzz-zzzzzz").unwrap();
    assert_eq!(id.as_u128(), 0xFFFF_FFFF_FFFF_FFFF);
}

#[test]
fn is_ok() {
    let id = Id::from(0xdead_beef_beef_dead);
    assert_eq!("000000-0dxbdyxy-zezqnd", id.to_string());
    assert_eq!(encode_array(1 << 100), b"000000-00000000-000000".to_vec());

    let id = Id::from_str("000000-0dxbdyxy-zezqnd").unwrap();
    assert_eq!(id.as_u128(), 0xdead_beef_beef_dead);

    let id = Id::new().unwrap();
    let s = id.to_string();
    assert_eq!(s, Id::from_str(&s).unwrap().to_string());
    assert_eq!(id, Id::from_str(&s).unwrap());
}

#[test]
fn truncates_to_100_bits() {
    assert_eq!(
        to_100bit(0xFFFF_FFFF_FFFF_FFFF_FFFF_FFFF_FFFF_FFFF),
        0xF_FFFF_FFFF_FFFF_FFFF_FFFF_FFFF
    );
    assert_eq!(Id::from_u128(1 << 100).as_u128(), 0);
    assert_eq!(Id::from(u128::MAX).as_u128(), (1 << 100) - 1);
}

#[test]
fn encodes_fixed_cases() {
    assert_eq!(encode_array(0b1111 << 60), b"000000-0f000000-000000".to_vec());
    assert_eq!(encode_array(0b1111), b"000000-00000000-00000f".to_vec());
    assert_eq!(encode_array(0xFFFF_FFFF_FFFF_FFFF), b"000000-0fzzzzzz-zzzzzz".to_vec());
    assert_eq!(encode_array((1 << 100) - 1), b"zzzzzz-zzzzzzzz-zzzzzz".to_vec());
    assert_eq!(encode_array(1 << 100), b"000000-00000000-000000".to_vec());
    assert_eq!(encode_array(0), b"000000-00000000-000000".to_vec());
    assert_eq!(Id::from_u128(32).to_string(), "000000-00000000-000010");
}

#[test]
fn decodes_fixed_cases() {
    assert_eq!(decode(b"000000-0f000000-000000"), Ok(0b1111 << 60));
    assert_eq!(decode(b"000000-00000000-00000f"), Ok(0b1111));
    assert_eq!(decode(b"000000-0fzzzzzz-zzzzzz"), Ok(0xFFFF_FFFF_FFFF_FFFF));
    assert_eq!(decode(b"z00000-00000000-000000"), Ok(0b11111 << 95));
    assert_eq!(decode(b"zzzzzz-zzzzzzzz-zzzzzz"), Ok((1 << 100) - 1));
}

#[test]
fn rejects_wrong_length() {
    assert_eq!(decode(b""), Err(Error::InvalidStrLen(0)));
    assert_eq!(decode(b"000000-00000000-00000"), Err(Error::InvalidStrLen(21)));
    assert_eq!(decode(b"000000-00000000-0000000"), Err(Error::InvalidStrLen(23)));
    assert_eq!(Id::from_str("0000000000000"), Err(Error::InvalidStrLen(13)));
}

#[test]
fn rejects_bad_digits() {
    assert_eq!(decode(b"00000u-00000000-000000"), Err(Error::InvalidDigit(b'u')));
    assert_eq!(decode(b"000000-0000000i-000000"), Err(Error::InvalidDigit(b'i')));
    assert_eq!(decode(b"A00000-00000000-000000"), Err(Error::InvalidDigit(b'A')));
    // a separator out of place is a bad digit; the first bad byte is named
    assert_eq!(decode(b"00000-000000000-00000!"), Err(Error::InvalidDigit(b'-')));
    assert_eq!(decode(b"000000-00000000-0000\xff0"), Err(Error::InvalidDigit(0xff)));
}

#[test]
fn parse_matches_decode() {
    let id = Id::parse("000000-0dxbdyxy-zezqnd").unwrap();
    assert_eq!(id.as_u128(), 0xdead_beef_beef_dead);
    assert_eq!(Id::parse("000000-0dxbdyxy-zezqn"), Err(Error::InvalidStrLen(21)));
}

#[test]
fn encodes_u128s() {
    for _ in 0..2000 {
        let x = fastrand::u128(..);
        let encoded_id = Id::from_u128(x);
        let decoded_id = Id::from_str(&encoded_id.to_string()).unwrap();
        assert_eq!(encoded_id.as_u128(), decoded_id.as_u128());
        assert_eq!(decode(&encode_array(x)), Ok(x & ((1 << 100) - 1)));
    }
}

#[test]
fn round_trips_edge_values() {
    let mut values = vec![0u128, (1 << 100) - 1, u128::MAX];
    for bit in 0..128 {
        values.push(1 << bit);
        values.push((1u128 << bit).wrapping_sub(1));
    }
    for x in values {
        let text = encode_array(x);
        assert_eq!(text.len(), 22);
        assert_eq!(text[6], b'-');
        assert_eq!(text[15], b'-');
        assert_eq!(decode(&text), Ok(x & ((1 << 100) - 1)));
    }
}

const CHARS: &[u8] = b"0123456789abcdefghjkmnpqrstvwxyz";

#[test]
fn parses_valid_ids() {
    for _ in 0..2000 {
        let mut s = String::new();
        for i in 0..22 {
            if i == 6 || i == 15 {
                s.push('-');
            } else {
                s.push(CHARS[fastrand::usize(..32)] as char);
            }
        }
        let id = Id::from_str(&s).unwrap();
        assert_eq!(id.to_string(), s);
    }
}

#[test]
fn doesnt_crash() {
    for _ in 0..2000 {
        let len = fastrand::usize(..40);
        let s: String = (0..len).map(|_| fastrand::char(..)).collect();
        let _ = Id::from_str(&s);
        let bytes: Vec<u8> = (0..fastrand::usize(..30)).map(|_| fastrand::u8(..)).collect();
        let _ = decode(&bytes);
    }
}

#[test]
fn later_clock_readings_sort_later() {
    let base = tid::EPOCH_MILLIS + 1_000_000;
    let a = Id::from_unix_millis(base, u128::MAX);
    let b = Id::from_unix_millis(base + 32, 0);
    assert!(a.as_u128() < b.as_u128());
    assert!(a < b);
    assert!(a.to_string() < b.to_string());
}

#[test]
fn composes_time_and_random() {
    let id = Id::from_time_and_random(3, 5);
    assert_eq!(id.as_u128(), (3 << 64) | 5);
    let id = Id::from_time_and_random(1 << 36 | 7, u128::MAX);
    assert_eq!(id.as_u128(), (7 << 64) | 0xFFFF_FFFF_FFFF_FFFF);
    let id = Id::from_unix_millis(tid::EPOCH_MILLIS + 1000, 9);
    assert_eq!(id.as_u128(), (32 << 64) | 9);
}

#[test]
fn timestamps_count_ticks_since_2020() {
    let e = tid::EPOCH_MILLIS;
    assert_eq!(tid::timestamp_from_unix_millis(e), 0);
    assert_eq!(tid::timestamp_from_unix_millis(e + 31), 0);
    assert_eq!(tid::timestamp_from_unix_millis(e + 32), 1);
    assert_eq!(tid::timestamp_from_unix_millis(e + 1000), 32);
    assert_eq!(tid::timestamp_from_unix_millis(e + 86_400_000), 2_764_800);
}

#[test]
fn new_ids_read_back() {
    let a = Id::new().unwrap();
    let b = Id::new().unwrap();
    assert_eq!(Id::parse(&a.to_string()), Ok(a));
    assert_eq!(Id::parse(&b.to_string()), Ok(b));
    assert!(a.as_u128() < 1 << 100);
    // both were made after 2020: the time field is not zero
    assert!(a.as_u128() >> 64 > 0);
}

struct Record {
    id: Id,
}

impl Identifiable for Record {
    fn id(&self) -> Id {
        self.id
    }
}

#[test]
fn identifiable_exposes_id() {
    let r = Record { id: Id::from_u128(42) };
    assert_eq!(r.id().as_u128(), 42);
}

#[test]
fn clock_readings_before_2020_give_none() {
    assert_eq!(Id::from_clock_reading(0, 7), None);
    assert_eq!(Id::from_clock_reading(tid::EPOCH_MILLIS - 1, 7), None);
    let id = Id::from_clock_reading(tid::EPOCH_MILLIS + 1000, 7).unwrap();
    assert_eq!(id.as_u128(), (32 << 64) | 7);
}

#[test]
fn timestamps_of_large_readings_do_not_wrap() {
    let ms = tid::EPOCH_MILLIS + 1_000_000_000_000_000;
    assert_eq!(tid::timestamp_from_unix_millis(ms), 32_000_000_000_000);
    let top = u128::MAX;
    let elapsed = top - tid::EPOCH_MILLIS;
    assert_eq!(
        tid::timestamp_from_unix_millis(top),
        elapsed / 1000 * 32 + elapsed % 1000 * 32 / 1000
    );
}
