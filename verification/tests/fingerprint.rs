use ledger_sync::date::Date;
use ledger_sync::fingerprint::{fingerprint, fingerprint_input, Fingerprint, FIELD_SEPARATOR};
use ledger_sync::operations::{Operation, RawRecord, Status};

const COFFEE: Date = Date { year: 2024, month: 1, day: 5 };

fn record(account_id: u32, date: &str, amount: &str, label: &str) -> RawRecord {
    RawRecord {
        account_id,
        date: date.to_string(),
        amount: amount.to_string(),
        label: label.to_string(),
    }
}

fn stored(account_id: u32, date: &str, amount: &str, label: &str) -> Operation {
    Operation::new(1, record(account_id, date, amount, label), Status::Pending, Vec::new())
}

#[test]
fn fingerprint_input_lays_the_fields_out() {
    let bytes = fingerprint_input(1, COFFEE, -1250, "Coffee Shop");
    assert_eq!(
        bytes,
        vec![
            1, 0, 0, 0, 31, 232, 7, 1, 5, 31, 30, 251, 255, 255, 255, 255, 255, 127, 31, 99, 111,
            102, 102, 101, 101, 32, 115, 104, 111, 112
        ]
    );
    assert_eq!(FIELD_SEPARATOR, 31);
}

#[test]
fn fingerprint_input_of_an_empty_label_and_zero_amount() {
    let bytes = fingerprint_input(7, Date { year: 1999, month: 12, day: 31 }, 0, "  ");
    assert_eq!(bytes, vec![7, 0, 0, 0, 31, 207, 7, 12, 31, 31, 0, 0, 0, 0, 0, 0, 0, 128, 31]);
}

#[test]
fn fingerprint_input_writes_the_label_in_utf8() {
    let bytes = fingerprint_input(2, Date { year: 2024, month: 2, day: 29 }, 5, "Café  é");
    assert_eq!(
        bytes,
        vec![
            2, 0, 0, 0, 31, 232, 7, 2, 29, 31, 5, 0, 0, 0, 0, 0, 0, 128, 31, 99, 97, 102, 195,
            169, 32, 195, 169
        ]
    );
}

#[test]
fn fingerprint_input_at_the_ends_of_the_amount_range() {
    let low = fingerprint_input(0, COFFEE, i64::MIN, "");
    assert_eq!(&low[10..18], &[0, 0, 0, 0, 0, 0, 0, 0]);
    let high = fingerprint_input(u32::MAX, COFFEE, i64::MAX, "");
    assert_eq!(&high[10..18], &[255, 255, 255, 255, 255, 255, 255, 255]);
    assert_eq!(&high[0..4], &[255, 255, 255, 255]);
}

#[test]
fn fingerprint_is_the_sha256_of_its_input() {
    let key = fingerprint(1, COFFEE, -1250, "Coffee Shop");
    assert_eq!(
        key.to_hex(),
        "84354314517b9b01b51165810f5c790516a9c6f5d9b0c2fde49406bf658bde95"
    );
    assert_eq!(
        key.as_bytes(),
        [
            132, 53, 67, 20, 81, 123, 155, 1, 181, 17, 101, 129, 15, 92, 121, 5, 22, 169, 198,
            245, 217, 176, 194, 253, 228, 148, 6, 191, 101, 139, 222, 149
        ]
    );
    let other = fingerprint(7, Date { year: 1999, month: 12, day: 31 }, 0, "");
    assert_eq!(
        other.to_hex(),
        "99953c0190aa74beaac5cf3295885f0829835bc99765f36cf9adabb43f5a74c2"
    );
}

#[test]
fn fingerprint_prefix_reads_the_first_eight_bytes() {
    let key = fingerprint(1, COFFEE, -1250, "Coffee Shop");
    assert_eq!(key.prefix(), 115821803590595972);
    let mut bytes = [0u8; 32];
    bytes[0] = 1;
    assert_eq!(Fingerprint::from_bytes(bytes).prefix(), 1);
    bytes[7] = 255;
    assert_eq!(Fingerprint::from_bytes(bytes).prefix(), 0xff00_0000_0000_0001);
    assert_eq!(Fingerprint::from_bytes([255u8; 32]).prefix(), u64::MAX);
}

#[test]
fn fingerprint_to_hex_writes_two_digits_for_each_byte() {
    let mut bytes = [0u8; 32];
    bytes[0] = 0x0a;
    bytes[1] = 0xf0;
    bytes[31] = 0x9c;
    let text = Fingerprint::from_bytes(bytes).to_hex();
    assert_eq!(text.len(), 64);
    assert_eq!(&text[0..4], "0af0");
    assert_eq!(&text[62..64], "9c");
    assert_eq!(&text[4..62], "0".repeat(58));
}

#[test]
fn fingerprints_compare_by_their_bytes() {
    let a = Fingerprint::from_bytes([7u8; 32]);
    let b = Fingerprint::from_bytes([7u8; 32]);
    let mut other = [7u8; 32];
    other[31] = 8;
    let c = Fingerprint::from_bytes(other);
    assert_eq!(a, b);
    assert_ne!(a, c);
    assert_eq!(a.as_bytes(), [7u8; 32]);
}

#[test]
fn fingerprint_is_the_same_for_equivalent_labels() {
    let plain = fingerprint(1, COFFEE, -1250, "coffee shop");
    assert_eq!(fingerprint(1, COFFEE, -1250, "Coffee Shop"), plain);
    assert_eq!(fingerprint(1, COFFEE, -1250, "  COFFEE \t SHOP\n"), plain);
}

#[test]
fn fingerprint_tells_the_fields_apart() {
    let plain = fingerprint(1, COFFEE, -1250, "Coffee Shop");
    assert_ne!(fingerprint(2, COFFEE, -1250, "Coffee Shop"), plain);
    assert_ne!(fingerprint(1, Date { year: 2024, month: 1, day: 6 }, -1250, "Coffee Shop"), plain);
    assert_ne!(fingerprint(1, Date { year: 2024, month: 5, day: 1 }, -1250, "Coffee Shop"), plain);
    assert_ne!(fingerprint(1, COFFEE, 1250, "Coffee Shop"), plain);
    assert_ne!(fingerprint(1, COFFEE, -1251, "Coffee Shop"), plain);
    assert_ne!(fingerprint(1, COFFEE, -1250, "Coffee Shops"), plain);
    assert_ne!(fingerprint(1, COFFEE, -1250, "CoffeeShop"), plain);
}

#[test]
fn same_movement_from_two_import_formats_has_one_fingerprint() {
    let from_csv = stored(1, "2024-01-05", "-1250", "Coffee Shop");
    let from_ofx = stored(1, "20240105120000.000[-5:EST]", "-1250", "COFFEE  SHOP ");
    let a = from_csv.fingerprint();
    let b = from_ofx.fingerprint();
    assert!(a.is_some());
    assert_eq!(a, b);
    assert_eq!(a, Some(fingerprint(1, COFFEE, -1250, "coffee shop")));
}

#[test]
fn operation_without_readable_day_or_amount_has_no_fingerprint() {
    assert_eq!(stored(1, "05/01/2024", "-1250", "Coffee Shop").fingerprint(), None);
    assert_eq!(stored(1, "2024-01-05", "-12.50", "Coffee Shop").fingerprint(), None);
    assert_eq!(stored(1, "", "", "").fingerprint(), None);
    assert!(stored(1, "2024-01-05", "0", "").fingerprint().is_some());
}
