//! The fingerprint of a movement: a fixed-width key derived from the account,
//! the day, the amount and the canonical label.

use vstd::prelude::*;
use vstd::bytes::{
    lemma_auto_spec_u16_to_from_le_bytes, lemma_auto_spec_u32_to_from_le_bytes,
    lemma_auto_spec_u64_to_from_le_bytes, spec_u16_to_le_bytes, spec_u32_to_le_bytes,
    spec_u64_to_le_bytes, u16_to_le_bytes, u32_to_le_bytes, u64_to_le_bytes,
};
use vstd::std_specs::cmp::PartialEqSpecImpl;
use vstd::string::StrSliceExecFns;
use vstd::utf8::{encode_utf8, encode_utf8_decode_utf8};
use crate::date::Date;
use crate::digest::{sha256, sha256_digest};
use crate::text::{normalize, normalized};

verus! {

/// The byte that stands between two fields of a fingerprint's input.
pub const FIELD_SEPARATOR: u8 = 0x1f;

/// An amount moved into the unsigned range, order kept: the least amount
/// becomes zero.
pub open spec fn shifted_amount(amount: i64) -> u64 {
    (amount + 0x8000_0000_0000_0000) as u64
}

/// The bytes that are hashed: account, day and amount at fixed widths, low
/// byte first, then the label in UTF-8, with a separator between the fields.
pub open spec fn preimage(account_id: u32, date: Date, amount: i64, label: Seq<char>) -> Seq<u8> {
    spec_u32_to_le_bytes(account_id) + seq![FIELD_SEPARATOR] + spec_u16_to_le_bytes(date.year)
        + seq![date.month, date.day, FIELD_SEPARATOR] + spec_u64_to_le_bytes(
        shifted_amount(amount),
    ) + seq![FIELD_SEPARATOR] + encode_utf8(label)
}

/// The fingerprint of a movement: the SHA-256 digest of its fields, the
/// label taken in canonical form.
pub open spec fn fingerprint_of(account_id: u32, date: Date, amount: i64, label: Seq<char>) -> Seq<
    u8,
> {
    sha256(preimage(account_id, date, amount, normalized(label)))
}

/// Different fields give different bytes to hash: the input of the hash
/// tells the account, the day, the amount and the label apart.
pub proof fn lemma_preimage_injective(
    account_a: u32,
    date_a: Date,
    amount_a: i64,
    label_a: Seq<char>,
    account_b: u32,
    date_b: Date,
    amount_b: i64,
    label_b: Seq<char>,
)
    requires
        preimage(account_a, date_a, amount_a, label_a) == preimage(
            account_b,
            date_b,
            amount_b,
            label_b,
        ),
    ensures
        account_a == account_b,
        date_a == date_b,
        amount_a == amount_b,
        label_a == label_b,
{
    lemma_auto_spec_u16_to_from_le_bytes();
    lemma_auto_spec_u32_to_from_le_bytes();
    lemma_auto_spec_u64_to_from_le_bytes();
    let a = preimage(account_a, date_a, amount_a, label_a);
    let b = preimage(account_b, date_b, amount_b, label_b);
    assert(a.subrange(0, 4) =~= spec_u32_to_le_bytes(account_a));
    assert(b.subrange(0, 4) =~= spec_u32_to_le_bytes(account_b));
    assert(a.subrange(5, 7) =~= spec_u16_to_le_bytes(date_a.year));
    assert(b.subrange(5, 7) =~= spec_u16_to_le_bytes(date_b.year));
    assert(a[7] == date_a.month && b[7] == date_b.month);
    assert(a[8] == date_a.day && b[8] == date_b.day);
    assert(a.subrange(10, 18) =~= spec_u64_to_le_bytes(shifted_amount(amount_a)));
    assert(b.subrange(10, 18) =~= spec_u64_to_le_bytes(shifted_amount(amount_b)));
    assert(shifted_amount(amount_a) == shifted_amount(amount_b));
    assert(a.subrange(19, a.len() as int) =~= encode_utf8(label_a));
    assert(b.subrange(19, b.len() as int) =~= encode_utf8(label_b));
    encode_utf8_decode_utf8(label_a);
    encode_utf8_decode_utf8(label_b);
}

/// The bytes that are hashed for a movement with the given fields.
pub fn fingerprint_input(account_id: u32, date: Date, amount: i64, label: &str) -> (bytes: Vec<u8>)
    ensures
        bytes@ == preimage(account_id, date, amount, normalized(label@)),
{
    let canonical = normalize(label);
    let mut bytes = u32_to_le_bytes(account_id);
    bytes.push(FIELD_SEPARATOR);
    let mut year = u16_to_le_bytes(date.year);
    bytes.append(&mut year);
    bytes.push(date.month);
    bytes.push(date.day);
    bytes.push(FIELD_SEPARATOR);
    let shifted: u64 = ((amount as i128) + 0x8000_0000_0000_0000i128) as u64;
    let mut units = u64_to_le_bytes(shifted);
    bytes.append(&mut units);
    bytes.push(FIELD_SEPARATOR);
    let mut tail = canonical.as_str().as_bytes_vec();
    bytes.append(&mut tail);
    assert(bytes@ =~= preimage(account_id, date, amount, normalized(label@)));
    bytes
}

/// A fingerprint: 32 bytes.
#[derive(Clone, Copy, Debug)]
pub struct Fingerprint {
    bytes: [u8; 32],
}

impl View for Fingerprint {
    type V = Seq<u8>;

    closed spec fn view(&self) -> Seq<u8> {
        self.bytes@
    }
}

impl PartialEq for Fingerprint {
    fn eq(&self, other: &Self) -> (b: bool) {
        let mut i: usize = 0;
        while i < 32
            invariant
                i <= 32,
                forall|j: int| 0 <= j < i ==> self.bytes[j] == other.bytes[j],
            decreases 32 - i,
        {
            if self.bytes[i] != other.bytes[i] {
                return false;
            }
            i += 1;
        }
        assert(self.bytes@ =~= other.bytes@);
        true
    }
}

impl PartialEqSpecImpl for Fingerprint {
    open spec fn obeys_eq_spec() -> bool {
        true
    }

    open spec fn eq_spec(&self, other: &Self) -> bool {
        self@ == other@
    }
}

impl Eq for Fingerprint {

}

/// The digit, `0` to `9` and then `a` to `f`, that stands for a number below
/// sixteen.
pub open spec fn hex_digit(n: int) -> char {
    if n < 10 {
        ((48 + n) as u8) as char
    } else {
        ((87 + n) as u8) as char
    }
}

/// The bytes written with two hexadecimal digits each, high digit first.
pub open spec fn hex_of(bytes: Seq<u8>) -> Seq<char> {
    Seq::new(
        2 * bytes.len(),
        |i: int|
            if i % 2 == 0 {
                hex_digit(bytes[i / 2] as int / 16)
            } else {
                hex_digit(bytes[i / 2] as int % 16)
            },
    )
}

fn hex_char(n: u8) -> (c: char)
    requires
        n < 16,
    ensures
        c == hex_digit(n as int),
{
    if n < 10 {
        (48 + n) as char
    } else {
        (87 + n) as char
    }
}

impl Fingerprint {
    /// The fingerprint made of the given bytes.
    pub fn from_bytes(bytes: [u8; 32]) -> (key: Self)
        ensures
            key@ == bytes@,
    {
        Fingerprint { bytes }
    }

    /// The 32 bytes of the fingerprint.
    pub fn as_bytes(&self) -> (bytes: [u8; 32])
        ensures
            bytes@ == self@,
            self@.len() == 32,
    {
        self.bytes
    }

    /// The first eight bytes of the fingerprint as one number, low byte
    /// first.
    pub fn prefix(&self) -> (p: u64)
        ensures
            p == prefix_of(self@),
    {
        let low: u64 = (self.bytes[0] as u64) + (self.bytes[1] as u64) * 0x100 + (
        self.bytes[2] as u64) * 0x1_0000 + (self.bytes[3] as u64) * 0x100_0000;
        let high: u64 = (self.bytes[4] as u64) + (self.bytes[5] as u64) * 0x100 + (
        self.bytes[6] as u64) * 0x1_0000 + (self.bytes[7] as u64) * 0x100_0000;
        low + high * 0x1_0000_0000
    }

    /// The fingerprint in 64 hexadecimal digits.
    pub fn to_hex(&self) -> (text: String)
        ensures
            text@ == hex_of(self@),
    {
        let mut text = String::new();
        let mut i: usize = 0;
        while i < 32
            invariant
                i <= 32,
                text@ == hex_of(self.bytes@.take(i as int)),
            decreases 32 - i,
        {
            let byte = self.bytes[i];
            text.push(hex_char(byte / 16));
            text.push(hex_char(byte % 16));
            i += 1;
            assert(text@ =~= hex_of(self.bytes@.take(i as int)));
        }
        assert(self.bytes@.take(32) == self.bytes@);
        text
    }
}

/// The first eight bytes of `bytes` as one number, low byte first.
pub open spec fn prefix_of(bytes: Seq<u8>) -> u64 {
    (bytes[0] as int + bytes[1] as int * 0x100 + bytes[2] as int * 0x1_0000 + bytes[3] as int
        * 0x100_0000 + bytes[4] as int * 0x1_0000_0000 + bytes[5] as int * 0x100_0000_0000
        + bytes[6] as int * 0x1_0000_0000_0000 + bytes[7] as int * 0x100_0000_0000_0000) as u64
}

/// Computes the fingerprint of a movement. It depends on the four fields
/// alone, and on the label only through its canonical form.
pub fn fingerprint(account_id: u32, date: Date, amount: i64, label: &str) -> (key: Fingerprint)
    ensures
        key@ == fingerprint_of(account_id, date, amount, label@),
{
    let input = fingerprint_input(account_id, date, amount, label);
    Fingerprint { bytes: sha256_digest(input.as_slice()) }
}

/// Labels with the same canonical form give the same fingerprint, the other
/// fields being equal.
pub proof fn lemma_fingerprint_by_canonical_label(
    account_id: u32,
    date: Date,
    amount: i64,
    label_a: Seq<char>,
    label_b: Seq<char>,
)
    requires
        normalized(label_a) == normalized(label_b),
    ensures
        fingerprint_of(account_id, date, amount, label_a) == fingerprint_of(
            account_id,
            date,
            amount,
            label_b,
        ),
{
}

} // verus!
