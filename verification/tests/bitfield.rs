use llfree::bitfield;
use llfree::bitfield::{count_zeros64, Bitfield};
use llfree::Error;

fn all_words<const N: usize>(field: &Bitfield<N>, from: usize, to: usize, word: u64) -> bool {
    (from..to).all(|i| field.get_entry(i) == word)
}

#[test]
fn bit_set() {
    let mut field = Bitfield::<2>::new();
    field.set(0..0, true);
    assert_eq!(field.get_entry(0), 0);
    assert_eq!(field.get_entry(1), 0);
    field.set(0..1, true);
    assert_eq!(field.get_entry(0), 0b1);
    assert_eq!(field.get_entry(1), 0b0);
    field.set(0..1, false);
    assert_eq!(field.get_entry(0), 0b0);
    assert_eq!(field.get_entry(1), 0b0);
    field.set(0..2, true);
    assert_eq!(field.get_entry(0), 0b11);
    assert_eq!(field.get_entry(1), 0b0);
    field.set(2..56, true);
    assert_eq!(field.get_entry(0), 0x00ff_ffff_ffff_ffff);
    assert_eq!(field.get_entry(1), 0b0);
    field.set(60..73, true);
    assert_eq!(field.get_entry(0), 0xf0ff_ffff_ffff_ffff);
    assert_eq!(field.get_entry(1), 0x01ff);
    field.set(96..128, true);
    assert_eq!(field.get_entry(0), 0xf0ff_ffff_ffff_ffff);
    assert_eq!(field.get_entry(1), 0xffff_ffff_0000_01ff);
    field.set(0..128, false);
    assert_eq!(field.get_entry(0), 0);
    assert_eq!(field.get_entry(1), 0);
}

#[test]
fn bit_toggle() {
    let mut field = Bitfield::<2>::new();
    field.toggle(8, 3, false).unwrap();
    assert_eq!(field.get_entry(0), 0xff00);
    assert_eq!(field.get_entry(1), 0);
    field.toggle(16, 2, false).unwrap();
    assert_eq!(field.get_entry(0), 0xfff00);
    assert_eq!(field.get_entry(1), 0);
    field.toggle(20, 2, false).unwrap();
    assert_eq!(field.get_entry(0), 0xffff00);
    assert_eq!(field.get_entry(1), 0);
    field.toggle(8, 3, false).expect_err("");
    field.toggle(8, 3, true).unwrap();
    field.toggle(16, 3, true).unwrap();
    assert_eq!(field.get_entry(0), 0);
    assert_eq!(field.get_entry(1), 0);
    field.toggle(0, 6, false).unwrap();
    assert_eq!(field.get_entry(0), u64::MAX);
    assert_eq!(field.get_entry(1), 0);
    field.toggle(64, 6, false).unwrap();
    assert_eq!(field.get_entry(0), u64::MAX);
    assert_eq!(field.get_entry(1), u64::MAX);
    field.toggle(0, 7, true).unwrap();
    assert_eq!(field.get_entry(0), 0);
    assert_eq!(field.get_entry(1), 0);
}

#[test]
fn first_zeros_aligned() {
    assert_eq!(bitfield::first_zeros_aligned(0b0, 0), Some((0b1, 0)));
    assert_eq!(bitfield::first_zeros_aligned(0b0, 1), Some((0b11, 0)));
    assert_eq!(bitfield::first_zeros_aligned(0b0, 2), Some((0b1111, 0)));
    assert_eq!(bitfield::first_zeros_aligned(0b0, 3), Some((0xff, 0)));
    assert_eq!(bitfield::first_zeros_aligned(0b0, 4), Some((0xffff, 0)));
    assert_eq!(bitfield::first_zeros_aligned(0b0, 5), Some((0xffffffff, 0)));
    assert_eq!(bitfield::first_zeros_aligned(0b0, 6), Some((0xffffffffffffffff, 0)));

    assert_eq!(bitfield::first_zeros_aligned(0b1, 0), Some((0b11, 1)));
    assert_eq!(bitfield::first_zeros_aligned(0b1, 1), Some((0b1101, 2)));
    assert_eq!(bitfield::first_zeros_aligned(0b1, 2), Some((0xf1, 4)));
    assert_eq!(bitfield::first_zeros_aligned(0b1, 3), Some((0xff01, 8)));
    assert_eq!(bitfield::first_zeros_aligned(0b1, 4), Some((0xffff0001, 16)));
    assert_eq!(bitfield::first_zeros_aligned(0b1, 5), Some((0xffffffff00000001, 32)));
    assert_eq!(bitfield::first_zeros_aligned(0b1, 6), None);

    assert_eq!(bitfield::first_zeros_aligned(0b101, 0), Some((0b111, 1)));
    assert_eq!(bitfield::first_zeros_aligned(0b10011, 1), Some((0b11111, 2)));
    assert_eq!(bitfield::first_zeros_aligned(0x10f, 2), Some((0x1ff, 4)));
    assert_eq!(bitfield::first_zeros_aligned(0x100ff, 3), Some((0x1ffff, 8)));
    assert_eq!(bitfield::first_zeros_aligned(0x10000ffff, 4), Some((0x1ffffffff, 16)));
    assert_eq!(
        bitfield::first_zeros_aligned(0x00000000ff00ff0f, 5),
        Some((0xffffffffff00ff0f, 32))
    );
    assert_eq!(
        bitfield::first_zeros_aligned(0b1111_0000_1100_0011_1000_1111, 2),
        Some((0b1111_1111_1100_0011_1000_1111, 16))
    );
}

#[test]
fn first_zeros_aligned_1() {
    assert_eq!(bitfield::first_zeros_aligned(0b0, 1), Some((0b11, 0)));
    assert_eq!(bitfield::first_zeros_aligned(0b1, 1), Some((0b1101, 2)));
    assert_eq!(bitfield::first_zeros_aligned(0b10011, 1), Some((0b11111, 2)));
    assert_eq!(
        bitfield::first_zeros_aligned(0b0001_1001_1011, 1),
        Some((0b1101_1001_1011, 10))
    );
}

#[test]
fn first_zeros_aligned_2() {
    assert_eq!(bitfield::first_zeros_aligned(0b0, 2), Some((0b1111, 0)));
    assert_eq!(bitfield::first_zeros_aligned(0b1, 2), Some((0b11110001, 4)));
    assert_eq!(
        bitfield::first_zeros_aligned(0b11_0000_0001, 2),
        Some((0b11_1111_0001, 4))
    );
    assert_eq!(
        bitfield::first_zeros_aligned(0b0000_0100_1000_0001_0010, 2),
        Some((0b1111_0100_1000_0001_0010, 16))
    );
}

#[test]
fn first_zeros_aligned_full_words() {
    // no run of any order in a full word
    for order in 0..=6 {
        assert_eq!(bitfield::first_zeros_aligned(u64::MAX, order), None);
    }
    // the last bit, pair, nibble, byte and half word
    assert_eq!(bitfield::first_zeros_aligned(u64::MAX >> 1, 0), Some((u64::MAX, 63)));
    assert_eq!(bitfield::first_zeros_aligned(u64::MAX >> 2, 1), Some((u64::MAX, 62)));
    assert_eq!(bitfield::first_zeros_aligned(u64::MAX >> 4, 2), Some((u64::MAX, 60)));
    assert_eq!(bitfield::first_zeros_aligned(u64::MAX >> 8, 3), Some((u64::MAX, 56)));
    assert_eq!(bitfield::first_zeros_aligned(u64::MAX >> 16, 4), Some((u64::MAX, 48)));
    assert_eq!(bitfield::first_zeros_aligned(u64::MAX >> 32, 5), Some((u64::MAX, 32)));
    // a free pair that is not aligned does not count
    assert_eq!(bitfield::first_zeros_aligned(!0b0110u64, 1), None);
    // a borrow from a lower group must not flag a higher one
    assert_eq!(bitfield::first_zeros_aligned(0x0000_0000_0000_0100 | !0xffffu64, 3), Some((!0xffffu64 | 0x01ff, 0)));
}

#[test]
fn first_zero_entries() {
    let mut field = Bitfield::<8>::new();

    // 9
    assert!(all_words(&field, 0, 8, 0));
    assert_eq!(0, field.set_first_zeros(0, 9).unwrap());
    assert!(all_words(&field, 0, 8, u64::MAX));
    field.toggle(0, 9, true).unwrap();
    assert!(all_words(&field, 0, 8, 0));

    assert_eq!(0, field.set_first_zeros(0, 7).unwrap());
    assert!(all_words(&field, 0, 2, u64::MAX));

    assert_eq!(4 * 64, field.set_first_zeros(0, 8).unwrap());
    assert!(all_words(&field, 4, 8, u64::MAX));

    assert_eq!(2 * 64, field.set_first_zeros(0, 6).unwrap());
    assert!(field.get_entry(2) == u64::MAX);
    assert_eq!(3 * 64, field.set_first_zeros(0, 6).unwrap());
    assert!(field.get_entry(3) == u64::MAX);

    field.set_first_zeros(0, 9).expect_err("no mem");
    field.set_first_zeros(0, 8).expect_err("no mem");
    field.set_first_zeros(0, 7).expect_err("no mem");
    field.set_first_zeros(0, 6).expect_err("no mem");
}

#[test]
fn set_first_zeros_wraps_around() {
    let mut field = Bitfield::<8>::new();
    field.fill(true);
    field.set(64..65, false);
    // search from word 5 on: words 5, 6, 7, 0, 1
    assert_eq!(field.set_first_zeros(5, 0), Ok(64));
    assert_eq!(field.set_first_zeros(5, 0), Err(Error::Memory));
    assert_eq!(field.count_zeros(), 0);
    // the start word is taken modulo the number of words
    field.set(3 * 64 + 8..3 * 64 + 16, false);
    assert_eq!(field.set_first_zeros(8 + 3, 3), Ok(3 * 64 + 8));
}

#[test]
fn toggle_rolls_back() {
    let mut field = Bitfield::<8>::new();
    field.set(3 * 64..3 * 64 + 1, true);
    // words 0, 1 and 2 are set, word 3 is refused, the others are restored
    assert_eq!(field.toggle(0, 8, false), Err(Error::CAS));
    assert!(all_words(&field, 0, 3, 0));
    assert_eq!(field.get_entry(3), 1);
    assert_eq!(field.toggle(0, 7, false), Ok(()));
    assert_eq!(field.count_zeros(), 512 - 128 - 1);
    assert_eq!(field.toggle(0, 7, true), Ok(()));
    assert_eq!(field.toggle(0, 7, true), Err(Error::CAS));
}

#[test]
fn counting_and_filling() {
    let mut field = Bitfield::<8>::new();
    assert_eq!(field.len(), 512);
    assert_eq!(field.count_zeros(), 512);
    assert!(field.is_zero(0, 9));
    field.set(100..101, true);
    assert!(field.get(100));
    assert!(!field.get(99));
    assert_eq!(field.count_zeros(), 511);
    assert!(!field.is_zero(0, 9));
    assert!(!field.is_zero(64, 6));
    assert!(field.is_zero(128, 7));
    assert!(!field.is_zero(100, 0));
    assert!(field.is_zero(96, 2));
    assert!(!field.fill_cas(true));
    // the first word was overwritten before the second was refused
    assert_eq!(field.get_entry(0), u64::MAX);
    field.fill(false);
    assert!(field.fill_cas(true));
    assert_eq!(field.count_zeros(), 0);
    assert!(field.fill_cas(false));
    assert_eq!(field.count_zeros(), 512);
    assert_eq!(count_zeros64(0), 64);
    assert_eq!(count_zeros64(u64::MAX), 0);
    assert_eq!(count_zeros64(0xf0f0), 56);
}
