use llfree::array::{Array, Meta};
use llfree::lower::{Init, N};
use llfree::persist::{
    bitfields_size, bytes_to_counts, bytes_to_words, counts_to_bytes, entries_size,
    meta_from_bytes, meta_to_bytes, words_to_bytes, META_SIZE,
};
use llfree::MAGIC;

#[test]
fn header_bytes() {
    let meta = Meta {
        magic: MAGIC,
        frames: 0x0102_0304_0506,
        crashed: true,
    };
    let bytes = meta_to_bytes(meta);
    assert_eq!(
        bytes,
        vec![0xef, 0xbe, 0xad, 0xde, 0, 0, 0, 0, 6, 5, 4, 3, 2, 1, 0, 0, 1]
    );
    assert_eq!(bytes.len(), META_SIZE);
    assert_eq!(meta_from_bytes(&bytes), Some(meta));
    let mut longer = bytes.clone();
    longer.extend([0u8; 100]);
    assert_eq!(meta_from_bytes(&longer), Some(meta));
    assert_eq!(meta_from_bytes(&bytes[..16].to_vec()), None);
    let mut bad = bytes.clone();
    bad[16] = 2;
    assert_eq!(meta_from_bytes(&bad), None);
    bad[16] = 0;
    assert_eq!(
        meta_from_bytes(&bad),
        Some(Meta {
            crashed: false,
            ..meta
        })
    );
}

#[test]
fn words_and_counts_bytes() {
    let words = vec![1u64, 0x0102_0304_0506_0708, u64::MAX];
    let bytes = words_to_bytes(&words);
    assert_eq!(bytes.len(), 24);
    assert_eq!(&bytes[..8], &[1, 0, 0, 0, 0, 0, 0, 0]);
    assert_eq!(&bytes[8..16], &[8, 7, 6, 5, 4, 3, 2, 1]);
    assert_eq!(bytes_to_words(&bytes), Some(words));
    assert_eq!(bytes_to_words(&bytes[1..].to_vec()), None);
    assert_eq!(bytes_to_words(&Vec::new()), Some(Vec::new()));

    let counts = vec![512u16, 0, 0xffff, 7];
    let bytes = counts_to_bytes(&counts);
    assert_eq!(bytes, vec![0, 2, 0, 0, 0xff, 0xff, 7, 0]);
    assert_eq!(bytes_to_counts(&bytes), Some(counts));
    assert_eq!(bytes_to_counts(&bytes[1..].to_vec()), None);
}

#[test]
fn layout_sizes() {
    assert_eq!(bitfields_size(0), 0);
    assert_eq!(bitfields_size(1), 64);
    assert_eq!(bitfields_size(512), 64);
    assert_eq!(bitfields_size(513), 128);
    assert_eq!(entries_size(513), 4);
    assert_eq!(bitfields_size(N), 32 * 64);
    assert_eq!(entries_size(N), 64);
}

#[test]
fn stored_allocator() {
    let base = 0x4000_0000;
    let len = 3 * N;
    let mut alloc = Array::new(1, base, len, Init::Overwrite, true).unwrap();
    let first = alloc.get(0, 3).unwrap();
    let second = alloc.get(0, 9).unwrap();
    alloc.close();

    let header = meta_to_bytes(alloc.meta());
    let fields = words_to_bytes(&alloc.words());
    let entries = counts_to_bytes(&alloc.counts());
    assert_eq!(fields.len(), bitfields_size(alloc.frames()));
    // the entries are stored for whole subtrees
    assert_eq!(entries.len(), 3 * 32 * 2);
    assert!(entries_size(alloc.frames()) <= entries.len());

    let meta = meta_from_bytes(&header).unwrap();
    let words = bytes_to_words(&fields).unwrap();
    let counts = bytes_to_counts(&entries).unwrap();
    let mut again = Array::recover(1, base, len, meta, &words, &counts).unwrap();
    assert_eq!(again.allocated_frames(), 8 + 512);
    assert!(!again.is_free(first, 3));
    assert!(!again.is_free(second, 9));
    again.put(0, first, 3).unwrap();
    again.put(0, second, 9).unwrap();
    assert_eq!(again.allocated_frames(), 0);
}
