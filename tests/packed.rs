use phrase_search::layout::{
    align_to_64, bytes_equal, bytes_less, layout_blobs, merge_batches, smallest_heads, Offset,
};
use phrase_search::packed::{
    clear_group_values, clear_values, group, gv, pack, pack_doc_id, pack_doc_id_group,
    pack_group, pack_value, unpack_doc_id, unpack_group, unpack_values, value, ADD_ONE_GROUP,
    MAX_VALUE,
};
use phrase_search::roaringish::{is_well_formed, words_from_bytes};
use phrase_search::{BorrowRoaringishPacked, RoaringishPacked, RoaringishPackedKind, Unaligned};

#[test]
fn packing_formulas() {
    assert_eq!(group(37), 2);
    assert_eq!(value(37), 5);
    assert_eq!(gv(MAX_VALUE), (65535, 0));
    assert_eq!(pack_doc_id(3), 3u64 << 32);
    assert_eq!(pack_group(2), 2u64 << 16);
    assert_eq!(pack_value(5), 32);
    assert_eq!(pack_doc_id_group(pack_doc_id(3), 2), 0x0000_0003_0002_0000);
    assert_eq!(pack(pack_doc_id(3), 2, 5), 0x0000_0003_0002_0020);
    assert_eq!(clear_values(0x0000_0003_0002_0020), 0x0000_0003_0002_0000);
    assert_eq!(clear_group_values(0x0000_0003_0002_0020), 0x0000_0003_0000_0000);
    assert_eq!(unpack_doc_id(0x0000_0003_0002_0020), 3);
    assert_eq!(unpack_group(0x0000_0003_0002_0020), 2);
    assert_eq!(unpack_values(0x0000_0003_0002_0020), 0x20);
    assert_eq!(ADD_ONE_GROUP, 1 << 16);
    assert_eq!(MAX_VALUE, 16 * 65535);
}

#[test]
fn push_coalesces_positions_of_a_group() {
    let mut p = RoaringishPacked::new();
    p.push(1, &[0, 3, 15, 16, 40]);
    p.push(4, &[2]);
    assert_eq!(
        p.as_slice(),
        &[
            (1u64 << 32) | 0b1000_0000_0000_1001,
            (1u64 << 32) | (1 << 16) | 1,
            (1u64 << 32) | (2 << 16) | (1 << 8),
            (4u64 << 32) | (1 << 2),
        ]
    );
    assert_eq!(p.len(), 4);
    assert_eq!(p.size_bytes(), 32);
}

#[test]
fn push_same_document_consecutively_joins_words() {
    let mut p = RoaringishPacked::new();
    p.push(1, &[1, 2]);
    p.push(1, &[3, 17]);
    assert_eq!(p.as_slice(), &[(1u64 << 32) | 0b1110, (1u64 << 32) | (1 << 16) | 0b10]);
}

#[test]
fn push_largest_position() {
    let mut p = RoaringishPacked::new();
    p.push(9, &[MAX_VALUE]);
    assert_eq!(p.as_slice(), &[(9u64 << 32) | (65535 << 16) | 1]);
}

#[test]
fn push_nothing_keeps_list() {
    let mut p = RoaringishPacked::new();
    p.push(2, &[]);
    assert!(p.is_empty());
}

#[test]
fn concat_appends_in_order() {
    let mut a = RoaringishPacked::new();
    a.push(1, &[1, 2]);
    let mut b = RoaringishPacked::new();
    b.push(2, &[5]);
    let words_b: Vec<u64> = b.as_slice().to_vec();
    let kind: RoaringishPackedKind<Unaligned> = RoaringishPackedKind::Owned(a);
    let borrowed = BorrowRoaringishPacked::<Unaligned>::from_words(&words_b);
    let r = kind.concat(RoaringishPackedKind::Archived(borrowed));
    let bytes = r.as_bytes();
    assert_eq!(bytes.len(), 16);
    let words = words_from_bytes(&bytes).unwrap();
    assert_eq!(words, vec![(1u64 << 32) | 0b110, (2u64 << 32) | (1 << 5)]);
}

#[test]
fn concat_of_two_borrowed_lists() {
    let a = vec![(1u64 << 32) | 1];
    let b = vec![(3u64 << 32) | 2, (4u64 << 32) | 4];
    let r = RoaringishPackedKind::Archived(BorrowRoaringishPacked::<Unaligned>::from_words(&a))
        .concat(RoaringishPackedKind::Archived(BorrowRoaringishPacked::<Unaligned>::from_words(&b)));
    assert_eq!(words_from_bytes(&r.as_bytes()).unwrap(), vec![a[0], b[0], b[1]]);
}

#[test]
fn bytes_are_little_endian_words() {
    let w = vec![0x0102_0304_0506_0708u64];
    let k = RoaringishPackedKind::Archived(BorrowRoaringishPacked::<Unaligned>::from_words(&w));
    assert_eq!(k.as_bytes(), vec![8, 7, 6, 5, 4, 3, 2, 1]);
    assert_eq!(words_from_bytes(&[8, 7, 6, 5, 4, 3, 2, 1]).unwrap(), w);
}

#[test]
fn bytes_of_partial_word_are_rejected() {
    assert!(words_from_bytes(&[1, 2, 3]).is_none());
    assert_eq!(words_from_bytes(&[]).unwrap(), Vec::<u64>::new());
}

#[test]
fn layout_aligns_and_drops_long_tokens() {
    assert_eq!(align_to_64(0), 0);
    assert_eq!(align_to_64(1), 64);
    assert_eq!(align_to_64(64), 64);
    assert_eq!(align_to_64(65), 128);
    let r = layout_blobs(&[(3, 24), (512, 8), (511, 8), (1, 64)]);
    assert_eq!(
        r,
        vec![
            Some(Offset { begin: 0, len: 24 }),
            None,
            Some(Offset { begin: 64, len: 8 }),
            Some(Offset { begin: 128, len: 64 }),
        ]
    );
    for o in r.iter().flatten() {
        assert_eq!(o.begin % 64, 0);
    }
}

#[test]
fn smallest_heads_pick_first_token_in_batch_order() {
    use_heads();
}

fn use_heads() {
    let heads = vec![
        Some(b"cat".to_vec()),
        None,
        Some(b"apple".to_vec()),
        Some(b"apple".to_vec()),
        Some(b"b".to_vec()),
    ];
    assert_eq!(smallest_heads(&heads), vec![2, 3]);
    assert_eq!(smallest_heads(&vec![None, None]), Vec::<usize>::new());
    assert_eq!(smallest_heads(&vec![Some(b"ab".to_vec()), Some(b"a".to_vec())]), vec![1]);
}

#[test]
fn byte_order_is_lexicographic() {
    assert!(bytes_less(b"a", b"b"));
    assert!(bytes_less(b"ab", b"abc"));
    assert!(!bytes_less(b"abc", b"ab"));
    assert!(!bytes_less(b"same", b"same"));
    assert!(bytes_less(b"", b"x"));
    assert!(bytes_equal(b"same", b"same"));
    assert!(!bytes_equal(b"same", b"sam"));
}

#[test]
fn well_formed_lists() {
    assert!(is_well_formed(&[(1u64 << 32) | 1, (1u64 << 32) | (1 << 16) | 2]));
    assert!(!is_well_formed(&[(1u64 << 32) | 1, (1u64 << 32) | 2]));
    assert!(!is_well_formed(&[1u64 << 32]));
    assert!(is_well_formed(&[]));
}

#[test]
fn default_list_is_empty() {
    let p = RoaringishPacked::default();
    assert!(p.is_empty());
    assert_eq!(p.size_bytes(), 0);
}

#[test]
fn push_keeps_earlier_words() {
    let mut p = RoaringishPacked::new();
    p.push(1, &[1, 40]);
    let before: Vec<u64> = p.as_slice().to_vec();
    p.push(2, &[0, 1, 2]);
    assert_eq!(&p.as_slice()[..before.len()], &before[..]);
    assert!(p.len() <= before.len() + 3);
}

#[test]
fn merge_batches_joins_lists_in_batch_order() {
    use_merge();
}

fn use_merge() {
    let b0 = vec![(b"a".to_vec(), vec![1u64]), (b"c".to_vec(), vec![2u64])];
    let b1 = vec![(b"a".to_vec(), vec![3u64, 4]), (b"b".to_vec(), vec![5u64])];
    let b2: Vec<(Vec<u8>, Vec<u64>)> = vec![];
    let out = merge_batches(&vec![b0, b1, b2]);
    assert_eq!(
        out,
        vec![
            (b"a".to_vec(), vec![1u64, 3, 4]),
            (b"b".to_vec(), vec![5u64]),
            (b"c".to_vec(), vec![2u64]),
        ]
    );
    assert!(merge_batches(&vec![]).is_empty());
}
