use phrase_search::intersect::phase;
use phrase_search::roaringish::{is_well_formed, FIRST_GALLOP_INTERSECT};
use phrase_search::{
    Aligned, BorrowRoaringishPacked, GallopIntersectFirst, GallopIntersectSecond,
    NaiveIntersect, RoaringishPacked, SimdIntersect,
};

fn list(entries: &[(u32, &[u32])]) -> RoaringishPacked {
    let mut p = RoaringishPacked::new();
    for (d, ps) in entries {
        p.push(*d, ps);
    }
    p
}

/// Positions kept by the phrase intersection, computed position by position.
fn expected(l: &[(u32, &[u32])], r: &[(u32, &[u32])], n: u32) -> Vec<(u32, u32)> {
    let mut out = Vec::new();
    for (d, ps) in r {
        for p in ps.iter() {
            if *p >= n && l.iter().any(|(d2, ps2)| d2 == d && ps2.contains(&(p - n))) {
                out.push((*d, *p));
            }
        }
    }
    out
}

fn positions(p: &RoaringishPacked) -> Vec<(u32, u32)> {
    let mut out = Vec::new();
    for w in p.as_slice() {
        let d = (w >> 32) as u32;
        let g = ((w >> 16) & 0xFFFF) as u32;
        for b in 0..16 {
            if (w >> b) & 1 == 1 {
                out.push((d, g * 16 + b));
            }
        }
    }
    out
}

fn all_kernels(l: &RoaringishPacked, r: &RoaringishPacked, n: u32) -> Vec<RoaringishPacked> {
    let bl = BorrowRoaringishPacked::<Aligned>::new(l);
    let br = BorrowRoaringishPacked::<Aligned>::new(r);
    vec![
        bl.intersect::<NaiveIntersect>(br, n),
        bl.intersect::<GallopIntersectFirst>(br, n),
        bl.intersect::<GallopIntersectSecond>(br, n),
        bl.intersect::<SimdIntersect>(br, n),
    ]
}

#[test]
fn intersect_within_group() {
    let l: &[(u32, &[u32])] = &[(1, &[0, 4, 9]), (2, &[3])];
    let r: &[(u32, &[u32])] = &[(1, &[1, 5, 11]), (2, &[4])];
    for out in all_kernels(&list(l), &list(r), 1) {
        assert_eq!(positions(&out), expected(l, r, 1));
        assert_eq!(positions(&out), vec![(1, 1), (1, 5), (2, 4)]);
    }
}

#[test]
fn intersect_across_group_boundary() {
    let l: &[(u32, &[u32])] = &[(5, &[14, 15, 31])];
    let r: &[(u32, &[u32])] = &[(5, &[16, 17, 33])];
    for n in 1..4 {
        for out in all_kernels(&list(l), &list(r), n) {
            assert_eq!(positions(&out), expected(l, r, n), "distance {n}");
        }
    }
    let out = &all_kernels(&list(l), &list(r), 2)[0];
    assert_eq!(positions(out), vec![(5, 16), (5, 17), (5, 33)]);
}

#[test]
fn intersect_long_distance() {
    let l: &[(u32, &[u32])] = &[(1, &[0, 3, 40]), (2, &[100])];
    let r: &[(u32, &[u32])] = &[(1, &[17, 20, 57, 58]), (2, &[117, 118])];
    for out in all_kernels(&list(l), &list(r), 17) {
        assert_eq!(positions(&out), vec![(1, 17), (1, 20), (1, 57), (2, 117)]);
    }
}

#[test]
fn intersect_with_empty_side() {
    let empty = RoaringishPacked::new();
    let l = list(&[(1, &[1])]);
    for out in all_kernels(&empty, &l, 1) {
        assert!(out.is_empty());
    }
    for out in all_kernels(&l, &empty, 1) {
        assert!(out.is_empty());
    }
}

#[test]
fn intersect_skewed_lists_use_galloping() {
    let mut big: Vec<(u32, Vec<u32>)> = Vec::new();
    for d in 0..2000u32 {
        big.push((d, vec![d % 40, 50]));
    }
    let big_ref: Vec<(u32, &[u32])> = big.iter().map(|(d, p)| (*d, p.as_slice())).collect();
    let small: &[(u32, &[u32])] = &[(1500, &[2]), (1999, &[51])];
    let l = list(small);
    let r = list(&big_ref);
    assert!(r.len() / l.len() >= FIRST_GALLOP_INTERSECT);
    for out in all_kernels(&l, &r, 1) {
        assert_eq!(positions(&out), expected(small, &big_ref, 1));
    }
    let out = BorrowRoaringishPacked::<Aligned>::new(&r)
        .intersect::<NaiveIntersect>(BorrowRoaringishPacked::<Aligned>::new(&l), 1);
    assert_eq!(positions(&out), expected(&big_ref, small, 1));
}

#[test]
fn kernels_agree_on_many_lists() {
    let mut seed: u64 = 7;
    for _ in 0..50 {
        let mut ls: Vec<(u32, Vec<u32>)> = Vec::new();
        let mut rs: Vec<(u32, Vec<u32>)> = Vec::new();
        for d in 0..20u32 {
            for side in 0..2 {
                let mut ps = Vec::new();
                let mut p = 0u32;
                for _ in 0..12 {
                    seed = seed.wrapping_mul(6364136223846793005).wrapping_add(1442695040888963407);
                    p += ((seed >> 33) % 5) as u32;
                    ps.push(p);
                }
                ps.dedup();
                if (seed >> 20) % 3 != 0 {
                    if side == 0 {
                        ls.push((d, ps));
                    } else {
                        rs.push((d, ps));
                    }
                }
            }
        }
        let lr: Vec<(u32, &[u32])> = ls.iter().map(|(d, p)| (*d, p.as_slice())).collect();
        let rr: Vec<(u32, &[u32])> = rs.iter().map(|(d, p)| (*d, p.as_slice())).collect();
        for n in 1..4 {
            let outs = all_kernels(&list(&lr), &list(&rr), n);
            for out in &outs {
                assert!(is_well_formed(out.as_slice()));
                assert_eq!(out.as_slice(), outs[0].as_slice());
                assert_eq!(positions(out), expected(&lr, &rr, n));
            }
        }
    }
}

#[test]
fn doc_ids_scalar_and_blocked_agree() {
    let mut entries: Vec<(u32, Vec<u32>)> = Vec::new();
    for d in 0..30u32 {
        if d % 3 != 1 {
            entries.push((d * 2, vec![1, 20, 40 + d]));
        }
    }
    let er: Vec<(u32, &[u32])> = entries.iter().map(|(d, p)| (*d, p.as_slice())).collect();
    let p = list(&er);
    let b = BorrowRoaringishPacked::<Aligned>::new(&p);
    let ids = b.get_doc_ids();
    let want: Vec<u32> = entries.iter().map(|(d, _)| *d).collect();
    assert_eq!(ids, want);
    assert_eq!(b.get_doc_ids_simd(), want);
}

#[test]
fn doc_ids_of_small_lists() {
    let empty = RoaringishPacked::new();
    assert!(BorrowRoaringishPacked::<Aligned>::new(&empty).get_doc_ids().is_empty());
    assert!(BorrowRoaringishPacked::<Aligned>::new(&empty).get_doc_ids_simd().is_empty());
    let one = list(&[(42, &[1, 100])]);
    assert_eq!(BorrowRoaringishPacked::<Aligned>::new(&one).get_doc_ids(), vec![42]);
    assert_eq!(BorrowRoaringishPacked::<Aligned>::new(&one).get_doc_ids_simd(), vec![42]);
}

#[test]
fn simd_blocks_with_tails() {
    // lists long enough for several blocks, lengths not multiples of 8
    let mut ls: Vec<(u32, Vec<u32>)> = Vec::new();
    let mut rs: Vec<(u32, Vec<u32>)> = Vec::new();
    for d in 0..37u32 {
        ls.push((d, vec![d % 16, 15, 31, 47]));
        if d % 4 != 3 {
            rs.push((d, vec![(d % 16) + 1, 16, 17, 32, 48]));
        }
    }
    let lr: Vec<(u32, &[u32])> = ls.iter().map(|(d, p)| (*d, p.as_slice())).collect();
    let rr: Vec<(u32, &[u32])> = rs.iter().map(|(d, p)| (*d, p.as_slice())).collect();
    let l = list(&lr);
    let r = list(&rr);
    for n in 1..4 {
        let want = expected(&lr, &rr, n);
        let got = BorrowRoaringishPacked::<Aligned>::new(&l)
            .intersect::<SimdIntersect>(BorrowRoaringishPacked::<Aligned>::new(&r), n);
        assert_eq!(positions(&got), want, "distance {n}");
        let naive = BorrowRoaringishPacked::<Aligned>::new(&l)
            .intersect::<NaiveIntersect>(BorrowRoaringishPacked::<Aligned>::new(&r), n);
        assert_eq!(got.as_slice(), naive.as_slice());
    }
}

#[test]
fn phase_outputs() {
    // left positions 3, 14, 15 of document 1; right positions 4, 16
    let l = list(&[(1, &[3, 14, 15])]);
    let r = list(&[(1, &[4, 16]), (2, &[0])]);
    let (primary, carry) = phase::<NaiveIntersect>(true, l.as_slice(), r.as_slice(), 1);
    // one word for the common key (1, 0): bit 4 from left bit 3
    assert_eq!(primary, vec![(1u64 << 32) | (1 << 4)]);
    // the left word spills (bit 15 set): a carry word one group on, same bitmap
    assert_eq!(carry, vec![(1u64 << 32) | (1 << 16) | (1 << 3) | (1 << 14) | (1 << 15)]);
    let (second, empty) = phase::<NaiveIntersect>(false, &carry, r.as_slice(), 1);
    assert_eq!(second, vec![(1u64 << 32) | (1 << 16) | 1]);
    assert!(empty.is_empty());
    let (primary_simd, carry_simd) = phase::<SimdIntersect>(true, l.as_slice(), r.as_slice(), 1);
    assert_eq!(primary_simd, primary);
    assert_eq!(carry_simd, carry);
}
