//! The two rotation sorters, checked against a plain sort of the rotations.

use bzip2_verified::blocksort::{fallbackSort, mainSort, FTAB_LEN};

/// Pseudo-random text over a small alphabet, with repeats.
fn text(seed: u64, n: usize, alphabet: u8) -> Vec<u8> {
    let mut x = seed;
    let mut out = Vec::with_capacity(n);
    while out.len() < n {
        x = x.wrapping_mul(6364136223846793005).wrapping_add(1442695040888963407);
        let b = b'a' + ((x >> 33) % alphabet as u64) as u8;
        let run = 1 + ((x >> 45) % 4) as usize;
        for _ in 0..run {
            if out.len() < n {
                out.push(b);
            }
        }
    }
    out
}

fn rotations_sorted(block: &[u8]) -> Vec<u32> {
    let n = block.len();
    let mut idx: Vec<u32> = (0..n as u32).collect();
    idx.sort_by(|&a, &b| {
        for k in 0..n {
            let ca = block[(a as usize + k) % n];
            let cb = block[(b as usize + k) % n];
            if ca != cb {
                return ca.cmp(&cb);
            }
        }
        std::cmp::Ordering::Equal
    });
    idx
}

fn bwt(block: &[u8], order: &[u32]) -> Vec<u8> {
    let n = block.len();
    order.iter().map(|&p| block[(p as usize + n - 1) % n]).collect()
}

#[test]
fn main_sort_orders_the_rotations() {
    let block = text(3, 20000, 5);
    let n = block.len();
    let mut ptr = vec![0u32; n];
    let mut blk = block.clone();
    blk.extend(std::iter::repeat(0u8).take(34));
    let mut quadrant = vec![0u16; n + 34];
    let mut ftab = vec![0u32; FTAB_LEN];
    let mut budget: i64 = (n as i64) * 9;
    mainSort(&mut ptr, &mut blk, &mut quadrant, &mut ftab, n as i32, &mut budget);
    assert!(budget >= 0, "the main sort ran out of budget on an ordinary text");
    let expected = rotations_sorted(&block);
    assert_eq!(bwt(&block, &ptr), bwt(&block, &expected));
    let mut seen = ptr.clone();
    seen.sort();
    assert_eq!(seen, (0..n as u32).collect::<Vec<u32>>());
}

#[test]
fn main_sort_gives_up_on_a_repetitive_block() {
    let block: Vec<u8> = b"ab".iter().cycle().take(30000).cloned().collect();
    let n = block.len();
    let mut ptr = vec![0u32; n];
    let mut blk = block.clone();
    blk.extend(std::iter::repeat(0u8).take(34));
    let mut quadrant = vec![0u16; n + 34];
    let mut ftab = vec![0u32; FTAB_LEN];
    let mut budget: i64 = (n as i64) * 9;
    mainSort(&mut ptr, &mut blk, &mut quadrant, &mut ftab, n as i32, &mut budget);
    assert!(budget < 0);
}

#[test]
fn main_sort_orders_a_block_of_one_byte() {
    let block = vec![b'x'; 30000];
    let n = block.len();
    let mut ptr = vec![0u32; n];
    let mut blk = block.clone();
    blk.extend(std::iter::repeat(0u8).take(34));
    let mut quadrant = vec![0u16; n + 34];
    let mut ftab = vec![0u32; FTAB_LEN];
    let mut budget: i64 = (n as i64) * 9;
    mainSort(&mut ptr, &mut blk, &mut quadrant, &mut ftab, n as i32, &mut budget);
    assert!(budget >= 0);
    let mut seen = ptr.clone();
    seen.sort();
    assert_eq!(seen, (0..n as u32).collect::<Vec<u32>>());
}

#[test]
fn fallback_sort_orders_the_rotations() {
    let block = text(11, 3000, 3);
    let n = block.len();
    let mut fmap = vec![0u32; n];
    let mut eclass = vec![0u32; n];
    let mut bhtab = vec![0u32; FTAB_LEN];
    fallbackSort(&mut fmap, &mut eclass, &mut bhtab, &block, n);
    let expected = rotations_sorted(&block);
    assert_eq!(bwt(&block, &fmap), bwt(&block, &expected));
}

#[test]
fn main_sort_orders_short_blocks() {
    for (seed, n) in [(5u64, 8usize), (6, 9), (7, 20), (8, 33), (9, 50), (10, 100)] {
        let block = text(seed, n, 3);
        let mut ptr = vec![0u32; n];
        let mut blk = block.clone();
        blk.extend(std::iter::repeat(0u8).take(34));
        let mut quadrant = vec![0u16; n + 34];
        let mut ftab = vec![0u32; FTAB_LEN];
        let mut budget: i64 = (n as i64) * 9 + 1000;
        mainSort(&mut ptr, &mut blk, &mut quadrant, &mut ftab, n as i32, &mut budget);
        assert!(budget >= 0);
        assert_eq!(&blk[..n], &block[..]);
        for k in 0..34 {
            assert_eq!(blk[n + k], blk[k]);
        }
        let expected = rotations_sorted(&block);
        assert_eq!(bwt(&block, &ptr), bwt(&block, &expected));
        let mut seen = ptr.clone();
        seen.sort();
        assert_eq!(seen, (0..n as u32).collect::<Vec<u32>>());
    }
}
