use std::cmp;

use dlmalloc::Dlmalloc;

/// A small deterministic generator for the stress runs.
struct Lcg(u64);

impl Lcg {
    fn next(&mut self) -> u64 {
        self.0 = self.0.wrapping_mul(6364136223846793005).wrapping_add(1442695040888963407);
        self.0 >> 33
    }

    fn below(&mut self, n: usize) -> usize {
        (self.next() % n as u64) as usize
    }

    fn range(&mut self, lo: usize, hi: usize) -> usize {
        lo + self.below(hi - lo)
    }

    fn chance(&mut self, one_in: u64) -> bool {
        self.next() % one_in == 0
    }
}

#[test]
fn smoke() {
    let mut a = Dlmalloc::new();
    let ptr = a.malloc(1, 1);
    assert_ne!(ptr, 0);
    assert!(a.write(ptr, 0, 9));
    assert_eq!(a.read(ptr, 0), Some(9));
    a.free(ptr, 1, 1);

    let ptr = a.malloc(1, 1);
    assert_ne!(ptr, 0);
    assert!(a.write(ptr, 0, 10));
    assert_eq!(a.read(ptr, 0), Some(10));
    a.free(ptr, 1, 1);
}

#[test]
fn stress() {
    let mut a = Dlmalloc::new();
    let mut rng = Lcg(0x5eed);
    let mut ptrs: Vec<(usize, usize, usize)> = Vec::new();
    for _ in 0..50_000 {
        let free = !ptrs.is_empty() && ((ptrs.len() < 10_000 && rng.chance(3)) || rng.chance(2));
        if free {
            let idx = rng.below(ptrs.len());
            let (ptr, size, align) = ptrs.swap_remove(idx);
            a.free(ptr, size, align);
            continue;
        }

        if !ptrs.is_empty() && rng.chance(100) {
            let idx = rng.below(ptrs.len());
            let (ptr, size, align) = ptrs.swap_remove(idx);
            let new_size = if rng.chance(2) {
                rng.range(size, size * 2)
            } else if size > 10 {
                rng.range(size / 2, size)
            } else {
                ptrs.push((ptr, size, align));
                continue;
            };
            let keep = cmp::min(size, new_size);
            let before = a.read_bytes(ptr, keep).unwrap();
            let ptr = a.realloc(ptr, size, align, new_size);
            assert_ne!(ptr, 0);
            assert_eq!(a.read_bytes(ptr, keep).unwrap(), before);
            ptrs.push((ptr, new_size, align));
        }

        let size = if rng.chance(2) {
            rng.range(1, 128)
        } else {
            rng.range(1, 128 * 1024)
        };
        let align = if rng.chance(10) {
            1 << rng.range(3, 8)
        } else {
            8
        };

        let zero = rng.chance(50);
        let ptr = if zero {
            a.calloc(size, align)
        } else {
            a.malloc(size, align)
        };
        assert_ne!(ptr, 0);
        assert_eq!(ptr % align, 0);
        if zero {
            assert!(a.read_bytes(ptr, size).unwrap().iter().all(|b| *b == 0));
        }
        a.fill(ptr, 0xce, size);
        ptrs.push((ptr, size, align));
    }
    for (ptr, size, align) in ptrs {
        a.free(ptr, size, align);
    }
}
