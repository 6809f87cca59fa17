use atlas_mem::align::align_up;

fn rounded_by_remainder(addr: usize, align: usize) -> usize {
    let rem = addr % align;
    if rem == 0 {
        addr
    } else {
        addr - rem + align
    }
}

#[test]
fn align_up_exact_values() {
    assert_eq!(align_up(0, 8), 0);
    assert_eq!(align_up(1, 8), 8);
    assert_eq!(align_up(8, 8), 8);
    assert_eq!(align_up(9, 8), 16);
    assert_eq!(align_up(4097, 4096), 8192);
    assert_eq!(align_up(13, 1), 13);
}

#[test]
fn align_up_matches_remainder_rounding() {
    for shift in 0..12u32 {
        let align = 1usize << shift;
        for addr in 0..3000usize {
            let r = align_up(addr, align);
            assert_eq!(r, rounded_by_remainder(addr, align));
            assert!(r >= addr);
            assert!(r < addr + align);
            assert_eq!(r % align, 0);
        }
    }
}

#[test]
fn align_up_near_the_top_of_the_address_space() {
    let top = usize::MAX - 7;
    assert_eq!(align_up(top, 8), top);
    assert_eq!(align_up(top - 3, 8), top);
}
