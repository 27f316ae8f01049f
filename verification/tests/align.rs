use blog_os::allocator::{align_up, checked_align_up, is_power_of_two};

#[test]
fn align_up_keeps_aligned_addresses() {
    assert_eq!(align_up(0, 8), 0);
    assert_eq!(align_up(16, 8), 16);
    assert_eq!(align_up(4096, 4096), 4096);
    assert_eq!(align_up(7, 1), 7);
}

#[test]
fn align_up_rounds_to_next_multiple() {
    assert_eq!(align_up(1, 8), 8);
    assert_eq!(align_up(9, 8), 16);
    assert_eq!(align_up(15, 16), 16);
    assert_eq!(align_up(17, 16), 32);
    assert_eq!(align_up(0x4444_4444_0001, 4096), 0x4444_4444_1000);
}

#[test]
fn align_up_reaches_the_last_multiple_of_the_address_space() {
    let last = usize::MAX - 7;
    assert_eq!(align_up(last, 8), last);
    assert_eq!(align_up(last - 3, 8), last);
}

#[test]
fn checked_align_up_agrees_with_align_up_in_range() {
    for addr in 0..200usize {
        for shift in 0..7u32 {
            let align = 1usize << shift;
            let expected = if addr % align == 0 { addr } else { addr - addr % align + align };
            assert_eq!(checked_align_up(addr, align), Some(expected));
            assert_eq!(align_up(addr, align), expected);
        }
    }
}

#[test]
fn checked_align_up_reports_overflow() {
    assert_eq!(checked_align_up(usize::MAX, 8), None);
    assert_eq!(checked_align_up(usize::MAX - 6, 8), None);
    assert_eq!(checked_align_up(usize::MAX - 7, 8), Some(usize::MAX - 7));
    assert_eq!(checked_align_up(usize::MAX, 1), Some(usize::MAX));
    assert_eq!(checked_align_up(usize::MAX / 2 + 2, usize::MAX / 2 + 1), None);
}

#[test]
fn is_power_of_two_tells_powers_from_the_rest() {
    assert!(!is_power_of_two(0));
    for shift in 0..usize::BITS {
        let power = 1usize << shift;
        assert!(is_power_of_two(power));
        if power > 2 {
            assert!(!is_power_of_two(power - 1));
            assert!(!is_power_of_two(power + 1));
        }
    }
    assert!(!is_power_of_two(12));
    assert!(!is_power_of_two(usize::MAX));
}
