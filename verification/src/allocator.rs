//! The kernel heap: three allocation strategies over one window of virtual
//! addresses, the lock that serialises access to the one in use, the boot
//! step that backs the window with memory, and the address arithmetic that
//! they share.

use vstd::arithmetic::div_mod::{
    lemma_fundamental_div_mod, lemma_fundamental_div_mod_converse, lemma_mod_breakdown,
};
use vstd::arithmetic::power2::is_pow2;
use vstd::prelude::*;

pub mod bootstrap;
pub mod bump;
pub mod fixed_size_block;
pub mod ledger;
pub mod linked_list;

verus! {

/// First address of the kernel's heap window. Any address will do that no
/// other use of virtual memory claims.
pub const HEAP_START: u64 = 0x_4444_4444_0000;

/// Bytes in the kernel's heap window: 100 KiB.
pub const HEAP_SIZE: u64 = 100 * 1024;

/// Why a request for memory was not granted.
#[derive(Debug, Clone, Copy, PartialEq, Eq, Structural)]
pub enum AllocError {
    /// No free memory of the size and alignment asked for is left.
    OutOfMemory,
}

/// A release that the allocator cannot accept: the address, size and
/// alignment cannot have come from a request that it granted.
#[derive(Debug, Clone, Copy, PartialEq, Eq, Structural)]
pub struct InvariantViolation;

/// `spin::Mutex`: a lock that is taken by spinning. Nothing is known of the
/// value inside it but its type.
#[verifier::external_type_specification]
#[verifier::external_body]
#[verifier::reject_recursive_types(T)]
pub struct ExMutex<T: ?Sized>(spin::Mutex<T>);

/// `spin::MutexGuard`: the proof that a `spin::Mutex` is held. The lock is
/// free again when the guard goes out of scope.
#[verifier::external_type_specification]
#[verifier::external_body]
#[verifier::reject_recursive_types(T)]
pub struct ExMutexGuard<'a, T: ?Sized + 'a>(spin::MutexGuard<'a, T>);

/// `spin::Mutex::new` wraps a value in a lock that is free. Nothing is
/// claimed of the result.
pub assume_specification<T>[ spin::Mutex::<T>::new ](user_data: T) -> (mutex: spin::Mutex<T>);

/// `spin::Mutex::lock` spins until the lock is free, takes it and returns
/// the guard. Nothing is claimed of the value behind the guard: whoever held
/// the lock before may have left any value of the type there. The call does
/// not return while the lock is held: a caller that holds a guard of the
/// same lock must let go of it first.
pub assume_specification<T: ?Sized>[ spin::Mutex::<T>::lock ](mutex: &spin::Mutex<T>) -> (guard:
    spin::MutexGuard<'_, T>);

/// The `deref_mut` of `spin::MutexGuard`: access to the value behind a held
/// lock. Nothing is claimed of the value.
#[verifier::external_body]
pub(crate) fn guarded<'a, 'b, T>(guard: &'b mut spin::MutexGuard<'a, T>) -> (value: &'b mut T) {
    &mut **guard
}

/// One allocator behind a lock, so that requests from several places take
/// their turns. The lock is held for the length of one request and no
/// longer.
#[verifier::reject_recursive_types(A)]
pub struct Locked<A> {
    inner: spin::Mutex<A>,
}

impl<A> Locked<A> {
    /// Puts `inner` behind a lock that is free.
    pub fn new(inner: A) -> Self {
        Locked { inner: spin::Mutex::new(inner) }
    }

    /// Takes the lock, waiting for it where it is held.
    pub fn lock(&self) -> spin::MutexGuard<'_, A> {
        self.inner.lock()
    }
}

/// Whether `addr` is a multiple of `align`.
pub open spec fn is_aligned(addr: int, align: int) -> bool {
    addr % align == 0
}

/// The least multiple of `align` that is not below `addr`.
pub open spec fn align_up_spec(addr: int, align: int) -> int {
    if addr % align == 0 {
        addr
    } else {
        addr - addr % align + align
    }
}

/// `align_up_spec` rounds upwards by less than one alignment step, lands on a
/// multiple of `align`, and no multiple of `align` lies between the address
/// and its rounding.
pub proof fn lemma_align_up_is_least_multiple(addr: int, align: int)
    requires
        0 <= addr,
        0 < align,
    ensures
        addr <= align_up_spec(addr, align) < addr + align,
        is_aligned(align_up_spec(addr, align), align),
        forall|m: int| addr <= m && #[trigger] is_aligned(m, align) ==> align_up_spec(addr, align) <= m,
{
    let r = align_up_spec(addr, align);
    lemma_fundamental_div_mod(addr, align);
    if addr % align != 0 {
        let q = addr / align;
        assert(r == (q + 1) * align + 0) by (nonlinear_arith)
            requires
                r == addr - addr % align + align,
                addr == align * q + addr % align,
        ;
        lemma_fundamental_div_mod_converse(r, align, q + 1, 0);
    }
    assert forall|m: int| addr <= m && #[trigger] is_aligned(m, align) implies r <= m by {
        if m < r {
            lemma_fundamental_div_mod(m, align);
            lemma_fundamental_div_mod(r, align);
            let qm = m / align;
            let qr = r / align;
            assert(false) by (nonlinear_arith)
                requires
                    m == align * qm,
                    r == align * qr,
                    m < r,
                    r < m + align,
                    0 < align,
            ;
        }
    }
}

/// For a power of two, masking with its predecessor takes the remainder.
proof fn lemma_mask_is_remainder(x: usize, align: usize)
    requires
        is_pow2(align as int),
    ensures
        x & ((align - 1) as usize) == x % align,
    decreases align,
{
    reveal(is_pow2);
    if align == 1 {
        assert(x & 0 == 0) by (bit_vector);
    } else {
        let half: usize = align / 2;
        let xh: usize = x / 2;
        lemma_mask_is_remainder(xh, half);
        assert(x & ((align - 1) as usize) == 2 * (xh & ((half - 1) as usize)) + x % 2)
            by (bit_vector)
            requires
                align >= 2,
                align % 2 == 0,
                half == align / 2,
                xh == x / 2,
        ;
        lemma_mod_breakdown(x as int, 2, half as int);
    }
}

/// Clearing the low bits of a sum equals the sum less what the mask keeps.
proof fn lemma_clear_low_bits(y: usize, m: usize)
    by (bit_vector)
    ensures
        y & !m == y - (y & m),
        y & m <= m,
{
}

/// Rounds `addr` up to the next multiple of `align`.
pub fn align_up(addr: usize, align: usize) -> (aligned: usize)
    requires
        is_pow2(align as int),
        align_up_spec(addr as int, align as int) <= usize::MAX,
    ensures
        aligned == align_up_spec(addr as int, align as int),
{
    proof {
        lemma_pow2_single_bit(align);
        lemma_align_up_leaves_room(addr, align);
    }
    let mask: usize = align - 1;
    let raised: usize = addr + mask;
    proof {
        lemma_mask_is_remainder(raised, align);
        lemma_clear_low_bits(raised, mask);
        lemma_round_down_of_raised(addr as int, align as int);
    }
    raised & !mask
}

/// A power of two is positive and shares no bit with its predecessor.
proof fn lemma_pow2_single_bit(align: usize)
    requires
        is_pow2(align as int),
    ensures
        align > 0,
        align & ((align - 1) as usize) == 0,
    decreases align,
{
    reveal(is_pow2);
    if align == 1 {
        assert(1usize & 0usize == 0) by (bit_vector);
    } else {
        let half: usize = align / 2;
        lemma_pow2_single_bit(half);
        assert(align & ((align - 1) as usize) == 0) by (bit_vector)
            requires
                align >= 2,
                align % 2 == 0,
                half == align / 2,
                half > 0,
                half & ((half - 1) as usize) == 0,
        ;
    }
}

/// Where a multiple of a power of two lies at or above `addr`, adding the
/// power's predecessor to `addr` does not leave the address space.
proof fn lemma_multiple_leaves_room(addr: usize, align: usize, multiple: usize)
    by (bit_vector)
    requires
        align > 0,
        align & ((align - 1) as usize) == 0,
        addr <= multiple,
        multiple & ((align - 1) as usize) == 0,
    ensures
        ((addr + (align - 1)) as usize) == addr + (align - 1),
{
}

/// Where rounding `addr` up to a multiple of a power of two stays in the
/// address space, so does adding the power's predecessor to `addr`.
proof fn lemma_align_up_leaves_room(addr: usize, align: usize)
    requires
        is_pow2(align as int),
        align_up_spec(addr as int, align as int) <= usize::MAX,
    ensures
        addr + (align - 1) <= usize::MAX,
{
    lemma_pow2_single_bit(align);
    lemma_align_up_is_least_multiple(addr as int, align as int);
    let multiple = align_up_spec(addr as int, align as int) as usize;
    lemma_mask_is_remainder(multiple, align);
    lemma_multiple_leaves_room(addr, align, multiple);
}

/// Rounds `addr` up to the next multiple of `align`, or reports that this
/// multiple lies beyond the address space.
pub fn checked_align_up(addr: usize, align: usize) -> (aligned: Option<usize>)
    requires
        is_pow2(align as int),
    ensures
        match aligned {
            Some(a) => a == align_up_spec(addr as int, align as int),
            None => align_up_spec(addr as int, align as int) > usize::MAX,
        },
{
    proof {
        lemma_pow2_single_bit(align);
        lemma_align_up_is_least_multiple(addr as int, align as int);
    }
    match addr.checked_add(align - 1) {
        Some(raised) => {
            let aligned = raised & !(align - 1);
            proof {
                lemma_mask_is_remainder(raised, align);
                lemma_clear_low_bits(raised, (align - 1) as usize);
                lemma_round_down_of_raised(addr as int, align as int);
            }
            Some(aligned)
        },
        None => {
            proof {
                if align_up_spec(addr as int, align as int) <= usize::MAX {
                    lemma_align_up_leaves_room(addr, align);
                }
            }
            None
        },
    }
}

/// A positive number that shares no bit with its predecessor is a power of
/// two.
proof fn lemma_single_bit_is_pow2(n: usize)
    requires
        n > 0,
        n & ((n - 1) as usize) == 0,
    ensures
        is_pow2(n as int),
    decreases n,
{
    reveal(is_pow2);
    if n > 1 {
        let half: usize = n / 2;
        assert(n % 2 == 0 && half > 0 && half & ((half - 1) as usize) == 0) by (bit_vector)
            requires
                n > 1,
                n & ((n - 1) as usize) == 0,
                half == n / 2,
        ;
        lemma_single_bit_is_pow2(half);
    }
}

/// Whether `n` is a power of two, and so can be asked for as an alignment.
pub fn is_power_of_two(n: usize) -> (power: bool)
    ensures
        power == is_pow2(n as int),
{
    if n == 0 {
        assert(!is_pow2(0)) by {
            reveal(is_pow2);
        }
        false
    } else {
        let power = n & (n - 1) == 0;
        proof {
            if power {
                lemma_single_bit_is_pow2(n);
            } else if is_pow2(n as int) {
                lemma_pow2_single_bit(n);
            }
        }
        power
    }
}

/// Subtracting from `addr + align - 1` its remainder rounds `addr` up.
proof fn lemma_round_down_of_raised(addr: int, align: int)
    requires
        0 <= addr,
        0 < align,
    ensures
        (addr + align - 1) - (addr + align - 1) % align == align_up_spec(addr, align),
{
    let y = addr + align - 1;
    lemma_fundamental_div_mod(addr, align);
    let q = addr / align;
    let rem = addr % align;
    if rem == 0 {
        assert(y == q * align + (align - 1)) by (nonlinear_arith)
            requires
                y == addr + align - 1,
                addr == align * q + rem,
                rem == 0,
        ;
        lemma_fundamental_div_mod_converse(y, align, q, align - 1);
    } else {
        assert(y == (q + 1) * align + (rem - 1)) by (nonlinear_arith)
            requires
                y == addr + align - 1,
                addr == align * q + rem,
        ;
        lemma_fundamental_div_mod_converse(y, align, q + 1, rem - 1);
    }
}

/// A multiple of a multiple of `small` is a multiple of `small`.
pub proof fn lemma_aligned_transitive(x: int, big: int, small: int)
    requires
        0 < small,
        0 < big,
        is_aligned(x, big),
        is_aligned(big, small),
    ensures
        is_aligned(x, small),
{
    lemma_fundamental_div_mod(x, big);
    lemma_fundamental_div_mod(big, small);
    let q = x / big;
    let p = big / small;
    assert(x == (q * p) * small + 0) by (nonlinear_arith)
        requires
            x == big * q,
            big == small * p,
    ;
    lemma_fundamental_div_mod_converse(x, small, q * p, 0);
}

/// A power of two below eight is one, two or four; every other is a multiple
/// of eight.
pub proof fn lemma_small_powers(align: int)
    requires
        is_pow2(align),
    ensures
        align >= 1,
        align < 8 ==> align == 1 || align == 2 || align == 4,
        align >= 8 ==> align % 8 == 0,
{
    reveal_with_fuel(is_pow2, 5);
}

/// Of two powers of two, the smaller divides the larger.
pub proof fn lemma_pow2_divides(small: int, big: int)
    requires
        is_pow2(small),
        is_pow2(big),
        small <= big,
    ensures
        is_aligned(big, small),
    decreases small,
{
    reveal(is_pow2);
    if small > 1 {
        lemma_pow2_divides(small / 2, big / 2);
        lemma_fundamental_div_mod(big / 2, small / 2);
        let q = (big / 2) / (small / 2);
        assert(big == q * small + 0) by (nonlinear_arith)
            requires
                big == 2 * (big / 2),
                small == 2 * (small / 2),
                big / 2 == (small / 2) * q,
        ;
        lemma_fundamental_div_mod_converse(big, small, q, 0);
    }
}

} // verus!
