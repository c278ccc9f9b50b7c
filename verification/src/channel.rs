//! Making a queue for a given type of message.

use crate::buffer::Buffer;
use crate::consumer::Consumer;
use crate::math;
use crate::producer::Producer;
use crate::slot_ptr::SlotPtr;
use vstd::prelude::*;

verus! {

/// The size of a cache line, in bytes.
pub const CACHE_LINE_SIZE: usize = 64;

/// Why a queue cannot be made.
#[derive(Debug, PartialEq, Eq, Structural)]
pub enum ChannelError {
    /// A message does not fit in a cache line.
    ElementTooLarge,
    /// Messages take no space.
    ZeroSizedElement,
    /// The capacity is not a power of two.
    CapacityNotPowerOfTwo,
    /// The capacity is less than four cache lines.
    CapacityTooSmall,
}

/// `usize::is_power_of_two` returns whether its argument is two to the power of
/// some natural number.
pub assume_specification[ usize::is_power_of_two ](x: usize) -> (answer: bool)
    ensures
        answer == math::is_power_of_two(x as int),
;

/// What is wrong with messages of `element_size` bytes in a queue of `capacity`
/// slots, if anything.
pub open spec fn layout_error(element_size: int, capacity: int) -> Option<ChannelError> {
    if element_size > CACHE_LINE_SIZE {
        Some(ChannelError::ElementTooLarge)
    } else if element_size == 0 {
        Some(ChannelError::ZeroSizedElement)
    } else if !math::is_power_of_two(capacity) {
        Some(ChannelError::CapacityNotPowerOfTwo)
    } else if capacity < 4 * (CACHE_LINE_SIZE as int / element_size) {
        Some(ChannelError::CapacityTooSmall)
    } else {
        None
    }
}

/// A queue can be made if and only if the messages take space and fit in a line
/// of 64 bytes, and the capacity is a power of two and at least four lines.
pub proof fn law_queue_can_be_made(element_size: int, capacity: int)
    requires
        0 <= element_size,
    ensures
        layout_error(element_size, capacity) is None <==> {
            &&& 0 < element_size <= 64
            &&& exists|k: nat| #[trigger] vstd::arithmetic::power2::pow2(k) == capacity
            &&& 4 * (64int / element_size) <= capacity
        },
{
    math::law_power_of_two(capacity);
}

/// What is told to be wrong is wrong, and what is told first comes first: the
/// size of a message, then the power of two, then the room for four lines.
pub proof fn law_layout_error(element_size: int, capacity: int)
    requires
        0 <= element_size,
    ensures
        layout_error(element_size, capacity) == Some(ChannelError::ElementTooLarge)
            <==> element_size > 64,
        layout_error(element_size, capacity) == Some(ChannelError::ZeroSizedElement)
            <==> element_size == 0,
        layout_error(element_size, capacity) == Some(ChannelError::CapacityNotPowerOfTwo) <==> {
            &&& 0 < element_size <= 64
            &&& !exists|k: nat| #[trigger] vstd::arithmetic::power2::pow2(k) == capacity
        },
        layout_error(element_size, capacity) == Some(ChannelError::CapacityTooSmall) <==> {
            &&& 0 < element_size <= 64
            &&& exists|k: nat| #[trigger] vstd::arithmetic::power2::pow2(k) == capacity
            &&& capacity < 4 * (64int / element_size)
        },
{
    math::law_power_of_two(capacity);
}

/// If some capacity is accepted for a type of message, every larger power of two
/// is.
pub proof fn law_larger_queue_can_be_made(element_size: int, capacity: int, k: nat)
    requires
        0 <= element_size,
        layout_error(element_size, capacity) is None,
        capacity <= vstd::arithmetic::power2::pow2(k),
    ensures
        layout_error(element_size, vstd::arithmetic::power2::pow2(k) as int) is None,
{
    law_queue_can_be_made(element_size, capacity);
    law_queue_can_be_made(element_size, vstd::arithmetic::power2::pow2(k) as int);
}

/// If some type of message is accepted for a capacity, so is every larger one that
/// fits in a line.
pub proof fn law_larger_messages_can_be_sent(element_size: int, larger: int, capacity: int)
    requires
        0 <= element_size <= larger <= 64,
        layout_error(element_size, capacity) is None,
    ensures
        layout_error(larger, capacity) is None,
{
    law_queue_can_be_made(element_size, capacity);
    law_queue_can_be_made(larger, capacity);
    vstd::arithmetic::div_mod::lemma_div_is_ordered_by_denominator(64, element_size, larger);
}

/// How many messages of `element_size` bytes go in a cache line, if a queue of
/// `capacity` slots can be made for them.
pub fn elements_per_cache_line(element_size: usize, capacity: usize) -> (count: Result<
    usize,
    ChannelError,
>)
    ensures
        count == match layout_error(element_size as int, capacity as int) {
            Some(error) => Err(error),
            None => Ok((CACHE_LINE_SIZE as int / element_size as int) as usize),
        },
        count is Ok <==> {
            &&& 0 < element_size <= 64
            &&& exists|k: nat| #[trigger] vstd::arithmetic::power2::pow2(k) == capacity
            &&& 4 * (64int / element_size as int) <= capacity
        },
        count matches Ok(n) ==> n * element_size <= 64 < (n + 1) * element_size,
{
    if element_size > CACHE_LINE_SIZE {
        return Err(ChannelError::ElementTooLarge);
    }
    if element_size == 0 {
        return Err(ChannelError::ZeroSizedElement);
    }
    let elements: usize = CACHE_LINE_SIZE / element_size;
    proof {
        vstd::arithmetic::div_mod::lemma_div_nonincreasing(
            CACHE_LINE_SIZE as int,
            element_size as int,
        );
        vstd::arithmetic::div_mod::lemma_fundamental_div_mod(64, element_size as int);
        assert(elements * element_size <= 64 < (elements + 1) * element_size) by (nonlinear_arith)
            requires
                64 == element_size * elements + 64int % (element_size as int),
                0 <= 64int % (element_size as int) < element_size,
        ;
    }
    if !capacity.is_power_of_two() {
        return Err(ChannelError::CapacityNotPowerOfTwo);
    }
    if capacity < 4 * elements {
        return Err(ChannelError::CapacityTooSmall);
    }
    Ok(elements)
}

/// Makes an empty queue of `capacity` slots for messages of type `T`, `N` of
/// which go in a cache line.
pub fn channel<T, const N: usize>(capacity: usize) -> (made: Result<
    (Buffer<T, N>, Producer<T, N>, Consumer<T, N>),
    ChannelError,
>)
    requires
        0 < vstd::layout::size_of::<T>() <= CACHE_LINE_SIZE ==> N == CACHE_LINE_SIZE as int
            / vstd::layout::size_of::<T>() as int,
    ensures
        made is Ok <==> {
            &&& 0 < vstd::layout::size_of::<T>() <= 64
            &&& exists|k: nat| #[trigger] vstd::arithmetic::power2::pow2(k) == capacity
            &&& 4 * N <= capacity
        },
        match layout_error(vstd::layout::size_of::<T>() as int, capacity as int) {
            Some(error) => made == Err::<
                (Buffer<T, N>, Producer<T, N>, Consumer<T, N>),
                ChannelError,
            >(error),
            None => {
                &&& made is Ok
                &&& made->Ok_0.0.capacity == capacity
                &&& made->Ok_0.0.cl_mask == capacity / N - 1
                &&& made->Ok_0.0.slots@ == Seq::new(
                    (capacity / N * N) as nat,
                    |i: int| None::<T>,
                )
                &&& made->Ok_0.0.head == 0
                &&& made->Ok_0.0.tail == made->Ok_0.0.cl_mask
                &&& made->Ok_0.0.interruptions@.len() == 0
                &&& made->Ok_0.0.log@ == crate::log::Log::<T>::empty()
                &&& made->Ok_0.1.slot_ptr == (SlotPtr { cl_index: 0, cl_offset: 0 })
                &&& made->Ok_0.1.cached_cl_read == made->Ok_0.2.slot_ptr
                &&& made->Ok_0.2.slot_ptr == (SlotPtr {
                    cl_index: made->Ok_0.0.cl_mask,
                    cl_offset: N,
                })
                &&& made->Ok_0.2.cached_cl_write == made->Ok_0.2.slot_ptr
                &&& math::is_power_of_two(N as int) ==> {
                    &&& made->Ok_0.1.wf(&made->Ok_0.0)
                    &&& made->Ok_0.2.wf(&made->Ok_0.0)
                    &&& made->Ok_0.0.free() == capacity - N
                }
            },
        },
{
    match elements_per_cache_line(core::mem::size_of::<T>(), capacity) {
        Ok(_) => {
            proof {
                vstd::arithmetic::div_mod::lemma_div_non_zero(
                    CACHE_LINE_SIZE as int,
                    vstd::layout::size_of::<T>() as int,
                );
            }
            Ok(Buffer::with_capacity(capacity))
        },
        Err(error) => Err(error),
    }
}

} // verus!
