//! The laws of powers of two and of words.

use vstd::prelude::*;

verus! {

/// The powers of two are one and what doubling a power of two gives.
pub proof fn law_powers_of_two_double(n: int)
    ensures
        crate::internal::power::is_power_of_two(1),
        crate::internal::power::is_power_of_two(n) ==> n >= 1
            && crate::internal::power::is_power_of_two(2 * n),
        crate::internal::power::is_power_of_two(n) && n > 1 ==> n % 2 == 0
            && crate::internal::power::is_power_of_two(n / 2),
{
    vstd::arithmetic::power2::lemma2_to64();
    assert(1 == vstd::arithmetic::power2::pow2(0));
    if crate::internal::power::is_power_of_two(n) {
        let exponent = choose|exponent: nat| n == #[trigger] vstd::arithmetic::power2::pow2(exponent);
        vstd::arithmetic::power2::lemma_pow2_pos(exponent);
        vstd::arithmetic::power2::lemma_pow2_unfold(exponent + 1);
        assert(2 * n == vstd::arithmetic::power2::pow2(exponent + 1));
        if n > 1 {
            assert(exponent > 0);
            vstd::arithmetic::power2::lemma_pow2_unfold(exponent);
            assert(n / 2 == vstd::arithmetic::power2::pow2((exponent - 1) as nat));
        }
    }
}

/// A word has as many values as the platform gives it, and the positions of a ring come round after
/// half as many.
pub proof fn law_words_are_those_of_the_platform()
    ensures
        crate::internal::power::words() == usize::MAX + 1,
        2 * crate::mpsc::bounded::ring::laps() == usize::MAX + 1,
{
}

/// An optional box holds the value that was put in.
pub proof fn law_box_holds_its_value<T>(value: Box<T>)
    ensures
        crate::internal::atomic_option_box::boxed(Some(value)) == Some(*value),
        crate::internal::atomic_option_box::boxed(None::<Box<T>>) == None::<T>,
{
}

/// The sizes that the primitives are built with.
pub proof fn law_sizes_of_the_primitives()
    ensures
        crate::internal::once_table::SHARD_COUNT == 64,
        crate::once::table::SHARDS_PER_THREAD == 8,
        crate::once::ready_index::TARGET_ENTRIES_PER_BUCKET == 2,
        crate::internal::waker_batch::INLINE_CAPACITY == 32,
        crate::internal::atomic_snapshot::MIN_RECLAIM_BATCH == 32,
        crate::internal::atomic_arc::SPINS == 16,
        crate::mpsc::queue::POP_RETRIES == 8,
        crate::mpsc::bounded::capacity::SEQUENCE_STEP == 2,
        crate::mpsc::unbounded::queue::BLOCK_BYTES == 32 * 1024,
        crate::mpsc::unbounded::buffer::SEGMENT_BYTES == 32 * 1024,
        crate::mpsc::unbounded::batched::BATCH_CACHE_BYTES == 64 * 1024,
{
}

} // verus!
