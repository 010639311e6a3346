use vstd::prelude::*;

verus! {

/// The value an expanded spaced seed mask has after the blocks for bit
/// positions above `i` have been laid down: each set bit of the source
/// mask becomes a block of `factor` ones.
/// A block of `factor` one bits, the unit a set mask bit expands to.
pub open spec fn spec_block(factor: u64) -> u64 {
    if factor >= 64 {
        u64::MAX
    } else {
        ((1u64 << factor) - 1) as u64
    }
}

pub open spec fn spec_expand_from(mask: u64, factor: u64, i: int) -> u64
    recommends
        0 < factor <= 64,
    decreases 64int / (factor as int) - i,
    when 0 < factor <= 64 && 0 <= i <= 64int / (factor as int)
{
    if i < 0 || factor == 0 || factor > 64 || i >= 64int / (factor as int) {
        0
    } else {
        (if factor == 64 {
            0u64
        } else {
            spec_expand_from(mask, factor, i + 1) << factor
        }) | (if (mask >> i as u64) & 1 == 1 {
            spec_block(factor)
        } else {
            0
        })
    }
}

/// The expanded form of a spaced seed mask: every bit becomes a block of
/// `bit_expansion_factor` copies. A factor of 0 or more than 64 expands
/// nothing and returns the mask unchanged.
pub open spec fn spec_expand_mask(mask: u64, factor: u64) -> u64 {
    if factor == 0 || factor > 64 {
        mask
    } else {
        spec_expand_from(mask, factor, 0)
    }
}

/// Expands a spaced seed mask based on the given bit expansion factor.
pub fn expand_spaced_seed_mask(spaced_seed_mask: u64, bit_expansion_factor: u64) -> (r: u64)
    ensures
        r == spec_expand_mask(spaced_seed_mask, bit_expansion_factor),
{
    if bit_expansion_factor == 0 || bit_expansion_factor > 64 {
        return spaced_seed_mask;
    }
    let factor = bit_expansion_factor;
    let top = 64 / factor;
    let bits: u64 = if factor == 64 {
        u64::MAX
    } else {
        proof {
            assert((1u64 << factor) >= 1) by (bit_vector)
                requires
                    0 < factor < 64u64,
            ;
        }
        (1u64 << factor) - 1
    };
    let mut new_mask: u64 = 0;
    let mut i: u64 = top;
    while i > 0
        invariant
            0 < factor <= 64,
            top == 64int / (factor as int),
            i <= top,
            bits == spec_block(factor),
            new_mask == spec_expand_from(spaced_seed_mask, factor, i as int),
        decreases i,
    {
        i = i - 1;
        let shifted: u64 = if factor == 64 {
            0
        } else {
            new_mask << factor
        };
        let block: u64 = if (spaced_seed_mask >> i) & 1 == 1 {
            bits
        } else {
            0
        };
        new_mask = shifted | block;
    }
    new_mask
}

/// Fallback bound on the number of simultaneously open files, used when
/// the platform's real limit cannot be queried. Shard and chunk handles
/// are budgeted against this bound, so a run degrades to fewer open files
/// rather than failing.
pub fn get_file_limit() -> (r: usize)
    ensures
        r == 8192,
{
    8192
}

/// Fallback cap on raising the open-file budget where the platform offers
/// no way to change it: the request is accepted unchanged.
pub fn set_fd_limit(_new_limit: u64) -> (r: bool)
    ensures
        r,
{
    true
}

/// Whether shard or sample part numbers are exactly 1, 2, ... in order:
/// required before a set of numbered files is folded, so a missing part is
/// detected rather than silently skipped.
pub fn check_contiguous(keys: &Vec<u64>) -> (r: bool)
    ensures
        r <==> (forall|i: int| 0 <= i < keys@.len() ==> #[trigger] keys@[i] == i + 1),
{
    let n = keys.len();
    let mut i: usize = 0;
    while i < n
        invariant
            n == keys@.len(),
            i <= n,
            forall|k: int| 0 <= k < i ==> #[trigger] keys@[k] == k + 1,
        decreases n - i,
    {
        if keys[i] != (i as u64) + 1 {
            return false;
        }
        i = i + 1;
    }
    true
}

} // verus!
