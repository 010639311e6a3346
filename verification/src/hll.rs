use vstd::prelude::*;
use core::hash::{BuildHasher, BuildHasherDefault, Hash};
use std::collections::hash_map::DefaultHasher;
use hyperloglogplus::HyperLogLog;

verus! {

#[verifier::external_type_specification]
#[verifier::external_body]
#[verifier::reject_recursive_types(H)]
#[verifier::reject_recursive_types(B)]
pub struct ExHyperLogLogPlus<H: Hash + ?Sized, B: BuildHasher>(
    hyperloglogplus::HyperLogLogPlus<H, B>,
);

#[verifier::external_type_specification]
#[verifier::external_body]
#[verifier::reject_recursive_types(H)]
pub struct ExBuildHasherDefault<H>(BuildHasherDefault<H>);

/// The distinct-minimizer estimator: a HyperLogLog sketch over minimizer
/// hashes, with a fixed hasher so equal inputs build equal sketches.
pub type MinimizerSketch = hyperloglogplus::HyperLogLogPlus<
    u64,
    BuildHasherDefault<DefaultHasher>,
>;

/// The set of values a sketch has been fed (directly or through merges).
/// The sketch summarizes this set; its estimate approximates the set's
/// size.
pub uninterp spec fn sketch_items(h: MinimizerSketch) -> Set<u64>;

/// The precision parameter the sketch was created with.
pub uninterp spec fn sketch_precision(h: MinimizerSketch) -> u8;

/// The estimate `HyperLogLogPlus::count` computes from a sketch value.
/// The computation depends on the sketch alone — the crate carries its
/// own logarithm and works over fixed bias tables — so the same sketch
/// yields the same estimate in every process and on every machine.
pub uninterp spec fn sketch_estimate(h: MinimizerSketch) -> u64;

/// Relies on HyperLogLogPlus::new: a precision within [4, 18] is accepted
/// and yields an empty sketch of that precision.
#[verifier::external_body]
pub(crate) fn sketch_new(precision: u8) -> (h: MinimizerSketch)
    requires
        4 <= precision <= 18,
    ensures
        sketch_precision(h) == precision,
        sketch_items(h) == Set::<u64>::empty(),
{
    hyperloglogplus::HyperLogLogPlus::new(precision, BuildHasherDefault::default()).unwrap()
}

/// Relies on HyperLogLogPlus::insert_any: records one more value in the
/// sketch; the precision never changes.
#[verifier::external_body]
pub(crate) fn sketch_insert(h: &mut MinimizerSketch, item: u64)
    ensures
        sketch_precision(*final(h)) == sketch_precision(*old(h)),
        sketch_items(*final(h)) == sketch_items(*old(h)).insert(item),
{
    h.insert_any(&item)
}

/// Relies on HyperLogLogPlus::merge: with equal precisions it folds the
/// other sketch in (a register-wise maximum, summarizing the union of the
/// recorded sets) and returns Ok; it errs only on a precision mismatch.
#[verifier::external_body]
pub(crate) fn sketch_merge(h: &mut MinimizerSketch, other: &MinimizerSketch)
    requires
        sketch_precision(*old(h)) == sketch_precision(*other),
    ensures
        sketch_precision(*final(h)) == sketch_precision(*old(h)),
        sketch_items(*final(h)) == sketch_items(*old(h)).union(sketch_items(*other)),
{
    let _ = h.merge(other);
}

/// Relies on HyperLogLogPlus's derived Clone: the copy carries the same
/// precision and summarizes the same recorded set.
#[verifier::external_body]
pub(crate) fn sketch_clone(h: &MinimizerSketch) -> (r: MinimizerSketch)
    ensures
        sketch_precision(r) == sketch_precision(*h),
        sketch_items(r) == sketch_items(*h),
{
    h.clone()
}

/// Relies on HyperLogLogPlus::count: estimates the number of distinct
/// recorded values; a sketch that recorded nothing reports zero.
#[verifier::external_body]
pub(crate) fn sketch_count(h: &mut MinimizerSketch) -> (r: u64)
    ensures
        sketch_precision(*final(h)) == sketch_precision(*old(h)),
        sketch_items(*final(h)) == sketch_items(*old(h)),
        r == sketch_estimate(*old(h)),
        sketch_items(*old(h)).is_empty() ==> r == 0,
{
    h.count() as u64
}

} // verus!
