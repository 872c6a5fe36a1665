//! What the library takes from proptest: the test runner, its rejection
//! reasons and its variable-size bit set.

use proptest::bits::BitSetLike;
use proptest::bits::VarBitSet;
use proptest::test_runner::Reason;
use proptest::test_runner::TestRunner;
use vstd::prelude::*;
use vstd::set_lib::set_int_range;

verus! {

#[verifier::external_type_specification]
#[verifier::external_body]
pub struct ExTestRunner(proptest::test_runner::TestRunner);

#[verifier::external_type_specification]
#[verifier::external_body]
pub struct ExReason(proptest::test_runner::Reason);

#[verifier::external_type_specification]
#[verifier::external_body]
pub struct ExVarBitSet(proptest::bits::VarBitSet);

/// The indices whose bits are set in a `VarBitSet`.
pub uninterp spec fn bits_of(b: VarBitSet) -> Set<int>;

/// Relies on `VarBitSet::saturated`: a bit set holding every index below `len`.
pub assume_specification[ proptest::bits::VarBitSet::saturated ](len: usize) -> (r: VarBitSet)
    ensures
        bits_of(r) == set_int_range(0, len as int),
;

/// Relies on `BitSetLike::test` for `VarBitSet`: whether the bit at `ix` is set.
#[verifier::external_body]
pub(crate) fn bit_test(bits: &VarBitSet, ix: usize) -> (r: bool)
    ensures
        r == bits_of(*bits).contains(ix as int),
{
    bits.test(ix)
}

/// Relies on `BitSetLike::set` for `VarBitSet`: the bit at `ix` becomes set.
#[verifier::external_body]
pub(crate) fn bit_set(bits: &mut VarBitSet, ix: usize)
    ensures
        bits_of(*final(bits)) == bits_of(*old(bits)).insert(ix as int),
{
    bits.set(ix)
}

/// Relies on `BitSetLike::clear` for `VarBitSet`: the bit at `ix` becomes clear.
#[verifier::external_body]
pub(crate) fn bit_clear(bits: &mut VarBitSet, ix: usize)
    ensures
        bits_of(*final(bits)) == bits_of(*old(bits)).remove(ix as int),
{
    bits.clear(ix)
}

/// Relies on `BitSetLike::count` for `VarBitSet`: the number of set bits.
#[verifier::external_body]
pub(crate) fn bit_count(bits: &VarBitSet) -> (r: usize)
    ensures
        bits_of(*bits).finite() ==> r == bits_of(*bits).len(),
{
    bits.count()
}

/// Relies on `proptest::num::sample_uniform_incl` on `usize`: a value drawn from
/// the closed range `[low, high]`. It panics when `low > high`.
#[verifier::external_body]
pub(crate) fn sample_size(runner: &mut TestRunner, low: usize, high: usize) -> (r: usize)
    requires
        low <= high,
    ensures
        low <= r <= high,
{
    proptest::num::sample_uniform_incl(runner, low, high)
}

/// Relies on `TestRunner::reject_local`: counts one local rejection from
/// `whence`, and fails once the runner's limit of local rejections is reached.
#[verifier::external_body]
pub(crate) fn reject_local(runner: &mut TestRunner, whence: &'static str) -> (r: Result<(), Reason>) {
    runner.reject_local(whence)
}

} // verus!
