//! A bit vector of the `boolvec` crate, as a sequence of booleans.

use vstd::prelude::*;
use boolvec::BoolVec;

verus! {

/// `boolvec::BoolVec`, a vector of booleans that keeps eight of them in a byte. The
/// verifier sees nothing inside it; `bools` names what it holds.
#[verifier::external_type_specification]
#[verifier::external_body]
pub struct ExBoolVec(BoolVec);

/// The booleans that a bit vector holds, in order.
pub uninterp spec fn bools(v: BoolVec) -> Seq<bool>;

/// Calls `BoolVec::filled_with`: a bit vector whose booleans all equal `value`.
/// It holds `count` booleans, or eight more where `count` is a positive multiple of
/// eight, as `filled_with` always appends one more byte to `count / 8` whole bytes.
#[verifier::external_body]
pub(crate) fn filled_with(count: usize, value: bool) -> (v: BoolVec)
    requires
        count <= usize::MAX - 8,
    ensures
        bools(v).len() == (if count > 0 && count % 8 == 0 {
            count + 8
        } else {
            count as int
        }),
        forall|i: int| 0 <= i < bools(v).len() ==> bools(v)[i] == value,
{
    BoolVec::filled_with(count, value)
}

/// Calls `BoolVec::get`: the boolean at `nth`, or `None` past the end.
#[verifier::external_body]
pub(crate) fn get_bit(v: &BoolVec, nth: usize) -> (r: Option<bool>)
    ensures
        r == (if nth < bools(*v).len() {
            Some(bools(*v)[nth as int])
        } else {
            None
        }),
{
    v.get(nth)
}

/// Calls `BoolVec::set`, which panics past the end: the boolean at `nth` becomes
/// `value`, the others stay.
#[verifier::external_body]
pub(crate) fn set_bit(v: &mut BoolVec, nth: usize, value: bool)
    requires
        nth < bools(*old(v)).len(),
    ensures
        bools(*final(v)) == bools(*old(v)).update(nth as int, value),
{
    v.set(nth, value)
}

} // verus!
