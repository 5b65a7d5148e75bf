//! Finality-aware fork choice between two candidate tips.
use crate::blockchain::Block;
use crate::ordmap::{bytes_equal, bytes_lt, compare_bytes, KeyOrder};
use vstd::prelude::*;

verus! {

#[derive(Debug, Clone, Copy, PartialEq, Eq, Structural)]
pub enum ForkChoiceError {
    FinalityViolation,
}

/// Chooses between two candidate tips: the higher one, or at equal height the one with
/// the smaller identifier; two different blocks at or below the finalized height are
/// never selectable.
pub fn choose_tip<'a>(a: &'a Block, b: &'a Block, finalized_height: Option<u64>) -> (r: Result<
    &'a Block,
    ForkChoiceError,
>)
    ensures
        (a.height == b.height && a.id@ != b.id@ && (finalized_height matches Some(h) && a.height
            <= h)) ==> r == Err::<&Block, ForkChoiceError>(ForkChoiceError::FinalityViolation),
        !(a.height == b.height && a.id@ != b.id@ && (finalized_height matches Some(h) && a.height
            <= h)) ==> r == Ok::<&Block, ForkChoiceError>(
            if a.height > b.height {
                a
            } else if b.height > a.height {
                b
            } else if !bytes_lt(b.id@, a.id@) {
                a
            } else {
                b
            },
        ),
{
    if a.height == b.height && !bytes_equal(a.id.as_slice(), b.id.as_slice()) {
        match finalized_height {
            Some(h) => {
                if a.height <= h {
                    return Err(ForkChoiceError::FinalityViolation);
                }
            },
            None => {},
        }
    }
    if a.height > b.height {
        Ok(a)
    } else if b.height > a.height {
        Ok(b)
    } else if compare_bytes(a.id.as_slice(), b.id.as_slice()) != KeyOrder::After {
        Ok(a)
    } else {
        Ok(b)
    }
}

} // verus!
