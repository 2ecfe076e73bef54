use crate::apint::ApInt;
use crate::apint::utils::ZipDataAccess;
use crate::errors::Error;
use crate::errors::ErrorKindView;
use crate::errors::ErrorView;
use crate::limbs::lemma_limbs_single;
use crate::ll;
use crate::model::lemma_pow2_half;
use crate::model::signed_value;
use vstd::prelude::*;

verus! {

impl ApInt {
    /// Whether this value is below `rhs`, both read as unsigned;
    /// `UnmatchingBitWidths` where the widths differ.
    pub fn checked_ult(&self, rhs: &ApInt) -> (r: Result<bool, Error>)
        requires
            self.wf(),
            rhs.wf(),
        ensures
            self@.width != rhs@.width ==> r is Err && r->Err_0@ == ErrorView::plain(
                ErrorKindView::UnmatchingBitWidths(self@.width, rhs@.width),
            ),
            self@.width == rhs@.width ==> r == Ok::<bool, Error>(self@.value < rhs@.value),
    {
        match self.zip_access_data(rhs) {
            Err(e) => Err(e),
            Ok(ZipDataAccess::Inl(lhs, rhs)) => {
                proof {
                    lemma_limbs_single(lhs);
                    lemma_limbs_single(rhs);
                }
                Ok(lhs.less_than(rhs))
            },
            Ok(ZipDataAccess::Ext(lhs, rhs)) => Ok(ll::less_than_digits(lhs, rhs)),
        }
    }

    /// Whether this value is below `rhs`, both read as signed in two's
    /// complement; `UnmatchingBitWidths` where the widths differ.
    pub fn checked_slt(&self, rhs: &ApInt) -> (r: Result<bool, Error>)
        requires
            self.wf(),
            rhs.wf(),
        ensures
            self@.width != rhs@.width ==> r is Err && r->Err_0@ == ErrorView::plain(
                ErrorKindView::UnmatchingBitWidths(self@.width, rhs@.width),
            ),
            self@.width == rhs@.width ==> r == Ok::<bool, Error>(
                signed_value(self@.value, self@.width) < signed_value(rhs@.value, rhs@.width),
            ),
    {
        let below = match self.checked_ult(rhs) {
            Ok(below) => below,
            Err(e) => {
                return Err(e);
            },
        };
        let lhs_negative = self.most_significant_bit().to_bool();
        let rhs_negative = rhs.most_significant_bit().to_bool();
        proof {
            lemma_pow2_half(self@.width);
        }
        if lhs_negative != rhs_negative {
            Ok(lhs_negative)
        } else {
            Ok(below)
        }
    }
}

} // verus!
