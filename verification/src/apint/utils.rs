use crate::apint::ApInt;
use crate::apint::ApIntData;
use crate::bitwidth::BitWidth;
use crate::bitwidth::required_digits;
use crate::digit::Bit;
use crate::digit::Digit;
use crate::errors::Error;
use crate::errors::ErrorKindView;
use crate::errors::ErrorView;
use crate::limbs::lemma_limbs_bound;
use crate::limbs::lemma_limbs_mask_top;
use crate::limbs::lemma_weight;
use crate::limbs::limbs_value;
use crate::limbs::weight;
use crate::model::bit_length;
use crate::model::lemma_bit_length;
use crate::model::lemma_bit_length_bounds;
use crate::storage::Storage;
use vstd::arithmetic::div_mod::lemma_small_mod;
use vstd::arithmetic::power2::lemma_pow2_adds;
use vstd::arithmetic::power2::lemma_pow2_strictly_increases;
use vstd::arithmetic::power2::pow2;
use vstd::prelude::*;

verus! {

/// Read access to the digits of a value, by the way they are held.
pub(crate) enum DataAccess<'a> {
    Inl(Digit),
    Ext(&'a [Digit]),
}

/// Write access to the digits of a value, by the way they are held.
pub(crate) enum DataAccessMut<'a> {
    Inl(&'a mut Digit),
    Ext(&'a mut [Digit]),
}

/// Read access to the digits of two values of one width.
pub(crate) enum ZipDataAccess<'a, 'b> {
    Inl(Digit, Digit),
    Ext(&'a [Digit], &'b [Digit]),
}

/// Write access to the digits of a value together with read access to
/// those of another of the same width.
pub(crate) enum ZipDataAccessMut<'a, 'b> {
    Inl(&'a mut Digit, Digit),
    Ext(&'a mut [Digit], &'b [Digit]),
}

impl ApInt {
    /// The width of this value in bits.
    pub fn len_bits(&self) -> (r: usize)
        ensures
            r == self@.width,
    {
        self.len.to_usize()
    }

    /// The number of digits that hold this value.
    pub fn len_digits(&self) -> (r: usize)
        requires
            self.wf_shape(),
        ensures
            r == required_digits(self@.width),
            r == self.digits().len(),
    {
        self.len.required_blocks()
    }

    /// Whether this value is held inline or on the heap.
    pub fn storage(&self) -> (r: Storage)
        requires
            self.wf_shape(),
        ensures
            r == self.spec_storage(),
    {
        self.len.storage()
    }

    /// Read access to the digits, by the way they are held.
    pub(crate) fn access_data(&self) -> (r: DataAccess<'_>)
        requires
            self.wf_shape(),
        ensures
            match r {
                DataAccess::Inl(d) => self.spec_storage() == Storage::Inl && self.digits() == seq![d],
                DataAccess::Ext(v) => self.spec_storage() == Storage::Ext && self.digits() == v@,
            },
    {
        match &self.data {
            ApIntData::Inl(d) => DataAccess::Inl(*d),
            ApIntData::Ext(v) => DataAccess::Ext(v.as_slice()),
        }
    }

    /// Write access to the digits, by the way they are held. The width and
    /// the way of holding stay as they are, whatever is written.
    pub(crate) fn access_data_mut(&mut self) -> (r: DataAccessMut<'_>)
        ensures
            final(self).spec_width() == old(self).spec_width(),
            final(self).spec_storage() == old(self).spec_storage(),
            match r {
                DataAccessMut::Inl(d) => old(self).spec_storage() == Storage::Inl && old(
                    self,
                ).digits() == seq![*d] && final(self).digits() == seq![*final(d)],
                DataAccessMut::Ext(v) => old(self).spec_storage() == Storage::Ext && old(
                    self,
                ).digits() == v@ && final(self).digits() == final(v)@,
            },
    {
        match &mut self.data {
            ApIntData::Inl(d) => DataAccessMut::Inl(d),
            ApIntData::Ext(v) => DataAccessMut::Ext(v.as_mut_slice()),
        }
    }

    /// Read access to the digits of `self` and `other` together;
    /// `UnmatchingBitWidths` where their widths differ.
    pub(crate) fn zip_access_data<'a, 'b>(&'a self, other: &'b ApInt) -> (r: Result<
        ZipDataAccess<'a, 'b>,
        Error,
    >)
        requires
            self.wf_shape(),
            other.wf_shape(),
        ensures
            self@.width != other@.width ==> r is Err && r->Err_0@ == ErrorView::plain(
                ErrorKindView::UnmatchingBitWidths(self@.width, other@.width),
            ),
            self@.width == other@.width ==> r is Ok && match r->Ok_0 {
                ZipDataAccess::Inl(l, r) => self.spec_storage() == Storage::Inl && self.digits()
                    == seq![l] && other.digits() == seq![r],
                ZipDataAccess::Ext(l, r) => self.spec_storage() == Storage::Ext && self.digits()
                    == l@ && other.digits() == r@,
            },
    {
        if self.len_bits() != other.len_bits() {
            return Err(Error::unmatching_bitwidths(self.len_bits(), other.len_bits()));
        }
        match (&self.data, &other.data) {
            (ApIntData::Inl(l), ApIntData::Inl(r)) => Ok(ZipDataAccess::Inl(*l, *r)),
            (ApIntData::Ext(l), ApIntData::Ext(r)) => Ok(
                ZipDataAccess::Ext(l.as_slice(), r.as_slice()),
            ),
            (ApIntData::Inl(_), ApIntData::Ext(_)) => unreached(),
            (ApIntData::Ext(_), ApIntData::Inl(_)) => unreached(),
        }
    }

    /// Write access to the digits of `self` together with read access to
    /// those of `other`; `UnmatchingBitWidths`, with `self` untouched, where
    /// their widths differ. This is the one place where the widths of two
    /// operands are compared.
    pub(crate) fn zip_access_data_mut<'a, 'b>(&'a mut self, other: &'b ApInt) -> (r: Result<
        ZipDataAccessMut<'a, 'b>,
        Error,
    >)
        requires
            old(self).wf_shape(),
            other.wf_shape(),
        ensures
            final(self).spec_width() == old(self).spec_width(),
            final(self).spec_storage() == old(self).spec_storage(),
            old(self)@.width != other@.width ==> r is Err && r->Err_0@ == ErrorView::plain(
                ErrorKindView::UnmatchingBitWidths(old(self)@.width, other@.width),
            ) && final(self).digits() == old(self).digits(),
            old(self)@.width == other@.width ==> r is Ok && match r->Ok_0 {
                ZipDataAccessMut::Inl(l, r) => old(self).spec_storage() == Storage::Inl && old(
                    self,
                ).digits() == seq![*l] && other.digits() == seq![r] && final(self).digits()
                    == seq![*final(l)],
                ZipDataAccessMut::Ext(l, r) => old(self).spec_storage() == Storage::Ext && old(
                    self,
                ).digits() == l@ && other.digits() == r@ && final(self).digits() == final(l)@,
            },
    {
        if self.len_bits() != other.len_bits() {
            return Err(Error::unmatching_bitwidths(self.len_bits(), other.len_bits()));
        }
        match (&mut self.data, &other.data) {
            (ApIntData::Inl(l), ApIntData::Inl(r)) => Ok(ZipDataAccessMut::Inl(l, *r)),
            (ApIntData::Ext(l), ApIntData::Ext(r)) => Ok(
                ZipDataAccessMut::Ext(l.as_mut_slice(), r.as_slice()),
            ),
            (ApIntData::Inl(_), ApIntData::Ext(_)) => unreached(),
            (ApIntData::Ext(_), ApIntData::Inl(_)) => unreached(),
        }
    }

    /// The digits of this value, the least significant first.
    pub fn as_digit_slice(&self) -> (r: &[Digit])
        ensures
            r@ == self.digits(),
    {
        match &self.data {
            ApIntData::Inl(d) => core::slice::from_ref(d),
            ApIntData::Ext(v) => v.as_slice(),
        }
    }

    /// The digits of this value for writing, the least significant first.
    /// The width and the way of holding stay as they are, whatever is
    /// written.
    pub(crate) fn as_digit_slice_mut(&mut self) -> (r: &mut [Digit])
        ensures
            r@ == old(self).digits(),
            final(self).spec_width() == old(self).spec_width(),
            final(self).spec_storage() == old(self).spec_storage(),
            final(self).digits() == final(r)@,
    {
        match &mut self.data {
            ApIntData::Inl(d) => core::slice::from_mut(d),
            ApIntData::Ext(v) => v.as_mut_slice(),
        }
    }

    /// The most significant digit for writing.
    pub(crate) fn most_significant_digit_mut(&mut self) -> (r: &mut Digit)
        requires
            old(self).digits().len() >= 1,
        ensures
            *r == old(self).digits().last(),
            final(self).spec_width() == old(self).spec_width(),
            final(self).spec_storage() == old(self).spec_storage(),
            final(self).digits() == old(self).digits().update(
                old(self).digits().len() - 1,
                *final(r),
            ),
    {
        match &mut self.data {
            ApIntData::Inl(d) => {
                proof {
                    assert(seq![*final(d)] =~= seq![*d].update(0, *final(d)));
                }
                d
            },
            ApIntData::Ext(v) => {
                let n = v.len();
                &mut v[n - 1]
            },
        }
    }

    /// The most significant digit.
    pub fn most_significant_digit(&self) -> (r: Digit)
        requires
            self.wf_shape(),
        ensures
            r == self.digits().last(),
    {
        match self.access_data() {
            DataAccess::Inl(d) => d,
            DataAccess::Ext(v) => v[v.len() - 1],
        }
    }

    /// Whether this value is zero.
    pub fn is_zero(&self) -> (r: bool)
        requires
            self.wf_shape(),
        ensures
            r == (self@.value == 0),
    {
        let n = self.digit_count();
        let mut i: usize = 0;
        while i < n
            invariant
                i <= n,
                n == self.digits().len(),
                forall|k: int| 0 <= k < i ==> (#[trigger] self.digits()[k]).0 == 0,
            decreases n - i,
        {
            if !self.digit_at(i).is_zero() {
                proof {
                    if self@.value == 0 {
                        crate::limbs::lemma_limbs_zero_converse(self.digits());
                    }
                }
                return false;
            }
            i += 1;
        }
        proof {
            crate::limbs::lemma_limbs_zero(self.digits());
        }
        true
    }

    /// Clears the bits of the top digit that lie above the width, and so
    /// reduces the value modulo `2^width`. Where they are clear already,
    /// nothing changes: a second call in a row is without effect.
    pub fn clear_unused_bits(&mut self)
        requires
            old(self).wf_shape(),
        ensures
            final(self).wf(),
            final(self).spec_width() == old(self).spec_width(),
            final(self)@.value == old(self)@.value % pow2(old(self)@.width),
            old(self).wf() ==> final(self).digits() == old(self).digits(),
    {
        let bits = self.len.excess_bits();
        let ghost before = self.digits();
        let ghost w = self@.width;
        proof {
            if self.wf() {
                lemma_small_mod(limbs_value(before), pow2(w));
            }
        }
        if bits == 0 {
            proof {
                lemma_limbs_bound(before);
                assert(64 * required_digits(w) == w);
                lemma_small_mod(limbs_value(before), pow2(w));
            }
            return ;
        }
        proof {
            vstd::arithmetic::power2::lemma_pow2_pos(w);
            vstd::arithmetic::div_mod::lemma_mod_bound(limbs_value(before) as int, pow2(w) as int);
        }
        let top = self.most_significant_digit_mut();
        let _ = top.retain_last_n(bits);
        proof {
            let after = before.update(before.len() - 1, *top);
            lemma_limbs_mask_top(before, bits as nat, *top);
            assert(64 * (before.len() - 1) + bits == w);
            if limbs_value(before) < pow2(w) {
                crate::limbs::lemma_limbs_injective(before, after);
            }
        }
    }
}

impl ApInt {
    /// The most significant bit, which signed operations read as the sign:
    /// it is set exactly where the value is at least `2^(width - 1)`.
    pub fn most_significant_bit(&self) -> (r: Bit)
        requires
            self.wf(),
        ensures
            r == Bit::of(self@.value >= pow2((self@.width - 1) as nat)),
            r == Bit::of(crate::model::signed_value(self@.value, self@.width) < 0),
    {
        let top = self.most_significant_digit();
        let pos = (self.len_bits() - 1) % 64;
        proof {
            let w = self@.width;
            crate::limbs::lemma_limbs_bit(self.digits(), (w - 1) as nat);
            crate::limbs::lemma_top_bit(self@.value, w);
            assert(((w - 1) / 64) as int == self.digits().len() - 1);
            crate::model::lemma_pow2_half(w);
        }
        match top.get(pos) {
            Ok(bit) => bit,
            Err(_) => unreached(),
        }
    }
}

impl ApInt {
    /// Whether this value meets the invariant of the type. Every value
    /// that this library hands out does; code that is not verified may ask
    /// before it relies on it.
    pub fn is_well_formed(&self) -> (r: bool)
        ensures
            r == self.wf(),
    {
        let bits = self.len.to_usize();
        if bits == 0 {
            return false;
        }
        let count = self.len.required_blocks();
        let shape = match &self.data {
            ApIntData::Inl(_) => bits <= 64,
            ApIntData::Ext(v) => bits > 64 && v.len() == count,
        };
        if !shape {
            return false;
        }
        let excess = self.len.excess_bits();
        if excess == 0 {
            proof {
                lemma_limbs_bound(self.digits());
                assert(64 * required_digits(self@.width) == self@.width);
            }
            return true;
        }
        let top = self.most_significant_digit();
        let mut masked = top;
        let _ = masked.retain_last_n(excess);
        proof {
            let digits = self.digits();
            let w = self@.width;
            let after = digits.update(digits.len() - 1, masked);
            lemma_limbs_mask_top(digits, excess as nat, masked);
            assert(64 * (digits.len() - 1) + excess == w);
            vstd::arithmetic::power2::lemma_pow2_pos(w);
            vstd::arithmetic::div_mod::lemma_mod_bound(limbs_value(digits) as int, pow2(w) as int);
            if limbs_value(digits) < pow2(w) {
                lemma_small_mod(limbs_value(digits), pow2(w));
                crate::limbs::lemma_limbs_injective(digits, after);
                assert(after[digits.len() - 1] == masked);
            }
            if masked == top {
                assert(after =~= digits);
            }
        }
        masked.0 == top.0
    }
}

impl ApInt {
    /// The number of bits of this value: the least `k` with
    /// `value < 2^k`.
    pub fn required_bits(&self) -> (k: usize)
        requires
            self.wf(),
        ensures
            k == bit_length(self@.value),
            k <= self@.width,
    {
        let digits = self.as_digit_slice();
        let n = digits.len();
        let mut top: usize = n - 1;
        while top > 0 && digits[top].is_zero()
            invariant
                top < n,
                n == digits@.len(),
                forall|k: int| top < k < n ==> (#[trigger] digits@[k]).0 == 0,
            decreases top,
        {
            top -= 1;
        }
        let d = digits[top];
        let used = 64 - d.leading_zeros() as usize;
        proof {
            let w = self@.width;
            let v = self@.value;
            let t = top as int;
            let wt = weight(top as nat) as int;
            let low = limbs_value(digits@.take(t)) as int;
            crate::limbs::lemma_limbs_split(digits@, t + 1);
            crate::limbs::lemma_limbs_step(digits@, t);
            crate::limbs::lemma_limbs_zero(digits@.skip(t + 1));
            lemma_limbs_bound(digits@.take(t));
            lemma_weight(top as nat);
            assert(weight((top + 1) as nat) * 0 == 0);
            assert(v == low + d.0 * wt);
            lemma_bit_length_bounds(d.0 as nat);
            lemma_bit_length_bounds(v);
            let bl = used as nat;
            if d.0 == 0 {
                assert(top == 0);
                assert(d.0 * wt == 0) by (nonlinear_arith)
                    requires
                        d.0 == 0,
                ;
            } else {
                lemma_pow2_adds(64 * (top as nat), bl);
                lemma_pow2_adds(64 * (top as nat), (bl - 1) as nat);
                let hi = pow2(bl) as int;
                let lo = pow2((bl - 1) as nat) as int;
                assert(low + d.0 * wt < wt * hi) by (nonlinear_arith)
                    requires
                        0 <= low < wt,
                        d.0 + 1 <= hi,
                ;
                assert(low + d.0 * wt >= wt * lo) by (nonlinear_arith)
                    requires
                        0 <= low,
                        d.0 >= lo,
                        wt >= 0,
                ;
                lemma_bit_length(v, 64 * (top as nat) + bl);
            }
            // the number of bits is at most the width
            let k = bit_length(v);
            if k > w {
                if w < k - 1 {
                    lemma_pow2_strictly_increases(w, (k - 1) as nat);
                }
                assert(false);
            }
        }
        64 * top + used
    }

    /// This value at the width `target`: with zeros above where `target`
    /// is the wider, and cut to the lowest `target` bits where it is the
    /// narrower.
    pub fn with_width(&self, target: BitWidth) -> (r: ApInt)
        requires
            self.wf(),
            target.wf(),
        ensures
            r.wf(),
            r.spec_width() == target,
            r@.value == self@.value % pow2(target.bits()),
    {
        let mut r = ApInt::zero(target);
        let src = self.as_digit_slice();
        let n_src = src.len();
        let n_dst = target.required_blocks();
        let m = if n_src < n_dst {
            n_src
        } else {
            n_dst
        };
        let ghost before = r.digits();
        let mut i: usize = 0;
        proof {
            crate::limbs::lemma_limbs_zero_converse(before);
        }
        while i < m
            invariant
                i <= m,
                m <= n_src,
                m <= n_dst,
                n_src == src@.len(),
                n_dst == r.digits().len(),
                r.wf_shape(),
                r.spec_width() == target,
                forall|k: int| 0 <= k < i ==> r.digits()[k] == src@[k],
                forall|k: int| i <= k < n_dst ==> (#[trigger] r.digits()[k]).0 == 0,
            decreases m - i,
        {
            r.set_digit(i, src[i]);
            i += 1;
        }
        proof {
            let dst = r.digits();
            let mi = m as int;
            let w = target.bits();
            let v = limbs_value(src@) as int;
            let e = (64 * n_dst - w) as nat;
            assert(w + e == 64 * n_dst);
            crate::limbs::lemma_limbs_split(dst, mi);
            crate::limbs::lemma_limbs_split(src@, mi);
            crate::limbs::lemma_limbs_zero(dst.skip(mi));
            lemma_limbs_bound(src@.take(mi));
            assert(dst.take(mi) =~= src@.take(mi));
            assert(weight(m as nat) * 0 == 0) by (nonlinear_arith);
            if n_src > n_dst {
                // the digits that are left out weigh a multiple of `2^(64 m)`
                let hi = limbs_value(src@.skip(mi)) as int;
                crate::model::lemma_wrap_multiple(limbs_value(dst) as int, hi, w, e);
                assert(weight(m as nat) * hi == hi * pow2(w + e)) by (nonlinear_arith)
                    requires
                        weight(m as nat) == pow2(w + e),
                ;
            } else {
                assert(src@.skip(mi) =~= Seq::<Digit>::empty());
            }
        }
        r.clear_unused_bits();
        r
    }
}

} // verus!
