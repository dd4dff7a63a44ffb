use vstd::prelude::*;

verus! {

/// The shape of an RLWE parameter set that the wire formats depend on:
/// the ring dimension and the number of CRT moduli a polynomial in NTT
/// form is stored over.
#[derive(Clone, Copy, Debug)]
pub struct NttLayout {
    pub poly_len: usize,
    pub crt_count: usize,
}

impl NttLayout {
    /// Number of `u64` words of a `rows x cols` polynomial matrix in NTT form.
    pub open spec fn spec_ntt_words(self, rows: int, cols: int) -> int {
        rows * cols * self.poly_len * self.crt_count
    }

    /// Whether the word count, computed left to right as
    /// `rows * cols * poly_len * crt_count`, stays within `usize` at every step.
    pub open spec fn ntt_words_fit(self, rows: int, cols: int) -> bool {
        &&& rows * cols <= usize::MAX
        &&& rows * cols * self.poly_len <= usize::MAX
        &&& rows * cols * self.poly_len * self.crt_count <= usize::MAX
    }

    /// Number of `u64` words of a `rows x cols` matrix in NTT form, or `None`
    /// when a step of that product leaves `usize`.
    pub fn ntt_words(&self, rows: usize, cols: usize) -> (res: Option<usize>)
        ensures
            match res {
                Some(w) => self.ntt_words_fit(rows as int, cols as int) && w == self.spec_ntt_words(
                    rows as int,
                    cols as int,
                ),
                None => !self.ntt_words_fit(rows as int, cols as int),
            },
    {
        let a = match rows.checked_mul(cols) {
            Some(a) => a,
            None => return None,
        };
        let b = match a.checked_mul(self.poly_len) {
            Some(b) => b,
            None => return None,
        };
        match b.checked_mul(self.crt_count) {
            Some(c) => Some(c),
            None => None,
        }
    }
}

} // verus!
