use crate::word::{fits, valid_words, BasicTbitWord};
use vstd::arithmetic::div_mod::{lemma_fundamental_div_mod, lemma_mod_bound};
use vstd::prelude::*;

verus! {

/// Why a span cannot be used.
#[derive(Clone, Copy, Debug, PartialEq, Eq, Structural)]
pub enum SpanError {
    /// The span reaches past the end of the buffer, or its end is not addressable.
    OutOfBounds,
    /// A word of the buffer is not a well-formed encoding.
    InvalidWord,
}

/// Whether `end` symbols fit in `words` words of `size` symbols each.
fn end_fits(end: usize, words: usize, size: usize) -> (r: bool)
    requires
        size > 0,
    ensures
        r == (end <= words * size),
{
    let q = end / size;
    let rem = end % size;
    proof {
        let (e, w, z) = (end as int, words as int, size as int);
        lemma_fundamental_div_mod(e, z);
        lemma_mod_bound(e, z);
        if q < words {
            assert(e < w * z) by (nonlinear_arith)
                requires
                    e == z * (e / z) + e % z,
                    e % z < z,
                    e / z < w,
                    z > 0,
            ;
        } else if q > words {
            assert(e > w * z) by (nonlinear_arith)
                requires
                    e == z * (e / z) + e % z,
                    e % z >= 0,
                    e / z > w,
                    z > 0,
            ;
        }
    }
    q < words || (q == words && rem == 0)
}

/// Check a span of `n` symbols at offset `d` of the buffer before an operation
/// uses it: `Ok` exactly when every operation of this library may take it.
pub fn check_span<W: BasicTbitWord>(n: usize, d: usize, buf: &Vec<W>) -> (r: Result<
    (),
    SpanError,
>)
    ensures
        r is Ok <==> (fits::<W>(n, d, buf@.len()) && valid_words(buf@)),
        r == Err::<(), SpanError>(SpanError::OutOfBounds) <==> !fits::<W>(n, d, buf@.len()),
{
    let size = W::size();
    proof {
        W::lemma_alphabet();
    }
    let end = match d.checked_add(n) {
        Some(e) => e,
        None => {
            return Err(SpanError::OutOfBounds);
        },
    };
    if !end_fits(end, buf.len(), size) {
        return Err(SpanError::OutOfBounds);
    }
    let mut k: usize = 0;
    while k < buf.len()
        invariant
            k <= buf@.len(),
            fits::<W>(n, d, buf@.len()),
            forall|i: int| 0 <= i < k ==> #[trigger] W::valid_word(buf@[i]),
        decreases buf@.len() - k,
    {
        if !W::is_valid_word(buf[k]) {
            return Err(SpanError::InvalidWord);
        }
        k = k + 1;
    }
    Ok(())
}

} // verus!
