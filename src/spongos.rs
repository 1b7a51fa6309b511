use crate::word::{
    copy, equals, fits, get_tbit, lemma_valid_tbits_of, put_tbit, set_zero, splice, tbits_of,
    valid_tbits, valid_words, zeros, BasicTbitWord,
};
use vstd::prelude::*;

verus! {

/// The symbols of `ws` from offset `d` on, `n` of them.
pub open spec fn span_of<W: BasicTbitWord>(ws: Seq<W>, d: int, n: int) -> Seq<W::Tbit> {
    tbits_of(ws).subrange(d, d + n)
}

/// Symbol-wise sum `a[i] + b[i]`.
pub open spec fn sum_seq<W: SpongosTbitWord>(a: Seq<W::Tbit>, b: Seq<W::Tbit>) -> Seq<W::Tbit> {
    Seq::new(a.len(), |i: int| W::sum(a[i], b[i]))
}

/// Symbol-wise difference `a[i] - b[i]`.
pub open spec fn diff_seq<W: SpongosTbitWord>(a: Seq<W::Tbit>, b: Seq<W::Tbit>) -> Seq<
    W::Tbit,
> {
    Seq::new(a.len(), |i: int| W::diff(a[i], b[i]))
}

/// The symbol algebra of a sponge: addition and subtraction over the alphabet.
pub trait SpongosTbitWord: BasicTbitWord {
    /// `x + y`.
    spec fn sum(x: Self::Tbit, y: Self::Tbit) -> Self::Tbit;

    /// `x - y`.
    spec fn diff(x: Self::Tbit, y: Self::Tbit) -> Self::Tbit;

    /// Sums and differences stay in the alphabet, and subtracting what was added
    /// gives back the symbol.
    proof fn lemma_algebra(x: Self::Tbit, y: Self::Tbit)
        requires
            Self::valid_tbit(x),
            Self::valid_tbit(y),
        ensures
            Self::valid_tbit(Self::sum(x, y)),
            Self::valid_tbit(Self::diff(x, y)),
            Self::diff(Self::sum(x, y), y) == x,
    ;

    /// `x + y`.
    fn tbit_add(x: Self::Tbit, y: Self::Tbit) -> (r: Self::Tbit)
        requires
            Self::valid_tbit(x),
            Self::valid_tbit(y),
        ensures
            r == Self::sum(x, y),
    ;

    /// `x - y`.
    fn tbit_sub(x: Self::Tbit, y: Self::Tbit) -> (r: Self::Tbit)
        requires
            Self::valid_tbit(x),
            Self::valid_tbit(y),
        ensures
            r == Self::diff(x, y),
    ;
}

/// `s := s + x` over `n` symbols.
pub fn add<W: SpongosTbitWord>(ds: usize, s: &mut Vec<W>, n: usize, dx: usize, x: &Vec<W>)
    requires
        fits::<W>(n, ds, old(s)@.len()),
        fits::<W>(n, dx, x@.len()),
        valid_words(old(s)@),
        valid_words(x@),
    ensures
        final(s)@.len() == old(s)@.len(),
        valid_words(final(s)@),
        tbits_of(final(s)@) == splice(tbits_of(old(s)@), ds as int, sum_seq::<W>(span_of(old(s)@, ds as int, n as int), span_of(x@, dx as int, n as int))),
{
    let ghost s0 = tbits_of(old(s)@);
    let ghost ss = s0.subrange(ds as int, ds + n);
    let ghost x0 = tbits_of(x@);
    let ghost xs = x0.subrange(dx as int, dx + n);
    let ghost new_s = sum_seq::<W>(ss, xs);
    proof {
        lemma_valid_tbits_of::<W>(s@);
        lemma_valid_tbits_of::<W>(x@);
        assert(tbits_of(s@) =~= splice(s0, ds as int, new_s.subrange(0, 0)));
    }
    let mut i: usize = 0;
    while i < n
        invariant
            i <= n,
            ds + n <= s@.len() * W::width(),
            ds + n <= usize::MAX,
            valid_words(s@),
            valid_tbits::<W>(ss),
            ss == s0.subrange(ds as int, ds + n),
            s0.len() == s@.len() * W::width(),
            s@.len() == old(s)@.len(),
            dx + n <= x@.len() * W::width(),
            dx + n <= usize::MAX,
            valid_words(x@),
            valid_tbits::<W>(xs),
            xs == x0.subrange(dx as int, dx + n),
            x0.len() == x@.len() * W::width(),
            tbits_of(x@) == x0,
            new_s == sum_seq::<W>(ss, xs),
            tbits_of(s@) == splice(s0, ds as int, new_s.subrange(0, i as int)),
        decreases n - i,
    {
        proof {
            lemma_valid_tbits_of::<W>(s@);
            lemma_valid_tbits_of::<W>(x@);
        }
        let ts = get_tbit::<W>(ds + i, s);
        let tx = get_tbit::<W>(dx + i, x);
        proof {
            W::lemma_algebra(ts, tx);
        }
        let ty = W::tbit_add(ts, tx);
        put_tbit::<W>(ds + i, s, ty);
        i = i + 1;
        proof {
            assert(tbits_of(s@) =~= splice(s0, ds as int, new_s.subrange(0, i as int)));
        }
    }
    proof {
        assert(new_s.subrange(0, n as int) =~= new_s);
    }
}
/// `y := x + s`, `s := x`, `x := y` over `n` symbols: `x` is read and written.
pub fn setx_add_mut<W: SpongosTbitWord>(ds: usize, s: &mut Vec<W>, n: usize, dx: usize, x: &mut Vec<W>)
    requires
        fits::<W>(n, ds, old(s)@.len()),
        fits::<W>(n, dx, old(x)@.len()),
        valid_words(old(s)@),
        valid_words(old(x)@),
    ensures
        final(s)@.len() == old(s)@.len(),
        valid_words(final(s)@),
        final(x)@.len() == old(x)@.len(),
        valid_words(final(x)@),
        tbits_of(final(s)@) == splice(tbits_of(old(s)@), ds as int, span_of(old(x)@, dx as int, n as int)),
        tbits_of(final(x)@) == splice(tbits_of(old(x)@), dx as int, sum_seq::<W>(span_of(old(x)@, dx as int, n as int), span_of(old(s)@, ds as int, n as int))),
{
    let ghost s0 = tbits_of(old(s)@);
    let ghost ss = s0.subrange(ds as int, ds + n);
    let ghost x0 = tbits_of(old(x)@);
    let ghost xs = x0.subrange(dx as int, dx + n);
    let ghost new_s = xs;
    let ghost new_x = sum_seq::<W>(xs, ss);
    proof {
        lemma_valid_tbits_of::<W>(s@);
        lemma_valid_tbits_of::<W>(x@);
        assert(tbits_of(s@) =~= splice(s0, ds as int, new_s.subrange(0, 0)));
        assert(tbits_of(x@) =~= splice(x0, dx as int, new_x.subrange(0, 0)));
    }
    let mut i: usize = 0;
    while i < n
        invariant
            i <= n,
            ds + n <= s@.len() * W::width(),
            ds + n <= usize::MAX,
            valid_words(s@),
            valid_tbits::<W>(ss),
            ss == s0.subrange(ds as int, ds + n),
            s0.len() == s@.len() * W::width(),
            s@.len() == old(s)@.len(),
            dx + n <= x@.len() * W::width(),
            dx + n <= usize::MAX,
            valid_words(x@),
            valid_tbits::<W>(xs),
            xs == x0.subrange(dx as int, dx + n),
            x0.len() == x@.len() * W::width(),
            x@.len() == old(x)@.len(),
            new_s == xs,
            tbits_of(s@) == splice(s0, ds as int, new_s.subrange(0, i as int)),
            new_x == sum_seq::<W>(xs, ss),
            tbits_of(x@) == splice(x0, dx as int, new_x.subrange(0, i as int)),
        decreases n - i,
    {
        proof {
            lemma_valid_tbits_of::<W>(s@);
            lemma_valid_tbits_of::<W>(x@);
        }
        let ts = get_tbit::<W>(ds + i, s);
        let tx = get_tbit::<W>(dx + i, x);
        proof {
            W::lemma_algebra(tx, ts);
        }
        let ty = W::tbit_add(tx, ts);
        put_tbit::<W>(ds + i, s, tx);
        put_tbit::<W>(dx + i, x, ty);
        i = i + 1;
        proof {
            assert(tbits_of(s@) =~= splice(s0, ds as int, new_s.subrange(0, i as int)));
            assert(tbits_of(x@) =~= splice(x0, dx as int, new_x.subrange(0, i as int)));
        }
    }
    proof {
        assert(new_s.subrange(0, n as int) =~= new_s);
        assert(new_x.subrange(0, n as int) =~= new_x);
    }
}
/// `x := y - s`, `s := x`, `y := x` over `n` symbols: `y` is read and written.
pub fn setx_sub_mut<W: SpongosTbitWord>(ds: usize, s: &mut Vec<W>, n: usize, dy: usize, y: &mut Vec<W>)
    requires
        fits::<W>(n, ds, old(s)@.len()),
        fits::<W>(n, dy, old(y)@.len()),
        valid_words(old(s)@),
        valid_words(old(y)@),
    ensures
        final(s)@.len() == old(s)@.len(),
        valid_words(final(s)@),
        final(y)@.len() == old(y)@.len(),
        valid_words(final(y)@),
        tbits_of(final(s)@) == splice(tbits_of(old(s)@), ds as int, diff_seq::<W>(span_of(old(y)@, dy as int, n as int), span_of(old(s)@, ds as int, n as int))),
        tbits_of(final(y)@) == splice(tbits_of(old(y)@), dy as int, diff_seq::<W>(span_of(old(y)@, dy as int, n as int), span_of(old(s)@, ds as int, n as int))),
{
    let ghost s0 = tbits_of(old(s)@);
    let ghost ss = s0.subrange(ds as int, ds + n);
    let ghost y0 = tbits_of(old(y)@);
    let ghost ys = y0.subrange(dy as int, dy + n);
    let ghost new_s = diff_seq::<W>(ys, ss);
    let ghost new_y = diff_seq::<W>(ys, ss);
    proof {
        lemma_valid_tbits_of::<W>(s@);
        lemma_valid_tbits_of::<W>(y@);
        assert(tbits_of(s@) =~= splice(s0, ds as int, new_s.subrange(0, 0)));
        assert(tbits_of(y@) =~= splice(y0, dy as int, new_y.subrange(0, 0)));
    }
    let mut i: usize = 0;
    while i < n
        invariant
            i <= n,
            ds + n <= s@.len() * W::width(),
            ds + n <= usize::MAX,
            valid_words(s@),
            valid_tbits::<W>(ss),
            ss == s0.subrange(ds as int, ds + n),
            s0.len() == s@.len() * W::width(),
            s@.len() == old(s)@.len(),
            dy + n <= y@.len() * W::width(),
            dy + n <= usize::MAX,
            valid_words(y@),
            valid_tbits::<W>(ys),
            ys == y0.subrange(dy as int, dy + n),
            y0.len() == y@.len() * W::width(),
            y@.len() == old(y)@.len(),
            new_s == diff_seq::<W>(ys, ss),
            tbits_of(s@) == splice(s0, ds as int, new_s.subrange(0, i as int)),
            new_y == diff_seq::<W>(ys, ss),
            tbits_of(y@) == splice(y0, dy as int, new_y.subrange(0, i as int)),
        decreases n - i,
    {
        proof {
            lemma_valid_tbits_of::<W>(s@);
            lemma_valid_tbits_of::<W>(y@);
        }
        let ts = get_tbit::<W>(ds + i, s);
        let ty = get_tbit::<W>(dy + i, y);
        proof {
            W::lemma_algebra(ty, ts);
        }
        let tx = W::tbit_sub(ty, ts);
        put_tbit::<W>(ds + i, s, tx);
        put_tbit::<W>(dy + i, y, tx);
        i = i + 1;
        proof {
            assert(tbits_of(s@) =~= splice(s0, ds as int, new_s.subrange(0, i as int)));
            assert(tbits_of(y@) =~= splice(y0, dy as int, new_y.subrange(0, i as int)));
        }
    }
    proof {
        assert(new_s.subrange(0, n as int) =~= new_s);
        assert(new_y.subrange(0, n as int) =~= new_y);
    }
}
/// `y := x + s`, `s := x` over `n` symbols.
pub fn setx_add<W: SpongosTbitWord>(ds: usize, s: &mut Vec<W>, n: usize, dx: usize, x: &Vec<W>, dy: usize, y: &mut Vec<W>)
    requires
        fits::<W>(n, ds, old(s)@.len()),
        fits::<W>(n, dx, x@.len()),
        fits::<W>(n, dy, old(y)@.len()),
        valid_words(old(s)@),
        valid_words(x@),
        valid_words(old(y)@),
    ensures
        final(s)@.len() == old(s)@.len(),
        valid_words(final(s)@),
        final(y)@.len() == old(y)@.len(),
        valid_words(final(y)@),
        tbits_of(final(s)@) == splice(tbits_of(old(s)@), ds as int, span_of(x@, dx as int, n as int)),
        tbits_of(final(y)@) == splice(tbits_of(old(y)@), dy as int, sum_seq::<W>(span_of(x@, dx as int, n as int), span_of(old(s)@, ds as int, n as int))),
{
    let ghost s0 = tbits_of(old(s)@);
    let ghost ss = s0.subrange(ds as int, ds + n);
    let ghost x0 = tbits_of(x@);
    let ghost xs = x0.subrange(dx as int, dx + n);
    let ghost y0 = tbits_of(old(y)@);
    let ghost ys = y0.subrange(dy as int, dy + n);
    let ghost new_s = xs;
    let ghost new_y = sum_seq::<W>(xs, ss);
    proof {
        lemma_valid_tbits_of::<W>(s@);
        lemma_valid_tbits_of::<W>(x@);
        lemma_valid_tbits_of::<W>(y@);
        assert(tbits_of(s@) =~= splice(s0, ds as int, new_s.subrange(0, 0)));
        assert(tbits_of(y@) =~= splice(y0, dy as int, new_y.subrange(0, 0)));
    }
    let mut i: usize = 0;
    while i < n
        invariant
            i <= n,
            ds + n <= s@.len() * W::width(),
            ds + n <= usize::MAX,
            valid_words(s@),
            valid_tbits::<W>(ss),
            ss == s0.subrange(ds as int, ds + n),
            s0.len() == s@.len() * W::width(),
            s@.len() == old(s)@.len(),
            dx + n <= x@.len() * W::width(),
            dx + n <= usize::MAX,
            valid_words(x@),
            valid_tbits::<W>(xs),
            xs == x0.subrange(dx as int, dx + n),
            x0.len() == x@.len() * W::width(),
            tbits_of(x@) == x0,
            dy + n <= y@.len() * W::width(),
            dy + n <= usize::MAX,
            valid_words(y@),
            valid_tbits::<W>(ys),
            ys == y0.subrange(dy as int, dy + n),
            y0.len() == y@.len() * W::width(),
            y@.len() == old(y)@.len(),
            new_s == xs,
            tbits_of(s@) == splice(s0, ds as int, new_s.subrange(0, i as int)),
            new_y == sum_seq::<W>(xs, ss),
            tbits_of(y@) == splice(y0, dy as int, new_y.subrange(0, i as int)),
        decreases n - i,
    {
        proof {
            lemma_valid_tbits_of::<W>(s@);
            lemma_valid_tbits_of::<W>(x@);
            lemma_valid_tbits_of::<W>(y@);
        }
        let ts = get_tbit::<W>(ds + i, s);
        let tx = get_tbit::<W>(dx + i, x);
        proof {
            W::lemma_algebra(tx, ts);
        }
        let ty = W::tbit_add(tx, ts);
        put_tbit::<W>(ds + i, s, tx);
        put_tbit::<W>(dy + i, y, ty);
        i = i + 1;
        proof {
            assert(tbits_of(s@) =~= splice(s0, ds as int, new_s.subrange(0, i as int)));
            assert(tbits_of(y@) =~= splice(y0, dy as int, new_y.subrange(0, i as int)));
        }
    }
    proof {
        assert(new_s.subrange(0, n as int) =~= new_s);
        assert(new_y.subrange(0, n as int) =~= new_y);
    }
}
/// `x := y - s`, `s := x` over `n` symbols.
pub fn setx_sub<W: SpongosTbitWord>(ds: usize, s: &mut Vec<W>, n: usize, dy: usize, y: &Vec<W>, dx: usize, x: &mut Vec<W>)
    requires
        fits::<W>(n, ds, old(s)@.len()),
        fits::<W>(n, dy, y@.len()),
        fits::<W>(n, dx, old(x)@.len()),
        valid_words(old(s)@),
        valid_words(y@),
        valid_words(old(x)@),
    ensures
        final(s)@.len() == old(s)@.len(),
        valid_words(final(s)@),
        final(x)@.len() == old(x)@.len(),
        valid_words(final(x)@),
        tbits_of(final(s)@) == splice(tbits_of(old(s)@), ds as int, diff_seq::<W>(span_of(y@, dy as int, n as int), span_of(old(s)@, ds as int, n as int))),
        tbits_of(final(x)@) == splice(tbits_of(old(x)@), dx as int, diff_seq::<W>(span_of(y@, dy as int, n as int), span_of(old(s)@, ds as int, n as int))),
{
    let ghost s0 = tbits_of(old(s)@);
    let ghost ss = s0.subrange(ds as int, ds + n);
    let ghost y0 = tbits_of(y@);
    let ghost ys = y0.subrange(dy as int, dy + n);
    let ghost x0 = tbits_of(old(x)@);
    let ghost xs = x0.subrange(dx as int, dx + n);
    let ghost new_s = diff_seq::<W>(ys, ss);
    let ghost new_x = diff_seq::<W>(ys, ss);
    proof {
        lemma_valid_tbits_of::<W>(s@);
        lemma_valid_tbits_of::<W>(y@);
        lemma_valid_tbits_of::<W>(x@);
        assert(tbits_of(s@) =~= splice(s0, ds as int, new_s.subrange(0, 0)));
        assert(tbits_of(x@) =~= splice(x0, dx as int, new_x.subrange(0, 0)));
    }
    let mut i: usize = 0;
    while i < n
        invariant
            i <= n,
            ds + n <= s@.len() * W::width(),
            ds + n <= usize::MAX,
            valid_words(s@),
            valid_tbits::<W>(ss),
            ss == s0.subrange(ds as int, ds + n),
            s0.len() == s@.len() * W::width(),
            s@.len() == old(s)@.len(),
            dy + n <= y@.len() * W::width(),
            dy + n <= usize::MAX,
            valid_words(y@),
            valid_tbits::<W>(ys),
            ys == y0.subrange(dy as int, dy + n),
            y0.len() == y@.len() * W::width(),
            tbits_of(y@) == y0,
            dx + n <= x@.len() * W::width(),
            dx + n <= usize::MAX,
            valid_words(x@),
            valid_tbits::<W>(xs),
            xs == x0.subrange(dx as int, dx + n),
            x0.len() == x@.len() * W::width(),
            x@.len() == old(x)@.len(),
            new_s == diff_seq::<W>(ys, ss),
            tbits_of(s@) == splice(s0, ds as int, new_s.subrange(0, i as int)),
            new_x == diff_seq::<W>(ys, ss),
            tbits_of(x@) == splice(x0, dx as int, new_x.subrange(0, i as int)),
        decreases n - i,
    {
        proof {
            lemma_valid_tbits_of::<W>(s@);
            lemma_valid_tbits_of::<W>(y@);
            lemma_valid_tbits_of::<W>(x@);
        }
        let ts = get_tbit::<W>(ds + i, s);
        let ty = get_tbit::<W>(dy + i, y);
        proof {
            W::lemma_algebra(ty, ts);
        }
        let tx = W::tbit_sub(ty, ts);
        put_tbit::<W>(ds + i, s, tx);
        put_tbit::<W>(dx + i, x, tx);
        i = i + 1;
        proof {
            assert(tbits_of(s@) =~= splice(s0, ds as int, new_s.subrange(0, i as int)));
            assert(tbits_of(x@) =~= splice(x0, dx as int, new_x.subrange(0, i as int)));
        }
    }
    proof {
        assert(new_s.subrange(0, n as int) =~= new_s);
        assert(new_x.subrange(0, n as int) =~= new_x);
    }
}
/// `y := x + s`, `s := y`, `x := y` over `n` symbols: `x` is read and written.
pub fn sety_add_mut<W: SpongosTbitWord>(ds: usize, s: &mut Vec<W>, n: usize, dx: usize, x: &mut Vec<W>)
    requires
        fits::<W>(n, ds, old(s)@.len()),
        fits::<W>(n, dx, old(x)@.len()),
        valid_words(old(s)@),
        valid_words(old(x)@),
    ensures
        final(s)@.len() == old(s)@.len(),
        valid_words(final(s)@),
        final(x)@.len() == old(x)@.len(),
        valid_words(final(x)@),
        tbits_of(final(s)@) == splice(tbits_of(old(s)@), ds as int, sum_seq::<W>(span_of(old(x)@, dx as int, n as int), span_of(old(s)@, ds as int, n as int))),
        tbits_of(final(x)@) == splice(tbits_of(old(x)@), dx as int, sum_seq::<W>(span_of(old(x)@, dx as int, n as int), span_of(old(s)@, ds as int, n as int))),
{
    let ghost s0 = tbits_of(old(s)@);
    let ghost ss = s0.subrange(ds as int, ds + n);
    let ghost x0 = tbits_of(old(x)@);
    let ghost xs = x0.subrange(dx as int, dx + n);
    let ghost new_s = sum_seq::<W>(xs, ss);
    let ghost new_x = sum_seq::<W>(xs, ss);
    proof {
        lemma_valid_tbits_of::<W>(s@);
        lemma_valid_tbits_of::<W>(x@);
        assert(tbits_of(s@) =~= splice(s0, ds as int, new_s.subrange(0, 0)));
        assert(tbits_of(x@) =~= splice(x0, dx as int, new_x.subrange(0, 0)));
    }
    let mut i: usize = 0;
    while i < n
        invariant
            i <= n,
            ds + n <= s@.len() * W::width(),
            ds + n <= usize::MAX,
            valid_words(s@),
            valid_tbits::<W>(ss),
            ss == s0.subrange(ds as int, ds + n),
            s0.len() == s@.len() * W::width(),
            s@.len() == old(s)@.len(),
            dx + n <= x@.len() * W::width(),
            dx + n <= usize::MAX,
            valid_words(x@),
            valid_tbits::<W>(xs),
            xs == x0.subrange(dx as int, dx + n),
            x0.len() == x@.len() * W::width(),
            x@.len() == old(x)@.len(),
            new_s == sum_seq::<W>(xs, ss),
            tbits_of(s@) == splice(s0, ds as int, new_s.subrange(0, i as int)),
            new_x == sum_seq::<W>(xs, ss),
            tbits_of(x@) == splice(x0, dx as int, new_x.subrange(0, i as int)),
        decreases n - i,
    {
        proof {
            lemma_valid_tbits_of::<W>(s@);
            lemma_valid_tbits_of::<W>(x@);
        }
        let ts = get_tbit::<W>(ds + i, s);
        let tx = get_tbit::<W>(dx + i, x);
        proof {
            W::lemma_algebra(tx, ts);
        }
        let ty = W::tbit_add(tx, ts);
        put_tbit::<W>(ds + i, s, ty);
        put_tbit::<W>(dx + i, x, ty);
        i = i + 1;
        proof {
            assert(tbits_of(s@) =~= splice(s0, ds as int, new_s.subrange(0, i as int)));
            assert(tbits_of(x@) =~= splice(x0, dx as int, new_x.subrange(0, i as int)));
        }
    }
    proof {
        assert(new_s.subrange(0, n as int) =~= new_s);
        assert(new_x.subrange(0, n as int) =~= new_x);
    }
}
/// `x := y - s`, `s := y`, `y := x` over `n` symbols: `y` is read and written.
pub fn sety_sub_mut<W: SpongosTbitWord>(ds: usize, s: &mut Vec<W>, n: usize, dy: usize, y: &mut Vec<W>)
    requires
        fits::<W>(n, ds, old(s)@.len()),
        fits::<W>(n, dy, old(y)@.len()),
        valid_words(old(s)@),
        valid_words(old(y)@),
    ensures
        final(s)@.len() == old(s)@.len(),
        valid_words(final(s)@),
        final(y)@.len() == old(y)@.len(),
        valid_words(final(y)@),
        tbits_of(final(s)@) == splice(tbits_of(old(s)@), ds as int, span_of(old(y)@, dy as int, n as int)),
        tbits_of(final(y)@) == splice(tbits_of(old(y)@), dy as int, diff_seq::<W>(span_of(old(y)@, dy as int, n as int), span_of(old(s)@, ds as int, n as int))),
{
    let ghost s0 = tbits_of(old(s)@);
    let ghost ss = s0.subrange(ds as int, ds + n);
    let ghost y0 = tbits_of(old(y)@);
    let ghost ys = y0.subrange(dy as int, dy + n);
    let ghost new_s = ys;
    let ghost new_y = diff_seq::<W>(ys, ss);
    proof {
        lemma_valid_tbits_of::<W>(s@);
        lemma_valid_tbits_of::<W>(y@);
        assert(tbits_of(s@) =~= splice(s0, ds as int, new_s.subrange(0, 0)));
        assert(tbits_of(y@) =~= splice(y0, dy as int, new_y.subrange(0, 0)));
    }
    let mut i: usize = 0;
    while i < n
        invariant
            i <= n,
            ds + n <= s@.len() * W::width(),
            ds + n <= usize::MAX,
            valid_words(s@),
            valid_tbits::<W>(ss),
            ss == s0.subrange(ds as int, ds + n),
            s0.len() == s@.len() * W::width(),
            s@.len() == old(s)@.len(),
            dy + n <= y@.len() * W::width(),
            dy + n <= usize::MAX,
            valid_words(y@),
            valid_tbits::<W>(ys),
            ys == y0.subrange(dy as int, dy + n),
            y0.len() == y@.len() * W::width(),
            y@.len() == old(y)@.len(),
            new_s == ys,
            tbits_of(s@) == splice(s0, ds as int, new_s.subrange(0, i as int)),
            new_y == diff_seq::<W>(ys, ss),
            tbits_of(y@) == splice(y0, dy as int, new_y.subrange(0, i as int)),
        decreases n - i,
    {
        proof {
            lemma_valid_tbits_of::<W>(s@);
            lemma_valid_tbits_of::<W>(y@);
        }
        let ts = get_tbit::<W>(ds + i, s);
        let ty = get_tbit::<W>(dy + i, y);
        proof {
            W::lemma_algebra(ty, ts);
        }
        let tx = W::tbit_sub(ty, ts);
        put_tbit::<W>(ds + i, s, ty);
        put_tbit::<W>(dy + i, y, tx);
        i = i + 1;
        proof {
            assert(tbits_of(s@) =~= splice(s0, ds as int, new_s.subrange(0, i as int)));
            assert(tbits_of(y@) =~= splice(y0, dy as int, new_y.subrange(0, i as int)));
        }
    }
    proof {
        assert(new_s.subrange(0, n as int) =~= new_s);
        assert(new_y.subrange(0, n as int) =~= new_y);
    }
}
/// `y := x + s`, `s := y` over `n` symbols.
pub fn sety_add<W: SpongosTbitWord>(ds: usize, s: &mut Vec<W>, n: usize, dx: usize, x: &Vec<W>, dy: usize, y: &mut Vec<W>)
    requires
        fits::<W>(n, ds, old(s)@.len()),
        fits::<W>(n, dx, x@.len()),
        fits::<W>(n, dy, old(y)@.len()),
        valid_words(old(s)@),
        valid_words(x@),
        valid_words(old(y)@),
    ensures
        final(s)@.len() == old(s)@.len(),
        valid_words(final(s)@),
        final(y)@.len() == old(y)@.len(),
        valid_words(final(y)@),
        tbits_of(final(s)@) == splice(tbits_of(old(s)@), ds as int, sum_seq::<W>(span_of(x@, dx as int, n as int), span_of(old(s)@, ds as int, n as int))),
        tbits_of(final(y)@) == splice(tbits_of(old(y)@), dy as int, sum_seq::<W>(span_of(x@, dx as int, n as int), span_of(old(s)@, ds as int, n as int))),
{
    let ghost s0 = tbits_of(old(s)@);
    let ghost ss = s0.subrange(ds as int, ds + n);
    let ghost x0 = tbits_of(x@);
    let ghost xs = x0.subrange(dx as int, dx + n);
    let ghost y0 = tbits_of(old(y)@);
    let ghost ys = y0.subrange(dy as int, dy + n);
    let ghost new_s = sum_seq::<W>(xs, ss);
    let ghost new_y = sum_seq::<W>(xs, ss);
    proof {
        lemma_valid_tbits_of::<W>(s@);
        lemma_valid_tbits_of::<W>(x@);
        lemma_valid_tbits_of::<W>(y@);
        assert(tbits_of(s@) =~= splice(s0, ds as int, new_s.subrange(0, 0)));
        assert(tbits_of(y@) =~= splice(y0, dy as int, new_y.subrange(0, 0)));
    }
    let mut i: usize = 0;
    while i < n
        invariant
            i <= n,
            ds + n <= s@.len() * W::width(),
            ds + n <= usize::MAX,
            valid_words(s@),
            valid_tbits::<W>(ss),
            ss == s0.subrange(ds as int, ds + n),
            s0.len() == s@.len() * W::width(),
            s@.len() == old(s)@.len(),
            dx + n <= x@.len() * W::width(),
            dx + n <= usize::MAX,
            valid_words(x@),
            valid_tbits::<W>(xs),
            xs == x0.subrange(dx as int, dx + n),
            x0.len() == x@.len() * W::width(),
            tbits_of(x@) == x0,
            dy + n <= y@.len() * W::width(),
            dy + n <= usize::MAX,
            valid_words(y@),
            valid_tbits::<W>(ys),
            ys == y0.subrange(dy as int, dy + n),
            y0.len() == y@.len() * W::width(),
            y@.len() == old(y)@.len(),
            new_s == sum_seq::<W>(xs, ss),
            tbits_of(s@) == splice(s0, ds as int, new_s.subrange(0, i as int)),
            new_y == sum_seq::<W>(xs, ss),
            tbits_of(y@) == splice(y0, dy as int, new_y.subrange(0, i as int)),
        decreases n - i,
    {
        proof {
            lemma_valid_tbits_of::<W>(s@);
            lemma_valid_tbits_of::<W>(x@);
            lemma_valid_tbits_of::<W>(y@);
        }
        let tx = get_tbit::<W>(dx + i, x);
        let ts = get_tbit::<W>(ds + i, s);
        proof {
            W::lemma_algebra(tx, ts);
        }
        let ty = W::tbit_add(tx, ts);
        put_tbit::<W>(ds + i, s, ty);
        put_tbit::<W>(dy + i, y, ty);
        i = i + 1;
        proof {
            assert(tbits_of(s@) =~= splice(s0, ds as int, new_s.subrange(0, i as int)));
            assert(tbits_of(y@) =~= splice(y0, dy as int, new_y.subrange(0, i as int)));
        }
    }
    proof {
        assert(new_s.subrange(0, n as int) =~= new_s);
        assert(new_y.subrange(0, n as int) =~= new_y);
    }
}
/// `x := y - s`, `s := y` over `n` symbols.
pub fn sety_sub<W: SpongosTbitWord>(ds: usize, s: &mut Vec<W>, n: usize, dy: usize, y: &Vec<W>, dx: usize, x: &mut Vec<W>)
    requires
        fits::<W>(n, ds, old(s)@.len()),
        fits::<W>(n, dy, y@.len()),
        fits::<W>(n, dx, old(x)@.len()),
        valid_words(old(s)@),
        valid_words(y@),
        valid_words(old(x)@),
    ensures
        final(s)@.len() == old(s)@.len(),
        valid_words(final(s)@),
        final(x)@.len() == old(x)@.len(),
        valid_words(final(x)@),
        tbits_of(final(s)@) == splice(tbits_of(old(s)@), ds as int, span_of(y@, dy as int, n as int)),
        tbits_of(final(x)@) == splice(tbits_of(old(x)@), dx as int, diff_seq::<W>(span_of(y@, dy as int, n as int), span_of(old(s)@, ds as int, n as int))),
{
    let ghost s0 = tbits_of(old(s)@);
    let ghost ss = s0.subrange(ds as int, ds + n);
    let ghost y0 = tbits_of(y@);
    let ghost ys = y0.subrange(dy as int, dy + n);
    let ghost x0 = tbits_of(old(x)@);
    let ghost xs = x0.subrange(dx as int, dx + n);
    let ghost new_s = ys;
    let ghost new_x = diff_seq::<W>(ys, ss);
    proof {
        lemma_valid_tbits_of::<W>(s@);
        lemma_valid_tbits_of::<W>(y@);
        lemma_valid_tbits_of::<W>(x@);
        assert(tbits_of(s@) =~= splice(s0, ds as int, new_s.subrange(0, 0)));
        assert(tbits_of(x@) =~= splice(x0, dx as int, new_x.subrange(0, 0)));
    }
    let mut i: usize = 0;
    while i < n
        invariant
            i <= n,
            ds + n <= s@.len() * W::width(),
            ds + n <= usize::MAX,
            valid_words(s@),
            valid_tbits::<W>(ss),
            ss == s0.subrange(ds as int, ds + n),
            s0.len() == s@.len() * W::width(),
            s@.len() == old(s)@.len(),
            dy + n <= y@.len() * W::width(),
            dy + n <= usize::MAX,
            valid_words(y@),
            valid_tbits::<W>(ys),
            ys == y0.subrange(dy as int, dy + n),
            y0.len() == y@.len() * W::width(),
            tbits_of(y@) == y0,
            dx + n <= x@.len() * W::width(),
            dx + n <= usize::MAX,
            valid_words(x@),
            valid_tbits::<W>(xs),
            xs == x0.subrange(dx as int, dx + n),
            x0.len() == x@.len() * W::width(),
            x@.len() == old(x)@.len(),
            new_s == ys,
            tbits_of(s@) == splice(s0, ds as int, new_s.subrange(0, i as int)),
            new_x == diff_seq::<W>(ys, ss),
            tbits_of(x@) == splice(x0, dx as int, new_x.subrange(0, i as int)),
        decreases n - i,
    {
        proof {
            lemma_valid_tbits_of::<W>(s@);
            lemma_valid_tbits_of::<W>(y@);
            lemma_valid_tbits_of::<W>(x@);
        }
        let ty = get_tbit::<W>(dy + i, y);
        let ts = get_tbit::<W>(ds + i, s);
        proof {
            W::lemma_algebra(ty, ts);
        }
        let tx = W::tbit_sub(ty, ts);
        put_tbit::<W>(ds + i, s, ty);
        put_tbit::<W>(dx + i, x, tx);
        i = i + 1;
        proof {
            assert(tbits_of(s@) =~= splice(s0, ds as int, new_s.subrange(0, i as int)));
            assert(tbits_of(x@) =~= splice(x0, dx as int, new_x.subrange(0, i as int)));
        }
    }
    proof {
        assert(new_s.subrange(0, n as int) =~= new_s);
        assert(new_x.subrange(0, n as int) =~= new_x);
    }
}


/// Absorb the symbols at `(dx, x)` into the state at `(ds, s)`, overwrite mode: they
/// replace the state's symbols.
pub fn absorb_overwrite<W: SpongosTbitWord>(ds: usize, s: &mut Vec<W>, n: usize, dx: usize, x: &Vec<W>)
    requires
        fits::<W>(n, ds, old(s)@.len()),
        valid_words(old(s)@),
        fits::<W>(n, dx, x@.len()),
        valid_words(x@),
    ensures
        final(s)@.len() == old(s)@.len(),
        valid_words(final(s)@),
        tbits_of(final(s)@) == splice(tbits_of(old(s)@), ds as int, span_of(x@, dx as int, n as int)),
{
    copy::<W>(n, dx, x, ds, s);
}

/// Absorb the symbols at `(dx, x)` into the state at `(ds, s)`, add mode: they are
/// added to the state's symbols.
pub fn absorb_xor<W: SpongosTbitWord>(ds: usize, s: &mut Vec<W>, n: usize, dx: usize, x: &Vec<W>)
    requires
        fits::<W>(n, ds, old(s)@.len()),
        valid_words(old(s)@),
        fits::<W>(n, dx, x@.len()),
        valid_words(x@),
    ensures
        final(s)@.len() == old(s)@.len(),
        valid_words(final(s)@),
        tbits_of(final(s)@) == splice(tbits_of(old(s)@), ds as int, sum_seq::<W>(span_of(old(s)@, ds as int, n as int), span_of(x@, dx as int, n as int))),
{
    crate::spongos::add::<W>(ds, s, n, dx, x);
}

/// Squeeze the state's symbols at `(ds, s)` into `(dy, y)`, overwrite mode: the
/// squeezed state symbols are then set to zero.
pub fn squeeze_overwrite<W: SpongosTbitWord>(ds: usize, s: &mut Vec<W>, n: usize, dy: usize, y: &mut Vec<W>)
    requires
        fits::<W>(n, ds, old(s)@.len()),
        valid_words(old(s)@),
        fits::<W>(n, dy, old(y)@.len()),
        valid_words(old(y)@),
    ensures
        final(s)@.len() == old(s)@.len(),
        valid_words(final(s)@),
        final(y)@.len() == old(y)@.len(),
        valid_words(final(y)@),
        tbits_of(final(y)@) == splice(tbits_of(old(y)@), dy as int, span_of(old(s)@, ds as int, n as int)),
        tbits_of(final(s)@) == splice(tbits_of(old(s)@), ds as int, zeros::<W>(n as nat)),
{
    copy::<W>(n, ds, s, dy, y);
    set_zero::<W>(n, ds, s);
}

/// Squeeze the state's symbols at `(ds, s)` into `(dy, y)`, add mode: the state is
/// left as it is.
pub fn squeeze_xor<W: SpongosTbitWord>(ds: usize, s: &mut Vec<W>, n: usize, dy: usize, y: &mut Vec<W>)
    requires
        fits::<W>(n, ds, old(s)@.len()),
        valid_words(old(s)@),
        fits::<W>(n, dy, old(y)@.len()),
        valid_words(old(y)@),
    ensures
        final(s)@ == old(s)@,
        final(y)@.len() == old(y)@.len(),
        valid_words(final(y)@),
        tbits_of(final(y)@) == splice(tbits_of(old(y)@), dy as int, span_of(old(s)@, ds as int, n as int)),
{
    copy::<W>(n, ds, s, dy, y);
}

/// Whether the state's symbols at `(ds, s)` equal the expected ones at `(dy, y)`,
/// overwrite mode: the compared state symbols are set to zero whatever the outcome.
pub fn squeeze_eq_overwrite<W: SpongosTbitWord>(ds: usize, s: &mut Vec<W>, n: usize, dy: usize, y: &Vec<W>) -> (r: bool)
    requires
        fits::<W>(n, ds, old(s)@.len()),
        valid_words(old(s)@),
        fits::<W>(n, dy, y@.len()),
        valid_words(y@),
    ensures
        r == (span_of(old(s)@, ds as int, n as int) == span_of(y@, dy as int, n as int)),
        final(s)@.len() == old(s)@.len(),
        valid_words(final(s)@),
        tbits_of(final(s)@) == splice(tbits_of(old(s)@), ds as int, zeros::<W>(n as nat)),
{
    let r = equals::<W>(n, ds, s, dy, y);
    set_zero::<W>(n, ds, s);
    r
}

/// Whether the state's symbols at `(ds, s)` equal the expected ones at `(dy, y)`,
/// add mode: the state is left as it is.
pub fn squeeze_eq_xor<W: SpongosTbitWord>(ds: usize, s: &mut Vec<W>, n: usize, dy: usize, y: &Vec<W>) -> (r: bool)
    requires
        fits::<W>(n, ds, old(s)@.len()),
        valid_words(old(s)@),
        fits::<W>(n, dy, y@.len()),
        valid_words(y@),
    ensures
        r == (span_of(old(s)@, ds as int, n as int) == span_of(y@, dy as int, n as int)),
        final(s)@ == old(s)@,
{
    equals::<W>(n, ds, s, dy, y)
}

/// Encrypt the plaintext at `(dx, x)` into `(dy, y)` with the state at `(ds, s)`,
/// overwrite mode: `y := x + s`, and the state takes the plaintext.
pub fn encrypt_overwrite<W: SpongosTbitWord>(ds: usize, s: &mut Vec<W>, n: usize, dx: usize, x: &Vec<W>, dy: usize, y: &mut Vec<W>)
    requires
        fits::<W>(n, ds, old(s)@.len()),
        valid_words(old(s)@),
        fits::<W>(n, dx, x@.len()),
        valid_words(x@),
        fits::<W>(n, dy, old(y)@.len()),
        valid_words(old(y)@),
    ensures
        final(s)@.len() == old(s)@.len(),
        valid_words(final(s)@),
        final(y)@.len() == old(y)@.len(),
        valid_words(final(y)@),
        tbits_of(final(y)@) == splice(tbits_of(old(y)@), dy as int, sum_seq::<W>(span_of(x@, dx as int, n as int), span_of(old(s)@, ds as int, n as int))),
        tbits_of(final(s)@) == splice(tbits_of(old(s)@), ds as int, span_of(x@, dx as int, n as int)),
{
    setx_add::<W>(ds, s, n, dx, x, dy, y);
}

/// Encrypt the plaintext at `(dx, x)` in place with the state at `(ds, s)`, overwrite
/// mode: `x := x + s`, and the state takes the plaintext.
pub fn encrypt_overwrite_mut<W: SpongosTbitWord>(ds: usize, s: &mut Vec<W>, n: usize, dx: usize, x: &mut Vec<W>)
    requires
        fits::<W>(n, ds, old(s)@.len()),
        valid_words(old(s)@),
        fits::<W>(n, dx, old(x)@.len()),
        valid_words(old(x)@),
    ensures
        final(s)@.len() == old(s)@.len(),
        valid_words(final(s)@),
        final(x)@.len() == old(x)@.len(),
        valid_words(final(x)@),
        tbits_of(final(x)@) == splice(tbits_of(old(x)@), dx as int, sum_seq::<W>(span_of(old(x)@, dx as int, n as int), span_of(old(s)@, ds as int, n as int))),
        tbits_of(final(s)@) == splice(tbits_of(old(s)@), ds as int, span_of(old(x)@, dx as int, n as int)),
{
    setx_add_mut::<W>(ds, s, n, dx, x);
}

/// Encrypt the plaintext at `(dx, x)` into `(dy, y)` with the state at `(ds, s)`, add
/// mode: `y := x + s`, and the state takes the ciphertext.
pub fn encrypt_xor<W: SpongosTbitWord>(ds: usize, s: &mut Vec<W>, n: usize, dx: usize, x: &Vec<W>, dy: usize, y: &mut Vec<W>)
    requires
        fits::<W>(n, ds, old(s)@.len()),
        valid_words(old(s)@),
        fits::<W>(n, dx, x@.len()),
        valid_words(x@),
        fits::<W>(n, dy, old(y)@.len()),
        valid_words(old(y)@),
    ensures
        final(s)@.len() == old(s)@.len(),
        valid_words(final(s)@),
        final(y)@.len() == old(y)@.len(),
        valid_words(final(y)@),
        tbits_of(final(y)@) == splice(tbits_of(old(y)@), dy as int, sum_seq::<W>(span_of(x@, dx as int, n as int), span_of(old(s)@, ds as int, n as int))),
        tbits_of(final(s)@) == splice(tbits_of(old(s)@), ds as int, sum_seq::<W>(span_of(x@, dx as int, n as int), span_of(old(s)@, ds as int, n as int))),
{
    sety_add::<W>(ds, s, n, dx, x, dy, y);
}

/// Encrypt the plaintext at `(dx, x)` in place with the state at `(ds, s)`, add mode:
/// `x := x + s`, and the state takes the ciphertext.
pub fn encrypt_xor_mut<W: SpongosTbitWord>(ds: usize, s: &mut Vec<W>, n: usize, dx: usize, x: &mut Vec<W>)
    requires
        fits::<W>(n, ds, old(s)@.len()),
        valid_words(old(s)@),
        fits::<W>(n, dx, old(x)@.len()),
        valid_words(old(x)@),
    ensures
        final(s)@.len() == old(s)@.len(),
        valid_words(final(s)@),
        final(x)@.len() == old(x)@.len(),
        valid_words(final(x)@),
        tbits_of(final(x)@) == splice(tbits_of(old(x)@), dx as int, sum_seq::<W>(span_of(old(x)@, dx as int, n as int), span_of(old(s)@, ds as int, n as int))),
        tbits_of(final(s)@) == splice(tbits_of(old(s)@), ds as int, sum_seq::<W>(span_of(old(x)@, dx as int, n as int), span_of(old(s)@, ds as int, n as int))),
{
    sety_add_mut::<W>(ds, s, n, dx, x);
}

/// Decrypt the ciphertext at `(dy, y)` into `(dx, x)` with the state at `(ds, s)`,
/// overwrite mode: `x := y - s`, and the state takes the plaintext.
pub fn decrypt_overwrite<W: SpongosTbitWord>(ds: usize, s: &mut Vec<W>, n: usize, dy: usize, y: &Vec<W>, dx: usize, x: &mut Vec<W>)
    requires
        fits::<W>(n, ds, old(s)@.len()),
        valid_words(old(s)@),
        fits::<W>(n, dy, y@.len()),
        valid_words(y@),
        fits::<W>(n, dx, old(x)@.len()),
        valid_words(old(x)@),
    ensures
        final(s)@.len() == old(s)@.len(),
        valid_words(final(s)@),
        final(x)@.len() == old(x)@.len(),
        valid_words(final(x)@),
        tbits_of(final(x)@) == splice(tbits_of(old(x)@), dx as int, diff_seq::<W>(span_of(y@, dy as int, n as int), span_of(old(s)@, ds as int, n as int))),
        tbits_of(final(s)@) == splice(tbits_of(old(s)@), ds as int, diff_seq::<W>(span_of(y@, dy as int, n as int), span_of(old(s)@, ds as int, n as int))),
{
    setx_sub::<W>(ds, s, n, dy, y, dx, x);
}

/// Decrypt the ciphertext at `(dy, y)` in place with the state at `(ds, s)`,
/// overwrite mode: `y := y - s`, and the state takes the plaintext.
pub fn decrypt_overwrite_mut<W: SpongosTbitWord>(ds: usize, s: &mut Vec<W>, n: usize, dy: usize, y: &mut Vec<W>)
    requires
        fits::<W>(n, ds, old(s)@.len()),
        valid_words(old(s)@),
        fits::<W>(n, dy, old(y)@.len()),
        valid_words(old(y)@),
    ensures
        final(s)@.len() == old(s)@.len(),
        valid_words(final(s)@),
        final(y)@.len() == old(y)@.len(),
        valid_words(final(y)@),
        tbits_of(final(y)@) == splice(tbits_of(old(y)@), dy as int, diff_seq::<W>(span_of(old(y)@, dy as int, n as int), span_of(old(s)@, ds as int, n as int))),
        tbits_of(final(s)@) == splice(tbits_of(old(s)@), ds as int, diff_seq::<W>(span_of(old(y)@, dy as int, n as int), span_of(old(s)@, ds as int, n as int))),
{
    setx_sub_mut::<W>(ds, s, n, dy, y);
}

/// Decrypt the ciphertext at `(dy, y)` into `(dx, x)` with the state at `(ds, s)`, add
/// mode: `x := y - s`, and the state takes the ciphertext.
pub fn decrypt_xor<W: SpongosTbitWord>(ds: usize, s: &mut Vec<W>, n: usize, dy: usize, y: &Vec<W>, dx: usize, x: &mut Vec<W>)
    requires
        fits::<W>(n, ds, old(s)@.len()),
        valid_words(old(s)@),
        fits::<W>(n, dy, y@.len()),
        valid_words(y@),
        fits::<W>(n, dx, old(x)@.len()),
        valid_words(old(x)@),
    ensures
        final(s)@.len() == old(s)@.len(),
        valid_words(final(s)@),
        final(x)@.len() == old(x)@.len(),
        valid_words(final(x)@),
        tbits_of(final(x)@) == splice(tbits_of(old(x)@), dx as int, diff_seq::<W>(span_of(y@, dy as int, n as int), span_of(old(s)@, ds as int, n as int))),
        tbits_of(final(s)@) == splice(tbits_of(old(s)@), ds as int, span_of(y@, dy as int, n as int)),
{
    sety_sub::<W>(ds, s, n, dy, y, dx, x);
}

/// Decrypt the ciphertext at `(dy, y)` in place with the state at `(ds, s)`, add mode:
/// `y := y - s`, and the state takes the ciphertext.
pub fn decrypt_xor_mut<W: SpongosTbitWord>(ds: usize, s: &mut Vec<W>, n: usize, dy: usize, y: &mut Vec<W>)
    requires
        fits::<W>(n, ds, old(s)@.len()),
        valid_words(old(s)@),
        fits::<W>(n, dy, old(y)@.len()),
        valid_words(old(y)@),
    ensures
        final(s)@.len() == old(s)@.len(),
        valid_words(final(s)@),
        final(y)@.len() == old(y)@.len(),
        valid_words(final(y)@),
        tbits_of(final(y)@) == splice(tbits_of(old(y)@), dy as int, diff_seq::<W>(span_of(old(y)@, dy as int, n as int), span_of(old(s)@, ds as int, n as int))),
        tbits_of(final(s)@) == splice(tbits_of(old(s)@), ds as int, span_of(old(y)@, dy as int, n as int)),
{
    sety_sub_mut::<W>(ds, s, n, dy, y);
}


/// Decrypting with the state that encryption started from recovers the plaintext,
/// and leaves the state where encryption left it: with state symbols `ss` and
/// plaintext `xs`, the ciphertext is `xs + ss`, and `(xs + ss) - ss` is `xs`.
pub proof fn lemma_decrypt_inverts_encrypt<W: SpongosTbitWord>(
    t: Seq<W::Tbit>,
    ds: int,
    xs: Seq<W::Tbit>,
)
    requires
        0 <= ds,
        ds + xs.len() <= t.len(),
        valid_tbits::<W>(t),
        valid_tbits::<W>(xs),
    ensures
        ({
            let ss = t.subrange(ds, ds + xs.len());
            diff_seq::<W>(sum_seq::<W>(xs, ss), ss) == xs
        }),
        ({
            let ss = t.subrange(ds, ds + xs.len());
            splice(t, ds, diff_seq::<W>(sum_seq::<W>(xs, ss), ss)) == splice(t, ds, xs)
        }),
{
    let ss = t.subrange(ds, ds + xs.len());
    assert forall|i: int| 0 <= i < xs.len() implies #[trigger] diff_seq::<W>(
        sum_seq::<W>(xs, ss),
        ss,
    )[i] == xs[i] by {
        assert(W::valid_tbit(t[ds + i]));
        assert(W::valid_tbit(xs[i]));
        W::lemma_algebra(xs[i], ss[i]);
    }
    assert(diff_seq::<W>(sum_seq::<W>(xs, ss), ss) =~= xs);
}

} // verus!
