use vstd::arithmetic::div_mod::{
    lemma_fundamental_div_mod, lemma_fundamental_div_mod_converse, lemma_mod_bound,
};
use vstd::prelude::*;

verus! {

/// The symbols held by a buffer of words, word after word.
pub open spec fn tbits_of<W: BasicTbitWord>(ws: Seq<W>) -> Seq<W::Tbit> {
    Seq::new(
        (ws.len() * W::width()) as nat,
        |i: int| W::tbits(ws[i / W::width() as int])[i % W::width() as int],
    )
}

/// Every word of the buffer is a well-formed encoding.
pub open spec fn valid_words<W: BasicTbitWord>(ws: Seq<W>) -> bool {
    forall|k: int| 0 <= k < ws.len() ==> #[trigger] W::valid_word(ws[k])
}

/// Every symbol of the sequence belongs to the alphabet.
pub open spec fn valid_tbits<W: BasicTbitWord>(ts: Seq<W::Tbit>) -> bool {
    forall|i: int| 0 <= i < ts.len() ==> #[trigger] W::valid_tbit(ts[i])
}

/// The span of `n` symbols at offset `d` lies within a buffer of `len` words,
/// and its end is an addressable offset.
pub open spec fn fits<W: BasicTbitWord>(n: usize, d: usize, len: nat) -> bool {
    &&& d + n <= len * W::width()
    &&& d + n <= usize::MAX
}

/// `s` with the symbols from offset `d` on replaced by `t`.
pub open spec fn splice<T>(s: Seq<T>, d: int, t: Seq<T>) -> Seq<T> {
    Seq::new(s.len(), |i: int| if d <= i < d + t.len() { t[i - d] } else { s[i] })
}

/// `n` zero symbols.
pub open spec fn zeros<W: BasicTbitWord>(n: nat) -> Seq<W::Tbit> {
    Seq::new(n, |i: int| W::zero())
}

/// A word of `SIZE` symbols, packed in an encoding of the implementor's choice, and
/// the codec between a word and its symbols. `SIZE` is `size()`, and `width()` in
/// contracts.
///
/// A buffer of words is addressed by symbol offsets: the symbol at offset `d` is
/// the symbol `d % SIZE` of the word `d / SIZE`. Offsets and lengths need not be
/// aligned to words.
pub trait BasicTbitWord: Sized + Copy {
    /// A bit or a trit.
    type Tbit: Copy;

    /// The number of symbols per word.
    spec fn width() -> nat;

    /// The zero symbol.
    spec fn zero() -> Self::Tbit;

    /// The symbols of the alphabet.
    spec fn valid_tbit(t: Self::Tbit) -> bool;

    /// The words that encode `SIZE` symbols of the alphabet.
    spec fn valid_word(w: Self) -> bool;

    /// The symbols that a word holds, first to last.
    spec fn tbits(w: Self) -> Seq<Self::Tbit>;

    /// The word that holds the given symbols.
    spec fn word_of(ts: Seq<Self::Tbit>) -> Self;

    proof fn lemma_alphabet()
        ensures
            Self::width() > 0,
            Self::valid_tbit(Self::zero()),
    ;

    /// Decoding then encoding gives back the word.
    proof fn lemma_word_round_trip(w: Self)
        requires
            Self::valid_word(w),
        ensures
            Self::tbits(w).len() == Self::width(),
            forall|i: int|
                0 <= i < Self::width() ==> #[trigger] Self::valid_tbit(Self::tbits(w)[i]),
            Self::word_of(Self::tbits(w)) == w,
    ;

    /// Encoding then decoding gives back the symbols.
    proof fn lemma_tbits_round_trip(ts: Seq<Self::Tbit>)
        requires
            ts.len() == Self::width(),
            forall|i: int| 0 <= i < ts.len() ==> #[trigger] Self::valid_tbit(ts[i]),
        ensures
            Self::valid_word(Self::word_of(ts)),
            Self::tbits(Self::word_of(ts)) == ts,
    ;

    /// The number of symbols per word.
    fn size() -> (r: usize)
        ensures
            r == Self::width(),
    ;

    /// The zero symbol.
    fn zero_tbit() -> (r: Self::Tbit)
        ensures
            r == Self::zero(),
    ;

    /// The word of `SIZE` zero symbols.
    fn zero_word() -> (r: Self)
        ensures
            r == Self::word_of(Seq::new(Self::width(), |i: int| Self::zero())),
    ;

    /// Whether the word is a well-formed encoding.
    fn is_valid_word(w: Self) -> (r: bool)
        ensures
            r == Self::valid_word(w),
    ;

    /// Symbol equality.
    fn tbit_eq(a: Self::Tbit, b: Self::Tbit) -> (r: bool)
        ensures
            r == (a == b),
    ;

    /// Word equality.
    fn word_eq(a: Self, b: Self) -> (r: bool)
        ensures
            r == (a == b),
    ;

    /// Convert a word to its `SIZE` symbols.
    fn word_to_tbits(x: Self) -> (r: Vec<Self::Tbit>)
        requires
            Self::valid_word(x),
        ensures
            r@ == Self::tbits(x),
    ;

    /// Convert `SIZE` symbols to a word.
    fn word_from_tbits(ts: &Vec<Self::Tbit>) -> (r: Self)
        requires
            ts@.len() == Self::width(),
            forall|i: int| 0 <= i < ts@.len() ==> #[trigger] Self::valid_tbit(ts@[i]),
        ensures
            r == Self::word_of(ts@),
    ;
}

/// Write symbol `t` at offset `d`.
pub fn put_tbit<W: BasicTbitWord>(d: usize, p: &mut Vec<W>, t: W::Tbit)
    requires
        valid_words(old(p)@),
        d < old(p)@.len() * W::width(),
        W::valid_tbit(t),
    ensures
        final(p)@.len() == old(p)@.len(),
        valid_words(final(p)@),
        tbits_of(final(p)@) == tbits_of(old(p)@).update(d as int, t),
{
    let size = W::size();
    proof {
        W::lemma_alphabet();
        lemma_symbol_index::<W>(p@, d as int);
    }
    let k = d / size;
    let mut ts = W::word_to_tbits(p[k]);
    proof {
        W::lemma_word_round_trip(p@[k as int]);
    }
    ts.set(d % size, t);
    let w = W::word_from_tbits(&ts);
    proof {
        W::lemma_tbits_round_trip(ts@);
        lemma_put_word::<W>(p@, k as int, w);
    }
    p.set(k, w);
    proof {
        assert forall|i: int| 0 <= i < tbits_of(p@).len() implies #[trigger] tbits_of(p@)[i]
            == tbits_of(old(p)@).update(d as int, t)[i] by {
            lemma_div_range(i, k as int, size as int);
            lemma_div_range(d as int, k as int, size as int);
        }
        assert(tbits_of(p@) =~= tbits_of(old(p)@).update(d as int, t));
    }
}

/// Read the symbol at offset `d`.
pub fn get_tbit<W: BasicTbitWord>(d: usize, p: &Vec<W>) -> (r: W::Tbit)
    requires
        valid_words(p@),
        d < p@.len() * W::width(),
    ensures
        r == tbits_of(p@)[d as int],
{
    let size = W::size();
    proof {
        W::lemma_alphabet();
        lemma_symbol_index::<W>(p@, d as int);
        W::lemma_word_round_trip(p@[(d / size) as int]);
    }
    let ts = W::word_to_tbits(p[d / size]);
    ts[d % size]
}

/// Where a symbol of the buffer sits: in which word, at which place.
pub proof fn lemma_symbol_index<W: BasicTbitWord>(ws: Seq<W>, i: int)
    requires
        W::width() > 0,
        0 <= i < ws.len() * W::width(),
    ensures
        0 <= i / (W::width() as int) < ws.len(),
        0 <= i % (W::width() as int) < W::width(),
        tbits_of(ws)[i] == W::tbits(ws[i / W::width() as int])[i % W::width() as int],
{
    let w = W::width() as int;
    lemma_fundamental_div_mod(i, w);
    lemma_mod_bound(i, w);
    if i / w >= ws.len() {
        assert(w * (i / w) >= w * ws.len()) by (nonlinear_arith)
            requires
                i / w >= ws.len(),
                w > 0,
        ;
    }
}

/// The symbol `i` belongs to word `k` exactly when `k * w <= i < k * w + w`.
pub proof fn lemma_div_range(i: int, k: int, w: int)
    requires
        w > 0,
        0 <= i,
    ensures
        (k * w <= i < k * w + w) <==> i / w == k,
        i / w == k ==> i % w == i - k * w,
{
    lemma_fundamental_div_mod(i, w);
    lemma_mod_bound(i, w);
    if k * w <= i < k * w + w {
        lemma_fundamental_div_mod_converse(i, w, k, i - k * w);
    }
    assert(w * (i / w) == (i / w) * w) by (nonlinear_arith);
}

/// Replacing one word changes the symbols of that word only.
pub proof fn lemma_put_word<W: BasicTbitWord>(ws: Seq<W>, k: int, w2: W)
    requires
        valid_words(ws),
        0 <= k < ws.len(),
        W::valid_word(w2),
    ensures
        valid_words(ws.update(k, w2)),
        tbits_of(ws.update(k, w2)).len() == tbits_of(ws).len(),
        forall|i: int|
            0 <= i < ws.len() * W::width() ==> #[trigger] tbits_of(ws.update(k, w2))[i] == if i
                / W::width() as int == k {
                W::tbits(w2)[i % W::width() as int]
            } else {
                tbits_of(ws)[i]
            },
{
    W::lemma_alphabet();
    assert forall|i: int| 0 <= i < ws.len() * W::width() implies #[trigger] tbits_of(
        ws.update(k, w2),
    )[i] == if i / W::width() as int == k {
        W::tbits(w2)[i % W::width() as int]
    } else {
        tbits_of(ws)[i]
    } by {
        lemma_symbol_index::<W>(ws, i);
    }
}

/// The word that holds symbol `pos` lies whole within the buffer, and its
/// symbols are those of the buffer from `pos - pos % SIZE` on.
pub proof fn lemma_word_span<W: BasicTbitWord>(ws: Seq<W>, pos: int)
    requires
        W::width() > 0,
        0 <= pos < ws.len() * W::width(),
    ensures
        0 <= pos / (W::width() as int) < ws.len(),
        0 <= pos % (W::width() as int) < W::width(),
        pos == (pos / (W::width() as int)) * (W::width() as int) + pos % (W::width() as int),
        (pos / (W::width() as int)) * (W::width() as int) + (W::width() as int) <= ws.len()
            * W::width(),
        forall|jj: int|
            0 <= jj < W::width() ==> #[trigger] tbits_of(ws)[(pos / (W::width() as int)) * (
            W::width() as int) + jj] == W::tbits(ws[pos / (W::width() as int)])[jj],
{
    let w = W::width() as int;
    let k = pos / w;
    lemma_symbol_index::<W>(ws, pos);
    lemma_div_range(pos, k, w);
    assert(k * w + w <= ws.len() * w) by (nonlinear_arith)
        requires
            0 <= k < ws.len(),
            w > 0,
    ;
    assert forall|jj: int| 0 <= jj < w implies #[trigger] tbits_of(ws)[k * w + jj] == W::tbits(
        ws[k],
    )[jj] by {
        lemma_div_range(k * w + jj, k, w);
        lemma_symbol_index::<W>(ws, k * w + jj);
    }
}

/// Writing into the word that holds symbol `pos` the next `take` symbols of
/// `seg` extends the spliced prefix by `take` symbols.
pub proof fn lemma_fill_step<W: BasicTbitWord>(
    ws: Seq<W>,
    w2: W,
    prev: Seq<W::Tbit>,
    d: int,
    seg: Seq<W::Tbit>,
    pos: int,
    take: int,
)
    requires
        W::width() > 0,
        valid_words(ws),
        W::valid_word(w2),
        tbits_of(ws) == splice(prev, d, seg.subrange(0, pos - d)),
        0 <= d <= pos,
        0 < take,
        pos + take <= d + seg.len(),
        d + seg.len() <= ws.len() * W::width(),
        pos % (W::width() as int) + take <= W::width(),
        forall|jj: int|
            0 <= jj < W::width() ==> #[trigger] W::tbits(w2)[jj] == if pos % (W::width() as int)
                <= jj < pos % (W::width() as int) + take {
                seg[pos - d + jj - pos % (W::width() as int)]
            } else {
                W::tbits(ws[pos / (W::width() as int)])[jj]
            },
    ensures
        valid_words(ws.update(pos / (W::width() as int), w2)),
        tbits_of(ws.update(pos / (W::width() as int), w2)) == splice(
            prev,
            d,
            seg.subrange(0, pos + take - d),
        ),
{
    let w = W::width() as int;
    let k = pos / w;
    let j = pos % w;
    lemma_word_span::<W>(ws, pos);
    lemma_put_word::<W>(ws, k, w2);
    let nw = tbits_of(ws.update(k, w2));
    let goal = splice(prev, d, seg.subrange(0, pos + take - d));
    assert(tbits_of(ws).len() == prev.len());
    assert forall|i: int| 0 <= i < nw.len() implies #[trigger] nw[i] == goal[i] by {
        lemma_div_range(i, k, w);
        lemma_symbol_index::<W>(ws, i);
        if i / w == k {
            assert(W::tbits(w2)[i - k * w] == nw[i]);
        }
    }
    assert(nw =~= goal);
}

/// A word whose symbols are those of `base`, but for the `take` symbols from
/// place `j` on, which are taken from `src` from index `from` on.
fn splice_word<W: BasicTbitWord>(
    base: &Vec<W::Tbit>,
    j: usize,
    src: &Vec<W::Tbit>,
    from: usize,
    take: usize,
) -> (r: W)
    requires
        base@.len() == W::width(),
        valid_tbits::<W>(base@),
        valid_tbits::<W>(src@),
        j + take <= W::width(),
        from + take <= src@.len(),
    ensures
        W::valid_word(r),
        forall|jj: int|
            0 <= jj < W::width() ==> #[trigger] W::tbits(r)[jj] == if j <= jj < j + take {
                src@[from + jj - j]
            } else {
                base@[jj]
            },
{
    let size = W::size();
    let src_len = src.len();
    let mut v: Vec<W::Tbit> = Vec::new();
    let mut i: usize = 0;
    while i < size
        invariant
            size == W::width(),
            base@.len() == size,
            i <= size,
            j + take <= size,
            from + take <= src_len,
            src_len == src@.len(),
            v@.len() == i,
            valid_tbits::<W>(base@),
            valid_tbits::<W>(src@),
            valid_tbits::<W>(v@),
            forall|jj: int|
                0 <= jj < i ==> #[trigger] v@[jj] == if j <= jj < j + take {
                    src@[from + jj - j]
                } else {
                    base@[jj]
                },
        decreases size - i,
    {
        if j <= i && i < j + take {
            v.push(src[from + (i - j)]);
        } else {
            v.push(base[i]);
        }
        i = i + 1;
    }
    let r = W::word_from_tbits(&v);
    proof {
        W::lemma_tbits_round_trip(v@);
    }
    r
}

/// Write the `n` symbols of `ts` into the buffer from offset `dx` on.
///
/// Words that the span covers whole are encoded from `ts` without being read.
pub fn from_tbits<W: BasicTbitWord>(n: usize, dx: usize, x: &mut Vec<W>, ts: &Vec<W::Tbit>)
    requires
        fits::<W>(n, dx, old(x)@.len()),
        valid_words(old(x)@),
        ts@.len() == n,
        valid_tbits::<W>(ts@),
    ensures
        final(x)@.len() == old(x)@.len(),
        valid_words(final(x)@),
        tbits_of(final(x)@) == splice(tbits_of(old(x)@), dx as int, ts@),
{
    let size = W::size();
    proof {
        W::lemma_alphabet();
    }
    let end = dx + n;
    let mut pos = dx;
    let mut blank: Vec<W::Tbit> = Vec::new();
    let mut i: usize = 0;
    while i < size
        invariant
            i <= size,
            blank@.len() == i,
            valid_tbits::<W>(blank@),
            W::valid_tbit(W::zero()),
        decreases size - i,
    {
        blank.push(W::zero_tbit());
        i = i + 1;
    }
    proof {
        assert(tbits_of(x@) =~= splice(tbits_of(x@), dx as int, ts@.subrange(0, 0)));
    }
    while pos < end
        invariant
            size == W::width(),
            W::width() > 0,
            dx <= pos <= end,
            end == dx + n,
            end <= x@.len() * W::width(),
            x@.len() == old(x)@.len(),
            valid_words(x@),
            ts@.len() == n,
            valid_tbits::<W>(ts@),
            blank@.len() == size,
            valid_tbits::<W>(blank@),
            tbits_of(x@) == splice(tbits_of(old(x)@), dx as int, ts@.subrange(0, pos - dx)),
        decreases end - pos,
    {
        proof {
            lemma_word_span::<W>(x@, pos as int);
        }
        let k = pos / size;
        let j = pos % size;
        let take = if size - j < end - pos {
            size - j
        } else {
            end - pos
        };
        let w = if j == 0 && take == size {
            splice_word::<W>(&blank, 0, ts, pos - dx, size)
        } else {
            let base = W::word_to_tbits(x[k]);
            proof {
                W::lemma_word_round_trip(x@[k as int]);
            }
            splice_word::<W>(&base, j, ts, pos - dx, take)
        };
        proof {
            lemma_fill_step::<W>(
                x@,
                w,
                tbits_of(old(x)@),
                dx as int,
                ts@,
                pos as int,
                take as int,
            );
        }
        x.set(k, w);
        pos = pos + take;
    }
    proof {
        assert(ts@.subrange(0, n as int) =~= ts@);
    }
}

/// The symbols of well-formed words belong to the alphabet.
pub proof fn lemma_valid_tbits_of<W: BasicTbitWord>(ws: Seq<W>)
    requires
        valid_words(ws),
    ensures
        valid_tbits::<W>(tbits_of(ws)),
{
    W::lemma_alphabet();
    assert forall|i: int| 0 <= i < tbits_of(ws).len() implies #[trigger] W::valid_tbit(
        tbits_of(ws)[i],
    ) by {
        lemma_symbol_index::<W>(ws, i);
        W::lemma_word_round_trip(ws[i / (W::width() as int)]);
    }
}

/// Moving by whole words keeps the place within a word.
pub proof fn lemma_shift_words(a: int, m: int, w: int)
    requires
        w > 0,
        a >= 0,
        a + m * w >= 0,
    ensures
        (a + m * w) % w == a % w,
        (a + m * w) / w == a / w + m,
{
    lemma_fundamental_div_mod(a, w);
    lemma_mod_bound(a, w);
    assert((a / w + m) * w + a % w == a + m * w) by (nonlinear_arith)
        requires
            a == w * (a / w) + (a % w),
    ;
    lemma_fundamental_div_mod_converse(a + m * w, w, a / w + m, a % w);
}

/// Two offsets with the same place within a word differ by whole words.
pub proof fn lemma_same_place(a: int, b: int, w: int)
    requires
        w > 0,
        a >= 0,
        b >= 0,
        a % w == b % w,
    ensures
        a - b == (a / w - b / w) * w,
{
    lemma_fundamental_div_mod(a, w);
    lemma_fundamental_div_mod(b, w);
    assert((a / w - b / w) * w == w * (a / w) - w * (b / w)) by (nonlinear_arith);
}

/// The `n` zero symbols of a fresh scratch buffer.
fn zero_tbits<W: BasicTbitWord>(n: usize) -> (r: Vec<W::Tbit>)
    ensures
        r@ == zeros::<W>(n as nat),
        valid_tbits::<W>(r@),
{
    proof {
        W::lemma_alphabet();
    }
    let mut v: Vec<W::Tbit> = Vec::new();
    let mut i: usize = 0;
    while i < n
        invariant
            i <= n,
            v@ == zeros::<W>(i as nat),
            W::valid_tbit(W::zero()),
        decreases n - i,
    {
        v.push(W::zero_tbit());
        i = i + 1;
        proof {
            assert(v@ =~= zeros::<W>(i as nat));
        }
    }
    v
}

/// Read the `n` symbols of the buffer from offset `dx` on.
///
/// Each word that the span touches is decoded once.
pub fn to_tbits<W: BasicTbitWord>(n: usize, dx: usize, x: &Vec<W>) -> (r: Vec<W::Tbit>)
    requires
        fits::<W>(n, dx, x@.len()),
        valid_words(x@),
    ensures
        r@ == tbits_of(x@).subrange(dx as int, dx + n),
        valid_tbits::<W>(r@),
{
    let size = W::size();
    proof {
        W::lemma_alphabet();
        lemma_valid_tbits_of::<W>(x@);
    }
    let end = dx + n;
    let mut pos = dx;
    let mut r: Vec<W::Tbit> = Vec::new();
    while pos < end
        invariant
            size == W::width(),
            W::width() > 0,
            dx <= pos <= end,
            end == dx + n,
            end <= x@.len() * W::width(),
            valid_words(x@),
            r@ == tbits_of(x@).subrange(dx as int, pos as int),
        decreases end - pos,
    {
        proof {
            lemma_word_span::<W>(x@, pos as int);
        }
        let k = pos / size;
        let j = pos % size;
        let take = if size - j < end - pos {
            size - j
        } else {
            end - pos
        };
        let v = W::word_to_tbits(x[k]);
        let mut i: usize = 0;
        while i < take
            invariant
                size == W::width(),
                W::width() > 0,
                dx <= pos,
                pos + take <= end,
                end <= x@.len() * W::width(),
                k == pos / size,
                j == pos % size,
                j + take <= size,
                i <= take,
                k < x@.len(),
                valid_words(x@),
                pos == k * size + j,
                v@ == W::tbits(x@[k as int]),
                forall|jj: int|
                    0 <= jj < W::width() ==> #[trigger] tbits_of(x@)[k * size + jj] == W::tbits(
                        x@[k as int],
                    )[jj],
                r@ == tbits_of(x@).subrange(dx as int, pos + i),
            decreases take - i,
        {
            proof {
                W::lemma_word_round_trip(x@[k as int]);
                assert(tbits_of(x@)[k * size + (j + i)] == v@[j + i]);
            }
            r.push(v[j + i]);
            i = i + 1;
            proof {
                assert(r@ =~= tbits_of(x@).subrange(dx as int, pos + i));
            }
        }
        pos = pos + take;
    }
    proof {
        lemma_valid_tbits_of::<W>(x@);
    }
    r
}

/// Set the `n` symbols of the buffer from offset `dx` on to zero.
///
/// Words that the span covers whole are replaced by the zero word unread.
pub fn set_zero<W: BasicTbitWord>(n: usize, dx: usize, x: &mut Vec<W>)
    requires
        fits::<W>(n, dx, old(x)@.len()),
        valid_words(old(x)@),
    ensures
        final(x)@.len() == old(x)@.len(),
        valid_words(final(x)@),
        tbits_of(final(x)@) == splice(tbits_of(old(x)@), dx as int, zeros::<W>(n as nat)),
{
    let size = W::size();
    proof {
        W::lemma_alphabet();
    }
    let end = dx + n;
    let mut pos = dx;
    let blank = zero_tbits::<W>(size);
    let zero = W::zero_word();
    proof {
        assert(blank@ =~= Seq::new(W::width(), |i: int| W::zero()));
        W::lemma_tbits_round_trip(blank@);
        assert(tbits_of(x@) =~= splice(
            tbits_of(x@),
            dx as int,
            zeros::<W>(n as nat).subrange(0, 0),
        ));
    }
    while pos < end
        invariant
            size == W::width(),
            W::width() > 0,
            dx <= pos <= end,
            end == dx + n,
            end <= x@.len() * W::width(),
            x@.len() == old(x)@.len(),
            valid_words(x@),
            blank@ == zeros::<W>(size as nat),
            valid_tbits::<W>(blank@),
            W::valid_word(zero),
            W::tbits(zero) == blank@,
            tbits_of(x@) == splice(
                tbits_of(old(x)@),
                dx as int,
                zeros::<W>(n as nat).subrange(0, pos - dx),
            ),
        decreases end - pos,
    {
        proof {
            lemma_word_span::<W>(x@, pos as int);
        }
        let k = pos / size;
        let j = pos % size;
        let take = if size - j < end - pos {
            size - j
        } else {
            end - pos
        };
        let w = if j == 0 && take == size {
            zero
        } else {
            let base = W::word_to_tbits(x[k]);
            proof {
                W::lemma_word_round_trip(x@[k as int]);
            }
            splice_word::<W>(&base, j, &blank, 0, take)
        };
        proof {
            lemma_fill_step::<W>(
                x@,
                w,
                tbits_of(old(x)@),
                dx as int,
                zeros::<W>(n as nat),
                pos as int,
                take as int,
            );
        }
        x.set(k, w);
        pos = pos + take;
    }
    proof {
        assert(zeros::<W>(n as nat).subrange(0, n as int) =~= zeros::<W>(n as nat));
    }
}

/// The symbol at place `jj` of the word that holds symbol `pos`.
pub proof fn lemma_symbol_at<W: BasicTbitWord>(ws: Seq<W>, pos: int, jj: int)
    requires
        W::width() > 0,
        0 <= pos < ws.len() * W::width(),
        0 <= jj < W::width(),
    ensures
        0 <= pos - pos % (W::width() as int) + jj < ws.len() * W::width(),
        tbits_of(ws)[pos - pos % (W::width() as int) + jj] == W::tbits(
            ws[pos / (W::width() as int)],
        )[jj],
{
    lemma_word_span::<W>(ws, pos);
    let w = W::width() as int;
    assert(tbits_of(ws)[(pos / w) * w + jj] == W::tbits(ws[pos / w])[jj]);
}

/// Whether `len` symbols of `a` from `fa` on equal those of `b` from `fb` on.
fn tbits_eq<W: BasicTbitWord>(
    a: &Vec<W::Tbit>,
    fa: usize,
    b: &Vec<W::Tbit>,
    fb: usize,
    len: usize,
) -> (r: bool)
    requires
        fa + len <= a@.len(),
        fb + len <= b@.len(),
    ensures
        r == (a@.subrange(fa as int, fa + len) == b@.subrange(fb as int, fb + len)),
{
    let alen = a.len();
    let blen = b.len();
    let mut i: usize = 0;
    while i < len
        invariant
            i <= len,
            alen == a@.len(),
            blen == b@.len(),
            fa + len <= alen,
            fb + len <= blen,
            forall|ii: int| 0 <= ii < i ==> #[trigger] a@[fa + ii] == b@[fb + ii],
        decreases len - i,
    {
        if !W::tbit_eq(a[fa + i], b[fb + i]) {
            proof {
                assert(a@.subrange(fa as int, fa + len)[i as int] != b@.subrange(
                    fb as int,
                    fb + len,
                )[i as int]);
            }
            return false;
        }
        i = i + 1;
    }
    proof {
        assert forall|ii: int| 0 <= ii < len implies #[trigger] a@.subrange(
            fa as int,
            fa + len,
        )[ii] == b@.subrange(fb as int, fb + len)[ii] by {
            assert(a@[fa + ii] == b@[fb + ii]);
        }
        assert(a@.subrange(fa as int, fa + len) =~= b@.subrange(fb as int, fb + len));
    }
    true
}

/// Copy `n` symbols from `(dx, x)` into `(dy, y)`.
///
/// Where both offsets sit at the same place within a word, the words that the
/// span covers whole are copied as words, and only the words at its two ends
/// are decoded; otherwise the symbols go through a scratch buffer.
pub fn copy<W: BasicTbitWord>(n: usize, dx: usize, x: &Vec<W>, dy: usize, y: &mut Vec<W>)
    requires
        fits::<W>(n, dx, x@.len()),
        fits::<W>(n, dy, old(y)@.len()),
        valid_words(x@),
        valid_words(old(y)@),
    ensures
        final(y)@.len() == old(y)@.len(),
        valid_words(final(y)@),
        tbits_of(final(y)@) == splice(
            tbits_of(old(y)@),
            dy as int,
            tbits_of(x@).subrange(dx as int, dx + n),
        ),
{
    let size = W::size();
    proof {
        W::lemma_alphabet();
    }
    let ghost seg = tbits_of(x@).subrange(dx as int, dx + n);
    if n == 0 {
        proof {
            assert(tbits_of(y@) =~= splice(tbits_of(y@), dy as int, seg));
        }
        return ;
    }
    if dx % size == dy % size {
        let end = dy + n;
        let mut pos = dy;
        let mut px = dx;
        let ghost m: int = dx as int / size as int - dy as int / size as int;
        proof {
            lemma_same_place(dx as int, dy as int, size as int);
            assert(tbits_of(y@) =~= splice(tbits_of(y@), dy as int, seg.subrange(0, 0)));
        }
        while pos < end
            invariant
                size == W::width(),
                W::width() > 0,
                dy <= pos <= end,
                end == dy + n,
                end <= y@.len() * W::width(),
                dx + n <= x@.len() * W::width(),
                dx + n <= usize::MAX,
                px == dx + (pos - dy),
                dx - dy == m * size,
                y@.len() == old(y)@.len(),
                valid_words(y@),
                valid_words(x@),
                seg == tbits_of(x@).subrange(dx as int, dx + n),
                tbits_of(y@) == splice(tbits_of(old(y)@), dy as int, seg.subrange(0, pos - dy)),
            decreases end - pos,
        {
            proof {
                lemma_word_span::<W>(y@, pos as int);
                lemma_word_span::<W>(x@, px as int);
                lemma_shift_words(pos as int, m, size as int);
            }
            let k = pos / size;
            let j = pos % size;
            let kx = px / size;
            let take = if size - j < end - pos {
                size - j
            } else {
                end - pos
            };
            let w = if j == 0 && take == size {
                x[kx]
            } else {
                let base = W::word_to_tbits(y[k]);
                let src = W::word_to_tbits(x[kx]);
                proof {
                    W::lemma_word_round_trip(y@[k as int]);
                    W::lemma_word_round_trip(x@[kx as int]);
                }
                splice_word::<W>(&base, j, &src, j, take)
            };
            proof {
                assert forall|jj: int| 0 <= jj < W::width() implies #[trigger] W::tbits(w)[jj]
                    == if j <= jj < j + take {
                    seg[pos - dy + jj - j]
                } else {
                    W::tbits(y@[k as int])[jj]
                } by {
                    if j <= jj < j + take {
                        lemma_symbol_at::<W>(x@, px as int, jj);
                        assert(dx + (pos - dy + jj - j) == px + jj - j);
                        assert(seg[pos - dy + jj - j] == tbits_of(x@)[px + jj - j]);
                    }
                }
                lemma_fill_step::<W>(
                    y@,
                    w,
                    tbits_of(old(y)@),
                    dy as int,
                    seg,
                    pos as int,
                    take as int,
                );
            }
            y.set(k, w);
            pos = pos + take;
            px = px + take;
        }
        proof {
            assert(seg.subrange(0, n as int) =~= seg);
        }
    } else {
        let ts = to_tbits::<W>(n, dx, x);
        from_tbits::<W>(n, dy, y, &ts);
    }
}

/// Whether the `n` symbols at `(dx, x)` equal those at `(dy, y)`.
///
/// Where both offsets sit at the same place within a word, the words that the
/// span covers whole are compared as words, and the walk stops at the first
/// difference; otherwise the symbols go through scratch buffers.
pub fn equals<W: BasicTbitWord>(n: usize, dx: usize, x: &Vec<W>, dy: usize, y: &Vec<W>) -> (r:
    bool)
    requires
        fits::<W>(n, dx, x@.len()),
        fits::<W>(n, dy, y@.len()),
        valid_words(x@),
        valid_words(y@),
    ensures
        r == (tbits_of(x@).subrange(dx as int, dx + n) == tbits_of(y@).subrange(
            dy as int,
            dy + n,
        )),
{
    let size = W::size();
    proof {
        W::lemma_alphabet();
    }
    let ghost xs = tbits_of(x@).subrange(dx as int, dx + n);
    let ghost ys = tbits_of(y@).subrange(dy as int, dy + n);
    if n == 0 {
        proof {
            assert(xs =~= ys);
        }
        return true;
    }
    if dx % size == dy % size {
        let end = dy + n;
        let mut pos = dy;
        let mut px = dx;
        let ghost m: int = dx as int / size as int - dy as int / size as int;
        proof {
            lemma_same_place(dx as int, dy as int, size as int);
        }
        while pos < end
            invariant
                size == W::width(),
                W::width() > 0,
                dy <= pos <= end,
                end == dy + n,
                end <= y@.len() * W::width(),
                dx + n <= x@.len() * W::width(),
                dx + n <= usize::MAX,
                px == dx + (pos - dy),
                dx - dy == m * size,
                valid_words(y@),
                valid_words(x@),
                xs == tbits_of(x@).subrange(dx as int, dx + n),
                ys == tbits_of(y@).subrange(dy as int, dy + n),
                forall|i: int| 0 <= i < pos - dy ==> xs[i] == ys[i],
            decreases end - pos,
        {
            proof {
                lemma_word_span::<W>(y@, pos as int);
                lemma_word_span::<W>(x@, px as int);
                lemma_shift_words(pos as int, m, size as int);
                W::lemma_word_round_trip(y@[(pos / size) as int]);
                W::lemma_word_round_trip(x@[(px / size) as int]);
            }
            let k = pos / size;
            let j = pos % size;
            let kx = px / size;
            let take = if size - j < end - pos {
                size - j
            } else {
                end - pos
            };
            if j == 0 && take == size {
                if !W::word_eq(x[kx], y[k]) {
                    proof {
                        let a = W::tbits(x@[kx as int]);
                        let b = W::tbits(y@[k as int]);
                        assert(!(a =~= b));
                        let jj = choose|jj: int| 0 <= jj < a.len() && a[jj] != b[jj];
                        lemma_symbol_at::<W>(x@, px as int, jj);
                        lemma_symbol_at::<W>(y@, pos as int, jj);
                        assert(xs[pos - dy + jj] != ys[pos - dy + jj]);
                    }
                    return false;
                }
            } else {
                let a = W::word_to_tbits(x[kx]);
                let b = W::word_to_tbits(y[k]);
                if !tbits_eq::<W>(&a, j, &b, j, take) {
                    proof {
                        let sa = a@.subrange(j as int, j + take);
                        let sb = b@.subrange(j as int, j + take);
                        assert(!(sa =~= sb));
                        let ii = choose|ii: int| 0 <= ii < take && sa[ii] != sb[ii];
                        lemma_symbol_at::<W>(x@, px as int, j + ii);
                        lemma_symbol_at::<W>(y@, pos as int, j + ii);
                        assert(xs[pos - dy + ii] != ys[pos - dy + ii]);
                    }
                    return false;
                }
                proof {
                    assert forall|jj: int| j <= jj < j + take implies #[trigger] W::tbits(
                        x@[kx as int],
                    )[jj] == W::tbits(y@[k as int])[jj] by {
                        assert(a@.subrange(j as int, j + take)[jj - j] == b@.subrange(
                            j as int,
                            j + take,
                        )[jj - j]);
                    }
                }
            }
            proof {
                assert forall|i: int| 0 <= i < pos + take - dy implies xs[i] == ys[i] by {
                    if i >= pos - dy {
                        let jj = i - (pos - dy) + j;
                        lemma_symbol_at::<W>(x@, px as int, jj);
                        lemma_symbol_at::<W>(y@, pos as int, jj);
                        assert(dx + i == px + jj - j);
                        assert(dy + i == pos + jj - j);
                        assert(W::tbits(x@[kx as int])[jj] == W::tbits(y@[k as int])[jj]);
                    }
                }
            }
            pos = pos + take;
            px = px + take;
        }
        proof {
            assert(xs =~= ys);
        }
        true
    } else {
        let a = to_tbits::<W>(n, dx, x);
        let b = to_tbits::<W>(n, dy, y);
        proof {
            assert(a@.subrange(0, n as int) =~= a@);
            assert(b@.subrange(0, n as int) =~= b@);
        }
        tbits_eq::<W>(&a, 0, &b, 0, n)
    }
}

/// Copying a span onto itself, at the same offset, leaves the symbols as they are.
pub proof fn lemma_copy_onto_itself<T>(t: Seq<T>, d: int, n: int)
    requires
        0 <= d,
        0 <= n,
        d + n <= t.len(),
    ensures
        splice(t, d, t.subrange(d, d + n)) == t,
{
    assert(splice(t, d, t.subrange(d, d + n)) =~= t);
}

/// Copying a span writes what reading it into symbols and writing those symbols
/// back writes: the result of `copy` is that of `from_tbits` applied to the
/// result of `to_tbits`.
pub proof fn lemma_copy_through_symbols<W: BasicTbitWord>(
    x: Seq<W>,
    dx: int,
    n: int,
    y: Seq<W>,
    dy: int,
    ts: Seq<W::Tbit>,
)
    requires
        0 <= dx,
        0 <= n,
        dx + n <= x.len() * W::width(),
        ts == tbits_of(x).subrange(dx, dx + n),
    ensures
        ts.len() == n,
        splice(tbits_of(y), dy, ts) == splice(tbits_of(y), dy, tbits_of(x).subrange(dx, dx + n)),
{
}

/// An empty span changes nothing and compares equal: splicing in no symbols
/// gives back the sequence, and two empty spans are equal.
pub proof fn lemma_empty_span<T>(t: Seq<T>, d: int, u: Seq<T>, e: int)
    requires
        0 <= d <= t.len(),
        0 <= e <= u.len(),
    ensures
        splice(t, d, u.subrange(e, e)) == t,
        t.subrange(d, d) == u.subrange(e, e),
{
    assert(splice(t, d, u.subrange(e, e)) =~= t);
    assert(t.subrange(d, d) =~= u.subrange(e, e));
}

/// Symbols that carry text, `TBITS_PER_CHAR` symbols for each character.
pub trait StringTbitWord: BasicTbitWord {
    /// The number of symbols per character.
    fn tbits_per_char() -> usize;

    /// Write `c` as `s` symbols at offset `d`; whether `c` could be encoded.
    fn put_char(s: usize, d: usize, p: &mut Vec<Self>, c: char) -> bool
        requires
            fits::<Self>(s, d, old(p)@.len()),
            valid_words(old(p)@),
    ;

    /// Read a character from the `s` symbols at offset `d`.
    fn get_char(s: usize, d: usize, p: &Vec<Self>) -> char
        requires
            fits::<Self>(s, d, p@.len()),
            valid_words(p@),
    ;
}

/// Symbols that carry integers, in `n` symbols.
pub trait IntTbitWord: BasicTbitWord {
    /// Write `i` as `n` symbols at offset `d`.
    fn put_isize(n: usize, d: usize, p: &mut Vec<Self>, i: isize)
        requires
            fits::<Self>(n, d, old(p)@.len()),
            valid_words(old(p)@),
    ;

    /// Read a signed integer from the `n` symbols at offset `d`.
    fn get_isize(n: usize, d: usize, p: &Vec<Self>) -> isize
        requires
            fits::<Self>(n, d, p@.len()),
            valid_words(p@),
    ;

    /// Write `u` as `n` symbols at offset `d`.
    fn put_usize(n: usize, d: usize, p: &mut Vec<Self>, u: usize)
        requires
            fits::<Self>(n, d, old(p)@.len()),
            valid_words(old(p)@),
    ;

    /// Read an unsigned integer from the `n` symbols at offset `d`.
    fn get_usize(n: usize, d: usize, p: &Vec<Self>) -> usize
        requires
            fits::<Self>(n, d, p@.len()),
            valid_words(p@),
    ;
}

} // verus!
