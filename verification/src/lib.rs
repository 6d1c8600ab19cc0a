//! A view into a flat sequence as a table of `width` columns, iterated
//! column-wise ("striped") rather than row-wise ("chunked").
//!
//! A [`Stripes`] yields one [`Stripe`] per column; each `Stripe` yields the
//! elements at source positions `i, i + width, i + 2 * width, ...` for its
//! starting offset `i`. Both are lazy, borrowed, non-copying cursors over a
//! caller-owned slice.
use vstd::prelude::*;

verus! {

/// The elements of one column: the first element of `t`, then every
/// `w`-th element after it. For `w == 0` only the head is counted, since a
/// zero-width stripe never moves past it.
pub open spec fn stripe_elems<T>(t: Seq<T>, w: nat) -> Seq<T>
    decreases t.len(),
{
    if t.len() == 0 {
        seq![]
    } else if t.len() <= w || w == 0 {
        seq![t[0]]
    } else {
        seq![t[0]] + stripe_elems(t.skip(w as int), w)
    }
}

/// Column `i` of the virtual table over `s` with stripe width `w`: the
/// elements at source positions `i, i + w, i + 2 * w, ...`.
pub open spec fn column<T>(s: Seq<T>, w: nat, i: nat) -> Seq<T> {
    stripe_elems(s.skip(i as int), w)
}

/// The element-sequences of the columns a [`Stripes`] iterator in state
/// `(rem, w, e)` will yield if advanced step by step until exhausted: one
/// per column while fewer than `w` columns are out and the view `rem` is
/// non-empty, each over a view starting one element later.
pub open spec fn columns_of<T>(rem: Seq<T>, w: nat, e: nat) -> Seq<Seq<T>>
    decreases rem.len(),
{
    if e >= w || rem.len() == 0 {
        seq![]
    } else {
        seq![stripe_elems(rem, w)] + columns_of(rem.drop_first(), w, e + 1)
    }
}

/// An iterator over the stripes (columns) of a slice.
///
/// Views the slice as a table of `_skip`-sized rows and reads that table
/// column-wise: each advance yields a [`Stripe`] over the next column.
#[derive(Clone, Copy, Debug, PartialEq)]
pub struct Stripes<'a, T> {
    _ct: usize,
    _skip: usize,
    _v: &'a [T],
}

/// A view into one stripe (column) of a slice, yielding every `_skip`-th
/// value of its captured view.
#[derive(Clone, Copy, Debug, PartialEq)]
pub struct Stripe<'a, T> {
    _skip: usize,
    _v: &'a [T],
}

impl<'a, T> Stripes<'a, T> {
    /// The stripe width: the number of columns this iterator can yield.
    pub closed spec fn width(self) -> nat {
        self._skip as nat
    }

    /// How many columns have been yielded so far.
    pub closed spec fn emitted(self) -> nat {
        self._ct as nat
    }

    /// The source elements not yet passed over: the view the next column
    /// starts at.
    pub closed spec fn remaining(self) -> Seq<T> {
        self._v@
    }

    /// The count of yielded columns never exceeds the stripe width.
    pub open spec fn wf(self) -> bool {
        self.emitted() <= self.width()
    }

    /// How many more columns this iterator will yield.
    pub open spec fn cols_left(self) -> nat
        recommends
            self.wf(),
    {
        vstd::math::min(self.width() - self.emitted(), self.remaining().len() as int) as nat
    }

    /// The element-sequences of the columns this iterator will still yield,
    /// in order.
    pub open spec fn columns(self) -> Seq<Seq<T>> {
        columns_of(self.remaining(), self.width(), self.emitted())
    }

    /// Build a `Stripes` from a slice reference.
    pub fn from(sl: &'a [T], skip: usize) -> (r: Stripes<'a, T>)
        ensures
            r.wf(),
            r.width() == skip,
            r.emitted() == 0,
            r.remaining() == sl@,
            r.cols_left() == vstd::math::min(skip as int, sl@.len() as int),
    {
        Stripes { _v: sl, _skip: skip, _ct: 0 }
    }

    /// Yield the next column, or `None` once all `width` columns are out or
    /// the source view is exhausted.
    ///
    /// The returned stripe captures the current remaining view and the
    /// stripe width; the iterator itself then moves one element forward, so
    /// that the next column starts one position later.
    pub fn next(&mut self) -> (r: Option<Stripe<'a, T>>)
        requires
            old(self).wf(),
        ensures
            final(self).wf(),
            final(self).width() == old(self).width(),
            (old(self).emitted() == old(self).width() || old(self).remaining().len() == 0)
                ==> {
                &&& r is None
                &&& final(self).emitted() == old(self).emitted()
                &&& final(self).remaining() == old(self).remaining()
                &&& old(self).columns() == Seq::<Seq<T>>::empty()
            },
            (old(self).emitted() < old(self).width() && old(self).remaining().len() > 0)
                ==> {
                &&& r is Some
                &&& r->Some_0.width() == old(self).width()
                &&& r->Some_0.remaining() == old(self).remaining()
                &&& r->Some_0.elems() == old(self).columns()[0]
                &&& final(self).emitted() == old(self).emitted() + 1
                &&& final(self).remaining() == old(self).remaining().drop_first()
                &&& final(self).columns() == old(self).columns().drop_first()
            },
    {
        let x = self._skip - self._ct;
        if x == 0 || self._v.len() == 0 {
            proof {
                assert(old(self).columns() =~= Seq::<Seq<T>>::empty());
            }
            None
        } else {
            let ns = Stripe { _v: self._v, _skip: self._skip };
            self._ct = self._ct + 1;
            let v = self._v;
            self._v = vstd::slice::slice_subrange(v, 1, v.len());
            proof {
                assert(self._v@ =~= old(self).remaining().drop_first());
                assert(old(self).columns() == seq![
                    stripe_elems(old(self).remaining(), old(self).width()),
                ] + self.columns());
                assert(self.columns() =~= old(self).columns().drop_first());
            }
            Some(ns)
        }
    }

    /// Skip `n` columns and yield the one after them, exactly as `n + 1`
    /// step-by-step advances would: the `n`-th-next column, or `None` (with
    /// the iterator exhausted) if fewer than `n + 1` columns are left.
    pub fn nth(&mut self, n: usize) -> (r: Option<Stripe<'a, T>>)
        requires
            old(self).wf(),
        ensures
            final(self).wf(),
            final(self).width() == old(self).width(),
            n < old(self).cols_left() ==> {
                &&& r is Some
                &&& r->Some_0.width() == old(self).width()
                &&& r->Some_0.remaining() == old(self).remaining().skip(n as int)
                &&& final(self).emitted() == old(self).emitted() + n + 1
                &&& final(self).remaining() == old(self).remaining().skip(n + 1)
            },
            n >= old(self).cols_left() ==> {
                &&& r is None
                &&& final(self).emitted() == old(self).emitted() + old(self).cols_left()
                &&& final(self).remaining() == old(self).remaining().skip(
                    old(self).cols_left() as int,
                )
            },
    {
        let mut i: usize = 0;
        while i < n
            invariant
                i <= n,
                self.wf(),
                self.width() == old(self).width(),
                i <= old(self).cols_left(),
                self.emitted() == old(self).emitted() + i,
                self.remaining() =~= old(self).remaining().skip(i as int),
            decreases n - i,
        {
            let x = self.next();
            if x.is_none() {
                return None;
            }
            i = i + 1;
            proof {
                assert(self.remaining() =~= old(self).remaining().skip(i as int));
            }
        }
        let r = self.next();
        proof {
            if n < old(self).cols_left() {
                assert(old(self).remaining().skip(n as int).drop_first() =~= old(
                    self,
                ).remaining().skip(n + 1));
            }
        }
        r
    }
}

impl<'a, T> Stripe<'a, T> {
    /// The skip distance between successive elements of this stripe; equal
    /// to the stripe width of the `Stripes` that produced it.
    pub closed spec fn width(self) -> nat {
        self._skip as nat
    }

    /// The captured view this stripe still has to walk; its head is the
    /// next element to yield.
    pub closed spec fn remaining(self) -> Seq<T> {
        self._v@
    }

    /// The elements this stripe will yield, in order.
    pub open spec fn elems(self) -> Seq<T> {
        stripe_elems(self.remaining(), self.width())
    }
}

impl<'a, T: Copy> Stripe<'a, T> {
    /// Yield the head of the captured view, then drop a width-sized prefix
    /// (clamped at the view's end) so the head of what is left is the next
    /// element of the column; `None` once the view is exhausted.
    pub fn next(&mut self) -> (r: Option<T>)
        ensures
            final(self).width() == old(self).width(),
            old(self).remaining().len() == 0 ==> {
                &&& r is None
                &&& final(self).remaining() == old(self).remaining()
            },
            old(self).remaining().len() > 0 ==> {
                &&& r == Some(old(self).remaining()[0])
                &&& final(self).remaining() == old(self).remaining().skip(
                    vstd::math::min(old(self).width() as int, old(self).remaining().len() as int),
                )
            },
    {
        let v = self._v;
        if v.len() == 0 {
            None
        } else {
            let n: T = *vstd::slice::slice_index_get(v, 0);
            let k = if self._skip < v.len() {
                self._skip
            } else {
                v.len()
            };
            self._v = vstd::slice::slice_subrange(v, k, v.len());
            proof {
                assert(self._v@ =~= old(self).remaining().skip(k as int));
            }
            Some(n)
        }
    }

    /// Skip `n` elements of this stripe and yield the one after them,
    /// exactly as `n + 1` step-by-step advances would: for a positive width
    /// `w` that is the element `n * w` positions into the captured view, or
    /// `None` (with the view exhausted) if the column is shorter than that.
    /// A zero-width stripe never moves, so it yields its head whenever the
    /// view is non-empty.
    pub fn nth(&mut self, n: usize) -> (r: Option<T>)
        ensures
            final(self).width() == old(self).width(),
            old(self).remaining().len() == 0 ==> {
                &&& r is None
                &&& final(self).remaining() == old(self).remaining()
            },
            old(self).width() == 0 && old(self).remaining().len() > 0 ==> {
                &&& r == Some(old(self).remaining()[0])
                &&& final(self).remaining() == old(self).remaining()
            },
            old(self).width() >= 1 && n * old(self).width() < old(self).remaining().len() ==> {
                &&& r == Some(old(self).remaining()[n * old(self).width()])
                &&& final(self).remaining() == old(self).remaining().skip(
                    vstd::math::min(
                        (n + 1) * old(self).width(),
                        old(self).remaining().len() as int,
                    ),
                )
            },
            old(self).width() >= 1 && n * old(self).width() >= old(self).remaining().len() ==> {
                &&& r is None
                &&& final(self).remaining().len() == 0
            },
    {
        let ghost t = old(self).remaining();
        let ghost s = old(self).width() as int;
        let ghost ln = old(self).remaining().len() as int;
        let mut i: usize = 0;
        proof {
            assert(t.skip(0) =~= t);
        }
        while i < n
            invariant
                i <= n,
                self.width() == old(self).width(),
                t == old(self).remaining(),
                s == old(self).width() as int,
                ln == t.len() as int,
                self.remaining() =~= t.skip(vstd::math::min(i * s, ln)),
            decreases n - i,
        {
            let ghost pre = self.remaining();
            let x = self.next();
            if x.is_none() {
                proof {
                    if s >= 1 {
                        assert(i * s >= ln);
                        assert(n * s >= i * s) by (nonlinear_arith)
                            requires
                                n >= i,
                                s >= 0,
                        ;
                    } else {
                        assert(i * s == 0) by (nonlinear_arith)
                            requires
                                s == 0,
                        ;
                        assert(self.remaining() =~= t);
                    }
                }
                return None;
            }
            proof {
                assert(vstd::math::min(i * s, ln) < ln);
                assert((i + 1) * s == i * s + s) by (nonlinear_arith);
                assert(pre.skip(vstd::math::min(s, pre.len() as int)) =~= t.skip(
                    vstd::math::min((i + 1) * s, ln),
                ));
            }
            i = i + 1;
        }
        let ghost pre = self.remaining();
        let r = self.next();
        proof {
            if ln == 0 {
                assert(self.remaining() =~= t);
            } else if s == 0 {
                assert(n * s == 0) by (nonlinear_arith)
                    requires
                        s == 0,
                ;
                assert(self.remaining() =~= t);
            } else if n * s < ln {
                assert((n + 1) * s == n * s + s) by (nonlinear_arith);
                assert(pre.skip(vstd::math::min(s, pre.len() as int)) =~= t.skip(
                    vstd::math::min((n + 1) * s, ln),
                ));
            }
        }
        r
    }

    /// Drain this stripe into a vector: every element it would yield, in
    /// order. A zero-width stripe re-yields its head forever, so a positive
    /// width is required; every stripe a [`Stripes`] produces has one.
    pub fn collect(self) -> (r: Vec<T>)
        requires
            self.width() >= 1,
        ensures
            r@ == self.elems(),
    {
        let mut cur = self;
        let mut out: Vec<T> = Vec::new();
        proof {
            assert(out@ + stripe_elems(cur.remaining(), cur.width()) =~= self.elems());
        }
        while cur._v.len() != 0
            invariant
                cur.width() == self.width(),
                cur.width() >= 1,
                out@ + stripe_elems(cur.remaining(), cur.width()) == self.elems(),
            decreases cur.remaining().len(),
        {
            let ghost pre_out = out@;
            let ghost pre = cur.remaining();
            let x = cur.next();
            if let Some(v) = x {
                out.push(v);
            }
            proof {
                if pre.len() <= cur.width() {
                    assert(stripe_elems(pre, cur.width()) =~= seq![pre[0]]);
                    assert(cur.remaining() =~= pre.skip(pre.len() as int));
                    assert(stripe_elems(cur.remaining(), cur.width()) =~= Seq::<T>::empty());
                }
                assert(out@ =~= pre_out + seq![pre[0]]);
                assert(out@ + stripe_elems(cur.remaining(), cur.width()) =~= pre_out
                    + stripe_elems(pre, cur.width()));
            }
        }
        proof {
            assert(stripe_elems(cur.remaining(), cur.width()) =~= Seq::<T>::empty());
            assert(out@ =~= self.elems());
        }
        out
    }
}

/// Extension trait for slice-like values allowing striped iteration.
pub trait Striped<T>: View<V = Seq<T>> {
    /// Return a [`Stripes`] iterator on the underlying data, equivalent to
    /// building one with [`Stripes::from`].
    fn stripes<'a>(&'a self, skip: usize) -> (r: Stripes<'a, T>)
        ensures
            r.wf(),
            r.width() == skip,
            r.emitted() == 0,
            r.remaining() == self@,
    ;
}

impl<T> Striped<T> for [T] {
    fn stripes<'a>(&'a self, skip: usize) -> (r: Stripes<'a, T>) {
        Stripes { _v: self, _skip: skip, _ct: 0 }
    }
}

/// Skipping ahead within a stripe matches step-by-step consumption: the
/// `k`-th element a stripe over the view `t` will yield is the element
/// `k * w` positions into `t` — exactly what [`Stripe::nth`] returns.
pub proof fn lemma_stripe_elems_index<T>(t: Seq<T>, w: nat, k: nat)
    requires
        w >= 1,
        k * w < t.len(),
    ensures
        stripe_elems(t, w).len() > k,
        stripe_elems(t, w)[k as int] == t[(k * w) as int],
    decreases k,
{
    if k == 0 {
        assert(k * w == 0) by (nonlinear_arith)
            requires
                k == 0,
        ;
    } else {
        assert(k * w == (k - 1) * w + w) by (nonlinear_arith);
        assert((k - 1) * w >= 0) by (nonlinear_arith)
            requires
                k >= 1,
                w >= 0,
        ;
        let t2 = t.skip(w as int);
        lemma_stripe_elems_index(t2, w, (k - 1) as nat);
        assert(stripe_elems(t, w)[k as int] == stripe_elems(t2, w)[k - 1]);
    }
}

/// A stripe yields no more elements than its view can hold: once `k * w`
/// reaches the view's length, the stripe over it is shorter than `k`
/// entries, so the `k`-th skip-ahead request comes back empty.
pub proof fn lemma_stripe_elems_count<T>(t: Seq<T>, w: nat, k: nat)
    requires
        w >= 1,
        k * w >= t.len(),
    ensures
        stripe_elems(t, w).len() <= k,
    decreases t.len(),
{
    if t.len() == 0 {
    } else if t.len() <= w {
        assert(k >= 1) by (nonlinear_arith)
            requires
                k * w >= 1,
                w >= 1,
                k >= 0,
        ;
    } else {
        assert(k >= 1) by (nonlinear_arith)
            requires
                k * w > w,
                w >= 1,
                k >= 0,
        ;
        assert((k - 1) * w == k * w - w) by (nonlinear_arith);
        lemma_stripe_elems_count(t.skip(w as int), w, (k - 1) as nat);
    }
}

/// The outer iterator yields exactly `min(width - emitted, remaining)` more
/// columns: one per advance until either all `w` columns are out or the
/// shrinking view runs dry.
pub proof fn lemma_columns_count<T>(rem: Seq<T>, w: nat, e: nat)
    requires
        e <= w,
    ensures
        columns_of(rem, w, e).len() == vstd::math::min(w - e, rem.len() as int),
    decreases rem.len(),
{
    if e >= w || rem.len() == 0 {
    } else {
        lemma_columns_count(rem.drop_first(), w, e + 1);
    }
}

/// Skipping ahead on the outer iterator matches step-by-step advancing: its
/// `n`-th-next column is the stripe over the view `n` elements further in —
/// exactly what [`Stripes::nth`] returns.
pub proof fn lemma_columns_index<T>(rem: Seq<T>, w: nat, e: nat, n: nat)
    requires
        e <= w,
        n < vstd::math::min(w - e, rem.len() as int),
    ensures
        columns_of(rem, w, e).len() > n,
        columns_of(rem, w, e)[n as int] == stripe_elems(rem.skip(n as int), w),
    decreases n,
{
    lemma_columns_count(rem, w, e);
    if n == 0 {
        assert(rem.skip(0) =~= rem);
    } else {
        lemma_columns_index(rem.drop_first(), w, e + 1, (n - 1) as nat);
        assert(rem.drop_first().skip(n - 1) =~= rem.skip(n as int));
    }
}

/// Coverage: with a positive stripe width, every source element is yielded —
/// element `j` appears as entry `j / w` of column `j % w`.
pub proof fn lemma_stripes_cover<T>(s: Seq<T>, w: nat, j: int)
    requires
        w >= 1,
        0 <= j < s.len(),
    ensures
        0 <= j % (w as int) < vstd::math::min(w as int, s.len() as int),
        column(s, w, (j % (w as int)) as nat).len() > j / (w as int),
        column(s, w, (j % (w as int)) as nat)[j / (w as int)] == s[j],
{
    vstd::arithmetic::div_mod::lemma_fundamental_div_mod(j, w as int);
    vstd::arithmetic::div_mod::lemma_mod_division_less_than_divisor(j, w as int);
    vstd::arithmetic::div_mod::lemma_div_pos_is_pos(j, w as int);
    let i = j % (w as int);
    let k = j / (w as int);
    assert(w * k == k * w) by (nonlinear_arith);
    let t = s.skip(i);
    lemma_stripe_elems_index(t, w, k as nat);
}

/// Round trip: with a positive stripe width, re-ordering the columns'
/// elements by original source index reconstructs the source sequence
/// exactly — position `j` of the rebuilt sequence is entry `j / w` of
/// column `j % w`, and that is `s[j]` itself.
pub proof fn lemma_stripes_round_trip<T>(s: Seq<T>, w: nat)
    requires
        w >= 1,
    ensures
        Seq::new(
            s.len(),
            |j: int| column(s, w, (j % (w as int)) as nat)[j / (w as int)],
        ) == s,
{
    let r = Seq::new(s.len(), |j: int| column(s, w, (j % (w as int)) as nat)[j / (w as int)]);
    assert forall|j: int| 0 <= j < s.len() implies r[j] == s[j] by {
        lemma_stripes_cover(s, w, j);
    }
    assert(r =~= s);
}

/// No element is yielded twice: a source position determines the one column
/// and the one step within it that reach it, so distinct (column, step)
/// pairs always address distinct source positions.
pub proof fn lemma_stripes_distinct<T>(s: Seq<T>, w: nat, i: nat, k: nat)
    requires
        w >= 1,
        i < w,
        i + k * w < s.len(),
    ensures
        column(s, w, i).len() > k,
        column(s, w, i)[k as int] == s[(i + k * w) as int],
        ((i + k * w) as int) % (w as int) == i,
        ((i + k * w) as int) / (w as int) == k,
{
    lemma_stripe_elems_index(s.skip(i as int), w, k);
    vstd::arithmetic::div_mod::lemma_fundamental_div_mod_converse(
        (i + k * w) as int,
        w as int,
        k as int,
        i as int,
    );
}

/// A width greater than the source length gives exactly one column per
/// source element, each holding just that element: the source is exhausted
/// before any column can take a second step.
pub proof fn lemma_wide_stripes<T>(s: Seq<T>, w: nat, i: nat)
    requires
        w > s.len(),
        i < s.len(),
    ensures
        columns_of(s, w, 0).len() == s.len(),
        column(s, w, i).len() == 1,
        column(s, w, i)[0] == s[i as int],
{
    lemma_columns_count(s, w, 0);
}

} // verus!
