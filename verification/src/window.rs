//! Sample windows behind the stateful functions: the RDLY delay line and
//! the AVG/RAVG buckets. They hold the latest samples, oldest first.
use vstd::prelude::*;

verus! {

/// Samples, oldest first.
#[derive(Debug, Clone)]
pub struct Window<T> {
    items: Vec<T>,
}

/// The larger of `n` and 1.
pub open spec fn at_least_one(n: nat) -> nat {
    if n == 0 {
        1
    } else {
        n
    }
}

/// What one RDLY step outputs on window `w` for the new sample `x`: the
/// oldest sample held, or `x` itself while the window is empty.
pub open spec fn delay_out<T>(w: Seq<T>, x: T) -> T {
    if w.len() == 0 {
        x
    } else {
        w[0]
    }
}

/// The window after one step with bound `cap`: the sample is appended and
/// the oldest one dropped when the window then exceeds the bound.
pub open spec fn bounded_push<T>(w: Seq<T>, x: T, cap: nat) -> Seq<T> {
    let p = w.push(x);
    if p.len() > cap {
        p.drop_first()
    } else {
        p
    }
}

/// The last `n` samples of `xs` (all of them when there are fewer).
pub open spec fn last_n<T>(xs: Seq<T>, n: nat) -> Seq<T> {
    if xs.len() <= n {
        xs
    } else {
        xs.subrange(xs.len() - n, xs.len() as int)
    }
}

impl<T> View for Window<T> {
    type V = Seq<T>;

    closed spec fn view(&self) -> Seq<T> {
        self.items@
    }
}

impl<T: Copy> Window<T> {
    /// An empty window.
    pub fn new() -> (w: Self)
        ensures
            w@ == Seq::<T>::empty(),
    {
        Window { items: Vec::new() }
    }

    /// The samples held, oldest first.
    pub fn samples(&self) -> (s: &[T])
        ensures
            s@ == self@,
    {
        self.items.as_slice()
    }

    /// Appends a sample without bound (RAVG).
    pub fn push(&mut self, x: T)
        ensures
            final(self)@ == old(self)@.push(x),
    {
        self.items.push(x);
    }

    /// Appends a sample and drops the oldest one when the window then
    /// holds more than `cap` samples (AVG).
    pub fn push_bounded(&mut self, x: T, cap: usize)
        ensures
            final(self)@ == bounded_push(old(self)@, x, cap as nat),
    {
        self.items.push(x);
        if self.items.len() > cap {
            self.items.remove(0);
            assert(self.items@ =~= old(self)@.push(x).drop_first());
        }
    }

    /// One RDLY step with a delay of `samples`: returns the oldest sample
    /// held (or `x` while the window is empty), then appends `x`, keeping
    /// at most `max(samples, 1)` samples.
    pub fn delay(&mut self, samples: usize, x: T) -> (out: T)
        ensures
            out == delay_out(old(self)@, x),
            final(self)@ == bounded_push(old(self)@, x, at_least_one(samples as nat)),
    {
        let out = if self.items.len() == 0 {
            x
        } else {
            self.items[0]
        };
        let cap = if samples == 0 {
            1
        } else {
            samples
        };
        self.push_bounded(x, cap);
        out
    }
}

/// Law: fed the samples `xs` one by one with a delay of `n` (at least 1),
/// the window holds the last `n` of them, and the next step outputs the
/// sample from `n` steps before it (the first sample while fewer than `n`
/// came before it).
pub proof fn lemma_delay_returns_sample_n_back<T>(xs: Seq<T>, n: nat, x: T)
    requires
        n >= 1,
    ensures
        delay_out(last_n(xs, n), x) == xs.push(x)[if xs.len() >= n { xs.len() - n } else { 0 }],
        bounded_push(last_n(xs, n), x, n) == last_n(xs.push(x), n),
{
    let w = last_n(xs, n);
    let p = xs.push(x);
    if xs.len() <= n {
        assert(w == xs);
        if xs.len() == n {
            assert(p.subrange(p.len() - n, p.len() as int) =~= xs.push(x).drop_first());
        }
    } else {
        assert(w.push(x).drop_first() =~= p.subrange(p.len() - n, p.len() as int));
    }
}

/// The window a run of steps with a fixed bound leaves.
pub open spec fn feed<T>(xs: Seq<T>, cap: nat) -> Seq<T>
    decreases xs.len(),
{
    if xs.len() == 0 {
        Seq::empty()
    } else {
        bounded_push(feed(xs.drop_last(), cap), xs.last(), cap)
    }
}

/// Law: steps with a fixed bound `n` (at least 1) from an empty window
/// leave the last `n` samples.
pub proof fn lemma_feed_keeps_last_n<T>(xs: Seq<T>, n: nat)
    requires
        n >= 1,
    ensures
        feed(xs, n) == last_n(xs, n),
    decreases xs.len(),
{
    if xs.len() > 0 {
        lemma_feed_keeps_last_n(xs.drop_last(), n);
        lemma_delay_returns_sample_n_back(xs.drop_last(), n, xs.last());
        assert(xs.drop_last().push(xs.last()) =~= xs);
    }
}

/// The window and the outputs of a run of RDLY steps with delay `n` over the
/// samples `xs`, one step per sample, from an empty window (each step as
/// `Window::delay` states it).
pub open spec fn delay_run<T>(xs: Seq<T>, n: nat) -> (Seq<T>, Seq<T>)
    decreases xs.len(),
{
    if xs.len() == 0 {
        (Seq::empty(), Seq::empty())
    } else {
        let (w, outs) = delay_run(xs.drop_last(), n);
        (bounded_push(w, xs.last(), at_least_one(n)), outs.push(delay_out(w, xs.last())))
    }
}

/// Law: RDLY calls with the same delay `n` (at least 1) on samples
/// `x_0, x_1, …` from an empty window return, at call `j`, the sample from
/// `n` calls earlier, `x_(j-n)` (`x_0` while fewer than `n` came before),
/// and leave the last `n` samples in the window, oldest first.
pub proof fn lemma_delay_run<T>(xs: Seq<T>, n: nat)
    requires
        n >= 1,
    ensures
        delay_run(xs, n).0 == last_n(xs, n),
        delay_run(xs, n).1.len() == xs.len(),
        forall|j: int|
            0 <= j < xs.len() ==> #[trigger] delay_run(xs, n).1[j] == xs[if j >= n {
                j - n
            } else {
                0
            }],
    decreases xs.len(),
{
    if xs.len() > 0 {
        let ys = xs.drop_last();
        let x = xs.last();
        lemma_delay_run(ys, n);
        lemma_delay_returns_sample_n_back(ys, n, x);
        assert(ys.push(x) =~= xs);
        let outs = delay_run(xs, n).1;
        let prev = delay_run(ys, n).1;
        assert forall|j: int| 0 <= j < xs.len() implies #[trigger] outs[j] == xs[if j >= n {
            j - n
        } else {
            0
        }] by {
            if j < ys.len() {
                assert(outs[j] == prev[j]);
            }
        }
    }
}

} // verus!
