//! How many bytes the next read of the stream asks for.

use vstd::prelude::*;

verus! {

/// Size of the first read of an adaptive strategy.
pub const INIT_BUFFER_LEN: usize = 8192;

/// Default cap of an adaptive strategy.
pub const MAX_BUFFER_LEN: usize = 131072;

/// The read policy chosen by the caller.
#[derive(Clone, Copy, Debug, PartialEq, Eq, Structural)]
pub enum ReadStrategy {
    /// Every read asks for the same number of bytes.
    Exact(usize),
    /// Reads start at [`INIT_BUFFER_LEN`], or at `max` where that is less,
    /// and double, up to `max`, whenever a read fills its whole request.
    Adaptive { max: usize },
}

/// The running state of a read policy.
#[derive(Clone, Copy, Debug, PartialEq, Eq, Structural)]
pub enum Strategy {
    /// Every read asks for this many bytes.
    Exact(usize),
    /// The next read asks for `next` bytes, and never for more than `max`.
    Adaptive { next: usize, max: usize },
}

/// `min(2 * next, max)`: the size that follows a saturated read.
pub open spec fn grown(next: int, max: int) -> int {
    if 2 * next <= max {
        2 * next
    } else {
        max
    }
}

/// Two to the power of `k`.
pub open spec fn doubled(k: nat) -> nat
    decreases k,
{
    if k == 0 {
        1
    } else {
        2 * doubled((k - 1) as nat)
    }
}

/// The smaller of two numbers.
pub open spec fn smaller(a: int, b: int) -> int {
    if a <= b {
        a
    } else {
        b
    }
}

/// Adaptive sizing: after `k` reads in a row that each filled their whole
/// request, a policy whose size started at `start` and is capped at `max`
/// asks for `min(start * 2^k, max)` bytes; before any read, for
/// `min(start, max)`.
pub proof fn lemma_adaptive_growth(start: usize, max: usize, k: nat)
    ensures
        (Strategy::Adaptive { next: start, max }).after_saturated(k).spec_next() == smaller(
            start * doubled(k),
            max as int,
        ),
        (Strategy::Adaptive { next: start, max }).after_saturated(k) matches Strategy::Adaptive {
            max: m,
            ..
        } && m == max,
    decreases k,
{
    let s = Strategy::Adaptive { next: start, max };
    if k == 0 {
        assert(start * doubled(0) == start) by (nonlinear_arith)
            requires
                doubled(0) == 1,
        ;
    } else {
        let g = grown(start as int, max as int) as usize;
        assert(s.spec_record(s.spec_next()) == Strategy::Adaptive { next: g, max });
        lemma_adaptive_growth(g, max, (k - 1) as nat);
        let d = doubled((k - 1) as nat);
        lemma_doubled_positive((k - 1) as nat);
        assert(start * doubled(k) == (2 * start) * d) by (nonlinear_arith)
            requires
                doubled(k) == 2 * d,
        ;
        if 2 * start <= max {
            assert(g == 2 * start);
        } else {
            assert(g == max);
            assert(max * d >= max) by (nonlinear_arith)
                requires
                    d >= 1,
                    max >= 0,
            ;
            assert((2 * start) * d >= 2 * start) by (nonlinear_arith)
                requires
                    d >= 1,
                    start >= 0,
            ;
        }
    }
}

/// Adaptive sizing of a policy as it is chosen: after `k` reads in a row
/// that each filled their whole request it asks for
/// `min(INIT_BUFFER_LEN * 2^k, max)` bytes, and never for more than `max`.
pub proof fn lemma_adaptive_policy(max: usize, k: nat)
    ensures
        (ReadStrategy::Adaptive { max }).spec_state().after_saturated(k).spec_next() == smaller(
            INIT_BUFFER_LEN * doubled(k),
            max as int,
        ),
        (ReadStrategy::Adaptive { max }).spec_state().after_saturated(k).spec_next() <= max,
{
    let start = smaller(INIT_BUFFER_LEN as int, max as int) as usize;
    lemma_adaptive_growth(start, max, k);
    lemma_doubled_positive(k);
    let d = doubled(k);
    if max < INIT_BUFFER_LEN {
        assert(max * d >= max) by (nonlinear_arith)
            requires
                d >= 1,
                max >= 0,
        ;
        assert(INIT_BUFFER_LEN * d >= INIT_BUFFER_LEN) by (nonlinear_arith)
            requires
                d >= 1,
        ;
    }
}

/// A power of two is at least one.
pub proof fn lemma_doubled_positive(k: nat)
    ensures
        doubled(k) >= 1,
    decreases k,
{
    if k > 0 {
        lemma_doubled_positive((k - 1) as nat);
    }
}

/// A read that filled its request grows the policy the same however much it
/// returned, a read that did not leaves the policy as it is, and a fixed
/// policy never changes.
pub proof fn lemma_record(s: Strategy, n: usize)
    ensures
        n >= s.spec_next() ==> s.spec_record(n) == s.spec_record(s.spec_next()),
        n < s.spec_next() ==> s.spec_record(n) == s,
        s is Exact ==> s.spec_record(n) == s,
        s.spec_record(n).spec_next() >= s.spec_next(),
        s matches Strategy::Adaptive { max, .. } ==> s.spec_record(n).spec_next() <= max,
{
}

impl ReadStrategy {
    /// The state a policy starts in.
    pub open spec fn spec_state(self) -> Strategy {
        match self {
            ReadStrategy::Exact(n) => Strategy::Exact(n),
            ReadStrategy::Adaptive { max } => Strategy::Adaptive {
                next: smaller(INIT_BUFFER_LEN as int, max as int) as usize,
                max,
            },
        }
    }

    pub fn state(self) -> (s: Strategy)
        ensures
            s == self.spec_state(),
            s.spec_next() <= match self {
                ReadStrategy::Exact(n) => n,
                ReadStrategy::Adaptive { max } => max,
            },
    {
        match self {
            ReadStrategy::Exact(n) => Strategy::Exact(n),
            ReadStrategy::Adaptive { max } => Strategy::Adaptive {
                next: if INIT_BUFFER_LEN <= max {
                    INIT_BUFFER_LEN
                } else {
                    max
                },
                max,
            },
        }
    }
}

impl Default for ReadStrategy {
    fn default() -> (s: Self)
        ensures
            s == (ReadStrategy::Adaptive { max: MAX_BUFFER_LEN }),
    {
        ReadStrategy::Adaptive { max: MAX_BUFFER_LEN }
    }
}

impl Strategy {
    /// The size the next read asks for: never more than the cap.
    pub open spec fn spec_next(self) -> usize {
        match self {
            Strategy::Exact(n) => n,
            Strategy::Adaptive { next, max } => if next <= max {
                next
            } else {
                max
            },
        }
    }

    /// The state after a read that returned `n` bytes: a read that filled
    /// its request doubles the size up to the cap, any other leaves it.
    pub open spec fn spec_record(self, n: usize) -> Strategy {
        match self {
            Strategy::Exact(m) => Strategy::Exact(m),
            Strategy::Adaptive { next, max } => if n >= self.spec_next() {
                Strategy::Adaptive { next: grown(next as int, max as int) as usize, max }
            } else {
                self
            },
        }
    }

    /// The state after `k` saturated reads in a row.
    pub open spec fn after_saturated(self, k: nat) -> Strategy
        decreases k,
    {
        if k == 0 {
            self
        } else {
            self.spec_record(self.spec_next()).after_saturated((k - 1) as nat)
        }
    }

    pub fn next(self) -> (n: usize)
        ensures
            n == self.spec_next(),
    {
        match self {
            Strategy::Exact(n) => n,
            Strategy::Adaptive { next, max } => if next <= max {
                next
            } else {
                max
            },
        }
    }

    pub fn record(&mut self, n: usize)
        ensures
            *final(self) == old(self).spec_record(n),
    {
        match self {
            Strategy::Exact(_) => {},
            Strategy::Adaptive { next, max } => {
                let asked: usize = if *next <= *max { *next } else { *max };
                if n >= asked {
                    let incpow: usize = if *next > usize::MAX / 2 {
                        usize::MAX
                    } else {
                        *next * 2
                    };
                    *next = if incpow <= *max { incpow } else { *max };
                }
            },
        }
    }
}

} // verus!
