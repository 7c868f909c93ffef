//! The draw source: an explicit, deterministic supply of pseudo-random values.
//!
//! The host's draw function relies on implicit global generator state; here
//! that state is an explicit object the caller owns. A [`DrawStream`] holds a
//! non-empty cyclic list of `u64` values and a cursor; each draw returns the
//! value under the cursor and moves the cursor one step around the cycle.
//! The caller either supplies the values directly or expands a seed with
//! [`DrawStream::from_seed`], so the whole draw sequence — and therefore every
//! result computed from it — is determined by the caller's input.

use vstd::prelude::*;

verus! {

/// Mathematical model of a [`DrawStream`]: the cyclic list of values and the
/// position of the next draw.
pub ghost struct StreamModel {
    pub values: Seq<u64>,
    pub pos: nat,
}

impl StreamModel {
    /// A model is well formed when it holds at least one value and the cursor
    /// lies inside the list.
    pub open spec fn wf(self) -> bool {
        self.values.len() > 0 && self.pos < self.values.len()
    }

    /// The value the next draw returns.
    pub open spec fn head(self) -> u64
        recommends
            self.wf(),
    {
        self.values[self.pos as int]
    }

    /// The model after one draw: the same values, the cursor one step further
    /// around the cycle.
    pub open spec fn step(self) -> StreamModel
        recommends
            self.wf(),
    {
        StreamModel { values: self.values, pos: ((self.pos + 1) % self.values.len()) as nat }
    }

    /// The model after `n` draws.
    pub open spec fn advanced(self, n: nat) -> StreamModel
        recommends
            self.wf(),
    {
        StreamModel { values: self.values, pos: ((self.pos + n) % self.values.len()) as nat }
    }
}

/// Stepping a well-formed model keeps it well formed and agrees with
/// `advanced`: one step is one draw, and a step after `n` draws makes `n + 1`.
pub proof fn lemma_step_advanced(s: StreamModel, n: nat)
    requires
        s.wf(),
    ensures
        s.step().wf(),
        s.advanced(0) == s,
        s.advanced(n).wf(),
        s.advanced(n).step() == s.advanced(n + 1),
        s.advanced(n).values == s.values,
{
    let len = s.values.len() as int;
    vstd::arithmetic::div_mod::lemma_mod_bound(s.pos as int + 1, len);
    vstd::arithmetic::div_mod::lemma_mod_bound(s.pos as int + n as int, len);
    vstd::arithmetic::div_mod::lemma_small_mod(s.pos, s.values.len());
    assert(((s.pos + n) % s.values.len() + 1) % s.values.len() == (s.pos + (n + 1))
        % s.values.len()) by {
        vstd::arithmetic::div_mod::lemma_add_mod_noop_right(1, (s.pos + n) as int, len);
    }
    assert(s.advanced(n).step() == s.advanced(n + 1));
    assert(s.advanced(0) == s);
}

/// Advancing twice advances by the sum.
pub proof fn lemma_advanced_compose(s: StreamModel, m: nat, n: nat)
    requires
        s.wf(),
    ensures
        s.advanced(m).advanced(n) == s.advanced(m + n),
{
    let len = s.values.len() as int;
    vstd::arithmetic::div_mod::lemma_mod_bound(s.pos as int + m as int, len);
    assert((n + (s.pos + m) % s.values.len()) % s.values.len() == (n + s.pos as int + m as int)
        % len) by {
        vstd::arithmetic::div_mod::lemma_add_mod_noop_right(
            n as int,
            (s.pos + m) as int,
            len,
        );
    }
    assert(s.advanced(m).advanced(n) == s.advanced(m + n));
}

/// A deterministic draw source with an explicit cursor. See the module text.
pub struct DrawStream {
    values: Vec<u64>,
    pos: usize,
}

impl View for DrawStream {
    type V = StreamModel;

    closed spec fn view(&self) -> StreamModel {
        StreamModel { values: self.values@, pos: self.pos as nat }
    }
}

/// One round of the seed expansion used by [`DrawStream::from_seed`]: the
/// output word for a given counter state (a 64-bit mix of shifts, xors and
/// wrapping multiplications).
pub open spec fn spec_mix(z: u64) -> u64 {
    let a = vstd::wrapping::u64_specs::wrapping_mul(z ^ (z >> 30), 0xBF58476D1CE4E5B9);
    let b = vstd::wrapping::u64_specs::wrapping_mul(a ^ (a >> 27), 0x94D049BB133111EB);
    b ^ (b >> 33)
}

/// The `i`th counter state for a seed: `seed + (i + 1) * increment`, wrapping.
pub open spec fn spec_counter(seed: u64, i: nat) -> u64
    decreases i,
{
    if i == 0 {
        vstd::wrapping::u64_specs::wrapping_add(seed, 0x9E3779B97F4A7C15)
    } else {
        vstd::wrapping::u64_specs::wrapping_add(spec_counter(seed, (i - 1) as nat), 0x9E3779B97F4A7C15)
    }
}

/// The whole expansion of a seed into `n` draw values.
pub open spec fn spec_seed_values(seed: u64, n: nat) -> Seq<u64> {
    Seq::new(n, |i: int| spec_mix(spec_counter(seed, i as nat)))
}

impl DrawStream {
    /// Well-formedness: the underlying model is well formed. Constructors
    /// establish it and every draw preserves it.
    pub open spec fn wf(&self) -> bool {
        self@.wf()
    }

    /// A stream that replays the given values in order, cyclically.
    pub fn new(values: Vec<u64>) -> (s: DrawStream)
        requires
            values@.len() > 0,
        ensures
            s.wf(),
            s@.values == values@,
            s@.pos == 0,
    {
        DrawStream { values, pos: 0 }
    }

    /// A stream of `n` values expanded deterministically from a seed, so that
    /// a fixed seed fixes the whole draw sequence.
    pub fn from_seed(seed: u64, n: usize) -> (s: DrawStream)
        requires
            n > 0,
        ensures
            s.wf(),
            s@.values == spec_seed_values(seed, n as nat),
            s@.pos == 0,
    {
        let mut values: Vec<u64> = Vec::new();
        let mut z: u64 = seed;
        let mut i: usize = 0;
        while i < n
            invariant
                i <= n,
                values@.len() == i as nat,
                i > 0 ==> z == spec_counter(seed, (i - 1) as nat),
                i == 0 ==> z == seed,
                forall|k: int|
                    0 <= k < i ==> values@[k] == spec_mix(spec_counter(seed, k as nat)),
            decreases n - i,
        {
            z = z.wrapping_add(0x9E3779B97F4A7C15);
            let a = (z ^ (z >> 30u64)).wrapping_mul(0xBF58476D1CE4E5B9);
            let b = (a ^ (a >> 27u64)).wrapping_mul(0x94D049BB133111EB);
            let x = b ^ (b >> 33u64);
            assert(z == spec_counter(seed, i as nat));
            assert(x == spec_mix(spec_counter(seed, i as nat)));
            values.push(x);
            i = i + 1;
        }
        assert(values@ =~= spec_seed_values(seed, n as nat));
        DrawStream { values, pos: 0 }
    }

    /// The cursor: the position of the next draw in the cyclic list.
    pub fn position(&self) -> (r: usize)
        ensures
            r == self@.pos,
    {
        self.pos
    }

    /// One draw: the value under the cursor; the cursor moves one step.
    pub fn draw(&mut self) -> (r: u64)
        requires
            old(self).wf(),
        ensures
            final(self).wf(),
            r == old(self)@.head(),
            final(self)@ == old(self)@.step(),
    {
        let r = self.values[self.pos];
        let len = self.values.len();
        self.pos = if self.pos + 1 == len {
            0
        } else {
            self.pos + 1
        };
        proof {
            let len = old(self)@.values.len();
            if old(self)@.pos + 1 == len {
                assert((old(self)@.pos + 1) % len == 0) by {
                    vstd::arithmetic::div_mod::lemma_mod_self_0(len as int);
                }
            } else {
                vstd::arithmetic::div_mod::lemma_small_mod(old(self)@.pos + 1, len);
            }
            assert(self@ == old(self)@.step());
        }
        r
    }

    /// One draw reduced below a bound, used to pick an index.
    pub fn draw_below(&mut self, bound: usize) -> (r: usize)
        requires
            old(self).wf(),
            bound > 0,
        ensures
            final(self).wf(),
            final(self)@ == old(self)@.step(),
            r < bound,
            r == old(self)@.head() as int % bound as int,
    {
        let d = self.draw();
        (d % (bound as u64)) as usize
    }
}

} // verus!
