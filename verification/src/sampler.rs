//! Constrained retry-sampling over a pool of candidates.
//!
//! [`select`] repeatedly draws a candidate from the pool with the caller's
//! [`DrawStream`], resolves its [`Descriptor`], and tests it against the
//! [`Criteria`]: an iteration passes when the candidate is discovered (or
//! discovery is not required) and its key is not banned. The loop exits when
//! the per-iteration pass count reaches the criteria's threshold or the
//! retry budget runs out; on exhaustion under `require_discovered` the
//! fixed fallback identity is returned instead of anything drawn.
//!
//! The per-iteration pass count is 0 or 1 while the threshold is the size of
//! an exclusion-flag set and may exceed 1; with a threshold above 1 the loop
//! can only exit through exhaustion. That coupling is inherited deliberately
//! from the host code; [`lemma_high_threshold_exhausts`] records it rather
//! than repairing it.

use vstd::prelude::*;

use crate::stream::{DrawStream, StreamModel};

verus! {

/// Candidate metadata as the sampler reads it: the identity key and the
/// discovery flag of the pool entry.
#[derive(Clone, Copy, PartialEq, Eq, Structural, Debug)]
pub struct Descriptor {
    pub key: u64,
    pub discovered: bool,
}

/// The acceptance-filter configuration: a pass-count threshold (the size of
/// an externally supplied exclusion-flag set), an optional banned key, and
/// the strict discovery mode.
#[derive(Clone, Copy, Debug)]
pub struct Criteria {
    pub threshold: u32,
    pub banned_key: Option<u64>,
    pub require_discovered: bool,
}

/// The acceptance test for one drawn candidate.
pub open spec fn spec_accepts(d: Descriptor, c: Criteria) -> bool {
    &&& (d.discovered || !c.require_discovered)
    &&& (c.banned_key is None || d.key != c.banned_key->0)
}

/// The per-iteration pass count: 1 when the acceptance test holds, else 0.
/// It is computed fresh each iteration, never accumulated.
pub open spec fn spec_passes(d: Descriptor, c: Criteria) -> nat {
    if spec_accepts(d, c) {
        1
    } else {
        0
    }
}

/// What one run of the sampling loop produces: the returned candidate
/// identity, the number of draws consumed, and the stream as it is left.
pub ghost struct SelectOutcome {
    pub key: u64,
    pub draws: nat,
    pub stream: StreamModel,
}

/// The sampling loop, unrolled: each iteration draws one index, spends one
/// unit of budget, and exits when the pass count reaches the threshold or
/// the budget is spent. On exhaustion under the strict discovery mode the
/// fallback identity wins, even over a passing final draw.
pub open spec fn spec_select(
    pool: Seq<Descriptor>,
    c: Criteria,
    s: StreamModel,
    tries: nat,
    fallback_key: u64,
) -> SelectOutcome
    recommends
        pool.len() > 0,
        s.wf(),
        tries >= 1,
    decreases tries,
{
    let idx = s.head() as int % pool.len() as int;
    let d = pool[idx];
    if tries <= 1 {
        SelectOutcome {
            key: if c.require_discovered {
                fallback_key
            } else {
                d.key
            },
            draws: 1,
            stream: s.step(),
        }
    } else if spec_passes(d, c) >= c.threshold {
        SelectOutcome { key: d.key, draws: 1, stream: s.step() }
    } else {
        let rest = spec_select(pool, c, s.step(), (tries - 1) as nat, fallback_key);
        SelectOutcome { key: rest.key, draws: rest.draws + 1, stream: rest.stream }
    }
}

/// Bounded retries: the loop consumes at least one and at most `tries`
/// draws, and leaves the stream exactly that many steps further on, values
/// untouched.
pub proof fn lemma_select_bounded(
    pool: Seq<Descriptor>,
    c: Criteria,
    s: StreamModel,
    tries: nat,
    fallback_key: u64,
)
    requires
        pool.len() > 0,
        s.wf(),
        tries >= 1,
    ensures
        1 <= spec_select(pool, c, s, tries, fallback_key).draws <= tries,
        spec_select(pool, c, s, tries, fallback_key).stream == s.advanced(
            spec_select(pool, c, s, tries, fallback_key).draws,
        ),
        spec_select(pool, c, s, tries, fallback_key).stream.wf(),
        spec_select(pool, c, s, tries, fallback_key).stream.values == s.values,
    decreases tries,
{
    crate::stream::lemma_step_advanced(s, 0);
    let idx = s.head() as int % pool.len() as int;
    let d = pool[idx];
    if tries <= 1 || spec_passes(d, c) >= c.threshold {
        assert(s.step() == s.advanced(1));
    } else {
        lemma_select_bounded(pool, c, s.step(), (tries - 1) as nat, fallback_key);
        let rest = spec_select(pool, c, s.step(), (tries - 1) as nat, fallback_key);
        crate::stream::lemma_advanced_compose(s, 1, rest.draws);
        assert(s.step() == s.advanced(1));
    }
}

/// Determinism: a fixed pool, criteria, draw stream, budget and fallback fix
/// the outcome — repeated runs return the same candidate.
pub proof fn lemma_select_deterministic(
    pool1: Seq<Descriptor>,
    pool2: Seq<Descriptor>,
    c1: Criteria,
    c2: Criteria,
    s1: StreamModel,
    s2: StreamModel,
    tries1: nat,
    tries2: nat,
    fallback1: u64,
    fallback2: u64,
)
    requires
        pool1 == pool2,
        c1 == c2,
        s1 == s2,
        tries1 == tries2,
        fallback1 == fallback2,
    ensures
        spec_select(pool1, c1, s1, tries1, fallback1) == spec_select(
            pool2,
            c2,
            s2,
            tries2,
            fallback2,
        ),
{
}

/// Fallback correctness: when every pool candidate fails the acceptance test
/// and the strict discovery mode is on, the loop runs its budget out and
/// returns the fallback identity, never a pool-drawn candidate. A threshold
/// of zero is excluded: there the exit test passes on any draw whatever the
/// acceptance test said.
pub proof fn lemma_select_fallback(
    pool: Seq<Descriptor>,
    c: Criteria,
    s: StreamModel,
    tries: nat,
    fallback_key: u64,
)
    requires
        pool.len() > 0,
        s.wf(),
        tries >= 1,
        c.require_discovered,
        c.threshold >= 1,
        forall|i: int| 0 <= i < pool.len() ==> !spec_accepts(#[trigger] pool[i], c),
    ensures
        spec_select(pool, c, s, tries, fallback_key).key == fallback_key,
    decreases tries,
{
    crate::stream::lemma_step_advanced(s, 0);
    let idx = s.head() as int % pool.len() as int;
    vstd::arithmetic::div_mod::lemma_mod_bound(s.head() as int, pool.len() as int);
    assert(!spec_accepts(pool[idx], c));
    if tries > 1 {
        lemma_select_fallback(pool, c, s.step(), (tries - 1) as nat, fallback_key);
    }
}

/// A threshold above the per-iteration pass count can never be reached: the
/// loop then exits only through exhaustion, returning the fallback under the
/// strict discovery mode and the budget's final draw otherwise. Inherited
/// host behavior, recorded as found.
pub proof fn lemma_high_threshold_exhausts(
    pool: Seq<Descriptor>,
    c: Criteria,
    s: StreamModel,
    tries: nat,
    fallback_key: u64,
)
    requires
        pool.len() > 0,
        s.wf(),
        tries >= 1,
        c.threshold >= 2,
    ensures
        spec_select(pool, c, s, tries, fallback_key).draws == tries,
        c.require_discovered ==> spec_select(pool, c, s, tries, fallback_key).key == fallback_key,
    decreases tries,
{
    crate::stream::lemma_step_advanced(s, 0);
    if tries > 1 {
        lemma_high_threshold_exhausts(pool, c, s.step(), (tries - 1) as nat, fallback_key);
    }
}

/// The exec mirror of the acceptance test.
pub fn accepts(d: &Descriptor, c: &Criteria) -> (r: bool)
    ensures
        r == spec_accepts(*d, *c),
{
    let discovery_ok = d.discovered || !c.require_discovered;
    let ban_ok = match c.banned_key {
        Option::None => true,
        Option::Some(b) => d.key != b,
    };
    discovery_ok && ban_ok
}

/// Constrained retry-sampling: draw candidates from the pool with the
/// caller's stream until the pass count reaches the threshold or the budget
/// of `max_tries` draws is spent; on exhaustion under `require_discovered`
/// the fixed `fallback_key` is returned. The result is the identity key of
/// the selected candidate, exactly [`spec_select`] of the inputs; the pool
/// is only read, and at most `max_tries` draws are consumed.
#[verifier::loop_isolation(false)]
pub fn select(
    pool: &Vec<Descriptor>,
    criteria: &Criteria,
    src: &mut DrawStream,
    max_tries: u32,
    fallback_key: u64,
) -> (r: u64)
    requires
        pool@.len() > 0,
        max_tries >= 1,
        old(src).wf(),
    ensures
        final(src).wf(),
        final(src)@.values == old(src)@.values,
        r == spec_select(pool@, *criteria, old(src)@, max_tries as nat, fallback_key).key,
        final(src)@ == spec_select(pool@, *criteria, old(src)@, max_tries as nat, fallback_key)
            .stream,
        spec_select(pool@, *criteria, old(src)@, max_tries as nat, fallback_key).draws
            <= max_tries,
{
    proof {
        lemma_select_bounded(pool@, *criteria, old(src)@, max_tries as nat, fallback_key);
    }
    let ghost total = spec_select(pool@, *criteria, old(src)@, max_tries as nat, fallback_key);
    let mut tries: u32 = max_tries;
    loop
        invariant
            1 <= tries <= max_tries,
            src.wf(),
            src@.values == old(src)@.values,
            spec_select(pool@, *criteria, src@, tries as nat, fallback_key).key == total.key,
            spec_select(pool@, *criteria, src@, tries as nat, fallback_key).stream
                == total.stream,
        decreases tries,
    {
        let ghost ps = src@;
        let idx = src.draw_below(pool.len());
        let d = pool[idx];
        let passes: u32 = if accepts(&d, criteria) {
            1
        } else {
            0
        };
        tries = tries - 1;
        if tries == 0 {
            let r = if criteria.require_discovered {
                fallback_key
            } else {
                d.key
            };
            proof {
                assert(spec_select(pool@, *criteria, ps, (tries + 1) as nat, fallback_key).key
                    == r);
                assert(spec_select(pool@, *criteria, ps, (tries + 1) as nat, fallback_key).stream
                    == src@);
            }
            return r;
        }
        if passes >= criteria.threshold {
            proof {
                assert(spec_passes(d, *criteria) >= criteria.threshold);
                assert(spec_select(pool@, *criteria, ps, (tries + 1) as nat, fallback_key).key
                    == d.key);
                assert(spec_select(pool@, *criteria, ps, (tries + 1) as nat, fallback_key).stream
                    == src@);
            }
            return d.key;
        }
        proof {
            let unrolled = spec_select(pool@, *criteria, ps, (tries + 1) as nat, fallback_key);
            let rest = spec_select(pool@, *criteria, src@, tries as nat, fallback_key);
            assert(unrolled.key == rest.key);
            assert(unrolled.stream == rest.stream);
        }
    }
}

} // verus!
