//! Receiver-side deduplication and completion tracking.
//!
//! The receiver observes a noisy, repeating, unordered stream of decoded
//! chunk payloads.  The tracker keeps the set of fingerprints of payloads
//! already accepted, the payloads themselves in first-seen order, and the
//! time of the most recent newly accepted payload; it declares the transfer
//! complete once no new payload has appeared for longer than
//! `IDLE_TIMEOUT_MS`.

use vstd::prelude::*;
use std::collections::HashSet;
use std::collections::hash_map::DefaultHasher;
use std::hash::Hasher;
use vstd::std_specs::hash::DefaultHasherAdditionalSpecFns;
use crate::codec::chunk_views;

verus! {

broadcast use vstd::std_specs::hash::group_hash_axioms;

/// The fingerprint used for deduplication: the digest that std's
/// `DefaultHasher` computes over one write of the payload's UTF-8 bytes.
/// Collision-resistant in practice, but not injective: two distinct payloads
/// with equal fingerprints would be deduplicated wrongly.
pub open spec fn fingerprint_of(payload: Seq<char>) -> u64 {
    DefaultHasher::spec_finish(seq![vstd::utf8::encode_utf8(payload)])
}

/// Fingerprint of a chunk payload, for deduplication.
pub fn hash_string(s: &str) -> (r: u64)
    ensures
        r == fingerprint_of(s@),
{
    let mut hasher = DefaultHasher::new();
    hasher.write(s.as_bytes());
    proof {
        assert(hasher@ =~= seq![vstd::utf8::encode_utf8(s@)]);
    }
    hasher.finish()
}

/// Completion was declared with zero collected chunks.
#[derive(Debug, Clone, Copy, PartialEq, Eq)]
pub enum TrackerError {
    NoData,
}

/// The abstract state of the tracker: the payloads accepted so far in
/// first-seen order, the set of fingerprints already seen, and the time of
/// the most recent newly accepted payload.
#[verifier::ext_equal]
pub struct TrackerState {
    pub received: Seq<Seq<char>>,
    pub seen: Set<u64>,
    pub last_new_ms: u64,
}

/// The state of a fresh tracker.
pub open spec fn initial_state() -> TrackerState {
    TrackerState { received: Seq::empty(), seen: Set::empty(), last_new_ms: 0 }
}

/// One deduplication step: a payload whose fingerprint was already seen is
/// discarded silently; a new one is appended, its fingerprint recorded, and
/// the transfer clock reset to `now_ms`.
pub open spec fn step(s: TrackerState, payload: Seq<char>, now_ms: u64) -> TrackerState {
    if s.seen.contains(fingerprint_of(payload)) {
        s
    } else {
        TrackerState {
            received: s.received.push(payload),
            seen: s.seen.insert(fingerprint_of(payload)),
            last_new_ms: now_ms,
        }
    }
}

/// The state after a whole sequence of submissions, each a payload with the
/// time it was observed.
pub open spec fn run(s: TrackerState, events: Seq<(Seq<char>, u64)>) -> TrackerState
    decreases events.len(),
{
    if events.len() == 0 {
        s
    } else {
        run(step(s, events[0].0, events[0].1), events.drop_first())
    }
}

/// When the tracker infers transfer completion: at least one chunk was
/// collected, and more than `IDLE_TIMEOUT_MS` have passed since the last
/// newly accepted one.
pub open spec fn spec_complete(s: TrackerState, now_ms: u64) -> bool {
    s.received.len() > 0 && now_ms >= s.last_new_ms && now_ms - s.last_new_ms
        > crate::IDLE_TIMEOUT_MS
}

/// Receiver-side dedup and completion tracker.
pub struct Tracker {
    seen: HashSet<u64>,
    received: Vec<String>,
    last_new_ms: u64,
}

impl View for Tracker {
    type V = TrackerState;

    closed spec fn view(&self) -> TrackerState {
        TrackerState {
            received: chunk_views(self.received@),
            seen: self.seen@,
            last_new_ms: self.last_new_ms,
        }
    }
}

impl Tracker {
    /// A fresh tracker: nothing seen, nothing received.
    pub fn new() -> (t: Tracker)
        ensures
            t@ == initial_state(),
    {
        let t = Tracker { seen: HashSet::new(), received: Vec::new(), last_new_ms: 0 };
        proof {
            assert(chunk_views(t.received@) =~= Seq::<Seq<char>>::empty());
            assert(t@ =~= initial_state());
        }
        t
    }

    /// Feeds one decoded payload to the tracker.  A payload whose
    /// fingerprint was already seen is discarded silently; a new one is
    /// appended to the received sequence, and the transfer clock is reset to
    /// `now_ms`.
    pub fn submit(&mut self, payload: String, now_ms: u64) -> (accepted: bool)
        ensures
            final(self)@ == step(old(self)@, payload@, now_ms),
            accepted == !old(self)@.seen.contains(fingerprint_of(payload@)),
    {
        let fp = hash_string(payload.as_str());
        if self.seen.contains(&fp) {
            false
        } else {
            let ghost pre = self@;
            self.seen.insert(fp);
            self.received.push(payload);
            self.last_new_ms = now_ms;
            proof {
                assert(chunk_views(self.received@) =~= pre.received.push(payload@));
                assert(self@ =~= step(pre, payload@, now_ms));
            }
            true
        }
    }

    /// Whether the transfer is complete at time `now_ms`.
    pub fn is_complete(&self, now_ms: u64) -> (r: bool)
        ensures
            r == spec_complete(self@, now_ms),
    {
        self.received.len() > 0 && now_ms >= self.last_new_ms && now_ms - self.last_new_ms
            > crate::IDLE_TIMEOUT_MS
    }

    /// How many distinct chunks have been accepted so far.
    pub fn chunk_count(&self) -> (n: usize)
        ensures
            n == self@.received.len(),
    {
        self.received.len()
    }

    /// How many fingerprints have been seen so far.
    pub fn seen_count(&self) -> (n: usize)
        ensures
            n == self@.seen.len(),
    {
        self.seen.len()
    }

    /// Ends collection: hands back the received payloads in first-seen
    /// order, or reports that completion was declared with zero chunks.
    pub fn finalize(self) -> (r: Result<Vec<String>, TrackerError>)
        ensures
            match r {
                Ok(cs) => chunk_views(cs@) == self@.received && self@.received.len() > 0,
                Err(e) => e == TrackerError::NoData && self@.received.len() == 0,
            },
    {
        if self.received.len() == 0 {
            Err(TrackerError::NoData)
        } else {
            Ok(self.received)
        }
    }
}

/// The distinct payloads among a sequence of submissions.
pub open spec fn payload_set(events: Seq<(Seq<char>, u64)>) -> Set<Seq<char>>
    decreases events.len(),
{
    if events.len() == 0 {
        Set::empty()
    } else {
        payload_set(events.drop_first()).insert(events[0].0)
    }
}

/// The fingerprints of a set of payloads.
pub open spec fn fingerprint_image(payloads: Set<Seq<char>>) -> Set<u64> {
    Set::new(
        |h: u64| exists|p: Seq<char>| payloads.contains(p) && h == #[trigger] fingerprint_of(p),
    )
}

/// Law (dedup, first half): once a payload's fingerprint is in the seen
/// set, submitting that payload again changes nothing.
pub proof fn lemma_resubmit_unchanged(s: TrackerState, payload: Seq<char>, now_ms: u64)
    requires
        s.seen.contains(fingerprint_of(payload)),
    ensures
        step(s, payload, now_ms) == s,
{
}

proof fn lemma_run_frozen(s: TrackerState, events: Seq<(Seq<char>, u64)>, payload: Seq<char>)
    requires
        s.seen.contains(fingerprint_of(payload)),
        forall|i: int| 0 <= i < events.len() ==> (#[trigger] events[i]).0 == payload,
    ensures
        run(s, events) == s,
    decreases events.len(),
{
    if events.len() > 0 {
        assert(step(s, events[0].0, events[0].1) == s);
        assert(forall|i: int|
            0 <= i < events.drop_first().len() ==> (#[trigger] events.drop_first()[i]).0
                == payload);
        lemma_run_frozen(s, events.drop_first(), payload);
    }
}

/// Law (idempotent dedup): feeding the same payload to the tracker any
/// number of times grows the received sequence by at most one; after the
/// first submission the state never changes again.
pub proof fn lemma_dedup_idempotent(
    s: TrackerState,
    events: Seq<(Seq<char>, u64)>,
    payload: Seq<char>,
)
    requires
        forall|i: int| 0 <= i < events.len() ==> (#[trigger] events[i]).0 == payload,
    ensures
        run(s, events).received.len() <= s.received.len() + 1,
        events.len() > 0 ==> run(s, events) == step(s, payload, events[0].1),
{
    if events.len() > 0 {
        let s1 = step(s, payload, events[0].1);
        assert(s1.seen.contains(fingerprint_of(payload)));
        assert(forall|i: int|
            0 <= i < events.drop_first().len() ==> (#[trigger] events.drop_first()[i]).0
                == payload);
        lemma_run_frozen(s1, events.drop_first(), payload);
    }
}

proof fn lemma_run_counts(
    s: TrackerState,
    events: Seq<(Seq<char>, u64)>,
    submitted: Set<Seq<char>>,
)
    requires
        submitted.finite(),
        s.seen.finite(),
        s.seen == fingerprint_image(submitted),
        s.seen.len() == s.received.len(),
        s.received.len() == submitted.len(),
        forall|p: Seq<char>, q: Seq<char>|
            (submitted.contains(p) || payload_set(events).contains(p)) && (submitted.contains(q)
                || payload_set(events).contains(q)) && #[trigger] fingerprint_of(p)
                == #[trigger] fingerprint_of(q) ==> p == q,
    ensures
        run(s, events).seen.finite(),
        run(s, events).seen == fingerprint_image(submitted.union(payload_set(events))),
        run(s, events).seen.len() == run(s, events).received.len(),
        run(s, events).received.len() == submitted.union(payload_set(events)).len(),
    decreases events.len(),
{
    if events.len() == 0 {
        assert(submitted.union(payload_set(events)) =~= submitted);
    } else {
        let p = events[0].0;
        let rest = events.drop_first();
        let s1 = step(s, p, events[0].1);
        assert(payload_set(events).contains(p));
        assert(forall|q: Seq<char>|
            payload_set(rest).contains(q) ==> #[trigger] payload_set(events).contains(q));
        if s.seen.contains(fingerprint_of(p)) {
            let q = choose|q: Seq<char>|
                submitted.contains(q) && fingerprint_of(p) == #[trigger] fingerprint_of(q);
            assert(q == p);
            assert(submitted.contains(p));
            assert(submitted.union(payload_set(rest)) =~= submitted.union(payload_set(events)));
            lemma_run_counts(s, rest, submitted);
        } else {
            assert(!submitted.contains(p)) by {
                if submitted.contains(p) {
                    assert(fingerprint_image(submitted).contains(fingerprint_of(p)));
                }
            }
            let submitted1 = submitted.insert(p);
            assert(s1.seen =~= fingerprint_image(submitted1)) by {
                assert forall|h: u64| s1.seen.contains(h) implies fingerprint_image(
                    submitted1,
                ).contains(h) by {
                    if h == fingerprint_of(p) {
                        assert(submitted1.contains(p));
                    } else {
                        let q = choose|q: Seq<char>|
                            submitted.contains(q) && h == #[trigger] fingerprint_of(q);
                        assert(submitted1.contains(q));
                    }
                }
                assert forall|h: u64| fingerprint_image(submitted1).contains(h) implies
                    s1.seen.contains(h) by {
                    let q = choose|q: Seq<char>|
                        submitted1.contains(q) && h == #[trigger] fingerprint_of(q);
                    if q == p {
                        assert(h == fingerprint_of(p));
                    } else {
                        assert(submitted.contains(q));
                        assert(fingerprint_image(submitted).contains(h));
                    }
                }
            }
            assert(submitted1.union(payload_set(rest)) =~= submitted.union(payload_set(events)));
            lemma_run_counts(s1, rest, submitted1);
        }
    }
}

/// Law (dedup, second half): starting from a fresh tracker, and absent
/// fingerprint collisions among the payloads submitted, the seen set's size
/// equals the number of distinct payloads ever submitted, as does the
/// received sequence's length.
pub proof fn lemma_seen_counts_distinct(events: Seq<(Seq<char>, u64)>)
    requires
        forall|i: int, j: int|
            0 <= i < events.len() && 0 <= j < events.len() && #[trigger] fingerprint_of(
                events[i].0,
            ) == #[trigger] fingerprint_of(events[j].0) ==> events[i].0 == events[j].0,
    ensures
        run(initial_state(), events).seen.len() == payload_set(events).len(),
        run(initial_state(), events).received.len() == payload_set(events).len(),
{
    lemma_payload_set_members(events);
    assert(fingerprint_image(Set::empty()) =~= Set::<u64>::empty());
    lemma_run_counts(initial_state(), events, Set::empty());
    assert(Set::empty().union(payload_set(events)) =~= payload_set(events));
}

proof fn lemma_payload_set_members(events: Seq<(Seq<char>, u64)>)
    ensures
        forall|p: Seq<char>|
            #[trigger] payload_set(events).contains(p) <==> exists|i: int|
                0 <= i < events.len() && (#[trigger] events[i]).0 == p,
    decreases events.len(),
{
    if events.len() > 0 {
        let rest = events.drop_first();
        lemma_payload_set_members(rest);
        assert forall|p: Seq<char>| #[trigger] payload_set(events).contains(p) implies exists|i: int|
            0 <= i < events.len() && (#[trigger] events[i]).0 == p by {
            if p == events[0].0 {
                assert((events[0]).0 == p);
            } else {
                assert(payload_set(rest).contains(p));
                assert(exists|i: int| 0 <= i < rest.len() && (#[trigger] rest[i]).0 == p);
                let i = choose|i: int| 0 <= i < rest.len() && (#[trigger] rest[i]).0 == p;
                assert(events[i + 1] == rest[i]);
                assert((events[i + 1]).0 == p);
            }
        }
        assert forall|p: Seq<char>|
            (exists|i: int| 0 <= i < events.len() && (#[trigger] events[i]).0 == p) implies
            #[trigger] payload_set(events).contains(p) by {
            let i = choose|i: int| 0 <= i < events.len() && (#[trigger] events[i]).0 == p;
            if i == 0 {
                assert(payload_set(events).contains(p));
            } else {
                assert(rest[i - 1] == events[i]);
                assert(exists|j: int| 0 <= j < rest.len() && (#[trigger] rest[j]).0 == p);
                assert(payload_set(rest).contains(p));
                assert(payload_set(events).contains(p));
            }
        }
    }
}

/// Law (completion timing): with at least one chunk collected, completion
/// is not declared at any tick within the idle timeout of the last newly
/// accepted chunk, and is declared at any tick strictly beyond it — so a
/// polling loop that stops at the first complete tick stops exactly once,
/// immediately after the gap is first detected.
pub proof fn lemma_completion_timing(s: TrackerState, t_before: u64, t_after: u64)
    requires
        s.received.len() > 0,
        t_before - s.last_new_ms <= crate::IDLE_TIMEOUT_MS,
        t_after >= s.last_new_ms,
        t_after - s.last_new_ms > crate::IDLE_TIMEOUT_MS,
    ensures
        !spec_complete(s, t_before),
        spec_complete(s, t_after),
{
}

/// Law (no completion without data): a tracker that has accepted nothing
/// never declares completion, however long the silence.
pub proof fn lemma_no_completion_without_data(s: TrackerState, now_ms: u64)
    requires
        s.received.len() == 0,
    ensures
        !spec_complete(s, now_ms),
{
}

} // verus!
