use vstd::prelude::*;
use crate::lock::{attempt_wins, release_sound, FREE, HELD};

verus! {

/// One step that a thread, named by a number, takes on a shared token word.
pub enum TokenEvent {
    /// Swap `HELD` into the word; the thread holds the token if it was free.
    Attempt(nat),
    /// Swap `FREE` into the word, as a guard does when it is released.
    Release(nat),
}

/// The token word together with the set of threads that hold the token.
pub struct TokenModel {
    pub word: i32,
    pub holders: Set<nat>,
}

/// The token as it starts: free, held by nobody.
pub open spec fn initial() -> TokenModel {
    TokenModel { word: FREE, holders: Set::empty() }
}

pub open spec fn attempt(s: TokenModel, t: nat) -> TokenModel {
    TokenModel {
        word: HELD,
        holders: if attempt_wins(s.word) {
            s.holders.insert(t)
        } else {
            s.holders
        },
    }
}

pub open spec fn release(s: TokenModel, t: nat) -> TokenModel {
    TokenModel { word: FREE, holders: s.holders.remove(t) }
}

pub open spec fn step(s: TokenModel, e: TokenEvent) -> TokenModel {
    match e {
        TokenEvent::Attempt(t) => attempt(s, t),
        TokenEvent::Release(t) => release(s, t),
    }
}

/// A release comes only from a thread that holds the token: the guard that
/// releases it is handed out by a won attempt alone.
pub open spec fn may_step(s: TokenModel, e: TokenEvent) -> bool {
    match e {
        TokenEvent::Attempt(_) => true,
        TokenEvent::Release(t) => s.holders.contains(t),
    }
}

/// The state after the events, taken in order from `s`.
pub open spec fn run(s: TokenModel, events: Seq<TokenEvent>) -> TokenModel
    decreases events.len(),
{
    if events.len() == 0 {
        s
    } else {
        run(step(s, events[0]), events.subrange(1, events.len() as int))
    }
}

/// Every event of the sequence is one that may happen where it stands.
pub open spec fn disciplined(s: TokenModel, events: Seq<TokenEvent>) -> bool
    decreases events.len(),
{
    events.len() == 0 || (may_step(s, events[0]) && disciplined(
        step(s, events[0]),
        events.subrange(1, events.len() as int),
    ))
}

/// The word says free exactly when nobody holds the token, and held exactly
/// when one thread does.
pub open spec fn consistent(s: TokenModel) -> bool {
    &&& s.holders.finite()
    &&& (s.word == FREE && s.holders.len() == 0) || (s.word == HELD && s.holders.len() == 1)
}

proof fn lemma_step_consistent(s: TokenModel, e: TokenEvent)
    requires
        consistent(s),
        may_step(s, e),
    ensures
        consistent(step(s, e)),
{
    match e {
        TokenEvent::Attempt(t) => {
            if attempt_wins(s.word) {
                assert(s.holders =~= Set::<nat>::empty()) by {
                    if s.holders.len() == 0 {
                        s.holders.lemma_len0_is_empty();
                    }
                }
            }
        },
        TokenEvent::Release(t) => {
        },
    }
}

proof fn lemma_run_consistent(s: TokenModel, events: Seq<TokenEvent>)
    requires
        consistent(s),
        disciplined(s, events),
    ensures
        consistent(run(s, events)),
    decreases events.len(),
{
    if events.len() > 0 {
        lemma_step_consistent(s, events[0]);
        lemma_run_consistent(step(s, events[0]), events.subrange(1, events.len() as int));
    }
}

/// Mutual exclusion: whatever order the threads' attempts and releases come
/// in, as long as only holders release, at most one thread holds the token.
pub proof fn lemma_mutual_exclusion(events: Seq<TokenEvent>)
    requires
        disciplined(initial(), events),
    ensures
        run(initial(), events).holders.len() <= 1,
{
    lemma_run_consistent(initial(), events);
}

/// Pairing: once a thread has won a free token, another attempt does not win
/// and the holder's release finds the token held; after that release the
/// next attempt wins at once.
pub proof fn lemma_acquire_release_pairing(s: TokenModel, t: nat, u: nat)
    requires
        consistent(s),
        s.word == FREE,
    ensures
        attempt_wins(s.word),
        attempt(s, t).holders == set![t],
        !attempt_wins(attempt(s, t).word),
        attempt(attempt(s, t), u) == attempt(s, t),
        release_sound(attempt(s, t).word),
        release(attempt(s, t), t) == initial(),
        attempt_wins(release(attempt(s, t), t).word),
{
    s.holders.lemma_len0_is_empty();
    assert(attempt(s, t).holders =~= set![t]);
    assert(release(attempt(s, t), t).holders =~= Set::<nat>::empty());
}

/// A release made by a holder never finds the token in any state but held.
pub proof fn lemma_disciplined_release_sound(s: TokenModel, t: nat)
    requires
        consistent(s),
        s.holders.contains(t),
    ensures
        release_sound(s.word),
        consistent(release(s, t)),
{
    if s.word == FREE {
        s.holders.lemma_len0_is_empty();
    }
}

} // verus!
