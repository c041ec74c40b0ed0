//! Laws of the registry, proved over the transitions of [`crate::model`].

use vstd::prelude::*;
use crate::model::{
    EntryModel, RegistryModel, grant_step, pin_step, registry_inv, score_of, submit_step,
    vote_applies,
};

verus! {

/// An identifier that was never referenced has no score.
pub proof fn lemma_unknown_entry(m: RegistryModel, id: Seq<char>)
    requires
        !m.entries.dom().contains(id),
    ensures
        score_of(m, id) is None,
{
}

/// Voting is idempotent per identity: a second vote from the same caller on
/// the same entry changes nothing, whatever its verdict.
pub proof fn lemma_idempotent_vote(
    m: RegistryModel,
    id: Seq<char>,
    t1: bool,
    t2: bool,
    caller: Seq<char>,
)
    ensures
        submit_step(submit_step(m, id, t1, caller), id, t2, caller) == submit_step(
            m,
            id,
            t1,
            caller,
        ),
{
    let m1 = submit_step(m, id, t1, caller);
    assert(m1.entries.dom().contains(id));
    assert(!vote_applies(m1.entries[id], caller));
}

/// A counted vote preserves the per-entry invariant.
pub proof fn lemma_submit_preserves_inv(
    m: RegistryModel,
    id: Seq<char>,
    trusted: bool,
    caller: Seq<char>,
)
    requires
        registry_inv(m),
    ensures
        registry_inv(submit_step(m, id, trusted, caller)),
{
}

/// An authority override preserves the per-entry invariant.
pub proof fn lemma_pin_preserves_inv(m: RegistryModel, id: Seq<char>, trusted: bool)
    requires
        registry_inv(m),
    ensures
        registry_inv(pin_step(m, id, trusted)),
{
}

/// Extending the authority set touches no entry, so it preserves the
/// per-entry invariant.
pub proof fn lemma_grant_preserves_inv(m: RegistryModel, ids: Seq<Seq<char>>)
    requires
        registry_inv(m),
    ensures
        registry_inv(grant_step(m, ids)),
{
}

/// An empty registry satisfies the invariant.
pub proof fn lemma_empty_registry_inv(m: RegistryModel)
    requires
        m.entries == Map::<Seq<char>, EntryModel>::empty(),
    ensures
        registry_inv(m),
{
}

/// A vote never unpins an entry, nor changes the verdict it was pinned to.
pub proof fn lemma_submit_keeps_pin(
    m: RegistryModel,
    id: Seq<char>,
    b: bool,
    id2: Seq<char>,
    trusted: bool,
    caller: Seq<char>,
)
    requires
        m.entries.dom().contains(id),
        m.entries[id].pinned == Some(b),
    ensures
        submit_step(m, id2, trusted, caller).entries.dom().contains(id),
        submit_step(m, id2, trusted, caller).entries[id].pinned == Some(b),
{
}

/// A pinned entry's score is decided by the verdict alone.
pub proof fn lemma_pinned_score(m: RegistryModel, id: Seq<char>, b: bool)
    requires
        m.entries.dom().contains(id),
        m.entries[id].pinned == Some(b),
    ensures
        score_of(m, id) == Some(((if b { 1int } else { 0int }), 1int)),
{
}

/// Any sequence of vote submissions, folded over the registry.
pub open spec fn submit_many(
    m: RegistryModel,
    calls: Seq<(Seq<char>, bool, Seq<char>)>,
) -> RegistryModel
    decreases calls.len(),
{
    if calls.len() == 0 {
        m
    } else {
        submit_many(submit_step(m, calls[0].0, calls[0].1, calls[0].2), calls.drop_first())
    }
}

/// Pinning freezes the registry: once an entry is pinned to `b`, its score is
/// 1/1 if `b` and 0/1 otherwise, and stays so after any number of subsequent
/// vote submissions against any entries.
pub proof fn lemma_pin_freezes(
    m: RegistryModel,
    id: Seq<char>,
    b: bool,
    calls: Seq<(Seq<char>, bool, Seq<char>)>,
)
    ensures
        score_of(submit_many(pin_step(m, id, b), calls), id) == Some(
            ((if b { 1int } else { 0int }), 1int),
        ),
    decreases calls.len(),
{
    lemma_pin_stays_pinned(pin_step(m, id, b), id, b, calls);
    lemma_pinned_score(submit_many(pin_step(m, id, b), calls), id, b);
}

/// A pinned entry stays pinned, to the same verdict, under any sequence of
/// vote submissions.
pub proof fn lemma_pin_stays_pinned(
    m: RegistryModel,
    id: Seq<char>,
    b: bool,
    calls: Seq<(Seq<char>, bool, Seq<char>)>,
)
    requires
        m.entries.dom().contains(id),
        m.entries[id].pinned == Some(b),
    ensures
        submit_many(m, calls).entries.dom().contains(id),
        submit_many(m, calls).entries[id].pinned == Some(b),
    decreases calls.len(),
{
    if calls.len() > 0 {
        lemma_submit_keeps_pin(m, id, b, calls[0].0, calls[0].1, calls[0].2);
        lemma_pin_stays_pinned(
            submit_step(m, calls[0].0, calls[0].1, calls[0].2),
            id,
            b,
            calls.drop_first(),
        );
    }
}

/// Authority membership is monotone: after a grant, every previously
/// authorized identity remains authorized and every listed identity is now
/// authorized.
pub proof fn lemma_authority_monotonic(m: RegistryModel, ids: Seq<Seq<char>>, a: Seq<char>)
    ensures
        m.authorities.contains(a) ==> grant_step(m, ids).authorities.contains(a),
        ids.contains(a) ==> grant_step(m, ids).authorities.contains(a),
{
}

} // verus!
