//! The mathematical model of the registry.
//!
//! Every public operation of the executable registry is specified as a pure
//! transition function over [`RegistryModel`]; the laws of the registry are
//! proved over these transitions in [`crate::laws`].

use vstd::prelude::*;

verus! {

/// Mathematical state of one entry: the accepted-vote tally, the number of
/// those votes that were "trusted", the set of identities whose vote has been
/// counted, and the optional authority override verdict.
#[verifier::ext_equal]
pub ghost struct EntryModel {
    pub count: int,
    pub sum: int,
    pub voters: Set<Seq<char>>,
    pub pinned: Option<bool>,
}

/// Mathematical state of the whole registry: entries keyed by identifier,
/// plus the authority set.
#[verifier::ext_equal]
pub ghost struct RegistryModel {
    pub entries: Map<Seq<char>, EntryModel>,
    pub authorities: Set<Seq<char>>,
}

/// The entry created by the first vote on a fresh identifier.
pub open spec fn fresh_entry(trusted: bool, caller: Seq<char>) -> EntryModel {
    EntryModel {
        count: 1,
        sum: if trusted { 1 } else { 0 },
        voters: Set::empty().insert(caller),
        pinned: None,
    }
}

/// A vote is counted only while the entry is unpinned and the caller has not
/// voted on it before.
pub open spec fn vote_applies(e: EntryModel, caller: Seq<char>) -> bool {
    e.pinned is None && !e.voters.contains(caller)
}

/// The entry after one counted vote.
pub open spec fn voted_entry(e: EntryModel, trusted: bool, caller: Seq<char>) -> EntryModel {
    EntryModel {
        count: e.count + 1,
        sum: e.sum + (if trusted { 1int } else { 0int }),
        voters: e.voters.insert(caller),
        pinned: e.pinned,
    }
}

/// One vote submission: lazily create the entry, count the vote if it
/// applies, and otherwise leave the registry unchanged.
pub open spec fn submit_step(
    m: RegistryModel,
    id: Seq<char>,
    trusted: bool,
    caller: Seq<char>,
) -> RegistryModel {
    if !m.entries.dom().contains(id) {
        RegistryModel {
            entries: m.entries.insert(id, fresh_entry(trusted, caller)),
            authorities: m.authorities,
        }
    } else if vote_applies(m.entries[id], caller) {
        RegistryModel {
            entries: m.entries.insert(id, voted_entry(m.entries[id], trusted, caller)),
            authorities: m.authorities,
        }
    } else {
        m
    }
}

/// An existing entry after an authority override: the tally is kept, only the
/// verdict is (re)written.
pub open spec fn pinned_entry(e: EntryModel, trusted: bool) -> EntryModel {
    EntryModel { count: e.count, sum: e.sum, voters: e.voters, pinned: Some(trusted) }
}

/// The entry created when an authority pins a fresh identifier.
pub open spec fn empty_pinned_entry(trusted: bool) -> EntryModel {
    EntryModel { count: 0, sum: 0, voters: Set::empty(), pinned: Some(trusted) }
}

/// One authority override: lazily create the entry and set its verdict,
/// overwriting any earlier one.
pub open spec fn pin_step(m: RegistryModel, id: Seq<char>, trusted: bool) -> RegistryModel {
    if m.entries.dom().contains(id) {
        RegistryModel {
            entries: m.entries.insert(id, pinned_entry(m.entries[id], trusted)),
            authorities: m.authorities,
        }
    } else {
        RegistryModel {
            entries: m.entries.insert(id, empty_pinned_entry(trusted)),
            authorities: m.authorities,
        }
    }
}

/// The set of identities named by a list.
pub open spec fn id_set(ids: Seq<Seq<char>>) -> Set<Seq<char>> {
    Set::new(|a: Seq<char>| ids.contains(a))
}

/// One authority extension: every listed identity joins the authority set;
/// duplicates are no-ops and nobody is ever removed.
pub open spec fn grant_step(m: RegistryModel, ids: Seq<Seq<char>>) -> RegistryModel {
    RegistryModel { entries: m.entries, authorities: m.authorities.union(id_set(ids)) }
}

/// The public score of one entry, as an exact rational `(numerator,
/// denominator)`: a pinned verdict maps to 1/1 or 0/1 regardless of the
/// tally; an unpinned entry with votes maps to sum/count; an absent entry,
/// or an unpinned entry without votes (unreachable through the call surface,
/// guarded defensively), maps to absent.
pub open spec fn score_of(m: RegistryModel, id: Seq<char>) -> Option<(int, int)> {
    if !m.entries.dom().contains(id) {
        None
    } else {
        let e = m.entries[id];
        match e.pinned {
            Some(b) => Some(((if b { 1int } else { 0int }), 1int)),
            None => if e.count > 0 { Some((e.sum, e.count)) } else { None },
        }
    }
}

/// The per-entry invariant: the trusted-vote sum never exceeds the tally.
pub open spec fn entry_inv(e: EntryModel) -> bool {
    0 <= e.sum <= e.count
}

/// The registry invariant: every entry satisfies [`entry_inv`].
pub open spec fn registry_inv(m: RegistryModel) -> bool {
    forall|id: Seq<char>| #[trigger] m.entries.dom().contains(id) ==> entry_inv(m.entries[id])
}

} // verus!
