//! The executable registry, verified against the transitions of
//! [`crate::model`].
//!
//! The host environment around the registry supplies the caller's identity
//! and the deposit attached to a call; both enter here as plain arguments.
//! Durable storage is likewise the host's concern: the registry is a plain
//! value that the host persists between calls, re-validating it with
//! [`Contract::check_wf`] after each load.

use vstd::prelude::*;
use crate::model::{
    EntryModel, RegistryModel, empty_pinned_entry, fresh_entry, pin_step, pinned_entry, score_of,
    submit_step, vote_applies, voted_entry, grant_step, id_set,
};

verus! {

/// Why a mutating call was rejected. All checks run strictly before any
/// mutation, so a rejected call leaves the registry unchanged.
#[derive(Clone, Copy, Debug, PartialEq, Eq, Structural)]
pub enum RegistryError {
    /// The caller is not in the authority set.
    Unauthorized,
    /// The attached deposit is not the exact required amount.
    MissingPayment,
}

/// The exact deposit, in indivisible payment units, that every mutating call
/// must attach.
pub const REQUIRED_DEPOSIT: u128 = 1;

/// The set of identities named by a sequence of strings.
pub open spec fn string_seq_set(s: Seq<String>) -> Set<Seq<char>> {
    Set::new(|a: Seq<char>| exists|i: int| 0 <= i < s.len() && s[i]@ == a)
}

/// The views of a sequence of strings.
pub open spec fn seq_views(s: Seq<String>) -> Seq<Seq<char>> {
    Seq::new(s.len(), |i: int| s[i]@)
}

/// One subject's aggregation record.
pub struct Entry {
    /// The identifier this entry is keyed by.
    pub id: String,
    /// Number of non-overridden votes accepted so far.
    pub count: u64,
    /// Number of those votes that were "trusted".
    pub sum: u64,
    /// Identities whose vote has been counted.
    pub voters: Vec<String>,
    /// The authority override verdict, if any.
    pub pinned: Option<bool>,
}

impl Entry {
    /// The identifier this entry is keyed by.
    pub open spec fn id_spec(&self) -> Seq<char> {
        self.id@
    }

    /// The mathematical state of this entry.
    pub open spec fn model(&self) -> EntryModel {
        EntryModel {
            count: self.count as int,
            sum: self.sum as int,
            voters: string_seq_set(self.voters@),
            pinned: self.pinned,
        }
    }

    /// Structural validity: the trusted-vote sum is bounded by the tally and
    /// the tally equals the number of recorded voters.
    pub open spec fn wf(&self) -> bool {
        &&& self.sum <= self.count
        &&& self.count == self.voters@.len()
    }
}

/// Whether some entry in the sequence is keyed by `id`.
pub open spec fn has_entry(s: Seq<Entry>, id: Seq<char>) -> bool {
    exists|i: int| 0 <= i < s.len() && (#[trigger] s[i]).id_spec() == id
}

/// The index of the entry keyed by `id` (unique while identifiers are
/// distinct).
pub open spec fn entry_index(s: Seq<Entry>, id: Seq<char>) -> int {
    choose|i: int| 0 <= i < s.len() && (#[trigger] s[i]).id_spec() == id
}

/// The model of the entry keyed by `id`.
pub open spec fn entry_at(s: Seq<Entry>, id: Seq<char>) -> EntryModel {
    s[entry_index(s, id)].model()
}

/// Entry identifiers are pairwise distinct.
pub open spec fn distinct_ids(s: Seq<Entry>) -> bool {
    forall|i: int, j: int|
        0 <= i < j < s.len() ==> (#[trigger] s[i]).id_spec() != (#[trigger] s[j]).id_spec()
}

/// The map from identifier to entry model that a sequence of entries holds.
pub open spec fn entries_map(s: Seq<Entry>) -> Map<Seq<char>, EntryModel> {
    Map::new(|id: Seq<char>| has_entry(s, id), |id: Seq<char>| entry_at(s, id))
}

/// The registry: every entry, keyed by identifier, plus the authority set.
pub struct Contract {
    /// The entries, in order of first reference; identifiers are distinct.
    pub entries: Vec<Entry>,
    /// The authority set (possibly with textual duplicates; the set view
    /// collapses them).
    pub authorities: Vec<String>,
}

impl View for Contract {
    type V = RegistryModel;

    /// The mathematical state of the registry.
    open spec fn view(&self) -> RegistryModel {
        RegistryModel {
            entries: entries_map(self.entries@),
            authorities: string_seq_set(self.authorities@),
        }
    }
}

/// While identifiers are distinct, the entry found at index `k` is the one
/// the entry map holds for its identifier.
proof fn lemma_entry_found(s: Seq<Entry>, id: Seq<char>, k: int)
    requires
        distinct_ids(s),
        0 <= k < s.len(),
        s[k].id_spec() == id,
    ensures
        has_entry(s, id),
        entry_index(s, id) == k,
        entry_at(s, id) == s[k].model(),
{
    assert(has_entry(s, id));
    let i: int = entry_index(s, id);
    assert(0 <= i < s.len() && s[i].id_spec() == id);
    if i < k {
        assert(s[i].id_spec() != s[k].id_spec());
    }
    if k < i {
        assert(s[k].id_spec() != s[i].id_spec());
    }
}

/// Replacing the entry at index `k` by one with the same identifier updates
/// the entry map at exactly that identifier.
proof fn lemma_view_update(s: Seq<Entry>, s2: Seq<Entry>, k: int)
    requires
        distinct_ids(s),
        0 <= k < s.len(),
        s2.len() == s.len(),
        forall|i: int| 0 <= i < s.len() && i != k ==> s2[i] == s[i],
        s2[k].id_spec() == s[k].id_spec(),
    ensures
        distinct_ids(s2),
        entries_map(s2) == entries_map(s).insert(s[k].id_spec(), s2[k].model()),
{
    let id = s[k].id_spec();
    assert forall|i: int, j: int| 0 <= i < j < s2.len() implies (#[trigger] s2[i]).id_spec() != (
    #[trigger] s2[j]).id_spec() by {
        assert(s[i].id_spec() != s[j].id_spec());
    }
    assert forall|x: Seq<char>| has_entry(s2, x) implies has_entry(s, x) by {
        let i: int = choose|i: int| 0 <= i < s2.len() && (#[trigger] s2[i]).id_spec() == x;
        if i == k {
            assert(s[k].id_spec() == x);
        } else {
            assert(s[i].id_spec() == x);
        }
    }
    assert forall|x: Seq<char>| has_entry(s, x) implies has_entry(s2, x) by {
        let i: int = choose|i: int| 0 <= i < s.len() && (#[trigger] s[i]).id_spec() == x;
        if i == k {
            assert(s2[k].id_spec() == x);
        } else {
            assert(s2[i].id_spec() == x);
        }
    }
    assert forall|x: Seq<char>| has_entry(s2, x) implies entries_map(s2)[x] == entries_map(
        s,
    ).insert(id, s2[k].model())[x] by {
        if x == id {
            lemma_entry_found(s2, x, k);
        } else {
            let i: int = choose|i: int| 0 <= i < s.len() && (#[trigger] s[i]).id_spec() == x;
            assert(i != k);
            lemma_entry_found(s, x, i);
            lemma_entry_found(s2, x, i);
        }
    }
    assert(entries_map(s2) =~= entries_map(s).insert(id, s2[k].model()));
}

/// Appending an entry with a fresh identifier extends the entry map at
/// exactly that identifier.
proof fn lemma_view_push(s: Seq<Entry>, s2: Seq<Entry>)
    requires
        distinct_ids(s),
        s2.len() == s.len() + 1,
        forall|i: int| 0 <= i < s.len() ==> s2[i] == s[i],
        !has_entry(s, s2[s.len() as int].id_spec()),
    ensures
        distinct_ids(s2),
        entries_map(s2) == entries_map(s).insert(
            s2[s.len() as int].id_spec(),
            s2[s.len() as int].model(),
        ),
{
    let n = s.len() as int;
    let id = s2[n].id_spec();
    assert forall|i: int, j: int| 0 <= i < j < s2.len() implies (#[trigger] s2[i]).id_spec() != (
    #[trigger] s2[j]).id_spec() by {
        if j < n {
            assert(s[i].id_spec() != s[j].id_spec());
        } else {
            assert(s2[i] == s[i]);
            if s[i].id_spec() == id {
                assert(has_entry(s, id));
            }
        }
    }
    assert forall|x: Seq<char>| has_entry(s2, x) implies (has_entry(s, x) || x == id) by {
        let i: int = choose|i: int| 0 <= i < s2.len() && (#[trigger] s2[i]).id_spec() == x;
        if i < n {
            assert(s[i].id_spec() == x);
        }
    }
    assert forall|x: Seq<char>| has_entry(s, x) implies has_entry(s2, x) by {
        let i: int = choose|i: int| 0 <= i < s.len() && (#[trigger] s[i]).id_spec() == x;
        assert(s2[i].id_spec() == x);
    }
    assert(has_entry(s2, id));
    assert forall|x: Seq<char>| has_entry(s2, x) implies entries_map(s2)[x] == entries_map(
        s,
    ).insert(id, s2[n].model())[x] by {
        if x == id {
            lemma_entry_found(s2, x, n);
        } else {
            let i: int = choose|i: int| 0 <= i < s.len() && (#[trigger] s[i]).id_spec() == x;
            lemma_entry_found(s, x, i);
            lemma_entry_found(s2, x, i);
        }
    }
    assert(entries_map(s2) =~= entries_map(s).insert(id, s2[n].model()));
}

/// Pushing a string onto a sequence inserts its view into the named set.
proof fn lemma_string_set_push(v: Seq<String>, c: String)
    ensures
        string_seq_set(v.push(c)) == string_seq_set(v).insert(c@),
{
    assert forall|a: Seq<char>| string_seq_set(v.push(c)).contains(a) implies string_seq_set(
        v,
    ).insert(c@).contains(a) by {
        let i: int = choose|i: int| 0 <= i < v.push(c).len() && v.push(c)[i]@ == a;
        if i < v.len() {
            assert(v[i]@ == a);
        } else {
            assert(v.push(c)[i] == c);
        }
    }
    assert forall|a: Seq<char>| string_seq_set(v).insert(c@).contains(a) implies string_seq_set(
        v.push(c),
    ).contains(a) by {
        if a == c@ {
            assert(v.push(c)[v.len() as int]@ == a);
        } else {
            let i: int = choose|i: int| 0 <= i < v.len() && v[i]@ == a;
            assert(v.push(c)[i]@ == a);
        }
    }
    assert(string_seq_set(v.push(c)) =~= string_seq_set(v).insert(c@));
}

/// An empty sequence of strings names the empty set.
proof fn lemma_string_set_empty()
    ensures
        string_seq_set(Seq::<String>::empty()) == Set::<Seq<char>>::empty(),
{
    assert(string_seq_set(Seq::<String>::empty()) =~= Set::<Seq<char>>::empty());
}

/// Concatenating string sequences unions the sets they name.
proof fn lemma_string_set_concat(v: Seq<String>, w: Seq<String>)
    ensures
        string_seq_set(v + w) == string_seq_set(v).union(id_set(seq_views(w))),
{
    assert forall|a: Seq<char>| string_seq_set(v + w).contains(a) implies string_seq_set(v).union(
        id_set(seq_views(w)),
    ).contains(a) by {
        let i: int = choose|i: int| 0 <= i < (v + w).len() && (v + w)[i]@ == a;
        if i < v.len() {
            assert(v[i]@ == a);
        } else {
            assert(w[i - v.len()]@ == a);
            assert(seq_views(w)[i - v.len()] == a);
            assert(seq_views(w).contains(a));
        }
    }
    assert forall|a: Seq<char>| string_seq_set(v).union(id_set(seq_views(w))).contains(a)
        implies string_seq_set(v + w).contains(a) by {
        if string_seq_set(v).contains(a) {
            let i: int = choose|i: int| 0 <= i < v.len() && v[i]@ == a;
            assert((v + w)[i]@ == a);
        } else {
            let i: int = choose|i: int| 0 <= i < seq_views(w).len() && seq_views(w)[i] == a;
            assert((v + w)[v.len() + i]@ == a);
        }
    }
    assert(string_seq_set(v + w) =~= string_seq_set(v).union(id_set(seq_views(w))));
}

/// Whether some string of the vector reads the same as `s`.
fn contains_string(v: &Vec<String>, s: &String) -> (r: bool)
    ensures
        r == string_seq_set(v@).contains(s@),
{
    let mut i: usize = 0;
    while i < v.len()
        invariant
            i <= v@.len(),
            forall|j: int| 0 <= j < i ==> v@[j]@ != s@,
        decreases v@.len() - i,
    {
        if v[i] == *s {
            assert(string_seq_set(v@).contains(s@));
            return true;
        }
        i += 1;
    }
    false
}

impl Contract {
    /// Structural validity: every stored entry is valid and entry identifiers
    /// are distinct. Established by the constructors and preserved by every
    /// call; the host re-checks a reloaded registry with [`Self::check_wf`].
    pub open spec fn wf(&self) -> bool {
        &&& forall|i: int| 0 <= i < self.entries@.len() ==> (#[trigger] self.entries@[i]).wf()
        &&& distinct_ids(self.entries@)
    }

    /// Creates a registry with no entries and the given initial authorities.
    pub fn new(authorities: Vec<String>) -> (r: Contract)
        ensures
            r.wf(),
            r@.entries == Map::<Seq<char>, EntryModel>::empty(),
            r@.authorities == string_seq_set(authorities@),
    {
        let r = Contract { entries: Vec::new(), authorities };
        proof {
            assert(r@.entries =~= Map::<Seq<char>, EntryModel>::empty());
        }
        r
    }

    /// Decides structural validity at run time, for a registry value the
    /// host rebuilt from durable storage.
    pub fn check_wf(&self) -> (r: bool)
        ensures
            r == self.wf(),
    {
        let mut i: usize = 0;
        while i < self.entries.len()
            invariant
                i <= self.entries@.len(),
                forall|j: int| 0 <= j < i ==> (#[trigger] self.entries@[j]).wf(),
                forall|j: int, k: int|
                    0 <= j < k < i ==> (#[trigger] self.entries@[j]).id_spec() != (
                    #[trigger] self.entries@[k]).id_spec(),
            decreases self.entries@.len() - i,
        {
            let e = &self.entries[i];
            if e.sum > e.count || e.count != e.voters.len() as u64 {
                return false;
            }
            let mut j: usize = 0;
            while j < i
                invariant
                    j <= i,
                    i < self.entries@.len(),
                    forall|k: int|
                        0 <= k < j ==> (#[trigger] self.entries@[k]).id_spec()
                            != self.entries@[i as int].id_spec(),
                decreases i - j,
            {
                if self.entries[j].id == self.entries[i].id {
                    return false;
                }
                j += 1;
            }
            i += 1;
        }
        true
    }

    /// The index of the entry keyed by `entry_id`, if one exists.
    fn find_entry(&self, entry_id: &String) -> (r: Option<usize>)
        ensures
            match r {
                Some(i) => i < self.entries@.len() && self.entries@[i as int].id_spec()
                    == entry_id@,
                None => !has_entry(self.entries@, entry_id@),
            },
    {
        let mut i: usize = 0;
        while i < self.entries.len()
            invariant
                i <= self.entries@.len(),
                forall|j: int| 0 <= j < i ==> (#[trigger] self.entries@[j]).id_spec() != entry_id@,
            decreases self.entries@.len() - i,
        {
            if self.entries[i].id == *entry_id {
                return Some(i);
            }
            i += 1;
        }
        None
    }

    /// Pure membership test of the authority set.
    pub fn is_authority(&self, identity: &String) -> (r: bool)
        ensures
            r == self@.authorities.contains(identity@),
    {
        contains_string(&self.authorities, identity)
    }

    /// Submits one boolean trust vote from `caller` against `entry_id`,
    /// lazily creating the entry. The vote is counted only if the entry is
    /// unpinned and the caller has not voted on it before; otherwise the call
    /// succeeds without effect. A wrong deposit is rejected before any
    /// mutation.
    pub fn submit_verification(
        &mut self,
        entry_id: String,
        trusted: bool,
        caller: String,
        deposit: u128,
    ) -> (r: Result<(), RegistryError>)
        requires
            old(self).wf(),
        ensures
            final(self).wf(),
            match r {
                Ok(()) => deposit == REQUIRED_DEPOSIT && final(self)@ == submit_step(
                    old(self)@,
                    entry_id@,
                    trusted,
                    caller@,
                ),
                Err(RegistryError::MissingPayment) => deposit != REQUIRED_DEPOSIT && *final(self)
                    == *old(self),
                Err(RegistryError::Unauthorized) => false,
            },
    {
        if deposit != REQUIRED_DEPOSIT {
            return Err(RegistryError::MissingPayment);
        }
        let ghost s = self.entries@;
        let ghost m = self@;
        match self.find_entry(&entry_id) {
            Some(i) => {
                proof {
                    lemma_entry_found(s, entry_id@, i as int);
                }
                let applies = self.entries[i].pinned.is_none() && !contains_string(
                    &self.entries[i].voters,
                    &caller,
                );
                if applies {
                    let mut e = self.entries.remove(i);
                    let ghost v = e.voters@;
                    e.voters.push(caller);
                    let n = e.voters.len();
                    e.count = n as u64;
                    if trusted {
                        e.sum = e.sum + 1;
                    }
                    self.entries.insert(i, e);
                    proof {
                        lemma_string_set_push(v, caller);
                        assert(self.entries@.len() == s.len());
                        assert(forall|j: int|
                            0 <= j < s.len() && j != i as int ==> self.entries@[j] == s[j]);
                        lemma_view_update(s, self.entries@, i as int);
                        assert(self.entries@[i as int].model() =~= voted_entry(
                            m.entries[entry_id@],
                            trusted,
                            caller@,
                        ));
                        assert(self@ =~= submit_step(m, entry_id@, trusted, caller@));
                    }
                } else {
                    proof {
                        assert(!vote_applies(m.entries[entry_id@], caller@));
                        assert(self@ == submit_step(m, entry_id@, trusted, caller@));
                    }
                }
                Ok(())
            },
            None => {
                let mut voters: Vec<String> = Vec::new();
                voters.push(caller);
                let e = Entry {
                    id: entry_id,
                    count: 1,
                    sum: if trusted {
                        1
                    } else {
                        0
                    },
                    voters,
                    pinned: None,
                };
                self.entries.push(e);
                proof {
                    lemma_string_set_push(Seq::<String>::empty(), caller);
                    lemma_string_set_empty();
                    lemma_view_push(s, self.entries@);
                    assert(self.entries@[s.len() as int].model() =~= fresh_entry(
                        trusted,
                        caller@,
                    ));
                    assert(self@ =~= submit_step(m, entry_id@, trusted, caller@));
                }
                Ok(())
            },
        }
    }

    /// Pins the override verdict of `entry_id` to `trusted`, lazily creating
    /// the entry, overwriting any earlier verdict, and freezing the tally
    /// forever. Fails with `Unauthorized` before anything else if the caller
    /// is not an authority, then with `MissingPayment` on a wrong deposit;
    /// either failure leaves the registry unchanged.
    pub fn pin_verification(
        &mut self,
        entry_id: String,
        trusted: bool,
        caller: String,
        deposit: u128,
    ) -> (r: Result<(), RegistryError>)
        requires
            old(self).wf(),
        ensures
            final(self).wf(),
            match r {
                Ok(()) => old(self)@.authorities.contains(caller@) && deposit == REQUIRED_DEPOSIT
                    && final(self)@ == pin_step(old(self)@, entry_id@, trusted),
                Err(RegistryError::Unauthorized) => !old(self)@.authorities.contains(caller@)
                    && *final(self) == *old(self),
                Err(RegistryError::MissingPayment) => old(self)@.authorities.contains(caller@)
                    && deposit != REQUIRED_DEPOSIT && *final(self) == *old(self),
            },
    {
        if !self.is_authority(&caller) {
            return Err(RegistryError::Unauthorized);
        }
        if deposit != REQUIRED_DEPOSIT {
            return Err(RegistryError::MissingPayment);
        }
        let ghost s = self.entries@;
        let ghost m = self@;
        match self.find_entry(&entry_id) {
            Some(i) => {
                proof {
                    lemma_entry_found(s, entry_id@, i as int);
                }
                let mut e = self.entries.remove(i);
                e.pinned = Some(trusted);
                self.entries.insert(i, e);
                proof {
                    assert(self.entries@.len() == s.len());
                    assert(forall|j: int|
                        0 <= j < s.len() && j != i as int ==> self.entries@[j] == s[j]);
                    lemma_view_update(s, self.entries@, i as int);
                    assert(self.entries@[i as int].model() =~= pinned_entry(
                        m.entries[entry_id@],
                        trusted,
                    ));
                    assert(self@ =~= pin_step(m, entry_id@, trusted));
                }
            },
            None => {
                let e = Entry {
                    id: entry_id,
                    count: 0,
                    sum: 0,
                    voters: Vec::new(),
                    pinned: Some(trusted),
                };
                self.entries.push(e);
                proof {
                    lemma_string_set_empty();
                    lemma_view_push(s, self.entries@);
                    assert(self.entries@[s.len() as int].model() =~= empty_pinned_entry(trusted));
                    assert(self@ =~= pin_step(m, entry_id@, trusted));
                }
            },
        }
        Ok(())
    }

    /// The public score of `entry_id`, as an exact rational `(numerator,
    /// denominator)` in [0, 1]: absent for an unknown identifier, the pinned
    /// verdict as 1/1 or 0/1, and otherwise the trusted share of the counted
    /// votes.
    pub fn get_verification(&self, entry_id: String) -> (r: Option<(u64, u64)>)
        requires
            self.wf(),
        ensures
            match r {
                Some(p) => score_of(self@, entry_id@) == Some((p.0 as int, p.1 as int)) && p.0
                    <= p.1 && 0 < p.1,
                None => score_of(self@, entry_id@) is None,
            },
    {
        match self.find_entry(&entry_id) {
            Some(i) => {
                proof {
                    lemma_entry_found(self.entries@, entry_id@, i as int);
                }
                let e = &self.entries[i];
                match e.pinned {
                    Some(true) => Some((1, 1)),
                    Some(false) => Some((0, 1)),
                    None => {
                        if e.count > 0 {
                            Some((e.sum, e.count))
                        } else {
                            None
                        }
                    },
                }
            },
            None => None,
        }
    }

    /// Adds every given identity to the authority set; duplicates are
    /// no-ops and no identity is ever removed. Fails with `Unauthorized`
    /// before anything else if the caller is not an authority, then with
    /// `MissingPayment` on a wrong deposit; either failure leaves the
    /// registry unchanged.
    pub fn add_authorities(
        &mut self,
        authorities: Vec<String>,
        caller: String,
        deposit: u128,
    ) -> (r: Result<(), RegistryError>)
        requires
            old(self).wf(),
        ensures
            final(self).wf(),
            match r {
                Ok(()) => old(self)@.authorities.contains(caller@) && deposit == REQUIRED_DEPOSIT
                    && final(self)@ == grant_step(old(self)@, seq_views(authorities@)),
                Err(RegistryError::Unauthorized) => !old(self)@.authorities.contains(caller@)
                    && *final(self) == *old(self),
                Err(RegistryError::MissingPayment) => old(self)@.authorities.contains(caller@)
                    && deposit != REQUIRED_DEPOSIT && *final(self) == *old(self),
            },
    {
        if !self.is_authority(&caller) {
            return Err(RegistryError::Unauthorized);
        }
        if deposit != REQUIRED_DEPOSIT {
            return Err(RegistryError::MissingPayment);
        }
        let ghost old_auth = self.authorities@;
        let ghost added = authorities@;
        let ghost m = self@;
        let mut authorities = authorities;
        self.authorities.append(&mut authorities);
        proof {
            lemma_string_set_concat(old_auth, added);
            assert(self@ =~= grant_step(m, seq_views(added)));
        }
        Ok(())
    }
}

/// A structurally valid registry satisfies the model invariant: every
/// entry's trusted-vote sum is bounded by its tally.
pub proof fn lemma_wf_implies_inv(c: &Contract)
    requires
        c.wf(),
    ensures
        crate::model::registry_inv(c@),
{
    assert forall|id: Seq<char>| #[trigger] c@.entries.dom().contains(id) implies crate::model::entry_inv(
        c@.entries[id],
    ) by {
        let i: int = entry_index(c.entries@, id);
        assert(0 <= i < c.entries@.len() && c.entries@[i].id_spec() == id);
        assert(c.entries@[i].wf());
    }
}

impl Default for Contract {
    /// Creates a registry with no entries and no authorities.
    fn default() -> (r: Contract)
        ensures
            r.wf(),
            r@.entries == Map::<Seq<char>, EntryModel>::empty(),
            r@.authorities == Set::<Seq<char>>::empty(),
    {
        let r = Contract { entries: Vec::new(), authorities: Vec::new() };
        proof {
            assert(r@.entries =~= Map::<Seq<char>, EntryModel>::empty());
            lemma_string_set_empty();
        }
        r
    }
}

} // verus!
