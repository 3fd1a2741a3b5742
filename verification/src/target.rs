//! Which clients a replicated object is addressed to.

use vstd::prelude::*;

verus! {

/// The identifier of a connected client.
pub type ClientId = u64;

/// A rule that names clients without listing who is connected.
#[derive(Clone, Debug, PartialEq, Eq)]
pub enum NetworkTarget {
    /// No client.
    Nobody,
    /// One client.
    Single(ClientId),
    /// The listed clients.
    Only(Vec<ClientId>),
    /// Every client.
    All,
    /// Every client but one.
    AllExceptSingle(ClientId),
}

impl NetworkTarget {
    /// Whether the rule names `client`, connected or not.
    pub open spec fn includes(&self, client: ClientId) -> bool {
        match self {
            NetworkTarget::Nobody => false,
            NetworkTarget::Single(one) => *one == client,
            NetworkTarget::Only(listed) => listed@.contains(client),
            NetworkTarget::All => true,
            NetworkTarget::AllExceptSingle(excluded) => *excluded != client,
        }
    }

    /// The clients of `roster` that the rule names, in the roster's order.
    pub open spec fn resolved(&self, roster: Seq<ClientId>) -> Seq<ClientId> {
        roster.filter(|client: ClientId| self.includes(client))
    }

    /// Whether the rule names `client`.
    pub fn targets(&self, client: ClientId) -> (named: bool)
        ensures
            named == self.includes(client),
    {
        match self {
            NetworkTarget::Nobody => false,
            NetworkTarget::Single(one) => *one == client,
            NetworkTarget::Only(listed) => {
                let mut i: usize = 0;
                while i < listed.len()
                    invariant
                        i <= listed@.len(),
                        self.includes(client) == listed@.contains(client),
                        forall|k: int| 0 <= k < i ==> listed@[k] != client,
                    decreases listed@.len() - i,
                {
                    if listed[i] == client {
                        assert(listed@[i as int] == client);
                        return true;
                    }
                    i += 1;
                }
                false
            },
            NetworkTarget::All => true,
            NetworkTarget::AllExceptSingle(excluded) => *excluded != client,
        }
    }

    /// Resolves the rule against the clients that are connected right now:
    /// those of `roster` that the rule names, in the roster's order. A named
    /// client that is not connected is left out without complaint.
    pub fn resolve(&self, roster: &Vec<ClientId>) -> (found: Vec<ClientId>)
        ensures
            found@ == self.resolved(roster@),
    {
        let mut found: Vec<ClientId> = Vec::new();
        let mut i: usize = 0;
        while i < roster.len()
            invariant
                i <= roster@.len(),
                found@ == self.resolved(roster@.take(i as int)),
            decreases roster@.len() - i,
        {
            let client: ClientId = roster[i];
            proof {
                roster@.take(i as int).lemma_filter_push(client, |c: ClientId| self.includes(c));
                assert(roster@.take(i + 1) =~= roster@.take(i as int).push(client));
            }
            if self.targets(client) {
                found.push(client);
            }
            i += 1;
        }
        proof {
            assert(roster@.take(roster@.len() as int) =~= roster@);
        }
        found
    }

    /// A client is among the resolved ones exactly if it is connected and
    /// the rule names it.
    pub proof fn lemma_resolved_members(&self, roster: Seq<ClientId>, client: ClientId)
        ensures
            self.resolved(roster).contains(client) <==> roster.contains(client) && self.includes(
                client,
            ),
    {
        lemma_filter_members(roster, |c: ClientId| self.includes(c), client);
    }

    /// Resolving keeps a roster free of duplicates free of duplicates.
    pub proof fn lemma_resolved_distinct(&self, roster: Seq<ClientId>)
        requires
            roster.no_duplicates(),
        ensures
            self.resolved(roster).no_duplicates(),
    {
        lemma_filter_distinct(roster, |c: ClientId| self.includes(c));
    }

    /// What each form of the rule resolves to, as a set: nothing; the one
    /// client if connected; the listed clients that are connected; the whole
    /// roster; the roster without the excluded client.
    pub proof fn lemma_resolved_by_form(&self, roster: Seq<ClientId>)
        ensures
            self.resolved(roster).to_set() =~= (match self {
                NetworkTarget::Nobody => Set::<ClientId>::empty(),
                NetworkTarget::Single(one) => if roster.contains(*one) {
                    Set::<ClientId>::empty().insert(*one)
                } else {
                    Set::<ClientId>::empty()
                },
                NetworkTarget::Only(listed) => listed@.to_set().intersect(roster.to_set()),
                NetworkTarget::All => roster.to_set(),
                NetworkTarget::AllExceptSingle(excluded) => roster.to_set().remove(*excluded),
            }),
            self is All ==> self.resolved(roster) == roster,
            self is Nobody ==> self.resolved(roster) == Seq::<ClientId>::empty(),
    {
        let keep = |c: ClientId| self.includes(c);
        assert forall|c: ClientId| #[trigger]
            self.resolved(roster).contains(c) <==> roster.contains(c) && self.includes(c) by {
            lemma_filter_members(roster, keep, c);
        }
        if self is All {
            lemma_filter_keeps_all(roster, keep);
        }
        if self is Nobody {
            assert(roster.all(|c: ClientId| !keep(c)));
            roster.lemma_all_neg_filter_empty(keep);
            assert(roster.filter(keep) =~= Seq::<ClientId>::empty());
        }
    }
}

/// A filter that keeps every item of a sequence does not change it.
proof fn lemma_filter_keeps_all<A>(s: Seq<A>, keep: spec_fn(A) -> bool)
    requires
        forall|i: int| 0 <= i < s.len() ==> keep(#[trigger] s[i]),
    ensures
        s.filter(keep) == s,
    decreases s.len(),
{
    if s.len() > 0 {
        lemma_filter_keeps_all(s.drop_last(), keep);
        s.drop_last().lemma_filter_push(s.last(), keep);
        assert(s =~= s.drop_last().push(s.last()));
    } else {
        s.lemma_filter_len(keep);
        assert(s.filter(keep) =~= s);
    }
}

/// A filtered sequence holds exactly the items of the sequence that are kept.
proof fn lemma_filter_members<A>(s: Seq<A>, keep: spec_fn(A) -> bool, item: A)
    ensures
        s.filter(keep).contains(item) <==> s.contains(item) && keep(item),
{
    let kept = s.filter(keep);
    if kept.contains(item) {
        let i = choose|i: int| 0 <= i < kept.len() && kept[i] == item;
        s.lemma_filter_pred(keep, i);
        s.lemma_filter_contains_rev(keep, item);
    }
    if s.contains(item) && keep(item) {
        let i = choose|i: int| 0 <= i < s.len() && s[i] == item;
        s.lemma_filter_contains(keep, i);
    }
}

/// Filtering a sequence without duplicates leaves one without duplicates.
proof fn lemma_filter_distinct<A>(s: Seq<A>, keep: spec_fn(A) -> bool)
    requires
        s.no_duplicates(),
    ensures
        s.filter(keep).no_duplicates(),
    decreases s.len(),
{
    if s.len() > 0 {
        let front = s.drop_last();
        lemma_filter_distinct(front, keep);
        front.lemma_filter_push(s.last(), keep);
        assert(s =~= front.push(s.last()));
        if keep(s.last()) {
            let kept = front.filter(keep);
            assert forall|i: int| 0 <= i < kept.len() implies kept[i] != s.last() by {
                if kept[i] == s.last() {
                    assert(kept.contains(s.last()));
                    front.lemma_filter_contains_rev(keep, s.last());
                    let j = choose|j: int| 0 <= j < front.len() && front[j] == s.last();
                    assert(s[j] == s[s.len() - 1]);
                }
            }
        }
    } else {
        s.lemma_filter_len(keep);
    }
}

/// The control target of a replicated object: the clients that control it.
#[derive(Clone, Debug, PartialEq, Eq)]
pub struct ControlledBy {
    /// Which clients control the object.
    pub target: NetworkTarget,
}

impl ControlledBy {
    /// Whether `client` is among those that control the object.
    pub fn targets(&self, client: ClientId) -> (named: bool)
        ensures
            named == self.target.includes(client),
    {
        self.target.targets(client)
    }
}

} // verus!
