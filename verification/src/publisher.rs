//! Publisher side of discovery: the known-subscriber table, and how each
//! control message from the participant changes it. The table is modelled
//! as a map from subscriber id to its advertised identity; entries arrive
//! and leave one at a time, or wholesale on (re)initialization.
use vstd::prelude::*;

use crate::protocol::{table_view, ParticipantToPublisher, SubscriberId, SubscriberRef, SubscriberRefV};

verus! {

/// Relies on rand::random: a value drawn from the thread-local generator;
/// nothing can be promised of it.
pub assume_specification<T>[ rand::random::<T> ]() -> (r: T)
    where
        rand::distributions::Standard: rand::distributions::Distribution<T>,
;

/// A fresh 64-bit identifier for a newly created entity.
pub fn fresh_entity_id() -> u64 {
    rand::random::<u64>()
}

/// No subscriber id occurs twice.
pub open spec fn distinct_keys(s: Seq<(SubscriberId, SubscriberRefV)>) -> bool {
    forall|a: int, b: int| 0 <= a < b < s.len() ==> (#[trigger] s[a]).0 != (#[trigger] s[b]).0
}

/// The map an entry list stands for: entries are taken in order, a later
/// entry for the same id replacing an earlier one.
pub open spec fn table_map(s: Seq<(SubscriberId, SubscriberRefV)>) -> Map<
    SubscriberId,
    SubscriberRefV,
>
    decreases s.len(),
{
    if s.len() == 0 {
        Map::empty()
    } else {
        table_map(s.drop_last()).insert(s.last().0, s.last().1)
    }
}

/// An id is a key of `table_map(s)` exactly when some entry carries it.
pub proof fn lemma_table_map_has_key(s: Seq<(SubscriberId, SubscriberRefV)>, k: SubscriberId)
    ensures
        table_map(s).dom().contains(k) <==> exists|i: int| 0 <= i < s.len() && (#[trigger] s[i]).0
            == k,
    decreases s.len(),
{
    if s.len() > 0 {
        lemma_table_map_has_key(s.drop_last(), k);
        if s.last().0 == k {
            assert(s[s.len() - 1].0 == k);
        } else if table_map(s).dom().contains(k) {
            let i = choose|i: int| 0 <= i < s.drop_last().len() && (#[trigger] s.drop_last()[i]).0
                == k;
            assert(s[i].0 == k);
        } else if exists|i: int| 0 <= i < s.len() && (#[trigger] s[i]).0 == k {
            let i = choose|i: int| 0 <= i < s.len() && (#[trigger] s[i]).0 == k;
            assert(i < s.len() - 1);
            assert(s.drop_last()[i].0 == k);
        }
    }
}

/// Replacing the entry at `i` with one for the same id turns the map into
/// an insert for that id.
pub proof fn lemma_table_map_update(
    s: Seq<(SubscriberId, SubscriberRefV)>,
    i: int,
    p: (SubscriberId, SubscriberRefV),
)
    requires
        0 <= i < s.len(),
        s[i].0 == p.0,
        distinct_keys(s),
    ensures
        table_map(s.update(i, p)) == table_map(s).insert(p.0, p.1),
    decreases s.len(),
{
    if i == s.len() - 1 {
        assert(s.update(i, p).drop_last() =~= s.drop_last());
        assert(table_map(s.update(i, p)) =~= table_map(s).insert(p.0, p.1));
    } else {
        assert(s.update(i, p).drop_last() =~= s.drop_last().update(i, p));
        assert(s.update(i, p).last() == s.last());
        lemma_table_map_update(s.drop_last(), i, p);
        assert(s[i].0 != s[s.len() - 1].0);
        assert(table_map(s.update(i, p)) =~= table_map(s).insert(p.0, p.1));
    }
}

/// Dropping the entry at `i` turns the map into a remove of its id.
pub proof fn lemma_table_map_remove(s: Seq<(SubscriberId, SubscriberRefV)>, i: int)
    requires
        0 <= i < s.len(),
        distinct_keys(s),
    ensures
        table_map(s.remove(i)) == table_map(s).remove(s[i].0),
    decreases s.len(),
{
    if i == s.len() - 1 {
        assert(s.remove(i) =~= s.drop_last());
        lemma_table_map_has_key(s.drop_last(), s[i].0);
        assert(forall|a: int|
            0 <= a < s.drop_last().len() ==> (#[trigger] s.drop_last()[a]).0 == s[a].0);
        assert(!table_map(s.drop_last()).dom().contains(s[i].0));
        assert(table_map(s.remove(i)) =~= table_map(s).remove(s[i].0));
    } else {
        assert(s.remove(i).drop_last() =~= s.drop_last().remove(i));
        assert(s.remove(i).last() == s.last());
        lemma_table_map_remove(s.drop_last(), i);
        assert(s[i].0 != s[s.len() - 1].0);
        assert(table_map(s.remove(i)) =~= table_map(s).remove(s[i].0));
    }
}

/// The publisher's known-subscriber table.
pub struct PublisherState {
    pub subs: Vec<(SubscriberId, SubscriberRef)>,
}

/// A copy of a subscriber identity with the same ghost image.
pub fn clone_subscriber_ref(r: &SubscriberRef) -> (c: SubscriberRef)
    ensures
        c@ == r@,
{
    SubscriberRef { address: r.address, topic: r.topic.clone() }
}

impl PublisherState {
    /// The table as a map from subscriber id to identity.
    pub open spec fn peers(&self) -> Map<SubscriberId, SubscriberRefV> {
        table_map(table_view(self.subs@))
    }

    /// Each subscriber id occupies at most one row.
    pub open spec fn wf(&self) -> bool {
        distinct_keys(table_view(self.subs@))
    }

    /// An empty table.
    pub fn new() -> (s: PublisherState)
        ensures
            s.wf(),
            s.peers() == Map::<SubscriberId, SubscriberRefV>::empty(),
    {
        let s = PublisherState { subs: Vec::new() };
        proof {
            assert(table_view(s.subs@) =~= Seq::<(SubscriberId, SubscriberRefV)>::empty());
        }
        s
    }

    /// Add a subscriber, or replace what is known of one already present.
    pub fn upsert(&mut self, id: SubscriberId, r: SubscriberRef)
        requires
            old(self).wf(),
        ensures
            final(self).wf(),
            final(self).peers() == old(self).peers().insert(id, r@),
    {
        let ghost before = table_view(self.subs@);
        let n = self.subs.len();
        let mut i: usize = 0;
        while i < n
            invariant
                n == self.subs@.len(),
                i <= n,
                before == table_view(self.subs@),
                before == table_view(old(self).subs@),
                distinct_keys(before),
                forall|k: int| 0 <= k < i ==> (#[trigger] before[k]).0 != id,
            decreases n - i,
        {
            if self.subs[i].0 == id {
                proof {
                    assert(before[i as int].0 == id);
                }
                let e = &mut self.subs[i];
                *e = (id, r);
                proof {
                    assert(table_view(self.subs@) =~= before.update(i as int, (id, r@)));
                    lemma_table_map_update(before, i as int, (id, r@));
                    assert(distinct_keys(table_view(self.subs@)));
                }
                return ;
            }
            i = i + 1;
        }
        self.subs.push((id, r));
        proof {
            assert(table_view(self.subs@) =~= before.push((id, r@)));
            assert(table_view(self.subs@).drop_last() =~= before);
            assert(self.peers() =~= old(self).peers().insert(id, r@));
            assert forall|a: int, b: int|
                0 <= a < b < table_view(self.subs@).len() implies (#[trigger] table_view(
                self.subs@,
            )[a]).0 != (#[trigger] table_view(self.subs@)[b]).0 by {
                if b == before.len() {
                    assert(before[a].0 != id);
                }
            }
        }
    }

    /// Forget a subscriber; an unknown id leaves the table as it is.
    pub fn remove_sub(&mut self, id: SubscriberId)
        requires
            old(self).wf(),
        ensures
            final(self).wf(),
            final(self).peers() == old(self).peers().remove(id),
    {
        let ghost before = table_view(self.subs@);
        let n = self.subs.len();
        let mut i: usize = 0;
        while i < n
            invariant
                n == self.subs@.len(),
                i <= n,
                before == table_view(self.subs@),
                before == table_view(old(self).subs@),
                distinct_keys(before),
                forall|k: int| 0 <= k < i ==> (#[trigger] before[k]).0 != id,
            decreases n - i,
        {
            if self.subs[i].0 == id {
                proof {
                    assert(before[i as int].0 == id);
                }
                self.subs.remove(i);
                proof {
                    assert(table_view(self.subs@) =~= before.remove(i as int));
                    lemma_table_map_remove(before, i as int);
                    assert forall|a: int, b: int|
                        0 <= a < b < table_view(self.subs@).len() implies (
                    #[trigger] table_view(self.subs@)[a]).0 != (#[trigger] table_view(
                        self.subs@,
                    )[b]).0 by {
                        let s2 = before.remove(i as int);
                        let a0 = if a < i { a } else { a + 1 };
                        let b0 = if b < i { b } else { b + 1 };
                        assert(s2[a] == before[a0]);
                        assert(s2[b] == before[b0]);
                    }
                }
                return ;
            }
            i = i + 1;
        }
        proof {
            lemma_table_map_has_key(before, id);
            assert(!old(self).peers().dom().contains(id));
            assert(self.peers() =~= old(self).peers().remove(id));
        }
    }

    /// Apply one control message from the participant: `Init` replaces the
    /// table wholesale, `NewSub` and `DropSub` move single entries, and
    /// `InitFailed` is fatal for a publisher, which cannot operate without
    /// its topic registration.
    pub fn apply(&mut self, msg: &ParticipantToPublisher) -> (fatal: bool)
        requires
            old(self).wf(),
        ensures
            final(self).wf(),
            match msg {
                ParticipantToPublisher::Init(t) => final(self).peers() == table_map(
                    table_view(t@),
                ) && !fatal,
                ParticipantToPublisher::InitFailed => final(self).peers() == old(self).peers()
                    && fatal,
                ParticipantToPublisher::NewSub(id, r) => final(self).peers() == old(
                    self,
                ).peers().insert(*id, r@) && !fatal,
                ParticipantToPublisher::DropSub(id) => final(self).peers() == old(
                    self,
                ).peers().remove(*id) && !fatal,
            },
    {
        match msg {
            ParticipantToPublisher::Init(t) => {
                self.subs.clear();
                proof {
                    assert(table_view(self.subs@) =~= Seq::<
                        (SubscriberId, SubscriberRefV),
                    >::empty());
                    assert(table_view(t@.take(0)) =~= Seq::<
                        (SubscriberId, SubscriberRefV),
                    >::empty());
                }
                let m = t.len();
                let mut k: usize = 0;
                while k < m
                    invariant
                        m == t@.len(),
                        k <= m,
                        self.wf(),
                        self.peers() == table_map(table_view(t@.take(k as int))),
                    decreases m - k,
                {
                    let id = t[k].0;
                    let r = clone_subscriber_ref(&t[k].1);
                    self.upsert(id, r);
                    k = k + 1;
                    proof {
                        let prefix = table_view(t@.take(k as int));
                        assert(prefix.drop_last() =~= table_view(t@.take(k as int - 1)));
                        assert(prefix.last() == (t@[k as int - 1].0, t@[k as int - 1].1@));
                    }
                }
                proof {
                    assert(t@.take(m as int) =~= t@);
                }
                false
            },
            ParticipantToPublisher::InitFailed => true,
            ParticipantToPublisher::NewSub(id, r) => {
                let c = clone_subscriber_ref(r);
                self.upsert(*id, c);
                false
            },
            ParticipantToPublisher::DropSub(id) => {
                self.remove_sub(*id);
                false
            },
        }
    }
}

} // verus!
