//! Where the speed daemon's tickets go: the readings next to a new one,
//! the dispatchers online for each road, and whether a ticket is sent,
//! held back or dropped.
use vstd::prelude::*;
use std::collections::{HashMap, HashSet};
use crate::speed::client::Reading;
use crate::speed::msg::Ticket;

verus! {

broadcast use vstd::std_specs::hash::group_hash_axioms;

/// Readings in the order of their time, then of their mile, as the derived
/// order of `Reading` compares them.
pub open spec fn reading_before(a: Reading, b: Reading) -> bool {
    a.ts < b.ts || (a.ts == b.ts && a.mile < b.mile)
}

fn is_before(a: &Reading, b: &Reading) -> (r: bool)
    ensures
        r == reading_before(*a, *b),
{
    a.ts < b.ts || (a.ts == b.ts && a.mile < b.mile)
}

/// The readings just before and just after `new` among `readings`: the
/// latest one before it and the earliest one after it, where there are
/// such.
pub fn neighbours(readings: &Vec<Reading>, new: &Reading) -> (r: (Option<Reading>, Option<Reading>))
    ensures
        match r.0 {
            Some(e) => readings@.contains(e) && reading_before(e, *new) && forall|x: Reading|
                #[trigger] readings@.contains(x) && reading_before(x, *new) ==> !reading_before(e, x),
            None => forall|x: Reading| #[trigger] readings@.contains(x) ==> !reading_before(x, *new),
        },
        match r.1 {
            Some(l) => readings@.contains(l) && reading_before(*new, l) && forall|x: Reading|
                #[trigger] readings@.contains(x) && reading_before(*new, x) ==> !reading_before(x, l),
            None => forall|x: Reading| #[trigger] readings@.contains(x) ==> !reading_before(*new, x),
        },
{
    let mut earlier: Option<Reading> = None;
    let mut later: Option<Reading> = None;
    let mut i: usize = 0;
    while i < readings.len()
        invariant
            i <= readings@.len(),
            match earlier {
                Some(e) => readings@.subrange(0, i as int).contains(e) && reading_before(e, *new) && forall|j: int|
                    0 <= j < i && reading_before(#[trigger] readings@[j], *new) ==> !reading_before(e, readings@[j]),
                None => forall|j: int| 0 <= j < i ==> !reading_before(#[trigger] readings@[j], *new),
            },
            match later {
                Some(l) => readings@.subrange(0, i as int).contains(l) && reading_before(*new, l) && forall|j: int|
                    0 <= j < i && reading_before(*new, #[trigger] readings@[j]) ==> !reading_before(readings@[j], l),
                None => forall|j: int| 0 <= j < i ==> !reading_before(*new, #[trigger] readings@[j]),
            },
        decreases readings@.len() - i,
    {
        let x = &readings[i];
        assert(readings@.subrange(0, i + 1) =~= readings@.subrange(0, i as int).push(*x));
        if is_before(x, new) {
            let replace = match &earlier {
                Some(e) => is_before(e, x),
                None => true,
            };
            if replace {
                earlier = Some(Reading::new(x.ts, x.mile));
            }
        }
        if is_before(new, x) {
            let replace = match &later {
                Some(l) => is_before(x, l),
                None => true,
            };
            if replace {
                later = Some(Reading::new(x.ts, x.mile));
            }
        }
        proof {
            let s = readings@.subrange(0, i + 1);
            if earlier is Some {
                let e = earlier->0;
                if e == *x {
                    assert(s[i as int] == e);
                } else {
                    assert(readings@.subrange(0, i as int).contains(e));
                }
            }
            if later is Some {
                let l = later->0;
                if l == *x {
                    assert(s[i as int] == l);
                } else {
                    assert(readings@.subrange(0, i as int).contains(l));
                }
            }
        }
        i = i + 1;
    }
    assert(readings@.subrange(0, readings@.len() as int) =~= readings@);
    (earlier, later)
}

/// The dispatchers online: for each road served, the ids of the
/// dispatchers that serve it.
pub struct Dispatchers {
    by_road: HashMap<u16, HashSet<u16>>,
}

/// `m` with dispatcher `id` added to each of `roads`.
pub open spec fn with_dispatcher(m: Map<u16, Set<u16>>, id: u16, roads: Seq<u16>) -> Map<u16, Set<u16>> {
    Map::new(
        |r: u16| m.contains_key(r) || roads.contains(r),
        |r: u16| if roads.contains(r) {
            (if m.contains_key(r) { m[r] } else { Set::empty() }).insert(id)
        } else {
            m[r]
        },
    )
}

/// `m` with dispatcher `id` taken off each of `roads`; a road keeps its
/// place, though no dispatcher is left on it.
pub open spec fn without_dispatcher(m: Map<u16, Set<u16>>, id: u16, roads: Seq<u16>) -> Map<u16, Set<u16>> {
    Map::new(|r: u16| m.contains_key(r), |r: u16| if roads.contains(r) { m[r].remove(id) } else { m[r] })
}

/// Membership in a sequence with one more element.
proof fn lemma_contains_push(s: Seq<u16>, v: u16, r: u16)
    ensures
        s.push(v).contains(r) <==> (s.contains(r) || r == v),
{
    if s.contains(r) {
        let j = choose|j: int| 0 <= j < s.len() && s[j] == r;
        assert(s.push(v)[j] == r);
    }
    if s.push(v).contains(r) && r != v {
        let j = choose|j: int| 0 <= j < s.push(v).len() && s.push(v)[j] == r;
        assert(s[j] == r);
    }
    assert(s.push(v)[s.len() as int] == v);
}

/// Adding a dispatcher to one more road.
proof fn lemma_with_dispatcher_push(m: Map<u16, Set<u16>>, id: u16, roads: Seq<u16>, road: u16)
    ensures
        with_dispatcher(m, id, roads.push(road)) == {
            let w = with_dispatcher(m, id, roads);
            w.insert(road, (if w.contains_key(road) { w[road] } else { Set::<u16>::empty() }).insert(id))
        },
{
    let w = with_dispatcher(m, id, roads);
    let a = with_dispatcher(m, id, roads.push(road));
    let b = w.insert(road, (if w.contains_key(road) { w[road] } else { Set::<u16>::empty() }).insert(id));
    assert forall|r: u16| #[trigger] a.contains_key(r) <==> b.contains_key(r) by {
        lemma_contains_push(roads, road, r);
    }
    assert forall|r: u16| #[trigger] a.contains_key(r) implies a[r] == b[r] by {
        lemma_contains_push(roads, road, r);
        if r == road && roads.contains(r) {
            let base = if m.contains_key(r) { m[r] } else { Set::<u16>::empty() };
            assert(base.insert(id).insert(id) =~= base.insert(id));
        }
    }
    assert(a =~= b);
}

/// Taking a dispatcher off one more road.
proof fn lemma_without_dispatcher_push(m: Map<u16, Set<u16>>, id: u16, roads: Seq<u16>, road: u16)
    ensures
        without_dispatcher(m, id, roads.push(road)) == {
            let w = without_dispatcher(m, id, roads);
            if w.contains_key(road) { w.insert(road, w[road].remove(id)) } else { w }
        },
{
    let w = without_dispatcher(m, id, roads);
    let a = without_dispatcher(m, id, roads.push(road));
    let b = if w.contains_key(road) { w.insert(road, w[road].remove(id)) } else { w };
    assert forall|r: u16| #[trigger] a.contains_key(r) implies a[r] == b[r] by {
        lemma_contains_push(roads, road, r);
        if r == road && roads.contains(r) {
            assert(m[r].remove(id).remove(id) =~= m[r].remove(id));
        }
    }
    assert(a =~= b);
}

impl Dispatchers {
    /// The dispatchers of each road.
    pub closed spec fn roads(&self) -> Map<u16, Set<u16>> {
        self.by_road@.map_values(|s: HashSet<u16>| s@)
    }

    /// No dispatcher online.
    pub fn new() -> (r: Self)
        ensures
            r.roads() == Map::<u16, Set<u16>>::empty(),
    {
        let r = Dispatchers { by_road: HashMap::new() };
        assert(r.roads() =~= Map::<u16, Set<u16>>::empty());
        r
    }

    /// Dispatcher `id` comes online for `roads`.
    pub fn register(&mut self, id: u16, roads: &Vec<u16>)
        ensures
            final(self).roads() == with_dispatcher(old(self).roads(), id, roads@),
    {
        let ghost m0 = self.roads();
        let mut i: usize = 0;
        assert(with_dispatcher(m0, id, roads@.subrange(0, 0)) =~= m0);
        while i < roads.len()
            invariant
                i <= roads@.len(),
                self.roads() == with_dispatcher(m0, id, roads@.subrange(0, i as int)),
            decreases roads@.len() - i,
        {
            let road = roads[i];
            let ghost before = self.roads();
            let mut set = match self.by_road.remove(&road) {
                Some(s) => s,
                None => HashSet::new(),
            };
            set.insert(id);
            self.by_road.insert(road, set);
            proof {
                let prefix = roads@.subrange(0, i as int);
                let next = roads@.subrange(0, i + 1);
                assert(next =~= prefix.push(road));
                let cur = if before.contains_key(road) { before[road] } else { Set::<u16>::empty() };
                assert(self.roads() =~= before.insert(road, cur.insert(id)));
                lemma_with_dispatcher_push(m0, id, prefix, road);
            }
            i = i + 1;
        }
        assert(roads@.subrange(0, roads@.len() as int) =~= roads@);
    }

    /// Dispatcher `id`, which served `roads`, goes offline.
    pub fn unregister(&mut self, id: u16, roads: &Vec<u16>)
        ensures
            final(self).roads() == without_dispatcher(old(self).roads(), id, roads@),
    {
        let ghost m0 = self.roads();
        let mut i: usize = 0;
        assert(without_dispatcher(m0, id, roads@.subrange(0, 0)) =~= m0);
        while i < roads.len()
            invariant
                i <= roads@.len(),
                self.roads() == without_dispatcher(m0, id, roads@.subrange(0, i as int)),
            decreases roads@.len() - i,
        {
            let road = roads[i];
            let ghost before = self.roads();
            match self.by_road.remove(&road) {
                Some(mut set) => {
                    set.remove(&id);
                    self.by_road.insert(road, set);
                },
                None => {},
            }
            proof {
                let prefix = roads@.subrange(0, i as int);
                let next = roads@.subrange(0, i + 1);
                assert(next =~= prefix.push(road));
                if before.contains_key(road) {
                    assert(self.roads() =~= before.insert(road, before[road].remove(id)));
                } else {
                    assert(self.roads() =~= before);
                }
                lemma_without_dispatcher_push(m0, id, prefix, road);
            }
            i = i + 1;
        }
        assert(roads@.subrange(0, roads@.len() as int) =~= roads@);
    }

    /// A dispatcher online for `road`, where there is one; which one, of
    /// several, is not said.
    pub fn pick(&self, road: u16) -> (r: Option<u16>)
        ensures
            match r {
                Some(id) => self.roads().contains_key(road) && self.roads()[road].contains(id),
                None => !self.roads().contains_key(road) || self.roads()[road].is_empty(),
            },
    {
        match self.by_road.get(&road) {
            None => None,
            Some(set) => {
                let ghost s = set@;
                assert(self.roads().contains_key(road) && self.roads()[road] == s);
                for id in it: set.iter()
                    invariant
                        self.roads().contains_key(road),
                        self.roads()[road] == s,
                        it.index() == 0,
                        it.seq().unref().to_set() == s,
                        forall|x: u16| s.contains(x) ==> exists|i: int| 0 <= i < it.seq().len() && *it.seq()[i] == x,
                        s.is_empty() || it.index() < it.seq().len(),
                {
                    assert(it.seq().unref()[0] == *id);
                    assert(it.seq().unref().contains(*id));
                    return Some(*id);
                }
                None
            },
        }
    }
}

/// What becomes of a ticket.
#[derive(Debug, PartialEq, Eq)]
pub enum Issue {
    /// It goes to this dispatcher.
    Send(u16),
    /// It waits for a dispatcher of its road.
    Hold,
    /// The car already has a ticket on one of its days.
    Drop,
}

/// What becomes of `ticket` for a car already ticketed on `days`, with
/// `dispatcher` online for its road, where there is one: a ticket on a day
/// already ticketed is dropped; else it goes to the dispatcher, its days
/// now ticketed; else it is held back.
pub fn issue(ticket: &Ticket, days: &mut HashSet<u32>, dispatcher: Option<u16>) -> (r: Issue)
    ensures
        if exists|day: u32| ticket.covers(day) && old(days)@.contains(day) {
            r == Issue::Drop && final(days)@ == old(days)@
        } else {
            match dispatcher {
                Some(d) => r == Issue::Send(d) && final(days)@ == old(days)@.union(
                    Set::new(|day: u32| ticket.covers(day)),
                ),
                None => r == Issue::Hold && final(days)@ == old(days)@,
            }
        },
{
    if ticket.overlaps(days) {
        return Issue::Drop;
    }
    match dispatcher {
        Some(d) => {
            ticket.record(days);
            Issue::Send(d)
        },
        None => Issue::Hold,
    }
}

/// What `issue` makes of `ticket` for a car already ticketed on `days`.
pub open spec fn outcome(ticket: Ticket, days: Set<u32>, dispatcher: Option<u16>) -> Issue {
    if exists|day: u32| ticket.covers(day) && days.contains(day) {
        Issue::Drop
    } else {
        match dispatcher {
            Some(d) => Issue::Send(d),
            None => Issue::Hold,
        }
    }
}

/// The days covered by the tickets, among the first `k`, that were sent.
pub open spec fn sent_days(tickets: Seq<Ticket>, outcomes: Seq<Issue>, k: int) -> Set<u32>
    decreases k,
{
    if k <= 0 {
        Set::empty()
    } else {
        let before = sent_days(tickets, outcomes, k - 1);
        if outcomes[k - 1] is Send {
            before.union(Set::new(|day: u32| tickets[k - 1].covers(day)))
        } else {
            before
        }
    }
}

/// A day is among the sent days exactly where a sent ticket covers it.
pub proof fn lemma_sent_days(tickets: Seq<Ticket>, outcomes: Seq<Issue>, k: int, day: u32)
    ensures
        sent_days(tickets, outcomes, k).contains(day) <==> exists|j: int|
            0 <= j < k && outcomes[j] is Send && #[trigger] tickets[j].covers(day),
    decreases k,
{
    if k > 0 {
        lemma_sent_days(tickets, outcomes, k - 1, day);
        if sent_days(tickets, outcomes, k).contains(day) {
            if !sent_days(tickets, outcomes, k - 1).contains(day) {
                assert(outcomes[k - 1] is Send && tickets[k - 1].covers(day));
            }
        }
    }
}

/// The sent days of the first `k` tickets depend on the first `k`
/// outcomes alone.
proof fn lemma_sent_days_agree(tickets: Seq<Ticket>, a: Seq<Issue>, b: Seq<Issue>, k: int)
    requires
        forall|j: int| 0 <= j < k ==> a[j] == b[j],
    ensures
        sent_days(tickets, a, k) == sent_days(tickets, b, k),
    decreases k,
{
    if k > 0 {
        lemma_sent_days_agree(tickets, a, b, k - 1);
    }
}

/// The tickets of one reading, all for one car already ticketed on
/// `days`, with `dispatcher` online for their road, where there is one:
/// each is issued in turn as `issue` does, the days of those sent being
/// recorded as they go. So no sent ticket covers a day the car was
/// ticketed on before, no two sent tickets share a day, a ticket on a day
/// already ticketed is dropped, and the record grows by exactly the days
/// of the sent tickets.
pub fn issue_all(tickets: &Vec<Ticket>, days: &mut HashSet<u32>, dispatcher: Option<u16>) -> (r: Vec<Issue>)
    ensures
        r@.len() == tickets@.len(),
        forall|i: int| 0 <= i < r@.len() ==> #[trigger] r@[i] == outcome(
            tickets@[i],
            old(days)@.union(sent_days(tickets@, r@, i)),
            dispatcher,
        ),
        final(days)@ == old(days)@.union(sent_days(tickets@, r@, r@.len() as int)),
        forall|day: u32| #[trigger] final(days)@.contains(day) <==> old(days)@.contains(day) || exists|j: int|
            0 <= j < r@.len() && r@[j] is Send && #[trigger] tickets@[j].covers(day),
        forall|i: int, day: u32| 0 <= i < r@.len() && r@[i] is Send && #[trigger] tickets@[i].covers(day)
            ==> !old(days)@.contains(day),
        forall|i: int, j: int, day: u32| 0 <= i < j < r@.len() && r@[i] is Send && r@[j] is Send
            && #[trigger] tickets@[i].covers(day) ==> !#[trigger] tickets@[j].covers(day),
        forall|i: int, day: u32| 0 <= i < r@.len() && #[trigger] tickets@[i].covers(day) && old(days)@.contains(day)
            ==> r@[i] == Issue::Drop,
        forall|i: int| 0 <= i < r@.len() ==> match #[trigger] r@[i] {
            Issue::Send(d) => dispatcher == Some(d),
            Issue::Hold => dispatcher is None,
            Issue::Drop => true,
        },
{
    let mut r: Vec<Issue> = Vec::new();
    let mut i: usize = 0;
    while i < tickets.len()
        invariant
            i <= tickets@.len(),
            r@.len() == i,
            forall|j: int| 0 <= j < i ==> #[trigger] r@[j] == outcome(
                tickets@[j],
                old(days)@.union(sent_days(tickets@, r@, j)),
                dispatcher,
            ),
            days@ == old(days)@.union(sent_days(tickets@, r@, i as int)),
        decreases tickets@.len() - i,
    {
        let ghost before = days@;
        let ghost r0 = r@;
        let x = issue(&tickets[i], days, dispatcher);
        r.push(x);
        proof {
            assert forall|j: int| 0 <= j <= i implies sent_days(tickets@, r@, j) == sent_days(tickets@, r0, j) by {
                assert forall|m: int| 0 <= m < j implies r@[m] == r0[m] by {}
                lemma_sent_days_agree(tickets@, r@, r0, j);
            }
            assert forall|j: int| 0 <= j < i + 1 implies #[trigger] r@[j] == outcome(
                tickets@[j],
                old(days)@.union(sent_days(tickets@, r@, j)),
                dispatcher,
            ) by {
                if j < i {
                    assert(r@[j] == r0[j]);
                }
            }
            let sd = sent_days(tickets@, r0, i as int);
            assert(sent_days(tickets@, r@, i + 1) == if r@[i as int] is Send {
                sent_days(tickets@, r@, i as int).union(Set::new(|day: u32| tickets@[i as int].covers(day)))
            } else {
                sent_days(tickets@, r@, i as int)
            });
            if x is Send {
                assert(days@ =~= old(days)@.union(sent_days(tickets@, r@, i + 1)));
            } else {
                assert(days@ =~= old(days)@.union(sent_days(tickets@, r@, i + 1)));
            }
        }
        i = i + 1;
    }
    proof {
        let n = r@.len() as int;
        assert forall|day: u32| #[trigger] days@.contains(day) <==> old(days)@.contains(day) || exists|j: int|
            0 <= j < n && r@[j] is Send && #[trigger] tickets@[j].covers(day) by {
            lemma_sent_days(tickets@, r@, n, day);
        }
        assert forall|i2: int, j: int, day: u32| 0 <= i2 < j < n && r@[i2] is Send && r@[j] is Send
            && #[trigger] tickets@[i2].covers(day) implies !#[trigger] tickets@[j].covers(day) by {
            lemma_sent_days(tickets@, r@, j, day);
            assert(sent_days(tickets@, r@, j).contains(day));
        }
    }
    r
}

/// A car gets at most one ticket a day: once a ticket has been sent and
/// its days recorded, any other ticket that covers one of those days is
/// dropped.
pub proof fn lemma_one_ticket_a_day(days: Set<u32>, sent: Ticket, other: Ticket, day: u32)
    requires
        sent.covers(day),
        other.covers(day),
    ensures
        exists|d: u32| other.covers(d) && days.union(Set::new(|d: u32| sent.covers(d))).contains(d),
{
    assert(days.union(Set::new(|d: u32| sent.covers(d))).contains(day));
}

} // verus!
