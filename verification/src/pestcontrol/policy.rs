//! What the pest control server decides: which policies a site visit calls
//! for, and how a conversation with a site's authority goes.
use vstd::prelude::*;
use vstd::string::StringExecFns;
use crate::pestcontrol::{Action, Population, TargetPopulation};
use crate::pestcontrol::msg::{CreatePolicy, Msg, MsgView, Policy, SiteVisit};
use crate::util::{first_named, lemma_first_named, lemma_first_named_some, lemma_first_named_names, lemma_first_named_push};

verus! {

broadcast use vstd::seq_lib::group_seq_properties;

/// Whether two strings are equal.
fn same_text(a: &String, b: &String) -> (r: bool)
    ensures
        r == (a@ == b@),
{
    *a == *b
}

/// The policies in force at one site: for each species, the policy's id
/// and its action.
pub struct SitePolicies {
    entries: Vec<(String, (u32, Action))>,
}

impl SitePolicies {
    /// The policies as plain values.
    pub closed spec fn entries(&self) -> Seq<(Seq<char>, (u32, Action))> {
        self.entries@.map_values(|e: (String, (u32, Action))| (e.0@, e.1))
    }

    /// The policy for `species`, where there is one.
    pub open spec fn policy(&self, species: Seq<char>) -> Option<(u32, Action)> {
        match first_named(self.entries(), species) {
            Some(i) => Some(self.entries()[i].1),
            None => None,
        }
    }

    pub fn new() -> (r: Self)
        ensures
            r.entries() == Seq::<(Seq<char>, (u32, Action))>::empty(),
    {
        let r = Self { entries: Vec::new() };
        assert(r.entries() =~= Seq::<(Seq<char>, (u32, Action))>::empty());
        r
    }

    /// The index of the policy for `species`.
    fn find(&self, species: &String) -> (r: Option<usize>)
        ensures
            match r {
                Some(i) => first_named(self.entries(), species@) == Some(i as int) && i < self.entries().len(),
                None => first_named(self.entries(), species@) is None,
            },
    {
        let mut i: usize = 0;
        while i < self.entries.len()
            invariant
                i <= self.entries@.len(),
                forall|j: int| 0 <= j < i ==> #[trigger] self.entries()[j].0 != species@,
            decreases self.entries@.len() - i,
        {
            if same_text(&self.entries[i].0, species) {
                proof {
                    lemma_first_named(self.entries(), species@, i as int);
                }
                return Some(i);
            }
            i = i + 1;
        }
        proof {
            lemma_first_named(self.entries(), species@, i as int);
        }
        None
    }

    /// The policy for `species`, where there is one.
    pub fn get(&self, species: &String) -> (r: Option<(u32, Action)>)
        ensures
            r == self.policy(species@),
    {
        match self.find(species) {
            Some(i) => Some(self.entries[i].1),
            None => None,
        }
    }

    /// Drops the policy for `species`, giving it back.
    pub fn remove(&mut self, species: &String) -> (r: Option<(u32, Action)>)
        ensures
            r == old(self).policy(species@),
            match first_named(old(self).entries(), species@) {
                Some(i) => final(self).entries() == old(self).entries().remove(i),
                None => final(self).entries() == old(self).entries(),
            },
    {
        match self.find(species) {
            Some(i) => {
                let (_, p) = self.entries.remove(i);
                assert(self.entries() =~= old(self).entries().remove(i as int));
                Some(p)
            },
            None => None,
        }
    }

    /// Records the id the authority gave the policy for `species`, where
    /// there is one.
    pub fn set_policy_id(&mut self, species: &String, id: u32)
        ensures
            match first_named(old(self).entries(), species@) {
                Some(i) => final(self).entries() == old(self).entries().update(
                    i,
                    (species@, (id, old(self).entries()[i].1.1)),
                ),
                None => final(self).entries() == old(self).entries(),
            },
    {
        match self.find(species) {
            Some(i) => {
                proof {
                    lemma_first_named_some(self.entries(), species@);
                }
                let (name, (_, action)) = self.entries.remove(i);
                self.entries.insert(i, (name, (id, action)));
                assert(self.entries() =~= old(self).entries().update(
                    i as int,
                    (species@, (id, old(self).entries()[i as int].1.1)),
                ));
            },
            None => {},
        }
    }
}

/// The population range the authority wants for each species.
pub struct Targets {
    entries: Vec<(String, (u32, u32))>,
}

impl Targets {
    /// The targets as plain values.
    pub closed spec fn entries(&self) -> Seq<(Seq<char>, (u32, u32))> {
        self.entries@.map_values(|e: (String, (u32, u32))| (e.0@, e.1))
    }

    /// The range for `species`, where there is one.
    pub open spec fn target(&self, species: Seq<char>) -> Option<(u32, u32)> {
        match first_named(self.entries(), species) {
            Some(i) => Some(self.entries()[i].1),
            None => None,
        }
    }

    pub fn new() -> (r: Self)
        ensures
            r.entries() == Seq::<(Seq<char>, (u32, u32))>::empty(),
    {
        let r = Self { entries: Vec::new() };
        assert(r.entries() =~= Seq::<(Seq<char>, (u32, u32))>::empty());
        r
    }

    /// The index of the range for `species`.
    fn find(&self, species: &String) -> (r: Option<usize>)
        ensures
            match r {
                Some(i) => first_named(self.entries(), species@) == Some(i as int) && i < self.entries().len(),
                None => first_named(self.entries(), species@) is None,
            },
    {
        let mut i: usize = 0;
        while i < self.entries.len()
            invariant
                i <= self.entries@.len(),
                forall|j: int| 0 <= j < i ==> #[trigger] self.entries()[j].0 != species@,
            decreases self.entries@.len() - i,
        {
            if same_text(&self.entries[i].0, species) {
                proof {
                    lemma_first_named(self.entries(), species@, i as int);
                }
                return Some(i);
            }
            i = i + 1;
        }
        proof {
            lemma_first_named(self.entries(), species@, i as int);
        }
        None
    }

    /// The range for `species`, where there is one.
    pub fn get(&self, species: &String) -> (r: Option<(u32, u32)>)
        ensures
            r == self.target(species@),
    {
        match self.find(species) {
            Some(i) => Some(self.entries[i].1),
            None => None,
        }
    }

    /// Sets the range for `species`, replacing the one it had.
    pub fn insert(&mut self, species: String, min: u32, max: u32)
        ensures
            final(self).target(species@) == Some((min, max)),
            forall|other: Seq<char>| other != species@ ==> #[trigger] final(self).target(other) == old(self).target(other),
    {
        let ghost name = species@;
        match self.find(&species) {
            Some(i) => {
                let _ = self.entries.remove(i);
                self.entries.insert(i, (species, (min, max)));
                let ghost e = old(self).entries().update(i as int, (name, (min, max)));
                assert(self.entries() =~= e);
                proof {
                    lemma_first_named_some(old(self).entries(), name);
                    assert forall|other: Seq<char>| #[trigger] first_named(e, other) == first_named(old(self).entries(), other) by {
                        lemma_first_named_names(e, old(self).entries(), other);
                    }
                    assert forall|other: Seq<char>| other != name implies #[trigger] self.target(other) == old(self).target(other) by {
                        lemma_first_named_some(old(self).entries(), other);
                    }
                }
            },
            None => {
                self.entries.push((species, (min, max)));
                assert(self.entries() =~= old(self).entries().push((name, (min, max))));
                proof {
                    lemma_first_named_push(old(self).entries(), (name, (min, max)), name);
                    assert forall|other: Seq<char>| other != name implies #[trigger] self.target(other) == old(self).target(other) by {
                        lemma_first_named_push(old(self).entries(), (name, (min, max)), other);
                        lemma_first_named_some(old(self).entries(), other);
                    }
                }
            },
        }
    }
}

/// Whether two actions are the same.
fn same_action(a: Action, b: Action) -> (r: bool)
    ensures
        r == (a == b),
{
    match (a, b) {
        (Action::Cull, Action::Cull) => true,
        (Action::Conserve, Action::Conserve) => true,
        _ => false,
    }
}

/// The messages that put `action` in force for `species`, given the policy
/// there is: none where it is in force; where another is, its deletion and
/// then the new policy.
pub open spec fn create_msgs(current: Option<(u32, Action)>, species: Seq<char>, action: Action) -> Seq<MsgView> {
    match current {
        Some((id, cur)) => if cur != action {
            seq![MsgView::DeletePolicy(id), MsgView::CreatePolicy(species, action)]
        } else {
            seq![]
        },
        None => seq![MsgView::CreatePolicy(species, action)],
    }
}

/// The messages that put `action` in force for `species` at a site; the
/// site's policies are left as they are.
pub fn maybe_create_policy(site_policies: &mut SitePolicies, species: String, action: Action) -> (r: Vec<Msg>)
    ensures
        final(site_policies).entries() == old(site_policies).entries(),
        r.deep_view() == create_msgs(old(site_policies).policy(species@), species@, action),
{
    let mut messages: Vec<Msg> = Vec::new();
    let create_policy = match site_policies.get(&species) {
        Some((policy_id, current_action)) => {
            if !same_action(current_action, action) {
                messages.push(Msg::DeletePolicy(Policy { policy: policy_id }));
                true
            } else {
                false
            }
        },
        None => true,
    };
    if create_policy {
        messages.push(Msg::CreatePolicy(CreatePolicy { species, action }));
    }
    assert(messages.deep_view() =~= create_msgs(old(site_policies).policy(species@), species@, action));
    messages
}

/// The policies without the one for `name`.
pub open spec fn removed(entries: Seq<(Seq<char>, (u32, Action))>, name: Seq<char>) -> Seq<(Seq<char>, (u32, Action))> {
    match first_named(entries, name) {
        Some(i) => entries.remove(i),
        None => entries,
    }
}

/// Drops the policy for `species` at a site, giving the message that
/// deletes it, where there was one.
pub fn maybe_delete_policy(site_policies: &mut SitePolicies, species: String) -> (r: Option<Msg>)
    ensures
        final(site_policies).entries() == removed(old(site_policies).entries(), species@),
        match old(site_policies).policy(species@) {
            Some((id, _)) => r matches Some(m) && m.deep_view() == MsgView::DeletePolicy(id),
            None => r is None,
        },
{
    match site_policies.remove(&species) {
        Some((policy_id, _)) => Some(Msg::DeletePolicy(Policy { policy: policy_id })),
        None => None,
    }
}

/// The policies of a site after a visit that observed `observed`: each
/// species counted within its target range loses its policy.
pub open spec fn visit_effect(
    entries: Seq<(Seq<char>, (u32, Action))>,
    observed: Seq<(Seq<char>, u32)>,
    targets: Targets,
) -> Seq<(Seq<char>, (u32, Action))>
    decreases observed.len(),
{
    if observed.len() == 0 {
        entries
    } else {
        let before = visit_effect(entries, observed.drop_last(), targets);
        let (species, count) = observed.last();
        match targets.target(species) {
            Some((min, max)) => if count < min || count > max {
                before
            } else {
                removed(before, species)
            },
            None => before,
        }
    }
}

/// Works through a site visit against the target ranges: a species below
/// its range would call for conservation, above it for culling, within it
/// for dropping its policy. Only the dropping takes effect: the messages
/// that would carry out these decisions are not given back, and the result
/// is always empty.
pub fn process_site_visit(
    site_policies: &mut SitePolicies,
    observed_populations: Vec<Population>,
    target_populations: &Targets,
) -> (r: Vec<Msg>)
    ensures
        final(site_policies).entries() == visit_effect(
            old(site_policies).entries(),
            observed_populations.deep_view(),
            *target_populations,
        ),
        r@.len() == 0,
{
    let mut messages: Vec<Msg> = Vec::new();
    let mut i: usize = 0;
    while i < observed_populations.len()
        invariant
            i <= observed_populations@.len(),
            site_policies.entries() == visit_effect(
                old(site_policies).entries(),
                observed_populations.deep_view().subrange(0, i as int),
                *target_populations,
            ),
        decreases observed_populations@.len() - i,
    {
        let population = &observed_populations[i];
        let ghost obs = observed_populations.deep_view();
        assert(obs.subrange(0, i + 1).drop_last() =~= obs.subrange(0, i as int));
        assert(obs[i as int] == (population.species@, population.count));
        match target_populations.get(&population.species) {
            Some((min, max)) => {
                if population.count < min {
                    let mut more = maybe_create_policy(site_policies, population.species.clone(), Action::Conserve);
                    messages.append(&mut more);
                } else if population.count > max {
                    let mut more = maybe_create_policy(site_policies, population.species.clone(), Action::Cull);
                    messages.append(&mut more);
                } else {
                    match maybe_delete_policy(site_policies, population.species.clone()) {
                        Some(msg) => messages.push(msg),
                        None => {},
                    }
                }
            },
            None => {},
        }
        i = i + 1;
    }
    assert(observed_populations.deep_view().subrange(0, i as int) =~= observed_populations.deep_view());
    Vec::new()
}

/// What the server expects next from a site's authority.
#[derive(Debug, PartialEq, Eq)]
pub enum Expected {
    Hello,
    TargetPopulations,
    PolicyResult(String),
    OkReply,
}

/// An expectation as plain values.
pub enum ExpectedView {
    Hello,
    TargetPopulations,
    PolicyResult(Seq<char>),
    OkReply,
}

impl View for Expected {
    type V = ExpectedView;

    open spec fn view(&self) -> ExpectedView {
        match self {
            Expected::Hello => ExpectedView::Hello,
            Expected::TargetPopulations => ExpectedView::TargetPopulations,
            Expected::PolicyResult(s) => ExpectedView::PolicyResult(s@),
            Expected::OkReply => ExpectedView::OkReply,
        }
    }
}

/// How a conversation goes on after a message from the authority: on, or
/// over because the message was not the one expected (the server then says
/// so to the authority).
#[derive(Debug, PartialEq, Eq)]
pub enum Step {
    Continue,
    Unexpected,
}

/// The range for `species` once the ranges `pops` are set in order on
/// top of `before`: the last one given for it, or `before`.
pub open spec fn updated_range(before: Option<(u32, u32)>, pops: Seq<TargetPopulation>, species: Seq<char>) -> Option<
    (u32, u32),
>
    decreases pops.len(),
{
    if pops.len() == 0 {
        before
    } else if pops.last().species@ == species {
        Some((pops.last().min, pops.last().max))
    } else {
        updated_range(before, pops.drop_last(), species)
    }
}

/// The server's side of a conversation with the authority of one site.
pub struct AuthorityClient {
    site: u32,
    expected: Vec<Expected>,
    targets: Targets,
}

/// Whether `msg` is what `expected` awaits from the authority of `site`.
pub open spec fn fits(expected: ExpectedView, msg: MsgView, site: u32) -> bool {
    match (expected, msg) {
        (ExpectedView::Hello, MsgView::Hello(_, _)) => true,
        (ExpectedView::TargetPopulations, MsgView::TargetPopulations(s, _)) => s == site,
        (ExpectedView::OkReply, MsgView::OkReply) => true,
        (ExpectedView::PolicyResult(_), MsgView::PolicyResult(_)) => true,
        _ => false,
    }
}

impl AuthorityClient {
    /// The site the conversation is about.
    pub closed spec fn site_of(&self) -> u32 {
        self.site
    }

    /// The site the conversation is about.
    pub fn site(&self) -> (r: u32)
        ensures
            r == self.site_of(),
    {
        self.site
    }

    /// What is expected next, in order.
    pub closed spec fn expectations(&self) -> Seq<ExpectedView> {
        self.expected@.map_values(|e: Expected| e@)
    }

    /// The target ranges learnt so far.
    pub closed spec fn targets(&self) -> Targets {
        self.targets
    }

    /// A new conversation: the server has said hello, and expects a hello
    /// and then the target populations.
    pub fn new(site: u32) -> (r: Self)
        ensures
            r.site_of() == site,
            r.expectations() == seq![ExpectedView::Hello, ExpectedView::TargetPopulations],
            r.targets().entries().len() == 0,
    {
        let mut expected: Vec<Expected> = Vec::new();
        expected.push(Expected::Hello);
        expected.push(Expected::TargetPopulations);
        let r = Self { site, expected, targets: Targets::new() };
        assert(r.expectations() =~= seq![ExpectedView::Hello, ExpectedView::TargetPopulations]);
        r
    }

    /// Whether a reply from the authority is still awaited; site visits are
    /// only taken up when none is.
    pub fn awaiting_reply(&self) -> (r: bool)
        ensures
            r == (self.expectations().len() > 0),
    {
        self.expected.len() > 0
    }

    /// A message from the authority: it must be the first thing expected
    /// (target populations for this site); target populations set the
    /// ranges, and a policy's result records the policy's id.
    pub fn on_message(&mut self, msg: Msg, site_policies: &mut SitePolicies) -> (r: Step)
        ensures
            final(self).site_of() == old(self).site_of(),
            old(self).expectations().len() == 0 ==> r == Step::Unexpected,
            old(self).expectations().len() > 0 ==> {
                &&& final(self).expectations() == old(self).expectations().drop_first()
                &&& (r == Step::Continue <==> fits(old(self).expectations()[0], msg.deep_view(), old(self).site_of()))
            },
            !(r == Step::Continue && msg is PolicyResult) ==> final(site_policies).entries() == old(site_policies).entries(),
            !(r == Step::Continue && msg is TargetPopulations) ==> final(self).targets() == old(self).targets(),
            r == Step::Continue ==> match msg {
                Msg::TargetPopulations(t) => forall|species: Seq<char>| #[trigger] final(self).targets().target(species)
                    == updated_range(old(self).targets().target(species), t.populations@, species),
                _ => true,
            },
            r == Step::Continue ==> match msg {
                Msg::TargetPopulations(t) => forall|k: int| 0 <= k < t.populations@.len()
                    && (forall|j: int| k < j < t.populations@.len() ==> t.populations@[j].species@ != t.populations@[k].species@)
                    ==> #[trigger] final(self).targets().target(t.populations@[k].species@) == Some((t.populations@[k].min, t.populations@[k].max)),
                Msg::PolicyResult(p) => old(self).expectations()[0] matches ExpectedView::PolicyResult(species)
                    && final(site_policies).entries() == match first_named(old(site_policies).entries(), species) {
                        Some(i) => old(site_policies).entries().update(i, (species, (p.policy, old(site_policies).entries()[i].1.1))),
                        None => old(site_policies).entries(),
                    },
                _ => true,
            },
    {
        if self.expected.len() == 0 {
            return Step::Unexpected;
        }
        let ghost before = self.expectations();
        let expected = self.expected.remove(0);
        assert(self.expectations() =~= before.drop_first());
        match (expected, msg) {
            (Expected::Hello, Msg::Hello(_)) => Step::Continue,
            (Expected::TargetPopulations, Msg::TargetPopulations(t)) => {
                if t.site != self.site {
                    return Step::Unexpected;
                }
                let ghost pops = t.populations@;
                let mut i: usize = 0;
                while i < t.populations.len()
                    invariant
                        i <= t.populations@.len(),
                        pops == t.populations@,
                        self.site == old(self).site,
                        self.expectations() == old(self).expectations().drop_first(),
                        forall|species: Seq<char>| #[trigger] self.targets.target(species) == updated_range(
                            old(self).targets().target(species),
                            pops.take(i as int),
                            species,
                        ),
                        forall|k: int| 0 <= k < i
                            && (forall|j: int| k < j < i ==> pops[j].species@ != pops[k].species@)
                            ==> #[trigger] self.targets.target(pops[k].species@) == Some((pops[k].min, pops[k].max)),
                    decreases t.populations@.len() - i,
                {
                    let p = &t.populations[i];
                    let ghost before_t = self.targets;
                    self.targets.insert(p.species.clone(), p.min, p.max);
                    proof {
                        assert(pops.take(i + 1).drop_last() =~= pops.take(i as int));
                        assert(pops.take(i + 1).last() == pops[i as int]);
                        assert forall|species: Seq<char>| #[trigger] self.targets.target(species) == updated_range(
                            old(self).targets().target(species),
                            pops.take(i + 1),
                            species,
                        ) by {
                            assert(before_t.target(species) == updated_range(old(self).targets().target(species), pops.take(i as int), species));
                        }
                        assert forall|k: int| 0 <= k < i + 1
                            && (forall|j: int| k < j < i + 1 ==> pops[j].species@ != pops[k].species@)
                            implies #[trigger] self.targets.target(pops[k].species@) == Some((pops[k].min, pops[k].max)) by {
                            if k < i {
                                assert(pops[i as int].species@ != pops[k].species@);
                                assert(before_t.target(pops[k].species@) == Some((pops[k].min, pops[k].max)));
                            }
                        }
                    }
                    i = i + 1;
                }
                assert(pops.take(pops.len() as int) =~= pops);
                Step::Continue
            },
            (Expected::OkReply, Msg::OkReply) => Step::Continue,
            (Expected::PolicyResult(species), Msg::PolicyResult(p)) => {
                site_policies.set_policy_id(&species, p.policy);
                Step::Continue
            },
            _ => Step::Unexpected,
        }
    }

    /// A site visit reported to the server: for this site, the messages to
    /// send the authority, each adding what it expects in reply (an `Ok`
    /// for a deletion, a result for a new policy). Other sites' visits are
    /// not its business.
    pub fn on_site_visit(&mut self, visit: SiteVisit, site_policies: &mut SitePolicies) -> (r: Vec<Msg>)
        ensures
            final(self).site_of() == old(self).site_of(),
            visit.site != old(self).site_of() ==> r@.len() == 0 && final(site_policies).entries() == old(site_policies).entries(),
            visit.site == old(self).site_of() ==> final(site_policies).entries() == visit_effect(
                old(site_policies).entries(),
                visit.populations.deep_view(),
                old(self).targets(),
            ),
            final(self).expectations() == old(self).expectations(),
            final(self).targets() == old(self).targets(),
            r@.len() == 0,
    {
        if visit.site != self.site {
            return Vec::new();
        }
        process_site_visit(site_policies, visit.populations, &self.targets)
    }
}

/// What the server does with a message from a site.
#[derive(Debug, PartialEq)]
pub enum SiteAction {
    /// The site said hello.
    Greeted,
    /// A visit to pass on to that site's authority.
    Report(SiteVisit),
    /// Not what the conversation allows: the server answers with an error
    /// and reads on.
    Unexpected,
}

/// The server's side of a conversation with a site: a hello first, then
/// site visits.
pub struct SiteSession {
    hello_received: bool,
}

impl SiteSession {
    /// Whether the site has said hello.
    pub closed spec fn greeted(&self) -> bool {
        self.hello_received
    }

    /// A new conversation, before the site's hello.
    pub fn new() -> (r: Self)
        ensures
            !r.greeted(),
    {
        Self { hello_received: false }
    }

    /// A message from the site: the first hello greets, a visit after the
    /// hello is reported, and anything else is unexpected.
    pub fn on_message(&mut self, msg: Msg) -> (r: SiteAction)
        ensures
            msg is Hello && !old(self).greeted() ==> r is Greeted && final(self).greeted(),
            old(self).greeted() ==> (msg matches Msg::SiteVisit(v) ==> r == SiteAction::Report(v) && final(self).greeted()),
            !(msg is Hello && !old(self).greeted()) && !(msg is SiteVisit && old(self).greeted())
                ==> r is Unexpected && final(self).greeted() == old(self).greeted(),
    {
        match msg {
            Msg::Hello(_) => {
                if self.hello_received {
                    SiteAction::Unexpected
                } else {
                    self.hello_received = true;
                    SiteAction::Greeted
                }
            },
            Msg::SiteVisit(v) => {
                if self.hello_received {
                    SiteAction::Report(v)
                } else {
                    SiteAction::Unexpected
                }
            },
            _ => SiteAction::Unexpected,
        }
    }
}

} // verus!
