use protohackers::pestcontrol::msg::{
    CreatePolicy, ErrorMsg, Hello, Msg, Policy, SiteVisit, TargetPopulations,
};
use protohackers::pestcontrol::policy::{
    maybe_create_policy, maybe_delete_policy, process_site_visit, AuthorityClient, SiteAction,
    SitePolicies, SiteSession, Step, Targets,
};
use protohackers::pestcontrol::{Action, Error, Population, TargetPopulation};

fn target(species: &str, min: u32, max: u32) -> TargetPopulation {
    TargetPopulation { species: species.to_string(), min, max }
}

#[test]
fn create_policy_messages() {
    let mut policies = SitePolicies::new();
    assert_eq!(
        maybe_create_policy(&mut policies, "dog".to_string(), Action::Cull),
        vec![Msg::CreatePolicy(CreatePolicy { species: "dog".to_string(), action: Action::Cull })]
    );
    assert_eq!(maybe_delete_policy(&mut policies, "dog".to_string()), None);
}

#[test]
fn site_visit_decides_nothing_to_send() {
    let mut policies = SitePolicies::new();
    let mut targets = Targets::new();
    targets.insert("dog".to_string(), 1, 3);
    targets.insert("dog".to_string(), 2, 4);
    assert_eq!(targets.get(&"dog".to_string()), Some((2, 4)));
    assert_eq!(targets.get(&"cat".to_string()), None);
    let observed = vec![
        Population { species: "dog".to_string(), count: 10 },
        Population { species: "cat".to_string(), count: 1 },
    ];
    assert!(process_site_visit(&mut policies, observed, &targets).is_empty());
}

#[test]
fn authority_conversation() {
    let mut policies = SitePolicies::new();
    let mut client = AuthorityClient::new(12);
    assert_eq!(client.site(), 12);
    assert!(client.awaiting_reply());
    assert_eq!(client.on_message(Msg::Hello(Hello::default()), &mut policies), Step::Continue);
    let tp = TargetPopulations { site: 12, populations: vec![target("dog", 1, 3)] };
    assert_eq!(client.on_message(Msg::TargetPopulations(tp), &mut policies), Step::Continue);
    assert!(!client.awaiting_reply());
    let visit = SiteVisit { site: 12, populations: vec![Population { species: "dog".to_string(), count: 7 }] };
    assert!(client.on_site_visit(visit, &mut policies).is_empty());
    assert_eq!(client.on_message(Msg::OkReply, &mut policies), Step::Unexpected);
}

#[test]
fn authority_refuses_what_it_does_not_expect() {
    let mut policies = SitePolicies::new();
    let mut client = AuthorityClient::new(12);
    assert_eq!(client.on_message(Msg::OkReply, &mut policies), Step::Unexpected);
    let mut client = AuthorityClient::new(12);
    client.on_message(Msg::Hello(Hello::default()), &mut policies);
    let tp = TargetPopulations { site: 13, populations: vec![] };
    assert_eq!(client.on_message(Msg::TargetPopulations(tp), &mut policies), Step::Unexpected);
    let _ = Policy { policy: 1 };
}

#[test]
fn error_messages_explain_errors() {
    assert_eq!(ErrorMsg::from_error(&Error::Unexpected).message, "unexpected message");
    assert_eq!(Error::InvalidChecksum.message(), "invalid checksum");
    assert_eq!(Error::InvalidLength.message(), "invalid message length");
}

#[test]
fn site_says_hello_before_visits() {
    let visit = SiteVisit { site: 5, populations: vec![Population { species: "dog".to_string(), count: 2 }] };
    let mut session = SiteSession::new();
    assert_eq!(session.on_message(Msg::SiteVisit(visit.clone())), SiteAction::Unexpected);
    assert_eq!(session.on_message(Msg::Hello(Hello::default())), SiteAction::Greeted);
    assert_eq!(session.on_message(Msg::Hello(Hello::default())), SiteAction::Unexpected);
    assert_eq!(session.on_message(Msg::SiteVisit(visit.clone())), SiteAction::Report(visit));
    assert_eq!(session.on_message(Msg::OkReply), SiteAction::Unexpected);
}

#[test]
fn authority_greeting_leaves_policies_alone() {
    let mut policies = SitePolicies::new();
    let mut client = AuthorityClient::new(12);
    assert_eq!(client.on_message(Msg::Hello(Hello::default()), &mut policies), Step::Continue);
    assert_eq!(policies.get(&"dog".to_string()), None);
    let tp = TargetPopulations { site: 12, populations: vec![target("dog", 1, 3), target("dog", 2, 5)] };
    assert_eq!(client.on_message(Msg::TargetPopulations(tp), &mut policies), Step::Continue);
    assert_eq!(client.on_message(Msg::OkReply, &mut policies), Step::Unexpected);
    assert_eq!(policies.get(&"dog".to_string()), None);
}
