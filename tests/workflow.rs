use git_ext::reconcile::{GitStep, Reconcile, ReconcileError, Reply, Stage};
use git_ext::text::split_lines;
use git_ext::prune::{is_clean_status, origin_ref, purge_candidate, purge_candidates};
use git_ext::restack::{Action, ChainRestack, Event, Phase, RestackError};
use git_ext::tree::prefix_for_depth;

fn checkout_target(a: &Action) -> Option<String> {
    match a {
        Action::Checkout(b) => Some(b.clone()),
        _ => None,
    }
}

#[test]
fn chain_restack_replays_mid_before_leaf() {
    let mut r = ChainRestack::new("base".to_string(), false);
    assert_eq!(r.phase, Phase::AwaitCurrent);
    assert!(matches!(r.step(Event::Current("leaf".to_string())), Action::QueryUpstream));
    assert_eq!(checkout_target(&r.step(Event::Upstream("mid".to_string()))).as_deref(), Some("mid"));
    assert!(matches!(r.step(Event::Done), Action::QueryCurrent));
    assert!(matches!(r.step(Event::Current("mid".to_string())), Action::QueryUpstream));
    assert_eq!(checkout_target(&r.step(Event::Upstream("base".to_string()))).as_deref(), Some("base"));
    assert!(matches!(r.step(Event::Done), Action::QueryCurrent));
    assert_eq!(r.work, vec!["mid".to_string(), "leaf".to_string()]);
    // The climb ends at the terminal; the replay starts with the branch nearest it.
    assert_eq!(checkout_target(&r.step(Event::Current("base".to_string()))).as_deref(), Some("mid"));
    assert!(matches!(r.step(Event::Done), Action::QueryUpstream));
    match r.step(Event::Upstream("base".to_string())) {
        Action::Reconcile(u) => assert_eq!(u, "base"),
        _ => panic!("expected a reconcile"),
    }
    assert_eq!(checkout_target(&r.step(Event::Done)).as_deref(), Some("leaf"));
    assert!(matches!(r.step(Event::Done), Action::QueryUpstream));
    match r.step(Event::Upstream("mid".to_string())) {
        Action::Reconcile(u) => assert_eq!(u, "mid"),
        _ => panic!("expected a reconcile"),
    }
    assert!(matches!(r.step(Event::Done), Action::Finish));
    assert_eq!(r.phase, Phase::Finished);
}

#[test]
fn chain_restack_pushes_when_asked() {
    let mut r = ChainRestack::new("main".to_string(), true);
    r.step(Event::Current("topic".to_string()));
    r.step(Event::Upstream("main".to_string()));
    r.step(Event::Done);
    assert_eq!(checkout_target(&r.step(Event::Current("main".to_string()))).as_deref(), Some("topic"));
    r.step(Event::Done);
    r.step(Event::Upstream("main".to_string()));
    assert!(matches!(r.step(Event::Done), Action::Push));
    assert!(matches!(r.step(Event::Done), Action::Finish));
}

#[test]
fn chain_restack_on_terminal_does_nothing() {
    let mut r = ChainRestack::new("main".to_string(), false);
    assert!(matches!(r.step(Event::Current("main".to_string())), Action::Finish));
}

#[test]
fn chain_restack_detects_cycle() {
    let mut r = ChainRestack::new("nowhere".to_string(), false);
    r.step(Event::Current("a".to_string()));
    r.step(Event::Upstream("b".to_string()));
    r.step(Event::Done);
    r.step(Event::Current("b".to_string()));
    r.step(Event::Upstream("a".to_string()));
    r.step(Event::Done);
    match r.step(Event::Current("a".to_string())) {
        Action::Fail(RestackError::Cycle(n)) => assert_eq!(n, "a"),
        _ => panic!("expected a cycle"),
    }
    assert_eq!(r.phase, Phase::Failed);
}

#[test]
fn chain_restack_rejects_unexpected_event() {
    let mut r = ChainRestack::new("main".to_string(), false);
    assert!(matches!(r.step(Event::Done), Action::Fail(RestackError::UnexpectedEvent)));
}

#[test]
fn purge_proposes_stale_release_branches() {
    let report = vec![
        "Pruning origin".to_string(),
        "URL: git@example.com:team/repo.git".to_string(),
        " * [would prune] origin/release/old-1".to_string(),
        " * [would prune] origin/release/old-2".to_string(),
        " * [would prune] origin/feature/other".to_string(),
    ];
    let c = purge_candidates(&report, "release");
    assert_eq!(c, vec!["release/old-1".to_string(), "release/old-2".to_string()]);
}

#[test]
fn purge_segment_stops_at_non_word() {
    assert_eq!(
        purge_candidate("origin/rel/a_b-c.d", "rel").as_deref(),
        Some("rel/a_b-c")
    );
    assert_eq!(purge_candidate("origin/rel/", "rel"), None);
    assert_eq!(purge_candidate("x origin/rel/ origin/rel/z", "rel").as_deref(), Some("rel/z"));
}

#[test]
fn clean_status_wordings() {
    assert!(is_clean_status("On branch main\nnothing to commit, working tree clean"));
    assert!(is_clean_status("nothing to commit, working directory clean"));
    assert!(!is_clean_status("Changes not staged for commit:\n\tmodified: a.rs"));
}

#[test]
fn remote_ref_name() {
    assert_eq!(origin_ref("feat-a"), "origin/feat-a");
}

#[test]
fn indent_prefixes() {
    assert_eq!(prefix_for_depth(0), "");
    assert_eq!(prefix_for_depth(1), "  +-- ");
    assert_eq!(prefix_for_depth(3), "      +-- ");
}

#[test]
fn reconcile_moves_tip_onto_upstream() {
    let mut r = Reconcile::new("main".to_string());
    match r.step(Reply::Text("c0ffee".to_string())) {
        GitStep::SetUpstream(u) => assert_eq!(u, "main"),
        _ => panic!("expected set-upstream"),
    }
    assert!(matches!(r.step(Reply::Done), GitStep::Status));
    match r.step(Reply::Text("On branch x\nnothing to commit, working tree clean".to_string())) {
        GitStep::ResetHard(u) => assert_eq!(u, "main"),
        _ => panic!("expected a reset"),
    }
    assert!(matches!(r.step(Reply::Done), GitStep::SyncSubmodules));
    match r.step(Reply::Done) {
        GitStep::CherryPick(c) => assert_eq!(c, "c0ffee"),
        _ => panic!("expected a cherry-pick"),
    }
    assert!(matches!(r.step(Reply::Done), GitStep::SyncSubmodules));
    assert!(matches!(r.step(Reply::Done), GitStep::Finish));
    assert_eq!(r.stage, Stage::Finished);
}

#[test]
fn reconcile_stops_on_dirty_tree() {
    let mut r = Reconcile::new("main".to_string());
    r.step(Reply::Text("abc".to_string()));
    r.step(Reply::Done);
    match r.step(Reply::Text("Changes not staged for commit".to_string())) {
        GitStep::Fail(ReconcileError::DirtyTree(s)) => assert_eq!(s, "Changes not staged for commit"),
        _ => panic!("expected a dirty-tree failure"),
    }
    assert_eq!(r.stage, Stage::Failed);
}

#[test]
fn reconcile_rejects_unexpected_reply() {
    let mut r = Reconcile::new("main".to_string());
    assert!(matches!(r.step(Reply::Done), GitStep::Fail(ReconcileError::UnexpectedReply)));
}

#[test]
fn lines_like_std() {
    for text in ["", "a", "a\n", "a\nb", "a\r\nb\r\n", "a\n\nb", "\n", "x\ry\nz", "\r\n"] {
        let expected: Vec<String> = text.lines().map(String::from).collect();
        assert_eq!(split_lines(text), expected, "splitting {:?}", text);
    }
}

#[test]
fn purge_refuses_names_cut_at_non_ascii() {
    assert_eq!(purge_candidate(" * [would prune] origin/release/café", "release"), None);
    assert_eq!(purge_candidate(" * [would prune] origin/release/été", "release"), None);
    assert_eq!(purge_candidate("origin/release/é origin/release/x", "release"), None);
    assert_eq!(
        purge_candidate("origin/release/old-1 — done", "release").as_deref(),
        Some("release/old-1")
    );
}

#[test]
fn machines_name_their_first_step() {
    let r = Reconcile::new("main".to_string());
    assert!(matches!(r.first_step(), GitStep::LastHash));
    let c = ChainRestack::new("main".to_string(), false);
    assert!(matches!(c.first_action(), Action::QueryCurrent));
}
