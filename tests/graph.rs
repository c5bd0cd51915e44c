use git_ext::entry::parse_branch_entry;
use git_ext::graph::{build, name_less, BranchGraph};
use git_ext::tree::{branch_graph, RowKind, TreeError};

fn lines(v: &[&str]) -> Vec<String> {
    v.iter().map(|s| s.to_string()).collect()
}

fn stack() -> BranchGraph {
    branch_graph(&lines(&[
        "* feat-b  abc123 [feat-a: ahead 2] add widget",
        "  feat-a  def456 [main] base work",
        "  main    ghi789 init",
    ]))
    .ok()
    .unwrap()
}

fn position(g: &BranchGraph, name: &str) -> usize {
    g.descs.iter().position(|d| d.name == name).unwrap()
}

#[test]
fn example_stack_graph() {
    let g = stack();
    let main = position(&g, "main");
    let a = position(&g, "feat-a");
    let b = position(&g, "feat-b");
    let roots: Vec<&str> = g.roots.iter().map(|&i| g.descs[i].name.as_str()).collect();
    assert_eq!(roots, vec!["main"]);
    assert_eq!(g.downstream[main], vec!["feat-a".to_string()]);
    assert_eq!(g.downstream[a], vec!["feat-b".to_string()]);
    assert!(g.downstream[b].is_empty());
    assert_eq!(g.branch_depth(b), Some(2));
    assert_eq!(g.branch_depth(a), Some(1));
    assert_eq!(g.branch_depth(main), Some(0));
}

#[test]
fn roots_and_downstream_do_not_depend_on_order() {
    let g1 = stack();
    let g2 = branch_graph(&lines(&[
        "  main    ghi789 init",
        "* feat-b  abc123 [feat-a: ahead 2] add widget",
        "  feat-a  def456 [main] base work",
    ]))
    .ok()
    .unwrap();
    for name in ["main", "feat-a", "feat-b"] {
        let mut d1 = g1.downstream[position(&g1, name)].clone();
        let mut d2 = g2.downstream[position(&g2, name)].clone();
        d1.sort();
        d2.sort();
        assert_eq!(d1, d2);
    }
    let r1: Vec<&str> = g1.roots.iter().map(|&i| g1.descs[i].name.as_str()).collect();
    let r2: Vec<&str> = g2.roots.iter().map(|&i| g2.descs[i].name.as_str()).collect();
    assert_eq!(r1, r2);
}

#[test]
fn roots_sorted_by_name_and_downstream_in_listing_order() {
    let g = branch_graph(&lines(&[
        "  zeta  1 z",
        "  c2    2 [alpha] second",
        "  alpha 3 [origin/alpha] a",
        "  c1    4 [alpha] first",
        "  beta  5 [gone-branch] b",
    ]))
    .ok()
    .unwrap();
    let roots: Vec<&str> = g.roots.iter().map(|&i| g.descs[i].name.as_str()).collect();
    assert_eq!(roots, vec!["alpha", "beta", "zeta"]);
    let alpha = position(&g, "alpha");
    assert_eq!(g.downstream[alpha], vec!["c2".to_string(), "c1".to_string()]);
}

#[test]
fn upstream_cycle_has_no_depth_and_no_root() {
    let descs = vec![
        parse_branch_entry("  a 1 [b] x").unwrap(),
        parse_branch_entry("  b 2 [a] y").unwrap(),
    ];
    let g = build(descs);
    assert!(g.roots.is_empty());
    assert_eq!(g.branch_depth(0), None);
    assert!(g.render().is_empty());
}

#[test]
fn duplicate_names_are_refused() {
    let r = branch_graph(&lines(&["  a 1 x", "  a 2 y"]));
    match r {
        Err(TreeError::DuplicateName(n)) => assert_eq!(n, "a"),
        _ => panic!("expected a duplicate-name error"),
    }
}

#[test]
fn bad_line_is_refused() {
    let r = branch_graph(&lines(&["  a 1 x", "  broken"]));
    match r {
        Err(TreeError::Parse(e)) => assert_eq!(e.line, "  broken"),
        _ => panic!("expected a parse error"),
    }
}

#[test]
fn name_order() {
    assert!(name_less("main", "mainline"));
    assert!(name_less("feat-a", "feat-b"));
    assert!(!name_less("b", "a"));
    assert!(!name_less("same", "same"));
}

#[test]
fn render_example_stack() {
    let g = stack();
    let rows = g.render();
    let labels: Vec<&str> = rows.iter().map(|r| r.label.as_str()).collect();
    assert_eq!(labels, vec!["main", "  +-- feat-a", "    +-- * feat-b"]);
    assert_eq!(rows[2].kind, RowKind::Current);
    assert_eq!(rows[2].ahead, Some(2));
    assert_eq!(rows[2].behind, None);
    assert_eq!(rows[2].sha, "abc123");
    assert_eq!(rows[2].message, "add widget");
    assert_eq!(rows[0].kind, RowKind::Branch);
}

#[test]
fn render_adds_upstream_rows() {
    let g = branch_graph(&lines(&[
        "  alpha 3 [origin/alpha: behind 1] a",
        "  c1    4 [alpha] first",
        "  beta  5 [gone-branch] b",
    ]))
    .ok()
    .unwrap();
    let rows = g.render();
    assert_eq!(rows.len(), 5);
    let labels: Vec<&str> = rows.iter().map(|r| r.label.as_str()).collect();
    assert_eq!(
        labels,
        vec!["origin/alpha", "alpha", "  +-- c1", "gone-branch [missing]", "beta"]
    );
    assert_eq!(rows[0].kind, RowKind::RemoteUpstream);
    assert_eq!(rows[1].behind, Some(1));
    assert_eq!(rows[3].kind, RowKind::MissingUpstream);
    assert_eq!(rows[3].sha, "");
}
