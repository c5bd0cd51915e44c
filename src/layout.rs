//! What the tree rows cover: the rows are, item by item, the rows of a
//! sequence of (branch, depth) pairs that lists every branch exactly once.

use vstd::prelude::*;
use crate::entry::EntryView;
use crate::graph::BranchGraph;
use crate::graph::{
    chain_node, downstream_spec, has_depth, has_name, index_of, lemma_chain_node,
    lemma_depth_bound, lemma_depth_step, lemma_depth_unique, lemma_downstream_members,
    lemma_index_of, names_unique,
};
use crate::text::contains;
use crate::tree::{
    children_rows, forest_rows, origin_word, own_row, phantom_rows, tree_rows, RowView,
};

verus! {

/// The rows of one branch at depth `d`: its upstream row, if it needs one,
/// then its own row.
pub open spec fn item_rows(ds: Seq<EntryView>, j: int, d: nat) -> Seq<RowView> {
    phantom_rows(ds, j, d) + seq![own_row(ds, j, d)]
}

/// The rows of a sequence of (branch, depth) items, one after the other.
pub open spec fn rows_of_items(ds: Seq<EntryView>, items: Seq<(int, nat)>) -> Seq<RowView>
    decreases items.len(),
{
    if items.len() == 0 {
        Seq::empty()
    } else {
        rows_of_items(ds, items.drop_last()) + item_rows(ds, items.last().0, items.last().1)
    }
}

/// The (branch, depth) items of the subtree at `i`, in the order of
/// `tree_rows`.
pub open spec fn tree_items(ds: Seq<EntryView>, i: int, d: nat, fuel: nat) -> Seq<(int, nat)>
    decreases fuel, 0nat, 0nat,
{
    if fuel == 0 {
        Seq::empty()
    } else {
        seq![(i, d)] + children_items(
            ds,
            downstream_spec(ds, ds[i].name),
            d + 1,
            (fuel - 1) as nat,
        )
    }
}

pub open spec fn children_items(
    ds: Seq<EntryView>,
    names: Seq<Seq<char>>,
    d: nat,
    fuel: nat,
) -> Seq<(int, nat)>
    decreases fuel, 1nat, names.len(),
{
    if names.len() == 0 {
        Seq::empty()
    } else {
        children_items(ds, names.drop_last(), d, fuel) + if has_name(ds, names.last()) {
            tree_items(ds, index_of(ds, names.last()), d, fuel)
        } else {
            Seq::empty()
        }
    }
}

pub open spec fn forest_items(ds: Seq<EntryView>, roots: Seq<usize>, fuel: nat) -> Seq<(int, nat)>
    decreases roots.len(),
{
    if roots.len() == 0 {
        Seq::empty()
    } else {
        forest_items(ds, roots.drop_last(), fuel) + tree_items(ds, roots.last() as int, 0, fuel)
    }
}

proof fn lemma_rows_of_items_concat(ds: Seq<EntryView>, a: Seq<(int, nat)>, b: Seq<(int, nat)>)
    ensures
        rows_of_items(ds, a + b) == rows_of_items(ds, a) + rows_of_items(ds, b),
    decreases b.len(),
{
    if b.len() == 0 {
        assert(a + b =~= a);
        assert(rows_of_items(ds, a) + Seq::<RowView>::empty() =~= rows_of_items(ds, a));
    } else {
        assert((a + b).drop_last() =~= a + b.drop_last());
        assert((a + b).last() == b.last());
        lemma_rows_of_items_concat(ds, a, b.drop_last());
        let x = rows_of_items(ds, a);
        let y = rows_of_items(ds, b.drop_last());
        let z = item_rows(ds, b.last().0, b.last().1);
        assert(x + y + z =~= x + (y + z));
    }
}

proof fn lemma_tree_items_rows(ds: Seq<EntryView>, i: int, d: nat, fuel: nat)
    ensures
        tree_rows(ds, i, d, fuel) == rows_of_items(ds, tree_items(ds, i, d, fuel)),
    decreases fuel, 0nat, 0nat,
{
    if fuel == 0 {
    } else {
        let names = downstream_spec(ds, ds[i].name);
        lemma_children_items_rows(ds, names, d + 1, (fuel - 1) as nat);
        let head = seq![(i, d)];
        let rest = children_items(ds, names, d + 1, (fuel - 1) as nat);
        lemma_rows_of_items_concat(ds, head, rest);
        assert(head.drop_last() =~= Seq::<(int, nat)>::empty());
        assert(head.last() == (i, d));
        assert(rows_of_items(ds, head.drop_last()) == Seq::<RowView>::empty());
        assert(Seq::<RowView>::empty() + item_rows(ds, i, d) =~= item_rows(ds, i, d));
        assert(rows_of_items(ds, head) == item_rows(ds, i, d));
    }
}

proof fn lemma_children_items_rows(ds: Seq<EntryView>, names: Seq<Seq<char>>, d: nat, fuel: nat)
    ensures
        children_rows(ds, names, d, fuel) == rows_of_items(ds, children_items(ds, names, d, fuel)),
    decreases fuel, 1nat, names.len(),
{
    if names.len() > 0 {
        lemma_children_items_rows(ds, names.drop_last(), d, fuel);
        let prev = children_items(ds, names.drop_last(), d, fuel);
        if has_name(ds, names.last()) {
            let j = index_of(ds, names.last());
            lemma_tree_items_rows(ds, j, d, fuel);
            lemma_rows_of_items_concat(ds, prev, tree_items(ds, j, d, fuel));
        } else {
            assert(prev + Seq::<(int, nat)>::empty() =~= prev);
            assert(children_rows(ds, names.drop_last(), d, fuel) + Seq::<RowView>::empty()
                =~= children_rows(ds, names.drop_last(), d, fuel));
        }
    }
}

proof fn lemma_forest_items_rows(ds: Seq<EntryView>, roots: Seq<usize>, fuel: nat)
    ensures
        forest_rows(ds, roots, fuel) == rows_of_items(ds, forest_items(ds, roots, fuel)),
    decreases roots.len(),
{
    if roots.len() > 0 {
        lemma_forest_items_rows(ds, roots.drop_last(), fuel);
        lemma_tree_items_rows(ds, roots.last() as int, 0, fuel);
        lemma_rows_of_items_concat(
            ds,
            forest_items(ds, roots.drop_last(), fuel),
            tree_items(ds, roots.last() as int, 0, fuel),
        );
    }
}

/// Under unique names the downstream list names each branch once.
proof fn lemma_downstream_distinct(ds: Seq<EntryView>, name: Seq<char>)
    requires
        names_unique(ds),
    ensures
        downstream_spec(ds, name).no_duplicates(),
    decreases ds.len(),
{
    if ds.len() > 0 {
        let prev = ds.drop_last();
        assert(names_unique(prev)) by {
            assert forall|a: int, b: int| 0 <= a < prev.len() && 0 <= b < prev.len() && prev[a].name == prev[b].name implies a == b by {
                assert(prev[a] == ds[a] && prev[b] == ds[b]);
            }
        }
        lemma_downstream_distinct(prev, name);
        let m = ds.last().name;
        lemma_downstream_members(prev, name, m);
        if downstream_spec(prev, name).contains(m) {
            let k = choose|k: int| 0 <= k < prev.len() && prev[k].upstream == Some(name) && prev[k].name == m;
            assert(ds[k].name == ds[ds.len() - 1].name);
        }
    }
}

/// A name on the downstream list of `p` is a branch that tracks `p`.
proof fn lemma_child(ds: Seq<EntryView>, p: int, m: Seq<char>)
    requires
        names_unique(ds),
        0 <= p < ds.len(),
        downstream_spec(ds, ds[p].name).contains(m),
    ensures
        has_name(ds, m),
        0 <= index_of(ds, m) < ds.len(),
        ds[index_of(ds, m)].name == m,
        ds[index_of(ds, m)].upstream == Some(ds[p].name),
{
    lemma_downstream_members(ds, ds[p].name, m);
    let k = choose|k: int| 0 <= k < ds.len() && ds[k].upstream == Some(ds[p].name) && ds[k].name == m;
    lemma_index_of(ds, k);
}

proof fn lemma_concat_member<T>(a: Seq<T>, b: Seq<T>, x: T)
    requires
        (a + b).contains(x),
    ensures
        a.contains(x) || b.contains(x),
{
    let k = choose|k: int| 0 <= k < (a + b).len() && (a + b)[k] == x;
    if k < a.len() {
        assert(a[k] == x);
    } else {
        assert(b[k - a.len()] == x);
    }
}

proof fn lemma_concat_contains<T>(a: Seq<T>, b: Seq<T>, x: T)
    requires
        a.contains(x) || b.contains(x),
    ensures
        (a + b).contains(x),
{
    if a.contains(x) {
        let k = choose|k: int| 0 <= k < a.len() && a[k] == x;
        assert((a + b)[k] == x);
    } else {
        let k = choose|k: int| 0 <= k < b.len() && b[k] == x;
        assert((a + b)[a.len() + k] == x);
    }
}

/// An item of the subtree at `i` is a branch whose chain passes `i`.
proof fn lemma_tree_member(ds: Seq<EntryView>, i: int, d: nat, f: nat, x: (int, nat))
    requires
        names_unique(ds),
        0 <= i < ds.len(),
        has_depth(ds, i, d),
        tree_items(ds, i, d, f).contains(x),
    ensures
        0 <= x.0 < ds.len(),
        x.1 >= d,
        has_depth(ds, x.0, x.1),
        chain_node(ds, x.0, (x.1 - d) as nat) == i,
    decreases f, 0nat, 0nat,
{
    let names = downstream_spec(ds, ds[i].name);
    let rest = children_items(ds, names, d + 1, (f - 1) as nat);
    lemma_concat_member(seq![(i, d)], rest, x);
    if seq![(i, d)].contains(x) {
        assert(seq![(i, d)][0] == x);
    } else {
        let k = lemma_children_member(ds, i, d, names, (f - 1) as nat, x);
    }
}

/// An item under the children of `p` is a branch whose chain passes one of
/// them, and then `p`.
proof fn lemma_children_member(
    ds: Seq<EntryView>,
    p: int,
    dp: nat,
    names: Seq<Seq<char>>,
    f: nat,
    x: (int, nat),
) -> (k: int)
    requires
        names_unique(ds),
        0 <= p < ds.len(),
        has_depth(ds, p, dp),
        forall|t: int| 0 <= t < names.len() ==> downstream_spec(ds, ds[p].name).contains(#[trigger] names[t]),
        children_items(ds, names, dp + 1, f).contains(x),
    ensures
        0 <= k < names.len(),
        0 <= x.0 < ds.len(),
        x.1 >= dp + 1,
        has_depth(ds, x.0, x.1),
        chain_node(ds, x.0, (x.1 - dp - 1) as nat) == index_of(ds, names[k]),
        chain_node(ds, x.0, (x.1 - dp) as nat) == p,
    decreases f, 1nat, names.len(),
{
    let prev = children_items(ds, names.drop_last(), dp + 1, f);
    let m = names.last();
    let tail = if has_name(ds, m) {
        tree_items(ds, index_of(ds, m), dp + 1, f)
    } else {
        Seq::empty()
    };
    lemma_concat_member(prev, tail, x);
    if prev.contains(x) {
        assert forall|t: int| 0 <= t < names.drop_last().len() implies downstream_spec(ds, ds[p].name).contains(#[trigger] names.drop_last()[t]) by {
            assert(names.drop_last()[t] == names[t]);
        }
        let k = lemma_children_member(ds, p, dp, names.drop_last(), f, x);
        assert(names.drop_last()[k] == names[k]);
        k
    } else {
        let k = names.len() - 1;
        assert(names[k] == m);
        lemma_child(ds, p, m);
        let c = index_of(ds, m);
        lemma_depth_step(ds, c, p, dp);
        lemma_tree_member(ds, c, dp + 1, f, x);
        let t = (x.1 - dp) as nat;
        assert(t - 1 == x.1 - dp - 1);
        assert(chain_node(ds, x.0, t) == index_of(ds, ds[chain_node(ds, x.0, (t - 1) as nat)].upstream->Some_0));
        lemma_index_of(ds, p);
        k
    }
}

/// No branch appears twice among the items.
pub open spec fn distinct_nodes(items: Seq<(int, nat)>) -> bool {
    forall|a: int, b: int| 0 <= a < b < items.len() ==> items[a].0 != items[b].0
}

proof fn lemma_distinct_concat(a: Seq<(int, nat)>, b: Seq<(int, nat)>)
    requires
        distinct_nodes(a),
        distinct_nodes(b),
        forall|x: (int, nat), y: (int, nat)| a.contains(x) && b.contains(y) ==> x.0 != y.0,
    ensures
        distinct_nodes(a + b),
{
    let c = a + b;
    assert forall|i: int, j: int| 0 <= i < j < c.len() implies c[i].0 != c[j].0 by {
        if j < a.len() {
            assert(c[i] == a[i] && c[j] == a[j]);
        } else if i >= a.len() {
            assert(c[i] == b[i - a.len()] && c[j] == b[j - a.len()]);
        } else {
            assert(c[i] == a[i] && c[j] == b[j - a.len()]);
            assert(a.contains(c[i]) && b.contains(c[j]));
        }
    }
}

proof fn lemma_tree_distinct(ds: Seq<EntryView>, i: int, d: nat, f: nat)
    requires
        names_unique(ds),
        0 <= i < ds.len(),
        has_depth(ds, i, d),
    ensures
        distinct_nodes(tree_items(ds, i, d, f)),
    decreases f, 0nat, 0nat,
{
    if f > 0 {
        let names = downstream_spec(ds, ds[i].name);
        lemma_downstream_distinct(ds, ds[i].name);
        lemma_children_distinct(ds, i, d, names, (f - 1) as nat);
        let rest = children_items(ds, names, d + 1, (f - 1) as nat);
        assert forall|x: (int, nat), y: (int, nat)| seq![(i, d)].contains(x) && rest.contains(y) implies x.0 != y.0 by {
            assert(seq![(i, d)][0] == (i, d));
            assert(x == (i, d));
            let k = lemma_children_member(ds, i, d, names, (f - 1) as nat, y);
            if y.0 == i {
                lemma_depth_unique(ds, i, d, y.1);
            }
        }
        lemma_distinct_concat(seq![(i, d)], rest);
    }
}

proof fn lemma_children_distinct(
    ds: Seq<EntryView>,
    p: int,
    dp: nat,
    names: Seq<Seq<char>>,
    f: nat,
)
    requires
        names_unique(ds),
        0 <= p < ds.len(),
        has_depth(ds, p, dp),
        names.no_duplicates(),
        forall|t: int| 0 <= t < names.len() ==> downstream_spec(ds, ds[p].name).contains(#[trigger] names[t]),
    ensures
        distinct_nodes(children_items(ds, names, dp + 1, f)),
    decreases f, 1nat, names.len(),
{
    if names.len() > 0 {
        let front = names.drop_last();
        assert forall|t: int| 0 <= t < front.len() implies downstream_spec(ds, ds[p].name).contains(#[trigger] front[t]) by {
            assert(front[t] == names[t]);
        }
        assert(front.no_duplicates()) by {
            assert forall|a: int, b: int| 0 <= a < front.len() && 0 <= b < front.len() && a != b implies front[a] != front[b] by {
                assert(front[a] == names[a] && front[b] == names[b]);
            }
        }
        lemma_children_distinct(ds, p, dp, front, f);
        let prev = children_items(ds, front, dp + 1, f);
        let m = names.last();
        assert(names[names.len() - 1] == m);
        if has_name(ds, m) {
            lemma_child(ds, p, m);
            let c = index_of(ds, m);
            lemma_depth_step(ds, c, p, dp);
            lemma_tree_distinct(ds, c, dp + 1, f);
            let tail = tree_items(ds, c, dp + 1, f);
            assert forall|x: (int, nat), y: (int, nat)| prev.contains(x) && tail.contains(y) implies x.0 != y.0 by {
                let k = lemma_children_member(ds, p, dp, front, f, x);
                lemma_tree_member(ds, c, dp + 1, f, y);
                if x.0 == y.0 {
                    lemma_depth_unique(ds, x.0, x.1, y.1);
                    assert(index_of(ds, front[k]) == c);
                    lemma_child(ds, p, front[k]);
                    assert(front[k] == names[k]);
                    assert(names[k] == m);
                }
            }
            lemma_distinct_concat(prev, tail);
        } else {
            assert(prev + Seq::<(int, nat)>::empty() =~= prev);
        }
    }
}

proof fn lemma_children_contains(
    ds: Seq<EntryView>,
    names: Seq<Seq<char>>,
    d: nat,
    f: nat,
    m: Seq<char>,
    x: (int, nat),
)
    requires
        names.contains(m),
        has_name(ds, m),
        tree_items(ds, index_of(ds, m), d, f).contains(x),
    ensures
        children_items(ds, names, d, f).contains(x),
    decreases names.len(),
{
    let front = names.drop_last();
    let prev = children_items(ds, front, d, f);
    let tail = if has_name(ds, names.last()) {
        tree_items(ds, index_of(ds, names.last()), d, f)
    } else {
        Seq::empty()
    };
    if names.last() == m {
        lemma_concat_contains(prev, tail, x);
    } else {
        let k = choose|k: int| 0 <= k < names.len() && names[k] == m;
        assert(k < names.len() - 1);
        assert(front[k] == m);
        lemma_children_contains(ds, front, d, f, m, x);
        lemma_concat_contains(prev, tail, x);
    }
}

/// A branch whose chain passes `i`, with fuel to reach it, is an item of the
/// subtree at `i`.
proof fn lemma_tree_covers(ds: Seq<EntryView>, i: int, d: nat, f: nat, j: int, e: nat)
    requires
        names_unique(ds),
        0 <= i < ds.len(),
        0 <= j < ds.len(),
        has_depth(ds, i, d),
        has_depth(ds, j, e),
        d <= e,
        chain_node(ds, j, (e - d) as nat) == i,
        f > e - d,
    ensures
        tree_items(ds, i, d, f).contains((j, e)),
    decreases e - d,
{
    let names = downstream_spec(ds, ds[i].name);
    let rest = children_items(ds, names, d + 1, (f - 1) as nat);
    if e == d {
        assert(tree_items(ds, i, d, f)[0] == (i, d));
    } else {
        let t = (e - d - 1) as nat;
        lemma_chain_node(ds, j, e, t);
        let c = chain_node(ds, j, t);
        assert((e - t) as nat == d + 1);
        assert(has_depth(ds, c, d + 1));
        assert(!crate::graph::is_root(ds, c));
        let u = ds[c].upstream->Some_0;
        assert(chain_node(ds, j, (e - d) as nat) == index_of(ds, u));
        assert(ds[i].name == u);
        assert(ds[c].upstream == Some(ds[i].name));
        lemma_downstream_members(ds, ds[i].name, ds[c].name);
        lemma_index_of(ds, c);
        lemma_tree_covers(ds, c, d + 1, (f - 1) as nat, j, e);
        assert(names.contains(ds[c].name));
        lemma_children_contains(ds, names, d + 1, (f - 1) as nat, ds[c].name, (j, e));
        lemma_concat_contains(seq![(i, d)], rest, (j, e));
    }
}

proof fn lemma_forest_member(ds: Seq<EntryView>, roots: Seq<usize>, f: nat, x: (int, nat)) -> (k: int)
    requires
        names_unique(ds),
        forall|t: int| 0 <= t < roots.len() ==> #[trigger] roots[t] < ds.len() && has_depth(ds, roots[t] as int, 0),
        forest_items(ds, roots, f).contains(x),
    ensures
        0 <= k < roots.len(),
        0 <= x.0 < ds.len(),
        has_depth(ds, x.0, x.1),
        chain_node(ds, x.0, x.1) == roots[k] as int,
    decreases roots.len(),
{
    let front = roots.drop_last();
    let r = roots.last();
    assert(roots[roots.len() - 1] == r);
    lemma_concat_member(forest_items(ds, front, f), tree_items(ds, r as int, 0, f), x);
    if forest_items(ds, front, f).contains(x) {
        assert forall|t: int| 0 <= t < front.len() implies #[trigger] front[t] < ds.len() && has_depth(ds, front[t] as int, 0) by {
            assert(front[t] == roots[t]);
        }
        let k = lemma_forest_member(ds, front, f, x);
        assert(front[k] == roots[k]);
        k
    } else {
        lemma_tree_member(ds, r as int, 0, f, x);
        assert((x.1 - 0) as nat == x.1);
        roots.len() - 1
    }
}

proof fn lemma_forest_distinct(ds: Seq<EntryView>, roots: Seq<usize>, f: nat)
    requires
        names_unique(ds),
        roots.no_duplicates(),
        forall|t: int| 0 <= t < roots.len() ==> #[trigger] roots[t] < ds.len() && has_depth(ds, roots[t] as int, 0),
    ensures
        distinct_nodes(forest_items(ds, roots, f)),
    decreases roots.len(),
{
    if roots.len() > 0 {
        let front = roots.drop_last();
        let r = roots.last();
        assert(roots[roots.len() - 1] == r);
        assert forall|t: int| 0 <= t < front.len() implies #[trigger] front[t] < ds.len() && has_depth(ds, front[t] as int, 0) by {
            assert(front[t] == roots[t]);
        }
        assert(front.no_duplicates()) by {
            assert forall|a: int, b: int| 0 <= a < front.len() && 0 <= b < front.len() && a != b implies front[a] != front[b] by {
                assert(front[a] == roots[a] && front[b] == roots[b]);
            }
        }
        lemma_forest_distinct(ds, front, f);
        lemma_tree_distinct(ds, r as int, 0, f);
        let prev = forest_items(ds, front, f);
        let tail = tree_items(ds, r as int, 0, f);
        assert forall|x: (int, nat), y: (int, nat)| prev.contains(x) && tail.contains(y) implies x.0 != y.0 by {
            let k = lemma_forest_member(ds, front, f, x);
            lemma_tree_member(ds, r as int, 0, f, y);
            assert((y.1 - 0) as nat == y.1);
            if x.0 == y.0 {
                lemma_depth_unique(ds, x.0, x.1, y.1);
                assert(front[k] == roots[k]);
            }
        }
        lemma_distinct_concat(prev, tail);
    }
}

proof fn lemma_forest_contains(ds: Seq<EntryView>, roots: Seq<usize>, f: nat, k: int, x: (int, nat))
    requires
        0 <= k < roots.len(),
        tree_items(ds, roots[k] as int, 0, f).contains(x),
    ensures
        forest_items(ds, roots, f).contains(x),
    decreases roots.len(),
{
    let front = roots.drop_last();
    let prev = forest_items(ds, front, f);
    let tail = tree_items(ds, roots.last() as int, 0, f);
    if k == roots.len() - 1 {
        lemma_concat_contains(prev, tail, x);
    } else {
        assert(front[k] == roots[k]);
        lemma_forest_contains(ds, front, f, k, x);
        lemma_concat_contains(prev, tail, x);
    }
}

/// Whether branch `j` gets an upstream row: its upstream names a remote ref
/// or is no branch of the listing.
pub open spec fn needs_upstream_row(ds: Seq<EntryView>, j: int) -> bool {
    match ds[j].upstream {
        None => false,
        Some(u) => contains(u, origin_word()) || !has_name(ds, u),
    }
}

/// Some item names branch `j`.
pub open spec fn lists_node(items: Seq<(int, nat)>, j: int) -> bool {
    exists|a: int| 0 <= a < items.len() && items[a].0 == j
}

/// Branch `i` lies some number of steps above a root: its upstream chain
/// does not loop.
pub open spec fn reaches_root(ds: Seq<EntryView>, i: int) -> bool {
    exists|k: nat| has_depth(ds, i, k)
}

/// The tree shows every branch once: where no upstream chain loops, the
/// rows of `render` are, item after item, the upstream row (if the branch
/// needs one) and the own row of a sequence of (branch, depth) items that
/// names every branch exactly once, each at its depth.
pub proof fn lemma_render_shows_each_branch_once(g: BranchGraph)
    requires
        g.wf(),
        names_unique(g.entries()),
        forall|i: int| 0 <= i < g.entries().len() ==> #[trigger] reaches_root(g.entries(), i),
    ensures
        ({
            let ds = g.entries();
            let items = forest_items(ds, g.roots@, ds.len() as nat);
            &&& forest_rows(ds, g.roots@, ds.len() as nat) == rows_of_items(ds, items)
            &&& distinct_nodes(items)
            &&& forall|a: int| 0 <= a < items.len() ==> 0 <= #[trigger] items[a].0 < ds.len()
                && has_depth(ds, items[a].0, items[a].1)
            &&& forall|j: int| 0 <= j < ds.len() ==> #[trigger] lists_node(items, j)
            &&& forall|j: int, d: nat| #[trigger] item_rows(ds, j, d).len() == if needs_upstream_row(ds, j) {
                2int
            } else {
                1int
            }
        }),
{
    let ds = g.entries();
    let n = ds.len() as nat;
    let roots = g.roots@;
    let items = forest_items(ds, roots, n);
    lemma_forest_items_rows(ds, roots, n);
    assert forall|j: int, d: nat| #[trigger] item_rows(ds, j, d).len() == if needs_upstream_row(ds, j) {
        2int
    } else {
        1int
    } by {
        let p = phantom_rows(ds, j, d);
        assert(item_rows(ds, j, d).len() == p.len() + 1);
    }
    assert forall|t: int| 0 <= t < roots.len() implies #[trigger] roots[t] < ds.len() && has_depth(ds, roots[t] as int, 0) by {
    }
    lemma_forest_distinct(ds, roots, n);
    assert forall|a: int| 0 <= a < items.len() implies 0 <= #[trigger] items[a].0 < ds.len() && has_depth(ds, items[a].0, items[a].1) by {
        assert(items.contains(items[a]));
        let k = lemma_forest_member(ds, roots, n, items[a]);
    }
    assert forall|j: int| 0 <= j < ds.len() implies #[trigger] lists_node(items, j) by {
        assert(reaches_root(ds, j));
        let e = choose|k: nat| has_depth(ds, j, k);
        lemma_chain_node(ds, j, e, e);
        let r = chain_node(ds, j, e);
        assert((e - e) as nat == 0);
        assert(crate::graph::is_root(ds, r));
        assert(0 <= r < ds.len());
        assert(crate::graph::lists_index(roots, r));
        let k = choose|k: int| 0 <= k < roots.len() && roots[k] as int == r;
        lemma_depth_bound(ds, j, e);
        assert((e - 0) as nat == e);
        lemma_tree_covers(ds, r, 0, n, j, e);
        lemma_forest_contains(ds, roots, n, k, (j, e));
        let a = choose|a: int| 0 <= a < items.len() && items[a] == (j, e);
        assert(items[a].0 == j);
    }
}

/// How many of the items get an upstream row.
pub open spec fn upstream_rows_of_items(ds: Seq<EntryView>, items: Seq<(int, nat)>) -> nat
    decreases items.len(),
{
    if items.len() == 0 {
        0
    } else {
        upstream_rows_of_items(ds, items.drop_last()) + if needs_upstream_row(ds, items.last().0) {
            1nat
        } else {
            0nat
        }
    }
}

/// How many of the branches at positions below `k` get an upstream row.
pub open spec fn upstream_rows_below(ds: Seq<EntryView>, k: int) -> nat
    decreases k,
{
    if k <= 0 {
        0
    } else {
        upstream_rows_below(ds, k - 1) + if needs_upstream_row(ds, k - 1) {
            1nat
        } else {
            0nat
        }
    }
}

proof fn lemma_rows_of_items_len(ds: Seq<EntryView>, items: Seq<(int, nat)>)
    ensures
        rows_of_items(ds, items).len() == items.len() + upstream_rows_of_items(ds, items),
    decreases items.len(),
{
    if items.len() > 0 {
        lemma_rows_of_items_len(ds, items.drop_last());
        let x = items.last();
        assert(item_rows(ds, x.0, x.1).len() == phantom_rows(ds, x.0, x.1).len() + 1);
    }
}

proof fn lemma_upstream_rows_concat(ds: Seq<EntryView>, a: Seq<(int, nat)>, b: Seq<(int, nat)>)
    ensures
        upstream_rows_of_items(ds, a + b) == upstream_rows_of_items(ds, a)
            + upstream_rows_of_items(ds, b),
    decreases b.len(),
{
    if b.len() == 0 {
        assert(a + b =~= a);
    } else {
        assert((a + b).drop_last() =~= a + b.drop_last());
        assert((a + b).last() == b.last());
        lemma_upstream_rows_concat(ds, a, b.drop_last());
    }
}

/// Items that name each branch below `k` exactly once are `k` items, and as
/// many of them get an upstream row as branches below `k` do.
proof fn lemma_items_count(ds: Seq<EntryView>, items: Seq<(int, nat)>, k: int)
    requires
        k >= 0,
        distinct_nodes(items),
        forall|a: int| 0 <= a < items.len() ==> 0 <= #[trigger] items[a].0 < k,
        forall|j: int| 0 <= j < k ==> #[trigger] lists_node(items, j),
    ensures
        items.len() == k,
        upstream_rows_of_items(ds, items) == upstream_rows_below(ds, k),
    decreases k,
{
    if k == 0 {
        if items.len() > 0 {
            let x = items[0];
            assert(0 <= x.0 < k);
        }
    } else {
        assert(lists_node(items, k - 1));
        let p = choose|p: int| 0 <= p < items.len() && items[p].0 == k - 1;
        let front = items.subrange(0, p);
        let back = items.subrange(p + 1, items.len() as int);
        let rest = front + back;
        assert(items =~= front + seq![items[p]] + back);
        assert forall|a: int| 0 <= a < rest.len() implies rest[a] == items[if a < p { a } else { a + 1 }] by {}
        assert forall|a: int| 0 <= a < rest.len() implies 0 <= #[trigger] rest[a].0 < k - 1 by {
            let b = if a < p { a } else { a + 1 };
            assert(rest[a] == items[b]);
            assert(items[b].0 != items[p].0);
        }
        assert(distinct_nodes(rest)) by {
            assert forall|a: int, c: int| 0 <= a < c < rest.len() implies rest[a].0 != rest[c].0 by {
                let a1 = if a < p { a } else { a + 1 };
                let c1 = if c < p { c } else { c + 1 };
                assert(rest[a] == items[a1] && rest[c] == items[c1]);
            }
        }
        assert forall|j: int| 0 <= j < k - 1 implies #[trigger] lists_node(rest, j) by {
            assert(lists_node(items, j));
            let b = choose|b: int| 0 <= b < items.len() && items[b].0 == j;
            if b < p {
                assert(rest[b] == items[b]);
            } else {
                assert(b != p);
                assert(rest[b - 1] == items[b]);
            }
        }
        lemma_items_count(ds, rest, k - 1);
        lemma_upstream_rows_concat(ds, front, back);
        lemma_upstream_rows_concat(ds, front, seq![items[p]]);
        lemma_upstream_rows_concat(ds, front + seq![items[p]], back);
        assert(seq![items[p]].drop_last() =~= Seq::<(int, nat)>::empty());
        assert(seq![items[p]].last() == items[p]);
        assert(upstream_rows_of_items(ds, Seq::<(int, nat)>::empty()) == 0);
        assert(upstream_rows_of_items(ds, seq![items[p]]) == if needs_upstream_row(ds, k - 1) {
            1nat
        } else {
            0nat
        });
    }
}

/// The row count of the tree: where no upstream chain loops, `render` gives
/// one row per branch plus one per branch whose upstream is remote or
/// missing.
pub proof fn lemma_render_row_count(g: BranchGraph)
    requires
        g.wf(),
        names_unique(g.entries()),
        forall|i: int| 0 <= i < g.entries().len() ==> #[trigger] reaches_root(g.entries(), i),
    ensures
        forest_rows(g.entries(), g.roots@, g.entries().len() as nat).len() == g.entries().len()
            + upstream_rows_below(g.entries(), g.entries().len() as int),
{
    let ds = g.entries();
    let items = forest_items(ds, g.roots@, ds.len() as nat);
    lemma_render_shows_each_branch_once(g);
    lemma_rows_of_items_len(ds, items);
    lemma_items_count(ds, items, ds.len() as int);
}

/// One subtree shows each of its branches once: the rows of the subtree at
/// branch `i`, which lies at depth `d`, walked with the levels that `render`
/// leaves it, are item after item the rows of a sequence that names exactly
/// the branches whose upstream chain passes `i`, each once and at its depth.
pub proof fn lemma_subtree_shows_each_descendant_once(ds: Seq<EntryView>, i: int, d: nat)
    requires
        names_unique(ds),
        0 <= i < ds.len(),
        has_depth(ds, i, d),
    ensures
        ({
            let f = (ds.len() - d) as nat;
            let items = tree_items(ds, i, d, f);
            &&& tree_rows(ds, i, d, f) == rows_of_items(ds, items)
            &&& distinct_nodes(items)
            &&& forall|a: int| 0 <= a < items.len() ==> 0 <= #[trigger] items[a].0 < ds.len()
                && items[a].1 >= d && has_depth(ds, items[a].0, items[a].1)
                && chain_node(ds, items[a].0, (items[a].1 - d) as nat) == i
            &&& forall|j: int, e: nat| 0 <= j < ds.len() && d <= e && #[trigger] has_depth(ds, j, e)
                && chain_node(ds, j, (e - d) as nat) == i ==> lists_node(items, j)
        }),
{
    lemma_depth_bound(ds, i, d);
    let f = (ds.len() - d) as nat;
    let items = tree_items(ds, i, d, f);
    lemma_tree_items_rows(ds, i, d, f);
    lemma_tree_distinct(ds, i, d, f);
    assert forall|a: int| 0 <= a < items.len() implies 0 <= #[trigger] items[a].0 < ds.len()
        && items[a].1 >= d && has_depth(ds, items[a].0, items[a].1)
        && chain_node(ds, items[a].0, (items[a].1 - d) as nat) == i by {
        assert(items.contains(items[a]));
        lemma_tree_member(ds, i, d, f, items[a]);
    }
    assert forall|j: int, e: nat| 0 <= j < ds.len() && d <= e && #[trigger] has_depth(ds, j, e)
        && chain_node(ds, j, (e - d) as nat) == i implies lists_node(items, j) by {
        lemma_depth_bound(ds, j, e);
        lemma_tree_covers(ds, i, d, f, j, e);
        let a = choose|a: int| 0 <= a < items.len() && items[a] == (j, e);
        assert(items[a].0 == j);
    }
}

} // verus!
