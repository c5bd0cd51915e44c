//! Layout of the branch tree: one row per branch, in pre-order from the
//! roots, plus a row for each upstream that is remote or missing.

use vstd::prelude::*;
use crate::entry::{parse_branch_entry, parse_spec, BranchDescriptor, EntryView, ParseError, Status};
use crate::graph::{
    build, downstream_spec, find_name, same_name, has_name, has_name_exec, index_of, lemma_index_of,
    names_unique, names_view, BranchGraph,
};
use crate::text::{contains, contains_exec};

verus! {

/// What a row shows, which decides how it is drawn.
#[derive(Clone, Copy, Debug, PartialEq, Eq, Structural)]
pub enum RowKind {
    /// A local branch.
    Branch,
    /// The branch that is checked out.
    Current,
    /// An upstream that names a remote-tracking ref.
    RemoteUpstream,
    /// A local-style upstream that is not a branch of the listing.
    MissingUpstream,
}

/// One display row: the indented label, the tip hash, the ahead and behind
/// counts, and the commit message. Upstream rows carry only a label.
#[derive(Clone, Debug)]
pub struct Row {
    pub kind: RowKind,
    pub label: String,
    pub sha: String,
    pub ahead: Option<i32>,
    pub behind: Option<i32>,
    pub message: String,
}

pub struct RowView {
    pub kind: RowKind,
    pub label: Seq<char>,
    pub sha: Seq<char>,
    pub ahead: Option<i32>,
    pub behind: Option<i32>,
    pub message: Seq<char>,
}

impl View for Row {
    type V = RowView;

    open spec fn view(&self) -> RowView {
        RowView {
            kind: self.kind,
            label: self.label@,
            sha: self.sha@,
            ahead: self.ahead,
            behind: self.behind,
            message: self.message@,
        }
    }
}

pub open spec fn rows_view(v: Seq<Row>) -> Seq<RowView> {
    v.map_values(|r: Row| r@)
}

pub open spec fn spaces(k: nat) -> Seq<char> {
    Seq::new(k, |_i: int| ' ')
}

/// The indent of a row at depth `d`: two spaces a level and a connector.
pub open spec fn prefix_spec(d: nat) -> Seq<char> {
    if d == 0 {
        Seq::empty()
    } else {
        spaces(2 * d) + seq!['+', '-', '-', ' ']
    }
}

pub open spec fn origin_word() -> Seq<char> {
    seq!['o', 'r', 'i', 'g', 'i', 'n']
}

pub open spec fn missing_mark() -> Seq<char> {
    seq![' ', '[', 'm', 'i', 's', 's', 'i', 'n', 'g', ']']
}

pub open spec fn current_mark() -> Seq<char> {
    seq!['*', ' ']
}

/// An upstream row: a label alone.
pub open spec fn upstream_row(kind: RowKind, label: Seq<char>) -> RowView {
    RowView {
        kind,
        label,
        sha: Seq::empty(),
        ahead: None,
        behind: None,
        message: Seq::empty(),
    }
}

/// The row that stands for the upstream of branch `i`, one level above it:
/// for an upstream whose name holds `origin`, and for one that is no branch
/// of the listing.
pub open spec fn phantom_rows(ds: Seq<EntryView>, i: int, d: nat) -> Seq<RowView> {
    let p = if d == 0 {
        Seq::empty()
    } else {
        prefix_spec((d - 1) as nat)
    };
    match ds[i].upstream {
        None => Seq::empty(),
        Some(u) => if contains(u, origin_word()) {
            seq![upstream_row(RowKind::RemoteUpstream, p + u)]
        } else if !has_name(ds, u) {
            seq![upstream_row(RowKind::MissingUpstream, p + u + missing_mark())]
        } else {
            Seq::empty()
        },
    }
}

pub open spec fn ahead_of(s: Option<Status>) -> Option<i32> {
    match s {
        Some(st) => st.ahead,
        None => None,
    }
}

pub open spec fn behind_of(s: Option<Status>) -> Option<i32> {
    match s {
        Some(st) => st.behind,
        None => None,
    }
}

/// The row of branch `i` at depth `d`.
pub open spec fn own_row(ds: Seq<EntryView>, i: int, d: nat) -> RowView {
    let e = ds[i];
    RowView {
        kind: if e.current {
            RowKind::Current
        } else {
            RowKind::Branch
        },
        label: prefix_spec(d) + (if e.current {
            current_mark()
        } else {
            Seq::empty()
        }) + e.name,
        sha: e.sha,
        ahead: ahead_of(e.status),
        behind: behind_of(e.status),
        message: e.message,
    }
}

/// The rows of the subtree at branch `i`, which sits at depth `d`, in
/// pre-order; `fuel` bounds the levels walked.
pub open spec fn tree_rows(ds: Seq<EntryView>, i: int, d: nat, fuel: nat) -> Seq<RowView>
    decreases fuel, 0nat, 0nat,
{
    if fuel == 0 {
        Seq::empty()
    } else {
        phantom_rows(ds, i, d) + seq![own_row(ds, i, d)] + children_rows(
            ds,
            downstream_spec(ds, ds[i].name),
            d + 1,
            (fuel - 1) as nat,
        )
    }
}

/// The subtrees of the branches named in `names`, one after the other.
pub open spec fn children_rows(
    ds: Seq<EntryView>,
    names: Seq<Seq<char>>,
    d: nat,
    fuel: nat,
) -> Seq<RowView>
    decreases fuel, 1nat, names.len(),
{
    if names.len() == 0 {
        Seq::empty()
    } else {
        children_rows(ds, names.drop_last(), d, fuel) + if has_name(ds, names.last()) {
            tree_rows(ds, index_of(ds, names.last()), d, fuel)
        } else {
            Seq::empty()
        }
    }
}

/// The rows of the trees at `roots`, one after the other.
pub open spec fn forest_rows(ds: Seq<EntryView>, roots: Seq<usize>, fuel: nat) -> Seq<RowView>
    decreases roots.len(),
{
    if roots.len() == 0 {
        Seq::empty()
    } else {
        forest_rows(ds, roots.drop_last(), fuel) + tree_rows(ds, roots.last() as int, 0, fuel)
    }
}

/// The indent of a row at `depth`.
pub fn prefix_for_depth(depth: usize) -> (r: String)
    ensures
        r@ == prefix_spec(depth as nat),
{
    let mut s = String::new();
    if depth == 0 {
        assert(s@ =~= Seq::<char>::empty());
        return s;
    }
    proof {
        reveal_strlit("  ");
        reveal_strlit("+-- ");
        assert("  "@ =~= seq![' ', ' ']);
        assert("+-- "@ =~= seq!['+', '-', '-', ' ']);
    }
    let mut k: usize = 0;
    assert(s@ =~= spaces(0));
    while k < depth
        invariant
            k <= depth,
            s@ == spaces(2 * k as nat),
            "  "@ == seq![' ', ' '],
        decreases depth - k,
    {
        let ghost before = s@;
        s.append("  ");
        proof {
            let next = spaces(2 * (k + 1) as nat);
            assert(s@ == before + seq![' ', ' ']);
            assert(s@.len() == next.len());
            assert forall|t: int| 0 <= t < next.len() implies s@[t] == next[t] by {
                if t < before.len() {
                    assert(s@[t] == before[t]);
                }
            }
            assert(s@ =~= next);
        }
        k = k + 1;
    }
    s.append("+-- ");
    assert(s@ =~= prefix_spec(depth as nat));
    s
}

fn label_row(kind: RowKind, label: String) -> (r: Row)
    ensures
        r@ == upstream_row(kind, label@),
{
    let r = Row {
        kind,
        label,
        sha: String::new(),
        ahead: None,
        behind: None,
        message: String::new(),
    };
    assert(r@.sha =~= Seq::<char>::empty());
    r
}

impl BranchGraph {
    /// The upstream row of branch `i` at depth `d`, if it needs one.
    fn phantom_rows_exec(&self, i: usize, d: usize) -> (r: Vec<Row>)
        requires
            i < self.descs@.len(),
        ensures
            rows_view(r@) == phantom_rows(self.entries(), i as int, d as nat),
    {
        let ghost ds = self.entries();
        proof {
            reveal_strlit("origin");
            reveal_strlit(" [missing]");
            assert("origin"@ =~= origin_word());
            assert(" [missing]"@ =~= missing_mark());
        }
        match &self.descs[i].upstream {
            None => Vec::new(),
            Some(u) => {
                let p = if d == 0 {
                    let e = String::new();
                    assert(e@ =~= Seq::<char>::empty());
                    e
                } else {
                    prefix_for_depth(d - 1)
                };
                if contains_exec(u.as_str(), "origin") {
                    let row = label_row(RowKind::RemoteUpstream, p.concat(u.as_str()));
                    let v = vec![row];
                    assert(rows_view(v@) =~= phantom_rows(ds, i as int, d as nat));
                    v
                } else if !has_name_exec(&self.descs, u.as_str()) {
                    let label = p.concat(u.as_str()).concat(" [missing]");
                    let row = label_row(RowKind::MissingUpstream, label);
                    let v = vec![row];
                    assert(rows_view(v@) =~= phantom_rows(ds, i as int, d as nat));
                    v
                } else {
                    let v: Vec<Row> = Vec::new();
                    assert(rows_view(v@) =~= phantom_rows(ds, i as int, d as nat));
                    v
                }
            },
        }
    }

    /// The row of branch `i` at depth `d`.
    fn own_row_exec(&self, i: usize, d: usize) -> (r: Row)
        requires
            i < self.descs@.len(),
        ensures
            r@ == own_row(self.entries(), i as int, d as nat),
    {
        let desc = &self.descs[i];
        proof {
            reveal_strlit("* ");
            assert("* "@ =~= current_mark());
        }
        let mut label = prefix_for_depth(d);
        if desc.current {
            label.append("* ");
        }
        let ghost pre = label@;
        label.append(desc.name.as_str());
        let (ahead, behind) = match desc.status {
            Some(st) => (st.ahead, st.behind),
            None => (None, None),
        };
        let r = Row {
            kind: if desc.current {
                RowKind::Current
            } else {
                RowKind::Branch
            },
            label,
            sha: desc.sha.clone(),
            ahead,
            behind,
            message: desc.message.clone(),
        };
        proof {
            if !desc.current {
                assert(pre =~= prefix_spec(d as nat) + Seq::<char>::empty());
            }
        }
        r
    }

    /// The rows of the subtree at branch `i`, which sits at depth `d`.
    fn tree_rows_exec(&self, i: usize, d: usize, fuel: usize) -> (r: Vec<Row>)
        requires
            self.wf(),
            names_unique(self.entries()),
            i < self.descs@.len(),
            d + fuel <= self.descs@.len(),
        ensures
            rows_view(r@) == tree_rows(self.entries(), i as int, d as nat, fuel as nat),
        decreases fuel,
    {
        let ghost ds = self.entries();
        if fuel == 0 {
            let v: Vec<Row> = Vec::new();
            assert(rows_view(v@) =~= Seq::<RowView>::empty());
            return v;
        }
        let mut out = self.phantom_rows_exec(i, d);
        let own = self.own_row_exec(i, d);
        out.push(own);
        let ghost head = phantom_rows(ds, i as int, d as nat) + seq![own_row(ds, i as int, d as nat)];
        assert(rows_view(out@) =~= head);
        let n = self.descs.len();
        let names = &self.downstream[i];
        let ghost all = names_view(names@);
        assert(all == downstream_spec(ds, ds[i as int].name));
        let mut k: usize = 0;
        assert(all.take(0) =~= Seq::<Seq<char>>::empty());
        assert(head + Seq::<RowView>::empty() =~= head);
        while k < names.len()
            invariant
                self.wf(),
                names_unique(ds),
                ds == self.entries(),
                d + fuel <= ds.len(),
                fuel > 0,
                names@ == self.downstream@[i as int]@,
                n == ds.len(),
                all == names_view(names@),
                k <= names@.len(),
                rows_view(out@) == head + children_rows(
                    ds,
                    all.take(k as int),
                    (d + 1) as nat,
                    (fuel - 1) as nat,
                ),
            decreases names@.len() - k,
        {
            let ghost before = rows_view(out@);
            assert(all.take(k + 1).drop_last() =~= all.take(k as int));
            assert(all.take(k + 1).last() == names@[k as int]@);
            match find_name(&self.descs, names[k].as_str()) {
                Some(j) => {
                    proof {
                        assert(ds[j as int].name == names@[k as int]@);
                        lemma_index_of(ds, j as int);
                    }
                    let mut sub = self.tree_rows_exec(j, d + 1, fuel - 1);
                    let ghost subv = rows_view(sub@);
                    out.append(&mut sub);
                    assert(rows_view(out@) =~= before + subv);
                },
                None => {
                    proof {
                        assert forall|t: int| 0 <= t < ds.len() implies ds[t].name != names@[k as int]@ by {
                            assert(self.descs@[t].name@ != names@[k as int]@);
                        }
                    }
                    assert(before + Seq::<RowView>::empty() =~= before);
                },
            }
            k = k + 1;
        }
        assert(all.take(names@.len() as int) =~= all);
        out
    }

    /// The rows of the whole tree: each root in name order, its subtree in
    /// pre-order, children in listing order.
    pub fn render(&self) -> (r: Vec<Row>)
        requires
            self.wf(),
            names_unique(self.entries()),
        ensures
            rows_view(r@) == forest_rows(self.entries(), self.roots@, self.descs@.len() as nat),
    {
        let ghost ds = self.entries();
        let n = self.descs.len();
        let mut out: Vec<Row> = Vec::new();
        let mut k: usize = 0;
        assert(self.roots@.take(0) =~= Seq::<usize>::empty());
        assert(rows_view(out@) =~= Seq::<RowView>::empty());
        while k < self.roots.len()
            invariant
                self.wf(),
                names_unique(ds),
                ds == self.entries(),
                n == ds.len(),
                k <= self.roots@.len(),
                rows_view(out@) == forest_rows(ds, self.roots@.take(k as int), n as nat),
            decreases self.roots@.len() - k,
        {
            let ghost before = rows_view(out@);
            assert(self.roots@.take(k + 1).drop_last() =~= self.roots@.take(k as int));
            let mut sub = self.tree_rows_exec(self.roots[k], 0, n);
            let ghost subv = rows_view(sub@);
            out.append(&mut sub);
            assert(rows_view(out@) =~= before + subv);
            k = k + 1;
        }
        assert(self.roots@.take(self.roots@.len() as int) =~= self.roots@);
        out
    }
}

/// Why a listing could not be turned into a graph.
#[derive(Clone, Debug)]
pub enum TreeError {
    /// A line did not have the listing's shape.
    Parse(ParseError),
    /// Two lines describe branches of the same name.
    DuplicateName(String),
}

/// The descriptors of the lines, or the first line that does not parse.
pub fn parse_listing(lines: &Vec<String>) -> (r: Result<Vec<BranchDescriptor>, ParseError>)
    ensures
        match r {
            Ok(v) => v@.len() == lines@.len() && forall|k: int|
                0 <= k < lines@.len() ==> parse_spec(lines@[k]@) == Some(#[trigger] v@[k]@),
            Err(e) => exists|k: int|
                0 <= k < lines@.len() && parse_spec(lines@[k]@) is None && e.line@ == lines@[k]@
                    && forall|t: int| 0 <= t < k ==> parse_spec(lines@[t]@) is Some,
        },
{
    let mut out: Vec<BranchDescriptor> = Vec::new();
    let mut k: usize = 0;
    while k < lines.len()
        invariant
            k <= lines@.len(),
            out@.len() == k,
            forall|t: int| 0 <= t < k ==> parse_spec(lines@[t]@) == Some(#[trigger] out@[t]@),
        decreases lines@.len() - k,
    {
        match parse_branch_entry(lines[k].as_str()) {
            Ok(d) => {
                out.push(d);
            },
            Err(e) => {
                assert forall|t: int| 0 <= t < k implies parse_spec(lines@[t]@) is Some by {
                    assert(parse_spec(lines@[t]@) == Some(out@[t]@));
                }
                assert(parse_spec(lines@[k as int]@) is None && e.line@ == lines@[k as int]@);
                return Err(e);
            },
        }
        k = k + 1;
    }
    Ok(out)
}

/// Two positions whose descriptors share a name, if any.
pub fn duplicate_name(descs: &Vec<BranchDescriptor>) -> (r: Option<(usize, usize)>)
    ensures
        r is None <==> names_unique(descs@.map_values(|d: BranchDescriptor| d@)),
        r matches Some((a, b)) ==> a < b < descs@.len() && descs@[a as int].name@ == descs@[b as int].name@,
{
    let ghost ds = descs@.map_values(|d: BranchDescriptor| d@);
    let mut a: usize = 0;
    while a < descs.len()
        invariant
            a <= descs@.len(),
            ds == descs@.map_values(|d: BranchDescriptor| d@),
            forall|x: int, y: int| 0 <= x < a && x < y < ds.len() ==> ds[x].name != ds[y].name,
        decreases descs@.len() - a,
    {
        let mut b: usize = a + 1;
        while b < descs.len()
            invariant
                a < descs@.len(),
                a < b <= descs@.len(),
                ds == descs@.map_values(|d: BranchDescriptor| d@),
                forall|x: int, y: int| 0 <= x < a && x < y < ds.len() ==> ds[x].name != ds[y].name,
                forall|y: int| a < y < b ==> ds[a as int].name != ds[y].name,
            decreases descs@.len() - b,
        {
            if same_name(descs[a].name.as_str(), descs[b].name.as_str()) {
                assert(ds[a as int].name == ds[b as int].name);
                assert(!names_unique(ds));
                return Some((a, b));
            }
            b = b + 1;
        }
        a = a + 1;
    }
    proof {
        assert forall|x: int, y: int| 0 <= x < ds.len() && 0 <= y < ds.len() && ds[x].name == ds[y].name implies x == y by {
            if x < y {
            } else if y < x {
            }
        }
    }
    None
}

/// The graph of a `git branch -vv` listing, given as its lines. Fails on the
/// first line that does not parse, and on a listing with a repeated name.
pub fn branch_graph(lines: &Vec<String>) -> (r: Result<BranchGraph, TreeError>)
    ensures
        match r {
            Ok(g) => g.wf() && names_unique(g.entries()) && g.descs@.len() == lines@.len()
                && forall|k: int| 0 <= k < lines@.len() ==> parse_spec(lines@[k]@) == Some(
                #[trigger] g.entries()[k]),
            Err(TreeError::Parse(e)) => exists|k: int|
                0 <= k < lines@.len() && parse_spec(lines@[k]@) is None && e.line@ == lines@[k]@,
            Err(TreeError::DuplicateName(n)) => (forall|k: int|
                0 <= k < lines@.len() ==> parse_spec(lines@[k]@) is Some) && exists|a: int, b: int|
                0 <= a < b < lines@.len() && parse_spec(lines@[a]@)->Some_0.name == n@
                    && parse_spec(lines@[b]@)->Some_0.name == n@,
        },
{
    let descs = match parse_listing(lines) {
        Ok(v) => v,
        Err(e) => {
            return Err(TreeError::Parse(e));
        },
    };
    let ghost ds = descs@.map_values(|d: BranchDescriptor| d@);
    assert forall|k: int| 0 <= k < lines@.len() implies parse_spec(lines@[k]@) is Some by {
        assert(parse_spec(lines@[k]@) == Some(descs@[k]@));
    }
    match duplicate_name(&descs) {
        Some((a, b)) => {
            assert(parse_spec(lines@[a as int]@) == Some(descs@[a as int]@));
            assert(parse_spec(lines@[b as int]@) == Some(descs@[b as int]@));
            let name = descs[a].name.clone();
            Err(TreeError::DuplicateName(name))
        },
        None => {
            let g = build(descs);
            assert forall|k: int| 0 <= k < lines@.len() implies parse_spec(lines@[k]@) == Some(
                #[trigger] g.entries()[k]) by {
                assert(g.entries()[k] == ds[k]);
            }
            Ok(g)
        },
    }
}

} // verus!
