//! The upstream graph of a listing: who tracks whom, and which branches are
//! roots.

use vstd::prelude::*;
use crate::entry::{BranchDescriptor, EntryView};

verus! {

/// Code-point lexicographic order on names, the order of `str`'s `<`.
pub open spec fn name_lt(a: Seq<char>, b: Seq<char>) -> bool
    decreases a.len(),
{
    if a.len() == 0 {
        b.len() > 0
    } else if b.len() == 0 {
        false
    } else if (a[0] as u32) < (b[0] as u32) {
        true
    } else if a[0] == b[0] {
        name_lt(a.drop_first(), b.drop_first())
    } else {
        false
    }
}

pub open spec fn name_le(a: Seq<char>, b: Seq<char>) -> bool {
    name_lt(a, b) || a == b
}

pub proof fn lemma_name_lt_total(a: Seq<char>, b: Seq<char>)
    ensures
        name_lt(a, b) || a == b || name_lt(b, a),
        !(name_lt(a, b) && name_lt(b, a)),
        !name_lt(a, a),
    decreases a.len(),
{
    if a.len() > 0 && b.len() > 0 {
        lemma_name_lt_total(a.drop_first(), b.drop_first());
        if a[0] == b[0] && a.drop_first() == b.drop_first() {
            assert(a =~= seq![a[0]] + a.drop_first());
            assert(b =~= seq![b[0]] + b.drop_first());
        }
        let c = (a[0] as u32);
        let d = (b[0] as u32);
        vstd::utf8::char_u32_cast(a[0], c);
        vstd::utf8::char_u32_cast(b[0], d);
    } else if a.len() == 0 && b.len() == 0 {
        assert(a =~= b);
    }
    if a.len() > 0 {
        lemma_name_lt_total(a.drop_first(), a.drop_first());
    }
}

pub proof fn lemma_name_lt_trans(a: Seq<char>, b: Seq<char>, c: Seq<char>)
    requires
        name_lt(a, b),
        name_lt(b, c),
    ensures
        name_lt(a, c),
    decreases a.len(),
{
    if a.len() > 0 && b.len() > 0 && c.len() > 0 && a[0] == b[0] && b[0] == c[0] {
        lemma_name_lt_trans(a.drop_first(), b.drop_first(), c.drop_first());
    }
}

/// `a < b` on names, executable.
pub fn name_less(a: &str, b: &str) -> (r: bool)
    ensures
        r == name_lt(a@, b@),
{
    let an = a.unicode_len();
    let bn = b.unicode_len();
    let mut k: usize = 0;
    assert(a@.skip(0) =~= a@);
    assert(b@.skip(0) =~= b@);
    while k < an && k < bn && a.get_char(k) == b.get_char(k)
        invariant
            an == a@.len(),
            bn == b@.len(),
            k <= an,
            k <= bn,
            name_lt(a@, b@) == name_lt(a@.skip(k as int), b@.skip(k as int)),
        decreases an - k,
    {
        proof {
            assert(a@.skip(k as int).drop_first() =~= a@.skip(k + 1));
            assert(b@.skip(k as int).drop_first() =~= b@.skip(k + 1));
        }
        k = k + 1;
    }
    if k == an {
        k < bn
    } else if k == bn {
        false
    } else {
        (a.get_char(k) as u32) < (b.get_char(k) as u32)
    }
}

/// Whether some descriptor of `ds` is named `name`.
pub open spec fn has_name(ds: Seq<EntryView>, name: Seq<char>) -> bool {
    exists|j: int| 0 <= j < ds.len() && ds[j].name == name
}

/// A root has no upstream, or one that is not a branch of the listing.
pub open spec fn is_root(ds: Seq<EntryView>, i: int) -> bool {
    match ds[i].upstream {
        None => true,
        Some(u) => !has_name(ds, u),
    }
}

/// The names of the branches that track `name`, in listing order.
pub open spec fn downstream_spec(ds: Seq<EntryView>, name: Seq<char>) -> Seq<Seq<char>>
    decreases ds.len(),
{
    if ds.len() == 0 {
        Seq::empty()
    } else {
        let prev = downstream_spec(ds.drop_last(), name);
        if ds.last().upstream == Some(name) {
            prev.push(ds.last().name)
        } else {
            prev
        }
    }
}

/// Some entry of `v` is the position `i`.
pub open spec fn lists_index(v: Seq<usize>, i: int) -> bool {
    exists|k: int| 0 <= k < v.len() && v[k] as int == i
}

/// The graph of one listing: its descriptors in listing order, the
/// downstream names of each, and the root positions ordered by name.
pub struct BranchGraph {
    pub descs: Vec<BranchDescriptor>,
    pub downstream: Vec<Vec<String>>,
    pub roots: Vec<usize>,
}

pub open spec fn names_view(v: Seq<String>) -> Seq<Seq<char>> {
    v.map_values(|s: String| s@)
}

impl BranchGraph {
    pub open spec fn entries(&self) -> Seq<EntryView> {
        self.descs@.map_values(|d: BranchDescriptor| d@)
    }

    /// Positions of the roots, each once, ordered by name.
    pub open spec fn roots_ok(&self) -> bool {
        let ds = self.entries();
        &&& forall|k: int| 0 <= k < self.roots@.len() ==> self.roots@[k] < ds.len()
            && is_root(ds, self.roots@[k] as int)
        &&& forall|i: int| 0 <= i < ds.len() && is_root(ds, i) ==> #[trigger] lists_index(self.roots@, i)
        &&& self.roots@.no_duplicates()
        &&& forall|a: int, b: int| 0 <= a < b < self.roots@.len() ==> name_le(
            ds[self.roots@[a] as int].name,
            ds[self.roots@[b] as int].name,
        )
    }

    pub open spec fn wf(&self) -> bool {
        let ds = self.entries();
        &&& self.downstream@.len() == ds.len()
        &&& forall|i: int| 0 <= i < ds.len() ==> names_view(self.downstream@[i]@)
            == downstream_spec(ds, ds[i].name)
        &&& self.roots_ok()
    }
}

/// Whether two names are equal, executable.
pub fn same_name(a: &str, b: &str) -> (r: bool)
    ensures
        r == (a@ == b@),
{
    proof {
        lemma_name_lt_total(a@, b@);
    }
    !name_less(a, b) && !name_less(b, a)
}

/// Whether `d` tracks the branch `name`.
fn tracks(d: &BranchDescriptor, name: &str) -> (r: bool)
    ensures
        r == (d@.upstream == Some(name@)),
{
    match &d.upstream {
        Some(u) => same_name(u.as_str(), name),
        None => false,
    }
}

/// The first position of a descriptor named `name`.
pub fn find_name(descs: &Vec<BranchDescriptor>, name: &str) -> (r: Option<usize>)
    ensures
        match r {
            Some(j) => j < descs@.len() && descs@[j as int].name@ == name@ && forall|k: int|
                0 <= k < j ==> descs@[k].name@ != name@,
            None => forall|k: int| 0 <= k < descs@.len() ==> descs@[k].name@ != name@,
        },
{
    let mut j: usize = 0;
    while j < descs.len()
        invariant
            j <= descs@.len(),
            forall|k: int| 0 <= k < j ==> descs@[k].name@ != name@,
        decreases descs@.len() - j,
    {
        if same_name(descs[j].name.as_str(), name) {
            return Some(j);
        }
        j = j + 1;
    }
    None
}

/// Whether `descs` has a branch named `name`.
pub fn has_name_exec(descs: &Vec<BranchDescriptor>, name: &str) -> (r: bool)
    ensures
        r == has_name(descs@.map_values(|d: BranchDescriptor| d@), name@),
{
    let ghost ds = descs@.map_values(|d: BranchDescriptor| d@);
    match find_name(descs, name) {
        Some(j) => {
            assert(ds[j as int].name == name@);
            true
        },
        None => {
            assert forall|k: int| 0 <= k < ds.len() implies ds[k].name != name@ by {
                assert(descs@[k].name@ != name@);
            }
            false
        },
    }
}

/// The names of the branches of `descs` that track `name`, in listing order.
fn collect_downstream(descs: &Vec<BranchDescriptor>, name: &str) -> (r: Vec<String>)
    ensures
        names_view(r@) == downstream_spec(descs@.map_values(|d: BranchDescriptor| d@), name@),
{
    let ghost ds = descs@.map_values(|d: BranchDescriptor| d@);
    let mut out: Vec<String> = Vec::new();
    let mut j: usize = 0;
    assert(ds.take(0) =~= Seq::<EntryView>::empty());
    while j < descs.len()
        invariant
            j <= descs@.len(),
            ds == descs@.map_values(|d: BranchDescriptor| d@),
            names_view(out@) == downstream_spec(ds.take(j as int), name@),
        decreases descs@.len() - j,
    {
        assert(ds.take(j + 1).drop_last() =~= ds.take(j as int));
        if tracks(&descs[j], name) {
            let nm = descs[j].name.clone();
            out.push(nm);
            assert(names_view(out@) =~= names_view(out@.drop_last()).push(nm@));
        }
        j = j + 1;
    }
    assert(ds.take(descs@.len() as int) =~= ds);
    out
}

/// Builds the graph of one listing.
pub fn build(descs: Vec<BranchDescriptor>) -> (g: BranchGraph)
    ensures
        g.wf(),
        g.descs@ == descs@,
{
    let ghost ds = descs@.map_values(|d: BranchDescriptor| d@);
    let n = descs.len();
    let mut downstream: Vec<Vec<String>> = Vec::new();
    let mut i: usize = 0;
    while i < n
        invariant
            n == descs@.len(),
            i <= n,
            ds == descs@.map_values(|d: BranchDescriptor| d@),
            downstream@.len() == i,
            forall|k: int| 0 <= k < i ==> names_view(downstream@[k]@) == downstream_spec(
                ds,
                ds[k].name,
            ),
        decreases n - i,
    {
        let down = collect_downstream(&descs, descs[i].name.as_str());
        downstream.push(down);
        i = i + 1;
    }
    let mut roots: Vec<usize> = Vec::new();
    let mut i: usize = 0;
    while i < n
        invariant
            n == descs@.len(),
            i <= n,
            ds == descs@.map_values(|d: BranchDescriptor| d@),
            forall|k: int| 0 <= k < roots@.len() ==> roots@[k] < i && is_root(ds, roots@[k] as int),
            forall|j: int| 0 <= j < i && is_root(ds, j) ==> #[trigger] lists_index(roots@, j),
            roots@.no_duplicates(),
            forall|a: int, b: int|
                0 <= a < b < roots@.len() ==> name_le(
                    ds[roots@[a] as int].name,
                    ds[roots@[b] as int].name,
                ),
        decreases n - i,
    {
        let root = match &descs[i].upstream {
            None => true,
            Some(u) => !has_name_exec(&descs, u.as_str()),
        };
        if root {
            let ghost x = ds[i as int].name;
            let mut p: usize = 0;
            while p < roots.len() && !name_less(
                descs[i].name.as_str(),
                descs[roots[p]].name.as_str(),
            )
                invariant
                    n == descs@.len(),
                    i < n,
                    p <= roots@.len(),
                    ds == descs@.map_values(|d: BranchDescriptor| d@),
                    x == ds[i as int].name,
                    forall|k: int| 0 <= k < roots@.len() ==> roots@[k] < i,
                    forall|k: int| 0 <= k < p ==> name_le(ds[roots@[k] as int].name, x),
                decreases roots@.len() - p,
            {
                proof {
                    lemma_name_lt_total(x, ds[roots@[p as int] as int].name);
                }
                p = p + 1;
            }
            let ghost old_roots = roots@;
            roots.insert(p, i);
            proof {
                assert forall|k: int| p < k < roots@.len() implies name_le(
                    x,
                    ds[roots@[k] as int].name,
                ) by {
                    let y = ds[old_roots[p as int] as int].name;
                    let z = ds[roots@[k] as int].name;
                    assert(roots@[k] == old_roots[k - 1]);
                    assert(name_lt(x, y));
                    if k - 1 > p {
                        assert(name_le(y, z));
                        if name_lt(y, z) {
                            lemma_name_lt_trans(x, y, z);
                        }
                    }
                }
                assert forall|a: int, b: int| 0 <= a < b < roots@.len() implies name_le(
                    ds[roots@[a] as int].name,
                    ds[roots@[b] as int].name,
                ) by {
                    if a < p && b > p {
                        let y = ds[roots@[a] as int].name;
                        let z = ds[roots@[b] as int].name;
                        assert(name_le(y, x));
                        assert(name_le(x, z));
                        if name_lt(y, x) && name_lt(x, z) {
                            lemma_name_lt_trans(y, x, z);
                        }
                    } else if a < p && b == p {
                    } else if a == p {
                    } else if b < p {
                        assert(roots@[a] == old_roots[a] && roots@[b] == old_roots[b]);
                    } else {
                        assert(roots@[a] == old_roots[a - 1] && roots@[b] == old_roots[b - 1]);
                    }
                }
                assert forall|j: int| 0 <= j <= i && is_root(ds, j) implies #[trigger] lists_index(
                    roots@,
                    j,
                ) by {
                    if j < i {
                        assert(lists_index(old_roots, j));
                        let k = choose|k: int| 0 <= k < old_roots.len() && old_roots[k] as int == j;
                        if k < p {
                            assert(roots@[k] == j);
                        } else {
                            assert(roots@[k + 1] == j);
                        }
                    } else {
                        assert(roots@[p as int] == i);
                    }
                }
                assert forall|a: int, b: int|
                    0 <= a < roots@.len() && 0 <= b < roots@.len() && a != b implies roots@[a]
                    != roots@[b] by {
                    if a != p && b != p {
                        let a0 = if a < p { a } else { a - 1 };
                        let b0 = if b < p { b } else { b - 1 };
                        assert(roots@[a] == old_roots[a0] && roots@[b] == old_roots[b0]);
                    }
                }
            }
        }
        i = i + 1;
    }
    let g = BranchGraph { descs, downstream, roots };
    assert(g.entries() == ds);
    g
}

/// No two descriptors share a name.
pub open spec fn names_unique(ds: Seq<EntryView>) -> bool {
    forall|a: int, b: int| 0 <= a < ds.len() && 0 <= b < ds.len() && ds[a].name == ds[b].name ==> a == b
}

/// The position of the descriptor named `name`.
pub open spec fn index_of(ds: Seq<EntryView>, name: Seq<char>) -> int {
    choose|j: int| 0 <= j < ds.len() && ds[j].name == name
}

/// Branch `i` lies `k` upstream steps above a root: its chain of upstreams
/// that are branches of the listing has length `k`.
pub open spec fn has_depth(ds: Seq<EntryView>, i: int, k: nat) -> bool
    decreases k,
{
    if k == 0 {
        is_root(ds, i)
    } else {
        !is_root(ds, i) && has_depth(ds, index_of(ds, ds[i].upstream->Some_0), (k - 1) as nat)
    }
}

/// Under unique names, a name of the listing points at its one position.
pub proof fn lemma_index_of(ds: Seq<EntryView>, j: int)
    requires
        names_unique(ds),
        0 <= j < ds.len(),
    ensures
        index_of(ds, ds[j].name) == j,
{
    let k = index_of(ds, ds[j].name);
    assert(0 <= k < ds.len() && ds[k].name == ds[j].name);
}

/// One step up the chain: a branch lies one step above its upstream.
pub proof fn lemma_depth_step(ds: Seq<EntryView>, i: int, j: int, d: nat)
    requires
        names_unique(ds),
        0 <= i < ds.len(),
        0 <= j < ds.len(),
        ds[i].upstream == Some(ds[j].name),
    ensures
        has_depth(ds, i, d + 1) == has_depth(ds, j, d),
{
    lemma_index_of(ds, j);
    assert(!is_root(ds, i));
}

/// Depth is a function of the branch.
pub proof fn lemma_depth_unique(ds: Seq<EntryView>, i: int, a: nat, b: nat)
    requires
        names_unique(ds),
        0 <= i < ds.len(),
        has_depth(ds, i, a),
        has_depth(ds, i, b),
    ensures
        a == b,
    decreases a,
{
    if a > 0 && b > 0 {
        let u = ds[i].upstream->Some_0;
        let j = choose|j: int| 0 <= j < ds.len() && ds[j].name == u;
        lemma_index_of(ds, j);
        lemma_depth_unique(ds, j, (a - 1) as nat, (b - 1) as nat);
    }
}

impl BranchGraph {
    /// The depth of branch `i`: how many upstream steps lead from it to a
    /// root. `None` where the chain does not reach a root within as many
    /// steps as there are branches, which only an upstream cycle causes.
    pub fn branch_depth(&self, i: usize) -> (r: Option<usize>)
        requires
            self.wf(),
            names_unique(self.entries()),
            i < self.descs@.len(),
        ensures
            match r {
                Some(k) => has_depth(self.entries(), i as int, k as nat),
                None => forall|k: nat| !has_depth(self.entries(), i as int, k),
            },
    {
        let ghost ds = self.entries();
        let n = self.descs.len();
        let mut cur: usize = i;
        let mut steps: usize = 0;
        while steps < n
            invariant
                ds == self.entries(),
                names_unique(ds),
                n == ds.len(),
                cur < n,
                steps <= n,
                forall|d: nat| #[trigger] has_depth(ds, i as int, (steps + d) as nat) == has_depth(ds, cur as int, d),
                forall|d: nat| d < steps ==> !#[trigger] has_depth(ds, i as int, d),
            decreases n - steps,
        {
            let next = match &self.descs[cur].upstream {
                None => None,
                Some(u) => find_name(&self.descs, u.as_str()),
            };
            match next {
                None => {
                    proof {
                        assert(has_depth(ds, i as int, (steps + 0) as nat) == has_depth(ds, cur as int, 0));
                        if let Some(u) = ds[cur as int].upstream {
                            assert forall|k: int| 0 <= k < ds.len() implies ds[k].name != u by {
                                assert(self.descs@[k].name@ != u);
                            }
                        }
                    }
                    return Some(steps);
                },
                Some(j) => {
                    proof {
                        assert(ds[j as int].name == self.descs@[j as int].name@);
                        assert(!is_root(ds, cur as int));
                        assert(has_depth(ds, i as int, (steps + 0) as nat) == has_depth(ds, cur as int, 0));
                        assert forall|d: nat| #[trigger] has_depth(ds, i as int, (steps + 1 + d) as nat) == has_depth(ds, j as int, d) by {
                            assert(has_depth(ds, i as int, (steps + (d + 1)) as nat) == has_depth(ds, cur as int, d + 1));
                            lemma_depth_step(ds, cur as int, j as int, d);
                        }
                    }
                    cur = j;
                    steps = steps + 1;
                },
            }
        }
        let at_root = match &self.descs[cur].upstream {
            None => true,
            Some(u) => !has_name_exec(&self.descs, u.as_str()),
        };
        proof {
            assert(has_depth(ds, i as int, (steps + 0) as nat) == has_depth(ds, cur as int, 0));
        }
        if at_root {
            Some(steps)
        } else {
            proof {
                assert forall|k: nat| !has_depth(ds, i as int, k) by {
                    if has_depth(ds, i as int, k) {
                        lemma_depth_bound(ds, i as int, k);
                    }
                }
            }
            None
        }
    }
}

/// The names of the roots of a listing.
pub open spec fn root_names(ds: Seq<EntryView>) -> Set<Seq<char>> {
    Set::new(|n: Seq<char>| exists|i: int| 0 <= i < ds.len() && is_root(ds, i) && ds[i].name == n)
}

/// The names of the branches that track `name`, as a set.
pub open spec fn downstream_names(ds: Seq<EntryView>, name: Seq<char>) -> Set<Seq<char>> {
    downstream_spec(ds, name).to_set()
}

pub proof fn lemma_downstream_members(ds: Seq<EntryView>, name: Seq<char>, m: Seq<char>)
    ensures
        downstream_spec(ds, name).contains(m) <==> exists|i: int|
            0 <= i < ds.len() && ds[i].upstream == Some(name) && ds[i].name == m,
    decreases ds.len(),
{
    if ds.len() > 0 {
        let prev = ds.drop_last();
        lemma_downstream_members(prev, name, m);
        if exists|i: int| 0 <= i < prev.len() && prev[i].upstream == Some(name) && prev[i].name == m {
            let i = choose|i: int| 0 <= i < prev.len() && prev[i].upstream == Some(name) && prev[i].name == m;
            assert(ds[i] == prev[i]);
        }
        if exists|i: int| 0 <= i < ds.len() && ds[i].upstream == Some(name) && ds[i].name == m {
            let i = choose|i: int| 0 <= i < ds.len() && ds[i].upstream == Some(name) && ds[i].name == m;
            if i < ds.len() - 1 {
                assert(prev[i] == ds[i]);
            } else {
                assert(downstream_spec(ds, name) == downstream_spec(prev, name).push(m));
                assert(downstream_spec(ds, name).last() == m);
            }
        }
        let prev_down = downstream_spec(prev, name);
        if ds.last().upstream == Some(name) {
            let all = prev_down.push(ds.last().name);
            if all.contains(m) {
                let k = choose|k: int| 0 <= k < all.len() && all[k] == m;
                if k < prev_down.len() {
                    assert(prev_down[k] == m);
                }
            }
            if prev_down.contains(m) {
                let k = choose|k: int| 0 <= k < prev_down.len() && prev_down[k] == m;
                assert(all[k] == m);
            }
        }
    }
}

proof fn lemma_has_name_by_set(d1: Seq<EntryView>, d2: Seq<EntryView>, u: Seq<char>)
    requires
        d1.to_set() == d2.to_set(),
    ensures
        has_name(d1, u) == has_name(d2, u),
{
    if has_name(d1, u) {
        let j = choose|j: int| 0 <= j < d1.len() && d1[j].name == u;
        assert(d1.to_set().contains(d1[j]));
        assert(d2.contains(d1[j]));
    }
    if has_name(d2, u) {
        let j = choose|j: int| 0 <= j < d2.len() && d2[j].name == u;
        assert(d2.to_set().contains(d2[j]));
        assert(d1.contains(d2[j]));
    }
}

proof fn lemma_root_names_sub(d1: Seq<EntryView>, d2: Seq<EntryView>, n: Seq<char>)
    requires
        d1.to_set() == d2.to_set(),
        root_names(d1).contains(n),
    ensures
        root_names(d2).contains(n),
{
    let i = choose|i: int| 0 <= i < d1.len() && is_root(d1, i) && d1[i].name == n;
    assert(d1.to_set().contains(d1[i]));
    assert(d2.contains(d1[i]));
    let j = choose|j: int| 0 <= j < d2.len() && d2[j] == d1[i];
    if let Some(u) = d1[i].upstream {
        lemma_has_name_by_set(d1, d2, u);
    }
    assert(is_root(d2, j));
}

proof fn lemma_downstream_sub(d1: Seq<EntryView>, d2: Seq<EntryView>, name: Seq<char>, m: Seq<char>)
    requires
        d1.to_set() == d2.to_set(),
        downstream_spec(d1, name).contains(m),
    ensures
        downstream_spec(d2, name).contains(m),
{
    lemma_downstream_members(d1, name, m);
    lemma_downstream_members(d2, name, m);
    let i = choose|i: int| 0 <= i < d1.len() && d1[i].upstream == Some(name) && d1[i].name == m;
    assert(d1.to_set().contains(d1[i]));
    assert(d2.contains(d1[i]));
    let j = choose|j: int| 0 <= j < d2.len() && d2[j] == d1[i];
    assert(d2[j].upstream == Some(name) && d2[j].name == m);
}

/// Building is order-independent: two listings that hold the same
/// descriptors, in any order, have the same root names and, for every name,
/// the same set of downstream names.
pub proof fn lemma_build_order_independent(d1: Seq<EntryView>, d2: Seq<EntryView>, name: Seq<char>)
    requires
        d1.to_set() == d2.to_set(),
    ensures
        root_names(d1) == root_names(d2),
        downstream_names(d1, name) == downstream_names(d2, name),
{
    assert forall|n: Seq<char>| root_names(d1).contains(n) <==> root_names(d2).contains(n) by {
        if root_names(d1).contains(n) {
            lemma_root_names_sub(d1, d2, n);
        }
        if root_names(d2).contains(n) {
            lemma_root_names_sub(d2, d1, n);
        }
    }
    assert(root_names(d1) =~= root_names(d2));
    assert forall|m: Seq<char>| downstream_names(d1, name).contains(m) <==> downstream_names(d2, name).contains(m) by {
        if downstream_spec(d1, name).contains(m) {
            lemma_downstream_sub(d1, d2, name, m);
        }
        if downstream_spec(d2, name).contains(m) {
            lemma_downstream_sub(d2, d1, name, m);
        }
    }
    assert(downstream_names(d1, name) =~= downstream_names(d2, name));
}

/// The branch `t` upstream steps above branch `i`.
pub open spec fn chain_node(ds: Seq<EntryView>, i: int, t: nat) -> int
    decreases t,
{
    if t == 0 {
        i
    } else {
        let c = chain_node(ds, i, (t - 1) as nat);
        index_of(ds, ds[c].upstream->Some_0)
    }
}

pub proof fn lemma_chain_node(ds: Seq<EntryView>, i: int, k: nat, t: nat)
    requires
        0 <= i < ds.len(),
        has_depth(ds, i, k),
        t <= k,
    ensures
        0 <= chain_node(ds, i, t) < ds.len(),
        has_depth(ds, chain_node(ds, i, t), (k - t) as nat),
    decreases t,
{
    if t > 0 {
        lemma_chain_node(ds, i, k, (t - 1) as nat);
        let c = chain_node(ds, i, (t - 1) as nat);
        assert(!is_root(ds, c));
        let u = ds[c].upstream->Some_0;
        assert(has_name(ds, u));
        assert(0 <= index_of(ds, u) < ds.len());
    }
}

/// The set of the first `t` nodes of the chain above `i`.
spec fn chain_set(ds: Seq<EntryView>, i: int, t: nat) -> Set<int>
    decreases t,
{
    if t == 0 {
        Set::empty()
    } else {
        chain_set(ds, i, (t - 1) as nat).insert(chain_node(ds, i, (t - 1) as nat))
    }
}

proof fn lemma_chain_set(ds: Seq<EntryView>, i: int, k: nat, t: nat)
    requires
        names_unique(ds),
        0 <= i < ds.len(),
        has_depth(ds, i, k),
        t <= k + 1,
    ensures
        chain_set(ds, i, t).finite(),
        chain_set(ds, i, t).len() == t,
        chain_set(ds, i, t).subset_of(vstd::set_lib::set_int_range(0, ds.len() as int)),
    decreases t,
{
    if t > 0 {
        let t1 = (t - 1) as nat;
        lemma_chain_set(ds, i, k, t1);
        lemma_chain_node(ds, i, k, t1);
        let c = chain_node(ds, i, t1);
        if chain_set(ds, i, t1).contains(c) {
            let a = lemma_chain_member(ds, i, t1, c);
            lemma_chain_node(ds, i, k, a);
            lemma_depth_unique(ds, c, (k - a) as nat, (k - t1) as nat);
        }
    }
}

proof fn lemma_chain_member(ds: Seq<EntryView>, i: int, t: nat, c: int) -> (a: nat)
    requires
        chain_set(ds, i, t).contains(c),
    ensures
        a < t,
        chain_node(ds, i, a) == c,
    decreases t,
{
    let t1 = (t - 1) as nat;
    if chain_node(ds, i, t1) == c {
        t1
    } else {
        lemma_chain_member(ds, i, t1, c)
    }
}

/// Under unique names, an upstream chain visits each branch at most once, so
/// a branch lies fewer steps above its root than there are branches.
pub proof fn lemma_depth_bound(ds: Seq<EntryView>, i: int, k: nat)
    requires
        names_unique(ds),
        0 <= i < ds.len(),
        has_depth(ds, i, k),
    ensures
        k < ds.len(),
{
    lemma_chain_set(ds, i, k, k + 1);
    vstd::set_lib::lemma_int_range(0, ds.len() as int);
    vstd::set_lib::lemma_len_subset(
        chain_set(ds, i, k + 1),
        vstd::set_lib::set_int_range(0, ds.len() as int),
    );
}

/// Depth follows the upstream chain: a root lies at depth 0, and a branch
/// whose upstream is the branch `j` lies one level below `j`. A branch has
/// at most one depth.
pub proof fn lemma_depth_law(ds: Seq<EntryView>, i: int, j: int, k: nat)
    requires
        names_unique(ds),
        0 <= i < ds.len(),
        0 <= j < ds.len(),
    ensures
        is_root(ds, i) ==> has_depth(ds, i, 0),
        ds[i].upstream == Some(ds[j].name) ==> (has_depth(ds, i, k + 1) <==> has_depth(ds, j, k)),
        forall|a: nat, b: nat| has_depth(ds, i, a) && has_depth(ds, i, b) ==> a == b,
{
    if ds[i].upstream == Some(ds[j].name) {
        lemma_depth_step(ds, i, j, k);
    }
    assert forall|a: nat, b: nat| has_depth(ds, i, a) && has_depth(ds, i, b) implies a == b by {
        lemma_depth_unique(ds, i, a, b);
    }
}

} // verus!
