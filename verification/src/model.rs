use vstd::prelude::*;
use vstd::set_lib::lemma_int_range;
use vstd::set_lib::lemma_len_subset;
use vstd::set_lib::set_int_range;

verus! {

/// The name of the synthetic pseudo-item whose dependency row records which
/// real items have already been installed.
pub open spec fn installed_name() -> Seq<char> {
    "installed"@
}

/// Traversal order: `Pre` emits an item before its dependencies, `Post` emits
/// it after them (dependencies-first, the default for installation).
pub enum TravelMode {
    Pre,
    Post,
}

/// The mathematical view of a dependency graph: the item names in storage
/// order, and one row per item holding the indices of the items it depends
/// on, in registration order. The last row belongs to the synthetic
/// "installed" item; an index in it means that item is already installed.
pub struct GraphModel {
    pub names: Seq<Seq<char>>,
    pub rows: Seq<Seq<int>>,
}

impl GraphModel {
    pub open spec fn n(self) -> int {
        self.names.len() as int
    }

    pub open spec fn row(self, i: int) -> Seq<int> {
        self.rows[i]
    }

    /// The indices recorded as installed: the dependency row of the synthetic
    /// last item.
    pub open spec fn installed_row(self) -> Seq<int> {
        self.rows[self.n() - 1]
    }

    pub open spec fn is_installed(self, j: int) -> bool {
        self.installed_row().contains(j)
    }

    /// Well-formedness: at least the synthetic item is present and is the
    /// last one, names are unique, and every row is a duplicate-free list of
    /// valid item indices.
    pub open spec fn wf(self) -> bool {
        &&& self.names.len() >= 1
        &&& self.rows.len() == self.names.len()
        &&& self.names[self.n() - 1] == installed_name()
        &&& forall|i: int, j: int|
            0 <= i < j < self.names.len() ==> self.names[i] != self.names[j]
        &&& forall|i: int, k: int|
            0 <= i < self.rows.len() && 0 <= k < self.rows[i].len() ==> 0 <= #[trigger] self.rows[i][k]
                < self.n()
        &&& forall|i: int| 0 <= i < self.rows.len() ==> (#[trigger] self.rows[i]).no_duplicates()
    }

    pub open spec fn has_name(self, name: Seq<char>) -> bool {
        has_idx(self.names, name)
    }

    /// The index of the item with the given name (unique when `wf`).
    pub open spec fn index_of(self, name: Seq<char>) -> int {
        name_index(self.names, name)
    }
}

/// Whether some entry of `names` is `d`.
pub open spec fn has_idx(names: Seq<Seq<char>>, d: Seq<char>) -> bool {
    exists|i: int| 0 <= i < names.len() && names[i] == d
}

/// The index of `d` in `names` (unique when `names` has no duplicates).
pub open spec fn name_index(names: Seq<Seq<char>>, d: Seq<char>) -> int {
    choose|i: int| 0 <= i < names.len() && names[i] == d
}

/// In a duplicate-free name list, resolution by name is exact.
pub proof fn lemma_name_index_unique(names: Seq<Seq<char>>, d: Seq<char>, i: int)
    requires
        forall|u: int, v: int| 0 <= u < v < names.len() ==> names[u] != names[v],
        0 <= i < names.len(),
        names[i] == d,
    ensures
        has_idx(names, d),
        name_index(names, d) == i,
{
    assert(has_idx(names, d));
    let j = name_index(names, d);
    if i < j {
        assert(names[i] != names[j]);
    } else if j < i {
        assert(names[j] != names[i]);
    }
}

/// A well-formed graph resolves a present name to exactly one index.
pub proof fn lemma_index_of_unique(m: GraphModel, name: Seq<char>, i: int)
    requires
        m.wf(),
        0 <= i < m.names.len(),
        m.names[i] == name,
    ensures
        m.has_name(name),
        m.index_of(name) == i,
{
    lemma_name_index_unique(m.names, name, i);
}

/// The outcome of one depth-first walk: either it completes, yielding the
/// items completed so far and the emission order, or it runs into a
/// dependency cycle.
pub enum DfsResult {
    Done { done: Set<int>, order: Seq<int> },
    Cycle,
}

/// One step of the depth-first walk, at item `i`. `p` is the set of items on
/// the current recursion path (discovered, not yet backtraced); `b` is the
/// set of items already backtraced. An item that is backtraced or installed
/// is skipped outright; meeting an item on the current path again means a
/// cycle; otherwise all its dependencies are walked first and the item is
/// emitted before (`Pre`) or after (`Post`) them.
pub open spec fn dfs_node(m: GraphModel, i: int, p: Set<int>, b: Set<int>, mode: TravelMode) -> DfsResult
    decreases m.n() - p.len(), 0int,
        when m.wf() && 0 <= i < m.n() && p.finite() && p.subset_of(set_int_range(0, m.n()))
{
    if b.contains(i) || m.is_installed(i) {
        DfsResult::Done { done: b, order: Seq::empty() }
    } else if p.contains(i) {
        DfsResult::Cycle
    } else {
        proof {
            lemma_int_range(0, m.n());
            assert(p.insert(i).subset_of(set_int_range(0, m.n())));
            lemma_len_subset(p.insert(i), set_int_range(0, m.n()));
        }
        match dfs_list(m, m.row(i), 0, p.insert(i), b, mode) {
            DfsResult::Cycle => DfsResult::Cycle,
            DfsResult::Done { done, order } => DfsResult::Done {
                done: done.insert(i),
                order: (match mode {
                    TravelMode::Pre => seq![i] + order,
                    TravelMode::Post => order.push(i),
                }),
            },
        }
    }
}

/// Walks the dependencies `l[k..]` in order, threading the backtraced set
/// through, and concatenating the emissions.
pub open spec fn dfs_list(
    m: GraphModel,
    l: Seq<int>,
    k: int,
    p: Set<int>,
    b: Set<int>,
    mode: TravelMode,
) -> DfsResult
    decreases m.n() - p.len(), l.len() - k + 1,
        when m.wf() && 0 <= k && p.finite() && p.subset_of(set_int_range(0, m.n())) && (forall|t: int|
            0 <= t < l.len() ==> 0 <= #[trigger] l[t] < m.n())
{
    if k >= l.len() {
        DfsResult::Done { done: b, order: Seq::empty() }
    } else {
        match dfs_node(m, l[k], p, b, mode) {
            DfsResult::Cycle => DfsResult::Cycle,
            DfsResult::Done { done: b2, order: o1 } => match dfs_list(m, l, k + 1, p, b2, mode) {
                DfsResult::Cycle => DfsResult::Cycle,
                DfsResult::Done { done: b3, order: o2 } => DfsResult::Done {
                    done: b3,
                    order: o1 + o2,
                },
            },
        }
    }
}

/// The item names that a sequence of raw names gives rise to: first
/// occurrences kept in order, later duplicates dropped, and the reserved
/// name of the synthetic installed item excluded.
pub open spec fn dedup_names(s: Seq<Seq<char>>) -> Seq<Seq<char>>
    decreases s.len(),
{
    if s.len() == 0 {
        Seq::empty()
    } else {
        let rest = dedup_names(s.drop_last());
        if rest.contains(s.last()) || s.last() == installed_name() {
            rest
        } else {
            rest.push(s.last())
        }
    }
}

/// What `dedup_names` keeps: exactly the non-reserved names of the input,
/// each once.
pub proof fn lemma_dedup_names(s: Seq<Seq<char>>)
    ensures
        dedup_names(s).no_duplicates(),
        forall|x: Seq<char>| #[trigger]
            dedup_names(s).contains(x) <==> (s.contains(x) && x != installed_name()),
    decreases s.len(),
{
    if s.len() > 0 {
        lemma_dedup_names(s.drop_last());
        assert forall|x: Seq<char>| s.contains(x) && x != installed_name() implies #[trigger]
            dedup_names(s).contains(x) by {
            let rest = dedup_names(s.drop_last());
            let t = choose|t: int| 0 <= t < s.len() && s[t] == x;
            if t < s.len() - 1 {
                assert(s.drop_last().contains(x)) by {
                    assert(s.drop_last()[t] == x);
                }
            }
            if rest.contains(x) {
                if !rest.contains(s.last()) && s.last() != installed_name() {
                    let u = choose|u: int| 0 <= u < rest.len() && rest[u] == x;
                    assert(dedup_names(s)[u] == x);
                }
            } else {
                assert(x == s.last());
                assert(dedup_names(s) == rest.push(x));
                assert(dedup_names(s)[rest.len() as int] == x);
            }
        }
        assert forall|x: Seq<char>| #[trigger] dedup_names(s).contains(x) implies s.contains(x)
            && x != installed_name() by {
            if dedup_names(s.drop_last()).contains(x) {
                let t = choose|t: int| 0 <= t < s.drop_last().len() && s.drop_last()[t] == x;
                assert(s[t] == x);
            } else {
                assert(x == s.last());
                assert(s[s.len() - 1] == x);
            }
        }
    }
}

/// Resolves a list of dependency names against the item names. Each listed
/// name that matches an item contributes that item's index, in first-seen
/// order; a name matching no item is silently dropped, and a repeated index
/// contributes nothing further.
pub open spec fn resolve_row(deps: Seq<Seq<char>>, names: Seq<Seq<char>>) -> Seq<int>
    decreases deps.len(),
{
    if deps.len() == 0 {
        Seq::empty()
    } else {
        let rest = resolve_row(deps.drop_last(), names);
        if has_idx(names, deps.last()) {
            let j = name_index(names, deps.last());
            if rest.contains(j) {
                rest
            } else {
                rest.push(j)
            }
        } else {
            rest
        }
    }
}

/// A resolved row is a duplicate-free list of valid indices.
pub proof fn lemma_resolve_row_wf(deps: Seq<Seq<char>>, names: Seq<Seq<char>>)
    ensures
        resolve_row(deps, names).no_duplicates(),
        forall|t: int|
            0 <= t < resolve_row(deps, names).len() ==> 0 <= #[trigger] resolve_row(deps, names)[t]
                < names.len(),
    decreases deps.len(),
{
    if deps.len() > 0 {
        lemma_resolve_row_wf(deps.drop_last(), names);
        let rest = resolve_row(deps.drop_last(), names);
        if has_idx(names, deps.last()) && !rest.contains(name_index(names, deps.last())) {
            let j = name_index(names, deps.last());
            assert(0 <= j < names.len());
            assert forall|u: int, v: int|
                0 <= u < v < rest.push(j).len() implies rest.push(j)[u] != rest.push(j)[v] by {
                if v < rest.len() {
                    assert(rest[u] != rest[v]);
                } else {
                    assert(rest.push(j)[v] == j);
                    assert(rest.contains(rest[u])) by {
                        assert(rest[u] == rest[u]);
                    }
                }
            }
        }
    }
}

/// The keys of a list of name/dependency pairs, in order.
pub open spec fn key_seq(ps: Seq<(Seq<char>, Seq<Seq<char>>)>) -> Seq<Seq<char>> {
    ps.map_values(|p: (Seq<char>, Seq<Seq<char>>)| p.0)
}

/// The dependency list that the pairs give for key `k`: the value of the
/// first pair carrying it, or the empty list when none does.
pub open spec fn row_src(ps: Seq<(Seq<char>, Seq<Seq<char>>)>, k: Seq<char>) -> Seq<Seq<char>>
    decreases ps.len(),
{
    if ps.len() == 0 {
        Seq::empty()
    } else if ps[0].0 == k {
        ps[0].1
    } else {
        row_src(ps.subrange(1, ps.len() as int), k)
    }
}

/// `row_src` picks the first pair that carries the key.
pub proof fn lemma_row_src_at(ps: Seq<(Seq<char>, Seq<Seq<char>>)>, k: Seq<char>, u: int)
    requires
        0 <= u < ps.len(),
        ps[u].0 == k,
        forall|v: int| 0 <= v < u ==> ps[v].0 != k,
    ensures
        row_src(ps, k) == ps[u].1,
    decreases u,
{
    if u > 0 {
        let tail = ps.subrange(1, ps.len() as int);
        assert(tail[u - 1] == ps[u]);
        assert forall|v: int| 0 <= v < u - 1 implies tail[v].0 != k by {
            assert(tail[v] == ps[v + 1]);
        }
        lemma_row_src_at(tail, k, u - 1);
    }
}

/// With no pair carrying the key, `row_src` is empty.
pub proof fn lemma_row_src_absent(ps: Seq<(Seq<char>, Seq<Seq<char>>)>, k: Seq<char>)
    requires
        forall|v: int| 0 <= v < ps.len() ==> ps[v].0 != k,
    ensures
        row_src(ps, k) == Seq::<Seq<char>>::empty(),
    decreases ps.len(),
{
    if ps.len() > 0 {
        let tail = ps.subrange(1, ps.len() as int);
        assert forall|v: int| 0 <= v < tail.len() implies tail[v].0 != k by {
            assert(tail[v] == ps[v + 1]);
        }
        lemma_row_src_absent(tail, k);
    }
}

/// The graph a list of name/dependency pairs constructs: one item per
/// distinct non-reserved key in first-seen order, the synthetic installed
/// item last, and each row resolved from the key's dependency list — for
/// the synthetic item, from a pair keyed with the reserved name, if any.
pub open spec fn construct_model(ps: Seq<(Seq<char>, Seq<Seq<char>>)>) -> GraphModel {
    let names = dedup_names(key_seq(ps)).push(installed_name());
    GraphModel {
        names,
        rows: Seq::new(names.len(), |i: int| resolve_row(row_src(ps, names[i]), names)),
    }
}

/// Whatever the input pairs, the constructed graph is well-formed.
pub proof fn lemma_construct_model_wf(ps: Seq<(Seq<char>, Seq<Seq<char>>)>)
    ensures
        construct_model(ps).wf(),
{
    let keys = dedup_names(key_seq(ps));
    let names = keys.push(installed_name());
    let m = construct_model(ps);
    lemma_dedup_names(key_seq(ps));
    assert forall|i: int, j: int| 0 <= i < j < names.len() implies names[i] != names[j] by {
        if j < names.len() - 1 {
            assert(keys.no_duplicates());
        } else {
            assert(names[j] == installed_name());
            assert(keys.contains(keys[i]));
        }
    }
    assert forall|i: int| 0 <= i < m.rows.len() implies (#[trigger] m.rows[i]).no_duplicates()
        && forall|t: int| 0 <= t < m.rows[i].len() ==> 0 <= #[trigger] m.rows[i][t]
        < m.n() by {
        lemma_resolve_row_wf(row_src(ps, names[i]), names);
    }
}

/// The names that a row of item indices points at, in row order.
pub open spec fn names_of(row: Seq<int>, names: Seq<Seq<char>>) -> Seq<Seq<char>> {
    row.map_values(|j: int| names[j])
}

/// The name/dependency-list pairs that a graph exports: for every item, in
/// storage order, its name and the names its row points at, in row order.
pub open spec fn export_pairs(m: GraphModel) -> Seq<(Seq<char>, Seq<Seq<char>>)> {
    Seq::new(m.names.len(), |i: int| (m.names[i], names_of(m.rows[i], m.names)))
}

/// The mapping that a list of pairs with distinct keys denotes.
pub open spec fn map_of_pairs(ps: Seq<(Seq<char>, Seq<Seq<char>>)>) -> Map<Seq<char>, Seq<Seq<char>>> {
    Map::new(|k: Seq<char>| has_idx(key_seq(ps), k), |k: Seq<char>| row_src(ps, k))
}

/// The dependency list a mapping gives for `k`: its value there, or the
/// empty list when the key is absent.
pub open spec fn map_row(m: Map<Seq<char>, Seq<Seq<char>>>, k: Seq<char>) -> Seq<Seq<char>> {
    if m.contains_key(k) {
        m[k]
    } else {
        Seq::empty()
    }
}

/// How a graph relates to the mapping it was built from, independently of
/// the order the mapping's keys were walked in: the item names are the keys
/// together with the synthetic installed name, and every row resolves the
/// mapping's dependency list for that item's name.
pub open spec fn represents(g: GraphModel, m: Map<Seq<char>, Seq<Seq<char>>>) -> bool {
    &&& g.wf()
    &&& g.names.to_set() == m.dom().insert(installed_name())
    &&& forall|i: int|
        0 <= i < g.n() ==> g.rows[i] == resolve_row(map_row(m, g.names[i]), g.names)
}

/// When every pair carrying key `k` carries the same list, `row_src` yields
/// that list.
pub proof fn lemma_row_src_value(
    ps: Seq<(Seq<char>, Seq<Seq<char>>)>,
    k: Seq<char>,
    val: Seq<Seq<char>>,
)
    requires
        has_idx(key_seq(ps), k),
        forall|u: int| 0 <= u < ps.len() && ps[u].0 == k ==> ps[u].1 == val,
    ensures
        row_src(ps, k) == val,
    decreases ps.len(),
{
    let u = choose|u: int| 0 <= u < key_seq(ps).len() && key_seq(ps)[u] == k;
    assert(ps[u].0 == k);
    if ps[0].0 == k {
    } else {
        let tail = ps.subrange(1, ps.len() as int);
        assert(tail[u - 1] == ps[u]);
        assert(key_seq(tail)[u - 1] == k);
        assert(has_idx(key_seq(tail), k));
        assert forall|v: int| 0 <= v < tail.len() && tail[v].0 == k implies tail[v].1 == val by {
            assert(tail[v] == ps[v + 1]);
        }
        lemma_row_src_value(tail, k, val);
    }
}

/// A graph constructed from pairs that enumerate a mapping — every key
/// once, with its value — represents that mapping.
pub proof fn lemma_pairs_represent(
    ps: Seq<(Seq<char>, Seq<Seq<char>>)>,
    m: Map<Seq<char>, Seq<Seq<char>>>,
)
    requires
        forall|u: int, v: int| 0 <= u < v < ps.len() ==> ps[u].0 != ps[v].0,
        forall|u: int|
            0 <= u < ps.len() ==> m.contains_key(#[trigger] ps[u].0) && m[ps[u].0] == ps[u].1,
        forall|k: Seq<char>| #[trigger] m.contains_key(k) ==> has_idx(key_seq(ps), k),
    ensures
        represents(construct_model(ps), m),
{
    let g = construct_model(ps);
    let keys = key_seq(ps);
    let names = dedup_names(keys).push(installed_name());
    lemma_construct_model_wf(ps);
    lemma_dedup_names(keys);
    assert(g.names == names);
    assert(g.names.to_set() =~= m.dom().insert(installed_name())) by {
        assert forall|x: Seq<char>| #[trigger] g.names.to_set().contains(x) implies m.dom().insert(
            installed_name(),
        ).contains(x) by {
            if x != installed_name() {
                let i = choose|i: int| 0 <= i < names.len() && names[i] == x;
                assert(dedup_names(keys)[i] == x);
                assert(dedup_names(keys).contains(x));
                assert(keys.contains(x));
                let u = choose|u: int| 0 <= u < keys.len() && keys[u] == x;
                assert(ps[u].0 == x);
                assert(m.contains_key(x));
            }
        }
        assert forall|x: Seq<char>|
            m.dom().insert(installed_name()).contains(x) implies #[trigger] g.names.to_set().contains(
            x,
        ) by {
            if x == installed_name() {
                assert(names[names.len() - 1] == x);
                assert(names.contains(x));
            } else {
                assert(m.contains_key(x));
                assert(has_idx(keys, x));
                let u = choose|u: int| 0 <= u < keys.len() && keys[u] == x;
                assert(keys.contains(keys[u]));
                assert(dedup_names(keys).contains(x));
                let i = choose|i: int|
                    0 <= i < dedup_names(keys).len() && dedup_names(keys)[i] == x;
                assert(names[i] == x);
                assert(names.contains(x));
            }
        }
    }
    assert forall|i: int| 0 <= i < g.n() implies g.rows[i] == resolve_row(
        map_row(m, g.names[i]),
        g.names,
    ) by {
        let nm = g.names[i];
        if has_idx(keys, nm) {
            let u = choose|u: int| 0 <= u < keys.len() && keys[u] == nm;
            assert(ps[u].0 == nm);
            assert(m.contains_key(nm));
            assert forall|v: int| 0 <= v < ps.len() && ps[v].0 == nm implies ps[v].1 == m[nm] by {
                assert(m.contains_key(ps[v].0) && m[ps[v].0] == ps[v].1);
            }
            lemma_row_src_value(ps, nm, m[nm]);
            assert(map_row(m, nm) == m[nm]);
        } else {
            assert forall|v: int| 0 <= v < ps.len() implies ps[v].0 != nm by {
                if ps[v].0 == nm {
                    assert(keys[v] == nm);
                }
            }
            lemma_row_src_absent(ps, nm);
            if m.contains_key(nm) {
                assert(has_idx(keys, nm));
            }
            assert(map_row(m, nm) == Seq::<Seq<char>>::empty());
        }
    }
}

/// What a full traversal from the item named `root` yields, starting with a
/// clean slate: `None` on a dependency cycle, otherwise the emitted item
/// names in order. An unknown root yields an empty, successful walk.
pub open spec fn traversal_names(m: GraphModel, root: Seq<char>) -> Option<Seq<Seq<char>>> {
    if !m.has_name(root) {
        Some(Seq::empty())
    } else {
        match dfs_node(m, m.index_of(root), Set::empty(), Set::empty(), TravelMode::Post) {
            DfsResult::Done { done, order } => Some(names_of(order, m.names)),
            DfsResult::Cycle => None,
        }
    }
}

} // verus!
