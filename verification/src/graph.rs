use vstd::prelude::*;
use vstd::set_lib::lemma_int_range;
use vstd::set_lib::lemma_len_subset;
use vstd::set_lib::set_int_range;

use crate::item::Item;
use crate::model::construct_model;
use crate::model::dedup_names;
use crate::model::export_pairs;
use crate::model::has_idx;
use crate::model::installed_name;
use crate::model::key_seq;
use crate::model::lemma_construct_model_wf;
use crate::model::lemma_dedup_names;
use crate::model::lemma_index_of_unique;
use crate::model::lemma_name_index_unique;
use crate::model::lemma_row_src_absent;
use crate::model::lemma_row_src_at;
use crate::model::names_of;
use crate::model::resolve_row;
use crate::model::row_src;
use crate::model::GraphModel;

verus! {

/// The dependency graph of the items to install. `items` holds one node per
/// item, the last one always being the synthetic "installed" pseudo-item;
/// `deps` holds, for each item, the indices of the items it depends on, in
/// registration order. The dependency row of the synthetic item records
/// which items are already installed.
pub struct ItemGraph {
    pub items: Vec<Item>,
    pub deps: Vec<Vec<usize>>,
    pub yaml_file_path: Option<String>,
}

impl ItemGraph {
    /// Number of items, the synthetic one included.
    pub open spec fn n(self) -> int {
        self.items@.len() as int
    }

    pub open spec fn names(self) -> Seq<Seq<char>> {
        self.items@.map_values(|it: Item| it.name@)
    }

    pub open spec fn rows(self) -> Seq<Seq<int>> {
        self.deps@.map_values(|row: Vec<usize>| row@.map_values(|u: usize| u as int))
    }

    /// The mathematical view of the graph: names and dependency rows.
    pub open spec fn model(self) -> GraphModel {
        GraphModel { names: self.names(), rows: self.rows() }
    }

    pub open spec fn wf(self) -> bool {
        &&& self.deps@.len() == self.items@.len()
        &&& self.model().wf()
    }

    /// Items discovered by the traversal under way but not yet backtraced:
    /// the current recursion path.
    pub open spec fn path_set(self) -> Set<int> {
        Set::new(|j: int| 0 <= j < self.n() && self.items@[j].discovered && !self.items@[j].backtraced)
    }

    /// Items already backtraced in the traversal under way.
    pub open spec fn done_set(self) -> Set<int> {
        Set::new(|j: int| 0 <= j < self.n() && self.items@[j].backtraced)
    }

    /// Items not yet discovered; shrinks strictly at every recursion step of
    /// the traversal, which bounds its depth.
    pub open spec fn undiscovered(self) -> Set<int> {
        Set::new(|j: int| 0 <= j < self.n() && !self.items@[j].discovered)
    }
}

/// Every set of item indices is a finite subset of the index range.
pub proof fn lemma_bounded_set_finite(s: Set<int>, n: int)
    requires
        n >= 0,
        forall|j: int| #[trigger] s.contains(j) ==> 0 <= j < n,
    ensures
        s.finite(),
        s.len() <= n,
        s.subset_of(set_int_range(0, n)),
{
    lemma_int_range(0, n);
    assert(s.subset_of(set_int_range(0, n)));
    lemma_len_subset(s, set_int_range(0, n));
}

/// String comparison with a contract over the character views.
pub fn string_eq_str(a: &String, b: &str) -> (r: bool)
    ensures
        r == (a@ == b@),
{
    a.eq(&b.to_owned())
}

/// Whether a dependency row, read as item indices, holds `x`.
pub(crate) fn row_contains(row: &Vec<usize>, x: usize) -> (r: bool)
    ensures
        r == row@.map_values(|u: usize| u as int).contains(x as int),
{
    let n: usize = row.len();
    let mut t: usize = 0;
    while t < n
        invariant
            0 <= t <= n,
            n == row@.len(),
            forall|u: int| 0 <= u < t ==> row@[u] != x,
        decreases n - t,
    {
        if row[t] == x {
            proof {
                assert(row@.map_values(|u: usize| u as int)[t as int] == x as int);
            }
            return true;
        }
        t += 1;
    }
    proof {
        let mapped = row@.map_values(|u2: usize| u2 as int);
        if mapped.contains(x as int) {
            let u = choose|u: int| 0 <= u < mapped.len() && mapped[u] == x as int;
            assert(row@[u] == x);
            assert(false);
        }
    }
    false
}

/// Finds the first item carrying `name`; `None` when no item does.
fn find_name(items: &Vec<Item>, name: &String) -> (r: Option<usize>)
    ensures
        match r {
            Some(u) => 0 <= u < items@.len() && items@[u as int].name@ == name@,
            None => !crate::model::has_idx(items@.map_values(|it: Item| it.name@), name@),
        },
{
    let n: usize = items.len();
    let mut t: usize = 0;
    while t < n
        invariant
            0 <= t <= n,
            n == items@.len(),
            forall|u: int| 0 <= u < t ==> items@[u].name@ != name@,
        decreases n - t,
    {
        if items[t].name.eq(name) {
            return Some(t);
        }
        t += 1;
    }
    proof {
        let nm = items@.map_values(|it: Item| it.name@);
        if crate::model::has_idx(nm, name@) {
            let u = choose|u: int| 0 <= u < nm.len() && nm[u] == name@;
            assert(items@[u].name@ == name@);
            assert(false);
        }
    }
    None
}

impl ItemGraph {
    /// Finds the index of the item with the given name, scanning in storage
    /// order; `None` when no item carries it.
    pub fn lookup(&self, name: &str) -> (r: Option<usize>)
        ensures
            match r {
                Some(i) => 0 <= i < self.n() && self.names()[i as int] == name@,
                None => !self.model().has_name(name@),
            },
    {
        let n = self.items.len();
        let mut i: usize = 0;
        while i < n
            invariant
                0 <= i <= n,
                n == self.n(),
                forall|t: int| 0 <= t < i ==> self.names()[t] != name@,
            decreases n - i,
        {
            if string_eq_str(&self.items[i].name, name) {
                return Some(i);
            }
            i += 1;
        }
        None
    }

    /// Creates a graph holding one item per listed name — duplicates and the
    /// reserved name of the synthetic item are dropped — with no dependency
    /// edges and nothing installed.
    pub fn from_vec(vec: &Vec<&str>) -> (r: Option<ItemGraph>)
        ensures
            match r {
                Some(g) => {
                    &&& g.wf()
                    &&& g.names() == dedup_names(vec@.map_values(|s: &str| s@)).push(
                        installed_name(),
                    )
                    &&& forall|i: int| 0 <= i < g.n() ==> (#[trigger] g.rows()[i]).len() == 0
                    &&& g.path_set().is_empty()
                    &&& g.done_set().is_empty()
                    &&& g.yaml_file_path is None
                },
                None => false,
            },
    {
        let ghost raw: Seq<Seq<char>> = vec@.map_values(|s: &str| s@);
        let mut items: Vec<Item> = Vec::new();
        let mut k: usize = 0;
        while k < vec.len()
            invariant
                0 <= k <= vec@.len(),
                raw == vec@.map_values(|s: &str| s@),
                items@.map_values(|it: Item| it.name@) == dedup_names(raw.take(k as int)),
                forall|t: int| 0 <= t < items@.len() ==> !(#[trigger] items@[t]).discovered
                    && !items@[t].backtraced,
            decreases vec@.len() - k,
        {
            let s = vec[k];
            let mut present = string_eq_str(&s.to_owned(), "installed");
            proof {
                reveal_strlit("installed");
            }
            let mut t: usize = 0;
            while t < items.len()
                invariant
                    0 <= t <= items@.len(),
                    present == (s@ == installed_name() || exists|u: int|
                        0 <= u < t && items@[u].name@ == s@),
                decreases items@.len() - t,
            {
                if string_eq_str(&items[t].name, s) {
                    present = true;
                }
                t += 1;
            }
            if !present {
                items.push(Item::new(s));
            }
            proof {
                assert(raw.take(k + 1).drop_last() =~= raw.take(k as int));
                assert(raw.take(k + 1).last() == s@);
                if !present {
                    assert(items@.map_values(|it: Item| it.name@) =~= dedup_names(
                        raw.take(k as int),
                    ).push(s@));
                } else {
                    assert(dedup_names(raw.take(k as int)).contains(s@) || s@
                        == installed_name()) by {
                        if s@ != installed_name() {
                            let u = choose|u: int|
                                0 <= u < items@.len() && items@[u].name@ == s@;
                            assert(items@.map_values(|it: Item| it.name@)[u] == s@);
                        }
                    }
                }
            }
            k += 1;
        }
        proof {
            assert(raw.take(raw.len() as int) =~= raw);
        }
        items.push(Item::new("installed"));
        let n: usize = items.len();
        let mut deps: Vec<Vec<usize>> = Vec::new();
        while deps.len() < n
            invariant
                deps@.len() <= n,
                forall|t: int| 0 <= t < deps@.len() ==> (#[trigger] deps@[t])@.len() == 0,
            decreases n - deps@.len(),
        {
            deps.push(Vec::new());
        }
        let g = ItemGraph { items, deps, yaml_file_path: None };
        proof {
            reveal_strlit("installed");
            lemma_dedup_names(raw);
            assert(g.names() =~= dedup_names(raw).push(installed_name()));
            assert forall|i: int| 0 <= i < g.n() implies (#[trigger] g.rows()[i]).len() == 0 by {
                assert(g.rows()[i] == g.deps@[i]@.map_values(|u: usize| u as int));
            }
            assert forall|i: int, j: int| 0 <= i < j < g.names().len() implies g.names()[i]
                != g.names()[j] by {
                let nm = dedup_names(raw);
                if j < g.names().len() - 1 {
                    assert(nm.no_duplicates());
                } else {
                    assert(g.names()[j] == installed_name());
                    assert(!nm.contains(installed_name()));
                    assert(nm.contains(nm[i]));
                    assert(nm[i] == g.names()[i]);
                }
            }
            assert(g.path_set() =~= Set::<int>::empty());
            assert(g.done_set() =~= Set::<int>::empty());
        }
        Some(g)
    }

    /// Builds a graph from an ordered list of name/dependency-list pairs:
    /// one item per distinct key — a pair keyed with the reserved installed
    /// name instead feeds the synthetic item's row — and one dependency edge
    /// for every listed name that resolves to an item. A dependency name
    /// matching no item is silently dropped.
    #[verifier::loop_isolation(false)]
    pub fn from_pairs(pairs: &Vec<(String, Vec<String>)>) -> (g: ItemGraph)
        ensures
            g.wf(),
            g.model() == construct_model(pairs.deep_view()),
            g.path_set().is_empty(),
            g.done_set().is_empty(),
            g.yaml_file_path is None,
    {
        let ghost ps = pairs.deep_view();
        let mut items: Vec<Item> = Vec::new();
        let mut k: usize = 0;
        while k < pairs.len()
            invariant
                0 <= k <= pairs@.len(),
                items@.map_values(|it: Item| it.name@) == dedup_names(key_seq(ps).take(k as int)),
                forall|t: int|
                    0 <= t < items@.len() ==> !(#[trigger] items@[t]).discovered
                        && !items@[t].backtraced,
            decreases pairs@.len() - k,
        {
            let name = &pairs[k].0;
            proof {
                assert(ps[k as int] == pairs@[k as int].deep_view());
                assert(key_seq(ps)[k as int] == name@);
            }
            let mut present = string_eq_str(name, "installed");
            proof {
                reveal_strlit("installed");
            }
            let mut t: usize = 0;
            while t < items.len()
                invariant
                    0 <= t <= items@.len(),
                    present == (name@ == installed_name() || exists|u: int|
                        0 <= u < t && items@[u].name@ == name@),
                decreases items@.len() - t,
            {
                if items[t].name.eq(name) {
                    present = true;
                }
                t += 1;
            }
            if !present {
                items.push(Item::new(name.as_str()));
            }
            proof {
                assert(key_seq(ps).take(k + 1).drop_last() =~= key_seq(ps).take(k as int));
                assert(key_seq(ps).take(k + 1).last() == name@);
                if !present {
                    assert(items@.map_values(|it: Item| it.name@) =~= dedup_names(
                        key_seq(ps).take(k as int),
                    ).push(name@));
                } else {
                    assert(dedup_names(key_seq(ps).take(k as int)).contains(name@) || name@
                        == installed_name()) by {
                        if name@ != installed_name() {
                            let u = choose|u: int|
                                0 <= u < items@.len() && items@[u].name@ == name@;
                            assert(items@.map_values(|it: Item| it.name@)[u] == name@);
                        }
                    }
                }
            }
            k += 1;
        }
        proof {
            assert(key_seq(ps).take(key_seq(ps).len() as int) =~= key_seq(ps));
        }
        items.push(Item::new("installed"));
        let ghost names = dedup_names(key_seq(ps)).push(installed_name());
        proof {
            reveal_strlit("installed");
            assert(items@.map_values(|it: Item| it.name@) =~= names);
            lemma_construct_model_wf(ps);
            assert(construct_model(ps).names == names);
        }
        let n: usize = items.len();
        let mut deps: Vec<Vec<usize>> = Vec::new();
        while deps.len() < n
            invariant
                deps@.len() <= n,
                n == items@.len(),
                items@.map_values(|it: Item| it.name@) == names,
                forall|i: int|
                    0 <= i < deps@.len() ==> (#[trigger] deps@[i])@.map_values(|u: usize| u as int)
                        == resolve_row(row_src(ps, names[i]), names),
                forall|i: int, t: int|
                    0 <= i < deps@.len() && 0 <= t < deps@[i]@.len() ==> (#[trigger] deps@[i]@[t])
                        < n,
            decreases n - deps@.len(),
        {
            let i: usize = deps.len();
            let key = &items[i].name;
            let mut src: Option<usize> = None;
            let mut t: usize = 0;
            while t < pairs.len()
                invariant
                    0 <= t <= pairs@.len(),
                    i < items@.len(),
                    key == items@[i as int].name,
                    match src {
                        Some(u) => 0 <= u < t && ps[u as int].0 == key@ && forall|v: int|
                            0 <= v < u ==> ps[v].0 != key@,
                        None => forall|v: int| 0 <= v < t ==> ps[v].0 != key@,
                    },
                decreases pairs@.len() - t,
            {
                if src.is_none() && pairs[t].0.eq(key) {
                    src = Some(t);
                }
                proof {
                    assert(ps[t as int] == pairs@[t as int].deep_view());
                }
                t += 1;
            }
            let mut row: Vec<usize> = Vec::new();
            let ghost srcrow = row_src(ps, names[i as int]);
            match src {
                Some(u) => {
                    proof {
                        lemma_row_src_at(ps, key@, u as int);
                        assert(srcrow == ps[u as int].1);
                        assert(ps[u as int].1 == pairs@[u as int].1.deep_view());
                    }
                    let dvec = &pairs[u].1;
                    let mut d: usize = 0;
                    while d < dvec.len()
                        invariant
                            0 <= d <= dvec@.len(),
                            srcrow == dvec.deep_view(),
                            row@.map_values(|x: usize| x as int) == resolve_row(
                                srcrow.take(d as int),
                                names,
                            ),
                            forall|t2: int| 0 <= t2 < row@.len() ==> (#[trigger] row@[t2]) < n,
                        decreases dvec@.len() - d,
                    {
                        let depname = &dvec[d];
                        proof {
                            assert(srcrow.take(d + 1).drop_last() =~= srcrow.take(d as int));
                            assert(srcrow[d as int] == dvec@[d as int]@);
                        }
                        match find_name(&items, depname) {
                            Some(j) => {
                                proof {
                                    lemma_name_index_unique(names, depname@, j as int);
                                }
                                if !row_contains(&row, j) {
                                    row.push(j);
                                    proof {
                                        assert(row@.map_values(|x: usize| x as int)
                                            =~= resolve_row(srcrow.take(d as int), names).push(
                                            j as int,
                                        ));
                                    }
                                }
                            },
                            None => {
                                proof {
                                    assert(!has_idx(names, depname@));
                                }
                            },
                        }
                        d += 1;
                    }
                    proof {
                        assert(srcrow.take(srcrow.len() as int) =~= srcrow);
                    }
                },
                None => {
                    proof {
                        lemma_row_src_absent(ps, key@);
                        assert(row@.map_values(|x: usize| x as int) =~= Seq::<int>::empty());
                    }
                },
            }
            deps.push(row);
        }
        let g = ItemGraph { items, deps, yaml_file_path: None };
        proof {
            assert(g.rows() =~= construct_model(ps).rows) by {
                assert forall|i: int| 0 <= i < g.rows().len() implies g.rows()[i]
                    == construct_model(ps).rows[i] by {
                    assert(g.rows()[i] == g.deps@[i]@.map_values(|u: usize| u as int));
                }
            }
            assert(g.names() =~= names);
            assert(g.model() == construct_model(ps));
            assert(g.path_set() =~= Set::<int>::empty());
            assert(g.done_set() =~= Set::<int>::empty());
        }
        g
    }

    /// Records the named item as installed by adding its index to the
    /// synthetic item's dependency row; a second marking changes nothing.
    /// Returns whether the name was found — an unknown name leaves the
    /// graph untouched.
    pub fn set_as_installed(&mut self, item_name: &str) -> (found: bool)
        requires
            old(self).wf(),
        ensures
            final(self).wf(),
            final(self).items@ == old(self).items@,
            final(self).yaml_file_path == old(self).yaml_file_path,
            found == old(self).model().has_name(item_name@),
            !found ==> final(self).model() == old(self).model(),
            found ==> ({
                let i = old(self).model().index_of(item_name@);
                let last = old(self).n() - 1;
                &&& forall|r: int| 0 <= r < last ==> final(self).rows()[r] == old(self).rows()[r]
                &&& final(self).model().is_installed(i)
                &&& forall|j: int|
                    final(self).model().is_installed(j) <==> old(self).model().is_installed(j) || j
                        == i
                &&& final(self).rows()[last] == (if old(self).model().is_installed(i) {
                    old(self).rows()[last]
                } else {
                    old(self).rows()[last].push(i)
                })
            }),
    {
        let ghost m = self.model();
        match self.lookup(item_name) {
            Some(i) => {
                proof {
                    lemma_index_of_unique(m, item_name@, i as int);
                }
                let last: usize = self.items.len() - 1;
                if !row_contains(&self.deps[last], i) {
                    let dst: &mut Vec<usize> = &mut self.deps[last];
                    dst.push(i);
                    proof {
                        assert(self.rows()[last as int] =~= m.rows[last as int].push(i as int));
                        assert forall|r: int| 0 <= r < last implies self.rows()[r] == m.rows[r] by {
                            assert(self.deps@[r] == old(self).deps@[r]);
                        }
                        assert forall|j: int| self.model().is_installed(j) <==> m.is_installed(j)
                            || j == i as int by {
                            let newrow = self.rows()[last as int];
                            if self.model().is_installed(j) {
                                let t = choose|t: int| 0 <= t < newrow.len() && newrow[t] == j;
                                if t < newrow.len() - 1 {
                                    assert(m.rows[last as int][t] == j);
                                }
                            }
                            if m.is_installed(j) {
                                let t = choose|t: int|
                                    0 <= t < m.rows[last as int].len() && m.rows[last as int][t]
                                        == j;
                                assert(newrow[t] == j);
                            }
                            if j == i as int {
                                assert(newrow[newrow.len() - 1] == j);
                            }
                        }
                        assert(self.model().wf()) by {
                            let newrow = self.rows()[last as int];
                            assert(self.names() == m.names);
                            assert(self.rows().len() == m.rows.len());
                            assert(newrow.no_duplicates()) by {
                                assert forall|u: int, v: int|
                                    0 <= u < v < newrow.len() implies newrow[u] != newrow[v] by {
                                    if v < newrow.len() - 1 {
                                        assert(m.rows[last as int].no_duplicates());
                                    } else {
                                        assert(newrow[v] == i as int);
                                        assert(m.rows[last as int][u] == newrow[u]);
                                        assert(m.rows[last as int].contains(newrow[u])) by {
                                            assert(m.rows[last as int][u] == newrow[u]);
                                        }
                                        assert(!m.is_installed(i as int));
                                    }
                                }
                            }
                            assert forall|r: int|
                                0 <= r < self.rows().len() implies (#[trigger] self.rows()[r]).no_duplicates()
                                && (forall|t: int|
                                0 <= t < self.rows()[r].len() ==> 0 <= #[trigger] self.rows()[r][t]
                                    < m.n()) by {
                                if r != last {
                                    assert(self.rows()[r] == m.rows[r]);
                                } else {
                                    assert forall|t: int|
                                        0 <= t < newrow.len() implies 0 <= #[trigger] newrow[t]
                                        < m.n() by {
                                        if t < newrow.len() - 1 {
                                            assert(newrow[t] == m.rows[last as int][t]);
                                        } else {
                                            assert(newrow[t] == i as int);
                                        }
                                    }
                                }
                            }
                        }
                    }
                } else {
                    proof {
                        assert(self.model() == m);
                        assert forall|j: int| self.model().is_installed(j) <==> m.is_installed(j)
                            || j == i as int by {}
                    }
                }
                proof {
                    assert(m.index_of(item_name@) == i as int);
                    assert(self.model().is_installed(i as int));
                }
                true
            },
            None => false,
        }
    }

    /// The names currently recorded as installed, in row order.
    pub fn installed(&self) -> (r: Vec<String>)
        requires
            self.wf(),
        ensures
            crate::travel::names_view(r@) == names_of(
                self.model().installed_row(),
                self.model().names,
            ),
    {
        let ghost m = self.model();
        let last: usize = self.items.len() - 1;
        let row = &self.deps[last];
        let mut r: Vec<String> = Vec::new();
        let mut t: usize = 0;
        while t < row.len()
            invariant
                0 <= t <= row@.len(),
                last == m.n() - 1,
                row == self.deps@[last as int],
                self.wf(),
                m == self.model(),
                crate::travel::names_view(r@) == names_of(m.installed_row().take(t as int), m.names),
            decreases row@.len() - t,
        {
            let j = row[t];
            proof {
                assert(m.installed_row()[t as int] == j as int);
                assert(0 <= (j as int) < m.n());
                assert(self.items@[j as int].name@ == m.names[j as int]);
            }
            let ghost rv0 = r@;
            r.push(self.items[j].name.clone());
            proof {
                let lhs = crate::travel::names_view(r@);
                let rhs = names_of(m.installed_row().take(t + 1), m.names);
                assert(crate::travel::names_view(rv0).len() == rv0.len());
                assert(names_of(m.installed_row().take(t as int), m.names).len() == t);
                assert(rv0.len() == t as int);
                assert(r@.len() == rv0.len() + 1);
                assert forall|u: int| 0 <= u < lhs.len() implies lhs[u] == rhs[u] by {
                    assert(r@.len() == rv0.len() + 1);
                    assert(crate::travel::names_view(rv0).len() == rv0.len());
                    assert(m.installed_row().len() == row@.len());
                    assert(names_of(m.installed_row().take(t as int), m.names).len() == t);
                    assert(rv0.len() == t as int);
                    assert(lhs[u] == r@[u]@);
                    assert(rhs[u] == m.names[m.installed_row().take(t + 1)[u]]);
                    if u < rv0.len() {
                        assert(r@[u] == rv0[u]);
                        assert(crate::travel::names_view(rv0)[u] == rv0[u]@);
                        assert(crate::travel::names_view(rv0)[u] == names_of(
                            m.installed_row().take(t as int),
                            m.names,
                        )[u]);
                        assert(names_of(m.installed_row().take(t as int), m.names)[u]
                            == m.names[m.installed_row().take(t as int)[u]]);
                        assert(m.installed_row().take(t as int)[u] == m.installed_row().take(
                            t + 1,
                        )[u]);
                    } else {
                        assert(u == t as int);
                        assert(r@[u] == self.items@[j as int].name);
                        assert(m.installed_row().take(t + 1)[u] == j as int);
                    }
                }
                assert(lhs.len() == r@.len());
                assert(rhs.len() == t + 1);
                assert(lhs =~= rhs);
            }
            t += 1;
        }
        proof {
            assert(m.installed_row().take(row@.len() as int) =~= m.installed_row());
        }
        r
    }

    /// Marks every listed name that matches an item as installed; names
    /// matching no item are ignored. The items and the real dependency
    /// rows are untouched.
    #[verifier::loop_isolation(false)]
    pub fn update_items(&mut self, item_names: &Vec<String>)
        requires
            old(self).wf(),
        ensures
            final(self).wf(),
            final(self).items@ == old(self).items@,
            final(self).yaml_file_path == old(self).yaml_file_path,
            forall|r: int|
                0 <= r < old(self).n() - 1 ==> final(self).rows()[r] == old(self).rows()[r],
            forall|j: int|
                0 <= j < old(self).n() ==> (final(self).model().is_installed(j) <==> old(
                    self,
                ).model().is_installed(j) || crate::travel::names_view(item_names@).contains(
                    old(self).names()[j],
                )),
    {
        let ghost m = self.model();
        let ghost wanted = crate::travel::names_view(item_names@);
        let mut k: usize = 0;
        while k < item_names.len()
            invariant
                0 <= k <= item_names@.len(),
                self.wf(),
                self.items@ == old(self).items@,
                self.yaml_file_path == old(self).yaml_file_path,
                self.names() == m.names,
                forall|r: int| 0 <= r < m.n() - 1 ==> self.rows()[r] == m.rows[r],
                forall|j: int|
                    0 <= j < m.n() ==> (self.model().is_installed(j) <==> m.is_installed(j)
                        || wanted.take(k as int).contains(m.names[j])),
            decreases item_names@.len() - k,
        {
            let ghost pre = self.model();
            proof {
                assert forall|j: int| 0 <= j < m.n() implies (pre.is_installed(j)
                    <==> m.is_installed(j) || wanted.take(k as int).contains(m.names[j])) by {}
            }
            let found = self.set_as_installed(item_names[k].as_str());
            proof {
                let nm = wanted[k as int];
                assert(item_names@[k as int]@ == nm);
                assert(pre.names == m.names);
                assert forall|j: int| 0 <= j < m.n() implies (self.model().is_installed(j)
                    <==> m.is_installed(j) || wanted.take(k + 1).contains(m.names[j])) by {
                    let next = wanted.take(k + 1);
                    let cur = wanted.take(k as int);
                    assert(next[k as int] == nm);
                    if next.contains(m.names[j]) && m.names[j] != nm {
                        let t = choose|t: int| 0 <= t < next.len() && next[t] == m.names[j];
                        assert(t != k);
                        assert(cur[t] == m.names[j]);
                        assert(cur.contains(m.names[j]));
                    }
                    if cur.contains(m.names[j]) {
                        let t = choose|t: int| 0 <= t < cur.len() && cur[t] == m.names[j];
                        assert(next[t] == m.names[j]);
                        assert(next.contains(m.names[j]));
                    }
                    if m.names[j] == nm {
                        assert(next.contains(m.names[j]));
                    }
                    if found {
                        let i = pre.index_of(nm);
                        assert(self.model().is_installed(j) <==> pre.is_installed(j) || j == i);
                        assert(pre.is_installed(j) <==> m.is_installed(j) || cur.contains(
                            m.names[j],
                        ));
                        if m.names[j] == nm {
                            lemma_index_of_unique(pre, nm, j);
                            assert(i == j);
                        }
                        if j == i {
                            assert(pre.has_name(nm));
                            assert(pre.names[pre.index_of(nm)] == nm);
                            assert(m.names[j] == nm);
                        }
                    } else {
                        assert(self.model() == pre);
                        if m.names[j] == nm {
                            assert(pre.names[j] == nm);
                            assert(pre.has_name(nm));
                            assert(false);
                        }
                    }
                }
            }
            k += 1;
        }
        proof {
            assert(wanted.take(wanted.len() as int) =~= wanted);
        }
    }

    /// Exports the graph as name/dependency-list pairs, one per item in
    /// storage order, the synthetic installed item included.
    #[verifier::loop_isolation(false)]
    pub fn to_pairs(&self) -> (r: Vec<(String, Vec<String>)>)
        requires
            self.wf(),
        ensures
            r.deep_view() == export_pairs(self.model()),
    {
        let ghost m = self.model();
        let n: usize = self.items.len();
        let mut r: Vec<(String, Vec<String>)> = Vec::new();
        let mut i: usize = 0;
        while i < n
            invariant
                0 <= i <= n,
                n == m.n(),
                r@.len() == i,
                forall|t: int| 0 <= t < i ==> r.deep_view()[t] == export_pairs(m)[t],
            decreases n - i,
        {
            let row = &self.deps[i];
            let mut rowv: Vec<String> = Vec::new();
            let mut t: usize = 0;
            while t < row.len()
                invariant
                    0 <= t <= row@.len(),
                    i < n,
                    row == self.deps@[i as int],
                    rowv.deep_view() == names_of(m.rows[i as int].take(t as int), m.names),
                decreases row@.len() - t,
            {
                let j = row[t];
                proof {
                    assert(m.rows[i as int][t as int] == j as int);
                    assert(0 <= (j as int) < m.n());
                    assert(self.items@[j as int].name@ == m.names[j as int]);
                }
                let ghost rv0 = rowv@;
                rowv.push(self.items[j].name.clone());
                proof {
                    let lhs = rowv.deep_view();
                    let rhs = names_of(m.rows[i as int].take(t + 1), m.names);
                    assert forall|u: int| 0 <= u < lhs.len() implies lhs[u] == rhs[u] by {
                        assert(rowv@.len() == rv0.len() + 1);
                        assert(lhs.len() == rowv@.len());
                        assert(names_of(m.rows[i as int].take(t as int), m.names).len() == t);
                        assert(rv0.len() == t as int) by {
                            let olddv = Seq::new(rv0.len(), |w: int| rv0[w]@);
                            assert(olddv.len() == rv0.len());
                        }
                        assert(lhs[u] == rowv@[u]@);
                        assert(rhs[u] == m.names[m.rows[i as int].take(t + 1)[u]]);
                        if u < rv0.len() {
                            assert(rowv@[u] == rv0[u]);
                            assert(names_of(m.rows[i as int].take(t as int), m.names)[u]
                                == m.names[m.rows[i as int].take(t as int)[u]]);
                            assert(m.rows[i as int].take(t as int)[u] == m.rows[i as int].take(
                                t + 1,
                            )[u]);
                        } else {
                            assert(u == t as int);
                            assert(rowv@[u] == self.items@[j as int].name);
                            assert(m.rows[i as int].take(t + 1)[u] == j as int);
                        }
                    }
                    assert(lhs =~= rhs);
                }
                t += 1;
            }
            proof {
                assert(m.rows[i as int].take(row@.len() as int) =~= m.rows[i as int]);
                assert(rowv.deep_view() == names_of(m.rows[i as int], m.names));
            }
            r.push((self.items[i].name.clone(), rowv));
            proof {
                assert(r.deep_view()[i as int] == export_pairs(m)[i as int]);
            }
            i += 1;
        }
        proof {
            assert(r.deep_view() =~= export_pairs(m));
        }
        r
    }
}

} // verus!
