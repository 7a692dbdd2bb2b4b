use vstd::prelude::*;
use vstd::set::group_set_axioms;

use crate::graph::lemma_bounded_set_finite;
use crate::graph::row_contains;
use crate::graph::string_eq_str;
use crate::graph::ItemGraph;
use crate::model::dfs_list;
use crate::model::dfs_node;
use crate::model::lemma_index_of_unique;
use crate::model::names_of;
use crate::model::traversal_names;
use crate::model::DfsResult;
use crate::model::TravelMode;

verus! {

/// The error reported when a traversal meets a dependency cycle. No cycle
/// members are named: the walk stops at the first item found twice on the
/// current recursion path.
#[derive(Debug, Clone, PartialEq, Eq, Structural)]
pub struct CycleGraphError;

impl CycleGraphError {
    /// The human-readable account of the error.
    pub fn message(&self) -> (s: String)
        ensures
            s@ == "Cyclic graph is not allowed!"@,
    {
        "Cyclic graph is not allowed!".to_owned()
    }
}

/// The view of a list of owned names as a list of character sequences.
pub open spec fn names_view(v: Seq<String>) -> Seq<Seq<char>> {
    v.map_values(|s: String| s@)
}

/// A prefix of a prefix is a prefix.
proof fn lemma_prefix_trans(a: Seq<String>, b: Seq<String>, c: Seq<String>)
    requires
        a.is_prefix_of(b),
        b.is_prefix_of(c),
    ensures
        a.is_prefix_of(c),
{
    assert(a =~= c.subrange(0, a.len() as int));
}

impl ItemGraph {
    /// Walks the graph depth-first from the item at index `i`, appending the
    /// name of every emitted item to `out` — before its dependencies in
    /// `Pre` mode, after them in `Post` mode. Items already backtraced or
    /// recorded as installed are skipped together with their subtrees;
    /// meeting an item that is still on the current recursion path means a
    /// dependency cycle. The outcome, the emission order and the final
    /// traversal markers are exactly those of the `dfs_node` specification
    /// run from the entry markers; a skipped entry item, like one that
    /// closes a cycle at once, leaves the graph and the output untouched.
    #[verifier::loop_isolation(false)]
    pub fn travel(&mut self, i: usize, out: &mut Vec<String>, mode: &TravelMode) -> (res: Result<
        (),
        CycleGraphError,
    >)
        requires
            old(self).wf(),
            i < old(self).n(),
        ensures
            final(self).wf(),
            final(self).model() == old(self).model(),
            final(self).yaml_file_path == old(self).yaml_file_path,
            forall|j: int|
                0 <= j < old(self).n() && old(self).items@[j].discovered ==> final(self).items@[j].discovered,
            final(self).undiscovered().subset_of(old(self).undiscovered()),
            old(out)@.is_prefix_of(final(out)@),
            res is Ok <==> dfs_node(
                old(self).model(),
                i as int,
                old(self).path_set(),
                old(self).done_set(),
                *mode,
            ) is Done,
            res is Ok ==> ({
                let r = dfs_node(
                    old(self).model(),
                    i as int,
                    old(self).path_set(),
                    old(self).done_set(),
                    *mode,
                );
                &&& final(self).done_set() == r->Done_done
                &&& final(self).path_set() == old(self).path_set()
                &&& names_view(final(out)@) == names_view(old(out)@) + names_of(
                    r->Done_order,
                    old(self).model().names,
                )
            }),
            old(self).done_set().contains(i as int) || old(self).model().is_installed(i as int)
                ==> (*final(self) == *old(self) && final(out)@ == old(out)@),
            old(self).path_set().contains(i as int) && !old(self).done_set().contains(i as int)
                && !old(self).model().is_installed(i as int) ==> (*final(self) == *old(self)
                && final(out)@ == old(out)@),
        decreases old(self).undiscovered().len(),
    {
        broadcast use group_set_axioms;

        let ghost m = self.model();
        let ghost p0 = self.path_set();
        let ghost b0 = self.done_set();
        let ghost u0 = self.undiscovered();
        let ghost out0 = out@;
        proof {
            lemma_bounded_set_finite(p0, m.n());
            lemma_bounded_set_finite(b0, m.n());
            lemma_bounded_set_finite(u0, m.n());
        }
        let last: usize = self.items.len() - 1;
        if self.items[i].backtraced || row_contains(&self.deps[last], i) {
            proof {
                assert(b0.contains(i as int) || m.is_installed(i as int));
                assert(dfs_node(m, i as int, p0, b0, *mode) == (DfsResult::Done {
                    done: b0,
                    order: Seq::<int>::empty(),
                }));
                assert(self.done_set() =~= b0);
                assert(self.path_set() =~= p0);
                assert(names_view(out@) =~= names_view(out0) + names_of(
                    Seq::<int>::empty(),
                    m.names,
                ));
                assert(out0.is_prefix_of(out@));
            }
            return Ok(());
        }
        if self.items[i].discovered {
            proof {
                assert(p0.contains(i as int));
                assert(dfs_node(m, i as int, p0, b0, *mode) is Cycle);
                assert(out0.is_prefix_of(out@));
            }
            return Err(CycleGraphError);
        }
        proof {
            assert(!b0.contains(i as int));
            assert(!p0.contains(i as int));
            assert(!m.is_installed(i as int));
            assert(u0.contains(i as int));
        }
        self.items[i].discovered = true;
        let ghost p1 = p0.insert(i as int);
        let ghost items1 = self.items@;
        proof {
            assert(self.names() =~= m.names);
            assert(self.model() == m);
            assert(self.path_set() =~= p1);
            assert(self.done_set() =~= b0);
            lemma_bounded_set_finite(p1, m.n());
        }
        match mode {
            TravelMode::Pre => {
                out.push(self.items[i].name.clone());
            },
            TravelMode::Post => {},
        }
        let ghost out1 = out@;
        proof {
            match *mode {
                TravelMode::Pre => {
                    assert(names_view(out1) =~= names_view(out0).push(m.names[i as int]));
                },
                TravelMode::Post => {},
            }
            assert(out0.is_prefix_of(out1)) by {
                assert(out0 =~= out1.subrange(0, out0.len() as int));
            }
        }
        let ghost row = m.row(i as int);
        let deps_len: usize = self.deps[i].len();
        let ghost mut emitted: Seq<int> = Seq::empty();
        let mut k: usize = 0;
        proof {
            assert(row.len() == deps_len);
            assert forall|t: int| 0 <= t < row.len() implies 0 <= #[trigger] row[t] < m.n() by {
                assert(m.rows[i as int][t] == row[t]);
            }
            if dfs_list(m, row, 0, p1, b0, *mode) is Done {
                assert(emitted + dfs_list(m, row, 0, p1, b0, *mode)->Done_order =~= dfs_list(
                    m,
                    row,
                    0,
                    p1,
                    b0,
                    *mode,
                )->Done_order);
            }
        }
        while k < deps_len
            invariant
                self.wf(),
                self.model() == m,
                self.yaml_file_path == old(self).yaml_file_path,
                m.wf(),
                0 <= k <= deps_len,
                i < m.n(),
                row == m.row(i as int),
                deps_len == row.len(),
                forall|t: int| 0 <= t < row.len() ==> 0 <= #[trigger] row[t] < m.n(),
                p1 == p0.insert(i as int),
                p1.finite(),
                p1.subset_of(vstd::set_lib::set_int_range(0, m.n())),
                u0.finite(),
                u0.contains(i as int),
                items1.len() == m.n(),
                items1[i as int].discovered,
                self.path_set() == p1,
                forall|j: int|
                    0 <= j < m.n() && items1[j].discovered ==> self.items@[j].discovered,
                forall|j: int|
                    0 <= j < m.n() && !u0.contains(j) ==> items1[j].discovered,
                out1.is_prefix_of(out@),
                names_view(out@) == names_view(out1) + names_of(emitted, m.names),
                dfs_list(m, row, k as int, p1, self.done_set(), *mode) is Done ==> dfs_list(
                    m,
                    row,
                    0,
                    p1,
                    b0,
                    *mode,
                ) == (DfsResult::Done {
                    done: dfs_list(m, row, k as int, p1, self.done_set(), *mode)->Done_done,
                    order: emitted + dfs_list(
                        m,
                        row,
                        k as int,
                        p1,
                        self.done_set(),
                        *mode,
                    )->Done_order,
                }),
                dfs_list(m, row, k as int, p1, self.done_set(), *mode) is Cycle ==> dfs_list(
                    m,
                    row,
                    0,
                    p1,
                    b0,
                    *mode,
                ) is Cycle,
            decreases deps_len - k,
        {
            let j = self.deps[i][k];
            proof {
                assert(self.deps@[i as int]@[k as int] == j);
                assert(m.rows[i as int][k as int] == j as int);
                assert(0 <= (j as int) < m.n());
                assert(self.undiscovered().subset_of(u0.remove(i as int))) by {
                    assert forall|t: int| #[trigger]
                        self.undiscovered().contains(t) implies u0.remove(i as int).contains(
                        t,
                    ) by {
                        assert(!self.items@[t].discovered);
                        assert(!items1[t].discovered);
                        assert(u0.contains(t));
                        assert(t != i);
                    }
                }
                lemma_len_subset_wrap(self.undiscovered(), u0.remove(i as int));
                assert(u0.remove(i as int).len() < u0.len());
            }
            let ghost self_pre = *self;
            let ghost out_pre = out@;
            let ghost b_before = self.done_set();
            let ghost node = dfs_node(m, j as int, p1, b_before, *mode);
            let r = self.travel(j, out, mode);
            match r {
                Ok(()) => {
                    proof {
                        assert(node is Done);
                        assert(self.done_set() == node->Done_done);
                        assert(self.path_set() == p1);
                        let o1 = node->Done_order;
                        assert(dfs_list(m, row, k as int, p1, b_before, *mode) == (match dfs_list(
                            m,
                            row,
                            k + 1,
                            p1,
                            node->Done_done,
                            *mode,
                        ) {
                            DfsResult::Cycle => DfsResult::Cycle,
                            DfsResult::Done { done: b3, order: o2 } => DfsResult::Done {
                                done: b3,
                                order: o1 + o2,
                            },
                        }));
                        let prev = emitted;
                        emitted = emitted + o1;
                        assert(names_view(out@) =~= names_view(out1) + names_of(
                            emitted,
                            m.names,
                        )) by {
                            assert(names_view(out@) == names_view(out_pre) + names_of(
                                o1,
                                m.names,
                            ));
                            assert(names_of(prev + o1, m.names) =~= names_of(prev, m.names)
                                + names_of(o1, m.names));
                        }
                        if dfs_list(m, row, k + 1, p1, self.done_set(), *mode) is Done {
                            let o2 = dfs_list(m, row, k + 1, p1, self.done_set(), *mode)->Done_order;
                            assert(prev + (o1 + o2) =~= emitted + o2);
                        }
                        lemma_prefix_trans(out1, out_pre, out@);
                        assert forall|t: int|
                            0 <= t < m.n() && items1[t].discovered implies self.items@[t].discovered
                        by {
                            assert(self_pre.items@[t].discovered);
                        }
                    }
                },
                Err(e) => {
                    proof {
                        assert(node is Cycle);
                        assert(dfs_list(m, row, k as int, p1, b_before, *mode) is Cycle);
                        assert(dfs_list(m, row, 0, p1, b0, *mode) is Cycle);
                        assert(dfs_node(m, i as int, p0, b0, *mode) is Cycle);
                        lemma_prefix_trans(out0, out1, out_pre);
                        lemma_prefix_trans(out0, out_pre, out@);
                        assert forall|t: int|
                            0 <= t < m.n() && old(self).items@[t].discovered implies #[trigger]
                            self.items@[t].discovered by {
                            assert(items1[t].discovered);
                            assert(self_pre.items@[t].discovered);
                        }
                        assert(self.undiscovered().subset_of(u0)) by {
                            assert forall|t: int| #[trigger]
                                self.undiscovered().contains(t) implies u0.contains(t) by {
                                assert(!self.items@[t].discovered);
                                if !u0.contains(t) {
                                    assert(items1[t].discovered);
                                    assert(self_pre.items@[t].discovered);
                                }
                            }
                        }
                    }
                    return Err(e);
                },
            }
            k += 1;
        }
        let ghost b_end = self.done_set();
        proof {
            assert(dfs_list(m, row, deps_len as int, p1, b_end, *mode) == (DfsResult::Done {
                done: b_end,
                order: Seq::<int>::empty(),
            }));
            assert(emitted + Seq::<int>::empty() =~= emitted);
            assert(dfs_list(m, row, 0, p1, b0, *mode) == (DfsResult::Done {
                done: b_end,
                order: emitted,
            }));
        }
        let ghost out_le = out@;
        proof {
            assert(self.items@[i as int].name@ == m.names[i as int]);
        }
        match mode {
            TravelMode::Pre => {},
            TravelMode::Post => {
                out.push(self.items[i].name.clone());
            },
        }
        let ghost out2 = out@;
        self.items[i].backtraced = true;
        proof {
            let r = dfs_node(m, i as int, p0, b0, *mode);
            assert(r == (DfsResult::Done {
                done: b_end.insert(i as int),
                order: (match *mode {
                    TravelMode::Pre => seq![i as int] + emitted,
                    TravelMode::Post => emitted.push(i as int),
                }),
            }));
            assert(self.names() =~= m.names);
            assert(self.model() == m);
            assert(self.done_set() =~= b_end.insert(i as int));
            assert(self.path_set() =~= p0) by {
                assert forall|t: int| #[trigger] self.path_set().contains(t) implies p0.contains(
                    t,
                ) by {
                    assert(t != i);
                    assert(p1.contains(t));
                }
                assert forall|t: int| #[trigger] p0.contains(t) implies self.path_set().contains(
                    t,
                ) by {
                    assert(t != i);
                    assert(p1.contains(t));
                }
            }
            let nmv = m.names[i as int];
            match *mode {
                TravelMode::Pre => {
                    assert(out2 == out_le);
                    assert(names_of(seq![i as int] + emitted, m.names) =~= seq![nmv] + names_of(
                        emitted,
                        m.names,
                    ));
                    assert(names_view(out2) =~= names_view(out0) + names_of(
                        seq![i as int] + emitted,
                        m.names,
                    ));
                },
                TravelMode::Post => {
                    assert(out2 =~= out_le.push(self.items@[i as int].name));
                    assert(names_view(out2) =~= names_view(out_le).push(nmv));
                    assert(names_of(emitted.push(i as int), m.names) =~= names_of(
                        emitted,
                        m.names,
                    ).push(nmv));
                    assert(names_view(out2) =~= names_view(out0) + names_of(
                        emitted.push(i as int),
                        m.names,
                    ));
                },
            }
            assert(out0.is_prefix_of(out2)) by {
                assert(out0 =~= out2.subrange(0, out0.len() as int));
            }
            assert forall|t: int| #[trigger]
                self.undiscovered().contains(t) implies u0.contains(t) by {
                assert(!self.items@[t].discovered);
                if !u0.contains(t) {
                    assert(items1[t].discovered);
                }
            }
            assert(self.undiscovered().subset_of(u0));
            assert forall|t: int|
                0 <= t < m.n() && old(self).items@[t].discovered implies #[trigger]
                self.items@[t].discovered by {
                assert(items1[t].discovered);
            }
        }
        Ok(())
    }
}

impl ItemGraph {
    /// Travels the graph post-order from the item named `s`, returning the
    /// emitted item names dependencies-first, or the cycle error. Every
    /// traversal marker is reset before the walk, so traversals are
    /// independent of one another. An unknown root name succeeds trivially
    /// with an empty walk.
    #[verifier::loop_isolation(false)]
    pub fn travel_from(&mut self, s: &str) -> (res: Result<Vec<String>, CycleGraphError>)
        requires
            old(self).wf(),
        ensures
            final(self).wf(),
            final(self).model() == old(self).model(),
            final(self).yaml_file_path == old(self).yaml_file_path,
            match res {
                Ok(list) => traversal_names(old(self).model(), s@) == Some(names_view(list@)),
                Err(_) => traversal_names(old(self).model(), s@) is None,
            },
    {
        let ghost m = self.model();
        let n: usize = self.items.len();
        let mut idx: usize = 0;
        let mut found = false;
        let mut t: usize = 0;
        while t < n
            invariant
                0 <= t <= n,
                n == m.n(),
                self.wf(),
                self.model() == m,
                self.yaml_file_path == old(self).yaml_file_path,
                forall|u: int|
                    0 <= u < t ==> !self.items@[u].discovered && !self.items@[u].backtraced,
                found ==> idx < n && m.names[idx as int] == s@,
                !found ==> forall|u: int| 0 <= u < t ==> m.names[u] != s@,
            decreases n - t,
        {
            self.items[t].discovered = false;
            self.items[t].backtraced = false;
            if string_eq_str(&self.items[t].name, s) {
                idx = t;
                found = true;
            }
            proof {
                assert(self.names() =~= m.names);
            }
            t += 1;
        }
        proof {
            assert(self.path_set() =~= Set::<int>::empty());
            assert(self.done_set() =~= Set::<int>::empty());
        }
        if !found {
            proof {
                if m.has_name(s@) {
                    let u = choose|u: int| 0 <= u < m.names.len() && m.names[u] == s@;
                    assert(m.names[u] != s@);
                }
                assert(names_view(Seq::<String>::empty()) =~= Seq::<Seq<char>>::empty());
            }
            return Ok(Vec::new());
        }
        proof {
            lemma_index_of_unique(m, s@, idx as int);
        }
        let mut out: Vec<String> = Vec::new();
        match self.travel(idx, &mut out, &TravelMode::Post) {
            Ok(()) => {
                proof {
                    let r = dfs_node(m, idx as int, Set::empty(), Set::empty(), TravelMode::Post);
                    assert(names_view(out@) =~= names_of(r->Done_order, m.names));
                }
                Ok(out)
            },
            Err(e) => Err(e),
        }
    }

    /// Reports whether a full traversal from the (normally absent) empty
    /// name succeeds; with no item named so, this is trivially true, the
    /// graph being checked for cycles only along walked paths.
    pub fn validate(&mut self) -> (r: bool)
        requires
            old(self).wf(),
        ensures
            final(self).wf(),
            final(self).model() == old(self).model(),
            final(self).yaml_file_path == old(self).yaml_file_path,
            r == (traversal_names(old(self).model(), ""@) is Some),
    {
        match self.travel_from("") {
            Ok(_) => true,
            Err(_) => false,
        }
    }
}

/// Wrapper around the library's subset-length lemma with the finiteness
/// argument spelled out once.
proof fn lemma_len_subset_wrap(s1: Set<int>, s2: Set<int>)
    requires
        s2.finite(),
        s1.subset_of(s2),
    ensures
        s1.finite(),
        s1.len() <= s2.len(),
{
    vstd::set_lib::lemma_len_subset(s1, s2);
}

} // verus!
