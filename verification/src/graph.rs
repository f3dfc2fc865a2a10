//! The dependency graph and the start-order scheduler.
//!
//! Services reference each other only by name, so the graph is an arena of
//! nodes addressed by stable indices, with one adjacency row per node. An
//! edge from `a` to `b` means "`a` needs `b`". The graph is built completely
//! — every node added, every `need` entry resolved — before anything is
//! spawned; an unresolved reference or a cycle aborts orchestration with
//! nothing launched.

use vstd::prelude::*;

use crate::errors::InitError;
use crate::manifest::ServiceConfig;
use crate::service::Service;

verus! {

/// A directed graph over discovered services. `needs[i]` lists the indices
/// of the services that `services[i]` needs.
#[derive(Debug)]
pub struct DependencyGraph {
    pub services: Vec<Service>,
    pub needs: Vec<Vec<usize>>,
}

impl DependencyGraph {
    /// The service names, by node index.
    pub open spec fn names(self) -> Seq<Seq<char>> {
        self.services@.map_values(|s: Service| s.name@)
    }

    /// No two nodes carry the same name: a name identifies one service.
    pub open spec fn names_distinct(self) -> bool {
        forall|i: int, j: int|
            0 <= i < j < self.names().len() ==> self.names()[i] != self.names()[j]
    }

    /// Structural soundness: one adjacency row per node, every row entry a
    /// valid node index, and names unique.
    pub open spec fn wf(self) -> bool {
        &&& self.needs@.len() == self.services@.len()
        &&& forall|i: int, k: int|
            0 <= i < self.needs@.len() && 0 <= k < self.needs@[i]@.len() ==> (
            #[trigger] self.needs@[i]@[k]) < self.services@.len()
        &&& self.names_distinct()
    }

    /// "`services[a]` needs `services[b]`".
    pub open spec fn edge(self, a: usize, b: usize) -> bool {
        &&& a < self.needs@.len()
        &&& self.needs@[a as int]@.contains(b)
    }

    /// An empty graph.
    pub fn new() -> (g: DependencyGraph)
        ensures
            g.wf(),
            g.services@.len() == 0,
            g.needs@.len() == 0,
    {
        DependencyGraph { services: Vec::new(), needs: Vec::new() }
    }

    /// The index of the node named `name`, if one exists.
    pub fn find_index(&self, name: &String) -> (r: Option<usize>)
        ensures
            match r {
                Some(i) => i < self.services@.len() && self.services@[i as int].name@ == name@,
                None => !self.names().contains(name@),
            },
    {
        let n = self.services.len();
        let mut k: usize = 0;
        while k < n
            invariant
                n == self.services@.len(),
                k <= n,
                forall|j: int| 0 <= j < k ==> self.services@[j].name@ != name@,
            decreases n - k,
        {
            if self.services[k].name == *name {
                return Some(k);
            }
            k += 1;
        }
        assert(forall|j: int| 0 <= j < self.names().len() ==> self.names()[j] != name@);
        None
    }

    /// Add one discovered service as a new node with no edges yet. Fails if
    /// the name is already taken: a name is the identity of a service.
    pub fn add_service(&mut self, name: String, config: ServiceConfig) -> (r: Result<
        usize,
        InitError,
    >)
        requires
            old(self).wf(),
        ensures
            final(self).wf(),
            old(self).names().contains(name@) ==> {
                &&& r == Err::<usize, InitError>((InitError::DuplicateService { name }))
                &&& *final(self) == *old(self)
            },
            !old(self).names().contains(name@) ==> {
                &&& r is Ok
                &&& r->Ok_0 == old(self).services@.len()
                &&& final(self).services@ == old(self).services@.push(
                    (Service { name, process: None, config }),
                )
                &&& final(self).needs@.len() == old(self).needs@.len() + 1
                &&& forall|i: int|
                    0 <= i < old(self).needs@.len() ==> final(self).needs@[i] == old(
                        self,
                    ).needs@[i]
                &&& final(self).needs@.last()@.len() == 0
            },
    {
        match self.find_index(&name) {
            Some(i) => {
                proof {
                    assert(self.names()[i as int] == name@);
                }
                return Err(InitError::DuplicateService { name });
            },
            None => {},
        }
        let idx = self.services.len();
        self.services.push(Service::new(name, config));
        self.needs.push(Vec::new());
        proof {
            assert forall|i: int, j: int| 0 <= i < j < self.names().len() implies self.names()[i]
                != self.names()[j] by {
                if j < self.names().len() - 1 {
                    assert(old(self).names()[i] != old(self).names()[j]);
                } else {
                    assert(self.names()[j] == old(self).services@.push(
                        self.services@.last(),
                    ).last().name@);
                    assert(old(self).names().contains(old(self).names()[i]));
                }
            }
        }
        Ok(idx)
    }
    /// Distinct nodes carry distinct names, so a name picks out at most one
    /// node index.
    pub proof fn lemma_name_injective(self, a: int, b: int)
        requires
            self.names_distinct(),
            0 <= a < self.names().len(),
            0 <= b < self.names().len(),
            self.names()[a] == self.names()[b],
        ensures
            a == b,
    {
        if a < b {
            assert(self.names()[a] != self.names()[b]);
        } else if b < a {
            assert(self.names()[b] != self.names()[a]);
        }
    }

    /// `row` resolves, entry for entry, the `need` list of node `x`.
    pub open spec fn row_resolves(self, x: int, row: Seq<usize>) -> bool {
        &&& row.len() == self.services@[x].config.dependencies.need@.len()
        &&& forall|k: int|
            0 <= k < row.len() ==> (#[trigger] row[k]) < self.services@.len()
                && self.services@[x].config.dependencies.need@[k]@
                == self.services@[row[k] as int].name@
    }

    /// Resolve every `need` entry of every node to an edge. Fails, leaving
    /// the graph untouched, if any entry names an undiscovered service; on
    /// success the edges are exactly the declared `need` relationships.
    pub fn resolve_edges(&mut self) -> (r: Result<(), InitError>)
        requires
            old(self).wf(),
        ensures
            final(self).wf(),
            r is Err ==> *final(self) == *old(self),
            r matches Err(e) ==> e matches InitError::UnresolvedDependency {
                service,
                dependency,
            } && !old(self).names().contains(dependency@) && exists|i: int|
                0 <= i < old(self).services@.len() && (#[trigger] old(
                    self,
                ).services@[i]).name@ == service@ && old(
                    self,
                ).services@[i].config.need_names().contains(dependency@),
            r is Ok ==> {
                &&& final(self).services@ == old(self).services@
                &&& forall|a: usize, b: usize|
                    #[trigger] final(self).edge(a, b) <==> (a < old(self).services@.len() && b
                        < old(self).services@.len() && old(
                        self,
                    ).services@[a as int].config.need_names().contains(old(
                        self,
                    ).services@[b as int].name@))
            },
            r is Ok ==> forall|i: int, d: Seq<char>|
                0 <= i < old(self).services@.len() && #[trigger] old(
                    self,
                ).services@[i].config.need_names().contains(d) ==> old(self).names().contains(d),
    {
        let n = self.services.len();
        let mut rows: Vec<Vec<usize>> = Vec::new();
        let mut i: usize = 0;
        while i < n
            invariant
                self == old(self),
                self.wf(),
                n == self.services@.len(),
                i <= n,
                rows@.len() == i,
                forall|x: int| 0 <= x < i ==> self.row_resolves(x, #[trigger] rows@[x]@),
            decreases n - i,
        {
            let deps_len = self.services[i].config.dependencies.need.len();
            let mut row: Vec<usize> = Vec::new();
            let mut k: usize = 0;
            while k < deps_len
                invariant
                    self == old(self),
                    self.wf(),
                    n == self.services@.len(),
                    i < n,
                    deps_len == self.services@[i as int].config.dependencies.need@.len(),
                    k <= deps_len,
                    row@.len() == k,
                    forall|q: int|
                        0 <= q < k ==> (#[trigger] row@[q]) < n
                            && self.services@[i as int].config.dependencies.need@[q]@
                            == self.services@[row@[q] as int].name@,
                decreases deps_len - k,
            {
                let dep = &self.services[i].config.dependencies.need[k];
                match self.find_index(dep) {
                    Some(j) => {
                        row.push(j);
                    },
                    None => {
                        proof {
                            assert(self.services@[i as int].config.need_names()[k as int]
                                == dep@);
                            assert(self.services@[i as int].config.need_names().contains(dep@));
                        }
                        let service = self.services[i].name.clone();
                        let dependency = self.services[i].config.dependencies.need[k].clone();
                        return Err(InitError::UnresolvedDependency { service, dependency });
                    },
                }
                k += 1;
            }
            rows.push(row);
            i += 1;
        }
        self.needs = rows;
        proof {
            assert(self.services@ == old(self).services@);
            assert(self.names() == old(self).names());
            assert(self.names_distinct());
            assert forall|ii: int, kk: int|
                0 <= ii < self.needs@.len() && 0 <= kk < self.needs@[ii]@.len() implies (
            self.needs@[ii]@[kk]) < self.services@.len() by {
                assert(self.row_resolves(ii, self.needs@[ii]@));
                assert(self.needs@[ii]@[kk] < self.services@.len());
            }
            assert forall|a: usize, b: usize| #[trigger] self.edge(a, b) implies (a
                < self.services@.len() && b < self.services@.len()
                && self.services@[a as int].config.need_names().contains(
                self.services@[b as int].name@,
            )) by {
                if self.edge(a, b) {
                    let row = self.needs@[a as int]@;
                    let k = choose|k: int| 0 <= k < row.len() && row[k] == b;
                    assert(self.services@[a as int].config.need_names()[k]
                        == self.services@[b as int].name@);
                }
            }
            assert forall|a: usize, b: usize|
                a < self.services@.len() && b < self.services@.len()
                    && self.services@[a as int].config.need_names().contains(
                    self.services@[b as int].name@,
                ) implies #[trigger] self.edge(a, b) by {
                let nn = self.services@[a as int].config.need_names();
                let k = choose|k: int| 0 <= k < nn.len() && nn[k] == self.services@[b as int].name@;
                let row = self.needs@[a as int]@;
                let j = row[k];
                assert(self.services@[a as int].config.dependencies.need@[k]@
                    == self.services@[j as int].name@);
                assert(self.names()[j as int] == self.names()[b as int]);
                self.lemma_name_injective(j as int, b as int);
                assert(row.contains(b));
            }
            assert forall|i0: int, d: Seq<char>|
                0 <= i0 < self.services@.len()
                    && #[trigger] self.services@[i0].config.need_names().contains(
                    d,
                ) implies self.names().contains(d) by {
                let nn = self.services@[i0].config.need_names();
                let k = choose|k: int| 0 <= k < nn.len() && nn[k] == d;
                let row = self.needs@[i0]@;
                let j = row[k];
                assert(self.names()[j as int] == d);
            }
        }
        Ok(())
    }
}

} // verus!
