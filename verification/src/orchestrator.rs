//! The boot orchestrator.
//!
//! One sequential flow: build the graph, schedule, then launch every
//! service in order, assembling target groups along the way, and finally
//! seed one registry per assembled group. The orchestrator decides; the
//! driver performs each spawn it is handed and feeds the resulting
//! capability back. A cycle or an unresolved reference is fatal before any
//! spawn is requested.

use vstd::prelude::*;
use vstd::string::StringExecFns;

use crate::cap::Capability;
use crate::errors::InitError;
use crate::graph::DependencyGraph;
use crate::manifest::ServiceConfig;
use crate::registry::RegistryConfig;
use crate::service::Service;
use crate::target::add_service_to_targets;
use crate::target::group_has;
use crate::target::groups_wf;
use crate::target::name_anywhere;
use crate::target::TargetGroup;

verus! {

/// One spawn for the driver to perform: which service, and the
/// conventional path of its executable payload in storage.
#[derive(Debug)]
pub struct SpawnPlan {
    pub name: String,
    pub executable_path: String,
}

/// One registry for the driver to spawn: its tag, its bootstrap
/// configuration, and the capabilities to attach, positionally.
#[derive(Debug)]
pub struct RegistrySeed {
    pub tag: String,
    pub config: RegistryConfig,
    pub caps: Vec<Capability>,
}

/// The conventional path of a service's executable payload.
pub fn service_path(search_dir: &String, name: &String) -> (r: String)
    ensures
        r@ == search_dir@ + "/"@ + name@ + "/service.wasm"@,
{
    let mut p = String::new();
    p.append(search_dir.as_str());
    p.append("/");
    p.append(name.as_str());
    p.append("/service.wasm");
    proof {
        assert(p@ =~= search_dir@ + "/"@ + name@ + "/service.wasm"@);
    }
    p
}

/// The conventional path of a service's manifest.
pub fn manifest_path(search_dir: &String, name: &String) -> (r: String)
    ensures
        r@ == search_dir@ + "/"@ + name@ + "/service.toml"@,
{
    let mut p = String::new();
    p.append(search_dir.as_str());
    p.append("/");
    p.append(name.as_str());
    p.append("/service.toml");
    proof {
        assert(p@ =~= search_dir@ + "/"@ + name@ + "/service.toml"@);
    }
    p
}

/// The sequential boot flow, between scheduling and registry seeding:
/// services `order[0 .. position]` are started, the rest are not, and the
/// target groups hold exactly the started services' declarations.
#[derive(Debug)]
pub struct Orchestrator {
    pub search_dir: String,
    pub graph: DependencyGraph,
    pub order: Vec<usize>,
    pub position: usize,
    pub groups: Vec<TargetGroup>,
}

impl Orchestrator {
    /// The service standing at position `p` of the start order.
    pub open spec fn service_at(self, p: int) -> Service {
        self.graph.services@[self.order@[p] as int]
    }

    /// Some already started service named `n` declared target `t` and runs
    /// under capability `c`.
    pub open spec fn assembled(self, t: Seq<char>, n: Seq<char>, c: Capability) -> bool {
        exists|p: int|
            0 <= p < self.position && (#[trigger] self.service_at(p)).name@ == n && self.service_at(
                p,
            ).config.target_tags().contains(t) && self.service_at(p).process == Some(c)
    }

    /// The orchestrator's invariant, from construction to completion.
    pub open spec fn wf(self) -> bool {
        &&& self.graph.wf()
        &&& self.graph.valid_order(self.order@)
        &&& self.position <= self.order@.len()
        &&& forall|p: int|
            0 <= p < self.position ==> (#[trigger] self.service_at(p)).process is Some
        &&& forall|p: int|
            self.position <= p < self.order@.len() ==> (#[trigger] self.service_at(p)).process
                is None
        &&& groups_wf(self.groups@)
        &&& forall|t: Seq<char>, n: Seq<char>, c: Capability|
            #[trigger] group_has(self.groups@, t, n, c) <==> self.assembled(t, n, c)
    }

    /// Whether every service of the order has been started.
    pub open spec fn done(self) -> bool {
        self.position == self.order@.len()
    }

    /// Schedule a fully built graph of not-yet-started services. Succeeds
    /// with a valid start order exactly when the graph is acyclic; on a
    /// cycle it fails before any spawn is planned, and nothing is built.
    pub fn new(graph: DependencyGraph, search_dir: String) -> (r: Result<Orchestrator, InitError>)
        requires
            graph.wf(),
            forall|i: int|
                0 <= i < graph.services@.len() ==> (#[trigger] graph.services@[i]).process is None,
        ensures
            r is Ok <==> !graph.has_cycle(),
            r matches Err(e) ==> e == InitError::DependencyCycle && graph.has_cycle(),
            r matches Ok(o) ==> {
                &&& o.wf()
                &&& o.position == 0
                &&& o.graph == graph
                &&& o.search_dir == search_dir
                &&& o.groups@.len() == 0
            },
    {
        match graph.toposort() {
            Ok(order) => {
                let o = Orchestrator { search_dir, graph, order, position: 0, groups: Vec::new() };
                proof {
                    assert forall|t: Seq<char>, n: Seq<char>, c: Capability|
                        !(#[trigger] group_has(o.groups@, t, n, c)) by {
                        if group_has(o.groups@, t, n, c) {
                            let k = choose|k: int|
                                0 <= k < o.groups@.len() && (#[trigger] o.groups@[k]).tag@ == t
                                    && o.groups@[k].has_pair(n, c);
                        }
                    }
                }
                Ok(o)
            },
            Err(e) => Err(e),
        }
    }

    /// The next spawn to perform: the first not-yet-started service of the
    /// order, with its executable path — or nothing once every service
    /// runs. The planned service is never one that already runs, so one
    /// spawn per service is ever requested.
    pub fn next_start(&self) -> (r: Option<SpawnPlan>)
        requires
            self.wf(),
        ensures
            match r {
                None => self.done(),
                Some(plan) => {
                    &&& !self.done()
                    &&& plan.name@ == self.service_at(self.position as int).name@
                    &&& self.service_at(self.position as int).process is None
                    &&& plan.executable_path@ == self.search_dir@ + "/"@ + plan.name@
                        + "/service.wasm"@
                },
            },
    {
        if self.position >= self.order.len() {
            return None;
        }
        let idx = self.order[self.position];
        let name = self.graph.services[idx].name.clone();
        let executable_path = service_path(&self.search_dir, &name);
        Some(SpawnPlan { name, executable_path })
    }

    /// The name of the service the orchestrator stands at is not yet filed
    /// in any group: only started services are, and names are unique.
    proof fn lemma_fresh_name(self)
        requires
            self.wf(),
            !self.done(),
        ensures
            !name_anywhere(self.groups@, self.service_at(self.position as int).name@),
    {
        let pos = self.position as int;
        let n = self.service_at(pos).name@;
        if name_anywhere(self.groups@, n) {
            let k = choose|k: int| 0 <= k < self.groups@.len() && (#[trigger] self.groups@[k]).has_name(n);
            let g = self.groups@[k];
            let j = choose|j: int| 0 <= j < g.members@.len() && (#[trigger] g.members@[j]).0@ == n;
            let c = g.members@[j].1;
            assert(g.has_pair(n, c));
            assert(group_has(self.groups@, g.tag@, n, c));
            assert(self.assembled(g.tag@, n, c));
            let p = choose|p: int|
                0 <= p < self.position && (#[trigger] self.service_at(p)).name@ == n
                    && self.service_at(p).config.target_tags().contains(g.tag@) && self.service_at(
                    p,
                ).process == Some(c);
            assert(self.graph.names()[self.order@[p] as int] == n);
            assert(self.graph.names()[self.order@[pos] as int] == n);
            self.graph.lemma_name_injective(
                self.order@[p] as int,
                self.order@[pos] as int,
            );
            assert(self.order@[p] == self.order@[pos]);
            assert(false);
        }
    }

    /// Record the outcome of the spawn planned for the current service:
    /// memoize its capability, file it into the group of every target tag
    /// it declares, and step to the next service of the order.
    pub fn started(&mut self, cap: Capability) -> (r: Capability)
        requires
            old(self).wf(),
            !old(self).done(),
        ensures
            final(self).wf(),
            r == cap,
            final(self).position == old(self).position + 1,
            final(self).done() <==> old(self).position + 1 == old(self).order@.len(),
            final(self).search_dir == old(self).search_dir,
            final(self).order == old(self).order,
            final(self).graph.services@ == old(self).graph.services@.update(
                old(self).order@[old(self).position as int] as int,
                final(self).service_at(old(self).position as int),
            ),
            final(self).service_at(old(self).position as int) == (Service {
                name: old(self).service_at(old(self).position as int).name,
                process: Some(cap),
                config: old(self).service_at(old(self).position as int).config,
            }),
            final(self).graph.needs == old(self).graph.needs,
            forall|t: Seq<char>, n: Seq<char>, c: Capability|
                #[trigger] group_has(final(self).groups@, t, n, c) <==> (group_has(
                    old(self).groups@,
                    t,
                    n,
                    c,
                ) || (n == old(self).service_at(old(self).position as int).name@ && old(
                    self,
                ).service_at(old(self).position as int).config.target_tags().contains(t) && c
                    == cap)),
    {
        proof {
            self.lemma_fresh_name();
        }
        let ghost prev = *self;
        let ghost pos = self.position as int;
        let idx = self.order[self.position];
        let r = self.graph.services[idx].start(cap);
        proof {
            assert(prev.service_at(pos).process is None);
            assert(r == cap);
            assert(self.graph.services@ == prev.graph.services@.update(
                idx as int,
                self.graph.services@[idx as int],
            ));
            assert(self.graph.services@[idx as int].process == Some(cap));
            assert(self.graph.names() =~= prev.graph.names());
            assert(self.graph.wf());
            assert(groups_wf(self.groups@));
            assert forall|t: Seq<char>, n: Seq<char>, c: Capability|
                #[trigger] group_has(self.groups@, t, n, c) <==> prev.assembled(t, n, c) by {}
            assert(!name_anywhere(self.groups@, self.graph.services@[idx as int].name@));
        }
        let name = self.graph.services[idx].name.clone();
        add_service_to_targets(&mut self.groups, &name, cap, &self.graph.services[idx].config.targets);
        let olen = self.order.len();
        proof {
            assert(self.position < olen);
        }
        self.position += 1;
        proof {
            let now = *self;
            let svc_new = now.service_at(pos);
            assert(svc_new == now.graph.services@[now.order@[pos] as int]);
            assert(now.order@[pos] == idx);
            // the graph is sound and the order is still valid: only one
            // service's memoized capability changed
            assert(now.graph.wf());
            assert(now.graph.valid_order(now.order@)) by {
                assert(now.graph.services@.len() == prev.graph.services@.len());
                assert forall|a: usize, b: usize| true implies (#[trigger] now.graph.edge(a, b)
                    <==> prev.graph.edge(a, b)) by {}
            }
            // started prefix, unstarted suffix
            assert forall|p: int| 0 <= p < now.position implies (#[trigger] now.service_at(
                p,
            )).process is Some by {
                if p < pos {
                    if now.order@[p] == idx {
                        assert(now.order@[p] == now.order@[pos]);
                        assert(p != pos);
                        assert(false);
                    }
                    assert(now.service_at(p) == prev.service_at(p));
                }
            }
            assert forall|p: int|
                now.position <= p < now.order@.len() implies (#[trigger] now.service_at(
                p,
            )).process is None by {
                if now.order@[p] == idx {
                    assert(now.order@[p] == now.order@[pos]);
                    assert(false);
                }
                assert(now.service_at(p) == prev.service_at(p));
            }
            // the groups hold exactly the started services' declarations
            let nm = prev.service_at(pos).name@;
            let tags = prev.service_at(pos).config.target_tags();
            assert forall|t: Seq<char>, n: Seq<char>, c: Capability|
                #[trigger] group_has(now.groups@, t, n, c) implies now.assembled(t, n, c) by {
                if group_has(prev.groups@, t, n, c) {
                    assert(prev.assembled(t, n, c));
                    let p = choose|p: int|
                        0 <= p < prev.position && (#[trigger] prev.service_at(p)).name@ == n
                            && prev.service_at(p).config.target_tags().contains(t)
                            && prev.service_at(p).process == Some(c);
                    assert(now.order@[p] != idx);
                    assert(now.service_at(p) == prev.service_at(p));
                } else {
                    assert(n == nm && tags.contains(t) && c == cap);
                    assert(now.service_at(pos).name@ == nm);
                    assert(now.service_at(pos).config.target_tags() == tags);
                    assert(now.service_at(pos).process == Some(cap));
                }
            }
            assert forall|t: Seq<char>, n: Seq<char>, c: Capability|
                now.assembled(t, n, c) implies #[trigger] group_has(now.groups@, t, n, c) by {
                let p = choose|p: int|
                    0 <= p < now.position && (#[trigger] now.service_at(p)).name@ == n
                        && now.service_at(p).config.target_tags().contains(t) && now.service_at(
                        p,
                    ).process == Some(c);
                if p < pos {
                    if now.order@[p] == idx {
                        assert(false);
                    }
                    assert(now.service_at(p) == prev.service_at(p));
                    assert(prev.assembled(t, n, c));
                    assert(group_has(prev.groups@, t, n, c));
                } else {
                    assert(p == pos);
                    assert(n == nm && tags.contains(t) && c == cap);
                }
            }
        }
        r
    }

    /// The assembled groups hold exactly the started services'
    /// declarations: a capability stands under name `n` in the group
    /// tagged `t` precisely when some already started service named `n`
    /// declared target `t` and runs under that capability — so a service
    /// appears in the groups of its own tags and in no others.
    pub proof fn lemma_groups_hold_declarations(self, t: Seq<char>, n: Seq<char>, c: Capability)
        requires
            self.wf(),
        ensures
            group_has(self.groups@, t, n, c) <==> self.assembled(t, n, c),
    {
    }

    /// After the whole order is walked, the registries to spawn: one per
    /// assembled group, seeded with that group's names and capabilities in
    /// matching positions — so every seed bootstraps successfully.
    pub fn registry_seeds(&self) -> (r: Vec<RegistrySeed>)
        requires
            self.wf(),
            self.done(),
        ensures
            r@.len() == self.groups@.len(),
            forall|k: int|
                0 <= k < r@.len() ==> #[trigger] seed_matches(r@[k], self.groups@[k]),
    {
        let mut seeds: Vec<RegistrySeed> = Vec::new();
        let glen = self.groups.len();
        let mut k: usize = 0;
        while k < glen
            invariant
                glen == self.groups@.len(),
                k <= glen,
                seeds@.len() == k,
                forall|kk: int|
                    0 <= kk < k ==> #[trigger] seed_matches(seeds@[kk], self.groups@[kk]),
            decreases glen - k,
        {
            let mlen = self.groups[k].members.len();
            let mut names: Vec<String> = Vec::new();
            let mut caps: Vec<Capability> = Vec::new();
            let mut j: usize = 0;
            while j < mlen
                invariant
                    k < self.groups@.len(),
                    mlen == self.groups@[k as int].members@.len(),
                    j <= mlen,
                    names@.len() == j,
                    caps@.len() == j,
                    forall|q: int|
                        0 <= q < j ==> (#[trigger] names@[q])
                            == self.groups@[k as int].members@[q].0 && caps@[q]
                            == self.groups@[k as int].members@[q].1,
                decreases mlen - j,
            {
                let ghost pn = names@;
                let ghost pc = caps@;
                names.push(self.groups[k].members[j].0.clone());
                caps.push(self.groups[k].members[j].1);
                proof {
                    assert(names@ == pn.push(names@[j as int]));
                    assert(caps@ == pc.push(caps@[j as int]));
                    assert(names@[j as int] == self.groups@[k as int].members@[j as int].0);
                    assert(caps@[j as int] == self.groups@[k as int].members@[j as int].1);
                    assert forall|q: int| 0 <= q < j + 1 implies (#[trigger] names@[q])
                        == self.groups@[k as int].members@[q].0 && caps@[q]
                        == self.groups@[k as int].members@[q].1 by {
                        if q < j {
                            assert(names@[q] == pn[q]);
                            assert(caps@[q] == pc[q]);
                        }
                    }
                }
                j += 1;
            }
            let tag = self.groups[k].tag.clone();
            let ghost nv = names@;
            let ghost cv = caps@;
            seeds.push(RegistrySeed { tag, config: RegistryConfig { service_names: names }, caps });
            proof {
                let kk = k as int;
                assert(seed_matches(seeds@[kk], self.groups@[kk])) by {
                    assert(seeds@[kk].config.service_names@ == nv);
                    assert(seeds@[kk].caps@ == cv);
                }
            }
            k += 1;
        }
        seeds
    }
}

/// The seed carries exactly the group's members: the same tag, and name
/// `j` beside capability `j` for every member `j`.
pub open spec fn seed_matches(seed: RegistrySeed, group: TargetGroup) -> bool {
    &&& seed.tag@ == group.tag@
    &&& seed.config.service_names@.len() == group.members@.len()
    &&& seed.caps@.len() == group.members@.len()
    &&& forall|j: int|
        0 <= j < group.members@.len() ==> (#[trigger] seed.config.service_names@[j])@
            == group.members@[j].0@ && seed.caps@[j] == group.members@[j].1
}

/// The names the loaded manifests carry, in discovery order.
pub open spec fn manifest_names(entries: Seq<(String, ServiceConfig)>) -> Seq<Seq<char>> {
    entries.map_values(|e: (String, ServiceConfig)| e.0@)
}

/// No two manifests carry the same name.
pub open spec fn manifests_distinct(entries: Seq<(String, ServiceConfig)>) -> bool {
    forall|i: int, j: int|
        0 <= i < j < entries.len() ==> manifest_names(entries)[i] != manifest_names(entries)[j]
}

/// Every name any manifest needs is itself a manifest's name.
pub open spec fn needs_resolve(entries: Seq<(String, ServiceConfig)>) -> bool {
    forall|i: int, d: Seq<char>|
        0 <= i < entries.len() && (#[trigger] entries[i].1.need_names().contains(d))
            ==> manifest_names(entries).contains(d)
}

/// Every seed the orchestrator produces bootstraps its registry: it lists
/// exactly as many names as it attaches capabilities, matched by position.
pub proof fn lemma_seed_boots(seed: RegistrySeed, group: TargetGroup)
    requires
        seed_matches(seed, group),
    ensures
        seed.config.service_names@.len() == seed.caps@.len(),
{
}

/// Build the dependency graph from the loaded manifests: one node per
/// discovered service, then one edge per `need` entry. It succeeds exactly
/// when the names are pairwise distinct and every `need` entry resolves;
/// a duplicate name or an unresolved reference is fatal, and then nothing
/// may be acted upon.
#[verifier::loop_isolation(false)]
pub fn build_graph(manifests: Vec<(String, ServiceConfig)>) -> (r: Result<
    DependencyGraph,
    InitError,
>)
    ensures
        r is Ok <==> (manifests_distinct(manifests@) && needs_resolve(manifests@)),
        r matches Ok(g) ==> {
            &&& g.wf()
            &&& g.services@.len() == manifests@.len()
            &&& forall|i: int|
                0 <= i < manifests@.len() ==> (#[trigger] g.services@[i]).name@ == manifests@[i].0@
                    && g.services@[i].config == manifests@[i].1 && g.services@[i].process is None
            &&& forall|a: usize, b: usize|
                #[trigger] g.edge(a, b) <==> (a < g.services@.len() && b < g.services@.len()
                    && g.services@[a as int].config.need_names().contains(
                    g.services@[b as int].name@,
                ))
        },
        r matches Err(e) ==> match e {
            InitError::DuplicateService { .. } => !manifests_distinct(manifests@),
            InitError::UnresolvedDependency { .. } => !needs_resolve(manifests@),
            _ => false,
        },
{
    let mut graph = DependencyGraph::new();
    let mut manifests = manifests;
    let ghost entries = manifests@;
    let count = manifests.len();
    let mut taken: usize = 0;
    // nodes first
    while taken < count
        invariant
            count == entries.len(),
            taken <= count,
            manifests@ == entries.skip(taken as int),
            graph.wf(),
            graph.services@.len() == taken,
            graph.needs@.len() == taken,
            forall|i: int|
                0 <= i < taken ==> (#[trigger] graph.services@[i]).name@ == entries[i].0@
                    && graph.services@[i].config == entries[i].1 && graph.services@[i].process
                    is None,
        decreases count - taken,
    {
        proof {
            assert(entries.skip(taken as int).len() > 0);
            assert(manifests@[0] == entries[taken as int]);
        }
        let (name, config) = manifests.remove(0);
        let ghost prev = graph;
        match graph.add_service(name, config) {
            Ok(_) => {},
            Err(e) => {
                proof {
                    // the name was already taken by an earlier manifest
                    assert(prev.names().contains(entries[taken as int].0@));
                    let i = choose|i: int|
                        0 <= i < prev.names().len() && prev.names()[i] == entries[taken as int].0@;
                    assert(prev.names()[i] == prev.services@[i].name@);
                    assert(prev.services@[i].name@ == entries[i].0@);
                    assert(manifest_names(entries)[i] == entries[i].0@);
                    assert(manifest_names(entries)[i] == manifest_names(entries)[taken as int]);
                    assert(!manifests_distinct(entries));
                }
                return Err(e);
            },
        }
        taken += 1;
        proof {
            assert(manifests@ =~= entries.skip(taken as int));
        }
    }
    // then edges
    proof {
        assert(graph.names() =~= manifest_names(entries));
    }
    let ghost built = graph;
    match graph.resolve_edges() {
        Ok(_) => {
            proof {
                assert(manifests_distinct(entries)) by {
                    assert forall|i: int, j: int|
                        0 <= i < j < entries.len() implies manifest_names(entries)[i]
                        != manifest_names(entries)[j] by {
                        assert(built.names()[i] != built.names()[j]);
                    }
                }
                assert(needs_resolve(entries)) by {
                    assert forall|i: int, d: Seq<char>|
                        0 <= i < entries.len() && (#[trigger] entries[i].1.need_names().contains(
                            d,
                        )) implies manifest_names(entries).contains(d) by {
                        assert(built.services@[i].config.need_names().contains(d));
                        assert(built.names().contains(d));
                    }
                }
            }
            Ok(graph)
        },
        Err(e) => {
            proof {
                // some manifest needs a name that no manifest carries
                let i = choose|i: int|
                    0 <= i < built.services@.len() && (#[trigger] built.services@[i]).name@
                        == e->UnresolvedDependency_service@ && built.services@[
                        i
                    ].config.need_names().contains(e->UnresolvedDependency_dependency@);
                if needs_resolve(entries) {
                    assert(entries[i].1.need_names().contains(
                        e->UnresolvedDependency_dependency@,
                    ));
                    assert(manifest_names(entries).contains(e->UnresolvedDependency_dependency@));
                    assert(built.names().contains(e->UnresolvedDependency_dependency@));
                    assert(false);
                }
            }
            Err(e)
        },
    }
}

} // verus!
