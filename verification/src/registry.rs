//! The registry actor: a long-lived lookup service over an immutable
//! name-to-capability directory.
//!
//! A registry is bootstrapped once, from a configuration listing N names
//! together with exactly N attached capabilities associated positionally;
//! a count mismatch is a fatal bootstrap error. Afterwards it answers
//! `Get` and `List` requests forever and refuses `Register`: the directory
//! never changes once bootstrapped. The driver decodes each inbound
//! request, calls `handle`, and sends the response — with the found
//! capability attached, when there is one — to the reply destination that
//! came with the request.

use vstd::prelude::*;

use crate::cap::Capability;
use crate::errors::InitError;

verus! {

/// The bootstrap configuration of one registry: the names, in the order in
/// which their capabilities are attached.
#[derive(Debug)]
pub struct RegistryConfig {
    pub service_names: Vec<String>,
}

/// One inbound registry request.
#[derive(Debug, PartialEq, Eq)]
pub enum RegistryRequest {
    /// Look one name up; the reply carries the capability if found.
    Get { name: String },
    /// Ask to publish a capability; always refused after bootstrap.
    Register { name: String },
    /// Ask for every known name.
    List,
}

/// The reply to one registry request.
#[derive(Debug, PartialEq, Eq)]
pub enum RegistryResponse {
    /// Whether the name was found; the capability rides along when it was.
    Get(bool),
    /// The directory is read-only after bootstrap: never supported.
    Register,
    /// Every known name, each exactly once.
    List(Vec<String>),
}

/// The positional directory over `names` and `caps`: name `i` owns
/// capability `i`, a later entry overriding an earlier one of equal name.
pub open spec fn dir_of(names: Seq<Seq<char>>, caps: Seq<Capability>) -> Map<Seq<char>, Capability>
    decreases names.len(),
{
    if names.len() == 0 || caps.len() == 0 {
        Map::empty()
    } else {
        dir_of(names.drop_last(), caps.drop_last()).insert(names.last(), caps.last())
    }
}

/// A live registry: the bootstrap names and capabilities, fixed for the
/// rest of the session.
#[derive(Debug)]
pub struct Registry {
    pub names: Vec<String>,
    pub caps: Vec<Capability>,
}

impl Registry {
    /// One capability per name.
    pub open spec fn wf(self) -> bool {
        self.names@.len() == self.caps@.len()
    }

    /// The bootstrap names, as they appear in contracts.
    pub open spec fn name_views(self) -> Seq<Seq<char>> {
        views_of(self.names@)
    }

    /// The directory served: name `i` owns capability `i`.
    pub open spec fn dir(self) -> Map<Seq<char>, Capability> {
        dir_of(self.name_views(), self.caps@)
    }

    /// Bootstrap a registry. Succeeds exactly when the configuration lists
    /// as many names as there are capabilities attached, and then serves
    /// them positionally; a count mismatch is fatal and builds nothing.
    pub fn boot(config: RegistryConfig, caps: Vec<Capability>) -> (r: Result<Registry, InitError>)
        ensures
            r is Ok <==> config.service_names@.len() == caps@.len(),
            r matches Ok(reg) ==> {
                &&& reg.wf()
                &&& reg.names@ == config.service_names@
                &&& reg.caps@ == caps@
            },
            r matches Err(e) ==> e matches InitError::RegistryBootstrapMismatch {
                names,
                capabilities,
            } && names == config.service_names@.len() && capabilities == caps@.len(),
    {
        if config.service_names.len() != caps.len() {
            return Err(InitError::RegistryBootstrapMismatch {
                names: config.service_names.len(),
                capabilities: caps.len(),
            });
        }
        Ok(Registry { names: config.service_names, caps })
    }

    /// The capability filed under `name`: the one attached alongside the
    /// last bootstrap entry of that name, or nothing if the name is
    /// unknown.
    pub fn get(&self, name: &String) -> (r: Option<Capability>)
        requires
            self.wf(),
        ensures
            match r {
                Some(c) => self.dir().contains_key(name@) && c == self.dir()[name@],
                None => !self.dir().contains_key(name@),
            },
    {
        let mut k = self.names.len();
        while k > 0
            invariant
                self.wf(),
                k <= self.names@.len(),
                forall|j: int|
                    k <= j < self.names@.len() ==> (#[trigger] self.name_views()[j]) != name@,
            decreases k,
        {
            k -= 1;
            if self.names[k] == *name {
                proof {
                    lemma_dir_last_match(self.name_views(), self.caps@, name@, k as int);
                }
                return Some(self.caps[k]);
            }
        }
        proof {
            lemma_dir_absent(self.name_views(), self.caps@, name@);
        }
        None
    }

    /// Every known name, each exactly once, in no promised order.
    pub fn list(&self) -> (r: Vec<String>)
        requires
            self.wf(),
        ensures
            views_of(r@).no_duplicates(),
            forall|x: Seq<char>|
                #[trigger] views_of(r@).contains(x) <==> self.dir().contains_key(x),
    {
        let mut out: Vec<String> = Vec::new();
        let len = self.names.len();
        let mut i: usize = 0;
        while i < len
            invariant
                self.wf(),
                len == self.names@.len(),
                i <= len,
                views_of(out@).no_duplicates(),
                forall|x: Seq<char>|
                    #[trigger] views_of(out@).contains(x) <==> views_prefix_has(
                        self.name_views(),
                        i as int,
                        x,
                    ),
            decreases len - i,
        {
            let ghost before = out@;
            let present = contains_string(&out, &self.names[i]);
            if !present {
                out.push(self.names[i].clone());
                proof {
                    let ov = views_of(out@);
                    let bv = views_of(before);
                    assert(ov == bv.push(self.name_views()[i as int]));
                    assert forall|j1: int, j2: int| 0 <= j1 < j2 < ov.len() implies ov[j1]
                        != ov[j2] by {
                        if j2 < bv.len() {
                            assert(bv[j1] != bv[j2]);
                        } else {
                            if bv[j1] == self.name_views()[i as int] {
                                assert(bv.contains(bv[j1]));
                            }
                        }
                    }
                }
            }
            i += 1;
            proof {
                let ov = views_of(out@);
                let bv = views_of(before);
                let x_i = self.name_views()[i - 1];
                assert(ov.contains(x_i)) by {
                    if present {
                        assert(bv.contains(x_i));
                        let j = choose|j: int| 0 <= j < bv.len() && bv[j] == x_i;
                        assert(ov[j] == x_i);
                    } else {
                        assert(ov.last() == x_i);
                    }
                }
                assert forall|x: Seq<char>| #[trigger] ov.contains(x) implies views_prefix_has(
                    self.name_views(),
                    i as int,
                    x,
                ) by {
                    if x != x_i {
                        assert(bv.contains(x)) by {
                            if present {
                                assert(out@ == before);
                                assert(ov == bv);
                            } else {
                                let j = choose|j: int| 0 <= j < ov.len() && ov[j] == x;
                                assert(ov.last() == x_i);
                                assert(j < bv.len());
                                assert(bv[j] == x);
                            }
                        }
                        assert(views_prefix_has(self.name_views(), i - 1, x));
                        let q = choose|q: int|
                            0 <= q < i - 1 && (#[trigger] self.name_views()[q]) == x;
                    } else {
                        assert(0 <= i - 1 < i && self.name_views()[i - 1] == x);
                    }
                }
                assert forall|x: Seq<char>| views_prefix_has(self.name_views(), i as int, x)
                    implies #[trigger] ov.contains(x) by {
                    let q = choose|q: int| 0 <= q < i && (#[trigger] self.name_views()[q]) == x;
                    if q < i - 1 {
                        assert(views_prefix_has(self.name_views(), i - 1, x));
                        assert(bv.contains(x));
                        if present {
                            assert(out@ == before);
                            assert(ov == bv);
                        } else {
                            let j = choose|j: int| 0 <= j < bv.len() && bv[j] == x;
                            assert(ov[j] == x);
                        }
                    }
                }
            }
        }
        proof {
            lemma_dir_dom(self.name_views(), self.caps@);
            assert forall|x: Seq<char>| views_prefix_has(self.name_views(), len as int, x)
                implies self.name_views().contains(x) by {
                let q = choose|q: int| 0 <= q < len && (#[trigger] self.name_views()[q]) == x;
            }
            assert forall|x: Seq<char>| self.name_views().contains(x) implies views_prefix_has(
                self.name_views(),
                len as int,
                x,
            ) by {
                let q = choose|q: int|
                    0 <= q < self.name_views().len() && self.name_views()[q] == x;
                assert(0 <= q < len && self.name_views()[q] == x);
            }
        }
        out
    }

    /// Answer one request. `Get` finds exactly the capability bootstrapped
    /// for the name, and attaches it, or reports not-found with nothing
    /// attached; `Register` is always unsupported; `List` names every
    /// known service exactly once. The directory itself never changes.
    pub fn handle(&self, request: &RegistryRequest) -> (r: (RegistryResponse, Option<Capability>))
        requires
            self.wf(),
        ensures
            match *request {
                RegistryRequest::Get { ref name } => {
                    &&& self.dir().contains_key(name@) ==> r == (
                        RegistryResponse::Get(true),
                        Some(self.dir()[name@]),
                    )
                    &&& !self.dir().contains_key(name@) ==> r == (
                        RegistryResponse::Get(false),
                        None::<Capability>,
                    )
                },
                RegistryRequest::Register { .. } => r == (
                    RegistryResponse::Register,
                    None::<Capability>,
                ),
                RegistryRequest::List => {
                    &&& r.1 is None
                    &&& r.0 matches RegistryResponse::List(ns) && views_of(ns@).no_duplicates()
                        && forall|x: Seq<char>|
                        #[trigger] views_of(ns@).contains(x) <==> self.dir().contains_key(x)
                },
            },
    {
        match request {
            RegistryRequest::Get { name } => {
                match self.get(name) {
                    Some(cap) => (RegistryResponse::Get(true), Some(cap)),
                    None => (RegistryResponse::Get(false), None),
                }
            },
            RegistryRequest::Register { .. } => (RegistryResponse::Register, None),
            RegistryRequest::List => (RegistryResponse::List(self.list()), None),
        }
    }
}

/// The names of `v`, as they appear in contracts.
pub open spec fn views_of(v: Seq<String>) -> Seq<Seq<char>> {
    v.map_values(|s: String| s@)
}

/// Some entry among the first `j` of `views` reads `x`.
pub open spec fn views_prefix_has(views: Seq<Seq<char>>, j: int, x: Seq<char>) -> bool {
    exists|q: int| 0 <= q < j && (#[trigger] views[q]) == x
}

/// Whether some entry of `v` reads `s`.
fn contains_string(v: &Vec<String>, s: &String) -> (r: bool)
    ensures
        r == views_of(v@).contains(s@),
{
    let len = v.len();
    let mut i: usize = 0;
    while i < len
        invariant
            len == v@.len(),
            i <= len,
            forall|j: int| 0 <= j < i ==> (#[trigger] v@[j])@ != s@,
        decreases len - i,
    {
        if v[i] == *s {
            proof {
                assert(views_of(v@)[i as int] == s@);
            }
            return true;
        }
        i += 1;
    }
    false
}

/// The last bootstrap entry of a name decides its capability.
proof fn lemma_dir_last_match(names: Seq<Seq<char>>, caps: Seq<Capability>, x: Seq<char>, k: int)
    requires
        names.len() == caps.len(),
        0 <= k < names.len(),
        names[k] == x,
        forall|j: int| k < j < names.len() ==> (#[trigger] names[j]) != x,
    ensures
        dir_of(names, caps).contains_key(x),
        dir_of(names, caps)[x] == caps[k],
    decreases names.len(),
{
    if k == names.len() - 1 {
    } else {
        assert(names.last() != x);
        lemma_dir_last_match(names.drop_last(), caps.drop_last(), x, k);
    }
}

/// A name in no bootstrap entry is not in the directory.
proof fn lemma_dir_absent(names: Seq<Seq<char>>, caps: Seq<Capability>, x: Seq<char>)
    requires
        names.len() == caps.len(),
        forall|j: int| 0 <= j < names.len() ==> (#[trigger] names[j]) != x,
    ensures
        !dir_of(names, caps).contains_key(x),
    decreases names.len(),
{
    if names.len() > 0 {
        lemma_dir_absent(names.drop_last(), caps.drop_last(), x);
    }
}

/// With pairwise distinct bootstrap names — as every assembled group has —
/// the directory binds each name to the capability attached at the very
/// same position.
pub proof fn lemma_dir_positional(names: Seq<Seq<char>>, caps: Seq<Capability>, j: int)
    requires
        names.len() == caps.len(),
        forall|a: int, b: int| 0 <= a < b < names.len() ==> names[a] != names[b],
        0 <= j < names.len(),
    ensures
        dir_of(names, caps).contains_key(names[j]),
        dir_of(names, caps)[names[j]] == caps[j],
{
    assert forall|j2: int| j < j2 < names.len() implies names[j2] != names[j] by {
        assert(names[j] != names[j2]);
    }
    lemma_dir_last_match(names, caps, names[j], j);
}

/// The directory knows exactly the bootstrap names.
pub proof fn lemma_dir_dom(names: Seq<Seq<char>>, caps: Seq<Capability>)
    requires
        names.len() == caps.len(),
    ensures
        forall|x: Seq<char>| #[trigger] dir_of(names, caps).contains_key(x) <==> names.contains(x),
    decreases names.len(),
{
    if names.len() > 0 {
        lemma_dir_dom(names.drop_last(), caps.drop_last());
        let rest = dir_of(names.drop_last(), caps.drop_last());
        assert(dir_of(names, caps) == rest.insert(names.last(), caps.last()));
        assert forall|x: Seq<char>| #[trigger] dir_of(names, caps).contains_key(x)
            implies names.contains(x) by {
            if x == names.last() {
                assert(names[names.len() - 1] == x);
            } else {
                assert(rest.contains_key(x));
                assert(names.drop_last().contains(x));
                let q = choose|q: int|
                    0 <= q < names.drop_last().len() && names.drop_last()[q] == x;
                assert(names[q] == x);
            }
        }
        assert forall|x: Seq<char>| names.contains(x) implies #[trigger] dir_of(
            names,
            caps,
        ).contains_key(x) by {
            let q = choose|q: int| 0 <= q < names.len() && names[q] == x;
            if q < names.len() - 1 {
                assert(names.drop_last()[q] == x);
                assert(names.drop_last().contains(x));
                assert(rest.contains_key(x));
            }
        }
    }
}

} // verus!
