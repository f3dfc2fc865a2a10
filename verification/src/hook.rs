//! The hook dispatcher.
//!
//! After every registry exists, each well-known hook service is looked up
//! through discovery; when both the hook and the registry assembled under
//! the matching tag exist, the registry's capability is sent to the hook.
//! Every attempt is independent and best-effort: an absent hook or an
//! absent registry is skipped, never an error.

use vstd::prelude::*;
use vstd::string::StringExecFns;

use crate::cap::Capability;

verus! {

/// One well-known hook: the target tag it consumes, and the logical name
/// under which discovery resolves it.
#[derive(Debug)]
pub struct HookBinding {
    pub target: String,
    pub service: String,
}

/// One delivery for the driver to perform: send `registry` to `hook` as
/// the message's only attached capability.
#[derive(Clone, Copy, PartialEq, Eq, Structural, Debug)]
pub struct HookSend {
    pub hook: Capability,
    pub registry: Capability,
}

/// The fixed set of well-known hooks, in dispatch order.
pub fn hook_bindings() -> (r: Vec<HookBinding>)
    ensures
        r@.len() == 3,
        r@[0].target@ == "server"@ && r@[0].service@ == "hearth.init.Server"@,
        r@[1].target@ == "client"@ && r@[1].service@ == "hearth.init.Client"@,
        r@[2].target@ == "daemon"@ && r@[2].service@ == "hearth.init.Daemon"@,
{
    let mut r: Vec<HookBinding> = Vec::new();
    r.push(HookBinding {
        target: String::from_str("server"),
        service: String::from_str("hearth.init.Server"),
    });
    r.push(HookBinding {
        target: String::from_str("client"),
        service: String::from_str("hearth.init.Client"),
    });
    r.push(HookBinding {
        target: String::from_str("daemon"),
        service: String::from_str("hearth.init.Daemon"),
    });
    r
}

/// Decide one hook attempt: a delivery happens exactly when discovery
/// resolved the hook and a registry was assembled under its tag, and then
/// the hook is sent precisely that registry's capability. Anything less is
/// a skip, not an error.
pub fn dispatch_hook(hook: Option<Capability>, registry: Option<Capability>) -> (r: Option<
    HookSend,
>)
    ensures
        r is Some <==> (hook is Some && registry is Some),
        r matches Some(send) ==> hook == Some(send.hook) && registry == Some(send.registry),
{
    match (hook, registry) {
        (Some(h), Some(g)) => Some(HookSend { hook: h, registry: g }),
        _ => None,
    }
}

/// The registry spawned under `tag`, among the tagged registry
/// capabilities the driver collected; tags are unique, as the assembler
/// guarantees.
pub fn find_registry(registries: &Vec<(String, Capability)>, tag: &String) -> (r: Option<
    Capability,
>)
    requires
        forall|j1: int, j2: int|
            0 <= j1 < j2 < registries@.len() ==> (#[trigger] registries@[j1]).0@ != (
            #[trigger] registries@[j2]).0@,
    ensures
        match r {
            Some(c) => exists|j: int|
                0 <= j < registries@.len() && (#[trigger] registries@[j]).0@ == tag@
                    && registries@[j].1 == c,
            None => forall|j: int| 0 <= j < registries@.len() ==> (#[trigger] registries@[j]).0@ != tag@,
        },
{
    let len = registries.len();
    let mut j: usize = 0;
    while j < len
        invariant
            len == registries@.len(),
            j <= len,
            forall|q: int| 0 <= q < j ==> (#[trigger] registries@[q]).0@ != tag@,
        decreases len - j,
    {
        if registries[j].0 == *tag {
            return Some(registries[j].1);
        }
        j += 1;
    }
    None
}

} // verus!
