//! Assembling target groups.
//!
//! While the start order is walked, every started service is filed, under
//! its own name, into one group per target tag it declares. A group comes
//! into being with its first member, so no empty group ever exists, and
//! group tags stay pairwise distinct.

use vstd::prelude::*;

use crate::cap::Capability;

verus! {

/// One named group of started services: the services that opted into one
/// target tag, each under its own name with its capability.
#[derive(Debug)]
pub struct TargetGroup {
    pub tag: String,
    pub members: Vec<(String, Capability)>,
}

impl TargetGroup {
    /// The group files `n` with capability `c`.
    pub open spec fn has_pair(self, n: Seq<char>, c: Capability) -> bool {
        exists|j: int|
            0 <= j < self.members@.len() && (#[trigger] self.members@[j]).0@ == n
                && self.members@[j].1 == c
    }

    /// The group files some capability under `n`.
    pub open spec fn has_name(self, n: Seq<char>) -> bool {
        exists|j: int| 0 <= j < self.members@.len() && (#[trigger] self.members@[j]).0@ == n
    }

    /// Nonempty, and one entry per member name.
    pub open spec fn wf(self) -> bool {
        &&& self.members@.len() >= 1
        &&& forall|j1: int, j2: int|
            0 <= j1 < j2 < self.members@.len() ==> (#[trigger] self.members@[j1]).0@ != (
            #[trigger] self.members@[j2]).0@
    }

    /// Whether the group files some capability under `name`.
    pub fn contains_name(&self, name: &String) -> (r: bool)
        ensures
            r == self.has_name(name@),
    {
        let mut j: usize = 0;
        let len = self.members.len();
        while j < len
            invariant
                len == self.members@.len(),
                j <= len,
                forall|q: int| 0 <= q < j ==> (#[trigger] self.members@[q]).0@ != name@,
            decreases len - j,
        {
            if self.members[j].0 == *name {
                return true;
            }
            j += 1;
        }
        false
    }
}

/// Group tags are pairwise distinct and every group is well formed.
pub open spec fn groups_wf(groups: Seq<TargetGroup>) -> bool {
    &&& forall|k1: int, k2: int|
        0 <= k1 < k2 < groups.len() ==> (#[trigger] groups[k1]).tag@ != (
        #[trigger] groups[k2]).tag@
    &&& forall|k: int| 0 <= k < groups.len() ==> (#[trigger] groups[k]).wf()
}

/// Some group carries the tag `t`.
pub open spec fn has_tag(groups: Seq<TargetGroup>, t: Seq<char>) -> bool {
    exists|k: int| 0 <= k < groups.len() && (#[trigger] groups[k]).tag@ == t
}

/// The group tagged `t` files `n` with capability `c`.
pub open spec fn group_has(groups: Seq<TargetGroup>, t: Seq<char>, n: Seq<char>, c: Capability) -> bool {
    exists|k: int|
        0 <= k < groups.len() && (#[trigger] groups[k]).tag@ == t && groups[k].has_pair(n, c)
}

/// The group tagged `t` files some capability under `n`.
pub open spec fn name_in_tag(groups: Seq<TargetGroup>, t: Seq<char>, n: Seq<char>) -> bool {
    exists|k: int|
        0 <= k < groups.len() && (#[trigger] groups[k]).tag@ == t && groups[k].has_name(n)
}

/// Some group files some capability under `n`.
pub open spec fn name_anywhere(groups: Seq<TargetGroup>, n: Seq<char>) -> bool {
    exists|k: int| 0 <= k < groups.len() && (#[trigger] groups[k]).has_name(n)
}

/// The index of the group tagged `tag`, if one exists.
pub fn find_group(groups: &Vec<TargetGroup>, tag: &String) -> (r: Option<usize>)
    ensures
        match r {
            Some(k) => k < groups@.len() && groups@[k as int].tag@ == tag@,
            None => !has_tag(groups@, tag@),
        },
{
    let mut k: usize = 0;
    let len = groups.len();
    while k < len
        invariant
            len == groups@.len(),
            k <= len,
            forall|q: int| 0 <= q < k ==> (#[trigger] groups@[q]).tag@ != tag@,
        decreases len - k,
    {
        if groups[k].tag == *tag {
            return Some(k);
        }
        k += 1;
    }
    None
}

/// File `name` with capability `cap` under the tag `tag`: into the existing
/// group with that tag, or into a fresh group if the tag is new. The name
/// must not already stand in that group.
pub fn insert_member(groups: &mut Vec<TargetGroup>, tag: &String, name: &String, cap: Capability)
    requires
        groups_wf(old(groups)@),
        !name_in_tag(old(groups)@, tag@, name@),
    ensures
        groups_wf(final(groups)@),
        forall|t: Seq<char>, n: Seq<char>, c: Capability|
            group_has(final(groups)@, t, n, c) <==> (group_has(old(groups)@, t, n, c) || (t == tag@
                && n == name@ && c == cap)),
        forall|t: Seq<char>, n: Seq<char>|
            name_in_tag(final(groups)@, t, n) <==> (name_in_tag(old(groups)@, t, n) || (t == tag@
                && n == name@)),
        forall|n: Seq<char>|
            name_anywhere(final(groups)@, n) <==> (name_anywhere(old(groups)@, n) || n == name@),
        forall|t: Seq<char>| has_tag(final(groups)@, t) <==> (has_tag(old(groups)@, t) || t == tag@),
{
    let ghost before = groups@;
    match find_group(groups, tag) {
        Some(k) => {
            let entry = (name.clone(), cap);
            groups[k].members.push(entry);
            proof {
                let after = groups@;
                let gnew = after[k as int];
                let gold = before[k as int];
                assert(gnew.members@ == gold.members@.push((entry.0, entry.1)));
                assert(after == before.update(k as int, gnew));
                assert(entry.0@ == name@);
                lemma_member_pushed(before, after, k as int, name@, cap);
            }
        },
        None => {
            let mut members: Vec<(String, Capability)> = Vec::new();
            members.push((name.clone(), cap));
            let fresh = TargetGroup { tag: tag.clone(), members };
            groups.push(fresh);
            proof {
                let after = groups@;
                assert(after == before.push(after.last()));
                assert(after.last().tag@ == tag@);
                assert(after.last().members@.len() == 1);
                assert(after.last().members@[0].0@ == name@ && after.last().members@[0].1 == cap);
                lemma_group_pushed(before, after, tag@, name@, cap);
            }
        },
    }
}

/// Some entry among the first `j` of `tags` reads `t`.
pub open spec fn prefix_has(tags: Seq<String>, j: int, t: Seq<char>) -> bool {
    exists|q: int| 0 <= q < j && (#[trigger] tags[q])@ == t
}

/// Extending the prefix by one entry extends what it reads by that entry.
proof fn lemma_prefix_extend(tags: Seq<String>, j: int, t: Seq<char>)
    requires
        0 <= j < tags.len(),
    ensures
        prefix_has(tags, j + 1, t) <==> (prefix_has(tags, j, t) || tags[j]@ == t),
{
    if prefix_has(tags, j + 1, t) {
        let q = choose|q: int| 0 <= q < j + 1 && (#[trigger] tags[q])@ == t;
        if q < j {
            assert(prefix_has(tags, j, t));
        }
    }
    if prefix_has(tags, j, t) {
        let q = choose|q: int| 0 <= q < j && (#[trigger] tags[q])@ == t;
        assert(0 <= q < j + 1 && tags[q]@ == t);
    }
    if tags[j]@ == t {
        assert(0 <= j < j + 1 && tags[j]@ == t);
    }
}

/// The whole of `tags` reads exactly its entries' views.
proof fn lemma_prefix_whole(tags: Seq<String>, t: Seq<char>)
    ensures
        prefix_has(tags, tags.len() as int, t) <==> tags.map_values(|s: String| s@).contains(t),
{
    let view_tags = tags.map_values(|s: String| s@);
    if prefix_has(tags, tags.len() as int, t) {
        let q = choose|q: int| 0 <= q < tags.len() && (#[trigger] tags[q])@ == t;
        assert(view_tags[q] == t);
    }
    if view_tags.contains(t) {
        let q = choose|q: int| 0 <= q < view_tags.len() && view_tags[q] == t;
        assert(tags[q]@ == t);
    }
}

/// Whether the group tagged `tag`, if any, already files `name`.
pub fn name_filed_under(groups: &Vec<TargetGroup>, tag: &String, name: &String) -> (r: bool)
    requires
        groups_wf(groups@),
    ensures
        r == name_in_tag(groups@, tag@, name@),
{
    match find_group(groups, tag) {
        Some(g) => {
            let r = groups[g].contains_name(name);
            proof {
                if r {
                    assert(groups@[g as int].tag@ == tag@ && groups@[g as int].has_name(name@));
                }
                if !r && name_in_tag(groups@, tag@, name@) {
                    let g2 = choose|g2: int|
                        0 <= g2 < groups@.len() && (#[trigger] groups@[g2]).tag@ == tag@
                            && groups@[g2].has_name(name@);
                    if g2 < g as int {
                        assert(groups@[g2].tag@ != groups@[g as int].tag@);
                    } else if g2 > g as int {
                        assert(groups@[g as int].tag@ != groups@[g2].tag@);
                    }
                    assert(false);
                }
            }
            r
        },
        None => {
            proof {
                if name_in_tag(groups@, tag@, name@) {
                    let g2 = choose|g2: int|
                        0 <= g2 < groups@.len() && (#[trigger] groups@[g2]).tag@ == tag@
                            && groups@[g2].has_name(name@);
                    assert(has_tag(groups@, tag@));
                }
            }
            false
        },
    }
}

/// File one started service into the group of every target tag it
/// declares. The service ends up, under its own name with its capability,
/// in exactly the groups of its declared tags and in no others; every
/// other name's memberships are left untouched. A tag listed twice is
/// filed once.
pub fn add_service_to_targets(
    groups: &mut Vec<TargetGroup>,
    name: &String,
    cap: Capability,
    tags: &Vec<String>,
)
    requires
        groups_wf(old(groups)@),
        !name_anywhere(old(groups)@, name@),
    ensures
        groups_wf(final(groups)@),
        forall|t: Seq<char>, c: Capability|
            group_has(final(groups)@, t, name@, c) <==> (tags@.map_values(|s: String| s@).contains(
                t,
            ) && c == cap),
        forall|t: Seq<char>, n: Seq<char>, c: Capability|
            n != name@ ==> (group_has(final(groups)@, t, n, c) <==> group_has(
                old(groups)@,
                t,
                n,
                c,
            )),
        forall|t: Seq<char>, n: Seq<char>|
            n != name@ ==> (name_in_tag(final(groups)@, t, n) <==> name_in_tag(old(groups)@, t, n)),
        forall|n: Seq<char>|
            name_anywhere(final(groups)@, n) <==> (name_anywhere(old(groups)@, n) || (n == name@
                && tags@.len() > 0)),
        forall|t: Seq<char>|
            has_tag(final(groups)@, t) <==> (has_tag(old(groups)@, t) || tags@.map_values(
                |s: String| s@,
            ).contains(t)),
{
    let ghost start = old(groups)@;
    let len = tags.len();
    let mut k: usize = 0;
    while k < len
        invariant
            len == tags@.len(),
            k <= len,
            groups_wf(groups@),
            forall|t: Seq<char>, c: Capability|
                group_has(groups@, t, name@, c) <==> (prefix_has(tags@, k as int, t) && c == cap),
            forall|t: Seq<char>| name_in_tag(groups@, t, name@) <==> prefix_has(tags@, k as int, t),
            forall|t: Seq<char>, n: Seq<char>, c: Capability|
                n != name@ ==> (group_has(groups@, t, n, c) <==> group_has(start, t, n, c)),
            forall|t: Seq<char>, n: Seq<char>|
                n != name@ ==> (name_in_tag(groups@, t, n) <==> name_in_tag(start, t, n)),
            forall|n: Seq<char>|
                name_anywhere(groups@, n) <==> (name_anywhere(start, n) || (n == name@ && k > 0)),
            forall|t: Seq<char>|
                has_tag(groups@, t) <==> (has_tag(start, t) || prefix_has(tags@, k as int, t)),
        decreases len - k,
    {
        let ghost j = k as int;
        let tag = &tags[k];
        proof {
            assert forall|t: Seq<char>| true implies (#[trigger] prefix_has(tags@, j + 1, t) <==> (
            prefix_has(tags@, j, t) || tags@[j]@ == t)) by {
                lemma_prefix_extend(tags@, j, t);
            }
        }
        if name_filed_under(groups, tag, name) {
            proof {
                assert(prefix_has(tags@, j, tag@));
                assert forall|t: Seq<char>, c: Capability|
                    true implies (#[trigger] group_has(groups@, t, name@, c) <==> (prefix_has(
                    tags@,
                    j + 1,
                    t,
                ) && c == cap)) by {
                    if prefix_has(tags@, j + 1, t) && !prefix_has(tags@, j, t) {
                        assert(t == tag@);
                    }
                }
                assert forall|t: Seq<char>|
                    true implies (#[trigger] name_in_tag(groups@, t, name@) <==> prefix_has(
                    tags@,
                    j + 1,
                    t,
                )) by {
                    if prefix_has(tags@, j + 1, t) && !prefix_has(tags@, j, t) {
                        assert(t == tag@);
                    }
                }
            }
        } else {
            insert_member(groups, tag, name, cap);
            proof {
                assert(prefix_has(tags@, j + 1, tag@)) by {
                    assert(0 <= j < j + 1 && tags@[j]@ == tag@);
                }
            }
        }
        k += 1;
    }
    proof {
        assert forall|t: Seq<char>| true implies (#[trigger] prefix_has(tags@, len as int, t) <==> tags@.map_values(
            |s: String| s@,
        ).contains(t)) by {
            lemma_prefix_whole(tags@, t);
        }
    }
}

/// What membership looks like after a member is pushed onto group `k`.
proof fn lemma_member_pushed(
    before: Seq<TargetGroup>,
    after: Seq<TargetGroup>,
    k: int,
    name: Seq<char>,
    cap: Capability,
)
    requires
        groups_wf(before),
        0 <= k < before.len(),
        !before[k].has_name(name),
        after == before.update(k, after[k]),
        after.len() == before.len(),
        after[k].tag@ == before[k].tag@,
        after[k].members@ == before[k].members@.push(after[k].members@.last()),
        after[k].members@.last().0@ == name,
        after[k].members@.last().1 == cap,
    ensures
        groups_wf(after),
        forall|t: Seq<char>, n: Seq<char>, c: Capability|
            group_has(after, t, n, c) <==> (group_has(before, t, n, c) || (t == before[k].tag@ && n
                == name && c == cap)),
        forall|t: Seq<char>, n: Seq<char>|
            name_in_tag(after, t, n) <==> (name_in_tag(before, t, n) || (t == before[k].tag@ && n
                == name)),
        forall|n: Seq<char>|
            name_anywhere(after, n) <==> (name_anywhere(before, n) || n == name),
        forall|t: Seq<char>| has_tag(after, t) <==> (has_tag(before, t) || t == before[k].tag@),
{
    let tag = before[k].tag@;
    let gold = before[k];
    let gnew = after[k];
    let mlen = gold.members@.len() as int;
    assert(gnew.members@.len() == mlen + 1);
    assert forall|j: int| 0 <= j < mlen implies gnew.members@[j] == gold.members@[j] by {}
    // each group's well-formedness
    assert(gnew.wf()) by {
        assert forall|j1: int, j2: int|
            0 <= j1 < j2 < gnew.members@.len() implies (#[trigger] gnew.members@[j1]).0@ != (
        #[trigger] gnew.members@[j2]).0@ by {
            if j2 < mlen {
                assert(gold.members@[j1].0@ != gold.members@[j2].0@);
            } else {
                if gold.members@[j1].0@ == name {
                    assert(gold.has_name(name));
                }
            }
        }
    }
    assert forall|kk: int| 0 <= kk < after.len() implies (#[trigger] after[kk]).wf() by {
        if kk != k {
            assert(after[kk] == before[kk]);
        }
    }
    // membership in the changed group
    assert forall|n: Seq<char>, c: Capability| #[trigger] gnew.has_pair(n, c) implies (
    gold.has_pair(n, c) || (n == name && c == cap)) by {
        let j = choose|j: int|
            0 <= j < gnew.members@.len() && (#[trigger] gnew.members@[j]).0@ == n
                && gnew.members@[j].1 == c;
        if j < mlen {
            assert(gold.members@[j].0@ == n && gold.members@[j].1 == c);
        }
    }
    assert forall|n: Seq<char>, c: Capability| gold.has_pair(n, c) implies #[trigger] gnew.has_pair(
        n,
        c,
    ) by {
        let j = choose|j: int|
            0 <= j < gold.members@.len() && (#[trigger] gold.members@[j]).0@ == n
                && gold.members@[j].1 == c;
        assert(gnew.members@[j].0@ == n && gnew.members@[j].1 == c);
    }
    assert(gnew.has_pair(name, cap)) by {
        assert(gnew.members@[mlen].0@ == name && gnew.members@[mlen].1 == cap);
    }
    assert forall|n: Seq<char>| #[trigger] gnew.has_name(n) implies (gold.has_name(n) || n == name) by {
        let j = choose|j: int| 0 <= j < gnew.members@.len() && (#[trigger] gnew.members@[j]).0@ == n;
        if j < mlen {
            assert(gold.members@[j].0@ == n);
        }
    }
    assert forall|n: Seq<char>| gold.has_name(n) implies #[trigger] gnew.has_name(n) by {
        let j = choose|j: int| 0 <= j < gold.members@.len() && (#[trigger] gold.members@[j]).0@ == n;
        assert(gnew.members@[j].0@ == n);
    }
    assert(gnew.has_name(name)) by {
        assert(gnew.members@[mlen].0@ == name);
    }
    // membership across all groups
    assert forall|t: Seq<char>, n: Seq<char>, c: Capability| #[trigger] group_has(after, t, n, c)
        implies (group_has(before, t, n, c) || (t == tag && n == name && c == cap)) by {
        let kk = choose|kk: int|
            0 <= kk < after.len() && (#[trigger] after[kk]).tag@ == t && after[kk].has_pair(n, c);
        if kk != k {
            assert(before[kk].tag@ == t && before[kk].has_pair(n, c));
        } else {
            if !(n == name && c == cap) {
                assert(gold.has_pair(n, c));
                assert(before[k].tag@ == t && before[k].has_pair(n, c));
            }
        }
    }
    assert forall|t: Seq<char>, n: Seq<char>, c: Capability|
        group_has(before, t, n, c) || (t == tag && n == name && c == cap) implies #[trigger] group_has(
        after,
        t,
        n,
        c,
    ) by {
        if group_has(before, t, n, c) {
            let kk = choose|kk: int|
                0 <= kk < before.len() && (#[trigger] before[kk]).tag@ == t && before[kk].has_pair(
                    n,
                    c,
                );
            if kk != k {
                assert(after[kk].tag@ == t && after[kk].has_pair(n, c));
            } else {
                assert(after[k].tag@ == t && gnew.has_pair(n, c));
            }
        } else {
            assert(after[k].tag@ == t && gnew.has_pair(n, c));
        }
    }
    assert forall|t: Seq<char>, n: Seq<char>| #[trigger] name_in_tag(after, t, n) implies (
    name_in_tag(before, t, n) || (t == tag && n == name)) by {
        let kk = choose|kk: int|
            0 <= kk < after.len() && (#[trigger] after[kk]).tag@ == t && after[kk].has_name(n);
        if kk != k {
            assert(before[kk].tag@ == t && before[kk].has_name(n));
        } else {
            if n != name {
                assert(gold.has_name(n));
                assert(before[k].tag@ == t && before[k].has_name(n));
            }
        }
    }
    assert forall|t: Seq<char>, n: Seq<char>|
        name_in_tag(before, t, n) || (t == tag && n == name) implies #[trigger] name_in_tag(
        after,
        t,
        n,
    ) by {
        if name_in_tag(before, t, n) {
            let kk = choose|kk: int|
                0 <= kk < before.len() && (#[trigger] before[kk]).tag@ == t && before[kk].has_name(
                    n,
                );
            if kk != k {
                assert(after[kk].tag@ == t && after[kk].has_name(n));
            } else {
                assert(after[k].tag@ == t && gnew.has_name(n));
            }
        } else {
            assert(after[k].tag@ == t && gnew.has_name(n));
        }
    }
    assert forall|n: Seq<char>| #[trigger] name_anywhere(after, n) implies (name_anywhere(before, n)
        || n == name) by {
        let kk = choose|kk: int| 0 <= kk < after.len() && (#[trigger] after[kk]).has_name(n);
        if kk != k {
            assert(before[kk].has_name(n));
        } else {
            if n != name {
                assert(gold.has_name(n));
                assert(before[k].has_name(n));
            }
        }
    }
    assert forall|n: Seq<char>| name_anywhere(before, n) || n == name implies #[trigger] name_anywhere(
        after,
        n,
    ) by {
        if name_anywhere(before, n) {
            let kk = choose|kk: int| 0 <= kk < before.len() && (#[trigger] before[kk]).has_name(n);
            if kk != k {
                assert(after[kk].has_name(n));
            } else {
                assert(gnew.has_name(n));
            }
        } else {
            assert(gnew.has_name(n));
        }
    }
    assert forall|t: Seq<char>| #[trigger] has_tag(after, t) implies (has_tag(before, t) || t == tag) by {
        let kk = choose|kk: int| 0 <= kk < after.len() && (#[trigger] after[kk]).tag@ == t;
        assert(before[kk].tag@ == t);
    }
    assert forall|t: Seq<char>| has_tag(before, t) || t == tag implies #[trigger] has_tag(after, t) by {
        if has_tag(before, t) {
            let kk = choose|kk: int| 0 <= kk < before.len() && (#[trigger] before[kk]).tag@ == t;
            assert(after[kk].tag@ == t);
        } else {
            assert(after[k].tag@ == t);
        }
    }
}

/// What membership looks like after a fresh one-member group is pushed.
proof fn lemma_group_pushed(
    before: Seq<TargetGroup>,
    after: Seq<TargetGroup>,
    tag: Seq<char>,
    name: Seq<char>,
    cap: Capability,
)
    requires
        groups_wf(before),
        !has_tag(before, tag),
        after == before.push(after.last()),
        after.last().tag@ == tag,
        after.last().members@.len() == 1,
        after.last().members@[0].0@ == name,
        after.last().members@[0].1 == cap,
    ensures
        groups_wf(after),
        forall|t: Seq<char>, n: Seq<char>, c: Capability|
            group_has(after, t, n, c) <==> (group_has(before, t, n, c) || (t == tag && n == name
                && c == cap)),
        forall|t: Seq<char>, n: Seq<char>|
            name_in_tag(after, t, n) <==> (name_in_tag(before, t, n) || (t == tag && n == name)),
        forall|n: Seq<char>|
            name_anywhere(after, n) <==> (name_anywhere(before, n) || n == name),
        forall|t: Seq<char>| has_tag(after, t) <==> (has_tag(before, t) || t == tag),
{
    let blen = before.len() as int;
    let g = after.last();
    assert(after.len() == blen + 1);
    assert(after[blen] == g);
    assert forall|kk: int| 0 <= kk < blen implies after[kk] == before[kk] by {}
    assert(g.wf());
    assert forall|k1: int, k2: int| 0 <= k1 < k2 < after.len() implies (#[trigger] after[k1]).tag@
        != (#[trigger] after[k2]).tag@ by {
        if k2 < blen {
            assert(before[k1].tag@ != before[k2].tag@);
        } else {
            if before[k1].tag@ == tag {
                assert(has_tag(before, tag));
            }
        }
    }
    assert(g.has_pair(name, cap)) by {
        assert(g.members@[0].0@ == name && g.members@[0].1 == cap);
    }
    assert(g.has_name(name)) by {
        assert(g.members@[0].0@ == name);
    }
    assert forall|n: Seq<char>, c: Capability| #[trigger] g.has_pair(n, c) implies n == name && c
        == cap by {
        let j = choose|j: int|
            0 <= j < g.members@.len() && (#[trigger] g.members@[j]).0@ == n && g.members@[j].1 == c;
        assert(j == 0);
    }
    assert forall|n: Seq<char>| #[trigger] g.has_name(n) implies n == name by {
        let j = choose|j: int| 0 <= j < g.members@.len() && (#[trigger] g.members@[j]).0@ == n;
        assert(j == 0);
    }
    assert forall|t: Seq<char>, n: Seq<char>, c: Capability| #[trigger] group_has(after, t, n, c)
        implies (group_has(before, t, n, c) || (t == tag && n == name && c == cap)) by {
        let kk = choose|kk: int|
            0 <= kk < after.len() && (#[trigger] after[kk]).tag@ == t && after[kk].has_pair(n, c);
        if kk < blen {
            assert(before[kk].tag@ == t && before[kk].has_pair(n, c));
        }
    }
    assert forall|t: Seq<char>, n: Seq<char>, c: Capability|
        group_has(before, t, n, c) || (t == tag && n == name && c == cap) implies #[trigger] group_has(
        after,
        t,
        n,
        c,
    ) by {
        if group_has(before, t, n, c) {
            let kk = choose|kk: int|
                0 <= kk < before.len() && (#[trigger] before[kk]).tag@ == t && before[kk].has_pair(
                    n,
                    c,
                );
            assert(after[kk].tag@ == t && after[kk].has_pair(n, c));
        } else {
            assert(after[blen].tag@ == t && after[blen].has_pair(n, c));
        }
    }
    assert forall|t: Seq<char>, n: Seq<char>| #[trigger] name_in_tag(after, t, n) implies (
    name_in_tag(before, t, n) || (t == tag && n == name)) by {
        let kk = choose|kk: int|
            0 <= kk < after.len() && (#[trigger] after[kk]).tag@ == t && after[kk].has_name(n);
        if kk < blen {
            assert(before[kk].tag@ == t && before[kk].has_name(n));
        }
    }
    assert forall|t: Seq<char>, n: Seq<char>|
        name_in_tag(before, t, n) || (t == tag && n == name) implies #[trigger] name_in_tag(
        after,
        t,
        n,
    ) by {
        if name_in_tag(before, t, n) {
            let kk = choose|kk: int|
                0 <= kk < before.len() && (#[trigger] before[kk]).tag@ == t && before[kk].has_name(
                    n,
                );
            assert(after[kk].tag@ == t && after[kk].has_name(n));
        } else {
            assert(after[blen].tag@ == t && after[blen].has_name(n));
        }
    }
    assert forall|n: Seq<char>| #[trigger] name_anywhere(after, n) implies (name_anywhere(before, n)
        || n == name) by {
        let kk = choose|kk: int| 0 <= kk < after.len() && (#[trigger] after[kk]).has_name(n);
        if kk < blen {
            assert(before[kk].has_name(n));
        }
    }
    assert forall|n: Seq<char>| name_anywhere(before, n) || n == name implies #[trigger] name_anywhere(
        after,
        n,
    ) by {
        if name_anywhere(before, n) {
            let kk = choose|kk: int| 0 <= kk < before.len() && (#[trigger] before[kk]).has_name(n);
            assert(after[kk].has_name(n));
        } else {
            assert(after[blen].has_name(n));
        }
    }
    assert forall|t: Seq<char>| #[trigger] has_tag(after, t) implies (has_tag(before, t) || t == tag) by {
        let kk = choose|kk: int| 0 <= kk < after.len() && (#[trigger] after[kk]).tag@ == t;
        if kk < blen {
            assert(before[kk].tag@ == t);
        }
    }
    assert forall|t: Seq<char>| has_tag(before, t) || t == tag implies #[trigger] has_tag(after, t) by {
        if has_tag(before, t) {
            let kk = choose|kk: int| 0 <= kk < before.len() && (#[trigger] before[kk]).tag@ == t;
            assert(after[kk].tag@ == t);
        } else {
            assert(after[blen].tag@ == t);
        }
    }
}

} // verus!
