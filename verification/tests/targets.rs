//! Target group assembly.

use kindling::Capability;
use kindling::TargetGroup;
use kindling::target::add_service_to_targets;
use kindling::target::find_group;
use kindling::target::insert_member;

fn cap(handle: u64) -> Capability {
    Capability { handle }
}

fn group_names(groups: &[TargetGroup], tag: &str) -> Option<Vec<String>> {
    groups.iter().find(|g| g.tag == tag).map(|g| {
        let mut names: Vec<String> = g.members.iter().map(|m| m.0.clone()).collect();
        names.sort();
        names
    })
}

#[test]
fn service_lands_in_exactly_its_declared_groups() {
    let mut groups: Vec<TargetGroup> = Vec::new();
    let tags = vec!["server".to_string(), "daemon".to_string()];
    add_service_to_targets(&mut groups, &"svc".to_string(), cap(5), &tags);
    assert_eq!(groups.len(), 2);
    assert_eq!(group_names(&groups, "server"), Some(vec!["svc".to_string()]));
    assert_eq!(group_names(&groups, "daemon"), Some(vec!["svc".to_string()]));
    assert_eq!(group_names(&groups, "client"), None);
}

#[test]
fn groups_accumulate_members_without_duplicating_tags() {
    let mut groups: Vec<TargetGroup> = Vec::new();
    add_service_to_targets(&mut groups, &"a".to_string(), cap(1), &vec!["server".to_string()]);
    add_service_to_targets(
        &mut groups,
        &"b".to_string(),
        cap(2),
        &vec!["server".to_string(), "client".to_string()],
    );
    assert_eq!(groups.len(), 2);
    assert_eq!(
        group_names(&groups, "server"),
        Some(vec!["a".to_string(), "b".to_string()])
    );
    assert_eq!(group_names(&groups, "client"), Some(vec!["b".to_string()]));
}

#[test]
fn a_tag_listed_twice_files_the_service_once() {
    let mut groups: Vec<TargetGroup> = Vec::new();
    let tags = vec!["server".to_string(), "server".to_string()];
    add_service_to_targets(&mut groups, &"svc".to_string(), cap(9), &tags);
    assert_eq!(groups.len(), 1);
    assert_eq!(groups[0].members.len(), 1);
    assert_eq!(groups[0].members[0], ("svc".to_string(), cap(9)));
}

#[test]
fn no_group_exists_without_a_member() {
    let mut groups: Vec<TargetGroup> = Vec::new();
    add_service_to_targets(&mut groups, &"quiet".to_string(), cap(3), &Vec::new());
    assert!(groups.is_empty());
    // every group that does exist was created by an insertion
    insert_member(&mut groups, &"tag".to_string(), &"svc".to_string(), cap(4));
    assert!(groups.iter().all(|g| !g.members.is_empty()));
}

#[test]
fn find_group_locates_tags() {
    let mut groups: Vec<TargetGroup> = Vec::new();
    insert_member(&mut groups, &"one".to_string(), &"a".to_string(), cap(1));
    insert_member(&mut groups, &"two".to_string(), &"b".to_string(), cap(2));
    let k = find_group(&groups, &"two".to_string()).expect("tag exists");
    assert_eq!(groups[k].tag, "two");
    assert_eq!(find_group(&groups, &"three".to_string()), None);
}

#[test]
fn members_keep_their_own_capabilities() {
    let mut groups: Vec<TargetGroup> = Vec::new();
    add_service_to_targets(&mut groups, &"a".to_string(), cap(10), &vec!["t".to_string()]);
    add_service_to_targets(&mut groups, &"b".to_string(), cap(20), &vec!["t".to_string()]);
    let g = &groups[0];
    let a_cap = g.members.iter().find(|m| m.0 == "a").unwrap().1;
    let b_cap = g.members.iter().find(|m| m.0 == "b").unwrap().1;
    assert_eq!(a_cap, cap(10));
    assert_eq!(b_cap, cap(20));
}
