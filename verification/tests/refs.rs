use git_core::model::{RefEntry, RefKind};
use git_core::refs::{badges_for, head_info, is_head_branch, ref_entry, ref_kind, sort_refs};

fn entry(name: &str, kind: RefKind, target: &str) -> RefEntry {
    RefEntry {
        name: name.to_string(),
        full_name: format!("refs/x/{name}"),
        kind,
        target: target.to_string(),
        is_head: false,
        upstream: None,
        ahead: 0,
        behind: 0,
    }
}

#[test]
fn refs_list_branches_then_remotes_then_tags_by_name() {
    let sorted = sort_refs(vec![
        entry("v0.1.0", RefKind::Tag, "t"),
        entry("origin/main", RefKind::RemoteBranch, "m"),
        entry("main", RefKind::LocalBranch, "m"),
        entry("feature-b", RefKind::LocalBranch, "b"),
        entry("feature-a", RefKind::LocalBranch, "a"),
        entry("origin/feature-a", RefKind::RemoteBranch, "a"),
    ]);
    let names: Vec<&str> = sorted.iter().map(|r| r.name.as_str()).collect();
    assert_eq!(
        names,
        vec!["feature-a", "feature-b", "main", "origin/feature-a", "origin/main", "v0.1.0"]
    );
}

#[test]
fn ref_kinds_are_classified_in_order() {
    assert_eq!(ref_kind(true, true, true), Some(RefKind::LocalBranch));
    assert_eq!(ref_kind(false, true, true), Some(RefKind::RemoteBranch));
    assert_eq!(ref_kind(false, false, true), Some(RefKind::Tag));
    assert_eq!(ref_kind(false, false, false), None);
}

#[test]
fn only_a_local_branch_of_heads_name_is_head() {
    let head = Some("main".to_string());
    assert!(is_head_branch(RefKind::LocalBranch, &head, &"main".to_string()));
    assert!(!is_head_branch(RefKind::RemoteBranch, &head, &"main".to_string()));
    assert!(!is_head_branch(RefKind::LocalBranch, &head, &"dev".to_string()));
    assert!(!is_head_branch(RefKind::LocalBranch, &None, &"main".to_string()));
}

#[test]
fn head_is_named_by_branch_or_short_id() {
    let oid = "a9214624572004adc825f586b788cb2bfa7d1f19".to_string();
    let attached = head_info(false, Some(oid.clone()), Some("main".to_string()));
    assert_eq!(attached.name, "main");
    assert!(!attached.detached);
    let detached = head_info(true, Some(oid.clone()), Some("HEAD".to_string()));
    assert_eq!(detached.name, "a921462");
    assert_eq!(detached.oid.as_deref(), Some(oid.as_str()));
    assert!(detached.detached);
    assert_eq!(head_info(true, None, None).name, "HEAD");
    assert_eq!(head_info(false, None, None).name, "HEAD");
}

#[test]
fn badges_follow_the_listing_for_one_commit() {
    let mut main = entry("main", RefKind::LocalBranch, "m4");
    main.is_head = true;
    let refs = vec![
        entry("feature-a", RefKind::LocalBranch, "fa2"),
        main,
        entry("origin/main", RefKind::RemoteBranch, "m4"),
        entry("v0.1.0", RefKind::Tag, "m1"),
    ];
    let badges = badges_for(&refs, &"m4".to_string());
    assert_eq!(badges.len(), 2);
    assert_eq!(badges[0].name, "main");
    assert!(badges[0].is_head);
    assert_eq!(badges[1].name, "origin/main");
    assert_eq!(badges[1].kind, RefKind::RemoteBranch);
    assert!(badges_for(&refs, &"nothing".to_string()).is_empty());
}

#[test]
fn only_a_local_branch_carries_tracking() {
    let head = Some("main".to_string());
    let tracking = || (Some("origin/main".to_string()), 2, 3);
    let local = ref_entry(
        false,
        Some("refs/heads/main".into()),
        Some("main".into()),
        Some(RefKind::LocalBranch),
        Some("abc".into()),
        &head,
        tracking(),
    )
    .unwrap();
    assert_eq!(local.name, "main");
    assert_eq!(local.full_name, "refs/heads/main");
    assert_eq!(local.target, "abc");
    assert!(local.is_head);
    assert_eq!((local.upstream.as_deref(), local.ahead, local.behind), (Some("origin/main"), 2, 3));

    let tag = ref_entry(
        false,
        Some("refs/tags/main".into()),
        Some("main".into()),
        Some(RefKind::Tag),
        Some("abc".into()),
        &head,
        tracking(),
    )
    .unwrap();
    assert!(!tag.is_head);
    assert_eq!((tag.upstream, tag.ahead, tag.behind), (None, 0, 0));
}

#[test]
fn unlisted_refs_are_dropped() {
    let head = None;
    let full = || Some("refs/remotes/origin/HEAD".to_string());
    let name = || Some("origin/HEAD".to_string());
    let kind = || Some(RefKind::RemoteBranch);
    let target = || Some("abc".to_string());
    let none = || (None, 0, 0);
    assert!(ref_entry(true, full(), name(), kind(), target(), &head, none()).is_none());
    assert!(ref_entry(false, None, name(), kind(), target(), &head, none()).is_none());
    assert!(ref_entry(false, full(), None, kind(), target(), &head, none()).is_none());
    assert!(ref_entry(false, full(), name(), None, target(), &head, none()).is_none());
    assert!(ref_entry(false, full(), name(), kind(), None, &head, none()).is_none());
    assert!(ref_entry(false, full(), name(), kind(), target(), &head, none()).is_some());
}
