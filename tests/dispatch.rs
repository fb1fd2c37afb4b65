use status_v2::dispatch::{
    connection_plan, plan_stage, request_for, split_big_disk, BigDisks, Dispatch, LoginEntry,
    PreferredComputers, SetupError,
};

fn names(v: &[&str]) -> Vec<String> {
    v.iter().map(|s| s.to_string()).collect()
}

fn remote_hosts(plan: &[Dispatch]) -> Vec<String> {
    plan.iter()
        .map(|d| match d {
            Dispatch::Remote { host, .. } => host.clone(),
            Dispatch::Local => panic!("expected a remote target"),
        })
        .collect()
}

#[test]
fn preference_accumulates_over_stages() {
    let mut acc = PreferredComputers::new(&Vec::new());
    let disks = BigDisks::new();
    let s1 = plan_stage(&mut acc, &None, &disks);
    assert_eq!(s1.len(), 1);
    assert!(matches!(s1[0], Dispatch::Local));
    let s2 = plan_stage(&mut acc, &Some(names(&["h1"])), &disks);
    assert_eq!(remote_hosts(&s2), names(&["h1"]));
    let s3 = plan_stage(&mut acc, &Some(names(&["h2"])), &disks);
    assert_eq!(remote_hosts(&s3), names(&["h1", "h2"]));
    let s4 = plan_stage(&mut acc, &None, &disks);
    assert_eq!(remote_hosts(&s4), names(&["h1", "h2"]));
}

#[test]
fn repeated_host_is_targeted_once() {
    let mut acc = PreferredComputers::new(&names(&["h1", "h1"]));
    assert_eq!(acc.len(), 1);
    let plan = plan_stage(&mut acc, &Some(names(&["h2", "h1"])), &BigDisks::new());
    assert_eq!(remote_hosts(&plan), names(&["h1", "h2"]));
    assert!(acc.contains(&"h2".to_string()));
    assert!(!acc.contains(&"h3".to_string()));
}

#[test]
fn pipeline_preference_seeds_run() {
    let mut acc = PreferredComputers::new(&names(&["base"]));
    let plan = plan_stage(&mut acc, &None, &BigDisks::new());
    assert_eq!(remote_hosts(&plan), names(&["base"]));
    assert_eq!(acc.host(0), "base");
}

#[test]
fn big_disk_overrides_per_host() {
    let mut disks = BigDisks::new();
    disks.insert("h1".to_string(), "/mnt/a".to_string());
    disks.insert("h2".to_string(), "/mnt/b".to_string());
    disks.insert("h1".to_string(), "/mnt/c".to_string());
    assert_eq!(disks.get(&"h1".to_string()), Some("/mnt/c".to_string()));
    assert_eq!(disks.get(&"h3".to_string()), None);
    let mut acc = PreferredComputers::new(&names(&["h2", "h3"]));
    let plan = plan_stage(&mut acc, &None, &disks);
    match &plan[0] {
        Dispatch::Remote { host, big_disk } => {
            assert_eq!(host, "h2");
            assert_eq!(big_disk.as_deref(), Some("/mnt/b"));
        }
        Dispatch::Local => panic!("expected a remote target"),
    }
    match &plan[1] {
        Dispatch::Remote { host, big_disk } => {
            assert_eq!(host, "h3");
            assert_eq!(*big_disk, None);
        }
        Dispatch::Local => panic!("expected a remote target"),
    }
    let runs = names(&["7"]);
    let req = request_for("s", &plan[0], &runs);
    assert_eq!(req.big_disk.as_deref(), Some("/mnt/b"));
}

#[test]
fn single_local_stage_end_to_end() {
    let mut acc = PreferredComputers::new(&Vec::new());
    let runs = names(&["1001", "1002"]);
    let plan = plan_stage(&mut acc, &None, &BigDisks::new());
    assert_eq!(plan.len(), 1);
    assert!(matches!(plan[0], Dispatch::Local));
    let req = request_for("p1_stage", &plan[0], &runs);
    assert_eq!(req.big_disk, None);
    assert_eq!(req.run_number_list, names(&["1001", "1002"]));
    assert_eq!(req.stage, "p1_stage");
}

#[test]
fn big_disk_setting_splits_on_one_colon() {
    assert_eq!(split_big_disk("h1:/mnt/big"), Some(("h1".to_string(), "/mnt/big".to_string())));
    assert_eq!(split_big_disk(":/x"), Some(("".to_string(), "/x".to_string())));
    assert_eq!(split_big_disk("h1"), None);
    assert_eq!(split_big_disk("h1:/a:/b"), None);
    assert_eq!(split_big_disk("hôte:/données"), Some(("hôte".to_string(), "/données".to_string())));
}

#[test]
fn connection_plan_lists_logins() {
    let needed = names(&["h1", "h2"]);
    let entries = vec![LoginEntry::User("alice".to_string()), LoginEntry::User("bob".to_string())];
    assert_eq!(
        connection_plan(&needed, &entries),
        Ok(vec![("h1".to_string(), "alice".to_string()), ("h2".to_string(), "bob".to_string())])
    );
    assert_eq!(connection_plan(&Vec::new(), &Vec::new()), Ok(Vec::new()));
}

#[test]
fn connection_plan_stops_on_missing_login() {
    let needed = names(&["h1", "h2", "h3"]);
    let entries = vec![LoginEntry::NoUser, LoginEntry::User("bob".to_string()), LoginEntry::Missing];
    assert_eq!(connection_plan(&needed, &entries), Err(SetupError::NoHostEntry("h3".to_string())));
    let entries = vec![LoginEntry::User("a".to_string()), LoginEntry::NoUser, LoginEntry::NoUser];
    assert_eq!(connection_plan(&needed, &entries), Err(SetupError::NoUserName("h2".to_string())));
}
