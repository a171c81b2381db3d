use cloud_sd::config::Config;
use cloud_sd::cycle::{build_all, plan_cycle, remaining_pages};
use cloud_sd::entry::{build, resource_ipv6_host, FileSdEntry, Project, Resource};
use cloud_sd::fanout::{fan_out_entries, FilterSpec, LabelGroup};
use cloud_sd::fingerprint::{changed, fingerprint};
use cloud_sd::jsonout::serialize_entries;
use cloud_sd::labels::{filter_labels, validate, LabelMap};

fn labels_of(pairs: &[(&str, &str)]) -> LabelMap {
    let mut m = LabelMap::new();
    for (k, v) in pairs {
        m.insert(k.to_string(), v.to_string());
    }
    m
}

fn entry_of(target: &str, pairs: &[(&str, &str)]) -> FileSdEntry {
    FileSdEntry { targets: vec![target.to_string()], labels: labels_of(pairs) }
}

fn find<'a>(
    outs: &'a [(String, Vec<FileSdEntry>)],
    path: &str,
) -> Option<&'a Vec<FileSdEntry>> {
    outs.iter().find(|(p, _)| p == path).map(|(_, es)| es)
}

#[test]
fn validate_accepts_identifiers() {
    assert!(validate("abc"));
    assert!(validate("_private"));
    assert!(validate("a1_b2"));
    assert!(validate("A"));
    assert!(validate("role"));
}

#[test]
fn validate_rejects_bad_keys() {
    assert!(!validate("9bad"));
    assert!(!validate(""));
    assert!(!validate("has space"));
    assert!(!validate("a-b"));
    assert!(!validate("é"));
    assert!(!validate("dot.key"));
}

#[test]
fn label_map_insert_get_overlay() {
    let mut m = LabelMap::new();
    m.insert("a".to_string(), "1".to_string());
    m.insert("b".to_string(), "2".to_string());
    m.insert("a".to_string(), "3".to_string());
    assert_eq!(m.len(), 2);
    assert_eq!(m.get("a"), Some(&"3".to_string()));
    assert_eq!(m.get("b"), Some(&"2".to_string()));
    assert_eq!(m.get("c"), None);

    let over = labels_of(&[("b", "20"), ("c", "30")]);
    let merged = m.overlay(&over);
    assert_eq!(merged.len(), 3);
    assert_eq!(merged.get("a"), Some(&"3".to_string()));
    assert_eq!(merged.get("b"), Some(&"20".to_string()));
    assert_eq!(merged.get("c"), Some(&"30".to_string()));
}

#[test]
fn filter_labels_drops_invalid_keys() {
    let m = labels_of(&[("role", "web"), ("9bad", "x"), ("ok_2", "y")]);
    let (kept, dropped) = filter_labels(&m);
    assert_eq!(kept.len(), 2);
    assert_eq!(kept.get("role"), Some(&"web".to_string()));
    assert_eq!(kept.get("ok_2"), Some(&"y".to_string()));
    assert_eq!(kept.get("9bad"), None);
    assert_eq!(dropped, vec!["9bad".to_string()]);
}

#[test]
fn build_keeps_entry_despite_dropped_key() {
    let project = Project {
        name: "p".to_string(),
        api_token: "SECRET-REDACTED".to_string(),
        labels: labels_of(&[("env", "prod")]),
    };
    let resource = Resource {
        name: "host-1".to_string(),
        ipv4: None,
        ipv6_net: None,
        labels: labels_of(&[("9bad", "x"), ("role", "web")]),
    };
    let (entry, dropped) = build(&project, &resource, "host-1".to_string());
    assert_eq!(entry.targets, vec!["host-1".to_string()]);
    assert_eq!(entry.labels.get("env"), Some(&"prod".to_string()));
    assert_eq!(entry.labels.get("role"), Some(&"web".to_string()));
    assert_eq!(entry.labels.get("9bad"), None);
    assert_eq!(dropped, vec!["9bad".to_string()]);
}

#[test]
fn fan_out_empty_chain_is_identity() {
    let entries = vec![
        entry_of("a", &[("role", "web")]),
        entry_of("b", &[("role", "db")]),
    ];
    let chain: Vec<FilterSpec> = Vec::new();
    let outs = fan_out_entries(entries, &chain, "out");
    assert_eq!(outs.len(), 1);
    assert_eq!(outs[0].0, "out.json");
    assert_eq!(outs[0].1.len(), 2);
    assert_eq!(outs[0].1[0].targets, vec!["a".to_string()]);
    assert_eq!(outs[0].1[1].targets, vec!["b".to_string()]);
}

#[test]
fn groups_absent_value_is_unset_only() {
    let values = vec!["web".to_string(), "db".to_string()];
    let gs = LabelGroup::groups(None, &values);
    assert_eq!(gs, vec![LabelGroup::Unset]);
}

#[test]
fn groups_empty_value_is_set_and_empty() {
    let values = vec!["web".to_string(), "".to_string()];
    let gs = LabelGroup::groups(Some("".to_string()), &values);
    assert_eq!(gs, vec![LabelGroup::IsSet, LabelGroup::Empty]);
}

#[test]
fn groups_value_gets_complements() {
    let values = vec!["web".to_string(), "db".to_string(), "cache".to_string()];
    let gs = LabelGroup::groups(Some("db".to_string()), &values);
    assert_eq!(
        gs,
        vec![
            LabelGroup::IsSet,
            LabelGroup::Value("db".to_string()),
            LabelGroup::NotValue("web".to_string()),
            LabelGroup::NotValue("cache".to_string()),
        ]
    );
}

#[test]
fn by_label_single_value_makes_no_complements() {
    let entries = vec![entry_of("host-1", &[("env", "prod"), ("role", "web")])];
    let chain = vec![FilterSpec::ByLabel("role".to_string())];
    let outs = fan_out_entries(entries, &chain, "out");
    let set = find(&outs, "out/role-is-set.json").expect("is-set file");
    let web = find(&outs, "out/role-is-web.json").expect("is-web file");
    assert_eq!(set.len(), 1);
    assert_eq!(web.len(), 1);
    assert_eq!(set[0].targets, vec!["host-1".to_string()]);
    assert!(outs.iter().all(|(p, _)| !p.contains("role-is-not-")));
    assert_eq!(outs.len(), 2);
}

#[test]
fn by_label_multi_membership() {
    let entries = vec![
        entry_of("a", &[("role", "web")]),
        entry_of("b", &[("role", "db")]),
        entry_of("c", &[]),
        entry_of("d", &[("role", "")]),
    ];
    let chain = vec![FilterSpec::ByLabel("role".to_string())];
    let outs = fan_out_entries(entries, &chain, "o");
    let set = find(&outs, "o/role-is-set.json").expect("is-set");
    assert_eq!(set.len(), 3); // a, b, d
    let web = find(&outs, "o/role-is-web.json").expect("is-web");
    assert_eq!(web.len(), 1);
    let not_web = find(&outs, "o/role-is-not-web.json").expect("is-not-web");
    assert_eq!(not_web.len(), 1);
    assert_eq!(not_web[0].targets, vec!["b".to_string()]);
    let unset = find(&outs, "o/role-is-not-set.json").expect("is-not-set");
    assert_eq!(unset.len(), 1);
    assert_eq!(unset[0].targets, vec!["c".to_string()]);
    let empty = find(&outs, "o/role-is-empty.json").expect("is-empty");
    assert_eq!(empty.len(), 1);
    assert_eq!(empty[0].targets, vec!["d".to_string()]);
}

#[test]
fn by_label_suffix_collision_replaces_earlier_group() {
    // a value literally "not-set" collides with the absent-label group's
    // path; the later group wins the path and the absent-label entry
    // drops out of every output at this level
    let entries = vec![entry_of("a", &[]), entry_of("b", &[("role", "not-set")])];
    let chain = vec![FilterSpec::ByLabel("role".to_string())];
    let outs = fan_out_entries(entries, &chain, "o");
    assert_eq!(outs.len(), 2);
    let set = find(&outs, "o/role-is-set.json").expect("is-set");
    assert_eq!(set.len(), 1);
    assert_eq!(set[0].targets, vec!["b".to_string()]);
    let collided = find(&outs, "o/role-is-not-set.json").expect("collided path");
    assert_eq!(collided.len(), 1);
    assert_eq!(collided[0].targets, vec!["b".to_string()]);
}

#[test]
fn by_label_value_without_match_keeps_empty_file() {
    let entries = vec![entry_of("a", &[("role", "db")])];
    let chain = vec![FilterSpec::ByLabelValue("role".to_string(), "web".to_string())];
    let outs = fan_out_entries(entries, &chain, "out");
    assert_eq!(outs.len(), 1);
    assert_eq!(outs[0].0, "out/role-web.json");
    assert!(outs[0].1.is_empty());
    assert_eq!(serialize_entries(&outs[0].1), "[]");
}

#[test]
fn by_label_value_narrows_and_recurses_once() {
    let entries = vec![
        entry_of("a", &[("role", "web"), ("env", "prod")]),
        entry_of("b", &[("role", "db"), ("env", "prod")]),
    ];
    let chain = vec![
        FilterSpec::ByLabelValue("role".to_string(), "web".to_string()),
        FilterSpec::ByLabel("env".to_string()),
    ];
    let outs = fan_out_entries(entries, &chain, "out");
    let set = find(&outs, "out/role-web/env-is-set.json").expect("nested is-set");
    assert_eq!(set.len(), 1);
    assert_eq!(set[0].targets, vec!["a".to_string()]);
    let prod = find(&outs, "out/role-web/env-is-prod.json").expect("nested is-prod");
    assert_eq!(prod.len(), 1);
}

#[test]
fn serialize_matches_discovery_format() {
    let entries = vec![entry_of("t", &[("a", "b")])];
    let text = serialize_entries(&entries);
    assert_eq!(text, "[{\"targets\":[\"t\"],\"labels\":{\"a\":\"b\"}}]");
}

#[test]
fn serialize_escapes_special_characters() {
    let entries = vec![entry_of("q\"x", &[("k", "a\\b\nc")])];
    let text = serialize_entries(&entries);
    assert_eq!(
        text,
        "[{\"targets\":[\"q\\\"x\"],\"labels\":{\"k\":\"a\\\\b\\u000ac\"}}]"
    );
}

#[test]
fn fingerprint_matches_fnv1a() {
    assert_eq!(fingerprint(""), 0xcbf29ce484222325);
    assert_eq!(fingerprint("a"), 0xaf63dc4c8601ec8c);
    assert_eq!(fingerprint("[]"), 0x09612b07b5ecb5a5);
}

#[test]
fn fingerprint_is_deterministic_and_changed_detects() {
    let a = fingerprint("[\"x\"]");
    let b = fingerprint("[\"x\"]");
    let c = fingerprint("[\"y\"]");
    assert_eq!(a, b);
    assert_ne!(a, c);
    assert!(changed(None, a));
    assert!(!changed(Some(a), b));
    assert!(changed(Some(a), c));
}

#[test]
fn plan_cycle_writes_once_per_change() {
    let entries = vec![entry_of("host-1", &[("role", "web")])];
    let config = Config {
        output_folder: "out".to_string(),
        target: "{{hostname}}".to_string(),
        projects: Vec::new(),
        filters: vec![vec![FilterSpec::ByLabel("role".to_string())]],
    };
    let (fp, writes) = plan_cycle(&entries, None, &config);
    let ws = writes.expect("first cycle writes");
    assert_eq!(ws[0].0, "out/all.json");
    assert_eq!(ws[0].1, serialize_entries(&entries));
    assert!(ws.iter().any(|(p, _)| p == "out/role-is-web.json"));

    // identical second cycle: same fingerprint, nothing written
    let (fp2, writes2) = plan_cycle(&entries, Some(fp), &config);
    assert_eq!(fp, fp2);
    assert!(writes2.is_none());

    // a changed label value triggers exactly one new write set
    let entries3 = vec![entry_of("host-1", &[("role", "db")])];
    let (fp3, writes3) = plan_cycle(&entries3, Some(fp), &config);
    assert_ne!(fp, fp3);
    assert!(writes3.is_some());
}

#[test]
fn remaining_pages_follow_pagination() {
    assert_eq!(remaining_pages(None), Vec::<u32>::new());
    assert_eq!(remaining_pages(Some(1)), Vec::<u32>::new());
    assert_eq!(remaining_pages(Some(5)), vec![2, 3, 4, 5]);
}

#[test]
fn ipv6_host_is_first_usable_address() {
    let resource = Resource {
        name: "h".to_string(),
        ipv4: None,
        ipv6_net: Some("2001:db8::/64".to_string()),
        labels: LabelMap::new(),
    };
    assert_eq!(resource_ipv6_host(&resource), Some("2001:db8::1".to_string()));
    let bad = Resource {
        name: "h".to_string(),
        ipv4: None,
        ipv6_net: Some("not-a-network".to_string()),
        labels: LabelMap::new(),
    };
    assert_eq!(resource_ipv6_host(&bad), None);
}

#[test]
fn end_to_end_scenario_one_project() {
    let mut engine = tera::Tera::default();
    engine.add_raw_template("target", "{{hostname}}").unwrap();
    let projects = vec![Project {
        name: "proj".to_string(),
        api_token: "SECRET-REDACTED".to_string(),
        labels: labels_of(&[("env", "prod")]),
    }];
    let resources = vec![vec![Resource {
        name: "host-1".to_string(),
        ipv4: Some("192.0.2.1".to_string()),
        ipv6_net: None,
        labels: labels_of(&[("role", "web")]),
    }]];
    let outcome = build_all(&engine, "target", &projects, &resources).unwrap();
    assert_eq!(outcome.entries.len(), 1);
    let entry = &outcome.entries[0];
    assert_eq!(entry.targets, vec!["host-1".to_string()]);
    assert_eq!(entry.labels.get("env"), Some(&"prod".to_string()));
    assert_eq!(entry.labels.get("role"), Some(&"web".to_string()));
    assert!(outcome.dropped.is_empty());

    let chain = vec![FilterSpec::ByLabel("role".to_string())];
    let outs = fan_out_entries(outcome.entries, &chain, "root");
    let set = find(&outs, "root/role-is-set.json").expect("is-set");
    let web = find(&outs, "root/role-is-web.json").expect("is-web");
    assert_eq!(set.len(), 1);
    assert_eq!(web.len(), 1);
    assert!(outs.iter().all(|(p, _)| !p.contains("role-is-not-")));
}

#[test]
fn dropped_key_warned_with_host() {
    let mut engine = tera::Tera::default();
    engine.add_raw_template("target", "{{hostname}}").unwrap();
    let projects = vec![Project {
        name: "proj".to_string(),
        api_token: "SECRET-REDACTED".to_string(),
        labels: LabelMap::new(),
    }];
    let resources = vec![vec![Resource {
        name: "host-9".to_string(),
        ipv4: None,
        ipv6_net: None,
        labels: labels_of(&[("9bad", "x"), ("role", "web")]),
    }]];
    let outcome = build_all(&engine, "target", &projects, &resources).unwrap();
    assert_eq!(outcome.entries.len(), 1);
    assert_eq!(outcome.entries[0].labels.get("9bad"), None);
    assert_eq!(outcome.entries[0].labels.get("role"), Some(&"web".to_string()));
    assert_eq!(
        outcome.dropped,
        vec![("host-9".to_string(), "9bad".to_string())]
    );
}

#[test]
fn render_failure_aborts_cycle_with_host() {
    let mut engine = tera::Tera::default();
    engine.add_raw_template("target", "{{missing_key}}").unwrap();
    let projects = vec![Project {
        name: "proj".to_string(),
        api_token: "SECRET-REDACTED".to_string(),
        labels: LabelMap::new(),
    }];
    let resources = vec![vec![Resource {
        name: "host-1".to_string(),
        ipv4: None,
        ipv6_net: None,
        labels: LabelMap::new(),
    }]];
    let err = build_all(&engine, "target", &projects, &resources).unwrap_err();
    assert_eq!(err.host, "host-1".to_string());
    assert!(!err.message.is_empty());
}

#[test]
fn build_order_is_stable_across_projects() {
    let mut engine = tera::Tera::default();
    engine.add_raw_template("target", "{{hostname}}").unwrap();
    let projects = vec![
        Project {
            name: "p1".to_string(),
            api_token: "SECRET-REDACTED".to_string(),
            labels: LabelMap::new(),
        },
        Project {
            name: "p2".to_string(),
            api_token: "SECRET-REDACTED".to_string(),
            labels: LabelMap::new(),
        },
    ];
    let mk = |n: &str| Resource {
        name: n.to_string(),
        ipv4: None,
        ipv6_net: None,
        labels: LabelMap::new(),
    };
    let resources = vec![vec![mk("a"), mk("b")], vec![mk("c")]];
    let outcome = build_all(&engine, "target", &projects, &resources).unwrap();
    let names: Vec<String> = outcome.entries.iter().map(|e| e.targets[0].clone()).collect();
    assert_eq!(names, vec!["a".to_string(), "b".to_string(), "c".to_string()]);
}
