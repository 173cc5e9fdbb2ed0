use schedsim::job::PolicyConfig;
use schedsim::policy::{same_text, PolicyKind};

#[test]
fn the_menu_has_the_four_names() {
    let names: Vec<&str> = PolicyKind::all().iter().map(|k| k.name()).collect();
    assert_eq!(
        names,
        vec![
            "First Come First Serve (FCFS)",
            "Shortest Job Next (SJN)",
            "Shortest Remaining Time (SRN)",
            "Round Robin",
        ]
    );
}

#[test]
fn every_name_is_found_again() {
    for kind in PolicyKind::all() {
        assert_eq!(PolicyKind::from_name(kind.name()), Some(kind));
    }
    assert_eq!(PolicyKind::from_name("Round Robin"), Some(PolicyKind::RoundRobin));
    assert_eq!(PolicyKind::from_name("Shortest Remaining Time (SRN)"), Some(PolicyKind::SRT));
}

#[test]
fn other_text_is_not_a_policy() {
    for text in [
        "",
        "FCFS",
        "round robin",
        "Round Robin ",
        " Round Robin",
        "Shortest Remaining Time (SRT)",
        "First Come First Serve",
        "Shortest Job Next (SJN)!",
    ] {
        assert_eq!(PolicyKind::from_name(text), None);
    }
}

#[test]
fn same_text_compares_character_for_character() {
    assert!(same_text("", ""));
    assert!(same_text("abc", "abc"));
    assert!(!same_text("abc", "abd"));
    assert!(!same_text("abc", "ab"));
    assert!(!same_text("ab", "abc"));
    assert!(same_text("zeit\u{fc}", "zeit\u{fc}"));
    assert!(!same_text("zeit\u{fc}", "zeitu"));
}

#[test]
fn configure_and_kind_agree() {
    assert_eq!(PolicyKind::FCFS.configure(9), PolicyConfig::FCFS);
    assert_eq!(PolicyKind::SJN.configure(9), PolicyConfig::SJN);
    assert_eq!(PolicyKind::SRT.configure(9), PolicyConfig::SRT);
    assert_eq!(PolicyKind::RoundRobin.configure(9), PolicyConfig::RoundRobin { quantum: 9 });
    for kind in PolicyKind::all() {
        assert_eq!(kind.configure(4).kind(), kind);
    }
}

#[test]
fn policy_validity() {
    assert!(PolicyConfig::FCFS.is_valid());
    assert!(PolicyConfig::SJN.is_valid());
    assert!(PolicyConfig::SRT.is_valid());
    assert!(PolicyConfig::RoundRobin { quantum: 1 }.is_valid());
    assert!(PolicyConfig::RoundRobin { quantum: u64::MAX }.is_valid());
    assert!(!PolicyConfig::RoundRobin { quantum: 0 }.is_valid());
}
