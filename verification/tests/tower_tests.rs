use puzzles::tower::{Tower, TowerError};

fn kids(names: &[&str]) -> Vec<String> {
    names.iter().map(|s| s.to_string()).collect()
}

fn build(facts: &[(&str, u32, &[&str])]) -> Tower {
    let mut t = Tower::new();
    for (name, weight, children) in facts {
        t.add(name, *weight, &kids(children)).unwrap();
    }
    t
}

const BASE: &[(&str, u32, &[&str])] = &[
    ("gyxo", 61, &[]),
    ("ugml", 68, &["gyxo", "ebii", "jptl"]),
    ("ebii", 61, &[]),
    ("jptl", 61, &[]),
    ("padx", 45, &["pbga", "havc", "qoyq"]),
    ("pbga", 66, &[]),
    ("havc", 66, &[]),
    ("qoyq", 66, &[]),
    ("fwft", 72, &["ktlj", "cntj", "xhth"]),
    ("ktlj", 57, &[]),
    ("cntj", 57, &[]),
    ("xhth", 57, &[]),
    ("tknk", 41, &["ugml", "padx", "fwft"]),
];

fn total_of(t: &Tower, name: &str) -> u32 {
    t.get_program(&name.to_string()).unwrap().total_weight
}

#[test]
fn test_data_from_line() {
    assert_eq!(
        Tower::data_from_line("pbga (66)"),
        Some(("pbga".to_string(), 66, Vec::new()))
    );
    assert_eq!(
        Tower::data_from_line("fwft (72) -> ktlj"),
        Some(("fwft".to_string(), 72, vec!["ktlj".to_string()]))
    );
    assert_eq!(
        Tower::data_from_line("fwft (72) -> ktlj, cntj, xhth"),
        Some((
            "fwft".to_string(),
            72,
            vec!["ktlj".to_string(), "cntj".to_string(), "xhth".to_string()]
        ))
    );
}

#[test]
fn test_data_from_line_rejects() {
    assert_eq!(Tower::data_from_line(""), None);
    assert_eq!(Tower::data_from_line("noweight"), None);
    assert_eq!(Tower::data_from_line("a (x)"), None);
    assert_eq!(Tower::data_from_line("a (999999999999999999)"), None);
}

#[test]
fn test_root_resolution() {
    let mut t = build(BASE);
    assert!(t.finalize().is_ok());
    assert_eq!(t.root_name(), Some("tknk"));
}

#[test]
fn test_root_resolution_with_enclosing_root() {
    let mut facts = BASE.to_vec();
    facts.push(("root", 20, &["tknk"]));
    let mut t = build(&facts);
    assert!(t.finalize().is_ok());
    assert_eq!(t.root_name(), Some("root"));
    assert_eq!(total_of(&t, "root"), 20 + 41 + 251 + 243 + 243);
}

#[test]
fn test_cumulative_weights() {
    let mut t = build(BASE);
    t.finalize().unwrap();
    assert_eq!(total_of(&t, "gyxo"), 61);
    assert_eq!(total_of(&t, "ugml"), 251);
    assert_eq!(total_of(&t, "padx"), 243);
    assert_eq!(total_of(&t, "fwft"), 243);
    assert_eq!(total_of(&t, "tknk"), 41 + 251 + 243 + 243);
}

#[test]
fn test_find_unstable() {
    let mut t = build(BASE);
    t.finalize().unwrap();
    let (name, weights) = t.search_unstable().unwrap().unwrap();
    assert_eq!(name, "tknk");
    assert_eq!(weights.get(&"ugml".to_string()), Some(251));
    assert_eq!(weights.get(&"padx".to_string()), Some(243));
    assert_eq!(weights.get(&"fwft".to_string()), Some(243));
    assert_eq!(weights.get(&"gyxo".to_string()), None);
}

#[test]
fn test_deepest_anomaly_wins() {
    // ugml is unbalanced (gyxo too heavy), and so is tknk above it: the
    // deeper ugml is reported, never its ancestor.
    let mut facts = BASE.to_vec();
    facts[0] = ("gyxo", 70, &[]);
    let mut t = build(&facts);
    t.finalize().unwrap();
    let (name, weights) = t.search_unstable().unwrap().unwrap();
    assert_eq!(name, "ugml");
    assert_eq!(weights.get(&"gyxo".to_string()), Some(70));
    assert_eq!(weights.get(&"ebii".to_string()), Some(61));
}

#[test]
fn test_balanced_tower_reports_nothing() {
    let facts: &[(&str, u32, &[&str])] = &[
        ("a", 1, &["b", "c"]),
        ("b", 2, &[]),
        ("c", 2, &[]),
    ];
    let mut t = build(facts);
    t.finalize().unwrap();
    assert!(t.search_unstable().unwrap().is_none());
}

#[test]
fn test_permutation_invariance() {
    let mut shuffled = BASE.to_vec();
    shuffled.reverse();
    shuffled.swap(2, 9);
    let mut t1 = build(BASE);
    let mut t2 = build(&shuffled);
    t1.finalize().unwrap();
    t2.finalize().unwrap();
    assert_eq!(t1.root_name(), t2.root_name());
    for (name, _, _) in BASE {
        assert_eq!(total_of(&t1, name), total_of(&t2, name));
    }
    let a1 = t1.search_unstable().unwrap().unwrap();
    let a2 = t2.search_unstable().unwrap().unwrap();
    assert_eq!(a1.0, a2.0);
    assert_eq!(a1.1.get(&"ugml".to_string()), a2.1.get(&"ugml".to_string()));
}

#[test]
fn test_reingest_idempotent() {
    let mut t1 = build(BASE);
    let mut t2 = build(BASE);
    t2.add("ugml", 68, &kids(&["gyxo", "ebii", "jptl"])).unwrap();
    t1.finalize().unwrap();
    t2.finalize().unwrap();
    assert_eq!(t1.root_name(), t2.root_name());
    for (name, _, _) in BASE {
        assert_eq!(total_of(&t1, name), total_of(&t2, name));
    }
    assert_eq!(
        t1.search_unstable().unwrap().unwrap().0,
        t2.search_unstable().unwrap().unwrap().0
    );
}

#[test]
fn test_cycle_detected_on_malformed_input() {
    let mut t = Tower::new();
    t.add("a", 1, &kids(&["b"])).unwrap();
    let r = t.add("b", 1, &kids(&["a"]));
    assert_eq!(r, Err(TowerError::CycleDetected));
}

#[test]
fn test_missing_weight() {
    let mut t = Tower::new();
    t.add("a", 1, &kids(&["b"])).unwrap();
    assert_eq!(t.finalize(), Err(TowerError::MissingWeight));
}

#[test]
fn test_last_fact_wins() {
    let mut t = Tower::new();
    t.add("a", 1, &kids(&["b"])).unwrap();
    t.add("b", 5, &kids(&[])).unwrap();
    t.add("b", 7, &kids(&[])).unwrap();
    t.finalize().unwrap();
    assert_eq!(total_of(&t, "b"), 7);
    assert_eq!(total_of(&t, "a"), 8);
}
