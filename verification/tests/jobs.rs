use psykan::entities::asset::Asset;
use psykan::entities::asset::AssetKey;
use psykan::entities::jobs::collect_results;
use psykan::entities::jobs::UnresolvedJob;
use psykan::errors::JobError;

type StrAsset = Asset<fn() -> String, String>;

fn asset(name: &str, key: &str, deps: Vec<&str>, func: fn() -> String) -> StrAsset {
    let dependencies = deps
        .into_iter()
        .map(|d| AssetKey::new(vec![d.to_string()]))
        .collect();
    Asset::new(
        name.to_string(),
        vec![key.to_string()],
        format!("asset {}", name),
        func,
        dependencies,
    )
}

#[test]
fn test_unresolved_job_creation() {
    let asset1: StrAsset = Asset::new(
        "Asset1".to_string(),
        vec!["asset1".to_string()],
        "First asset".to_string(),
        || "Result 1".to_string(),
        vec![],
    );

    let asset2: StrAsset = Asset::new(
        "Asset1".to_string(),
        vec!["asset1".to_string()],
        "First asset".to_string(),
        || "Result 1".to_string(),
        vec![AssetKey::new(vec!["asset2".to_string()])],
    );

    let job = UnresolvedJob::new("TestJob".to_string(), vec![asset1, asset2]);
    assert_eq!(job.name().as_str(), "TestJob");
    assert_eq!(job.assets().len(), 2);
}

#[test]
fn check_dependencies_lists_exactly_the_undeclared_key() {
    fn out() -> String {
        "out".to_string()
    }
    let a = asset("A", "a", vec![], out);
    let b = asset("B", "b", vec!["a", "ghost"], out);
    let job = UnresolvedJob::new("CheckJob".to_string(), vec![a, b]);

    match job.check_dependencies() {
        Err(JobError::MissingDependency { job, keys }) => {
            assert_eq!(job, "CheckJob".to_string());
            assert_eq!(keys, vec!["ghost".to_string()]);
        }
        other => panic!("expected a missing dependency, got {:?}", other),
    }
}

#[test]
fn check_dependencies_accepts_satisfied_sets() {
    fn out() -> String {
        "out".to_string()
    }
    let a = asset("A", "a", vec![], out);
    let b = asset("B", "b", vec!["a"], out);
    let job = UnresolvedJob::new("GoodJob".to_string(), vec![a, b]);
    assert!(job.check_dependencies().is_ok());
}

#[test]
fn check_dependencies_reports_each_missing_key_once() {
    fn out() -> String {
        "out".to_string()
    }
    let a = asset("A", "a", vec!["gone", "lost"], out);
    let b = asset("B", "b", vec!["gone", "a"], out);
    let job = UnresolvedJob::new("DedupJob".to_string(), vec![a, b]);

    match job.check_dependencies() {
        Err(JobError::MissingDependency { keys, .. }) => {
            assert_eq!(keys, vec!["gone".to_string(), "lost".to_string()]);
        }
        other => panic!("expected a missing dependency, got {:?}", other),
    }
}

#[test]
fn resolve_diamond_scenario() {
    fn ra() -> String {
        "resultA".to_string()
    }
    fn rb() -> String {
        "resultB".to_string()
    }
    fn rc() -> String {
        "resultC".to_string()
    }
    let a = asset("A", "a", vec![], ra);
    let b = asset("B", "b", vec!["a"], rb);
    let c = asset("C", "c", vec!["a"], rc);
    let job = UnresolvedJob::new("Diamond".to_string(), vec![a, b, c]);

    let mut resolved = job.resolve().expect("resolution must succeed");
    assert_eq!(resolved.name().as_str(), "Diamond");

    // roots = {a}
    assert_eq!(resolved.graph().root_keys(), &vec!["a".to_string()]);

    // children of a, in order = [b, c]
    assert_eq!(
        resolved.graph().get_node("a").unwrap().get_children(),
        vec!["b".to_string(), "c".to_string()]
    );

    // every dependency sits at a strictly lower level
    assert_eq!(resolved.graph().get_level("a"), Some(0));
    assert_eq!(resolved.graph().get_level("b"), Some(1));
    assert_eq!(resolved.graph().get_level("c"), Some(1));

    // execution yields one result per asset, a before b and c
    let results = resolved.execute();
    assert_eq!(results.len(), 3);
    assert_eq!(results[0], ("a".to_string(), "resultA".to_string()));
    assert_eq!(results[1], ("b".to_string(), "resultB".to_string()));
    assert_eq!(results[2], ("c".to_string(), "resultC".to_string()));

    // visitation order = [a, b, c]
    let order: Vec<String> = results.into_iter().map(|p| p.0).collect();
    assert_eq!(order, vec!["a".to_string(), "b".to_string(), "c".to_string()]);
}

#[test]
fn resolve_missing_dependency_scenario() {
    fn rd() -> String {
        "resultD".to_string()
    }
    let d = asset("D", "d", vec!["missing"], rd);
    let job = UnresolvedJob::new("Lonely".to_string(), vec![d]);

    match job.resolve() {
        Err(JobError::MissingDependency { job, keys }) => {
            assert_eq!(job, "Lonely".to_string());
            assert_eq!(keys, vec!["missing".to_string()]);
        }
        _ => panic!("expected a missing dependency"),
    }
}

#[test]
fn resolve_cycle_scenario() {
    fn out() -> String {
        "out".to_string()
    }
    let x = asset("X", "x", vec!["y"], out);
    let y = asset("Y", "y", vec!["x"], out);
    let job = UnresolvedJob::new("Cyclic".to_string(), vec![x, y]);

    match job.resolve() {
        Err(JobError::CycleDetected { key }) => {
            assert_eq!(key, "x".to_string());
        }
        _ => panic!("expected a cycle"),
    }
}

#[test]
fn resolve_duplicate_key_scenario() {
    fn out() -> String {
        "out".to_string()
    }
    let first = asset("First", "dup", vec![], out);
    let second = asset("Second", "dup", vec![], out);
    let job = UnresolvedJob::new("Twins".to_string(), vec![first, second]);

    match job.resolve() {
        Err(JobError::DuplicateNodeKey { key }) => {
            assert_eq!(key, "dup".to_string());
        }
        _ => panic!("expected a duplicate key"),
    }
}

#[test]
fn resolve_orders_a_long_chain_by_level() {
    fn out() -> String {
        "out".to_string()
    }
    // insertion order deliberately scrambled
    let top = asset("Top", "top", vec!["mid"], out);
    let mid = asset("Mid", "mid", vec!["base"], out);
    let base = asset("Base", "base", vec![], out);
    let extra = asset("Extra", "extra", vec!["base", "mid"], out);
    let job = UnresolvedJob::new("Chain".to_string(), vec![top, mid, base, extra]);

    let mut resolved = job.resolve().expect("resolution must succeed");
    let results = resolved.execute();
    let order: Vec<String> = results.into_iter().map(|p| p.0).collect();
    assert_eq!(
        order,
        vec![
            "base".to_string(),
            "mid".to_string(),
            "extra".to_string(),
            "top".to_string()
        ]
    );
    // every asset runs strictly after all of its dependencies
    let pos = |k: &str| order_position(&order, k);
    assert!(pos("base") < pos("mid"));
    assert!(pos("base") < pos("extra"));
    assert!(pos("mid") < pos("top"));
    assert!(pos("mid") < pos("extra"));
}

fn order_position(order: &Vec<String>, key: &str) -> usize {
    order.iter().position(|k| k == key).unwrap()
}

#[test]
fn collect_results_keeps_everything_on_success() {
    let outcomes: Vec<(String, Result<i32, String>)> = vec![
        ("a".to_string(), Ok(1)),
        ("b".to_string(), Ok(2)),
    ];
    let collected = collect_results(outcomes).expect("all outcomes succeeded");
    assert_eq!(collected, vec![("a".to_string(), 1), ("b".to_string(), 2)]);
}

#[test]
fn collect_results_discards_everything_on_the_first_failure() {
    let outcomes: Vec<(String, Result<i32, String>)> = vec![
        ("a".to_string(), Ok(1)),
        ("b".to_string(), Err("boom".to_string())),
        ("c".to_string(), Err("late".to_string())),
    ];
    match collect_results(outcomes) {
        Err(JobError::ComputeFailure { asset_id }) => {
            assert_eq!(asset_id, "b".to_string());
        }
        _ => panic!("expected a compute failure"),
    }
}
