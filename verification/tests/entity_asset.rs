use psykan::entities::asset::Asset;
use psykan::entities::asset::AssetKey;
use psykan::traits::NodeContent;

#[test]
fn asset_test_asset_creation() {
    let asset = Asset::new(
        "Test Asset".to_string(),
        vec!["test".to_string()],
        "This is a test asset".to_string(),
        || "Test closure executed".to_string(),
        vec![],
    );

    assert_eq!(asset.name().as_str(), "Test Asset");
    assert_eq!(asset.key(), &AssetKey::new(vec!["test".to_string()]));
    assert_eq!(asset.description().as_str(), "This is a test asset");
}

#[test]
fn asset_test_asset_execution() {
    let asset = Asset::new(
        "Execution Test".to_string(),
        vec!["execute".to_string()],
        "This asset tests execution".to_string(),
        || "Execution successful!".to_string(),
        vec![],
    );

    assert_eq!(asset.execute(), "Execution successful!");
}

#[test]
fn asset_test_asset_with_different_return_types() {
    // Asset returning an integer
    let int_asset = Asset::new(
        "Integer Asset".to_string(),
        vec!["integer".to_string()],
        "This asset returns an integer".to_string(),
        || 42,
        vec![],
    );
    assert_eq!(int_asset.execute(), 42);

    // Asset returning a boolean
    let bool_asset = Asset::new(
        "Boolean Asset".to_string(),
        vec!["boolean".to_string()],
        "This asset returns a boolean".to_string(),
        || true,
        vec![],
    );
    assert_eq!(bool_asset.execute(), true);
}

#[test]
fn asset_key_round_trip() {
    let key = AssetKey::new(vec!["alpha".to_string(), "beta".to_string()]);
    assert_eq!(key.to_vec(), vec!["alpha".to_string(), "beta".to_string()]);
}

#[test]
fn asset_flat_id_joins_segments() {
    let asset = Asset::new(
        "Nested".to_string(),
        vec!["alpha".to_string(), "beta".to_string(), "gamma".to_string()],
        "A nested key".to_string(),
        || 0,
        vec![],
    );
    assert_eq!(asset.id(), "alpha__beta__gamma");

    let single = Asset::new(
        "Single".to_string(),
        vec!["solo".to_string()],
        "A single segment".to_string(),
        || 0,
        vec![],
    );
    assert_eq!(single.id(), "solo");
}

#[test]
fn asset_dependency_ids_join_each_key() {
    let asset = Asset::new(
        "Depends".to_string(),
        vec!["top".to_string()],
        "Has two dependencies".to_string(),
        || 0,
        vec![
            AssetKey::new(vec!["a".to_string(), "b".to_string()]),
            AssetKey::new(vec!["c".to_string()]),
        ],
    );
    assert_eq!(asset.dependency_ids(), vec!["a__b".to_string(), "c".to_string()]);
    assert_eq!(asset.dependencies().len(), 2);
}
