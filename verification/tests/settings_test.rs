use context_loader::cache::CacheEntry;
use context_loader::cache::TokenCache;
use context_loader::settings::Settings;
use context_loader::tokenizer::TokenEstimator;

#[test]
fn test_settings_save_load() {
    let mut settings = Settings::new("/tmp/settings.json".to_string());
    settings.add_recent_workspace("/path/to/workspace1".to_string());
    settings.add_recent_workspace("/path/to/workspace2".to_string());
    assert_eq!(settings.recent_workspaces.len(), 2);
    assert_eq!(settings.recent_workspaces[0], "/path/to/workspace2");
    assert_eq!(settings.recent_workspaces[1], "/path/to/workspace1");
    assert_eq!(settings.config_path, Some("/tmp/settings.json".to_string()));
}

#[test]
fn recent_workspaces_hold_five_and_no_path_twice() {
    let mut settings = Settings::default();
    for name in ["a", "b", "c", "d", "e", "f"] {
        settings.add_recent_workspace(name.to_string());
    }
    assert_eq!(settings.get_recent_workspaces(), ["f", "e", "d", "c", "b"]);
    settings.add_recent_workspace("d".to_string());
    assert_eq!(settings.get_recent_workspaces(), ["d", "f", "e", "c", "b"]);
    settings.add_recent_workspace("d".to_string());
    assert_eq!(settings.get_recent_workspaces(), ["d", "f", "e", "c", "b"]);
    settings.clear_recent_workspaces();
    assert!(settings.get_recent_workspaces().is_empty());
}

#[test]
fn estimator_and_config_path() {
    let mut settings = Settings::default();
    assert_eq!(settings.get_token_estimator(), TokenEstimator::CharDiv4);
    assert_eq!(settings.config_path, None);
    settings.set_token_estimator(TokenEstimator::Cl100k);
    assert_eq!(settings.get_token_estimator(), TokenEstimator::Cl100k);
    let settings = settings.with_config_path("/x/settings.json".to_string());
    assert_eq!(settings.config_path, Some("/x/settings.json".to_string()));
    assert_eq!(settings.get_token_estimator(), TokenEstimator::Cl100k);
}

#[test]
fn test_cache_operations() {
    let file_path = "/tmp/x/test.txt";
    let mut cache = TokenCache::new(TokenEstimator::Cl100k);
    assert!(cache.get_entry(file_path).is_none());

    let entry = CacheEntry { token_count: 42, mtime: 123456789, hash: "test_hash".to_string() };
    cache.insert_entry(file_path.to_string(), entry);

    let retrieved = cache.get_entry(file_path).unwrap();
    assert_eq!(retrieved.token_count, 42);
    assert_eq!(retrieved.mtime, 123456789);
    assert_eq!(retrieved.hash.as_str(), "test_hash");

    cache.clear();
    assert!(cache.get_entry(file_path).is_none());
}

#[test]
fn a_later_entry_takes_the_place_of_an_earlier_one() {
    let mut cache = TokenCache::new(TokenEstimator::CharDiv4);
    cache.insert_entry("a".to_string(), CacheEntry { token_count: 1, mtime: 1, hash: "h1".to_string() });
    cache.insert_entry("b".to_string(), CacheEntry { token_count: 2, mtime: 2, hash: "h2".to_string() });
    cache.insert_entry("a".to_string(), CacheEntry { token_count: 3, mtime: 3, hash: "h3".to_string() });
    assert_eq!(cache.get_entry("a").unwrap().token_count, 3);
    assert_eq!(cache.get_entry("b").unwrap().token_count, 2);
    assert!(cache.get_entry("c").is_none());
    assert_eq!(cache.len(), 2);
    assert_eq!(cache.estimator(), TokenEstimator::CharDiv4);
}

#[test]
fn a_stored_cache_is_used_for_its_own_estimator_only() {
    let mut stored = TokenCache::new(TokenEstimator::Cl100k);
    stored.insert_entry("a".to_string(), CacheEntry { token_count: 1, mtime: 1, hash: "h".to_string() });
    let same = TokenCache::reuse_or_new(Some(stored.clone()), TokenEstimator::Cl100k);
    assert!(same.get_entry("a").is_some());
    let other = TokenCache::reuse_or_new(Some(stored), TokenEstimator::CharDiv4);
    assert!(other.get_entry("a").is_none());
    assert_eq!(other.estimator(), TokenEstimator::CharDiv4);
    let fresh = TokenCache::reuse_or_new(None, TokenEstimator::Llama2);
    assert_eq!(fresh.len(), 0);
}
