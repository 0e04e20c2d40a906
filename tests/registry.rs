use github_rust_actions::error::Error;
use github_rust_actions::segment::{get_types_to_cache, split_words, CacheType};

#[test]
fn short_and_friendly_names() {
    assert_eq!(CacheType::Indices.short_name(), "indices");
    assert_eq!(CacheType::Crates.short_name(), "crates");
    assert_eq!(CacheType::GitRepos.short_name(), "git-repos");
    assert_eq!(CacheType::Indices.friendly_name(), "Registry indices");
    assert_eq!(CacheType::Crates.friendly_name(), "Crate files");
    assert_eq!(CacheType::GitRepos.friendly_name(), "Git repositories");
}

#[test]
fn relative_paths_of_segments() {
    assert_eq!(CacheType::Indices.relative_path(), vec!["registry".to_string(), "index".to_string()]);
    assert_eq!(CacheType::Crates.relative_path(), vec!["registry".to_string(), "cache".to_string()]);
    assert_eq!(CacheType::GitRepos.relative_path(), vec!["git".to_string(), "db".to_string()]);
}

#[test]
fn only_the_index_ignores_its_timestamp() {
    let mut path = Vec::new();
    path.push(b".last-updated".to_vec());
    assert!(CacheType::Indices.ignores().is_ignored(&path));
    assert!(!CacheType::Crates.ignores().is_ignored(&path));
    assert!(!CacheType::GitRepos.ignores().is_ignored(&path));
    let deeper = vec![b"sub".to_vec(), b".last-updated".to_vec()];
    assert!(!CacheType::Indices.ignores().is_ignored(&deeper));
}

#[test]
fn short_names_parse_back() {
    for t in CacheType::all() {
        assert_eq!(CacheType::from_short_name(t.short_name()), Some(t));
    }
    assert_eq!(CacheType::from_short_name("Indices"), None);
    assert_eq!(CacheType::from_short_name(""), None);
}

#[test]
fn absent_input_selects_everything() {
    let r = get_types_to_cache(None).unwrap();
    assert_eq!(r, vec![CacheType::Indices, CacheType::Crates, CacheType::GitRepos]);
}

#[test]
fn empty_input_selects_everything() {
    let r = get_types_to_cache(Some("")).unwrap();
    assert_eq!(r, vec![CacheType::Indices, CacheType::Crates, CacheType::GitRepos]);
    let r = get_types_to_cache(Some("  \t\n")).unwrap();
    assert_eq!(r, vec![CacheType::Indices, CacheType::Crates, CacheType::GitRepos]);
}

#[test]
fn unknown_token_is_named() {
    match get_types_to_cache(Some("indices bogus crates")) {
        Err(Error::ParseCacheableItem(t)) => assert_eq!(t, "bogus"),
        other => panic!("unexpected {:?}", other),
    }
}

#[test]
fn first_unknown_token_is_named() {
    match get_types_to_cache(Some("zzz indices yyy")) {
        Err(Error::ParseCacheableItem(t)) => assert_eq!(t, "zzz"),
        other => panic!("unexpected {:?}", other),
    }
}

#[test]
fn duplicates_are_dropped_and_order_is_fixed() {
    let r = get_types_to_cache(Some("git-repos indices git-repos")).unwrap();
    assert_eq!(r, vec![CacheType::Indices, CacheType::GitRepos]);
    let s = get_types_to_cache(Some("indices\u{3000}git-repos")).unwrap();
    assert_eq!(r, s);
}

#[test]
fn selection_is_repeatable() {
    let a = get_types_to_cache(Some("crates indices")).unwrap();
    let b = get_types_to_cache(Some("crates indices")).unwrap();
    assert_eq!(a, b);
    assert_eq!(a, vec![CacheType::Indices, CacheType::Crates]);
}

#[test]
fn words_split_on_unicode_whitespace() {
    assert_eq!(split_words("  a\tbc\u{a0}d  "), vec!["a".to_string(), "bc".to_string(), "d".to_string()]);
    assert!(split_words("").is_empty());
    assert_eq!(split_words("é"), vec!["é".to_string()]);
}
