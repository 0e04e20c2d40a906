use github_rust_actions::fingerprint::{
    fingerprint, kept_entries, length_bytes, name_less, path_less, Entry, EntryKind, Ignores,
    FNV_OFFSET,
};
use github_rust_actions::segment::CacheType;

fn file(path: &[&[u8]], contents: &[u8]) -> Entry {
    Entry {
        path: path.iter().map(|c| c.to_vec()).collect(),
        kind: EntryKind::File,
        contents: contents.to_vec(),
    }
}

fn dir(path: &[&[u8]]) -> Entry {
    Entry { path: path.iter().map(|c| c.to_vec()).collect(), kind: EntryKind::Dir, contents: Vec::new() }
}

fn index_listing(stamp: &[u8], config: &[u8]) -> Vec<Entry> {
    vec![
        file(&[b".last-updated"], stamp),
        file(&[b"config.json"], config),
        dir(&[b"cache"]),
        file(&[b"cache", b"se"], b"serde"),
    ]
}

#[test]
fn empty_listing_has_offset_fingerprint() {
    assert_eq!(fingerprint(Vec::new(), &Ignores::new()), 0xcbf2_9ce4_8422_2325);
    assert_eq!(fingerprint(Vec::new(), &CacheType::Indices.ignores()), FNV_OFFSET);
}

#[test]
fn single_file_exact_fingerprint() {
    let r = fingerprint(vec![file(&[b"a.txt"], b"hello")], &Ignores::new());
    assert_eq!(r, 0xf91b_6b72_99c3_f600);
}

#[test]
fn nested_exact_fingerprint() {
    let r = fingerprint(vec![file(&[b"dir", b"f"], b"x"), dir(&[b"dir"])], &Ignores::new());
    assert_eq!(r, 0x0ed4_f2e0_00d3_feaa);
}

#[test]
fn fingerprint_is_deterministic() {
    let ign = CacheType::Indices.ignores();
    let a = fingerprint(index_listing(b"1", b"{}"), &ign);
    let b = fingerprint(index_listing(b"1", b"{}"), &ign);
    assert_eq!(a, b);
}

#[test]
fn listing_order_does_not_matter() {
    let ign = Ignores::new();
    let mut l = index_listing(b"1", b"{}");
    let a = fingerprint(l.clone(), &ign);
    l.reverse();
    let b = fingerprint(l.clone(), &ign);
    l.swap(0, 2);
    let c = fingerprint(l, &ign);
    assert_eq!(a, b);
    assert_eq!(a, c);
}

#[test]
fn touching_ignored_timestamp_keeps_fingerprint() {
    let ign = CacheType::Indices.ignores();
    let a = fingerprint(index_listing(b"1", b"{}"), &ign);
    let b = fingerprint(index_listing(b"2000", b"{}"), &ign);
    assert_eq!(a, b);
    let mut without = index_listing(b"1", b"{}");
    without.remove(0);
    assert_eq!(a, fingerprint(without, &ign));
    let mut below = index_listing(b"1", b"{}");
    below.push(file(&[b".last-updated", b"inner"], b"zzz"));
    assert_eq!(a, fingerprint(below, &ign));
}

#[test]
fn touching_other_file_changes_fingerprint() {
    let ign = CacheType::Indices.ignores();
    let a = fingerprint(index_listing(b"1", b"{}"), &ign);
    let b = fingerprint(index_listing(b"1", b"{ }"), &ign);
    let c = fingerprint(index_listing(b"1", b"{]"), &ign);
    assert_ne!(a, b);
    assert_ne!(a, c);
}

#[test]
fn timestamp_counts_without_the_policy() {
    let ign = Ignores::new();
    let a = fingerprint(index_listing(b"1", b"{}"), &ign);
    let b = fingerprint(index_listing(b"2", b"{}"), &ign);
    assert_ne!(a, b);
}

#[test]
fn kind_of_entry_counts() {
    let ign = Ignores::new();
    let a = fingerprint(vec![dir(&[b"x"])], &ign);
    let b = fingerprint(vec![file(&[b"x"], b"")], &ign);
    assert_ne!(a, b);
}

#[test]
fn non_ascii_names_are_raw_bytes() {
    let ign = Ignores::new();
    let utf8 = fingerprint(vec![file(&["é".as_bytes()], b"1")], &ign);
    let latin1 = fingerprint(vec![file(&[&[0xe9u8][..]], b"1")], &ign);
    assert_ne!(utf8, latin1);
    assert!(name_less(&vec![0x7f], &vec![0xc3, 0xa9]));
}

#[test]
fn length_field_holds_large_sizes() {
    let three_gib: u64 = 3 * 1024 * 1024 * 1024;
    assert_eq!(length_bytes(three_gib), vec![0, 0, 0, 0xc0, 0, 0, 0, 0]);
    assert_eq!(length_bytes(u64::MAX), vec![0xff; 8]);
    assert_ne!(length_bytes(three_gib), length_bytes(three_gib + (1u64 << 32)));
}

#[test]
fn walk_order_puts_directory_before_its_entries() {
    let a = vec![b"a".to_vec()];
    let ab = vec![b"a".to_vec(), b"b".to_vec()];
    let a0 = vec![b"a0".to_vec()];
    assert!(path_less(&a, &ab));
    assert!(path_less(&ab, &a0));
    assert!(!path_less(&a, &a));
}

#[test]
fn kept_entries_drop_ignored_subtrees() {
    let ign = CacheType::Indices.ignores();
    let mut l = index_listing(b"1", b"{}");
    l.push(file(&[b".last-updated", b"inner"], b"zzz"));
    let k = kept_entries(l, &ign);
    assert_eq!(k.len(), 3);
    assert_eq!(k[0].path, vec![b"config.json".to_vec()]);
}

#[test]
fn nfc_and_nfd_names_differ() {
    let ign = Ignores::new();
    let nfc = fingerprint(vec![file(&[&[0x63, 0x61, 0x66, 0xc3, 0xa9][..]], b"1")], &ign);
    let nfd = fingerprint(vec![file(&[&[0x63, 0x61, 0x66, 0x65, 0xcc, 0x81][..]], b"1")], &ign);
    assert_ne!(nfc, nfd);
}

#[test]
fn timestamp_below_top_level_is_hashed() {
    let ign = CacheType::Indices.ignores();
    let a = fingerprint(vec![dir(&[b"sub"]), file(&[b"sub", b".last-updated"], b"1")], &ign);
    let b = fingerprint(vec![dir(&[b"sub"]), file(&[b"sub", b".last-updated"], b"2")], &ign);
    assert_ne!(a, b);
}
