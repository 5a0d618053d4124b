use proton_call::error::Kind;
use proton_call::{DirEntry, Index, Version};

fn entry(name: &str, path: &str, is_dir: bool) -> DirEntry {
    DirEntry { name: name.to_string(), path: path.to_string(), is_dir }
}

fn sample_listing() -> Vec<DirEntry> {
    vec![
        entry("Proton 7.0", "/common/Proton 7.0", true),
        entry("Proton Experimental", "/common/Proton Experimental", true),
        entry("notes.txt", "/common/notes.txt", false),
    ]
}

#[test]
fn scan_indexes_directories_only() {
    let mut idx = Index::new("/common");
    idx.index(Some(&sample_listing())).unwrap();
    assert_eq!(idx.len(), 2);
    assert!(!idx.is_empty());
    assert_eq!(idx.get(&Version::Mainline(7, 0)), Some("/common/Proton 7.0".to_string()));
    assert_eq!(
        idx.get(&Version::Experimental),
        Some("/common/Proton Experimental".to_string())
    );
    assert_eq!(idx.get(&Version::Custom), None);
    assert_eq!(idx.get(&Version::Mainline(6, 3)), None);
}

#[test]
fn scan_records_custom_names() {
    let mut idx = Index::new("/common");
    let listing = vec![entry("GE-Proton8-1", "/common/GE-Proton8-1", true)];
    idx.index(Some(&listing)).unwrap();
    assert_eq!(idx.len(), 1);
    assert_eq!(idx.get(&Version::Custom), Some("/common/GE-Proton8-1".to_string()));
}

#[test]
fn scan_last_writer_wins() {
    let mut idx = Index::new("/common");
    let listing = vec![
        entry("Old 7.0", "/common/Old 7.0", true),
        entry("New 7.0", "/common/New 7.0", true),
    ];
    idx.index(Some(&listing)).unwrap();
    assert_eq!(idx.len(), 1);
    assert_eq!(idx.get(&Version::Mainline(7, 0)), Some("/common/New 7.0".to_string()));
}

#[test]
fn unreadable_listing_is_the_hard_error() {
    let mut idx = Index::new("/common");
    let e = idx.index(None).unwrap_err();
    assert_eq!(e.kind, Kind::IndexReadDir);
    assert_eq!(idx.len(), 0);
}

#[test]
fn snapshot_roundtrip_restores_the_map() {
    let mut idx = Index::new("/common");
    idx.index(Some(&sample_listing())).unwrap();
    let snapshot = idx.to_cache();

    let mut restored = Index::new("/common");
    let reindexed = restored.load(Some(snapshot.as_str()), None).unwrap();
    assert!(!reindexed);
    assert_eq!(restored.len(), 2);
    assert_eq!(
        restored.get(&Version::Mainline(7, 0)),
        Some("/common/Proton 7.0".to_string())
    );
    assert_eq!(
        restored.get(&Version::Experimental),
        Some("/common/Proton Experimental".to_string())
    );
}

#[test]
fn corrupt_snapshot_falls_open_to_a_scan() {
    let listing = sample_listing();
    let mut fresh = Index::new("/common");
    fresh.index(Some(&listing)).unwrap();

    for garbage in ["", "garbage", "0000", "\u{1F980} not a snapshot"] {
        let mut idx = Index::new("/common");
        let reindexed = idx.load(Some(garbage), Some(&listing)).unwrap();
        assert!(reindexed);
        assert_eq!(idx.len(), fresh.len());
        assert_eq!(idx.get(&Version::Mainline(7, 0)), fresh.get(&Version::Mainline(7, 0)));
        assert_eq!(idx.get(&Version::Experimental), fresh.get(&Version::Experimental));
    }
}

#[test]
fn truncated_snapshot_falls_open_to_a_scan() {
    let mut idx = Index::new("/common");
    idx.index(Some(&sample_listing())).unwrap();
    let snapshot = idx.to_cache();
    let truncated: String = snapshot.chars().take(snapshot.chars().count() / 2).collect();

    let mut again = Index::new("/common");
    let reindexed = again.load(Some(truncated.as_str()), Some(&sample_listing())).unwrap();
    assert!(reindexed);
    assert_eq!(again.len(), 2);
}

#[test]
fn missing_snapshot_and_unreadable_listing_fail() {
    let mut idx = Index::new("/common");
    let e = idx.load(None, None).unwrap_err();
    assert_eq!(e.kind, Kind::IndexReadDir);
}

#[test]
fn empty_index_roundtrips() {
    let idx = Index::new("/common");
    let snapshot = idx.to_cache();
    let mut restored = Index::new("/common");
    assert!(!restored.load(Some(snapshot.as_str()), None).unwrap());
    assert_eq!(restored.len(), 0);
    assert!(restored.is_empty());
}

#[test]
fn malformed_snapshot_text_is_an_index_cache_error() {
    let mut idx = Index::new("/common");
    idx.index(Some(&sample_listing())).unwrap();
    let e = idx.read_index("not a snapshot").unwrap_err();
    assert_eq!(e.kind, Kind::IndexCache);
    assert_eq!(idx.len(), 2);

    let snapshot = idx.to_cache();
    idx.read_index(&snapshot).unwrap();
    assert_eq!(idx.len(), 2);
}

#[test]
fn display_of_an_empty_index() {
    let idx = Index::new("/common");
    assert_eq!(
        idx.to_display(),
        "Indexed Directory: /common\n\nIndexed 0 Proton Versions:\n"
    );
}

#[test]
fn cache_location_is_under_home() {
    assert_eq!(
        Index::cache_location(Some("/home/user")).unwrap(),
        "/home/user/.cache/proton/index"
    );
    let e = Index::cache_location(None).unwrap_err();
    assert_eq!(e.kind, Kind::Environment);
}

#[test]
fn display_lists_root_count_and_entries() {
    let mut idx = Index::new("/common");
    let listing = vec![entry("Proton 7.0", "/common/Proton 7.0", true)];
    idx.index(Some(&listing)).unwrap();
    assert_eq!(
        idx.to_display(),
        "Indexed Directory: /common\n\nIndexed 1 Proton Versions:\n\nProton 7.0: /common/Proton 7.0"
    );
}
