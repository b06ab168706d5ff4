use pickup::cache::{decode_cache, encode_cache};
use pickup::catalog::{build_catalog, MusicCatalog, TrackRecord};
use pickup::scan::{refresh_from, DirNode, FsSnapshot};

fn bytes(s: &str) -> Vec<u8> {
    s.as_bytes().to_vec()
}

fn paths_of(cat: &MusicCatalog) -> Vec<Vec<u8>> {
    cat.tracks.iter().map(|t| t.path.clone()).collect()
}

#[test]
fn cache_round_trips_exactly() {
    let root = bytes("/music");
    let cat = build_catalog(&vec![bytes("/music/a.mp3"), bytes("/music/b/c.flac")]);
    let image = encode_cache(&root, &cat);
    let back = decode_cache(&root, &image).expect("image written for this root must decode");
    assert_eq!(paths_of(&back), paths_of(&cat));
}

#[test]
fn load_after_refresh_ignores_tree_changes() {
    // refresh against one snapshot, persist, then decode the image back:
    // the catalog comes from the image alone, not from any re-scan
    let root = bytes("/m");
    let snap = FsSnapshot {
        dirs: vec![
            DirNode { files: vec![bytes("/m/a.mp3")], subdirs: vec![1] },
            DirNode { files: vec![bytes("/m/d/b.ogg")], subdirs: vec![] },
        ],
    };
    let fresh = refresh_from(&snap, 0);
    let image = encode_cache(&root, &fresh);
    // the tree changing afterwards cannot matter: only the bytes are read
    let loaded = decode_cache(&root, &image).expect("cache image must decode");
    assert_eq!(paths_of(&loaded), paths_of(&fresh));
}

#[test]
fn empty_catalog_round_trips() {
    let root = bytes("/music");
    let cat = build_catalog(&Vec::new());
    let image = encode_cache(&root, &cat);
    let back = decode_cache(&root, &image).expect("empty catalog must round-trip");
    assert_eq!(back.len(), 0);
}

#[test]
fn corrupted_image_is_rejected_and_refresh_recovers() {
    let root = bytes("/m");
    let snap = FsSnapshot {
        dirs: vec![DirNode { files: vec![bytes("/m/a.mp3"), bytes("/m/b.wav")], subdirs: vec![] }],
    };
    let fresh = refresh_from(&snap, 0);
    let mut image = encode_cache(&root, &fresh);
    // truncate the image: no longer a valid record list
    image.pop();
    assert!(decode_cache(&root, &image).is_none());
    // the fallback path is a full rebuild, equal to a fresh refresh
    let rebuilt = refresh_from(&snap, 0);
    assert_eq!(paths_of(&rebuilt), paths_of(&fresh));
}

#[test]
fn garbage_bytes_are_rejected() {
    let root = bytes("/m");
    assert!(decode_cache(&root, &vec![1, 2, 3]).is_none());
    let huge_length_header = vec![0xFF; 12];
    assert!(decode_cache(&root, &huge_length_header).is_none());
}

#[test]
fn image_for_another_root_fails_closed() {
    let cat = build_catalog(&vec![bytes("/old/a.mp3")]);
    let image = encode_cache(&bytes("/old"), &cat);
    // switching roots must not silently return the wrong catalog
    assert!(decode_cache(&bytes("/new"), &image).is_none());
    assert!(decode_cache(&bytes("/old"), &image).is_some());
}

#[test]
fn image_with_duplicate_path_is_rejected() {
    // bypass the construction discipline to write an invalid image
    let bad = MusicCatalog {
        tracks: vec![
            TrackRecord { path: bytes("/m/a.mp3") },
            TrackRecord { path: bytes("/m/a.mp3") },
        ],
    };
    let image = encode_cache(&bytes("/m"), &bad);
    assert!(decode_cache(&bytes("/m"), &image).is_none());
}

#[test]
fn empty_byte_image_is_rejected() {
    // parses as zero records, so it lacks the root key record
    assert!(decode_cache(&bytes("/m"), &Vec::new()).is_none());
}
