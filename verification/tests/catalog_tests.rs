use pickup::catalog::{build_catalog, is_track_path, MusicCatalog, TrackRecord};
use pickup::scan::{refresh_from, scan_dirs, DirNode, FsSnapshot};

fn bytes(s: &str) -> Vec<u8> {
    s.as_bytes().to_vec()
}

fn paths_of(cat: &MusicCatalog) -> Vec<Vec<u8>> {
    cat.tracks.iter().map(|t| t.path.clone()).collect()
}

#[test]
fn track_criterion_accepts_audio_suffixes() {
    assert!(is_track_path(&bytes("a.mp3")));
    assert!(is_track_path(&bytes("album/song.flac")));
    assert!(is_track_path(&bytes("x.ogg")));
    assert!(is_track_path(&bytes("x.wav")));
    assert!(is_track_path(&bytes(".mp3")));
}

#[test]
fn track_criterion_rejects_other_names() {
    assert!(!is_track_path(&bytes("a.txt")));
    assert!(!is_track_path(&bytes("mp3")));
    assert!(!is_track_path(&bytes("song.MP3")));
    assert!(!is_track_path(&bytes("song.mp3.bak")));
    assert!(!is_track_path(&bytes("")));
    assert!(!is_track_path(&bytes("wav")));
}

#[test]
fn build_catalog_filters_and_deduplicates_in_order() {
    let files = vec![
        bytes("a.mp3"),
        bytes("notes.txt"),
        bytes("a.mp3"),
        bytes("c.wav"),
        bytes("cover.jpg"),
    ];
    let cat = build_catalog(&files);
    assert_eq!(paths_of(&cat), vec![bytes("a.mp3"), bytes("c.wav")]);
}

#[test]
fn build_catalog_of_nothing_is_empty() {
    let cat = build_catalog(&Vec::new());
    assert_eq!(cat.len(), 0);
}

#[test]
fn catalog_completeness_over_nested_tree() {
    // four matching files at various depths, plus two non-tracks
    let snap = FsSnapshot {
        dirs: vec![
            DirNode { files: vec![bytes("root/t1.mp3"), bytes("root/readme.txt")], subdirs: vec![1, 2] },
            DirNode { files: vec![bytes("root/a/t2.flac"), bytes("root/a/cover.png")], subdirs: vec![3] },
            DirNode { files: vec![bytes("root/b/t3.ogg")], subdirs: vec![] },
            DirNode { files: vec![bytes("root/a/deep/t4.wav")], subdirs: vec![] },
        ],
    };
    let cat = refresh_from(&snap, 0);
    assert_eq!(cat.len(), 4);
    assert!(cat.contains_path(&bytes("root/t1.mp3")));
    assert!(cat.contains_path(&bytes("root/a/t2.flac")));
    assert!(cat.contains_path(&bytes("root/b/t3.ogg")));
    assert!(cat.contains_path(&bytes("root/a/deep/t4.wav")));
    assert!(!cat.contains_path(&bytes("root/readme.txt")));
}

#[test]
fn cycle_in_tree_terminates_with_each_file_once() {
    // a symlink loop: 0 -> 1 -> 0, and 1 also points at itself
    let snap = FsSnapshot {
        dirs: vec![
            DirNode { files: vec![bytes("m/a.mp3")], subdirs: vec![1] },
            DirNode { files: vec![bytes("m/loop/b.mp3")], subdirs: vec![0, 1] },
        ],
    };
    let cat = refresh_from(&snap, 0);
    assert_eq!(cat.len(), 2);
    assert!(cat.contains_path(&bytes("m/a.mp3")));
    assert!(cat.contains_path(&bytes("m/loop/b.mp3")));
}

#[test]
fn same_file_listed_twice_appears_once() {
    // two directories both reach the same real file
    let snap = FsSnapshot {
        dirs: vec![
            DirNode { files: vec![], subdirs: vec![1, 2] },
            DirNode { files: vec![bytes("m/shared.mp3")], subdirs: vec![] },
            DirNode { files: vec![bytes("m/shared.mp3")], subdirs: vec![] },
        ],
    };
    let cat = refresh_from(&snap, 0);
    assert_eq!(cat.len(), 1);
    assert!(cat.contains_path(&bytes("m/shared.mp3")));
}

#[test]
fn empty_tree_gives_zero_tracks() {
    let snap = FsSnapshot { dirs: vec![DirNode { files: vec![], subdirs: vec![] }] };
    let cat = refresh_from(&snap, 0);
    assert_eq!(cat.len(), 0);
}

#[test]
fn scan_collects_files_of_unreachable_dirs_not_at_all() {
    // directory 2 has no incoming edge from the root
    let snap = FsSnapshot {
        dirs: vec![
            DirNode { files: vec![bytes("r/a.mp3")], subdirs: vec![1] },
            DirNode { files: vec![bytes("r/s/b.mp3")], subdirs: vec![] },
            DirNode { files: vec![bytes("elsewhere/c.mp3")], subdirs: vec![] },
        ],
    };
    let files = scan_dirs(&snap, 0);
    assert_eq!(files.len(), 2);
    assert!(files.contains(&bytes("r/a.mp3")));
    assert!(files.contains(&bytes("r/s/b.mp3")));
}

#[test]
fn track_record_keeps_its_path() {
    let r = TrackRecord { path: bytes("x.mp3") };
    assert_eq!(r.path, bytes("x.mp3"));
}

#[test]
fn display_name_is_the_final_path_component() {
    let r = TrackRecord { path: bytes("root/a/deep/t4.wav") };
    assert_eq!(r.display_name(), bytes("t4.wav"));
    let bare = TrackRecord { path: bytes("solo.mp3") };
    assert_eq!(bare.display_name(), bytes("solo.mp3"));
    let trailing = TrackRecord { path: bytes("dir/") };
    assert_eq!(trailing.display_name(), bytes(""));
}
