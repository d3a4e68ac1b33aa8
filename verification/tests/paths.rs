use slpk_unpack::errors::UnpackError;
use slpk_unpack::paths::{sanitize_name, unpack_folder_path};

fn comps(name: &str) -> Vec<Vec<u8>> {
    sanitize_name(name.as_bytes())
}

#[test]
fn traversal_segments_never_escape_the_root() {
    assert_eq!(
        comps("../../etc/passwd"),
        vec![b"etc".to_vec(), b"passwd".to_vec()]
    );
}

#[test]
fn absolute_roots_are_stripped() {
    assert_eq!(comps("/etc/passwd"), vec![b"etc".to_vec(), b"passwd".to_vec()]);
}

#[test]
fn drive_prefixes_are_dropped() {
    assert_eq!(
        comps("C:\\data\\tile.bin"),
        vec![b"data".to_vec(), b"tile.bin".to_vec()]
    );
}

#[test]
fn current_dir_segments_are_dropped() {
    assert_eq!(comps("./a/./b.json"), vec![b"a".to_vec(), b"b.json".to_vec()]);
}

#[test]
fn plain_relative_names_are_kept_whole() {
    assert_eq!(
        comps("nodes/0/geometry.bin"),
        vec![b"nodes".to_vec(), b"0".to_vec(), b"geometry.bin".to_vec()]
    );
}

#[test]
fn fully_unsafe_names_leave_nothing() {
    assert_eq!(comps("../.."), Vec::<Vec<u8>>::new());
    assert_eq!(comps(""), Vec::<Vec<u8>>::new());
}

#[test]
fn unpack_folder_is_the_source_minus_extension() {
    assert_eq!(
        unpack_folder_path(b"scenes/town.slpk"),
        Ok(b"scenes/town".to_vec())
    );
    assert_eq!(unpack_folder_path(b"town.slpk"), Ok(b"town".to_vec()));
}

#[test]
fn source_without_extension_has_no_folder() {
    assert_eq!(unpack_folder_path(b"town"), Err(UnpackError::NoStem));
    assert_eq!(unpack_folder_path(b"scenes/town"), Err(UnpackError::NoStem));
}

#[test]
fn source_that_is_only_an_extension_has_no_folder() {
    assert_eq!(unpack_folder_path(b".slpk"), Err(UnpackError::NoStem));
    assert_eq!(unpack_folder_path(b"scenes/.slpk"), Err(UnpackError::NoStem));
}
