use file_retention::extension::file_has_extension;

#[test]
fn extension_matches_exactly() {
    assert!(file_has_extension("clip.mp4", "mp4"));
    assert!(file_has_extension("a.b.mp4", "mp4"));
    assert!(file_has_extension("x.y", "y"));
}

#[test]
fn extension_is_case_sensitive() {
    assert!(!file_has_extension("a.MP4", "mp4"));
    assert!(!file_has_extension("a.mp4", "MP4"));
    assert!(!file_has_extension("a.Mp4", "mp4"));
    assert!(file_has_extension("a.MP4", "MP4"));
}

#[test]
fn extension_is_text_after_last_dot() {
    assert!(!file_has_extension("clip.mp4.bak", "mp4"));
    assert!(file_has_extension("clip.mp4.bak", "bak"));
    assert!(!file_has_extension("clip.mp4.bak", "mp4.bak"));
}

#[test]
fn extension_is_not_a_suffix_of_the_name() {
    assert!(!file_has_extension("clipmp4", "mp4"));
    assert!(!file_has_extension("clip.xmp4", "mp4"));
    assert!(!file_has_extension("clip.mp4", "p4"));
    assert!(!file_has_extension("clip.mp4", ".mp4"));
    assert!(!file_has_extension("clip.mp4", "mp"));
}

#[test]
fn name_without_extension_is_rejected() {
    assert!(!file_has_extension("clip", "mp4"));
    assert!(!file_has_extension("clip", ""));
    assert!(!file_has_extension("", ""));
    assert!(!file_has_extension("", "mp4"));
    assert!(!file_has_extension("mp4", "mp4"));
}

#[test]
fn hidden_file_has_no_extension() {
    assert!(!file_has_extension(".mp4", "mp4"));
    assert!(!file_has_extension(".hidden", "hidden"));
    assert!(!file_has_extension(".", ""));
    assert!(file_has_extension(".hidden.mp4", "mp4"));
    assert!(file_has_extension("..mp4", "mp4"));
}

#[test]
fn parent_dir_name_has_no_extension() {
    assert!(!file_has_extension("..", ""));
    assert!(file_has_extension("...", ""));
}

#[test]
fn empty_extension_needs_trailing_dot() {
    assert!(file_has_extension("clip.", ""));
    assert!(!file_has_extension("clip.", "mp4"));
    assert!(!file_has_extension("clip.mp4", ""));
}

#[test]
fn extension_with_non_ascii_characters() {
    assert!(file_has_extension("vidéo.mp4", "mp4"));
    assert!(file_has_extension("clip.vidéo", "vidéo"));
    assert!(!file_has_extension("clip.video", "vidéo"));
    assert!(!file_has_extension("é.é", "e"));
}
