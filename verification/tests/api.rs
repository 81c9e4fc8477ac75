use std::path::PathBuf;

use delivered::api::{base_path, resource, segment_index, Failure, Resource};
use delivered::json::{list, listing, push_json_string};
use delivered::names::{source, stream_name};

fn resolve(name: &str) -> Option<PathBuf> {
    source(name).map(|file| PathBuf::from("/files/stream").join(file))
}

fn owned(names: &[&str]) -> Vec<String> {
    names.iter().map(|n| n.to_string()).collect()
}

#[test]
fn a_plain_name_resolves_inside_the_stream_directory() {
    assert_eq!(
        resolve("clip"),
        Some(PathBuf::from("/files/stream").join("clip.mp4"))
    );
    // The extension is optional, so a client may echo back the file name.
    assert_eq!(resolve("clip.mp4"), resolve("clip"));
}

#[test]
fn names_that_could_escape_the_directory_are_refused() {
    for name in [
        "",
        "..",
        "../secret",
        "..\\secret",
        "a/../../secret",
        "sub/clip",
        "sub\\clip",
        ".env",
        ".",
        "clip\0.mp4",
    ] {
        assert!(resolve(name).is_none(), "accepted {name:?}");
    }
}

#[test]
fn only_one_extension_is_optional() {
    assert_eq!(source("clip.mp4.mp4"), Some(String::from("clip.mp4.mp4")));
    assert_eq!(source(".mp4"), None);
    assert_eq!(source("a."), Some(String::from("a..mp4")));
    assert_eq!(source("a..b"), None);
    assert_eq!(source("été"), Some(String::from("été.mp4")));
}

#[test]
fn segment_names_parse_only_in_the_documented_form() {
    assert_eq!(segment_index("segment-0.m4s"), Some(0));
    assert_eq!(segment_index("segment-42.m4s"), Some(42));
    for name in [
        "segment-.m4s",
        "segment-1.mp4",
        "segment--1.m4s",
        "seg-1.m4s",
        "segment-1",
        "init.mp4",
    ] {
        assert_eq!(segment_index(name), None, "accepted {name:?}");
    }
}

#[test]
fn segment_numbers_are_read_as_integers_are() {
    assert_eq!(segment_index("segment-007.m4s"), Some(7));
    assert_eq!(segment_index("segment-+5.m4s"), Some(5));
    assert_eq!(segment_index("segment-+.m4s"), None);
    assert_eq!(segment_index("segment-++5.m4s"), None);
    assert_eq!(segment_index("segment-1a.m4s"), None);
    let most = format!("segment-{}.m4s", usize::MAX);
    assert_eq!(segment_index(&most), Some(usize::MAX));
    let more = format!("segment-{}0.m4s", usize::MAX);
    assert_eq!(segment_index(&more), None);
}

#[test]
fn segment_names_lead_back_to_their_segment() {
    for n in [0, 1, 9, 10, 99, 100, 12345] {
        assert_eq!(segment_index(&format!("segment-{n}.m4s")), Some(n));
    }
}

#[test]
fn file_names_select_their_resource() {
    assert_eq!(resource("master.m3u8"), Resource::Master);
    assert_eq!(resource("index.m3u8"), Resource::Media);
    assert_eq!(resource("playlist.m3u8"), Resource::Media);
    assert_eq!(resource("init.mp4"), Resource::Init);
    assert_eq!(resource("segment-3.m4s"), Resource::Segment(3));
    assert_eq!(resource("master"), Resource::Missing);
    assert_eq!(resource("other.m3u8"), Resource::Missing);
    assert_eq!(resource(""), Resource::Missing);
}

#[test]
fn m3u_works_wherever_m3u8_does() {
    for name in ["master", "index", "playlist", "other", "", "init.mp4", "a.m3u8"] {
        assert_eq!(
            resource(&format!("{name}.m3u")),
            resource(&format!("{name}.m3u8"))
        );
    }
    assert_eq!(resource("master.m3u"), Resource::Master);
}

#[test]
fn resources_state_their_type_and_how_long_they_keep() {
    assert_eq!(Resource::Master.content_type(), "application/vnd.apple.mpegurl");
    assert_eq!(Resource::Media.content_type(), "application/vnd.apple.mpegurl");
    assert_eq!(Resource::Init.content_type(), "video/mp4");
    assert_eq!(Resource::Segment(1).content_type(), "video/iso.segment");
    assert_eq!(Resource::Master.cache_control(), Some("public, max-age=10"));
    assert_eq!(
        Resource::Segment(1).cache_control(),
        Some("public, max-age=31536000, immutable")
    );
    assert_eq!(Resource::Init.cache_control(), Resource::Segment(0).cache_control());
    assert_eq!(Resource::Missing.cache_control(), None);
    assert_eq!(base_path("demo"), "/api/stream/demo");
}

#[test]
fn failures_map_onto_status_codes() {
    assert_eq!(Failure::NotFound.answer(), (404, String::from("not found\n")));
    assert_eq!(
        Failure::InvalidData(String::from("no moov box found")).answer(),
        (422, String::from("no moov box found\n"))
    );
    assert_eq!(Failure::Other.answer(), (500, String::from("internal error\n")));
}

#[test]
fn json_strings_escape_what_would_break_the_document() {
    let mut out = String::new();
    push_json_string(&mut out, "a\"b\\c\nd\te");
    assert_eq!(out, r#""a\"b\\c\nd\te""#);

    // Bare control characters are illegal in JSON and must come out escaped.
    let mut out = String::new();
    push_json_string(&mut out, "bell\u{7}");
    assert_eq!(out, r#""bell\u0007""#);
}

#[test]
fn json_strings_are_appended_and_keep_other_characters() {
    let mut out = String::from("x");
    push_json_string(&mut out, "é/\u{1f}\r\u{7f}");
    assert_eq!(out, "x\"é/\\u001f\\r\u{7f}\"");
    assert!(out.chars().all(|c| c as u32 >= 0x20));
}

#[test]
fn the_list_is_sorted_by_name() {
    assert_eq!(list(Vec::new()), "{\"streams\":[]}");
    assert_eq!(
        list(owned(&["b", "a"])),
        "{\"streams\":[{\"name\":\"a\",\"master\":\"/api/stream/a/master.m3u8\"},\
         {\"name\":\"b\",\"master\":\"/api/stream/b/master.m3u8\"}]}"
    );
    // A prefix comes first, capitals before small letters, accents behind.
    assert_eq!(
        list(owned(&["é", "ab", "Z", "a", "b"])),
        listing(&owned(&["Z", "a", "ab", "b", "é"]))
    );
    assert_eq!(
        list(owned(&["q\"", "a", "a"])),
        listing(&owned(&["a", "a", "q\""]))
    );
}

#[test]
fn sources_are_listed_by_their_stem() {
    assert_eq!(stream_name("demo.mp4"), Some(String::from("demo")));
    assert_eq!(stream_name("a.b.mp4"), Some(String::from("a.b")));
    assert_eq!(stream_name("été.mp4"), Some(String::from("été")));
    assert_eq!(stream_name("demo.mkv"), None);
    assert_eq!(stream_name("demo.mp4x"), None);
    assert_eq!(stream_name("mp4"), None);
    assert_eq!(stream_name("demo."), None);
    assert_eq!(stream_name(""), None);
}

#[test]
fn only_streams_that_can_be_asked_for_are_listed() {
    for file in [
        "demo.mp4", "a.b.mp4", "a..mp4", "été.mp4", ".hidden.mp4", "CLIP.MP4", "clip.Mp4",
        "a.mp4.mp4", ".mp4", "..mp4", "a..b.mp4", "a\\b.mp4",
    ] {
        if let Some(name) = stream_name(file) {
            assert_eq!(source(&name), Some(String::from(file)));
        }
    }
    for file in [".hidden.mp4", "CLIP.MP4", "a.mp4.mp4", ".mp4", "..mp4", "a..b.mp4"] {
        assert_eq!(stream_name(file), None, "listed {file:?}");
    }
}

#[test]
fn a_stream_that_resolves_is_listed() {
    for name in ["demo", "a.b", "a.", "été"] {
        let file = source(name).expect("resolves");
        assert_eq!(stream_name(&file), Some(String::from(name)));
    }
}
