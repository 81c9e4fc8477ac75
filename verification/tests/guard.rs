use delivered::cache::{Cache, Revision};
use delivered::guard::{is_inside, path_components, requested_names, PathStyle};

fn names(path: &str) -> Option<Vec<String>> {
    requested_names(PathStyle::Unix, path)
}

fn some(list: &[&str]) -> Option<Vec<String>> {
    Some(list.iter().map(|s| s.to_string()).collect())
}

fn path(list: &[&str]) -> Vec<Vec<u8>> {
    list.iter().map(|s| s.as_bytes().to_vec()).collect()
}

#[test]
fn request_paths_are_decoded_and_split() {
    assert_eq!(names("/"), some(&[]));
    assert_eq!(names(""), some(&[]));
    assert_eq!(names("/stream/demo.mp4"), some(&["stream", "demo.mp4"]));
    assert_eq!(names("//a//b/./c/"), some(&["a", "b", "c"]));
    assert_eq!(names("/my%20file%2B"), some(&["my file+"]));
    assert_eq!(names("/%C3%A9t%c3%a9"), some(&["été"]));
    assert_eq!(names("/a%2Fb"), some(&["a", "b"]));
    assert_eq!(names("/..."), some(&["..."]));
}

#[test]
fn a_percent_sign_without_two_digits_stands_for_itself() {
    assert_eq!(names("/100%"), some(&["100%"]));
    assert_eq!(names("/%zz"), some(&["%zz"]));
    assert_eq!(names("/%4"), some(&["%4"]));
    assert_eq!(names("/%%41"), some(&["%A"]));
}

#[test]
fn request_paths_that_lead_out_are_refused() {
    for path in [
        "/..",
        "/../secret",
        "/a/../b",
        "/a/..",
        "/%2e%2e/secret",
        "/a/%2E./b",
        "/%2Fetc/passwd",
        "/%2F",
        "/%ff",
        "/%C3",
    ] {
        assert_eq!(names(path), None, "accepted {path:?}");
    }
}

#[test]
fn absolute_paths_have_no_components() {
    assert_eq!(path_components(PathStyle::Unix, "/a"), None);
    assert_eq!(path_components(PathStyle::Unix, "a/b"), some(&["a", "b"]));
    assert_eq!(path_components(PathStyle::Unix, "."), some(&[]));
    assert_eq!(path_components(PathStyle::Unix, "a/../b"), None);
}

#[test]
fn backslashes_and_drives_count_on_windows_only() {
    let windows = |path: &str| requested_names(PathStyle::Windows, path);
    assert_eq!(windows("/a%5Cb/c"), some(&["a", "b", "c"]));
    assert_eq!(names("/a%5Cb/c"), some(&["a\\b", "c"]));
    assert_eq!(windows("/a/x:y"), some(&["a", "x:y"]));
    assert_eq!(windows("/1:"), some(&["1:"]));
    assert_eq!(windows("/:"), some(&[":"]));
    for path in ["/%5Cetc", "/a%5C..%5Cb", "/C:", "/c:a", "/Z:%5Ca", "/%5C%5Cserver%5Cshare"] {
        assert_eq!(windows(path), None, "accepted {path:?}");
        assert!(names(path).is_some(), "refused {path:?}");
    }
}

#[test]
fn only_what_lies_below_the_directory_is_inside() {
    let base = path(&["/", "srv", "public"]);
    assert!(is_inside(&base, &base));
    assert!(is_inside(&base, &path(&["/", "srv", "public", "a.mp4"])));
    assert!(!is_inside(&base, &path(&["/", "srv"])));
    assert!(!is_inside(&base, &path(&["/", "srv", "publicity"])));
    assert!(!is_inside(&base, &path(&["/", "etc", "passwd", "x"])));
    assert!(is_inside(&[], &base));
}

#[test]
fn the_cache_follows_the_file() {
    let old = Revision { len: 10, modified: Some(5) };
    let new = Revision { len: 10, modified: Some(6) };
    let unknown = Revision { len: 10, modified: None };
    let mut cache: Cache<u32> = Cache::new();
    assert_eq!(cache.get("demo", &old), None);
    cache.insert(String::from("demo"), old, 1);
    cache.insert(String::from("other"), unknown, 7);
    assert_eq!(cache.get("demo", &old), Some(&1));
    assert_eq!(cache.get("demo", &new), None);
    assert_eq!(cache.get("demo", &unknown), None);
    cache.insert(String::from("demo"), new, 2);
    assert_eq!(cache.get("demo", &old), None);
    assert_eq!(cache.get("demo", &new), Some(&2));
    assert_eq!(cache.get("other", &unknown), Some(&7));
    assert_eq!(cache.get("other", &Revision { len: 11, modified: None }), None);
}
