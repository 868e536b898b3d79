use conserve::apath::Apath;
use conserve::errors::Error;

fn apath(s: &str) -> Apath {
    Apath::new(s).unwrap()
}

#[test]
fn valid_and_invalid_apaths() {
    for good in ["/", "/a", "/a/b", "/a.b", "/.a", "/a/..b", "/...", "/a/b.c/d", "/\u{e9}t\u{e9}"] {
        assert!(Apath::is_valid(good), "{good:?} should be valid");
        assert_eq!(Apath::new(good).unwrap().to_string(), good);
    }
    for bad in ["", "a", "a/b", "//", "/a/", "/a//b", "/.", "/..", "/a/.", "/a/..", "/./a", "/../a", "/a/./b"] {
        assert!(!Apath::is_valid(bad), "{bad:?} should be invalid");
        assert_eq!(Apath::new(bad), Err(Error::InvalidApath { s: bad.to_string() }));
    }
}

#[test]
fn apath_order_is_by_parts() {
    // A directory comes before what it holds, and `/a/b` before `/a.b`.
    let ordered = ["/", "/a", "/a/b", "/a/b/c", "/a.b", "/a0", "/b", "/b/a"];
    for i in 0..ordered.len() {
        for j in 0..ordered.len() {
            let expected = if i < j {
                -1
            } else if i == j {
                0
            } else {
                1
            };
            assert_eq!(
                apath(ordered[i]).compare(&apath(ordered[j])),
                expected,
                "{} against {}",
                ordered[i],
                ordered[j]
            );
        }
    }
    // As plain text the order would be another.
    assert!("/a.b" < "/a/b");
}

#[test]
fn apath_order_of_a_stored_tree() {
    let names = ["/", "/hello", "/hello2", "/link", "/subdir", "/subdir/subfile"];
    for pair in names.windows(2) {
        assert_eq!(apath(pair[0]).compare(&apath(pair[1])), -1);
        assert_eq!(apath(pair[1]).compare(&apath(pair[0])), 1);
    }
}

#[test]
fn apath_within_a_subtree() {
    assert!(apath("/a/b").is_within(&apath("/a")));
    assert!(apath("/a").is_within(&apath("/a")));
    assert!(apath("/a").is_within(&apath("/")));
    assert!(apath("/").is_within(&apath("/")));
    assert!(!apath("/ab").is_within(&apath("/a")));
    assert!(!apath("/a").is_within(&apath("/a/b")));
    assert!(!apath("/").is_within(&apath("/a")));
    assert!(!apath("/b/a").is_within(&apath("/a")));
}

#[test]
fn the_root() {
    assert_eq!(Apath::root().to_string(), "/");
    assert_eq!(Apath::root(), apath("/"));
    assert_eq!(Apath::root().as_str(), "/");
    assert_eq!(Apath::root().compare(&apath("/a")), -1);
}
