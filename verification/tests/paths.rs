//! Paths, mounts and scopes.

use tributary_fs::mountinfo::{fs_type_is_remote, parse_mountinfo, unescape_mountinfo};
use tributary_fs::path::{
    ancestors, file_name, join, lies_under, parent, path_components, same_bytes, starts_with,
};
use tributary_fs::scope::{
    ScopeFrame, differ, excluded, mnt_id_from_mask, mode_is_directory,
};

fn parts(path: &str) -> Vec<String> {
    path_components(path.as_bytes())
        .into_iter()
        .map(|p| String::from_utf8(p).expect("text"))
        .collect()
}

fn std_parts(path: &str) -> Vec<String> {
    std::path::Path::new(path)
        .components()
        .map(|c| c.as_os_str().to_str().expect("text").to_string())
        .collect()
}

const PATHS: [&str; 19] = [
    "", "/", "//", ".", "./", "..", "/..", "a", "a/", "./a", "a/./b", "a//b", "/a/b", "/a/./b/",
    "/./a", "a/../b", "/root/cache", "/root/cachex", "/root/cache/deep/",
];

#[test]
fn components_are_those_of_the_standard_library() {
    for path in PATHS {
        assert_eq!(parts(path), std_parts(path), "{path:?}");
    }
}

#[test]
fn containment_is_that_of_the_standard_library() {
    for a in PATHS {
        for b in PATHS {
            let (pa, pb) = (std::path::Path::new(a), std::path::Path::new(b));
            assert_eq!(
                starts_with(a.as_bytes(), b.as_bytes()),
                pa.starts_with(pb),
                "{a:?} {b:?}"
            );
            assert_eq!(
                lies_under(a.as_bytes(), b.as_bytes()),
                pa.starts_with(pb) && pa != pb,
                "{a:?} {b:?}"
            );
        }
    }
}

#[test]
fn joining_is_that_of_the_standard_library() {
    for a in PATHS {
        for b in PATHS {
            let joined = std::path::Path::new(a).join(b);
            assert_eq!(
                join(a.as_bytes(), b.as_bytes()),
                joined.to_str().expect("text").as_bytes().to_vec(),
                "{a:?} {b:?}"
            );
        }
    }
}

#[test]
fn parents_and_names_are_those_of_the_standard_library() {
    for path in PATHS {
        let std_path = std::path::Path::new(path);
        let own = parent(path.as_bytes()).map(|p| String::from_utf8(p).expect("text"));
        assert_eq!(own.as_deref().map(std::path::Path::new), std_path.parent(), "{path:?}");
        let name = file_name(path.as_bytes()).map(|p| String::from_utf8(p).expect("text"));
        assert_eq!(
            name.as_deref(),
            std_path.file_name().map(|n| n.to_str().expect("text")),
            "{path:?}"
        );
        let ours: Vec<String> = ancestors(path.as_bytes())
            .into_iter()
            .map(|p| String::from_utf8(p).expect("text"))
            .collect();
        let theirs: Vec<&std::path::Path> = std_path.ancestors().skip(1).collect();
        assert_eq!(ours.len(), theirs.len(), "{path:?}");
        for (a, b) in ours.iter().zip(theirs) {
            assert_eq!(std::path::Path::new(a), b, "{path:?}");
        }
    }
}

#[test]
fn an_exclusion_covers_what_is_beneath_it_by_components() {
    let exclusions = vec![b"/root/cache".to_vec(), b"/tmp".to_vec()];
    assert!(excluded(&exclusions, b"/root/cache"));
    assert!(excluded(&exclusions, b"/root/cache/deep"));
    assert!(excluded(&exclusions, b"/tmp/x"));
    assert!(!excluded(&exclusions, b"/root/cachex"));
    assert!(!excluded(&exclusions, b"/root"));
    assert!(!excluded(&Vec::new(), b"/root/cache"));
    assert!(same_bytes(b"ab", b"ab") && !same_bytes(b"ab", b"ac") && !same_bytes(b"a", b"ab"));
}

#[test]
fn escapes_stand_for_their_bytes() {
    assert_eq!(unescape_mountinfo(b"/a\\040b"), b"/a b".to_vec());
    assert_eq!(unescape_mountinfo(b"\\011\\012\\134"), b"\t\n\\".to_vec());
    assert_eq!(unescape_mountinfo(b"/a\\04"), b"/a\\04".to_vec());
    assert_eq!(unescape_mountinfo(b"/a\\048"), b"/a\\048".to_vec());
    assert_eq!(unescape_mountinfo(b"\\377"), vec![255]);
    assert_eq!(unescape_mountinfo(b""), Vec::<u8>::new());
}

#[test]
fn mount_points_beneath_the_root_are_found_in_order() {
    let content = "22 1 0:21 / /root rw - ext4 x rw\n\
        23 22 0:22 / /root/a\\040b rw - tmpfs x rw\n\
        malformed line\n\
        24 22 0:23 / /rootx rw - tmpfs x rw\n\
        25 22 0:24 / /root/c/d rw - tmpfs x rw";
    assert_eq!(
        parse_mountinfo(content, b"/root"),
        vec![b"/root/a b".to_vec(), b"/root/c/d".to_vec()]
    );
    assert_eq!(parse_mountinfo("", b"/root"), Vec::<Vec<u8>>::new());
    assert_eq!(
        parse_mountinfo("1 2\u{2003}3\t4 \u{a0} /r/x\r\n", b"/r"),
        vec![b"/r/x".to_vec()]
    );
}

#[test]
fn fields_are_parted_as_the_standard_library_parts_them() {
    let line = " a\u{85}b\u{1680}c\u{2028}d\u{205f}e\u{3000}f \u{200b}g";
    let content = format!("{line}\n");
    let field = line.split_whitespace().nth(4).expect("five fields");
    assert_eq!(field, "e");
    assert_eq!(parse_mountinfo(&content, b""), vec![b"e".to_vec()]);
}

#[test]
fn filesystems_that_tell_only_of_this_machine_are_remote() {
    for magic in [
        0x6969i64,
        0x517B,
        0xFE53_4D42,
        0xFF53_4D42,
        0x6573_5546,
        0x0102_1997,
        0x5346_414F,
        0x7375_7245,
        0x00C3_6400,
        0x564C,
    ] {
        assert!(fs_type_is_remote(magic));
        assert!(!fs_type_is_remote(magic + 1));
    }
    assert!(!fs_type_is_remote(0xEF53));
    assert!(!fs_type_is_remote(0x0102_1994));
}

#[test]
fn a_mount_id_counts_only_where_the_mask_says_so() {
    assert_eq!(mnt_id_from_mask(libc::STATX_MNT_ID, 7), Some(7));
    assert_eq!(mnt_id_from_mask(libc::STATX_MNT_ID | libc::STATX_INO, 7), Some(7));
    assert_eq!(mnt_id_from_mask(libc::STATX_INO, 7), None);
    assert_eq!(mnt_id_from_mask(0, 7), None);
}

#[test]
fn a_mode_is_a_directorys_by_its_type() {
    assert!(mode_is_directory(libc::S_IFDIR | 0o755));
    assert!(!mode_is_directory(libc::S_IFREG | 0o755));
    assert!(!mode_is_directory(libc::S_IFBLK));
    assert!(!mode_is_directory(0o755));
}

#[test]
fn what_is_unknown_crosses_nothing() {
    let frame = ScopeFrame { root_dev: Some(1), root_mnt_id: Some(2) };
    assert!(!frame.crossed_by(Some(1), Some(2)));
    assert!(frame.crossed_by(Some(3), Some(2)));
    assert!(frame.crossed_by(Some(1), Some(3)));
    assert!(!frame.crossed_by(None, None));
    assert!(frame.crossed_by(None, Some(3)));
    let blind = ScopeFrame { root_dev: None, root_mnt_id: None };
    assert!(!blind.crossed_by(Some(3), Some(3)));
    assert!(differ(Some(1), Some(2)) && !differ(Some(1), None) && !differ(None, None));
}
