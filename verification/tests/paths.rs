use sample_library::paths::{
    ancestors_of, extension_of, file_name_of, parent_of, path_key_of, shown_name_of,
};
use std::path::Path;

const SAMPLES: [&str; 38] = [
    "",
    "/",
    "//",
    ".",
    "./",
    "..",
    "/..",
    "a",
    "a/",
    "a//",
    "/a",
    "/a/",
    "//a",
    "a/b",
    "a//b",
    "a/./b",
    "./a",
    "./a/b",
    "././a",
    "a/.",
    "a/./",
    "a/..",
    "a/../b",
    "/a/b/c",
    "/a/b/c.wav",
    "/a/./b/.//c.WAV",
    "a.b/c",
    ".hidden",
    "/x/.hidden",
    "/x/.hidden.wav",
    "/x/a.tar.gz",
    "/x/a.",
    "/x/..a",
    "...",
    "/samples/Drums/kick.wav",
    "/Müsik/Träck.Flac",
    "/./a",
    ".//",
];

fn text(p: &Path) -> String {
    p.to_str().unwrap().to_string()
}

#[test]
fn parents_are_those_of_std() {
    for s in SAMPLES {
        assert_eq!(parent_of(s), Path::new(s).parent().map(text), "{s:?}");
    }
}

#[test]
fn file_names_are_those_of_std() {
    for s in SAMPLES {
        let expected = Path::new(s).file_name().map(|n| n.to_str().unwrap().to_string());
        assert_eq!(file_name_of(s), expected, "{s:?}");
        assert_eq!(shown_name_of(s), expected.unwrap_or_else(|| s.to_string()), "{s:?}");
    }
}

#[test]
fn extensions_are_those_of_std() {
    for s in SAMPLES {
        let expected = Path::new(s).extension().map(|n| n.to_str().unwrap().to_string());
        assert_eq!(extension_of(s), expected, "{s:?}");
    }
}

#[test]
fn keys_identify_paths_as_std_does() {
    for s in SAMPLES {
        assert_eq!(path_key_of(s).0, Path::new(s).components().count(), "{s:?}");
        for t in SAMPLES {
            let same = Path::new(s) == Path::new(t);
            assert_eq!(path_key_of(s).1 == path_key_of(t).1, same, "{s:?} {t:?}");
        }
    }
}

#[test]
fn ancestors_stop_below_the_root_and_the_start() {
    assert_eq!(ancestors_of("/a/b/c.wav"), vec!["/a/b", "/a"]);
    assert_eq!(ancestors_of("a/b/c.wav"), vec!["a/b", "a"]);
    assert_eq!(ancestors_of("c.wav"), Vec::<String>::new());
    assert_eq!(ancestors_of("/c.wav"), Vec::<String>::new());
    assert_eq!(ancestors_of("/"), Vec::<String>::new());
    assert_eq!(ancestors_of(""), Vec::<String>::new());
    assert_eq!(ancestors_of("./a/b"), vec!["./a", "."]);
    for s in SAMPLES {
        let mut expected = Vec::new();
        let mut p = Path::new(s).to_path_buf();
        while let Some(up) = p.parent() {
            if up.as_os_str().is_empty() || up.parent().is_none() {
                break;
            }
            expected.push(text(up));
            p = up.to_path_buf();
        }
        assert_eq!(ancestors_of(s), expected, "{s:?}");
    }
}

#[test]
fn a_separator_behind_a_path_changes_nothing() {
    for s in SAMPLES {
        if !s.is_empty() {
            let t = format!("{s}/");
            assert_eq!(path_key_of(s).1, path_key_of(&t).1, "{s:?}");
            assert_eq!(parent_of(s), parent_of(&t), "{s:?}");
            assert_eq!(file_name_of(s), file_name_of(&t), "{s:?}");
        }
    }
}
