//! Checks of the record parser and the semantic-version order and
//! rendering.
use revdep_index::home::{cargo_home, default_index, home_dir, index_path, is_hidden, ConfigError};
use revdep_index::record::{parse_record, Dep, ParseIssue, RawRecord};
use revdep_index::version::{version_lt_exec, version_render, Version};

fn ver(text: &str) -> Version {
    let raw = RawRecord {
        name: b"p".to_vec(),
        vers: text.to_string(),
        deps: Vec::new(),
        cksum: Vec::new(),
        features: Vec::new(),
        yanked: false,
    };
    parse_record(raw).unwrap().vers
}

fn lt(a: &str, b: &str) -> bool {
    version_lt_exec(&ver(a), &ver(b))
}

#[test]
fn parser_decomposes_a_version() {
    let v = ver("1.2.3-alpha.7+build.5");
    assert_eq!((v.major, v.minor, v.patch), (1, 2, 3));
    assert_eq!(v.pre, b"alpha.7".to_vec());
    assert_eq!(v.build, b"build.5".to_vec());
}

#[test]
fn parser_rejects_invalid_versions() {
    let raw = RawRecord {
        name: b"p".to_vec(),
        vers: "1.2".to_string(),
        deps: Vec::new(),
        cksum: Vec::new(),
        features: Vec::new(),
        yanked: false,
    };
    assert_eq!(parse_record(raw).unwrap_err(), ParseIssue::InvalidVersion);
}

#[test]
fn parser_rejects_invalid_requirements() {
    let raw = RawRecord {
        name: b"p".to_vec(),
        vers: "1.0.0".to_string(),
        deps: vec![Dep {
            name: b"q".to_vec(),
            req: "not a requirement!!".to_string(),
            features: Vec::new(),
            optional: false,
            default_features: true,
            target: None,
            kind: None,
        }],
        cksum: Vec::new(),
        features: Vec::new(),
        yanked: false,
    };
    assert_eq!(parse_record(raw).unwrap_err(), ParseIssue::InvalidRequirement { index: 0 });
}

#[test]
fn numeric_order_on_major_minor_patch() {
    assert!(lt("0.9.0", "1.0.0"));
    assert!(lt("1.0.0", "1.0.1"));
    assert!(lt("1.9.0", "1.10.0"));
    assert!(!lt("2.0.0", "1.9.9"));
}

#[test]
fn pre_release_sorts_below_its_release() {
    assert!(lt("1.0.0-alpha", "1.0.0"));
    assert!(!lt("1.0.0", "1.0.0-alpha"));
    assert!(lt("0.9.0", "1.0.0-alpha"));
}

#[test]
fn pre_release_identifier_order() {
    // numeric identifiers compare numerically, not textually
    assert!(lt("1.0.0-alpha.2", "1.0.0-alpha.10"));
    // numeric identifiers sort before alphanumeric ones
    assert!(lt("1.0.0-1", "1.0.0-alpha"));
    // a prefix of more identifiers comes first
    assert!(lt("1.0.0-alpha", "1.0.0-alpha.1"));
    // alphanumeric identifiers compare by bytes
    assert!(lt("1.0.0-alpha", "1.0.0-beta"));
}

#[test]
fn build_metadata_never_orders() {
    assert!(!lt("1.0.0+aaa", "1.0.0+bbb"));
    assert!(!lt("1.0.0+bbb", "1.0.0+aaa"));
}

#[test]
fn rendering_round_trip() {
    assert_eq!(version_render(&ver("10.20.30")), b"10.20.30".to_vec());
    assert_eq!(version_render(&ver("1.0.0-alpha.1+b5")), b"1.0.0-alpha.1+b5".to_vec());
}

#[test]
fn index_path_prefers_the_explicit_location() {
    assert_eq!(
        index_path(Some(b"/given".to_vec()), Some(b"/default".to_vec())),
        Ok(b"/given".to_vec())
    );
    assert_eq!(index_path(None, Some(b"/default".to_vec())), Ok(b"/default".to_vec()));
    assert_eq!(index_path(None, None), Err(ConfigError::NoIndexLocation));
}

#[test]
fn default_index_is_below_the_cargo_home() {
    let d = default_index(Some(b"/home/u/.cargo".to_vec())).unwrap();
    assert_eq!(
        d,
        b"/home/u/.cargo/registry/index/github.com-1ecc6299db9ec823".to_vec()
    );
    assert!(default_index(None).is_none());
}

#[test]
fn home_dir_prefers_the_profile_variable() {
    assert_eq!(home_dir(Some(b"/p".to_vec()), Some(b"/h".to_vec())), Some(b"/p".to_vec()));
    assert_eq!(home_dir(None, Some(b"/h".to_vec())), Some(b"/h".to_vec()));
    assert_eq!(home_dir(None, None), None);
}

#[test]
fn hidden_entries_are_detected() {
    assert!(is_hidden(&b".git".to_vec()));
    assert!(!is_hidden(&b"serde".to_vec()));
    assert!(!is_hidden(&b"".to_vec()));
}

#[test]
fn cargo_home_from_the_environment() {
    // a usable CARGO_HOME joins onto the working directory
    assert_eq!(
        cargo_home(Some(b"ch".to_vec()), b"/cwd".to_vec(), Some(b"/home/u".to_vec())),
        Some(b"/cwd/ch".to_vec())
    );
    // an absolute CARGO_HOME stands alone
    assert_eq!(
        cargo_home(Some(b"/opt/cargo".to_vec()), b"/cwd".to_vec(), None),
        Some(b"/opt/cargo".to_vec())
    );
}

#[test]
fn cargo_home_falls_back_to_the_user_home() {
    // no variable: .cargo below the home directory
    assert_eq!(
        cargo_home(None, b"/cwd".to_vec(), Some(b"/home/u".to_vec())),
        Some(b"/home/u/.cargo".to_vec())
    );
    // a blank value counts as unset
    assert_eq!(
        cargo_home(Some(b"  ".to_vec()), b"/cwd".to_vec(), Some(b"/home/u".to_vec())),
        Some(b"/home/u/.cargo".to_vec())
    );
    // a leftover multirust value counts as unset
    assert_eq!(
        cargo_home(
            Some(b"/home/u/.multirust/cargo".to_vec()),
            b"/cwd".to_vec(),
            Some(b"/home/u".to_vec())
        ),
        Some(b"/home/u/.cargo".to_vec())
    );
    assert_eq!(cargo_home(None, b"/cwd".to_vec(), None), None);
}
