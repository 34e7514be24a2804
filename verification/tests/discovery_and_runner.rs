use hash_parity::baseline::{join_path, nested_baseline_dir, resolve_baseline_dir, BaselineStore};
use hash_parity::chart::{judge, ActualEntry, BaselineEntry};
use hash_parity::digest::ContentDigest;
use hash_parity::error::HarnessError;
use hash_parity::fixture::{classify, discover, find_last, format_hint, split_extension, Fixture};
use hash_parity::runner::{
    is_selected, load_baseline, open_fixture, select, Config, Summary, EXIT_FAILED,
};

fn paths(list: &[&str]) -> Vec<Vec<u8>> {
    list.iter().map(|p| p.as_bytes().to_vec()).collect()
}

fn names(fixtures: &[Fixture]) -> Vec<String> {
    fixtures.iter().map(|f| String::from_utf8(f.display_name.clone()).unwrap()).collect()
}

fn config() -> Config {
    Config { filter: None, exact: false, skip: Vec::new(), ignored: false, list: false }
}

fn baseline_entries(json: &[u8]) -> Vec<BaselineEntry> {
    let value: serde_json::Value = serde_json::from_slice(json).unwrap();
    value
        .as_array()
        .unwrap()
        .iter()
        .map(|e| BaselineEntry {
            step_type: e["steps_type"].as_str().unwrap().as_bytes().to_vec(),
            difficulty: e["difficulty"].as_str().unwrap().as_bytes().to_vec(),
            hash: e["hash"].as_str().unwrap().as_bytes().to_vec(),
            meter: e.get("meter").and_then(|m| m.as_u64()).map(|m| m as u32),
        })
        .collect()
}

#[test]
fn paths_are_joined_by_one_slash() {
    assert_eq!(join_path(b"tests/baseline", b"d4"), b"tests/baseline/d4".to_vec());
    assert_eq!(join_path(b"tests/baseline/", b"d4"), b"tests/baseline/d4".to_vec());
    assert_eq!(join_path(b"", b"d4"), b"d4".to_vec());
    assert_eq!(join_path(b"/", b"d4"), b"/d4".to_vec());
}

#[test]
fn nested_baseline_directory_wins() {
    assert_eq!(nested_baseline_dir(b"tests/baseline"), b"tests/baseline/baseline".to_vec());
    assert_eq!(
        resolve_baseline_dir(b"tests/baseline".to_vec(), true),
        b"tests/baseline/baseline".to_vec()
    );
    assert_eq!(resolve_baseline_dir(b"tests/baseline".to_vec(), false), b"tests/baseline".to_vec());
    assert_eq!(BaselineStore::open(b"b".to_vec(), true).root, b"b/baseline".to_vec());
    assert_eq!(BaselineStore::open(b"b".to_vec(), false).root, b"b".to_vec());
}

#[test]
fn baseline_path_is_sharded_by_digest() {
    let store = BaselineStore::open(b"tests/baseline".to_vec(), false);
    let digest = ContentDigest::parse(b"d41d8cd98f00b204e9800998ecf8427e").unwrap();
    assert_eq!(
        store.path_for(&digest),
        b"tests/baseline/d4/d41d8cd98f00b204e9800998ecf8427e.json.zst".to_vec()
    );
    let nested = BaselineStore::open(b"tests/baseline".to_vec(), true);
    assert_eq!(
        nested.path_for(&ContentDigest::of_content(b"abc")),
        b"tests/baseline/baseline/90/900150983cd24fb0d6963f7d28e17f72.json.zst".to_vec()
    );
}

#[test]
fn absent_baseline_resolves_to_none() {
    let store = BaselineStore::open(b"b".to_vec(), false);
    assert_eq!(store.resolve(None).unwrap(), None);
    let stored = zstd::encode_all(&b"[]"[..], 0).unwrap();
    assert_eq!(store.resolve(Some(&stored)).unwrap(), Some(b"[]".to_vec()));
    assert!(matches!(store.resolve(Some(b"garbage")), Err(HarnessError::CorruptArchive)));
}

#[test]
fn missing_baseline_fails_the_fixture() {
    let store = BaselineStore::open(b"tests/baseline".to_vec(), false);
    let stored = zstd::encode_all(&b""[..], 0).unwrap();
    let (content, digest) = open_fixture(&stored).unwrap();
    assert!(content.is_empty());
    match load_baseline(&store, &digest, None) {
        Err(HarnessError::MissingBaseline { digest, path }) => {
            assert_eq!(digest, b"d41d8cd98f00b204e9800998ecf8427e".to_vec());
            assert_eq!(
                path,
                b"tests/baseline/d4/d41d8cd98f00b204e9800998ecf8427e.json.zst".to_vec()
            );
        }
        other => panic!("unexpected outcome: {:?}", other),
    }
}

#[test]
fn corrupt_fixture_and_corrupt_baseline() {
    assert!(matches!(open_fixture(b"no archive"), Err(HarnessError::CorruptArchive)));
    let store = BaselineStore::open(b"b".to_vec(), false);
    let digest = ContentDigest::of_content(b"");
    assert!(matches!(
        load_baseline(&store, &digest, Some(b"no archive")),
        Err(HarnessError::CorruptArchive)
    ));
}

#[test]
fn whole_check_of_one_fixture_passes() {
    let store = BaselineStore::open(b"tests/baseline".to_vec(), false);
    let fixture = zstd::encode_all(&b""[..], 0).unwrap();
    let (content, digest) = open_fixture(&fixture).unwrap();
    assert_eq!(content, Vec::<u8>::new());
    assert_eq!(digest.as_bytes(), b"d41d8cd98f00b204e9800998ecf8427e");
    assert_eq!(
        store.path_for(&digest),
        b"tests/baseline/d4/d41d8cd98f00b204e9800998ecf8427e.json.zst".to_vec()
    );
    let json = b"[{\"difficulty\": \"Hard\", \"steps_type\": \"dance-single\", \"hash\": \"abc123\"}]";
    let stored = zstd::encode_all(&json[..], 0).unwrap();
    let baseline = load_baseline(&store, &digest, Some(&stored)).unwrap();
    assert_eq!(baseline, json.to_vec());
    let expected = baseline_entries(&baseline);
    let actual = vec![ActualEntry {
        step_type: b"dance-single".to_vec(),
        difficulty: b"hard".to_vec(),
        hash: b"abc123".to_vec(),
    }];
    assert!(judge(&expected, &actual).is_ok());

    let other = vec![ActualEntry {
        step_type: b"dance-single".to_vec(),
        difficulty: b"hard".to_vec(),
        hash: b"xyz999".to_vec(),
    }];
    match judge(&expected, &other) {
        Err(HarnessError::Mismatch { expected, actual, .. }) => {
            assert_eq!(expected, vec![b"abc123".to_vec()]);
            assert_eq!(actual, vec![b"xyz999".to_vec()]);
        }
        other => panic!("unexpected outcome: {:?}", other),
    }
}

#[test]
fn two_level_extension_makes_a_fixture() {
    assert_eq!(format_hint(b"PackA/Song1/file.ssc.zst"), Some(b"ssc".to_vec()));
    assert_eq!(format_hint(b"PackA/Song1/file.sm.zst"), Some(b"sm".to_vec()));
    assert_eq!(format_hint(b"file.SM.zst"), Some(b"sm".to_vec()));
    assert_eq!(format_hint(b"file.Ssc.zst"), Some(b"ssc".to_vec()));
    assert_eq!(format_hint(b"a.b.c.sm.zst"), Some(b"sm".to_vec()));
    assert_eq!(format_hint(b"file.ssc"), None);
    assert_eq!(format_hint(b"file.ssc.ZST"), None);
    assert_eq!(format_hint(b"file.zst"), None);
    assert_eq!(format_hint(b"file.txt.zst"), None);
    assert_eq!(format_hint(b"file.json.zst"), None);
    assert_eq!(format_hint(b".sm.zst"), None);
    assert_eq!(format_hint(b"Pack.sm.zst/readme"), None);
    assert_eq!(format_hint(b"Pack/.zst"), None);
    assert_eq!(format_hint(b"..zst"), None);
    assert_eq!(format_hint(b"...zst"), None);
    assert_eq!(format_hint(b""), None);
    assert_eq!(format_hint(b"Pack/"), None);
}

#[test]
fn extension_splitting() {
    assert_eq!(split_extension(b"file.sm.zst"), Some((b"file.sm".to_vec(), b"zst".to_vec())));
    assert_eq!(split_extension(b"file."), Some((b"file".to_vec(), Vec::new())));
    assert_eq!(split_extension(b".hidden"), None);
    assert_eq!(split_extension(b"plain"), None);
    assert_eq!(split_extension(b""), None);
    assert_eq!(find_last(b"a/b/c", 47, 0), Some(3));
    assert_eq!(find_last(b"a/b/c", 47, 4), None);
    assert_eq!(find_last(b"/abc", 47, 1), None);
    assert_eq!(find_last(b"abc", 47, 9), None);
}

#[test]
fn classification_builds_the_fixture() {
    let f = classify(b"tests/packs", b"PackA/Song1/file.SSC.zst").unwrap();
    assert_eq!(f.display_name, b"PackA/Song1/file.SSC.zst".to_vec());
    assert_eq!(f.storage_path, b"tests/packs/PackA/Song1/file.SSC.zst".to_vec());
    assert_eq!(f.format_hint, b"ssc".to_vec());
    assert!(classify(b"tests/packs", b"PackA/Song1/banner.png").is_none());
}

#[test]
fn discovery_sorts_and_skips() {
    let found = paths(&[
        "PackB/Song/file.sm.zst",
        "PackA/Song2/file.ssc.zst",
        "PackA/Song2/banner.png",
        "PackA/Song1/file.ssc.zst",
        "PackA/Song1/file.ssc",
        "PackA/Song10/file.SM.zst",
    ]);
    let fixtures = discover(b"root", &found);
    assert_eq!(
        names(&fixtures),
        vec![
            "PackA/Song1/file.ssc.zst",
            "PackA/Song10/file.SM.zst",
            "PackA/Song2/file.ssc.zst",
            "PackB/Song/file.sm.zst",
        ]
    );
    assert_eq!(fixtures[1].format_hint, b"sm".to_vec());
    assert_eq!(fixtures[1].storage_path, b"root/PackA/Song10/file.SM.zst".to_vec());
    assert!(discover(b"root", &Vec::new()).is_empty());
}

#[test]
fn discovery_is_order_independent() {
    let one = paths(&["c.sm.zst", "a.sm.zst", "b.ssc.zst", "x.txt", "a/a.sm.zst"]);
    let other = paths(&["a/a.sm.zst", "x.txt", "b.ssc.zst", "a.sm.zst", "c.sm.zst"]);
    let first = discover(b"r", &one);
    let second = discover(b"r", &other);
    let again = discover(b"r", &one);
    assert_eq!(names(&first), vec!["a.sm.zst", "a/a.sm.zst", "b.ssc.zst", "c.sm.zst"]);
    assert_eq!(names(&first), names(&second));
    assert_eq!(names(&first), names(&again));
}

#[test]
fn filter_selects_by_substring_or_exact_name() {
    let mut c = config();
    assert!(is_selected(&c, b"PackA/Song1/file.ssc.zst"));
    c.filter = Some(b"Song1".to_vec());
    assert!(is_selected(&c, b"PackA/Song1/file.ssc.zst"));
    assert!(!is_selected(&c, b"PackA/Song2/file.ssc.zst"));
    c.exact = true;
    assert!(!is_selected(&c, b"PackA/Song1/file.ssc.zst"));
    c.filter = Some(b"PackA/Song1/file.ssc.zst".to_vec());
    assert!(is_selected(&c, b"PackA/Song1/file.ssc.zst"));
    assert!(!is_selected(&c, b"PackA/Song1/file.ssc.zst2"));
}

#[test]
fn exclusions_and_ignored_mode() {
    let mut c = config();
    c.skip = paths(&["Song2", "PackB"]);
    assert!(is_selected(&c, b"PackA/Song1/file.ssc.zst"));
    assert!(!is_selected(&c, b"PackA/Song2/file.ssc.zst"));
    assert!(!is_selected(&c, b"PackB/Song1/file.ssc.zst"));
    c.skip = Vec::new();
    c.ignored = true;
    assert!(!is_selected(&c, b"PackA/Song1/file.ssc.zst"));
}

#[test]
fn selection_keeps_order() {
    let found = paths(&["b/1.sm.zst", "a/1.sm.zst", "a/2.sm.zst", "c/1.sm.zst", "a/3.ssc.zst"]);
    let mut fixtures = discover(b"r", &found);
    let mut c = config();
    c.filter = Some(b"a/".to_vec());
    c.skip = paths(&["2"]);
    select(&mut fixtures, &c);
    assert_eq!(names(&fixtures), vec!["a/1.sm.zst", "a/3.ssc.zst"]);

    let mut all = discover(b"r", &found);
    select(&mut all, &config());
    assert_eq!(all.len(), 5);

    let mut none = discover(b"r", &found);
    c.ignored = true;
    select(&mut none, &c);
    assert!(none.is_empty());
}

#[test]
fn summary_counts_and_exit_status() {
    let mut summary = Summary::new();
    assert_eq!(summary.exit_code(), 0);
    summary.record(b"a".to_vec(), Ok(()));
    summary.record(b"b".to_vec(), Err(HarnessError::CorruptArchive));
    summary.record(b"c".to_vec(), Ok(()));
    summary.record(b"d".to_vec(), Err(HarnessError::EngineFailure { detail: b"bad".to_vec() }));
    assert_eq!(summary.passed, 2);
    assert_eq!(summary.failed(), 2);
    assert_eq!(summary.failures[0].name, b"b".to_vec());
    assert_eq!(summary.failures[1].name, b"d".to_vec());
    assert!(matches!(summary.failures[1].error, HarnessError::EngineFailure { .. }));
    assert_eq!(summary.exit_code(), 101);
    assert_eq!(EXIT_FAILED, 101);

    let mut passing = Summary::new();
    passing.record(b"a".to_vec(), Ok(()));
    assert_eq!(passing.exit_code(), 0);
}
