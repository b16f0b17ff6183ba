use asterisk_core::fingerprint::{
    fingerprint_bytes, is_file_modified, DepFingerprint, FingerprintRecord, FingerprintStore,
};
use asterisk_core::scaffold::{
    create_asterisk_yml, create_gitignore, kilobytes_rounded, main_rs_template, tally_files,
};

fn sample_record() -> FingerprintRecord {
    FingerprintRecord {
        id: "src/lib.rs".to_string(),
        fingerprint: 0xdead_beef,
        built_at: 1700000000,
        dep_fingerprints: vec![
            DepFingerprint { id: "src/util.rs".to_string(), fingerprint: 41 },
            DepFingerprint { id: "src/io.rs".to_string(), fingerprint: 42 },
        ],
    }
}

#[test]
fn record_then_load_round_trips_all_fields() {
    let mut store = FingerprintStore::new();
    store.record(sample_record());
    let loaded = store.load(&"src/lib.rs".to_string()).expect("the record must be found");
    let original = sample_record();
    assert_eq!(loaded.id, original.id);
    assert_eq!(loaded.fingerprint, original.fingerprint);
    assert_eq!(loaded.built_at, original.built_at);
    assert_eq!(loaded.dep_fingerprints.len(), 2);
    assert_eq!(loaded.dep_fingerprints[0].id, "src/util.rs");
    assert_eq!(loaded.dep_fingerprints[0].fingerprint, 41);
    assert_eq!(loaded.dep_fingerprints[1].id, "src/io.rs");
    assert_eq!(loaded.dep_fingerprints[1].fingerprint, 42);
}

#[test]
fn record_overwrites_only_its_own_unit() {
    let mut store = FingerprintStore::new();
    store.record(sample_record());
    let mut other = sample_record();
    other.id = "src/main.rs".to_string();
    other.fingerprint = 7;
    store.record(other);
    let mut updated = sample_record();
    updated.fingerprint = 99;
    store.record(updated);
    assert_eq!(store.records.len(), 2);
    assert_eq!(store.load(&"src/lib.rs".to_string()).unwrap().fingerprint, 99);
    assert_eq!(store.load(&"src/main.rs".to_string()).unwrap().fingerprint, 7);
}

#[test]
fn clear_removes_every_record() {
    let mut store = FingerprintStore::new();
    store.record(sample_record());
    store.clear();
    assert!(store.records.is_empty());
    assert!(store.load(&"src/lib.rs".to_string()).is_none());
}

#[test]
fn missing_record_counts_as_modified() {
    let store = FingerprintStore::new();
    assert!(is_file_modified(&store, &"src/lib.rs".to_string(), 1));
}

#[test]
fn matching_fingerprint_is_unmodified() {
    let mut store = FingerprintStore::new();
    store.record(sample_record());
    let id = "src/lib.rs".to_string();
    assert!(!is_file_modified(&store, &id, 0xdead_beef));
    assert!(is_file_modified(&store, &id, 0xdead_beef + 1));
}

#[test]
fn fingerprint_of_empty_input_is_the_offset() {
    assert_eq!(fingerprint_bytes(&[]), 0xcbf29ce484222325);
}

#[test]
fn fingerprint_matches_known_values() {
    assert_eq!(fingerprint_bytes(b"a"), 0xaf63dc4c8601ec8c);
    assert_eq!(fingerprint_bytes(b"foobar"), 0x85944171f73967e8);
}

#[test]
fn identical_bytes_give_identical_fingerprints() {
    let here = b"fn main() {}".to_vec();
    let elsewhere = b"fn main() {}".to_vec();
    assert_eq!(fingerprint_bytes(&here), fingerprint_bytes(&elsewhere));
    assert_ne!(fingerprint_bytes(&here), fingerprint_bytes(b"fn main() { }"));
}

#[test]
fn asterisk_yml_carries_the_project_name() {
    assert_eq!(
        create_asterisk_yml("demo"),
        "package:\n  name: demo\n  version: 0.1.0\n\ndependencies:\n  # Add your dependencies here\n",
    );
}

#[test]
fn gitignore_hides_the_output_directory() {
    assert_eq!(create_gitignore(), "/output\n");
}

#[test]
fn main_rs_template_is_hello_world() {
    assert_eq!(main_rs_template(), "fn main() {\n    println!(\"Hello, world!\");\n}\n");
}

#[test]
fn tally_sums_and_counts_files() {
    assert_eq!(tally_files(&vec![100, 924]), (1024, 2));
    assert_eq!(tally_files(&Vec::new()), (0, 0));
}

#[test]
fn kilobytes_round_half_up() {
    assert_eq!(kilobytes_rounded(1024), 1);
    assert_eq!(kilobytes_rounded(512), 1);
    assert_eq!(kilobytes_rounded(511), 0);
    assert_eq!(kilobytes_rounded(1536), 2);
}
