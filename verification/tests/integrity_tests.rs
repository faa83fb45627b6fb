use grind::integrity::{
    file_digest, generate_integrity_data, is_manifest_file, verify_integrity_data, FileCheck,
    IntegrityData,
};

fn files() -> Vec<(String, Vec<u8>)> {
    vec![
        ("a.txt".to_string(), b"abcdefghijklmnopqrstuvwxyz".to_vec()),
        ("sub\\empty".to_string(), Vec::new()),
        ("integrity.json".to_string(), b"{}".to_vec()),
        ("sub/integrity.json".to_string(), b"{}".to_vec()),
    ]
}

#[test]
fn digests_are_md5_in_lower_case_hexadecimal() {
    assert_eq!(
        file_digest(&b"abcdefghijklmnopqrstuvwxyz".to_vec()),
        "c3fcd3d76192e4007dfb496cca67e13b"
    );
    assert_eq!(file_digest(&Vec::new()), "d41d8cd98f00b204e9800998ecf8427e");
    assert_eq!(
        file_digest(&b"The quick brown fox jumps over the lazy dog".to_vec()),
        "9e107d9d372bb6826bd81d3542a419d6"
    );
}

#[test]
fn manifest_files_are_known_by_their_last_part() {
    assert!(is_manifest_file("integrity.json"));
    assert!(is_manifest_file("a/b/integrity.json"));
    assert!(is_manifest_file("a\\integrity.json"));
    assert!(!is_manifest_file("integrity.json/a"));
    assert!(!is_manifest_file("my-integrity.json"));
    assert!(!is_manifest_file(""));
}

#[test]
fn the_manifest_leaves_itself_out() {
    let data = generate_integrity_data(&files());
    assert_eq!(
        data,
        IntegrityData {
            files: vec![
                ("a.txt".to_string(), "c3fcd3d76192e4007dfb496cca67e13b".to_string()),
                ("sub/empty".to_string(), "d41d8cd98f00b204e9800998ecf8427e".to_string()),
            ],
        }
    );
}

#[test]
fn a_fresh_manifest_verifies() {
    let data = generate_integrity_data(&files());
    let at_hand = vec![
        ("sub/empty".to_string(), Vec::new()),
        ("a.txt".to_string(), b"abcdefghijklmnopqrstuvwxyz".to_vec()),
    ];
    let report = verify_integrity_data(&data, &at_hand);
    assert!(report.all_match);
    assert_eq!(report.total, 2);
    assert_eq!(report.missing, 0);
    assert_eq!(report.mismatched, 0);
    assert_eq!(report.checks, vec![FileCheck::Matches, FileCheck::Matches]);
}

#[test]
fn a_changed_byte_and_a_missing_file_fail_the_verification() {
    let data = generate_integrity_data(&files());
    let changed = vec![("a.txt".to_string(), b"abcdefghijklmnopqrstuvwxyZ".to_vec())];
    let report = verify_integrity_data(&data, &changed);
    assert!(!report.all_match);
    assert_eq!(report.total, 2);
    assert_eq!(report.missing, 1);
    assert_eq!(report.mismatched, 1);
    assert_eq!(
        report.checks,
        vec![
            FileCheck::Mismatch(file_digest(&b"abcdefghijklmnopqrstuvwxyZ".to_vec())),
            FileCheck::Missing,
        ]
    );
}

#[test]
fn an_empty_manifest_verifies() {
    let report = verify_integrity_data(&IntegrityData { files: Vec::new() }, &files());
    assert!(report.all_match);
    assert_eq!(report.total, 0);
}

#[test]
fn test_integrity_on_src_directory() {
    let src_path = "HelloWorld";
    let directory = vec![
        (
            format!("{}/src/main/java/HelloWorld.java", src_path),
            b"public class HelloWorld {}\n".to_vec(),
        ),
        (format!("{}/grind.yml", src_path), b"project:\n  name: HelloWorld\n".to_vec()),
    ];
    assert!(!directory.is_empty(), "src/ directory must exist");

    let data = generate_integrity_data(&directory);

    let result = verify_integrity_data(&data, &directory);

    assert!(result.all_match, "Integrity check failed unexpectedly");
}
