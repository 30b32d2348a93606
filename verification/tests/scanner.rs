use ioc_scanner::enumerate::{gather_files, FsEntry};
use ioc_scanner::domain::find_domain;
use ioc_scanner::hashes::find_hash;
use ioc_scanner::ipv4::find_ipv4;
use ioc_scanner::scan::{scan_files, scan_text, IocType, MatchRecord, ScanInput};

fn strings(vals: &[&str]) -> Vec<Vec<u8>> {
    vals.iter().map(|v| v.as_bytes().to_vec()).collect()
}

fn record(file: &str, ioc_type: IocType, value: &str) -> MatchRecord {
    MatchRecord { file: file.to_string(), ioc_type, value: value.as_bytes().to_vec() }
}

fn entry(path: &str, name: &str, is_file: bool) -> FsEntry {
    FsEntry { path: path.to_string(), name: name.as_bytes().to_vec(), is_file }
}

fn filter(exts: &[&str]) -> Option<Vec<Vec<u8>>> {
    Some(exts.iter().map(|e| e.as_bytes().to_vec()).collect())
}

const MD5ISH: &str = "deadbeefdeadbeefdeadbeefdeadbeef";
const SHA1ISH: &str = "0123456789abcdef0123456789abcdef01234567";
const SHA256ISH: &str = "0123456789abcdef0123456789abcdef0123456789abcdef0123456789abcdef";

#[test]
fn mixed_line_extracts_one_of_each() {
    let text =
        "Connect to 192.168.1.1 and also 999.999.999.999 and example.com and deadbeefdeadbeefdeadbeefdeadbeef";
    assert_eq!(find_ipv4(text.as_bytes()), strings(&["192.168.1.1"]));
    assert_eq!(find_domain(text.as_bytes()), strings(&["example.com"]));
    assert_eq!(find_hash(text.as_bytes()), strings(&[MD5ISH]));
}

#[test]
fn ipv4_boundary_rejects_embedded_quad() {
    assert_eq!(find_ipv4(b"1192.168.1.1"), strings(&[]));
    assert_eq!(find_ipv4(b"1.2.3.4x"), strings(&[]));
    assert_eq!(find_ipv4(b"_10.0.0.1"), strings(&[]));
}

#[test]
fn ipv4_invalid_octet_fails_whole_quad() {
    assert_eq!(find_ipv4(b"99.99.99.999"), strings(&[]));
    assert_eq!(find_ipv4(b"256.1.1.1"), strings(&[]));
    assert_eq!(find_ipv4(b"x 999.999.999.999 y 10.0.0.1"), strings(&["10.0.0.1"]));
}

#[test]
fn ipv4_format_shaped_not_validated() {
    assert_eq!(find_ipv4(b"00.00.00.00"), strings(&["00.00.00.00"]));
    assert_eq!(find_ipv4(b"255.249.200.100"), strings(&["255.249.200.100"]));
    assert_eq!(find_ipv4(b"1.2.3.4."), strings(&["1.2.3.4"]));
}

#[test]
fn ipv4_scan_resumes_after_match() {
    assert_eq!(find_ipv4(b"1.2.3.4.5.6.7.8"), strings(&["1.2.3.4", "5.6.7.8"]));
    assert_eq!(find_ipv4(b"10.0.0.1 and 10.0.0.2"), strings(&["10.0.0.1", "10.0.0.2"]));
}

#[test]
fn domain_greedy_consumes_inner_tld() {
    assert_eq!(find_domain(b"a.com.b.net"), strings(&["a.com.b.net"]));
    assert_eq!(find_domain(b"mail.example.org!"), strings(&["mail.example.org"]));
}

#[test]
fn domain_multi_label_tld_truncates() {
    assert_eq!(find_domain(b"example.co.uk"), strings(&["example.co"]));
}

#[test]
fn domain_tld_needs_boundary() {
    assert_eq!(find_domain(b"company.com"), strings(&["company.com"]));
    assert_eq!(find_domain(b"a.company"), strings(&[]));
    assert_eq!(find_domain(b"example.com-x"), strings(&["example.com"]));
}

#[test]
fn domain_tld_is_case_sensitive() {
    assert_eq!(find_domain(b"EXAMPLE.COM"), strings(&[]));
    assert_eq!(find_domain(b"Example.com"), strings(&["Example.com"]));
}

#[test]
fn hash_lengths_are_exact() {
    assert_eq!(find_hash(MD5ISH.as_bytes()), strings(&[MD5ISH]));
    assert_eq!(find_hash(SHA1ISH.as_bytes()), strings(&[SHA1ISH]));
    assert_eq!(find_hash(SHA256ISH.as_bytes()), strings(&[SHA256ISH]));
    // One hex digit more or less fails every alternative.
    assert_eq!(find_hash(b"deadbeefdeadbeefdeadbeefdeadbee"), strings(&[]));
    assert_eq!(find_hash(b"deadbeefdeadbeefdeadbeefdeadbeefa"), strings(&[]));
}

#[test]
fn hash_needs_word_boundaries() {
    assert_eq!(find_hash(b"zdeadbeefdeadbeefdeadbeefdeadbeef"), strings(&[]));
    assert_eq!(find_hash(b"deadbeefdeadbeefdeadbeefdeadbeef_"), strings(&[]));
    assert_eq!(find_hash(b"(deadbeefdeadbeefdeadbeefdeadbeef)"), strings(&[MD5ISH]));
    assert_eq!(
        find_hash(b"DEADBEEFdeadbeefDEADBEEFdeadbeef!"),
        strings(&["DEADBEEFdeadbeefDEADBEEFdeadbeef"])
    );
}

#[test]
fn extension_filter_keeps_matching_files_only() {
    let entries = vec![
        entry("root/a.txt", "a.txt", true),
        entry("root/b.log", "b.log", true),
        entry("root/c.exe", "c.exe", true),
    ];
    let root = "root".to_string();
    let got = gather_files(&root, false, &entries, &filter(&["txt"]));
    assert_eq!(got, vec!["root/a.txt".to_string()]);
}

#[test]
fn single_file_root_bypasses_filter() {
    let root = "notes.md".to_string();
    let got = gather_files(&root, true, &Vec::new(), &filter(&["txt"]));
    assert_eq!(got, vec!["notes.md".to_string()]);
}

#[test]
fn extension_compare_is_case_insensitive() {
    let entries = vec![entry("d/A.TXT", "A.TXT", true), entry("d/b.TxT", "b.TxT", true)];
    let root = "d".to_string();
    let got = gather_files(&root, false, &entries, &filter(&["txt"]));
    assert_eq!(got, vec!["d/A.TXT".to_string(), "d/b.TxT".to_string()]);
}

#[test]
fn filter_uses_text_after_last_dot() {
    let entries = vec![
        entry("d/.gitignore", ".gitignore", true),
        entry("d/README", "README", true),
        entry("d/keep.gitignore", "keep.gitignore", true),
    ];
    let root = "d".to_string();
    let got = gather_files(&root, false, &entries, &filter(&["gitignore"]));
    // A leading dot still marks an extension; a name with no dot never does.
    assert_eq!(got, vec!["d/.gitignore".to_string(), "d/keep.gitignore".to_string()]);
}

#[test]
fn no_filter_takes_every_regular_file() {
    let entries = vec![
        entry("d", "d", false),
        entry("d/a.txt", "a.txt", true),
        entry("d/sub", "sub", false),
        entry("d/sub/raw", "raw", true),
    ];
    let root = "d".to_string();
    let got = gather_files(&root, false, &entries, &None);
    assert_eq!(got, vec!["d/a.txt".to_string(), "d/sub/raw".to_string()]);
}

#[test]
fn record_order_ipv4_before_domain_before_hash() {
    let file = "f.txt".to_string();
    let text = format!("see example.com at 10.1.2.3 sum {}", MD5ISH);
    let recs = scan_text(&file, text.as_bytes());
    assert_eq!(
        recs,
        vec![
            record("f.txt", IocType::IPv4, "10.1.2.3"),
            record("f.txt", IocType::Domain, "example.com"),
            record("f.txt", IocType::Hash, MD5ISH),
        ]
    );
}

#[test]
fn ioc_type_labels() {
    assert_eq!(IocType::IPv4.label(), "IPv4");
    assert_eq!(IocType::Domain.label(), "Domain");
    assert_eq!(IocType::Hash.label(), "Hash");
}

#[test]
fn unreadable_file_contributes_nothing() {
    let inputs = vec![
        ScanInput { path: "a".to_string(), content: Some(b"10.0.0.1".to_vec()) },
        ScanInput { path: "broken".to_string(), content: None },
        ScanInput { path: "c".to_string(), content: Some(b"example.org".to_vec()) },
    ];
    let recs = scan_files(&inputs);
    assert_eq!(
        recs,
        vec![record("a", IocType::IPv4, "10.0.0.1"), record("c", IocType::Domain, "example.org")]
    );
    // Count equals the sum over successfully read files only.
    assert_eq!(recs.len(), 2);
}

#[test]
fn scanning_twice_yields_identical_results() {
    let inputs = vec![
        ScanInput {
            path: "x".to_string(),
            content: Some(format!("8.8.8.8 dns.gov {}", SHA1ISH).into_bytes()),
        },
        ScanInput { path: "y".to_string(), content: Some(b"nothing here".to_vec()) },
    ];
    let first = scan_files(&inputs);
    let second = scan_files(&inputs);
    assert_eq!(first, second);
}

#[test]
fn empty_text_and_empty_input_produce_nothing() {
    assert_eq!(find_ipv4(b""), strings(&[]));
    assert_eq!(find_domain(b""), strings(&[]));
    assert_eq!(find_hash(b""), strings(&[]));
    assert_eq!(scan_files(&Vec::new()), Vec::<MatchRecord>::new());
}

#[test]
fn duplicate_values_are_not_deduplicated() {
    let recs = scan_text(&"f".to_string(), b"10.0.0.1 then 10.0.0.1");
    assert_eq!(
        recs,
        vec![record("f", IocType::IPv4, "10.0.0.1"), record("f", IocType::IPv4, "10.0.0.1")]
    );
}

#[test]
fn domain_backtracks_over_groups() {
    assert_eq!(find_domain(b"a.io.co.zz"), strings(&["a.io.co"]));
}

#[test]
fn domain_label_may_start_with_hyphen_after_word_byte() {
    // `_` is a word byte but not a label byte, so a boundary sits before `-`.
    assert_eq!(find_domain(b"x_-a.com"), strings(&["-a.com"]));
    // After a non-word byte there is no boundary before `-`.
    assert_eq!(find_domain(b" -a.com"), strings(&["a.com"]));
}
