use deploy_sync::config::{deploy_dir_path, record_file_path, ServerConfig, RECORD_DIR_PATH};
use deploy_sync::fingerprint::fingerprint;
use deploy_sync::manifest::{Action, Manifest, ManifestParseError, Record};
use deploy_sync::plan::{plan_sync, RemoteOp, SyncPlan, WalkEntry};
use deploy_sync::remote::{
    create_record_command, delete_command, join_relative, mkdir_command, purge_command,
    remote_path,
};
use deploy_sync::text::{find_newline, find_sep, parse_u64, push_decimal};

const SIG_EMPTY: &str = "d41d8cd98f00b204e9800998ecf8427e";
const SIG_HI: &str = "49f68a5c8493ec2c0bf489821c21fc3b";
const SIG_BYE: &str = "bfa99df33b137bc8fb5f5407d7e58da8";
const SIG_HEY: &str = "6057f13c496ecf7fd777ceb9e79ae285";

fn file(path: &str, content: &str) -> WalkEntry {
    WalkEntry::File { path: path.as_bytes().to_vec(), content: content.as_bytes().to_vec() }
}

fn dir(path: &str) -> WalkEntry {
    WalkEntry::Dir { path: path.as_bytes().to_vec() }
}

fn upload(path: &str, entry: usize) -> RemoteOp {
    RemoteOp::Upload { path: path.as_bytes().to_vec(), entry }
}

fn delete(path: &str) -> RemoteOp {
    RemoteOp::Delete { path: path.as_bytes().to_vec() }
}

fn make_dir(path: &str) -> RemoteOp {
    RemoteOp::MakeDir { path: path.as_bytes().to_vec() }
}

fn plan(text: &str, entries: &Vec<WalkEntry>) -> SyncPlan {
    plan_sync(text.as_bytes(), entries).expect("record file should parse")
}

fn text_of(plan: &SyncPlan) -> String {
    String::from_utf8(plan.manifest_text.clone()).unwrap()
}

fn record_of(m: &Manifest, path: &str) -> Option<Record> {
    m.entries.iter().find(|e| e.path == path.as_bytes()).map(|e| e.record.clone())
}

#[test]
fn fingerprint_is_md5_hex_and_length() {
    let (sig, len) = fingerprint(b"hi");
    assert_eq!(String::from_utf8(sig).unwrap(), SIG_HI);
    assert_eq!(len, 2);
    let (sig, len) = fingerprint(b"");
    assert_eq!(String::from_utf8(sig).unwrap(), SIG_EMPTY);
    assert_eq!(len, 0);
}

#[test]
fn changing_one_byte_changes_the_signature() {
    assert_ne!(fingerprint(b"bye").0, fingerprint(b"bya").0);
}

#[test]
fn parse_reads_records_pending() {
    let text = format!("{} , a.txt , 2\n{} , b/c.txt , 3\n", SIG_HI, SIG_BYE);
    let m = Manifest::parse(text.as_bytes()).unwrap();
    assert_eq!(m.entries.len(), 2);
    assert_eq!(m.entries[0].path, b"a.txt".to_vec());
    assert_eq!(m.entries[0].record.sign, SIG_HI.as_bytes().to_vec());
    assert_eq!(m.entries[0].record.len, 2);
    assert!(m.entries[0].record.pending_deletion);
    assert_eq!(m.entries[1].path, b"b/c.txt".to_vec());
    assert_eq!(m.entries[1].record.len, 3);
    assert!(m.entries[1].record.pending_deletion);
}

#[test]
fn parse_empty_text_is_empty_manifest() {
    let m = Manifest::parse(b"").unwrap();
    assert!(m.entries.is_empty());
}

#[test]
fn parse_last_line_without_newline() {
    let m = Manifest::parse(b"s , p , 7").unwrap();
    assert_eq!(m.entries.len(), 1);
    assert_eq!(m.entries[0].record.len, 7);
}

#[test]
fn parse_ignores_fields_after_the_third() {
    let m = Manifest::parse(b"s , p , 7 , extra\n").unwrap();
    assert_eq!(m.entries[0].path, b"p".to_vec());
    assert_eq!(m.entries[0].record.len, 7);
}

#[test]
fn parse_later_record_replaces_earlier() {
    let m = Manifest::parse(b"s1 , p , 1\ns2 , p , 2\n").unwrap();
    assert_eq!(m.entries.len(), 1);
    assert_eq!(m.entries[0].record.sign, b"s2".to_vec());
    assert_eq!(m.entries[0].record.len, 2);
}

#[test]
fn parse_missing_field_is_an_error() {
    assert_eq!(
        Manifest::parse(b"s , p , 1\ns , p\n"),
        Err(ManifestParseError::BadLine { line: 1 })
    );
}

#[test]
fn parse_bad_length_is_an_error() {
    assert_eq!(Manifest::parse(b"s , p , x1\n"), Err(ManifestParseError::BadLine { line: 0 }));
    assert_eq!(Manifest::parse(b"s , p , \n"), Err(ManifestParseError::BadLine { line: 0 }));
    assert_eq!(
        Manifest::parse(b"s , p , 18446744073709551616\n"),
        Err(ManifestParseError::BadLine { line: 0 })
    );
}

#[test]
fn parse_blank_line_is_an_error() {
    assert_eq!(Manifest::parse(b"s , p , 1\n\n"), Err(ManifestParseError::BadLine { line: 1 }));
}

#[test]
fn length_field_edge_cases() {
    assert_eq!(parse_u64(b"18446744073709551615"), Some(u64::MAX));
    assert_eq!(parse_u64(b"18446744073709551616"), None);
    assert_eq!(parse_u64(b"+12"), Some(12));
    assert_eq!(parse_u64(b"+"), None);
    assert_eq!(parse_u64(b""), None);
    assert_eq!(parse_u64(b"0"), Some(0));
    assert_eq!(parse_u64(b"-1"), None);
}

#[test]
fn decimal_digits() {
    let mut out = b"n=".to_vec();
    push_decimal(&mut out, 0);
    push_decimal(&mut out, 1207);
    assert_eq!(out, b"n=01207".to_vec());
}

#[test]
fn separator_and_newline_search() {
    assert_eq!(find_sep(b"ab , cd", 0), 2);
    assert_eq!(find_sep(b"ab , cd", 3), 7);
    assert_eq!(find_sep(b"ab ,", 0), 4);
    assert_eq!(find_newline(b"ab\ncd\n", 0), 2);
    assert_eq!(find_newline(b"ab\ncd", 3), 5);
}

#[test]
fn serialize_writes_one_line_per_record() {
    let mut m = Manifest::new();
    m.classify(b"a.txt", b"hi");
    m.classify(b"b/c.txt", b"bye");
    let text = String::from_utf8(m.serialize()).unwrap();
    assert_eq!(text, format!("{} , a.txt , 2\n{} , b/c.txt , 3\n", SIG_HI, SIG_BYE));
}

#[test]
fn classify_new_changed_and_unchanged() {
    let mut m = Manifest::parse(format!("{} , a.txt , 2\n", SIG_HI).as_bytes()).unwrap();
    assert_eq!(m.classify(b"a.txt", b"hi"), Action::Skip);
    assert!(!m.entries[0].record.pending_deletion);
    assert_eq!(m.classify(b"a.txt", b"hey"), Action::Upload);
    assert_eq!(m.entries[0].record.sign, SIG_HEY.as_bytes().to_vec());
    assert_eq!(m.entries[0].record.len, 3);
    assert_eq!(m.classify(b"new.txt", b""), Action::Upload);
    assert_eq!(m.entries.len(), 2);
}

#[test]
fn same_length_other_signature_is_a_change() {
    let mut m = Manifest::parse(format!("{} , a.txt , 2\n", SIG_BYE).as_bytes()).unwrap();
    assert_eq!(m.classify(b"a.txt", b"hi"), Action::Upload);
}

#[test]
fn same_signature_other_length_is_a_change() {
    let mut m = Manifest::parse(format!("{} , a.txt , 5\n", SIG_HI).as_bytes()).unwrap();
    assert_eq!(m.classify(b"a.txt", b"hi"), Action::Upload);
}

#[test]
fn classify_signed_takes_the_digest_given() {
    let mut m = Manifest::new();
    assert_eq!(m.classify_signed(b"p", b"abc".to_vec(), 4), Action::Upload);
    assert_eq!(m.classify_signed(b"p", b"abc".to_vec(), 4), Action::Skip);
    assert_eq!(m.classify_signed(b"p", b"abd".to_vec(), 4), Action::Upload);
}

#[test]
fn take_stale_prunes_pending_records() {
    let mut m = Manifest::parse(b"s1 , a , 1\ns2 , b , 2\ns3 , c , 3\n").unwrap();
    m.classify_signed(b"b", b"s2".to_vec(), 2);
    let stale = m.take_stale();
    assert_eq!(stale, vec![b"a".to_vec(), b"c".to_vec()]);
    assert_eq!(m.entries.len(), 1);
    assert_eq!(m.entries[0].path, b"b".to_vec());
}

#[test]
fn identical_content_at_two_paths_gives_two_records() {
    let entries = vec![file("x", "same"), file("y", "same")];
    let p = plan("", &entries);
    assert_eq!(p.manifest.entries.len(), 2);
    assert_eq!(p.ops.len(), 3);
}

#[test]
fn example_first_run_then_second_run() {
    let first = vec![file("a.txt", "hi"), dir("b"), file("b/c.txt", "bye")];
    let first_plan = plan("", &first);
    assert!(first_plan.bootstrap);
    assert_eq!(
        first_plan.ops,
        vec![RemoteOp::Purge, upload("a.txt", 0), make_dir("b"), upload("b/c.txt", 2)]
    );
    assert_eq!(text_of(&first_plan), format!("{} , a.txt , 2\n{} , b/c.txt , 3\n", SIG_HI, SIG_BYE));

    let second = vec![file("a.txt", "hey"), dir("b")];
    let second_plan = plan(&text_of(&first_plan), &second);
    assert!(!second_plan.bootstrap);
    assert_eq!(second_plan.ops, vec![upload("a.txt", 0), make_dir("b"), delete("b/c.txt")]);
    assert_eq!(text_of(&second_plan), format!("{} , a.txt , 3\n", SIG_HEY));
}

#[test]
fn second_run_without_changes_is_quiet() {
    let tree = vec![file("a.txt", "hi"), dir("b"), file("b/c.txt", "bye"), file("e", "")];
    let first_plan = plan("", &tree);
    let second_plan = plan(&text_of(&first_plan), &tree);
    assert_eq!(second_plan.ops, vec![make_dir("b")]);
    assert_eq!(second_plan.manifest_text, first_plan.manifest_text);
}

#[test]
fn new_file_is_sent_and_recorded() {
    let start = format!("{} , a.txt , 2\n", SIG_HI);
    let p = plan(&start, &vec![file("a.txt", "hi"), file("n.txt", "bye")]);
    assert_eq!(p.ops, vec![upload("n.txt", 1)]);
    let r = record_of(&p.manifest, "n.txt").unwrap();
    assert_eq!(r.sign, SIG_BYE.as_bytes().to_vec());
    assert_eq!(r.len, 3);
}

#[test]
fn changed_file_is_sent_and_record_updated() {
    let start = format!("{} , a.txt , 2\n", SIG_HI);
    let p = plan(&start, &vec![file("a.txt", "hey")]);
    assert_eq!(p.ops, vec![upload("a.txt", 0)]);
    let r = record_of(&p.manifest, "a.txt").unwrap();
    assert_eq!(r.sign, SIG_HEY.as_bytes().to_vec());
    assert_eq!(r.len, 3);
}

#[test]
fn removed_file_is_deleted_and_dropped() {
    let start = format!("{} , a.txt , 2\n{} , gone.txt , 3\n", SIG_HI, SIG_BYE);
    let p = plan(&start, &vec![file("a.txt", "hi")]);
    assert_eq!(p.ops, vec![delete("gone.txt")]);
    assert!(record_of(&p.manifest, "gone.txt").is_none());
    assert_eq!(text_of(&p), format!("{} , a.txt , 2\n", SIG_HI));
}

#[test]
fn empty_record_file_purges_before_anything() {
    let p = plan("", &vec![file("a.txt", "hi")]);
    assert!(p.bootstrap);
    assert_eq!(p.ops[0], RemoteOp::Purge);
    let p = plan("", &vec![]);
    assert_eq!(p.ops, vec![RemoteOp::Purge]);
    assert!(p.manifest_text.is_empty());
}

#[test]
fn unchanged_file_is_not_sent() {
    let start = format!("{} , a.txt , 2\n{} , b/c.txt , 3\n", SIG_HI, SIG_BYE);
    let p = plan(&start, &vec![file("a.txt", "hi"), dir("b"), file("b/c.txt", "bye")]);
    assert_eq!(p.ops, vec![make_dir("b")]);
}

#[test]
fn empty_directory_only_makes_the_directory() {
    let p = plan(&format!("{} , a.txt , 2\n", SIG_HI), &vec![file("a.txt", "hi"), dir("empty")]);
    assert_eq!(p.ops, vec![make_dir("empty")]);
    assert_eq!(p.manifest.entries.len(), 1);
}

#[test]
fn bad_record_file_stops_the_plan() {
    let r = plan_sync(b"only one field\n", &vec![file("a", "x")]);
    assert_eq!(r.err(), Some(ManifestParseError::BadLine { line: 0 }));
}

#[test]
fn relative_paths_and_remote_paths() {
    assert_eq!(join_relative(b"", b"a.txt"), b"a.txt".to_vec());
    assert_eq!(join_relative(b"b", b"c.txt"), b"b/c.txt".to_vec());
    assert_eq!(remote_path(b"/srv/app", b"b/c.txt"), b"/srv/app/b/c.txt".to_vec());
}

#[test]
fn remote_commands() {
    assert_eq!(mkdir_command(b"/srv/app", b"b"), b"mkdir -p /srv/app/b".to_vec());
    assert_eq!(delete_command(b"/srv/app", b"b/c.txt"), b"rm -f /srv/app/b/c.txt".to_vec());
    assert_eq!(purge_command(b"/srv/app"), b"rm -rf /srv/app/*".to_vec());
    assert_eq!(
        create_record_command(b"~/deploy-record", b"~/deploy-record/app.rec"),
        b"mkdir -p ~/deploy-record && touch ~/deploy-record/app.rec".to_vec()
    );
}

#[test]
fn derived_locations() {
    assert_eq!(deploy_dir_path("/usr/local/tomcat", "shop"), "/usr/local/tomcat/webapps//shop");
    assert_eq!(record_file_path("shop"), "~/deploy-record/shop.rec");
    assert_eq!(RECORD_DIR_PATH, "~/deploy-record");
}

#[test]
fn server_config_defaults() {
    let c = ServerConfig::default();
    assert_eq!(c.addr, "192.168.1.2");
    assert_eq!(c.username, "username");
    assert_eq!(c.password, "password");
    assert_eq!(c.tomcat_path, "/usr/local/tomcat");
}
