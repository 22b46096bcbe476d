use bssm::config::doc;
use bssm::config::name;
use bssm::config::short_name;
use bssm::config::synopsis;
use bssm::io::IO;
use bssm::matcher::DirectoryMatch;
use bssm::matcher::ManifestMatcher;
use bssm::node::Change;
use bssm::node::FileChange;
use bssm::node::FileType;
use bssm::store::Store;

fn key(s: &str) -> Vec<u8> {
    s.as_bytes().to_vec()
}

fn path(parts: &[&str]) -> Vec<Vec<u8>> {
    parts.iter().map(|p| key(p)).collect()
}

fn add(parts: &[&str]) -> Change {
    Change {
        key: path(parts),
        payload: Some(FileChange { content: 1, file_type: FileType::Regular }),
    }
}

#[test]
fn matcher_classifies_paths() {
    let mut st = Store::new();
    let root = bssm::derive::derive(&mut st, &vec![], &vec![add(&["dir", "file"]), add(&["plain"])]).unwrap();
    let m = ManifestMatcher::new(root, true);
    assert_eq!(m.matches_directory(&st, &path(&["dir"])), DirectoryMatch::ShouldTraverse);
    assert_eq!(m.matches_directory(&st, &path(&["plain"])), DirectoryMatch::Nothing);
    assert_eq!(m.matches_directory(&st, &path(&["absent"])), DirectoryMatch::Nothing);
    assert!(m.matches_file(&st, &path(&["dir", "file"])));
    assert!(m.matches_file(&st, &path(&["plain"])));
    assert!(!m.matches_file(&st, &path(&["dir"])));
    assert!(!m.matches_file(&st, &path(&["absent"])));
    assert!(m.case_sensitive);
}

#[test]
fn io_write_goes_to_output() {
    let mut io = IO::new(true);
    io.write(&b"hello ".to_vec());
    io.write(&b"world".to_vec());
    io.flush();
    assert_eq!(io.output, b"hello world".to_vec());
    assert_eq!(io.error, Vec::<u8>::new());
}

#[test]
fn io_write_err_uses_error_channel() {
    let mut io = IO::new(true);
    io.write(&b"out".to_vec());
    io.write_err(&b"oops".to_vec());
    assert_eq!(io.output, b"out".to_vec());
    assert_eq!(io.error, b"oops".to_vec());
}

#[test]
fn io_write_err_falls_back_to_output() {
    let mut io = IO::new(false);
    io.write(&b"a".to_vec());
    io.write_err(&b"b".to_vec());
    io.flush();
    assert_eq!(io.output, b"ab".to_vec());
    assert_eq!(io.error, Vec::<u8>::new());
}

#[test]
fn config_descriptors() {
    assert_eq!(name(), "config|showconfig|debugconfig|conf|confi");
    assert_eq!(short_name(), "config");
    assert_eq!(synopsis(), Some("[-u] [NAME]..."));
    assert!(doc().starts_with("show config settings"));
    assert!(doc().contains("Returns 0 on success, 1 if NAME does not exist."));
}
