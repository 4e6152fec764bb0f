//! Where things stand in a workspace.
use rucerts::workspace::{BackupSource, Workspace};

fn source(path: &str, exists: bool) -> BackupSource {
    BackupSource { path: path.to_owned(), exists }
}

#[test]
fn everything_has_its_place() {
    let ws = Workspace::new("/w");
    assert_eq!(ws.dir(), "/w");
    assert_eq!(ws.root_cert(), "/w/myroot.pem");
    assert_eq!(ws.root_key(), "/w/myroot.key");
    assert_eq!(ws.roots_dir(), "/w/roots");
    assert_eq!(ws.retired_dir(), "/w/roots/retired");
    assert_eq!(ws.constrained_dir(), "/w/constrained");
    assert_eq!(ws.cross_cert("a"), "/w/constrained/a.pem");
    assert_eq!(ws.installer_template(), "/w/install-certs.ps1");
    assert_eq!(ws.ensure_dirs(), vec!["/w/roots", "/w/constrained"]);
}

#[test]
fn different_roots_have_different_cross_certificates() {
    let ws = Workspace::new("w");
    assert_ne!(ws.cross_cert("a"), ws.cross_cert("b"));
    assert_ne!(ws.cross_cert("a"), ws.cross_cert("a.pem"));
}

#[test]
fn a_backup_copies_what_exists() {
    let ws = Workspace::new("/w");
    let files = vec![source("/w/myroot.key", true), source("/w/myroot.pem", false)];
    let backup = ws.backup("1700000000", &files).unwrap();
    assert_eq!(backup.dir, "/w/backup-1700000000");
    assert_eq!(backup.copies.len(), 1);
    assert_eq!(backup.copies[0].from, "/w/myroot.key");
    assert_eq!(backup.copies[0].to, "/w/backup-1700000000/myroot.key");
}

#[test]
fn a_backup_source_needs_a_file_name() {
    let ws = Workspace::new("/w");
    assert!(ws.backup("1", &vec![source("/w/..", true)]).is_none());
    assert!(ws.backup("1", &vec![source("/w/..", false)]).is_some());
}
