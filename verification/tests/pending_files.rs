use moss::client::pending::Kind;
use moss::client::PendingFile;
use moss::layout::{Entry, Layout};
use moss::package;

fn file(entry: Entry) -> PendingFile {
    PendingFile {
        id: package::Id("nano-1".to_string()),
        layout: Layout { uid: 1, gid: 2, mode: 0o100644, tag: 3, entry },
    }
}

fn entries(target: &str) -> Vec<Entry> {
    let target = target.to_string();
    vec![
        Entry::Regular(9, target.clone()),
        Entry::Symlink("nano".to_string(), target.clone()),
        Entry::Directory(target.clone()),
        Entry::CharacterDevice(target.clone()),
        Entry::BlockDevice(target.clone()),
        Entry::Fifo(target.clone()),
        Entry::Socket(target),
    ]
}

#[test]
fn kinds() {
    let kinds: Vec<Kind> = entries("x").into_iter().map(|entry| file(entry).kind()).collect();
    assert_eq!(
        kinds,
        vec![
            Kind::Regular,
            Kind::Symlink("nano".to_string()),
            Kind::Directory,
            Kind::Regular,
            Kind::Regular,
            Kind::Regular,
            Kind::Regular,
        ]
    );
}

#[test]
fn files_know_their_package() {
    assert_eq!(file(Entry::Directory("bin".to_string())).id(), "nano-1");
}

#[test]
fn paths_get_the_usr_prefix() {
    for entry in entries("bin/nano") {
        let file = file(entry);
        assert_eq!(file.path(), "/usr/bin/nano");
        assert_eq!(file.to_string(), "/usr/bin/nano");
    }
}

#[test]
fn cloning_moves_only_the_path() {
    for entry in entries("bin/nano") {
        let before = file(entry);
        let after = before.cloned_to("/usr/sbin/nano".to_string());
        assert_eq!(after.path(), "/usr/sbin/nano");
        assert_eq!(after.kind(), before.kind());
        assert_eq!(after.id, before.id);
        assert_eq!(after.layout.mode, before.layout.mode);
        assert_eq!(after.layout.uid, before.layout.uid);
        assert_eq!(after.layout.gid, before.layout.gid);
        assert_eq!(after.layout.tag, before.layout.tag);
    }
    let link = file(Entry::Symlink("a".to_string(), "b".to_string())).cloned_to("c".to_string());
    assert_eq!(link.layout.entry, Entry::Symlink("a".to_string(), "c".to_string()));
}

#[test]
fn directories_that_no_package_owns() {
    let made = PendingFile::from("/usr/share".to_string());
    assert_eq!(made.id(), "");
    assert_eq!(made.path(), "/usr/share");
    assert_eq!(
        made.layout,
        Layout {
            uid: 0,
            gid: 0,
            mode: 0o755,
            tag: 0,
            entry: Entry::Directory("/usr/share".to_string()),
        }
    );
}
