use moss::client::blit::{asset_path_text, blit_plan, is_blittable_root, BlitStep, Element};
use moss::client::place::Base;
use moss::client::PendingFile;
use moss::layout::{Entry, Layout};
use moss::package;

fn item(mode: u32, entry: Entry) -> PendingFile {
    PendingFile {
        id: package::Id("nano-1".to_string()),
        layout: Layout { uid: 0, gid: 0, mode, tag: 0, entry },
    }
}

fn directory(name: &str, mode: u32, children: Vec<Element>) -> Element {
    let entry = Entry::Directory(name.to_string());
    Element::Directory(name.to_string(), item(mode, entry), children)
}

fn regular(name: &str, mode: u32, digest: u128) -> Element {
    Element::Child(name.to_string(), item(mode, Entry::Regular(digest, name.to_string())))
}

fn link(name: &str, source: &str) -> Element {
    let entry = Entry::Symlink(source.to_string(), name.to_string());
    Element::Child(name.to_string(), item(0o777, entry))
}

#[test]
fn short_digests_have_no_directories() {
    assert_eq!(asset_path_text(0), "00");
    assert_eq!(asset_path_text(0xabcdef123), "abcdef123");
}

#[test]
fn long_digests_have_three_directories() {
    assert_eq!(asset_path_text(0xabcdef1234), "ab/cd/ef/abcdef1234");
    assert_eq!(
        asset_path_text(0x0123456789abcdef0123456789abcdef),
        "12/34/56/123456789abcdef0123456789abcdef"
    );
    assert_eq!(
        asset_path_text(u128::MAX),
        "ff/ff/ff/ffffffffffffffffffffffffffffffff"
    );
}

#[test]
fn assets_have_their_own_paths() {
    let digests = [0u128, 1, 0x10, 0xfffffffff, 0x1000000000, 0x1000000001, 0xab00000000];
    let mut seen: Vec<String> = Vec::new();
    for digest in digests {
        let path = asset_path_text(digest);
        assert!(!seen.contains(&path));
        seen.push(path);
    }
}

#[test]
fn an_empty_tree_only_clears_the_target() {
    assert_eq!(
        blit_plan(Base::Staging, &None),
        vec![BlitStep::OpenCache, BlitStep::RemoveTarget(Base::Staging)]
    );
}

#[test]
fn a_root_that_is_no_directory_holds_nothing() {
    assert_eq!(
        blit_plan(Base::BlitRoot, &Some(regular("x", 0o644, 1))),
        vec![
            BlitStep::OpenCache,
            BlitStep::RemoveTarget(Base::BlitRoot),
            BlitStep::MakeTarget(Base::BlitRoot, 0o755),
            BlitStep::OpenTarget(Base::BlitRoot),
            BlitStep::CloseTarget,
        ]
    );
}

#[test]
fn a_tree_is_blitted_top_down() {
    let bin = directory("bin", 0o40755, vec![regular("nano", 0o100755, 7), link("pico", "nano")]);
    let share = directory("share", 0o40700, vec![]);
    let usr = directory("usr", 0o40755, vec![bin, share]);
    let root = Some(directory("/", 0o40755, vec![usr, link("bin", "usr/bin")]));
    let name = |text: &str| text.to_string();
    assert_eq!(
        blit_plan(Base::Staging, &root),
        vec![
            BlitStep::OpenCache,
            BlitStep::RemoveTarget(Base::Staging),
            BlitStep::MakeTarget(Base::Staging, 0o755),
            BlitStep::OpenTarget(Base::Staging),
            BlitStep::Tick,
            BlitStep::MakeDir(name("usr"), 0o755),
            BlitStep::Enter(name("usr")),
            BlitStep::Tick,
            BlitStep::MakeDir(name("bin"), 0o755),
            BlitStep::Enter(name("bin")),
            BlitStep::Tick,
            BlitStep::Link(name("nano"), 7),
            BlitStep::SetMode(name("nano"), 0o755),
            BlitStep::Tick,
            BlitStep::Symlink(name("pico"), name("nano")),
            BlitStep::Leave,
            BlitStep::Tick,
            BlitStep::MakeDir(name("share"), 0o700),
            BlitStep::Enter(name("share")),
            BlitStep::Leave,
            BlitStep::Leave,
            BlitStep::Tick,
            BlitStep::Symlink(name("bin"), name("usr/bin")),
            BlitStep::CloseTarget,
        ]
    );
}

#[test]
fn modes_keep_their_permission_bits_alone() {
    for mode in [0u32, 0o644, 0o100644, 0o104755, 0o41777, 0o7777, 0o10000, u32::MAX] {
        let root = Some(directory("/", 0o755, vec![regular("x", mode, 1)]));
        let plan = blit_plan(Base::Staging, &root);
        assert!(plan.contains(&BlitStep::SetMode("x".to_string(), mode & 0o7777)));
    }
    let root = Some(directory("/", 0o755, vec![regular("x", 0o100644, 1)]));
    let plan = blit_plan(Base::Staging, &root);
    assert!(!plan.contains(&BlitStep::SetMode("x".to_string(), 0o100644)));
}

#[test]
fn every_node_is_counted_once() {
    let deep = directory("a", 0o755, vec![directory("b", 0o755, vec![regular("c", 0o644, 1)])]);
    let root = Some(directory("/", 0o755, vec![deep, link("d", "a")]));
    let plan = blit_plan(Base::Staging, &root);
    assert_eq!(plan.iter().filter(|step| **step == BlitStep::Tick).count(), 4);
    let entered = plan.iter().filter(|step| matches!(step, BlitStep::Enter(_))).count();
    let left = plan.iter().filter(|step| matches!(step, BlitStep::Leave)).count();
    assert_eq!((entered, left), (2, 2));
}

#[test]
fn devices_cannot_be_blitted() {
    let name = "x".to_string();
    for entry in [
        Entry::CharacterDevice(name.clone()),
        Entry::BlockDevice(name.clone()),
        Entry::Fifo(name.clone()),
        Entry::Socket(name.clone()),
    ] {
        let child = Element::Child(name.clone(), item(0o644, entry));
        assert!(!child.is_blittable());
        let within = directory("dir", 0o755, vec![regular("y", 0o644, 1), child]);
        assert!(!is_blittable_root(&Some(directory("/", 0o755, vec![within]))));
    }
    let fine = directory("dir", 0o755, vec![regular("y", 0o644, 1), link("z", "y")]);
    assert!(is_blittable_root(&Some(directory("/", 0o755, vec![fine]))));
    assert!(is_blittable_root(&None));
}
