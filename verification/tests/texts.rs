use moss::client::place::{Base, Contents, Location, Node, RootLink};
use moss::package::{Meta, Name};
use moss::state;
use moss::text::{
    below_usr_text, decimal_text, hex_padded_text, name_rank, natural_text, Rank,
};

#[test]
fn decimal_numbers() {
    assert_eq!(decimal_text(0), "0");
    assert_eq!(decimal_text(7), "7");
    assert_eq!(decimal_text(10), "10");
    assert_eq!(decimal_text(1234567890), "1234567890");
    assert_eq!(decimal_text(-45), "-45");
    assert_eq!(decimal_text(i64::MAX), i64::MAX.to_string());
    assert_eq!(decimal_text(i64::MIN), i64::MIN.to_string());
}

#[test]
fn natural_numbers() {
    assert_eq!(natural_text(0), "0");
    assert_eq!(natural_text(42), "42");
    assert_eq!(natural_text(u64::MAX), u64::MAX.to_string());
}

#[test]
fn hexadecimal_numbers_have_two_digits_at_least() {
    for n in [0u128, 1, 9, 10, 15, 16, 255, 256, 0xdeadbeef, u128::MAX] {
        assert_eq!(hex_padded_text(n), format!("{:02x}", n));
    }
    assert_eq!(hex_padded_text(10), "0a");
}

#[test]
fn numbers_are_told_apart() {
    let mut seen: Vec<String> = Vec::new();
    for n in -120i64..=120 {
        let text = decimal_text(n);
        assert!(!seen.contains(&text));
        seen.push(text);
    }
    let mut seen: Vec<String> = Vec::new();
    for n in 0u128..=300 {
        let text = hex_padded_text(n);
        assert!(!seen.contains(&text));
        seen.push(text);
    }
}

#[test]
fn states_are_named_by_their_number() {
    assert_eq!(state::Id(0).text(), "0");
    assert_eq!(state::Id(17).text(), "17");
    assert_ne!(state::Id(1).text(), state::Id(10).text());
    assert_ne!(state::Id(1).text(), state::Id(-1).text());
}

#[test]
fn targets_go_below_usr() {
    assert_eq!(below_usr_text("bin/nano"), "/usr/bin/nano");
    assert_eq!(below_usr_text("share"), "/usr/share");
    assert_eq!(below_usr_text("/usr/bin/nano"), "/usr/bin/nano");
    assert_eq!(below_usr_text("/"), "/");
}

#[test]
fn names_rank_by_their_bytes() {
    let names = ["", "A", "a", "aa", "ab", "b", "zlib", "\u{e9}", "\u{10ffff}"];
    for a in names {
        for b in names {
            let rank = name_rank(a, b);
            let expected = if a < b {
                Rank::Before
            } else if a == b {
                Rank::Same
            } else {
                Rank::After
            };
            assert_eq!(rank, expected, "{a:?} {b:?}");
        }
    }
    let rank = Name("nano".to_string()).rank(&Name("nano-dbg".to_string()));
    assert_eq!(rank, Rank::Before);
}

#[test]
fn versions_end_in_the_release() {
    let meta = Meta {
        name: Name("nano".to_string()),
        version_identifier: "7.2".to_string(),
        source_release: 15,
        download_size: None,
        record: String::new(),
    };
    assert_eq!(meta.version(), "7.2-15");
}

#[test]
fn root_links() {
    let links = [
        (RootLink::Sbin, "usr/sbin", "sbin", "sbin.next"),
        (RootLink::Bin, "usr/bin", "bin", "bin.next"),
        (RootLink::Lib, "usr/lib", "lib", "lib.next"),
        (RootLink::Lib64, "usr/lib", "lib64", "lib64.next"),
        (RootLink::Lib32, "usr/lib32", "lib32", "lib32.next"),
    ];
    for (link, source, target, staged) in links {
        assert_eq!(link.source(), source);
        assert_eq!(link.target(), target);
        assert_eq!(link.staged(), staged);
    }
}

#[test]
fn locations_below_their_base() {
    let nodes = [
        (Node::Itself, ""),
        (Node::Usr, "usr"),
        (Node::UsrLib, "usr/lib"),
        (Node::OsRelease, "usr/lib/os-release"),
        (Node::StateId, "usr/.stateID"),
        (Node::Etc, "etc"),
        (Node::Link(RootLink::Lib64), "lib64"),
        (Node::StagedLink(RootLink::Lib64), "lib64.next"),
    ];
    for (node, relative) in nodes {
        let location = Location { base: Base::Root, node };
        assert_eq!(location.relative(), relative);
    }
}

#[test]
fn state_id_file() {
    assert_eq!(Contents::StateId(state::Id(23)).render("1.0"), "23");
}

#[test]
fn os_release_file() {
    let expected = r#"NAME="Serpent OS"
VERSION="0.24.6"
ID="serpentos"
VERSION_CODENAME=0.24.6
VERSION_ID="0.24.6"
PRETTY_NAME="Serpent OS 0.24.6 (fstx #5)"
ANSI_COLOR="1;35"
HOME_URL="https://serpentos.com"
BUG_REPORT_URL="https://github.com/serpent-os""#;
    assert_eq!(Contents::OsRelease(Some(state::Id(5))).render("0.24.6"), expected);
}

#[test]
fn os_release_file_without_a_state() {
    let text = Contents::OsRelease(None).render("1");
    assert!(text.contains("PRETTY_NAME=\"Serpent OS 1 (fstx #0)\"\n"));
}
