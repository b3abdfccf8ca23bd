use moss::client;
use moss::package::{self, Flags, Meta, Name, Package};
use moss::state::{self, Selection};
use moss::sync::machine::{Args, Reply, Stage, Sync};
use moss::sync::select::{
    choose_packages, explicit_packages, new_selections, removed_packages, synced_packages,
    updated_packages, Choice,
};
use moss::sync::Error;

fn package(id: &str, name: &str, release: u64, explicit: bool) -> Package {
    Package {
        id: package::Id(id.to_string()),
        meta: Meta {
            name: Name(name.to_string()),
            version_identifier: "1".to_string(),
            source_release: release,
            download_size: None,
            record: String::new(),
        },
        flags: Flags { explicit },
    }
}

fn id(text: &str) -> package::Id {
    package::Id(text.to_string())
}

fn ids(packages: &[Package]) -> Vec<&str> {
    packages.iter().map(|package| package.id.0.as_str()).collect()
}

fn selection(id: &str, explicit: bool, reason: Option<&str>) -> Selection {
    Selection {
        package: package::Id(id.to_string()),
        explicit,
        reason: reason.map(|reason| reason.to_string()),
    }
}

fn args() -> Args {
    Args { yes_all: false, update: false, upgrade_only: false, to: None }
}

fn installed() -> Vec<Package> {
    vec![package("acl-1", "acl", 1, false), package("nano-1", "nano", 1, true)]
}

fn lookups(packages: Vec<Package>) -> Reply {
    Reply::Resolved(packages.into_iter().map(|package| (package.id.clone(), Some(package))).collect())
}

fn opened(args: Args, active: Option<i64>) -> Sync {
    let mut sync = Sync::new(args);
    assert_eq!(sync.stage(), Stage::Open);
    sync.reply(Reply::Opened(active.map(state::Id)));
    sync
}

fn announced(args: Args, active: Option<i64>) -> Sync {
    let mut sync = opened(args, active);
    if sync.stage() == Stage::Ephemeral {
        sync.reply(Reply::Done);
    }
    sync.reply(Reply::Installed(installed()));
    sync.reply(Reply::Candidates(vec![None, Some(package("nano-2", "nano", 2, false))]));
    sync.reply(lookups(vec![
        package("nano-2", "nano", 2, false),
        package("acl-1", "acl", 1, false),
    ]));
    assert_eq!(sync.stage(), Stage::Announce);
    sync
}

#[test]
fn candidates_take_the_place_of_installed_packages() {
    let installed = installed();
    let candidates =
        vec![Some(package("acl-1", "acl", 1, false)), Some(package("nano-0", "nano", 0, false))];
    let chosen = choose_packages(&installed, false, &candidates);
    assert_eq!(
        chosen,
        vec![
            Choice { id: id("acl-1"), explicit: false, updated: false },
            Choice { id: id("nano-0"), explicit: true, updated: true },
        ]
    );
    assert_eq!(updated_packages(&chosen), vec![id("nano-0")]);
    assert_eq!(explicit_packages(&chosen), vec![id("nano-0")]);
}

#[test]
fn upgrades_need_a_later_release() {
    let installed = installed();
    for (release, updated) in [(0u64, false), (1, false), (2, true)] {
        let candidates = vec![None, Some(package("nano-x", "nano", release, false))];
        let chosen = choose_packages(&installed, true, &candidates);
        assert_eq!(chosen[1].updated, updated);
        assert_eq!(chosen[1].id, if updated { id("nano-x") } else { id("nano-1") });
        assert!(choose_packages(&installed, false, &candidates)[1].updated);
    }
}

#[test]
fn candidates_that_are_installed_under_another_name_stay_out() {
    let candidates = vec![Some(package("nano-1", "acl", 9, false)), None];
    let chosen = choose_packages(&installed(), false, &candidates);
    assert_eq!(chosen[0], Choice { id: id("acl-1"), explicit: false, updated: false });
}

#[test]
fn up_to_date_packages_stay() {
    let installed = installed();
    let candidates = installed.iter().map(|package| Some(package.clone())).collect();
    let chosen = choose_packages(&installed, false, &candidates);
    assert!(updated_packages(&chosen).is_empty());
    assert_eq!(explicit_packages(&chosen), vec![id("nano-1")]);
}

#[test]
fn stateful_syncs_fetch_what_is_not_installed() {
    let finalized = vec![package("acl-1", "acl", 1, false), package("nano-2", "nano", 2, false)];
    assert_eq!(ids(&synced_packages(&finalized, &installed(), false)), vec!["nano-2"]);
    assert_eq!(ids(&synced_packages(&finalized, &installed(), true)), vec!["acl-1", "nano-2"]);
}

#[test]
fn packages_without_a_build_left_are_removed() {
    let finalized = vec![package("nano-2", "nano", 2, false)];
    assert_eq!(ids(&removed_packages(&installed(), &finalized)), vec!["acl-1"]);
    assert!(removed_packages(&installed(), &installed()).is_empty());
}

#[test]
fn selections_carry_over_by_name() {
    let finalized = vec![
        package("acl-1", "acl", 1, false),
        package("nano-2", "nano", 2, false),
        package("zlib-1", "zlib", 1, false),
    ];
    let previous = vec![
        selection("nano-1", true, Some("because")),
        selection("acl-1", false, Some("dependency")),
        selection("acl-1", true, None),
    ];
    assert_eq!(
        new_selections(&finalized, &installed(), &previous),
        vec![
            selection("acl-1", false, Some("dependency")),
            selection("nano-2", true, Some("because")),
            selection("zlib-1", false, None),
        ]
    );
}

#[test]
fn selections_without_a_previous_state_are_transitive() {
    let finalized = vec![package("nano-2", "nano", 2, true)];
    assert_eq!(
        new_selections(&finalized, &installed(), &vec![]),
        vec![selection("nano-2", false, None)]
    );
}

#[test]
fn new_packages_are_looked_up_under_their_own_id() {
    let finalized = vec![package("zlib-1", "zlib", 1, false)];
    let previous = vec![selection("zlib-1", true, Some("kept"))];
    assert_eq!(
        new_selections(&finalized, &installed(), &previous),
        vec![selection("zlib-1", true, Some("kept"))]
    );
}

#[test]
fn a_sync_from_start_to_end() {
    let mut sync = announced(args(), Some(3));
    assert_eq!(sync.updated(), &vec![id("nano-2")]);
    assert_eq!(sync.explicit(), &vec![id("nano-2")]);
    assert_eq!(sync.active_state(), Some(state::Id(3)));
    assert_eq!(ids(sync.synced()), vec!["nano-2"]);
    assert!(sync.removed().is_empty());
    sync.reply(Reply::Done);
    assert_eq!(sync.stage(), Stage::Confirm);
    sync.reply(Reply::Answer(true));
    assert_eq!(sync.stage(), Stage::Cache);
    sync.reply(Reply::Done);
    assert_eq!(sync.stage(), Stage::LoadSelections);
    sync.reply(Reply::Selections(vec![selection("nano-1", true, None)]));
    assert_eq!(sync.stage(), Stage::Apply);
    assert_eq!(
        sync.selections(),
        &vec![selection("acl-1", false, None), selection("nano-2", true, None)]
    );
    assert_eq!(sync.summary(), "Sync");
    sync.reply(Reply::Done);
    assert_eq!(sync.stage(), Stage::Finished);
    assert_eq!(sync.finish(), Ok(()));
}

#[test]
fn a_sync_with_consent_in_advance_does_not_ask() {
    let mut sync = announced(Args { yes_all: true, ..args() }, None);
    sync.reply(Reply::Done);
    assert_eq!(sync.stage(), Stage::Cache);
    sync.reply(Reply::Done);
    assert_eq!(sync.stage(), Stage::Apply);
    assert_eq!(sync.selections().len(), 2);
}

#[test]
fn a_cancelled_sync_changes_nothing() {
    let mut sync = announced(args(), Some(3));
    sync.reply(Reply::Done);
    sync.reply(Reply::Answer(false));
    sync.reply(Reply::Done);
    sync.reply(Reply::Answer(true));
    assert_eq!(sync.stage(), Stage::Failed);
    assert_eq!(sync.finish(), Err(Error::Cancelled));
}

#[test]
fn a_sync_to_another_root_fetches_everything() {
    let sync = announced(Args { to: Some(b"/mnt".to_vec()), ..args() }, Some(3));
    assert_eq!(ids(sync.synced()), vec!["acl-1", "nano-2"]);
    assert_eq!(sync.args().to, Some(b"/mnt".to_vec()));
}

#[test]
fn the_client_is_prepared_as_asked() {
    let to = || Some(b"/mnt".to_vec());
    assert_eq!(opened(args(), None).stage(), Stage::ListInstalled);
    assert_eq!(opened(Args { update: true, ..args() }, None).stage(), Stage::Refresh);
    let mut sync = opened(Args { update: true, to: to(), ..args() }, None);
    assert_eq!(sync.stage(), Stage::Ephemeral);
    sync.reply(Reply::Done);
    assert_eq!(sync.stage(), Stage::Refresh);
    sync.reply(Reply::Done);
    assert_eq!(sync.stage(), Stage::ListInstalled);
}

#[test]
fn nothing_to_sync() {
    let mut sync = opened(args(), Some(3));
    sync.reply(Reply::Installed(installed()));
    assert_eq!(sync.installed(), &installed());
    sync.reply(Reply::Candidates(vec![None, None]));
    assert!(sync.updated().is_empty());
    assert_eq!(sync.explicit(), &vec![id("nano-1")]);
    sync.reply(lookups(installed()));
    assert_eq!(sync.stage(), Stage::NothingToDo);
    assert_eq!(sync.finish(), Ok(()));
}

#[test]
fn orphans_are_removed() {
    let mut sync = opened(args(), Some(3));
    sync.reply(Reply::Installed(installed()));
    sync.reply(Reply::Candidates(vec![None, None]));
    sync.reply(lookups(vec![package("nano-1", "nano", 1, true)]));
    assert_eq!(sync.stage(), Stage::Announce);
    assert!(sync.synced().is_empty());
    assert_eq!(ids(sync.removed()), vec!["acl-1"]);
}

#[test]
fn nothing_installed() {
    let mut sync = opened(args(), None);
    sync.reply(Reply::Installed(vec![]));
    assert_eq!(sync.finish(), Err(Error::NoInstall));
}

#[test]
fn unknown_packages_fail_the_sync() {
    let mut sync = opened(args(), None);
    sync.reply(Reply::Installed(installed()));
    sync.reply(Reply::Candidates(vec![None, None]));
    sync.reply(Reply::Resolved(vec![(id("ghost"), None)]));
    assert_eq!(
        sync.finish(),
        Err(Error::Client(client::Error::MissingMetadata(id("ghost"))))
    );
}

#[test]
fn failures_by_stage() {
    let cause = || "cause".to_string();
    let client_error = || client::Error::NoActiveState;

    let mut open = Sync::new(args());
    open.reply(Reply::ClientFailed(client_error()));
    assert_eq!(open.finish(), Err(Error::Client(client_error())));

    let mut refresh = opened(Args { update: true, ..args() }, None);
    refresh.reply(Reply::ClientFailed(client_error()));
    assert_eq!(refresh.finish(), Err(Error::Client(client_error())));

    let mut resolve = opened(args(), None);
    resolve.reply(Reply::Installed(installed()));
    resolve.reply(Reply::Candidates(vec![None, None]));
    resolve.reply(Reply::Failed(cause()));
    assert_eq!(resolve.finish(), Err(Error::Transaction(cause())));

    let mut confirm = announced(args(), None);
    confirm.reply(Reply::Done);
    confirm.reply(Reply::Failed(cause()));
    assert_eq!(confirm.finish(), Err(Error::Dialog(cause())));

    let mut load = announced(Args { yes_all: true, ..args() }, Some(3));
    load.reply(Reply::Done);
    load.reply(Reply::Done);
    assert_eq!(load.stage(), Stage::LoadSelections);
    load.reply(Reply::Failed(cause()));
    assert_eq!(load.finish(), Err(Error::DB(cause())));

    let mut cache = announced(Args { yes_all: true, ..args() }, None);
    cache.reply(Reply::Done);
    cache.reply(Reply::ClientFailed(client_error()));
    assert_eq!(cache.finish(), Err(Error::Client(client_error())));
}

#[test]
fn answers_to_another_stage_change_nothing() {
    let mut sync = Sync::new(args());
    sync.reply(Reply::Done);
    sync.reply(Reply::Installed(installed()));
    sync.reply(Reply::Failed("cause".to_string()));
    assert_eq!(sync.stage(), Stage::Open);
    sync.reply(Reply::Opened(None));
    sync.reply(Reply::Installed(installed()));
    sync.reply(Reply::Candidates(vec![None]));
    assert_eq!(sync.stage(), Stage::FindCandidates);
}
