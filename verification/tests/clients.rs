use moss::client::cache::{CacheRequest, CacheStep};
use moss::client::setup::{config_name, Call, CallReply, CallRequest, Calls, Database};
use moss::client::{Client, Error, Opening, Pruning, Scope};
use moss::installation::Installation;
use moss::package::{self, Flags, Meta, Name, Package};
use moss::registry::{build_registry, Plugin};
use moss::repository::{Manager, Repository};
use moss::state::{self, Selection, State};

fn installation(active: Option<i64>) -> Installation {
    Installation { root: b"/".to_vec(), active_state: active.map(state::Id) }
}

fn repository(id: &str) -> Repository {
    Repository { id: id.to_string() }
}

fn state(id: i64) -> State {
    State {
        id: state::Id(id),
        selections: vec![Selection {
            package: package::Id("nano-1".to_string()),
            explicit: true,
            reason: None,
        }],
    }
}

/// Makes every call, with the repositories and what the database of states answers.
fn open(mut opening: Opening, repositories: &[&str]) -> (Vec<Call>, Result<Client, Error>) {
    let mut calls = Vec::new();
    while let CallRequest::Make(call) = opening.request() {
        calls.push(call);
        opening.reply(answer(call, repositories));
    }
    (calls, opening.finish())
}

fn answer(call: Call, repositories: &[&str]) -> CallReply {
    match call {
        Call::SystemRepositories => {
            CallReply::Repositories(repositories.iter().map(|id| repository(id)).collect())
        }
        Call::BuildRegistry(Some(id)) => CallReply::State(state(id.0)),
        Call::InitializeRepositories => CallReply::Count(2),
        _ => CallReply::Done,
    }
}

fn client(active: Option<i64>) -> Client {
    let opening = Client::new("moss".to_string(), installation(active));
    open(opening, &["volatile", "local"]).1.unwrap()
}

fn explicit_client() -> Client {
    let opening = Client::with_explicit_repositories(
        "boulder".to_string(),
        installation(None),
        vec![repository("one")],
    );
    open(opening, &["of the system"]).1.unwrap()
}

/// Makes calls on a client; the one with the index fails.
fn make(mut calls: Calls, client: &mut Client, failing: Option<usize>) -> (Vec<Call>, Calls) {
    let mut made = Vec::new();
    while let CallRequest::Make(call) = calls.request() {
        let reply = if failing == Some(made.len()) {
            CallReply::Failed("cause".to_string())
        } else {
            answer(call, &["new"])
        };
        made.push(call);
        calls.reply(client, reply);
    }
    (made, calls)
}

fn ephemeral_client() -> Client {
    client(Some(3)).ephemeral(b"/mnt".to_vec(), Ok(b"/mnt".to_vec()), Ok(b"/".to_vec())).unwrap()
}

fn named(id: &str, name: &str) -> Package {
    Package {
        id: package::Id(id.to_string()),
        meta: Meta {
            name: Name(name.to_string()),
            version_identifier: "1".to_string(),
            source_release: 1,
            download_size: None,
            record: String::new(),
        },
        flags: Flags { explicit: false },
    }
}

fn lookup(id: &str, name: &str) -> (package::Id, Option<Package>) {
    (package::Id(id.to_string()), Some(named(id, name)))
}

#[test]
fn opening_a_client_with_the_systems_repositories() {
    let opening = Client::new("moss".to_string(), installation(Some(4)));
    assert_eq!(
        open(opening, &[]).0,
        vec![
            Call::LoadConfig,
            Call::OpenDatabase(Database::Install),
            Call::OpenDatabase(Database::State),
            Call::OpenDatabase(Database::Layout),
            Call::SystemRepositories,
            Call::BuildRegistry(Some(state::Id(4))),
        ]
    );
    assert_eq!(config_name(), "moss");
    assert_eq!(Database::Install.name(), "install");
    assert_eq!(Database::State.name(), "state");
    assert_eq!(Database::Layout.name(), "layout");
}

#[test]
fn opening_a_client_with_explicit_repositories() {
    let opening = Client::with_explicit_repositories(
        "boulder".to_string(),
        installation(None),
        vec![repository("one"), repository("two")],
    );
    assert_eq!(opening.repositories(), Some(&vec![repository("one"), repository("two")]));
    let (calls, client) = open(opening, &["of the system"]);
    assert_eq!(
        client.unwrap().repositories,
        Manager { explicit: true, active: vec![repository("one"), repository("two")] }
    );
    assert_eq!(calls[4], Call::ExplicitRepositories);
    assert_eq!(calls[5], Call::BuildRegistry(None));
    assert!(!calls.contains(&Call::SystemRepositories));
}

#[test]
fn a_new_client_is_stateful() {
    let client = client(Some(3));
    assert_eq!(client.name, "moss");
    assert_eq!(client.scope, Scope::Stateful);
    assert!(!client.is_ephemeral());
    assert!(!client.repositories.is_explicit());
    assert_eq!(
        client.registry.plugins,
        vec![
            Plugin::Cobble,
            Plugin::Active(Some(state(3))),
            Plugin::Repository(repository("volatile")),
            Plugin::Repository(repository("local")),
        ]
    );
}

#[test]
fn explicit_repositories_are_marked() {
    let client = explicit_client();
    assert!(client.repositories.is_explicit());
    assert_eq!(
        client.registry.plugins,
        vec![Plugin::Cobble, Plugin::Active(None), Plugin::Repository(repository("one"))]
    );
}

#[test]
fn no_reply_takes_the_place_of_explicit_repositories() {
    let mut opening = Client::with_explicit_repositories(
        "boulder".to_string(),
        installation(None),
        vec![repository("one")],
    );
    while let CallRequest::Make(call) = opening.request() {
        opening.reply(CallReply::Repositories(vec![repository("of the system")]));
        assert_eq!(opening.repositories(), Some(&vec![repository("one")]));
        opening.reply(answer(call, &[]));
    }
    assert_eq!(opening.finish().unwrap().repositories.active, vec![repository("one")]);
    assert_eq!(Client::new("moss".to_string(), installation(None)).repositories(), None);
}

#[test]
fn explicit_repositories_that_cannot_be_set_up() {
    let mut opening =
        Client::with_explicit_repositories("boulder".to_string(), installation(None), vec![]);
    while let CallRequest::Make(call) = opening.request() {
        opening.reply(match call {
            Call::ExplicitRepositories => CallReply::Failed("cause".to_string()),
            call => answer(call, &[]),
        });
    }
    assert_eq!(opening.finish().err(), Some(Error::Repository("cause".to_string())));
}

#[test]
fn the_first_call_that_fails_ends_the_opening() {
    let cause = || "cause".to_string();
    let errors = [
        Error::Meta(cause()),
        Error::Meta(cause()),
        Error::Meta(cause()),
        Error::Repository(cause()),
        Error::Meta(cause()),
    ];
    for (i, error) in errors.into_iter().enumerate() {
        let mut opening = Client::new("moss".to_string(), installation(Some(9)));
        let mut made = 0;
        while let CallRequest::Make(call) = opening.request() {
            let reply =
                if made == i + 1 { CallReply::Failed(cause()) } else { answer(call, &[]) };
            made += 1;
            opening.reply(reply);
        }
        assert_eq!(made, i + 2);
        assert!(matches!(opening.request(), CallRequest::Failed(_)));
        assert_eq!(opening.finish().err(), Some(error));
    }
}

#[test]
fn replies_to_another_call_change_nothing() {
    let mut opening = Client::new("moss".to_string(), installation(Some(9)));
    opening.reply(CallReply::Failed("cause".to_string()));
    opening.reply(CallReply::Count(1));
    opening.reply(CallReply::State(state(9)));
    assert!(matches!(opening.request(), CallRequest::Make(Call::LoadConfig)));
    opening.reply(CallReply::Done);
    opening.reply(CallReply::Repositories(vec![]));
    assert!(matches!(
        opening.request(),
        CallRequest::Make(Call::OpenDatabase(Database::Install))
    ));
}

#[test]
fn registry_without_an_active_state() {
    let manager = Manager { explicit: false, active: vec![] };
    let registry = build_registry(None, &manager, None).unwrap();
    assert_eq!(registry.plugins, vec![Plugin::Cobble, Plugin::Active(None)]);
}

#[test]
fn registry_without_its_active_state() {
    let manager = Manager { explicit: false, active: vec![] };
    let statedb = Some(Err("no such row".to_string()));
    let error = build_registry(Some(state::Id(9)), &manager, statedb).err();
    assert_eq!(error, Some(Error::Meta("no such row".to_string())));
}

#[test]
fn ephemeral_clients_blit_elsewhere() {
    let client = ephemeral_client();
    assert!(client.is_ephemeral());
    assert_eq!(client.scope, Scope::Ephemeral { blit_root: b"/mnt".to_vec() });
    assert_eq!(client.installation.active_state, Some(state::Id(3)));
    assert_eq!(client.name, "moss");
}

#[test]
fn ephemeral_clients_may_not_blit_to_the_installation() {
    let error = client(None)
        .ephemeral(b"/proc/self/root".to_vec(), Ok(b"/".to_vec()), Ok(b"/".to_vec()))
        .err();
    assert_eq!(error, Some(Error::EphemeralInstallationRoot));
}

#[test]
fn ephemeral_clients_need_canonical_paths() {
    let missing = || Err("missing".to_string());
    let broken = || Err("broken".to_string());
    let error = client(None).ephemeral(b"/x".to_vec(), missing(), broken()).err();
    assert_eq!(error, Some(Error::Io("missing".to_string())));
    let error = client(None).ephemeral(b"/x".to_vec(), Ok(b"/x".to_vec()), broken()).err();
    assert_eq!(error, Some(Error::Io("broken".to_string())));
}

#[test]
fn pruning_is_for_stateful_clients() {
    assert_eq!(client(None).prune("keep 2", true), Ok(Pruning { strategy: "keep 2", yes: true }));
    assert_eq!(ephemeral_client().prune("keep 2", true), Err(Error::EphemeralProhibitedOperation));
}

#[test]
fn a_pruning_that_fails() {
    let pruning = || client(None).prune("keep 2", false).unwrap();
    assert_eq!(pruning().finish(Ok(())), Ok(()));
    let cause = || "locked".to_string();
    assert_eq!(pruning().finish(Err(cause())), Err(Error::Prune(cause())));
}

#[test]
fn refreshing_reloads_the_systems_repositories() {
    let mut client = client(Some(3));
    let (made, calls) = make(client.refresh_repositories(), &mut client, None);
    assert_eq!(
        made,
        vec![
            Call::SystemRepositories,
            Call::RefreshRepositories,
            Call::BuildRegistry(Some(state::Id(3))),
        ]
    );
    assert!(matches!(calls.request(), CallRequest::Finished));
    assert_eq!(calls.finish(), Ok(()));
    assert_eq!(client.repositories.active, vec![repository("new")]);
    assert_eq!(
        client.registry.plugins,
        vec![
            Plugin::Cobble,
            Plugin::Active(Some(state(3))),
            Plugin::Repository(repository("new")),
        ]
    );
}

#[test]
fn refreshing_keeps_explicit_repositories() {
    let mut client = explicit_client();
    let (made, calls) = make(client.refresh_repositories(), &mut client, None);
    assert_eq!(made, vec![Call::RefreshRepositories, Call::BuildRegistry(None)]);
    assert_eq!(calls.finish(), Ok(()));
    assert_eq!(client.repositories.active, vec![repository("one")]);
    assert_eq!(client.registry.plugins.len(), 3);
}

#[test]
fn a_failed_refresh_keeps_the_registry() {
    let cause = || "cause".to_string();
    for failing in 0..3usize {
        let mut client = client(Some(3));
        let (made, calls) = make(client.refresh_repositories(), &mut client, Some(failing));
        assert_eq!(made.len(), failing + 1);
        let expected =
            if failing < 2 { Error::Repository(cause()) } else { Error::Meta(cause()) };
        assert_eq!(calls.finish(), Err(expected));
        assert_eq!(client.registry.plugins.len(), 4);
        assert_eq!(client.repositories.active.len(), if failing == 0 { 2 } else { 1 });
    }
}

#[test]
fn initializing_counts_the_indexes_fetched() {
    let mut client = client(None);
    let (made, calls) = make(client.ensure_repos_initialized(), &mut client, None);
    assert_eq!(made, vec![Call::InitializeRepositories, Call::BuildRegistry(None)]);
    assert_eq!(calls.finish_count(), Ok(2));
    assert_eq!(client.repositories.active.len(), 2);
    let cause = || "cause".to_string();
    for (failing, error) in [(0, Error::Repository(cause())), (1, Error::Meta(cause()))] {
        let (_, calls) = make(client.ensure_repos_initialized(), &mut client, Some(failing));
        assert_eq!(calls.finish_count(), Err(error));
        assert_eq!(client.registry.plugins.len(), 4);
    }
}

#[test]
fn packages_are_resolved_by_name() {
    let lookups = vec![
        lookup("z-1", "zlib"),
        lookup("a-2", "acl"),
        lookup("n-1", "nano"),
        lookup("a-1", "acl"),
        lookup("B-1", "Bison"),
        lookup("n-0", "nano"),
    ];
    let packages = Client::resolve_packages(&lookups).unwrap();
    let ids: Vec<String> = packages.into_iter().map(|package| package.id.0).collect();
    assert_eq!(ids, vec!["B-1", "a-2", "n-1", "z-1"]);
}

#[test]
fn resolving_twice_changes_nothing() {
    let lookups = vec![lookup("z-1", "zlib"), lookup("a-2", "acl"), lookup("a-1", "acl")];
    let once = Client::resolve_packages(&lookups).unwrap();
    let again: Vec<(package::Id, Option<Package>)> =
        once.iter().map(|package| (package.id.clone(), Some(package.clone()))).collect();
    assert_eq!(Client::resolve_packages(&again), Ok(once));
    assert_eq!(Client::resolve_packages(&vec![]), Ok(vec![]));
}

#[test]
fn order_and_repetition_make_no_difference() {
    let one = vec![lookup("z-1", "zlib"), lookup("a-2", "acl"), lookup("n-1", "nano")];
    let two = vec![
        lookup("n-1", "nano"),
        lookup("a-2", "acl"),
        lookup("n-1", "nano"),
        lookup("z-1", "zlib"),
        lookup("a-2", "acl"),
    ];
    assert_eq!(Client::resolve_packages(&one), Client::resolve_packages(&two));
}

#[test]
fn the_first_unknown_package_is_reported() {
    let lookups = vec![
        lookup("a-1", "acl"),
        (package::Id("x".to_string()), None),
        (package::Id("y".to_string()), None),
    ];
    assert_eq!(
        Client::resolve_packages(&lookups),
        Err(Error::MissingMetadata(package::Id("x".to_string())))
    );
}

#[test]
fn every_package_is_cached() {
    let packages = vec![named("a-1", "acl"), named("z-1", "zlib")];
    let caching = client(None).cache_packages(&packages);
    assert_eq!(caching.len(), 2);
    for (caching, package) in caching.iter().zip(&packages) {
        assert_eq!(caching.package(), package);
        assert!(matches!(caching.request(), CacheRequest::Perform(CacheStep::Fetch)));
    }
    assert!(client(None).cache_packages(&vec![]).is_empty());
}
