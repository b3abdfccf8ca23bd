use moss::client::blit::{BlitStep, Element};
use moss::client::place::{Base, Contents, Location, Node, RootLink};
use moss::client::run::{Record, Request, Run};
use moss::client::setup::{Call, CallReply, CallRequest};
use moss::client::step::{
    after_record, create_root_links, ephemeral, record_os_release, stateful, Action, Query, Reply,
    Step, TriggerScope,
};
use moss::client::{Client, Error, PendingFile};
use moss::installation::Installation;
use moss::layout::{Entry, Layout};
use moss::package;
use moss::state::{self, Selection, State};

fn at(base: Base, node: Node) -> Location {
    Location { base, node }
}

fn client(active: Option<i64>) -> Client {
    let installation =
        Installation { root: b"/".to_vec(), active_state: active.map(state::Id) };
    let mut opening = Client::new("moss".to_string(), installation);
    while let CallRequest::Make(call) = opening.request() {
        opening.reply(match call {
            Call::SystemRepositories => CallReply::Repositories(vec![]),
            Call::BuildRegistry(Some(id)) => CallReply::State(state(id.0)),
            _ => CallReply::Done,
        });
    }
    opening.finish().unwrap()
}

fn ephemeral_client(active: Option<i64>) -> Client {
    client(active)
        .ephemeral(b"/mnt".to_vec(), Ok(b"/mnt".to_vec()), Ok(b"/".to_vec()))
        .unwrap()
}

fn selection(id: &str) -> Selection {
    Selection { package: package::Id(id.to_string()), explicit: true, reason: None }
}

fn state(id: i64) -> State {
    State { id: state::Id(id), selections: vec![selection("nano-1"), selection("zlib-2")] }
}

fn layout(target: &str) -> Layout {
    Layout { uid: 0, gid: 0, mode: 0o755, tag: 0, entry: Entry::Directory(target.to_string()) }
}

fn layouts() -> Vec<(package::Id, Layout)> {
    vec![
        (package::Id("nano-1".to_string()), layout("bin")),
        (package::Id("zlib-2".to_string()), layout("lib")),
    ]
}

fn tree() -> Option<Element> {
    let usr = Element::Directory("usr".to_string(), PendingFile::from("/usr".to_string()), vec![]);
    Some(Element::Directory("/".to_string(), PendingFile::from("/".to_string()), vec![usr]))
}

/// Runs to the end, with `there` for everything asked about; writes down what was done.
fn carry_out(run: &mut Run, there: bool) -> Vec<String> {
    let mut done = Vec::new();
    loop {
        let reply = match run.request() {
            Request::Finished | Request::Failed(_) => return done,
            Request::Exists(_) | Request::TryExists(_) | Request::IsSymlink(_) => {
                Reply::Flag(there)
            }
            Request::ReadLink(_) => Reply::Link("elsewhere".to_string()),
            Request::Perform(action) => {
                done.push(describe(action));
                match action {
                    Action::QueryLayouts(_) => Reply::Layouts(layouts()),
                    Action::Bake(_) => Reply::Tree(tree()),
                    Action::RecordState(_) => Reply::Recorded(state(8)),
                    Action::CollectTriggers(TriggerScope::Transaction, _) => Reply::Collected(2),
                    Action::CollectTriggers(TriggerScope::System, _) => Reply::Collected(1),
                    _ => Reply::Done,
                }
            }
        };
        run.reply(reply);
    }
}

fn path(location: &Location) -> String {
    let base = match location.base {
        Base::Root => "root".to_string(),
        Base::Staging => "staging".to_string(),
        Base::Isolation => "isolation".to_string(),
        Base::BlitRoot => "blit".to_string(),
        Base::Archive(id) => format!("archive{}", id.text()),
    };
    format!("{base}:{}", location.relative())
}

fn describe(action: &Action) -> String {
    match action {
        Action::CreateDir(location) => format!("mkdir {}", path(location)),
        Action::CreateDirAll(location) => format!("mkdirs {}", path(location)),
        Action::RemoveFile(location) => format!("rm {}", path(location)),
        Action::Rename(from, to) => format!("mv {} {}", path(from), path(to)),
        Action::Exchange(a, b) => format!("swap {} {}", path(a), path(b)),
        Action::Symlink(link, location) => format!("ln {} {}", link.source(), path(location)),
        Action::Write(location, Contents::StateId(id)) => {
            format!("write {} {}", path(location), id.text())
        }
        Action::Write(location, Contents::OsRelease(_)) => format!("write {}", path(location)),
        Action::QueryLayouts(_) => "layouts".to_string(),
        Action::Push(file) => format!("push {} {}", file.id(), file.path()),
        Action::Bake(_) => "bake".to_string(),
        Action::Blit(BlitStep::RemoveTarget(base)) => format!("clear {base:?}"),
        Action::Blit(BlitStep::MakeDir(name, _)) => format!("blit {name}"),
        Action::Blit(_) => "blit".to_string(),
        Action::RecordState(_) => "record".to_string(),
        Action::CollectTriggers(scope, _) => format!("collect {scope:?}"),
        Action::ExecuteTrigger(scope, index) => format!("trigger {scope:?} {index}"),
        Action::Refuse => "refuse".to_string(),
    }
}

fn position(done: &[String], what: &str) -> usize {
    match done.iter().position(|entry| entry == what) {
        Some(position) => position,
        None => panic!("{what} is missing from {done:?}"),
    }
}

#[test]
fn activating_a_state() {
    let activation = client(Some(3)).activate_state(state::Id(5), Some(state(5)));
    let mut activation = activation.unwrap();
    assert_eq!(activation.old, state::Id(3));
    let packages: Vec<String> =
        activation.run.packages().iter().map(|id| id.0.clone()).collect();
    assert_eq!(packages, vec!["nano-1", "zlib-2"]);
    assert_eq!(activation.run.record(), &None);
    let done = carry_out(&mut activation.run, true);
    assert_eq!(
        done,
        vec![
            "mv archive5: staging:",
            "swap staging:usr root:usr",
            "mv staging:usr archive3:usr",
            "layouts",
            "push nano-1 /usr/bin",
            "push zlib-2 /usr/lib",
            "bake",
            "collect System",
            "trigger System 0",
        ]
    );
    assert_eq!(activation.finish(), Ok(state::Id(3)));
}

#[test]
fn activating_a_state_makes_directories_that_are_missing() {
    let mut activation =
        client(Some(3)).activate_state(state::Id(5), Some(state(5))).unwrap();
    let done = carry_out(&mut activation.run, false);
    assert_eq!(
        done[..6],
        [
            "mkdir staging:",
            "mv archive5: staging:",
            "mkdirs root:usr",
            "swap staging:usr root:usr",
            "mkdirs archive3:",
            "mv staging:usr archive3:usr",
        ]
    );
}

#[test]
fn activating_there_and_back() {
    let mut live = 3i64;
    let mut archived = vec![5i64];
    for target in [5i64, 3] {
        let mut activation =
            client(Some(live)).activate_state(state::Id(target), Some(state(target))).unwrap();
        let done = carry_out(&mut activation.run, true);
        position(&done, &format!("mv archive{target}: staging:"));
        position(&done, &format!("mv staging:usr archive{live}:usr"));
        archived.retain(|id| *id != target);
        archived.push(live);
        live = target;
    }
    assert_eq!((live, archived), (3, vec![5]));
}

#[test]
fn states_that_cannot_be_activated() {
    let error = client(Some(3)).activate_state(state::Id(5), None).err();
    assert_eq!(error, Some(Error::StateDoesntExist(state::Id(5))));
    let error = client(None).activate_state(state::Id(5), Some(state(5))).err();
    assert_eq!(error, Some(Error::NoActiveState));
    let error = client(Some(5)).activate_state(state::Id(5), Some(state(5))).err();
    assert_eq!(error, Some(Error::StateAlreadyActive(state::Id(5))));
}

#[test]
fn ephemeral_clients_activate_nothing() {
    let mut activation =
        ephemeral_client(Some(3)).activate_state(state::Id(5), Some(state(5))).unwrap();
    let done = carry_out(&mut activation.run, true);
    assert_eq!(done, vec!["mv archive5: staging:"]);
    assert_eq!(activation.finish(), Err(Error::EphemeralProhibitedOperation));
}

#[test]
fn promoting_and_archiving() {
    let stateful = client(Some(3));
    let live = at(Base::Root, Node::Usr);
    assert_eq!(
        stateful.promote_staging(),
        vec![
            Step::When(Query::TryExists(live), false, 1),
            Step::Do(Action::CreateDirAll(live)),
            Step::Do(Action::Exchange(at(Base::Staging, Node::Usr), live)),
        ]
    );
    let tree = at(Base::Archive(state::Id(7)), Node::Itself);
    assert_eq!(
        stateful.archive_state(state::Id(7)),
        vec![
            Step::When(Query::Exists(tree), false, 1),
            Step::Do(Action::CreateDirAll(tree)),
            Step::Do(Action::Rename(
                at(Base::Staging, Node::Usr),
                at(Base::Archive(state::Id(7)), Node::Usr),
            )),
        ]
    );
}

#[test]
fn ephemeral_clients_promote_and_archive_nothing() {
    let client = ephemeral_client(Some(3));
    for steps in [client.promote_staging(), client.archive_state(state::Id(3))] {
        let run = Run::new(steps, vec![], None);
        assert!(matches!(run.request(), Request::Failed(Error::EphemeralProhibitedOperation)));
        assert_eq!(run.finish(), Err(Error::EphemeralProhibitedOperation));
    }
}

#[test]
fn a_new_state_goes_live() {
    let mut run = client(Some(3)).new_state(vec![selection("nano-1")], "Sync".to_string());
    let record = Record { selections: vec![selection("nano-1")], summary: "Sync".to_string() };
    assert_eq!(run.record(), &Some(record));
    assert_eq!(run.packages(), &vec![package::Id("nano-1".to_string())]);
    let done = carry_out(&mut run, true);
    let order = [
        "record",
        "layouts",
        "push nano-1 /usr/bin",
        "push zlib-2 /usr/lib",
        "bake",
        "clear Staging",
        "blit usr",
        "mkdirs staging:usr",
        "write staging:usr/.stateID 8",
        "write staging:usr/lib/os-release",
        "collect Transaction",
        "mv isolation:lib32.next isolation:lib32",
        "mkdirs isolation:usr/lib",
        "write isolation:usr/lib/os-release",
        "trigger Transaction 0",
        "trigger Transaction 1",
        "swap staging:usr root:usr",
        "mv root:lib32.next root:lib32",
        "write root:usr/lib/os-release",
        "mv staging:usr archive3:usr",
        "collect System",
        "trigger System 0",
    ];
    let positions: Vec<usize> = order.iter().map(|what| position(&done, what)).collect();
    let mut sorted = positions.clone();
    sorted.sort();
    assert_eq!(positions, sorted);
    assert_eq!(done.last().map(|entry| entry.as_str()), Some("trigger System 0"));
    assert_eq!(run.finish(), Ok(Some(state(8))));
}

#[test]
fn a_new_state_is_written_to_its_tree_before_the_swap() {
    let mut run = client(Some(3)).new_state(vec![selection("nano-1")], "Sync".to_string());
    let mut written = Vec::new();
    let mut swapped = false;
    loop {
        let reply = match run.request() {
            Request::Finished => break,
            Request::Perform(action) => match action {
                Action::QueryLayouts(_) => Reply::Layouts(layouts()),
                Action::Bake(_) => Reply::Tree(tree()),
                Action::RecordState(_) => Reply::Recorded(state(8)),
                Action::CollectTriggers(_, _) => Reply::Collected(0),
                Action::Exchange(_, _) => {
                    swapped = true;
                    Reply::Done
                }
                Action::Write(place, contents) => {
                    written.push((*place, *contents, swapped));
                    Reply::Done
                }
                _ => Reply::Done,
            },
            _ => Reply::Flag(true),
        };
        run.reply(match (run.request(), reply) {
            (Request::ReadLink(_), _) => Reply::Link("elsewhere".to_string()),
            (_, reply) => reply,
        });
    }
    let release = Contents::OsRelease(Some(state::Id(8)));
    assert_eq!(
        written,
        vec![
            (at(Base::Staging, Node::StateId), Contents::StateId(state::Id(8)), false),
            (at(Base::Staging, Node::OsRelease), release, false),
            (at(Base::Isolation, Node::OsRelease), release, false),
            (at(Base::Root, Node::OsRelease), release, true),
        ]
    );
}

#[test]
fn the_first_state_archives_nothing() {
    let mut run = client(None).new_state(vec![], "First".to_string());
    let done = carry_out(&mut run, true);
    assert!(!done.iter().any(|entry| entry.contains("archive")));
    position(&done, "swap staging:usr root:usr");
    assert_eq!(run.finish(), Ok(Some(state(8))));
}

#[test]
fn ephemeral_clients_leave_the_installation_alone() {
    for there in [true, false] {
        let mut run =
            ephemeral_client(Some(3)).new_state(vec![selection("nano-1")], "Sync".to_string());
        let done = carry_out(&mut run, there);
        for entry in &done {
            assert!(!entry.contains("root:"), "{entry}");
            assert!(!entry.contains("staging:"), "{entry}");
            assert!(!entry.contains("archive"), "{entry}");
            assert!(!entry.contains("swap"), "{entry}");
            assert!(!entry.contains("record"), "{entry}");
        }
        let order = [
            "layouts",
            "bake",
            "clear BlitRoot",
            "blit usr",
            "write blit:usr/lib/os-release",
            "mv blit:lib32.next blit:lib32",
            "mv isolation:lib32.next isolation:lib32",
            "mkdirs isolation:usr/lib",
            "write isolation:usr/lib/os-release",
            "mkdirs blit:etc",
            "collect Transaction",
            "trigger Transaction 1",
            "collect System",
            "trigger System 0",
        ];
        let positions: Vec<usize> = order.iter().map(|what| position(&done, what)).collect();
        let mut sorted = positions.clone();
        sorted.sort();
        assert_eq!(positions, sorted);
        assert_eq!(run.finish(), Ok(None));
    }
}

#[test]
fn nothing_is_done_when_the_record_fails() {
    let mut run = client(Some(3)).new_state(vec![], "Sync".to_string());
    assert!(matches!(run.request(), Request::Perform(Action::RecordState(Some(_)))));
    run.reply(Reply::Failed("locked".to_string()));
    assert!(matches!(run.request(), Request::Failed(_)));
    assert_eq!(run.finish(), Err(Error::Meta("locked".to_string())));
}

#[test]
fn a_tree_of_packages() {
    let packages = vec![package::Id("nano-1".to_string())];
    let mut run = client(None).vfs(packages.clone());
    assert_eq!(run.packages(), &packages);
    let done = carry_out(&mut run, true);
    assert_eq!(done, vec!["layouts", "push nano-1 /usr/bin", "push zlib-2 /usr/lib", "bake"]);
    assert_eq!(run.finish(), Ok(None));
}

#[test]
fn right_links_stay() {
    let mut run = Run::new(create_root_links(Base::Root, None), vec![], None);
    let mut done = Vec::new();
    loop {
        let reply = match run.request() {
            Request::Exists(location) => {
                Reply::Flag(matches!(location.node, Node::Link(_)))
            }
            Request::Perform(action) => {
                done.push(describe(action));
                Reply::Done
            }
            Request::IsSymlink(_) => Reply::Flag(true),
            Request::ReadLink(location) => match location.node {
                Node::Link(link) => Reply::Link(link.source().to_string()),
                _ => panic!("{location:?}"),
            },
            Request::Finished => break,
            other => panic!("{other:?}"),
        };
        run.reply(reply);
    }
    assert_eq!(done, vec!["mkdirs root:usr/lib", "write root:usr/lib/os-release"]);
    assert_eq!(run.finish(), Ok(None));
}

fn one_link(staged: bool, found: bool, symlink: bool, source: &str) -> Vec<String> {
    let mut steps = create_root_links(Base::Root, None);
    steps.truncate(5);
    let mut run = Run::new(steps, vec![], None);
    let mut done = Vec::new();
    loop {
        let reply = match run.request() {
            Request::Exists(location) => match location.node {
                Node::StagedLink(_) => Reply::Flag(staged),
                _ => Reply::Flag(found),
            },
            Request::IsSymlink(_) => Reply::Flag(symlink),
            Request::ReadLink(_) => Reply::Link(source.to_string()),
            Request::Perform(action) => {
                done.push(describe(action));
                Reply::Done
            }
            _ => break,
        };
        run.reply(reply);
    }
    done
}

#[test]
fn wrong_links_are_replaced() {
    let replaced = vec!["ln usr/sbin root:sbin.next", "mv root:sbin.next root:sbin"];
    assert_eq!(one_link(false, false, false, ""), replaced);
    assert_eq!(one_link(false, true, false, ""), replaced);
    assert_eq!(one_link(false, true, true, "sbin"), replaced);
    assert!(one_link(false, true, true, "usr/sbin").is_empty());
    assert_eq!(one_link(true, true, true, "usr/sbin"), vec!["rm root:sbin.next"]);
}

#[test]
fn all_links_of_a_root() {
    let mut run = Run::new(create_root_links(Base::BlitRoot, None), vec![], None);
    let done = carry_out(&mut run, false);
    assert_eq!(
        done,
        vec![
            "ln usr/sbin blit:sbin.next",
            "mv blit:sbin.next blit:sbin",
            "ln usr/bin blit:bin.next",
            "mv blit:bin.next blit:bin",
            "ln usr/lib blit:lib.next",
            "mv blit:lib.next blit:lib",
            "ln usr/lib blit:lib64.next",
            "mv blit:lib64.next blit:lib64",
            "ln usr/lib32 blit:lib32.next",
            "mv blit:lib32.next blit:lib32",
            "mkdirs blit:usr/lib",
            "write blit:usr/lib/os-release",
        ]
    );
    assert_eq!(
        create_root_links(Base::Root, Some(state::Id(4)))[26],
        Step::Do(Action::Write(
            at(Base::Root, Node::OsRelease),
            Contents::OsRelease(Some(state::Id(4))),
        ))
    );
}

/// What is at a place.
#[derive(Clone, Debug, PartialEq)]
enum Found {
    Link(String),
    File(String),
    Directory,
}

type Disk = Vec<(Location, Found)>;

fn find(disk: &Disk, place: &Location) -> Option<Found> {
    disk.iter().find(|entry| entry.0 == *place).map(|entry| entry.1.clone())
}

fn put(disk: &mut Disk, place: Location, found: Found) {
    disk.retain(|entry| entry.0 != place);
    disk.push((place, found));
}

/// Performs an action as a filesystem would.
fn perform(disk: &mut Disk, action: &Action) -> Result<(), String> {
    let failed = |cause: &str| Err(cause.to_string());
    match action {
        Action::CreateDir(place) => {
            if find(disk, &at(place.base, Node::Usr)).is_none() {
                return failed("no parent");
            }
            put(disk, *place, Found::Directory);
        }
        Action::CreateDirAll(place) => {
            for place in [at(place.base, Node::Usr), *place] {
                match find(disk, &place) {
                    None => put(disk, place, Found::Directory),
                    Some(Found::Directory) => {}
                    Some(_) => return failed("not a directory"),
                }
            }
        }
        Action::RemoveFile(place) => disk.retain(|entry| entry.0 != *place),
        Action::Symlink(link, place) => {
            if find(disk, place).is_some() {
                return failed("there already");
            }
            put(disk, *place, Found::Link(link.source().to_string()));
        }
        Action::Rename(from, to) => {
            let moved = find(disk, from).unwrap();
            disk.retain(|entry| entry.0 != *from);
            put(disk, *to, moved);
        }
        Action::Write(place, contents) => {
            if find(disk, &at(place.base, Node::UsrLib)) != Some(Found::Directory) {
                return failed("no parent");
            }
            put(disk, *place, Found::File(contents.render("1")));
        }
        other => panic!("{other:?}"),
    }
    Ok(())
}

/// Runs steps on a disk; `dangling` when links at the top lead nowhere.
fn run_on(steps: Vec<Step>, disk: &mut Disk, dangling: bool) -> Result<usize, Error> {
    let mut run = Run::new(steps, vec![], None);
    let mut performed = 0;
    loop {
        let reply = match run.request() {
            Request::Finished | Request::Failed(_) => {
                return run.finish().map(|_| performed);
            }
            Request::Exists(place) => {
                let lost = dangling && matches!(place.node, Node::Link(_));
                Reply::Flag(find(disk, &place).is_some() && !lost)
            }
            Request::IsSymlink(place) => {
                Reply::Flag(matches!(find(disk, &place), Some(Found::Link(_))))
            }
            Request::ReadLink(place) => match find(disk, &place) {
                Some(Found::Link(source)) => Reply::Link(source),
                other => panic!("{other:?}"),
            },
            Request::Perform(action) => {
                performed += 1;
                match perform(disk, action) {
                    Ok(()) => Reply::Done,
                    Err(cause) => Reply::Failed(cause),
                }
            }
            other => panic!("{other:?}"),
        };
        run.reply(reply);
    }
}

fn is_made(disk: &Disk, base: Base) {
    for link in [RootLink::Sbin, RootLink::Bin, RootLink::Lib, RootLink::Lib64, RootLink::Lib32] {
        assert_eq!(
            find(disk, &at(base, Node::Link(link))),
            Some(Found::Link(link.source().to_string()))
        );
        assert_eq!(find(disk, &at(base, Node::StagedLink(link))), None);
    }
    let release = Contents::OsRelease(Some(state::Id(4))).render("1");
    assert_eq!(find(disk, &at(base, Node::OsRelease)), Some(Found::File(release)));
}

#[test]
fn a_root_without_usr_can_be_set_up() {
    for base in [Base::Root, Base::Isolation, Base::BlitRoot] {
        let mut disk: Disk = vec![];
        let steps = create_root_links(base, Some(state::Id(4)));
        assert_eq!(run_on(steps, &mut disk, true), Ok(12));
        is_made(&disk, base);
        assert_eq!(find(&disk, &at(base, Node::Usr)), Some(Found::Directory));
        assert_eq!(disk.len(), 8);
    }
}

#[test]
fn release_information_alone_needs_usr() {
    let mut disk: Disk = vec![];
    let steps = record_os_release(Base::Root, Some(state::Id(4)));
    assert_eq!(run_on(steps, &mut disk, false), Err(Error::Io("no parent".to_string())));
    assert!(disk.is_empty());
}

#[test]
fn setting_a_root_up_again_changes_nothing() {
    for dangling in [false, true] {
        let steps = || create_root_links(Base::Root, Some(state::Id(4)));
        let mut disk: Disk = vec![
            (at(Base::Root, Node::StagedLink(RootLink::Bin)), Found::File("left".to_string())),
            (at(Base::Root, Node::Link(RootLink::Lib)), Found::Link("elsewhere".to_string())),
            (at(Base::Root, Node::Link(RootLink::Sbin)), Found::File("plain".to_string())),
            (at(Base::Root, Node::Etc), Found::Directory),
            (at(Base::Staging, Node::Usr), Found::Directory),
        ];
        assert!(run_on(steps(), &mut disk, dangling).is_ok());
        is_made(&disk, Base::Root);
        assert_eq!(find(&disk, &at(Base::Root, Node::Etc)), Some(Found::Directory));
        assert_eq!(disk.len(), 10);
        let mut again = disk.clone();
        let performed = run_on(steps(), &mut again, dangling);
        assert_eq!(performed, Ok(if dangling { 12 } else { 2 }));
        assert_eq!(again.len(), disk.len());
        assert!(disk.iter().all(|entry| again.contains(entry)));
    }
}

#[test]
fn release_information_makes_its_directory() {
    let steps = || record_os_release(Base::Staging, Some(state::Id(4)));
    let mut run = Run::new(steps(), vec![], None);
    assert_eq!(
        carry_out(&mut run, false),
        vec!["mkdir staging:usr/lib", "write staging:usr/lib/os-release"]
    );
    let mut run = Run::new(steps(), vec![], None);
    assert_eq!(carry_out(&mut run, true), vec!["write staging:usr/lib/os-release"]);
    assert_eq!(
        steps()[2],
        Step::Do(Action::Write(
            at(Base::Staging, Node::OsRelease),
            Contents::OsRelease(Some(state::Id(4))),
        ))
    );
}

fn failing(action: Action) -> Result<Option<State>, Error> {
    let mut run = Run::new(vec![Step::Do(action)], vec![], None);
    run.reply(Reply::Failed("cause".to_string()));
    run.reply(Reply::Done);
    run.finish()
}

#[test]
fn failures_by_action() {
    let cause = || "cause".to_string();
    let place = at(Base::Root, Node::Usr);
    let file = PendingFile::from("/usr".to_string());
    let io = vec![
        Action::CreateDir(place),
        Action::CreateDirAll(place),
        Action::RemoveFile(place),
        Action::Rename(place, place),
        Action::Symlink(RootLink::Bin, place),
        Action::Write(place, Contents::StateId(state::Id(1))),
        Action::Blit(BlitStep::RemoveTarget(Base::Staging)),
    ];
    for action in io {
        assert_eq!(failing(action), Err(Error::Io(cause())));
    }
    let blit = vec![
        Action::Exchange(place, place),
        Action::Blit(BlitStep::OpenCache),
        Action::Blit(BlitStep::Link("x".to_string(), 1)),
    ];
    for action in blit {
        assert_eq!(failing(action), Err(Error::Blit(cause())));
    }
    for action in [Action::QueryLayouts(None), Action::RecordState(None)] {
        assert_eq!(failing(action), Err(Error::Meta(cause())));
    }
    for action in [Action::Push(file), Action::Bake(None)] {
        assert_eq!(failing(action), Err(Error::Filesystem(cause())));
    }
    let triggers = vec![
        Action::CollectTriggers(TriggerScope::System, None),
        Action::ExecuteTrigger(TriggerScope::System, 0),
    ];
    for action in triggers {
        assert_eq!(failing(action), Err(Error::PostBlit(cause())));
    }
}

#[test]
fn a_target_that_is_there_already_does_no_harm() {
    assert_eq!(failing(Action::Blit(BlitStep::MakeTarget(Base::Staging, 0o755))), Ok(None));
}

#[test]
fn questions_that_cannot_be_answered() {
    let live = at(Base::Root, Node::Usr);
    let mut run = Run::new(vec![Step::When(Query::TryExists(live), false, 1)], vec![], None);
    run.reply(Reply::Failed("denied".to_string()));
    assert_eq!(run.finish(), Err(Error::Io("denied".to_string())));

    let link = at(Base::Root, Node::Link(RootLink::Bin));
    let query = Query::LinksTo(link, RootLink::Bin);
    let mut run = Run::new(vec![Step::When(query, false, 1)], vec![], None);
    run.reply(Reply::Flag(true));
    run.reply(Reply::Flag(true));
    assert!(matches!(run.request(), Request::ReadLink(_)));
    run.reply(Reply::Failed("denied".to_string()));
    assert_eq!(run.finish(), Err(Error::Io("denied".to_string())));
}

#[test]
fn a_failed_run_does_nothing_more() {
    let mut run = client(Some(3)).new_state(vec![], "Sync".to_string());
    run.reply(Reply::Failed("locked".to_string()));
    run.reply(Reply::Layouts(layouts()));
    run.reply(Reply::Recorded(state(8)));
    assert!(matches!(run.request(), Request::Failed(Error::Meta(_))));
    assert_eq!(run.finish(), Err(Error::Meta("locked".to_string())));
}

#[test]
fn replies_to_something_else_change_nothing() {
    let mut run = client(Some(3)).new_state(vec![], "Sync".to_string());
    run.reply(Reply::Done);
    run.reply(Reply::Flag(true));
    run.reply(Reply::Layouts(layouts()));
    assert!(matches!(run.request(), Request::Perform(Action::RecordState(Some(_)))));
}

#[test]
fn scripts_of_new_states() {
    assert_eq!(
        stateful(Some(state::Id(3))),
        vec![
            Step::Do(Action::RecordState(Some(state::Id(3)))),
        ]
    );
    let first = after_record(state::Id(8), None);
    assert_eq!(first[0], Step::Do(Action::QueryLayouts(Some(Base::Staging))));
    assert_eq!(first.len() + 3, after_record(state::Id(8), Some(state::Id(3))).len());
    assert_eq!(ephemeral()[0], Step::Do(Action::QueryLayouts(Some(Base::BlitRoot))));
}

/// Where the trees are: the live one, the staged one, and those of archived states.
#[derive(Clone, Debug, PartialEq)]
struct Trees {
    live: &'static str,
    staged: &'static str,
    archived: Vec<(i64, &'static str)>,
}

fn apply(trees: &mut Trees, action: &Action) {
    match action {
        Action::Blit(BlitStep::RemoveTarget(Base::Staging)) => trees.staged = "",
        Action::Blit(BlitStep::MakeDir(_, _)) => trees.staged = "fresh",
        Action::Exchange(_, _) => std::mem::swap(&mut trees.live, &mut trees.staged),
        Action::Rename(from, to) => match (from.base, to.base) {
            (Base::Archive(id), Base::Staging) => {
                let index = trees.archived.iter().position(|entry| entry.0 == id.0).unwrap();
                trees.staged = trees.archived.remove(index).1;
            }
            (Base::Staging, Base::Archive(id)) => {
                trees.archived.push((id.0, trees.staged));
                trees.staged = "";
            }
            _ => {}
        },
        _ => {}
    }
}

/// Runs until the given number of actions were performed, then fails; tells whether it failed.
fn break_off(run: &mut Run, trees: &mut Trees, mut actions: usize) -> bool {
    loop {
        let reply = match run.request() {
            Request::Finished => return false,
            Request::Failed(_) => return true,
            Request::Perform(action) => {
                if actions == 0 {
                    Reply::Failed("out of space".to_string())
                } else {
                    actions -= 1;
                    apply(trees, action);
                    match action {
                        Action::QueryLayouts(_) => Reply::Layouts(layouts()),
                        Action::Bake(_) => Reply::Tree(tree()),
                        Action::RecordState(_) => Reply::Recorded(state(8)),
                        Action::CollectTriggers(_, _) => Reply::Collected(1),
                        _ => Reply::Done,
                    }
                }
            }
            _ => Reply::Flag(false),
        };
        run.reply(reply);
    }
}

#[test]
fn an_activation_that_breaks_off_loses_nothing() {
    let before = Trees { live: "old", staged: "", archived: vec![(5, "new")] };
    let mut broken = 0;
    for actions in 0.. {
        let mut trees = before.clone();
        let mut activation =
            client(Some(3)).activate_state(state::Id(5), Some(state(5))).unwrap();
        let failed = break_off(&mut activation.run, &mut trees, actions);
        assert!(trees.live == "old" || trees.live == "new");
        for (id, tree) in [(3, "old"), (5, "new")] {
            assert!(
                trees.live == tree || trees.staged == tree || trees.archived.contains(&(id, tree))
            );
        }
        if !failed {
            assert_eq!(trees, Trees { live: "new", staged: "", archived: vec![(3, "old")] });
            break;
        }
        broken += 1;
    }
    assert!(broken > 6);
}

#[test]
fn a_new_state_that_breaks_off_loses_nothing() {
    let before = Trees { live: "old", staged: "stale", archived: vec![(1, "first")] };
    let mut broken = 0;
    for actions in 0.. {
        let mut trees = before.clone();
        let mut run = client(Some(3)).new_state(vec![], "Sync".to_string());
        let failed = break_off(&mut run, &mut trees, actions);
        assert!(trees.archived.contains(&(1, "first")));
        if trees.live == "old" {
            assert_eq!(trees.archived, before.archived);
        } else {
            assert_eq!(trees.live, "fresh");
            assert!(trees.staged == "old" || trees.archived.contains(&(3, "old")));
        }
        if !failed {
            assert_eq!(
                trees,
                Trees { live: "fresh", staged: "", archived: vec![(1, "first"), (3, "old")] }
            );
            break;
        }
        broken += 1;
    }
    assert!(broken > 20);
}

#[test]
fn a_new_state_is_undone_by_activating_the_old_one() {
    let mut trees = Trees { live: "old", staged: "", archived: vec![] };
    let mut run = client(Some(3)).new_state(vec![], "Sync".to_string());
    assert!(!break_off(&mut run, &mut trees, usize::MAX));
    let mut activation = client(Some(8)).activate_state(state::Id(3), Some(state(3))).unwrap();
    assert!(!break_off(&mut activation.run, &mut trees, usize::MAX));
    assert_eq!(trees, Trees { live: "old", staged: "", archived: vec![(8, "fresh")] });
}
