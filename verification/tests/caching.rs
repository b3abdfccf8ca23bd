use moss::client::cache::{
    conclude, CacheReply, CacheRequest, CacheStep, Caching, Payload, DB_BATCH_SIZE,
};
use moss::client::Error;
use moss::layout::{Entry, Layout};
use moss::package::{self, Flags, Meta, Name, Package};

fn package() -> Package {
    Package {
        id: package::Id("nano-7.2-1".to_string()),
        meta: Meta {
            name: Name("nano".to_string()),
            version_identifier: "7.2".to_string(),
            source_release: 1,
            download_size: Some(5),
            record: "uri=nano.stone".to_string(),
        },
        flags: Flags { explicit: true },
    }
}

fn layouts(len: usize) -> Vec<Layout> {
    (0..len)
        .map(|i| Layout {
            uid: 0,
            gid: 0,
            mode: 0o755,
            tag: i as u32,
            entry: Entry::Directory(format!("dir{i}")),
        })
        .collect()
}

fn step(caching: &Caching) -> CacheStep {
    match caching.request() {
        CacheRequest::Perform(step) => step,
        other => panic!("{other:?}"),
    }
}

fn unpacked(payloads: Vec<Payload>) -> Caching {
    let mut caching = Caching::new(package());
    assert_eq!(step(&caching), CacheStep::Fetch);
    caching.reply(CacheReply::Fetched(false));
    assert_eq!(step(&caching), CacheStep::Unpack);
    caching.reply(CacheReply::Unpacked(payloads));
    caching
}

fn course(payloads: Vec<Payload>) -> Vec<CacheStep> {
    let mut caching = unpacked(payloads);
    let mut steps = Vec::new();
    while let CacheRequest::Perform(step) = caching.request() {
        steps.push(step);
        caching.reply(CacheReply::Done);
    }
    assert!(matches!(caching.request(), CacheRequest::Finished));
    assert_eq!(caching.finish(), Ok(()));
    steps
}

#[test]
fn layouts_are_stored_in_batches() {
    assert_eq!(DB_BATCH_SIZE, 1000);
    assert_eq!(
        course(vec![Payload::Layout(layouts(2500))]),
        vec![
            CacheStep::RemoveLayouts,
            CacheStep::AddLayouts(0, 1000),
            CacheStep::AddLayouts(1000, 2000),
            CacheStep::AddLayouts(2000, 2500),
            CacheStep::AddMeta,
            CacheStep::Report,
        ]
    );
}

#[test]
fn full_batches_leave_no_empty_one() {
    assert_eq!(
        course(vec![Payload::Layout(layouts(1000))]),
        vec![
            CacheStep::RemoveLayouts,
            CacheStep::AddLayouts(0, 1000),
            CacheStep::AddMeta,
            CacheStep::Report,
        ]
    );
    assert_eq!(
        course(vec![Payload::Layout(layouts(1001))])[1..3],
        [CacheStep::AddLayouts(0, 1000), CacheStep::AddLayouts(1000, 1001)]
    );
}

#[test]
fn an_empty_layout_has_no_batch() {
    assert_eq!(
        course(vec![Payload::Layout(vec![])]),
        vec![CacheStep::RemoveLayouts, CacheStep::AddMeta, CacheStep::Report]
    );
}

#[test]
fn the_first_layout_counts() {
    let payloads = vec![
        Payload::Other,
        Payload::Layout(layouts(3)),
        Payload::Other,
        Payload::Layout(layouts(5)),
    ];
    let mut caching = unpacked(payloads);
    assert_eq!(step(&caching), CacheStep::RemoveLayouts);
    caching.reply(CacheReply::Done);
    assert_eq!(step(&caching), CacheStep::AddLayouts(0, 3));
}

#[test]
fn entries_belong_to_the_package() {
    let caching = unpacked(vec![Payload::Layout(layouts(4))]);
    assert_eq!(caching.layout_len(), 4);
    let entries = caching.entries(1, 3);
    let all = layouts(4);
    let id = package().id;
    assert_eq!(entries, vec![(id.clone(), all[1].clone()), (id, all[2].clone())]);
    assert_eq!(caching.entries(4, 4), vec![]);
    assert_eq!(caching.package(), &package());
}

#[test]
fn a_package_without_a_layout_is_corrupted() {
    let mut caching = unpacked(vec![Payload::Other]);
    assert_eq!(step(&caching), CacheStep::RemoveLayouts);
    caching.reply(CacheReply::Done);
    assert!(matches!(caching.request(), CacheRequest::Failed(Error::CorruptedPackage)));
    assert_eq!(caching.finish(), Err(Error::CorruptedPackage));
}

#[test]
fn failures_by_step() {
    let cause = || "cause".to_string();
    let mut fetch = Caching::new(package());
    fetch.reply(CacheReply::Failed(cause()));
    assert_eq!(fetch.finish(), Err(Error::Cache(cause())));

    let mut unpack = Caching::new(package());
    unpack.reply(CacheReply::Fetched(false));
    unpack.reply(CacheReply::Failed(cause()));
    assert_eq!(unpack.finish(), Err(Error::Cache(cause())));

    let mut check = Caching::new(package());
    check.reply(CacheReply::Fetched(true));
    check.reply(CacheReply::Failed(cause()));
    assert_eq!(check.finish(), Err(Error::Meta(cause())));

    let errors = [
        Error::Meta(cause()),
        Error::Meta(cause()),
        Error::Meta(cause()),
        Error::Io(cause()),
    ];
    for (done, error) in errors.into_iter().enumerate() {
        let mut caching = unpacked(vec![Payload::Layout(layouts(1))]);
        for _ in 0..done {
            caching.reply(CacheReply::Done);
        }
        caching.reply(CacheReply::Failed(cause()));
        caching.reply(CacheReply::Done);
        assert!(matches!(caching.request(), CacheRequest::Failed(_)));
        assert_eq!(caching.finish(), Err(error));
    }
}

#[test]
fn other_answers_change_nothing() {
    let mut caching = Caching::new(package());
    caching.reply(CacheReply::Done);
    caching.reply(CacheReply::Unpacked(vec![]));
    assert_eq!(step(&caching), CacheStep::Fetch);
    caching.reply(CacheReply::Fetched(false));
    caching.reply(CacheReply::Fetched(true));
    caching.reply(CacheReply::Done);
    assert_eq!(step(&caching), CacheStep::Unpack);
}

#[test]
fn cached_packages_are_reported_as_such() {
    let mut caching = Caching::new(package());
    assert_eq!(caching.report("Installed", "nano", " (cached)"), "Installed nano");
    caching.reply(CacheReply::Fetched(true));
    assert_eq!(caching.report("Installed", "nano", " (cached)"), "Installed nano (cached)");
    assert_eq!(caching.package().meta.record, "uri=nano.stone");
}

#[test]
fn cached_packages_that_are_stored_are_skipped() {
    let mut caching = Caching::new(package());
    caching.reply(CacheReply::Fetched(true));
    assert_eq!(step(&caching), CacheStep::CheckStored);
    caching.reply(CacheReply::Stored(true));
    assert_eq!(step(&caching), CacheStep::Report);
    caching.reply(CacheReply::Done);
    assert!(matches!(caching.request(), CacheRequest::Finished));
    assert_eq!(caching.finish(), Ok(()));
}

#[test]
fn cached_packages_that_are_not_stored_are_stored() {
    let mut caching = Caching::new(package());
    caching.reply(CacheReply::Fetched(true));
    caching.reply(CacheReply::Stored(false));
    assert_eq!(step(&caching), CacheStep::Unpack);
    caching.reply(CacheReply::Unpacked(vec![Payload::Layout(layouts(2))]));
    let mut steps = Vec::new();
    while let CacheRequest::Perform(step) = caching.request() {
        steps.push(step);
        caching.reply(CacheReply::Done);
    }
    assert_eq!(
        steps,
        vec![
            CacheStep::RemoveLayouts,
            CacheStep::AddLayouts(0, 2),
            CacheStep::AddMeta,
            CacheStep::Report,
        ]
    );
}

#[test]
fn what_is_stored_belongs_to_the_package_alone() {
    let mut caching = unpacked(vec![Payload::Layout(layouts(2100))]);
    let own = package().id;
    let other = package::Id("zlib-1".to_string());
    let mut database = vec![(other.clone(), layouts(1)[0].clone()), (own.clone(), layouts(9)[8].clone())];
    while let CacheRequest::Perform(step) = caching.request() {
        match step {
            CacheStep::RemoveLayouts => database.retain(|entry| entry.0 != caching.package().id),
            CacheStep::AddLayouts(from, to) => database.extend(caching.entries(from, to)),
            _ => {}
        }
        caching.reply(CacheReply::Done);
    }
    let kept: Vec<Layout> =
        database.iter().filter(|entry| entry.0 == other).map(|entry| entry.1.clone()).collect();
    assert_eq!(kept, layouts(1));
    let stored: Vec<Layout> =
        database.iter().filter(|entry| entry.0 == own).map(|entry| entry.1.clone()).collect();
    assert_eq!(stored, layouts(2100));
}

#[test]
fn the_first_failure_counts() {
    let failed = |cause: &str| Err(Error::Cache(cause.to_string()));
    assert_eq!(conclude(vec![]), Ok(()));
    assert_eq!(conclude(vec![Ok(()), Ok(())]), Ok(()));
    assert_eq!(conclude(vec![Ok(()), failed("a"), Ok(()), failed("b")]), failed("a"));
}

#[test]
fn batches_cover_the_layout_without_a_gap() {
    for len in [1usize, 999, 1000, 1001, 4000, 4321] {
        let mut next = 0;
        let mut meta = false;
        for step in course(vec![Payload::Layout(layouts(len))]) {
            match step {
                CacheStep::AddLayouts(from, to) => {
                    assert!(!meta);
                    assert_eq!(from, next);
                    assert!(from < to && to - from <= 1000);
                    next = to;
                }
                CacheStep::AddMeta => meta = true,
                _ => {}
            }
        }
        assert_eq!(next, len);
        assert!(meta);
    }
}

#[test]
fn packages_cached_at_the_same_time_are_stored() {
    let mut other = package();
    other.id = package::Id("zlib-1".to_string());
    let mut both = vec![(Caching::new(package()), 2500usize), (Caching::new(other), 1200)];
    let mut database: Vec<(package::Id, Layout)> = Vec::new();
    let mut metas: Vec<package::Id> = Vec::new();
    loop {
        let mut busy = false;
        for (caching, len) in both.iter_mut() {
            let CacheRequest::Perform(step) = caching.request() else {
                continue;
            };
            busy = true;
            let reply = match step {
                CacheStep::Fetch => CacheReply::Fetched(false),
                CacheStep::Unpack => {
                    CacheReply::Unpacked(vec![Payload::Layout(layouts(*len))])
                }
                CacheStep::RemoveLayouts => {
                    database.retain(|entry| entry.0 != caching.package().id);
                    CacheReply::Done
                }
                CacheStep::AddLayouts(from, to) => {
                    database.extend(caching.entries(from, to));
                    CacheReply::Done
                }
                CacheStep::AddMeta => {
                    metas.push(caching.package().id.clone());
                    CacheReply::Done
                }
                _ => CacheReply::Done,
            };
            caching.reply(reply);
        }
        if !busy {
            break;
        }
    }
    for (caching, len) in &both {
        let id = &caching.package().id;
        let stored: Vec<Layout> =
            database.iter().filter(|entry| entry.0 == *id).map(|entry| entry.1.clone()).collect();
        assert_eq!(stored, layouts(*len));
        assert!(metas.contains(id));
    }
}
