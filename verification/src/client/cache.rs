//! Caching a package: downloading and unpacking it, and storing what it holds.

use super::error::Error;
use crate::layout::Layout;
use crate::package::{self, Package};
use vstd::prelude::*;
use vstd::string::*;

verus! {

/// How many layout entries go to the database at once.
pub const DB_BATCH_SIZE: usize = 1000;

/// A part of an unpacked package.
#[derive(Debug, PartialEq, Eq)]
pub enum Payload {
    /// What the package puts on the filesystem.
    Layout(Vec<Layout>),
    /// Any other part.
    Other,
}

/// A step of caching a package.
#[derive(Clone, Copy, Debug, PartialEq, Eq, Structural)]
pub enum CacheStep {
    /// Validate the package if it is there already, or else download it.
    Fetch,
    /// Tell whether the databases hold what a package that was there already holds, with a
    /// [`CacheReply::Stored`].
    CheckStored,
    /// Unpack the download.
    Unpack,
    /// Remove the layout entries that the database holds for the package.
    RemoveLayouts,
    /// Stop: the package has no layout.
    Corrupted,
    /// Add the layout entries from the first index up to the second to the database.
    AddLayouts(usize, usize),
    /// Add what is known of the package to the database of installed packages.
    AddMeta,
    /// Tell that the package is installed.
    Report,
}

/// What came of a step.
#[derive(Debug, PartialEq, Eq)]
pub enum CacheReply {
    /// It is done.
    Done,
    /// The package is there; with the flag, it was there already.
    Fetched(bool),
    /// Whether the databases hold the layout and what is known of the package.
    Stored(bool),
    /// The parts of the package.
    Unpacked(Vec<Payload>),
    /// It failed, for the reason given.
    Failed(String),
}

/// What is to be done next.
#[derive(Debug)]
pub enum CacheRequest<'a> {
    /// Do this.
    Perform(CacheStep),
    /// Nothing: the package is cached.
    Finished,
    /// Nothing: the package could not be cached.
    Failed(&'a Error),
}

/// The layout of an unpacked package: its first part that is one.
pub open spec fn first_layout(payloads: Seq<Payload>) -> Option<Seq<Layout>>
    decreases payloads.len(),
{
    if payloads.len() == 0 {
        None
    } else {
        match payloads[0] {
            Payload::Layout(body) => Some(body@),
            Payload::Other => first_layout(payloads.drop_first()),
        }
    }
}

/// How many batches `len` layout entries make.
pub open spec fn batch_count(len: nat) -> nat {
    (len + DB_BATCH_SIZE as nat - 1) as nat / DB_BATCH_SIZE as nat
}

/// Where batch `k` starts.
pub open spec fn batch_start(k: int) -> int {
    k * DB_BATCH_SIZE
}

/// Where batch `k` of `len` layout entries ends.
pub open spec fn batch_end(len: nat, k: int) -> int {
    if (k + 1) * DB_BATCH_SIZE <= len {
        (k + 1) * DB_BATCH_SIZE
    } else {
        len as int
    }
}

/// Adds `len` layout entries batch by batch.
pub open spec fn batches(len: nat) -> Seq<CacheStep> {
    Seq::new(
        batch_count(len),
        |k: int| CacheStep::AddLayouts(batch_start(k) as usize, batch_end(len, k) as usize),
    )
}

/// Stores an unpacked package: what the database held for it goes first. A package without a
/// layout is corrupted.
pub open spec fn store_script(layout: Option<Seq<Layout>>) -> Seq<CacheStep> {
    seq![CacheStep::RemoveLayouts] + match layout {
        None => seq![CacheStep::Corrupted],
        Some(body) => batches(body.len()) + seq![CacheStep::AddMeta, CacheStep::Report],
    }
}

/// How far a package has been cached.
pub struct CacheProgress {
    /// The steps that are left.
    pub pending: Seq<CacheStep>,
    /// Whether the package was there already.
    pub cached: bool,
    /// The layout of the package, once it is unpacked.
    pub body: Seq<Layout>,
    /// Why the package could not be cached, if it could not.
    pub failure: Option<Error>,
}

/// The error that a failed step leads to.
pub open spec fn cache_failure(step: CacheStep, cause: String) -> Error {
    match step {
        CacheStep::Fetch | CacheStep::Unpack => Error::Cache(cause),
        CacheStep::CheckStored
        | CacheStep::RemoveLayouts
        | CacheStep::AddLayouts(_, _)
        | CacheStep::AddMeta => Error::Meta(cause),
        CacheStep::Report => Error::Io(cause),
        CacheStep::Corrupted => Error::CorruptedPackage,
    }
}

impl CacheProgress {
    /// A package before anything was done.
    pub open spec fn start() -> CacheProgress {
        CacheProgress {
            pending: seq![CacheStep::Fetch],
            cached: false,
            body: seq![],
            failure: None,
        }
    }

    /// Whether nothing is left to do, because the package is cached or could not be.
    pub open spec fn is_done(self) -> bool {
        self.failure is Some || self.pending.len() == 0
    }

    /// Whether every batch that is left lies within the layout.
    pub open spec fn in_range(self) -> bool {
        forall|i: int|
            0 <= i < self.pending.len() ==> (#[trigger] self.pending[i] matches
                CacheStep::AddLayouts(from, to) ==> from <= to <= self.body.len())
    }

    /// With the failure, and nothing left to do.
    pub open spec fn failed(self, error: Error) -> CacheProgress {
        CacheProgress { pending: seq![], failure: Some(error), ..self }
    }

    /// Past the step at the head. A package that turns out to be corrupted fails on the spot.
    pub open spec fn advanced(self) -> CacheProgress {
        let next = CacheProgress { pending: self.pending.skip(1), ..self };
        if next.pending.len() > 0 && next.pending[0] is Corrupted {
            next.failed(Error::CorruptedPackage)
        } else {
            next
        }
    }

    /// After the step at the head was answered with `reply`. A package that was there already
    /// is skipped if the databases hold it. A reply that does not answer the step changes
    /// nothing.
    pub open spec fn next(self, reply: CacheReply) -> CacheProgress {
        if self.failure is Some || self.pending.len() == 0 {
            self
        } else {
            match (self.pending[0], reply) {
                (step, CacheReply::Failed(cause)) => self.failed(cache_failure(step, cause)),
                (CacheStep::Fetch, CacheReply::Fetched(cached)) => CacheProgress {
                    pending: if cached {
                        seq![CacheStep::CheckStored]
                    } else {
                        seq![CacheStep::Unpack]
                    },
                    cached,
                    ..self
                },
                (CacheStep::CheckStored, CacheReply::Stored(stored)) => CacheProgress {
                    pending: if stored {
                        seq![CacheStep::Report]
                    } else {
                        seq![CacheStep::Unpack]
                    },
                    ..self
                },
                (CacheStep::Unpack, CacheReply::Unpacked(payloads)) => CacheProgress {
                    pending: store_script(first_layout(payloads@)),
                    body: match first_layout(payloads@) {
                        Some(body) => body,
                        None => seq![],
                    },
                    ..self
                },
                (CacheStep::Fetch | CacheStep::CheckStored | CacheStep::Unpack, _) => self,
                (_, CacheReply::Done) => self.advanced(),
                _ => self,
            }
        }
    }
}

/// The layout entries from `from` up to `to`, each with the package it belongs to.
pub open spec fn layout_entries(id: package::Id, body: Seq<Layout>, from: int, to: int) -> Seq<
    (package::Id, Layout),
> {
    body.subrange(from, to).map_values(|layout: Layout| (id, layout))
}

/// A package that is being cached.
#[derive(Debug)]
pub struct Caching {
    package: Package,
    /// The steps that are left, the next one last.
    rest: Vec<CacheStep>,
    cached: bool,
    body: Vec<Layout>,
    failure: Option<Error>,
}

impl View for Caching {
    type V = CacheProgress;

    closed spec fn view(&self) -> CacheProgress {
        CacheProgress {
            pending: self.rest@.reverse(),
            cached: self.cached,
            body: self.body@,
            failure: self.failure,
        }
    }
}

impl Caching {
    /// The package that is being cached.
    pub closed spec fn spec_package(self) -> Package {
        self.package
    }

    /// A package before anything was done.
    pub fn new(package: Package) -> (caching: Caching)
        ensures
            caching@ == CacheProgress::start(),
            caching.spec_package() == package,
    {
        let mut rest: Vec<CacheStep> = Vec::new();
        rest.push(CacheStep::Fetch);
        let caching = Caching { package, rest, cached: false, body: Vec::new(), failure: None };
        assert(caching@.pending =~= CacheProgress::start().pending);
        assert(caching@.body =~= seq![]);
        caching
    }

    /// The package that is being cached.
    pub fn package(&self) -> (package: &Package)
        ensures
            *package == self.spec_package(),
    {
        &self.package
    }

    /// How many layout entries the package has, once it is unpacked.
    pub fn layout_len(&self) -> (len: usize)
        ensures
            len == self@.body.len(),
    {
        self.body.len()
    }

    /// What is to be done next.
    pub fn request(&self) -> (request: CacheRequest<'_>)
        ensures
            request == (match self@.failure {
                Some(error) => CacheRequest::Failed(&error),
                None => if self@.pending.len() == 0 {
                    CacheRequest::Finished
                } else {
                    CacheRequest::Perform(self@.pending[0])
                },
            }),
    {
        if let Some(error) = &self.failure {
            return CacheRequest::Failed(error);
        }
        if self.rest.len() == 0 {
            return CacheRequest::Finished;
        }
        CacheRequest::Perform(self.rest[self.rest.len() - 1])
    }

    /// The layout entries from `from` up to `to`, each with the package it belongs to.
    pub fn entries(&self, from: usize, to: usize) -> (entries: Vec<(package::Id, Layout)>)
        requires
            from <= to <= self@.body.len(),
        ensures
            entries@ == layout_entries(
                self.spec_package().id,
                self@.body,
                from as int,
                to as int,
            ),
    {
        let mut entries: Vec<(package::Id, Layout)> = Vec::new();
        let ghost whole = layout_entries(self.package.id, self.body@, from as int, to as int);
        let mut i: usize = from;
        while i < to
            invariant
                from <= i <= to <= self.body@.len(),
                whole == layout_entries(self.package.id, self.body@, from as int, to as int),
                entries@ == whole.take(i - from),
            decreases to - i,
        {
            entries.push((self.package.id.clone(), self.body[i].clone()));
            i = i + 1;
            assert(entries@ =~= whole.take(i - from));
        }
        assert(entries@ =~= whole);
        entries
    }

    fn fail(&mut self, error: Error)
        ensures
            final(self)@ == old(self)@.failed(error),
            final(self).spec_package() == old(self).spec_package(),
    {
        self.rest = Vec::new();
        self.failure = Some(error);
        assert(self.rest@.reverse() =~= seq![]);
    }

    fn go_to(&mut self, step: CacheStep)
        ensures
            final(self)@ == (CacheProgress { pending: seq![step], ..old(self)@ }),
            final(self).spec_package() == old(self).spec_package(),
    {
        let mut rest: Vec<CacheStep> = Vec::new();
        rest.push(step);
        self.rest = rest;
        assert(self@.pending =~= seq![step]);
    }

    fn advance(&mut self)
        requires
            old(self)@.pending.len() > 0,
        ensures
            final(self)@ == old(self)@.advanced(),
            final(self).spec_package() == old(self).spec_package(),
    {
        let ghost before = self@;
        let _ = self.rest.pop();
        assert(self@.pending =~= before.pending.skip(1));
        if self.rest.len() > 0 {
            if let CacheStep::Corrupted = self.rest[self.rest.len() - 1] {
                self.fail(Error::CorruptedPackage);
            }
        }
    }

    /// Tells how the step went. A reply that does not answer the step changes nothing.
    pub fn reply(&mut self, reply: CacheReply)
        ensures
            final(self)@ == old(self)@.next(reply),
            final(self).spec_package() == old(self).spec_package(),
    {
        if self.failure.is_some() || self.rest.len() == 0 {
            return;
        }
        let step = self.rest[self.rest.len() - 1];
        assert(step == self@.pending[0]);
        match (step, reply) {
            (_, CacheReply::Failed(cause)) => {
                self.fail(cache_error(step, cause));
            },
            (CacheStep::Fetch, CacheReply::Fetched(cached)) => {
                self.cached = cached;
                self.go_to(
                    if cached {
                        CacheStep::CheckStored
                    } else {
                        CacheStep::Unpack
                    },
                );
            },
            (CacheStep::CheckStored, CacheReply::Stored(stored)) => {
                self.go_to(
                    if stored {
                        CacheStep::Report
                    } else {
                        CacheStep::Unpack
                    },
                );
            },
            (CacheStep::Unpack, CacheReply::Unpacked(payloads)) => {
                match find_layout(payloads) {
                    Some(body) => {
                        self.rest = plan_store(body.len());
                        self.body = body;
                    },
                    None => {
                        let mut rest: Vec<CacheStep> = Vec::new();
                        rest.push(CacheStep::Corrupted);
                        rest.push(CacheStep::RemoveLayouts);
                        self.rest = rest;
                        self.body = Vec::new();
                        assert(self@.pending =~= store_script(None));
                        assert(self@.body =~= seq![]);
                    },
                }
            },
            (CacheStep::Fetch | CacheStep::CheckStored | CacheStep::Unpack, _) => {},
            (_, CacheReply::Done) => {
                self.advance();
            },
            _ => {},
        }
    }

    /// The line that tells that the package is installed: the word for that, the name, and, if
    /// the package was there already, the tag, each as it is to be shown.
    pub fn report(&self, installed: &str, name: &str, cached: &str) -> (line: String)
        ensures
            line@ == installed@ + " "@ + name@ + (if self@.cached {
                cached@
            } else {
                ""@
            }),
    {
        let mut line = installed.to_string();
        line.append(" ");
        line.append(name);
        if self.cached {
            line.append(cached);
        } else {
            line.append("");
        }
        line
    }

    /// What caching led to, once it is done: the error it failed with, if it did.
    pub fn finish(self) -> (outcome: Result<(), Error>)
        requires
            self@.is_done(),
        ensures
            outcome == (match self@.failure {
                Some(error) => Err(error),
                None => Ok(()),
            }),
    {
        match self.failure {
            Some(error) => Err(error),
            None => Ok(()),
        }
    }
}

fn cache_error(step: CacheStep, cause: String) -> (error: Error)
    ensures
        error == cache_failure(step, cause),
{
    match step {
        CacheStep::Fetch | CacheStep::Unpack => Error::Cache(cause),
        CacheStep::CheckStored
        | CacheStep::RemoveLayouts
        | CacheStep::AddLayouts(_, _)
        | CacheStep::AddMeta => Error::Meta(cause),
        CacheStep::Report => Error::Io(cause),
        CacheStep::Corrupted => Error::CorruptedPackage,
    }
}

/// The first part of an unpacked package that is a layout.
fn find_layout(payloads: Vec<Payload>) -> (layout: Option<Vec<Layout>>)
    ensures
        match layout {
            Some(body) => first_layout(payloads@) == Some(body@),
            None => first_layout(payloads@) is None,
        },
{
    let mut left = payloads;
    let mut found: Option<Vec<Layout>> = None;
    let ghost whole = left@;
    while left.len() > 0
        invariant
            left@.len() <= whole.len(),
            left@ == whole.take(left@.len() as int),
            match found {
                Some(body) => first_layout(whole.skip(left@.len() as int)) == Some(body@),
                None => first_layout(whole.skip(left@.len() as int)) is None,
            },
        decreases left@.len(),
    {
        let ghost k = left@.len() as int;
        if let Some(payload) = left.pop() {
            assert(whole.skip(k - 1)[0] == payload);
            assert(whole.skip(k - 1).drop_first() =~= whole.skip(k));
            if let Payload::Layout(body) = payload {
                found = Some(body);
            }
        }
    }
    assert(whole.skip(0) =~= whole);
    found
}

/// The steps that store a package with `len` layout entries, the first one last.
fn plan_store(len: usize) -> (rest: Vec<CacheStep>)
    ensures
        forall|body: Seq<Layout>|
            body.len() == len ==> rest@.reverse() == #[trigger] store_script(Some(body)),
{
    let mut rest: Vec<CacheStep> = Vec::new();
    rest.push(CacheStep::Report);
    rest.push(CacheStep::AddMeta);
    let count = if len % DB_BATCH_SIZE == 0 {
        len / DB_BATCH_SIZE
    } else {
        len / DB_BATCH_SIZE + 1
    };
    assert(count == batch_count(len as nat));
    let mut k: usize = count;
    while k > 0
        invariant
            k <= count,
            count == batch_count(len as nat),
            rest@.len() == 2 + count - k,
            rest@[0] is Report,
            rest@[1] is AddMeta,
            forall|i: int|
                2 <= i < rest@.len() ==> #[trigger] rest@[i] == batches(len as nat)[count + 1 - i],
        decreases k,
    {
        k = k - 1;
        let from = k * DB_BATCH_SIZE;
        let to = if len - from >= DB_BATCH_SIZE {
            from + DB_BATCH_SIZE
        } else {
            len
        };
        rest.push(CacheStep::AddLayouts(from, to));
    }
    rest.push(CacheStep::RemoveLayouts);
    proof {
        assert forall|body: Seq<Layout>| body.len() == len implies rest@.reverse()
            == #[trigger] store_script(Some(body)) by {
            assert(rest@.reverse() =~= store_script(Some(body)));
        }
    }
    rest
}

/// The outcome of caching several packages, from the outcomes in the order in which they came:
/// the first error, if there is one.
pub open spec fn first_failure(outcomes: Seq<Result<(), Error>>) -> Result<(), Error> {
    match crate::list::first_where(outcomes, |outcome: Result<(), Error>| outcome is Err) {
        Some(outcome) => outcome,
        None => Ok(()),
    }
}

/// The outcome of caching several packages: the first error, if there is one.
pub fn conclude(outcomes: Vec<Result<(), Error>>) -> (outcome: Result<(), Error>)
    ensures
        outcome == first_failure(outcomes@),
{
    let mut left = outcomes;
    let mut found: Result<(), Error> = Ok(());
    let ghost whole = left@;
    let ghost failed = |outcome: Result<(), Error>| outcome is Err;
    while left.len() > 0
        invariant
            failed == (|outcome: Result<(), Error>| outcome is Err),
            left@.len() <= whole.len(),
            left@ == whole.take(left@.len() as int),
            found == first_failure(whole.skip(left@.len() as int)),
        decreases left@.len(),
    {
        let ghost k = left@.len() as int;
        if let Some(outcome) = left.pop() {
            assert(whole.skip(k - 1)[0] == outcome);
            assert(whole.skip(k - 1).drop_first() =~= whole.skip(k));
            if outcome.is_err() {
                found = outcome;
            }
        }
    }
    assert(whole.skip(0) =~= whole);
    found
}

/// The batches take the layout apart without a gap: the first starts at the beginning, each
/// starts where the one before it ended, the last ends at the end, and each holds at least one
/// entry and at most [`DB_BATCH_SIZE`].
pub proof fn batches_partition_the_layout(len: nat, k: int)
    requires
        0 <= k < batch_count(len),
    ensures
        batch_start(0) == 0,
        k > 0 ==> batch_start(k) == batch_end(len, k - 1),
        k == batch_count(len) - 1 ==> batch_end(len, k) == len,
        0 < batch_end(len, k) - batch_start(k) <= DB_BATCH_SIZE,
{
}

/// However caching goes, the batches that are left lie within the layout.
pub proof fn batches_stay_in_range(progress: CacheProgress, reply: CacheReply)
    requires
        progress.in_range(),
    ensures
        CacheProgress::start().in_range(),
        progress.next(reply).in_range(),
{
    if progress.failure is None && progress.pending.len() > 0 && progress.pending[0] is Unpack {
        if let CacheReply::Unpacked(payloads) = reply {
            lemma_layout_fits(payloads@);
            let next = progress.next(reply);
            assert forall|i: int| 0 <= i < next.pending.len() implies (
            #[trigger] next.pending[i] matches CacheStep::AddLayouts(from, to) ==> from <= to
                <= next.body.len()) by {
                if next.pending[i] is AddLayouts {
                    assert(next.pending[i] == batches(next.body.len())[i - 1]);
                }
            }
        }
    }
}

/// A layout has no more entries than a machine can count.
proof fn lemma_layout_fits(payloads: Seq<Payload>)
    ensures
        first_layout(payloads) matches Some(body) ==> body.len() <= usize::MAX,
    decreases payloads.len(),
{
    if payloads.len() > 0 {
        match payloads[0] {
            Payload::Layout(body) => {
                assert(body.len() == body@.len());
            },
            Payload::Other => {
                lemma_layout_fits(payloads.drop_first());
            },
        }
    }
}

/// What is known of a package is added only after all of its layout is.
pub proof fn meta_comes_after_the_layout(layout: Option<Seq<Layout>>, i: int, j: int)
    requires
        0 <= i < j < store_script(layout).len(),
        store_script(layout)[i] is AddMeta,
    ensures
        !(store_script(layout)[j] is AddLayouts),
        layout is Some,
{
}

// ---------------------------------------------------------------------------
// What caching does to the databases
// ---------------------------------------------------------------------------

/// What the databases hold, by the ids of packages.
#[verifier::ext_equal]
pub struct Stores {
    /// The layout entries.
    pub layouts: Map<Seq<char>, Seq<Layout>>,
    /// What is known of installed packages.
    pub metas: Map<Seq<char>, package::Meta>,
}

impl Stores {
    /// The layout entries of a package.
    pub open spec fn layout(self, id: Seq<char>) -> Seq<Layout> {
        if self.layouts.contains_key(id) {
            self.layouts[id]
        } else {
            seq![]
        }
    }

    /// With layout entries added, each to the package it belongs to.
    pub open spec fn filed(self, entries: Seq<(package::Id, Layout)>) -> Stores
        decreases entries.len(),
    {
        if entries.len() == 0 {
            self
        } else {
            let before = self.filed(entries.drop_last());
            let (id, layout) = entries.last();
            Stores {
                layouts: before.layouts.insert(id@, before.layout(id@).push(layout)),
                ..before
            }
        }
    }

    /// After the step that caching `package` asks for was answered with `reply`.
    pub open spec fn touched(
        self,
        package: Package,
        progress: CacheProgress,
        reply: CacheReply,
    ) -> Stores {
        if progress.is_done() || !(reply is Done) {
            self
        } else {
            match progress.pending[0] {
                CacheStep::RemoveLayouts => Stores {
                    layouts: self.layouts.remove(package.id@),
                    ..self
                },
                CacheStep::AddLayouts(from, to) => self.filed(
                    layout_entries(package.id, progress.body, from as int, to as int),
                ),
                CacheStep::AddMeta => Stores {
                    metas: self.metas.insert(package.id@, package.meta),
                    ..self
                },
                _ => self,
            }
        }
    }
}

/// How far packages that are cached at the same time are, and what the databases hold, after
/// `replies`, each given to the package with the index.
pub open spec fn caching_course(
    packages: Seq<Package>,
    replies: Seq<(int, CacheReply)>,
    stores: Stores,
) -> (Seq<CacheProgress>, Stores)
    decreases replies.len(),
{
    if replies.len() == 0 {
        (Seq::new(packages.len(), |i: int| CacheProgress::start()), stores)
    } else {
        let (progress, stores) = caching_course(packages, replies.drop_last(), stores);
        let (i, reply) = replies.last();
        if 0 <= i < packages.len() {
            (
                progress.update(i, progress[i].next(reply)),
                stores.touched(packages[i], progress[i], reply),
            )
        } else {
            (progress, stores)
        }
    }
}

proof fn lemma_filed(
    stores: Stores,
    id: package::Id,
    body: Seq<Layout>,
    from: int,
    to: int,
    other: Seq<char>,
)
    requires
        0 <= from <= to <= body.len(),
    ensures
        ({
            let after = stores.filed(layout_entries(id, body, from, to));
            &&& after.metas == stores.metas
            &&& after.layout(id@) == stores.layout(id@) + body.subrange(from, to)
            &&& other != id@ ==> after.layouts.contains_key(other)
                == stores.layouts.contains_key(other) && after.layouts[other]
                == stores.layouts[other]
        }),
    decreases to - from,
{
    let entries = layout_entries(id, body, from, to);
    if from < to {
        lemma_filed(stores, id, body, from, to - 1, other);
        assert(entries.drop_last() =~= layout_entries(id, body, from, to - 1));
        assert(body.subrange(from, to) =~= body.subrange(from, to - 1).push(body[to - 1]));
        assert(stores.filed(entries).layout(id@) =~= stores.layout(id@) + body.subrange(
            from,
            to,
        ));
    } else {
        assert(entries =~= seq![]);
        assert(stores.layout(id@) + body.subrange(from, to) =~= stores.layout(id@));
    }
}

proof fn lemma_in_range(
    packages: Seq<Package>,
    replies: Seq<(int, CacheReply)>,
    stores: Stores,
    i: int,
)
    requires
        0 <= i < packages.len(),
    ensures
        caching_course(packages, replies, stores).0.len() == packages.len(),
        caching_course(packages, replies, stores).0[i].in_range(),
    decreases replies.len(),
{
    if replies.len() > 0 {
        lemma_in_range(packages, replies.drop_last(), stores, i);
        let before = caching_course(packages, replies.drop_last(), stores).0[i];
        batches_stay_in_range(before, replies.last().1);
    }
}

/// However caching packages goes, in whatever order their steps are done, what the databases
/// hold of any other package stays as it is. Without packages nothing changes.
pub proof fn caching_touches_no_other_package(
    packages: Seq<Package>,
    replies: Seq<(int, CacheReply)>,
    stores: Stores,
    other: Seq<char>,
)
    requires
        forall|i: int| 0 <= i < packages.len() ==> (#[trigger] packages[i]).id@ != other,
    ensures
        ({
            let after = caching_course(packages, replies, stores).1;
            &&& after.layouts.contains_key(other) == stores.layouts.contains_key(other)
            &&& after.layouts[other] == stores.layouts[other]
            &&& after.metas.contains_key(other) == stores.metas.contains_key(other)
            &&& after.metas[other] == stores.metas[other]
            &&& packages.len() == 0 ==> after == stores
        }),
    decreases replies.len(),
{
    if replies.len() > 0 {
        let earlier = replies.drop_last();
        caching_touches_no_other_package(packages, earlier, stores, other);
        let (progress, then) = caching_course(packages, earlier, stores);
        let (i, reply) = replies.last();
        if 0 <= i < packages.len() {
            lemma_in_range(packages, earlier, stores, i);
            assert(packages[i].id@ != other);
            if !progress[i].is_done() {
                if let CacheStep::AddLayouts(from, to) = progress[i].pending[0] {
                    lemma_filed(
                        then,
                        packages[i].id,
                        progress[i].body,
                        from as int,
                        to as int,
                        other,
                    );
                }
            }
        }
    }
}

/// How far one package is, and what the databases hold, after `replies`.
pub open spec fn storing_course(
    package: Package,
    replies: Seq<CacheReply>,
    stores: Stores,
) -> (CacheProgress, Stores)
    decreases replies.len(),
{
    if replies.len() == 0 {
        (CacheProgress::start(), stores)
    } else {
        let (progress, stores) = storing_course(package, replies.drop_last(), stores);
        (progress.next(replies.last()), stores.touched(package, progress, replies.last()))
    }
}

/// How much of a layout is stored once `k` steps of the [`store_script`] are done.
spec fn stored_after(body: Seq<Layout>, k: int) -> Seq<Layout> {
    if k - 1 <= batch_count(body.len()) && (k - 1) * DB_BATCH_SIZE <= body.len() {
        body.take((k - 1) * DB_BATCH_SIZE)
    } else {
        body
    }
}

/// Where caching a package stands: nothing is stored yet, or the databases hold it already, or
/// the first `k` steps that store it are done.
spec fn storing(
    package: Package,
    progress: CacheProgress,
    now: Stores,
    stores: Stores,
    replies: Seq<CacheReply>,
    k: int,
) -> bool {
    let script = store_script(Some(progress.body));
    let count = batch_count(progress.body.len()) as int;
    ||| {
        &&& now == stores
        &&& progress.pending == seq![CacheStep::Fetch] || progress.pending == seq![
            CacheStep::CheckStored,
        ] || progress.pending == seq![CacheStep::Unpack]
    }
    ||| {
        &&& now == stores
        &&& replies.contains(CacheReply::Stored(true))
        &&& progress.pending == seq![CacheStep::Report] || progress.pending == Seq::<
            CacheStep,
        >::empty()
    }
    ||| now == stores && progress.pending == store_script(None)
    ||| {
        &&& 0 <= k <= script.len()
        &&& progress.pending == script.skip(k)
        &&& progress.body.len() <= usize::MAX
        &&& k > 0 ==> now.layout(package.id@) == stored_after(progress.body, k)
        &&& k > count + 1 ==> now.metas.contains_key(package.id@) && now.metas[package.id@]
            == package.meta
    }
}

proof fn lemma_storing(package: Package, replies: Seq<CacheReply>, stores: Stores) -> (k: int)
    ensures
        ({
            let (progress, now) = storing_course(package, replies, stores);
            progress.failure is None ==> storing(package, progress, now, stores, replies, k)
        }),
    decreases replies.len(),
{
    if replies.len() == 0 {
        0
    } else {
        let earlier = replies.drop_last();
        let reply = replies.last();
        let k = lemma_storing(package, earlier, stores);
        let (progress, now) = storing_course(package, earlier, stores);
        let (next, after) = storing_course(package, replies, stores);
        assert(replies[replies.len() - 1] == reply);
        if earlier.contains(CacheReply::Stored(true)) {
            let i = choose|i: int|
                0 <= i < earlier.len() && earlier[i] == CacheReply::Stored(true);
            assert(replies[i] == CacheReply::Stored(true));
        }
        if progress.failure is Some || next.failure is Some {
            0
        } else if progress.pending == seq![CacheStep::Unpack] && reply is Unpacked {
            lemma_layout_fits(reply->Unpacked_0@);
            match first_layout(reply->Unpacked_0@) {
                Some(body) => {
                    assert(next.pending =~= store_script(Some(body)).skip(0));
                },
                None => {},
            }
            0
        } else if progress.pending == seq![CacheStep::Report] && now == stores
            && replies.contains(CacheReply::Stored(true)) {
            assert(progress.pending.skip(1) =~= Seq::<CacheStep>::empty());
            0
        } else if next == progress && after == now {
            k
        } else if progress.pending == seq![CacheStep::Fetch] || progress.pending == seq![
            CacheStep::CheckStored,
        ] || progress.pending == seq![CacheStep::Unpack] {
            0
        } else if progress.pending == store_script(None) {
            assert(progress.pending.skip(1)[0] is Corrupted);
            0
        } else {
            let script = store_script(Some(progress.body));
            let count = batch_count(progress.body.len()) as int;
            assert(progress.pending[0] == script[k]);
            assert(script.skip(k).skip(1) =~= script.skip(k + 1));
            if 1 <= k <= count {
                let batch = k - 1;
                let from = batch_start(batch);
                let to = batch_end(progress.body.len(), batch);
                batches_partition_the_layout(progress.body.len(), batch);
                assert(script[k] == batches(progress.body.len())[batch]);
                lemma_filed(now, package.id, progress.body, from, to, seq![]);
                assert(progress.body.take(from) + progress.body.subrange(from, to)
                    =~= progress.body.take(to));
                assert(progress.body.take(progress.body.len() as int) =~= progress.body);
                assert(after.layout(package.id@) =~= stored_after(progress.body, k + 1));
            } else if k == 0 {
                assert(after.layout(package.id@) =~= stored_after(progress.body, 1));
            } else {
                assert(stored_after(progress.body, k + 1) =~= stored_after(progress.body, k)) by {
                    assert(progress.body.take(progress.body.len() as int) =~= progress.body);
                }
            }
            k + 1
        }
    }
}

/// A package that could be cached is in the databases: either they held it already, and nothing
/// was stored, or they hold exactly the layout that it was unpacked with and what is known of it.
pub proof fn cached_packages_are_stored(
    package: Package,
    replies: Seq<CacheReply>,
    stores: Stores,
)
    requires
        storing_course(package, replies, stores).0.failure is None,
        storing_course(package, replies, stores).0.is_done(),
    ensures
        ({
            let (progress, now) = storing_course(package, replies, stores);
            ||| replies.contains(CacheReply::Stored(true)) && now == stores
            ||| {
                &&& now.layout(package.id@) == progress.body
                &&& now.metas.contains_key(package.id@)
                &&& now.metas[package.id@] == package.meta
            }
        }),
{
    let k = lemma_storing(package, replies, stores);
    let (progress, now) = storing_course(package, replies, stores);
    assert(progress.body.take(progress.body.len() as int) =~= progress.body);
}

/// The replies that the package with the index was given.
pub open spec fn own_replies(replies: Seq<(int, CacheReply)>, i: int) -> Seq<CacheReply>
    decreases replies.len(),
{
    if replies.len() == 0 {
        seq![]
    } else if replies.last().0 == i {
        own_replies(replies.drop_last(), i).push(replies.last().1)
    } else {
        own_replies(replies.drop_last(), i)
    }
}

/// Whether two databases hold the same of a package.
pub open spec fn same_of(a: Stores, b: Stores, id: Seq<char>) -> bool {
    &&& a.layout(id) == b.layout(id)
    &&& a.metas.contains_key(id) == b.metas.contains_key(id)
    &&& a.metas[id] == b.metas[id]
}

/// A package that is cached along with others fares as if it were cached alone.
proof fn lemma_alone(
    packages: Seq<Package>,
    replies: Seq<(int, CacheReply)>,
    stores: Stores,
    i: int,
)
    requires
        0 <= i < packages.len(),
        forall|j: int|
            0 <= j < packages.len() && j != i ==> (#[trigger] packages[j]).id@ != packages[i].id@,
    ensures
        ({
            let (progress, now) = caching_course(packages, replies, stores);
            let (own, alone) = storing_course(packages[i], own_replies(replies, i), stores);
            &&& progress.len() == packages.len()
            &&& progress[i] == own
            &&& same_of(now, alone, packages[i].id@)
        }),
    decreases replies.len(),
{
    if replies.len() > 0 {
        let earlier = replies.drop_last();
        lemma_alone(packages, earlier, stores, i);
        let (progress, now) = caching_course(packages, earlier, stores);
        let (own, alone) = storing_course(packages[i], own_replies(earlier, i), stores);
        let (j, reply) = replies.last();
        let id = packages[i].id;
        if j == i {
            let mine = own_replies(replies, i);
            assert(mine.drop_last() =~= own_replies(earlier, i));
            assert(mine.last() == reply);
            lemma_in_range(packages, earlier, stores, i);
            if !own.is_done() {
                if let CacheStep::AddLayouts(from, to) = own.pending[0] {
                    lemma_filed(now, id, own.body, from as int, to as int, id@);
                    lemma_filed(alone, id, own.body, from as int, to as int, id@);
                }
            }
        } else if 0 <= j < packages.len() {
            lemma_in_range(packages, earlier, stores, j);
            assert(packages[j].id@ != id@);
            if !progress[j].is_done() {
                if let CacheStep::AddLayouts(from, to) = progress[j].pending[0] {
                    lemma_filed(
                        now,
                        packages[j].id,
                        progress[j].body,
                        from as int,
                        to as int,
                        id@,
                    );
                }
            }
        }
    }
}

/// However packages with different ids are cached at the same time, each one that could be
/// cached is in the databases: either they held it already, and hold the same of it, or they
/// hold exactly the layout that it was unpacked with and what is known of it.
pub proof fn packages_cached_together_are_stored(
    packages: Seq<Package>,
    replies: Seq<(int, CacheReply)>,
    stores: Stores,
    i: int,
)
    requires
        0 <= i < packages.len(),
        forall|j: int|
            0 <= j < packages.len() && j != i ==> (#[trigger] packages[j]).id@ != packages[i].id@,
        caching_course(packages, replies, stores).0[i].failure is None,
        caching_course(packages, replies, stores).0[i].is_done(),
    ensures
        ({
            let (progress, now) = caching_course(packages, replies, stores);
            let id = packages[i].id@;
            ||| own_replies(replies, i).contains(CacheReply::Stored(true)) && same_of(
                now,
                stores,
                id,
            )
            ||| {
                &&& now.layout(id) == progress[i].body
                &&& now.metas.contains_key(id)
                &&& now.metas[id] == packages[i].meta
            }
        }),
{
    lemma_alone(packages, replies, stores, i);
    cached_packages_are_stored(packages[i], own_replies(replies, i), stores);
}

// ---------------------------------------------------------------------------
// What caching takes up
// ---------------------------------------------------------------------------

proof fn lemma_first_layout(payloads: Seq<Payload>, k: int)
    requires
        0 <= k <= payloads.len(),
        forall|j: int| 0 <= j < k ==> #[trigger] payloads[j] is Other,
        k < payloads.len() ==> payloads[k] is Layout,
    ensures
        k < payloads.len() ==> first_layout(payloads) == Some(payloads[k]->Layout_0@),
        k == payloads.len() ==> first_layout(payloads) is None,
    decreases payloads.len(),
{
    if k > 0 {
        assert(payloads[0] is Other);
        let rest = payloads.drop_first();
        assert forall|j: int| 0 <= j < k - 1 implies #[trigger] rest[j] is Other by {
            assert(payloads[j + 1] is Other);
        }
        lemma_first_layout(rest, k - 1);
    }
}

/// An unpacked package is stored with the first of its parts that is a layout: with all entries
/// of that part as they are, in order. What the database held goes first; then come the batches
/// that add the entries, then what is known of the package, then the report.
pub proof fn first_layout_is_taken(progress: CacheProgress, payloads: Vec<Payload>, k: int)
    requires
        progress.failure is None,
        progress.pending.len() > 0,
        progress.pending[0] is Unpack,
        0 <= k < payloads@.len(),
        payloads@[k] is Layout,
        forall|j: int| 0 <= j < k ==> #[trigger] payloads@[j] is Other,
    ensures
        ({
            let next = progress.next(CacheReply::Unpacked(payloads));
            let body = payloads@[k]->Layout_0@;
            let count = next.pending.len() - 3;
            &&& next.body.len() == body.len()
            &&& forall|i: int| 0 <= i < body.len() ==> #[trigger] next.body[i] == body[i]
            &&& next.failure is None
            &&& next.cached == progress.cached
            &&& count >= 0
            &&& next.pending[0] is RemoveLayouts
            &&& next.pending[count + 1] is AddMeta
            &&& next.pending[count + 2] is Report
            &&& 1000 * (count - 1) < body.len() <= 1000 * count || count == 0 && body.len() == 0
            &&& forall|i: int|
                0 <= i < count ==> #[trigger] next.pending[i + 1] == CacheStep::AddLayouts(
                    (1000 * i) as usize,
                    if i + 1 < count {
                        (1000 * i + 1000) as usize
                    } else {
                        body.len() as usize
                    },
                )
        }),
{
    lemma_first_layout(payloads@, k);
    let next = progress.next(CacheReply::Unpacked(payloads));
    let body = payloads@[k]->Layout_0@;
    let count = next.pending.len() - 3;
    assert(count == batch_count(body.len()));
    assert forall|i: int| 0 <= i < count implies #[trigger] next.pending[i + 1]
        == CacheStep::AddLayouts(
        (1000 * i) as usize,
        if i + 1 < count {
            (1000 * i + 1000) as usize
        } else {
            body.len() as usize
        },
    ) by {
        assert(next.pending[i + 1] == batches(body.len())[i]);
    }
}

/// A package without a layout is corrupted: what the database held for it goes, and then caching
/// fails.
pub proof fn no_layout_is_a_failure(progress: CacheProgress, payloads: Vec<Payload>)
    requires
        progress.failure is None,
        progress.pending.len() > 0,
        progress.pending[0] is Unpack,
        forall|j: int| 0 <= j < payloads@.len() ==> #[trigger] payloads@[j] is Other,
    ensures
        ({
            let next = progress.next(CacheReply::Unpacked(payloads));
            &&& next.failure is None
            &&& next.pending.len() > 0
            &&& next.pending[0] is RemoveLayouts
            &&& next.next(CacheReply::Done).failure == Some(Error::CorruptedPackage)
        }),
{
    lemma_first_layout(payloads@, payloads@.len() as int);
    let next = progress.next(CacheReply::Unpacked(payloads));
    assert(next.pending.skip(1)[0] == next.pending[1]);
}

/// A package that is downloaded is unpacked. One that was there already is unpacked only if the
/// databases do not hold it, and is reported at once if they do; that it was there is kept for
/// the report.
pub proof fn only_what_is_stored_is_skipped(progress: CacheProgress, stored: bool)
    requires
        progress.failure is None,
        progress.pending == seq![CacheStep::Fetch],
    ensures
        ({
            let fresh = progress.next(CacheReply::Fetched(false));
            let there = progress.next(CacheReply::Fetched(true));
            let then = there.next(CacheReply::Stored(stored));
            &&& !fresh.cached && there.cached && then.cached
            &&& fresh.failure is None && there.failure is None && then.failure is None
            &&& fresh.pending == seq![CacheStep::Unpack]
            &&& there.pending == seq![CacheStep::CheckStored]
            &&& stored ==> then.pending == seq![CacheStep::Report]
            &&& !stored ==> then.pending == seq![CacheStep::Unpack]
        }),
{
}

/// A step that is done is done with: the next one follows, what was unpacked stays, and nothing
/// fails unless the package turns out to be corrupted.
pub proof fn steps_are_done_in_order(progress: CacheProgress)
    requires
        progress.failure is None,
        progress.pending.len() > 0,
        !(progress.pending[0] is Fetch || progress.pending[0] is CheckStored
            || progress.pending[0] is Unpack),
        progress.pending.len() > 1 ==> !(progress.pending[1] is Corrupted),
    ensures
        progress.next(CacheReply::Done).pending == progress.pending.drop_first(),
        progress.next(CacheReply::Done).body == progress.body,
        progress.next(CacheReply::Done).cached == progress.cached,
        progress.next(CacheReply::Done).failure is None,
{
    assert(progress.pending.skip(1) =~= progress.pending.drop_first());
}

/// A step that fails ends the caching, with the cause, as a failure of the download, of the
/// databases, or of the report.
pub proof fn failed_steps_tell_their_cause(progress: CacheProgress, cause: String)
    requires
        progress.failure is None,
        progress.pending.len() > 0,
    ensures
        ({
            let step = progress.pending[0];
            let next = progress.next(CacheReply::Failed(cause));
            &&& next.pending.len() == 0
            &&& next.failure == Some(Error::Cache(cause)) <==> step is Fetch || step is Unpack
            &&& next.failure == Some(Error::Meta(cause)) <==> step is CheckStored
                || step is RemoveLayouts || step is AddLayouts || step is AddMeta
            &&& next.failure == Some(Error::Io(cause)) <==> step is Report
            &&& next.failure == Some(Error::CorruptedPackage) <==> step is Corrupted
        }),
{
}

/// The entries that a batch adds are those of the layout, each as it is, from the first index up
/// to the second, and all belong to the package.
pub proof fn entries_are_those_of_the_layout(
    id: package::Id,
    body: Seq<Layout>,
    from: int,
    to: int,
    i: int,
)
    requires
        0 <= from <= to <= body.len(),
    ensures
        layout_entries(id, body, from, to).len() == to - from,
        from <= i < to ==> layout_entries(id, body, from, to)[i - from] == (id, body[i]),
{
}

/// Whether `body` is what the first part that is a layout holds, among the parts that `reply`
/// brings, where that part is the one with the index.
pub open spec fn is_unpacked(reply: CacheReply, k: int, body: Seq<Layout>) -> bool {
    &&& reply is Unpacked
    &&& 0 <= k < reply->Unpacked_0@.len()
    &&& reply->Unpacked_0@[k] is Layout
    &&& reply->Unpacked_0@[k]->Layout_0@ == body
    &&& forall|j: int| 0 <= j < k ==> #[trigger] reply->Unpacked_0@[j] is Other
}

proof fn lemma_layout_index(payloads: Seq<Payload>) -> (k: int)
    requires
        first_layout(payloads) is Some,
    ensures
        0 <= k < payloads.len(),
        payloads[k] is Layout,
        payloads[k]->Layout_0@ == first_layout(payloads)->0,
        forall|j: int| 0 <= j < k ==> #[trigger] payloads[j] is Other,
    decreases payloads.len(),
{
    if payloads[0] is Layout {
        0
    } else {
        let rest = payloads.drop_first();
        let k = lemma_layout_index(rest);
        assert(payloads[k + 1] == rest[k]);
        assert forall|j: int| 0 <= j < k + 1 implies #[trigger] payloads[j] is Other by {
            if j > 0 {
                assert(rest[j - 1] is Other);
            }
        }
        k + 1
    }
}

/// Whether a package is at a point where it need not have been unpacked.
spec fn not_unpacked(progress: CacheProgress, replies: Seq<CacheReply>) -> bool {
    ||| progress.pending == seq![CacheStep::Fetch]
    ||| progress.pending == seq![CacheStep::CheckStored]
    ||| progress.pending == seq![CacheStep::Unpack]
    ||| progress.pending == seq![CacheStep::RemoveLayouts, CacheStep::Corrupted]
    ||| {
        &&& replies.contains(CacheReply::Stored(true))
        &&& progress.pending == seq![CacheStep::Report] || progress.pending == Seq::<
            CacheStep,
        >::empty()
    }
}

/// Whether all that is left of caching a package comes after it was unpacked.
spec fn all_unpacked(progress: CacheProgress) -> bool {
    forall|i: int|
        0 <= i < progress.pending.len() ==> !(#[trigger] progress.pending[i] is Fetch
            || progress.pending[i] is CheckStored || progress.pending[i] is Unpack)
}

proof fn lemma_body_was_unpacked(package: Package, replies: Seq<CacheReply>, stores: Stores)
    ensures
        ({
            let (progress, now) = storing_course(package, replies, stores);
            progress.failure is None ==> (not_unpacked(progress, replies) && now == stores) || (
            all_unpacked(progress) && exists|i: int, k: int|
                0 <= i < replies.len() && #[trigger] is_unpacked(replies[i], k, progress.body))
        }),
    decreases replies.len(),
{
    if replies.len() > 0 {
        let earlier = replies.drop_last();
        let reply = replies.last();
        lemma_body_was_unpacked(package, earlier, stores);
        let progress = storing_course(package, earlier, stores).0;
        let next = storing_course(package, replies, stores).0;
        assert(replies[replies.len() - 1] == reply);
        if earlier.contains(CacheReply::Stored(true)) {
            let i = choose|i: int|
                0 <= i < earlier.len() && earlier[i] == CacheReply::Stored(true);
            assert(replies[i] == CacheReply::Stored(true));
        }
        if progress.failure is None && next.failure is None {
            if all_unpacked(progress) && exists|i: int, k: int|
                0 <= i < earlier.len() && #[trigger] is_unpacked(earlier[i], k, progress.body) {
                let (i, k) = choose|i: int, k: int|
                    0 <= i < earlier.len() && #[trigger] is_unpacked(earlier[i], k, progress.body);
                assert(is_unpacked(replies[i], k, next.body));
            } else if progress.pending.len() > 0 && progress.pending[0] is Unpack
                && reply is Unpacked {
                match first_layout(reply->Unpacked_0@) {
                    Some(body) => {
                        let k = lemma_layout_index(reply->Unpacked_0@);
                        assert(is_unpacked(replies[replies.len() - 1], k, next.body));
                    },
                    None => {
                        assert(next.pending =~= seq![
                            CacheStep::RemoveLayouts,
                            CacheStep::Corrupted,
                        ]);
                    },
                }
            } else {
                if progress.pending == seq![CacheStep::RemoveLayouts, CacheStep::Corrupted] {
                    assert(progress.pending.skip(1)[0] is Corrupted);
                }
                if progress.pending == seq![CacheStep::Report] {
                    assert(progress.pending.skip(1) =~= Seq::<CacheStep>::empty());
                }
            }
        }
    }
}

/// A package that could be cached ends up in the databases with exactly the entries, each as it
/// is and in order, of the first layout among the parts that it was unpacked to, unless the
/// databases were found to hold it already and were left as they are.
pub proof fn databases_hold_what_was_unpacked(
    package: Package,
    replies: Seq<CacheReply>,
    stores: Stores,
)
    requires
        storing_course(package, replies, stores).0.failure is None,
        storing_course(package, replies, stores).0.is_done(),
    ensures
        ({
            let now = storing_course(package, replies, stores).1;
            ||| replies.contains(CacheReply::Stored(true)) && now == stores
            ||| exists|i: int, k: int|
                0 <= i < replies.len() && #[trigger] is_unpacked(
                    replies[i],
                    k,
                    now.layout(package.id@),
                )
        }),
{
    lemma_body_was_unpacked(package, replies, stores);
    cached_packages_are_stored(package, replies, stores);
}

/// Caching several packages fails with the first error among the outcomes, and only if there is
/// one.
pub proof fn the_first_error_counts(outcomes: Seq<Result<(), Error>>, k: int)
    requires
        0 <= k <= outcomes.len(),
        forall|j: int| 0 <= j < k ==> #[trigger] outcomes[j] is Ok,
        k < outcomes.len() ==> outcomes[k] is Err,
    ensures
        k < outcomes.len() ==> first_failure(outcomes) == outcomes[k],
        k == outcomes.len() ==> first_failure(outcomes) is Ok,
{
    let failed = |outcome: Result<(), Error>| outcome is Err;
    crate::list::lemma_first_where_skip(outcomes, failed, k);
}

/// Caching starts with fetching the package, and nothing is known of it.
pub proof fn caching_starts_with_the_fetch()
    ensures
        CacheProgress::start().pending == seq![CacheStep::Fetch],
        CacheProgress::start().body.len() == 0,
        !CacheProgress::start().cached,
        CacheProgress::start().failure is None,
{
}

/// A reply that does not answer the step changes nothing, and once caching is done nothing does.
pub proof fn other_replies_change_nothing(progress: CacheProgress, reply: CacheReply)
    ensures
        progress.failure is Some || progress.pending.len() == 0 ==> progress.next(reply)
            == progress,
        progress.pending.len() > 0 ==> {
            let step = progress.pending[0];
            let next = progress.next(reply);
            &&& reply is Fetched && !(step is Fetch) ==> next == progress
            &&& reply is Stored && !(step is CheckStored) ==> next == progress
            &&& reply is Unpacked && !(step is Unpack) ==> next == progress
            &&& reply is Done && (step is Fetch || step is CheckStored || step is Unpack) ==> next
                == progress
        },
{
}

} // verus!
