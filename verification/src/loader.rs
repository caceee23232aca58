use crate::error::LoadError;
use crate::text::{chars_of, has_prefix, matches_at, slice_of, starts_with, string_of};
use vstd::prelude::*;

verus! {

/// Where a dataset comes from, as its locator says.
pub enum Source {
    /// A local file, by its path.
    File(String),
    /// A network address that is asked with one GET request.
    Network(String),
    /// A locator of a scheme that the loader does not know.
    Unsupported,
}

/// What a [`Source`] holds, with its texts as sequences of characters.
pub enum SourceView {
    File(Seq<char>),
    Network(Seq<char>),
    Unsupported,
}

impl View for Source {
    type V = SourceView;

    open spec fn view(&self) -> SourceView {
        match self {
            Source::File(path) => SourceView::File(path@),
            Source::Network(url) => SourceView::Network(url@),
            Source::Unsupported => SourceView::Unsupported,
        }
    }
}

/// `s` without the copies of `prefix` that stand at its start, one after
/// the other.
pub open spec fn without_leading_text(s: Seq<char>, prefix: Seq<char>) -> Seq<char>
    decreases s.len(),
{
    if prefix.len() > 0 && starts_with(s, prefix) {
        without_leading_text(s.skip(prefix.len() as int), prefix)
    } else {
        s
    }
}

/// The source that a locator names: `file://` and a path, or an address
/// that begins with `http://` or `https://`, which is kept whole.
pub open spec fn source_of(url: Seq<char>) -> SourceView {
    if starts_with(url, "file://"@) {
        SourceView::File(without_leading_text(url, "file://"@))
    } else if starts_with(url, "http://"@) || starts_with(url, "https://"@) {
        SourceView::Network(url)
    } else {
        SourceView::Unsupported
    }
}

/// Reads a locator (see [`source_of`]).
pub fn classify(url: &str) -> (source: Source)
    ensures
        source@ == source_of(url@),
{
    let chars = chars_of(url);
    if has_prefix(&chars, "file://") {
        let prefix = chars_of("file://");
        let mut start: usize = 0;
        assert(chars@.skip(0) == chars@);
        while matches_at(&chars, start, &prefix)
            invariant
                start <= chars.len(),
                prefix@ == "file://"@,
                without_leading_text(chars@, prefix@) == without_leading_text(
                    chars@.skip(start as int),
                    prefix@,
                ),
            decreases chars.len() - start,
        {
            proof {
                let rest = chars@.skip(start as int);
                assert(rest.take(prefix.len() as int) == chars@.subrange(
                    start as int,
                    start + prefix.len(),
                ));
                assert(rest.skip(prefix.len() as int) == chars@.skip(start + prefix.len()));
                reveal_strlit("file://");
            }
            start += prefix.len();
        }
        proof {
            let rest = chars@.skip(start as int);
            if start + prefix.len() <= chars.len() {
                assert(rest.take(prefix.len() as int) == chars@.subrange(
                    start as int,
                    start + prefix.len(),
                ));
            }
            assert(chars@.subrange(start as int, chars.len() as int) == rest);
        }
        Source::File(string_of(&slice_of(&chars, start, chars.len())))
    } else if has_prefix(&chars, "http://") || has_prefix(&chars, "https://") {
        Source::Network(string_of(&chars))
    } else {
        Source::Unsupported
    }
}

/// A file that may stand in for the dataset where the network fails.
#[derive(Clone, Copy, Debug, PartialEq, Eq, Structural)]
pub enum Fallback {
    /// The cache file that the caller named.
    CacheFile,
    /// The cache file at the default place of the user.
    DefaultCache,
    /// `cache/ip2asn-combined.tsv.gz`, below the working directory.
    LegacyCache,
    /// `ip2asn-combined.tsv.gz`, in the working directory.
    LegacyLocal,
    /// `test_data.tsv.gz`, in the working directory.
    LegacyTest,
}

/// The file to which a fetched dataset is written.
#[derive(Clone, Copy, Debug, PartialEq, Eq, Structural)]
pub enum CacheTarget {
    /// The cache file that the caller named.
    CacheFile,
    /// The cache file at the default place of the user.
    DefaultCache,
}

/// How a request for the dataset failed before any byte of it arrived.
#[derive(Clone, Copy, Debug, PartialEq, Eq, Structural)]
pub enum FetchFailure {
    /// The server answered with a status other than success.
    Status,
    /// The request did not get through.
    Transport,
}

/// How a request for the dataset ended.
#[derive(Clone, Copy, Debug, PartialEq, Eq, Structural)]
pub enum FetchOutcome {
    /// The server answered with success and the body was read.
    Body,
    /// The server answered with success, but the body could not be read:
    /// the transport failed while the bytes were on their way.
    UnreadableBody,
    /// The request failed before any byte of the dataset arrived.
    Failed(FetchFailure),
}

/// What the loader found out about the world.
#[derive(Clone, Copy, Debug, PartialEq, Eq, Structural)]
pub enum LoadEvent {
    /// The file of the locator was read (`true`) or could not be read.
    FileRead(bool),
    /// The request ended.
    Fetched(FetchOutcome),
    /// The fallback file was read (`true`) or could not be read.
    FallbackRead(bool),
}

/// How a load ends.
#[derive(Clone, Copy, Debug, PartialEq, Eq, Structural)]
pub enum LoadOutcome {
    /// The bytes that were read last are the dataset. Where a target is
    /// named, they came from the network and are written there first.
    Parse(Option<CacheTarget>),
    /// There is no dataset.
    Fail(LoadError),
}

/// What the loader wants done next.
#[derive(Clone, Copy, Debug, PartialEq, Eq, Structural)]
pub enum LoadAction {
    /// Read the file of the locator.
    ReadFile,
    /// Send the request to the address of the locator.
    Fetch,
    /// Read a fallback file.
    ReadFallback(Fallback),
    /// Stop.
    Finish(LoadOutcome),
}

/// How far a load has come.
#[derive(Clone, Copy, Debug, PartialEq, Eq, Structural)]
pub enum Stage {
    /// The file of the locator is being read.
    File,
    /// The request is under way.
    Fetch,
    /// The request failed, and a fallback file is being read.
    Fallback(FetchFailure, Fallback),
    /// The load is over.
    Done(LoadOutcome),
}

/// The loader: the decisions of one load of the dataset. Its caller does
/// what [`Loader::pending`] asks for and reports the result to
/// [`Loader::step`], until the action is [`LoadAction::Finish`].
#[derive(Clone, Copy, Debug, PartialEq, Eq, Structural)]
pub struct Loader {
    /// Whether the caller named a cache file.
    pub has_cache_file: bool,
    /// Whether a default place for the cache is known.
    pub has_default_cache: bool,
    /// How far the load has come.
    pub stage: Stage,
}

/// The fallback files in the order in which they are tried: the cache file
/// of the caller, the default cache, and the three legacy files.
pub open spec fn candidates(has_cache_file: bool, has_default_cache: bool) -> Seq<Fallback> {
    (if has_cache_file {
        seq![Fallback::CacheFile]
    } else {
        Seq::<Fallback>::empty()
    }) + (if has_default_cache {
        seq![Fallback::DefaultCache]
    } else {
        Seq::<Fallback>::empty()
    }) + seq![Fallback::LegacyCache, Fallback::LegacyLocal, Fallback::LegacyTest]
}

/// The error of a load whose request failed and whose fallback files could
/// not be read.
pub open spec fn exhausted(failure: FetchFailure) -> LoadError {
    match failure {
        FetchFailure::Status => LoadError::StatusAndNoFallback,
        FetchFailure::Transport => LoadError::TransportAndNoFallback,
    }
}

impl Fallback {
    /// The fixed name of a legacy file, relative to the working directory.
    pub fn legacy_path(&self) -> (path: Option<&'static str>)
        ensures
            match *self {
                Fallback::CacheFile => path is None,
                Fallback::DefaultCache => path is None,
                Fallback::LegacyCache => path is Some && path->0@ == "cache/ip2asn-combined.tsv.gz"@,
                Fallback::LegacyLocal => path is Some && path->0@ == "ip2asn-combined.tsv.gz"@,
                Fallback::LegacyTest => path is Some && path->0@ == "test_data.tsv.gz"@,
            },
    {
        match self {
            Fallback::CacheFile => None,
            Fallback::DefaultCache => None,
            Fallback::LegacyCache => Some("cache/ip2asn-combined.tsv.gz"),
            Fallback::LegacyLocal => Some("ip2asn-combined.tsv.gz"),
            Fallback::LegacyTest => Some("test_data.tsv.gz"),
        }
    }
}

impl Loader {
    /// The file that is tried first once the request has failed.
    pub open spec fn first_fallback(self) -> Fallback {
        if self.has_cache_file {
            Fallback::CacheFile
        } else if self.has_default_cache {
            Fallback::DefaultCache
        } else {
            Fallback::LegacyCache
        }
    }

    /// The file that is tried once `tried` could not be read, if any is
    /// left.
    pub open spec fn next_fallback(self, tried: Fallback) -> Option<Fallback> {
        match tried {
            Fallback::CacheFile => if self.has_default_cache {
                Some(Fallback::DefaultCache)
            } else {
                Some(Fallback::LegacyCache)
            },
            Fallback::DefaultCache => Some(Fallback::LegacyCache),
            Fallback::LegacyCache => Some(Fallback::LegacyLocal),
            Fallback::LegacyLocal => Some(Fallback::LegacyTest),
            Fallback::LegacyTest => None,
        }
    }

    /// The file to which a fetched dataset is written: the cache file of the
    /// caller, else the default cache, else none.
    pub open spec fn cache_target(self) -> Option<CacheTarget> {
        if self.has_cache_file {
            Some(CacheTarget::CacheFile)
        } else if self.has_default_cache {
            Some(CacheTarget::DefaultCache)
        } else {
            None
        }
    }

    /// What the loader waits for.
    pub open spec fn pending_action(self) -> LoadAction {
        match self.stage {
            Stage::File => LoadAction::ReadFile,
            Stage::Fetch => LoadAction::Fetch,
            Stage::Fallback(_, file) => LoadAction::ReadFallback(file),
            Stage::Done(outcome) => LoadAction::Finish(outcome),
        }
    }

    /// The loader after `event`.
    ///
    /// A file source ends with its one read. A network source ends with
    /// the body that was read. Every request that does not end with the
    /// bytes of the dataset starts the fallback files, which are read in
    /// their order until one can be read: a request that failed, and one
    /// whose body could not be read, which counts as a failure of the
    /// transport. An event that does not answer what the loader waits for
    /// changes nothing.
    pub open spec fn after(self, event: LoadEvent) -> Loader {
        let stage = match (self.stage, event) {
            (Stage::File, LoadEvent::FileRead(true)) => Stage::Done(LoadOutcome::Parse(None)),
            (Stage::File, LoadEvent::FileRead(false)) => Stage::Done(
                LoadOutcome::Fail(LoadError::UnreadableFile),
            ),
            (Stage::Fetch, LoadEvent::Fetched(FetchOutcome::Body)) => Stage::Done(
                LoadOutcome::Parse(self.cache_target()),
            ),
            (Stage::Fetch, LoadEvent::Fetched(FetchOutcome::UnreadableBody)) => Stage::Fallback(
                FetchFailure::Transport,
                self.first_fallback(),
            ),
            (Stage::Fetch, LoadEvent::Fetched(FetchOutcome::Failed(failure))) => Stage::Fallback(
                failure,
                self.first_fallback(),
            ),
            (Stage::Fallback(_, _), LoadEvent::FallbackRead(true)) => Stage::Done(
                LoadOutcome::Parse(None),
            ),
            (Stage::Fallback(failure, file), LoadEvent::FallbackRead(false)) => match self.next_fallback(
                file,
            ) {
                Some(next) => Stage::Fallback(failure, next),
                None => Stage::Done(LoadOutcome::Fail(exhausted(failure))),
            },
            _ => self.stage,
        };
        Loader { stage, ..self }
    }

    /// The loader after the events of `events`, in their order.
    pub open spec fn after_all(self, events: Seq<LoadEvent>) -> Loader
        decreases events.len(),
    {
        if events.len() == 0 {
            self
        } else {
            self.after_all(events.drop_last()).after(events.last())
        }
    }

    /// Starts a load.
    pub fn new(source: &Source, has_cache_file: bool, has_default_cache: bool) -> (loader: Loader)
        ensures
            loader.has_cache_file == has_cache_file,
            loader.has_default_cache == has_default_cache,
            loader.stage == match source@ {
                SourceView::File(_) => Stage::File,
                SourceView::Network(_) => Stage::Fetch,
                SourceView::Unsupported => Stage::Done(
                    LoadOutcome::Fail(LoadError::UnsupportedScheme),
                ),
            },
    {
        let stage = match source {
            Source::File(_) => Stage::File,
            Source::Network(_) => Stage::Fetch,
            Source::Unsupported => Stage::Done(LoadOutcome::Fail(LoadError::UnsupportedScheme)),
        };
        Loader { has_cache_file, has_default_cache, stage }
    }

    /// What the loader waits for.
    pub fn pending(&self) -> (action: LoadAction)
        ensures
            action == self.pending_action(),
    {
        match self.stage {
            Stage::File => LoadAction::ReadFile,
            Stage::Fetch => LoadAction::Fetch,
            Stage::Fallback(_, file) => LoadAction::ReadFallback(file),
            Stage::Done(outcome) => LoadAction::Finish(outcome),
        }
    }

    /// The file to which a fetched dataset is written.
    pub fn save_target(&self) -> (target: Option<CacheTarget>)
        ensures
            target == self.cache_target(),
    {
        if self.has_cache_file {
            Some(CacheTarget::CacheFile)
        } else if self.has_default_cache {
            Some(CacheTarget::DefaultCache)
        } else {
            None
        }
    }

    /// Takes in what happened and says what to do next.
    pub fn step(&mut self, event: LoadEvent) -> (action: LoadAction)
        ensures
            *final(self) == old(self).after(event),
            action == final(self).pending_action(),
    {
        let stage = match (self.stage, event) {
            (Stage::File, LoadEvent::FileRead(read)) => {
                if read {
                    Stage::Done(LoadOutcome::Parse(None))
                } else {
                    Stage::Done(LoadOutcome::Fail(LoadError::UnreadableFile))
                }
            },
            (Stage::Fetch, LoadEvent::Fetched(outcome)) => {
                let first = if self.has_cache_file {
                    Fallback::CacheFile
                } else if self.has_default_cache {
                    Fallback::DefaultCache
                } else {
                    Fallback::LegacyCache
                };
                match outcome {
                    FetchOutcome::Body => Stage::Done(LoadOutcome::Parse(self.save_target())),
                    FetchOutcome::UnreadableBody => Stage::Fallback(FetchFailure::Transport, first),
                    FetchOutcome::Failed(failure) => Stage::Fallback(failure, first),
                }
            },
            (Stage::Fallback(failure, file), LoadEvent::FallbackRead(read)) => {
                if read {
                    Stage::Done(LoadOutcome::Parse(None))
                } else {
                    let next = match file {
                        Fallback::CacheFile => if self.has_default_cache {
                            Some(Fallback::DefaultCache)
                        } else {
                            Some(Fallback::LegacyCache)
                        },
                        Fallback::DefaultCache => Some(Fallback::LegacyCache),
                        Fallback::LegacyCache => Some(Fallback::LegacyLocal),
                        Fallback::LegacyLocal => Some(Fallback::LegacyTest),
                        Fallback::LegacyTest => None,
                    };
                    match next {
                        Some(next) => Stage::Fallback(failure, next),
                        None => Stage::Done(
                            LoadOutcome::Fail(
                                match failure {
                                    FetchFailure::Status => LoadError::StatusAndNoFallback,
                                    FetchFailure::Transport => LoadError::TransportAndNoFallback,
                                },
                            ),
                        ),
                    }
                }
            },
            (stage, _) => stage,
        };
        self.stage = stage;
        self.pending()
    }
}

/// The events of a request that failed followed by `failed` fallback files
/// that could not be read.
pub open spec fn failed_reads(failure: FetchFailure, failed: nat) -> Seq<LoadEvent> {
    seq![LoadEvent::Fetched(FetchOutcome::Failed(failure))] + Seq::new(
        failed,
        |i: int| LoadEvent::FallbackRead(false),
    )
}

/// A body that cannot be read starts the fallback files as a request does
/// that did not get through: no fetch ends a load without bytes unless every
/// fallback file has failed too.
pub proof fn lemma_unreadable_body_starts_the_fallbacks(loader: Loader)
    requires
        loader.stage == Stage::Fetch,
    ensures
        loader.after(LoadEvent::Fetched(FetchOutcome::UnreadableBody)) == loader.after(
            LoadEvent::Fetched(FetchOutcome::Failed(FetchFailure::Transport)),
        ),
        loader.after(LoadEvent::Fetched(FetchOutcome::UnreadableBody)).pending_action()
            == LoadAction::ReadFallback(
            candidates(loader.has_cache_file, loader.has_default_cache)[0],
        ),
{
    lemma_candidates(loader.has_cache_file, loader.has_default_cache);
}

/// The fallback files written out for each case.
pub proof fn lemma_candidates(has_cache_file: bool, has_default_cache: bool)
    ensures
        has_cache_file && has_default_cache ==> candidates(has_cache_file, has_default_cache)
            == seq![
            Fallback::CacheFile,
            Fallback::DefaultCache,
            Fallback::LegacyCache,
            Fallback::LegacyLocal,
            Fallback::LegacyTest,
        ],
        has_cache_file && !has_default_cache ==> candidates(has_cache_file, has_default_cache)
            == seq![
            Fallback::CacheFile,
            Fallback::LegacyCache,
            Fallback::LegacyLocal,
            Fallback::LegacyTest,
        ],
        !has_cache_file && has_default_cache ==> candidates(has_cache_file, has_default_cache)
            == seq![
            Fallback::DefaultCache,
            Fallback::LegacyCache,
            Fallback::LegacyLocal,
            Fallback::LegacyTest,
        ],
        !has_cache_file && !has_default_cache ==> candidates(has_cache_file, has_default_cache)
            == seq![Fallback::LegacyCache, Fallback::LegacyLocal, Fallback::LegacyTest],
{
    let c = candidates(has_cache_file, has_default_cache);
    if has_cache_file && has_default_cache {
        assert(c =~= seq![
            Fallback::CacheFile,
            Fallback::DefaultCache,
            Fallback::LegacyCache,
            Fallback::LegacyLocal,
            Fallback::LegacyTest,
        ]);
    } else if has_cache_file {
        assert(c =~= seq![
            Fallback::CacheFile,
            Fallback::LegacyCache,
            Fallback::LegacyLocal,
            Fallback::LegacyTest,
        ]);
    } else if has_default_cache {
        assert(c =~= seq![
            Fallback::DefaultCache,
            Fallback::LegacyCache,
            Fallback::LegacyLocal,
            Fallback::LegacyTest,
        ]);
    } else {
        assert(c =~= seq![Fallback::LegacyCache, Fallback::LegacyLocal, Fallback::LegacyTest]);
    }
}

/// The fallback files are tried in their fixed order: once the request has
/// failed and the first `k` of them could not be read, the loader asks for
/// the next one.
pub proof fn lemma_fallbacks_are_tried_in_order(loader: Loader, failure: FetchFailure, k: nat)
    requires
        loader.stage == Stage::Fetch,
        k < candidates(loader.has_cache_file, loader.has_default_cache).len(),
    ensures
        loader.after_all(failed_reads(failure, k)).pending_action() == LoadAction::ReadFallback(
            candidates(loader.has_cache_file, loader.has_default_cache)[k as int],
        ),
        loader.after_all(failed_reads(failure, k)) == (Loader {
            stage: Stage::Fallback(
                failure,
                candidates(loader.has_cache_file, loader.has_default_cache)[k as int],
            ),
            ..loader
        }),
    decreases k,
{
    let events = failed_reads(failure, k);
    lemma_candidates(loader.has_cache_file, loader.has_default_cache);
    if k == 0 {
        assert(events.drop_last() =~= Seq::<LoadEvent>::empty());
        assert(loader.after_all(events.drop_last()) == loader);
        assert(events.last() == LoadEvent::Fetched(FetchOutcome::Failed(failure)));
    } else {
        lemma_fallbacks_are_tried_in_order(loader, failure, (k - 1) as nat);
        assert(events.drop_last() =~= failed_reads(failure, (k - 1) as nat));
        assert(events.last() == LoadEvent::FallbackRead(false));
    }
}

/// The first fallback file that can be read wins: the load then ends with
/// its bytes, and nothing is written to the cache.
pub proof fn lemma_first_readable_fallback_wins(loader: Loader, failure: FetchFailure, k: nat)
    requires
        loader.stage == Stage::Fetch,
        k < candidates(loader.has_cache_file, loader.has_default_cache).len(),
    ensures
        loader.after_all(failed_reads(failure, k).push(LoadEvent::FallbackRead(true))).stage
            == Stage::Done(LoadOutcome::Parse(None)),
{
    lemma_fallbacks_are_tried_in_order(loader, failure, k);
    let events = failed_reads(failure, k).push(LoadEvent::FallbackRead(true));
    assert(events.drop_last() =~= failed_reads(failure, k));
}

/// Where the request fails and no fallback file can be read, the load fails
/// with the error that belongs to the failure of the request.
pub proof fn lemma_exhausted_fallbacks_fail(loader: Loader, failure: FetchFailure)
    requires
        loader.stage == Stage::Fetch,
    ensures
        loader.after_all(
            failed_reads(
                failure,
                candidates(loader.has_cache_file, loader.has_default_cache).len(),
            ),
        ).stage == Stage::Done(LoadOutcome::Fail(exhausted(failure))),
{
    let n = candidates(loader.has_cache_file, loader.has_default_cache).len();
    lemma_candidates(loader.has_cache_file, loader.has_default_cache);
    lemma_fallbacks_are_tried_in_order(loader, failure, (n - 1) as nat);
    let events = failed_reads(failure, n);
    assert(events.drop_last() =~= failed_reads(failure, (n - 1) as nat));
    assert(events.last() == LoadEvent::FallbackRead(false));
}

/// The directory below which the default cache of a user lies.
#[derive(Clone, Copy, Debug, PartialEq, Eq, Structural)]
pub enum CacheBase {
    /// The cache directory that the environment names.
    CacheHome,
    /// The home directory of the user.
    Home,
}

/// The default place of the cache file: a base directory and the names that
/// lead from it to the file.
pub struct CacheLocation {
    pub base: CacheBase,
    pub components: Vec<&'static str>,
}

/// The names of a list of texts.
pub open spec fn names_of(components: Seq<&'static str>) -> Seq<Seq<char>> {
    Seq::new(components.len(), |i: int| components[i]@)
}

/// The default place of the cache file: `iptoasn/ip2asn-combined.tsv.gz`
/// below the cache directory that the environment names, or else below
/// `.cache` in the home directory of the user; none where neither directory
/// is known.
pub fn default_cache_location(has_cache_home: bool, has_home: bool) -> (location: Option<
    CacheLocation,
>)
    ensures
        has_cache_home ==> location is Some && location->0.base == CacheBase::CacheHome && names_of(
            location->0.components@,
        ) == seq!["iptoasn"@, "ip2asn-combined.tsv.gz"@],
        !has_cache_home && has_home ==> location is Some && location->0.base == CacheBase::Home
            && names_of(location->0.components@) == seq![
            ".cache"@,
            "iptoasn"@,
            "ip2asn-combined.tsv.gz"@,
        ],
        !has_cache_home && !has_home ==> location is None,
{
    let mut components: Vec<&'static str> = Vec::new();
    if has_cache_home {
        components.push("iptoasn");
        components.push("ip2asn-combined.tsv.gz");
        assert(names_of(components@) =~= seq!["iptoasn"@, "ip2asn-combined.tsv.gz"@]);
        Some(CacheLocation { base: CacheBase::CacheHome, components })
    } else if has_home {
        components.push(".cache");
        components.push("iptoasn");
        components.push("ip2asn-combined.tsv.gz");
        assert(names_of(components@) =~= seq![".cache"@, "iptoasn"@, "ip2asn-combined.tsv.gz"@]);
        Some(CacheLocation { base: CacheBase::Home, components })
    } else {
        None
    }
}

/// The header `User-Agent` with which the loader asks for the dataset.
pub const USER_AGENT: &'static str = "iptoasn-webservice/0.2.5";

} // verus!
