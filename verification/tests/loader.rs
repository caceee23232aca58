use iptoasn_webservice::asns::Asns;
use iptoasn_webservice::error::LoadError;
use iptoasn_webservice::loader::{
    classify, default_cache_location, CacheBase, CacheTarget, Fallback, FetchFailure,
    FetchOutcome, LoadAction, LoadEvent, LoadOutcome, Loader, Source, Stage, USER_AGENT,
};
use iptoasn_webservice::snapshot::{refresh_period, SnapshotController};
use iptoasn_webservice::ip::IpAddress;
use std::sync::Arc;

fn file(source: Source) -> String {
    match source {
        Source::File(path) => path,
        _ => panic!("no file"),
    }
}

fn network(source: Source) -> String {
    match source {
        Source::Network(url) => url,
        _ => panic!("no network source"),
    }
}

#[test]
fn classify_reads_the_scheme() {
    assert_eq!(file(classify("file:///var/lib/ip2asn.tsv.gz")), "/var/lib/ip2asn.tsv.gz");
    assert_eq!(file(classify("file://relative/data.gz")), "relative/data.gz");
    assert_eq!(file(classify("file://")), "");
    assert_eq!(
        network(classify("https://iptoasn.com/data/ip2asn-combined.tsv.gz")),
        "https://iptoasn.com/data/ip2asn-combined.tsv.gz"
    );
    assert_eq!(network(classify("http://localhost/x")), "http://localhost/x");
    assert!(matches!(classify("ftp://host/x"), Source::Unsupported));
    assert!(matches!(classify("/var/lib/ip2asn.tsv.gz"), Source::Unsupported));
    assert!(matches!(classify(""), Source::Unsupported));
    assert!(matches!(classify("FILE:///x"), Source::Unsupported));
    assert!(matches!(classify("file:/x"), Source::Unsupported));
}

#[test]
fn classify_drops_every_leading_copy_of_the_file_scheme() {
    assert_eq!(file(classify("file://file://file://x")), "x");
    assert_eq!(file(classify("file://a/file://b")), "a/file://b");
}

#[test]
fn a_file_source_ends_with_its_one_read() {
    let source = classify("file:///data.gz");
    let mut loader = Loader::new(&source, true, true);
    assert_eq!(loader.pending(), LoadAction::ReadFile);
    assert_eq!(loader.step(LoadEvent::FileRead(true)), LoadAction::Finish(LoadOutcome::Parse(None)));

    let mut loader = Loader::new(&source, true, true);
    assert_eq!(
        loader.step(LoadEvent::FileRead(false)),
        LoadAction::Finish(LoadOutcome::Fail(LoadError::UnreadableFile))
    );
    // Once over, the load stays over.
    assert_eq!(
        loader.step(LoadEvent::FileRead(true)),
        LoadAction::Finish(LoadOutcome::Fail(LoadError::UnreadableFile))
    );
}

#[test]
fn an_unknown_scheme_fails_at_once() {
    let loader = Loader::new(&classify("gopher://x"), false, false);
    assert_eq!(loader.pending(), LoadAction::Finish(LoadOutcome::Fail(LoadError::UnsupportedScheme)));
}

#[test]
fn a_fetched_dataset_is_saved_to_the_cache() {
    let source = classify("https://example.org/db.gz");
    let mut loader = Loader::new(&source, true, true);
    assert_eq!(loader.pending(), LoadAction::Fetch);
    assert_eq!(
        loader.step(LoadEvent::Fetched(FetchOutcome::Body)),
        LoadAction::Finish(LoadOutcome::Parse(Some(CacheTarget::CacheFile)))
    );
    let mut loader = Loader::new(&source, false, true);
    assert_eq!(
        loader.step(LoadEvent::Fetched(FetchOutcome::Body)),
        LoadAction::Finish(LoadOutcome::Parse(Some(CacheTarget::DefaultCache)))
    );
    let mut loader = Loader::new(&source, false, false);
    assert_eq!(
        loader.step(LoadEvent::Fetched(FetchOutcome::Body)),
        LoadAction::Finish(LoadOutcome::Parse(None))
    );
    assert_eq!(loader.save_target(), None);
}

#[test]
fn an_unreadable_body_starts_the_fallbacks() {
    let mut loader = Loader::new(&classify("http://example.org/db.gz"), true, true);
    assert_eq!(
        loader.step(LoadEvent::Fetched(FetchOutcome::UnreadableBody)),
        LoadAction::ReadFallback(Fallback::CacheFile)
    );
    assert_eq!(
        loader.step(LoadEvent::FallbackRead(false)),
        LoadAction::ReadFallback(Fallback::DefaultCache)
    );
    // The first file that can be read is the dataset; nothing is saved.
    assert_eq!(
        loader.step(LoadEvent::FallbackRead(true)),
        LoadAction::Finish(LoadOutcome::Parse(None))
    );

    // Where no file can be read either, the load fails as one whose request
    // did not get through.
    let mut loader = Loader::new(&classify("http://example.org/db.gz"), false, false);
    let mut action = loader.step(LoadEvent::Fetched(FetchOutcome::UnreadableBody));
    assert_eq!(action, LoadAction::ReadFallback(Fallback::LegacyCache));
    while let LoadAction::ReadFallback(_) = action {
        action = loader.step(LoadEvent::FallbackRead(false));
    }
    assert_eq!(
        action,
        LoadAction::Finish(LoadOutcome::Fail(LoadError::TransportAndNoFallback))
    );
}

#[test]
fn fallbacks_are_tried_in_order_until_one_is_read() {
    let mut loader = Loader::new(&classify("http://example.org/db.gz"), true, true);
    assert_eq!(
        loader.step(LoadEvent::Fetched(FetchOutcome::Failed(FetchFailure::Status))),
        LoadAction::ReadFallback(Fallback::CacheFile)
    );
    assert_eq!(
        loader.step(LoadEvent::FallbackRead(false)),
        LoadAction::ReadFallback(Fallback::DefaultCache)
    );
    assert_eq!(
        loader.step(LoadEvent::FallbackRead(false)),
        LoadAction::ReadFallback(Fallback::LegacyCache)
    );
    // An event that answers nothing changes nothing.
    assert_eq!(
        loader.step(LoadEvent::FileRead(true)),
        LoadAction::ReadFallback(Fallback::LegacyCache)
    );
    assert_eq!(
        loader.step(LoadEvent::FallbackRead(false)),
        LoadAction::ReadFallback(Fallback::LegacyLocal)
    );
    // The first file that can be read is the dataset; nothing is saved.
    assert_eq!(
        loader.step(LoadEvent::FallbackRead(true)),
        LoadAction::Finish(LoadOutcome::Parse(None))
    );
    assert_eq!(loader.stage, Stage::Done(LoadOutcome::Parse(None)));
}

#[test]
fn fallbacks_skip_the_caches_that_are_not_known() {
    let mut loader = Loader::new(&classify("http://example.org/db.gz"), false, false);
    assert_eq!(
        loader.step(LoadEvent::Fetched(FetchOutcome::Failed(FetchFailure::Transport))),
        LoadAction::ReadFallback(Fallback::LegacyCache)
    );
    let mut loader = Loader::new(&classify("http://example.org/db.gz"), true, false);
    assert_eq!(
        loader.step(LoadEvent::Fetched(FetchOutcome::Failed(FetchFailure::Transport))),
        LoadAction::ReadFallback(Fallback::CacheFile)
    );
    assert_eq!(
        loader.step(LoadEvent::FallbackRead(false)),
        LoadAction::ReadFallback(Fallback::LegacyCache)
    );
    let mut loader = Loader::new(&classify("http://example.org/db.gz"), false, true);
    assert_eq!(
        loader.step(LoadEvent::Fetched(FetchOutcome::Failed(FetchFailure::Transport))),
        LoadAction::ReadFallback(Fallback::DefaultCache)
    );
}

#[test]
fn exhausted_fallbacks_fail_with_the_error_of_the_request() {
    for (failure, error) in [
        (FetchFailure::Status, LoadError::StatusAndNoFallback),
        (FetchFailure::Transport, LoadError::TransportAndNoFallback),
    ] {
        let mut loader = Loader::new(&classify("https://example.org/db.gz"), true, true);
        let mut action = loader.step(LoadEvent::Fetched(FetchOutcome::Failed(failure)));
        let mut reads = 0;
        while let LoadAction::ReadFallback(_) = action {
            reads += 1;
            action = loader.step(LoadEvent::FallbackRead(false));
        }
        assert_eq!(reads, 5);
        assert_eq!(action, LoadAction::Finish(LoadOutcome::Fail(error)));
    }
}

#[test]
fn legacy_files_have_fixed_names() {
    assert_eq!(Fallback::CacheFile.legacy_path(), None);
    assert_eq!(Fallback::DefaultCache.legacy_path(), None);
    assert_eq!(Fallback::LegacyCache.legacy_path(), Some("cache/ip2asn-combined.tsv.gz"));
    assert_eq!(Fallback::LegacyLocal.legacy_path(), Some("ip2asn-combined.tsv.gz"));
    assert_eq!(Fallback::LegacyTest.legacy_path(), Some("test_data.tsv.gz"));
}

#[test]
fn the_default_cache_lies_below_the_cache_directory_or_the_home_directory() {
    let location = default_cache_location(true, true).unwrap();
    assert_eq!(location.base, CacheBase::CacheHome);
    assert_eq!(location.components, vec!["iptoasn", "ip2asn-combined.tsv.gz"]);
    let location = default_cache_location(true, false).unwrap();
    assert_eq!(location.base, CacheBase::CacheHome);
    let location = default_cache_location(false, true).unwrap();
    assert_eq!(location.base, CacheBase::Home);
    assert_eq!(location.components, vec![".cache", "iptoasn", "ip2asn-combined.tsv.gz"]);
    assert!(default_cache_location(false, false).is_none());
    assert_eq!(USER_AGENT, "iptoasn-webservice/0.2.5");
}

#[test]
fn a_failed_reload_keeps_the_snapshot() {
    let initial = Asns::from_text("1.0.0.0\t1.0.0.255\t13335\tUS\tCLOUDFLARENET\n");
    let mut controller = SnapshotController::start(Ok(initial)).ok().expect("started");
    let before = controller.current();

    // The network cannot be reached and no fallback file is there.
    let mut loader = Loader::new(&classify("https://unreachable.invalid/db.gz"), true, true);
    let mut action = loader.step(LoadEvent::Fetched(FetchOutcome::Failed(FetchFailure::Transport)));
    while let LoadAction::ReadFallback(_) = action {
        action = loader.step(LoadEvent::FallbackRead(false));
    }
    let error = match action {
        LoadAction::Finish(LoadOutcome::Fail(error)) => error,
        other => panic!("unexpected {:?}", other),
    };
    assert_eq!(error, LoadError::TransportAndNoFallback);

    assert_eq!(controller.reload(Err(error)), Err(LoadError::TransportAndNoFallback));
    let after = controller.current();
    assert!(Arc::ptr_eq(&before, &after));
    let ip = IpAddress::parse("1.0.0.5").unwrap();
    assert_eq!(after.lookup_by_ip(ip).unwrap().number, 13335);
}

#[test]
fn a_reload_replaces_the_snapshot_as_a_whole() {
    let initial = Asns::from_text("1.0.0.0\t1.0.0.255\t13335\tUS\tCLOUDFLARENET\n");
    let mut controller = SnapshotController::start(Ok(initial)).ok().expect("started");
    let old = controller.current();
    let next = Asns::from_text("2.0.0.0\t2.0.0.255\t3215\tFR\tOrange\n");
    assert_eq!(controller.reload(Ok(next)), Ok(()));
    let new = controller.current();
    assert!(!Arc::ptr_eq(&old, &new));
    let one = IpAddress::parse("1.0.0.5").unwrap();
    let two = IpAddress::parse("2.0.0.5").unwrap();
    // Readers that hold the old handle keep what they had.
    assert_eq!(old.lookup_by_ip(one).unwrap().number, 13335);
    assert!(old.lookup_by_ip(two).is_none());
    assert!(new.lookup_by_ip(one).is_none());
    assert_eq!(new.lookup_by_ip(two).unwrap().number, 3215);
}

#[test]
fn without_a_first_snapshot_there_is_no_controller() {
    assert_eq!(
        SnapshotController::start(Err(LoadError::Decompress)).err(),
        Some(LoadError::Decompress)
    );
}

#[test]
fn reloads_are_switched_off_by_a_delay_of_zero() {
    assert_eq!(refresh_period(0), None);
    assert_eq!(refresh_period(1), Some(60));
    assert_eq!(refresh_period(60), Some(3600));
    assert_eq!(refresh_period(u64::MAX / 60), Some(u64::MAX / 60 * 60));
    assert_eq!(refresh_period(u64::MAX / 60 + 1), Some(u64::MAX));
    assert_eq!(refresh_period(u64::MAX), Some(u64::MAX));
}
