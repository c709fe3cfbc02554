use audioserve::chapters::TimeSpan;
use audioserve::dispatch::{
    after_lookup, cache_key, choose_strategy, CachedServe, QualityLevel, ServeStrategy, Tee, TeeAction,
    TeeEvent,
};

#[test]
fn fingerprints() {
    assert_eq!(cache_key("/m/a.mp3", QualityLevel::High, None), "/m/a.mp3/h");
    let span = TimeSpan { start: 1234, duration: Some(4444) };
    assert_eq!(cache_key("/m/a.mp3", QualityLevel::Low, Some(span)), "/m/a.mp3/l/1234-4444");
    let open = TimeSpan { start: 5, duration: None };
    assert_eq!(cache_key("x", QualityLevel::Passthrough, Some(open)), "x/p/5");
    assert_eq!(
        cache_key("/m/a.mp3", QualityLevel::Medium, None),
        cache_key("/m/a.mp3", QualityLevel::Medium, None)
    );
}

#[test]
fn strategies() {
    let span = Some(TimeSpan { start: 0, duration: Some(10) });
    assert_eq!(choose_strategy(None, None, true), ServeStrategy::Direct);
    assert_eq!(choose_strategy(None, span, true), ServeStrategy::Remux);
    assert_eq!(choose_strategy(Some(QualityLevel::High), None, true), ServeStrategy::CacheLookup);
    assert_eq!(choose_strategy(Some(QualityLevel::High), span, false), ServeStrategy::Transcode);
}

#[test]
fn lookup_outcomes() {
    assert_eq!(after_lookup(false, true), CachedServe::TranscodeAndCache);
    assert_eq!(after_lookup(true, true), CachedServe::RemuxSeek);
    assert_eq!(after_lookup(true, false), CachedServe::RangeServe);
}

#[test]
fn tee_commits_on_eof() {
    let mut t = Tee::new();
    assert_eq!(t.on_event(TeeEvent::Chunk), TeeAction::Forward);
    assert_eq!(t.on_event(TeeEvent::Chunk), TeeAction::Forward);
    assert_eq!(t.on_event(TeeEvent::Eof), TeeAction::Commit);
    assert!(!t.is_open());
    assert_eq!(t.on_event(TeeEvent::ClientGone), TeeAction::Ignore);
}

#[test]
fn tee_rolls_back_on_failure() {
    for e in [TeeEvent::SourceFailed, TeeEvent::ClientGone, TeeEvent::CacheFailed] {
        let mut t = Tee::new();
        assert_eq!(t.on_event(TeeEvent::Chunk), TeeAction::Forward);
        assert_eq!(t.on_event(e), TeeAction::Rollback);
        assert_eq!(t.on_event(TeeEvent::Eof), TeeAction::Ignore);
    }
}

#[test]
fn tee_commits_empty_output() {
    let mut t = Tee::new();
    assert_eq!(t.on_event(TeeEvent::Eof), TeeAction::Commit);
}
