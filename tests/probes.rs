use service_shell::probes::{
    check_outcome, healthz_reply, or_unknown, ready_reply, ReadyCheck, Readiness,
    METRICS_CONTENT_TYPE,
};

#[test]
fn flag_maps_onto_check() {
    assert_eq!(check_outcome(Some(true)), ReadyCheck::Ready);
    assert_eq!(check_outcome(Some(false)), ReadyCheck::NotReady);
}

#[test]
fn late_read_is_a_timeout() {
    assert_eq!(check_outcome(None), ReadyCheck::TimedOut);
    let r = ready_reply(check_outcome(None));
    assert_eq!((r.status, r.body), (408, "READY_TIMEOUT"));
}

#[test]
fn ready_replies() {
    let r = ready_reply(ReadyCheck::Ready);
    assert_eq!((r.status, r.body), (200, "READY"));
    let r = ready_reply(ReadyCheck::NotReady);
    assert_eq!((r.status, r.body), (503, "NOT_READY"));
}

#[test]
fn not_ready_flag_answers_503() {
    let state = Readiness::new(false);
    let r = ready_reply(check_outcome(Some(state.is_ready())));
    assert_eq!((r.status, r.body), (503, "NOT_READY"));
}

#[test]
fn healthz_ignores_readiness() {
    for flag in [true, false] {
        let mut state = Readiness::new(!flag);
        state.set_ready(flag);
        assert_eq!(state.is_ready(), flag);
        let r = healthz_reply();
        assert_eq!((r.status, r.body), (200, "OK"));
    }
}

#[test]
fn last_write_wins() {
    let mut state = Readiness::new(true);
    state.set_ready(false);
    state.set_ready(true);
    state.set_ready(false);
    assert!(!state.is_ready());
}

#[test]
fn version_fields_fall_back_to_unknown() {
    assert_eq!(or_unknown(None), "unknown");
    assert_eq!(or_unknown(Some("abc123")), "abc123");
}

#[test]
fn metrics_content_type_names_the_format_version() {
    assert_eq!(METRICS_CONTENT_TYPE, "text/plain; version=0.0.4");
}

#[test]
fn metrics_render_twice_is_identical() {
    let recorder = metrics_exporter_prometheus::PrometheusBuilder::new().build_recorder();
    let handle = recorder.handle();
    assert_eq!(handle.render(), handle.render());
}

fn bounded_check(state: &tokio::sync::RwLock<Readiness>, timeout: std::time::Duration) -> ReadyCheck {
    let rt = tokio::runtime::Builder::new_current_thread().enable_time().build().unwrap();
    rt.block_on(async {
        let read = tokio::time::timeout(timeout, async { state.read().await.is_ready() })
            .await
            .ok();
        check_outcome(read)
    })
}

#[test]
fn bounded_read_in_time_reports_the_flag() {
    for flag in [true, false] {
        let state = tokio::sync::RwLock::new(Readiness::new(flag));
        let expected = if flag { ReadyCheck::Ready } else { ReadyCheck::NotReady };
        assert_eq!(bounded_check(&state, std::time::Duration::from_secs(10)), expected);
    }
}

#[test]
fn bounded_read_behind_a_held_lock_times_out() {
    let state = tokio::sync::RwLock::new(Readiness::new(true));
    let writer = state.try_write().unwrap();
    assert_eq!(
        bounded_check(&state, std::time::Duration::from_millis(20)),
        ReadyCheck::TimedOut
    );
    drop(writer);
}
