use service_shell::config::{split_origins, Config, ConfigError, HostAddr, Settings};
use service_shell::span::Span;

fn settings() -> Settings {
    Settings {
        app_name: "cardio-sentinel".to_string(),
        host: HostAddr::V4([0, 0, 0, 0]),
        port: "8080".to_string(),
        request_timeout: "10s".to_string(),
        idle_timeout: "20s".to_string(),
        body_limit: "2MB".to_string(),
        cors_origins: "".to_string(),
        log_level: "info".to_string(),
    }
}

fn validation_message(r: Result<Config, ConfigError>) -> String {
    match r {
        Err(ConfigError::Validation(m)) => m,
        other => panic!("expected a validation error, got {:?}", other),
    }
}

#[test]
fn defaults_build_a_config() {
    let cfg = Config::from_settings(settings()).unwrap();
    assert_eq!(cfg.app_name, "cardio-sentinel");
    assert_eq!(cfg.http.host, HostAddr::V4([0, 0, 0, 0]));
    assert_eq!(cfg.http.port, 8080);
    assert_eq!(cfg.http.request_timeout, Span { secs: 10, nanos: 0 });
    assert_eq!(cfg.http.idle_timeout, Span { secs: 20, nanos: 0 });
    assert_eq!(cfg.http.body_limit_bytes, 2 * 1024 * 1024);
    assert!(cfg.http.allowed_origins.is_empty());
    assert_eq!(cfg.telemetry.log_level, "info");
}

#[test]
fn humantime_timeouts_are_read() {
    let mut st = settings();
    st.request_timeout = "1500ms".to_string();
    st.idle_timeout = "1m".to_string();
    let cfg = Config::from_settings(st).unwrap();
    assert_eq!(cfg.http.request_timeout, Span { secs: 1, nanos: 500_000_000 });
    assert_eq!(cfg.http.idle_timeout, Span { secs: 60, nanos: 0 });
}

#[test]
fn bad_port_is_reported() {
    let mut st = settings();
    st.port = "abc".to_string();
    assert!(matches!(Config::from_settings(st), Err(ConfigError::InvalidPort(p)) if p == "abc"));
    let mut st = settings();
    st.port = "70000".to_string();
    assert!(matches!(Config::from_settings(st), Err(ConfigError::InvalidPort(p)) if p == "70000"));
}

#[test]
fn bad_durations_are_reported() {
    let mut st = settings();
    st.request_timeout = "soon".to_string();
    assert!(matches!(
        Config::from_settings(st),
        Err(ConfigError::InvalidDuration("HTTP_REQUEST_TIMEOUT", raw)) if raw == "soon"
    ));
    let mut st = settings();
    st.idle_timeout = "10 parsecs".to_string();
    assert!(matches!(
        Config::from_settings(st),
        Err(ConfigError::InvalidDuration("HTTP_IDLE_TIMEOUT", raw)) if raw == "10 parsecs"
    ));
}

#[test]
fn bad_body_limit_is_reported() {
    let mut st = settings();
    st.body_limit = "lots".to_string();
    assert!(matches!(Config::from_settings(st), Err(ConfigError::InvalidBodyLimit(raw)) if raw == "lots"));
}

#[test]
fn first_unreadable_value_wins() {
    let mut st = settings();
    st.port = "x".to_string();
    st.request_timeout = "y".to_string();
    st.body_limit = "z".to_string();
    assert!(matches!(Config::from_settings(st), Err(ConfigError::InvalidPort(_))));
}

#[test]
fn ranges_are_checked() {
    let mut st = settings();
    st.port = "0".to_string();
    assert_eq!(validation_message(Config::from_settings(st)), "HTTP_PORT must be > 0");

    let mut st = settings();
    st.request_timeout = "50ms".to_string();
    assert_eq!(
        validation_message(Config::from_settings(st)),
        "HTTP_REQUEST_TIMEOUT must be between 100ms and 120s"
    );

    let mut st = settings();
    st.request_timeout = "121s".to_string();
    assert_eq!(
        validation_message(Config::from_settings(st)),
        "HTTP_REQUEST_TIMEOUT must be between 100ms and 120s"
    );

    let mut st = settings();
    st.idle_timeout = "500ms".to_string();
    assert_eq!(
        validation_message(Config::from_settings(st)),
        "HTTP_IDLE_TIMEOUT must be between 1s and 300s"
    );

    let mut st = settings();
    st.body_limit = "1kb".to_string();
    assert_eq!(
        validation_message(Config::from_settings(st)),
        "HTTP_BODY_LIMIT must be between 8KB and 32MB"
    );

    let mut st = settings();
    st.body_limit = "33mb".to_string();
    assert_eq!(
        validation_message(Config::from_settings(st)),
        "HTTP_BODY_LIMIT must be between 8KB and 32MB"
    );
}

#[test]
fn range_bounds_are_inclusive() {
    let mut st = settings();
    st.request_timeout = "100ms".to_string();
    st.idle_timeout = "300s".to_string();
    st.body_limit = "8kb".to_string();
    assert!(Config::from_settings(st).is_ok());
    let mut st = settings();
    st.request_timeout = "120s".to_string();
    st.idle_timeout = "1s".to_string();
    st.body_limit = "32mb".to_string();
    assert!(Config::from_settings(st).is_ok());
}

#[test]
fn from_parts_uses_given_timeouts() {
    let cfg = Config::from_parts(
        settings(),
        Some(Span::from_millis(250)),
        Some(Span::from_secs(5)),
    )
    .unwrap();
    assert_eq!(cfg.http.request_timeout, Span { secs: 0, nanos: 250_000_000 });
    assert_eq!(cfg.http.idle_timeout, Span { secs: 5, nanos: 0 });
    assert!(matches!(
        Config::from_parts(settings(), None, Some(Span::from_secs(5))),
        Err(ConfigError::InvalidDuration("HTTP_REQUEST_TIMEOUT", _))
    ));
}

#[test]
fn validate_checks_a_built_config() {
    let mut cfg = Config::from_settings(settings()).unwrap();
    assert!(cfg.validate().is_ok());
    cfg.http.port = 0;
    assert!(matches!(cfg.validate(), Err(ConfigError::Validation(m)) if m == "HTTP_PORT must be > 0"));
}

#[test]
fn origins_are_split_and_trimmed() {
    assert_eq!(
        split_origins(" https://a.example , ,https://b.example,"),
        vec!["https://a.example".to_string(), "https://b.example".to_string()]
    );
    assert!(split_origins("").is_empty());
    assert!(split_origins(" , ").is_empty());
    assert_eq!(split_origins("*"), vec!["*".to_string()]);
    let mut st = settings();
    st.cors_origins = "https://a.example,*".to_string();
    let cfg = Config::from_settings(st).unwrap();
    assert_eq!(cfg.http.allowed_origins, vec!["https://a.example".to_string(), "*".to_string()]);
}

#[test]
fn spans_compare_by_length() {
    assert!(Span::from_millis(999).shorter_than(&Span::from_secs(1)));
    assert!(!Span::from_millis(1000).shorter_than(&Span::from_secs(1)));
    assert_eq!(Span::from_millis(1500), Span { secs: 1, nanos: 500_000_000 });
}

#[test]
fn duration_texts_with_too_many_digits_are_refused() {
    let mut st = settings();
    st.request_timeout = "18446744073709551615s 1000000000ns".to_string();
    assert!(matches!(
        Config::from_settings(st),
        Err(ConfigError::InvalidDuration("HTTP_REQUEST_TIMEOUT", raw))
            if raw == "18446744073709551615s 1000000000ns"
    ));
    let mut st = settings();
    st.idle_timeout = "120000000000ns".to_string();
    assert!(matches!(
        Config::from_settings(st),
        Err(ConfigError::InvalidDuration("HTTP_IDLE_TIMEOUT", _))
    ));
    let mut st = settings();
    st.request_timeout = "12000000000ns".to_string();
    assert_eq!(Config::from_settings(st).unwrap().http.request_timeout, Span { secs: 12, nanos: 0 });
}
