use service_shell::cors::{make_cors_policy, origin_allowed, CorsPolicy};

#[test]
fn wildcard_is_permissive() {
    let plan = make_cors_policy(&vec!["*".to_string()]);
    assert!(matches!(plan.policy, CorsPolicy::Permissive));
    assert!(plan.ignored.is_empty());
    assert!(origin_allowed(&plan.policy, "https://anything.example"));
    assert!(origin_allowed(&plan.policy, "http://localhost:3000"));
}

#[test]
fn wildcard_among_others_is_permissive() {
    let plan = make_cors_policy(&vec!["https://a.example".to_string(), "*".to_string()]);
    assert!(matches!(plan.policy, CorsPolicy::Permissive));
}

#[test]
fn allow_list_grants_listed_origins_only() {
    let plan = make_cors_policy(&vec!["https://a.example".to_string()]);
    assert!(origin_allowed(&plan.policy, "https://a.example"));
    assert!(!origin_allowed(&plan.policy, "https://b.example"));
}

#[test]
fn invalid_origins_are_dropped() {
    let plan = make_cors_policy(&vec![
        "https://a.example".to_string(),
        "bad\u{7f}origin".to_string(),
        "line\nbreak".to_string(),
        "tab\tok".to_string(),
    ]);
    match &plan.policy {
        CorsPolicy::AllowList(l) => {
            assert_eq!(l, &vec!["https://a.example".to_string(), "tab\tok".to_string()])
        }
        CorsPolicy::Permissive => panic!("expected an allow-list"),
    }
    assert_eq!(plan.ignored, vec!["bad\u{7f}origin".to_string(), "line\nbreak".to_string()]);
    assert!(!origin_allowed(&plan.policy, "line\nbreak"));
}

#[test]
fn empty_configuration_grants_nothing() {
    let plan = make_cors_policy(&Vec::new());
    assert!(!origin_allowed(&plan.policy, "https://a.example"));
}
