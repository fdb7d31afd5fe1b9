use service_shell::pipeline::{pipeline_layers, route_label, run_pipeline, Layer};

#[test]
fn layers_run_in_declared_order() {
    assert_eq!(
        pipeline_layers(),
        vec![
            Layer::Trace,
            Layer::SetRequestId,
            Layer::PropagateRequestId,
            Layer::Metrics,
            Layer::Compression,
            Layer::BodyLimit,
            Layer::Cors,
        ]
    );
}

#[test]
fn oversized_body_is_rejected_before_the_handler() {
    let fresh = "generated-id".to_string();
    let o = run_pipeline(&pipeline_layers(), 2048, None, &fresh, 1024, 200);
    assert_eq!(o.status, 413);
    assert!(!o.handler_ran);
    assert_eq!(o.recorded, Some(413));
    assert_eq!(o.request_id, Some(fresh));
}

#[test]
fn body_at_the_limit_reaches_the_handler() {
    let fresh = "generated-id".to_string();
    let o = run_pipeline(&pipeline_layers(), 1024, None, &fresh, 1024, 200);
    assert_eq!(o.status, 200);
    assert!(o.handler_ran);
    assert_eq!(o.recorded, Some(200));
}

#[test]
fn supplied_request_id_comes_back_unchanged() {
    let fresh = "generated-id".to_string();
    let o = run_pipeline(&pipeline_layers(), 0, Some("abc-123".to_string()), &fresh, 1024, 404);
    assert_eq!(o.request_id, Some("abc-123".to_string()));
    assert_eq!(o.status, 404);
}

#[test]
fn missing_request_id_is_generated() {
    let fresh = "generated-id".to_string();
    let o = run_pipeline(&pipeline_layers(), 0, None, &fresh, 1024, 200);
    assert_eq!(o.request_id, Some("generated-id".to_string()));
}

#[test]
fn limit_outside_metrics_is_not_recorded() {
    let layers = vec![Layer::BodyLimit, Layer::Metrics];
    let fresh = "id".to_string();
    let o = run_pipeline(&layers, 10, None, &fresh, 5, 200);
    assert_eq!(o.status, 413);
    assert_eq!(o.recorded, None);
    assert_eq!(o.request_id, None);
}

#[test]
fn route_label_falls_back_to_path() {
    assert_eq!(route_label(Some("/readyz".to_string()), "/readyz".to_string()), "/readyz");
    assert_eq!(route_label(None, "/nope".to_string()), "/nope");
}
