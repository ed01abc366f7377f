use balancer::environment::Environment;
use balancer::worker::{
    health_body, multiplier_from_field, not_found_body, route_worker, setup_from_fields,
    setup_tunables, work_done_body, work_outcome, work_request, Tunables, WorkerRoute,
};

#[test]
fn worker_routes_by_method_and_path() {
    assert_eq!(route_worker("GET", "/health"), WorkerRoute::Health);
    assert_eq!(route_worker("POST", "/setup"), WorkerRoute::Setup);
    assert_eq!(route_worker("POST", "/work"), WorkerRoute::Work);
    assert_eq!(route_worker("POST", "/health"), WorkerRoute::NotFound);
    assert_eq!(route_worker("GET", "/work"), WorkerRoute::NotFound);
    assert_eq!(route_worker("GET", "/"), WorkerRoute::NotFound);
    assert_eq!(route_worker("DELETE", "/setup"), WorkerRoute::NotFound);
}

#[test]
fn fixed_bodies() {
    assert_eq!(health_body(), "OK");
    assert_eq!(work_done_body(), "Work done");
    assert_eq!(not_found_body(), "Not Found");
}

#[test]
fn default_tunables_are_in_order() {
    let t = Tunables::default();
    assert_eq!(t.min_duration, 10);
    assert_eq!(t.max_duration, 10);
    assert_eq!(t.error_rate_ppm, 0);
}

#[test]
fn setup_with_inverted_bounds_raises_the_maximum() {
    // min above max: the maximum is lifted to the minimum, the rate
    // above one is clamped to one, and nothing is rejected.
    let (t, msg) = setup_from_fields(Some("100"), Some("50"), Some("2.0"));
    assert_eq!(t.min_duration, 100);
    assert_eq!(t.max_duration, 100);
    assert_eq!(t.error_rate_ppm, 1000000);
    assert!(t.min_duration <= t.max_duration);
    assert_eq!(
        msg,
        "Setup done with min_duration: 100, max_duration: 100, error_rate: 1"
    );
}

#[test]
fn setup_applies_defaults_for_absent_fields() {
    let (t, msg) = setup_tunables("{}");
    assert_eq!(t.min_duration, 10);
    assert_eq!(t.max_duration, 10);
    assert_eq!(t.error_rate_ppm, 0);
    assert_eq!(msg, "Setup done with min_duration: 10, max_duration: 10, error_rate: 0");
}

#[test]
fn setup_applies_defaults_for_unparsable_fields() {
    let (t, _) = setup_from_fields(Some("abc"), None, Some("wild"));
    assert_eq!(t.min_duration, 10);
    assert_eq!(t.max_duration, 10);
    assert_eq!(t.error_rate_ppm, 0);
}

#[test]
fn setup_reads_stringified_numbers() {
    let (t, msg) = setup_tunables(
        "{\"min_duration\":\"1000\",\"max_duration\":\"2000\",\"error_rate\":\"0.33\"}",
    );
    assert_eq!(t.min_duration, 1000);
    assert_eq!(t.max_duration, 2000);
    assert_eq!(t.error_rate_ppm, 330000);
    assert_eq!(
        msg,
        "Setup done with min_duration: 1000, max_duration: 2000, error_rate: 0.33"
    );
}

#[test]
fn setup_floors_a_small_maximum() {
    let (t, _) = setup_from_fields(Some("3"), Some("5"), None);
    assert_eq!(t.min_duration, 3);
    assert_eq!(t.max_duration, 10);
}

#[test]
fn multiplier_defaults_and_clamps() {
    assert_eq!(multiplier_from_field(None), 1);
    assert_eq!(multiplier_from_field(Some("abc")), 1);
    assert_eq!(multiplier_from_field(Some("0")), 1);
    assert_eq!(multiplier_from_field(Some("5")), 5);
    assert_eq!(multiplier_from_field(Some("10")), 10);
    assert_eq!(multiplier_from_field(Some("99")), 10);
}

#[test]
fn work_outcome_scales_and_draws() {
    let t = Tunables { min_duration: 5, max_duration: 10, error_rate_ppm: 0 };
    let (sleep, status) = work_outcome(2, 7, 0, t);
    assert_eq!(sleep, 14);
    assert_eq!(status, 200);
    let t = Tunables { min_duration: 5, max_duration: 10, error_rate_ppm: 1000000 };
    let (_, status) = work_outcome(1, 5, 999999, t);
    assert_eq!(status, 500);
    // The Bernoulli boundary: a draw just under the rate fails, at the
    // rate it succeeds.
    let t = Tunables { min_duration: 1, max_duration: 1, error_rate_ppm: 330000 };
    let (_, status) = work_outcome(1, 1, 329999, t);
    assert_eq!(status, 500);
    let (_, status) = work_outcome(1, 1, 330000, t);
    assert_eq!(status, 200);
}

#[test]
fn work_request_respects_latency_bounds() {
    let t = Tunables { min_duration: 3, max_duration: 9, error_rate_ppm: 0 };
    for _ in 0..50 {
        let (sleep, status) = work_request("{\"multiplier\":\"10\"}", &t);
        assert!(sleep >= 30 && sleep <= 90);
        assert_eq!(status, 200);
    }
}

#[test]
fn work_request_error_rate_endpoints() {
    // Rate zero never fails; rate one always fails.
    let sure = Tunables { min_duration: 1, max_duration: 1, error_rate_ppm: 0 };
    let doomed = Tunables { min_duration: 1, max_duration: 1, error_rate_ppm: 1000000 };
    for _ in 0..50 {
        let (_, status) = work_request("{}", &sure);
        assert_eq!(status, 200);
        let (_, status) = work_request("{}", &doomed);
        assert_eq!(status, 500);
    }
}

#[test]
fn environment_reads_names() {
    assert_eq!(Environment::from_name(None).unwrap(), Environment::Local);
    assert_eq!(Environment::from_name(Some("local")).unwrap(), Environment::Local);
    assert_eq!(
        Environment::from_name(Some("docker-compose")).unwrap(),
        Environment::DockerCompose
    );
    let e = Environment::from_name(Some("staging")).unwrap_err();
    assert_eq!(
        e,
        "Invalid environment staging. Valid values are 'local' or 'docker-compose'"
    );
}

#[test]
fn environment_bind_hosts() {
    assert_eq!(Environment::Local.bind_host(), "127.0.0.1");
    assert_eq!(Environment::DockerCompose.bind_host(), "0.0.0.0");
}

#[test]
fn work_request_error_rate_is_roughly_tuned() {
    // With the rate at one half, 400 draws land well inside [100, 300]
    // unless the Bernoulli wiring is broken outright.
    let t = Tunables { min_duration: 1, max_duration: 1, error_rate_ppm: 500000 };
    let mut failures: u32 = 0;
    for _ in 0..400 {
        let (_, status) = work_request("{}", &t);
        if status == 500 {
            failures += 1;
        }
    }
    assert!(failures > 100 && failures < 300);
}
