use dormant::container::{Dependency, ManagedContainer};
use dormant::dependencies::stop_chain;
use dormant::levels::{dependency_levels_multi, find_id, resolve_deps_logged};
use dormant::time::Duration;

fn make_container(
    id: &str,
    service: &str,
    project: &str,
    depends_on: Vec<Dependency>,
) -> ManagedContainer {
    ManagedContainer {
        id: id.to_string(),
        name: format!("/{}-{}", project, service),
        port: Some(8000),
        tcp_expose: Vec::new(),
        group: None,
        session_duration: Duration::from_secs(3600),
        startup_timeout: Duration::from_secs(180),
        healthcheck_path: None,
        healthcheck_port: None,
        healthcheck_status: None,
        routes: Vec::new(),
        aliases: Vec::new(),
        ip: Some("172.20.0.99".to_string()),
        running: false,
        created: None,
        depends_on,
        compose_project: Some(project.to_string()),
        compose_service: Some(service.to_string()),
        always_on: false,
    }
}

fn dep(service: &str, condition: &str) -> Dependency {
    Dependency {
        service: service.to_string(),
        condition: condition.to_string(),
    }
}

#[test]
fn test_dependency_levels_simple() {
    let db = make_container("db", "db", "proj", vec![]);
    let app = make_container("app", "app", "proj", vec![dep("db", "service_started")]);
    let containers = vec![db.clone(), app.clone()];
    let levels = dependency_levels_multi(std::slice::from_ref(&app), &containers, 10);
    assert_eq!(levels.len(), 2);
    assert_eq!(levels[0][0].0.id, "db");
    assert_eq!(levels[1][0].0.id, "app");
    let app2 = make_container("app", "app", "proj", vec![dep("db", "service_healthy")]);
    let containers2 = vec![db.clone(), app2.clone()];
    let levels = dependency_levels_multi(std::slice::from_ref(&app2), &containers2, 10);
    assert_eq!(levels[0][0].1.as_deref(), Some("service_healthy"));
}

#[test]
fn test_dependency_levels_recursive() {
    let base = make_container("base", "base", "proj", vec![]);
    let mid = make_container("mid", "mid", "proj", vec![dep("base", "service_started")]);
    let app = make_container("app", "app", "proj", vec![dep("mid", "service_started")]);
    let containers = vec![base.clone(), mid.clone(), app.clone()];
    let levels = dependency_levels_multi(std::slice::from_ref(&app), &containers, 10);
    assert_eq!(levels.len(), 3);
    assert_eq!(levels[0][0].0.id, "base");
    assert_eq!(levels[1][0].0.id, "mid");
    assert_eq!(levels[2][0].0.id, "app");
}

#[test]
fn test_dependency_levels_missing_dep() {
    let app = make_container("app", "app", "proj", vec![dep("nonexistent", "service_started")]);
    let containers = vec![app.clone()];
    let levels = dependency_levels_multi(std::slice::from_ref(&app), &containers, 10);
    assert_eq!(levels.len(), 1);
    assert_eq!(levels[0][0].0.id, "app");
}

#[test]
fn test_dependency_levels_circular() {
    let a = make_container("a", "a", "proj", vec![dep("b", "service_started")]);
    let b = make_container("b", "b", "proj", vec![dep("a", "service_started")]);
    let containers = vec![a.clone(), b];
    let levels = dependency_levels_multi(std::slice::from_ref(&a), &containers, 3);
    assert!(levels.len() <= 4);
}

#[test]
fn test_stop_chain_recursive() {
    let c = make_container("c", "c", "proj", vec![]);
    let b = make_container("b", "b", "proj", vec![dep("c", "service_started")]);
    let a = make_container("a", "a", "proj", vec![dep("b", "service_started")]);
    let chain = stop_chain(&a, &[a.clone(), b.clone(), c.clone()], 10);
    assert_eq!(chain.len(), 3);
    let ids: Vec<_> = chain.iter().map(|x| x.id.as_str()).collect();
    assert!(ids.contains(&"a") && ids.contains(&"b") && ids.contains(&"c"));
}

#[test]
fn test_stop_chain_circular_depth_limit() {
    let a = make_container("a", "a", "proj", vec![dep("b", "service_started")]);
    let b = make_container("b", "b", "proj", vec![dep("a", "service_started")]);
    let chain = stop_chain(&a, &[a.clone(), b.clone()], 10);
    assert_eq!(chain.len(), 2);
}

#[test]
fn test_stop_chain_ignores_unmanaged() {
    let c = make_container("c", "c", "proj", vec![]);
    let other = make_container("other", "db", "other-proj", vec![]);
    let a = make_container("a", "a", "proj", vec![dep("db", "service_started")]);
    let chain = stop_chain(&a, &[a.clone(), c, other], 10);
    assert_eq!(chain.len(), 1);
}

#[test]
fn test_group_levels_parallel_members() {
    let db = make_container("db", "db", "proj", vec![]);
    let m1 = make_container("m1", "m1", "proj", vec![dep("db", "service_started")]);
    let m2 = make_container("m2", "m2", "proj", vec![dep("db", "service_started")]);
    let levels = dependency_levels_multi(&[m1.clone(), m2.clone()], &[db.clone(), m1, m2], 10);
    assert_eq!(levels.len(), 2);
    assert_eq!(levels[0].len(), 1);
    assert_eq!(levels[1].len(), 2);
}

fn ids(level: &[(ManagedContainer, Option<String>)]) -> Vec<&str> {
    level.iter().map(|(c, _)| c.id.as_str()).collect()
}

#[test]
fn stop_chain_follows_the_last_dependency_first_and_lists_each_once() {
    let d = make_container("d", "d", "proj", vec![]);
    let b = make_container("b", "b", "proj", vec![dep("d", "service_started")]);
    let c = make_container("c", "c", "proj", vec![dep("d", "service_started")]);
    let a = make_container(
        "a",
        "a",
        "proj",
        vec![dep("b", "service_started"), dep("c", "service_started")],
    );
    let chain = stop_chain(&a, &[a.clone(), b, c, d], 10);
    let found: Vec<&str> = chain.iter().map(|x| x.id.as_str()).collect();
    assert_eq!(found, vec!["a", "b", "c", "d"]);
}

#[test]
fn stop_chain_ends_at_the_depth() {
    let c = make_container("c", "c", "proj", vec![]);
    let b = make_container("b", "b", "proj", vec![dep("c", "service_started")]);
    let a = make_container("a", "a", "proj", vec![dep("b", "service_started")]);
    let all = [a.clone(), b, c];
    assert_eq!(stop_chain(&a, &all, 0).len(), 1);
    assert_eq!(stop_chain(&a, &all, 1).len(), 2);
    assert_eq!(stop_chain(&a, &all, 2).len(), 3);
}

#[test]
fn levels_end_at_the_depth() {
    let c = make_container("c", "c", "proj", vec![]);
    let b = make_container("b", "b", "proj", vec![dep("c", "service_started")]);
    let a = make_container("a", "a", "proj", vec![dep("b", "service_started")]);
    let all = [a.clone(), b, c];
    assert_eq!(dependency_levels_multi(&[a.clone()], &all, 0).len(), 1);
    let levels = dependency_levels_multi(&[a.clone()], &all, 1);
    assert_eq!(levels.len(), 2);
    assert_eq!(ids(&levels[0]), vec!["b"]);
    assert_eq!(ids(&levels[1]), vec!["a"]);
}

#[test]
fn a_shared_dependency_stands_before_all_that_need_it() {
    let c = make_container("c", "c", "proj", vec![]);
    let b = make_container("b", "b", "proj", vec![dep("c", "service_healthy")]);
    let a = make_container(
        "a",
        "a",
        "proj",
        vec![dep("b", "service_started"), dep("c", "service_started")],
    );
    let levels = dependency_levels_multi(&[a.clone()], &[a, b, c], 10);
    assert_eq!(levels.len(), 3);
    assert_eq!(ids(&levels[0]), vec!["c"]);
    assert_eq!(ids(&levels[1]), vec!["b"]);
    assert_eq!(ids(&levels[2]), vec!["a"]);
    assert_eq!(levels[0][0].1.as_deref(), Some("service_started"));
    assert_eq!(levels[2][0].1, None);
}

#[test]
fn members_stand_as_late_as_they_can() {
    let s = "service_started";
    let base = make_container("base", "base", "proj", vec![]);
    let left = make_container("left", "left", "proj", vec![dep("base", s)]);
    let right = make_container("right", "right", "proj", vec![]);
    let app = make_container("app", "app", "proj", vec![dep("left", s), dep("right", s)]);
    let all = [base, left, right, app.clone()];
    let levels = dependency_levels_multi(&[app], &all, 10);
    assert_eq!(levels.len(), 3);
    assert_eq!(ids(&levels[0]), vec!["base"]);
    assert_eq!(ids(&levels[1]), vec!["left", "right"]);
    assert_eq!(ids(&levels[2]), vec!["app"]);
}

#[test]
fn targets_that_need_each_other_stand_in_order() {
    let s = "service_started";
    let db = make_container("db", "db", "proj", vec![]);
    let web = make_container("web", "web", "proj", vec![dep("db", s)]);
    let levels = dependency_levels_multi(&[web.clone(), db.clone()], &[web, db], 10);
    assert_eq!(levels.len(), 2);
    assert_eq!(ids(&levels[0]), vec!["db"]);
    assert_eq!(ids(&levels[1]), vec!["web"]);
}

#[test]
fn a_circle_does_not_hold_up_the_rest() {
    let s = "service_started";
    let a = make_container("a", "a", "proj", vec![dep("b", s)]);
    let b = make_container("b", "b", "proj", vec![dep("c", s)]);
    let c = make_container("c", "c", "proj", vec![dep("b", s), dep("d", s)]);
    let d = make_container("d", "d", "proj", vec![]);
    let levels = dependency_levels_multi(&[a.clone()], &[a, b, c, d], 10);
    assert_eq!(levels.len(), 4);
    assert_eq!(ids(&levels[0]), vec!["d"]);
    assert_eq!(ids(&levels[1]), vec!["c"]);
    assert_eq!(ids(&levels[2]), vec!["b"]);
    assert_eq!(ids(&levels[3]), vec!["a"]);
}

#[test]
fn a_container_that_needs_itself_is_started_once() {
    let a = make_container("a", "a", "proj", vec![dep("a", "service_started")]);
    let levels = dependency_levels_multi(&[a.clone()], &[a], 10);
    assert_eq!(levels.len(), 1);
    assert_eq!(ids(&levels[0]), vec!["a"]);
}

#[test]
fn targets_that_are_not_listed_are_left_out() {
    let a = make_container("a", "a", "proj", vec![]);
    let levels = dependency_levels_multi(&[a.clone()], &[], 10);
    assert_eq!(levels.len(), 1);
    assert!(levels[0].is_empty());
    let none = dependency_levels_multi(&[], &[a.clone()], 10);
    assert_eq!(none.len(), 1);
    assert!(none[0].is_empty());
    let twice = dependency_levels_multi(&[a.clone(), a.clone()], &[a], 10);
    assert_eq!(ids(&twice[0]), vec!["a"]);
}

#[test]
fn missing_services_are_named() {
    let b = make_container("b", "b", "proj", vec![]);
    let a = make_container(
        "a",
        "a",
        "proj",
        vec![dep("b", "service_started"), dep("x", "service_started")],
    );
    let (found, lost) = resolve_deps_logged(&a, &[a.clone(), b.clone()]);
    assert_eq!(found.len(), 1);
    assert_eq!(found[0].id, "b");
    assert_eq!(lost, vec!["x"]);
    assert_eq!(find_id(&[a, b], "b"), Some(1));
    assert_eq!(find_id(&[], "b"), None);
}
