#![allow(non_snake_case)]

use dormant::container::{Dependency, ManagedContainer};
use dormant::idle::{idle_round, idle_round_step, idle_stops, IdleAction, IdleEvent, IdleState};
use dormant::sessions::Sessions;
use dormant::time::Duration;

fn ms(n: u64) -> Duration {
    Duration::from_millis(n)
}

#[test]
fn test_active_conn_A1_expired_excludes_active() {
    let mut sessions = Sessions::new();
    let id = "web";
    sessions.touch(id, ms(10), ms(1000));
    sessions.connect(id);
    assert!(sessions.expired(ms(1030)).is_empty());
}

#[test]
fn test_active_conn_A2_disconnect_restores_expired() {
    let mut sessions = Sessions::new();
    let id = "web";
    sessions.touch(id, ms(10), ms(1000));
    sessions.connect(id);
    sessions.disconnect(id);
    assert_eq!(sessions.expired(ms(1030)), vec![id.to_string()]);
}

#[test]
fn test_active_conn_A3_counter_and_saturating() {
    let mut sessions = Sessions::new();
    let id = "web";
    sessions.connect(id);
    sessions.connect(id);
    assert_eq!(sessions.active_count(id), 2);
    sessions.disconnect(id);
    sessions.disconnect(id);
    sessions.disconnect(id);
    assert_eq!(sessions.active_count(id), 0);
}

#[test]
fn test_active_conn_A4_no_active_expires_normally() {
    let mut sessions = Sessions::new();
    let id = "web";
    sessions.touch(id, ms(10), ms(1000));
    assert_eq!(sessions.expired(ms(1030)), vec![id.to_string()]);
}

#[test]
fn test_active_conn_A5_skip_until_zero() {
    let mut sessions = Sessions::new();
    let id = "web";
    sessions.touch(id, ms(10), ms(1000));
    sessions.connect(id);
    assert!(sessions.expired(ms(1030)).is_empty());
    sessions.disconnect(id);
    assert_eq!(sessions.expired(ms(1030)), vec![id.to_string()]);
}

#[test]
fn test_active_conn_remove_clears_active() {
    let mut sessions = Sessions::new();
    let id = "web";
    sessions.connect(id);
    sessions.remove(id);
    assert_eq!(sessions.active_count(id), 0);
}

#[test]
fn a_session_lasts_up_to_its_duration() {
    let mut sessions = Sessions::new();
    sessions.touch("web", ms(10), ms(1000));
    assert!(sessions.expired(ms(1010)).is_empty());
    assert!(sessions.is_live("web", ms(1010)));
    assert_eq!(sessions.expired(ms(1011)), vec!["web".to_string()]);
    assert!(!sessions.is_live("web", ms(1011)));
    assert!(!sessions.is_live("other", ms(1011)));
    assert!(sessions.expired(ms(5)).is_empty());
}

#[test]
fn an_access_starts_the_session_anew() {
    let mut sessions = Sessions::new();
    sessions.touch("web", ms(10), ms(1000));
    sessions.touch("web", ms(20), ms(1010));
    assert!(sessions.expired(ms(1030)).is_empty());
    assert_eq!(sessions.expired(ms(1031)), vec!["web".to_string()]);
}

#[test]
fn removing_leaves_the_others_alone() {
    let mut sessions = Sessions::new();
    sessions.touch("a", ms(10), ms(1000));
    sessions.touch("b", ms(10), ms(1000));
    sessions.connect("b");
    sessions.remove("a");
    assert_eq!(sessions.active_count("b"), 1);
    sessions.disconnect("b");
    assert_eq!(sessions.expired(ms(2000)), vec!["b".to_string()]);
}

fn container(id: &str, group: Option<&str>, needs: &[&str]) -> ManagedContainer {
    ManagedContainer {
        id: id.to_string(),
        name: format!("/{}-1", id),
        port: Some(8000),
        tcp_expose: Vec::new(),
        group: group.map(|s| s.to_string()),
        session_duration: Duration::from_secs(3600),
        startup_timeout: Duration::from_secs(180),
        healthcheck_path: None,
        healthcheck_port: None,
        healthcheck_status: None,
        routes: Vec::new(),
        aliases: Vec::new(),
        ip: None,
        running: true,
        created: None,
        depends_on: needs
            .iter()
            .map(|s| Dependency {
                service: s.to_string(),
                condition: "service_started".to_string(),
            })
            .collect(),
        compose_project: Some("proj".to_string()),
        compose_service: Some(id.to_string()),
        always_on: false,
    }
}

#[test]
fn an_expired_container_is_stopped_with_what_it_needs() {
    let all = vec![
        container("a", None, &["b"]),
        container("b", None, &["c"]),
        container("c", None, &[]),
        container("d", None, &[]),
    ];
    let mut sessions = Sessions::new();
    sessions.touch("a", ms(10), ms(1000));
    assert_eq!(idle_stops("a", &all, &sessions, ms(2000)), vec!["a", "b", "c"]);
    sessions.connect("b");
    assert_eq!(idle_stops("a", &all, &sessions, ms(2000)), vec!["a", "c"]);
}

#[test]
fn an_unknown_container_is_stopped_alone() {
    let sessions = Sessions::new();
    assert_eq!(idle_stops("x", &vec![container("a", None, &[])], &sessions, ms(1)), vec!["x"]);
}

#[test]
fn containers_that_are_always_on_are_left_running() {
    let mut a = container("a", None, &["b"]);
    let mut b = container("b", None, &[]);
    let sessions = Sessions::new();
    b.always_on = true;
    let all = vec![a.clone(), b.clone()];
    assert_eq!(idle_stops("a", &all, &sessions, ms(1)), vec!["a"]);
    a.always_on = true;
    let all = vec![a, b];
    assert!(idle_stops("a", &all, &sessions, ms(1)).is_empty());
}

#[test]
fn idle_members_of_the_group_are_stopped_along() {
    let all = vec![
        container("a", Some("g"), &[]),
        container("b", Some("g"), &["d"]),
        container("c", Some("g"), &[]),
        container("d", None, &[]),
        container("e", Some("h"), &[]),
    ];
    let mut sessions = Sessions::new();
    sessions.touch("a", ms(10), ms(1000));
    sessions.touch("c", ms(10_000), ms(1000));
    assert_eq!(idle_stops("a", &all, &sessions, ms(2000)), vec!["a", "b", "d"]);
}

#[test]
fn a_round_asks_for_every_stop_whatever_came_back() {
    let all = vec![
        container("a", None, &["b"]),
        container("b", None, &[]),
        container("c", None, &[]),
        container("d", None, &[]),
    ];
    for ok in [true, false] {
        let mut sessions = Sessions::new();
        sessions.touch("a", ms(10), ms(1000));
        sessions.touch("c", ms(10), ms(1000));
        sessions.touch("d", ms(5000), ms(1000));
        let mut asked = Vec::new();
        let (mut state, mut action) = idle_round(&all, &mut sessions, ms(2000));
        while let IdleAction::Stop(id) = action {
            if id == "b" {
                assert_eq!(sessions.expired(ms(2000)), vec!["a", "c"]);
            }
            asked.push(id);
            let next =
                idle_round_step(state, IdleEvent::Stopped(ok), &all, &mut sessions, ms(2000));
            state = next.0;
            action = next.1;
        }
        assert_eq!(asked, vec!["a", "b", "c"]);
        assert!(matches!(state, IdleState::Done));
        assert!(sessions.expired(ms(2000)).is_empty());
        assert!(sessions.is_live("d", ms(2000)));
    }
}

#[test]
fn a_round_forgets_an_id_without_anything_to_stop() {
    let mut a = container("a", None, &[]);
    a.always_on = true;
    let mut sessions = Sessions::new();
    sessions.touch("a", ms(10), ms(1000));
    let (state, action) = idle_round(&vec![a], &mut sessions, ms(2000));
    assert!(matches!(state, IdleState::Done));
    assert!(matches!(action, IdleAction::Finish));
    assert!(sessions.expired(ms(2000)).is_empty());
    let (state, action) = idle_round(&Vec::new(), &mut sessions, ms(2000));
    assert!(matches!(state, IdleState::Done));
    assert!(matches!(action, IdleAction::Finish));
}
