use diecast::binding::Bind;
use diecast::configuration::Configuration;
use diecast::handle::{Handle, Result};
use diecast::item::Route;
use diecast::manager::{BuildError, Manager};
use diecast::pattern::PathPattern;
use diecast::rule::{Kind, Rule};
use diecast::site::Site;
use std::sync::{Arc, Mutex};

type Log = Arc<Mutex<Vec<String>>>;
type Seen = Arc<Mutex<Vec<(String, Vec<(String, Arc<Bind>)>)>>>;

/// Logs its rule's name and the dependency binds it was handed.
struct Record {
    name: String,
    log: Log,
    seen: Seen,
}

impl Handle<Bind> for Record {
    fn handle(&self, bind: &mut Bind) -> Result {
        self.log.lock().unwrap().push(self.name.clone());
        self.seen.lock().unwrap().push((self.name.clone(), bind.data().dependencies.clone()));
        Ok(())
    }
}

fn configuration() -> Arc<Configuration> {
    Arc::new(Configuration::new("input".to_string(), "output".to_string()))
}

fn rule(name: &str, kind: Kind, deps: &[&str], log: &Log, seen: &Seen) -> Rule<Record> {
    let mut r = Rule::new(
        name.to_string(),
        kind,
        Record { name: name.to_string(), log: log.clone(), seen: seen.clone() },
    );
    for d in deps {
        r = r.depends_on(d.to_string());
    }
    r
}

fn new_log() -> (Log, Seen) {
    (Arc::new(Mutex::new(Vec::new())), Arc::new(Mutex::new(Vec::new())))
}

fn pos(log: &[String], name: &str) -> usize {
    log.iter().position(|n| n == name).unwrap()
}

fn diamond(a_kind: Kind, log: &Log, seen: &Seen) -> Manager<Record> {
    let mut m = Manager::new(configuration());
    m.add(rule("A", a_kind, &[], log, seen));
    m.add(rule("B", Kind::Creating, &["A"], log, seen));
    m.add(rule("C", Kind::Creating, &["A"], log, seen));
    m.add(rule("D", Kind::Creating, &["B", "C"], log, seen));
    m
}

#[test]
fn linear_dependency() {
    let (log, seen) = new_log();
    let mut m = Manager::new(configuration());
    m.add(rule("C", Kind::Creating, &["B"], &log, &seen));
    m.add(rule("A", Kind::Creating, &[], &log, &seen));
    m.add(rule("B", Kind::Creating, &["A"], &log, &seen));
    assert!(m.build().is_ok());
    assert_eq!(*log.lock().unwrap(), vec!["A", "B", "C"]);
    for name in ["A", "B", "C"] {
        assert!(m.finished(&name.to_string()).is_some());
    }
}

#[test]
fn diamond_runs_each_once_in_order() {
    let (log, seen) = new_log();
    let mut m = diamond(Kind::Creating, &log, &seen);
    assert!(m.build().is_ok());
    let log = log.lock().unwrap().clone();
    assert_eq!(log.len(), 4);
    for name in ["A", "B", "C", "D"] {
        assert_eq!(log.iter().filter(|n| *n == name).count(), 1);
    }
    assert!(pos(&log, "A") < pos(&log, "B"));
    assert!(pos(&log, "A") < pos(&log, "C"));
    assert!(pos(&log, "B") < pos(&log, "D"));
    assert!(pos(&log, "C") < pos(&log, "D"));
}

#[test]
fn handlers_see_the_finished_binds_of_their_dependencies() {
    let (log, seen) = new_log();
    let mut m = diamond(Kind::Creating, &log, &seen);
    assert!(m.build().is_ok());
    for (name, deps) in seen.lock().unwrap().iter() {
        let expected: Vec<&str> = match name.as_str() {
            "A" => vec![],
            "B" | "C" => vec!["A"],
            _ => vec!["B", "C"],
        };
        let names: Vec<&str> = deps.iter().map(|(n, _)| n.as_str()).collect();
        assert_eq!(names, expected);
        for (dep, bind) in deps {
            assert!(Arc::ptr_eq(bind, &m.finished(dep).unwrap()));
        }
    }
    let d = m.finished(&"D".to_string()).unwrap();
    let b = d.data().dependency(&"B".to_string()).unwrap();
    assert!(Arc::ptr_eq(&b, &m.finished(&"B".to_string()).unwrap()));
    assert!(d.data().dependency(&"A".to_string()).is_none());
}

#[test]
fn cycle_is_reported() {
    let (log, seen) = new_log();
    let mut m = Manager::new(configuration());
    m.add(rule("A", Kind::Creating, &["B"], &log, &seen));
    m.add(rule("B", Kind::Creating, &["A"], &log, &seen));
    match m.build() {
        Err(BuildError::Cycle(path)) => {
            assert!(path.contains(&"A".to_string()));
            assert!(path.contains(&"B".to_string()));
            assert_eq!(path.first(), path.last());
        },
        _ => panic!("expected a cycle"),
    }
    assert!(log.lock().unwrap().is_empty());
}

#[test]
fn missing_dependency_is_refused_at_registration() {
    let (log, seen) = new_log();
    let rules = vec![rule("X", Kind::Creating, &["nope"], &log, &seen)];
    match Site::new(rules, Configuration::new("input".to_string(), "output".to_string())) {
        Err(BuildError::MissingDependency { rule, missing }) => {
            assert_eq!(rule, "X");
            assert_eq!(missing, vec!["nope".to_string()]);
        },
        _ => panic!("expected a missing dependency"),
    }
}

#[test]
fn missing_dependency_stops_a_build() {
    let (log, seen) = new_log();
    let mut m = Manager::new(configuration());
    m.add(rule("X", Kind::Creating, &["nope"], &log, &seen));
    assert!(matches!(m.build(), Err(BuildError::MissingDependency { .. })));
}

#[test]
fn site_builds_registered_rules() {
    let (log, seen) = new_log();
    let rules = vec![
        rule("B", Kind::Creating, &["A"], &log, &seen),
        rule("A", Kind::Creating, &[], &log, &seen),
    ];
    let mut site = Site::new(rules, Configuration::new("input".to_string(), "output".to_string())).ok().unwrap();
    assert!(site.build(Vec::new()).is_ok());
    assert_eq!(*log.lock().unwrap(), vec!["A", "B"]);
    assert!(site.manager().finished(&"B".to_string()).is_some());
}

#[test]
fn matching_rule_population() {
    let (log, seen) = new_log();
    let mut m = Manager::new(configuration());
    m.update_paths(vec!["posts/a.md".to_string(), "posts/b.md".to_string(), "other.md".to_string()]);
    let pattern = PathPattern::new("posts/*.md").ok().unwrap();
    m.add(rule("posts", Kind::Matching(pattern), &[], &log, &seen));
    assert!(m.build().is_ok());
    let bind = m.finished(&"posts".to_string()).unwrap();
    assert_eq!(bind.items().len(), 2);
    let routes: Vec<String> = bind
        .items()
        .iter()
        .map(|i| match &i.route {
            Route::Read(p) => p.clone(),
            _ => panic!("expected a read"),
        })
        .collect();
    assert_eq!(routes, vec!["posts/a.md".to_string(), "posts/b.md".to_string()]);
}

#[test]
fn incremental_update_reruns_the_affected_rules() {
    let (log, seen) = new_log();
    let pattern = PathPattern::new("a/*.md").ok().unwrap();
    let mut m = diamond(Kind::Matching(pattern), &log, &seen);
    m.add(rule("E", Kind::Creating, &[], &log, &seen));
    m.update_paths(vec!["a/x.md".to_string(), "a/y.md".to_string()]);
    assert!(m.build().is_ok());
    let e_before = m.finished(&"E".to_string()).unwrap();
    log.lock().unwrap().clear();
    seen.lock().unwrap().clear();

    assert_eq!(m.update(&vec!["a/x.md".to_string()]).ok(), Some(4));
    let rerun = log.lock().unwrap().clone();
    assert_eq!(rerun.len(), 4);
    assert_eq!(rerun[0], "A");
    assert_eq!(rerun[3], "D");
    assert!(!rerun.contains(&"E".to_string()));
    assert!(Arc::ptr_eq(&e_before, &m.finished(&"E".to_string()).unwrap()));
    for (_, deps) in seen.lock().unwrap().iter() {
        for (dep, bind) in deps {
            assert!(Arc::ptr_eq(bind, &m.finished(dep).unwrap()));
        }
    }
    let a = m.finished(&"A".to_string()).unwrap();
    assert_eq!(a.items().len(), 2);
    assert!(!a.is_partial());
}

#[test]
fn update_without_matches_runs_nothing() {
    let (log, seen) = new_log();
    let pattern = PathPattern::new("a/*.md").ok().unwrap();
    let mut m = diamond(Kind::Matching(pattern), &log, &seen);
    m.update_paths(vec!["a/x.md".to_string()]);
    assert!(m.build().is_ok());
    log.lock().unwrap().clear();
    assert_eq!(m.update(&Vec::new()).ok(), Some(0));
    assert_eq!(m.update(&vec!["unrelated.txt".to_string()]).ok(), Some(0));
    assert!(log.lock().unwrap().is_empty());
}

#[test]
fn invalid_pattern_is_refused() {
    assert!(PathPattern::new("a/[").is_err());
    let p = PathPattern::new("*.md").ok().unwrap();
    assert!(p.matches("x.md"));
    assert!(!p.matches("x.txt"));
    assert_eq!(p.as_str(), "*.md");
}

#[test]
fn step_by_step_run_hands_out_ready_jobs() {
    let (log, seen) = new_log();
    let mut m = diamond(Kind::Creating, &log, &seen);
    let mut ready = m.start().ok().unwrap();
    let mut handed: Vec<String> = Vec::new();
    assert_eq!(ready.len(), 1);
    let stray = Bind::new(Vec::new(), Arc::new(diecast::binding::Data::new("x".to_string(), configuration())));
    assert!(matches!(m.complete(7, stray), Err(BuildError::NotDispatched { position: 7 })));
    while let Some((position, mut job)) = ready.pop() {
        handed.push(job.bind_data.name.clone());
        assert!(job.process().is_ok());
        let bind = job.bind.take().unwrap();
        ready.extend(m.complete(position, bind).ok().unwrap());
    }
    assert_eq!(handed.len(), 4);
    assert_eq!(handed[0], "A");
    assert_eq!(handed[3], "D");
    for name in ["A", "B", "C", "D"] {
        assert!(m.finished(&name.to_string()).is_some());
    }
}

/// Fails on every bind.
struct Refuse;

impl Handle<Bind> for Refuse {
    fn handle(&self, _bind: &mut Bind) -> Result {
        Err(diecast::handle::Error::new("refused".to_string()))
    }
}

#[test]
fn failing_handler_stops_the_build() {
    let mut m = Manager::new(configuration());
    m.add(Rule::new("bad".to_string(), Kind::Creating, Refuse));
    match m.build() {
        Err(BuildError::Failed { rule, error }) => {
            assert_eq!(rule, "bad");
            assert_eq!(error.message, "refused");
        },
        _ => panic!("expected a failure"),
    }
    assert!(m.finished(&"bad".to_string()).is_none());
}

#[test]
fn empty_manager_builds_nothing() {
    let mut m: Manager<Refuse> = Manager::new(configuration());
    assert!(m.build().is_ok());
    assert_eq!(m.rule_count(), 0);
    assert!(m.update(&vec!["a".to_string()]).ok() == Some(0));
}

#[test]
fn update_refuses_a_rule_never_built() {
    let (log, seen) = new_log();
    let pattern = PathPattern::new("a/*.md").ok().unwrap();
    let mut m = Manager::new(configuration());
    m.add(rule("A", Kind::Matching(pattern), &[], &log, &seen));
    m.update_paths(vec!["a/x.md".to_string()]);
    assert!(m.build().is_ok());
    m.add(rule("late", Kind::Creating, &[], &log, &seen));
    match m.update(&vec!["a/x.md".to_string()]) {
        Err(BuildError::NotBuilt { rule }) => assert_eq!(rule, "late"),
        _ => panic!("expected a rule that was never built"),
    }
}
