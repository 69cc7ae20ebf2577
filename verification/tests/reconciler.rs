use std::cell::RefCell;
use std::rc::Rc;

use dirsync::object::{Component, ComponentSpec, ObjectMeta};
use dirsync::reconcile::{ComponentFileChangeCallback, ComponentsDirectory};

fn comp(name: &str, ctype: &str) -> Component {
    Component {
        api_version: "v1alpha1".to_string(),
        kind: "Component".to_string(),
        metadata: ObjectMeta { name: name.to_string() },
        spec: ComponentSpec {
            ctype: Some(ctype.to_string()),
            config: None,
            imports: None,
            exports: None,
        },
    }
}

/// What a sink call looked like, reduced to the object names involved.
#[derive(Debug, PartialEq, Clone)]
enum Seen {
    Created(String, String),
    Updated(String, String, String, String),
    Deleted(String, String),
}

fn snap(c: &Component) -> (String, String) {
    (
        c.metadata.name.clone(),
        c.spec.ctype.clone().unwrap_or_default(),
    )
}

type SeenLog = Rc<RefCell<Vec<Seen>>>;

/// A sink that records every notification into a shared log and answers as
/// instructed; the test keeps a handle on the log while the reconciler owns
/// the sink.
struct RecordingSink {
    seen: SeenLog,
    fail_with: Option<String>,
}

impl RecordingSink {
    fn new() -> (RecordingSink, SeenLog) {
        let log: SeenLog = Rc::new(RefCell::new(Vec::new()));
        (RecordingSink { seen: log.clone(), fail_with: None }, log)
    }

    fn failing(msg: &str) -> (RecordingSink, SeenLog) {
        let log: SeenLog = Rc::new(RefCell::new(Vec::new()));
        (RecordingSink { seen: log.clone(), fail_with: Some(msg.to_string()) }, log)
    }

    fn answer(&self) -> Result<(), String> {
        match &self.fail_with {
            Some(m) => Err(m.clone()),
            None => Ok(()),
        }
    }

    fn push(&self, s: Seen) {
        self.seen.borrow_mut().push(s);
    }
}

impl ComponentFileChangeCallback for RecordingSink {
    fn created(&mut self, comp: &Component) -> Result<(), String> {
        let (n, t) = snap(comp);
        self.push(Seen::Created(n, t));
        self.answer()
    }

    fn updated(&mut self, old_comp: &Component, new_comp: &Component) -> Result<(), String> {
        let (on, ot) = snap(old_comp);
        let (nn, nt) = snap(new_comp);
        self.push(Seen::Updated(on, ot, nn, nt));
        self.answer()
    }

    fn deleted(&mut self, comp: &Component) -> Result<(), String> {
        let (n, t) = snap(comp);
        self.push(Seen::Deleted(n, t));
        self.answer()
    }
}

fn created(n: &str, t: &str) -> Seen {
    Seen::Created(n.to_string(), t.to_string())
}

fn updated(on: &str, ot: &str, nn: &str, nt: &str) -> Seen {
    Seen::Updated(on.to_string(), ot.to_string(), nn.to_string(), nt.to_string())
}

fn deleted(n: &str, t: &str) -> Seen {
    Seen::Deleted(n.to_string(), t.to_string())
}

#[test]
fn startup_rescan_then_update_then_remove() {
    let (sink, log) = RecordingSink::new();
    let mut d = ComponentsDirectory::new("./input", sink);
    let results = d.rescan(vec![("a.yaml".to_string(), Ok(comp("svc1", "worker")))]);
    assert_eq!(results, vec![Ok(())]);
    assert_eq!(d.len(), 1);
    assert_eq!(d.get("a.yaml").unwrap().spec.ctype, Some("worker".to_string()));
    assert_eq!(*log.borrow(), vec![created("svc1", "worker")]);

    let r = d.changed("a.yaml", true, Ok(comp("svc1", "manager")));
    assert_eq!(r, Ok(()));
    assert_eq!(d.len(), 1);
    assert_eq!(d.get("a.yaml").unwrap().spec.ctype, Some("manager".to_string()));
    assert_eq!(
        *log.borrow(),
        vec![created("svc1", "worker"), updated("svc1", "worker", "svc1", "manager")]
    );

    let r = d.removed("a.yaml");
    assert_eq!(r, Ok(()));
    assert_eq!(d.len(), 0);
    assert!(d.get("a.yaml").is_none());
    assert_eq!(
        *log.borrow(),
        vec![
            created("svc1", "worker"),
            updated("svc1", "worker", "svc1", "manager"),
            deleted("svc1", "manager"),
        ]
    );
}

#[test]
fn ineligible_paths_touch_nothing() {
    let (sink, log) = RecordingSink::new();
    let mut d = ComponentsDirectory::new("./input", sink);
    assert_eq!(d.changed("notes.txt", true, Ok(comp("x", "t"))), Ok(()));
    assert_eq!(d.changed("conf.yaml", false, Ok(comp("x", "t"))), Ok(()));
    assert_eq!(d.changed(".yaml", true, Ok(comp("x", "t"))), Ok(()));
    assert_eq!(d.changed("x.yml", true, Err("bad".to_string())), Ok(()));
    assert_eq!(d.removed("notes.txt"), Ok(()));
    assert_eq!(d.renamed("a.txt", "b.txt", true, Ok(comp("x", "t"))), Ok(()));
    assert_eq!(d.len(), 0);
    assert!(log.borrow().is_empty());
}

#[test]
fn created_only_on_fresh_key() {
    let (sink, log) = RecordingSink::new();
    let mut d = ComponentsDirectory::new("./input", sink);
    assert_eq!(d.changed("a.yaml", true, Ok(comp("svc1", "worker"))), Ok(()));
    assert_eq!(d.changed("a.yaml", true, Ok(comp("svc1", "worker"))), Ok(()));
    assert_eq!(d.len(), 1);
    assert_eq!(
        *log.borrow(),
        vec![created("svc1", "worker"), updated("svc1", "worker", "svc1", "worker")]
    );
}

#[test]
fn failed_reload_retracts_tracked_key() {
    let (sink, log) = RecordingSink::new();
    let mut d = ComponentsDirectory::new("./input", sink);
    assert_eq!(d.changed("a.yaml", true, Ok(comp("svc1", "worker"))), Ok(()));
    let r = d.changed("a.yaml", true, Err("bad syntax".to_string()));
    assert_eq!(r, Err("bad syntax".to_string()));
    assert_eq!(d.len(), 0);
    assert_eq!(
        *log.borrow(),
        vec![created("svc1", "worker"), deleted("svc1", "worker")]
    );
}

#[test]
fn failed_load_on_untracked_key_reports_only() {
    let (sink, log) = RecordingSink::new();
    let mut d = ComponentsDirectory::new("./input", sink);
    let r = d.changed("a.yaml", true, Err("bad syntax".to_string()));
    assert_eq!(r, Err("bad syntax".to_string()));
    assert_eq!(d.len(), 0);
    assert!(log.borrow().is_empty());
}

#[test]
fn failed_reload_combines_sink_and_load_failures() {
    let (sink, log) = RecordingSink::failing("sink down");
    let mut d = ComponentsDirectory::new("./input", sink);
    let _ = d.changed("a.yaml", true, Ok(comp("svc1", "worker")));
    let r = d.changed("a.yaml", true, Err("bad syntax".to_string()));
    assert_eq!(r, Err("\"deleted\": \"sink down\", \"load\": \"bad syntax\"".to_string()));
    assert_eq!(d.len(), 0);
    assert_eq!(
        *log.borrow(),
        vec![created("svc1", "worker"), deleted("svc1", "worker")]
    );
}

#[test]
fn rename_moves_tracked_object() {
    let (sink, log) = RecordingSink::new();
    let mut d = ComponentsDirectory::new("./input", sink);
    assert_eq!(d.changed("a.yaml", true, Ok(comp("svc1", "worker"))), Ok(()));
    let r = d.renamed("a.yaml", "b.yaml", true, Ok(comp("svc1", "worker")));
    assert_eq!(r, Ok(()));
    assert_eq!(d.len(), 1);
    assert!(d.get("a.yaml").is_none());
    assert_eq!(d.get("b.yaml").unwrap().metadata.name, "svc1".to_string());
    assert_eq!(
        *log.borrow(),
        vec![created("svc1", "worker"), updated("svc1", "worker", "svc1", "worker")]
    );
}

#[test]
fn rename_onto_tracked_key_retracts_and_updates() {
    let (sink, log) = RecordingSink::new();
    let mut d = ComponentsDirectory::new("./input", sink);
    assert_eq!(d.changed("a.yaml", true, Ok(comp("svc1", "worker"))), Ok(()));
    assert_eq!(d.changed("b.yaml", true, Ok(comp("svc2", "worker"))), Ok(()));
    let r = d.renamed("a.yaml", "b.yaml", true, Ok(comp("svc1", "manager")));
    assert_eq!(r, Ok(()));
    assert_eq!(d.len(), 1);
    assert!(d.get("a.yaml").is_none());
    assert_eq!(d.get("b.yaml").unwrap().spec.ctype, Some("manager".to_string()));
    assert_eq!(
        *log.borrow(),
        vec![
            created("svc1", "worker"),
            created("svc2", "worker"),
            deleted("svc2", "worker"),
            updated("svc1", "worker", "svc1", "manager"),
        ]
    );
}

#[test]
fn rename_attempts_every_call_even_when_both_fail() {
    let (sink, log) = RecordingSink::failing("sink down");
    let mut d = ComponentsDirectory::new("./input", sink);
    let _ = d.changed("a.yaml", true, Ok(comp("svc1", "worker")));
    let _ = d.changed("b.yaml", true, Ok(comp("svc2", "worker")));
    let r = d.renamed("a.yaml", "b.yaml", true, Ok(comp("svc1", "manager")));
    assert_eq!(r, Err("\"deleted\": \"sink down\", \"updated\": \"sink down\"".to_string()));
    // both calls were attempted, in order
    assert_eq!(
        *log.borrow(),
        vec![
            created("svc1", "worker"),
            created("svc2", "worker"),
            deleted("svc2", "worker"),
            updated("svc1", "worker", "svc1", "manager"),
        ]
    );
    // the index reflects disk state even though the sink failed
    assert_eq!(d.len(), 1);
    assert_eq!(d.get("b.yaml").unwrap().spec.ctype, Some("manager".to_string()));
}

#[test]
fn rename_with_failed_decode_retracts_both() {
    let (sink, log) = RecordingSink::new();
    let mut d = ComponentsDirectory::new("./input", sink);
    assert_eq!(d.changed("a.yaml", true, Ok(comp("svc1", "worker"))), Ok(()));
    assert_eq!(d.changed("b.yaml", true, Ok(comp("svc2", "worker"))), Ok(()));
    let r = d.renamed("a.yaml", "b.yaml", true, Err("bad".to_string()));
    assert_eq!(r, Err("bad".to_string()));
    assert_eq!(d.len(), 0);
    assert_eq!(
        *log.borrow(),
        vec![
            created("svc1", "worker"),
            created("svc2", "worker"),
            deleted("svc1", "worker"),
            deleted("svc2", "worker"),
        ]
    );
}

#[test]
fn rename_with_failed_decode_reports_all_three_failures() {
    let (sink, _log) = RecordingSink::failing("sink down");
    let mut d = ComponentsDirectory::new("./input", sink);
    let _ = d.changed("a.yaml", true, Ok(comp("svc1", "worker")));
    let _ = d.changed("b.yaml", true, Ok(comp("svc2", "worker")));
    let r = d.renamed("a.yaml", "b.yaml", true, Err("bad".to_string()));
    assert_eq!(
        r,
        Err("\"deleted\": \"sink down\", \"deleted\": \"sink down\", \"load\": \"bad\"".to_string())
    );
}

#[test]
fn rename_to_ineligible_destination_only_retracts() {
    let (sink, log) = RecordingSink::new();
    let mut d = ComponentsDirectory::new("./input", sink);
    assert_eq!(d.changed("a.yaml", true, Ok(comp("svc1", "worker"))), Ok(()));
    let r = d.renamed("a.yaml", "a.txt", true, Ok(comp("svc1", "worker")));
    assert_eq!(r, Ok(()));
    assert_eq!(d.len(), 0);
    assert_eq!(
        *log.borrow(),
        vec![created("svc1", "worker"), deleted("svc1", "worker")]
    );
}

#[test]
fn rename_from_untracked_source_acts_as_change() {
    let (sink, log) = RecordingSink::new();
    let mut d = ComponentsDirectory::new("./input", sink);
    let r = d.renamed("a.yaml", "b.yaml", true, Ok(comp("svc1", "worker")));
    assert_eq!(r, Ok(()));
    assert_eq!(d.len(), 1);
    assert_eq!(d.get("b.yaml").unwrap().metadata.name, "svc1".to_string());
    assert_eq!(*log.borrow(), vec![created("svc1", "worker")]);
}

#[test]
fn rescan_refreshes_every_tracked_file() {
    let (sink, log) = RecordingSink::new();
    let mut d = ComponentsDirectory::new("./input", sink);
    assert_eq!(d.changed("a.yaml", true, Ok(comp("svc1", "worker"))), Ok(()));
    assert_eq!(d.changed("b.yaml", true, Ok(comp("svc2", "helper"))), Ok(()));
    let results = d.rescan(vec![
        ("a.yaml".to_string(), Ok(comp("svc1", "worker"))),
        ("b.yaml".to_string(), Ok(comp("svc2", "helper"))),
    ]);
    assert_eq!(results, vec![Ok(()), Ok(())]);
    assert_eq!(d.len(), 2);
    assert_eq!(
        *log.borrow(),
        vec![
            created("svc1", "worker"),
            created("svc2", "helper"),
            updated("svc1", "worker", "svc1", "worker"),
            updated("svc2", "helper", "svc2", "helper"),
        ]
    );
}

#[test]
fn rescan_failure_does_not_stop_later_files() {
    let (sink, log) = RecordingSink::new();
    let mut d = ComponentsDirectory::new("./input", sink);
    let results = d.rescan(vec![
        ("a.yaml".to_string(), Err("bad".to_string())),
        ("b.yaml".to_string(), Ok(comp("svc2", "helper"))),
    ]);
    assert_eq!(results, vec![Err("bad".to_string()), Ok(())]);
    assert_eq!(d.len(), 1);
    assert!(d.get("b.yaml").is_some());
    assert_eq!(*log.borrow(), vec![created("svc2", "helper")]);
}
