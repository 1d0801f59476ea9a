use mofu::error::Error;
use mofu::execute::{Execution, Outcome};
use mofu::mapping::Mapping;
use mofu::queue::RenameQueue;
use std::collections::BTreeMap;

type Files = BTreeMap<String, u32>;

fn pairs(list: &[(&str, &str)]) -> Vec<(String, String)> {
    list.iter().map(|(s, d)| (s.to_string(), d.to_string())).collect()
}

fn files(list: &[(&str, u32)]) -> Files {
    list.iter().map(|(p, c)| (p.to_string(), *c)).collect()
}

fn steps(q: &[Mapping]) -> Vec<(String, String)> {
    q.iter().map(|m| (m.src().to_string(), m.dst().to_string())).collect()
}

fn perform(fs: &mut Files, m: &Mapping) -> Outcome {
    if fs.contains_key(m.dst()) {
        return Outcome::DestinationExists;
    }
    match fs.remove(m.src()) {
        Some(c) => {
            fs.insert(m.dst().to_string(), c);
            Outcome::Moved
        }
        None => Outcome::Failed(std::io::Error::new(std::io::ErrorKind::NotFound, "no such file")),
    }
}

fn drive(x: Execution, fs: &mut Files) -> (RenameQueue, Result<(), Error>) {
    let mut x = x;
    while let Some(m) = x.next_step() {
        let outcome = perform(fs, &m);
        x = x.record(outcome);
    }
    x.finish()
}

#[test]
fn apply_then_revert_restores_files() {
    let start = files(&[("/t/a", 1), ("/t/b", 2), ("/t/c", 3), ("/t/x", 9)]);
    let mut fs = start.clone();
    let q = RenameQueue::new(&pairs(&[("/t/a", "/t/b"), ("/t/b", "/t/c"), ("/t/c", "/t/d"), ("/t/x", "/t/x")]), &vec![])
        .unwrap();
    let (q, r) = drive(q.rename(), &mut fs);
    assert!(r.is_ok());
    assert_eq!(fs, files(&[("/t/b", 1), ("/t/c", 2), ("/t/d", 3), ("/t/x", 9)]));
    assert_eq!(q.renamed().len(), 3);
    assert!(q.pending().is_empty());
    let (q, r) = drive(q.revert(), &mut fs);
    assert!(r.is_ok());
    assert_eq!(fs, start);
    assert!(q.renamed().is_empty());
    assert_eq!(q.pending().len(), 3);
}

#[test]
fn swap_exchanges_and_reverts() {
    let start = files(&[("/t/a", 1), ("/t/b", 2)]);
    let mut fs = start.clone();
    let q = RenameQueue::new(&pairs(&[("/t/a", "/t/b"), ("/t/b", "/t/a")]), &vec![]).unwrap();
    assert_eq!(q.pending().len(), 3);
    let (q, r) = drive(q.rename(), &mut fs);
    assert!(r.is_ok());
    assert_eq!(fs, files(&[("/t/a", 2), ("/t/b", 1)]));
    let (_, r) = drive(q.revert(), &mut fs);
    assert!(r.is_ok());
    assert_eq!(fs, start);
}

#[test]
fn rename_stops_at_first_failure() {
    let mut fs = files(&[("/t/a", 1), ("/t/b", 2), ("/t/c", 3)]);
    let q = RenameQueue::new(&pairs(&[("/t/a", "/t/b"), ("/t/b", "/t/c"), ("/t/c", "/t/d")]), &vec![])
        .unwrap();
    let x = q.rename();
    let x = x.record(Outcome::Moved);
    let x = x.record(Outcome::DestinationExists);
    assert!(x.next_step().is_none());
    let (q, r) = x.finish();
    match r {
        Err(Error::AlreadyExists { src, dst }) => {
            assert_eq!(src, "/t/b");
            assert_eq!(dst, "/t/c");
        }
        other => panic!("unexpected {:?}", other),
    }
    assert_eq!(steps(q.renamed()), pairs(&[("/t/c", "/t/d")]));
    assert_eq!(steps(q.pending()), pairs(&[("/t/b", "/t/c"), ("/t/a", "/t/b")]));
    fs.remove("/t/c");
    let (q, r) = drive(q.rename(), &mut fs);
    assert!(r.is_ok());
    assert!(q.pending().is_empty());
}

#[test]
fn atomic_rename_rolls_back_on_failure() {
    let start = files(&[("/t/a", 1), ("/t/b", 2), ("/t/c", 3)]);
    let mut fs = start.clone();
    let q = RenameQueue::new(&pairs(&[("/t/a", "/t/b"), ("/t/b", "/t/c"), ("/t/c", "/t/d")]), &vec![])
        .unwrap();
    let mut x = q.rename_atomic();
    let first = x.next_step().unwrap();
    assert_eq!((first.src(), first.dst()), ("/t/c", "/t/d"));
    let o = perform(&mut fs, &first);
    x = x.record(o);
    let second = x.next_step().unwrap();
    assert_eq!((second.src(), second.dst()), ("/t/b", "/t/c"));
    fs.insert("/t/c".to_string(), 7);
    let o = perform(&mut fs, &second);
    assert!(matches!(o, Outcome::DestinationExists));
    x = x.record(o);
    fs.remove("/t/c");
    let back = x.next_step().unwrap();
    assert_eq!((back.src(), back.dst()), ("/t/d", "/t/c"));
    let (q, r) = drive(x, &mut fs);
    match r {
        Err(Error::AlreadyExists { src, dst }) => {
            assert_eq!(src, "/t/b");
            assert_eq!(dst, "/t/c");
        }
        other => panic!("unexpected {:?}", other),
    }
    assert_eq!(fs, start);
    assert!(q.renamed().is_empty());
    assert_eq!(q.pending().len(), 3);
}

#[test]
fn failed_rollback_reports_both_errors() {
    let q = RenameQueue::new(&pairs(&[("/t/a", "/t/b"), ("/t/b", "/t/c")]), &vec![]).unwrap();
    let x = q.rename_atomic().record(Outcome::Moved).record(Outcome::DestinationExists);
    let x = x.record(Outcome::Failed(std::io::Error::new(std::io::ErrorKind::PermissionDenied, "denied")));
    assert!(x.next_step().is_none());
    let (q, r) = x.finish();
    match r {
        Err(Error::AtomicActionFailed { during_attempt, during_rollback }) => {
            assert!(matches!(*during_attempt, Error::AlreadyExists { .. }));
            match *during_rollback {
                Error::Io(e) => assert_eq!(e.kind(), std::io::ErrorKind::PermissionDenied),
                other => panic!("unexpected {:?}", other),
            }
        }
        other => panic!("unexpected {:?}", other),
    }
    assert_eq!(q.renamed().len(), 1);
}

#[test]
fn io_failure_is_reported() {
    let q = RenameQueue::new(&pairs(&[("/t/a", "/t/b")]), &vec![]).unwrap();
    let mut fs = Files::new();
    let (q, r) = drive(q.rename(), &mut fs);
    match r {
        Err(Error::Io(e)) => assert_eq!(e.kind(), std::io::ErrorKind::NotFound),
        other => panic!("unexpected {:?}", other),
    }
    assert!(q.renamed().is_empty());
}

#[test]
fn atomic_revert_applies_again_on_failure() {
    let mut fs = files(&[("/t/a", 1), ("/t/b", 2)]);
    let q = RenameQueue::new(&pairs(&[("/t/a", "/t/b"), ("/t/b", "/t/c")]), &vec![]).unwrap();
    let (q, r) = drive(q.rename(), &mut fs);
    assert!(r.is_ok());
    assert_eq!(fs, files(&[("/t/b", 1), ("/t/c", 2)]));
    let x = q.revert_atomic();
    let first = x.next_step().unwrap();
    assert_eq!((first.src(), first.dst()), ("/t/b", "/t/a"));
    let x = x.record(Outcome::Moved);
    let x = x.record(Outcome::DestinationExists);
    let again = x.next_step().unwrap();
    assert_eq!((again.src(), again.dst()), ("/t/a", "/t/b"));
    let (q, r) = x.record(Outcome::Moved).finish();
    match r {
        Err(Error::AlreadyExists { src, dst }) => {
            assert_eq!(src, "/t/c");
            assert_eq!(dst, "/t/b");
        }
        other => panic!("unexpected {:?}", other),
    }
    assert!(q.pending().is_empty());
}

#[test]
fn reloaded_queue_resumes_where_it_stopped() {
    let q = RenameQueue::new(&pairs(&[("/t/a", "/t/b"), ("/t/b", "/t/c"), ("/t/c", "/t/d")]), &vec![])
        .unwrap();
    let (q, _) = q.rename().record(Outcome::Moved).record(Outcome::DestinationExists).finish();
    let done: Vec<Mapping> = q.renamed().iter().map(|m| Mapping::new(m.src().to_string(), m.dst().to_string())).collect();
    let rest: Vec<Mapping> = q.pending().iter().map(|m| Mapping::new(m.src().to_string(), m.dst().to_string())).collect();
    let reloaded = RenameQueue::from_parts(done, rest);
    assert_eq!(steps(reloaded.renamed()), steps(q.renamed()));
    assert_eq!(steps(reloaded.pending()), steps(q.pending()));
    let mut fs = files(&[("/t/a", 1), ("/t/b", 2), ("/t/d", 3)]);
    let x = reloaded.rename();
    assert_eq!(x.next_step().map(|m| m.src().to_string()), Some("/t/b".to_string()));
    let (q, r) = drive(x, &mut fs);
    assert!(r.is_ok());
    assert_eq!(fs, files(&[("/t/b", 1), ("/t/c", 2), ("/t/d", 3)]));
    assert!(q.pending().is_empty());
}

#[test]
fn nothing_to_do_finishes_at_once() {
    let q = RenameQueue::new(&vec![], &vec![]).unwrap();
    let x = q.rename();
    assert!(x.next_step().is_none());
    let (_, r) = x.finish();
    assert!(r.is_ok());
    let q = RenameQueue::new(&pairs(&[("/t/a", "/t/b")]), &vec![]).unwrap();
    let (_, r) = q.revert_atomic().finish();
    assert!(r.is_ok());
}

#[test]
fn mapping_inverts() {
    let m = Mapping::new("/t/a".to_string(), "/t/b".to_string());
    let i = m.invert();
    assert_eq!((i.src(), i.dst()), ("/t/b", "/t/a"));
    let d = m.duplicate();
    assert_eq!((d.src(), d.dst()), ("/t/a", "/t/b"));
}

#[test]
fn mappings_compare_by_both_paths() {
    let m = Mapping::new("/t/a".to_string(), "/t/b".to_string());
    assert!(m == Mapping::new("/t/a".to_string(), "/t/b".to_string()));
    assert!(m != Mapping::new("/t/a".to_string(), "/t/c".to_string()));
    assert!(m != m.invert());
}
