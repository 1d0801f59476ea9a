use mofu::error::Error;

#[test]
fn one_to_many_report() {
    let e = Error::OneToMany { src: "/t/a".to_string(), dst: ("/t/b".to_string(), "/t/c".to_string()) };
    assert_eq!(
        e.describe(),
        "multiple destinations detected:\n       source /t/a\n  destination /t/b\n              /t/c\n"
    );
}

#[test]
fn many_to_one_report() {
    let e = Error::ManyToOne { src: ("/t/a".to_string(), "/t/b".to_string()), dst: "/t/c".to_string() };
    assert_eq!(
        e.describe(),
        "collision detected:\n       source /t/a\n              /t/b\n  destination /t/c\n"
    );
}

#[test]
fn non_leaf_node_report() {
    let e = Error::NonLeafNode { node: "/t/d".to_string(), descendant: "/t/d/e".to_string() };
    assert_eq!(e.describe(), "non-leaf node detected:\n         node /t/d\n   descendant /t/d/e\n");
}

#[test]
fn already_exists_report() {
    let e = Error::AlreadyExists { src: "/t/a".to_string(), dst: "/t/b".to_string() };
    assert_eq!(e.describe(), "destination already exists:\n       source /t/a\n  destination /t/b\n");
}

#[test]
fn io_report() {
    let e = Error::from(std::io::Error::new(std::io::ErrorKind::Other, "disk on fire"));
    assert_eq!(e.describe(), "disk on fire\n");
}

#[test]
fn nested_reports_are_indented() {
    let attempt = Error::AlreadyExists { src: "/t/b".to_string(), dst: "/t/c".to_string() };
    let rollback = Error::Io(std::io::Error::new(std::io::ErrorKind::PermissionDenied, "denied"));
    let e = Error::AtomicActionFailed { during_attempt: Box::new(attempt), during_rollback: Box::new(rollback) };
    assert_eq!(
        e.describe(),
        "atomic action failed:\n  during attempt:\n    destination already exists:\n           source /t/b\n      destination /t/c\n  during rollback:\n    denied\n"
    );
    let outer = Error::AtomicActionFailed {
        during_attempt: Box::new(e),
        during_rollback: Box::new(Error::Io(std::io::Error::new(std::io::ErrorKind::Other, "x"))),
    };
    assert!(outer.describe().contains("\n      during attempt:\n        destination already exists:\n"));
}
