use mofu::error::Error;
use mofu::queue::RenameQueue;

fn pairs(list: &[(&str, &str)]) -> Vec<(String, String)> {
    list.iter().map(|(s, d)| (s.to_string(), d.to_string())).collect()
}

fn steps(q: &[mofu::mapping::Mapping]) -> Vec<(String, String)> {
    q.iter().map(|m| (m.src().to_string(), m.dst().to_string())).collect()
}

#[test]
fn chain_runs_from_its_far_end() {
    let q = RenameQueue::new(&pairs(&[("/t/a", "/t/b"), ("/t/b", "/t/c"), ("/t/c", "/t/d")]), &vec![])
        .unwrap();
    assert_eq!(
        steps(q.pending()),
        pairs(&[("/t/c", "/t/d"), ("/t/b", "/t/c"), ("/t/a", "/t/b")])
    );
    assert!(q.renamed().is_empty());
}

#[test]
fn chain_given_in_any_order() {
    let q = RenameQueue::new(&pairs(&[("/t/b", "/t/c"), ("/t/c", "/t/d"), ("/t/a", "/t/b")]), &vec![])
        .unwrap();
    assert_eq!(
        steps(q.pending()),
        pairs(&[("/t/c", "/t/d"), ("/t/b", "/t/c"), ("/t/a", "/t/b")])
    );
}

#[test]
fn swap_goes_through_a_temporary_path() {
    let q = RenameQueue::new(&pairs(&[("/t/a", "/t/b"), ("/t/b", "/t/a")]), &vec![]).unwrap();
    assert_eq!(
        steps(q.pending()),
        pairs(&[("/t/b", "/t/b.temp_0"), ("/t/a", "/t/b"), ("/t/b.temp_0", "/t/a")])
    );
}

#[test]
fn temporary_path_skips_existing_names() {
    let occupied = vec!["/t/b.temp_0".to_string(), "/t/b.temp_1".to_string()];
    let q = RenameQueue::new(&pairs(&[("/t/a.txt", "/t/b.txt"), ("/t/b.txt", "/t/a.txt")]), &occupied)
        .unwrap();
    assert_eq!(
        steps(q.pending()),
        pairs(&[
            ("/t/b.txt", "/t/b.temp_2"),
            ("/t/a.txt", "/t/b.txt"),
            ("/t/b.temp_2", "/t/a.txt"),
        ])
    );
    let occupied = vec!["/t/b.temp_0".to_string()];
    let q = RenameQueue::new(&pairs(&[("/t/a", "/t/b"), ("/t/b", "/t/a")]), &occupied).unwrap();
    assert_eq!(steps(q.pending())[0], ("/t/b".to_string(), "/t/b.temp_1".to_string()));
}

#[test]
fn temporary_path_avoids_paths_of_the_batch() {
    let q = RenameQueue::new(
        &pairs(&[("/t/a", "/t/b"), ("/t/b", "/t/a"), ("/t/c", "/t/b.temp_0")]),
        &vec![],
    )
    .unwrap();
    let s = steps(q.pending());
    assert_eq!(s.len(), 4);
    assert!(s.contains(&("/t/b".to_string(), "/t/b.temp_1".to_string())));
    assert!(s.contains(&("/t/b.temp_1".to_string(), "/t/a".to_string())));
    assert!(s.contains(&("/t/c".to_string(), "/t/b.temp_0".to_string())));
}

#[test]
fn longer_cycle_is_broken_once() {
    let q = RenameQueue::new(&pairs(&[("/t/a", "/t/b"), ("/t/b", "/t/c"), ("/t/c", "/t/a")]), &vec![])
        .unwrap();
    assert_eq!(
        steps(q.pending()),
        pairs(&[
            ("/t/c", "/t/c.temp_0"),
            ("/t/b", "/t/c"),
            ("/t/a", "/t/b"),
            ("/t/c.temp_0", "/t/a"),
        ])
    );
}

#[test]
fn self_mapping_is_left_out() {
    let q = RenameQueue::new(&pairs(&[("/t/a", "/t/a")]), &vec![]).unwrap();
    assert!(q.pending().is_empty());
    let q = RenameQueue::new(&pairs(&[("/t/a", "/t/a"), ("/t/b", "/t/c")]), &vec![]).unwrap();
    assert_eq!(steps(q.pending()), pairs(&[("/t/b", "/t/c")]));
}

#[test]
fn empty_batch_gives_empty_queue() {
    let q = RenameQueue::new(&vec![], &vec![]).unwrap();
    assert!(q.pending().is_empty());
    assert!(q.renamed().is_empty());
}

#[test]
fn repeated_pair_counts_once() {
    let q = RenameQueue::new(&pairs(&[("/t/a", "/t/b"), ("/t/a", "/t/b")]), &vec![]).unwrap();
    assert_eq!(steps(q.pending()), pairs(&[("/t/a", "/t/b")]));
}

#[test]
fn one_source_two_destinations() {
    let r = RenameQueue::new(&pairs(&[("/t/a", "/t/b"), ("/t/a", "/t/c")]), &vec![]);
    match r {
        Err(Error::OneToMany { src, dst }) => {
            assert_eq!(src, "/t/a");
            assert_eq!(dst, ("/t/b".to_string(), "/t/c".to_string()));
        }
        other => panic!("unexpected {:?}", other),
    }
}

#[test]
fn first_conflicting_pair_is_reported() {
    let r = RenameQueue::new(
        &pairs(&[("/t/a", "/t/b"), ("/t/x", "/t/y"), ("/t/a", "/t/b"), ("/t/x", "/t/z"), ("/t/a", "/t/c")]),
        &vec![],
    );
    match r {
        Err(Error::OneToMany { src, dst }) => {
            assert_eq!(src, "/t/x");
            assert_eq!(dst, ("/t/y".to_string(), "/t/z".to_string()));
        }
        other => panic!("unexpected {:?}", other),
    }
}

#[test]
fn two_sources_one_destination() {
    let r = RenameQueue::new(&pairs(&[("/t/a", "/t/c"), ("/t/b", "/t/c")]), &vec![]);
    match r {
        Err(Error::ManyToOne { src, dst }) => {
            assert_eq!(src, ("/t/a".to_string(), "/t/b".to_string()));
            assert_eq!(dst, "/t/c");
        }
        other => panic!("unexpected {:?}", other),
    }
}

#[test]
fn self_mapping_still_collides() {
    let r = RenameQueue::new(&pairs(&[("/t/a", "/t/a"), ("/t/b", "/t/a")]), &vec![]);
    assert!(matches!(r, Err(Error::ManyToOne { .. })));
}

#[test]
fn one_to_many_comes_before_many_to_one() {
    let r = RenameQueue::new(
        &pairs(&[("/t/a", "/t/c"), ("/t/b", "/t/c"), ("/t/a", "/t/d")]),
        &vec![],
    );
    assert!(matches!(r, Err(Error::OneToMany { .. })));
}

#[test]
fn directory_and_its_child() {
    let r = RenameQueue::new(&pairs(&[("/t/dir", "/t/other"), ("/t/dir/child", "/t/x")]), &vec![]);
    match r {
        Err(Error::NonLeafNode { node, descendant }) => {
            assert_eq!(node, "/t/dir");
            assert_eq!(descendant, "/t/dir/child");
        }
        other => panic!("unexpected {:?}", other),
    }
}

#[test]
fn nesting_is_found_among_neighbours() {
    let r = RenameQueue::new(
        &pairs(&[("/t/a", "/t/q"), ("/t/a.x", "/t/r"), ("/t/a/b", "/t/s")]),
        &vec![],
    );
    match r {
        Err(Error::NonLeafNode { node, descendant }) => {
            assert_eq!(node, "/t/a");
            assert_eq!(descendant, "/t/a/b");
        }
        other => panic!("unexpected {:?}", other),
    }
}

#[test]
fn nesting_through_a_destination() {
    let r = RenameQueue::new(&pairs(&[("/t/a", "/t/d"), ("/t/b", "/t/d/e")]), &vec![]);
    assert!(matches!(r, Err(Error::NonLeafNode { .. })));
}

#[test]
fn nesting_through_a_self_mapping() {
    let r = RenameQueue::new(&pairs(&[("/t/d", "/t/d"), ("/t/d/e", "/t/f")]), &vec![]);
    assert!(matches!(r, Err(Error::NonLeafNode { .. })));
}

#[test]
fn similar_names_are_not_nested() {
    let q = RenameQueue::new(&pairs(&[("/t/ab", "/t/x"), ("/t/a", "/t/y"), ("/t/a.b", "/t/z")]), &vec![])
        .unwrap();
    assert_eq!(q.pending().len(), 3);
}

#[test]
fn root_holds_every_path() {
    let r = RenameQueue::new(&pairs(&[("/", "/x"), ("/a", "/b")]), &vec![]);
    assert!(matches!(r, Err(Error::NonLeafNode { .. })));
}
