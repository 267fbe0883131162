use netstrat::elements::Node;
use netstrat::matrix::ColoredMarks;
use netstrat::matrix::DeletedMarks;
use netstrat::matrix::Matrix;
use netstrat::matrix::State;

#[test]
fn fresh_node_starts_visible_and_unselected() {
    let n = Node::new("n1".to_string());
    assert_eq!(n.name(), "n1");
    assert!(!n.deleted());
    assert!(!n.selected());
}

#[test]
fn node_keeps_the_id_it_was_given() {
    let id = uuid::Uuid::from_u128(0x1234_5678_9abc_def0);
    let n = Node::new_with_id(id, "n2".to_string());
    assert_eq!(*n.id(), id);
    let copy = n.clone();
    assert_eq!(*copy.id(), id);
    assert_eq!(copy.name(), "n2");
}

#[test]
fn node_flags_toggle_independently() {
    let mut n = Node::new("n3".to_string());
    n.select();
    assert!(n.selected());
    n.delete();
    assert!(n.deleted());
    assert!(n.selected());
    n.deselect();
    assert!(!n.selected());
    assert!(n.deleted());
    n.restore();
    assert!(!n.deleted());
    n.set_name("renamed".to_string());
    assert_eq!(n.name(), "renamed");
}

fn small_state(cell: u8) -> State {
    State {
        m: vec![vec![cell, 1], vec![0, cell]],
        deleted: DeletedMarks { rows: vec![1], cols: vec![] },
        colored: ColoredMarks { rows: vec![0], cols: vec![1], elements: vec![(0, 1)] },
    }
}

#[test]
fn matrix_shows_the_state_it_was_built_with() {
    let m = Matrix::new(small_state(7));
    assert_eq!(m.state().m, vec![vec![7, 1], vec![0, 7]]);
    assert_eq!(m.state().deleted.rows, vec![1]);
    assert_eq!(m.state().colored.elements, vec![(0, 1)]);
}

#[test]
fn set_state_replaces_the_displayed_state() {
    let mut m = Matrix::new(small_state(7));
    m.set_state(small_state(9));
    assert_eq!(m.state().m, vec![vec![9, 1], vec![0, 9]]);
    assert_eq!(m.state().colored.rows, vec![0]);
}
