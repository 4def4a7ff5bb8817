use pixel_canvas::store::CanvasStore;
use pixel_canvas::types::CanvasError;
use pixel_canvas::Pixel;

#[test]
fn new_store_is_empty() {
    let store = CanvasStore::new(4, 3);
    assert_eq!(store.width(), 4);
    assert_eq!(store.height(), 3);
    assert_eq!(store.len(), 0);
    assert_eq!(store.get(0, 0), None);
    assert!(store.snapshot().is_empty());
}

#[test]
fn get_after_set_returns_the_colour() {
    let mut store = CanvasStore::new(4, 3);
    assert_eq!(store.set(1, 2, String::from("red")), Ok(None));
    assert_eq!(store.get(1, 2).map(|c| c.as_str()), Some("red"));
    assert_eq!(store.get(2, 1), None);
}

#[test]
fn set_returns_the_previous_colour() {
    let mut store = CanvasStore::new(4, 3);
    assert_eq!(store.set(1, 2, String::from("red")), Ok(None));
    assert_eq!(store.set(1, 2, String::from("blue")), Ok(Some(String::from("red"))));
    assert_eq!(store.set(1, 2, String::from("green")), Ok(Some(String::from("blue"))));
    assert_eq!(store.get(1, 2).map(|c| c.as_str()), Some("green"));
    assert_eq!(store.len(), 1);
}

#[test]
fn set_outside_the_canvas_changes_nothing() {
    let mut store = CanvasStore::new(4, 3);
    store.set(0, 0, String::from("red")).unwrap();
    assert_eq!(store.set(4, 0, String::from("blue")), Err(CanvasError::OutOfBounds));
    assert_eq!(store.set(0, 3, String::from("blue")), Err(CanvasError::OutOfBounds));
    assert_eq!(store.set(u32::MAX, u32::MAX, String::from("blue")), Err(CanvasError::OutOfBounds));
    assert_eq!(store.len(), 1);
    assert_eq!(store.get(4, 0), None);
    assert_eq!(store.get(0, 3), None);
    assert_eq!(store.get(0, 0).map(|c| c.as_str()), Some("red"));
}

#[test]
fn corner_cells_are_on_the_canvas() {
    let mut store = CanvasStore::new(4, 3);
    assert_eq!(store.set(3, 2, String::from("red")), Ok(None));
    assert_eq!(store.set(0, 0, String::from("blue")), Ok(None));
    assert_eq!(store.get(3, 2).map(|c| c.as_str()), Some("red"));
}

#[test]
fn empty_canvas_accepts_no_cell() {
    let mut store = CanvasStore::new(0, 5);
    assert_eq!(store.set(0, 0, String::from("red")), Err(CanvasError::OutOfBounds));
    assert_eq!(store.len(), 0);
}

#[test]
fn snapshot_keeps_the_order_of_first_writes() {
    let mut store = CanvasStore::new(10, 10);
    store.set(5, 5, String::from("a")).unwrap();
    store.set(1, 1, String::from("b")).unwrap();
    store.set(9, 0, String::from("c")).unwrap();
    store.set(1, 1, String::from("d")).unwrap();
    let cells = store.snapshot();
    assert_eq!(
        cells,
        vec![
            Pixel { x: 5, y: 5, color: String::from("a") },
            Pixel { x: 1, y: 1, color: String::from("d") },
            Pixel { x: 9, y: 0, color: String::from("c") },
        ]
    );
    assert_eq!(store.snapshot(), cells);
}

#[test]
fn swapped_coordinates_are_different_cells() {
    let mut store = CanvasStore::new(10, 10);
    store.set(2, 7, String::from("a")).unwrap();
    store.set(7, 2, String::from("b")).unwrap();
    assert_eq!(store.get(2, 7).map(|c| c.as_str()), Some("a"));
    assert_eq!(store.get(7, 2).map(|c| c.as_str()), Some("b"));
    assert_eq!(store.len(), 2);
}
