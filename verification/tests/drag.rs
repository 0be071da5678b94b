use byte_engine::drag::{Drag, DragCapture, DragDrop};

type Point = (f32, f32);

const THRESHOLD: f32 = 4.0;

fn crossed(origin: Point, position: Point) -> bool {
    let (x, y) = (position.0 - origin.0, position.1 - origin.1);
    x * x + y * y >= THRESHOLD * THRESHOLD
}

#[test]
fn press_activates_after_the_threshold_and_release_yields_the_drop_once() {
    let mut drag: Drag<Point> = Drag::new();
    let origin = (10.0, 10.0);
    assert!(drag.press(7, origin));
    // A second press while held is refused.
    assert!(!drag.press(8, (0.0, 0.0)));
    assert!(drag.move_to((11.0, 10.0), crossed(origin, (11.0, 10.0))));
    assert!(!drag.capture().expect("held").dragging);
    assert!(drag.move_to((20.0, 10.0), crossed(origin, (20.0, 10.0))));
    // Returning to the press point keeps the drag active.
    assert!(drag.move_to(origin, crossed(origin, origin)));
    assert!(drag.capture().expect("held").dragging);
    assert_eq!(drag.release((12.0, 10.0), crossed(origin, (12.0, 10.0))), Some(DragDrop { source: 7, position: (12.0, 10.0) }));
    assert_eq!(drag.release((12.0, 10.0), true), None);
    assert_eq!(drag.capture(), None);
}

#[test]
fn click_restores_source_without_a_drop() {
    let mut drag: Drag<Point> = Drag::new();
    assert!(drag.press(3, (0.0, 0.0)));
    assert_eq!(drag.release((1.0, 1.0), crossed((0.0, 0.0), (1.0, 1.0))), None);
    assert!(drag.capture().is_none());
    assert!(!drag.move_to((50.0, 50.0), true));
}

#[test]
fn cancel_ends_every_grab() {
    let mut drag: Drag<Point> = Drag::new();
    assert_eq!(drag.cancel(), None);
    assert!(drag.press(5, (0.0, 0.0)));
    drag.set_over(Some(9));
    assert_eq!(
        drag.capture(),
        Some(DragCapture { source: 5, origin: (0.0, 0.0), position: (0.0, 0.0), dragging: false, over: Some(9) })
    );
    assert_eq!(drag.cancel(), Some(5));
    assert_eq!(drag.capture(), None);
    assert!(drag.press(6, (0.0, 0.0)));
}
