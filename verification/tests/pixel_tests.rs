use canvas_replica::pixel::{Canvas, Pixel};

fn px(x: i32, y: i32, colour: i32, updated: i32) -> Pixel {
    Pixel { x, y, colour, updated }
}

#[test]
fn new_canvas_is_empty() {
    let canvas = Canvas::new();
    assert_eq!(canvas.len(), 0);
    assert_eq!(canvas.get(0, 0), None);
    assert_eq!(Pixel::all(&canvas), Vec::new());
}

#[test]
fn first_write_to_a_position_is_stored() {
    let mut canvas = Canvas::new();
    assert_eq!(Pixel::insert_pixel(&mut canvas, &px(0, 0, 7, 1)), 1);
    assert_eq!(canvas.get(0, 0), Some(px(0, 0, 7, 1)));
    assert_eq!(canvas.len(), 1);
}

#[test]
fn newer_write_replaces_the_stored_pixel() {
    let mut canvas = Canvas::new();
    Pixel::insert_pixel(&mut canvas, &px(1, 2, 7, 1));
    assert_eq!(Pixel::insert_pixel(&mut canvas, &px(1, 2, 8, 2)), 1);
    assert_eq!(canvas.get(1, 2), Some(px(1, 2, 8, 2)));
    assert_eq!(canvas.len(), 1);
}

#[test]
fn older_write_is_ignored() {
    let mut canvas = Canvas::new();
    Pixel::insert_pixel(&mut canvas, &px(1, 2, 7, 5));
    assert_eq!(Pixel::insert_pixel(&mut canvas, &px(1, 2, 8, 4)), 0);
    assert_eq!(canvas.get(1, 2), Some(px(1, 2, 7, 5)));
}

#[test]
fn write_with_the_same_time_stamp_is_ignored() {
    let mut canvas = Canvas::new();
    Pixel::insert_pixel(&mut canvas, &px(1, 2, 7, 5));
    assert_eq!(Pixel::insert_pixel(&mut canvas, &px(1, 2, 8, 5)), 0);
    assert_eq!(canvas.get(1, 2), Some(px(1, 2, 7, 5)));
}

#[test]
fn positions_are_kept_apart() {
    let mut canvas = Canvas::new();
    Pixel::insert_pixel(&mut canvas, &px(1, 2, 7, 5));
    Pixel::insert_pixel(&mut canvas, &px(2, 1, 8, 1));
    Pixel::insert_pixel(&mut canvas, &px(-1, i32::MIN, 9, i32::MIN));
    assert_eq!(canvas.get(1, 2), Some(px(1, 2, 7, 5)));
    assert_eq!(canvas.get(2, 1), Some(px(2, 1, 8, 1)));
    assert_eq!(canvas.get(-1, i32::MIN), Some(px(-1, i32::MIN, 9, i32::MIN)));
    assert_eq!(canvas.get(1, 1), None);
    assert_eq!(canvas.len(), 3);
}

#[test]
fn lww_collision_keeps_the_newer_pixel_in_either_order() {
    let a = px(5, 5, 1, 10);
    let b = px(5, 5, 2, 9);
    let mut first = Canvas::new();
    Pixel::insert_pixel(&mut first, &a);
    Pixel::insert_pixel(&mut first, &b);
    let mut second = Canvas::new();
    Pixel::insert_pixel(&mut second, &b);
    Pixel::insert_pixel(&mut second, &a);
    assert_eq!(first.get(5, 5), Some(px(5, 5, 1, 10)));
    assert_eq!(second.get(5, 5), Some(px(5, 5, 1, 10)));
}

#[test]
fn undecoded_payload_writes_nothing() {
    let mut canvas = Canvas::new();
    assert_eq!(Pixel::insert(&mut canvas, None), 0);
    assert_eq!(canvas.len(), 0);
    assert_eq!(Pixel::insert(&mut canvas, Some(px(3, 3, 1, 1))), 1);
    assert_eq!(canvas.get(3, 3), Some(px(3, 3, 1, 1)));
}

#[test]
fn all_lists_every_stored_pixel_once() {
    let mut canvas = Canvas::new();
    Pixel::insert_pixel(&mut canvas, &px(0, 0, 1, 1));
    Pixel::insert_pixel(&mut canvas, &px(0, 1, 2, 1));
    Pixel::insert_pixel(&mut canvas, &px(0, 0, 3, 2));
    let mut all = Pixel::all(&canvas);
    all.sort_by_key(|p| (p.x, p.y));
    assert_eq!(all, vec![px(0, 0, 3, 2), px(0, 1, 2, 1)]);
}

#[test]
fn update_all_replaces_the_canvas() {
    let mut canvas = Canvas::new();
    Pixel::insert_pixel(&mut canvas, &px(9, 9, 9, 9));
    let written = Pixel::update_all(
        &mut canvas,
        &vec![px(0, 0, 1, 5), px(1, 1, 2, 1), px(0, 0, 3, 4), px(1, 1, 4, 2)],
    );
    assert_eq!(written, 3);
    assert_eq!(canvas.get(9, 9), None);
    assert_eq!(canvas.get(0, 0), Some(px(0, 0, 1, 5)));
    assert_eq!(canvas.get(1, 1), Some(px(1, 1, 4, 2)));
    assert_eq!(canvas.len(), 2);
}

#[test]
fn snapshot_written_into_an_empty_canvas_gives_the_canvas_back() {
    let mut canvas = Canvas::new();
    for p in [px(0, 0, 1, 1), px(4, 2, 2, 7), px(0, 0, 5, 3), px(-3, 8, 1, 0)] {
        Pixel::insert_pixel(&mut canvas, &p);
    }
    let snapshot = Pixel::all(&canvas);
    let mut copy = Canvas::new();
    assert_eq!(Pixel::update_all(&mut copy, &snapshot), 3);
    for p in &snapshot {
        assert_eq!(copy.get(p.x, p.y), canvas.get(p.x, p.y));
    }
    assert_eq!(copy.len(), canvas.len());
}

#[test]
fn replicas_converge_whatever_the_order_of_the_writes() {
    let writes = [px(0, 0, 1, 3), px(0, 0, 2, 8), px(1, 0, 3, 1), px(0, 0, 4, 5), px(1, 0, 5, 2)];
    let orders: [[usize; 5]; 4] = [[0, 1, 2, 3, 4], [4, 3, 2, 1, 0], [2, 0, 4, 1, 3], [1, 3, 0, 4, 2]];
    for order in orders {
        let mut canvas = Canvas::new();
        for i in order {
            Pixel::insert_pixel(&mut canvas, &writes[i]);
        }
        assert_eq!(canvas.get(0, 0), Some(px(0, 0, 2, 8)));
        assert_eq!(canvas.get(1, 0), Some(px(1, 0, 5, 2)));
        assert_eq!(canvas.len(), 2);
    }
}
