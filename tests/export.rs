use maze_carver::export::{fits_level, image_side, run_rect, stroke_rect, wall_boxes, MapBox, Rect, Segment};
use maze_carver::Maze;

fn seg(vertical: bool, line: usize, start: usize, end: usize) -> Segment {
    Segment { vertical, line, start, end }
}

#[test]
fn segments_of_closed_grid() {
    let m = Maze::new(2, 1);
    assert_eq!(
        m.wall_segments(),
        vec![
            seg(true, 0, 0, 1),
            seg(true, 1, 0, 1),
            seg(true, 2, 0, 1),
            seg(false, 0, 0, 2),
            seg(false, 1, 0, 2),
        ]
    );
}

#[test]
fn segments_of_carved_maze() {
    let mut m = Maze::new(2, 2);
    m.carve(&vec![vec![0u8, 1, 2, 3]; 4]);
    assert_eq!(
        m.wall_segments(),
        vec![
            seg(true, 0, 0, 2),
            seg(true, 2, 0, 2),
            seg(false, 0, 0, 2),
            seg(false, 1, 0, 1),
            seg(false, 2, 0, 2),
        ]
    );
}

#[test]
fn boxes_scale_segments() {
    let boxes = wall_boxes(&vec![seg(true, 0, 0, 2), seg(false, 1, 0, 1)], 40, 4);
    assert_eq!(
        boxes,
        vec![
            MapBox { px: 0, py: 0, pz: 40, sx: 4, sy: 20, sz: 80 },
            MapBox { px: 20, py: 0, pz: 40, sx: 40, sy: 20, sz: 4 },
        ]
    );
}

#[test]
fn floor_and_spawns() {
    let m = Maze::new(2, 3);
    assert_eq!(m.floor_box(40), MapBox { px: 40, py: -1, pz: 60, sx: 80, sy: 1, sz: 120 });
    assert_eq!(m.spawn_points(40), ((20, 0, 20), (60, 0, 100)));
}

#[test]
fn level_limits() {
    assert!(fits_level(&seg(true, 3, 0, 5), 40));
    assert!(!fits_level(&seg(true, 3, 0, 5), usize::MAX / 2));
}

#[test]
fn run_rectangles() {
    assert_eq!(run_rect(&seg(true, 2, 1, 3), 40, 4), Rect { x: 80, y: 40, w: 4, h: 80 });
    assert_eq!(run_rect(&seg(false, 1, 0, 2), 40, 4), Rect { x: 0, y: 40, w: 80, h: 4 });
}

#[test]
fn stroke_rectangles() {
    // down from (0,0) to (0,1): centres (20,20) and (20,60), stroke 20 wide
    assert_eq!(stroke_rect((0, 0), (0, 1), 40), Rect { x: 10, y: 20, w: 20, h: 41 });
    // left from (2,1) to (1,1)
    assert_eq!(stroke_rect((2, 1), (1, 1), 40), Rect { x: 60, y: 50, w: 41, h: 20 });
    // a tiny cell keeps the stroke at the border
    assert_eq!(stroke_rect((0, 0), (1, 0), 1), Rect { x: 0, y: 0, w: 2, h: 0 });
}

#[test]
fn image_sides() {
    assert_eq!(image_side(50, 40, 4), Some(2004));
    assert_eq!(image_side(1, 0, 0), Some(0));
    assert_eq!(image_side(1 << 20, 1 << 12, 1), None);
    assert_eq!(image_side(usize::MAX, 2, 0), None);
}
