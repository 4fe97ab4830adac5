use kaku::bitmap::Bitmap;
use kaku::distance::PQKey;
use kaku::frontier::{Frontier, Priority, Visited};
use kaku::sdf::{
    fill, key_of_priority, priority, relax_neighbour, relax_neighbours, seed_frontier, side_of,
};
use kaku::settings::SdfSettings;
use priority_queue::PriorityQueue;
use std::cmp::Reverse;

fn settings(radius: f32) -> SdfSettings {
    SdfSettings { radius_bits: radius.to_bits() }
}

struct Seeded {
    image: Bitmap,
    size: (u32, u32),
    sdf: SdfSettings,
    canvas: Bitmap,
    frontier: Frontier,
    visited: Visited,
}

fn seeded(width: u32, height: u32, coverage: &Vec<u8>, radius: f32) -> Seeded {
    let image = Bitmap::from_pixels(width, height, coverage).unwrap();
    let sdf = settings(radius);
    let padding = sdf.padding();
    let (w, h) = (width + 2 * padding, height + 2 * padding);
    let mut canvas = Bitmap::from_pixels(w, h, &vec![0; (w * h) as usize]).unwrap();
    fill(&mut canvas, 255);
    let mut frontier: Frontier = PriorityQueue::new();
    let mut visited = Visited::default();
    seed_frontier(&image, (width, height), &sdf, &mut canvas, &mut frontier, &mut visited);
    Seeded { image, size: (width, height), sdf, canvas, frontier, visited }
}

fn waiting(frontier: &Frontier, pixel: (u32, u32)) -> Option<Priority> {
    frontier.get_priority(&pixel).map(|priority| priority.0)
}

#[test]
fn fill_sets_every_pixel() {
    let mut canvas = Bitmap::from_pixels(3, 2, &vec![1, 2, 3, 4, 5, 6]).unwrap();
    fill(&mut canvas, 77);
    assert_eq!(canvas.dimensions(), (3, 2));
    assert_eq!(canvas.to_pixels(), vec![77; 6]);
}

#[test]
fn priority_carries_the_key_and_the_pixel() {
    let key = PQKey { vector: (3, -4), coverage: 255, interior: false };
    let p = priority(&key, (7, 9));
    assert_eq!(p, (150405120, 3, -4, 255, false, 7, 9));
    let back = key_of_priority(p);
    assert_eq!(back.vector, (3, -4));
    assert_eq!(back.coverage, 255);
    assert!(!back.interior);
}

#[test]
fn sides_of_the_canvas() {
    let image = Bitmap::from_pixels(3, 1, &vec![255, 90, 0]).unwrap();
    let sdf = settings(2.0);
    // beyond the frame
    assert_eq!(side_of(&image, (3, 1), &sdf, (0, 0)), Some(false));
    assert_eq!(side_of(&image, (3, 1), &sdf, (1, 2)), Some(false));
    assert_eq!(side_of(&image, (3, 1), &sdf, (5, 2)), Some(false));
    assert_eq!(side_of(&image, (3, 1), &sdf, (2, 3)), Some(false));
    // over the frame: filled, crossed by the edge, empty
    assert_eq!(side_of(&image, (3, 1), &sdf, (2, 2)), Some(true));
    assert_eq!(side_of(&image, (3, 1), &sdf, (3, 2)), None);
    assert_eq!(side_of(&image, (3, 1), &sdf, (4, 2)), Some(false));
}

#[test]
fn seeding_marks_the_ring_and_fills_the_inside() {
    let state = seeded(10, 10, &vec![255; 100], 5.0);
    assert_eq!(state.frontier.len(), 36);
    assert_eq!(state.visited.len(), 36);
    let pixels = state.canvas.to_pixels();
    for y in 0..20u32 {
        for x in 0..20u32 {
            let over_frame = (5..15).contains(&x) && (5..15).contains(&y);
            let on_ring = over_frame && (x == 5 || x == 14 || y == 5 || y == 14);
            let value = pixels[(y * 20 + x) as usize];
            if on_ring {
                // a seed: half a pixel inside
                assert_eq!(value, 114);
                assert!(state.visited.contains(&(x, y)));
                assert_eq!(
                    waiting(&state.frontier, (x, y)),
                    Some((16711680, 0, 0, 255, true, x, y))
                );
            } else {
                // a full radius inside within the ring, a full radius outside elsewhere
                assert_eq!(value, if over_frame { 0 } else { 255 });
                assert!(!state.visited.contains(&(x, y)));
                assert_eq!(waiting(&state.frontier, (x, y)), None);
            }
        }
    }
}

#[test]
fn nothing_is_seeded_from_an_empty_bitmap() {
    let state = seeded(4, 4, &vec![0; 16], 3.0);
    assert!(state.frontier.is_empty());
    assert!(state.visited.is_empty());
    assert_eq!(state.canvas.to_pixels(), vec![255; 100]);
}

#[test]
fn a_seed_hands_keys_to_its_eight_neighbours() {
    let mut state = seeded(1, 1, &vec![255], 2.0);
    let (at, Reverse(first)) = state.frontier.pop().unwrap();
    assert_eq!(at, (2, 2));
    let key = key_of_priority(first);
    relax_neighbours(&state.image, state.size, &state.sdf, &mut state.frontier, &state.visited, &key, at);
    assert_eq!(state.frontier.len(), 8);
    assert_eq!(waiting(&state.frontier, (3, 2)), Some((16711680, 1, 0, 255, false, 3, 2)));
    assert_eq!(waiting(&state.frontier, (1, 2)), Some((16711680, -1, 0, 255, false, 1, 2)));
    assert_eq!(waiting(&state.frontier, (2, 1)), Some((16711680, 0, -1, 255, false, 2, 1)));
    assert_eq!(waiting(&state.frontier, (3, 3)), Some((30556089, 1, 1, 255, false, 3, 3)));
    assert_eq!(waiting(&state.frontier, (1, 1)), Some((30556089, -1, -1, 255, false, 1, 1)));
    // the seed itself has been visited and takes no key
    assert_eq!(waiting(&state.frontier, (2, 2)), None);
    // the first to leave is the least: rank, then vector
    let (next, _) = state.frontier.pop().unwrap();
    assert_eq!(next, (1, 2));
}

#[test]
fn a_worse_key_is_not_taken() {
    // two seeds with an empty pixel between them
    let mut state = seeded(3, 1, &vec![255, 0, 100], 3.0);
    let near = PQKey::seed(255);
    let far = PQKey::seed(100);
    // the seed on the left is half a pixel nearer to the edge
    relax_neighbour(&state.image, state.size, &state.sdf, &mut state.frontier, &state.visited, &near, (3, 3), (1, 0));
    let taken = waiting(&state.frontier, (4, 3));
    assert_eq!(taken, Some((16711680, 1, 0, 255, false, 4, 3)));
    relax_neighbour(&state.image, state.size, &state.sdf, &mut state.frontier, &state.visited, &far, (5, 3), (-1, 0));
    assert_eq!(waiting(&state.frontier, (4, 3)), taken);
}

#[test]
fn a_better_key_is_taken() {
    let mut state = seeded(3, 1, &vec![255, 0, 100], 3.0);
    let near = PQKey::seed(255);
    let far = PQKey::seed(100);
    relax_neighbour(&state.image, state.size, &state.sdf, &mut state.frontier, &state.visited, &far, (5, 3), (-1, 0));
    assert_eq!(waiting(&state.frontier, (4, 3)), Some((37027840, -1, 0, 100, false, 4, 3)));
    relax_neighbour(&state.image, state.size, &state.sdf, &mut state.frontier, &state.visited, &near, (3, 3), (1, 0));
    assert_eq!(waiting(&state.frontier, (4, 3)), Some((16711680, 1, 0, 255, false, 4, 3)));
}

#[test]
fn ranks_never_grow_while_relaxing() {
    let coverage = vec![0, 200, 255, 255, 40, 0, 255, 255, 255, 255, 90, 0];
    let mut state = seeded(4, 3, &coverage, 3.0);
    let mut rounds = 0;
    while let Some((at, Reverse(first))) = state.frontier.pop() {
        let before: Vec<((u32, u32), Priority)> =
            state.frontier.iter().map(|(pixel, priority)| (*pixel, priority.0)).collect();
        let key = key_of_priority(first);
        relax_neighbours(&state.image, state.size, &state.sdf, &mut state.frontier, &state.visited, &key, at);
        for (pixel, old) in before {
            let new = waiting(&state.frontier, pixel).unwrap();
            assert!(new <= old);
            assert!(new.0 <= old.0);
        }
        state.visited.insert(at);
        rounds += 1;
    }
    // no pixel leaves the frontier twice
    assert!(rounds <= 10 * 9);
    assert_eq!(state.visited.len(), rounds);
}

#[test]
fn neighbours_beyond_the_canvas_take_no_key() {
    let mut state = seeded(1, 1, &vec![255], 1.0);
    // the canvas is 3x3; from its corner five of the eight steps lead off it,
    // and one leads to the seed, which has been visited
    let key = PQKey { vector: (-1, -1), coverage: 255, interior: false };
    relax_neighbours(&state.image, state.size, &state.sdf, &mut state.frontier, &state.visited, &key, (0, 0));
    assert_eq!(state.frontier.len(), 3);
    assert_eq!(waiting(&state.frontier, (1, 1)), Some((16711680, 0, 0, 255, true, 1, 1)));
    assert_eq!(waiting(&state.frontier, (1, 0)), Some((16711680, 0, -1, 255, false, 1, 0)));
    assert_eq!(waiting(&state.frontier, (0, 1)), Some((16711680, -1, 0, 255, false, 0, 1)));
}

#[test]
fn neighbours_beyond_the_radius_take_no_key() {
    // one pixel away from this seed the distance is 1 + 55/510
    let mut state = seeded(1, 1, &vec![100], 1.0);
    let key = PQKey::seed(100);
    relax_neighbours(&state.image, state.size, &state.sdf, &mut state.frontier, &state.visited, &key, (1, 1));
    assert_eq!(state.frontier.len(), 1);
    assert_eq!(waiting(&state.frontier, (1, 1)), Some((3604480, 0, 0, 100, true, 1, 1)));
    // under a wider radius all eight take one
    let mut state = seeded(1, 1, &vec![100], 1.6);
    relax_neighbours(&state.image, state.size, &state.sdf, &mut state.frontier, &state.visited, &key, (2, 2));
    assert_eq!(state.frontier.len(), 9);
    assert_eq!(waiting(&state.frontier, (3, 2)), Some((37027840, 1, 0, 100, false, 3, 2)));
}
