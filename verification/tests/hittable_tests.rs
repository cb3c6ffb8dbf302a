use raytracer::hittable::HittableList;

// Primitives stand at fixed distances; a probe reports a hit only if its
// distance lies strictly within the bound it is given.

fn scene_of(distances: &[u32]) -> HittableList<u32> {
    let mut scene = HittableList::new();
    for d in distances {
        scene.add(*d);
    }
    scene
}

fn scan(distances: &[u32], limit: u32) -> Option<u32> {
    let probe = |at: &u32, bound: &u32| if *at < *bound { Some(*at) } else { None };
    let distance = |hit: &u32| *hit;
    scene_of(distances).hit(limit, &probe, &distance)
}

#[test]
fn a_new_scene_is_empty() {
    let scene: HittableList<u32> = HittableList::new();
    assert_eq!(scene.len(), 0);
    let other: HittableList<String> = HittableList::default();
    assert_eq!(other.len(), 0);
}

#[test]
fn add_appends_and_clear_empties() {
    let mut scene = HittableList::new();
    scene.add("ground");
    scene.add("ball");
    assert_eq!(scene.len(), 2);
    scene.clear();
    assert_eq!(scene.len(), 0);
    scene.add("lamp");
    assert_eq!(scene.len(), 1);
}

#[test]
fn primitives_are_asked_in_the_order_added() {
    let mut scene = HittableList::new();
    scene.add('a');
    scene.add('b');
    scene.add('c');
    let asked = std::cell::RefCell::new(String::new());
    let probe = |p: &char, _bound: &u32| -> Option<u32> {
        asked.borrow_mut().push(*p);
        None
    };
    let distance = |hit: &u32| *hit;
    assert_eq!(scene.hit(10, &probe, &distance), None);
    assert_eq!(*asked.borrow(), "abc");
}

#[test]
fn the_nearest_primitive_wins_wherever_it_stands() {
    assert_eq!(scan(&[5, 3, 8], 100), Some(3));
    assert_eq!(scan(&[3, 5, 8], 100), Some(3));
    assert_eq!(scan(&[8, 5, 3], 100), Some(3));
}

#[test]
fn hits_beyond_the_limit_do_not_count() {
    assert_eq!(scan(&[5, 3, 8], 3), None);
    assert_eq!(scan(&[5, 3, 8], 4), Some(3));
}

#[test]
fn of_two_equal_distances_the_first_is_kept() {
    let mut scene = HittableList::new();
    scene.add(("first", 4u32));
    scene.add(("second", 4u32));
    scene.add(("far", 9u32));
    let probe =
        |p: &(&'static str, u32), bound: &u32| if p.1 < *bound { Some(*p) } else { None };
    let distance = |hit: &(&'static str, u32)| hit.1;
    assert_eq!(scene.hit(100, &probe, &distance), Some(("first", 4)));
}

#[test]
fn an_empty_scene_has_no_hit() {
    assert_eq!(scan(&[], 100), None);
}

#[test]
fn a_cleared_scene_has_no_hit() {
    let mut scene = scene_of(&[1, 2, 3]);
    scene.clear();
    let probe = |at: &u32, bound: &u32| if *at < *bound { Some(*at) } else { None };
    let distance = |hit: &u32| *hit;
    assert_eq!(scene.hit(100, &probe, &distance), None);
}

#[test]
fn each_primitive_is_asked_once_with_the_bound_then_in_force() {
    let asked = std::cell::RefCell::new(Vec::new());
    let scene = scene_of(&[7, 9, 2, 5]);
    let probe = |at: &u32, bound: &u32| {
        asked.borrow_mut().push((*at, *bound));
        if *at < *bound {
            Some(*at)
        } else {
            None
        }
    };
    let distance = |hit: &u32| *hit;
    assert_eq!(scene.hit(50, &probe, &distance), Some(2));
    assert_eq!(*asked.borrow(), vec![(7, 50), (9, 7), (2, 7), (5, 2)]);
}

#[test]
fn the_last_reported_hit_is_returned() {
    // a probe that ignores its bound: the scan still returns what came last
    let scene = scene_of(&[0, 1, 2, 3, 4, 5]);
    let probe = |at: &u32, _bound: &u32| if *at % 2 == 0 { Some(*at) } else { None };
    let distance = |hit: &u32| *hit;
    assert_eq!(scene.hit(0, &probe, &distance), Some(4));
    assert_eq!(scene_of(&[0]).hit(0, &probe, &distance), Some(0));
}

#[test]
fn a_copy_of_a_scene_holds_the_same_primitives() {
    let scene = scene_of(&[6, 4]);
    let copy = scene.clone();
    assert_eq!(copy.len(), 2);
    let probe = |at: &u32, bound: &u32| if *at < *bound { Some(*at) } else { None };
    let distance = |hit: &u32| *hit;
    assert_eq!(copy.hit(10, &probe, &distance), Some(4));
}
