use gameloop::contact::{gather_contacts, ColliderID, Contact, Mobile, Wall};
use gameloop::geometry::{rect_displacement, rect_touching, Rect};
use gameloop::resolve::{
    clamp_to_coord, contact_severity, correct_contact, restitute, sort_contacts,
};
use gameloop::step::collide;

fn rect(x: i32, y: i32, w: u16, h: u16) -> Rect {
    Rect { x, y, w, h }
}

fn body(x: i32, y: i32, w: u16, h: u16) -> Mobile {
    Mobile { rect: rect(x, y, w, h), vx: 0, vy: 0 }
}

fn wall(x: i32, y: i32, w: u16, h: u16) -> Wall {
    Wall { rect: rect(x, y, w, h) }
}

fn contact(a: ColliderID, b: ColliderID, dx: i32, dy: i32) -> Contact {
    Contact { a, b, displacement: (dx, dy) }
}

#[test]
fn touching_is_symmetric() {
    let pairs = [
        (rect(0, 0, 10, 10), rect(5, 5, 10, 10)),
        (rect(0, 0, 10, 10), rect(10, 0, 3, 3)),
        (rect(0, 0, 10, 10), rect(11, 0, 3, 3)),
        (rect(-20, -20, 5, 5), rect(-16, -40, 1, 30)),
        (rect(3, 3, 0, 0), rect(3, 3, 0, 0)),
    ];
    for (r1, r2) in pairs.iter() {
        assert_eq!(rect_touching(*r1, *r2), rect_touching(*r2, *r1));
        assert_eq!(rect_displacement(*r1, *r2), rect_displacement(*r2, *r1));
    }
}

#[test]
fn overlap_is_defined_exactly_when_touching() {
    let rects = [
        rect(0, 0, 10, 10),
        rect(5, 5, 10, 10),
        rect(10, 10, 4, 4),
        rect(11, 0, 3, 3),
        rect(-5, -5, 5, 5),
        rect(100, 100, 1, 1),
    ];
    for r1 in rects.iter() {
        for r2 in rects.iter() {
            assert_eq!(rect_displacement(*r1, *r2).is_some(), rect_touching(*r1, *r2));
        }
    }
}

#[test]
fn shared_edge_touches_with_zero_overlap() {
    let left = rect(0, 0, 10, 10);
    let right = rect(10, 2, 10, 10);
    assert!(rect_touching(left, right));
    assert_eq!(rect_displacement(left, right), Some((0, 8)));
    let below = rect(3, 10, 4, 4);
    assert!(rect_touching(left, below));
    assert_eq!(rect_displacement(left, below), Some((4, 0)));
}

#[test]
fn shared_corner_touches_with_zero_overlap_on_both_axes() {
    let a = rect(0, 0, 10, 10);
    let b = rect(10, 10, 5, 5);
    assert!(rect_touching(a, b));
    assert_eq!(rect_displacement(a, b), Some((0, 0)));
}

#[test]
fn apart_rectangles_have_no_overlap() {
    let a = rect(0, 0, 10, 10);
    let b = rect(11, 0, 10, 10);
    assert!(!rect_touching(a, b));
    assert_eq!(rect_displacement(a, b), None);
    let c = rect(0, 11, 10, 10);
    assert!(!rect_touching(a, c));
    assert_eq!(rect_displacement(a, c), None);
}

#[test]
fn overlap_formula_gives_exact_values() {
    // min(right) - max(left) = min(15, 40) - max(10, 12) = 3,
    // min(bottom) - max(top) = min(30, 27) - max(20, 22) = 5
    assert_eq!(rect_displacement(rect(10, 20, 5, 10), rect(12, 22, 28, 5)), Some((3, 5)));
    // one inside the other: the overlap is the inner extent
    assert_eq!(rect_displacement(rect(0, 0, 100, 100), rect(40, 40, 10, 20)), Some((10, 20)));
}

#[test]
fn degenerate_rectangles_are_valid() {
    let dot = rect(5, 5, 0, 0);
    let big = rect(0, 0, 10, 10);
    assert!(rect_touching(dot, big));
    assert_eq!(rect_displacement(dot, big), Some((0, 0)));
    assert_eq!(rect_displacement(dot, dot), Some((0, 0)));
    let line = rect(0, 20, 10, 0);
    assert_eq!(rect_displacement(line, big), None);
}

#[test]
fn extreme_coordinates_do_not_overflow() {
    let far = rect(i32::MAX, i32::MAX, u16::MAX, u16::MAX);
    let near = rect(i32::MAX - 10, i32::MAX - 10, 20, 20);
    assert!(rect_touching(far, near));
    assert_eq!(rect_displacement(far, near), Some((10, 10)));
    let low = rect(i32::MIN, i32::MIN, 1, 1);
    assert!(!rect_touching(far, low));
    assert_eq!(rect_displacement(low, far), None);
}

#[test]
fn contacts_list_bodies_first_then_walls() {
    let statics = vec![wall(0, 0, 4, 4), wall(100, 100, 5, 5), wall(8, 8, 10, 10)];
    let dynamics = vec![body(2, 2, 4, 4), body(5, 5, 4, 4), body(200, 200, 1, 1), body(6, 6, 1, 1)];
    let mut found = Vec::new();
    gather_contacts(&statics, &dynamics, &mut found);
    let expected = vec![
        contact(ColliderID::Dynamic(0), ColliderID::Dynamic(1), 1, 1),
        contact(ColliderID::Dynamic(0), ColliderID::Dynamic(3), 0, 0),
        contact(ColliderID::Dynamic(1), ColliderID::Dynamic(3), 1, 1),
        contact(ColliderID::Dynamic(0), ColliderID::Static(0), 2, 2),
        contact(ColliderID::Dynamic(1), ColliderID::Static(2), 1, 1),
    ];
    assert_eq!(found, expected);
}

#[test]
fn contacts_of_an_earlier_step_are_dropped() {
    let statics = vec![wall(0, 0, 4, 4)];
    let dynamics = vec![body(2, 2, 4, 4)];
    let stale = contact(ColliderID::Dynamic(7), ColliderID::Static(9), 1, 2);
    let mut found = vec![stale, stale];
    gather_contacts(&statics, &dynamics, &mut found);
    assert_eq!(found, vec![contact(ColliderID::Dynamic(0), ColliderID::Static(0), 2, 2)]);
    // a second call on the same colliders gives the same contacts, once
    gather_contacts(&statics, &dynamics, &mut found);
    assert_eq!(found, vec![contact(ColliderID::Dynamic(0), ColliderID::Static(0), 2, 2)]);
    // and where nothing touches, nothing is left
    gather_contacts(&statics, &[body(50, 50, 1, 1)], &mut found);
    assert!(found.is_empty());
}

#[test]
fn no_colliders_no_contacts() {
    let mut found = Vec::new();
    gather_contacts(&[], &[], &mut found);
    assert!(found.is_empty());
    gather_contacts(&[wall(0, 0, 1, 1)], &[], &mut found);
    assert!(found.is_empty());
    gather_contacts(&[], &[body(0, 0, 1, 1)], &mut found);
    assert!(found.is_empty());
}

#[test]
fn severity_is_squared_length() {
    let c = contact(ColliderID::Dynamic(0), ColliderID::Static(0), 3, 4);
    assert_eq!(contact_severity(&c), 25);
    let worst = contact(ColliderID::Dynamic(0), ColliderID::Static(0), i32::MIN, i32::MIN);
    assert_eq!(contact_severity(&worst), 1u64 << 63);
    let none = contact(ColliderID::Dynamic(0), ColliderID::Static(0), 0, 0);
    assert_eq!(contact_severity(&none), 0);
}

#[test]
fn contacts_are_sorted_most_severe_first_and_ties_keep_order() {
    let a = contact(ColliderID::Dynamic(0), ColliderID::Static(0), 1, 1);
    let b = contact(ColliderID::Dynamic(0), ColliderID::Static(1), 3, 4);
    let c = contact(ColliderID::Dynamic(0), ColliderID::Static(2), 4, 3);
    let d = contact(ColliderID::Dynamic(0), ColliderID::Static(3), 0, 5);
    let e = contact(ColliderID::Dynamic(0), ColliderID::Static(4), 9, 9);
    let f = contact(ColliderID::Dynamic(0), ColliderID::Static(5), 1, 1);
    let mut all = vec![a, b, c, d, e, f];
    sort_contacts(&mut all);
    assert_eq!(all, vec![e, b, c, d, a, f]);
    let mut empty: Vec<Contact> = vec![];
    sort_contacts(&mut empty);
    assert!(empty.is_empty());
}

#[test]
fn sorting_twice_changes_nothing_more() {
    let a = contact(ColliderID::Dynamic(0), ColliderID::Static(0), 2, 2);
    let b = contact(ColliderID::Dynamic(1), ColliderID::Static(1), 2, -2);
    let c = contact(ColliderID::Dynamic(2), ColliderID::Static(2), 5, 0);
    let mut once = vec![a, b, c];
    sort_contacts(&mut once);
    let mut twice = once.clone();
    sort_contacts(&mut twice);
    assert_eq!(once, twice);
    assert_eq!(once, vec![c, a, b]);
}

#[test]
fn clamp_keeps_coordinates_in_range() {
    assert_eq!(clamp_to_coord(5), 5);
    assert_eq!(clamp_to_coord(-5), -5);
    assert_eq!(clamp_to_coord(i32::MAX as i64 + 1), i32::MAX);
    assert_eq!(clamp_to_coord(i32::MIN as i64 - 1), i32::MIN);
    assert_eq!(clamp_to_coord(i64::MAX), i32::MAX);
    assert_eq!(clamp_to_coord(i64::MIN), i32::MIN);
}

#[test]
fn corner_overlap_is_pushed_out_along_x() {
    let statics = vec![wall(12, 12, 5, 5)];
    let mut dynamics = vec![Mobile { rect: rect(10, 10, 5, 5), vx: 2, vy: 3 }];
    assert_eq!(rect_displacement(dynamics[0].rect, statics[0].rect), Some((3, 3)));
    let mut contacts = Vec::new();
    gather_contacts(&statics, &dynamics, &mut contacts);
    assert_eq!(
        contacts,
        vec![contact(ColliderID::Dynamic(0), ColliderID::Static(0), 3, 3)]
    );
    restitute(&statics, &mut dynamics, &mut contacts);
    // the costs are equal, so the push is along x: by 3, away from the wall
    assert_eq!(dynamics[0].rect, rect(7, 10, 5, 5));
    assert_eq!(dynamics[0].vx, 0);
    assert_eq!(dynamics[0].vy, 3);
    // the body is out of the wall: the two share the edge x = 12 and no area,
    // which the inclusive test still counts as touching
    assert_eq!(rect_displacement(dynamics[0].rect, statics[0].rect), Some((0, 3)));
    assert!(rect_touching(dynamics[0].rect, statics[0].rect));
    assert_eq!(statics[0].rect, rect(12, 12, 5, 5));
}

#[test]
fn push_is_along_the_axis_of_smaller_overlap() {
    // overlap (4, 1): the push is along y, upwards, by 1
    let statics = vec![wall(0, 10, 20, 10)];
    let mut dynamics = vec![Mobile { rect: rect(3, 6, 4, 5), vx: 7, vy: 9 }];
    let mut contacts = Vec::new();
    gather_contacts(&statics, &dynamics, &mut contacts);
    assert_eq!(contacts[0].displacement, (4, 1));
    restitute(&statics, &mut dynamics, &mut contacts);
    assert_eq!(dynamics[0], Mobile { rect: rect(3, 5, 4, 5), vx: 7, vy: 0 });
    // overlap (2, 6): the push is along x, to the right, by 2
    let statics = vec![wall(0, 0, 10, 30)];
    let mut dynamics = vec![Mobile { rect: rect(8, 5, 6, 6), vx: -1, vy: -1 }];
    let mut contacts = Vec::new();
    gather_contacts(&statics, &dynamics, &mut contacts);
    assert_eq!(contacts[0].displacement, (2, 6));
    restitute(&statics, &mut dynamics, &mut contacts);
    assert_eq!(dynamics[0], Mobile { rect: rect(10, 5, 6, 6), vx: 0, vy: -1 });
}

#[test]
fn second_pass_on_resolved_state_changes_nothing() {
    let statics = vec![wall(12, 12, 5, 5), wall(0, 30, 40, 5)];
    let mut dynamics = vec![
        Mobile { rect: rect(10, 10, 5, 5), vx: 2, vy: 3 },
        Mobile { rect: rect(20, 27, 4, 4), vx: 0, vy: 5 },
    ];
    let mut contacts = Vec::new();
    gather_contacts(&statics, &dynamics, &mut contacts);
    restitute(&statics, &mut dynamics, &mut contacts);
    let after_first = dynamics.clone();
    restitute(&statics, &mut dynamics, &mut contacts);
    assert_eq!(dynamics, after_first);
    let mut again = Vec::new();
    gather_contacts(&statics, &dynamics, &mut again);
    restitute(&statics, &mut dynamics, &mut again);
    assert_eq!(dynamics, after_first);
}

#[test]
fn same_input_gives_same_outcome() {
    let statics = vec![wall(12, 12, 5, 5), wall(8, 8, 3, 3), wall(9, 14, 3, 3)];
    let start = vec![
        Mobile { rect: rect(10, 10, 5, 5), vx: 2, vy: 3 },
        Mobile { rect: rect(11, 11, 5, 5), vx: 1, vy: 1 },
    ];
    let mut first = start.clone();
    let mut second = start.clone();
    let mut c1 = Vec::new();
    gather_contacts(&statics, &first, &mut c1);
    let mut c2 = c1.clone();
    restitute(&statics, &mut first, &mut c1);
    restitute(&statics, &mut second, &mut c2);
    assert_eq!(first, second);
    assert_eq!(c1, c2);
}

#[test]
fn deeper_contact_is_corrected_first() {
    // the body overlaps the first wall by (1, 8) and the second by (6, 6);
    // the second is the more severe and is corrected first, along x, which
    // takes the body out of the first wall as well
    let statics = vec![wall(14, 0, 10, 20), wall(9, 2, 30, 6)];
    let mut dynamics = vec![Mobile { rect: rect(5, 2, 10, 8), vx: 4, vy: 4 }];
    let mut contacts = Vec::new();
    gather_contacts(&statics, &dynamics, &mut contacts);
    assert_eq!(
        contacts,
        vec![
            contact(ColliderID::Dynamic(0), ColliderID::Static(0), 1, 8),
            contact(ColliderID::Dynamic(0), ColliderID::Static(1), 6, 6),
        ]
    );
    restitute(&statics, &mut dynamics, &mut contacts);
    assert_eq!(contacts[0].b, ColliderID::Static(1));
    assert_eq!(contacts[1].b, ColliderID::Static(0));
    assert_eq!(dynamics[0], Mobile { rect: rect(-1, 2, 10, 8), vx: 0, vy: 4 });
}

#[test]
fn stale_contact_is_skipped() {
    // the contact says the pair overlapped, but by now the body is elsewhere
    let statics = vec![wall(0, 0, 10, 10)];
    let mut dynamics = vec![Mobile { rect: rect(50, 50, 5, 5), vx: 1, vy: 1 }];
    let c = contact(ColliderID::Dynamic(0), ColliderID::Static(0), 4, 4);
    correct_contact(&statics, &mut dynamics, &c);
    assert_eq!(dynamics[0], Mobile { rect: rect(50, 50, 5, 5), vx: 1, vy: 1 });
}

#[test]
fn two_bodies_share_the_correction() {
    // overlap (5, 10): along x, the first moves left by 2, the second right by 3
    let statics: Vec<Wall> = vec![];
    let mut dynamics = vec![
        Mobile { rect: rect(0, 0, 10, 10), vx: 1, vy: 2 },
        Mobile { rect: rect(5, 0, 10, 10), vx: -3, vy: 4 },
    ];
    let mut contacts = Vec::new();
    gather_contacts(&statics, &dynamics, &mut contacts);
    assert_eq!(
        contacts,
        vec![contact(ColliderID::Dynamic(0), ColliderID::Dynamic(1), 5, 10)]
    );
    restitute(&statics, &mut dynamics, &mut contacts);
    assert_eq!(dynamics[0], Mobile { rect: rect(-2, 0, 10, 10), vx: 1, vy: 2 });
    assert_eq!(dynamics[1], Mobile { rect: rect(8, 0, 10, 10), vx: -3, vy: 4 });
    assert_eq!(rect_displacement(dynamics[0].rect, dynamics[1].rect), Some((0, 10)));
}

#[test]
fn bodies_with_one_centre_part_in_opposite_directions() {
    let statics: Vec<Wall> = vec![];
    let mut dynamics = vec![body(0, 0, 4, 4), body(0, 0, 4, 4)];
    let c = contact(ColliderID::Dynamic(0), ColliderID::Dynamic(1), 4, 4);
    correct_contact(&statics, &mut dynamics, &c);
    assert_eq!(dynamics[0].rect, rect(2, 0, 4, 4));
    assert_eq!(dynamics[1].rect, rect(-2, 0, 4, 4));
}

#[test]
fn contact_of_a_body_with_itself_changes_nothing() {
    let statics: Vec<Wall> = vec![];
    let mut dynamics = vec![Mobile { rect: rect(1, 2, 3, 4), vx: 5, vy: 6 }];
    let c = contact(ColliderID::Dynamic(0), ColliderID::Dynamic(0), 3, 4);
    correct_contact(&statics, &mut dynamics, &c);
    assert_eq!(dynamics[0], Mobile { rect: rect(1, 2, 3, 4), vx: 5, vy: 6 });
}

#[test]
fn edge_contact_stops_the_body_and_leaves_it_in_place() {
    let statics = vec![wall(10, 0, 10, 10)];
    let mut dynamics = vec![Mobile { rect: rect(0, 0, 10, 10), vx: 3, vy: 4 }];
    let c = contact(ColliderID::Dynamic(0), ColliderID::Static(0), 0, 10);
    correct_contact(&statics, &mut dynamics, &c);
    assert_eq!(dynamics[0], Mobile { rect: rect(0, 0, 10, 10), vx: 0, vy: 4 });
}

#[test]
fn push_at_the_edge_of_the_coordinate_range_saturates() {
    let statics = vec![wall(i32::MIN + 3, 0, 10, 100)];
    let mut dynamics = vec![Mobile { rect: rect(i32::MIN, 10, 5, 5), vx: 1, vy: 1 }];
    let c = contact(ColliderID::Dynamic(0), ColliderID::Static(0), 2, 5);
    correct_contact(&statics, &mut dynamics, &c);
    assert_eq!(dynamics[0], Mobile { rect: rect(i32::MIN, 10, 5, 5), vx: 0, vy: 1 });
}

#[test]
fn body_that_spans_a_wall_is_moved_by_the_overlap_only() {
    // the body reaches beyond the wall on both sides of x: the overlap is the
    // wall's width, and one push does not take the body out
    let statics = vec![wall(40, 0, 10, 100)];
    let mut dynamics = vec![Mobile { rect: rect(0, 10, 100, 50), vx: 1, vy: 1 }];
    let mut contacts = Vec::new();
    gather_contacts(&statics, &dynamics, &mut contacts);
    assert_eq!(contacts[0].displacement, (10, 50));
    restitute(&statics, &mut dynamics, &mut contacts);
    assert_eq!(dynamics[0], Mobile { rect: rect(10, 10, 100, 50), vx: 0, vy: 1 });
    assert_eq!(rect_displacement(dynamics[0].rect, statics[0].rect), Some((10, 50)));
}

#[test]
fn collide_finds_and_corrects() {
    let walls = vec![wall(12, 12, 5, 5)];
    let mut bodies = vec![Mobile { rect: rect(10, 10, 5, 5), vx: 2, vy: 3 }];
    collide(&walls, &mut bodies);
    assert_eq!(bodies, vec![Mobile { rect: rect(7, 10, 5, 5), vx: 0, vy: 3 }]);
}
