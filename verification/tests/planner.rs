use griphus::components::Cardinal;
use griphus::map::{TileMap, TileType};

fn walled(width: i32, height: i32) -> TileMap {
    let mut map = TileMap::new(1, width, height);
    map.reset_blocked();
    map
}

fn follow(from: (i32, i32), path: &[Cardinal]) -> (i32, i32) {
    let mut at = from;
    for d in path.iter() {
        let (dx, dy) = d.get_delta_xy();
        at = (at.0 + dx, at.1 + dy);
    }
    at
}

#[test]
fn route_to_self_is_empty() {
    let map = walled(5, 5);
    assert_eq!(map.try_go_to((2, 2), (2, 2)), Some(vec![]));
    assert!(map.can_go_to((2, 2), (2, 2)));
    // Even from a blocked tile.
    assert_eq!(map.try_go_to((0, 0), (0, 0)), Some(vec![]));
    assert!(map.can_go_to((0, 0), (0, 0)));
}

#[test]
fn route_in_open_room_is_shortest() {
    let map = walled(6, 6);
    let path = map.try_go_to((1, 1), (4, 3)).unwrap();
    assert_eq!(path.len(), 5);
    assert_eq!(follow((1, 1), &path), (4, 3));
    assert!(map.can_go_to((1, 1), (4, 3)));
}

#[test]
fn no_route_to_a_blocked_or_lasered_tile() {
    let mut map = walled(6, 6);
    map.set_blocked(3, 3);
    map.set_lasered(2, 3, Cardinal::N);
    assert_eq!(map.try_go_to((1, 1), (3, 3)), None);
    assert_eq!(map.try_go_to((1, 1), (2, 3)), None);
    assert_eq!(map.try_go_to((1, 1), (0, 0)), None);
    assert_eq!(map.try_go_to((1, 1), (-1, 2)), None);
    assert_eq!(map.try_go_to((1, 1), (6, 6)), None);
    assert!(!map.can_go_to((1, 1), (3, 3)));
    assert!(!map.can_go_to((1, 1), (2, 3)));
    assert!(!map.can_go_to((1, 1), (0, 0)));
    assert!(!map.can_go_to((1, 1), (7, 1)));
}

#[test]
fn route_goes_around_a_wall() {
    let mut map = TileMap::new(1, 7, 7);
    // A wall across the room with one gap at the east.
    for x in 1..5 {
        map.set_tiletype(x, 3, TileType::Wall);
    }
    map.reset_blocked();
    let path = map.try_go_to((1, 1), (1, 5)).unwrap();
    // 4 east, 4 south, 4 west.
    assert_eq!(path.len(), 12);
    assert_eq!(follow((1, 1), &path), (1, 5));
    let mut at = (1, 1);
    for d in path.iter() {
        let (dx, dy) = d.get_delta_xy();
        at = (at.0 + dx, at.1 + dy);
        assert!(map.is_exit_valid(at.0, at.1));
    }
}

#[test]
fn route_avoids_lasered_tiles() {
    let mut map = walled(7, 5);
    // A beam across the room, with a gap at the south.
    map.set_lasered(3, 1, Cardinal::S);
    map.set_lasered(3, 2, Cardinal::S);
    let path = map.try_go_to((1, 1), (5, 1)).unwrap();
    assert_eq!(path.len(), 8);
    assert_eq!(follow((1, 1), &path), (5, 1));
    map.set_lasered(3, 3, Cardinal::S);
    assert_eq!(map.try_go_to((1, 1), (5, 1)), None);
    assert!(!map.can_go_to((1, 1), (5, 1)));
}

#[test]
fn no_route_into_a_closed_pocket() {
    let mut map = TileMap::new(1, 7, 5);
    map.set_tiletype(3, 1, TileType::Wall);
    map.set_tiletype(3, 2, TileType::Wall);
    map.set_tiletype(3, 3, TileType::Wall);
    map.reset_blocked();
    assert_eq!(map.try_go_to((1, 1), (5, 3)), None);
    assert!(!map.can_go_to((1, 1), (5, 3)));
    assert!(map.can_go_to((4, 1), (5, 3)));
}

#[test]
fn route_may_start_on_a_blocked_tile() {
    let map = walled(5, 5);
    let path = map.try_go_to((0, 2), (2, 2)).unwrap();
    assert_eq!(path, vec![Cardinal::E, Cardinal::E]);
}

#[test]
fn route_is_the_same_every_time() {
    let map = walled(8, 8);
    let first = map.try_go_to((1, 1), (6, 6)).unwrap();
    for _ in 0..5 {
        assert_eq!(map.try_go_to((1, 1), (6, 6)).unwrap(), first);
    }
    assert_eq!(first.len(), 10);
}

#[test]
fn route_length_is_the_distance_for_every_tile_of_a_room() {
    let map = walled(6, 5);
    for y in 1..4 {
        for x in 1..5 {
            let path = map.try_go_to((2, 2), (x, y)).unwrap();
            let distance = (x - 2).abs() + (y - 2).abs();
            assert_eq!(path.len() as i32, distance);
            assert_eq!(follow((2, 2), &path), (x, y));
        }
    }
}
