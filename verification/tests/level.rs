use griphus::components::{ActivationKind, Cardinal, Entity, Position};
use griphus::level::{load_level, load_level_from_text, read_rows, LevelFile};
use griphus::map::TileType;

#[test]
fn levels_come_from_three_kinds_of_files() {
    assert_eq!(load_level(0), LevelFile::Game(0));
    assert_eq!(load_level(1), LevelFile::Game(1));
    assert_eq!(load_level(4), LevelFile::Game(4));
    assert_eq!(load_level(5), LevelFile::End);
    assert_eq!(load_level(10000), LevelFile::End);
    assert_eq!(load_level(10001), LevelFile::AiTest(1));
    assert_eq!(load_level(10006), LevelFile::AiTest(6));
    assert_eq!(load_level(10007), LevelFile::End);
    assert_eq!(load_level(u64::MAX), LevelFile::End);
}

#[test]
fn rows_are_the_lines_of_the_trimmed_text() {
    assert_eq!(read_rows(b"ab\ncd"), vec![b"ab".to_vec(), b"cd".to_vec()]);
    assert_eq!(read_rows(b"\n\n  ab\n\ncd \n\t\r\n"), vec![b"ab".to_vec(), b"".to_vec(), b"cd".to_vec()]);
    assert_eq!(read_rows(b""), vec![b"".to_vec()]);
    assert_eq!(read_rows(b" \n "), vec![b"".to_vec()]);
    assert_eq!(read_rows(b"a b"), vec![b"a b".to_vec()]);
}

#[test]
fn a_level_is_read_tile_by_tile() {
    let text = b"
#####E#
#@.b.x#
#n/\\o*#
#######
";
    let (world, map) = load_level_from_text(7, text).unwrap();
    assert_eq!(map.level(), 7);
    assert_eq!(map.width(), 7);
    assert_eq!(map.height(), 4);
    for y in 0..4 {
        for x in 0..7 {
            let expected = if (x, y) == (5, 0) {
                TileType::Exit
            } else if x == 0 || y == 0 || x == 6 || y == 3 {
                TileType::Wall
            } else {
                TileType::Floor
            };
            assert_eq!(map.get_tiletype(x, y), expected, "tile {} {}", x, y);
            assert!(!map.is_blocked(x, y));
            assert!(!map.is_lasered(x, y));
            assert!(map.iter_content(x, y).is_empty());
        }
    }
    assert_eq!(world.len(), 10);
    let at = |i: usize| world.get(Entity(i)).position;
    assert!(world.get(Entity(0)).player.is_some());
    assert_eq!(at(0), Position { x: 1, y: 1 });
    assert!(world.get(Entity(1)).block.is_some());
    assert_eq!(at(1), Position { x: 3, y: 1 });
    assert_eq!(world.get(Entity(2)).activable.unwrap().kind, ActivationKind::Weight);
    assert_eq!(at(2), Position { x: 5, y: 1 });
    assert_eq!(world.get(Entity(3)).laser.unwrap().direction, Cardinal::N);
    assert_eq!(at(3), Position { x: 1, y: 2 });
    assert_eq!(world.get(Entity(4)).reflector.unwrap().orientation, Cardinal::NE);
    assert!(world.get(Entity(4)).actuator.is_some());
    assert_eq!(world.get(Entity(5)).reflector.unwrap().orientation, Cardinal::NW);
    assert_eq!(at(5), Position { x: 3, y: 2 });
    assert_eq!(world.get(Entity(6)).activable.unwrap().kind, ActivationKind::Laser);
    assert!(world.get(Entity(6)).blocks_tile.is_some());
    assert_eq!(world.get(Entity(7)).activable.unwrap().kind, ActivationKind::Weight);
    assert_eq!(at(7), Position { x: 5, y: 2 });
    assert!(world.get(Entity(8)).block.is_some());
    assert_eq!(at(8), Position { x: 5, y: 2 });
    let door = world.get(Entity(9));
    assert_eq!(door.position, Position { x: 5, y: 0 });
    assert_eq!(
        door.door.as_ref().unwrap().activations,
        vec![Entity(2), Entity(6), Entity(7)]
    );
}

#[test]
fn the_door_stands_on_the_last_exit_and_lists_every_activation() {
    let text = b"#E#E#\n#x.o#\n#e.s#\n#w$*#";
    let (world, map) = load_level_from_text(1, text).unwrap();
    assert_eq!(map.get_exits(), vec![(1, 0), (3, 0)]);
    assert_eq!(world.len(), 9);
    let door = world.get(Entity(8));
    assert_eq!(door.position, Position { x: 3, y: 0 });
    assert!(door.blocks_laser.is_some());
    assert!(door.blocks_tile.is_none());
    let gate = door.door.as_ref().unwrap();
    assert!(!gate.opened);
    assert_eq!(gate.activations, vec![Entity(0), Entity(1), Entity(6)]);
    assert_eq!(world.get(Entity(2)).laser.unwrap().direction, Cardinal::E);
    assert_eq!(world.get(Entity(3)).laser.unwrap().direction, Cardinal::S);
    assert_eq!(world.get(Entity(4)).laser.unwrap().direction, Cardinal::W);
    assert!(world.get(Entity(5)).block.is_some());
    assert!(world.get(Entity(7)).block.is_some());
    assert_eq!(map.get_tiletype(3, 3), TileType::Floor);
    assert_eq!(map.get_tiletype(2, 3), TileType::Wall);
}

#[test]
fn a_level_without_an_exit_has_its_door_in_the_corner() {
    let (world, map) = load_level_from_text(1, b"###\n#@#\n###").unwrap();
    assert_eq!(map.get_exits(), vec![]);
    assert_eq!(world.len(), 2);
    let door = world.get(Entity(1));
    assert_eq!(door.position, Position { x: 0, y: 0 });
    assert_eq!(door.door.as_ref().unwrap().activations, vec![]);
}

#[test]
fn short_rows_are_padded_and_unknown_bytes_change_nothing() {
    let (world, map) = load_level_from_text(1, b"#####\n#?\n#.Z.#\n#####").unwrap();
    assert_eq!(map.width(), 5);
    assert_eq!(map.height(), 4);
    assert_eq!(map.get_tiletype(1, 1), TileType::Floor);
    assert_eq!(map.get_tiletype(3, 1), TileType::Floor);
    assert_eq!(map.get_tiletype(4, 1), TileType::Wall);
    assert_eq!(map.get_tiletype(2, 2), TileType::Floor);
    assert_eq!(world.len(), 1);
}

#[test]
fn a_floor_tile_may_open_the_border() {
    let (_, map) = load_level_from_text(1, b"#.#\n#.#\n###").unwrap();
    assert_eq!(map.get_tiletype(1, 0), TileType::Floor);
    assert_eq!(map.get_tiletype(0, 0), TileType::Wall);
}

#[test]
fn texts_that_hold_no_level() {
    assert!(load_level_from_text(1, b"").is_none());
    assert!(load_level_from_text(1, b"  \n\n ").is_none());
    assert!(load_level_from_text(1, b"##\n###").is_none());
    assert!(load_level_from_text(1, b"#").is_some());
}
