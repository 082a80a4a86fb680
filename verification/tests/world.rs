use world_chunks::chunk::Warp;
use world_chunks::chunk::WorldChunk;
use world_chunks::chunk::WorldMap;
use world_chunks::chunk_map::test_move_code;
use world_chunks::chunk_map::BLOCKED_CODE;
use world_chunks::chunk_map::DEFAULT_CHUNK;
use world_chunks::Coordinate;
use world_chunks::GlobalPosition;
use world_chunks::WarpDestination;
use world_chunks::WorldChunkMap;
use world_chunks::WorldError;

fn coord(x: i64, y: i64) -> Coordinate {
    Coordinate { x, y }
}

/// A chunk whose grid is filled with one tile value and one movement code,
/// except for explicit overrides.
fn chunk(
    origin: (i64, i64),
    w: u16,
    h: u16,
    fill_tile: u16,
    fill_move: u8,
    borders: Vec<u16>,
    connections: Vec<u16>,
    warps: Vec<Warp>,
) -> WorldChunk {
    let n = (w as usize) * (h as usize);
    WorldChunk {
        coords: coord(origin.0, origin.1),
        map: WorldMap {
            name: String::from("test"),
            width: w,
            height: h,
            tile_map: vec![fill_tile; n],
            border_blocks: borders,
            movement_map: vec![fill_move; n],
            warps,
        },
        connections,
    }
}

fn set_tile(c: &mut WorldChunk, x: usize, y: usize, tile: u16) {
    let w = c.map.width as usize;
    c.map.tile_map[x + y * w] = tile;
}

fn set_move(c: &mut WorldChunk, x: usize, y: usize, code: u8) {
    let w = c.map.width as usize;
    c.map.movement_map[x + y * w] = code;
}

#[test]
fn new_registry_has_default_cursor() {
    let m = WorldChunkMap::new();
    assert_eq!(m.current_chunk, DEFAULT_CHUNK);
}

#[test]
fn current_chunk_on_unset_cursor_reports_corrupt_state() {
    let m = WorldChunkMap::new();
    assert!(matches!(m.current_chunk(), Err(WorldError::NoActiveChunk)));
}

#[test]
fn current_chunk_mut_on_unset_cursor_reports_corrupt_state() {
    let mut m = WorldChunkMap::new();
    assert!(matches!(m.current_chunk_mut(), Err(WorldError::NoActiveChunk)));
}

#[test]
fn update_chunk_to_missing_id_leaves_cursor() {
    let mut m = WorldChunkMap::new();
    m.insert_chunk(0, chunk((0, 0), 4, 4, 7, 0x0C, vec![], vec![], vec![]));
    m.update_chunk(&0);
    assert!(m.update_chunk(&9).is_none());
    assert_eq!(m.current_chunk, 0);
}

#[test]
fn update_chunk_moves_cursor_and_returns_chunk() {
    let mut m = WorldChunkMap::new();
    m.insert_chunk(0, chunk((0, 0), 4, 4, 7, 0x0C, vec![], vec![], vec![]));
    m.insert_chunk(5, chunk((4, 0), 4, 4, 8, 0x0C, vec![], vec![], vec![]));
    let got = m.update_chunk(&5).expect("chunk 5 is registered");
    assert_eq!(got.map.tile_map[0], 8);
    assert_eq!(m.current_chunk, 5);
}

#[test]
fn change_chunk_rebases_actor() {
    let mut m = WorldChunkMap::new();
    m.insert_chunk(0, chunk((0, 0), 10, 10, 7, 0x0C, vec![], vec![], vec![]));
    m.insert_chunk(3, chunk((10, 0), 5, 10, 8, 0x0C, vec![], vec![], vec![]));
    m.update_chunk(&0);
    let mut pos = GlobalPosition { global: coord(0, 0), local: coord(9, 5) };
    m.change_chunk(3, &mut pos);
    assert_eq!(m.current_chunk, 3);
    assert_eq!(pos.global, coord(10, 0));
    assert_eq!(pos.local, coord(-1, 5));
}

#[test]
fn change_chunk_to_missing_id_changes_nothing() {
    let mut m = WorldChunkMap::new();
    m.insert_chunk(0, chunk((0, 0), 10, 10, 7, 0x0C, vec![], vec![], vec![]));
    m.update_chunk(&0);
    let mut pos = GlobalPosition { global: coord(0, 0), local: coord(9, 5) };
    m.change_chunk(42, &mut pos);
    assert_eq!(m.current_chunk, 0);
    assert_eq!(pos.global, coord(0, 0));
    assert_eq!(pos.local, coord(9, 5));
}

#[test]
fn chunk_lookups_subtract_origin_and_agree() {
    let mut m = WorldChunkMap::new();
    m.insert_chunk(1, chunk((0, 0), 10, 10, 7, 0x0C, vec![], vec![], vec![]));
    m.insert_chunk(4, chunk((10, 0), 5, 5, 8, 0x0C, vec![], vec![], vec![]));
    for &(x, y) in &[(0, 0), (9, 9), (10, 0), (12, 3), (14, 4), (15, 0), (-1, 0), (10, 5)] {
        let by_id = m.chunk_id_at(coord(x, y));
        let by_pair = m.chunk_at(coord(x, y)).map(|p| p.0);
        assert_eq!(by_id, by_pair);
    }
    assert_eq!(m.chunk_id_at(coord(9, 9)), Some(1));
    assert_eq!(m.chunk_id_at(coord(12, 3)), Some(4));
    assert_eq!(m.chunk_id_at(coord(10, 5)), None);
    assert_eq!(m.chunk_id_at(coord(-1, 0)), None);
}

#[test]
fn chunk_lookup_on_overlap_prefers_smallest_id() {
    let mut m = WorldChunkMap::new();
    m.insert_chunk(6, chunk((0, 0), 10, 10, 7, 0x0C, vec![], vec![], vec![]));
    m.insert_chunk(2, chunk((5, 5), 10, 10, 8, 0x0C, vec![], vec![], vec![]));
    assert_eq!(m.chunk_id_at(coord(7, 7)), Some(2));
    let (id, c) = m.chunk_at(coord(7, 7)).expect("point is covered");
    assert_eq!(id, 2);
    assert_eq!(c.map.tile_map[0], 8);
}

#[test]
fn tiles_lists_each_distinct_tile_once() {
    let mut m = WorldChunkMap::new();
    let mut a = chunk((0, 0), 2, 2, 7, 0x0C, vec![30, 31], vec![], vec![]);
    set_tile(&mut a, 1, 0, 9);
    let b = chunk((2, 0), 2, 2, 9, 0x0C, vec![31, 40], vec![], vec![]);
    m.insert_chunk(5, a);
    m.insert_chunk(3, b);
    // ascending chunk id order: 3 first (all 9s, borders 31, 40), then 5
    assert_eq!(m.tiles(), vec![9, 31, 40, 7, 30]);
}

#[test]
fn tiles_of_empty_registry_is_empty() {
    let m = WorldChunkMap::new();
    assert!(m.tiles().is_empty());
}

#[test]
fn connections_resolve_in_declared_order() {
    let mut m = WorldChunkMap::new();
    m.insert_chunk(0, chunk((0, 0), 4, 4, 7, 0x0C, vec![], vec![9, 2], vec![]));
    m.insert_chunk(9, chunk((4, 0), 4, 4, 8, 0x0C, vec![], vec![], vec![]));
    m.insert_chunk(2, chunk((0, 4), 4, 4, 6, 0x0C, vec![], vec![], vec![]));
    m.update_chunk(&0);
    let conns = m.connections().expect("all declared neighbors exist");
    let ids: Vec<u16> = conns.iter().map(|p| p.0).collect();
    assert_eq!(ids, vec![9, 2]);
    assert_eq!(conns[0].1.map.tile_map[0], 8);
    assert_eq!(conns[1].1.map.tile_map[0], 6);
}

#[test]
fn connections_report_missing_neighbor() {
    let mut m = WorldChunkMap::new();
    m.insert_chunk(0, chunk((0, 0), 4, 4, 7, 0x0C, vec![], vec![9, 2], vec![]));
    m.insert_chunk(9, chunk((4, 0), 4, 4, 8, 0x0C, vec![], vec![], vec![]));
    m.update_chunk(&0);
    assert!(matches!(m.connections(), Err(WorldError::MissingConnection(2))));
}

#[test]
fn connections_without_active_chunk_report_corrupt_state() {
    let m = WorldChunkMap::new();
    assert!(matches!(m.connections(), Err(WorldError::NoActiveChunk)));
}

#[test]
fn walk_connections_crosses_into_neighbor() {
    let mut m = WorldChunkMap::new();
    m.insert_chunk(0, chunk((0, 0), 10, 10, 7, 0x0C, vec![], vec![3], vec![]));
    let mut b = chunk((10, 0), 5, 10, 8, 0xFF, vec![], vec![], vec![]);
    set_move(&mut b, 0, 5, 0x0C);
    m.insert_chunk(3, b);
    m.update_chunk(&0);
    let mut pos = GlobalPosition { global: coord(0, 0), local: coord(9, 5) };
    let (code, moved) = m.walk_connections(&mut pos, coord(10, 5));
    assert_eq!(code, 0x0C);
    assert!(moved);
    assert_eq!(m.current_chunk, 3);
    assert_eq!(pos.global, coord(10, 0));
    assert_eq!(pos.local, coord(-1, 5));
}

#[test]
fn walk_connections_outside_every_neighbor_blocks_and_keeps_state() {
    let mut m = WorldChunkMap::new();
    m.insert_chunk(0, chunk((0, 0), 10, 10, 7, 0x0C, vec![], vec![3], vec![]));
    m.insert_chunk(3, chunk((10, 0), 5, 10, 8, 0x0C, vec![], vec![], vec![]));
    m.update_chunk(&0);
    let mut pos = GlobalPosition { global: coord(0, 0), local: coord(5, 5) };
    let (code, moved) = m.walk_connections(&mut pos, coord(-1, 5));
    assert_eq!(code, BLOCKED_CODE);
    assert!(!moved);
    assert_eq!(m.current_chunk, 0);
    assert_eq!(pos.global, coord(0, 0));
    assert_eq!(pos.local, coord(5, 5));
}

#[test]
fn walk_connections_with_illegal_code_stays_put() {
    let mut m = WorldChunkMap::new();
    m.insert_chunk(0, chunk((0, 0), 10, 10, 7, 0x0C, vec![], vec![3], vec![]));
    m.insert_chunk(3, chunk((10, 0), 5, 10, 8, 0xFF, vec![], vec![], vec![]));
    m.update_chunk(&0);
    let mut pos = GlobalPosition { global: coord(0, 0), local: coord(9, 5) };
    let (code, moved) = m.walk_connections(&mut pos, coord(10, 5));
    assert_eq!(code, 0xFF);
    assert!(!moved);
    assert_eq!(m.current_chunk, 0);
    assert_eq!(pos.global, coord(0, 0));
    assert_eq!(pos.local, coord(9, 5));
}

#[test]
fn walk_connections_overlap_prefers_smallest_id() {
    let mut m = WorldChunkMap::new();
    m.insert_chunk(0, chunk((0, 0), 10, 10, 7, 0x0C, vec![], vec![8, 4], vec![]));
    m.insert_chunk(8, chunk((10, 0), 5, 10, 8, 0x04, vec![], vec![], vec![]));
    m.insert_chunk(4, chunk((10, 0), 5, 10, 9, 0x0C, vec![], vec![], vec![]));
    m.update_chunk(&0);
    let mut pos = GlobalPosition { global: coord(0, 0), local: coord(9, 5) };
    let (code, moved) = m.walk_connections(&mut pos, coord(10, 5));
    assert_eq!(code, 0x0C);
    assert!(moved);
    assert_eq!(m.current_chunk, 4);
}

#[test]
fn tile_inside_active_chunk_is_its_own() {
    let mut m = WorldChunkMap::new();
    let mut a = chunk((0, 0), 10, 10, 7, 0x0C, vec![], vec![3], vec![]);
    set_tile(&mut a, 9, 5, 77);
    m.insert_chunk(0, a);
    m.insert_chunk(3, chunk((10, 0), 5, 10, 8, 0x0C, vec![], vec![], vec![]));
    m.update_chunk(&0);
    assert_eq!(m.tile(coord(9, 5)), Ok(77));
}

#[test]
fn tile_falls_back_to_neighbor_in_its_own_frame() {
    let mut m = WorldChunkMap::new();
    m.insert_chunk(0, chunk((0, 0), 10, 10, 7, 0x0C, vec![], vec![3], vec![]));
    let mut b = chunk((10, 0), 5, 10, 8, 0x0C, vec![], vec![], vec![]);
    set_tile(&mut b, 2, 5, 88);
    m.insert_chunk(3, b);
    m.update_chunk(&0);
    assert_eq!(m.tile(coord(12, 5)), Ok(88));
}

#[test]
fn tile_missing_everywhere_is_reported_not_defaulted() {
    let mut m = WorldChunkMap::new();
    m.insert_chunk(0, chunk((0, 0), 10, 10, 7, 0x0C, vec![30, 31], vec![3], vec![]));
    m.insert_chunk(3, chunk((10, 0), 5, 10, 8, 0x0C, vec![], vec![], vec![]));
    m.update_chunk(&0);
    assert_eq!(
        m.tile(coord(-1, 0)),
        Err(WorldError::TileOutOfBounds(coord(-1, 0)))
    );
}

#[test]
fn tile_reports_missing_connection() {
    let mut m = WorldChunkMap::new();
    m.insert_chunk(0, chunk((0, 0), 10, 10, 7, 0x0C, vec![], vec![99], vec![]));
    m.update_chunk(&0);
    assert_eq!(m.tile(coord(10, 0)), Err(WorldError::MissingConnection(99)));
}

#[test]
fn in_bounds_and_walkable_delegate_to_active_chunk() {
    let mut m = WorldChunkMap::new();
    let mut a = chunk((0, 0), 10, 10, 7, 0x0C, vec![], vec![], vec![]);
    set_move(&mut a, 3, 4, 0x04);
    m.insert_chunk(0, a);
    m.update_chunk(&0);
    assert!(m.in_bounds(coord(3, 4)));
    assert!(!m.in_bounds(coord(10, 4)));
    assert_eq!(m.walkable(coord(3, 4)), 0x04);
    assert_eq!(m.walkable(coord(0, 0)), 0x0C);
}

#[test]
fn check_warp_finds_declared_warp() {
    let dest = WarpDestination { map_id: 9, coords: Coordinate { x: 1, y: 2 } };
    let warp = Warp { location: Coordinate { x: 4, y: 4 }, destination: dest };
    let mut m = WorldChunkMap::new();
    m.insert_chunk(0, chunk((0, 0), 10, 10, 7, 0x0C, vec![], vec![], vec![warp]));
    m.update_chunk(&0);
    assert_eq!(m.check_warp(coord(4, 4)), Some(dest));
    assert_eq!(m.check_warp(coord(4, 5)), None);
}

#[test]
fn current_chunk_mut_edits_are_visible() {
    let mut m = WorldChunkMap::new();
    m.insert_chunk(0, chunk((0, 0), 4, 4, 7, 0x0C, vec![], vec![], vec![]));
    m.update_chunk(&0);
    {
        let c = m.current_chunk_mut().expect("cursor is valid");
        c.map.tile_map[0] = 55;
    }
    assert_eq!(m.tile(coord(0, 0)), Ok(55));
}

#[test]
fn insert_chunk_with_same_id_displaces_old_chunk() {
    let mut m = WorldChunkMap::new();
    m.insert_chunk(0, chunk((0, 0), 4, 4, 7, 0x0C, vec![], vec![], vec![]));
    m.insert_chunk(0, chunk((0, 0), 4, 4, 9, 0x0C, vec![], vec![], vec![]));
    m.update_chunk(&0);
    assert_eq!(m.tile(coord(0, 0)), Ok(9));
    assert_eq!(m.tiles(), vec![9]);
}

#[test]
fn move_code_legality_table() {
    assert!(test_move_code(0x00));
    assert!(test_move_code(0x04));
    assert!(test_move_code(0x0C));
    assert!(!test_move_code(BLOCKED_CODE));
    assert!(!test_move_code(0xFF));
}

#[test]
fn chunk_level_lookups_are_local_frame() {
    let mut a = chunk((10, 0), 5, 5, 7, 0x0C, vec![], vec![], vec![]);
    set_tile(&mut a, 2, 3, 21);
    assert!(a.in_bounds(coord(2, 3)));
    assert!(!a.in_bounds(coord(12, 3)));
    assert_eq!(a.tile(coord(2, 3)), 21);
    assert_eq!(a.safe_tile(coord(2, 3)), Some(21));
    assert_eq!(a.safe_tile(coord(5, 0)), None);
    assert_eq!(a.walkable(coord(2, 3)), 0x0C);
}
