use wfc_tiles::editor::TileSystem;
use wfc_tiles::tile::TileType::{self, Coast, Empty, Land, Mountain, Water};

fn row_of(m: &TileSystem, y: usize) -> Vec<TileType> {
    (0..m.grid_width()).map(|x| m.get_tile(x, y).unwrap()).collect()
}

#[test]
fn new_map_is_empty() {
    let m = TileSystem::new(3, 2);
    assert_eq!((m.grid_width(), m.grid_height()), (3, 2));
    assert_eq!(m.tiles(), vec![vec![Empty; 3]; 2]);
    assert_eq!(m.get_tile(3, 0), None);
    assert_eq!(m.get_tile(0, 2), None);
    assert!(m.config_names().is_empty());
}

#[test]
fn set_tile_uses_column_then_row() {
    let mut m = TileSystem::new(3, 2);
    assert!(m.set_tile(2, 1, Water));
    assert_eq!(m.get_tile(2, 1), Some(Water));
    assert_eq!(m.tiles()[1][2], Water);
    assert_eq!(m.get_tile(1, 2), None);
    assert!(!m.set_tile(3, 0, Water));
    assert!(!m.set_tile(0, 2, Water));
}

#[test]
fn clear_map_empties_every_tile() {
    let mut m = TileSystem::new(2, 2);
    m.set_tile(0, 0, Land);
    m.set_tile(1, 1, Coast);
    m.clear_map();
    assert_eq!(m.tiles(), vec![vec![Empty; 2]; 2]);
}

#[test]
fn fill_stops_at_border() {
    let mut m = TileSystem::new(4, 3);
    for y in 0..3 {
        m.set_tile(1, y, Mountain);
    }
    m.fill_to_border(0, 0, Water);
    assert_eq!(row_of(&m, 0), vec![Water, Mountain, Empty, Empty]);
    assert_eq!(row_of(&m, 2), vec![Water, Mountain, Empty, Empty]);
    m.fill_to_border(3, 2, Land);
    assert_eq!(row_of(&m, 1), vec![Water, Mountain, Land, Land]);
}

#[test]
fn fill_with_same_tile_or_off_map_changes_nothing() {
    let mut m = TileSystem::new(2, 2);
    m.set_tile(0, 0, Land);
    let before = m.tiles();
    m.fill_to_border(0, 0, Land);
    m.fill_to_border(5, 5, Water);
    assert_eq!(m.tiles(), before);
}

#[test]
fn configs_save_load_delete() {
    let mut m = TileSystem::new(2, 2);
    m.set_tile(0, 0, Land);
    m.save_config("a".to_string());
    m.set_tile(1, 1, Water);
    m.save_config("b".to_string());
    m.set_tile(0, 1, Coast);
    m.save_config("a".to_string());
    assert_eq!(m.config_names(), vec!["a".to_string(), "b".to_string()]);
    m.clear_map();
    assert!(m.load_config("b"));
    assert_eq!(m.tiles(), vec![vec![Land, Empty], vec![Empty, Water]]);
    assert!(!m.load_config("c"));
    assert_eq!(m.config_grid(&"a".to_string()), Some(vec![vec![Land, Empty], vec![Coast, Water]]));
    assert_eq!(m.delete_config("a"), Ok(vec![vec![Land, Empty], vec![Coast, Water]]));
    assert_eq!(m.config_names(), vec!["b".to_string()]);
    assert_eq!(m.delete_config("a"), Err(" Item 'a' not found".to_string()));
}

#[test]
fn insert_config_keeps_grid_as_given() {
    let mut m = TileSystem::new(2, 2);
    m.insert_config("big".to_string(), vec![vec![Water; 3]; 3]);
    m.insert_config("small".to_string(), vec![vec![Land]]);
    assert_eq!(m.config_grid(&"big".to_string()), Some(vec![vec![Water; 3]; 3]));
    assert_eq!(m.config_grid(&"small".to_string()), Some(vec![vec![Land]]));
    assert_eq!(m.tiles(), vec![vec![Empty; 2]; 2]);
    assert!(m.load_config("small"));
    assert_eq!(m.tiles(), vec![vec![Land, Empty], vec![Empty, Empty]]);
}

#[test]
fn delete_keeps_other_configs() {
    let mut m = TileSystem::new(1, 1);
    m.insert_config("a".to_string(), vec![vec![Land]]);
    m.insert_config("b".to_string(), vec![vec![Water]]);
    m.insert_config("c".to_string(), vec![vec![Coast]]);
    assert_eq!(m.delete_config("b"), Ok(vec![vec![Water]]));
    assert_eq!(m.config_names(), vec!["a".to_string(), "c".to_string()]);
    assert_eq!(m.config_grid(&"c".to_string()), Some(vec![vec![Coast]]));
    assert_eq!(TileSystem::new(2, 2).delete_config("missing"), Err(" Item 'missing' not found".to_string()));
}

#[test]
fn second_fill_changes_nothing() {
    let mut m = TileSystem::new(3, 3);
    m.set_tile(1, 1, Mountain);
    m.save_config("k".to_string());
    m.fill_to_border(0, 0, Water);
    let after = m.tiles();
    m.fill_to_border(0, 0, Water);
    assert_eq!(m.tiles(), after);
    assert_eq!(m.config_grid(&"k".to_string()).unwrap()[1][1], Mountain);
}
