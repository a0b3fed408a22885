use laz2dem::cache::TileCache;
use laz2dem::tile::Tile;

fn tile(x: u32) -> Tile {
    Tile { zoom: 10, x, y: 3 }
}

#[test]
fn cache_gives_back_what_was_put() {
    let mut c = TileCache::new(4);
    c.put(tile(1), "one");
    c.put(tile(2), "two");
    assert_eq!(c.get(tile(1)), Some(&"one"));
    assert_eq!(c.get(tile(2)), Some(&"two"));
    assert_eq!(c.get(tile(3)), None);
    assert_eq!(c.len(), 2);
}

#[test]
fn cache_drops_the_least_recently_used() {
    let mut c = TileCache::new(2);
    c.put(tile(1), 1);
    c.put(tile(2), 2);
    c.put(tile(3), 3);
    assert!(!c.contains(tile(1)));
    assert!(c.contains(tile(2)));
    assert!(c.contains(tile(3)));
    assert_eq!(c.len(), 2);
}

#[test]
fn a_lookup_makes_the_entry_recent() {
    let mut c = TileCache::new(2);
    c.put(tile(1), 1);
    c.put(tile(2), 2);
    assert_eq!(c.get(tile(1)), Some(&1));
    c.put(tile(3), 3);
    assert!(c.contains(tile(1)));
    assert!(!c.contains(tile(2)));
}

#[test]
fn contains_does_not_make_the_entry_recent() {
    let mut c = TileCache::new(2);
    c.put(tile(1), 1);
    c.put(tile(2), 2);
    assert!(c.contains(tile(1)));
    c.put(tile(3), 3);
    assert!(!c.contains(tile(1)));
}

#[test]
fn putting_again_replaces_the_value() {
    let mut c = TileCache::new(2);
    c.put(tile(1), 1);
    c.put(tile(2), 2);
    c.put(tile(1), 10);
    assert_eq!(c.len(), 2);
    assert_eq!(c.get(tile(1)), Some(&10));
    c.put(tile(3), 3);
    assert!(!c.contains(tile(2)));
}

#[test]
fn a_cache_without_room_holds_nothing() {
    let mut c = TileCache::new(0);
    c.put(tile(1), 1);
    assert_eq!(c.len(), 0);
    assert_eq!(c.get(tile(1)), None);
}

#[test]
fn eviction_is_no_error() {
    let mut c = TileCache::new(16);
    for x in 0..1000 {
        c.put(tile(x), x);
        assert!(c.len() <= 16);
    }
    for x in 0..984 {
        assert_eq!(c.get(tile(x)), None);
    }
    for x in 984..1000 {
        assert_eq!(c.get(tile(x)), Some(&x));
    }
}
