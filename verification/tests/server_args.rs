use laz2dem::server::{parse_mbtiles, tms_row};

fn ok(path: &str, file: &str) -> Result<(String, String), String> {
    Ok((path.to_string(), file.to_string()))
}

#[test]
fn mount_argument_is_split_at_the_first_colon() {
    assert_eq!(parse_mbtiles("/tiles:foo.mbtiles"), ok("/tiles", "foo.mbtiles"));
    assert_eq!(parse_mbtiles("/a:b:c"), ok("/a", "b:c"));
    assert_eq!(parse_mbtiles(":x"), ok("", "x"));
    assert_eq!(parse_mbtiles("/t:"), ok("/t", ""));
}

#[test]
fn slashes_at_the_end_of_the_path_are_dropped() {
    assert_eq!(parse_mbtiles("/tiles/:foo.mbtiles"), ok("/tiles", "foo.mbtiles"));
    assert_eq!(parse_mbtiles("/tiles///:foo"), ok("/tiles", "foo"));
    assert_eq!(parse_mbtiles("/:foo"), ok("", "foo"));
    assert_eq!(parse_mbtiles("//a/b//:/f/"), ok("//a/b", "/f/"));
}

#[test]
fn mount_argument_without_colon_is_refused() {
    let want = Err("Must be in format /path:mbtiles_file".to_string());
    assert_eq!(parse_mbtiles("foo.mbtiles"), want);
    assert_eq!(parse_mbtiles(""), want);
    assert_eq!(parse_mbtiles("/tiles/"), want);
}

#[test]
fn mount_argument_may_hold_any_characters() {
    assert_eq!(parse_mbtiles("/dlaždice/:súbor č.1"), ok("/dlaždice", "súbor č.1"));
}

#[test]
fn tms_row_counts_from_the_bottom() {
    assert_eq!(tms_row(0, 0), Some(0));
    assert_eq!(tms_row(3, 2), Some(5));
    assert_eq!(tms_row(3, 7), Some(0));
    assert_eq!(tms_row(3, 8), None);
    assert_eq!(tms_row(31, 0), Some((1 << 31) - 1));
    assert_eq!(tms_row(32, 0), None);
    assert_eq!(tms_row(u32::MAX, 0), None);
}
