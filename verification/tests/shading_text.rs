use laz2dem::options::Rgb;
use laz2dem::shadings::{parse_shading, parse_shadings, ParseShadingError, ShadingKind};
use laz2dem::text::split_at;

#[test]
fn split_keeps_empty_parts() {
    assert_eq!(split_at("a,b,c", ','), vec!["a", "b", "c"]);
    assert_eq!(split_at("", ','), vec![""]);
    assert_eq!(split_at(",", ','), vec!["", ""]);
    assert_eq!(split_at("a,,b,", ','), vec!["a", "", "b", ""]);
    assert_eq!(split_at("čaj+káva", '+'), vec!["čaj", "káva"]);
    assert_eq!(split_at("no separator", '+'), vec!["no separator"]);
}

#[test]
fn split_agrees_with_std() {
    for s in ["igor,ff,45+oblique,0,1,2", "+", "a+b+", "++a", "x"] {
        let want: Vec<String> = s.split('+').map(|p| p.to_string()).collect();
        assert_eq!(split_at(s, '+'), want);
    }
}

#[test]
fn colour_from_hex() {
    assert_eq!(Rgb::from_str("ff8000").ok(), Some(Rgb { r: 255, g: 128, b: 0 }));
    assert_eq!(Rgb::from_str("FFFFFF").ok(), Some(Rgb { r: 255, g: 255, b: 255 }));
    assert_eq!(Rgb::from_str("0").ok(), Some(Rgb { r: 0, g: 0, b: 0 }));
    assert_eq!(Rgb::from_str("abc").ok(), Some(Rgb { r: 0, g: 0x0a, b: 0xbc }));
    assert_eq!(Rgb::from_str("+10203").ok(), Some(Rgb { r: 1, g: 2, b: 3 }));
}

#[test]
fn colour_leaves_out_the_top_byte() {
    assert_eq!(Rgb::from_str("12345678").ok(), Some(Rgb { r: 0x34, g: 0x56, b: 0x78 }));
    assert_eq!(Rgb::from_str("ffffffff").ok(), Some(Rgb { r: 255, g: 255, b: 255 }));
}

#[test]
fn colour_that_is_no_hex_number_is_refused() {
    for s in ["", "+", "-1", "ff 00", "gg0000", "0x10", "100000000", " ff", "f_f", "++1"] {
        assert!(Rgb::from_str(s).is_err(), "{s:?}");
    }
}

#[test]
fn one_shading_of_each_method() {
    let s = parse_shading("igor,203060,-120").unwrap();
    assert_eq!(s.kind, ShadingKind::Igor);
    assert_eq!(s.color, 0x203060);
    assert_eq!(s.angles, vec!["-120"]);

    let s = parse_shading("oblique,FFEE00ff,315,45").unwrap();
    assert_eq!(s.kind, ShadingKind::Oblique);
    assert_eq!(s.color, 0xffee00ff);
    assert_eq!(s.angles, vec!["315", "45"]);

    let s = parse_shading("igor-slope,0").unwrap();
    assert_eq!(s.kind, ShadingKind::IgorSlope);
    assert_eq!(s.color, 0);
    assert!(s.angles.is_empty());

    let s = parse_shading("oblique-slope,80,60.5").unwrap();
    assert_eq!(s.kind, ShadingKind::ObliqueSlope);
    assert_eq!(s.color, 0x80);
    assert_eq!(s.angles, vec!["60.5"]);
}

#[test]
fn shading_with_the_wrong_number_of_angles_is_refused() {
    for s in [
        "igor,ff",
        "igor,ff,1,2",
        "oblique,ff,1",
        "oblique,ff,1,2,3",
        "igor-slope,ff,1",
        "oblique-slope,ff",
        "oblique-slope,ff,1,2",
    ] {
        assert!(parse_shading(s).is_none(), "{s:?}");
    }
}

#[test]
fn shading_with_unknown_method_or_bad_colour_is_refused() {
    for s in ["", "igor", "Igor,ff,1", "slope,ff", "igor,xyz,1", "igor,,1", "igor,100000000,1", " igor,ff,1"] {
        assert!(parse_shading(s).is_none(), "{s:?}");
    }
}

#[test]
fn angles_are_kept_as_written() {
    let s = parse_shading("oblique,1,, x ").unwrap();
    assert_eq!(s.angles, vec!["", " x "]);
}

#[test]
fn shadings_are_joined_by_plus() {
    let list = parse_shadings("igor,203060,-120+igor,FFEE00,60+igor-slope,000000").ok().unwrap();
    assert_eq!(list.len(), 3);
    assert_eq!(list[0].color, 0x203060);
    assert_eq!(list[0].angles, vec!["-120"]);
    assert_eq!(list[1].color, 0xffee00);
    assert_eq!(list[1].angles, vec!["60"]);
    assert_eq!(list[2].kind, ShadingKind::IgorSlope);
}

#[test]
fn one_bad_shading_spoils_the_list() {
    assert_eq!(parse_shadings("igor,ff,1+bad").err(), Some(ParseShadingError()));
    assert_eq!(parse_shadings("").err(), Some(ParseShadingError()));
    assert_eq!(parse_shadings("igor,ff,1+").err(), Some(ParseShadingError()));
    assert_eq!(parse_shadings("+igor,ff,1").err(), Some(ParseShadingError()));
    assert!(parse_shadings("igor,ff,1").is_ok());
}
