use isomap::map::{parse_map, MapError, TileMap};

fn parse(text: &str) -> Result<TileMap, MapError> {
    parse_map(text.as_bytes())
}

#[test]
fn parse_accepts_two_by_two() {
    let m = parse("2,2\n1,2\n3,4").unwrap();
    assert_eq!(m.width, 2);
    assert_eq!(m.height, 2);
    assert_eq!(m.tiles, vec![1, 2, 3, 4]);
}

#[test]
fn parse_rejects_too_few_tiles() {
    let r = parse("3,3\n1,2,3\n4,5,6");
    assert_eq!(r.err(), Some(MapError::SizeMismatch { expected: 9, actual: 6 }));
}

#[test]
fn parse_rejects_too_many_tiles() {
    let r = parse("1,2\n1,2,3");
    assert_eq!(r.err(), Some(MapError::SizeMismatch { expected: 2, actual: 3 }));
}

#[test]
fn parse_rejects_missing_height() {
    assert_eq!(parse("2\n1,2,3,4").err(), Some(MapError::MalformedHeader));
}

#[test]
fn parse_rejects_extra_header_field() {
    assert_eq!(parse("2,2,2\n1,2,3,4").err(), Some(MapError::MalformedHeader));
}

#[test]
fn parse_rejects_empty_text() {
    assert_eq!(parse("").err(), Some(MapError::MalformedHeader));
}

#[test]
fn parse_rejects_bad_width() {
    assert_eq!(parse("x,2\n1,2").err(), Some(MapError::MalformedValue));
}

#[test]
fn parse_rejects_bad_tile() {
    assert_eq!(parse("2,2\n1,x\n3,4").err(), Some(MapError::MalformedValue));
    assert_eq!(parse("2,2\n1,-2\n3,4").err(), Some(MapError::MalformedValue));
    assert_eq!(parse("2,2\n1,2,\n3,4").err(), Some(MapError::MalformedValue));
}

#[test]
fn parse_rejects_tile_beyond_usize() {
    assert_eq!(parse("1,1\n99999999999999999999999").err(), Some(MapError::MalformedValue));
}

#[test]
fn parse_rejects_unaddressable_grid() {
    assert_eq!(parse("18446744073709551615,2\n").err(), Some(MapError::MalformedHeader));
}

#[test]
fn parse_reports_bad_tile_before_unaddressable_grid() {
    assert_eq!(parse("18446744073709551615,2\nx").err(), Some(MapError::MalformedValue));
    assert_eq!(parse("18446744073709551615,2\n1,2").err(), Some(MapError::MalformedHeader));
}

#[test]
fn parse_rejects_non_ascii_whitespace() {
    assert_eq!(parse("1,1\n5\u{a0}").err(), Some(MapError::MalformedValue));
}

#[test]
fn parse_skips_blank_lines_and_trims_fields() {
    let m = parse(" 2 , 2 \r\n\n 1 ,2\n   \n3,\t4\n\n").unwrap();
    assert_eq!((m.width, m.height), (2, 2));
    assert_eq!(m.tiles, vec![1, 2, 3, 4]);
}

#[test]
fn parse_accepts_plus_sign() {
    let m = parse("+1,1\n+7").unwrap();
    assert_eq!(m.tiles, vec![7]);
}

#[test]
fn parse_accepts_empty_grid() {
    let m = parse("0,3\n").unwrap();
    assert_eq!((m.width, m.height), (0, 3));
    assert!(m.tiles.is_empty());
}

#[test]
fn canonical_text_is_exact() {
    let m = TileMap { width: 2, height: 2, tiles: vec![10, 2, 0, 345] };
    assert_eq!(m.to_text(), b"2,2\n10,2,0,345\n".to_vec());
}

#[test]
fn canonical_text_parses_back() {
    let m = TileMap { width: 3, height: 2, tiles: vec![0, 9, 10, 99, 100, usize::MAX] };
    let back = parse_map(&m.to_text()).unwrap();
    assert_eq!((back.width, back.height), (3, 2));
    assert_eq!(back.tiles, m.tiles);
    let empty = TileMap { width: 4, height: 0, tiles: vec![] };
    let back = parse_map(&empty.to_text()).unwrap();
    assert_eq!((back.width, back.height), (4, 0));
    assert!(back.tiles.is_empty());
}
