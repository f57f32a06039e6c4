use penguin_game::level_parsing::{
    empty_level_src, example_level_src, parse, polygon_shape, rpad, sec32, section_name,
    GraphicError, ParseError, ShapeError, TriggerError, MIN_LEVEL_SRC_SIZE,
};
use penguin_game::levels::{StatusIcon, TriggerKind};
use penguin_game::raw_level::{Graphic, PointBits, Shape, Trigger};
use penguin_game::text_utils::concat_chunks;

fn pt(x: f32, y: f32) -> PointBits {
    PointBits { x: x.to_bits(), y: y.to_bits() }
}

fn rect(x: f32, y: f32, w: f32, h: f32) -> Shape {
    Shape::Rect { pos: pt(x, y), size: pt(w, h) }
}

#[test]
fn parse_fail_missing_header() {
    let zeros = [0u8; MIN_LEVEL_SRC_SIZE];
    let src = concat_chunks(&[&b"penguinlevel-bin-v1\n"[..], &zeros[..]]);
    let err = parse(&src).unwrap_err();
    assert_eq!(err, ParseError::MissingHeader);
}

#[test]
fn parse_fail_empty_string() {
    let err = parse(b"").unwrap_err();
    assert_eq!(err, ParseError::NotEnoughData);
}

#[test]
fn parse_ok_empty_level() {
    let src = empty_level_src();
    assert_eq!(src.len(), MIN_LEVEL_SRC_SIZE);
    let level = parse(&src).unwrap();
    assert_eq!(level.start_pos, pt(0.0, 0.0));
    assert_eq!(level.graphics.len(), 0);
    assert_eq!(level.colliders.len(), 0);
    assert_eq!(level.triggers.len(), 0);
}

#[test]
fn parse_ok_example_level() {
    let level = parse(&example_level_src()).unwrap();
    assert_eq!(level.start_pos, pt(42.0, -1.23));

    let polygon =
        Shape::Polygon(vec![pt(0.0, 0.1), pt(3.1, -1.1), pt(4.0, 5.1), pt(0.99, 6.9)]);
    let rect1234 = rect(1.0, 2.0, 3.0, 4.0);
    let rect5678 = rect(5.0, 6.0, 7.0, 8.0);

    assert_eq!(level.colliders.as_slice(), &[
        rect(1.0, 2.0, 3.0, 4.0),
        rect(5.0, 6.0, 7.0, 8.0),
        polygon.clone(),
    ]);

    assert_eq!(level.graphics.as_slice(), &[
        Graphic { shape: rect(1.0, 2.0, 3.0, 4.0), texture: "banana".into() },
        Graphic { shape: polygon.clone(), texture: "ban".into() },
    ]);

    assert_eq!(level.triggers.as_slice(), [
        Trigger { shape: rect1234.clone(), kind: TriggerKind::Panic },
        Trigger { shape: rect5678.clone(), kind: TriggerKind::Hello },
        Trigger { shape: rect1234.clone(), kind: TriggerKind::ShowText("banana".into()) },
        Trigger { shape: polygon.clone(), kind: TriggerKind::SetEyepatch(true) },
        Trigger { shape: rect1234.clone(), kind: TriggerKind::SetEyepatch(false) },
        Trigger { shape: rect1234.clone(), kind: TriggerKind::Goto(pt(123.0, 4.5), StatusIcon::Wrong) },
        Trigger { shape: rect5678.clone(), kind: TriggerKind::Goto(pt(123.0, 4.5), StatusIcon::Nice) },
    ]);
}

#[test]
fn section_names() {
    assert_eq!(section_name(0), "level_start");
    assert_eq!(section_name(1), "strings");
    assert_eq!(section_name(4), "obj_defs/triggers");
}

#[test]
fn fixtures_encode_little_endian() {
    assert_eq!(sec32(0x0102_0304, 8), [4, 3, 2, 1, 8, 0, 0, 0]);
    let shape = polygon_shape(7);
    assert_eq!(&shape[0..4], &[0xff, 0xff, 0xff, 0xff]);
    assert_eq!(&shape[4..6], &[7, 0]);
    assert_eq!(&shape[6..], &[0; 10]);
    assert_eq!(rpad(b"ab", 4), vec![b'a', b'b', 0, 0]);
}

#[test]
fn too_short_source_is_not_enough_data() {
    let src = empty_level_src();
    let err = parse(&src[..src.len() - 1]).unwrap_err();
    assert_eq!(err, ParseError::NotEnoughData);
}

#[test]
fn wrong_offset_table_size_is_refused() {
    let mut src = empty_level_src();
    src[20] = 4;
    assert_eq!(parse(&src).unwrap_err(), ParseError::BadOffsetTableSize(4));
}

#[test]
fn section_past_the_end_is_refused() {
    let mut src = empty_level_src();
    // level_start claims one byte more than the file has
    src[22..30].copy_from_slice(&sec32(70, 9));
    assert!(matches!(parse(&src).unwrap_err(), ParseError::SectionOutOfBounds(0, 70, 9)));
}

#[test]
fn error_variants_compare() {
    let e = ParseError::SectionGraphicErr(2, 0, GraphicError::BadShape(ShapeError::StringNotFound {
        string_id: 3,
    }));
    assert_ne!(e, ParseError::SectionTriggerErr(4, 0, TriggerError::UnknownTrigger));
}

fn polygon_level(points: usize) -> Vec<u8> {
    let string_len = (8 * points) as u32;
    let strings_len = 2 + 8 + string_len;
    let graphics_at = 70 + strings_len;
    let colliders_at = graphics_at + 2;
    let triggers_at = colliders_at + 18;
    let mut src = b"penguinlevel-bin-v0\n\x05\x00".to_vec();
    src.extend_from_slice(&sec32(62, 8));
    src.extend_from_slice(&sec32(70, strings_len));
    src.extend_from_slice(&sec32(graphics_at, 2));
    src.extend_from_slice(&sec32(colliders_at, 18));
    src.extend_from_slice(&sec32(triggers_at, 2));
    src.extend_from_slice(&[0; 8]);
    src.extend_from_slice(&[1, 0]);
    src.extend_from_slice(&sec32(0, string_len));
    for i in 0..points {
        src.extend_from_slice(&(i as f32).to_bits().to_le_bytes());
        src.extend_from_slice(&0.5f32.to_bits().to_le_bytes());
    }
    src.extend_from_slice(&[0, 0]);
    src.extend_from_slice(&[1, 0]);
    src.extend_from_slice(&polygon_shape(0));
    src.extend_from_slice(&[0, 0]);
    src
}

#[test]
fn polygons_of_up_to_five_hundred_points() {
    let level = parse(&polygon_level(500)).unwrap();
    let expected: Vec<PointBits> = (0..500).map(|i| pt(i as f32, 0.5)).collect();
    assert_eq!(level.colliders, vec![Shape::Polygon(expected)]);
    assert_eq!(
        parse(&polygon_level(501)).unwrap_err(),
        ParseError::SectionShapeErr(3, 0, ShapeError::StringBadLength { string_id: 0 })
    );
    assert!(parse(&polygon_level(3)).is_ok());
    assert_eq!(
        parse(&polygon_level(2)).unwrap_err(),
        ParseError::SectionShapeErr(3, 0, ShapeError::StringBadLength { string_id: 0 })
    );
}
