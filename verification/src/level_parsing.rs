//! Parsing of the "version 0" binary level format.
//!
//! A level file is the header `penguinlevel-bin-v0\n`, an offset table of five
//! sections (`level_start`, `strings`, `obj_defs/graphics`, `obj_defs/colliders`,
//! `obj_defs/triggers`) and the sections themselves. All numbers are little-endian.
use crate::levels::{SpecTriggerKind, StatusIcon, TriggerKind};
use crate::raw_level::{
    graphic_views, shape_views, trigger_views, Graphic, PointBits, RawLevel, Shape, SpecGraphic,
    SpecRawLevel, SpecShape, SpecTrigger, Trigger,
};
use crate::text_utils::{le_u16, le_u32, read_u16_le, read_u32_le, starts_with, string_from_utf8};
use vstd::prelude::*;
use vstd::utf8::*;

verus! {

// ---------------------------------------------------------------------------
// Errors

#[derive(PartialEq, Eq, Debug, Clone)]
#[non_exhaustive]
pub enum ParseError {
    MissingHeader,
    NotEnoughData,
    BadOffsetTableSize(u16),
    SectionOutOfBounds(usize, u32, u32),
    SectionGeneric(usize, &'static str),
    SectionShapeErr(usize, u16, ShapeError),
    SectionGraphicErr(usize, u16, GraphicError),
    SectionTriggerErr(usize, u16, TriggerError),
    BadString(u16),
}

#[derive(PartialEq, Eq, Debug, Clone)]
pub enum GraphicError {
    BadShape(ShapeError),
    BadStringIndex(u16),
    StringNotUtf8(u16),
}

#[derive(PartialEq, Eq, Debug, Clone)]
pub enum TriggerError {
    BadShape(ShapeError),
    BadStringIndex(u16),
    StringNotUtf8(u16),
    BadStatusIcon,
    UnknownTrigger,
}

#[derive(PartialEq, Eq, Debug, Clone)]
pub enum ShapeError {
    StringBadLength { string_id: u16 },
    StringNotFound { string_id: u16 },
}

// ---------------------------------------------------------------------------
// Sections

pub const SEC_LEVEL_START: usize = 0;
pub const SEC_STRINGS: usize = 1;
pub const SEC_GRAPHICS: usize = 2;
pub const SEC_COLLIDERS: usize = 3;
pub const SEC_TRIGGERS: usize = 4;
pub const SECTION_COUNT: usize = 5;

/// Length of the magic header `penguinlevel-bin-v0\n`.
pub const HEADER_LEN: usize = 20;

/// Smallest possible size of a level file: the header, the offset table and five
/// minimal sections (8 bytes of start position and four empty arrays).
pub const MIN_LEVEL_SRC_SIZE: usize = 78;

pub open spec fn spec_section_name(idx: usize) -> &'static str {
    if idx == 0 {
        "level_start"
    } else if idx == 1 {
        "strings"
    } else if idx == 2 {
        "obj_defs/graphics"
    } else if idx == 3 {
        "obj_defs/colliders"
    } else if idx == 4 {
        "obj_defs/triggers"
    } else {
        ""
    }
}

/// The name of section `idx` as used in error messages (empty for unknown sections).
pub fn section_name(idx: usize) -> (r: &'static str)
    ensures
        r == spec_section_name(idx),
{
    if idx == 0 {
        "level_start"
    } else if idx == 1 {
        "strings"
    } else if idx == 2 {
        "obj_defs/graphics"
    } else if idx == 3 {
        "obj_defs/colliders"
    } else if idx == 4 {
        "obj_defs/triggers"
    } else {
        ""
    }
}

/// The bytes `penguinlevel-bin-v0\n`.
pub open spec fn spec_level_header() -> Seq<u8> {
    seq![
        112u8, 101, 110, 103, 117, 105, 110, 108, 101, 118, 101, 108, 45, 98, 105, 110, 45, 118,
        48, 10,
    ]
}

/// The magic header that every level file starts with.
pub fn level_header() -> (r: Vec<u8>)
    ensures
        r@ == spec_level_header(),
{
    let r: Vec<u8> = vec![
        112u8, 101, 110, 103, 117, 105, 110, 108, 101, 118, 101, 108, 45, 98, 105, 110, 45, 118,
        48, 10,
    ];
    assert(r@ =~= spec_level_header());
    r
}

/// Offset of section `i` as written in the offset table.
pub open spec fn desc_offset(src: Seq<u8>, i: int) -> u32 {
    le_u32(src, HEADER_LEN + 2 + 8 * i)
}

/// Size of section `i` as written in the offset table.
pub open spec fn desc_size(src: Seq<u8>, i: int) -> u32 {
    le_u32(src, HEADER_LEN + 2 + 8 * i + 4)
}

pub open spec fn section_in_bounds(src: Seq<u8>, i: int) -> bool {
    desc_offset(src, i) + desc_size(src, i) <= src.len()
}

/// The bytes of section `i`.
pub open spec fn section(src: Seq<u8>, i: int) -> Seq<u8> {
    src.subrange(desc_offset(src, i) as int, desc_offset(src, i) + desc_size(src, i))
}

/// The first section at or after `i` that lies outside the file.
pub open spec fn first_bad_section(src: Seq<u8>, i: int) -> Option<int>
    decreases SECTION_COUNT - i,
{
    if i >= SECTION_COUNT {
        None
    } else if !section_in_bounds(src, i) {
        Some(i)
    } else {
        first_bad_section(src, i + 1)
    }
}

// ---------------------------------------------------------------------------
// Collecting item results

/// Results of items `0..n` in order, stopping at the first item that fails.
pub open spec fn collect_items<T, E>(n: nat, f: spec_fn(int) -> Result<T, E>) -> Result<
    Seq<T>,
    (int, E),
>
    decreases n,
{
    if n == 0 {
        Ok(Seq::empty())
    } else {
        match collect_items((n - 1) as nat, f) {
            Err(e) => Err(e),
            Ok(prev) => match f(n - 1) {
                Ok(x) => Ok(prev.push(x)),
                Err(e) => Err((n - 1, e)),
            },
        }
    }
}

/// Once an item fails, later items do not change the result.
pub proof fn lemma_collect_err_stays<T, E>(k: nat, n: nat, f: spec_fn(int) -> Result<T, E>)
    requires
        k <= n,
        collect_items(k, f) is Err,
    ensures
        collect_items(n, f) == collect_items(k, f),
    decreases n,
{
    if n > k {
        lemma_collect_err_stays(k, (n - 1) as nat, f);
    }
}

// ---------------------------------------------------------------------------
// Arrays

/// An array section: a little-endian `u16` count, then `count` items of
/// `item_size` bytes each, then the remaining bytes.
pub open spec fn spec_parse_array(data: Seq<u8>, item_size: int) -> Result<
    (u16, Seq<u8>, Seq<u8>),
    &'static str,
> {
    if data.len() < 2 {
        Err("section too small")
    } else {
        let count = le_u16(data, 0);
        let body = data.skip(2);
        if body.len() < count * item_size {
            Err("section is of the wrong size")
        } else {
            Ok((count, body.take(count * item_size), body.skip(count * item_size)))
        }
    }
}

/// How an array section is read: its item count is the little-endian `u16`
/// of its first two bytes, the items are the `count * item_size` bytes that
/// follow, and the rest is everything after them. It is refused exactly when
/// it is shorter than the two count bytes or than the items they announce.
pub proof fn lemma_array_layout(data: Seq<u8>, item_size: int)
    requires
        item_size >= 0,
    ensures
        ({
            let r = spec_parse_array(data, item_size);
            &&& r is Err <==> (data.len() < 2 || data.len() - 2 < (data[0] + 256 * data[1])
                * item_size)
            &&& r matches Ok((count, items, rest)) ==> {
                &&& count == data[0] + 256 * data[1]
                &&& items == data.subrange(2, 2 + count * item_size)
                &&& rest == data.subrange(2 + count * item_size, data.len() as int)
            }
        }),
{
    if data.len() >= 2 {
        let count = data[0] + 256 * data[1];
        assert(0 <= count < 65536);
        if data.len() - 2 >= count * item_size {
            assert(data.skip(2).take(count * item_size) =~= data.subrange(2, 2 + count * item_size));
            assert(data.skip(2).skip(count * item_size) =~= data.subrange(
                2 + count * item_size,
                data.len() as int,
            ));
        }
    }
}

/// Parses an array of at most `u16::MAX` items: the number of items, the bytes of
/// the items and the unconsumed bytes.
fn parse_array(data: &[u8], item_size: usize) -> (r: Result<(u16, &[u8], &[u8]), &'static str>)
    requires
        1 <= item_size <= 32,
    ensures
        match r {
            Ok((count, items, rest)) => spec_parse_array(data@, item_size as int) == Ok::<
                (u16, Seq<u8>, Seq<u8>),
                &'static str,
            >((count, items@, rest@)),
            Err(msg) => spec_parse_array(data@, item_size as int) == Err::<
                (u16, Seq<u8>, Seq<u8>),
                &'static str,
            >(msg),
        },
{
    if data.len() < 2 {
        return Err("section too small");
    }
    let count = read_u16_le(data, 0);
    let body = &data[2..data.len()];
    assert(body@ =~= data@.skip(2));
    assert(count as int * item_size as int <= 65535 * 32) by (nonlinear_arith)
        requires
            count <= 65535,
            item_size <= 32,
    ;
    let expected: usize = count as usize * item_size;
    if body.len() < expected {
        return Err("section is of the wrong size");
    }
    let items = &body[0..expected];
    let rest = &body[expected..body.len()];
    assert(items@ =~= body@.take(expected as int));
    assert(rest@ =~= body@.skip(expected as int));
    Ok((count, items, rest))
}

// ---------------------------------------------------------------------------
// Strings

/// Views of a table of byte strings.
pub open spec fn string_views(strings: Seq<Vec<u8>>) -> Seq<Seq<u8>> {
    strings.map_values(|s: Vec<u8>| s@)
}

/// String `k` of a string table: `offset` and `length` from entry `k`, taken
/// from `buffer`.
pub open spec fn spec_string_at(items: Seq<u8>, buffer: Seq<u8>, k: int) -> Result<Seq<u8>, ()> {
    let offset = le_u32(items, 8 * k) as int;
    let length = le_u32(items, 8 * k + 4) as int;
    if offset + length <= buffer.len() {
        Ok(buffer.subrange(offset, offset + length))
    } else {
        Err(())
    }
}

pub open spec fn string_item_fn(items: Seq<u8>, buffer: Seq<u8>) -> spec_fn(int) -> Result<
    Seq<u8>,
    (),
> {
    |k: int| spec_string_at(items, buffer, k)
}

/// The `strings` section: a table of (offset, length) entries into the buffer
/// that follows the table.
pub open spec fn spec_parse_strings(section_id: usize, data: Seq<u8>) -> Result<
    Seq<Seq<u8>>,
    ParseError,
> {
    match spec_parse_array(data, 8) {
        Err(msg) => Err(ParseError::SectionGeneric(section_id, msg)),
        Ok((count, items, buffer)) => match collect_items(
            count as nat,
            string_item_fn(items, buffer),
        ) {
            Ok(strings) => Ok(strings),
            Err((i, _unit)) => Err(ParseError::BadString(i as u16)),
        },
    }
}

fn parse_strings(section_id: usize, section_data: &[u8]) -> (r: Result<Vec<Vec<u8>>, ParseError>)
    ensures
        match r {
            Ok(v) => spec_parse_strings(section_id, section_data@) == Ok::<
                Seq<Seq<u8>>,
                ParseError,
            >(string_views(v@)),
            Err(e) => spec_parse_strings(section_id, section_data@) == Err::<
                Seq<Seq<u8>>,
                ParseError,
            >(e),
        },
{
    let (count, items, buffer) = match parse_array(section_data, 8) {
        Ok(t) => t,
        Err(msg) => return Err(ParseError::SectionGeneric(section_id, msg)),
    };
    let ghost f = string_item_fn(items@, buffer@);
    let mut rv: Vec<Vec<u8>> = Vec::new();
    let mut k: usize = 0;
    assert(string_views(rv@) =~= Seq::<Seq<u8>>::empty());
    while k < count as usize
        invariant
            0 <= k <= count,
            items@.len() == count * 8,
            spec_parse_array(section_data@, 8) == Ok::<(u16, Seq<u8>, Seq<u8>), &'static str>(
                (count, items@, buffer@),
            ),
            f == string_item_fn(items@, buffer@),
            collect_items(k as nat, f) == Ok::<Seq<Seq<u8>>, (int, ())>(string_views(rv@)),
        decreases count - k,
    {
        let offset = read_u32_le(items, 8 * k) as usize;
        let length = read_u32_le(items, 8 * k + 4) as usize;
        if offset > buffer.len() || length > buffer.len() - offset {
            proof {
                assert(f(k as int) == Err::<Seq<u8>, ()>(()));
                assert(collect_items((k + 1) as nat, f) == Err::<Seq<Seq<u8>>, (int, ())>(
                    (k as int, ()),
                ));
                lemma_collect_err_stays((k + 1) as nat, count as nat, f);
            }
            return Err(ParseError::BadString(k as u16));
        }
        let slice = &buffer[offset..offset + length];
        let copy = slice_to_vec_u8(slice);
        let ghost old_rv = rv@;
        rv.push(copy);
        proof {
            assert(string_views(rv@) =~= string_views(old_rv).push(copy@));
        }
        k += 1;
    }
    Ok(rv)
}

/// Copies a byte slice into a new vector.
pub fn slice_to_vec_u8(s: &[u8]) -> (v: Vec<u8>)
    ensures
        v@ == s@,
{
    let mut v: Vec<u8> = Vec::new();
    let mut i: usize = 0;
    while i < s.len()
        invariant
            0 <= i <= s@.len(),
            v@ == s@.take(i as int),
        decreases s@.len() - i,
    {
        v.push(s[i]);
        i += 1;
        assert(v@ =~= s@.take(i as int));
    }
    assert(s@.take(i as int) =~= s@);
    v
}

// ---------------------------------------------------------------------------
// Shapes

/// Polygon points stored in string `string_id`: pairs of little-endian `f32` bit
/// patterns; the string must hold at least 3 and at most 500 points.
pub open spec fn spec_polygon_points(string_id: u16, strings: Seq<Seq<u8>>) -> Result<
    Seq<PointBits>,
    ShapeError,
> {
    if string_id >= strings.len() {
        Err(ShapeError::StringNotFound { string_id })
    } else {
        let s = strings[string_id as int];
        let n = s.len() / 8;
        if s.len() % 8 != 0 || n < 3 || n > 500 {
            Err(ShapeError::StringBadLength { string_id })
        } else {
            Ok(Seq::new(n, |k: int| PointBits { x: le_u32(s, 8 * k), y: le_u32(s, 8 * k + 4) }))
        }
    }
}

/// A 16-byte shape: a polygon when the first word is `0xffff_ffff` (the string id
/// is the next `u16`), a rectangle `x y w h` otherwise.
pub open spec fn spec_parse_shape(chunk: Seq<u8>, strings: Seq<Seq<u8>>) -> Result<
    SpecShape,
    ShapeError,
> {
    if le_u32(chunk, 0) == 0xffff_ffffu32 {
        match spec_polygon_points(le_u16(chunk, 4), strings) {
            Ok(points) => Ok(SpecShape::Polygon(points)),
            Err(e) => Err(e),
        }
    } else {
        Ok(
            SpecShape::Rect {
                pos: PointBits { x: le_u32(chunk, 0), y: le_u32(chunk, 4) },
                size: PointBits { x: le_u32(chunk, 8), y: le_u32(chunk, 12) },
            },
        )
    }
}

fn parse_polygon_points(string_id: u16, strings: &Vec<Vec<u8>>) -> (r: Result<
    Vec<PointBits>,
    ShapeError,
>)
    ensures
        match r {
            Ok(v) => spec_polygon_points(string_id, string_views(strings@)) == Ok::<
                Seq<PointBits>,
                ShapeError,
            >(v@),
            Err(e) => spec_polygon_points(string_id, string_views(strings@)) == Err::<
                Seq<PointBits>,
                ShapeError,
            >(e),
        },
{
    if string_id as usize >= strings.len() {
        return Err(ShapeError::StringNotFound { string_id });
    }
    let s: &Vec<u8> = &strings[string_id as usize];
    assert(s@ == string_views(strings@)[string_id as int]);
    let len = s.len();
    if len % 8 != 0 || len / 8 < 3 || len / 8 > 500 {
        return Err(ShapeError::StringBadLength { string_id });
    }
    let n = len / 8;
    let mut points: Vec<PointBits> = Vec::new();
    let mut k: usize = 0;
    while k < n
        invariant
            0 <= k <= n,
            n * 8 == s@.len(),
            n <= 500,
            points@.len() == k,
            forall|j: int|
                0 <= j < k ==> #[trigger] points@[j] == (PointBits {
                    x: le_u32(s@, 8 * j),
                    y: le_u32(s@, 8 * j + 4),
                }),
        decreases n - k,
    {
        let x = read_u32_le(s.as_slice(), 8 * k);
        let y = read_u32_le(s.as_slice(), 8 * k + 4);
        points.push(PointBits { x, y });
        k += 1;
    }
    let ghost expected = Seq::new(
        n as nat,
        |k: int| PointBits { x: le_u32(s@, 8 * k), y: le_u32(s@, 8 * k + 4) },
    );
    assert(points@ =~= expected);
    Ok(points)
}

fn parse_shape(chunk: &[u8], strings: &Vec<Vec<u8>>) -> (r: Result<Shape, ShapeError>)
    requires
        chunk@.len() == 16,
    ensures
        match r {
            Ok(s) => spec_parse_shape(chunk@, string_views(strings@)) == Ok::<
                SpecShape,
                ShapeError,
            >(s@),
            Err(e) => spec_parse_shape(chunk@, string_views(strings@)) == Err::<
                SpecShape,
                ShapeError,
            >(e),
        },
{
    let w0 = read_u32_le(chunk, 0);
    if w0 == 0xffff_ffffu32 {
        let string_id = read_u16_le(chunk, 4);
        match parse_polygon_points(string_id, strings) {
            Ok(points) => Ok(Shape::Polygon(points)),
            Err(e) => Err(e),
        }
    } else {
        let y = read_u32_le(chunk, 4);
        let w = read_u32_le(chunk, 8);
        let h = read_u32_le(chunk, 12);
        Ok(Shape::Rect { pos: PointBits { x: w0, y }, size: PointBits { x: w, y: h } })
    }
}

// ---------------------------------------------------------------------------
// Colliders

pub open spec fn shape_item_fn(items: Seq<u8>, strings: Seq<Seq<u8>>) -> spec_fn(int) -> Result<
    SpecShape,
    ShapeError,
> {
    |k: int| spec_parse_shape(items.subrange(16 * k, 16 * k + 16), strings)
}

/// The `obj_defs/colliders` section: an array of 16-byte shapes.
pub open spec fn spec_parse_colliders(
    section_id: usize,
    data: Seq<u8>,
    strings: Seq<Seq<u8>>,
) -> Result<Seq<SpecShape>, ParseError> {
    match spec_parse_array(data, 16) {
        Err(msg) => Err(ParseError::SectionGeneric(section_id, msg)),
        Ok((count, items, _)) => match collect_items(
            count as nat,
            shape_item_fn(items, strings),
        ) {
            Ok(shapes) => Ok(shapes),
            Err((i, e)) => Err(ParseError::SectionShapeErr(section_id, i as u16, e)),
        },
    }
}

fn parse_colliders(section_id: usize, section_data: &[u8], strings: &Vec<Vec<u8>>) -> (r: Result<
    Vec<Shape>,
    ParseError,
>)
    ensures
        match r {
            Ok(v) => spec_parse_colliders(section_id, section_data@, string_views(strings@))
                == Ok::<Seq<SpecShape>, ParseError>(shape_views(v@)),
            Err(e) => spec_parse_colliders(section_id, section_data@, string_views(strings@))
                == Err::<Seq<SpecShape>, ParseError>(e),
        },
{
    let (count, items, rest) = match parse_array(section_data, 16) {
        Ok(t) => t,
        Err(msg) => return Err(ParseError::SectionGeneric(section_id, msg)),
    };
    let ghost f = shape_item_fn(items@, string_views(strings@));
    let mut rv: Vec<Shape> = Vec::new();
    let mut k: usize = 0;
    assert(shape_views(rv@) =~= Seq::<SpecShape>::empty());
    while k < count as usize
        invariant
            0 <= k <= count,
            items@.len() == count * 16,
            spec_parse_array(section_data@, 16) == Ok::<(u16, Seq<u8>, Seq<u8>), &'static str>(
                (count, items@, rest@),
            ),
            f == shape_item_fn(items@, string_views(strings@)),
            collect_items(k as nat, f) == Ok::<Seq<SpecShape>, (int, ShapeError)>(
                shape_views(rv@),
            ),
        decreases count - k,
    {
        let chunk = &items[16 * k..16 * k + 16];
        match parse_shape(chunk, strings) {
            Ok(shape) => {
                let ghost old_rv = rv@;
                rv.push(shape);
                proof {
                    assert(shape_views(rv@) =~= shape_views(old_rv).push(shape@));
                }
            },
            Err(e) => {
                proof {
                    assert(f(k as int) == Err::<SpecShape, ShapeError>(e));
                    assert(collect_items((k + 1) as nat, f) == Err::<Seq<SpecShape>, (int, ShapeError)>(
                        (k as int, e),
                    ));
                    lemma_collect_err_stays((k + 1) as nat, count as nat, f);
                }
                return Err(ParseError::SectionShapeErr(section_id, k as u16, e));
            },
        }
        k += 1;
    }
    Ok(rv)
}

// ---------------------------------------------------------------------------
// Graphics

/// An 18-byte graphic: a shape and the string id of its texture name, which
/// must be UTF-8.
pub open spec fn spec_parse_graphic(chunk: Seq<u8>, strings: Seq<Seq<u8>>) -> Result<
    SpecGraphic,
    GraphicError,
> {
    match spec_parse_shape(chunk.take(16), strings) {
        Err(e) => Err(GraphicError::BadShape(e)),
        Ok(shape) => {
            let string_id = le_u16(chunk, 16);
            if string_id >= strings.len() {
                Err(GraphicError::BadStringIndex(string_id))
            } else if !valid_utf8(strings[string_id as int]) {
                Err(GraphicError::StringNotUtf8(string_id))
            } else {
                Ok(SpecGraphic { shape, texture: decode_utf8(strings[string_id as int]) })
            }
        },
    }
}

pub open spec fn graphic_item_fn(items: Seq<u8>, strings: Seq<Seq<u8>>) -> spec_fn(int) -> Result<
    SpecGraphic,
    GraphicError,
> {
    |k: int| spec_parse_graphic(items.subrange(18 * k, 18 * k + 18), strings)
}

/// The `obj_defs/graphics` section: an array of 18-byte graphics.
pub open spec fn spec_parse_graphics(
    section_id: usize,
    data: Seq<u8>,
    strings: Seq<Seq<u8>>,
) -> Result<Seq<SpecGraphic>, ParseError> {
    match spec_parse_array(data, 18) {
        Err(msg) => Err(ParseError::SectionGeneric(section_id, msg)),
        Ok((count, items, _)) => match collect_items(
            count as nat,
            graphic_item_fn(items, strings),
        ) {
            Ok(graphics) => Ok(graphics),
            Err((i, e)) => Err(ParseError::SectionGraphicErr(section_id, i as u16, e)),
        },
    }
}

/// Looks up string `string_id` and decodes it as UTF-8: `Err(true)` when there is
/// no such string, `Err(false)` when it is not UTF-8.
fn lookup_text(string_id: u16, strings: &Vec<Vec<u8>>) -> (r: Result<String, bool>)
    ensures
        string_id >= strings@.len() <==> r == Err::<String, bool>(true),
        string_id < strings@.len() ==> (r == Err::<String, bool>(false) <==> !valid_utf8(
            strings@[string_id as int]@,
        )),
        r matches Ok(s) ==> string_id < strings@.len() && s@ == decode_utf8(
            strings@[string_id as int]@,
        ),
{
    if string_id as usize >= strings.len() {
        return Err(true);
    }
    match string_from_utf8(strings[string_id as usize].as_slice()) {
        Some(s) => Ok(s),
        None => Err(false),
    }
}

fn parse_graphic(chunk: &[u8], strings: &Vec<Vec<u8>>) -> (r: Result<Graphic, GraphicError>)
    requires
        chunk@.len() == 18,
    ensures
        match r {
            Ok(g) => spec_parse_graphic(chunk@, string_views(strings@)) == Ok::<
                SpecGraphic,
                GraphicError,
            >(g@),
            Err(e) => spec_parse_graphic(chunk@, string_views(strings@)) == Err::<
                SpecGraphic,
                GraphicError,
            >(e),
        },
{
    let shape_bytes = &chunk[0..16];
    assert(shape_bytes@ =~= chunk@.take(16));
    let shape = match parse_shape(shape_bytes, strings) {
        Ok(s) => s,
        Err(e) => return Err(GraphicError::BadShape(e)),
    };
    let string_id = read_u16_le(chunk, 16);
    match lookup_text(string_id, strings) {
        Ok(texture) => Ok(Graphic { shape, texture }),
        Err(true) => Err(GraphicError::BadStringIndex(string_id)),
        Err(false) => Err(GraphicError::StringNotUtf8(string_id)),
    }
}

fn parse_graphics(section_id: usize, section_data: &[u8], strings: &Vec<Vec<u8>>) -> (r: Result<
    Vec<Graphic>,
    ParseError,
>)
    ensures
        match r {
            Ok(v) => spec_parse_graphics(section_id, section_data@, string_views(strings@))
                == Ok::<Seq<SpecGraphic>, ParseError>(graphic_views(v@)),
            Err(e) => spec_parse_graphics(section_id, section_data@, string_views(strings@))
                == Err::<Seq<SpecGraphic>, ParseError>(e),
        },
{
    let (count, items, rest) = match parse_array(section_data, 18) {
        Ok(t) => t,
        Err(msg) => return Err(ParseError::SectionGeneric(section_id, msg)),
    };
    let ghost f = graphic_item_fn(items@, string_views(strings@));
    let mut rv: Vec<Graphic> = Vec::new();
    let mut k: usize = 0;
    assert(graphic_views(rv@) =~= Seq::<SpecGraphic>::empty());
    while k < count as usize
        invariant
            0 <= k <= count,
            items@.len() == count * 18,
            spec_parse_array(section_data@, 18) == Ok::<(u16, Seq<u8>, Seq<u8>), &'static str>(
                (count, items@, rest@),
            ),
            f == graphic_item_fn(items@, string_views(strings@)),
            collect_items(k as nat, f) == Ok::<Seq<SpecGraphic>, (int, GraphicError)>(
                graphic_views(rv@),
            ),
        decreases count - k,
    {
        let chunk = &items[18 * k..18 * k + 18];
        match parse_graphic(chunk, strings) {
            Ok(graphic) => {
                let ghost old_rv = rv@;
                rv.push(graphic);
                proof {
                    assert(graphic_views(rv@) =~= graphic_views(old_rv).push(graphic@));
                }
            },
            Err(e) => {
                proof {
                    assert(f(k as int) == Err::<SpecGraphic, GraphicError>(e));
                    assert(collect_items((k + 1) as nat, f) == Err::<Seq<SpecGraphic>, (int, GraphicError)>(
                        (k as int, e),
                    ));
                    lemma_collect_err_stays((k + 1) as nat, count as nat, f);
                }
                return Err(ParseError::SectionGraphicErr(section_id, k as u16, e));
            },
        }
        k += 1;
    }
    Ok(rv)
}

// ---------------------------------------------------------------------------
// Triggers

/// A 16-byte trigger kind: `0` Panic, `1` Hello, `2` ShowText(string id),
/// `3` SetEyepatch(0 or 1), `4` Goto(x, y, status icon 0 or 1).
pub open spec fn spec_parse_trigger_kind(chunk: Seq<u8>, strings: Seq<Seq<u8>>) -> Result<
    SpecTriggerKind,
    TriggerError,
> {
    if chunk[0] == 0 {
        Ok(SpecTriggerKind::Panic)
    } else if chunk[0] == 1 {
        Ok(SpecTriggerKind::Hello)
    } else if chunk[0] == 2 {
        let string_id = le_u16(chunk, 1);
        if string_id >= strings.len() {
            Err(TriggerError::BadStringIndex(string_id))
        } else if !valid_utf8(strings[string_id as int]) {
            Err(TriggerError::StringNotUtf8(string_id))
        } else {
            Ok(SpecTriggerKind::ShowText(decode_utf8(strings[string_id as int])))
        }
    } else if chunk[0] == 3 {
        if chunk[1] == 0 {
            Ok(SpecTriggerKind::SetEyepatch(false))
        } else if chunk[1] == 1 {
            Ok(SpecTriggerKind::SetEyepatch(true))
        } else {
            Err(TriggerError::UnknownTrigger)
        }
    } else if chunk[0] == 4 {
        let pos = PointBits { x: le_u32(chunk, 1), y: le_u32(chunk, 5) };
        if chunk[9] == 0 {
            Ok(SpecTriggerKind::Goto(pos, StatusIcon::Wrong))
        } else if chunk[9] == 1 {
            Ok(SpecTriggerKind::Goto(pos, StatusIcon::Nice))
        } else {
            Err(TriggerError::BadStatusIcon)
        }
    } else {
        Err(TriggerError::UnknownTrigger)
    }
}

/// A 32-byte trigger: a shape and a trigger kind.
pub open spec fn spec_parse_trigger(chunk: Seq<u8>, strings: Seq<Seq<u8>>) -> Result<
    SpecTrigger,
    TriggerError,
> {
    match spec_parse_shape(chunk.take(16), strings) {
        Err(e) => Err(TriggerError::BadShape(e)),
        Ok(shape) => match spec_parse_trigger_kind(chunk.skip(16), strings) {
            Ok(kind) => Ok(SpecTrigger { shape, kind }),
            Err(e) => Err(e),
        },
    }
}

pub open spec fn trigger_item_fn(items: Seq<u8>, strings: Seq<Seq<u8>>) -> spec_fn(int) -> Result<
    SpecTrigger,
    TriggerError,
> {
    |k: int| spec_parse_trigger(items.subrange(32 * k, 32 * k + 32), strings)
}

/// The `obj_defs/triggers` section: an array of 32-byte triggers.
pub open spec fn spec_parse_triggers(
    section_id: usize,
    data: Seq<u8>,
    strings: Seq<Seq<u8>>,
) -> Result<Seq<SpecTrigger>, ParseError> {
    match spec_parse_array(data, 32) {
        Err(msg) => Err(ParseError::SectionGeneric(section_id, msg)),
        Ok((count, items, _)) => match collect_items(
            count as nat,
            trigger_item_fn(items, strings),
        ) {
            Ok(triggers) => Ok(triggers),
            Err((i, e)) => Err(ParseError::SectionTriggerErr(section_id, i as u16, e)),
        },
    }
}

fn parse_trigger_kind(chunk: &[u8], strings: &Vec<Vec<u8>>) -> (r: Result<
    TriggerKind,
    TriggerError,
>)
    requires
        chunk@.len() == 16,
    ensures
        match r {
            Ok(k) => spec_parse_trigger_kind(chunk@, string_views(strings@)) == Ok::<
                SpecTriggerKind,
                TriggerError,
            >(k@),
            Err(e) => spec_parse_trigger_kind(chunk@, string_views(strings@)) == Err::<
                SpecTriggerKind,
                TriggerError,
            >(e),
        },
{
    let tag = chunk[0];
    if tag == 0 {
        Ok(TriggerKind::Panic)
    } else if tag == 1 {
        Ok(TriggerKind::Hello)
    } else if tag == 2 {
        let string_id = read_u16_le(chunk, 1);
        match lookup_text(string_id, strings) {
            Ok(text) => Ok(TriggerKind::ShowText(text)),
            Err(true) => Err(TriggerError::BadStringIndex(string_id)),
            Err(false) => Err(TriggerError::StringNotUtf8(string_id)),
        }
    } else if tag == 3 {
        if chunk[1] == 0 {
            Ok(TriggerKind::SetEyepatch(false))
        } else if chunk[1] == 1 {
            Ok(TriggerKind::SetEyepatch(true))
        } else {
            Err(TriggerError::UnknownTrigger)
        }
    } else if tag == 4 {
        let x = read_u32_le(chunk, 1);
        let y = read_u32_le(chunk, 5);
        if chunk[9] == 0 {
            Ok(TriggerKind::Goto(PointBits { x, y }, StatusIcon::Wrong))
        } else if chunk[9] == 1 {
            Ok(TriggerKind::Goto(PointBits { x, y }, StatusIcon::Nice))
        } else {
            Err(TriggerError::BadStatusIcon)
        }
    } else {
        Err(TriggerError::UnknownTrigger)
    }
}

fn parse_trigger(chunk: &[u8], strings: &Vec<Vec<u8>>) -> (r: Result<Trigger, TriggerError>)
    requires
        chunk@.len() == 32,
    ensures
        match r {
            Ok(t) => spec_parse_trigger(chunk@, string_views(strings@)) == Ok::<
                SpecTrigger,
                TriggerError,
            >(t@),
            Err(e) => spec_parse_trigger(chunk@, string_views(strings@)) == Err::<
                SpecTrigger,
                TriggerError,
            >(e),
        },
{
    let shape_bytes = &chunk[0..16];
    let kind_bytes = &chunk[16..32];
    assert(shape_bytes@ =~= chunk@.take(16));
    assert(kind_bytes@ =~= chunk@.skip(16));
    let shape = match parse_shape(shape_bytes, strings) {
        Ok(s) => s,
        Err(e) => return Err(TriggerError::BadShape(e)),
    };
    let kind = parse_trigger_kind(kind_bytes, strings)?;
    Ok(Trigger { shape, kind })
}

fn parse_triggers(section_id: usize, section_data: &[u8], strings: &Vec<Vec<u8>>) -> (r: Result<
    Vec<Trigger>,
    ParseError,
>)
    ensures
        match r {
            Ok(v) => spec_parse_triggers(section_id, section_data@, string_views(strings@))
                == Ok::<Seq<SpecTrigger>, ParseError>(trigger_views(v@)),
            Err(e) => spec_parse_triggers(section_id, section_data@, string_views(strings@))
                == Err::<Seq<SpecTrigger>, ParseError>(e),
        },
{
    let (count, items, rest) = match parse_array(section_data, 32) {
        Ok(t) => t,
        Err(msg) => return Err(ParseError::SectionGeneric(section_id, msg)),
    };
    let ghost f = trigger_item_fn(items@, string_views(strings@));
    let mut rv: Vec<Trigger> = Vec::new();
    let mut k: usize = 0;
    assert(trigger_views(rv@) =~= Seq::<SpecTrigger>::empty());
    while k < count as usize
        invariant
            0 <= k <= count,
            items@.len() == count * 32,
            spec_parse_array(section_data@, 32) == Ok::<(u16, Seq<u8>, Seq<u8>), &'static str>(
                (count, items@, rest@),
            ),
            f == trigger_item_fn(items@, string_views(strings@)),
            collect_items(k as nat, f) == Ok::<Seq<SpecTrigger>, (int, TriggerError)>(
                trigger_views(rv@),
            ),
        decreases count - k,
    {
        let chunk = &items[32 * k..32 * k + 32];
        match parse_trigger(chunk, strings) {
            Ok(trigger) => {
                let ghost old_rv = rv@;
                rv.push(trigger);
                proof {
                    assert(trigger_views(rv@) =~= trigger_views(old_rv).push(trigger@));
                }
            },
            Err(e) => {
                proof {
                    assert(f(k as int) == Err::<SpecTrigger, TriggerError>(e));
                    assert(collect_items((k + 1) as nat, f) == Err::<Seq<SpecTrigger>, (int, TriggerError)>(
                        (k as int, e),
                    ));
                    lemma_collect_err_stays((k + 1) as nat, count as nat, f);
                }
                return Err(ParseError::SectionTriggerErr(section_id, k as u16, e));
            },
        }
        k += 1;
    }
    Ok(rv)
}

// ---------------------------------------------------------------------------
// Whole level

/// The level that `src` describes, or the first problem found in it. Sections are
/// checked in this order: the offset table, `level_start`, `strings`,
/// `obj_defs/colliders`, `obj_defs/graphics`, `obj_defs/triggers`.
pub open spec fn spec_parse(src: Seq<u8>) -> Result<SpecRawLevel, ParseError> {
    if src.len() < MIN_LEVEL_SRC_SIZE {
        Err(ParseError::NotEnoughData)
    } else if src.take(HEADER_LEN as int) != spec_level_header() {
        Err(ParseError::MissingHeader)
    } else if le_u16(src, HEADER_LEN as int) != SECTION_COUNT {
        Err(ParseError::BadOffsetTableSize(le_u16(src, HEADER_LEN as int)))
    } else {
        match first_bad_section(src, 0) {
            Some(i) => Err(
                ParseError::SectionOutOfBounds(i as usize, desc_offset(src, i), desc_size(src, i)),
            ),
            None => {
                let start = section(src, SEC_LEVEL_START as int);
                if start.len() != 8 {
                    Err(ParseError::SectionGeneric(SEC_LEVEL_START, "wrong section size"))
                } else {
                    match spec_parse_strings(SEC_STRINGS, section(src, SEC_STRINGS as int)) {
                        Err(e) => Err(e),
                        Ok(strings) => match spec_parse_colliders(
                            SEC_COLLIDERS,
                            section(src, SEC_COLLIDERS as int),
                            strings,
                        ) {
                            Err(e) => Err(e),
                            Ok(colliders) => match spec_parse_graphics(
                                SEC_GRAPHICS,
                                section(src, SEC_GRAPHICS as int),
                                strings,
                            ) {
                                Err(e) => Err(e),
                                Ok(graphics) => match spec_parse_triggers(
                                    SEC_TRIGGERS,
                                    section(src, SEC_TRIGGERS as int),
                                    strings,
                                ) {
                                    Err(e) => Err(e),
                                    Ok(triggers) => Ok(
                                        SpecRawLevel {
                                            start_pos: PointBits {
                                                x: le_u32(start, 0),
                                                y: le_u32(start, 4),
                                            },
                                            graphics,
                                            colliders,
                                            triggers,
                                        },
                                    ),
                                },
                            },
                        },
                    }
                }
            },
        }
    }
}

/// If sections `0..i` are in bounds, the first bad section is at or after `i`.
proof fn lemma_first_bad_from(src: Seq<u8>, i: int)
    requires
        0 <= i <= SECTION_COUNT,
        forall|j: int| 0 <= j < i ==> section_in_bounds(src, j),
    ensures
        first_bad_section(src, 0) == first_bad_section(src, i),
    decreases i,
{
    if i > 0 {
        lemma_first_bad_from(src, i - 1);
    }
}

/// Slices each section out of `src` according to the offset table, or reports the
/// first section that lies outside of `src` with its offset and size.
fn map_sections(src: &[u8]) -> (r: Result<Vec<&[u8]>, (usize, u32, u32)>)
    requires
        src@.len() >= HEADER_LEN + 2 + 8 * SECTION_COUNT,
    ensures
        match r {
            Ok(v) => first_bad_section(src@, 0) is None && v@.len() == SECTION_COUNT && forall|
                i: int,
            |
                0 <= i < SECTION_COUNT ==> (#[trigger] v@[i])@ == section(src@, i),
            Err((i, offset, size)) => first_bad_section(src@, 0) == Some(i as int) && offset
                == desc_offset(src@, i as int) && size == desc_size(src@, i as int),
        },
{
    let mut rv: Vec<&[u8]> = Vec::new();
    let mut i: usize = 0;
    while i < SECTION_COUNT
        invariant
            src@.len() >= HEADER_LEN + 2 + 8 * SECTION_COUNT,
            0 <= i <= SECTION_COUNT,
            rv@.len() == i,
            forall|j: int| 0 <= j < i ==> section_in_bounds(src@, j),
            forall|j: int| 0 <= j < i ==> (#[trigger] rv@[j])@ == section(src@, j),
        decreases SECTION_COUNT - i,
    {
        let offset = read_u32_le(src, HEADER_LEN + 2 + 8 * i);
        let size = read_u32_le(src, HEADER_LEN + 2 + 8 * i + 4);
        let end: u64 = offset as u64 + size as u64;
        if end > src.len() as u64 {
            proof {
                lemma_first_bad_from(src@, i as int);
            }
            return Err((i, offset, size));
        }
        let slice = &src[offset as usize..end as usize];
        rv.push(slice);
        i += 1;
    }
    proof {
        lemma_first_bad_from(src@, SECTION_COUNT as int);
    }
    Ok(rv)
}

/// The start position: exactly two little-endian `f32` bit patterns.
fn parse_level_start(section_data: &[u8]) -> (r: Option<PointBits>)
    ensures
        r is Some <==> section_data@.len() == 8,
        r matches Some(p) ==> p == (PointBits {
            x: le_u32(section_data@, 0),
            y: le_u32(section_data@, 4),
        }),
{
    if section_data.len() != 8 {
        return None;
    }
    let x = read_u32_le(section_data, 0);
    let y = read_u32_le(section_data, 4);
    Some(PointBits { x, y })
}

/// Parses a level file.
pub fn parse(src: &[u8]) -> (r: Result<RawLevel, ParseError>)
    ensures
        match r {
            Ok(level) => spec_parse(src@) == Ok::<SpecRawLevel, ParseError>(level@),
            Err(e) => spec_parse(src@) == Err::<SpecRawLevel, ParseError>(e),
        },
{
    if src.len() < MIN_LEVEL_SRC_SIZE {
        return Err(ParseError::NotEnoughData);
    }
    let header = level_header();
    if !starts_with(src, header.as_slice()) {
        return Err(ParseError::MissingHeader);
    }
    let offset_count = read_u16_le(src, HEADER_LEN);
    if offset_count as usize != SECTION_COUNT {
        return Err(ParseError::BadOffsetTableSize(offset_count));
    }
    let sections = match map_sections(src) {
        Ok(v) => v,
        Err((idx, offset, size)) => return Err(ParseError::SectionOutOfBounds(idx, offset, size)),
    };
    let start_pos = match parse_level_start(sections[SEC_LEVEL_START]) {
        Some(p) => p,
        None => return Err(ParseError::SectionGeneric(SEC_LEVEL_START, "wrong section size")),
    };
    let strings = parse_strings(SEC_STRINGS, sections[SEC_STRINGS])?;
    let colliders = parse_colliders(SEC_COLLIDERS, sections[SEC_COLLIDERS], &strings)?;
    let graphics = parse_graphics(SEC_GRAPHICS, sections[SEC_GRAPHICS], &strings)?;
    let triggers = parse_triggers(SEC_TRIGGERS, sections[SEC_TRIGGERS], &strings)?;
    let level = RawLevel { start_pos, graphics, colliders, triggers };
    Ok(level)
}

// ---------------------------------------------------------------------------
// Example level files

/// The little-endian bytes of `x`.
pub fn le_bytes(x: u32) -> (r: [u8; 4])
    ensures
        le_u32(r@, 0) == x,
{
    let b0 = (x % 256) as u8;
    let b1 = (x / 256 % 256) as u8;
    let b2 = (x / 65536 % 256) as u8;
    let b3 = (x / 16777216) as u8;
    let r = [b0, b1, b2, b3];
    assert(r@[0] == b0 && r@[1] == b1 && r@[2] == b2 && r@[3] == b3);
    r
}

/// An offset table entry: `offset` and `length` as little-endian `u32`s.
pub fn sec32(offset: u32, length: u32) -> (r: [u8; 8])
    ensures
        le_u32(r@, 0) == offset,
        le_u32(r@, 4) == length,
{
    let o = le_bytes(offset);
    let l = le_bytes(length);
    let r = [o[0], o[1], o[2], o[3], l[0], l[1], l[2], l[3]];
    assert(r@.subrange(0, 4) =~= o@ && r@.subrange(4, 8) =~= l@);
    r
}

/// A 16-byte polygon shape that refers to string `string_id`.
pub fn polygon_shape(string_id: u16) -> (r: [u8; 16])
    ensures
        le_u32(r@, 0) == 0xffff_ffffu32,
        le_u16(r@, 4) == string_id,
        forall|i: int| 6 <= i < 16 ==> r@[i] == 0,
{
    let low = (string_id % 256) as u8;
    let high = (string_id / 256) as u8;
    let r = [0xffu8, 0xff, 0xff, 0xff, low, high, 0, 0, 0, 0, 0, 0, 0, 0, 0, 0];
    r
}

/// `slice` followed by zeros, `n` bytes in all.
pub fn rpad(slice: &[u8], n: usize) -> (r: Vec<u8>)
    requires
        slice@.len() <= n,
    ensures
        r@.len() == n,
        r@.take(slice@.len() as int) == slice@,
        forall|i: int| slice@.len() <= i < n ==> r@[i] == 0,
{
    let mut r: Vec<u8> = Vec::new();
    let mut i: usize = 0;
    while i < n
        invariant
            slice@.len() <= n,
            0 <= i <= n,
            r@.len() == i,
            forall|j: int| 0 <= j < i ==> r@[j] == if j < slice@.len() {
                slice@[j]
            } else {
                0u8
            },
        decreases n - i,
    {
        if i < slice.len() {
            r.push(slice[i]);
        } else {
            r.push(0);
        }
        i += 1;
    }
    assert(r@.take(slice@.len() as int) =~= slice@);
    r
}

/// Appends `bytes` to `buf`.
pub fn append_bytes(buf: &mut Vec<u8>, bytes: &[u8])
    ensures
        final(buf)@ == old(buf)@ + bytes@,
{
    let mut i: usize = 0;
    while i < bytes.len()
        invariant
            0 <= i <= bytes@.len(),
            buf@ == old(buf)@ + bytes@.take(i as int),
        decreases bytes@.len() - i,
    {
        buf.push(bytes[i]);
        i += 1;
        assert(buf@ =~= old(buf)@ + bytes@.take(i as int));
    }
    assert(bytes@.take(i as int) =~= bytes@);
}


/// The bytes of the smallest level file.
pub open spec fn spec_empty_level_src() -> Seq<u8> {
    spec_level_header() + seq![5u8, 0, 62, 0, 0, 0, 8, 0, 0, 0, 70, 0, 0, 0, 2, 0, 0, 0, 72, 0, 0, 0, 2, 0, 0, 0, 74, 0, 0, 0, 2, 0, 0, 0, 76, 0, 0, 0, 2, 0, 0, 0, 0, 0, 0, 0, 0, 0, 0, 0, 0, 0, 0, 0, 0, 0, 0, 0]
}

/// The level with start position (0, 0) and nothing in it.
pub open spec fn spec_empty_level() -> SpecRawLevel {
    SpecRawLevel {
        start_pos: PointBits { x: 0, y: 0 },
        graphics: Seq::empty(),
        colliders: Seq::empty(),
        triggers: Seq::empty(),
    }
}

/// `MIN_LEVEL_SRC_SIZE` is the size of the smallest level file: any shorter
/// source is refused for want of data, and a level file of that size parses.
pub proof fn lemma_min_level_size_is_tight()
    ensures
        forall|src: Seq<u8>|
            src.len() < MIN_LEVEL_SRC_SIZE ==> #[trigger] spec_parse(src) == Err::<SpecRawLevel, ParseError>(
                ParseError::NotEnoughData,
            ),
        spec_empty_level_src().len() == MIN_LEVEL_SRC_SIZE,
        spec_parse(spec_empty_level_src()) == Ok::<SpecRawLevel, ParseError>(spec_empty_level()),
{
    let src = spec_empty_level_src();
    let table = src.skip(HEADER_LEN as int);
    assert(src.take(HEADER_LEN as int) =~= spec_level_header());
    assert forall|k: int| 0 <= k < table.len() implies src[HEADER_LEN + k] == #[trigger] table[k] by {
    }
    assert(table =~= seq![
        5u8, 0, 62, 0, 0, 0, 8, 0, 0, 0, 70, 0, 0, 0, 2, 0, 0, 0, 72, 0, 0, 0, 2, 0, 0, 0, 74, 0,
        0, 0, 2, 0, 0, 0, 76, 0, 0, 0, 2, 0, 0, 0, 0, 0, 0, 0, 0, 0, 0, 0, 0, 0, 0, 0, 0, 0, 0, 0,
    ]);
    assert(le_u16(src, HEADER_LEN as int) == 5) by {
        assert(src[20] == table[0] && src[21] == table[1]);
    }
    assert(desc_offset(src, 0) == 62 && desc_size(src, 0) == 8) by {
        assert(src[22] == table[2] && src[23] == table[3] && src[24] == table[4] && src[25]
            == table[5]);
        assert(src[26] == table[6] && src[27] == table[7] && src[28] == table[8] && src[29]
            == table[9]);
    }
    assert(desc_offset(src, 1) == 70 && desc_size(src, 1) == 2) by {
        assert(src[30] == table[10] && src[31] == table[11] && src[32] == table[12] && src[33]
            == table[13]);
        assert(src[34] == table[14] && src[35] == table[15] && src[36] == table[16] && src[37]
            == table[17]);
    }
    assert(desc_offset(src, 2) == 72 && desc_size(src, 2) == 2) by {
        assert(src[38] == table[18] && src[39] == table[19] && src[40] == table[20] && src[41]
            == table[21]);
        assert(src[42] == table[22] && src[43] == table[23] && src[44] == table[24] && src[45]
            == table[25]);
    }
    assert(desc_offset(src, 3) == 74 && desc_size(src, 3) == 2) by {
        assert(src[46] == table[26] && src[47] == table[27] && src[48] == table[28] && src[49]
            == table[29]);
        assert(src[50] == table[30] && src[51] == table[31] && src[52] == table[32] && src[53]
            == table[33]);
    }
    assert(desc_offset(src, 4) == 76 && desc_size(src, 4) == 2) by {
        assert(src[54] == table[34] && src[55] == table[35] && src[56] == table[36] && src[57]
            == table[37]);
        assert(src[58] == table[38] && src[59] == table[39] && src[60] == table[40] && src[61]
            == table[41]);
    }
    reveal_with_fuel(first_bad_section, 6);
    assert(first_bad_section(src, 0) is None);
    let start = section(src, SEC_LEVEL_START as int);
    assert forall|k: int| 0 <= k < 8 implies #[trigger] start[k] == 0 by {
        assert(start[k] == src[62 + k]);
        assert(src[62 + k] == table[42 + k]);
    }
    assert(le_u32(start, 0) == 0 && le_u32(start, 4) == 0) by {
        assert(start[0] == 0 && start[1] == 0 && start[2] == 0 && start[3] == 0);
        assert(start[4] == 0 && start[5] == 0 && start[6] == 0 && start[7] == 0);
    }
    assert forall|i: int| 1 <= i < 5 implies le_u16(#[trigger] section(src, i), 0) == 0 by {
        let sec = section(src, i);
        assert(sec[0] == src[desc_offset(src, i) as int]);
        assert(sec[1] == src[desc_offset(src, i) + 1]);
        assert(src[desc_offset(src, i) as int] == table[desc_offset(src, i) - 20]);
        assert(src[desc_offset(src, i) + 1] == table[desc_offset(src, i) - 19]);
    }
    assert(section(src, 1).len() == 2);
    assert(section(src, 2).len() == 2);
    assert(section(src, 3).len() == 2);
    assert(section(src, 4).len() == 2);
    assert(spec_parse(src) =~~= Ok::<SpecRawLevel, ParseError>(spec_empty_level()));
}

/// The smallest level file: start position (0, 0) and no strings, graphics,
/// colliders or triggers.
pub fn empty_level_src() -> (r: Vec<u8>)
    ensures
        r@ == spec_empty_level_src(),
{
    let mut r = level_header();
    let body: Vec<u8> = vec![
        // offset table
        5u8, 0, 62, 0, 0, 0, 8, 0, 0, 0, 70, 0, 0, 0, 2, 0,
        0, 0, 72, 0, 0, 0, 2, 0, 0, 0, 74, 0, 0, 0, 2, 0,
        0, 0, 76, 0, 0, 0, 2, 0, 0, 0,
        // level_start
        0, 0, 0, 0, 0, 0, 0, 0,
        // four empty arrays
        0, 0, 0, 0, 0, 0, 0, 0,
    ];
    append_bytes(&mut r, body.as_slice());
    assert(r@ =~= spec_empty_level_src());
    r
}

/// The bytes of the example level file.
pub open spec fn spec_example_level_src() -> Seq<u8> {
    spec_level_header() + seq![
        // offset table
        5u8, 0, 62, 0, 0, 0, 8, 0, 0, 0, 70, 0, 0, 0, 72, 0,
        0, 0, 142, 0, 0, 0, 38, 0, 0, 0, 180, 0, 0, 0, 50, 0,
        0, 0, 230, 0, 0, 0, 226, 0, 0, 0,
        // level_start: (42.0, -1.23)
        0, 0, 40, 66, 164, 112, 157, 191,
        // strings: empty, a polygon, "banana", "ban"
        4, 0, 0, 0, 0, 0, 0, 0, 0, 0, 0, 0, 0, 0, 32, 0,
        0, 0, 32, 0, 0, 0, 6, 0, 0, 0, 32, 0, 0, 0, 3, 0,
        0, 0,
        // (0.0, 0.1) (3.1, -1.1) (4.0, 5.1) (0.99, 6.9)
        0, 0, 0, 0, 205, 204, 204, 61, 102, 102, 70, 64, 205, 204, 140, 191,
        0, 0, 128, 64, 51, 51, 163, 64, 164, 112, 125, 63, 205, 204, 220, 64,
        // "banana"
        98, 97, 110, 97, 110, 97,
        // graphics: a rectangle with "banana", the polygon with "ban"
        2, 0, 0, 0, 128, 63, 0, 0, 0, 64, 0, 0, 64, 64, 0, 0,
        128, 64, 2, 0, 255, 255, 255, 255, 1, 0, 0, 0, 0, 0, 0, 0,
        0, 0, 0, 0, 3, 0,
        // colliders: two rectangles and the polygon
        3, 0, 0, 0, 128, 63, 0, 0, 0, 64, 0, 0, 64, 64, 0, 0,
        128, 64, 0, 0, 160, 64, 0, 0, 192, 64, 0, 0, 224, 64, 0, 0,
        0, 65, 255, 255, 255, 255, 1, 0, 0, 0, 0, 0, 0, 0, 0, 0,
        0, 0,
        // triggers
        7, 0,
        // Panic
        0, 0, 128, 63, 0, 0, 0, 64, 0, 0, 64, 64, 0, 0, 128, 64,
        0, 0, 0, 0, 0, 0, 0, 0, 0, 0, 0, 0, 0, 0, 0, 0,
        // Hello
        0, 0, 160, 64, 0, 0, 192, 64, 0, 0, 224, 64, 0, 0, 0, 65,
        1, 0, 0, 0, 0, 0, 0, 0, 0, 0, 0, 0, 0, 0, 0, 0,
        // ShowText("banana")
        0, 0, 128, 63, 0, 0, 0, 64, 0, 0, 64, 64, 0, 0, 128, 64,
        2, 2, 0, 0, 0, 0, 0, 0, 0, 0, 0, 0, 0, 0, 0, 0,
        // SetEyepatch(true)
        255, 255, 255, 255, 1, 0, 0, 0, 0, 0, 0, 0, 0, 0, 0, 0,
        3, 1, 0, 0, 0, 0, 0, 0, 0, 0, 0, 0, 0, 0, 0, 0,
        // SetEyepatch(false)
        0, 0, 128, 63, 0, 0, 0, 64, 0, 0, 64, 64, 0, 0, 128, 64,
        3, 0, 0, 0, 0, 0, 0, 0, 0, 0, 0, 0, 0, 0, 0, 0,
        // Goto((123.0, 4.5), Wrong)
        0, 0, 128, 63, 0, 0, 0, 64, 0, 0, 64, 64, 0, 0, 128, 64,
        4, 0, 0, 246, 66, 0, 0, 144, 64, 0, 0, 0, 0, 0, 0, 0,
        // Goto((123.0, 4.5), Nice)
        0, 0, 160, 64, 0, 0, 192, 64, 0, 0, 224, 64, 0, 0, 0, 65,
        4, 0, 0, 246, 66, 0, 0, 144, 64, 1, 0, 0, 0, 0, 0, 0,
    ]
}

/// A level file with four strings (an empty one, a polygon and two overlapping
/// texts), two graphics, three colliders and seven triggers of every kind.
pub fn example_level_src() -> (r: Vec<u8>)
    ensures
        r@ == spec_example_level_src(),
{
    let mut r = level_header();
    let body: Vec<u8> = vec![
        // offset table
        5u8, 0, 62, 0, 0, 0, 8, 0, 0, 0, 70, 0, 0, 0, 72, 0,
        0, 0, 142, 0, 0, 0, 38, 0, 0, 0, 180, 0, 0, 0, 50, 0,
        0, 0, 230, 0, 0, 0, 226, 0, 0, 0,
        // level_start: (42.0, -1.23)
        0, 0, 40, 66, 164, 112, 157, 191,
        // strings: empty, a polygon, "banana", "ban"
        4, 0, 0, 0, 0, 0, 0, 0, 0, 0, 0, 0, 0, 0, 32, 0,
        0, 0, 32, 0, 0, 0, 6, 0, 0, 0, 32, 0, 0, 0, 3, 0,
        0, 0,
        // (0.0, 0.1) (3.1, -1.1) (4.0, 5.1) (0.99, 6.9)
        0, 0, 0, 0, 205, 204, 204, 61, 102, 102, 70, 64, 205, 204, 140, 191,
        0, 0, 128, 64, 51, 51, 163, 64, 164, 112, 125, 63, 205, 204, 220, 64,
        // "banana"
        98, 97, 110, 97, 110, 97,
        // graphics: a rectangle with "banana", the polygon with "ban"
        2, 0, 0, 0, 128, 63, 0, 0, 0, 64, 0, 0, 64, 64, 0, 0,
        128, 64, 2, 0, 255, 255, 255, 255, 1, 0, 0, 0, 0, 0, 0, 0,
        0, 0, 0, 0, 3, 0,
        // colliders: two rectangles and the polygon
        3, 0, 0, 0, 128, 63, 0, 0, 0, 64, 0, 0, 64, 64, 0, 0,
        128, 64, 0, 0, 160, 64, 0, 0, 192, 64, 0, 0, 224, 64, 0, 0,
        0, 65, 255, 255, 255, 255, 1, 0, 0, 0, 0, 0, 0, 0, 0, 0,
        0, 0,
        // triggers
        7, 0,
        // Panic
        0, 0, 128, 63, 0, 0, 0, 64, 0, 0, 64, 64, 0, 0, 128, 64,
        0, 0, 0, 0, 0, 0, 0, 0, 0, 0, 0, 0, 0, 0, 0, 0,
        // Hello
        0, 0, 160, 64, 0, 0, 192, 64, 0, 0, 224, 64, 0, 0, 0, 65,
        1, 0, 0, 0, 0, 0, 0, 0, 0, 0, 0, 0, 0, 0, 0, 0,
        // ShowText("banana")
        0, 0, 128, 63, 0, 0, 0, 64, 0, 0, 64, 64, 0, 0, 128, 64,
        2, 2, 0, 0, 0, 0, 0, 0, 0, 0, 0, 0, 0, 0, 0, 0,
        // SetEyepatch(true)
        255, 255, 255, 255, 1, 0, 0, 0, 0, 0, 0, 0, 0, 0, 0, 0,
        3, 1, 0, 0, 0, 0, 0, 0, 0, 0, 0, 0, 0, 0, 0, 0,
        // SetEyepatch(false)
        0, 0, 128, 63, 0, 0, 0, 64, 0, 0, 64, 64, 0, 0, 128, 64,
        3, 0, 0, 0, 0, 0, 0, 0, 0, 0, 0, 0, 0, 0, 0, 0,
        // Goto((123.0, 4.5), Wrong)
        0, 0, 128, 63, 0, 0, 0, 64, 0, 0, 64, 64, 0, 0, 128, 64,
        4, 0, 0, 246, 66, 0, 0, 144, 64, 0, 0, 0, 0, 0, 0, 0,
        // Goto((123.0, 4.5), Nice)
        0, 0, 160, 64, 0, 0, 192, 64, 0, 0, 224, 64, 0, 0, 0, 65,
        4, 0, 0, 246, 66, 0, 0, 144, 64, 1, 0, 0, 0, 0, 0, 0,
    ];
    append_bytes(&mut r, body.as_slice());
    assert(r@ =~= spec_example_level_src());
    r
}

} // verus!
