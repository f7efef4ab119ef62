//! The verifiable heart of the KML reader: tag-name cleaning, style
//! registration (with hex colour decoding), style-reference
//! resolution, and the event-driven collectors that the XML pull
//! parser drives.  Reading the file and parsing floating-point
//! coordinates stay outside; this module works on the plain strings
//! and bytes handed in.

use crate::logger::{bumped_times, Issue, Logger};
use vstd::prelude::*;
use vstd::string::StrSliceExecFns;
use vstd::string::StringSliceAdditionalSpecFns;
use vstd::string::StringExecFns;

verus! {

/// Append one character to a string.
///
/// Relies on `String::push`: appends exactly the given `char`.
#[verifier::external_body]
fn push_char(s: &mut String, c: char)
    ensures
        final(s)@ == old(s)@.push(c),
{
    s.push(c);
}

/// Two spaces for every indentation level.
pub fn indent(size: usize) -> (r: String)
    ensures
        r@.len() == 2 * size,
        forall|i: int| 0 <= i < r@.len() ==> r@[i] == ' ',
{
    proof {
        reveal_strlit("  ");
        assert("  "@.len() == 2);
    }
    let mut r = String::new();
    let mut i: usize = 0;
    while i < size
        invariant
            0 <= i <= size,
            r@.len() == 2 * i,
            forall|j: int| 0 <= j < r@.len() ==> r@[j] == ' ',
        decreases size - i,
    {
        proof {
            reveal_strlit("  ");
        }
        r.append("  ");
        i = i + 1;
    }
    r
}

/// An ASCII capital letter lowered; any other character unchanged.
pub open spec fn lower_char(c: char) -> char {
    if 65 <= c as u32 <= 90 {
        ((c as u32 + 32) as u8) as char
    } else {
        c
    }
}

/// `s` with every `{`..`}` span removed and the rest lowered, folding
/// from the front with the erase flag `erase`.
pub open spec fn clean_spec(s: Seq<char>, erase: bool) -> Seq<char>
    decreases s.len(),
{
    if s.len() == 0 {
        Seq::empty()
    } else if s.first() == '{' {
        clean_spec(s.drop_first(), true)
    } else if s.first() == '}' {
        clean_spec(s.drop_first(), false)
    } else if erase {
        clean_spec(s.drop_first(), true)
    } else {
        seq![lower_char(s.first())] + clean_spec(s.drop_first(), false)
    }
}

/// Clean a tag name: drop everything between `{` and `}` inclusive,
/// and lower-case the ASCII letters of the rest.
pub fn clean_name(name: String) -> (r: String)
    ensures
        r@ == clean_spec(name@, false),
{
    let n = name.as_str().unicode_len();
    let mut builder = String::new();
    let mut erase = false;
    let mut i: usize = 0;
    proof {
        assert(name@.skip(0) =~= name@);
    }
    while i < n
        invariant
            0 <= i <= n == name@.len(),
            clean_spec(name@, false) == builder@ + clean_spec(name@.skip(i as int), erase),
        decreases n - i,
    {
        let c = name.as_str().get_char(i);
        proof {
            assert(name@.skip(i as int).first() == name@[i as int]);
            assert(name@.skip(i as int).drop_first() =~= name@.skip(i + 1));
        }
        if c == '{' {
            erase = true;
        } else if c == '}' {
            erase = false;
        } else if !erase {
            let code = c as u32;
            if 65 <= code && code <= 90 {
                let lc = ((code + 32) as u8) as char;
                push_char(&mut builder, lc);
            } else {
                push_char(&mut builder, c);
            }
            proof {
                assert(builder@.drop_last() + seq![lower_char(name@[i as int])] =~= builder@);
            }
        }
        i = i + 1;
    }
    proof {
        assert(name@.skip(name@.len() as int) =~= Seq::<char>::empty());
        assert(builder@ + clean_spec(Seq::<char>::empty(), erase) =~= builder@);
    }
    builder
}

/// A hex digit `0-9 a-f A-F` as a byte.
pub open spec fn is_hex_digit(b: u8) -> bool {
    (48 <= b <= 57) || (97 <= b <= 102) || (65 <= b <= 70)
}

/// The value of one hex digit.
pub open spec fn hex_val(b: u8) -> u8 {
    if 48 <= b <= 57 {
        (b - 48) as u8
    } else if 97 <= b <= 102 {
        (b - 87) as u8
    } else {
        (b - 55) as u8
    }
}

/// Why a hex string failed to decode.
#[derive(Clone, Copy, Debug)]
pub enum HexDecodeError {
    InvalidHexCharacter,
    OddLength,
    InvalidStringLength,
}

/// Decode a hex string into bytes: two digits per byte.
///
/// Relies on `hex::decode` (via `FromHex for Vec<u8>`): it fails with
/// `OddLength` on an odd-length input, fails on the first byte that is
/// not a hex digit, and otherwise returns one byte per digit pair,
/// high digit first.  The error is converted to this crate's error
/// type arm by arm.
#[verifier::external_body]
fn decode_hex(data: &[u8]) -> (r: Result<Vec<u8>, HexDecodeError>)
    ensures
        (r is Ok) == (data@.len() % 2 == 0 && (forall|i: int|
            0 <= i < data@.len() ==> is_hex_digit(#[trigger] data@[i]))),
        r matches Ok(v) ==> v@.len() == data@.len() / 2 && (forall|i: int|
            0 <= i < v@.len() ==> #[trigger] v@[i] == hex_val(data@[2 * i]) * 16 + hex_val(
                data@[2 * i + 1],
            )),
        r matches Err(e) ==> (e is OddLength) == (data@.len() % 2 != 0),
{
    match hex::decode(data) {
        Ok(v) => Ok(v),
        Err(hex::FromHexError::InvalidHexCharacter { c: _, index: _ }) => Err(
            HexDecodeError::InvalidHexCharacter,
        ),
        Err(hex::FromHexError::OddLength) => Err(HexDecodeError::OddLength),
        Err(hex::FromHexError::InvalidStringLength) => Err(HexDecodeError::InvalidStringLength),
    }
}

/// A raw style as collected from the document: id, hex colour text,
/// outline flag character.
pub type RawStyle = (String, String, char);

/// A registered colour map entry: style id text and its palette slot.
pub type StyleKey = (String, usize);

/// The bytes of a string, as the hex decoder sees them.
pub open spec fn str_bytes(s: Seq<char>) -> Seq<u8> {
    vstd::utf8::encode_utf8(s)
}

/// The id is already registered.
pub open spec fn has_key(map: Seq<(Seq<char>, int)>, id: Seq<char>) -> bool {
    exists|j: int| 0 <= j < map.len() && (#[trigger] map[j]).0 == id
}

/// The colour text decodes to at least three bytes.
pub open spec fn colour_ok(colour: Seq<char>) -> bool {
    let bytes = str_bytes(colour);
    &&& bytes.len() % 2 == 0
    &&& forall|i: int| 0 <= i < bytes.len() ==> is_hex_digit(#[trigger] bytes[i])
    &&& bytes.len() / 2 >= 3
}

/// The decoded colour bytes of a colour text.
pub open spec fn colour_bytes(colour: Seq<char>) -> Seq<u8> {
    let bytes = str_bytes(colour);
    Seq::new(
        (bytes.len() / 2) as nat,
        |i: int| (hex_val(bytes[2 * i]) * 16 + hex_val(bytes[2 * i + 1])) as u8,
    )
}

/// The palette entry one raw style contributes: outline flag byte and
/// the last three decoded colour bytes (red, green, blue).
pub open spec fn style_entry(colour: Seq<char>, outline: char) -> (u8, u8, u8, u8) {
    let c = colour_bytes(colour);
    let off = c.len() - 3;
    (
        (if outline == '1' {
            1u8
        } else {
            0u8
        }),
        c[off],
        c[off + 1],
        c[off + 2],
    )
}

/// The outcome of registering raw styles, walked from the front:
/// `None` when a new style's colour fails to decode to three bytes,
/// else the final colour map, palette, and counter.
pub open spec fn spec_register(
    raw: Seq<(Seq<char>, Seq<char>, char)>,
    map0: Seq<(Seq<char>, int)>,
    styles0: Seq<(u8, u8, u8, u8)>,
    counter0: int,
) -> Option<(Seq<(Seq<char>, int)>, Seq<(u8, u8, u8, u8)>, int)>
    decreases raw.len(),
{
    if raw.len() == 0 {
        Some((map0, styles0, counter0))
    } else {
        let entry = raw.first();
        if has_key(map0, entry.0) {
            spec_register(raw.drop_first(), map0, styles0, counter0)
        } else if !colour_ok(entry.1) {
            None
        } else {
            spec_register(
                raw.drop_first(),
                map0.push((entry.0, counter0)),
                styles0.push(style_entry(entry.1, entry.2)),
                counter0 + 1,
            )
        }
    }
}

/// The view of a raw-style list.
pub open spec fn raw_views(raw: Seq<RawStyle>) -> Seq<(Seq<char>, Seq<char>, char)> {
    raw.map_values(|e: RawStyle| (e.0@, e.1@, e.2))
}

/// The view of a colour map.
pub open spec fn map_views(map: Seq<StyleKey>) -> Seq<(Seq<char>, int)> {
    map.map_values(|e: StyleKey| (e.0@, e.1 as int))
}

/// Register the raw styles collected from one document: each id not
/// yet in the colour map gets the next palette slot, its colour text
/// decoded from hex, the last three bytes kept as red, green and blue,
/// and an outline flag from the `'1'` character.  Fails when a new
/// style's colour does not decode to at least three bytes, as reading
/// the document fatally does.
pub fn register_styles(
    raw: Vec<RawStyle>,
    colmap: &mut Vec<StyleKey>,
    styles: &mut Vec<(u8, u8, u8, u8)>,
    counter: &mut usize,
) -> (r: Result<(), HexDecodeError>)
    requires
        *old(counter) + raw@.len() <= usize::MAX,
    ensures
        r is Ok <==> spec_register(
            raw_views(raw@),
            map_views(old(colmap)@),
            old(styles)@,
            *old(counter) as int,
        ) is Some,
        r is Ok ==> {
            let out = spec_register(
                raw_views(raw@),
                map_views(old(colmap)@),
                old(styles)@,
                *old(counter) as int,
            )->Some_0;
            &&& map_views(final(colmap)@) == out.0
            &&& final(styles)@ == out.1
            &&& *final(counter) as int == out.2
        },
{
    let ghost raw_v = raw_views(raw@);
    let mut work = raw;
    let mut i: usize = 0;
    proof {
        assert(raw_v.skip(0) =~= raw_v);
    }
    while i < work.len()
        invariant
            0 <= i <= raw_v.len(),
            raw_v == raw_views(raw@),
            work@.len() == raw_v.len(),
            forall|j: int|
                i <= j < raw_v.len() ==> ((#[trigger] work@[j]).0@, work@[j].1@, work@[j].2)
                    == raw_v[j],
            *counter + (raw_v.len() - i) <= usize::MAX,
            spec_register(raw_v, map_views(old(colmap)@), old(styles)@, *old(counter) as int)
                == spec_register(
                raw_v.skip(i as int),
                map_views(colmap@),
                styles@,
                *counter as int,
            ),
        decreases raw_v.len() - i,
    {
        let mut entry: RawStyle = (String::new(), String::new(), ' ');
        core::mem::swap(&mut entry, &mut work[i]);
        let (id, colourstr, outline) = entry;
        proof {
            assert(raw_v.skip(i as int).first() == (id@, colourstr@, outline));
            assert(raw_v.skip(i as int).drop_first() =~= raw_v.skip(i + 1));
        }
        // is the id already registered?
        let mut seen = false;
        let mut k: usize = 0;
        while k < colmap.len() && !seen
            invariant
                0 <= k <= colmap@.len(),
                !seen ==> forall|j: int| 0 <= j < k ==> (#[trigger] colmap@[j]).0@ != id@,
                seen ==> exists|j: int|
                    0 <= j < colmap@.len() && (#[trigger] colmap@[j]).0@ == id@,
            decreases colmap@.len() - k + (if seen {
                0int
            } else {
                1int
            }),
        {
            if colmap[k].0 == id {
                seen = true;
            }
            if !seen {
                k = k + 1;
            }
        }
        proof {
            if seen {
                let j = choose|j: int| 0 <= j < colmap@.len() && (#[trigger] colmap@[j]).0@ == id@;
                assert(map_views(colmap@)[j].0 == id@);
                assert(has_key(map_views(colmap@), id@));
            } else {
                assert forall|j: int| 0 <= j < map_views(colmap@).len() implies (
                #[trigger] map_views(colmap@)[j]).0 != id@ by {
                    assert(map_views(colmap@)[j].0 == colmap@[j].0@);
                }
                assert(!has_key(map_views(colmap@), id@));
            }
        }
        if !seen {
            let outl: u8 = if outline == '1' {
                1
            } else {
                0
            };
            let cs = colourstr.as_str();
            let cb = cs.as_bytes();
            proof {
                assert(cb@ == str_bytes(colourstr@));
            }
            let components = match decode_hex(cb) {
                Ok(c) => c,
                Err(e) => {
                    proof {
                        assert(!colour_ok(colourstr@));
                        assert(spec_register(
                            raw_v.skip(i as int),
                            map_views(colmap@),
                            styles@,
                            *counter as int,
                        ) is None);
                    }
                    return Err(e);
                },
            };
            if components.len() < 3 {
                proof {
                    assert(!colour_ok(colourstr@));
                    assert(spec_register(
                        raw_v.skip(i as int),
                        map_views(colmap@),
                        styles@,
                        *counter as int,
                    ) is None);
                }
                return Err(HexDecodeError::InvalidStringLength);
            }
            proof {
                assert(colour_ok(colourstr@));
                assert(components@ =~= colour_bytes(colourstr@));
            }
            let off = components.len() - 3;
            let red = components[off];
            let green = components[off + 1];
            let blue = components[off + 2];
            let ghost map_pre = map_views(colmap@);
            colmap.push((id, *counter));
            styles.push((outl, red, green, blue));
            *counter = *counter + 1;
            proof {
                assert(map_views(colmap@) =~= map_pre.push(
                    ((raw_v.skip(i as int).first().0), *counter as int - 1),
                ));
            }
        }
        i = i + 1;
    }
    proof {
        assert(raw_v.skip(raw_v.len() as int) =~= Seq::<(Seq<char>, Seq<char>, char)>::empty());
    }
    Ok(())
}


/// A style-url with the `#` characters stripped, folding from the
/// front.
pub open spec fn strip_hash(s: Seq<char>) -> Seq<char>
    decreases s.len(),
{
    if s.len() == 0 {
        Seq::empty()
    } else if s.first() == '#' {
        strip_hash(s.drop_first())
    } else {
        seq![s.first()] + strip_hash(s.drop_first())
    }
}

/// Strip every `#` from a style-url.
fn strip_hash_chars(s: &String) -> (r: String)
    ensures
        r@ == strip_hash(s@),
{
    let n = s.as_str().unicode_len();
    let mut builder = String::new();
    let mut i: usize = 0;
    proof {
        assert(s@.skip(0) =~= s@);
    }
    while i < n
        invariant
            0 <= i <= n == s@.len(),
            strip_hash(s@) == builder@ + strip_hash(s@.skip(i as int)),
        decreases n - i,
    {
        let c = s.as_str().get_char(i);
        proof {
            assert(s@.skip(i as int).first() == s@[i as int]);
            assert(s@.skip(i as int).drop_first() =~= s@.skip(i + 1));
        }
        if c != '#' {
            push_char(&mut builder, c);
            proof {
                assert(builder@.drop_last() + seq![s@[i as int]] =~= builder@);
            }
        }
        i = i + 1;
    }
    proof {
        assert(s@.skip(s@.len() as int) =~= Seq::<char>::empty());
        assert(builder@ + strip_hash(Seq::<char>::empty()) =~= builder@);
    }
    builder
}

/// The palette slot of the first colour-map entry with the given id
/// text.
pub open spec fn lookup_key(map: Seq<StyleKey>, key: Seq<char>) -> Option<usize>
    decreases map.len(),
{
    if map.len() == 0 {
        None
    } else if map.first().0@ == key {
        Some(map.first().1)
    } else {
        lookup_key(map.drop_first(), key)
    }
}

/// A polygon with raw coordinate text: style-url, outer ring texts,
/// inner ring texts.
pub type RawPoly = (String, Vec<String>, Vec<String>);

/// The polygons among the first `j` that resolve to a palette slot:
/// a polygon whose style-url is empty, or whose stripped url is not
/// registered, is dropped.
pub open spec fn resolved_upto(polys: Seq<RawPoly>, map: Seq<StyleKey>, j: int) -> Seq<
    (usize, (Vec<String>, Vec<String>)),
>
    decreases j,
{
    if j <= 0 {
        Seq::empty()
    } else {
        let pre = resolved_upto(polys, map, j - 1);
        let e = polys[j - 1];
        if e.0@.len() == 0 {
            pre
        } else {
            match lookup_key(map, strip_hash(e.0@)) {
                Some(id) => pre.push((id, (e.1, e.2))),
                None => pre,
            }
        }
    }
}

/// How many of the first `j` polygons have an empty style-url.
pub open spec fn empties_upto(polys: Seq<RawPoly>, j: int) -> int
    decreases j,
{
    if j <= 0 {
        0
    } else {
        empties_upto(polys, j - 1) + (if polys[j - 1].0@.len() == 0 {
            1int
        } else {
            0int
        })
    }
}

/// How many of the first `j` polygons name a style that is not
/// registered.
pub open spec fn missing_upto(polys: Seq<RawPoly>, map: Seq<StyleKey>, j: int) -> int
    decreases j,
{
    if j <= 0 {
        0
    } else {
        missing_upto(polys, map, j - 1) + (if polys[j - 1].0@.len() != 0 && lookup_key(
            map,
            strip_hash(polys[j - 1].0@),
        ) is None {
            1int
        } else {
            0int
        })
    }
}

/// The logger after counting the style issues of a resolution pass
/// and nothing else.
pub open spec fn logs_style_issues(pre: Logger, post: Logger, empties: int, missings: int) -> bool {
    &&& post.two_plus_z_in_heightline == pre.two_plus_z_in_heightline
    &&& post.unsupported_shape == pre.unsupported_shape
    &&& post.empty_shape == pre.empty_shape
    &&& post.multi_chunk_shape == pre.multi_chunk_shape
    &&& post.non_origin_boundingbox == pre.non_origin_boundingbox
    &&& post.empty_style_id == bumped_times(pre.empty_style_id, empties)
    &&& post.missing_style_id == bumped_times(pre.missing_style_id, missings)
    &&& post.poly_not_enough_vertices == pre.poly_not_enough_vertices
    &&& post.out_of_indices_bound == pre.out_of_indices_bound
    &&& post.no_ears_left == pre.no_ears_left
    &&& post.inner_not_inside == pre.inner_not_inside
    &&& post.messages@ == pre.messages@
    &&& post.debug_print == pre.debug_print
}

/// The counters are never negative.
proof fn lemma_style_counts_nonneg(polys: Seq<RawPoly>, map: Seq<StyleKey>, j: int)
    ensures
        empties_upto(polys, j) >= 0,
        missing_upto(polys, map, j) >= 0,
    decreases j,
{
    if j > 0 {
        lemma_style_counts_nonneg(polys, map, j - 1);
    }
}

/// Resolve each collected polygon's style-url against the colour map:
/// keep the polygons whose style is registered, logging an
/// `EmptyStyleId` for a blank url and a `MissingStyleId` for an
/// unregistered one.
pub fn resolve_geo_polygons(
    polygons: Vec<RawPoly>,
    colmap: &Vec<StyleKey>,
    logger: &mut Logger,
) -> (r: Vec<(usize, (Vec<String>, Vec<String>))>)
    ensures
        r@ == resolved_upto(polygons@, colmap@, polygons@.len() as int),
        logs_style_issues(
            *old(logger),
            *final(logger),
            empties_upto(polygons@, polygons@.len() as int),
            missing_upto(polygons@, colmap@, polygons@.len() as int),
        ),
{
    let ghost polys_v = polygons@;
    let mut work = polygons;
    let mut r: Vec<(usize, (Vec<String>, Vec<String>))> = Vec::new();
    let mut i: usize = 0;
    while i < work.len()
        invariant
            0 <= i <= polys_v.len(),
            polys_v == polygons@,
            work@.len() == polys_v.len(),
            forall|j: int| i <= j < polys_v.len() ==> #[trigger] work@[j] == polys_v[j],
            r@ == resolved_upto(polys_v, colmap@, i as int),
            logs_style_issues(
                *old(logger),
                *logger,
                empties_upto(polys_v, i as int),
                missing_upto(polys_v, colmap@, i as int),
            ),
        decreases polys_v.len() - i,
    {
        let mut entry: RawPoly = (String::new(), Vec::new(), Vec::new());
        core::mem::swap(&mut entry, &mut work[i]);
        let (sturl, outersraw, innersraw) = entry;
        proof {
            lemma_style_counts_nonneg(polys_v, colmap@, i as int);
        }
        if sturl.as_str().unicode_len() == 0 {
            logger.log(Issue::EmptyStyleId);
        } else {
            let url = strip_hash_chars(&sturl);
            let mut found = false;
            let mut id: usize = 0;
            let mut k: usize = 0;
            proof {
                assert(colmap@.skip(0) =~= colmap@);
            }
            while k < colmap.len() && !found
                invariant
                    0 <= k <= colmap@.len(),
                    url@ == strip_hash(polys_v[i as int].0@),
                    i < polys_v.len(),
                    !found ==> lookup_key(colmap@.skip(k as int), url@) == lookup_key(
                        colmap@,
                        url@,
                    ),
                    found ==> lookup_key(colmap@, url@) == Some(id),
                decreases colmap@.len() - k + (if found {
                    0int
                } else {
                    1int
                }),
            {
                proof {
                    assert(colmap@.skip(k as int).first() == colmap@[k as int]);
                    assert(colmap@.skip(k as int).drop_first() =~= colmap@.skip(k + 1));
                }
                if colmap[k].0 == url {
                    id = colmap[k].1;
                    found = true;
                }
                if !found {
                    k = k + 1;
                }
            }
            proof {
                if !found {
                    assert(colmap@.skip(colmap@.len() as int) =~= Seq::<StyleKey>::empty());
                }
            }
            if found {
                r.push((id, (outersraw, innersraw)));
            } else {
                logger.log(Issue::MissingStyleId);
            }
        }
        i = i + 1;
    }
    r
}


/// One event from the XML pull parser, reduced to plain values: an
/// opening tag with its attribute values, text content, or a closing
/// tag.
pub enum KmlEvent {
    StartElement(String, Vec<String>),
    Characters(String),
    EndElement(String),
}

/// Collects the coordinate strings of a contour document: text inside
/// any `coordinates` tag.
pub struct HeightState {
    pub coor: bool,
    pub strings: Vec<String>,
}

/// How one event moves the contour collector.
pub open spec fn height_step_ok(pre: HeightState, post: HeightState, ev: KmlEvent) -> bool {
    match ev {
        KmlEvent::StartElement(name, _attrs) => if clean_spec(name@, false) == "coordinates"@ {
            post.coor == true && post.strings@ == pre.strings@
        } else {
            post.coor == pre.coor && post.strings@ == pre.strings@
        },
        KmlEvent::Characters(content) => if pre.coor {
            post.coor == pre.coor && post.strings@ == pre.strings@.push(content)
        } else {
            post.coor == pre.coor && post.strings@ == pre.strings@
        },
        KmlEvent::EndElement(name) => if clean_spec(name@, false) == "coordinates"@ {
            post.coor == false && post.strings@ == pre.strings@
        } else {
            post.coor == pre.coor && post.strings@ == pre.strings@
        },
    }
}

impl HeightState {
    /// A fresh collector.
    pub fn new() -> (r: HeightState)
        ensures
            r.coor == false,
            r.strings@ == Seq::<String>::empty(),
    {
        HeightState { coor: false, strings: Vec::new() }
    }

    /// Feed one parser event to the collector.
    pub fn step(&mut self, ev: KmlEvent)
        ensures
            height_step_ok(*old(self), *final(self), ev),
    {
        let coord_name = String::from_str("coordinates");
        proof {
            reveal_strlit("coordinates");
        }
        match ev {
            KmlEvent::StartElement(name, _attrs) => {
                let nname = clean_name(name);
                if nname == coord_name {
                    self.coor = true;
                }
            },
            KmlEvent::Characters(content) => {
                if self.coor {
                    self.strings.push(content);
                }
            },
            KmlEvent::EndElement(name) => {
                let nname = clean_name(name);
                if nname == coord_name {
                    self.coor = false;
                }
            },
        }
    }
}

/// Why feeding an event to the polygon collector failed: faults the
/// document reader treats as fatal.
#[derive(Clone, Copy, Debug)]
pub enum KmlStepError {
    StyleAttributes,
    EmptyContent,
}

/// Collects the styles and polygons of a geological document: style
/// definitions (id, polygon colour, outline flag) and placemark
/// polygons (style-url with outer and inner coordinate strings).
pub struct GeoState {
    pub in_poly_style: bool,
    pub style_id: String,
    pub in_colour: bool,
    pub in_outline: bool,
    pub colour: String,
    pub outline: char,
    pub styles_raw: Vec<RawStyle>,
    pub in_style_url: bool,
    pub style_url: String,
    pub in_outer: bool,
    pub in_inner: bool,
    pub in_coordinates: bool,
    pub outers: Vec<String>,
    pub inners: Vec<String>,
    pub polygons: Vec<RawPoly>,
}

/// The fields the step leaves alone are unchanged between `pre` and
/// `post`, except those named true in the mask (a helper for the
/// per-event equations below).
pub open spec fn geo_flags_eq(pre: GeoState, post: GeoState) -> bool {
    &&& post.in_poly_style == pre.in_poly_style
    &&& post.in_colour == pre.in_colour
    &&& post.in_outline == pre.in_outline
    &&& post.in_style_url == pre.in_style_url
    &&& post.in_outer == pre.in_outer
    &&& post.in_inner == pre.in_inner
    &&& post.in_coordinates == pre.in_coordinates
}

/// The data the step leaves alone.
pub open spec fn geo_data_eq(pre: GeoState, post: GeoState) -> bool {
    &&& post.style_id@ == pre.style_id@
    &&& post.colour@ == pre.colour@
    &&& post.outline == pre.outline
    &&& post.styles_raw@ == pre.styles_raw@
    &&& post.style_url@ == pre.style_url@
    &&& post.outers@ == pre.outers@
    &&& post.inners@ == pre.inners@
    &&& post.polygons@ == pre.polygons@
}

/// How one opening tag moves the polygon collector.
pub open spec fn geo_start_ok(pre: GeoState, post: GeoState, name: Seq<char>, attrs: Seq<
    String,
>) -> bool {
    let n = clean_spec(name, false);
    if n == "style"@ {
        &&& attrs.len() == 1
        &&& post.style_id@ == attrs[0]@
        &&& geo_flags_eq(pre, post)
        &&& post.colour@ == pre.colour@ && post.outline == pre.outline && post.styles_raw@
            == pre.styles_raw@ && post.style_url@ == pre.style_url@ && post.outers@ == pre.outers@
            && post.inners@ == pre.inners@ && post.polygons@ == pre.polygons@
    } else if n == "polystyle"@ {
        post.in_poly_style == true && post.in_colour == pre.in_colour && post.in_outline
            == pre.in_outline && post.in_style_url == pre.in_style_url && post.in_outer
            == pre.in_outer && post.in_inner == pre.in_inner && post.in_coordinates
            == pre.in_coordinates && geo_data_eq(pre, post)
    } else if n == "color"@ && pre.in_poly_style {
        post.in_colour == true && post.in_poly_style == pre.in_poly_style && post.in_outline
            == pre.in_outline && post.in_style_url == pre.in_style_url && post.in_outer
            == pre.in_outer && post.in_inner == pre.in_inner && post.in_coordinates
            == pre.in_coordinates && geo_data_eq(pre, post)
    } else if n == "outline"@ && pre.in_poly_style {
        post.in_outline == true && post.in_poly_style == pre.in_poly_style && post.in_colour
            == pre.in_colour && post.in_style_url == pre.in_style_url && post.in_outer
            == pre.in_outer && post.in_inner == pre.in_inner && post.in_coordinates
            == pre.in_coordinates && geo_data_eq(pre, post)
    } else if n == "styleurl"@ {
        post.in_style_url == true && post.in_poly_style == pre.in_poly_style && post.in_colour
            == pre.in_colour && post.in_outline == pre.in_outline && post.in_outer
            == pre.in_outer && post.in_inner == pre.in_inner && post.in_coordinates
            == pre.in_coordinates && geo_data_eq(pre, post)
    } else if n == "outerboundaryis"@ {
        post.in_outer == true && post.in_poly_style == pre.in_poly_style && post.in_colour
            == pre.in_colour && post.in_outline == pre.in_outline && post.in_style_url
            == pre.in_style_url && post.in_inner == pre.in_inner && post.in_coordinates
            == pre.in_coordinates && geo_data_eq(pre, post)
    } else if n == "innerboundaryis"@ {
        post.in_inner == true && post.in_poly_style == pre.in_poly_style && post.in_colour
            == pre.in_colour && post.in_outline == pre.in_outline && post.in_style_url
            == pre.in_style_url && post.in_outer == pre.in_outer && post.in_coordinates
            == pre.in_coordinates && geo_data_eq(pre, post)
    } else if n == "coordinates"@ {
        post.in_coordinates == true && post.in_poly_style == pre.in_poly_style && post.in_colour
            == pre.in_colour && post.in_outline == pre.in_outline && post.in_style_url
            == pre.in_style_url && post.in_outer == pre.in_outer && post.in_inner == pre.in_inner
            && geo_data_eq(pre, post)
    } else {
        geo_flags_eq(pre, post) && geo_data_eq(pre, post)
    }
}

/// How text content moves the polygon collector.
pub open spec fn geo_chars_ok(pre: GeoState, post: GeoState, content: String) -> bool {
    if pre.in_colour {
        &&& geo_flags_eq(pre, post)
        &&& post.colour@ == content@
        &&& post.style_id@ == pre.style_id@ && post.outline == pre.outline && post.styles_raw@
            == pre.styles_raw@ && post.style_url@ == pre.style_url@ && post.outers@ == pre.outers@
            && post.inners@ == pre.inners@ && post.polygons@ == pre.polygons@
    } else if pre.in_outline {
        &&& content@.len() >= 1
        &&& geo_flags_eq(pre, post)
        &&& post.outline == content@[0]
        &&& post.style_id@ == pre.style_id@ && post.colour@ == pre.colour@ && post.styles_raw@
            == pre.styles_raw@ && post.style_url@ == pre.style_url@ && post.outers@ == pre.outers@
            && post.inners@ == pre.inners@ && post.polygons@ == pre.polygons@
    } else if pre.in_style_url {
        &&& geo_flags_eq(pre, post)
        &&& post.style_url@ == content@
        &&& post.style_id@ == pre.style_id@ && post.colour@ == pre.colour@ && post.outline
            == pre.outline && post.styles_raw@ == pre.styles_raw@ && post.outers@ == pre.outers@
            && post.inners@ == pre.inners@ && post.polygons@ == pre.polygons@
    } else if pre.in_coordinates && pre.in_outer {
        &&& geo_flags_eq(pre, post)
        &&& post.outers@ == pre.outers@.push(content)
        &&& post.style_id@ == pre.style_id@ && post.colour@ == pre.colour@ && post.outline
            == pre.outline && post.styles_raw@ == pre.styles_raw@ && post.style_url@
            == pre.style_url@ && post.inners@ == pre.inners@ && post.polygons@ == pre.polygons@
    } else if pre.in_coordinates && pre.in_inner {
        &&& geo_flags_eq(pre, post)
        &&& post.inners@ == pre.inners@.push(content)
        &&& post.style_id@ == pre.style_id@ && post.colour@ == pre.colour@ && post.outline
            == pre.outline && post.styles_raw@ == pre.styles_raw@ && post.style_url@
            == pre.style_url@ && post.outers@ == pre.outers@ && post.polygons@ == pre.polygons@
    } else {
        geo_flags_eq(pre, post) && geo_data_eq(pre, post)
    }
}

/// How one closing tag moves the polygon collector.
pub open spec fn geo_end_ok(pre: GeoState, post: GeoState, name: Seq<char>) -> bool {
    let n = clean_spec(name, false);
    if n == "polystyle"@ {
        &&& post.in_poly_style == false
        &&& post.styles_raw@.len() == pre.styles_raw@.len() + 1
        &&& post.styles_raw@.last().0@ == pre.style_id@
        &&& post.styles_raw@.last().1@ == pre.colour@
        &&& post.styles_raw@.last().2 == pre.outline
        &&& post.styles_raw@.take(pre.styles_raw@.len() as int) == pre.styles_raw@
        &&& post.style_id@ == Seq::<char>::empty()
        &&& post.colour@ == Seq::<char>::empty()
        &&& post.in_colour == pre.in_colour && post.in_outline == pre.in_outline
            && post.in_style_url == pre.in_style_url && post.in_outer == pre.in_outer
            && post.in_inner == pre.in_inner && post.in_coordinates == pre.in_coordinates
        &&& post.outline == pre.outline && post.style_url@ == pre.style_url@ && post.outers@
            == pre.outers@ && post.inners@ == pre.inners@ && post.polygons@ == pre.polygons@
    } else if n == "color"@ {
        post.in_colour == false && post.in_poly_style == pre.in_poly_style && post.in_outline
            == pre.in_outline && post.in_style_url == pre.in_style_url && post.in_outer
            == pre.in_outer && post.in_inner == pre.in_inner && post.in_coordinates
            == pre.in_coordinates && geo_data_eq(pre, post)
    } else if n == "outline"@ {
        post.in_outline == false && post.in_poly_style == pre.in_poly_style && post.in_colour
            == pre.in_colour && post.in_style_url == pre.in_style_url && post.in_outer
            == pre.in_outer && post.in_inner == pre.in_inner && post.in_coordinates
            == pre.in_coordinates && geo_data_eq(pre, post)
    } else if n == "styleurl"@ {
        post.in_style_url == false && post.in_poly_style == pre.in_poly_style && post.in_colour
            == pre.in_colour && post.in_outline == pre.in_outline && post.in_outer
            == pre.in_outer && post.in_inner == pre.in_inner && post.in_coordinates
            == pre.in_coordinates && geo_data_eq(pre, post)
    } else if n == "outerboundaryis"@ {
        post.in_outer == false && post.in_poly_style == pre.in_poly_style && post.in_colour
            == pre.in_colour && post.in_outline == pre.in_outline && post.in_style_url
            == pre.in_style_url && post.in_inner == pre.in_inner && post.in_coordinates
            == pre.in_coordinates && geo_data_eq(pre, post)
    } else if n == "innerboundaryis"@ {
        post.in_inner == false && post.in_poly_style == pre.in_poly_style && post.in_colour
            == pre.in_colour && post.in_outline == pre.in_outline && post.in_style_url
            == pre.in_style_url && post.in_outer == pre.in_outer && post.in_coordinates
            == pre.in_coordinates && geo_data_eq(pre, post)
    } else if n == "coordinates"@ {
        post.in_coordinates == false && post.in_poly_style == pre.in_poly_style && post.in_colour
            == pre.in_colour && post.in_outline == pre.in_outline && post.in_style_url
            == pre.in_style_url && post.in_outer == pre.in_outer && post.in_inner == pre.in_inner
            && geo_data_eq(pre, post)
    } else if n == "polygon"@ {
        &&& geo_flags_eq(pre, post)
        &&& post.polygons@.len() == pre.polygons@.len() + 1
        &&& post.polygons@.last().0@ == pre.style_url@
        &&& post.polygons@.last().1@ == pre.outers@
        &&& post.polygons@.last().2@ == pre.inners@
        &&& post.polygons@.take(pre.polygons@.len() as int) == pre.polygons@
        &&& post.outers@ == Seq::<String>::empty()
        &&& post.inners@ == Seq::<String>::empty()
        &&& post.style_id@ == pre.style_id@ && post.colour@ == pre.colour@ && post.outline
            == pre.outline && post.styles_raw@ == pre.styles_raw@ && post.style_url@
            == pre.style_url@
    } else if n == "placemark"@ {
        &&& geo_flags_eq(pre, post)
        &&& post.style_url@ == Seq::<char>::empty()
        &&& post.style_id@ == pre.style_id@ && post.colour@ == pre.colour@ && post.outline
            == pre.outline && post.styles_raw@ == pre.styles_raw@ && post.outers@ == pre.outers@
            && post.inners@ == pre.inners@ && post.polygons@ == pre.polygons@
    } else {
        geo_flags_eq(pre, post) && geo_data_eq(pre, post)
    }
}

impl GeoState {
    /// A fresh collector.
    pub fn new() -> (r: GeoState)
        ensures
            r.in_poly_style == false && r.in_colour == false && r.in_outline == false
                && r.in_style_url == false && r.in_outer == false && r.in_inner == false
                && r.in_coordinates == false,
            r.style_id@ == Seq::<char>::empty() && r.colour@ == Seq::<char>::empty()
                && r.style_url@ == Seq::<char>::empty(),
            r.outline == '0',
            r.styles_raw@ == Seq::<RawStyle>::empty(),
            r.outers@ == Seq::<String>::empty() && r.inners@ == Seq::<String>::empty(),
            r.polygons@ == Seq::<RawPoly>::empty(),
    {
        GeoState {
            in_poly_style: false,
            style_id: String::new(),
            in_colour: false,
            in_outline: false,
            colour: String::new(),
            outline: '0',
            styles_raw: Vec::new(),
            in_style_url: false,
            style_url: String::new(),
            in_outer: false,
            in_inner: false,
            in_coordinates: false,
            outers: Vec::new(),
            inners: Vec::new(),
            polygons: Vec::new(),
        }
    }

    /// Feed one parser event to the collector.  Fails on a `style`
    /// tag without exactly one attribute and on empty `outline` text,
    /// the faults the reader treats as fatal.
    pub fn step(&mut self, ev: KmlEvent) -> (r: Result<(), KmlStepError>)
        ensures
            r is Ok ==> match ev {
                KmlEvent::StartElement(name, attrs) => geo_start_ok(
                    *old(self),
                    *final(self),
                    name@,
                    attrs@,
                ),
                KmlEvent::Characters(content) => geo_chars_ok(*old(self), *final(self), content),
                KmlEvent::EndElement(name) => geo_end_ok(*old(self), *final(self), name@),
            },
            r is Err ==> match ev {
                KmlEvent::StartElement(name, attrs) => clean_spec(name@, false) == "style"@
                    && attrs@.len() != 1,
                KmlEvent::Characters(content) => !old(self).in_colour && old(self).in_outline
                    && content@.len() == 0,
                KmlEvent::EndElement(_name) => false,
            },
    {
        match ev {
            KmlEvent::StartElement(name, attrs) => self.step_start(name, attrs),
            KmlEvent::Characters(content) => self.step_chars(content),
            KmlEvent::EndElement(name) => {
                self.step_end(name);
                Ok(())
            },
        }
    }

    /// One opening tag.
    #[verifier::rlimit(100)]
    fn step_start(&mut self, name: String, attrs: Vec<String>) -> (r: Result<(), KmlStepError>)
        ensures
            r is Ok ==> geo_start_ok(*old(self), *final(self), name@, attrs@),
            r is Err <==> clean_spec(name@, false) == "style"@ && attrs@.len() != 1,
    {
        proof {
            reveal_strlit("style");
            reveal_strlit("polystyle");
            reveal_strlit("color");
            reveal_strlit("outline");
            reveal_strlit("styleurl");
            reveal_strlit("outerboundaryis");
            reveal_strlit("innerboundaryis");
            reveal_strlit("coordinates");
            reveal_strlit("polygon");
            reveal_strlit("placemark");
        }
        let nname = clean_name(name);
        if string_is(&nname, "style") {
            if attrs.len() != 1 {
                return Err(KmlStepError::StyleAttributes);
            }
            let mut attrs = attrs;
            let mut first = String::new();
            core::mem::swap(&mut first, &mut attrs[0]);
            self.style_id = first;
        } else if string_is(&nname, "polystyle") {
            self.in_poly_style = true;
        } else if string_is(&nname, "color") && self.in_poly_style {
            self.in_colour = true;
        } else if string_is(&nname, "outline") && self.in_poly_style {
            self.in_outline = true;
        } else if string_is(&nname, "styleurl") {
            self.in_style_url = true;
        } else if string_is(&nname, "outerboundaryis") {
            self.in_outer = true;
        } else if string_is(&nname, "innerboundaryis") {
            self.in_inner = true;
        } else if string_is(&nname, "coordinates") {
            self.in_coordinates = true;
        }
        Ok(())
    }

    /// Text content.
    fn step_chars(&mut self, content: String) -> (r: Result<(), KmlStepError>)
        ensures
            r is Ok ==> geo_chars_ok(*old(self), *final(self), content),
            r is Err <==> !old(self).in_colour && old(self).in_outline && content@.len() == 0,
    {
        if self.in_colour {
            self.colour = content;
        } else if self.in_outline {
            if content.as_str().unicode_len() == 0 {
                return Err(KmlStepError::EmptyContent);
            }
            self.outline = content.as_str().get_char(0);
        } else if self.in_style_url {
            self.style_url = content;
        } else if self.in_coordinates && self.in_outer {
            self.outers.push(content);
        } else if self.in_coordinates && self.in_inner {
            self.inners.push(content);
        }
        Ok(())
    }

    /// One closing tag.
    #[verifier::rlimit(100)]
    fn step_end(&mut self, name: String)
        ensures
            geo_end_ok(*old(self), *final(self), name@),
    {
        proof {
            reveal_strlit("style");
            reveal_strlit("polystyle");
            reveal_strlit("color");
            reveal_strlit("outline");
            reveal_strlit("styleurl");
            reveal_strlit("outerboundaryis");
            reveal_strlit("innerboundaryis");
            reveal_strlit("coordinates");
            reveal_strlit("polygon");
            reveal_strlit("placemark");
        }
        let nname = clean_name(name);
        if string_is(&nname, "polystyle") {
            self.in_poly_style = false;
            let mut sid = String::new();
            core::mem::swap(&mut sid, &mut self.style_id);
            let mut col = String::new();
            core::mem::swap(&mut col, &mut self.colour);
            let ghost pre_raw = self.styles_raw@;
            self.styles_raw.push((sid, col, self.outline));
            proof {
                assert(self.styles_raw@.take(pre_raw.len() as int) =~= pre_raw);
            }
        } else if string_is(&nname, "color") {
            self.in_colour = false;
        } else if string_is(&nname, "outline") {
            self.in_outline = false;
        } else if string_is(&nname, "styleurl") {
            self.in_style_url = false;
        } else if string_is(&nname, "outerboundaryis") {
            self.in_outer = false;
        } else if string_is(&nname, "innerboundaryis") {
            self.in_inner = false;
        } else if string_is(&nname, "coordinates") {
            self.in_coordinates = false;
        } else if string_is(&nname, "polygon") {
            let url = self.style_url.clone();
            let mut outs: Vec<String> = Vec::new();
            core::mem::swap(&mut outs, &mut self.outers);
            let mut inns: Vec<String> = Vec::new();
            core::mem::swap(&mut inns, &mut self.inners);
            let ghost pre_polys = self.polygons@;
            self.polygons.push((url, outs, inns));
            proof {
                assert(self.polygons@.take(pre_polys.len() as int) =~= pre_polys);
            }
        } else if string_is(&nname, "placemark") {
            self.style_url = String::new();
        }
    }
}

/// Whether a string's characters are exactly those of a literal.
fn string_is(s: &String, lit: &str) -> (r: bool)
    ensures
        r == (s@ == lit@),
{
    let t = String::from_str(lit);
    s.eq(&t)
}


/// A raw line style as collected: id, hex colour text, width text,
/// outline flag character.
pub type RawLineStyle = (String, String, String, char);

/// A placemark's lines: style-url and coordinate texts.
pub type RawLines = (String, Vec<String>);

/// Collects the styles and lines of a geological lines document:
/// style definitions (id, line colour, width text, outline flag) and
/// placemark lines (style-url with coordinate strings from polygon
/// boundaries or line strings).
pub struct LinesState {
    pub in_line_style: bool,
    pub style_id: String,
    pub in_colour: bool,
    pub in_width: bool,
    pub colour: String,
    pub width: String,
    pub styles_raw: Vec<RawLineStyle>,
    pub in_style_url: bool,
    pub style_url: String,
    pub in_outer: bool,
    pub in_inner: bool,
    pub in_coordinates: bool,
    pub in_outline: bool,
    pub outline: char,
    pub in_line: bool,
    pub lines: Vec<String>,
    pub polygons: Vec<RawLines>,
}

/// The flags of the lines collector, unchanged.
pub open spec fn lines_flags_eq(pre: LinesState, post: LinesState) -> bool {
    &&& post.in_line_style == pre.in_line_style
    &&& post.in_colour == pre.in_colour
    &&& post.in_width == pre.in_width
    &&& post.in_style_url == pre.in_style_url
    &&& post.in_outer == pre.in_outer
    &&& post.in_inner == pre.in_inner
    &&& post.in_coordinates == pre.in_coordinates
    &&& post.in_outline == pre.in_outline
    &&& post.in_line == pre.in_line
}

/// The data of the lines collector, unchanged.
pub open spec fn lines_data_eq(pre: LinesState, post: LinesState) -> bool {
    &&& post.style_id@ == pre.style_id@
    &&& post.colour@ == pre.colour@
    &&& post.width@ == pre.width@
    &&& post.styles_raw@ == pre.styles_raw@
    &&& post.style_url@ == pre.style_url@
    &&& post.outline == pre.outline
    &&& post.lines@ == pre.lines@
    &&& post.polygons@ == pre.polygons@
}

/// One flag set to true, everything else untouched.
pub open spec fn lines_one_flag(pre: LinesState, post: LinesState, which: int, v: bool) -> bool {
    &&& post.in_line_style == (if which == 0 {
        v
    } else {
        pre.in_line_style
    })
    &&& post.in_colour == (if which == 1 {
        v
    } else {
        pre.in_colour
    })
    &&& post.in_width == (if which == 2 {
        v
    } else {
        pre.in_width
    })
    &&& post.in_style_url == (if which == 3 {
        v
    } else {
        pre.in_style_url
    })
    &&& post.in_outer == (if which == 4 {
        v
    } else {
        pre.in_outer
    })
    &&& post.in_inner == (if which == 5 {
        v
    } else {
        pre.in_inner
    })
    &&& post.in_coordinates == (if which == 6 {
        v
    } else {
        pre.in_coordinates
    })
    &&& post.in_outline == (if which == 7 {
        v
    } else {
        pre.in_outline
    })
    &&& post.in_line == (if which == 8 {
        v
    } else {
        pre.in_line
    })
    &&& lines_data_eq(pre, post)
}

/// How one opening tag moves the lines collector.
pub open spec fn lines_start_ok(pre: LinesState, post: LinesState, name: Seq<char>, attrs: Seq<
    String,
>) -> bool {
    let n = clean_spec(name, false);
    if n == "style"@ {
        &&& attrs.len() == 1
        &&& post.style_id@ == attrs[0]@
        &&& lines_flags_eq(pre, post)
        &&& post.colour@ == pre.colour@ && post.width@ == pre.width@ && post.styles_raw@
            == pre.styles_raw@ && post.style_url@ == pre.style_url@ && post.outline == pre.outline
            && post.lines@ == pre.lines@ && post.polygons@ == pre.polygons@
    } else if n == "linestyle"@ {
        lines_one_flag(pre, post, 0, true)
    } else if n == "color"@ && pre.in_line_style {
        lines_one_flag(pre, post, 1, true)
    } else if n == "width"@ && pre.in_line_style {
        lines_one_flag(pre, post, 2, true)
    } else if n == "styleurl"@ {
        lines_one_flag(pre, post, 3, true)
    } else if n == "outerboundaryis"@ {
        lines_one_flag(pre, post, 4, true)
    } else if n == "innerboundaryis"@ {
        lines_one_flag(pre, post, 5, true)
    } else if n == "linestring"@ {
        lines_one_flag(pre, post, 8, true)
    } else if n == "coordinates"@ {
        lines_one_flag(pre, post, 6, true)
    } else if n == "outline"@ {
        lines_one_flag(pre, post, 7, true)
    } else {
        lines_flags_eq(pre, post) && lines_data_eq(pre, post)
    }
}

/// How text content moves the lines collector.
pub open spec fn lines_chars_ok(pre: LinesState, post: LinesState, content: String) -> bool {
    if pre.in_colour {
        &&& lines_flags_eq(pre, post)
        &&& post.colour@ == content@
        &&& post.style_id@ == pre.style_id@ && post.width@ == pre.width@ && post.styles_raw@
            == pre.styles_raw@ && post.style_url@ == pre.style_url@ && post.outline == pre.outline
            && post.lines@ == pre.lines@ && post.polygons@ == pre.polygons@
    } else if pre.in_width {
        &&& content@.len() >= 1
        &&& lines_flags_eq(pre, post)
        &&& post.width@ == content@
        &&& post.style_id@ == pre.style_id@ && post.colour@ == pre.colour@ && post.styles_raw@
            == pre.styles_raw@ && post.style_url@ == pre.style_url@ && post.outline == pre.outline
            && post.lines@ == pre.lines@ && post.polygons@ == pre.polygons@
    } else if pre.in_style_url {
        &&& lines_flags_eq(pre, post)
        &&& post.style_url@ == content@
        &&& post.style_id@ == pre.style_id@ && post.colour@ == pre.colour@ && post.width@
            == pre.width@ && post.styles_raw@ == pre.styles_raw@ && post.outline == pre.outline
            && post.lines@ == pre.lines@ && post.polygons@ == pre.polygons@
    } else if pre.in_coordinates && (pre.in_outer || pre.in_inner || pre.in_line) {
        &&& lines_flags_eq(pre, post)
        &&& post.lines@ == pre.lines@.push(content)
        &&& post.style_id@ == pre.style_id@ && post.colour@ == pre.colour@ && post.width@
            == pre.width@ && post.styles_raw@ == pre.styles_raw@ && post.style_url@
            == pre.style_url@ && post.outline == pre.outline && post.polygons@ == pre.polygons@
    } else if pre.in_outline {
        &&& content@.len() >= 1
        &&& lines_flags_eq(pre, post)
        &&& post.outline == content@[0]
        &&& post.style_id@ == pre.style_id@ && post.colour@ == pre.colour@ && post.width@
            == pre.width@ && post.styles_raw@ == pre.styles_raw@ && post.style_url@
            == pre.style_url@ && post.lines@ == pre.lines@ && post.polygons@ == pre.polygons@
    } else {
        lines_flags_eq(pre, post) && lines_data_eq(pre, post)
    }
}

/// How one closing tag moves the lines collector.
pub open spec fn lines_end_ok(pre: LinesState, post: LinesState, name: Seq<char>) -> bool {
    let n = clean_spec(name, false);
    if n == "style"@ {
        &&& lines_flags_eq(pre, post)
        &&& post.styles_raw@.len() == pre.styles_raw@.len() + 1
        &&& post.styles_raw@.last().0@ == pre.style_id@
        &&& post.styles_raw@.last().1@ == pre.colour@
        &&& post.styles_raw@.last().2@ == pre.width@
        &&& post.styles_raw@.last().3 == pre.outline
        &&& post.styles_raw@.take(pre.styles_raw@.len() as int) == pre.styles_raw@
        &&& post.style_id@ == Seq::<char>::empty()
        &&& post.colour@ == Seq::<char>::empty()
        &&& post.width@ == Seq::<char>::empty()
        &&& post.outline == '-'
        &&& post.style_url@ == pre.style_url@ && post.lines@ == pre.lines@ && post.polygons@
            == pre.polygons@
    } else if n == "color"@ {
        lines_one_flag(pre, post, 1, false)
    } else if n == "width"@ {
        lines_one_flag(pre, post, 2, false)
    } else if n == "styleurl"@ {
        lines_one_flag(pre, post, 3, false)
    } else if n == "outerboundaryis"@ {
        lines_one_flag(pre, post, 4, false)
    } else if n == "innerboundaryis"@ {
        lines_one_flag(pre, post, 5, false)
    } else if n == "coordinates"@ {
        lines_one_flag(pre, post, 6, false)
    } else if n == "outline"@ {
        lines_one_flag(pre, post, 7, false)
    } else if n == "linestyle"@ {
        lines_one_flag(pre, post, 0, false)
    } else if n == "polygon"@ || n == "linestring"@ {
        &&& lines_flags_eq(pre, post)
        &&& post.polygons@.len() == pre.polygons@.len() + 1
        &&& post.polygons@.last().0@ == pre.style_url@
        &&& post.polygons@.last().1@ == pre.lines@
        &&& post.polygons@.take(pre.polygons@.len() as int) == pre.polygons@
        &&& post.lines@ == Seq::<String>::empty()
        &&& post.style_id@ == pre.style_id@ && post.colour@ == pre.colour@ && post.width@
            == pre.width@ && post.styles_raw@ == pre.styles_raw@ && post.style_url@
            == pre.style_url@ && post.outline == pre.outline
    } else if n == "placemark"@ {
        &&& lines_flags_eq(pre, post)
        &&& post.style_url@ == Seq::<char>::empty()
        &&& post.style_id@ == pre.style_id@ && post.colour@ == pre.colour@ && post.width@
            == pre.width@ && post.styles_raw@ == pre.styles_raw@ && post.outline == pre.outline
            && post.lines@ == pre.lines@ && post.polygons@ == pre.polygons@
    } else {
        lines_flags_eq(pre, post) && lines_data_eq(pre, post)
    }
}

impl LinesState {
    /// A fresh collector.
    pub fn new() -> (r: LinesState)
        ensures
            !r.in_line_style && !r.in_colour && !r.in_width && !r.in_style_url && !r.in_outer
                && !r.in_inner && !r.in_coordinates && !r.in_outline && !r.in_line,
            r.style_id@ == Seq::<char>::empty() && r.colour@ == Seq::<char>::empty() && r.width@
                == Seq::<char>::empty() && r.style_url@ == Seq::<char>::empty(),
            r.outline == '-',
            r.styles_raw@ == Seq::<RawLineStyle>::empty(),
            r.lines@ == Seq::<String>::empty(),
            r.polygons@ == Seq::<RawLines>::empty(),
    {
        LinesState {
            in_line_style: false,
            style_id: String::new(),
            in_colour: false,
            in_width: false,
            colour: String::new(),
            width: String::new(),
            styles_raw: Vec::new(),
            in_style_url: false,
            style_url: String::new(),
            in_outer: false,
            in_inner: false,
            in_coordinates: false,
            in_outline: false,
            outline: '-',
            in_line: false,
            lines: Vec::new(),
            polygons: Vec::new(),
        }
    }

    /// Feed one parser event to the collector.  Fails on a `style`
    /// tag without exactly one attribute and on empty `width` or
    /// `outline` text, the faults the reader treats as fatal.
    pub fn step(&mut self, ev: KmlEvent) -> (r: Result<(), KmlStepError>)
        ensures
            r is Ok ==> match ev {
                KmlEvent::StartElement(name, attrs) => lines_start_ok(
                    *old(self),
                    *final(self),
                    name@,
                    attrs@,
                ),
                KmlEvent::Characters(content) => lines_chars_ok(*old(self), *final(self), content),
                KmlEvent::EndElement(name) => lines_end_ok(*old(self), *final(self), name@),
            },
    {
        match ev {
            KmlEvent::StartElement(name, attrs) => self.lines_start(name, attrs),
            KmlEvent::Characters(content) => self.lines_chars(content),
            KmlEvent::EndElement(name) => {
                self.lines_end(name);
                Ok(())
            },
        }
    }

    /// One opening tag.
    #[verifier::rlimit(100)]
    fn lines_start(&mut self, name: String, attrs: Vec<String>) -> (r: Result<(), KmlStepError>)
        ensures
            r is Ok ==> lines_start_ok(*old(self), *final(self), name@, attrs@),
            r is Err <==> clean_spec(name@, false) == "style"@ && attrs@.len() != 1,
    {
        proof {
            reveal_strlit("style");
            reveal_strlit("linestyle");
            reveal_strlit("color");
            reveal_strlit("width");
            reveal_strlit("styleurl");
            reveal_strlit("outerboundaryis");
            reveal_strlit("innerboundaryis");
            reveal_strlit("linestring");
            reveal_strlit("coordinates");
            reveal_strlit("outline");
        }
        let nname = clean_name(name);
        if string_is(&nname, "style") {
            if attrs.len() != 1 {
                return Err(KmlStepError::StyleAttributes);
            }
            let mut attrs = attrs;
            let mut first = String::new();
            core::mem::swap(&mut first, &mut attrs[0]);
            self.style_id = first;
        } else if string_is(&nname, "linestyle") {
            self.in_line_style = true;
        } else if string_is(&nname, "color") && self.in_line_style {
            self.in_colour = true;
        } else if string_is(&nname, "width") && self.in_line_style {
            self.in_width = true;
        } else if string_is(&nname, "styleurl") {
            self.in_style_url = true;
        } else if string_is(&nname, "outerboundaryis") {
            self.in_outer = true;
        } else if string_is(&nname, "innerboundaryis") {
            self.in_inner = true;
        } else if string_is(&nname, "linestring") {
            self.in_line = true;
        } else if string_is(&nname, "coordinates") {
            self.in_coordinates = true;
        } else if string_is(&nname, "outline") {
            self.in_outline = true;
        }
        Ok(())
    }

    /// Text content.
    fn lines_chars(&mut self, content: String) -> (r: Result<(), KmlStepError>)
        ensures
            r is Ok ==> lines_chars_ok(*old(self), *final(self), content),
            r is Err <==> content@.len() == 0 && !old(self).in_colour && (old(self).in_width || (
            !old(self).in_style_url && !(old(self).in_coordinates && (old(self).in_outer || old(
                self,
            ).in_inner || old(self).in_line)) && old(self).in_outline)),
    {
        if self.in_colour {
            self.colour = content;
        } else if self.in_width {
            if content.as_str().unicode_len() == 0 {
                return Err(KmlStepError::EmptyContent);
            }
            self.width = content;
        } else if self.in_style_url {
            self.style_url = content;
        } else if self.in_coordinates && (self.in_outer || self.in_inner || self.in_line) {
            self.lines.push(content);
        } else if self.in_outline {
            if content.as_str().unicode_len() == 0 {
                return Err(KmlStepError::EmptyContent);
            }
            self.outline = content.as_str().get_char(0);
        }
        Ok(())
    }

    /// One closing tag.
    #[verifier::rlimit(100)]
    fn lines_end(&mut self, name: String)
        ensures
            lines_end_ok(*old(self), *final(self), name@),
    {
        proof {
            reveal_strlit("style");
            reveal_strlit("linestyle");
            reveal_strlit("color");
            reveal_strlit("width");
            reveal_strlit("styleurl");
            reveal_strlit("outerboundaryis");
            reveal_strlit("innerboundaryis");
            reveal_strlit("linestring");
            reveal_strlit("coordinates");
            reveal_strlit("outline");
            reveal_strlit("polygon");
            reveal_strlit("placemark");
        }
        let nname = clean_name(name);
        if string_is(&nname, "style") {
            let mut sid = String::new();
            core::mem::swap(&mut sid, &mut self.style_id);
            let mut col = String::new();
            core::mem::swap(&mut col, &mut self.colour);
            let mut wid = String::new();
            core::mem::swap(&mut wid, &mut self.width);
            let ghost pre_raw = self.styles_raw@;
            self.styles_raw.push((sid, col, wid, self.outline));
            self.outline = '-';
            proof {
                assert(self.styles_raw@.take(pre_raw.len() as int) =~= pre_raw);
            }
        } else if string_is(&nname, "color") {
            self.in_colour = false;
        } else if string_is(&nname, "width") {
            self.in_width = false;
        } else if string_is(&nname, "styleurl") {
            self.in_style_url = false;
        } else if string_is(&nname, "outerboundaryis") {
            self.in_outer = false;
        } else if string_is(&nname, "innerboundaryis") {
            self.in_inner = false;
        } else if string_is(&nname, "coordinates") {
            self.in_coordinates = false;
        } else if string_is(&nname, "outline") {
            self.in_outline = false;
        } else if string_is(&nname, "linestyle") {
            self.in_line_style = false;
        } else if string_is(&nname, "polygon") || string_is(&nname, "linestring") {
            let url = self.style_url.clone();
            let mut ls: Vec<String> = Vec::new();
            core::mem::swap(&mut ls, &mut self.lines);
            let ghost pre_polys = self.polygons@;
            self.polygons.push((url, ls));
            proof {
                assert(self.polygons@.take(pre_polys.len() as int) =~= pre_polys);
            }
        } else if string_is(&nname, "placemark") {
            self.style_url = String::new();
        }
    }
}


/// The palette entry one line style contributes: the width byte and
/// the last three decoded colour bytes.
pub open spec fn line_style_entry(colour: Seq<char>, width: u8) -> (u8, u8, u8, u8) {
    let c = colour_bytes(colour);
    let off = c.len() - 3;
    (width, c[off], c[off + 1], c[off + 2])
}

/// The outcome of registering raw line styles: ids with a `'0'`
/// outline flag go to the skip list instead of the palette; `None`
/// when a new style's colour fails to decode to three bytes.
pub open spec fn spec_register_lines(
    raw: Seq<(Seq<char>, Seq<char>, u8, char)>,
    map0: Seq<(Seq<char>, int)>,
    skip0: Seq<Seq<char>>,
    styles0: Seq<(u8, u8, u8, u8)>,
    counter0: int,
) -> Option<(Seq<(Seq<char>, int)>, Seq<Seq<char>>, Seq<(u8, u8, u8, u8)>, int)>
    decreases raw.len(),
{
    if raw.len() == 0 {
        Some((map0, skip0, styles0, counter0))
    } else {
        let entry = raw.first();
        if has_key(map0, entry.0) {
            spec_register_lines(raw.drop_first(), map0, skip0, styles0, counter0)
        } else if entry.3 == '0' {
            spec_register_lines(raw.drop_first(), map0, skip0.push(entry.0), styles0, counter0)
        } else if !colour_ok(entry.1) {
            None
        } else {
            spec_register_lines(
                raw.drop_first(),
                map0.push((entry.0, counter0)),
                skip0,
                styles0.push(line_style_entry(entry.1, entry.2)),
                counter0 + 1,
            )
        }
    }
}

/// The view of a raw line-style list whose width text the caller has
/// already turned into a byte.
pub open spec fn raw_line_views(raw: Seq<(String, String, u8, char)>) -> Seq<
    (Seq<char>, Seq<char>, u8, char),
> {
    raw.map_values(|e: (String, String, u8, char)| (e.0@, e.1@, e.2, e.3))
}

/// The view of a skip list.
pub open spec fn skip_views(skip: Seq<String>) -> Seq<Seq<char>> {
    skip.map_values(|e: String| e@)
}

/// Register the raw line styles of one document: a style with a `'0'`
/// outline flag is remembered in the skip list and gets no palette
/// slot; every other new id gets the next slot with its width byte
/// and decoded colour.  Fails when a new style's colour does not
/// decode to at least three bytes, as reading the document fatally
/// does.
pub fn register_line_styles(
    raw: Vec<(String, String, u8, char)>,
    colmap: &mut Vec<StyleKey>,
    skipset: &mut Vec<String>,
    styles: &mut Vec<(u8, u8, u8, u8)>,
    counter: &mut usize,
) -> (r: Result<(), HexDecodeError>)
    requires
        *old(counter) + raw@.len() <= usize::MAX,
    ensures
        r is Ok <==> spec_register_lines(
            raw_line_views(raw@),
            map_views(old(colmap)@),
            skip_views(old(skipset)@),
            old(styles)@,
            *old(counter) as int,
        ) is Some,
        r is Ok ==> {
            let out = spec_register_lines(
                raw_line_views(raw@),
                map_views(old(colmap)@),
                skip_views(old(skipset)@),
                old(styles)@,
                *old(counter) as int,
            )->Some_0;
            &&& map_views(final(colmap)@) == out.0
            &&& skip_views(final(skipset)@) == out.1
            &&& final(styles)@ == out.2
            &&& *final(counter) as int == out.3
        },
{
    let ghost raw_v = raw_line_views(raw@);
    let mut work = raw;
    let mut i: usize = 0;
    proof {
        assert(raw_v.skip(0) =~= raw_v);
    }
    while i < work.len()
        invariant
            0 <= i <= raw_v.len(),
            raw_v == raw_line_views(raw@),
            work@.len() == raw_v.len(),
            forall|j: int|
                i <= j < raw_v.len() ==> ((#[trigger] work@[j]).0@, work@[j].1@, work@[j].2,
                work@[j].3) == raw_v[j],
            *counter + (raw_v.len() - i) <= usize::MAX,
            spec_register_lines(
                raw_v,
                map_views(old(colmap)@),
                skip_views(old(skipset)@),
                old(styles)@,
                *old(counter) as int,
            ) == spec_register_lines(
                raw_v.skip(i as int),
                map_views(colmap@),
                skip_views(skipset@),
                styles@,
                *counter as int,
            ),
        decreases raw_v.len() - i,
    {
        let mut entry: (String, String, u8, char) = (String::new(), String::new(), 0, ' ');
        core::mem::swap(&mut entry, &mut work[i]);
        let (id, colourstr, width, outline) = entry;
        proof {
            assert(raw_v.skip(i as int).first() == (id@, colourstr@, width, outline));
            assert(raw_v.skip(i as int).drop_first() =~= raw_v.skip(i + 1));
        }
        let mut seen = false;
        let mut k: usize = 0;
        while k < colmap.len() && !seen
            invariant
                0 <= k <= colmap@.len(),
                !seen ==> forall|j: int| 0 <= j < k ==> (#[trigger] colmap@[j]).0@ != id@,
                seen ==> exists|j: int|
                    0 <= j < colmap@.len() && (#[trigger] colmap@[j]).0@ == id@,
            decreases colmap@.len() - k + (if seen {
                0int
            } else {
                1int
            }),
        {
            if colmap[k].0 == id {
                seen = true;
            }
            if !seen {
                k = k + 1;
            }
        }
        proof {
            if seen {
                let j = choose|j: int| 0 <= j < colmap@.len() && (#[trigger] colmap@[j]).0@ == id@;
                assert(map_views(colmap@)[j].0 == id@);
                assert(has_key(map_views(colmap@), id@));
            } else {
                assert forall|j: int| 0 <= j < map_views(colmap@).len() implies (
                #[trigger] map_views(colmap@)[j]).0 != id@ by {
                    assert(map_views(colmap@)[j].0 == colmap@[j].0@);
                }
                assert(!has_key(map_views(colmap@), id@));
            }
        }
        if !seen {
            if outline == '0' {
                let ghost skip_pre = skip_views(skipset@);
                skipset.push(id);
                proof {
                    assert(skip_views(skipset@) =~= skip_pre.push(raw_v.skip(i as int).first().0));
                }
            } else {
                let cs = colourstr.as_str();
                let cb = cs.as_bytes();
                proof {
                    assert(cb@ == str_bytes(colourstr@));
                }
                let components = match decode_hex(cb) {
                    Ok(c) => c,
                    Err(e) => {
                        proof {
                            assert(!colour_ok(colourstr@));
                            assert(spec_register_lines(
                                raw_v.skip(i as int),
                                map_views(colmap@),
                                skip_views(skipset@),
                                styles@,
                                *counter as int,
                            ) is None);
                        }
                        return Err(e);
                    },
                };
                if components.len() < 3 {
                    proof {
                        assert(!colour_ok(colourstr@));
                        assert(spec_register_lines(
                            raw_v.skip(i as int),
                            map_views(colmap@),
                            skip_views(skipset@),
                            styles@,
                            *counter as int,
                        ) is None);
                    }
                    return Err(HexDecodeError::InvalidStringLength);
                }
                proof {
                    assert(colour_ok(colourstr@));
                    assert(components@ =~= colour_bytes(colourstr@));
                }
                let off = components.len() - 3;
                let red = components[off];
                let green = components[off + 1];
                let blue = components[off + 2];
                let ghost map_pre = map_views(colmap@);
                colmap.push((id, *counter));
                styles.push((width, red, green, blue));
                *counter = *counter + 1;
                proof {
                    assert(map_views(colmap@) =~= map_pre.push(
                        ((raw_v.skip(i as int).first().0), *counter as int - 1),
                    ));
                }
            }
        }
        i = i + 1;
    }
    proof {
        assert(raw_v.skip(raw_v.len() as int) =~= Seq::<(Seq<char>, Seq<char>, u8, char)>::empty());
    }
    Ok(())
}

/// The stripped url sits on the skip list.
pub open spec fn in_skip(skip: Seq<String>, url: Seq<char>) -> bool {
    exists|j: int| 0 <= j < skip.len() && (#[trigger] skip[j])@ == url
}

/// The line placemarks among the first `j` that resolve to a palette
/// slot: skipped styles are dropped silently, blank urls and
/// unregistered styles are dropped with an issue.
pub open spec fn resolved_lines_upto(
    polys: Seq<RawLines>,
    map: Seq<StyleKey>,
    skip: Seq<String>,
    j: int,
) -> Seq<(usize, Vec<String>)>
    decreases j,
{
    if j <= 0 {
        Seq::empty()
    } else {
        let pre = resolved_lines_upto(polys, map, skip, j - 1);
        let e = polys[j - 1];
        let url = strip_hash(e.0@);
        if in_skip(skip, url) {
            pre
        } else if url.len() == 0 {
            pre
        } else {
            match lookup_key(map, url) {
                Some(id) => pre.push((id, e.1)),
                None => pre,
            }
        }
    }
}

/// Blank urls among the first `j` line placemarks, skipped styles not
/// counted.
pub open spec fn empties_lines_upto(polys: Seq<RawLines>, skip: Seq<String>, j: int) -> int
    decreases j,
{
    if j <= 0 {
        0
    } else {
        empties_lines_upto(polys, skip, j - 1) + (if !in_skip(skip, strip_hash(polys[j - 1].0@))
            && strip_hash(polys[j - 1].0@).len() == 0 {
            1int
        } else {
            0int
        })
    }
}

/// Unregistered styles among the first `j` line placemarks.
pub open spec fn missing_lines_upto(
    polys: Seq<RawLines>,
    map: Seq<StyleKey>,
    skip: Seq<String>,
    j: int,
) -> int
    decreases j,
{
    if j <= 0 {
        0
    } else {
        missing_lines_upto(polys, map, skip, j - 1) + (if !in_skip(
            skip,
            strip_hash(polys[j - 1].0@),
        ) && strip_hash(polys[j - 1].0@).len() != 0 && lookup_key(
            map,
            strip_hash(polys[j - 1].0@),
        ) is None {
            1int
        } else {
            0int
        })
    }
}

/// The counters are never negative.
proof fn lemma_line_counts_nonneg(
    polys: Seq<RawLines>,
    map: Seq<StyleKey>,
    skip: Seq<String>,
    j: int,
)
    ensures
        empties_lines_upto(polys, skip, j) >= 0,
        missing_lines_upto(polys, map, skip, j) >= 0,
    decreases j,
{
    if j > 0 {
        lemma_line_counts_nonneg(polys, map, skip, j - 1);
    }
}

/// Resolve each line placemark's style-url: drop those whose style
/// sits on the skip list, log an `EmptyStyleId` for a blank stripped
/// url and a `MissingStyleId` for an unregistered one, and keep the
/// rest with their palette slot.
pub fn resolve_line_polygons(
    polygons: Vec<RawLines>,
    colmap: &Vec<StyleKey>,
    skipset: &Vec<String>,
    logger: &mut Logger,
) -> (r: Vec<(usize, Vec<String>)>)
    ensures
        r@ == resolved_lines_upto(polygons@, colmap@, skipset@, polygons@.len() as int),
        logs_style_issues(
            *old(logger),
            *final(logger),
            empties_lines_upto(polygons@, skipset@, polygons@.len() as int),
            missing_lines_upto(polygons@, colmap@, skipset@, polygons@.len() as int),
        ),
{
    let ghost polys_v = polygons@;
    let mut work = polygons;
    let mut r: Vec<(usize, Vec<String>)> = Vec::new();
    let mut i: usize = 0;
    while i < work.len()
        invariant
            0 <= i <= polys_v.len(),
            polys_v == polygons@,
            work@.len() == polys_v.len(),
            forall|j: int| i <= j < polys_v.len() ==> #[trigger] work@[j] == polys_v[j],
            r@ == resolved_lines_upto(polys_v, colmap@, skipset@, i as int),
            logs_style_issues(
                *old(logger),
                *logger,
                empties_lines_upto(polys_v, skipset@, i as int),
                missing_lines_upto(polys_v, colmap@, skipset@, i as int),
            ),
        decreases polys_v.len() - i,
    {
        let mut entry: RawLines = (String::new(), Vec::new());
        core::mem::swap(&mut entry, &mut work[i]);
        let (sturl, rawlines) = entry;
        proof {
            lemma_line_counts_nonneg(polys_v, colmap@, skipset@, i as int);
        }
        let url = strip_hash_chars(&sturl);
        let mut skipped = false;
        let mut k: usize = 0;
        while k < skipset.len() && !skipped
            invariant
                0 <= k <= skipset@.len(),
                !skipped ==> forall|j: int| 0 <= j < k ==> (#[trigger] skipset@[j])@ != url@,
                skipped ==> exists|j: int|
                    0 <= j < skipset@.len() && (#[trigger] skipset@[j])@ == url@,
            decreases skipset@.len() - k + (if skipped {
                0int
            } else {
                1int
            }),
        {
            if skipset[k].eq(&url) {
                skipped = true;
            }
            if !skipped {
                k = k + 1;
            }
        }
        if !skipped {
            if url.as_str().unicode_len() == 0 {
                logger.log(Issue::EmptyStyleId);
            } else {
                let mut found = false;
                let mut id: usize = 0;
                let mut k2: usize = 0;
                proof {
                    assert(colmap@.skip(0) =~= colmap@);
                }
                while k2 < colmap.len() && !found
                    invariant
                        0 <= k2 <= colmap@.len(),
                        url@ == strip_hash(polys_v[i as int].0@),
                        i < polys_v.len(),
                        !found ==> lookup_key(colmap@.skip(k2 as int), url@) == lookup_key(
                            colmap@,
                            url@,
                        ),
                        found ==> lookup_key(colmap@, url@) == Some(id),
                    decreases colmap@.len() - k2 + (if found {
                        0int
                    } else {
                        1int
                    }),
                {
                    proof {
                        assert(colmap@.skip(k2 as int).first() == colmap@[k2 as int]);
                        assert(colmap@.skip(k2 as int).drop_first() =~= colmap@.skip(k2 + 1));
                    }
                    if colmap[k2].0 == url {
                        id = colmap[k2].1;
                        found = true;
                    }
                    if !found {
                        k2 = k2 + 1;
                    }
                }
                proof {
                    if !found {
                        assert(colmap@.skip(colmap@.len() as int) =~= Seq::<StyleKey>::empty());
                    }
                }
                if found {
                    r.push((id, rawlines));
                } else {
                    logger.log(Issue::MissingStyleId);
                }
            }
        }
        i = i + 1;
    }
    r
}


/// Tracks whether a given child tag has occurred inside every
/// occurrence of a given parent tag so far.
pub struct TagChildState {
    pub inside: bool,
    pub seen: bool,
    pub violated: bool,
}

/// How one event moves the parent-child probe: entering the parent
/// arms the check, the child inside it satisfies the check, and a
/// parent that closes unsatisfied marks the violation for good.
pub open spec fn tag_child_step_ok(
    pre: TagChildState,
    post: TagChildState,
    parent: Seq<char>,
    child: Seq<char>,
    ev: KmlEvent,
) -> bool {
    match ev {
        KmlEvent::StartElement(name, _attrs) => {
            let n = clean_spec(name@, false);
            if n == parent {
                post.inside == true && post.seen == false && post.violated == pre.violated
            } else if n == child && pre.inside {
                post.seen == true && post.inside == pre.inside && post.violated == pre.violated
            } else {
                post == pre
            }
        },
        KmlEvent::Characters(_content) => post == pre,
        KmlEvent::EndElement(name) => {
            let n = clean_spec(name@, false);
            if n == parent {
                &&& pre.inside
                &&& post.inside == false
                &&& post.seen == false
                &&& post.violated == (pre.violated || !pre.seen)
            } else {
                post == pre
            }
        },
    }
}

impl TagChildState {
    /// A fresh probe.
    pub fn new() -> (r: TagChildState)
        ensures
            r.inside == false && r.seen == false && r.violated == false,
    {
        TagChildState { inside: false, seen: false, violated: false }
    }

    /// Feed one parser event.  Fails when the parent tag closes
    /// without having opened, the fault the probe treats as fatal.
    pub fn step(&mut self, parent: &String, child: &String, ev: KmlEvent) -> (r: Result<
        (),
        KmlStepError,
    >)
        ensures
            r is Ok ==> tag_child_step_ok(*old(self), *final(self), parent@, child@, ev),
            r is Err <==> (ev matches KmlEvent::EndElement(name) && clean_spec(name@, false)
                == parent@ && !old(self).inside),
    {
        match ev {
            KmlEvent::StartElement(name, _attrs) => {
                let nname = clean_name(name);
                if nname.eq(parent) {
                    self.inside = true;
                    self.seen = false;
                } else if nname.eq(child) && self.inside {
                    self.seen = true;
                }
                Ok(())
            },
            KmlEvent::Characters(_content) => Ok(()),
            KmlEvent::EndElement(name) => {
                let nname = clean_name(name);
                if nname.eq(parent) {
                    if !self.inside {
                        return Err(KmlStepError::StyleAttributes);
                    }
                    if !self.seen {
                        self.violated = true;
                    }
                    self.inside = false;
                    self.seen = false;
                }
                Ok(())
            },
        }
    }
}

/// Tracks whether every occurrence of a given tag so far carried
/// nonempty text.
pub struct NonemptyTagState {
    pub in_tag: bool,
    pub text: String,
    pub violated: bool,
}

/// How one event moves the nonempty-text probe: the tag's text is
/// remembered, and a tag that closes with empty text marks the
/// violation for good.
pub open spec fn nonempty_tag_step_ok(
    pre: NonemptyTagState,
    post: NonemptyTagState,
    tag: Seq<char>,
    ev: KmlEvent,
) -> bool {
    match ev {
        KmlEvent::StartElement(name, _attrs) => {
            if clean_spec(name@, false) == tag {
                post.in_tag == true && post.text@ == pre.text@ && post.violated == pre.violated
            } else {
                post.in_tag == pre.in_tag && post.text@ == pre.text@ && post.violated
                    == pre.violated
            }
        },
        KmlEvent::Characters(content) => {
            if pre.in_tag {
                post.in_tag == pre.in_tag && post.text@ == content@ && post.violated
                    == pre.violated
            } else {
                post.in_tag == pre.in_tag && post.text@ == pre.text@ && post.violated
                    == pre.violated
            }
        },
        KmlEvent::EndElement(name) => {
            if clean_spec(name@, false) == tag {
                &&& post.violated == (pre.violated || pre.text@.len() == 0)
                &&& post.in_tag == false
                &&& post.text@ == Seq::<char>::empty()
            } else {
                post.in_tag == pre.in_tag && post.text@ == pre.text@ && post.violated
                    == pre.violated
            }
        },
    }
}

impl NonemptyTagState {
    /// A fresh probe.
    pub fn new() -> (r: NonemptyTagState)
        ensures
            r.in_tag == false && r.text@ == Seq::<char>::empty() && r.violated == false,
    {
        NonemptyTagState { in_tag: false, text: String::new(), violated: false }
    }

    /// Feed one parser event.
    pub fn step(&mut self, tag: &String, ev: KmlEvent)
        ensures
            nonempty_tag_step_ok(*old(self), *final(self), tag@, ev),
    {
        match ev {
            KmlEvent::StartElement(name, _attrs) => {
                let nname = clean_name(name);
                if nname.eq(tag) {
                    self.in_tag = true;
                }
            },
            KmlEvent::Characters(content) => {
                if self.in_tag {
                    self.text = content;
                }
            },
            KmlEvent::EndElement(name) => {
                let nname = clean_name(name);
                if nname.eq(tag) {
                    if self.text.as_str().unicode_len() == 0 {
                        self.violated = true;
                    }
                    self.in_tag = false;
                    self.text = String::new();
                }
            },
        }
    }
}

} // verus!
