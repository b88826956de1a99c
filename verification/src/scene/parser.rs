//! The scene description: an XML text with one `camera`, one
//! `ambiant_light`, and any number of `point_light` and `sphere` elements.
use vstd::prelude::*;
use vstd::string::StringSliceAdditionalSpecFns;
use quick_xml::events::attributes::AttrError;
use quick_xml::events::{BytesStart, Event};
use quick_xml::reader::Reader;
use crate::coord::Vec3d;
use crate::error::{GeometryError, ParseError};
use crate::scalar::{Scalar, ONE_BITS};
use crate::scalar::decimal::parsed;
use crate::scene::Scene;
use crate::scene::camera::Camera;
use crate::scene::light::{Light, LightType};
use crate::scene::object::Object;
use crate::scene::object::material::{Color, Material};
use crate::scene::object::sphere::Sphere;

verus! {

/// An attribute of an element: its name and its value, as written.
#[derive(Debug)]
pub struct XmlAttribute {
    pub key: Vec<u8>,
    pub value: Vec<u8>,
}

/// The opening of an element: its name and its attributes, in the order in
/// which they are written. `sound` is false where an attribute could not be
/// read; the list then holds none.
#[derive(Debug)]
pub struct XmlTag {
    pub name: Vec<u8>,
    pub attributes: Vec<XmlAttribute>,
    pub sound: bool,
}

/// One step through the text: an element begins, an element without
/// content stands, an element of the given name ends, the text ends,
/// something else is passed over, or the text is not well-formed.
#[derive(Debug)]
pub enum XmlEvent {
    Start(XmlTag),
    Empty(XmlTag),
    End(Vec<u8>),
    Eof,
    Other,
    Failed,
}

/// The reader of the `quick_xml` crate.
#[verifier::external_type_specification]
#[verifier::external_body]
#[verifier::reject_recursive_types(R)]
pub struct ExReader<R>(Reader<R>);

/// The opening of an element as the `quick_xml` crate hands it out.
#[verifier::external_type_specification]
#[verifier::external_body]
pub struct ExBytesStart<'a>(BytesStart<'a>);

/// The events that the reader of the `quick_xml` crate, with `trim_text`
/// switched on, finds in a text, from its start up to the first that is
/// the end of the text or a failure, that one included.
pub uninterp spec fn events_of(text: Seq<char>) -> Seq<XmlEvent>;

/// The events that a reader has yet to give, up to the first that is the
/// end of the text or a failure, that one included.
pub uninterp spec fn pending(reader: Reader<&[u8]>) -> Seq<XmlEvent>;

/// Whether an event is the last that a reader gives: the end of the text,
/// or a failure.
pub open spec fn closes(event: XmlEvent) -> bool {
    event is Eof || event is Failed
}

/// Whether the events end with the one, and only one, that closes them.
pub open spec fn closed(events: Seq<XmlEvent>) -> bool {
    events.len() > 0 && closes(events[events.len() - 1]) && forall|i: int|
        0 <= i < events.len() - 1 ==> !closes(#[trigger] events[i])
}

/// `Reader::from_str`, with `trim_text` switched on: a reader at the start
/// of `content`. What it has yet to give are the events of the text, by
/// the names that stand for both; the reader works through a text of
/// finite length, so that they end with the end of the text or with a
/// failure.
#[verifier::external_body]
fn open_reader<'a>(content: &'a str) -> (r: Reader<&'a [u8]>)
    ensures
        pending(r) == events_of(content@),
        closed(pending(r)),
{
    let mut reader = Reader::from_str(content);
    reader.config_mut().trim_text(true);
    reader
}

/// `BytesStart::name` and `BytesStart::attributes`: the name of the element
/// and its attributes, each with its key and its raw value, or none and
/// `sound` false where reading one of them fails. Nothing is claimed of
/// what they hold.
#[verifier::external_body]
fn tag_of(e: &BytesStart) -> (r: XmlTag) {
    let read: Result<Vec<XmlAttribute>, AttrError> = e.attributes().map(
        |a| a.map(|a| XmlAttribute { key: a.key.as_ref().to_vec(), value: a.value.to_vec() }),
    ).collect();
    XmlTag { name: e.name().as_ref().to_vec(), sound: read.is_ok(), attributes: read.unwrap_or_default() }
}

/// `Reader::read_event_into`: the next event of the text, with what it
/// holds copied out. It is the first of those that the reader had yet to
/// give, by the name that stands for them, and the reader has the others
/// yet to give.
#[verifier::external_body]
fn next_event(reader: &mut Reader<&[u8]>) -> (r: XmlEvent)
    ensures
        pending(*old(reader)).len() > 0 ==> r == pending(*old(reader))[0] && pending(*final(reader))
            == pending(*old(reader)).skip(1),
{
    let mut buf = Vec::new();
    match reader.read_event_into(&mut buf) {
        Ok(Event::Start(e)) => XmlEvent::Start(tag_of(&e)),
        Ok(Event::Empty(e)) => XmlEvent::Empty(tag_of(&e)),
        Ok(Event::End(e)) => XmlEvent::End(e.name().as_ref().to_vec()),
        Ok(Event::Eof) => XmlEvent::Eof,
        Ok(_) => XmlEvent::Other,
        Err(_) => XmlEvent::Failed,
    }
}

/// Whether `name` is the word `word`.
pub open spec fn named(name: Seq<u8>, word: &str) -> bool {
    name == word.spec_bytes()
}

fn is_named(name: &Vec<u8>, word: &str) -> (r: bool)
    ensures
        r == named(name@, word),
{
    let bytes: &[u8] = word.as_bytes();
    if name.len() != bytes.len() {
        return false;
    }
    let mut k: usize = 0;
    while k < name.len()
        invariant
            0 <= k <= name@.len(),
            name@.len() == bytes@.len(),
            bytes@ == word.spec_bytes(),
            forall|i: int| 0 <= i < k ==> name@[i] == bytes@[i],
        decreases name@.len() - k,
    {
        if name[k] != bytes[k] {
            return false;
        }
        k = k + 1;
    }
    proof {
        assert(name@ =~= bytes@);
    }
    true
}

/// Three numbers.
pub struct Triple {
    pub first: Scalar,
    pub second: Scalar,
    pub third: Scalar,
}

/// The three numbers after one more attribute: the attribute named `a`,
/// `b` or `c` sets the first, second or third to its value, and fails where
/// that is no number; any other attribute changes nothing.
pub open spec fn triple_step(so_far: Triple, attribute: XmlAttribute, a: &str, b: &str, c: &str) -> Result<
    Triple,
    ParseError,
> {
    if named(attribute.key@, a) {
        match parsed(attribute.value@) {
            Some(v) => Ok(Triple { first: v, second: so_far.second, third: so_far.third }),
            None => Err(ParseError::Number),
        }
    } else if named(attribute.key@, b) {
        match parsed(attribute.value@) {
            Some(v) => Ok(Triple { first: so_far.first, second: v, third: so_far.third }),
            None => Err(ParseError::Number),
        }
    } else if named(attribute.key@, c) {
        match parsed(attribute.value@) {
            Some(v) => Ok(Triple { first: so_far.first, second: so_far.second, third: v }),
            None => Err(ParseError::Number),
        }
    } else {
        Ok(so_far)
    }
}

/// The three numbers that the first `n` attributes give, each zero where
/// none of them sets it.
pub open spec fn triple_upto(attributes: Seq<XmlAttribute>, n: nat, a: &str, b: &str, c: &str) -> Result<
    Triple,
    ParseError,
>
    decreases n,
{
    if n == 0 {
        Ok(Triple { first: Scalar { bits: 0 }, second: Scalar { bits: 0 }, third: Scalar { bits: 0 } })
    } else {
        match triple_upto(attributes, (n - 1) as nat, a, b, c) {
            Ok(so_far) => triple_step(so_far, attributes[n - 1], a, b, c),
            Err(e) => Err(e),
        }
    }
}

/// The three numbers that the attributes `a`, `b` and `c` of the element
/// give. It fails where an attribute of the element cannot be read, and
/// where one of the three is no number.
pub open spec fn triple_of(tag: &XmlTag, a: &str, b: &str, c: &str) -> Result<Triple, ParseError> {
    if !tag.sound {
        Err(ParseError::Attribute)
    } else {
        triple_upto(tag.attributes@, tag.attributes@.len(), a, b, c)
    }
}

fn read_triple(tag: &XmlTag, a: &str, b: &str, c: &str) -> (r: Result<Triple, ParseError>)
    ensures
        r == triple_of(tag, a, b, c),
{
    if !tag.sound {
        return Err(ParseError::Attribute);
    }
    let mut so_far: Triple = Triple {
        first: Scalar { bits: 0 },
        second: Scalar { bits: 0 },
        third: Scalar { bits: 0 },
    };
    let mut k: usize = 0;
    while k < tag.attributes.len()
        invariant
            tag.sound,
            0 <= k <= tag.attributes@.len(),
            triple_upto(tag.attributes@, k as nat, a, b, c) == Ok::<Triple, ParseError>(so_far),
        decreases tag.attributes@.len() - k,
    {
        let attribute: &XmlAttribute = &tag.attributes[k];
        let first: bool = is_named(&attribute.key, a);
        let second: bool = is_named(&attribute.key, b);
        let third: bool = is_named(&attribute.key, c);
        if first || second || third {
            match Scalar::parse(&attribute.value) {
                Some(v) => {
                    if first {
                        so_far = Triple { first: v, second: so_far.second, third: so_far.third };
                    } else if second {
                        so_far = Triple { first: so_far.first, second: v, third: so_far.third };
                    } else {
                        so_far = Triple { first: so_far.first, second: so_far.second, third: v };
                    }
                },
                None => {
                    proof {
                        assert(triple_upto(tag.attributes@, (k + 1) as nat, a, b, c) == triple_step(
                            so_far,
                            tag.attributes@[k as int],
                            a,
                            b,
                            c,
                        ));
                        lemma_triple_fails(tag.attributes@, k as nat, tag.attributes@.len(), a, b, c);
                    }
                    return Err(ParseError::Number);
                },
            }
        }
        k = k + 1;
    }
    Ok(so_far)
}

/// Once the attributes fail, more of them fail the same way.
proof fn lemma_triple_fails(attributes: Seq<XmlAttribute>, k: nat, n: nat, a: &str, b: &str, c: &str)
    requires
        k < n <= attributes.len(),
        triple_upto(attributes, k + 1, a, b, c).is_err(),
    ensures
        triple_upto(attributes, n, a, b, c) == triple_upto(attributes, k + 1, a, b, c),
    decreases n,
{
    if n > k + 1 {
        lemma_triple_fails(attributes, k, (n - 1) as nat, a, b, c);
    }
}

/// The point or direction that the attributes `x`, `y` and `z` of the
/// element give.
pub open spec fn vec3d_of(tag: &XmlTag) -> Result<Vec3d, ParseError> {
    match triple_of(tag, "x", "y", "z") {
        Ok(t) => Ok(Vec3d { x: t.first, y: t.second, z: t.third }),
        Err(e) => Err(e),
    }
}

/// Reads a point or a direction from the attributes `x`, `y` and `z` of an
/// element; one that is not written is zero.
pub fn read_vec3d(tag: &XmlTag) -> (r: Result<Vec3d, ParseError>)
    ensures
        r == vec3d_of(tag),
{
    match read_triple(tag, "x", "y", "z") {
        Ok(t) => Ok(Vec3d { x: t.first, y: t.second, z: t.third }),
        Err(e) => Err(e),
    }
}

/// A channel held to `[0, 1]`: what is below 0 becomes 0 and what is above
/// 1 becomes 1.
pub open spec fn clamped(v: Scalar) -> Scalar {
    if v.less(Scalar { bits: 0 }) {
        Scalar { bits: 0 }
    } else if v.greater(Scalar { bits: ONE_BITS }) {
        Scalar { bits: ONE_BITS }
    } else {
        v
    }
}

fn clamp(v: Scalar) -> (r: Scalar)
    ensures
        r == clamped(v),
{
    if v.less(Scalar { bits: 0 }) {
        Scalar { bits: 0 }
    } else if v.greater(Scalar { bits: ONE_BITS }) {
        Scalar { bits: ONE_BITS }
    } else {
        v
    }
}

/// Whether a channel lies in `[0, 1]`.
pub open spec fn in_unit_range(v: Scalar) -> bool {
    v.greater_eq(Scalar { bits: 0 }) && v.less_eq(Scalar { bits: ONE_BITS })
}

/// The color that the attributes `r`, `g` and `b` of the element give, each
/// channel held to `[0, 1]`. A channel that is NaN is refused as no
/// number.
pub open spec fn color_of(tag: &XmlTag) -> Result<Color, ParseError> {
    match triple_of(tag, "r", "g", "b") {
        Ok(t) => if t.first.nan() || t.second.nan() || t.third.nan() {
            Err(ParseError::Number)
        } else {
            Ok(Color { r: clamped(t.first), g: clamped(t.second), b: clamped(t.third) })
        },
        Err(e) => Err(e),
    }
}

/// Reads a color from the attributes `r`, `g` and `b` of an element; a
/// channel that is not written is zero, one that is NaN is refused, and
/// each is held to `[0, 1]`.
pub fn read_color(tag: &XmlTag) -> (r: Result<Color, ParseError>)
    ensures
        r == color_of(tag),
        r matches Ok(c) ==> in_unit_range(c.r) && in_unit_range(c.g) && in_unit_range(c.b),
{
    match read_triple(tag, "r", "g", "b") {
        Ok(t) => {
            if t.first.is_nan() || t.second.is_nan() || t.third.is_nan() {
                Err(ParseError::Number)
            } else {
                Ok(Color { r: clamp(t.first), g: clamp(t.second), b: clamp(t.third) })
            }
        },
        Err(e) => Err(e),
    }
}

/// The number that the first attribute named `name` among those from place
/// `from` on gives.
pub open spec fn property_from(attributes: Seq<XmlAttribute>, from: int, name: &str) -> Option<Scalar>
    decreases attributes.len() - from,
{
    if 0 <= from < attributes.len() {
        if named(attributes[from].key@, name) {
            parsed(attributes[from].value@)
        } else {
            property_from(attributes, from + 1, name)
        }
    } else {
        None
    }
}

/// The number that the attribute `name` of the element gives.
pub open spec fn property_of(tag: &XmlTag, name: &str) -> Option<Scalar> {
    if tag.sound {
        property_from(tag.attributes@, 0, name)
    } else {
        None
    }
}

/// Reads the number that the attribute `name` of an element gives. There
/// is none where the element has no such attribute, where its value is no
/// number, and where an attribute of the element cannot be read.
pub fn read_property(tag: &XmlTag, name: &str) -> (r: Option<Scalar>)
    ensures
        r == property_of(tag, name),
{
    if !tag.sound {
        return None;
    }
    let mut k: usize = 0;
    while k < tag.attributes.len()
        invariant
            tag.sound,
            0 <= k <= tag.attributes@.len(),
            property_from(tag.attributes@, 0, name) == property_from(tag.attributes@, k as int, name),
        decreases tag.attributes@.len() - k,
    {
        if is_named(&tag.attributes[k].key, name) {
            assert(property_from(tag.attributes@, k as int, name) == parsed(
                tag.attributes@[k as int].value@,
            ));
            return Scalar::parse(&tag.attributes[k].value);
        }
        k = k + 1;
    }
    None
}

/// The number that the attribute `name` of the element must give.
pub open spec fn required_of(tag: &XmlTag, name: &str) -> Result<Scalar, ParseError> {
    match property_of(tag, name) {
        Some(v) => Ok(v),
        None => Err(ParseError::Number),
    }
}

fn read_required(tag: &XmlTag, name: &str) -> (r: Result<Scalar, ParseError>)
    ensures
        r == required_of(tag, name),
{
    match read_property(tag, name) {
        Some(v) => Ok(v),
        None => Err(ParseError::Number),
    }
}

/// A result with its place as a machine integer.
pub open spec fn placed<T>(r: Result<(T, int), ParseError>) -> Result<(T, usize), ParseError> {
    match r {
        Ok(found) => Ok((found.0, found.1 as usize)),
        Err(e) => Err(e),
    }
}

/// The camera that stands at `pos` and looks along `dir`, once its element
/// has ended before place `next`. It is refused where either is missing or
/// holds a NaN, and where the camera is degenerate.
pub open spec fn camera_built(pos: Option<Vec3d>, dir: Option<Vec3d>, next: int) -> Result<
    (Camera, int),
    ParseError,
> {
    match (pos, dir) {
        (None, _) => Err(ParseError::MissingPosition),
        (Some(_), None) => Err(ParseError::MissingDirection),
        (Some(p), Some(d)) => if p.has_nan() || d.has_nan() {
            Err(ParseError::Geometry(GeometryError::NotANumber))
        } else {
            match Camera::built(p, d, None, None, None) {
                Some(c) => Ok((c, next)),
                None => Err(ParseError::Geometry(GeometryError::Degenerate)),
            }
        },
    }
}

/// What the events from place `at` on make of a camera of which `pos` and
/// `dir` have been read so far: the camera, and the place behind the end
/// of its element. An empty `pos` or `dir` element sets the one or the
/// other, and any other empty element is passed over. The element must
/// end before the text does, and before any other element begins or ends.
pub open spec fn camera_scan(events: Seq<XmlEvent>, at: int, pos: Option<Vec3d>, dir: Option<Vec3d>) -> Result<
    (Camera, int),
    ParseError,
>
    decreases events.len() - at,
{
    if at < 0 || at >= events.len() {
        Err(ParseError::UnexpectedEof)
    } else {
        match events[at] {
            XmlEvent::Failed => Err(ParseError::Syntax),
            XmlEvent::Eof => Err(ParseError::UnexpectedEof),
            XmlEvent::Start(_) => Err(ParseError::UnexpectedStart),
            XmlEvent::End(name) => if named(name@, "camera") {
                camera_built(pos, dir, at + 1)
            } else {
                Err(ParseError::UnexpectedEnd)
            },
            XmlEvent::Empty(tag) => if named(tag.name@, "pos") {
                match vec3d_of(&tag) {
                    Ok(v) => camera_scan(events, at + 1, Some(v), dir),
                    Err(e) => Err(e),
                }
            } else if named(tag.name@, "dir") {
                match vec3d_of(&tag) {
                    Ok(v) => camera_scan(events, at + 1, pos, Some(v)),
                    Err(e) => Err(e),
                }
            } else {
                camera_scan(events, at + 1, pos, dir)
            },
            XmlEvent::Other => camera_scan(events, at + 1, pos, dir),
        }
    }
}

/// Reads a camera from the events behind the beginning of its element:
/// its position from an empty `pos` element and its direction from an
/// empty `dir` element, up to the end of the `camera` element. It gives
/// the camera and the place of the event behind that end.
pub fn read_camera(events: &Vec<XmlEvent>, from: usize) -> (r: Result<(Camera, usize), ParseError>)
    ensures
        r == placed(camera_scan(events@, from as int, None, None)),
        r matches Ok(found) ==> from < found.1 <= events@.len(),
{
    let mut pos: Option<Vec3d> = None;
    let mut dir: Option<Vec3d> = None;
    if from > events.len() {
        return Err(ParseError::UnexpectedEof);
    }
    let mut at: usize = from;
    while at < events.len()
        invariant
            from <= at <= events@.len(),
            camera_scan(events@, at as int, pos, dir) == camera_scan(events@, from as int, None, None),
        decreases events@.len() - at,
    {
        match &events[at] {
            XmlEvent::Failed => {
                return Err(ParseError::Syntax);
            },
            XmlEvent::Eof => {
                return Err(ParseError::UnexpectedEof);
            },
            XmlEvent::Start(_) => {
                return Err(ParseError::UnexpectedStart);
            },
            XmlEvent::End(name) => {
                if !is_named(name, "camera") {
                    return Err(ParseError::UnexpectedEnd);
                }
                return match (pos, dir) {
                    (None, _) => Err(ParseError::MissingPosition),
                    (Some(_), None) => Err(ParseError::MissingDirection),
                    (Some(p), Some(d)) => {
                        if p.has_nan() || d.has_nan() {
                            Err(ParseError::Geometry(GeometryError::NotANumber))
                        } else {
                            match Camera::new(p, d, None, None, None) {
                                Ok(c) => Ok((c, at + 1)),
                                Err(_) => Err(ParseError::Geometry(GeometryError::Degenerate)),
                            }
                        }
                    },
                };
            },
            XmlEvent::Empty(tag) => {
                if is_named(&tag.name, "pos") {
                    match read_vec3d(tag) {
                        Ok(v) => {
                            pos = Some(v);
                        },
                        Err(e) => {
                            return Err(e);
                        },
                    }
                } else if is_named(&tag.name, "dir") {
                    match read_vec3d(tag) {
                        Ok(v) => {
                            dir = Some(v);
                        },
                        Err(e) => {
                            return Err(e);
                        },
                    }
                }
            },
            XmlEvent::Other => {},
        }
        at = at + 1;
    }
    Err(ParseError::UnexpectedEof)
}

/// The light of the given color and intensity, at `pos` or everywhere,
/// once its element has ended before place `next`. It is refused where
/// the color is missing, and a point light where its position is missing
/// or holds a NaN.
pub open spec fn light_built(
    color: Option<Color>,
    intensity: Scalar,
    pos: Option<Option<Vec3d>>,
    next: int,
) -> Result<(Light, int), ParseError> {
    match (color, pos) {
        (None, _) => Err(ParseError::MissingColor),
        (Some(c), None) => Ok((Light { color: c, intensity, light_type: LightType::AmbiantLight }, next)),
        (Some(_), Some(None)) => Err(ParseError::MissingPosition),
        (Some(c), Some(Some(p))) => if p.has_nan() {
            Err(ParseError::Geometry(GeometryError::NotANumber))
        } else {
            Ok((Light { color: c, intensity, light_type: LightType::PointLight { pos: p } }, next))
        },
    }
}

/// What the events from place `at` on make of a light of which `color`,
/// `intensity` and, for a point light, `pos` have been read so far. An
/// empty `color` element sets the color, an empty `intensity` element the
/// intensity, from its attribute `i`, and in a point light an empty `pos`
/// element the position; any other empty element is passed over. The
/// element must end before the text does, and before any other element
/// ends or begins; only the ambient light may begin once more.
pub open spec fn light_scan(
    events: Seq<XmlEvent>,
    at: int,
    point: bool,
    color: Option<Color>,
    intensity: Scalar,
    pos: Option<Vec3d>,
) -> Result<(Light, int), ParseError>
    decreases events.len() - at,
{
    if at < 0 || at >= events.len() {
        Err(ParseError::UnexpectedEof)
    } else {
        match events[at] {
            XmlEvent::Failed => Err(ParseError::Syntax),
            XmlEvent::Eof => Err(ParseError::UnexpectedEof),
            XmlEvent::Start(tag) => if !point && named(tag.name@, "ambiant_light") {
                light_scan(events, at + 1, point, color, intensity, pos)
            } else {
                Err(ParseError::UnexpectedStart)
            },
            XmlEvent::End(name) => if point && named(name@, "point_light") {
                light_built(color, intensity, Some(pos), at + 1)
            } else if !point && named(name@, "ambiant_light") {
                light_built(color, intensity, None, at + 1)
            } else {
                Err(ParseError::UnexpectedEnd)
            },
            XmlEvent::Empty(tag) => if named(tag.name@, "color") {
                match color_of(&tag) {
                    Ok(c) => light_scan(events, at + 1, point, Some(c), intensity, pos),
                    Err(e) => Err(e),
                }
            } else if named(tag.name@, "intensity") {
                match required_of(&tag, "i") {
                    Ok(v) => light_scan(events, at + 1, point, color, v, pos),
                    Err(e) => Err(e),
                }
            } else if point && named(tag.name@, "pos") {
                match vec3d_of(&tag) {
                    Ok(v) => light_scan(events, at + 1, point, color, intensity, Some(v)),
                    Err(e) => Err(e),
                }
            } else {
                light_scan(events, at + 1, point, color, intensity, pos)
            },
            XmlEvent::Other => light_scan(events, at + 1, point, color, intensity, pos),
        }
    }
}

fn read_light(events: &Vec<XmlEvent>, from: usize, point: bool) -> (r: Result<(Light, usize), ParseError>)
    ensures
        r == placed(light_scan(events@, from as int, point, None, Scalar { bits: 0 }, None)),
        r matches Ok(found) ==> from < found.1 <= events@.len(),
{
    let mut color: Option<Color> = None;
    let mut intensity: Scalar = Scalar { bits: 0 };
    let mut pos: Option<Vec3d> = None;
    if from > events.len() {
        return Err(ParseError::UnexpectedEof);
    }
    let mut at: usize = from;
    while at < events.len()
        invariant
            from <= at <= events@.len(),
            light_scan(events@, at as int, point, color, intensity, pos) == light_scan(
                events@,
                from as int,
                point,
                None,
                Scalar { bits: 0 },
                None,
            ),
        decreases events@.len() - at,
    {
        match &events[at] {
            XmlEvent::Failed => {
                return Err(ParseError::Syntax);
            },
            XmlEvent::Eof => {
                return Err(ParseError::UnexpectedEof);
            },
            XmlEvent::Start(tag) => {
                if point || !is_named(&tag.name, "ambiant_light") {
                    return Err(ParseError::UnexpectedStart);
                }
            },
            XmlEvent::End(name) => {
                let ends: bool = if point {
                    is_named(name, "point_light")
                } else {
                    is_named(name, "ambiant_light")
                };
                if !ends {
                    return Err(ParseError::UnexpectedEnd);
                }
                return match color {
                    None => Err(ParseError::MissingColor),
                    Some(c) => {
                        if !point {
                            Ok((Light { color: c, intensity, light_type: LightType::AmbiantLight }, at + 1))
                        } else {
                            match pos {
                                None => Err(ParseError::MissingPosition),
                                Some(p) => {
                                    if p.has_nan() {
                                        Err(ParseError::Geometry(GeometryError::NotANumber))
                                    } else {
                                        Ok(
                                            (
                                                Light {
                                                    color: c,
                                                    intensity,
                                                    light_type: LightType::PointLight { pos: p },
                                                },
                                                at + 1,
                                            ),
                                        )
                                    }
                                },
                            }
                        }
                    },
                };
            },
            XmlEvent::Empty(tag) => {
                if is_named(&tag.name, "color") {
                    match read_color(tag) {
                        Ok(c) => {
                            color = Some(c);
                        },
                        Err(e) => {
                            return Err(e);
                        },
                    }
                } else if is_named(&tag.name, "intensity") {
                    match read_required(tag, "i") {
                        Ok(v) => {
                            intensity = v;
                        },
                        Err(e) => {
                            return Err(e);
                        },
                    }
                } else if point && is_named(&tag.name, "pos") {
                    match read_vec3d(tag) {
                        Ok(v) => {
                            pos = Some(v);
                        },
                        Err(e) => {
                            return Err(e);
                        },
                    }
                }
            },
            XmlEvent::Other => {},
        }
        at = at + 1;
    }
    Err(ParseError::UnexpectedEof)
}

/// Reads a point light from the events behind the beginning of its
/// element: its color, its intensity (0 where none is written) and its
/// position, up to the end of the `point_light` element. It gives the
/// light and the place of the event behind that end.
pub fn read_point_light(events: &Vec<XmlEvent>, from: usize) -> (r: Result<(Light, usize), ParseError>)
    ensures
        r == placed(light_scan(events@, from as int, true, None, Scalar { bits: 0 }, None)),
        r matches Ok(found) ==> from < found.1 <= events@.len(),
{
    read_light(events, from, true)
}

/// Reads the ambient light from the events at or behind the beginning of
/// its element: its color and its intensity (0 where none is written), up
/// to the end of the `ambiant_light` element. It gives the light and the
/// place of the event behind that end.
pub fn read_ambiant_light(events: &Vec<XmlEvent>, from: usize) -> (r: Result<(Light, usize), ParseError>)
    ensures
        r == placed(light_scan(events@, from as int, false, None, Scalar { bits: 0 }, None)),
        r matches Ok(found) ==> from < found.1 <= events@.len(),
{
    read_light(events, from, false)
}

/// The material of the given colors, reflectivity and roughness, once its
/// element has ended before place `next`. It is refused where a color is
/// missing, where the reflectivity is not between 0 and 1, and where the
/// roughness is not above 0.
pub open spec fn material_built(
    color: Option<Color>,
    specular: Option<Color>,
    reflectivity: Scalar,
    roughness: Scalar,
    next: int,
) -> Result<(Material, int), ParseError> {
    match (color, specular) {
        (None, _) => Err(ParseError::MissingColor),
        (Some(_), None) => Err(ParseError::MissingSpecular),
        (Some(c), Some(s)) => if reflectivity.greater_eq(Scalar { bits: 0 }) && reflectivity.less_eq(
            Scalar { bits: ONE_BITS },
        ) && roughness.greater(Scalar { bits: 0 }) {
            Ok((Material { diffuse: c, specular: s, reflectivity, roughness }, next))
        } else {
            Err(ParseError::Material)
        },
    }
}

/// What the events from place `at` on make of a material of which the
/// colors, the reflectivity and the roughness have been read so far. An
/// empty `color` or `specular` element sets a color, an empty
/// `reflectivity` or `roughness` element the one or the other, from its
/// attribute `r`; any other empty element is passed over. The element must
/// end before the text does, and before any other element begins or ends.
pub open spec fn material_scan(
    events: Seq<XmlEvent>,
    at: int,
    color: Option<Color>,
    specular: Option<Color>,
    reflectivity: Scalar,
    roughness: Scalar,
) -> Result<(Material, int), ParseError>
    decreases events.len() - at,
{
    if at < 0 || at >= events.len() {
        Err(ParseError::UnexpectedEof)
    } else {
        match events[at] {
            XmlEvent::Failed => Err(ParseError::Syntax),
            XmlEvent::Eof => Err(ParseError::UnexpectedEof),
            XmlEvent::Start(_) => Err(ParseError::UnexpectedStart),
            XmlEvent::End(name) => if named(name@, "material") {
                material_built(color, specular, reflectivity, roughness, at + 1)
            } else {
                Err(ParseError::UnexpectedEnd)
            },
            XmlEvent::Empty(tag) => if named(tag.name@, "color") {
                match color_of(&tag) {
                    Ok(c) => material_scan(
                        events,
                        at + 1,
                        Some(c),
                        specular,
                        reflectivity,
                        roughness,
                    ),
                    Err(e) => Err(e),
                }
            } else if named(tag.name@, "specular") {
                match color_of(&tag) {
                    Ok(c) => material_scan(events, at + 1, color, Some(c), reflectivity, roughness),
                    Err(e) => Err(e),
                }
            } else if named(tag.name@, "reflectivity") {
                match required_of(&tag, "r") {
                    Ok(v) => material_scan(events, at + 1, color, specular, v, roughness),
                    Err(e) => Err(e),
                }
            } else if named(tag.name@, "roughness") {
                match required_of(&tag, "r") {
                    Ok(v) => material_scan(events, at + 1, color, specular, reflectivity, v),
                    Err(e) => Err(e),
                }
            } else {
                material_scan(events, at + 1, color, specular, reflectivity, roughness)
            },
            XmlEvent::Other => material_scan(
                events,
                at + 1,
                color,
                specular,
                reflectivity,
                roughness,
            ),
        }
    }
}

/// Reads a material from the events behind the beginning of its element:
/// its color, its specular color, its reflectivity (0 where none is
/// written) and its roughness (1), up to the end of the `material`
/// element. It gives the material and the place of the event behind that
/// end.
pub fn read_material(events: &Vec<XmlEvent>, from: usize) -> (r: Result<(Material, usize), ParseError>)
    ensures
        r == placed(
            material_scan(events@, from as int, None, None, Scalar { bits: 0 }, Scalar { bits: ONE_BITS }),
        ),
        r matches Ok(found) ==> from < found.1 <= events@.len(),
{
    let mut color: Option<Color> = None;
    let mut specular: Option<Color> = None;
    let mut reflectivity: Scalar = Scalar { bits: 0 };
    let mut roughness: Scalar = Scalar { bits: ONE_BITS };
    if from > events.len() {
        return Err(ParseError::UnexpectedEof);
    }
    let mut at: usize = from;
    while at < events.len()
        invariant
            from <= at <= events@.len(),
            material_scan(events@, at as int, color, specular, reflectivity, roughness) == material_scan(
                events@,
                from as int,
                None,
                None,
                Scalar { bits: 0 },
                Scalar { bits: ONE_BITS },
            ),
        decreases events@.len() - at,
    {
        match &events[at] {
            XmlEvent::Failed => {
                return Err(ParseError::Syntax);
            },
            XmlEvent::Eof => {
                return Err(ParseError::UnexpectedEof);
            },
            XmlEvent::Start(_) => {
                return Err(ParseError::UnexpectedStart);
            },
            XmlEvent::End(name) => {
                if !is_named(name, "material") {
                    return Err(ParseError::UnexpectedEnd);
                }
                return match (color, specular) {
                    (None, _) => Err(ParseError::MissingColor),
                    (Some(_), None) => Err(ParseError::MissingSpecular),
                    (Some(c), Some(s)) => {
                        if reflectivity.greater_eq(Scalar { bits: 0 }) && reflectivity.less_eq(
                            Scalar { bits: ONE_BITS },
                        ) && roughness.greater(Scalar { bits: 0 }) {
                            Ok((Material { diffuse: c, specular: s, reflectivity, roughness }, at + 1))
                        } else {
                            Err(ParseError::Material)
                        }
                    },
                };
            },
            XmlEvent::Empty(tag) => {
                if is_named(&tag.name, "color") {
                    match read_color(tag) {
                        Ok(c) => {
                            color = Some(c);
                        },
                        Err(e) => {
                            return Err(e);
                        },
                    }
                } else if is_named(&tag.name, "specular") {
                    match read_color(tag) {
                        Ok(c) => {
                            specular = Some(c);
                        },
                        Err(e) => {
                            return Err(e);
                        },
                    }
                } else if is_named(&tag.name, "reflectivity") {
                    match read_required(tag, "r") {
                        Ok(v) => {
                            reflectivity = v;
                        },
                        Err(e) => {
                            return Err(e);
                        },
                    }
                } else if is_named(&tag.name, "roughness") {
                    match read_required(tag, "r") {
                        Ok(v) => {
                            roughness = v;
                        },
                        Err(e) => {
                            return Err(e);
                        },
                    }
                }
            },
            XmlEvent::Other => {},
        }
        at = at + 1;
    }
    Err(ParseError::UnexpectedEof)
}

/// A material that is read ends behind the place where its reading began,
/// and within the events.
pub proof fn lemma_material_scan_place(
    events: Seq<XmlEvent>,
    at: int,
    color: Option<Color>,
    specular: Option<Color>,
    reflectivity: Scalar,
    roughness: Scalar,
)
    ensures
        material_scan(events, at, color, specular, reflectivity, roughness) matches Ok(found) ==> at
            < found.1 <= events.len(),
    decreases events.len() - at,
{
    if 0 <= at < events.len() {
        match events[at] {
            XmlEvent::Empty(tag) => {
                if named(tag.name@, "color") {
                    match color_of(&tag) {
                        Ok(c) => lemma_material_scan_place(
                            events,
                            at + 1,
                            Some(c),
                            specular,
                            reflectivity,
                            roughness,
                        ),
                        Err(_) => {},
                    }
                } else if named(tag.name@, "specular") {
                    match color_of(&tag) {
                        Ok(c) => lemma_material_scan_place(
                            events,
                            at + 1,
                            color,
                            Some(c),
                            reflectivity,
                            roughness,
                        ),
                        Err(_) => {},
                    }
                } else if named(tag.name@, "reflectivity") {
                    match required_of(&tag, "r") {
                        Ok(v) => lemma_material_scan_place(events, at + 1, color, specular, v, roughness),
                        Err(_) => {},
                    }
                } else if named(tag.name@, "roughness") {
                    match required_of(&tag, "r") {
                        Ok(v) => lemma_material_scan_place(
                            events,
                            at + 1,
                            color,
                            specular,
                            reflectivity,
                            v,
                        ),
                        Err(_) => {},
                    }
                } else {
                    lemma_material_scan_place(events, at + 1, color, specular, reflectivity, roughness);
                }
            },
            XmlEvent::Other => {
                lemma_material_scan_place(events, at + 1, color, specular, reflectivity, roughness);
            },
            _ => {},
        }
    }
}

/// The sphere at `pos` of the given radius and material, once its element
/// has ended before place `next`. It is refused where the position or the
/// material is missing, where a number is NaN, and where the radius is not
/// above zero.
pub open spec fn sphere_built(pos: Option<Vec3d>, radius: Scalar, material: Option<Material>, next: int) -> Result<
    (Sphere, int),
    ParseError,
> {
    match (pos, material) {
        (None, _) => Err(ParseError::MissingPosition),
        (Some(_), None) => Err(ParseError::MissingMaterial),
        (Some(p), Some(m)) => if p.has_nan() || radius.nan() {
            Err(ParseError::Geometry(GeometryError::NotANumber))
        } else if !radius.greater(Scalar { bits: 0 }) {
            Err(ParseError::Geometry(GeometryError::NonPositiveRadius))
        } else {
            Ok((Sphere { center: p, radius, material: m }, next))
        },
    }
}

/// What the events from place `at` on make of a sphere of which the
/// position, the radius and the material have been read so far. An empty
/// `pos` element sets the position, an empty `radius` element the radius,
/// from its attribute `r`, and a `material` element the material; any
/// other empty element is passed over. The element must end before the
/// text does, and before any other element ends or any but a material
/// begins.
pub open spec fn sphere_scan(
    events: Seq<XmlEvent>,
    at: int,
    pos: Option<Vec3d>,
    radius: Scalar,
    material: Option<Material>,
) -> Result<(Sphere, int), ParseError>
    decreases events.len() - at,
{
    if at < 0 || at >= events.len() {
        Err(ParseError::UnexpectedEof)
    } else {
        match events[at] {
            XmlEvent::Failed => Err(ParseError::Syntax),
            XmlEvent::Eof => Err(ParseError::UnexpectedEof),
            XmlEvent::Start(tag) => if named(tag.name@, "material") {
                match material_scan(
                    events,
                    at + 1,
                    None,
                    None,
                    Scalar { bits: 0 },
                    Scalar { bits: ONE_BITS },
                ) {
                    Ok(found) => if at < found.1 <= events.len() {
                        sphere_scan(events, found.1, pos, radius, Some(found.0))
                    } else {
                        Err(ParseError::Syntax)
                    },
                    Err(e) => Err(e),
                }
            } else {
                Err(ParseError::UnexpectedStart)
            },
            XmlEvent::End(name) => if named(name@, "sphere") {
                sphere_built(pos, radius, material, at + 1)
            } else {
                Err(ParseError::UnexpectedEnd)
            },
            XmlEvent::Empty(tag) => if named(tag.name@, "pos") {
                match vec3d_of(&tag) {
                    Ok(v) => sphere_scan(events, at + 1, Some(v), radius, material),
                    Err(e) => Err(e),
                }
            } else if named(tag.name@, "radius") {
                match required_of(&tag, "r") {
                    Ok(v) => sphere_scan(events, at + 1, pos, v, material),
                    Err(e) => Err(e),
                }
            } else {
                sphere_scan(events, at + 1, pos, radius, material)
            },
            XmlEvent::Other => sphere_scan(events, at + 1, pos, radius, material),
        }
    }
}

/// Reads a sphere from the events behind the beginning of its element:
/// its position, its radius and its material, up to the end of the
/// `sphere` element. It gives the sphere and the place of the event behind
/// that end.
#[verifier::rlimit(60)]
pub fn read_sphere(events: &Vec<XmlEvent>, from: usize) -> (r: Result<(Sphere, usize), ParseError>)
    ensures
        r == placed(sphere_scan(events@, from as int, None, Scalar { bits: 0 }, None)),
        r matches Ok(found) ==> from < found.1 <= events@.len(),
{
    let mut pos: Option<Vec3d> = None;
    let mut radius: Scalar = Scalar { bits: 0 };
    let mut material: Option<Material> = None;
    if from > events.len() {
        return Err(ParseError::UnexpectedEof);
    }
    let mut at: usize = from;
    while at < events.len()
        invariant
            from <= at <= events@.len(),
            sphere_scan(events@, at as int, pos, radius, material) == sphere_scan(
                events@,
                from as int,
                None,
                Scalar { bits: 0 },
                None,
            ),
        decreases events@.len() - at,
    {
        match &events[at] {
            XmlEvent::Failed => {
                return Err(ParseError::Syntax);
            },
            XmlEvent::Eof => {
                return Err(ParseError::UnexpectedEof);
            },
            XmlEvent::Start(tag) => {
                if !is_named(&tag.name, "material") {
                    return Err(ParseError::UnexpectedStart);
                }
                match read_material(events, at + 1) {
                    Ok(found) => {
                        proof {
                            lemma_material_scan_place(
                                events@,
                                at + 1,
                                None,
                                None,
                                Scalar { bits: 0 },
                                Scalar { bits: ONE_BITS },
                            );
                        }
                        assert(sphere_scan(events@, at as int, pos, radius, material) == sphere_scan(
                            events@,
                            found.1 as int,
                            pos,
                            radius,
                            Some(found.0),
                        ));
                        material = Some(found.0);
                        at = found.1;
                    },
                    Err(e) => {
                        return Err(e);
                    },
                }
                continue ;
            },
            XmlEvent::End(name) => {
                if !is_named(name, "sphere") {
                    return Err(ParseError::UnexpectedEnd);
                }
                return match (pos, material) {
                    (None, _) => Err(ParseError::MissingPosition),
                    (Some(_), None) => Err(ParseError::MissingMaterial),
                    (Some(p), Some(m)) => match Sphere::new(p, radius, m) {
                        Ok(s) => Ok((s, at + 1)),
                        Err(e) => Err(ParseError::Geometry(e)),
                    },
                };
            },
            XmlEvent::Empty(tag) => {
                if is_named(&tag.name, "pos") {
                    match read_vec3d(tag) {
                        Ok(v) => {
                            pos = Some(v);
                        },
                        Err(e) => {
                            return Err(e);
                        },
                    }
                } else if is_named(&tag.name, "radius") {
                    match read_required(tag, "r") {
                        Ok(v) => {
                            radius = v;
                        },
                        Err(e) => {
                            return Err(e);
                        },
                    }
                }
            },
            XmlEvent::Other => {},
        }
        at = at + 1;
    }
    Err(ParseError::UnexpectedEof)
}

/// A camera that is read ends behind the place where its reading began,
/// and within the events.
pub proof fn lemma_camera_scan_place(events: Seq<XmlEvent>, at: int, pos: Option<Vec3d>, dir: Option<Vec3d>)
    ensures
        camera_scan(events, at, pos, dir) matches Ok(found) ==> at < found.1 <= events.len(),
    decreases events.len() - at,
{
    if 0 <= at < events.len() {
        match events[at] {
            XmlEvent::Empty(tag) => {
                if named(tag.name@, "pos") {
                    match vec3d_of(&tag) {
                        Ok(v) => lemma_camera_scan_place(events, at + 1, Some(v), dir),
                        Err(_) => {},
                    }
                } else if named(tag.name@, "dir") {
                    match vec3d_of(&tag) {
                        Ok(v) => lemma_camera_scan_place(events, at + 1, pos, Some(v)),
                        Err(_) => {},
                    }
                } else {
                    lemma_camera_scan_place(events, at + 1, pos, dir);
                }
            },
            XmlEvent::Other => {
                lemma_camera_scan_place(events, at + 1, pos, dir);
            },
            _ => {},
        }
    }
}

/// A light that is read ends behind the place where its reading began, and
/// within the events.
pub proof fn lemma_light_scan_place(
    events: Seq<XmlEvent>,
    at: int,
    point: bool,
    color: Option<Color>,
    intensity: Scalar,
    pos: Option<Vec3d>,
)
    ensures
        light_scan(events, at, point, color, intensity, pos) matches Ok(found) ==> at < found.1
            <= events.len(),
    decreases events.len() - at,
{
    if 0 <= at < events.len() {
        match events[at] {
            XmlEvent::Start(tag) => {
                if !point && named(tag.name@, "ambiant_light") {
                    lemma_light_scan_place(events, at + 1, point, color, intensity, pos);
                }
            },
            XmlEvent::Empty(tag) => {
                if named(tag.name@, "color") {
                    match color_of(&tag) {
                        Ok(c) => lemma_light_scan_place(events, at + 1, point, Some(c), intensity, pos),
                        Err(_) => {},
                    }
                } else if named(tag.name@, "intensity") {
                    match required_of(&tag, "i") {
                        Ok(v) => lemma_light_scan_place(events, at + 1, point, color, v, pos),
                        Err(_) => {},
                    }
                } else if point && named(tag.name@, "pos") {
                    match vec3d_of(&tag) {
                        Ok(v) => lemma_light_scan_place(events, at + 1, point, color, intensity, Some(v)),
                        Err(_) => {},
                    }
                } else {
                    lemma_light_scan_place(events, at + 1, point, color, intensity, pos);
                }
            },
            XmlEvent::Other => {
                lemma_light_scan_place(events, at + 1, point, color, intensity, pos);
            },
            _ => {},
        }
    }
}

/// A sphere that is read ends behind the place where its reading began,
/// and within the events.
pub proof fn lemma_sphere_scan_place(
    events: Seq<XmlEvent>,
    at: int,
    pos: Option<Vec3d>,
    radius: Scalar,
    material: Option<Material>,
)
    ensures
        sphere_scan(events, at, pos, radius, material) matches Ok(found) ==> at < found.1
            <= events.len(),
    decreases events.len() - at,
{
    if 0 <= at < events.len() {
        match events[at] {
            XmlEvent::Start(tag) => {
                if named(tag.name@, "material") {
                    match material_scan(
                        events,
                        at + 1,
                        None,
                        None,
                        Scalar { bits: 0 },
                        Scalar { bits: ONE_BITS },
                    ) {
                        Ok(found) => {
                            if at < found.1 <= events.len() {
                                lemma_sphere_scan_place(events, found.1, pos, radius, Some(found.0));
                            }
                        },
                        Err(_) => {},
                    }
                }
            },
            XmlEvent::Empty(tag) => {
                if named(tag.name@, "pos") {
                    match vec3d_of(&tag) {
                        Ok(v) => lemma_sphere_scan_place(events, at + 1, Some(v), radius, material),
                        Err(_) => {},
                    }
                } else if named(tag.name@, "radius") {
                    match required_of(&tag, "r") {
                        Ok(v) => lemma_sphere_scan_place(events, at + 1, pos, v, material),
                        Err(_) => {},
                    }
                } else {
                    lemma_sphere_scan_place(events, at + 1, pos, radius, material);
                }
            },
            XmlEvent::Other => {
                lemma_sphere_scan_place(events, at + 1, pos, radius, material);
            },
            _ => {},
        }
    }
}

/// The scene of the given parts, once the text has ended. It is refused
/// where the camera or the ambient light is missing.
pub open spec fn scene_built(
    camera: Option<Camera>,
    ambient: Option<Light>,
    lights: Seq<Light>,
    objects: Seq<Object>,
) -> Result<(Camera, Light, Seq<Light>, Seq<Object>), ParseError> {
    match (camera, ambient) {
        (None, _) => Err(ParseError::MissingCamera),
        (Some(_), None) => Err(ParseError::MissingAmbientLight),
        (Some(c), Some(a)) => Ok((c, a, lights, objects)),
    }
}

/// What the events from place `at` on make of a scene of which the given
/// parts have been read so far: its camera, its ambient light, its point
/// lights and its objects. The beginning of a `camera`, `ambiant_light`,
/// `point_light` or `sphere` element has that element read, the last
/// camera and the last ambient light being the ones that count; every
/// other event is passed over, up to the end of the text.
pub open spec fn scene_scan(
    events: Seq<XmlEvent>,
    at: int,
    camera: Option<Camera>,
    ambient: Option<Light>,
    lights: Seq<Light>,
    objects: Seq<Object>,
) -> Result<(Camera, Light, Seq<Light>, Seq<Object>), ParseError>
    decreases events.len() - at,
{
    if at < 0 || at >= events.len() {
        scene_built(camera, ambient, lights, objects)
    } else {
        match events[at] {
            XmlEvent::Failed => Err(ParseError::Syntax),
            XmlEvent::Eof => scene_built(camera, ambient, lights, objects),
            XmlEvent::Start(tag) => if named(tag.name@, "camera") {
                match camera_scan(events, at + 1, None, None) {
                    Ok(found) => if at < found.1 <= events.len() {
                        scene_scan(events, found.1, Some(found.0), ambient, lights, objects)
                    } else {
                        Err(ParseError::Syntax)
                    },
                    Err(e) => Err(e),
                }
            } else if named(tag.name@, "point_light") {
                match light_scan(events, at + 1, true, None, Scalar { bits: 0 }, None) {
                    Ok(found) => if at < found.1 <= events.len() {
                        scene_scan(events, found.1, camera, ambient, lights.push(found.0), objects)
                    } else {
                        Err(ParseError::Syntax)
                    },
                    Err(e) => Err(e),
                }
            } else if named(tag.name@, "ambiant_light") {
                match light_scan(events, at + 1, false, None, Scalar { bits: 0 }, None) {
                    Ok(found) => if at < found.1 <= events.len() {
                        scene_scan(events, found.1, camera, Some(found.0), lights, objects)
                    } else {
                        Err(ParseError::Syntax)
                    },
                    Err(e) => Err(e),
                }
            } else if named(tag.name@, "sphere") {
                match sphere_scan(events, at + 1, None, Scalar { bits: 0 }, None) {
                    Ok(found) => if at < found.1 <= events.len() {
                        scene_scan(
                            events,
                            found.1,
                            camera,
                            ambient,
                            lights,
                            objects.push(Object::Sphere(found.0)),
                        )
                    } else {
                        Err(ParseError::Syntax)
                    },
                    Err(e) => Err(e),
                }
            } else {
                scene_scan(events, at + 1, camera, ambient, lights, objects)
            },
            _ => scene_scan(events, at + 1, camera, ambient, lights, objects),
        }
    }
}

/// The scene that the events describe.
pub open spec fn scene_of(events: Seq<XmlEvent>) -> Result<(Camera, Light, Seq<Light>, Seq<Object>), ParseError> {
    scene_scan(events, 0, None, None, Seq::empty(), Seq::empty())
}

/// Whether `r` is the scene of the parts `wanted`, or the same failure.
pub open spec fn scene_read(
    r: Result<Scene, ParseError>,
    wanted: Result<(Camera, Light, Seq<Light>, Seq<Object>), ParseError>,
) -> bool {
    match wanted {
        Ok(parts) => r matches Ok(scene) && scene.camera == parts.0 && scene.ambiant_light == parts.1
            && scene.lights@ == parts.2 && scene.objects@ == parts.3,
        Err(e) => r matches Err(x) && x == e,
    }
}

/// Builds the scene that the events of a text describe.
#[verifier::rlimit(60)]
pub fn scene_from_events(events: &Vec<XmlEvent>) -> (r: Result<Scene, ParseError>)
    ensures
        scene_read(r, scene_of(events@)),
{
    let mut camera: Option<Camera> = None;
    let mut ambient: Option<Light> = None;
    let mut lights: Vec<Light> = Vec::new();
    let mut objects: Vec<Object> = Vec::new();
    let mut at: usize = 0;
    while at < events.len()
        invariant
            0 <= at <= events@.len(),
            scene_scan(events@, at as int, camera, ambient, lights@, objects@) == scene_of(events@),
        decreases events@.len() - at,
    {
        match &events[at] {
            XmlEvent::Failed => {
                return Err(ParseError::Syntax);
            },
            XmlEvent::Eof => {
                return match (camera, ambient) {
                    (None, _) => Err(ParseError::MissingCamera),
                    (Some(_), None) => Err(ParseError::MissingAmbientLight),
                    (Some(c), Some(a)) => Ok(Scene { camera: c, ambiant_light: a, lights, objects }),
                };
            },
            XmlEvent::Start(tag) => {
                if is_named(&tag.name, "camera") {
                    proof {
                        lemma_camera_scan_place(events@, at + 1, None, None);
                    }
                    match read_camera(events, at + 1) {
                        Ok(found) => {
                            camera = Some(found.0);
                            at = found.1;
                        },
                        Err(e) => {
                            return Err(e);
                        },
                    }
                    continue ;
                } else if is_named(&tag.name, "point_light") {
                    proof {
                        lemma_light_scan_place(events@, at + 1, true, None, Scalar { bits: 0 }, None);
                    }
                    match read_point_light(events, at + 1) {
                        Ok(found) => {
                            lights.push(found.0);
                            at = found.1;
                        },
                        Err(e) => {
                            return Err(e);
                        },
                    }
                    continue ;
                } else if is_named(&tag.name, "ambiant_light") {
                    proof {
                        lemma_light_scan_place(events@, at + 1, false, None, Scalar { bits: 0 }, None);
                    }
                    match read_ambiant_light(events, at + 1) {
                        Ok(found) => {
                            ambient = Some(found.0);
                            at = found.1;
                        },
                        Err(e) => {
                            return Err(e);
                        },
                    }
                    continue ;
                } else if is_named(&tag.name, "sphere") {
                    proof {
                        lemma_sphere_scan_place(events@, at + 1, None, Scalar { bits: 0 }, None);
                    }
                    match read_sphere(events, at + 1) {
                        Ok(found) => {
                            objects.push(Object::Sphere(found.0));
                            at = found.1;
                        },
                        Err(e) => {
                            return Err(e);
                        },
                    }
                    continue ;
                }
            },
            _ => {},
        }
        at = at + 1;
    }
    match (camera, ambient) {
        (None, _) => Err(ParseError::MissingCamera),
        (Some(_), None) => Err(ParseError::MissingAmbientLight),
        (Some(c), Some(a)) => Ok(Scene { camera: c, ambiant_light: a, lights, objects }),
    }
}

/// The events that the reader finds in a text, up to its end or to the
/// place where it is not well-formed; the last of them is the end of the
/// text or the failure.
pub fn read_events(content: &str) -> (r: Vec<XmlEvent>)
    ensures
        r@ == events_of(content@),
        closed(r@),
{
    let mut reader = open_reader(content);
    let mut events: Vec<XmlEvent> = Vec::new();
    let ghost all: Seq<XmlEvent> = events_of(content@);
    loop
        invariant
            all == events_of(content@),
            closed(all),
            events@ + pending(reader) == all,
            pending(reader).len() > 0,
        decreases pending(reader).len(),
    {
        let ghost before: Seq<XmlEvent> = pending(reader);
        let ghost at: int = events@.len() as int;
        let event: XmlEvent = next_event(&mut reader);
        let last: bool = match &event {
            XmlEvent::Eof => true,
            XmlEvent::Failed => true,
            _ => false,
        };
        proof {
            assert(all[at] == before[0]);
            assert(events@.push(event) + before.skip(1) =~= events@ + before);
        }
        events.push(event);
        if last {
            proof {
                assert(at == all.len() - 1);
                assert(pending(reader).len() == 0);
                assert(events@ =~= all);
            }
            return events;
        }
    }
}

/// Reads a scene from its description: the scene that `scene_from_events`
/// builds of the events that the reader finds in the text.
pub fn load_from_xml_string(file_content: String) -> (r: Result<Scene, ParseError>)
    ensures
        scene_read(r, scene_of(events_of(file_content@))),
{
    let events: Vec<XmlEvent> = read_events(file_content.as_str());
    scene_from_events(&events)
}

} // verus!
