use raytracer::coord::Vec3d;
use raytracer::error::{GeometryError, ParseError};
use raytracer::scalar::Scalar;
use raytracer::scene::light::LightType;
use raytracer::scene::object::material::Color;
use raytracer::scene::object::Object;
use raytracer::scene::parser::{
    load_from_xml_string, read_ambiant_light, read_camera, read_color, read_events, read_material,
    read_point_light, read_property, read_sphere, read_vec3d, scene_from_events, XmlAttribute,
    XmlEvent, XmlTag,
};

fn s(v: f64) -> Scalar {
    Scalar::from_bits(v.to_bits())
}

fn f(v: Scalar) -> f64 {
    f64::from_bits(v.to_bits())
}

fn vec3(x: f64, y: f64, z: f64) -> Vec3d {
    Vec3d { x: s(x), y: s(y), z: s(z) }
}

fn color(r: f64, g: f64, b: f64) -> Color {
    Color { r: s(r), g: s(g), b: s(b) }
}

fn tag(name: &str, attributes: &[(&str, &str)]) -> XmlTag {
    XmlTag {
        name: name.as_bytes().to_vec(),
        attributes: attributes
            .iter()
            .map(|(k, v)| XmlAttribute { key: k.as_bytes().to_vec(), value: v.as_bytes().to_vec() })
            .collect(),
        sound: true,
    }
}

#[test]
fn parse_vec() {
    let bs = tag("pos", &[("x", "1.2"), ("y", "3.4"), ("z", "5.6")]);
    let vec = read_vec3d(&bs).unwrap();
    assert_eq!(vec, vec3(1.2, 3.4, 5.6));
}

#[test]
fn parse_color() {
    let bs = tag("color", &[("r", "0.8"), ("g", "0"), ("b", "0.1")]);
    let col = read_color(&bs).unwrap();
    assert_eq!(col, color(0.8, 0., 0.1));
}

#[test]
fn parse_funny_color() {
    let bs = tag("color", &[("r", "2.8"), ("g", "-0.5"), ("toto", "abc")]);
    let col = read_color(&bs).unwrap();
    assert_eq!(col, color(1., 0., 0.));
}

#[test]
fn parse_multi_attributes() {
    let bs = tag("color", &[("r", "2.8"), ("g", "-0.5"), ("toto", "abc")]);
    assert_eq!(read_property(&bs, "r"), Some(s(2.8)));
    assert_eq!(read_property(&bs, "b"), None);
    assert_eq!(read_property(&bs, "toto"), None);
}

#[test]
fn parse_ambiant_light() {
    let events = read_events(
        "<ambiant_light>
            <color r=\"0.6\" g=\"0.8\" b=\"1\"/>
            <intensity i=\"0.3\"/>
            </ambiant_light>",
    );

    let (light, _next) = read_ambiant_light(&events, 0).unwrap();
    assert_eq!(light.color, color(0.6, 0.8, 1.0));
    assert_eq!(f(light.intensity), 0.3);
}

#[test]
fn reader_gives_the_events_of_a_text() {
    let events = read_events("<a x=\"1\" y='two'><b/>text</a>");
    assert_eq!(events.len(), 5);
    match &events[0] {
        XmlEvent::Start(t) => {
            assert_eq!(t.name, b"a".to_vec());
            assert!(t.sound);
            assert_eq!(t.attributes.len(), 2);
            assert_eq!(t.attributes[0].key, b"x".to_vec());
            assert_eq!(t.attributes[0].value, b"1".to_vec());
            assert_eq!(t.attributes[1].key, b"y".to_vec());
            assert_eq!(t.attributes[1].value, b"two".to_vec());
        }
        other => panic!("{:?}", other),
    }
    assert!(matches!(&events[1], XmlEvent::Empty(t) if t.name == b"b".to_vec()));
    assert!(matches!(&events[2], XmlEvent::Other));
    assert!(matches!(&events[3], XmlEvent::End(n) if n == &b"a".to_vec()));
    assert!(matches!(&events[4], XmlEvent::Eof));
    let broken = read_events("<a><b></a>");
    assert!(matches!(broken.last(), Some(XmlEvent::Failed)));
    let unsound = read_events("<a x=1/>");
    assert!(matches!(&unsound[0], XmlEvent::Empty(t) if !t.sound));
    assert!(matches!(read_events("").as_slice(), [XmlEvent::Eof]));
}

const SCENE: &str = "<scene>
    <camera>
        <pos x=\"0\" y=\"0\" z=\"0\"/>
        <dir x=\"1\" y=\"0\" z=\"0\"/>
    </camera>
    <ambiant_light>
        <color r=\"1\" g=\"0.5\" b=\"0.25\"/>
        <intensity i=\"0.2\"/>
    </ambiant_light>
    <point_light>
        <color r=\"1\" g=\"1\" b=\"1\"/>
        <intensity i=\"30\"/>
        <pos x=\"-2\" y=\"3\" z=\"4.5\"/>
    </point_light>
    <!-- a comment -->
    <sphere>
        <pos x=\"5\" y=\"0\" z=\"0\"/>
        <radius r=\"1.5\"/>
        <material>
            <color r=\"0.8\" g=\"0.1\" b=\"0.1\"/>
            <specular r=\"1\" g=\"1\" b=\"1\"/>
            <reflectivity r=\"0.3\"/>
            <roughness r=\"0.05\"/>
        </material>
    </sphere>
    <sphere>
        <pos x=\"7\" y=\"1\"/>
        <radius r=\"2\"/>
        <material>
            <color r=\"0\" g=\"3\" b=\"0\"/>
            <specular/>
        </material>
    </sphere>
    <object/>
</scene>";

#[test]
fn scene_is_read_from_its_description() {
    let scene = load_from_xml_string(SCENE.to_string()).unwrap();
    assert_eq!(scene.camera.pos, vec3(0., 0., 0.));
    assert_eq!(scene.camera.dir, vec3(1., 0., 0.));
    assert_eq!(scene.camera.width(), 1024);
    assert_eq!(scene.camera.height(), 768);
    assert_eq!(scene.ambiant_light.color, color(1., 0.5, 0.25));
    assert_eq!(f(scene.ambiant_light.intensity), 0.2);
    assert!(matches!(scene.ambiant_light.light_type, LightType::AmbiantLight));
    assert_eq!(scene.lights.len(), 1);
    assert_eq!(f(scene.lights[0].intensity), 30.);
    assert!(matches!(scene.lights[0].light_type, LightType::PointLight { pos } if pos == vec3(-2., 3., 4.5)));
    assert_eq!(scene.objects.len(), 2);
    match &scene.objects[0] {
        Object::Sphere(sphere) => {
            assert_eq!(sphere.center, vec3(5., 0., 0.));
            assert_eq!(f(sphere.radius), 1.5);
            assert_eq!(sphere.material.diffuse, color(0.8, 0.1, 0.1));
            assert_eq!(sphere.material.specular, color(1., 1., 1.));
            assert_eq!(f(sphere.material.reflectivity), 0.3);
            assert_eq!(f(sphere.material.roughness), 0.05);
        }
        Object::Rasterized(_) => panic!("a mesh"),
    }
    match &scene.objects[1] {
        Object::Sphere(sphere) => {
            assert_eq!(sphere.center, vec3(7., 1., 0.));
            assert_eq!(sphere.material.diffuse, color(0., 1., 0.));
            assert_eq!(sphere.material.specular, color(0., 0., 0.));
            assert_eq!(f(sphere.material.reflectivity), 0.);
            assert_eq!(f(sphere.material.roughness), 1.);
        }
        Object::Rasterized(_) => panic!("a mesh"),
    }
}

fn failure(text: &str) -> Option<ParseError> {
    load_from_xml_string(text.to_string()).err()
}

const CAMERA: &str = "<camera><pos x=\"0\"/><dir x=\"1\"/></camera>";
const AMBIENT: &str = "<ambiant_light><color r=\"1\"/><intensity i=\"1\"/></ambiant_light>";

#[test]
fn each_failure_has_its_text() {
    assert_eq!(failure(""), Some(ParseError::MissingCamera));
    assert_eq!(failure(AMBIENT), Some(ParseError::MissingCamera));
    assert_eq!(failure(CAMERA), Some(ParseError::MissingAmbientLight));
    assert_eq!(failure(&format!("{}{}", CAMERA, AMBIENT)), None);
    assert_eq!(failure("<camera><pos x=\"0\"/>"), Some(ParseError::UnexpectedEof));
    assert_eq!(failure("<scene><camera><pos x=\"0\"/></scene>"), Some(ParseError::Syntax));
    assert_eq!(failure("<camera><dir x=\"1\"/></camera>"), Some(ParseError::MissingPosition));
    assert_eq!(failure("<camera><pos x=\"1\"/></camera>"), Some(ParseError::MissingDirection));
    assert_eq!(failure("<camera><pos><x/></pos></camera>"), Some(ParseError::UnexpectedStart));
    assert_eq!(failure("<camera><pos x=\"one\"/></camera>"), Some(ParseError::Number));
    assert_eq!(failure("<camera><pos x=1/></camera>"), Some(ParseError::Attribute));
    assert_eq!(
        failure("<camera><pos x=\"0\"/><dir x=\"0\"/></camera>"),
        Some(ParseError::Geometry(GeometryError::Degenerate))
    );
    assert_eq!(
        failure("<camera><pos x=\"nan\"/><dir x=\"1\"/></camera>"),
        Some(ParseError::Geometry(GeometryError::NotANumber))
    );
    assert_eq!(failure("<point_light><pos x=\"1\"/></point_light>"), Some(ParseError::MissingColor));
    assert_eq!(failure("<point_light><color r=\"1\"/></point_light>"), Some(ParseError::MissingPosition));
    assert_eq!(
        failure("<point_light><color r=\"1\"/><intensity/></point_light>"),
        Some(ParseError::Number)
    );
    assert_eq!(failure("<ambiant_light><color r=\"1\"/><a></a></ambiant_light>"), Some(ParseError::UnexpectedStart));
    assert_eq!(failure("<sphere><radius r=\"1\"/></sphere>"), Some(ParseError::MissingPosition));
    assert_eq!(failure("<sphere><pos x=\"1\"/><radius r=\"1\"/></sphere>"), Some(ParseError::MissingMaterial));
    let material = "<material><color r=\"1\"/><specular r=\"1\"/></material>";
    assert_eq!(
        failure(&format!("<sphere><pos x=\"1\"/>{}</sphere>", material)),
        Some(ParseError::Geometry(GeometryError::NonPositiveRadius))
    );
    assert_eq!(
        failure(&format!("<sphere><pos x=\"1\"/><radius r=\"-2\"/>{}</sphere>", material)),
        Some(ParseError::Geometry(GeometryError::NonPositiveRadius))
    );
    assert_eq!(
        failure(&format!("<sphere><pos x=\"1\"/><radius r=\"NaN\"/>{}</sphere>", material)),
        Some(ParseError::Geometry(GeometryError::NotANumber))
    );
    assert_eq!(
        failure("<sphere><material><specular r=\"1\"/></material></sphere>"),
        Some(ParseError::MissingColor)
    );
    assert_eq!(
        failure("<sphere><material><color r=\"1\"/></material></sphere>"),
        Some(ParseError::MissingSpecular)
    );
    for bad in ["<reflectivity r=\"1.5\"/>", "<reflectivity r=\"-0.1\"/>", "<roughness r=\"0\"/>", "<roughness r=\"-1\"/>"] {
        assert_eq!(
            failure(&format!("<sphere><material><color/><specular/>{}</material></sphere>", bad)),
            Some(ParseError::Material)
        );
    }
}

#[test]
fn an_end_of_another_element_is_unexpected() {
    let events = vec![
        XmlEvent::Empty(tag("pos", &[("x", "1")])),
        XmlEvent::End(b"sphere".to_vec()),
    ];
    assert_eq!(read_camera(&events, 0).err(), Some(ParseError::UnexpectedEnd));
    assert_eq!(read_point_light(&events, 0).err(), Some(ParseError::UnexpectedEnd));
    assert_eq!(read_ambiant_light(&events, 0).err(), Some(ParseError::UnexpectedEnd));
    assert_eq!(read_material(&events, 0).err(), Some(ParseError::UnexpectedEnd));
    assert_eq!(read_sphere(&events, 0).err(), Some(ParseError::MissingMaterial));
    assert_eq!(read_camera(&events, 5).err(), Some(ParseError::UnexpectedEof));
    assert_eq!(read_sphere(&vec![XmlEvent::Failed], 0).err(), Some(ParseError::Syntax));
    assert_eq!(read_sphere(&vec![XmlEvent::Eof], 0).err(), Some(ParseError::UnexpectedEof));
}

#[test]
fn readers_give_the_place_behind_the_element() {
    let events = vec![
        XmlEvent::Other,
        XmlEvent::Empty(tag("dir", &[("y", "-2")])),
        XmlEvent::Empty(tag("pos", &[("x", "1"), ("y", "2")])),
        XmlEvent::Empty(tag("other", &[])),
        XmlEvent::End(b"camera".to_vec()),
        XmlEvent::Eof,
    ];
    let (camera, next) = read_camera(&events, 0).unwrap();
    assert_eq!(next, 5);
    assert_eq!(camera.pos, vec3(1., 2., 0.));
    assert_eq!(camera.dir, vec3(0., -1., 0.));
    let (camera, next) = read_camera(&events, 2).unwrap_err_or_pair();
    assert_eq!((camera, next), (None, 0));
}

trait PairOrNothing {
    fn unwrap_err_or_pair(self) -> (Option<Vec3d>, usize);
}

impl<T> PairOrNothing for Result<(T, usize), ParseError> {
    fn unwrap_err_or_pair(self) -> (Option<Vec3d>, usize) {
        match self {
            Ok((_, next)) => (Some(vec3(0., 0., 0.)), next),
            Err(e) => {
                assert_eq!(e, ParseError::MissingDirection);
                (None, 0)
            }
        }
    }
}

#[test]
fn the_last_camera_and_ambient_light_count() {
    let text = format!(
        "{}{}<camera><pos y=\"2\"/><dir y=\"1\"/></camera>\
         <ambiant_light><color b=\"1\"/></ambiant_light>",
        CAMERA, AMBIENT
    );
    let scene = scene_from_events(&read_events(&text)).unwrap();
    assert_eq!(scene.camera.pos, vec3(0., 2., 0.));
    assert_eq!(scene.ambiant_light.color, color(0., 0., 1.));
    assert_eq!(f(scene.ambiant_light.intensity), 0.);
}

#[test]
fn an_unsound_element_gives_no_numbers() {
    let mut bad = tag("pos", &[("x", "1")]);
    bad.sound = false;
    assert_eq!(read_vec3d(&bad).err(), Some(ParseError::Attribute));
    assert_eq!(read_color(&bad).err(), Some(ParseError::Attribute));
    assert_eq!(read_property(&bad, "x"), None);
    assert_eq!(read_vec3d(&tag("pos", &[("x", "1"), ("y", "")])).err(), Some(ParseError::Number));
    assert_eq!(read_vec3d(&tag("pos", &[("x", "1"), ("x", "2")])).unwrap(), vec3(2., 0., 0.));
    assert_eq!(read_property(&tag("p", &[("r", "1"), ("r", "2")]), "r"), Some(s(1.)));
    assert_eq!(read_color(&tag("c", &[("r", "nan")])).err(), Some(ParseError::Number));
    assert_eq!(read_color(&tag("c", &[("g", "inf"), ("b", "-inf")])).unwrap(), color(0., 1., 0.));
}

#[test]
fn each_failure_says_what_went_wrong() {
    assert_eq!(ParseError::MissingCamera.describe(), "the scene has no camera");
    assert_eq!(ParseError::Syntax.describe(), "the text is not well-formed");
    assert_eq!(
        ParseError::Geometry(GeometryError::NonPositiveRadius).describe(),
        GeometryError::NonPositiveRadius.describe()
    );
    assert_eq!(GeometryError::Degenerate.describe(), "a vector of length zero has no direction");
    assert_eq!(GeometryError::NotANumber.describe(), "a coordinate or a radius is not a number");
    assert_eq!(
        raytracer::error::RenderError::NoPositiveMaximum.describe(),
        "nothing in the frame is above zero"
    );
}
