//! What can go wrong while a scene is built or rendered.
use vstd::prelude::*;

verus! {

/// Why a piece of geometry cannot be built.
#[derive(Debug, Clone, Copy, PartialEq, Eq, Structural)]
pub enum GeometryError {
    /// A vector of length zero was to be brought to length one.
    Degenerate,
    /// A coordinate or a radius is NaN.
    NotANumber,
    /// A radius is zero or negative.
    NonPositiveRadius,
}

/// Why a frame cannot be rendered.
#[derive(Debug, Clone, Copy, PartialEq, Eq, Structural)]
pub enum RenderError {
    /// The camera has no ray for a pixel: its direction has length zero.
    Degenerate,
    /// The frame has no strictly positive maximum to scale it by: it is
    /// empty, or nothing in it is above zero.
    NoPositiveMaximum,
    /// A pool of workers was asked for with no worker in it.
    NoWorkers,
    /// The frame does not hold three numbers for each pixel of the image,
    /// or the image has no pixel.
    FrameSize,
    /// The encoder of the image file failed.
    Encoder,
}

/// Why a scene description is not read.
#[derive(Debug, Clone, Copy, PartialEq, Eq, Structural)]
pub enum ParseError {
    /// The text is not well-formed.
    Syntax,
    /// The text ends inside an element.
    UnexpectedEof,
    /// An element begins where none may.
    UnexpectedStart,
    /// An element ends that is not the one being read.
    UnexpectedEnd,
    /// An attribute of an element cannot be read.
    Attribute,
    /// A value is missing, or is no number that is read.
    Number,
    /// The scene has no camera.
    MissingCamera,
    /// The scene has no ambient light.
    MissingAmbientLight,
    /// An element has no position.
    MissingPosition,
    /// The camera has no direction.
    MissingDirection,
    /// A light or a material has no color.
    MissingColor,
    /// A material has no specular color.
    MissingSpecular,
    /// A sphere has no material.
    MissingMaterial,
    /// A reflectivity is not between 0 and 1, or a roughness is not above 0.
    Material,
    /// The camera or a sphere is refused.
    Geometry(GeometryError),
}

impl GeometryError {
    /// What went wrong, in words.
    pub open spec fn wording(&self) -> Seq<char> {
        match self {
            GeometryError::Degenerate => "a vector of length zero has no direction"@,
            GeometryError::NotANumber => "a coordinate or a radius is not a number"@,
            GeometryError::NonPositiveRadius => "a radius is not above zero"@,
        }
    }

    /// What went wrong, in words.
    pub fn describe(&self) -> (r: String)
        ensures
            r@ == self.wording(),
    {
        match self {
            GeometryError::Degenerate => "a vector of length zero has no direction".to_owned(),
            GeometryError::NotANumber => "a coordinate or a radius is not a number".to_owned(),
            GeometryError::NonPositiveRadius => "a radius is not above zero".to_owned(),
        }
    }
}

impl RenderError {
    /// What went wrong, in words.
    pub open spec fn wording(&self) -> Seq<char> {
        match self {
            RenderError::Degenerate => "the camera has no ray for a pixel"@,
            RenderError::NoPositiveMaximum => "nothing in the frame is above zero"@,
            RenderError::NoWorkers => "the pool has no worker"@,
            RenderError::FrameSize => "the frame does not fit the image"@,
            RenderError::Encoder => "the image could not be encoded"@,
        }
    }

    /// What went wrong, in words.
    pub fn describe(&self) -> (r: String)
        ensures
            r@ == self.wording(),
    {
        match self {
            RenderError::Degenerate => "the camera has no ray for a pixel".to_owned(),
            RenderError::NoPositiveMaximum => "nothing in the frame is above zero".to_owned(),
            RenderError::NoWorkers => "the pool has no worker".to_owned(),
            RenderError::FrameSize => "the frame does not fit the image".to_owned(),
            RenderError::Encoder => "the image could not be encoded".to_owned(),
        }
    }
}

impl ParseError {
    /// What went wrong, in words.
    pub open spec fn wording(&self) -> Seq<char> {
        match self {
            ParseError::Syntax => "the text is not well-formed"@,
            ParseError::UnexpectedEof => "the text ends inside an element"@,
            ParseError::UnexpectedStart => "an element begins where none may"@,
            ParseError::UnexpectedEnd => "an element ends that is not being read"@,
            ParseError::Attribute => "an attribute cannot be read"@,
            ParseError::Number => "a value is missing or is no number"@,
            ParseError::MissingCamera => "the scene has no camera"@,
            ParseError::MissingAmbientLight => "the scene has no ambient light"@,
            ParseError::MissingPosition => "an element has no position"@,
            ParseError::MissingDirection => "the camera has no direction"@,
            ParseError::MissingColor => "a light or a material has no color"@,
            ParseError::MissingSpecular => "a material has no specular color"@,
            ParseError::MissingMaterial => "a sphere has no material"@,
            ParseError::Material => "a reflectivity or a roughness is out of range"@,
            ParseError::Geometry(e) => e.wording(),
        }
    }

    /// What went wrong, in words.
    pub fn describe(&self) -> (r: String)
        ensures
            r@ == self.wording(),
    {
        match self {
            ParseError::Syntax => "the text is not well-formed".to_owned(),
            ParseError::UnexpectedEof => "the text ends inside an element".to_owned(),
            ParseError::UnexpectedStart => "an element begins where none may".to_owned(),
            ParseError::UnexpectedEnd => "an element ends that is not being read".to_owned(),
            ParseError::Attribute => "an attribute cannot be read".to_owned(),
            ParseError::Number => "a value is missing or is no number".to_owned(),
            ParseError::MissingCamera => "the scene has no camera".to_owned(),
            ParseError::MissingAmbientLight => "the scene has no ambient light".to_owned(),
            ParseError::MissingPosition => "an element has no position".to_owned(),
            ParseError::MissingDirection => "the camera has no direction".to_owned(),
            ParseError::MissingColor => "a light or a material has no color".to_owned(),
            ParseError::MissingSpecular => "a material has no specular color".to_owned(),
            ParseError::MissingMaterial => "a sphere has no material".to_owned(),
            ParseError::Material => "a reflectivity or a roughness is out of range".to_owned(),
            ParseError::Geometry(e) => e.describe(),
        }
    }
}

} // verus!
