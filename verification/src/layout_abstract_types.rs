//! The attribute type system: which attributes each element takes, of what
//! kind each one is, and how a raw attribute string becomes a typed value.
//!
//! | attribute    | kind   | values                    | inherited | default     |
//! |--------------|--------|---------------------------|-----------|-------------|
//! | `width`      | length | `<digits>px`, `<digits>%` | no        | `100%`      |
//! | `height`     | length | `<digits>px`, `<digits>%` | no        | `100%`      |
//! | `color`      | color  | palette name, `#rrggbb`   | yes       | `MildWhite` |
//! | `background` | color  | palette name, `#rrggbb`   | no        | `MildBlack` |
//! | `font`       | text   | path of a font file       | yes       | empty       |
//! | `font-size`  | length | `<digits>px`, `<digits>%` | yes       | `18px`      |
//! | `align`      | enum   | `start`, `center`, `end`  | no        | `start`     |
//! | `text`       | text   | any                       | no        | empty       |
//! | `src`        | text   | path of an image file     | no        | empty       |
//!
//! `window` and `panel` take all of these but `text` and `src`; `label` takes
//! all but `src`; `image` takes `width`, `height`, `background`, `align` and
//! `src`; a run of text takes `text` only.

use vstd::prelude::*;
use vstd::slice::slice_subrange;
use crate::ascii::bytes_of;
use crate::ascii::copy_bytes;
use crate::ascii::is_digit;
use crate::ascii::lemma_lit;
use crate::ascii::lemma_run_end;
use crate::ascii::lit;
use crate::ascii::run_end;
use crate::ascii::scan;
use crate::ascii::spells;
use crate::ascii::ByteClass;
use crate::color::literal_color;
use crate::color::Color;
use crate::color_palette::ColorPalette;
use crate::layout_abstract_syntax::last_value;
use crate::layout_abstract_syntax::SyntaxNode;
use crate::layout_abstract_syntax::TokenView;

verus! {

/// The kinds of attribute values.
#[derive(Clone, Copy, Debug, PartialEq, Eq, Structural)]
pub enum AttributeKind {
    Length,
    Color,
    Enum,
    Text,
}

/// The style properties, one per attribute of the markup.
#[derive(Clone, Copy, Debug, PartialEq, Eq, Structural)]
pub enum Property {
    Width,
    Height,
    Color,
    Background,
    Font,
    FontSize,
    Align,
    Text,
    Source,
}

/// The number of style properties.
pub const PROPERTY_COUNT: usize = 9;

impl Property {
    /// The position of the property in the table above.
    pub open spec fn spec_index(self) -> int {
        match self {
            Property::Width => 0,
            Property::Height => 1,
            Property::Color => 2,
            Property::Background => 3,
            Property::Font => 4,
            Property::FontSize => 5,
            Property::Align => 6,
            Property::Text => 7,
            Property::Source => 8,
        }
    }

    /// The property at a position of the table.
    pub open spec fn at(index: int) -> Option<Property> {
        if index == 0 {
            Some(Property::Width)
        } else if index == 1 {
            Some(Property::Height)
        } else if index == 2 {
            Some(Property::Color)
        } else if index == 3 {
            Some(Property::Background)
        } else if index == 4 {
            Some(Property::Font)
        } else if index == 5 {
            Some(Property::FontSize)
        } else if index == 6 {
            Some(Property::Align)
        } else if index == 7 {
            Some(Property::Text)
        } else if index == 8 {
            Some(Property::Source)
        } else {
            None
        }
    }

    /// The attribute name of the property.
    pub open spec fn key(self) -> Seq<u8> {
        match self {
            Property::Width => lit("width"),
            Property::Height => lit("height"),
            Property::Color => lit("color"),
            Property::Background => lit("background"),
            Property::Font => lit("font"),
            Property::FontSize => lit("font-size"),
            Property::Align => lit("align"),
            Property::Text => lit("text"),
            Property::Source => lit("src"),
        }
    }

    /// The property that an attribute name stands for.
    pub open spec fn keyed(key: Seq<u8>) -> Option<Property> {
        if key == lit("width") {
            Some(Property::Width)
        } else if key == lit("height") {
            Some(Property::Height)
        } else if key == lit("color") {
            Some(Property::Color)
        } else if key == lit("background") {
            Some(Property::Background)
        } else if key == lit("font") {
            Some(Property::Font)
        } else if key == lit("font-size") {
            Some(Property::FontSize)
        } else if key == lit("align") {
            Some(Property::Align)
        } else if key == lit("text") {
            Some(Property::Text)
        } else if key == lit("src") {
            Some(Property::Source)
        } else {
            None
        }
    }

    /// The kind of value that the property takes.
    pub open spec fn kind(self) -> AttributeKind {
        match self {
            Property::Width | Property::Height | Property::FontSize => AttributeKind::Length,
            Property::Color | Property::Background => AttributeKind::Color,
            Property::Align => AttributeKind::Enum,
            Property::Font | Property::Text | Property::Source => AttributeKind::Text,
        }
    }

    /// Whether an element that does not set the property takes its parent's
    /// value.
    pub open spec fn inheritable(self) -> bool {
        self == Property::Color || self == Property::Font || self == Property::FontSize
    }

    /// Whether the value of the property is the path of an external resource.
    pub open spec fn names_resource(self) -> bool {
        self == Property::Font || self == Property::Source
    }

    /// The literals that a property of kind enum accepts, in the order in
    /// which an error lists them.
    pub open spec fn literals(self) -> Seq<Seq<u8>> {
        match self {
            Property::Align => seq![lit("start"), lit("center"), lit("end")],
            _ => Seq::empty(),
        }
    }

    /// The value of a property that an element neither sets nor inherits.
    pub open spec fn default_value(self) -> Value {
        match self {
            Property::Width => Value::Length(LengthUnit::Percent, 100),
            Property::Height => Value::Length(LengthUnit::Percent, 100),
            Property::Color => Value::Color(ColorValue::Named(ColorPalette::MildWhite)),
            Property::Background => Value::Color(ColorValue::Named(ColorPalette::MildBlack)),
            Property::Font => Value::Text(Seq::empty()),
            Property::FontSize => Value::Length(LengthUnit::Px, 18),
            Property::Align => Value::Enum(lit("start")),
            Property::Text => Value::Text(Seq::empty()),
            Property::Source => Value::Text(Seq::empty()),
        }
    }

    pub fn index(self) -> (r: usize)
        ensures
            r == self.spec_index(),
            r < PROPERTY_COUNT,
            Property::at(r as int) == Some(self),
    {
        match self {
            Property::Width => 0,
            Property::Height => 1,
            Property::Color => 2,
            Property::Background => 3,
            Property::Font => 4,
            Property::FontSize => 5,
            Property::Align => 6,
            Property::Text => 7,
            Property::Source => 8,
        }
    }

    pub fn from_index(index: usize) -> (r: Option<Property>)
        ensures
            r == Property::at(index as int),
            index < PROPERTY_COUNT ==> r is Some && r->0.spec_index() == index,
            index >= PROPERTY_COUNT ==> r is None,
    {
        if index == 0 {
            Some(Property::Width)
        } else if index == 1 {
            Some(Property::Height)
        } else if index == 2 {
            Some(Property::Color)
        } else if index == 3 {
            Some(Property::Background)
        } else if index == 4 {
            Some(Property::Font)
        } else if index == 5 {
            Some(Property::FontSize)
        } else if index == 6 {
            Some(Property::Align)
        } else if index == 7 {
            Some(Property::Text)
        } else if index == 8 {
            Some(Property::Source)
        } else {
            None
        }
    }

    pub fn from_key(key: &[u8]) -> (r: Option<Property>)
        ensures
            r == Property::keyed(key@),
    {
        if spells(key, "width") {
            Some(Property::Width)
        } else if spells(key, "height") {
            Some(Property::Height)
        } else if spells(key, "color") {
            Some(Property::Color)
        } else if spells(key, "background") {
            Some(Property::Background)
        } else if spells(key, "font") {
            Some(Property::Font)
        } else if spells(key, "font-size") {
            Some(Property::FontSize)
        } else if spells(key, "align") {
            Some(Property::Align)
        } else if spells(key, "text") {
            Some(Property::Text)
        } else if spells(key, "src") {
            Some(Property::Source)
        } else {
            None
        }
    }

    pub fn get_kind(self) -> (r: AttributeKind)
        ensures
            r == self.kind(),
    {
        match self {
            Property::Width | Property::Height | Property::FontSize => AttributeKind::Length,
            Property::Color | Property::Background => AttributeKind::Color,
            Property::Align => AttributeKind::Enum,
            Property::Font | Property::Text | Property::Source => AttributeKind::Text,
        }
    }

    pub fn is_inheritable(self) -> (r: bool)
        ensures
            r == self.inheritable(),
    {
        match self {
            Property::Color | Property::Font | Property::FontSize => true,
            _ => false,
        }
    }

    pub fn is_resource(self) -> (r: bool)
        ensures
            r == self.names_resource(),
    {
        match self {
            Property::Font | Property::Source => true,
            _ => false,
        }
    }

    /// The literals that the property accepts, for an error to list.
    pub fn allowed_literals(self) -> (r: Vec<Vec<u8>>)
        ensures
            byte_strings(r@) == self.literals(),
    {
        let mut allowed: Vec<Vec<u8>> = Vec::new();
        match self {
            Property::Align => {
                allowed.push(bytes_of("start"));
                allowed.push(bytes_of("center"));
                allowed.push(bytes_of("end"));
            },
            _ => {},
        }
        assert(byte_strings(allowed@) =~= self.literals());
        allowed
    }

    /// Whether `raw` is one of the literals that the property accepts.
    pub fn accepts_literal(self, raw: &[u8]) -> (r: bool)
        ensures
            r == self.literals().contains(raw@),
    {
        match self {
            Property::Align => {
                let r = spells(raw, "start") || spells(raw, "center") || spells(raw, "end");
                proof {
                    let all = self.literals();
                    if r {
                        assert(all[0] == lit("start") && all[1] == lit("center") && all[2] == lit(
                            "end",
                        ));
                    }
                }
                r
            },
            _ => false,
        }
    }
}

/// The elements of the markup.
#[derive(Clone, Copy, Debug, PartialEq, Eq, Structural)]
pub enum Tag {
    Window,
    Panel,
    Label,
    Image,
    /// A run of text between tags.
    Text,
}

impl Tag {
    pub open spec fn name(self) -> Seq<u8> {
        match self {
            Tag::Window => lit("window"),
            Tag::Panel => lit("panel"),
            Tag::Label => lit("label"),
            Tag::Image => lit("image"),
            Tag::Text => lit("#text"),
        }
    }

    /// The element that a tag names.
    pub open spec fn named(name: Seq<u8>) -> Option<Tag> {
        if name == lit("window") {
            Some(Tag::Window)
        } else if name == lit("panel") {
            Some(Tag::Panel)
        } else if name == lit("label") {
            Some(Tag::Label)
        } else if name == lit("image") {
            Some(Tag::Image)
        } else if name == lit("#text") {
            Some(Tag::Text)
        } else {
            None
        }
    }

    /// Whether the element takes the attribute of a property.
    pub open spec fn allows(self, property: Property) -> bool {
        match self {
            Tag::Window | Tag::Panel => property != Property::Text && property
                != Property::Source,
            Tag::Label => property != Property::Source,
            Tag::Image => property == Property::Width || property == Property::Height || property
                == Property::Background || property == Property::Align || property
                == Property::Source,
            Tag::Text => property == Property::Text,
        }
    }

    pub fn from_name(name: &[u8]) -> (r: Option<Tag>)
        ensures
            r == Tag::named(name@),
    {
        if spells(name, "window") {
            Some(Tag::Window)
        } else if spells(name, "panel") {
            Some(Tag::Panel)
        } else if spells(name, "label") {
            Some(Tag::Label)
        } else if spells(name, "image") {
            Some(Tag::Image)
        } else if spells(name, "#text") {
            Some(Tag::Text)
        } else {
            None
        }
    }

    pub fn accepts(self, property: Property) -> (r: bool)
        ensures
            r == self.allows(property),
    {
        match self {
            Tag::Window | Tag::Panel => match property {
                Property::Text | Property::Source => false,
                _ => true,
            },
            Tag::Label => match property {
                Property::Source => false,
                _ => true,
            },
            Tag::Image => match property {
                Property::Width | Property::Height | Property::Background => true,
                Property::Align | Property::Source => true,
                _ => false,
            },
            Tag::Text => match property {
                Property::Text => true,
                _ => false,
            },
        }
    }
}

/// The unit of a length.
#[derive(Clone, Copy, Debug, PartialEq, Eq, Structural)]
pub enum LengthUnit {
    Px,
    Percent,
}

/// A colour as a style holds it: by its palette name or as written out.
#[derive(Clone, Copy, Debug, PartialEq, Eq, Structural)]
pub enum ColorValue {
    Named(ColorPalette),
    Literal(Color),
}

impl ColorValue {
    /// The RGB triple that the value stands for.
    pub open spec fn rgb(self) -> Color {
        match self {
            ColorValue::Named(entry) => entry.rgb(),
            ColorValue::Literal(color) => color,
        }
    }

    pub fn get_color(self) -> (r: Color)
        ensures
            r == self.rgb(),
    {
        match self {
            ColorValue::Named(entry) => entry.get_color(),
            ColorValue::Literal(color) => color,
        }
    }
}

/// A typed attribute value.
#[derive(Debug, PartialEq, Eq)]
pub enum AttributeValue {
    Length(LengthUnit, u32),
    Color(ColorValue),
    Enum(Vec<u8>),
    Text(Vec<u8>),
}

/// The mathematical value of an `AttributeValue`.
pub enum Value {
    Length(LengthUnit, u32),
    Color(ColorValue),
    Enum(Seq<u8>),
    Text(Seq<u8>),
}

impl Value {
    pub open spec fn kind(self) -> AttributeKind {
        match self {
            Value::Length(_, _) => AttributeKind::Length,
            Value::Color(_) => AttributeKind::Color,
            Value::Enum(_) => AttributeKind::Enum,
            Value::Text(_) => AttributeKind::Text,
        }
    }
}

impl View for AttributeValue {
    type V = Value;

    open spec fn view(&self) -> Value {
        match *self {
            AttributeValue::Length(unit, amount) => Value::Length(unit, amount),
            AttributeValue::Color(color) => Value::Color(color),
            AttributeValue::Enum(literal) => Value::Enum(literal@),
            AttributeValue::Text(text) => Value::Text(text@),
        }
    }
}

impl Clone for AttributeValue {
    fn clone(&self) -> (r: Self)
        ensures
            r@ == self@,
    {
        match self {
            AttributeValue::Length(unit, amount) => AttributeValue::Length(*unit, *amount),
            AttributeValue::Color(color) => AttributeValue::Color(*color),
            AttributeValue::Enum(literal) => AttributeValue::Enum(copy_bytes(literal.as_slice())),
            AttributeValue::Text(text) => AttributeValue::Text(copy_bytes(text.as_slice())),
        }
    }
}

impl AttributeValue {
    pub fn get_kind(&self) -> (r: AttributeKind)
        ensures
            r == self@.kind(),
    {
        match self {
            AttributeValue::Length(_, _) => AttributeKind::Length,
            AttributeValue::Color(_) => AttributeKind::Color,
            AttributeValue::Enum(_) => AttributeKind::Enum,
            AttributeValue::Text(_) => AttributeKind::Text,
        }
    }
}

/// The views of a list of byte strings.
pub open spec fn byte_strings(list: Seq<Vec<u8>>) -> Seq<Seq<u8>> {
    Seq::new(list.len(), |i: int| list[i]@)
}

/// Why an attribute could not be given a type.
#[derive(Debug, PartialEq, Eq)]
pub enum TypeError {
    /// The element does not take this attribute: the key, then the tag.
    UnknownAttribute(Vec<u8>, Vec<u8>),
    /// The raw value is no length.
    InvalidLength(Vec<u8>),
    /// The raw value is neither a palette name nor a colour literal.
    UnknownColor(Vec<u8>),
    /// The raw value is none of the literals allowed, which follow it.
    InvalidEnumValue(Vec<u8>, Vec<Vec<u8>>),
}

/// The mathematical value of a `TypeError`.
pub enum TypeFailure {
    UnknownAttribute(Seq<u8>, Seq<u8>),
    InvalidLength(Seq<u8>),
    UnknownColor(Seq<u8>),
    InvalidEnumValue(Seq<u8>, Seq<Seq<u8>>),
}

impl View for TypeError {
    type V = TypeFailure;

    open spec fn view(&self) -> TypeFailure {
        match *self {
            TypeError::UnknownAttribute(key, tag) => TypeFailure::UnknownAttribute(key@, tag@),
            TypeError::InvalidLength(raw) => TypeFailure::InvalidLength(raw@),
            TypeError::UnknownColor(raw) => TypeFailure::UnknownColor(raw@),
            TypeError::InvalidEnumValue(raw, allowed) => TypeFailure::InvalidEnumValue(
                raw@,
                byte_strings(allowed@),
            ),
        }
    }
}

/// The number that decimal digits write.
pub open spec fn decimal(digits: Seq<u8>) -> nat
    decreases digits.len(),
{
    if digits.len() == 0 {
        0
    } else {
        (decimal(digits.drop_last()) * 10 + (digits.last() - 0x30)) as nat
    }
}

/// The length that a raw value writes: one or more decimal digits whose
/// number fits in 32 bits, then `px` or `%`, and nothing else.
pub open spec fn spec_length(raw: Seq<u8>) -> Option<(LengthUnit, u32)> {
    let digits_end = run_end(raw, 0, ByteClass::Digit);
    let amount = decimal(raw.subrange(0, digits_end));
    let unit = raw.subrange(digits_end, raw.len() as int);
    if digits_end == 0 || amount > u32::MAX {
        None
    } else if unit == lit("px") {
        Some((LengthUnit::Px, amount as u32))
    } else if unit == lit("%") {
        Some((LengthUnit::Percent, amount as u32))
    } else {
        None
    }
}

/// The colour that a raw value writes: a palette name, or else a literal.
pub open spec fn spec_color(raw: Seq<u8>) -> Option<ColorValue> {
    match ColorPalette::named(raw) {
        Some(entry) => Some(ColorValue::Named(entry)),
        None => match literal_color(raw) {
            Some(color) => Some(ColorValue::Literal(color)),
            None => None,
        },
    }
}

/// The typed value of a raw string for a property, or why it has none.
pub open spec fn spec_value(property: Property, raw: Seq<u8>) -> Result<Value, TypeFailure> {
    match property.kind() {
        AttributeKind::Length => match spec_length(raw) {
            Some((unit, amount)) => Ok(Value::Length(unit, amount)),
            None => Err(TypeFailure::InvalidLength(raw)),
        },
        AttributeKind::Color => match spec_color(raw) {
            Some(color) => Ok(Value::Color(color)),
            None => Err(TypeFailure::UnknownColor(raw)),
        },
        AttributeKind::Enum => if property.literals().contains(raw) {
            Ok(Value::Enum(raw))
        } else {
            Err(TypeFailure::InvalidEnumValue(raw, property.literals()))
        },
        AttributeKind::Text => Ok(Value::Text(raw)),
    }
}

/// The property that an attribute of an element stands for, if the element
/// takes it.
pub open spec fn attribute_property(tag: Seq<u8>, key: Seq<u8>) -> Option<Property> {
    match (Tag::named(tag), Property::keyed(key)) {
        (Some(element), Some(property)) => if element.allows(property) {
            Some(property)
        } else {
            None
        },
        _ => None,
    }
}

/// What one attribute of an element resolves to.
pub open spec fn spec_resolve_token(tag: Seq<u8>, token: TokenView) -> Result<
    (Property, Value),
    TypeFailure,
> {
    match attribute_property(tag, token.key) {
        None => Err(TypeFailure::UnknownAttribute(token.key, tag)),
        Some(property) => match spec_value(property, token.raw_value) {
            Ok(value) => Ok((property, value)),
            Err(failure) => Err(failure),
        },
    }
}

/// The properties that the attributes of an element set. The attributes are
/// taken from left to right: the first one that fails gives the error, and a
/// later value for a property replaces an earlier one.
pub open spec fn spec_resolve(tag: Seq<u8>, attributes: Seq<TokenView>) -> Result<
    Map<Property, Value>,
    TypeFailure,
>
    decreases attributes.len(),
{
    if attributes.len() == 0 {
        Ok(Map::empty())
    } else {
        match spec_resolve(tag, attributes.drop_last()) {
            Err(failure) => Err(failure),
            Ok(style) => match spec_resolve_token(tag, attributes.last()) {
                Err(failure) => Err(failure),
                Ok((property, value)) => Ok(style.insert(property, value)),
            },
        }
    }
}

/// A longer row of digits writes no smaller number.
pub proof fn lemma_decimal_grows(digits: Seq<u8>, shorter: int)
    requires
        0 <= shorter <= digits.len(),
        forall|k: int| 0 <= k < digits.len() ==> is_digit(#[trigger] digits[k]),
    ensures
        decimal(digits.subrange(0, shorter)) <= decimal(digits),
    decreases digits.len(),
{
    if shorter == digits.len() {
        assert(digits.subrange(0, shorter) =~= digits);
    } else {
        let front = digits.drop_last();
        lemma_decimal_grows(front, shorter);
        assert(front.subrange(0, shorter) =~= digits.subrange(0, shorter));
    }
}

/// Reads a length.
pub fn parse_length(raw: &[u8]) -> (r: Option<(LengthUnit, u32)>)
    ensures
        r == spec_length(raw@),
{
    let digits_end = scan(raw, 0, ByteClass::Digit);
    if digits_end == 0 {
        return None;
    }
    let ghost digits = raw@.subrange(0, digits_end as int);
    proof {
        lemma_run_end(raw@, 0, ByteClass::Digit);
    }
    let mut amount: u64 = 0;
    let mut i: usize = 0;
    while i < digits_end
        invariant
            i <= digits_end <= raw.len(),
            0 < digits_end == run_end(raw@, 0, ByteClass::Digit),
            digits == raw@.subrange(0, digits_end as int),
            forall|k: int| 0 <= k < digits.len() ==> is_digit(#[trigger] digits[k]),
            amount == decimal(digits.subrange(0, i as int)),
            amount <= u32::MAX,
        decreases digits_end - i,
    {
        assert(is_digit(digits[i as int]));
        let digit: u8 = raw[i] - 0x30;
        amount = amount * 10 + digit as u64;
        proof {
            let next = digits.subrange(0, i + 1);
            assert(next.drop_last() =~= digits.subrange(0, i as int));
            assert(next.last() == raw@[i as int]);
            assert(amount == decimal(next));
        }
        if amount > 0xffff_ffff {
            proof {
                lemma_decimal_grows(digits, i + 1);
            }
            return None;
        }
        i += 1;
    }
    proof {
        assert(digits.subrange(0, digits_end as int) =~= digits);
    }
    let unit = slice_subrange(raw, digits_end, raw.len());
    if spells(unit, "px") {
        Some((LengthUnit::Px, amount as u32))
    } else if spells(unit, "%") {
        Some((LengthUnit::Percent, amount as u32))
    } else {
        None
    }
}

/// Reads a colour.
pub fn parse_color(raw: &[u8]) -> (r: Option<ColorValue>)
    ensures
        r == spec_color(raw@),
{
    match ColorPalette::lookup_palette_color(raw) {
        Some(entry) => Some(ColorValue::Named(entry)),
        None => match Color::from_hex(raw) {
            Some(color) => Some(ColorValue::Literal(color)),
            None => None,
        },
    }
}

/// Gives a raw attribute string the type that a property asks for.
pub fn resolve_value(property: Property, raw: &[u8]) -> (r: Result<AttributeValue, TypeError>)
    ensures
        match r {
            Ok(value) => spec_value(property, raw@) == Ok::<Value, TypeFailure>(value@),
            Err(error) => spec_value(property, raw@) == Err::<Value, TypeFailure>(error@),
        },
{
    match property.get_kind() {
        AttributeKind::Length => match parse_length(raw) {
            Some((unit, amount)) => Ok(AttributeValue::Length(unit, amount)),
            None => Err(TypeError::InvalidLength(copy_bytes(raw))),
        },
        AttributeKind::Color => match parse_color(raw) {
            Some(color) => Ok(AttributeValue::Color(color)),
            None => Err(TypeError::UnknownColor(copy_bytes(raw))),
        },
        AttributeKind::Enum => if property.accepts_literal(raw) {
            Ok(AttributeValue::Enum(copy_bytes(raw)))
        } else {
            Err(TypeError::InvalidEnumValue(copy_bytes(raw), property.allowed_literals()))
        },
        AttributeKind::Text => Ok(AttributeValue::Text(copy_bytes(raw))),
    }
}

/// The style properties of one element, each set or unset.
#[derive(Debug, PartialEq, Eq)]
pub struct StyleRecord {
    slots: [Option<AttributeValue>; 9],
}

impl View for StyleRecord {
    type V = Map<Property, Value>;

    /// The properties that are set, each with its value.
    closed spec fn view(&self) -> Map<Property, Value> {
        Map::new(
            |property: Property| self.slots@[property.spec_index()] is Some,
            |property: Property| self.slots@[property.spec_index()]->0@,
        )
    }
}

/// Whether a style sets every property.
pub open spec fn complete(style: Map<Property, Value>) -> bool {
    forall|property: Property| style.contains_key(property)
}

/// Whether every value of a style is of the kind of its property.
pub open spec fn well_kinded(style: Map<Property, Value>) -> bool {
    forall|property: Property| #[trigger]
        style.contains_key(property) ==> style[property].kind() == property.kind()
}

impl Clone for StyleRecord {
    fn clone(&self) -> (r: Self)
        ensures
            r@ == self@,
    {
        let mut copy = StyleRecord::new();
        let mut i: usize = 0;
        while i < PROPERTY_COUNT
            invariant
                i <= PROPERTY_COUNT,
                forall|p: Property|
                    #![trigger copy@.contains_key(p)]
                    p.spec_index() < i ==> (copy@.contains_key(p) <==> self@.contains_key(p)) && (
                    copy@.contains_key(p) ==> copy@[p] == self@[p]),
                forall|p: Property|
                    #![trigger copy@.contains_key(p)]
                    p.spec_index() >= i ==> !copy@.contains_key(p),
            decreases PROPERTY_COUNT - i,
        {
            let property = Property::from_index(i).unwrap();
            match self.get(property) {
                Some(value) => {
                    copy.set(property, value.clone());
                },
                None => {},
            }
            i += 1;
        }
        assert(copy@ =~= self@);
        copy
    }
}

impl StyleRecord {
    #[verifier::type_invariant]
    spec fn kinds_fit(self) -> bool {
        well_kinded(self@)
    }

    /// The style that sets nothing.
    pub fn new() -> (r: StyleRecord)
        ensures
            r@ == Map::<Property, Value>::empty(),
    {
        let ghost slots: Seq<Option<AttributeValue>> = seq![
            None,
            None,
            None,
            None,
            None,
            None,
            None,
            None,
            None,
        ];
        proof {
            assert(Map::new(
                |p: Property| slots[p.spec_index()] is Some,
                |p: Property| slots[p.spec_index()]->0@,
            ) =~= Map::<Property, Value>::empty());
        }
        let r = StyleRecord { slots: [None, None, None, None, None, None, None, None, None] };
        assert(r.slots@ =~= slots);
        assert(r@ =~= Map::<Property, Value>::empty());
        r
    }

    /// The value of a property, if the style sets it. A value is always of
    /// the kind of its property.
    pub fn get(&self, property: Property) -> (r: Option<&AttributeValue>)
        ensures
            well_kinded(self@),
            match r {
                Some(value) => self@.contains_key(property) && self@[property] == value@
                    && value@.kind() == property.kind(),
                None => !self@.contains_key(property),
            },
    {
        proof {
            use_type_invariant(self);
        }
        self.slots[property.index()].as_ref()
    }

    /// States what holds of every style: each value is of the kind of its
    /// property. It does nothing when run.
    pub fn kinds_are_right(&self)
        ensures
            well_kinded(self@),
    {
        proof {
            use_type_invariant(self);
        }
    }

    /// Sets a property, in place of the value that it had, if any.
    pub fn set(&mut self, property: Property, value: AttributeValue)
        requires
            value@.kind() == property.kind(),
        ensures
            final(self)@ == old(self)@.insert(property, value@),
    {
        proof {
            use_type_invariant(&*self);
        }
        let ghost before = self@;
        let ghost after = before.insert(property, value@);
        let ghost filled = self.slots@.update(property.spec_index(), Some(value));
        proof {
            assert(Map::new(
                |p: Property| filled[p.spec_index()] is Some,
                |p: Property| filled[p.spec_index()]->0@,
            ) =~= after);
            assert(well_kinded(after));
        }
        self.slots[property.index()] = Some(value);
        assert(self@ =~= after);
    }

    /// Whether the style sets every property.
    pub fn is_complete(&self) -> (r: bool)
        ensures
            r == complete(self@),
    {
        let mut i: usize = 0;
        while i < PROPERTY_COUNT
            invariant
                i <= PROPERTY_COUNT,
                forall|k: int| 0 <= k < i ==> self.slots@[k] is Some,
            decreases PROPERTY_COUNT - i,
        {
            if self.slots[i].is_none() {
                proof {
                    let missing = Property::at(i as int)->0;
                    assert(!self@.contains_key(missing));
                }
                return false;
            }
            i += 1;
        }
        true
    }
}

/// Resolves the attributes of an element into the properties that they set.
pub fn resolve(node: &SyntaxNode) -> (r: Result<StyleRecord, TypeError>)
    ensures
        match r {
            Ok(style) => spec_resolve(node@.tag, node@.attributes) == Ok::<
                Map<Property, Value>,
                TypeFailure,
            >(style@),
            Err(error) => spec_resolve(node@.tag, node@.attributes) == Err::<
                Map<Property, Value>,
                TypeFailure,
            >(error@),
        },
{
    let ghost tag = node@.tag;
    let ghost all = node@.attributes;
    let element = Tag::from_name(node.tag.as_slice());
    let mut style = StyleRecord::new();
    let mut i: usize = 0;
    assert(all.subrange(0, 0) =~= Seq::empty());
    while i < node.attributes.len()
        invariant
            i <= node.attributes.len(),
            tag == node@.tag,
            all == node@.attributes,
            element == Tag::named(tag),
            spec_resolve(tag, all.subrange(0, i as int)) == Ok::<Map<Property, Value>, TypeFailure>(
                style@,
            ),
        decreases node.attributes.len() - i,
    {
        let token = &node.attributes[i];
        proof {
            let next = all.subrange(0, i + 1);
            assert(next.drop_last() =~= all.subrange(0, i as int));
            assert(next.last() == token@);
            if i + 1 < all.len() {
                lemma_resolve_fails_on(tag, all, i + 1);
            } else {
                assert(next =~= all);
            }
        }
        let property = match (element, Property::from_key(token.key.as_slice())) {
            (Some(element), Some(property)) => if element.accepts(property) {
                Some(property)
            } else {
                None
            },
            _ => None,
        };
        match property {
            None => {
                return Err(
                    TypeError::UnknownAttribute(
                        copy_bytes(token.key.as_slice()),
                        copy_bytes(node.tag.as_slice()),
                    ),
                );
            },
            Some(property) => match resolve_value(property, token.raw_value.as_slice()) {
                Err(error) => {
                    return Err(error);
                },
                Ok(value) => {
                    assert(value@.kind() == property.kind());
                    style.set(property, value);
                },
            },
        }
        i += 1;
    }
    proof {
        assert(all.subrange(0, i as int) =~= all);
    }
    Ok(style)
}

/// An error among the first attributes is the error of the whole list.
pub proof fn lemma_resolve_fails_on(tag: Seq<u8>, attributes: Seq<TokenView>, shorter: int)
    requires
        0 <= shorter <= attributes.len(),
    ensures
        spec_resolve(tag, attributes.subrange(0, shorter)) matches Err(failure) ==> spec_resolve(
            tag,
            attributes,
        ) == Err::<Map<Property, Value>, TypeFailure>(failure),
    decreases attributes.len(),
{
    if shorter == attributes.len() {
        assert(attributes.subrange(0, shorter) =~= attributes);
    } else {
        let front = attributes.drop_last();
        assert(front.subrange(0, shorter) =~= attributes.subrange(0, shorter));
        lemma_resolve_fails_on(tag, front, shorter);
    }
}

/// The style in which every property has its default.
pub open spec fn default_style() -> Map<Property, Value> {
    Map::new(|property: Property| true, |property: Property| property.default_value())
}

/// Every property is found under its own key, and under no other.
pub proof fn lemma_property_keys()
    ensures
        forall|property: Property| #[trigger] Property::keyed(property.key()) == Some(property),
        forall|key: Seq<u8>|
            #[trigger] Property::keyed(key) is Some ==> key == Property::keyed(key)->0.key(),
{
    reveal_strlit("width");
    reveal_strlit("height");
    reveal_strlit("color");
    reveal_strlit("background");
    reveal_strlit("font");
    reveal_strlit("font-size");
    reveal_strlit("align");
    reveal_strlit("text");
    reveal_strlit("src");
    lemma_lit("width");
    lemma_lit("height");
    lemma_lit("color");
    lemma_lit("background");
    lemma_lit("font");
    lemma_lit("font-size");
    lemma_lit("align");
    lemma_lit("text");
    lemma_lit("src");
    assert(lit("width").len() == 5 && lit("width")[0] == 0x77);
    assert(lit("height").len() == 6);
    assert(lit("color").len() == 5 && lit("color")[0] == 0x63);
    assert(lit("background").len() == 10);
    assert(lit("font").len() == 4 && lit("font")[0] == 0x66);
    assert(lit("font-size").len() == 9);
    assert(lit("align").len() == 5 && lit("align")[0] == 0x61);
    assert(lit("text").len() == 4 && lit("text")[0] == 0x74);
    assert(lit("src").len() == 3);
    assert forall|property: Property| #[trigger]
        Property::keyed(property.key()) == Some(property) by {
        match property {
            Property::Width => {},
            Property::Height => {},
            Property::Color => {},
            Property::Background => {},
            Property::Font => {},
            Property::FontSize => {},
            Property::Align => {},
            Property::Text => {},
            Property::Source => {},
        }
    }
}

/// Every element is found under its own tag, and under no other.
pub proof fn lemma_tag_names()
    ensures
        forall|element: Tag| #[trigger] Tag::named(element.name()) == Some(element),
        forall|name: Seq<u8>| #[trigger] Tag::named(name) is Some ==> name == Tag::named(name)->0.name(),
{
    reveal_strlit("window");
    reveal_strlit("panel");
    reveal_strlit("label");
    reveal_strlit("image");
    reveal_strlit("#text");
    lemma_lit("window");
    lemma_lit("panel");
    lemma_lit("label");
    lemma_lit("image");
    lemma_lit("#text");
    assert(lit("window").len() == 6);
    assert(lit("panel").len() == 5 && lit("panel")[0] == 0x70);
    assert(lit("label").len() == 5 && lit("label")[0] == 0x6c);
    assert(lit("image").len() == 5 && lit("image")[0] == 0x69);
    assert(lit("#text").len() == 5 && lit("#text")[0] == 0x23);
    assert forall|element: Tag| #[trigger] Tag::named(element.name()) == Some(element) by {
        match element {
            Tag::Window => {},
            Tag::Panel => {},
            Tag::Label => {},
            Tag::Image => {},
            Tag::Text => {},
        }
    }
}

/// The attributes of an element resolve exactly if each of them does.
pub proof fn lemma_resolve_succeeds(tag: Seq<u8>, attributes: Seq<TokenView>)
    ensures
        spec_resolve(tag, attributes) is Ok <==> forall|i: int|
            0 <= i < attributes.len() ==> spec_resolve_token(tag, #[trigger] attributes[i]) is Ok,
    decreases attributes.len(),
{
    if attributes.len() > 0 {
        let front = attributes.drop_last();
        lemma_resolve_succeeds(tag, front);
        if spec_resolve(tag, attributes) is Ok {
            assert forall|i: int| 0 <= i < attributes.len() implies spec_resolve_token(
                tag,
                #[trigger] attributes[i],
            ) is Ok by {
                if i < front.len() {
                    assert(front[i] == attributes[i]);
                }
            }
        }
        if forall|i: int|
            0 <= i < attributes.len() ==> spec_resolve_token(tag, #[trigger] attributes[i]) is Ok {
            assert forall|i: int| 0 <= i < front.len() implies spec_resolve_token(
                tag,
                #[trigger] front[i],
            ) is Ok by {
                assert(front[i] == attributes[i]);
            }
            assert(spec_resolve_token(tag, attributes[attributes.len() - 1]) is Ok);
        }
    }
}

/// Where an attribute is written more than once, the last occurrence counts:
/// a resolved style sets a property exactly if its key is among the
/// attributes, and then to the value of the last attribute with that key.
pub proof fn lemma_last_value_wins(tag: Seq<u8>, attributes: Seq<TokenView>, property: Property)
    requires
        spec_resolve(tag, attributes) is Ok,
    ensures
        ({
            let style = spec_resolve(tag, attributes)->Ok_0;
            let written = last_value(attributes, property.key());
            &&& style.contains_key(property) <==> written is Some
            &&& style.contains_key(property) ==> spec_value(property, written->0) == Ok::<
                Value,
                TypeFailure,
            >(style[property])
        }),
    decreases attributes.len(),
{
    lemma_property_keys();
    if attributes.len() > 0 {
        let front = attributes.drop_last();
        let last = attributes.last();
        lemma_last_value_wins(tag, front, property);
        let set = spec_resolve_token(tag, last)->Ok_0.0;
        assert(Property::keyed(last.key) == Some(set));
        assert(last.key == set.key());
    }
}

/// The values that properties fall back to, made once and handed to every
/// build.
pub struct TypeContext {
    defaults: StyleRecord,
}

impl TypeContext {
    #[verifier::type_invariant]
    spec fn holds_the_defaults(self) -> bool {
        self.defaults@ == default_style()
    }

    /// The defaults that the context holds.
    pub closed spec fn defaults(self) -> Map<Property, Value> {
        self.defaults@
    }

    pub fn new() -> (r: TypeContext)
        ensures
            r.defaults() == default_style(),
    {
        let mut defaults = StyleRecord::new();
        defaults.set(Property::Width, AttributeValue::Length(LengthUnit::Percent, 100));
        defaults.set(Property::Height, AttributeValue::Length(LengthUnit::Percent, 100));
        defaults.set(
            Property::Color,
            AttributeValue::Color(ColorValue::Named(ColorPalette::MildWhite)),
        );
        defaults.set(
            Property::Background,
            AttributeValue::Color(ColorValue::Named(ColorPalette::MildBlack)),
        );
        defaults.set(Property::Font, AttributeValue::Text(Vec::new()));
        defaults.set(Property::FontSize, AttributeValue::Length(LengthUnit::Px, 18));
        defaults.set(Property::Align, AttributeValue::Enum(bytes_of("start")));
        defaults.set(Property::Text, AttributeValue::Text(Vec::new()));
        defaults.set(Property::Source, AttributeValue::Text(Vec::new()));
        assert(defaults@ =~= default_style());
        TypeContext { defaults }
    }

    /// The default of a property.
    pub fn default_of(&self, property: Property) -> (r: &AttributeValue)
        ensures
            r@ == property.default_value(),
    {
        proof {
            use_type_invariant(self);
        }
        self.defaults.get(property).unwrap()
    }
}

} // verus!
