//! Router settings that the tool paths depend on: which kinds of shapes a
//! tool cuts, what kind of cut a tool makes, and how smoothly it moves.
use vstd::prelude::*;
use vstd::string::*;
use vstd::std_specs::cmp::PartialEqSpec;
use vstd::arithmetic::div_mod::lemma_fundamental_div_mod;

verus! {

/// Bit of `ShapeType` for text.
pub const SHAPE_TEXT: u8 = 1;

/// Bit of `ShapeType` for braille.
pub const SHAPE_BRAILLE: u8 = 2;

/// Both shape bits.
pub const SHAPE_ALL: u8 = 3;

/// A set of kinds of shapes, one bit per kind: text and braille.
#[derive(Clone, Copy, Debug, Hash, PartialEq, Eq)]
pub struct ShapeType(pub u8);

/// `bits` holds every bit of `bitmap`.
pub open spec fn has_bits(bits: u8, bitmap: u8) -> bool {
    bits & bitmap == bitmap
}

/// `bits` with the bits of `bitmap` set or cleared.
pub open spec fn with_bits(bits: u8, bitmap: u8, is_on: bool) -> u8 {
    if is_on {
        bits | bitmap
    } else {
        bits & !bitmap
    }
}

impl ShapeType {
    /// The empty set.
    pub fn new() -> (r: Self)
        ensures
            r.0 == 0,
    {
        ShapeType(0)
    }

    /// Text only.
    pub fn text() -> (r: Self)
        ensures
            r.0 == SHAPE_TEXT,
    {
        ShapeType(SHAPE_TEXT)
    }

    /// Braille only.
    pub fn braille() -> (r: Self)
        ensures
            r.0 == SHAPE_BRAILLE,
    {
        ShapeType(SHAPE_BRAILLE)
    }

    /// Text and braille.
    pub fn all() -> (r: Self)
        ensures
            r.0 == SHAPE_ALL,
    {
        ShapeType(SHAPE_ALL)
    }

    fn is_type(&self, bitmap: u8) -> (r: bool)
        ensures
            r == has_bits(self.0, bitmap),
    {
        (self.0 & bitmap) == bitmap
    }

    fn set_type(&mut self, bitmap: u8, is_on: bool)
        ensures
            final(self).0 == with_bits(old(self).0, bitmap, is_on),
    {
        if is_on {
            self.0 = self.0 | bitmap;
        } else {
            let b = self.0;
            self.0 = b & (b ^ bitmap);
            assert(b & (b ^ bitmap) == b & !bitmap) by (bit_vector);
        }
    }

    /// Whether the set holds text.
    pub fn is_text(&self) -> (r: bool)
        ensures
            r == has_bits(self.0, SHAPE_TEXT),
    {
        self.is_type(SHAPE_TEXT)
    }

    /// Whether the set holds braille.
    pub fn is_braille(&self) -> (r: bool)
        ensures
            r == has_bits(self.0, SHAPE_BRAILLE),
    {
        self.is_type(SHAPE_BRAILLE)
    }

    /// Adds text to the set or takes it out.
    pub fn set_text(&mut self, value: bool)
        ensures
            final(self).0 == with_bits(old(self).0, SHAPE_TEXT, value),
    {
        self.set_type(SHAPE_TEXT, value)
    }

    /// Adds braille to the set or takes it out.
    pub fn set_braille(&mut self, value: bool)
        ensures
            final(self).0 == with_bits(old(self).0, SHAPE_BRAILLE, value),
    {
        self.set_type(SHAPE_BRAILLE, value)
    }

    /// Whether every kind in this set is also in `other`.
    pub fn subset_of(&self, other: &Self) -> (r: bool)
        ensures
            r == (self.0 & other.0 == self.0),
    {
        (self.0 & other.0) == self.0
    }
}

/// Setting or clearing the text bit makes `is_text` report that value and
/// leaves every other bit, braille among them, as it was; the same holds of
/// the braille bit.
pub proof fn lemma_shape_bits_independent(bits: u8, value: bool)
    ensures
        has_bits(with_bits(bits, SHAPE_TEXT, value), SHAPE_TEXT) == value,
        has_bits(with_bits(bits, SHAPE_TEXT, value), SHAPE_BRAILLE) == has_bits(bits, SHAPE_BRAILLE),
        with_bits(bits, SHAPE_TEXT, value) & !SHAPE_TEXT == bits & !SHAPE_TEXT,
        has_bits(with_bits(bits, SHAPE_BRAILLE, value), SHAPE_BRAILLE) == value,
        has_bits(with_bits(bits, SHAPE_BRAILLE, value), SHAPE_TEXT) == has_bits(bits, SHAPE_TEXT),
        with_bits(bits, SHAPE_BRAILLE, value) & !SHAPE_BRAILLE == bits & !SHAPE_BRAILLE,
{
    if value {
        assert(has_bits(bits | 1u8, 1u8)) by (bit_vector);
        assert(has_bits(bits | 1u8, 2u8) == has_bits(bits, 2u8)) by (bit_vector);
        assert((bits | 1u8) & !1u8 == bits & !1u8) by (bit_vector);
        assert(has_bits(bits | 2u8, 2u8)) by (bit_vector);
        assert(has_bits(bits | 2u8, 1u8) == has_bits(bits, 1u8)) by (bit_vector);
        assert((bits | 2u8) & !2u8 == bits & !2u8) by (bit_vector);
    } else {
        assert(!has_bits(bits & !1u8, 1u8)) by (bit_vector);
        assert(has_bits(bits & !1u8, 2u8) == has_bits(bits, 2u8)) by (bit_vector);
        assert((bits & !1u8) & !1u8 == bits & !1u8) by (bit_vector);
        assert(!has_bits(bits & !2u8, 2u8)) by (bit_vector);
        assert(has_bits(bits & !2u8, 1u8) == has_bits(bits, 1u8)) by (bit_vector);
        assert((bits & !2u8) & !2u8 == bits & !2u8) by (bit_vector);
    }
}

/// Subsets: every set is a subset of itself and of the set of all bits, the
/// empty set is a subset of every set, and subsets compose.
pub proof fn lemma_subset_order(a: u8, b: u8, c: u8)
    ensures
        a & a == a,
        a & 0xffu8 == a,
        0u8 & a == 0u8,
        (a & b == a) && (b & c == b) ==> a & c == a,
        (a & b == a) && (b & a == b) ==> a == b,
{
    assert(a & a == a) by (bit_vector);
    assert(a & 0xffu8 == a) by (bit_vector);
    assert(0u8 & a == 0u8) by (bit_vector);
    assert((a & b == a) && (b & c == b) ==> a & c == a) by (bit_vector);
    assert((a & b == a) && (b & a == b) ==> a == b) by (bit_vector);
}

/// How finely the router is to follow the programmed path.
#[derive(Clone, Copy, Debug, PartialEq, Eq, Structural)]
pub enum Smoothness {
    Rough,
    Medium,
    Finish,
    NoChange,
}

impl Default for Smoothness {
    fn default() -> (r: Self)
        ensures
            r == Smoothness::NoChange,
    {
        Smoothness::NoChange
    }
}

impl Smoothness {
    /// The number of the setting: 0 for rough up to 3 for no change.
    pub fn raw_value(&self) -> (r: usize)
        ensures
            r == match self {
                Smoothness::Rough => 0usize,
                Smoothness::Medium => 1usize,
                Smoothness::Finish => 2usize,
                Smoothness::NoChange => 3usize,
            },
    {
        match self {
            Smoothness::Rough => 0,
            Smoothness::Medium => 1,
            Smoothness::Finish => 2,
            Smoothness::NoChange => 3,
        }
    }

    /// The setting's name.
    pub fn description(&self) -> (r: String)
        ensures
            r@ == match self {
                Smoothness::Rough => "Rough"@,
                Smoothness::Medium => "Medium"@,
                Smoothness::Finish => "Finish"@,
                Smoothness::NoChange => "No Change"@,
            },
    {
        match self {
            Smoothness::Rough => String::from_str("Rough"),
            Smoothness::Medium => String::from_str("Medium"),
            Smoothness::Finish => String::from_str("Finish"),
            Smoothness::NoChange => String::from_str("No Change"),
        }
    }

    /// The setting as the parameter word of an accuracy command: `P` and one
    /// more than its number, or nothing for no change.
    pub fn parameter_word(&self) -> (r: String)
        ensures
            r@ == match self {
                Smoothness::Rough => "P1"@,
                Smoothness::Medium => "P2"@,
                Smoothness::Finish => "P3"@,
                Smoothness::NoChange => ""@,
            },
    {
        match self {
            Smoothness::Rough => String::from_str("P1"),
            Smoothness::Medium => String::from_str("P2"),
            Smoothness::Finish => String::from_str("P3"),
            Smoothness::NoChange => String::from_str(""),
        }
    }
}

/// The kind of cut a tool makes. Broad cuts clear areas; contours follow the
/// outlines of the shapes whose kinds their `ShapeType` names. The numeric
/// settings of a kind (distances, radii, angles) are not part of it.
#[derive(Clone, Copy, Debug)]
pub enum ToolType {
    /// Clears everything it can reach; whether it is a contour cut.
    FullCutBroad(bool),
    PartialCutBroad,
    SpaceBetweenCutBroad,
    DontAddCutBroad,
    FullContour(ShapeType),
    PartialContourAngle(ShapeType),
    PartialContourRadius(ShapeType),
    PartialContourRadiusOrAngle(ShapeType),
}

/// The number of a kind of cut, by which kinds are compared.
pub open spec fn tool_number(t: ToolType) -> u32 {
    match t {
        ToolType::FullCutBroad(_) => 0,
        ToolType::PartialCutBroad => 1,
        ToolType::SpaceBetweenCutBroad => 2,
        ToolType::DontAddCutBroad => 3,
        ToolType::FullContour(_) => 4,
        ToolType::PartialContourAngle(_) => 5,
        ToolType::PartialContourRadius(_) => 6,
        ToolType::PartialContourRadiusOrAngle(_) => 7,
    }
}

/// The kinds of shapes that a contour cut follows; `None` for broad cuts.
pub open spec fn contour_shapes(t: ToolType) -> Option<ShapeType> {
    match t {
        ToolType::FullContour(s) => Some(s),
        ToolType::PartialContourAngle(s) => Some(s),
        ToolType::PartialContourRadius(s) => Some(s),
        ToolType::PartialContourRadiusOrAngle(s) => Some(s),
        _ => None,
    }
}

/// The cut follows text.
pub open spec fn cuts_text(t: ToolType) -> bool {
    contour_shapes(t) matches Some(s) && has_bits(s.0, SHAPE_TEXT)
}

/// The cut follows braille.
pub open spec fn cuts_braille(t: ToolType) -> bool {
    contour_shapes(t) matches Some(s) && has_bits(s.0, SHAPE_BRAILLE)
}

/// The cut is a broad one: full, between shapes, or one that adds no cut.
pub open spec fn cuts_broad(t: ToolType) -> bool {
    t is FullCutBroad || t is SpaceBetweenCutBroad || t is DontAddCutBroad
}

impl Default for ToolType {
    fn default() -> (r: Self)
        ensures
            r == ToolType::FullCutBroad(false),
    {
        ToolType::FullCutBroad(false)
    }
}

impl PartialEq for ToolType {
    fn eq(&self, other: &Self) -> (r: bool) {
        self.raw_value() == other.raw_value()
    }
}

impl vstd::std_specs::cmp::PartialEqSpecImpl for ToolType {
    open spec fn obeys_eq_spec() -> bool {
        true
    }

    open spec fn eq_spec(&self, other: &ToolType) -> bool {
        tool_number(*self) == tool_number(*other)
    }
}

impl ToolType {
    /// A full contour of text.
    pub fn full_text() -> (r: Self)
        ensures
            r == ToolType::FullContour(ShapeType(SHAPE_TEXT)),
    {
        ToolType::FullContour(ShapeType::text())
    }

    /// A full contour of braille.
    pub fn full_braille() -> (r: Self)
        ensures
            r == ToolType::FullContour(ShapeType(SHAPE_BRAILLE)),
    {
        ToolType::FullContour(ShapeType::braille())
    }

    /// A full contour of every kind of shape.
    pub fn full_contour_all() -> (r: Self)
        ensures
            r == ToolType::FullContour(ShapeType(SHAPE_ALL)),
    {
        ToolType::FullContour(ShapeType::all())
    }

    /// The name of the kind of cut.
    pub fn description(&self) -> (r: String)
        ensures
            r@ == match self {
                ToolType::FullCutBroad(_) => "Full Cut Broad"@,
                ToolType::PartialCutBroad => "Partial Cut Broad"@,
                ToolType::SpaceBetweenCutBroad => "Space Between Cut Broad"@,
                ToolType::DontAddCutBroad => "Don't Add Cut Broad"@,
                ToolType::FullContour(_) => "Full Contour"@,
                ToolType::PartialContourAngle(_) => "Partial Contour Angle"@,
                ToolType::PartialContourRadius(_) => "Partial Contour Radius"@,
                ToolType::PartialContourRadiusOrAngle(_) => "Partial Contour Radius Or Angle"@,
            },
    {
        match self {
            ToolType::FullCutBroad(_) => String::from_str("Full Cut Broad"),
            ToolType::PartialCutBroad => String::from_str("Partial Cut Broad"),
            ToolType::SpaceBetweenCutBroad => String::from_str("Space Between Cut Broad"),
            ToolType::DontAddCutBroad => String::from_str("Don't Add Cut Broad"),
            ToolType::FullContour(_) => String::from_str("Full Contour"),
            ToolType::PartialContourAngle(_) => String::from_str("Partial Contour Angle"),
            ToolType::PartialContourRadius(_) => String::from_str("Partial Contour Radius"),
            ToolType::PartialContourRadiusOrAngle(_) => String::from_str(
                "Partial Contour Radius Or Angle",
            ),
        }
    }

    /// The number of the kind of cut.
    pub fn raw_value(&self) -> (r: u32)
        ensures
            r == tool_number(*self),
    {
        match self {
            ToolType::FullCutBroad(_) => 0,
            ToolType::PartialCutBroad => 1,
            ToolType::SpaceBetweenCutBroad => 2,
            ToolType::DontAddCutBroad => 3,
            ToolType::FullContour(_) => 4,
            ToolType::PartialContourAngle(_) => 5,
            ToolType::PartialContourRadius(_) => 6,
            ToolType::PartialContourRadiusOrAngle(_) => 7,
        }
    }

    /// Whether the tool cuts everything it reaches: a full broad cut or a
    /// full contour.
    pub fn full_cut(self) -> (r: bool)
        ensures
            r == (self is FullCutBroad || self is FullContour),
    {
        match self {
            ToolType::FullCutBroad(_) => true,
            ToolType::FullContour(_) => true,
            _ => false,
        }
    }

    /// Whether the tool adds no cut of its own.
    pub fn dont_add_cut(self) -> (r: bool)
        ensures
            r == (self is DontAddCutBroad),
    {
        self == ToolType::DontAddCutBroad
    }

    /// Whether the tool follows text.
    pub fn is_text(self) -> (r: bool)
        ensures
            r == cuts_text(self),
    {
        match self {
            ToolType::FullContour(shape_type) => shape_type.is_text(),
            ToolType::PartialContourAngle(shape_type) => shape_type.is_text(),
            ToolType::PartialContourRadius(shape_type) => shape_type.is_text(),
            ToolType::PartialContourRadiusOrAngle(shape_type) => shape_type.is_text(),
            _ => false,
        }
    }

    /// Whether the tool follows braille.
    pub fn is_braille(self) -> (r: bool)
        ensures
            r == cuts_braille(self),
    {
        match self {
            ToolType::FullContour(shape_type) => shape_type.is_braille(),
            ToolType::PartialContourAngle(shape_type) => shape_type.is_braille(),
            ToolType::PartialContourRadius(shape_type) => shape_type.is_braille(),
            ToolType::PartialContourRadiusOrAngle(shape_type) => shape_type.is_braille(),
            _ => false,
        }
    }

    /// Whether the tool makes a broad cut.
    pub fn is_broad(self) -> (r: bool)
        ensures
            r == cuts_broad(self),
    {
        if let ToolType::FullCutBroad(_) = self {
            true
        } else if ToolType::PartialCutBroad == self {
            false
        } else if let ToolType::SpaceBetweenCutBroad = self {
            true
        } else {
            ToolType::DontAddCutBroad == self
        }
    }

    /// Whether the two tools share a text, braille or broad cut.
    pub fn is_same_type(&self, other: &ToolType) -> (r: bool)
        ensures
            r == ((cuts_text(*self) && cuts_text(*other)) || (cuts_braille(*self) && cuts_braille(*other))
                || (cuts_broad(*self) && cuts_broad(*other))),
    {
        (self.is_text() && other.is_text()) || (self.is_braille() && other.is_braille()) || (
        self.is_broad() && other.is_broad())
    }

    /// The kinds of shapes the tool follows.
    pub fn to_shape_type(&self) -> (r: ShapeType)
        ensures
            has_bits(r.0, SHAPE_TEXT) == cuts_text(*self),
            has_bits(r.0, SHAPE_BRAILLE) == cuts_braille(*self),
            r.0 & !SHAPE_ALL == 0,
    {
        let mut shape_type = ShapeType::new();
        if self.is_text() {
            shape_type.set_text(true);
        }
        let ghost after_text = shape_type.0;
        if self.is_braille() {
            shape_type.set_braille(true);
        }
        proof {
            let t = cuts_text(*self);
            let b = cuts_braille(*self);
            let v = shape_type.0;
            if t {
                assert(after_text == 0u8 | 1u8);
            } else {
                assert(after_text == 0u8);
            }
            if b {
                assert(v == after_text | 2u8);
            } else {
                assert(v == after_text);
            }
            assert(has_bits(0u8 | 1u8, 1u8) && !has_bits(0u8, 1u8) && has_bits((0u8 | 1u8) | 2u8, 1u8)
                && !has_bits(0u8 | 2u8, 1u8)) by (bit_vector);
            assert(!has_bits(0u8 | 1u8, 2u8) && !has_bits(0u8, 2u8) && has_bits((0u8 | 1u8) | 2u8, 2u8)
                && has_bits(0u8 | 2u8, 2u8)) by (bit_vector);
            assert((0u8 | 1u8) & !3u8 == 0 && 0u8 & !3u8 == 0 && ((0u8 | 1u8) | 2u8) & !3u8 == 0 && (0u8
                | 2u8) & !3u8 == 0) by (bit_vector);
        }
        shape_type
    }

    /// Whether the tool follows text or braille.
    pub fn is_text_or_braille(&self) -> (r: bool)
        ensures
            r == (cuts_text(*self) || cuts_braille(*self)),
    {
        self.is_text() || self.is_braille()
    }
}

/// What the spindle is doing.
#[derive(Clone, Copy, Debug, PartialEq, Eq, Structural)]
pub enum SpindleState {
    Off,
    Clockwise,
    CounterClockwise,
}

/// The settings of a router that decide the text of the G-code lines written
/// to it: the command word of the last line, whether lines carry
/// explanations, and the modes that later commands read back.
///
/// Each command method returns the text to write, newline included; positions,
/// speeds and the tool table are formatted by the caller and handed over as
/// text.
pub struct CNCRouter {
    last_command: String,
    verbose: bool,
    spindle_state: SpindleState,
    is_flood_colant_on: bool,
    exact_stop_change_y: bool,
}

/// The abstract state of a `CNCRouter`.
pub struct RouterView {
    pub last_command: Seq<char>,
    pub verbose: bool,
    pub spindle_state: SpindleState,
    pub flood_coolant_on: bool,
    pub exact_stop_change_y: bool,
}

impl View for CNCRouter {
    type V = RouterView;

    closed spec fn view(&self) -> RouterView {
        RouterView {
            last_command: self.last_command@,
            verbose: self.verbose,
            spindle_state: self.spindle_state,
            flood_coolant_on: self.is_flood_colant_on,
            exact_stop_change_y: self.exact_stop_change_y,
        }
    }
}

/// The rapid and the linear move: the two command words that are not repeated
/// on consecutive lines.
pub open spec fn is_motion_word(command: Seq<char>) -> bool {
    command == seq!['G', '0', '0'] || command == seq!['G', '0', '1']
}

/// The command word that a line starts with, followed by a space; nothing when
/// it repeats the previous line's rapid or linear move.
pub open spec fn command_word(last: Seq<char>, command: Seq<char>) -> Seq<char> {
    if last == command && is_motion_word(command) {
        Seq::empty()
    } else {
        command.push(' ')
    }
}

/// An explanation that is written only in verbose mode.
pub open spec fn note(verbose: bool, text: Seq<char>) -> Seq<char> {
    if verbose {
        text
    } else {
        Seq::empty()
    }
}

/// The line written for `command` with the parameters `rest`, after a line
/// whose command word was `last`.
pub open spec fn command_line(last: Seq<char>, command: Seq<char>, rest: Seq<char>) -> Seq<char> {
    command_word(last, command) + rest + seq!['\n']
}

/// The line written for `command` by a router in state `v`, with the
/// parameters `rest` and the explanation `text`.
pub open spec fn noted_line(v: RouterView, command: Seq<char>, rest: Seq<char>, text: Seq<char>) -> Seq<char> {
    command_line(v.last_command, command, rest + note(v.verbose, text))
}

/// The state of a router after it wrote a line for `command`.
pub open spec fn after_command(v: RouterView, command: Seq<char>) -> RouterView {
    RouterView { last_command: command, ..v }
}

/// The digit for `d`, which is below ten.
pub open spec fn digit_char(d: nat) -> char {
    (48 + d) as char
}

/// The decimal numeral of `n`, without leading zeros.
pub open spec fn decimal(n: nat) -> Seq<char>
    decreases n,
{
    if n < 10 {
        seq![digit_char(n)]
    } else {
        decimal(n / 10).push(digit_char(n % 10))
    }
}

fn digit_str(d: u64) -> (r: &'static str)
    requires
        d < 10,
    ensures
        r@ == seq![digit_char(d as nat)],
{
    proof {
        reveal_strlit("0");
        reveal_strlit("1");
        reveal_strlit("2");
        reveal_strlit("3");
        reveal_strlit("4");
        reveal_strlit("5");
        reveal_strlit("6");
        reveal_strlit("7");
        reveal_strlit("8");
        reveal_strlit("9");
    }
    if d == 0 {
        "0"
    } else if d == 1 {
        "1"
    } else if d == 2 {
        "2"
    } else if d == 3 {
        "3"
    } else if d == 4 {
        "4"
    } else if d == 5 {
        "5"
    } else if d == 6 {
        "6"
    } else if d == 7 {
        "7"
    } else if d == 8 {
        "8"
    } else {
        "9"
    }
}

/// Appends the decimal numeral of `n` to `s`.
pub fn append_decimal(s: &mut String, n: u64)
    ensures
        final(s)@ == old(s)@ + decimal(n as nat),
    decreases n,
{
    if n >= 10 {
        append_decimal(s, n / 10);
    }
    let d = digit_str(n % 10);
    s.append(d);
    proof {
        if n >= 10 {
            assert(decimal(n as nat) == decimal((n / 10) as nat).push(digit_char((n % 10) as nat)));
        }
    }
}

/// The decimal numeral of `n`.
pub fn decimal_string(n: u64) -> (r: String)
    ensures
        r@ == decimal(n as nat),
{
    let mut s = String::new();
    append_decimal(&mut s, n);
    s
}

impl CNCRouter {
    /// A router that has written nothing yet: the spindle off, flood coolant
    /// on, no exact stop on a change of y.
    pub fn from(verbose: bool) -> (r: Self)
        ensures
            r@ == (RouterView {
                last_command: Seq::empty(),
                verbose,
                spindle_state: SpindleState::Off,
                flood_coolant_on: true,
                exact_stop_change_y: false,
            }),
    {
        CNCRouter {
            last_command: String::new(),
            verbose,
            spindle_state: SpindleState::Off,
            is_flood_colant_on: true,
            exact_stop_change_y: false,
        }
    }

    fn format_command(&mut self, new_command: String) -> (r: String)
        ensures
            r@ == command_word(old(self)@.last_command, new_command@),
            final(self)@ == after_command(old(self)@, new_command@),
    {
        let rapid = String::from_str("G00");
        let linear = String::from_str("G01");
        proof {
            reveal_strlit("G00");
            reveal_strlit("G01");
        }
        assert(rapid@ =~= seq!['G', '0', '0']);
        assert(linear@ =~= seq!['G', '0', '1']);
        if self.last_command == new_command && (new_command == rapid || new_command == linear) {
            return String::new();
        }
        self.last_command = new_command;
        let r = self.last_command.clone().concat(" ");
        proof {
            reveal_strlit(" ");
            assert(r@ =~= self.last_command@.push(' '));
        }
        r
    }

    fn format_command_str(&mut self, new_command: &str) -> (r: String)
        ensures
            r@ == command_word(old(self)@.last_command, new_command@),
            final(self)@ == after_command(old(self)@, new_command@),
    {
        self.format_command(String::from_str(new_command))
    }

    /// The line for `command` with the parameters `line`; the command word is
    /// left out where it repeats the previous rapid or linear move.
    pub fn write_gcode_command(&mut self, command: &str, line: &str) -> (r: String)
        ensures
            r@ == command_line(old(self)@.last_command, command@, line@),
            final(self)@ == after_command(old(self)@, command@),
    {
        let c = self.format_command_str(command);
        let r = c.concat(line).concat("\n");
        proof {
            reveal_strlit("\n");
        }
        r
    }

    /// Turns the explanations on or off.
    pub fn set_verbose(&mut self, verbose: bool)
        ensures
            final(self)@ == (RouterView { verbose, ..old(self)@ }),
    {
        self.verbose = verbose;
    }

    /// Whether lines carry explanations.
    pub fn get_verbose(&self) -> (r: bool)
        ensures
            r == self@.verbose,
    {
        self.verbose
    }

    fn verbose_string(&self, s: String) -> (r: String)
        ensures
            r@ == note(self@.verbose, s@),
    {
        if self.verbose {
            s
        } else {
            String::new()
        }
    }

    fn verbose_str<'a>(&self, s: &'a str) -> (r: &'a str)
        ensures
            r@ == note(self@.verbose, s@),
    {
        proof {
            reveal_strlit("");
        }
        if self.verbose {
            s
        } else {
            ""
        }
    }

    /// Forgets the last command word, for when the machine's modes are no
    /// longer known (after a subprogram, say): the next line writes its word.
    pub fn reset_settings(&mut self)
        ensures
            final(self)@ == after_command(old(self)@, Seq::empty()),
    {
        self.last_command = String::new();
    }

    /// Forgets the last command word.
    pub fn clear_gcode_command(&mut self)
        ensures
            final(self)@ == after_command(old(self)@, Seq::empty()),
    {
        self.last_command = String::new();
    }

    fn noted_command(&mut self, command: &str, rest: &str, text: &str) -> (r: String)
        ensures
            r@ == noted_line(old(self)@, command@, rest@, text@),
            final(self)@ == after_command(old(self)@, command@),
    {
        let n = self.verbose_str(text);
        let line = String::from_str(rest).concat(n);
        self.write_gcode_command(command, line.as_str())
    }

    fn command_with_note(&mut self, command: &str, text: &str) -> (r: String)
        ensures
            r@ == noted_line(old(self)@, command@, Seq::empty(), text@),
            final(self)@ == after_command(old(self)@, command@),
    {
        proof {
            reveal_strlit("");
        }
        self.noted_command(command, "", text)
    }

    /// Calls the subprogram `program`.
    pub fn run_subprogram(&mut self, program: &str) -> (r: String)
        ensures
            r@ == noted_line(old(self)@, "M98"@, "P"@ + program@, " ( TOOL MSR )"@),
            final(self)@ == after_command(old(self)@, "M98"@),
    {
        let rest = String::from_str("P").concat(program);
        self.noted_command("M98", rest.as_str(), " ( TOOL MSR )")
    }

    /// Stops the program until the operator resumes it.
    pub fn program_stop(&mut self) -> (r: String)
        ensures
            r@ == noted_line(old(self)@, "M00"@, Seq::empty(), "( Program Stop )"@),
            final(self)@ == after_command(old(self)@, "M00"@),
    {
        self.command_with_note("M00", "( Program Stop )")
    }

    /// Raises the spindle to the machine's zero height, then moves to the
    /// loading position.
    pub fn reset_home_and_return(&mut self) -> (r: String)
        ensures
            r@ == command_line(old(self)@.last_command, "G53"@, "G0 Z0."@)
                + command_line("G53"@, "X4.3125"@, ""@)
                + command_line("X4.3125"@, "G53"@, "G0 Y0."@),
            final(self)@ == after_command(old(self)@, "G53"@),
    {
        let a = self.write_gcode_command("G53", "G0 Z0.");
        let b = self.write_gcode_command("X4.3125", "");
        let c = self.write_gcode_command("G53", "G0 Y0.");
        a.concat(b.as_str()).concat(c.as_str())
    }

    /// Ends the program.
    pub fn end_program(&mut self) -> (r: String)
        ensures
            r@ == noted_line(old(self)@, "M02"@, Seq::empty(), "(End of program)"@),
            final(self)@ == after_command(old(self)@, "M02"@),
    {
        self.command_with_note("M02", "(End of program)")
    }

    /// Ends the program and rewinds it, closing it with a `%` line.
    pub fn end_program2(&mut self) -> (r: String)
        ensures
            r@ == noted_line(old(self)@, "M30"@, Seq::empty(), "(End of program)"@) + "%\n"@,
            final(self)@ == after_command(old(self)@, "M30"@),
    {
        let line = self.command_with_note("M30", "(End of program)");
        line.concat("%\n")
    }

    /// Starts heating the extruder of a printer.
    pub fn start_extruding_heat(&mut self) -> (r: String)
        ensures
            r@ == noted_line(old(self)@, "M104"@, Seq::empty(), " (Start extruder heating.)"@),
            final(self)@ == after_command(old(self)@, "M104"@),
    {
        self.command_with_note("M104", " (Start extruder heating.)")
    }

    /// Starts heating the bed of a printer.
    pub fn start_bed_heat(&mut self) -> (r: String)
        ensures
            r@ == noted_line(old(self)@, "M190"@, Seq::empty(), " (Start bed heating.)"@),
            final(self)@ == after_command(old(self)@, "M190"@),
    {
        self.command_with_note("M190", " (Start bed heating.)")
    }

    /// Starts the spindle at `speed` (written as the caller formatted it),
    /// counter-clockwise or clockwise. The line has no command word, and the
    /// next line writes its word.
    pub fn set_spindle_on(&mut self, counter_clockwise: bool, speed: &str) -> (r: String)
        ensures
            r@ == "S"@ + speed@ + (if counter_clockwise { " M04"@ } else { " M03"@ })
                + note(old(self)@.verbose, if counter_clockwise {
                    " (Set spindle on to counter clockwise.)"@
                } else {
                    " (Set spindle on to clockwise.)"@
                }) + "\n"@,
            final(self)@ == (RouterView {
                last_command: Seq::empty(),
                spindle_state: if counter_clockwise {
                    SpindleState::CounterClockwise
                } else {
                    SpindleState::Clockwise
                },
                ..old(self)@
            }),
    {
        self.spindle_state = if counter_clockwise {
            SpindleState::CounterClockwise
        } else {
            SpindleState::Clockwise
        };
        proof {
            reveal_strlit("");
            assert(""@ =~= Seq::<char>::empty());
        }
        let _ = self.format_command_str("");
        let direction = if counter_clockwise { " M04" } else { " M03" };
        let text = if counter_clockwise {
            " (Set spindle on to counter clockwise.)"
        } else {
            " (Set spindle on to clockwise.)"
        };
        let n = self.verbose_str(text);
        String::from_str("S").concat(speed).concat(direction).concat(n).concat("\n")
    }

    /// Stops the spindle.
    pub fn set_spindle_off(&mut self) -> (r: String)
        ensures
            r@ == noted_line(old(self)@, "M05"@, Seq::empty(), " (Turn off the spindle.)"@),
            final(self)@ == (RouterView {
                last_command: "M05"@,
                spindle_state: SpindleState::Off,
                ..old(self)@
            }),
    {
        self.spindle_state = SpindleState::Off;
        self.command_with_note("M05", " (Turn off the spindle.)")
    }

    /// Sets how finely the path is followed.
    pub fn set_accuracy_control(&mut self, smoothness: Smoothness) -> (r: String)
        ensures
            r@ == noted_line(
                old(self)@,
                "G187"@,
                smoothness_word(smoothness),
                " (Set accuracy to "@ + smoothness_name(smoothness) + ".)"@,
            ),
            final(self)@ == after_command(old(self)@, "G187"@),
    {
        let word = smoothness.parameter_word();
        let text = String::from_str(" (Set accuracy to ").concat(smoothness.description().as_str()).concat(".)");
        self.noted_command("G187", word.as_str(), text.as_str())
    }

    /// Turns the flood coolant on or off.
    pub fn set_flood_colant(&mut self, is_on: bool) -> (r: String)
        ensures
            r@ == noted_line(
                old(self)@,
                if is_on { "M08"@ } else { "M09"@ },
                Seq::empty(),
                if is_on { "Set flood colant on."@ } else { "Set flood colant off."@ },
            ),
            final(self)@ == (RouterView {
                last_command: if is_on { "M08"@ } else { "M09"@ },
                flood_coolant_on: is_on,
                ..old(self)@
            }),
    {
        self.is_flood_colant_on = is_on;
        if is_on {
            self.command_with_note("M08", "Set flood colant on.")
        } else {
            self.command_with_note("M09", "Set flood colant off.")
        }
    }

    /// Makes the next line an exact stop: writes `G09 ` with no line end,
    /// after an explanation line in verbose mode.
    pub fn exact_stop_next_command(&self) -> (r: String)
        ensures
            r@ == note(self@.verbose, "(G09 makes the line exact stop)\n"@) + "G09 "@,
    {
        let n = self.verbose_str("(G09 makes the line exact stop)\n");
        String::from_str(n).concat("G09 ")
    }

    /// Feed rates are in units per minute from here on.
    pub fn set_feed_rate_to_units_per_minute(&mut self) -> (r: String)
        ensures
            r@ == noted_line(old(self)@, "G94"@, Seq::empty(), " (Set feed rate to units per minute.)"@),
            final(self)@ == after_command(old(self)@, "G94"@),
    {
        self.command_with_note("G94", " (Set feed rate to units per minute.)")
    }

    /// Feed rates are in units per spindle revolution from here on.
    pub fn set_feed_rate_to_units_per_revelution(&mut self) -> (r: String)
        ensures
            r@ == noted_line(old(self)@, "G95"@, Seq::empty(), " (Set feed rate to units per revelution.)"@),
            final(self)@ == after_command(old(self)@, "G95"@),
    {
        self.command_with_note("G95", " (Set feed rate to units per revelution.)")
    }

    /// Positions are absolute from here on.
    pub fn set_absolute_mode(&mut self) -> (r: String)
        ensures
            r@ == noted_line(old(self)@, "G90"@, Seq::empty(), " (Set to absolute mode.)"@),
            final(self)@ == after_command(old(self)@, "G90"@),
    {
        self.command_with_note("G90", " (Set to absolute mode.)")
    }

    /// Positions are relative from here on; this line is explained in every
    /// mode.
    pub fn set_relative_mode(&mut self) -> (r: String)
        ensures
            r@ == command_line(old(self)@.last_command, "G91"@, " (G91 changing to relative mode)"@),
            final(self)@ == after_command(old(self)@, "G91"@),
    {
        self.write_gcode_command("G91", " (G91 changing to relative mode)")
    }

    /// Positions are polar from here on.
    pub fn set_polar_coordinates(&mut self) -> (r: String)
        ensures
            r@ == noted_line(old(self)@, "G15"@, Seq::empty(), "Set to polar coordinates"@),
            final(self)@ == after_command(old(self)@, "G15"@),
    {
        self.command_with_note("G15", "Set to polar coordinates")
    }

    /// Turns the stored stroke check on or off.
    pub fn set_stroke_limit(&mut self, is_on: bool) -> (r: String)
        ensures
            r@ == noted_line(
                old(self)@,
                if is_on { "G22"@ } else { "G23"@ },
                Seq::empty(),
                if is_on { " (Stored stroke check on.)"@ } else { " (Stored stroke check off.)"@ },
            ),
            final(self)@ == after_command(old(self)@, if is_on { "G22"@ } else { "G23"@ }),
    {
        if is_on {
            self.command_with_note("G22", " (Stored stroke check on.)")
        } else {
            self.command_with_note("G23", " (Stored stroke check off.)")
        }
    }

    /// Spindle speed fluctuation detection: the command is composed but never
    /// written, so there is nothing to write and the state stays as it was.
    pub fn set_spindle_speed_fluctuation_detect(&mut self, is_on: bool) -> (r: String)
        ensures
            r@ == Seq::<char>::empty(),
            final(self)@ == old(self)@,
    {
        String::new()
    }

    /// A machine zero position check before each of `commands`: a `G27` line,
    /// then the command on a line of its own. Afterwards the last command word
    /// is forgotten.
    pub fn check_for_zero_position(&mut self, commands: Vec<String>) -> (r: String)
        ensures
            r@ == zero_checks(old(self)@, commands@),
            final(self)@ == after_command(old(self)@, Seq::empty()),
    {
        let ghost v = self@;
        let mut out = String::new();
        let mut i: usize = 0;
        while i < commands.len()
            invariant
                i <= commands.len(),
                out@ == zero_checks(v, commands@.take(i as int)),
                self@ == (if i == 0 { v } else { after_command(v, "G27"@) }),
            decreases commands.len() - i,
        {
            let line = self.command_with_note("G27", " (Machine zero position check.)");
            out = out.concat(line.as_str()).concat(commands[i].as_str()).concat("\n");
            proof {
                reveal_strlit("\n");
                assert(commands@.take(i + 1).drop_last() =~= commands@.take(i as int));
            }
            i = i + 1;
        }
        proof {
            assert(commands@.take(i as int) =~= commands@);
        }
        self.clear_gcode_command();
        out
    }

    /// Waits `milliseconds` before the next move.
    pub fn dewel(&mut self, milliseconds: u64) -> (r: String)
        ensures
            r@ == noted_line(
                old(self)@,
                "G04"@,
                "P"@ + decimal(milliseconds as nat),
                " (Dewel for "@ + decimal(milliseconds as nat) + " milliseconds.)"@,
            ),
            final(self)@ == after_command(old(self)@, "G04"@),
    {
        let n = decimal_string(milliseconds);
        let rest = String::from_str("P").concat(n.as_str());
        let text = String::from_str(" (Dewel for ").concat(n.as_str()).concat(" milliseconds.)");
        self.noted_command("G04", rest.as_str(), text.as_str())
    }

    /// Cancels the cutter radius offset.
    pub fn cancel_cutter_radius_offset(&mut self) -> (r: String)
        ensures
            r@ == noted_line(old(self)@, "G40"@, Seq::empty(), " (Cutter radius offset cancel.)"@),
            final(self)@ == after_command(old(self)@, "G40"@),
    {
        self.command_with_note("G40", " (Cutter radius offset cancel.)")
    }

    /// Offsets the cutter radius to the left.
    pub fn cancel_cutter_radius_offset_left(&mut self) -> (r: String)
        ensures
            r@ == noted_line(old(self)@, "G41"@, Seq::empty(), " (Cutter radius offset left.)"@),
            final(self)@ == after_command(old(self)@, "G41"@),
    {
        self.command_with_note("G41", " (Cutter radius offset left.)")
    }

    /// Offsets the cutter radius to the right.
    pub fn cancel_cutter_radius_offset_right(&mut self) -> (r: String)
        ensures
            r@ == noted_line(old(self)@, "G42"@, Seq::empty(), " (Cutter radius offset right.)"@),
            final(self)@ == after_command(old(self)@, "G42"@),
    {
        self.command_with_note("G42", " (Cutter radius offset right.)")
    }

    /// Applies the length offset of the tool numbered `tool_index`.
    pub fn set_tool_offset_positive(&mut self, tool_index: usize) -> (r: String)
        ensures
            r@ == noted_line(
                old(self)@,
                "G43"@,
                "H"@ + decimal(tool_index as nat) + " "@,
                " (Set tool offset for tool "@ + decimal(tool_index as nat) + ".)"@,
            ),
            final(self)@ == after_command(old(self)@, "G43"@),
    {
        let n = decimal_string(tool_index as u64);
        let rest = String::from_str("H").concat(n.as_str()).concat(" ");
        let text = String::from_str(" (Set tool offset for tool ").concat(n.as_str()).concat(".)");
        self.noted_command("G43", rest.as_str(), text.as_str())
    }

    /// Applies the negative length offset of the tool numbered `tool_index`.
    pub fn set_tool_offset_negative(&mut self, tool_index: usize) -> (r: String)
        ensures
            r@ == noted_line(
                old(self)@,
                "G44"@,
                "H"@ + decimal(tool_index as nat),
                " (Set tool negative offset for tool "@ + decimal(tool_index as nat) + ".)"@,
            ),
            final(self)@ == after_command(old(self)@, "G44"@),
    {
        let n = decimal_string(tool_index as u64);
        let rest = String::from_str("H").concat(n.as_str());
        let text = String::from_str(" (Set tool negative offset for tool ").concat(n.as_str()).concat(".)");
        self.noted_command("G44", rest.as_str(), text.as_str())
    }

    /// Cancels the tool length compensation.
    pub fn cancel_tool_length_compensation(&mut self) -> (r: String)
        ensures
            r@ == noted_line(old(self)@, "G49"@, Seq::empty(), " (Cancel tool length compensation.)"@),
            final(self)@ == after_command(old(self)@, "G49"@),
    {
        self.command_with_note("G49", " (Cancel tool length compensation.)")
    }

    /// Cancels scaling.
    pub fn scaling_factor_off(&mut self) -> (r: String)
        ensures
            r@ == noted_line(old(self)@, "G50"@, Seq::empty(), " (Cancel scaling factor.)"@),
            final(self)@ == after_command(old(self)@, "G50"@),
    {
        self.command_with_note("G50", " (Cancel scaling factor.)")
    }

    /// Moves the origin of work coordinate system `work_coordinate` (1 to 9)
    /// to `position`, written as the caller formatted it.
    pub fn set_work_coordinate(&mut self, work_coordinate: usize, position: &str) -> (r: String)
        ensures
            r@ == noted_line(
                old(self)@,
                work_coordinate_word(work_coordinate as nat),
                position@,
                " (Sets the work coordinate.)"@,
            ),
            final(self)@ == after_command(old(self)@, work_coordinate_word(work_coordinate as nat)),
    {
        let command = if work_coordinate >= 6 {
            String::from_str("G59.").concat(decimal_string((work_coordinate - 6) as u64).as_str())
        } else {
            decimal_string((work_coordinate + 53) as u64)
        };
        self.noted_command(command.as_str(), position, " (Sets the work coordinate.)")
    }

    /// Turns exact stop mode on.
    pub fn turn_on_exact_stop_mode(&mut self) -> (r: String)
        ensures
            r@ == noted_line(old(self)@, "G61"@, Seq::empty(), " (Turns on exact stop mode.)"@),
            final(self)@ == after_command(old(self)@, "G61"@),
    {
        self.command_with_note("G61", " (Turns on exact stop mode.)")
    }

    /// Whether paths stop exactly where y changes.
    pub fn set_exact_stop_on_y_change(&mut self, value: bool)
        ensures
            final(self)@ == (RouterView { exact_stop_change_y: value, ..old(self)@ }),
    {
        self.exact_stop_change_y = value;
    }

    /// Turns automatic corner override mode on.
    pub fn turn_on_automatic_corner_override_mode(&mut self) -> (r: String)
        ensures
            r@ == noted_line(old(self)@, "G62"@, "G62"@, " (Automatic corner override mode.)"@),
            final(self)@ == after_command(old(self)@, "G62"@),
    {
        self.noted_command("G62", "G62", " (Automatic corner override mode.)")
    }

    /// Cancels the rotation of the coordinate system.
    pub fn coordinate_system_rotation_cancel(&mut self) -> (r: String)
        ensures
            r@ == noted_line(old(self)@, "G69"@, Seq::empty(), " (Cancel coordinate system rotating.)"@),
            final(self)@ == after_command(old(self)@, "G69"@),
    {
        self.command_with_note("G69", " (Cancel coordinate system rotating.)")
    }

    /// Cancels fixed cycles; a rapid move must follow.
    pub fn fixed_cycle_cancel(&mut self) -> (r: String)
        ensures
            r@ == noted_line(
                old(self)@,
                "G80"@,
                Seq::empty(),
                " (Cancels fixed cycles. Must use G00 after this instruction.)"@,
            ),
            final(self)@ == after_command(old(self)@, "G80"@),
    {
        self.command_with_note("G80", " (Cancels fixed cycles. Must use G00 after this instruction.)")
    }

    /// Turns the fan on or off.
    pub fn turn_fan(&mut self, is_on: bool) -> (r: String)
        ensures
            r@ == noted_line(
                old(self)@,
                if is_on { "M83"@ } else { "M84"@ },
                Seq::empty(),
                if is_on { " (Turn on fan.)"@ } else { " (Turn off fan.)"@ },
            ),
            final(self)@ == after_command(old(self)@, if is_on { "M83"@ } else { "M84"@ }),
    {
        if is_on {
            self.command_with_note("M83", " (Turn on fan.)")
        } else {
            self.command_with_note("M84", " (Turn off fan.)")
        }
    }

    /// Stops the drilling cycle.
    pub fn stop_drilling_cycle(&mut self) -> (r: String)
        ensures
            r@ == noted_line(old(self)@, "G82"@, Seq::empty(), " (Stop drilling cycle.)"@),
            final(self)@ == after_command(old(self)@, "G82"@),
    {
        self.command_with_note("G82", " (Stop drilling cycle.)")
    }

    /// Arcs are in the XY plane from here on.
    pub fn use_xy_plane(&mut self) -> (r: String)
        ensures
            r@ == noted_line(old(self)@, "G17"@, Seq::empty(), " (Switch to XY plane)"@),
            final(self)@ == after_command(old(self)@, "G17"@),
    {
        self.command_with_note("G17", " (Switch to XY plane)")
    }

    /// Arcs are in the XZ plane from here on.
    pub fn use_xz_plane(&mut self) -> (r: String)
        ensures
            r@ == noted_line(old(self)@, "G18"@, Seq::empty(), " (Switch to XZ plane)"@),
            final(self)@ == after_command(old(self)@, "G18"@),
    {
        self.command_with_note("G18", " (Switch to XZ plane)")
    }

    /// Arcs are in the YZ plane from here on.
    pub fn use_yz_plane(&mut self) -> (r: String)
        ensures
            r@ == noted_line(old(self)@, "G19"@, Seq::empty(), " (Switch to YZ plane)"@),
            final(self)@ == after_command(old(self)@, "G19"@),
    {
        self.command_with_note("G19", " (Switch to YZ plane)")
    }

    /// A rapid move to `position`, written as the caller formatted it.
    pub fn move_to_coordinate_rapid(&mut self, position: &str) -> (r: String)
        ensures
            r@ == noted_line(old(self)@, "G00"@, position@, " (Moves to position specified rapid.)"@),
            final(self)@ == after_command(old(self)@, "G00"@),
    {
        self.noted_command("G00", position, " (Moves to position specified rapid.)")
    }

    /// A cutting move to `position`, with `feed` (a feed rate word, or nothing
    /// where the rate is unchanged) as the caller formatted them; `G31` where
    /// the move can be skipped, else `G01`.
    pub fn move_to_coordinate(&mut self, position: &str, feed: &str, can_be_skipped: bool) -> (r: String)
        ensures
            r@ == noted_line(
                old(self)@,
                if can_be_skipped { "G31"@ } else { "G01"@ },
                "G09 "@ + position@ + feed@,
                " (Cuts to position specified.)"@ + (if can_be_skipped { " Can be skipped."@ } else { ""@ }),
            ),
            final(self)@ == after_command(old(self)@, if can_be_skipped { "G31"@ } else { "G01"@ }),
    {
        let rest = String::from_str("G09 ").concat(position).concat(feed);
        let skip = if can_be_skipped { " Can be skipped." } else { "" };
        let text = String::from_str(" (Cuts to position specified.)").concat(skip);
        let command = if can_be_skipped { "G31" } else { "G01" };
        self.noted_command(command, rest.as_str(), text.as_str())
    }

    /// A cutting move along the axes whose positions are given (written as
    /// the caller formatted them), with `feed` as in `move_to_coordinate`; an
    /// exact stop where the height changes.
    pub fn move_to_optional_coordinate(
        &mut self,
        x: Option<&str>,
        y: Option<&str>,
        z: Option<&str>,
        feed: &str,
        can_be_skipped: bool,
    ) -> (r: String)
        ensures
            r@ == noted_line(
                old(self)@,
                if can_be_skipped { "G31"@ } else { "G01"@ },
                (if z is Some { "G09 "@ } else { ""@ }) + axis_words(opt_view(x), opt_view(y), opt_view(z)) + feed@,
                " (Cuts to position specified.)"@ + (if can_be_skipped { " Can be skipped."@ } else { ""@ }),
            ),
            final(self)@ == after_command(old(self)@, if can_be_skipped { "G31"@ } else { "G01"@ }),
    {
        let exact_cut = if z.is_some() { "G09 " } else { "" };
        let words = optional_coordinate_words(x, y, z);
        let rest = String::from_str(exact_cut).concat(words.as_str()).concat(feed);
        let skip = if can_be_skipped { " Can be skipped." } else { "" };
        let text = String::from_str(" (Cuts to position specified.)").concat(skip);
        let command = if can_be_skipped { "G31" } else { "G01" };
        self.noted_command(command, rest.as_str(), text.as_str())
    }

    /// Returns home: the last command word is forgotten, then a rapid move up
    /// to the home height above the current position (`above`), then one to
    /// the home position (`home`), both as the caller formatted them. The
    /// second line repeats the rapid move and so goes without its word.
    pub fn go_home(&mut self, above: &str, home: &str) -> (r: String)
        ensures
            r@ == "G00 "@ + above@ + note(old(self)@.verbose, " (return home z)"@) + "\n"@ + home@ + note(
                old(self)@.verbose,
                " (return home)"@,
            ) + "\n"@,
            final(self)@ == after_command(old(self)@, "G00"@),
    {
        self.reset_settings();
        let a = self.noted_command("G00", above, " (return home z)");
        let b = self.noted_command("G00", home, " (return home)");
        proof {
            reveal_strlit("G00");
            reveal_strlit("G00 ");
            assert("G00"@ =~= seq!['G', '0', '0']);
            assert("G00 "@ =~= seq!['G', '0', '0', ' ']);
            assert(command_word(Seq::empty(), "G00"@) =~= "G00 "@);
            assert(command_word("G00"@, "G00"@) =~= Seq::<char>::empty());
            reveal_strlit("\n");
            assert("\n"@ =~= seq!['\n']);
            assert(a@ =~= "G00 "@ + above@ + note(old(self)@.verbose, " (return home z)"@) + "\n"@);
            assert(b@ =~= home@ + note(old(self)@.verbose, " (return home)"@) + "\n"@);
        }
        a.concat(b.as_str())
    }

    /// Selects inches or millimetres.
    pub fn set_units(&mut self, use_inches: bool) -> (r: String)
        ensures
            r@ == noted_line(
                old(self)@,
                if use_inches { "G20"@ } else { "G21"@ },
                Seq::empty(),
                if use_inches { " (Use inches)"@ } else { " (Use millimiters)"@ },
            ),
            final(self)@ == after_command(old(self)@, if use_inches { "G20"@ } else { "G21"@ }),
    {
        if use_inches {
            self.command_with_note("G20", " (Use inches)")
        } else {
            self.command_with_note("G21", " (Use millimiters)")
        }
    }

    /// Selects the first work coordinate system, whose zero the program uses.
    pub fn use_work_zero(&mut self) -> (r: String)
        ensures
            r@ == noted_line(old(self)@, "G54"@, Seq::empty(), " (Change 0 coordinate)"@),
            final(self)@ == after_command(old(self)@, "G54"@),
    {
        self.command_with_note("G54", " (Change 0 coordinate)")
    }

    /// The tool change line for the tool numbered `index_in_machine`; it
    /// carries no command word of its own and leaves the last one as it was.
    pub fn tool_change(&self, index_in_machine: usize) -> (r: String)
        ensures
            r@ == "T"@ + decimal(index_in_machine as nat) + " M6"@ + note(self@.verbose, " (Tool change.)"@) + "\n"@,
    {
        let n = decimal_string(index_in_machine as u64);
        let text = self.verbose_str(" (Tool change.)");
        String::from_str("T").concat(n.as_str()).concat(" M6").concat(text).concat("\n")
    }

    /// An exact stop at `position`, written as the caller formatted it.
    pub fn exact_stop(&mut self, position: &str) -> (r: String)
        ensures
            r@ == command_line(old(self)@.last_command, "G09"@, position@),
            final(self)@ == after_command(old(self)@, "G09"@),
    {
        self.write_gcode_command("G09", position)
    }

    /// A return to the reference position through `position`.
    pub fn return_to_referance_position(&mut self, position: &str) -> (r: String)
        ensures
            r@ == noted_line(old(self)@, "G29"@, position@, " (return to reference position through point specified.)"@),
            final(self)@ == after_command(old(self)@, "G29"@),
    {
        self.noted_command("G29", position, " (return to reference position through point specified.)")
    }

    /// A return to the second reference position through `position`.
    pub fn return_to_second_referance_position(&mut self, position: &str) -> (r: String)
        ensures
            r@ == noted_line(old(self)@, "G30"@, position@, " (return to second reference position through point specified.)"@),
            final(self)@ == after_command(old(self)@, "G30"@),
    {
        self.noted_command("G30", position, " (return to second reference position through point specified.)")
    }

    /// Scaling about a pivot by a factor, given as their words `I.. J.. K.. P..`.
    pub fn scaling_factor_on(&mut self, words: &str) -> (r: String)
        ensures
            r@ == noted_line(old(self)@, "G51"@, words@, " (Cancel scaling factor.)"@),
            final(self)@ == after_command(old(self)@, "G51"@),
    {
        self.noted_command("G51", words, " (Cancel scaling factor.)")
    }

    /// Sets the local coordinate system to `position`.
    pub fn local_coordinate_system_set(&mut self, position: &str) -> (r: String)
        ensures
            r@ == noted_line(old(self)@, "G52"@, position@, " (Sets local coordinate system.)"@),
            final(self)@ == after_command(old(self)@, "G52"@),
    {
        self.noted_command("G52", position, " (Sets local coordinate system.)")
    }

    /// Sets the machine coordinate system to `position`.
    pub fn machine_coordinate_system_set(&mut self, position: &str) -> (r: String)
        ensures
            r@ == noted_line(old(self)@, "G53"@, position@, " (Sets machine coordinate system.)"@),
            final(self)@ == after_command(old(self)@, "G53"@),
    {
        self.noted_command("G53", position, " (Sets machine coordinate system.)")
    }

    /// Rotates the coordinate system, given its words `X.. Y.. R..`.
    pub fn coordinate_system_rotation(&mut self, words: &str) -> (r: String)
        ensures
            r@ == noted_line(old(self)@, "G68"@, words@, " (Coordinate system rotating around the x and y axis at r degrees.)"@),
            final(self)@ == after_command(old(self)@, "G68"@),
    {
        self.noted_command("G68", words, " (Coordinate system rotating around the x and y axis at r degrees.)")
    }

    /// A high speed peck drilling cycle, given its words.
    pub fn high_speed_peck_drilling_cycle(&mut self, words: &str) -> (r: String)
        ensures
            r@ == noted_line(old(self)@, "G73"@, words@, " (High speed peck drilling cycle.)"@),
            final(self)@ == after_command(old(self)@, "G73"@),
    {
        self.noted_command("G73", words, " (High speed peck drilling cycle.)")
    }

    /// A left hand threading cycle, given its words; its explanation is written without a closing bracket.
    pub fn left_hand_threading_cycle(&mut self, words: &str) -> (r: String)
        ensures
            r@ == noted_line(old(self)@, "G74"@, words@, " (Left hand threading cycle."@),
            final(self)@ == after_command(old(self)@, "G74"@),
    {
        self.noted_command("G74", words, " (Left hand threading cycle.")
    }

    /// A fine boring cycle, given its words.
    pub fn fanuc_fine_boring_cycle(&mut self, words: &str) -> (r: String)
        ensures
            r@ == noted_line(old(self)@, "G76"@, words@, " (Creates hole at position given R depth, Q shift, P time, F feed rate and K steps.)"@),
            final(self)@ == after_command(old(self)@, "G76"@),
    {
        self.noted_command("G76", words, " (Creates hole at position given R depth, Q shift, P time, F feed rate and K steps.)")
    }

    /// A drilling cycle, given its words.
    pub fn drilling_cycle(&mut self, words: &str) -> (r: String)
        ensures
            r@ == noted_line(old(self)@, "G81"@, words@, " (Drilling cycle.)"@),
            final(self)@ == after_command(old(self)@, "G81"@),
    {
        self.noted_command("G81", words, " (Drilling cycle.)")
    }

    /// A peck drilling canned cycle, given its words.
    pub fn normal_peck_drilling_canned_cycle(&mut self, words: &str) -> (r: String)
        ensures
            r@ == noted_line(old(self)@, "G83"@, words@, " (Stop drilling cycle.)"@),
            final(self)@ == after_command(old(self)@, "G83"@),
    {
        self.noted_command("G83", words, " (Stop drilling cycle.)")
    }

    /// A right hand (tapping) threading cycle, given its words.
    pub fn right_hand_threading_cycle(&mut self, words: &str) -> (r: String)
        ensures
            r@ == noted_line(old(self)@, "G84"@, words@, " (Right hand threading cycle. Tapping canned cycle.)"@),
            final(self)@ == after_command(old(self)@, "G84"@),
    {
        self.noted_command("G84", words, " (Right hand threading cycle. Tapping canned cycle.)")
    }

    /// A boring cycle, given its words.
    pub fn fanuc_boring_cycle(&mut self, words: &str) -> (r: String)
        ensures
            r@ == noted_line(old(self)@, "G85"@, words@, " (Creates hole at position given R depth, Q shift, P time, F feed rate and K steps.)"@),
            final(self)@ == after_command(old(self)@, "G85"@),
    {
        self.noted_command("G85", words, " (Creates hole at position given R depth, Q shift, P time, F feed rate and K steps.)")
    }

    /// Waits until the extruder reaches the temperature `to`.
    pub fn wait_until_extruder_reaches(&mut self, to: &str) -> (r: String)
        ensures
            r@ == noted_line(old(self)@, "M109"@, Seq::empty(), " (Wait until extruder reaches to "@ + to@ + ".)"@),
            final(self)@ == after_command(old(self)@, "M109"@),
    {
        let text = String::from_str(" (Wait until extruder reaches to ").concat(to).concat(".)");
        self.command_with_note("M109", text.as_str())
    }

    /// Waits until the bed reaches the temperature `to`; the word is that of
    /// the fan command.
    pub fn wait_until_bed_reaches(&mut self, to: &str) -> (r: String)
        ensures
            r@ == noted_line(old(self)@, "M106"@, Seq::empty(), " (Wait until bed reaches to "@ + to@ + ".)"@),
            final(self)@ == after_command(old(self)@, "M106"@),
    {
        let text = String::from_str(" (Wait until bed reaches to ").concat(to).concat(".)");
        self.command_with_note("M106", text.as_str())
    }

    /// Sets the fan speed; the speed appears only in the explanation.
    pub fn set_fan_speed(&mut self, speed: &str) -> (r: String)
        ensures
            r@ == noted_line(old(self)@, "M106"@, Seq::empty(), " (Set fan speed to "@ + speed@ + ".)"@),
            final(self)@ == after_command(old(self)@, "M106"@),
    {
        let text = String::from_str(" (Set fan speed to ").concat(speed).concat(".)");
        self.command_with_note("M106", text.as_str())
    }

    /// Returns home through the point `offset` in relative mode, then goes
    /// back to absolute mode; the line has no command word of its own and the
    /// last one is forgotten.
    pub fn go_home_incremental(&mut self, offset: &str) -> (r: String)
        ensures
            r@ == "G91 G28 "@ + offset@ + " G90"@ + note(old(self)@.verbose, " (return home through point specified)"@)
                + "\n"@,
            final(self)@ == after_command(old(self)@, Seq::empty()),
    {
        self.clear_gcode_command();
        let n = self.verbose_str(" (return home through point specified)");
        String::from_str("G91 G28 ").concat(offset).concat(" G90").concat(n).concat("\n")
    }

    /// An arc to the end point clockwise (`G02`) or counter-clockwise (`G03`),
    /// given its words `X.. Y.. I.. J..`.
    pub fn circular_interpolation(&mut self, clockwise: bool, words: &str) -> (r: String)
        ensures
            r@ == command_line(old(self)@.last_command, if clockwise { "G02"@ } else { "G03"@ }, words@),
            final(self)@ == after_command(old(self)@, if clockwise { "G02"@ } else { "G03"@ }),
    {
        if clockwise {
            self.write_gcode_command("G02", words)
        } else {
            self.write_gcode_command("G03", words)
        }
    }

    /// A full circle around the current position moved by `I, J`, given its
    /// words (a feed word where the rate changes, then `I.. J..`).
    pub fn circular_interpolation_around_change_midpoint(&mut self, clockwise: bool, words: &str) -> (r: String)
        ensures
            r@ == noted_line(
                old(self)@,
                if clockwise { "G02"@ } else { "G03"@ },
                words@,
                " (Draw a circle with center point of current position + I, J)"@,
            ),
            final(self)@ == after_command(old(self)@, if clockwise { "G02"@ } else { "G03"@ }),
    {
        let text = " (Draw a circle with center point of current position + I, J)";
        if clockwise {
            self.noted_command("G02", words, text)
        } else {
            self.noted_command("G03", words, text)
        }
    }

    /// Sets the current tool's offset: `z` is its word's value, `shown` how
    /// the explanation shows it.
    pub fn set_tool_offset(&mut self, z: &str, shown: &str) -> (r: String)
        ensures
            r@ == noted_line(
                old(self)@,
                "G43.1"@,
                "Z"@ + z@,
                " (Set current tool offset to be "@ + shown@ + ".)"@,
            ),
            final(self)@ == after_command(old(self)@, "G43.1"@),
    {
        let rest = String::from_str("Z").concat(z);
        let text = String::from_str(" (Set current tool offset to be ").concat(shown).concat(".)");
        self.noted_command("G43.1", rest.as_str(), text.as_str())
    }

    /// Positioning from one direction along the axes given.
    pub fn single_direction_positioning(&mut self, x: Option<&str>, y: Option<&str>, z: Option<&str>) -> (r: String)
        ensures
            r@ == noted_line(
                old(self)@,
                "G60"@,
                axis_words(opt_view(x), opt_view(y), opt_view(z)),
                " (Single direction positioning.)"@,
            ),
            final(self)@ == after_command(old(self)@, "G60"@),
    {
        let words = optional_coordinate_words(x, y, z);
        self.noted_command("G60", words.as_str(), " (Single direction positioning.)")
    }

    /// Taps a hole `z` deep at spindle speed `feed` (both as the caller
    /// formatted them, and `back` the negated depth), then restores the
    /// spindle as it was: on at `spindle_speed` in its direction, or off.
    /// The line has no command word of its own and the last one is forgotten.
    pub fn tap_make_hole(&mut self, z: &str, feed: &str, back: &str, spindle_speed: &str, size: &str) -> (r: String)
        ensures
            r@ == "M3 G91 G3 Z"@ + z@ + " F"@ + feed@ + " M4 G32 Z"@ + back@ + " G90 "@ + match old(self)@.spindle_state {
                SpindleState::Clockwise => "M03 S"@ + spindle_speed@,
                SpindleState::CounterClockwise => "M04 S"@ + spindle_speed@,
                SpindleState::Off => "M05"@,
            } + note(old(self)@.verbose, " (Create a hole size "@ + size@ + " .)"@) + "\n"@,
            final(self)@ == after_command(old(self)@, Seq::empty()),
    {
        self.clear_gcode_command();
        let restore = match self.spindle_state {
            SpindleState::Clockwise => String::from_str("M03 S").concat(spindle_speed),
            SpindleState::CounterClockwise => String::from_str("M04 S").concat(spindle_speed),
            SpindleState::Off => String::from_str("M05"),
        };
        let text = String::from_str(" (Create a hole size ").concat(size).concat(" .)");
        let n = self.verbose_string(text);
        String::from_str("M3 G91 G3 Z").concat(z).concat(" F").concat(feed).concat(" M4 G32 Z").concat(back).concat(
            " G90 ",
        ).concat(restore.as_str()).concat(n.as_str()).concat("\n")
    }

    /// Path blending for curves: ` P.. Q..` where both tolerances are given,
    /// ` P..` where only the first is, nothing otherwise.
    pub fn path_blending(&mut self, motion_blending_tolerance: Option<&str>, naive_cam_tolerance: Option<&str>) -> (r: String)
        ensures
            r@ == noted_line(
                old(self)@,
                "G64"@,
                match (motion_blending_tolerance, naive_cam_tolerance) {
                    (Some(p), Some(q)) => " P"@ + p@ + " Q"@ + q@,
                    (Some(p), None) => " P"@ + p@,
                    _ => Seq::empty(),
                },
                " (Used to make curves.)"@,
            ),
            final(self)@ == after_command(old(self)@, "G64"@),
    {
        proof {
            reveal_strlit("");
            assert(""@ =~= Seq::<char>::empty());
        }
        let words = match (motion_blending_tolerance, naive_cam_tolerance) {
            (Some(p), Some(q)) => String::from_str(" P").concat(p).concat(" Q").concat(q),
            (Some(p), None) => String::from_str(" P").concat(p),
            _ => String::new(),
        };
        self.noted_command("G64", words.as_str(), " (Used to make curves.)")
    }

    /// Shifts the coordinates by the offsets given.
    pub fn shift_position(&mut self, x: Option<&str>, y: Option<&str>, z: Option<&str>) -> (r: String)
        ensures
            r@ == noted_line(
                old(self)@,
                "G92"@,
                option_word(" X"@, opt_view(x)) + option_word(" Y"@, opt_view(y)) + option_word(" Z"@, opt_view(z)),
                " (Shift the coordinates over by specified.)"@,
            ),
            final(self)@ == after_command(old(self)@, "G92"@),
    {
        let words = option_param_str(" X", x).concat(option_param_str(" Y", y).as_str()).concat(
            option_param_str(" Z", z).as_str(),
        );
        self.noted_command("G92", words.as_str(), " (Shift the coordinates over by specified.)")
    }

    /// The line for tool number `number` of the tool table, given the words of
    /// its radius and angles (`R.. I.. J.. Q..`).
    pub fn set_tool_table_line(&mut self, number: usize, words: &str) -> (r: String)
        ensures
            r@ == command_line(
                old(self)@.last_command,
                "G10"@,
                "L1 P"@ + decimal(number as nat) + " axes "@ + words@ + note(
                    old(self)@.verbose,
                    " (Set tool P - tool number R - radius of tool I - front angle (lathe) J - back angle (lathe) Q - orientation (lathe))"@,
                ),
            ),
            final(self)@ == after_command(old(self)@, "G10"@),
    {
        let n = self.verbose_str(
            " (Set tool P - tool number R - radius of tool I - front angle (lathe) J - back angle (lathe) Q - orientation (lathe))",
        );
        let rest = String::from_str("L1 P").concat(decimal_string(number as u64).as_str()).concat(" axes ").concat(
            words,
        ).concat(n);
        self.write_gcode_command("G10", rest.as_str())
    }

    /// A comment line, written only in verbose mode.
    pub fn write_gcode_comment(&self, comment: &str) -> (r: String)
        ensures
            r@ == note(self@.verbose, "("@ + comment@ + ")\n"@),
    {
        if self.verbose {
            String::from_str("(").concat(comment).concat(")\n")
        } else {
            String::new()
        }
    }
}

/// `name` followed by the value, or nothing where there is no value.
pub open spec fn option_word(name: Seq<char>, value: Option<Seq<char>>) -> Seq<char> {
    match value {
        Some(v) => name + v,
        None => Seq::empty(),
    }
}

/// `name` followed by the value, or nothing where there is no value.
pub fn option_param_str(name: &str, param: Option<&str>) -> (r: String)
    ensures
        r@ == option_word(name@, opt_view(param)),
{
    match param {
        Some(p) => String::from_str(name).concat(p),
        None => String::new(),
    }
}

/// The view of an optional text.
pub open spec fn opt_view(o: Option<&str>) -> Option<Seq<char>> {
    match o {
        Some(t) => Some(t@),
        None => None,
    }
}

/// The axis words of a position with some axes left out: `X`, `Y` and `Z`
/// with their values, a space before `Y` and `Z` only where an `X` word
/// stands.
pub open spec fn axis_words(x: Option<Seq<char>>, y: Option<Seq<char>>, z: Option<Seq<char>>) -> Seq<char> {
    let space = if x is Some { " "@ } else { ""@ };
    (match x {
        Some(t) => "X"@ + t,
        None => ""@,
    }) + (match y {
        Some(t) => space + "Y"@ + t,
        None => ""@,
    }) + (match z {
        Some(t) => space + "Z"@ + t,
        None => ""@,
    })
}

/// The axis words of a position with some axes left out.
pub fn optional_coordinate_words(x: Option<&str>, y: Option<&str>, z: Option<&str>) -> (r: String)
    ensures
        r@ == axis_words(opt_view(x), opt_view(y), opt_view(z)),
{
    let mut out = String::new();
    let mut space = "";
    proof {
        reveal_strlit("");
    }
    if let Some(t) = x {
        out = out.concat("X").concat(t);
        space = " ";
    }
    if let Some(t) = y {
        out = out.concat(space).concat("Y").concat(t);
    }
    if let Some(t) = z {
        out = out.concat(space).concat("Z").concat(t);
    }
    proof {
        let xs = match x {
            Some(t) => "X"@ + t@,
            None => ""@,
        };
        let ys = match y {
            Some(t) => (if x is Some { " "@ } else { ""@ }) + "Y"@ + t@,
            None => ""@,
        };
        let zs = match z {
            Some(t) => (if x is Some { " "@ } else { ""@ }) + "Z"@ + t@,
            None => ""@,
        };
        assert(out@ =~= xs + ys + zs);
    }
    out
}

/// The command word that selects work coordinate system `n`: `G59.` and
/// `n - 6` from 6 on, else the number `n + 53` alone.
pub open spec fn work_coordinate_word(n: nat) -> Seq<char> {
    if n >= 6 {
        "G59."@ + decimal((n - 6) as nat)
    } else {
        decimal(n + 53)
    }
}

/// The lines of a zero position check before each of `commands`, written by a
/// router in state `v`.
pub open spec fn zero_checks(v: RouterView, commands: Seq<String>) -> Seq<char>
    decreases commands.len(),
{
    if commands.len() == 0 {
        Seq::empty()
    } else {
        let before = if commands.len() == 1 { v } else { after_command(v, "G27"@) };
        zero_checks(v, commands.drop_last())
            + noted_line(before, "G27"@, Seq::empty(), " (Machine zero position check.)"@)
            + commands.last()@ + seq!['\n']
    }
}

/// The parameter word of an accuracy command for `s`.
pub open spec fn smoothness_word(s: Smoothness) -> Seq<char> {
    match s {
        Smoothness::Rough => "P1"@,
        Smoothness::Medium => "P2"@,
        Smoothness::Finish => "P3"@,
        Smoothness::NoChange => ""@,
    }
}

/// The name of `s`.
pub open spec fn smoothness_name(s: Smoothness) -> Seq<char> {
    match s {
        Smoothness::Rough => "Rough"@,
        Smoothness::Medium => "Medium"@,
        Smoothness::Finish => "Finish"@,
        Smoothness::NoChange => "No Change"@,
    }
}

/// The number that the decimal numeral `s` stands for.
pub open spec fn numeral_value(s: Seq<char>) -> nat
    decreases s.len(),
{
    if s.len() == 0 {
        0
    } else {
        numeral_value(s.drop_last()) * 10 + ((s.last() as nat) - 48) as nat
    }
}

/// A decimal numeral reads back as the number it was written for, is made of
/// digits only, and starts with a zero only when it is `0`.
pub proof fn lemma_decimal_reads_back(n: nat)
    ensures
        numeral_value(decimal(n)) == n,
        decimal(n).len() >= 1,
        forall|i: int| 0 <= i < decimal(n).len() ==> '0' <= #[trigger] decimal(n)[i] <= '9',
        decimal(n)[0] == '0' ==> n == 0,
    decreases n,
{
    let d = decimal(n);
    if n >= 10 {
        lemma_decimal_reads_back(n / 10);
        assert(d.drop_last() =~= decimal(n / 10));
        assert(d[0] == decimal(n / 10)[0]);
        assert(digit_char(n % 10) as nat == 48 + n % 10);
        assert(d.last() == digit_char(n % 10));
        assert(numeral_value(d) == numeral_value(decimal(n / 10)) * 10 + n % 10);
        lemma_fundamental_div_mod(n as int, 10);
    } else {
        assert(d.drop_last() =~= Seq::<char>::empty());
        assert(digit_char(n) as nat == 48 + n);
        assert(d.last() == digit_char(n));
        assert(numeral_value(d) == numeral_value(d.drop_last()) * 10 + n);
    }
}

/// A rapid or linear move written right after the same move goes without its
/// command word; every other command is written with its word whatever came
/// before.
pub proof fn lemma_repeated_motion_elided(last: Seq<char>, command: Seq<char>)
    ensures
        command_word(command, command) == (if is_motion_word(command) {
            Seq::<char>::empty()
        } else {
            command.push(' ')
        }),
        !is_motion_word(command) ==> command_word(last, command) == command.push(' '),
{
}

/// Once the last command word is forgotten, the next line writes its word.
pub proof fn lemma_reset_writes_word(v: RouterView, command: Seq<char>, rest: Seq<char>)
    ensures
        command_line(after_command(v, Seq::empty()).last_command, command, rest)
            == command.push(' ') + rest + seq!['\n'],
{
}

/// Out of verbose mode a line carries no explanation.
pub proof fn lemma_quiet_lines_unexplained(v: RouterView, command: Seq<char>, rest: Seq<char>, text: Seq<char>)
    requires
        !v.verbose,
    ensures
        noted_line(v, command, rest, text) == command_line(v.last_command, command, rest),
{
    assert(rest + note(v.verbose, text) =~= rest);
}

/// A command word is left out only when it repeats the previous line's word
/// and that word is the rapid move `G00` or the linear move `G01`; every
/// other line, including a linear move after a rapid one, starts with its word
/// and a space.
pub proof fn lemma_command_word_left_out_only_on_repeat(last: Seq<char>, command: Seq<char>)
    ensures
        last != command ==> command_word(last, command) == command.push(' '),
        command != seq!['G', '0', '0'] && command != seq!['G', '0', '1'] ==> command_word(last, command)
            == command.push(' '),
        last == command && (command == seq!['G', '0', '0'] || command == seq!['G', '0', '1'])
            ==> command_word(last, command).len() == 0,
        command_word(seq!['G', '0', '0'], seq!['G', '0', '1']) == seq!['G', '0', '1', ' '],
        command_word(seq!['G', '0', '1'], seq!['G', '0', '0']) == seq!['G', '0', '0', ' '],
{
    assert(seq!['G', '0', '0'] != seq!['G', '0', '1']) by {
        assert(seq!['G', '0', '0'][2] != seq!['G', '0', '1'][2]);
    }
    assert(seq!['G', '0', '1'].push(' ') =~= seq!['G', '0', '1', ' ']);
    assert(seq!['G', '0', '0'].push(' ') =~= seq!['G', '0', '0', ' ']);
}

/// A line written for a command whose word differs from the previous line's
/// starts with that word: a cut after a rapid move writes `G01`.
pub proof fn lemma_changed_command_written(v: RouterView, command: Seq<char>, rest: Seq<char>)
    requires
        v.last_command != command,
    ensures
        command_line(v.last_command, command, rest).subrange(0, command.len() as int) == command,
        command_line(v.last_command, command, rest)[command.len() as int] == ' ',
{
    let line = command_line(v.last_command, command, rest);
    assert(line =~= command + seq![' '] + rest + seq!['\n']);
    assert(line.subrange(0, command.len() as int) =~= command);
}

/// Every tool kind is exactly one of: a broad cut (full, between shapes, or
/// one that adds no cut), the partial broad cut, or a contour that follows
/// some kinds of shapes.
pub proof fn lemma_tool_kinds_partition(t: ToolType)
    ensures
        cuts_broad(t) == (match t {
            ToolType::FullCutBroad(_) => true,
            ToolType::SpaceBetweenCutBroad => true,
            ToolType::DontAddCutBroad => true,
            _ => false,
        }),
        cuts_broad(t) == !(t is PartialCutBroad || contour_shapes(t) is Some),
        (contour_shapes(t) is Some) == !(t is FullCutBroad || t is PartialCutBroad || t is SpaceBetweenCutBroad
            || t is DontAddCutBroad),
{
}

/// Two tool kinds have the same number, and compare equal, exactly when they
/// are the same variant; the numbers follow the order of the variants from 0
/// to 7.
pub proof fn lemma_tool_numbers_distinguish_kinds(a: ToolType, b: ToolType)
    ensures
        (tool_number(a) == tool_number(b)) == (match (a, b) {
            (ToolType::FullCutBroad(_), ToolType::FullCutBroad(_)) => true,
            (ToolType::PartialCutBroad, ToolType::PartialCutBroad) => true,
            (ToolType::SpaceBetweenCutBroad, ToolType::SpaceBetweenCutBroad) => true,
            (ToolType::DontAddCutBroad, ToolType::DontAddCutBroad) => true,
            (ToolType::FullContour(_), ToolType::FullContour(_)) => true,
            (ToolType::PartialContourAngle(_), ToolType::PartialContourAngle(_)) => true,
            (ToolType::PartialContourRadius(_), ToolType::PartialContourRadius(_)) => true,
            (ToolType::PartialContourRadiusOrAngle(_), ToolType::PartialContourRadiusOrAngle(_)) => true,
            _ => false,
        }),
        a.eq_spec(&b) == (tool_number(a) == tool_number(b)),
        tool_number(a) == match a {
            ToolType::FullCutBroad(_) => 0u32,
            ToolType::PartialCutBroad => 1u32,
            ToolType::SpaceBetweenCutBroad => 2u32,
            ToolType::DontAddCutBroad => 3u32,
            ToolType::FullContour(_) => 4u32,
            ToolType::PartialContourAngle(_) => 5u32,
            ToolType::PartialContourRadius(_) => 6u32,
            ToolType::PartialContourRadiusOrAngle(_) => 7u32,
        },
{
}

/// Every contour kind follows text exactly when its shapes have the text bit
/// (bit 1), and braille exactly when they have the braille bit (bit 2); the
/// broad kinds follow neither.
pub proof fn lemma_contours_follow_their_shapes(s: ShapeType, t: ToolType)
    ensures
        cuts_text(ToolType::FullContour(s)) == (s.0 & 1u8 == 1u8),
        cuts_text(ToolType::PartialContourAngle(s)) == (s.0 & 1u8 == 1u8),
        cuts_text(ToolType::PartialContourRadius(s)) == (s.0 & 1u8 == 1u8),
        cuts_text(ToolType::PartialContourRadiusOrAngle(s)) == (s.0 & 1u8 == 1u8),
        cuts_braille(ToolType::FullContour(s)) == (s.0 & 2u8 == 2u8),
        cuts_braille(ToolType::PartialContourAngle(s)) == (s.0 & 2u8 == 2u8),
        cuts_braille(ToolType::PartialContourRadius(s)) == (s.0 & 2u8 == 2u8),
        cuts_braille(ToolType::PartialContourRadiusOrAngle(s)) == (s.0 & 2u8 == 2u8),
        contour_shapes(t) is None ==> !cuts_text(t) && !cuts_braille(t),
        contour_shapes(t) matches Some(u) ==> cuts_text(t) == (u.0 & 1u8 == 1u8) && cuts_braille(t) == (u.0 & 2u8
            == 2u8),
{
}

/// The shape bits in arithmetic terms: text is the lowest bit and braille
/// the next; setting a bit adds its value when it was clear and clearing it
/// subtracts its value when it was set.
pub proof fn lemma_shape_bits_arithmetic(b: u8, value: bool)
    ensures
        SHAPE_TEXT == 1 && SHAPE_BRAILLE == 2 && SHAPE_ALL == 3,
        has_bits(b, SHAPE_TEXT) == (b % 2 == 1),
        has_bits(b, SHAPE_BRAILLE) == ((b / 2) % 2 == 1),
        with_bits(b, SHAPE_TEXT, value) == if value {
            if b % 2 == 1 { b as int } else { b + 1 }
        } else {
            if b % 2 == 1 { b - 1 } else { b as int }
        },
        with_bits(b, SHAPE_BRAILLE, value) == if value {
            if (b / 2) % 2 == 1 { b as int } else { b + 2 }
        } else {
            if (b / 2) % 2 == 1 { b - 2 } else { b as int }
        },
{
    assert((b & 1u8 == 1u8) == (b % 2 == 1)) by (bit_vector);
    assert((b & 2u8 == 2u8) == ((b / 2) % 2 == 1)) by (bit_vector);
    assert((b | 1u8) == if b % 2 == 1 { b } else { (b + 1) as u8 }) by (bit_vector);
    assert((b & !1u8) == if b % 2 == 1 { (b - 1) as u8 } else { b }) by (bit_vector);
    assert((b | 2u8) == if (b / 2) % 2 == 1 { b } else { (b + 2) as u8 }) by (bit_vector);
    assert((b & !2u8) == if (b / 2) % 2 == 1 { (b - 2) as u8 } else { b }) by (bit_vector);
    assert(b % 2 == 0 ==> b + 1 <= 255) by (bit_vector);
    assert((b / 2) % 2 == 0 ==> b + 2 <= 255) by (bit_vector);
}

/// In verbose mode a line carries its explanation in full; otherwise none.
pub proof fn lemma_note_written_only_when_verbose(text: Seq<char>)
    ensures
        note(true, text) == text,
        note(false, text).len() == 0,
{
}

} // verus!
