//! The values exchanged with the JavaScript front end: keys, locations,
//! component arguments and transient state.

use vstd::prelude::*;
use crate::bitarray::{BitArray, BitState};
use crate::bitarray::logic::{parse_states_spec, resize_spec};
use crate::bitarray::ranged::clamp_u8;
use crate::engine::func::{SplitterConfig, splitter_ports_slice};
use crate::middle_end::{AddComponentArgs, Coord};
use crate::middle_end::wire::{Wire, endpoints_wire};
use crate::middle_end::func::{
    Constant, Decoder, Demux, Gate, GateKind, Ground, Handedness, Mux, Not, Orientation,
    PhysicalComponentEnum, Pin, Power, Probe, Splitter, Text, TriState, Tunnel,
};

verus! {

/// The kind of object a [`JsKey`] refers to.
#[derive(PartialEq, Eq, Debug, Clone, Copy, Structural)]
pub enum KeyKind {
    Circuit,
    Component,
    Value,
}

/// A key as held by the front end: its kind, and its 64-bit id split in two halves.
#[derive(PartialEq, Eq, Debug, Clone, Copy)]
pub struct JsKey {
    /// The kind of object the key refers to.
    pub kind: KeyKind,
    /// The high and low halves of the key's id.
    pub id: (u32, u32),
    /// Marks the key as not reactive for the front end.
    pub __v_skip: bool,
}

/// A key of one kind was given where a key of another kind was expected.
#[derive(PartialEq, Eq, Debug, Clone, Copy, Structural)]
pub struct KeyKindMismatch {
    /// The kind that was expected.
    pub expected: KeyKind,
    /// The kind that was given.
    pub found: KeyKind,
}

/// The 64-bit id whose high half is `id.0` and low half `id.1`.
pub open spec fn raw_of_id(id: (u32, u32)) -> u64 {
    (id.0 as int * 0x1_0000_0000 + id.1 as int) as u64
}

/// The (high, low) halves of a 64-bit id.
pub open spec fn id_of_raw(raw: u64) -> (u32, u32) {
    ((raw / 0x1_0000_0000) as u32, (raw % 0x1_0000_0000) as u32)
}

impl JsKey {
    /// The key of the given kind for the 64-bit id `raw`.
    pub fn from_raw(kind: KeyKind, raw: u64) -> (r: JsKey)
        ensures
            r.kind == kind,
            r.id == id_of_raw(raw),
            r.__v_skip,
    {
        let hi = (raw >> 32u64) as u32;
        let lo = (raw & 0xffff_ffffu64) as u32;
        assert(hi == raw / 0x1_0000_0000 && lo == raw % 0x1_0000_0000) by (bit_vector)
            requires
                hi == (raw >> 32u64) as u32,
                lo == (raw & 0xffff_ffffu64) as u32,
        ;
        JsKey { kind, id: (hi, lo), __v_skip: true }
    }

    /// The 64-bit id of this key, if it is of the expected kind.
    pub fn to_raw(self, expected: KeyKind) -> (r: Result<u64, KeyKindMismatch>)
        ensures
            self.kind == expected ==> r == Ok::<u64, KeyKindMismatch>(raw_of_id(self.id)),
            self.kind != expected ==> r == Err::<u64, KeyKindMismatch>(
                KeyKindMismatch { expected, found: self.kind },
            ),
    {
        if self.kind == expected {
            let (hi, lo) = self.id;
            let raw = ((hi as u64) << 32u64) | (lo as u64);
            assert(raw == hi as int * 0x1_0000_0000 + lo as int) by (bit_vector)
                requires
                    raw == ((hi as u64) << 32u64) | (lo as u64),
            ;
            Ok(raw)
        } else {
            Err(KeyKindMismatch { expected, found: self.kind })
        }
    }
}

/// Splitting an id into halves and joining them gives the id back.
pub proof fn lemma_raw_id_roundtrip(raw: u64)
    ensures
        raw_of_id(id_of_raw(raw)) == raw,
{
}

/// Joining halves into an id and splitting it gives the halves back.
pub proof fn lemma_id_raw_roundtrip(id: (u32, u32))
    ensures
        id_of_raw(raw_of_id(id)) == id,
{
    assert(id.0 as int * 0x1_0000_0000 + id.1 as int <= u64::MAX) by (nonlinear_arith)
        requires
            id.0 <= u32::MAX,
            id.1 <= u32::MAX,
    ;
    assert((id.0 as int * 0x1_0000_0000 + id.1 as int) / 0x1_0000_0000 == id.0 as int) by (nonlinear_arith)
        requires
            0 <= id.1 < 0x1_0000_0000,
            id.0 >= 0,
    ;
    assert((id.0 as int * 0x1_0000_0000 + id.1 as int) % 0x1_0000_0000 == id.1 as int) by (nonlinear_arith)
        requires
            0 <= id.1 < 0x1_0000_0000,
            id.0 >= 0,
    ;
}

/// A point of the grid as the front end holds it.
#[derive(Debug, Clone, Copy, PartialEq, Eq, Structural)]
pub struct Location {
    pub x: i32,
    pub y: i32,
}

/// A location with a negative coordinate names no point of the grid.
#[derive(Debug, Clone, Copy, PartialEq, Eq, Structural)]
pub struct LocationOutOfRange;

impl Location {
    /// The location of a grid point; the grid is bounded so that it fits in an `i32`.
    pub fn from_coord(c: Coord) -> (r: Location)
        requires
            c.0 <= i32::MAX,
            c.1 <= i32::MAX,
        ensures
            r.x == c.0,
            r.y == c.1,
    {
        Location { x: c.0 as i32, y: c.1 as i32 }
    }

    /// The grid point at this location, if neither coordinate is negative.
    pub fn to_coord(self) -> (r: Result<Coord, LocationOutOfRange>)
        ensures
            self.x >= 0 && self.y >= 0 ==> r == Ok::<Coord, LocationOutOfRange>((self.x as u32, self.y as u32)),
            !(self.x >= 0 && self.y >= 0) ==> r == Err::<Coord, LocationOutOfRange>(LocationOutOfRange),
    {
        if self.x >= 0 && self.y >= 0 {
            Ok((self.x as u32, self.y as u32))
        } else {
            Err(LocationOutOfRange)
        }
    }
}

/// The wire between two locations, if both are grid points that differ in exactly
/// one coordinate.
pub fn wire_between(start: Location, end: Location) -> (r: Option<Wire>)
    ensures
        start.x >= 0 && start.y >= 0 && end.x >= 0 && end.y >= 0 ==> match endpoints_wire(
            (start.x as u32, start.y as u32),
            (end.x as u32, end.y as u32),
        ) {
            Some(f) => r matches Some(w) && w@ == f,
            None => r is None,
        },
        !(start.x >= 0 && start.y >= 0 && end.x >= 0 && end.y >= 0) ==> r is None,
{
    match (start.to_coord(), end.to_coord()) {
        (Ok(p), Ok(q)) => Wire::from_endpoints(p, q),
        _ => None,
    }
}

/// A grid point turned into a location and back is the point itself.
pub proof fn lemma_location_roundtrip(c: Coord, l: Location)
    requires
        l.x == c.0,
        l.y == c.1,
    ensures
        l.x >= 0 && l.y >= 0,
        (l.x as u32, l.y as u32) == c,
{
}

/// The arguments the front end gives to create a component.
#[derive(Debug)]
pub struct CreateComponentArgs {
    pub component_type: String,
    pub label: Option<String>,
    pub label_orientation: Option<Orientation>,
    pub pos: Location,

    pub bitsize: Option<u8>,
    pub inputs: Option<u8>,
    pub orientation: Option<Orientation>,
    pub constant_value: Option<String>,
    pub is_input: Option<bool>,
    pub selsize: Option<u8>,
    pub text_content: Option<String>,
    pub handedness: Option<Handedness>,
    pub port_assignments: Option<Vec<Option<u8>>>,
    pub num_legs: Option<u8>,
}

/// Why component arguments could not be turned into a component.
#[derive(Debug, Clone, Copy, PartialEq, Eq, Structural)]
pub enum ComponentArgsError {
    /// The constant value could not be read as a bit array.
    ConstantValue,
    /// The component type is not known.
    UnknownComponentType,
    /// The position is not a point of the grid.
    LocationOutOfBounds,
}

/// Whether the component type of `args` is `name`.
pub open spec fn is_type(args: &CreateComponentArgs, name: &str) -> bool {
    args.component_type@ == name@
}

/// The bitsize: as given, else two for a splitter and one for anything else.
pub open spec fn arg_bitsize(args: &CreateComponentArgs) -> u8 {
    match args.bitsize {
        Some(b) => b,
        None => if is_type(args, "SPLITTER") { 2 } else { 1 },
    }
}

/// The handedness: as given, else top-left for a splitter and down-right for anything else.
pub open spec fn arg_handedness(args: &CreateComponentArgs) -> Handedness {
    match args.handedness {
        Some(h) => h,
        None => if is_type(args, "SPLITTER") { Handedness::TopLeft } else { Handedness::DownRight },
    }
}

/// The orientation: as given, else east.
pub open spec fn arg_orientation(args: &CreateComponentArgs) -> Orientation {
    match args.orientation {
        Some(o) => o,
        None => Orientation::East,
    }
}

/// The constant value, resized to the bitsize with low bits: as given, else a single low bit;
/// `None` if the given value cannot be read.
pub open spec fn arg_constant(args: &CreateComponentArgs) -> Option<Seq<BitState>> {
    let read = match args.constant_value {
        Some(s) => parse_states_spec(s@),
        None => Some(seq![BitState::Low]),
    };
    match read {
        Some(v) => Some(resize_spec(v, arg_bitsize(args) as nat, BitState::Low)),
        None => None,
    }
}

/// The 64 splitter port assignments: the given ones, cut or padded with `None`;
/// else bit 0 to leg 0 and bit 1 to leg 1.
pub open spec fn arg_assignments(args: &CreateComponentArgs) -> Seq<Option<u8>> {
    match args.port_assignments {
        Some(a) => Seq::new(64, |i: int| if i < a@.len() { a@[i] } else { None }),
        None => Seq::new(64, |i: int| if i == 0 { Some(0u8) } else if i == 1 { Some(1u8) } else { None }),
    }
}

/// Whether `name` is a component type that arguments can create.
pub open spec fn known_type(args: &CreateComponentArgs) -> bool {
    ||| is_type(args, "PIN")
    ||| is_type(args, "CONSTANT")
    ||| is_type(args, "SPLITTER")
    ||| is_type(args, "POWER")
    ||| is_type(args, "GROUND")
    ||| is_type(args, "TUNNEL")
    ||| is_type(args, "PROBE")
    ||| is_type(args, "MUX")
    ||| is_type(args, "DEMUX")
    ||| is_type(args, "DECODER")
    ||| is_type(args, "TEXT")
    ||| is_type(args, "NOT")
    ||| is_type(args, "BUFFER")
    ||| is_type(args, "AND")
    ||| is_type(args, "OR")
    ||| is_type(args, "NAND")
    ||| is_type(args, "NOR")
    ||| is_type(args, "XOR")
    ||| is_type(args, "XNOR")
}

/// Which gate kind the component type names, for the six gate types.
pub open spec fn arg_gate_kind(args: &CreateComponentArgs) -> Option<GateKind> {
    if is_type(args, "AND") {
        Some(GateKind::And)
    } else if is_type(args, "OR") {
        Some(GateKind::Or)
    } else if is_type(args, "NAND") {
        Some(GateKind::Nand)
    } else if is_type(args, "NOR") {
        Some(GateKind::Nor)
    } else if is_type(args, "XOR") {
        Some(GateKind::Xor)
    } else if is_type(args, "XNOR") {
        Some(GateKind::Xnor)
    } else {
        None
    }
}

/// Whether `c` is the component described by `args`, for a known type whose constant can be read.
pub open spec fn component_of(args: &CreateComponentArgs, c: PhysicalComponentEnum) -> bool {
    let b = arg_bitsize(args);
    let o = arg_orientation(args);
    let h = arg_handedness(args);
    let sel = match args.selsize { Some(s) => s, None => 1u8 };
    if is_type(args, "PIN") {
        c matches PhysicalComponentEnum::Pin(p)
            && p@ == (clamp_u8(b, 1, 64), match args.is_input { Some(i) => i, None => false }, o)
    } else if is_type(args, "CONSTANT") {
        c matches PhysicalComponentEnum::Constant(k) && Some(k@.0) == arg_constant(args) && k@.1 == o
    } else if is_type(args, "SPLITTER") {
        c matches PhysicalComponentEnum::Splitter(s) && s@ == (
            SplitterConfig::new_spec(arg_assignments(args), match args.num_legs { Some(n) => n, None => 2u8 }, b),
            o,
            h,
        )
    } else if is_type(args, "POWER") {
        c == PhysicalComponentEnum::Power(Power)
    } else if is_type(args, "GROUND") {
        c == PhysicalComponentEnum::Ground(Ground)
    } else if is_type(args, "TUNNEL") {
        c matches PhysicalComponentEnum::Tunnel(t) && t@ == o
    } else if is_type(args, "PROBE") {
        c matches PhysicalComponentEnum::Probe(p) && p@ == (o, clamp_u8(b, 1, 64))
    } else if is_type(args, "MUX") {
        c matches PhysicalComponentEnum::Mux(m) && m@ == (b, sel, o, h)
    } else if is_type(args, "DEMUX") {
        c matches PhysicalComponentEnum::Demux(m) && m@ == (b, sel, o, h)
    } else if is_type(args, "DECODER") {
        c matches PhysicalComponentEnum::Decoder(d) && d@ == (sel, o, h)
    } else if is_type(args, "TEXT") {
        c == PhysicalComponentEnum::Text(Text)
    } else if is_type(args, "NOT") {
        c matches PhysicalComponentEnum::Not(n) && n@ == (b, o)
    } else if is_type(args, "BUFFER") {
        c matches PhysicalComponentEnum::TriState(t) && t@ == (b, o)
    } else {
        c matches PhysicalComponentEnum::Gate(g) && arg_gate_kind(args) == Some(g@.0)
            && g@.1 == b && g@.2 == (match args.inputs { Some(n) => n, None => 2u8 }) && g@.3 == o
    }
}

/// Whether the component type is `name`.
fn type_is(args: &CreateComponentArgs, name: &str) -> (r: bool)
    ensures
        r == is_type(args, name),
{
    args.component_type == name.to_owned()
}

/// The splitter port assignments described by the arguments.
fn assignments_of(args: &CreateComponentArgs) -> (r: [Option<u8>; 64])
    ensures
        r@ == arg_assignments(args),
{
    match &args.port_assignments {
        Some(a) => {
            let r = splitter_ports_slice(a.as_slice());
            assert(r@ =~= arg_assignments(args));
            r
        },
        None => {
            let mut r: [Option<u8>; 64] = [None; 64];
            r[0] = Some(0);
            r[1] = Some(1);
            assert(r@ =~= arg_assignments(args));
            r
        },
    }
}

/// A gate of the given kind, with the inputs described by the arguments.
fn gate_of(args: &CreateComponentArgs, kind: GateKind, bitsize: u8, orientation: Orientation) -> (r: PhysicalComponentEnum)
    ensures
        r matches PhysicalComponentEnum::Gate(g) && g@ == (kind, bitsize,
            match args.inputs { Some(n) => n, None => 2u8 }, orientation),
{
    let inputs = match args.inputs {
        Some(n) => n,
        None => 2,
    };
    PhysicalComponentEnum::Gate(Gate::new(kind, bitsize, inputs, orientation))
}

impl<'a> AddComponentArgs<'a> {
    /// Builds the arguments that add the component described by front-end arguments.
    ///
    /// A subcircuit cannot be described by such arguments.
    pub fn try_from(args: &'a CreateComponentArgs) -> (r: Result<AddComponentArgs<'a>, ComponentArgsError>)
        requires
            !(is_type(args, "SUBCIRCUIT") && arg_constant(args) is Some),
            arg_bitsize(args) <= 64,
        ensures
            arg_constant(args) is None ==> r == Err::<AddComponentArgs<'a>, ComponentArgsError>(
                ComponentArgsError::ConstantValue,
            ),
            arg_constant(args) is Some && !known_type(args) ==> r == Err::<AddComponentArgs<'a>, ComponentArgsError>(
                ComponentArgsError::UnknownComponentType,
            ),
            arg_constant(args) is Some && known_type(args) && !(args.pos.x >= 0 && args.pos.y >= 0)
                ==> r == Err::<AddComponentArgs<'a>, ComponentArgsError>(
                ComponentArgsError::LocationOutOfBounds,
            ),
            r is Ok <==> arg_constant(args) is Some && known_type(args) && args.pos.x >= 0 && args.pos.y >= 0,
            r matches Ok(a) ==> {
                &&& component_of(args, a.inner)
                &&& a.label@ == match args.label { Some(l) => l@, None => ""@ }
                &&& a.label_location == match args.label_orientation { Some(o) => o, None => Orientation::East }
                &&& a.origin == (args.pos.x as u32, args.pos.y as u32)
            },
    {
        let splitter = type_is(args, "SPLITTER");
        let bitsize = match args.bitsize {
            Some(b) => b,
            None => if splitter { 2 } else { 1 },
        };
        let selsize = match args.selsize {
            Some(s) => s,
            None => 1,
        };
        let handedness = match args.handedness {
            Some(h) => h,
            None => if splitter { Handedness::TopLeft } else { Handedness::DownRight },
        };
        let orient = match args.orientation {
            Some(o) => o,
            None => Orientation::East,
        };
        let read = match &args.constant_value {
            Some(s) => BitArray::parse(s.as_str()),
            None => Some(BitArray::from_state(BitState::Low)),
        };
        let bit_array = match read {
            Some(v) => v.resize(bitsize, BitState::Low),
            None => return Err(ComponentArgsError::ConstantValue),
        };
        assert(Some(bit_array@) == arg_constant(args));

        let inner = if type_is(args, "PIN") {
            let is_input = match args.is_input {
                Some(i) => i,
                None => false,
            };
            PhysicalComponentEnum::Pin(Pin::new(bitsize, is_input, orient))
        } else if type_is(args, "CONSTANT") {
            PhysicalComponentEnum::Constant(Constant::new(bit_array, orient))
        } else if type_is(args, "SPLITTER") {
            let num_legs = match args.num_legs {
                Some(n) => n,
                None => 2,
            };
            let asgms = assignments_of(args);
            PhysicalComponentEnum::Splitter(Splitter::new(asgms, num_legs, bitsize, orient, handedness))
        } else if type_is(args, "POWER") {
            PhysicalComponentEnum::Power(Power)
        } else if type_is(args, "GROUND") {
            PhysicalComponentEnum::Ground(Ground)
        } else if type_is(args, "TUNNEL") {
            PhysicalComponentEnum::Tunnel(Tunnel::new(orient))
        } else if type_is(args, "PROBE") {
            PhysicalComponentEnum::Probe(Probe::new(orient, bitsize))
        } else if type_is(args, "MUX") {
            PhysicalComponentEnum::Mux(Mux::new(bitsize, selsize, orient, handedness))
        } else if type_is(args, "DEMUX") {
            PhysicalComponentEnum::Demux(Demux::new(bitsize, selsize, orient, handedness))
        } else if type_is(args, "DECODER") {
            PhysicalComponentEnum::Decoder(Decoder::new(selsize, orient, handedness))
        } else if type_is(args, "TEXT") {
            PhysicalComponentEnum::Text(Text)
        } else if type_is(args, "NOT") {
            PhysicalComponentEnum::Not(Not::new(bitsize, orient))
        } else if type_is(args, "BUFFER") {
            PhysicalComponentEnum::TriState(TriState::new(bitsize, orient))
        } else if type_is(args, "AND") {
            gate_of(args, GateKind::And, bitsize, orient)
        } else if type_is(args, "OR") {
            gate_of(args, GateKind::Or, bitsize, orient)
        } else if type_is(args, "NAND") {
            gate_of(args, GateKind::Nand, bitsize, orient)
        } else if type_is(args, "NOR") {
            gate_of(args, GateKind::Nor, bitsize, orient)
        } else if type_is(args, "XOR") {
            gate_of(args, GateKind::Xor, bitsize, orient)
        } else if type_is(args, "XNOR") {
            gate_of(args, GateKind::Xnor, bitsize, orient)
        } else {
            return Err(ComponentArgsError::UnknownComponentType);
        };

        let label: &'a str = match &args.label {
            Some(l) => l.as_str(),
            None => "",
        };
        let label_location = match args.label_orientation {
            Some(o) => o,
            None => Orientation::East,
        };
        let origin = match args.pos.to_coord() {
            Ok(c) => c,
            Err(_) => return Err(ComponentArgsError::LocationOutOfBounds),
        };
        Ok(AddComponentArgs { inner, label, label_location, origin })
    }
}

/// The state of a component, as shown by the front end.
pub struct TransientComponentState {
    pub backend_key: JsKey,
    pub pos: Location,
    pub ports: Vec<PortTransientState>,
    pub bounds: (Location, Location),
}

/// The state of a wire, as shown by the front end.
pub struct TransientWireState {
    pub endpoints: (Location, Location),
    pub backend_key: JsKey,
    pub value: String,
    pub issues: Vec<String>,
}

/// The state of a component port, as shown by the front end.
pub struct PortTransientState {
    pub pos: Location,
    pub backend_key: Option<JsKey>,
    pub value: String,
    pub issues: Vec<String>,
}


/// Every sized component built from arguments takes the given bitsize, or one when none
/// is given: a NOT, a buffer, a mux, a demux and each of the gates have that bitsize. They
/// face the given orientation, or east when none is given, and a gate has the given number
/// of inputs, or two.
pub proof fn lemma_components_take_args(args: &CreateComponentArgs, c: PhysicalComponentEnum)
    requires
        component_of(args, c),
    ensures
        ({
            let b = match args.bitsize { Some(b) => b, None => 1u8 };
            &&& is_type(args, "NOT") ==> (c matches PhysicalComponentEnum::Not(n) && n@.0 == b)
            &&& is_type(args, "BUFFER") ==> (c matches PhysicalComponentEnum::TriState(t) && t@.0 == b)
            &&& is_type(args, "MUX") ==> (c matches PhysicalComponentEnum::Mux(m) && m@.0 == b)
            &&& is_type(args, "DEMUX") ==> (c matches PhysicalComponentEnum::Demux(m) && m@.0 == b)
            &&& is_type(args, "AND") ==> (c matches PhysicalComponentEnum::Gate(g) && g@.0 == GateKind::And && g@.1 == b)
            &&& is_type(args, "OR") ==> (c matches PhysicalComponentEnum::Gate(g) && g@.0 == GateKind::Or && g@.1 == b)
            &&& is_type(args, "XOR") ==> (c matches PhysicalComponentEnum::Gate(g) && g@.0 == GateKind::Xor && g@.1 == b)
            &&& is_type(args, "NAND") ==> (c matches PhysicalComponentEnum::Gate(g) && g@.0 == GateKind::Nand && g@.1 == b)
            &&& is_type(args, "NOR") ==> (c matches PhysicalComponentEnum::Gate(g) && g@.0 == GateKind::Nor && g@.1 == b)
            &&& is_type(args, "XNOR") ==> (c matches PhysicalComponentEnum::Gate(g) && g@.0 == GateKind::Xnor && g@.1 == b)
        }),
        ({
            let o = match args.orientation { Some(o) => o, None => Orientation::East };
            let n = match args.inputs { Some(n) => n, None => 2u8 };
            &&& is_type(args, "NOT") ==> (c matches PhysicalComponentEnum::Not(x) && x@.1 == o)
            &&& is_type(args, "BUFFER") ==> (c matches PhysicalComponentEnum::TriState(x) && x@.1 == o)
            &&& is_type(args, "AND") ==> (c matches PhysicalComponentEnum::Gate(g) && g@.2 == n && g@.3 == o)
            &&& is_type(args, "OR") ==> (c matches PhysicalComponentEnum::Gate(g) && g@.2 == n && g@.3 == o)
            &&& is_type(args, "XOR") ==> (c matches PhysicalComponentEnum::Gate(g) && g@.2 == n && g@.3 == o)
            &&& is_type(args, "NAND") ==> (c matches PhysicalComponentEnum::Gate(g) && g@.2 == n && g@.3 == o)
            &&& is_type(args, "NOR") ==> (c matches PhysicalComponentEnum::Gate(g) && g@.2 == n && g@.3 == o)
            &&& is_type(args, "XNOR") ==> (c matches PhysicalComponentEnum::Gate(g) && g@.2 == n && g@.3 == o)
        }),
{
    reveal_strlit("PIN");
    reveal_strlit("CONSTANT");
    reveal_strlit("SPLITTER");
    reveal_strlit("POWER");
    reveal_strlit("GROUND");
    reveal_strlit("TUNNEL");
    reveal_strlit("PROBE");
    reveal_strlit("MUX");
    reveal_strlit("DEMUX");
    reveal_strlit("DECODER");
    reveal_strlit("TEXT");
    reveal_strlit("NOT");
    reveal_strlit("BUFFER");
    reveal_strlit("AND");
    reveal_strlit("OR");
    reveal_strlit("NAND");
    reveal_strlit("NOR");
    reveal_strlit("XOR");
    reveal_strlit("XNOR");
    if is_type(args, "NOT") {
        assert("NOT"@[0] != "PIN"@[0]);
        assert("NOT"@.len() != "CONSTANT"@.len());
        assert("NOT"@.len() != "SPLITTER"@.len());
        assert("NOT"@.len() != "POWER"@.len());
        assert("NOT"@.len() != "GROUND"@.len());
        assert("NOT"@.len() != "TUNNEL"@.len());
        assert("NOT"@.len() != "PROBE"@.len());
        assert("NOT"@[0] != "MUX"@[0]);
        assert("NOT"@.len() != "DEMUX"@.len());
        assert("NOT"@.len() != "DECODER"@.len());
        assert("NOT"@.len() != "TEXT"@.len());
    }
    if is_type(args, "BUFFER") {
        assert("BUFFER"@.len() != "PIN"@.len());
        assert("BUFFER"@.len() != "CONSTANT"@.len());
        assert("BUFFER"@.len() != "SPLITTER"@.len());
        assert("BUFFER"@.len() != "POWER"@.len());
        assert("BUFFER"@[0] != "GROUND"@[0]);
        assert("BUFFER"@[0] != "TUNNEL"@[0]);
        assert("BUFFER"@.len() != "PROBE"@.len());
        assert("BUFFER"@.len() != "MUX"@.len());
        assert("BUFFER"@.len() != "DEMUX"@.len());
        assert("BUFFER"@.len() != "DECODER"@.len());
        assert("BUFFER"@.len() != "TEXT"@.len());
        assert("BUFFER"@.len() != "NOT"@.len());
    }
    if is_type(args, "MUX") {
        assert("MUX"@[0] != "PIN"@[0]);
        assert("MUX"@.len() != "CONSTANT"@.len());
        assert("MUX"@.len() != "SPLITTER"@.len());
        assert("MUX"@.len() != "POWER"@.len());
        assert("MUX"@.len() != "GROUND"@.len());
        assert("MUX"@.len() != "TUNNEL"@.len());
        assert("MUX"@.len() != "PROBE"@.len());
    }
    if is_type(args, "DEMUX") {
        assert("DEMUX"@.len() != "PIN"@.len());
        assert("DEMUX"@.len() != "CONSTANT"@.len());
        assert("DEMUX"@.len() != "SPLITTER"@.len());
        assert("DEMUX"@[0] != "POWER"@[0]);
        assert("DEMUX"@.len() != "GROUND"@.len());
        assert("DEMUX"@.len() != "TUNNEL"@.len());
        assert("DEMUX"@[0] != "PROBE"@[0]);
        assert("DEMUX"@.len() != "MUX"@.len());
    }
    if is_type(args, "AND") {
        assert("AND"@[0] != "PIN"@[0]);
        assert("AND"@.len() != "CONSTANT"@.len());
        assert("AND"@.len() != "SPLITTER"@.len());
        assert("AND"@.len() != "POWER"@.len());
        assert("AND"@.len() != "GROUND"@.len());
        assert("AND"@.len() != "TUNNEL"@.len());
        assert("AND"@.len() != "PROBE"@.len());
        assert("AND"@[0] != "MUX"@[0]);
        assert("AND"@.len() != "DEMUX"@.len());
        assert("AND"@.len() != "DECODER"@.len());
        assert("AND"@.len() != "TEXT"@.len());
        assert("AND"@[0] != "NOT"@[0]);
        assert("AND"@.len() != "BUFFER"@.len());
    }
    if is_type(args, "OR") {
        assert("OR"@.len() != "PIN"@.len());
        assert("OR"@.len() != "CONSTANT"@.len());
        assert("OR"@.len() != "SPLITTER"@.len());
        assert("OR"@.len() != "POWER"@.len());
        assert("OR"@.len() != "GROUND"@.len());
        assert("OR"@.len() != "TUNNEL"@.len());
        assert("OR"@.len() != "PROBE"@.len());
        assert("OR"@.len() != "MUX"@.len());
        assert("OR"@.len() != "DEMUX"@.len());
        assert("OR"@.len() != "DECODER"@.len());
        assert("OR"@.len() != "TEXT"@.len());
        assert("OR"@.len() != "NOT"@.len());
        assert("OR"@.len() != "BUFFER"@.len());
        assert("OR"@.len() != "AND"@.len());
    }
    if is_type(args, "NAND") {
        assert("NAND"@.len() != "PIN"@.len());
        assert("NAND"@.len() != "CONSTANT"@.len());
        assert("NAND"@.len() != "SPLITTER"@.len());
        assert("NAND"@.len() != "POWER"@.len());
        assert("NAND"@.len() != "GROUND"@.len());
        assert("NAND"@.len() != "TUNNEL"@.len());
        assert("NAND"@.len() != "PROBE"@.len());
        assert("NAND"@.len() != "MUX"@.len());
        assert("NAND"@.len() != "DEMUX"@.len());
        assert("NAND"@.len() != "DECODER"@.len());
        assert("NAND"@[0] != "TEXT"@[0]);
        assert("NAND"@.len() != "NOT"@.len());
        assert("NAND"@.len() != "BUFFER"@.len());
        assert("NAND"@.len() != "AND"@.len());
        assert("NAND"@.len() != "OR"@.len());
    }
    if is_type(args, "NOR") {
        assert("NOR"@[0] != "PIN"@[0]);
        assert("NOR"@.len() != "CONSTANT"@.len());
        assert("NOR"@.len() != "SPLITTER"@.len());
        assert("NOR"@.len() != "POWER"@.len());
        assert("NOR"@.len() != "GROUND"@.len());
        assert("NOR"@.len() != "TUNNEL"@.len());
        assert("NOR"@.len() != "PROBE"@.len());
        assert("NOR"@[0] != "MUX"@[0]);
        assert("NOR"@.len() != "DEMUX"@.len());
        assert("NOR"@.len() != "DECODER"@.len());
        assert("NOR"@.len() != "TEXT"@.len());
        assert("NOR"@[2] != "NOT"@[2]);
        assert("NOR"@.len() != "BUFFER"@.len());
        assert("NOR"@[0] != "AND"@[0]);
        assert("NOR"@.len() != "OR"@.len());
        assert("NOR"@.len() != "NAND"@.len());
    }
    if is_type(args, "XOR") {
        assert("XOR"@[0] != "PIN"@[0]);
        assert("XOR"@.len() != "CONSTANT"@.len());
        assert("XOR"@.len() != "SPLITTER"@.len());
        assert("XOR"@.len() != "POWER"@.len());
        assert("XOR"@.len() != "GROUND"@.len());
        assert("XOR"@.len() != "TUNNEL"@.len());
        assert("XOR"@.len() != "PROBE"@.len());
        assert("XOR"@[0] != "MUX"@[0]);
        assert("XOR"@.len() != "DEMUX"@.len());
        assert("XOR"@.len() != "DECODER"@.len());
        assert("XOR"@.len() != "TEXT"@.len());
        assert("XOR"@[0] != "NOT"@[0]);
        assert("XOR"@.len() != "BUFFER"@.len());
        assert("XOR"@[0] != "AND"@[0]);
        assert("XOR"@.len() != "OR"@.len());
        assert("XOR"@.len() != "NAND"@.len());
        assert("XOR"@[0] != "NOR"@[0]);
    }
    if is_type(args, "XNOR") {
        assert("XNOR"@.len() != "PIN"@.len());
        assert("XNOR"@.len() != "CONSTANT"@.len());
        assert("XNOR"@.len() != "SPLITTER"@.len());
        assert("XNOR"@.len() != "POWER"@.len());
        assert("XNOR"@.len() != "GROUND"@.len());
        assert("XNOR"@.len() != "TUNNEL"@.len());
        assert("XNOR"@.len() != "PROBE"@.len());
        assert("XNOR"@.len() != "MUX"@.len());
        assert("XNOR"@.len() != "DEMUX"@.len());
        assert("XNOR"@.len() != "DECODER"@.len());
        assert("XNOR"@[0] != "TEXT"@[0]);
        assert("XNOR"@.len() != "NOT"@.len());
        assert("XNOR"@.len() != "BUFFER"@.len());
        assert("XNOR"@.len() != "AND"@.len());
        assert("XNOR"@.len() != "OR"@.len());
        assert("XNOR"@[0] != "NAND"@[0]);
        assert("XNOR"@.len() != "NOR"@.len());
        assert("XNOR"@.len() != "XOR"@.len());
    }
}

} // verus!
