//! Polyline encoding: serialize selected fields of a point sequence as a
//! compact string using successive deltas, zigzag coding of the signed
//! deltas, and a self-terminating base-64-like 5-bit variable-length code.
//!
//! Field values are fixed-point integers (see `crate::geometry::Point`); the
//! configured factor of each field is applied by exact integer
//! multiplication, so "scale and round to the nearest integer" is exact here.

use crate::geometry::Point;
use crate::surface::{RoadClassId, SurfaceTypeId};
use vstd::prelude::*;

verus! {

/// Which field of a point one encoder slot emits. `S` and `R` carry the
/// default used when the field is absent from a point; the coordinate fields
/// never take a default.
#[derive(Clone, Copy, PartialEq, Eq, Debug)]
pub enum PointField {
    Y,
    X,
    D,
    E,
    S { default: SurfaceTypeId },
    R { default: RoadClassId },
}

/// One encoder slot: a field selector and the integer scale factor applied to
/// the field's value before delta coding. The option list's order determines
/// the per-point field emission order.
#[derive(Clone, Copy, PartialEq, Eq, Debug)]
pub struct PolylineOption {
    pub field: PointField,
    pub factor: i64,
}

/// Rejected polyline configurations.
#[derive(Clone, Copy, PartialEq, Eq, Debug)]
pub enum ConfigError {
    /// The field name is not one of `y`, `x`, `d`, `e`, `S`, `R`.
    UnknownFieldName,
    /// A default value was supplied for a coordinate field.
    DefaultValueForbidden,
    /// No default value was supplied for `S` or `R`.
    DefaultValueRequired,
}

/// `10^p`.
pub open spec fn pow10(p: nat) -> nat
    decreases p,
{
    if p == 0 {
        1
    } else {
        10 * pow10((p - 1) as nat)
    }
}

/// The option the configuration triple `(name, precision, default)` denotes,
/// or the error that rejects it: `y`/`x`/`d`/`e` refuse a default, `S`/`R`
/// require one, and any other name is unknown.
pub open spec fn spec_parse_option(
    name: Seq<char>,
    precision: nat,
    default: Option<u64>,
) -> Result<PolylineOption, ConfigError> {
    if name == seq!['y'] || name == seq!['x'] || name == seq!['d'] || name == seq!['e'] {
        if default is Some {
            Err(ConfigError::DefaultValueForbidden)
        } else {
            let field = if name == seq!['y'] {
                PointField::Y
            } else if name == seq!['x'] {
                PointField::X
            } else if name == seq!['d'] {
                PointField::D
            } else {
                PointField::E
            };
            Ok(PolylineOption { field, factor: pow10(precision) as i64 })
        }
    } else if name == seq!['S'] || name == seq!['R'] {
        match default {
            Some(dv) => Ok(
                PolylineOption {
                    field: if name == seq!['S'] {
                        PointField::S { default: dv }
                    } else {
                        PointField::R { default: dv }
                    },
                    factor: pow10(precision) as i64,
                },
            ),
            None => Err(ConfigError::DefaultValueRequired),
        }
    } else {
        Err(ConfigError::UnknownFieldName)
    }
}

impl PolylineOption {
    pub fn new(field: PointField, factor: i64) -> (r: PolylineOption)
        ensures
            r.field == field,
            r.factor == factor,
    {
        PolylineOption { field, factor }
    }

    pub fn field(&self) -> (r: PointField)
        ensures
            r == self.field,
    {
        self.field
    }

    pub fn factor(&self) -> (r: i64)
        ensures
            r == self.factor,
    {
        self.factor
    }

    /// Build one encoder slot from a configuration triple: a field name, a
    /// decimal precision (the factor becomes `10^precision`), and an optional
    /// default. Exactly the inputs `spec_parse_option` accepts yield `Ok`.
    /// Precisions above 9 are not representable and are refused up front.
    pub fn parse(name: &str, precision: u32, default: Option<u64>) -> (r: Result<
        PolylineOption,
        ConfigError,
    >)
        requires
            precision <= 9,
        ensures
            r == spec_parse_option(name@, precision as nat, default),
    {
        let len = name.unicode_len();
        if len != 1 {
            proof {
                assert(name@ != seq!['y'] && name@ != seq!['x'] && name@ != seq!['d'] && name@
                    != seq!['e'] && name@ != seq!['S'] && name@ != seq!['R']);
            }
            return Err(ConfigError::UnknownFieldName);
        }
        let c = name.get_char(0);
        proof {
            assert(name@ =~= seq![name@[0]]);
        }
        let factor = pow10_exec(precision);
        match c {
            'y' => {
                if default.is_some() {
                    Err(ConfigError::DefaultValueForbidden)
                } else {
                    Ok(PolylineOption { field: PointField::Y, factor })
                }
            },
            'x' => {
                if default.is_some() {
                    Err(ConfigError::DefaultValueForbidden)
                } else {
                    Ok(PolylineOption { field: PointField::X, factor })
                }
            },
            'd' => {
                if default.is_some() {
                    Err(ConfigError::DefaultValueForbidden)
                } else {
                    Ok(PolylineOption { field: PointField::D, factor })
                }
            },
            'e' => {
                if default.is_some() {
                    Err(ConfigError::DefaultValueForbidden)
                } else {
                    Ok(PolylineOption { field: PointField::E, factor })
                }
            },
            'S' => match default {
                Some(dv) => Ok(PolylineOption { field: PointField::S { default: dv }, factor }),
                None => Err(ConfigError::DefaultValueRequired),
            },
            'R' => match default {
                Some(dv) => Ok(PolylineOption { field: PointField::R { default: dv }, factor }),
                None => Err(ConfigError::DefaultValueRequired),
            },
            _ => Err(ConfigError::UnknownFieldName),
        }
    }
}

/// `10^precision` as an exec value; a precision above 9 has no 32-bit
/// power, so such configurations are excluded up front.
fn pow10_exec(precision: u32) -> (f: i64)
    requires
        precision <= 9,
    ensures
        f as int == pow10(precision as nat),
        1 <= f <= 1_000_000_000,
{
    proof {
        reveal_with_fuel(pow10, 11);
    }
    match precision {
        0 => 1,
        1 => 10,
        2 => 100,
        3 => 1_000,
        4 => 10_000,
        5 => 100_000,
        6 => 1_000_000,
        7 => 10_000_000,
        8 => 100_000_000,
        _ => 1_000_000_000,
    }
}

/// Surface/road-class ids are coerced to a bounded integer before encoding:
/// ids above `i32::MAX` are clamped to 0.
pub open spec fn clamp_id(v: u64) -> int {
    if v <= 0x7fff_ffff {
        v as int
    } else {
        0
    }
}

/// The numeric value a field selector reads from a point; absent surface and
/// road-class ids fall back to the selector's default.
pub open spec fn field_value(p: Point, f: PointField) -> int {
    match f {
        PointField::Y => p.y as int,
        PointField::X => p.x as int,
        PointField::D => p.d as int,
        PointField::E => p.e as int,
        PointField::S { default } => clamp_id(
            match p.s {
                Some(v) => v,
                None => default,
            },
        ),
        PointField::R { default } => clamp_id(
            match p.r {
                Some(v) => v,
                None => default,
            },
        ),
    }
}

/// The scaled value one encoder slot emits for a point.
pub open spec fn scaled_value(p: Point, opt: PolylineOption) -> int {
    field_value(p, opt.field) * opt.factor
}

/// The all-zero point that seeds the delta chain before the first real point;
/// every slot scales it to 0.
pub open spec fn start_point() -> Point {
    Point { index: 0, x: 0, y: 0, d: 0, e: 0, s: Some(0u64), r: Some(0u64) }
}

/// Bounds under which the encoder's 64-bit delta arithmetic cannot overflow:
/// field values within ±10^9 and factors within [1, 10^9].
pub open spec fn point_encodable(p: Point) -> bool {
    &&& -1_000_000_000 <= p.x <= 1_000_000_000
    &&& -1_000_000_000 <= p.y <= 1_000_000_000
    &&& -1_000_000_000 <= p.d <= 1_000_000_000
    &&& -1_000_000_000 <= p.e <= 1_000_000_000
}

/// Every point and every slot is within the overflow-free range.
pub open spec fn encodable(s: Seq<Point>, opts: Seq<PolylineOption>) -> bool {
    &&& forall|j: int| 0 <= j < opts.len() ==> 1 <= (#[trigger] opts[j]).factor <= 1_000_000_000
    &&& forall|i: int| 0 <= i < s.len() ==> point_encodable(#[trigger] s[i])
}

/// Zigzag coding of a signed delta: a non-negative result whose low bit is
/// the sign (`n >= 0` maps to `2n`, `n < 0` to `-2n - 1`).
pub open spec fn zigzag(d: int) -> nat {
    if d >= 0 {
        (2 * d) as nat
    } else {
        (-2 * d - 1) as nat
    }
}

/// Bytes of the base-64-like variable-length code of an unsigned value:
/// 5-bit groups from least to most significant, each biased by +63, with
/// 0x20 OR'd into every group but the last.
pub open spec fn varint_bytes(u: nat) -> Seq<u8>
    decreases u,
{
    if u < 32 {
        seq![(u + 63) as u8]
    } else {
        seq![(95 + (u % 32)) as u8] + varint_bytes(u / 32)
    }
}

/// Bytes one delta contributes to the output.
pub open spec fn encoded_value(diff: int) -> Seq<u8> {
    varint_bytes(zigzag(diff))
}

/// Bytes of one point's slots from position `j` on, each the delta of the
/// point's scaled value against the previous point's.
pub open spec fn row_bytes(p: Point, prev: Point, opts: Seq<PolylineOption>, j: int) -> Seq<u8>
    decreases opts.len() - j,
{
    if j < 0 || j >= opts.len() {
        Seq::empty()
    } else {
        encoded_value(scaled_value(p, opts[j]) - scaled_value(prev, opts[j])) + row_bytes(
            p,
            prev,
            opts,
            j + 1,
        )
    }
}

/// Bytes of the points from position `i` on, with `prev` the delta
/// predecessor of `s[i]`.
pub open spec fn polyline_bytes_from(
    s: Seq<Point>,
    opts: Seq<PolylineOption>,
    prev: Point,
    i: int,
) -> Seq<u8>
    decreases s.len() - i,
{
    if i < 0 || i >= s.len() {
        Seq::empty()
    } else {
        row_bytes(s[i], prev, opts, 0) + polyline_bytes_from(s, opts, s[i], i + 1)
    }
}

/// The full encoded byte sequence: all points in order, all slots in option
/// order, deltas seeded from the all-zero start point.
pub open spec fn polyline_bytes(s: Seq<Point>, opts: Seq<PolylineOption>) -> Seq<u8> {
    polyline_bytes_from(s, opts, start_point(), 0)
}

/// The characters an ASCII byte sequence spells.
pub open spec fn ascii_chars(bs: Seq<u8>) -> Seq<char> {
    bs.map(|i: int, b: u8| b as char)
}

/// The clamped id, as the encoder's 64-bit value.
fn clamp_id_exec(v: u64) -> (r: i64)
    ensures
        r as int == clamp_id(v),
{
    if v <= 0x7fff_ffff {
        v as i64
    } else {
        0
    }
}

/// The scaled value one slot emits for a point, by exact multiplication.
fn scale_field(p: &Point, opt: &PolylineOption) -> (r: i64)
    requires
        point_encodable(*p),
        1 <= opt.factor <= 1_000_000_000,
    ensures
        r as int == scaled_value(*p, *opt),
        -2_147_483_647_000_000_000 <= r <= 2_147_483_647_000_000_000,
{
    let v: i64 = match opt.field {
        PointField::Y => p.y,
        PointField::X => p.x,
        PointField::D => p.d,
        PointField::E => p.e,
        PointField::S { default } => clamp_id_exec(
            match p.s {
                Some(v) => v,
                None => default,
            },
        ),
        PointField::R { default } => clamp_id_exec(
            match p.r {
                Some(v) => v,
                None => default,
            },
        ),
    };
    proof {
        crate::geometry::lemma_mul_bound(
            v as int,
            opt.factor as int,
            2_147_483_647,
            1_000_000_000,
        );
    }
    v * opt.factor
}

/// Append the variable-length code of one zigzagged delta to `out`.
fn encode_value(out: &mut Vec<u8>, diff: i64)
    requires
        -4_300_000_000_000_000_000 <= diff <= 4_300_000_000_000_000_000,
    ensures
        final(out)@ == old(out)@ + encoded_value(diff as int),
{
    let mut v: u64 = if diff >= 0 {
        (2 * diff) as u64
    } else {
        let m: i64 = -(diff + 1);
        (2 * m + 1) as u64
    };
    proof {
        assert(v as nat == zigzag(diff as int));
    }
    while v >= 32
        invariant
            old(out)@ + encoded_value(diff as int) == out@ + varint_bytes(v as nat),
        decreases v,
    {
        let b: u8 = 95 + ((v % 32) as u8);
        out.push(b);
        proof {
            assert(varint_bytes(v as nat) == seq![(95 + ((v as nat) % 32)) as u8] + varint_bytes(
                (v as nat) / 32,
            ));
            assert(old(out)@ + encoded_value(diff as int) =~= out@ + varint_bytes(
                ((v as nat) / 32) as nat,
            ));
        }
        v = v / 32;
    }
    let b: u8 = (v as u8) + 63;
    out.push(b);
    proof {
        assert(varint_bytes(v as nat) == seq![((v as nat) + 63) as u8]);
        assert(final(out)@ =~= old(out)@ + encoded_value(diff as int));
    }
}

/// The encoded polyline of the points under the given slots, as raw ASCII
/// bytes (see `polyline_bytes`).
pub fn polyline_encode_bytes(points: &Vec<Point>, options: &Vec<PolylineOption>) -> (r: Vec<u8>)
    requires
        encodable(points@, options@),
    ensures
        r@ == polyline_bytes(points@, options@),
{
    let ghost s = points@;
    let ghost opts = options@;
    let mut out: Vec<u8> = Vec::new();
    let mut prev: Point = Point::default();
    proof {
        assert(prev == start_point());
    }
    let n = points.len();
    let nf = options.len();
    let mut i: usize = 0;
    while i < n
        invariant
            0 <= i <= n,
            n == s.len(),
            nf == opts.len(),
            s == points@,
            opts == options@,
            encodable(s, opts),
            point_encodable(prev),
            out@ + polyline_bytes_from(s, opts, prev, i as int) == polyline_bytes(s, opts),
            i == 0 ==> prev == start_point(),
            i > 0 ==> prev == s[i - 1],
        decreases n - i,
    {
        let p = points[i];
        let mut j: usize = 0;
        proof {
            assert(polyline_bytes_from(s, opts, prev, i as int) == row_bytes(p, prev, opts, 0)
                + polyline_bytes_from(s, opts, p, i + 1));
        }
        while j < nf
            invariant
                0 <= j <= nf,
                nf == opts.len(),
                opts == options@,
                encodable(s, opts),
                point_encodable(prev),
                point_encodable(p),
                out@ + row_bytes(p, prev, opts, j as int) + polyline_bytes_from(
                    s,
                    opts,
                    p,
                    i + 1,
                ) == polyline_bytes(s, opts),
                0 <= i < s.len(),
                s == points@,
                p == s[i as int],
                n == s.len(),
            decreases nf - j,
        {
            let cur = scale_field(&p, &options[j]);
            let pv = scale_field(&prev, &options[j]);
            let diff = cur - pv;
            proof {
                assert(row_bytes(p, prev, opts, j as int) == encoded_value(diff as int)
                    + row_bytes(p, prev, opts, j + 1));
            }
            encode_value(&mut out, diff);
            proof {
                assert(out@ + row_bytes(p, prev, opts, j + 1) + polyline_bytes_from(
                    s,
                    opts,
                    p,
                    i + 1,
                ) =~= polyline_bytes(s, opts));
            }
            j = j + 1;
        }
        proof {
            assert(row_bytes(p, prev, opts, nf as int) =~= Seq::<u8>::empty());
            assert(out@ + polyline_bytes_from(s, opts, p, i + 1) =~= polyline_bytes(s, opts));
        }
        prev = p;
        i = i + 1;
    }
    proof {
        assert(polyline_bytes_from(s, opts, prev, i as int) =~= Seq::<u8>::empty());
        assert(out@ =~= polyline_bytes(s, opts));
    }
    out
}

/// Every byte the variable-length code emits is a printable ASCII character
/// in [63, 126].
pub proof fn lemma_varint_bytes_range(u: nat)
    ensures
        forall|k: int| 0 <= k < varint_bytes(u).len() ==> 63 <= #[trigger] varint_bytes(u)[k]
            <= 126,
        varint_bytes(u).len() >= 1,
    decreases u,
{
    if u >= 32 {
        lemma_varint_bytes_range(u / 32);
    }
}

proof fn lemma_row_bytes_range(p: Point, prev: Point, opts: Seq<PolylineOption>, j: int)
    ensures
        forall|k: int| 0 <= k < row_bytes(p, prev, opts, j).len() ==> 63 <= #[trigger] row_bytes(
            p,
            prev,
            opts,
            j,
        )[k] <= 126,
    decreases opts.len() - j,
{
    if 0 <= j < opts.len() {
        let enc = encoded_value(scaled_value(p, opts[j]) - scaled_value(prev, opts[j]));
        let rest = row_bytes(p, prev, opts, j + 1);
        lemma_varint_bytes_range(zigzag(scaled_value(p, opts[j]) - scaled_value(prev, opts[j])));
        lemma_row_bytes_range(p, prev, opts, j + 1);
        assert(row_bytes(p, prev, opts, j) == enc + rest);
        assert forall|k: int| 0 <= k < row_bytes(p, prev, opts, j).len() implies 63
            <= #[trigger] row_bytes(p, prev, opts, j)[k] <= 126 by {
            if k < enc.len() {
                assert(row_bytes(p, prev, opts, j)[k] == enc[k]);
            } else {
                assert(row_bytes(p, prev, opts, j)[k] == rest[k - enc.len()]);
            }
        }
    }
}

proof fn lemma_polyline_bytes_range(s: Seq<Point>, opts: Seq<PolylineOption>, prev: Point, i: int)
    ensures
        forall|k: int| 0 <= k < polyline_bytes_from(s, opts, prev, i).len() ==> 63
            <= #[trigger] polyline_bytes_from(s, opts, prev, i)[k] <= 126,
    decreases s.len() - i,
{
    if 0 <= i < s.len() {
        let row = row_bytes(s[i], prev, opts, 0);
        let rest = polyline_bytes_from(s, opts, s[i], i + 1);
        lemma_row_bytes_range(s[i], prev, opts, 0);
        lemma_polyline_bytes_range(s, opts, s[i], i + 1);
        assert(polyline_bytes_from(s, opts, prev, i) == row + rest);
        assert forall|k: int| 0 <= k < polyline_bytes_from(s, opts, prev, i).len() implies 63
            <= #[trigger] polyline_bytes_from(s, opts, prev, i)[k] <= 126 by {
            if k < row.len() {
                assert(polyline_bytes_from(s, opts, prev, i)[k] == row[k]);
            } else {
                assert(polyline_bytes_from(s, opts, prev, i)[k] == rest[k - row.len()]);
            }
        }
    }
}

/// Inverse of `zigzag`: even values are non-negative deltas, odd ones
/// negative.
pub open spec fn unzigzag(u: nat) -> int {
    if u % 2 == 0 {
        (u / 2) as int
    } else {
        -(((u + 1) / 2) as int)
    }
}

/// Decode one variable-length value from the front of `bs`: the value and the
/// remaining bytes, or `None` if `bs` starts with no well-formed code.
pub open spec fn decode_varint(bs: Seq<u8>) -> Option<(nat, Seq<u8>)>
    decreases bs.len(),
{
    if bs.len() == 0 {
        None
    } else {
        let b = bs[0];
        if b < 63 || b > 126 {
            None
        } else if b < 95 {
            Some(((b - 63) as nat, bs.drop_first()))
        } else {
            match decode_varint(bs.drop_first()) {
                Some((v, rest)) => Some((((b - 95) + 32 * v) as nat, rest)),
                None => None,
            }
        }
    }
}

/// Decode the slots of one point from position `j` on: the absolute scaled
/// values (each the slot's previous value plus the decoded delta) and the
/// remaining bytes.
pub open spec fn decode_row(bs: Seq<u8>, prevs: Seq<int>, j: int) -> Option<(Seq<int>, Seq<u8>)>
    decreases prevs.len() - j,
{
    if j < 0 || j >= prevs.len() {
        Some((Seq::empty(), bs))
    } else {
        match decode_varint(bs) {
            Some((u, rest)) => match decode_row(rest, prevs, j + 1) {
                Some((vals, rest2)) => Some((seq![prevs[j] + unzigzag(u)] + vals, rest2)),
                None => None,
            },
            None => None,
        }
    }
}

/// Decode a whole polyline into the scaled value rows of its points, given
/// the previous-value seeds (all zero at the start of a track). A decoder
/// needs one slot per configured field, so `prevs` also carries the slot
/// count.
pub open spec fn decode_rows(bs: Seq<u8>, prevs: Seq<int>) -> Option<Seq<Seq<int>>>
    decreases bs.len(),
{
    if bs.len() == 0 {
        Some(Seq::empty())
    } else {
        match decode_row(bs, prevs, 0) {
            Some((vals, rest)) => if rest.len() < bs.len() {
                match decode_rows(rest, vals) {
                    Some(rows) => Some(seq![vals] + rows),
                    None => None,
                }
            } else {
                None
            },
            None => None,
        }
    }
}

/// The scaled values of one point under the option list, in option order.
pub open spec fn scaled_row(p: Point, opts: Seq<PolylineOption>) -> Seq<int> {
    Seq::new(opts.len(), |j: int| scaled_value(p, opts[j]))
}

/// The scaled values of every point, in point order.
pub open spec fn scaled_rows(s: Seq<Point>, opts: Seq<PolylineOption>) -> Seq<Seq<int>> {
    Seq::new(s.len(), |i: int| scaled_row(s[i], opts))
}

proof fn lemma_unzigzag_zigzag(d: int)
    ensures
        unzigzag(zigzag(d)) == d,
{
}

proof fn lemma_varint_roundtrip(u: nat, rest: Seq<u8>)
    ensures
        decode_varint(varint_bytes(u) + rest) == Some((u, rest)),
    decreases u,
{
    lemma_varint_bytes_range(u);
    let bs = varint_bytes(u) + rest;
    if u < 32 {
        assert(bs[0] == (u + 63) as u8);
        assert(bs.drop_first() =~= rest);
    } else {
        assert(bs[0] == (95 + (u % 32)) as u8);
        assert(bs.drop_first() =~= varint_bytes(u / 32) + rest);
        lemma_varint_roundtrip(u / 32, rest);
        assert(((bs[0] - 95) + 32 * ((u / 32) as int)) as nat == u);
    }
}

proof fn lemma_row_roundtrip(p: Point, prev: Point, opts: Seq<PolylineOption>, j: int, rest: Seq<
    u8,
>)
    requires
        0 <= j <= opts.len(),
    ensures
        decode_row(row_bytes(p, prev, opts, j) + rest, scaled_row(prev, opts), j) == Some(
            (scaled_row(p, opts).skip(j), rest),
        ),
    decreases opts.len() - j,
{
    if j >= opts.len() {
        assert(row_bytes(p, prev, opts, j) + rest =~= rest);
        assert(scaled_row(p, opts).skip(j) =~= Seq::<int>::empty());
    } else {
        let diff = scaled_value(p, opts[j]) - scaled_value(prev, opts[j]);
        let enc = encoded_value(diff);
        let tail = row_bytes(p, prev, opts, j + 1);
        assert(row_bytes(p, prev, opts, j) == enc + tail);
        assert((enc + tail) + rest =~= enc + (tail + rest));
        lemma_varint_roundtrip(zigzag(diff), tail + rest);
        lemma_unzigzag_zigzag(diff);
        lemma_row_roundtrip(p, prev, opts, j + 1, rest);
        assert(scaled_row(prev, opts)[j] + unzigzag(zigzag(diff)) == scaled_value(p, opts[j]));
        assert(seq![scaled_value(p, opts[j])] + scaled_row(p, opts).skip(j + 1) =~= scaled_row(
            p,
            opts,
        ).skip(j));
    }
}

proof fn lemma_polyline_roundtrip_from(
    s: Seq<Point>,
    opts: Seq<PolylineOption>,
    prev: Point,
    i: int,
)
    requires
        opts.len() >= 1,
        0 <= i <= s.len(),
    ensures
        decode_rows(polyline_bytes_from(s, opts, prev, i), scaled_row(prev, opts)) == Some(
            scaled_rows(s, opts).skip(i),
        ),
    decreases s.len() - i,
{
    if i >= s.len() {
        assert(polyline_bytes_from(s, opts, prev, i) =~= Seq::<u8>::empty());
        assert(scaled_rows(s, opts).skip(i) =~= Seq::<Seq<int>>::empty());
    } else {
        let row = row_bytes(s[i], prev, opts, 0);
        let tail = polyline_bytes_from(s, opts, s[i], i + 1);
        let bs = polyline_bytes_from(s, opts, prev, i);
        assert(bs == row + tail);
        lemma_varint_bytes_range(zigzag(scaled_value(s[i], opts[0]) - scaled_value(prev, opts[0])));
        assert(row == encoded_value(scaled_value(s[i], opts[0]) - scaled_value(prev, opts[0]))
            + row_bytes(s[i], prev, opts, 1));
        assert(row.len() >= 1);
        assert(bs.len() >= 1);
        lemma_row_roundtrip(s[i], prev, opts, 0, tail);
        assert(scaled_row(s[i], opts).skip(0) =~= scaled_row(s[i], opts));
        assert(decode_row(bs, scaled_row(prev, opts), 0) == Some((scaled_row(s[i], opts), tail)));
        lemma_polyline_roundtrip_from(s, opts, s[i], i + 1);
        assert(seq![scaled_row(s[i], opts)] + scaled_rows(s, opts).skip(i + 1) =~= scaled_rows(
            s,
            opts,
        ).skip(i));
    }
}

/// Round trip: decoding an encoded polyline, with the all-zero start point as
/// the previous-value seed, reconstructs exactly the scaled field values of
/// every input point.
pub proof fn lemma_polyline_roundtrip(s: Seq<Point>, opts: Seq<PolylineOption>)
    requires
        opts.len() >= 1,
    ensures
        decode_rows(polyline_bytes(s, opts), scaled_row(start_point(), opts)) == Some(
            scaled_rows(s, opts),
        ),
{
    lemma_polyline_roundtrip_from(s, opts, start_point(), 0);
    assert(scaled_rows(s, opts).skip(0) =~= scaled_rows(s, opts));
}

/// Relies on String::from_utf8: a sequence of ASCII bytes is valid UTF-8 and
/// decodes to the characters of the same code points, in order.
#[verifier::external_body]
fn bytes_to_string(bytes: Vec<u8>) -> (r: String)
    requires
        forall|i: int| 0 <= i < bytes@.len() ==> bytes@[i] < 128,
    ensures
        r@ == ascii_chars(bytes@),
{
    match String::from_utf8(bytes) {
        Ok(s) => s,
        Err(_) => String::new(),
    }
}

/// The encoded polyline of the points under the given slots: the
/// concatenation, in point order then option order, of the variable-length
/// codes of the zigzagged deltas of the scaled field values.
pub fn polyline_encode(points: &Vec<Point>, options: &Vec<PolylineOption>) -> (r: String)
    requires
        encodable(points@, options@),
    ensures
        r@ == ascii_chars(polyline_bytes(points@, options@)),
{
    let bytes = polyline_encode_bytes(points, options);
    proof {
        lemma_polyline_bytes_range(points@, options@, start_point(), 0);
    }
    bytes_to_string(bytes)
}

} // verus!
