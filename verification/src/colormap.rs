//! The colour ramps of the waterfall: their names and order, the byte lookup
//! table and CSS gradient drawn from them, and the shader source that
//! evaluates them on the GPU.
//!
//! Every ramp is evaluated exactly over rationals: the coefficients are held
//! in units of 1e-8, as they are written.
use vstd::prelude::*;
use vstd::arithmetic::power::pow;
use crate::text::{decimal, padded, push_decimal, push_padded, push_str, string_of};

verus! {

/// A colour ramp of the waterfall.
#[derive(Clone, Copy, Debug, PartialEq, Eq, Hash, Structural)]
pub enum Colormap {
    Classic,
    Magma,
    Inferno,
    Plasma,
    Viridis,
    Gray,
}

/// The ramps in the order the shader switches on.
pub const COLORMAPS: [Colormap; 6] = [
    Colormap::Classic,
    Colormap::Magma,
    Colormap::Inferno,
    Colormap::Plasma,
    Colormap::Viridis,
    Colormap::Gray,
];

/// Units of a coefficient in one.
pub const COEFFICIENT_UNIT: i64 = 100000000;

/// The fifteen stops of the classic ramp, three channels each.
pub const CLASSIC_STOPS: [i64; 45] = [
    0, 0, 12549000,
    0, 0, 18824000,
    0, 0, 31373000,
    0, 0, 56863000,
    11765000, 56471000, 100000000,
    100000000, 100000000, 100000000,
    100000000, 100000000, 0,
    99608000, 42745000, 8627000,
    99608000, 42745000, 8627000,
    100000000, 0, 0,
    100000000, 0, 0,
    77647000, 0, 0,
    62353000, 0, 0,
    45882000, 0, 0,
    29020000, 0, 0,
];

/// The degree-6 polynomial of the magma ramp, lowest power first.
pub const MAGMA: [i64; 21] = [
    -213649, -74966, -538613,
    25166054, 67752324, 249402660,
    835371728, -357771951, 31446790,
    -2766873309, 1426473078, -1364921319,
    5217613981, -2794360607, 1294416944,
    -5076852536, 2904658282, 423415299,
    1865570507, -1148977352, -560196151,
];

/// The degree-6 polynomial of the inferno ramp, lowest power first.
pub const INFERNO: [i64; 21] = [
    21894, 165100, -1948090,
    10651342, 56395644, 393271239,
    1160249308, -397285397, -1594239411,
    -4170399613, 1743639888, 4435414520,
    7716293570, -3340235894, -8180730926,
    -7131942824, 3262606426, 7320951986,
    2513112622, -1224266895, -2307032500,
];

/// The degree-6 polynomial of the plasma ramp, lowest power first.
pub const PLASMA: [i64; 21] = [
    5873234, 2333671, 54334018,
    217651463, 23838342, 75396046,
    -268946048, -745585114, 311079994,
    613034835, 4234618815, -2851885465,
    -1110743619, -8266631109, 6013984767,
    1002306558, 7141361770, -5407218656,
    -365871384, -2293153465, 1819190779,
];

/// The degree-6 polynomial of the viridis ramp, lowest power first.
pub const VIRIDIS: [i64; 21] = [
    27772733, 540734, 33409981,
    10509304, 140461353, 138459016,
    -33086183, 21484756, 9509516,
    -463423050, -579910097, -1933244096,
    622826994, 1417993337, 5669055200,
    477538500, -1374514538, -6535303263,
    -543545586, 464585261, 2631243525,
];

pub const VERTEX_WGSL: &'static str = r"
struct Varying {
    @builtin(position) position: vec4<f32>,
    @location(0) uv: vec2<f32>,
}

@vertex
fn vertex(@builtin(vertex_index) index: u32) -> Varying {
    var out: Varying;
    let x = f32((index << 1u) & 2u);
    let y = f32(index & 2u);
    out.uv = vec2<f32>(x, y);
    out.position = vec4<f32>(x * 2.0 - 1.0, 1.0 - y * 2.0, 0.0, 1.0);
    return out;
}
";

pub const WATERFALL_WGSL: &'static str = r"
struct Params {
    write: f32,
    height: f32,
    rows: f32,
    view_start: f32,
    view_width: f32,
    pixels: f32,
    map: u32,
    spare: u32,
}

@group(0) @binding(0) var history: texture_2d<f32>;
@group(0) @binding(1) var linear: sampler;
@group(0) @binding(2) var shifts: texture_2d<f32>;
@group(0) @binding(3) var<uniform> params: Params;

fn wrap(value: f32, size: f32) -> f32 {
    return value - size * floor(value / size);
}

fn footprint_peak(tx: f32, row: i32) -> f32 {
    let bins = i32(textureDimensions(history).x);
    let left = tx * f32(bins);
    let right = left + params.view_width * f32(bins) / max(params.pixels, 1.0);
    let first = i32(floor(left));
    let last = max(first, i32(ceil(right)) - 1);
    var peak = 0.0;
    for (var i = 0; i < 32; i++) {
        let x = first + i;
        if (x > last) {
            break;
        }
        if (x >= 0 && x < bins) {
            peak = max(peak, textureLoad(history, vec2<i32>(x, row), 0).r);
        }
    }
    return peak;
}

@fragment
fn fragment(in: Varying) -> @location(0) vec4<f32> {
    let rows_back = in.uv.y * (params.rows - 1.0);
    let row = wrap(params.write - 1.0 - rows_back, params.height);
    let ty = (row + 0.5) / params.height;
    let tx = params.view_start + in.uv.x * params.view_width
        + textureLoad(shifts, vec2<i32>(0, i32(row)), 0).r;
    let bins = f32(textureDimensions(history).x);
    let per_pixel = params.view_width * bins / max(params.pixels, 1.0);
    var level = 0.0;
    if (tx >= 0.0 && tx <= 1.0) {
        if (per_pixel > 1.0) {
            level = footprint_peak(tx, i32(row));
        } else {
            level = textureSampleLevel(history, linear, vec2<f32>(tx, ty), 0.0).r;
        }
    }
    return vec4<f32>(colormap(level, params.map), 1.0);
}
";


/// How many stops the classic ramp has.
pub const CLASSIC_COUNT: usize = 15;

/// The largest coefficient size any ramp uses, in coefficient units.
pub const COEFFICIENT_BOUND: i64 = 10000000000;

impl Default for Colormap {
    fn default() -> (map: Self)
        ensures
            map == Colormap::Classic,
    {
        Colormap::Classic
    }
}

/// A ramp's place in `COLORMAPS`, the number the shader switches on.
pub open spec fn index_of(map: Colormap) -> u32 {
    match map {
        Colormap::Classic => 0,
        Colormap::Magma => 1,
        Colormap::Inferno => 2,
        Colormap::Plasma => 3,
        Colormap::Viridis => 4,
        Colormap::Gray => 5,
    }
}

/// The ramp at a place of `COLORMAPS`; classic past its end.
pub open spec fn at_index(index: int) -> Colormap {
    if index == 1 {
        Colormap::Magma
    } else if index == 2 {
        Colormap::Inferno
    } else if index == 3 {
        Colormap::Plasma
    } else if index == 4 {
        Colormap::Viridis
    } else if index == 5 {
        Colormap::Gray
    } else {
        Colormap::Classic
    }
}

/// The name a ramp is stored and shown under.
pub open spec fn name_of(map: Colormap) -> Seq<char> {
    match map {
        Colormap::Classic => "classic"@,
        Colormap::Magma => "magma"@,
        Colormap::Inferno => "inferno"@,
        Colormap::Plasma => "plasma"@,
        Colormap::Viridis => "viridis"@,
        Colormap::Gray => "gray"@,
    }
}

/// Whether a ramp is a polynomial.
pub open spec fn is_polynomial(map: Colormap) -> bool {
    map == Colormap::Magma || map == Colormap::Inferno || map == Colormap::Plasma || map
        == Colormap::Viridis
}

/// Coefficient `k` of channel `ch` of a polynomial ramp, in coefficient units.
pub open spec fn coefficient_of(map: Colormap, k: int, ch: int) -> int {
    match map {
        Colormap::Magma => MAGMA@[3 * k + ch] as int,
        Colormap::Inferno => INFERNO@[3 * k + ch] as int,
        Colormap::Plasma => PLASMA@[3 * k + ch] as int,
        Colormap::Viridis => VIRIDIS@[3 * k + ch] as int,
        _ => 0,
    }
}

/// `b` to the power `e`.
pub open spec fn power(b: int, e: nat) -> int
    decreases e,
{
    if e == 0 {
        1
    } else {
        b * power(b, (e - 1) as nat)
    }
}

/// The polynomial of channel `ch` at `x = s / d`, from power `k` up, times
/// `d` to the power `6 - k` so that it stays whole.
pub open spec fn horner(map: Colormap, ch: int, k: int, s: int, d: int) -> int
    decreases 6 - k,
{
    if k >= 6 {
        coefficient_of(map, 6, ch)
    } else {
        coefficient_of(map, k, ch) * power(d, (6 - k) as nat) + s * horner(map, ch, k + 1, s, d)
    }
}

/// A level `n / q`, clamped to `0..=1`, as a byte: `255 * n / q` rounded half up.
pub open spec fn ramp_byte(n: int, q: int) -> int {
    if n <= 0 {
        0
    } else if n >= q {
        255
    } else {
        (510 * n + q) / (2 * q)
    }
}

/// The stop of the classic ramp that the level `s / d` starts from.
pub open spec fn classic_stop(s: int, d: int) -> int {
    if 14 * s >= 13 * d {
        13
    } else {
        14 * s / d
    }
}

/// The classic ramp at `s / d`, times `d`, in coefficient units: the straight
/// line between the two stops around it.
pub open spec fn classic_numerator(ch: int, s: int, d: int) -> int {
    let at = classic_stop(s, d);
    let low = CLASSIC_STOPS@[3 * at + ch] as int;
    let high = CLASSIC_STOPS@[3 * at + 3 + ch] as int;
    low * d + (high - low) * (14 * s - at * d)
}

/// Channel `ch` of a ramp at the level `s / d`, as a byte.
pub open spec fn channel(map: Colormap, ch: int, s: int, d: int) -> int {
    match map {
        Colormap::Gray => ramp_byte(s, d),
        Colormap::Classic => ramp_byte(classic_numerator(ch, s, d), COEFFICIENT_UNIT * d),
        _ => ramp_byte(horner(map, ch, 0, s, d), COEFFICIENT_UNIT * power(d, 6)),
    }
}

impl Colormap {
    /// The name the ramp is stored and shown under.
    pub fn name(self) -> (name: &'static str)
        ensures
            name@ == name_of(self),
    {
        match self {
            Colormap::Classic => "classic",
            Colormap::Magma => "magma",
            Colormap::Inferno => "inferno",
            Colormap::Plasma => "plasma",
            Colormap::Viridis => "viridis",
            Colormap::Gray => "gray",
        }
    }

    /// The ramp's place in `COLORMAPS`.
    pub fn index(self) -> (index: u32)
        ensures
            index == index_of(self),
            index < 6,
            COLORMAPS@[index as int] == self,
    {
        match self {
            Colormap::Classic => 0,
            Colormap::Magma => 1,
            Colormap::Inferno => 2,
            Colormap::Plasma => 3,
            Colormap::Viridis => 4,
            Colormap::Gray => 5,
        }
    }

    /// The ramp at a place of `COLORMAPS`, or classic past its end.
    pub fn from_index(index: u8) -> (map: Self)
        ensures
            map == at_index(index as int),
            index < 6 ==> map == COLORMAPS@[index as int],
    {
        if index == 1 {
            Colormap::Magma
        } else if index == 2 {
            Colormap::Inferno
        } else if index == 3 {
            Colormap::Plasma
        } else if index == 4 {
            Colormap::Viridis
        } else if index == 5 {
            Colormap::Gray
        } else {
            Colormap::Classic
        }
    }
}

fn coefficient(map: Colormap, k: usize, ch: usize) -> (c: i64)
    requires
        k < 7,
        ch < 3,
        is_polynomial(map),
    ensures
        c == coefficient_of(map, k as int, ch as int),
        -COEFFICIENT_BOUND < c < COEFFICIENT_BOUND,
{
    let at = 3 * k + ch;
    match map {
        Colormap::Magma => MAGMA[at],
        Colormap::Inferno => INFERNO[at],
        Colormap::Plasma => PLASMA[at],
        _ => VIRIDIS[at],
    }
}

proof fn lemma_power_bound(d: int, e: nat)
    requires
        0 < d <= 255,
        e <= 6,
    ensures
        0 < power(d, e) <= power(255, e),
        power(255, e) <= 274941996890625,
    decreases e,
{
    reveal_with_fuel(power, 7);
    if e > 0 {
        lemma_power_bound(d, (e - 1) as nat);
        let p = power(d, (e - 1) as nat);
        let q = power(255, (e - 1) as nat);
        assert(0 < d * p <= 255 * q) by (nonlinear_arith)
            requires
                0 < p <= q,
                0 < d <= 255,
        ;
    }
}

proof fn lemma_step_bound(c: int, pw: int, old_pw: int, acc: int, sw: int, d: int, t: int)
    requires
        -10000000000 < c < 10000000000,
        0 < pw <= 274941996890625,
        pw == d * old_pw,
        old_pw > 0,
        0 <= sw <= d,
        0 <= t <= 6,
        -(t * 10000000000 * old_pw) <= acc <= t * 10000000000 * old_pw,
    ensures
        -((t + 1) * 10000000000 * pw) <= c * pw + sw * acc <= (t + 1) * 10000000000 * pw,
        -10000000000 * 274941996890625 <= c * pw <= 10000000000 * 274941996890625,
        -60000000000 * 274941996890625 <= sw * acc <= 60000000000 * 274941996890625,
{
    assert(-10000000000 * pw <= c * pw <= 10000000000 * pw) by (nonlinear_arith)
        requires
            -10000000000 < c < 10000000000,
            pw > 0,
    ;
    assert(-(t * 10000000000 * pw) <= sw * acc <= t * 10000000000 * pw) by (nonlinear_arith)
        requires
            -(t * 10000000000 * old_pw) <= acc <= t * 10000000000 * old_pw,
            0 <= sw <= d,
            pw == d * old_pw,
            old_pw > 0,
            t >= 0,
    ;
    assert(t * 10000000000 * pw <= 6 * 10000000000 * 274941996890625) by (nonlinear_arith)
        requires
            0 <= t <= 6,
            0 < pw <= 274941996890625,
    ;
    assert((t + 1) * 10000000000 * pw == 10000000000 * pw + t * 10000000000 * pw) by (nonlinear_arith);
    assert(6 * 10000000000 * 274941996890625 == 60000000000 * 274941996890625);
}

fn polynomial_numerator(map: Colormap, ch: usize, s: u32, d: u32) -> (n: i128)
    requires
        is_polynomial(map),
        ch < 3,
        0 < d <= 255,
        s <= d,
    ensures
        n == horner(map, ch as int, 0, s as int, d as int),
        -7 * COEFFICIENT_BOUND * 274941996890625 <= n <= 7 * COEFFICIENT_BOUND * 274941996890625,
{
    let mut acc: i128 = coefficient(map, 6, ch) as i128;
    let mut pw: i128 = 1;
    let mut k: usize = 6;
    let m: i128 = COEFFICIENT_BOUND as i128;
    while k > 0
        invariant
            k <= 6,
            is_polynomial(map),
            ch < 3,
            0 < d <= 255,
            s <= d,
            m == COEFFICIENT_BOUND,
            pw == power(d as int, (6 - k) as nat),
            0 < pw <= power(255, (6 - k) as nat),
            power(255, (6 - k) as nat) <= 274941996890625,
            acc == horner(map, ch as int, k as int, s as int, d as int),
            -((7 - k) * 10000000000 * pw) <= acc <= (7 - k) * 10000000000 * pw,
        decreases k,
    {
        let ghost t: int = 7 - k;
        let sw: i128 = s as i128;
        let ghost old_pw = pw as int;
        let ghost old_acc = acc as int;
        k -= 1;
        proof {
            lemma_power_bound(d as int, (6 - k) as nat);
            assert(power(d as int, (6 - k) as nat) == d * old_pw);
        }
        pw = (d as i128) * pw;
        let c = coefficient(map, k, ch) as i128;
        proof {
            lemma_step_bound(c as int, pw as int, old_pw, acc as int, sw as int, d as int, t);
        }
        acc = c * pw + sw * acc;
    }
    proof {
        assert(k == 0);
        assert((7 - k) * 10000000000 * pw <= 7 * 10000000000 * 274941996890625) by (nonlinear_arith)
            requires
                k == 0,
                0 < pw <= 274941996890625,
        ;
    }
    acc
}

fn round_byte(n: i128, q: i128) -> (b: u8)
    requires
        0 < q <= 1000000000000000000000000000000,
    ensures
        b == ramp_byte(n as int, q as int),
{
    if n <= 0 {
        0
    } else if n >= q {
        255
    } else {
        assert((510 * n + q) / (2 * q) <= 255) by (nonlinear_arith)
            requires
                0 < n < q,
        ;
        ((510 * n + q) / (2 * q)) as u8
    }
}

/// Channel `ch` of `map` at the level `s / d`, as a byte.
pub fn channel_byte(map: Colormap, ch: usize, s: u32, d: u32) -> (b: u8)
    requires
        ch < 3,
        0 < d <= 255,
        s <= d,
    ensures
        b == channel(map, ch as int, s as int, d as int),
{
    match map {
        Colormap::Gray => round_byte(s as i128, d as i128),
        Colormap::Classic => {
            let at: usize = if 14 * s >= 13 * d {
                13
            } else {
                (14 * s / d) as usize
            };
            proof {
                if 14 * s < 13 * d {
                    assert((14 * s) / (d as int) <= 13) by (nonlinear_arith)
                        requires
                            14 * s < 13 * d,
                            0 < d,
                    ;
                }
            }
            assert(at <= 13);
            let low = CLASSIC_STOPS[3 * at + ch] as i128;
            let high = CLASSIC_STOPS[3 * at + 3 + ch] as i128;
            proof {
                let span = 14 * (s as int) - (at as int) * (d as int);
                assert(-4000 <= span <= 4000) by (nonlinear_arith)
                    requires
                        s <= d <= 255,
                        at <= 13,
                        span == 14 * (s as int) - (at as int) * (d as int),
                ;
                assert(-0x1_0000_0000_0000_0000 * 256 <= low * (d as int) <= 0x1_0000_0000_0000_0000
                    * 256) by (nonlinear_arith)
                    requires
                        -0x1_0000_0000_0000_0000 <= low <= 0x1_0000_0000_0000_0000,
                        0 < d <= 255,
                ;
                assert(-0x2_0000_0000_0000_0000 * 4000 <= (high - low) * span <= 0x2_0000_0000_0000_0000
                    * 4000) by (nonlinear_arith)
                    requires
                        -0x2_0000_0000_0000_0000 <= high - low <= 0x2_0000_0000_0000_0000,
                        -4000 <= span <= 4000,
                ;
            }
            let n = low * (d as i128) + (high - low) * (14 * (s as i128) - (at as i128) * (
            d as i128));
            assert(COEFFICIENT_UNIT as i128 == 100000000);
            round_byte(n, (COEFFICIENT_UNIT as i128) * (d as i128))
        },
        _ => {
            let n = polynomial_numerator(map, ch, s, d);
            proof {
                lemma_power_bound(d as int, 6);
                reveal_with_fuel(power, 7);
            }
            let mut pw: i128 = 1;
            let mut e: u32 = 0;
            while e < 6
                invariant
                    e <= 6,
                    0 < d <= 255,
                    pw == power(d as int, e as nat),
                    0 < pw <= power(255, e as nat),
                    power(255, e as nat) <= 274941996890625,
                decreases 6 - e,
            {
                proof {
                    lemma_power_bound(d as int, (e + 1) as nat);
                }
                pw = (d as i128) * pw;
                e += 1;
            }
            round_byte(n, (COEFFICIENT_UNIT as i128) * pw)
        },
    }
}

/// The bytes of a ramp's lookup table: 256 levels from 0 to 1, three
/// channels each.
pub open spec fn lut_of(map: Colormap) -> Seq<u8> {
    Seq::new(768, |i: int| channel(map, i % 3, i / 3, 255) as u8)
}

/// A CSS colour stop of a ramp at the level `at / 7`.
pub open spec fn rgb_text(map: Colormap, at: int) -> Seq<char> {
    "rgb("@ + decimal(channel(map, 0, at, 7) as nat) + " "@ + decimal(channel(map, 1, at, 7) as nat)
        + " "@ + decimal(channel(map, 2, at, 7) as nat) + ")"@
}

/// The first `n` stops of a ramp's CSS gradient, joined with commas.
pub open spec fn stops_text(map: Colormap, n: nat) -> Seq<char>
    decreases n,
{
    if n <= 1 {
        rgb_text(map, 0)
    } else {
        stops_text(map, (n - 1) as nat) + ", "@ + rgb_text(map, n - 1)
    }
}

/// A ramp as a CSS linear gradient of eight stops towards `direction`.
pub open spec fn gradient_text(map: Colormap, direction: Seq<char>) -> Seq<char> {
    "linear-gradient("@ + direction + ", "@ + stops_text(map, 8) + ")"@
}

#[verifier::spinoff_prover]
fn push_rgb(out: &mut Vec<char>, map: Colormap, at: u32)
    requires
        at <= 7,
    ensures
        final(out)@ == old(out)@ + rgb_text(map, at as int),
{
    let r = channel_byte(map, 0, at, 7);
    let g = channel_byte(map, 1, at, 7);
    let b = channel_byte(map, 2, at, 7);
    push_str(out, "rgb(");
    push_decimal(out, r as u64);
    push_str(out, " ");
    push_decimal(out, g as u64);
    push_str(out, " ");
    push_decimal(out, b as u64);
    push_str(out, ")");
    assert(final(out)@ =~= old(out)@ + rgb_text(map, at as int));
}

impl Colormap {
    /// The ramp as 256 RGB byte triples, from level 0 to level 1.
    pub fn lut(self) -> (lut: Vec<u8>)
        ensures
            lut@ == lut_of(self),
    {
        let mut out: Vec<u8> = Vec::new();
        let mut i: u32 = 0;
        while i < 768
            invariant
                i <= 768,
                out@ == lut_of(self).take(i as int),
            decreases 768 - i,
        {
            let b = channel_byte(self, (i % 3) as usize, i / 3, 255);
            out.push(b);
            i += 1;
            assert(out@ =~= lut_of(self).take(i as int));
        }
        assert(lut_of(self).take(768) =~= lut_of(self));
        out
    }

    /// The ramp as a CSS linear gradient of eight stops towards `direction`.
    pub fn gradient(self, direction: &str) -> (css: String)
        ensures
            css@ == gradient_text(self, direction@),
    {
        let mut out: Vec<char> = Vec::new();
        push_str(&mut out, "linear-gradient(");
        push_str(&mut out, direction);
        push_str(&mut out, ", ");
        let ghost head = out@;
        let mut at: u32 = 0;
        while at < 8
            invariant
                at <= 8,
                out@ == head + if at == 0 {
                    Seq::empty()
                } else {
                    stops_text(self, at as nat)
                },
            decreases 8 - at,
        {
            if at > 0 {
                push_str(&mut out, ", ");
            }
            push_rgb(&mut out, self, at);
            at += 1;
            assert(out@ =~= head + stops_text(self, at as nat));
        }
        push_str(&mut out, ")");
        assert(out@ =~= gradient_text(self, direction@));
        string_of(out.as_slice())
    }
}

/// A coefficient in coefficient units written with eight decimals, as the
/// shader takes it.
#[verifier::opaque]
pub open spec fn fixed8(v: int) -> Seq<char> {
    let mag = if v < 0 {
        -v
    } else {
        v
    };
    (if v < 0 {
        seq!['-']
    } else {
        Seq::empty()
    }) + decimal((mag / 100000000) as nat) + seq!['.'] + padded((mag % 100000000) as nat, 8)
}

/// A WGSL `vec3<f32>` of three coefficients.
pub open spec fn vec3_text(a: int, b: int, c: int) -> Seq<char> {
    "vec3<f32>("@ + fixed8(a) + ", "@ + fixed8(b) + ", "@ + fixed8(c) + ")"@
}

/// The first `n` stops of the classic ramp as WGSL vectors, one per line.
pub open spec fn classic_list(n: nat) -> Seq<char>
    decreases n,
{
    let row = |i: int| vec3_text(
        CLASSIC_STOPS@[3 * i] as int,
        CLASSIC_STOPS@[3 * i + 1] as int,
        CLASSIC_STOPS@[3 * i + 2] as int,
    );
    if n <= 1 {
        row(0)
    } else {
        classic_list((n - 1) as nat) + ",\n    "@ + row(n - 1)
    }
}

/// The first `n` coefficient rows of a polynomial ramp as WGSL vectors.
pub open spec fn poly_list(map: Colormap, n: nat) -> Seq<char>
    decreases n,
{
    let row = |k: int| vec3_text(
        coefficient_of(map, k, 0),
        coefficient_of(map, k, 1),
        coefficient_of(map, k, 2),
    );
    if n <= 1 {
        row(0)
    } else {
        poly_list(map, (n - 1) as nat) + ", "@ + row(n - 1)
    }
}

/// The line of the shader that evaluates a polynomial ramp.
pub open spec fn branch_text(map: Colormap) -> Seq<char> {
    "    if (map == "@ + decimal(index_of(map) as nat) + "u) { return poly(t, "@ + poly_list(map, 7)
        + "); }\n"@
}

/// The WGSL source of the ramps: the classic stops, the polynomial and
/// classic evaluators, and `colormap`, which switches on the ramp index.
pub open spec fn wgsl_text() -> Seq<char> {
    "var<private> CLASSIC: array<vec3<f32>, "@ + decimal(15) + "> = array<vec3<f32>, "@ + decimal(15)
        + ">(\n    "@ + classic_list(15) + "\n);\n"@
        + "fn poly(t: f32, c0: vec3<f32>, c1: vec3<f32>, c2: vec3<f32>, c3: vec3<f32>, c4: vec3<f32>, c5: vec3<f32>, c6: vec3<f32>) -> vec3<f32> {\n    return clamp(c0 + t * (c1 + t * (c2 + t * (c3 + t * (c4 + t * (c5 + t * c6))))), vec3<f32>(0.0), vec3<f32>(1.0));\n}\n"@
        + "fn classic(t: f32) -> vec3<f32> {\n    let x = t * "@ + decimal(14) + ".0;\n    let i = min(i32(floor(x)), "@ + decimal(13)
        + ");\n    return mix(CLASSIC[i], CLASSIC[i + 1], x - f32(i));\n}\n"@
        + "fn colormap(level: f32, map: u32) -> vec3<f32> {\n    let t = clamp(level, 0.0, 1.0);\n"@
        + branch_text(Colormap::Magma) + branch_text(Colormap::Inferno) + branch_text(Colormap::Plasma)
        + branch_text(Colormap::Viridis) + "    if (map == "@ + decimal(index_of(Colormap::Gray) as nat)
        + "u) { return vec3<f32>(t); }\n    return classic(t);\n}\n"@
}

/// The whole waterfall shader: the vertex stage, the ramps, and the fragment
/// stage.
pub open spec fn waterfall_text() -> Seq<char> {
    VERTEX_WGSL@ + "\n"@ + wgsl_text() + "\n"@ + WATERFALL_WGSL@
}

fn push_fixed8(out: &mut Vec<char>, v: i64)
    requires
        v > i64::MIN,
    ensures
        final(out)@ == old(out)@ + fixed8(v as int),
{
    reveal(fixed8);
    let mag: u64 = if v < 0 {
        (-v) as u64
    } else {
        v as u64
    };
    let ghost start = out@;
    if v < 0 {
        out.push('-');
    }
    let ghost signed = out@;
    push_decimal(out, mag / 100000000);
    out.push('.');
    push_padded(out, mag % 100000000, 8);
    proof {
        let sign: Seq<char> = if v < 0 {
            seq!['-']
        } else {
            Seq::empty()
        };
        assert(signed =~= start + sign);
        assert(final(out)@ =~= start + fixed8(v as int));
    }
}

fn push_vec3(out: &mut Vec<char>, a: i64, b: i64, c: i64)
    requires
        a > i64::MIN,
        b > i64::MIN,
        c > i64::MIN,
    ensures
        final(out)@ == old(out)@ + vec3_text(a as int, b as int, c as int),
{
    push_str(out, "vec3<f32>(");
    push_fixed8(out, a);
    push_str(out, ", ");
    push_fixed8(out, b);
    push_str(out, ", ");
    push_fixed8(out, c);
    push_str(out, ")");
    assert(final(out)@ =~= old(out)@ + vec3_text(a as int, b as int, c as int));
}

fn push_branch(out: &mut Vec<char>, map: Colormap)
    requires
        is_polynomial(map),
    ensures
        final(out)@ == old(out)@ + branch_text(map),
{
    push_str(out, "    if (map == ");
    push_decimal(out, map.index() as u64);
    push_str(out, "u) { return poly(t, ");
    let ghost head = out@;
    let mut k: usize = 0;
    while k < 7
        invariant
            k <= 7,
            is_polynomial(map),
            out@ == head + if k == 0 {
                Seq::empty()
            } else {
                poly_list(map, k as nat)
            },
        decreases 7 - k,
    {
        if k > 0 {
            push_str(out, ", ");
        }
        push_vec3(out, coefficient(map, k, 0), coefficient(map, k, 1), coefficient(map, k, 2));
        k += 1;
        assert(out@ =~= head + poly_list(map, k as nat));
    }
    push_str(out, "); }\n");
    assert(final(out)@ =~= old(out)@ + branch_text(map));
}

/// The WGSL source of the ramps, for the waterfall shader.
pub fn colormap_wgsl() -> (source: String)
    ensures
        source@ == wgsl_text(),
{
    let mut out: Vec<char> = Vec::new();
    push_str(&mut out, "var<private> CLASSIC: array<vec3<f32>, ");
    push_decimal(&mut out, CLASSIC_COUNT as u64);
    push_str(&mut out, "> = array<vec3<f32>, ");
    push_decimal(&mut out, CLASSIC_COUNT as u64);
    push_str(&mut out, ">(\n    ");
    let ghost head = out@;
    let mut i: usize = 0;
    while i < CLASSIC_COUNT
        invariant
            i <= CLASSIC_COUNT,
            out@ == head + if i == 0 {
                Seq::empty()
            } else {
                classic_list(i as nat)
            },
        decreases CLASSIC_COUNT - i,
    {
        if i > 0 {
            push_str(&mut out, ",\n    ");
        }
        push_vec3(&mut out, CLASSIC_STOPS[3 * i], CLASSIC_STOPS[3 * i + 1], CLASSIC_STOPS[3 * i + 2]);
        i += 1;
        assert(out@ =~= head + classic_list(i as nat));
    }
    push_str(&mut out, "\n);\n");
    push_str(
        &mut out,
        "fn poly(t: f32, c0: vec3<f32>, c1: vec3<f32>, c2: vec3<f32>, c3: vec3<f32>, c4: vec3<f32>, c5: vec3<f32>, c6: vec3<f32>) -> vec3<f32> {\n    return clamp(c0 + t * (c1 + t * (c2 + t * (c3 + t * (c4 + t * (c5 + t * c6))))), vec3<f32>(0.0), vec3<f32>(1.0));\n}\n",
    );
    push_str(&mut out, "fn classic(t: f32) -> vec3<f32> {\n    let x = t * ");
    push_decimal(&mut out, (CLASSIC_COUNT - 1) as u64);
    push_str(&mut out, ".0;\n    let i = min(i32(floor(x)), ");
    push_decimal(&mut out, (CLASSIC_COUNT - 2) as u64);
    push_str(&mut out, ");\n    return mix(CLASSIC[i], CLASSIC[i + 1], x - f32(i));\n}\n");
    push_str(&mut out, "fn colormap(level: f32, map: u32) -> vec3<f32> {\n    let t = clamp(level, 0.0, 1.0);\n");
    push_branch(&mut out, Colormap::Magma);
    push_branch(&mut out, Colormap::Inferno);
    push_branch(&mut out, Colormap::Plasma);
    push_branch(&mut out, Colormap::Viridis);
    push_str(&mut out, "    if (map == ");
    push_decimal(&mut out, Colormap::Gray.index() as u64);
    push_str(&mut out, "u) { return vec3<f32>(t); }\n    return classic(t);\n}\n");
    assert(out@ =~= wgsl_text());
    string_of(out.as_slice())
}

/// The whole waterfall shader source.
pub fn waterfall_source() -> (source: String)
    ensures
        source@ == waterfall_text(),
{
    let mut out: Vec<char> = Vec::new();
    push_str(&mut out, VERTEX_WGSL);
    push_str(&mut out, "\n");
    let ramps = colormap_wgsl();
    push_str(&mut out, ramps.as_str());
    push_str(&mut out, "\n");
    push_str(&mut out, WATERFALL_WGSL);
    assert(out@ =~= waterfall_text());
    string_of(out.as_slice())
}

/// Coefficient row `k` of a polynomial ramp, written as the shader takes it.
pub open spec fn coefficient_row(map: Colormap, k: int) -> Seq<char> {
    vec3_text(coefficient_of(map, k, 0), coefficient_of(map, k, 1), coefficient_of(map, k, 2))
}

/// The seven coefficient rows of a polynomial ramp, comma separated.
pub open spec fn coefficient_rows(map: Colormap) -> Seq<char> {
    coefficient_row(map, 0) + ", "@ + coefficient_row(map, 1) + ", "@ + coefficient_row(map, 2) + ", "@
        + coefficient_row(map, 3) + ", "@ + coefficient_row(map, 4) + ", "@ + coefficient_row(map, 5)
        + ", "@ + coefficient_row(map, 6)
}

/// The shader line that evaluates, for ramp index `i`, the polynomial with
/// the seven coefficient rows of `map`, the coefficients its lookup table is
/// sampled from.
#[verifier::opaque]
pub open spec fn shader_branch(i: int, map: Colormap) -> Seq<char> {
    "    if (map == "@ + decimal(i as nat) + "u) { return poly(t, "@ + coefficient_rows(map) + "); }\n"@
}

proof fn lemma_branch_text(map: Colormap)
    ensures
        branch_text(map) == shader_branch(index_of(map) as int, map),
{
    reveal_with_fuel(poly_list, 8);
    reveal(shader_branch);
    assert(poly_list(map, 7) == coefficient_rows(map));
}

/// The shader switches on the ramp index to the ramp at that index of
/// `COLORMAPS`: the polynomial ramps at indices 1 to 4 each get, in that
/// order, the line that evaluates their own coefficients, the ones their
/// lookup tables and gradients are sampled from.
/// The ramps part of the shader before its polynomial branches.
spec fn ramps_head() -> Seq<char> {
    "var<private> CLASSIC: array<vec3<f32>, "@ + decimal(15) + "> = array<vec3<f32>, "@ + decimal(15)
        + ">(\n    "@ + classic_list(15) + "\n);\n"@
        + "fn poly(t: f32, c0: vec3<f32>, c1: vec3<f32>, c2: vec3<f32>, c3: vec3<f32>, c4: vec3<f32>, c5: vec3<f32>, c6: vec3<f32>) -> vec3<f32> {\n    return clamp(c0 + t * (c1 + t * (c2 + t * (c3 + t * (c4 + t * (c5 + t * c6))))), vec3<f32>(0.0), vec3<f32>(1.0));\n}\n"@
        + "fn classic(t: f32) -> vec3<f32> {\n    let x = t * "@ + decimal(14) + ".0;\n    let i = min(i32(floor(x)), "@ + decimal(13)
        + ");\n    return mix(CLASSIC[i], CLASSIC[i + 1], x - f32(i));\n}\n"@
        + "fn colormap(level: f32, map: u32) -> vec3<f32> {\n    let t = clamp(level, 0.0, 1.0);\n"@
}

proof fn lemma_wgsl_parts()
    ensures
        wgsl_text() == ramps_head() + branch_text(Colormap::Magma) + branch_text(Colormap::Inferno)
            + branch_text(Colormap::Plasma) + branch_text(Colormap::Viridis) + "    if (map == "@
            + decimal(index_of(Colormap::Gray) as nat) + "u) { return vec3<f32>(t); }\n    return classic(t);\n}\n"@,
{
}

/// The shader switches on the ramp index to the ramp at that index of
/// `COLORMAPS`: the polynomial ramps at indices 1 to 4 each get, in that
/// order, the line that evaluates their own coefficients, the ones their
/// lookup tables and gradients are sampled from.
pub proof fn law_shader_branches_follow_the_ramps()
    ensures
        forall|i: int| 1 <= i <= 4 ==> #[trigger] is_polynomial(COLORMAPS@[i]),
        exists|head: Seq<char>, tail: Seq<char>|
            wgsl_text() == head + shader_branch(1, COLORMAPS@[1]) + shader_branch(2, COLORMAPS@[2])
                + shader_branch(3, COLORMAPS@[3]) + shader_branch(4, COLORMAPS@[4]) + tail,
{
    assert(COLORMAPS@[1] == Colormap::Magma);
    assert(COLORMAPS@[2] == Colormap::Inferno);
    assert(COLORMAPS@[3] == Colormap::Plasma);
    assert(COLORMAPS@[4] == Colormap::Viridis);
    lemma_branch_text(Colormap::Magma);
    lemma_branch_text(Colormap::Inferno);
    lemma_branch_text(Colormap::Plasma);
    lemma_branch_text(Colormap::Viridis);
    lemma_wgsl_parts();
    let head = ramps_head();
    let t1 = "    if (map == "@;
    let t2 = decimal(index_of(Colormap::Gray) as nat);
    let t3 = "u) { return vec3<f32>(t); }\n    return classic(t);\n}\n"@;
    let body = head + shader_branch(1, COLORMAPS@[1]) + shader_branch(2, COLORMAPS@[2])
        + shader_branch(3, COLORMAPS@[3]) + shader_branch(4, COLORMAPS@[4]);
    assert(wgsl_text() == body + t1 + t2 + t3);
    vstd::seq_lib::lemma_concat_associative(body + t1, t2, t3);
    vstd::seq_lib::lemma_concat_associative(body, t1, t2 + t3);
    let tail = t1 + (t2 + t3);
    assert(wgsl_text() == body + tail);
}

/// Each ramp's index brings back that ramp, and every index of `COLORMAPS`
/// is the index of the ramp it holds: the order the shader switches on.
pub proof fn law_index_round_trip(map: Colormap, index: int)
    requires
        0 <= index < 6,
    ensures
        index_of(map) < 6,
        at_index(index_of(map) as int) == map,
        index_of(at_index(index)) == index,
{
}

} // verus!
