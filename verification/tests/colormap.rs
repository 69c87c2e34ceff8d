use faces::colormap::{colormap_wgsl, waterfall_source, Colormap, COLORMAPS};

type Rgb = [f64; 3];

fn classic(t: f64) -> Rgb {
    let stops: Vec<Rgb> = faces::colormap::CLASSIC_STOPS
        .chunks(3)
        .map(|c| [c[0] as f64 / 1e8, c[1] as f64 / 1e8, c[2] as f64 / 1e8])
        .collect();
    let x = t * (stops.len() - 1) as f64;
    let at = (x.floor() as usize).min(stops.len() - 2);
    let (low, high) = (stops[at], stops[at + 1]);
    let f = x - at as f64;
    [
        low[0] + (high[0] - low[0]) * f,
        low[1] + (high[1] - low[1]) * f,
        low[2] + (high[2] - low[2]) * f,
    ]
}

fn table(map: Colormap) -> Option<&'static [i64; 21]> {
    match map {
        Colormap::Magma => Some(&faces::colormap::MAGMA),
        Colormap::Inferno => Some(&faces::colormap::INFERNO),
        Colormap::Plasma => Some(&faces::colormap::PLASMA),
        Colormap::Viridis => Some(&faces::colormap::VIRIDIS),
        _ => None,
    }
}

fn sample(map: Colormap, t: f64) -> Rgb {
    let x = t.clamp(0.0, 1.0);
    if map == Colormap::Gray {
        return [x, x, x];
    }
    let Some(poly) = table(map) else {
        return classic(x);
    };
    let mut out = [0.0; 3];
    for (channel, slot) in out.iter_mut().enumerate() {
        let value = (0..7)
            .rev()
            .fold(0.0, |acc, k| poly[3 * k + channel] as f64 / 1e8 + x * acc);
        *slot = value.clamp(0.0, 1.0);
    }
    out
}

#[test]
fn the_index_order_is_the_one_the_shader_switches_on() {
    let names: Vec<&str> = COLORMAPS.iter().map(|map| map.name()).collect();
    assert_eq!(
        names,
        ["classic", "magma", "inferno", "plasma", "viridis", "gray"]
    );
    assert_eq!(Colormap::default().index(), 0);
    assert_eq!(Colormap::from_index(4), Colormap::Viridis);
    assert_eq!(Colormap::from_index(99), Colormap::Classic);
}

#[test]
fn the_shader_branches_on_each_polynomial_ramp() {
    let source = colormap_wgsl();
    for map in [
        Colormap::Magma,
        Colormap::Inferno,
        Colormap::Plasma,
        Colormap::Viridis,
    ] {
        assert!(source.contains(&format!("if (map == {}u) {{ return poly(t,", map.index())));
    }
    assert!(source.contains("if (map == 5u) { return vec3<f32>(t); }"));
    assert!(
        source.contains("var<private> CLASSIC: array<vec3<f32>, 15> = array<vec3<f32>, 15>(")
    );
    assert!(source.contains("vec3<f32>(0.00000000, 0.00000000, 0.12549000)"));
}

#[test]
fn the_shader_writes_each_coefficient_with_eight_decimals() {
    let source = colormap_wgsl();
    assert!(source.contains("vec3<f32>(-0.00213649, -0.00074966, -0.00538613)"));
    assert!(source.contains("vec3<f32>(6.22826994, 14.17993337, 56.69055200)"));
    assert!(source.contains("    let x = t * 14.0;\n    let i = min(i32(floor(x)), 13);\n"));
    assert!(source.ends_with("    return classic(t);\n}\n"));
}

#[test]
fn the_waterfall_shader_wraps_the_ramps_in_its_stages() {
    let source = waterfall_source();
    assert!(source.starts_with(faces::colormap::VERTEX_WGSL));
    assert!(source.ends_with(faces::colormap::WATERFALL_WGSL));
    assert!(source.contains(&colormap_wgsl()));
}

#[test]
fn a_lookup_table_holds_256_triples_matching_the_ends() {
    let lut = Colormap::Gray.lut();
    assert_eq!(lut.len(), 768);
    assert_eq!(lut[..3], [0, 0, 0]);
    assert_eq!(lut[765..], [255, 255, 255]);
}

#[test]
fn every_lookup_table_matches_the_ramp_sampled_in_floating_point() {
    for map in COLORMAPS {
        let expected: Vec<u8> = (0..256)
            .flat_map(|step| {
                sample(map, f64::from(step) / 255.0).map(|channel| (channel * 255.0).round() as u8)
            })
            .collect();
        assert_eq!(map.lut(), expected, "{map:?}");
    }
}

#[test]
fn a_gradient_names_eight_stops() {
    let gradient = Colormap::Gray.gradient("to right");
    assert!(gradient.starts_with("linear-gradient(to right, rgb(0 0 0)"));
    assert!(gradient.ends_with("rgb(255 255 255))"));
    assert_eq!(gradient.matches("rgb(").count(), 8);
}

#[test]
fn every_gradient_matches_the_ramp_sampled_in_floating_point() {
    for map in COLORMAPS {
        let stops: Vec<String> = (0..8u32)
            .map(|at| {
                let [r, g, b] = sample(map, f64::from(at) / 7.0);
                format!(
                    "rgb({} {} {})",
                    (r * 255.0).round(),
                    (g * 255.0).round(),
                    (b * 255.0).round()
                )
            })
            .collect();
        let expected = format!("linear-gradient(to top, {})", stops.join(", "));
        assert_eq!(map.gradient("to top"), expected, "{map:?}");
    }
}
