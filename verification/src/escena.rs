//! The wall ray-caster: one ray per output column, stepped through the
//! grid one cell boundary at a time until it meets a non-walkable cell,
//! then projected as a texture-mapped vertical strip.
//!
//! The distance written into the depth buffer is the perpendicular
//! distance to the camera's view plane, clamped to a small positive
//! minimum, so vertical wall edges stay straight under projection.

use vstd::prelude::*;

verus! {

use vstd::arithmetic::div_mod::lemma_div_is_ordered;
use vstd::arithmetic::div_mod::lemma_div_multiples_vanish;
use vstd::arithmetic::div_mod::lemma_div_pos_is_pos;
use vstd::arithmetic::mul::lemma_mul_is_distributive_add;
use vstd::arithmetic::mul::lemma_mul_left_inequality;
use vstd::arithmetic::mul::lemma_mul_upper_bound;
use crate::fijo::ajuste_vuelta;
use crate::fijo::coseno;
use crate::fijo::coseno_spec;
use crate::fijo::div_pos;
use crate::fijo::div_t;
use crate::fijo::div_trunca;
use crate::fijo::fraccion_fp;
use crate::fijo::fraccion_spec;
use crate::fijo::lema_seno_coseno_no_cero;
use crate::fijo::lema_div_no_crece;
use crate::fijo::mul_fp_largo;
use crate::fijo::mul_fp_spec;
use crate::fijo::piso_fp;
use crate::fijo::piso_spec;
use crate::fijo::rotar;
use crate::fijo::seno;
use crate::fijo::seno_spec;
use crate::mapas::ancho;
use crate::mapas::caminable;
use crate::mapas::caminable_en;
use crate::mapas::celda;
use crate::mapas::celda_en;
use crate::mapas::es_caminable;
use crate::mapas::mapa_valido;
use crate::mapas::Celda;
use crate::mapas::Mapa;
use crate::motor::jugador_valido;
use crate::motor::Color;
use crate::motor::Framebuffer;
use crate::motor::Jugador;
use crate::motor::Texturas;

/// The sentinel side distance of an axis the ray never crosses.
pub const SD_INF: i64 = 0x4_0000_0000_0000;

/// The smallest depth the caster reports: 1/1024 of a cell.
pub const PERP_MIN: i64 = 64;

/// The depth of a column whose ray left the map without hitting a wall.
pub const Z_INF: i64 = i64::MAX;

/// Half the horizontal field of view, in binary angle units (30 degrees).
pub const MEDIO_FOV: i64 = 5461;

/// Magnitude of an integer.
pub open spec fn abs_i(x: int) -> int {
    if x < 0 {
        -x
    } else {
        x
    }
}

/// Parametric distance between two grid lines along one axis, for a ray
/// direction component `d`: 1/|d| in fixed point, or the sentinel when the
/// ray is parallel to that axis.
pub open spec fn delta_spec(d: int) -> int {
    if d == 0 {
        0x4_0000_0000_0000
    } else {
        4294967296int / abs_i(d)
    }
}

/// Which way the traversal steps along one axis.
pub open spec fn paso_spec(d: int) -> int {
    if d < 0 {
        -1
    } else {
        1
    }
}

/// Parametric distance from the start position to the first grid line
/// crossed along one axis.
pub open spec fn sd_inicial_spec(p: int, d: int) -> int {
    if d == 0 {
        0x4_0000_0000_0000
    } else if d < 0 {
        (fraccion_spec(p) * delta_spec(d)) / 65536
    } else {
        ((65536 - fraccion_spec(p)) * delta_spec(d)) / 65536
    }
}

/// Grid traversal: step to the nearer of the next vertical or horizontal
/// grid line until the entered cell is non-walkable (the hit, with the
/// crossed axis as its side: 0 for a vertical face, 1 for a horizontal
/// one) or the map boundary is left (no hit). The fuel only bounds the
/// recursion; a traversal started inside the map leaves it before the
/// fuel runs out.
pub open spec fn dda(
    m: Seq<Seq<Celda>>,
    mx: int,
    my: int,
    sdx: int,
    sdy: int,
    dlx: int,
    dly: int,
    px: int,
    py: int,
    fuel: nat,
) -> Option<(int, int, int)>
    decreases fuel,
{
    if fuel == 0 {
        None
    } else if sdx < sdy {
        let mx2 = mx + px;
        match celda_en(m, mx2, my) {
            Option::None => None,
            Option::Some(c) => if !caminable(c) {
                Some((mx2, my, 0))
            } else {
                dda(m, mx2, my, sdx + dlx, sdy, dlx, dly, px, py, (fuel - 1) as nat)
            },
        }
    } else {
        let my2 = my + py;
        match celda_en(m, mx, my2) {
            Option::None => None,
            Option::Some(c) => if !caminable(c) {
                Some((mx, my2, 1))
            } else {
                dda(m, mx, my2, sdx, sdy + dly, dlx, dly, px, py, (fuel - 1) as nat)
            },
        }
    }
}

/// The cell and side hit by a ray from (jx, jy) with direction (dx, dy),
/// if it hits one before leaving the map.
pub open spec fn rayo_spec(m: Seq<Seq<Celda>>, jx: int, jy: int, dx: int, dy: int) -> Option<
    (int, int, int),
> {
    dda(
        m,
        piso_spec(jx),
        piso_spec(jy),
        sd_inicial_spec(jx, dx),
        sd_inicial_spec(jy, dy),
        delta_spec(dx),
        delta_spec(dy),
        paso_spec(dx),
        paso_spec(dy),
        (m.len() + ancho(m) + 2) as nat,
    )
}

/// Perpendicular distance from the camera plane to the hit face, before
/// clamping: the offset to the crossed grid line divided by the matching
/// direction component.
pub open spec fn perp_bruta(jx: int, jy: int, dx: int, dy: int, hit: (int, int, int)) -> int {
    if hit.2 == 0 {
        let num = hit.0 * 65536 - jx + (if dx < 0 {
            65536int
        } else {
            0int
        });
        (abs_i(num) * 65536) / abs_i(dx)
    } else {
        let num = hit.1 * 65536 - jy + (if dy < 0 {
            65536int
        } else {
            0int
        });
        (abs_i(num) * 65536) / abs_i(dy)
    }
}

/// Perpendicular distance, clamped to the positive minimum.
pub open spec fn perp_de(jx: int, jy: int, dx: int, dy: int, hit: (int, int, int)) -> int {
    let p = perp_bruta(jx, jy, dx, dy, hit);
    if p < 64 {
        64
    } else {
        p
    }
}

/// Horizontal texture coordinate of the hit: the fractional part of the
/// hit position along the crossed face.
pub open spec fn coord_textura(jx: int, jy: int, dx: int, dy: int, hit: (int, int, int)) -> int {
    let p = perp_de(jx, jy, dx, dy, hit);
    if hit.2 == 0 {
        fraccion_spec(jy + mul_fp_spec(p, dy))
    } else {
        fraccion_spec(jx + mul_fp_spec(p, dx))
    }
}

/// What one ray found: the hit cell, the crossed axis, the clamped
/// perpendicular depth and the horizontal texture coordinate.
#[derive(Clone, Copy, PartialEq, Eq, Structural, Debug)]
pub struct Impacto {
    pub celda_x: i64,
    pub celda_y: i64,
    pub lado: u8,
    pub pared: Celda,
    pub perp: i64,
    pub textura: i64,
}

/// The full result of one cast, as a value of `Impacto`.
pub open spec fn impacto_spec(m: Seq<Seq<Celda>>, jx: int, jy: int, dx: int, dy: int) -> Option<
    Impacto,
> {
    match rayo_spec(m, jx, jy, dx, dy) {
        None => None,
        Some(hit) => Some(
            Impacto {
                celda_x: hit.0 as i64,
                celda_y: hit.1 as i64,
                lado: hit.2 as u8,
                pared: match celda_en(m, hit.0, hit.1) {
                    Some(c) => c,
                    None => Celda::Piso,
                },
                perp: perp_de(jx, jy, dx, dy, hit) as i64,
                textura: coord_textura(jx, jy, dx, dy, hit) as i64,
            },
        ),
    }
}

/// Cast one ray through the grid.
#[verifier::loop_isolation(false)]
#[verifier::rlimit(60)]
pub fn lanzar_rayo(m: &Mapa, jx: i64, jy: i64, dx: i64, dy: i64) -> (r: Option<Impacto>)
    requires
        mapa_valido(m.deep_view()),
        1 <= m.deep_view().len(),
        1 <= ancho(m.deep_view()),
        0 <= jx <= 16777216,
        0 <= jy <= 16777216,
        -65536 <= dx <= 65536,
        -65536 <= dy <= 65536,
        dx != 0 || dy != 0,
    ensures
        r == impacto_spec(m.deep_view(), jx as int, jy as int, dx as int, dy as int),
        r matches Some(imp) ==> imp.perp >= 64 && 0 <= imp.textura < 65536 && !caminable(
            imp.pared,
        ),
{
    let ghost v = m.deep_view();
    let x0 = piso_fp(jx);
    let y0 = piso_fp(jy);
    let fx = fraccion_fp(jx);
    let fy = fraccion_fp(jy);

    let (dlx, sdx0, px): (i64, i64, i64) = if dx == 0 {
        (SD_INF, SD_INF, 1)
    } else {
        let adx = if dx < 0 {
            -dx
        } else {
            dx
        };
        let dl = div_pos(0x1_0000_0000, adx);
        proof {
            lema_delta_en_rango(adx as int);
            lemma_mul_upper_bound(fx as int, 65536, dl as int, 0x1_0000_0000);
            lemma_mul_upper_bound(65536 - fx as int, 65536, dl as int, 0x1_0000_0000);
            vstd::arithmetic::mul::lemma_mul_nonnegative(fx as int, dl as int);
            vstd::arithmetic::mul::lemma_mul_nonnegative(65536 - fx as int, dl as int);
        }
        if dx < 0 {
            (dl, div_pos(fx * dl, 65536), -1)
        } else {
            (dl, div_pos((65536 - fx) * dl, 65536), 1)
        }
    };
    let (dly, sdy0, py): (i64, i64, i64) = if dy == 0 {
        (SD_INF, SD_INF, 1)
    } else {
        let ady = if dy < 0 {
            -dy
        } else {
            dy
        };
        let dl = div_pos(0x1_0000_0000, ady);
        proof {
            lema_delta_en_rango(ady as int);
            lemma_mul_upper_bound(fy as int, 65536, dl as int, 0x1_0000_0000);
            lemma_mul_upper_bound(65536 - fy as int, 65536, dl as int, 0x1_0000_0000);
            vstd::arithmetic::mul::lemma_mul_nonnegative(fy as int, dl as int);
            vstd::arithmetic::mul::lemma_mul_nonnegative(65536 - fy as int, dl as int);
        }
        if dy < 0 {
            (dl, div_pos(fy * dl, 65536), -1)
        } else {
            (dl, div_pos((65536 - fy) * dl, 65536), 1)
        }
    };
    proof {
        // The initial side distances are at most one full delta.
        if dx != 0 {
            lema_sd_inicial_cota(fx as int, dlx as int);
            vstd::arithmetic::mul::lemma_mul_basics(dlx as int);
        }
        if dy != 0 {
            lema_sd_inicial_cota(fy as int, dly as int);
            vstd::arithmetic::mul::lemma_mul_basics(dly as int);
        }
    }

    let alto = m.len();
    let w = m[0].len();
    let mut fuel: usize = alto + w + 2;
    let ghost fuel0 = fuel as nat;
    let ghost meta = rayo_spec(v, jx as int, jy as int, dx as int, dy as int);

    let mut mx = x0;
    let mut my = y0;
    let mut sdx = sdx0;
    let mut sdy = sdy0;
    let mut lado: u8 = 0;
    let mut pared: Celda = Celda::Piso;
    let mut hallado: bool = false;
    let mut terminado: bool = false;

    while fuel > 0 && !terminado
        invariant
            fuel <= fuel0,
            hallado ==> terminado,
            !terminado ==> dda(
                v,
                mx as int,
                my as int,
                sdx as int,
                sdy as int,
                dlx as int,
                dly as int,
                px as int,
                py as int,
                fuel as nat,
            ) == meta,
            dx == 0 ==> sdx == SD_INF && dlx == SD_INF,
            dx != 0 ==> 1 <= dlx <= 0x1_0000_0000 && 0 <= sdx
                && sdx <= dlx * (1 + fuel0 - fuel as nat),
            dy == 0 ==> sdy == SD_INF && dly == SD_INF,
            dy != 0 ==> 1 <= dly <= 0x1_0000_0000 && 0 <= sdy
                && sdy <= dly * (1 + fuel0 - fuel as nat),
            x0 - (fuel0 - fuel as nat) <= mx <= x0 + (fuel0 - fuel as nat),
            y0 - (fuel0 - fuel as nat) <= my <= y0 + (fuel0 - fuel as nat),
            terminado && hallado ==> meta == Some((mx as int, my as int, lado as int))
                && celda_en(v, mx as int, my as int) == Some(pared) && !caminable(pared)
                && lado <= 1 && (lado == 0 ==> dx != 0) && (lado == 1 ==> dy != 0),
            terminado && !hallado ==> meta is None,
        decreases fuel,
    {
        proof {
            let pasos = fuel0 - fuel as nat;
            if dx != 0 {
                lemma_mul_upper_bound(dlx as int, 0x1_0000_0000, 1 + pasos, 600);
                lemma_mul_is_distributive_add(dlx as int, 1 + pasos, 1);
                lemma_mul_left_inequality(dlx as int, 1 + pasos, 2 + pasos);
            }
            if dy != 0 {
                lemma_mul_upper_bound(dly as int, 0x1_0000_0000, 1 + pasos, 600);
                lemma_mul_is_distributive_add(dly as int, 1 + pasos, 1);
                lemma_mul_left_inequality(dly as int, 1 + pasos, 2 + pasos);
            }
        }
        if sdx < sdy {
            proof {
                // A side distance below the sentinel means the axis is real.
                assert(dx != 0);
            }
            sdx = sdx + dlx;
            mx = mx + px;
            lado = 0;
        } else {
            proof {
                assert(dy != 0);
            }
            sdy = sdy + dly;
            my = my + py;
            lado = 1;
        }
        fuel = fuel - 1;
        match celda(m, mx as i32, my as i32) {
            None => {
                terminado = true;
            },
            Some(c) => {
                if !es_caminable(c) {
                    pared = c;
                    hallado = true;
                    terminado = true;
                }
            },
        }
    }
    proof {
        if !terminado {
            assert(meta is None);
        }
        if hallado {
            assert(-1000 <= mx <= 1000 && -1000 <= my <= 1000);
        }
    }
    if !hallado {
        return None;
    }

    let (num, den): (i64, i64) = if lado == 0 {
        (mx * 65536 - jx + (if dx < 0 { 65536 } else { 0 }), dx)
    } else {
        (my * 65536 - jy + (if dy < 0 { 65536 } else { 0 }), dy)
    };
    let anum = if num < 0 {
        -num
    } else {
        num
    };
    let aden = if den < 0 {
        -den
    } else {
        den
    };
    let perp_b = div_pos(anum * 65536, aden);
    proof {
        lemma_div_pos_is_pos(anum as int * 65536, aden as int);
        lema_div_no_crece(anum as int * 65536, aden as int);
    }
    let perp = if perp_b < PERP_MIN {
        PERP_MIN
    } else {
        perp_b
    };
    let wx = if lado == 0 {
        let t = mul_fp_largo(perp, dy);
        proof {
            assert(-0x2000_0000_0000_0000_0000 <= perp as int * dy as int
                <= 0x2000_0000_0000_0000_0000) by (nonlinear_arith)
                requires 0 <= perp <= 0x20_0000_0000_0000 && -65536 <= dy <= 65536;
            crate::fijo::lema_div_trunca_cota(
                perp as int * dy as int,
                0x2000_0000_0000_0000_0000,
            );
        }
        fraccion_fp(jy + t)
    } else {
        let t = mul_fp_largo(perp, dx);
        proof {
            assert(-0x2000_0000_0000_0000_0000 <= perp as int * dx as int
                <= 0x2000_0000_0000_0000_0000) by (nonlinear_arith)
                requires 0 <= perp <= 0x20_0000_0000_0000 && -65536 <= dx <= 65536;
            crate::fijo::lema_div_trunca_cota(
                perp as int * dx as int,
                0x2000_0000_0000_0000_0000,
            );
        }
        fraccion_fp(jx + t)
    };
    Some(
        Impacto {
            celda_x: mx,
            celda_y: my,
            lado,
            pared,
            perp,
            textura: wx,
        },
    )
}

/// The grid-line spacing along one axis lies between one unit and 2^32.
proof fn lema_delta_en_rango(ad: int)
    requires
        1 <= ad <= 65536,
    ensures
        1 <= 4294967296int / ad <= 0x1_0000_0000,
{
    lemma_div_multiples_vanish(1, ad);
    assert(ad * 1 == ad);
    lemma_div_is_ordered(ad, 4294967296, ad);
    lemma_div_multiples_vanish(0x1_0000_0000, ad);
    assert(4294967296 <= ad * 0x1_0000_0000) by (nonlinear_arith)
        requires 1 <= ad;
    lemma_div_is_ordered(4294967296, ad * 0x1_0000_0000, ad);
}

/// The distance to the first grid line is at most one full spacing.
proof fn lema_sd_inicial_cota(f: int, dl: int)
    requires
        0 <= f < 65536,
        1 <= dl <= 0x1_0000_0000,
    ensures
        0 <= (f * dl) / 65536 <= dl,
        0 <= ((65536 - f) * dl) / 65536 <= dl,
{
    lemma_mul_upper_bound(f, 65536, dl, dl);
    lemma_mul_upper_bound(65536 - f, 65536, dl, dl);
    vstd::arithmetic::mul::lemma_mul_nonnegative(f, dl);
    vstd::arithmetic::mul::lemma_mul_nonnegative(65536 - f, dl);
    lemma_div_pos_is_pos(f * dl, 65536);
    lemma_div_pos_is_pos((65536 - f) * dl, 65536);
    lemma_div_is_ordered(f * dl, 65536 * dl, 65536);
    lemma_div_is_ordered((65536 - f) * dl, 65536 * dl, 65536);
    lemma_div_multiples_vanish(dl, 65536);
}

/// Sky above the horizon, floor below: the pre-fill of every column.
pub open spec fn pixel_cielo_suelo(h: int, y: int) -> Color {
    if y < h / 2 {
        Color { r: 102, g: 191, b: 255, a: 255 }
    } else {
        Color { r: 127, g: 106, b: 79, a: 255 }
    }
}

/// The texture slot of a hit cell: wall variants keep their id, anything
/// else falls back to the first wall texture.
pub open spec fn id_textura(c: Celda) -> int {
    match c {
        Celda::Pared(k) => if 1 <= k <= 6 {
            k as int
        } else {
            1
        },
        _ => 1,
    }
}

fn id_textura_exec(c: Celda) -> (r: usize)
    ensures
        r == id_textura(c),
{
    match c {
        Celda::Pared(k) => if 1 <= k && k <= 6 {
            k as usize
        } else {
            1
        },
        _ => 1,
    }
}

/// Constant directional shading: faces hit across a horizontal grid line
/// are darkened to four fifths.
pub open spec fn sombrear(c: Color, lado: int) -> Color {
    if lado == 1 {
        Color { r: (c.r * 4 / 5) as u8, g: (c.g * 4 / 5) as u8, b: (c.b * 4 / 5) as u8, a: c.a }
    } else {
        c
    }
}

fn sombrear_exec(c: Color, lado: u8) -> (r: Color)
    ensures
        r == sombrear(c, lado as int),
{
    if lado == 1 {
        Color {
            r: ((c.r as u32) * 4 / 5) as u8,
            g: ((c.g as u32) * 4 / 5) as u8,
            b: ((c.b as u32) * 4 / 5) as u8,
            a: c.a,
        }
    } else {
        c
    }
}

/// The color of row `y` in a column whose ray returned `imp`: sky or
/// floor outside the projected wall span, a shaded texture sample inside
/// it. The span is `h / perp` pixels tall, centered on the horizon and
/// clipped to the surface.
pub open spec fn pixel_columna(h: int, t: Texturas, imp: Option<Impacto>, y: int) -> Color {
    match imp {
        None => pixel_cielo_suelo(h, y),
        Some(i) => {
            let lh = (h * 65536) / (i.perp as int);
            let ds0 = -(lh / 2) + h / 2;
            let ds = if ds0 < 0 {
                0
            } else {
                ds0
            };
            let de0 = lh / 2 + h / 2;
            let de = if de0 > h - 1 {
                h - 1
            } else {
                de0
            };
            if ds <= y <= de {
                let dd = if de - ds < 1 {
                    1
                } else {
                    de - ds
                };
                let tv = ((y - ds) * 65536) / dd;
                sombrear(
                    t.muestra_spec(id_textura(i.pared), i.textura as int, tv),
                    i.lado as int,
                )
            } else {
                pixel_cielo_suelo(h, y)
            }
        },
    }
}

/// The ray angle of output column `x` of `w`: the heading plus a fan
/// offset of up to half the field of view to either side.
pub open spec fn angulo_columna(j: Jugador, w: int, x: int) -> int {
    ajuste_vuelta(j.ang + div_trunca(5461 * (2 * x - w), w))
}

/// The depth of column `x`: the clamped perpendicular distance of its
/// ray's hit, or infinite when the ray left the map.
pub open spec fn z_columna(m: Seq<Seq<Celda>>, j: Jugador, w: int, x: int) -> int {
    let a = angulo_columna(j, w, x);
    match impacto_spec(m, j.x as int, j.y as int, coseno_spec(a), seno_spec(a)) {
        None => 0x7fff_ffff_ffff_ffff,
        Some(i) => i.perp as int,
    }
}

/// The color of pixel (x, y) after the wall pass.
pub open spec fn pixel_escena(
    m: Seq<Seq<Celda>>,
    j: Jugador,
    t: Texturas,
    w: int,
    h: int,
    x: int,
    y: int,
) -> Color {
    let a = angulo_columna(j, w, x);
    pixel_columna(h, t, impacto_spec(m, j.x as int, j.y as int, coseno_spec(a), seno_spec(a)), y)
}

/// The fan offset of a column stays within half the field of view.
proof fn lema_offset_fov(w: int, x: int)
    requires
        1 <= w,
        0 <= x < w,
    ensures
        -5461 <= div_trunca(5461 * (2 * x - w), w) <= 5461,
{
    let p = 5461 * (2 * x - w);
    assert(-(5461 * w) <= 5461 * (2 * x - w) <= 5461 * w) by (nonlinear_arith)
        requires 1 <= w && 0 <= x < w;
    vstd::arithmetic::mul::lemma_mul_is_commutative(5461, w);
    lemma_div_multiples_vanish(5461, w);
    if p >= 0 {
        lemma_div_pos_is_pos(p, w);
        lemma_div_is_ordered(p, w * 5461, w);
    } else {
        lemma_div_pos_is_pos(-p, w);
        lemma_div_is_ordered(-p, w * 5461, w);
    }
}

/// Paint one output column: sky and floor, then the textured wall strip
/// of its ray hit, if any. Pixels of every other column are untouched.
#[verifier::loop_isolation(false)]
pub fn pintar_columna(fb: &mut Framebuffer, tex: &Texturas, x: i32, imp: &Option<Impacto>)
    requires
        old(fb).valido(),
        tex.valida(),
        (*imp) matches Some(i) ==> 64 <= i.perp && 0 <= i.textura < 65536,
    ensures
        final(fb).valido(),
        final(fb).w == old(fb).w,
        final(fb).h == old(fb).h,
        forall|i: int, q: int|
            0 <= i < old(fb).w && 0 <= q < old(fb).h ==> #[trigger] final(fb).pixel(i, q) == (
            if i == x {
                pixel_columna(old(fb).h as int, *tex, *imp, q)
            } else {
                old(fb).pixel(i, q)
            }),
{
    let h: i32 = fb.h as i32;
    let medio: i32 = (fb.h / 2) as i32;
    fb.line_v(x, 0, medio - 1, Color { r: 102, g: 191, b: 255, a: 255 });
    fb.line_v(x, medio, h - 1, Color { r: 127, g: 106, b: 79, a: 255 });
    proof {
        assert forall|i: int, q: int| 0 <= i < old(fb).w && 0 <= q < old(fb).h implies
            #[trigger] fb.pixel(i, q) == (if i == x {
            pixel_cielo_suelo(old(fb).h as int, q)
        } else {
            old(fb).pixel(i, q)
        }) by {}
    }
    match imp {
        None => {},
        Some(i) => {
            let hh: i64 = fb.h as i64;
            let lh = div_pos(hh * 65536, i.perp);
            proof {
                lemma_div_pos_is_pos(hh * 65536, i.perp as int);
                lema_div_no_crece(hh * 65536, i.perp as int);
            }
            let mitad = div_pos(lh, 2);
            let ds0 = -mitad + div_pos(hh, 2);
            let ds = if ds0 < 0 {
                0
            } else {
                ds0
            };
            let de0 = mitad + div_pos(hh, 2);
            let de = if de0 > hh - 1 {
                hh - 1
            } else {
                de0
            };
            proof {
                lemma_div_pos_is_pos(lh as int, 2);
                lemma_div_pos_is_pos(hh as int, 2);
                vstd::arithmetic::div_mod::lemma_fundamental_div_mod(hh as int, 2);
            }
            let dd = if de - ds < 1 {
                1
            } else {
                de - ds
            };
            let id = id_textura_exec(i.pared);
            let mut y = ds;
            while y <= de
                invariant
                    ds <= y <= de + 1,
                    fb.valido(),
                    fb.w == old(fb).w,
                    fb.h == old(fb).h,
                    forall|ii: int, q: int|
                        0 <= ii < old(fb).w && 0 <= q < old(fb).h ==> #[trigger] fb.pixel(ii, q)
                            == (if ii == x && ds <= q < y {
                            pixel_columna(old(fb).h as int, *tex, *imp, q)
                        } else if ii == x {
                            pixel_cielo_suelo(old(fb).h as int, q)
                        } else {
                            old(fb).pixel(ii, q)
                        }),
                decreases de + 1 - y,
            {
                let tv = div_pos((y - ds) * 65536, dd);
                let col = tex.sample(id, i.textura, tv);
                let col2 = sombrear_exec(col, i.lado);
                proof {
                    assert(pixel_columna(old(fb).h as int, *tex, *imp, y as int) == col2);
                }
                fb.set(x, y as i32, col2);
                y = y + 1;
            }
        },
    }
}

/// The wall pass: for every output column cast one ray, write its depth
/// into the buffer and paint the column. Every depth entry and every
/// pixel of the surface is freshly computed from the map, the player and
/// the atlas alone, so nothing of a previous frame can leak through.
#[verifier::loop_isolation(false)]
pub fn dibujar_escena(
    fb: &mut Framebuffer,
    j: &Jugador,
    mapa: &Mapa,
    tex: &Texturas,
    z: &mut Vec<i64>,
)
    requires
        old(fb).valido(),
        mapa_valido(mapa.deep_view()),
        1 <= mapa.deep_view().len(),
        1 <= ancho(mapa.deep_view()),
        jugador_valido(*j),
        tex.valida(),
        old(z).len() == old(fb).w,
    ensures
        final(fb).valido(),
        final(fb).w == old(fb).w,
        final(fb).h == old(fb).h,
        final(z).len() == old(z).len(),
        forall|i: int|
            0 <= i < old(fb).w ==> #[trigger] final(z)[i] == z_columna(
                mapa.deep_view(),
                *j,
                old(fb).w as int,
                i,
            ),
        forall|i: int, q: int|
            0 <= i < old(fb).w && 0 <= q < old(fb).h ==> #[trigger] final(fb).pixel(i, q)
                == pixel_escena(
                mapa.deep_view(),
                *j,
                *tex,
                old(fb).w as int,
                old(fb).h as int,
                i,
                q,
            ),
{
    let w = fb.w;
    let wi: i64 = w as i64;
    let mut x: u32 = 0;
    while x < w
        invariant
            x <= w,
            fb.valido(),
            fb.w == old(fb).w,
            fb.h == old(fb).h,
            z.len() == old(z).len(),
            forall|i: int|
                0 <= i < x ==> #[trigger] z[i] == z_columna(
                    mapa.deep_view(),
                    *j,
                    w as int,
                    i,
                ),
            forall|i: int, q: int|
                0 <= i < old(fb).w && 0 <= q < old(fb).h ==> #[trigger] fb.pixel(i, q) == (
                if i < x {
                    pixel_escena(
                        mapa.deep_view(),
                        *j,
                        *tex,
                        w as int,
                        old(fb).h as int,
                        i,
                        q,
                    )
                } else {
                    old(fb).pixel(i, q)
                }),
        decreases w - x,
    {
        proof {
            lema_offset_fov(wi as int, x as int);
        }
        let o = div_t(MEDIO_FOV * (2 * (x as i64) - wi), wi);
        let a = rotar(j.ang, o);
        let rdx = coseno(a);
        let rdy = seno(a);
        proof {
            lema_seno_coseno_no_cero(a as int);
            assert(a as int == angulo_columna(*j, w as int, x as int));
        }
        let imp = lanzar_rayo(mapa, j.x, j.y, rdx, rdy);
        let prof = match &imp {
            None => Z_INF,
            Some(i) => i.perp,
        };
        z[x as usize] = prof;
        pintar_columna(fb, tex, x as i32, &imp);
        x = x + 1;
    }
}

/// Stepping straight along +x: with the vertical axis parallel, the
/// traversal crosses one vertical grid line per cell until the first
/// non-walkable cell of the row.
proof fn lema_dda_recto_este(m: Seq<Seq<Celda>>, x0: int, y0: int, sdx: int, k: int, fuel: nat)
    requires
        mapa_valido(m),
        0 <= x0,
        0 <= y0 < m.len(),
        1 <= k,
        x0 + k < ancho(m),
        k <= fuel,
        0 <= sdx,
        sdx + 65536 * k < 0x4_0000_0000_0000,
        forall|t: int| 1 <= t < k ==> #[trigger] caminable_en(m, x0 + t, y0),
        !caminable(m[y0][x0 + k]),
    ensures
        dda(
            m,
            x0,
            y0,
            sdx,
            0x4_0000_0000_0000,
            65536,
            0x4_0000_0000_0000,
            1,
            1,
            fuel,
        ) == Some((x0 + k, y0, 0int)),
    decreases k,
{
    assert(celda_en(m, x0 + 1, y0) == Some(m[y0][x0 + 1]));
    if k == 1 {
    } else {
        assert(caminable_en(m, x0 + 1, y0));
        assert forall|t: int| 1 <= t < k - 1 implies #[trigger] caminable_en(
            m,
            x0 + 1 + t,
            y0,
        ) by {
            assert(caminable_en(m, x0 + (t + 1), y0));
        }
        lema_dda_recto_este(m, x0 + 1, y0, sdx + 65536, k - 1, (fuel - 1) as nat);
    }
}

/// The perpendicular-distance law for a ray fired straight at a wall:
/// from (jx, jy), looking exactly along +x at a row whose next
/// non-walkable cell is `k` cells ahead, the caster hits that cell on its
/// vertical face and reports exactly the distance from the player to the
/// face (clamped below as every depth is).
pub proof fn lema_rayo_perpendicular_este(m: Seq<Seq<Celda>>, jx: int, jy: int, k: int)
    requires
        mapa_valido(m),
        0 <= jx,
        0 <= jy,
        piso_spec(jy) < m.len(),
        1 <= k,
        piso_spec(jx) + k < ancho(m),
        forall|t: int|
            1 <= t < k ==> #[trigger] caminable_en(m, piso_spec(jx) + t, piso_spec(jy)),
        !caminable(m[piso_spec(jy)][piso_spec(jx) + k]),
    ensures
        rayo_spec(m, jx, jy, 65536, 0) == Some((piso_spec(jx) + k, piso_spec(jy), 0int)),
        perp_de(jx, jy, 65536, 0, ((piso_spec(jx) + k), piso_spec(jy), 0)) == ({
            let cara = (piso_spec(jx) + k) * 65536 - jx;
            if cara < 64 {
                64
            } else {
                cara
            }
        }),
{
    let x0 = piso_spec(jx);
    let y0 = piso_spec(jy);
    vstd::arithmetic::div_mod::lemma_fundamental_div_mod(jx, 65536);
    let fr = fraccion_spec(jx);
    assert(0 <= fr < 65536);
    // The deltas and initial side distances of a +x ray.
    assert(delta_spec(65536) == 65536) by {
        lemma_div_multiples_vanish(65536, 65536);
        vstd::arithmetic::mul::lemma_mul_is_commutative(65536, 65536);
    }
    assert(sd_inicial_spec(jx, 65536) == 65536 - fr) by {
        lemma_div_multiples_vanish(65536 - fr, 65536);
        vstd::arithmetic::mul::lemma_mul_is_commutative(65536 - fr, 65536);
    }
    assert(ancho(m) <= 256);
    assert(65536 - fr + 65536 * k < 0x4_0000_0000_0000) by (nonlinear_arith)
        requires 0 <= fr < 65536 && 1 <= k <= 256;
    lema_dda_recto_este(m, x0, y0, 65536 - fr, k, (m.len() + ancho(m) + 2) as nat);
    // The perpendicular distance of the vertical face hit.
    let cara = (x0 + k) * 65536 - jx;
    assert(1 <= cara) by (nonlinear_arith)
        requires jx < (x0 + 1) * 65536 && 1 <= k && cara == (x0 + k) * 65536 - jx;
    assert(perp_bruta(jx, jy, 65536, 0, ((x0 + k), y0, 0)) == cara) by {
        lemma_div_multiples_vanish(cara, 65536);
        vstd::arithmetic::mul::lemma_mul_is_commutative(cara, 65536);
    }
}

/// Stepping straight along -x, mirror of the eastward walk.
proof fn lema_dda_recto_oeste(m: Seq<Seq<Celda>>, x0: int, y0: int, sdx: int, k: int, fuel: nat)
    requires
        mapa_valido(m),
        x0 < ancho(m),
        0 <= y0 < m.len(),
        1 <= k,
        0 <= x0 - k,
        k <= fuel,
        0 <= sdx,
        sdx + 65536 * k < 0x4_0000_0000_0000,
        forall|t: int| 1 <= t < k ==> #[trigger] caminable_en(m, x0 - t, y0),
        !caminable(m[y0][x0 - k]),
    ensures
        dda(
            m,
            x0,
            y0,
            sdx,
            0x4_0000_0000_0000,
            65536,
            0x4_0000_0000_0000,
            -1,
            1,
            fuel,
        ) == Some((x0 - k, y0, 0int)),
    decreases k,
{
    assert(celda_en(m, x0 - 1, y0) == Some(m[y0][x0 - 1]));
    if k == 1 {
    } else {
        assert(caminable_en(m, x0 - 1, y0));
        assert forall|t: int| 1 <= t < k - 1 implies #[trigger] caminable_en(
            m,
            x0 - 1 - t,
            y0,
        ) by {
            assert(caminable_en(m, x0 - (t + 1), y0));
        }
        lema_dda_recto_oeste(m, x0 - 1, y0, sdx + 65536, k - 1, (fuel - 1) as nat);
    }
}

/// The perpendicular-distance law for a ray fired straight along -x:
/// the caster hits the nearest non-walkable cell westward on its
/// vertical face, at exactly the distance from the player to the face.
pub proof fn lema_rayo_perpendicular_oeste(m: Seq<Seq<Celda>>, jx: int, jy: int, k: int)
    requires
        mapa_valido(m),
        0 <= jx,
        0 <= jy,
        piso_spec(jx) < ancho(m),
        piso_spec(jy) < m.len(),
        1 <= k <= piso_spec(jx),
        forall|t: int|
            1 <= t < k ==> #[trigger] caminable_en(m, piso_spec(jx) - t, piso_spec(jy)),
        !caminable(m[piso_spec(jy)][piso_spec(jx) - k]),
    ensures
        rayo_spec(m, jx, jy, -65536, 0) == Some((piso_spec(jx) - k, piso_spec(jy), 0int)),
        perp_de(jx, jy, -65536, 0, ((piso_spec(jx) - k), piso_spec(jy), 0)) == ({
            let cara = jx - (piso_spec(jx) - k + 1) * 65536;
            if cara < 64 {
                64
            } else {
                cara
            }
        }),
{
    let x0 = piso_spec(jx);
    let y0 = piso_spec(jy);
    vstd::arithmetic::div_mod::lemma_fundamental_div_mod(jx, 65536);
    let fr = fraccion_spec(jx);
    assert(0 <= fr < 65536);
    assert(delta_spec(-65536) == 65536) by {
        lemma_div_multiples_vanish(65536, 65536);
        vstd::arithmetic::mul::lemma_mul_is_commutative(65536, 65536);
    }
    assert(sd_inicial_spec(jx, -65536) == fr) by {
        lemma_div_multiples_vanish(fr, 65536);
        vstd::arithmetic::mul::lemma_mul_is_commutative(fr, 65536);
    }
    assert(ancho(m) <= 256);
    assert(fr + 65536 * k < 0x4_0000_0000_0000) by (nonlinear_arith)
        requires 0 <= fr < 65536 && 1 <= k <= 256;
    lema_dda_recto_oeste(m, x0, y0, fr, k, (m.len() + ancho(m) + 2) as nat);
    let cara = jx - (x0 - k + 1) * 65536;
    assert(0 <= cara) by (nonlinear_arith)
        requires x0 * 65536 <= jx && 1 <= k && cara == jx - (x0 - k + 1) * 65536;
    assert(perp_bruta(jx, jy, -65536, 0, ((x0 - k), y0, 0)) == cara) by {
        lemma_div_multiples_vanish(cara, 65536);
        vstd::arithmetic::mul::lemma_mul_is_commutative(cara, 65536);
    }
}

/// Stepping straight along +y: with the horizontal axis parallel, the
/// traversal crosses one horizontal grid line per cell.
proof fn lema_dda_recto_sur(m: Seq<Seq<Celda>>, x0: int, y0: int, sdy: int, k: int, fuel: nat)
    requires
        mapa_valido(m),
        0 <= x0 < ancho(m),
        0 <= y0,
        1 <= k,
        y0 + k < m.len(),
        k <= fuel,
        0 <= sdy,
        sdy + 65536 * k < 0x4_0000_0000_0000,
        forall|t: int| 1 <= t < k ==> #[trigger] caminable_en(m, x0, y0 + t),
        !caminable(m[y0 + k][x0]),
    ensures
        dda(
            m,
            x0,
            y0,
            0x4_0000_0000_0000,
            sdy,
            0x4_0000_0000_0000,
            65536,
            1,
            1,
            fuel,
        ) == Some((x0, y0 + k, 1int)),
    decreases k,
{
    assert(celda_en(m, x0, y0 + 1) == Some(m[y0 + 1][x0]));
    if k == 1 {
    } else {
        assert(caminable_en(m, x0, y0 + 1));
        assert forall|t: int| 1 <= t < k - 1 implies #[trigger] caminable_en(
            m,
            x0,
            y0 + 1 + t,
        ) by {
            assert(caminable_en(m, x0, y0 + (t + 1)));
        }
        lema_dda_recto_sur(m, x0, y0 + 1, sdy + 65536, k - 1, (fuel - 1) as nat);
    }
}

/// The perpendicular-distance law for a ray fired straight along +y:
/// the caster hits the nearest non-walkable cell southward on its
/// horizontal face, at exactly the distance from the player to the face.
pub proof fn lema_rayo_perpendicular_sur(m: Seq<Seq<Celda>>, jx: int, jy: int, k: int)
    requires
        mapa_valido(m),
        0 <= jx,
        0 <= jy,
        piso_spec(jx) < ancho(m),
        1 <= k,
        piso_spec(jy) + k < m.len(),
        forall|t: int|
            1 <= t < k ==> #[trigger] caminable_en(m, piso_spec(jx), piso_spec(jy) + t),
        !caminable(m[piso_spec(jy) + k][piso_spec(jx)]),
    ensures
        rayo_spec(m, jx, jy, 0, 65536) == Some((piso_spec(jx), piso_spec(jy) + k, 1int)),
        perp_de(jx, jy, 0, 65536, (piso_spec(jx), (piso_spec(jy) + k), 1)) == ({
            let cara = (piso_spec(jy) + k) * 65536 - jy;
            if cara < 64 {
                64
            } else {
                cara
            }
        }),
{
    let x0 = piso_spec(jx);
    let y0 = piso_spec(jy);
    vstd::arithmetic::div_mod::lemma_fundamental_div_mod(jy, 65536);
    let fr = fraccion_spec(jy);
    assert(0 <= fr < 65536);
    assert(delta_spec(65536) == 65536) by {
        lemma_div_multiples_vanish(65536, 65536);
        vstd::arithmetic::mul::lemma_mul_is_commutative(65536, 65536);
    }
    assert(sd_inicial_spec(jy, 65536) == 65536 - fr) by {
        lemma_div_multiples_vanish(65536 - fr, 65536);
        vstd::arithmetic::mul::lemma_mul_is_commutative(65536 - fr, 65536);
    }
    assert(m.len() <= 256);
    assert(65536 - fr + 65536 * k < 0x4_0000_0000_0000) by (nonlinear_arith)
        requires 0 <= fr < 65536 && 1 <= k <= 256;
    lema_dda_recto_sur(m, x0, y0, 65536 - fr, k, (m.len() + ancho(m) + 2) as nat);
    let cara = (y0 + k) * 65536 - jy;
    assert(1 <= cara) by (nonlinear_arith)
        requires jy < (y0 + 1) * 65536 && 1 <= k && cara == (y0 + k) * 65536 - jy;
    assert(perp_bruta(jx, jy, 0, 65536, (x0, (y0 + k), 1)) == cara) by {
        lemma_div_multiples_vanish(cara, 65536);
        vstd::arithmetic::mul::lemma_mul_is_commutative(cara, 65536);
    }
}

/// Stepping straight along -y, mirror of the southward walk.
proof fn lema_dda_recto_norte(m: Seq<Seq<Celda>>, x0: int, y0: int, sdy: int, k: int, fuel: nat)
    requires
        mapa_valido(m),
        0 <= x0 < ancho(m),
        y0 < m.len(),
        1 <= k,
        0 <= y0 - k,
        k <= fuel,
        0 <= sdy,
        sdy + 65536 * k < 0x4_0000_0000_0000,
        forall|t: int| 1 <= t < k ==> #[trigger] caminable_en(m, x0, y0 - t),
        !caminable(m[y0 - k][x0]),
    ensures
        dda(
            m,
            x0,
            y0,
            0x4_0000_0000_0000,
            sdy,
            0x4_0000_0000_0000,
            65536,
            1,
            -1,
            fuel,
        ) == Some((x0, y0 - k, 1int)),
    decreases k,
{
    assert(celda_en(m, x0, y0 - 1) == Some(m[y0 - 1][x0]));
    if k == 1 {
    } else {
        assert(caminable_en(m, x0, y0 - 1));
        assert forall|t: int| 1 <= t < k - 1 implies #[trigger] caminable_en(
            m,
            x0,
            y0 - 1 - t,
        ) by {
            assert(caminable_en(m, x0, y0 - (t + 1)));
        }
        lema_dda_recto_norte(m, x0, y0 - 1, sdy + 65536, k - 1, (fuel - 1) as nat);
    }
}

/// The perpendicular-distance law for a ray fired straight along -y:
/// the caster hits the nearest non-walkable cell northward on its
/// horizontal face, at exactly the distance from the player to the face.
pub proof fn lema_rayo_perpendicular_norte(m: Seq<Seq<Celda>>, jx: int, jy: int, k: int)
    requires
        mapa_valido(m),
        0 <= jx,
        0 <= jy,
        piso_spec(jx) < ancho(m),
        piso_spec(jy) < m.len(),
        1 <= k <= piso_spec(jy),
        forall|t: int|
            1 <= t < k ==> #[trigger] caminable_en(m, piso_spec(jx), piso_spec(jy) - t),
        !caminable(m[piso_spec(jy) - k][piso_spec(jx)]),
    ensures
        rayo_spec(m, jx, jy, 0, -65536) == Some((piso_spec(jx), piso_spec(jy) - k, 1int)),
        perp_de(jx, jy, 0, -65536, (piso_spec(jx), (piso_spec(jy) - k), 1)) == ({
            let cara = jy - (piso_spec(jy) - k + 1) * 65536;
            if cara < 64 {
                64
            } else {
                cara
            }
        }),
{
    let x0 = piso_spec(jx);
    let y0 = piso_spec(jy);
    vstd::arithmetic::div_mod::lemma_fundamental_div_mod(jy, 65536);
    let fr = fraccion_spec(jy);
    assert(0 <= fr < 65536);
    assert(delta_spec(-65536) == 65536) by {
        lemma_div_multiples_vanish(65536, 65536);
        vstd::arithmetic::mul::lemma_mul_is_commutative(65536, 65536);
    }
    assert(sd_inicial_spec(jy, -65536) == fr) by {
        lemma_div_multiples_vanish(fr, 65536);
        vstd::arithmetic::mul::lemma_mul_is_commutative(fr, 65536);
    }
    assert(m.len() <= 256);
    assert(fr + 65536 * k < 0x4_0000_0000_0000) by (nonlinear_arith)
        requires 0 <= fr < 65536 && 1 <= k <= 256;
    lema_dda_recto_norte(m, x0, y0, fr, k, (m.len() + ancho(m) + 2) as nat);
    let cara = jy - (y0 - k + 1) * 65536;
    assert(0 <= cara) by (nonlinear_arith)
        requires y0 * 65536 <= jy && 1 <= k && cara == jy - (y0 - k + 1) * 65536;
    assert(perp_bruta(jx, jy, 0, -65536, (x0, (y0 - k), 1)) == cara) by {
        lemma_div_multiples_vanish(cara, 65536);
        vstd::arithmetic::mul::lemma_mul_is_commutative(cara, 65536);
    }
}

} // verus!
