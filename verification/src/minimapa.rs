//! The top-down minimap overlay: one colored block per grid cell, a
//! player marker and a short heading line drawn with an integer line
//! algorithm. Every pixel of the overlay is pinned by contract, and
//! everything beyond its corner box keeps its previous color.

use vstd::prelude::*;

verus! {

use crate::fijo::coseno;
use crate::fijo::coseno_spec;
use crate::fijo::div_trunca;
use crate::fijo::div_t;
use crate::fijo::piso_fp;
use crate::fijo::piso_spec;
use crate::fijo::seno;
use crate::fijo::seno_spec;
use crate::mapas::ancho;
use crate::mapas::mapa_valido;
use crate::mapas::Celda;
use crate::mapas::Mapa;
use crate::motor::jugador_valido;
use crate::motor::Color;
use crate::motor::Framebuffer;
use crate::motor::Jugador;

/// The block color of a cell on the minimap.
pub open spec fn color_minimapa(c: Celda) -> Color {
    match c {
        Celda::Piso => Color { r: 0, g: 117, b: 44, a: 255 },
        Celda::Salida => Color { r: 255, g: 203, b: 0, a: 255 },
        Celda::Moneda => Color { r: 253, g: 249, b: 0, a: 255 },
        Celda::Pozo => Color { r: 0, g: 0, b: 0, a: 255 },
        Celda::Antorcha => Color { r: 255, g: 161, b: 0, a: 255 },
        Celda::Pared(_) => Color { r: 80, g: 80, b: 80, a: 255 },
    }
}

fn color_minimapa_exec(c: Celda) -> (r: Color)
    ensures
        r == color_minimapa(c),
{
    match c {
        Celda::Piso => Color { r: 0, g: 117, b: 44, a: 255 },
        Celda::Salida => Color { r: 255, g: 203, b: 0, a: 255 },
        Celda::Moneda => Color { r: 253, g: 249, b: 0, a: 255 },
        Celda::Pozo => Color { r: 0, g: 0, b: 0, a: 255 },
        Celda::Antorcha => Color { r: 255, g: 161, b: 0, a: 255 },
        Celda::Pared(_) => Color { r: 80, g: 80, b: 80, a: 255 },
    }
}

/// The pixels the error-stepping line walk visits, in order: from the
/// current point toward (x1, y1), moving one step in x and/or y per
/// visited pixel as twice the accumulated error dictates, never past an
/// endpoint coordinate, until the endpoint or the fuel is reached.
pub open spec fn camino_linea(
    x: int,
    y: int,
    x1: int,
    y1: int,
    sx: int,
    sy: int,
    dx: int,
    dy: int,
    err: int,
    fuel: nat,
) -> Seq<(int, int)>
    decreases fuel,
{
    if fuel == 0 {
        Seq::empty()
    } else if x == x1 && y == y1 {
        seq![(x, y)]
    } else {
        let e2 = 2 * err;
        let err2 = if e2 >= dy {
            err + dy
        } else {
            err
        };
        let x2 = if e2 >= dy && x != x1 {
            x + sx
        } else {
            x
        };
        let err3 = if e2 <= dx {
            err2 + dx
        } else {
            err2
        };
        let y2 = if e2 <= dx && y != y1 {
            y + sy
        } else {
            y
        };
        seq![(x, y)] + camino_linea(x2, y2, x1, y1, sx, sy, dx, dy, err3, (fuel - 1) as nat)
    }
}

/// The full pixel path of the line from (x0, y0) to (x1, y1).
pub open spec fn puntos_linea(x0: int, y0: int, x1: int, y1: int) -> Seq<(int, int)> {
    let dx = abs_linea(x1 - x0);
    let dy = -abs_linea(y1 - y0);
    let sx: int = if x0 < x1 {
        1
    } else {
        -1
    };
    let sy: int = if y0 < y1 {
        1
    } else {
        -1
    };
    camino_linea(x0, y0, x1, y1, sx, sy, dx, dy, dx + dy, (dx - dy + 1) as nat)
}

/// Magnitude of a coordinate difference.
pub open spec fn abs_linea(v: int) -> int {
    if v < 0 {
        -v
    } else {
        v
    }
}

/// Integer line drawing between two points. The pixels of the line's
/// walk take the given color (subject to the surface's own clipping),
/// starting with (x0, y0); every other pixel keeps its previous color.
/// Every painted pixel lies in the axis-aligned bounding box of the two
/// endpoints.
#[verifier::loop_isolation(false)]
pub fn linea_bresenham(fb: &mut Framebuffer, x0: i32, y0: i32, x1: i32, y1: i32, c: Color)
    requires
        old(fb).valido(),
        -100000 <= x0 <= 100000,
        -100000 <= y0 <= 100000,
        -100000 <= x1 <= 100000,
        -100000 <= y1 <= 100000,
    ensures
        final(fb).valido(),
        final(fb).w == old(fb).w,
        final(fb).h == old(fb).h,
        forall|i: int, q: int|
            0 <= i < old(fb).w && 0 <= q < old(fb).h ==> #[trigger] final(fb).pixel(i, q) == (
            if puntos_linea(x0 as int, y0 as int, x1 as int, y1 as int).contains((i, q)) {
                c
            } else {
                old(fb).pixel(i, q)
            }),
        puntos_linea(x0 as int, y0 as int, x1 as int, y1 as int).contains((x0 as int, y0 as int)),
        forall|p: (int, int)|
            #[trigger] puntos_linea(x0 as int, y0 as int, x1 as int, y1 as int).contains(p) ==> (
            if x0 < x1 {
                x0 <= p.0 <= x1
            } else {
                x1 <= p.0 <= x0
            }) && (if y0 < y1 {
                y0 <= p.1 <= y1
            } else {
                y1 <= p.1 <= y0
            }),
{
    let ghost puntos = puntos_linea(x0 as int, y0 as int, x1 as int, y1 as int);
    let dx: i32 = if x1 > x0 {
        x1 - x0
    } else {
        x0 - x1
    };
    let sx: i32 = if x0 < x1 {
        1
    } else {
        -1
    };
    let dy: i32 = -(if y1 > y0 {
        y1 - y0
    } else {
        y0 - y1
    });
    let sy: i32 = if y0 < y1 {
        1
    } else {
        -1
    };
    let mut err: i32 = dx + dy;
    let mut x = x0;
    let mut y = y0;
    let mut fuel: i32 = dx - dy + 1;
    let mut listo = false;
    let ghost mut hechos: Seq<(int, int)> = Seq::empty();
    while fuel > 0 && !listo
        invariant
            fb.valido(),
            fb.w == old(fb).w,
            fb.h == old(fb).h,
            0 <= fuel <= dx - dy + 1,
            2 * dy <= err <= 2 * dx,
            (if x0 < x1 {
                x0 <= x <= x1
            } else {
                x1 <= x <= x0
            }),
            (if y0 < y1 {
                y0 <= y <= y1
            } else {
                y1 <= y <= y0
            }),
            !listo ==> puntos =~= hechos + camino_linea(
                x as int,
                y as int,
                x1 as int,
                y1 as int,
                sx as int,
                sy as int,
                dx as int,
                dy as int,
                err as int,
                fuel as nat,
            ),
            listo ==> puntos =~= hechos,
            forall|p: (int, int)|
                #[trigger] hechos.contains(p) ==> (if x0 < x1 {
                    x0 <= p.0 <= x1
                } else {
                    x1 <= p.0 <= x0
                }) && (if y0 < y1 {
                    y0 <= p.1 <= y1
                } else {
                    y1 <= p.1 <= y0
                }),
            forall|i: int, q: int|
                0 <= i < old(fb).w && 0 <= q < old(fb).h ==> #[trigger] fb.pixel(i, q) == (
                if hechos.contains((i, q)) {
                    c
                } else {
                    old(fb).pixel(i, q)
                }),
        decreases fuel,
    {
        fb.set(x, y, c);
        let ghost antes = hechos;
        proof {
            hechos = hechos.push((x as int, y as int));
            assert forall|p: (int, int)| #[trigger] hechos.contains(p) implies antes.contains(p)
                || p == (x as int, y as int) by {
                let w = choose|w: int| 0 <= w < hechos.len() && hechos[w] == p;
                if w < antes.len() {
                    assert(antes[w] == p);
                }
            }
            assert(hechos[antes.len() as int] == (x as int, y as int));
            assert(hechos.contains((x as int, y as int)));
            assert forall|p: (int, int)| antes.contains(p) implies hechos.contains(p) by {
                let w = choose|w: int| 0 <= w < antes.len() && antes[w] == p;
                assert(hechos[w] == p);
            }
        }
        if x == x1 && y == y1 {
            listo = true;
            proof {
                assert(puntos =~= antes + seq![(x as int, y as int)]);
                assert(puntos =~= hechos);
            }
        } else {
            let e2 = 2 * err;
            let ghost err_antes = err as int;
            if e2 >= dy {
                err = err + dy;
                if x != x1 {
                    x = x + sx;
                }
            }
            if e2 <= dx {
                err = err + dx;
                if y != y1 {
                    y = y + sy;
                }
            }
            proof {
                assert(puntos =~= hechos + camino_linea(
                    x as int,
                    y as int,
                    x1 as int,
                    y1 as int,
                    sx as int,
                    sy as int,
                    dx as int,
                    dy as int,
                    err as int,
                    (fuel - 1) as nat,
                ));
            }
        }
        fuel = fuel - 1;
    }
    proof {
        if !listo {
            assert(puntos =~= hechos);
        }
        assert(puntos.contains((x0 as int, y0 as int))) by {
            assert(puntos[0] == (x0 as int, y0 as int));
        }
    }
}

/// The cell-block layer of the minimap: inside the grid of 4 x 4
/// blocks anchored at (6, 6), the block color of the cell under the
/// pixel; elsewhere the previous color.
pub open spec fn capa_bloques(m: Seq<Seq<Celda>>, i: int, q: int, antes: Color) -> Color {
    if 6 <= i < 6 + 4 * ancho(m) && 6 <= q < 6 + 4 * m.len() {
        color_minimapa(m[(q - 6) / 4][(i - 6) / 4])
    } else {
        antes
    }
}

/// The color of pixel (i, q) after the minimap overlay: the yellow
/// heading line on top, then the red 3 x 3 player marker, then the cell
/// blocks; pixels under none of the three keep their previous color.
pub open spec fn pixel_minimapa(
    m: Seq<Seq<Celda>>,
    j: Jugador,
    i: int,
    q: int,
    antes: Color,
) -> Color {
    let px = 6 + piso_spec(j.x as int) * 4 + 2;
    let py = 6 + piso_spec(j.y as int) * 4 + 2;
    let fx = px + div_trunca(coseno_spec(j.ang as int) * 5, 65536);
    let fy = py + div_trunca(seno_spec(j.ang as int) * 5, 65536);
    if puntos_linea(px, py, fx, fy).contains((i, q)) {
        Color { r: 253, g: 249, b: 0, a: 255 }
    } else if px - 1 <= i <= px + 1 && py - 1 <= q <= py + 1 {
        Color { r: 230, g: 41, b: 55, a: 255 }
    } else {
        capa_bloques(m, i, q, antes)
    }
}

/// A pixel inside a 4-wide block maps back to its cell index.
proof fn lema_bloque(x: int, k: int)
    requires
        0 <= x,
        0 <= k < 4,
    ensures
        (4 * x + k) / 4 == x,
{
    vstd::arithmetic::div_mod::lemma_div_multiples_vanish_fancy(x, k, 4);
}

/// Draw the minimap: a 4-pixel block per cell in the top-left corner, a
/// red 3 x 3 player marker and a yellow heading line of a few pixels.
/// Every pixel ends exactly as `pixel_minimapa` says; in particular
/// nothing outside the minimap's corner box is touched.
#[verifier::loop_isolation(false)]
#[verifier::rlimit(60)]
pub fn dibujar_minimapa(fb: &mut Framebuffer, j: &Jugador, mapa: &Mapa)
    requires
        old(fb).valido(),
        mapa_valido(mapa.deep_view()),
        jugador_valido(*j),
        j.x < ancho(mapa.deep_view()) * 65536,
        j.y < mapa.deep_view().len() * 65536,
    ensures
        final(fb).valido(),
        final(fb).w == old(fb).w,
        final(fb).h == old(fb).h,
        forall|i: int, q: int|
            0 <= i < old(fb).w && 0 <= q < old(fb).h ==> #[trigger] final(fb).pixel(i, q)
                == pixel_minimapa(mapa.deep_view(), *j, i, q, old(fb).pixel(i, q)),
        forall|i: int, q: int|
            0 <= i < old(fb).w && 0 <= q < old(fb).h && (i >= 6 + 4 * ancho(mapa.deep_view()) + 8
                || q >= 6 + 4 * mapa.deep_view().len() + 8) ==> #[trigger] final(fb).pixel(i, q)
                == old(fb).pixel(i, q),
{
    let ghost v = mapa.deep_view();
    let alto = mapa.len();
    let w = if alto > 0 {
        mapa[0].len()
    } else {
        0
    };
    for y in 0..alto
        invariant
            fb.valido(),
            fb.w == old(fb).w,
            fb.h == old(fb).h,
            alto == v.len(),
            w == ancho(v),
            forall|i: int, q: int|
                0 <= i < old(fb).w && 0 <= q < old(fb).h ==> #[trigger] fb.pixel(i, q) == (
                if 6 <= i < 6 + 4 * w && 6 <= q < 6 + 4 * y {
                    color_minimapa(v[(q - 6) / 4][(i - 6) / 4])
                } else {
                    old(fb).pixel(i, q)
                }),
    {
        for x in 0..w
            invariant
                fb.valido(),
                fb.w == old(fb).w,
                fb.h == old(fb).h,
                alto == v.len(),
                y < alto,
                w == ancho(v),
                forall|i: int, q: int|
                    0 <= i < old(fb).w && 0 <= q < old(fb).h ==> #[trigger] fb.pixel(i, q) == (
                    if 6 <= i < 6 + 4 * w && 6 <= q < 6 + 4 * y {
                        color_minimapa(v[(q - 6) / 4][(i - 6) / 4])
                    } else if 6 <= i < 6 + 4 * x && 6 + 4 * y <= q < 6 + 4 * y + 4 {
                        color_minimapa(v[(q - 6) / 4][(i - 6) / 4])
                    } else {
                        old(fb).pixel(i, q)
                    }),
        {
            proof {
                assert(v[y as int].len() == ancho(v));
                assert(mapa@[y as int].deep_view() == v[y as int]);
            }
            let col = color_minimapa_exec(mapa[y][x]);
            let bx: i32 = 6 + (x as i32) * 4;
            let by: i32 = 6 + (y as i32) * 4;
            let mut yy: i32 = 0;
            while yy < 4
                invariant
                    0 <= yy <= 4,
                    fb.valido(),
                    fb.w == old(fb).w,
                    fb.h == old(fb).h,
                    col == color_minimapa(v[y as int][x as int]),
                    forall|i: int, q: int|
                        0 <= i < old(fb).w && 0 <= q < old(fb).h ==> #[trigger] fb.pixel(i, q)
                            == (if 6 <= i < 6 + 4 * w && 6 <= q < 6 + 4 * y {
                            color_minimapa(v[(q - 6) / 4][(i - 6) / 4])
                        } else if 6 <= i < 6 + 4 * x && 6 + 4 * y <= q < 6 + 4 * y + 4 {
                            color_minimapa(v[(q - 6) / 4][(i - 6) / 4])
                        } else if bx <= i < bx + 4 && by <= q < by + yy {
                            col
                        } else {
                            old(fb).pixel(i, q)
                        }),
                decreases 4 - yy,
            {
                let mut xx: i32 = 0;
                while xx < 4
                    invariant
                        0 <= xx <= 4,
                        0 <= yy < 4,
                        fb.valido(),
                        fb.w == old(fb).w,
                        fb.h == old(fb).h,
                        col == color_minimapa(v[y as int][x as int]),
                        forall|i: int, q: int|
                            0 <= i < old(fb).w && 0 <= q < old(fb).h ==> #[trigger] fb.pixel(
                                i,
                                q,
                            ) == (if 6 <= i < 6 + 4 * w && 6 <= q < 6 + 4 * y {
                                color_minimapa(v[(q - 6) / 4][(i - 6) / 4])
                            } else if 6 <= i < 6 + 4 * x && 6 + 4 * y <= q < 6 + 4 * y + 4 {
                                color_minimapa(v[(q - 6) / 4][(i - 6) / 4])
                            } else if bx <= i < bx + 4 && by <= q < by + yy {
                                col
                            } else if by + yy == q && bx <= i < bx + xx {
                                col
                            } else {
                                old(fb).pixel(i, q)
                            }),
                    decreases 4 - xx,
                {
                    fb.set(bx + xx, by + yy, col);
                    xx = xx + 1;
                }
                yy = yy + 1;
            }
            proof {
                assert forall|i: int, q: int|
                    0 <= i < old(fb).w && 0 <= q < old(fb).h implies #[trigger] fb.pixel(i, q)
                        == (if 6 <= i < 6 + 4 * w && 6 <= q < 6 + 4 * y {
                        color_minimapa(v[(q - 6) / 4][(i - 6) / 4])
                    } else if 6 <= i < 6 + 4 * (x + 1) && 6 + 4 * y <= q < 6 + 4 * y + 4 {
                        color_minimapa(v[(q - 6) / 4][(i - 6) / 4])
                    } else {
                        old(fb).pixel(i, q)
                    }) by {
                    if bx <= i < bx + 4 && by <= q < by + 4 {
                        lema_bloque(x as int, i - 6 - 4 * x as int);
                        lema_bloque(y as int, q - 6 - 4 * y as int);
                    }
                }
            }
        }
    }
    let ghost fondo = *fb;
    let cel_x = piso_fp(j.x);
    let cel_y = piso_fp(j.y);
    let px: i32 = 6 + (cel_x as i32) * 4 + 2;
    let py: i32 = 6 + (cel_y as i32) * 4 + 2;
    let mut yy: i32 = -1;
    while yy <= 1
        invariant
            -1 <= yy <= 2,
            fb.valido(),
            fb.w == old(fb).w,
            fb.h == old(fb).h,
            px == 6 + piso_spec(j.x as int) * 4 + 2,
            py == 6 + piso_spec(j.y as int) * 4 + 2,
            forall|i: int, q: int|
                0 <= i < old(fb).w && 0 <= q < old(fb).h ==> #[trigger] fb.pixel(i, q) == (
                if px - 1 <= i <= px + 1 && py - 1 <= q < py + yy {
                    Color { r: 230, g: 41, b: 55, a: 255 }
                } else {
                    fondo.pixel(i, q)
                }),
        decreases 2 - yy,
    {
        let mut xx: i32 = -1;
        while xx <= 1
            invariant
                -1 <= xx <= 2,
                -1 <= yy <= 1,
                fb.valido(),
                fb.w == old(fb).w,
                fb.h == old(fb).h,
                px == 6 + piso_spec(j.x as int) * 4 + 2,
                py == 6 + piso_spec(j.y as int) * 4 + 2,
                forall|i: int, q: int|
                    0 <= i < old(fb).w && 0 <= q < old(fb).h ==> #[trigger] fb.pixel(i, q) == (
                    if px - 1 <= i <= px + 1 && py - 1 <= q < py + yy {
                        Color { r: 230, g: 41, b: 55, a: 255 }
                    } else if q == py + yy && px - 1 <= i < px + xx {
                        Color { r: 230, g: 41, b: 55, a: 255 }
                    } else {
                        fondo.pixel(i, q)
                    }),
            decreases 2 - xx,
        {
            fb.set(px + xx, py + yy, Color { r: 230, g: 41, b: 55, a: 255 });
            xx = xx + 1;
        }
        yy = yy + 1;
    }
    let ghost marcado = *fb;
    let c = coseno(j.ang);
    let s = seno(j.ang);
    let fx: i32 = px + (div_t(c * 5, 65536) as i32);
    let fy: i32 = py + (div_t(s * 5, 65536) as i32);
    proof {
        crate::fijo::lema_div_trunca_cota(c as int * 5, 327680);
        crate::fijo::lema_div_trunca_cota(s as int * 5, 327680);
    }
    linea_bresenham(fb, px, py, fx, fy, Color { r: 253, g: 249, b: 0, a: 255 });
    proof {
        let ghost linea = puntos_linea(px as int, py as int, fx as int, fy as int);
        assert forall|i: int, q: int| 0 <= i < old(fb).w && 0 <= q < old(fb).h implies
            #[trigger] fb.pixel(i, q) == pixel_minimapa(v, *j, i, q, old(fb).pixel(i, q)) by {
            assert(marcado.pixel(i, q) == (if px - 1 <= i <= px + 1 && py - 1 <= q <= py + 1 {
                Color { r: 230, g: 41, b: 55, a: 255 }
            } else {
                fondo.pixel(i, q)
            }));
        }
        assert forall|i: int, q: int|
            0 <= i < old(fb).w && 0 <= q < old(fb).h && (i >= 6 + 4 * ancho(v) + 8 || q >= 6 + 4
                * v.len() + 8) implies #[trigger] fb.pixel(i, q) == old(fb).pixel(i, q) by {
            if linea.contains((i, q)) {
                assert(false);
            }
        }
    }
}

} // verus!
