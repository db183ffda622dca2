//! The pixel surface, the procedural texture atlas, the player and the
//! axis-separated collision mover.

use vstd::prelude::*;

verus! {

use vstd::arithmetic::mul::lemma_mul_inequality;
use vstd::arithmetic::mul::lemma_mul_is_distributive_add_other_way;
use crate::fijo::coseno;
use crate::fijo::coseno_spec;
use crate::fijo::fraccion_fp;
use crate::fijo::fraccion_spec;
use crate::fijo::lema_div_trunca_cota;
use crate::fijo::mul_fp;
use crate::fijo::mul_fp_spec;
use crate::fijo::piso_fp;
use crate::fijo::piso_spec;
use crate::fijo::seno;
use crate::fijo::seno_spec;
use crate::mapas::caminable_en;
use crate::mapas::celda;
use crate::mapas::es_caminable;
use crate::mapas::mapa_valido;
use crate::mapas::Mapa;

/// An RGBA color.
#[derive(Clone, Copy, PartialEq, Eq, Structural, Debug)]
pub struct Color {
    pub r: u8,
    pub g: u8,
    pub b: u8,
    pub a: u8,
}

impl DeepView for Color {
    type V = Color;

    open spec fn deep_view(&self) -> Color {
        *self
    }
}

/// Opaque black, the cleared state of the surface.
pub open spec fn negro() -> Color {
    Color { r: 0, g: 0, b: 0, a: 255 }
}

/// Row-major position of a pixel within the surface's backing vector.
proof fn lema_indice_en_rango(w: int, h: int, x: int, y: int)
    requires
        0 <= x < w,
        0 <= y < h,
    ensures
        0 <= y * w + x < w * h,
{
    lemma_mul_inequality(y + 1, h, w);
    lemma_mul_is_distributive_add_other_way(w, y, 1);
    vstd::arithmetic::mul::lemma_mul_nonnegative(y, w);
    vstd::arithmetic::mul::lemma_mul_is_commutative(h, w);
}

/// Row-major indexing is injective on pixel coordinates.
proof fn lema_indice_unico(w: int, x1: int, y1: int, x2: int, y2: int)
    requires
        0 <= x1 < w,
        0 <= x2 < w,
        0 <= y1,
        0 <= y2,
        y1 * w + x1 == y2 * w + x2,
    ensures
        x1 == x2 && y1 == y2,
{
    if y1 > y2 {
        lemma_mul_inequality(y2 + 1, y1, w);
        lemma_mul_is_distributive_add_other_way(w, y2, 1);
    }
    if y2 > y1 {
        lemma_mul_inequality(y1 + 1, y2, w);
        lemma_mul_is_distributive_add_other_way(w, y1, 1);
    }
}

/// A fixed-size logical color buffer, the sole rendering target. It is
/// fully rewritten every frame; presentation to a display is the caller's
/// concern.
pub struct Framebuffer {
    pub w: u32,
    pub h: u32,
    pub pix: Vec<Color>,
}

impl Framebuffer {
    /// The backing vector holds exactly one color per pixel.
    pub open spec fn valido(self) -> bool {
        &&& self.pix.len() == self.w * self.h
        &&& 1 <= self.w <= 4096
        &&& 1 <= self.h <= 4096
    }

    /// The color of the pixel at (x, y).
    pub open spec fn pixel(self, x: int, y: int) -> Color {
        self.pix[y * self.w + x]
    }

    /// A fresh surface, cleared to black.
    pub fn new(w: u32, h: u32) -> (fb: Self)
        requires
            1 <= w <= 4096,
            1 <= h <= 4096,
        ensures
            fb.valido(),
            fb.w == w,
            fb.h == h,
            forall|i: int, j: int|
                0 <= i < w && 0 <= j < h ==> #[trigger] fb.pixel(i, j) == negro(),
    {
        proof {
            assert(w * h <= 4096 * 4096) by (nonlinear_arith)
                requires 1 <= w <= 4096 && 1 <= h <= 4096;
            vstd::arithmetic::mul::lemma_mul_nonnegative(w as int, h as int);
        }
        let total: usize = (w as usize) * (h as usize);
        let mut pix: Vec<Color> = Vec::new();
        let mut k: usize = 0;
        while k < total
            invariant
                k <= total,
                pix.len() == k,
                forall|t: int| 0 <= t < k ==> pix[t] == negro(),
            decreases total - k,
        {
            pix.push(Color { r: 0, g: 0, b: 0, a: 255 });
            k += 1;
        }
        let fb = Framebuffer { w, h, pix };
        proof {
            assert forall|i: int, j: int| 0 <= i < w && 0 <= j < h implies #[trigger] fb.pixel(
                i,
                j,
            ) == negro() by {
                lema_indice_en_rango(w as int, h as int, i, j);
            }
        }
        fb
    }

    /// Overwrite every pixel with one color.
    pub fn limpiar(&mut self, c: Color)
        requires
            old(self).valido(),
        ensures
            final(self).valido(),
            final(self).w == old(self).w,
            final(self).h == old(self).h,
            forall|i: int, j: int|
                0 <= i < old(self).w && 0 <= j < old(self).h ==> #[trigger] final(self).pixel(
                    i,
                    j,
                ) == c,
    {
        let total: usize = self.pix.len();
        let mut k: usize = 0;
        while k < total
            invariant
                k <= total,
                self.pix.len() == total,
                self.w == old(self).w,
                self.h == old(self).h,
                old(self).valido(),
                forall|t: int| 0 <= t < k ==> self.pix[t] == c,
            decreases total - k,
        {
            self.pix[k] = c;
            k += 1;
        }
        proof {
            assert forall|i: int, j: int| 0 <= i < self.w && 0 <= j < self.h implies
                #[trigger] self.pixel(i, j) == c by {
                lema_indice_en_rango(self.w as int, self.h as int, i, j);
            }
        }
    }

    /// Write one pixel; coordinates outside the surface are ignored.
    pub fn set(&mut self, x: i32, y: i32, c: Color)
        requires
            old(self).valido(),
        ensures
            final(self).valido(),
            final(self).w == old(self).w,
            final(self).h == old(self).h,
            forall|i: int, j: int|
                0 <= i < old(self).w && 0 <= j < old(self).h ==> #[trigger] final(self).pixel(
                    i,
                    j,
                ) == (if i == x && j == y {
                    c
                } else {
                    old(self).pixel(i, j)
                }),
    {
        if x >= 0 && y >= 0 && (x as u32) < self.w && (y as u32) < self.h {
            proof {
                lema_indice_en_rango(self.w as int, self.h as int, x as int, y as int);
            }
            let idx: usize = (y as usize) * (self.w as usize) + (x as usize);
            self.pix[idx] = c;
            proof {
                assert forall|i: int, j: int| 0 <= i < self.w && 0 <= j < self.h implies
                    #[trigger] self.pixel(i, j) == (if i == x && j == y {
                    c
                } else {
                    old(self).pixel(i, j)
                }) by {
                    lema_indice_en_rango(self.w as int, self.h as int, i, j);
                    if j * self.w + i == idx {
                        lema_indice_unico(self.w as int, i, j, x as int, y as int);
                    }
                }
            }
        }
    }

    /// Vertical run of one color between two row indices, in either order.
    pub fn line_v(&mut self, x: i32, y0: i32, y1: i32, c: Color)
        requires
            old(self).valido(),
        ensures
            final(self).valido(),
            final(self).w == old(self).w,
            final(self).h == old(self).h,
            forall|i: int, j: int|
                0 <= i < old(self).w && 0 <= j < old(self).h ==> #[trigger] final(self).pixel(
                    i,
                    j,
                ) == (if i == x && (if y0 < y1 {
                    y0 <= j <= y1
                } else {
                    y1 <= j <= y0
                }) {
                    c
                } else {
                    old(self).pixel(i, j)
                }),
    {
        let a = if y0 < y1 {
            y0
        } else {
            y1
        };
        let b = if y0 < y1 {
            y1
        } else {
            y0
        };
        let mut y = a;
        while y < b
            invariant
                a <= y <= b,
                self.w == old(self).w,
                self.h == old(self).h,
                self.valido(),
                forall|i: int, j: int|
                    0 <= i < old(self).w && 0 <= j < old(self).h ==> #[trigger] self.pixel(i, j)
                        == (if i == x && a <= j < y {
                        c
                    } else {
                        old(self).pixel(i, j)
                    }),
            decreases b - y,
        {
            self.set(x, y, c);
            y += 1;
        }
        self.set(x, b, c);
    }

    /// Read one pixel.
    pub fn pixel_en(&self, x: u32, y: u32) -> (c: Color)
        requires
            self.valido(),
            x < self.w,
            y < self.h,
        ensures
            c == self.pixel(x as int, y as int),
    {
        proof {
            lema_indice_en_rango(self.w as int, self.h as int, x as int, y as int);
        }
        self.pix[(y as usize) * (self.w as usize) + (x as usize)]
    }
}

/// The player: continuous position in fixed-point cell units, heading in
/// binary angle units, movement speed and rotation speed per frame.
#[derive(Clone, Copy, PartialEq, Eq, Structural, Debug)]
pub struct Jugador {
    pub x: i64,
    pub y: i64,
    pub ang: i64,
    pub vel: i64,
    pub rot: i64,
}

/// The player's state is within the machine bounds the engine works in:
/// position inside [0, 256] cells, heading normalised, speed at most a
/// quarter cell per frame.
pub open spec fn jugador_valido(j: Jugador) -> bool {
    &&& 0 <= j.x <= 16777216
    &&& 0 <= j.y <= 16777216
    &&& 0 <= j.ang < 65536
    &&& 0 <= j.vel <= 16384
}

/// World-space x displacement of one movement step: the local
/// forward/strafe input rotated by the heading.
pub open spec fn desplazamiento_x(j: Jugador, dx_dir: int, dy_dir: int) -> int {
    mul_fp_spec(coseno_spec(j.ang as int), mul_fp_spec(dy_dir, j.vel as int)) + mul_fp_spec(
        seno_spec(j.ang as int),
        mul_fp_spec(dx_dir, j.vel as int),
    )
}

/// World-space y displacement of one movement step.
pub open spec fn desplazamiento_y(j: Jugador, dx_dir: int, dy_dir: int) -> int {
    mul_fp_spec(seno_spec(j.ang as int), mul_fp_spec(dy_dir, j.vel as int)) - mul_fp_spec(
        coseno_spec(j.ang as int),
        mul_fp_spec(dx_dir, j.vel as int),
    )
}

/// Resolve one movement step against the map, one axis at a time: the x
/// displacement commits only if the destination cell at the current y is
/// walkable, then the y displacement commits only if the destination cell
/// at the (possibly updated) x is walkable. Blocking one axis never blocks
/// the other, which yields wall-sliding.
pub fn mover_con_colision(j: &mut Jugador, dx_dir: i64, dy_dir: i64, mapa: &Mapa)
    requires
        mapa_valido(mapa.deep_view()),
        jugador_valido(*old(j)),
        -65536 <= dx_dir <= 65536,
        -65536 <= dy_dir <= 65536,
    ensures
        final(j).ang == old(j).ang,
        final(j).vel == old(j).vel,
        final(j).rot == old(j).rot,
        ({
            let nx = old(j).x + desplazamiento_x(*old(j), dx_dir as int, dy_dir as int);
            &&& final(j).x == (if caminable_en(
                mapa.deep_view(),
                piso_spec(nx),
                piso_spec(old(j).y as int),
            ) {
                nx
            } else {
                old(j).x as int
            })
        }),
        ({
            let ny = old(j).y + desplazamiento_y(*old(j), dx_dir as int, dy_dir as int);
            &&& final(j).y == (if caminable_en(
                mapa.deep_view(),
                piso_spec(final(j).x as int),
                piso_spec(ny),
            ) {
                ny
            } else {
                old(j).y as int
            })
        }),
        jugador_valido(*final(j)),
{
    proof {
        lema_cota_paso(dx_dir as int, j.vel as int);
        lema_cota_paso(dy_dir as int, j.vel as int);
    }
    let dx = mul_fp(dx_dir, j.vel);
    let dy = mul_fp(dy_dir, j.vel);
    let c = coseno(j.ang);
    let s = seno(j.ang);
    let dir_x = {
        proof {
            lema_cota_giro(c as int, dy as int);
            lema_cota_giro(s as int, dx as int);
        }
        mul_fp(c, dy) + mul_fp(s, dx)
    };
    let dir_y = {
        proof {
            lema_cota_giro(s as int, dy as int);
            lema_cota_giro(c as int, dx as int);
        }
        mul_fp(s, dy) - mul_fp(c, dx)
    };
    let nx = j.x + dir_x;
    let ny = j.y + dir_y;

    let celda_x = piso_fp(nx);
    let fila_act = piso_fp(j.y);
    if es_caminable_opt(mapa, celda_x, fila_act) {
        j.x = nx;
    }
    let col_act = piso_fp(j.x);
    let celda_y = piso_fp(ny);
    if es_caminable_opt(mapa, col_act, celda_y) {
        j.y = ny;
    }
}

/// One scaled input component is at most a quarter unit in magnitude.
proof fn lema_cota_paso(d: int, vel: int)
    requires
        -65536 <= d <= 65536,
        0 <= vel <= 16384,
    ensures
        -1073741824 <= d * vel <= 1073741824,
        -16384 <= mul_fp_spec(d, vel) <= 16384,
{
    assert(-1073741824 <= d * vel <= 1073741824) by (nonlinear_arith)
        requires -65536 <= d <= 65536 && 0 <= vel <= 16384;
    lema_div_trunca_cota(d * vel, 1073741824);
}

/// A rotated component of a bounded step stays bounded by the step.
proof fn lema_cota_giro(t: int, d: int)
    requires
        -65536 <= t <= 65536,
        -16384 <= d <= 16384,
    ensures
        -1073741824 <= t * d <= 1073741824,
        -16384 <= mul_fp_spec(t, d) <= 16384,
{
    assert(-1073741824 <= t * d <= 1073741824) by (nonlinear_arith)
        requires -65536 <= t <= 65536 && -16384 <= d <= 16384;
    lema_div_trunca_cota(t * d, 1073741824);
}

/// Walkability of a cell given as fixed-point floor indices.
fn es_caminable_opt(mapa: &Mapa, cx: i64, cy: i64) -> (b: bool)
    requires
        mapa_valido(mapa.deep_view()),
        -4096 <= cx <= 4096,
        -4096 <= cy <= 4096,
    ensures
        b == caminable_en(mapa.deep_view(), cx as int, cy as int),
{
    match celda(mapa, cx as i32, cy as i32) {
        Some(c) => es_caminable(c),
        None => false,
    }
}

/// The procedurally generated texture atlas: one 64 x 64 color grid per
/// wall variant id, generated once and sampled read-only thereafter.
pub struct Texturas {
    pub tex: Vec<Vec<Color>>,
}

/// The deterministic pattern of wall texture `i` at texel (x, y): stripes,
/// checkerboards and bit-pattern thresholds, one distinct look per id.
pub open spec fn patron_pared(i: int, x: int, y: int) -> Color {
    if i == 1 {
        if (x / 8 + y / 8) % 2 == 0 {
            Color { r: 0, g: 82, b: 172, a: 255 }
        } else {
            Color { r: 0, g: 121, b: 241, a: 255 }
        }
    } else if i == 2 {
        if (x / 4) % 2 == 0 {
            Color { r: 190, g: 33, b: 55, a: 255 }
        } else {
            Color { r: 230, g: 41, b: 55, a: 255 }
        }
    } else if i == 3 {
        if (y / 4) % 2 == 0 {
            Color { r: 0, g: 117, b: 44, a: 255 }
        } else {
            Color { r: 0, g: 228, b: 48, a: 255 }
        }
    } else if i == 4 {
        if ((x as u8) ^ (y as u8)) & 16 == 0 {
            Color { r: 127, g: 106, b: 79, a: 255 }
        } else {
            Color { r: 211, g: 176, b: 131, a: 255 }
        }
    } else if i == 5 {
        if (x + y) % 10 < 5 {
            Color { r: 200, g: 122, b: 255, a: 255 }
        } else {
            Color { r: 135, g: 60, b: 190, a: 255 }
        }
    } else if i == 6 {
        if (x * 3 + y * 5) % 37 < 18 {
            Color { r: 130, g: 130, b: 130, a: 255 }
        } else {
            Color { r: 200, g: 200, b: 200, a: 255 }
        }
    } else {
        Color { r: 255, g: 161, b: 0, a: 255 }
    }
}

fn patron_pared_exec(i: usize, x: usize, y: usize) -> (c: Color)
    requires
        i < 7,
        x < 64,
        y < 64,
    ensures
        c == patron_pared(i as int, x as int, y as int),
{
    if i == 1 {
        if (x / 8 + y / 8) % 2 == 0 {
            Color { r: 0, g: 82, b: 172, a: 255 }
        } else {
            Color { r: 0, g: 121, b: 241, a: 255 }
        }
    } else if i == 2 {
        if (x / 4) % 2 == 0 {
            Color { r: 190, g: 33, b: 55, a: 255 }
        } else {
            Color { r: 230, g: 41, b: 55, a: 255 }
        }
    } else if i == 3 {
        if (y / 4) % 2 == 0 {
            Color { r: 0, g: 117, b: 44, a: 255 }
        } else {
            Color { r: 0, g: 228, b: 48, a: 255 }
        }
    } else if i == 4 {
        if ((x as u8) ^ (y as u8)) & 16 == 0 {
            Color { r: 127, g: 106, b: 79, a: 255 }
        } else {
            Color { r: 211, g: 176, b: 131, a: 255 }
        }
    } else if i == 5 {
        if (x + y) % 10 < 5 {
            Color { r: 200, g: 122, b: 255, a: 255 }
        } else {
            Color { r: 135, g: 60, b: 190, a: 255 }
        }
    } else if i == 6 {
        if (x * 3 + y * 5) % 37 < 18 {
            Color { r: 130, g: 130, b: 130, a: 255 }
        } else {
            Color { r: 200, g: 200, b: 200, a: 255 }
        }
    } else {
        Color { r: 255, g: 161, b: 0, a: 255 }
    }
}

impl Texturas {
    /// Seven texture slots of 64 x 64 texels each.
    pub open spec fn valida(self) -> bool {
        &&& self.tex.deep_view().len() == 7
        &&& forall|i: int|
            0 <= i < 7 ==> (#[trigger] self.tex.deep_view()[i]).len() == 4096
    }

    /// The texel of texture `id` at (x, y).
    pub open spec fn texel(self, id: int, x: int, y: int) -> Color {
        self.tex.deep_view()[id][y * 64 + x]
    }

    /// Generate the atlas: slot 0 is a plain fallback, slots 1..6 carry the
    /// six wall patterns.
    pub fn nuevo() -> (t: Self)
        ensures
            t.valida(),
            forall|i: int, x: int, y: int|
                0 <= i < 7 && 0 <= x < 64 && 0 <= y < 64 ==> #[trigger] t.texel(i, x, y)
                    == patron_pared(i, x, y),
    {
        let mut tex: Vec<Vec<Color>> = Vec::new();
        for i in 0..7usize
            invariant
                tex.deep_view().len() == i,
                forall|t: int| 0 <= t < i ==> (#[trigger] tex.deep_view()[t]).len() == 4096,
                forall|t: int, x: int, y: int|
                    0 <= t < i && 0 <= x < 64 && 0 <= y < 64
                        ==> #[trigger] tex.deep_view()[t][y * 64 + x] == patron_pared(t, x, y),
        {
            let mut plano: Vec<Color> = Vec::new();
            for y in 0..64usize
                invariant
                    i < 7,
                    plano.deep_view().len() == y * 64,
                    forall|x: int, v: int|
                        0 <= x < 64 && 0 <= v < y ==> #[trigger] plano.deep_view()[v * 64 + x]
                            == patron_pared(i as int, x, v),
            {
                for x in 0..64usize
                    invariant
                        i < 7,
                        y < 64,
                        plano.deep_view().len() == y * 64 + x,
                        forall|u: int, v: int|
                            0 <= u < 64 && 0 <= v < y ==> #[trigger] plano.deep_view()[v * 64 + u]
                                == patron_pared(i as int, u, v),
                        forall|u: int|
                            0 <= u < x ==> #[trigger] plano.deep_view()[y * 64 + u]
                                == patron_pared(i as int, u, y as int),
                {
                    let ghost antes = plano.deep_view();
                    plano.push(patron_pared_exec(i, x, y));
                    proof {
                        assert(plano.deep_view() =~= antes.push(
                            patron_pared(i as int, x as int, y as int),
                        ));
                        assert forall|u: int, v: int|
                            0 <= u < 64 && 0 <= v < y implies #[trigger] plano.deep_view()[v * 64
                            + u] == patron_pared(i as int, u, v) by {
                            assert(v * 64 + u < y * 64 + x);
                        }
                    }
                }
            }
            let ghost antes_t = tex.deep_view();
            let ghost vista_plano = plano.deep_view();
            tex.push(plano);
            proof {
                assert(tex.deep_view() =~= antes_t.push(vista_plano));
            }
        }
        Texturas { tex }
    }

    /// Nearest-texel sampling at normalized fixed-point coordinates; both
    /// coordinates wrap by their fractional part, ids past the last slot
    /// clamp to it.
    pub open spec fn muestra_spec(self, id: int, u: int, v: int) -> Color {
        let tid = if id > 6 {
            6
        } else {
            id
        };
        self.texel(tid, fraccion_spec(u) / 1024, fraccion_spec(v) / 1024)
    }

    /// Sample texture `id` at wrapped coordinates (u, v), one whole unit
    /// spanning the texture.
    pub fn sample(&self, id: usize, u: i64, v: i64) -> (c: Color)
        requires
            self.valida(),
            -0x4000_0000_0000_0000 < u < 0x4000_0000_0000_0000,
            -0x4000_0000_0000_0000 < v < 0x4000_0000_0000_0000,
        ensures
            c == self.muestra_spec(id as int, u as int, v as int),
    {
        let tid: usize = if id > 6 {
            6
        } else {
            id
        };
        let fu = fraccion_fp(u);
        let fv = fraccion_fp(v);
        let x: usize = crate::fijo::div_pos(fu, 1024) as usize;
        let y: usize = crate::fijo::div_pos(fv, 1024) as usize;
        proof {
            lema_indice_en_rango(64, 64, x as int, y as int);
            assert(self.tex.deep_view()[tid as int].len() == 4096);
        }
        self.tex[tid][y * 64 + x]
    }
}

} // verus!
