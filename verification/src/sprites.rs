//! Billboard sprites: torches, coins and pits. The collection is built
//! once per level from the map's marker cells, coins are destructively
//! collected when the player shares their cell, and rendering projects
//! each sprite into camera space and depth-tests it column by column
//! against the depth buffer of the wall pass.

use vstd::prelude::*;

verus! {

use vstd::arithmetic::div_mod::lemma_div_is_ordered;
use vstd::arithmetic::div_mod::lemma_div_multiples_vanish;
use vstd::arithmetic::div_mod::lemma_div_pos_is_pos;
use crate::fijo::coseno;
use crate::fijo::coseno_spec;
use crate::fijo::div_t;
use crate::fijo::div_trunca;
use crate::fijo::piso_fp;
use crate::fijo::piso_spec;
use crate::fijo::seno;
use crate::fijo::seno_spec;
use crate::mapas::ancho;
use crate::mapas::caminable;
use crate::mapas::celda_en;
use crate::mapas::mapa_valido;
use crate::mapas::Celda;
use crate::mapas::Mapa;
use crate::motor::jugador_valido;
use crate::motor::Color;
use crate::motor::Framebuffer;
use crate::motor::Jugador;

/// The closed set of sprite kinds.
#[derive(Clone, Copy, PartialEq, Eq, Structural, Debug)]
pub enum SpriteKind {
    Torch,
    Coin,
    Pit,
}

/// One billboard: a world position in fixed-point cell units and a kind.
#[derive(Clone, Copy, PartialEq, Eq, Structural, Debug)]
pub struct Sprite {
    pub x: i64,
    pub y: i64,
    pub kind: SpriteKind,
}

impl DeepView for Sprite {
    type V = Sprite;

    open spec fn deep_view(&self) -> Sprite {
        *self
    }
}

/// The active sprite collection with its animation frames and counters.
pub struct Sprites {
    pub lista: Vec<Sprite>,
    pub anim_torch: Vec<Vec<Color>>,
    pub anim_coin: Vec<Vec<Color>>,
    pub img_pit: Vec<Color>,
    pub f_torch: usize,
    pub f_coin: usize,
    pub t: usize,
}

/// The torch flame pattern of frame `f` at texel (x, y).
pub open spec fn patron_antorcha(f: int, x: int, y: int) -> Color {
    let v = (x * 3 + y * 5 + f * 11) % 32;
    if v < 10 {
        Color { r: 255, g: 203, b: 0, a: 255 }
    } else if v < 18 {
        Color { r: 255, g: 161, b: 0, a: 255 }
    } else if v < 26 {
        Color { r: 230, g: 41, b: 55, a: 255 }
    } else {
        Color { r: 0, g: 0, b: 0, a: 0 }
    }
}

/// Doubled distance-squared from the texel center of a 32 x 32 frame.
pub open spec fn radio2(x: int, y: int) -> int {
    (2 * x - 31) * (2 * x - 31) + (2 * y - 31) * (2 * y - 31)
}

/// The coin pattern: a gold disc with an animated shine stripe that
/// turns with the frame index, and an orange rim.
pub open spec fn patron_moneda(f: int, x: int, y: int) -> Color {
    let cs = coseno_spec(f * 8344);
    let sn = seno_spec(f * 8344);
    let brillo = (2 * x - 31) * cs + (2 * y - 31) * sn;
    if radio2(x, y) <= 841 {
        if -262144 < brillo < 262144 {
            Color { r: 253, g: 249, b: 0, a: 255 }
        } else {
            Color { r: 255, g: 203, b: 0, a: 255 }
        }
    } else if radio2(x, y) < 851 {
        Color { r: 255, g: 161, b: 0, a: 255 }
    } else {
        Color { r: 0, g: 0, b: 0, a: 0 }
    }
}

/// The pit pattern: a black disc with a dark gray rim.
pub open spec fn patron_pozo(x: int, y: int) -> Color {
    if radio2(x, y) <= 841 {
        Color { r: 0, g: 0, b: 0, a: 255 }
    } else if radio2(x, y) < 851 {
        Color { r: 80, g: 80, b: 80, a: 255 }
    } else {
        Color { r: 0, g: 0, b: 0, a: 0 }
    }
}

fn patron_antorcha_exec(f: usize, x: usize, y: usize) -> (c: Color)
    requires
        f < 4,
        x < 32,
        y < 32,
    ensures
        c == patron_antorcha(f as int, x as int, y as int),
{
    let v = (x * 3 + y * 5 + f * 11) % 32;
    if v < 10 {
        Color { r: 255, g: 203, b: 0, a: 255 }
    } else if v < 18 {
        Color { r: 255, g: 161, b: 0, a: 255 }
    } else if v < 26 {
        Color { r: 230, g: 41, b: 55, a: 255 }
    } else {
        Color { r: 0, g: 0, b: 0, a: 0 }
    }
}

fn patron_moneda_exec(f: usize, x: usize, y: usize) -> (c: Color)
    requires
        f < 4,
        x < 32,
        y < 32,
    ensures
        c == patron_moneda(f as int, x as int, y as int),
{
    let cs = coseno((f as i64) * 8344);
    let sn = seno((f as i64) * 8344);
    let dx: i64 = 2 * (x as i64) - 31;
    let dy: i64 = 2 * (y as i64) - 31;
    proof {
        assert(-3000000 <= dx * cs <= 3000000) by (nonlinear_arith)
            requires -33 <= dx <= 33 && -65536 <= cs <= 65536;
        assert(-3000000 <= dy * sn <= 3000000) by (nonlinear_arith)
            requires -33 <= dy <= 33 && -65536 <= sn <= 65536;
        assert(0 <= dx * dx <= 1089 && 0 <= dy * dy <= 1089) by (nonlinear_arith)
            requires -33 <= dx <= 33 && -33 <= dy <= 33;
    }
    let brillo = dx * cs + dy * sn;
    let r2 = dx * dx + dy * dy;
    if r2 <= 841 {
        if -262144 < brillo && brillo < 262144 {
            Color { r: 253, g: 249, b: 0, a: 255 }
        } else {
            Color { r: 255, g: 203, b: 0, a: 255 }
        }
    } else if r2 < 851 {
        Color { r: 255, g: 161, b: 0, a: 255 }
    } else {
        Color { r: 0, g: 0, b: 0, a: 0 }
    }
}

fn patron_pozo_exec(x: usize, y: usize) -> (c: Color)
    requires
        x < 32,
        y < 32,
    ensures
        c == patron_pozo(x as int, y as int),
{
    let dx: i64 = 2 * (x as i64) - 31;
    let dy: i64 = 2 * (y as i64) - 31;
    proof {
        assert(0 <= dx * dx <= 1089 && 0 <= dy * dy <= 1089) by (nonlinear_arith)
            requires -33 <= dx <= 33 && -33 <= dy <= 33;
    }
    let r2 = dx * dx + dy * dy;
    if r2 <= 841 {
        Color { r: 0, g: 0, b: 0, a: 255 }
    } else if r2 < 851 {
        Color { r: 80, g: 80, b: 80, a: 255 }
    } else {
        Color { r: 0, g: 0, b: 0, a: 0 }
    }
}

/// One 32 x 32 frame whose texel (x, y) is `patron(x, y)` for the given
/// closure-free pattern selector.
fn genera_frame_antorcha(f: usize) -> (img: Vec<Color>)
    requires
        f < 4,
    ensures
        img.deep_view().len() == 1024,
        forall|x: int, y: int|
            0 <= x < 32 && 0 <= y < 32 ==> #[trigger] img.deep_view()[y * 32 + x]
                == patron_antorcha(f as int, x, y),
{
    let mut img: Vec<Color> = Vec::new();
    for y in 0..32usize
        invariant
            f < 4,
            img.deep_view().len() == y * 32,
            forall|u: int, v: int|
                0 <= u < 32 && 0 <= v < y ==> #[trigger] img.deep_view()[v * 32 + u]
                    == patron_antorcha(f as int, u, v),
    {
        for x in 0..32usize
            invariant
                f < 4,
                y < 32,
                img.deep_view().len() == y * 32 + x,
                forall|u: int, v: int|
                    0 <= u < 32 && 0 <= v < y ==> #[trigger] img.deep_view()[v * 32 + u]
                        == patron_antorcha(f as int, u, v),
                forall|u: int|
                    0 <= u < x ==> #[trigger] img.deep_view()[y * 32 + u]
                        == patron_antorcha(f as int, u, y as int),
        {
            let ghost antes = img.deep_view();
            img.push(patron_antorcha_exec(f, x, y));
            proof {
                assert(img.deep_view() =~= antes.push(
                    patron_antorcha(f as int, x as int, y as int),
                ));
                assert forall|u: int, v: int| 0 <= u < 32 && 0 <= v < y implies
                    #[trigger] img.deep_view()[v * 32 + u] == patron_antorcha(f as int, u, v) by {
                    assert(v * 32 + u < y * 32 + x);
                }
            }
        }
    }
    img
}

fn genera_frame_moneda(f: usize) -> (img: Vec<Color>)
    requires
        f < 4,
    ensures
        img.deep_view().len() == 1024,
        forall|x: int, y: int|
            0 <= x < 32 && 0 <= y < 32 ==> #[trigger] img.deep_view()[y * 32 + x]
                == patron_moneda(f as int, x, y),
{
    let mut img: Vec<Color> = Vec::new();
    for y in 0..32usize
        invariant
            f < 4,
            img.deep_view().len() == y * 32,
            forall|u: int, v: int|
                0 <= u < 32 && 0 <= v < y ==> #[trigger] img.deep_view()[v * 32 + u]
                    == patron_moneda(f as int, u, v),
    {
        for x in 0..32usize
            invariant
                f < 4,
                y < 32,
                img.deep_view().len() == y * 32 + x,
                forall|u: int, v: int|
                    0 <= u < 32 && 0 <= v < y ==> #[trigger] img.deep_view()[v * 32 + u]
                        == patron_moneda(f as int, u, v),
                forall|u: int|
                    0 <= u < x ==> #[trigger] img.deep_view()[y * 32 + u]
                        == patron_moneda(f as int, u, y as int),
        {
            let ghost antes = img.deep_view();
            img.push(patron_moneda_exec(f, x, y));
            proof {
                assert(img.deep_view() =~= antes.push(
                    patron_moneda(f as int, x as int, y as int),
                ));
                assert forall|u: int, v: int| 0 <= u < 32 && 0 <= v < y implies
                    #[trigger] img.deep_view()[v * 32 + u] == patron_moneda(f as int, u, v) by {
                    assert(v * 32 + u < y * 32 + x);
                }
            }
        }
    }
    img
}

fn genera_pozo() -> (img: Vec<Color>)
    ensures
        img.deep_view().len() == 1024,
        forall|x: int, y: int|
            0 <= x < 32 && 0 <= y < 32 ==> #[trigger] img.deep_view()[y * 32 + x] == patron_pozo(
                x,
                y,
            ),
{
    let mut img: Vec<Color> = Vec::new();
    for y in 0..32usize
        invariant
            img.deep_view().len() == y * 32,
            forall|u: int, v: int|
                0 <= u < 32 && 0 <= v < y ==> #[trigger] img.deep_view()[v * 32 + u]
                    == patron_pozo(u, v),
    {
        for x in 0..32usize
            invariant
                y < 32,
                img.deep_view().len() == y * 32 + x,
                forall|u: int, v: int|
                    0 <= u < 32 && 0 <= v < y ==> #[trigger] img.deep_view()[v * 32 + u]
                        == patron_pozo(u, v),
                forall|u: int|
                    0 <= u < x ==> #[trigger] img.deep_view()[y * 32 + u] == patron_pozo(
                        u,
                        y as int,
                    ),
        {
            let ghost antes = img.deep_view();
            img.push(patron_pozo_exec(x, y));
            proof {
                assert(img.deep_view() =~= antes.push(patron_pozo(x as int, y as int)));
                assert forall|u: int, v: int| 0 <= u < 32 && 0 <= v < y implies
                    #[trigger] img.deep_view()[v * 32 + u] == patron_pozo(u, v) by {
                    assert(v * 32 + u < y * 32 + x);
                }
            }
        }
    }
    img
}

/// The sprites a single cell contributes: one centered sprite for each
/// marker kind, nothing otherwise.
pub open spec fn sprite_de(c: Celda, x: int, y: int) -> Seq<Sprite> {
    if c == Celda::Antorcha {
        seq![Sprite { x: (x * 65536 + 32768) as i64, y: (y * 65536 + 32768) as i64, kind: SpriteKind::Torch }]
    } else if c == Celda::Moneda {
        seq![Sprite { x: (x * 65536 + 32768) as i64, y: (y * 65536 + 32768) as i64, kind: SpriteKind::Coin }]
    } else if c == Celda::Pozo {
        seq![Sprite { x: (x * 65536 + 32768) as i64, y: (y * 65536 + 32768) as i64, kind: SpriteKind::Pit }]
    } else {
        Seq::empty()
    }
}

/// The sprites of the first `n` cells of row `y`, in scan order.
pub open spec fn sprites_de_fila(fila: Seq<Celda>, y: int, n: int) -> Seq<Sprite>
    decreases n,
{
    if n <= 0 {
        Seq::empty()
    } else {
        sprites_de_fila(fila, y, n - 1) + sprite_de(fila[n - 1], n - 1, y)
    }
}

/// The sprites of the first `n` rows of the map, in row-major scan order.
pub open spec fn sprites_de_mapa(m: Seq<Seq<Celda>>, n: int) -> Seq<Sprite>
    decreases n,
{
    if n <= 0 {
        Seq::empty()
    } else {
        sprites_de_mapa(m, n - 1) + sprites_de_fila(m[n - 1], n - 1, ancho(m))
    }
}

/// How many sprites of a list are coins.
pub open spec fn cuenta_monedas(l: Seq<Sprite>) -> int
    decreases l.len(),
{
    if l.len() == 0 {
        0
    } else {
        cuenta_monedas(l.drop_last()) + (if l.last().kind == SpriteKind::Coin {
            1int
        } else {
            0int
        })
    }
}

/// A sprite is a coin lying in the cell (cx, cy).
pub open spec fn es_moneda_en(s: Sprite, cx: int, cy: int) -> bool {
    s.kind == SpriteKind::Coin && piso_spec(s.x as int) == cx && piso_spec(s.y as int) == cy
}

/// How many sprites of a list are coins in the cell (cx, cy).
pub open spec fn cuenta_monedas_en(l: Seq<Sprite>, cx: int, cy: int) -> int
    decreases l.len(),
{
    if l.len() == 0 {
        0
    } else {
        cuenta_monedas_en(l.drop_last(), cx, cy) + (if es_moneda_en(l.last(), cx, cy) {
            1int
        } else {
            0int
        })
    }
}

/// The list without the coins of cell (cx, cy); everything else keeps
/// its order.
pub open spec fn quitar_monedas(l: Seq<Sprite>, cx: int, cy: int) -> Seq<Sprite>
    decreases l.len(),
{
    if l.len() == 0 {
        Seq::empty()
    } else {
        let resto = quitar_monedas(l.drop_last(), cx, cy);
        if es_moneda_en(l.last(), cx, cy) {
            resto
        } else {
            resto.push(l.last())
        }
    }
}

/// Every sprite of the list sits inside the coordinate range the engine
/// works in.
pub open spec fn sprites_acotados(l: Seq<Sprite>) -> bool {
    forall|k: int|
        0 <= k < l.len() ==> 0 <= (#[trigger] l[k]).x <= 16842752 && 0 <= l[k].y <= 16842752
}

impl Sprites {
    /// Frame sets of the right shape and counters in range.
    pub open spec fn valida(self) -> bool {
        &&& self.anim_torch.deep_view().len() == 4
        &&& forall|f: int|
            0 <= f < 4 ==> (#[trigger] self.anim_torch.deep_view()[f]).len() == 1024
        &&& self.anim_coin.deep_view().len() == 4
        &&& forall|f: int| 0 <= f < 4 ==> (#[trigger] self.anim_coin.deep_view()[f]).len() == 1024
        &&& self.img_pit.deep_view().len() == 1024
        &&& self.f_torch < 4
        &&& self.f_coin < 4
        &&& sprites_acotados(self.lista.deep_view())
    }

    /// An empty collection with freshly generated animation frames.
    pub fn nuevo() -> (s: Self)
        ensures
            s.valida(),
            s.lista.deep_view().len() == 0,
            s.f_torch == 0,
            s.f_coin == 0,
            s.t == 0,
            forall|f: int, x: int, y: int|
                0 <= f < 4 && 0 <= x < 32 && 0 <= y < 32
                    ==> #[trigger] s.anim_torch.deep_view()[f][y * 32 + x] == patron_antorcha(
                    f,
                    x,
                    y,
                ),
            forall|f: int, x: int, y: int|
                0 <= f < 4 && 0 <= x < 32 && 0 <= y < 32
                    ==> #[trigger] s.anim_coin.deep_view()[f][y * 32 + x] == patron_moneda(
                    f,
                    x,
                    y,
                ),
            forall|x: int, y: int|
                0 <= x < 32 && 0 <= y < 32 ==> #[trigger] s.img_pit.deep_view()[y * 32 + x]
                    == patron_pozo(x, y),
    {
        let mut torch: Vec<Vec<Color>> = Vec::new();
        for f in 0..4usize
            invariant
                torch.deep_view().len() == f,
                forall|t: int| 0 <= t < f ==> (#[trigger] torch.deep_view()[t]).len() == 1024,
                forall|t: int, x: int, y: int|
                    0 <= t < f && 0 <= x < 32 && 0 <= y < 32
                        ==> #[trigger] torch.deep_view()[t][y * 32 + x] == patron_antorcha(
                        t,
                        x,
                        y,
                    ),
        {
            let img = genera_frame_antorcha(f);
            let ghost antes = torch.deep_view();
            let ghost vista = img.deep_view();
            torch.push(img);
            proof {
                assert(torch.deep_view() =~= antes.push(vista));
            }
        }
        let mut monedas: Vec<Vec<Color>> = Vec::new();
        for f in 0..4usize
            invariant
                monedas.deep_view().len() == f,
                forall|t: int| 0 <= t < f ==> (#[trigger] monedas.deep_view()[t]).len() == 1024,
                forall|t: int, x: int, y: int|
                    0 <= t < f && 0 <= x < 32 && 0 <= y < 32
                        ==> #[trigger] monedas.deep_view()[t][y * 32 + x] == patron_moneda(
                        t,
                        x,
                        y,
                    ),
        {
            let img = genera_frame_moneda(f);
            let ghost antes = monedas.deep_view();
            let ghost vista = img.deep_view();
            monedas.push(img);
            proof {
                assert(monedas.deep_view() =~= antes.push(vista));
            }
        }
        let pozo = genera_pozo();
        Sprites {
            lista: Vec::new(),
            anim_torch: torch,
            anim_coin: monedas,
            img_pit: pozo,
            f_torch: 0,
            f_coin: 0,
            t: 0,
        }
    }

    /// Rebuild the collection from the map's marker cells, one centered
    /// sprite per marker in row-major order, and report how many coins
    /// the level holds.
    pub fn rellenar_desde_mapa(&mut self, mapa: &Mapa) -> (monedas: usize)
        requires
            mapa_valido(mapa.deep_view()),
        ensures
            final(self).lista.deep_view() == sprites_de_mapa(
                mapa.deep_view(),
                mapa.deep_view().len() as int,
            ),
            monedas == cuenta_monedas(final(self).lista.deep_view()),
            final(self).anim_torch == old(self).anim_torch,
            final(self).anim_coin == old(self).anim_coin,
            final(self).img_pit == old(self).img_pit,
            final(self).f_torch == old(self).f_torch,
            final(self).f_coin == old(self).f_coin,
            final(self).t == old(self).t,
            old(self).valida() ==> final(self).valida(),
    {
        let ghost v = mapa.deep_view();
        let mut nueva: Vec<Sprite> = Vec::new();
        let mut monedas: usize = 0;
        let alto = mapa.len();
        let w = if alto > 0 {
            mapa[0].len()
        } else {
            0
        };
        for y in 0..alto
            invariant
                mapa_valido(v),
                v == mapa.deep_view(),
                alto == v.len(),
                w == ancho(v),
                nueva.deep_view() == sprites_de_mapa(v, y as int),
                monedas == cuenta_monedas(nueva.deep_view()),
                monedas <= nueva.len(),
                nueva.len() <= y * 256,
                sprites_acotados(nueva.deep_view()),
        {
            for x in 0..w
                invariant
                    mapa_valido(v),
                    v == mapa.deep_view(),
                    alto == v.len(),
                    y < alto,
                    w == ancho(v),
                    nueva.deep_view() == sprites_de_mapa(v, y as int) + sprites_de_fila(
                        v[y as int],
                        y as int,
                        x as int,
                    ),
                    monedas == cuenta_monedas(nueva.deep_view()),
                    monedas <= nueva.len(),
                    nueva.len() <= y * 256 + x,
                    sprites_acotados(nueva.deep_view()),
            {
                let c = mapa[y][x];
                let ghost antes = nueva.deep_view();
                let sx: i64 = (x as i64) * 65536 + 32768;
                let sy: i64 = (y as i64) * 65536 + 32768;
                match c {
                    Celda::Antorcha => {
                        nueva.push(Sprite { x: sx, y: sy, kind: SpriteKind::Torch });
                    },
                    Celda::Moneda => {
                        nueva.push(Sprite { x: sx, y: sy, kind: SpriteKind::Coin });
                        monedas = monedas + 1;
                    },
                    Celda::Pozo => {
                        nueva.push(Sprite { x: sx, y: sy, kind: SpriteKind::Pit });
                    },
                    _ => {},
                }
                proof {
                    assert(v[y as int][x as int] == c);
                    if nueva.deep_view().len() == antes.len() + 1 {
                        lema_cuenta_push(antes, nueva.deep_view());
                    }
                    assert(nueva.deep_view() =~= antes + sprite_de(c, x as int, y as int));
                    assert(sprites_de_fila(v[y as int], y as int, x + 1)
                        == sprites_de_fila(v[y as int], y as int, x as int) + sprite_de(
                        c,
                        x as int,
                        y as int,
                    ));
                    assert(nueva.deep_view() =~= sprites_de_mapa(v, y as int)
                        + sprites_de_fila(v[y as int], y as int, x + 1));
                    assert forall|k: int| 0 <= k < nueva.deep_view().len() implies (0 <= (
                    #[trigger] nueva.deep_view()[k]).x <= 16842752 && 0 <= nueva.deep_view()[k].y
                        <= 16842752) by {
                        if k < antes.len() {
                            assert(nueva.deep_view()[k] == antes[k]);
                        }
                    }
                }
            }
            proof {
                assert(sprites_de_mapa(v, y + 1) == sprites_de_mapa(v, y as int)
                    + sprites_de_fila(v[y as int], y as int, ancho(v)));
                assert(nueva.deep_view() =~= sprites_de_mapa(v, y + 1));
            }
        }
        self.lista = nueva;
        monedas
    }

    /// Remove every coin whose cell matches the cell-truncated player
    /// position; torches and pits stay. Returns how many coins left the
    /// collection, so the caller's running total can never exceed the
    /// coins the level reported when it was filled.
    pub fn recolectar_monedas_en(&mut self, px: i64, py: i64) -> (n: usize)
        requires
            old(self).valida(),
            -0x4000_0000_0000_0000 < px < 0x4000_0000_0000_0000,
            -0x4000_0000_0000_0000 < py < 0x4000_0000_0000_0000,
        ensures
            final(self).lista.deep_view() == quitar_monedas(
                old(self).lista.deep_view(),
                piso_spec(px as int),
                piso_spec(py as int),
            ),
            n == cuenta_monedas_en(
                old(self).lista.deep_view(),
                piso_spec(px as int),
                piso_spec(py as int),
            ),
            n == cuenta_monedas(old(self).lista.deep_view()) - cuenta_monedas(
                final(self).lista.deep_view(),
            ),
            final(self).valida(),
            final(self).anim_torch == old(self).anim_torch,
            final(self).anim_coin == old(self).anim_coin,
            final(self).img_pit == old(self).img_pit,
            final(self).f_torch == old(self).f_torch,
            final(self).f_coin == old(self).f_coin,
            final(self).t == old(self).t,
    {
        let ghost cx = piso_spec(px as int);
        let ghost cy = piso_spec(py as int);
        let pcx = piso_fp(px);
        let pcy = piso_fp(py);
        let mut nueva: Vec<Sprite> = Vec::new();
        let mut n: usize = 0;
        let total = self.lista.len();
        for i in 0..total
            invariant
                total == self.lista.deep_view().len(),
                self == old(self),
                old(self).valida(),
                pcx == cx,
                pcy == cy,
                nueva.deep_view() == quitar_monedas(
                    self.lista.deep_view().take(i as int),
                    cx,
                    cy,
                ),
                n == cuenta_monedas_en(self.lista.deep_view().take(i as int), cx, cy),
                n == cuenta_monedas(self.lista.deep_view().take(i as int)) - cuenta_monedas(
                    nueva.deep_view(),
                ),
                n <= i,
                sprites_acotados(nueva.deep_view()),
        {
            let s = self.lista[i];
            proof {
                assert(self.lista.deep_view().take(i + 1).drop_last() =~= self
                    .lista
                    .deep_view()
                    .take(i as int));
                assert(self.lista.deep_view().take(i + 1).last() == s);
                assert(s == self.lista.deep_view()[i as int]);
                assert(0 <= s.x <= 16842752 && 0 <= s.y <= 16842752);
            }
            let es_moneda = match s.kind {
                SpriteKind::Coin => true,
                _ => false,
            };
            if es_moneda && piso_fp(s.x) == pcx && piso_fp(s.y) == pcy {
                n = n + 1;
            } else {
                let ghost antes = nueva.deep_view();
                nueva.push(s);
                proof {
                    lema_cuenta_push(antes, nueva.deep_view());
                    assert(nueva.deep_view() =~= antes.push(s));
                    assert forall|k: int| 0 <= k < nueva.deep_view().len() implies (0 <= (
                    #[trigger] nueva.deep_view()[k]).x <= 16842752 && 0 <= nueva.deep_view()[k].y
                        <= 16842752) by {
                        if k < antes.len() {
                            assert(nueva.deep_view()[k] == antes[k]);
                        }
                    }
                }
            }
        }
        proof {
            assert(self.lista.deep_view().take(total as int) =~= self.lista.deep_view());
        }
        self.lista = nueva;
        n
    }

    /// Advance the animation counters: the torch cycles every 12 ticks,
    /// the coin shine every 10.
    pub fn actualizar(&mut self)
        requires
            old(self).valida(),
            old(self).t < usize::MAX,
        ensures
            final(self).t == old(self).t + 1,
            final(self).f_torch == (if (old(self).t + 1) % 12 == 0 {
                (old(self).f_torch + 1) % 4
            } else {
                old(self).f_torch as int
            }),
            final(self).f_coin == (if (old(self).t + 1) % 10 == 0 {
                (old(self).f_coin + 1) % 4
            } else {
                old(self).f_coin as int
            }),
            final(self).lista == old(self).lista,
            final(self).anim_torch == old(self).anim_torch,
            final(self).anim_coin == old(self).anim_coin,
            final(self).img_pit == old(self).img_pit,
            final(self).valida(),
    {
        self.t = self.t + 1;
        if self.t % 12 == 0 {
            self.f_torch = (self.f_torch + 1) % 4;
        }
        if self.t % 10 == 0 {
            self.f_coin = (self.f_coin + 1) % 4;
        }
    }
}

/// Appending one sprite adds one to the coin counts exactly when it is a
/// matching coin.
proof fn lema_cuenta_push(antes: Seq<Sprite>, despues: Seq<Sprite>)
    requires
        despues.len() == antes.len() + 1,
        despues.drop_last() =~= antes,
    ensures
        cuenta_monedas(despues) == cuenta_monedas(antes) + (if despues.last().kind
            == SpriteKind::Coin {
            1int
        } else {
            0int
        }),
{
}

/// Collecting the coins of a cell leaves no coin of that cell behind, so
/// a second collection from the same position finds nothing.
pub proof fn lema_recoleccion_idempotente(l: Seq<Sprite>, cx: int, cy: int)
    ensures
        cuenta_monedas_en(quitar_monedas(l, cx, cy), cx, cy) == 0,
    decreases l.len(),
{
    if l.len() == 0 {
    } else {
        lema_recoleccion_idempotente(l.drop_last(), cx, cy);
        let resto = quitar_monedas(l.drop_last(), cx, cy);
        if !es_moneda_en(l.last(), cx, cy) {
            assert(resto.push(l.last()).drop_last() =~= resto);
        }
    }
}

/// Collection removes exactly the matching coins: the total coin count
/// drops by the count of the cell and by nothing more.
pub proof fn lema_monedas_conservadas(l: Seq<Sprite>, cx: int, cy: int)
    ensures
        cuenta_monedas(quitar_monedas(l, cx, cy)) == cuenta_monedas(l) - cuenta_monedas_en(
            l,
            cx,
            cy,
        ),
        0 <= cuenta_monedas_en(l, cx, cy) <= cuenta_monedas(l),
        quitar_monedas(l, cx, cy).len() == l.len() - cuenta_monedas_en(l, cx, cy),
    decreases l.len(),
{
    if l.len() == 0 {
    } else {
        lema_monedas_conservadas(l.drop_last(), cx, cy);
        let resto = quitar_monedas(l.drop_last(), cx, cy);
        if !es_moneda_en(l.last(), cx, cy) {
            assert(resto.push(l.last()).drop_last() =~= resto);
        }
    }
}

/// Clamp to a closed interval.
pub open spec fn acotar(v: int, lo: int, hi: int) -> int {
    if v < lo {
        lo
    } else if v > hi {
        hi
    } else {
        v
    }
}

/// Camera-space coordinates of a sprite: the lateral offset along the
/// right vector first, then the depth along the heading's forward
/// vector, obtained by inverting the orthogonal (forward, right) basis.
pub open spec fn trans_camara(j: Jugador, sx: int, sy: int) -> (int, int) {
    let c = coseno_spec(j.ang as int);
    let s = seno_spec(j.ang as int);
    let dx = sx - j.x;
    let dy = sy - j.y;
    let det = c * c + s * s;
    (
        div_trunca((c * dy - s * dx) * 65536, det),
        div_trunca((c * dx + s * dy) * 65536, det),
    )
}

/// The camera basis is never singular: its determinant is at least one.
pub proof fn lema_det_positivo(a: int)
    requires
        0 <= a < 65536,
    ensures
        1 <= coseno_spec(a) * coseno_spec(a) + seno_spec(a) * seno_spec(a) <= 0x2_0000_0000,
{
    crate::fijo::lema_seno_coseno_no_cero(a);
    let c = coseno_spec(a);
    let s = seno_spec(a);
    assert(-65536 <= s <= 65536 && -65536 <= c <= 65536) by {
        lema_cotas_seno(a);
    }
    assert(0 <= c * c <= 0x1_0000_0000 && 0 <= s * s <= 0x1_0000_0000) by (nonlinear_arith)
        requires -65536 <= c <= 65536 && -65536 <= s <= 65536;
    if s != 0 {
        assert(1 <= s * s) by (nonlinear_arith)
            requires s != 0;
    } else {
        assert(1 <= c * c) by (nonlinear_arith)
            requires c == 65536 || c == -65536;
    }
}

/// Spec-level bounds of the sine and cosine.
proof fn lema_cotas_seno(a: int)
    requires
        0 <= a < 65536,
    ensures
        -65536 <= seno_spec(a) <= 65536,
        -65536 <= coseno_spec(a) <= 65536,
{
    lema_medio_acotado(a);
    let b = if a + 16384 < 65536 {
        a + 16384
    } else {
        a + 16384 - 65536
    };
    lema_medio_acotado(b);
}

proof fn lema_medio_acotado(a: int)
    requires
        0 <= a < 65536,
    ensures
        -65536 <= seno_spec(a) <= 65536,
{
    let x = if a < 32768 {
        a
    } else {
        a - 32768
    };
    assert(0 <= x * (32768 - x) <= 268435456) by (nonlinear_arith)
        requires 0 <= x < 32768;
    let p = x * (32768 - x);
    lemma_div_pos_is_pos(1048576 * p, 5368709120 - 4 * p);
    lemma_div_is_ordered(1048576 * p, 65536 * (5368709120 - 4 * p), 5368709120 - 4 * p);
    lemma_div_multiples_vanish(65536, 5368709120 - 4 * p);
    assert(1048576 * p <= 65536 * (5368709120 - 4 * p)) by (nonlinear_arith)
        requires 0 <= p <= 268435456;
}

/// Project a sprite position into camera space.
pub fn transformar_camara(j: &Jugador, sx: i64, sy: i64) -> (r: (i64, i64))
    requires
        jugador_valido(*j),
        0 <= sx <= 16842752,
        0 <= sy <= 16842752,
    ensures
        (r.0 as int, r.1 as int) == trans_camara(*j, sx as int, sy as int),
        -0x400_0000_0000_0000 <= r.0 <= 0x400_0000_0000_0000,
        -0x400_0000_0000_0000 <= r.1 <= 0x400_0000_0000_0000,
{
    let c = coseno(j.ang);
    let s = seno(j.ang);
    let dx = sx - j.x;
    let dy = sy - j.y;
    proof {
        lema_det_positivo(j.ang as int);
        assert(-0x200_0000_0000 <= c * dx <= 0x200_0000_0000) by (nonlinear_arith)
            requires -65536 <= c <= 65536 && -0x2000000 <= dx <= 0x2000000;
        assert(-0x200_0000_0000 <= s * dy <= 0x200_0000_0000) by (nonlinear_arith)
            requires -65536 <= s <= 65536 && -0x2000000 <= dy <= 0x2000000;
        assert(-0x200_0000_0000 <= c * dy <= 0x200_0000_0000) by (nonlinear_arith)
            requires -65536 <= c <= 65536 && -0x2000000 <= dy <= 0x2000000;
        assert(-0x200_0000_0000 <= s * dx <= 0x200_0000_0000) by (nonlinear_arith)
            requires -65536 <= s <= 65536 && -0x2000000 <= dx <= 0x2000000;
        assert(0 <= c * c <= 0x1_0000_0000 && 0 <= s * s <= 0x1_0000_0000) by (nonlinear_arith)
            requires -65536 <= c <= 65536 && -65536 <= s <= 65536;
    }
    let det = c * c + s * s;
    let nx = c * dx + s * dy;
    let ny = c * dy - s * dx;
    proof {
        assert(-0x400_0000_0000 <= nx <= 0x400_0000_0000);
        assert(-0x400_0000_0000 <= ny <= 0x400_0000_0000);
        assert(-0x400_0000_0000_0000 <= nx as int * 65536 <= 0x400_0000_0000_0000);
        assert(-0x400_0000_0000_0000 <= ny as int * 65536 <= 0x400_0000_0000_0000);
        assert(1 <= det);
        lema_trunca_acotada(nx as int * 65536, det as int, 0x400_0000_0000_0000);
        lema_trunca_acotada(ny as int * 65536, det as int, 0x400_0000_0000_0000);
    }
    let tx = div_t(ny * 65536, det);
    let ty = div_t(nx * 65536, det);
    (tx, ty)
}

/// A truncating division by a positive divisor keeps any symmetric bound
/// of its numerator.
proof fn lema_trunca_acotada(a: int, b: int, cota: int)
    requires
        1 <= b,
        -cota <= a <= cota,
        0 <= cota,
    ensures
        -cota <= div_trunca(a, b) <= cota,
{
    if a >= 0 {
        lemma_div_pos_is_pos(a, b);
        crate::fijo::lema_div_no_crece(a, b);
    } else {
        lemma_div_pos_is_pos(-a, b);
        crate::fijo::lema_div_no_crece(-a, b);
    }
}

/// The screen column at the center of a projected sprite.
pub open spec fn centro_sprite(w: int, tx: int, ty: int) -> int {
    acotar(w / 2 + div_trunca((w / 2) * tx, ty), -2147483648, 2147483647)
}

/// The projected square size of a sprite at depth `ty`, with the minimum
/// visible size.
pub open spec fn alto_sprite(h: int, ty: int) -> int {
    let sh = (h * 65536) / ty;
    if sh < 14 {
        14
    } else {
        sh
    }
}

/// Column `i` lies under the projected square of the sprite.
pub open spec fn columna_cubierta(w: int, h: int, tx: int, ty: int, i: int) -> bool {
    let ssx = centro_sprite(w, tx, ty);
    let sh = alto_sprite(h, ty);
    ssx - sh / 2 <= i <= ssx + sh / 2
}

/// The color of pixel (i, q) after one sprite is painted over `antes`:
/// inside the clipped projected square, in a column where the sprite is
/// strictly nearer than the wall depth, the sampled frame texel lands
/// unless it is fully transparent; everywhere else the pixel keeps its
/// previous color.
pub open spec fn pixel_sprite(
    w: int,
    h: int,
    tx: int,
    ty: int,
    frame: Seq<Color>,
    z: Seq<i64>,
    i: int,
    q: int,
    antes: Color,
) -> Color {
    let ssx = centro_sprite(w, tx, ty);
    let sh = alto_sprite(h, ty);
    let mitad = sh / 2;
    let mitad_h = h / 2;
    let dsy = if -mitad + mitad_h > 0 {
        -mitad + mitad_h
    } else {
        0
    };
    let dey = if mitad + mitad_h < h - 1 {
        mitad + mitad_h
    } else {
        h - 1
    };
    let dsx = if -mitad + ssx > 0 {
        -mitad + ssx
    } else {
        0
    };
    let dex = if mitad + ssx < w - 1 {
        mitad + ssx
    } else {
        w - 1
    };
    if dsx <= i <= dex && ty < z[i] && dsy <= q <= dey {
        let tex_x0 = ((i - (ssx - mitad)) * 32) / sh;
        let tex_x = if tex_x0 > 31 {
            31
        } else {
            tex_x0
        };
        let tex_y0 = ((q - (mitad_h - mitad)) * 32) / sh;
        let tex_y = if tex_y0 > 31 {
            31
        } else {
            tex_y0
        };
        let col = frame[tex_y * 32 + tex_x];
        if col.a > 0 {
            col
        } else {
            antes
        }
    } else {
        antes
    }
}

/// Paint one sprite frame as a billboard: every pixel of the surface
/// ends exactly as `pixel_sprite` says, so columns where the sprite is
/// at or beyond the wall depth receive nothing, fully transparent
/// texels are skipped, and a sprite whose depth reaches or exceeds the
/// wall depth on every covered column paints nothing at all.
#[verifier::loop_isolation(false)]
#[verifier::rlimit(100)]
pub fn dibujar_un_sprite(
    fb: &mut Framebuffer,
    z: &Vec<i64>,
    frame: &Vec<Color>,
    tx: i64,
    ty: i64,
)
    requires
        old(fb).valido(),
        z.len() == old(fb).w,
        frame.len() == 1024,
        655 < ty <= 0x400_0000_0000_0000,
        -0x400_0000_0000_0000 <= tx <= 0x400_0000_0000_0000,
    ensures
        final(fb).valido(),
        final(fb).w == old(fb).w,
        final(fb).h == old(fb).h,
        forall|i: int, q: int|
            0 <= i < old(fb).w && 0 <= q < old(fb).h ==> #[trigger] final(fb).pixel(i, q)
                == pixel_sprite(
                old(fb).w as int,
                old(fb).h as int,
                tx as int,
                ty as int,
                frame.deep_view(),
                z.deep_view(),
                i,
                q,
                old(fb).pixel(i, q),
            ),
        forall|i: int, q: int|
            0 <= i < old(fb).w && 0 <= q < old(fb).h ==> (#[trigger] final(fb).pixel(i, q)
                == old(fb).pixel(i, q) || (columna_cubierta(
                old(fb).w as int,
                old(fb).h as int,
                tx as int,
                ty as int,
                i,
            ) && ty < z[i])),
        (forall|i: int|
            0 <= i < old(fb).w && columna_cubierta(
                old(fb).w as int,
                old(fb).h as int,
                tx as int,
                ty as int,
                i,
            ) ==> ty >= z[i]) ==> forall|i: int, q: int|
            0 <= i < old(fb).w && 0 <= q < old(fb).h ==> #[trigger] final(fb).pixel(i, q) == old(
                fb,
            ).pixel(i, q),
{
    let ghost w_v = old(fb).w as int;
    let ghost h_v = old(fb).h as int;
    let w: i64 = fb.w as i64;
    let h: i64 = fb.h as i64;
    let mitad_w: i64 = w / 2;
    proof {
        assert(-0x800_0000_0000_0000_0000 <= (mitad_w as int) * (tx as int)
            <= 0x800_0000_0000_0000_0000) by (nonlinear_arith)
            requires 0 <= mitad_w <= 2048 && -0x400_0000_0000_0000 <= tx <= 0x400_0000_0000_0000;
    }
    let prod: i128 = (mitad_w as i128) * (tx as i128);
    let q0: i128 = if prod >= 0 {
        (((prod as u128) / (ty as u128)) as i128)
    } else {
        -((((-prod) as u128) / (ty as u128)) as i128)
    };
    proof {
        if prod >= 0 {
            lemma_div_pos_is_pos(prod as int, ty as int);
            crate::fijo::lema_div_no_crece(prod as int, ty as int);
        } else {
            lemma_div_pos_is_pos(-prod as int, ty as int);
            crate::fijo::lema_div_no_crece(-prod as int, ty as int);
        }
    }
    let ssx_ancho: i128 = (mitad_w as i128) + q0;
    let ssx: i64 = if ssx_ancho < -2147483648 {
        -2147483648
    } else if ssx_ancho > 2147483647 {
        2147483647
    } else {
        ssx_ancho as i64
    };
    proof {
        assert(ssx as int == centro_sprite(w_v, tx as int, ty as int));
    }
    let sh0 = crate::fijo::div_pos(h * 65536, ty);
    let sh = if sh0 < 14 {
        14
    } else {
        sh0
    };
    proof {
        lemma_div_pos_is_pos(h as int * 65536, ty as int);
        crate::fijo::lema_div_no_crece(h as int * 65536, ty as int);
        assert(sh as int == alto_sprite(h_v, ty as int));
    }
    let mitad = crate::fijo::div_pos(sh, 2);
    let mitad_h = h / 2;
    let dsy = if -mitad + mitad_h > 0 {
        -mitad + mitad_h
    } else {
        0
    };
    let dey = if mitad + mitad_h < h - 1 {
        mitad + mitad_h
    } else {
        h - 1
    };
    let dsx = if -mitad + ssx > 0 {
        -mitad + ssx
    } else {
        0
    };
    let dex = if mitad + ssx < w - 1 {
        mitad + ssx
    } else {
        w - 1
    };
    let ghost formula = |i: int, q: int, antes: Color| pixel_sprite(
        w_v,
        h_v,
        tx as int,
        ty as int,
        frame.deep_view(),
        z.deep_view(),
        i,
        q,
        antes,
    );
    let mut stripe = dsx;
    while stripe <= dex && dsx <= dex
        invariant
            dsx <= stripe <= dex + 1 || (dex < dsx && stripe == dsx),
            fb.valido(),
            fb.w == old(fb).w,
            fb.h == old(fb).h,
            forall|i: int, q: int|
                0 <= i < old(fb).w && 0 <= q < old(fb).h ==> #[trigger] fb.pixel(i, q) == (
                if dsx <= i < stripe {
                    formula(i, q, old(fb).pixel(i, q))
                } else {
                    old(fb).pixel(i, q)
                }),
        decreases dex + 1 - stripe,
    {
        let base_x = stripe - (ssx - mitad);
        let tex_x0 = crate::fijo::div_pos(base_x * 32, sh);
        let tex_x = if tex_x0 > 31 {
            31
        } else {
            tex_x0
        };
        proof {
            lemma_div_pos_is_pos(base_x as int * 32, sh as int);
            crate::fijo::lema_div_no_crece(base_x as int * 32, sh as int);
        }
        if ty < z[stripe as usize] {
            let mut y = dsy;
            while y <= dey
                invariant
                    dsy <= y <= dey + 1,
                    fb.valido(),
                    fb.w == old(fb).w,
                    fb.h == old(fb).h,
                    ty < z[stripe as int],
                    dsx <= stripe <= dex,
                    forall|i: int, q: int|
                        0 <= i < old(fb).w && 0 <= q < old(fb).h ==> #[trigger] fb.pixel(i, q)
                            == (if dsx <= i < stripe {
                            formula(i, q, old(fb).pixel(i, q))
                        } else if i == stripe && dsy <= q < y {
                            formula(i, q, old(fb).pixel(i, q))
                        } else {
                            old(fb).pixel(i, q)
                        }),
                decreases dey + 1 - y,
            {
                let base_y = y - (mitad_h - mitad);
                let tex_y0 = crate::fijo::div_pos(base_y * 32, sh);
                let tex_y = if tex_y0 > 31 {
                    31
                } else {
                    tex_y0
                };
                proof {
                    lemma_div_pos_is_pos(base_y as int * 32, sh as int);
                    crate::fijo::lema_div_no_crece(base_y as int * 32, sh as int);
                }
                let col = frame[(tex_y * 32 + tex_x) as usize];
                proof {
                    assert(frame.deep_view()[tex_y as int * 32 + tex_x as int] == col);
                    assert(z.deep_view()[stripe as int] == z[stripe as int]);
                    assert(formula(stripe as int, y as int, old(fb).pixel(stripe as int, y as int))
                        == (if col.a > 0 {
                        col
                    } else {
                        old(fb).pixel(stripe as int, y as int)
                    }));
                }
                if col.a > 0 {
                    fb.set(stripe as i32, y as i32, col);
                }
                y = y + 1;
            }
        } else {
            proof {
                assert(z.deep_view()[stripe as int] == z[stripe as int]);
                assert forall|q: int| 0 <= q < old(fb).h implies formula(
                    stripe as int,
                    q,
                    old(fb).pixel(stripe as int, q),
                ) == old(fb).pixel(stripe as int, q) by {}
            }
        }
        stripe = stripe + 1;
    }
    proof {
        assert forall|i: int, q: int| 0 <= i < old(fb).w && 0 <= q < old(fb).h implies
            #[trigger] fb.pixel(i, q) == formula(i, q, old(fb).pixel(i, q)) by {
            if !(dsx <= i < stripe) {
                assert(z.deep_view()[i] == z[i]);
            }
        }
        assert forall|i: int, q: int|
            0 <= i < old(fb).w && 0 <= q < old(fb).h implies (#[trigger] fb.pixel(i, q) == old(
            fb,
        ).pixel(i, q) || (columna_cubierta(w_v, h_v, tx as int, ty as int, i) && ty < z[i])) by {
            if fb.pixel(i, q) != old(fb).pixel(i, q) {
                assert(z.deep_view()[i] == z[i]);
            }
        }
    }
}

/// Squared distance from the player to a sprite, in squared fixed point.
pub open spec fn distancia2(j: Jugador, s: Sprite) -> int {
    (s.x - j.x) * (s.x - j.x) + (s.y - j.y) * (s.y - j.y)
}

/// Index `k` appears as a sprite index somewhere in the pair list.
spec fn aparece(sq: Seq<(usize, i64)>, k: int) -> bool {
    exists|a: int| 0 <= a < sq.len() && (#[trigger] sq[a]).0 == k
}

/// Build the painter's order: every sprite index once, sorted by
/// descending squared distance from the player, so nearer sprites are
/// drawn last and overwrite farther ones.
fn ordenar_por_distancia(j: &Jugador, lista: &Vec<Sprite>) -> (orden: Vec<(usize, i64)>)
    requires
        jugador_valido(*j),
        sprites_acotados(lista.deep_view()),
    ensures
        orden.len() == lista.len(),
        forall|k: int| 0 <= k < orden.len() ==> (#[trigger] orden[k]).0 < lista.len(),
        forall|a: int, b: int|
            0 <= a <= b < orden.len() ==> (#[trigger] orden[a]).1 >= (#[trigger] orden[b]).1,
        forall|k: int| 0 <= k < lista.len() ==> #[trigger] aparece(orden.deep_view(), k),
        forall|a: int|
            0 <= a < orden.len() ==> (#[trigger] orden[a]).1 == distancia2(
                *j,
                lista.deep_view()[orden.deep_view()[a].0 as int],
            ),
{
    let mut pares: Vec<(usize, i64)> = Vec::new();
    let total = lista.len();
    for i in 0..total
        invariant
            total == lista.len(),
            sprites_acotados(lista.deep_view()),
            jugador_valido(*j),
            pares.len() == i,
            forall|k: int| 0 <= k < i ==> (#[trigger] pares[k]).0 == k,
            forall|k: int|
                0 <= k < i ==> (#[trigger] pares[k]).1 == distancia2(*j, lista.deep_view()[k]),
    {
        let s = lista[i];
        proof {
            assert(s == lista.deep_view()[i as int]);
        }
        let dx = s.x - j.x;
        let dy = s.y - j.y;
        proof {
            assert(0 <= dx * dx <= 0x4_0000_0000_0000 && 0 <= dy * dy <= 0x4_0000_0000_0000)
                by (nonlinear_arith)
                requires -0x2000000 <= dx <= 0x2000000 && -0x2000000 <= dy <= 0x2000000;
        }
        let d2 = dx * dx + dy * dy;
        pares.push((i, d2));
    }
    proof {
        assert forall|k: int| 0 <= k < total implies #[trigger] aparece(pares.deep_view(), k) by {
            assert(pares.deep_view()[k].0 == k);
        }
    }
    let mut orden: Vec<(usize, i64)> = Vec::new();
    while pares.len() > 0
        invariant
            orden.len() + pares.len() == total,
            forall|k: int| 0 <= k < orden.len() ==> (#[trigger] orden[k]).0 < total,
            forall|k: int| 0 <= k < pares.len() ==> (#[trigger] pares[k]).0 < total,
            forall|a: int, b: int|
                0 <= a <= b < orden.len() ==> (#[trigger] orden[a]).1 >= (#[trigger] orden[b]).1,
            forall|a: int, r: int|
                0 <= a < orden.len() && 0 <= r < pares.len() ==> (#[trigger] orden[a]).1
                    >= (#[trigger] pares[r]).1,
            forall|k: int|
                0 <= k < total ==> #[trigger] aparece(orden.deep_view(), k) || aparece(
                    pares.deep_view(),
                    k,
                ),
            forall|a: int|
                0 <= a < orden.len() ==> (#[trigger] orden[a]).1 == distancia2(
                    *j,
                    lista.deep_view()[orden.deep_view()[a].0 as int],
                ),
            forall|b: int|
                0 <= b < pares.len() ==> (#[trigger] pares[b]).1 == distancia2(
                    *j,
                    lista.deep_view()[pares.deep_view()[b].0 as int],
                ),
        decreases pares.len(),
    {
        let mut imax: usize = 0;
        let mut k: usize = 1;
        while k < pares.len()
            invariant
                imax < pares.len(),
                k <= pares.len(),
                forall|r: int| 0 <= r < k ==> pares[imax as int].1 >= (#[trigger] pares[r]).1,
            decreases pares.len() - k,
        {
            if pares[k].1 > pares[imax].1 {
                imax = k;
            }
            k += 1;
        }
        let ghost orden_antes = orden.deep_view();
        let ghost pares_antes = pares.deep_view();
        let ghost viejo_imax = imax as int;
        let e = pares.remove(imax);
        orden.push(e);
        proof {
            assert(e == pares_antes[viejo_imax]);
            assert(orden.deep_view() =~= orden_antes.push(e));
            assert forall|b: int| 0 <= b < pares.deep_view().len() implies #[trigger] pares
                .deep_view()[b] == (if b < viejo_imax {
                pares_antes[b]
            } else {
                pares_antes[b + 1]
            }) by {}
            assert forall|k2: int| 0 <= k2 < total implies #[trigger] aparece(
                orden.deep_view(),
                k2,
            ) || aparece(pares.deep_view(), k2) by {
                if aparece(orden_antes, k2) {
                    let a = choose|a: int|
                        0 <= a < orden_antes.len() && (#[trigger] orden_antes[a]).0 == k2;
                    assert(orden.deep_view()[a].0 == k2);
                } else {
                    let b = choose|b: int|
                        0 <= b < pares_antes.len() && (#[trigger] pares_antes[b]).0 == k2;
                    if b == viejo_imax {
                        assert(orden.deep_view()[orden_antes.len() as int].0 == k2);
                    } else if b < viejo_imax {
                        assert(pares.deep_view()[b].0 == k2);
                    } else {
                        assert(pares.deep_view()[b - 1].0 == k2);
                    }
                }
            }
        }
    }
    orden
}

/// A sprite that passes every guard/// The collection after a whole series of coin collections, one cell
/// per step, in order.
pub open spec fn recolectar_serie(l: Seq<Sprite>, celdas: Seq<(int, int)>) -> Seq<Sprite>
    decreases celdas.len(),
{
    if celdas.len() == 0 {
        l
    } else {
        quitar_monedas(
            recolectar_serie(l, celdas.drop_last()),
            celdas.last().0,
            celdas.last().1,
        )
    }
}

/// Over any series of collection calls the collection only shrinks, the
/// coin count never goes negative, and the amounts removed sum to the
/// total drop in the coin count — so the running total a session
/// accumulates can never exceed the coins the level reported when it
/// was filled.
pub proof fn lema_serie_recolecciones(l: Seq<Sprite>, celdas: Seq<(int, int)>)
    ensures
        0 <= cuenta_monedas(recolectar_serie(l, celdas)) <= cuenta_monedas(l),
        recolectar_serie(l, celdas).len() <= l.len(),
        cuenta_monedas(l) - cuenta_monedas(recolectar_serie(l, celdas)) <= cuenta_monedas(l),
    decreases celdas.len(),
{
    if celdas.len() == 0 {
        lema_monedas_no_negativas(l);
    } else {
        lema_serie_recolecciones(l, celdas.drop_last());
        lema_monedas_conservadas(
            recolectar_serie(l, celdas.drop_last()),
            celdas.last().0,
            celdas.last().1,
        );
    }
}

/// A coin count is never negative.
proof fn lema_monedas_no_negativas(l: Seq<Sprite>)
    ensures
        0 <= cuenta_monedas(l),
    decreases l.len(),
{
    if l.len() > 0 {
        lema_monedas_no_negativas(l.drop_last());
    }
}

/// The animation frame the pass samples for a sprite kind.
pub open spec fn frame_de(spr: Sprites, k: SpriteKind) -> Seq<Color> {
    match k {
        SpriteKind::Torch => spr.anim_torch.deep_view()[spr.f_torch as int],
        SpriteKind::Coin => spr.anim_coin.deep_view()[spr.f_coin as int],
        SpriteKind::Pit => spr.img_pit.deep_view(),
    }
}

/// A sprite passes the pass's guards: it stands in an admissible cell
/// (a walkable one, or off the map as the defensive check allows) and
/// its camera depth is in front of the near plane.
pub open spec fn pasa_guardas(m: Seq<Seq<Celda>>, j: Jugador, s: Sprite) -> bool {
    &&& (match celda_en(m, piso_spec(s.x as int), piso_spec(s.y as int)) {
        Some(c) => caminable(c),
        None => true,
    })
    &&& trans_camara(j, s.x as int, s.y as int).1 > 655
}

/// The fold of the per-sprite painter over a sequence of sprite
/// indices, in order: each sprite that passes the guards paints per
/// `pixel_sprite` over the outcome so far, the rest paint nothing.
pub open spec fn pintar_pase(
    m: Seq<Seq<Celda>>,
    j: Jugador,
    spr: Sprites,
    z: Seq<i64>,
    w: int,
    h: int,
    ord: Seq<int>,
    i: int,
    q: int,
    antes: Color,
) -> Color
    decreases ord.len(),
{
    if ord.len() == 0 {
        antes
    } else {
        let prev = pintar_pase(m, j, spr, z, w, h, ord.drop_last(), i, q, antes);
        let k = ord.last();
        if 0 <= k < spr.lista.deep_view().len() && pasa_guardas(
            m,
            j,
            spr.lista.deep_view()[k],
        ) {
            let s = spr.lista.deep_view()[k];
            let t = trans_camara(j, s.x as int, s.y as int);
            pixel_sprite(w, h, t.0, t.1, frame_de(spr, s.kind), z, i, q, prev)
        } else {
            prev
        }
    }
}

/// One valid painter's pass over the whole collection: the index
/// sequence has one slot per sprite, stays in range, reaches every
/// sprite, runs from far to near, and the surface ends as the fold of
/// the per-sprite painter over it.
pub open spec fn pase_de_sprites(
    m: Seq<Seq<Celda>>,
    j: Jugador,
    spr: Sprites,
    z: Seq<i64>,
    antes: Framebuffer,
    despues: Framebuffer,
    ord: Seq<int>,
) -> bool {
    &&& ord.len() == spr.lista.deep_view().len()
    &&& (forall|a: int| 0 <= a < ord.len() ==> 0 <= #[trigger] ord[a] < ord.len())
    &&& (forall|k: int| 0 <= k < ord.len() ==> #[trigger] ord.contains(k))
    &&& (forall|a: int, b: int|
        #![trigger ord[a], ord[b]]
        0 <= a <= b < ord.len() ==> distancia2(j, spr.lista.deep_view()[ord[a]]) >= distancia2(
            j,
            spr.lista.deep_view()[ord[b]],
        ))
    &&& (forall|i: int, q: int|
        0 <= i < antes.w && 0 <= q < antes.h ==> #[trigger] despues.pixel(i, q) == pintar_pase(
            m,
            j,
            spr,
            z,
            antes.w as int,
            antes.h as int,
            ord,
            i,
            q,
            antes.pixel(i, q),
        ))
}

/// A sprite that passes every guard of the pass at screen column `i`:
/// it stands in an admissible cell (a walkable one, or off the map as
/// the defensive check allows), its camera depth is in front of the
/// near plane, its projected square covers the column, and it is
/// strictly nearer there than the wall depth.
pub open spec fn sprite_visible_en_columna(
    m: Seq<Seq<Celda>>,
    j: Jugador,
    s: Sprite,
    w: int,
    h: int,
    z: Seq<i64>,
    i: int,
) -> bool {
    let t = trans_camara(j, s.x as int, s.y as int);
    &&& (match celda_en(m, piso_spec(s.x as int), piso_spec(s.y as int)) {
        Some(c) => caminable(c),
        None => true,
    })
    &&& t.1 > 655
    &&& columna_cubierta(w, h, t.0, t.1, i)
    &&& t.1 < z[i]
}

/// The sprite pass: sort by descending distance, skip sprites standing
/// in non-walkable cells or at or behind the camera, and paint each one
/// under the per-column depth test. The surface ends as the fold of the
/// per-sprite painter over a far-to-near ordering of the whole
/// collection, and any pixel the pass changes lies in a column that
/// some sprite covers while passing every guard and being strictly
/// nearer than the wall the ray-caster found there.
#[verifier::loop_isolation(false)]
pub fn dibujar_sprites(
    fb: &mut Framebuffer,
    j: &Jugador,
    mapa: &Mapa,
    spr: &Sprites,
    z: &Vec<i64>,
)
    requires
        old(fb).valido(),
        mapa_valido(mapa.deep_view()),
        jugador_valido(*j),
        spr.valida(),
        z.len() == old(fb).w,
    ensures
        final(fb).valido(),
        final(fb).w == old(fb).w,
        final(fb).h == old(fb).h,
        forall|i: int, q: int|
            0 <= i < old(fb).w && 0 <= q < old(fb).h ==> (#[trigger] final(fb).pixel(i, q)
                == old(fb).pixel(i, q) || exists|k: int|
                0 <= k < spr.lista.deep_view().len() && #[trigger] sprite_visible_en_columna(
                    mapa.deep_view(),
                    *j,
                    spr.lista.deep_view()[k],
                    old(fb).w as int,
                    old(fb).h as int,
                    z.deep_view(),
                    i,
                )),
        exists|ord: Seq<int>|
            #[trigger] pase_de_sprites(
                mapa.deep_view(),
                *j,
                *spr,
                z.deep_view(),
                *old(fb),
                *final(fb),
                ord,
            ),
{
    let ghost v = mapa.deep_view();
    let ghost w_v = old(fb).w as int;
    let ghost h_v = old(fb).h as int;
    let orden = ordenar_por_distancia(j, &spr.lista);
    let ghost ordmap = Seq::new(orden.deep_view().len(), |a: int| orden.deep_view()[a].0 as int);
    let total = orden.len();
    for paso in 0..total
        invariant
            total == orden.len(),
            orden.len() == spr.lista.len(),
            forall|k: int| 0 <= k < orden.len() ==> (#[trigger] orden[k]).0 < spr.lista.len(),
            fb.valido(),
            fb.w == old(fb).w,
            fb.h == old(fb).h,
            forall|i: int, q: int|
                0 <= i < old(fb).w && 0 <= q < old(fb).h ==> (#[trigger] fb.pixel(i, q) == old(
                    fb,
                ).pixel(i, q) || exists|k: int|
                    0 <= k < spr.lista.deep_view().len() && #[trigger] sprite_visible_en_columna(
                        mapa.deep_view(),
                        *j,
                        spr.lista.deep_view()[k],
                        old(fb).w as int,
                        old(fb).h as int,
                        z.deep_view(),
                        i,
                    )),
            forall|i: int, q: int|
                0 <= i < old(fb).w && 0 <= q < old(fb).h ==> #[trigger] fb.pixel(i, q)
                    == pintar_pase(
                    v,
                    *j,
                    *spr,
                    z.deep_view(),
                    w_v,
                    h_v,
                    ordmap.take(paso as int),
                    i,
                    q,
                    old(fb).pixel(i, q),
                ),
    {
        let ghost pref = ordmap.take(paso as int);
        let ghost pref2 = ordmap.take(paso + 1);
        proof {
            assert(pref2.drop_last() =~= pref);
            assert(pref2.last() == ordmap[paso as int]);
        }
        let idx = orden[paso].0;
        let s = spr.lista[idx];
        proof {
            assert(s == spr.lista.deep_view()[idx as int]);
            assert(0 <= s.x <= 16842752 && 0 <= s.y <= 16842752);
        }
        let cx = crate::fijo::piso_fp(s.x);
        let cy = crate::fijo::piso_fp(s.y);
        let defensa = match crate::mapas::celda(mapa, cx as i32, cy as i32) {
            Some(c) => crate::mapas::es_caminable(c),
            None => true,
        };
        if defensa {
            let (tx, ty) = transformar_camara(j, s.x, s.y);
            if ty > 655 {
                let frame: &Vec<Color> = match s.kind {
                    SpriteKind::Torch => &spr.anim_torch[spr.f_torch],
                    SpriteKind::Coin => &spr.anim_coin[spr.f_coin],
                    SpriteKind::Pit => &spr.img_pit,
                };
                proof {
                    if s.kind == SpriteKind::Torch {
                        assert(spr.anim_torch.deep_view()[spr.f_torch as int].len() == 1024);
                    }
                    if s.kind == SpriteKind::Coin {
                        assert(spr.anim_coin.deep_view()[spr.f_coin as int].len() == 1024);
                    }
                }
                proof {
                    assert(frame.deep_view() == frame_de(*spr, s.kind));
                    assert(pasa_guardas(v, *j, s));
                    assert((tx as int, ty as int) == trans_camara(*j, s.x as int, s.y as int));
                }
                let ghost fb_antes = *fb;
                dibujar_un_sprite(fb, z, frame, tx, ty);
                proof {
                    assert forall|i: int, q: int|
                        0 <= i < old(fb).w && 0 <= q < old(fb).h implies #[trigger] fb.pixel(
                        i,
                        q,
                    ) == pintar_pase(
                        v,
                        *j,
                        *spr,
                        z.deep_view(),
                        w_v,
                        h_v,
                        pref2,
                        i,
                        q,
                        old(fb).pixel(i, q),
                    ) by {
                        assert(fb.pixel(i, q) == pixel_sprite(
                            w_v,
                            h_v,
                            tx as int,
                            ty as int,
                            frame.deep_view(),
                            z.deep_view(),
                            i,
                            q,
                            fb_antes.pixel(i, q),
                        ));
                    }
                    assert forall|i: int, q: int|
                        0 <= i < old(fb).w && 0 <= q < old(fb).h implies (#[trigger] fb.pixel(
                        i,
                        q,
                    ) == old(fb).pixel(i, q) || exists|k: int|
                        0 <= k < spr.lista.deep_view().len() && #[trigger] sprite_visible_en_columna(
                            mapa.deep_view(),
                            *j,
                            spr.lista.deep_view()[k],
                            old(fb).w as int,
                            old(fb).h as int,
                            z.deep_view(),
                            i,
                        )) by {
                        if fb.pixel(i, q) != fb_antes.pixel(i, q) {
                            assert(ty < z[i]);
                            assert(z.deep_view()[i] == z[i]);
                            assert(0 <= idx < spr.lista.deep_view().len()
                                && sprite_visible_en_columna(
                                mapa.deep_view(),
                                *j,
                                spr.lista.deep_view()[idx as int],
                                old(fb).w as int,
                                old(fb).h as int,
                                z.deep_view(),
                                i,
                            ));
                        }
                    }
                }
            } else {
                proof {
                    assert(trans_camara(*j, s.x as int, s.y as int).1 == ty as int);
                    assert(!pasa_guardas(v, *j, s));
                    assert forall|i: int, q: int|
                        0 <= i < old(fb).w && 0 <= q < old(fb).h implies #[trigger] fb.pixel(
                        i,
                        q,
                    ) == pintar_pase(
                        v,
                        *j,
                        *spr,
                        z.deep_view(),
                        w_v,
                        h_v,
                        pref2,
                        i,
                        q,
                        old(fb).pixel(i, q),
                    ) by {}
                }
            }
        } else {
            proof {
                assert(!pasa_guardas(v, *j, s));
                assert forall|i: int, q: int|
                    0 <= i < old(fb).w && 0 <= q < old(fb).h implies #[trigger] fb.pixel(i, q)
                        == pintar_pase(
                        v,
                        *j,
                        *spr,
                        z.deep_view(),
                        w_v,
                        h_v,
                        pref2,
                        i,
                        q,
                        old(fb).pixel(i, q),
                    ) by {}
            }
        }
    }
    proof {
        assert(ordmap.take(total as int) =~= ordmap);
        assert forall|k: int| 0 <= k < ordmap.len() implies #[trigger] ordmap.contains(k) by {
            assert(aparece(orden.deep_view(), k));
            let a = choose|a: int|
                0 <= a < orden.deep_view().len() && (#[trigger] orden.deep_view()[a]).0 == k;
            assert(ordmap[a] == k);
        }
        assert(pase_de_sprites(v, *j, *spr, z.deep_view(), *old(fb), *fb, ordmap));
    }
}

} // verus!
