//! The grid map: cell types, the walkability model, the symbol grammar of
//! level rows, bounds-checked lookup and the spawn-safety search.
//!
//! A map is a rectangular grid of cells; rows shorter than the widest input
//! row are padded with floor at load time and longer rows are truncated.

use vstd::prelude::*;

verus! {

/// One cell of the grid. The six wall variants carry their texture id;
/// every other cell can be walked on.
#[derive(Clone, Copy, PartialEq, Eq, Structural, Debug)]
pub enum Celda {
    Pared(u8),
    Piso,
    Salida,
    Antorcha,
    Moneda,
    Pozo,
}

impl DeepView for Celda {
    type V = Celda;

    open spec fn deep_view(&self) -> Celda {
        *self
    }
}

/// A grid map: rows of cells, row-major.
pub type Mapa = Vec<Vec<Celda>>;

/// The width of a map, read from its first row as every lookup does.
pub open spec fn ancho(m: Seq<Seq<Celda>>) -> int {
    if m.len() == 0 {
        0
    } else {
        m[0].len() as int
    }
}

/// Every row has the width of the first one.
pub open spec fn mapa_rectangular(m: Seq<Seq<Celda>>) -> bool {
    forall|y: int| 0 <= y < m.len() ==> (#[trigger] m[y]).len() == ancho(m)
}

/// A well-formed play map: rectangular and of bounded size.
pub open spec fn mapa_valido(m: Seq<Seq<Celda>>) -> bool {
    &&& mapa_rectangular(m)
    &&& m.len() <= 256
    &&& ancho(m) <= 256
}

/// A cell is walkable unless it is a wall variant.
pub open spec fn caminable(c: Celda) -> bool {
    !(c is Pared)
}

/// Bounds-checked lookup: absent outside [0, ancho) x [0, alto).
pub open spec fn celda_en(m: Seq<Seq<Celda>>, x: int, y: int) -> Option<Celda> {
    if 0 <= y < m.len() && 0 <= x < ancho(m) {
        Some(m[y][x])
    } else {
        None
    }
}

/// There is a cell at (x, y) and it is walkable.
pub open spec fn caminable_en(m: Seq<Seq<Celda>>, x: int, y: int) -> bool {
    match celda_en(m, x, y) {
        Some(c) => caminable(c),
        None => false,
    }
}

/// The symbol grammar of level rows: digits 1..6 are wall variants,
/// a space (or '0') is floor, E the exit, A a torch, C a coin, P a pit;
/// any other symbol is treated as a generic wall.
pub open spec fn simbolo_a_celda(ch: char) -> Celda {
    if ch == ' ' || ch == '0' {
        Celda::Piso
    } else if ch == '1' {
        Celda::Pared(1)
    } else if ch == '2' {
        Celda::Pared(2)
    } else if ch == '3' {
        Celda::Pared(3)
    } else if ch == '4' {
        Celda::Pared(4)
    } else if ch == '5' {
        Celda::Pared(5)
    } else if ch == '6' {
        Celda::Pared(6)
    } else if ch == 'E' {
        Celda::Salida
    } else if ch == 'A' {
        Celda::Antorcha
    } else if ch == 'C' {
        Celda::Moneda
    } else if ch == 'P' {
        Celda::Pozo
    } else {
        Celda::Pared(1)
    }
}

/// The symbol at (x, y) of the raw input, with floor past a short row's end.
pub open spec fn simbolo_en(filas: Seq<Seq<char>>, y: int, x: int) -> char {
    if x < filas[y].len() {
        filas[y][x]
    } else {
        ' '
    }
}

/// The widest row of the raw input.
pub open spec fn ancho_maximo(filas: Seq<Seq<char>>) -> int
    decreases filas.len(),
{
    if filas.len() == 0 {
        0
    } else {
        let resto = ancho_maximo(filas.drop_last());
        if filas.last().len() > resto {
            filas.last().len() as int
        } else {
            resto
        }
    }
}

fn a_celda(ch: char) -> (c: Celda)
    ensures
        c == simbolo_a_celda(ch),
{
    if ch == ' ' || ch == '0' {
        Celda::Piso
    } else if ch == '1' {
        Celda::Pared(1)
    } else if ch == '2' {
        Celda::Pared(2)
    } else if ch == '3' {
        Celda::Pared(3)
    } else if ch == '4' {
        Celda::Pared(4)
    } else if ch == '5' {
        Celda::Pared(5)
    } else if ch == '6' {
        Celda::Pared(6)
    } else if ch == 'E' {
        Celda::Salida
    } else if ch == 'A' {
        Celda::Antorcha
    } else if ch == 'C' {
        Celda::Moneda
    } else if ch == 'P' {
        Celda::Pozo
    } else {
        Celda::Pared(1)
    }
}

/// Parse raw symbol rows into a rectangular map: every row is brought to
/// the width of the widest input row, padding with floor and truncating.
pub fn parse_mapa(lineas: &Vec<Vec<char>>) -> (m: Mapa)
    ensures
        m.deep_view().len() == lineas.deep_view().len(),
        forall|y: int|
            0 <= y < m.deep_view().len() ==> (#[trigger] m.deep_view()[y]).len()
                == ancho_maximo(lineas.deep_view()),
        forall|y: int, x: int|
            0 <= y < m.deep_view().len() && 0 <= x < ancho_maximo(lineas.deep_view())
                ==> #[trigger] m.deep_view()[y][x]
                == simbolo_a_celda(simbolo_en(lineas.deep_view(), y, x)),
        mapa_rectangular(m.deep_view()),
{
    let n = lineas.len();
    let mut w: usize = 0;
    for i in 0..n
        invariant
            n == lineas.deep_view().len(),
            w == ancho_maximo(lineas.deep_view().take(i as int)),
            w <= usize::MAX,
    {
        proof {
            assert(lineas.deep_view().take(i + 1).drop_last() =~= lineas.deep_view().take(
                i as int,
            ));
            assert(lineas.deep_view().take(i + 1).last() == lineas.deep_view()[i as int]);
        }
        if lineas[i].len() > w {
            w = lineas[i].len();
        }
    }
    proof {
        assert(lineas.deep_view().take(n as int) =~= lineas.deep_view());
    }
    let mut m: Mapa = Vec::new();
    for y in 0..n
        invariant
            n == lineas.deep_view().len(),
            w == ancho_maximo(lineas.deep_view()),
            m.deep_view().len() == y,
            forall|j: int| 0 <= j < y ==> (#[trigger] m.deep_view()[j]).len() == w,
            forall|j: int, x: int|
                0 <= j < y && 0 <= x < w ==> #[trigger] m.deep_view()[j][x]
                    == simbolo_a_celda(simbolo_en(lineas.deep_view(), j, x)),
    {
        let fila = &lineas[y];
        let mut nueva: Vec<Celda> = Vec::new();
        for x in 0..w
            invariant
                n == lineas.deep_view().len(),
                y < n,
                fila.deep_view() == lineas.deep_view()[y as int],
                nueva.deep_view().len() == x,
                forall|k: int|
                    0 <= k < x ==> #[trigger] nueva.deep_view()[k]
                        == simbolo_a_celda(simbolo_en(lineas.deep_view(), y as int, k)),
        {
            let ch = if x < fila.len() {
                fila[x]
            } else {
                ' '
            };
            let ghost antes = nueva.deep_view();
            nueva.push(a_celda(ch));
            proof {
                assert(nueva.deep_view() =~= antes.push(simbolo_a_celda(ch)));
            }
        }
        let ghost antes_m = m.deep_view();
        m.push(nueva);
        proof {
            assert(m.deep_view() =~= antes_m.push(nueva.deep_view()));
        }
    }
    m
}

/// Bounds-checked cell lookup; out-of-range coordinates yield absent,
/// never an error.
pub fn celda(m: &Mapa, x: i32, y: i32) -> (r: Option<Celda>)
    requires
        mapa_rectangular(m.deep_view()),
    ensures
        r == celda_en(m.deep_view(), x as int, y as int),
{
    if y >= 0 && (y as usize) < m.len() && x >= 0 && m.len() > 0 && (x as usize) < m[0].len() {
        Some(m[y as usize][x as usize])
    } else {
        None
    }
}

/// Whether a cell type can be walked on.
pub fn es_caminable(c: Celda) -> (b: bool)
    ensures
        b == caminable(c),
{
    match c {
        Celda::Pared(_) => false,
        _ => true,
    }
}

/// Whether the cell at (x, y) exists and is walkable.
pub fn es_walkable(m: &Mapa, x: i32, y: i32) -> (b: bool)
    requires
        mapa_rectangular(m.deep_view()),
    ensures
        b == caminable_en(m.deep_view(), x as int, y as int),
{
    match celda(m, x, y) {
        Some(c) => es_caminable(c),
        None => false,
    }
}

/// Chebyshev distance of an offset: the radius of the concentric square
/// ring that the offset lies on.
pub open spec fn radio_anillo(dx: int, dy: int) -> int {
    let ax = if dx < 0 {
        -dx
    } else {
        dx
    };
    let ay = if dy < 0 {
        -dy
    } else {
        dy
    };
    if ax > ay {
        ax
    } else {
        ay
    }
}

/// The search horizon of the spawn search: height plus width of the map.
pub open spec fn radio_maximo(m: Seq<Seq<Celda>>) -> int {
    m.len() + ancho(m)
}

/// Spawn-safety search. A walkable requested cell is returned unchanged;
/// otherwise concentric square rings of growing radius are scanned in
/// row-major order and the first walkable cell wins, so the result lies on
/// the smallest ring that holds any walkable cell. If nothing walkable is
/// found within the horizon, the fixed fallback (1, 1) is returned, which
/// the caller must still validate.
#[verifier::loop_isolation(false)]
pub fn spawn_mas_cercano(m: &Mapa, sx: i32, sy: i32) -> (r: (i32, i32))
    requires
        mapa_valido(m.deep_view()),
        -1000000 <= sx <= 1000000,
        -1000000 <= sy <= 1000000,
    ensures
        caminable_en(m.deep_view(), sx as int, sy as int) ==> r == (sx, sy),
        !caminable_en(m.deep_view(), sx as int, sy as int) && (exists|x: int, y: int|
            #[trigger] caminable_en(m.deep_view(), x, y) && radio_anillo(x - sx, y - sy)
                <= radio_maximo(m.deep_view())) ==> {
            &&& caminable_en(m.deep_view(), r.0 as int, r.1 as int)
            &&& forall|x: int, y: int|
                #[trigger] caminable_en(m.deep_view(), x, y) ==> radio_anillo(x - sx, y - sy)
                    >= radio_anillo(r.0 - sx, r.1 - sy)
            &&& forall|x: int, y: int|
                #[trigger] caminable_en(m.deep_view(), x, y) && radio_anillo(x - sx, y - sy)
                    == radio_anillo(r.0 - sx, r.1 - sy) ==> (y - sy > r.1 - sy || (y - sy == r.1
                    - sy && x - sx >= r.0 - sx))
        },
        !(exists|x: int, y: int|
            #[trigger] caminable_en(m.deep_view(), x, y) && radio_anillo(x - sx, y - sy)
                <= radio_maximo(m.deep_view())) ==> r == (1i32, 1i32),
{
    if es_walkable(m, sx, sy) {
        return (sx, sy);
    }
    let alto = m.len();
    let w = if alto > 0 {
        m[0].len()
    } else {
        0
    };
    let max_r: i32 = (alto + w) as i32;
    let mut r: i32 = 1;
    while r <= max_r
        invariant
            1 <= r <= max_r + 1,
            forall|x: int, y: int|
                #[trigger] caminable_en(m.deep_view(), x, y) ==> radio_anillo(x - sx, y - sy)
                    >= r,
        decreases max_r + 1 - r,
    {
        let mut dy: i32 = -r;
        while dy <= r
            invariant
                -r <= dy <= r + 1,
                forall|x: int, y: int|
                    #[trigger] caminable_en(m.deep_view(), x, y) && radio_anillo(x - sx, y - sy)
                        <= r ==> y - sy >= dy,
            decreases r + 1 - dy,
        {
            let mut dx: i32 = -r;
            while dx <= r
                invariant
                    -r <= dx <= r + 1,
                    forall|x: int, y: int|
                        #[trigger] caminable_en(m.deep_view(), x, y) && radio_anillo(
                            x - sx,
                            y - sy,
                        ) <= r ==> y - sy > dy || (y - sy == dy && x - sx >= dx),
                decreases r + 1 - dx,
            {
                let nx = sx + dx;
                let ny = sy + dy;
                if es_walkable(m, nx, ny) {
                    return (nx, ny);
                }
                dx += 1;
            }
            dy += 1;
        }
        r += 1;
    }
    (1, 1)
}

} // verus!
