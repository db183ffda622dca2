use raycaster::escena::{dibujar_escena, lanzar_rayo, Z_INF};
use raycaster::fijo::{coseno, seno};
use raycaster::mapas::{parse_mapa, Celda, Mapa};
use raycaster::motor::{Color, Framebuffer, Jugador, Texturas};

fn mapa_de(filas: &[&str]) -> Mapa {
    let lineas: Vec<Vec<char>> = filas.iter().map(|f| f.chars().collect()).collect();
    parse_mapa(&lineas)
}

#[test]
fn rayos_cardinales_en_celda_cerrada_dan_media_celda() {
    // A fully enclosed 3 x 3 map with the player centered on the single
    // floor cell: the four cardinal rays each hit the adjacent wall at
    // exactly half a cell (32768 in fixed point).
    let m = mapa_de(&["111", "1 1", "111"]);
    let jx: i64 = 98304;
    let jy: i64 = 98304;
    let mut distancias: Vec<i64> = Vec::new();
    for a in [0i64, 16384, 32768, 49152] {
        let imp = lanzar_rayo(&m, jx, jy, coseno(a), seno(a)).expect("ray must hit");
        assert_eq!(imp.perp, 32768);
        distancias.push(imp.perp);
    }
    assert_eq!(distancias.len(), 4);
}

#[test]
fn rayo_recto_reporta_distancia_entera_exacta() {
    // Fired straight at a wall whose near face is 2.5 cells away.
    let m = mapa_de(&["11111", "1   1", "11111"]);
    let imp = lanzar_rayo(&m, 98304, 98304, 65536, 0).expect("ray must hit");
    assert_eq!(imp.perp, 163840);
    assert_eq!(imp.celda_x, 4);
    assert_eq!(imp.celda_y, 1);
    assert_eq!(imp.lado, 0);
    assert!(matches!(imp.pared, Celda::Pared(1)));
}

#[test]
fn distancia_perpendicular_nunca_baja_del_minimo() {
    // The player stands a hair from the wall face: the reported depth is
    // clamped to the positive minimum rather than reaching zero.
    let m = mapa_de(&["111", "1 1", "111"]);
    let imp = lanzar_rayo(&m, 131071, 98304, 65536, 0).expect("ray must hit");
    assert_eq!(imp.perp, 64);
}

#[test]
fn zbuffer_se_reescribe_entero_cada_cuadro() {
    let m = mapa_de(&["11111", "1   1", "1   1", "11111"]);
    let mut fb = Framebuffer::new(64, 40);
    let tex = Texturas::nuevo();
    let j1 = Jugador { x: 98304, y: 98304, ang: 0, vel: 1638, rot: 100 };
    let j2 = Jugador { x: 196608 + 32768, y: 131072, ang: 20000, vel: 1638, rot: 100 };
    let mut z: Vec<i64> = vec![123456789; 64];
    dibujar_escena(&mut fb, &j1, &m, &tex, &mut z);
    // Every column was freshly written: the sentinel is gone.
    for x in 0usize..64usize {
        assert_ne!(z[x], 123456789);
        assert!(z[x] >= 64);
    }
    let primera: Vec<i64> = z.clone();
    dibujar_escena(&mut fb, &j2, &m, &tex, &mut z);
    let segunda: Vec<i64> = z.clone();
    // No column keeps a stale value: rendering the first player again
    // reproduces the first buffer exactly, whatever was there before.
    dibujar_escena(&mut fb, &j1, &m, &tex, &mut z);
    assert_eq!(z, primera);
    assert_ne!(primera, segunda);
}

#[test]
fn rayo_que_sale_del_mapa_deja_profundidad_infinita() {
    // A single-row map is open to the north and south: a ray fired along
    // +y leaves the grid without a hit, and the wall pass leaves that
    // column's depth at infinity with only sky and floor painted.
    let m = mapa_de(&["1 1"]);
    assert!(lanzar_rayo(&m, 98304, 32768, 0, 65536).is_none());
    let mut fb = Framebuffer::new(16, 12);
    let tex = Texturas::nuevo();
    let j = Jugador { x: 98304, y: 32768, ang: 16384, vel: 1638, rot: 100 };
    let mut z: Vec<i64> = vec![0; 16];
    dibujar_escena(&mut fb, &j, &m, &tex, &mut z);
    // The center column looks straight along +y, out of the map.
    assert_eq!(z[8], Z_INF);
    let cielo = Color { r: 102, g: 191, b: 255, a: 255 };
    let suelo = Color { r: 127, g: 106, b: 79, a: 255 };
    assert_eq!(fb.pixel_en(8, 0), cielo);
    assert_eq!(fb.pixel_en(8, 11), suelo);
}

#[test]
fn mapa_cerrado_no_deja_profundidad_infinita() {
    let m = mapa_de(&["1111", "1  1", "1111"]);
    let mut fb = Framebuffer::new(32, 24);
    let tex = Texturas::nuevo();
    let j = Jugador { x: 98304, y: 98304, ang: 7000, vel: 1638, rot: 100 };
    let mut z: Vec<i64> = vec![0; 32];
    dibujar_escena(&mut fb, &j, &m, &tex, &mut z);
    for x in 0usize..32usize {
        assert!(z[x] < Z_INF);
    }
}

#[test]
fn columna_central_pinta_cielo_pared_y_suelo() {
    let m = mapa_de(&["11111", "1   1", "11111"]);
    let mut fb = Framebuffer::new(64, 40);
    let tex = Texturas::nuevo();
    let j = Jugador { x: 98304, y: 98304, ang: 0, vel: 1638, rot: 100 };
    let mut z: Vec<i64> = vec![0; 64];
    dibujar_escena(&mut fb, &j, &m, &tex, &mut z);
    // The center column looks straight ahead: depth 2.5 cells.
    assert_eq!(z[32], 163840);
    // Wall height 40 / 2.5 = 16 pixels centered on the horizon; above it
    // sky, below it floor.
    let cielo = Color { r: 102, g: 191, b: 255, a: 255 };
    let suelo = Color { r: 127, g: 106, b: 79, a: 255 };
    assert_eq!(fb.pixel_en(32, 0), cielo);
    assert_eq!(fb.pixel_en(32, 39), suelo);
    // The row at the horizon belongs to the textured wall strip.
    let pared = fb.pixel_en(32, 20);
    assert_ne!(pared, cielo);
    assert_ne!(pared, suelo);
}
