use raycaster::fijo::{coseno, div_t, fraccion_fp, mul_fp, piso_fp, rotar, seno};
use raycaster::mapas::parse_mapa;
use raycaster::motor::{mover_con_colision, Color, Framebuffer, Jugador, Texturas};

fn mapa_de(filas: &[&str]) -> Vec<Vec<raycaster::mapas::Celda>> {
    let lineas: Vec<Vec<char>> = filas.iter().map(|f| f.chars().collect()).collect();
    parse_mapa(&lineas)
}

#[test]
fn seno_en_los_puntos_cardinales() {
    assert_eq!(seno(0), 0);
    assert_eq!(seno(16384), 65536);
    assert_eq!(seno(32768), 0);
    assert_eq!(seno(49152), -65536);
    assert_eq!(coseno(0), 65536);
    assert_eq!(coseno(16384), 0);
    assert_eq!(coseno(32768), -65536);
    assert_eq!(coseno(49152), 0);
}

#[test]
fn seno_intermedio_y_rotacion() {
    assert_eq!(seno(8192), 46260);
    let a: i64 = rotar(60000, 10000);
    assert_eq!(a, 4464);
    let b: i64 = rotar(4464, -10000);
    assert_eq!(b, 60000);
}

#[test]
fn aritmetica_de_punto_fijo() {
    assert_eq!(piso_fp(98304), 1);
    assert_eq!(piso_fp(-1), -1);
    assert_eq!(piso_fp(-65536), -1);
    assert_eq!(piso_fp(-65537), -2);
    assert_eq!(fraccion_fp(98304), 32768);
    assert_eq!(fraccion_fp(-1), 65535);
    assert_eq!(mul_fp(131072, 32768), 65536);
    assert_eq!(mul_fp(-131072, 32768), -65536);
    assert_eq!(div_t(-7, 2), -3);
}

#[test]
fn framebuffer_set_y_lectura() {
    let mut fb = Framebuffer::new(8, 6);
    assert_eq!(fb.w, 8);
    assert_eq!(fb.h, 6);
    let negro = Color { r: 0, g: 0, b: 0, a: 255 };
    assert_eq!(fb.pixel_en(3, 3), negro);
    let rojo = Color { r: 230, g: 41, b: 55, a: 255 };
    fb.set(3, 3, rojo);
    assert_eq!(fb.pixel_en(3, 3), rojo);
    assert_eq!(fb.pixel_en(3, 2), negro);
    // Out-of-range writes are ignored, not an error.
    fb.set(-1, 0, rojo);
    fb.set(0, 100, rojo);
    assert_eq!(fb.pixel_en(0, 0), negro);
}

#[test]
fn framebuffer_linea_vertical_y_limpiar() {
    let mut fb = Framebuffer::new(4, 8);
    let c = Color { r: 1, g: 2, b: 3, a: 255 };
    fb.line_v(2, 5, 1, c);
    for y in 1u32..=5u32 {
        assert_eq!(fb.pixel_en(2, y), c);
    }
    assert_eq!(fb.pixel_en(2, 0), Color { r: 0, g: 0, b: 0, a: 255 });
    let azul = Color { r: 0, g: 121, b: 241, a: 255 };
    fb.limpiar(azul);
    for y in 0u32..8u32 {
        for x in 0u32..4u32 {
            assert_eq!(fb.pixel_en(x, y), azul);
        }
    }
}

#[test]
fn texturas_deterministas_y_envueltas() {
    let t = Texturas::nuevo();
    // Texture 1 is a blue checkerboard: the first block is dark blue.
    assert_eq!(t.sample(1, 0, 0), Color { r: 0, g: 82, b: 172, a: 255 });
    // Sampling wraps by the fractional part, in both directions.
    assert_eq!(t.sample(1, 123, 456), t.sample(1, 65536 + 123, -131072 + 456));
    // Ids past the last slot clamp to it.
    assert_eq!(t.sample(99, 40, 40), t.sample(6, 40, 40));
    // Distinct wall ids give distinct looks at the block corner.
    assert_ne!(t.sample(1, 0, 0), t.sample(2, 0, 0));
    assert_ne!(t.sample(2, 0, 0), t.sample(3, 0, 0));
}

#[test]
fn mover_contra_pared_no_cambia_la_coordenada() {
    let m = mapa_de(&["111", "1 1", "111"]);
    let mut j = Jugador { x: 124518, y: 98304, ang: 0, vel: 16384, rot: 100 };
    // Heading 0 looks along +x; a full forward step would enter the wall.
    mover_con_colision(&mut j, 0, 65536, &m);
    assert_eq!(j.x, 124518);
    assert_eq!(j.y, 98304);
}

#[test]
fn mover_hacia_celda_caminable_avanza() {
    let m = mapa_de(&["1111", "1  1", "1111"]);
    let mut j = Jugador { x: 98304, y: 98304, ang: 0, vel: 16384, rot: 100 };
    mover_con_colision(&mut j, 0, 65536, &m);
    assert_eq!(j.x, 98304 + 16384);
    assert_eq!(j.y, 98304);
}

#[test]
fn mover_se_desliza_por_la_pared() {
    // Axis separation: the x component is blocked by the east wall, the
    // y component still advances (wall-sliding).
    let m = mapa_de(&["111", "1 1", "1 1", "111"]);
    let mut j = Jugador { x: 124518, y: 98304, ang: 8192, vel: 16384, rot: 100 };
    let antes_x: i64 = j.x;
    mover_con_colision(&mut j, 0, 65536, &m);
    assert_eq!(j.x, antes_x);
    assert!(j.y > 98304);
}

#[test]
fn mover_permite_pisar_moneda_y_pozo() {
    let m = mapa_de(&["1111", "1CP1", "1111"]);
    let mut j = Jugador { x: 98304, y: 98304, ang: 0, vel: 16384, rot: 100 };
    mover_con_colision(&mut j, 0, 65536, &m);
    assert_eq!(j.x, 98304 + 16384);
}

#[test]
fn mover_con_entrada_nula_no_se_mueve() {
    let m = mapa_de(&["111", "1 1", "111"]);
    let mut j = Jugador { x: 98304, y: 98304, ang: 12345, vel: 16384, rot: 100 };
    mover_con_colision(&mut j, 0, 0, &m);
    assert_eq!(j.x, 98304);
    assert_eq!(j.y, 98304);
}
