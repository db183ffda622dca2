use raycaster::mapas::parse_mapa;
use raycaster::motor::{Color, Framebuffer, Jugador};
use raycaster::sprites::{dibujar_sprites, dibujar_un_sprite, transformar_camara, Sprites, SpriteKind};

fn mapa_de(filas: &[&str]) -> Vec<Vec<raycaster::mapas::Celda>> {
    let lineas: Vec<Vec<char>> = filas.iter().map(|f| f.chars().collect()).collect();
    parse_mapa(&lineas)
}

#[test]
fn rellenar_cuenta_las_monedas_del_nivel() {
    let m = mapa_de(&["11111", "1CAC1", "1 P 1", "11111"]);
    let mut spr = Sprites::nuevo();
    let monedas = spr.rellenar_desde_mapa(&m);
    assert_eq!(monedas, 2);
    assert_eq!(spr.lista.len(), 4);
    // Sprites are centered in their cells, in row-major order.
    assert_eq!(spr.lista[0].x, 98304);
    assert_eq!(spr.lista[0].y, 98304);
    assert!(matches!(spr.lista[0].kind, SpriteKind::Coin));
    assert!(matches!(spr.lista[1].kind, SpriteKind::Torch));
    assert!(matches!(spr.lista[3].kind, SpriteKind::Pit));
}

#[test]
fn recoleccion_en_la_celda_del_jugador() {
    // One coin at cell (2, 2); the player walks to (2.4, 2.4) and
    // collects it: one coin collected, none left of the level total.
    let m = mapa_de(&["11111", "1   1", "1 C 1", "11111"]);
    let mut spr = Sprites::nuevo();
    let total = spr.rellenar_desde_mapa(&m);
    assert_eq!(total, 1);
    let px: i64 = 157286; // 2.4 cells
    let py: i64 = 157286;
    let recogidas = spr.recolectar_monedas_en(px, py);
    assert_eq!(recogidas, 1);
    assert_eq!(total - recogidas, 0);
    assert_eq!(spr.lista.len(), 0);
}

#[test]
fn recoleccion_es_idempotente_por_moneda() {
    let m = mapa_de(&["111", "1C1", "111"]);
    let mut spr = Sprites::nuevo();
    let total = spr.rellenar_desde_mapa(&m);
    assert_eq!(total, 1);
    let px: i64 = 98304;
    let py: i64 = 98304;
    assert_eq!(spr.recolectar_monedas_en(px, py), 1);
    // The first collection removed the coin; a second pass from the same
    // position finds nothing.
    assert_eq!(spr.recolectar_monedas_en(px, py), 0);
}

#[test]
fn recoleccion_no_toca_antorchas_ni_pozos() {
    let m = mapa_de(&["111", "1A1", "111"]);
    let mut spr = Sprites::nuevo();
    spr.rellenar_desde_mapa(&m);
    assert_eq!(spr.recolectar_monedas_en(98304, 98304), 0);
    assert_eq!(spr.lista.len(), 1);
}

#[test]
fn recoleccion_en_otra_celda_no_recoge() {
    let m = mapa_de(&["1111", "1C 1", "1111"]);
    let mut spr = Sprites::nuevo();
    spr.rellenar_desde_mapa(&m);
    assert_eq!(spr.recolectar_monedas_en(163840, 98304), 0);
    assert_eq!(spr.lista.len(), 1);
}

#[test]
fn animacion_avanza_en_intervalos_fijos() {
    let mut spr = Sprites::nuevo();
    assert_eq!(spr.f_torch, 0);
    assert_eq!(spr.f_coin, 0);
    for _ in 0..10 {
        spr.actualizar();
    }
    assert_eq!(spr.t, 10);
    assert_eq!(spr.f_torch, 0);
    assert_eq!(spr.f_coin, 1);
    for _ in 0..2 {
        spr.actualizar();
    }
    assert_eq!(spr.f_torch, 1);
    assert_eq!(spr.f_coin, 1);
}

#[test]
fn transformacion_de_camara_da_profundidad_frontal() {
    // Heading 0 looks along +x: a sprite one cell ahead has camera depth
    // of one cell and no lateral offset.
    let j = Jugador { x: 98304, y: 98304, ang: 0, vel: 1638, rot: 100 };
    let (tx, ty) = transformar_camara(&j, 98304 + 65536, 98304);
    assert_eq!(ty, 65536);
    assert_eq!(tx, 0);
    // A sprite behind the camera has negative depth.
    let (_, ty2) = transformar_camara(&j, 98304 - 65536, 98304);
    assert_eq!(ty2, -65536);
}

#[test]
fn sprite_totalmente_ocluido_no_se_dibuja() {
    // Every column's wall is nearer than the sprite: the pass must leave
    // the surface untouched.
    let mut fb = Framebuffer::new(32, 24);
    let relleno = Color { r: 9, g: 8, b: 7, a: 255 };
    fb.limpiar(relleno);
    let spr = Sprites::nuevo();
    let z: Vec<i64> = vec![100; 32];
    dibujar_un_sprite(&mut fb, &z, &spr.img_pit, 0, 131072);
    for y in 0u32..24u32 {
        for x in 0u32..32u32 {
            assert_eq!(fb.pixel_en(x, y), relleno);
        }
    }
}

#[test]
fn sprite_delante_de_la_pared_si_se_dibuja() {
    let mut fb = Framebuffer::new(32, 24);
    let relleno = Color { r: 9, g: 8, b: 7, a: 255 };
    fb.limpiar(relleno);
    let spr = Sprites::nuevo();
    let z: Vec<i64> = vec![i64::MAX; 32];
    dibujar_un_sprite(&mut fb, &z, &spr.img_pit, 0, 131072);
    // The pit disc is opaque black at the center of the screen.
    assert_eq!(fb.pixel_en(16, 12), Color { r: 0, g: 0, b: 0, a: 255 });
    // Far corners stay untouched: the billboard is clipped to its square.
    assert_eq!(fb.pixel_en(0, 0), relleno);
}

#[test]
fn pase_de_sprites_respeta_la_oclusion_total() {
    let m = mapa_de(&["11111", "1   1", "1 A 1", "11111"]);
    let mut fb = Framebuffer::new(32, 24);
    let relleno = Color { r: 30, g: 30, b: 30, a: 255 };
    fb.limpiar(relleno);
    let mut spr = Sprites::nuevo();
    spr.rellenar_desde_mapa(&m);
    let j = Jugador { x: 98304, y: 98304, ang: 16384, vel: 1638, rot: 100 };
    // Walls everywhere nearer than any sprite: nothing may change.
    let z: Vec<i64> = vec![1; 32];
    dibujar_sprites(&mut fb, &j, &m, &spr, &z);
    for y in 0u32..24u32 {
        for x in 0u32..32u32 {
            assert_eq!(fb.pixel_en(x, y), relleno);
        }
    }
    // With free depth the torch ahead does paint something.
    let z2: Vec<i64> = vec![i64::MAX; 32];
    dibujar_sprites(&mut fb, &j, &m, &spr, &z2);
    let mut cambiados: usize = 0;
    for y in 0u32..24u32 {
        for x in 0u32..32u32 {
            if fb.pixel_en(x, y) != relleno {
                cambiados += 1;
            }
        }
    }
    assert!(cambiados > 0);
}

#[test]
fn pintor_dibuja_lo_cercano_encima_de_lo_lejano() {
    // A pit one cell ahead and a torch two cells ahead, both dead
    // center: far first, near last, so the screen center ends with the
    // pit's opaque black, not the torch's flame.
    let m = mapa_de(&["111", "1 1", "1P1", "1A1", "111"]);
    let mut fb = Framebuffer::new(32, 24);
    let relleno = Color { r: 40, g: 40, b: 40, a: 255 };
    fb.limpiar(relleno);
    let mut spr = Sprites::nuevo();
    spr.rellenar_desde_mapa(&m);
    assert_eq!(spr.lista.len(), 2);
    let j = Jugador { x: 98304, y: 98304, ang: 16384, vel: 1638, rot: 100 };
    let z: Vec<i64> = vec![i64::MAX; 32];
    dibujar_sprites(&mut fb, &j, &m, &spr, &z);
    assert_eq!(fb.pixel_en(16, 12), Color { r: 0, g: 0, b: 0, a: 255 });
}
