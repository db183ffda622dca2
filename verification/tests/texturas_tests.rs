use raycaster::mapas::{celda, parse_mapa};
use raycaster::motor::{Color, Texturas};
use raycaster::sprites::Sprites;

#[test]
fn cada_patron_de_pared_tiene_su_color_exacto() {
    let t = Texturas::nuevo();
    // One exact texel per procedural formula; coordinates are texel
    // indices scaled by 1024 (64 texels per unit of 65536).
    assert_eq!(t.sample(0, 0, 0), Color { r: 255, g: 161, b: 0, a: 255 });
    assert_eq!(t.sample(1, 0, 0), Color { r: 0, g: 82, b: 172, a: 255 });
    assert_eq!(t.sample(1, 8 * 1024, 0), Color { r: 0, g: 121, b: 241, a: 255 });
    assert_eq!(t.sample(2, 0, 0), Color { r: 190, g: 33, b: 55, a: 255 });
    assert_eq!(t.sample(2, 4 * 1024, 0), Color { r: 230, g: 41, b: 55, a: 255 });
    assert_eq!(t.sample(3, 0, 4 * 1024), Color { r: 0, g: 228, b: 48, a: 255 });
    assert_eq!(t.sample(4, 0, 0), Color { r: 127, g: 106, b: 79, a: 255 });
    assert_eq!(t.sample(4, 0, 16 * 1024), Color { r: 211, g: 176, b: 131, a: 255 });
    assert_eq!(t.sample(5, 2 * 1024, 2 * 1024), Color { r: 200, g: 122, b: 255, a: 255 });
    assert_eq!(t.sample(5, 2 * 1024, 3 * 1024), Color { r: 135, g: 60, b: 190, a: 255 });
    assert_eq!(t.sample(6, 0, 0), Color { r: 130, g: 130, b: 130, a: 255 });
}

#[test]
fn cada_patron_de_sprite_tiene_su_color_exacto() {
    let spr = Sprites::nuevo();
    // Torch frame 0 at (0, 0): the flame formula lands in the gold band.
    assert_eq!(spr.anim_torch[0][0], Color { r: 255, g: 203, b: 0, a: 255 });
    // Coin frame 0 near the center: inside the disc, on the shine stripe.
    assert_eq!(spr.anim_coin[0][15 * 32 + 15], Color { r: 253, g: 249, b: 0, a: 255 });
    // Coin rim texel just past the disc radius.
    assert_eq!(spr.anim_coin[0][14 * 32 + 30], Color { r: 255, g: 161, b: 0, a: 255 });
    // Pit disc center is opaque black; the far corner is transparent.
    assert_eq!(spr.img_pit[15 * 32 + 15], Color { r: 0, g: 0, b: 0, a: 255 });
    assert_eq!(spr.img_pit[0].a, 0);
}

#[test]
fn mapa_vacio_no_tiene_celdas() {
    let vacio: Vec<Vec<char>> = Vec::new();
    let m = parse_mapa(&vacio);
    assert_eq!(m.len(), 0);
    assert_eq!(celda(&m, 0, 0), None);
}
