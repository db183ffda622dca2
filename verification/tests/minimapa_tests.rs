use raycaster::mapas::parse_mapa;
use raycaster::minimapa::{dibujar_minimapa, linea_bresenham};
use raycaster::motor::{Color, Framebuffer, Jugador};

fn mapa_de(filas: &[&str]) -> Vec<Vec<raycaster::mapas::Celda>> {
    let lineas: Vec<Vec<char>> = filas.iter().map(|f| f.chars().collect()).collect();
    parse_mapa(&lineas)
}

#[test]
fn linea_pinta_solo_su_color_dentro_de_la_caja() {
    let mut fb = Framebuffer::new(16, 16);
    let negro = Color { r: 0, g: 0, b: 0, a: 255 };
    let c = Color { r: 253, g: 249, b: 0, a: 255 };
    linea_bresenham(&mut fb, 2, 2, 6, 6, c);
    // The diagonal itself carries the color.
    assert_eq!(fb.pixel_en(2, 2), c);
    assert_eq!(fb.pixel_en(4, 4), c);
    assert_eq!(fb.pixel_en(6, 6), c);
    // Pixels outside the endpoints' bounding box are untouched.
    assert_eq!(fb.pixel_en(7, 7), negro);
    assert_eq!(fb.pixel_en(1, 1), negro);
    assert_eq!(fb.pixel_en(10, 3), negro);
}

#[test]
fn minimapa_queda_en_su_esquina() {
    let m = mapa_de(&["111", "1 1", "111"]);
    let mut fb = Framebuffer::new(200, 150);
    let fondo = Color { r: 5, g: 6, b: 7, a: 255 };
    fb.limpiar(fondo);
    let j = Jugador { x: 98304, y: 98304, ang: 0, vel: 1638, rot: 100 };
    dibujar_minimapa(&mut fb, &j, &m);
    // The wall block of the top-left cell.
    assert_eq!(fb.pixel_en(6, 6), Color { r: 80, g: 80, b: 80, a: 255 });
    // The center cell holds the red player marker, overdrawn at its
    // middle by the yellow heading line.
    assert_eq!(fb.pixel_en(11, 12), Color { r: 230, g: 41, b: 55, a: 255 });
    assert_eq!(fb.pixel_en(12, 12), Color { r: 253, g: 249, b: 0, a: 255 });
    // Everything beyond the minimap's corner box keeps the backdrop.
    for x in [30u32, 100u32, 199u32] {
        for y in [30u32, 100u32, 149u32] {
            assert_eq!(fb.pixel_en(x, y), fondo);
        }
    }
}
