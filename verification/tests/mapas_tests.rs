use raycaster::mapas::{celda, es_caminable, es_walkable, parse_mapa, spawn_mas_cercano, Celda, Mapa};

fn mapa_de(filas: &[&str]) -> Mapa {
    let lineas: Vec<Vec<char>> = filas.iter().map(|f| f.chars().collect()).collect();
    parse_mapa(&lineas)
}

#[test]
fn parse_rellena_filas_cortas_con_piso() {
    let m = mapa_de(&["12", " ", "123456X"]);
    assert_eq!(m.len(), 3);
    for fila in &m {
        assert_eq!(fila.len(), 7);
    }
    // Short rows are padded with floor up to the widest row.
    assert_eq!(celda(&m, 2, 0), Some(Celda::Piso));
    assert_eq!(celda(&m, 6, 0), Some(Celda::Piso));
    assert_eq!(celda(&m, 0, 1), Some(Celda::Piso));
    assert_eq!(celda(&m, 6, 1), Some(Celda::Piso));
}

#[test]
fn parse_simbolos() {
    let m = mapa_de(&["123456", " E", "ACP", "z0"]);
    assert_eq!(celda(&m, 0, 0), Some(Celda::Pared(1)));
    assert_eq!(celda(&m, 1, 0), Some(Celda::Pared(2)));
    assert_eq!(celda(&m, 5, 0), Some(Celda::Pared(6)));
    assert_eq!(celda(&m, 0, 1), Some(Celda::Piso));
    assert_eq!(celda(&m, 1, 1), Some(Celda::Salida));
    assert_eq!(celda(&m, 0, 2), Some(Celda::Antorcha));
    assert_eq!(celda(&m, 1, 2), Some(Celda::Moneda));
    assert_eq!(celda(&m, 2, 2), Some(Celda::Pozo));
    // Unrecognized symbols become a generic wall; '0' is floor.
    assert_eq!(celda(&m, 0, 3), Some(Celda::Pared(1)));
    assert_eq!(celda(&m, 1, 3), Some(Celda::Piso));
}

#[test]
fn celda_fuera_de_rango_es_ausente() {
    let m = mapa_de(&["111", "1 1", "111"]);
    assert_eq!(celda(&m, -1, 0), None);
    assert_eq!(celda(&m, 0, -1), None);
    assert_eq!(celda(&m, 3, 0), None);
    assert_eq!(celda(&m, 0, 3), None);
    assert_eq!(celda(&m, 100, 100), None);
    assert_eq!(celda(&m, 1, 1), Some(Celda::Piso));
}

#[test]
fn caminable_por_tipo() {
    assert!(es_caminable(Celda::Piso));
    assert!(es_caminable(Celda::Salida));
    assert!(es_caminable(Celda::Antorcha));
    assert!(es_caminable(Celda::Moneda));
    assert!(es_caminable(Celda::Pozo));
    for k in 1u8..=6u8 {
        assert!(!es_caminable(Celda::Pared(k)));
    }
}

#[test]
fn spawn_celda_caminable_se_devuelve_sin_cambio() {
    let m = mapa_de(&["111", "1 1", "111"]);
    assert_eq!(spawn_mas_cercano(&m, 1, 1), (1, 1));
}

#[test]
fn spawn_busca_anillo_mas_cercano() {
    let m = mapa_de(&["111", "1 1", "111"]);
    // The corner is a wall; the single floor cell sits one ring away.
    assert_eq!(spawn_mas_cercano(&m, 0, 0), (1, 1));
}

#[test]
fn spawn_desempata_por_orden_de_fila() {
    let m = mapa_de(&["11111", "1 1 1", "11111"]);
    // From the middle wall both floor cells are one ring away; the
    // row-major scan meets (1, 1) first.
    assert_eq!(spawn_mas_cercano(&m, 2, 1), (1, 1));
}

#[test]
fn spawn_sin_celda_caminable_cae_al_repuesto() {
    let m = mapa_de(&["11", "11"]);
    assert_eq!(spawn_mas_cercano(&m, 0, 0), (1, 1));
}

#[test]
fn jugador_sobre_pozo_se_detecta_por_celda() {
    // The loss condition of the outer state machine: the cell under the
    // truncated player position is the pit marker.
    let m = mapa_de(&["111", "1P1", "111"]);
    let jx: i64 = 98304; // 1.5 cells
    let jy: i64 = 98304;
    let cx: i32 = (jx / 65536) as i32;
    let cy: i32 = (jy / 65536) as i32;
    assert_eq!(celda(&m, cx, cy), Some(Celda::Pozo));
    assert!(es_walkable(&m, cx, cy));
}
