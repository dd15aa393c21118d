//! Pruebas del códec de marcas temporales.

use subtitulos::codec::{
    indicador_temporal_a_milisegundos, marca_temporal_desde_indicador_temporal,
    milisegundos_a_marca_temporal, parsear_linea_temporal,
};
use subtitulos::tipos::{ErrorSubtitulo, IndicadorTemporal};

#[test]
fn decodifica_marca_simple() {
    assert_eq!(indicador_temporal_a_milisegundos("00:00:02,049"), Ok(2049));
}

#[test]
fn decodifica_cada_componente() {
    assert_eq!(indicador_temporal_a_milisegundos("01:00:00,000"), Ok(3_600_000));
    assert_eq!(indicador_temporal_a_milisegundos("00:01:00,000"), Ok(60_000));
    assert_eq!(indicador_temporal_a_milisegundos("00:00:01,000"), Ok(1_000));
    assert_eq!(indicador_temporal_a_milisegundos("00:00:00,001"), Ok(1));
    assert_eq!(indicador_temporal_a_milisegundos("01:02:03,004"), Ok(3_723_004));
}

#[test]
fn decodifica_sin_cota_superior() {
    // Permisividad intencionada: ningún componente tiene cota superior.
    assert_eq!(
        indicador_temporal_a_milisegundos("99:99:99,999"),
        Ok(99 * 3_600_000 + 99 * 60_000 + 99 * 1_000 + 999)
    );
}

#[test]
fn signo_mas_se_admite_como_en_parse() {
    // `str::parse::<u64>` admite un `+` inicial en cada componente.
    assert_eq!(indicador_temporal_a_milisegundos("+0:00:02,049"), Ok(2049));
    assert_eq!(indicador_temporal_a_milisegundos("00:00:02,+49"), Ok(2049));
    assert_eq!(
        indicador_temporal_a_milisegundos("+:00:02,049"),
        Err(ErrorSubtitulo::MalformedTimestamp)
    );
}

#[test]
fn componente_que_desborda_u64_es_error() {
    // Un componente que `u64` no puede representar no es un número.
    assert_eq!(
        indicador_temporal_a_milisegundos("99999999999999999999:00:00,000"),
        Err(ErrorSubtitulo::MalformedTimestamp)
    );
    // Componentes representables cuyo total desborda `u64` tampoco se
    // aceptan: la decodificación nunca trunca.
    assert_eq!(
        indicador_temporal_a_milisegundos("18446744073709551615:00:00,001"),
        Err(ErrorSubtitulo::MalformedTimestamp)
    );
}

#[test]
fn marca_sin_coma_es_error() {
    assert_eq!(
        indicador_temporal_a_milisegundos("00:00:02049"),
        Err(ErrorSubtitulo::MalformedTimestamp)
    );
}

#[test]
fn marca_con_dos_comas_es_error() {
    assert_eq!(
        indicador_temporal_a_milisegundos("00:00:02,04,9"),
        Err(ErrorSubtitulo::MalformedTimestamp)
    );
}

#[test]
fn reloj_sin_dos_puntos_es_error() {
    assert_eq!(
        indicador_temporal_a_milisegundos("00:0002,049"),
        Err(ErrorSubtitulo::MalformedTimestamp)
    );
    assert_eq!(
        indicador_temporal_a_milisegundos("00:00:00:02,049"),
        Err(ErrorSubtitulo::MalformedTimestamp)
    );
}

#[test]
fn componente_no_numerico_es_error() {
    assert_eq!(
        indicador_temporal_a_milisegundos("aa:00:02,049"),
        Err(ErrorSubtitulo::MalformedTimestamp)
    );
    assert_eq!(
        indicador_temporal_a_milisegundos("00:00:02,x49"),
        Err(ErrorSubtitulo::MalformedTimestamp)
    );
    assert_eq!(
        indicador_temporal_a_milisegundos("00:-1:02,049"),
        Err(ErrorSubtitulo::MalformedTimestamp)
    );
    assert_eq!(indicador_temporal_a_milisegundos(""), Err(ErrorSubtitulo::MalformedTimestamp));
}

#[test]
fn codifica_marca_simple() {
    assert_eq!(milisegundos_a_marca_temporal(2049), "00:00:02,049");
    assert_eq!(milisegundos_a_marca_temporal(0), "00:00:00,000");
    assert_eq!(milisegundos_a_marca_temporal(3_723_004), "01:02:03,004");
}

#[test]
fn codifica_horas_anchas() {
    // El relleno es un mínimo, no un recorte: las horas pueden ensancharse.
    assert_eq!(milisegundos_a_marca_temporal(100 * 3_600_000), "100:00:00,000");
}

#[test]
fn ida_y_vuelta_de_milisegundos() {
    // Decode(Encode(m)) == m para valores dentro de un día.
    for m in [0u64, 1, 999, 1_000, 2_049, 59_999, 3_599_999, 86_399_999] {
        assert_eq!(indicador_temporal_a_milisegundos(&milisegundos_a_marca_temporal(m)), Ok(m));
    }
}

#[test]
fn vuelta_e_ida_de_marca() {
    // Encode(Decode(s)) == s cuando cada componente llena su ancho.
    for s in ["00:00:00,000", "01:02:03,004", "23:59:59,999", "100:00:00,000"] {
        let v = indicador_temporal_a_milisegundos(s).unwrap();
        assert_eq!(milisegundos_a_marca_temporal(v), s);
    }
}

#[test]
fn decodifica_rango() {
    assert_eq!(
        parsear_linea_temporal("00:00:02,049 --> 00:00:03,264"),
        Ok(IndicadorTemporal { inicio: 2049, fin: 3264 })
    );
}

#[test]
fn rango_invertido_se_conserva() {
    // No se exige inicio <= fin: un rango invertido pasa sin cambios.
    assert_eq!(
        parsear_linea_temporal("00:00:03,264 --> 00:00:02,049"),
        Ok(IndicadorTemporal { inicio: 3264, fin: 2049 })
    );
}

#[test]
fn rango_sin_flecha_es_error() {
    assert_eq!(parsear_linea_temporal("00:00:02,049"), Err(ErrorSubtitulo::MalformedTimeRange));
    assert_eq!(parsear_linea_temporal(""), Err(ErrorSubtitulo::MalformedTimeRange));
    assert_eq!(
        parsear_linea_temporal("00:00:02,049 -> 00:00:03,264"),
        Err(ErrorSubtitulo::MalformedTimeRange)
    );
}

#[test]
fn rango_con_dos_flechas_es_error() {
    assert_eq!(
        parsear_linea_temporal("00:00:01,000 --> 00:00:02,000 --> 00:00:03,000"),
        Err(ErrorSubtitulo::MalformedTimeRange)
    );
}

#[test]
fn rango_con_marca_mala_es_error() {
    assert_eq!(
        parsear_linea_temporal("00:00:02049 --> 00:00:03,264"),
        Err(ErrorSubtitulo::MalformedTimestamp)
    );
    assert_eq!(
        parsear_linea_temporal("00:00:02,049 --> hola"),
        Err(ErrorSubtitulo::MalformedTimestamp)
    );
}

#[test]
fn escribe_rango() {
    assert_eq!(
        marca_temporal_desde_indicador_temporal(&IndicadorTemporal { inicio: 2049, fin: 3264 }),
        "00:00:02,049 --> 00:00:03,264"
    );
}
