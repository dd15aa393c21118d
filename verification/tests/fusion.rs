//! Pruebas de la fusión y escritura del archivo combinado.

use subtitulos::fusion::unir_y_renderizar;
use subtitulos::parser::parsear_srt;
use subtitulos::tipos::{ErrorSubtitulo, IndicadorTemporal, Posicion, Subtitulo};

fn cue(inicio: u64, fin: u64, texto: &str, posicion: Posicion) -> Subtitulo {
    Subtitulo {
        tiempo: IndicadorTemporal { inicio, fin },
        contenido: String::from(texto),
        posicion,
    }
}

#[test]
fn dos_pistas_vacias_dan_empty_result() {
    assert!(unir_y_renderizar(Vec::new(), Vec::new()) == Err(ErrorSubtitulo::EmptyResult));
}

#[test]
fn escenario_completo_de_fusion() {
    // Pista superior con un bloque y pista inferior con otro anterior en el
    // tiempo: el inferior sale primero, cada uno con su código de posición.
    let superior = parsear_srt("1\n00:00:01,000 --> 00:00:02,000\nHello\n", Posicion::Superior);
    let inferior = parsear_srt("1\n00:00:00,500 --> 00:00:01,500\nWorld\n", Posicion::Inferior);
    let texto = unir_y_renderizar(superior, inferior).unwrap();
    assert_eq!(
        texto,
        "1\n00:00:00,500 --> 00:00:01,500\n{\\an2}World\n\n2\n00:00:01,000 --> 00:00:02,000\n{\\an8}Hello\n\n"
    );
}

#[test]
fn orden_cronologico_en_ambas_asignaciones() {
    // Dos pistas de un bloque cada una, con inicios 1000 y 2000: los
    // identificadores 1 y 2 siguen el orden temporal sea cual sea la pista
    // superior.
    let a = cue(1000, 1500, "A", Posicion::Superior);
    let b = cue(2000, 2500, "B", Posicion::Inferior);
    let texto = unir_y_renderizar(vec![b.clone()], vec![a.clone()]).unwrap();
    assert_eq!(
        texto,
        "1\n00:00:01,000 --> 00:00:01,500\n{\\an8}A\n\n2\n00:00:02,000 --> 00:00:02,500\n{\\an2}B\n\n"
    );
    let a2 = cue(1000, 1500, "A", Posicion::Inferior);
    let b2 = cue(2000, 2500, "B", Posicion::Superior);
    let texto2 = unir_y_renderizar(vec![b2], vec![a2]).unwrap();
    assert_eq!(
        texto2,
        "1\n00:00:01,000 --> 00:00:01,500\n{\\an2}A\n\n2\n00:00:02,000 --> 00:00:02,500\n{\\an8}B\n\n"
    );
}

#[test]
fn empate_conserva_superior_antes_que_inferior() {
    // Estabilidad: con el mismo inicio, el orden relativo es el de la
    // concatenación, superior antes que inferior.
    let arriba = cue(1000, 2000, "T", Posicion::Superior);
    let abajo = cue(1000, 2000, "B", Posicion::Inferior);
    let texto = unir_y_renderizar(vec![arriba], vec![abajo]).unwrap();
    assert_eq!(
        texto,
        "1\n00:00:01,000 --> 00:00:02,000\n{\\an8}T\n\n2\n00:00:01,000 --> 00:00:02,000\n{\\an2}B\n\n"
    );
}

#[test]
fn empates_dentro_de_una_pista_conservan_su_orden() {
    let primero = cue(500, 600, "uno", Posicion::Superior);
    let segundo = cue(500, 700, "dos", Posicion::Superior);
    let tercero = cue(100, 200, "cero", Posicion::Inferior);
    let texto = unir_y_renderizar(vec![primero, segundo], vec![tercero]).unwrap();
    assert_eq!(
        texto,
        "1\n00:00:00,100 --> 00:00:00,200\n{\\an2}cero\n\n2\n00:00:00,500 --> 00:00:00,600\n{\\an8}uno\n\n3\n00:00:00,500 --> 00:00:00,700\n{\\an8}dos\n\n"
    );
}

#[test]
fn una_sola_pista_tambien_se_escribe() {
    let solo = cue(0, 1000, "solo", Posicion::Inferior);
    let texto = unir_y_renderizar(Vec::new(), vec![solo]).unwrap();
    assert_eq!(texto, "1\n00:00:00,000 --> 00:00:01,000\n{\\an2}solo\n\n");
}
