//! Pruebas del analizador de pistas.

use subtitulos::parser::{es_identificador_numero, parsear_srt};
use subtitulos::tipos::Posicion;

#[test]
fn identificador_exige_numero_y_rango() {
    assert!(es_identificador_numero("1", "00:00:01,000 --> 00:00:02,000"));
    assert!(es_identificador_numero("42", "00:00:01,000 --> 00:00:02,000"));
    assert!(!es_identificador_numero("uno", "00:00:01,000 --> 00:00:02,000"));
    assert!(!es_identificador_numero("1", "hola"));
    assert!(!es_identificador_numero("1", ""));
    assert!(!es_identificador_numero("", "00:00:01,000 --> 00:00:02,000"));
    assert!(!es_identificador_numero("-1", "00:00:01,000 --> 00:00:02,000"));
}

#[test]
fn parsea_pista_de_dos_bloques() {
    let srt = "1\n00:00:02,049 --> 00:00:03,264\nHola mundo 1\n\n2\n00:00:03,264 --> 00:00:05,724\nHola mundo 2\n\n";
    let cues = parsear_srt(srt, Posicion::Superior);
    assert_eq!(cues.len(), 2);
    assert_eq!(cues[0].tiempo.inicio, 2049);
    assert_eq!(cues[0].tiempo.fin, 3264);
    assert_eq!(cues[0].contenido, "Hola mundo 1");
    assert!(cues[0].posicion == Posicion::Superior);
    assert_eq!(cues[1].tiempo.inicio, 3264);
    assert_eq!(cues[1].tiempo.fin, 5724);
    assert_eq!(cues[1].contenido, "Hola mundo 2");
}

#[test]
fn parsea_pista_de_un_bloque() {
    let cues = parsear_srt("1\n00:00:01,000 --> 00:00:02,000\nHello\n", Posicion::Inferior);
    assert_eq!(cues.len(), 1);
    assert_eq!(cues[0].tiempo.inicio, 1000);
    assert_eq!(cues[0].tiempo.fin, 2000);
    assert_eq!(cues[0].contenido, "Hello");
    assert!(cues[0].posicion == Posicion::Inferior);
}

#[test]
fn pista_vacia_da_un_subtitulo_vacio() {
    // El vaciado final es incondicional: incluso un archivo vacío produce
    // un subtítulo con texto vacío y rango cero.
    let cues = parsear_srt("", Posicion::Superior);
    assert_eq!(cues.len(), 1);
    assert_eq!(cues[0].tiempo.inicio, 0);
    assert_eq!(cues[0].tiempo.fin, 0);
    assert_eq!(cues[0].contenido, "");
}

#[test]
fn contenido_multilinea_se_concatena_sin_separador() {
    let cues = parsear_srt("1\n00:00:01,000 --> 00:00:02,000\nhola\nmundo\n", Posicion::Superior);
    assert_eq!(cues.len(), 1);
    assert_eq!(cues[0].contenido, "holamundo");
}

#[test]
fn finales_de_linea_con_retorno_de_carro() {
    let cues = parsear_srt(
        "1\r\n00:00:01,000 --> 00:00:02,000\r\nHello\r\n",
        Posicion::Superior,
    );
    assert_eq!(cues.len(), 1);
    assert_eq!(cues[0].contenido, "Hello");
    assert_eq!(cues[0].tiempo.inicio, 1000);
}

#[test]
fn numero_sin_rango_siguiente_es_contenido() {
    // Una línea numérica solo es identificador si la siguiente es un rango.
    let cues = parsear_srt("1\n00:00:01,000 --> 00:00:02,000\n42\n", Posicion::Superior);
    assert_eq!(cues.len(), 1);
    assert_eq!(cues[0].contenido, "42");
}

#[test]
fn rango_posterior_sustituye_al_pendiente() {
    // Dos líneas de rango seguidas: la última gana.
    let cues = parsear_srt(
        "1\n00:00:01,000 --> 00:00:02,000\n00:00:07,000 --> 00:00:08,000\nHello\n",
        Posicion::Superior,
    );
    assert_eq!(cues.len(), 1);
    assert_eq!(cues[0].tiempo.inicio, 7000);
    assert_eq!(cues[0].contenido, "Hello");
}
