//! Tipos de datos del dominio: posición en pantalla, rango temporal,
//! subtítulo y errores.

use vstd::prelude::*;

verus! {

/// Posición vertical en pantalla de un subtítulo.
#[derive(Clone, Copy, PartialEq, Eq, Structural, Debug)]
pub enum Posicion {
    /// Parte superior de la pantalla (código `{\an8}`).
    Superior,
    /// Parte inferior de la pantalla (código `{\an2}`).
    Inferior,
}

/// Rango temporal de un subtítulo, en milisegundos desde el inicio de la
/// pista. No se exige `inicio <= fin`: un rango invertido se conserva tal
/// cual.
#[derive(Clone, Copy, PartialEq, Eq, Structural, Debug)]
pub struct IndicadorTemporal {
    pub inicio: u64,
    pub fin: u64,
}

/// Una entrada de subtítulo: rango temporal, texto y posición en pantalla.
#[derive(Clone, Debug)]
pub struct Subtitulo {
    pub tiempo: IndicadorTemporal,
    pub contenido: String,
    pub posicion: Posicion,
}

/// Modelo matemático de un `Subtitulo`: el contenido como sucesión de
/// caracteres.
pub struct VistaSubtitulo {
    pub inicio: u64,
    pub fin: u64,
    pub contenido: Seq<char>,
    pub posicion: Posicion,
}

impl View for Subtitulo {
    type V = VistaSubtitulo;

    open spec fn view(&self) -> VistaSubtitulo {
        VistaSubtitulo {
            inicio: self.tiempo.inicio,
            fin: self.tiempo.fin,
            contenido: self.contenido@,
            posicion: self.posicion,
        }
    }
}

/// Modelo de una sucesión de subtítulos.
pub open spec fn vista_subtitulos(s: Seq<Subtitulo>) -> Seq<VistaSubtitulo> {
    Seq::new(s.len(), |i: int| s[i]@)
}

/// Errores del núcleo del sistema. Los fallos de E/S quedan fuera: los
/// trata quien lee y escribe los archivos.
#[derive(Clone, Copy, PartialEq, Eq, Structural, Debug)]
pub enum ErrorSubtitulo {
    /// Una marca `HH:MM:SS,mmm` no tiene la forma exigida o algún
    /// componente numérico no es representable.
    MalformedTimestamp,
    /// Una línea `<marca> --> <marca>` no se divide exactamente en dos
    /// partes por el separador.
    MalformedTimeRange,
    /// Las dos pistas juntas no aportan ningún subtítulo.
    EmptyResult,
}

} // verus!
