//! Analizador de una pista: divide el texto en líneas, clasifica cada línea
//! (identificador, rango temporal o contenido) y acumula los subtítulos.

use vstd::prelude::*;
use crate::texto::{primer_indice, lema_primer_indice, lema_primer_indice_es, es_numero_u64,
    parsear_numero};
use crate::codec::{rango_valido, rango_de, parsear_linea_temporal};
use crate::tipos::{IndicadorTemporal, Posicion, Subtitulo, VistaSubtitulo, vista_subtitulos};

verus! {

// ---------------------------------------------------------------------------
// División en líneas, como la hace `str::lines`
// ---------------------------------------------------------------------------

/// Una línea sin su `\r` final, si lo lleva: el terminador `\r\n` se
/// descarta entero.
pub open spec fn sin_cr(l: Seq<char>) -> Seq<char> {
    if l.len() > 0 && l.last() == '\r' {
        l.drop_last()
    } else {
        l
    }
}

/// Las líneas de `s`, como las produce `str::lines`: separadas por `\n`,
/// cada una sin su `\r` final, y sin línea vacía tras un `\n` terminal.
pub open spec fn lineas(s: Seq<char>) -> Seq<Seq<char>>
    decreases s.len(),
{
    if s.len() == 0 {
        Seq::empty()
    } else {
        let p = primer_indice(s, '\n');
        if 0 <= p && p < s.len() {
            seq![sin_cr(s.subrange(0, p))] + lineas(s.subrange(p + 1, s.len() as int))
        } else {
            seq![s]
        }
    }
}

/// Vista de una sucesión de cadenas como sucesión de sucesiones de
/// caracteres.
pub open spec fn vistas_texto(s: Seq<String>) -> Seq<Seq<char>> {
    Seq::new(s.len(), |i: int| s[i]@)
}

proof fn lema_lineas_paso(t: Seq<char>, p: int)
    requires
        0 <= p < t.len(),
        t[p] == '\n',
        forall|k: int| 0 <= k < p ==> t[k] != '\n',
    ensures
        lineas(t) == seq![sin_cr(t.subrange(0, p))] + lineas(t.subrange(p + 1, t.len() as int)),
{
    lema_primer_indice_es(t, '\n', p);
}

proof fn lema_lineas_fin(t: Seq<char>)
    requires
        t.len() > 0,
        forall|k: int| 0 <= k < t.len() ==> t[k] != '\n',
    ensures
        lineas(t) == seq![t],
{
    lema_primer_indice(t, '\n');
    let p = primer_indice(t, '\n');
    if p < t.len() {
        assert(t[p] == '\n');
    }
}

/// Divide `texto` en líneas, con la semántica exacta de `str::lines`.
pub fn dividir_lineas(texto: &str) -> (r: Vec<String>)
    ensures
        vistas_texto(r@) == lineas(texto@),
{
    let n = texto.unicode_len();
    let mut r: Vec<String> = Vec::new();
    let mut inicio: usize = 0;
    let mut j: usize = 0;
    proof {
        assert(vistas_texto(r@) =~= Seq::<Seq<char>>::empty());
        assert(texto@.subrange(0, n as int) =~= texto@);
        assert(vistas_texto(r@) + lineas(texto@.subrange(0, n as int)) =~= lineas(texto@));
    }
    while j < n
        invariant
            inicio <= j <= n,
            n == texto@.len(),
            forall|k: int| inicio <= k < j ==> texto@[k] != '\n',
            lineas(texto@) == vistas_texto(r@) + lineas(
                texto@.subrange(inicio as int, n as int),
            ),
        decreases n - j,
    {
        let c = texto.get_char(j);
        if c == '\n' {
            let seg = if j > inicio && texto.get_char(j - 1) == '\r' {
                texto.substring_char(inicio, j - 1)
            } else {
                texto.substring_char(inicio, j)
            };
            let ghost tramo = texto@.subrange(inicio as int, n as int);
            proof {
                assert(tramo[j - inicio] == texto@[j as int]);
                assert forall|k: int| 0 <= k < j - inicio implies tramo[k] != '\n' by {
                    assert(tramo[k] == texto@[inicio + k]);
                }
                lema_lineas_paso(tramo, j - inicio);
                assert(tramo.subrange(0, j - inicio) =~= texto@.subrange(inicio as int, j as int));
                if j > inicio && texto@[j - 1] == '\r' {
                    assert(texto@.subrange(inicio as int, j as int).last() == texto@[j - 1]);
                    assert(seg@ =~= sin_cr(texto@.subrange(inicio as int, j as int)));
                } else {
                    assert(seg@ =~= sin_cr(texto@.subrange(inicio as int, j as int)));
                }
                assert(tramo.subrange(j - inicio + 1, tramo.len() as int) =~= texto@.subrange(
                    j + 1,
                    n as int,
                ));
            }
            r.push(seg.to_owned());
            proof {
                assert(vistas_texto(r@) =~= vistas_texto(r@.drop_last()).push(seg@));
                assert(vistas_texto(r@.drop_last()) + (seq![sin_cr(
                    texto@.subrange(inicio as int, j as int),
                )] + lineas(texto@.subrange(j + 1, n as int))) =~= vistas_texto(r@) + lineas(
                    texto@.subrange(j + 1, n as int),
                ));
            }
            inicio = j + 1;
        }
        j += 1;
    }
    if inicio < n {
        let seg = texto.substring_char(inicio, n);
        let ghost tramo = texto@.subrange(inicio as int, n as int);
        proof {
            assert forall|k: int| 0 <= k < tramo.len() implies tramo[k] != '\n' by {
                assert(tramo[k] == texto@[inicio + k]);
            }
            lema_lineas_fin(tramo);
        }
        r.push(seg.to_owned());
        proof {
            assert(vistas_texto(r@) =~= vistas_texto(r@.drop_last()).push(seg@));
            assert(vistas_texto(r@.drop_last()) + seq![tramo] =~= vistas_texto(r@));
        }
    } else {
        proof {
            assert(texto@.subrange(inicio as int, n as int).len() == 0);
            assert(vistas_texto(r@) + lineas(texto@.subrange(inicio as int, n as int))
                =~= vistas_texto(r@));
        }
    }
    r
}

// ---------------------------------------------------------------------------
// La máquina de estados del analizador
// ---------------------------------------------------------------------------

/// ¿Es la línea un identificador numérico de bloque? Lo es cuando ella es
/// un número `u64` y la línea siguiente es un rango temporal válido.
pub open spec fn es_linea_indice(linea: Seq<char>, siguiente: Seq<char>) -> bool {
    es_numero_u64(linea) && rango_valido(siguiente)
}

/// El subtítulo que emite el acumulador.
pub open spec fn cue(rango: IndicadorTemporal, texto: Seq<char>, pos: Posicion) -> VistaSubtitulo {
    VistaSubtitulo { inicio: rango.inicio, fin: rango.fin, contenido: texto, posicion: pos }
}

/// Procesa las líneas desde `i` con el texto y el rango acumulados. Cada
/// línea se clasifica, por este orden: identificador (vacía el acumulador
/// de texto emitiendo un subtítulo, salvo que esté vacío), rango temporal
/// (sustituye el rango pendiente), o contenido (se concatena sin separador).
/// Al agotar las líneas siempre se emite el subtítulo pendiente, aunque
/// esté vacío.
pub open spec fn procesar(
    ls: Seq<Seq<char>>,
    i: int,
    texto: Seq<char>,
    rango: IndicadorTemporal,
    pos: Posicion,
) -> Seq<VistaSubtitulo>
    decreases ls.len() - i,
{
    if i < 0 || i >= ls.len() {
        seq![cue(rango, texto, pos)]
    } else {
        let linea = ls[i];
        let siguiente = if i + 1 < ls.len() {
            ls[i + 1]
        } else {
            Seq::empty()
        };
        if es_linea_indice(linea, siguiente) {
            if texto.len() > 0 {
                seq![cue(rango, texto, pos)] + procesar(ls, i + 1, Seq::empty(), rango, pos)
            } else {
                procesar(ls, i + 1, texto, rango, pos)
            }
        } else if rango_valido(linea) {
            procesar(ls, i + 1, texto, rango_de(linea), pos)
        } else {
            procesar(ls, i + 1, texto + linea, rango, pos)
        }
    }
}

/// Los subtítulos que el analizador extrae del texto completo de una pista.
pub open spec fn analizar_pista(s: Seq<char>, pos: Posicion) -> Seq<VistaSubtitulo> {
    procesar(lineas(s), 0, Seq::empty(), IndicadorTemporal { inicio: 0, fin: 0 }, pos)
}

/// ¿Es `linea` un identificador de bloque? Condiciones: `linea` es un
/// número `u64` y `linea_siguiente` es un rango temporal válido.
pub fn es_identificador_numero(linea: &str, linea_siguiente: &str) -> (r: bool)
    ensures
        r == es_linea_indice(linea@, linea_siguiente@),
{
    if parsear_numero(linea).is_none() {
        return false;
    }
    parsear_linea_temporal(linea_siguiente).is_ok()
}

/// Analiza el texto completo de una pista y devuelve sus subtítulos, todos
/// con la posición `posicion`. Nunca falla y siempre emite al menos un
/// subtítulo: el bloque pendiente final se emite incondicionalmente.
pub fn parsear_srt(texto: &str, posicion: Posicion) -> (r: Vec<Subtitulo>)
    ensures
        vista_subtitulos(r@) == analizar_pista(texto@, posicion),
        r@.len() >= 1,
{
    let filas = dividir_lineas(texto);
    let ghost ls = lineas(texto@);
    let n = filas.len();
    let mut subtitulos: Vec<Subtitulo> = Vec::new();
    let mut contenido = String::new();
    let mut rango = IndicadorTemporal { inicio: 0, fin: 0 };
    let mut i: usize = 0;
    proof {
        assert(vista_subtitulos(subtitulos@) + procesar(ls, 0, contenido@, rango, posicion)
            =~= procesar(ls, 0, Seq::empty(), IndicadorTemporal { inicio: 0, fin: 0 }, posicion));
    }
    while i < n
        invariant
            i <= n,
            n == filas@.len(),
            vistas_texto(filas@) == ls,
            analizar_pista(texto@, posicion) == vista_subtitulos(subtitulos@) + procesar(
                ls,
                i as int,
                contenido@,
                rango,
                posicion,
            ),
        decreases n - i,
    {
        proof {
            assert(filas@[i as int]@ == ls[i as int]);
            if i + 1 < n {
                assert(filas@[i + 1]@ == ls[i + 1]);
            }
        }
        let es_indice = if i + 1 < n {
            es_identificador_numero(filas[i].as_str(), filas[i + 1].as_str())
        } else {
            es_identificador_numero(filas[i].as_str(), "")
        };
        proof {
            if i + 1 >= n {
                let vacia = "";
                reveal_strlit("");
                assert(vacia@ =~= Seq::<char>::empty());
            }
        }
        if es_indice {
            if contenido.as_str().unicode_len() > 0 {
                let listo = contenido;
                contenido = String::new();
                let sub = Subtitulo { tiempo: rango, contenido: listo, posicion };
                proof {
                    assert(sub@ == cue(rango, sub.contenido@, posicion));
                }
                subtitulos.push(sub);
                proof {
                    assert(vista_subtitulos(subtitulos@) =~= vista_subtitulos(
                        subtitulos@.drop_last(),
                    ).push(subtitulos@.last()@));
                    assert(vista_subtitulos(subtitulos@.drop_last()) + (seq![
                        subtitulos@.last()@,
                    ] + procesar(ls, i + 1, Seq::empty(), rango, posicion)) =~= vista_subtitulos(
                        subtitulos@,
                    ) + procesar(ls, i + 1, Seq::empty(), rango, posicion));
                }
            }
        } else {
            match parsear_linea_temporal(filas[i].as_str()) {
                Ok(nuevo) => {
                    rango = nuevo;
                },
                Err(_) => {
                    contenido.append(filas[i].as_str());
                },
            }
        }
        i += 1;
    }
    let sub = Subtitulo { tiempo: rango, contenido, posicion };
    subtitulos.push(sub);
    proof {
        assert(vista_subtitulos(subtitulos@) =~= vista_subtitulos(subtitulos@.drop_last()).push(
            subtitulos@.last()@,
        ));
        assert(vista_subtitulos(subtitulos@.drop_last()) + seq![subtitulos@.last()@]
            =~= vista_subtitulos(subtitulos@));
    }
    subtitulos
}

} // verus!
