//! Códec de marcas temporales: entre el texto `HH:MM:SS,mmm` y el número de
//! milisegundos, en ambas direcciones, y lo mismo para la línea
//! `<marca> --> <marca>` de un rango.

use vstd::prelude::*;
use crate::texto::{
    cuenta, cuerpo_numerico, es_numero_u64, valor_decimal, texto_decimal, relleno, primer_indice,
    primer_sub, coincide_en, es_digito, son_digitos, forma_rellena, lema_cuenta_detras,
    lema_cuenta_concat, lema_cuenta_cero, lema_digitos_sin, lema_primer_indice,
    lema_primer_indice_es, lema_primer_sub, lema_primer_sub_es, lema_texto_decimal,
    lema_valor_relleno, lema_relleno_de_valor, lema_valor_decimal_no_negativo, parsear_numero,
    texto_relleno,
};
use crate::tipos::{ErrorSubtitulo, IndicadorTemporal};
use vstd::arithmetic::div_mod::{lemma_fundamental_div_mod, lemma_fundamental_div_mod_converse};

verus! {

// ---------------------------------------------------------------------------
// Modelo de la marca `HH:MM:SS,mmm`
// ---------------------------------------------------------------------------

/// La parte anterior a la coma: el reloj `HH:MM:SS`.
pub open spec fn parte_reloj(s: Seq<char>) -> Seq<char> {
    s.subrange(0, primer_indice(s, ','))
}

/// La parte posterior a la coma: los milisegundos.
pub open spec fn parte_mili(s: Seq<char>) -> Seq<char> {
    s.subrange(primer_indice(s, ',') + 1, s.len() as int)
}

/// Las horas: lo anterior al primer `:` del reloj.
pub open spec fn parte_horas(s: Seq<char>) -> Seq<char> {
    parte_reloj(s).subrange(0, primer_indice(parte_reloj(s), ':'))
}

/// El reloj tras su primer `:`.
pub open spec fn resto_reloj(s: Seq<char>) -> Seq<char> {
    parte_reloj(s).subrange(primer_indice(parte_reloj(s), ':') + 1, parte_reloj(s).len() as int)
}

/// Los minutos: entre los dos `:` del reloj.
pub open spec fn parte_minutos(s: Seq<char>) -> Seq<char> {
    resto_reloj(s).subrange(0, primer_indice(resto_reloj(s), ':'))
}

/// Los segundos: lo posterior al segundo `:` del reloj.
pub open spec fn parte_segundos(s: Seq<char>) -> Seq<char> {
    resto_reloj(s).subrange(primer_indice(resto_reloj(s), ':') + 1, resto_reloj(s).len() as int)
}

/// ¿Tiene `s` la forma `HH:MM:SS,mmm`? Una sola coma, dos `:` delante de
/// ella, y cuatro componentes que `str::parse::<u64>` acepta. Ningún
/// componente tiene cota superior: `99:99:99,999` es válido.
pub open spec fn marca_valida(s: Seq<char>) -> bool {
    &&& cuenta(s, ',') == 1
    &&& es_numero_u64(parte_mili(s))
    &&& cuenta(parte_reloj(s), ':') == 2
    &&& es_numero_u64(parte_horas(s))
    &&& es_numero_u64(parte_minutos(s))
    &&& es_numero_u64(parte_segundos(s))
}

/// Milisegundos que denota la marca:
/// `horas*3.600.000 + minutos*60.000 + segundos*1.000 + milisegundos`.
pub open spec fn valor_marca(s: Seq<char>) -> int {
    valor_decimal(cuerpo_numerico(parte_horas(s))) * 3600000 + valor_decimal(
        cuerpo_numerico(parte_minutos(s)),
    ) * 60000 + valor_decimal(cuerpo_numerico(parte_segundos(s))) * 1000 + valor_decimal(
        cuerpo_numerico(parte_mili(s)),
    )
}

/// Una marca decodificable: forma válida y valor representable en `u64`.
pub open spec fn marca_decodificable(s: Seq<char>) -> bool {
    marca_valida(s) && valor_marca(s) <= u64::MAX
}

/// El texto que produce la codificación de `m` milisegundos: componentes
/// rellenos a 2 cifras (3 los milisegundos); las horas pueden desbordar su
/// ancho.
pub open spec fn texto_marca(m: u64) -> Seq<char> {
    relleno(texto_decimal(m as int / 3600000), 2) + seq![':'] + relleno(
        texto_decimal((m as int % 3600000) / 60000),
        2,
    ) + seq![':'] + relleno(texto_decimal((m as int % 60000) / 1000), 2) + seq![','] + relleno(
        texto_decimal(m as int % 1000),
        3,
    )
}

// ---------------------------------------------------------------------------
// Modelo de la línea `<marca> --> <marca>`
// ---------------------------------------------------------------------------

/// El separador de un rango temporal, cinco caracteres exactos.
pub open spec fn sep_flecha() -> Seq<char> {
    seq![' ', '-', '-', '>', ' ']
}

/// ¿Divide el separador ` --> ` a `s` exactamente en dos partes? Hay una
/// aparición, y tras la primera no queda ninguna otra.
pub open spec fn division_flecha_valida(s: Seq<char>) -> bool {
    let p = primer_sub(s, sep_flecha());
    &&& p + 5 <= s.len()
    &&& primer_sub(s.subrange(p + 5, s.len() as int), sep_flecha()) == s.len() - p - 5
}

/// La marca de inicio: lo anterior a la primera flecha.
pub open spec fn parte_inicio(s: Seq<char>) -> Seq<char> {
    s.subrange(0, primer_sub(s, sep_flecha()))
}

/// La marca de fin: lo posterior a la primera flecha.
pub open spec fn parte_fin(s: Seq<char>) -> Seq<char> {
    s.subrange(primer_sub(s, sep_flecha()) + 5, s.len() as int)
}

/// ¿Es `s` una línea de rango temporal válida?
pub open spec fn rango_valido(s: Seq<char>) -> bool {
    &&& division_flecha_valida(s)
    &&& marca_decodificable(parte_inicio(s))
    &&& marca_decodificable(parte_fin(s))
}

/// El rango que denota una línea válida.
pub open spec fn rango_de(s: Seq<char>) -> IndicadorTemporal {
    IndicadorTemporal {
        inicio: valor_marca(parte_inicio(s)) as u64,
        fin: valor_marca(parte_fin(s)) as u64,
    }
}

// ---------------------------------------------------------------------------
// Ejecutables auxiliares
// ---------------------------------------------------------------------------

/// Recorre `s` contando las apariciones de `c` y anotando las dos primeras.
fn contar_y_posiciones(s: &str, c: char) -> (r: (usize, usize, usize))
    ensures
        r.0 == cuenta(s@, c),
        r.0 >= 1 ==> r.1 < s@.len() && s@[r.1 as int] == c && primer_indice(s@, c) == r.1,
        r.0 >= 2 ==> r.1 < r.2 < s@.len() && s@[r.2 as int] == c && primer_indice(
            s@.subrange(r.1 + 1, s@.len() as int),
            c,
        ) == r.2 - r.1 - 1,
{
    let n = s.unicode_len();
    let mut num: usize = 0;
    let mut p1: usize = 0;
    let mut p2: usize = 0;
    let mut j: usize = 0;
    proof {
        assert(s@.subrange(0, 0) =~= Seq::<char>::empty());
    }
    while j < n
        invariant
            j <= n,
            n == s@.len(),
            num <= j,
            num == cuenta(s@.subrange(0, j as int), c),
            num == 0 ==> forall|k: int| 0 <= k < j ==> s@[k] != c,
            num >= 1 ==> p1 < j && s@[p1 as int] == c && (forall|k: int|
                0 <= k < p1 ==> s@[k] != c),
            num == 1 ==> forall|k: int| p1 < k < j ==> s@[k] != c,
            num >= 2 ==> p1 < p2 < j && s@[p2 as int] == c && (forall|k: int|
                p1 < k < p2 ==> s@[k] != c),
        decreases n - j,
    {
        let ch = s.get_char(j);
        proof {
            assert(s@.subrange(0, j + 1) =~= s@.subrange(0, j as int).push(s@[j as int]));
            lema_cuenta_detras(s@.subrange(0, j as int), c, s@[j as int]);
        }
        if ch == c {
            if num == 0 {
                p1 = j;
            } else if num == 1 {
                p2 = j;
            }
            num = num + 1;
        }
        j += 1;
    }
    proof {
        assert(s@.subrange(0, n as int) =~= s@);
        if num >= 1 {
            lema_primer_indice_es(s@, c, p1 as int);
        }
        if num >= 2 {
            let t = s@.subrange(p1 + 1, n as int);
            assert(t[p2 - p1 - 1] == s@[p2 as int]);
            assert forall|k: int| 0 <= k < p2 - p1 - 1 implies t[k] != c by {
                assert(t[k] == s@[p1 + 1 + k]);
            }
            lema_primer_indice_es(t, c, p2 - p1 - 1);
        }
    }
    (num, p1, p2)
}

/// Busca la primera aparición de ` --> ` en `s` a partir de `desde`.
fn buscar_flecha(s: &str, desde: usize) -> (r: Option<usize>)
    requires
        desde <= s@.len(),
    ensures
        r matches Some(p) ==> desde <= p && p + 5 <= s@.len() && coincide_en(
            s@,
            sep_flecha(),
            p as int,
        ) && (forall|k: int| desde <= k < p ==> !coincide_en(s@, sep_flecha(), k)),
        r is None ==> forall|k: int| k >= desde ==> !coincide_en(s@, sep_flecha(), k),
{
    let n = s.unicode_len();
    if n < 5 || desde > n - 5 {
        return None;
    }
    let mut i: usize = desde;
    while i <= n - 5
        invariant
            n == s@.len(),
            n >= 5,
            desde <= i <= n - 4,
            forall|k: int| desde <= k < i ==> !coincide_en(s@, sep_flecha(), k),
        decreases n - i,
    {
        let c0 = s.get_char(i);
        let c1 = s.get_char(i + 1);
        let c2 = s.get_char(i + 2);
        let c3 = s.get_char(i + 3);
        let c4 = s.get_char(i + 4);
        let ghost tramo = s@.subrange(i as int, i + 5);
        proof {
            assert(tramo[0] == s@[i as int]);
            assert(tramo[1] == s@[i + 1]);
            assert(tramo[2] == s@[i + 2]);
            assert(tramo[3] == s@[i + 3]);
            assert(tramo[4] == s@[i + 4]);
        }
        if c0 == ' ' && c1 == '-' && c2 == '-' && c3 == '>' && c4 == ' ' {
            proof {
                assert(tramo =~= sep_flecha());
            }
            return Some(i);
        }
        proof {
            assert(tramo != sep_flecha());
        }
        i += 1;
    }
    None
}

// ---------------------------------------------------------------------------
// Funciones públicas del códec
// ---------------------------------------------------------------------------

/// Decodifica una marca `HH:MM:SS,mmm` a milisegundos: `00:00:02,049` da
/// `2049`. Falla con `MalformedTimestamp` cuando la coma no divide en dos
/// partes, el `:` no divide el reloj en tres, algún componente no es un
/// número `u64`, o el total no cabe en `u64`.
pub fn indicador_temporal_a_milisegundos(indicador: &str) -> (r: Result<u64, ErrorSubtitulo>)
    ensures
        r is Ok <==> marca_decodificable(indicador@),
        r matches Ok(v) ==> v == valor_marca(indicador@),
        r matches Err(e) ==> e == ErrorSubtitulo::MalformedTimestamp,
{
    let n = indicador.unicode_len();
    let (nc, pc, _) = contar_y_posiciones(indicador, ',');
    if nc != 1 {
        return Err(ErrorSubtitulo::MalformedTimestamp);
    }
    let mili_s = indicador.substring_char(pc + 1, n);
    proof {
        assert(mili_s@ == parte_mili(indicador@));
    }
    let mili = match parsear_numero(mili_s) {
        Some(v) => v,
        None => {
            return Err(ErrorSubtitulo::MalformedTimestamp);
        },
    };
    let reloj = indicador.substring_char(0, pc);
    proof {
        assert(reloj@ == parte_reloj(indicador@));
    }
    let (ncc, q1, q2) = contar_y_posiciones(reloj, ':');
    if ncc != 2 {
        return Err(ErrorSubtitulo::MalformedTimestamp);
    }
    let horas_s = reloj.substring_char(0, q1);
    let minutos_s = reloj.substring_char(q1 + 1, q2);
    let segundos_s = reloj.substring_char(q2 + 1, pc);
    proof {
        assert(horas_s@ == parte_horas(indicador@));
        let resto = resto_reloj(indicador@);
        assert(resto == reloj@.subrange(q1 + 1, pc as int));
        assert(primer_indice(resto, ':') == q2 - q1 - 1);
        assert(minutos_s@ =~= resto.subrange(0, q2 - q1 - 1));
        assert(segundos_s@ =~= resto.subrange(q2 - q1 - 1 + 1, resto.len() as int));
    }
    let horas = match parsear_numero(horas_s) {
        Some(v) => v,
        None => {
            return Err(ErrorSubtitulo::MalformedTimestamp);
        },
    };
    let minutos = match parsear_numero(minutos_s) {
        Some(v) => v,
        None => {
            return Err(ErrorSubtitulo::MalformedTimestamp);
        },
    };
    let segundos = match parsear_numero(segundos_s) {
        Some(v) => v,
        None => {
            return Err(ErrorSubtitulo::MalformedTimestamp);
        },
    };
    let total: u128 = horas as u128 * 3600000 + minutos as u128 * 60000 + segundos as u128 * 1000
        + mili as u128;
    proof {
        assert(total as int == valor_marca(indicador@));
    }
    if total > u64::MAX as u128 {
        return Err(ErrorSubtitulo::MalformedTimestamp);
    }
    Ok(total as u64)
}

/// Codifica milisegundos como `HH:MM:SS,mmm`: `2049` da `00:00:02,049`.
/// Función total: las horas se ensanchan si no caben en dos cifras.
pub fn milisegundos_a_marca_temporal(milisegundos: u64) -> (r: String)
    ensures
        r@ == texto_marca(milisegundos),
{
    let horas = milisegundos / 3600000;
    let minutos = (milisegundos % 3600000) / 60000;
    let segundos = (milisegundos % 60000) / 1000;
    let mili = milisegundos % 1000;
    let dos_puntos = ":";
    let coma = ",";
    proof {
        reveal_strlit(":");
        reveal_strlit(",");
        assert(dos_puntos@ =~= seq![':']);
        assert(coma@ =~= seq![',']);
    }
    let mut r = texto_relleno(horas, 2);
    r.append(dos_puntos);
    let t_min = texto_relleno(minutos, 2);
    r.append(t_min.as_str());
    r.append(dos_puntos);
    let t_seg = texto_relleno(segundos, 2);
    r.append(t_seg.as_str());
    r.append(coma);
    let t_mili = texto_relleno(mili, 3);
    r.append(t_mili.as_str());
    proof {
        assert(r@ =~= texto_marca(milisegundos));
    }
    r
}

/// Decodifica una línea `<marca> --> <marca>` en un rango temporal. Falla
/// con `MalformedTimeRange` si ` --> ` no la divide exactamente en dos
/// partes, y con `MalformedTimestamp` si alguna de las dos marcas es
/// inválida.
pub fn parsear_linea_temporal(linea: &str) -> (r: Result<IndicadorTemporal, ErrorSubtitulo>)
    ensures
        r is Ok <==> rango_valido(linea@),
        r matches Ok(t) ==> t == rango_de(linea@),
        r matches Err(e) ==> e == (if !division_flecha_valida(linea@) {
            ErrorSubtitulo::MalformedTimeRange
        } else {
            ErrorSubtitulo::MalformedTimestamp
        }),
{
    let n = linea.unicode_len();
    proof {
        assert(sep_flecha().len() == 5);
    }
    let p = match buscar_flecha(linea, 0) {
        Some(p) => p,
        None => {
            proof {
                lema_primer_sub(linea@, sep_flecha());
                let ps = primer_sub(linea@, sep_flecha());
                if ps < linea@.len() {
                    assert(coincide_en(linea@, sep_flecha(), ps));
                    assert(false);
                }
            }
            return Err(ErrorSubtitulo::MalformedTimeRange);
        },
    };
    proof {
        lema_primer_sub_es(linea@, sep_flecha(), p as int);
    }
    let ghost resto = linea@.subrange(p + 5, n as int);
    match buscar_flecha(linea, p + 5) {
        Some(q) => {
            proof {
                assert(coincide_en(resto, sep_flecha(), q - p - 5)) by {
                    assert(resto.subrange(q - p - 5, q - p - 5 + 5) =~= linea@.subrange(
                        q as int,
                        q + 5,
                    ));
                }
                lema_primer_sub(resto, sep_flecha());
                let ps = primer_sub(resto, sep_flecha());
                if ps == resto.len() {
                    assert(!coincide_en(resto, sep_flecha(), q - p - 5));
                }
                assert(!division_flecha_valida(linea@));
            }
            return Err(ErrorSubtitulo::MalformedTimeRange);
        },
        None => {
            proof {
                lema_primer_sub(resto, sep_flecha());
                let ps = primer_sub(resto, sep_flecha());
                if ps < resto.len() {
                    assert(coincide_en(resto, sep_flecha(), ps));
                    assert(coincide_en(linea@, sep_flecha(), p + 5 + ps)) by {
                        assert(linea@.subrange(p + 5 + ps, p + 5 + ps + 5) =~= resto.subrange(
                            ps,
                            ps + 5,
                        ));
                    }
                }
                assert(division_flecha_valida(linea@));
            }
        },
    }
    let izq = linea.substring_char(0, p);
    let der = linea.substring_char(p + 5, n);
    proof {
        assert(izq@ == parte_inicio(linea@));
        assert(der@ == parte_fin(linea@));
    }
    let inicio = match indicador_temporal_a_milisegundos(izq) {
        Ok(v) => v,
        Err(_) => {
            return Err(ErrorSubtitulo::MalformedTimestamp);
        },
    };
    let fin = match indicador_temporal_a_milisegundos(der) {
        Ok(v) => v,
        Err(_) => {
            return Err(ErrorSubtitulo::MalformedTimestamp);
        },
    };
    Ok(IndicadorTemporal { inicio, fin })
}

// ---------------------------------------------------------------------------
// Las leyes de ida y vuelta del códec
// ---------------------------------------------------------------------------

/// Una marca armada a partir de sus cuatro componentes.
pub open spec fn union_marca(ha: Seq<char>, mi: Seq<char>, se: Seq<char>, ms: Seq<char>) -> Seq<
    char,
> {
    ha + seq![':'] + mi + seq![':'] + se + seq![','] + ms
}

proof fn lema_cuenta_uno(x: char, c: char)
    ensures
        cuenta(seq![x], c) == if x == c {
            1nat
        } else {
            0nat
        },
{
    assert(seq![x].drop_first() =~= Seq::<char>::empty());
    assert(cuenta(seq![x].drop_first(), c) == 0);
}

/// Armar una marca con componentes de solo cifras la descompone en esos
/// mismos componentes.
proof fn lema_marca_compuesta(ha: Seq<char>, mi: Seq<char>, se: Seq<char>, ms: Seq<char>)
    requires
        son_digitos(ha),
        son_digitos(mi),
        son_digitos(se),
        son_digitos(ms),
        ha.len() >= 1,
        mi.len() >= 1,
        se.len() >= 1,
        ms.len() >= 1,
    ensures
        cuenta(union_marca(ha, mi, se, ms), ',') == 1,
        parte_reloj(union_marca(ha, mi, se, ms)) == ha + seq![':'] + mi + seq![':'] + se,
        parte_mili(union_marca(ha, mi, se, ms)) == ms,
        cuenta(parte_reloj(union_marca(ha, mi, se, ms)), ':') == 2,
        parte_horas(union_marca(ha, mi, se, ms)) == ha,
        parte_minutos(union_marca(ha, mi, se, ms)) == mi,
        parte_segundos(union_marca(ha, mi, se, ms)) == se,
{
    let reloj = ha + seq![':'] + mi + seq![':'] + se;
    let t = union_marca(ha, mi, se, ms);
    assert(t =~= reloj + seq![','] + ms);
    lema_digitos_sin(ha, ',');
    lema_digitos_sin(mi, ',');
    lema_digitos_sin(se, ',');
    lema_digitos_sin(ms, ',');
    lema_digitos_sin(ha, ':');
    lema_digitos_sin(mi, ':');
    lema_digitos_sin(se, ':');
    lema_cuenta_uno(':', ',');
    lema_cuenta_uno(',', ',');
    lema_cuenta_uno(':', ':');
    lema_cuenta_concat(ha, seq![':'], ',');
    lema_cuenta_concat(ha + seq![':'], mi, ',');
    lema_cuenta_concat(ha + seq![':'] + mi, seq![':'], ',');
    lema_cuenta_concat(ha + seq![':'] + mi + seq![':'], se, ',');
    lema_cuenta_concat(reloj, seq![','], ',');
    lema_cuenta_concat(reloj + seq![','], ms, ',');
    assert(cuenta(t, ',') == 1);
    assert(t[reloj.len() as int] == ',');
    assert forall|k: int| 0 <= k < reloj.len() implies t[k] != ',' by {
        assert(t[k] == reloj[k]);
        lema_cuenta_cero(reloj, ',');
    }
    lema_primer_indice_es(t, ',', reloj.len() as int);
    assert(parte_reloj(t) =~= reloj);
    assert(parte_mili(t) =~= ms);
    lema_cuenta_concat(ha, seq![':'], ':');
    lema_cuenta_concat(ha + seq![':'], mi, ':');
    lema_cuenta_concat(ha + seq![':'] + mi, seq![':'], ':');
    lema_cuenta_concat(ha + seq![':'] + mi + seq![':'], se, ':');
    assert(cuenta(reloj, ':') == 2);
    assert(reloj[ha.len() as int] == ':');
    assert forall|k: int| 0 <= k < ha.len() implies reloj[k] != ':' by {
        assert(reloj[k] == ha[k]);
        lema_cuenta_cero(ha, ':');
    }
    lema_primer_indice_es(reloj, ':', ha.len() as int);
    assert(parte_horas(t) =~= ha);
    let resto = resto_reloj(t);
    assert(resto =~= mi + seq![':'] + se);
    assert(resto[mi.len() as int] == ':');
    assert forall|k: int| 0 <= k < mi.len() implies resto[k] != ':' by {
        assert(resto[k] == mi[k]);
        lema_cuenta_cero(mi, ':');
    }
    lema_primer_indice_es(resto, ':', mi.len() as int);
    assert(parte_minutos(t) =~= mi);
    assert(parte_segundos(t) =~= se);
}

/// Un componente rellenado a partir de un valor es un numeral aceptable.
proof fn lema_componente(v: int, ancho: int)
    requires
        0 <= v <= u64::MAX,
        1 <= ancho,
    ensures
        son_digitos(relleno(texto_decimal(v), ancho)),
        relleno(texto_decimal(v), ancho).len() >= 1,
        es_numero_u64(relleno(texto_decimal(v), ancho)),
        cuerpo_numerico(relleno(texto_decimal(v), ancho)) == relleno(texto_decimal(v), ancho),
        valor_decimal(cuerpo_numerico(relleno(texto_decimal(v), ancho))) == v,
{
    lema_texto_decimal(v);
    lema_valor_relleno(texto_decimal(v), ancho);
    let c = relleno(texto_decimal(v), ancho);
    assert(es_digito(c[0]));
    assert(c[0] != '+');
    assert(cuerpo_numerico(c) == c);
}

/// Ley de ida y vuelta: decodificar lo codificado devuelve el valor de
/// partida, para todo número de milisegundos representable.
pub proof fn lema_codec_ida_vuelta(m: u64)
    ensures
        marca_decodificable(texto_marca(m)),
        valor_marca(texto_marca(m)) == m,
{
    let mi = m as int;
    let q1 = mi / 3600000;
    let r1 = mi % 3600000;
    let q2 = r1 / 60000;
    let r2 = r1 % 60000;
    let s_ = mi % 60000;
    let q3 = s_ / 1000;
    let r3 = mi % 1000;
    lemma_fundamental_div_mod(mi, 3600000);
    lemma_fundamental_div_mod(r1, 60000);
    lemma_fundamental_div_mod_converse(mi, 60000, 60 * q1 + q2, r2);
    assert(s_ == r2);
    lemma_fundamental_div_mod(s_, 1000);
    lemma_fundamental_div_mod_converse(mi, 1000, 3600 * q1 + 60 * q2 + s_ / 1000, s_ % 1000);
    assert(r3 == s_ % 1000);
    let ha = relleno(texto_decimal(q1), 2);
    let mn = relleno(texto_decimal(q2), 2);
    let se = relleno(texto_decimal(q3), 2);
    let ms = relleno(texto_decimal(r3), 3);
    lema_componente(q1, 2);
    lema_componente(q2, 2);
    lema_componente(q3, 2);
    lema_componente(r3, 3);
    lema_marca_compuesta(ha, mn, se, ms);
    let t = texto_marca(m);
    assert(t =~= union_marca(ha, mn, se, ms));
    assert(marca_valida(t));
    assert(valor_marca(t) == q1 * 3600000 + q2 * 60000 + q3 * 1000 + r3);
    assert(valor_marca(t) == mi);
}

/// Una marca válida es el armado de sus cuatro componentes.
proof fn lema_marca_descompuesta(s: Seq<char>)
    requires
        marca_valida(s),
    ensures
        s == union_marca(parte_horas(s), parte_minutos(s), parte_segundos(s), parte_mili(s)),
{
    lema_primer_indice(s, ',');
    lema_cuenta_cero(s, ',');
    let p = primer_indice(s, ',');
    assert(p < s.len());
    let reloj = parte_reloj(s);
    assert(s =~= reloj + seq![','] + parte_mili(s));
    lema_primer_indice(reloj, ':');
    lema_cuenta_cero(reloj, ':');
    let q1 = primer_indice(reloj, ':');
    assert(q1 < reloj.len());
    let resto = resto_reloj(s);
    assert(reloj =~= parte_horas(s) + seq![':'] + resto);
    lema_primer_indice(resto, ':');
    lema_cuenta_cero(resto, ':');
    let q2 = primer_indice(resto, ':');
    assert(cuenta(resto, ':') == 1) by {
        lema_cuenta_concat(parte_horas(s), seq![':'], ':');
        lema_cuenta_concat(parte_horas(s) + seq![':'], resto, ':');
        assert(parte_horas(s) + seq![':'] + resto =~= (parte_horas(s) + seq![':']) + resto);
        lema_cuenta_uno(':', ':');
        lema_cuenta_cero(parte_horas(s), ':');
        assert(forall|k: int| 0 <= k < q1 ==> reloj[k] != ':');
        assert(forall|k: int| 0 <= k < parte_horas(s).len() ==> parte_horas(s)[k] == reloj[k]);
    }
    assert(q2 < resto.len());
    assert(resto =~= parte_minutos(s) + seq![':'] + parte_segundos(s));
    assert(s =~= union_marca(parte_horas(s), parte_minutos(s), parte_segundos(s), parte_mili(s)));
}

/// Ley de vuelta e ida: codificar lo decodificado reproduce la cadena de
/// partida, siempre que cada componente llene exactamente su ancho (o lo
/// exceda sin ceros de sobra) y minutos, segundos y milisegundos no
/// desborden su unidad.
pub proof fn lema_codec_vuelta_ida(s: Seq<char>)
    requires
        marca_decodificable(s),
        forma_rellena(parte_horas(s), 2),
        forma_rellena(parte_minutos(s), 2),
        forma_rellena(parte_segundos(s), 2),
        forma_rellena(parte_mili(s), 3),
        valor_decimal(parte_minutos(s)) < 60,
        valor_decimal(parte_segundos(s)) < 60,
        valor_decimal(parte_mili(s)) < 1000,
    ensures
        texto_marca(valor_marca(s) as u64) == s,
{
    let ha = parte_horas(s);
    let mn = parte_minutos(s);
    let se = parte_segundos(s);
    let ms = parte_mili(s);
    assert(cuerpo_numerico(ha) == ha && cuerpo_numerico(mn) == mn && cuerpo_numerico(se) == se
        && cuerpo_numerico(ms) == ms) by {
        assert(es_digito(ha[0]) && es_digito(mn[0]) && es_digito(se[0]) && es_digito(ms[0]));
    }
    let vh = valor_decimal(ha);
    let vm = valor_decimal(mn);
    let vs = valor_decimal(se);
    let vz = valor_decimal(ms);
    lema_valor_decimal_no_negativo(ha);
    lema_valor_decimal_no_negativo(mn);
    lema_valor_decimal_no_negativo(se);
    lema_valor_decimal_no_negativo(ms);
    let m = valor_marca(s);
    assert(m == vh * 3600000 + vm * 60000 + vs * 1000 + vz);
    lemma_fundamental_div_mod_converse(m, 3600000, vh, vm * 60000 + vs * 1000 + vz);
    lemma_fundamental_div_mod_converse(m % 3600000, 60000, vm, vs * 1000 + vz);
    lemma_fundamental_div_mod_converse(m, 60000, 60 * vh + vm, vs * 1000 + vz);
    lemma_fundamental_div_mod_converse(m % 60000, 1000, vs, vz);
    lemma_fundamental_div_mod_converse(m, 1000, 3600 * vh + 60 * vm + vs, vz);
    lema_relleno_de_valor(ha, 2);
    lema_relleno_de_valor(mn, 2);
    lema_relleno_de_valor(se, 2);
    lema_relleno_de_valor(ms, 3);
    let mu = m as u64;
    assert(mu as int == m);
    assert(texto_marca(mu) =~= union_marca(ha, mn, se, ms));
    lema_marca_descompuesta(s);
}

/// Escribe un rango como `HH:MM:SS,mmm --> HH:MM:SS,mmm`.
pub fn marca_temporal_desde_indicador_temporal(indicador: &IndicadorTemporal) -> (r: String)
    ensures
        r@ == texto_marca(indicador.inicio) + sep_flecha() + texto_marca(indicador.fin),
{
    let mut r = milisegundos_a_marca_temporal(indicador.inicio);
    let flecha = " --> ";
    proof {
        reveal_strlit(" --> ");
        assert(flecha@ =~= sep_flecha());
    }
    r.append(flecha);
    let fin = milisegundos_a_marca_temporal(indicador.fin);
    r.append(fin.as_str());
    r
}

} // verus!
