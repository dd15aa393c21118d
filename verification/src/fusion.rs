//! Fusión de las dos pistas: concatenación, orden estable por tiempo de
//! inicio, numeración correlativa y escritura del texto SRT final.

use vstd::prelude::*;
use crate::texto::texto_decimal;
use crate::texto::texto_de_numero;
use crate::codec::{texto_marca, sep_flecha, marca_temporal_desde_indicador_temporal};
use crate::tipos::{ErrorSubtitulo, Posicion, Subtitulo, VistaSubtitulo, vista_subtitulos};

verus! {

// ---------------------------------------------------------------------------
// El orden estable por tiempo de inicio
// ---------------------------------------------------------------------------

/// Inserta `x` detrás de todos los elementos con inicio menor o igual:
/// recorre desde el final saltando los estrictamente mayores.
pub open spec fn insertar_ordenado(s: Seq<VistaSubtitulo>, x: VistaSubtitulo) -> Seq<
    VistaSubtitulo,
>
    decreases s.len(),
{
    if s.len() > 0 && s.last().inicio > x.inicio {
        insertar_ordenado(s.drop_last(), x).push(s.last())
    } else {
        s.push(x)
    }
}

/// El orden estable de `s` por tiempo de inicio: inserción uno a uno, de
/// izquierda a derecha.
pub open spec fn orden_estable(s: Seq<VistaSubtitulo>) -> Seq<VistaSubtitulo>
    decreases s.len(),
{
    if s.len() == 0 {
        Seq::empty()
    } else {
        insertar_ordenado(orden_estable(s.drop_last()), s.last())
    }
}

/// ¿Está `s` ordenada por tiempo de inicio, de menor a mayor?
pub open spec fn ordenada(s: Seq<VistaSubtitulo>) -> bool {
    forall|i: int, j: int| 0 <= i < j < s.len() ==> s[i].inicio <= s[j].inicio
}

/// La subsucesión de `s` cuyos elementos empiezan en `k`, en su orden.
pub open spec fn con_inicio(s: Seq<VistaSubtitulo>, k: u64) -> Seq<VistaSubtitulo>
    decreases s.len(),
{
    if s.len() == 0 {
        Seq::empty()
    } else if s.last().inicio == k {
        con_inicio(s.drop_last(), k).push(s.last())
    } else {
        con_inicio(s.drop_last(), k)
    }
}

/// La inserción estable es la partición en un punto: todo lo que queda a la
/// derecha de `x` empieza estrictamente después.
proof fn lema_insertar_en(s: Seq<VistaSubtitulo>, x: VistaSubtitulo, j: int)
    requires
        0 <= j <= s.len(),
        forall|k: int| j <= k < s.len() ==> s[k].inicio > x.inicio,
        j > 0 ==> s[j - 1].inicio <= x.inicio,
    ensures
        insertar_ordenado(s, x) == s.subrange(0, j) + seq![x] + s.subrange(j, s.len() as int),
    decreases s.len(),
{
    if j == s.len() {
        if s.len() > 0 {
            assert(s.last().inicio <= x.inicio);
        }
        assert(s.subrange(0, j) =~= s);
        assert(s.subrange(j, s.len() as int) =~= Seq::<VistaSubtitulo>::empty());
        assert(s + seq![x] + Seq::<VistaSubtitulo>::empty() =~= s.push(x));
    } else {
        let d = s.drop_last();
        assert(s.last().inicio > x.inicio);
        lema_insertar_en(d, x, j);
        assert(d.subrange(0, j) =~= s.subrange(0, j));
        assert((d.subrange(0, j) + seq![x] + d.subrange(j, d.len() as int)).push(s.last())
            =~= s.subrange(0, j) + seq![x] + s.subrange(j, s.len() as int));
    }
}

proof fn lema_insertar_ordenada(s: Seq<VistaSubtitulo>, x: VistaSubtitulo)
    requires
        ordenada(s),
    ensures
        ordenada(insertar_ordenado(s, x)),
        insertar_ordenado(s, x).len() == s.len() + 1,
    decreases s.len(),
{
    let p = posicion_insercion(s, x);
    lema_posicion_insercion(s, x);
    lema_insertar_en(s, x, p);
    let t = insertar_ordenado(s, x);
    assert forall|i: int, j: int| 0 <= i < j < t.len() implies t[i].inicio <= t[j].inicio by {
        if i < p {
            assert(t[i] == s[i]);
        } else if i == p {
            assert(t[i] == x);
        } else {
            assert(t[i] == s[i - 1]);
        }
        if j < p {
            assert(t[j] == s[j]);
        } else if j == p {
            assert(t[j] == x);
        } else {
            assert(t[j] == s[j - 1]);
        }
        if i < p && j == p && p > 0 {
            assert(s[i].inicio <= s[p - 1].inicio <= x.inicio);
        }
        if i == p && j > p {
            assert(s[j - 1].inicio > x.inicio);
        }
    }
}

/// El punto de inserción: el primer índice desde el final tal que todo lo
/// posterior empieza estrictamente después de `x`.
pub open spec fn posicion_insercion(s: Seq<VistaSubtitulo>, x: VistaSubtitulo) -> int
    decreases s.len(),
{
    if s.len() > 0 && s.last().inicio > x.inicio {
        posicion_insercion(s.drop_last(), x)
    } else {
        s.len() as int
    }
}

proof fn lema_posicion_insercion(s: Seq<VistaSubtitulo>, x: VistaSubtitulo)
    ensures
        0 <= posicion_insercion(s, x) <= s.len(),
        forall|k: int| posicion_insercion(s, x) <= k < s.len() ==> s[k].inicio > x.inicio,
        posicion_insercion(s, x) > 0 ==> s[posicion_insercion(s, x) - 1].inicio <= x.inicio,
    decreases s.len(),
{
    if s.len() > 0 && s.last().inicio > x.inicio {
        let d = s.drop_last();
        lema_posicion_insercion(d, x);
        let p = posicion_insercion(s, x);
        assert forall|k: int| p <= k < s.len() implies s[k].inicio > x.inicio by {
            if k < s.len() - 1 {
                assert(s[k] == d[k]);
            }
        }
        if p > 0 {
            assert(s[p - 1] == d[p - 1]);
        }
    }
}

/// Ley de orden: el resultado de `orden_estable` está ordenado por tiempo
/// de inicio y conserva la longitud.
pub proof fn lema_orden_estable_ordenada(s: Seq<VistaSubtitulo>)
    ensures
        ordenada(orden_estable(s)),
        orden_estable(s).len() == s.len(),
    decreases s.len(),
{
    if s.len() > 0 {
        lema_orden_estable_ordenada(s.drop_last());
        lema_insertar_ordenada(orden_estable(s.drop_last()), s.last());
    }
}

proof fn lema_insertar_con_inicio(s: Seq<VistaSubtitulo>, x: VistaSubtitulo, k: u64)
    ensures
        con_inicio(insertar_ordenado(s, x), k) == if x.inicio == k {
            con_inicio(s, k).push(x)
        } else {
            con_inicio(s, k)
        },
    decreases s.len(),
{
    if s.len() > 0 && s.last().inicio > x.inicio {
        let d = s.drop_last();
        let t = insertar_ordenado(d, x).push(s.last());
        lema_insertar_con_inicio(d, x, k);
        assert(t.drop_last() =~= insertar_ordenado(d, x));
        assert(t.last() == s.last());
    } else {
        let t = s.push(x);
        assert(t.drop_last() =~= s);
        assert(t.last() == x);
    }
}

/// Ley de estabilidad: para cada tiempo de inicio `k`, la subsucesión de
/// los subtítulos que empiezan en `k` sale de `orden_estable` exactamente
/// como entró: dos subtítulos con el mismo inicio conservan su orden
/// relativo, el de la concatenación superior-antes-que-inferior.
pub proof fn lema_orden_estable_estable(s: Seq<VistaSubtitulo>, k: u64)
    ensures
        con_inicio(orden_estable(s), k) == con_inicio(s, k),
    decreases s.len(),
{
    if s.len() > 0 {
        let d = s.drop_last();
        lema_orden_estable_estable(d, k);
        lema_insertar_con_inicio(orden_estable(d), s.last(), k);
    }
}

/// Una sucesión ya ordenada queda igual.
pub proof fn lema_orden_estable_fija(s: Seq<VistaSubtitulo>)
    requires
        ordenada(s),
    ensures
        orden_estable(s) == s,
    decreases s.len(),
{
    if s.len() > 0 {
        let d = s.drop_last();
        assert(ordenada(d));
        lema_orden_estable_fija(d);
        if d.len() > 0 {
            assert(d.last() == s[s.len() - 2]);
            assert(d.last().inicio <= s.last().inicio);
        }
        assert(insertar_ordenado(d, s.last()) == d.push(s.last()));
        assert(d.push(s.last()) =~= s);
    }
}

/// Ley de idempotencia: ordenar dos veces es ordenar una.
pub proof fn lema_orden_estable_idempotente(s: Seq<VistaSubtitulo>)
    ensures
        orden_estable(orden_estable(s)) == orden_estable(s),
{
    lema_orden_estable_ordenada(s);
    lema_orden_estable_fija(orden_estable(s));
}

// ---------------------------------------------------------------------------
// La escritura del archivo combinado
// ---------------------------------------------------------------------------

/// El código de posición que se antepone al contenido: `{\an8}` arriba,
/// `{\an2}` abajo. Ambos literales son superficie de contrato exacta.
pub open spec fn codigo_posicion(p: Posicion) -> Seq<char> {
    match p {
        Posicion::Superior => seq!['{', '\\', 'a', 'n', '8', '}'],
        Posicion::Inferior => seq!['{', '\\', 'a', 'n', '2', '}'],
    }
}

/// Un bloque del archivo final: identificador, rango, código de posición
/// pegado al contenido, y una línea en blanco de separación.
pub open spec fn renderizar_subtitulo(v: VistaSubtitulo, id: int) -> Seq<char> {
    texto_decimal(id) + seq!['\n'] + texto_marca(v.inicio) + sep_flecha() + texto_marca(v.fin)
        + seq!['\n'] + codigo_posicion(v.posicion) + v.contenido + seq!['\n', '\n']
}

/// El texto completo: los bloques seguidos, numerados desde `id`.
pub open spec fn renderizar(s: Seq<VistaSubtitulo>, id: int) -> Seq<char>
    decreases s.len(),
{
    if s.len() == 0 {
        Seq::empty()
    } else {
        renderizar_subtitulo(s[0], id) + renderizar(s.drop_first(), id + 1)
    }
}

/// Une las dos pistas: concatena la superior y luego la inferior, ordena
/// de forma estable por tiempo de inicio, numera desde 1 y escribe el
/// texto SRT. Falla con `EmptyResult` si y solo si ninguna pista aporta
/// subtítulos.
#[verifier::rlimit(100)]
pub fn unir_y_renderizar(superior: Vec<Subtitulo>, inferior: Vec<Subtitulo>) -> (r: Result<
    String,
    ErrorSubtitulo,
>)
    ensures
        r is Ok <==> superior@.len() + inferior@.len() > 0,
        r matches Ok(texto) ==> texto@ == renderizar(
            orden_estable(vista_subtitulos(superior@ + inferior@)),
            1,
        ),
        r matches Err(e) ==> e == ErrorSubtitulo::EmptyResult,
{
    let mut todos = superior;
    let mut resto = inferior;
    todos.append(&mut resto);
    if todos.len() == 0 {
        return Err(ErrorSubtitulo::EmptyResult);
    }
    let ghost entrada = vista_subtitulos(todos@);
    let total = todos.len();
    let mut ordenados: Vec<Subtitulo> = Vec::new();
    proof {
        assert(vista_subtitulos(todos@) =~= entrada.subrange(0, entrada.len() as int));
        assert(vista_subtitulos(ordenados@) =~= orden_estable(entrada.subrange(0, 0)));
    }
    while todos.len() > 0
        invariant
            entrada.len() == total,
            todos@.len() <= total,
            vista_subtitulos(todos@) == entrada.subrange(
                total - todos@.len(),
                entrada.len() as int,
            ),
            vista_subtitulos(ordenados@) == orden_estable(
                entrada.subrange(0, total - todos@.len()),
            ),
        decreases todos@.len(),
    {
        let ghost hecho = total - todos@.len();
        let ghost pendientes = todos@;
        let x = todos.remove(0);
        proof {
            assert(x@ == vista_subtitulos(pendientes)[0]);
            assert(x@ == entrada[hecho]);
            assert(todos@ =~= pendientes.drop_first());
            assert forall|k: int| 0 <= k < todos@.len() implies vista_subtitulos(todos@)[k]
                == entrada.subrange(hecho + 1, entrada.len() as int)[k] by {
                assert(todos@[k] == pendientes[k + 1]);
                assert(vista_subtitulos(pendientes)[k + 1] == pendientes[k + 1]@);
            }
            assert(vista_subtitulos(todos@) =~= entrada.subrange(hecho + 1, entrada.len() as int));
        }
        let mut j: usize = ordenados.len();
        while j > 0 && ordenados[j - 1].tiempo.inicio > x.tiempo.inicio
            invariant
                j <= ordenados@.len(),
                forall|k: int|
                    j <= k < ordenados@.len() ==> ordenados@[k].tiempo.inicio > x.tiempo.inicio,
            decreases j,
        {
            j -= 1;
        }
        let ghost vista_vieja = vista_subtitulos(ordenados@);
        proof {
            assert forall|k: int| j <= k < vista_vieja.len() implies vista_vieja[k].inicio
                > x@.inicio by {
                assert(vista_vieja[k] == ordenados@[k]@);
            }
            if j > 0 {
                assert(vista_vieja[j - 1] == ordenados@[j - 1]@);
            }
            lema_insertar_en(vista_vieja, x@, j as int);
        }
        ordenados.insert(j, x);
        proof {
            assert(vista_subtitulos(ordenados@) =~= vista_vieja.subrange(0, j as int) + seq![x@]
                + vista_vieja.subrange(j as int, vista_vieja.len() as int));
            assert(entrada.subrange(0, hecho + 1).drop_last() =~= entrada.subrange(0, hecho));
            assert(entrada.subrange(0, hecho + 1).last() == entrada[hecho]);
            assert(orden_estable(entrada.subrange(0, hecho + 1)) == insertar_ordenado(
                orden_estable(entrada.subrange(0, hecho)),
                entrada[hecho],
            ));
        }
    }
    proof {
        assert(entrada.subrange(0, total as int) =~= entrada);
    }
    let ghost finales = orden_estable(entrada);
    let mut salida = String::new();
    let n = ordenados.len();
    proof {
        lema_orden_estable_ordenada(entrada);
        assert(vista_subtitulos(ordenados@).len() == n);
        assert(finales.subrange(0, finales.len() as int) =~= finales);
        assert(salida@ + renderizar(finales.subrange(0, finales.len() as int), 1) =~= renderizar(
            finales,
            1,
        ));
    }
    let mut i: usize = 0;
    while i < n
        invariant
            i <= n,
            n == ordenados@.len(),
            vista_subtitulos(ordenados@) == finales,
            renderizar(finales, 1) == salida@ + renderizar(
                finales.subrange(i as int, finales.len() as int),
                i + 1,
            ),
        decreases n - i,
    {
        let ghost tramo = finales.subrange(i as int, finales.len() as int);
        proof {
            assert(tramo[0] == ordenados@[i as int]@);
            assert(tramo.drop_first() =~= finales.subrange(i + 1, finales.len() as int));
            assert(renderizar(tramo, i + 1) == renderizar_subtitulo(tramo[0], i + 1) + renderizar(
                tramo.drop_first(),
                i + 2,
            ));
        }
        let ghost antes = salida@;
        let numero = texto_de_numero((i as u64) + 1);
        let salto = "\n";
        proof {
            reveal_strlit("\n");
            assert(salto@ =~= seq!['\n']);
        }
        let marca = marca_temporal_desde_indicador_temporal(&ordenados[i].tiempo);
        let codigo = if ordenados[i].posicion == Posicion::Superior {
            r"{\an8}"
        } else {
            r"{\an2}"
        };
        proof {
            reveal_strlit(r"{\an8}");
            reveal_strlit(r"{\an2}");
            assert(codigo@ =~= codigo_posicion(tramo[0].posicion));
        }
        salida.append(numero.as_str());
        salida.append(salto);
        salida.append(marca.as_str());
        salida.append(salto);
        salida.append(codigo);
        salida.append(ordenados[i].contenido.as_str());
        salida.append(salto);
        salida.append(salto);
        proof {
            assert(salida@ =~= antes + renderizar_subtitulo(tramo[0], i + 1));
        }
        i += 1;
    }
    proof {
        assert(finales.subrange(n as int, finales.len() as int).len() == 0);
        assert(salida@ =~= renderizar(finales, 1));
    }
    Ok(salida)
}

} // verus!
