//! Utilidades verificadas sobre sucesiones de caracteres: numerales
//! decimales, búsqueda de separadores y división en líneas.

use vstd::prelude::*;

verus! {

// ---------------------------------------------------------------------------
// Numerales decimales
// ---------------------------------------------------------------------------

/// ¿Es `c` un dígito decimal?
pub open spec fn es_digito(c: char) -> bool {
    '0' <= c && c <= '9'
}

/// Valor numérico de un dígito decimal.
pub open spec fn valor_digito(c: char) -> int {
    c as int - 48
}

/// El carácter que representa el dígito `d`.
pub open spec fn char_digito(d: int) -> char {
    if d == 0 {
        '0'
    } else if d == 1 {
        '1'
    } else if d == 2 {
        '2'
    } else if d == 3 {
        '3'
    } else if d == 4 {
        '4'
    } else if d == 5 {
        '5'
    } else if d == 6 {
        '6'
    } else if d == 7 {
        '7'
    } else if d == 8 {
        '8'
    } else {
        '9'
    }
}

/// ¿Consta `s` solo de dígitos decimales?
pub open spec fn son_digitos(s: Seq<char>) -> bool {
    forall|i: int| 0 <= i < s.len() ==> es_digito(#[trigger] s[i])
}

/// Valor del numeral decimal `s`, con las cifras de mayor a menor peso.
pub open spec fn valor_decimal(s: Seq<char>) -> int
    decreases s.len(),
{
    if s.len() == 0 {
        0
    } else {
        valor_decimal(s.drop_last()) * 10 + valor_digito(s.last())
    }
}

/// El numeral sin un signo `+` inicial, si lo lleva. `str::parse::<u64>`
/// admite ese signo opcional delante de las cifras.
pub open spec fn cuerpo_numerico(s: Seq<char>) -> Seq<char> {
    if s.len() > 0 && s[0] == '+' {
        s.drop_first()
    } else {
        s
    }
}

/// ¿Acepta `str::parse::<u64>` la cadena `s`? Un signo `+` opcional, al
/// menos una cifra, solo cifras, y un valor representable en `u64`.
pub open spec fn es_numero_u64(s: Seq<char>) -> bool {
    let d = cuerpo_numerico(s);
    d.len() > 0 && son_digitos(d) && valor_decimal(d) <= u64::MAX
}

/// Numeral decimal de `n`, sin ceros a la izquierda.
pub open spec fn texto_decimal(n: int) -> Seq<char>
    decreases n,
{
    if n < 10 {
        seq![char_digito(n)]
    } else {
        texto_decimal(n / 10).push(char_digito(n % 10))
    }
}

/// `n` ceros seguidos.
pub open spec fn ceros(n: int) -> Seq<char>
    decreases n,
{
    if n <= 0 {
        Seq::empty()
    } else {
        seq!['0'] + ceros(n - 1)
    }
}

/// `s` completado con ceros por la izquierda hasta el ancho `ancho`.
pub open spec fn relleno(s: Seq<char>, ancho: int) -> Seq<char> {
    ceros(ancho - s.len()) + s
}

/// ¿Tiene el numeral `s` la forma que produce `relleno(texto_decimal(v), ancho)`
/// para algún `v`? Solo cifras, al menos `ancho`, y sin ceros sobrantes.
pub open spec fn forma_rellena(s: Seq<char>, ancho: int) -> bool {
    &&& son_digitos(s)
    &&& 1 <= ancho
    &&& s.len() >= ancho
    &&& (s.len() == ancho || s[0] != '0')
}

/// `s` sin los ceros iniciales, conservando al menos una cifra.
pub open spec fn quita_ceros(s: Seq<char>) -> Seq<char>
    decreases s.len(),
{
    if s.len() <= 1 || s[0] != '0' {
        s
    } else {
        quita_ceros(s.drop_first())
    }
}

pub proof fn lema_valor_decimal_no_negativo(s: Seq<char>)
    requires
        son_digitos(s),
    ensures
        0 <= valor_decimal(s),
    decreases s.len(),
{
    if s.len() > 0 {
        assert(son_digitos(s.drop_last()));
        lema_valor_decimal_no_negativo(s.drop_last());
    }
}

/// El valor de un prefijo nunca supera el del numeral entero.
pub proof fn lema_valor_prefijo(s: Seq<char>, i: int)
    requires
        son_digitos(s),
        0 <= i <= s.len(),
    ensures
        valor_decimal(s.subrange(0, i)) <= valor_decimal(s),
    decreases s.len(),
{
    if i == s.len() {
        assert(s.subrange(0, i) =~= s);
    } else {
        let r = s.drop_last();
        assert(son_digitos(r));
        lema_valor_prefijo(r, i);
        assert(r.subrange(0, i) =~= s.subrange(0, i));
        lema_valor_decimal_no_negativo(r);
    }
}

/// Propiedades del numeral de `n`: son cifras, recupera `n`, y no empieza
/// por cero salvo el propio `0`.
pub proof fn lema_texto_decimal(n: int)
    requires
        0 <= n,
    ensures
        son_digitos(texto_decimal(n)),
        valor_decimal(texto_decimal(n)) == n,
        texto_decimal(n).len() >= 1,
        n >= 1 ==> texto_decimal(n)[0] != '0',
        n <= 9 ==> texto_decimal(n) =~= seq![char_digito(n)],
    decreases n,
{
    if n < 10 {
        assert(valor_decimal(seq![char_digito(n)].drop_last()) == 0);
    } else {
        lema_texto_decimal(n / 10);
        let t = texto_decimal(n / 10);
        let c = char_digito(n % 10);
        assert(t.push(c).drop_last() =~= t);
        assert(t.push(c).last() == c);
        assert(son_digitos(t.push(c))) by {
            assert(forall|i: int| 0 <= i < t.len() ==> t.push(c)[i] == t[i]);
        }
        assert(t.push(c)[0] == t[0]);
    }
}

/// Quitar un cero inicial no cambia el valor.
pub proof fn lema_valor_cero_inicial(s: Seq<char>)
    requires
        s.len() >= 1,
        s[0] == '0',
    ensures
        valor_decimal(s.drop_first()) == valor_decimal(s),
    decreases s.len(),
{
    if s.len() == 1 {
        assert(s.drop_first() =~= Seq::<char>::empty());
        assert(valor_decimal(s.drop_first()) == 0);
        assert(s.drop_last().len() == 0);
        assert(valor_decimal(s.drop_last()) == 0);
        assert(valor_decimal(s) == valor_digito(s.last()));
    } else {
        let r = s.drop_last();
        let a = s.drop_first();
        lema_valor_cero_inicial(r);
        assert(a.drop_last() =~= r.drop_first());
        assert(a.last() == s.last());
        assert(valor_decimal(a) == valor_decimal(a.drop_last()) * 10 + valor_digito(a.last()));
        assert(valor_decimal(s) == valor_decimal(r) * 10 + valor_digito(s.last()));
    }
}

pub proof fn lema_quita_ceros(s: Seq<char>)
    requires
        son_digitos(s),
        s.len() >= 1,
    ensures
        son_digitos(quita_ceros(s)),
        1 <= quita_ceros(s).len() <= s.len(),
        valor_decimal(quita_ceros(s)) == valor_decimal(s),
        quita_ceros(s).len() == 1 || quita_ceros(s)[0] != '0',
        relleno(quita_ceros(s), s.len() as int) == s,
    decreases s.len(),
{
    if s.len() <= 1 || s[0] != '0' {
        assert(ceros(0) =~= Seq::<char>::empty());
        assert(relleno(s, s.len() as int) =~= s);
    } else {
        let r = s.drop_first();
        assert(son_digitos(r));
        lema_quita_ceros(r);
        lema_valor_cero_inicial(s);
        let q = quita_ceros(s);
        assert(q == quita_ceros(r));
        assert(ceros(s.len() - q.len()) =~= seq!['0'] + ceros(r.len() - q.len()));
        assert(relleno(q, s.len() as int) =~= seq!['0'] + relleno(q, r.len() as int));
        assert(seq!['0'] + r =~= s);
    }
}

/// Un numeral que no empieza por `0` vale al menos 1.
pub proof fn lema_valor_minimo(s: Seq<char>)
    requires
        son_digitos(s),
        s.len() >= 1,
        s[0] != '0',
    ensures
        valor_decimal(s) >= 1,
    decreases s.len(),
{
    if s.len() == 1 {
        assert(es_digito(s[0]));
        assert(s.drop_last().len() == 0);
        assert(valor_decimal(s.drop_last()) == 0);
        assert(valor_decimal(s) == valor_digito(s.last()));
    } else {
        let r = s.drop_last();
        assert(son_digitos(r));
        assert(r[0] == s[0]);
        lema_valor_minimo(r);
        assert(es_digito(s.last()));
        assert(valor_decimal(s) == valor_decimal(r) * 10 + valor_digito(s.last()));
    }
}

/// Un numeral sin ceros iniciales es el numeral de su valor: la
/// representación decimal es única.
pub proof fn lema_texto_de_valor(s: Seq<char>)
    requires
        son_digitos(s),
        s.len() >= 1,
        s.len() == 1 || s[0] != '0',
    ensures
        texto_decimal(valor_decimal(s)) == s,
    decreases s.len(),
{
    lema_valor_decimal_no_negativo(s);
    if s.len() == 1 {
        let c = s[0];
        assert(es_digito(c));
        assert(s.drop_last().len() == 0);
        assert(valor_decimal(s.drop_last()) == 0);
        assert(valor_decimal(s) == valor_digito(c));
        assert(char_digito(valor_digito(c)) == c);
        assert(texto_decimal(valor_digito(c)) =~= s);
    } else {
        let r = s.drop_last();
        let c = s.last();
        assert(son_digitos(r));
        assert(es_digito(c));
        assert(r[0] == s[0]);
        lema_valor_minimo(r);
        lema_valor_decimal_no_negativo(r);
        lema_texto_de_valor(r);
        let v = valor_decimal(s);
        let vr = valor_decimal(r);
        assert(v == vr * 10 + valor_digito(c));
        assert(0 <= valor_digito(c) <= 9);
        assert(v / 10 == vr && v % 10 == valor_digito(c)) by (nonlinear_arith)
            requires
                v == vr * 10 + valor_digito(c),
                0 <= valor_digito(c) <= 9,
                vr >= 1,
        ;
        assert(v >= 10);
        assert(char_digito(valor_digito(c)) == c);
        assert(texto_decimal(v) =~= r.push(c));
        assert(r.push(c) =~= s);
    }
}

/// La reconstrucción exacta: un numeral con la forma rellena es el relleno
/// del numeral de su valor.
pub proof fn lema_relleno_de_valor(s: Seq<char>, ancho: int)
    requires
        forma_rellena(s, ancho),
    ensures
        relleno(texto_decimal(valor_decimal(s)), ancho) == s,
{
    lema_quita_ceros(s);
    let q = quita_ceros(s);
    if s[0] != '0' {
        assert(q =~= s);
        lema_texto_de_valor(s);
        assert(ceros(ancho - s.len()) =~= Seq::<char>::empty());
        assert(relleno(s, ancho) =~= s);
    } else {
        assert(s.len() == ancho);
        lema_texto_de_valor(q);
        assert(relleno(texto_decimal(valor_decimal(s)), ancho) == relleno(q, s.len() as int));
    }
}

pub proof fn lema_ceros(n: int)
    ensures
        son_digitos(ceros(n)),
        ceros(n).len() == if n <= 0 { 0int } else { n },
    decreases n,
{
    if n > 0 {
        lema_ceros(n - 1);
    }
}

pub proof fn lema_ceros_detras(n: int)
    requires
        n >= 0,
    ensures
        ceros(n + 1) == ceros(n).push('0'),
    decreases n,
{
    if n == 0 {
        assert(ceros(1) =~= ceros(0).push('0'));
    } else {
        lema_ceros_detras(n - 1);
        assert(ceros(n + 1) =~= (seq!['0'] + ceros(n - 1)).push('0'));
        assert((seq!['0'] + ceros(n - 1)).push('0') =~= ceros(n).push('0'));
    }
}

/// El relleno con ceros no cambia el valor del numeral.
pub proof fn lema_valor_relleno(s: Seq<char>, ancho: int)
    ensures
        valor_decimal(relleno(s, ancho)) == valor_decimal(s),
        son_digitos(s) ==> son_digitos(relleno(s, ancho)),
        relleno(s, ancho).len() >= s.len(),
        relleno(s, ancho).len() >= ancho,
    decreases ancho,
{
    lema_ceros(ancho - s.len());
    if ancho - s.len() <= 0 {
        assert(relleno(s, ancho) =~= s);
    } else {
        lema_valor_relleno(s, ancho - 1);
        assert(relleno(s, ancho) =~= seq!['0'] + relleno(s, ancho - 1));
        lema_valor_cero_inicial(seq!['0'] + relleno(s, ancho - 1));
        assert((seq!['0'] + relleno(s, ancho - 1)).drop_first() =~= relleno(s, ancho - 1));
        if son_digitos(s) {
            lema_ceros(ancho - s.len());
        }
    }
}

// ---------------------------------------------------------------------------
// Búsqueda de un carácter y de una subcadena
// ---------------------------------------------------------------------------

/// Número de apariciones de `c` en `s`.
pub open spec fn cuenta(s: Seq<char>, c: char) -> nat
    decreases s.len(),
{
    if s.len() == 0 {
        0
    } else {
        (if s[0] == c {
            1nat
        } else {
            0nat
        }) + cuenta(s.drop_first(), c)
    }
}

/// Índice de la primera aparición de `c` en `s`; `s.len()` si no aparece.
pub open spec fn primer_indice(s: Seq<char>, c: char) -> int
    decreases s.len(),
{
    if s.len() == 0 {
        0
    } else if s[0] == c {
        0
    } else {
        1 + primer_indice(s.drop_first(), c)
    }
}

pub proof fn lema_primer_indice(s: Seq<char>, c: char)
    ensures
        0 <= primer_indice(s, c) <= s.len(),
        primer_indice(s, c) < s.len() ==> s[primer_indice(s, c)] == c,
        forall|k: int| 0 <= k < primer_indice(s, c) ==> s[k] != c,
    decreases s.len(),
{
    if s.len() > 0 && s[0] != c {
        let r = s.drop_first();
        lema_primer_indice(r, c);
        let p = primer_indice(s, c);
        assert(p == 1 + primer_indice(r, c));
        if p < s.len() {
            assert(s[p] == r[p - 1]);
        }
        assert forall|k: int| 0 <= k < p implies s[k] != c by {
            if k >= 1 {
                assert(s[k] == r[k - 1]);
            }
        }
    }
}

pub proof fn lema_primer_indice_es(s: Seq<char>, c: char, p: int)
    requires
        0 <= p < s.len(),
        s[p] == c,
        forall|k: int| 0 <= k < p ==> s[k] != c,
    ensures
        primer_indice(s, c) == p,
    decreases s.len(),
{
    if p > 0 {
        let r = s.drop_first();
        assert(forall|k: int| 0 <= k < r.len() ==> r[k] == s[k + 1]);
        lema_primer_indice_es(r, c, p - 1);
    }
}

pub proof fn lema_cuenta_detras(s: Seq<char>, c: char, x: char)
    ensures
        cuenta(s.push(x), c) == cuenta(s, c) + (if x == c { 1nat } else { 0nat }),
    decreases s.len(),
{
    let t = s.push(x);
    assert(cuenta(t, c) == (if t[0] == c {
        1nat
    } else {
        0nat
    }) + cuenta(t.drop_first(), c));
    if s.len() == 0 {
        assert(t[0] == x);
        assert(t.drop_first() =~= Seq::<char>::empty());
        assert(cuenta(t.drop_first(), c) == 0);
        assert(cuenta(s, c) == 0);
    } else {
        assert(t[0] == s[0]);
        assert(t.drop_first() =~= s.drop_first().push(x));
        lema_cuenta_detras(s.drop_first(), c, x);
        assert(cuenta(s, c) == (if s[0] == c {
            1nat
        } else {
            0nat
        }) + cuenta(s.drop_first(), c));
    }
}

pub proof fn lema_cuenta_concat(a: Seq<char>, b: Seq<char>, c: char)
    ensures
        cuenta(a + b, c) == cuenta(a, c) + cuenta(b, c),
    decreases b.len(),
{
    if b.len() == 0 {
        assert(a + b =~= a);
    } else {
        let r = b.drop_last();
        lema_cuenta_concat(a, r, c);
        assert(a + b =~= (a + r).push(b.last()));
        assert(b =~= r.push(b.last()));
        lema_cuenta_detras(a + r, c, b.last());
        lema_cuenta_detras(r, c, b.last());
    }
}

pub proof fn lema_cuenta_cero(s: Seq<char>, c: char)
    ensures
        (cuenta(s, c) == 0) <==> (forall|k: int| 0 <= k < s.len() ==> s[k] != c),
    decreases s.len(),
{
    if s.len() > 0 {
        lema_cuenta_cero(s.drop_first(), c);
        assert(forall|k: int| 0 <= k < s.drop_first().len() ==> s.drop_first()[k] == s[k + 1]);
        if s[0] != c && (forall|k: int| 0 <= k < s.drop_first().len() ==> s.drop_first()[k] != c) {
            assert(forall|k: int| 0 <= k < s.len() ==> s[k] != c) by {
                assert(forall|k: int| 1 <= k < s.len() ==> s[k] == s.drop_first()[k - 1]);
            }
        }
    }
}

/// Los dígitos no son ningún separador del formato.
pub proof fn lema_digitos_sin(s: Seq<char>, c: char)
    requires
        son_digitos(s),
        !es_digito(c),
    ensures
        cuenta(s, c) == 0,
        forall|k: int| 0 <= k < s.len() ==> s[k] != c,
{
    lema_cuenta_cero(s, c);
}

/// ¿Aparece `sep` en `s` empezando en la posición `k`?
pub open spec fn coincide_en(s: Seq<char>, sep: Seq<char>, k: int) -> bool {
    &&& 0 <= k
    &&& k + sep.len() <= s.len()
    &&& s.subrange(k, k + sep.len() as int) == sep
}

/// Posición de la primera aparición de `sep` en `s`; `s.len()` si no hay.
pub open spec fn primer_sub(s: Seq<char>, sep: Seq<char>) -> int
    decreases s.len(),
{
    if coincide_en(s, sep, 0) {
        0
    } else if s.len() == 0 {
        0
    } else {
        1 + primer_sub(s.drop_first(), sep)
    }
}

pub proof fn lema_desplaza_coincide(s: Seq<char>, sep: Seq<char>, k: int)
    requires
        s.len() >= 1,
        k >= 0,
    ensures
        coincide_en(s.drop_first(), sep, k) <==> coincide_en(s, sep, k + 1),
{
    if k + 1 + sep.len() <= s.len() {
        assert(s.drop_first().subrange(k, k + sep.len() as int) =~= s.subrange(
            k + 1,
            k + 1 + sep.len() as int,
        ));
    }
}

pub proof fn lema_primer_sub(s: Seq<char>, sep: Seq<char>)
    requires
        sep.len() >= 1,
    ensures
        0 <= primer_sub(s, sep) <= s.len(),
        primer_sub(s, sep) < s.len() ==> coincide_en(s, sep, primer_sub(s, sep)),
        forall|k: int| 0 <= k < primer_sub(s, sep) ==> !coincide_en(s, sep, k),
        primer_sub(s, sep) == s.len() ==> forall|k: int| !coincide_en(s, sep, k),
    decreases s.len(),
{
    if !coincide_en(s, sep, 0) && s.len() > 0 {
        lema_primer_sub(s.drop_first(), sep);
        let p = primer_sub(s, sep);
        assert forall|k: int| 0 <= k < p implies !coincide_en(s, sep, k) by {
            if k > 0 {
                lema_desplaza_coincide(s, sep, k - 1);
            }
        }
        if p < s.len() {
            lema_desplaza_coincide(s, sep, p - 1);
        }
        if p == s.len() {
            assert forall|k: int| !coincide_en(s, sep, k) by {
                if k >= 1 {
                    lema_desplaza_coincide(s, sep, k - 1);
                }
            }
        }
    }
}

pub proof fn lema_primer_sub_es(s: Seq<char>, sep: Seq<char>, p: int)
    requires
        sep.len() >= 1,
        coincide_en(s, sep, p),
        forall|k: int| 0 <= k < p ==> !coincide_en(s, sep, k),
    ensures
        primer_sub(s, sep) == p,
    decreases s.len(),
{
    if p > 0 {
        let r = s.drop_first();
        lema_desplaza_coincide(s, sep, p - 1);
        assert forall|k: int| 0 <= k < p - 1 implies !coincide_en(r, sep, k) by {
            lema_desplaza_coincide(s, sep, k);
        }
        lema_primer_sub_es(r, sep, p - 1);
    }
}

// ---------------------------------------------------------------------------
// Funciones ejecutables sobre numerales
// ---------------------------------------------------------------------------

/// Lee un entero decimal como lo hace `str::parse::<u64>`: signo `+`
/// opcional, solo cifras, y sin desbordar `u64`.
pub fn parsear_numero(s: &str) -> (r: Option<u64>)
    ensures
        r is Some <==> es_numero_u64(s@),
        r matches Some(v) ==> v == valor_decimal(cuerpo_numerico(s@)),
{
    let n = s.unicode_len();
    let mut i: usize = 0;
    if n > 0 && s.get_char(0) == '+' {
        i = 1;
    }
    proof {
        assert(cuerpo_numerico(s@) =~= s@.subrange(i as int, n as int));
    }
    if i >= n {
        assert(cuerpo_numerico(s@).len() == 0);
        return None;
    }
    let ghost cuerpo = s@.subrange(i as int, n as int);
    let mut acc: u64 = 0;
    let mut j: usize = i;
    while j < n
        invariant
            i <= j <= n,
            n == s@.len(),
            i <= 1,
            cuerpo == s@.subrange(i as int, n as int),
            cuerpo == cuerpo_numerico(s@),
            cuerpo.len() > 0,
            son_digitos(s@.subrange(i as int, j as int)),
            acc == valor_decimal(s@.subrange(i as int, j as int)),
        decreases n - j,
    {
        let c = s.get_char(j);
        let ghost previo = s@.subrange(i as int, j as int);
        proof {
            assert(s@.subrange(i as int, j + 1) =~= previo.push(c));
            assert(cuerpo[j - i] == c);
            assert(previo.push(c).drop_last() =~= previo);
            assert(previo.push(c).last() == c);
            assert(valor_decimal(previo.push(c)) == valor_decimal(previo) * 10 + valor_digito(c));
        }
        if !(c >= '0' && c <= '9') {
            assert(!son_digitos(cuerpo));
            return None;
        }
        let d: u64 = (c as u32 - 48) as u64;
        assert(d == valor_digito(c));
        proof {
            assert(son_digitos(previo.push(c))) by {
                assert(forall|k: int| 0 <= k < previo.len() ==> previo.push(c)[k] == previo[k]);
            }
        }
        if acc > (u64::MAX - d) / 10 {
            proof {
                let tope = u64::MAX as int;
                assert(acc * 10 + d > tope) by (nonlinear_arith)
                    requires
                        acc > (tope - d) / 10,
                        0 <= d <= 9,
                        0 <= acc,
                        tope == u64::MAX as int,
                ;
                assert(valor_decimal(previo.push(c)) == acc * 10 + d);
                if son_digitos(cuerpo) {
                    lema_valor_prefijo(cuerpo, j + 1 - i);
                    assert(cuerpo.subrange(0, j + 1 - i) =~= previo.push(c));
                    assert(valor_decimal(cuerpo) > u64::MAX);
                }
            }
            return None;
        }
        proof {
            let tope = u64::MAX as int;
            assert(acc * 10 + d <= tope) by (nonlinear_arith)
                requires
                    acc <= (tope - d) / 10,
                    0 <= d <= 9,
                    0 <= acc,
                    tope == u64::MAX as int,
            ;
        }
        acc = acc * 10 + d;
        j += 1;
    }
    proof {
        assert(s@.subrange(i as int, n as int) == cuerpo);
    }
    Some(acc)
}

/// Un dígito como cadena de un carácter.
fn digito_a_texto(d: u64) -> (r: &'static str)
    requires
        d < 10,
    ensures
        r@ =~= seq![char_digito(d as int)],
{
    if d == 0 {
        let r = "0";
        proof {
            reveal_strlit("0");
        }
        r
    } else if d == 1 {
        let r = "1";
        proof {
            reveal_strlit("1");
        }
        r
    } else if d == 2 {
        let r = "2";
        proof {
            reveal_strlit("2");
        }
        r
    } else if d == 3 {
        let r = "3";
        proof {
            reveal_strlit("3");
        }
        r
    } else if d == 4 {
        let r = "4";
        proof {
            reveal_strlit("4");
        }
        r
    } else if d == 5 {
        let r = "5";
        proof {
            reveal_strlit("5");
        }
        r
    } else if d == 6 {
        let r = "6";
        proof {
            reveal_strlit("6");
        }
        r
    } else if d == 7 {
        let r = "7";
        proof {
            reveal_strlit("7");
        }
        r
    } else if d == 8 {
        let r = "8";
        proof {
            reveal_strlit("8");
        }
        r
    } else {
        let r = "9";
        proof {
            reveal_strlit("9");
        }
        r
    }
}

/// Numeral decimal de `n`, sin relleno.
pub fn texto_de_numero(n: u64) -> (r: String)
    ensures
        r@ == texto_decimal(n as int),
    decreases n,
{
    if n < 10 {
        String::from_str(digito_a_texto(n))
    } else {
        let mut r = texto_de_numero(n / 10);
        r.append(digito_a_texto(n % 10));
        proof {
            assert((n / 10) as int == n as int / 10);
            assert((n % 10) as int == n as int % 10);
            assert(texto_decimal(n as int / 10) + seq![char_digito(n as int % 10)] =~= texto_decimal(
                n as int / 10,
            ).push(char_digito(n as int % 10)));
        }
        r
    }
}

/// Numeral decimal de `n`, completado con ceros por la izquierda hasta
/// `ancho` cifras.
pub fn texto_relleno(n: u64, ancho: usize) -> (r: String)
    ensures
        r@ == relleno(texto_decimal(n as int), ancho as int),
{
    let t = texto_de_numero(n);
    let lt = t.as_str().unicode_len();
    let mut r = String::new();
    let mut k: usize = lt;
    proof {
        lema_ceros(0);
        assert(r@ =~= ceros(k - t@.len()));
    }
    while k < ancho
        invariant
            lt == t@.len(),
            k >= lt,
            k == lt || k <= ancho,
            r@ == ceros(k - t@.len()),
        decreases ancho - k,
    {
        let cero = "0";
        proof {
            reveal_strlit("0");
            lema_ceros_detras(k - t@.len());
            assert(r@ + cero@ =~= r@.push('0'));
        }
        r.append(cero);
        k += 1;
    }
    proof {
        if ancho <= lt {
            assert(k == lt);
            assert(ceros(ancho as int - t@.len()).len() == 0) by {
                lema_ceros(ancho as int - t@.len());
            }
            assert(ceros(0).len() == 0) by {
                lema_ceros(0);
            }
            assert(ceros(k - t@.len()) =~= ceros(ancho as int - t@.len()));
        } else {
            assert(k == ancho);
        }
        assert(r@ == ceros(ancho as int - t@.len()));
    }
    r.append(t.as_str());
    r
}

} // verus!
