//! A polynomial laid out as in a textbook, in three lines of text.
use vstd::prelude::*;
use crate::texto::{bytes_texto, espacos, comprimento_utf8, anexar, anexar_espacos};
use crate::universo::{Termo, exibicao, exibicao_curta};

verus! {

/// The sign of a coefficient's value.
#[derive(PartialEq, Eq, Structural, Debug, Clone, Copy)]
pub enum SinalValor {
    Positivo,
    Negativo,
    Zero,
}

/// A coefficient of the polynomial: its term and the sign of its value.
#[derive(PartialEq, Eq, Structural, Debug, Clone, Copy)]
pub struct Coeficiente {
    pub termo: Termo,
    pub sinal: SinalValor,
}

/// The sign written before the `i`-th coefficient: `+ ` for a positive one
/// after the first, `- ` for a negative one, nothing otherwise.
pub open spec fn sinal_texto(i: int, s: SinalValor) -> Seq<char> {
    if s == SinalValor::Positivo && i > 0 {
        seq!['+', ' ']
    } else if s == SinalValor::Negativo {
        seq!['-', ' ']
    } else {
        Seq::empty()
    }
}

/// The power of `x` of exponent `e`.
pub open spec fn variavel(e: int) -> Seq<char> {
    if e == 0 {
        Seq::empty()
    } else if e == 1 {
        seq!['x']
    } else if e == 2 {
        seq!['x', '²']
    } else if e == 3 {
        seq!['x', '³']
    } else {
        seq!['x', '^', 'n']
    }
}

/// `s` without its hyphens.
pub open spec fn sem_hifens(s: Seq<char>) -> Seq<char>
    decreases s.len(),
{
    if s.len() == 0 {
        Seq::empty()
    } else if s.last() == '-' {
        sem_hifens(s.drop_last())
    } else {
        sem_hifens(s.drop_last()).push(s.last())
    }
}

/// The numeral of a coefficient: its term without hyphens, and nothing for a
/// coefficient 1 in front of a power of `x`.
pub open spec fn numeral(t: Termo, e: int) -> Seq<char> {
    if sem_hifens(exibicao(t.simbolo)) == seq!['1'] && e > 0 {
        Seq::empty()
    } else {
        sem_hifens(exibicao(t.simbolo))
    }
}

/// The width of a numeral's column: its UTF-8 length, at least 1.
pub open spec fn largura(n: Seq<char>) -> nat {
    if bytes_texto(n) >= 1 { bytes_texto(n) } else { 1 }
}

/// `s` centred in `w` columns (the odd space goes to the right); `s` itself
/// where it is that wide already.
pub open spec fn centrado(s: Seq<char>, w: nat) -> Seq<char> {
    if s.len() >= w {
        s
    } else {
        espacos(((w - s.len()) as nat / 2) as nat) + s + espacos(((w - s.len()) as nat - (w - s.len()) as nat / 2) as nat)
    }
}

/// The piece of line `q` (0: above, 1: the formula, 2: below) that the
/// `i`-th of `cs` contributes.
pub open spec fn segmento(cs: Seq<Coeficiente>, i: int, q: int) -> Seq<char> {
    let e = cs.len() - 1 - i;
    let s = sinal_texto(i, cs[i].sinal);
    let v = variavel(e);
    let n = numeral(cs[i].termo, e);
    let w = largura(n);
    if q == 1 {
        s + seq![' '] + centrado(n, w) + seq![' '] + v + seq![' ']
    } else if q == 0 {
        espacos(s.len()) + seq![' '] + centrado(n, w) + seq![' '] + espacos(bytes_texto(v)) + seq![' ']
    } else {
        espacos(s.len()) + seq![' '] + centrado(seq![' '], w) + seq![' '] + espacos(bytes_texto(v)) + seq![' ']
    }
}

/// Line `q` over the first `k` coefficients.
pub open spec fn linha(cs: Seq<Coeficiente>, k: int, q: int) -> Seq<char>
    decreases k,
{
    if k <= 0 {
        Seq::empty()
    } else {
        linha(cs, k - 1, q) + segmento(cs, k - 1, q)
    }
}

fn sem_hifens_exec(s: &Vec<char>) -> (r: Vec<char>)
    ensures
        r@ == sem_hifens(s@),
        r.len() <= s.len(),
{
    let mut r: Vec<char> = Vec::new();
    let mut i: usize = 0;
    while i < s.len()
        invariant
            i <= s.len(),
            r@ == sem_hifens(s@.take(i as int)),
            r.len() <= i,
        decreases s.len() - i,
    {
        assert(s@.take(i + 1).drop_last() =~= s@.take(i as int));
        if s[i] != '-' {
            r.push(s[i]);
        }
        i += 1;
    }
    assert(s@.take(s.len() as int) =~= s@);
    r
}

fn variavel_exec(e: usize) -> (r: Vec<char>)
    ensures
        r@ == variavel(e as int),
        r.len() <= 3,
{
    let mut v: Vec<char> = Vec::new();
    if e == 1 {
        v.push('x');
    } else if e == 2 {
        v.push('x');
        v.push('²');
    } else if e == 3 {
        v.push('x');
        v.push('³');
    } else if e > 3 {
        v.push('x');
        v.push('^');
        v.push('n');
    }
    assert(v@ =~= variavel(e as int));
    v
}

fn anexar_centrado(linha: &mut Vec<char>, s: &Vec<char>, w: usize)
    ensures
        final(linha)@ == old(linha)@ + centrado(s@, w as nat),
{
    if s.len() >= w {
        anexar(linha, s);
    } else {
        let pad = w - s.len();
        anexar_espacos(linha, pad / 2);
        anexar(linha, s);
        anexar_espacos(linha, pad - pad / 2);
    }
}

/// The parts of the `i`-th coefficient's pieces: its sign, its numeral, the
/// width of its column, its power of `x` and that power's UTF-8 length.
fn partes(coefs: &Vec<Coeficiente>, i: usize) -> (r: (Vec<char>, Vec<char>, usize, Vec<char>, usize))
    requires
        i < coefs.len(),
    ensures
        r.0@ == sinal_texto(i as int, coefs@[i as int].sinal),
        r.1@ == numeral(coefs@[i as int].termo, coefs.len() - 1 - i),
        r.2 == largura(r.1@),
        r.3@ == variavel(coefs.len() - 1 - i),
        r.4 == bytes_texto(r.3@),
{
    let c = coefs[i];
    let e = coefs.len() - 1 - i;
    let mut sinal: Vec<char> = Vec::new();
    if c.sinal == SinalValor::Positivo && i > 0 {
        sinal.push('+');
        sinal.push(' ');
    } else if c.sinal == SinalValor::Negativo {
        sinal.push('-');
        sinal.push(' ');
    }
    assert(sinal@ =~= sinal_texto(i as int, c.sinal));
    let var = variavel_exec(e);
    let exib = c.termo.exibicao();
    proof {
        exibicao_curta(c.termo.simbolo);
    }
    let limpo = sem_hifens_exec(&exib);
    let n: Vec<char> = if limpo.len() == 1 && limpo[0] == '1' && e > 0 {
        assert(limpo@ =~= seq!['1']);
        Vec::new()
    } else {
        assert(limpo@ != seq!['1'] || e == 0);
        limpo
    };
    let bn = comprimento_utf8(&n);
    let w: usize = if bn >= 1 { bn } else { 1 };
    let bv = comprimento_utf8(&var);
    (sinal, n, w, var, bv)
}

/// Appends the pieces of the `i`-th coefficient to the three lines.
fn anexar_segmentos(l0: &mut Vec<char>, l1: &mut Vec<char>, l2: &mut Vec<char>, coefs: &Vec<Coeficiente>, i: usize)
    requires
        i < coefs.len(),
    ensures
        final(l0)@ == old(l0)@ + segmento(coefs@, i as int, 0),
        final(l1)@ == old(l1)@ + segmento(coefs@, i as int, 1),
        final(l2)@ == old(l2)@ + segmento(coefs@, i as int, 2),
{
    let (sinal, n, w, var, bv) = partes(coefs, i);
    let ghost a0 = l0@;
    let ghost a1 = l1@;
    let ghost a2 = l2@;
    let mut espaco: Vec<char> = Vec::new();
    espaco.push(' ');
    anexar_espacos(l0, sinal.len());
    l0.push(' ');
    anexar_centrado(l0, &n, w);
    l0.push(' ');
    anexar_espacos(l0, bv);
    l0.push(' ');
    assert(l0@ =~= a0 + segmento(coefs@, i as int, 0));
    anexar(l1, &sinal);
    l1.push(' ');
    anexar_centrado(l1, &n, w);
    l1.push(' ');
    anexar(l1, &var);
    l1.push(' ');
    assert(l1@ =~= a1 + segmento(coefs@, i as int, 1));
    anexar_espacos(l2, sinal.len());
    l2.push(' ');
    anexar_centrado(l2, &espaco, w);
    l2.push(' ');
    anexar_espacos(l2, bv);
    l2.push(' ');
    assert(espaco@ =~= seq![' ']);
    assert(l2@ =~= a2 + segmento(coefs@, i as int, 2));
}

/// The three lines of a polynomial in textbook form: above, the formula, below.
pub fn linhas_didaticas(coefs: &Vec<Coeficiente>) -> (r: (Vec<char>, Vec<char>, Vec<char>))
    requires
        coefs.len() >= 1,
    ensures
        r.0@ == linha(coefs@, coefs.len() as int, 0),
        r.1@ == linha(coefs@, coefs.len() as int, 1),
        r.2@ == linha(coefs@, coefs.len() as int, 2),
{
    let mut l0: Vec<char> = Vec::new();
    let mut l1: Vec<char> = Vec::new();
    let mut l2: Vec<char> = Vec::new();
    let mut i: usize = 0;
    while i < coefs.len()
        invariant
            i <= coefs.len(),
            l0@ == linha(coefs@, i as int, 0),
            l1@ == linha(coefs@, i as int, 1),
            l2@ == linha(coefs@, i as int, 2),
        decreases coefs.len() - i,
    {
        anexar_segmentos(&mut l0, &mut l1, &mut l2, coefs, i);
        i += 1;
    }
    (l0, l1, l2)
}

/// The numeral of a coefficient holds no hyphen at all: it is the term as
/// written with every `-` taken out and every other character kept, in order.
pub proof fn numeral_sem_hifens(t: Termo, e: int)
    ensures
        forall|i: int| 0 <= i < numeral(t, e).len() ==> numeral(t, e)[i] != '-',
        numeral(t, e) == Seq::<char>::empty() || numeral(t, e) == exibicao(t.simbolo).filter(|c: char| c != '-'),
        !(e > 0 && exibicao(t.simbolo).filter(|c: char| c != '-') == seq!['1'])
            ==> numeral(t, e) == exibicao(t.simbolo).filter(|c: char| c != '-'),
{
    sem_hifens_e_filtro(exibicao(t.simbolo));
}

/// Taking the hyphens out of `s` is filtering them out.
pub proof fn sem_hifens_e_filtro(s: Seq<char>)
    ensures
        sem_hifens(s) == s.filter(|c: char| c != '-'),
        forall|i: int| 0 <= i < sem_hifens(s).len() ==> sem_hifens(s)[i] != '-',
    decreases s.len(),
{
    reveal(Seq::filter);
    if s.len() > 0 {
        sem_hifens_e_filtro(s.drop_last());
        let r = sem_hifens(s.drop_last());
        assert forall|i: int| 0 <= i < sem_hifens(s).len() implies sem_hifens(s)[i] != '-' by {
            if i < r.len() {
                assert(sem_hifens(s)[i] == r[i]);
            }
        }
    }
}

/// Centring keeps the text and pads it with spaces to the width: the result
/// is `max(len, w)` long, holds `s` after `(w - len) / 2` spaces, and the
/// spaces on the right are as many as on the left or one more.
pub proof fn centrado_mantem_o_texto(s: Seq<char>, w: nat)
    ensures
        centrado(s, w).len() == (if s.len() >= w { s.len() } else { w }),
        s.len() >= w ==> centrado(s, w) == s,
        s.len() < w ==> ({
            let esq = ((w - s.len()) as nat / 2) as int;
            let dir = w - s.len() - esq;
            &&& centrado(s, w).subrange(esq, esq + s.len()) == s
            &&& forall|i: int| 0 <= i < esq ==> centrado(s, w)[i] == ' '
            &&& forall|i: int| esq + s.len() <= i < w ==> centrado(s, w)[i] == ' '
            &&& esq <= dir <= esq + 1
        }),
{
    if s.len() < w {
        let esq = ((w - s.len()) as nat / 2) as int;
        let c = centrado(s, w);
        assert(c.subrange(esq, esq + s.len()) =~= s);
    }
}

} // verus!
