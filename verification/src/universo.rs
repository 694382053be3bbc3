//! The universe of terms: symbolic constants, integers, roots, logarithms and
//! their quotients, with the score that orders them.
use vstd::prelude::*;
use crate::texto::{decimal, decimal_com_sinal, escrever_natural, escrever_inteiro, sem_barra, sem_barra_concat, decimal_com_sinal_sem_barra};

verus! {

/// The five distinguished constants.
#[derive(PartialEq, Eq, Structural, Debug, Clone, Copy)]
pub enum Constante {
    /// π
    Pi,
    /// e
    E,
    /// Φ, the golden ratio
    Phi,
    /// G, Catalan's constant
    Catalan,
    /// γ, the Euler–Mascheroni constant
    Euler,
}

/// A base term of the universe.
#[derive(PartialEq, Eq, Structural, Debug, Clone, Copy)]
pub enum Atomo {
    /// One of the constants.
    Constante(Constante),
    /// The negation of one of the constants.
    Oposto(Constante),
    /// An integer, positive or negative.
    Inteiro(i64),
    /// The square root of a positive integer.
    Raiz(i64),
    /// The natural logarithm of a positive integer.
    Log(i64),
}

/// A term of the universe: a base term, or the quotient of two base terms.
#[derive(PartialEq, Eq, Structural, Debug, Clone, Copy)]
pub enum Simbolo {
    /// A base term.
    Simples(Atomo),
    /// A numerator over a denominator.
    Fracao(Atomo, Atomo),
}

/// A term with its score: the lower the score, the simpler the term,
/// and the earlier the search tries it.
#[derive(PartialEq, Eq, Structural, Debug, Clone, Copy)]
pub struct Termo {
    pub simbolo: Simbolo,
    pub pontuacao: u32,
}

/// How a constant is written.
pub open spec fn nome(c: Constante) -> Seq<char> {
    match c {
        Constante::Pi => seq!['π'],
        Constante::E => seq!['e'],
        Constante::Phi => seq!['Φ'],
        Constante::Catalan => seq!['G'],
        Constante::Euler => seq!['γ'],
    }
}

/// How a base term is written.
pub open spec fn exibicao_atomo(a: Atomo) -> Seq<char> {
    match a {
        Atomo::Constante(c) => nome(c),
        Atomo::Oposto(c) => seq!['-'] + nome(c),
        Atomo::Inteiro(n) => decimal_com_sinal(n as int),
        Atomo::Raiz(n) => seq!['√'] + decimal_com_sinal(n as int),
        Atomo::Log(n) => seq!['l', 'n', '('] + decimal_com_sinal(n as int) + seq![')'],
    }
}

/// How a term is written.
pub open spec fn exibicao(s: Simbolo) -> Seq<char> {
    match s {
        Simbolo::Simples(a) => exibicao_atomo(a),
        Simbolo::Fracao(a, b) => exibicao_atomo(a) + seq!['/'] + exibicao_atomo(b),
    }
}

/// The score of a base term: 1 for a constant, 2 for its negation, 10 for a
/// positive integer, 11 for a negative one, 20 for a root, 25 for a logarithm.
pub open spec fn pontuacao_atomo(a: Atomo) -> nat {
    match a {
        Atomo::Constante(_) => 1,
        Atomo::Oposto(_) => 2,
        Atomo::Inteiro(n) => if n >= 0 { 10 } else { 11 },
        Atomo::Raiz(_) => 20,
        Atomo::Log(_) => 25,
    }
}

/// The score of a term: that of a quotient is the sum of its parts' plus 5.
pub open spec fn pontuacao(s: Simbolo) -> nat {
    match s {
        Simbolo::Simples(a) => pontuacao_atomo(a),
        Simbolo::Fracao(a, b) => pontuacao_atomo(a) + pontuacao_atomo(b) + 5,
    }
}

/// The term of a symbol, scored.
pub open spec fn termo_de(s: Simbolo) -> Termo {
    Termo { simbolo: s, pontuacao: pontuacao(s) as u32 }
}

/// The constants and their negations, in the order the universe lists them.
pub open spec fn atomos_elite() -> Seq<Atomo> {
    seq![
        Atomo::Constante(Constante::Pi), Atomo::Oposto(Constante::Pi),
        Atomo::Constante(Constante::E), Atomo::Oposto(Constante::E),
        Atomo::Constante(Constante::Phi), Atomo::Oposto(Constante::Phi),
        Atomo::Constante(Constante::Catalan), Atomo::Oposto(Constante::Catalan),
        Atomo::Constante(Constante::Euler), Atomo::Oposto(Constante::Euler),
    ]
}

/// `n` is the square of a natural number.
pub open spec fn quadrado_perfeito(n: int) -> bool {
    exists|k: nat| #[trigger] (k * k) == n
}

/// The base terms that the integer `n` brings: `n` and `-n` unless they are
/// 1 and −1 (values the universe bans), `√n` unless `n` is a perfect square,
/// and `ln(n)` unless `n` is 1 (whose logarithm is 0). So 1 brings nothing.
pub open spec fn bloco(n: i64) -> Seq<Atomo> {
    (if n >= 2 { seq![Atomo::Inteiro(n), Atomo::Inteiro((-n) as i64)] } else { Seq::empty() })
        + (if !quadrado_perfeito(n as int) { seq![Atomo::Raiz(n)] } else { Seq::empty() })
        + (if n >= 2 { seq![Atomo::Log(n)] } else { Seq::empty() })
}

/// The blocks of the integers `1..=k`, in order.
pub open spec fn inteiros_ate(k: int) -> Seq<Atomo>
    decreases k,
{
    if k <= 0 {
        Seq::empty()
    } else {
        inteiros_ate(k - 1) + bloco(k as i64)
    }
}

/// The base terms of the universe for the integer range `alcance`.
pub open spec fn atomos_base(alcance: i64) -> Seq<Atomo> {
    atomos_elite() + inteiros_ate(alcance as int)
}

/// `x` is the negation of `y`.
pub open spec fn opostos(x: Atomo, y: Atomo) -> bool {
    match (x, y) {
        (Atomo::Constante(a), Atomo::Oposto(b)) => a == b,
        (Atomo::Oposto(a), Atomo::Constante(b)) => a == b,
        (Atomo::Inteiro(m), Atomo::Inteiro(n)) => m == -n,
        _ => false,
    }
}

/// A trivial quotient: its denominator is 1, or it is −1 (a term over its own
/// negation). No other quotient of two different base terms is 0, 1 or −1
/// (and no base term is 1, so the first case never arises in the universe).
pub open spec fn fracao_trivial_spec(num: Atomo, den: Atomo) -> bool {
    den == Atomo::Inteiro(1) || opostos(num, den)
}

/// The quotients of `b[i]` over `b[0..j]`, skipping `b[i]` itself and the trivial ones.
pub open spec fn fracoes_linha(b: Seq<Atomo>, i: int, j: int) -> Seq<Simbolo>
    decreases j,
{
    if j <= 0 {
        Seq::empty()
    } else {
        fracoes_linha(b, i, j - 1) + (if i != j - 1 && !fracao_trivial_spec(b[i], b[j - 1]) {
            seq![Simbolo::Fracao(b[i], b[j - 1])]
        } else {
            Seq::empty()
        })
    }
}

/// The quotients whose numerator is one of `b[0..i]`, row by row.
pub open spec fn fracoes_ate(b: Seq<Atomo>, i: int) -> Seq<Simbolo>
    decreases i,
{
    if i <= 0 {
        Seq::empty()
    } else {
        fracoes_ate(b, i - 1) + fracoes_linha(b, i - 1, b.len() as int)
    }
}

/// The base terms as terms.
pub open spec fn simples(b: Seq<Atomo>) -> Seq<Simbolo> {
    b.map_values(|a: Atomo| Simbolo::Simples(a))
}

/// Every candidate of the universe, before duplicates are merged: the base
/// terms, then every non-trivial quotient of two different base terms.
pub open spec fn candidatos(alcance: i64) -> Seq<Simbolo> {
    simples(atomos_base(alcance)) + fracoes_ate(atomos_base(alcance), atomos_base(alcance).len() as int)
}

/// The symbols of a sequence of terms.
pub open spec fn simbolos(ts: Seq<Termo>) -> Seq<Simbolo> {
    ts.map_values(|t: Termo| t.simbolo)
}

/// Every term is scored as its symbol says.
pub open spec fn bem_pontuados(ts: Seq<Termo>) -> bool {
    forall|i: int| 0 <= i < ts.len() ==> #[trigger] ts[i] == termo_de(ts[i].simbolo)
}

/// Writes a constant.
pub fn escrever_constante(c: Constante) -> (r: Vec<char>)
    ensures
        r@ == nome(c),
{
    let mut v: Vec<char> = Vec::new();
    match c {
        Constante::Pi => v.push('π'),
        Constante::E => v.push('e'),
        Constante::Phi => v.push('Φ'),
        Constante::Catalan => v.push('G'),
        Constante::Euler => v.push('γ'),
    }
    assert(v@ =~= nome(c));
    v
}

/// Writes a base term.
pub fn escrever_atomo(a: Atomo) -> (r: Vec<char>)
    ensures
        r@ == exibicao_atomo(a),
{
    match a {
        Atomo::Constante(c) => escrever_constante(c),
        Atomo::Oposto(c) => {
            let mut v: Vec<char> = Vec::new();
            v.push('-');
            let mut nc = escrever_constante(c);
            v.append(&mut nc);
            v
        },
        Atomo::Inteiro(n) => escrever_inteiro(n),
        Atomo::Raiz(n) => {
            let mut v: Vec<char> = Vec::new();
            v.push('√');
            let mut d = escrever_inteiro(n);
            v.append(&mut d);
            v
        },
        Atomo::Log(n) => {
            let mut v: Vec<char> = Vec::new();
            v.push('l');
            v.push('n');
            v.push('(');
            let mut d = escrever_inteiro(n);
            v.append(&mut d);
            v.push(')');
            assert(v@ =~= seq!['l', 'n', '('] + decimal_com_sinal(n as int) + seq![')']);
            v
        },
    }
}

/// Writes a term.
pub fn escrever_simbolo(s: Simbolo) -> (r: Vec<char>)
    ensures
        r@ == exibicao(s),
{
    match s {
        Simbolo::Simples(a) => escrever_atomo(a),
        Simbolo::Fracao(a, b) => {
            let mut v = escrever_atomo(a);
            v.push('/');
            let mut w = escrever_atomo(b);
            v.append(&mut w);
            v
        },
    }
}

impl Termo {
    /// How the term is written, as the search displays it.
    pub fn exibicao(&self) -> (r: Vec<char>)
        ensures
            r@ == exibicao(self.simbolo),
    {
        escrever_simbolo(self.simbolo)
    }
}

/// The score of a base term.
pub fn pontuar_atomo(a: Atomo) -> (r: u32)
    ensures
        r == pontuacao_atomo(a),
{
    match a {
        Atomo::Constante(_) => 1,
        Atomo::Oposto(_) => 2,
        Atomo::Inteiro(n) => if n >= 0 { 10 } else { 11 },
        Atomo::Raiz(_) => 20,
        Atomo::Log(_) => 25,
    }
}

/// The scored term of a symbol.
pub fn termo(s: Simbolo) -> (r: Termo)
    ensures
        r == termo_de(s),
{
    match s {
        Simbolo::Simples(a) => Termo { simbolo: s, pontuacao: pontuar_atomo(a) },
        Simbolo::Fracao(a, b) => Termo { simbolo: s, pontuacao: pontuar_atomo(a) + pontuar_atomo(b) + 5 },
    }
}

proof fn lema_sem_raiz(n: int, k: int, j: int)
    by (nonlinear_arith)
    requires
        k >= 1,
        (k - 1) * (k - 1) < n,
        k * k > n,
        j >= 0,
    ensures
        j * j != n,
{
    if j <= k - 1 {
        assert(j * j <= (k - 1) * (k - 1));
    } else {
        assert(j * j >= k * k);
    }
}

/// Whether `n` is a perfect square.
pub fn eh_quadrado_perfeito(n: i64) -> (r: bool)
    requires
        n >= 1,
    ensures
        r == quadrado_perfeito(n as int),
{
    let mut k: u64 = 0;
    let mut quadrado: u128 = 0;
    while quadrado < n as u128
        invariant
            n >= 1,
            k <= n,
            quadrado == k * k,
            k == 0 || (k - 1) * (k - 1) < n,
        decreases n - k,
    {
        assert(k < n) by (nonlinear_arith)
            requires
                k * k < n,
        ;
        assert((k + 1) * (k + 1) == k * k + 2 * k + 1) by (nonlinear_arith);
        quadrado = quadrado + 2 * (k as u128) + 1;
        k = k + 1;
    }
    let r = quadrado == n as u128;
    proof {
        if r {
            assert((k as nat) * (k as nat) == n as int);
        } else {
            assert(k >= 1);
            assert forall|j: nat| #[trigger] (j * j) != n as int by {
                lema_sem_raiz(n as int, k as int, j as int);
            }
        }
    }
    r
}

/// Whether the quotient `num / den` is trivial.
pub fn fracao_trivial(num: Atomo, den: Atomo) -> (r: bool)
    ensures
        r == fracao_trivial_spec(num, den),
{
    if den == Atomo::Inteiro(1) {
        return true;
    }
    match (num, den) {
        (Atomo::Constante(a), Atomo::Oposto(b)) => a == b,
        (Atomo::Oposto(a), Atomo::Constante(b)) => a == b,
        (Atomo::Inteiro(m), Atomo::Inteiro(n)) => m as i128 == -(n as i128),
        _ => false,
    }
}

/// The base terms of the universe: the constants and their negations, then,
/// for each integer `n` of `2..=alcance`, `n`, `-n`, `√n` (unless `n` is a
/// perfect square) and `ln(n)`. The integer 1 brings nothing: 1 and −1 are
/// banned, √1 is a root of a perfect square, and ln(1) is 0.
pub fn atomos_do_universo(alcance: i64) -> (r: Vec<Atomo>)
    ensures
        r@ == atomos_base(alcance),
{
    let mut v: Vec<Atomo> = Vec::new();
    v.push(Atomo::Constante(Constante::Pi));
    v.push(Atomo::Oposto(Constante::Pi));
    v.push(Atomo::Constante(Constante::E));
    v.push(Atomo::Oposto(Constante::E));
    v.push(Atomo::Constante(Constante::Phi));
    v.push(Atomo::Oposto(Constante::Phi));
    v.push(Atomo::Constante(Constante::Catalan));
    v.push(Atomo::Oposto(Constante::Catalan));
    v.push(Atomo::Constante(Constante::Euler));
    v.push(Atomo::Oposto(Constante::Euler));
    assert(v@ =~= atomos_elite());
    let mut feito = alcance < 1;
    let mut n: i64 = 1;
    while !feito
        invariant
            !feito ==> 1 <= n <= alcance && v@ == atomos_elite() + inteiros_ate(n - 1),
            feito ==> v@ == atomos_elite() + inteiros_ate(alcance as int),
        decreases (if feito { 0 } else { alcance - n + 1 }),
    {
        let ghost antes = v@;
        if n >= 2 {
            v.push(Atomo::Inteiro(n));
            v.push(Atomo::Inteiro((-n) as i64));
        }
        let quadrado = eh_quadrado_perfeito(n);
        if !quadrado {
            v.push(Atomo::Raiz(n));
        }
        if n >= 2 {
            v.push(Atomo::Log(n));
        }
        assert(v@ =~= antes + bloco(n));
        assert(inteiros_ate(n as int) == inteiros_ate(n - 1) + bloco(n));
        assert(v@ =~= atomos_elite() + inteiros_ate(n as int));
        if n == alcance {
            feito = true;
        } else {
            n = n + 1;
        }
    }
    v
}

/// Every candidate term of the universe, scored: the base terms, then every
/// quotient `b[i] / b[j]` of two different base terms that is not trivial,
/// row by row.
pub fn candidatos_universo(alcance: i64) -> (r: Vec<Termo>)
    ensures
        simbolos(r@) == candidatos(alcance),
        bem_pontuados(r@),
{
    let b = atomos_do_universo(alcance);
    let ghost bs = b@;
    let mut r: Vec<Termo> = Vec::new();
    let mut i: usize = 0;
    while i < b.len()
        invariant
            b@ == bs,
            i <= b.len(),
            simbolos(r@) == simples(bs.take(i as int)),
            bem_pontuados(r@),
        decreases b.len() - i,
    {
        let t = termo(Simbolo::Simples(b[i]));
        let ghost antes = r@;
        r.push(t);
        assert(simbolos(r@) =~= simbolos(antes).push(t.simbolo));
        assert(simples(bs.take(i + 1)) =~= simples(bs.take(i as int)).push(Simbolo::Simples(bs[i as int])));
        i += 1;
    }
    assert(bs.take(bs.len() as int) =~= bs);
    let ghost base = simbolos(r@);
    let mut i: usize = 0;
    while i < b.len()
        invariant
            b@ == bs,
            i <= b.len(),
            simbolos(r@) == base + fracoes_ate(bs, i as int),
            bem_pontuados(r@),
        decreases b.len() - i,
    {
        let mut j: usize = 0;
        while j < b.len()
            invariant
                b@ == bs,
                i < b.len(),
                j <= b.len(),
                simbolos(r@) == base + fracoes_ate(bs, i as int) + fracoes_linha(bs, i as int, j as int),
                bem_pontuados(r@),
            decreases b.len() - j,
        {
            let ghost antes = r@;
            if i != j && !fracao_trivial(b[i], b[j]) {
                let t = termo(Simbolo::Fracao(b[i], b[j]));
                r.push(t);
                assert(simbolos(r@) =~= simbolos(antes).push(t.simbolo));
            }
            assert(fracoes_linha(bs, i as int, j + 1) == fracoes_linha(bs, i as int, j as int) + (if i != j && !fracao_trivial_spec(bs[i as int], bs[j as int]) {
                seq![Simbolo::Fracao(bs[i as int], bs[j as int])]
            } else {
                Seq::<Simbolo>::empty()
            }));
            assert(simbolos(r@) =~= base + fracoes_ate(bs, i as int) + fracoes_linha(bs, i as int, j + 1));
            j += 1;
        }
        assert(fracoes_ate(bs, i + 1) == fracoes_ate(bs, i as int) + fracoes_linha(bs, i as int, bs.len() as int));
        assert(simbolos(r@) =~= base + fracoes_ate(bs, i + 1));
        i += 1;
    }
    r
}

/// A base term that the universe admits: no integer 0, 1 or −1, no root of a
/// perfect square, no logarithm of 1 or less.
pub open spec fn admissivel(a: Atomo) -> bool {
    match a {
        Atomo::Inteiro(n) => n <= -2 || n >= 2,
        Atomo::Raiz(n) => n >= 1 && !quadrado_perfeito(n as int),
        Atomo::Log(n) => n >= 2,
        _ => true,
    }
}

/// A term that the universe admits: an admissible base term, or a quotient of
/// two different admissible base terms that is not trivial.
pub open spec fn candidato_admissivel(s: Simbolo) -> bool {
    match s {
        Simbolo::Simples(a) => admissivel(a),
        Simbolo::Fracao(a, b) => admissivel(a) && admissivel(b) && a != b && !fracao_trivial_spec(a, b),
    }
}

/// The integer that a base term is built on (0 for the constants).
pub open spec fn grandeza(a: Atomo) -> int {
    match a {
        Atomo::Inteiro(n) => if n < 0 { -n } else { n as int },
        Atomo::Raiz(n) => n as int,
        Atomo::Log(n) => n as int,
        _ => 0,
    }
}

proof fn lema_inteiros(k: int)
    requires
        k <= i64::MAX,
    ensures
        inteiros_ate(k).no_duplicates(),
        forall|i: int| 0 <= i < inteiros_ate(k).len() ==> admissivel(#[trigger] inteiros_ate(k)[i])
            && 1 <= grandeza(inteiros_ate(k)[i]) <= k,
    decreases k,
{
    if k > 0 {
        lema_inteiros(k - 1);
        let a = inteiros_ate(k - 1);
        let b = bloco(k as i64);
        let s = inteiros_ate(k);
        assert(s == a + b);
        assert forall|i: int| 0 <= i < b.len() implies admissivel(#[trigger] b[i]) && grandeza(b[i]) == k by {
        }
        assert forall|i: int| 0 <= i < s.len() implies admissivel(#[trigger] s[i]) && 1 <= grandeza(s[i]) <= k by {
            if i < a.len() {
                assert(s[i] == a[i]);
            } else {
                assert(s[i] == b[i - a.len()]);
            }
        }
        assert forall|i: int, j: int| 0 <= i < s.len() && 0 <= j < s.len() && i != j implies s[i] != s[j] by {
            if i < a.len() && j < a.len() {
                assert(s[i] == a[i] && s[j] == a[j]);
            } else if i >= a.len() && j >= a.len() {
                assert(s[i] == b[i - a.len()] && s[j] == b[j - a.len()]);
            } else if i < a.len() {
                assert(s[i] == a[i] && s[j] == b[j - a.len()]);
                assert(grandeza(s[i]) < grandeza(s[j]));
            } else {
                assert(s[j] == a[j] && s[i] == b[i - a.len()]);
                assert(grandeza(s[j]) < grandeza(s[i]));
            }
        }
    }
}

proof fn lema_base(alcance: i64)
    ensures
        atomos_base(alcance).no_duplicates(),
        forall|i: int| 0 <= i < atomos_base(alcance).len() ==> admissivel(#[trigger] atomos_base(alcance)[i]),
{
    lema_inteiros(alcance as int);
    let e = atomos_elite();
    let n = inteiros_ate(alcance as int);
    let s = atomos_base(alcance);
    assert forall|i: int| 0 <= i < s.len() implies admissivel(#[trigger] s[i]) by {
        if i >= e.len() {
            assert(s[i] == n[i - e.len()]);
        }
    }
    assert forall|i: int, j: int| 0 <= i < s.len() && 0 <= j < s.len() && i != j implies s[i] != s[j] by {
        if i < e.len() && j < e.len() {
        } else if i >= e.len() && j >= e.len() {
            assert(s[i] == n[i - e.len()] && s[j] == n[j - e.len()]);
        } else if i < e.len() {
            assert(s[j] == n[j - e.len()]);
            assert(grandeza(s[j]) >= 1 && grandeza(s[i]) == 0);
        } else {
            assert(s[i] == n[i - e.len()]);
            assert(grandeza(s[i]) >= 1 && grandeza(s[j]) == 0);
        }
    }
}

proof fn lema_linha(b: Seq<Atomo>, i: int, j: int)
    requires
        0 <= i < b.len(),
        0 <= j <= b.len(),
        b.no_duplicates(),
        forall|k: int| 0 <= k < b.len() ==> admissivel(#[trigger] b[k]),
    ensures
        forall|t: int| 0 <= t < fracoes_linha(b, i, j).len() ==> candidato_admissivel(#[trigger] fracoes_linha(b, i, j)[t]),
    decreases j,
{
    if j > 0 {
        lema_linha(b, i, j - 1);
        let a = fracoes_linha(b, i, j - 1);
        let s = fracoes_linha(b, i, j);
        assert forall|t: int| 0 <= t < s.len() implies candidato_admissivel(#[trigger] s[t]) by {
            if t < a.len() {
                assert(s[t] == a[t]);
            } else {
                assert(s[t] == Simbolo::Fracao(b[i], b[j - 1]));
                assert(b[i] != b[j - 1]);
                assert(admissivel(b[i]) && admissivel(b[j - 1]));
            }
        }
    }
}

proof fn lema_fracoes(b: Seq<Atomo>, i: int)
    requires
        0 <= i <= b.len(),
        b.no_duplicates(),
        forall|k: int| 0 <= k < b.len() ==> admissivel(#[trigger] b[k]),
    ensures
        forall|t: int| 0 <= t < fracoes_ate(b, i).len() ==> candidato_admissivel(#[trigger] fracoes_ate(b, i)[t]),
    decreases i,
{
    if i > 0 {
        lema_fracoes(b, i - 1);
        lema_linha(b, i - 1, b.len() as int);
        let a = fracoes_ate(b, i - 1);
        let l = fracoes_linha(b, i - 1, b.len() as int);
        let s = fracoes_ate(b, i);
        assert forall|t: int| 0 <= t < s.len() implies candidato_admissivel(#[trigger] s[t]) by {
            if t < a.len() {
                assert(s[t] == a[t]);
            } else {
                assert(s[t] == l[t - a.len()]);
            }
        }
    }
}

/// The universe holds no trivial term: no integer 0, 1 or −1, no root of a
/// perfect square, no logarithm of 1, no quotient of a term by itself, by 1,
/// or by its own negation (a quotient 1 or −1).
pub proof fn universo_sem_trivialidades(alcance: i64)
    ensures
        forall|i: int| 0 <= i < candidatos(alcance).len() ==> candidato_admissivel(#[trigger] candidatos(alcance)[i]),
{
    let b = atomos_base(alcance);
    lema_base(alcance);
    lema_fracoes(b, b.len() as int);
    let s = simples(b);
    let f = fracoes_ate(b, b.len() as int);
    let c = candidatos(alcance);
    assert forall|i: int| 0 <= i < c.len() implies candidato_admissivel(#[trigger] c[i]) by {
        if i < s.len() {
            assert(c[i] == s[i]);
            assert(s[i] == Simbolo::Simples(b[i]));
        } else {
            assert(c[i] == f[i - s.len()]);
        }
    }
}

/// Ten to the power `k`.
pub open spec fn potencia_de_dez(k: nat) -> nat
    decreases k,
{
    if k == 0 { 1 } else { 10 * potencia_de_dez((k - 1) as nat) }
}

proof fn lema_decimal_curto(n: nat, k: nat)
    requires
        k >= 1,
        n < potencia_de_dez(k),
    ensures
        decimal(n).len() <= k,
    decreases n,
{
    if n >= 10 {
        let p = potencia_de_dez((k - 1) as nat);
        assert(k >= 2) by {
            if k == 1 {
                assert(potencia_de_dez(0) == 1);
            }
        }
        assert(n / 10 < p) by (nonlinear_arith)
            requires
                n < 10 * p,
        ;
        lema_decimal_curto(n / 10, (k - 1) as nat);
    }
}

proof fn lema_decimal_i64(n: i64)
    ensures
        decimal_com_sinal(n as int).len() <= 20,
{
    assert(potencia_de_dez(19) == 10_000_000_000_000_000_000) by {
        reveal_with_fuel(potencia_de_dez, 20);
    }
    if n < 0 {
        lema_decimal_curto((-(n as int)) as nat, 19);
    } else {
        lema_decimal_curto(n as nat, 19);
    }
}

/// Every term is written in at most 64 characters.
pub proof fn exibicao_curta(s: Simbolo)
    ensures
        exibicao(s).len() <= 64,
{
    match s {
        Simbolo::Simples(a) => lema_atomo_curto(a),
        Simbolo::Fracao(a, b) => {
            lema_atomo_curto(a);
            lema_atomo_curto(b);
        },
    }
}

proof fn lema_atomo_curto(a: Atomo)
    ensures
        exibicao_atomo(a).len() <= 24,
{
    match a {
        Atomo::Inteiro(n) => lema_decimal_i64(n),
        Atomo::Raiz(n) => lema_decimal_i64(n),
        Atomo::Log(n) => lema_decimal_i64(n),
        _ => {},
    }
}

/// `x` is a prefix of `y`.
pub open spec fn prefixo<A>(x: Seq<A>, y: Seq<A>) -> bool {
    x.len() <= y.len() && y.take(x.len() as int) == x
}

proof fn lema_inteiros_prefixo(a: int, b: int)
    requires
        a <= b,
    ensures
        prefixo(inteiros_ate(a), inteiros_ate(b)),
    decreases b - a,
{
    assert(inteiros_ate(a).take(inteiros_ate(a).len() as int) =~= inteiros_ate(a));
    if a < b {
        lema_inteiros_prefixo(a, b - 1);
        if b > 0 {
            let x = inteiros_ate(a);
            let y = inteiros_ate(b - 1);
            let z = inteiros_ate(b);
            assert(z == y + bloco(b as i64));
            assert(z.take(x.len() as int) =~= y.take(x.len() as int));
        } else {
            assert(inteiros_ate(b) == inteiros_ate(b - 1));
            assert(inteiros_ate(a).len() == 0);
            assert(inteiros_ate(b).take(0) =~= inteiros_ate(a));
        }
    }
}

proof fn lema_base_prefixo(a: i64, b: i64)
    requires
        a <= b,
    ensures
        prefixo(atomos_base(a), atomos_base(b)),
{
    lema_inteiros_prefixo(a as int, b as int);
    let e = atomos_elite();
    let x = inteiros_ate(a as int);
    let y = inteiros_ate(b as int);
    assert((e + y).take((e + x).len() as int) =~= e + y.take(x.len() as int));
}

proof fn lema_linha_prefixo(ba: Seq<Atomo>, bb: Seq<Atomo>, i: int, j: int)
    requires
        prefixo(ba, bb),
        0 <= i < ba.len(),
        0 <= j <= ba.len(),
    ensures
        fracoes_linha(ba, i, j) == fracoes_linha(bb, i, j),
    decreases j,
{
    if j > 0 {
        lema_linha_prefixo(ba, bb, i, j - 1);
        assert(ba[i] == bb.take(ba.len() as int)[i]);
        assert(ba[j - 1] == bb.take(ba.len() as int)[j - 1]);
    }
}

proof fn lema_linha_cresce(b: Seq<Atomo>, i: int, j: int, k: int)
    requires
        0 <= j <= k,
    ensures
        prefixo(fracoes_linha(b, i, j), fracoes_linha(b, i, k)),
    decreases k - j,
{
    assert(fracoes_linha(b, i, j).take(fracoes_linha(b, i, j).len() as int) =~= fracoes_linha(b, i, j));
    if j < k {
        lema_linha_cresce(b, i, j, k - 1);
        let x = fracoes_linha(b, i, j);
        let y = fracoes_linha(b, i, k - 1);
        let z = fracoes_linha(b, i, k);
        assert(z.take(x.len() as int) =~= y.take(x.len() as int));
    }
}

proof fn lema_ate_cresce(b: Seq<Atomo>, i: int, k: int)
    requires
        0 <= i <= k,
    ensures
        prefixo(fracoes_ate(b, i), fracoes_ate(b, k)),
    decreases k - i,
{
    assert(fracoes_ate(b, i).take(fracoes_ate(b, i).len() as int) =~= fracoes_ate(b, i));
    if i < k {
        lema_ate_cresce(b, i, k - 1);
        let x = fracoes_ate(b, i);
        let y = fracoes_ate(b, k - 1);
        let z = fracoes_ate(b, k);
        assert(z.take(x.len() as int) =~= y.take(x.len() as int));
    }
}

proof fn lema_contido_em_prefixo<A>(x: Seq<A>, y: Seq<A>, t: int)
    requires
        prefixo(x, y),
        0 <= t < x.len(),
    ensures
        y.contains(x[t]),
{
    assert(y[t] == y.take(x.len() as int)[t]);
}

proof fn lema_ate_contido(ba: Seq<Atomo>, bb: Seq<Atomo>, i: int)
    requires
        prefixo(ba, bb),
        0 <= i <= ba.len(),
    ensures
        fracoes_ate(ba, i).len() <= fracoes_ate(bb, i).len(),
        forall|t: int| 0 <= t < fracoes_ate(ba, i).len() ==> fracoes_ate(bb, i).contains(#[trigger] fracoes_ate(ba, i)[t]),
    decreases i,
{
    if i > 0 {
        lema_ate_contido(ba, bb, i - 1);
        lema_linha_prefixo(ba, bb, i - 1, ba.len() as int);
        lema_linha_cresce(bb, i - 1, ba.len() as int, bb.len() as int);
        let xa = fracoes_ate(ba, i - 1);
        let la = fracoes_linha(ba, i - 1, ba.len() as int);
        let xb = fracoes_ate(bb, i - 1);
        let lb = fracoes_linha(bb, i - 1, bb.len() as int);
        let sa = fracoes_ate(ba, i);
        let sb = fracoes_ate(bb, i);
        assert(sa == xa + la);
        assert(sb == xb + lb);
        assert forall|t: int| 0 <= t < sa.len() implies sb.contains(#[trigger] sa[t]) by {
            if t < xa.len() {
                assert(sa[t] == xa[t]);
                assert(xb.contains(xa[t]));
                let q = choose|q: int| 0 <= q < xb.len() && xb[q] == xa[t];
                assert(sb[q] == xb[q]);
            } else {
                let r = t - xa.len();
                assert(sa[t] == la[r]);
                assert(lb[r] == lb.take(la.len() as int)[r]);
                assert(sb[xb.len() + r] == lb[r]);
            }
        }
    }
}

/// A larger integer range keeps everything a smaller one has: its base terms
/// begin with the smaller range's base terms, it has at least as many
/// candidates, and every candidate of the smaller range is one of its own.
pub proof fn universo_cresce_com_o_alcance(a: i64, b: i64)
    requires
        a <= b,
    ensures
        prefixo(atomos_base(a), atomos_base(b)),
        candidatos(a).len() <= candidatos(b).len(),
        forall|i: int| 0 <= i < candidatos(a).len() ==> candidatos(b).contains(#[trigger] candidatos(a)[i]),
{
    lema_base_prefixo(a, b);
    let ba = atomos_base(a);
    let bb = atomos_base(b);
    lema_ate_contido(ba, bb, ba.len() as int);
    lema_ate_cresce(bb, ba.len() as int, bb.len() as int);
    let sa = simples(ba);
    let sb = simples(bb);
    let fa = fracoes_ate(ba, ba.len() as int);
    let fm = fracoes_ate(bb, ba.len() as int);
    let fb = fracoes_ate(bb, bb.len() as int);
    let ca = candidatos(a);
    let cb = candidatos(b);
    assert(ca == sa + fa);
    assert(cb == sb + fb);
    assert forall|i: int| 0 <= i < ca.len() implies cb.contains(#[trigger] ca[i]) by {
        if i < sa.len() {
            assert(ca[i] == Simbolo::Simples(ba[i]));
            assert(ba[i] == bb.take(ba.len() as int)[i]);
            assert(cb[i] == sb[i]);
        } else {
            let t = i - sa.len();
            assert(ca[i] == fa[t]);
            assert(fm.contains(fa[t]));
            let q = choose|q: int| 0 <= q < fm.len() && fm[q] == fa[t];
            assert(fb[q] == fb.take(fm.len() as int)[q]);
            assert(cb[sb.len() + q] == fb[q]);
        }
    }
}

/// No written term holds the field separator `|`.
pub proof fn exibicao_sem_barra(s: Simbolo)
    ensures
        sem_barra(exibicao(s)),
{
    match s {
        Simbolo::Simples(a) => atomo_sem_barra(a),
        Simbolo::Fracao(a, b) => {
            atomo_sem_barra(a);
            atomo_sem_barra(b);
            sem_barra_concat(exibicao_atomo(a), seq!['/']);
            sem_barra_concat(exibicao_atomo(a) + seq!['/'], exibicao_atomo(b));
        },
    }
}

proof fn atomo_sem_barra(a: Atomo)
    ensures
        sem_barra(exibicao_atomo(a)),
{
    match a {
        Atomo::Constante(c) => {},
        Atomo::Oposto(c) => {
            sem_barra_concat(seq!['-'], nome(c));
        },
        Atomo::Inteiro(n) => decimal_com_sinal_sem_barra(n as int),
        Atomo::Raiz(n) => {
            decimal_com_sinal_sem_barra(n as int);
            sem_barra_concat(seq!['√'], decimal_com_sinal(n as int));
        },
        Atomo::Log(n) => {
            decimal_com_sinal_sem_barra(n as int);
            sem_barra_concat(seq!['l', 'n', '('], decimal_com_sinal(n as int));
            sem_barra_concat(seq!['l', 'n', '('] + decimal_com_sinal(n as int), seq![')']);
        },
    }
}

/// Every integer `n` of `2..=alcance` brings its terms into the universe:
/// `n`, `-n` and `ln(n)` always, and `√n` whenever no natural number squares
/// to `n` (the only roots left out are those of perfect squares).
pub proof fn termos_de_cada_inteiro(alcance: i64, n: i64)
    requires
        2 <= n <= alcance,
    ensures
        atomos_base(alcance).contains(Atomo::Inteiro(n)),
        atomos_base(alcance).contains(Atomo::Inteiro((-n) as i64)),
        atomos_base(alcance).contains(Atomo::Log(n)),
        (forall|k: nat| #[trigger] (k * k) != n) ==> atomos_base(alcance).contains(Atomo::Raiz(n)),
{
    let ant = inteiros_ate(n - 1);
    let bl = bloco(n);
    let ate_n = inteiros_ate(n as int);
    assert(ate_n == ant + bl);
    lema_inteiros_prefixo(n as int, alcance as int);
    let tudo = inteiros_ate(alcance as int);
    let base = atomos_base(alcance);
    let e = atomos_elite();
    assert(base == e + tudo);
    assert forall|q: int| 0 <= q < bl.len() implies base.contains(#[trigger] bl[q]) by {
        let pos = ant.len() + q;
        assert(ate_n[pos] == bl[q]);
        assert(tudo[pos] == tudo.take(ate_n.len() as int)[pos]);
        assert(base[e.len() + pos] == tudo[pos]);
    }
    assert(bl[0] == Atomo::Inteiro(n));
    assert(bl[1] == Atomo::Inteiro((-n) as i64));
    if forall|k: nat| #[trigger] (k * k) != n {
        assert(!quadrado_perfeito(n as int));
        assert(bl[2] == Atomo::Raiz(n));
        assert(bl[3] == Atomo::Log(n));
    } else {
        assert(quadrado_perfeito(n as int));
        assert(bl[2] == Atomo::Log(n));
    }
}

/// A quotient scores its two parts plus 5; and the base terms score in the
/// order constants, their negations, positive integers, negative integers,
/// roots, logarithms, from simplest up.
pub proof fn pontuacao_ordenada(a: Atomo, b: Atomo, c1: Constante, c2: Constante, p: i64, q: i64, r: i64, l: i64)
    requires
        p > 0,
        q < 0,
    ensures
        pontuacao(Simbolo::Fracao(a, b)) == pontuacao(Simbolo::Simples(a)) + pontuacao(Simbolo::Simples(b)) + 5,
        pontuacao(Simbolo::Simples(Atomo::Constante(c1))) < pontuacao(Simbolo::Simples(Atomo::Oposto(c2))),
        pontuacao(Simbolo::Simples(Atomo::Oposto(c2))) < pontuacao(Simbolo::Simples(Atomo::Inteiro(p))),
        pontuacao(Simbolo::Simples(Atomo::Inteiro(p))) < pontuacao(Simbolo::Simples(Atomo::Inteiro(q))),
        pontuacao(Simbolo::Simples(Atomo::Inteiro(q))) < pontuacao(Simbolo::Simples(Atomo::Raiz(r))),
        pontuacao(Simbolo::Simples(Atomo::Raiz(r))) < pontuacao(Simbolo::Simples(Atomo::Log(l))),
        pontuacao(Simbolo::Simples(Atomo::Constante(c1))) >= 1,
{
}

/// The five constants and their negations are base terms of every universe.
pub proof fn constantes_presentes(alcance: i64, c: Constante)
    ensures
        atomos_base(alcance).contains(Atomo::Constante(c)),
        atomos_base(alcance).contains(Atomo::Oposto(c)),
{
    let b = atomos_base(alcance);
    let e = atomos_elite();
    assert(b == e + inteiros_ate(alcance as int));
    let k: int = match c {
        Constante::Pi => 0,
        Constante::E => 2,
        Constante::Phi => 4,
        Constante::Catalan => 6,
        Constante::Euler => 8,
    };
    assert(b[k] == e[k] && b[k + 1] == e[k + 1]);
}

/// Every quotient of two different base terms that is not trivial is a
/// candidate, and so is every base term.
pub proof fn candidatos_completos(alcance: i64, i: int, j: int)
    requires
        0 <= i < atomos_base(alcance).len(),
        0 <= j < atomos_base(alcance).len(),
    ensures
        candidatos(alcance).contains(Simbolo::Simples(atomos_base(alcance)[i])),
        i != j && !fracao_trivial_spec(atomos_base(alcance)[i], atomos_base(alcance)[j])
            ==> candidatos(alcance).contains(Simbolo::Fracao(atomos_base(alcance)[i], atomos_base(alcance)[j])),
{
    let b = atomos_base(alcance);
    let sb = simples(b);
    let f = fracoes_ate(b, b.len() as int);
    let c = candidatos(alcance);
    assert(c == sb + f);
    assert(c[i] == sb[i]);
    if i != j && !fracao_trivial_spec(b[i], b[j]) {
        let x = Simbolo::Fracao(b[i], b[j]);
        let l1 = fracoes_linha(b, i, j + 1);
        assert(l1 == fracoes_linha(b, i, j) + seq![x]);
        let p = l1.len() - 1;
        assert(l1[p] == x);
        lema_linha_cresce(b, i, j + 1, b.len() as int);
        let l = fracoes_linha(b, i, b.len() as int);
        assert(l[p] == l.take(l1.len() as int)[p]);
        let a = fracoes_ate(b, i);
        let a1 = fracoes_ate(b, i + 1);
        assert(a1 == a + l);
        assert(a1[a.len() + p] == x);
        lema_ate_cresce(b, i + 1, b.len() as int);
        let q = a.len() + p;
        assert(f[q] == f.take(a1.len() as int)[q]);
        assert(c[sb.len() + q] == x);
    }
}

} // verus!
