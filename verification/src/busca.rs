//! The search's own bookkeeping: how many combinations a mode tries, how that
//! number is announced, the denominators of the Rabelian identity, the
//! signatures of what was found, and the register that announces each
//! identity once and no more than the asked-for number of them.
use vstd::prelude::*;
use crate::texto::{decimal, escrever_natural, anexar, textos_iguais, sem_barra, separar_campos, decimal_sem_barra, decimal_injetivo};
use crate::universo::{Termo, exibicao, exibicao_sem_barra};

verus! {

/// `base` to the power `e`.
pub open spec fn potencia(base: nat, e: nat) -> nat
    decreases e,
{
    if e == 0 { 1 } else { base * potencia(base, (e - 1) as nat) }
}

/// How many universe terms each combination of a mode takes: 6 for the
/// Rabelian identity (1), 3 for the quadratic (2), 4 for the cubic (3),
/// 3 for the series (4); 0 for any other mode.
pub open spec fn expoente_do_modo(modo: u8) -> nat {
    if modo == 1 { 6 }
    else if modo == 2 { 3 }
    else if modo == 3 { 4 }
    else if modo == 4 { 3 }
    else { 0 }
}

/// The number of combinations a mode tries over a universe of `tamanho` terms.
pub open spec fn combinacoes(modo: u8, tamanho: nat) -> nat {
    if expoente_do_modo(modo) == 0 { 0 } else { potencia(tamanho, expoente_do_modo(modo)) }
}

proof fn lema_potencia_cresce(base: nat, i: nat, e: nat)
    requires
        base >= 1,
        i <= e,
    ensures
        potencia(base, i) <= potencia(base, e),
    decreases e,
{
    if i < e {
        lema_potencia_cresce(base, i, (e - 1) as nat);
        let anterior = potencia(base, (e - 1) as nat);
        assert(base * anterior >= anterior) by (nonlinear_arith)
            requires
                base >= 1,
        ;
    }
}

/// The number of combinations that a mode tries over a universe of
/// `tamanho` terms, or `None` where it does not fit in a `u128`.
pub fn total_combinacoes(modo: u8, tamanho: usize) -> (r: Option<u128>)
    ensures
        r is None <==> combinacoes(modo, tamanho as nat) > u128::MAX,
        r matches Some(v) ==> v == combinacoes(modo, tamanho as nat),
{
    let e: u32 = if modo == 1 { 6 } else if modo == 2 { 3 } else if modo == 3 { 4 } else if modo == 4 { 3 } else { 0 };
    if e == 0 {
        return Some(0);
    }
    let mut r: u128 = 1;
    let mut i: u32 = 0;
    while i < e
        invariant
            i <= e,
            e == expoente_do_modo(modo),
            combinacoes(modo, tamanho as nat) == potencia(tamanho as nat, e as nat),
            r == potencia(tamanho as nat, i as nat),
        decreases e - i,
    {
        assert(potencia(tamanho as nat, (i + 1) as nat) == tamanho * potencia(tamanho as nat, i as nat));
        match (tamanho as u128).checked_mul(r) {
            Some(p) => {
                r = p;
            },
            None => {
                proof {
                    if tamanho >= 1 {
                        lema_potencia_cresce(tamanho as nat, (i + 1) as nat, e as nat);
                    }
                }
                return None;
            },
        }
        i += 1;
    }
    Some(r)
}

/// The unit in which a number of combinations is announced.
#[derive(PartialEq, Eq, Structural, Debug, Clone, Copy)]
pub enum Escala {
    /// 10^15
    Quadrilhoes,
    /// 10^12
    Trilhoes,
    /// 10^9
    Bilhoes,
    /// 10^6
    Milhoes,
}

/// The largest unit not above `num` (millions below that).
pub open spec fn escala_spec(num: u128) -> Escala {
    if num >= 1_000_000_000_000_000 {
        Escala::Quadrilhoes
    } else if num >= 1_000_000_000_000 {
        Escala::Trilhoes
    } else if num >= 1_000_000_000 {
        Escala::Bilhoes
    } else {
        Escala::Milhoes
    }
}

/// What a unit is worth.
pub open spec fn divisor_spec(e: Escala) -> u128 {
    match e {
        Escala::Quadrilhoes => 1_000_000_000_000_000,
        Escala::Trilhoes => 1_000_000_000_000,
        Escala::Bilhoes => 1_000_000_000,
        Escala::Milhoes => 1_000_000,
    }
}

/// The name of a unit.
pub open spec fn nome_escala(e: Escala) -> Seq<char> {
    match e {
        Escala::Quadrilhoes => seq!['Q', 'u', 'a', 'd', 'r', 'i', 'l', 'h', 'õ', 'e', 's'],
        Escala::Trilhoes => seq!['T', 'r', 'i', 'l', 'h', 'õ', 'e', 's'],
        Escala::Bilhoes => seq!['B', 'i', 'l', 'h', 'õ', 'e', 's'],
        Escala::Milhoes => seq!['M', 'i', 'l', 'h', 'õ', 'e', 's'],
    }
}

/// The unit in which `num` combinations are announced.
pub fn escala_compacta(num: u128) -> (r: Escala)
    ensures
        r == escala_spec(num),
{
    if num >= 1_000_000_000_000_000 {
        Escala::Quadrilhoes
    } else if num >= 1_000_000_000_000 {
        Escala::Trilhoes
    } else if num >= 1_000_000_000 {
        Escala::Bilhoes
    } else {
        Escala::Milhoes
    }
}

fn texto_de(s: &[char]) -> (r: Vec<char>)
    ensures
        r@ == s@,
{
    let mut v: Vec<char> = Vec::new();
    let mut i: usize = 0;
    while i < s.len()
        invariant
            i <= s.len(),
            v@ == s@.take(i as int),
        decreases s.len() - i,
    {
        v.push(s[i]);
        i += 1;
        assert(v@ =~= s@.take(i as int));
    }
    assert(s@.take(s.len() as int) =~= s@);
    v
}

impl Escala {
    /// What the unit is worth.
    pub fn divisor(&self) -> (r: u128)
        ensures
            r == divisor_spec(*self),
    {
        match self {
            Escala::Quadrilhoes => 1_000_000_000_000_000,
            Escala::Trilhoes => 1_000_000_000_000,
            Escala::Bilhoes => 1_000_000_000,
            Escala::Milhoes => 1_000_000,
        }
    }

    /// The unit's name.
    pub fn nome(&self) -> (r: Vec<char>)
        ensures
            r@ == nome_escala(*self),
    {
        let r = match self {
            Escala::Quadrilhoes => texto_de(&['Q', 'u', 'a', 'd', 'r', 'i', 'l', 'h', 'õ', 'e', 's']),
            Escala::Trilhoes => texto_de(&['T', 'r', 'i', 'l', 'h', 'õ', 'e', 's']),
            Escala::Bilhoes => texto_de(&['B', 'i', 'l', 'h', 'õ', 'e', 's']),
            Escala::Milhoes => texto_de(&['M', 'i', 'l', 'h', 'õ', 'e', 's']),
        };
        assert(r@ =~= nome_escala(*self));
        r
    }
}

/// How many steps the loop of the Rabelian identity's additive part
/// `A · Base^(B·π) + C / N^k + D` takes: the integer range, but at least 2.
/// Each step tries one base `N`; the constant `D` added is 1.
pub open spec fn limite_aditivo_spec(alcance: i64) -> int {
    if alcance >= 2 { alcance as int } else { 2 }
}

/// How many steps the loop of the Rabelian identity's additive part takes.
pub fn limite_aditivo(alcance: i64) -> (r: i64)
    ensures
        r == limite_aditivo_spec(alcance),
        r >= alcance,
        r >= 2,
        r == alcance || r == 2,
{
    if alcance >= 2 { alcance } else { 2 }
}

/// The base `N` of the zeta-like term `C / N^k` at step `d` (from 1 to the
/// additive range `m`): `d mod m + 2`.
pub open spec fn denominador_spec(d: int, alcance: i64) -> int {
    d % limite_aditivo_spec(alcance) + 2
}

/// The base `N` of the zeta-like term at step `d`.
pub fn denominador_rabeliano(d: i64, alcance: i64) -> (r: i64)
    requires
        1 <= d <= limite_aditivo_spec(alcance),
        denominador_spec(d as int, alcance) <= i64::MAX,
    ensures
        r == denominador_spec(d as int, alcance),
{
    let m = limite_aditivo(alcance);
    d % m + 2
}

/// Over the steps `1..=m` of the additive range, the base `N` takes every
/// value of `2..=m+1`, each at exactly one step.
pub proof fn denominadores_cobrem_a_faixa(alcance: i64, v: int)
    requires
        2 <= v <= limite_aditivo_spec(alcance) + 1,
    ensures
        exists|d: int| 1 <= d <= limite_aditivo_spec(alcance) && #[trigger] denominador_spec(d, alcance) == v,
        forall|d1: int, d2: int| 1 <= d1 <= limite_aditivo_spec(alcance) && 1 <= d2 <= limite_aditivo_spec(alcance)
            && #[trigger] denominador_spec(d1, alcance) == v && #[trigger] denominador_spec(d2, alcance) == v
            ==> d1 == d2,
{
    let m = limite_aditivo_spec(alcance);
    assert(m % m == 0) by (nonlinear_arith)
        requires
            m >= 2,
    ;
    if v == 2 {
        assert(denominador_spec(m, alcance) == v);
    } else {
        assert((v - 2) % m == v - 2) by (nonlinear_arith)
            requires
                m >= 2,
                1 <= v - 2 < m,
        ;
        assert(denominador_spec(v - 2, alcance) == v);
    }
    assert forall|d: int| 1 <= d <= m implies #[trigger] denominador_spec(d, alcance) == (if d == m { 2 } else { d + 2 }) by {
        if d < m {
            assert(d % m == d) by (nonlinear_arith)
                requires
                    1 <= d < m,
            ;
        }
    }
}

/// The signature of a Rabelian identity `A · Base^(B·π) + C / N^k + D`
/// (with `D` = 1, the constant the search adds): `RAB|A|Base|B|C|N|k`, the
/// terms as written.
pub open spec fn assinatura_rabeliana_spec(a: Termo, base: Termo, b: Termo, c: Termo, n: nat, k: Termo) -> Seq<char> {
    seq!['R', 'A', 'B', '|'] + exibicao(a.simbolo) + seq!['|'] + exibicao(base.simbolo) + seq!['|']
        + exibicao(b.simbolo) + seq!['|'] + exibicao(c.simbolo) + seq!['|'] + decimal(n) + seq!['|']
        + exibicao(k.simbolo)
}

/// The signature of a series `A · Σ 1 / (n + B)^k`: `SUM|A|B|k`.
pub open spec fn assinatura_somatorio_spec(a: Termo, b: Termo, k: Termo) -> Seq<char> {
    seq!['S', 'U', 'M', '|'] + exibicao(a.simbolo) + seq!['|'] + exibicao(b.simbolo) + seq!['|']
        + exibicao(k.simbolo)
}

/// The signature of a Rabelian identity.
pub fn assinatura_rabeliana(a: &Termo, base: &Termo, b: &Termo, c: &Termo, n: usize, k: &Termo) -> (r: Vec<char>)
    ensures
        r@ == assinatura_rabeliana_spec(*a, *base, *b, *c, n as nat, *k),
{
    let mut r = texto_de(&['R', 'A', 'B', '|']);
    anexar(&mut r, &a.exibicao());
    r.push('|');
    anexar(&mut r, &base.exibicao());
    r.push('|');
    anexar(&mut r, &b.exibicao());
    r.push('|');
    anexar(&mut r, &c.exibicao());
    r.push('|');
    anexar(&mut r, &escrever_natural(n as u64));
    r.push('|');
    anexar(&mut r, &k.exibicao());
    assert(r@ =~= assinatura_rabeliana_spec(*a, *base, *b, *c, n as nat, *k));
    r
}

/// The signature of a series.
pub fn assinatura_somatorio(a: &Termo, b: &Termo, k: &Termo) -> (r: Vec<char>)
    ensures
        r@ == assinatura_somatorio_spec(*a, *b, *k),
{
    let mut r = texto_de(&['S', 'U', 'M', '|']);
    anexar(&mut r, &a.exibicao());
    r.push('|');
    anexar(&mut r, &b.exibicao());
    r.push('|');
    anexar(&mut r, &k.exibicao());
    assert(r@ =~= assinatura_somatorio_spec(*a, *b, *k));
    r
}

/// Registering a signature: a new one joins the register, and is to be
/// announced when fewer than `cota` identities had been found; a known one
/// changes nothing and is not announced.
pub open spec fn registrar_spec(vistas: Seq<Seq<char>>, cota: nat, assinatura: Seq<char>) -> (Seq<Seq<char>>, bool) {
    if vistas.contains(assinatura) {
        (vistas, false)
    } else {
        (vistas.push(assinatura), vistas.len() < cota)
    }
}

/// The identities found so far, by signature, and how many of them are to be announced.
pub struct Registro {
    assinaturas: Vec<Vec<char>>,
    cota: usize,
}

impl Registro {
    /// The signatures registered, in the order they came.
    pub closed spec fn vistas(&self) -> Seq<Seq<char>> {
        self.assinaturas@.map_values(|v: Vec<char>| v@)
    }

    /// How many identities are to be announced at most.
    pub closed spec fn cota_spec(&self) -> nat {
        self.cota as nat
    }

    /// An empty register that announces at most `limite` identities.
    pub fn new(limite: usize) -> (r: Registro)
        ensures
            r.vistas() == Seq::<Seq<char>>::empty(),
            r.cota_spec() == limite,
    {
        let r = Registro { assinaturas: Vec::new(), cota: limite };
        assert(r.vistas() =~= Seq::<Seq<char>>::empty());
        r
    }

    /// How many different identities were found.
    pub fn encontrados(&self) -> (r: usize)
        ensures
            r == self.vistas().len(),
    {
        self.assinaturas.len()
    }

    /// Whether the asked-for number of identities has been found.
    pub fn limite_atingido(&self) -> (r: bool)
        ensures
            r == (self.vistas().len() >= self.cota_spec()),
    {
        self.assinaturas.len() >= self.cota
    }

    /// Registers an identity by its signature; says whether to announce it.
    pub fn registrar(&mut self, assinatura: Vec<char>) -> (r: bool)
        ensures
            (final(self).vistas(), r) == registrar_spec(old(self).vistas(), old(self).cota_spec(), assinatura@),
            final(self).cota_spec() == old(self).cota_spec(),
    {
        let ghost vistas = self.vistas();
        let mut j: usize = 0;
        while j < self.assinaturas.len()
            invariant
                vistas == self.vistas(),
                j <= self.assinaturas.len(),
                forall|m: int| 0 <= m < j ==> vistas[m] != assinatura@,
            decreases self.assinaturas.len() - j,
        {
            if textos_iguais(&self.assinaturas[j], &assinatura) {
                assert(vistas[j as int] == assinatura@);
                return false;
            }
            j += 1;
        }
        assert(!vistas.contains(assinatura@));
        let anunciar = self.assinaturas.len() < self.cota;
        self.assinaturas.push(assinatura);
        assert(self.vistas() =~= vistas.push(assinatura@));
        anunciar
    }
}

/// The register after a run of signatures, one after another.
pub open spec fn apos(vistas: Seq<Seq<char>>, cota: nat, sinais: Seq<Seq<char>>) -> Seq<Seq<char>>
    decreases sinais.len(),
{
    if sinais.len() == 0 {
        vistas
    } else {
        registrar_spec(apos(vistas, cota, sinais.drop_last()), cota, sinais.last()).0
    }
}

/// How many of a run of signatures are announced.
pub open spec fn anuncios(vistas: Seq<Seq<char>>, cota: nat, sinais: Seq<Seq<char>>) -> nat
    decreases sinais.len(),
{
    if sinais.len() == 0 {
        0
    } else {
        anuncios(vistas, cota, sinais.drop_last())
            + (if registrar_spec(apos(vistas, cota, sinais.drop_last()), cota, sinais.last()).1 { 1nat } else { 0nat })
    }
}

/// The smaller of two numbers.
pub open spec fn menor(a: nat, b: nat) -> nat {
    if a <= b { a } else { b }
}

/// A register never holds a signature twice.
pub proof fn registro_sem_repeticao(vistas: Seq<Seq<char>>, cota: nat, assinatura: Seq<char>)
    requires
        vistas.no_duplicates(),
    ensures
        registrar_spec(vistas, cota, assinatura).0.no_duplicates(),
        registrar_spec(vistas, cota, assinatura).0.contains(assinatura),
{
    let nova = registrar_spec(vistas, cota, assinatura).0;
    if !vistas.contains(assinatura) {
        assert(nova[vistas.len() as int] == assinatura);
        assert forall|i: int, j: int| 0 <= i < nova.len() && 0 <= j < nova.len() && i != j implies nova[i] != nova[j] by {
            if i < vistas.len() && j < vistas.len() {
                assert(nova[i] == vistas[i] && nova[j] == vistas[j]);
            } else if i < vistas.len() {
                assert(nova[i] == vistas[i]);
            } else {
                assert(nova[j] == vistas[j]);
            }
        }
    }
}

/// An identity already registered is never announced again.
pub proof fn registro_anuncia_uma_vez(vistas: Seq<Seq<char>>, cota: nat, assinatura: Seq<char>)
    requires
        vistas.contains(assinatura),
    ensures
        registrar_spec(vistas, cota, assinatura) == (vistas, false),
{
}

/// Over any run of signatures, the announcements are as many as the new
/// signatures up to the quota: starting empty, at most `cota` identities are
/// announced, however many are found.
pub proof fn anuncios_limitados(vistas: Seq<Seq<char>>, cota: nat, sinais: Seq<Seq<char>>)
    ensures
        anuncios(vistas, cota, sinais) + menor(vistas.len(), cota) == menor(apos(vistas, cota, sinais).len(), cota),
        vistas.len() == 0 ==> anuncios(vistas, cota, sinais) <= cota,
    decreases sinais.len(),
{
    if sinais.len() > 0 {
        anuncios_limitados(vistas, cota, sinais.drop_last());
    }
}

/// Some step of the additive loop tries the base `v`.
pub open spec fn base_tentada(alcance: i64, v: int) -> bool {
    exists|d: int| 1 <= d <= limite_aditivo_spec(alcance) && #[trigger] denominador_spec(d, alcance) == v
}

/// The additive loop takes `max(alcance, 2)` steps: at least the integer
/// range, at least 2, and one of the two; so over its steps the base `N`
/// runs through every integer of `2..=max(alcance, 2) + 1`, each once.
pub proof fn passos_aditivos(alcance: i64)
    ensures
        limite_aditivo_spec(alcance) >= alcance,
        limite_aditivo_spec(alcance) >= 2,
        limite_aditivo_spec(alcance) == alcance || limite_aditivo_spec(alcance) == 2,
        forall|v: int| 2 <= v <= alcance + 1 ==> #[trigger] base_tentada(alcance, v),
{
    assert forall|v: int| 2 <= v <= alcance + 1 implies #[trigger] base_tentada(alcance, v) by {
        denominadores_cobrem_a_faixa(alcance, v);
    }
}

/// Two series signatures are equal only when the series are written alike:
/// the same `A`, the same `B` and the same `k`.
pub proof fn assinatura_somatorio_injetiva(a: Termo, b: Termo, k: Termo, a2: Termo, b2: Termo, k2: Termo)
    requires
        assinatura_somatorio_spec(a, b, k) == assinatura_somatorio_spec(a2, b2, k2),
    ensures
        exibicao(a.simbolo) == exibicao(a2.simbolo),
        exibicao(b.simbolo) == exibicao(b2.simbolo),
        exibicao(k.simbolo) == exibicao(k2.simbolo),
{
    exibicao_sem_barra(a.simbolo);
    exibicao_sem_barra(a2.simbolo);
    exibicao_sem_barra(b.simbolo);
    exibicao_sem_barra(b2.simbolo);
    let s = assinatura_somatorio_spec(a, b, k);
    let s2 = assinatura_somatorio_spec(a2, b2, k2);
    let (ea, eb, ek) = (exibicao(a.simbolo), exibicao(b.simbolo), exibicao(k.simbolo));
    let (ea2, eb2, ek2) = (exibicao(a2.simbolo), exibicao(b2.simbolo), exibicao(k2.simbolo));
    assert(s.skip(4) =~= ea + seq!['|'] + (eb + seq!['|'] + ek));
    assert(s2.skip(4) =~= ea2 + seq!['|'] + (eb2 + seq!['|'] + ek2));
    separar_campos(ea, eb + seq!['|'] + ek, ea2, eb2 + seq!['|'] + ek2);
    separar_campos(eb, ek, eb2, ek2);
}

proof fn separar_seis(x1: Seq<char>, x2: Seq<char>, x3: Seq<char>, x4: Seq<char>, x5: Seq<char>, x6: Seq<char>,
    y1: Seq<char>, y2: Seq<char>, y3: Seq<char>, y4: Seq<char>, y5: Seq<char>, y6: Seq<char>)
    requires
        sem_barra(x1), sem_barra(x2), sem_barra(x3), sem_barra(x4), sem_barra(x5),
        sem_barra(y1), sem_barra(y2), sem_barra(y3), sem_barra(y4), sem_barra(y5),
        x1 + seq!['|'] + (x2 + seq!['|'] + (x3 + seq!['|'] + (x4 + seq!['|'] + (x5 + seq!['|'] + x6))))
            == y1 + seq!['|'] + (y2 + seq!['|'] + (y3 + seq!['|'] + (y4 + seq!['|'] + (y5 + seq!['|'] + y6)))),
    ensures
        x1 == y1, x2 == y2, x3 == y3, x4 == y4, x5 == y5, x6 == y6,
{
    let r5 = x5 + seq!['|'] + x6;
    let r4 = x4 + seq!['|'] + r5;
    let r3 = x3 + seq!['|'] + r4;
    let r2 = x2 + seq!['|'] + r3;
    let q5 = y5 + seq!['|'] + y6;
    let q4 = y4 + seq!['|'] + q5;
    let q3 = y3 + seq!['|'] + q4;
    let q2 = y2 + seq!['|'] + q3;
    separar_campos(x1, r2, y1, q2);
    separar_campos(x2, r3, y2, q3);
    separar_campos(x3, r4, y3, q4);
    separar_campos(x4, r5, y4, q5);
    separar_campos(x5, x6, y5, y6);
}

proof fn rabeliana_em_campos(a: Termo, base: Termo, b: Termo, c: Termo, n: nat, k: Termo)
    ensures
        assinatura_rabeliana_spec(a, base, b, c, n, k).skip(4) == exibicao(a.simbolo) + seq!['|'] + (exibicao(base.simbolo)
            + seq!['|'] + (exibicao(b.simbolo) + seq!['|'] + (exibicao(c.simbolo) + seq!['|'] + (decimal(n) + seq!['|']
            + exibicao(k.simbolo))))),
{
    let (x1, x2, x3, x4, x5, x6) = (exibicao(a.simbolo), exibicao(base.simbolo), exibicao(b.simbolo),
        exibicao(c.simbolo), decimal(n), exibicao(k.simbolo));
    assert(assinatura_rabeliana_spec(a, base, b, c, n, k).skip(4) =~= x1 + seq!['|'] + (x2 + seq!['|'] + (x3
        + seq!['|'] + (x4 + seq!['|'] + (x5 + seq!['|'] + x6)))));
}

/// Two Rabelian signatures are equal only when the identities are written
/// alike: the same `A`, `Base`, `B`, `C`, `N` and `k`.
pub proof fn assinatura_rabeliana_injetiva(a: Termo, base: Termo, b: Termo, c: Termo, n: nat, k: Termo,
    a2: Termo, base2: Termo, b2: Termo, c2: Termo, n2: nat, k2: Termo)
    requires
        assinatura_rabeliana_spec(a, base, b, c, n, k) == assinatura_rabeliana_spec(a2, base2, b2, c2, n2, k2),
    ensures
        exibicao(a.simbolo) == exibicao(a2.simbolo),
        exibicao(base.simbolo) == exibicao(base2.simbolo),
        exibicao(b.simbolo) == exibicao(b2.simbolo),
        exibicao(c.simbolo) == exibicao(c2.simbolo),
        n == n2,
        exibicao(k.simbolo) == exibicao(k2.simbolo),
{
    exibicao_sem_barra(a.simbolo);
    exibicao_sem_barra(a2.simbolo);
    exibicao_sem_barra(base.simbolo);
    exibicao_sem_barra(base2.simbolo);
    exibicao_sem_barra(b.simbolo);
    exibicao_sem_barra(b2.simbolo);
    exibicao_sem_barra(c.simbolo);
    exibicao_sem_barra(c2.simbolo);
    decimal_sem_barra(n);
    decimal_sem_barra(n2);
    rabeliana_em_campos(a, base, b, c, n, k);
    rabeliana_em_campos(a2, base2, b2, c2, n2, k2);
    separar_seis(exibicao(a.simbolo), exibicao(base.simbolo), exibicao(b.simbolo), exibicao(c.simbolo), decimal(n),
        exibicao(k.simbolo), exibicao(a2.simbolo), exibicao(base2.simbolo), exibicao(b2.simbolo),
        exibicao(c2.simbolo), decimal(n2), exibicao(k2.simbolo));
    decimal_injetivo(n, n2);
}

/// The announcement unit fits the number: from a million up, the unit is
/// not worth more than the number, and below the largest unit the number is
/// less than a thousand units.
pub proof fn escala_adequada(num: u128)
    ensures
        num >= 1_000_000 ==> divisor_spec(escala_spec(num)) <= num,
        escala_spec(num) != Escala::Quadrilhoes ==> num < 1000 * divisor_spec(escala_spec(num)),
{
}

} // verus!
