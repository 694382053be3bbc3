//! What the operator types: menu choices, numbers with their defaults, targets.
use vstd::prelude::*;
use vstd::string::*;
use crate::texto::{bytes_texto, comprimento_utf8, bytes_ascii, decimal, decimal_com_sinal, digito};

verus! {

/// The choices of the main menu.
#[derive(PartialEq, Eq, Structural, Debug, Clone, Copy)]
pub enum OpcaoPrincipal {
    /// `1`: start an analytic search.
    Buscar,
    /// `2`: show the manual of the flags.
    Manual,
    /// `0`: leave the program.
    Sair,
    /// Anything else: show the menu again.
    Nenhuma,
}

/// The main-menu choice that a (trimmed) answer selects.
pub open spec fn opcao_principal_spec(s: Seq<char>) -> OpcaoPrincipal {
    if s == seq!['1'] {
        OpcaoPrincipal::Buscar
    } else if s == seq!['2'] {
        OpcaoPrincipal::Manual
    } else if s == seq!['0'] {
        OpcaoPrincipal::Sair
    } else {
        OpcaoPrincipal::Nenhuma
    }
}

/// Reads the answer to the main menu.
pub fn opcao_principal(escolha: &str) -> (r: OpcaoPrincipal)
    ensures
        r == opcao_principal_spec(escolha@),
{
    if escolha.unicode_len() == 1 {
        let c = escolha.get_char(0);
        assert(escolha@ =~= seq![c]);
        if c == '1' {
            return OpcaoPrincipal::Buscar;
        } else if c == '2' {
            return OpcaoPrincipal::Manual;
        } else if c == '0' {
            return OpcaoPrincipal::Sair;
        }
    }
    OpcaoPrincipal::Nenhuma
}

/// The search engine that a (trimmed) answer selects: `1` to `4`, or none.
pub open spec fn modo_do_motor_spec(s: Seq<char>) -> Option<u8> {
    if s == seq!['1'] {
        Some(1u8)
    } else if s == seq!['2'] {
        Some(2u8)
    } else if s == seq!['3'] {
        Some(3u8)
    } else if s == seq!['4'] {
        Some(4u8)
    } else {
        None
    }
}

/// Reads the answer to the engine menu; `None` means "go back".
pub fn modo_do_motor(escolha: &str) -> (r: Option<u8>)
    ensures
        r == modo_do_motor_spec(escolha@),
{
    if escolha.unicode_len() == 1 {
        let c = escolha.get_char(0);
        assert(escolha@ =~= seq![c]);
        if c == '1' {
            return Some(1);
        } else if c == '2' {
            return Some(2);
        } else if c == '3' {
            return Some(3);
        } else if c == '4' {
            return Some(4);
        }
    }
    None
}

/// An ASCII decimal digit.
pub open spec fn eh_digito(c: char) -> bool {
    0x30 <= (c as u32) <= 0x39
}

/// The value of an ASCII decimal digit.
pub open spec fn valor_digito(c: char) -> nat {
    ((c as u32) - 0x30) as nat
}

/// Every character is an ASCII decimal digit.
pub open spec fn so_digitos(s: Seq<char>) -> bool {
    forall|i: int| 0 <= i < s.len() ==> eh_digito(#[trigger] s[i])
}

/// The value of a string of decimal digits.
pub open spec fn valor_decimal(s: Seq<char>) -> nat
    decreases s.len(),
{
    if s.len() == 0 {
        0
    } else {
        valor_decimal(s.drop_last()) * 10 + valor_digito(s.last())
    }
}

/// The magnitude written by `s`: one or more digits, and nothing else.
pub open spec fn magnitude(s: Seq<char>) -> Option<nat> {
    if s.len() > 0 && so_digitos(s) {
        Some(valor_decimal(s))
    } else {
        None
    }
}

/// The natural number that `s` writes, as an unsigned integer is read from text:
/// an optional `+`, then one or more ASCII digits.
pub open spec fn natural_de(s: Seq<char>) -> Option<nat> {
    if s.len() > 0 && s[0] == '+' {
        magnitude(s.drop_first())
    } else {
        magnitude(s)
    }
}

/// The integer that `s` writes, as a signed integer is read from text:
/// an optional `+` or `-`, then one or more ASCII digits.
pub open spec fn inteiro_de(s: Seq<char>) -> Option<int> {
    if s.len() > 0 && s[0] == '-' {
        match magnitude(s.drop_first()) {
            Some(m) => Some(-(m as int)),
            None => None,
        }
    } else {
        match natural_de(s) {
            Some(m) => Some(m as int),
            None => None,
        }
    }
}

/// `v` if it lies in `[minimo, maximo]`, else nothing: what a parse into a
/// fixed-width integer gives.
pub open spec fn dentro(v: Option<int>, minimo: int, maximo: int) -> Option<int> {
    match v {
        Some(x) => if minimo <= x <= maximo { Some(x) } else { None },
        None => None,
    }
}

/// The natural number that `s` writes, for a type whose largest value is `maximo`.
pub open spec fn natural_ate(s: Seq<char>, maximo: nat) -> Option<int> {
    match natural_de(s) {
        Some(m) => dentro(Some(m as int), 0, maximo as int),
        None => None,
    }
}

/// Reads the digits of `s` from `inicio` on, as long as their value is at most `maximo`.
fn ler_digitos(s: &str, inicio: usize, maximo: u64) -> (r: Option<u64>)
    requires
        inicio <= s@.len(),
    ensures
        r == (match magnitude(s@.skip(inicio as int)) {
            Some(m) => if m <= maximo { Some(m as u64) } else { None },
            None => None,
        }),
{
    let n = s.unicode_len();
    if inicio == n {
        assert(s@.skip(inicio as int).len() == 0);
        return None;
    }
    let ghost corpo = s@.skip(inicio as int);
    let mut acumulado: u128 = 0;
    let mut excedeu = false;
    let mut i: usize = inicio;
    while i < n
        invariant
            inicio <= i <= n,
            n == s@.len(),
            corpo == s@.skip(inicio as int),
            so_digitos(corpo.take(i - inicio)),
            !excedeu ==> acumulado == valor_decimal(corpo.take(i - inicio)) && acumulado <= maximo,
            excedeu ==> valor_decimal(corpo.take(i - inicio)) > maximo,
        decreases n - i,
    {
        let c = s.get_char(i);
        let ghost antes = corpo.take(i - inicio);
        let ghost depois = corpo.take(i + 1 - inicio);
        assert(corpo[i - inicio] == c);
        if !((c as u32) >= 0x30 && (c as u32) <= 0x39) {
            assert(!eh_digito(corpo[i - inicio]));
            return None;
        }
        assert(depois.drop_last() =~= antes);
        assert(depois.last() == c);
        assert(valor_decimal(depois) == valor_decimal(antes) * 10 + valor_digito(c));
        assert forall|k: int| 0 <= k < depois.len() implies eh_digito(#[trigger] depois[k]) by {
            if k < antes.len() {
                assert(depois[k] == antes[k]);
            }
        }
        if !excedeu {
            let d: u128 = ((c as u32) - 0x30) as u128;
            let novo: u128 = acumulado * 10 + d;
            if novo > maximo as u128 {
                excedeu = true;
            } else {
                acumulado = novo;
            }
        }
        i += 1;
    }
    assert(corpo.take(n - inicio) =~= corpo);
    if excedeu {
        None
    } else {
        Some(acumulado as u64)
    }
}

/// Reads an unsigned integer whose type's largest value is `maximo`
/// (`None` where the text is no such number).
pub fn analisar_natural(texto: &str, maximo: u64) -> (r: Option<u64>)
    ensures
        r matches Some(v) ==> natural_ate(texto@, maximo as nat) == Some(v as int),
        r is None ==> natural_ate(texto@, maximo as nat) is None,
{
    let n = texto.unicode_len();
    if n > 0 && texto.get_char(0) == '+' {
        assert(texto@.skip(1) =~= texto@.drop_first());
        ler_digitos(texto, 1, maximo)
    } else {
        assert(texto@.skip(0) =~= texto@);
        ler_digitos(texto, 0, maximo)
    }
}

/// Reads an `i64` (`None` where the text is no such number).
pub fn analisar_i64(texto: &str) -> (r: Option<i64>)
    ensures
        r matches Some(v) ==> dentro(inteiro_de(texto@), i64::MIN as int, i64::MAX as int) == Some(v as int),
        r is None ==> dentro(inteiro_de(texto@), i64::MIN as int, i64::MAX as int) is None,
{
    let n = texto.unicode_len();
    if n > 0 && texto.get_char(0) == '-' {
        assert(texto@.skip(1) =~= texto@.drop_first());
        match ler_digitos(texto, 1, 0x8000_0000_0000_0000u64) {
            Some(m) => {
                if m == 0x8000_0000_0000_0000u64 {
                    Some(i64::MIN)
                } else {
                    Some(-(m as i64))
                }
            },
            None => None,
        }
    } else {
        match analisar_natural(texto, 0x7fff_ffff_ffff_ffffu64) {
            Some(m) => Some(m as i64),
            None => None,
        }
    }
}

/// Reads a `u32`, or gives `padrao` where the text is no such number.
pub fn ler_u32_ou(texto: &str, padrao: u32) -> (r: u32)
    ensures
        r as int == (match natural_ate(texto@, u32::MAX as nat) {
            Some(v) => v,
            None => padrao as int,
        }),
{
    match analisar_natural(texto, u32::MAX as u64) {
        Some(v) => v as u32,
        None => padrao,
    }
}

/// Reads a `usize`, or gives `padrao` where the text is no such number.
pub fn ler_usize_ou(texto: &str, padrao: usize) -> (r: usize)
    ensures
        r as int == (match natural_ate(texto@, usize::MAX as nat) {
            Some(v) => v,
            None => padrao as int,
        }),
{
    match analisar_natural(texto, usize::MAX as u64) {
        Some(v) => v as usize,
        None => padrao,
    }
}

/// Reads an `i64`, or gives `padrao` where the text is no such number.
pub fn ler_i64_ou(texto: &str, padrao: i64) -> (r: i64)
    ensures
        r as int == (match dentro(inteiro_de(texto@), i64::MIN as int, i64::MAX as int) {
            Some(v) => v,
            None => padrao as int,
        }),
{
    match analisar_i64(texto) {
        Some(v) => v,
        None => padrao,
    }
}

/// A target as the operator types it, with decimal commas read as points.
pub open spec fn normalizado(s: Seq<char>) -> Seq<char> {
    Seq::new(s.len(), |i: int| if s[i] == ',' { '.' } else { s[i] })
}

/// Index of the first `.` in `s`, or its length where there is none.
pub open spec fn posicao_ponto(s: Seq<char>) -> nat
    decreases s.len(),
{
    if s.len() == 0 {
        0
    } else if s[0] == '.' {
        0
    } else {
        1 + posicao_ponto(s.drop_first())
    }
}

/// The decimal places of a target: the UTF-8 length of the text between its
/// first `.` and the next `.` (or the end); 0 where it has no `.`.
pub open spec fn casas_decimais(s: Seq<char>) -> nat {
    let t = normalizado(s);
    let p = posicao_ponto(t);
    if p >= t.len() {
        0
    } else {
        let resto = t.skip((p + 1) as int);
        bytes_texto(resto.take(posicao_ponto(resto) as int))
    }
}

/// Writes the target with its decimal commas turned into points.
pub fn normalizar_alvo(entrada: &str) -> (r: Vec<char>)
    ensures
        r@ == normalizado(entrada@),
{
    let n = entrada.unicode_len();
    let mut r: Vec<char> = Vec::new();
    let mut i: usize = 0;
    while i < n
        invariant
            i <= n,
            n == entrada@.len(),
            r@ == normalizado(entrada@).take(i as int),
        decreases n - i,
    {
        let c = entrada.get_char(i);
        if c == ',' {
            r.push('.');
        } else {
            r.push(c);
        }
        i += 1;
        assert(r@ =~= normalizado(entrada@).take(i as int));
    }
    assert(normalizado(entrada@).take(n as int) =~= normalizado(entrada@));
    r
}

/// Index of the first `.` at or after `de`, or the length.
fn proximo_ponto(t: &Vec<char>, de: usize) -> (p: usize)
    requires
        de <= t.len(),
    ensures
        p == de + posicao_ponto(t@.skip(de as int)),
        p <= t.len(),
{
    let mut i = de;
    while i < t.len() && t[i] != '.'
        invariant
            de <= i <= t.len(),
            posicao_ponto(t@.skip(de as int)) == (i - de) + posicao_ponto(t@.skip(i as int)),
        decreases t.len() - i,
    {
        assert(t@.skip(i as int).drop_first() =~= t@.skip(i + 1));
        i += 1;
    }
    if i < t.len() {
        assert(t@.skip(i as int)[0] == '.');
    } else {
        assert(t@.skip(i as int).len() == 0);
    }
    proof {
        lema_posicao_limitada(t@.skip(de as int));
    }
    i
}

proof fn lema_posicao_limitada(s: Seq<char>)
    ensures
        posicao_ponto(s) <= s.len(),
        posicao_ponto(s) < s.len() ==> s[posicao_ponto(s) as int] == '.',
    decreases s.len(),
{
    if s.len() > 0 && s[0] != '.' {
        lema_posicao_limitada(s.drop_first());
    }
}

/// The number of decimal places of a target (what the search's tolerance is made of).
pub fn casas_do_alvo(entrada: &str) -> (r: usize)
    requires
        4 * entrada@.len() <= usize::MAX,
    ensures
        r == casas_decimais(entrada@),
{
    let t = normalizar_alvo(entrada);
    assert(t@.skip(0) =~= t@);
    let p = proximo_ponto(&t, 0);
    if p >= t.len() {
        return 0;
    }
    let q = proximo_ponto(&t, p + 1);
    let mut trecho: Vec<char> = Vec::new();
    let mut k = p + 1;
    while k < q
        invariant
            p + 1 <= k <= q <= t.len(),
            trecho@ == t@.subrange(p + 1, k as int),
        decreases q - k,
    {
        trecho.push(t[k]);
        k += 1;
        assert(trecho@ =~= t@.subrange(p + 1, k as int));
    }
    assert(t@.skip(p + 1).take(q - (p + 1)) =~= t@.subrange(p + 1, q as int));
    comprimento_utf8(&trecho)
}

/// A target typed in the menu: `None` for an empty answer (which is skipped),
/// else its text with decimal points and its number of decimal places.
pub fn preparar_alvo(entrada: &str) -> (r: Option<(Vec<char>, usize)>)
    requires
        4 * entrada@.len() <= usize::MAX,
    ensures
        r is None <==> entrada@.len() == 0,
        r matches Some((t, c)) ==> t@ == normalizado(entrada@) && c == casas_decimais(entrada@),
{
    if entrada.unicode_len() == 0 {
        None
    } else {
        let t = normalizar_alvo(entrada);
        let c = casas_do_alvo(entrada);
        Some((t, c))
    }
}

/// How many targets an engine asks for: one for the Rabelian identity (1)
/// and for the series (4), else as many as the mode's number.
pub fn numero_de_alvos(modo: u8) -> (r: usize)
    ensures
        r == (if modo == 1 || modo == 4 { 1 } else { modo as int }),
{
    if modo == 1 || modo == 4 { 1 } else { modo as usize }
}

/// The search parameters given on the command line, with their defaults:
/// the mode (`grau`, 2 by default, kept to its low byte), the integer range
/// (5 by default) and the number of results (10 by default).
pub fn parametros_da_linha_de_comando(grau: Option<usize>, alcance: Option<i64>, resultados: Option<usize>) -> (r: (u8, i64, usize))
    ensures
        r.0 == (match grau { Some(g) => g % 256, None => 2 }),
        r.1 == (match alcance { Some(a) => a, None => 5 }),
        r.2 == (match resultados { Some(l) => l, None => 10 }),
{
    let g: usize = match grau { Some(g) => g, None => 2 };
    let modo: u8 = (g % 256) as u8;
    let a: i64 = match alcance { Some(a) => a, None => 5 };
    let l: usize = match resultados { Some(l) => l, None => 10 };
    (modo, a, l)
}

/// Neither a point nor a comma occurs in `s`.
pub open spec fn sem_separador(s: Seq<char>) -> bool {
    forall|i: int| 0 <= i < s.len() ==> s[i] != '.' && s[i] != ','
}

proof fn lema_normalizado_concat(x: Seq<char>, sep: char, y: Seq<char>)
    requires
        sem_separador(x),
        sem_separador(y),
        sep == '.' || sep == ',',
    ensures
        normalizado(x + seq![sep] + y) == x + seq!['.'] + y,
{
    let s = x + seq![sep] + y;
    assert forall|i: int| 0 <= i < s.len() implies normalizado(s)[i] == (x + seq!['.'] + y)[i] by {
        if i < x.len() {
            assert(s[i] == x[i]);
        } else if i > x.len() {
            assert(s[i] == y[i - x.len() - 1]);
        }
    }
    assert(normalizado(s) =~= x + seq!['.'] + y);
}

proof fn lema_posicao_sem_ponto(x: Seq<char>, resto: Seq<char>)
    requires
        forall|i: int| 0 <= i < x.len() ==> x[i] != '.',
    ensures
        posicao_ponto(x + resto) == x.len() + posicao_ponto(resto),
    decreases x.len(),
{
    if x.len() > 0 {
        assert((x + resto).drop_first() =~= x.drop_first() + resto);
        lema_posicao_sem_ponto(x.drop_first(), resto);
    } else {
        assert(x + resto =~= resto);
    }
}

/// A target written `x.y` or `x,y` (no other point or comma) has as many
/// decimal places as `y` takes bytes, with no bound: one per digit when `y`
/// is ASCII, so a target typed to `d` places has exactly `d`.
pub proof fn casas_do_texto_decimal(x: Seq<char>, sep: char, y: Seq<char>)
    requires
        sem_separador(x),
        sem_separador(y),
        sep == '.' || sep == ',',
    ensures
        casas_decimais(x + seq![sep] + y) == bytes_texto(y),
        (forall|i: int| 0 <= i < y.len() ==> (y[i] as u32) < 0x80) ==> casas_decimais(x + seq![sep] + y) == y.len(),
{
    lema_normalizado_concat(x, sep, y);
    let t = x + seq!['.'] + y;
    assert(t == x + (seq!['.'] + y));
    lema_posicao_sem_ponto(x, seq!['.'] + y);
    assert((seq!['.'] + y)[0] == '.');
    assert(posicao_ponto(seq!['.'] + y) == 0);
    assert(t.skip((x.len() + 1) as int) =~= y);
    lema_posicao_sem_ponto(y, Seq::<char>::empty());
    assert(y + Seq::<char>::empty() =~= y);
    assert(y.take(y.len() as int) =~= y);
    if forall|i: int| 0 <= i < y.len() ==> (y[i] as u32) < 0x80 {
        bytes_ascii(y);
    }
}

proof fn lema_digito(d: nat)
    requires
        d < 10,
    ensures
        eh_digito(digito(d)),
        valor_digito(digito(d)) == d,
{
}

/// Reading back the decimal numeral of `n` gives `n`.
pub proof fn decimal_lido_de_volta(n: nat)
    ensures
        so_digitos(decimal(n)),
        decimal(n).len() > 0,
        valor_decimal(decimal(n)) == n,
    decreases n,
{
    if n < 10 {
        lema_digito(n);
        assert(decimal(n).drop_last() =~= Seq::<char>::empty());
        assert(valor_decimal(Seq::<char>::empty()) == 0);
        assert(decimal(n).last() == digito(n));
    } else {
        decimal_lido_de_volta(n / 10);
        lema_digito(n % 10);
        let d = decimal(n);
        assert(d.drop_last() =~= decimal(n / 10));
        assert(d.last() == digito(n % 10));
        assert(valor_decimal(d) == valor_decimal(decimal(n / 10)) * 10 + valor_digito(digito(n % 10)));
        assert(n == (n / 10) * 10 + n % 10);
        assert forall|i: int| 0 <= i < d.len() implies eh_digito(#[trigger] d[i]) by {
            if i < d.len() - 1 {
                assert(d[i] == decimal(n / 10)[i]);
            }
        }
    }
}

/// A number written in decimal, with or without a leading `+` (and, for a
/// signed reading, with its `-`), is read back as itself.
pub proof fn numero_escrito_e_lido(n: nat, m: int)
    ensures
        natural_de(decimal(n)) == Some(n),
        natural_de(seq!['+'] + decimal(n)) == Some(n),
        inteiro_de(decimal_com_sinal(m)) == Some(m),
        inteiro_de(seq!['+'] + decimal(n)) == Some(n as int),
{
    decimal_lido_de_volta(n);
    assert(decimal(n)[0] != '+');
    assert((seq!['+'] + decimal(n)).drop_first() =~= decimal(n));
    assert(decimal(n)[0] != '-');
    if m < 0 {
        decimal_lido_de_volta((-m) as nat);
        assert((seq!['-'] + decimal((-m) as nat)).drop_first() =~= decimal((-m) as nat));
    } else {
        decimal_lido_de_volta(m as nat);
        assert(decimal(m as nat)[0] != '-' && decimal(m as nat)[0] != '+');
    }
}

} // verus!
