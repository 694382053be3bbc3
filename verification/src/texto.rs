//! Text as sequences of `char`: decimal numerals and UTF-8 lengths.
use vstd::prelude::*;

verus! {

/// The decimal digit that stands for `d` (for `d < 10`).
pub open spec fn digito(d: nat) -> char {
    if d == 0 { '0' }
    else if d == 1 { '1' }
    else if d == 2 { '2' }
    else if d == 3 { '3' }
    else if d == 4 { '4' }
    else if d == 5 { '5' }
    else if d == 6 { '6' }
    else if d == 7 { '7' }
    else if d == 8 { '8' }
    else { '9' }
}

/// The decimal numeral of a natural number, without leading zeros.
pub open spec fn decimal(n: nat) -> Seq<char>
    decreases n,
{
    if n < 10 {
        seq![digito(n)]
    } else {
        decimal(n / 10).push(digito(n % 10))
    }
}

/// The decimal numeral of an integer, with a leading `-` when it is negative.
pub open spec fn decimal_com_sinal(n: int) -> Seq<char> {
    if n < 0 {
        seq!['-'] + decimal((-n) as nat)
    } else {
        decimal(n as nat)
    }
}

/// Number of bytes that the UTF-8 encoding of `c` takes.
pub open spec fn bytes_utf8(c: char) -> nat {
    if (c as u32) < 0x80 { 1 }
    else if (c as u32) < 0x800 { 2 }
    else if (c as u32) < 0x10000 { 3 }
    else { 4 }
}

/// Number of bytes that the UTF-8 encoding of a whole text takes.
pub open spec fn bytes_texto(s: Seq<char>) -> nat
    decreases s.len(),
{
    if s.len() == 0 {
        0
    } else {
        bytes_texto(s.drop_last()) + bytes_utf8(s.last())
    }
}

/// `n` spaces.
pub open spec fn espacos(n: nat) -> Seq<char> {
    Seq::new(n, |i: int| ' ')
}

/// The character of the digit `d`.
pub fn caractere_digito(d: u64) -> (c: char)
    requires
        d < 10,
    ensures
        c == digito(d as nat),
{
    if d == 0 { '0' }
    else if d == 1 { '1' }
    else if d == 2 { '2' }
    else if d == 3 { '3' }
    else if d == 4 { '4' }
    else if d == 5 { '5' }
    else if d == 6 { '6' }
    else if d == 7 { '7' }
    else if d == 8 { '8' }
    else { '9' }
}

/// Writes a natural number in decimal (as `to_string` does).
pub fn escrever_natural(n: u64) -> (r: Vec<char>)
    ensures
        r@ == decimal(n as nat),
    decreases n,
{
    if n < 10 {
        let mut v: Vec<char> = Vec::new();
        v.push(caractere_digito(n));
        v
    } else {
        let mut v = escrever_natural(n / 10);
        v.push(caractere_digito(n % 10));
        v
    }
}

/// Writes an integer in decimal, with a leading `-` when it is negative.
pub fn escrever_inteiro(n: i64) -> (r: Vec<char>)
    ensures
        r@ == decimal_com_sinal(n as int),
{
    if n < 0 {
        let m: u64 = ((-(n + 1)) as u64) + 1;
        let mut v: Vec<char> = Vec::new();
        v.push('-');
        let mut d = escrever_natural(m);
        v.append(&mut d);
        v
    } else {
        escrever_natural(n as u64)
    }
}

/// Appends a copy of `b` to `a`.
pub fn anexar(a: &mut Vec<char>, b: &Vec<char>)
    ensures
        final(a)@ == old(a)@ + b@,
{
    let ghost inicial = a@;
    let mut i: usize = 0;
    while i < b.len()
        invariant
            i <= b.len(),
            a@ == inicial + b@.take(i as int),
        decreases b.len() - i,
    {
        a.push(b[i]);
        i += 1;
        assert(b@.take(i as int) =~= b@.take((i - 1) as int).push(b@[i - 1]));
    }
    assert(b@.take(b.len() as int) =~= b@);
}

/// Appends `n` spaces to `a`.
pub fn anexar_espacos(a: &mut Vec<char>, n: usize)
    ensures
        final(a)@ == old(a)@ + espacos(n as nat),
{
    let ghost inicial = a@;
    let mut i: usize = 0;
    while i < n
        invariant
            i <= n,
            a@ == inicial + espacos(i as nat),
        decreases n - i,
    {
        a.push(' ');
        i += 1;
        assert(espacos(i as nat) =~= espacos((i - 1) as nat).push(' '));
    }
}

/// Number of bytes in the UTF-8 encoding of `s` (what `str::len` returns).
pub fn comprimento_utf8(s: &Vec<char>) -> (r: usize)
    requires
        4 * s.len() <= usize::MAX,
    ensures
        r == bytes_texto(s@),
{
    let mut total: usize = 0;
    let mut i: usize = 0;
    while i < s.len()
        invariant
            i <= s.len(),
            4 * s.len() <= usize::MAX,
            total == bytes_texto(s@.take(i as int)),
            total <= 4 * i,
        decreases s.len() - i,
    {
        let c = s[i];
        let b: usize = if (c as u32) < 0x80 { 1 } else if (c as u32) < 0x800 { 2 } else if (c as u32) < 0x10000 { 3 } else { 4 };
        assert(s@.take((i + 1) as int).drop_last() =~= s@.take(i as int));
        total = total + b;
        i += 1;
    }
    assert(s@.take(s.len() as int) =~= s@);
    total
}

/// Whether two texts are equal.
pub fn textos_iguais(a: &Vec<char>, b: &Vec<char>) -> (r: bool)
    ensures
        r == (a@ == b@),
{
    if a.len() != b.len() {
        return false;
    }
    let mut i: usize = 0;
    while i < a.len()
        invariant
            i <= a.len(),
            a.len() == b.len(),
            forall|k: int| 0 <= k < i ==> a@[k] == b@[k],
        decreases a.len() - i,
    {
        if a[i] != b[i] {
            return false;
        }
        i += 1;
    }
    assert(a@ =~= b@);
    true
}

/// No character of `s` is the field separator `|`.
pub open spec fn sem_barra(s: Seq<char>) -> bool {
    forall|i: int| 0 <= i < s.len() ==> s[i] != '|'
}

/// Joining two texts without `|` gives a text without `|`.
pub proof fn sem_barra_concat(a: Seq<char>, b: Seq<char>)
    requires
        sem_barra(a),
        sem_barra(b),
    ensures
        sem_barra(a + b),
{
    assert forall|i: int| 0 <= i < (a + b).len() implies (a + b)[i] != '|' by {
        if i < a.len() {
            assert((a + b)[i] == a[i]);
        } else {
            assert((a + b)[i] == b[i - a.len()]);
        }
    }
}

/// A decimal numeral holds only digits, so no `|`, and at least one of them.
pub proof fn decimal_sem_barra(n: nat)
    ensures
        sem_barra(decimal(n)),
        decimal(n).len() >= 1,
    decreases n,
{
    if n >= 10 {
        decimal_sem_barra(n / 10);
        assert forall|i: int| 0 <= i < decimal(n).len() implies decimal(n)[i] != '|' by {
            if i < decimal(n / 10).len() {
                assert(decimal(n)[i] == decimal(n / 10)[i]);
            }
        }
    }
}

/// A signed decimal numeral holds no `|`.
pub proof fn decimal_com_sinal_sem_barra(n: int)
    ensures
        sem_barra(decimal_com_sinal(n)),
{
    if n < 0 {
        decimal_sem_barra((-n) as nat);
        sem_barra_concat(seq!['-'], decimal((-n) as nat));
    } else {
        decimal_sem_barra(n as nat);
    }
}

/// Different natural numbers have different decimal numerals.
pub proof fn decimal_injetivo(n: nat, m: nat)
    requires
        decimal(n) == decimal(m),
    ensures
        n == m,
    decreases n,
{
    decimal_sem_barra(n);
    decimal_sem_barra(m);
    if n >= 10 && m >= 10 {
        let dn = decimal(n);
        let dm = decimal(m);
        assert(dn.drop_last() =~= decimal(n / 10));
        assert(dm.drop_last() =~= decimal(m / 10));
        decimal_injetivo(n / 10, m / 10);
        assert(dn.last() == digito(n % 10));
        assert(dm.last() == digito(m % 10));
    } else if n >= 10 {
        decimal_sem_barra(n / 10);
        assert(decimal(n).len() >= 2);
    } else if m >= 10 {
        decimal_sem_barra(m / 10);
        assert(decimal(m).len() >= 2);
    } else {
        assert(decimal(n)[0] == digito(n));
        assert(decimal(m)[0] == digito(m));
    }
}

/// Fields separated by `|` can be read back: where `x` and `x2` hold no `|`,
/// `x|y` and `x2|y2` are equal only when `x == x2` and `y == y2`.
pub proof fn separar_campos(x: Seq<char>, y: Seq<char>, x2: Seq<char>, y2: Seq<char>)
    requires
        sem_barra(x),
        sem_barra(x2),
        x + seq!['|'] + y == x2 + seq!['|'] + y2,
    ensures
        x == x2,
        y == y2,
{
    let s = x + seq!['|'] + y;
    let s2 = x2 + seq!['|'] + y2;
    if x.len() < x2.len() {
        assert(s[x.len() as int] == '|');
        assert(s2[x.len() as int] == x2[x.len() as int]);
    } else if x2.len() < x.len() {
        assert(s2[x2.len() as int] == '|');
        assert(s[x2.len() as int] == x[x2.len() as int]);
    } else {
        assert forall|i: int| 0 <= i < x.len() implies x[i] == x2[i] by {
            assert(s[i] == x[i] && s2[i] == x2[i]);
        }
        assert(x =~= x2);
        assert(s.len() == x.len() + 1 + y.len());
        assert(s2.len() == x2.len() + 1 + y2.len());
        assert(y.len() == y2.len());
        let px = x + seq!['|'];
        assert(px.len() == x.len() + 1);
        assert forall|i: int| 0 <= i < y.len() implies y[i] == y2[i] by {
            assert(s[px.len() + i] == y[i]);
            assert(s2[px.len() + i] == y2[i]);
        }
        assert(y =~= y2);
    }
}

/// A text of ASCII characters takes one byte per character.
pub proof fn bytes_ascii(s: Seq<char>)
    requires
        forall|i: int| 0 <= i < s.len() ==> (s[i] as u32) < 0x80,
    ensures
        bytes_texto(s) == s.len(),
    decreases s.len(),
{
    if s.len() > 0 {
        bytes_ascii(s.drop_last());
    }
}

} // verus!
