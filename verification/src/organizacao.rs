//! Putting the universe in order: merging the candidates that have the same
//! value, then sorting them by score, simplest first, ties kept in order.
use vstd::prelude::*;
use crate::texto::textos_iguais;
use crate::universo::{Termo, Simbolo, candidatos, simbolos, universo_cresce_com_o_alcance};

verus! {

/// The key at `i` repeats one of the keys before it.
pub open spec fn repetida(ks: Seq<Vec<char>>, i: int) -> bool {
    exists|j: int| 0 <= j < i && #[trigger] ks[j]@ == ks[i]@
}

/// The indices among `0..n` whose key does not occur earlier: the first
/// occurrence of each key, in order.
pub open spec fn indices_unicos(ks: Seq<Vec<char>>, n: int) -> Seq<int>
    decreases n,
{
    if n <= 0 {
        Seq::empty()
    } else if repetida(ks, n - 1) {
        indices_unicos(ks, n - 1)
    } else {
        indices_unicos(ks, n - 1).push(n - 1)
    }
}

/// The terms that are the first to carry their key.
pub open spec fn deduplicado(ts: Seq<Termo>, ks: Seq<Vec<char>>) -> Seq<Termo> {
    indices_unicos(ks, ks.len() as int).map_values(|i: int| ts[i])
}

/// Where a term of score `p` goes in a sequence: after every leading term
/// whose score is at most `p`.
pub open spec fn posicao_insercao(s: Seq<Termo>, p: u32) -> nat
    decreases s.len(),
{
    if s.len() == 0 {
        0
    } else if s[0].pontuacao > p {
        0
    } else {
        1 + posicao_insercao(s.drop_first(), p)
    }
}

/// Inserts `t` after the terms whose score is at most its own.
pub open spec fn inserir_ordenado(s: Seq<Termo>, t: Termo) -> Seq<Termo> {
    s.insert(posicao_insercao(s, t.pontuacao) as int, t)
}

/// The terms sorted by score; terms of equal score keep their order.
pub open spec fn ordenacao_estavel(s: Seq<Termo>) -> Seq<Termo>
    decreases s.len(),
{
    if s.len() == 0 {
        s
    } else {
        inserir_ordenado(ordenacao_estavel(s.drop_last()), s.last())
    }
}

/// The scores never decrease along `s`.
pub open spec fn ordenado(s: Seq<Termo>) -> bool {
    forall|i: int, j: int| 0 <= i <= j < s.len() ==> s[i].pontuacao <= s[j].pontuacao
}

/// The terms of `s` whose score is `p`, in order.
pub open spec fn com_pontuacao(s: Seq<Termo>, p: u32) -> Seq<Termo>
    decreases s.len(),
{
    if s.len() == 0 {
        Seq::empty()
    } else if s.last().pontuacao == p {
        com_pontuacao(s.drop_last(), p).push(s.last())
    } else {
        com_pontuacao(s.drop_last(), p)
    }
}

/// The kept terms, in their order.
pub fn deduplicar(ts: &Vec<Termo>, chaves: &Vec<Vec<char>>) -> (r: Vec<Termo>)
    requires
        ts.len() == chaves.len(),
    ensures
        r@ == deduplicado(ts@, chaves@),
{
    let ghost ks = chaves@;
    let mut r: Vec<Termo> = Vec::new();
    let mut i: usize = 0;
    while i < chaves.len()
        invariant
            ks == chaves@,
            ts.len() == chaves.len(),
            i <= chaves.len(),
            r@ == indices_unicos(ks, i as int).map_values(|k: int| ts@[k]),
        decreases chaves.len() - i,
    {
        let mut j: usize = 0;
        let mut achou = false;
        while j < i && !achou
            invariant
                ks == chaves@,
                i < chaves.len(),
                j <= i,
                achou ==> repetida(ks, i as int),
                !achou ==> forall|m: int| 0 <= m < j ==> ks[m]@ != ks[i as int]@,
            decreases i - j + (if achou { 0int } else { 1int }),
        {
            if textos_iguais(&chaves[j], &chaves[i]) {
                achou = true;
                assert(ks[j as int]@ == ks[i as int]@);
            } else {
                j += 1;
            }
        }
        let ghost antes = r@;
        if !achou {
            assert(!repetida(ks, i as int));
            r.push(ts[i]);
            assert(indices_unicos(ks, i + 1) == indices_unicos(ks, i as int).push(i as int));
            assert(r@ =~= indices_unicos(ks, i + 1).map_values(|k: int| ts@[k]));
        } else {
            assert(indices_unicos(ks, i + 1) == indices_unicos(ks, i as int));
        }
        i += 1;
    }
    r
}

proof fn lema_posicao_passo(s: Seq<Termo>, j: int, p: u32)
    requires
        0 <= j < s.len(),
        s[j].pontuacao <= p,
    ensures
        posicao_insercao(s.skip(j), p) == 1 + posicao_insercao(s.skip(j + 1), p),
{
    assert(s.skip(j).drop_first() =~= s.skip(j + 1));
}

/// Inserts `t` where `inserir_ordenado` says.
fn inserir(r: &mut Vec<Termo>, t: Termo)
    ensures
        final(r)@ == inserir_ordenado(old(r)@, t),
{
    let mut j: usize = 0;
    assert(r@.skip(0) =~= r@);
    while j < r.len() && r[j].pontuacao <= t.pontuacao
        invariant
            j <= r.len(),
            posicao_insercao(r@, t.pontuacao) == j + posicao_insercao(r@.skip(j as int), t.pontuacao),
        decreases r.len() - j,
    {
        proof {
            lema_posicao_passo(r@, j as int, t.pontuacao);
        }
        j += 1;
    }
    assert(posicao_insercao(r@.skip(j as int), t.pontuacao) == 0);
    r.insert(j, t);
}

/// The terms sorted by score, simplest first; terms of equal score keep
/// their order (a stable sort).
pub fn ordenar_por_pontuacao(ts: &Vec<Termo>) -> (r: Vec<Termo>)
    ensures
        r@ == ordenacao_estavel(ts@),
{
    let mut r: Vec<Termo> = Vec::new();
    let mut i: usize = 0;
    while i < ts.len()
        invariant
            i <= ts.len(),
            r@ == ordenacao_estavel(ts@.take(i as int)),
        decreases ts.len() - i,
    {
        assert(ts@.take(i + 1).drop_last() =~= ts@.take(i as int));
        inserir(&mut r, ts[i]);
        i += 1;
    }
    assert(ts@.take(ts.len() as int) =~= ts@);
    r
}

/// The universe in order: the first candidate of each value (the values are
/// given by `chaves`, one per candidate), sorted by score.
pub fn organizar_universo(candidatos: &Vec<Termo>, chaves: &Vec<Vec<char>>) -> (r: Vec<Termo>)
    requires
        candidatos.len() == chaves.len(),
    ensures
        r@ == ordenacao_estavel(deduplicado(candidatos@, chaves@)),
{
    let unicos = deduplicar(candidatos, chaves);
    ordenar_por_pontuacao(&unicos)
}

proof fn lema_posicao_em_ordenado(s: Seq<Termo>, p: u32)
    requires
        ordenado(s),
    ensures
        posicao_insercao(s, p) <= s.len(),
        forall|k: int| 0 <= k < posicao_insercao(s, p) ==> s[k].pontuacao <= p,
        forall|k: int| posicao_insercao(s, p) <= k < s.len() ==> s[k].pontuacao > p,
    decreases s.len(),
{
    if s.len() > 0 {
        if s[0].pontuacao > p {
            assert forall|k: int| 0 <= k < s.len() implies s[k].pontuacao > p by {
                assert(s[0].pontuacao <= s[k].pontuacao);
            }
        } else {
            let t = s.drop_first();
            assert(ordenado(t)) by {
                assert forall|i: int, j: int| 0 <= i <= j < t.len() implies t[i].pontuacao <= t[j].pontuacao by {
                    assert(t[i] == s[i + 1] && t[j] == s[j + 1]);
                }
            }
            lema_posicao_em_ordenado(t, p);
            assert forall|k: int| 0 <= k < posicao_insercao(s, p) implies s[k].pontuacao <= p by {
                if k > 0 {
                    assert(s[k] == t[k - 1]);
                }
            }
            assert forall|k: int| posicao_insercao(s, p) <= k < s.len() implies s[k].pontuacao > p by {
                assert(s[k] == t[k - 1]);
            }
        }
    }
}

/// Sorting by score yields a sequence whose scores never decrease, of the same length.
pub proof fn ordenacao_e_ordenada(s: Seq<Termo>)
    ensures
        ordenado(ordenacao_estavel(s)),
        ordenacao_estavel(s).len() == s.len(),
    decreases s.len(),
{
    if s.len() > 0 {
        let o = ordenacao_estavel(s.drop_last());
        let x = s.last();
        ordenacao_e_ordenada(s.drop_last());
        lema_posicao_em_ordenado(o, x.pontuacao);
        let pos = posicao_insercao(o, x.pontuacao) as int;
        let n = o.insert(pos, x);
        assert(n == ordenacao_estavel(s));
        assert forall|i: int, j: int| 0 <= i <= j < n.len() implies n[i].pontuacao <= n[j].pontuacao by {
            if i < pos {
                assert(n[i] == o[i]);
                if j < pos {
                    assert(n[j] == o[j]);
                } else if j > pos {
                    assert(n[j] == o[j - 1]);
                }
            } else if i == pos {
                if j > pos {
                    assert(n[j] == o[j - 1]);
                }
            } else {
                assert(n[i] == o[i - 1]);
                assert(n[j] == o[j - 1]);
            }
        }
    }
}

proof fn lema_classe_concat(a: Seq<Termo>, b: Seq<Termo>, p: u32)
    ensures
        com_pontuacao(a + b, p) == com_pontuacao(a, p) + com_pontuacao(b, p),
    decreases b.len(),
{
    if b.len() == 0 {
        assert(a + b =~= a);
        assert(com_pontuacao(a, p) + com_pontuacao(b, p) =~= com_pontuacao(a, p));
    } else {
        assert((a + b).drop_last() =~= a + b.drop_last());
        assert((a + b).last() == b.last());
        lema_classe_concat(a, b.drop_last(), p);
        if b.last().pontuacao == p {
            assert(com_pontuacao(a, p) + com_pontuacao(b.drop_last(), p).push(b.last())
                =~= (com_pontuacao(a, p) + com_pontuacao(b.drop_last(), p)).push(b.last()));
        }
    }
}

proof fn lema_classe_vazia(s: Seq<Termo>, p: u32)
    requires
        forall|k: int| 0 <= k < s.len() ==> s[k].pontuacao != p,
    ensures
        com_pontuacao(s, p) == Seq::<Termo>::empty(),
    decreases s.len(),
{
    if s.len() > 0 {
        lema_classe_vazia(s.drop_last(), p);
    }
}

/// Sorting keeps, for every score, the terms of that score in the order they
/// had: the sort is stable, and it neither loses nor adds a term.
pub proof fn ordenacao_preserva_classes(s: Seq<Termo>, p: u32)
    ensures
        com_pontuacao(ordenacao_estavel(s), p) == com_pontuacao(s, p),
    decreases s.len(),
{
    if s.len() > 0 {
        let o = ordenacao_estavel(s.drop_last());
        let x = s.last();
        ordenacao_preserva_classes(s.drop_last(), p);
        ordenacao_e_ordenada(s.drop_last());
        lema_posicao_em_ordenado(o, x.pontuacao);
        let pos = posicao_insercao(o, x.pontuacao) as int;
        let antes = o.take(pos);
        let depois = o.skip(pos);
        assert(o.insert(pos, x) =~= antes + seq![x] + depois);
        assert(o =~= antes + depois);
        lema_classe_concat(antes + seq![x], depois, p);
        lema_classe_concat(antes, seq![x], p);
        lema_classe_concat(antes, depois, p);
        assert(seq![x].drop_last() =~= Seq::<Termo>::empty());
        assert(com_pontuacao(Seq::<Termo>::empty(), p) == Seq::<Termo>::empty());
        if x.pontuacao == p {
            assert forall|k: int| 0 <= k < depois.len() implies depois[k].pontuacao != p by {
                assert(depois[k] == o[pos + k]);
            }
            lema_classe_vazia(depois, p);
            assert(com_pontuacao(seq![x], p) =~= seq![x]);
            assert(com_pontuacao(o, p) =~= com_pontuacao(antes, p));
            assert(com_pontuacao(o.insert(pos, x), p) =~= com_pontuacao(o, p).push(x));
        } else {
            assert(com_pontuacao(seq![x], p) =~= Seq::<Termo>::empty());
            assert(com_pontuacao(o.insert(pos, x), p) =~= com_pontuacao(o, p));
        }
    }
}

/// The kept index at position `a` of `idx` carries the key of `k` and is not after it.
pub open spec fn representa(ks: Seq<Vec<char>>, idx: Seq<int>, k: int, a: int) -> bool {
    &&& 0 <= a < idx.len()
    &&& idx[a] <= k
    &&& ks[idx[a]]@ == ks[k]@
}

/// Some kept index of `idx` carries the key of `k` and is not after it.
pub open spec fn representado(ks: Seq<Vec<char>>, idx: Seq<int>, k: int) -> bool {
    exists|a: int| #[trigger] representa(ks, idx, k, a)
}

/// Merging by key keeps the first candidate of each key, and only it: the
/// kept indices increase, their keys are pairwise different, and every key
/// of `0..n` is the key of a kept index no later than its own.
pub proof fn unicos_distintos_e_completos(ks: Seq<Vec<char>>, n: int)
    requires
        0 <= n <= ks.len(),
    ensures
        forall|a: int, b: int| 0 <= a < b < indices_unicos(ks, n).len()
            ==> indices_unicos(ks, n)[a] < indices_unicos(ks, n)[b],
        forall|a: int| 0 <= a < indices_unicos(ks, n).len()
            ==> 0 <= #[trigger] indices_unicos(ks, n)[a] < n,
        forall|a: int, b: int| 0 <= a < b < indices_unicos(ks, n).len()
            ==> ks[indices_unicos(ks, n)[a]]@ != ks[indices_unicos(ks, n)[b]]@,
        forall|k: int| 0 <= k < n ==> #[trigger] representado(ks, indices_unicos(ks, n), k),
    decreases n,
{
    if n > 0 {
        unicos_distintos_e_completos(ks, n - 1);
        let ant = indices_unicos(ks, n - 1);
        let idx = indices_unicos(ks, n);
        if !repetida(ks, n - 1) {
            assert(idx == ant.push(n - 1));
            assert forall|a: int, b: int| 0 <= a < b < idx.len() implies ks[idx[a]]@ != ks[idx[b]]@ by {
                if b == idx.len() - 1 {
                    let j = idx[a];
                    assert(0 <= j < n - 1);
                    if ks[j]@ == ks[n - 1]@ {
                        assert(repetida(ks, n - 1));
                    }
                } else {
                    assert(idx[a] == ant[a] && idx[b] == ant[b]);
                }
            }
            assert forall|k: int| 0 <= k < n implies #[trigger] representado(ks, idx, k) by {
                if k == n - 1 {
                    assert(representa(ks, idx, k, idx.len() - 1));
                } else {
                    assert(representado(ks, ant, k));
                    let a = choose|a: int| #[trigger] representa(ks, ant, k, a);
                    assert(representa(ks, idx, k, a));
                }
            }
        } else {
            assert(idx == ant);
            assert forall|k: int| 0 <= k < n implies #[trigger] representado(ks, idx, k) by {
                if k == n - 1 {
                    let j = choose|j: int| 0 <= j < n - 1 && #[trigger] ks[j]@ == ks[n - 1]@;
                    assert(representado(ks, ant, j));
                    let a = choose|a: int| #[trigger] representa(ks, ant, j, a);
                    assert(representa(ks, idx, k, a));
                } else {
                    assert(representado(ks, ant, k));
                    let a = choose|a: int| #[trigger] representa(ks, ant, k, a);
                    assert(representa(ks, idx, k, a));
                }
            }
        }
    }
}

proof fn lema_classe_contem(s: Seq<Termo>, p: u32)
    ensures
        forall|k: int| 0 <= k < s.len() && s[k].pontuacao == p ==> com_pontuacao(s, p).contains(#[trigger] s[k]),
        forall|k: int| 0 <= k < com_pontuacao(s, p).len() ==> s.contains(#[trigger] com_pontuacao(s, p)[k]),
    decreases s.len(),
{
    if s.len() > 0 {
        let r = s.drop_last();
        lema_classe_contem(r, p);
        let c = com_pontuacao(s, p);
        let cr = com_pontuacao(r, p);
        assert forall|k: int| 0 <= k < s.len() && s[k].pontuacao == p implies c.contains(#[trigger] s[k]) by {
            if k == s.len() - 1 {
                assert(c == cr.push(s.last()));
                assert(c[cr.len() as int] == s[k]);
            } else {
                assert(s[k] == r[k]);
                assert(cr.contains(r[k]));
                let q = choose|q: int| 0 <= q < cr.len() && cr[q] == r[k];
                assert(c[q] == cr[q]);
            }
        }
        assert forall|k: int| 0 <= k < c.len() implies s.contains(#[trigger] c[k]) by {
            if k < cr.len() {
                assert(c[k] == cr[k]);
                assert(r.contains(cr[k]));
                let q = choose|q: int| 0 <= q < r.len() && r[q] == cr[k];
                assert(s[q] == r[q]);
            } else {
                assert(c[k] == s.last());
                assert(s[s.len() - 1] == s.last());
            }
        }
    }
}

/// Sorting neither drops nor invents a term.
pub proof fn ordenacao_mesmos_termos(s: Seq<Termo>)
    ensures
        forall|k: int| 0 <= k < s.len() ==> ordenacao_estavel(s).contains(#[trigger] s[k]),
        forall|k: int| 0 <= k < ordenacao_estavel(s).len() ==> s.contains(#[trigger] ordenacao_estavel(s)[k]),
{
    let o = ordenacao_estavel(s);
    assert forall|k: int| 0 <= k < s.len() implies o.contains(#[trigger] s[k]) by {
        let p = s[k].pontuacao;
        lema_classe_contem(s, p);
        lema_classe_contem(o, p);
        ordenacao_preserva_classes(s, p);
        let c = com_pontuacao(s, p);
        let q = choose|q: int| 0 <= q < c.len() && c[q] == s[k];
        assert(com_pontuacao(o, p)[q] == s[k]);
    }
    assert forall|k: int| 0 <= k < o.len() implies s.contains(#[trigger] o[k]) by {
        let p = o[k].pontuacao;
        lema_classe_contem(s, p);
        lema_classe_contem(o, p);
        ordenacao_preserva_classes(s, p);
        let c = com_pontuacao(o, p);
        let q = choose|q: int| 0 <= q < c.len() && c[q] == o[k];
        assert(com_pontuacao(s, p)[q] == o[k]);
    }
}

/// The keys that merging keeps, in order.
pub open spec fn chaves_mantidas(ks: Seq<Vec<char>>) -> Seq<Seq<char>> {
    indices_unicos(ks, ks.len() as int).map_values(|i: int| ks[i]@)
}

/// The candidates of a range, with their keys given by `chave`.
pub open spec fn chaveados(alcance: i64, ts: Seq<Termo>, ks: Seq<Vec<char>>, chave: spec_fn(Simbolo) -> Seq<char>) -> bool {
    &&& simbolos(ts) == candidatos(alcance)
    &&& ks.len() == ts.len()
    &&& forall|i: int| 0 <= i < ks.len() ==> #[trigger] ks[i]@ == chave(ts[i].simbolo)
}

/// Every key of a range's candidates is a key that merging keeps for a larger range.
proof fn lema_chave_mantida(a: i64, b: i64, ta: Seq<Termo>, ka: Seq<Vec<char>>, tb: Seq<Termo>, kb: Seq<Vec<char>>,
    chave: spec_fn(Simbolo) -> Seq<char>, i: int) -> (m: int)
    requires
        a <= b,
        chaveados(a, ta, ka, chave),
        chaveados(b, tb, kb, chave),
        0 <= i < ka.len(),
    ensures
        0 <= m < indices_unicos(kb, kb.len() as int).len(),
        kb[indices_unicos(kb, kb.len() as int)[m]]@ == ka[i]@,
{
    universo_cresce_com_o_alcance(a, b);
    unicos_distintos_e_completos(kb, kb.len() as int);
    assert(simbolos(ta)[i] == ta[i].simbolo);
    assert(candidatos(b).contains(candidatos(a)[i]));
    let q = choose|q: int| 0 <= q < candidatos(b).len() && candidatos(b)[q] == candidatos(a)[i];
    assert(simbolos(tb)[q] == tb[q].simbolo);
    assert(kb[q]@ == ka[i]@);
    assert(representado(kb, indices_unicos(kb, kb.len() as int), q));
    let m = choose|m: int| #[trigger] representa(kb, indices_unicos(kb, kb.len() as int), q, m);
    m
}

/// A larger integer range keeps every value of a smaller one: each term of
/// the ordered universe for `a` has the key of some term of the ordered
/// universe for `b`, and the universe for `b` has at least as many terms.
/// (The keys are any function `chave` of the terms, as the values are.)
pub proof fn universo_organizado_cresce(a: i64, b: i64, ta: Seq<Termo>, ka: Seq<Vec<char>>, tb: Seq<Termo>,
    kb: Seq<Vec<char>>, chave: spec_fn(Simbolo) -> Seq<char>)
    requires
        a <= b,
        chaveados(a, ta, ka, chave),
        chaveados(b, tb, kb, chave),
    ensures
        forall|i: int| 0 <= i < ordenacao_estavel(deduplicado(ta, ka)).len() ==> exists|j: int|
            0 <= j < ordenacao_estavel(deduplicado(tb, kb)).len()
            && chave(ordenacao_estavel(deduplicado(tb, kb))[j].simbolo)
                == chave(#[trigger] ordenacao_estavel(deduplicado(ta, ka))[i].simbolo),
        ordenacao_estavel(deduplicado(ta, ka)).len() <= ordenacao_estavel(deduplicado(tb, kb)).len(),
{
    let da = deduplicado(ta, ka);
    let db = deduplicado(tb, kb);
    let ua = ordenacao_estavel(da);
    let ub = ordenacao_estavel(db);
    let ia = indices_unicos(ka, ka.len() as int);
    let ib = indices_unicos(kb, kb.len() as int);
    unicos_distintos_e_completos(ka, ka.len() as int);
    unicos_distintos_e_completos(kb, kb.len() as int);
    ordenacao_mesmos_termos(da);
    ordenacao_mesmos_termos(db);
    ordenacao_e_ordenada(da);
    ordenacao_e_ordenada(db);
    assert forall|i: int| 0 <= i < ua.len() implies exists|j: int| 0 <= j < ub.len()
        && chave(ub[j].simbolo) == chave(#[trigger] ua[i].simbolo) by {
        assert(da.contains(ua[i]));
        let p = choose|p: int| 0 <= p < da.len() && da[p] == ua[i];
        let x = ia[p];
        assert(da[p] == ta[x]);
        let m = lema_chave_mantida(a, b, ta, ka, tb, kb, chave, x);
        assert(db[m] == tb[ib[m]]);
        assert(ub.contains(db[m]));
        let j = choose|j: int| 0 <= j < ub.len() && ub[j] == db[m];
        assert(kb[ib[m]]@ == chave(tb[ib[m]].simbolo));
        assert(ka[x]@ == chave(ta[x].simbolo));
    }
    let ca = chaves_mantidas(ka);
    let cb = chaves_mantidas(kb);
    assert(ca.no_duplicates()) by {
        assert forall|x: int, y: int| 0 <= x < ca.len() && 0 <= y < ca.len() && x != y implies ca[x] != ca[y] by {
            if x < y {
                assert(ka[ia[x]]@ != ka[ia[y]]@);
            } else {
                assert(ka[ia[y]]@ != ka[ia[x]]@);
            }
        }
    }
    assert(cb.no_duplicates()) by {
        assert forall|x: int, y: int| 0 <= x < cb.len() && 0 <= y < cb.len() && x != y implies cb[x] != cb[y] by {
            if x < y {
                assert(kb[ib[x]]@ != kb[ib[y]]@);
            } else {
                assert(kb[ib[y]]@ != kb[ib[x]]@);
            }
        }
    }
    ca.unique_seq_to_set();
    cb.unique_seq_to_set();
    assert(ca.to_set().subset_of(cb.to_set())) by {
        assert forall|k: Seq<char>| ca.to_set().contains(k) implies cb.to_set().contains(k) by {
            let x = choose|x: int| 0 <= x < ca.len() && ca[x] == k;
            let m = lema_chave_mantida(a, b, ta, ka, tb, kb, chave, ia[x]);
            assert(cb[m] == k);
        }
    }
    vstd::set_lib::lemma_len_subset(ca.to_set(), cb.to_set());
}

} // verus!
