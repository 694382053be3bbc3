use keshet::busca::{
    assinatura_rabeliana, assinatura_somatorio, denominador_rabeliano, escala_compacta, limite_aditivo,
    total_combinacoes, Escala, Registro,
};
use keshet::entrada::{
    casas_do_alvo, ler_i64_ou, ler_u32_ou, ler_usize_ou, modo_do_motor, normalizar_alvo, numero_de_alvos,
    opcao_principal, parametros_da_linha_de_comando, preparar_alvo, OpcaoPrincipal,
};
use keshet::organizacao::{deduplicar, ordenar_por_pontuacao, organizar_universo};
use keshet::render::{linhas_didaticas, Coeficiente, SinalValor};
use keshet::texto::{comprimento_utf8, escrever_inteiro, escrever_natural};
use keshet::universo::{
    atomos_do_universo, candidatos_universo, eh_quadrado_perfeito, fracao_trivial, termo, Atomo, Constante,
    Simbolo, Termo,
};

fn texto(v: &[char]) -> String {
    v.iter().collect()
}

fn chars(s: &str) -> Vec<char> {
    s.chars().collect()
}

fn t(s: Simbolo) -> Termo {
    termo(s)
}

fn inteiro(n: i64) -> Termo {
    t(Simbolo::Simples(Atomo::Inteiro(n)))
}

#[test]
fn menu_principal_reconhece_opcoes() {
    assert_eq!(opcao_principal("1"), OpcaoPrincipal::Buscar);
    assert_eq!(opcao_principal("2"), OpcaoPrincipal::Manual);
    assert_eq!(opcao_principal("0"), OpcaoPrincipal::Sair);
    assert_eq!(opcao_principal(""), OpcaoPrincipal::Nenhuma);
    assert_eq!(opcao_principal("11"), OpcaoPrincipal::Nenhuma);
    assert_eq!(opcao_principal("x"), OpcaoPrincipal::Nenhuma);
}

#[test]
fn menu_de_motores() {
    assert_eq!(modo_do_motor("1"), Some(1));
    assert_eq!(modo_do_motor("2"), Some(2));
    assert_eq!(modo_do_motor("3"), Some(3));
    assert_eq!(modo_do_motor("4"), Some(4));
    assert_eq!(modo_do_motor("5"), None);
    assert_eq!(modo_do_motor(""), None);
    assert_eq!(modo_do_motor("14"), None);
}

#[test]
fn numeros_com_padrao_como_parse() {
    for s in ["12", "-7", "+3", "0", "-0", "abc", "", "-", "+", "1 2", "9223372036854775807",
        "9223372036854775808", "-9223372036854775808", "-9223372036854775809", "٣", "007"] {
        assert_eq!(ler_i64_ou(s, 5), s.parse::<i64>().unwrap_or(5), "i64 {:?}", s);
        assert_eq!(ler_u32_ou(s, 200), s.parse::<u32>().unwrap_or(200), "u32 {:?}", s);
        assert_eq!(ler_usize_ou(s, 20), s.parse::<usize>().unwrap_or(20), "usize {:?}", s);
    }
    assert_eq!(ler_u32_ou("4294967295", 1), u32::MAX);
    assert_eq!(ler_u32_ou("4294967296", 200), 200);
    assert_eq!(ler_i64_ou("-9223372036854775808", 0), i64::MIN);
    assert_eq!(ler_usize_ou("30", 20), 30);
}

#[test]
fn alvos_com_virgula_e_casas() {
    assert_eq!(texto(&normalizar_alvo("3,14")), "3.14");
    assert_eq!(casas_do_alvo("3,14159"), 5);
    assert_eq!(casas_do_alvo("2"), 0);
    assert_eq!(casas_do_alvo("1.2.3"), 1);
    assert_eq!(casas_do_alvo("1."), 0);
    assert_eq!(casas_do_alvo("0.π"), 2);
    assert_eq!(casas_do_alvo(",5"), 1);
    assert_eq!(preparar_alvo(""), None);
    let (t, c) = preparar_alvo("1,5").unwrap();
    assert_eq!(texto(&t), "1.5");
    assert_eq!(c, 1);
}

#[test]
fn alvos_e_parametros() {
    assert_eq!(numero_de_alvos(1), 1);
    assert_eq!(numero_de_alvos(4), 1);
    assert_eq!(numero_de_alvos(2), 2);
    assert_eq!(numero_de_alvos(3), 3);
    assert_eq!(parametros_da_linha_de_comando(None, None, None), (2, 5, 10));
    assert_eq!(parametros_da_linha_de_comando(Some(258), Some(-3), Some(7)), (2, -3, 7));
    assert_eq!(parametros_da_linha_de_comando(Some(3), Some(9), None), (3, 9, 10));
}

#[test]
fn texto_decimal() {
    assert_eq!(texto(&escrever_natural(0)), "0");
    assert_eq!(texto(&escrever_natural(1234567890)), "1234567890");
    assert_eq!(texto(&escrever_natural(u64::MAX)), u64::MAX.to_string());
    assert_eq!(texto(&escrever_inteiro(-42)), "-42");
    assert_eq!(texto(&escrever_inteiro(i64::MIN)), i64::MIN.to_string());
    assert_eq!(comprimento_utf8(&chars("√2")), "√2".len());
    assert_eq!(comprimento_utf8(&chars("x²")), 3);
}

#[test]
fn quadrados_perfeitos() {
    let quadrados: Vec<i64> = (1..=50).filter(|&n| eh_quadrado_perfeito(n)).collect();
    assert_eq!(quadrados, vec![1, 4, 9, 16, 25, 36, 49]);
    assert!(eh_quadrado_perfeito(3037000499 * 3037000499));
    assert!(!eh_quadrado_perfeito(i64::MAX));
}

#[test]
fn bases_do_universo() {
    let b = atomos_do_universo(5);
    assert_eq!(b.len(), 25);
    let textos: Vec<String> = b.iter().map(|a| texto(&t(Simbolo::Simples(*a)).exibicao())).collect();
    assert_eq!(
        &textos[..14],
        &["π", "-π", "e", "-e", "Φ", "-Φ", "G", "-G", "γ", "-γ", "2", "-2", "√2", "ln(2)"]
    );
    // 1 and -1 are banned
    assert!(!textos.contains(&"1".to_string()));
    assert!(!textos.contains(&"-1".to_string()));
    assert_eq!(atomos_do_universo(1).len(), 10);
    assert!(textos.contains(&"√5".to_string()));
    assert!(!textos.contains(&"√4".to_string()));
    assert!(!textos.contains(&"ln(1)".to_string()));
    assert_eq!(atomos_do_universo(0).len(), 10);
    assert_eq!(atomos_do_universo(-4).len(), 10);
}

#[test]
fn candidatos_e_pontuacao() {
    assert_eq!(candidatos_universo(0).len(), 90);
    assert_eq!(candidatos_universo(1).len(), 90);
    assert_eq!(candidatos_universo(2).len(), 184);
    let c = candidatos_universo(5);
    assert_eq!(c.len(), 607);
    let textos: Vec<String> = c.iter().map(|x| texto(&x.exibicao())).collect();
    assert_eq!(textos[25], "π/e");
    assert!(!textos.iter().any(|x| x == "1" || x == "-1" || x.starts_with("1/") || x.ends_with("/1")));
    assert!(textos.contains(&"√2/ln(3)".to_string()));
    assert!(!textos.contains(&"π/1".to_string()));
    assert!(!textos.contains(&"π/-π".to_string()));
    assert!(!textos.contains(&"-2/2".to_string()));
    assert!(!textos.contains(&"2/2".to_string()));
    assert!(textos.contains(&"2/3".to_string()));
    let pi = t(Simbolo::Simples(Atomo::Constante(Constante::Pi)));
    assert_eq!(pi.pontuacao, 1);
    assert_eq!(t(Simbolo::Simples(Atomo::Oposto(Constante::E))).pontuacao, 2);
    assert_eq!(inteiro(3).pontuacao, 10);
    assert_eq!(inteiro(-3).pontuacao, 11);
    assert_eq!(t(Simbolo::Simples(Atomo::Raiz(2))).pontuacao, 20);
    assert_eq!(t(Simbolo::Simples(Atomo::Log(2))).pontuacao, 25);
    let f = t(Simbolo::Fracao(Atomo::Raiz(2), Atomo::Log(3)));
    assert_eq!(f.pontuacao, 50);
    assert_eq!(texto(&f.exibicao()), "√2/ln(3)");
}

#[test]
fn fracoes_triviais() {
    assert!(fracao_trivial(Atomo::Constante(Constante::Pi), Atomo::Inteiro(1)));
    assert!(fracao_trivial(Atomo::Constante(Constante::Pi), Atomo::Oposto(Constante::Pi)));
    assert!(fracao_trivial(Atomo::Oposto(Constante::Euler), Atomo::Constante(Constante::Euler)));
    assert!(fracao_trivial(Atomo::Inteiro(3), Atomo::Inteiro(-3)));
    assert!(!fracao_trivial(Atomo::Inteiro(3), Atomo::Inteiro(-1)));
    assert!(!fracao_trivial(Atomo::Constante(Constante::Pi), Atomo::Oposto(Constante::E)));
}

#[test]
fn universo_sem_repetidos_e_ordenado() {
    let u = universo_de_teste(4);
    let textos: Vec<String> = u.iter().map(|x| texto(&x.0.exibicao())).collect();
    // 4/2 is 2, -4/-2 is 2, 4/-2 is -2, -2/-4 is 2/4: the first of each value stays
    assert!(!textos.contains(&"4/2".to_string()));
    assert!(!textos.contains(&"-4/-2".to_string()));
    assert!(!textos.contains(&"4/-2".to_string()));
    assert!(textos.contains(&"2/4".to_string()));
    assert!(!textos.contains(&"-2/-4".to_string()));
    assert!(textos.contains(&"2".to_string()));
    // no value 0, 1 or -1 is left, and no value twice
    let mut chaves: Vec<&String> = u.iter().map(|x| &x.1).collect();
    for v in ["0.000000000000", "1.000000000000", "-1.000000000000"] {
        assert!(!chaves.iter().any(|c| *c == v), "{}", v);
    }
    let n = chaves.len();
    chaves.sort();
    chaves.dedup();
    assert_eq!(chaves.len(), n);
    // ordered by score, ties in their first order
    for w in u.windows(2) {
        assert!(w[0].0.pontuacao <= w[1].0.pontuacao);
    }
    assert_eq!(&textos[..10], &["π", "e", "Φ", "G", "γ", "-π", "-e", "-Φ", "-G", "-γ"]);
    assert_eq!(textos[10], "π/e");
    let pos = |s: &str| textos.iter().position(|x| x == s).unwrap();
    assert!(pos("2") < pos("3") && pos("3") < pos("4") && pos("4") < pos("-2"));
    assert!(pos("-4") < pos("√2") && pos("√2") < pos("ln(2)"));
}

#[test]
fn universo_cresce_com_o_alcance() {
    for (a, b) in [(0, 1), (1, 2), (2, 4), (3, 5), (-2, 3)] {
        let ua = universo_de_teste(a);
        let ub = universo_de_teste(b);
        assert!(ua.len() <= ub.len());
        for (_, k) in &ua {
            assert!(ub.iter().any(|(_, kb)| kb == k), "{} {} {}", a, b, k);
        }
    }
}

/// The value of a symbol in `f64` (a stand-in for the program's 128-bit values).
fn valor_simbolo(s: &Simbolo) -> f64 {
    let valor = |a: &Atomo| -> f64 {
        match a {
            Atomo::Constante(Constante::Pi) => std::f64::consts::PI,
            Atomo::Oposto(Constante::Pi) => -std::f64::consts::PI,
            Atomo::Constante(Constante::E) => std::f64::consts::E,
            Atomo::Oposto(Constante::E) => -std::f64::consts::E,
            Atomo::Constante(Constante::Phi) => 1.618033988749895,
            Atomo::Oposto(Constante::Phi) => -1.618033988749895,
            Atomo::Constante(Constante::Catalan) => 0.915965594177219,
            Atomo::Oposto(Constante::Catalan) => -0.915965594177219,
            Atomo::Constante(Constante::Euler) => 0.577215664901533,
            Atomo::Oposto(Constante::Euler) => -0.577215664901533,
            Atomo::Inteiro(n) => *n as f64,
            Atomo::Raiz(n) => (*n as f64).sqrt(),
            Atomo::Log(n) => (*n as f64).ln(),
        }
    };
    match s {
        Simbolo::Simples(a) => valor(a),
        Simbolo::Fracao(a, b) => valor(a) / valor(b),
    }
}

/// The ordered universe of a range, with the key (value to 12 places) of each term.
fn universo_de_teste(alcance: i64) -> Vec<(Termo, String)> {
    let c = candidatos_universo(alcance);
    let chave = |x: &Termo| format!("{:.12}", valor_simbolo(&x.simbolo));
    let chaves: Vec<Vec<char>> = c.iter().map(|x| chave(x).chars().collect()).collect();
    organizar_universo(&c, &chaves).into_iter().map(|x| (x, chave(&x))).collect()
}

#[test]
fn deduplicar_mantem_o_primeiro() {
    let ts = vec![inteiro(1), inteiro(2), inteiro(3), inteiro(4)];
    let ks = vec![chars("a"), chars("b"), chars("a"), chars("c")];
    let r = deduplicar(&ts, &ks);
    assert_eq!(r, vec![inteiro(1), inteiro(2), inteiro(4)]);
}

#[test]
fn ordenacao_estavel_por_pontuacao() {
    let a = t(Simbolo::Simples(Atomo::Log(2)));
    let b = inteiro(-5);
    let c = inteiro(7);
    let d = t(Simbolo::Simples(Atomo::Constante(Constante::Pi)));
    let e = inteiro(8);
    let r = ordenar_por_pontuacao(&vec![a, b, c, d, e]);
    assert_eq!(r, vec![d, c, e, b, a]);
    assert!(ordenar_por_pontuacao(&vec![]).is_empty());
}

#[test]
fn combinacoes_por_modo() {
    assert_eq!(total_combinacoes(1, 10), Some(1_000_000));
    assert_eq!(total_combinacoes(2, 10), Some(1_000));
    assert_eq!(total_combinacoes(3, 10), Some(10_000));
    assert_eq!(total_combinacoes(4, 7), Some(343));
    assert_eq!(total_combinacoes(5, 10), Some(0));
    assert_eq!(total_combinacoes(1, 0), Some(0));
    assert_eq!(total_combinacoes(1, 684), Some(684u128.pow(6)));
    assert_eq!(total_combinacoes(3, usize::MAX), (usize::MAX as u128).checked_pow(4));
    assert_eq!(total_combinacoes(2, usize::MAX), (usize::MAX as u128).checked_pow(3));
}

#[test]
fn escala_do_anuncio() {
    assert_eq!(escala_compacta(5), Escala::Milhoes);
    assert_eq!(escala_compacta(999_999_999), Escala::Milhoes);
    assert_eq!(escala_compacta(1_000_000_000), Escala::Bilhoes);
    assert_eq!(escala_compacta(2_000_000_000_000), Escala::Trilhoes);
    assert_eq!(escala_compacta(1_000_000_000_000_000), Escala::Quadrilhoes);
    assert_eq!(Escala::Bilhoes.divisor(), 1_000_000_000);
    assert_eq!(texto(&Escala::Quadrilhoes.nome()), "Quadrilhões");
    assert_eq!(texto(&Escala::Milhoes.nome()), "Milhões");
}

#[test]
fn denominadores_da_identidade() {
    assert_eq!(limite_aditivo(5), 5);
    assert_eq!(limite_aditivo(0), 2);
    assert_eq!(limite_aditivo(-9), 2);
    let ns: Vec<i64> = (1..=5).map(|d| denominador_rabeliano(d, 5)).collect();
    assert_eq!(ns, vec![3, 4, 5, 6, 2]);
    let ns: Vec<i64> = (1..=2).map(|d| denominador_rabeliano(d, 1)).collect();
    assert_eq!(ns, vec![3, 2]);
}

#[test]
fn assinaturas() {
    let pi = t(Simbolo::Simples(Atomo::Constante(Constante::Pi)));
    let e = t(Simbolo::Simples(Atomo::Constante(Constante::E)));
    let f = t(Simbolo::Fracao(Atomo::Inteiro(1), Atomo::Raiz(2)));
    assert_eq!(texto(&assinatura_rabeliana(&pi, &e, &inteiro(1), &f, 3, &inteiro(-1))), "RAB|π|e|1|1/√2|3|-1");
    assert_eq!(texto(&assinatura_somatorio(&inteiro(2), &pi, &f)), "SUM|2|π|1/√2");
}

#[test]
fn registro_anuncia_uma_vez_e_ate_o_limite() {
    let mut r = Registro::new(2);
    assert!(!r.limite_atingido());
    assert!(r.registrar(chars("a")));
    assert!(!r.registrar(chars("a")));
    assert!(r.registrar(chars("b")));
    assert!(r.limite_atingido());
    assert!(!r.registrar(chars("c")));
    assert!(!r.registrar(chars("b")));
    assert_eq!(r.encontrados(), 3);
    let mut z = Registro::new(0);
    assert!(z.limite_atingido());
    assert!(!z.registrar(chars("a")));
    assert_eq!(z.encontrados(), 1);
}

#[test]
fn polinomio_didatico() {
    let coefs = vec![
        Coeficiente { termo: inteiro(1), sinal: SinalValor::Positivo },
        Coeficiente { termo: inteiro(-3), sinal: SinalValor::Negativo },
        Coeficiente { termo: t(Simbolo::Simples(Atomo::Raiz(2))), sinal: SinalValor::Positivo },
    ];
    let (l0, l1, l2) = linhas_didaticas(&coefs);
    assert_eq!(texto(&l0), format!("{}{}{}", "       ", "   3   ", "    √2   "));
    assert_eq!(texto(&l1), format!("{}{}{}", "   x² ", "-  3 x ", "+   √2   "));
    assert_eq!(texto(&l2), " ".repeat(23));
    // a lone constant term keeps its 1
    let (_, l1, _) = linhas_didaticas(&vec![Coeficiente { termo: inteiro(-1), sinal: SinalValor::Negativo }]);
    assert_eq!(texto(&l1), "-  1  ");
    let (_, l1, _) = linhas_didaticas(&vec![
        Coeficiente { termo: inteiro(2), sinal: SinalValor::Positivo },
        Coeficiente { termo: inteiro(0), sinal: SinalValor::Zero },
        Coeficiente { termo: inteiro(0), sinal: SinalValor::Zero },
        Coeficiente { termo: inteiro(0), sinal: SinalValor::Zero },
        Coeficiente { termo: inteiro(5), sinal: SinalValor::Positivo },
    ]);
    assert_eq!(texto(&l1), " 2 x^n  0 x³  0 x²  0 x +  5  ");
}
