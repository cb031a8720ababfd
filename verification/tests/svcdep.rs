use lib::svcdep::{ordem, DepErro, Spec, MAX_SERVICOS};

fn nomes<'a>(specs: &[Spec<'a>], saida: &[usize], n: usize) -> Vec<&'a str> {
    saida[..n].iter().map(|&i| specs[i].nome).collect()
}

#[test]
fn dependencia_vem_antes_mesmo_declarada_depois() {
    let specs = [Spec { nome: "cliente", depende: &["eco"] }, Spec { nome: "eco", depende: &[] }];
    let mut saida = [0usize; 2];
    let n = ordem(&specs, &mut saida).unwrap();
    assert_eq!(nomes(&specs, &saida, n), ["eco", "cliente"]);
}

#[test]
fn diamante_respeita_todas_as_arestas() {
    let specs = [
        Spec { nome: "d", depende: &["b", "c"] },
        Spec { nome: "b", depende: &["a"] },
        Spec { nome: "c", depende: &["a"] },
        Spec { nome: "a", depende: &[] },
    ];
    let mut saida = [0usize; 4];
    let n = ordem(&specs, &mut saida).unwrap();
    let ordem_nomes = nomes(&specs, &saida, n);
    assert_eq!(ordem_nomes[0], "a");
    assert_eq!(ordem_nomes[3], "d");
    assert_eq!(ordem_nomes, ["a", "b", "c", "d"]);
}

#[test]
fn sem_dependencias_preserva_a_ordem_de_declaracao() {
    let specs = [
        Spec { nome: "um", depende: &[] },
        Spec { nome: "dois", depende: &[] },
        Spec { nome: "tres", depende: &[] },
    ];
    let mut saida = [0usize; 3];
    let n = ordem(&specs, &mut saida).unwrap();
    assert_eq!(nomes(&specs, &saida, n), ["um", "dois", "tres"]);
}

#[test]
fn ciclo_e_recusado_nomeando_um_participante() {
    let specs = [Spec { nome: "a", depende: &["b"] }, Spec { nome: "b", depende: &["a"] }];
    let mut saida = [0usize; 2];
    assert_eq!(ordem(&specs, &mut saida), Err(DepErro::Ciclo("a")));
}

#[test]
fn depender_de_si_mesmo_e_um_ciclo() {
    let specs = [Spec { nome: "a", depende: &["a"] }];
    let mut saida = [0usize; 1];
    assert_eq!(ordem(&specs, &mut saida), Err(DepErro::Ciclo("a")));
}

#[test]
fn dependencia_inexistente_e_recusada_com_os_dois_nomes() {
    let specs = [Spec { nome: "a", depende: &["fantasma"] }];
    let mut saida = [0usize; 1];
    assert_eq!(
        ordem(&specs, &mut saida),
        Err(DepErro::Desconhecida { servico: "a", dependencia: "fantasma" })
    );
}

#[test]
fn nome_repetido_e_recusado() {
    let specs = [Spec { nome: "a", depende: &[] }, Spec { nome: "a", depende: &[] }];
    let mut saida = [0usize; 2];
    assert_eq!(ordem(&specs, &mut saida), Err(DepErro::Duplicado("a")));
}

#[test]
fn saida_pequena_e_recusada_antes_de_qualquer_trabalho() {
    let specs = [Spec { nome: "a", depende: &[] }, Spec { nome: "b", depende: &[] }];
    let mut saida = [0usize; 1];
    assert_eq!(ordem(&specs, &mut saida), Err(DepErro::Espaco));
}

#[test]
fn tabela_vazia_e_valida() {
    let specs: [Spec; 0] = [];
    let mut saida = [0usize; 0];
    assert_eq!(ordem(&specs, &mut saida), Ok(0));
}

#[test]
fn ciclo_atras_de_servicos_prontos_nomeia_o_primeiro_preso() {
    let specs = [
        Spec { nome: "base", depende: &[] },
        Spec { nome: "x", depende: &["base", "y"] },
        Spec { nome: "y", depende: &["x"] },
        Spec { nome: "z", depende: &["base"] },
    ];
    let mut saida = [9usize; 4];
    assert_eq!(ordem(&specs, &mut saida), Err(DepErro::Ciclo("x")));
}

#[test]
fn tabela_grande_demais_e_recusada() {
    let nomes_: Vec<String> = (0..MAX_SERVICOS + 1).map(|i| format!("s{i}")).collect();
    let specs: Vec<Spec> = nomes_.iter().map(|n| Spec { nome: n.as_str(), depende: &[] }).collect();
    let mut saida = vec![0usize; MAX_SERVICOS + 1];
    assert_eq!(ordem(&specs, &mut saida), Err(DepErro::Espaco));
    let mut saida = vec![0usize; MAX_SERVICOS];
    assert_eq!(ordem(&specs[..MAX_SERVICOS], &mut saida), Ok(MAX_SERVICOS));
    assert!(saida.iter().enumerate().all(|(k, &i)| k == i));
}

#[test]
fn cadeia_declarada_ao_contrario_sai_na_ordem_certa() {
    let specs = [
        Spec { nome: "c", depende: &["b"] },
        Spec { nome: "b", depende: &["a"] },
        Spec { nome: "a", depende: &[] },
    ];
    let mut saida = [0usize; 5];
    let n = ordem(&specs, &mut saida).unwrap();
    assert_eq!(n, 3);
    assert_eq!(nomes(&specs, &saida, n), ["a", "b", "c"]);
}

#[test]
fn ciclo_nomeia_um_servico_preso_no_ciclo() {
    let specs = [
        Spec { nome: "c", depende: &["a"] },
        Spec { nome: "a", depende: &["b"] },
        Spec { nome: "b", depende: &["a"] },
    ];
    let mut saida = [0usize; 3];
    assert_eq!(ordem(&specs, &mut saida), Err(DepErro::Ciclo("a")));
}
