use lib::i18n::{catalogo, texto, texto_em, valida, Entrada, ErroCatalogo, Idioma};

#[test]
fn catalogo_do_sistema_e_valido() {
    assert_eq!(valida(catalogo()), Ok(()));
}

#[test]
fn traduz_nos_dois_idiomas() {
    assert_eq!(texto(Idioma::PtBr, "greeter.entrar"), "Entrar");
    assert_eq!(texto(Idioma::EnUs, "greeter.entrar"), "Sign in");
}

#[test]
fn chave_desconhecida_nao_entra_em_panico() {
    assert_eq!(texto(Idioma::PtBr, "nao.existe"), "?");
    assert_eq!(texto(Idioma::EnUs, ""), "?");
}

#[test]
fn codigos_de_idioma() {
    assert_eq!(Idioma::PtBr.codigo(), "pt-BR");
    assert_eq!(Idioma::do_codigo("en-US"), Idioma::EnUs);
    assert_eq!(Idioma::do_codigo("en"), Idioma::EnUs);
    assert_eq!(Idioma::do_codigo("klingon"), Idioma::PtBr);
    assert_eq!(Idioma::do_codigo(""), Idioma::PtBr);
}

#[test]
fn validador_reprova_os_tres_defeitos() {
    const FORA_DE_ORDEM: &[Entrada] = &[
        Entrada { chave: "z", pt: "zeta", en: "zed" },
        Entrada { chave: "a", pt: "alfa", en: "alpha" },
    ];
    assert_eq!(valida(FORA_DE_ORDEM), Err(ErroCatalogo::ForaDeOrdem("a")));

    const REPETIDA: &[Entrada] = &[
        Entrada { chave: "a", pt: "alfa", en: "alpha" },
        Entrada { chave: "a", pt: "outra", en: "other" },
    ];
    assert_eq!(valida(REPETIDA), Err(ErroCatalogo::Repetida("a")));

    const SEM_TRADUCAO: &[Entrada] = &[Entrada { chave: "a", pt: "alfa", en: "" }];
    assert_eq!(valida(SEM_TRADUCAO), Err(ErroCatalogo::TraducaoVazia("a")));
}

#[test]
fn every_key_of_a_valid_catalogue_is_found() {
    const CAT: &[Entrada] = &[
        Entrada { chave: "a", pt: "1", en: "one" },
        Entrada { chave: "ab", pt: "2", en: "two" },
        Entrada { chave: "b", pt: "3", en: "three" },
        Entrada { chave: "ba", pt: "4", en: "four" },
        Entrada { chave: "c", pt: "5", en: "five" },
    ];
    assert_eq!(valida(CAT), Ok(()));
    for e in CAT {
        assert_eq!(texto_em(CAT, Idioma::PtBr, e.chave), e.pt);
        assert_eq!(texto_em(CAT, Idioma::EnUs, e.chave), e.en);
    }
    assert_eq!(texto_em(CAT, Idioma::EnUs, "aa"), "?");
    assert_eq!(Idioma::EnUs.codigo(), "en-US");
    assert_eq!(Idioma::do_codigo("en_US"), Idioma::EnUs);
    assert_eq!(Idioma::do_codigo("EN"), Idioma::PtBr);
}

#[test]
fn texto_finds_every_catalogue_key() {
    assert_eq!(texto(Idioma::PtBr, "greeter.titulo"), "Sessao bloqueada");
    assert_eq!(texto(Idioma::EnUs, "greeter.senha_incorreta"), "Wrong password");
    assert_eq!(texto(Idioma::EnUs, "greeter.senh"), "?");
}
