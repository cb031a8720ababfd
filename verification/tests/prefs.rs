use lib::prefs::{parse, serializa, Prefs};

#[test]
fn ida_e_volta() {
    let p = Prefs {
        reduce_motion: true,
        scale_num: 3,
        scale_den: 2,
        theme: 1,
        idioma: 1,
    };
    let mut buf = [0u8; 128];
    let n = serializa(&p, &mut buf);
    assert!(n > 0);
    assert_eq!(parse(&buf[..n]), p);
}

#[test]
fn padrao_para_o_que_falta() {
    let p = parse(b"idioma=1\n");
    assert_eq!(p.idioma, 1);
    assert_eq!(p.scale_num, 1, "escala devia ficar no padrao");
    assert_eq!(p.theme, 0);
}

#[test]
fn arquivo_estranho_nao_derruba_nada() {
    let p = parse(b"\x00\x01lixo\nsem_igual\ntheme=abc\nfuturo=7\nscale_num=0\nidioma=1\n");
    assert_eq!(p.idioma, 1);
    assert_eq!(p.theme, 0);
    assert_eq!(p.scale_num, 1);
}

#[test]
fn arquivo_vazio_da_o_padrao() {
    assert_eq!(parse(b""), Prefs::default());
    assert_eq!(parse(b"\n\n\n"), Prefs::default());
}

#[test]
fn numero_gigante_e_recusado_sem_estourar() {
    let p = parse(b"scale_num=99999999999999\n");
    assert_eq!(p.scale_num, 1, "overflow devia cair no padrao");
}

#[test]
fn fim_de_linha_de_outro_sistema() {
    let p = parse(b"idioma=1\r\ntheme=1\r\n");
    assert_eq!((p.idioma, p.theme), (1, 1));
}

#[test]
fn buffer_pequeno_nao_estoura() {
    let p = Prefs::default();
    let mut buf = [0u8; 8];
    let n = serializa(&p, &mut buf);
    assert!(n <= 8, "escreveu {n} num buffer de 8");
}

#[test]
fn serialized_text_is_exact() {
    let p = Prefs {
        reduce_motion: false,
        scale_num: 4294967295,
        scale_den: 10,
        theme: 0,
        idioma: 1,
    };
    let mut buf = [0xAAu8; 100];
    let n = serializa(&p, &mut buf);
    let text: &[u8] = b"reduce_motion=0\nscale_num=4294967295\nscale_den=10\ntheme=0\nidioma=1\n";
    assert_eq!(&buf[..n], text);
    assert!(buf[n..].iter().all(|b| *b == 0xAA));
}

#[test]
fn too_small_buffer_writes_nothing() {
    let mut buf = [7u8; 40];
    assert_eq!(serializa(&Prefs::default(), &mut buf), 0);
    assert!(buf.iter().all(|b| *b == 7));
}

#[test]
fn last_occurrence_wins_and_values_are_normalized() {
    let p = parse(b"theme=5\nscale_den=3\nscale_den=0\nscale_den=7\nreduce_motion=2");
    assert_eq!(p.theme, 1);
    assert_eq!(p.scale_den, 7);
    assert!(p.reduce_motion);
}
