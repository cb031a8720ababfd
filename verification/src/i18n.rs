//! Message catalogue: keys with one text per language, looked up at run time by
//! binary search over keys in byte order.
use vstd::prelude::*;
use vstd::string::StringSliceAdditionalSpecFns;
use crate::bytes::bytes_eq;

verus! {

/// Languages the system knows.
#[derive(Clone, Copy, Debug, PartialEq, Eq, Structural)]
pub enum Idioma {
    /// Brazilian Portuguese (the language the system is written in).
    PtBr,
    /// United States English.
    EnUs,
}

/// Bytes of `en`, `en-US` and `en_US`.
pub open spec fn english_code(b: Seq<u8>) -> bool {
    b == seq![101u8, 110u8] || b == seq![101u8, 110u8, 45u8, 85u8, 83u8] || b == seq![
        101u8,
        110u8,
        95u8,
        85u8,
        83u8,
    ]
}

impl Idioma {
    /// BCP-47 code (`pt-BR`, `en-US`).
    pub fn codigo(self) -> (r: &'static str)
        ensures
            self == Idioma::PtBr ==> r@ == "pt-BR"@,
            self == Idioma::EnUs ==> r@ == "en-US"@,
    {
        match self {
            Idioma::PtBr => "pt-BR",
            Idioma::EnUs => "en-US",
        }
    }

    /// Reads a code; anything unknown falls back to the system default.
    pub fn do_codigo(s: &str) -> (r: Idioma)
        ensures
            r == (if english_code(s.spec_bytes()) { Idioma::EnUs } else { Idioma::PtBr }),
    {
        let b = s.as_bytes();
        let en: [u8; 2] = [101u8, 110u8];
        let en_us: [u8; 5] = [101u8, 110u8, 45u8, 85u8, 83u8];
        let en_us2: [u8; 5] = [101u8, 110u8, 95u8, 85u8, 83u8];
        if bytes_eq(b, &en) || bytes_eq(b, &en_us) || bytes_eq(b, &en_us2) {
            Idioma::EnUs
        } else {
            Idioma::PtBr
        }
    }
}

/// A message: the key and its text in each language.
#[derive(Clone, Copy, Debug)]
pub struct Entrada {
    /// Stable key (never shown to the user, except when its text is missing).
    pub chave: &'static str,
    /// Brazilian Portuguese text.
    pub pt: &'static str,
    /// United States English text.
    pub en: &'static str,
}

/// The entries of the system catalogue, sorted by key.
pub open spec fn system_catalogue() -> Seq<Entrada> {
    seq![
        Entrada { chave: "greeter.entrar", pt: "Entrar", en: "Sign in" },
        Entrada { chave: "greeter.senha", pt: "Senha", en: "Password" },
        Entrada { chave: "greeter.senha_incorreta", pt: "Senha incorreta", en: "Wrong password" },
        Entrada { chave: "greeter.titulo", pt: "Sessao bloqueada", en: "Session locked" },
    ]
}

/// The system catalogue, sorted by key.
pub fn catalogo() -> (r: &'static [Entrada])
    ensures
        r@ == system_catalogue(),
{
    &[
        Entrada { chave: "greeter.entrar", pt: "Entrar", en: "Sign in" },
        Entrada { chave: "greeter.senha", pt: "Senha", en: "Password" },
        Entrada { chave: "greeter.senha_incorreta", pt: "Senha incorreta", en: "Wrong password" },
        Entrada { chave: "greeter.titulo", pt: "Sessao bloqueada", en: "Session locked" },
    ]
}

/// `a` comes strictly before `b` in byte order (a proper prefix comes first).
pub open spec fn key_lt(a: Seq<u8>, b: Seq<u8>) -> bool
    decreases a.len(),
{
    if a.len() == 0 {
        b.len() > 0
    } else if b.len() == 0 {
        false
    } else if a[0] != b[0] {
        a[0] < b[0]
    } else {
        key_lt(a.drop_first(), b.drop_first())
    }
}

pub proof fn lemma_key_lt_irreflexive(a: Seq<u8>)
    ensures
        !key_lt(a, a),
    decreases a.len(),
{
    if a.len() > 0 {
        lemma_key_lt_irreflexive(a.drop_first());
    }
}

pub proof fn lemma_key_lt_transitive(a: Seq<u8>, b: Seq<u8>, c: Seq<u8>)
    requires
        key_lt(a, b),
        key_lt(b, c),
    ensures
        key_lt(a, c),
    decreases a.len(),
{
    if a.len() > 0 && b.len() > 0 && c.len() > 0 && a[0] == b[0] && b[0] == c[0] {
        lemma_key_lt_transitive(a.drop_first(), b.drop_first(), c.drop_first());
    }
}

pub proof fn lemma_key_lt_total(a: Seq<u8>, b: Seq<u8>)
    ensures
        key_lt(a, b) || key_lt(b, a) || a == b,
    decreases a.len(),
{
    if a.len() > 0 && b.len() > 0 && a[0] == b[0] {
        lemma_key_lt_total(a.drop_first(), b.drop_first());
        if a.drop_first() == b.drop_first() {
            assert(a =~= seq![a[0]] + a.drop_first());
            assert(b =~= seq![b[0]] + b.drop_first());
        }
    } else if a.len() == 0 && b.len() == 0 {
        assert(a =~= b);
    }
}

/// Three-way byte-order comparison: negative, zero or positive.
pub fn key_order(a: &[u8], b: &[u8]) -> (r: i8)
    ensures
        r == 0 <==> a@ == b@,
        r < 0 <==> key_lt(a@, b@),
        r > 0 <==> key_lt(b@, a@),
{
    let mut i: usize = 0;
    assert(a@.subrange(0, a@.len() as int) =~= a@);
    assert(b@.subrange(0, b@.len() as int) =~= b@);
    while i < a.len() && i < b.len() && a[i] == b[i]
        invariant
            i <= a.len(),
            i <= b.len(),
            a@.subrange(0, i as int) == b@.subrange(0, i as int),
            key_lt(a@, b@) == key_lt(a@.subrange(i as int, a@.len() as int), b@.subrange(i as int, b@.len() as int)),
            key_lt(b@, a@) == key_lt(b@.subrange(i as int, b@.len() as int), a@.subrange(i as int, a@.len() as int)),
        decreases a.len() - i,
    {
        assert(a@.subrange(i as int, a@.len() as int).drop_first() =~= a@.subrange(i + 1, a@.len() as int));
        assert(b@.subrange(i as int, b@.len() as int).drop_first() =~= b@.subrange(i + 1, b@.len() as int));
        assert(a@.subrange(0, i + 1) =~= a@.subrange(0, i as int).push(a@[i as int]));
        assert(b@.subrange(0, i + 1) =~= b@.subrange(0, i as int).push(b@[i as int]));
        i += 1;
    }
    if i == a.len() && i == b.len() {
        assert(a@ =~= a@.subrange(0, i as int));
        assert(b@ =~= b@.subrange(0, i as int));
        return 0;
    }
    if i < a.len() && i < b.len() {
        assert(a@ != b@) by {
            assert(a@[i as int] != b@[i as int]);
        }
        if a[i] < b[i] {
            return -1;
        } else {
            return 1;
        }
    }
    if i == a.len() {
        assert(a@.len() != b@.len());
        -1
    } else {
        assert(a@.len() != b@.len());
        1
    }
}

/// Keys strictly increasing: what binary search needs.
pub open spec fn sorted_keys(c: Seq<Entrada>) -> bool {
    forall|i: int, j: int|
        0 <= i < j < c.len() ==> key_lt(#[trigger] c[i].chave.spec_bytes(), #[trigger] c[j].chave.spec_bytes())
}

pub open spec fn text_in(e: Entrada, idioma: Idioma) -> &'static str {
    match idioma {
        Idioma::PtBr => e.pt,
        Idioma::EnUs => e.en,
    }
}

/// Some entry of `c` has key `k`.
pub open spec fn has_key(c: Seq<Entrada>, k: Seq<u8>) -> bool {
    exists|i: int| 0 <= i < c.len() && #[trigger] c[i].chave.spec_bytes() == k
}

/// Text of `chave` in `idioma`, searched in `catalogo`; an unknown key gives `"?"`.
pub fn texto_em(catalogo: &'static [Entrada], idioma: Idioma, chave: &str) -> (r: &'static str)
    ensures
        (exists|i: int|
            0 <= i < catalogo@.len() && #[trigger] catalogo@[i].chave.spec_bytes() == chave.spec_bytes() && r
                == text_in(catalogo@[i], idioma)) || (r@ == "?"@ && (sorted_keys(catalogo@) ==> !has_key(
            catalogo@,
            chave.spec_bytes(),
        ))),
{
    let key = chave.as_bytes();
    let mut lo: usize = 0;
    let mut hi: usize = catalogo.len();
    while lo < hi
        invariant
            lo <= hi <= catalogo@.len(),
            key@ == chave.spec_bytes(),
            sorted_keys(catalogo@) ==> forall|j: int|
                0 <= j < catalogo@.len() && (j < lo || j >= hi) ==> #[trigger] catalogo@[j].chave.spec_bytes() != key@,
        decreases hi - lo,
    {
        let mid = lo + (hi - lo) / 2;
        let o = key_order(catalogo[mid].chave.as_bytes(), key);
        if o == 0 {
            return match idioma {
                Idioma::PtBr => catalogo[mid].pt,
                Idioma::EnUs => catalogo[mid].en,
            };
        }
        proof {
            if sorted_keys(catalogo@) {
                let km = catalogo@[mid as int].chave.spec_bytes();
                assert forall|j: int| 0 <= j < catalogo@.len() && #[trigger] catalogo@[j].chave.spec_bytes() == key@ implies
                    (if o < 0 { j > mid } else { j < mid }) by {
                    let kj = catalogo@[j].chave.spec_bytes();
                    if j < mid {
                        assert(key_lt(kj, km));
                        if o > 0 {
                            lemma_key_lt_irreflexive(kj);
                        }
                    } else if j > mid {
                        assert(key_lt(km, kj));
                        if o < 0 {
                            lemma_key_lt_irreflexive(kj);
                        }
                    }
                    if o > 0 && j > mid {
                        lemma_key_lt_transitive(kj, km, kj);
                        lemma_key_lt_irreflexive(kj);
                    }
                    if o < 0 && j < mid {
                        lemma_key_lt_transitive(kj, km, kj);
                        lemma_key_lt_irreflexive(kj);
                    }
                }
            }
        }
        if o < 0 {
            lo = mid + 1;
        } else {
            hi = mid;
        }
    }
    "?"
}

/// Text from the system catalogue; `"?"` exactly for a key it does not hold.
pub fn texto(idioma: Idioma, chave: &str) -> (r: &'static str)
    ensures
        (exists|i: int|
            0 <= i < system_catalogue().len() && #[trigger] system_catalogue()[i].chave.spec_bytes() == chave.spec_bytes() && r
                == text_in(system_catalogue()[i], idioma)) || (r@ == "?"@ && !has_key(system_catalogue(), chave.spec_bytes())),
{
    proof {
        lemma_system_catalogue_sorted();
    }
    texto_em(catalogo(), idioma, chave)
}

/// Keys that agree below `k` and differ at `k` are ordered by that byte.
proof fn lemma_key_lt_at(a: Seq<u8>, b: Seq<u8>, k: int)
    requires
        0 <= k < a.len(),
        k < b.len(),
        a[k] < b[k],
        forall|i: int| 0 <= i < k ==> a[i] == b[i],
    ensures
        key_lt(a, b),
    decreases k,
{
    if k > 0 {
        assert(a[0] == b[0]);
        lemma_key_lt_at(a.drop_first(), b.drop_first(), k - 1);
    }
}

/// A proper prefix comes first.
proof fn lemma_key_lt_prefix(a: Seq<u8>, b: Seq<u8>)
    requires
        a.len() < b.len(),
        forall|i: int| 0 <= i < a.len() ==> a[i] == b[i],
    ensures
        key_lt(a, b),
    decreases a.len(),
{
    if a.len() > 0 {
        assert(a[0] == b[0]);
        lemma_key_lt_prefix(a.drop_first(), b.drop_first());
    }
}

/// The system catalogue is sorted by key.
pub proof fn lemma_system_catalogue_sorted()
    ensures
        sorted_keys(system_catalogue()),
{
    broadcast use vstd::string::is_ascii_spec_bytes;
    let c = system_catalogue();
    reveal_strlit("greeter.entrar");
    reveal_strlit("greeter.senha");
    reveal_strlit("greeter.senha_incorreta");
    reveal_strlit("greeter.titulo");
    let k0 = c[0].chave;
    let k1 = c[1].chave;
    let k2 = c[2].chave;
    let k3 = c[3].chave;
    assert(vstd::string::is_ascii(k0));
    assert(vstd::string::is_ascii(k1));
    assert(vstd::string::is_ascii(k2));
    assert(vstd::string::is_ascii(k3));
    let b0 = k0.spec_bytes();
    let b1 = k1.spec_bytes();
    let b2 = k2.spec_bytes();
    let b3 = k3.spec_bytes();
    assert(b0.len() == 14 && b1.len() == 13 && b2.len() == 23 && b3.len() == 14);
    assert(b0[8] == 101 && b1[8] == 115 && b2[8] == 115 && b3[8] == 116);
    assert forall|i: int| 0 <= i < 8 implies b0[i] == b1[i] && b1[i] == b3[i] by {}
    assert forall|i: int| 0 <= i < 13 implies b1[i] == b2[i] by {}
    lemma_key_lt_at(b0, b1, 8);
    lemma_key_lt_prefix(b1, b2);
    lemma_key_lt_at(b2, b3, 8);
    lemma_key_lt_transitive(b0, b1, b2);
    lemma_key_lt_transitive(b1, b2, b3);
    lemma_key_lt_transitive(b0, b2, b3);
}

/// What can be wrong with a catalogue.
#[derive(Clone, Copy, Debug, PartialEq, Eq)]
pub enum ErroCatalogo {
    /// Keys not in increasing order (binary search depends on the order).
    ForaDeOrdem(&'static str),
    /// The same key twice.
    Repetida(&'static str),
    /// The text in one language is missing.
    TraducaoVazia(&'static str),
}

/// The verdict on entry `i` given the one before it.
pub open spec fn entry_verdict(c: Seq<Entrada>, i: int) -> Option<ErroCatalogo> {
    if c[i].pt@.len() == 0 || c[i].en@.len() == 0 {
        Some(ErroCatalogo::TraducaoVazia(c[i].chave))
    } else if i > 0 && c[i].chave.spec_bytes() == c[i - 1].chave.spec_bytes() {
        Some(ErroCatalogo::Repetida(c[i].chave))
    } else if i > 0 && key_lt(c[i].chave.spec_bytes(), c[i - 1].chave.spec_bytes()) {
        Some(ErroCatalogo::ForaDeOrdem(c[i].chave))
    } else {
        None
    }
}

/// Checks a catalogue: strictly increasing keys, no empty text. The error names the
/// first entry at fault.
pub fn valida(catalogo: &'static [Entrada]) -> (r: Result<(), ErroCatalogo>)
    ensures
        r is Ok <==> forall|i: int| 0 <= i < catalogo@.len() ==> #[trigger] entry_verdict(catalogo@, i) is None,
        r matches Err(e) ==> exists|i: int|
            0 <= i < catalogo@.len() && #[trigger] entry_verdict(catalogo@, i) == Some(e) && forall|k: int|
                0 <= k < i ==> #[trigger] entry_verdict(catalogo@, k) is None,
{
    let mut i: usize = 0;
    while i < catalogo.len()
        invariant
            i <= catalogo@.len(),
            forall|k: int| 0 <= k < i ==> #[trigger] entry_verdict(catalogo@, k) is None,
        decreases catalogo.len() - i,
    {
        let e = catalogo[i];
        if e.pt.is_empty() || e.en.is_empty() {
            assert(entry_verdict(catalogo@, i as int) == Some(ErroCatalogo::TraducaoVazia(e.chave)));
            return Err(ErroCatalogo::TraducaoVazia(e.chave));
        }
        if i > 0 {
            let o = key_order(e.chave.as_bytes(), catalogo[i - 1].chave.as_bytes());
            if o == 0 {
                assert(entry_verdict(catalogo@, i as int) == Some(ErroCatalogo::Repetida(e.chave)));
                return Err(ErroCatalogo::Repetida(e.chave));
            }
            if o < 0 {
                assert(entry_verdict(catalogo@, i as int) == Some(ErroCatalogo::ForaDeOrdem(e.chave)));
                return Err(ErroCatalogo::ForaDeOrdem(e.chave));
            }
        }
        assert(entry_verdict(catalogo@, i as int) is None);
        i += 1;
    }
    Ok(())
}

/// A catalogue that passes `valida` has strictly increasing keys, so a lookup in it finds
/// every key it holds.
pub proof fn lemma_valid_catalogue_is_sorted(c: Seq<Entrada>)
    requires
        forall|i: int| 0 <= i < c.len() ==> #[trigger] entry_verdict(c, i) is None,
    ensures
        sorted_keys(c),
{
    assert forall|i: int, j: int| 0 <= i < j < c.len() implies key_lt(
        #[trigger] c[i].chave.spec_bytes(),
        #[trigger] c[j].chave.spec_bytes(),
    ) by {
        lemma_sorted_step(c, i, j);
    }
}

proof fn lemma_sorted_step(c: Seq<Entrada>, i: int, j: int)
    requires
        forall|k: int| 0 <= k < c.len() ==> #[trigger] entry_verdict(c, k) is None,
        0 <= i < j < c.len(),
    ensures
        key_lt(c[i].chave.spec_bytes(), c[j].chave.spec_bytes()),
    decreases j - i,
{
    assert(entry_verdict(c, j) is None);
    lemma_key_lt_total(c[j].chave.spec_bytes(), c[j - 1].chave.spec_bytes());
    if j - 1 > i {
        lemma_sorted_step(c, i, j - 1);
        lemma_key_lt_transitive(c[i].chave.spec_bytes(), c[j - 1].chave.spec_bytes(), c[j].chave.spec_bytes());
    }
}

} // verus!
