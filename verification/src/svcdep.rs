//! Start order of services from their declared dependencies: every dependency before the
//! services that need it, ties broken by declaration order.
use vstd::prelude::*;
use vstd::string::StringSliceAdditionalSpecFns;
use crate::bytes::bytes_eq;

verus! {

/// Most services a table may hold.
pub const MAX_SERVICOS: usize = 32;

/// A declared service: its name and the services that must be ready before it starts.
#[derive(Clone, Copy, Debug, PartialEq, Eq)]
pub struct Spec<'a> {
    /// Name (the key: two equal names are a declaration error).
    pub nome: &'a str,
    /// Names of the services it depends on.
    pub depende: &'a [&'a str],
}

/// Why a table of services could not be ordered; all are declaration errors.
#[derive(Clone, Copy, Debug, PartialEq, Eq)]
pub enum DepErro<'a> {
    /// `servico` depends on a name the table does not declare.
    Desconhecida {
        /// Who declared the dependency.
        servico: &'a str,
        /// The missing name.
        dependencia: &'a str,
    },
    /// There is a cycle; the service named is caught in it (depending on itself included).
    Ciclo(&'a str),
    /// Two services with the same name.
    Duplicado(&'a str),
    /// The table holds more than [`MAX_SERVICOS`] or the output is shorter than it.
    Espaco,
}

/// How a table fails, by indices into it.
pub enum Refusal {
    /// Service `.0` depends on its dependency number `.1`, which is not declared.
    Unknown(int, int),
    /// Service `.0` lies on a cycle of services that can never start.
    Cycle(int),
    /// Service `.0` shares its name with a later one.
    Duplicate(int),
    /// Too many services, or too little output room.
    Room,
}

/// The name of a service, as bytes.
pub open spec fn name_of(s: Spec) -> Seq<u8> {
    s.nome.spec_bytes()
}

/// The names a service depends on, as bytes.
pub open spec fn deps_of(s: Spec) -> Seq<Seq<u8>> {
    s.depende@.map_values(|d: &str| d.spec_bytes())
}

/// The first service from `k` on named `d`.
pub open spec fn pos_from(specs: Seq<Spec>, d: Seq<u8>, k: int) -> Option<int>
    decreases specs.len() - k,
{
    if k < 0 || k >= specs.len() {
        None
    } else if name_of(specs[k]) == d {
        Some(k)
    } else {
        pos_from(specs, d, k + 1)
    }
}

/// The first service named `d`.
pub open spec fn pos_of(specs: Seq<Spec>, d: Seq<u8>) -> Option<int> {
    pos_from(specs, d, 0)
}

/// The first service from `i` on whose name a later service repeats.
pub open spec fn first_dup(specs: Seq<Spec>, i: int) -> Option<int>
    decreases specs.len() - i,
{
    if i < 0 || i >= specs.len() {
        None
    } else if exists|j: int| i < j < specs.len() && name_of(specs[j]) == name_of(specs[i]) {
        Some(i)
    } else {
        first_dup(specs, i + 1)
    }
}

/// The first undeclared dependency of service `a`, from its dependency `b` on.
pub open spec fn unknown_in(specs: Seq<Spec>, a: int, b: int) -> Option<int>
    decreases deps_of(specs[a]).len() - b,
{
    if b < 0 || b >= deps_of(specs[a]).len() {
        None
    } else if pos_of(specs, deps_of(specs[a])[b]) is None {
        Some(b)
    } else {
        unknown_in(specs, a, b + 1)
    }
}

/// The first (service, dependency) pair from service `a` on whose dependency is undeclared.
pub open spec fn first_unknown(specs: Seq<Spec>, a: int) -> Option<(int, int)>
    decreases specs.len() - a,
{
    if a < 0 || a >= specs.len() {
        None
    } else {
        match unknown_in(specs, a, 0) {
            Some(b) => Some((a, b)),
            None => first_unknown(specs, a + 1),
        }
    }
}

/// Whether every dependency of service `i` is a ready service.
pub open spec fn released(specs: Seq<Spec>, ready: Seq<bool>, i: int) -> bool {
    forall|b: int| 0 <= b < deps_of(specs[i]).len() ==> (#[trigger] pos_of(specs, deps_of(specs[i])[b]) matches Some(j)
        && ready[j])
}

/// One pass over services `i..`: each one not yet ready whose dependencies are all ready
/// becomes ready and is appended to the order.
pub open spec fn scan(specs: Seq<Spec>, ready: Seq<bool>, out: Seq<int>, i: int) -> (Seq<bool>, Seq<int>)
    decreases specs.len() - i,
{
    if i < 0 || i >= specs.len() {
        (ready, out)
    } else if ready[i] {
        scan(specs, ready, out, i + 1)
    } else if released(specs, ready, i) {
        scan(specs, ready.update(i, true), out.push(i), i + 1)
    } else {
        scan(specs, ready, out, i + 1)
    }
}

/// The first service from `i` on that is not ready.
pub open spec fn first_unready(ready: Seq<bool>, i: int) -> int
    decreases ready.len() - i,
{
    if i < 0 || i >= ready.len() || !ready[i] {
        i
    } else {
        first_unready(ready, i + 1)
    }
}

/// The first dependency of `x`, from number `b` on, that names a service not ready.
pub open spec fn blocker_from(specs: Seq<Spec>, ready: Seq<bool>, x: int, b: int) -> Option<int>
    decreases deps_of(specs[x]).len() - b,
{
    if b < 0 || b >= deps_of(specs[x]).len() {
        None
    } else if pos_of(specs, deps_of(specs[x])[b]) is Some && !ready[pos_of(specs, deps_of(specs[x])[b])->Some_0] {
        pos_of(specs, deps_of(specs[x])[b])
    } else {
        blocker_from(specs, ready, x, b + 1)
    }
}

/// The service `x` waits on: its first dependency that is not ready (`x` itself if none).
pub open spec fn blocker(specs: Seq<Spec>, ready: Seq<bool>, x: int) -> int {
    match blocker_from(specs, ready, x, 0) {
        Some(j) => j,
        None => x,
    }
}

/// Where following `blocker` `k` times from `x` leads.
pub open spec fn walk(specs: Seq<Spec>, ready: Seq<bool>, x: int, k: nat) -> int
    decreases k,
{
    if k == 0 {
        x
    } else {
        walk(specs, ready, blocker(specs, ready, x), (k - 1) as nat)
    }
}

/// Service `x` names service `y` among its dependencies.
pub open spec fn depends_on(specs: Seq<Spec>, x: int, y: int) -> bool {
    exists|b: int| 0 <= b < deps_of(specs[x]).len() && #[trigger] pos_of(specs, deps_of(specs[x])[b]) == Some(y)
}

/// Service `s` lies on a cycle: a chain of dependencies leads from it back to it.
pub open spec fn on_cycle(specs: Seq<Spec>, s: int) -> bool {
    exists|p: Seq<int>|
        p.len() >= 2 && p[0] == s && p[p.len() - 1] == s && forall|t: int| 0 <= t < p.len() - 1 ==> depends_on(specs, #[trigger] p[t], p[t + 1])
}

/// Passes until every service is ready, or until a pass starts none.
pub open spec fn rounds(specs: Seq<Spec>, ready: Seq<bool>, out: Seq<int>) -> Result<Seq<int>, Refusal>
    decreases specs.len() - out.len(),
{
    if out.len() >= specs.len() {
        Ok(out)
    } else {
        let (r2, o2) = scan(specs, ready, out, 0);
        if o2.len() <= out.len() || o2.len() > specs.len() {
            Err(Refusal::Cycle(walk(specs, r2, first_unready(r2, 0), specs.len() as nat)))
        } else {
            rounds(specs, r2, o2)
        }
    }
}

/// The start order of a table of services, or why there is none.
pub open spec fn ordem_spec(specs: Seq<Spec>, room: int) -> Result<Seq<int>, Refusal> {
    if specs.len() > MAX_SERVICOS || room < specs.len() {
        Err(Refusal::Room)
    } else {
        match first_dup(specs, 0) {
            Some(i) => Err(Refusal::Duplicate(i)),
            None => match first_unknown(specs, 0) {
                Some((a, b)) => Err(Refusal::Unknown(a, b)),
                None => rounds(specs, Seq::new(specs.len(), |i: int| false), Seq::empty()),
            },
        }
    }
}

/// The error value that a refusal stands for.
pub open spec fn refusal_error<'a>(specs: Seq<Spec<'a>>, f: Refusal) -> DepErro<'a> {
    match f {
        Refusal::Unknown(a, b) => DepErro::Desconhecida { servico: specs[a].nome, dependencia: specs[a].depende@[b] },
        Refusal::Cycle(i) => DepErro::Ciclo(specs[i].nome),
        Refusal::Duplicate(i) => DepErro::Duplicado(specs[i].nome),
        Refusal::Room => DepErro::Espaco,
    }
}

/// `order` lists each of the `n` services exactly once.
pub open spec fn is_permutation(order: Seq<int>, n: int) -> bool {
    &&& order.len() == n
    &&& forall|k: int| 0 <= k < n ==> 0 <= #[trigger] order[k] < n
    &&& forall|a: int, b: int| 0 <= a < b < n ==> order[a] != order[b]
}

/// In `order`, every dependency of a service comes before it.
pub open spec fn deps_first(specs: Seq<Spec>, order: Seq<int>) -> bool {
    forall|k: int, b: int| #![trigger order[k], deps_of(specs[order[k]])[b]]
        0 <= k < order.len() && 0 <= b < deps_of(specs[order[k]]).len() ==> (pos_of(specs, deps_of(specs[order[k]])[b]) matches Some(j)
            && exists|m: int| 0 <= m < k && order[m] == j)
}

/// The first service named like `d`.
fn find_name(specs: &[Spec], d: &str) -> (r: Option<usize>)
    ensures
        match r {
            Some(j) => pos_of(specs@, d.spec_bytes()) == Some(j as int),
            None => pos_of(specs@, d.spec_bytes()) is None,
        },
{
    let db = d.as_bytes();
    let mut k: usize = 0;
    while k < specs.len()
        invariant
            k <= specs.len(),
            db@ == d.spec_bytes(),
            pos_of(specs@, d.spec_bytes()) == pos_from(specs@, d.spec_bytes(), k as int),
        decreases specs.len() - k,
    {
        if bytes_eq(specs[k].nome.as_bytes(), db) {
            return Some(k);
        }
        k += 1;
    }
    None
}

/// Whether every dependency of service `i` is ready.
fn is_released(specs: &[Spec], pronto: &[bool; MAX_SERVICOS], i: usize) -> (r: bool)
    requires
        i < specs.len() <= MAX_SERVICOS,
    ensures
        r == released(specs@, pronto@.subrange(0, specs@.len() as int), i as int),
{
    let ghost ready = pronto@.subrange(0, specs@.len() as int);
    let deps = specs[i].depende;
    let mut b: usize = 0;
    while b < deps.len()
        invariant
            i < specs.len() <= MAX_SERVICOS,
            deps@ == specs@[i as int].depende@,
            ready == pronto@.subrange(0, specs@.len() as int),
            b <= deps.len(),
            forall|c: int| 0 <= c < b ==> (#[trigger] pos_of(specs@, deps_of(specs@[i as int])[c]) matches Some(j) && ready[j]),
        decreases deps.len() - b,
    {
        assert(deps_of(specs@[i as int])[b as int] == deps@[b as int].spec_bytes());
        match find_name(specs, deps[b]) {
            Some(j) => {
                proof {
                    lemma_pos_range(specs@, deps_of(specs@[i as int])[b as int], 0);
                }
                if !pronto[j] {
                    return false;
                }
            },
            None => { return false; },
        }
        b += 1;
    }
    true
}

/// The service `x` waits on: its first dependency that is not ready, or `x` itself.
fn blocker_of(specs: &[Spec], pronto: &[bool; MAX_SERVICOS], x: usize) -> (r: usize)
    requires
        x < specs.len() <= MAX_SERVICOS,
    ensures
        r == blocker(specs@, pronto@.subrange(0, specs@.len() as int), x as int),
{
    let ghost ready = pronto@.subrange(0, specs@.len() as int);
    let deps = specs[x].depende;
    let mut b: usize = 0;
    while b < deps.len()
        invariant
            x < specs.len() <= MAX_SERVICOS,
            deps@ == specs@[x as int].depende@,
            ready == pronto@.subrange(0, specs@.len() as int),
            b <= deps.len(),
            blocker_from(specs@, ready, x as int, 0) == blocker_from(specs@, ready, x as int, b as int),
        decreases deps.len() - b,
    {
        assert(deps_of(specs@[x as int])[b as int] == deps@[b as int].spec_bytes());
        match find_name(specs, deps[b]) {
            Some(j) => {
                proof {
                    lemma_pos_range(specs@, deps_of(specs@[x as int])[b as int], 0);
                }
                if !pronto[j] {
                    return j;
                }
            },
            None => {},
        }
        b += 1;
    }
    x
}

/// Writes into `saida` the indices of `specs` in an order where every dependency comes
/// before the services that need it; returns how many it wrote (always `specs.len()`).
/// The order is stable: among services ready at the same time, the one declared first wins.
#[verifier::rlimit(60)]
pub fn ordem<'a>(specs: &[Spec<'a>], saida: &mut [usize]) -> (r: Result<usize, DepErro<'a>>)
    ensures
        final(saida)@.len() == old(saida)@.len(),
        match ordem_spec(specs@, old(saida)@.len() as int) {
            Ok(order) => r == Ok::<usize, DepErro<'a>>(specs@.len() as usize) && as_ints(final(saida)@.subrange(0, specs@.len() as int))
                == order,
            Err(f) => r == Err::<usize, DepErro<'a>>(refusal_error(specs@, f)),
        },
        r is Ok ==> is_permutation(as_ints(final(saida)@.subrange(0, specs@.len() as int)), specs@.len() as int)
            && deps_first(specs@, as_ints(final(saida)@.subrange(0, specs@.len() as int))),
        ordem_spec(specs@, old(saida)@.len() as int) matches Err(Refusal::Cycle(i)) ==> on_cycle(specs@, i),
{
    let n = specs.len();
    if n > MAX_SERVICOS || saida.len() < n {
        return Err(DepErro::Espaco);
    }
    let mut i: usize = 0;
    while i < n
        invariant
            n == specs.len() <= MAX_SERVICOS,
            saida@ == old(saida)@,
            n <= saida@.len(),
            i <= n,
            first_dup(specs@, 0) == first_dup(specs@, i as int),
        decreases n - i,
    {
        let mut j = i + 1;
        while j < n
            invariant
                n == specs.len() <= MAX_SERVICOS,
                saida@ == old(saida)@,
                n <= saida@.len(),
                first_dup(specs@, 0) == first_dup(specs@, i as int),
                i < j <= n,
                forall|x: int| i < x < j ==> name_of(specs@[x]) != name_of(specs@[i as int]),
            decreases n - j,
        {
            if bytes_eq(specs[i].nome.as_bytes(), specs[j].nome.as_bytes()) {
                assert(first_dup(specs@, i as int) == Some(i as int));
                return Err(DepErro::Duplicado(specs[i].nome));
            }
            j += 1;
        }
        i += 1;
    }
    let mut a: usize = 0;
    while a < n
        invariant
            n == specs.len() <= MAX_SERVICOS,
            saida@ == old(saida)@,
            n <= saida@.len(),
            first_dup(specs@, 0) is None,
            a <= n,
            first_unknown(specs@, 0) == first_unknown(specs@, a as int),
        decreases n - a,
    {
        let deps = specs[a].depende;
        let mut b: usize = 0;
        while b < deps.len()
            invariant
                n == specs.len() <= MAX_SERVICOS,
                saida@ == old(saida)@,
                n <= saida@.len(),
                first_dup(specs@, 0) is None,
                a < n,
                deps@ == specs@[a as int].depende@,
                b <= deps.len(),
                unknown_in(specs@, a as int, 0) == unknown_in(specs@, a as int, b as int),
                first_unknown(specs@, 0) == first_unknown(specs@, a as int),
            decreases deps.len() - b,
        {
            assert(deps_of(specs@[a as int])[b as int] == deps@[b as int].spec_bytes());
            if find_name(specs, deps[b]).is_none() {
                return Err(DepErro::Desconhecida { servico: specs[a].nome, dependencia: deps[b] });
            }
            b += 1;
        }
        a += 1;
    }
    let mut pronto = [false; MAX_SERVICOS];
    let mut escritos: usize = 0;
    let ghost total = ordem_spec(specs@, old(saida)@.len() as int);
    proof {
        assert(pronto@.subrange(0, n as int) =~= Seq::new(n as nat, |x: int| false));
        assert(as_ints(saida@.subrange(0, 0)) =~= Seq::<int>::empty());
        assert(progress_ok(specs@, Seq::new(n as nat, |x: int| false), Seq::empty()));
        lemma_rounds(specs@, Seq::new(n as nat, |x: int| false), Seq::empty());
    }
    while escritos < n
        invariant
            n == specs.len() <= MAX_SERVICOS,
            saida@.len() == old(saida)@.len(),
            n <= saida@.len(),
            escritos <= n,
            total == ordem_spec(specs@, old(saida)@.len() as int),
            total == rounds(specs@, pronto@.subrange(0, n as int), as_ints(saida@.subrange(0, escritos as int))),
            progress_ok(specs@, pronto@.subrange(0, n as int), as_ints(saida@.subrange(0, escritos as int))),
        decreases n - escritos,
    {
        let antes = escritos;
        let ghost r0 = pronto@.subrange(0, n as int);
        let ghost o0 = as_ints(saida@.subrange(0, escritos as int));
        proof {
            lemma_scan(specs@, r0, o0, 0);
        }
        let mut k: usize = 0;
        while k < n
            invariant
                n == specs.len() <= MAX_SERVICOS,
                saida@.len() == old(saida)@.len(),
                n <= saida@.len(),
                antes <= escritos <= n,
                k <= n,
                scan(specs@, r0, o0, 0) == scan(specs@, pronto@.subrange(0, n as int), as_ints(saida@.subrange(0, escritos as int)), k as int),
                progress_ok(specs@, pronto@.subrange(0, n as int), as_ints(saida@.subrange(0, escritos as int))),
            decreases n - k,
        {
            proof {
                lemma_scan(specs@, pronto@.subrange(0, n as int), as_ints(saida@.subrange(0, escritos as int)), k as int);
            }
            if !pronto[k] && is_released(specs, &pronto, k) {
                let ghost ro = pronto@.subrange(0, n as int);
                let ghost oo = as_ints(saida@.subrange(0, escritos as int));
                proof {
                    assert(!oo.contains(k as int));
                    lemma_room(oo, n as int, k as int);
                    lemma_push(specs@, ro, oo, k as int);
                }
                pronto[k] = true;
                saida[escritos] = k;
                escritos += 1;
                proof {
                    assert(pronto@.subrange(0, n as int) =~= ro.update(k as int, true));
                    assert(as_ints(saida@.subrange(0, escritos as int)) =~= oo.push(k as int));
                }
            }
            k += 1;
        }
        if escritos == antes {
            let ghost r2 = pronto@.subrange(0, n as int);
            proof {
                let o2 = as_ints(saida@.subrange(0, escritos as int));
                assert(scan(specs@, r0, o0, 0) == (r2, o2));
                assert(o2.len() == o0.len());
                assert(total == Err::<Seq<int>, Refusal>(Refusal::Cycle(walk(specs@, r2, first_unready(r2, 0), n as nat))));
                lemma_all_listed(o2, n as int);
                let y = choose|y: int| 0 <= y < n && !o2.contains(y);
                lemma_first_unready(r2, 0);
                assert(!r2[y]);
                assert(first_unready(r2, 0) <= y);
                assert(stuck(specs@, r2, first_unready(r2, 0)));
                lemma_all_known(specs@, 0);
            }
            let mut x: usize = 0;
            while x < n && pronto[x]
                invariant
                    x <= n <= MAX_SERVICOS,
                    r2 == pronto@.subrange(0, n as int),
                    first_unready(r2, 0) == first_unready(r2, x as int),
                decreases n - x,
            {
                x += 1;
            }
            proof {
                lemma_first_unready(r2, x as int);
            }
            let ghost x0 = x as int;
            let mut steps: usize = 0;
            while steps < n
                invariant
                    n == specs.len() <= MAX_SERVICOS,
                    r2 == pronto@.subrange(0, n as int),
                    steps <= n,
                    x0 == first_unready(r2, 0),
                    stuck(specs@, r2, x0),
                    x as int == walk(specs@, r2, x0, steps as nat),
                    stuck(specs@, r2, x as int),
                    forall|a: int, b: int| 0 <= a < specs@.len() && 0 <= b < deps_of(specs@[a]).len() ==> #[trigger] pos_of(
                        specs@, deps_of(specs@[a])[b]) is Some,
                decreases n - steps,
            {
                proof {
                    lemma_blocker(specs@, r2, x as int);
                    lemma_walk_add(specs@, r2, x0, steps as nat, 1);
                    lemma_walk_one(specs@, r2, x as int);
                }
                x = blocker_of(specs, &pronto, x);
                steps += 1;
            }
            proof {
                lemma_cycle_is_stuck(specs@, old(saida)@.len() as int);
            }
            let preso = if x < n { specs[x].nome } else { "?" };
            return Err(DepErro::Ciclo(preso));
        }
    }
    proof {
        assert(saida@.subrange(0, n as int).len() == n);
    }
    Ok(escritos)
}

/// The indices an output slice holds.
pub open spec fn as_ints(s: Seq<usize>) -> Seq<int> {
    s.map_values(|x: usize| x as int)
}

/// What holds between passes: `out` lists distinct services, exactly the ready ones, each
/// after its dependencies.
pub open spec fn progress_ok(specs: Seq<Spec>, ready: Seq<bool>, out: Seq<int>) -> bool {
    &&& ready.len() == specs.len()
    &&& out.len() <= specs.len()
    &&& out.no_duplicates()
    &&& forall|k: int| 0 <= k < out.len() ==> 0 <= #[trigger] out[k] < specs.len()
    &&& forall|x: int| 0 <= x < specs.len() ==> (ready[x] <==> out.contains(x))
    &&& deps_first(specs, out)
}

/// A service that is not listed leaves room for it in the list.
proof fn lemma_room(out: Seq<int>, n: int, i: int)
    requires
        out.no_duplicates(),
        forall|k: int| 0 <= k < out.len() ==> 0 <= #[trigger] out[k] < n,
        0 <= i < n,
        !out.contains(i),
    ensures
        out.len() < n,
{
    out.unique_seq_to_set();
    vstd::set_lib::lemma_int_range(0, n);
    let r = vstd::set_lib::set_int_range(0, n).remove(i);
    assert(out.to_set().subset_of(r));
    vstd::set_lib::lemma_len_subset(out.to_set(), r);
}

/// A pass keeps the progress invariant, only extends the list, and when it starts nobody,
/// every service left waits on a dependency that is not ready.
proof fn lemma_scan(specs: Seq<Spec>, ready: Seq<bool>, out: Seq<int>, i: int)
    requires
        progress_ok(specs, ready, out),
        0 <= i <= specs.len(),
    ensures
        ({
            let (r2, o2) = scan(specs, ready, out, i);
            &&& progress_ok(specs, r2, o2)
            &&& o2.len() >= out.len()
            &&& o2.subrange(0, out.len() as int) == out
            &&& o2.len() == out.len() ==> r2 == ready && forall|x: int| i <= x < specs.len() && !ready[x] ==> !released(specs, ready, x)
        }),
    decreases specs.len() - i,
{
    if i < specs.len() {
        if ready[i] {
            lemma_scan(specs, ready, out, i + 1);
        } else if released(specs, ready, i) {
            let r1 = ready.update(i, true);
            let o1 = out.push(i);
            lemma_push(specs, ready, out, i);
            assert(progress_ok(specs, r1, o1));
            lemma_scan(specs, r1, o1, i + 1);
            let (r2, o2) = scan(specs, r1, o1, i + 1);
            assert(o2.subrange(0, out.len() as int) =~= o2.subrange(0, o1.len() as int).subrange(0, out.len() as int));
        } else {
            lemma_scan(specs, ready, out, i + 1);
        }
    } else {
        assert(out.subrange(0, out.len() as int) =~= out);
    }
}

/// Starting a service that is not ready and whose dependencies all are keeps the progress
/// invariant.
proof fn lemma_push(specs: Seq<Spec>, ready: Seq<bool>, out: Seq<int>, i: int)
    requires
        progress_ok(specs, ready, out),
        0 <= i < specs.len(),
        !ready[i],
        released(specs, ready, i),
    ensures
        progress_ok(specs, ready.update(i, true), out.push(i)),
{
    let r1 = ready.update(i, true);
    let o1 = out.push(i);
    assert(!out.contains(i));
    lemma_room(out, specs.len() as int, i);
    assert forall|x: int| 0 <= x < specs.len() implies (r1[x] <==> o1.contains(x)) by {
        if x != i {
            if out.contains(x) {
                let k = choose|k: int| 0 <= k < out.len() && out[k] == x;
                assert(o1[k] == x);
            }
            if o1.contains(x) {
                let k = choose|k: int| 0 <= k < o1.len() && o1[k] == x;
                assert(out[k] == x);
            }
        } else {
            assert(o1[out.len() as int] == i);
        }
    }
    assert forall|k: int, b: int| #![trigger o1[k], deps_of(specs[o1[k]])[b]]
        0 <= k < o1.len() && 0 <= b < deps_of(specs[o1[k]]).len() implies (pos_of(specs, deps_of(specs[o1[k]])[b]) matches Some(j)
            && exists|m: int| 0 <= m < k && o1[m] == j) by {
        if k < out.len() {
            assert(o1[k] == out[k]);
            let j = pos_of(specs, deps_of(specs[out[k]])[b])->Some_0;
            let m = choose|m: int| 0 <= m < k && out[m] == j;
            assert(o1[m] == j);
        } else {
            assert(o1[k] == i);
            assert(pos_of(specs, deps_of(specs[i])[b]) matches Some(j) && ready[j]);
            let j = pos_of(specs, deps_of(specs[i])[b])->Some_0;
            lemma_pos_range(specs, deps_of(specs[i])[b], 0);
            assert(out.contains(j));
            let m = choose|m: int| 0 <= m < out.len() && out[m] == j;
            assert(o1[m] == j);
        }
    }
    assert(progress_ok(specs, r1, o1));
}

/// The first service named `d`, when there is one, is a service of the table.
proof fn lemma_pos_range(specs: Seq<Spec>, d: Seq<u8>, k: int)
    ensures
        pos_from(specs, d, k) matches Some(j) ==> k <= j < specs.len() && name_of(specs[j]) == d,
    decreases specs.len() - k,
{
    if 0 <= k < specs.len() && name_of(specs[k]) != d {
        lemma_pos_range(specs, d, k + 1);
    }
}

/// Passes from a state with the progress invariant end in a complete order that lists every
/// service once, each after its dependencies; or in a state where every service left waits
/// on one that is not ready.
proof fn lemma_rounds(specs: Seq<Spec>, ready: Seq<bool>, out: Seq<int>)
    requires
        progress_ok(specs, ready, out),
        first_unknown(specs, 0) is None,
    ensures
        rounds(specs, ready, out) matches Ok(o) ==> is_permutation(o, specs.len() as int) && deps_first(specs, o),
        rounds(specs, ready, out) matches Err(Refusal::Cycle(i)) ==> stuck(specs, stall_state(specs, ready, out), i) && on_cycle(
            specs,
            i,
        ),
    decreases specs.len() - out.len(),
{
    if out.len() >= specs.len() {
        assert forall|a: int, b: int| 0 <= a < b < specs.len() implies out[a] != out[b] by {
        }
    } else {
        lemma_scan(specs, ready, out, 0);
        let (r2, o2) = scan(specs, ready, out, 0);
        if o2.len() <= out.len() || o2.len() > specs.len() {
            let i0 = first_unready(r2, 0);
            let i = walk(specs, r2, i0, specs.len() as nat);
            lemma_first_unready(r2, 0);
            lemma_all_listed(out, specs.len() as int);
            let x = choose|x: int| 0 <= x < specs.len() && !out.contains(x);
            assert(o2.len() == out.len());
            assert(r2 == ready);
            assert(!r2[x]);
            assert(i0 <= x);
            assert(stuck(specs, r2, i0));
            lemma_all_known(specs, 0);
            lemma_cycle_found(specs, r2, i0);
            assert(rounds(specs, ready, out) == Err::<Seq<int>, Refusal>(Refusal::Cycle(i)));
            assert(stall_state(specs, ready, out) == r2);
        } else {
            lemma_rounds(specs, r2, o2);
            assert(rounds(specs, ready, out) == rounds(specs, r2, o2));
            assert(stall_state(specs, ready, out) == stall_state(specs, r2, o2));
        }
    }
}

/// The services started when the passes stop.
pub open spec fn stall_state(specs: Seq<Spec>, ready: Seq<bool>, out: Seq<int>) -> Seq<bool>
    decreases specs.len() - out.len(),
{
    if out.len() >= specs.len() {
        ready
    } else {
        let (r2, o2) = scan(specs, ready, out, 0);
        if o2.len() <= out.len() || o2.len() > specs.len() {
            r2
        } else {
            stall_state(specs, r2, o2)
        }
    }
}

/// `r` marks the services started so far, `i` is one left, and every service left waits on
/// a declared service that is not ready: none of them can ever start.
pub open spec fn stuck(specs: Seq<Spec>, r: Seq<bool>, i: int) -> bool {
    &&& r.len() == specs.len()
    &&& 0 <= i < specs.len()
    &&& !r[i]
    &&& forall|x: int| 0 <= x < specs.len() && !r[x] ==> !released(specs, r, x)
}

proof fn lemma_first_unready(ready: Seq<bool>, i: int)
    requires
        0 <= i,
    ensures
        i <= first_unready(ready, i) <= ready.len() || i > ready.len(),
        first_unready(ready, i) < ready.len() ==> !ready[first_unready(ready, i)],
        forall|x: int| i <= x < first_unready(ready, i) ==> ready[x],
    decreases ready.len() - i,
{
    if i < ready.len() && ready[i] {
        lemma_first_unready(ready, i + 1);
    }
}

/// A list of fewer than `n` distinct services leaves one out.
proof fn lemma_all_listed(out: Seq<int>, n: int)
    requires
        out.len() < n,
        n >= 0,
    ensures
        exists|x: int| 0 <= x < n && !out.contains(x),
{
    if forall|x: int| 0 <= x < n ==> out.contains(x) {
        out.lemma_cardinality_of_set();
        vstd::set_lib::lemma_int_range(0, n);
        assert(vstd::set_lib::set_int_range(0, n).subset_of(out.to_set()));
        vstd::seq_lib::seq_to_set_is_finite(out);
        vstd::set_lib::lemma_len_subset(vstd::set_lib::set_int_range(0, n), out.to_set());
    }
}

/// A table refused for a cycle names a service that lies on a cycle of dependencies and can
/// never start: when the passes stop, it and every other service not started waits on a
/// declared service that has not started.
pub proof fn lemma_cycle_is_stuck(specs: Seq<Spec>, room: int)
    ensures
        ordem_spec(specs, room) matches Err(Refusal::Cycle(i)) ==> stuck(
            specs,
            stall_state(specs, Seq::new(specs.len(), |x: int| false), Seq::empty()),
            i,
        ) && on_cycle(specs, i),
{
    if specs.len() <= MAX_SERVICOS && room >= specs.len() && first_dup(specs, 0) is None && first_unknown(specs, 0) is None {
        assert(progress_ok(specs, Seq::new(specs.len(), |x: int| false), Seq::empty()));
        lemma_rounds(specs, Seq::new(specs.len(), |x: int| false), Seq::empty());
    }
}


/// No dependency of a service from `b` on is undeclared.
proof fn lemma_unknown_in_none(specs: Seq<Spec>, a: int, b: int)
    requires
        0 <= a < specs.len(),
        0 <= b,
        unknown_in(specs, a, b) is None,
    ensures
        forall|c: int| b <= c < deps_of(specs[a]).len() ==> #[trigger] pos_of(specs, deps_of(specs[a])[c]) is Some,
    decreases deps_of(specs[a]).len() - b,
{
    if b < deps_of(specs[a]).len() {
        lemma_unknown_in_none(specs, a, b + 1);
    }
}

/// Every dependency of every service from `a` on is declared.
proof fn lemma_all_known(specs: Seq<Spec>, a: int)
    requires
        0 <= a,
        first_unknown(specs, a) is None,
    ensures
        forall|x: int, b: int| a <= x < specs.len() && 0 <= b < deps_of(specs[x]).len() ==> #[trigger] pos_of(
            specs,
            deps_of(specs[x])[b],
        ) is Some,
    decreases specs.len() - a,
{
    if a < specs.len() {
        lemma_unknown_in_none(specs, a, 0);
        lemma_all_known(specs, a + 1);
    }
}

/// A service with a dependency not ready from number `b` on has a blocker there.
proof fn lemma_blocker_from(specs: Seq<Spec>, ready: Seq<bool>, x: int, b: int)
    requires
        0 <= x < specs.len(),
        0 <= b,
        ready.len() == specs.len(),
        forall|c: int| 0 <= c < deps_of(specs[x]).len() ==> #[trigger] pos_of(specs, deps_of(specs[x])[c]) is Some,
        exists|c: int| b <= c < deps_of(specs[x]).len() && !ready[#[trigger] pos_of(specs, deps_of(specs[x])[c])->Some_0],
    ensures
        blocker_from(specs, ready, x, b) matches Some(j) && 0 <= j < specs.len() && !ready[j] && depends_on(specs, x, j),
    decreases deps_of(specs[x]).len() - b,
{
    let d = deps_of(specs[x]);
    let c = choose|c: int| b <= c < d.len() && !ready[#[trigger] pos_of(specs, d[c])->Some_0];
    assert(pos_of(specs, d[b]) is Some);
    if !ready[pos_of(specs, d[b])->Some_0] {
        let j = pos_of(specs, d[b])->Some_0;
        lemma_pos_range(specs, d[b], 0);
        assert(pos_of(specs, deps_of(specs[x])[b]) == Some(j));
    } else {
        assert(c != b);
        lemma_blocker_from(specs, ready, x, b + 1);
    }
}

/// A stuck service waits on a service that is stuck too, and depends on it.
proof fn lemma_blocker(specs: Seq<Spec>, r: Seq<bool>, x: int)
    requires
        stuck(specs, r, x),
        forall|a: int, b: int| 0 <= a < specs.len() && 0 <= b < deps_of(specs[a]).len() ==> #[trigger] pos_of(
            specs,
            deps_of(specs[a])[b],
        ) is Some,
    ensures
        stuck(specs, r, blocker(specs, r, x)),
        depends_on(specs, x, blocker(specs, r, x)),
{
    let d = deps_of(specs[x]);
    assert(!released(specs, r, x));
    let b = choose|b: int| 0 <= b < d.len() && !(#[trigger] pos_of(specs, d[b]) matches Some(j) && r[j]);
    assert(pos_of(specs, d[b]) is Some);
    assert(!r[pos_of(specs, d[b])->Some_0]);
    assert forall|c: int| 0 <= c < d.len() implies #[trigger] pos_of(specs, deps_of(specs[x])[c]) is Some by {}
    lemma_blocker_from(specs, r, x, 0);
}

/// Following `blocker` from a stuck service stays on stuck services.
proof fn lemma_walk_stuck(specs: Seq<Spec>, r: Seq<bool>, x: int, k: nat)
    requires
        stuck(specs, r, x),
        forall|a: int, b: int| 0 <= a < specs.len() && 0 <= b < deps_of(specs[a]).len() ==> #[trigger] pos_of(
            specs,
            deps_of(specs[a])[b],
        ) is Some,
    ensures
        stuck(specs, r, walk(specs, r, x, k)),
    decreases k,
{
    if k > 0 {
        lemma_blocker(specs, r, x);
        lemma_walk_stuck(specs, r, blocker(specs, r, x), (k - 1) as nat);
    }
}

/// Walking `a` steps and then `b` is walking `a + b`.
proof fn lemma_walk_add(specs: Seq<Spec>, r: Seq<bool>, x: int, a: nat, b: nat)
    ensures
        walk(specs, r, x, a + b) == walk(specs, r, walk(specs, r, x, a), b),
    decreases a,
{
    if a > 0 {
        lemma_walk_add(specs, r, blocker(specs, r, x), (a - 1) as nat, b);
        assert((a + b - 1) as nat == ((a - 1) as nat + b) as nat);
    }
}

proof fn lemma_walk_one(specs: Seq<Spec>, r: Seq<bool>, x: int)
    ensures
        walk(specs, r, x, 1) == blocker(specs, r, x),
{
    assert(walk(specs, r, blocker(specs, r, x), 0) == blocker(specs, r, x));
}

/// Within `n + 1` steps of a walk over `n` services, some service comes twice.
proof fn lemma_walk_repeats(specs: Seq<Spec>, r: Seq<bool>, x: int) -> (ij: (nat, nat))
    requires
        stuck(specs, r, x),
        forall|a: int, b: int| 0 <= a < specs.len() && 0 <= b < deps_of(specs[a]).len() ==> #[trigger] pos_of(
            specs,
            deps_of(specs[a])[b],
        ) is Some,
    ensures
        ij.0 < ij.1 <= specs.len(),
        walk(specs, r, x, ij.0) == walk(specs, r, x, ij.1),
{
    let n = specs.len() as int;
    let s = Seq::new((n + 1) as nat, |k: int| walk(specs, r, x, k as nat));
    if s.no_duplicates() {
        assert forall|k: int| 0 <= k < s.len() implies 0 <= #[trigger] s[k] < n by {
            lemma_walk_stuck(specs, r, x, k as nat);
        }
        s.unique_seq_to_set();
        vstd::set_lib::lemma_int_range(0, n);
        assert(s.to_set().subset_of(vstd::set_lib::set_int_range(0, n)));
        vstd::set_lib::lemma_len_subset(s.to_set(), vstd::set_lib::set_int_range(0, n));
        assert(false);
        (0, 1)
    } else {
        let (i, j) = choose|i: int, j: int| 0 <= i < s.len() && 0 <= j < s.len() && i != j && s[i] == s[j];
        if i < j {
            (i as nat, j as nat)
        } else {
            (j as nat, i as nat)
        }
    }
}

/// After as many steps as there are services, a walk from a stuck service is on a cycle.
proof fn lemma_cycle_found(specs: Seq<Spec>, r: Seq<bool>, x: int)
    requires
        stuck(specs, r, x),
        forall|a: int, b: int| 0 <= a < specs.len() && 0 <= b < deps_of(specs[a]).len() ==> #[trigger] pos_of(
            specs,
            deps_of(specs[a])[b],
        ) is Some,
    ensures
        stuck(specs, r, walk(specs, r, x, specs.len() as nat)),
        on_cycle(specs, walk(specs, r, x, specs.len() as nat)),
{
    let n = specs.len() as nat;
    lemma_walk_stuck(specs, r, x, n);
    let (i, j) = lemma_walk_repeats(specs, r, x);
    let z = walk(specs, r, x, i);
    let d = (j - i) as nat;
    let m = (n - i) as nat;
    let y = walk(specs, r, x, n);
    lemma_walk_add(specs, r, x, i, d);
    assert(walk(specs, r, z, d) == z);
    lemma_walk_add(specs, r, x, i, m);
    assert(y == walk(specs, r, z, m));
    lemma_walk_add(specs, r, z, m, d);
    lemma_walk_add(specs, r, z, d, m);
    assert(m + d == d + m);
    assert(walk(specs, r, y, d) == y);
    let p = Seq::new(d + 1, |t: int| walk(specs, r, y, t as nat));
    assert forall|t: int| 0 <= t < p.len() - 1 implies depends_on(specs, #[trigger] p[t], p[t + 1]) by {
        lemma_walk_stuck(specs, r, y, t as nat);
        lemma_walk_add(specs, r, y, t as nat, 1);
        lemma_walk_one(specs, r, walk(specs, r, y, t as nat));
        lemma_blocker(specs, r, walk(specs, r, y, t as nat));
        assert(p[t + 1] == walk(specs, r, y, (t + 1) as nat));
    }
    assert(p[0] == y);
    assert(p[p.len() - 1] == y);
}

} // verus!
