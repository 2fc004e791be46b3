use vstd::prelude::*;
use crate::syntax::rules::Derivation;
use crate::syntax::rules::Rule;
use crate::syntax::utils::IsTerminal;

verus! {

/// One member of a FIRST set: a terminal that can begin a derivation, or the
/// marker for the empty word.
#[derive(Clone, Copy, PartialEq, Eq, Debug)]
pub enum First<T> {
    Empty,
    Terminal(T),
}

/// The FIRST table: for each nonterminal that has a rule, the set of
/// terminals (plus the empty-word marker) that can begin one of its
/// derivations. Keys are unique.
pub type FirstTable<T> = Vec<(T, Vec<First<T>>)>;

/// The only way the fixpoint can fail: a single FIRST set outgrew the bound.
#[derive(Clone, Copy, PartialEq, Eq, Structural, Debug)]
pub enum FirstError {
    LimitReached,
}

/// No FIRST set may hold more members than this.
pub const MAX_FIRST_SIZE: usize = 1048576;

/// Whether the table has an entry for `a`.
pub open spec fn table_has_key<T>(t: Seq<(T, Vec<First<T>>)>, a: T) -> bool {
    exists|i: int| 0 <= i < t.len() && (#[trigger] t[i]).0 == a
}

/// Whether `x` is recorded in the FIRST set of `a`.
pub open spec fn table_mem<T>(t: Seq<(T, Vec<First<T>>)>, a: T, x: First<T>) -> bool {
    exists|i: int| 0 <= i < t.len() && (#[trigger] t[i]).0 == a && t[i].1@.contains(x)
}

/// Keys occur at most once.
pub open spec fn keys_unique<T>(t: Seq<(T, Vec<First<T>>)>) -> bool {
    forall|i: int, j: int| 0 <= i < j < t.len() ==> (#[trigger] t[i]).0 != (#[trigger] t[j]).0
}

/// Whether some rule derives `v`.
pub open spec fn sym_defined<T>(rules: Seq<Rule<T>>, v: T) -> bool {
    exists|i: int| 0 <= i < rules.len() && (#[trigger] rules[i]).from == v
}

/// Every nonterminal occurring in a rule body has a rule of its own.
pub open spec fn rules_wf<T: IsTerminal>(rules: Seq<Rule<T>>) -> bool {
    forall|i: int, k: int, l: int|
        #![trigger rules[i].to@[k]->Normal_0@[l]]
        0 <= i < rules.len() && 0 <= k < rules[i].to@.len() && rules[i].to@[k] is Normal && 0 <= l
            < rules[i].to@[k]->Normal_0@.len()
            && !rules[i].to@[k]->Normal_0@[l].spec_is_terminal() ==> sym_defined(
            rules,
            rules[i].to@[k]->Normal_0@[l],
        )
}

/// Whether some rule derives `v`, decided by scanning the rules.
pub(crate) fn has_rule<T: IsTerminal>(rules: &Vec<Rule<T>>, v: T) -> (r: bool)
    ensures
        r == sym_defined(rules@, v),
{
    let n = rules.len();
    let mut k: usize = 0;
    while k < n
        invariant
            n == rules@.len(),
            k <= n,
            forall|l: int| 0 <= l < k as int ==> (#[trigger] rules@[l]).from != v,
        decreases n - k,
    {
        if rules[k].from.sym_eq(v) {
            proof {
                assert(rules@[k as int].from == v);
            }
            return true;
        }
        k = k + 1;
    }
    false
}

/// Decides grammar well-formedness: every nonterminal occurring in an
/// alternative has a rule of its own. Lets a caller establish the
/// precondition of the FIRST fixpoint and the parser at run time.
pub fn check_rules<T: IsTerminal>(rules: &Vec<Rule<T>>) -> (r: bool)
    ensures
        r == rules_wf(rules@),
{
    let nr = rules.len();
    let mut ri: usize = 0;
    while ri < nr
        invariant
            nr == rules@.len(),
            ri <= nr,
            forall|i: int, k: int, l: int|
                #![trigger rules@[i].to@[k]->Normal_0@[l]]
                0 <= i < ri as int && 0 <= k < rules@[i].to@.len() && rules@[i].to@[k] is Normal
                    && 0 <= l < rules@[i].to@[k]->Normal_0@.len()
                    && !rules@[i].to@[k]->Normal_0@[l].spec_is_terminal() ==> sym_defined(
                    rules@,
                    rules@[i].to@[k]->Normal_0@[l],
                ),
        decreases nr - ri,
    {
        let nd = rules[ri].to.len();
        let mut di: usize = 0;
        while di < nd
            invariant
                nr == rules@.len(),
                ri < nr,
                nd == rules@[ri as int].to@.len(),
                di <= nd,
                forall|i: int, k: int, l: int|
                    #![trigger rules@[i].to@[k]->Normal_0@[l]]
                    0 <= i < ri as int && 0 <= k < rules@[i].to@.len() && rules@[i].to@[k]
                        is Normal && 0 <= l < rules@[i].to@[k]->Normal_0@.len()
                        && !rules@[i].to@[k]->Normal_0@[l].spec_is_terminal() ==> sym_defined(
                        rules@,
                        rules@[i].to@[k]->Normal_0@[l],
                    ),
                forall|k: int, l: int|
                    #![trigger rules@[ri as int].to@[k]->Normal_0@[l]]
                    0 <= k < di as int && rules@[ri as int].to@[k] is Normal && 0 <= l
                        < rules@[ri as int].to@[k]->Normal_0@.len() && !rules@[ri as int].to@[
                        k
                    ]->Normal_0@[l].spec_is_terminal() ==> sym_defined(
                        rules@,
                        rules@[ri as int].to@[k]->Normal_0@[l],
                    ),
            decreases nd - di,
        {
            let nv = match &rules[ri].to[di] {
                Derivation::Normal(v) => v.len(),
                Derivation::Empty => 0,
            };
            let mut vi: usize = 0;
            while vi < nv
                invariant
                    nr == rules@.len(),
                    ri < nr,
                    nd == rules@[ri as int].to@.len(),
                    di < nd,
                    nv > 0 ==> rules@[ri as int].to@[di as int] is Normal && rules@[ri
                        as int].to@[di as int]->Normal_0@.len() == nv,
                    vi <= nv,
                    forall|l: int|
                        #![trigger rules@[ri as int].to@[di as int]->Normal_0@[l]]
                        0 <= l < vi as int && !rules@[ri as int].to@[di
                            as int]->Normal_0@[l].spec_is_terminal() ==> sym_defined(
                            rules@,
                            rules@[ri as int].to@[di as int]->Normal_0@[l],
                        ),
                decreases nv - vi,
            {
                let sym = match &rules[ri].to[di] {
                    Derivation::Normal(v) => v[vi],
                    Derivation::Empty => vstd::pervasive::unreached(),
                };
                if !sym.is_terminal() {
                    if !has_rule(rules, sym) {
                        proof {
                            assert(rules@[ri as int].to@[di as int]->Normal_0@[vi as int] == sym);
                            assert(!rules_wf(rules@));
                        }
                        return false;
                    }
                }
                vi = vi + 1;
            }
            di = di + 1;
        }
        ri = ri + 1;
    }
    true
}

/// The closure condition along one alternative, from symbol `j` on: a
/// terminal contributes itself and ends the walk; a nonterminal contributes
/// its FIRST set without the empty-word marker, and the walk continues only
/// if that set holds the marker; a walk that runs off the end contributes
/// the marker itself.
pub open spec fn walk_closed<T: IsTerminal>(
    t: Seq<(T, Vec<First<T>>)>,
    a: T,
    vars: Seq<T>,
    j: int,
) -> bool
    decreases vars.len() - j,
{
    if j < 0 || j >= vars.len() {
        table_mem(t, a, First::Empty)
    } else if vars[j].spec_is_terminal() {
        table_mem(t, a, First::Terminal(vars[j]))
    } else {
        &&& (forall|x: First<T>|
            table_mem(t, vars[j], x) && x != First::<T>::Empty ==> table_mem(t, a, x))
        &&& (table_mem(t, vars[j], First::Empty) ==> walk_closed(t, a, vars, j + 1))
    }
}

/// The closure condition for one alternative of a nonterminal `a`.
pub open spec fn deriv_closed<T: IsTerminal>(
    t: Seq<(T, Vec<First<T>>)>,
    a: T,
    d: Derivation<T>,
) -> bool {
    match d {
        Derivation::Empty => table_mem(t, a, First::Empty),
        Derivation::Normal(vars) => walk_closed(t, a, vars@, 0),
    }
}

/// A table closed under the FIRST rules: every alternative of every rule is
/// accounted for.
pub open spec fn table_closed<T: IsTerminal>(
    rules: Seq<Rule<T>>,
    t: Seq<(T, Vec<First<T>>)>,
) -> bool {
    forall|i: int, k: int|
        0 <= i < rules.len() && 0 <= k < rules[i].to@.len() ==> deriv_closed(
            t,
            rules[i].from,
            #[trigger] rules[i].to@[k],
        )
}

/// Every membership of `t1` also stands in `t2`.
pub open spec fn table_subset<T>(
    t1: Seq<(T, Vec<First<T>>)>,
    t2: Seq<(T, Vec<First<T>>)>,
) -> bool {
    forall|a: T, x: First<T>| #[trigger] table_mem(t1, a, x) ==> table_mem(t2, a, x)
}

/// Total number of recorded members.
pub open spec fn table_size<T>(t: Seq<(T, Vec<First<T>>)>) -> int
    decreases t.len(),
{
    if t.len() == 0 {
        0
    } else {
        table_size(t.drop_last()) + t[t.len() - 1].1@.len()
    }
}

proof fn lemma_table_size_update<T>(t: Seq<(T, Vec<First<T>>)>, i: int, e: (T, Vec<First<T>>))
    requires
        0 <= i < t.len(),
    ensures
        table_size(t.update(i, e)) == table_size(t) - t[i].1@.len() + e.1@.len(),
    decreases t.len(),
{
    let t2 = t.update(i, e);
    if i == t.len() - 1 {
        assert(t2.drop_last() =~= t.drop_last());
    } else {
        assert(t2.drop_last() =~= t.drop_last().update(i, e));
        lemma_table_size_update(t.drop_last(), i, e);
    }
}

proof fn lemma_table_size_bound<T>(t: Seq<(T, Vec<First<T>>)>, cap: int)
    requires
        forall|i: int| 0 <= i < t.len() ==> (#[trigger] t[i]).1@.len() <= cap,
        cap >= 0,
    ensures
        0 <= table_size(t) <= t.len() * cap,
    decreases t.len(),
{
    if t.len() > 0 {
        lemma_table_size_bound(t.drop_last(), cap);
        assert((t.len() - 1) * cap + cap == t.len() * cap) by (nonlinear_arith);
    }
}

/// Equality of FIRST-set members, decided through the symbol equality the
/// trait supplies.
fn first_eq<T: IsTerminal>(a: First<T>, b: First<T>) -> (r: bool)
    ensures
        r == (a == b),
{
    match (a, b) {
        (First::Empty, First::Empty) => true,
        (First::Terminal(x), First::Terminal(y)) => x.sym_eq(y),
        _ => false,
    }
}

/// Linear membership test over a FIRST set.
pub(crate) fn contains_first<T: IsTerminal>(v: &Vec<First<T>>, x: First<T>) -> (r: bool)
    ensures
        r == v@.contains(x),
{
    let n = v.len();
    let mut k: usize = 0;
    while k < n
        invariant
            n == v@.len(),
            k <= n,
            forall|l: int| 0 <= l < k as int ==> v@[l] != x,
        decreases n - k,
    {
        if first_eq(v[k], x) {
            return true;
        }
        k = k + 1;
    }
    false
}

/// Index of the table entry of `a`, if any.
pub(crate) fn find_key<T: IsTerminal>(t: &FirstTable<T>, a: T) -> (r: Option<usize>)
    ensures
        match r {
            Some(i) => i < t@.len() && t@[i as int].0 == a,
            None => !table_has_key(t@, a),
        },
{
    let n = t.len();
    let mut k: usize = 0;
    while k < n
        invariant
            n == t@.len(),
            k <= n,
            forall|l: int| 0 <= l < k as int ==> (#[trigger] t@[l]).0 != a,
        decreases n - k,
    {
        if t[k].0.sym_eq(a) {
            return Some(k);
        }
        k = k + 1;
    }
    None
}

/// A copy of a FIRST set, member for member.
pub(crate) fn copy_firsts<T: IsTerminal>(v: &Vec<First<T>>) -> (r: Vec<First<T>>)
    ensures
        r@ == v@,
{
    let n = v.len();
    let mut out: Vec<First<T>> = Vec::new();
    let mut k: usize = 0;
    while k < n
        invariant
            n == v@.len(),
            k <= n,
            out@ == v@.subrange(0, k as int),
        decreases n - k,
    {
        out.push(v[k]);
        k = k + 1;
    }
    proof {
        assert(out@ =~= v@);
    }
    out
}

/// The premise a walk step leaves behind: the symbol was a nonterminal whose
/// recorded FIRST set lost nothing on the way to `a` and held the empty-word
/// marker.
pub open spec fn step_ok<T: IsTerminal>(
    t: Seq<(T, Vec<First<T>>)>,
    a: T,
    vars: Seq<T>,
    l: int,
) -> bool {
    &&& !vars[l].spec_is_terminal()
    &&& (forall|x: First<T>|
        table_mem(t, vars[l], x) && x != First::<T>::Empty ==> table_mem(t, a, x))
    &&& table_mem(t, vars[l], First::Empty)
}

/// A closed walk still holds from position `j` when the prefix consists of
/// nonterminals whose FIRST sets hold the empty-word marker.
proof fn lemma_walk_prefix<T: IsTerminal>(t2: Seq<(T, Vec<First<T>>)>, a: T, vars: Seq<T>, j: int)
    requires
        0 <= j <= vars.len(),
        walk_closed(t2, a, vars, 0),
        forall|l: int|
            0 <= l < j ==> !(#[trigger] vars[l]).spec_is_terminal() && table_mem(
                t2,
                vars[l],
                First::Empty,
            ),
    ensures
        walk_closed(t2, a, vars, j),
    decreases j,
{
    if j > 0 {
        lemma_walk_prefix(t2, a, vars, j - 1);
    }
}

/// A walk closed from position `j` whose prefix steps were all satisfied is
/// closed from the start.
proof fn lemma_walk_extend<T: IsTerminal>(t: Seq<(T, Vec<First<T>>)>, a: T, vars: Seq<T>, j: int)
    requires
        0 <= j <= vars.len(),
        walk_closed(t, a, vars, j),
        forall|l: int| 0 <= l < j ==> #[trigger] step_ok(t, a, vars, l),
    ensures
        walk_closed(t, a, vars, 0),
    decreases j,
{
    if j > 0 {
        assert(step_ok(t, a, vars, j - 1));
        assert(walk_closed(t, a, vars, j - 1));
        lemma_walk_extend(t, a, vars, j - 1);
    }
}

/// Every recorded member is the empty-word marker or a terminal.
pub open spec fn members_wf<T: IsTerminal>(s: Seq<First<T>>) -> bool {
    forall|l: int|
        0 <= l < s.len() ==> ((#[trigger] s[l]) matches First::Terminal(x)
            ==> x.spec_is_terminal())
}

/// The standing invariant of the fixpoint: unique keys, one key per ruled
/// nonterminal, duplicate-free bounded sets of markers and terminals, and
/// nothing recorded that a closed table could avoid.
pub open spec fn calc_inv<T: IsTerminal>(rules: Seq<Rule<T>>, t: Seq<(T, Vec<First<T>>)>) -> bool {
    &&& keys_unique(t)
    &&& t.len() <= rules.len()
    &&& (forall|a: T| #[trigger] table_has_key(t, a) ==> sym_defined(rules, a))
    &&& (forall|a: T| #[trigger] sym_defined(rules, a) ==> table_has_key(t, a))
    &&& (forall|i: int| 0 <= i < t.len() ==> (#[trigger] t[i]).1@.len() <= MAX_FIRST_SIZE)
    &&& (forall|i: int| 0 <= i < t.len() ==> (#[trigger] t[i]).1@.no_duplicates())
    &&& (forall|i: int| 0 <= i < t.len() ==> members_wf((#[trigger] t[i]).1@))
    &&& (forall|t2: Seq<(T, Vec<First<T>>)>| #[trigger] table_closed(rules, t2) ==> table_subset(
        t,
        t2,
    ))
}

/// More distinct members than the bound allows, every one of them forced
/// into every closed table: the grammar genuinely needs a FIRST set larger
/// than `MAX_FIRST_SIZE`.
pub open spec fn first_overflow_witness<T: IsTerminal>(
    rules: Seq<Rule<T>>,
    a: T,
    ws: Seq<First<T>>,
) -> bool {
    &&& ws.no_duplicates()
    &&& ws.len() > MAX_FIRST_SIZE
    &&& (forall|t2: Seq<(T, Vec<First<T>>)>| #[trigger] table_closed(rules, t2) ==> (forall|
        l: int,
    | 0 <= l < ws.len() ==> table_mem(t2, a, #[trigger] ws[l])))
}

/// A full set about to take one more forced member witnesses the overflow.
proof fn lemma_overflow_witness<T: IsTerminal>(
    rules: Seq<Rule<T>>,
    a: T,
    vf: Seq<First<T>>,
    x: First<T>,
)
    requires
        vf.no_duplicates(),
        !vf.contains(x),
        vf.len() >= MAX_FIRST_SIZE,
        forall|t2: Seq<(T, Vec<First<T>>)>| #[trigger] table_closed(rules, t2) ==> (forall|
            y: First<T>,
        | vf.contains(y) ==> table_mem(t2, a, y)),
        forall|t2: Seq<(T, Vec<First<T>>)>| #[trigger] table_closed(rules, t2) ==> table_mem(
            t2,
            a,
            x,
        ),
    ensures
        exists|b: T, ws: Seq<First<T>>| first_overflow_witness(rules, b, ws),
{
    let ws = vf.push(x);
    assert(ws.no_duplicates()) by {
        assert forall|i: int, j: int|
            0 <= i < ws.len() && 0 <= j < ws.len() && i != j implies ws[i] != ws[j] by {
            if i < vf.len() && j < vf.len() {
                assert(ws[i] == vf[i] && ws[j] == vf[j]);
            } else if i < vf.len() {
                assert(ws[j] == x && ws[i] == vf[i]);
                if vf[i] == x {
                    assert(vf.contains(x));
                }
            } else {
                assert(ws[i] == x && ws[j] == vf[j]);
                if vf[j] == x {
                    assert(vf.contains(x));
                }
            }
        }
    }
    assert forall|t2: Seq<(T, Vec<First<T>>)>| #[trigger] table_closed(rules, t2) implies (forall|
        l: int,
    | 0 <= l < ws.len() ==> table_mem(t2, a, #[trigger] ws[l])) by {
        assert forall|l: int| 0 <= l < ws.len() implies table_mem(t2, a, #[trigger] ws[l]) by {
            if l < vf.len() {
                assert(ws[l] == vf[l]);
                assert(vf.contains(vf[l]));
            } else {
                assert(ws[l] == x);
            }
        }
    }
    assert(first_overflow_witness(rules, a, ws));
}

proof fn lemma_push_no_dup<T: IsTerminal>(s: Seq<First<T>>, x: First<T>)
    requires
        s.no_duplicates(),
        !s.contains(x),
    ensures
        s.push(x).no_duplicates(),
{
    let ws = s.push(x);
    assert forall|i: int, j: int|
        0 <= i < ws.len() && 0 <= j < ws.len() && i != j implies ws[i] != ws[j] by {
        if i < s.len() && j < s.len() {
            assert(ws[i] == s[i] && ws[j] == s[j]);
        } else if i < s.len() {
            assert(ws[j] == x && ws[i] == s[i]);
            if s[i] == x {
                assert(s.contains(x));
            }
        } else {
            assert(ws[i] == x && ws[j] == s[j]);
            if s[j] == x {
                assert(s.contains(x));
            }
        }
    }
}

proof fn lemma_push_members_wf<T: IsTerminal>(s: Seq<First<T>>, x: First<T>)
    requires
        members_wf(s),
        x matches First::Terminal(y) ==> y.spec_is_terminal(),
    ensures
        members_wf(s.push(x)),
{
    let ws = s.push(x);
    assert forall|l: int|
        0 <= l < ws.len() implies ((#[trigger] ws[l]) matches First::Terminal(y)
        ==> y.spec_is_terminal()) by {
        if l < s.len() {
            assert(ws[l] == s[l]);
        } else {
            assert(ws[l] == x);
        }
    }
}

/// Appends a member, keeping every present member.
fn push_first<T: IsTerminal>(v: &mut Vec<First<T>>, x: First<T>)
    ensures
        final(v)@ == old(v)@.push(x),
        final(v)@.len() == old(v)@.len() + 1,
        final(v)@.contains(x),
        forall|y: First<T>| #[trigger] old(v)@.contains(y) ==> final(v)@.contains(y),
        forall|y: First<T>| #[trigger] final(v)@.contains(y) ==> old(v)@.contains(y) || y == x,
{
    v.push(x);
    proof {
        assert(v@[v@.len() - 1] == x);
        assert forall|y: First<T>| #[trigger] old(v)@.contains(y) implies v@.contains(y) by {
            let l = choose|l: int| 0 <= l < old(v)@.len() && old(v)@[l] == y;
            assert(v@[l] == y);
        }
        assert forall|y: First<T>| #[trigger] v@.contains(y) implies old(v)@.contains(y) || y
            == x by {
            let l = choose|l: int| 0 <= l < v@.len() && v@[l] == y;
            if l < old(v)@.len() {
                assert(old(v)@[l] == y);
            }
        }
    }
}

/// Works one alternative of rule `ri` into the FIRST set of its nonterminal,
/// kept in `var_firsts`: terminals met along the walk, FIRST sets of
/// nonterminals without their empty-word marker, and the marker itself when
/// the whole alternative can vanish. Sets `appended` on every addition.
#[verifier::rlimit(30)]
fn process_derivation<T: IsTerminal>(
    var_firsts: &mut Vec<First<T>>,
    table: &FirstTable<T>,
    rules: &Vec<Rule<T>>,
    ri: usize,
    di: usize,
    appended: &mut bool,
) -> (r: Result<(), FirstError>)
    requires
        rules_wf(rules@),
        ri < rules@.len(),
        di < rules@[ri as int].to@.len(),
        calc_inv(rules@, table@),
        old(var_firsts)@.len() <= MAX_FIRST_SIZE,
        old(var_firsts)@.no_duplicates(),
        members_wf(old(var_firsts)@),
        forall|t2: Seq<(T, Vec<First<T>>)>| #[trigger] table_closed(rules@, t2) ==> (forall|
            x: First<T>,
        | old(var_firsts)@.contains(x) ==> table_mem(t2, rules@[ri as int].from, x)),
        !*old(appended) ==> (forall|x: First<T>| #[trigger] old(var_firsts)@.contains(x)
            <==> table_mem(table@, rules@[ri as int].from, x)),
    ensures
        final(var_firsts)@.len() <= MAX_FIRST_SIZE,
        final(var_firsts)@.len() >= old(var_firsts)@.len(),
        final(var_firsts)@.no_duplicates(),
        members_wf(final(var_firsts)@),
        forall|x: First<T>| old(var_firsts)@.contains(x) ==> final(var_firsts)@.contains(x),
        forall|t2: Seq<(T, Vec<First<T>>)>| #[trigger] table_closed(rules@, t2) ==> (forall|
            x: First<T>,
        | final(var_firsts)@.contains(x) ==> table_mem(t2, rules@[ri as int].from, x)),
        *old(appended) ==> *final(appended),
        !*final(appended) ==> final(var_firsts)@ == old(var_firsts)@,
        (*final(appended) && !*old(appended)) ==> final(var_firsts)@.len() > old(var_firsts)@.len(),
        r matches Ok(_) && !*final(appended) ==> deriv_closed(
            table@,
            rules@[ri as int].from,
            rules@[ri as int].to@[di as int],
        ),
        r is Err ==> r == Err::<(), FirstError>(FirstError::LimitReached) && (exists|
            b: T,
            ws: Seq<First<T>>,
        | first_overflow_witness(rules@, b, ws)),
{
    let ghost rl = rules@;
    let ghost t = table@;
    let ghost a = rules@[ri as int].from;
    let ghost vf0 = old(var_firsts)@;
    let ghost ap0 = *old(appended);
    match &rules[ri].to[di] {
        Derivation::Empty => {
            if !contains_first(var_firsts, First::Empty) {
                proof {
                    assert forall|t2: Seq<(T, Vec<First<T>>)>| #[trigger] table_closed(
                        rl,
                        t2,
                    ) implies table_mem(t2, a, First::<T>::Empty) by {
                        assert(deriv_closed(t2, rl[ri as int].from, rl[ri as int].to@[di as int]));
                    }
                }
                if var_firsts.len() >= MAX_FIRST_SIZE {
                    proof {
                        lemma_overflow_witness(rl, a, var_firsts@, First::<T>::Empty);
                    }
                    return Err(FirstError::LimitReached);
                }
                proof {
                    lemma_push_no_dup(var_firsts@, First::<T>::Empty);
                    lemma_push_members_wf(var_firsts@, First::<T>::Empty);
                }
                push_first(var_firsts, First::Empty);
                *appended = true;
            }
            proof {
                if !*appended {
                    assert(var_firsts@.contains(First::<T>::Empty));
                    assert(table_mem(t, a, First::<T>::Empty));
                }
            }
            Ok(())
        },
        Derivation::Normal(vars) => {
            let nv = vars.len();
            let mut j: usize = 0;
            loop
                invariant_except_break
                    nv == vars@.len(),
                    j <= nv,
                    rules_wf(rl),
                    rl == rules@,
                    t == table@,
                    vf0 == old(var_firsts)@,
                    ap0 == *old(appended),
                    calc_inv(rl, t),
                    ri < rl.len(),
                    di < rl[ri as int].to@.len(),
                    a == rl[ri as int].from,
                    rl[ri as int].to@[di as int] == Derivation::Normal(*vars),
                    forall|l: int|
                        0 <= l < j as int ==> !(#[trigger] vars@[l]).spec_is_terminal()
                            && table_mem(t, vars@[l], First::Empty),
                    forall|t2: Seq<(T, Vec<First<T>>)>| #[trigger] table_closed(rl, t2) ==> (
                    forall|x: First<T>| var_firsts@.contains(x) ==> table_mem(t2, a, x)),
                    forall|x: First<T>| vf0.contains(x) ==> var_firsts@.contains(x),
                    !*appended ==> var_firsts@ == vf0 && !ap0,
                    ap0 ==> *appended,
                    (*appended && !ap0) ==> var_firsts@.len() > vf0.len(),
                    vf0.len() <= var_firsts@.len() <= MAX_FIRST_SIZE,
                    var_firsts@.no_duplicates(),
                    members_wf(var_firsts@),
                    !ap0 ==> (forall|x: First<T>| #[trigger] vf0.contains(x) <==> table_mem(
                        t,
                        a,
                        x,
                    )),
                    !*appended ==> (forall|l: int|
                        0 <= l < j as int ==> #[trigger] step_ok(t, a, vars@, l)),
                ensures
                    forall|t2: Seq<(T, Vec<First<T>>)>| #[trigger] table_closed(rl, t2) ==> (
                    forall|x: First<T>| var_firsts@.contains(x) ==> table_mem(t2, a, x)),
                    forall|x: First<T>| vf0.contains(x) ==> var_firsts@.contains(x),
                    !*appended ==> var_firsts@ == vf0 && !ap0,
                    ap0 ==> *appended,
                    (*appended && !ap0) ==> var_firsts@.len() > vf0.len(),
                    vf0.len() <= var_firsts@.len() <= MAX_FIRST_SIZE,
                    var_firsts@.no_duplicates(),
                    members_wf(var_firsts@),
                    !*appended ==> deriv_closed(t, a, rl[ri as int].to@[di as int]),
                decreases nv - j,
            {
                if j >= nv {
                    // every symbol of the alternative can vanish
                    if !contains_first(var_firsts, First::Empty) {
                        proof {
                            assert forall|t2: Seq<(T, Vec<First<T>>)>| #[trigger] table_closed(
                                rl,
                                t2,
                            ) implies table_mem(t2, a, First::<T>::Empty) by {
                                assert(deriv_closed(
                                    t2,
                                    rl[ri as int].from,
                                    rl[ri as int].to@[di as int],
                                ));
                                assert forall|l: int| 0 <= l < vars@.len() implies !(
                                #[trigger] vars@[l]).spec_is_terminal() && table_mem(
                                    t2,
                                    vars@[l],
                                    First::Empty,
                                ) by {
                                    assert(table_mem(t, vars@[l], First::Empty));
                                }
                                lemma_walk_prefix(t2, a, vars@, vars@.len() as int);
                            }
                        }
                        if var_firsts.len() >= MAX_FIRST_SIZE {
                            proof {
                                lemma_overflow_witness(rl, a, var_firsts@, First::<T>::Empty);
                            }
                            return Err(FirstError::LimitReached);
                        }
                        proof {
                            lemma_push_no_dup(var_firsts@, First::<T>::Empty);
                            lemma_push_members_wf(var_firsts@, First::<T>::Empty);
                        }
                        push_first(var_firsts, First::Empty);
                        *appended = true;
                    }
                    proof {
                        if !*appended {
                            assert(var_firsts@.contains(First::<T>::Empty));
                            assert(table_mem(t, a, First::<T>::Empty));
                            assert(walk_closed(t, a, vars@, vars@.len() as int));
                            lemma_walk_extend(t, a, vars@, vars@.len() as int);
                        }
                    }
                    break ;
                }
                let v = vars[j];
                if v.is_terminal() {
                    let x = First::Terminal(v);
                    if !contains_first(var_firsts, x) {
                        proof {
                            assert forall|t2: Seq<(T, Vec<First<T>>)>| #[trigger] table_closed(
                                rl,
                                t2,
                            ) implies table_mem(t2, a, First::Terminal(vars@[j as int])) by {
                                assert(deriv_closed(
                                    t2,
                                    rl[ri as int].from,
                                    rl[ri as int].to@[di as int],
                                ));
                                assert forall|l: int| 0 <= l < j as int implies !(
                                #[trigger] vars@[l]).spec_is_terminal() && table_mem(
                                    t2,
                                    vars@[l],
                                    First::Empty,
                                ) by {
                                    assert(table_mem(t, vars@[l], First::Empty));
                                }
                                lemma_walk_prefix(t2, a, vars@, j as int);
                            }
                        }
                        if var_firsts.len() >= MAX_FIRST_SIZE {
                            proof {
                                lemma_overflow_witness(rl, a, var_firsts@, x);
                            }
                            return Err(FirstError::LimitReached);
                        }
                        proof {
                            lemma_push_no_dup(var_firsts@, x);
                            lemma_push_members_wf(var_firsts@, x);
                        }
                        push_first(var_firsts, x);
                        *appended = true;
                    }
                    proof {
                        if !*appended {
                            assert(var_firsts@.contains(First::Terminal(vars@[j as int])));
                            assert(table_mem(t, a, First::Terminal(vars@[j as int])));
                            assert(walk_closed(t, a, vars@, j as int));
                            lemma_walk_extend(t, a, vars@, j as int);
                        }
                    }
                    break ;
                }
                let jb = match find_key(table, v) {
                    Some(i) => i,
                    None => {
                        proof {
                            assert(rl[ri as int].to@[di as int]->Normal_0@[j as int] == vars@[j
                                as int]);
                            assert(!vars@[j as int].spec_is_terminal());
                            assert(sym_defined(rl, vars@[j as int]));
                            assert(table_has_key(t, vars@[j as int]));
                            assert(false);
                        }
                        vstd::pervasive::unreached()
                    },
                };
                let fv_len = table[jb].1.len();
                let mut xi: usize = 0;
                while xi < fv_len
                    invariant
                        nv == vars@.len(),
                        j < nv,
                        xi <= fv_len,
                        rules_wf(rl),
                        rl == rules@,
                        t == table@,
                        vf0 == old(var_firsts)@,
                        ap0 == *old(appended),
                        calc_inv(rl, t),
                        ri < rl.len(),
                        di < rl[ri as int].to@.len(),
                        a == rl[ri as int].from,
                        rl[ri as int].to@[di as int] == Derivation::Normal(*vars),
                        jb < t.len(),
                        t[jb as int].0 == vars@[j as int],
                        fv_len == t[jb as int].1@.len(),
                        !vars@[j as int].spec_is_terminal(),
                        forall|l: int|
                            0 <= l < j as int ==> !(#[trigger] vars@[l]).spec_is_terminal()
                                && table_mem(t, vars@[l], First::Empty),
                        forall|t2: Seq<(T, Vec<First<T>>)>| #[trigger] table_closed(rl, t2) ==> (
                        forall|x: First<T>| var_firsts@.contains(x) ==> table_mem(t2, a, x)),
                        forall|x: First<T>| vf0.contains(x) ==> var_firsts@.contains(x),
                        !*appended ==> var_firsts@ == vf0 && !ap0,
                        ap0 ==> *appended,
                        (*appended && !ap0) ==> var_firsts@.len() > vf0.len(),
                        vf0.len() <= var_firsts@.len() <= MAX_FIRST_SIZE,
                        var_firsts@.no_duplicates(),
                        members_wf(var_firsts@),
                        !ap0 ==> (forall|x: First<T>| #[trigger] vf0.contains(x) <==> table_mem(
                            t,
                            a,
                            x,
                        )),
                        !*appended ==> (forall|l: int|
                            0 <= l < j as int ==> #[trigger] step_ok(t, a, vars@, l)),
                        forall|l: int|
                            0 <= l < xi as int ==> (#[trigger] t[jb as int].1@[l]
                                != First::<T>::Empty ==> var_firsts@.contains(t[jb as int].1@[l])),
                    decreases fv_len - xi,
                {
                    let x = table[jb].1[xi];
                    if !first_eq(x, First::Empty) {
                        if !contains_first(var_firsts, x) {
                            proof {
                                let xg = t[jb as int].1@[xi as int];
                                assert(table_mem(t, vars@[j as int], xg));
                                assert forall|t2: Seq<(T, Vec<First<T>>)>| #[trigger] table_closed(
                                    rl,
                                    t2,
                                ) implies table_mem(t2, a, xg) by {
                                    assert(deriv_closed(
                                        t2,
                                        rl[ri as int].from,
                                        rl[ri as int].to@[di as int],
                                    ));
                                    assert forall|l: int| 0 <= l < j as int implies !(
                                    #[trigger] vars@[l]).spec_is_terminal() && table_mem(
                                        t2,
                                        vars@[l],
                                        First::Empty,
                                    ) by {
                                        assert(table_mem(t, vars@[l], First::Empty));
                                    }
                                    lemma_walk_prefix(t2, a, vars@, j as int);
                                    assert(table_mem(t2, vars@[j as int], xg));
                                }
                            }
                            if var_firsts.len() >= MAX_FIRST_SIZE {
                                proof {
                                    lemma_overflow_witness(rl, a, var_firsts@, x);
                                }
                                return Err(FirstError::LimitReached);
                            }
                            proof {
                                assert(x matches First::Terminal(y) ==> y.spec_is_terminal()) by {
                                    assert(members_wf(t[jb as int].1@));
                                    assert(t[jb as int].1@[xi as int] == x);
                                }
                                lemma_push_no_dup(var_firsts@, x);
                                lemma_push_members_wf(var_firsts@, x);
                            }
                            push_first(var_firsts, x);
                            *appended = true;
                        }
                    }
                    xi = xi + 1;
                }
                let has_eps = contains_first(&table[jb].1, First::Empty);
                proof {
                    // with unique keys, membership for this symbol is
                    // membership in its one entry
                    assert forall|x: First<T>| #[trigger] table_mem(t, vars@[j as int], x) implies
                        t[jb as int].1@.contains(x) by {
                        let i = choose|i: int|
                            0 <= i < t.len() && (#[trigger] t[i]).0 == vars@[j as int]
                                && t[i].1@.contains(x);
                        if i != jb as int {
                            assert(false);
                        }
                    }
                }
                if has_eps {
                    proof {
                        assert(table_mem(t, vars@[j as int], First::Empty));
                        if !*appended {
                            assert forall|x: First<T>|
                                table_mem(t, vars@[j as int], x) && x != First::<T>::Empty implies
                                table_mem(t, a, x) by {
                                assert(t[jb as int].1@.contains(x));
                                let l = choose|l: int|
                                    0 <= l < t[jb as int].1@.len() && t[jb as int].1@[l] == x;
                                assert(var_firsts@.contains(x));
                            }
                            assert(step_ok(t, a, vars@, j as int));
                        }
                    }
                    j = j + 1;
                } else {
                    proof {
                        if !*appended {
                            assert forall|x: First<T>|
                                table_mem(t, vars@[j as int], x) && x != First::<T>::Empty implies
                                table_mem(t, a, x) by {
                                assert(t[jb as int].1@.contains(x));
                                let l = choose|l: int|
                                    0 <= l < t[jb as int].1@.len() && t[jb as int].1@[l] == x;
                                assert(var_firsts@.contains(x));
                            }
                            assert(!t[jb as int].1@.contains(First::<T>::Empty));
                            assert(!table_mem(t, vars@[j as int], First::Empty));
                            assert(walk_closed(t, a, vars@, j as int));
                            lemma_walk_extend(t, a, vars@, j as int);
                        }
                    }
                    break ;
                }
            }
            Ok(())
        },
    }
}

/// One pass of one rule: each alternative is worked into the FIRST set of
/// the rule's nonterminal; the set is written back only when it grew.
#[verifier::rlimit(30)]
fn process_rule<T: IsTerminal>(
    table: &mut FirstTable<T>,
    rules: &Vec<Rule<T>>,
    ri: usize,
    appended: &mut bool,
) -> (r: Result<(), FirstError>)
    requires
        rules_wf(rules@),
        ri < rules@.len(),
        calc_inv(rules@, old(table)@),
    ensures
        calc_inv(rules@, final(table)@),
        table_size(final(table)@) >= table_size(old(table)@),
        *old(appended) ==> *final(appended),
        !*final(appended) ==> final(table)@ == old(table)@ && !*old(appended),
        r matches Ok(_) && !*final(appended) ==> (forall|k: int|
            0 <= k < rules@[ri as int].to@.len() ==> deriv_closed(
                final(table)@,
                rules@[ri as int].from,
                #[trigger] rules@[ri as int].to@[k],
            )),
        r matches Ok(_) && *final(appended) && !*old(appended) ==> table_size(final(table)@)
            >= table_size(old(table)@) + 1,
        r is Err ==> r == Err::<(), FirstError>(FirstError::LimitReached) && (exists|
            b: T,
            ws: Seq<First<T>>,
        | first_overflow_witness(rules@, b, ws)),
{
    let ghost rl = rules@;
    let ghost t0 = old(table)@;
    let a = rules[ri].from;
    proof {
        assert(sym_defined(rl, a));
        assert(table_has_key(t0, a));
    }
    let ia = match find_key(table, a) {
        Some(i) => i,
        None => {
            proof {
                assert(false);
            }
            vstd::pervasive::unreached()
        },
    };
    let mut var_firsts = copy_firsts(&table[ia].1);
    let ghost vflen0 = var_firsts@.len();
    let ghost ap_entry = *appended;
    proof {
        // this nonterminal's one entry carries exactly its memberships
        assert forall|x: First<T>| #[trigger] table_mem(t0, a, x) implies t0[ia as int].1@.contains(
            x,
        ) by {
            let i = choose|i: int|
                0 <= i < t0.len() && (#[trigger] t0[i]).0 == a && t0[i].1@.contains(x);
            if i != ia as int {
                assert(false);
            }
        }
        assert forall|x: First<T>| t0[ia as int].1@.contains(x) implies table_mem(t0, a, x) by {
            assert(t0[ia as int].0 == a && t0[ia as int].1@.contains(x));
        }
        assert forall|t2: Seq<(T, Vec<First<T>>)>| #[trigger] table_closed(rl, t2) implies (forall|
            x: First<T>,
        | var_firsts@.contains(x) ==> table_mem(t2, a, x)) by {
            assert(table_subset(t0, t2));
            assert forall|x: First<T>| var_firsts@.contains(x) implies table_mem(t2, a, x) by {
                assert(table_mem(t0, a, x));
            }
        }
    }
    let nd = rules[ri].to.len();
    let mut di: usize = 0;
    while di < nd
        invariant
            nd == rl[ri as int].to@.len(),
            di <= nd,
            rules_wf(rl),
            rl == rules@,
            t0 == table@,
            ri < rl.len(),
            a == rl[ri as int].from,
            calc_inv(rl, t0),
            ia < t0.len(),
            t0[ia as int].0 == a,
            vflen0 == t0[ia as int].1@.len(),
            vflen0 <= var_firsts@.len() <= MAX_FIRST_SIZE,
            var_firsts@.no_duplicates(),
            members_wf(var_firsts@),
            ap_entry == *old(appended),
            forall|t2: Seq<(T, Vec<First<T>>)>| #[trigger] table_closed(rl, t2) ==> (forall|
                x: First<T>,
            | var_firsts@.contains(x) ==> table_mem(t2, a, x)),
            forall|x: First<T>| #[trigger] table_mem(t0, a, x) <==> t0[ia as int].1@.contains(x),
            *old(appended) ==> *appended,
            !*appended ==> var_firsts@ == t0[ia as int].1@ && !ap_entry,
            (*appended && !ap_entry) ==> var_firsts@.len() > vflen0,
            !*appended ==> (forall|k: int|
                0 <= k < di as int ==> deriv_closed(t0, a, #[trigger] rl[ri as int].to@[k])),
        decreases nd - di,
    {
        proof {
            if !*appended {
                assert forall|x: First<T>| #[trigger] var_firsts@.contains(x) <==> table_mem(
                    t0,
                    a,
                    x,
                ) by {}
            }
        }
        let res = process_derivation(&mut var_firsts, table, rules, ri, di, appended);
        match res {
            Result::Err(_) => {
                return Err(FirstError::LimitReached);
            },
            Result::Ok(_) => {},
        }
        di = di + 1;
    }
    let entry_len = table[ia].1.len();
    if var_firsts.len() > entry_len {
        proof {
            assert(*appended);
            lemma_table_size_update(t0, ia as int, (a, var_firsts));
            let t1 = t0.update(ia as int, (a, var_firsts));
            assert forall|b: T| #[trigger] table_has_key(t1, b) implies table_has_key(t0, b) by {
                let i = choose|i: int| 0 <= i < t1.len() && (#[trigger] t1[i]).0 == b;
                assert(t0[i].0 == b);
            }
            assert forall|b: T| #[trigger] table_has_key(t0, b) implies table_has_key(t1, b) by {
                let i = choose|i: int| 0 <= i < t0.len() && (#[trigger] t0[i]).0 == b;
                assert(t1[i].0 == b);
            }
            assert forall|i: int| 0 <= i < t1.len() implies (#[trigger] t1[i]).1@.no_duplicates()
                && members_wf(t1[i].1@) by {
                if i != ia as int {
                    assert(t1[i] == t0[i]);
                }
            }
            assert forall|t2: Seq<(T, Vec<First<T>>)>| #[trigger] table_closed(rl, t2) implies
                table_subset(t1, t2) by {
                assert(table_subset(t0, t2));
                assert forall|b: T, x: First<T>| #[trigger] table_mem(t1, b, x) implies table_mem(
                    t2,
                    b,
                    x,
                ) by {
                    let i = choose|i: int|
                        0 <= i < t1.len() && (#[trigger] t1[i]).0 == b && t1[i].1@.contains(x);
                    if i == ia as int {
                        assert(var_firsts@.contains(x));
                    } else {
                        assert(t0[i].0 == b && t0[i].1@.contains(x));
                        assert(table_mem(t0, b, x));
                    }
                }
            }
        }
        table.set(ia, (a, var_firsts));
    }
    Ok(())
}

impl<T: IsTerminal> First<T> {
    /// Whether terminal `other` can begin a derivation of `var`: for a
    /// terminal `var` that is plain equality, for a nonterminal it is
    /// membership in its recorded FIRST set; a nonterminal `other` never
    /// qualifies.
    pub fn first_from(firts_table: &FirstTable<T>, var: T, other: T) -> (r: bool)
        requires
            keys_unique(firts_table@),
        ensures
            r == Self::spec_first_from(firts_table@, var, other),
    {
        if other.is_terminal() {
            if var.is_terminal() {
                other.sym_eq(var)
            } else {
                match find_key(firts_table, var) {
                    Some(i) => {
                        let hit = contains_first(&firts_table[i].1, First::Terminal(other));
                        proof {
                            if hit {
                                assert(table_mem(firts_table@, var, First::Terminal(other)));
                            }
                        }
                        hit
                    },
                    None => false,
                }
            }
        } else {
            false
        }
    }

    pub open spec fn spec_first_from(t: Seq<(T, Vec<First<T>>)>, var: T, other: T) -> bool {
        if other.spec_is_terminal() {
            if var.spec_is_terminal() {
                other == var
            } else {
                table_mem(t, var, First::Terminal(other))
            }
        } else {
            false
        }
    }

    /// Computes the FIRST table of the grammar: the least table closed under
    /// the classical FIRST rules. Every nonterminal with a rule gets exactly
    /// one entry; the sets hold nothing a closed table could avoid, and at
    /// the fixpoint nothing can be added. The only failure is the size bound
    /// on a single set.
    pub fn calculate(rules: &Vec<Rule<T>>) -> (r: Result<FirstTable<T>, FirstError>)
        requires
            rules_wf(rules@),
        ensures
            r matches Ok(t) ==> calc_inv(rules@, t@) && table_closed(rules@, t@),
            r is Err ==> r == Err::<FirstTable<T>, FirstError>(FirstError::LimitReached) && (
            exists|b: T, ws: Seq<First<T>>| first_overflow_witness(rules@, b, ws)),
    {
        let nr = rules.len();
        let mut table: FirstTable<T> = Vec::new();
        let mut ri: usize = 0;
        while ri < nr
            invariant
                nr == rules@.len(),
                ri <= nr,
                keys_unique(table@),
                table@.len() <= ri as int,
                forall|a: T| #[trigger] table_has_key(table@, a) ==> sym_defined(rules@, a),
                forall|l: int|
                    0 <= l < ri as int ==> table_has_key(table@, (#[trigger] rules@[l]).from),
                forall|i: int| 0 <= i < table@.len() ==> (#[trigger] table@[i]).1@.len() == 0,
            decreases nr - ri,
        {
            let a = rules[ri].from;
            let ghost tb = table@;
            let absent = find_key(&table, a).is_none();
            if absent {
                table.push((a, Vec::new()));
                proof {
                    assert(table@[table@.len() - 1].0 == a);
                    assert(table_has_key(table@, a));
                    assert(sym_defined(rules@, a)) by {
                        assert(rules@[ri as int].from == a);
                    }
                    assert forall|b: T| #[trigger] table_has_key(table@, b) implies sym_defined(
                        rules@,
                        b,
                    ) by {
                        let i = choose|i: int|
                            0 <= i < table@.len() && (#[trigger] table@[i]).0 == b;
                        if i < tb.len() {
                            assert(tb[i].0 == b);
                            assert(table_has_key(tb, b));
                        }
                    }
                    assert forall|b: T| #[trigger] table_has_key(tb, b) implies table_has_key(
                        table@,
                        b,
                    ) by {
                        let i = choose|i: int| 0 <= i < tb.len() && (#[trigger] tb[i]).0 == b;
                        assert(table@[i].0 == b);
                    }
                }
            }
            ri = ri + 1;
        }
        proof {
            assert forall|a: T| #[trigger] sym_defined(rules@, a) implies table_has_key(
                table@,
                a,
            ) by {
                let i = choose|i: int| 0 <= i < rules@.len() && (#[trigger] rules@[i]).from == a;
            }
            assert forall|t2: Seq<(T, Vec<First<T>>)>| #[trigger] table_closed(rules@, t2) implies
                table_subset(table@, t2) by {
                assert forall|a: T, x: First<T>| #[trigger] table_mem(table@, a, x) implies
                    table_mem(t2, a, x) by {
                    let i = choose|i: int|
                        0 <= i < table@.len() && (#[trigger] table@[i]).0 == a
                            && table@[i].1@.contains(x);
                    assert(false);
                }
            }
            assert(calc_inv(rules@, table@));
        }
        loop
            invariant_except_break
                nr == rules@.len(),
                rules_wf(rules@),
                calc_inv(rules@, table@),
            ensures
                calc_inv(rules@, table@),
                table_closed(rules@, table@),
            decreases rules@.len() * 1048576 - table_size(table@),
        {
            proof {
                lemma_table_size_bound(table@, 1048576);
            }
            let ghost pass_t0 = table@;
            let ghost pass_size0 = table_size(table@);
            let mut appended = false;
            let mut ri2: usize = 0;
            while ri2 < nr
                invariant
                    nr == rules@.len(),
                    ri2 <= nr,
                    rules_wf(rules@),
                    calc_inv(rules@, table@),
                    table_size(table@) >= pass_size0,
                    appended ==> table_size(table@) >= pass_size0 + 1,
                    !appended ==> table@ == pass_t0,
                    !appended ==> (forall|i: int, k: int|
                        0 <= i < ri2 as int && 0 <= k < rules@[i].to@.len() ==> deriv_closed(
                            table@,
                            rules@[i].from,
                            #[trigger] rules@[i].to@[k],
                        )),
                decreases nr - ri2,
            {
                let res = process_rule(&mut table, rules, ri2, &mut appended);
                match res {
                    Result::Err(_) => {
                        return Err(FirstError::LimitReached);
                    },
                    Result::Ok(_) => {},
                }
                ri2 = ri2 + 1;
            }
            if !appended {
                proof {
                    assert(table_closed(rules@, table@));
                }
                break ;
            }
            proof {
                lemma_table_size_bound(table@, 1048576);
            }
        }
        Ok(table)
    }

    /// Whether the recorded FIRST set of `var` holds the empty-word marker;
    /// a terminal never derives the empty word.
    pub fn firts_empty(firts_table: &FirstTable<T>, var: T) -> (r: bool)
        requires
            keys_unique(firts_table@),
        ensures
            r == Self::spec_firts_empty(firts_table@, var),
    {
        if var.is_terminal() {
            false
        } else {
            match find_key(firts_table, var) {
                Some(i) => {
                    let hit = contains_first(&firts_table[i].1, First::Empty);
                    proof {
                        if hit {
                            assert(table_mem(firts_table@, var, First::Empty));
                        }
                    }
                    hit
                },
                None => false,
            }
        }
    }

    pub open spec fn spec_firts_empty(t: Seq<(T, Vec<First<T>>)>, var: T) -> bool {
        if var.spec_is_terminal() {
            false
        } else {
            table_mem(t, var, First::Empty)
        }
    }
}

} // verus!
