use vstd::prelude::*;
use crate::lexica::regex::Regex;
use crate::lexica::regex::lemma_regex_edges_nonneg;
use crate::lexica::regex::lemma_regex_states_nonneg;
use crate::lexica::regex::lemma_seq_edges_nonneg;
use crate::lexica::regex::lemma_seq_edges_skip;
use crate::lexica::regex::lemma_seq_states_skip;
use crate::lexica::regex::lemma_seq_states_nonneg;
use crate::lexica::regex::regex_edges;
use crate::lexica::regex::regex_states;
use crate::lexica::regex::seq_edges;
use crate::lexica::regex::seq_states;
use crate::lexica::tokens::TokenUses;

verus! {

/// Automaton states are dense integers; 0 is the shared initial state.
pub const INIT_STATE: i64 = 0;

/// Sink value of the deterministic table: no further match is possible.
pub const ERROR_STATE: i64 = -1;

/// One labelled transition of the nondeterministic automaton: reading `byte`
/// in state `from` may move to state `to`. Several entries may share
/// (`from`, `byte`); together they form the target set of that pair.
#[derive(Clone, Copy, PartialEq, Eq, Structural, Debug)]
pub struct Transition {
    pub from: i64,
    pub byte: u8,
    pub to: i64,
}

/// `t` with its target redirected to `to` when it pointed at `from`; the
/// builder's way of inserting an empty transition is this global rewrite.
pub open spec fn retarget(t: Transition, from: i64, to: i64) -> Transition {
    if t.to == from {
        Transition { from: t.from, byte: t.byte, to: to }
    } else {
        t
    }
}

/// Total state allocation of a list of named, attributed patterns.
pub open spec fn triples_states<T>(s: Seq<(T, TokenUses, Regex)>) -> int
    decreases s.len(),
{
    if s.len() == 0 {
        0
    } else {
        regex_states(s[0].2) + triples_states(s.subrange(1, s.len() as int))
    }
}

pub proof fn lemma_triples_states_nonneg<T>(s: Seq<(T, TokenUses, Regex)>)
    ensures
        triples_states(s) >= 0,
    decreases s.len(),
{
    if s.len() > 0 {
        lemma_regex_states_nonneg(s[0].2);
        lemma_triples_states_nonneg(s.subrange(1, s.len() as int));
    }
}

/// Splitting off the head pattern splits the total allocation.
pub proof fn lemma_triples_states_skip<T>(s: Seq<(T, TokenUses, Regex)>, i: int)
    requires
        0 <= i < s.len(),
    ensures
        triples_states(s.subrange(i, s.len() as int)) == regex_states(s[i].2) + triples_states(
            s.subrange(i + 1, s.len() as int),
        ),
{
    let tail = s.subrange(i, s.len() as int);
    assert(tail[0] == s[i]);
    assert(tail.subrange(1, tail.len() as int) =~= s.subrange(i + 1, s.len() as int));
}

/// Total transition count of a list of named, attributed patterns.
pub open spec fn triples_edges<T>(s: Seq<(T, TokenUses, Regex)>) -> int
    decreases s.len(),
{
    if s.len() == 0 {
        0
    } else {
        regex_edges(s[0].2) + triples_edges(s.subrange(1, s.len() as int))
    }
}

pub proof fn lemma_triples_edges_nonneg<T>(s: Seq<(T, TokenUses, Regex)>)
    ensures
        triples_edges(s) >= 0,
    decreases s.len(),
{
    if s.len() > 0 {
        lemma_regex_edges_nonneg(s[0].2);
        lemma_triples_edges_nonneg(s.subrange(1, s.len() as int));
    }
}

/// Splitting off the head pattern splits the total transition count.
pub proof fn lemma_triples_edges_skip<T>(s: Seq<(T, TokenUses, Regex)>, i: int)
    requires
        0 <= i < s.len(),
    ensures
        triples_edges(s.subrange(i, s.len() as int)) == regex_edges(s[i].2) + triples_edges(
            s.subrange(i + 1, s.len() as int),
        ),
{
    let tail = s.subrange(i, s.len() as int);
    assert(tail[0] == s[i]);
    assert(tail.subrange(1, tail.len() as int) =~= s.subrange(i + 1, s.len() as int));
}

/// A pattern's allocation never exceeds the total of its list.
pub proof fn lemma_triples_member_bound<T>(s: Seq<(T, TokenUses, Regex)>, i: int)
    requires
        0 <= i < s.len(),
    ensures
        regex_states(s[i].2) <= triples_states(s),
    decreases s.len(),
{
    lemma_regex_states_nonneg(s[0].2);
    if i == 0 {
        lemma_triples_states_nonneg(s.subrange(1, s.len() as int));
    } else {
        lemma_triples_member_bound(s.subrange(1, s.len() as int), i - 1);
        assert(s.subrange(1, s.len() as int)[i - 1] == s[i]);
    }
}

/// Every stored edge with its target redirected as `retarget` does: the
/// builder's empty transition, applied to the whole edge list.
pub open spec fn retarget_all(trans: Seq<Transition>, from: i64, to: i64) -> Seq<Transition> {
    Seq::new(trans.len(), |k: int| retarget(trans[k], from, to))
}

/// One lowering step of the builder, as a function: from the automaton so
/// far (state count and edge list) and the entry state, the pattern yields
/// the automaton afterwards and its exit state. Literal bytes append fresh
/// chain links; alternation lowers every branch from the shared entry and
/// redirects each exit into one fresh join state; repetition redirects its
/// exit back to the entry and exits there; the empty word is a fresh state
/// joined by redirection.
pub open spec fn lower(states: int, trans: Seq<Transition>, entry: i64, r: Regex) -> (
    int,
    Seq<Transition>,
    i64,
)
    decreases r, 0int,
    via lower_dec
{
    match r {
        Regex::Concat(rs) => lower_chain(states, trans, entry, rs@),
        Regex::Union(rs) => {
            let (st2, tr2) = lower_joined(states + 1, trans, entry, rs@, states as i64);
            (st2, tr2, states as i64)
        },
        Regex::Repeat(inner) => {
            let (st2, tr2, exit) = lower(states, trans, entry, *inner);
            (st2, retarget_all(tr2, exit, entry), entry)
        },
        Regex::Word(w) => lower_word(states, trans, entry, w@),
        Regex::Char(c) => (
            states + 1,
            trans.push(Transition { from: entry, byte: c, to: states as i64 }),
            states as i64,
        ),
        Regex::Empty => (states + 1, retarget_all(trans, entry, states as i64), states as i64),
    }
}

/// The patterns of a concatenation, threaded in order: each exit is the
/// next entry.
pub open spec fn lower_chain(states: int, trans: Seq<Transition>, entry: i64, rs: Seq<Regex>) -> (
    int,
    Seq<Transition>,
    i64,
)
    decreases rs, 1int,
{
    if rs.len() == 0 {
        (states, trans, entry)
    } else {
        let (st2, tr2, e2) = lower(states, trans, entry, rs[0]);
        lower_chain(st2, tr2, e2, rs.subrange(1, rs.len() as int))
    }
}

/// The branches of an alternation: each lowered from the shared entry, its
/// exit redirected into the join state.
pub open spec fn lower_joined(
    states: int,
    trans: Seq<Transition>,
    entry: i64,
    rs: Seq<Regex>,
    join: i64,
) -> (int, Seq<Transition>)
    decreases rs, 1int,
{
    if rs.len() == 0 {
        (states, trans)
    } else {
        let (st2, tr2, ex) = lower(states, trans, entry, rs[0]);
        lower_joined(st2, retarget_all(tr2, ex, join), entry, rs.subrange(1, rs.len() as int), join)
    }
}

/// A literal byte string: one fresh chain link per byte.
pub open spec fn lower_word(states: int, trans: Seq<Transition>, entry: i64, w: Seq<u8>) -> (
    int,
    Seq<Transition>,
    i64,
)
    decreases w.len(),
{
    if w.len() == 0 {
        (states, trans, entry)
    } else {
        lower_word(
            states + 1,
            trans.push(Transition { from: entry, byte: w[0], to: states as i64 }),
            states as i64,
            w.subrange(1, w.len() as int),
        )
    }
}

#[via_fn]
proof fn lower_dec(states: int, trans: Seq<Transition>, entry: i64, r: Regex) {
    match r {
        Regex::Concat(rs) => {
            assert(decreases_to!(r => r->Concat_0));
            assert(decreases_to!(rs => rs@));
        },
        Regex::Union(rs) => {
            assert(decreases_to!(r => r->Union_0));
            assert(decreases_to!(rs => rs@));
        },
        _ => {},
    }
}

/// The whole pattern list, every pattern lowered from the shared initial
/// state; the third component is each pattern's exit state, in declaration
/// order.
pub open spec fn lower_list<T>(
    states: int,
    trans: Seq<Transition>,
    patterns: Seq<(T, TokenUses, Regex)>,
) -> (int, Seq<Transition>, Seq<i64>)
    decreases patterns.len(),
{
    if patterns.len() == 0 {
        (states, trans, Seq::empty())
    } else {
        let (st2, tr2, ex) = lower(states, trans, INIT_STATE, patterns[0].2);
        let (st3, tr3, exits) = lower_list(st2, tr2, patterns.subrange(1, patterns.len() as int));
        (st3, tr3, seq![ex] + exits)
    }
}

/// The shared nondeterministic automaton for a list of named, attributed
/// patterns; `finals` records, per pattern and in declaration order, its
/// accepting state.
#[derive(Debug)]
pub struct TokensNFA<T> {
    pub states: i64,
    pub finals: Vec<(T, TokenUses, i64)>,
    pub transitions: Vec<Transition>,
}

impl<T: Copy> TokensNFA<T> {
    /// Every transition and every accepting state stays inside the allocated
    /// state range, and the initial state exists.
    pub open spec fn wf(self) -> bool {
        &&& 1 <= self.states
        &&& forall|k: int| 0 <= k < self.transitions@.len() ==> 0 <= (
        #[trigger] self.transitions@[k]).from < self.states && 0 <= self.transitions@[k].to
            < self.states
        &&& forall|j: int| 0 <= j < self.finals@.len() ==> 0 <= (#[trigger] self.finals@[j]).2
            < self.states
    }

    /// Lowers all patterns into one shared automaton starting at state 0,
    /// recording one accepting state per pattern, in declaration order: the
    /// whole transition relation and every accepting state are exactly
    /// `lower_list` of the pattern list.
    pub fn new(tokens_regexs: &Vec<(T, TokenUses, Regex)>) -> (nfa: TokensNFA<T>)
        requires
            1 + triples_states(tokens_regexs@) <= i64::MAX,
        ensures
            nfa.wf(),
            nfa.states == 1 + triples_states(tokens_regexs@),
            nfa.transitions@.len() == triples_edges(tokens_regexs@),
            nfa.finals@.len() == tokens_regexs@.len(),
            forall|j: int| 0 <= j < tokens_regexs@.len() ==> (#[trigger] nfa.finals@[j]).0
                == tokens_regexs@[j].0 && nfa.finals@[j].1 == tokens_regexs@[j].1,
            ({
                let (st, tr, exits) = lower_list(1, Seq::<Transition>::empty(), tokens_regexs@);
                nfa.states as int == st && nfa.transitions@ == tr && exits.len()
                    == tokens_regexs@.len() && (forall|j: int|
                    0 <= j < tokens_regexs@.len() ==> (#[trigger] nfa.finals@[j]).2 == exits[j])
            }),
    {
        let mut nfa = TokensNFA::<T> { states: 1, finals: Vec::new(), transitions: Vec::new() };
        let n = tokens_regexs.len();
        let mut i: usize = 0;
        proof {
            assert(tokens_regexs@.subrange(0, tokens_regexs@.len() as int) =~= tokens_regexs@);
        }
        while i < n
            invariant
                n == tokens_regexs@.len(),
                i <= n,
                nfa.wf(),
                nfa.states == 1 + triples_states(tokens_regexs@) - triples_states(
                    tokens_regexs@.subrange(i as int, n as int),
                ),
                nfa.states + triples_states(tokens_regexs@.subrange(i as int, n as int))
                    <= i64::MAX,
                nfa.transitions@.len() == triples_edges(tokens_regexs@) - triples_edges(
                    tokens_regexs@.subrange(i as int, n as int),
                ),
                nfa.finals@.len() == i as int,
                forall|j: int| 0 <= j < i as int ==> (#[trigger] nfa.finals@[j]).0
                    == tokens_regexs@[j].0 && nfa.finals@[j].1 == tokens_regexs@[j].1,
                ({
                    let whole = lower_list(1, Seq::<Transition>::empty(), tokens_regexs@);
                    let rest = lower_list(
                        nfa.states as int,
                        nfa.transitions@,
                        tokens_regexs@.subrange(i as int, n as int),
                    );
                    whole.0 == rest.0 && whole.1 == rest.1 && whole.2 =~= Seq::new(
                        i as nat,
                        |j: int| nfa.finals@[j].2,
                    ) + rest.2
                }),
            decreases n - i,
        {
            proof {
                lemma_triples_states_skip(tokens_regexs@, i as int);
                lemma_triples_states_nonneg(tokens_regexs@.subrange(i as int + 1, n as int));
                lemma_regex_states_nonneg(tokens_regexs@[i as int].2);
                lemma_triples_edges_skip(tokens_regexs@, i as int);
                assert(tokens_regexs@.subrange(i as int, n as int)[0] == tokens_regexs@[i as int]);
                assert(tokens_regexs@.subrange(i as int, n as int).subrange(
                    1,
                    tokens_regexs@.subrange(i as int, n as int).len() as int,
                ) =~= tokens_regexs@.subrange(i as int + 1, n as int));
            }
            let final_state = nfa.include_regex(INIT_STATE, &tokens_regexs[i].2);
            let name = tokens_regexs[i].0;
            let uses = tokens_regexs[i].1;
            nfa.finals.push((name, uses, final_state));
            proof {
                assert(Seq::new((i + 1) as nat, |j: int| nfa.finals@[j].2) =~= Seq::new(
                    i as nat,
                    |j: int| nfa.finals@[j].2,
                ).push(final_state));
                assert(Seq::new(i as nat, |j: int| nfa.finals@[j].2) + (seq![final_state]
                    + lower_list(
                    nfa.states as int,
                    nfa.transitions@,
                    tokens_regexs@.subrange(i as int + 1, n as int),
                ).2) =~= Seq::new((i + 1) as nat, |j: int| nfa.finals@[j].2) + lower_list(
                    nfa.states as int,
                    nfa.transitions@,
                    tokens_regexs@.subrange(i as int + 1, n as int),
                ).2);
            }
            i = i + 1;
        }
        proof {
            assert(tokens_regexs@.subrange(n as int, n as int) =~= Seq::<(T, TokenUses,
            Regex)>::empty());
            assert(lower_list(1, Seq::<Transition>::empty(), tokens_regexs@).2 =~= Seq::new(
                n as nat,
                |j: int| nfa.finals@[j].2,
            ));
        }
        nfa
    }

    /// Lowers one pattern, entering at `current_state`, and returns its exit
    /// state: the result is exactly `lower` of the automaton so far, so the
    /// added transitions are a function of the pattern. Allocation is exactly
    /// `regex_states`; the recorded accepting states are untouched.
    fn include_regex(&mut self, current_state: i64, regex: &Regex) -> (ret: i64)
        requires
            old(self).wf(),
            0 <= current_state < old(self).states,
            old(self).states + regex_states(*regex) <= i64::MAX,
        ensures
            final(self).wf(),
            final(self).states == old(self).states + regex_states(*regex),
            final(self).transitions@.len() == old(self).transitions@.len() + regex_edges(*regex),
            final(self).finals == old(self).finals,
            0 <= ret < final(self).states,
            ({
                let (st2, tr2, ex) = lower(
                    old(self).states as int,
                    old(self).transitions@,
                    current_state,
                    *regex,
                );
                final(self).states as int == st2 && final(self).transitions@ == tr2 && ret == ex
            }),
        decreases *regex,
    {
        match regex {
            Regex::Concat(regexs) => {
                let mut cur = current_state;
                let n = regexs.len();
                let mut i: usize = 0;
                proof {
                    assert(regexs@.subrange(0, regexs@.len() as int) =~= regexs@);
                    lemma_seq_states_nonneg(regexs@);
                    lemma_seq_edges_nonneg(regexs@);
                }
                while i < n
                    invariant
                        n == regexs@.len(),
                        i <= n,
                        self.wf(),
                        0 <= cur < self.states,
                        self.states == old(self).states + seq_states(regexs@) - seq_states(
                            regexs@.subrange(i as int, n as int),
                        ),
                        self.states + seq_states(regexs@.subrange(i as int, n as int))
                            <= i64::MAX,
                        self.transitions@.len() == old(self).transitions@.len() + seq_edges(
                            regexs@,
                        ) - seq_edges(regexs@.subrange(i as int, n as int)),
                        self.finals == old(self).finals,
                        *regex == Regex::Concat(*regexs),
                        lower_chain(
                            self.states as int,
                            self.transitions@,
                            cur,
                            regexs@.subrange(i as int, n as int),
                        ) == lower_chain(
                            old(self).states as int,
                            old(self).transitions@,
                            current_state,
                            regexs@,
                        ),
                    decreases n - i,
                {
                    proof {
                        lemma_seq_states_skip(regexs@, i as int);
                        lemma_seq_states_nonneg(regexs@.subrange(i as int + 1, n as int));
                        lemma_regex_states_nonneg(regexs@[i as int]);
                        lemma_seq_edges_skip(regexs@, i as int);
                        assert(decreases_to!(*regex => regex->Concat_0));
                        assert(decreases_to!(*regexs => regexs@));
                        assert(decreases_to!(regexs@ => regexs@[i as int]));
                        assert(regexs@.subrange(i as int, n as int)[0] == regexs@[i as int]);
                        assert(regexs@.subrange(i as int, n as int).subrange(
                            1,
                            regexs@.subrange(i as int, n as int).len() as int,
                        ) =~= regexs@.subrange(i as int + 1, n as int));
                    }
                    cur = self.include_regex(cur, &regexs[i]);
                    i = i + 1;
                }
                proof {
                    assert(regexs@.subrange(n as int, n as int) =~= Seq::<Regex>::empty());
                }
                cur
            },
            Regex::Union(regexs) => {
                proof {
                    lemma_seq_states_nonneg(regexs@);
                }
                let to = self.states;
                self.states = self.states + 1;
                let n = regexs.len();
                let mut i: usize = 0;
                proof {
                    assert(regexs@.subrange(0, regexs@.len() as int) =~= regexs@);
                }
                while i < n
                    invariant
                        n == regexs@.len(),
                        i <= n,
                        self.wf(),
                        0 <= current_state < self.states,
                        0 <= to < self.states,
                        self.states == old(self).states + 1 + seq_states(regexs@) - seq_states(
                            regexs@.subrange(i as int, n as int),
                        ),
                        self.states + seq_states(regexs@.subrange(i as int, n as int))
                            <= i64::MAX,
                        self.transitions@.len() == old(self).transitions@.len() + seq_edges(
                            regexs@,
                        ) - seq_edges(regexs@.subrange(i as int, n as int)),
                        self.finals == old(self).finals,
                        *regex == Regex::Union(*regexs),
                        to == old(self).states,
                        lower_joined(
                            self.states as int,
                            self.transitions@,
                            current_state,
                            regexs@.subrange(i as int, n as int),
                            to,
                        ) == lower_joined(
                            old(self).states as int + 1,
                            old(self).transitions@,
                            current_state,
                            regexs@,
                            to,
                        ),
                    decreases n - i,
                {
                    proof {
                        lemma_seq_states_skip(regexs@, i as int);
                        lemma_seq_states_nonneg(regexs@.subrange(i as int + 1, n as int));
                        lemma_regex_states_nonneg(regexs@[i as int]);
                        lemma_seq_edges_skip(regexs@, i as int);
                        assert(decreases_to!(*regex => regex->Union_0));
                        assert(decreases_to!(*regexs => regexs@));
                        assert(decreases_to!(regexs@ => regexs@[i as int]));
                        assert(regexs@.subrange(i as int, n as int)[0] == regexs@[i as int]);
                        assert(regexs@.subrange(i as int, n as int).subrange(
                            1,
                            regexs@.subrange(i as int, n as int).len() as int,
                        ) =~= regexs@.subrange(i as int + 1, n as int));
                    }
                    let ghost st_b = self.states as int;
                    let ghost tr_b = self.transitions@;
                    let from = self.include_regex(current_state, &regexs[i]);
                    let ghost tr_m = self.transitions@;
                    self.insert_empty_transition(from, to);
                    proof {
                        assert(self.transitions@ =~= retarget_all(tr_m, from, to));
                    }
                    i = i + 1;
                }
                proof {
                    assert(regexs@.subrange(n as int, n as int) =~= Seq::<Regex>::empty());
                }
                to
            },
            Regex::Repeat(re) => {
                proof {
                    assert(decreases_to!(*regex => regex->Repeat_0));
                    lemma_regex_states_nonneg(**re);
                    lemma_regex_edges_nonneg(**re);
                }
                let from = self.include_regex(current_state, &**re);
                let ghost tr_m = self.transitions@;
                self.insert_empty_transition(from, current_state);
                proof {
                    assert(self.transitions@ =~= retarget_all(tr_m, from, current_state));
                }
                current_state
            },
            Regex::Word(word) => {
                let mut cur = current_state;
                let n = word.len();
                let mut i: usize = 0;
                proof {
                    assert(word@.subrange(0, word@.len() as int) =~= word@);
                }
                while i < n
                    invariant
                        n == word@.len(),
                        i <= n,
                        self.wf(),
                        0 <= cur < self.states,
                        self.states == old(self).states + i as int,
                        self.transitions@.len() == old(self).transitions@.len() + i as int,
                        old(self).states + word@.len() <= i64::MAX,
                        self.finals == old(self).finals,
                        lower_word(
                            self.states as int,
                            self.transitions@,
                            cur,
                            word@.subrange(i as int, n as int),
                        ) == lower_word(
                            old(self).states as int,
                            old(self).transitions@,
                            current_state,
                            word@,
                        ),
                    decreases n - i,
                {
                    proof {
                        assert(word@.subrange(i as int, n as int)[0] == word@[i as int]);
                        assert(word@.subrange(i as int, n as int).subrange(
                            1,
                            word@.subrange(i as int, n as int).len() as int,
                        ) =~= word@.subrange(i as int + 1, n as int));
                    }
                    let next = self.states;
                    self.states = self.states + 1;
                    self.transitions.push(Transition { from: cur, byte: word[i], to: next });
                    cur = next;
                    i = i + 1;
                }
                proof {
                    assert(word@.subrange(n as int, n as int) =~= Seq::<u8>::empty());
                }
                cur
            },
            Regex::Char(c) => {
                let next = self.states;
                self.states = self.states + 1;
                self.transitions.push(Transition { from: current_state, byte: *c, to: next });
                next
            },
            Regex::Empty => {
                let to = self.states;
                self.states = self.states + 1;
                let ghost tr_m = self.transitions@;
                self.insert_empty_transition(current_state, to);
                proof {
                    assert(self.transitions@ =~= retarget_all(tr_m, current_state, to));
                }
                to
            },
        }
    }

    /// The builder's empty transition: every stored edge that reaches `from`
    /// is redirected to `to`, merging the two states from the point of view
    /// of every path that led to `from`.
    fn insert_empty_transition(&mut self, from: i64, to: i64)
        requires
            old(self).wf(),
            0 <= to < old(self).states,
        ensures
            final(self).wf(),
            final(self).states == old(self).states,
            final(self).finals == old(self).finals,
            final(self).transitions@.len() == old(self).transitions@.len(),
            forall|k: int| 0 <= k < final(self).transitions@.len()
                ==> #[trigger] final(self).transitions@[k]
                    == retarget(old(self).transitions@[k], from, to),
    {
        let n = self.transitions.len();
        let mut k: usize = 0;
        while k < n
            invariant
                n == self.transitions@.len(),
                k <= n,
                self.states == old(self).states,
                self.finals == old(self).finals,
                old(self).wf(),
                0 <= to < self.states,
                forall|l: int| 0 <= l < k as int ==> #[trigger] self.transitions@[l] == retarget(
                    old(self).transitions@[l],
                    from,
                    to,
                ),
                forall|l: int| k as int <= l < n ==> #[trigger] self.transitions@[l] == old(
                    self,
                ).transitions@[l],
            decreases n - k,
        {
            let t = self.transitions[k];
            if t.to == from {
                self.transitions.set(k, Transition { from: t.from, byte: t.byte, to: to });
            }
            k = k + 1;
        }
    }

    /// Decides whether the whole byte string is accepted, searching every
    /// nondeterministic path from the initial state.
    pub fn test_string(&self, string: &[u8]) -> (r: Option<T>)
        requires
            self.wf(),
        ensures
            r is Some <==> self.accepts(string@, 0, INIT_STATE),
            r matches Some(t) ==> exists|j: int|
                0 <= j < self.finals@.len() && (#[trigger] self.finals@[j]).0 == t
                    && self.reaches(string@, 0, INIT_STATE, self.finals@[j].2),
    {
        self.test(string, 0, INIT_STATE)
    }

    /// Acceptance: from state `q`, the rest of `s` (from position `i`) can be
    /// consumed along some chain of transitions ending in an accepting state.
    pub open spec fn accepts(self, s: Seq<u8>, i: int, q: i64) -> bool
        decreases s.len() - i,
    {
        if i >= s.len() {
            self.is_final_state(q)
        } else {
            exists|k: int|
                0 <= k < self.transitions@.len() && (#[trigger] self.transitions@[k]).from == q
                    && self.transitions@[k].byte == s[i] && self.accepts(
                    s,
                    i + 1,
                    self.transitions@[k].to,
                )
        }
    }

    /// Whether some pattern accepts in state `q`.
    pub open spec fn is_final_state(self, q: i64) -> bool {
        exists|j: int| 0 <= j < self.finals@.len() && (#[trigger] self.finals@[j]).2 == q
    }

    /// Whether the rest of `s` (from position `i`) labels some chain of
    /// transitions from `q` that ends exactly in state `f`.
    pub open spec fn reaches(self, s: Seq<u8>, i: int, q: i64, f: i64) -> bool
        decreases s.len() - i,
    {
        if i >= s.len() {
            q == f
        } else {
            exists|k: int|
                0 <= k < self.transitions@.len() && (#[trigger] self.transitions@[k]).from == q
                    && self.transitions@[k].byte == s[i] && self.reaches(
                    s,
                    i + 1,
                    self.transitions@[k].to,
                    f,
                )
        }
    }

    fn test(&self, string: &[u8], step: usize, current: i64) -> (r: Option<T>)
        requires
            self.wf(),
            step <= string@.len(),
        ensures
            r is Some <==> self.accepts(string@, step as int, current),
            r matches Some(t) ==> exists|j: int|
                0 <= j < self.finals@.len() && (#[trigger] self.finals@[j]).0 == t
                    && self.reaches(string@, step as int, current, self.finals@[j].2),
        decreases string@.len() - step,
    {
        if step >= string.len() {
            let m = self.finals.len();
            let mut j: usize = 0;
            while j < m
                invariant
                    m == self.finals@.len(),
                    j <= m,
                    step as int >= string@.len(),
                    forall|l: int| 0 <= l < j as int ==> (#[trigger] self.finals@[l]).2 != current,
                decreases m - j,
            {
                if self.finals[j].2 == current {
                    proof {
                        assert(self.finals@[j as int].2 == current);
                        assert(self.is_final_state(current));
                        assert(step as int >= string@.len());
                        assert(self.accepts(string@, step as int, current));
                    }
                    return Some(self.finals[j].0);
                }
                j = j + 1;
            }
            return None;
        }
        let byte = string[step];
        let slen = string.len();
        let m = self.transitions.len();
        let mut k: usize = 0;
        while k < m
            invariant
                m == self.transitions@.len(),
                k <= m,
                self.wf(),
                slen == string@.len(),
                step < slen,
                byte == string@[step as int],
                forall|l: int|
                    0 <= l < k as int ==> !((#[trigger] self.transitions@[l]).from == current
                        && self.transitions@[l].byte == byte && self.accepts(
                        string@,
                        step as int + 1,
                        self.transitions@[l].to,
                    )),
            decreases m - k,
        {
            let t = self.transitions[k];
            if t.from == current && t.byte == byte {
                let sub = self.test(string, step + 1, t.to);
                if sub.is_some() {
                    return sub;
                }
            }
            k = k + 1;
        }
        None
    }
}

/// The automaton tables are bounded; a pattern set whose deterministic
/// automaton would need more states than this is refused.
pub const MAX_DFA_STATES: usize = 1048576;

/// The one way determinization can fail: the bound above was reached.
#[derive(Clone, Copy, PartialEq, Eq, Structural, Debug)]
pub enum AutomataError {
    TooManyStates,
}

/// A strictly ascending sequence of states: sorted, with no duplicates.
pub open spec fn strictly_sorted(s: Seq<i64>) -> bool {
    forall|a: int, b: int| 0 <= a < b < s.len() ==> s[a] < s[b]
}

/// Whether the pair `p` carries the name and attribute of some recorded
/// accepting pattern of the nondeterministic automaton.
pub open spec fn final_from<T>(nfa_finals: Seq<(T, TokenUses, i64)>, name: T, uses: TokenUses) -> bool {
    exists|k: int|
        0 <= k < nfa_finals.len() && (#[trigger] nfa_finals[k]).0 == name && nfa_finals[k].1 == uses
}

/// Inserts `x` into a strictly ascending vector, keeping it strictly
/// ascending; present values are left alone.
fn insert_sorted(v: &mut Vec<i64>, x: i64)
    requires
        strictly_sorted(old(v)@),
    ensures
        strictly_sorted(final(v)@),
        final(v)@.len() >= old(v)@.len(),
        forall|y: i64| #[trigger] final(v)@.contains(y) <==> old(v)@.contains(y) || y == x,
{
    let n = v.len();
    let mut p: usize = 0;
    while p < n && v[p] < x
        invariant
            n == v@.len(),
            p <= n,
            strictly_sorted(v@),
            v@ == old(v)@,
            forall|l: int| 0 <= l < p as int ==> v@[l] < x,
        decreases n - p,
    {
        p = p + 1;
    }
    if p < n && v[p] == x {
        proof {
            assert(v@[p as int] == x);
            assert(v@.contains(x));
        }
        return ;
    }
    v.insert(p, x);
    proof {
        assert forall|y: i64| #[trigger] v@.contains(y) implies old(v)@.contains(y) || y == x by {
            let l = choose|l: int| 0 <= l < v@.len() && v@[l] == y;
            if l < p as int {
                assert(old(v)@[l] == y);
            } else if l > p as int {
                assert(old(v)@[l - 1] == y);
            }
        }
        assert forall|y: i64| old(v)@.contains(y) || y == x implies #[trigger] v@.contains(y) by {
            if old(v)@.contains(y) {
                let l = choose|l: int| 0 <= l < old(v)@.len() && old(v)@[l] == y;
                if l < p as int {
                    assert(v@[l] == y);
                } else {
                    assert(v@[l + 1] == y);
                }
            } else {
                assert(v@[p as int] == x);
            }
        }
        let s = v@;
        assert forall|a: int, b: int| 0 <= a < b < s.len() implies s[a] < s[b] by {
            let o = old(v)@;
            if b < p as int {
                assert(s[a] == o[a] && s[b] == o[b]);
            } else if a < p as int && b == p as int {
                assert(s[a] == o[a] && s[b] == x);
            } else if a < p as int && b > p as int {
                assert(s[a] == o[a] && s[b] == o[b - 1]);
                assert(o[b - 1] >= x);
            } else if a == p as int && b > p as int {
                assert(s[a] == x && s[b] == o[b - 1]);
                assert(o[b - 1] >= o[p as int]);
            } else {
                assert(s[a] == o[a - 1] && s[b] == o[b - 1]);
            }
        }
    }
}

/// Linear membership test over a state vector.
fn contains_state(v: &Vec<i64>, x: i64) -> (r: bool)
    ensures
        r == v@.contains(x),
{
    let n = v.len();
    let mut k: usize = 0;
    while k < n
        invariant
            n == v@.len(),
            k <= n,
            forall|l: int| 0 <= l < k as int ==> v@[l] != x,
        decreases n - k,
    {
        if v[k] == x {
            return true;
        }
        k = k + 1;
    }
    false
}

/// Whether two state vectors hold the same sequence.
fn vec_eq_states(a: &Vec<i64>, b: &Vec<i64>) -> (r: bool)
    ensures
        r == (a@ == b@),
{
    let n = a.len();
    if n != b.len() {
        return false;
    }
    let mut k: usize = 0;
    while k < n
        invariant
            n == a@.len(),
            n == b@.len(),
            k <= n,
            forall|l: int| 0 <= l < k as int ==> a@[l] == b@[l],
        decreases n - k,
    {
        if a[k] != b[k] {
            return false;
        }
        k = k + 1;
    }
    proof {
        assert(a@ =~= b@);
    }
    true
}

/// Index of a previously discovered state set equal to `s`, if any.
fn find_subset(subsets: &Vec<Vec<i64>>, s: &Vec<i64>) -> (r: Option<usize>)
    ensures
        match r {
            Some(j) => j < subsets@.len() && subsets@[j as int]@ == s@,
            None => forall|j: int| 0 <= j < subsets@.len() ==> (#[trigger] subsets@[j])@ != s@,
        },
{
    let n = subsets.len();
    let mut j: usize = 0;
    while j < n
        invariant
            n == subsets@.len(),
            j <= n,
            forall|l: int| 0 <= l < j as int ==> (#[trigger] subsets@[l])@ != s@,
        decreases n - j,
    {
        if vec_eq_states(&subsets[j], s) {
            return Some(j);
        }
        j = j + 1;
    }
    None
}

/// Whether reading `b` can move from some member of `class` to `t`.
pub open spec fn class_target<T: Copy>(nfa: TokensNFA<T>, class: Seq<i64>, b: u8, t: i64) -> bool {
    exists|k: int|
        0 <= k < nfa.transitions@.len() && (#[trigger] nfa.transitions@[k]).byte == b
            && nfa.transitions@[k].to == t && class.contains(nfa.transitions@[k].from)
}

/// Whether one of the first `upto` transitions moves from `cur` to `t` on
/// `b`.
spec fn cur_target<T: Copy>(nfa: TokensNFA<T>, cur: i64, b: u8, upto: int, t: i64) -> bool {
    exists|k2: int|
        0 <= k2 < upto && (#[trigger] nfa.transitions@[k2]).from == cur
            && nfa.transitions@[k2].byte == b && nfa.transitions@[k2].to == t
}

/// Whether `class` has any outgoing transition on `b`.
pub open spec fn class_has_move<T: Copy>(nfa: TokensNFA<T>, class: Seq<i64>, b: u8) -> bool {
    exists|k: int|
        0 <= k < nfa.transitions@.len() && (#[trigger] nfa.transitions@[k]).byte == b
            && class.contains(nfa.transitions@[k].from)
}

/// `eclass` holds exactly the states reachable from `class` by one `b`.
pub open spec fn class_is_targets<T: Copy>(
    nfa: TokensNFA<T>,
    eclass: Seq<i64>,
    class: Seq<i64>,
    b: u8,
) -> bool {
    forall|t: i64| #[trigger] eclass.contains(t) <==> class_target(nfa, class, b, t)
}

/// Evidence that determinization genuinely needs the full state budget:
/// this many pairwise-distinct classes, rooted at the initial class, each
/// later one the exact nonempty one-byte move of an earlier one.
pub open spec fn blowup_witness<T: Copy>(nfa: TokensNFA<T>, cs: Seq<Seq<i64>>) -> bool {
    &&& cs.len() == MAX_DFA_STATES
    &&& cs[0] == seq![INIT_STATE]
    &&& (forall|q1: int, q2: int| 0 <= q1 < q2 < cs.len() ==> cs[q1] != cs[q2])
    &&& (forall|q: int|
        1 <= q < cs.len() ==> (#[trigger] cs[q]).len() > 0 && (exists|q2: int, b: u8|
            0 <= q2 < q && #[trigger] class_is_targets(nfa, cs[q], cs[q2], b)))
}

/// One deterministic entry agrees with the subset construction: the error
/// sink exactly when the class has no move on the byte, and otherwise a
/// state whose class holds exactly the reachable states.
pub open spec fn entry_ok<T: Copy>(
    nfa: TokensNFA<T>,
    classes: Seq<Seq<i64>>,
    class: Seq<i64>,
    b: u8,
    e: i64,
) -> bool {
    if e == ERROR_STATE {
        !class_has_move(nfa, class, b)
    } else {
        0 <= e < classes.len() && class_is_targets(nfa, classes[e as int], class, b)
    }
}

/// The entry of the flat table for state `q` and byte `b`.
pub open spec fn dfa_entry(table: Seq<i64>, q: int, b: u8) -> i64 {
    table[q * 256 + b]
}

/// The whole table is the subset construction of the automaton: state 0 is
/// the class of the initial state, classes are pairwise distinct, and every
/// entry is the exact move of its state's class.
pub open spec fn subset_construction_ok<T: Copy>(
    nfa: TokensNFA<T>,
    table: Seq<i64>,
    classes: Seq<Seq<i64>>,
    total: int,
) -> bool {
    &&& 0 < total == classes.len()
    &&& classes[0] == seq![INIT_STATE]
    &&& (forall|q1: int, q2: int| 0 <= q1 < q2 < classes.len() ==> classes[q1] != classes[q2])
    &&& (forall|q: int| 0 <= q < classes.len() ==> strictly_sorted(#[trigger] classes[q]))
    &&& forall|q: int, b: u8|
        0 <= q < total ==> entry_ok(nfa, classes, classes[q], b, #[trigger] dfa_entry(table, q, b))
}

/// Whether some accepting entry is recorded for deterministic state `q`.
pub open spec fn has_dfa_entry<T>(fins: Seq<(T, TokenUses, i64)>, q: int) -> bool {
    exists|j: int| 0 <= j < fins.len() && (#[trigger] fins[j]).2 == q
}

/// The same, among the first `j` entries.
pub open spec fn has_dfa_entry_upto<T>(fins: Seq<(T, TokenUses, i64)>, j: int, q: int) -> bool {
    exists|l: int| 0 <= l < j && l < fins.len() && (#[trigger] fins[l]).2 == q
}

/// The determinizer's accepting entries follow the declaration order: every
/// recorded entry carries the first declared pattern whose accepting state
/// its class holds, and a state without an entry has a class holding no
/// accepting state at all.
/// The given accepting entry carries the first declared pattern whose
/// accepting state lies in the given class.
pub open spec fn entry_tied<T>(
    nfa_finals: Seq<(T, TokenUses, i64)>,
    class: Seq<i64>,
    e: (T, TokenUses, i64),
) -> bool {
    exists|k: int|
        first_final_index(nfa_finals, class, k) && e.0 == (#[trigger] nfa_finals[k]).0 && e.1
            == nfa_finals[k].1
}

pub open spec fn tie_break_ok<T>(
    nfa_finals: Seq<(T, TokenUses, i64)>,
    fins: Seq<(T, TokenUses, i64)>,
    classes: Seq<Seq<i64>>,
    total: int,
) -> bool {
    &&& (forall|j: int|
        0 <= j < fins.len() ==> entry_tied(
            nfa_finals,
            classes[(#[trigger] fins[j]).2 as int],
            fins[j],
        ))
    &&& (forall|q: int, k: int|
        #![trigger classes[q].contains(nfa_finals[k].2)]
        1 <= q < total && !has_dfa_entry(fins, q) && 0 <= k < nfa_finals.len()
            ==> !classes[q].contains(nfa_finals[k].2))
}

/// Index of the first declared pattern whose accepting state lies in the
/// given class of nondeterministic states.
pub open spec fn first_final_index<T>(
    fins: Seq<(T, TokenUses, i64)>,
    class: Seq<i64>,
    k: int,
) -> bool {
    &&& 0 <= k < fins.len()
    &&& class.contains(fins[k].2)
    &&& forall|k2: int| 0 <= k2 < k ==> !class.contains((#[trigger] fins[k2]).2)
}

/// The deterministic automaton: a total transition table over the full byte
/// range (row-major, `state * 256 + byte`, `ERROR_STATE` for "no move"), and
/// per state the accepting pattern copied from the first declared pattern
/// whose accepting state the state set contains.
pub struct TokensDFA<T> {
    pub states: usize,
    pub finals: Vec<(Option<T>, TokenUses)>,
    pub transitions: Vec<i64>,
    pub classes: Ghost<Seq<Seq<i64>>>,
    pub source: Ghost<TokensNFA<T>>,
}

/// What compiling a pattern list guarantees of the result: a well-formed
/// table that is the subset construction of the shared nondeterministic
/// automaton of exactly these patterns, whose accepting entries follow the
/// first-declared tie-break and whose silent states accept nothing.
pub open spec fn compiled_from<T: Copy>(d: TokensDFA<T>, patterns: Seq<(T, TokenUses, Regex)>) -> bool {
    &&& d.wf()
    &&& subset_construction_ok(d.source@, d.transitions@, d.classes@, d.states as int)
    &&& d.classes@.len() == d.states
    &&& d.source@.wf()
    &&& d.source@.states == 1 + triples_states(patterns)
    &&& d.source@.transitions@.len() == triples_edges(patterns)
    &&& d.source@.finals@.len() == patterns.len()
    &&& ({
        let (st, tr, exits) = lower_list(1, Seq::<Transition>::empty(), patterns);
        d.source@.states as int == st && d.source@.transitions@ == tr && exits.len()
            == patterns.len() && (forall|j: int|
            0 <= j < patterns.len() ==> (#[trigger] d.source@.finals@[j]).2 == exits[j])
    })
    &&& (forall|k: int|
        0 <= k < patterns.len() ==> (#[trigger] d.source@.finals@[k]).0 == patterns[k].0
            && d.source@.finals@[k].1 == patterns[k].1)
    &&& (forall|q: int|
        0 <= q < d.states ==> ((#[trigger] d.finals@[q]).0 matches Some(t) ==> exists|k: int|
            first_final_index(d.source@.finals@, d.classes@[q], k) && t == d.source@.finals@[k].0
                && d.finals@[q].1 == d.source@.finals@[k].1))
    &&& (forall|q: int, k: int|
        #![trigger d.classes@[q].contains(d.source@.finals@[k].2)]
        1 <= q < d.states && d.finals@[q].0 is None && 0 <= k < d.source@.finals@.len()
            ==> !d.classes@[q].contains(d.source@.finals@[k].2))
}

impl<T: Copy> TokensDFA<T> {
    /// The table is total over states and bytes, every entry is a state or
    /// the error sink, the initial state exists and accepts nothing.
    pub open spec fn wf(self) -> bool {
        &&& 1 <= self.states <= MAX_DFA_STATES
        &&& self.transitions@.len() == self.states * 256
        &&& self.finals@.len() == self.states
        &&& forall|k: int| 0 <= k < self.transitions@.len() ==> #[trigger] self.transitions@[k]
            == ERROR_STATE || 0 <= self.transitions@[k] < self.states
        &&& self.finals@[0].0 is None
    }

    /// One deterministic move; outside the state range (in particular from
    /// the error sink) there is no move.
    pub open spec fn step(self, q: i64, b: u8) -> i64 {
        if 0 <= q < self.states {
            self.transitions@[q as int * 256 + b as int]
        } else {
            ERROR_STATE
        }
    }

    /// The state reached from `q` after consuming `s` from position `i`;
    /// the error sink absorbs.
    pub open spec fn run_from(self, s: Seq<u8>, i: int, q: i64) -> i64
        decreases s.len() - i,
    {
        if i >= s.len() || q == ERROR_STATE {
            q
        } else {
            self.run_from(s, i + 1, self.step(q, s[i]))
        }
    }

    /// The accepting pattern of state `q`, if any.
    pub open spec fn token_at(self, q: i64) -> Option<T> {
        if 0 <= q < self.states {
            self.finals@[q as int].0
        } else {
            None
        }
    }

    /// What running the automaton over the whole string yields: the name of
    /// the accepting pattern of the state reached, if the run survives and
    /// that state accepts.
    pub open spec fn spec_test(self, s: Seq<u8>) -> Option<T> {
        self.token_at(self.run_from(s, 0, INIT_STATE))
    }

    /// Compiles the patterns: the shared nondeterministic automaton is built
    /// first, then determinized by the subset construction - state 0 is the
    /// class of the initial state, and every entry of the table is the exact
    /// one-byte move of its state's class, with the error sink exactly where
    /// the class has no move. Fails only when the state bound would be
    /// exceeded. The initial state never accepts; every other state accepts,
    /// of the declared patterns whose accepting states its class holds, the
    /// first declared one - the tie-break between patterns matching the same
    /// lexeme - and a state whose class holds none accepts nothing.
    pub fn new(tokens_regexs: &Vec<(T, TokenUses, Regex)>) -> (r: Result<
        TokensDFA<T>,
        AutomataError,
    >)
        requires
            1 + triples_states(tokens_regexs@) <= i64::MAX,
        ensures
            r matches Ok(d) ==> d.wf() && (forall|q: int|
                0 <= q < d.states ==> ((#[trigger] d.finals@[q]).0 matches Some(t)
                    ==> exists|k: int|
                        0 <= k < tokens_regexs@.len() && (#[trigger] tokens_regexs@[k]).0 == t
                            && tokens_regexs@[k].1 == d.finals@[q].1)),
            r matches Ok(d) ==> subset_construction_ok(
                d.source@,
                d.transitions@,
                d.classes@,
                d.states as int,
            ),
            r matches Ok(d) ==> compiled_from(d, tokens_regexs@),
            r matches Ok(d) ==> d.classes@.len() == d.states && d.source@.finals@.len()
                == tokens_regexs@.len() && (forall|k: int|
                0 <= k < tokens_regexs@.len() ==> (#[trigger] d.source@.finals@[k]).0
                    == tokens_regexs@[k].0 && d.source@.finals@[k].1 == tokens_regexs@[k].1) && (
            forall|q: int|
                0 <= q < d.states ==> ((#[trigger] d.finals@[q]).0 matches Some(t)
                    ==> exists|k: int|
                        first_final_index(d.source@.finals@, d.classes@[q], k) && t
                            == d.source@.finals@[k].0 && d.finals@[q].1
                            == d.source@.finals@[k].1)) && (forall|q: int, k: int|
                #![trigger d.classes@[q].contains(d.source@.finals@[k].2)]
                1 <= q < d.states && d.finals@[q].0 is None && 0 <= k < d.source@.finals@.len()
                    ==> !d.classes@[q].contains(d.source@.finals@[k].2)),
            r is Err ==> r == Err::<TokensDFA<T>, AutomataError>(AutomataError::TooManyStates) && (
            exists|n2: TokensNFA<T>, cs: Seq<Seq<i64>>|
                n2.states == 1 + triples_states(tokens_regexs@) && n2.transitions@.len()
                    == triples_edges(tokens_regexs@) && #[trigger] blowup_witness(n2, cs)),
    {
        let nfa = TokensNFA::new(tokens_regexs);
        let afd = match TokensDFA::from_nfa(&nfa) {
            Ok(x) => x,
            Err(e) => {
                return Err(e);
            },
        };
        let (table, fins, states, classes) = afd;
        let mut finals: Vec<(Option<T>, TokenUses)> = Vec::new();
        let mut c: usize = 0;
        while c < states
            invariant
                c <= states,
                finals@.len() == c as int,
                forall|q: int| 0 <= q < c as int ==> (#[trigger] finals@[q]).0 is None,
            decreases states - c,
        {
            finals.push((None, TokenUses::Default));
            c = c + 1;
        }
        let nf = fins.len();
        let mut j: usize = 0;
        while j < nf
            invariant
                nf == fins@.len(),
                j <= nf,
                nfa.finals@.len() == tokens_regexs@.len(),
                forall|k: int| 0 <= k < tokens_regexs@.len() ==> (#[trigger] nfa.finals@[k]).0
                    == tokens_regexs@[k].0 && nfa.finals@[k].1 == tokens_regexs@[k].1,
                1 <= states,
                finals@.len() == states as int,
                forall|l: int| 0 <= l < nf ==> 1 <= (#[trigger] fins@[l]).2 < states
                    && final_from(nfa.finals@, fins@[l].0, fins@[l].1),
                forall|j1: int, j2: int| 0 <= j1 < j2 < nf ==> (#[trigger] fins@[j1]).2 < (
                #[trigger] fins@[j2]).2,
                finals@[0].0 is None,
                forall|q: int| 0 <= q < states as int ==> ((#[trigger] finals@[q]).0 matches Some(
                    t,
                ) ==> exists|k: int|
                    0 <= k < tokens_regexs@.len() && (#[trigger] tokens_regexs@[k]).0 == t
                        && tokens_regexs@[k].1 == finals@[q].1),
                forall|q: int| 0 <= q < states as int && (#[trigger] finals@[q]).0 is None ==> (
                forall|l: int| 0 <= l < j as int ==> (#[trigger] fins@[l]).2 != q),
                forall|q: int| 0 <= q < states as int && (#[trigger] finals@[q]).0 is Some
                    ==> has_dfa_entry_upto(fins@, j as int, q),
                forall|l: int| 0 <= l < j as int ==> (#[trigger] finals@[(fins@[l].2) as int]) == (
                    Some(fins@[l].0),
                    fins@[l].1,
                ),
            decreases nf - j,
        {
            let f = fins[j];
            proof {
                let k = choose|k: int|
                    0 <= k < nfa.finals@.len() && (#[trigger] nfa.finals@[k]).0 == f.0
                        && nfa.finals@[k].1 == f.1;
                assert(tokens_regexs@[k].0 == f.0 && tokens_regexs@[k].1 == f.1);
            }
            finals.set(f.2 as usize, (Some(f.0), f.1));
            j = j + 1;
        }
        let ghost gnfa: TokensNFA<T> = nfa;
        let d = TokensDFA {
            states,
            finals,
            transitions: table,
            classes,
            source: Ghost(gnfa),
        };
        proof {
            assert forall|q: int|
                0 <= q < d.states && (#[trigger] d.finals@[q]).0 is Some implies exists|k: int|
                first_final_index(d.source@.finals@, d.classes@[q], k) && d.finals@[q].0
                    == Some(d.source@.finals@[k].0) && d.finals@[q].1
                    == d.source@.finals@[k].1 by {
                assert(has_dfa_entry_upto(fins@, nf as int, q));
                let l = choose|l: int|
                    0 <= l < nf as int && l < fins@.len() && (#[trigger] fins@[l]).2 == q;
                assert(d.finals@[q] == (Some(fins@[l].0), fins@[l].1));
                assert(entry_tied(nfa.finals@, classes@[(fins@[l].2) as int], fins@[l]));
                let k = choose|k: int|
                    first_final_index(nfa.finals@, classes@[(fins@[l].2) as int], k) && fins@[l].0
                        == (#[trigger] nfa.finals@[k]).0 && fins@[l].1 == nfa.finals@[k].1;
                assert(first_final_index(d.source@.finals@, d.classes@[q], k));
            }
        }
        Ok(d)
    }

    /// Classic state-set construction, bounded by `MAX_DFA_STATES`: state
    /// sets of the nondeterministic automaton are discovered breadth-first,
    /// each new one getting the next id; the result is the flat table, the
    /// accepting entries (each state paired with the first declared pattern
    /// whose accepting state its set contains), and the state count.
    fn from_nfa(nfa: &TokensNFA<T>) -> (r: Result<
        (Vec<i64>, Vec<(T, TokenUses, i64)>, usize, Ghost<Seq<Seq<i64>>>),
        AutomataError,
    >)
        requires
            nfa.wf(),
        ensures
            r matches Ok(t) ==> 1 <= t.2 <= MAX_DFA_STATES && t.0@.len() == t.2 * 256 && (
            forall|k: int|
                0 <= k < t.0@.len() ==> #[trigger] t.0@[k] == ERROR_STATE || 0 <= t.0@[k]
                    < t.2) && (forall|j: int|
                0 <= j < t.1@.len() ==> 1 <= (#[trigger] t.1@[j]).2 < t.2 && final_from(
                    nfa.finals@,
                    t.1@[j].0,
                    t.1@[j].1,
                )) && t.3@.len() == t.2 && (forall|j1: int, j2: int|
                0 <= j1 < j2 < t.1@.len() ==> (#[trigger] t.1@[j1]).2 < (#[trigger] t.1@[j2]).2)
                && tie_break_ok(nfa.finals@, t.1@, t.3@, t.2 as int) && subset_construction_ok(
                *nfa,
                t.0@,
                t.3@,
                t.2 as int,
            ),
            r is Err ==> r == Err::<(Vec<i64>, Vec<(T, TokenUses, i64)>, usize, Ghost<
                Seq<Seq<i64>>,
            >), AutomataError>(AutomataError::TooManyStates) && (exists|cs: Seq<Seq<i64>>|
                #[trigger] blowup_witness(*nfa, cs)),
    {
        let mut table: Vec<i64> = Vec::new();
        let mut c: usize = 0;
        while c < 256
            invariant
                c <= 256,
                table@.len() == c as int,
                forall|k: int| 0 <= k < c as int ==> #[trigger] table@[k] == ERROR_STATE,
            decreases 256 - c,
        {
            table.push(ERROR_STATE);
            c = c + 1;
        }
        let mut new_finals: Vec<(T, TokenUses, i64)> = Vec::new();
        let mut first_subset: Vec<i64> = Vec::new();
        first_subset.push(INIT_STATE);
        proof {
            assert(first_subset@ =~= seq![INIT_STATE]);
        }
        let mut subsets: Vec<Vec<i64>> = Vec::new();
        subsets.push(first_subset);
        let ghost mut wits: Seq<int> = Seq::empty();
        let ghost mut cls: Seq<Seq<i64>> = seq![seq![INIT_STATE]];
        let mut i: usize = 0;
        while i < subsets.len()
            invariant
                nfa.wf(),
                i <= subsets@.len(),
                1 <= subsets@.len() <= MAX_DFA_STATES,
                table@.len() == subsets@.len() * 256,
                forall|k: int| 0 <= k < table@.len() ==> #[trigger] table@[k] == ERROR_STATE || 0
                    <= table@[k] < subsets@.len(),
                forall|j: int| 0 <= j < new_finals@.len() ==> 1 <= (#[trigger] new_finals@[j]).2
                    < subsets@.len() && final_from(nfa.finals@, new_finals@[j].0, new_finals@[j].1),
                forall|j1: int, j2: int| 0 <= j1 < j2 < new_finals@.len() ==> (
                #[trigger] new_finals@[j1]).2 < (#[trigger] new_finals@[j2]).2,
                wits.len() == new_finals@.len(),
                forall|j: int| 0 <= j < new_finals@.len() ==> first_final_index(
                    nfa.finals@,
                    subsets@[(#[trigger] new_finals@[j]).2 as int]@,
                    wits[j],
                ) && new_finals@[j].0 == nfa.finals@[wits[j]].0 && new_finals@[j].1
                    == nfa.finals@[wits[j]].1,
                forall|q: int, k: int|
                    #![trigger subsets@[q]@.contains(nfa.finals@[k].2)]
                    1 <= q < subsets@.len() && !has_dfa_entry(new_finals@, q) && 0 <= k
                        < nfa.finals@.len() ==> !subsets@[q]@.contains(nfa.finals@[k].2),
                cls.len() == subsets@.len(),
                forall|q: int| 0 <= q < cls.len() ==> #[trigger] cls[q] == subsets@[q]@,
                cls[0] == seq![INIT_STATE],
                forall|q1: int, q2: int| 0 <= q1 < q2 < cls.len() ==> cls[q1] != cls[q2],
                forall|q: int| 0 <= q < cls.len() ==> strictly_sorted(#[trigger] cls[q]),
                forall|q: int|
                    1 <= q < cls.len() ==> (#[trigger] cls[q]).len() > 0 && (exists|
                        q2: int,
                        b: u8,
                    | 0 <= q2 < q && #[trigger] class_is_targets(*nfa, cls[q], cls[q2], b)),
                forall|q: int, b: u8|
                    0 <= q < i as int ==> entry_ok(
                        *nfa,
                        cls,
                        cls[q],
                        b,
                        #[trigger] dfa_entry(table@, q, b),
                    ),
                forall|q: int, b: u8|
                    i as int <= q < subsets@.len() ==> #[trigger] dfa_entry(table@, q, b)
                        == ERROR_STATE,
            decreases 2 * MAX_DFA_STATES - subsets@.len() - i,
        {
            let ghost len0 = subsets@.len();
            let mut letter: usize = 0;
            while letter < 256
                invariant
                    nfa.wf(),
                    i < subsets@.len(),
                    len0 <= subsets@.len(),
                    letter <= 256,
                    1 <= subsets@.len() <= MAX_DFA_STATES,
                    table@.len() == subsets@.len() * 256,
                    forall|k: int| 0 <= k < table@.len() ==> #[trigger] table@[k] == ERROR_STATE
                        || 0 <= table@[k] < subsets@.len(),
                    forall|j: int| 0 <= j < new_finals@.len() ==> 1 <= (
                    #[trigger] new_finals@[j]).2 < subsets@.len() && final_from(
                        nfa.finals@,
                        new_finals@[j].0,
                        new_finals@[j].1,
                    ),
                    forall|j1: int, j2: int| 0 <= j1 < j2 < new_finals@.len() ==> (
                    #[trigger] new_finals@[j1]).2 < (#[trigger] new_finals@[j2]).2,
                    wits.len() == new_finals@.len(),
                    forall|j: int| 0 <= j < new_finals@.len() ==> first_final_index(
                        nfa.finals@,
                        subsets@[(#[trigger] new_finals@[j]).2 as int]@,
                        wits[j],
                    ) && new_finals@[j].0 == nfa.finals@[wits[j]].0 && new_finals@[j].1
                        == nfa.finals@[wits[j]].1,
                    forall|q: int, k: int|
                        #![trigger subsets@[q]@.contains(nfa.finals@[k].2)]
                        1 <= q < subsets@.len() && !has_dfa_entry(new_finals@, q) && 0 <= k
                            < nfa.finals@.len() ==> !subsets@[q]@.contains(nfa.finals@[k].2),
                    cls.len() == subsets@.len(),
                    forall|q: int| 0 <= q < cls.len() ==> #[trigger] cls[q] == subsets@[q]@,
                    cls[0] == seq![INIT_STATE],
                    forall|q1: int, q2: int| 0 <= q1 < q2 < cls.len() ==> cls[q1] != cls[q2],
                    forall|q: int| 0 <= q < cls.len() ==> strictly_sorted(#[trigger] cls[q]),
                    forall|q: int|
                        1 <= q < cls.len() ==> (#[trigger] cls[q]).len() > 0 && (exists|
                            q2: int,
                            b: u8,
                        | 0 <= q2 < q && #[trigger] class_is_targets(*nfa, cls[q], cls[q2], b)),
                    forall|q: int, b: u8|
                        0 <= q < i as int ==> entry_ok(
                            *nfa,
                            cls,
                            cls[q],
                            b,
                            #[trigger] dfa_entry(table@, q, b),
                        ),
                    forall|b: u8|
                        (b as int) < letter as int ==> entry_ok(
                            *nfa,
                            cls,
                            cls[i as int],
                            b,
                            #[trigger] dfa_entry(table@, i as int, b),
                        ),
                    forall|b: u8|
                        letter as int <= b as int ==> #[trigger] dfa_entry(table@, i as int, b)
                            == ERROR_STATE,
                    forall|q: int, b: u8|
                        (i as int) < q < subsets@.len() ==> #[trigger] dfa_entry(table@, q, b)
                            == ERROR_STATE,
                decreases 256 - letter,
            {
                let ghost subs0 = subsets@;
                let ghost fins0 = new_finals@;
                let ghost cls0 = cls;
                let ghost tb0 = table@;
                let gb = letter as u8;
                let ghost cl = cls[i as int];
                proof {
                    assert(cl == subsets@[i as int]@);
                }
                let mut new_state: Vec<i64> = Vec::new();
                let nsub = subsets[i].len();
                let mut ci: usize = 0;
                proof {
                    assert(cl.subrange(0, 0) =~= Seq::<i64>::empty());
                }
                while ci < nsub
                    invariant
                        nfa.wf(),
                        i < subsets@.len(),
                        subsets@ == subs0,
                        cl == subsets@[i as int]@,
                        nsub == subsets@[i as int]@.len(),
                        ci <= nsub,
                        letter < 256,
                        gb == letter as u8,
                        strictly_sorted(new_state@),
                        forall|t: i64| #[trigger] new_state@.contains(t) <==> class_target(
                            *nfa,
                            cl.subrange(0, ci as int),
                            gb,
                            t,
                        ),
                    decreases nsub - ci,
                {
                    let cur = subsets[i][ci];
                    let nt = nfa.transitions.len();
                    let mut k: usize = 0;
                    while k < nt
                        invariant
                            nfa.wf(),
                            i < subsets@.len(),
                            subsets@ == subs0,
                            cl == subsets@[i as int]@,
                            nsub == subsets@[i as int]@.len(),
                            ci < nsub,
                            cur == cl[ci as int],
                            nt == nfa.transitions@.len(),
                            k <= nt,
                            letter < 256,
                            gb == letter as u8,
                            strictly_sorted(new_state@),
                            forall|t: i64| #[trigger] new_state@.contains(t) <==> class_target(
                                *nfa,
                                cl.subrange(0, ci as int),
                                gb,
                                t,
                            ) || cur_target(*nfa, cur, gb, k as int, t),
                        decreases nt - k,
                    {
                        let t = nfa.transitions[k];
                        if t.from == cur && t.byte == gb {
                            insert_sorted(&mut new_state, t.to);
                            proof {
                                assert(nfa.transitions@[k as int].from == cur
                                    && nfa.transitions@[k as int].byte == gb
                                    && nfa.transitions@[k as int].to == t.to);
                                assert forall|y: i64| #[trigger] new_state@.contains(y) implies
                                    class_target(*nfa, cl.subrange(0, ci as int), gb, y)
                                        || cur_target(*nfa, cur, gb, k as int + 1, y) by {
                                    if y != t.to {
                                        if cur_target(*nfa, cur, gb, k as int, y) {
                                            let k2 = choose|k2: int|
                                                0 <= k2 < k as int && (
                                                #[trigger] nfa.transitions@[k2]).from == cur
                                                    && nfa.transitions@[k2].byte == gb
                                                    && nfa.transitions@[k2].to == y;
                                            assert(cur_target(*nfa, cur, gb, k as int + 1, y));
                                        }
                                    } else {
                                        assert(cur_target(*nfa, cur, gb, k as int + 1, y));
                                    }
                                }
                                assert forall|y: i64|
                                    class_target(*nfa, cl.subrange(0, ci as int), gb, y)
                                        || cur_target(*nfa, cur, gb, k as int + 1, y) implies
                                    #[trigger] new_state@.contains(y) by {
                                    if cur_target(*nfa, cur, gb, k as int + 1, y) {
                                        let k2 = choose|k2: int|
                                            0 <= k2 < k as int + 1 && (
                                            #[trigger] nfa.transitions@[k2]).from == cur
                                                && nfa.transitions@[k2].byte == gb
                                                && nfa.transitions@[k2].to == y;
                                        if k2 < k as int {
                                            assert(cur_target(*nfa, cur, gb, k as int, y));
                                        } else {
                                            assert(y == t.to);
                                        }
                                    }
                                }
                            }
                        } else {
                            proof {
                                assert forall|y: i64|
                                    cur_target(*nfa, cur, gb, k as int + 1, y) implies cur_target(
                                    *nfa,
                                    cur,
                                    gb,
                                    k as int,
                                    y,
                                ) by {
                                    let k2 = choose|k2: int|
                                        0 <= k2 < k as int + 1 && (
                                        #[trigger] nfa.transitions@[k2]).from == cur
                                            && nfa.transitions@[k2].byte == gb
                                            && nfa.transitions@[k2].to == y;
                                    assert(k2 < k as int);
                                }
                            }
                        }
                        k = k + 1;
                    }
                    proof {
                        // the processed member folds into the class prefix
                        assert(cl.subrange(0, ci as int + 1) =~= cl.subrange(0, ci as int).push(
                            cl[ci as int],
                        ));
                        assert forall|y: i64| #[trigger] new_state@.contains(y) implies
                            class_target(*nfa, cl.subrange(0, ci as int + 1), gb, y) by {
                            if class_target(*nfa, cl.subrange(0, ci as int), gb, y) {
                                let k2 = choose|k2: int|
                                    0 <= k2 < nfa.transitions@.len() && (
                                    #[trigger] nfa.transitions@[k2]).byte == gb
                                        && nfa.transitions@[k2].to == y && cl.subrange(
                                        0,
                                        ci as int,
                                    ).contains(nfa.transitions@[k2].from);
                                assert(cl.subrange(0, ci as int + 1).contains(
                                    nfa.transitions@[k2].from,
                                ));
                            } else {
                                let k2 = choose|k2: int|
                                    0 <= k2 < nt as int && (#[trigger] nfa.transitions@[k2]).from
                                        == cur && nfa.transitions@[k2].byte == gb
                                        && nfa.transitions@[k2].to == y;
                                assert(cl.subrange(0, ci as int + 1)[ci as int] == cur);
                                assert(cl.subrange(0, ci as int + 1).contains(cur));
                            }
                        }
                        assert forall|y: i64|
                            class_target(*nfa, cl.subrange(0, ci as int + 1), gb, y) implies
                            #[trigger] new_state@.contains(y) by {
                            let k2 = choose|k2: int|
                                0 <= k2 < nfa.transitions@.len() && (
                                #[trigger] nfa.transitions@[k2]).byte == gb
                                    && nfa.transitions@[k2].to == y && cl.subrange(
                                    0,
                                    ci as int + 1,
                                ).contains(nfa.transitions@[k2].from);
                            let li = choose|li: int|
                                0 <= li < ci as int + 1 && #[trigger] cl.subrange(
                                    0,
                                    ci as int + 1,
                                )[li] == nfa.transitions@[k2].from;
                            if li < ci as int {
                                assert(cl.subrange(0, ci as int).contains(
                                    nfa.transitions@[k2].from,
                                ));
                                assert(class_target(*nfa, cl.subrange(0, ci as int), gb, y));
                            } else {
                                assert(nfa.transitions@[k2].from == cur);
                                assert(cur_target(*nfa, cur, gb, nt as int, y));
                            }
                        }
                    }
                    ci = ci + 1;
                }
                proof {
                    assert(cl.subrange(0, nsub as int) =~= cl);
                }
                if new_state.len() > 0 {
                    match find_subset(&subsets, &new_state) {
                        Some(index) => {
                            table.set(i * 256 + letter, index as i64);
                            proof {
                                assert(cls[index as int] == subsets@[index as int]@);
                                assert(subsets@[index as int]@ == new_state@);
                                assert(class_is_targets(*nfa, cls[index as int], cl, gb));
                                assert(entry_ok(
                                    *nfa,
                                    cls,
                                    cl,
                                    gb,
                                    dfa_entry(table@, i as int, gb),
                                ));
                            }
                        },
                        None => {
                            if subsets.len() == MAX_DFA_STATES {
                                proof {
                                    assert(blowup_witness(*nfa, cls));
                                }
                                return Err(AutomataError::TooManyStates);
                            }
                            let nf = nfa.finals.len();
                            let mut accept: Option<(T, TokenUses)> = None;
                            let mut fj: usize = 0;
                            let ghost ncls = new_state@;
                            let ghost mut wit_k: int = 0;
                            while fj < nf && accept.is_none()
                                invariant
                                    nf == nfa.finals@.len(),
                                    fj <= nf,
                                    ncls == new_state@,
                                    accept is None ==> (forall|k: int|
                                        0 <= k < fj as int ==> !ncls.contains(
                                            (#[trigger] nfa.finals@[k]).2,
                                        )),
                                    accept matches Some(p) ==> final_from(nfa.finals@, p.0, p.1)
                                        && first_final_index(nfa.finals@, ncls, wit_k) && p.0
                                        == nfa.finals@[wit_k].0 && p.1 == nfa.finals@[wit_k].1,
                                decreases nf - fj,
                            {
                                let fin = nfa.finals[fj];
                                if contains_state(&new_state, fin.2) {
                                    proof {
                                        assert(nfa.finals@[fj as int].0 == fin.0
                                            && nfa.finals@[fj as int].1 == fin.1);
                                        assert(first_final_index(nfa.finals@, ncls, fj as int));
                                        wit_k = fj as int;
                                    }
                                    accept = Some((fin.0, fin.1));
                                }
                                fj = fj + 1;
                            }
                            let new_id = subsets.len();
                            subsets.push(new_state);
                            proof {
                                cls = cls.push(ncls);
                            }
                            let mut c2: usize = 0;
                            while c2 < 256
                                invariant
                                    c2 <= 256,
                                    new_id + 1 == subsets@.len(),
                                    subsets@.len() <= MAX_DFA_STATES,
                                    table@.len() == new_id * 256 + c2 as int,
                                    tb0.len() == new_id * 256,
                                    forall|k: int| 0 <= k < new_id * 256 ==> #[trigger] table@[k]
                                        == tb0[k],
                                    forall|k: int| 0 <= k < new_id * 256 ==> #[trigger] tb0[k]
                                        == ERROR_STATE || 0 <= tb0[k] < subsets@.len(),
                                    forall|k: int| new_id * 256 <= k < table@.len()
                                        ==> #[trigger] table@[k] == ERROR_STATE,
                                decreases 256 - c2,
                            {
                                table.push(ERROR_STATE);
                                c2 = c2 + 1;
                            }
                            table.set(i * 256 + letter, new_id as i64);
                            proof {
                                assert(subsets@[new_id as int]@ == ncls);
                                assert(cls[new_id as int] == ncls);
                                assert(class_is_targets(*nfa, cls[new_id as int], cl, gb));
                                assert forall|q1: int, q2: int|
                                    0 <= q1 < q2 < cls.len() implies cls[q1] != cls[q2] by {
                                    if q2 < new_id as int {
                                        assert(cls0[q1] != cls0[q2]);
                                    } else {
                                        assert(subsets@[q1]@ != ncls);
                                    }
                                }
                                assert forall|q: int| 0 <= q < cls.len() implies strictly_sorted(
                                    #[trigger] cls[q],
                                ) by {
                                    if q < new_id as int {
                                        assert(cls[q] == cls0[q]);
                                    } else {
                                        assert(cls[q] == ncls);
                                    }
                                }
                                assert forall|q: int| 1 <= q < cls.len() implies (
                                #[trigger] cls[q]).len() > 0 && (exists|q2: int, b: u8|
                                    0 <= q2 < q && #[trigger] class_is_targets(
                                        *nfa,
                                        cls[q],
                                        cls[q2],
                                        b,
                                    )) by {
                                    if q < new_id as int {
                                        assert(cls[q] == cls0[q]);
                                        let (q2, b) = choose|q2: int, b: u8|
                                            0 <= q2 < q && #[trigger] class_is_targets(
                                                *nfa,
                                                cls0[q],
                                                cls0[q2],
                                                b,
                                            );
                                        assert(cls[q2] == cls0[q2]);
                                        assert(class_is_targets(*nfa, cls[q], cls[q2], b));
                                    } else {
                                        assert(cls[q] == ncls);
                                        assert(cl == cls[i as int] && (i as int) < q);
                                        assert(class_is_targets(*nfa, cls[q], cls[i as int], gb));
                                    }
                                }
                                assert(entry_ok(
                                    *nfa,
                                    cls,
                                    cl,
                                    gb,
                                    dfa_entry(table@, i as int, gb),
                                ));
                            }
                            if let Some(p) = accept {
                                new_finals.push((p.0, p.1, new_id as i64));
                                proof {
                                    wits = wits.push(wit_k);
                                }
                            } else {
                                proof {
                                    assert(forall|k: int|
                                        0 <= k < nfa.finals@.len() ==> !ncls.contains(
                                            (#[trigger] nfa.finals@[k]).2,
                                        ));
                                }
                            }
                        },
                    }
                } else {
                    proof {
                        // nothing gathered: the class has no move on this byte
                        assert(!class_has_move(*nfa, cl, gb)) by {
                            if class_has_move(*nfa, cl, gb) {
                                let k2 = choose|k2: int|
                                    0 <= k2 < nfa.transitions@.len() && (
                                    #[trigger] nfa.transitions@[k2]).byte == gb && cl.contains(
                                        nfa.transitions@[k2].from,
                                    );
                                assert(class_target(*nfa, cl, gb, nfa.transitions@[k2].to));
                                assert(new_state@.contains(nfa.transitions@[k2].to));
                                assert(false);
                            }
                        };
                        assert(dfa_entry(table@, i as int, gb) == ERROR_STATE);
                        assert(entry_ok(*nfa, cls, cl, gb, dfa_entry(table@, i as int, gb)));
                    }
                }
                proof {
                    // the recorded accepting entries still point into their
                    // classes, and the new entry joins the processed region
                    assert forall|q: int, k: int|
                        1 <= q < subsets@.len() && !has_dfa_entry(new_finals@, q) && 0 <= k
                            < nfa.finals@.len() implies !(#[trigger] subsets@[q]@.contains(
                        nfa.finals@[k].2,
                    )) by {
                        if q < subs0.len() {
                            assert(subsets@[q] == subs0[q]);
                            if has_dfa_entry(fins0, q) {
                                let j = choose|j: int|
                                    0 <= j < fins0.len() && (#[trigger] fins0[j]).2 == q;
                                assert(new_finals@[j].2 == q);
                                assert(has_dfa_entry(new_finals@, q));
                            }
                        } else {
                            assert(q == subsets@.len() - 1);
                            if new_finals@.len() > fins0.len() {
                                assert(new_finals@[new_finals@.len() - 1].2 == q);
                                assert(has_dfa_entry(new_finals@, q));
                            }
                        }
                    }
                    assert forall|q: int, b: u8| 0 <= q < i as int implies entry_ok(
                        *nfa,
                        cls,
                        cls[q],
                        b,
                        #[trigger] dfa_entry(table@, q, b),
                    ) by {
                        assert(cls[q] == cls0[q]);
                        assert(dfa_entry(table@, q, b) == dfa_entry(tb0, q, b));
                        assert(entry_ok(*nfa, cls0, cls0[q], b, dfa_entry(tb0, q, b)));
                        let e = dfa_entry(tb0, q, b);
                        if e != ERROR_STATE {
                            assert(cls[e as int] == cls0[e as int]);
                        }
                    }
                    assert forall|b: u8| (b as int) < letter as int + 1 implies entry_ok(
                        *nfa,
                        cls,
                        cls[i as int],
                        b,
                        #[trigger] dfa_entry(table@, i as int, b),
                    ) by {
                        if (b as int) < letter as int {
                            assert(dfa_entry(table@, i as int, b) == dfa_entry(tb0, i as int, b));
                            assert(entry_ok(*nfa, cls0, cls0[i as int], b, dfa_entry(
                                tb0,
                                i as int,
                                b,
                            )));
                            let e = dfa_entry(tb0, i as int, b);
                            if e != ERROR_STATE {
                                assert(cls[e as int] == cls0[e as int]);
                            }
                        } else {
                            assert(b == gb);
                        }
                    }
                    assert forall|b: u8| letter as int + 1 <= b as int implies #[trigger] dfa_entry(
                        table@,
                        i as int,
                        b,
                    ) == ERROR_STATE by {
                        assert(dfa_entry(table@, i as int, b) == dfa_entry(tb0, i as int, b));
                    }
                    assert forall|q: int, b: u8|
                        (i as int) < q < subsets@.len() implies #[trigger] dfa_entry(
                        table@,
                        q,
                        b,
                    ) == ERROR_STATE by {
                        if q < subs0.len() {
                            assert(dfa_entry(table@, q, b) == dfa_entry(tb0, q, b));
                        } else {
                            assert(q == subsets@.len() - 1);
                            assert(q * 256 + b >= q * 256);
                            assert((i as int) * 256 + (letter as int) < q * 256);
                        }
                    }
                }
                letter = letter + 1;
            }
            i = i + 1;
        }
        let total = subsets.len();
        let ghost classes = cls;
        let boxed: Ghost<Seq<Seq<i64>>> = Ghost(classes);
        proof {
            assert(tie_break_ok(nfa.finals@, new_finals@, classes, total as int)) by {
                assert forall|j: int| 0 <= j < new_finals@.len() implies entry_tied(
                    nfa.finals@,
                    classes[(#[trigger] new_finals@[j]).2 as int],
                    new_finals@[j],
                ) by {
                    let e = new_finals@[j];
                    assert(classes[e.2 as int] == subsets@[e.2 as int]@);
                    assert(first_final_index(nfa.finals@, classes[e.2 as int], wits[j]) && e.0
                        == nfa.finals@[wits[j]].0 && e.1 == nfa.finals@[wits[j]].1);
                }
                assert forall|q: int, k: int|
                    #![trigger classes[q].contains(nfa.finals@[k].2)]
                    1 <= q < total && !has_dfa_entry(new_finals@, q) && 0 <= k
                        < nfa.finals@.len() implies !classes[q].contains(nfa.finals@[k].2) by {
                    assert(classes[q] == subsets@[q]@);
                }
            };
            assert(subset_construction_ok(*nfa, table@, classes, total as int));
        }
        Ok((table, new_finals, total, boxed))
    }

    /// Subset-construction language preservation: along any bytes, the run
    /// of a compiled table tracks reachability in the source automaton
    /// exactly - the class of the state reached holds precisely the states
    /// some member of the starting class reaches on those bytes, and the
    /// run dies exactly when no member reaches anything.
    #[verifier::rlimit(60)]
    pub proof fn lemma_run_tracks_reachability(self, s: Seq<u8>, i: int, q: i64)
        requires
            self.wf(),
            subset_construction_ok(self.source@, self.transitions@, self.classes@, self.states as int),
            0 <= q < self.states,
            0 <= i <= s.len(),
        ensures
            self.run_from(s, i, q) != ERROR_STATE ==> 0 <= self.run_from(s, i, q) < self.states
                && (forall|t: i64|
                #[trigger] self.classes@[self.run_from(s, i, q) as int].contains(t) <==> (exists|
                    q0: i64,
                |
                    #[trigger] self.classes@[q as int].contains(q0) && self.source@.reaches(
                        s,
                        i,
                        q0,
                        t,
                    ))),
            self.run_from(s, i, q) == ERROR_STATE ==> (forall|t: i64, q0: i64|
                self.classes@[q as int].contains(q0) ==> !(#[trigger] self.source@.reaches(
                    s,
                    i,
                    q0,
                    t,
                ))),
        decreases s.len() - i,
    {
        let nfa = self.source@;
        if i >= s.len() {
            assert forall|t: i64| #[trigger] self.classes@[q as int].contains(t) implies (exists|
                q0: i64,
            |
                #[trigger] self.classes@[q as int].contains(q0) && nfa.reaches(s, i, q0, t)) by {
                assert(nfa.reaches(s, i, t, t));
            }
        } else {
            let b = s[i];
            let e1 = self.step(q, b);
            assert(e1 == dfa_entry(self.transitions@, q as int, b));
            assert(entry_ok(nfa, self.classes@, self.classes@[q as int], b, e1));
            if e1 == ERROR_STATE {
                assert(self.run_from(s, i, q) == self.run_from(s, i + 1, e1));
                assert(self.run_from(s, i + 1, ERROR_STATE) == ERROR_STATE);
                assert forall|t: i64, q0: i64|
                    self.classes@[q as int].contains(q0) implies !(#[trigger] nfa.reaches(
                    s,
                    i,
                    q0,
                    t,
                )) by {
                    if nfa.reaches(s, i, q0, t) {
                        let k = choose|k: int|
                            0 <= k < nfa.transitions@.len() && (#[trigger] nfa.transitions@[k]).from
                                == q0 && nfa.transitions@[k].byte == s[i] && nfa.reaches(
                                s,
                                i + 1,
                                nfa.transitions@[k].to,
                                t,
                            );
                        assert(class_has_move(nfa, self.classes@[q as int], b));
                        assert(false);
                    }
                }
            } else {
                assert(class_is_targets(nfa, self.classes@[e1 as int], self.classes@[q as int], b));
                self.lemma_run_tracks_reachability(s, i + 1, e1);
                let e = self.run_from(s, i, q);
                assert(e == self.run_from(s, i + 1, e1));
                if e != ERROR_STATE {
                    assert forall|t: i64| #[trigger] self.classes@[e as int].contains(t) implies (
                    exists|q0: i64|
                        #[trigger] self.classes@[q as int].contains(q0) && nfa.reaches(
                            s,
                            i,
                            q0,
                            t,
                        )) by {
                        let m = choose|m: i64|
                            #[trigger] self.classes@[e1 as int].contains(m) && nfa.reaches(
                                s,
                                i + 1,
                                m,
                                t,
                            );
                        assert(class_target(nfa, self.classes@[q as int], b, m));
                        let k = choose|k: int|
                            0 <= k < nfa.transitions@.len() && (#[trigger] nfa.transitions@[k]).byte
                                == b && nfa.transitions@[k].to == m && self.classes@[q
                                as int].contains(nfa.transitions@[k].from);
                        assert(nfa.reaches(s, i, nfa.transitions@[k].from, t));
                    }
                    assert forall|t: i64, q0: i64|
                        self.classes@[q as int].contains(q0) && #[trigger] nfa.reaches(
                            s,
                            i,
                            q0,
                            t,
                        ) implies self.classes@[e as int].contains(t) by {
                        let k = choose|k: int|
                            0 <= k < nfa.transitions@.len() && (#[trigger] nfa.transitions@[k]).from
                                == q0 && nfa.transitions@[k].byte == s[i] && nfa.reaches(
                                s,
                                i + 1,
                                nfa.transitions@[k].to,
                                t,
                            );
                        assert(class_target(nfa, self.classes@[q as int], b, nfa.transitions@[k].to));
                        assert(self.classes@[e1 as int].contains(nfa.transitions@[k].to));
                    }
                } else {
                    assert forall|t: i64, q0: i64|
                        self.classes@[q as int].contains(q0) implies !(#[trigger] nfa.reaches(
                        s,
                        i,
                        q0,
                        t,
                    )) by {
                        if nfa.reaches(s, i, q0, t) {
                            let k = choose|k: int|
                                0 <= k < nfa.transitions@.len() && (
                                #[trigger] nfa.transitions@[k]).from == q0
                                    && nfa.transitions@[k].byte == s[i] && nfa.reaches(
                                    s,
                                    i + 1,
                                    nfa.transitions@[k].to,
                                    t,
                                );
                            assert(class_target(nfa, self.classes@[q as int], b, nfa.transitions@[k].to));
                            assert(self.classes@[e1 as int].contains(nfa.transitions@[k].to));
                        }
                    }
                }
            }
        }
    }

    /// What a compiled table's whole-string test means in terms of the
    /// source automaton: a returned name is of the first declared pattern
    /// whose accepting state the automaton reaches on the string; no name
    /// comes back only when no pattern's accepting state is reachable - or
    /// when the run ends back on the initial state's class, which the
    /// builder never marks accepting.
    pub proof fn lemma_compiled_first_match(self, patterns: Seq<(T, TokenUses, Regex)>, s: Seq<u8>)
        requires
            compiled_from(self, patterns),
        ensures
            self.spec_test(s) matches Some(t) ==> (exists|k: int|
                0 <= k < self.source@.finals@.len() && t == (#[trigger] self.source@.finals@[k]).0
                    && self.source@.reaches(s, 0, INIT_STATE, self.source@.finals@[k].2) && (
                forall|k2: int|
                    0 <= k2 < k ==> !self.source@.reaches(
                        s,
                        0,
                        INIT_STATE,
                        (#[trigger] self.source@.finals@[k2]).2,
                    ))),
            self.spec_test(s) is None ==> (forall|k: int|
                0 <= k < self.source@.finals@.len() ==> !(#[trigger] self.source@.reaches(
                    s,
                    0,
                    INIT_STATE,
                    self.source@.finals@[k].2,
                ))) || self.run_from(s, 0, INIT_STATE) == INIT_STATE,
    {
        let nfa = self.source@;
        let e = self.run_from(s, 0, INIT_STATE);
        self.lemma_run_tracks_reachability(s, 0, INIT_STATE);
        assert(self.classes@[0] == seq![INIT_STATE]);
        assert(self.classes@[0].contains(INIT_STATE)) by {
            assert(self.classes@[0][0] == INIT_STATE);
        }
        assert forall|q0: i64| #[trigger] self.classes@[0].contains(q0) implies q0
            == INIT_STATE by {
            let l = choose|l: int| 0 <= l < self.classes@[0].len() && self.classes@[0][l] == q0;
        }
        if self.spec_test(s) is Some {
            let t = self.spec_test(s)->0;
            assert(0 <= e < self.states && self.finals@[e as int].0 == Some(t));
            let k = choose|k: int|
                first_final_index(nfa.finals@, self.classes@[e as int], k) && t == (
                #[trigger] nfa.finals@[k]).0 && self.finals@[e as int].1 == nfa.finals@[k].1;
            assert(self.classes@[e as int].contains(nfa.finals@[k].2));
            assert(nfa.reaches(s, 0, INIT_STATE, nfa.finals@[k].2));
            assert forall|k2: int| 0 <= k2 < k implies !nfa.reaches(
                s,
                0,
                INIT_STATE,
                (#[trigger] nfa.finals@[k2]).2,
            ) by {
                if nfa.reaches(s, 0, INIT_STATE, nfa.finals@[k2].2) {
                    assert(self.classes@[e as int].contains(nfa.finals@[k2].2));
                    assert(false);
                }
            }
        } else {
            if e != ERROR_STATE && e != INIT_STATE {
                assert(1 <= e < self.states && self.finals@[e as int].0 is None);
                assert forall|k: int| 0 <= k < nfa.finals@.len() implies !(
                #[trigger] nfa.reaches(s, 0, INIT_STATE, nfa.finals@[k].2)) by {
                    if nfa.reaches(s, 0, INIT_STATE, nfa.finals@[k].2) {
                        assert(self.classes@[e as int].contains(nfa.finals@[k].2));
                        assert(false);
                    }
                }
            }
        }
    }

    /// Totality: a run from any state of the automaton ends in the error
    /// sink or a state of the automaton, whatever the bytes; and, being a
    /// function of the table and the bytes alone, any two runs over the same
    /// bytes agree.
    pub proof fn lemma_run_total(self, s: Seq<u8>, i: int, q: i64)
        requires
            self.wf(),
            q == ERROR_STATE || 0 <= q < self.states,
        ensures
            self.run_from(s, i, q) == ERROR_STATE || 0 <= self.run_from(s, i, q) < self.states,
        decreases s.len() - i,
    {
        if i < s.len() && q != ERROR_STATE {
            self.lemma_run_total(s, i + 1, self.step(q, s[i]));
        }
    }

    /// Runs the automaton over the whole string. Deterministic and total:
    /// the result is a function of the table and the bytes alone.
    pub fn test_string(&self, string: &[u8]) -> (r: Option<T>)
        requires
            self.wf(),
        ensures
            r == self.spec_test(string@),
    {
        let mut state: i64 = INIT_STATE;
        let n = string.len();
        let mut i: usize = 0;
        while i < n
            invariant
                n == string@.len(),
                i <= n,
                self.wf(),
                0 <= state < self.states,
                self.run_from(string@, 0, INIT_STATE) == self.run_from(string@, i as int, state),
            decreases n - i,
        {
            let byte = string[i];
            state = self.transitions[(state as usize) * 256 + (byte as usize)];
            if state == ERROR_STATE {
                proof {
                    assert(self.run_from(string@, i as int + 1, ERROR_STATE) == ERROR_STATE as i64);
                }
                return None;
            }
            i = i + 1;
        }
        let token = self.finals[state as usize].0;
        token
    }
}

} // verus!
