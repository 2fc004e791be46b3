use vstd::prelude::*;
use crate::lexica::analysis::LexError;
use crate::lexica::analysis::LexicalAnalysis;
use crate::lexica::analysis::ScanOutcome;
use crate::lexica::analysis::lemma_pos_bounds;
use crate::lexica::analysis::spec_col;
use crate::lexica::analysis::spec_next_token;
use crate::lexica::analysis::spec_row;
use crate::lexica::automata::TokensDFA;
use crate::lexica::tokens::Token;
use crate::syntax::first::First;
use crate::syntax::first::FirstError;
use crate::syntax::first::FirstTable;
use crate::syntax::first::calc_inv;
use crate::syntax::first::copy_firsts;
use crate::syntax::first::find_key;
use crate::syntax::first::first_overflow_witness;
use crate::syntax::first::table_has_key;
use crate::syntax::first::rules_wf;
use crate::syntax::first::table_closed;
use crate::syntax::rules::Derivation;
use crate::syntax::rules::Rule;
use crate::syntax::utils::IsTerminal;

verus! {

/// Everything that can end a parse: expanding a terminal, the lookahead
/// fitting no alternative, a terminal mismatch, tokens left after the start
/// symbol closed, the expansion depth bound, a scan error, or a refusal from
/// the reduction callback. Rows and columns are reported 1-based.
#[derive(Clone, PartialEq, Eq, Debug)]
pub enum SyntaxError<T> {
    DeriveTerminal,
    NoAlternative { row: usize, col: usize, nonterminal: T, found: Option<T>, expected: Vec<First<T>> },
    ExpectMismatch { row: usize, col: usize, expected: T, found: Option<T> },
    LeftoverToken,
    DepthLimit,
    Lexical(LexError),
    Callback(String),
}

/// Alternative `di` of rule `ri` exists, belongs to `current`, and its head
/// symbol can begin with the terminal `tok`.
pub open spec fn alt_head_fits<T: IsTerminal>(
    rules: Seq<Rule<T>>,
    table: Seq<(T, Vec<First<T>>)>,
    ri: int,
    di: int,
    current: T,
    tok: T,
) -> bool {
    &&& 0 <= ri < rules.len()
    &&& rules[ri].from == current
    &&& 0 <= di < rules[ri].to@.len()
    &&& rules[ri].to@[di] matches Derivation::Normal(vars) && vars@.len() > 0
        && First::<T>::spec_first_from(table, vars@[0], tok)
}

/// Some alternative of `current` can begin with `tok`.
pub open spec fn has_fitting_alt<T: IsTerminal>(
    rules: Seq<Rule<T>>,
    table: Seq<(T, Vec<First<T>>)>,
    current: T,
    tok: T,
) -> bool {
    exists|ri: int, di: int| #[trigger] alt_head_fits(rules, table, ri, di, current, tok)
}

/// Alternative `di` of rule `ri` exists, belongs to `current`, and is the
/// empty word.
pub open spec fn empty_alt_at<T: IsTerminal>(
    rules: Seq<Rule<T>>,
    ri: int,
    di: int,
    current: T,
) -> bool {
    &&& 0 <= ri < rules.len()
    &&& rules[ri].from == current
    &&& 0 <= di < rules[ri].to@.len()
    &&& rules[ri].to@[di] is Empty
}

/// `current` has an empty alternative.
pub open spec fn has_empty_alt<T: IsTerminal>(rules: Seq<Rule<T>>, current: T) -> bool {
    exists|ri: int, di: int| #[trigger] empty_alt_at(rules, ri, di, current)
}

/// The alternative derives the empty word outright.
pub open spec fn alt_is_empty<T: IsTerminal>(rules: Seq<Rule<T>>, ri: int, di: int) -> bool {
    match rules[ri].to@[di] {
        Derivation::Empty => true,
        Derivation::Normal(vars) => vars@.len() == 0,
    }
}

/// `ws` is the recorded FIRST set of `current`: the members of its one
/// table entry, or empty when no entry exists.
pub open spec fn expected_is_first_set<T: IsTerminal>(
    ws: Seq<First<T>>,
    table: Seq<(T, Vec<First<T>>)>,
    current: T,
) -> bool {
    ||| exists|ei: int|
        0 <= ei < table.len() && (#[trigger] table[ei]).0 == current && ws == table[ei].1@
    ||| !table_has_key(table, current) && ws.len() == 0
}

/// The alternative opens with a terminal that the lookahead does not match.
pub open spec fn first_symbol_blocks<T: IsTerminal>(
    rules: Seq<Rule<T>>,
    ri: int,
    di: int,
    lookahead: Option<Token<T>>,
) -> bool {
    &&& rules[ri].to@[di] matches Derivation::Normal(vars)
    &&& vars@.len() > 0
    &&& vars@[0].spec_is_terminal()
    &&& match lookahead {
        Some(tk) => tk.t_type != vars@[0],
        None => true,
    }
}

/// The lookahead as the contracts see it: the token's symbol and captured
/// bytes.
pub open spec fn token_view<T>(o: Option<Token<T>>) -> Option<(T, Option<Seq<u8>>)> {
    match o {
        Some(tk) => Some(
            (
                tk.t_type,
                match tk.t_name {
                    Some(v) => Some(v@),
                    None => None,
                },
            ),
        ),
        None => None,
    }
}

/// The 1-based report position for the scanner standing at `cursor`: the
/// byte under the cursor counts as consumed.
pub open spec fn err_row(s: Seq<u8>, cursor: int) -> int {
    spec_row(
        s,
        if cursor < s.len() {
            cursor + 1
        } else {
            s.len() as int
        },
    ) + 1
}

pub open spec fn err_col(s: Seq<u8>, cursor: int) -> int {
    spec_col(
        s,
        if cursor < s.len() {
            cursor + 1
        } else {
            s.len() as int
        },
    )
}

/// An error of the drive, without the report's FIRST-set payload.
pub enum SpecErr<T> {
    DeriveTerminal,
    NoAlternative { row: int, col: int, nonterminal: T, found: Option<T> },
    ExpectMismatch { row: int, col: int, expected: T, found: Option<T> },
    LeftoverToken,
    DepthLimit,
    Lexical(LexError),
}

/// Whether the reported error is the described one, field for field.
pub open spec fn err_matches<T: IsTerminal>(e: SyntaxError<T>, d: SpecErr<T>) -> bool {
    match d {
        SpecErr::DeriveTerminal => e == SyntaxError::<T>::DeriveTerminal,
        SpecErr::NoAlternative { row, col, nonterminal, found } => e matches SyntaxError::NoAlternative {
            row: r2,
            col: c2,
            nonterminal: n2,
            found: f2,
            ..
        } && r2 == row && c2 == col && n2 == nonterminal && f2 == found,
        SpecErr::ExpectMismatch { row, col, expected, found } => e matches SyntaxError::ExpectMismatch {
            row: r2,
            col: c2,
            expected: x2,
            found: f2,
        } && r2 == row && c2 == col && x2 == expected && f2 == found,
        SpecErr::LeftoverToken => e == SyntaxError::<T>::LeftoverToken,
        SpecErr::DepthLimit => e == SyntaxError::<T>::DepthLimit,
        SpecErr::Lexical(le) => e == SyntaxError::<T>::Lexical(le),
    }
}

/// One step of the drive: success, with the scanner position and lookahead
/// it leaves behind, or the error it reports.
pub enum ParseStep<T> {
    Done { cursor: int, lookahead: Option<(T, Option<Seq<u8>>)> },
    Fail(SpecErr<T>),
}

/// The first alternative, scanning rules then alternatives in declaration
/// order from (`ri`, `di`), that belongs to `current` and whose head fits
/// `tok`.
pub open spec fn first_fit<T: IsTerminal>(
    rules: Seq<Rule<T>>,
    table: Seq<(T, Vec<First<T>>)>,
    current: T,
    tok: T,
    ri: int,
    di: int,
) -> Option<(int, int)>
    decreases rules.len() - ri, rules[ri].to@.len() - di,
{
    if ri < 0 || ri >= rules.len() {
        None
    } else if rules[ri].from != current || di < 0 || di >= rules[ri].to@.len() {
        first_fit(rules, table, current, tok, ri + 1, 0)
    } else if alt_head_fits(rules, table, ri, di, current, tok) {
        Some((ri, di))
    } else {
        first_fit(rules, table, current, tok, ri, di + 1)
    }
}

/// The §4.5 drive for one nonterminal: expand the first alternative whose
/// head fits the lookahead; with no fit, derive the empty word if an empty
/// alternative exists and report the lookahead against the nonterminal
/// otherwise. Deterministic in the grammar, the FIRST table, the automata
/// and the input; the reduction callback is outside it.
pub open spec fn spec_analysis<T: IsTerminal>(
    rules: Seq<Rule<T>>,
    table: Seq<(T, Vec<First<T>>)>,
    d: TokensDFA<T>,
    cd: Option<TokensDFA<u32>>,
    s: Seq<u8>,
    half: int,
    current: T,
    cursor: int,
    look: Option<(T, Option<Seq<u8>>)>,
    fuel: int,
) -> ParseStep<T>
    decreases fuel, 1int, 0int,
{
    if current.spec_is_terminal() {
        ParseStep::Fail(SpecErr::DeriveTerminal)
    } else if fuel <= 0 {
        ParseStep::Fail(SpecErr::DepthLimit)
    } else {
        match look {
            None => if has_empty_alt(rules, current) {
                ParseStep::Done { cursor, lookahead: None }
            } else {
                ParseStep::Fail(
                    (SpecErr::NoAlternative {
                        row: err_row(s, cursor),
                        col: err_col(s, cursor),
                        nonterminal: current,
                        found: None,
                    }),
                )
            },
            Some(tk) => match first_fit(rules, table, current, tk.0, 0, 0) {
                Some(pick) => spec_eval(
                    rules,
                    table,
                    d,
                    cd,
                    s,
                    half,
                    pick.0,
                    pick.1,
                    0,
                    cursor,
                    look,
                    fuel,
                ),
                None => if has_empty_alt(rules, current) {
                    ParseStep::Done { cursor, lookahead: look }
                } else {
                    ParseStep::Fail(
                        (SpecErr::NoAlternative {
                            row: err_row(s, cursor),
                            col: err_col(s, cursor),
                            nonterminal: current,
                            found: Some(tk.0),
                        }),
                    )
                },
            },
        }
    }
}

/// Expanding one alternative from symbol `vi` on: terminals must equal the
/// lookahead and pull the scanner's next outcome; nonterminals recurse with
/// one fuel less; past the last symbol the expansion is complete.
pub open spec fn spec_eval<T: IsTerminal>(
    rules: Seq<Rule<T>>,
    table: Seq<(T, Vec<First<T>>)>,
    d: TokensDFA<T>,
    cd: Option<TokensDFA<u32>>,
    s: Seq<u8>,
    half: int,
    ri: int,
    di: int,
    vi: int,
    cursor: int,
    look: Option<(T, Option<Seq<u8>>)>,
    fuel: int,
) -> ParseStep<T>
    decreases fuel, 0int, rules[ri].to@[di]->Normal_0@.len() - vi,
{
    if fuel <= 0 || !(rules[ri].to@[di] is Normal) || vi < 0 || vi
        >= rules[ri].to@[di]->Normal_0@.len() {
        ParseStep::Done { cursor, lookahead: look }
    } else {
        let sym = rules[ri].to@[di]->Normal_0@[vi];
        if sym.spec_is_terminal() {
            match look {
                Some(tk) => if tk.0 == sym {
                    match spec_next_token(d, cd, s, half, cursor) {
                        ScanOutcome::End => spec_eval(
                            rules,
                            table,
                            d,
                            cd,
                            s,
                            half,
                            ri,
                            di,
                            vi + 1,
                            s.len() as int,
                            None,
                            fuel,
                        ),
                        ScanOutcome::Emit(t2, lex, end) => spec_eval(
                            rules,
                            table,
                            d,
                            cd,
                            s,
                            half,
                            ri,
                            di,
                            vi + 1,
                            end,
                            Some((t2, lex)),
                            fuel,
                        ),
                        ScanOutcome::Fail(le) => ParseStep::Fail(SpecErr::Lexical(le)),
                    }
                } else {
                    ParseStep::Fail(
                        (SpecErr::ExpectMismatch {
                            row: err_row(s, cursor),
                            col: err_col(s, cursor),
                            expected: sym,
                            found: Some(tk.0),
                        }),
                    )
                },
                None => ParseStep::Fail(
                    (SpecErr::ExpectMismatch {
                        row: err_row(s, cursor),
                        col: err_col(s, cursor),
                        expected: sym,
                        found: None,
                    }),
                ),
            }
        } else {
            match spec_analysis(rules, table, d, cd, s, half, sym, cursor, look, fuel - 1) {
                ParseStep::Done { cursor: c2, lookahead: l2 } => spec_eval(
                    rules,
                    table,
                    d,
                    cd,
                    s,
                    half,
                    ri,
                    di,
                    vi + 1,
                    c2,
                    l2,
                    fuel,
                ),
                ParseStep::Fail(d2) => ParseStep::Fail(d2),
            }
        }
    }
}

/// The whole parse: pull the first token, drive the start symbol, and
/// demand the end of the input.
pub open spec fn spec_parse_all<T: IsTerminal>(
    rules: Seq<Rule<T>>,
    table: Seq<(T, Vec<First<T>>)>,
    d: TokensDFA<T>,
    cd: Option<TokensDFA<u32>>,
    s: Seq<u8>,
    half: int,
    initial: T,
    cursor: int,
    fuel: int,
) -> ParseStep<T> {
    if initial.spec_is_terminal() {
        ParseStep::Fail(SpecErr::DeriveTerminal)
    } else {
        let first = match spec_next_token(d, cd, s, half, cursor) {
            ScanOutcome::End => ParseStep::Done { cursor: s.len() as int, lookahead: None },
            ScanOutcome::Emit(t2, lex, end) => ParseStep::Done {
                cursor: end,
                lookahead: Some((t2, lex)),
            },
            ScanOutcome::Fail(le) => ParseStep::Fail(SpecErr::Lexical(le)),
        };
        match first {
            ParseStep::Fail(d2) => ParseStep::Fail(d2),
            ParseStep::Done { cursor: c1, lookahead: l1 } => match spec_analysis(
                rules,
                table,
                d,
                cd,
                s,
                half,
                initial,
                c1,
                l1,
                fuel,
            ) {
                ParseStep::Fail(d2) => ParseStep::Fail(d2),
                ParseStep::Done { cursor: c2, lookahead: l2 } => if l2 is Some {
                    ParseStep::Fail(SpecErr::LeftoverToken)
                } else {
                    ParseStep::Done { cursor: c2, lookahead: None }
                },
            },
        }
    }
}

/// A well-formed scanner's public counters are the 1-based report position
/// of its cursor.
proof fn lemma_report_position<T: Copy>(la: LexicalAnalysis<T>)
    requires
        la.wf(),
    ensures
        la.row + 1 == err_row(la.input_view(), la.cursor()),
        la.col == err_col(la.input_view(), la.cursor()),
{
}

/// The hook invoked on every completed derivation; an error aborts the
/// parse. Each sink declares which derivations it accepts; refusal is the
/// only source of `Callback` errors.
pub trait Reduction<T> {
    /// Which completed derivations this sink, in this state, accepts.
    spec fn accepts(self, from: T, derivation: Derivation<T>) -> bool;

    fn reduce(&mut self, from: T, derivation: &Derivation<T>) -> (r: Result<(), String>)
        ensures
            r is Ok <==> old(self).accepts(from, *derivation),
    ;
}

/// A reduction sink that records every completed derivation and accepts all
/// of them.
pub struct DerivationLog<T> {
    pub seen: Vec<(T, Derivation<T>)>,
}

impl<T: Copy> DerivationLog<T> {
    pub fn new() -> (r: DerivationLog<T>)
        ensures
            r.seen@.len() == 0,
    {
        DerivationLog { seen: Vec::new() }
    }
}

impl<T: Copy> DerivationLog<T> {
    /// Appends the completed derivation: the log grows by exactly this
    /// (nonterminal, alternative) pair, and recording always succeeds.
    pub fn record(&mut self, from: T, derivation: &Derivation<T>) -> (r: Result<(), String>)
        ensures
            r is Ok,
            final(self).seen@.len() == old(self).seen@.len() + 1,
            forall|j: int| 0 <= j < old(self).seen@.len() ==> #[trigger] final(self).seen@[j]
                == old(self).seen@[j],
            final(self).seen@[old(self).seen@.len() as int].0 == from,
            derivation is Empty ==> final(self).seen@[old(self).seen@.len() as int].1 is Empty,
            derivation matches Derivation::Normal(w) ==> (final(self).seen@[old(
                self,
            ).seen@.len() as int].1 matches Derivation::Normal(v) && v@ == w@),
    {
        let copy = crate::syntax::rules::copy_derivation(derivation);
        self.seen.push((from, copy));
        Ok(())
    }
}

impl<T: Copy> Reduction<T> for DerivationLog<T> {
    /// The log accepts every derivation.
    open spec fn accepts(self, from: T, derivation: Derivation<T>) -> bool {
        true
    }

    fn reduce(&mut self, from: T, derivation: &Derivation<T>) -> (r: Result<(), String>)
        ensures
            r is Ok <==> old(self).accepts(from, *derivation),
    {
        self.record(from, derivation)
    }
}

/// Expansions may not nest deeper than this; grammars that recurse without
/// consuming (left recursion) run into the bound instead of diverging.
pub const MAX_DERIVATION_DEPTH: u64 = 1048576;

/// The predictive parser: the grammar, its FIRST table, the single lookahead
/// token, and the reduction callback.
pub struct SyntaxAnalysis<T, R> {
    pub rules: Vec<Rule<T>>,
    pub firts_table: FirstTable<T>,
    pub next_token: Option<Token<T>>,
    pub callback: R,
}

impl<T: IsTerminal, R: Reduction<T>> SyntaxAnalysis<T, R> {
    /// The FIRST table is the least closed table of the grammar.
    pub open spec fn wf(self) -> bool {
        &&& rules_wf(self.rules@)
        &&& calc_inv(self.rules@, self.firts_table@)
        &&& table_closed(self.rules@, self.firts_table@)
    }

    /// Builds the parser, computing the FIRST table of the grammar.
    pub fn new(rules: Vec<Rule<T>>, callback: R) -> (r: Result<SyntaxAnalysis<T, R>, FirstError>)
        requires
            rules_wf(rules@),
        ensures
            r matches Ok(sa) ==> sa.wf() && sa.rules == rules && sa.next_token is None,
            r is Err ==> r == Err::<SyntaxAnalysis<T, R>, FirstError>(FirstError::LimitReached)
                && (exists|b: T, ws: Seq<First<T>>| first_overflow_witness(rules@, b, ws)),
    {
        let firts_table = match First::calculate(&rules) {
            Ok(t) => t,
            Err(e) => {
                return Err(e);
            },
        };
        Ok(SyntaxAnalysis { firts_table, rules, next_token: None, callback })
    }

    /// Runs the whole parse: pulls the first token, derives the start
    /// symbol, and demands that no token is left; the outcome equals the
    /// drive `spec_parse_all`, except that the reduction callback may refuse
    /// a completed derivation - with a sink that accepts everything the
    /// equality is exact. A terminal start symbol is refused outright.
    pub fn init(&mut self, initial: T, la: &mut LexicalAnalysis<T>) -> (r: Result<
        (),
        SyntaxError<T>,
    >)
        requires
            old(self).wf(),
            old(la).wf(),
            old(la).lexeme_start() == old(la).cursor(),
        ensures
            final(self).wf(),
            final(self).rules == old(self).rules,
            final(self).firts_table == old(self).firts_table,
            final(la).wf(),
            initial.spec_is_terminal() <==> r == Err::<(), SyntaxError<T>>(
                SyntaxError::DeriveTerminal,
            ),
            r == Err::<(), SyntaxError<T>>(SyntaxError::LeftoverToken)
                ==> final(self).next_token is Some,
            r matches Ok(_) ==> final(self).next_token is None && final(la).at_end(),
            (forall|cb: R, from2: T, d2: Derivation<T>| #[trigger] cb.accepts(from2, d2)) ==> !(
            r matches Err(SyntaxError::Callback(_))),
            ({
                let step = spec_parse_all(
                    old(self).rules@,
                    old(self).firts_table@,
                    old(la).spec_dfa(),
                    old(la).spec_comment_dfa(),
                    old(la).input_view(),
                    old(la).spec_half() as int,
                    initial,
                    old(la).cursor(),
                    MAX_DERIVATION_DEPTH as int,
                );
                match step {
                    ParseStep::Done { .. } => r is Ok || r matches Err(SyntaxError::Callback(_)),
                    ParseStep::Fail(dsc) => (r matches Err(e2) && err_matches(e2, dsc)) || (
                    r matches Err(SyntaxError::Callback(_))),
                }
            }),
    {
        let ghost rl = old(self).rules@;
        let ghost tb = old(self).firts_table@;
        let ghost gd = old(la).spec_dfa();
        let ghost gc = old(la).spec_comment_dfa();
        let ghost gs = old(la).input_view();
        let ghost gh = old(la).spec_half() as int;
        let ghost c0 = old(la).cursor();
        if initial.is_terminal() {
            return Err(SyntaxError::DeriveTerminal);
        }
        let first_token = match la.next_token() {
            Ok(t) => t,
            Err(e) => {
                proof {
                    assert(spec_parse_all(
                        rl,
                        tb,
                        gd,
                        gc,
                        gs,
                        gh,
                        initial,
                        c0,
                        MAX_DERIVATION_DEPTH as int,
                    ) == ParseStep::<T>::Fail(SpecErr::Lexical(e)));
                }
                return Err(SyntaxError::Lexical(e));
            },
        };
        self.next_token = first_token;
        proof {
            match spec_next_token(gd, gc, gs, gh, c0) {
                ScanOutcome::End => {
                    assert(token_view(self.next_token) is None);
                    assert(la.cursor() == gs.len());
                },
                ScanOutcome::Emit(t2, lex, end) => {
                    assert(token_view(self.next_token) == Some((t2, lex)));
                    assert(la.cursor() == end);
                },
                ScanOutcome::Fail(_) => {
                    assert(false);
                },
            }
        }
        let ghost c1 = la.cursor();
        let ghost l1 = token_view(self.next_token);
        match self.analysis(initial, la, MAX_DERIVATION_DEPTH) {
            Err(e) => {
                proof {
                    match spec_analysis(
                        rl,
                        tb,
                        gd,
                        gc,
                        gs,
                        gh,
                        initial,
                        c1,
                        l1,
                        MAX_DERIVATION_DEPTH as int,
                    ) {
                        ParseStep::Fail(d2) => {
                            assert(err_matches(e, d2) || e matches SyntaxError::Callback(_));
                        },
                        ParseStep::Done { .. } => {
                            assert(e matches SyntaxError::Callback(_));
                        },
                    }
                }
                return Err(e);
            },
            Ok(_) => {},
        }
        if self.next_token.is_some() {
            proof {
                assert(spec_parse_all(
                    rl,
                    tb,
                    gd,
                    gc,
                    gs,
                    gh,
                    initial,
                    c0,
                    MAX_DERIVATION_DEPTH as int,
                ) == ParseStep::<T>::Fail(SpecErr::LeftoverToken));
            }
            return Err(SyntaxError::LeftoverToken);
        }
        Ok(())
    }

    /// Derives the nonterminal `current`: of its alternatives, the first
    /// whose head symbol can begin with the lookahead is expanded; when none
    /// fits but an empty alternative exists, `current` derives the empty
    /// word without consuming anything; and when neither holds the lookahead
    /// is reported against the recorded FIRST set of `current`. The outcome,
    /// the scanner position and the lookahead equal `spec_analysis`, except
    /// that the reduction callback may refuse a completed derivation.
    pub fn analysis(&mut self, current: T, la: &mut LexicalAnalysis<T>, fuel: u64) -> (r: Result<
        (),
        SyntaxError<T>,
    >)
        requires
            old(self).wf(),
            old(la).wf(),
            old(la).lexeme_start() == old(la).cursor(),
            old(self).next_token is None ==> old(la).at_end(),
        ensures
            final(self).wf(),
            final(self).rules == old(self).rules,
            final(self).firts_table == old(self).firts_table,
            final(la).wf(),
            final(la).input_view() == old(la).input_view(),
            final(la).spec_dfa() == old(la).spec_dfa(),
            final(la).spec_comment_dfa() == old(la).spec_comment_dfa(),
            final(la).spec_half() == old(la).spec_half(),
            (match r {
                Err(SyntaxError::Lexical(_)) => true,
                _ => final(la).lexeme_start() == final(la).cursor(),
            }),
            final(self).next_token is None ==> final(la).at_end(),
            current.spec_is_terminal() <==> r == Err::<(), SyntaxError<T>>(
                SyntaxError::DeriveTerminal,
            ),
            r != Err::<(), SyntaxError<T>>(SyntaxError::LeftoverToken),
            !current.spec_is_terminal() && fuel == 0 ==> r == Err::<(), SyntaxError<T>>(
                SyntaxError::DepthLimit,
            ),
            old(self).next_token is Some && !current.spec_is_terminal() && fuel > 0
                && !has_fitting_alt(
                old(self).rules@,
                old(self).firts_table@,
                current,
                old(self).next_token->0.t_type,
            ) && !has_empty_alt(old(self).rules@, current) ==> (r matches Err(e) && (
            e matches SyntaxError::NoAlternative { row, col, nonterminal, found, expected } && row
                == old(la).row + 1 && col == old(la).col && nonterminal == current && found
                == Some(old(self).next_token->0.t_type) && expected_is_first_set(
                expected@,
                old(self).firts_table@,
                current,
            )) && *final(la) == *old(la) && *final(self) == *old(self)),
            old(self).next_token is Some && !current.spec_is_terminal() && fuel > 0
                && !has_fitting_alt(
                old(self).rules@,
                old(self).firts_table@,
                current,
                old(self).next_token->0.t_type,
            ) && has_empty_alt(old(self).rules@, current) ==> r == Ok::<(), SyntaxError<T>>(())
                && *final(la) == *old(la) && *final(self) == *old(self),
            (old(self).next_token is None && !current.spec_is_terminal() && fuel > 0
                && has_empty_alt(old(self).rules@, current)) ==> r == Ok::<(), SyntaxError<T>>(())
                && *final(la) == *old(la) && *final(self) == *old(self),
            (old(self).next_token is None && !current.spec_is_terminal() && fuel > 0
                && !has_empty_alt(old(self).rules@, current)) ==> (r matches Err(e) && (
            e matches SyntaxError::NoAlternative { row, col, nonterminal, found, expected } && row
                == old(la).row + 1 && col == old(la).col && nonterminal == current && found
                == None::<T> && expected_is_first_set(
                expected@,
                old(self).firts_table@,
                current,
            )) && *final(la) == *old(la) && *final(self) == *old(self)),
            (forall|cb: R, from2: T, d2: Derivation<T>| #[trigger] cb.accepts(from2, d2)) ==> !(
            r matches Err(SyntaxError::Callback(_))),
            ({
                let step = spec_analysis(
                    old(self).rules@,
                    old(self).firts_table@,
                    old(la).spec_dfa(),
                    old(la).spec_comment_dfa(),
                    old(la).input_view(),
                    old(la).spec_half() as int,
                    current,
                    old(la).cursor(),
                    token_view(old(self).next_token),
                    fuel as int,
                );
                match step {
                    ParseStep::Done { cursor, lookahead } => (r is Ok && final(la).cursor()
                        == cursor && token_view(final(self).next_token) == lookahead) || (
                    r matches Err(SyntaxError::Callback(_))),
                    ParseStep::Fail(dsc) => (r matches Err(e2) && err_matches(e2, dsc)) || (
                    r matches Err(SyntaxError::Callback(_))),
                }
            }),
        decreases fuel, 1int,
    {
        if current.is_terminal() {
            return Err(SyntaxError::DeriveTerminal);
        }
        if fuel == 0 {
            return Err(SyntaxError::DepthLimit);
        }
        let ghost rl = old(self).rules@;
        let ghost tb = old(self).firts_table@;
        let ghost gd = old(la).spec_dfa();
        let ghost gc = old(la).spec_comment_dfa();
        let ghost gs = old(la).input_view();
        let ghost gh = old(la).spec_half() as int;
        let ghost gf = fuel as int;
        let ghost l0 = token_view(old(self).next_token);
        let ghost c0 = old(la).cursor();
        let lookahead: Option<T> = match &self.next_token {
            Some(token) => Some(token.t_type),
            None => None,
        };
        match lookahead {
            Some(tok_type) => {
                let nr = self.rules.len();
                let mut contains_empty = false;
                let mut ri: usize = 0;
                while ri < nr
                    invariant
                        nr == self.rules@.len(),
                        ri <= nr,
                        self.wf(),
                        self == old(self),
                        *la == *old(la),
                        la.wf(),
                        la.lexeme_start() == la.cursor(),
                        !current.spec_is_terminal(),
                        fuel >= 1,
                        old(self).next_token is Some && old(self).next_token->0.t_type
                            == tok_type,
                        rl == old(self).rules@,
                        tb == old(self).firts_table@,
                        gd == old(la).spec_dfa(),
                        gc == old(la).spec_comment_dfa(),
                        gs == old(la).input_view(),
                        gh == old(la).spec_half() as int,
                        gf == fuel as int,
                        l0 == token_view(old(self).next_token),
                        c0 == old(la).cursor(),
                        first_fit(rl, tb, current, tok_type, ri as int, 0) == first_fit(
                            rl,
                            tb,
                            current,
                            tok_type,
                            0,
                            0,
                        ),
                        forall|ri2: int, di2: int|
                            ri2 < ri as int ==> !(#[trigger] alt_head_fits(
                                old(self).rules@,
                                old(self).firts_table@,
                                ri2,
                                di2,
                                current,
                                tok_type,
                            )),
                        contains_empty ==> has_empty_alt(old(self).rules@, current),
                        !contains_empty ==> (forall|ri2: int, di2: int|
                            ri2 < ri as int ==> !(#[trigger] empty_alt_at(
                                old(self).rules@,
                                ri2,
                                di2,
                                current,
                            ))),
                    decreases nr - ri,
                {
                    if self.rules[ri].from.sym_eq(current) {
                        let nd = self.rules[ri].to.len();
                        let mut di: usize = 0;
                        while di < nd
                            invariant
                                nr == self.rules@.len(),
                                ri < nr,
                                nd == self.rules@[ri as int].to@.len(),
                                di <= nd,
                                self.wf(),
                                self == old(self),
                                *la == *old(la),
                                la.wf(),
                                la.lexeme_start() == la.cursor(),
                                !current.spec_is_terminal(),
                                fuel >= 1,
                                old(self).rules@[ri as int].from == current,
                                old(self).next_token is Some && old(self).next_token->0.t_type
                            == tok_type,
                                rl == old(self).rules@,
                                tb == old(self).firts_table@,
                                gd == old(la).spec_dfa(),
                                gc == old(la).spec_comment_dfa(),
                                gs == old(la).input_view(),
                                gh == old(la).spec_half() as int,
                                gf == fuel as int,
                                l0 == token_view(old(self).next_token),
                                c0 == old(la).cursor(),
                                first_fit(rl, tb, current, tok_type, ri as int, di as int)
                                    == first_fit(rl, tb, current, tok_type, 0, 0),
                                forall|ri2: int, di2: int|
                                    ri2 < ri as int ==> !(#[trigger] alt_head_fits(
                                        old(self).rules@,
                                        old(self).firts_table@,
                                        ri2,
                                        di2,
                                        current,
                                        tok_type,
                                    )),
                                forall|di2: int|
                                    di2 < di as int ==> !(#[trigger] alt_head_fits(
                                        old(self).rules@,
                                        old(self).firts_table@,
                                        ri as int,
                                        di2,
                                        current,
                                        tok_type,
                                    )),
                                contains_empty ==> has_empty_alt(old(self).rules@, current),
                                !contains_empty ==> (forall|ri2: int, di2: int|
                                    ri2 < ri as int ==> !(#[trigger] empty_alt_at(
                                        old(self).rules@,
                                        ri2,
                                        di2,
                                        current,
                                    ))),
                                !contains_empty ==> (forall|di2: int|
                                    di2 < di as int ==> !(#[trigger] empty_alt_at(
                                        old(self).rules@,
                                        ri as int,
                                        di2,
                                        current,
                                    ))),
                            decreases nd - di,
                        {
                            let is_empty_alt = match &self.rules[ri].to[di] {
                                Derivation::Empty => true,
                                Derivation::Normal(_) => false,
                            };
                            if is_empty_alt {
                                proof {
                                    assert(empty_alt_at(
                                        old(self).rules@,
                                        ri as int,
                                        di as int,
                                        current,
                                    ));
                                    assert(has_empty_alt(old(self).rules@, current));
                                    assert(!alt_head_fits(
                                        rl,
                                        tb,
                                        ri as int,
                                        di as int,
                                        current,
                                        tok_type,
                                    ));
                                }
                                contains_empty = true;
                            } else {
                                let head: Option<T> = match &self.rules[ri].to[di] {
                                    Derivation::Normal(vars_seq) => {
                                        if vars_seq.len() > 0 {
                                            Some(vars_seq[0])
                                        } else {
                                            None
                                        }
                                    },
                                    Derivation::Empty => None,
                                };
                                if let Some(h) = head {
                                    if First::first_from(&self.firts_table, h, tok_type) {
                                        proof {
                                            assert(alt_head_fits(
                                                old(self).rules@,
                                                old(self).firts_table@,
                                                ri as int,
                                                di as int,
                                                current,
                                                tok_type,
                                            ));
                                            assert(has_fitting_alt(
                                                old(self).rules@,
                                                old(self).firts_table@,
                                                current,
                                                tok_type,
                                            ));
                                            assert(first_fit(
                                                rl,
                                                tb,
                                                current,
                                                tok_type,
                                                ri as int,
                                                di as int,
                                            ) == Some((ri as int, di as int)));
                                            assert(l0 matches Some(tk) && tk.0 == tok_type);
                                            assert(spec_analysis(
                                                rl,
                                                tb,
                                                gd,
                                                gc,
                                                gs,
                                                gh,
                                                current,
                                                c0,
                                                l0,
                                                gf,
                                            ) == spec_eval(
                                                rl,
                                                tb,
                                                gd,
                                                gc,
                                                gs,
                                                gh,
                                                ri as int,
                                                di as int,
                                                0,
                                                c0,
                                                l0,
                                                gf,
                                            ));
                                        }
                                        return self.evaluate_derivation(current, ri, di, la, fuel);
                                    }
                                }
                                proof {
                                    assert(!alt_head_fits(
                                        old(self).rules@,
                                        old(self).firts_table@,
                                        ri as int,
                                        di as int,
                                        current,
                                        tok_type,
                                    ));
                                    assert(!empty_alt_at(
                                        old(self).rules@,
                                        ri as int,
                                        di as int,
                                        current,
                                    ));
                                }
                            }
                            di = di + 1;
                        }
                        proof {
                            assert(first_fit(rl, tb, current, tok_type, ri as int, nd as int)
                                == first_fit(rl, tb, current, tok_type, ri as int + 1, 0));
                        }
                    } else {
                        proof {
                            assert(old(self).rules@[ri as int].from != current);
                            assert(first_fit(rl, tb, current, tok_type, ri as int, 0)
                                == first_fit(rl, tb, current, tok_type, ri as int + 1, 0));
                        }
                    }
                    ri = ri + 1;
                }
                proof {
                    assert(first_fit(rl, tb, current, tok_type, nr as int, 0) is None);
                    assert(!has_fitting_alt(
                        old(self).rules@,
                        old(self).firts_table@,
                        current,
                        tok_type,
                    )) by {
                        if has_fitting_alt(
                            old(self).rules@,
                            old(self).firts_table@,
                            current,
                            tok_type,
                        ) {
                            let (ri2, di2) = choose|ri2: int, di2: int|
                                #[trigger] alt_head_fits(
                                    old(self).rules@,
                                    old(self).firts_table@,
                                    ri2,
                                    di2,
                                    current,
                                    tok_type,
                                );
                            assert(false);
                        }
                    }
                }
                if !contains_empty {
                    proof {
                        assert(!has_empty_alt(old(self).rules@, current)) by {
                            if has_empty_alt(old(self).rules@, current) {
                                let (ri2, di2) = choose|ri2: int, di2: int|
                                    #[trigger] empty_alt_at(old(self).rules@, ri2, di2, current);
                                assert(false);
                            }
                        }
                        lemma_pos_bounds(la.input_view(), la.n());
                        lemma_report_position(*la);
                        assert(spec_analysis(rl, tb, gd, gc, gs, gh, current, c0, l0, gf)
                            == ParseStep::<T>::Fail(
                            (SpecErr::NoAlternative {
                                row: err_row(gs, c0),
                                col: err_col(gs, c0),
                                nonterminal: current,
                                found: Some(tok_type),
                            }),
                        ));
                    }
                    let expected = self.expected_set(current);
                    return Err(
                        SyntaxError::NoAlternative {
                            row: la.row + 1,
                            col: la.col,
                            nonterminal: current,
                            found: Some(tok_type),
                            expected,
                        },
                    );
                }
                proof {
                    assert(spec_analysis(rl, tb, gd, gc, gs, gh, current, c0, l0, gf) == (
                    ParseStep::<T>::Done { cursor: c0, lookahead: l0 }));
                }
                Ok(())
            },
            None => {
                // end of input: the nonterminal must derive the empty word
                let nr = self.rules.len();
                let mut ri: usize = 0;
                while ri < nr
                    invariant
                        nr == self.rules@.len(),
                        ri <= nr,
                        self.wf(),
                        self == old(self),
                        *la == *old(la),
                        la.wf(),
                        la.lexeme_start() == la.cursor(),
                        !current.spec_is_terminal(),
                        fuel >= 1,
                        old(self).next_token is None,
                        la.at_end(),
                        forall|ri2: int, di2: int|
                            ri2 < ri as int ==> !(#[trigger] empty_alt_at(
                                old(self).rules@,
                                ri2,
                                di2,
                                current,
                            )),
                    decreases nr - ri,
                {
                    if self.rules[ri].from.sym_eq(current) {
                        let nd = self.rules[ri].to.len();
                        let mut di: usize = 0;
                        while di < nd
                            invariant
                                nr == self.rules@.len(),
                                ri < nr,
                                nd == self.rules@[ri as int].to@.len(),
                                di <= nd,
                                self.wf(),
                                self == old(self),
                                *la == *old(la),
                                la.wf(),
                                la.lexeme_start() == la.cursor(),
                                !current.spec_is_terminal(),
                                fuel >= 1,
                                old(self).next_token is None,
                                la.at_end(),
                                old(self).rules@[ri as int].from == current,
                                forall|ri2: int, di2: int|
                                    ri2 < ri as int ==> !(#[trigger] empty_alt_at(
                                        old(self).rules@,
                                        ri2,
                                        di2,
                                        current,
                                    )),
                                forall|di2: int|
                                    di2 < di as int ==> !(#[trigger] empty_alt_at(
                                        old(self).rules@,
                                        ri as int,
                                        di2,
                                        current,
                                    )),
                            decreases nd - di,
                        {
                            let is_empty_alt = match &self.rules[ri].to[di] {
                                Derivation::Empty => true,
                                Derivation::Normal(_) => false,
                            };
                            if is_empty_alt {
                                proof {
                                    assert(empty_alt_at(
                                        old(self).rules@,
                                        ri as int,
                                        di as int,
                                        current,
                                    ));
                                    assert(has_empty_alt(old(self).rules@, current));
                                    assert(token_view(old(self).next_token) is None);
                                    assert(spec_analysis(
                                        old(self).rules@,
                                        old(self).firts_table@,
                                        old(la).spec_dfa(),
                                        old(la).spec_comment_dfa(),
                                        old(la).input_view(),
                                        old(la).spec_half() as int,
                                        current,
                                        old(la).cursor(),
                                        token_view(old(self).next_token),
                                        fuel as int,
                                    ) == (ParseStep::<T>::Done {
                                        cursor: old(la).cursor(),
                                        lookahead: None,
                                    }));
                                }
                                return Ok(());
                            }
                            proof {
                                assert(!empty_alt_at(
                                    old(self).rules@,
                                    ri as int,
                                    di as int,
                                    current,
                                ));
                            }
                            di = di + 1;
                        }
                    } else {
                        proof {
                            assert(old(self).rules@[ri as int].from != current);
                        }
                    }
                    ri = ri + 1;
                }
                proof {
                    assert(!has_empty_alt(old(self).rules@, current)) by {
                        if has_empty_alt(old(self).rules@, current) {
                            let (ri2, di2) = choose|ri2: int, di2: int|
                                #[trigger] empty_alt_at(old(self).rules@, ri2, di2, current);
                            assert(false);
                        }
                    }
                    lemma_pos_bounds(la.input_view(), la.n());
                    lemma_report_position(*la);
                    assert(spec_analysis(rl, tb, gd, gc, gs, gh, current, c0, l0, gf)
                        == ParseStep::<T>::Fail(
                        (SpecErr::NoAlternative {
                            row: err_row(gs, c0),
                            col: err_col(gs, c0),
                            nonterminal: current,
                            found: None,
                        }),
                    ));
                }
                let expected = self.expected_set(current);
                Err(
                    SyntaxError::NoAlternative {
                        row: la.row + 1,
                        col: la.col,
                        nonterminal: current,
                        found: None,
                        expected,
                    },
                )
            },
        }
    }

    /// The recorded FIRST set of `current`, for error reports; empty when
    /// no rule derives `current`.
    fn expected_set(&self, current: T) -> (r: Vec<First<T>>)
        ensures
            expected_is_first_set(r@, self.firts_table@, current),
    {
        match find_key(&self.firts_table, current) {
            Some(ei) => {
                let out = copy_firsts(&self.firts_table[ei].1);
                proof {
                    assert((#[trigger] self.firts_table@[ei as int]).0 == current && out@
                        == self.firts_table@[ei as int].1@);
                }
                out
            },
            None => Vec::new(),
        }
    }

    /// Expands alternative `di` of rule `ri`: terminals must match the
    /// lookahead exactly, advancing the scanner; nonterminals recurse; once
    /// every symbol is consumed the reduction callback is invoked. An empty
    /// alternative consumes nothing and goes straight to the callback; a
    /// terminal mismatch at any position is reported exactly. The outcome
    /// equals `spec_eval`, except that the callback may refuse a completed
    /// derivation.
    pub fn evaluate_derivation(
        &mut self,
        current: T,
        ri: usize,
        di: usize,
        la: &mut LexicalAnalysis<T>,
        fuel: u64,
    ) -> (r: Result<(), SyntaxError<T>>)
        requires
            old(self).wf(),
            ri < old(self).rules@.len(),
            di < old(self).rules@[ri as int].to@.len(),
            old(la).wf(),
            old(la).lexeme_start() == old(la).cursor(),
            old(self).next_token is None ==> old(la).at_end(),
            fuel >= 1,
        ensures
            final(self).wf(),
            final(self).rules == old(self).rules,
            final(self).firts_table == old(self).firts_table,
            final(la).wf(),
            final(la).input_view() == old(la).input_view(),
            final(la).spec_dfa() == old(la).spec_dfa(),
            final(la).spec_comment_dfa() == old(la).spec_comment_dfa(),
            final(la).spec_half() == old(la).spec_half(),
            (match r {
                Err(SyntaxError::Lexical(_)) => true,
                _ => final(la).lexeme_start() == final(la).cursor(),
            }),
            final(self).next_token is None ==> final(la).at_end(),
            alt_is_empty(old(self).rules@, ri as int, di as int) ==> *final(la) == *old(la)
                && final(self).next_token == old(self).next_token && (r is Ok || r matches Err(
                SyntaxError::Callback(_),
            )),
            r != Err::<(), SyntaxError<T>>(SyntaxError::DeriveTerminal),
            r != Err::<(), SyntaxError<T>>(SyntaxError::LeftoverToken),
            first_symbol_blocks(old(self).rules@, ri as int, di as int, old(self).next_token)
                ==> (r matches Err(e) && (
            e matches SyntaxError::ExpectMismatch { row, col, expected, found } && row == old(
                la,
            ).row + 1 && col == old(la).col && expected == old(self).rules@[ri as int].to@[di
                as int]->Normal_0@[0] && found == (match old(self).next_token {
                Some(tk) => Some(tk.t_type),
                None => None,
            })) && *final(la) == *old(la) && *final(self) == *old(self)),
            (forall|cb: R, from2: T, d2: Derivation<T>| #[trigger] cb.accepts(from2, d2)) ==> !(
            r matches Err(SyntaxError::Callback(_))),
            ({
                let step = spec_eval(
                    old(self).rules@,
                    old(self).firts_table@,
                    old(la).spec_dfa(),
                    old(la).spec_comment_dfa(),
                    old(la).input_view(),
                    old(la).spec_half() as int,
                    ri as int,
                    di as int,
                    0,
                    old(la).cursor(),
                    token_view(old(self).next_token),
                    fuel as int,
                );
                match step {
                    ParseStep::Done { cursor, lookahead } => (r is Ok && final(la).cursor()
                        == cursor && token_view(final(self).next_token) == lookahead) || (
                    r matches Err(SyntaxError::Callback(_))),
                    ParseStep::Fail(dsc) => (r matches Err(e2) && err_matches(e2, dsc)) || (
                    r matches Err(SyntaxError::Callback(_))),
                }
            }),
        decreases fuel, 0int,
    {
        let ghost rl = old(self).rules@;
        let ghost tb = old(self).firts_table@;
        let ghost gd = old(la).spec_dfa();
        let ghost gc = old(la).spec_comment_dfa();
        let ghost gs = old(la).input_view();
        let ghost gh = old(la).spec_half() as int;
        let ghost gf = fuel as int;
        let nvars = match &self.rules[ri].to[di] {
            Derivation::Normal(v) => v.len(),
            Derivation::Empty => 0,
        };
        let mut vi: usize = 0;
        while vi < nvars
            invariant
                self.wf(),
                self.rules == old(self).rules,
                self.firts_table == old(self).firts_table,
                ri < self.rules@.len(),
                di < self.rules@[ri as int].to@.len(),
                nvars > 0 ==> self.rules@[ri as int].to@[di as int] is Normal
                    && self.rules@[ri as int].to@[di as int]->Normal_0@.len() == nvars,
                vi <= nvars,
                la.wf(),
                la.input_view() == old(la).input_view(),
                la.lexeme_start() == la.cursor(),
                self.next_token is None ==> la.at_end(),
                fuel >= 1,
                nvars == 0 <==> alt_is_empty(old(self).rules@, ri as int, di as int),
                vi as int == 0 ==> *la == *old(la) && *self == *old(self),
                vi as int >= 1 ==> !first_symbol_blocks(
                    old(self).rules@,
                    ri as int,
                    di as int,
                    old(self).next_token,
                ),
                rl == old(self).rules@,
                tb == old(self).firts_table@,
                gd == old(la).spec_dfa(),
                gc == old(la).spec_comment_dfa(),
                gs == old(la).input_view(),
                gh == old(la).spec_half() as int,
                gf == fuel as int,
                la.spec_dfa() == gd,
                la.spec_comment_dfa() == gc,
                la.spec_half() as int == gh,
                spec_eval(
                    rl,
                    tb,
                    gd,
                    gc,
                    gs,
                    gh,
                    ri as int,
                    di as int,
                    vi as int,
                    la.cursor(),
                    token_view(self.next_token),
                    gf,
                ) == spec_eval(
                    rl,
                    tb,
                    gd,
                    gc,
                    gs,
                    gh,
                    ri as int,
                    di as int,
                    0,
                    old(la).cursor(),
                    token_view(old(self).next_token),
                    gf,
                ),
            decreases nvars - vi,
        {
            let var = match &self.rules[ri].to[di] {
                Derivation::Normal(v) => v[vi],
                Derivation::Empty => vstd::pervasive::unreached(),
            };
            proof {
                assert(rl[ri as int].to@[di as int]->Normal_0@[vi as int] == var);
            }
            let ghost c0 = la.cursor();
            let ghost l0 = token_view(self.next_token);
            if var.is_terminal() {
                let found: Option<T> = match &self.next_token {
                    Some(token) => Some(token.t_type),
                    None => None,
                };
                match found {
                    Some(tt) => {
                        if var.sym_eq(tt) {
                            let nt = match la.next_token() {
                                Ok(t) => t,
                                Err(e) => {
                                    proof {
                                        assert(spec_eval(
                                            rl,
                                            tb,
                                            gd,
                                            gc,
                                            gs,
                                            gh,
                                            ri as int,
                                            di as int,
                                            vi as int,
                                            c0,
                                            l0,
                                            gf,
                                        ) == ParseStep::<T>::Fail(SpecErr::Lexical(e)));
                                    }
                                    return Err(SyntaxError::Lexical(e));
                                },
                            };
                            self.next_token = nt;
                            proof {
                                match spec_next_token(gd, gc, gs, gh, c0) {
                                    ScanOutcome::End => {
                                        assert(token_view(self.next_token) is None);
                                        assert(la.cursor() == gs.len());
                                    },
                                    ScanOutcome::Emit(t2, lex, end) => {
                                        assert(token_view(self.next_token) == Some((t2, lex)));
                                        assert(la.cursor() == end);
                                    },
                                    ScanOutcome::Fail(_) => {
                                        assert(false);
                                    },
                                }
                            }
                        } else {
                            proof {
                                lemma_pos_bounds(la.input_view(), la.n());
                                lemma_report_position(*la);
                                assert(spec_eval(
                                    rl,
                                    tb,
                                    gd,
                                    gc,
                                    gs,
                                    gh,
                                    ri as int,
                                    di as int,
                                    vi as int,
                                    c0,
                                    l0,
                                    gf,
                                ) == ParseStep::<T>::Fail(
                                    (SpecErr::ExpectMismatch {
                                        row: err_row(gs, c0),
                                        col: err_col(gs, c0),
                                        expected: var,
                                        found: Some(tt),
                                    }),
                                ));
                            }
                            return Err(
                                SyntaxError::ExpectMismatch {
                                    row: la.row + 1,
                                    col: la.col,
                                    expected: var,
                                    found: Some(tt),
                                },
                            );
                        }
                    },
                    None => {
                        proof {
                            lemma_pos_bounds(la.input_view(), la.n());
                            lemma_report_position(*la);
                            assert(spec_eval(
                                rl,
                                tb,
                                gd,
                                gc,
                                gs,
                                gh,
                                ri as int,
                                di as int,
                                vi as int,
                                c0,
                                l0,
                                gf,
                            ) == ParseStep::<T>::Fail(
                                (SpecErr::ExpectMismatch {
                                    row: err_row(gs, c0),
                                    col: err_col(gs, c0),
                                    expected: var,
                                    found: None,
                                }),
                            ));
                        }
                        return Err(
                            SyntaxError::ExpectMismatch {
                                row: la.row + 1,
                                col: la.col,
                                expected: var,
                                found: None,
                            },
                        );
                    },
                }
            } else {
                proof {
                    assert((fuel - 1) as int == gf - 1);
                }
                match self.analysis(var, la, fuel - 1) {
                    Err(e) => {
                        proof {
                            match spec_analysis(rl, tb, gd, gc, gs, gh, var, c0, l0, gf - 1) {
                                ParseStep::Fail(d2) => {
                                    assert(err_matches(e, d2) || e matches SyntaxError::Callback(
                                        _,
                                    ));
                                },
                                ParseStep::Done { .. } => {
                                    assert(e matches SyntaxError::Callback(_));
                                },
                            }
                        }
                        return Err(e);
                    },
                    Ok(_) => {
                        proof {
                            match spec_analysis(rl, tb, gd, gc, gs, gh, var, c0, l0, gf - 1) {
                                ParseStep::Done { cursor: c2, lookahead: l2 } => {
                                    assert(la.cursor() == c2);
                                    assert(token_view(self.next_token) == l2);
                                },
                                ParseStep::Fail(_) => {
                                    assert(false);
                                },
                            }
                        }
                    },
                }
            }
            vi = vi + 1;
        }
        proof {
            assert(spec_eval(
                rl,
                tb,
                gd,
                gc,
                gs,
                gh,
                ri as int,
                di as int,
                vi as int,
                la.cursor(),
                token_view(self.next_token),
                gf,
            ) == (ParseStep::<T>::Done {
                cursor: la.cursor(),
                lookahead: token_view(self.next_token),
            }));
        }
        let cb_res = self.callback.reduce(current, &self.rules[ri].to[di]);
        match cb_res {
            Ok(_) => Ok(()),
            Err(msg) => Err(SyntaxError::Callback(msg)),
        }
    }
}

} // verus!
