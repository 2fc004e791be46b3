use vstd::prelude::*;
use vstd::arithmetic::div_mod::lemma_fundamental_div_mod;
use vstd::arithmetic::div_mod::lemma_fundamental_div_mod_converse_mod;
use vstd::arithmetic::div_mod::lemma_mod_bound;
use vstd::arithmetic::div_mod::lemma_mod_equivalence;
use vstd::arithmetic::div_mod::lemma_mod_mod;
use vstd::arithmetic::div_mod::lemma_small_mod;
use crate::lexica::automata::ERROR_STATE;
use crate::lexica::automata::INIT_STATE;
use crate::lexica::automata::TokensDFA;
use crate::lexica::automata::lemma_triples_member_bound;
use crate::lexica::automata::triples_states;
use crate::lexica::automata::TokensNFA;
use crate::lexica::automata::blowup_witness;
use crate::lexica::automata::compiled_from;
use crate::lexica::automata::subset_construction_ok;
use crate::lexica::regex::regex_equiv;
use crate::lexica::regex::regex_states;
use crate::lexica::regex::Regex;
use crate::lexica::tokens::Token;
use crate::lexica::tokens::TokenUses;

verus! {

/// Everything that can end a scan: a lexeme outgrowing the buffer half, a
/// byte no pattern matches, input ending inside a token or a block comment, a
/// stray comment-end pattern, a configuration without the paired comment-end
/// pattern, and the automaton bound. Rows and columns are reported 1-based.
#[derive(Clone, Copy, PartialEq, Eq, Structural, Debug)]
pub enum LexError {
    LexemeTooLong { row: usize, col: usize },
    UnexpectedByte { row: usize, col: usize, byte: u8 },
    UnexpectedEnd { row: usize, col: usize },
    CommentEndNotStarted { row: usize, col: usize },
    MissingEndComment,
    UnclosedComment { row: usize, col: usize },
    TooManyStates,
}

/// Newlines seen in the first `n` bytes of `s`.
pub open spec fn spec_row(s: Seq<u8>, n: int) -> int
    decreases n,
{
    if n <= 0 {
        0
    } else {
        spec_row(s, n - 1) + if s[n - 1] == 10 {
            1int
        } else {
            0int
        }
    }
}

/// Column counter after consuming the first `n` bytes of `s`: a newline
/// resets it to 1, any other byte advances it.
pub open spec fn spec_col(s: Seq<u8>, n: int) -> int
    decreases n,
{
    if n <= 0 {
        0
    } else if s[n - 1] == 10 {
        1
    } else {
        spec_col(s, n - 1) + 1
    }
}

pub proof fn lemma_pos_bounds(s: Seq<u8>, n: int)
    ensures
        0 <= spec_row(s, n) <= if n >= 0 {
            n
        } else {
            0
        },
        0 <= spec_col(s, n) <= if n >= 0 {
            n
        } else {
            0
        },
    decreases n,
{
    if n > 0 {
        lemma_pos_bounds(s, n - 1);
    }
}

/// Residues agree and the distance is under the modulus: the values agree.
proof fn lemma_ring_eq(a: int, b: int, m: int)
    requires
        m > 0,
        0 <= a <= b,
        b - a < m,
        a % m == b % m,
    ensures
        a == b,
{
    lemma_mod_equivalence(b, a, m);
    lemma_small_mod((b - a) as nat, m as nat);
}

/// Stepping the ring index.
proof fn lemma_ring_next(n: int, m: int)
    requires
        m > 0,
        n >= 0,
    ensures
        (n + 1) % m == if n % m + 1 == m {
            0int
        } else {
            n % m + 1
        },
{
    lemma_fundamental_div_mod(n, m);
    lemma_mod_bound(n, m);
    let q = n / m;
    if n % m + 1 == m {
        assert(n + 1 == (q + 1) * m + 0) by (nonlinear_arith)
            requires
                n == m * q + n % m,
                n % m + 1 == m,
        ;
        lemma_fundamental_div_mod_converse_mod(n + 1, m, q + 1, 0);
    } else {
        assert(n + 1 == q * m + (n % m + 1)) by (nonlinear_arith)
            requires
                n == m * q + n % m,
        ;
        lemma_fundamental_div_mod_converse_mod(n + 1, m, q, n % m + 1);
    }
}

/// A nonnegative value under the modulus is its own residue, shifted sums
/// included.
proof fn lemma_ring_shift(base: int, j: int, m: int)
    requires
        m > 0,
        0 <= base,
        0 <= j,
        base + j < m,
        base % m == base,
    ensures
        (base + j) % m == base + j,
{
    lemma_small_mod((base + j) as nat, m as nat);
}

/// Index of the last pattern carrying the block-comment end attribute, or
/// -1 when none does; that pattern's automaton drives comment skipping.
pub open spec fn last_end_index<T>(s: Seq<(T, TokenUses, Regex)>) -> int
    decreases s.len(),
{
    if s.len() == 0 {
        -1
    } else if s[s.len() - 1].1 == TokenUses::EndBlockComment {
        s.len() - 1
    } else {
        last_end_index(s.drop_last())
    }
}

/// The streaming scanner: a deterministic token automaton, an optional
/// second automaton for the block-comment end pattern, and a two-half ring
/// buffer of `2 * half` bytes over the owned input. `row` and `col` count
/// consumed newlines and bytes; a lexeme is bounded by `half` bytes.
pub struct LexicalAnalysis<T> {
    pub row: usize,
    pub col: usize,
    pub init: usize,
    pub next: usize,
    pub c: u8,
    pub eof: bool,
    pub buffer: Vec<u8>,
    pub half: usize,
    pub avail: usize,
    pub input: Vec<u8>,
    pub pos: usize,
    pub start: Ghost<int>,
    pub dfa_tokens: TokensDFA<T>,
    pub dfa_end_comment: Option<TokensDFA<u32>>,
}

impl<T: Copy> LexicalAnalysis<T> {
    /// Bytes taken out of the buffer so far; the byte under the cursor,
    /// when there is one, is the last of them.
    pub open spec fn n(self) -> int {
        self.pos - self.avail
    }

    /// The input position the scanner stands on: the position of the byte it
    /// is about to decide on, or the input length when all is consumed.
    pub open spec fn cursor(self) -> int {
        if self.eof {
            self.input@.len() as int
        } else {
            self.n() - 1
        }
    }

    /// The bytes being scanned.
    pub open spec fn input_view(self) -> Seq<u8> {
        self.input@
    }

    /// Start of the current lexeme, as an input position.
    pub open spec fn lexeme_start(self) -> int {
        self.start@
    }

    /// The token automaton.
    pub open spec fn spec_dfa(self) -> TokensDFA<T> {
        self.dfa_tokens
    }

    /// The comment-end automaton, when block comments are configured.
    pub open spec fn spec_comment_dfa(self) -> Option<TokensDFA<u32>> {
        self.dfa_end_comment
    }

    /// Whether the input is exhausted.
    pub open spec fn at_end(self) -> bool {
        self.eof
    }

    /// The configured half-buffer size: the bound on a lexeme.
    pub open spec fn spec_half(self) -> usize {
        self.half
    }

    /// Invariants that hold from construction on, except that the cursor may
    /// not have read its first byte yet.
    pub open spec fn wf_base(self) -> bool {
        &&& self.dfa_tokens.wf()
        &&& (self.dfa_end_comment matches Some(d) ==> d.wf())
        &&& 2 <= self.half
        &&& 4 * self.half <= usize::MAX
        &&& self.buffer@.len() == 2 * self.half
        &&& self.avail <= self.half
        &&& self.avail <= self.pos <= self.input@.len()
        &&& self.input@.len() < usize::MAX
        &&& (self.eof ==> self.pos == self.input@.len() && self.avail == 0)
        &&& self.next == self.n() % (2 * self.half as int)
        &&& self.init == self.start@ % (2 * self.half as int)
        &&& 0 <= self.start@ <= self.n()
        &&& self.n() - self.start@ <= self.half + 1
        &&& self.pos - self.start@ <= 2 * self.half
        &&& (self.pos as int % (self.half as int) == 0 || self.pos == self.input@.len())
        &&& forall|p: int|
            self.start@ <= p < self.pos ==> #[trigger] self.buffer@[p % (2 * self.half as int)]
                == self.input@[p]
        &&& self.row == spec_row(self.input@, self.n())
        &&& self.col == spec_col(self.input@, self.n())
    }

    /// Well-formed and ready: the byte under the cursor is loaded.
    pub open spec fn wf(self) -> bool {
        &&& self.wf_base()
        &&& (!self.eof ==> self.n() >= 1 && self.c == self.input@[self.n() - 1] && self.start@ + 1
            <= self.n())
    }

    /// The state right after construction on a nonempty input, before the
    /// first byte is read.
    pub open spec fn virgin(self) -> bool {
        &&& self.wf_base()
        &&& !self.eof
        &&& self.n() == 0
        &&& self.pos == 0
        &&& self.start@ == 0
        &&& self.input@.len() > 0
    }

    /// Advances the cursor by one byte: `Ok(Some(b))` with the byte now under
    /// the cursor, `Ok(None)` once the input is exhausted, or the overflow
    /// error when the current lexeme has already outgrown the buffer half.
    /// Refills one buffer half from the input when the loaded bytes run out.
    pub fn next_char(&mut self) -> (r: Result<Option<u8>, LexError>)
        requires
            old(self).wf() || old(self).virgin(),
        ensures
            final(self).wf(),
            final(self).input_view() == old(self).input_view(),
            final(self).spec_half() == old(self).spec_half(),
            final(self).spec_dfa() == old(self).spec_dfa(),
            final(self).spec_comment_dfa() == old(self).spec_comment_dfa(),
            final(self).lexeme_start() == old(self).lexeme_start(),
            old(self).at_end() ==> r == Ok::<Option<u8>, LexError>(None) && *final(self) == *old(self),
            !old(self).at_end() && old(self).n() - old(self).lexeme_start() > old(self).spec_half() ==> r == Err::<Option<u8>, LexError>(
                (LexError::LexemeTooLong { row: (old(self).row + 1) as usize, col: old(self).col }),
            ) && final(self).n() == old(self).n() && final(self).at_end() == old(self).at_end(),
            !old(self).at_end() && old(self).n() - old(self).lexeme_start() <= old(self).spec_half() && old(self).n() == old(self).input_view().len() ==> r == Ok::<
                Option<u8>,
                LexError,
            >(None) && final(self).at_end() && final(self).n() == old(self).n(),
            !old(self).at_end() && old(self).n() - old(self).lexeme_start() <= old(self).spec_half() && old(self).n() < old(self).input_view().len() ==> r == Ok::<
                Option<u8>,
                LexError,
            >(Some(old(self).input_view()[old(self).n()])) && !final(self).at_end() && final(self).n() == old(self).n() + 1,
    {
        if self.eof {
            return Ok(None);
        }
        let ghost m = 2 * self.half as int;
        let twoh = 2 * self.half;
        // ring distance from the lexeme start to the read cursor
        let dist = (self.next + twoh - self.init) % twoh;
        proof {
            let a = self.next as int + m - self.init as int;
            let nn = self.n();
            let st = self.start@;
            let d = nn - st;
            lemma_fundamental_div_mod(nn, m);
            lemma_fundamental_div_mod(st, m);
            let qn = nn / m;
            let qs = st / m;
            assert(m * (qs - qn) + (d + m) == a) by (nonlinear_arith)
                requires
                    nn == m * qn + self.next as int,
                    st == m * qs + self.init as int,
                    a == self.next as int + m - self.init as int,
                    d == nn - st,
            ;
            vstd::arithmetic::div_mod::lemma_mod_multiples_vanish(qs - qn, d + m, m);
            vstd::arithmetic::div_mod::lemma_mod_add_multiples_vanish(d, m);
            lemma_small_mod(d as nat, m as nat);
            assert(dist == d);
            lemma_pos_bounds(self.input@, self.n());
        }
        if dist > self.half {
            return Err(LexError::LexemeTooLong { row: self.row + 1, col: self.col });
        }
        if self.avail == 0 {
            if self.pos == self.input.len() {
                self.eof = true;
                return Ok(None);
            }
            self.refill();
        }
        let b = self.buffer[self.next];
        proof {
            lemma_mod_bound(self.n(), m);
            assert(self.buffer@[self.n() % m] == self.input@[self.n()]);
        }
        self.c = b;
        proof {
            lemma_pos_bounds(self.input@, self.n());
        }
        if b == 10 {
            self.row = self.row + 1;
            self.col = 1;
        } else {
            self.col = self.col + 1;
        }
        proof {
            lemma_ring_next(self.n(), m);
        }
        self.next = if self.next + 1 == twoh {
            0
        } else {
            self.next + 1
        };
        self.avail = self.avail - 1;
        Ok(Some(b))
    }

    /// Loads the next stretch of input, up to one buffer half, into the half
    /// the read cursor is about to enter.
    fn refill(&mut self)
        requires
            old(self).wf_base(),
            old(self).avail == 0,
            old(self).pos < old(self).input@.len(),
            old(self).n() - old(self).start@ <= old(self).half,
        ensures
            final(self).wf_base(),
            final(self).input == old(self).input,
            final(self).half == old(self).half,
            final(self).dfa_tokens == old(self).dfa_tokens,
            final(self).dfa_end_comment == old(self).dfa_end_comment,
            final(self).start@ == old(self).start@,
            final(self).eof == old(self).eof,
            final(self).c == old(self).c,
            final(self).next == old(self).next,
            final(self).row == old(self).row,
            final(self).col == old(self).col,
            final(self).n() == old(self).n(),
            final(self).avail >= 1,
    {
        let ghost m = 2 * self.half as int;
        let remaining = self.input.len() - self.pos;
        let k = if self.half < remaining {
            self.half
        } else {
            remaining
        };
        let base = self.next;
        proof {
            // the read cursor sits at a half boundary: pos is a multiple of
            // half, and next is its ring position
            lemma_mod_mod(self.pos as int, self.half as int, 2);
            assert(self.half as int * 2 == m);
            assert((self.pos as int % m) % (self.half as int) == self.pos as int % (
            self.half as int));
            lemma_mod_bound(self.pos as int, m);
            assert(self.pos as int % (self.half as int) == 0);
            assert(self.next as int % (self.half as int) == 0);
            lemma_fundamental_div_mod(self.next as int, self.half as int);
            let q = self.next as int / self.half as int;
            assert(self.next as int == self.half as int * q);
            assert(self.next as int == 0 || self.next as int == self.half as int)
                by (nonlinear_arith)
                requires
                    self.half as int * q == self.next as int,
                    0 <= self.next as int,
                    (self.next as int) < 2 * (self.half as int),
                    self.half >= 1,
            ;
        }
        let ghost b0 = self.buffer@;
        let mut j: usize = 0;
        while j < k
            invariant
                j <= k,
                1 <= k <= self.half,
                k <= self.input@.len() - old(self).pos,
                self.pos == old(self).pos,
                self.avail == old(self).avail,
                self.next == old(self).next,
                self.init == old(self).init,
                self.c == old(self).c,
                self.eof == old(self).eof,
                self.row == old(self).row,
                self.col == old(self).col,
                self.half == old(self).half,
                self.input == old(self).input,
                self.start == old(self).start,
                self.dfa_tokens == old(self).dfa_tokens,
                self.dfa_end_comment == old(self).dfa_end_comment,
                self.buffer@.len() == 2 * self.half,
                base == self.next,
                base as int == old(self).pos as int % m,
                base == 0 || base as int == self.half as int,
                m == 2 * self.half as int,
                forall|l: int| 0 <= l < j as int ==> #[trigger] self.buffer@[base as int + l]
                    == self.input@[old(self).pos as int + l],
                forall|s: int| 0 <= s < m && !(base as int <= s < base as int + j as int)
                    ==> self.buffer@[s] == b0[s],
                b0 == old(self).buffer@,
                old(self).wf_base(),
                old(self).avail == 0,
                old(self).pos < old(self).input@.len(),
                old(self).n() - old(self).start@ <= old(self).half,
            decreases k - j,
        {
            let byte = self.input[self.pos + j];
            self.buffer.set(base + j, byte);
            j = j + 1;
        }
        self.pos = self.pos + k;
        self.avail = k;
        proof {
            let pos0 = old(self).pos as int;
            let s0 = self.start@;
            assert forall|p: int| s0 <= p < self.pos implies self.buffer@[p % m]
                == self.input@[p] by {
                lemma_mod_bound(p, m);
                lemma_small_mod(base as nat, m as nat);
                lemma_fundamental_div_mod(pos0, m);
                if p < pos0 {
                    assert(b0[p % m] == self.input@[p]);
                    if base as int <= p % m < base as int + k as int {
                        let l = p % m - base as int;
                        lemma_ring_shift(base as int, l, m);
                        vstd::arithmetic::div_mod::lemma_mod_multiples_vanish(
                            pos0 / m,
                            base as int + l,
                            m,
                        );
                        assert((pos0 + l) % m == base as int + l);
                        lemma_ring_eq(p, pos0 + l, m);
                        assert(false);
                    }
                } else {
                    let l = p - pos0;
                    lemma_ring_shift(base as int, l, m);
                    vstd::arithmetic::div_mod::lemma_mod_multiples_vanish(
                        pos0 / m,
                        base as int + l,
                        m,
                    );
                    assert(p % m == base as int + l);
                }
            }
            if k == self.half {
                vstd::arithmetic::div_mod::lemma_mod_add_multiples_vanish(
                    old(self).pos as int,
                    self.half as int,
                );
            }
        }
    }

    /// Whether some pattern in the list carries the given attribute.
    pub open spec fn has_use(s: Seq<(T, TokenUses, Regex)>, u: TokenUses) -> bool {
        exists|k: int| 0 <= k < s.len() && (#[trigger] s[k]).1 == u
    }

    /// Builds the scanner over the owned input with a lexeme bound of `half`
    /// bytes: compiles the token automaton and, when an end-of-block-comment
    /// pattern is declared, a second automaton for that pattern alone (the
    /// last such pattern wins). A block-comment start pattern without the
    /// paired end pattern is refused outright; the only other failure is the
    /// automaton state bound. The first byte is read, and the first lexeme
    /// starts at position 0.
    pub fn new(tokens_regexs: &Vec<(T, TokenUses, Regex)>, input: Vec<u8>, half: usize) -> (r:
        Result<LexicalAnalysis<T>, LexError>)
        requires
            2 <= half,
            4 * half <= usize::MAX,
            input@.len() < usize::MAX,
            1 + triples_states(tokens_regexs@) <= i64::MAX,
        ensures
            r matches Ok(la) ==> la.wf() && la.input_view() == input@ && la.cursor() == 0
                && la.lexeme_start() == 0 && la.spec_half() == half && (la.at_end() <==> input@.len()
                == 0) && (Self::has_use(tokens_regexs@, TokenUses::InitBlockComment)
                ==> la.spec_comment_dfa() is Some),
            r matches Ok(la) ==> compiled_from(la.spec_dfa(), tokens_regexs@),
            r matches Ok(la) ==> (la.spec_comment_dfa() is Some <==> Self::has_use(
                tokens_regexs@,
                TokenUses::EndBlockComment,
            )),
            r matches Ok(la) ==> (la.spec_comment_dfa() matches Some(cd) ==> exists|re: Regex|
                #![trigger regex_equiv(re, tokens_regexs@[last_end_index(tokens_regexs@)].2)]
                regex_equiv(re, tokens_regexs@[last_end_index(tokens_regexs@)].2)
                    && compiled_from(cd, seq![(0u32, TokenUses::EndBlockComment, re)])),
            r matches Err(e) ==> e == LexError::MissingEndComment || e == LexError::TooManyStates,
            r == Err::<LexicalAnalysis<T>, LexError>(LexError::TooManyStates) ==> (exists|
                n2: TokensNFA<T>,
                cs: Seq<Seq<i64>>,
            |
                n2.states == 1 + triples_states(tokens_regexs@) && #[trigger] blowup_witness(
                    n2,
                    cs,
                )) || (exists|n2: TokensNFA<u32>, re: Regex, cs: Seq<Seq<i64>>|
                #![trigger blowup_witness(n2, cs), regex_equiv(re, tokens_regexs@[last_end_index(tokens_regexs@)].2)]
                regex_equiv(re, tokens_regexs@[last_end_index(tokens_regexs@)].2) && n2.states == 1
                    + regex_states(re) && blowup_witness(n2, cs)),
            r == Err::<LexicalAnalysis<T>, LexError>(LexError::MissingEndComment) <==> Self::has_use(
                tokens_regexs@,
                TokenUses::InitBlockComment,
            ) && !Self::has_use(tokens_regexs@, TokenUses::EndBlockComment),
    {
        let nt = tokens_regexs.len();
        let mut has_init = false;
        let mut has_end = false;
        let mut end_idx: usize = 0;
        let mut k: usize = 0;
        while k < nt
            invariant
                nt == tokens_regexs@.len(),
                k <= nt,
                has_init <==> exists|l: int|
                    0 <= l < k as int && (#[trigger] tokens_regexs@[l]).1
                        == TokenUses::InitBlockComment,
                has_end <==> exists|l: int|
                    0 <= l < k as int && (#[trigger] tokens_regexs@[l]).1
                        == TokenUses::EndBlockComment,
                has_end ==> end_idx < k && tokens_regexs@[end_idx as int].1
                    == TokenUses::EndBlockComment,
                has_end ==> end_idx as int == last_end_index(
                    tokens_regexs@.subrange(0, k as int),
                ),
                !has_end ==> last_end_index(tokens_regexs@.subrange(0, k as int)) == -1,
            decreases nt - k,
        {
            let u = tokens_regexs[k].1;
            proof {
                assert(tokens_regexs@.subrange(0, k as int + 1).drop_last()
                    =~= tokens_regexs@.subrange(0, k as int));
                assert(tokens_regexs@.subrange(0, k as int + 1)[k as int] == tokens_regexs@[k
                    as int]);
            }
            if u == TokenUses::InitBlockComment {
                has_init = true;
            }
            if u == TokenUses::EndBlockComment {
                has_end = true;
                end_idx = k;
            }
            k = k + 1;
        }
        proof {
            assert(tokens_regexs@.subrange(0, nt as int) =~= tokens_regexs@);
        }
        if has_init && !has_end {
            return Err(LexError::MissingEndComment);
        }
        let dfa_end_comment = if has_end {
            let re = tokens_regexs[end_idx].2.duplicate();
            let ghost gre = re;
            let mut single: Vec<(u32, TokenUses, Regex)> = Vec::new();
            proof {
                lemma_triples_member_bound(tokens_regexs@, end_idx as int);
            }
            single.push((0u32, TokenUses::EndBlockComment, re));
            proof {
                assert(single@.subrange(1, 1) =~= Seq::<(u32, TokenUses, Regex)>::empty());
                assert(triples_states(Seq::<(u32, TokenUses, Regex)>::empty()) == 0);
                assert(triples_states(single@) == regex_states(gre));
                assert(single@ =~= seq![(0u32, TokenUses::EndBlockComment, gre)]);
            }
            match TokensDFA::new(&single) {
                Ok(d) => {
                    proof {
                        assert(regex_equiv(gre, tokens_regexs@[last_end_index(tokens_regexs@)].2));
                        assert(compiled_from(d, seq![(0u32, TokenUses::EndBlockComment, gre)]));
                    }
                    Some(d)
                },
                Err(_) => {
                    return Err(LexError::TooManyStates);
                },
            }
        } else {
            None
        };
        let dfa = match TokensDFA::new(tokens_regexs) {
            Ok(d) => d,
            Err(_) => {
                return Err(LexError::TooManyStates);
            },
        };
        let mut buffer: Vec<u8> = Vec::new();
        let twoh = 2 * half;
        let mut b: usize = 0;
        while b < twoh
            invariant
                b <= twoh,
                buffer@.len() == b as int,
            decreases twoh - b,
        {
            buffer.push(0);
            b = b + 1;
        }
        let empty_input = input.len() == 0;
        let mut la = LexicalAnalysis {
            row: 0,
            col: 0,
            init: 0,
            next: 0,
            c: 0,
            eof: empty_input,
            buffer,
            half,
            avail: 0,
            input,
            pos: 0,
            start: Ghost(0),
            dfa_tokens: dfa,
            dfa_end_comment,
        };
        proof {
            lemma_small_mod(0, (2 * half) as nat);
            lemma_small_mod(0, half as nat);
        }
        if !empty_input {
            proof {
                assert(la.virgin());
            }
            let first = la.next_char();
            proof {
                assert(first is Ok);
            }
        }
        Ok(la)
    }

    /// Produces the next token, or `Ok(None)` at the end of the input.
    /// Maximal munch: the token automaton runs until it gets stuck, and the
    /// state it dies in decides. Matches marked ignore or comment are
    /// skipped and scanning resumes; capture matches carry their bytes.
    /// The result and the new cursor position are exactly what
    /// `spec_next_token` says for the old position.
    pub fn next_token(&mut self) -> (r: Result<Option<Token<T>>, LexError>)
        requires
            old(self).wf(),
            old(self).lexeme_start() == old(self).cursor(),
        ensures
            final(self).wf(),
            final(self).input_view() == old(self).input_view(),
            final(self).spec_half() == old(self).spec_half(),
            final(self).spec_dfa() == old(self).spec_dfa(),
            final(self).spec_comment_dfa() == old(self).spec_comment_dfa(),
            r matches Ok(_) ==> final(self).lexeme_start() == final(self).cursor(),
            match spec_next_token(
                old(self).spec_dfa(),
                old(self).spec_comment_dfa(),
                old(self).input_view(),
                old(self).spec_half() as int,
                old(self).cursor(),
            ) {
                ScanOutcome::End => r == Ok::<Option<Token<T>>, LexError>(None)
                    && final(self).at_end(),
                ScanOutcome::Emit(t, lex, end) => r matches Ok(o) && o matches Some(tok)
                    && tok.t_type == t && (lex matches Some(bs) ==> tok.t_name matches Some(v)
                    && v@ == bs) && (lex is None ==> tok.t_name is None) && final(self).cursor()
                    == end,
                ScanOutcome::Fail(err) => r == Err::<Option<Token<T>>, LexError>(err),
            },
        decreases old(self).input@.len() - old(self).cursor(),
    {
        let ghost d = self.dfa_tokens;
        let ghost cd = self.dfa_end_comment;
        let ghost s = self.input@;
        let ghost i0 = self.cursor();
        let ghost half = self.half as int;
        if self.eof {
            return Ok(None);
        }
        let mut state: i64 = INIT_STATE;
        loop
            invariant_except_break
                self.wf(),
                !self.eof,
                self.dfa_tokens == d,
                self.dfa_end_comment == cd,
                self.input@ == s,
                self.half as int == half,
                d == old(self).dfa_tokens,
                cd == old(self).dfa_end_comment,
                s == old(self).input@,
                half == old(self).half as int,
                i0 == old(self).cursor(),
                0 <= i0 < s.len(),
                0 <= state < d.states,
                self.lexeme_start() == i0,
                i0 <= self.cursor(),
                scan_end(d, s, i0, INIT_STATE) == scan_end(d, s, self.cursor(), state),
                scan_state(d, s, i0, INIT_STATE) == scan_state(d, s, self.cursor(), state),
            ensures
                self.wf(),
                self.dfa_tokens == d,
                self.dfa_end_comment == cd,
                self.input@ == s,
                self.half as int == half,
                d == old(self).dfa_tokens,
                cd == old(self).dfa_end_comment,
                s == old(self).input@,
                half == old(self).half as int,
                i0 == old(self).cursor(),
                0 <= i0 < s.len(),
                0 <= state < d.states,
                self.lexeme_start() == i0,
                i0 <= self.cursor(),
                state == scan_state(d, s, i0, INIT_STATE),
                self.cursor() == scan_end(d, s, i0, INIT_STATE),
                self.cursor() - i0 <= half,
                self.eof <==> self.cursor() == s.len(),
            decreases s.len() - self.cursor(),
        {
            let b = self.c;
            let ns = self.dfa_tokens.transitions[(state as usize) * 256 + (b as usize)];
            proof {
                assert(b == s[self.cursor()]);
                assert(d.step(state, b) == ns);
            }
            if ns == ERROR_STATE {
                proof {
                    assert(scan_end(d, s, self.cursor(), state) == self.cursor());
                    assert(scan_state(d, s, self.cursor(), state) == state);
                }
                break ;
            }
            state = ns;
            let stepped = self.next_char();
            match stepped {
                Result::Err(e) => {
                    proof {
                        lemma_scan_bounds(d, s, i0 + half + 1, state);
                        assert(scan_end(d, s, i0, INIT_STATE) >= i0 + half + 1);
                    }
                    return Err(e);
                },
                Result::Ok(_) => {
                    if self.eof {
                        proof {
                            assert(self.cursor() == s.len() as int);
                            assert(scan_end(d, s, self.cursor(), state) == self.cursor());
                            assert(scan_state(d, s, self.cursor(), state) == state);
                        }
                        break ;
                    }
                },
            }
        }
        let ghost e = self.cursor();
        let ghost q = state;
        proof {
            lemma_pos_bounds(s, if e < s.len() {
                e + 1
            } else {
                e
            });
        }
        let fin = self.dfa_tokens.finals[state as usize];
        match fin.0 {
            Option::None => {
                if self.eof {
                    return Err(LexError::UnexpectedEnd { row: self.row + 1, col: self.col });
                } else {
                    return Err(
                        LexError::UnexpectedByte { row: self.row + 1, col: self.col, byte: self.c },
                    );
                }
            },
            Option::Some(t) => {
                let uses = fin.1;
                proof {
                    // a candidate that accepts is never the initial state, so
                    // at least one byte was consumed
                    if e == i0 {
                        lemma_scan_bounds(d, s, i0, INIT_STATE);
                        assert(q == INIT_STATE);
                        assert(d.finals@[0].0 is None);
                        assert(false);
                    }
                }
                if uses == TokenUses::IgnoreThis {
                    self.set_lexeme_start();
                    proof {
                        assert(forward(i0, e) == e);
                    }
                    return self.next_token();
                } else if uses == TokenUses::InitInlineComment {
                    self.set_lexeme_start();
                    self.handle_inline_comment();
                    proof {
                        lemma_line_end_bounds(s, e);
                        assert(forward(i0, line_end(s, e)) == line_end(s, e));
                    }
                    return self.next_token();
                } else if uses == TokenUses::InitBlockComment {
                    self.set_lexeme_start();
                    let skipped = self.handle_comment();
                    match skipped {
                        Result::Err(er) => {
                            return Err(er);
                        },
                        Result::Ok(_) => {
                            proof {
                                let c = cd->0;
                                let f = comment_final(c.finals@);
                                lemma_skip_bounds(c, f, s, e, INIT_STATE);
                                assert(skip_from(c, f, s, e, INIT_STATE) matches Some(j)
                                    && self.cursor() == j);
                            }
                            return self.next_token();
                        },
                    }
                } else if uses == TokenUses::EndBlockComment {
                    return Err(
                        LexError::CommentEndNotStarted { row: self.row + 1, col: self.col },
                    );
                } else if uses == TokenUses::GetLexeme {
                    let name = self.get_string_buffer();
                    self.set_lexeme_start();
                    return Ok(Some(Token { t_type: t, t_name: Some(name) }));
                } else {
                    self.set_lexeme_start();
                    return Ok(Some(Token { t_type: t, t_name: None }));
                }
            },
        }
    }

    /// Skips a line comment: consumes bytes until the cursor stands on a
    /// newline (which the next scan will see) or the input ends.
    fn handle_inline_comment(&mut self)
        requires
            old(self).wf(),
            old(self).lexeme_start() == old(self).cursor(),
        ensures
            final(self).wf(),
            final(self).input_view() == old(self).input_view(),
            final(self).spec_half() == old(self).spec_half(),
            final(self).spec_dfa() == old(self).spec_dfa(),
            final(self).spec_comment_dfa() == old(self).spec_comment_dfa(),
            final(self).cursor() == line_end(old(self).input_view(), old(self).cursor()),
            final(self).lexeme_start() == final(self).cursor(),
    {
        let ghost s = self.input@;
        let ghost c0 = self.cursor();
        loop
            invariant_except_break
                self.wf(),
                self.input@ == s,
                s == old(self).input@,
                c0 == old(self).cursor(),
                self.half == old(self).half,
                self.dfa_tokens == old(self).dfa_tokens,
                self.dfa_end_comment == old(self).dfa_end_comment,
                self.lexeme_start() == self.cursor(),
                0 <= c0 <= self.cursor() <= s.len(),
                line_end(s, c0) == line_end(s, self.cursor()),
            ensures
                self.wf(),
                self.input@ == s,
                self.half == old(self).half,
                self.dfa_tokens == old(self).dfa_tokens,
                self.dfa_end_comment == old(self).dfa_end_comment,
                self.cursor() == line_end(s, c0),
                self.lexeme_start() == self.cursor(),
            decreases s.len() - self.cursor(),
        {
            if self.eof {
                break ;
            }
            if self.c == 10 {
                break ;
            }
            let stepped = self.next_char();
            proof {
                assert(!(stepped is Err));
            }
            self.set_lexeme_start();
        }
    }

    /// Skips a block comment: runs the comment-end automaton byte by byte,
    /// restarting it after a mismatch, until its accepting state is reached;
    /// fails when no end pattern was configured or the input ends first.
    fn handle_comment(&mut self) -> (r: Result<(), LexError>)
        requires
            old(self).wf(),
            old(self).lexeme_start() == old(self).cursor(),
        ensures
            final(self).wf(),
            final(self).input_view() == old(self).input_view(),
            final(self).spec_half() == old(self).spec_half(),
            final(self).spec_dfa() == old(self).spec_dfa(),
            final(self).spec_comment_dfa() == old(self).spec_comment_dfa(),
            match old(self).spec_comment_dfa() {
                Option::None => r == Err::<(), LexError>(LexError::MissingEndComment),
                Option::Some(c) => {
                    if comment_final(c.finals@) == -1 {
                        r == Err::<(), LexError>(LexError::MissingEndComment)
                    } else {
                        match skip_from(
                            c,
                            comment_final(c.finals@),
                            old(self).input_view(),
                            old(self).cursor(),
                            INIT_STATE,
                        ) {
                            Option::None => r == Err::<(), LexError>(
                                (LexError::UnclosedComment {
                                    row: (spec_row(
                                        old(self).input_view(),
                                        old(self).input_view().len() as int,
                                    ) + 1) as usize,
                                    col: spec_col(
                                        old(self).input_view(),
                                        old(self).input_view().len() as int,
                                    ) as usize,
                                }),
                            ),
                            Option::Some(j) => r == Ok::<(), LexError>(()) && final(self).cursor()
                                == j && final(self).lexeme_start() == j,
                        }
                    }
                },
            },
    {
        let ghost s = self.input@;
        let ghost c0 = self.cursor();
        if self.dfa_end_comment.is_none() {
            return Err(LexError::MissingEndComment);
        }
        let final_state: i64 = {
            let cd = match &self.dfa_end_comment {
                Some(x) => x,
                None => vstd::pervasive::unreached(),
            };
            let nf = cd.finals.len();
            let mut fj: usize = 0;
            let mut fs: i64 = -1;
            proof {
                assert(cd.finals@.subrange(0, 0) =~= Seq::<(Option<u32>, TokenUses)>::empty());
            }
            while fj < nf
                invariant
                    nf == cd.finals@.len(),
                    fj <= nf,
                    nf <= 1048576,
                    fs as int == comment_final(cd.finals@.subrange(0, fj as int)),
                decreases nf - fj,
            {
                proof {
                    assert(cd.finals@.subrange(0, fj as int + 1).drop_last() =~= cd.finals@.subrange(
                        0,
                        fj as int,
                    ));
                    assert(cd.finals@.subrange(0, fj as int + 1)[fj as int] == cd.finals@[fj as int]);
                }
                if cd.finals[fj].0.is_some() {
                    fs = fj as i64;
                }
                fj = fj + 1;
            }
            proof {
                assert(cd.finals@.subrange(0, nf as int) =~= cd.finals@);
            }
            fs
        };
        if final_state == ERROR_STATE {
            return Err(LexError::MissingEndComment);
        }
        let ghost cdg = self.dfa_end_comment->0;
        let ghost f = comment_final(cdg.finals@);
        proof {
            assert(final_state as int == f);
            lemma_comment_final_bounds(cdg.finals@);
        }
        let mut state: i64 = INIT_STATE;
        loop
            invariant
                self.wf(),
                self.input@ == s,
                s == old(self).input@,
                c0 == old(self).cursor(),
                self.half == old(self).half,
                self.dfa_tokens == old(self).dfa_tokens,
                self.dfa_end_comment == old(self).dfa_end_comment,
                self.dfa_end_comment matches Some(x) && x == cdg,
                cdg.wf(),
                self.lexeme_start() == self.cursor(),
                0 <= c0 <= self.cursor() <= s.len(),
                0 <= state < cdg.states,
                final_state as int == f,
                f == comment_final(cdg.finals@),
                0 <= f < cdg.states,
                skip_from(cdg, f, s, c0, INIT_STATE) == skip_from(cdg, f, s, self.cursor(), state),
            decreases s.len() - self.cursor(), (if state == 0 {
                0int
            } else {
                1int
            }),
        {
            if state == final_state {
                proof {
                    assert(skip_from(cdg, f, s, self.cursor(), state) == Some(self.cursor()));
                    assert(old(self).spec_comment_dfa() == Some(cdg));
                    assert(comment_final(cdg.finals@) == f && f != -1);
                    assert(skip_from(cdg, f, s, c0, INIT_STATE) == Some(self.cursor()));
                    assert(self.lexeme_start() == self.cursor());
                }
                return Ok(());
            }
            if self.eof {
                proof {
                    assert(skip_from(cdg, f, s, self.cursor(), state) is None);
                    lemma_pos_bounds(s, s.len() as int);
                }
                return Err(LexError::UnclosedComment { row: self.row + 1, col: self.col });
            }
            let b = self.c;
            let ns = {
                match &self.dfa_end_comment {
                    Some(cd) => cd.transitions[(state as usize) * 256 + (b as usize)],
                    None => vstd::pervasive::unreached(),
                }
            };
            proof {
                assert(cdg.step(state, s[self.cursor()]) == ns);
            }
            if ns == ERROR_STATE {
                if state == INIT_STATE {
                    let stepped = self.next_char();
                    proof {
                        assert(!(stepped is Err));
                    }
                    self.set_lexeme_start();
                } else {
                    state = INIT_STATE;
                }
            } else {
                state = ns;
                let stepped = self.next_char();
                proof {
                    assert(!(stepped is Err));
                }
                self.set_lexeme_start();
            }
        }
    }

    /// Starts a fresh lexeme at the byte under the cursor.
    fn set_lexeme_start(&mut self)
        requires
            old(self).wf(),
        ensures
            final(self).wf(),
            final(self).input == old(self).input,
            final(self).half == old(self).half,
            final(self).dfa_tokens == old(self).dfa_tokens,
            final(self).dfa_end_comment == old(self).dfa_end_comment,
            final(self).eof == old(self).eof,
            final(self).c == old(self).c,
            final(self).row == old(self).row,
            final(self).col == old(self).col,
            final(self).n() == old(self).n(),
            final(self).cursor() == old(self).cursor(),
            final(self).lexeme_start() == old(self).cursor(),
    {
        let ghost m = 2 * self.half as int;
        let twoh = 2 * self.half;
        if self.eof {
            self.init = self.next;
            self.start = Ghost(self.n());
        } else {
            let ni = (self.next + twoh - 1) % twoh;
            proof {
                let nn = self.n();
                lemma_fundamental_div_mod(nn, m);
                let qn = nn / m;
                assert(m * (0 - qn) + ((nn - 1) + m) == self.next as int + m - 1)
                    by (nonlinear_arith)
                    requires
                        nn == m * qn + self.next as int,
                ;
                vstd::arithmetic::div_mod::lemma_mod_multiples_vanish(0 - qn, (nn - 1) + m, m);
                vstd::arithmetic::div_mod::lemma_mod_add_multiples_vanish(nn - 1, m);
                assert((self.next as int + m - 1) % m == (nn - 1) % m);
            }
            self.init = ni;
            self.start = Ghost(self.n() - 1);
        }
    }

    /// The bytes of the current lexeme: the input from the lexeme start up
    /// to, not including, the byte under the cursor.
    fn get_string_buffer(&self) -> (r: Vec<u8>)
        requires
            self.wf(),
            self.lexeme_start() <= self.cursor(),
            self.cursor() - self.lexeme_start() <= self.spec_half(),
        ensures
            r@ == self.input@.subrange(self.lexeme_start(), self.cursor()),
    {
        let ghost m = 2 * self.half as int;
        let twoh = 2 * self.half;
        let length = if self.eof {
            (self.next + twoh - self.init) % twoh
        } else {
            (self.next + twoh - 1 - self.init) % twoh
        };
        proof {
            let a = if self.eof {
                self.next as int + m - self.init as int
            } else {
                self.next as int + m - 1 - self.init as int
            };
            let nn = self.n();
            let st = self.start@;
            let d = self.cursor() - st;
            lemma_fundamental_div_mod(nn, m);
            lemma_fundamental_div_mod(st, m);
            let qn = nn / m;
            let qs = st / m;
            assert(m * (qs - qn) + (d + m) == a) by (nonlinear_arith)
                requires
                    nn == m * qn + self.next as int,
                    st == m * qs + self.init as int,
                    a == if self.eof {
                        self.next as int + m - self.init as int
                    } else {
                        self.next as int + m - 1 - self.init as int
                    },
                    d == if self.eof {
                        nn - st
                    } else {
                        nn - 1 - st
                    },
            ;
            vstd::arithmetic::div_mod::lemma_mod_multiples_vanish(qs - qn, d + m, m);
            vstd::arithmetic::div_mod::lemma_mod_add_multiples_vanish(d, m);
            lemma_small_mod(d as nat, m as nat);
            assert(length as int == d);
        }
        let mut buf: Vec<u8> = Vec::new();
        let mut j = self.init;
        let mut cnt: usize = 0;
        proof {
            assert(self.input@.subrange(self.start@, self.start@) =~= buf@);
        }
        while cnt < length
            invariant
                self.wf(),
                self.lexeme_start() <= self.cursor(),
                length == self.cursor() - self.start@,
                length <= self.half,
                cnt <= length,
                m == 2 * self.half as int,
                twoh == 2 * self.half,
                j as int == (self.start@ + cnt) % m,
                buf@ == self.input@.subrange(self.start@, self.start@ + cnt as int),
            decreases length - cnt,
        {
            proof {
                lemma_mod_bound(self.start@ + cnt, m);
                assert(self.start@ + cnt < self.pos);
                assert(self.buffer@[(self.start@ + cnt as int) % m] == self.input@[self.start@
                    + cnt as int]);
            }
            let b = self.buffer[j];
            buf.push(b);
            proof {
                lemma_ring_next(self.start@ + cnt, m);
                assert(self.input@.subrange(self.start@, self.start@ + cnt + 1)
                    =~= self.input@.subrange(self.start@, self.start@ + cnt as int).push(
                    self.input@[self.start@ + cnt as int],
                ));
            }
            j = if j + 1 == twoh {
                0
            } else {
                j + 1
            };
            cnt = cnt + 1;
        }
        buf
    }
}


/// What one request for a token yields: the end of the input, a token (its
/// symbol, its captured bytes if any, and the cursor position after it), or
/// an error.
pub enum ScanOutcome<T> {
    End,
    Emit(T, Option<Seq<u8>>, int),
    Fail(LexError),
}

/// Position where the automaton run that starts at `i` in state `q` gets
/// stuck: the first position whose byte has no move, or the input end.
pub open spec fn scan_end<T: Copy>(d: TokensDFA<T>, s: Seq<u8>, i: int, q: i64) -> int
    decreases s.len() - i,
{
    if i < 0 || i >= s.len() {
        i
    } else if d.step(q, s[i]) == ERROR_STATE {
        i
    } else {
        scan_end(d, s, i + 1, d.step(q, s[i]))
    }
}

/// State the automaton is in when it gets stuck: the maximal-munch candidate.
pub open spec fn scan_state<T: Copy>(d: TokensDFA<T>, s: Seq<u8>, i: int, q: i64) -> i64
    decreases s.len() - i,
{
    if i < 0 || i >= s.len() {
        q
    } else if d.step(q, s[i]) == ERROR_STATE {
        q
    } else {
        scan_state(d, s, i + 1, d.step(q, s[i]))
    }
}

pub proof fn lemma_scan_bounds<T: Copy>(d: TokensDFA<T>, s: Seq<u8>, i: int, q: i64)
    requires
        0 <= i <= s.len(),
    ensures
        i <= scan_end(d, s, i, q) <= s.len(),
        scan_end(d, s, i, q) == i ==> scan_state(d, s, i, q) == q,
    decreases s.len() - i,
{
    if i < s.len() && d.step(q, s[i]) != ERROR_STATE {
        lemma_scan_bounds(d, s, i + 1, d.step(q, s[i]));
    }
}

/// Restarting a run on the corresponding suffix changes nothing.
proof fn lemma_run_from_shift<T: Copy>(d: TokensDFA<T>, s: Seq<u8>, i: int, j: int, k: int, q: i64)
    requires
        0 <= i <= s.len(),
        i <= j <= s.len(),
        0 <= k <= j - i,
    ensures
        d.run_from(s.subrange(i, j), k, q) == d.run_from(s.subrange(i + k, j), 0, q),
    decreases j - i - k,
{
    let s1 = s.subrange(i, j);
    let s2 = s.subrange(i + k, j);
    if k >= j - i || q == ERROR_STATE {
        assert(d.run_from(s1, k, q) == q);
        assert(d.run_from(s2, 0, q) == q);
    } else {
        assert(s1[k] == s[i + k] && s2[0] == s[i + k]);
        lemma_run_from_shift(d, s, i, j, k + 1, d.step(q, s[i + k]));
        assert(d.run_from(s2, 0, q) == d.run_from(s2, 1, d.step(q, s2[0])));
        assert(s2.subrange(1, s2.len() as int) =~= s.subrange(i + k + 1, j));
        lemma_run_from_shift(d, s, i + k, j, 1, d.step(q, s[i + k]));
        lemma_run_from_shift(d, s, i + k + 1, j, 0, d.step(q, s[i + k]));
    }
}

/// Maximal munch: a run over `s[i..j]` survives exactly when `j` does not
/// pass the scan end, so the scanner's candidate stands at the longest
/// prefix any match could reach.
pub proof fn lemma_scan_end_maximal<T: Copy>(d: TokensDFA<T>, s: Seq<u8>, i: int, j: int, q: i64)
    requires
        0 <= i <= j <= s.len(),
        q != ERROR_STATE,
    ensures
        d.run_from(s.subrange(i, j), 0, q) != ERROR_STATE <==> j <= scan_end(d, s, i, q),
    decreases j - i,
{
    let s1 = s.subrange(i, j);
    if i == j {
        assert(d.run_from(s1, 0, q) == q);
        lemma_scan_bounds(d, s, i, q);
    } else {
        assert(s1[0] == s[i]);
        let q2 = d.step(q, s[i]);
        if q2 == ERROR_STATE {
            assert(scan_end(d, s, i, q) == i);
            assert(d.run_from(s1, 0, q) == d.run_from(s1, 1, q2));
            assert(d.run_from(s1, 1, q2) == ERROR_STATE);
        } else {
            assert(d.run_from(s1, 0, q) == d.run_from(s1, 1, q2));
            lemma_run_from_shift(d, s, i, j, 1, q2);
            lemma_scan_end_maximal(d, s, i + 1, j, q2);
            assert(scan_end(d, s, i, q) == scan_end(d, s, i + 1, q2));
        }
    }
}

/// Maximal munch against the source automaton: whenever some accepting
/// state of a compiled table's source automaton is reachable over
/// `s[i..j]`, the scanner's candidate position lies at `j` or beyond - no
/// registered pattern matches a prefix longer than the one the scan stops
/// at.
pub proof fn lemma_match_within_scan<T: Copy>(d: TokensDFA<T>, s: Seq<u8>, i: int, j: int, f: i64)
    requires
        d.wf(),
        subset_construction_ok(d.source@, d.transitions@, d.classes@, d.states as int),
        0 <= i <= j <= s.len(),
        d.source@.reaches(s.subrange(i, j), 0, INIT_STATE, f),
    ensures
        j <= scan_end(d, s, i, INIT_STATE),
{
    let sub = s.subrange(i, j);
    d.lemma_run_tracks_reachability(sub, 0, INIT_STATE);
    assert(d.classes@[0].contains(INIT_STATE)) by {
        assert(d.classes@[0][0] == INIT_STATE);
    }
    assert(d.run_from(sub, 0, INIT_STATE) != ERROR_STATE);
    lemma_scan_end_maximal(d, s, i, j, INIT_STATE);
}

/// The candidate state the scan dies in is the run over exactly the
/// consumed prefix.
proof fn lemma_scan_state_is_run<T: Copy>(d: TokensDFA<T>, s: Seq<u8>, i: int, q: i64)
    requires
        0 <= i <= s.len(),
        q != ERROR_STATE,
    ensures
        scan_state(d, s, i, q) == d.run_from(s.subrange(i, scan_end(d, s, i, q)), 0, q),
    decreases s.len() - i,
{
    let e = scan_end(d, s, i, q);
    lemma_scan_bounds(d, s, i, q);
    if i >= s.len() || d.step(q, s[i]) == ERROR_STATE {
        assert(s.subrange(i, i) =~= Seq::<u8>::empty());
        assert(d.run_from(Seq::<u8>::empty(), 0, q) == q);
    } else {
        let q2 = d.step(q, s[i]);
        lemma_scan_bounds(d, s, i + 1, q2);
        assert(e == scan_end(d, s, i + 1, q2));
        lemma_scan_state_is_run(d, s, i + 1, q2);
        let sub = s.subrange(i, e);
        assert(i + 1 <= e);
        assert(sub[0] == s[i]);
        assert(d.run_from(sub, 0, q) == d.run_from(sub, 1, q2));
        lemma_run_from_shift(d, s, i, e, 1, q2);
    }
}

/// Longest match, named part: the token the scanner's candidate state
/// carries is of the first declared pattern whose accepting state the
/// source automaton reaches over exactly the consumed lexeme; together with
/// `lemma_match_within_scan`, no registered pattern reaches an accepting
/// state over any longer prefix.
pub proof fn lemma_scan_token_first_match<T: Copy>(
    d: TokensDFA<T>,
    patterns: Seq<(T, TokenUses, Regex)>,
    s: Seq<u8>,
    i: int,
)
    requires
        compiled_from(d, patterns),
        0 <= i <= s.len(),
    ensures
        d.token_at(scan_state(d, s, i, INIT_STATE)) matches Some(t) ==> (exists|k: int|
            0 <= k < d.source@.finals@.len() && t == (#[trigger] d.source@.finals@[k]).0
                && d.source@.reaches(
                s.subrange(i, scan_end(d, s, i, INIT_STATE)),
                0,
                INIT_STATE,
                d.source@.finals@[k].2,
            ) && (forall|k2: int|
                0 <= k2 < k ==> !d.source@.reaches(
                    s.subrange(i, scan_end(d, s, i, INIT_STATE)),
                    0,
                    INIT_STATE,
                    (#[trigger] d.source@.finals@[k2]).2,
                ))),
{
    let e = scan_end(d, s, i, INIT_STATE);
    let q = scan_state(d, s, i, INIT_STATE);
    lemma_scan_state_is_run(d, s, i, INIT_STATE);
    let sub = s.subrange(i, e);
    assert(d.spec_test(sub) == d.token_at(q));
    d.lemma_compiled_first_match(patterns, sub);
}

/// First newline at or after `i`, or the input end.
pub open spec fn line_end(s: Seq<u8>, i: int) -> int
    decreases s.len() - i,
{
    if i < 0 || i >= s.len() {
        s.len() as int
    } else if s[i] == 10 {
        i
    } else {
        line_end(s, i + 1)
    }
}

pub proof fn lemma_line_end_bounds(s: Seq<u8>, i: int)
    requires
        0 <= i <= s.len(),
    ensures
        i <= line_end(s, i) <= s.len(),
    decreases s.len() - i,
{
    if i < s.len() && s[i] != 10 {
        lemma_line_end_bounds(s, i + 1);
    }
}

/// The accepting state of the comment-end automaton: the last state recorded
/// as accepting, or the error sink when none is.
pub open spec fn comment_final(f: Seq<(Option<u32>, TokenUses)>) -> int
    decreases f.len(),
{
    if f.len() == 0 {
        -1
    } else if f[f.len() - 1].0 is Some {
        f.len() - 1
    } else {
        comment_final(f.drop_last())
    }
}

pub proof fn lemma_comment_final_bounds(f: Seq<(Option<u32>, TokenUses)>)
    ensures
        comment_final(f) == -1 || 0 <= comment_final(f) < f.len(),
    decreases f.len(),
{
    if f.len() > 0 && !(f[f.len() - 1].0 is Some) {
        lemma_comment_final_bounds(f.drop_last());
    }
}

/// Position right after the first completed occurrence of the comment-end
/// pattern, scanning one byte at a time from `i` in state `q` and restarting
/// at the error sink; `None` when the input ends first. The restart forgets
/// the consumed prefix, so for an end pattern that overlaps itself an
/// occurrence straddling a mismatch can be passed over; patterns whose
/// automaton dies only on their own first byte are matched exactly.
pub open spec fn skip_from(
    cd: TokensDFA<u32>,
    fstate: int,
    s: Seq<u8>,
    i: int,
    q: i64,
) -> Option<int>
    decreases
            s.len() - i,
            (if q == 0 {
                0int
            } else {
                1int
            }),
{
    if q == fstate {
        Some(i)
    } else if i < 0 || i >= s.len() {
        None
    } else {
        let q2 = cd.step(q, s[i]);
        if q2 == ERROR_STATE {
            if q == 0 {
                skip_from(cd, fstate, s, i + 1, 0)
            } else {
                skip_from(cd, fstate, s, i, 0)
            }
        } else {
            skip_from(cd, fstate, s, i + 1, q2)
        }
    }
}

pub proof fn lemma_skip_bounds(cd: TokensDFA<u32>, fstate: int, s: Seq<u8>, i: int, q: i64)
    requires
        0 <= i <= s.len(),
    ensures
        skip_from(cd, fstate, s, i, q) matches Some(j) ==> i <= j <= s.len(),
    decreases
            s.len() - i,
            (if q == 0 {
                0int
            } else {
                1int
            }),
{
    if q != fstate && 0 <= i < s.len() {
        let q2 = cd.step(q, s[i]);
        if q2 == ERROR_STATE {
            if q == 0 {
                lemma_skip_bounds(cd, fstate, s, i + 1, 0);
            } else {
                lemma_skip_bounds(cd, fstate, s, i, 0);
            }
        } else {
            lemma_skip_bounds(cd, fstate, s, i + 1, q2);
        }
    }
}

/// The position a skipping step hands the scanner, forced strictly forward.
/// A well-formed token automaton never accepts an empty lexeme, so the forcing
/// changes nothing at run time; it keeps the definition below well-founded on
/// arbitrary tables.
pub open spec fn forward(i: int, j: int) -> int {
    if j > i {
        j
    } else {
        i + 1
    }
}

/// What the scanner's next request yields, starting at position `i`: the
/// maximal-munch scan runs the token automaton until it gets stuck; the state
/// it dies in decides between a token, a skip (ignored match, line comment,
/// block comment) after which scanning resumes, and an error. Lexemes are
/// bounded by `half` bytes. Rows and columns in errors are those of the
/// consumed prefix, rows reported 1-based.
pub open spec fn spec_next_token<T: Copy>(
    d: TokensDFA<T>,
    cd: Option<TokensDFA<u32>>,
    s: Seq<u8>,
    half: int,
    i: int,
) -> ScanOutcome<T>
    decreases s.len() - i,
    via spec_next_token_dec::<T>
{
    if i < 0 || i >= s.len() {
        ScanOutcome::End
    } else {
        let e = scan_end(d, s, i, INIT_STATE);
        let q = scan_state(d, s, i, INIT_STATE);
        if e - i > half {
            ScanOutcome::Fail(
                (LexError::LexemeTooLong {
                    row: (spec_row(s, i + half + 1) + 1) as usize,
                    col: spec_col(s, i + half + 1) as usize,
                }),
            )
        } else {
            match d.token_at(q) {
                Option::None => {
                    if e < s.len() {
                        ScanOutcome::Fail(
                            (LexError::UnexpectedByte {
                                row: (spec_row(s, e + 1) + 1) as usize,
                                col: spec_col(s, e + 1) as usize,
                                byte: s[e],
                            }),
                        )
                    } else {
                        ScanOutcome::Fail(
                            (LexError::UnexpectedEnd {
                                row: (spec_row(s, e) + 1) as usize,
                                col: spec_col(s, e) as usize,
                            }),
                        )
                    }
                },
                Option::Some(t) => {
                    let uses = d.finals@[q as int].1;
                    if uses == TokenUses::IgnoreThis {
                        spec_next_token(d, cd, s, half, forward(i, e))
                    } else if uses == TokenUses::InitInlineComment {
                        spec_next_token(d, cd, s, half, forward(i, line_end(s, e)))
                    } else if uses == TokenUses::InitBlockComment {
                        match cd {
                            Option::None => ScanOutcome::Fail(LexError::MissingEndComment),
                            Option::Some(c) => {
                                let f = comment_final(c.finals@);
                                if f == -1 {
                                    ScanOutcome::Fail(LexError::MissingEndComment)
                                } else {
                                    match skip_from(c, f, s, e, INIT_STATE) {
                                        Option::None => ScanOutcome::Fail(
                                            (LexError::UnclosedComment {
                                                row: (spec_row(s, s.len() as int) + 1) as usize,
                                                col: spec_col(s, s.len() as int) as usize,
                                            }),
                                        ),
                                        Option::Some(j) => spec_next_token(
                                            d,
                                            cd,
                                            s,
                                            half,
                                            forward(i, j),
                                        ),
                                    }
                                }
                            },
                        }
                    } else if uses == TokenUses::EndBlockComment {
                        ScanOutcome::Fail(
                            (LexError::CommentEndNotStarted {
                                row: (spec_row(s, if e < s.len() {
                                    e + 1
                                } else {
                                    e
                                }) + 1) as usize,
                                col: spec_col(s, if e < s.len() {
                                    e + 1
                                } else {
                                    e
                                }) as usize,
                            }),
                        )
                    } else if uses == TokenUses::GetLexeme {
                        ScanOutcome::Emit(t, Some(s.subrange(i, e)), e)
                    } else {
                        ScanOutcome::Emit(t, None, e)
                    }
                },
            }
        }
    }
}

#[via_fn]
proof fn spec_next_token_dec<T: Copy>(
    d: TokensDFA<T>,
    cd: Option<TokensDFA<u32>>,
    s: Seq<u8>,
    half: int,
    i: int,
) {
    if 0 <= i < s.len() {
        let e = scan_end(d, s, i, INIT_STATE);
        lemma_scan_bounds(d, s, i, INIT_STATE);
        lemma_line_end_bounds(s, e);
        match cd {
            Option::Some(c) => {
                let f = comment_final(c.finals@);
                lemma_skip_bounds(c, f, s, e, INIT_STATE);
            },
            Option::None => {},
        }
    }
}

/// The buffer half size does not influence tokenization: two bounds that
/// both accommodate every maximal-munch scan of the input give identical
/// outcomes at every position. Refilling the ring buffer in halves of any
/// sufficient size therefore tokenizes exactly like reading the input whole.
pub proof fn lemma_half_size_irrelevant<T: Copy>(
    d: TokensDFA<T>,
    cd: Option<TokensDFA<u32>>,
    s: Seq<u8>,
    h1: int,
    h2: int,
    i: int,
)
    requires
        forall|j: int| 0 <= j <= s.len() ==> #[trigger] scan_end(d, s, j, INIT_STATE) - j <= h1,
        forall|j: int| 0 <= j <= s.len() ==> #[trigger] scan_end(d, s, j, INIT_STATE) - j <= h2,
    ensures
        spec_next_token(d, cd, s, h1, i) == spec_next_token(d, cd, s, h2, i),
    decreases s.len() - i,
{
    if 0 <= i < s.len() {
        let e = scan_end(d, s, i, INIT_STATE);
        let q = scan_state(d, s, i, INIT_STATE);
        lemma_scan_bounds(d, s, i, INIT_STATE);
        match d.token_at(q) {
            Option::None => {},
            Option::Some(t) => {
                let uses = d.finals@[q as int].1;
                if uses == TokenUses::IgnoreThis {
                    lemma_half_size_irrelevant(d, cd, s, h1, h2, forward(i, e));
                } else if uses == TokenUses::InitInlineComment {
                    lemma_line_end_bounds(s, e);
                    lemma_half_size_irrelevant(d, cd, s, h1, h2, forward(i, line_end(s, e)));
                } else if uses == TokenUses::InitBlockComment {
                    match cd {
                        Option::None => {},
                        Option::Some(c) => {
                            let f = comment_final(c.finals@);
                            if f != -1 {
                                lemma_skip_bounds(c, f, s, e, INIT_STATE);
                                match skip_from(c, f, s, e, INIT_STATE) {
                                    Option::None => {},
                                    Option::Some(j) => {
                                        lemma_half_size_irrelevant(
                                            d,
                                            cd,
                                            s,
                                            h1,
                                            h2,
                                            forward(i, j),
                                        );
                                    },
                                }
                            }
                        },
                    }
                }
            },
        }
    }
}

} // verus!
