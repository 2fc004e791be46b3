use vstd::prelude::*;

verus! {

broadcast use vstd::std_specs::vec::axiom_vec_index_decreases;

/// Abstract syntax of the regular expressions the scanner generator accepts:
/// concatenation, alternation, zero-or-more repetition, a literal byte
/// string, a single byte, and the empty word.
#[derive(Debug)]
#[verifier::ext_equal]
pub enum Regex {
    Concat(Vec<Regex>),
    Union(Vec<Regex>),
    Repeat(Box<Regex>),
    Word(Vec<u8>),
    Char(u8),
    Empty,
}

/// The number of fresh automaton states the builder allocates when it lowers
/// this pattern (concatenation allocates what its parts do; alternation one
/// join state more; repetition reuses its entry; a word one state per byte).
pub open spec fn regex_states(r: Regex) -> int
    decreases r, 0int,
    via regex_states_dec
{
    match r {
        Regex::Concat(rs) => seq_states(rs@),
        Regex::Union(rs) => 1 + seq_states(rs@),
        Regex::Repeat(inner) => regex_states(*inner),
        Regex::Word(w) => w@.len() as int,
        Regex::Char(_) => 1,
        Regex::Empty => 1,
    }
}

/// Total state allocation of a sequence of patterns.
pub open spec fn seq_states(s: Seq<Regex>) -> int
    decreases s, 1int,
{
    if s.len() == 0 {
        0
    } else {
        regex_states(s[0]) + seq_states(s.subrange(1, s.len() as int))
    }
}

#[via_fn]
proof fn regex_states_dec(r: Regex) {
    match r {
        Regex::Concat(rs) => {
            assert(decreases_to!(r => r->Concat_0));
            assert(decreases_to!(rs => rs@));
        },
        Regex::Union(rs) => {
            assert(decreases_to!(r => r->Union_0));
            assert(decreases_to!(rs => rs@));
        },
        _ => {},
    }
}

pub proof fn lemma_regex_states_nonneg(r: Regex)
    ensures
        regex_states(r) >= 0,
    decreases r, 0int,
{
    match r {
        Regex::Concat(rs) => {
            assert(decreases_to!(r => r->Concat_0));
            assert(decreases_to!(rs => rs@));
            lemma_seq_states_nonneg(rs@);
        },
        Regex::Union(rs) => {
            assert(decreases_to!(r => r->Union_0));
            assert(decreases_to!(rs => rs@));
            lemma_seq_states_nonneg(rs@);
        },
        Regex::Repeat(inner) => {
            lemma_regex_states_nonneg(*inner);
        },
        _ => {},
    }
}

pub proof fn lemma_seq_states_nonneg(s: Seq<Regex>)
    ensures
        seq_states(s) >= 0,
    decreases s, 1int,
{
    if s.len() > 0 {
        lemma_regex_states_nonneg(s[0]);
        lemma_seq_states_nonneg(s.subrange(1, s.len() as int));
    }
}

/// Splitting off the head of the remaining patterns splits their total
/// allocation.
pub proof fn lemma_seq_states_skip(s: Seq<Regex>, i: int)
    requires
        0 <= i < s.len(),
    ensures
        seq_states(s.subrange(i, s.len() as int)) == regex_states(s[i]) + seq_states(
            s.subrange(i + 1, s.len() as int),
        ),
{
    let tail = s.subrange(i, s.len() as int);
    assert(tail[0] == s[i]);
    assert(tail.subrange(1, tail.len() as int) =~= s.subrange(i + 1, s.len() as int));
}

/// The number of byte-labelled transitions the builder records when it
/// lowers this pattern: one per literal byte; joins and the empty word add
/// none of their own.
pub open spec fn regex_edges(r: Regex) -> int
    decreases r, 0int,
    via regex_edges_dec
{
    match r {
        Regex::Concat(rs) => seq_edges(rs@),
        Regex::Union(rs) => seq_edges(rs@),
        Regex::Repeat(inner) => regex_edges(*inner),
        Regex::Word(w) => w@.len() as int,
        Regex::Char(_) => 1,
        Regex::Empty => 0,
    }
}

/// Total transition count of a sequence of patterns.
pub open spec fn seq_edges(s: Seq<Regex>) -> int
    decreases s, 1int,
{
    if s.len() == 0 {
        0
    } else {
        regex_edges(s[0]) + seq_edges(s.subrange(1, s.len() as int))
    }
}

#[via_fn]
proof fn regex_edges_dec(r: Regex) {
    match r {
        Regex::Concat(rs) => {
            assert(decreases_to!(r => r->Concat_0));
            assert(decreases_to!(rs => rs@));
        },
        Regex::Union(rs) => {
            assert(decreases_to!(r => r->Union_0));
            assert(decreases_to!(rs => rs@));
        },
        _ => {},
    }
}

pub proof fn lemma_regex_edges_nonneg(r: Regex)
    ensures
        regex_edges(r) >= 0,
    decreases r, 0int,
{
    match r {
        Regex::Concat(rs) => {
            assert(decreases_to!(r => r->Concat_0));
            assert(decreases_to!(rs => rs@));
            lemma_seq_edges_nonneg(rs@);
        },
        Regex::Union(rs) => {
            assert(decreases_to!(r => r->Union_0));
            assert(decreases_to!(rs => rs@));
            lemma_seq_edges_nonneg(rs@);
        },
        Regex::Repeat(inner) => {
            lemma_regex_edges_nonneg(*inner);
        },
        _ => {},
    }
}

pub proof fn lemma_seq_edges_nonneg(s: Seq<Regex>)
    ensures
        seq_edges(s) >= 0,
    decreases s, 1int,
{
    if s.len() > 0 {
        lemma_regex_edges_nonneg(s[0]);
        lemma_seq_edges_nonneg(s.subrange(1, s.len() as int));
    }
}

/// Splitting off the head of the remaining patterns splits their total
/// transition count.
pub proof fn lemma_seq_edges_skip(s: Seq<Regex>, i: int)
    requires
        0 <= i < s.len(),
    ensures
        seq_edges(s.subrange(i, s.len() as int)) == regex_edges(s[i]) + seq_edges(
            s.subrange(i + 1, s.len() as int),
        ),
{
    let tail = s.subrange(i, s.len() as int);
    assert(tail[0] == s[i]);
    assert(tail.subrange(1, tail.len() as int) =~= s.subrange(i + 1, s.len() as int));
}

/// Patterns with pointwise equal allocation have equal total allocation.
pub proof fn lemma_seq_states_pointwise(a: Seq<Regex>, b: Seq<Regex>)
    requires
        a.len() == b.len(),
        forall|i: int| 0 <= i < a.len() ==> regex_states(#[trigger] a[i]) == regex_states(b[i]),
    ensures
        seq_states(a) == seq_states(b),
    decreases a.len(),
{
    if a.len() > 0 {
        assert(a.subrange(1, a.len() as int).len() == b.subrange(1, b.len() as int).len());
        lemma_seq_states_pointwise(a.subrange(1, a.len() as int), b.subrange(1, b.len() as int));
    }
}

/// Structural equivalence of patterns: the same shape with the same bytes.
/// Two equivalent patterns are interchangeable to the automaton builder.
pub open spec fn regex_equiv(a: Regex, b: Regex) -> bool
    decreases a, 0int,
    via regex_equiv_dec
{
    match (a, b) {
        (Regex::Concat(x), Regex::Concat(y)) => seq_regex_equiv(x@, y@),
        (Regex::Union(x), Regex::Union(y)) => seq_regex_equiv(x@, y@),
        (Regex::Repeat(p), Regex::Repeat(q)) => regex_equiv(*p, *q),
        (Regex::Word(x), Regex::Word(y)) => x@ == y@,
        (Regex::Char(c), Regex::Char(d)) => c == d,
        (Regex::Empty, Regex::Empty) => true,
        _ => false,
    }
}

/// Pointwise structural equivalence of pattern sequences.
pub open spec fn seq_regex_equiv(x: Seq<Regex>, y: Seq<Regex>) -> bool
    decreases x, 1int,
{
    if x.len() != y.len() {
        false
    } else if x.len() == 0 {
        true
    } else {
        regex_equiv(x[0], y[0]) && seq_regex_equiv(
            x.subrange(1, x.len() as int),
            y.subrange(1, y.len() as int),
        )
    }
}

#[via_fn]
proof fn regex_equiv_dec(a: Regex, b: Regex) {
    match a {
        Regex::Concat(rs) => {
            assert(decreases_to!(a => a->Concat_0));
            assert(decreases_to!(rs => rs@));
        },
        Regex::Union(rs) => {
            assert(decreases_to!(a => a->Union_0));
            assert(decreases_to!(rs => rs@));
        },
        _ => {},
    }
}

/// Pointwise equivalent sequences are equivalent as wholes.
pub proof fn lemma_seq_regex_equiv_pointwise(x: Seq<Regex>, y: Seq<Regex>)
    requires
        x.len() == y.len(),
        forall|i: int| 0 <= i < x.len() ==> regex_equiv(#[trigger] x[i], y[i]),
    ensures
        seq_regex_equiv(x, y),
    decreases x.len(),
{
    if x.len() > 0 {
        assert(x.subrange(1, x.len() as int).len() == y.subrange(1, y.len() as int).len());
        lemma_seq_regex_equiv_pointwise(
            x.subrange(1, x.len() as int),
            y.subrange(1, y.len() as int),
        );
    }
}

impl Regex {
    /// Structural deep copy; the automaton builder consumes patterns, so a
    /// pattern reused across several token definitions is copied first. The
    /// copy is structurally equivalent to the original, and allocates exactly
    /// as many automaton states.
    pub fn duplicate(&self) -> (r: Regex)
        ensures
            regex_equiv(r, *self),
            regex_states(r) == regex_states(*self),
        decreases *self,
    {
        match self {
            Regex::Concat(regexs) => {
                let mut v: Vec<Regex> = Vec::new();
                let mut i: usize = 0;
                while i < regexs.len()
                    invariant
                        i <= regexs@.len(),
                        v@.len() == i as int,
                        forall|j: int| 0 <= j < i as int ==> regex_states(#[trigger] v@[j])
                            == regex_states(regexs@[j]),
                        forall|j: int| 0 <= j < i as int ==> regex_equiv(#[trigger] v@[j],
                        regexs@[j]),
                        *self == Regex::Concat(*regexs),
                    decreases regexs@.len() - i,
                {
                    proof {
                        assert(decreases_to!(*self => self->Concat_0));
                        assert(decreases_to!(*regexs => regexs@));
                        assert(decreases_to!(regexs@ => regexs@[i as int]));
                    }
                    v.push(regexs[i].duplicate());
                    i = i + 1;
                }
                proof {
                    lemma_seq_states_pointwise(v@, regexs@);
                    lemma_seq_regex_equiv_pointwise(v@, regexs@);
                }
                Regex::Concat(v)
            },
            Regex::Union(regexs) => {
                let mut v: Vec<Regex> = Vec::new();
                let mut i: usize = 0;
                while i < regexs.len()
                    invariant
                        i <= regexs@.len(),
                        v@.len() == i as int,
                        forall|j: int| 0 <= j < i as int ==> regex_states(#[trigger] v@[j])
                            == regex_states(regexs@[j]),
                        forall|j: int| 0 <= j < i as int ==> regex_equiv(#[trigger] v@[j],
                        regexs@[j]),
                        *self == Regex::Union(*regexs),
                    decreases regexs@.len() - i,
                {
                    proof {
                        assert(decreases_to!(*self => self->Union_0));
                        assert(decreases_to!(*regexs => regexs@));
                        assert(decreases_to!(regexs@ => regexs@[i as int]));
                    }
                    v.push(regexs[i].duplicate());
                    i = i + 1;
                }
                proof {
                    lemma_seq_states_pointwise(v@, regexs@);
                    lemma_seq_regex_equiv_pointwise(v@, regexs@);
                }
                Regex::Union(v)
            },
            Regex::Repeat(re) => {
                Regex::Repeat(Box::new(re.duplicate()))
            },
            Regex::Word(s) => {
                let mut v: Vec<u8> = Vec::new();
                let mut i: usize = 0;
                while i < s.len()
                    invariant
                        i <= s@.len(),
                        v@ == s@.subrange(0, i as int),
                    decreases s@.len() - i,
                {
                    v.push(s[i]);
                    i = i + 1;
                }
                proof {
                    assert(v@ =~= s@);
                }
                Regex::Word(v)
            },
            Regex::Char(c) => Regex::Char(*c),
            Regex::Empty => Regex::Empty,
        }
    }

    /// Builds a pattern from anything the engine accepts as one: a byte, a
    /// byte set, or an inclusive byte range.
    pub fn new<A: IntoRegex>(args: A) -> (r: Regex)
        ensures
            args.spec_into(r),
    {
        args.into_regex()
    }

    /// The alternation of all bytes in the inclusive range `low ..= high`.
    pub fn from_set(low: u8, high: u8) -> (r: Regex)
        ensures
            low > high ==> r == Regex::Empty,
            low <= high ==> is_byte_range(r, low, high),
    {
        from_set(low, high)
    }

    /// The pattern matching exactly the byte string `word`.
    pub fn from_word(word: &[u8]) -> (r: Regex)
        ensures
            word@.len() == 0 ==> r == Regex::Empty,
            word@.len() > 0 ==> (r matches Regex::Word(w) && w@ == word@),
    {
        from_word(word)
    }

    /// The pattern matching exactly the byte `char`.
    pub fn from_byte(char: u8) -> (r: Regex)
        ensures
            r == Regex::Char(char),
    {
        from_byte(char)
    }

    /// The alternation of every byte value.
    pub fn any() -> (r: Regex)
        ensures
            is_byte_range(r, 0, 255),
    {
        any()
    }

    /// Zero or more repetitions of `re`.
    pub fn repeat(re: Regex) -> (r: Regex)
        ensures
            r matches Regex::Repeat(inner) && *inner == re,
    {
        repeat(re)
    }
}

/// Holds when `r` is the alternation of the single bytes `low ..= high`.
pub open spec fn is_byte_range(r: Regex, low: u8, high: u8) -> bool {
    &&& r matches Regex::Union(cs)
    &&& cs@.len() == high - low + 1
    &&& forall|i: int| 0 <= i < cs@.len() ==> cs@[i] == Regex::Char((low + i) as u8)
}

/// Conversion into a pattern; `spec_into` states which patterns a value may
/// become.
pub trait IntoRegex: Sized {
    /// Relates the value to the pattern built from it.
    spec fn spec_into(self, r: Regex) -> bool;

    /// Builds the pattern.
    fn into_regex(self) -> (r: Regex)
        ensures
            self.spec_into(r),
    ;
}

impl IntoRegex for u8 {
    open spec fn spec_into(self, r: Regex) -> bool {
        r == Regex::Char(self)
    }

    fn into_regex(self) -> (r: Regex)
        ensures
            self.spec_into(r),
    {
        from_byte(self)
    }
}

impl IntoRegex for (u8, u8) {
    open spec fn spec_into(self, r: Regex) -> bool {
        &&& self.0 > self.1 ==> r == Regex::Empty
        &&& self.0 <= self.1 ==> is_byte_range(r, self.0, self.1)
    }

    fn into_regex(self) -> (r: Regex)
        ensures
            self.spec_into(r),
    {
        from_set(self.0, self.1)
    }
}

impl IntoRegex for Vec<u8> {
    open spec fn spec_into(self, r: Regex) -> bool {
        &&& self@.len() == 0 ==> r == Regex::Empty
        &&& self@.len() > 0 ==> (r matches Regex::Union(cs) && cs@.len() == self@.len()
            && (forall|i: int| 0 <= i < cs@.len() ==> cs@[i] == Regex::Char(self@[i])))
    }

    fn into_regex(self) -> (r: Regex)
        ensures
            self.spec_into(r),
    {
        if self.len() == 0 {
            Regex::Empty
        } else {
            let mut symbols: Vec<Regex> = Vec::new();
            let mut i: usize = 0;
            while i < self.len()
                invariant
                    i <= self@.len(),
                    symbols@.len() == i as int,
                    forall|j: int| 0 <= j < i as int ==> symbols@[j] == Regex::Char(self@[j]),
                decreases self@.len() - i,
            {
                symbols.push(Regex::Char(self[i]));
                i = i + 1;
            }
            Regex::Union(symbols)
        }
    }
}

/// The alternation of all bytes in the inclusive range `low ..= high`, or the
/// empty-word pattern when the range is empty.
pub fn from_set(low: u8, high: u8) -> (r: Regex)
    ensures
        low > high ==> r == Regex::Empty,
        low <= high ==> is_byte_range(r, low, high),
{
    if low > high {
        return Regex::Empty;
    }
    let mut vec_char: Vec<Regex> = Vec::new();
    let mut b: u16 = low as u16;
    while b <= high as u16
        invariant
            low <= high,
            low as u16 <= b <= high as u16 + 1,
            vec_char@.len() == b - low,
            forall|i: int| 0 <= i < vec_char@.len() ==> vec_char@[i] == Regex::Char((low + i) as u8),
        decreases high as u16 + 1 - b,
    {
        vec_char.push(Regex::Char(b as u8));
        b = b + 1;
    }
    Regex::Union(vec_char)
}

/// The pattern matching exactly the byte string `word`, or the empty-word
/// pattern when `word` is empty.
pub fn from_word(word: &[u8]) -> (r: Regex)
    ensures
        word@.len() == 0 ==> r == Regex::Empty,
        word@.len() > 0 ==> (r matches Regex::Word(w) && w@ == word@),
{
    if word.len() == 0 {
        return Regex::Empty;
    }
    let mut vec_char: Vec<u8> = Vec::new();
    let mut i: usize = 0;
    while i < word.len()
        invariant
            i <= word@.len(),
            vec_char@ == word@.subrange(0, i as int),
        decreases word@.len() - i,
    {
        vec_char.push(word[i]);
        i = i + 1;
    }
    proof {
        assert(vec_char@ =~= word@);
    }
    Regex::Word(vec_char)
}

/// The pattern matching exactly the byte `char`.
pub fn from_byte(char: u8) -> (r: Regex)
    ensures
        r == Regex::Char(char),
{
    Regex::Char(char)
}

/// The alternation of every byte value.
pub fn any() -> (r: Regex)
    ensures
        is_byte_range(r, 0, 255),
{
    from_set(0, 255)
}

/// The concatenation of the given patterns, in order; empty input gives the
/// empty-word pattern.
pub fn concat(regexs: Vec<Regex>) -> (r: Regex)
    ensures
        regexs@.len() == 0 ==> r == Regex::Empty,
        regexs@.len() > 0 ==> r == Regex::Concat(regexs),
{
    if regexs.len() == 0 {
        return Regex::Empty;
    }
    Regex::Concat(regexs)
}

/// The alternation of the given patterns; empty input gives the empty-word
/// pattern.
pub fn union(regexs: Vec<Regex>) -> (r: Regex)
    ensures
        regexs@.len() == 0 ==> r == Regex::Empty,
        regexs@.len() > 0 ==> r == Regex::Union(regexs),
{
    if regexs.len() == 0 {
        return Regex::Empty;
    }
    Regex::Union(regexs)
}

/// Zero or more repetitions of `re`.
pub fn repeat(re: Regex) -> (r: Regex)
    ensures
        r matches Regex::Repeat(inner) && *inner == re,
{
    Regex::Repeat(Box::new(re))
}

} // verus!
