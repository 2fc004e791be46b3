use vstd::prelude::*;

verus! {

/// One alternative of a grammar rule: the empty word, or a nonempty sequence
/// of symbols.
#[derive(Clone, Debug)]
pub enum Derivation<T> {
    Empty,
    Normal(Vec<T>),
}

/// A grammar rule: a nonterminal and its alternatives, in declaration order.
#[derive(Clone, Debug)]
pub struct Rule<T> {
    pub from: T,
    pub to: Vec<Derivation<T>>,
}

/// Structural copy of an alternative: the same shape with the same symbols.
pub fn copy_derivation<T: Copy>(d: &Derivation<T>) -> (r: Derivation<T>)
    ensures
        d is Empty ==> r is Empty,
        d matches Derivation::Normal(w) ==> (r matches Derivation::Normal(v) && v@ == w@),
{
    match d {
        Derivation::Empty => Derivation::Empty,
        Derivation::Normal(w) => {
            let n = w.len();
            let mut v: Vec<T> = Vec::new();
            let mut i: usize = 0;
            while i < n
                invariant
                    n == w@.len(),
                    i <= n,
                    v@ == w@.subrange(0, i as int),
                decreases n - i,
            {
                v.push(w[i]);
                i = i + 1;
            }
            proof {
                assert(v@ =~= w@);
            }
            Derivation::Normal(v)
        },
    }
}

impl<T: Copy> Rule<T> {
    pub fn new(from: T, to: Vec<Derivation<T>>) -> (r: Rule<T>)
        ensures
            r.from == from,
            r.to == to,
    {
        Rule { from, to }
    }

    /// The rule's alternatives.
    pub fn derivations(&self) -> (r: &Vec<Derivation<T>>)
        ensures
            r == &self.to,
    {
        &self.to
    }

    /// The nonterminal the rule derives.
    pub fn from(&self) -> (r: T)
        ensures
            r == self.from,
    {
        self.from
    }
}

} // verus!
