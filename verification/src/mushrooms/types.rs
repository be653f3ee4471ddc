//! The two species of mushroom and the lists of mushrooms whose species is known.
use vstd::prelude::*;
use crate::mushrooms::query::interleaved;

verus! {

#[derive(Copy, Clone, PartialEq, Eq, Structural)]
pub enum Type {
    A,
    B,
}

/// `A` if `cond` holds, `B` otherwise.
pub open spec fn type_if(cond: bool) -> Type {
    if cond {
        Type::A
    } else {
        Type::B
    }
}

/// `A` if `cond` holds, `B` otherwise.
pub fn a_if(cond: bool) -> (t: Type)
    ensures
        t == type_if(cond),
{
    if cond {
        Type::A
    } else {
        Type::B
    }
}

impl Type {
    /// The type flipped when `cond` holds.
    pub fn xor(self, cond: bool) -> (t: Type)
        ensures
            t == type_if((self == Type::A) != cond),
    {
        a_if(matches!(self, Type::A) != cond)
    }

    /// Position of the type's list: `0` for `A`, `1` for `B`.
    pub fn index(self) -> (i: usize)
        ensures
            i == if self == Type::A { 0usize } else { 1usize },
    {
        match self {
            Type::A => 0,
            Type::B => 1,
        }
    }
}

/// The mushrooms known to be of type `A` and of type `B`.
pub struct Known {
    pub a: Vec<usize>,
    pub b: Vec<usize>,
}

impl Known {
    pub open spec fn list(&self, t: Type) -> Seq<usize> {
        if t == Type::A {
            self.a@
        } else {
            self.b@
        }
    }

    /// Mushroom 0 is of type `A`; nothing else is known.
    pub fn new() -> (k: Known)
        ensures
            k.a@ == seq![0usize],
            k.b@ == Seq::<usize>::empty(),
    {
        let mut a = Vec::new();
        a.push(0);
        Known { a, b: Vec::new() }
    }

    pub fn get(&self, t: Type) -> (v: &Vec<usize>)
        ensures
            v@ == self.list(t),
    {
        match t {
            Type::A => &self.a,
            Type::B => &self.b,
        }
    }

    /// Records that mushroom `x` has type `t`.
    pub fn push(&mut self, t: Type, x: usize)
        ensures
            final(self).list(t) == old(self).list(t).push(x),
            final(self).list(type_if(t != Type::A)) == old(self).list(type_if(t != Type::A)),
    {
        match t {
            Type::A => self.a.push(x),
            Type::B => self.b.push(x),
        }
    }

    /// The longer list (`B` where both are as long): the one a query alternates with.
    pub open spec fn frequent(&self) -> Type {
        type_if(self.a.len() > self.b.len())
    }

    /// The query that counts the species A mushrooms among `elems` and finds the
    /// species of `extra`: the mushrooms of the longer list alternating with those of
    /// `elems` and then `extra`. Returns it with the species of the list it uses.
    pub fn build_query(&self, elems: &Vec<usize>, extra: usize) -> (r: (Vec<usize>, Type))
        requires
            elems.len() < self.list(self.frequent()).len(),
        ensures
            r.1 == self.frequent(),
            interleaved(r.0@, self.list(r.1), elems@.push(extra)),
    {
        let freq = a_if(self.a.len() > self.b.len());
        let f = self.get(freq);
        let ghost c = elems@.push(extra);
        let mut query: Vec<usize> = Vec::new();
        let mut k: usize = 0;
        while k <= elems.len()
            invariant
                f@ == self.list(freq),
                elems.len() < f.len(),
                c == elems@.push(extra),
                k <= elems.len() + 1,
                query.len() == 2 * k,
                forall|j: int| 0 <= j < k ==> query@[2 * j] == #[trigger] f@[j],
                forall|j: int| 0 <= j < k ==> query@[2 * j + 1] == #[trigger] c[j],
            decreases elems.len() + 1 - k,
        {
            query.push(f[k]);
            if k < elems.len() {
                query.push(elems[k]);
            } else {
                query.push(extra);
            }
            proof {
                assert(query@[2 * k as int] == f@[k as int]);
                assert(query@[2 * k + 1] == c[k as int]);
            }
            k = k + 1;
        }
        (query, freq)
    }

    /// Takes in the answer `res` to the query that `build_query` made with the list of
    /// species `freq`, `len` mushrooms to count and `extra` last: records the species
    /// of `extra` (that of `freq` when `res` is even) and returns how many of the
    /// counted mushrooms are of species A, with the species of `extra`.
    pub fn record(&mut self, freq: Type, len: usize, extra: usize, res: usize) -> (r: (usize, Type))
        requires
            res <= 2 * len + 1,
        ensures
            r.0 == if freq == Type::A { len - res / 2 } else { (res / 2) as int },
            r.1 == type_if((freq == Type::A) != (res % 2 == 1)),
            final(self).list(r.1) == old(self).list(r.1).push(extra),
            final(self).list(type_if(r.1 != Type::A)) == old(self).list(type_if(r.1 != Type::A)),
    {
        let count = match freq {
            Type::A => len - res / 2,
            Type::B => res / 2,
        };
        let extra_type = freq.xor(res % 2 == 1);
        self.push(extra_type, extra);
        (count, extra_type)
    }

    /// The longest list: the most elements a single query can count.
    pub fn max_query(&self) -> (m: usize)
        ensures
            m == if self.a.len() >= self.b.len() { self.a.len() } else { self.b.len() },
    {
        if self.a.len() >= self.b.len() {
            self.a.len()
        } else {
            self.b.len()
        }
    }
}

} // verus!
