use vstd::prelude::*;

verus! {

/// Algebraic attributes of an operator.
#[derive(Clone, Copy, Debug, PartialEq, Eq, Structural)]
pub struct FuncAttr {
    pub associative: bool,
    pub commutative: bool,
}

impl FuncAttr {
    pub fn new(associative: bool, commutative: bool) -> (r: Self)
        ensures
            r.associative == associative,
            r.commutative == commutative,
    {
        FuncAttr { associative, commutative }
    }

    pub fn is_associative(&self) -> (r: bool)
        ensures
            r == self.associative,
    {
        self.associative
    }

    pub fn is_commutative(&self) -> (r: bool)
        ensures
            r == self.commutative,
    {
        self.commutative
    }

    /// The two flags read as a two-bit number, associativity being the high bit.
    pub open spec fn rank_spec(&self) -> int {
        (if self.associative { 2int } else { 0int }) + (if self.commutative { 1int } else { 0int })
    }

    pub fn rank(&self) -> (r: u8)
        ensures
            r as int == self.rank_spec(),
    {
        let a: u8 = if self.associative { 2 } else { 0 };
        let c: u8 = if self.commutative { 1 } else { 0 };
        a + c
    }
}

/// Operator table: name to attributes, where a later registration of a name
/// replaces an earlier one.
pub struct Symbols {
    functions: Vec<(String, FuncAttr)>,
}

/// Attributes of `name` in a list of registrations, the latest one winning.
pub open spec fn lookup(entries: Seq<(String, FuncAttr)>, name: Seq<char>) -> Option<FuncAttr>
    decreases entries.len(),
{
    if entries.len() == 0 {
        None
    } else if entries.last().0@ == name {
        Some(entries.last().1)
    } else {
        lookup(entries.drop_last(), name)
    }
}

impl Symbols {
    /// The attributes registered for `name`, if any.
    pub closed spec fn attrs_of(&self, name: Seq<char>) -> Option<FuncAttr> {
        lookup(self.functions@, name)
    }

    pub fn new() -> (r: Self)
        ensures
            forall|n: Seq<char>| r.attrs_of(n) is None,
    {
        Symbols { functions: Vec::new() }
    }

    pub fn add_function(&mut self, name: String, attrs: FuncAttr)
        ensures
            final(self).attrs_of(name@) == Some(attrs),
            forall|n: Seq<char>| n != name@ ==> final(self).attrs_of(n) == old(self).attrs_of(n),
    {
        self.functions.push((name, attrs));
        proof {
            assert(self.functions@.drop_last() =~= old(self).functions@);
        }
    }

    pub fn get_function(&self, name: &String) -> (r: Option<&FuncAttr>)
        ensures
            r is Some <==> self.attrs_of(name@) is Some,
            r is Some ==> *r->0 == self.attrs_of(name@)->0,
    {
        let mut i: usize = self.functions.len();
        proof {
            assert(self.functions@.subrange(0, i as int) =~= self.functions@);
        }
        while i > 0
            invariant
                i <= self.functions@.len(),
                lookup(self.functions@, name@) == lookup(self.functions@.subrange(0, i as int), name@),
            decreases i,
        {
            proof {
                assert(self.functions@.subrange(0, i as int).drop_last() =~= self.functions@.subrange(0, i - 1));
            }
            if self.functions[i - 1].0 == *name {
                return Some(&self.functions[i - 1].1);
            }
            i = i - 1;
        }
        None
    }
}

} // verus!
