use vstd::prelude::*;
use crate::error::CompileError;

verus! {

/// Index of `x` in `s`, or -1 when it does not occur.
pub open spec fn position(s: Seq<Seq<char>>, x: Seq<char>) -> int
    decreases s.len(),
{
    if s.len() == 0 {
        -1
    } else if s.last() == x {
        s.len() - 1
    } else {
        position(s.drop_last(), x)
    }
}

/// Slot of a name in a table whose names, in declaration order, are `s`.
pub open spec fn slot_in(s: Seq<Seq<char>>, x: Seq<char>) -> int {
    position(s, x) + 1
}

pub proof fn lemma_position(s: Seq<Seq<char>>, x: Seq<char>)
    ensures
        -1 <= position(s, x) < s.len(),
        position(s, x) == -1 <==> !s.contains(x),
        position(s, x) >= 0 ==> s[position(s, x)] == x,
        s.no_duplicates() ==> forall|i: int| 0 <= i < s.len() && s[i] == x ==> position(s, x) == i,
    decreases s.len(),
{
    if s.len() > 0 {
        lemma_position(s.drop_last(), x);
        if s.last() != x {
            assert(s.drop_last().contains(x) ==> s.contains(x));
            if s.contains(x) {
                let i = choose|i: int| 0 <= i < s.len() && s[i] == x;
                assert(s.drop_last()[i] == x);
            }
        }
    }
}

/// Slots follow declaration order: in a table without repeated names the
/// name declared first has slot 1, and a name declared later has a larger
/// slot, one more for each name declared in between.
pub proof fn lemma_slots_in_declaration_order(s: Seq<Seq<char>>, i: int, j: int)
    requires
        s.no_duplicates(),
        0 <= i < j < s.len(),
    ensures
        slot_in(s, s[0]) == 1,
        slot_in(s, s[i]) == i + 1,
        slot_in(s, s[j]) == j + 1,
        slot_in(s, s[i]) < slot_in(s, s[j]),
{
    lemma_position(s, s[0]);
    lemma_position(s, s[i]);
    lemma_position(s, s[j]);
}

/// Slots are stable: declaring a new name leaves the slot of every name
/// declared before it unchanged.
pub proof fn lemma_slot_stable(s: Seq<Seq<char>>, x: Seq<char>, y: Seq<char>)
    requires
        s.no_duplicates(),
        s.contains(x),
        !s.contains(y),
    ensures
        slot_in(s.push(y), x) == slot_in(s, x),
{
    lemma_position(s, x);
    let i = position(s, x);
    assert(s.push(y)[i] == x);
    assert(s.push(y).no_duplicates()) by {
        assert forall|a: int, b: int| 0 <= a < s.push(y).len() && 0 <= b < s.push(y).len() && a != b implies s.push(y)[a] != s.push(y)[b] by {
            if a == s.len() {
                assert(s.contains(s[b]));
            } else if b == s.len() {
                assert(s.contains(s[a]));
            }
        }
    }
    lemma_position(s.push(y), x);
}

/// Maps each declared name to its memory slot. Slots are handed out from 1
/// upwards in the order of first declaration and never change.
pub struct SymbolTable {
    names: Vec<String>,
}

impl View for SymbolTable {
    type V = Seq<Seq<char>>;

    /// The declared names, in declaration order: the name at index `i` has slot `i + 1`.
    closed spec fn view(&self) -> Seq<Seq<char>> {
        self.names@.map_values(|n: String| n@)
    }
}

impl SymbolTable {
    /// No name twice, and every slot fits in a `u64`.
    pub open spec fn wf(&self) -> bool {
        &&& self@.no_duplicates()
        &&& self@.len() <= u64::MAX
    }

    /// An empty table.
    pub fn new() -> (r: SymbolTable)
        ensures
            r@ == Seq::<Seq<char>>::empty(),
            r.wf(),
    {
        let r = SymbolTable { names: Vec::new() };
        assert(r@ =~= Seq::<Seq<char>>::empty());
        r
    }

    /// Number of declared names.
    pub fn len(&self) -> (r: usize)
        ensures
            r == self@.len(),
    {
        self.names.len()
    }

    fn find(&self, name: &str) -> (r: Option<usize>)
        requires
            self.wf(),
        ensures
            r is None <==> !self@.contains(name@),
            r matches Some(i) ==> i == position(self@, name@) && i < self@.len(),
            self@.len() == self.names@.len(),
    {
        let mut i: usize = 0;
        while i < self.names.len()
            invariant
                i <= self.names@.len(),
                self.wf(),
                self@.len() == self.names@.len(),
                forall|j: int| 0 <= j < i ==> self@[j] != name@,
            decreases self.names@.len() - i,
        {
            let n: &str = self.names[i].as_str();
            assert(self@[i as int] == self.names@[i as int]@);
            if string_eq(n, name) {
                assert(self@[i as int] == name@);
                proof {
                    lemma_position(self@, name@);
                }
                return Some(i);
            }
            i = i + 1;
        }
        proof {
            lemma_position(self@, name@);
        }
        None
    }

    /// Forgets every name declared after the first `len`.
    pub fn truncate(&mut self, len: usize)
        requires
            old(self).wf(),
            len <= old(self)@.len(),
        ensures
            final(self).wf(),
            final(self)@ == old(self)@.subrange(0, len as int),
    {
        let ghost before = self@;
        self.names.truncate(len);
        assert(self@ =~= before.subrange(0, len as int));
    }

    /// Whether `name` has been declared.
    pub fn is_declared(&self, name: &str) -> (r: bool)
        requires
            self.wf(),
        ensures
            r == self@.contains(name@),
    {
        self.find(name).is_some()
    }

    /// The slot of `name`, or `UndeclaredVariable` when it was never declared.
    pub fn slot_of(&self, name: &str) -> (r: Result<u64, CompileError>)
        requires
            self.wf(),
        ensures
            self@.contains(name@) ==> (r matches Ok(k) && k == slot_in(self@, name@)),
            !self@.contains(name@) ==> (r matches Err(CompileError::UndeclaredVariable(n)) && n@ == name@),
    {
        match self.find(name) {
            Some(i) => {
                assert(i < self.names@.len());
                Ok(i as u64 + 1)
            },
            None => Err(CompileError::UndeclaredVariable(name.to_owned())),
        }
    }

    /// Gives `name` the next free slot if it is new, and returns its slot
    /// either way: a second call with the same name changes nothing.
    pub fn declare(&mut self, name: &str) -> (r: u64)
        requires
            old(self).wf(),
            old(self)@.len() < u64::MAX,
        ensures
            final(self).wf(),
            old(self)@.contains(name@) ==> final(self)@ == old(self)@,
            !old(self)@.contains(name@) ==> final(self)@ == old(self)@.push(name@),
            r == slot_in(final(self)@, name@),
    {
        match self.find(name) {
            Some(i) => {
                proof {
                    lemma_position(self@, name@);
                }
                i as u64 + 1
            },
            None => {
                let ghost before = self@;
                let i = self.names.len();
                self.names.push(name.to_owned());
                assert(self@ =~= before.push(name@));
                proof {
                    lemma_position(self@, name@);
                    assert forall|a: int, b: int| 0 <= a < b < self@.len() implies self@[a] != self@[b] by {
                        if b == i {
                            assert(before[a] == self@[a]);
                            assert(before.contains(before[a]));
                        }
                    }
                    assert(self@[i as int] == name@);
                }
                i as u64 + 1
            },
        }
    }
}

/// Character-by-character equality of two strings.
pub fn string_eq(a: &str, b: &str) -> (r: bool)
    ensures
        r == (a@ == b@),
{
    let n = a.unicode_len();
    if n != b.unicode_len() {
        return false;
    }
    let mut i: usize = 0;
    while i < n
        invariant
            n == a@.len() == b@.len(),
            i <= n,
            forall|j: int| 0 <= j < i ==> a@[j] == b@[j],
        decreases n - i,
    {
        if a.get_char(i) != b.get_char(i) {
            return false;
        }
        i = i + 1;
    }
    assert(a@ =~= b@);
    true
}

} // verus!
