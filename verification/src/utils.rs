use vstd::prelude::*;

verus! {

/// One raw step of the virtual machine trace: program counter,
/// allocation pointer and frame pointer.
#[derive(Clone, Copy, Debug, PartialEq, Eq, Structural)]
pub struct State {
    pub pc: usize,
    pub ap: usize,
    pub fp: usize,
}

/// The mapping that an entry sequence denotes: later entries override
/// earlier ones with the same address.
pub open spec fn prog_map(entries: Seq<(usize, Vec<String>)>) -> Map<int, Seq<Seq<char>>>
    decreases entries.len(),
{
    if entries.len() == 0 {
        Map::empty()
    } else {
        prog_map(entries.drop_last()).insert(
            entries.last().0 as int,
            entries.last().1.deep_view(),
        )
    }
}

/// The static debug map of the traced program: instruction address to
/// scope chain (file, optional module, function).
pub struct Program {
    entries: Vec<(usize, Vec<String>)>,
}

impl View for Program {
    type V = Map<int, Seq<Seq<char>>>;

    closed spec fn view(&self) -> Map<int, Seq<Seq<char>>> {
        prog_map(self.entries@)
    }
}

proof fn lemma_prog_map_skip_suffix(entries: Seq<(usize, Vec<String>)>, j: int, addr: int)
    requires
        0 <= j <= entries.len(),
        forall|k: int| j <= k < entries.len() ==> #[trigger] entries[k].0 as int != addr,
    ensures
        prog_map(entries).contains_key(addr) == prog_map(entries.subrange(0, j)).contains_key(
            addr,
        ),
        prog_map(entries).contains_key(addr) ==> prog_map(entries)[addr] == prog_map(
            entries.subrange(0, j),
        )[addr],
    decreases entries.len() - j,
{
    if j == entries.len() {
        assert(entries.subrange(0, j) =~= entries);
    } else {
        let shorter = entries.drop_last();
        assert(entries[entries.len() - 1].0 as int != addr);
        lemma_prog_map_skip_suffix(shorter, j, addr);
        assert(shorter.subrange(0, j) =~= entries.subrange(0, j));
    }
}

impl Program {
    /// An empty program map.
    pub fn new() -> (r: Program)
        ensures
            r@ == Map::<int, Seq<Seq<char>>>::empty(),
    {
        Program { entries: Vec::new() }
    }

    /// Binds `addr` to `scope`, replacing any earlier binding.
    pub fn insert(&mut self, addr: usize, scope: Vec<String>)
        ensures
            final(self)@ == old(self)@.insert(addr as int, scope.deep_view()),
    {
        let ghost pre = self.entries@;
        self.entries.push((addr, scope));
        proof {
            assert(self.entries@.drop_last() =~= pre);
        }
    }

    /// Looks an address up; the most recent binding wins.
    pub fn get(&self, addr: usize) -> (r: Option<&Vec<String>>)
        ensures
            match r {
                Some(scope) => self@.contains_key(addr as int)
                    && scope.deep_view() == self@.index(addr as int),
                None => !self@.contains_key(addr as int),
            },
    {
        let n = self.entries.len();
        let mut j = n;
        while j > 0
            invariant
                j <= n,
                n == self.entries@.len(),
                forall|k: int| j <= k < n ==> #[trigger] self.entries@[k].0 as int != addr as int,
            decreases j,
        {
            j = j - 1;
            if self.entries[j].0 == addr {
                proof {
                    lemma_prog_map_skip_suffix(self.entries@, j + 1, addr as int);
                    let pre = self.entries@.subrange(0, j + 1);
                    assert(pre.drop_last() =~= self.entries@.subrange(0, j as int));
                    assert(pre.last() == self.entries@[j as int]);
                }
                return Some(&self.entries[j].1);
            }
        }
        proof {
            lemma_prog_map_skip_suffix(self.entries@, 0, addr as int);
            assert(self.entries@.subrange(0, 0) =~= Seq::<(usize, Vec<String>)>::empty());
        }
        None
    }
}

} // verus!
