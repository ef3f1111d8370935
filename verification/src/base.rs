//! Instruction records, basic blocks, and the shared addressing capability.

use vstd::prelude::*;

verus! {

/// Capability shared by every entity that may own a starting address.
pub trait Addressable {
    /// The starting address, as the contracts see it.
    spec fn spec_addr(&self) -> Option<usize>;

    /// The starting address of this entity, if it has one.
    fn addr(&self) -> (r: Option<usize>)
        ensures
            r == self.spec_addr(),
    ;
}

/// A transfer of control into code outside the traced region.
#[derive(Debug)]
pub struct ForeignInfo {
    /// Address of the first instruction after the foreign branch.
    pub foreign_addr: usize,
    /// Name of the foreign block.
    pub foreign_name: String,
}

/// One executed instruction.
#[derive(Debug)]
pub struct Instr {
    /// Address of the instruction.
    pub addr: usize,
    /// Hex dump of the instruction.
    pub hex: String,
    /// Disassembled text.
    pub text: String,
    /// Whether the instruction is a branch.
    pub isbr: bool,
}

/// A run of instructions forming one graph vertex.
#[derive(Debug)]
pub struct Block {
    pub instrs: Vec<Instr>,
}

impl Addressable for ForeignInfo {
    open spec fn spec_addr(&self) -> Option<usize> {
        Some(self.foreign_addr)
    }

    fn addr(&self) -> (r: Option<usize>) {
        Some(self.foreign_addr)
    }
}

impl Addressable for Block {
    open spec fn spec_addr(&self) -> Option<usize> {
        if self.instrs@.len() == 0 {
            None
        } else {
            Some(self.instrs@[0].addr)
        }
    }

    fn addr(&self) -> (r: Option<usize>) {
        if self.instrs.len() == 0 {
            None
        } else {
            Some(self.instrs[0].addr)
        }
    }
}

/// Whether some instruction of `s` sits exactly at `addr`.
pub open spec fn has_instr_at(s: Seq<Instr>, addr: usize) -> bool {
    exists|i: int| 0 <= i < s.len() && s[i].addr == addr
}

/// Index of the first instruction of `s` whose address is `addr`
/// (`s.len()` when there is none).
pub open spec fn first_instr_pos(s: Seq<Instr>, addr: usize) -> int
    decreases s.len(),
{
    if s.len() == 0 {
        0
    } else if s[0].addr == addr {
        0
    } else {
        1 + first_instr_pos(s.skip(1), addr)
    }
}

/// `first_instr_pos` is the least index holding `addr`, and it reaches
/// `s.len()` exactly when no instruction of `s` sits at `addr`.
pub proof fn lemma_first_instr_pos(s: Seq<Instr>, addr: usize)
    ensures
        0 <= first_instr_pos(s, addr) <= s.len(),
        has_instr_at(s, addr) <==> first_instr_pos(s, addr) < s.len(),
        first_instr_pos(s, addr) < s.len() ==> s[first_instr_pos(s, addr)].addr == addr,
        forall|j: int| 0 <= j < first_instr_pos(s, addr) ==> s[j].addr != addr,
    decreases s.len(),
{
    if s.len() == 0 {
    } else if s[0].addr == addr {
    } else {
        lemma_first_instr_pos(s.skip(1), addr);
        let p = first_instr_pos(s, addr);
        assert(forall|j: int| 1 <= j < p ==> s[j] == s.skip(1)[j - 1]);
        if has_instr_at(s, addr) {
            let i = choose|i: int| 0 <= i < s.len() && s[i].addr == addr;
            assert(s.skip(1)[i - 1].addr == addr);
        }
        if first_instr_pos(s.skip(1), addr) < s.skip(1).len() {
            assert(s[p].addr == s.skip(1)[p - 1].addr);
        }
    }
}

impl Block {
    /// Partition the block at the instruction whose address is exactly
    /// `addr`: the left part holds the instructions before it, the right
    /// part the instructions from it on.  When no instruction sits at
    /// `addr`, the block is handed back unchanged.
    pub fn split(self, addr: usize) -> (r: Result<(Block, Block), Block>)
        ensures
            r is Ok <==> has_instr_at(self.instrs@, addr),
            match r {
                Ok((l, rt)) => {
                    let p = first_instr_pos(self.instrs@, addr);
                    &&& l.instrs@ == self.instrs@.take(p)
                    &&& rt.instrs@ == self.instrs@.skip(p)
                    &&& l.instrs@ + rt.instrs@ == self.instrs@
                    &&& rt.instrs@.len() > 0
                    &&& rt.instrs@[0].addr == addr
                    &&& forall|j: int| 0 <= j < l.instrs@.len() ==> l.instrs@[j].addr != addr
                },
                Err(b) => b == self,
            },
    {
        proof {
            lemma_first_instr_pos(self.instrs@, addr);
        }
        let mut instrs = self.instrs;
        let ghost orig = instrs@;
        let n = instrs.len();
        let mut i: usize = 0;
        while i < n && instrs[i].addr != addr
            invariant
                n == instrs@.len(),
                0 <= i <= n,
                forall|j: int| 0 <= j < i ==> instrs@[j].addr != addr,
            decreases n - i,
        {
            i += 1;
        }
        if i == n {
            Err(Block { instrs })
        } else {
            assert(i == first_instr_pos(orig, addr));
            let tail = instrs.split_off(i);
            assert(orig.take(i as int) + orig.skip(i as int) =~= orig);
            Ok((Block { instrs }, Block { instrs: tail }))
        }
    }

    /// Whether some instruction of this block sits exactly at `a`.
    pub fn contains_addr(&self, a: usize) -> (r: bool)
        ensures
            r == has_instr_at(self.instrs@, a),
    {
        let n = self.instrs.len();
        let mut i: usize = 0;
        while i < n && self.instrs[i].addr != a
            invariant
                n == self.instrs@.len(),
                0 <= i <= n,
                forall|j: int| 0 <= j < i ==> self.instrs@[j].addr != a,
            decreases n - i,
        {
            i += 1;
        }
        if i == n {
            proof {
                if has_instr_at(self.instrs@, a) {
                    let j = choose|j: int|
                        0 <= j < self.instrs@.len() && self.instrs@[j].addr == a;
                }
            }
            false
        } else {
            assert(self.instrs@[i as int].addr == a);
            true
        }
    }
}

} // verus!
