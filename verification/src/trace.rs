//! Trace statements and their segmentation into basic blocks.

use vstd::prelude::*;

use crate::base;
use crate::base::Instr;

verus! {

/// A transfer of control into code outside the traced region, as recorded
/// on the trace statement that caused it.
#[derive(Debug)]
pub struct ForeignInfo {
    /// Address of the first instruction after the foreign branch.
    pub foreign_addr: usize,
    /// Name of the foreign block.
    pub foreign_name: String,
}

/// One statement of the recorded trace.
#[derive(Debug)]
pub struct TraceStmt {
    /// Address of the instruction.
    pub addr: usize,
    /// Hex dump of the instruction.
    pub hex: String,
    /// Disassembled text.
    pub text: String,
    /// Whether the instruction is a branch.
    pub isbr: bool,
    /// Information about the foreign branch, if any.
    pub foreign: Option<ForeignInfo>,
}

/// A basic block of trace statements: a maximal straight-line run in
/// which only the last statement may be a branch.
#[derive(Debug)]
pub struct Bb {
    pub stmts: Vec<TraceStmt>,
}

impl TraceStmt {
    /// The instruction record carried by this statement.
    pub open spec fn as_instr(self) -> Instr {
        Instr { addr: self.addr, hex: self.hex, text: self.text, isbr: self.isbr }
    }
}

/// Length of the first basic block of `s`: everything up to and including
/// the first branch, or all of `s` when no branch occurs.
pub open spec fn first_block_len(s: Seq<TraceStmt>) -> nat
    decreases s.len(),
{
    if s.len() == 0 {
        0
    } else if s[0].isbr {
        1
    } else {
        1 + first_block_len(s.skip(1))
    }
}

/// The segmentation of `s` into basic blocks: a block closes right after
/// each branch statement, and a trailing partial block without a branch
/// is still emitted.
pub open spec fn segment(s: Seq<TraceStmt>) -> Seq<Seq<TraceStmt>>
    decreases s.len(),
{
    if s.len() == 0 {
        Seq::empty()
    } else if s[0].isbr {
        seq![seq![s[0]]] + segment(s.skip(1))
    } else {
        let rest = segment(s.skip(1));
        if rest.len() == 0 {
            seq![seq![s[0]]]
        } else {
            seq![seq![s[0]] + rest[0]] + rest.skip(1)
        }
    }
}

pub proof fn lemma_first_block_len_bounds(s: Seq<TraceStmt>)
    ensures
        s.len() > 0 ==> 1 <= first_block_len(s) <= s.len(),
        s.len() == 0 ==> first_block_len(s) == 0,
    decreases s.len(),
{
    if s.len() > 0 && !s[0].isbr {
        lemma_first_block_len_bounds(s.skip(1));
    }
}

/// When the first branch of `s` sits at index `k`, the first block is
/// exactly `s[0 ..= k]`.
pub proof fn lemma_first_block_len_at(s: Seq<TraceStmt>, k: int)
    requires
        0 <= k < s.len(),
        forall|j: int| 0 <= j < k ==> !s[j].isbr,
        s[k].isbr,
    ensures
        first_block_len(s) == k + 1,
    decreases s.len(),
{
    if k > 0 {
        assert(forall|j: int| 0 <= j < k - 1 ==> s.skip(1)[j] == s[j + 1]);
        lemma_first_block_len_at(s.skip(1), k - 1);
    }
}

/// When no branch occurs in `s`, the first block is all of `s`.
pub proof fn lemma_first_block_len_none(s: Seq<TraceStmt>)
    requires
        forall|j: int| 0 <= j < s.len() ==> !s[j].isbr,
    ensures
        first_block_len(s) == s.len(),
    decreases s.len(),
{
    if s.len() > 0 {
        assert(forall|j: int| 0 <= j < s.skip(1).len() ==> s.skip(1)[j] == s[j + 1]);
        lemma_first_block_len_none(s.skip(1));
    }
}

/// Unfolding of `segment` by whole blocks: the first block of a non-empty
/// trace is its first `first_block_len` statements, and the remaining
/// blocks segment the rest.
pub proof fn lemma_segment_step(s: Seq<TraceStmt>)
    requires
        s.len() > 0,
    ensures
        segment(s).len() > 0,
        segment(s) == seq![s.take(first_block_len(s) as int)]
            + segment(s.skip(first_block_len(s) as int)),
    decreases s.len(),
{
    lemma_first_block_len_bounds(s);
    let fbl = first_block_len(s) as int;
    if s[0].isbr {
        assert(s.take(1) =~= seq![s[0]]);
    } else {
        let t = s.skip(1);
        if t.len() == 0 {
            assert(s.take(1) =~= seq![s[0]]);
            assert(s.skip(1) =~= Seq::<TraceStmt>::empty());
        } else {
            lemma_segment_step(t);
            lemma_first_block_len_bounds(t);
            let ft = first_block_len(t) as int;
            assert(s.take(fbl) =~= seq![s[0]] + t.take(ft));
            assert(s.skip(fbl) =~= t.skip(ft));
            let rest = segment(t);
            assert(rest[0] == t.take(ft));
            assert(rest.skip(1) =~= segment(t.skip(ft)));
            assert(segment(s) =~= seq![s.take(fbl)] + segment(s.skip(fbl)));
        }
    }
}

/// Concatenating the blocks of the segmentation reproduces the trace.
pub proof fn lemma_segment_flatten(s: Seq<TraceStmt>)
    ensures
        segment(s).flatten() == s,
    decreases s.len(),
{
    if s.len() == 0 {
        assert(segment(s).flatten() =~= s);
    } else if s[0].isbr {
        lemma_segment_flatten(s.skip(1));
        let rest = segment(s.skip(1));
        assert((seq![seq![s[0]]] + rest).drop_first() =~= rest);
        assert((seq![seq![s[0]]] + rest).flatten() =~= seq![s[0]] + rest.flatten());
        assert(seq![s[0]] + s.skip(1) =~= s);
    } else {
        lemma_segment_flatten(s.skip(1));
        let rest = segment(s.skip(1));
        if rest.len() == 0 {
            assert(s.skip(1) =~= Seq::<TraceStmt>::empty());
            assert(segment(s) =~= seq![seq![s[0]]]);
            assert(segment(s).drop_first() =~= Seq::<Seq<TraceStmt>>::empty());
            assert(segment(s).flatten() =~= seq![s[0]] + Seq::<Seq<TraceStmt>>::empty().flatten());
            assert(segment(s).flatten() =~= s);
        } else {
            let out = seq![seq![s[0]] + rest[0]] + rest.skip(1);
            assert(out.drop_first() =~= rest.skip(1));
            assert(out.flatten() =~= (seq![s[0]] + rest[0]) + rest.skip(1).flatten());
            assert(rest =~= seq![rest[0]] + rest.skip(1));
            assert(rest.drop_first() =~= rest.skip(1));
            assert(rest.flatten() =~= rest[0] + rest.skip(1).flatten());
            assert(out.flatten() =~= seq![s[0]] + rest.flatten());
            assert(seq![s[0]] + s.skip(1) =~= s);
        }
    }
}

/// Shape of every block of a segmentation: non-empty, branches only in
/// the last position, and every block but the last ends with a branch.
pub proof fn lemma_segment_shape(s: Seq<TraceStmt>)
    ensures
        forall|i: int| 0 <= i < segment(s).len() ==> (#[trigger] segment(s)[i]).len() > 0,
        forall|i: int, k: int|
            0 <= i < segment(s).len() && 0 <= k < segment(s)[i].len() - 1
                ==> !(#[trigger] segment(s)[i][k]).isbr,
        forall|i: int| 0 <= i < segment(s).len() - 1 ==> (#[trigger] segment(s)[i]).last().isbr,
    decreases s.len(),
{
    if s.len() == 0 {
    } else if s[0].isbr {
        lemma_segment_shape(s.skip(1));
        let rest = segment(s.skip(1));
        let out = seq![seq![s[0]]] + rest;
        assert forall|i: int| 0 <= i < out.len() implies (#[trigger] out[i]).len() > 0 by {
            if i > 0 {
                assert(out[i] == rest[i - 1]);
            }
        }
        assert forall|i: int, k: int|
            0 <= i < out.len() && 0 <= k < out[i].len() - 1 implies !(#[trigger] out[i][k]).isbr by {
            if i > 0 {
                assert(out[i] == rest[i - 1]);
            }
        }
        assert forall|i: int| 0 <= i < out.len() - 1 implies (#[trigger] out[i]).last().isbr by {
            if i > 0 {
                assert(out[i] == rest[i - 1]);
            }
        }
    } else {
        lemma_segment_shape(s.skip(1));
        let rest = segment(s.skip(1));
        if rest.len() == 0 {
        } else {
            let head = seq![s[0]] + rest[0];
            let out = seq![head] + rest.skip(1);
            assert forall|i: int| 0 <= i < out.len() implies (#[trigger] out[i]).len() > 0 by {
                if i > 0 {
                    assert(out[i] == rest[i]);
                }
            }
            assert forall|i: int, k: int|
                0 <= i < out.len() && 0 <= k < out[i].len() - 1
                implies !(#[trigger] out[i][k]).isbr by {
                if i == 0 {
                    if k > 0 {
                        assert(head[k] == rest[0][k - 1]);
                    }
                } else {
                    assert(out[i] == rest[i]);
                }
            }
            assert forall|i: int| 0 <= i < out.len() - 1 implies (#[trigger] out[i]).last().isbr by {
                if i == 0 {
                    assert(rest[0].len() > 0);
                    assert(head.last() == rest[0].last());
                } else {
                    assert(out[i] == rest[i]);
                }
            }
        }
    }
}

/// Whether some statement of `s` sits exactly at `addr`.
pub open spec fn has_stmt_at(s: Seq<TraceStmt>, addr: usize) -> bool {
    exists|i: int| 0 <= i < s.len() && s[i].addr == addr
}

/// Index of the first statement of `s` whose address is `addr`
/// (`s.len()` when there is none).
pub open spec fn first_stmt_pos(s: Seq<TraceStmt>, addr: usize) -> int
    decreases s.len(),
{
    if s.len() == 0 {
        0
    } else if s[0].addr == addr {
        0
    } else {
        1 + first_stmt_pos(s.skip(1), addr)
    }
}

pub proof fn lemma_first_stmt_pos(s: Seq<TraceStmt>, addr: usize)
    ensures
        0 <= first_stmt_pos(s, addr) <= s.len(),
        has_stmt_at(s, addr) <==> first_stmt_pos(s, addr) < s.len(),
        first_stmt_pos(s, addr) < s.len() ==> s[first_stmt_pos(s, addr)].addr == addr,
        forall|j: int| 0 <= j < first_stmt_pos(s, addr) ==> s[j].addr != addr,
    decreases s.len(),
{
    if s.len() == 0 {
    } else if s[0].addr == addr {
    } else {
        lemma_first_stmt_pos(s.skip(1), addr);
        let p = first_stmt_pos(s, addr);
        assert(forall|j: int| 1 <= j < p ==> s[j] == s.skip(1)[j - 1]);
        if has_stmt_at(s, addr) {
            let i = choose|i: int| 0 <= i < s.len() && s[i].addr == addr;
            assert(s.skip(1)[i - 1].addr == addr);
        }
        if first_stmt_pos(s.skip(1), addr) < s.skip(1).len() {
            assert(s[p].addr == s.skip(1)[p - 1].addr);
        }
    }
}

/// The foreign marker that the block's last statement carries, if any.
pub open spec fn trailing_foreign(s: Seq<TraceStmt>) -> Option<base::ForeignInfo> {
    if s.len() > 0 && s.last().foreign is Some {
        Some(
            base::ForeignInfo {
                foreign_addr: s.last().foreign->0.foreign_addr,
                foreign_name: s.last().foreign->0.foreign_name,
            },
        )
    } else {
        None
    }
}

impl Bb {
    /// Segment the trace into basic blocks: a block closes right after
    /// each branch, and a trailing partial run without a branch still
    /// forms a block of its own.
    pub fn new(stmts: Vec<TraceStmt>) -> (r: Vec<Bb>)
        ensures
            r@.map_values(|b: Bb| b.stmts@) == segment(stmts@),
            r@.map_values(|b: Bb| b.stmts@).flatten() == stmts@,
            forall|i: int| 0 <= i < r@.len() ==> (#[trigger] r@[i]).stmts@.len() > 0,
            forall|i: int, k: int|
                0 <= i < r@.len() && 0 <= k < r@[i].stmts@.len() - 1
                    ==> !(#[trigger] r@[i].stmts@[k]).isbr,
            forall|i: int| 0 <= i < r@.len() - 1 ==> (#[trigger] r@[i]).stmts@.last().isbr,
    {
        let ghost orig = stmts@;
        let mut rest = stmts;
        let mut out: Vec<Bb> = Vec::new();
        let mut cur: Vec<TraceStmt> = Vec::new();
        let ghost mut c: int = 0;
        proof {
            assert(orig.skip(0) =~= orig);
            assert(out@.map_values(|b: Bb| b.stmts@) + segment(orig) =~= segment(orig));
        }
        while rest.len() > 0
            invariant
                0 <= c <= orig.len(),
                rest@ == orig.skip(c + cur@.len()),
                cur@ == orig.subrange(c, c + cur@.len() as int),
                c + cur@.len() <= orig.len(),
                forall|j: int| 0 <= j < cur@.len() ==> !(#[trigger] cur@[j]).isbr,
                segment(orig) == out@.map_values(|b: Bb| b.stmts@) + segment(orig.skip(c)),
            decreases rest@.len(),
        {
            let t = rest.remove(0);
            let ghost p = c + cur@.len() as int;
            let isbr = t.isbr;
            cur.push(t);
            proof {
                assert(cur@ =~= orig.subrange(c, p + 1));
                assert(rest@ =~= orig.skip(p + 1));
            }
            if isbr {
                proof {
                    let tail = orig.skip(c);
                    assert(forall|j: int| 0 <= j < tail.len() ==> tail[j] == orig[c + j]);
                    lemma_first_block_len_at(tail, p - c);
                    lemma_segment_step(tail);
                    assert(tail.take(p + 1 - c) =~= cur@);
                    assert(tail.skip(p + 1 - c) =~= orig.skip(p + 1));
                }
                let done = Bb { stmts: cur };
                out.push(done);
                cur = Vec::new();
                proof {
                    c = p + 1;
                    assert(out@.map_values(|b: Bb| b.stmts@)
                        =~= out@.drop_last().map_values(|b: Bb| b.stmts@).push(done.stmts@));
                    assert(segment(orig) =~= out@.map_values(|b: Bb| b.stmts@)
                        + segment(orig.skip(c)));
                    assert(cur@ =~= orig.subrange(c, c));
                }
            }
        }
        if cur.len() > 0 {
            proof {
                let tail = orig.skip(c);
                assert(tail =~= cur@);
                lemma_first_block_len_none(tail);
                lemma_segment_step(tail);
                assert(tail.take(tail.len() as int) =~= cur@);
                assert(tail.skip(tail.len() as int) =~= Seq::<TraceStmt>::empty());
            }
            let done = Bb { stmts: cur };
            out.push(done);
            proof {
                assert(out@.map_values(|b: Bb| b.stmts@)
                    =~= out@.drop_last().map_values(|b: Bb| b.stmts@).push(done.stmts@));
                assert(segment(orig) =~= out@.map_values(|b: Bb| b.stmts@));
            }
        } else {
            proof {
                assert(orig.skip(c) =~= Seq::<TraceStmt>::empty());
                assert(segment(orig) =~= out@.map_values(|b: Bb| b.stmts@));
            }
        }
        proof {
            lemma_segment_flatten(orig);
            lemma_segment_shape(orig);
            assert forall|i: int| 0 <= i < out@.len()
                implies (#[trigger] out@[i]).stmts@.len() > 0 by {
                assert(out@.map_values(|b: Bb| b.stmts@)[i] == out@[i].stmts@);
            }
            assert forall|i: int, k: int|
                0 <= i < out@.len() && 0 <= k < out@[i].stmts@.len() - 1
                implies !(#[trigger] out@[i].stmts@[k]).isbr by {
                assert(out@.map_values(|b: Bb| b.stmts@)[i] == out@[i].stmts@);
            }
            assert forall|i: int| 0 <= i < out@.len() - 1
                implies (#[trigger] out@[i]).stmts@.last().isbr by {
                assert(out@.map_values(|b: Bb| b.stmts@)[i] == out@[i].stmts@);
            }
        }
        out
    }

    /// Partition the block at the statement whose address is exactly
    /// `addr`, handing the block back unchanged when no statement sits
    /// there.
    pub fn split(self, addr: usize) -> (r: Result<(Bb, Bb), Bb>)
        ensures
            r is Ok <==> has_stmt_at(self.stmts@, addr),
            match r {
                Ok((l, rt)) => {
                    let p = first_stmt_pos(self.stmts@, addr);
                    &&& l.stmts@ == self.stmts@.take(p)
                    &&& rt.stmts@ == self.stmts@.skip(p)
                    &&& l.stmts@ + rt.stmts@ == self.stmts@
                    &&& rt.stmts@.len() > 0
                    &&& rt.stmts@[0].addr == addr
                    &&& forall|j: int| 0 <= j < l.stmts@.len() ==> l.stmts@[j].addr != addr
                },
                Err(b) => b == self,
            },
    {
        proof {
            lemma_first_stmt_pos(self.stmts@, addr);
        }
        let mut stmts = self.stmts;
        let ghost orig = stmts@;
        let n = stmts.len();
        let mut i: usize = 0;
        while i < n && stmts[i].addr != addr
            invariant
                n == stmts@.len(),
                0 <= i <= n,
                forall|j: int| 0 <= j < i ==> stmts@[j].addr != addr,
            decreases n - i,
        {
            i += 1;
        }
        if i == n {
            Err(Bb { stmts })
        } else {
            assert(i == first_stmt_pos(orig, addr));
            let tail = stmts.split_off(i);
            assert(orig.take(i as int) + orig.skip(i as int) =~= orig);
            Ok((Bb { stmts }, Bb { stmts: tail }))
        }
    }

    /// Address of the block: the address of its first statement.
    pub fn addr(&self) -> (r: Option<usize>)
        ensures
            self.stmts@.len() == 0 ==> r is None,
            self.stmts@.len() > 0 ==> r == Some(self.stmts@[0].addr),
    {
        if self.stmts.len() == 0 {
            None
        } else {
            Some(self.stmts[0].addr)
        }
    }

    /// Turn the block into its instruction records, handing out the
    /// foreign marker carried by its last statement separately.
    pub fn separate(self) -> (r: (base::Block, Option<base::ForeignInfo>))
        ensures
            r.0.instrs@ == self.stmts@.map_values(|t: TraceStmt| t.as_instr()),
            r.1 == trailing_foreign(self.stmts@),
    {
        let ghost orig = self.stmts@;
        let mut rest = self.stmts;
        let mut instrs: Vec<Instr> = Vec::new();
        let mut foreign: Option<base::ForeignInfo> = None;
        while rest.len() > 0
            invariant
                rest@ == orig.skip(instrs@.len() as int),
                instrs@.len() <= orig.len(),
                instrs@ == orig.take(instrs@.len() as int).map_values(
                    |t: TraceStmt| t.as_instr(),
                ),
                foreign == (if instrs@.len() > 0 {
                    trailing_foreign(orig.take(instrs@.len() as int))
                } else {
                    None::<base::ForeignInfo>
                }),
            decreases rest@.len(),
        {
            let ghost p = instrs@.len() as int;
            let t = rest.remove(0);
            assert(t == orig[p]);
            foreign = match t.foreign {
                Some(f) => Some(
                    base::ForeignInfo { foreign_addr: f.foreign_addr, foreign_name: f.foreign_name },
                ),
                None => None,
            };
            instrs.push(Instr { addr: t.addr, hex: t.hex, text: t.text, isbr: t.isbr });
            proof {
                assert(rest@ =~= orig.skip(p + 1));
                assert(orig.take(p + 1).last() == orig[p]);
                assert(instrs@ =~= orig.take(p + 1).map_values(|t: TraceStmt| t.as_instr()));
            }
        }
        proof {
            assert(orig.take(orig.len() as int) =~= orig);
        }
        (base::Block { instrs }, foreign)
    }
}

} // verus!
