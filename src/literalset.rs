//! Blocks of documentation literals on consecutive lines.

use vstd::prelude::*;
use crate::literal::TrimmedLiteral;
use crate::span::{Span, spans_adjacent};

verus! {

/// What a block holds of one literal: its content and its span.
pub type LitView = (Seq<char>, Span);

/// A block is a non-empty run of literals, each on the line right after
/// the previous one.
pub open spec fn block_wf(b: Seq<LitView>) -> bool {
    &&& b.len() > 0
    &&& forall|i: int| 1 <= i < b.len() ==> spans_adjacent(#[trigger] b[i - 1].1, b[i].1)
}

/// The contents of the literals of a block, one per line.
pub open spec fn joined_lines(b: Seq<LitView>) -> Seq<char>
    decreases b.len(),
{
    if b.len() == 0 {
        Seq::empty()
    } else if b.len() == 1 {
        b[0].0
    } else {
        joined_lines(b.drop_last()) + seq!['\n'] + b.last().0
    }
}

/// One paragraph of documentation: literals on consecutive lines.
#[derive(Debug, Clone)]
pub struct LiteralSet {
    literals: Vec<TrimmedLiteral>,
}

impl View for LiteralSet {
    type V = Seq<LitView>;

    closed spec fn view(&self) -> Seq<LitView> {
        self.literals@.map_values(|l: TrimmedLiteral| l@)
    }
}

impl LiteralSet {
    /// A block of the one literal `literal`.
    pub fn from_literal(literal: TrimmedLiteral) -> (r: LiteralSet)
        ensures
            r@ == seq![literal@],
            block_wf(r@),
    {
        let r = LiteralSet { literals: vec![literal] };
        assert(r@ =~= seq![literal@]);
        r
    }

    /// Adds `literal` at the end of the block where it starts on the line
    /// after the block's last literal; else hands it back and leaves the
    /// block as it is.
    pub fn add_adjacent(&mut self, literal: TrimmedLiteral) -> (r: Result<(), TrimmedLiteral>)
        requires
            block_wf(old(self)@),
        ensures
            block_wf(final(self)@),
            spans_adjacent(old(self)@.last().1, literal@.1) ==> r is Ok && final(self)@ == old(
                self,
            )@.push(literal@),
            !spans_adjacent(old(self)@.last().1, literal@.1) ==> r == Err::<(), TrimmedLiteral>(
                literal,
            ) && final(self)@ == old(self)@,
    {
        let n = self.literals.len();
        let last_span = self.literals[n - 1].span();
        let next_span = literal.span();
        if crate::span::is_next_line(&last_span, &next_span) {
            let ghost before = self@;
            self.literals.push(literal);
            assert(self@ =~= before.push(literal@));
            Ok(())
        } else {
            Err(literal)
        }
    }

    /// Number of literals in the block.
    pub fn len(&self) -> (r: usize)
        ensures
            r == self@.len(),
    {
        self.literals.len()
    }

    /// The literal at position `i` of the block.
    pub fn literal(&self, i: usize) -> (r: &TrimmedLiteral)
        requires
            i < self@.len(),
        ensures
            r@ == self@[i as int],
    {
        &self.literals[i]
    }

    /// The contents of the block's literals, one per line.
    pub fn to_string(&self) -> (r: String)
        ensures
            r@ == joined_lines(self@),
    {
        let mut out = String::new();
        let mut i: usize = 0;
        while i < self.literals.len()
            invariant
                i <= self.literals@.len(),
                out@ == joined_lines(self@.take(i as int)),
            decreases self.literals@.len() - i,
        {
            let part = self.literals[i].as_str();
            proof {
                reveal_strlit("\n");
            }
            if i > 0 {
                out = out.concat("\n");
            }
            out = out.concat(part);
            assert(self@.take(i + 1).drop_last() =~= self@.take(i as int));
            assert(self@.take(i + 1).last() == self.literals@[i as int]@);
            assert(i == 0 ==> self@.take(i + 1) =~= seq![self@[0]]);
            i = i + 1;
        }
        assert(self@.take(i as int) =~= self@);
        out
    }
}

} // verus!
