//! The documentation of a project: for each file, its blocks of
//! documentation literals.

use vstd::prelude::*;
use indexmap::IndexMap;
use crate::literal::TrimmedLiteral;
use crate::literalset::{LiteralSet, LitView, block_wf};
use crate::path_map::{
    path_entries, map_new, map_len, map_index_of, map_push, map_replace, map_get_index,
    map_into_entries,
};
use crate::span::spans_adjacent;
use crate::token::{
    LiteralToken, Token, literal_view, doc_lines, is_doc_name, is_alone_eq_token, tokens_of_stream,
    stream_tokens,
};

verus! {

/// The blocks of one file, in source order.
pub type Blocks = Seq<Seq<LitView>>;

/// The documentation of a project: file paths with their blocks, in the
/// order in which the paths were first seen.
pub type DocView = Seq<(Seq<char>, Blocks)>;

pub open spec fn has_path(d: DocView, p: Seq<char>) -> bool {
    exists|i: int| 0 <= i < d.len() && d[i].0 == p
}

/// The position of path `p` in `d`, or -1 where `d` does not hold it.
pub open spec fn path_index(d: DocView, p: Seq<char>) -> int {
    if has_path(d, p) {
        choose|i: int| 0 <= i < d.len() && d[i].0 == p
    } else {
        -1
    }
}

pub open spec fn paths_unique(d: DocView) -> bool {
    forall|i: int, j: int| 0 <= i < j < d.len() ==> d[i].0 != d[j].0
}

/// Each path stands once, with at least one block, and each block is a run
/// of literals on consecutive lines.
pub open spec fn doc_wf(d: DocView) -> bool {
    &&& paths_unique(d)
    &&& forall|i: int|
        #![trigger d[i]]
        0 <= i < d.len() ==> d[i].1.len() > 0 && forall|k: int|
            0 <= k < d[i].1.len() ==> block_wf(#[trigger] d[i].1[k])
}

/// Records literal `l` for path `p`: it extends the path's last block where
/// it starts on the line after that block's end, and starts a new block
/// otherwise, or a first one where `p` has none.
pub open spec fn append_spec(d: DocView, p: Seq<char>, l: LitView) -> DocView {
    let i = path_index(d, p);
    if i < 0 {
        d.push((p, seq![seq![l]]))
    } else {
        let blocks = d[i].1;
        let last = blocks.last();
        if spans_adjacent(last.last().1, l.1) {
            d.update(i, (p, blocks.update(blocks.len() - 1, last.push(l))))
        } else {
            d.update(i, (p, blocks.push(seq![l])))
        }
    }
}

/// Records the literals `ls` for path `p`, one after the other.
pub open spec fn append_all(d: DocView, p: Seq<char>, ls: Seq<LitView>) -> DocView
    decreases ls.len(),
{
    if ls.len() == 0 {
        d
    } else {
        append_spec(append_all(d, p, ls.drop_last()), p, ls.last())
    }
}

/// Adds the blocks `e.1` of path `e.0` after those that `d` holds for it,
/// or as a new last entry.
pub open spec fn join_entry(d: DocView, e: (Seq<char>, Blocks)) -> DocView {
    let i = path_index(d, e.0);
    if i < 0 {
        d.push(e)
    } else {
        d.update(i, (e.0, d[i].1 + e.1))
    }
}

/// `a` with the entries of `b` joined in, in `b`'s order.
pub open spec fn join_spec(a: DocView, b: DocView) -> DocView
    decreases b.len(),
{
    if b.len() == 0 {
        a
    } else {
        join_entry(join_spec(a, b.drop_last()), b.last())
    }
}

/// All of `ds` joined, first to last, into an empty collection.
pub open spec fn combine_spec(ds: Seq<DocView>) -> DocView
    decreases ds.len(),
{
    if ds.len() == 0 {
        Seq::empty()
    } else {
        join_spec(combine_spec(ds.drop_last()), ds.last())
    }
}

pub open spec fn blocks_view(v: Vec<LiteralSet>) -> Blocks {
    v@.map_values(|b: LiteralSet| b@)
}

pub open spec fn entry_view(e: (Seq<char>, Vec<LiteralSet>)) -> (Seq<char>, Blocks) {
    (e.0, blocks_view(e.1))
}

/// Collection of all the documentation entries across the project.
#[derive(Debug)]
pub struct Documentation {
    index: IndexMap<String, Vec<LiteralSet>>,
}

impl View for Documentation {
    type V = DocView;

    closed spec fn view(&self) -> DocView {
        path_entries(self.index).map_values(|e: (Seq<char>, Vec<LiteralSet>)| entry_view(e))
    }
}

/// The position of a path that stands once is where it stands.
pub proof fn lemma_path_index(d: DocView, p: Seq<char>, i: int)
    requires
        paths_unique(d),
        0 <= i < d.len(),
        d[i].0 == p,
    ensures
        path_index(d, p) == i,
{
}

impl Documentation {
    pub open spec fn wf(&self) -> bool {
        doc_wf(self@)
    }

    /// An empty collection.
    pub fn new() -> (r: Documentation)
        ensures
            r@ == Seq::<(Seq<char>, Blocks)>::empty(),
            r.wf(),
    {
        let r = Documentation { index: map_new() };
        assert(r@ =~= Seq::<(Seq<char>, Blocks)>::empty());
        r
    }

    /// True iff no path has an entry.
    pub fn is_empty(&self) -> (r: bool)
        ensures
            r == (self@.len() == 0),
    {
        map_len(&self.index) == 0
    }

    /// Records the documentation literal `literal` found in file `path`:
    /// it extends the last block of the file where it starts on the line
    /// after that block, and starts a new block otherwise.
    pub fn append_literal(&mut self, path: &str, literal: LiteralToken)
        requires
            old(self).wf(),
        ensures
            final(self).wf(),
            final(self)@ == append_spec(old(self)@, path@, literal_view(literal)),
    {
        let lit = TrimmedLiteral::new(literal.text.as_str(), literal.span);
        self.append_trimmed(path, lit);
    }

    fn append_trimmed(&mut self, path: &str, lit: TrimmedLiteral)
        requires
            old(self).wf(),
        ensures
            final(self).wf(),
            final(self)@ == append_spec(old(self)@, path@, lit@),
    {
        let ghost d = self@;
        let ghost lv = lit@;
        let key = path.to_owned();
        match map_index_of(&self.index, &key) {
            Some(i) => {
                let ghost entries = path_entries(self.index);
                proof {
                    lemma_path_index(d, path@, i as int);
                    assert(d[i as int] == entry_view(entries[i as int]));
                }
                let mut blocks = map_replace(&mut self.index, i, Vec::new());
                let ghost bv = blocks_view(blocks);
                assert(bv == d[i as int].1);
                let mut last = blocks.pop().unwrap();
                assert(last@ == bv.last());
                match last.add_adjacent(lit) {
                    Ok(()) => {
                        blocks.push(last);
                    },
                    Err(lit) => {
                        blocks.push(last);
                        blocks.push(LiteralSet::from_literal(lit));
                    },
                }
                map_replace(&mut self.index, i, blocks);
                proof {
                    let e2 = path_entries(self.index);
                    assert(e2 == entries.update(i as int, (entries[i as int].0, blocks)));
                    if spans_adjacent(bv.last().last().1, lv.1) {
                        assert(blocks_view(blocks) =~= bv.update(bv.len() - 1, bv.last().push(lv)));
                        assert(self@ =~= d.update(i as int, (path@, bv.update(bv.len() - 1, bv.last().push(lv)))));
                    } else {
                        assert(blocks_view(blocks) =~= bv.push(seq![lv]));
                        assert(self@ =~= d.update(i as int, (path@, bv.push(seq![lv]))));
                    }
                    assert(doc_wf(self@));
                }
            },
            None => {
                let block = LiteralSet::from_literal(lit);
                let v = vec![block];
                map_push(&mut self.index, key, v);
                proof {
                    assert(!has_path(d, path@));
                    assert(blocks_view(v) =~= seq![seq![lv]]);
                    assert(self@ =~= d.push((path@, seq![seq![lv]])));
                }
            },
        }
    }

    /// Adds the entries of `other` to this collection, in `other`'s order:
    /// the blocks of a path that both hold go after this collection's own
    /// blocks for it, as they are, with no block merged across the seam;
    /// a path new to this collection goes last.
    pub fn join(&mut self, other: Documentation) -> (r: &mut Self)
        requires
            old(self).wf(),
            other.wf(),
        ensures
            r.wf(),
            r@ == join_spec(old(self)@, other@),
            *final(self) == *final(r),
    {
        let ghost d0 = self@;
        let ghost ov = other@;
        let ghost oe = path_entries(other.index);
        let mut entries = map_into_entries(other.index);
        let ghost mut k: int = 0;
        proof {
            assert forall|j: int| 0 <= j < entries@.len() implies entry_view(
                (entries@[j].0@, entries@[j].1),
            ) == ov[k + j] by {
                assert(ov[j] == entry_view(oe[j]));
            }
            assert(ov.take(0) =~= Seq::<(Seq<char>, Blocks)>::empty());
        }
        while entries.len() > 0
            invariant
                self.wf(),
                doc_wf(ov),
                0 <= k,
                k + entries@.len() == ov.len(),
                self@ == join_spec(d0, ov.take(k)),
                forall|j: int|
                    0 <= j < entries@.len() ==> entry_view((entries@[j].0@, entries@[j].1)) == ov[k
                        + j],
            decreases entries@.len(),
        {
            let ghost d = self@;
            let ghost e = ov[k];
            let ghost rest = entries@.remove(0);
            let (p, mut bl) = entries.remove(0);
            assert(entry_view((p@, bl)) == e);
            match map_index_of(&self.index, &p) {
                Some(i) => {
                    let ghost me = path_entries(self.index);
                    proof {
                        lemma_path_index(d, p@, i as int);
                        assert(d[i as int] == entry_view(me[i as int]));
                    }
                    let mut acc = map_replace(&mut self.index, i, Vec::new());
                    let ghost av = blocks_view(acc);
                    acc.append(&mut bl);
                    map_replace(&mut self.index, i, acc);
                    proof {
                        assert(blocks_view(acc) =~= av + e.1);
                        assert(self@ =~= d.update(i as int, (e.0, d[i as int].1 + e.1)));
                        let nb = d[i as int].1 + e.1;
                        assert(forall|m: int| 0 <= m < nb.len() ==> block_wf(#[trigger] nb[m])) by {
                            assert forall|m: int| 0 <= m < nb.len() implies block_wf(#[trigger] nb[m]) by {
                                if m >= d[i as int].1.len() {
                                    assert(nb[m] == e.1[m - d[i as int].1.len()]);
                                }
                            }
                        }
                        assert(doc_wf(self@));
                    }
                },
                None => {
                    map_push(&mut self.index, p, bl);
                    proof {
                        assert(!has_path(d, e.0));
                        assert(self@ =~= d.push(e));
                        assert(doc_wf(self@));
                    }
                },
            }
            proof {
                assert(ov.take(k + 1).drop_last() =~= ov.take(k));
                assert(ov.take(k + 1).last() == e);
                k = k + 1;
                assert forall|j: int| 0 <= j < entries@.len() implies entry_view(
                    (entries@[j].0@, entries@[j].1),
                ) == ov[k + j] by {
                    assert(entries@[j] == rest[j]);
                }
            }
        }
        proof {
            assert(ov.take(k) =~= ov);
        }
        self
    }

    /// All of `docs` joined into one collection, first to last; an empty
    /// collection where `docs` is empty.
    pub fn combine(docs: Vec<Documentation>) -> (r: Documentation)
        requires
            forall|i: int| 0 <= i < docs@.len() ==> (#[trigger] docs@[i]).wf(),
        ensures
            r.wf(),
            r@ == combine_spec(docs@.map_values(|d: Documentation| d@)),
    {
        let ghost dv = docs@.map_values(|d: Documentation| d@);
        let mut docs = docs;
        let mut acc = Documentation::new();
        let ghost mut k: int = 0;
        proof {
            assert(dv.take(0) =~= Seq::<DocView>::empty());
        }
        while docs.len() > 0
            invariant
                acc.wf(),
                0 <= k,
                k + docs@.len() == dv.len(),
                acc@ == combine_spec(dv.take(k)),
                forall|j: int| 0 <= j < docs@.len() ==> (#[trigger] docs@[j]).wf() && docs@[j]@ == dv[k + j],
            decreases docs@.len(),
        {
            let ghost rest = docs@.remove(0);
            let next = docs.remove(0);
            acc.join(next);
            proof {
                assert(dv.take(k + 1).drop_last() =~= dv.take(k));
                assert(dv.take(k + 1).last() == dv[k]);
                k = k + 1;
                assert forall|j: int| 0 <= j < docs@.len() implies (#[trigger] docs@[j]).wf() && docs@[j]@ == dv[k + j] by {
                    assert(docs@[j] == rest[j]);
                }
            }
        }
        proof {
            assert(dv.take(k) =~= dv);
        }
        acc
    }

    /// The paths with their blocks, in the order in which the paths were
    /// first seen.
    pub fn iter(&self) -> (r: Vec<(&String, &Vec<LiteralSet>)>)
        ensures
            r@.len() == self@.len(),
            forall|i: int|
                0 <= i < r@.len() ==> (#[trigger] r@[i]).0@ == self@[i].0 && blocks_view(*r@[i].1)
                    == self@[i].1,
    {
        let n = map_len(&self.index);
        let mut out: Vec<(&String, &Vec<LiteralSet>)> = Vec::new();
        let mut i: usize = 0;
        while i < n
            invariant
                i <= n,
                n == self@.len(),
                out@.len() == i,
                forall|j: int|
                    0 <= j < i ==> (#[trigger] out@[j]).0@ == self@[j].0 && blocks_view(*out@[j].1)
                        == self@[j].1,
            decreases n - i,
        {
            let entry = map_get_index(&self.index, i);
            out.push(entry);
            i = i + 1;
        }
        out
    }

    /// The paths with their blocks, in the order in which the paths were
    /// first seen, taking the collection apart.
    pub fn into_iter(self) -> (r: Vec<(String, Vec<LiteralSet>)>)
        ensures
            r@.len() == self@.len(),
            forall|i: int|
                0 <= i < r@.len() ==> (#[trigger] r@[i]).0@ == self@[i].0 && blocks_view(r@[i].1)
                    == self@[i].1,
    {
        map_into_entries(self.index)
    }

    /// Walks the token trees `tokens` of file `path` depth first, left to
    /// right, and records each documentation literal in turn.
    fn parse_token_tree(&mut self, path: &str, tokens: &Vec<Token>)
        requires
            old(self).wf(),
        ensures
            final(self).wf(),
            final(self)@ == append_all(old(self)@, path@, doc_lines(tokens@, 0)),
        decreases tokens@,
    {
        let ghost d0 = self@;
        let n = tokens.len();
        let mut i: usize = 0;
        while i < n
            invariant
                self.wf(),
                i <= n,
                n == tokens@.len(),
                append_all(self@, path@, doc_lines(tokens@, i as int)) == append_all(
                    d0,
                    path@,
                    doc_lines(tokens@, 0),
                ),
            decreases n - i,
        {
            let ghost d = self@;
            let ghost i0 = i as int;
            match &tokens[i] {
                Token::Ident(name) => {
                    if !is_doc_name(name) {
                        i = i + 1;
                    } else if i + 1 >= n {
                        i = n;
                    } else if !is_alone_eq_token(&tokens[i + 1]) {
                        i = i + 2;
                    } else if i + 2 >= n {
                        i = n;
                    } else {
                        match &tokens[i + 2] {
                            Token::Literal(l) => {
                                let lit = TrimmedLiteral::new(l.text.as_str(), l.span);
                                let ghost lv = lit@;
                                self.append_trimmed(path, lit);
                                proof {
                                    let rest = doc_lines(tokens@, i0 + 3);
                                    lemma_append_all_concat(d, path@, seq![literal_view(*l)], rest);
                                    assert(append_all(d, path@, seq![literal_view(*l)]) == self@) by {
                                        assert(seq![literal_view(*l)].drop_last() =~= Seq::<LitView>::empty());
                                        assert(append_all(d, path@, Seq::<LitView>::empty()) == d);
                                        assert(lv == literal_view(*l));
                                    }
                                }
                            },
                            _ => {},
                        }
                        i = i + 3;
                    }
                },
                Token::Group(inner) => {
                    proof {
                        broadcast use vstd::seq::group_seq_axioms, vstd::std_specs::vec::group_vec_axioms;
                        assert(decreases_to!(tokens@ => inner@));
                    }
                    self.parse_token_tree(path, inner);
                    proof {
                        lemma_append_all_concat(d, path@, doc_lines(inner@, 0), doc_lines(tokens@, i0 + 1));
                    }
                    i = i + 1;
                },
                _ => {
                    i = i + 1;
                },
            }
        }
    }

    /// The documentation of file `path`, whose token trees are `tokens`.
    pub fn from_tokens(path: &str, tokens: &Vec<Token>) -> (r: Documentation)
        ensures
            r.wf(),
            r@ == append_all(Seq::empty(), path@, doc_lines(tokens@, 0)),
    {
        let mut r = Documentation::new();
        r.parse_token_tree(path, tokens);
        r
    }

    /// The documentation of file `path`, read from its token stream.
    pub fn from_stream(path: &str, stream: proc_macro2::TokenStream) -> (r: Documentation)
        ensures
            r.wf(),
            r@ == append_all(Seq::empty(), path@, doc_lines(stream_tokens(stream), 0)),
    {
        let tokens = tokens_of_stream(stream);
        Documentation::from_tokens(path, &tokens)
    }
}

/// Recording `a` and then `b` is recording `a + b`.
pub proof fn lemma_append_all_concat(d: DocView, p: Seq<char>, a: Seq<LitView>, b: Seq<LitView>)
    ensures
        append_all(d, p, a + b) == append_all(append_all(d, p, a), p, b),
    decreases b.len(),
{
    if b.len() == 0 {
        assert(a + b =~= a);
    } else {
        lemma_append_all_concat(d, p, a, b.drop_last());
        assert((a + b).drop_last() =~= a + b.drop_last());
        assert((a + b).last() == b.last());
    }
}

} // verus!
