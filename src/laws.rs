//! Properties of the documentation index, proved over its model.

use vstd::prelude::*;
use crate::documentation::{
    DocView, Blocks, append_spec, append_all, join_entry, join_spec, combine_spec, doc_wf,
    has_path, path_index, paths_unique, lemma_path_index,
};
use crate::literalset::{LitView, block_wf};
use crate::span::{spans_adjacent, starts_before};
use crate::token::{Token, doc_lines, mentions_doc, all_literals, literal_view, is_alone_eq};

verus! {

/// Recording a run of literals on consecutive lines for path `p`, after a
/// collection that holds `p` alone with the blocks `bs`, where the run does
/// not continue the last of them, adds the run as one new block.
proof fn lemma_run_after(p: Seq<char>, bs: Blocks, run: Seq<LitView>)
    requires
        bs.len() > 0,
        bs.last().len() > 0,
        block_wf(run),
        !spans_adjacent(bs.last().last().1, run[0].1),
    ensures
        append_all(seq![(p, bs)], p, run) == seq![(p, bs.push(run))],
    decreases run.len(),
{
    let d = seq![(p, bs)];
    assert(d[0].0 == p);
    if run.len() == 1 {
        assert(run.drop_last() =~= Seq::<LitView>::empty());
        assert(append_all(d, p, run.drop_last()) == d);
        assert(path_index(d, p) == 0);
        assert(!spans_adjacent(d[0].1.last().last().1, run.last().1));
        assert(run =~= seq![run[0]]);
        assert(append_spec(d, p, run.last()) == d.update(0, (p, bs.push(seq![run.last()]))));
        assert(d.update(0, (p, bs.push(run))) =~= seq![(p, bs.push(run))]);
    } else {
        let prev = run.drop_last();
        lemma_run_after(p, bs, prev);
        let d1 = seq![(p, bs.push(prev))];
        assert(d1[0].0 == p);
        assert(path_index(d1, p) == 0);
        assert(spans_adjacent(run[run.len() - 2].1, run.last().1));
        assert(prev.push(run.last()) =~= run);
        assert(bs.push(prev).update(bs.len() as int, prev.push(run.last())) =~= bs.push(run));
        assert(append_spec(d1, p, run.last()) == d1.update(0, (p, bs.push(run))));
        assert(d1.update(0, (p, bs.push(run))) =~= seq![(p, bs.push(run))]);
    }
}

/// A file whose documentation is one run of literals on consecutive lines
/// has one entry, with one block that holds the whole run in source order.
pub proof fn lemma_single_block(p: Seq<char>, run: Seq<LitView>)
    requires
        block_wf(run),
    ensures
        append_all(Seq::empty(), p, run) == seq![(p, seq![run])],
    decreases run.len(),
{
    let e = Seq::<(Seq<char>, Blocks)>::empty();
    if run.len() == 1 {
        assert(run.drop_last() =~= Seq::<LitView>::empty());
        assert(append_all(e, p, run.drop_last()) == e);
        assert(!has_path(e, p));
        assert(run =~= seq![run[0]]);
        assert(e.push((p, seq![seq![run[0]]])) =~= seq![(p, seq![run])]);
    } else {
        let prev = run.drop_last();
        lemma_single_block(p, prev);
        let d1 = seq![(p, seq![prev])];
        assert(d1[0].0 == p);
        assert(path_index(d1, p) == 0);
        assert(spans_adjacent(run[run.len() - 2].1, run.last().1));
        assert(prev.push(run.last()) =~= run);
        assert(seq![prev].update(0, prev.push(run.last())) =~= seq![run]);
        assert(append_spec(d1, p, run.last()) == d1.update(0, (p, seq![run])));
        assert(d1.update(0, (p, seq![run])) =~= seq![(p, seq![run])]);
    }
}

/// Two runs of literals on consecutive lines, where the second does not
/// start on the line after the first ends, make two blocks of one entry.
pub proof fn lemma_split_blocks(p: Seq<char>, a: Seq<LitView>, b: Seq<LitView>)
    requires
        block_wf(a),
        block_wf(b),
        !spans_adjacent(a.last().1, b[0].1),
    ensures
        append_all(Seq::empty(), p, a + b) == seq![(p, seq![a, b])],
{
    crate::documentation::lemma_append_all_concat(Seq::empty(), p, a, b);
    lemma_single_block(p, a);
    lemma_run_after(p, seq![a], b);
    assert(seq![a].push(b) =~= seq![a, b]);
}

/// Token trees with no `doc` identifier at any depth hold no documentation,
/// and the collection of their file is empty.
pub proof fn lemma_no_doc_is_empty(p: Seq<char>, ts: Seq<Token>, i: int)
    requires
        !mentions_doc(ts, i),
    ensures
        doc_lines(ts, i) == Seq::<LitView>::empty(),
        append_all(Seq::empty(), p, doc_lines(ts, i)).len() == 0,
    decreases ts, ts.len() - i,
{
    if 0 <= i < ts.len() {
        match ts[i] {
            Token::Group(inner) => {
                broadcast use vstd::seq::group_seq_axioms, vstd::std_specs::vec::group_vec_axioms;

                assert(decreases_to!(ts => inner@));
                lemma_no_doc_is_empty(p, inner@, 0);
                lemma_no_doc_is_empty(p, ts, i + 1);
                assert(doc_lines(ts, i) =~= Seq::<LitView>::empty());
            },
            _ => {
                lemma_no_doc_is_empty(p, ts, i + 1);
            },
        }
    }
}

/// No path stands in both `a` and `b`.
pub open spec fn paths_disjoint(a: DocView, b: DocView) -> bool {
    forall|i: int, j: int| 0 <= i < a.len() && 0 <= j < b.len() ==> a[i].0 != b[j].0
}

proof fn lemma_concat_wf(a: DocView, b: DocView)
    requires
        doc_wf(a),
        doc_wf(b),
        paths_disjoint(a, b),
    ensures
        doc_wf(a + b),
{
    let c = a + b;
    assert forall|i: int, j: int| 0 <= i < j < c.len() implies c[i].0 != c[j].0 by {
        if j < a.len() {
        } else if i >= a.len() {
            assert(c[i] == b[i - a.len()] && c[j] == b[j - a.len()]);
        } else {
            assert(c[j] == b[j - a.len()]);
        }
    }
    assert forall|i: int| #![trigger c[i]] 0 <= i < c.len() implies c[i].1.len() > 0 && forall|k: int|
        0 <= k < c[i].1.len() ==> block_wf(#[trigger] c[i].1[k]) by {
        if i >= a.len() {
            assert(c[i] == b[i - a.len()]);
        }
    }
}

/// Joining collections with no path in common appends the entries of the
/// second after those of the first.
pub proof fn lemma_join_disjoint(a: DocView, b: DocView)
    requires
        doc_wf(a),
        doc_wf(b),
        paths_disjoint(a, b),
    ensures
        join_spec(a, b) == a + b,
    decreases b.len(),
{
    if b.len() == 0 {
        assert(a + b =~= a);
    } else {
        let prev = b.drop_last();
        let e = b.last();
        lemma_drop_last_wf(b);
        lemma_join_disjoint(a, prev);
        let c = a + prev;
        assert(!has_path(c, e.0)) by {
            if has_path(c, e.0) {
                let i = choose|i: int| 0 <= i < c.len() && c[i].0 == e.0;
                if i < a.len() {
                    assert(a[i].0 != b[b.len() - 1].0);
                } else {
                    assert(c[i] == b[i - a.len()]);
                }
            }
        }
        assert(c.push(e) =~= a + b);
    }
}

/// Combining three collections with no path in common gives all their
/// entries, in order, whichever way the joins are grouped.
pub proof fn lemma_combine_disjoint(a: DocView, b: DocView, c: DocView)
    requires
        doc_wf(a),
        doc_wf(b),
        doc_wf(c),
        paths_disjoint(a, b),
        paths_disjoint(a, c),
        paths_disjoint(b, c),
    ensures
        combine_spec(seq![a, b, c]) == a + b + c,
        join_spec(join_spec(a, b), c) == a + b + c,
        join_spec(a, join_spec(b, c)) == a + b + c,
{
    let e = Seq::<(Seq<char>, Blocks)>::empty();
    assert(paths_disjoint(e, a));
    assert(doc_wf(e));
    lemma_join_disjoint(e, a);
    assert(e + a =~= a);
    lemma_join_disjoint(a, b);
    lemma_concat_wf(a, b);
    assert(paths_disjoint(a + b, c)) by {
        assert forall|i: int, j: int| 0 <= i < (a + b).len() && 0 <= j < c.len() implies (a
            + b)[i].0 != c[j].0 by {
            if i >= a.len() {
                assert((a + b)[i] == b[i - a.len()]);
            }
        }
    }
    lemma_join_disjoint(a + b, c);
    lemma_join_disjoint(b, c);
    lemma_concat_wf(b, c);
    assert(paths_disjoint(a, b + c)) by {
        assert forall|i: int, j: int| 0 <= i < a.len() && 0 <= j < (b + c).len() implies a[i].0 != (b
            + c)[j].0 by {
            if j >= b.len() {
                assert((b + c)[j] == c[j - b.len()]);
            }
        }
    }
    lemma_join_disjoint(a, b + c);
    assert(a + (b + c) =~= a + b + c);
    let ds = seq![a, b, c];
    assert(ds.drop_last() =~= seq![a, b]);
    assert(seq![a, b].drop_last() =~= seq![a]);
    assert(seq![a].drop_last() =~= Seq::<DocView>::empty());
    assert(combine_spec(Seq::<DocView>::empty()) == e);
    assert(combine_spec(seq![a]) == join_spec(e, a));
    assert(combine_spec(seq![a, b]) == join_spec(combine_spec(seq![a]), b));
    assert(combine_spec(ds) == join_spec(combine_spec(seq![a, b]), c));
}

/// The blocks that `d` holds for path `p`; none where it does not hold `p`.
pub open spec fn blocks_of(d: DocView, p: Seq<char>) -> Blocks {
    if has_path(d, p) {
        d[path_index(d, p)].1
    } else {
        Seq::empty()
    }
}

proof fn lemma_blocks_at(d: DocView, p: Seq<char>, i: int)
    requires
        paths_unique(d),
        0 <= i < d.len(),
        d[i].0 == p,
    ensures
        blocks_of(d, p) == d[i].1,
{
    lemma_path_index(d, p, i);
}

/// Dropping the last entry of a well-formed collection leaves a
/// well-formed collection that does not hold the dropped entry's path.
proof fn lemma_drop_last_wf(b: DocView)
    requires
        doc_wf(b),
        b.len() > 0,
    ensures
        doc_wf(b.drop_last()),
        !has_path(b.drop_last(), b.last().0),
{
    let prev = b.drop_last();
    assert forall|i: int| #![trigger prev[i]] 0 <= i < prev.len() implies prev[i].1.len() > 0
        && forall|k: int| 0 <= k < prev[i].1.len() ==> block_wf(#[trigger] prev[i].1[k]) by {
        assert(prev[i] == b[i]);
    }
    assert(!has_path(prev, b.last().0)) by {
        if has_path(prev, b.last().0) {
            let i = choose|i: int| 0 <= i < prev.len() && prev[i].0 == b.last().0;
            assert(b[i].0 != b[b.len() - 1].0);
        }
    }
}

/// Joining one entry keeps the collection well formed and adds the entry's
/// blocks after those already held for its path.
proof fn lemma_join_entry_blocks(d: DocView, e: (Seq<char>, Blocks), p: Seq<char>)
    requires
        doc_wf(d),
        e.1.len() > 0,
        forall|k: int| 0 <= k < e.1.len() ==> block_wf(#[trigger] e.1[k]),
    ensures
        doc_wf(join_entry(d, e)),
        blocks_of(join_entry(d, e), p) == blocks_of(d, p) + (if p == e.0 {
            e.1
        } else {
            Seq::empty()
        }),
{
    let j = join_entry(d, e);
    if has_path(d, e.0) {
        let i = choose|i: int| 0 <= i < d.len() && d[i].0 == e.0;
        lemma_path_index(d, e.0, i);
        let nb = d[i].1 + e.1;
        assert(j == d.update(i, (e.0, nb)));
        assert forall|m: int| 0 <= m < nb.len() implies block_wf(#[trigger] nb[m]) by {
            if m >= d[i].1.len() {
                assert(nb[m] == e.1[m - d[i].1.len()]);
            }
        }
        assert(doc_wf(j));
        lemma_blocks_at(j, e.0, i);
        lemma_blocks_at(d, e.0, i);
    } else {
        assert(j == d.push(e));
        assert(doc_wf(j));
        lemma_blocks_at(j, e.0, d.len() as int);
        assert(blocks_of(d, e.0) =~= Seq::<Seq<LitView>>::empty());
    }
    if p != e.0 {
        if has_path(d, p) {
            let k = choose|k: int| 0 <= k < d.len() && d[k].0 == p;
            lemma_blocks_at(d, p, k);
            lemma_blocks_at(j, p, k);
        } else {
            assert(!has_path(j, p)) by {
                if has_path(j, p) {
                    let k = choose|k: int| 0 <= k < j.len() && j[k].0 == p;
                    if k < d.len() {
                        assert(d[k].0 == p);
                    }
                }
            }
        }
        assert(blocks_of(d, p) + Seq::<Seq<LitView>>::empty() =~= blocks_of(d, p));
    }
}

/// Joining keeps every block of both collections: for each path, the
/// blocks of the first come first, then those of the second, as they are,
/// with none merged across the seam; and the result is well formed.
pub proof fn lemma_join_blocks(a: DocView, b: DocView, p: Seq<char>)
    requires
        doc_wf(a),
        doc_wf(b),
    ensures
        doc_wf(join_spec(a, b)),
        blocks_of(join_spec(a, b), p) == blocks_of(a, p) + blocks_of(b, p),
    decreases b.len(),
{
    if b.len() == 0 {
        assert(blocks_of(b, p) =~= Seq::<Seq<LitView>>::empty());
        assert(blocks_of(a, p) + blocks_of(b, p) =~= blocks_of(a, p));
    } else {
        let prev = b.drop_last();
        let e = b.last();
        lemma_drop_last_wf(b);
        lemma_join_blocks(a, prev, p);
        let j0 = join_spec(a, prev);
        lemma_join_entry_blocks(j0, e, p);
        lemma_blocks_at(b, e.0, b.len() - 1);
        if p != e.0 {
            if has_path(prev, p) {
                let i = choose|i: int| 0 <= i < prev.len() && prev[i].0 == p;
                lemma_blocks_at(prev, p, i);
                lemma_blocks_at(b, p, i);
            } else {
                assert(!has_path(b, p)) by {
                    if has_path(b, p) {
                        let k = choose|k: int| 0 <= k < b.len() && b[k].0 == p;
                        if k < prev.len() {
                            assert(prev[k].0 == p);
                        }
                    }
                }
            }
        } else {
            assert(blocks_of(prev, p) =~= Seq::<Seq<LitView>>::empty());
        }
        let j = join_spec(a, b);
        assert(j == join_entry(j0, e));
        assert(blocks_of(j, p) =~= blocks_of(a, p) + blocks_of(b, p));
    }
}

/// A `doc`, a standalone `=` and a literal make one documentation literal.
pub proof fn lemma_doc_attribute(name: String, l: crate::token::LiteralToken)
    requires
        name@ == seq!['d', 'o', 'c'],
    ensures
        doc_lines(
            seq![Token::Ident(name), Token::Punct('=', crate::token::Spacing::Alone), Token::Literal(l)],
            0,
        ) == seq![literal_view(l)],
{
    let ts = seq![Token::Ident(name), Token::Punct('=', crate::token::Spacing::Alone), Token::Literal(l)];
    assert(doc_lines(ts, 3) == Seq::<LitView>::empty());
    assert(seq![literal_view(l)] + Seq::<LitView>::empty() =~= seq![literal_view(l)]);
}

/// Wrapping token trees in a group hides none of their documentation: the
/// walk finds in the group what it finds in the trees, at any depth.
pub proof fn lemma_group_transparent(inner: Vec<Token>, rest: Seq<Token>)
    ensures
        doc_lines(seq![Token::Group(inner)] + rest, 0) == doc_lines(inner@, 0) + doc_lines(rest, 0),
{
    let ts = seq![Token::Group(inner)] + rest;
    assert(ts[0] == Token::Group(inner));
    assert(ts.subrange(1, ts.len() as int) =~= rest);
    lemma_doc_lines_shift(rest, ts, 1);
    assert(doc_lines(ts, 1int + 0int) == doc_lines(rest, 0));
}

proof fn lemma_doc_lines_shift(rest: Seq<Token>, ts: Seq<Token>, k: int)
    requires
        0 <= k <= ts.len(),
        ts.subrange(k, ts.len() as int) == rest,
    ensures
        forall|i: int| 0 <= i ==> doc_lines(ts, k + i) == #[trigger] doc_lines(rest, i),
{
    assert forall|i: int| 0 <= i implies doc_lines(ts, k + i) == #[trigger] doc_lines(rest, i) by {
        lemma_doc_lines_shift_at(rest, ts, k, i);
    }
}

proof fn lemma_doc_lines_shift_at(rest: Seq<Token>, ts: Seq<Token>, k: int, i: int)
    requires
        0 <= k <= ts.len(),
        0 <= i,
        ts.subrange(k, ts.len() as int) == rest,
    ensures
        doc_lines(ts, k + i) == doc_lines(rest, i),
    decreases rest.len() - i,
{
    if i < rest.len() {
        assert(ts[k + i] == rest[i]);
        if i + 1 < rest.len() {
            assert(ts[k + i + 1] == rest[i + 1]);
        }
        if i + 2 < rest.len() {
            assert(ts[k + i + 2] == rest[i + 2]);
        }
        lemma_doc_lines_shift_at(rest, ts, k, i + 1);
        if i + 2 <= rest.len() {
            lemma_doc_lines_shift_at(rest, ts, k, i + 2);
        }
        if i + 3 <= rest.len() {
            lemma_doc_lines_shift_at(rest, ts, k, i + 3);
        }
    }
}

/// Joins group freely per path: `(a ⋈ b) ⋈ c` and `a ⋈ (b ⋈ c)` hold the
/// same blocks for every path, those of `a`, then `b`, then `c`.
pub proof fn lemma_join_associative_per_path(a: DocView, b: DocView, c: DocView, p: Seq<char>)
    requires
        doc_wf(a),
        doc_wf(b),
        doc_wf(c),
    ensures
        blocks_of(join_spec(join_spec(a, b), c), p) == blocks_of(a, p) + blocks_of(b, p) + blocks_of(c, p),
        blocks_of(join_spec(a, join_spec(b, c)), p) == blocks_of(join_spec(join_spec(a, b), c), p),
{
    lemma_join_blocks(a, b, p);
    lemma_join_blocks(join_spec(a, b), c, p);
    lemma_join_blocks(b, c, p);
    lemma_join_blocks(a, join_spec(b, c), p);
    assert(blocks_of(a, p) + (blocks_of(b, p) + blocks_of(c, p)) =~= blocks_of(a, p) + blocks_of(b, p)
        + blocks_of(c, p));
}

/// Every collection of `ds` is well formed.
pub open spec fn all_wf(ds: Seq<DocView>) -> bool {
    forall|i: int| 0 <= i < ds.len() ==> doc_wf(#[trigger] ds[i])
}

/// No two collections of `ds` have a path in common.
pub open spec fn all_disjoint(ds: Seq<DocView>) -> bool {
    forall|i: int, j: int| 0 <= i < ds.len() && 0 <= j < ds.len() && i != j ==> paths_disjoint(#[trigger] ds[i], #[trigger] ds[j])
}

proof fn lemma_has_path_blocks(d: DocView, p: Seq<char>)
    requires
        doc_wf(d),
    ensures
        has_path(d, p) <==> blocks_of(d, p).len() > 0,
{
    if has_path(d, p) {
        let i = choose|i: int| 0 <= i < d.len() && d[i].0 == p;
        lemma_blocks_at(d, p, i);
    }
}

proof fn lemma_all_drop_last(ds: Seq<DocView>)
    requires
        ds.len() > 0,
    ensures
        all_wf(ds) ==> all_wf(ds.drop_last()),
        all_disjoint(ds) ==> all_disjoint(ds.drop_last()),
{
    let prev = ds.drop_last();
    assert forall|i: int| 0 <= i < prev.len() implies prev[i] == ds[i] by {}
}

/// The combination of well-formed collections is well formed, and holds
/// for each path the blocks of the first input that holds it, then of the
/// second, and so on.
proof fn lemma_combine_blocks(ds: Seq<DocView>, p: Seq<char>)
    requires
        all_wf(ds),
    ensures
        doc_wf(combine_spec(ds)),
        ds.len() > 0 ==> blocks_of(combine_spec(ds), p) == blocks_of(combine_spec(ds.drop_last()), p)
            + blocks_of(ds.last(), p),
    decreases ds.len(),
{
    if ds.len() == 0 {
        assert(doc_wf(Seq::<(Seq<char>, Blocks)>::empty()));
    } else {
        lemma_all_drop_last(ds);
        lemma_combine_blocks(ds.drop_last(), p);
        lemma_join_blocks(combine_spec(ds.drop_last()), ds.last(), p);
    }
}

/// For path-disjoint inputs, the blocks that the combination holds for a
/// path are those of the one input that holds it, and none where no input
/// holds it.
pub proof fn lemma_combine_disjoint_per_path(ds: Seq<DocView>, p: Seq<char>)
    requires
        all_wf(ds),
        all_disjoint(ds),
    ensures
        forall|k: int| 0 <= k < ds.len() && has_path(#[trigger] ds[k], p) ==> blocks_of(combine_spec(ds), p) == blocks_of(ds[k], p),
        (forall|k: int| 0 <= k < ds.len() ==> !has_path(#[trigger] ds[k], p)) ==> blocks_of(combine_spec(ds), p).len() == 0,
    decreases ds.len(),
{
    if ds.len() == 0 {
        assert(blocks_of(Seq::<(Seq<char>, Blocks)>::empty(), p).len() == 0);
    } else {
        let prev = ds.drop_last();
        let n = ds.len() - 1;
        lemma_all_drop_last(ds);
        lemma_combine_disjoint_per_path(prev, p);
        lemma_combine_blocks(ds, p);
        assert forall|k: int| 0 <= k < ds.len() && has_path(#[trigger] ds[k], p) implies blocks_of(combine_spec(ds), p) == blocks_of(ds[k], p) by {
            if k == n {
                assert forall|m: int| 0 <= m < prev.len() implies !has_path(#[trigger] prev[m], p) by {
                    assert(paths_disjoint(ds[m], ds[n]));
                    if has_path(prev[m], p) {
                        let a = choose|a: int| 0 <= a < prev[m].len() && prev[m][a].0 == p;
                        let b = choose|b: int| 0 <= b < ds[n].len() && ds[n][b].0 == p;
                        assert(ds[m][a].0 != ds[n][b].0);
                    }
                }
                assert(blocks_of(combine_spec(prev), p) + blocks_of(ds[k], p) =~= blocks_of(ds[k], p));
            } else {
                assert(prev[k] == ds[k]);
                assert(paths_disjoint(ds[k], ds[n]));
                assert(!has_path(ds.last(), p)) by {
                    if has_path(ds[n], p) {
                        let a = choose|a: int| 0 <= a < ds[k].len() && ds[k][a].0 == p;
                        let b = choose|b: int| 0 <= b < ds[n].len() && ds[n][b].0 == p;
                        assert(ds[k][a].0 != ds[n][b].0);
                    }
                }
                assert(blocks_of(combine_spec(prev), p) + blocks_of(ds.last(), p) =~= blocks_of(ds[k], p));
            }
        }
        if forall|k: int| 0 <= k < ds.len() ==> !has_path(#[trigger] ds[k], p) {
            assert forall|m: int| 0 <= m < prev.len() implies !has_path(#[trigger] prev[m], p) by {
                assert(prev[m] == ds[m]);
            }
            assert(!has_path(ds[n], p));
        }
    }
}

/// Combining path-disjoint collections gives each path the same blocks,
/// and the same set of paths, whatever order the collections come in.
pub proof fn lemma_combine_any_order(ds: Seq<DocView>, es: Seq<DocView>, p: Seq<char>)
    requires
        all_wf(ds),
        all_disjoint(ds),
        all_wf(es),
        all_disjoint(es),
        forall|d: DocView| ds.contains(d) <==> es.contains(d),
    ensures
        blocks_of(combine_spec(ds), p) == blocks_of(combine_spec(es), p),
        has_path(combine_spec(ds), p) == has_path(combine_spec(es), p),
{
    lemma_combine_disjoint_per_path(ds, p);
    lemma_combine_disjoint_per_path(es, p);
    lemma_combine_blocks(ds, p);
    lemma_combine_blocks(es, p);
    lemma_has_path_blocks(combine_spec(ds), p);
    lemma_has_path_blocks(combine_spec(es), p);
    if exists|k: int| 0 <= k < ds.len() && has_path(#[trigger] ds[k], p) {
        let k = choose|k: int| 0 <= k < ds.len() && has_path(#[trigger] ds[k], p);
        assert(ds.contains(ds[k]));
        let m = choose|m: int| 0 <= m < es.len() && es[m] == ds[k];
        assert(has_path(es[m], p));
    } else {
        assert forall|m: int| 0 <= m < es.len() implies !has_path(#[trigger] es[m], p) by {
            assert(es.contains(es[m]));
            let k = choose|k: int| 0 <= k < ds.len() && ds[k] == es[m];
            assert(!has_path(ds[k], p));
        }
    }
}

/// Each literal of `s` starts before every later one.
pub open spec fn in_source_order(s: Seq<LitView>) -> bool {
    forall|i: int, j: int| 0 <= i < j < s.len() ==> starts_before(s[i].1, s[j].1)
}

proof fn lemma_order_split(a: Seq<LitView>, b: Seq<LitView>)
    requires
        in_source_order(a + b),
    ensures
        in_source_order(a),
        in_source_order(b),
        forall|i: int, j: int|
            0 <= i < a.len() && 0 <= j < b.len() ==> starts_before(a[i].1, b[j].1),
{
    let c = a + b;
    assert forall|i: int, j: int| 0 <= i < j < b.len() implies starts_before(b[i].1, b[j].1) by {
        assert(c[a.len() + i] == b[i] && c[a.len() + j] == b[j]);
    }
    assert forall|i: int, j: int| 0 <= i < a.len() && 0 <= j < b.len() implies starts_before(
        a[i].1,
        b[j].1,
    ) by {
        assert(c[i] == a[i] && c[a.len() + j] == b[j]);
    }
    assert forall|i: int, j: int| 0 <= i < j < a.len() implies starts_before(a[i].1, a[j].1) by {
        assert(c[i] == a[i] && c[j] == a[j]);
    }
}

proof fn lemma_order_join(a: Seq<LitView>, b: Seq<LitView>)
    requires
        in_source_order(a),
        in_source_order(b),
        forall|i: int, j: int|
            0 <= i < a.len() && 0 <= j < b.len() ==> starts_before(a[i].1, b[j].1),
    ensures
        in_source_order(a + b),
{
    let c = a + b;
    assert forall|i: int, j: int| 0 <= i < j < c.len() implies starts_before(c[i].1, c[j].1) by {
        if j < a.len() {
            assert(c[i] == a[i] && c[j] == a[j]);
        } else if i >= a.len() {
            assert(c[i] == b[i - a.len()] && c[j] == b[j - a.len()]);
        } else {
            assert(c[i] == a[i] && c[j] == b[j - a.len()]);
        }
    }
}

/// Each element of `sub` stands in `s`.
pub open spec fn drawn_from(sub: Seq<LitView>, s: Seq<LitView>) -> bool {
    forall|k: int| 0 <= k < sub.len() ==> s.contains(#[trigger] sub[k])
}

proof fn lemma_drawn_concat(a: Seq<LitView>, b: Seq<LitView>, x: Seq<LitView>, y: Seq<LitView>)
    requires
        drawn_from(a, x),
        drawn_from(b, y),
    ensures
        drawn_from(a + b, x + y),
{
    assert forall|k: int| 0 <= k < (a + b).len() implies (x + y).contains(#[trigger] (a + b)[k]) by {
        if k < a.len() {
            let m = choose|m: int| 0 <= m < x.len() && x[m] == a[k];
            assert((x + y)[m] == a[k]);
        } else {
            let m = choose|m: int| 0 <= m < y.len() && y[m] == b[k - a.len()];
            assert((x + y)[x.len() + m] == b[k - a.len()]);
        }
    }
}

proof fn lemma_ordered_sub(a: Seq<LitView>, b: Seq<LitView>, x: Seq<LitView>, y: Seq<LitView>)
    requires
        drawn_from(a, x),
        drawn_from(b, y),
        in_source_order(a),
        in_source_order(b),
        in_source_order(x + y),
    ensures
        in_source_order(a + b),
{
    lemma_order_split(x, y);
    assert forall|i: int, j: int| 0 <= i < a.len() && 0 <= j < b.len() implies starts_before(
        a[i].1,
        b[j].1,
    ) by {
        assert(x.contains(a[i]));
        assert(y.contains(b[j]));
        let m = choose|m: int| 0 <= m < x.len() && x[m] == a[i];
        let n = choose|n: int| 0 <= n < y.len() && y[n] == b[j];
    }
    lemma_order_join(a, b);
}

/// The walk finds documentation literals at any depth of nested groups,
/// and finds them in the order of the token trees: what it reports is drawn
/// from the literals of the trees, and where those stand in source order,
/// so do the documentation literals reported.
pub proof fn lemma_walk_in_source_order(ts: Seq<Token>, i: int)
    ensures
        drawn_from(doc_lines(ts, i), all_literals(ts, i)),
        in_source_order(all_literals(ts, i)) ==> in_source_order(doc_lines(ts, i)),
    decreases ts, ts.len() - i,
{
    let e = Seq::<LitView>::empty();
    if i < 0 || i >= ts.len() {
        assert(in_source_order(e));
    } else {
        let all = all_literals(ts, i);
        let doc = doc_lines(ts, i);
        assert(drawn_from(e, all));
        assert(in_source_order(e));
        match ts[i] {
            Token::Group(inner) => {
                broadcast use vstd::seq::group_seq_axioms, vstd::std_specs::vec::group_vec_axioms;

                assert(decreases_to!(ts => inner@));
                lemma_walk_in_source_order(inner@, 0);
                lemma_walk_in_source_order(ts, i + 1);
                lemma_drawn_concat(doc_lines(inner@, 0), doc_lines(ts, i + 1), all_literals(inner@, 0), all_literals(ts, i + 1));
                if in_source_order(all) {
                    lemma_order_split(all_literals(inner@, 0), all_literals(ts, i + 1));
                    lemma_ordered_sub(doc_lines(inner@, 0), doc_lines(ts, i + 1), all_literals(inner@, 0), all_literals(ts, i + 1));
                }
            },
            Token::Literal(l) => {
                lemma_walk_in_source_order(ts, i + 1);
                lemma_drawn_concat(e, doc_lines(ts, i + 1), seq![literal_view(l)], all_literals(ts, i + 1));
                assert(e + doc_lines(ts, i + 1) =~= doc);
                if in_source_order(all) {
                    lemma_order_split(seq![literal_view(l)], all_literals(ts, i + 1));
                }
            },
            Token::Ident(name) => {
                if name@ != seq!['d', 'o', 'c'] || i + 1 >= ts.len() {
                    lemma_walk_in_source_order(ts, i + 1);
                } else if !is_alone_eq(ts[i + 1]) || i + 2 >= ts.len() {
                    lemma_walk_in_source_order(ts, i + 2);
                    let t1 = all_literals(ts, i + 1);
                    assert(all == t1);
                    let head = t1.subrange(0, t1.len() - all_literals(ts, i + 2).len());
                    assert(t1 =~= head + all_literals(ts, i + 2)) by {
                        match ts[i + 1] {
                            Token::Literal(l) => {},
                            Token::Group(g) => {},
                            _ => {},
                        }
                    }
                    lemma_drawn_concat(e, doc_lines(ts, i + 2), head, all_literals(ts, i + 2));
                    assert(e + doc_lines(ts, i + 2) =~= doc_lines(ts, i + 2));
                    if in_source_order(all) {
                        lemma_order_split(head, all_literals(ts, i + 2));
                    }
                } else {
                    lemma_walk_in_source_order(ts, i + 3);
                    let rest = all_literals(ts, i + 3);
                    let t2 = all_literals(ts, i + 2);
                    assert(all == all_literals(ts, i + 1));
                    assert(ts[i + 1] == Token::Punct('=', crate::token::Spacing::Alone));
                    assert(all_literals(ts, i + 1) == t2);
                    let head = t2.subrange(0, t2.len() - rest.len());
                    assert(t2 =~= head + rest) by {
                        match ts[i + 2] {
                            Token::Literal(l) => {},
                            Token::Group(g) => {},
                            _ => {},
                        }
                    }
                    match ts[i + 2] {
                        Token::Literal(l) => {
                            assert(head =~= seq![literal_view(l)]);
                            lemma_drawn_concat(seq![literal_view(l)], doc_lines(ts, i + 3), head, rest);
                            if in_source_order(all) {
                                lemma_order_split(head, rest);
                                lemma_ordered_sub(seq![literal_view(l)], doc_lines(ts, i + 3), head, rest);
                            }
                        },
                        _ => {
                            lemma_drawn_concat(e, doc_lines(ts, i + 3), head, rest);
                            assert(e + doc_lines(ts, i + 3) =~= doc);
                            if in_source_order(all) {
                                lemma_order_split(head, rest);
                            }
                        },
                    }
                }
            },
            _ => {
                lemma_walk_in_source_order(ts, i + 1);
            },
        }
    }
}

/// The literals of the blocks `bs`, block after block.
pub open spec fn flatten_blocks(bs: Blocks) -> Seq<LitView>
    decreases bs.len(),
{
    if bs.len() == 0 {
        Seq::empty()
    } else {
        flatten_blocks(bs.drop_last()) + bs.last()
    }
}

/// Recording literals for one path from an empty collection gives at most
/// one entry, whose blocks hold those literals in the order recorded.
proof fn lemma_one_path_blocks(p: Seq<char>, ls: Seq<LitView>)
    ensures
        ls.len() == 0 ==> append_all(Seq::empty(), p, ls).len() == 0,
        ls.len() > 0 ==> {
            let d = append_all(Seq::empty(), p, ls);
            &&& d.len() == 1
            &&& d[0].0 == p
            &&& d[0].1.len() > 0
            &&& d[0].1.last().len() > 0
            &&& flatten_blocks(d[0].1) == ls
        },
    decreases ls.len(),
{
    let e = Seq::<(Seq<char>, Blocks)>::empty();
    if ls.len() > 0 {
        let prev = ls.drop_last();
        let l = ls.last();
        lemma_one_path_blocks(p, prev);
        let d0 = append_all(e, p, prev);
        if prev.len() == 0 {
            assert(d0.len() == 0);
            assert(!has_path(d0, p));
            let bs = seq![seq![l]];
            assert(bs.drop_last() =~= Seq::<Seq<LitView>>::empty());
            assert(flatten_blocks(bs.drop_last()) == Seq::<LitView>::empty());
            assert(Seq::<LitView>::empty() + seq![l] =~= seq![l]);
            assert(ls =~= seq![l]);
        } else {
            let bs = d0[0].1;
            assert(path_index(d0, p) == 0) by {
                lemma_path_index(d0, p, 0);
            }
            let last = bs.last();
            if spans_adjacent(last.last().1, l.1) {
                let nb = bs.update(bs.len() - 1, last.push(l));
                assert(nb.drop_last() =~= bs.drop_last());
                assert(flatten_blocks(nb) =~= flatten_blocks(bs) + seq![l]);
            } else {
                let nb = bs.push(seq![l]);
                assert(nb.drop_last() =~= bs);
                assert(flatten_blocks(nb) =~= flatten_blocks(bs) + seq![l]);
            }
            assert(prev + seq![l] =~= ls);
        }
    }
}

/// The documentation of one file, as recorded from its token trees, holds
/// every literal that the walk finds, block after block in the order found;
/// where the literals of the trees stand in source order, so do those of
/// the blocks.
pub proof fn lemma_file_blocks_in_source_order(p: Seq<char>, ts: Seq<Token>)
    ensures
        ({
            let d = append_all(Seq::empty(), p, doc_lines(ts, 0));
            &&& d.len() <= 1
            &&& d.len() == 1 ==> d[0].0 == p && flatten_blocks(d[0].1) == doc_lines(ts, 0)
            &&& d.len() == 1 && in_source_order(all_literals(ts, 0)) ==> in_source_order(
                flatten_blocks(d[0].1),
            )
        }),
{
    lemma_one_path_blocks(p, doc_lines(ts, 0));
    lemma_walk_in_source_order(ts, 0);
}

} // verus!
