//! Documentation literals with their quoting removed.

use vstd::prelude::*;
use crate::span::Span;

verus! {

/// Number of consecutive `#` characters in `t` from index `i` on.
pub open spec fn hashes_from(t: Seq<char>, i: int) -> nat
    decreases t.len() - i,
{
    if 0 <= i < t.len() && t[i] == '#' {
        1 + hashes_from(t, i + 1)
    } else {
        0
    }
}

/// `t` is a raw string literal `r#..#"..."#..#` with `k` hashes on each side.
pub open spec fn is_raw_quoted(t: Seq<char>, k: nat) -> bool {
    &&& t.len() >= 2 * k + 3
    &&& t[0] == 'r'
    &&& t[k + 1 as int] == '"'
    &&& t[t.len() - 1 - k] == '"'
    &&& forall|j: int| t.len() - k <= j < t.len() ==> t[j] == '#'
}

/// `t` is a plain string literal `"..."`.
pub open spec fn is_plain_quoted(t: Seq<char>) -> bool {
    t.len() >= 2 && t[0] == '"' && t[t.len() - 1] == '"'
}

/// Number of quoting characters before and after the content of the
/// literal text `t`; nothing is stripped from text that is not quoted.
pub open spec fn quote_widths(t: Seq<char>) -> (nat, nat) {
    let k = hashes_from(t, 1);
    if is_plain_quoted(t) {
        (1, 1)
    } else if is_raw_quoted(t, k) {
        ((k + 2) as nat, (k + 1) as nat)
    } else {
        (0, 0)
    }
}

/// The content of the literal text `t` without its quoting.
pub open spec fn unquoted(t: Seq<char>) -> Seq<char> {
    let (pre, post) = quote_widths(t);
    t.subrange(pre as int, t.len() - post)
}

/// A documentation literal with its quoting removed, and the span of the
/// token it came from.
#[derive(Debug, Clone)]
pub struct TrimmedLiteral {
    content: String,
    span: Span,
}

impl View for TrimmedLiteral {
    type V = (Seq<char>, Span);

    closed spec fn view(&self) -> (Seq<char>, Span) {
        (self.content@, self.span)
    }
}

fn count_hashes(t: &str, start: usize) -> (r: usize)
    requires
        start <= t@.len(),
    ensures
        r == hashes_from(t@, start as int),
        start + r <= t@.len(),
        forall|j: int| start <= j < start + r ==> t@[j] == '#',
{
    let n = t.unicode_len();
    let mut i = start;
    while i < n && t.get_char(i) == '#'
        invariant
            start <= i <= n,
            n == t@.len(),
            hashes_from(t@, start as int) == (i - start) + hashes_from(t@, i as int),
            forall|j: int| start <= j < i ==> t@[j] == '#',
        decreases n - i,
    {
        i = i + 1;
    }
    (i - start) as usize
}

fn widths_of(t: &str) -> (r: (usize, usize))
    ensures
        r.0 == quote_widths(t@).0,
        r.1 == quote_widths(t@).1,
{
    let n = t.unicode_len();
    if n >= 2 && t.get_char(0) == '"' && t.get_char(n - 1) == '"' {
        return (1, 1);
    }
    if n < 1 {
        return (0, 0);
    }
    let k = count_hashes(t, 1);
    if n >= 3 && k <= (n - 3) / 2 && t.get_char(0) == 'r' && t.get_char(k + 1) == '"'
        && t.get_char(n - 1 - k) == '"' {
        let mut j = n - k;
        while j < n
            invariant
                n - k <= j <= n,
                n == t@.len(),
                k == hashes_from(t@, 1),
                n >= 2 * k + 3,
                t@[0] == 'r',
                t@[k + 1] == '"',
                t@[n - 1 - k] == '"',
                !is_plain_quoted(t@),
                forall|m: int| n - k <= m < j ==> t@[m] == '#',
            decreases n - j,
        {
            if t.get_char(j) != '#' {
                assert(!is_raw_quoted(t@, k as nat));
                return (0, 0);
            }
            j = j + 1;
        }
        assert(is_raw_quoted(t@, k as nat));
        (k + 2, k + 1)
    } else {
        assert(!is_raw_quoted(t@, k as nat));
        (0, 0)
    }
}

impl TrimmedLiteral {
    /// Strips the quoting from the literal text `text` of a token covering
    /// `span`.
    pub fn new(text: &str, span: Span) -> (r: TrimmedLiteral)
        ensures
            r@ == (unquoted(text@), span),
    {
        let (pre, post) = widths_of(text);
        let n = text.unicode_len();
        let inner = text.substring_char(pre, n - post);
        TrimmedLiteral { content: inner.to_owned(), span }
    }

    /// The content of the literal.
    pub fn as_str(&self) -> (r: &str)
        ensures
            r@ == self@.0,
    {
        self.content.as_str()
    }

    /// The span of the token the literal came from.
    pub fn span(&self) -> (r: Span)
        ensures
            r == self@.1,
    {
        self.span
    }
}

} // verus!
