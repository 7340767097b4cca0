//! The pipe-delimited record format used to persist the memory store:
//! backslash escaping for field text, separator splitting and joining, and
//! the lemmas that make a round trip lossless.

use vstd::prelude::*;
use crate::text::space_char;

verus! {

// ---------------------------------------------------------------------------
// Escaping field text
// ---------------------------------------------------------------------------

/// Characters that stand after a backslash in an escape pair.
pub open spec fn escapable(c: char) -> bool {
    c == '\\' || c == 'p' || c == 'n' || c == 'r'
}

/// The escaped form of one character.
pub open spec fn esc_char(c: char) -> Seq<char> {
    if c == '\\' {
        seq!['\\', '\\']
    } else if c == '|' {
        seq!['\\', 'p']
    } else if c == '\n' {
        seq!['\\', 'n']
    } else if c == '\r' {
        seq!['\\', 'r']
    } else {
        seq![c]
    }
}

/// The character named by an escape pair.
pub open spec fn unesc_pair(c: char) -> char {
    if c == 'p' {
        '|'
    } else if c == 'n' {
        '\n'
    } else if c == 'r' {
        '\r'
    } else {
        '\\'
    }
}

pub open spec fn escape_seq(s: Seq<char>) -> Seq<char>
    decreases s.len(),
{
    if s.len() == 0 {
        Seq::empty()
    } else {
        esc_char(s[0]) + escape_seq(s.drop_first())
    }
}

pub open spec fn unescape_seq(s: Seq<char>) -> Seq<char>
    decreases s.len(),
{
    if s.len() == 0 {
        Seq::empty()
    } else if s[0] == '\\' && s.len() >= 2 && escapable(s[1]) {
        seq![unesc_pair(s[1])] + unescape_seq(s.skip(2))
    } else {
        seq![s[0]] + unescape_seq(s.skip(1))
    }
}

pub proof fn lemma_escape_app(a: Seq<char>, b: Seq<char>)
    ensures
        escape_seq(a + b) == escape_seq(a) + escape_seq(b),
    decreases a.len(),
{
    if a.len() == 0 {
        assert(a + b =~= b);
        assert(escape_seq(a) + escape_seq(b) =~= escape_seq(b));
    } else {
        lemma_escape_app(a.drop_first(), b);
        assert((a + b).drop_first() =~= a.drop_first() + b);
        assert(esc_char(a[0]) + (escape_seq(a.drop_first()) + escape_seq(b)) =~= (esc_char(a[0])
            + escape_seq(a.drop_first())) + escape_seq(b));
    }
}

/// A sequence fit to stand in a record field: free of the separator and of
/// line breaks.
pub open spec fn field_safe(s: Seq<char>) -> bool {
    forall|i: int| 0 <= i < s.len() ==> s[i] != '|' && s[i] != '\n' && s[i] != '\r'
}

pub proof fn lemma_escape_field_safe(s: Seq<char>)
    ensures
        field_safe(escape_seq(s)),
    decreases s.len(),
{
    if s.len() > 0 {
        lemma_escape_field_safe(s.drop_first());
        let e = escape_seq(s);
        let h = esc_char(s[0]);
        assert forall|i: int| 0 <= i < e.len() implies e[i] != '|' && e[i] != '\n' && e[i]
            != '\r' by {
            if i < h.len() {
                assert(e[i] == h[i]);
            } else {
                assert(e[i] == escape_seq(s.drop_first())[i - h.len()]);
            }
        }
    }
}

/// Decoding inverts encoding, for every sequence.
pub proof fn lemma_unescape_escape(s: Seq<char>)
    ensures
        unescape_seq(escape_seq(s)) == s,
    decreases s.len(),
{
    if s.len() == 0 {
        assert(unescape_seq(escape_seq(s)) =~= s);
    } else {
        lemma_unescape_escape(s.drop_first());
        let c = s[0];
        let e = escape_seq(s);
        let h = esc_char(c);
        assert(e =~= h + escape_seq(s.drop_first()));
        if c == '\\' || c == '|' || c == '\n' || c == '\r' {
            assert(h.len() == 2 && h[0] == '\\' && escapable(h[1]) && unesc_pair(h[1]) == c);
            assert(e.skip(2) =~= escape_seq(s.drop_first()));
            assert(unescape_seq(e) =~= seq![c] + unescape_seq(escape_seq(s.drop_first())));
            assert(seq![c] + s.drop_first() =~= s);
        } else {
            assert(h =~= seq![c]);
            assert(e[0] == c && c != '\\');
            assert(e.skip(1) =~= escape_seq(s.drop_first()));
            assert(unescape_seq(e) =~= seq![c] + unescape_seq(escape_seq(s.drop_first())));
            assert(seq![c] + s.drop_first() =~= s);
        }
    }
}

/// Applies the escape scheme to the given text.
pub fn escape_str(s: &str) -> (r: String)
    ensures
        r@ == escape_seq(s@),
{
    let v = crate::text::str_to_chars(s);
    let mut r = String::new();
    let mut i: usize = 0;
    while i < v.len()
        invariant
            v@ == s@,
            i <= v@.len(),
            r@ == escape_seq(s@.take(i as int)),
        decreases v@.len() - i,
    {
        let c = v[i];
        if c == '\\' {
            crate::text::push_char(&mut r, '\\');
            crate::text::push_char(&mut r, '\\');
        } else if c == '|' {
            crate::text::push_char(&mut r, '\\');
            crate::text::push_char(&mut r, 'p');
        } else if c == '\n' {
            crate::text::push_char(&mut r, '\\');
            crate::text::push_char(&mut r, 'n');
        } else if c == '\r' {
            crate::text::push_char(&mut r, '\\');
            crate::text::push_char(&mut r, 'r');
        } else {
            crate::text::push_char(&mut r, c);
        }
        proof {
            lemma_escape_app(s@.take(i as int), seq![s@[i as int]]);
            assert(s@.take(i + 1) =~= s@.take(i as int) + seq![s@[i as int]]);
            assert(seq![s@[i as int]].drop_first() =~= Seq::<char>::empty());
            assert(escape_seq(Seq::<char>::empty()) =~= Seq::<char>::empty());
            assert(escape_seq(seq![s@[i as int]]) =~= esc_char(s@[i as int]));
            assert(r@ =~= escape_seq(s@.take(i + 1)));
        }
        i = i + 1;
    }
    proof {
        assert(s@.take(s@.len() as int) =~= s@);
    }
    r
}

/// Undoes the escape scheme.
pub fn unescape_chars(v: &Vec<char>) -> (r: String)
    ensures
        r@ == unescape_seq(v@),
{
    let n: usize = v.len();
    let mut r = String::new();
    let mut i: usize = 0;
    proof {
        assert(v@.skip(0) =~= v@);
        assert(r@ + unescape_seq(v@) =~= unescape_seq(v@));
    }
    while i < n
        invariant
            n == v@.len(),
            i <= n,
            r@ + unescape_seq(v@.skip(i as int)) == unescape_seq(v@),
        decreases n - i,
    {
        let ghost pre = r@;
        let c = v[i];
        if c == '\\' && i + 1 < n {
            let d = v[i + 1];
            if d == '\\' || d == 'p' || d == 'n' || d == 'r' {
                crate::text::push_char(&mut r, if d == 'p' {
                    '|'
                } else if d == 'n' {
                    '\n'
                } else if d == 'r' {
                    '\r'
                } else {
                    '\\'
                });
                proof {
                    let rest = v@.skip(i as int);
                    assert(rest[0] == '\\' && rest.len() >= 2 && escapable(rest[1]));
                    assert(rest.skip(2) =~= v@.skip(i + 2));
                    assert(unescape_seq(rest) =~= seq![unesc_pair(rest[1])] + unescape_seq(
                        v@.skip(i + 2),
                    ));
                    assert(r@ =~= pre.push(unesc_pair(rest[1])));
                    assert(r@ + unescape_seq(v@.skip(i + 2)) =~= pre + unescape_seq(rest));
                }
                i = i + 2;
            } else {
                crate::text::push_char(&mut r, c);
                proof {
                    let rest = v@.skip(i as int);
                    assert(rest[0] == '\\' && !(rest.len() >= 2 && escapable(rest[1])));
                    assert(rest.skip(1) =~= v@.skip(i + 1));
                    assert(unescape_seq(rest) =~= seq![rest[0]] + unescape_seq(v@.skip(i + 1)));
                    assert(r@ + unescape_seq(v@.skip(i + 1)) =~= pre + unescape_seq(rest));
                }
                i = i + 1;
            }
        } else {
            crate::text::push_char(&mut r, c);
            proof {
                let rest = v@.skip(i as int);
                assert(rest[0] == c);
                if c == '\\' {
                    assert(rest.len() == 1);
                }
                assert(rest.skip(1) =~= v@.skip(i + 1));
                assert(unescape_seq(rest) =~= seq![rest[0]] + unescape_seq(v@.skip(i + 1)));
                assert(r@ + unescape_seq(v@.skip(i + 1)) =~= pre + unescape_seq(rest));
            }
            i = i + 1;
        }
    }
    proof {
        assert(v@.skip(n as int) =~= Seq::<char>::empty());
        assert(unescape_seq(Seq::<char>::empty()) =~= Seq::<char>::empty());
        assert(r@ + unescape_seq(v@.skip(n as int)) =~= r@);
    }
    r
}

// ---------------------------------------------------------------------------
// Splitting and joining on a separator
// ---------------------------------------------------------------------------

/// Index of the first occurrence of `c`, or the length when absent.
pub open spec fn first_idx(s: Seq<char>, c: char) -> int
    decreases s.len(),
{
    if s.len() == 0 {
        0
    } else if s[0] == c {
        0
    } else {
        1 + first_idx(s.drop_first(), c)
    }
}

pub proof fn lemma_first_idx(s: Seq<char>, c: char)
    ensures
        0 <= first_idx(s, c) <= s.len(),
        first_idx(s, c) < s.len() ==> s[first_idx(s, c)] == c,
        forall|j: int| 0 <= j < first_idx(s, c) ==> s[j] != c,
    decreases s.len(),
{
    if s.len() > 0 && s[0] != c {
        lemma_first_idx(s.drop_first(), c);
        assert forall|j: int| 0 <= j < first_idx(s, c) implies s[j] != c by {
            if j > 0 {
                assert(s.drop_first()[j - 1] != c);
                assert(s[j] == s.drop_first()[j - 1]);
            }
        }
    }
}

/// The pieces of `s` between occurrences of `c`: always at least one piece,
/// one more piece than occurrences of `c`.
pub open spec fn split_char(s: Seq<char>, c: char) -> Seq<Seq<char>>
    decreases s.len(),
{
    let fi = first_idx(s, c);
    if fi >= s.len() {
        seq![s]
    } else if 0 <= fi {
        seq![s.take(fi)] + split_char(s.skip(fi + 1), c)
    } else {
        seq![s]
    }
}

/// Like `split_char`, but stops after `k` pieces: the last piece holds the
/// rest, separators included.
pub open spec fn splitn_char(s: Seq<char>, c: char, k: nat) -> Seq<Seq<char>>
    decreases s.len(), k,
{
    let fi = first_idx(s, c);
    if k <= 1 || fi >= s.len() {
        seq![s]
    } else if 0 <= fi {
        seq![s.take(fi)] + splitn_char(s.skip(fi + 1), c, (k - 1) as nat)
    } else {
        seq![s]
    }
}

pub open spec fn join_char(parts: Seq<Seq<char>>, c: char) -> Seq<char>
    decreases parts.len(),
{
    if parts.len() == 0 {
        Seq::empty()
    } else if parts.len() == 1 {
        parts[0]
    } else {
        parts[0] + seq![c] + join_char(parts.drop_first(), c)
    }
}

pub open spec fn free_of(s: Seq<char>, c: char) -> bool {
    forall|i: int| 0 <= i < s.len() ==> s[i] != c
}

pub proof fn lemma_first_idx_absent(s: Seq<char>, c: char)
    requires
        free_of(s, c),
    ensures
        first_idx(s, c) == s.len(),
    decreases s.len(),
{
    if s.len() > 0 {
        lemma_first_idx_absent(s.drop_first(), c);
    }
}

/// Occurs-first index of a piece followed by a separator and a tail.
pub proof fn lemma_first_idx_concat(a: Seq<char>, c: char, b: Seq<char>)
    requires
        free_of(a, c),
    ensures
        first_idx(a + seq![c] + b, c) == a.len(),
    decreases a.len(),
{
    let s = a + seq![c] + b;
    if a.len() == 0 {
        assert(s[0] == c);
    } else {
        lemma_first_idx_concat(a.drop_first(), c, b);
        assert(s[0] == a[0] && a[0] != c);
        assert(s.drop_first() =~= a.drop_first() + seq![c] + b);
    }
}

/// Splitting inverts joining when every piece is free of the separator.
pub proof fn lemma_split_join(parts: Seq<Seq<char>>, c: char)
    requires
        parts.len() >= 1,
        forall|i: int| 0 <= i < parts.len() ==> free_of(#[trigger] parts[i], c),
    ensures
        split_char(join_char(parts, c), c) == parts,
    decreases parts.len(),
{
    let s = join_char(parts, c);
    if parts.len() == 1 {
        lemma_first_idx_absent(parts[0], c);
        assert(split_char(s, c) =~= parts);
    } else {
        lemma_split_join(parts.drop_first(), c);
        let a = parts[0];
        let b = join_char(parts.drop_first(), c);
        assert(s =~= a + seq![c] + b);
        lemma_first_idx_concat(a, c, b);
        assert(s.take(a.len() as int) =~= a);
        assert(s.skip(a.len() as int + 1) =~= b);
        assert(split_char(s, c) =~= seq![a] + split_char(b, c));
        assert(seq![a] + parts.drop_first() =~= parts);
    }
}

/// Splitting with a limit recovers the leading pieces and leaves the rest
/// in the last one.
pub proof fn lemma_splitn_join(parts: Seq<Seq<char>>, c: char, k: nat)
    requires
        parts.len() == k,
        k >= 1,
        forall|i: int| 0 <= i < parts.len() - 1 ==> free_of(#[trigger] parts[i], c),
    ensures
        splitn_char(join_char(parts, c), c, k) == parts,
    decreases parts.len(),
{
    let s = join_char(parts, c);
    if parts.len() == 1 {
        lemma_first_idx(s, c);
        if first_idx(s, c) >= s.len() {
            assert(splitn_char(s, c, k) =~= parts);
        } else {
            assert(splitn_char(s, c, k) =~= parts);
        }
    } else {
        lemma_splitn_join(parts.drop_first(), c, (k - 1) as nat);
        let a = parts[0];
        let b = join_char(parts.drop_first(), c);
        assert(s =~= a + seq![c] + b);
        lemma_first_idx_concat(a, c, b);
        assert(s.take(a.len() as int) =~= a);
        assert(s.skip(a.len() as int + 1) =~= b);
        assert(splitn_char(s, c, k) =~= seq![a] + splitn_char(b, c, (k - 1) as nat));
        assert(seq![a] + parts.drop_first() =~= parts);
    }
}

/// Finds the first occurrence of `c` in `v` at or after `from`.
fn find_from(v: &Vec<char>, from: usize, c: char) -> (r: usize)
    requires
        from <= v@.len(),
    ensures
        from + first_idx(v@.skip(from as int), c) == r,
        r <= v@.len(),
{
    let n: usize = v.len();
    let mut i: usize = from;
    while i < n
        invariant
            n == v@.len(),
            from <= i <= n,
            forall|j: int| from <= j < i ==> v@[j] != c,
        decreases n - i,
    {
        if v[i] == c {
            proof {
                lemma_first_idx_in_window(v@, from as int, i as int, c);
            }
            return i;
        }
        i = i + 1;
    }
    proof {
        assert(forall|j: int| 0 <= j < v@.skip(from as int).len() ==> v@.skip(from as int)[j] != c);
        lemma_first_idx_absent(v@.skip(from as int), c);
    }
    n
}

proof fn lemma_first_idx_in_window(s: Seq<char>, from: int, at: int, c: char)
    requires
        0 <= from <= at < s.len(),
        s[at] == c,
        forall|j: int| from <= j < at ==> s[j] != c,
    ensures
        first_idx(s.skip(from), c) == at - from,
    decreases at - from,
{
    let rest = s.skip(from);
    if at == from {
        assert(rest[0] == c);
    } else {
        lemma_first_idx_in_window(s, from + 1, at, c);
        assert(rest[0] == s[from] && s[from] != c);
        assert(rest.drop_first() =~= s.skip(from + 1));
    }
}

/// The subrange `v[a..b]` as a fresh vector.
pub fn subvec(v: &Vec<char>, a: usize, b: usize) -> (r: Vec<char>)
    requires
        a <= b <= v@.len(),
    ensures
        r@ == v@.subrange(a as int, b as int),
{
    let mut r: Vec<char> = Vec::new();
    let mut i: usize = a;
    while i < b
        invariant
            a <= i <= b <= v@.len(),
            r@ == v@.subrange(a as int, i as int),
        decreases b - i,
    {
        r.push(v[i]);
        proof {
            assert(r@.drop_last() =~= v@.subrange(a as int, i as int));
            assert(r@ =~= v@.subrange(a as int, i + 1));
        }
        i = i + 1;
    }
    r
}

/// Splits `v` on every occurrence of `c`.
pub fn split_all(v: &Vec<char>, c: char) -> (r: Vec<Vec<char>>)
    ensures
        r@.map_values(|p: Vec<char>| p@) == split_char(v@, c),
{
    let n: usize = v.len();
    let mut r: Vec<Vec<char>> = Vec::new();
    let mut pos: usize = 0;
    proof {
        assert(v@.skip(0) =~= v@);
        assert(r@.map_values(|p: Vec<char>| p@) + split_char(v@, c) =~= split_char(v@, c));
    }
    loop
        invariant_except_break
            split_char(v@, c) == r@.map_values(|p: Vec<char>| p@) + split_char(
                v@.skip(pos as int),
                c,
            ),
        invariant
            n == v@.len(),
            pos <= n,
        ensures
            r@.map_values(|p: Vec<char>| p@) == split_char(v@, c),
        decreases n - pos,
    {
        let ghost rr = r@;
        let fi = find_from(v, pos, c);
        proof {
            lemma_first_idx(v@.skip(pos as int), c);
        }
        if fi >= n {
            let piece = subvec(v, pos, n);
            r.push(piece);
            proof {
                let rest = v@.skip(pos as int);
                assert(split_char(rest, c) =~= seq![rest]);
                assert(piece@ =~= rest);
                assert(r@ =~= rr.push(piece));
                assert(r@.map_values(|p: Vec<char>| p@) =~= rr.map_values(|p: Vec<char>| p@)
                    + seq![rest]);
                assert(r@.map_values(|p: Vec<char>| p@) =~= split_char(v@, c));
            }
            break ;
        }
        let piece = subvec(v, pos, fi);
        r.push(piece);
        proof {
            let rest = v@.skip(pos as int);
            let fidx = first_idx(rest, c);
            assert(fidx == fi - pos && fidx < rest.len());
            assert(split_char(rest, c) == seq![rest.take(fidx)] + split_char(rest.skip(fidx + 1), c));
            assert(piece@ =~= rest.take(fidx));
            assert(rest.skip(fidx + 1) =~= v@.skip(fi + 1));
            assert(r@ =~= rr.push(piece));
            assert(r@.map_values(|p: Vec<char>| p@) =~= rr.map_values(|p: Vec<char>| p@)
                + seq![rest.take(fidx)]);
            assert(r@.map_values(|p: Vec<char>| p@) + split_char(v@.skip(fi + 1), c) =~= split_char(
                v@,
                c,
            ));
        }
        pos = fi + 1;
    }
    r
}

/// Splits `v` on `c` into at most `k` pieces; the last piece keeps the rest.
pub fn split_limit(v: &Vec<char>, c: char, k: usize) -> (r: Vec<Vec<char>>)
    requires
        k >= 1,
    ensures
        r@.map_values(|p: Vec<char>| p@) == splitn_char(v@, c, k as nat),
        r@.len() >= 1,
{
    let n: usize = v.len();
    let mut r: Vec<Vec<char>> = Vec::new();
    let mut pos: usize = 0;
    let mut left: usize = k;
    proof {
        assert(v@.skip(0) =~= v@);
        assert(r@.map_values(|p: Vec<char>| p@) + splitn_char(v@, c, k as nat) =~= splitn_char(
            v@,
            c,
            k as nat,
        ));
    }
    loop
        invariant_except_break
            r@.len() == k - left,
            splitn_char(v@, c, k as nat) == r@.map_values(|p: Vec<char>| p@) + splitn_char(
                v@.skip(pos as int),
                c,
                left as nat,
            ),
        invariant
            n == v@.len(),
            pos <= n,
            left >= 1,
        ensures
            r@.map_values(|p: Vec<char>| p@) == splitn_char(v@, c, k as nat),
            r@.len() >= 1,
        decreases left,
    {
        let ghost rr = r@;
        let fi = find_from(v, pos, c);
        proof {
            lemma_first_idx(v@.skip(pos as int), c);
        }
        if left <= 1 || fi >= n {
            let piece = subvec(v, pos, n);
            r.push(piece);
            proof {
                let rest = v@.skip(pos as int);
                assert(splitn_char(rest, c, left as nat) =~= seq![rest]);
                assert(piece@ =~= rest);
                assert(r@ =~= rr.push(piece));
                assert(r@.map_values(|p: Vec<char>| p@) =~= rr.map_values(|p: Vec<char>| p@)
                    + seq![rest]);
                assert(r@.map_values(|p: Vec<char>| p@) =~= splitn_char(v@, c, k as nat));
            }
            break ;
        }
        let piece = subvec(v, pos, fi);
        r.push(piece);
        proof {
            let rest = v@.skip(pos as int);
            let fidx = first_idx(rest, c);
            assert(fidx == fi - pos && fidx < rest.len());
            assert(splitn_char(rest, c, left as nat) == seq![rest.take(fidx)] + splitn_char(
                rest.skip(fidx + 1),
                c,
                (left - 1) as nat,
            ));
            assert(piece@ =~= rest.take(fidx));
            assert(rest.skip(fidx + 1) =~= v@.skip(fi + 1));
            assert(r@ =~= rr.push(piece));
            assert(r@.map_values(|p: Vec<char>| p@) =~= rr.map_values(|p: Vec<char>| p@)
                + seq![rest.take(fidx)]);
            assert(r@.map_values(|p: Vec<char>| p@) + splitn_char(
                v@.skip(fi + 1),
                c,
                (left - 1) as nat,
            ) =~= splitn_char(v@, c, k as nat));
        }
        pos = fi + 1;
        left = left - 1;
    }
    r
}

// ---------------------------------------------------------------------------
// Trimming
// ---------------------------------------------------------------------------

pub open spec fn trim_start_seq(s: Seq<char>) -> Seq<char>
    decreases s.len(),
{
    if s.len() > 0 && space_char(s[0]) {
        trim_start_seq(s.drop_first())
    } else {
        s
    }
}

pub open spec fn trim_end_seq(s: Seq<char>) -> Seq<char>
    decreases s.len(),
{
    if s.len() > 0 && space_char(s.last()) {
        trim_end_seq(s.drop_last())
    } else {
        s
    }
}

/// White space removed from both ends, as `str::trim` does.
pub open spec fn trim_seq(s: Seq<char>) -> Seq<char> {
    trim_end_seq(trim_start_seq(s))
}

/// A sequence that trimming leaves alone: nothing white at either end.
pub open spec fn trim_stable(s: Seq<char>) -> bool {
    s.len() > 0 ==> !space_char(s[0]) && !space_char(s.last())
}

pub proof fn lemma_trim_stable(s: Seq<char>)
    requires
        trim_stable(s),
    ensures
        trim_seq(s) == s,
{
    assert(trim_start_seq(s) == s);
    assert(trim_end_seq(s) == s);
}

/// Trims white space from both ends of `v`.
pub fn trim_chars(v: &Vec<char>) -> (r: Vec<char>)
    ensures
        r@ == trim_seq(v@),
{
    let n: usize = v.len();
    let mut a: usize = 0;
    proof {
        assert(v@.skip(0) =~= v@);
    }
    loop
        invariant
            n == v@.len(),
            a <= n,
            trim_start_seq(v@) == trim_start_seq(v@.skip(a as int)),
        ensures
            a <= n,
            trim_start_seq(v@) == v@.skip(a as int),
        decreases n - a,
    {
        if a >= n {
            proof {
                assert(v@.skip(a as int).len() == 0);
            }
            break ;
        }
        if !crate::text::char_is_whitespace(v[a]) {
            proof {
                let rest = v@.skip(a as int);
                assert(rest.len() > 0 && !space_char(rest[0]));
            }
            break ;
        }
        proof {
            let rest = v@.skip(a as int);
            assert(rest.len() > 0 && space_char(rest[0]));
            assert(rest.drop_first() =~= v@.skip(a + 1));
        }
        a = a + 1;
    }
    let mut b: usize = n;
    loop
        invariant
            n == v@.len(),
            a <= b <= n,
            trim_start_seq(v@) == v@.skip(a as int),
            trim_end_seq(v@.skip(a as int)) == trim_end_seq(v@.subrange(a as int, b as int)),
        ensures
            a <= b <= n,
            trim_end_seq(v@.skip(a as int)) == v@.subrange(a as int, b as int),
        decreases b,
    {
        if b <= a {
            proof {
                assert(v@.subrange(a as int, b as int).len() == 0);
            }
            break ;
        }
        if !crate::text::char_is_whitespace(v[b - 1]) {
            proof {
                let cur = v@.subrange(a as int, b as int);
                assert(cur.len() > 0 && !space_char(cur.last()));
            }
            break ;
        }
        proof {
            let cur = v@.subrange(a as int, b as int);
            assert(cur.len() > 0 && space_char(cur.last()));
            assert(cur.drop_last() =~= v@.subrange(a as int, b - 1));
        }
        b = b - 1;
    }
    subvec(v, a, b)
}


// ---------------------------------------------------------------------------
// Facts about trimming and splitting
// ---------------------------------------------------------------------------

proof fn lemma_trim_start_props(s: Seq<char>)
    ensures
        trim_start_seq(s).len() > 0 ==> !space_char(trim_start_seq(s)[0]),
        trim_start_seq(s).len() <= s.len(),
    decreases s.len(),
{
    if s.len() > 0 && space_char(s[0]) {
        lemma_trim_start_props(s.drop_first());
    }
}

proof fn lemma_trim_end_props(s: Seq<char>)
    ensures
        trim_end_seq(s).len() > 0 ==> !space_char(trim_end_seq(s).last()),
        trim_end_seq(s).len() <= s.len(),
        trim_end_seq(s) == s.take(trim_end_seq(s).len() as int),
    decreases s.len(),
{
    if s.len() > 0 && space_char(s.last()) {
        lemma_trim_end_props(s.drop_last());
        let l = trim_end_seq(s.drop_last()).len() as int;
        assert(trim_end_seq(s.drop_last()) == s.drop_last().take(l));
        assert(s.drop_last().take(l) =~= s.take(l));
    } else {
        assert(s.take(s.len() as int) =~= s);
    }
}

/// A trimmed sequence is left alone by further trimming.
pub proof fn lemma_trim_result_stable(s: Seq<char>)
    ensures
        trim_stable(trim_seq(s)),
{
    let t1 = trim_start_seq(s);
    let t2 = trim_end_seq(t1);
    lemma_trim_start_props(s);
    lemma_trim_end_props(t1);
    if t2.len() > 0 {
        assert(t2 == t1.take(t2.len() as int));
        assert(t2[0] == t1.take(t2.len() as int)[0]);
        assert(t2[0] == t1[0]);
    }
}

/// Trimming keeps any absence of a character.
pub proof fn lemma_trim_free(s: Seq<char>, c: char)
    requires
        free_of(s, c),
    ensures
        free_of(trim_seq(s), c),
{
    let t1 = trim_start_seq(s);
    lemma_trim_start_free(s, c);
    lemma_trim_end_props(t1);
    let t2 = trim_end_seq(t1);
    assert forall|i: int| 0 <= i < t2.len() implies t2[i] != c by {
        assert(t2[i] == t1.take(t2.len() as int)[i]);
        assert(t2[i] == t1[i]);
    }
}

proof fn lemma_trim_start_free(s: Seq<char>, c: char)
    requires
        free_of(s, c),
    ensures
        free_of(trim_start_seq(s), c),
    decreases s.len(),
{
    if s.len() > 0 && space_char(s[0]) {
        assert(free_of(s.drop_first(), c)) by {
            assert forall|i: int| 0 <= i < s.drop_first().len() implies s.drop_first()[i] != c by {
                assert(s.drop_first()[i] == s[i + 1]);
            }
        }
        lemma_trim_start_free(s.drop_first(), c);
    }
}

/// No piece of an unlimited split holds the separator, and every piece
/// keeps any absence the whole had.
pub proof fn lemma_split_pieces(s: Seq<char>, c: char, c2: char)
    ensures
        forall|p: int|
            0 <= p < split_char(s, c).len() ==> free_of(#[trigger] split_char(s, c)[p], c),
        free_of(s, c2) ==> forall|p: int|
            0 <= p < split_char(s, c).len() ==> free_of(#[trigger] split_char(s, c)[p], c2),
    decreases s.len(),
{
    lemma_first_idx(s, c);
    let fi = first_idx(s, c);
    if fi >= s.len() {
        assert(split_char(s, c) =~= seq![s]);
        assert(split_char(s, c)[0] == s);
        assert(free_of(s, c));
    } else {
        lemma_split_pieces(s.skip(fi + 1), c, c2);
        let head = s.take(fi);
        assert(free_of(head, c)) by {
            assert forall|i: int| 0 <= i < head.len() implies head[i] != c by {
                assert(head[i] == s[i]);
            }
        }
        if free_of(s, c2) {
            assert(free_of(head, c2)) by {
                assert forall|i: int| 0 <= i < head.len() implies head[i] != c2 by {
                    assert(head[i] == s[i]);
                }
            }
            assert(free_of(s.skip(fi + 1), c2)) by {
                assert forall|i: int| 0 <= i < s.skip(fi + 1).len() implies #[trigger] s.skip(
                    fi + 1,
                )[i] != c2 by {
                    assert(s.skip(fi + 1)[i] == s[fi + 1 + i]);
                }
            }
        }
        assert forall|p: int|
            0 <= p < split_char(s, c).len() implies free_of(
            #[trigger] split_char(s, c)[p],
            c,
        ) by {
            if p == 0 {
                assert(split_char(s, c)[0] == head);
            } else {
                assert(split_char(s, c)[p] == split_char(s.skip(fi + 1), c)[p - 1]);
            }
        }
        if free_of(s, c2) {
            assert forall|p: int|
                0 <= p < split_char(s, c).len() implies free_of(
                #[trigger] split_char(s, c)[p],
                c2,
            ) by {
                if p == 0 {
                    assert(split_char(s, c)[0] == head);
                } else {
                    assert(split_char(s, c)[p] == split_char(s.skip(fi + 1), c)[p - 1]);
                }
            }
        }
    }
}

/// Every piece of a limited split keeps any absence the whole had.
pub proof fn lemma_splitn_pieces_free(s: Seq<char>, c: char, k: nat, c2: char)
    requires
        free_of(s, c2),
    ensures
        forall|p: int|
            0 <= p < splitn_char(s, c, k).len() ==> free_of(#[trigger] splitn_char(s, c, k)[p], c2),
    decreases s.len(), k,
{
    lemma_first_idx(s, c);
    let fi = first_idx(s, c);
    if k <= 1 || fi >= s.len() {
        assert(splitn_char(s, c, k) =~= seq![s]);
        assert(splitn_char(s, c, k)[0] == s);
    } else {
        assert(free_of(s.skip(fi + 1), c2)) by {
            assert forall|i: int| 0 <= i < s.skip(fi + 1).len() implies #[trigger] s.skip(fi + 1)[i]
                != c2 by {
                assert(s.skip(fi + 1)[i] == s[fi + 1 + i]);
            }
        }
        lemma_splitn_pieces_free(s.skip(fi + 1), c, (k - 1) as nat, c2);
        let head = s.take(fi);
        assert(free_of(head, c2)) by {
            assert forall|i: int| 0 <= i < head.len() implies head[i] != c2 by {
                assert(head[i] == s[i]);
            }
        }
        assert forall|p: int|
            0 <= p < splitn_char(s, c, k).len() implies free_of(
            #[trigger] splitn_char(s, c, k)[p],
            c2,
        ) by {
            if p == 0 {
                assert(splitn_char(s, c, k)[0] == head);
            } else {
                assert(splitn_char(s, c, k)[p] == splitn_char(s.skip(fi + 1), c, (k - 1) as nat)[p
                    - 1]);
            }
        }
    }
}

} // verus!
