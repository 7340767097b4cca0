//! Keyword extraction for the memory store's inverted index: split text on
//! white space, keep letter, digit, dash and underscore characters of each
//! word, drop short words, fold ASCII case, and drop stop words.
//! Duplicates are kept: term frequency in search depends on them.

use vstd::prelude::*;
use vstd::seq_lib::*;
use crate::text::{space_char, word_char, lower_char, is_word_char, to_lower_char};

verus! {

/// The shortest word kept as a keyword, measured in bytes.
pub const MIN_WORD_LEN: usize = 4;

/// Stop words skipped during keyword extraction.
pub open spec fn is_stop_word(w: Seq<char>) -> bool {
    ||| w == "a"@
    ||| w == "an"@
    ||| w == "the"@
    ||| w == "is"@
    ||| w == "of"@
    ||| w == "to"@
    ||| w == "in"@
    ||| w == "and"@
    ||| w == "for"@
    ||| w == "that"@
    ||| w == "this"@
    ||| w == "with"@
    ||| w == "are"@
    ||| w == "was"@
    ||| w == "were"@
    ||| w == "been"@
    ||| w == "have"@
    ||| w == "has"@
    ||| w == "had"@
    ||| w == "but"@
    ||| w == "not"@
    ||| w == "from"@
    ||| w == "they"@
    ||| w == "will"@
    ||| w == "can"@
    ||| w == "would"@
    ||| w == "could"@
}

/// Tests the stop-word list.
pub fn is_stop(s: &str) -> (r: bool)
    ensures
        r == is_stop_word(s@),
{
    crate::text::str_eq_str(s, "a") || crate::text::str_eq_str(s, "an") || crate::text::str_eq_str(
        s,
        "the",
    ) || crate::text::str_eq_str(s, "is") || crate::text::str_eq_str(s, "of")
        || crate::text::str_eq_str(s, "to") || crate::text::str_eq_str(s, "in")
        || crate::text::str_eq_str(s, "and") || crate::text::str_eq_str(s, "for")
        || crate::text::str_eq_str(s, "that") || crate::text::str_eq_str(s, "this")
        || crate::text::str_eq_str(s, "with") || crate::text::str_eq_str(s, "are")
        || crate::text::str_eq_str(s, "was") || crate::text::str_eq_str(s, "were")
        || crate::text::str_eq_str(s, "been") || crate::text::str_eq_str(s, "have")
        || crate::text::str_eq_str(s, "has") || crate::text::str_eq_str(s, "had")
        || crate::text::str_eq_str(s, "but") || crate::text::str_eq_str(s, "not")
        || crate::text::str_eq_str(s, "from") || crate::text::str_eq_str(s, "they")
        || crate::text::str_eq_str(s, "will") || crate::text::str_eq_str(s, "can")
        || crate::text::str_eq_str(s, "would") || crate::text::str_eq_str(s, "could")
}

/// The run of non-white characters at the front of `s`.
pub open spec fn word_prefix(s: Seq<char>) -> Seq<char>
    decreases s.len(),
{
    if s.len() == 0 || space_char(s[0]) {
        Seq::empty()
    } else {
        seq![s[0]] + word_prefix(s.drop_first())
    }
}

/// The white-space separated words of `s`, in order, without empties.
pub open spec fn split_ws(s: Seq<char>) -> Seq<Seq<char>>
    decreases s.len(),
    via split_ws_decreases
{
    if s.len() == 0 {
        Seq::empty()
    } else if space_char(s[0]) {
        split_ws(s.drop_first())
    } else {
        seq![word_prefix(s)] + split_ws(s.skip(word_prefix(s).len() as int))
    }
}

#[via_fn]
proof fn split_ws_decreases(s: Seq<char>) {
    if s.len() > 0 && !space_char(s[0]) {
        lemma_word_prefix_len(s);
        assert(word_prefix(s).len() >= 1);
    }
}

pub proof fn lemma_word_prefix_len(s: Seq<char>)
    ensures
        word_prefix(s).len() <= s.len(),
    decreases s.len(),
{
    if s.len() > 0 && !space_char(s[0]) {
        lemma_word_prefix_len(s.drop_first());
    }
}

/// The keyword character test, as a named function value, so that every
/// use of `filter` below speaks of one and the same predicate.
pub open spec fn word_pred() -> spec_fn(char) -> bool {
    |c: char| word_char(c)
}

/// The case fold, as a named function value.
pub open spec fn lower_map() -> spec_fn(char) -> char {
    |c: char| lower_char(c)
}

/// The UTF-8 byte width of one character, by its code point.
pub open spec fn char_w(c: char) -> nat {
    if (c as u32) < 0x80 {
        1
    } else if (c as u32) < 0x800 {
        2
    } else if (c as u32) < 0x10000 {
        3
    } else {
        4
    }
}

/// The byte length of a character sequence in its UTF-8 form.
pub open spec fn utf8_len(s: Seq<char>) -> nat
    decreases s.len(),
{
    if s.len() == 0 {
        0
    } else {
        char_w(s[0]) + utf8_len(s.drop_first())
    }
}

pub proof fn lemma_utf8_len_app(a: Seq<char>, b: Seq<char>)
    ensures
        utf8_len(a + b) == utf8_len(a) + utf8_len(b),
    decreases a.len(),
{
    if a.len() == 0 {
        assert(a + b =~= b);
    } else {
        lemma_utf8_len_app(a.drop_first(), b);
        assert((a + b).drop_first() =~= a.drop_first() + b);
        assert((a + b)[0] == a[0]);
    }
}

/// Whether the characters take more than `bound` bytes in UTF-8.
pub fn utf8_len_exceeds(v: &Vec<char>, bound: usize) -> (r: bool)
    requires
        bound <= 100000,
    ensures
        r == (utf8_len(v@) > bound),
{
    let n: usize = v.len();
    let mut acc: usize = 0;
    let mut i: usize = 0;
    proof {
        assert(v@.take(0) =~= Seq::<char>::empty());
    }
    while i < n
        invariant
            n == v@.len(),
            bound <= 100000,
            i <= n,
            acc == utf8_len(v@.take(i as int)),
            acc <= bound,
        decreases n - i,
    {
        let u: u32 = v[i] as u32;
        let w: usize = if u < 0x80 {
            1
        } else if u < 0x800 {
            2
        } else if u < 0x10000 {
            3
        } else {
            4
        };
        proof {
            lemma_utf8_len_app(v@.take(i as int), seq![v@[i as int]]);
            assert(v@.take(i + 1) =~= v@.take(i as int) + seq![v@[i as int]]);
            assert(seq![v@[i as int]].drop_first() =~= Seq::<char>::empty());
            assert(utf8_len(Seq::<char>::empty()) == 0);
            assert(utf8_len(seq![v@[i as int]]) == char_w(v@[i as int]));
        }
        acc = acc + w;
        i = i + 1;
        if acc > bound {
            proof {
                lemma_utf8_len_app(v@.take(i as int), v@.skip(i as int));
                assert(v@.take(i as int) + v@.skip(i as int) =~= v@);
            }
            return true;
        }
    }
    proof {
        assert(v@.take(n as int) =~= v@);
    }
    false
}

/// The UTF-8 byte length, stopping at the largest `usize`.
pub open spec fn utf8_len_clamped(s: Seq<char>) -> nat {
    if utf8_len(s) > usize::MAX {
        usize::MAX as nat
    } else {
        utf8_len(s)
    }
}

/// Computes the clamped UTF-8 byte length.
pub fn utf8_byte_len(v: &Vec<char>) -> (n: usize)
    ensures
        n == utf8_len_clamped(v@),
{
    let count: usize = v.len();
    let mut acc: usize = 0;
    let mut i: usize = 0;
    proof {
        assert(v@.take(0) =~= Seq::<char>::empty());
    }
    while i < count
        invariant
            count == v@.len(),
            i <= count,
            acc as nat == utf8_len_clamped(v@.take(i as int)),
        decreases count - i,
    {
        let u: u32 = v[i] as u32;
        let w: usize = if u < 0x80 {
            1
        } else if u < 0x800 {
            2
        } else if u < 0x10000 {
            3
        } else {
            4
        };
        proof {
            lemma_utf8_len_app(v@.take(i as int), seq![v@[i as int]]);
            assert(v@.take(i + 1) =~= v@.take(i as int) + seq![v@[i as int]]);
            assert(seq![v@[i as int]].drop_first() =~= Seq::<char>::empty());
            assert(utf8_len(Seq::<char>::empty()) == 0);
            assert(utf8_len(seq![v@[i as int]]) == char_w(v@[i as int]));
        }
        acc = match acc.checked_add(w) {
            Some(a) => a,
            None => usize::MAX,
        };
        i = i + 1;
    }
    proof {
        assert(v@.take(count as int) =~= v@);
    }
    acc
}

/// Whether the characters take at least the minimum keyword width in
/// UTF-8 bytes.
pub fn meets_min_len(v: &Vec<char>) -> (r: bool)
    ensures
        r == (utf8_len(v@) >= MIN_WORD_LEN as nat),
{
    let n: usize = v.len();
    let mut acc: usize = 0;
    let mut i: usize = 0;
    proof {
        assert(v@.take(0) =~= Seq::<char>::empty());
    }
    while i < n
        invariant
            n == v@.len(),
            i <= n,
            acc == utf8_len(v@.take(i as int)),
            acc < MIN_WORD_LEN,
        decreases n - i,
    {
        let u: u32 = v[i] as u32;
        let w: usize = if u < 0x80 {
            1
        } else if u < 0x800 {
            2
        } else if u < 0x10000 {
            3
        } else {
            4
        };
        proof {
            lemma_utf8_len_app(v@.take(i as int), seq![v@[i as int]]);
            assert(v@.take(i + 1) =~= v@.take(i as int) + seq![v@[i as int]]);
            assert(seq![v@[i as int]].drop_first() =~= Seq::<char>::empty());
            assert(utf8_len(Seq::<char>::empty()) == 0);
            assert(utf8_len(seq![v@[i as int]]) == char_w(v@[i as int]));
        }
        acc = acc + w;
        i = i + 1;
        if acc >= MIN_WORD_LEN {
            proof {
                lemma_utf8_len_app(v@.take(i as int), v@.skip(i as int));
                assert(v@.take(i as int) + v@.skip(i as int) =~= v@);
            }
            return true;
        }
    }
    proof {
        assert(v@.take(n as int) =~= v@);
    }
    false
}

/// The keywords one word contributes: its kept characters, case folded,
/// unless it comes out short or is a stop word.
pub open spec fn token_kws(w: Seq<char>) -> Seq<Seq<char>> {
    let cw = w.filter(word_pred());
    if utf8_len(cw) < MIN_WORD_LEN as nat {
        Seq::empty()
    } else {
        let lw = cw.map_values(lower_map());
        if is_stop_word(lw) {
            Seq::empty()
        } else {
            seq![lw]
        }
    }
}

pub open spec fn kws_of_words(ws: Seq<Seq<char>>) -> Seq<Seq<char>>
    decreases ws.len(),
{
    if ws.len() == 0 {
        Seq::empty()
    } else {
        token_kws(ws[0]) + kws_of_words(ws.drop_first())
    }
}

/// All keywords extracted from a text, in order, duplicates kept.
pub open spec fn extract_kws(s: Seq<char>) -> Seq<Seq<char>> {
    kws_of_words(split_ws(s))
}

/// A keyword holds only kept word characters.
pub open spec fn all_word_chars(w: Seq<char>) -> bool {
    forall|i: int| 0 <= i < w.len() ==> word_char(#[trigger] w[i])
}

/// Extracted keywords never hold white space, commas, pipes or line
/// breaks, at any position; so they are safe to join with commas into the
/// last field of a persisted record, and trimming leaves them alone.
pub proof fn lemma_extracted_kw_safe(w: Seq<char>)
    requires
        all_word_chars(w),
    ensures
        crate::codec::trim_stable(w),
        forall|i: int|
            0 <= i < w.len() ==> w[i] != ',' && w[i] != '|' && w[i] != '\n' && #[trigger] w[i]
                != '\r' && !space_char(w[i]),
{
    assert forall|i: int| 0 <= i < w.len() implies w[i] != ',' && w[i] != '|' && w[i] != '\n'
        && #[trigger] w[i] != '\r' && !space_char(w[i]) by {
        crate::text::lemma_word_char_safe(w[i]);
    }
}

/// Case folding maps word characters to word characters.
pub proof fn lemma_lower_keeps_word_chars(w: Seq<char>)
    requires
        all_word_chars(w),
    ensures
        all_word_chars(w.map_values(lower_map())),
{
    let lw = w.map_values(lower_map());
    assert forall|i: int| 0 <= i < lw.len() implies word_char(#[trigger] lw[i]) by {
        assert(word_char(w[i]));
    }
}

/// Every keyword of `extract_kws` holds only word characters.
pub proof fn lemma_extract_kws_word_chars(s: Seq<char>)
    ensures
        forall|k: int|
            0 <= k < extract_kws(s).len() ==> all_word_chars(#[trigger] extract_kws(s)[k]),
{
    lemma_kws_of_words_word_chars(split_ws(s));
}

proof fn lemma_kws_of_words_word_chars(ws: Seq<Seq<char>>)
    ensures
        forall|k: int|
            0 <= k < kws_of_words(ws).len() ==> all_word_chars(#[trigger] kws_of_words(ws)[k]),
    decreases ws.len(),
{
    if ws.len() > 0 {
        lemma_kws_of_words_word_chars(ws.drop_first());
        let head = token_kws(ws[0]);
        let tail = kws_of_words(ws.drop_first());
        assert forall|k: int|
            0 <= k < kws_of_words(ws).len() implies all_word_chars(
            #[trigger] kws_of_words(ws)[k],
        ) by {
            if k < head.len() {
                let cw = ws[0].filter(word_pred());
                assert forall|i: int| 0 <= i < cw.len() implies word_char(#[trigger] cw[i]) by {
                    ws[0].lemma_filter_pred(word_pred(), i);
                }
                lemma_lower_keeps_word_chars(cw);
                assert(cw.map_values(|c: char| lower_char(c)) =~= cw.map_values(lower_map()));
                assert(kws_of_words(ws)[k] == head[k]);
            } else {
                assert(kws_of_words(ws)[k] == tail[k - head.len()]);
            }
        }
    }
}

/// Extends `word_prefix` one character at a time across a window.
proof fn lemma_word_prefix_window(s: Seq<char>, from: int, to: int)
    requires
        0 <= from <= to <= s.len(),
        forall|j: int| from <= j < to ==> !space_char(s[j]),
        to == s.len() || space_char(s[to]),
    ensures
        word_prefix(s.skip(from)) == s.subrange(from, to),
    decreases to - from,
{
    let rest = s.skip(from);
    if from == to {
        if rest.len() > 0 {
            assert(space_char(rest[0]));
        }
        assert(word_prefix(rest) =~= s.subrange(from, to));
    } else {
        lemma_word_prefix_window(s, from + 1, to);
        assert(!space_char(rest[0]));
        assert(rest.drop_first() =~= s.skip(from + 1));
        assert(word_prefix(rest) =~= seq![s[from]] + s.subrange(from + 1, to));
        assert(seq![s[from]] + s.subrange(from + 1, to) =~= s.subrange(from, to));
    }
}

/// Extracts the keywords of a text for indexing.
pub fn extract_keywords(text: &str) -> (r: Vec<String>)
    ensures
        r.deep_view() == extract_kws(text@),
{
    let v = crate::text::str_to_chars(text);
    let n: usize = v.len();
    let mut r: Vec<String> = Vec::new();
    let mut i: usize = 0;
    proof {
        assert(v@.skip(0) =~= v@);
        assert(r.deep_view() + kws_of_words(split_ws(v@)) =~= kws_of_words(split_ws(v@)));
    }
    loop
        invariant
            v@ == text@,
            n == v@.len(),
            i <= n,
            r.deep_view() + kws_of_words(split_ws(v@.skip(i as int))) == extract_kws(text@),
        ensures
            r.deep_view() == extract_kws(text@),
        decreases n - i,
    {
        if i >= n {
            proof {
                assert(v@.skip(i as int).len() == 0);
                assert(kws_of_words(split_ws(v@.skip(i as int))) =~= Seq::<Seq<char>>::empty());
                assert(r.deep_view() + Seq::<Seq<char>>::empty() =~= r.deep_view());
            }
            break ;
        }
        if crate::text::char_is_whitespace(v[i]) {
            proof {
                let rest = v@.skip(i as int);
                assert(space_char(rest[0]));
                assert(rest.drop_first() =~= v@.skip(i + 1));
            }
            i = i + 1;
        } else {
            let start: usize = i;
            let mut j: usize = i;
            loop
                invariant
                    n == v@.len(),
                    start <= j <= n,
                    forall|m: int| start <= m < j ==> !space_char(v@[m]),
                ensures
                    start <= j <= n,
                    forall|m: int| start <= m < j ==> !space_char(v@[m]),
                    j == n || space_char(v@[j as int]),
                decreases n - j,
            {
                if j >= n {
                    break ;
                }
                if crate::text::char_is_whitespace(v[j]) {
                    break ;
                }
                j = j + 1;
            }
            let ghost word = v@.subrange(start as int, j as int);
            proof {
                lemma_word_prefix_window(v@, start as int, j as int);
                let rest = v@.skip(start as int);
                assert(!space_char(rest[0]));
                assert(split_ws(rest) == seq![word] + split_ws(rest.skip(word.len() as int)));
                assert(rest.skip(word.len() as int) =~= v@.skip(j as int));
            }
            // Keep letter, digit, dash and underscore characters.
            let mut cw: Vec<char> = Vec::new();
            let mut k: usize = start;
            proof {
                reveal(Seq::filter);
                assert(cw@ =~= v@.subrange(start as int, start as int).filter(word_pred()));
            }
            while k < j
                invariant
                    n == v@.len(),
                    start <= k <= j <= n,
                    cw@ == v@.subrange(start as int, k as int).filter(word_pred()),
                decreases j - k,
            {
                let c = v[k];
                let ghost pre = cw@;
                if is_word_char(c) {
                    cw.push(c);
                }
                proof {
                    reveal(Seq::filter);
                    let pred = word_pred();
                    let sub = v@.subrange(start as int, k as int);
                    let one = seq![v@[k as int]];
                    Seq::filter_distributes_over_add(sub, one, pred);
                    assert(v@.subrange(start as int, k + 1) =~= sub + one);
                    assert(one.drop_last() =~= Seq::<char>::empty());
                    assert(Seq::<char>::empty().filter(pred) =~= Seq::<char>::empty());
                    if word_char(v@[k as int]) {
                        assert(one.filter(pred) =~= one);
                        assert(cw@ =~= pre + one);
                    } else {
                        assert(one.filter(pred) =~= Seq::<char>::empty());
                        assert(cw@ =~= pre + one.filter(pred));
                    }
                }
                k = k + 1;
            }
            let ghost clean = word.filter(word_pred());
            proof {
                assert(cw@ == clean);
            }
            if meets_min_len(&cw) {
                // Fold ASCII case.
                let mut lw: Vec<char> = Vec::new();
                let mut m: usize = 0;
                while m < cw.len()
                    invariant
                        m <= cw@.len(),
                        lw@ == cw@.take(m as int).map_values(lower_map()),
                    decreases cw@.len() - m,
                {
                    lw.push(to_lower_char(cw[m]));
                    proof {
                        assert(lw@ =~= cw@.take(m + 1).map_values(lower_map()));
                    }
                    m = m + 1;
                }
                proof {
                    assert(cw@.take(cw@.len() as int) =~= cw@);
                }
                let ls = crate::text::chars_to_string(&lw);
                let ghost lower = clean.map_values(lower_map());
                if !is_stop(ls.as_str()) {
                    let ghost before = r.deep_view();
                    r.push(ls);
                    proof {
                        assert(token_kws(word) =~= seq![lower]);
                        assert(r.deep_view() =~= before + token_kws(word));
                    }
                } else {
                    proof {
                        assert(token_kws(word) =~= Seq::<Seq<char>>::empty());
                        assert(r.deep_view() + Seq::<Seq<char>>::empty() =~= r.deep_view());
                    }
                }
            } else {
                proof {
                    assert(token_kws(word) =~= Seq::<Seq<char>>::empty());
                    assert(r.deep_view() + Seq::<Seq<char>>::empty() =~= r.deep_view());
                }
            }
            proof {
                let rest = v@.skip(start as int);
                let tailw = split_ws(v@.skip(j as int));
                assert(split_ws(rest) == seq![word] + tailw);
                assert((seq![word] + tailw).len() > 0);
                assert((seq![word] + tailw)[0] == word);
                assert((seq![word] + tailw).drop_first() =~= tailw);
                assert(kws_of_words(split_ws(rest)) =~= token_kws(word) + kws_of_words(tailw));
                assert(r.deep_view() + kws_of_words(tailw) =~= extract_kws(text@));
            }
            i = j;
        }
    }
    r
}


/// The white-space separated words of a text, as strings.
pub fn split_words(text: &str) -> (r: Vec<String>)
    ensures
        r.deep_view() == split_ws(text@),
{
    let v = crate::text::str_to_chars(text);
    let n: usize = v.len();
    let mut r: Vec<String> = Vec::new();
    let mut i: usize = 0;
    proof {
        assert(v@.skip(0) =~= v@);
        assert(r.deep_view() + split_ws(v@) =~= split_ws(v@));
    }
    loop
        invariant
            v@ == text@,
            n == v@.len(),
            i <= n,
            r.deep_view() + split_ws(v@.skip(i as int)) == split_ws(text@),
        ensures
            r.deep_view() == split_ws(text@),
        decreases n - i,
    {
        if i >= n {
            proof {
                assert(v@.skip(i as int).len() == 0);
                assert(split_ws(v@.skip(i as int)) =~= Seq::<Seq<char>>::empty());
                assert(r.deep_view() + Seq::<Seq<char>>::empty() =~= r.deep_view());
            }
            break ;
        }
        if crate::text::char_is_whitespace(v[i]) {
            proof {
                let rest = v@.skip(i as int);
                assert(space_char(rest[0]));
                assert(rest.drop_first() =~= v@.skip(i + 1));
            }
            i = i + 1;
        } else {
            let start: usize = i;
            let mut j: usize = i;
            loop
                invariant
                    n == v@.len(),
                    start <= j <= n,
                    forall|m: int| start <= m < j ==> !space_char(v@[m]),
                ensures
                    start <= j <= n,
                    forall|m: int| start <= m < j ==> !space_char(v@[m]),
                    j == n || space_char(v@[j as int]),
                decreases n - j,
            {
                if j >= n {
                    break ;
                }
                if crate::text::char_is_whitespace(v[j]) {
                    break ;
                }
                j = j + 1;
            }
            let ghost word = v@.subrange(start as int, j as int);
            let wv = crate::codec::subvec(&v, start, j);
            let ws = crate::text::chars_to_string(&wv);
            let ghost before = r.deep_view();
            r.push(ws);
            proof {
                lemma_word_prefix_window(v@, start as int, j as int);
                let rest = v@.skip(start as int);
                assert(!space_char(rest[0]));
                let tailw = split_ws(v@.skip(j as int));
                assert(rest.skip(word.len() as int) =~= v@.skip(j as int));
                assert(split_ws(rest) == seq![word] + tailw);
                assert(r.deep_view() =~= before.push(word));
                assert(r.deep_view() + tailw =~= split_ws(text@));
            }
            i = j;
        }
    }
    r
}

/// The first word of a text, or the given fallback when there is none.
pub open spec fn first_word_or(s: Seq<char>, alt: Seq<char>) -> Seq<char> {
    if split_ws(s).len() > 0 {
        split_ws(s)[0]
    } else {
        alt
    }
}

/// The first word of at least the minimum keyword width, or the fallback.
pub open spec fn first_long_word_or(ws: Seq<Seq<char>>, alt: Seq<char>) -> Seq<char>
    decreases ws.len(),
{
    if ws.len() == 0 {
        alt
    } else if utf8_len(ws[0]) > 3 {
        ws[0]
    } else {
        first_long_word_or(ws.drop_first(), alt)
    }
}

} // verus!
