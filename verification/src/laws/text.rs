//! Words, lines, numbers and times in texts.
use crate::text;
use vstd::prelude::*;

verus! {

// ── White space ──────────────────────────────────────────────────────────────

/// One of the characters that Unicode counts as white space.
pub open spec fn is_white(c: char) -> bool {
    let n = c as int;
    n == 9 || n == 10 || n == 11 || n == 12 || n == 13 || n == 32 || n == 133 || n == 160 || n
        == 5760 || (8192 <= n && n < 8203) || n == 8232 || n == 8233 || n == 8239 || n == 8287 || n
        == 12288
}

/// All characters are white space.
pub open spec fn all_white(s: Seq<char>) -> bool {
    forall|k: int| 0 <= k < s.len() ==> is_white(#[trigger] s[k])
}

/// A word: at least one character, and no white space.
pub open spec fn is_word(s: Seq<char>) -> bool {
    s.len() > 0 && forall|k: int| 0 <= k < s.len() ==> !is_white(#[trigger] s[k])
}

proof fn lemma_space_end(s: Seq<char>, i: int, j: int)
    requires
        0 <= i <= j <= s.len(),
        forall|k: int| i <= k < j ==> is_white(#[trigger] s[k]),
        j < s.len() ==> !is_white(s[j]),
    ensures
        text::space_end(s, i) == j,
    decreases j - i,
{
    if i < j {
        assert(is_white(s[i]));
        lemma_space_end(s, i + 1, j);
    }
}

proof fn lemma_space_start(s: Seq<char>, i: int, j: int)
    requires
        0 <= i <= j <= s.len(),
        forall|k: int| i <= k < j ==> is_white(#[trigger] s[k]),
        i > 0 ==> !is_white(s[i - 1]),
    ensures
        text::space_start(s, j) == i,
    decreases j - i,
{
    if i < j {
        assert(is_white(s[j - 1]));
        lemma_space_start(s, i, j - 1);
    }
}

proof fn lemma_word_end(s: Seq<char>, i: int, j: int)
    requires
        0 <= i <= j <= s.len(),
        forall|k: int| i <= k < j ==> !is_white(#[trigger] s[k]),
        j < s.len() ==> is_white(s[j]),
    ensures
        text::word_end(s, i) == j,
    decreases j - i,
{
    if i < j {
        assert(!is_white(s[i]));
        lemma_word_end(s, i + 1, j);
    }
}

/// The white space around a text is taken away, and nothing else.
pub proof fn lemma_trim(a: Seq<char>, w: Seq<char>, b: Seq<char>)
    requires
        all_white(a),
        all_white(b),
        w.len() > 0 ==> !is_white(w[0]) && !is_white(w.last()),
    ensures
        text::trim(a + w + b) == w,
{
    let s = a + w + b;
    let n = a.len() as int;
    let m = n + w.len();
    assert forall|k: int| 0 <= k < n implies is_white(#[trigger] s[k]) by {
        assert(s[k] == a[k]);
    }
    assert forall|k: int| m <= k < s.len() implies is_white(#[trigger] s[k]) by {
        assert(s[k] == b[k - m]);
    }
    if w.len() > 0 {
        assert(s[n] == w[0] && s[m - 1] == w.last());
        lemma_space_end(s, 0, n);
        lemma_space_start(s, m, s.len() as int);
        assert(s.subrange(n, m) =~= w);
    } else {
        lemma_space_end(s, 0, s.len() as int);
        lemma_space_start(s, 0, s.len() as int);
        assert(w =~= Seq::empty());
    }
}

proof fn lemma_space_shift(s: Seq<char>, i: int, k: int)
    requires
        0 <= i <= s.len(),
        0 <= k <= s.len() - i,
    ensures
        text::space_end(s, i + k) == i + text::space_end(s.skip(i), k),
        text::word_end(s, i + k) == i + text::word_end(s.skip(i), k),
        k <= text::space_end(s.skip(i), k) <= s.len() - i,
        k <= text::word_end(s.skip(i), k) <= s.len() - i,
        k < s.len() - i && !text::is_space(s[i + k]) ==> k < text::word_end(s.skip(i), k),
        text::space_end(s.skip(i), k) < s.len() - i ==> !text::is_space(
            s[i + text::space_end(s.skip(i), k)],
        ),
    decreases s.len() - i - k,
{
    if k < s.len() - i {
        assert(s.skip(i)[k] == s[i + k]);
        lemma_space_shift(s, i, k + 1);
    }
}

proof fn lemma_words_shift(s: Seq<char>, i: int, k: int)
    requires
        0 <= i <= s.len(),
        0 <= k <= s.len() - i,
    ensures
        text::words_from(s, i + k) == text::words_from(s.skip(i), k),
    decreases s.len() - i - k,
{
    let t = s.skip(i);
    lemma_space_shift(s, i, k);
    let a = text::space_end(t, k);
    if a < t.len() {
        lemma_space_shift(s, i, a);
        let b = text::word_end(t, a);
        assert(s.subrange(i + a, i + b) =~= t.subrange(a, b));
        lemma_words_shift(s, i, b);
    }
}

/// White space before the first word makes no difference to the words; there are
/// none in white space alone.
pub proof fn lemma_words_behind_white(a: Seq<char>, s: Seq<char>)
    requires
        all_white(a),
    ensures
        text::words(a + s) == text::words(s),
        text::words(a) == Seq::<Seq<char>>::empty(),
{
    let t = a + s;
    let n = a.len() as int;
    lemma_space_end(a, 0, n);
    assert forall|k: int| 0 <= k < n implies is_white(#[trigger] t[k]) by {
        assert(t[k] == a[k]);
    }
    lemma_skip_white(t, 0, n);
    lemma_words_shift(t, n, 0);
    assert(t.skip(n) =~= s);
}

proof fn lemma_skip_white(s: Seq<char>, i: int, j: int)
    requires
        0 <= i <= j <= s.len(),
        forall|k: int| i <= k < j ==> is_white(#[trigger] s[k]),
    ensures
        text::words_from(s, i) == text::words_from(s, j),
    decreases j - i,
{
    if i < j {
        lemma_skip_white(s, i + 1, j);
        assert(is_white(s[i]));
        assert(text::space_end(s, i) == text::space_end(s, i + 1));
    }
}

/// A word with white space behind it is the first of the words, and those of the
/// rest follow it; a word alone is the only one.
pub proof fn lemma_first_word(w: Seq<char>, c: char, rest: Seq<char>)
    requires
        is_word(w),
        is_white(c),
    ensures
        text::words(w + seq![c] + rest) == seq![w] + text::words(rest),
        text::words(w) == seq![w],
{
    let s = w + seq![c] + rest;
    let n = w.len() as int;
    assert forall|k: int| 0 <= k < n implies !is_white(#[trigger] s[k]) by {
        assert(s[k] == w[k]);
    }
    assert(s[n] == c);
    assert(!is_white(s[0]));
    lemma_word_end(s, 0, n);
    assert(s.subrange(0, n) =~= w);
    lemma_space_end(s, 0, 0);
    lemma_skip_white(s, n, n + 1);
    lemma_words_shift(s, n + 1, 0);
    assert(s.skip(n + 1) =~= rest);
    lemma_space_end(w, 0, 0);
    lemma_word_end(w, 0, n);
    assert(w.subrange(0, n) =~= w);
    lemma_space_end(w, n, n);
    assert(text::words_from(w, n) =~= Seq::<Seq<char>>::empty());
    assert(seq![w] + Seq::<Seq<char>>::empty() =~= seq![w]);
}

// ── Pieces and lines ─────────────────────────────────────────────────────────

/// The character does not stand in the text.
pub open spec fn lacks(s: Seq<char>, c: char) -> bool {
    forall|k: int| 0 <= k < s.len() ==> #[trigger] s[k] != c
}

proof fn lemma_next_at(s: Seq<char>, c: char, i: int, j: int)
    requires
        0 <= i <= j <= s.len(),
        forall|k: int| i <= k < j ==> #[trigger] s[k] != c,
        j < s.len() ==> s[j] == c,
    ensures
        text::next(s, c, i) == j,
    decreases j - i,
{
    if i < j {
        assert(s[i] != c);
        lemma_next_at(s, c, i + 1, j);
    }
}

proof fn lemma_next_shift(s: Seq<char>, c: char, i: int, k: int)
    requires
        0 <= i <= s.len(),
        0 <= k <= s.len() - i,
    ensures
        text::next(s, c, i + k) == i + text::next(s.skip(i), c, k),
        k <= text::next(s.skip(i), c, k) <= s.len() - i,
    decreases s.len() - i - k,
{
    if k < s.len() - i {
        assert(s.skip(i)[k] == s[i + k]);
        lemma_next_shift(s, c, i, k + 1);
    }
}

proof fn lemma_fields_shift(s: Seq<char>, c: char, i: int, k: int)
    requires
        0 <= i <= s.len(),
        0 <= k <= s.len() - i,
    ensures
        text::fields_from(s, c, i + k) == text::fields_from(s.skip(i), c, k),
    decreases s.len() - i - k,
{
    let t = s.skip(i);
    lemma_next_shift(s, c, i, k);
    let e = text::next(t, c, k);
    if e < t.len() {
        assert(s.subrange(i + k, i + e) =~= t.subrange(k, e));
        lemma_fields_shift(s, c, i, e + 1);
    } else {
        assert(s.subrange(i + k, s.len() as int) =~= t.subrange(k, t.len() as int));
    }
}

/// A text is parted at each occurrence of a character, and nowhere else.
pub proof fn lemma_fields(a: Seq<char>, c: char, rest: Seq<char>)
    requires
        lacks(a, c),
    ensures
        text::fields(a, c) == seq![a],
        text::fields(a + seq![c] + rest, c) == seq![a] + text::fields(rest, c),
{
    let n = a.len() as int;
    lemma_next_at(a, c, 0, n);
    assert(a.subrange(0, n) =~= a);
    let s = a + seq![c] + rest;
    assert forall|k: int| 0 <= k < n implies #[trigger] s[k] != c by {
        assert(s[k] == a[k]);
    }
    assert(s[n] == c);
    lemma_next_at(s, c, 0, n);
    assert(s.subrange(0, n) =~= a);
    lemma_fields_shift(s, c, n + 1, 0);
    assert(s.skip(n + 1) =~= rest);
}

proof fn lemma_lines_shift(s: Seq<char>, i: int, k: int)
    requires
        0 <= i <= s.len(),
        0 <= k <= s.len() - i,
    ensures
        text::lines_from(s, i + k) == text::lines_from(s.skip(i), k),
    decreases s.len() - i - k,
{
    let t = s.skip(i);
    lemma_next_shift(s, '\n', i, k);
    let e = text::next(t, '\n', k);
    if k < t.len() {
        if e < t.len() {
            assert(s.subrange(i + k, i + e) =~= t.subrange(k, e));
            lemma_lines_shift(s, i, e + 1);
        } else {
            assert(s.subrange(i + k, s.len() as int) =~= t.subrange(k, t.len() as int));
        }
    }
}

/// A line ends at a line feed, or at a carriage return and a line feed; the last
/// one needs none. There is no line behind the last end of one.
pub proof fn lemma_lines(a: Seq<char>, rest: Seq<char>)
    requires
        lacks(a, '\n'),
    ensures
        text::lines(Seq::<char>::empty()) == Seq::<Seq<char>>::empty(),
        a.len() > 0 ==> text::lines(a) == seq![a],
        (a.len() > 0 ==> a.last() != '\r') ==> text::lines(a + seq!['\n'] + rest) == seq![a]
            + text::lines(rest),
        text::lines(a + seq!['\r', '\n'] + rest) == seq![a] + text::lines(rest),
{
    let n = a.len() as int;
    lemma_next_at(a, '\n', 0, n);
    assert(a.subrange(0, n) =~= a);
    let s = a + seq!['\n'] + rest;
    assert forall|k: int| 0 <= k < n implies #[trigger] s[k] != '\n' by {
        assert(s[k] == a[k]);
    }
    assert(s[n] == '\n');
    lemma_next_at(s, '\n', 0, n);
    assert(s.subrange(0, n) =~= a);
    lemma_lines_shift(s, n + 1, 0);
    assert(s.skip(n + 1) =~= rest);
    let t = a + seq!['\r', '\n'] + rest;
    assert(t[n] == '\r' && t[n + 1] == '\n');
    assert forall|k: int| 0 <= k < n + 1 implies #[trigger] t[k] != '\n' by {
        if k < n {
            assert(t[k] == a[k]);
        }
    }
    lemma_next_at(t, '\n', 0, n + 1);
    let l = t.subrange(0, n + 1);
    assert(l.last() == '\r');
    assert(l.drop_last() =~= a);
    lemma_lines_shift(t, n + 2, 0);
    assert(t.skip(n + 2) =~= rest);
}

/// What is quoted stands between the first two double quotes; with fewer than two
/// nothing is.
pub proof fn lemma_quoted(a: Seq<char>, name: Seq<char>, rest: Seq<char>)
    requires
        lacks(a, '"'),
        lacks(name, '"'),
    ensures
        text::quoted(a + seq!['"'] + name + seq!['"'] + rest) == Some(name),
        text::quoted(a) is None,
        text::quoted(a + seq!['"'] + name) is None,
{
    let n = a.len() as int;
    let m = n + 1 + name.len();
    let s = a + seq!['"'] + name + seq!['"'] + rest;
    assert forall|k: int| 0 <= k < n implies #[trigger] s[k] != '"' by {
        assert(s[k] == a[k]);
    }
    assert(s[n] == '"' && s[m] == '"');
    assert forall|k: int| n + 1 <= k < m implies #[trigger] s[k] != '"' by {
        assert(s[k] == name[k - n - 1]);
    }
    lemma_next_at(s, '"', 0, n);
    lemma_next_at(s, '"', n + 1, m);
    assert(s.subrange(n + 1, m) =~= name);
    lemma_next_at(a, '"', 0, n);
    let t = a + seq!['"'] + name;
    assert forall|k: int| 0 <= k < n implies #[trigger] t[k] != '"' by {
        assert(t[k] == a[k]);
    }
    assert(t[n] == '"');
    assert forall|k: int| n + 1 <= k < m implies #[trigger] t[k] != '"' by {
        assert(t[k] == name[k - n - 1]);
    }
    lemma_next_at(t, '"', 0, n);
    lemma_next_at(t, '"', n + 1, m);
}

/// Of three pieces that two occurrences of a character part, the outer ones are
/// given; the last one may hold the character again.
pub proof fn lemma_outer(a: Seq<char>, b: Seq<char>, d: Seq<char>, c: char)
    requires
        lacks(a, c),
        lacks(b, c),
    ensures
        text::outer_pieces(a + seq![c] + b + seq![c] + d, c) == Some((a, d)),
        text::outer_pieces(a + seq![c] + b, c) is None,
        text::outer_pieces(a, c) is None,
{
    let n = a.len() as int;
    let m = n + 1 + b.len();
    let s = a + seq![c] + b + seq![c] + d;
    assert forall|k: int| 0 <= k < n implies #[trigger] s[k] != c by {
        assert(s[k] == a[k]);
    }
    assert(s[n] == c && s[m] == c);
    assert forall|k: int| n + 1 <= k < m implies #[trigger] s[k] != c by {
        assert(s[k] == b[k - n - 1]);
    }
    lemma_next_at(s, c, 0, n);
    lemma_next_at(s, c, n + 1, m);
    assert(s.take(n) =~= a);
    assert(s.skip(m + 1) =~= d);
    lemma_next_at(a, c, 0, n);
    let t = a + seq![c] + b;
    assert forall|k: int| 0 <= k < n implies #[trigger] t[k] != c by {
        assert(t[k] == a[k]);
    }
    assert(t[n] == c);
    assert forall|k: int| n + 1 <= k < m implies #[trigger] t[k] != c by {
        assert(t[k] == b[k - n - 1]);
    }
    lemma_next_at(t, c, 0, n);
    lemma_next_at(t, c, n + 1, m);
}

/// A pattern does not stand at the position.
pub open spec fn absent(s: Seq<char>, p: Seq<char>, i: int) -> bool {
    i + p.len() > s.len() || exists|k: int| 0 <= k < p.len() && #[trigger] s[i + k] != p[k]
}

proof fn lemma_absent(s: Seq<char>, p: Seq<char>, i: int)
    requires
        0 <= i,
    ensures
        absent(s, p, i) == !text::stands_at(s, p, i),
{
    if i + p.len() <= s.len() {
        let t = s.subrange(i, i + p.len());
        assert(forall|k: int| 0 <= k < p.len() ==> #[trigger] s[i + k] == t[k]);
        if t == p {
            assert(!absent(s, p, i));
        } else if !absent(s, p, i) {
            assert forall|k: int| 0 <= k < p.len() implies t[k] == p[k] by {
                assert(s[i + k] == p[k]);
            }
            assert(t =~= p);
        }
    }
}

proof fn lemma_found(s: Seq<char>, p: Seq<char>, i: int, j: int)
    requires
        0 <= i <= j <= s.len(),
        forall|k: int| i <= k < j ==> #[trigger] absent(s, p, k),
        j < s.len() ==> text::stands_at(s, p, j),
    ensures
        text::find_pattern(s, p, i) == j,
    decreases j - i,
{
    if i < j {
        assert(absent(s, p, i));
        lemma_absent(s, p, i);
        lemma_found(s, p, i + 1, j);
    }
}

/// What stands behind the first occurrence of a pattern, at `i`, and before the
/// next one, at `j`, or before the end.
pub proof fn lemma_second_piece(s: Seq<char>, p: Seq<char>, i: int, j: int)
    requires
        0 <= i,
        i + p.len() <= j <= s.len(),
        p.len() > 0,
        s.subrange(i, i + p.len()) == p,
        forall|k: int| 0 <= k < i ==> #[trigger] absent(s, p, k),
        forall|k: int| i + p.len() <= k < j ==> #[trigger] absent(s, p, k),
        j < s.len() ==> j + p.len() <= s.len() && s.subrange(j, j + p.len()) == p,
    ensures
        text::second_piece(s, p) == s.subrange(i + p.len(), j),
{
    lemma_found(s, p, 0, i);
    lemma_found(s, p, i + p.len(), j);
}

/// The last word is the one behind all white space between words.
pub proof fn lemma_last_word(a: Seq<char>, w: Seq<char>, b: Seq<char>)
    requires
        is_word(w),
        all_white(b),
        a.len() > 0 ==> is_white(a.last()),
    ensures
        text::last_word(a + w + b) == Some(w),
        text::last_word(b) is None,
    decreases a.len(),
{
    lemma_words_behind_white(b, Seq::empty());
    let s = a + w + b;
    if a.len() == 0 {
        if b.len() == 0 {
            assert(s =~= w);
            lemma_first_word(w, ' ', Seq::empty());
        } else {
            let rest = b.skip(1);
            assert(b[0] == b[0]);
            assert(is_white(b[0]));
            assert forall|k: int| 0 <= k < rest.len() implies is_white(#[trigger] rest[k]) by {
                assert(rest[k] == b[k + 1]);
            }
            assert(s =~= w + seq![b[0]] + rest);
            lemma_first_word(w, b[0], rest);
            lemma_words_behind_white(rest, Seq::empty());
            assert(seq![w] + Seq::<Seq<char>>::empty() =~= seq![w]);
        }
        assert(seq![w].last() == w);
    } else if is_white(a[0]) {
        let rest = a.skip(1);
        assert(s =~= seq![a[0]] + (rest + w + b));
        assert(all_white(seq![a[0]]));
        lemma_words_behind_white(seq![a[0]], rest + w + b);
        if rest.len() > 0 {
            assert(rest.last() == a.last());
        }
        lemma_last_word(rest, w, b);
    } else {
        let n = lemma_run(a, 0);
        let v = a.take(n);
        let rest = a.skip(n + 1);
        assert forall|k: int| 0 <= k < v.len() implies !is_white(#[trigger] v[k]) by {
            assert(v[k] == a[k]);
        }
        assert(s =~= v + seq![a[n]] + (rest + w + b));
        lemma_first_word(v, a[n], rest + w + b);
        if rest.len() > 0 {
            assert(rest.last() == a.last());
        }
        lemma_last_word(rest, w, b);
        let ws = text::words(rest + w + b);
        assert((seq![v] + ws).last() == ws.last());
    }
}

proof fn lemma_run(a: Seq<char>, i: int) -> (n: int)
    requires
        0 <= i < a.len(),
        is_white(a.last()),
    ensures
        i <= n < a.len(),
        is_white(a[n]),
        forall|k: int| i <= k < n ==> !is_white(#[trigger] a[k]),
    decreases a.len() - i,
{
    if is_white(a[i]) {
        i
    } else {
        lemma_run(a, i + 1)
    }
}

/// Each occurrence of the character is doubled, and every other one stays as it is.
pub proof fn lemma_doubled(a: Seq<char>, b: Seq<char>, c: char)
    ensures
        text::doubled(a + b, c) == text::doubled(a, c) + text::doubled(b, c),
        text::doubled(seq![c], c) == seq![c, c],
        lacks(a, c) ==> text::doubled(a, c) == a,
    decreases a.len() + b.len(),
{
    reveal_with_fuel(text::doubled, 2);
    assert(seq![c].drop_last() =~= Seq::<char>::empty());
    assert(text::doubled(seq![c], c) =~= seq![c, c]);
    if b.len() == 0 {
        assert(a + b =~= a);
        assert(text::doubled(a, c) + text::doubled(b, c) =~= text::doubled(a, c));
        if a.len() > 0 {
            lemma_doubled(a.drop_last(), Seq::empty(), c);
            if lacks(a, c) {
                assert(a.last() == a[a.len() - 1]);
                assert forall|k: int| 0 <= k < a.len() - 1 implies #[trigger] a.drop_last()[k]
                    != c by {
                    assert(a.drop_last()[k] == a[k]);
                }
                assert(a.drop_last().push(a.last()) =~= a);
            }
        }
    } else {
        assert((a + b).drop_last() =~= a + b.drop_last());
        assert((a + b).last() == b.last());
        lemma_doubled(a, b.drop_last(), c);
        assert(text::doubled(a + b, c) =~= text::doubled(a, c) + text::doubled(b, c));
    }
}

// ── Numbers ──────────────────────────────────────────────────────────────────

/// The decimal digit `d`.
pub open spec fn digit(d: int) -> char {
    if d == 0 {
        '0'
    } else if d == 1 {
        '1'
    } else if d == 2 {
        '2'
    } else if d == 3 {
        '3'
    } else if d == 4 {
        '4'
    } else if d == 5 {
        '5'
    } else if d == 6 {
        '6'
    } else if d == 7 {
        '7'
    } else if d == 8 {
        '8'
    } else {
        '9'
    }
}

/// How a number is written: the digits of the number without its last one, then
/// that one; with a zero before it where it should have two.
pub proof fn lemma_written(n: nat)
    ensures
        n < 10 ==> text::decimal(n) == seq![digit(n as int)],
        n >= 10 ==> text::decimal(n) == text::decimal(n / 10).push(digit(n as int % 10)),
        n < 10 ==> text::decimal2(n) == seq!['0', digit(n as int)],
        n >= 10 ==> text::decimal2(n) == text::decimal(n),
{
    if n < 10 {
        assert(text::digit_char(n as int) == digit(n as int));
        assert(text::decimal2(n) =~= seq!['0', digit(n as int)]);
    } else {
        assert(text::digit_char((n % 10) as int) == digit(n as int % 10));
    }
}

proof fn lemma_digits(n: nat)
    ensures
        text::decimal(n).len() > 0,
        text::digits_value(text::decimal(n), 10) == Some(n),
        forall|k: int|
            0 <= k < text::decimal(n).len() ==> '0' <= #[trigger] text::decimal(n)[k] <= '9',
    decreases n,
{
    let s = text::decimal(n);
    if n < 10 {
        reveal_with_fuel(text::digits_value, 2);
        assert(s.drop_last() =~= Seq::<char>::empty());
        assert(s.last() == text::digit_char(n as int));
    } else {
        lemma_digits(n / 10);
        let t = text::decimal(n / 10);
        assert(s.drop_last() =~= t);
        assert(s.last() == text::digit_char((n % 10) as int));
        assert(text::digit_value(s.last(), 10) == Some((n % 10) as nat));
        assert((n / 10) * 10 + n % 10 == n);
        assert forall|k: int| 0 <= k < s.len() implies '0' <= #[trigger] s[k] <= '9' by {
            if k < t.len() {
                assert(s[k] == t[k]);
            }
        }
    }
}

/// A number reads back as it was written, with or without a plus sign; with a minus
/// sign it reads as its negation. One above the limit reads as none.
pub proof fn lemma_number_reads_back(n: nat, max: nat)
    ensures
        n <= max ==> text::parse_unsigned(text::decimal(n), max) == Some(n),
        n <= max ==> text::parse_unsigned(seq!['+'] + text::decimal(n), max) == Some(n),
        n > max ==> text::parse_unsigned(text::decimal(n), max) is None,
        n <= 0x7fff_ffff_ffff_ffff ==> text::parse_signed(text::decimal(n), 10) == Some(n as int),
        n <= 0x7fff_ffff_ffff_ffff ==> text::parse_signed(seq!['+'] + text::decimal(n), 10) == Some(
            n as int,
        ),
        n <= 0x8000_0000_0000_0000 ==> text::parse_signed(seq!['-'] + text::decimal(n), 10) == Some(
            -(n as int),
        ),
        n > 0x7fff_ffff_ffff_ffff ==> text::parse_signed(text::decimal(n), 10) is None,
{
    let s = text::decimal(n);
    lemma_digits(n);
    assert('0' <= s[0] <= '9');
    assert((seq!['+'] + s).skip(1) =~= s);
    assert((seq!['-'] + s).skip(1) =~= s);
    assert((seq!['+'] + s)[0] == '+');
    assert((seq!['-'] + s)[0] == '-');
}

/// A zero before a number makes no difference.
pub proof fn lemma_leading_zero(s: Seq<char>)
    ensures
        text::digits_value(seq!['0'] + s, 10) == text::digits_value(s, 10),
        text::digits_value(seq!['0'] + s, 16) == text::digits_value(s, 16),
    decreases s.len(),
{
    let t = seq!['0'] + s;
    if s.len() == 0 {
        assert(t =~= seq!['0']);
        reveal_with_fuel(text::digits_value, 2);
        assert(t.drop_last() =~= Seq::<char>::empty());
    } else {
        assert(t.drop_last() =~= seq!['0'] + s.drop_last());
        assert(t.last() == s.last());
        lemma_leading_zero(s.drop_last());
    }
}

/// A number of two digits reads back too.
pub proof fn lemma_two_digits_read_back(n: nat, max: nat)
    requires
        n <= max,
    ensures
        text::parse_unsigned(text::decimal2(n), max) == Some(n),
{
    lemma_number_reads_back(n, max);
    lemma_digits(n);
    if n < 10 {
        lemma_leading_zero(text::decimal(n));
        assert(text::decimal2(n)[0] == '0');
    }
}

/// What holds a character that is no digit is no number.
pub proof fn lemma_not_a_number(s: Seq<char>, k: int, max: nat)
    requires
        0 <= k < s.len(),
        !('0' <= s[k] <= '9'),
        k == 0 ==> s[0] != '+',
    ensures
        text::parse_unsigned(s, max) is None,
        k == 0 ==> (s[0] != '-' ==> text::parse_signed(s, 10) is None),
        k > 0 ==> text::parse_signed(s, 10) is None,
        text::parse_unsigned(Seq::empty(), max) is None,
        text::parse_signed(Seq::empty(), 10) is None,
        text::parse_unsigned(seq!['+'], max) is None,
{
    lemma_no_digits(s, k);
    assert(seq!['+'].skip(1) =~= Seq::empty());
    if k > 0 {
        assert(s.skip(1)[k - 1] == s[k]);
        lemma_no_digits(s.skip(1), k - 1);
    }
}

proof fn lemma_no_digits(s: Seq<char>, k: int)
    requires
        0 <= k < s.len(),
        !('0' <= s[k] <= '9'),
    ensures
        text::digits_value(s, 10) is None,
    decreases s.len(),
{
    if k < s.len() - 1 {
        assert(s.drop_last()[k] == s[k]);
        lemma_no_digits(s.drop_last(), k);
    }
}

/// How hexadecimal digits count, in upper and in lower case: each is worth sixteen
/// times less than the one before it.
pub proof fn lemma_hexadecimal(s: Seq<char>, d: int)
    requires
        0 <= d < 16,
        text::digits_value(s, 16) is Some,
    ensures
        d < 10 ==> text::digits_value(s.push(digit(d)), 16) == Some(
            (16 * text::digits_value(s, 16)->0 + d) as nat,
        ),
        d >= 10 ==> text::digits_value(s.push((('A' as int) + (d - 10)) as char), 16) == Some(
            (16 * text::digits_value(s, 16)->0 + d) as nat,
        ),
        d >= 10 ==> text::digits_value(s.push((('a' as int) + (d - 10)) as char), 16) == Some(
            (16 * text::digits_value(s, 16)->0 + d) as nat,
        ),
        text::digits_value(Seq::empty(), 16) == Some(0nat),
{
    if d < 10 {
        let t = s.push(digit(d));
        assert(t.drop_last() =~= s);
        assert(t.last() == digit(d));
        assert(text::digit_value(digit(d), 16) == Some(d as nat));
    } else {
        let u = (('A' as int) + (d - 10)) as char;
        let l = (('a' as int) + (d - 10)) as char;
        assert(s.push(u).drop_last() =~= s && s.push(u).last() == u);
        assert(s.push(l).drop_last() =~= s && s.push(l).last() == l);
        assert(text::digit_value(u, 16) == Some(d as nat));
        assert(text::digit_value(l, 16) == Some(d as nat));
    }
}

/// Hexadecimal digits read back as the number they were written for, as far as it
/// fits.
pub proof fn lemma_hex_reads_back(n: nat, k: nat)
    requires
        n < vstd::arithmetic::power::pow(16, k),
    ensures
        text::hex_digits(n, k).len() == k,
        text::digits_value(text::hex_digits(n, k), 16) == Some(n),
        forall|j: int|
            0 <= j < k ==> !('a' <= #[trigger] text::hex_digits(n, k)[j] <= 'f'),
    decreases k,
{
    let s = text::hex_digits(n, k);
    if k > 0 {
        let m = (k - 1) as nat;
        reveal(vstd::arithmetic::power::pow);
        assert(vstd::arithmetic::power::pow(16, k) == 16 * vstd::arithmetic::power::pow(16, m));
        let p = vstd::arithmetic::power::pow(16, m);
        assert(n / 16 < p) by (nonlinear_arith)
            requires
                n < 16 * p,
        ;
        lemma_hex_reads_back(n / 16, m);
        let t = text::hex_digits(n / 16, m);
        let c = text::digit_char((n % 16) as int);
        assert(s == t.push(c));
        assert(s.drop_last() =~= t);
        assert(text::digit_value(c, 16) == Some((n % 16) as nat));
        assert((n / 16) * 16 + n % 16 == n);
        assert forall|j: int| 0 <= j < k implies !('a' <= #[trigger] s[j] <= 'f') by {
            if j < m {
                assert(s[j] == t[j]);
            }
        }
    } else {
        reveal(vstd::arithmetic::power::pow);
        assert(n == 0);
    }
}

// ── Times ────────────────────────────────────────────────────────────────────

proof fn lemma_lacks_colon(n: nat)
    ensures
        lacks(text::decimal(n), ':'),
        lacks(text::decimal2(n), ':'),
{
    lemma_digits(n);
    if n < 10 {
        let s = text::decimal2(n);
        assert forall|k: int| 0 <= k < s.len() implies #[trigger] s[k] != ':' by {
            if k > 0 {
                assert(s[k] == text::decimal(n)[k - 1]);
            }
        }
    }
}

/// A time of `m` minutes, `s` seconds and `f` frames, written with colons between
/// them, is 75 frames a second.
pub proof fn lemma_time(m: u64, s: u64, f: u64)
    ensures
        text::msf(
            text::decimal(m as nat) + seq![':'] + (text::decimal(s as nat) + seq![':']
                + text::decimal(f as nat)),
        ) == Some((m * 4500 + s * 75 + f) as nat),
        text::msf(
            text::decimal2(m as nat) + seq![':'] + (text::decimal2(s as nat) + seq![':']
                + text::decimal2(f as nat)),
        ) == Some((m * 4500 + s * 75 + f) as nat),
{
    let (a, b, c) = (m as nat, s as nat, f as nat);
    lemma_lacks_colon(a);
    lemma_lacks_colon(b);
    lemma_lacks_colon(c);
    lemma_number_reads_back(a, u64::MAX as nat);
    lemma_number_reads_back(b, u64::MAX as nat);
    lemma_number_reads_back(c, u64::MAX as nat);
    lemma_two_digits_read_back(a, u64::MAX as nat);
    lemma_two_digits_read_back(b, u64::MAX as nat);
    lemma_two_digits_read_back(c, u64::MAX as nat);
    lemma_three(text::decimal(a), text::decimal(b), text::decimal(c));
    lemma_three(text::decimal2(a), text::decimal2(b), text::decimal2(c));
}

proof fn lemma_three(a: Seq<char>, b: Seq<char>, c: Seq<char>)
    requires
        lacks(a, ':'),
        lacks(b, ':'),
        lacks(c, ':'),
    ensures
        ({
            let p = text::fields(a + seq![':'] + (b + seq![':'] + c), ':');
            p.len() == 3 && p[0] == a && p[1] == b && p[2] == c
        }),
{
    lemma_fields(a, ':', b + seq![':'] + c);
    lemma_fields(b, ':', c);
    lemma_fields(c, ':', Seq::empty());
}

/// A text of another number of parts, or with a part that is no number, is no time.
pub proof fn lemma_not_a_time(s: Seq<char>)
    ensures
        text::fields(s, ':').len() != 3 ==> text::msf(s) is None,
        forall|k: int|
            #![trigger text::fields(s, ':')[k]]
            0 <= k < 3 && text::parse_unsigned(text::fields(s, ':')[k], u64::MAX as nat) is None
                ==> text::msf(s) is None,
{
    let p = text::fields(s, ':');
    assert forall|k: int|
        #![trigger p[k]]
        0 <= k < 3 && text::parse_unsigned(p[k], u64::MAX as nat) is None implies text::msf(
        s,
    ) is None by {
        if k == 0 {
            assert(p[k] == p[0]);
        } else if k == 1 {
            assert(p[k] == p[1]);
        } else {
            assert(p[k] == p[2]);
        }
    }
}

// ── Letter case ──────────────────────────────────────────────────────────────

/// In lower case, the letters `A` to `Z` become `a` to `z`, and every other character
/// stays as it is.
pub proof fn lemma_lower(s: Seq<char>, k: int)
    requires
        0 <= k < s.len(),
    ensures
        text::ascii_lower(s).len() == s.len(),
        'A' <= s[k] <= 'Z' ==> text::ascii_lower(s)[k] as int == s[k] as int + 32,
        !('A' <= s[k] <= 'Z') ==> text::ascii_lower(s)[k] == s[k],
        text::ascii_upper(s).len() == s.len(),
        'a' <= s[k] <= 'z' ==> text::ascii_upper(s)[k] as int == s[k] as int - 32,
        !('a' <= s[k] <= 'z') ==> text::ascii_upper(s)[k] == s[k],
{
}

} // verus!
