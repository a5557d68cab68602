//! Character-level reading and writing of the text that disc sheets and
//! command output are made of.
use vstd::prelude::*;

verus! {

// ── Views ────────────────────────────────────────────────────────────────────

/// The contents of a list of character buffers.
pub open spec fn views(v: Seq<Vec<char>>) -> Seq<Seq<char>> {
    v.map_values(|x: Vec<char>| x@)
}

/// The contents of a list of strings.
pub open spec fn string_views(v: Seq<String>) -> Seq<Seq<char>> {
    v.map_values(|x: String| x@)
}

/// The characters of an optional string.
pub open spec fn opt_view(s: Option<String>) -> Option<Seq<char>> {
    match s {
        Some(x) => Some(x@),
        None => None,
    }
}

/// `String::push`: appends one character.
pub assume_specification[ String::push ](s: &mut String, c: char)
    ensures
        final(s)@ == old(s)@.push(c),
;

/// The characters of `s`.
pub fn chars_of(s: &str) -> (v: Vec<char>)
    ensures
        v@ == s@,
{
    let mut v: Vec<char> = Vec::new();
    for c in it: s.chars()
        invariant
            v@ == it.seq().take(it.index() as int),
            it.seq() == s@,
    {
        v.push(c);
    }
    v
}

/// A string made of the given characters.
pub fn string_of(v: &[char]) -> (s: String)
    ensures
        s@ == v@,
{
    let mut s = String::new();
    for i in 0..v.len()
        invariant
            s@ == v@.take(i as int),
    {
        s.push(v[i]);
        assert(v@.take(i + 1) == v@.take(i as int).push(v@[i as int]));
    }
    assert(v@.take(v@.len() as int) == v@);
    s
}

/// A copy of `s[a..b]`.
pub fn part(s: &[char], a: usize, b: usize) -> (v: Vec<char>)
    requires
        a <= b <= s@.len(),
    ensures
        v@ == s@.subrange(a as int, b as int),
{
    let mut v: Vec<char> = Vec::new();
    let mut i: usize = a;
    while i < b
        invariant
            a <= i <= b <= s@.len(),
            v@ == s@.subrange(a as int, i as int),
        decreases b - i,
    {
        v.push(s[i]);
        i += 1;
        assert(s@.subrange(a as int, i as int) == s@.subrange(a as int, i - 1).push(s@[i - 1]));
    }
    v
}

// ── Prefixes, suffixes and equality ──────────────────────────────────────────

/// `s` begins with `p`.
pub open spec fn starts_with(s: Seq<char>, p: Seq<char>) -> bool {
    p.len() <= s.len() && s.subrange(0, p.len() as int) == p
}

/// `s` ends with `p`.
pub open spec fn ends_with(s: Seq<char>, p: Seq<char>) -> bool {
    p.len() <= s.len() && s.subrange(s.len() - p.len(), s.len() as int) == p
}

/// Whether `p` stands in `s` at position `at`.
pub fn has_at(s: &[char], at: usize, p: &[char]) -> (r: bool)
    ensures
        r == (at + p@.len() <= s@.len() && s@.subrange(at as int, at + p@.len()) == p@),
{
    if at > s.len() || p.len() > s.len() - at {
        return false;
    }
    let n: usize = s.len();
    let mut i: usize = 0;
    while i < p.len()
        invariant
            at + p@.len() <= n,
            n == s@.len(),
            i <= p@.len(),
            forall|k: int| 0 <= k < i ==> s@[at + k] == p@[k],
        decreases p@.len() - i,
    {
        if s[at + i] != p[i] {
            assert(s@.subrange(at as int, at + p@.len())[i as int] == s@[at + i]);
            return false;
        }
        i += 1;
    }
    assert(s@.subrange(at as int, at + p@.len()) =~= p@);
    true
}

/// Whether `s` begins with the literal `p`.
pub fn begins(s: &[char], p: &str) -> (r: bool)
    ensures
        r == starts_with(s@, p@),
{
    let q = chars_of(p);
    has_at(s, 0, q.as_slice())
}

/// Whether `s` ends with the literal `p`.
pub fn ends(s: &[char], p: &str) -> (r: bool)
    ensures
        r == ends_with(s@, p@),
{
    let q = chars_of(p);
    if q.len() > s.len() {
        return false;
    }
    has_at(s, s.len() - q.len(), q.as_slice())
}

/// Whether `s` is the literal `p`.
pub fn same(s: &[char], p: &str) -> (r: bool)
    ensures
        r == (s@ == p@),
{
    let q = chars_of(p);
    if q.len() != s.len() {
        return false;
    }
    let r = has_at(s, 0, q.as_slice());
    assert(s@.subrange(0, s@.len() as int) == s@);
    r
}

/// Whether two strings hold the same characters.
pub fn same_str(a: &str, b: &str) -> (r: bool)
    ensures
        r == (a@ == b@),
{
    let q = chars_of(a);
    same(q.as_slice(), b)
}

/// Whether the string `s` begins with the literal `p`.
pub fn str_begins(s: &str, p: &str) -> (r: bool)
    ensures
        r == starts_with(s@, p@),
{
    let q = chars_of(s);
    begins(q.as_slice(), p)
}

// ── White space ──────────────────────────────────────────────────────────────

/// The characters with the Unicode property `White_Space`.
pub open spec fn is_space(c: char) -> bool {
    let n = c as int;
    ||| 0x9 <= n <= 0xd
    ||| n == 0x20
    ||| n == 0x85
    ||| n == 0xa0
    ||| n == 0x1680
    ||| 0x2000 <= n <= 0x200a
    ||| n == 0x2028
    ||| n == 0x2029
    ||| n == 0x202f
    ||| n == 0x205f
    ||| n == 0x3000
}

/// Whether `c` is white space.
pub fn space(c: char) -> (r: bool)
    ensures
        r == is_space(c),
{
    let n: u32 = c as u32;
    (0x9 <= n && n <= 0xd) || n == 0x20 || n == 0x85 || n == 0xa0 || n == 0x1680 || (0x2000 <= n
        && n <= 0x200a) || n == 0x2028 || n == 0x2029 || n == 0x202f || n == 0x205f || n == 0x3000
}

/// The first position from `i` on that is not white space, or the length.
pub open spec fn space_end(s: Seq<char>, i: int) -> int
    decreases s.len() - i,
{
    if 0 <= i < s.len() && is_space(s[i]) {
        space_end(s, i + 1)
    } else {
        i
    }
}

/// The first position from `i` on that is white space, or the length.
pub open spec fn word_end(s: Seq<char>, i: int) -> int
    decreases s.len() - i,
{
    if 0 <= i < s.len() && !is_space(s[i]) {
        word_end(s, i + 1)
    } else {
        i
    }
}

/// The position after the last character before `j` that is not white space.
pub open spec fn space_start(s: Seq<char>, j: int) -> int
    decreases j,
{
    if 0 < j <= s.len() && is_space(s[j - 1]) {
        space_start(s, j - 1)
    } else {
        j
    }
}

proof fn lemma_space_end(s: Seq<char>, i: int)
    requires
        0 <= i <= s.len(),
    ensures
        i <= space_end(s, i) <= s.len(),
        space_end(s, i) < s.len() ==> !is_space(s[space_end(s, i)]),
        forall|k: int| i <= k < space_end(s, i) ==> is_space(s[k]),
    decreases s.len() - i,
{
    if i < s.len() && is_space(s[i]) {
        lemma_space_end(s, i + 1);
    }
}

proof fn lemma_word_end(s: Seq<char>, i: int)
    requires
        0 <= i <= s.len(),
    ensures
        i <= word_end(s, i) <= s.len(),
        i < s.len() && !is_space(s[i]) ==> i < word_end(s, i),
    decreases s.len() - i,
{
    if i < s.len() && !is_space(s[i]) {
        lemma_word_end(s, i + 1);
    }
}

proof fn lemma_space_start(s: Seq<char>, j: int)
    requires
        0 <= j <= s.len(),
    ensures
        0 <= space_start(s, j) <= j,
        space_start(s, j) > 0 ==> !is_space(s[space_start(s, j) - 1]),
    decreases j,
{
    if 0 < j && is_space(s[j - 1]) {
        lemma_space_start(s, j - 1);
    }
}

/// `s` without the white space at both ends.
pub open spec fn trim(s: Seq<char>) -> Seq<char> {
    let a = space_end(s, 0);
    let b = space_start(s, s.len() as int);
    if a < b {
        s.subrange(a, b)
    } else {
        Seq::empty()
    }
}

fn skip_space(s: &[char], from: usize) -> (r: usize)
    requires
        from <= s@.len(),
    ensures
        r == space_end(s@, from as int),
        from <= r <= s@.len(),
{
    let mut i: usize = from;
    while i < s.len() && space(s[i])
        invariant
            from <= i <= s@.len(),
            space_end(s@, from as int) == space_end(s@, i as int),
        decreases s@.len() - i,
    {
        i += 1;
    }
    i
}

fn skip_word(s: &[char], from: usize) -> (r: usize)
    requires
        from <= s@.len(),
    ensures
        r == word_end(s@, from as int),
        from <= r <= s@.len(),
{
    let mut i: usize = from;
    while i < s.len() && !space(s[i])
        invariant
            from <= i <= s@.len(),
            word_end(s@, from as int) == word_end(s@, i as int),
        decreases s@.len() - i,
    {
        i += 1;
    }
    i
}

/// `s` without the white space at both ends.
pub fn trimmed(s: &[char]) -> (v: Vec<char>)
    ensures
        v@ == trim(s@),
{
    let a = skip_space(s, 0);
    let mut b: usize = s.len();
    while b > 0 && space(s[b - 1])
        invariant
            b <= s@.len(),
            space_start(s@, s@.len() as int) == space_start(s@, b as int),
        decreases b,
    {
        b -= 1;
    }
    if a < b {
        part(s, a, b)
    } else {
        Vec::new()
    }
}

/// The runs of characters between white space, from position `i` on.
pub open spec fn words_from(s: Seq<char>, i: int) -> Seq<Seq<char>>
    decreases s.len() - i,
    when 0 <= i <= s.len()
    via words_from_decreases
{
    let a = space_end(s, i);
    if a >= s.len() {
        Seq::empty()
    } else {
        let b = word_end(s, a);
        seq![s.subrange(a, b)] + words_from(s, b)
    }
}

#[via_fn]
proof fn words_from_decreases(s: Seq<char>, i: int) {
    lemma_space_end(s, i);
    let a = space_end(s, i);
    if a < s.len() {
        lemma_word_end(s, a);
    }
}

/// The runs of characters between white space.
pub open spec fn words(s: Seq<char>) -> Seq<Seq<char>> {
    words_from(s, 0)
}

/// `s` is one word: it has characters, and none of them is white space.
pub open spec fn is_word(s: Seq<char>) -> bool {
    s.len() > 0 && forall|k: int| 0 <= k < s.len() ==> !is_space(#[trigger] s[k])
}

proof fn lemma_word_runs(s: Seq<char>, i: int, j: int)
    requires
        0 <= i <= j <= s.len(),
        forall|k: int| i <= k < j ==> !is_space(#[trigger] s[k]),
        j < s.len() ==> is_space(s[j]),
    ensures
        word_end(s, i) == j,
    decreases j - i,
{
    if i < j {
        lemma_word_runs(s, i + 1, j);
    }
}

/// Two words with a blank between them are read as these two words, and a word
/// stays as it is when white space is taken off its ends.
pub proof fn lemma_two_words(a: Seq<char>, b: Seq<char>)
    requires
        is_word(a),
        is_word(b),
    ensures
        words(a + seq![' '] + b) == seq![a, b],
        trim(b) == b,
{
    let s = a + seq![' '] + b;
    let n = a.len() as int;
    assert forall|k: int| 0 <= k < n implies !is_space(#[trigger] s[k]) by {
        assert(s[k] == a[k]);
    }
    assert forall|k: int| n + 1 <= k < s.len() implies !is_space(#[trigger] s[k]) by {
        assert(s[k] == b[k - n - 1]);
    }
    assert(s[n] == ' ');
    assert(s[0] == a[0]);
    assert(s[n + 1] == b[0]);
    lemma_word_runs(s, 0, n);
    lemma_word_runs(s, n + 1, s.len() as int);
    assert(space_end(s, 0) == 0);
    assert(space_end(s, n + 1) == n + 1);
    assert(space_end(s, n) == n + 1);
    assert(space_end(s, s.len() as int) == s.len());
    assert(words_from(s, s.len() as int) == Seq::<Seq<char>>::empty());
    assert(s.subrange(n + 1, s.len() as int) =~= b);
    assert(words_from(s, n) =~= seq![b]);
    assert(s.subrange(0, n) =~= a);
    assert(words_from(s, 0) =~= seq![a, b]);
    assert(space_end(b, 0) == 0);
    assert(!is_space(b[b.len() - 1]));
    assert(space_start(b, b.len() as int) == b.len());
    assert(b.subrange(0, b.len() as int) =~= b);
}

/// Splits at white space.
pub fn split_words(s: &[char]) -> (v: Vec<Vec<char>>)
    ensures
        views(v@) == words(s@),
{
    let mut v: Vec<Vec<char>> = Vec::new();
    let mut i: usize = 0;
    loop
        invariant
            i <= s@.len(),
            views(v@) + words_from(s@, i as int) == words(s@),
        decreases s@.len() - i,
    {
        proof {
            lemma_space_end(s@, i as int);
        }
        let a = skip_space(s, i);
        if a >= s.len() {
            assert(views(v@) + words_from(s@, i as int) == views(v@));
            return v;
        }
        proof {
            lemma_word_end(s@, a as int);
        }
        let b = skip_word(s, a);
        let ghost before = v@;
        v.push(part(s, a, b));
        assert(views(v@) == views(before).push(s@.subrange(a as int, b as int)));
        assert(views(v@) + words_from(s@, b as int) == views(before) + words_from(s@, i as int));
        i = b;
    }
}

// ── Runs of one character ────────────────────────────────────────────────────

/// The first position from `i` on that does not hold `c`.
pub open spec fn run_end(s: Seq<char>, c: char, i: int) -> int
    decreases s.len() - i,
{
    if 0 <= i < s.len() && s[i] == c {
        run_end(s, c, i + 1)
    } else {
        i
    }
}

/// The last position up to `j` before which `c` does not stand.
pub open spec fn run_start(s: Seq<char>, c: char, j: int) -> int
    decreases j,
{
    if 0 < j <= s.len() && s[j - 1] == c {
        run_start(s, c, j - 1)
    } else {
        j
    }
}

/// `s` without the characters `c` it begins with.
pub open spec fn trim_front(s: Seq<char>, c: char) -> Seq<char> {
    s.skip(run_end(s, c, 0))
}

/// `s` without the characters `c` it ends with.
pub open spec fn trim_back(s: Seq<char>, c: char) -> Seq<char> {
    s.take(run_start(s, c, s.len() as int))
}

/// `s` without the characters `c` at both ends.
pub open spec fn trim_both(s: Seq<char>, c: char) -> Seq<char> {
    trim_back(trim_front(s, c), c)
}

/// `s` without the characters `c` it begins with.
pub fn trimmed_front(s: &[char], c: char) -> (v: Vec<char>)
    ensures
        v@ == trim_front(s@, c),
{
    let mut i: usize = 0;
    while i < s.len() && s[i] == c
        invariant
            i <= s@.len(),
            run_end(s@, c, 0) == run_end(s@, c, i as int),
        decreases s@.len() - i,
    {
        i += 1;
    }
    let v = part(s, i, s.len());
    assert(v@ =~= s@.skip(i as int));
    v
}

/// `s` without the characters `c` it ends with.
pub fn trimmed_back(s: &[char], c: char) -> (v: Vec<char>)
    ensures
        v@ == trim_back(s@, c),
{
    let mut j: usize = s.len();
    while j > 0 && s[j - 1] == c
        invariant
            j <= s@.len(),
            run_start(s@, c, s@.len() as int) == run_start(s@, c, j as int),
        decreases j,
    {
        j -= 1;
    }
    let v = part(s, 0, j);
    assert(v@ =~= s@.take(j as int));
    v
}

/// `s` without the characters `c` at both ends.
pub fn trimmed_both(s: &[char], c: char) -> (v: Vec<char>)
    ensures
        v@ == trim_both(s@, c),
{
    let f = trimmed_front(s, c);
    trimmed_back(f.as_slice(), c)
}

// ── Separators ───────────────────────────────────────────────────────────────

/// The first position from `i` on that holds `c`, or the length.
pub open spec fn next(s: Seq<char>, c: char, i: int) -> int
    decreases s.len() - i,
{
    if 0 <= i < s.len() && s[i] != c {
        next(s, c, i + 1)
    } else {
        i
    }
}

pub proof fn lemma_next(s: Seq<char>, c: char, i: int)
    requires
        0 <= i <= s.len(),
    ensures
        i <= next(s, c, i) <= s.len(),
        next(s, c, i) < s.len() ==> s[next(s, c, i)] == c,
        forall|k: int| i <= k < next(s, c, i) ==> s[k] != c,
    decreases s.len() - i,
{
    if i < s.len() && s[i] != c {
        lemma_next(s, c, i + 1);
    }
}

/// Finds `c` from position `from` on; the length where it does not occur.
pub fn find_from(s: &[char], c: char, from: usize) -> (r: usize)
    requires
        from <= s@.len(),
    ensures
        r == next(s@, c, from as int),
        from <= r <= s@.len(),
{
    let mut i: usize = from;
    while i < s.len() && s[i] != c
        invariant
            from <= i <= s@.len(),
            next(s@, c, from as int) == next(s@, c, i as int),
        decreases s@.len() - i,
    {
        i += 1;
    }
    i
}

/// The pieces between occurrences of `c`, from position `i` on.
pub open spec fn fields_from(s: Seq<char>, c: char, i: int) -> Seq<Seq<char>>
    decreases s.len() - i,
    when 0 <= i <= s.len()
    via fields_from_decreases
{
    let e = next(s, c, i);
    if e >= s.len() {
        seq![s.subrange(i, s.len() as int)]
    } else {
        seq![s.subrange(i, e)] + fields_from(s, c, e + 1)
    }
}

#[via_fn]
proof fn fields_from_decreases(s: Seq<char>, c: char, i: int) {
    lemma_next(s, c, i);
}

/// The pieces between occurrences of `c`; at least one.
pub open spec fn fields(s: Seq<char>, c: char) -> Seq<Seq<char>> {
    fields_from(s, c, 0)
}

/// Splits at every occurrence of `c`.
pub fn split_fields(s: &[char], c: char) -> (v: Vec<Vec<char>>)
    ensures
        views(v@) == fields(s@, c),
{
    let mut v: Vec<Vec<char>> = Vec::new();
    let mut i: usize = 0;
    loop
        invariant
            i <= s@.len(),
            views(v@) + fields_from(s@, c, i as int) == fields(s@, c),
        decreases s@.len() - i,
    {
        proof {
            lemma_next(s@, c, i as int);
        }
        let e = find_from(s, c, i);
        let ghost before = v@;
        if e >= s.len() {
            v.push(part(s, i, s.len()));
            assert(views(v@) == views(before) + fields_from(s@, c, i as int));
            return v;
        }
        v.push(part(s, i, e));
        assert(views(v@) == views(before).push(s@.subrange(i as int, e as int)));
        assert(views(v@) + fields_from(s@, c, e + 1) == views(before) + fields_from(
            s@,
            c,
            i as int,
        ));
        i = e + 1;
    }
}

/// `s` without one carriage return at its end.
pub open spec fn strip_cr(s: Seq<char>) -> Seq<char> {
    if s.len() > 0 && s.last() == '\r' {
        s.drop_last()
    } else {
        s
    }
}

/// The lines from position `i` on: each ends in a line feed, which may follow
/// a carriage return; the last one may have no line feed.
pub open spec fn lines_from(s: Seq<char>, i: int) -> Seq<Seq<char>>
    decreases s.len() - i,
    when 0 <= i <= s.len()
    via lines_from_decreases
{
    let e = next(s, '\n', i);
    if i >= s.len() {
        Seq::empty()
    } else if e >= s.len() {
        seq![s.subrange(i, s.len() as int)]
    } else {
        seq![strip_cr(s.subrange(i, e))] + lines_from(s, e + 1)
    }
}

#[via_fn]
proof fn lines_from_decreases(s: Seq<char>, i: int) {
    lemma_next(s, '\n', i);
}

/// The lines of a text.
pub open spec fn lines(s: Seq<char>) -> Seq<Seq<char>> {
    lines_from(s, 0)
}

/// Splits a text into its lines.
pub fn split_lines(s: &[char]) -> (v: Vec<Vec<char>>)
    ensures
        views(v@) == lines(s@),
{
    let mut v: Vec<Vec<char>> = Vec::new();
    let mut i: usize = 0;
    while i < s.len()
        invariant
            i <= s@.len(),
            views(v@) + lines_from(s@, i as int) == lines(s@),
        decreases s@.len() - i,
    {
        proof {
            lemma_next(s@, '\n', i as int);
        }
        let e = find_from(s, '\n', i);
        let ghost before = v@;
        if e >= s.len() {
            v.push(part(s, i, s.len()));
            assert(views(v@) == views(before) + lines_from(s@, i as int));
            return v;
        }
        let b: usize = if e > i && s[e - 1] == '\r' {
            e - 1
        } else {
            e
        };
        v.push(part(s, i, b));
        assert(s@.subrange(i as int, b as int) == strip_cr(s@.subrange(i as int, e as int)));
        assert(views(v@) == views(before).push(s@.subrange(i as int, b as int)));
        assert(views(v@) + lines_from(s@, e + 1) == views(before) + lines_from(s@, i as int));
        i = e + 1;
    }
    assert(views(v@) + lines_from(s@, i as int) == views(v@));
    v
}

// ── Patterns ─────────────────────────────────────────────────────────────────

/// `p` stands in `s` at `i`.
pub open spec fn stands_at(s: Seq<char>, p: Seq<char>, i: int) -> bool {
    i + p.len() <= s.len() && s.subrange(i, i + p.len()) == p
}

/// The first position from `i` on at which `p` stands, or the length.
pub open spec fn find_pattern(s: Seq<char>, p: Seq<char>, i: int) -> int
    decreases s.len() - i,
{
    if i < 0 || i >= s.len() {
        s.len() as int
    } else if stands_at(s, p, i) {
        i
    } else {
        find_pattern(s, p, i + 1)
    }
}

/// What stands between the first and the second `p`, or behind the only one;
/// nothing where there is none.
pub open spec fn second_piece(s: Seq<char>, p: Seq<char>) -> Seq<char> {
    let a = find_pattern(s, p, 0);
    if a >= s.len() {
        Seq::empty()
    } else {
        s.subrange(a + p.len(), find_pattern(s, p, a + p.len()))
    }
}

fn locate(s: &[char], p: &[char], from: usize) -> (r: usize)
    requires
        from <= s@.len(),
    ensures
        r == find_pattern(s@, p@, from as int),
        from <= r <= s@.len(),
        r < s@.len() ==> stands_at(s@, p@, r as int),
{
    let mut i: usize = from;
    while i < s.len()
        invariant
            from <= i <= s@.len(),
            find_pattern(s@, p@, from as int) == find_pattern(s@, p@, i as int),
        decreases s@.len() - i,
    {
        if has_at(s, i, p) {
            return i;
        }
        i += 1;
    }
    i
}

/// What stands between the first and the second `p`, or behind the only one;
/// nothing where there is none.
pub fn piece_behind(s: &[char], p: &str) -> (v: Vec<char>)
    ensures
        v@ == second_piece(s@, p@),
{
    let q = chars_of(p);
    let a: usize = locate(s, q.as_slice(), 0);
    if a >= s.len() {
        let v: Vec<char> = Vec::new();
        assert(v@ =~= Seq::empty());
        return v;
    }
    assert(s@.len() == s.len());
    let from: usize = a + q.len();
    let b: usize = locate(s, q.as_slice(), from);
    part(s, from, b)
}

/// The last word, where there is one.
pub open spec fn last_word(s: Seq<char>) -> Option<Seq<char>> {
    if words(s).len() > 0 {
        Some(words(s).last())
    } else {
        None
    }
}

/// The last word, where there is one.
pub fn find_last_word(s: &[char]) -> (r: Option<Vec<char>>)
    ensures
        r is Some <==> last_word(s@) is Some,
        r matches Some(w) ==> last_word(s@) == Some(w@),
{
    let mut w = split_words(s);
    let ghost ws = words(s@);
    assert(ws.len() == w@.len());
    if w.len() == 0 {
        return None;
    }
    assert(ws.last() == w@[w@.len() - 1]@);
    w.pop()
}

/// `s` with each `c` doubled.
pub open spec fn doubled(s: Seq<char>, c: char) -> Seq<char>
    decreases s.len(),
{
    if s.len() == 0 {
        s
    } else if s.last() == c {
        doubled(s.drop_last(), c).push(c).push(c)
    } else {
        doubled(s.drop_last(), c).push(s.last())
    }
}

/// `s` with each `c` doubled.
pub fn double_char(s: &str, c: char) -> (r: String)
    ensures
        r@ == doubled(s@, c),
{
    let q = chars_of(s);
    let mut r = String::new();
    let mut i: usize = 0;
    assert(r@ =~= doubled(q@.take(0), c));
    while i < q.len()
        invariant
            i <= q@.len(),
            q@ == s@,
            r@ == doubled(q@.take(i as int), c),
        decreases q@.len() - i,
    {
        assert(q@.take(i + 1).drop_last() =~= q@.take(i as int));
        r.push(q[i]);
        if q[i] == c {
            r.push(c);
        }
        i += 1;
    }
    assert(q@.take(i as int) =~= q@);
    r
}

/// All characters are digits.
pub open spec fn all_digits(s: Seq<char>) -> bool {
    forall|i: int| 0 <= i < s.len() ==> '0' <= #[trigger] s[i] <= '9'
}

/// Whether all characters are digits.
pub fn only_digits(s: &[char]) -> (r: bool)
    ensures
        r == all_digits(s@),
{
    let mut i: usize = 0;
    while i < s.len()
        invariant
            i <= s@.len(),
            forall|k: int| 0 <= k < i ==> '0' <= #[trigger] s@[k] <= '9',
        decreases s@.len() - i,
    {
        if !('0' <= s[i] && s[i] <= '9') {
            return false;
        }
        i += 1;
    }
    true
}

/// The first and the third of three pieces that two `c` part; the third runs
/// to the end. `None` where fewer than two `c` stand in `s`.
pub open spec fn outer_pieces(s: Seq<char>, c: char) -> Option<(Seq<char>, Seq<char>)> {
    let a = next(s, c, 0);
    let b = next(s, c, a + 1);
    if a >= s.len() || b >= s.len() {
        None
    } else {
        Some((s.take(a), s.skip(b + 1)))
    }
}

/// The first and the third of three pieces that two `c` part.
pub fn split_outer(s: &[char], c: char) -> (r: Option<(Vec<char>, Vec<char>)>)
    ensures
        r is Some <==> outer_pieces(s@, c) is Some,
        r matches Some(p) ==> outer_pieces(s@, c) == Some((p.0@, p.1@)),
{
    let a: usize = find_from(s, c, 0);
    if a >= s.len() {
        return None;
    }
    let b: usize = find_from(s, c, a + 1);
    if b >= s.len() {
        return None;
    }
    let first = part(s, 0, a);
    let last = part(s, b + 1, s.len());
    assert(first@ =~= s@.take(a as int));
    assert(last@ =~= s@.skip(b + 1));
    Some((first, last))
}

// ── Numbers ──────────────────────────────────────────────────────────────────

/// The value of `c` as a digit in the given base, which is 10 or 16.
pub open spec fn digit_value(c: char, base: nat) -> Option<nat> {
    let n = c as int;
    if 0x30 <= n <= 0x39 {
        Some((n - 0x30) as nat)
    } else if base == 16 && 0x41 <= n <= 0x46 {
        Some((n - 0x41 + 10) as nat)
    } else if base == 16 && 0x61 <= n <= 0x66 {
        Some((n - 0x61 + 10) as nat)
    } else {
        None
    }
}

/// The value of a string of digits; none where a character is no digit.
pub open spec fn digits_value(s: Seq<char>, base: nat) -> Option<nat>
    decreases s.len(),
{
    if s.len() == 0 {
        Some(0)
    } else {
        match (digits_value(s.drop_last(), base), digit_value(s.last(), base)) {
            (Some(v), Some(d)) => Some(v * base + d),
            _ => None,
        }
    }
}

/// The value of a non-empty string of digits, where it is at most `max`.
pub open spec fn bounded_digits(s: Seq<char>, base: nat, max: nat) -> Option<nat> {
    match digits_value(s, base) {
        Some(v) if s.len() > 0 && v <= max => Some(v),
        _ => None,
    }
}

/// An unsigned decimal number of at most `max`, with an optional plus sign.
pub open spec fn parse_unsigned(s: Seq<char>, max: nat) -> Option<nat> {
    if s.len() > 0 && s[0] == '+' {
        bounded_digits(s.skip(1), 10, max)
    } else {
        bounded_digits(s, 10, max)
    }
}

/// A signed number of 64 bits in the given base, with an optional sign.
pub open spec fn parse_signed(s: Seq<char>, base: nat) -> Option<int> {
    if s.len() > 0 && s[0] == '-' {
        match bounded_digits(s.skip(1), base, 0x8000_0000_0000_0000) {
            Some(v) => Some(-v),
            None => None,
        }
    } else if s.len() > 0 && s[0] == '+' {
        match bounded_digits(s.skip(1), base, 0x7fff_ffff_ffff_ffff) {
            Some(v) => Some(v as int),
            None => None,
        }
    } else {
        match bounded_digits(s, base, 0x7fff_ffff_ffff_ffff) {
            Some(v) => Some(v as int),
            None => None,
        }
    }
}

fn digit_of(c: char, base: u64) -> (r: Option<u64>)
    requires
        base == 10 || base == 16,
    ensures
        r is Some <==> digit_value(c, base as nat) is Some,
        r matches Some(d) ==> digit_value(c, base as nat) == Some(d as nat) && d < 16,
{
    let n: u32 = c as u32;
    if 0x30 <= n && n <= 0x39 {
        Some((n - 0x30) as u64)
    } else if base == 16 && 0x41 <= n && n <= 0x46 {
        Some((n - 0x41 + 10) as u64)
    } else if base == 16 && 0x61 <= n && n <= 0x66 {
        Some((n - 0x61 + 10) as u64)
    } else {
        None
    }
}

proof fn lemma_digits_grow(s: Seq<char>, base: nat, k: int)
    requires
        0 <= k <= s.len(),
        base >= 1,
    ensures
        digits_value(s, base) matches Some(v) ==> (digits_value(s.take(k), base) matches Some(w)
            && w <= v),
    decreases s.len(),
{
    if k == s.len() {
        assert(s.take(k) == s);
    } else {
        lemma_digits_grow(s.drop_last(), base, k);
        assert(s.drop_last().take(k) == s.take(k));
        if let Some(v) = digits_value(s, base) {
            let u = digits_value(s.drop_last(), base)->0;
            assert(u <= u * base) by (nonlinear_arith)
                requires
                    base >= 1,
                    u >= 0,
            ;
        }
    }
}

/// Reads a non-empty string of digits whose value is at most `max`.
fn read_digits(s: &[char], from: usize, base: u64, max: u64) -> (r: Option<u64>)
    requires
        base == 10 || base == 16,
        from <= s@.len(),
    ensures
        r is Some <==> bounded_digits(s@.skip(from as int), base as nat, max as nat) is Some,
        r matches Some(v) ==> bounded_digits(s@.skip(from as int), base as nat, max as nat) == Some(
            v as nat,
        ),
{
    let ghost t = s@.skip(from as int);
    if from >= s.len() {
        return None;
    }
    let mut v: u64 = 0;
    let mut i: usize = from;
    assert(t.take(0) == Seq::<char>::empty());
    while i < s.len()
        invariant
            base == 10 || base == 16,
            from <= i <= s@.len(),
            t == s@.skip(from as int),
            digits_value(t.take(i - from), base as nat) == Some(v as nat),
            v <= max,
        decreases s@.len() - i,
    {
        let ghost u = t.take(i - from + 1);
        proof {
            assert(u.drop_last() == t.take(i - from));
            assert(u.last() == s@[i as int]);
            lemma_digits_grow(t, base as nat, i - from + 1);
        }
        let d = match digit_of(s[i], base) {
            Some(d) => d,
            None => {
                return None;
            },
        };
        let w: u128 = v as u128 * base as u128 + d as u128;
        if w > max as u128 {
            return None;
        }
        v = w as u64;
        i += 1;
    }
    assert(t.take(t.len() as int) == t);
    Some(v)
}

/// Reads an unsigned decimal number of at most `max`.
pub fn read_unsigned(s: &[char], max: u64) -> (r: Option<u64>)
    ensures
        r is Some <==> parse_unsigned(s@, max as nat) is Some,
        r matches Some(v) ==> parse_unsigned(s@, max as nat) == Some(v as nat),
{
    if s.len() > 0 && s[0] == '+' {
        read_digits(s, 1, 10, max)
    } else {
        assert(s@.skip(0) == s@);
        read_digits(s, 0, 10, max)
    }
}

/// Reads a number of 32 bits.
pub fn read_u32(s: &[char]) -> (r: Option<u32>)
    ensures
        r is Some <==> parse_unsigned(s@, u32::MAX as nat) is Some,
        r matches Some(v) ==> parse_unsigned(s@, u32::MAX as nat) == Some(v as nat),
{
    match read_unsigned(s, u32::MAX as u64) {
        Some(v) => Some(v as u32),
        None => None,
    }
}

/// Reads a number of 64 bits.
pub fn read_u64(s: &[char]) -> (r: Option<u64>)
    ensures
        r is Some <==> parse_unsigned(s@, u64::MAX as nat) is Some,
        r matches Some(v) ==> parse_unsigned(s@, u64::MAX as nat) == Some(v as nat),
{
    read_unsigned(s, u64::MAX)
}

/// Reads a signed number of 64 bits in base 10 or 16.
pub fn read_i64(s: &[char], base: u64) -> (r: Option<i64>)
    requires
        base == 10 || base == 16,
    ensures
        r is Some <==> parse_signed(s@, base as nat) is Some,
        r matches Some(v) ==> parse_signed(s@, base as nat) == Some(v as int),
{
    if s.len() > 0 && s[0] == '-' {
        match read_digits(s, 1, base, 0x8000_0000_0000_0000) {
            Some(v) => if v == 0x8000_0000_0000_0000 {
                Some(i64::MIN)
            } else {
                Some(-(v as i64))
            },
            None => None,
        }
    } else if s.len() > 0 && s[0] == '+' {
        match read_digits(s, 1, base, 0x7fff_ffff_ffff_ffff) {
            Some(v) => Some(v as i64),
            None => None,
        }
    } else {
        assert(s@.skip(0) == s@);
        match read_digits(s, 0, base, 0x7fff_ffff_ffff_ffff) {
            Some(v) => Some(v as i64),
            None => None,
        }
    }
}

/// The character of a digit below 16, in upper case.
pub open spec fn digit_char(d: int) -> char {
    if d < 10 {
        (0x30 + d) as char
    } else {
        (0x37 + d) as char
    }
}

fn char_of_digit(d: u8) -> (c: char)
    requires
        d < 16,
    ensures
        c == digit_char(d as int),
{
    if d < 10 {
        (0x30 + d) as char
    } else {
        (0x37 + d) as char
    }
}

/// The decimal digits of `n`.
pub open spec fn decimal(n: nat) -> Seq<char>
    decreases n,
{
    if n < 10 {
        seq![digit_char(n as int)]
    } else {
        decimal(n / 10).push(digit_char((n % 10) as int))
    }
}

/// The decimal digits of `n`, with a zero before a single one.
pub open spec fn decimal2(n: nat) -> Seq<char> {
    if n < 10 {
        seq!['0'] + decimal(n)
    } else {
        decimal(n)
    }
}

/// The lowest `k` hexadecimal digits of `n`, in upper case.
pub open spec fn hex_digits(n: nat, k: nat) -> Seq<char>
    decreases k,
{
    if k == 0 {
        Seq::empty()
    } else {
        hex_digits(n / 16, (k - 1) as nat).push(digit_char((n % 16) as int))
    }
}

/// Appends the decimal digits of `n`.
pub fn push_decimal(s: &mut String, n: u64)
    ensures
        final(s)@ == old(s)@ + decimal(n as nat),
    decreases n,
{
    if n < 10 {
        s.push(char_of_digit(n as u8));
        assert(s@ == old(s)@ + decimal(n as nat));
    } else {
        push_decimal(s, n / 10);
        s.push(char_of_digit((n % 10) as u8));
        assert(s@ == old(s)@ + decimal(n as nat));
    }
}

/// Appends the decimal digits of `n`, two at least.
pub fn push_decimal2(s: &mut String, n: u64)
    ensures
        final(s)@ == old(s)@ + decimal2(n as nat),
{
    if n < 10 {
        s.push('0');
        push_decimal(s, n);
        assert(s@ == old(s)@ + decimal2(n as nat));
    } else {
        push_decimal(s, n);
    }
}

/// Appends the lowest `k` hexadecimal digits of `n`.
pub fn push_hex(s: &mut String, n: u32, k: u32)
    ensures
        final(s)@ == old(s)@ + hex_digits(n as nat, k as nat),
    decreases k,
{
    if k == 0 {
        assert(s@ == old(s)@ + hex_digits(n as nat, k as nat));
    } else {
        push_hex(s, n / 16, k - 1);
        s.push(char_of_digit((n % 16) as u8));
        assert(s@ == old(s)@ + hex_digits(n as nat, k as nat));
    }
}

// ── Times and quotes ─────────────────────────────────────────────────────────

/// The sector count of a time `mm:ss:ff`, at 75 frames a second.
pub open spec fn msf(s: Seq<char>) -> Option<nat> {
    let p = fields(s, ':');
    if p.len() != 3 {
        None
    } else {
        match (
            parse_unsigned(p[0], u64::MAX as nat),
            parse_unsigned(p[1], u64::MAX as nat),
            parse_unsigned(p[2], u64::MAX as nat),
        ) {
            (Some(m), Some(s2), Some(f)) => Some((m * 60 + s2) * 75 + f),
            _ => None,
        }
    }
}

/// The time in `s` is no sector count beyond 64 bits.
pub open spec fn msf_fits(s: Seq<char>) -> bool {
    msf(s) matches Some(v) ==> v <= u64::MAX
}

/// The three numbers of a time.
fn msf_parts(s: &[char]) -> (r: Option<(u64, u64, u64)>)
    ensures
        r is Some <==> msf(s@) is Some,
        r matches Some(t) ==> msf(s@) == Some(((t.0 * 60 + t.1) * 75 + t.2) as nat),
{
    let p = split_fields(s, ':');
    assert(views(p@).len() == p@.len());
    if p.len() != 3 {
        return None;
    }
    assert(views(p@)[0] == p@[0]@ && views(p@)[1] == p@[1]@ && views(p@)[2] == p@[2]@);
    match (read_u64(p[0].as_slice()), read_u64(p[1].as_slice()), read_u64(p[2].as_slice())) {
        (Some(m), Some(s2), Some(f)) => Some((m, s2, f)),
        _ => None,
    }
}

/// Whether the sector count of the time in `s` fits in 64 bits.
pub fn time_fits(s: &[char]) -> (r: bool)
    ensures
        r == msf_fits(s@),
{
    match msf_parts(s) {
        Some((m, s2, f)) => (m as u128 * 60 + s2 as u128) * 75 + f as u128 <= u64::MAX as u128,
        None => true,
    }
}

/// The sector count of the time in `s`.
pub fn read_time(s: &[char]) -> (r: Option<u64>)
    requires
        msf_fits(s@),
    ensures
        r is Some <==> msf(s@) is Some,
        r matches Some(v) ==> msf(s@) == Some(v as nat),
{
    match msf_parts(s) {
        Some((m, s2, f)) => Some((m * 60 + s2) * 75 + f),
        None => None,
    }
}

/// Converts a time `mm:ss:ff` to a sector count; `None` where the text is no
/// such time.
pub fn msf_to_sectors(s: &str) -> (r: Option<u64>)
    requires
        msf_fits(s@),
    ensures
        r is Some <==> msf(s@) is Some,
        r matches Some(v) ==> msf(s@) == Some(v as nat),
{
    let c = chars_of(s);
    read_time(c.as_slice())
}

/// What stands between the first two double quotes.
pub open spec fn quoted(s: Seq<char>) -> Option<Seq<char>> {
    let a = next(s, '"', 0);
    if a >= s.len() {
        None
    } else {
        let b = next(s, '"', a + 1);
        if b >= s.len() {
            None
        } else {
            Some(s.subrange(a + 1, b))
        }
    }
}

/// Returns what stands between the first two double quotes of a line.
pub fn extract_quoted(line: &str) -> (r: Option<&str>)
    ensures
        r is Some <==> quoted(line@) is Some,
        r matches Some(q) ==> quoted(line@) == Some(q@),
{
    let c = chars_of(line);
    let a = find_from(c.as_slice(), '"', 0);
    if a >= c.len() {
        return None;
    }
    let b = find_from(c.as_slice(), '"', a + 1);
    if b >= c.len() {
        return None;
    }
    Some(line.substring_char(a + 1, b))
}

// ── Letter case ──────────────────────────────────────────────────────────────

/// All characters are ASCII.
pub open spec fn is_ascii_text(s: Seq<char>) -> bool {
    forall|i: int| 0 <= i < s.len() ==> (#[trigger] s[i] as int) < 128
}

/// The capital of an ASCII letter; any other character as it is.
pub open spec fn ascii_capital(c: char) -> char {
    if 0x61 <= c as int <= 0x7a {
        (c as int - 0x20) as char
    } else {
        c
    }
}

/// The small form of an ASCII letter; any other character as it is.
pub open spec fn ascii_small(c: char) -> char {
    if 0x41 <= c as int <= 0x5a {
        (c as int + 0x20) as char
    } else {
        c
    }
}

/// `s` with its ASCII letters in upper case.
pub open spec fn ascii_upper(s: Seq<char>) -> Seq<char> {
    s.map_values(|c: char| ascii_capital(c))
}

/// `s` with its ASCII letters in lower case.
pub open spec fn ascii_lower(s: Seq<char>) -> Seq<char> {
    s.map_values(|c: char| ascii_small(c))
}

/// The upper-case mapping of Unicode, as `str::to_uppercase` computes it.
pub uninterp spec fn unicode_upper(s: Seq<char>) -> Seq<char>;

/// The lower-case mapping of Unicode, as `str::to_lowercase` computes it.
pub uninterp spec fn unicode_lower(s: Seq<char>) -> Seq<char>;

/// `str::to_uppercase`: the result depends on the text alone, and on ASCII
/// text it changes the letters `a` to `z` and nothing else. What it does to
/// other characters is not said.
pub assume_specification[ str::to_uppercase ](s: &str) -> (r: String)
    ensures
        r@ == unicode_upper(s@),
        is_ascii_text(s@) ==> r@ == ascii_upper(s@),
;

/// `str::to_lowercase`: the result depends on the text alone, and on ASCII
/// text it changes the letters `A` to `Z` and nothing else. What it does to
/// other characters is not said.
pub assume_specification[ str::to_lowercase ](s: &str) -> (r: String)
    ensures
        r@ == unicode_lower(s@),
        is_ascii_text(s@) ==> r@ == ascii_lower(s@),
;

/// `s` with its ASCII letters in lower case.
pub fn lower_ascii(s: &[char]) -> (v: Vec<char>)
    ensures
        v@ == ascii_lower(s@),
{
    let mut v: Vec<char> = Vec::new();
    for i in 0..s.len()
        invariant
            v@ == ascii_lower(s@).take(i as int),
    {
        let n: u32 = s[i] as u32;
        let c: char = if 0x41 <= n && n <= 0x5a {
            (n as u8 + 0x20) as char
        } else {
            s[i]
        };
        v.push(c);
        assert(ascii_lower(s@).take(i + 1) == ascii_lower(s@).take(i as int).push(
            ascii_lower(s@)[i as int],
        ));
    }
    assert(ascii_lower(s@).take(s@.len() as int) == ascii_lower(s@));
    v
}

} // verus!
