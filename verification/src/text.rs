//! Character-sequence helpers used by the policy parser and the text
//! renderers: whitespace, trimming, line splitting, number parsing and
//! decimal formatting.

use vstd::prelude::*;

verus! {

/// Appending one character to a `String`.
pub assume_specification[ String::push ](s: &mut String, ch: char)
    ensures
        final(s)@ == old(s)@.push(ch),
;

/// Unicode `White_Space`, as `char::is_whitespace` defines it.
pub open spec fn is_ws(c: char) -> bool {
    ||| c == ' '
    ||| ('\t' <= c && c <= '\r')
    ||| c == '\u{85}'
    ||| c == '\u{A0}'
    ||| c == '\u{1680}'
    ||| ('\u{2000}' <= c && c <= '\u{200A}')
    ||| c == '\u{2028}'
    ||| c == '\u{2029}'
    ||| c == '\u{202F}'
    ||| c == '\u{205F}'
    ||| c == '\u{3000}'
}

pub fn char_is_ws(c: char) -> (r: bool)
    ensures
        r == is_ws(c),
{
    c == ' ' || ('\t' <= c && c <= '\r') || c == '\u{85}' || c == '\u{A0}' || c == '\u{1680}'
        || ('\u{2000}' <= c && c <= '\u{200A}') || c == '\u{2028}' || c == '\u{2029}' || c
        == '\u{202F}' || c == '\u{205F}' || c == '\u{3000}'
}

// ---------------------------------------------------------------------------
// Conversions between `str`/`String` and character vectors
// ---------------------------------------------------------------------------

/// The characters of a `str`.
pub fn str_chars(s: &str) -> (r: Vec<char>)
    ensures
        r@ == s@,
{
    let mut out: Vec<char> = Vec::new();
    for c in it: s.chars()
        invariant
            out@ == it.seq().take(it.index() as int),
    {
        out.push(c);
    }
    out
}

/// Appends characters to a `String`.
pub fn push_chars(out: &mut String, s: &[char])
    ensures
        final(out)@ == old(out)@ + s@,
{
    let ghost start = out@;
    let mut i: usize = 0;
    while i < s.len()
        invariant
            i <= s@.len(),
            out@ == start + s@.take(i as int),
        decreases s@.len() - i,
    {
        out.push(s[i]);
        i += 1;
        proof {
            assert(s@.take(i as int) == s@.take(i - 1 as int).push(s@[i - 1]));
        }
    }
    proof {
        assert(s@.take(s@.len() as int) == s@);
    }
}

/// Appends the characters of a `str` to a `String`.
pub fn push_str(out: &mut String, s: &str)
    ensures
        final(out)@ == old(out)@ + s@,
{
    let v = str_chars(s);
    push_chars(out, v.as_slice());
}

/// A `String` holding the given characters.
pub fn string_of(s: &[char]) -> (r: String)
    ensures
        r@ == s@,
{
    let mut out = String::new();
    push_chars(&mut out, s);
    proof {
        assert(Seq::<char>::empty() + s@ == s@);
    }
    out
}

/// A `String` holding the characters of a literal.
pub fn string_from(s: &str) -> (r: String)
    ensures
        r@ == s@,
{
    let v = str_chars(s);
    string_of(v.as_slice())
}

/// A copy of `s[from..to]`.
pub fn copy_range(s: &[char], from: usize, to: usize) -> (r: Vec<char>)
    requires
        from <= to <= s@.len(),
    ensures
        r@ == s@.subrange(from as int, to as int),
{
    let mut out: Vec<char> = Vec::new();
    let mut i = from;
    while i < to
        invariant
            from <= i <= to <= s@.len(),
            out@ == s@.subrange(from as int, i as int),
        decreases to - i,
    {
        out.push(s[i]);
        i += 1;
        proof {
            assert(s@.subrange(from as int, i as int) == s@.subrange(from as int, i - 1 as int).push(
                s@[i - 1],
            ));
        }
    }
    out
}

/// Equality of two character slices.
pub fn chars_eq(a: &[char], b: &[char]) -> (r: bool)
    ensures
        r == (a@ == b@),
{
    if a.len() != b.len() {
        return false;
    }
    let mut i: usize = 0;
    while i < a.len()
        invariant
            a@.len() == b@.len(),
            i <= a@.len(),
            forall|j: int| 0 <= j < i ==> a@[j] == b@[j],
        decreases a@.len() - i,
    {
        if a[i] != b[i] {
            return false;
        }
        i += 1;
    }
    proof {
        assert(a@ =~= b@);
    }
    true
}

/// Whether the characters of `a` spell the literal `b`.
pub fn chars_eq_str(a: &[char], b: &str) -> (r: bool)
    ensures
        r == (a@ == b@),
{
    let v = str_chars(b);
    chars_eq(a, v.as_slice())
}

// ---------------------------------------------------------------------------
// Prefixes, suffixes, searching
// ---------------------------------------------------------------------------

pub open spec fn starts_with(s: Seq<char>, p: Seq<char>) -> bool {
    p.len() <= s.len() && s.take(p.len() as int) == p
}

pub open spec fn ends_with(s: Seq<char>, p: Seq<char>) -> bool {
    p.len() <= s.len() && s.skip(s.len() - p.len()) == p
}

pub open spec fn strip_prefix(s: Seq<char>, p: Seq<char>) -> Option<Seq<char>> {
    if starts_with(s, p) {
        Some(s.skip(p.len() as int))
    } else {
        None
    }
}

pub open spec fn strip_suffix(s: Seq<char>, p: Seq<char>) -> Option<Seq<char>> {
    if ends_with(s, p) {
        Some(s.take(s.len() - p.len()))
    } else {
        None
    }
}

pub fn has_prefix(s: &[char], p: &str) -> (r: bool)
    ensures
        r == starts_with(s@, p@),
{
    let pv = str_chars(p);
    has_prefix_chars(s, pv.as_slice())
}

pub fn has_prefix_chars(s: &[char], pv: &[char]) -> (r: bool)
    ensures
        r == starts_with(s@, pv@),
{
    if pv.len() > s.len() {
        return false;
    }
    let mut i: usize = 0;
    while i < pv.len()
        invariant
            pv@.len() <= s@.len(),
            i <= pv@.len(),
            forall|j: int| 0 <= j < i ==> s@[j] == pv@[j],
        decreases pv@.len() - i,
    {
        if s[i] != pv[i] {
            proof {
                assert(s@.take(pv@.len() as int)[i as int] != pv@[i as int]);
            }
            return false;
        }
        i += 1;
    }
    proof {
        assert(s@.take(pv@.len() as int) =~= pv@);
    }
    true
}

pub fn has_suffix(s: &[char], p: &str) -> (r: bool)
    ensures
        r == ends_with(s@, p@),
{
    let pv = str_chars(p);
    has_suffix_chars(s, pv.as_slice())
}

pub fn has_suffix_chars(s: &[char], pv: &[char]) -> (r: bool)
    ensures
        r == ends_with(s@, pv@),
{
    if pv.len() > s.len() {
        return false;
    }
    let off = s.len() - pv.len();
    let mut i: usize = 0;
    while i < pv.len()
        invariant
            pv@.len() <= s@.len(),
            off + pv@.len() == s@.len(),
            i <= pv@.len(),
            forall|j: int| 0 <= j < i ==> s@[off + j] == pv@[j],
        decreases pv@.len() - i,
    {
        let k: usize = s.len() - (pv.len() - i);
        if s[k] != pv[i] {
            proof {
                assert(s@.skip(off as int)[i as int] != pv@[i as int]);
            }
            return false;
        }
        i += 1;
    }
    proof {
        assert(s@.skip(off as int) =~= pv@);
    }
    true
}

/// `s` without the prefix `p`, when `s` starts with it.
pub fn strip_prefix_chars(s: &[char], p: &str) -> (r: Option<Vec<char>>)
    ensures
        r matches Some(v) ==> strip_prefix(s@, p@) == Some(v@),
        r is None ==> strip_prefix(s@, p@) is None,
{
    if has_prefix(s, p) {
        let pv = str_chars(p);
        Some(copy_range(s, pv.len(), s.len()))
    } else {
        None
    }
}

/// `s` without the suffix `p`, when `s` ends with it.
pub fn strip_suffix_chars(s: &[char], p: &str) -> (r: Option<Vec<char>>)
    ensures
        r matches Some(v) ==> strip_suffix(s@, p@) == Some(v@),
        r is None ==> strip_suffix(s@, p@) is None,
{
    if has_suffix(s, p) {
        let pv = str_chars(p);
        Some(copy_range(s, 0, s.len() - pv.len()))
    } else {
        None
    }
}

/// Index of the first `c` at or after `i`, or the length when there is none.
pub open spec fn find_from(s: Seq<char>, c: char, i: int) -> int
    decreases s.len() - i,
{
    if i < 0 || i >= s.len() {
        s.len() as int
    } else if s[i] == c {
        i
    } else {
        find_from(s, c, i + 1)
    }
}

pub proof fn lemma_find_from_bounds(s: Seq<char>, c: char, i: int)
    requires
        0 <= i <= s.len(),
    ensures
        i <= find_from(s, c, i) <= s.len(),
        find_from(s, c, i) < s.len() ==> s[find_from(s, c, i)] == c,
        forall|j: int| i <= j < find_from(s, c, i) ==> s[j] != c,
    decreases s.len() - i,
{
    if i < s.len() && s[i] != c {
        lemma_find_from_bounds(s, c, i + 1);
    }
}

/// Characterises `find_from` by its defining property.
pub proof fn lemma_find_from_is(s: Seq<char>, c: char, i: int, k: int)
    requires
        0 <= i <= k <= s.len(),
        forall|j: int| i <= j < k ==> s[j] != c,
        k < s.len() ==> s[k] == c,
    ensures
        find_from(s, c, i) == k,
    decreases k - i,
{
    if i < k {
        lemma_find_from_is(s, c, i + 1, k);
    }
}

/// Index of the first `c` at or after `from`, or the length.
pub fn find_char(s: &[char], c: char, from: usize) -> (r: usize)
    requires
        from <= s@.len(),
    ensures
        r == find_from(s@, c, from as int),
        from <= r <= s@.len(),
{
    let mut i = from;
    while i < s.len() && s[i] != c
        invariant
            from <= i <= s@.len(),
            forall|j: int| from <= j < i ==> s@[j] != c,
        decreases s@.len() - i,
    {
        i += 1;
    }
    proof {
        lemma_find_from_is(s@, c, from as int, i as int);
    }
    i
}

pub fn contains_char(s: &[char], c: char) -> (r: bool)
    ensures
        r == s@.contains(c),
{
    let k = find_char(s, c, 0);
    proof {
        lemma_find_from_bounds(s@, c, 0);
        if k < s@.len() {
            assert(s@[k as int] == c);
        } else if s@.contains(c) {
            let j = choose|j: int| 0 <= j < s@.len() && s@[j] == c;
            assert(s@[j] != c);
        }
    }
    k < s.len()
}

// ---------------------------------------------------------------------------
// Trimming
// ---------------------------------------------------------------------------

/// End of the run of whitespace that starts at `i`.
pub open spec fn ws_run(s: Seq<char>, i: int) -> int
    decreases s.len() - i,
{
    if 0 <= i < s.len() && is_ws(s[i]) {
        ws_run(s, i + 1)
    } else {
        i
    }
}

/// Start of the run of whitespace that ends just before `j`.
pub open spec fn ws_run_back(s: Seq<char>, j: int) -> int
    decreases j,
{
    if 0 < j <= s.len() && is_ws(s[j - 1]) {
        ws_run_back(s, j - 1)
    } else {
        j
    }
}

pub open spec fn trim_start(s: Seq<char>) -> Seq<char> {
    s.skip(ws_run(s, 0))
}

pub open spec fn trim_end(s: Seq<char>) -> Seq<char> {
    s.take(ws_run_back(s, s.len() as int))
}

/// `str::trim`: leading and trailing whitespace removed.
pub open spec fn trim(s: Seq<char>) -> Seq<char> {
    trim_end(trim_start(s))
}

pub proof fn lemma_ws_run_bounds(s: Seq<char>, i: int)
    requires
        0 <= i <= s.len(),
    ensures
        i <= ws_run(s, i) <= s.len(),
        ws_run(s, i) < s.len() ==> !is_ws(s[ws_run(s, i)]),
    decreases s.len() - i,
{
    if i < s.len() && is_ws(s[i]) {
        lemma_ws_run_bounds(s, i + 1);
    }
}

pub proof fn lemma_ws_run_back_bounds(s: Seq<char>, j: int)
    requires
        0 <= j <= s.len(),
    ensures
        0 <= ws_run_back(s, j) <= j,
    decreases j,
{
    if 0 < j && is_ws(s[j - 1]) {
        lemma_ws_run_back_bounds(s, j - 1);
    }
}

/// A whitespace run read backwards from `j` stops at or after a
/// non-whitespace character at `m - 1`.
proof fn lemma_ws_run_back_stops(s: Seq<char>, j: int, m: int)
    requires
        0 < m <= j <= s.len(),
        !is_ws(s[m - 1]),
    ensures
        m <= ws_run_back(s, j),
    decreases j,
{
    if j > m {
        if is_ws(s[j - 1]) {
            lemma_ws_run_back_stops(s, j - 1, m);
        }
    }
}

/// A trimmed text is empty or starts with a character that is not
/// whitespace.
pub proof fn lemma_trim_starts_solid(s: Seq<char>)
    ensures
        trim(s).len() > 0 ==> !is_ws(trim(s)[0]),
{
    lemma_ws_run_bounds(s, 0);
    let t = trim_start(s);
    lemma_ws_run_back_bounds(t, t.len() as int);
    if trim(s).len() > 0 {
        assert(trim(s)[0] == t[0]);
        assert(t[0] == s[ws_run(s, 0)]);
    }
}

/// Of a text that is empty or starts with a non-whitespace character, a
/// prefix without whitespace that ends in a non-whitespace character
/// begins the text exactly when it begins its first trimmed line; an
/// empty text has no lines.
pub proof fn lemma_first_line_prefix(t: Seq<char>, p: Seq<char>)
    requires
        t.len() > 0 ==> !is_ws(t[0]),
        p.len() > 0,
        forall|i: int| 0 <= i < p.len() ==> !is_ws(#[trigger] p[i]),
    ensures
        (trimmed_lines(t).len() == 0) == (t.len() == 0),
        t.len() > 0 ==> (starts_with(t, p) == starts_with(trimmed_lines(t)[0], p)),
{
    if t.len() > 0 {
        let k = find_from(t, '\n', 0);
        lemma_find_from_bounds(t, '\n', 0);
        assert(k > 0) by {
            if k == 0 {
                assert(t[0] == '\n');
                assert(is_ws(t[0]));
            }
        }
        let line = t.subrange(0, k);
        assert(lines_from(t, 0)[0] == line);
        assert(trimmed_lines(t)[0] == trim(line));
        lemma_ws_run_bounds(line, 0);
        assert(ws_run(line, 0) == 0);
        assert(trim_start(line) =~= line);
        lemma_ws_run_back_bounds(line, k);
        let e = ws_run_back(line, k);
        assert(trim(line) == line.take(e));
        if starts_with(t, p) {
            assert forall|i: int| 0 <= i < p.len() implies t[i] != '\n' by {
                assert(t.take(p.len() as int)[i] == p[i]);
                assert(!is_ws(p[i]));
            }
            if k < p.len() {
                assert(t[k] == '\n');
            }
            assert(!is_ws(line[p.len() - 1])) by {
                assert(t.take(p.len() as int)[p.len() - 1] == p[p.len() - 1]);
            }
            lemma_ws_run_back_stops(line, k, p.len() as int);
            assert(line.take(e).take(p.len() as int) =~= t.take(p.len() as int));
        }
        if starts_with(trim(line), p) {
            assert(line.take(e).take(p.len() as int) =~= t.take(p.len() as int));
        }
    } else {
        assert(lines_from(t, 0) =~= Seq::<Seq<char>>::empty());
    }
}

pub fn trim_start_chars(s: &[char]) -> (r: Vec<char>)
    ensures
        r@ == trim_start(s@),
{
    let mut i: usize = 0;
    while i < s.len() && char_is_ws(s[i])
        invariant
            i <= s@.len(),
            ws_run(s@, i as int) == ws_run(s@, 0),
        decreases s@.len() - i,
    {
        i += 1;
    }
    copy_range(s, i, s.len())
}

pub fn trim_end_chars(s: &[char]) -> (r: Vec<char>)
    ensures
        r@ == trim_end(s@),
{
    let mut j: usize = s.len();
    while j > 0 && char_is_ws(s[j - 1])
        invariant
            j <= s@.len(),
            ws_run_back(s@, j as int) == ws_run_back(s@, s@.len() as int),
        decreases j,
    {
        j -= 1;
    }
    copy_range(s, 0, j)
}

pub fn trim_chars(s: &[char]) -> (r: Vec<char>)
    ensures
        r@ == trim(s@),
{
    let t = trim_start_chars(s);
    trim_end_chars(t.as_slice())
}

/// `s` with every leading `c` removed.
pub open spec fn trim_start_matches(s: Seq<char>, c: char) -> Seq<char>
    decreases s.len(),
{
    if s.len() > 0 && s[0] == c {
        trim_start_matches(s.drop_first(), c)
    } else {
        s
    }
}

/// `s` with every trailing `c` removed.
pub open spec fn trim_end_matches(s: Seq<char>, c: char) -> Seq<char>
    decreases s.len(),
{
    if s.len() > 0 && s.last() == c {
        trim_end_matches(s.drop_last(), c)
    } else {
        s
    }
}

/// `s` with every leading and trailing `c` removed.
pub open spec fn trim_matches(s: Seq<char>, c: char) -> Seq<char> {
    trim_end_matches(trim_start_matches(s, c), c)
}

pub fn trim_start_matches_chars(s: &[char], c: char) -> (r: Vec<char>)
    ensures
        r@ == trim_start_matches(s@, c),
{
    let mut i: usize = 0;
    proof {
        assert(s@.skip(0) =~= s@);
    }
    while i < s.len() && s[i] == c
        invariant
            i <= s@.len(),
            trim_start_matches(s@.skip(i as int), c) == trim_start_matches(s@, c),
        decreases s@.len() - i,
    {
        proof {
            assert(s@.skip(i as int).drop_first() =~= s@.skip(i + 1));
        }
        i += 1;
    }
    proof {
        assert(s@.skip(i as int) == s@.subrange(i as int, s@.len() as int));
    }
    copy_range(s, i, s.len())
}

pub fn trim_end_matches_chars(s: &[char], c: char) -> (r: Vec<char>)
    ensures
        r@ == trim_end_matches(s@, c),
{
    let mut j: usize = s.len();
    proof {
        assert(s@.take(s@.len() as int) =~= s@);
    }
    while j > 0 && s[j - 1] == c
        invariant
            j <= s@.len(),
            trim_end_matches(s@.take(j as int), c) == trim_end_matches(s@, c),
        decreases j,
    {
        proof {
            assert(s@.take(j as int).drop_last() =~= s@.take(j - 1));
            assert(s@.take(j as int).last() == s@[j - 1]);
        }
        j -= 1;
    }
    proof {
        assert(s@.take(j as int) == s@.subrange(0, j as int));
        assert(s@.take(s@.len() as int) =~= s@);
    }
    copy_range(s, 0, j)
}

pub fn trim_matches_chars(s: &[char], c: char) -> (r: Vec<char>)
    ensures
        r@ == trim_matches(s@, c),
{
    let t = trim_start_matches_chars(s, c);
    trim_end_matches_chars(t.as_slice(), c)
}


// ---------------------------------------------------------------------------
// Lines and words
// ---------------------------------------------------------------------------

/// The character sequences held by a vector of character vectors.
pub open spec fn seqs_of(v: Seq<Vec<char>>) -> Seq<Seq<char>> {
    v.map_values(|x: Vec<char>| x@)
}

/// The lines of `s` from position `i` on, split at `'\n'`; a final line
/// ending adds no empty line (as `str::lines`, before trimming).
pub open spec fn lines_from(s: Seq<char>, i: int) -> Seq<Seq<char>>
    decreases s.len() - i,
{
    if i < 0 || i >= s.len() {
        seq![]
    } else {
        let k = find_from(s, '\n', i);
        if k >= s.len() {
            seq![s.subrange(i, s.len() as int)]
        } else {
            proof {
                lemma_find_from_bounds(s, '\n', i);
            }
            seq![s.subrange(i, k)] + lines_from(s, k + 1)
        }
    }
}

/// Every line of `s`, each trimmed of surrounding whitespace.
pub open spec fn trimmed_lines(s: Seq<char>) -> Seq<Seq<char>> {
    lines_from(s, 0).map_values(|l: Seq<char>| trim(l))
}

pub fn split_trimmed_lines(s: &[char]) -> (r: Vec<Vec<char>>)
    ensures
        seqs_of(r@) == trimmed_lines(s@),
{
    let mut out: Vec<Vec<char>> = Vec::new();
    let mut i: usize = 0;
    let ghost whole = lines_from(s@, 0).map_values(|l: Seq<char>| trim(l));
    while i < s.len()
        invariant
            i <= s@.len(),
            whole == lines_from(s@, 0).map_values(|l: Seq<char>| trim(l)),
            seqs_of(out@) + lines_from(s@, i as int).map_values(|l: Seq<char>| trim(l)) == whole,
        decreases s@.len() - i,
    {
        let k = find_char(s, '\n', i);
        let line = copy_range(s, i, k);
        let t = trim_chars(line.as_slice());
        let ghost before = seqs_of(out@);
        let ghost rest = lines_from(s@, i as int);
        proof {
            lemma_find_from_bounds(s@, '\n', i as int);
        }
        out.push(t);
        proof {
            assert(seqs_of(out@) =~= before.push(t@));
            if k < s@.len() {
                assert(rest == seq![s@.subrange(i as int, k as int)] + lines_from(s@, k + 1));
                assert(rest.map_values(|l: Seq<char>| trim(l)) =~= seq![t@] + lines_from(
                    s@,
                    k + 1,
                ).map_values(|l: Seq<char>| trim(l)));
            } else {
                assert(rest == seq![s@.subrange(i as int, s@.len() as int)]);
                assert(rest.map_values(|l: Seq<char>| trim(l)) =~= seq![t@]);
                assert(lines_from(s@, s@.len() as int) == Seq::<Seq<char>>::empty());
            }
        }
        if k < s.len() {
            i = k + 1;
            proof {
                assert(seqs_of(out@) + lines_from(s@, i as int).map_values(|l: Seq<char>| trim(l))
                    =~= whole);
            }
        } else {
            i = s.len();
            proof {
                assert(seqs_of(out@) + lines_from(s@, i as int).map_values(|l: Seq<char>| trim(l))
                    =~= whole);
            }
        }
    }
    proof {
        assert(lines_from(s@, i as int) == Seq::<Seq<char>>::empty());
        assert(seqs_of(out@) =~= whole);
    }
    out
}

/// End of the run of non-whitespace that starts at `i`.
pub open spec fn word_run(s: Seq<char>, i: int) -> int
    decreases s.len() - i,
{
    if 0 <= i < s.len() && !is_ws(s[i]) {
        word_run(s, i + 1)
    } else {
        i
    }
}

pub proof fn lemma_word_run_bounds(s: Seq<char>, i: int)
    requires
        0 <= i <= s.len(),
    ensures
        i <= word_run(s, i) <= s.len(),
        i < s.len() && !is_ws(s[i]) ==> i < word_run(s, i),
    decreases s.len() - i,
{
    if i < s.len() && !is_ws(s[i]) {
        lemma_word_run_bounds(s, i + 1);
    }
}

/// The whitespace-separated words of `s` from position `i` on
/// (as `str::split_whitespace`).
pub open spec fn words_from(s: Seq<char>, i: int) -> Seq<Seq<char>>
    decreases s.len() - i,
{
    if i < 0 || i > s.len() {
        seq![]
    } else {
        let a = ws_run(s, i);
        proof {
            lemma_ws_run_bounds(s, i);
        }
        if a >= s.len() {
            seq![]
        } else {
            let b = word_run(s, a);
            proof {
                lemma_word_run_bounds(s, a);
            }
            seq![s.subrange(a, b)] + words_from(s, b)
        }
    }
}

pub open spec fn split_ws(s: Seq<char>) -> Seq<Seq<char>> {
    words_from(s, 0)
}

pub fn split_whitespace(s: &[char]) -> (r: Vec<Vec<char>>)
    ensures
        seqs_of(r@) == split_ws(s@),
{
    let mut out: Vec<Vec<char>> = Vec::new();
    let mut i: usize = 0;
    let ghost whole = words_from(s@, 0);
    loop
        invariant
            i <= s@.len(),
            whole == words_from(s@, 0),
            seqs_of(out@) + words_from(s@, i as int) == whole,
        decreases s@.len() - i,
    {
        let ghost i0 = i;
        let mut a = i;
        while a < s.len() && char_is_ws(s[a])
            invariant
                i <= a <= s@.len(),
                ws_run(s@, a as int) == ws_run(s@, i as int),
            decreases s@.len() - a,
        {
            a += 1;
        }
        if a >= s.len() {
            proof {
                assert(words_from(s@, i as int) == Seq::<Seq<char>>::empty());
                assert(seqs_of(out@) =~= whole);
            }
            return out;
        }
        let mut b = a;
        while b < s.len() && !char_is_ws(s[b])
            invariant
                a <= b <= s@.len(),
                word_run(s@, b as int) == word_run(s@, a as int),
            decreases s@.len() - b,
        {
            b += 1;
        }
        proof {
            lemma_word_run_bounds(s@, a as int);
        }
        let w = copy_range(s, a, b);
        let ghost before = seqs_of(out@);
        out.push(w);
        proof {
            assert(seqs_of(out@) =~= before.push(w@));
            assert(words_from(s@, i as int) == seq![s@.subrange(a as int, b as int)] + words_from(
                s@,
                b as int,
            ));
        }
        i = b;
        proof {
            assert(seqs_of(out@) + words_from(s@, i as int) =~= whole);
        }
    }
}

// ---------------------------------------------------------------------------
// Decimal numbers
// ---------------------------------------------------------------------------

pub open spec fn is_digit(c: char) -> bool {
    '0' <= c && c <= '9'
}

pub open spec fn digit_value(c: char) -> nat {
    (c as int - '0' as int) as nat
}

pub open spec fn all_digits(s: Seq<char>) -> bool {
    forall|i: int| 0 <= i < s.len() ==> is_digit(#[trigger] s[i])
}

/// The number that a string of decimal digits denotes.
pub open spec fn digits_value(s: Seq<char>) -> nat
    decreases s.len(),
{
    if s.len() == 0 {
        0
    } else {
        digits_value(s.drop_last()) * 10 + digit_value(s.last())
    }
}

/// `str::parse::<u32>`: an optional `'+'`, then one or more ASCII digits
/// whose value fits in a `u32`.
pub open spec fn parse_u32(s: Seq<char>) -> Option<u32> {
    let d = if s.len() > 0 && s[0] == '+' {
        s.drop_first()
    } else {
        s
    };
    if d.len() > 0 && all_digits(d) && digits_value(d) <= u32::MAX {
        Some(digits_value(d) as u32)
    } else {
        None
    }
}

proof fn lemma_digits_value_mono(s: Seq<char>, i: int)
    requires
        0 <= i <= s.len(),
        all_digits(s),
    ensures
        digits_value(s.take(i)) <= digits_value(s),
    decreases s.len() - i,
{
    if i < s.len() {
        lemma_digits_value_mono(s, i + 1);
        assert(s.take(i + 1).drop_last() =~= s.take(i));
    } else {
        assert(s.take(i) =~= s);
    }
}

pub fn parse_u32_chars(s: &[char]) -> (r: Option<u32>)
    ensures
        r == parse_u32(s@),
{
    let start: usize = if s.len() > 0 && s[0] == '+' {
        1
    } else {
        0
    };
    let ghost d = if s@.len() > 0 && s@[0] == '+' {
        s@.drop_first()
    } else {
        s@
    };
    proof {
        assert(d =~= s@.skip(start as int));
    }
    if start >= s.len() {
        return None;
    }
    let mut acc: u64 = 0;
    let mut i: usize = start;
    proof {
        assert(d.take(0) =~= Seq::<char>::empty());
    }
    while i < s.len()
        invariant
            start <= i <= s@.len(),
            d == s@.skip(start as int),
            d == (if s@.len() > 0 && s@[0] == '+' {
                s@.drop_first()
            } else {
                s@
            }),
            d.len() > 0,
            all_digits(d.take(i - start)),
            acc == digits_value(d.take(i - start)),
            acc <= u32::MAX,
        decreases s@.len() - i,
    {
        let c = s[i];
        if !('0' <= c && c <= '9') {
            proof {
                assert(d[i - start] == c);
                assert(!is_digit(d[i - start]));
                assert(!all_digits(d));
                assert(parse_u32(s@) is None);
            }
            return None;
        }
        let v: u64 = (c as u32 - '0' as u32) as u64;
        proof {
            assert(d.take(i - start + 1).drop_last() =~= d.take(i - start));
            assert(d.take(i - start + 1).last() == c);
        }
        let next = acc * 10 + v;
        proof {
            assert(digit_value(c) == v);
            assert(digits_value(d.take(i - start + 1)) == next);
        }
        if next > 4294967295 {
            proof {
                assert(all_digits(d.take(i - start + 1)));
                if all_digits(d) {
                    lemma_digits_value_mono(d, i - start + 1);
                    assert(digits_value(d) > u32::MAX);
                }
            }
            return None;
        }
        acc = next;
        i += 1;
        proof {
            assert(all_digits(d.take(i - start)));
        }
    }
    proof {
        assert(d.take(i - start) =~= d);
        assert(d.len() > 0 && all_digits(d) && digits_value(d) <= u32::MAX);
    }
    Some(acc as u32)
}

pub open spec fn digit_char(n: nat) -> char {
    ((n % 10) + '0' as nat) as char
}

/// Decimal representation of `n` (as `Display` for the unsigned integers).
pub open spec fn decimal(n: nat) -> Seq<char>
    decreases n,
{
    if n < 10 {
        seq![digit_char(n)]
    } else {
        decimal(n / 10).push(digit_char(n % 10))
    }
}

/// The decimal text of `n` is one or more digits denoting `n`, without a
/// leading zero unless `n` is zero; below 1000 it has at most three.
pub proof fn lemma_decimal_digits(n: nat)
    ensures
        decimal(n).len() >= 1,
        all_digits(decimal(n)),
        digits_value(decimal(n)) == n,
        decimal(n)[0] == '0' ==> n == 0,
        n < 10 ==> decimal(n).len() == 1,
        n < 100 ==> decimal(n).len() <= 2,
        n < 1000 ==> decimal(n).len() <= 3,
    decreases n,
{
    let c = digit_char(n);
    assert(c as int == (n % 10) + 48);
    assert(is_digit(c));
    assert(digit_value(c) == n % 10);
    if n < 10 {
        let d = decimal(n);
        assert(d.drop_last() =~= Seq::<char>::empty());
        assert(d.last() == c);
        assert(digits_value(d) == digits_value(d.drop_last()) * 10 + digit_value(c));
    } else {
        lemma_decimal_digits(n / 10);
        let d = decimal(n);
        assert(d.drop_last() =~= decimal(n / 10));
        assert(d[0] == decimal(n / 10)[0]);
        assert(d.last() == c);
        assert(n == (n / 10) * 10 + n % 10);
        assert(digits_value(d) == digits_value(decimal(n / 10)) * 10 + digit_value(c));
        assert(n < 1000 ==> n / 10 < 100);
        assert(n < 100 ==> n / 10 < 10);
        assert forall|i: int| 0 <= i < d.len() implies is_digit(#[trigger] d[i]) by {
            if i < d.len() - 1 {
                assert(d[i] == decimal(n / 10)[i]);
            }
        }
    }
}

fn digit_to_char(d: u64) -> (c: char)
    requires
        d < 10,
    ensures
        c == digit_char(d as nat),
{
    match d {
        0 => '0',
        1 => '1',
        2 => '2',
        3 => '3',
        4 => '4',
        5 => '5',
        6 => '6',
        7 => '7',
        8 => '8',
        _ => '9',
    }
}

/// Appends the decimal representation of `n`.
pub fn push_decimal(out: &mut String, n: u64)
    ensures
        final(out)@ == old(out)@ + decimal(n as nat),
    decreases n,
{
    if n >= 10 {
        push_decimal(out, n / 10);
    }
    let c = digit_to_char(n % 10);
    out.push(c);
    proof {
        if n >= 10 {
            assert(digit_char((n % 10) as nat) == digit_char(n as nat));
        }
    }
}


// ---------------------------------------------------------------------------
// Substrings and character replacement
// ---------------------------------------------------------------------------

/// Whether `p` occurs in `s` at position `i`.
pub open spec fn occurs_at(s: Seq<char>, p: Seq<char>, i: int) -> bool {
    0 <= i && i + p.len() <= s.len() && s.subrange(i, i + p.len()) == p
}

/// Whether `p` occurs anywhere in `s` (as `str::contains` with a string
/// pattern; the empty pattern occurs everywhere).
pub open spec fn contains_seq(s: Seq<char>, p: Seq<char>) -> bool {
    exists|i: int| occurs_at(s, p, i)
}

pub fn contains_chars(s: &[char], p: &[char]) -> (r: bool)
    ensures
        r == contains_seq(s@, p@),
{
    if p.len() > s.len() {
        proof {
            assert forall|i: int| !occurs_at(s@, p@, i) by {}
        }
        return false;
    }
    let n = s.len();
    let last = n - p.len();
    let mut i: usize = 0;
    while i <= last
        invariant
            n == s@.len(),
            last + p@.len() == s@.len(),
            i <= last + 1,
            forall|j: int| 0 <= j < i ==> !occurs_at(s@, p@, j),
        decreases last + 1 - i,
    {
        let mut k: usize = 0;
        let mut ok = true;
        while k < p.len()
            invariant
                n == s@.len(),
                last + p@.len() == s@.len(),
                i <= last,
                k <= p@.len(),
                ok == (forall|m: int| 0 <= m < k ==> s@[i + m] == p@[m]),
            decreases p@.len() - k,
        {
            if s[i + k] != p[k] {
                ok = false;
            }
            k += 1;
        }
        if ok {
            proof {
                assert(s@.subrange(i as int, i + p@.len()) =~= p@);
                assert(occurs_at(s@, p@, i as int));
            }
            return true;
        }
        proof {
            assert(!occurs_at(s@, p@, i as int)) by {
                if occurs_at(s@, p@, i as int) {
                    assert forall|m: int| 0 <= m < p@.len() implies s@[i + m] == p@[m] by {
                        assert(s@.subrange(i as int, i + p@.len())[m] == s@[i + m]);
                    }
                }
            }
        }
        i += 1;
    }
    proof {
        assert forall|j: int| !occurs_at(s@, p@, j) by {
            if 0 <= j && j + p@.len() <= s@.len() {
                assert(j < i);
            }
        }
    }
    false
}

/// `s` with every `a` replaced by `b`.
pub open spec fn replace_char(s: Seq<char>, a: char, b: char) -> Seq<char> {
    s.map_values(|c: char|
        if c == a {
            b
        } else {
            c
        })
}

pub fn replace_chars(s: &[char], a: char, b: char) -> (r: Vec<char>)
    ensures
        r@ == replace_char(s@, a, b),
{
    let mut out: Vec<char> = Vec::new();
    let mut i: usize = 0;
    while i < s.len()
        invariant
            i <= s@.len(),
            out@ == replace_char(s@.take(i as int), a, b),
        decreases s@.len() - i,
    {
        let c = s[i];
        out.push(if c == a { b } else { c });
        proof {
            assert(replace_char(s@.take(i + 1), a, b) =~= replace_char(s@.take(i as int), a, b).push(
                if c == a {
                    b
                } else {
                    c
                },
            ));
        }
        i += 1;
    }
    proof {
        assert(s@.take(s@.len() as int) =~= s@);
    }
    out
}

/// Decimal representations of `p`, separated by single spaces.
pub open spec fn join_decimal(p: Seq<u32>) -> Seq<char>
    decreases p.len(),
{
    if p.len() == 0 {
        Seq::empty()
    } else if p.len() == 1 {
        decimal(p[0] as nat)
    } else {
        join_decimal(p.drop_last()) + " "@ + decimal(p.last() as nat)
    }
}

pub fn join_decimal_string(p: &[u32]) -> (r: String)
    ensures
        r@ == join_decimal(p@),
{
    let mut out = String::new();
    let mut i: usize = 0;
    while i < p.len()
        invariant
            i <= p@.len(),
            out@ == join_decimal(p@.take(i as int)),
        decreases p@.len() - i,
    {
        proof {
            assert(p@.take(i + 1).drop_last() =~= p@.take(i as int));
            assert(p@.take(i + 1).last() == p@[i as int]);
        }
        if i > 0 {
            push_str(&mut out, " ");
        }
        proof {
            if i == 0 {
                assert(out@ =~= Seq::<char>::empty());
            }
        }
        let ghost before = out@;
        push_decimal(&mut out, p[i] as u64);
        proof {
            if i == 0 {
                assert(out@ =~= decimal(p@[0] as nat));
            }
        }
        i += 1;
    }
    proof {
        assert(p@.take(p@.len() as int) =~= p@);
    }
    out
}

} // verus!
