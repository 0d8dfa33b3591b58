//! Lexical primitives: whitespace classification, trimming, substring
//! search, and line-boundary handling tolerant of both `\n` and `\r\n`.

use vstd::prelude::*;

verus! {

/// Whitespace for this grammar: ASCII space, tab, carriage return and line
/// feed, compared against these code points directly so that non-ASCII
/// characters are never misclassified.
pub open spec fn is_ws_char(c: char) -> bool {
    c == ' ' || c == '\t' || c == '\r' || c == '\n'
}

/// Executable whitespace test.
pub fn is_ws(c: char) -> (r: bool)
    ensures
        r == is_ws_char(c),
{
    c == ' ' || c == '\t' || c == '\r' || c == '\n'
}

/// The sequence with its leading whitespace removed.
pub open spec fn trim_start(s: Seq<char>) -> Seq<char>
    decreases s.len(),
{
    if s.len() > 0 && is_ws_char(s[0]) {
        trim_start(s.skip(1))
    } else {
        s
    }
}

/// The sequence with its trailing whitespace removed.
pub open spec fn trim_end(s: Seq<char>) -> Seq<char>
    decreases s.len(),
{
    if s.len() > 0 && is_ws_char(s[s.len() - 1]) {
        trim_end(s.take(s.len() - 1))
    } else {
        s
    }
}

/// The sequence with leading and trailing whitespace removed.
pub open spec fn trim(s: Seq<char>) -> Seq<char> {
    trim_end(trim_start(s))
}

/// If every character before `i` is whitespace and `i` is the end or a
/// non-whitespace position, then trimming the front drops exactly `i`
/// characters.
pub proof fn lemma_trim_start_at(s: Seq<char>, i: int)
    requires
        0 <= i <= s.len(),
        forall|k: int| 0 <= k < i ==> is_ws_char(s[k]),
        i == s.len() || !is_ws_char(s[i]),
    ensures
        trim_start(s) == s.skip(i),
    decreases i,
{
    if i == 0 {
        assert(s.skip(0) == s);
    } else {
        lemma_trim_start_at(s.skip(1), i - 1);
        assert(s.skip(1).skip(i - 1) == s.skip(i));
    }
}

/// If every character from `j` on is whitespace and `j` is the start or
/// follows a non-whitespace position, then trimming the back keeps exactly
/// the first `j` characters.
pub proof fn lemma_trim_end_at(s: Seq<char>, j: int)
    requires
        0 <= j <= s.len(),
        forall|k: int| j <= k < s.len() ==> is_ws_char(s[k]),
        j == 0 || !is_ws_char(s[j - 1]),
    ensures
        trim_end(s) == s.take(j),
    decreases s.len() - j,
{
    if j == s.len() {
        assert(s.take(j) == s);
    } else {
        lemma_trim_end_at(s.take(s.len() - 1), j);
        assert(s.take(s.len() - 1).take(j) == s.take(j));
    }
}

/// The trimmed sequence never starts or ends with whitespace.
pub proof fn lemma_trim_no_ws_ends(s: Seq<char>)
    ensures
        trim(s).len() > 0 ==> !is_ws_char(trim(s)[0]),
        trim(s).len() > 0 ==> !is_ws_char(trim(s)[trim(s).len() - 1]),
    decreases s.len(),
{
    lemma_trim_start_no_ws(s);
    lemma_trim_end_no_ws(trim_start(s));
    let t = trim_start(s);
    let e = trim_end(t);
    if e.len() > 0 {
        lemma_trim_end_prefix(t);
        assert(e[0] == t[0]);
    }
}

proof fn lemma_trim_start_no_ws(s: Seq<char>)
    ensures
        trim_start(s).len() > 0 ==> !is_ws_char(trim_start(s)[0]),
    decreases s.len(),
{
    if s.len() > 0 && is_ws_char(s[0]) {
        lemma_trim_start_no_ws(s.skip(1));
    }
}

proof fn lemma_trim_end_no_ws(s: Seq<char>)
    ensures
        trim_end(s).len() > 0 ==> !is_ws_char(trim_end(s)[trim_end(s).len() - 1]),
    decreases s.len(),
{
    if s.len() > 0 && is_ws_char(s[s.len() - 1]) {
        lemma_trim_end_no_ws(s.take(s.len() - 1));
    }
}

/// Trimming the back keeps a prefix: every kept character is unchanged.
proof fn lemma_trim_end_prefix(s: Seq<char>)
    ensures
        trim_end(s).len() <= s.len(),
        forall|k: int| 0 <= k < trim_end(s).len() ==> trim_end(s)[k] == s[k],
    decreases s.len(),
{
    if s.len() > 0 && is_ws_char(s[s.len() - 1]) {
        let t = s.take(s.len() - 1);
        lemma_trim_end_prefix(t);
        assert(forall|k: int| 0 <= k < t.len() ==> t[k] == s[k]);
    }
}

/// Executable trim over the whitespace set of this grammar.
pub fn trim_str(s: &str) -> (r: String)
    ensures
        r@ == trim(s@),
{
    let n = s.unicode_len();
    let mut i: usize = 0;
    while i < n && is_ws(s.get_char(i))
        invariant
            0 <= i <= n,
            n == s@.len(),
            forall|k: int| 0 <= k < i ==> is_ws_char(s@[k]),
        decreases n - i,
    {
        i = i + 1;
    }
    if i == n {
        proof {
            lemma_trim_start_at(s@, n as int);
            assert(s@.skip(n as int) =~= Seq::<char>::empty());
            assert(trim_end(Seq::<char>::empty()) =~= Seq::<char>::empty());
        }
        return String::new();
    }
    let mut j: usize = n;
    while j > i && is_ws(s.get_char(j - 1))
        invariant
            i <= j <= n,
            i < n,
            n == s@.len(),
            !is_ws_char(s@[i as int]),
            forall|k: int| j <= k < n ==> is_ws_char(s@[k]),
        decreases j,
    {
        j = j - 1;
    }
    proof {
        lemma_trim_start_at(s@, i as int);
        let t = s@.skip(i as int);
        lemma_trim_end_at(t, j - i);
        assert(t.take(j - i) =~= s@.subrange(i as int, j as int));
    }
    s.substring_char(i, j).to_owned()
}

/// True when `pat` occurs in `s` starting at position `i`.
pub open spec fn matches_at(s: Seq<char>, pat: Seq<char>, i: int) -> bool {
    0 <= i && i + pat.len() <= s.len() && s.subrange(i, i + pat.len()) == pat
}

/// The position of the first occurrence of `pat` in `s` at or after `from`.
/// An empty pattern is never found.
pub open spec fn find_from(s: Seq<char>, pat: Seq<char>, from: int) -> Option<int>
    decreases s.len() - from,
{
    if !(0 <= from && from + pat.len() <= s.len() && pat.len() > 0) {
        Option::None
    } else if matches_at(s, pat, from) {
        Option::Some(from)
    } else {
        find_from(s, pat, from + 1)
    }
}

/// Characterization of `find_from`: a hit is the first occurrence at or
/// after `from`; a miss means there is no occurrence at or after `from`.
pub proof fn lemma_find_from(s: Seq<char>, pat: Seq<char>, from: int)
    requires
        0 <= from,
        pat.len() > 0,
    ensures
        match find_from(s, pat, from) {
            Option::Some(i) => from <= i && matches_at(s, pat, i) && forall|k: int|
                from <= k < i ==> !matches_at(s, pat, k),
            Option::None => forall|k: int| from <= k ==> !matches_at(s, pat, k),
        },
    decreases s.len() - from,
{
    if !(from + pat.len() <= s.len() && pat.len() > 0) {
    } else if matches_at(s, pat, from) {
    } else {
        lemma_find_from(s, pat, from + 1);
    }
}

/// Executable match test at one position.
pub fn match_at(s: &str, pat: &str, i: usize) -> (r: bool)
    requires
        i <= s@.len(),
    ensures
        r == matches_at(s@, pat@, i as int),
{
    let n = s.unicode_len();
    let m = pat.unicode_len();
    if m > n - i {
        proof {
            assert(!matches_at(s@, pat@, i as int));
        }
        return false;
    }
    let mut j: usize = 0;
    while j < m
        invariant
            0 <= j <= m,
            i + m <= n,
            n == s@.len(),
            m == pat@.len(),
            forall|k: int| 0 <= k < j ==> s@[i + k] == pat@[k],
        decreases m - j,
    {
        if s.get_char(i + j) != pat.get_char(j) {
            proof {
                assert(s@.subrange(i as int, i + m) != pat@) by {
                    assert(s@.subrange(i as int, i + m)[j as int] != pat@[j as int]);
                }
            }
            return false;
        }
        j = j + 1;
    }
    proof {
        assert(s@.subrange(i as int, i + m) =~= pat@);
    }
    true
}

/// Executable substring search, equal to `find_from`.
pub fn find_str(s: &str, pat: &str, from: usize) -> (r: Option<usize>)
    requires
        from <= s@.len(),
    ensures
        match r {
            Option::Some(i) => from <= i && i <= s@.len() && find_from(s@, pat@, from as int)
                == Option::Some(i as int),
            Option::None => find_from(s@, pat@, from as int) is None,
        },
{
    let n = s.unicode_len();
    let m = pat.unicode_len();
    if m == 0 || m > n || from > n - m {
        return Option::None;
    }
    let mut i: usize = from;
    while i <= n - m
        invariant
            from <= i,
            0 < m <= n,
            i <= n - m + 1,
            n == s@.len(),
            m == pat@.len(),
            find_from(s@, pat@, from as int) == find_from(s@, pat@, i as int),
        decreases n - i,
    {
        if match_at(s, pat, i) {
            return Option::Some(i);
        }
        proof {
            assert(find_from(s@, pat@, i as int) == find_from(s@, pat@, i + 1));
        }
        i = i + 1;
    }
    proof {
        assert(find_from(s@, pat@, i as int) is None);
    }
    Option::None
}

/// When the window for `pat` is already past the end, or `pat` is empty,
/// there is no match.
proof fn lemma_find_from_none(s: Seq<char>, pat: Seq<char>, from: int)
    requires
        from + pat.len() > s.len() || from < 0 || pat.len() == 0,
    ensures
        find_from(s, pat, from) is None,
{
}

/// The first position at or after `i` that is the end of `s` or holds a
/// non-whitespace character.
pub open spec fn skip_ws_from(s: Seq<char>, i: int) -> int
    decreases s.len() - i,
{
    if 0 <= i < s.len() && is_ws_char(s[i]) {
        skip_ws_from(s, i + 1)
    } else {
        i
    }
}

/// `skip_ws_from` stays within bounds, skips only whitespace, and stops at
/// the end or at a non-whitespace character.
pub proof fn lemma_skip_ws_from(s: Seq<char>, i: int)
    requires
        0 <= i <= s.len(),
    ensures
        i <= skip_ws_from(s, i) <= s.len(),
        forall|k: int| i <= k < skip_ws_from(s, i) ==> is_ws_char(s[k]),
        skip_ws_from(s, i) == s.len() || !is_ws_char(s[skip_ws_from(s, i)]),
    decreases s.len() - i,
{
    if i < s.len() && is_ws_char(s[i]) {
        lemma_skip_ws_from(s, i + 1);
    }
}

/// The position where a whitespace skip must stop: everything from `i` up
/// to `j` is whitespace and `j` is the end or a non-whitespace position.
pub proof fn lemma_skip_ws_pin(s: Seq<char>, i: int, j: int)
    requires
        0 <= i <= j <= s.len(),
        forall|k: int| i <= k < j ==> is_ws_char(s[k]),
        j == s.len() || !is_ws_char(s[j]),
    ensures
        skip_ws_from(s, i) == j,
    decreases j - i,
{
    if i < j {
        lemma_skip_ws_pin(s, i + 1, j);
    }
}

/// Executable whitespace skip, equal to `skip_ws_from`.
pub fn skip_ws(s: &str, from: usize) -> (r: usize)
    requires
        from <= s@.len(),
    ensures
        r == skip_ws_from(s@, from as int),
        from <= r <= s@.len(),
{
    let n = s.unicode_len();
    let mut i = from;
    while i < n && is_ws(s.get_char(i))
        invariant
            from <= i <= n,
            n == s@.len(),
            skip_ws_from(s@, from as int) == skip_ws_from(s@, i as int),
        decreases n - i,
    {
        proof {
            assert(skip_ws_from(s@, i as int) == skip_ws_from(s@, i + 1));
        }
        i = i + 1;
    }
    i
}

/// The first position at or after `i` that does not begin a line
/// terminator, skipping any run of `\r\n` or `\n` terminators.
pub open spec fn skip_terms_from(s: Seq<char>, i: int) -> int
    decreases s.len() - i,
{
    if 0 <= i && i + 2 <= s.len() && s[i] == '\r' && s[i + 1] == '\n' {
        skip_terms_from(s, i + 2)
    } else if 0 <= i && i + 1 <= s.len() && s[i] == '\n' {
        skip_terms_from(s, i + 1)
    } else {
        i
    }
}

/// `skip_terms_from` stays within bounds.
pub proof fn lemma_skip_terms_from(s: Seq<char>, i: int)
    requires
        0 <= i <= s.len(),
    ensures
        i <= skip_terms_from(s, i) <= s.len(),
    decreases s.len() - i,
{
    if i + 2 <= s.len() && s[i] == '\r' && s[i + 1] == '\n' {
        lemma_skip_terms_from(s, i + 2);
    } else if i + 1 <= s.len() && s[i] == '\n' {
        lemma_skip_terms_from(s, i + 1);
    }
}

/// Executable line-terminator skip, equal to `skip_terms_from`.
pub fn skip_terms(s: &str, from: usize) -> (r: usize)
    requires
        from <= s@.len(),
    ensures
        r == skip_terms_from(s@, from as int),
        from <= r <= s@.len(),
{
    let n = s.unicode_len();
    let mut i = from;
    loop
        invariant
            from <= i <= n,
            n == s@.len(),
            skip_terms_from(s@, from as int) == skip_terms_from(s@, i as int),
        decreases n - i,
    {
        if i < n && s.get_char(i) == '\n' {
            i = i + 1;
        } else if i < n && s.get_char(i) == '\r' && i + 1 < n && s.get_char(i + 1) == '\n' {
            i = i + 2;
        } else {
            return i;
        }
    }
}

/// The end of a field key that starts at `i`: the first position at or
/// after `i` that is the end, a `=`, or a whitespace character.
pub open spec fn key_end_from(s: Seq<char>, i: int) -> int
    decreases s.len() - i,
{
    if 0 <= i < s.len() && s[i] != '=' && !is_ws_char(s[i]) {
        key_end_from(s, i + 1)
    } else {
        i
    }
}

/// `key_end_from` stays within bounds and stops at the end, a `=`, or
/// whitespace.
pub proof fn lemma_key_end_from(s: Seq<char>, i: int)
    requires
        0 <= i <= s.len(),
    ensures
        i <= key_end_from(s, i) <= s.len(),
        forall|k: int| i <= k < key_end_from(s, i) ==> s[k] != '=' && !is_ws_char(s[k]),
    decreases s.len() - i,
{
    if i < s.len() && s[i] != '=' && !is_ws_char(s[i]) {
        lemma_key_end_from(s, i + 1);
    }
}

/// Executable key scan, equal to `key_end_from`.
pub fn key_end(s: &str, from: usize) -> (r: usize)
    requires
        from <= s@.len(),
    ensures
        r == key_end_from(s@, from as int),
        from <= r <= s@.len(),
{
    let n = s.unicode_len();
    let mut i = from;
    while i < n && s.get_char(i) != '=' && !is_ws(s.get_char(i))
        invariant
            from <= i <= n,
            n == s@.len(),
            key_end_from(s@, from as int) == key_end_from(s@, i as int),
        decreases n - i,
    {
        proof {
            assert(key_end_from(s@, i as int) == key_end_from(s@, i + 1));
        }
        i = i + 1;
    }
    i
}

/// The first position at or after `i` that holds neither `=` nor
/// whitespace: the run separating a field key from its value.
pub open spec fn skip_eq_ws_from(s: Seq<char>, i: int) -> int
    decreases s.len() - i,
{
    if 0 <= i < s.len() && (s[i] == '=' || is_ws_char(s[i])) {
        skip_eq_ws_from(s, i + 1)
    } else {
        i
    }
}

/// `skip_eq_ws_from` stays within bounds.
pub proof fn lemma_skip_eq_ws_from(s: Seq<char>, i: int)
    requires
        0 <= i <= s.len(),
    ensures
        i <= skip_eq_ws_from(s, i) <= s.len(),
    decreases s.len() - i,
{
    if i < s.len() && (s[i] == '=' || is_ws_char(s[i])) {
        lemma_skip_eq_ws_from(s, i + 1);
    }
}

/// Executable separator skip, equal to `skip_eq_ws_from`.
pub fn skip_eq_ws(s: &str, from: usize) -> (r: usize)
    requires
        from <= s@.len(),
    ensures
        r == skip_eq_ws_from(s@, from as int),
        from <= r <= s@.len(),
{
    let n = s.unicode_len();
    let mut i = from;
    while i < n && (s.get_char(i) == '=' || is_ws(s.get_char(i)))
        invariant
            from <= i <= n,
            n == s@.len(),
            skip_eq_ws_from(s@, from as int) == skip_eq_ws_from(s@, i as int),
        decreases n - i,
    {
        proof {
            assert(skip_eq_ws_from(s@, i as int) == skip_eq_ws_from(s@, i + 1));
        }
        i = i + 1;
    }
    i
}

/// Whether two strings hold the same characters.
pub fn str_eq(a: &str, b: &str) -> (r: bool)
    ensures
        r == (a@ == b@),
{
    let n = a.unicode_len();
    let m = b.unicode_len();
    if n != m {
        return false;
    }
    let mut i: usize = 0;
    while i < n
        invariant
            0 <= i <= n,
            n == a@.len() == b@.len(),
            forall|k: int| 0 <= k < i ==> a@[k] == b@[k],
        decreases n - i,
    {
        if a.get_char(i) != b.get_char(i) {
            return false;
        }
        i = i + 1;
    }
    proof {
        assert(a@ =~= b@);
    }
    true
}

/// Splits at the next line terminator at or after `i`: the line is the text
/// from `i` up to the terminator (`\r\n` and `\n` are equivalent), and the
/// returned position is where the terminator starts, or the end of the
/// input when no terminator follows.
pub open spec fn line_split_at(s: Seq<char>, i: int) -> (Seq<char>, int) {
    match find_from(s, seq!['\n'], i) {
        Option::Some(k) => if k > i && s[k - 1] == '\r' {
            (s.subrange(i, k - 1), k - 1)
        } else {
            (s.subrange(i, k), k)
        },
        Option::None => (s.subrange(i, s.len() as int), s.len() as int),
    }
}

/// The rest position of a line split lies between `i` and the end.
pub proof fn lemma_line_split_at(s: Seq<char>, i: int)
    requires
        0 <= i <= s.len(),
    ensures
        i <= line_split_at(s, i).1 <= s.len(),
        line_split_at(s, i).0 == s.subrange(i, line_split_at(s, i).1),
{
    lemma_find_from(s, seq!['\n'], i);
}

/// Executable line split: returns the line as a fresh string and the
/// position of the terminator (or the end).
pub fn line_split(s: &str, from: usize) -> (r: (String, usize))
    requires
        from <= s@.len(),
    ensures
        r.0@ == line_split_at(s@, from as int).0,
        r.1 == line_split_at(s@, from as int).1,
        from <= r.1 <= s@.len(),
{
    proof {
        reveal_strlit("\n");
        assert("\n"@ =~= seq!['\n']);
        lemma_line_split_at(s@, from as int);
    }
    let n = s.unicode_len();
    let end = match find_str(s, "\n", from) {
        Option::Some(k) => {
            if k > from && s.get_char(k - 1) == '\r' {
                k - 1
            } else {
                k
            }
        },
        Option::None => n,
    };
    proof {
        lemma_find_from(s@, seq!['\n'], from as int);
    }
    (s.substring_char(from, end).to_owned(), end)
}

} // verus!
