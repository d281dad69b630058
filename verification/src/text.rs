//! Character-sequence utilities shared by the parser and the renderers:
//! equality, lexicographic order, whitespace, searching and splitting.

use vstd::prelude::*;

verus! {

/// Appends one character to a string.
///
/// Relies on `String::push`: the string afterwards holds the old
/// characters followed by exactly the pushed one.
#[verifier::external_body]
pub fn push_char(s: &mut String, c: char)
    ensures
        final(s)@ == old(s)@.push(c),
{
    s.push(c);
}

/// Character-for-character string equality, decided without trusting
/// any `str` comparison operator.
pub fn str_eq(a: &str, b: &str) -> (r: bool)
    ensures
        r == (a@ == b@),
{
    let n = a.unicode_len();
    if n != b.unicode_len() {
        return false;
    }
    let mut i: usize = 0;
    while i < n
        invariant
            n == a@.len(),
            n == b@.len(),
            i <= n,
            forall|j: int| 0 <= j < i ==> a@[j] == b@[j],
        decreases n - i,
    {
        if a.get_char(i) != b.get_char(i) {
            return false;
        }
        i += 1;
    }
    proof {
        assert(a@ =~= b@);
    }
    true
}

/// Strict lexicographic order on character sequences, by code point.
/// For valid text this coincides with the byte order `str` sorts by.
pub open spec fn str_lt(a: Seq<char>, b: Seq<char>) -> bool
    decreases a.len(),
{
    if b.len() == 0 {
        false
    } else if a.len() == 0 {
        true
    } else if a[0] != b[0] {
        (a[0] as u32) < (b[0] as u32)
    } else {
        str_lt(a.subrange(1, a.len() as int), b.subrange(1, b.len() as int))
    }
}

pub proof fn lemma_str_lt_trichotomy(a: Seq<char>, b: Seq<char>)
    ensures
        str_lt(a, b) || str_lt(b, a) || a == b,
        str_lt(a, b) ==> !str_lt(b, a) && a != b,
        str_lt(b, a) ==> !str_lt(a, b) && a != b,
    decreases a.len(),
{
    if b.len() == 0 || a.len() == 0 {
        if a.len() == 0 && b.len() == 0 {
            assert(a =~= b);
        }
    } else if a[0] != b[0] {
        assert((a[0] as u32) != (b[0] as u32)) by {
            vstd::utf8::char_u32_cast(a[0], a[0] as u32);
            vstd::utf8::char_u32_cast(b[0], b[0] as u32);
        }
    } else {
        let a1 = a.subrange(1, a.len() as int);
        let b1 = b.subrange(1, b.len() as int);
        lemma_str_lt_trichotomy(a1, b1);
        if a1 == b1 {
            assert forall|i: int| 0 <= i < a.len() implies a[i] == b[i] by {
                if i >= 1 {
                    assert(a[i] == a1[i - 1]);
                    assert(b[i] == b1[i - 1]);
                }
            }
            assert(a =~= b);
        }
        if a == b {
            assert(a1 =~= b1);
        }
    }
}

pub proof fn lemma_str_lt_transitive(a: Seq<char>, b: Seq<char>, c: Seq<char>)
    requires
        str_lt(a, b),
        str_lt(b, c),
    ensures
        str_lt(a, c),
    decreases a.len(),
{
    if c.len() == 0 || a.len() == 0 {
    } else if b.len() == 0 {
    } else {
        if a[0] == b[0] && b[0] == c[0] {
            lemma_str_lt_transitive(
                a.subrange(1, a.len() as int),
                b.subrange(1, b.len() as int),
                c.subrange(1, c.len() as int),
            );
        }
    }
}

/// Decides `str_lt` on the views of two strings.
pub fn str_lt_exec(a: &str, b: &str) -> (r: bool)
    ensures
        r == str_lt(a@, b@),
    decreases a@.len(),
{
    let n = a.unicode_len();
    let m = b.unicode_len();
    if m == 0 {
        false
    } else if n == 0 {
        true
    } else {
        let ca = a.get_char(0);
        let cb = b.get_char(0);
        if ca != cb {
            (ca as u32) < (cb as u32)
        } else {
            str_lt_exec(a.substring_char(1, n), b.substring_char(1, m))
        }
    }
}

/// The characters `char::is_whitespace` recognizes (the Unicode
/// `White_Space` set, which is also what a parser's whitespace
/// class matches).
pub open spec fn is_ws(c: char) -> bool {
    let u = c as u32;
    (9 <= u && u <= 13) || u == 32 || u == 0x85 || u == 0xA0 || u == 0x1680 || (0x2000 <= u && u
        <= 0x200A) || u == 0x2028 || u == 0x2029 || u == 0x202F || u == 0x205F || u == 0x3000
}

/// Decides `is_ws`.
pub fn ws_char(c: char) -> (r: bool)
    ensures
        r == is_ws(c),
{
    let u = c as u32;
    (9 <= u && u <= 13) || u == 32 || u == 0x85 || u == 0xA0 || u == 0x1680 || (0x2000 <= u && u
        <= 0x200A) || u == 0x2028 || u == 0x2029 || u == 0x202F || u == 0x205F || u == 0x3000
}

/// Whether every character of `s` is whitespace (so trimming `s`
/// leaves nothing).
pub open spec fn all_ws(s: Seq<char>) -> bool {
    forall|i: int| 0 <= i < s.len() ==> is_ws(s[i])
}

/// Decides `all_ws` on the view of `s`.
pub fn all_ws_exec(s: &str) -> (r: bool)
    ensures
        r == all_ws(s@),
{
    let n = s.unicode_len();
    let mut i: usize = 0;
    while i < n
        invariant
            n == s@.len(),
            i <= n,
            forall|j: int| 0 <= j < i ==> is_ws(s@[j]),
        decreases n - i,
    {
        if !ws_char(s.get_char(i)) {
            return false;
        }
        i += 1;
    }
    true
}

/// Index of the first occurrence of `c` in `s` at or after `i`,
/// or `-1` if there is none.
pub open spec fn find_char_from(s: Seq<char>, c: char, i: int) -> int
    decreases s.len() - i,
{
    if i >= s.len() {
        -1
    } else if s[i] == c {
        i
    } else {
        find_char_from(s, c, i + 1)
    }
}

pub proof fn lemma_find_char_from_props(s: Seq<char>, c: char, i: int)
    requires
        0 <= i,
    ensures
        find_char_from(s, c, i) >= 0 ==> {
            let f = find_char_from(s, c, i);
            &&& i <= f < s.len()
            &&& s[f] == c
            &&& forall|j: int| i <= j < f ==> s[j] != c
        },
        find_char_from(s, c, i) < 0 ==> forall|j: int| i <= j < s.len() ==> s[j] != c,
    decreases s.len() - i,
{
    if i >= s.len() {
    } else if s[i] == c {
    } else {
        lemma_find_char_from_props(s, c, i + 1);
    }
}

/// Finds the first occurrence of `c` in `s` at or after `from`.
pub fn find_char(s: &str, c: char, from: usize) -> (r: Option<usize>)
    requires
        from <= s@.len(),
    ensures
        match r {
            Some(k) => find_char_from(s@, c, from as int) == k,
            None => find_char_from(s@, c, from as int) == -1,
        },
{
    let n = s.unicode_len();
    let mut i: usize = from;
    while i < n
        invariant
            n == s@.len(),
            from <= i <= n,
            find_char_from(s@, c, from as int) == find_char_from(s@, c, i as int),
        decreases n - i,
    {
        if s.get_char(i) == c {
            return Some(i);
        }
        i += 1;
    }
    None
}

/// Whether `pat` occurs in `s` starting exactly at index `i`.
pub open spec fn match_at(s: Seq<char>, pat: Seq<char>, i: int) -> bool {
    0 <= i && i + pat.len() <= s.len() && s.subrange(i, i + pat.len() as int) == pat
}

/// Index of the first occurrence of `pat` in `s` at or after `i`,
/// or `-1` if there is none (an empty `pat` counts as absent).
pub open spec fn find_sub_from(s: Seq<char>, pat: Seq<char>, i: int) -> int
    decreases s.len() - i,
{
    if i < 0 || pat.len() == 0 || i + pat.len() > s.len() {
        -1
    } else if match_at(s, pat, i) {
        i
    } else {
        find_sub_from(s, pat, i + 1)
    }
}

pub proof fn lemma_find_sub_from_props(s: Seq<char>, pat: Seq<char>, i: int)
    requires
        0 <= i,
        pat.len() > 0,
    ensures
        find_sub_from(s, pat, i) >= 0 ==> {
            let f = find_sub_from(s, pat, i);
            &&& i <= f
            &&& f + pat.len() <= s.len()
            &&& match_at(s, pat, f)
            &&& forall|j: int| i <= j < f ==> !match_at(s, pat, j)
        },
        find_sub_from(s, pat, i) < 0 ==> forall|j: int| j >= i ==> !match_at(s, pat, j),
    decreases s.len() - i,
{
    if pat.len() == 0 || i + pat.len() > s.len() {
    } else if match_at(s, pat, i) {
    } else {
        lemma_find_sub_from_props(s, pat, i + 1);
    }
}

/// Whether `pat` stands in `s` at exactly position `at`.
pub fn has_at(s: &str, pat: &str, at: usize) -> (r: bool)
    ensures
        r == match_at(s@, pat@, at as int),
{
    let n = s.unicode_len();
    let m = pat.unicode_len();
    if at > n || m > n - at {
        proof {
            assert(!match_at(s@, pat@, at as int));
        }
        return false;
    }
    let piece = s.substring_char(at, at + m);
    str_eq(piece, pat)
}

/// Finds the first occurrence of `pat` in `s` at or after `from`.
pub fn find_sub(s: &str, pat: &str, from: usize) -> (r: Option<usize>)
    requires
        from <= s@.len(),
        pat@.len() > 0,
    ensures
        match r {
            Some(k) => find_sub_from(s@, pat@, from as int) == k,
            None => find_sub_from(s@, pat@, from as int) == -1,
        },
{
    let n = s.unicode_len();
    let m = pat.unicode_len();
    if m > n || from > n - m {
        return None;
    }
    let mut i: usize = from;
    while i <= n - m
        invariant
            n == s@.len(),
            m == pat@.len(),
            1 <= m <= n,
            from <= i,
            i <= n - m + 1,
            find_sub_from(s@, pat@, from as int) == find_sub_from(s@, pat@, i as int),
        decreases n - i,
    {
        if has_at(s, pat, i) {
            return Some(i);
        }
        i += 1;
    }
    None
}

/// The views of a sequence of strings.
pub open spec fn seq_views(v: Seq<String>) -> Seq<Seq<char>> {
    v.map_values(|x: String| x@)
}

/// `s` split at every occurrence of `pat`, leftmost first; with no
/// occurrence (in particular with an empty `pat`) the result is `s`
/// alone.
pub open spec fn split_sub(s: Seq<char>, pat: Seq<char>) -> Seq<Seq<char>>
    decreases s.len(),
    via split_sub_decreases
{
    if pat.len() == 0 {
        seq![s]
    } else {
        let f = find_sub_from(s, pat, 0);
        if f < 0 {
            seq![s]
        } else {
            seq![s.subrange(0, f)] + split_sub(
                s.subrange(f + pat.len() as int, s.len() as int),
                pat,
            )
        }
    }
}

#[via_fn]
proof fn split_sub_decreases(s: Seq<char>, pat: Seq<char>) {
    if pat.len() > 0 {
        let f = find_sub_from(s, pat, 0);
        if f >= 0 {
            lemma_find_sub_from_props(s, pat, 0);
        }
    }
}

/// A character absent from `s` is absent from every piece of a split
/// of `s`.
pub proof fn lemma_split_sub_no_char(s: Seq<char>, pat: Seq<char>, c: char)
    requires
        forall|i: int| 0 <= i < s.len() ==> s[i] != c,
    ensures
        forall|k: int, i: int|
            0 <= k < split_sub(s, pat).len() && 0 <= i < split_sub(s, pat)[k].len() ==> split_sub(
                s,
                pat,
            )[k][i] != c,
    decreases s.len(),
{
    if pat.len() > 0 {
        let f = find_sub_from(s, pat, 0);
        if f >= 0 {
            lemma_find_sub_from_props(s, pat, 0);
            let rest = s.subrange(f + pat.len() as int, s.len() as int);
            lemma_split_sub_no_char(rest, pat, c);
            assert(split_sub(s, pat) == seq![s.subrange(0, f)] + split_sub(rest, pat));
        }
    }
}

/// Splits a string at every occurrence of `pat`.
pub fn split_str(s: &str, pat: &str) -> (r: Vec<String>)
    requires
        pat@.len() > 0,
    ensures
        seq_views(r@) == split_sub(s@, pat@),
    decreases s@.len(),
{
    let n = s.unicode_len();
    match find_sub(s, pat, 0) {
        None => {
            let mut r: Vec<String> = Vec::new();
            r.push(s.to_owned());
            proof {
                assert(seq_views(r@) =~= split_sub(s@, pat@));
            }
            r
        },
        Some(f) => {
            proof {
                lemma_find_sub_from_props(s@, pat@, 0);
            }
            let head = s.substring_char(0, f).to_owned();
            let rest = s.substring_char(f + pat.unicode_len(), n);
            let mut r = split_str(rest, pat);
            let ghost r0 = r@;
            r.insert(0, head);
            proof {
                assert(seq_views(r@) =~= seq![head@] + seq_views(r0));
                assert(seq_views(r@) =~= split_sub(s@, pat@));
            }
            r
        },
    }
}

/// `s` written `n` times in a row.
pub open spec fn repeat_seq(s: Seq<char>, n: int) -> Seq<char>
    decreases n,
{
    if n <= 0 {
        Seq::empty()
    } else {
        repeat_seq(s, n - 1) + s
    }
}

/// Builds `s` repeated `n` times.
pub fn repeat_str(s: &str, n: usize) -> (r: String)
    ensures
        r@ == repeat_seq(s@, n as int),
{
    let mut r = String::new();
    let mut i: usize = 0;
    while i < n
        invariant
            i <= n,
            r@ == repeat_seq(s@, i as int),
        decreases n - i,
    {
        r.append(s);
        i += 1;
    }
    r
}

/// A split has at least one piece.
pub proof fn lemma_split_sub_nonempty(s: Seq<char>, pat: Seq<char>)
    ensures
        split_sub(s, pat).len() >= 1,
{
    if pat.len() == 0 {
    } else {
        let f = find_sub_from(s, pat, 0);
        if f < 0 {
        } else {
        }
    }
}

/// Pushing a string pushes its view.
pub proof fn lemma_seq_views_push(v: Seq<String>, x: Seq<char>)
    ensures
        forall|t: String|
            t@ == x ==> seq_views(v.push(t)) == seq_views(v).push(x),
{
    assert forall|t: String| t@ == x implies seq_views(v.push(t)) == seq_views(v).push(x) by {
        let lhs = seq_views(v.push(t));
        let rhs = seq_views(v).push(x);
        assert forall|i: int| 0 <= i < lhs.len() implies lhs[i] == rhs[i] by {
            assert(lhs[i] == v.push(t)[i]@);
            if i < v.len() {
                assert(v.push(t)[i] == v[i]);
                assert(rhs[i] == seq_views(v)[i]);
            } else {
                assert(v.push(t)[i] == t);
            }
        }
        assert(lhs =~= rhs);
    }
}

/// The pieces joined with `sep` between each neighbouring pair.
pub open spec fn join_with(parts: Seq<Seq<char>>, sep: Seq<char>) -> Seq<char>
    decreases parts.len(),
{
    if parts.len() == 0 {
        Seq::empty()
    } else if parts.len() == 1 {
        parts[0]
    } else {
        parts[0] + sep + join_with(parts.drop_first(), sep)
    }
}

pub proof fn lemma_join_with_push(parts: Seq<Seq<char>>, sep: Seq<char>, x: Seq<char>)
    ensures
        parts.len() == 0 ==> join_with(parts.push(x), sep) == x,
        parts.len() > 0 ==> join_with(parts.push(x), sep) == join_with(parts, sep) + sep + x,
    decreases parts.len(),
{
    if parts.len() == 0 {
        assert(join_with(parts.push(x), sep) == parts.push(x)[0]);
    } else if parts.len() == 1 {
        assert(parts.push(x).drop_first() =~= seq![x]);
        assert(join_with(seq![x], sep) == x);
        assert(parts.push(x)[0] == parts[0]);
        assert(join_with(parts.push(x), sep) == parts[0] + sep + x);
    } else {
        lemma_join_with_push(parts.drop_first(), sep, x);
        assert(parts.push(x).drop_first() =~= parts.drop_first().push(x));
        assert(parts.push(x)[0] == parts[0]);
        assert((parts[0] + sep + (join_with(parts.drop_first(), sep) + sep + x)) =~= (parts[0] + sep
            + join_with(parts.drop_first(), sep)) + sep + x);
    }
}

/// Joins the strings with `sep` between each neighbouring pair.
pub fn join_strs(parts: &Vec<String>, sep: &str) -> (r: String)
    ensures
        r@ == join_with(seq_views(parts@), sep@),
{
    let mut r = String::new();
    let mut i: usize = 0;
    while i < parts.len()
        invariant
            i <= parts@.len(),
            r@ == join_with(seq_views(parts@).subrange(0, i as int), sep@),
        decreases parts@.len() - i,
    {
        if i > 0 {
            r.append(sep);
        }
        r.append(parts[i].as_str());
        proof {
            let pre = seq_views(parts@).subrange(0, i as int);
            lemma_join_with_push(pre, sep@, parts@[i as int]@);
            assert(seq_views(parts@).subrange(0, i + 1) =~= pre.push(parts@[i as int]@));
            if i == 0 {
                assert(r@ =~= join_with(seq_views(parts@).subrange(0, i + 1), sep@));
            }
        }
        i += 1;
    }
    proof {
        assert(seq_views(parts@).subrange(0, parts@.len() as int) =~= seq_views(parts@));
    }
    r
}

/// The decimal digit character for `n`.
pub open spec fn dec_digit(n: int) -> char {
    ((48 + n) as u8) as char
}

/// The decimal digits of `n`, most significant first.
pub open spec fn dec_seq(n: int) -> Seq<char>
    decreases n,
{
    if n < 10 {
        seq![dec_digit(n)]
    } else {
        dec_seq(n / 10) + seq![dec_digit(n % 10)]
    }
}

/// Writes `n` in decimal.
pub fn dec_str(n: usize) -> (r: String)
    ensures
        r@ == dec_seq(n as int),
    decreases n,
{
    if n < 10 {
        let d: u8 = 48 + (n as u8);
        let c = d as char;
        let mut r = String::new();
        push_char(&mut r, c);
        proof {
            assert(r@ =~= dec_seq(n as int));
        }
        r
    } else {
        let mut r = dec_str(n / 10);
        let d: u8 = 48 + ((n % 10) as u8);
        let c = d as char;
        push_char(&mut r, c);
        proof {
            assert(r@ =~= dec_seq(n as int));
        }
        r
    }
}

/// Whether two string vectors hold the same texts.
pub fn strs_eq(a: &Vec<String>, b: &Vec<String>) -> (r: bool)
    ensures
        r == (seq_views(a@) == seq_views(b@)),
{
    let n = a.len();
    if n != b.len() {
        proof {
            assert(seq_views(a@).len() != seq_views(b@).len());
        }
        return false;
    }
    let mut i: usize = 0;
    while i < n
        invariant
            n == a@.len(),
            n == b@.len(),
            i <= n,
            forall|j: int| 0 <= j < i ==> seq_views(a@)[j] == seq_views(b@)[j],
        decreases n - i,
    {
        if !str_eq(a[i].as_str(), b[i].as_str()) {
            proof {
                assert(seq_views(a@)[i as int] != seq_views(b@)[i as int]);
            }
            return false;
        }
        i += 1;
    }
    proof {
        assert(seq_views(a@) =~= seq_views(b@));
    }
    true
}

/// Joins the strings of a slice with `sep` between each
/// neighbouring pair.
pub fn join_strs_slice(parts: &[String], sep: &str) -> (r: String)
    ensures
        r@ == join_with(seq_views(parts@), sep@),
{
    let mut r = String::new();
    let mut i: usize = 0;
    let n = parts.len();
    while i < n
        invariant
            n == parts@.len(),
            i <= n,
            r@ == join_with(seq_views(parts@).subrange(0, i as int), sep@),
        decreases n - i,
    {
        if i > 0 {
            r.append(sep);
        }
        r.append(vstd::slice::slice_index_get(parts, i).as_str());
        proof {
            let pre = seq_views(parts@).subrange(0, i as int);
            lemma_join_with_push(pre, sep@, parts@[i as int]@);
            assert(seq_views(parts@).subrange(0, i + 1) =~= pre.push(parts@[i as int]@));
            if i == 0 {
                assert(r@ =~= join_with(seq_views(parts@).subrange(0, i + 1), sep@));
            }
        }
        i += 1;
    }
    proof {
        assert(seq_views(parts@).subrange(0, parts@.len() as int) =~= seq_views(parts@));
    }
    r
}

/// Index of the first non-whitespace character at or after `i`, or
/// the length of `s` if only whitespace remains.
pub open spec fn skip_ws_from(s: Seq<char>, i: int) -> int
    decreases s.len() - i,
{
    if i >= s.len() {
        s.len() as int
    } else if is_ws(s[i]) {
        skip_ws_from(s, i + 1)
    } else {
        i
    }
}

pub proof fn lemma_skip_ws_from_props(s: Seq<char>, i: int)
    requires
        0 <= i <= s.len(),
    ensures
        i <= skip_ws_from(s, i) <= s.len(),
        forall|j: int| i <= j < skip_ws_from(s, i) ==> is_ws(s[j]),
        skip_ws_from(s, i) < s.len() ==> !is_ws(s[skip_ws_from(s, i)]),
    decreases s.len() - i,
{
    if i < s.len() && is_ws(s[i]) {
        lemma_skip_ws_from_props(s, i + 1);
    }
}

/// Index of the first whitespace character at or after `i`, or the
/// length of `s` if none follows.
pub open spec fn word_end_from(s: Seq<char>, i: int) -> int
    decreases s.len() - i,
{
    if i >= s.len() {
        s.len() as int
    } else if !is_ws(s[i]) {
        word_end_from(s, i + 1)
    } else {
        i
    }
}

pub proof fn lemma_word_end_from_props(s: Seq<char>, i: int)
    requires
        0 <= i <= s.len(),
    ensures
        i <= word_end_from(s, i) <= s.len(),
        forall|j: int| i <= j < word_end_from(s, i) ==> !is_ws(s[j]),
        word_end_from(s, i) < s.len() ==> is_ws(s[word_end_from(s, i)]),
    decreases s.len() - i,
{
    if i < s.len() && !is_ws(s[i]) {
        lemma_word_end_from_props(s, i + 1);
    }
}

/// The maximal whitespace-free runs of `s` from position `i` on.
pub open spec fn words_from(s: Seq<char>, i: int) -> Seq<Seq<char>>
    decreases s.len() - i,
    via words_from_decreases
{
    if i < 0 || i >= s.len() {
        Seq::empty()
    } else {
        let a = skip_ws_from(s, i);
        if a >= s.len() {
            Seq::empty()
        } else {
            let b = word_end_from(s, a);
            seq![s.subrange(a, b)] + words_from(s, b)
        }
    }
}

#[via_fn]
proof fn words_from_decreases(s: Seq<char>, i: int) {
    if 0 <= i < s.len() {
        lemma_skip_ws_from_props(s, i);
        let a = skip_ws_from(s, i);
        if a < s.len() {
            lemma_word_end_from_props(s, a);
        }
    }
}

/// What `str::split_whitespace` yields: the whitespace-free words of
/// `s`, in order.
pub open spec fn split_ws(s: Seq<char>) -> Seq<Seq<char>> {
    words_from(s, 0)
}

/// First non-whitespace position at or after `from`.
pub fn skip_ws_exec(s: &str, from: usize) -> (r: usize)
    requires
        from <= s@.len(),
    ensures
        r == skip_ws_from(s@, from as int),
        from <= r <= s@.len(),
{
    proof {
        lemma_skip_ws_from_props(s@, from as int);
    }
    let n = s.unicode_len();
    let mut i: usize = from;
    while i < n
        invariant
            n == s@.len(),
            from <= i <= n,
            skip_ws_from(s@, from as int) == skip_ws_from(s@, i as int),
        decreases n - i,
    {
        if !ws_char(s.get_char(i)) {
            return i;
        }
        i += 1;
    }
    i
}

/// First whitespace position at or after `from`.
pub fn word_end_exec(s: &str, from: usize) -> (r: usize)
    requires
        from <= s@.len(),
    ensures
        r == word_end_from(s@, from as int),
        from <= r <= s@.len(),
{
    proof {
        lemma_word_end_from_props(s@, from as int);
    }
    let n = s.unicode_len();
    let mut i: usize = from;
    while i < n
        invariant
            n == s@.len(),
            from <= i <= n,
            word_end_from(s@, from as int) == word_end_from(s@, i as int),
        decreases n - i,
    {
        if ws_char(s.get_char(i)) {
            return i;
        }
        i += 1;
    }
    i
}

/// Splits `s` into its whitespace-separated words.
pub fn split_whitespace_vec(s: &str) -> (r: Vec<String>)
    ensures
        seq_views(r@) == split_ws(s@),
{
    let n = s.unicode_len();
    let mut acc: Vec<String> = Vec::new();
    let mut i: usize = 0;
    while i < n
        invariant
            n == s@.len(),
            i <= n,
            words_from(s@, 0) == seq_views(acc@) + words_from(s@, i as int),
        decreases n - i,
    {
        let a = skip_ws_exec(s, i);
        if a >= n {
            proof {
                assert(words_from(s@, i as int) =~= Seq::<Seq<char>>::empty());
            }
            i = n;
        } else {
            let b = word_end_exec(s, a);
            proof {
                lemma_word_end_from_props(s@, a as int);
            }
            let piece = s.substring_char(a, b).to_owned();
            let ghost acc0 = acc@;
            acc.push(piece);
            proof {
                assert(seq_views(acc@) =~= seq_views(acc0).push(s@.subrange(a as int, b as int)));
                assert(words_from(s@, i as int) == seq![s@.subrange(a as int, b as int)]
                    + words_from(s@, b as int));
                assert(seq_views(acc0) + words_from(s@, i as int) =~= seq_views(acc@) + words_from(
                    s@,
                    b as int,
                ));
            }
            i = b;
        }
    }
    proof {
        assert(words_from(s@, n as int) =~= Seq::<Seq<char>>::empty());
        assert(seq_views(acc@) + Seq::<Seq<char>>::empty() =~= seq_views(acc@));
    }
    acc
}

/// Appends clones of `src[from..]` to `dst`.
pub fn append_strs_from(dst: &mut Vec<String>, src: &[String], from: usize)
    requires
        from <= src@.len(),
    ensures
        seq_views(final(dst)@) == seq_views(old(dst)@) + seq_views(src@).subrange(
            from as int,
            src@.len() as int,
        ),
{
    let n = src.len();
    let ghost dst0 = dst@;
    let mut j = from;
    while j < n
        invariant
            n == src@.len(),
            from <= j <= n,
            seq_views(dst@) == seq_views(dst0) + seq_views(src@).subrange(from as int, j as int),
        decreases n - j,
    {
        let s = vstd::slice::slice_index_get(src, j).clone();
        let ghost pre = dst@;
        let ghost sv = s@;
        dst.push(s);
        proof {
            assert(sv == src@[j as int]@);
            let lhs = seq_views(dst@);
            let rhs = seq_views(dst0) + seq_views(src@).subrange(from as int, j + 1);
            let base = seq_views(dst0).len() as int;
            let part = seq_views(src@).subrange(from as int, j as int);
            let part1 = seq_views(src@).subrange(from as int, j + 1);
            assert(seq_views(src@).len() == src@.len());
            assert(part.len() == j - from);
            assert(part1.len() == j + 1 - from);
            assert(seq_views(pre).len() == pre.len());
            assert(pre.len() == base + (j - from));
            assert forall|i: int| 0 <= i < lhs.len() implies lhs[i] == rhs[i] by {
                assert(lhs[i] == dst@[i]@);
                if i < pre.len() {
                    assert(dst@[i] == pre[i]);
                    assert(lhs[i] == seq_views(pre)[i]);
                    assert(seq_views(pre)[i] == (seq_views(dst0) + part)[i]);
                    if i >= base {
                        assert((seq_views(dst0) + part)[i] == part[i - base]);
                        assert(part[i - base] == seq_views(src@)[from + i - base]);
                        assert(rhs[i] == part1[i - base]);
                        assert(part1[i - base] == seq_views(src@)[from + i - base]);
                    }
                } else {
                    assert(i == pre.len());
                    assert(dst@[i]@ == sv);
                    assert(rhs[i] == part1[i - base]);
                    assert(part1[i - base] == seq_views(src@)[from + i - base]);
                    assert(from + i - base == j);
                    assert(seq_views(src@)[j as int] == src@[j as int]@);
                }
            }
            assert(lhs =~= rhs);
        }
        j += 1;
    }
    proof {
        assert(seq_views(dst@) =~= seq_views(dst0) + seq_views(src@).subrange(
            from as int,
            src@.len() as int,
        ));
        assert(dst0 == old(dst)@);
    }
}

/// Appends an owned copy of `s` to a vector of strings.
pub fn push_str_owned(v: &mut Vec<String>, s: &str)
    ensures
        seq_views(final(v)@) == seq_views(old(v)@).push(s@),
{
    let ghost pre = v@;
    v.push(s.to_owned());
    proof {
        let lhs = seq_views(v@);
        let rhs = seq_views(pre).push(s@);
        assert forall|i: int| 0 <= i < lhs.len() implies lhs[i] == rhs[i] by {
            assert(lhs[i] == v@[i]@);
            if i < pre.len() {
                assert(v@[i] == pre[i]);
                assert(rhs[i] == seq_views(pre)[i]);
            } else {
                assert(v@[i]@ == s@);
            }
        }
        assert(lhs =~= rhs);
        assert(pre == old(v)@);
    }
}

/// Clones `src[from..]` into a fresh vector.
pub fn clone_strs_from(src: &[String], from: usize) -> (r: Vec<String>)
    requires
        from <= src@.len(),
    ensures
        seq_views(r@) == seq_views(src@).subrange(from as int, src@.len() as int),
{
    let mut r: Vec<String> = Vec::new();
    append_strs_from(&mut r, src, from);
    proof {
        assert(seq_views(r@) =~= seq_views(src@).subrange(from as int, src@.len() as int));
    }
    r
}

/// The number of occurrences of `c` in `s`.
pub open spec fn count_char(s: Seq<char>, c: char) -> nat
    decreases s.len(),
{
    if s.len() == 0 {
        0
    } else {
        count_char(s.drop_last(), c) + (if s.last() == c {
            1nat
        } else {
            0nat
        })
    }
}

pub proof fn lemma_count_char_concat(a: Seq<char>, b: Seq<char>, c: char)
    ensures
        count_char(a + b, c) == count_char(a, c) + count_char(b, c),
    decreases b.len(),
{
    if b.len() == 0 {
        assert(a + b =~= a);
    } else {
        lemma_count_char_concat(a, b.drop_last(), c);
        assert((a + b).drop_last() =~= a + b.drop_last());
        assert((a + b).last() == b.last());
    }
}

pub proof fn lemma_count_char_zero(s: Seq<char>, c: char)
    ensures
        count_char(s, c) == 0 <==> (forall|i: int| 0 <= i < s.len() ==> s[i] != c),
    decreases s.len(),
{
    if s.len() > 0 {
        lemma_count_char_zero(s.drop_last(), c);
        assert(forall|i: int| 0 <= i < s.len() - 1 ==> s[i] == s.drop_last()[i]);
    }
}

/// Whether the views of `v` are strictly increasing, so that `v`
/// holds each string at most once, in order.
pub open spec fn sorted_distinct(v: Seq<Seq<char>>) -> bool {
    forall|i: int, j: int| 0 <= i < j < v.len() ==> str_lt(v[i], v[j])
}

/// A finite set of strings has exactly one sorted duplicate-free
/// enumeration.
pub proof fn lemma_sorted_distinct_unique(a: Seq<Seq<char>>, b: Seq<Seq<char>>)
    requires
        sorted_distinct(a),
        sorted_distinct(b),
        a.to_set() == b.to_set(),
    ensures
        a == b,
    decreases a.len(),
{
    if a.len() == 0 {
        if b.len() > 0 {
            assert(b.contains(b[0]));
            assert(b.to_set().contains(b[0]));
            assert(a.to_set().contains(b[0]));
        }
        assert(a =~= b);
    } else if b.len() == 0 {
        assert(a.contains(a[0]));
        assert(a.to_set().contains(a[0]));
        assert(b.to_set().contains(a[0]));
    } else {
        assert(a[0] == b[0]) by {
            assert(a.to_set().contains(a[0])) by {
                assert(a.contains(a[0]));
            }
            assert(b.to_set().contains(b[0])) by {
                assert(b.contains(b[0]));
            }
            let i = choose|i: int| 0 <= i < b.len() && b[i] == a[0];
            let j = choose|j: int| 0 <= j < a.len() && a[j] == b[0];
            lemma_str_lt_trichotomy(a[0], b[0]);
            if str_lt(a[0], b[0]) {
                assert(i > 0 ==> str_lt(b[0], b[i]));
                lemma_str_lt_trichotomy(b[0], b[i]);
            } else if str_lt(b[0], a[0]) {
                assert(j > 0 ==> str_lt(a[0], a[j]));
                lemma_str_lt_trichotomy(a[0], a[j]);
            }
        }
        let at = a.drop_first();
        let bt = b.drop_first();
        assert(at.to_set() =~= bt.to_set()) by {
            assert forall|x: Seq<char>| at.to_set().contains(x) implies bt.to_set().contains(
                x,
            ) by {
                let i = choose|i: int| 0 <= i < at.len() && at[i] == x;
                assert(a[i + 1] == x);
                assert(a.contains(x));
                assert(b.to_set().contains(x));
                let j = choose|j: int| 0 <= j < b.len() && b[j] == x;
                assert(str_lt(a[0], a[i + 1]));
                lemma_str_lt_trichotomy(a[0], x);
                assert(j != 0);
                assert(bt[j - 1] == x);
                assert(bt.contains(x));
            }
            assert forall|x: Seq<char>| bt.to_set().contains(x) implies at.to_set().contains(
                x,
            ) by {
                let i = choose|i: int| 0 <= i < bt.len() && bt[i] == x;
                assert(b[i + 1] == x);
                assert(b.contains(x));
                assert(a.to_set().contains(x));
                let j = choose|j: int| 0 <= j < a.len() && a[j] == x;
                assert(str_lt(b[0], b[i + 1]));
                lemma_str_lt_trichotomy(b[0], x);
                assert(j != 0);
                assert(at[j - 1] == x);
                assert(at.contains(x));
            }
        }
        assert(sorted_distinct(at)) by {
            assert(forall|i: int| 0 <= i < at.len() ==> at[i] == a[i + 1]);
        }
        assert(sorted_distinct(bt)) by {
            assert(forall|i: int| 0 <= i < bt.len() ==> bt[i] == b[i + 1]);
        }
        lemma_sorted_distinct_unique(at, bt);
        assert(at =~= a.subrange(1, a.len() as int));
        assert(bt =~= b.subrange(1, b.len() as int));
        assert(at.len() == a.len() - 1);
        assert(bt.len() == b.len() - 1);
        assert(a.len() == b.len());
        assert forall|i: int| 0 <= i < a.len() implies a[i] == b[i] by {
            if i > 0 {
                assert(a[i] == at[i - 1]);
                assert(b[i] == bt[i - 1]);
            }
        }
        assert(a =~= b);
    }
}

/// The one sorted duplicate-free enumeration of a set of strings.
pub open spec fn sorted_of(st: Set<Seq<char>>) -> Seq<Seq<char>> {
    choose|q: Seq<Seq<char>>| sorted_distinct(q) && q.to_set() == st
}

/// A sorted duplicate-free sequence is the enumeration of its own
/// set.
pub proof fn lemma_sorted_of_eq(q: Seq<Seq<char>>)
    requires
        sorted_distinct(q),
    ensures
        sorted_of(q.to_set()) == q,
{
    assert(sorted_distinct(q) && q.to_set() == q.to_set());
    let p = sorted_of(q.to_set());
    assert(sorted_distinct(p) && p.to_set() == q.to_set()) by {
        assert(exists|w: Seq<Seq<char>>| sorted_distinct(w) && w.to_set() == q.to_set());
    }
    lemma_sorted_distinct_unique(p, q);
}

/// Inserts `s` into a sorted duplicate-free vector, keeping it so;
/// a string already present is not added again.
pub fn insert_sorted(v: &mut Vec<String>, s: String)
    requires
        sorted_distinct(seq_views(old(v)@)),
    ensures
        sorted_distinct(seq_views(final(v)@)),
        seq_views(final(v)@).to_set() == seq_views(old(v)@).to_set().insert(s@),
{
    let mut k: usize = 0;
    while k < v.len() && str_lt_exec(v[k].as_str(), s.as_str())
        invariant
            sorted_distinct(seq_views(v@)),
            v@ == old(v)@,
            k <= v@.len(),
            forall|j: int| 0 <= j < k ==> str_lt(seq_views(v@)[j], s@),
        decreases v@.len() - k,
    {
        k += 1;
    }
    if k < v.len() && str_eq(v[k].as_str(), s.as_str()) {
        proof {
            assert(seq_views(v@).contains(s@)) by {
                assert(seq_views(v@)[k as int] == s@);
            }
            assert(seq_views(v@).to_set() =~= seq_views(old(v)@).to_set().insert(s@));
        }
    } else {
        proof {
            if k < v@.len() {
                lemma_str_lt_trichotomy(seq_views(v@)[k as int], s@);
            }
        }
        let ghost v0 = v@;
        v.insert(k, s);
        proof {
            let w = seq_views(v@);
            let w0 = seq_views(v0);
            assert forall|i: int, j: int| 0 <= i < j < w.len() implies str_lt(w[i], w[j]) by {
                if j < k {
                    assert(w[i] == w0[i] && w[j] == w0[j]);
                } else if i < k && j == k {
                    assert(w[i] == w0[i] && w[j] == s@);
                } else if i < k && j > k {
                    assert(w[i] == w0[i] && w[j] == w0[j - 1]);
                    if j - 1 == k - 1 < w0.len() {
                    }
                    if i < j - 1 {
                    } else {
                        assert(i == j - 1 && i < k);
                        assert(str_lt(w0[i], s@));
                        assert(w0[i] == w[i]);
                    }
                    if i <= j - 1 && j - 1 >= k {
                        assert(str_lt(w0[i], w0[j - 1]) || i == j - 1);
                    }
                } else if i == k {
                    assert(w[i] == s@ && w[j] == w0[j - 1]);
                    assert(str_lt(s@, w0[k as int]) || w0.len() == k);
                    if j - 1 == k {
                        assert(str_lt(s@, w0[j - 1]));
                    } else {
                        assert(str_lt(w0[k as int], w0[j - 1]));
                        lemma_str_lt_transitive(s@, w0[k as int], w0[j - 1]);
                    }
                } else {
                    assert(w[i] == w0[i - 1] && w[j] == w0[j - 1]);
                }
            }
            assert(seq_views(v@).to_set() =~= seq_views(v0).to_set().insert(s@)) by {
                assert forall|x: Seq<char>| seq_views(v@).contains(x) implies seq_views(
                    v0,
                ).to_set().insert(s@).contains(x) by {
                    let i = choose|i: int| 0 <= i < seq_views(v@).len() && seq_views(v@)[i] == x;
                    if i < k {
                        assert(seq_views(v0)[i] == x);
                    } else if i == k {
                    } else {
                        assert(seq_views(v0)[i - 1] == x);
                    }
                }
                assert forall|x: Seq<char>| seq_views(v0).to_set().insert(s@).contains(
                    x,
                ) implies seq_views(v@).contains(x) by {
                    if x == s@ {
                        assert(seq_views(v@)[k as int] == x);
                    } else {
                        let i = choose|i: int|
                            0 <= i < seq_views(v0).len() && seq_views(v0)[i] == x;
                        if i < k {
                            assert(seq_views(v@)[i] == x);
                        } else {
                            assert(seq_views(v@)[i + 1] == x);
                        }
                    }
                }
            }
        }
    }
}

/// Inserts every string of `extra` into a sorted duplicate-free
/// vector, keeping it so.
pub fn merge_sorted(v: &mut Vec<String>, extra: Vec<String>)
    requires
        sorted_distinct(seq_views(old(v)@)),
    ensures
        sorted_distinct(seq_views(final(v)@)),
        seq_views(final(v)@).to_set() == seq_views(old(v)@).to_set() + seq_views(extra@).to_set(),
{
    let n = extra.len();
    let mut i: usize = 0;
    let ghost all = seq_views(old(v)@).to_set() + seq_views(extra@).to_set();
    while i < n
        invariant
            n == extra@.len(),
            i <= n,
            sorted_distinct(seq_views(v@)),
            seq_views(v@).to_set() == seq_views(old(v)@).to_set() + seq_views(
                extra@.subrange(0, i as int),
            ).to_set(),
        decreases n - i,
    {
        let s = extra[i].clone();
        proof {
            assert(s@ == extra@[i as int]@);
        }
        insert_sorted(v, s);
        proof {
            assert(seq_views(extra@.subrange(0, i + 1)) =~= seq_views(
                extra@.subrange(0, i as int),
            ).push(extra@[i as int]@));
            seq_views(extra@.subrange(0, i as int)).lemma_push_to_set_commute(extra@[i as int]@);
            assert(seq_views(extra@.subrange(0, i + 1)).to_set() =~= seq_views(
                extra@.subrange(0, i as int),
            ).to_set().insert(extra@[i as int]@));
            assert(seq_views(v@).to_set() =~= seq_views(old(v)@).to_set() + seq_views(
                extra@.subrange(0, i + 1),
            ).to_set());
        }
        i += 1;
    }
    proof {
        assert(extra@.subrange(0, n as int) =~= extra@);
    }
}

} // verus!
