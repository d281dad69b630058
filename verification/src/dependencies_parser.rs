//! The import-declaration extractor: one unit's text in, the list of
//! raw dependency token paths out.  The scan is structural — a
//! test-section cutoff, a line-oriented statement scan, a fixpoint
//! rewrite of nested brace groups, and a rename-clause strip.

use crate::dependency_components::DependencyComponents;
use crate::text::{
    all_ws, count_char, find_char_from, find_sub_from, join_with, match_at, seq_views, skip_ws_from,
    sorted_distinct, split_sub, split_ws,
};
use vstd::prelude::*;

verus! {

/// The text up to the first test-section marker; text without one
/// stays whole.
pub open spec fn cutoff(text: Seq<char>) -> Seq<char> {
    let f = find_sub_from(text, "#[cfg(test)]"@, 0);
    if f < 0 {
        text
    } else {
        text.subrange(0, f)
    }
}

/// The text before the first test-section marker, if there is one.
pub fn keep_before_cfg_test(text: &str) -> (r: Option<String>)
    ensures
        match r {
            Some(s) => find_sub_from(text@, "#[cfg(test)]"@, 0) >= 0 && s@ == cutoff(text@),
            None => find_sub_from(text@, "#[cfg(test)]"@, 0) < 0,
        },
{
    proof {
        reveal_strlit("#[cfg(test)]");
    }
    match crate::text::find_sub(text, "#[cfg(test)]", 0) {
        Some(f) => {
            proof {
                crate::text::lemma_find_sub_from_props(text@, "#[cfg(test)]"@, 0);
            }
            Some(text.substring_char(0, f).to_owned())
        },
        None => None,
    }
}

/// A dependency string with all whitespace removed and a trailing
/// rename clause discarded: its whitespace-separated words, minus
/// the final two when the second-to-last is the rename keyword,
/// joined without separators.
pub open spec fn trimmed(dep: Seq<char>) -> Seq<char> {
    let ws = split_ws(dep);
    if ws.len() >= 2 && ws[ws.len() - 2] == "as"@ {
        join_with(ws.subrange(0, ws.len() - 2), Seq::empty())
    } else {
        join_with(ws, Seq::empty())
    }
}

/// Strips whitespace and a rename clause from one dependency string.
pub fn trim_spaces_and_as(dependency: &str) -> (r: String)
    ensures
        r@ == trimmed(dependency@),
{
    let mut words = crate::text::split_whitespace_vec(dependency);
    let n = words.len();
    if n >= 2 && crate::text::str_eq(words[n - 2].as_str(), "as") {
        let ghost w0 = words@;
        let _last = words.pop();
        let _kw = words.pop();
        proof {
            assert(seq_views(words@) =~= seq_views(w0).subrange(0, seq_views(w0).len() - 2));
            assert(seq_views(w0) == split_ws(dependency@));
        }
    }
    let r = crate::text::join_strs(&words, "");
    proof {
        reveal_strlit("");
        assert(""@ =~= Seq::<char>::empty());
    }
    r
}

/// Index of the last closing brace of `s`, or `-1`.
pub open spec fn last_close(s: Seq<char>) -> int
    decreases s.len(),
{
    if s.len() == 0 {
        -1
    } else if s.last() == '}' {
        s.len() - 1
    } else {
        last_close(s.drop_last())
    }
}

proof fn lemma_last_close_props(s: Seq<char>)
    ensures
        last_close(s) >= 0 ==> {
            let c = last_close(s);
            &&& c < s.len()
            &&& s[c] == '}'
            &&& forall|j: int| c < j < s.len() ==> s[j] != '}'
        },
        last_close(s) < 0 ==> forall|j: int| 0 <= j < s.len() ==> s[j] != '}',
    decreases s.len(),
{
    if s.len() > 0 && s.last() != '}' {
        lemma_last_close_props(s.drop_last());
        assert(forall|j: int| 0 <= j < s.len() - 1 ==> s[j] == s.drop_last()[j]);
    }
}

/// Index of the last opening brace of `s` strictly before `bound`,
/// or `-1`.
pub open spec fn last_open_before(s: Seq<char>, bound: int) -> int
    decreases bound,
{
    if bound <= 0 || bound > s.len() {
        -1
    } else if s[bound - 1] == '{' {
        bound - 1
    } else {
        last_open_before(s, bound - 1)
    }
}

proof fn lemma_last_open_before_props(s: Seq<char>, bound: int)
    requires
        bound <= s.len(),
    ensures
        last_open_before(s, bound) >= 0 ==> {
            let o = last_open_before(s, bound);
            &&& o < bound
            &&& s[o] == '{'
            &&& forall|j: int| o < j < bound ==> s[j] != '{'
        },
        last_open_before(s, bound) < 0 ==> forall|j: int| 0 <= j < bound ==> s[j] != '{',
    decreases bound,
{
    if bound > 0 && s[bound - 1] != '{' {
        lemma_last_open_before_props(s, bound - 1);
    }
}

/// Whether `s` holds an innermost brace group: an opening brace with
/// a closing brace somewhere after it.
pub open spec fn has_pair(s: Seq<char>) -> bool {
    last_close(s) >= 0 && last_open_before(s, last_close(s)) >= 0
}

/// The opening brace of the group the rewrite takes: the last one
/// that still has a closing brace after it.
pub open spec fn pair_open(s: Seq<char>) -> int {
    last_open_before(s, last_close(s))
}

/// The closing brace of that group: the first one after its opening
/// brace.
pub open spec fn pair_close(s: Seq<char>) -> int {
    find_char_from(s, '}', pair_open(s) + 1)
}

/// What precedes the group.
pub open spec fn group_prefix(s: Seq<char>) -> Seq<char> {
    s.subrange(0, pair_open(s))
}

/// The group's inside.
pub open spec fn group_body(s: Seq<char>) -> Seq<char> {
    s.subrange(pair_open(s) + 1, pair_close(s))
}

/// What follows the group.
pub open spec fn group_suffix(s: Seq<char>) -> Seq<char> {
    s.subrange(pair_close(s) + 1, s.len() as int)
}

/// The group's comma-separated alternatives.
pub open spec fn group_alts(s: Seq<char>) -> Seq<Seq<char>> {
    split_sub(group_body(s), seq![','])
}

/// Whether alternative `k` survives: an alternative of nothing but
/// whitespace is dropped, not kept as an empty path.
pub open spec fn alt_valid(s: Seq<char>, k: int) -> bool {
    0 <= k < group_alts(s).len() && !all_ws(group_alts(s)[k])
}

/// The rewriting of `s` by alternative `k`: prefix, the alternative
/// kept verbatim, suffix.
pub open spec fn alt_rewrite(s: Seq<char>, k: int) -> Seq<char> {
    group_prefix(s) + group_alts(s)[k] + group_suffix(s)
}

/// One innermost rewrite step as a set: the rewritings by all
/// surviving alternatives, or `s` alone when there is no group or
/// no alternative survives.
pub open spec fn develop_innermost_spec(s: Seq<char>) -> Set<Seq<char>> {
    if has_pair(s) && (exists|k: int| alt_valid(s, k)) {
        Set::new(|t: Seq<char>| exists|k: int| alt_valid(s, k) && t == alt_rewrite(s, k))
    } else {
        set![s]
    }
}

pub proof fn lemma_pair_props(s: Seq<char>)
    requires
        has_pair(s),
    ensures
        0 <= pair_open(s) < pair_close(s) < s.len(),
        s[pair_open(s)] == '{',
        s[pair_close(s)] == '}',
        forall|j: int| pair_open(s) < j < pair_close(s) ==> s[j] != '{',
        forall|j: int| pair_open(s) < j < pair_close(s) ==> s[j] != '}',
        forall|j: int| pair_close(s) < j < s.len() ==> !(s[j] == '{' && (exists|m: int|
            j < m < s.len() && s[m] == '}')),
{
    let lc = last_close(s);
    let o = pair_open(s);
    lemma_last_close_props(s);
    lemma_last_open_before_props(s, lc);
    crate::text::lemma_find_char_from_props(s, '}', o + 1);
    let c = pair_close(s);
    assert(c >= 0) by {
        if c < 0 {
            assert(s[lc] == '}');
        }
    }
    assert(c <= lc) by {
        if c > lc {
            assert(s[c] == '}');
        }
    }
    assert forall|j: int| o < j < c implies s[j] != '{' by {
        assert(j < lc);
    }
    assert forall|j: int|
        c < j < s.len() implies !(s[j] == '{' && (exists|m: int|
        j < m < s.len() && s[m] == '}')) by {
        if s[j] == '{' && (exists|m: int| j < m < s.len() && s[m] == '}') {
            let m = choose|m: int| j < m < s.len() && s[m] == '}';
            assert(m <= lc);
            assert(j < lc);
            assert(j <= o);
        }
    }
}

/// The full expansion of `s`, bounded by `fuel` rewrite rounds: a
/// brace-free string is done; otherwise one innermost rewrite is
/// taken and each surviving alternative is expanded further.  A
/// string whose braces admit no rewrite — an unmatched brace, or a
/// group with no surviving alternative — contributes nothing.
pub open spec fn develop_fuel(s: Seq<char>, fuel: nat) -> Set<Seq<char>>
    decreases fuel,
{
    if count_char(s, '{') == 0 {
        set![s]
    } else if fuel == 0 {
        Set::empty()
    } else if has_pair(s) && (exists|k: int| alt_valid(s, k)) {
        Set::new(
            |t: Seq<char>|
                exists|k: int|
                    alt_valid(s, k) && develop_fuel(alt_rewrite(s, k), (fuel - 1) as nat).contains(
                        t,
                    ),
        )
    } else {
        Set::empty()
    }
}

/// The full expansion of `s`: one rewrite round per opening brace
/// always suffices, because each round removes exactly one.
pub open spec fn develop_full(s: Seq<char>) -> Set<Seq<char>> {
    develop_fuel(s, count_char(s, '{'))
}

/// Each rewrite removes exactly one opening brace: the group's body
/// holds none, so the surviving alternative adds none back.
proof fn lemma_alt_rewrite_count(s: Seq<char>, k: int)
    requires
        has_pair(s),
        alt_valid(s, k),
    ensures
        count_char(alt_rewrite(s, k), '{') == count_char(s, '{') - 1,
{
    lemma_pair_props(s);
    let o = pair_open(s);
    let c = pair_close(s);
    let cap1 = group_prefix(s);
    let cap2 = group_body(s);
    let cap3 = group_suffix(s);
    assert(s =~= cap1 + seq!['{'] + cap2 + seq!['}'] + cap3);
    crate::text::lemma_count_char_concat(cap1 + seq!['{'] + cap2 + seq!['}'], cap3, '{');
    crate::text::lemma_count_char_concat(cap1 + seq!['{'] + cap2, seq!['}'], '{');
    crate::text::lemma_count_char_concat(cap1 + seq!['{'], cap2, '{');
    crate::text::lemma_count_char_concat(cap1, seq!['{'], '{');
    assert(count_char(Seq::<char>::empty(), '{') == 0);
    assert(count_char(seq!['{'], '{') == 1) by {
        assert(seq!['{'].drop_last() =~= Seq::<char>::empty());
        assert(seq!['{'].last() == '{');
    }
    assert(count_char(seq!['}'], '{') == 0) by {
        assert(seq!['}'].drop_last() =~= Seq::<char>::empty());
        assert(seq!['}'].last() == '}');
    }
    crate::text::lemma_count_char_zero(cap2, '{');
    let alt = group_alts(s)[k];
    crate::text::lemma_split_sub_no_char(cap2, seq![','], '{');
    crate::text::lemma_count_char_zero(alt, '{');
    crate::text::lemma_count_char_concat(cap1 + alt, cap3, '{');
    crate::text::lemma_count_char_concat(cap1, alt, '{');
    assert(alt_rewrite(s, k) == cap1 + alt + cap3);
}

/// The fixpoint rewrite of one dependency string: brace groups are
/// expanded innermost-first until none remain; the results come
/// sorted and without duplicates.  Text whose braces cannot be
/// rewritten contributes nothing.
pub fn develop_all_dependencies(dependency: &str) -> (r: Vec<String>)
    ensures
        sorted_distinct(seq_views(r@)),
        seq_views(r@).to_set() == develop_full(dependency@),
    decreases count_char(dependency@, '{'),
{
    let ghost s = dependency@;
    let ghost cnt = count_char(s, '{');
    if !has_open_brace(dependency) {
        proof {
            crate::text::lemma_count_char_zero(s, '{');
        }
        let mut r: Vec<String> = Vec::new();
        r.push(dependency.to_owned());
        proof {
            assert(seq_views(r@) =~= seq![s]);
            lemma_singleton_strs(s);
        }
        return r;
    }
    proof {
        crate::text::lemma_count_char_zero(s, '{');
        assert(cnt > 0);
    }
    let step = develop_innermost_dependencies(dependency);
    let ghost stepv = seq_views(step@);
    if step.len() == 1 && crate::text::str_eq(step[0].as_str(), dependency) {
        // the one rewrite handed the text back: an unmatched brace or
        // a group with nothing in it, which yields no dependency
        proof {
            assert(stepv.to_set().contains(s)) by {
                assert(stepv[0] == s);
            }
            if has_pair(s) && (exists|k: int| alt_valid(s, k)) {
                let k = choose|k: int| alt_valid(s, k) && s == alt_rewrite(s, k);
                assert(develop_innermost_spec(s).contains(s));
                lemma_alt_rewrite_count(s, k);
            }
        }
        let r: Vec<String> = Vec::new();
        proof {
            assert(seq_views(r@).to_set() =~= Set::<Seq<char>>::empty());
            assert(develop_full(s) =~= Set::<Seq<char>>::empty());
        }
        return r;
    }
    proof {
        assert(has_pair(s) && (exists|k: int| alt_valid(s, k))) by {
            if !(has_pair(s) && (exists|k: int| alt_valid(s, k))) {
                assert(develop_innermost_spec(s) == set![s]);
                assert(stepv.to_set().contains(s));
                assert(stepv.len() >= 1) by {
                    if stepv.len() == 0 {
                        assert(!stepv.contains(s));
                    }
                }
                assert(stepv.len() == 1) by {
                    if stepv.len() >= 2 {
                        assert(stepv.to_set().contains(stepv[0]));
                        assert(stepv.to_set().contains(stepv[1]));
                        assert(stepv[0] == s && stepv[1] == s);
                        crate::text::lemma_str_lt_trichotomy(stepv[0], stepv[1]);
                    }
                }
                assert(stepv[0] == s) by {
                    assert(stepv.to_set().contains(stepv[0]));
                }
            }
        }
    }
    let m = step.len();
    let mut r: Vec<String> = Vec::new();
    let mut i: usize = 0;
    while i < m
        invariant
            m == step@.len(),
            i <= m,
            s == dependency@,
            cnt == count_char(s, '{'),
            cnt > 0,
            stepv == seq_views(step@),
            stepv.to_set() == develop_innermost_spec(s),
            has_pair(s) && (exists|k: int| alt_valid(s, k)),
            sorted_distinct(seq_views(r@)),
            seq_views(r@).to_set() == Set::new(
                |t: Seq<char>|
                    exists|ii: int| 0 <= ii < i && develop_full(stepv[ii]).contains(t),
            ),
        decreases m - i,
    {
        proof {
            assert(stepv.contains(stepv[i as int]));
            assert(develop_innermost_spec(s).contains(stepv[i as int]));
            let k = choose|k: int| alt_valid(s, k) && stepv[i as int] == alt_rewrite(s, k);
            lemma_alt_rewrite_count(s, k);
            assert(count_char(stepv[i as int], '{') == cnt - 1);
            assert(step@[i as int]@ == stepv[i as int]);
        }
        let sub = develop_all_dependencies(step[i].as_str());
        let ghost racc = seq_views(r@).to_set();
        crate::text::merge_sorted(&mut r, sub);
        proof {
            let goal = Set::new(
                |t: Seq<char>|
                    exists|ii: int| 0 <= ii < i + 1 && develop_full(stepv[ii]).contains(t),
            );
            assert(seq_views(r@).to_set() =~= goal) by {
                assert forall|t: Seq<char>| seq_views(r@).to_set().contains(t) implies goal.contains(
                    t,
                ) by {
                    if racc.contains(t) {
                        let ii = choose|ii: int|
                            0 <= ii < i && develop_full(stepv[ii]).contains(t);
                        assert(0 <= ii < i + 1 && develop_full(stepv[ii]).contains(t));
                    } else {
                        assert(develop_full(stepv[i as int]).contains(t));
                    }
                }
                assert forall|t: Seq<char>| goal.contains(t) implies seq_views(
                    r@,
                ).to_set().contains(t) by {
                    let ii = choose|ii: int|
                        0 <= ii < i + 1 && develop_full(stepv[ii]).contains(t);
                    if ii < i {
                        assert(racc.contains(t));
                    }
                }
            }
        }
        i += 1;
    }
    proof {
        let fin = Set::new(
            |t: Seq<char>| exists|ii: int| 0 <= ii < m && develop_full(stepv[ii]).contains(t),
        );
        assert(seq_views(r@).to_set() =~= develop_full(s)) by {
            assert(develop_full(s) == Set::new(
                |t: Seq<char>|
                    exists|k: int|
                        alt_valid(s, k) && develop_fuel(alt_rewrite(s, k), (cnt - 1) as nat).contains(
                            t,
                        ),
            ));
            assert forall|t: Seq<char>| fin.contains(t) implies develop_full(s).contains(t) by {
                let ii = choose|ii: int| 0 <= ii < m && develop_full(stepv[ii]).contains(t);
                assert(stepv.to_set().contains(stepv[ii]));
                let k = choose|k: int| alt_valid(s, k) && stepv[ii] == alt_rewrite(s, k);
                lemma_alt_rewrite_count(s, k);
                assert(develop_fuel(alt_rewrite(s, k), (cnt - 1) as nat).contains(t));
            }
            assert forall|t: Seq<char>| develop_full(s).contains(t) implies fin.contains(t) by {
                let k = choose|k: int|
                    alt_valid(s, k) && develop_fuel(alt_rewrite(s, k), (cnt - 1) as nat).contains(
                        t,
                    );
                lemma_alt_rewrite_count(s, k);
                assert(develop_innermost_spec(s).contains(alt_rewrite(s, k)));
                assert(stepv.to_set().contains(alt_rewrite(s, k)));
                let ii = choose|ii: int| 0 <= ii < stepv.len() && stepv[ii] == alt_rewrite(s, k);
                assert(develop_full(stepv[ii]).contains(t));
            }
        }
    }
    r
}

/// Whether `q` starts a line of `s`.
pub open spec fn line_start(s: Seq<char>, q: int) -> bool {
    q == 0 || s[q - 1] == '\n'
}

/// Where the captured path of an import statement at `q` begins:
/// after the leading whitespace, an optional visibility keyword and
/// the import keyword itself.
pub open spec fn use_cap_start(s: Seq<char>, q: int) -> int {
    let r = skip_ws_from(s, q);
    if match_at(s, "pub "@, r) {
        r + 8
    } else {
        r + 4
    }
}

/// The index of the statement delimiter of an import statement
/// beginning at line start `q`, or `-1` when no statement matches
/// there: optional whitespace, an optional visibility keyword, the
/// import keyword, then anything up to the first delimiter.
pub open spec fn use_end(s: Seq<char>, q: int) -> int {
    let r = skip_ws_from(s, q);
    let r2 = if match_at(s, "pub "@, r) {
        r + 4
    } else {
        r
    };
    if match_at(s, "use "@, r2) {
        find_char_from(s, ';', r2 + 4)
    } else {
        -1
    }
}

proof fn lemma_use_end_props(s: Seq<char>, q: int)
    requires
        0 <= q <= s.len(),
    ensures
        use_end(s, q) >= 0 ==> {
            let e = use_end(s, q);
            &&& q + 4 <= use_cap_start(s, q) <= e < s.len()
            &&& s[e] == ';'
        },
{
    reveal_strlit("pub ");
    reveal_strlit("use ");
    crate::text::lemma_skip_ws_from_props(s, q);
    let r = skip_ws_from(s, q);
    let r2 = if match_at(s, "pub "@, r) {
        r + 4
    } else {
        r
    };
    if match_at(s, "use "@, r2) {
        crate::text::lemma_find_char_from_props(s, ';', r2 + 4);
    }
}

/// The first line start at or after `q` where an import statement
/// begins, or `-1`.
pub open spec fn next_use(s: Seq<char>, q: int) -> int
    decreases s.len() - q,
{
    if q < 0 || q >= s.len() {
        -1
    } else if line_start(s, q) && use_end(s, q) >= 0 {
        q
    } else {
        next_use(s, q + 1)
    }
}

proof fn lemma_next_use_props(s: Seq<char>, q: int)
    requires
        0 <= q,
    ensures
        next_use(s, q) >= 0 ==> {
            let q2 = next_use(s, q);
            &&& q <= q2 < s.len()
            &&& line_start(s, q2)
            &&& use_end(s, q2) >= 0
        },
    decreases s.len() - q,
{
    if 0 <= q < s.len() && !(line_start(s, q) && use_end(s, q) >= 0) {
        lemma_next_use_props(s, q + 1);
    }
}

/// The captured texts of all import statements of `s` from `q` on,
/// leftmost first, each running from after its import keyword to
/// its delimiter; the scan resumes after each delimiter.
pub open spec fn parse_use_spec(s: Seq<char>, q: int) -> Seq<Seq<char>>
    decreases s.len() - q,
    via parse_use_spec_decreases
{
    let q2 = next_use(s, q);
    if q2 < 0 {
        Seq::empty()
    } else {
        seq![s.subrange(use_cap_start(s, q2), use_end(s, q2))] + parse_use_spec(
            s,
            use_end(s, q2) + 1,
        )
    }
}

#[via_fn]
proof fn parse_use_spec_decreases(s: Seq<char>, q: int) {
    let q2 = next_use(s, q);
    if q2 >= 0 {
        assert(q >= 0);
        lemma_next_use_props(s, q);
        lemma_use_end_props(s, q2);
    }
}

/// Tries to read an import statement at line start `q`: the capture
/// start and the delimiter index, if one matches there.
fn try_use_at(s: &str, q: usize) -> (r: Option<(usize, usize)>)
    requires
        q <= s@.len(),
    ensures
        match r {
            Some(p) => use_end(s@, q as int) == p.1 && use_cap_start(s@, q as int) == p.0,
            None => use_end(s@, q as int) < 0,
        },
{
    proof {
        reveal_strlit("pub ");
        reveal_strlit("use ");
        crate::text::lemma_skip_ws_from_props(s@, q as int);
    }
    let n = s.unicode_len();
    let r = crate::text::skip_ws_exec(s, q);
    let pub_here = crate::text::has_at(s, "pub ", r);
    proof {
        assert("pub "@.len() == 4);
        if pub_here {
            assert(r + 4 <= s@.len());
        }
    }
    let r2 = if pub_here {
        r + 4
    } else {
        r
    };
    let use_here = crate::text::has_at(s, "use ", r2);
    proof {
        assert("use "@.len() == 4);
        if use_here {
            assert(r2 + 4 <= s@.len());
        }
    }
    if use_here {
        match crate::text::find_char(s, ';', r2 + 4) {
            Some(e) => Some((r2 + 4, e)),
            None => None,
        }
    } else {
        None
    }
}

/// Collects the captured text of every import statement: at a line
/// start, optional whitespace, an optional visibility keyword and
/// the import keyword introduce a capture that runs to the first
/// statement delimiter.
pub fn parse_use(text: &str) -> (r: Vec<String>)
    ensures
        seq_views(r@) == parse_use_spec(text@, 0),
{
    let n = text.unicode_len();
    let mut acc: Vec<String> = Vec::new();
    let mut q: usize = 0;
    while q < n
        invariant
            n == text@.len(),
            q <= n,
            parse_use_spec(text@, 0) == seq_views(acc@) + parse_use_spec(text@, q as int),
        decreases n - q,
    {
        let is_start = q == 0 || text.get_char(q - 1) == '\n';
        if is_start {
            match try_use_at(text, q) {
                Some(p) => {
                    proof {
                        lemma_use_end_props(text@, q as int);
                        assert(next_use(text@, q as int) == q);
                    }
                    let cap = text.substring_char(p.0, p.1).to_owned();
                    let ghost acc0 = acc@;
                    acc.push(cap);
                    proof {
                        assert(seq_views(acc@) =~= seq_views(acc0).push(
                            text@.subrange(
                                use_cap_start(text@, q as int),
                                use_end(text@, q as int),
                            ),
                        ));
                        assert(parse_use_spec(text@, q as int) == seq![
                            text@.subrange(
                                use_cap_start(text@, q as int),
                                use_end(text@, q as int),
                            ),
                        ] + parse_use_spec(text@, use_end(text@, q as int) + 1));
                        assert(seq_views(acc0) + parse_use_spec(text@, q as int) =~= seq_views(acc@)
                            + parse_use_spec(text@, use_end(text@, q as int) + 1));
                    }
                    q = p.1 + 1;
                },
                None => {
                    proof {
                        assert(next_use(text@, q as int) == next_use(text@, q + 1));
                    }
                    q += 1;
                },
            }
        } else {
            proof {
                assert(next_use(text@, q as int) == next_use(text@, q + 1));
            }
            q += 1;
        }
    }
    proof {
        assert(next_use(text@, n as int) < 0);
        assert(parse_use_spec(text@, n as int) =~= Seq::<Seq<char>>::empty());
        assert(seq_views(acc@) + Seq::<Seq<char>>::empty() =~= seq_views(acc@));
    }
    acc
}

/// The components a classified dependency keeps: the classifier's
/// candidate path, except that an unrecognized root keeps the raw
/// tokens bare (the declaring unit's reduced path travels beside
/// them instead of being prepended).
pub open spec fn classified_components(
    comps: Seq<Seq<char>>,
    pkg: Seq<char>,
    fp: Seq<Seq<char>>,
) -> Seq<Seq<char>> {
    let red = crate::dependencies_processor::rust_processor::dependency_expander::reduced_path(fp);
    if comps[0] == pkg || comps[0] == "crate"@ {
        comps.drop_first()
    } else if comps[0] == "super"@ {
        let k = crate::dependencies_processor::rust_processor::dependency_expander::leading_supers(
            comps,
        );
        crate::dependencies_processor::rust_processor::dependency_expander::drop_n_back(red, k)
            + comps.subrange(k, comps.len() as int)
    } else if comps[0] == "self"@ {
        red + comps.drop_first()
    } else {
        comps
    }
}

/// The reduced unit path that travels with a possibly external
/// dependency; a recognized root carries none.
pub open spec fn classified_file_path(
    comps: Seq<Seq<char>>,
    pkg: Seq<char>,
    fp: Seq<Seq<char>>,
) -> Option<Seq<Seq<char>>> {
    if comps[0] == pkg || comps[0] == "crate"@ || comps[0] == "super"@ || comps[0] == "self"@ {
        None
    } else {
        Some(
            crate::dependencies_processor::rust_processor::dependency_expander::reduced_path(fp),
        )
    }
}

/// Classifies one raw dependency path against the declaring unit's
/// path and the package's own root name.
pub fn expand_dependency_components(
    dependency_components: &[String],
    pkg_name: &str,
    file_path: Vec<String>,
) -> (r: DependencyComponents)
    requires
        dependency_components@.len() > 0,
    ensures
        seq_views(r.components@) == classified_components(
            seq_views(dependency_components@),
            pkg_name@,
            seq_views(file_path@),
        ),
        match r.file_path {
            Some(v) => classified_file_path(
                seq_views(dependency_components@),
                pkg_name@,
                seq_views(file_path@),
            ) == Some(seq_views(v@)),
            None => classified_file_path(
                seq_views(dependency_components@),
                pkg_name@,
                seq_views(file_path@),
            ) is None,
        },
{
    let ghost comps = seq_views(dependency_components@);
    let ghost fp0 = seq_views(file_path@);
    let mut path = file_path;
    if path.len() > 0 && crate::text::str_eq(path[path.len() - 1].as_str(), "mod") {
        let _dropped = path.pop();
    }
    proof {
        assert(seq_views(path@)
            =~= crate::dependencies_processor::rust_processor::dependency_expander::reduced_path(
            fp0,
        ));
    }
    let ghost red =
        crate::dependencies_processor::rust_processor::dependency_expander::reduced_path(fp0);
    let n = dependency_components.len();
    let first = vstd::slice::slice_index_get(dependency_components, 0);
    if crate::text::str_eq(first.as_str(), pkg_name) || crate::text::str_eq(
        first.as_str(),
        "crate",
    ) {
        let p = crate::text::clone_strs_from(dependency_components, 1);
        proof {
            assert(seq_views(p@) =~= comps.drop_first());
        }
        DependencyComponents::new(p, None)
    } else if crate::text::str_eq(first.as_str(), "super") {
        let mut i: usize = 0;
        while i < n && crate::text::str_eq(
            vstd::slice::slice_index_get(dependency_components, i).as_str(),
            "super",
        )
            invariant
                n == dependency_components@.len(),
                comps == seq_views(dependency_components@),
                red
                    == crate::dependencies_processor::rust_processor::dependency_expander::reduced_path(
                    fp0,
                ),
                i <= n,
                forall|j: int| 0 <= j < i ==> comps[j] == "super"@,
                seq_views(path@)
                    == crate::dependencies_processor::rust_processor::dependency_expander::drop_n_back(
                    red,
                    i as int,
                ),
            decreases n - i,
        {
            proof {
                crate::dependencies_processor::rust_processor::dependency_expander::lemma_drop_n_back_step(
                    red,
                    i as int,
                );
            }
            if path.len() > 0 {
                let ghost pv = path@;
                let _dropped = path.pop();
                proof {
                    assert(seq_views(path@) =~= seq_views(pv).drop_last());
                }
            } else {
                proof {
                    assert(seq_views(path@) =~= Seq::<Seq<char>>::empty());
                }
            }
            i += 1;
        }
        proof {
            crate::dependencies_processor::rust_processor::dependency_expander::lemma_leading_supers_eq(
                comps,
                i as int,
            );
        }
        crate::text::append_strs_from(&mut path, dependency_components, i);
        DependencyComponents::new(path, None)
    } else if crate::text::str_eq(first.as_str(), "self") {
        crate::text::append_strs_from(&mut path, dependency_components, 1);
        proof {
            assert(comps.subrange(1, comps.len() as int) =~= comps.drop_first());
        }
        DependencyComponents::new(path, None)
    } else {
        let p = crate::text::clone_strs_from(dependency_components, 0);
        proof {
            assert(comps.subrange(0, comps.len() as int) =~= comps);
        }
        DependencyComponents::new(p, Some(path))
    }
}

/// Each piece trimmed of whitespace and a rename clause.
pub open spec fn trimmed_all(ps: Seq<Seq<char>>) -> Seq<Seq<char>> {
    ps.map_values(|p: Seq<char>| trimmed(p))
}

pub proof fn lemma_trimmed_all_push(ps: Seq<Seq<char>>, k: int)
    requires
        0 <= k < ps.len(),
    ensures
        trimmed_all(ps.subrange(0, k + 1)) == trimmed_all(ps.subrange(0, k)).push(trimmed(ps[k])),
{
    let lhs = trimmed_all(ps.subrange(0, k + 1));
    let rhs = trimmed_all(ps.subrange(0, k)).push(trimmed(ps[k]));
    assert forall|i: int| 0 <= i < lhs.len() implies lhs[i] == rhs[i] by {
        assert(lhs[i] == trimmed(ps.subrange(0, k + 1)[i]));
        if i < k {
            assert(rhs[i] == trimmed(ps.subrange(0, k)[i]));
            assert(ps.subrange(0, k)[i] == ps[i]);
        }
        assert(ps.subrange(0, k + 1)[i] == ps[i]);
    }
    assert(lhs =~= rhs);
}

/// One classified dependency, as its mathematical content.
pub open spec fn dc_view(dc: DependencyComponents) -> (Seq<Seq<char>>, Option<Seq<Seq<char>>>) {
    (
        seq_views(dc.components@),
        match dc.file_path {
            Some(v) => Some(seq_views(v@)),
            None => None,
        },
    )
}

/// A list of classified dependencies, as their contents.
pub open spec fn dcs_view(v: Seq<DependencyComponents>) -> Seq<
    (Seq<Seq<char>>, Option<Seq<Seq<char>>>),
> {
    v.map_values(|dc: DependencyComponents| dc_view(dc))
}

proof fn lemma_dcs_view_push(v: Seq<DependencyComponents>, dc: DependencyComponents)
    ensures
        dcs_view(v.push(dc)) == dcs_view(v).push(dc_view(dc)),
{
    let lhs = dcs_view(v.push(dc));
    let rhs = dcs_view(v).push(dc_view(dc));
    assert forall|i: int| 0 <= i < lhs.len() implies lhs[i] == rhs[i] by {
        assert(lhs[i] == dc_view(v.push(dc)[i]));
        if i < v.len() {
            assert(v.push(dc)[i] == v[i]);
            assert(rhs[i] == dc_view(v[i]));
        } else {
            assert(v.push(dc)[i] == dc);
        }
    }
    assert(lhs =~= rhs);
}

/// One fully expanded dependency string, split at the path separator
/// with each component trimmed of whitespace and a rename clause.
pub open spec fn components_of(dep: Seq<char>) -> Seq<Seq<char>> {
    trimmed_all(split_sub(dep, "::"@))
}

/// One expanded dependency string, classified.
pub open spec fn classify_dep(dep: Seq<char>, pkg: Seq<char>, fp: Seq<Seq<char>>) -> (
    Seq<Seq<char>>,
    Option<Seq<Seq<char>>>,
) {
    (
        classified_components(components_of(dep), pkg, fp),
        classified_file_path(components_of(dep), pkg, fp),
    )
}

/// Each expanded dependency string classified.
pub open spec fn classify_all(ds: Seq<Seq<char>>, pkg: Seq<char>, fp: Seq<Seq<char>>) -> Seq<
    (Seq<Seq<char>>, Option<Seq<Seq<char>>>),
> {
    ds.map_values(|d: Seq<char>| classify_dep(d, pkg, fp))
}

proof fn lemma_classify_all_push(ds: Seq<Seq<char>>, pkg: Seq<char>, fp: Seq<Seq<char>>, k: int)
    requires
        0 <= k < ds.len(),
    ensures
        classify_all(ds.subrange(0, k + 1), pkg, fp) == classify_all(
            ds.subrange(0, k),
            pkg,
            fp,
        ).push(classify_dep(ds[k], pkg, fp)),
{
    let lhs = classify_all(ds.subrange(0, k + 1), pkg, fp);
    let rhs = classify_all(ds.subrange(0, k), pkg, fp).push(classify_dep(ds[k], pkg, fp));
    assert forall|i: int| 0 <= i < lhs.len() implies lhs[i] == rhs[i] by {
        assert(lhs[i] == classify_dep(ds.subrange(0, k + 1)[i], pkg, fp));
        if i < k {
            assert(rhs[i] == classify_dep(ds.subrange(0, k)[i], pkg, fp));
            assert(ds.subrange(0, k)[i] == ds[i]);
        }
        assert(ds.subrange(0, k + 1)[i] == ds[i]);
    }
    assert(lhs =~= rhs);
}

/// All classified dependencies of one import statement's text: its
/// brace expansions, in their sorted set order, each classified.
pub open spec fn deps_of_use(u: Seq<char>, pkg: Seq<char>, fp: Seq<Seq<char>>) -> Seq<
    (Seq<Seq<char>>, Option<Seq<Seq<char>>>),
> {
    classify_all(crate::text::sorted_of(develop_full(u)), pkg, fp)
}

/// All classified dependencies of a list of import statements.
pub open spec fn deps_of_uses(uses: Seq<Seq<char>>, pkg: Seq<char>, fp: Seq<Seq<char>>) -> Seq<
    (Seq<Seq<char>>, Option<Seq<Seq<char>>>),
>
    decreases uses.len(),
{
    if uses.len() == 0 {
        Seq::empty()
    } else {
        deps_of_use(uses[0], pkg, fp) + deps_of_uses(uses.drop_first(), pkg, fp)
    }
}

/// Everything one unit's text declares: its text up to the test
/// cutoff, scanned for import statements, each brace-expanded and
/// classified.
pub open spec fn parse_dependencies_spec(
    text: Seq<char>,
    pkg: Seq<char>,
    fp: Seq<Seq<char>>,
) -> Seq<(Seq<Seq<char>>, Option<Seq<Seq<char>>>)> {
    deps_of_uses(parse_use_spec(cutoff(text), 0), pkg, fp)
}

/// Extracts and classifies every dependency one unit declares.
pub fn parse_dependencies(file_contents: &str, pkg_name: &str, file_path: Vec<String>) -> (r: Vec<
    DependencyComponents,
>)
    ensures
        dcs_view(r@) == parse_dependencies_spec(
            file_contents@,
            pkg_name@,
            seq_views(file_path@),
        ),
{
    let ghost fp0 = seq_views(file_path@);
    let before_tests = match keep_before_cfg_test(file_contents) {
        None => file_contents.to_owned(),
        Some(found) => found,
    };
    proof {
        assert(before_tests@ == cutoff(file_contents@));
    }
    let uses = parse_use(before_tests.as_str());
    let ghost uv = seq_views(uses@);
    let nu = uses.len();
    let mut out: Vec<DependencyComponents> = Vec::new();
    let mut i: usize = 0;
    while i < nu
        invariant
            nu == uses@.len(),
            uv == seq_views(uses@),
            fp0 == seq_views(file_path@),
            i <= nu,
            dcs_view(out@) == deps_of_uses(uv.subrange(0, i as int), pkg_name@, fp0),
        decreases nu - i,
    {
        let devs = develop_all_dependencies(uses[i].as_str());
        let ghost dview = crate::text::sorted_of(develop_full(uv[i as int]));
        proof {
            crate::text::lemma_sorted_of_eq(seq_views(devs@));
            assert(seq_views(devs@) == dview);
        }
        let nd = devs.len();
        let mut j: usize = 0;
        while j < nd
            invariant
                nd == devs@.len(),
                dview == seq_views(devs@),
                uv == seq_views(uses@),
                fp0 == seq_views(file_path@),
                i < nu,
                nu == uses@.len(),
                j <= nd,
                dcs_view(out@) == deps_of_uses(uv.subrange(0, i as int), pkg_name@, fp0)
                    + classify_all(dview.subrange(0, j as int), pkg_name@, fp0),
            decreases nd - j,
        {
            proof {
                reveal_strlit("::");
            }
            let pieces = crate::text::split_str(devs[j].as_str(), "::");
            let ghost pv = seq_views(pieces@);
            let np = pieces.len();
            proof {
                crate::text::lemma_split_sub_nonempty(devs@[j as int]@, "::"@);
                assert(pv.len() == pieces@.len());
            }
            let mut comps: Vec<String> = Vec::new();
            let mut k: usize = 0;
            while k < np
                invariant
                    np == pieces@.len(),
                    k <= np,
                    pv == seq_views(pieces@),
                    j < devs@.len(),
                    seq_views(comps@) == trimmed_all(pv.subrange(0, k as int)),
                decreases np - k,
            {
                let t = trim_spaces_and_as(pieces[k].as_str());
                let ghost c0 = comps@;
                comps.push(t);
                proof {
                    crate::text::lemma_seq_views_push(c0, t@);
                    lemma_trimmed_all_push(pv, k as int);
                    assert(pv[k as int] == pieces@[k as int]@);
                    assert(seq_views(comps@) == trimmed_all(pv.subrange(0, k + 1)));
                }
                k += 1;
            }
            proof {
                assert(pv.subrange(0, np as int) =~= pv);
                assert(pv == split_sub(devs@[j as int]@, "::"@));
                assert(seq_views(comps@) == components_of(devs@[j as int]@));
                assert(seq_views(comps@).len() >= 1);
                assert(comps@.len() >= 1);
            }
            let fp_clone = file_path.clone();
            proof {
                assert(seq_views(fp_clone@) =~= fp0);
            }
            let dc = expand_dependency_components(comps.as_slice(), pkg_name, fp_clone);
            let ghost out0 = out@;
            out.push(dc);
            proof {
                lemma_dcs_view_push(out0, dc);
                assert(dc_view(dc) == classify_dep(dview[j as int], pkg_name@, fp0));
                lemma_classify_all_push(dview, pkg_name@, fp0, j as int);
                assert(dcs_view(out@) =~= deps_of_uses(uv.subrange(0, i as int), pkg_name@, fp0)
                    + classify_all(dview.subrange(0, j + 1), pkg_name@, fp0));
            }
            j += 1;
        }
        proof {
            assert(dview.subrange(0, nd as int) =~= dview);
            assert(uv.subrange(0, i + 1).drop_last() =~= uv.subrange(0, i as int));
            lemma_deps_of_uses_push(uv.subrange(0, i + 1), pkg_name@, fp0);
            assert(uv.subrange(0, i + 1).last() == uv[i as int]);
            assert(dcs_view(out@) =~= deps_of_uses(uv.subrange(0, i + 1), pkg_name@, fp0));
        }
        i += 1;
    }
    proof {
        assert(uv.subrange(0, nu as int) =~= uv);
    }
    out
}

/// Splitting off the last statement splits its dependencies off the
/// back.
proof fn lemma_deps_of_uses_push(uses: Seq<Seq<char>>, pkg: Seq<char>, fp: Seq<Seq<char>>)
    requires
        uses.len() > 0,
    ensures
        deps_of_uses(uses, pkg, fp) == deps_of_uses(uses.drop_last(), pkg, fp) + deps_of_use(
            uses.last(),
            pkg,
            fp,
        ),
    decreases uses.len(),
{
    if uses.len() == 1 {
        assert(uses.drop_last() =~= Seq::<Seq<char>>::empty());
        assert(uses.drop_first() =~= Seq::<Seq<char>>::empty());
        assert(deps_of_uses(uses.drop_first(), pkg, fp) =~= Seq::<
            (Seq<Seq<char>>, Option<Seq<Seq<char>>>),
        >::empty());
        assert(deps_of_uses(uses, pkg, fp) =~= deps_of_use(uses[0], pkg, fp));
        assert(deps_of_uses(uses.drop_last(), pkg, fp) =~= Seq::<
            (Seq<Seq<char>>, Option<Seq<Seq<char>>>),
        >::empty());
        assert(deps_of_uses(uses, pkg, fp) =~= deps_of_uses(uses.drop_last(), pkg, fp)
            + deps_of_use(uses.last(), pkg, fp));
    } else {
        lemma_deps_of_uses_push(uses.drop_first(), pkg, fp);
        assert(uses.drop_first().drop_last() =~= uses.drop_last().drop_first());
        assert(uses.drop_first().last() == uses.last());
        assert(uses.drop_last()[0] == uses[0]);
        assert(uses.drop_last().len() > 0);
        assert(deps_of_uses(uses.drop_last(), pkg, fp) == deps_of_use(uses[0], pkg, fp)
            + deps_of_uses(uses.drop_last().drop_first(), pkg, fp));
        assert((deps_of_use(uses[0], pkg, fp) + deps_of_uses(uses.drop_first().drop_last(), pkg, fp))
            + deps_of_use(uses.last(), pkg, fp) =~= deps_of_use(uses[0], pkg, fp) + (deps_of_uses(
            uses.drop_first().drop_last(),
            pkg,
            fp,
        ) + deps_of_use(uses.last(), pkg, fp)));
    }
}

/// Whether an opening brace occurs anywhere in `text`.
fn has_open_brace(text: &str) -> (r: bool)
    ensures
        !r <==> (forall|j: int| 0 <= j < text@.len() ==> text@[j] != '{'),
{
    proof {
        crate::text::lemma_find_char_from_props(text@, '{', 0);
    }
    match crate::text::find_char(text, '{', 0) {
        Some(_f) => true,
        None => false,
    }
}

/// Finds the last closing brace.
fn last_close_exec(s: &str) -> (r: Option<usize>)
    ensures
        match r {
            Some(k) => last_close(s@) == k,
            None => last_close(s@) < 0,
        },
{
    let n = s.unicode_len();
    proof {
        assert(s@.subrange(0, n as int) =~= s@);
    }
    let mut i = n;
    while i > 0
        invariant
            n == s@.len(),
            i <= n,
            last_close(s@) == last_close(s@.subrange(0, i as int)),
        decreases i,
    {
        let ghost pre = s@.subrange(0, i as int);
        proof {
            assert(pre.drop_last() =~= s@.subrange(0, i - 1));
            assert(pre.last() == s@[i - 1]);
        }
        if s.get_char(i - 1) == '}' {
            return Some(i - 1);
        }
        i -= 1;
    }
    proof {
        assert(s@.subrange(0, 0) =~= Seq::<char>::empty());
    }
    None
}

proof fn lemma_singleton_strs(x: Seq<char>)
    ensures
        seq![x].to_set() == set![x],
        sorted_distinct(seq![x]),
{
    assert(seq![x][0] == x);
    assert(seq![x].contains(x));
    assert(seq![x].to_set() =~= set![x]) by {
        assert forall|t: Seq<char>| seq![x].to_set().contains(t) implies t == x by {
            let i = choose|i: int| 0 <= i < 1 && seq![x][i] == t;
        }
    }
}

/// Rewrites the innermost brace group of `text` once: each surviving
/// comma-separated alternative yields prefix + alternative + suffix.
/// Text without a group, or a group with no surviving alternative,
/// stays as it is.  The results come sorted and without duplicates.
pub fn develop_innermost_dependencies(text: &str) -> (r: Vec<String>)
    ensures
        sorted_distinct(seq_views(r@)),
        seq_views(r@).to_set() == develop_innermost_spec(text@),
{
    let n = text.unicode_len();
    let lc = match last_close_exec(text) {
        Some(lc) => lc,
        None => {
            let mut r: Vec<String> = Vec::new();
            r.push(text.to_owned());
            proof {
                assert(seq_views(r@) =~= seq![text@]);
                lemma_singleton_strs(text@);
            }
            return r;
        },
    };
    proof {
        lemma_last_close_props(text@);
    }
    let io = match last_open_before_exec(text, lc) {
        Some(io) => io,
        None => {
            let mut r: Vec<String> = Vec::new();
            r.push(text.to_owned());
            proof {
                assert(seq_views(r@) =~= seq![text@]);
                lemma_singleton_strs(text@);
            }
            return r;
        },
    };
    proof {
        lemma_pair_props(text@);
        crate::text::lemma_find_char_from_props(text@, '}', io + 1);
    }
    let jc = match crate::text::find_char(text, '}', io + 1) {
        Some(j) => j,
        None => {
            // the last closing brace lies beyond the opening one, so
            // this search cannot come back empty
            proof {
                lemma_last_close_props(text@);
                assert(false);
            }
            0
        },
    };
    let cap1 = text.substring_char(0, io);
    let cap2 = text.substring_char(io + 1, jc);
    let cap3 = text.substring_char(jc + 1, n);
    proof {
        reveal_strlit(",");
        assert(","@ =~= seq![',']);
        assert(cap1@ == group_prefix(text@));
        assert(cap2@ == group_body(text@));
        assert(cap3@ == group_suffix(text@));
    }
    let alts = crate::text::split_str(cap2, ",");
    let m = alts.len();
    let mut r: Vec<String> = Vec::new();
    let mut k: usize = 0;
    while k < m
        invariant
            m == alts@.len(),
            k <= m,
            seq_views(alts@) == group_alts(text@),
            cap1@ == group_prefix(text@),
            cap3@ == group_suffix(text@),
            sorted_distinct(seq_views(r@)),
            seq_views(r@).to_set() == Set::new(
                |t: Seq<char>|
                    exists|kk: int| kk < k && alt_valid(text@, kk) && t == alt_rewrite(text@, kk),
            ),
        decreases m - k,
    {
        let ghost rset0 = seq_views(r@).to_set();
        if !crate::text::all_ws_exec(alts[k].as_str()) {
            let mut combined = cap1.to_owned();
            combined.append(alts[k].as_str());
            combined.append(cap3);
            proof {
                assert(combined@ =~= alt_rewrite(text@, k as int));
            }
            crate::text::insert_sorted(&mut r, combined);
            proof {
                assert(seq_views(r@).to_set() =~= Set::new(
                    |t: Seq<char>|
                        exists|kk: int|
                            kk < k + 1 && alt_valid(text@, kk) && t == alt_rewrite(text@, kk),
                )) by {
                    assert forall|t: Seq<char>|
                        seq_views(r@).to_set().contains(t) implies Set::new(
                        |t: Seq<char>|
                            exists|kk: int|
                                kk < k + 1 && alt_valid(text@, kk) && t == alt_rewrite(text@, kk),
                    ).contains(t) by {
                        if t == alt_rewrite(text@, k as int) {
                            assert(alt_valid(text@, k as int) && t == alt_rewrite(text@, k as int));
                        } else {
                            assert(rset0.contains(t));
                            let kk = choose|kk: int|
                                kk < k && alt_valid(text@, kk) && t == alt_rewrite(text@, kk);
                            assert(kk < k + 1 && alt_valid(text@, kk) && t == alt_rewrite(
                                text@,
                                kk,
                            ));
                        }
                    }
                    assert forall|t: Seq<char>|
                        Set::new(
                            |t: Seq<char>|
                                exists|kk: int|
                                    kk < k + 1 && alt_valid(text@, kk) && t == alt_rewrite(
                                        text@,
                                        kk,
                                    ),
                        ).contains(t) implies seq_views(r@).to_set().contains(t) by {
                        let kk = choose|kk: int|
                            kk < k + 1 && alt_valid(text@, kk) && t == alt_rewrite(text@, kk);
                        if kk < k {
                            assert(rset0.contains(t));
                        } else {
                            assert(t == alt_rewrite(text@, k as int));
                        }
                    }
                }
            }
        } else {
            proof {
                assert(seq_views(r@).to_set() =~= Set::new(
                    |t: Seq<char>|
                        exists|kk: int|
                            kk < k + 1 && alt_valid(text@, kk) && t == alt_rewrite(text@, kk),
                )) by {
                    assert forall|t: Seq<char>|
                        Set::new(
                            |t: Seq<char>|
                                exists|kk: int|
                                    kk < k + 1 && alt_valid(text@, kk) && t == alt_rewrite(
                                        text@,
                                        kk,
                                    ),
                        ).contains(t) implies seq_views(r@).to_set().contains(t) by {
                        let kk = choose|kk: int|
                            kk < k + 1 && alt_valid(text@, kk) && t == alt_rewrite(text@, kk);
                        assert(kk < k);
                    }
                }
            }
        }
        k += 1;
    }
    if r.len() == 0 {
        proof {
            assert forall|kk: int| !alt_valid(text@, kk) by {
                if alt_valid(text@, kk) {
                    assert(seq_views(r@).to_set().contains(alt_rewrite(text@, kk)));
                    assert(seq_views(r@).contains(alt_rewrite(text@, kk)));
                }
            }
        }
        let mut r2: Vec<String> = Vec::new();
        r2.push(text.to_owned());
        proof {
            assert(seq_views(r2@) =~= seq![text@]);
            lemma_singleton_strs(text@);
        }
        return r2;
    }
    proof {
        assert(exists|kk: int| alt_valid(text@, kk)) by {
            assert(seq_views(r@).to_set().contains(seq_views(r@)[0]));
        }
        assert(seq_views(r@).to_set() =~= develop_innermost_spec(text@));
    }
    r
}

/// Finds the last opening brace before `bound`.
fn last_open_before_exec(s: &str, bound: usize) -> (r: Option<usize>)
    requires
        bound <= s@.len(),
    ensures
        match r {
            Some(k) => last_open_before(s@, bound as int) == k,
            None => last_open_before(s@, bound as int) < 0,
        },
{
    let mut i = bound;
    while i > 0
        invariant
            bound <= s@.len(),
            i <= bound,
            last_open_before(s@, bound as int) == last_open_before(s@, i as int),
        decreases i,
    {
        if s.get_char(i - 1) == '{' {
            return Some(i - 1);
        }
        i -= 1;
    }
    None
}

} // verus!
