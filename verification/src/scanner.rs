//! The token scanner: normalizes each input line, tokenizes it, classifies
//! tokens by the uppercase-led naming heuristic, and accumulates a sorted,
//! duplicate-free set of type names.

use vstd::prelude::*;
use crate::order::{NameSet, contains_seq, strictly_sorted, views_of};

verus! {

/// An ASCII letter or digit.
pub open spec fn is_ascii_alnum(c: char) -> bool {
    ('a' <= c && c <= 'z') || ('A' <= c && c <= 'Z') || ('0' <= c && c <= '9')
}

/// An ASCII uppercase letter.
pub open spec fn is_ascii_upper(c: char) -> bool {
    'A' <= c && c <= 'Z'
}

/// Normalization of one character: letters and digits pass through, every
/// other character becomes a single space.
pub open spec fn norm_char(c: char) -> char {
    if is_ascii_alnum(c) {
        c
    } else {
        ' '
    }
}

/// The normalized form of a line: each character that is not an ASCII
/// letter or digit replaced by a space. Length-preserving.
pub open spec fn normalize(s: Seq<char>) -> Seq<char> {
    s.map_values(|c: char| norm_char(c))
}

/// The sequence with leading and trailing spaces removed.
pub open spec fn trim_spaces(s: Seq<char>) -> Seq<char>
    decreases s.len(),
{
    if s.len() == 0 {
        s
    } else if s[0] == ' ' {
        trim_spaces(s.drop_first())
    } else if s.last() == ' ' {
        trim_spaces(s.drop_last())
    } else {
        s
    }
}

/// The normalized line with surrounding whitespace trimmed; this is what
/// the prefix checks and the tokenizer look at.
pub open spec fn trimmed_line(s: Seq<char>) -> Seq<char> {
    trim_spaces(normalize(s))
}

pub open spec fn starts_with_seq(s: Seq<char>, p: Seq<char>) -> bool {
    p.len() <= s.len() && s.subrange(0, p.len() as int) == p
}

pub open spec fn import_prefix() -> Seq<char> {
    "import "@
}

pub open spec fn comment_prefix() -> Seq<char> {
    "//"@
}

/// A line contributes no tokens when, after normalization and trimming, it
/// is empty or begins with `import ` or `//`. (Normalization has already
/// turned every slash into a space, so the `//` test never fires; it is
/// kept because the scanner is specified with it.)
pub open spec fn line_skipped(s: Seq<char>) -> bool {
    let t = trimmed_line(s);
    t.len() == 0 || starts_with_seq(t, import_prefix()) || starts_with_seq(t, comment_prefix())
}

/// Positions `i..j` hold a maximal run of letters and digits: a token of
/// the line. Splitting the trimmed normalized line on whitespace yields
/// exactly these runs, since normalization maps every other character to a
/// space.
pub open spec fn is_token_at(s: Seq<char>, i: int, j: int) -> bool {
    &&& 0 <= i < j <= s.len()
    &&& forall|k: int| i <= k < j ==> is_ascii_alnum(#[trigger] s[k])
    &&& (i == 0 || !is_ascii_alnum(s[i - 1]))
    &&& (j == s.len() || !is_ascii_alnum(s[j]))
}

/// `t` occurs as a token of the line `s`.
pub open spec fn has_token(s: Seq<char>, t: Seq<char>) -> bool {
    exists|i: int, j: int| is_token_at(s, i, j) && s.subrange(i, j) == t
}

/// The uppercase-identifier pattern: one ASCII uppercase letter followed
/// by one or more ASCII letters or digits, spanning the whole token.
pub open spec fn is_type_name(t: Seq<char>) -> bool {
    &&& t.len() >= 2
    &&& is_ascii_upper(t[0])
    &&& forall|k: int| 1 <= k < t.len() ==> is_ascii_alnum(#[trigger] t[k])
}

/// The bracket-wrapped form `[Name]`, where the inner identifier matches
/// the uppercase-identifier pattern.
pub open spec fn is_bracketed(t: Seq<char>) -> bool {
    &&& t.len() >= 2
    &&& t[0] == '['
    &&& t.last() == ']'
    &&& is_type_name(t.subrange(1, t.len() - 1))
}

/// What a token yields: the token itself when it matches the plain
/// pattern, the inner identifier when it matches the bracket-wrapped form,
/// nothing otherwise.
pub open spec fn accepted_of(t: Seq<char>) -> Option<Seq<char>> {
    if is_type_name(t) {
        Some(t)
    } else if is_bracketed(t) {
        Some(t.subrange(1, t.len() - 1))
    } else {
        None
    }
}

/// Line `s` puts `name` into the scanner's output: the line is not
/// skipped, and one of its tokens yields `name`.
pub open spec fn line_contributes(s: Seq<char>, name: Seq<char>) -> bool {
    &&& !line_skipped(s)
    &&& exists|t: Seq<char>| #[trigger] has_token(s, t) && accepted_of(t) == Some(name)
}

/// The scanner's whole contract: `names` is strictly ascending (hence free
/// of duplicates) and holds exactly the names contributed by some line.
pub open spec fn scan_output(lines: Seq<Seq<char>>, names: Seq<Seq<char>>) -> bool {
    &&& strictly_sorted(names)
    &&& forall|t: Seq<char>|
        #![trigger contains_seq(names, t)]
        contains_seq(names, t) <==> exists|i: int|
            0 <= i < lines.len() && line_contributes(#[trigger] lines[i], t)
}

proof fn lemma_trim_all_spaces(t: Seq<char>)
    requires
        forall|k: int| 0 <= k < t.len() ==> t[k] == ' ',
    ensures
        trim_spaces(t).len() == 0,
    decreases t.len(),
{
    if t.len() > 0 {
        lemma_trim_all_spaces(t.drop_first());
    }
}

/// Trimming removes exactly the spaces around the window `a..b` that the
/// first and last non-space characters delimit.
proof fn lemma_trim_window(t: Seq<char>, a: int, b: int)
    requires
        0 <= a < b <= t.len(),
        t[a] != ' ',
        t[b - 1] != ' ',
        forall|k: int| 0 <= k < a ==> t[k] == ' ',
        forall|k: int| b <= k < t.len() ==> t[k] == ' ',
    ensures
        trim_spaces(t) == t.subrange(a, b),
    decreases t.len(),
{
    if a > 0 {
        lemma_trim_window(t.drop_first(), a - 1, b - 1);
        assert(t.drop_first().subrange(a - 1, b - 1) =~= t.subrange(a, b));
    } else if b < t.len() {
        assert(t.last() == ' ');
        lemma_trim_window(t.drop_last(), a, b);
        assert(t.drop_last().subrange(a, b) =~= t.subrange(a, b));
    } else {
        assert(t.subrange(a, b) =~= t);
    }
}

/// Decides whether a line is skipped: empty after normalization and
/// trimming, or carrying the `import ` prefix. (The `//` prefix of the
/// specification can never survive normalization, so no code tests it.)
pub fn line_is_skipped(line: &str) -> (r: bool)
    ensures
        r == line_skipped(line@),
{
    let n: usize = line.unicode_len();
    let mut a: usize = 0;
    while a < n && !alnum_char(line.get_char(a))
        invariant
            a <= n,
            n == line@.len(),
            forall|k: int| 0 <= k < a ==> !is_ascii_alnum(#[trigger] line@[k]),
        decreases n - a,
    {
        a = a + 1;
    }
    if a == n {
        proof {
            let s = line@;
            assert forall|k: int| 0 <= k < normalize(s).len() implies normalize(s)[k] == ' ' by {
                assert(normalize(s)[k] == norm_char(s[k]));
            }
            lemma_trim_all_spaces(normalize(s));
        }
        return true;
    }
    let mut b: usize = n;
    while b > a + 1 && !alnum_char(line.get_char(b - 1))
        invariant
            a + 1 <= b <= n,
            n == line@.len(),
            a < n,
            is_ascii_alnum(line@[a as int]),
            forall|k: int| b <= k < n ==> !is_ascii_alnum(#[trigger] line@[k]),
        decreases b,
    {
        b = b - 1;
    }
    let is_import = b - a >= 7 && line.get_char(a) == 'i' && line.get_char(a + 1) == 'm'
        && line.get_char(a + 2) == 'p' && line.get_char(a + 3) == 'o' && line.get_char(a + 4)
        == 'r' && line.get_char(a + 5) == 't' && !alnum_char(line.get_char(a + 6));
    proof {
        let s = line@;
        let nm = normalize(s);
        let av = a as int;
        let bv = b as int;
        assert(is_ascii_alnum(s[bv - 1]));
        assert forall|k: int| 0 <= k < nm.len() implies nm[k] == norm_char(s[k]) by {}
        assert(nm[av] != ' ');
        assert(nm[bv - 1] != ' ');
        assert forall|k: int| 0 <= k < av implies nm[k] == ' ' by {}
        assert forall|k: int| bv <= k < nm.len() implies nm[k] == ' ' by {}
        lemma_trim_window(nm, av, bv);
        let t = trimmed_line(s);
        assert(t == nm.subrange(av, bv));
        assert(t.len() == bv - av >= 1);
        reveal_strlit("import ");
        reveal_strlit("//");
        assert(comment_prefix().len() == 2);
        assert(import_prefix().len() == 7);
        assert(t[0] == norm_char(s[av]) && norm_char(s[av]) == s[av]);
        assert(!starts_with_seq(t, comment_prefix())) by {
            if starts_with_seq(t, comment_prefix()) {
                assert(t.subrange(0, 2)[0] == comment_prefix()[0]);
                assert(t[0] == '/');
            }
        }
        if is_import {
            assert(starts_with_seq(t, import_prefix())) by {
                assert forall|m: int| 0 <= m < 7 implies t.subrange(0, 7)[m]
                    == import_prefix()[m] by {
                    assert(t[m] == norm_char(s[av + m]));
                }
                assert(t.subrange(0, 7) =~= import_prefix());
            }
        } else {
            assert(!starts_with_seq(t, import_prefix())) by {
                if starts_with_seq(t, import_prefix()) {
                    assert forall|m: int| 0 <= m < 7 implies t[m] == import_prefix()[m] by {
                        assert(t.subrange(0, 7)[m] == import_prefix()[m]);
                    }
                    assert(t.len() >= 7 && bv - av >= 7);
                    assert(t[0] == norm_char(s[av]) && t[0] == 'i');
                    assert(t[1] == norm_char(s[av + 1]) && t[1] == 'm');
                    assert(t[2] == norm_char(s[av + 2]) && t[2] == 'p');
                    assert(t[3] == norm_char(s[av + 3]) && t[3] == 'o');
                    assert(t[4] == norm_char(s[av + 4]) && t[4] == 'r');
                    assert(t[5] == norm_char(s[av + 5]) && t[5] == 't');
                    assert(t[6] == norm_char(s[av + 6]) && t[6] == ' ');
                    assert(s[av] == 'i' && s[av + 1] == 'm' && s[av + 2] == 'p' && s[av + 3]
                        == 'o' && s[av + 4] == 'r' && s[av + 5] == 't');
                    assert(!is_ascii_alnum(s[av + 6]));
                }
            }
        }
    }
    is_import
}

fn alnum_char(c: char) -> (r: bool)
    ensures
        r == is_ascii_alnum(c),
{
    ('a' <= c && c <= 'z') || ('A' <= c && c <= 'Z') || ('0' <= c && c <= '9')
}

fn upper_char(c: char) -> (r: bool)
    ensures
        r == is_ascii_upper(c),
{
    'A' <= c && c <= 'Z'
}

/// Decides the uppercase-identifier pattern.
pub fn token_is_type_name(t: &str) -> (r: bool)
    ensures
        r == is_type_name(t@),
{
    let n: usize = t.unicode_len();
    if n < 2 {
        return false;
    }
    if !upper_char(t.get_char(0)) {
        return false;
    }
    let mut k: usize = 1;
    while k < n
        invariant
            1 <= k <= n,
            n == t@.len(),
            is_ascii_upper(t@[0]),
            forall|m: int| 1 <= m < k ==> is_ascii_alnum(#[trigger] t@[m]),
        decreases n - k,
    {
        if !alnum_char(t.get_char(k)) {
            return false;
        }
        k = k + 1;
    }
    true
}

/// Extracts the inner identifier of a bracket-wrapped token, when the
/// token has that form.
pub fn bracket_inner(t: &str) -> (r: Option<String>)
    ensures
        match r {
            Some(inner) => is_bracketed(t@) && inner@ == t@.subrange(1, t@.len() - 1),
            None => !is_bracketed(t@),
        },
{
    let n: usize = t.unicode_len();
    if n < 4 {
        return None;
    }
    if t.get_char(0) != '[' {
        return None;
    }
    if t.get_char(n - 1) != ']' {
        return None;
    }
    let inner = t.substring_char(1, n - 1);
    if token_is_type_name(inner) {
        Some(inner.to_owned())
    } else {
        None
    }
}

/// Classifies one token: the token itself when it matches the plain
/// pattern, the inner identifier of a bracket-wrapped token, or nothing.
pub fn accept_token(t: &str) -> (r: Option<String>)
    ensures
        match r {
            Some(name) => accepted_of(t@) == Some(name@),
            None => accepted_of(t@) is None,
        },
{
    if token_is_type_name(t) {
        return Some(t.to_owned());
    }
    bracket_inner(t)
}

/// `name` is yielded by some token of `s` that ends at or before `pos`.
pub open spec fn yields_upto(s: Seq<char>, name: Seq<char>, pos: int) -> bool {
    exists|i: int, j: int|
        #[trigger] is_token_at(s, i, j) && j <= pos && accepted_of(s.subrange(i, j)) == Some(name)
}

/// The only token that ends inside `start..=cur` is `start..cur` itself,
/// when `start..cur` is a maximal run of letters and digits.
proof fn lemma_token_window(s: Seq<char>, start: int, cur: int, i2: int, j2: int)
    requires
        0 <= start < cur <= s.len(),
        forall|k: int| start <= k < cur ==> is_ascii_alnum(#[trigger] s[k]),
        start == 0 || !is_ascii_alnum(s[start - 1]),
        cur == s.len() || !is_ascii_alnum(s[cur]),
        is_token_at(s, i2, j2),
        start < j2 <= cur,
    ensures
        i2 == start && j2 == cur,
{
    assert(is_ascii_alnum(s[j2 - 1]));
    if j2 < cur {
        assert(is_ascii_alnum(s[j2]));
        assert(false);
    }
    if i2 > start {
        assert(is_ascii_alnum(s[i2 - 1]));
        assert(false);
    }
    if i2 < start {
        assert(is_ascii_alnum(s[start - 1]));
        assert(false);
    }
}

/// How the set of names yielded so far grows when the scan passes the
/// maximal run `start..cur` and the separator after it.
proof fn lemma_window_yields(s: Seq<char>, start: int, cur: int, p: int)
    requires
        0 <= start < cur <= s.len(),
        p == if cur < s.len() {
            cur + 1
        } else {
            cur
        },
        forall|k: int| start <= k < cur ==> is_ascii_alnum(#[trigger] s[k]),
        start == 0 || !is_ascii_alnum(s[start - 1]),
        cur == s.len() || !is_ascii_alnum(s[cur]),
    ensures
        forall|t: Seq<char>| #[trigger]
            yields_upto(s, t, p) <==> (yields_upto(s, t, start) || accepted_of(
                s.subrange(start, cur),
            ) == Some(t)),
{
    assert forall|t: Seq<char>| #[trigger]
        yields_upto(s, t, p) <==> (yields_upto(s, t, start) || accepted_of(
            s.subrange(start, cur),
        ) == Some(t)) by {
        if yields_upto(s, t, p) {
            let (i2, j2) = choose|i2: int, j2: int|
                #[trigger] is_token_at(s, i2, j2) && j2 <= p && accepted_of(s.subrange(i2, j2))
                    == Some(t);
            if j2 <= start {
                assert(yields_upto(s, t, start));
            } else if j2 <= cur {
                lemma_token_window(s, start, cur, i2, j2);
            } else {
                assert(j2 == cur + 1 && cur < s.len());
                assert(is_ascii_alnum(s[j2 - 1]));
                assert(false);
            }
        }
        if yields_upto(s, t, start) {
            let (i2, j2) = choose|i2: int, j2: int|
                #[trigger] is_token_at(s, i2, j2) && j2 <= start && accepted_of(
                    s.subrange(i2, j2),
                ) == Some(t);
            assert(is_token_at(s, i2, j2) && j2 <= p && accepted_of(s.subrange(i2, j2)) == Some(
                t,
            ));
        }
        if accepted_of(s.subrange(start, cur)) == Some(t) {
            assert(is_token_at(s, start, cur));
            assert(is_token_at(s, start, cur) && cur <= p && accepted_of(s.subrange(start, cur))
                == Some(t));
        }
    }
}

/// Scans one line and inserts every name it contributes into `set`.
fn scan_line_into(line: &str, set: &mut NameSet)
    requires
        old(set).wf(),
    ensures
        final(set).wf(),
        forall|t: Seq<char>|
            #![trigger contains_seq(final(set)@, t)]
            #![trigger contains_seq(old(set)@, t)]
            contains_seq(final(set)@, t) <==> (contains_seq(old(set)@, t) || line_contributes(
                line@,
                t,
            )),
{
    let ghost s = line@;
    let ghost base = old(set)@;
    if line_is_skipped(line) {
        return;
    }
    let n: usize = line.unicode_len();
    let mut i: usize = 0;
    while i < n
        invariant
            i <= n,
            n == s.len(),
            s == line@,
            !line_skipped(s),
            set.wf(),
            i == n || i == 0 || !is_ascii_alnum(s[i - 1]),
            forall|t: Seq<char>|
                #![trigger contains_seq(set@, t)]
                contains_seq(set@, t) <==> (contains_seq(base, t) || yields_upto(
                    s,
                    t,
                    i as int,
                )),
        decreases n - i,
    {
        let c = line.get_char(i);
        if !alnum_char(c) {
            proof {
                assert forall|t: Seq<char>|
                    yields_upto(s, t, i + 1) <==> yields_upto(s, t, i as int) by {
                    if yields_upto(s, t, i + 1) {
                        let (i2, j2) = choose|i2: int, j2: int|
                            #[trigger] is_token_at(s, i2, j2) && j2 <= i + 1 && accepted_of(
                                s.subrange(i2, j2),
                            ) == Some(t);
                        if j2 == i + 1 {
                            assert(is_ascii_alnum(s[j2 - 1]));
                            assert(false);
                        }
                        assert(is_token_at(s, i2, j2) && j2 <= i as int && accepted_of(
                            s.subrange(i2, j2),
                        ) == Some(t));
                    }
                    if yields_upto(s, t, i as int) {
                        let (i2, j2) = choose|i2: int, j2: int|
                            #[trigger] is_token_at(s, i2, j2) && j2 <= i as int && accepted_of(
                                s.subrange(i2, j2),
                            ) == Some(t);
                        assert(is_token_at(s, i2, j2) && j2 <= i + 1 && accepted_of(
                            s.subrange(i2, j2),
                        ) == Some(t));
                    }
                }
                assert forall|t: Seq<char>|
                    #![trigger contains_seq(set@, t)]
                    contains_seq(set@, t) <==> (contains_seq(base, t) || yields_upto(
                        s,
                        t,
                        i + 1,
                    )) by {
                    assert(contains_seq(set@, t) <==> (contains_seq(base, t) || yields_upto(
                        s,
                        t,
                        i as int,
                    )));
                    assert(yields_upto(s, t, i + 1) <==> yields_upto(s, t, i as int));
                }
            }
            i = i + 1;
        } else {
            let start = i;
            proof {
                assert(start == 0 || !is_ascii_alnum(s[start as int - 1]));
                assert(is_ascii_alnum(s[start as int]));
            }
            while i < n && alnum_char(line.get_char(i))
                invariant
                    start <= i <= n,
                    n == s.len(),
                    s == line@,
                    forall|k: int| start <= k < i ==> is_ascii_alnum(#[trigger] s[k]),
                decreases n - i,
            {
                i = i + 1;
            }
            let cur = i;
            proof {
                assert(start < cur);
                assert(is_token_at(s, start as int, cur as int));
            }
            let tok = line.substring_char(start, cur);
            let ghost pre = set@;
            let ghost acc = accepted_of(s.subrange(start as int, cur as int));
            match accept_token(tok) {
                Some(name) => {
                    proof {
                        assert(acc == Some(name@));
                    }
                    set.insert(name);
                    proof {
                        assert forall|t: Seq<char>|
                            contains_seq(set@, t) <==> (contains_seq(pre, t) || acc == Some(
                                t,
                            )) by {}
                    }
                },
                None => {
                    proof {
                        assert forall|t: Seq<char>|
                            contains_seq(set@, t) <==> (contains_seq(pre, t) || acc == Some(
                                t,
                            )) by {}
                    }
                },
            }
            if i < n {
                i = i + 1;
            }
            proof {
                lemma_window_yields(s, start as int, cur as int, i as int);
                assert forall|t: Seq<char>|
                    #![trigger contains_seq(set@, t)]
                    contains_seq(set@, t) <==> (contains_seq(base, t) || yields_upto(
                        s,
                        t,
                        i as int,
                    )) by {
                    assert(contains_seq(set@, t) <==> (contains_seq(pre, t) || acc == Some(t)));
                    assert(contains_seq(pre, t) <==> (contains_seq(base, t) || yields_upto(
                        s,
                        t,
                        start as int,
                    )));
                    assert(yields_upto(s, t, i as int) <==> (yields_upto(s, t, start as int)
                        || acc == Some(t)));
                }
            }
        }
    }
    proof {
        assert forall|t: Seq<char>|
            #![trigger line_contributes(s, t)]
            line_contributes(s, t) <==> yields_upto(s, t, n as int) by {
            if line_contributes(s, t) {
                let t2 = choose|t2: Seq<char>| #[trigger]
                    has_token(s, t2) && accepted_of(t2) == Some(t);
                let (i2, j2) = choose|i2: int, j2: int|
                    #[trigger] is_token_at(s, i2, j2) && s.subrange(i2, j2) == t2;
                assert(is_token_at(s, i2, j2) && j2 <= n as int && accepted_of(s.subrange(i2, j2))
                    == Some(t));
            }
            if yields_upto(s, t, n as int) {
                let (i2, j2) = choose|i2: int, j2: int|
                    #[trigger] is_token_at(s, i2, j2) && j2 <= n as int && accepted_of(
                        s.subrange(i2, j2),
                    ) == Some(t);
                assert(has_token(s, s.subrange(i2, j2)));
            }
        }
    }
}

/// Extracts the type names of all lines: the result is ascending, free of
/// duplicates, and holds exactly the names some line contributes.
pub fn extract_type_names(lines: &Vec<String>) -> (names: Vec<String>)
    ensures
        scan_output(views_of(lines@), views_of(names@)),
{
    let ghost lv = views_of(lines@);
    let mut set = NameSet::new();
    let mut li: usize = 0;
    while li < lines.len()
        invariant
            li <= lines.len(),
            lv == views_of(lines@),
            set.wf(),
            forall|t: Seq<char>|
                #![trigger contains_seq(set@, t)]
                contains_seq(set@, t) <==> exists|i: int|
                    0 <= i < li && line_contributes(#[trigger] lv[i], t),
        decreases lines.len() - li,
    {
        let ghost prev = set@;
        let cur_line: &String = &lines[li];
        scan_line_into(cur_line.as_str(), &mut set);
        proof {
            assert(cur_line@ == lines@[li as int]@);
            assert(lv[li as int] == lines@[li as int]@);
            assert forall|t: Seq<char>|
                contains_seq(set@, t) implies exists|i: int|
                    0 <= i < li + 1 && line_contributes(#[trigger] lv[i], t) by {
                assert(contains_seq(prev, t) || line_contributes(lv[li as int], t));
                if contains_seq(prev, t) {
                    let i = choose|i: int| 0 <= i < li && line_contributes(#[trigger] lv[i], t);
                    assert(0 <= i < li + 1 && line_contributes(lv[i], t));
                } else {
                    assert(line_contributes(lv[li as int], t));
                }
            }
            assert forall|t: Seq<char>|
                (exists|i: int| 0 <= i < li + 1 && line_contributes(#[trigger] lv[i], t)) implies
                    contains_seq(set@, t) by {
                let i = choose|i: int| 0 <= i < li + 1 && line_contributes(#[trigger] lv[i], t);
                if i < li {
                    assert(contains_seq(prev, t));
                } else {
                    assert(line_contributes(lv[li as int], t));
                }
            }
        }
        li = li + 1;
    }
    set.into_names()
}

pub open spec fn newline() -> Seq<char> {
    "\n"@
}

/// The first `k` names, each followed by a line break.
pub open spec fn joined(v: Seq<Seq<char>>, k: int) -> Seq<char>
    decreases k,
{
    if k <= 0 {
        Seq::empty()
    } else {
        joined(v, k - 1) + v[k - 1] + newline()
    }
}

/// The output artifact's text: every name on a line of its own.
pub open spec fn joined_lines(v: Seq<Seq<char>>) -> Seq<char> {
    joined(v, v.len() as int)
}

/// Renders the name list as the scanner's output text, one name per line.
pub fn render_output(names: &Vec<String>) -> (out: String)
    ensures
        out@ == joined_lines(views_of(names@)),
{
    let ghost v = views_of(names@);
    let mut out = String::new();
    let mut k: usize = 0;
    while k < names.len()
        invariant
            k <= names.len(),
            v == views_of(names@),
            out@ == joined(v, k as int),
        decreases names.len() - k,
    {
        out.append(names[k].as_str());
        out.append("\n");
        k = k + 1;
    }
    out
}

/// When no line holds a token matching the uppercase-identifier pattern,
/// the scanner's output is empty.
pub proof fn lemma_no_matching_token_empty_output(lines: Seq<Seq<char>>, names: Seq<Seq<char>>)
    requires
        scan_output(lines, names),
        forall|i: int, t: Seq<char>|
            0 <= i < lines.len() && #[trigger] has_token(lines[i], t) ==> !is_type_name(t),
    ensures
        names.len() == 0,
{
    if names.len() > 0 {
        let t0 = names[0];
        assert(contains_seq(names, t0));
        let i = choose|i: int| 0 <= i < lines.len() && line_contributes(#[trigger] lines[i], t0);
        let tk = choose|tk: Seq<char>| #[trigger]
            has_token(lines[i], tk) && accepted_of(tk) == Some(t0);
        let (i2, j2) = choose|i2: int, j2: int|
            #[trigger] is_token_at(lines[i], i2, j2) && lines[i].subrange(i2, j2) == tk;
        assert(tk[0] == lines[i][i2]);
        assert(is_ascii_alnum(tk[0]));
        assert(!is_type_name(tk));
        assert(!is_bracketed(tk));
        assert(false);
    }
}

/// The scanner is deterministic: its contract pins the output down, so two
/// runs over the same input yield the same names; in particular, repeated
/// occurrences of a token can never yield a duplicated line.
pub proof fn lemma_scan_deterministic(
    lines: Seq<Seq<char>>,
    names1: Seq<Seq<char>>,
    names2: Seq<Seq<char>>,
)
    requires
        scan_output(lines, names1),
        scan_output(lines, names2),
    ensures
        names1 == names2,
{
    assert forall|t: Seq<char>|
        #![trigger contains_seq(names1, t)]
        #![trigger contains_seq(names2, t)]
        contains_seq(names1, t) <==> contains_seq(names2, t) by {}
    crate::order::lemma_sorted_unique(names1, names2);
}

} // verus!
