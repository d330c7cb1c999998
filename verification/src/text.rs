//! Character-level text utilities shared by the parser, the storage engine
//! and the scanner.
//!
//! All text processing in this crate works on `Vec<char>` so that contracts
//! can be stated directly over `Seq<char>`, the view that `str` and `String`
//! share.

use vstd::prelude::*;

verus! {

/// Relies on str::chars: yields exactly the characters of the string.
#[verifier::external_body]
pub fn chars_vec(s: &str) -> (r: Vec<char>)
    ensures
        r@ == s@,
{
    s.chars().collect()
}

/// Relies on core's char iterator collected into String: the resulting
/// string holds exactly the given characters.
#[verifier::external_body]
pub fn string_from_chars(v: &Vec<char>) -> (r: String)
    ensures
        r@ == v@,
{
    v.iter().collect()
}

/// Lower-cases an ASCII letter; other characters are unchanged.
pub open spec fn lower_char(c: char) -> char {
    if 'A' <= c && c <= 'Z' {
        ((c as u8) + 32) as char
    } else {
        c
    }
}

/// The sequence with every ASCII letter lower-cased.
pub open spec fn lower_seq(s: Seq<char>) -> Seq<char> {
    s.map_values(|c: char| lower_char(c))
}

pub fn to_ascii_lower(s: &Vec<char>) -> (r: Vec<char>)
    ensures
        r@ == lower_seq(s@),
{
    let mut r: Vec<char> = Vec::new();
    let mut i: usize = 0;
    while i < s.len()
        invariant
            i <= s.len(),
            r@ == lower_seq(s@).take(i as int),
        decreases s.len() - i,
    {
        let c = s[i];
        if 'A' <= c && c <= 'Z' {
            let b = c as u8;
            r.push((b + 32) as char);
        } else {
            r.push(c);
        }
        proof {
            assert(lower_seq(s@).take(i + 1) =~= lower_seq(s@).take(i as int).push(
                lower_char(s@[i as int]),
            ));
        }
        i += 1;
    }
    proof {
        assert(lower_seq(s@).take(s@.len() as int) =~= lower_seq(s@));
    }
    r
}

/// Characters the scanner and parser treat as whitespace: ASCII space,
/// tab, line and page breaks.
pub open spec fn is_space(c: char) -> bool {
    c == ' ' || c == '\t' || c == '\n' || c == '\r' || c == '\u{b}' || c == '\u{c}'
}

pub fn is_space_char(c: char) -> (r: bool)
    ensures
        r == is_space(c),
{
    c == ' ' || c == '\t' || c == '\n' || c == '\r' || c == '\u{b}' || c == '\u{c}'
}

/// Index of the first non-space character, or the length if all are spaces.
pub open spec fn trim_start_idx(s: Seq<char>) -> int
    decreases s.len(),
{
    if s.len() == 0 {
        0
    } else if is_space(s[0]) {
        1 + trim_start_idx(s.skip(1))
    } else {
        0
    }
}

/// One past the last non-space character, or 0 if all are spaces.
pub open spec fn trim_end_idx(s: Seq<char>) -> int
    decreases s.len(),
{
    if s.len() == 0 {
        0
    } else if is_space(s[s.len() - 1]) {
        trim_end_idx(s.take(s.len() - 1))
    } else {
        s.len() as int
    }
}

/// The sequence with leading and trailing spaces removed.
pub open spec fn trim_seq(s: Seq<char>) -> Seq<char> {
    let a = trim_start_idx(s);
    let b = trim_end_idx(s);
    if a <= b {
        s.subrange(a, b)
    } else {
        Seq::empty()
    }
}

proof fn lemma_trim_start_idx_bounds(s: Seq<char>)
    ensures
        0 <= trim_start_idx(s) <= s.len(),
        forall|i: int| 0 <= i < trim_start_idx(s) ==> is_space(s[i]),
        trim_start_idx(s) < s.len() ==> !is_space(s[trim_start_idx(s)]),
    decreases s.len(),
{
    if s.len() != 0 && is_space(s[0]) {
        lemma_trim_start_idx_bounds(s.skip(1));
        assert forall|i: int| 0 <= i < trim_start_idx(s) implies is_space(s[i]) by {
            if i > 0 {
                assert(s.skip(1)[i - 1] == s[i]);
            }
        }
        if trim_start_idx(s) < s.len() {
            assert(s.skip(1)[trim_start_idx(s) - 1] == s[trim_start_idx(s)]);
        }
    }
}

proof fn lemma_trim_end_idx_bounds(s: Seq<char>)
    ensures
        0 <= trim_end_idx(s) <= s.len(),
        forall|i: int| trim_end_idx(s) <= i < s.len() ==> is_space(s[i]),
        trim_end_idx(s) > 0 ==> !is_space(s[trim_end_idx(s) - 1]),
    decreases s.len(),
{
    if s.len() != 0 && is_space(s[s.len() - 1]) {
        lemma_trim_end_idx_bounds(s.take(s.len() - 1));
        assert forall|i: int| trim_end_idx(s) <= i < s.len() implies is_space(s[i]) by {
            if i < s.len() - 1 {
                assert(s.take(s.len() - 1)[i] == s[i]);
            }
        }
    }
}

pub fn trim(s: &Vec<char>) -> (r: Vec<char>)
    ensures
        r@ == trim_seq(s@),
{
    proof {
        lemma_trim_start_idx_bounds(s@);
        lemma_trim_end_idx_bounds(s@);
    }
    let mut a: usize = 0;
    while a < s.len() && is_space_char(s[a])
        invariant
            0 <= a <= s.len(),
            forall|i: int| 0 <= i < a ==> is_space(s@[i]),
        decreases s.len() - a,
    {
        a += 1;
    }
    let mut b: usize = s.len();
    while b > a && is_space_char(s[b - 1])
        invariant
            a <= b <= s.len(),
            forall|i: int| b <= i < s.len() ==> is_space(s@[i]),
        decreases b,
    {
        b -= 1;
    }
    proof {
        lemma_trim_agrees(s@, a as int, b as int);
    }
    let mut r: Vec<char> = Vec::new();
    let mut i: usize = a;
    while i < b
        invariant
            a <= i <= b <= s.len(),
            r@ == s@.subrange(a as int, i as int),
        decreases b - i,
    {
        r.push(s[i]);
        proof {
            assert(s@.subrange(a as int, i + 1) =~= s@.subrange(a as int, i as int).push(
                s@[i as int],
            ));
        }
        i += 1;
    }
    r
}

/// ASCII letters and digits.
pub open spec fn ascii_alnum(c: char) -> bool {
    ('a' <= c && c <= 'z') || ('A' <= c && c <= 'Z') || ('0' <= c && c <= '9')
}

/// Whether char::is_alphanumeric holds of `c`; opaque beyond the ASCII range.
pub uninterp spec fn unicode_alnum(c: char) -> bool;

/// Relies on char::is_alphanumeric: on ASCII it holds exactly of letters and
/// digits; beyond ASCII the result is a fixed property of the character.
#[verifier::external_body]
pub fn is_alnum_char(c: char) -> (r: bool)
    ensures
        r == unicode_alnum(c),
        ascii_alnum(c) ==> r,
        (c as u32) < 128 && !ascii_alnum(c) ==> !r,
{
    c.is_alphanumeric()
}

/// Whether char::is_alphabetic holds of `c`; opaque beyond the ASCII range.
pub uninterp spec fn unicode_alpha(c: char) -> bool;

/// Relies on char::is_alphabetic: on ASCII it holds exactly of letters;
/// beyond ASCII the result is a fixed property of the character.
#[verifier::external_body]
pub fn is_alpha_char(c: char) -> (r: bool)
    ensures
        r == unicode_alpha(c),
        ('a' <= c && c <= 'z') || ('A' <= c && c <= 'Z') ==> r,
        (c as u32) < 128 && !(('a' <= c && c <= 'z') || ('A' <= c && c <= 'Z')) ==> !r,
{
    c.is_alphabetic()
}

/// `pat` occurs in `s` at position `i`.
pub open spec fn matches_at(s: Seq<char>, pat: Seq<char>, i: int) -> bool {
    0 <= i && i + pat.len() <= s.len() && s.subrange(i, i + pat.len()) =~= pat
}

/// `pat` occurs somewhere in `s`.
pub open spec fn contains_sub(s: Seq<char>, pat: Seq<char>) -> bool {
    exists|i: int| matches_at(s, pat, i)
}

/// Checks one candidate position.
pub fn matches_at_exec(s: &Vec<char>, pat: &Vec<char>, i: usize) -> (r: bool)
    requires
        i <= s@.len(),
    ensures
        r == matches_at(s@, pat@, i as int),
{
    if pat.len() > s.len() - i {
        proof {
            assert(!matches_at(s@, pat@, i as int));
        }
        return false;
    }
    let mut j: usize = 0;
    while j < pat.len()
        invariant
            0 <= j <= pat.len(),
            i + pat.len() <= s.len(),
            forall|k: int| 0 <= k < j ==> s@[i + k] == pat@[k],
        decreases pat.len() - j,
    {
        if s[i + j] != pat[j] {
            proof {
                assert(s@.subrange(i as int, i + pat@.len())[j as int] == s@[i + j]);
            }
            return false;
        }
        j += 1;
    }
    proof {
        assert(s@.subrange(i as int, i + pat@.len()) =~= pat@);
    }
    true
}


/// The least position at or after `from` where `pat` occurs, if any.
pub open spec fn find_first(s: Seq<char>, pat: Seq<char>, from: int) -> Option<int>
    decreases s.len() - from,
    when 0 <= from <= s.len()
{
    if matches_at(s, pat, from) {
        Some(from)
    } else if from >= s.len() {
        None
    } else {
        find_first(s, pat, from + 1)
    }
}

pub proof fn lemma_find_first_char(s: Seq<char>, pat: Seq<char>, from: int)
    requires
        0 <= from <= s.len(),
    ensures
        match find_first(s, pat, from) {
            Some(i) => from <= i && matches_at(s, pat, i) && forall|j: int|
                from <= j < i ==> !matches_at(s, pat, j),
            None => forall|j: int| from <= j ==> !matches_at(s, pat, j),
        },
    decreases s.len() - from,
{
    if matches_at(s, pat, from) {
    } else if from >= s.len() {
        assert forall|j: int| from <= j implies !matches_at(s, pat, j) by {
            if j + pat.len() <= s.len() {
                assert(j == from && pat.len() == 0);
            }
        }
    } else {
        lemma_find_first_char(s, pat, from + 1);
    }
}

/// First occurrence of `pat` in `s` at or after `from`.
pub fn find_sub(s: &Vec<char>, pat: &Vec<char>, from: usize) -> (r: Option<usize>)
    requires
        from <= s@.len(),
    ensures
        match r {
            Some(i) => from <= i && matches_at(s@, pat@, i as int) && forall|j: int|
                from <= j < i ==> !matches_at(s@, pat@, j),
            None => forall|j: int| from <= j ==> !matches_at(s@, pat@, j),
        },
        match r {
            Some(i) => find_first(s@, pat@, from as int) == Some(i as int),
            None => find_first(s@, pat@, from as int) is None,
        },
{
    proof {
        lemma_find_first_char(s@, pat@, from as int);
    }
    if pat.len() == 0 {
        proof {
            assert(s@.subrange(from as int, from as int) =~= pat@);
        }
        return Some(from);
    }
    let mut i: usize = from;
    while i < s.len()
        invariant
            from <= i <= s.len(),
            pat@.len() >= 1,
            forall|j: int| from <= j < i ==> !matches_at(s@, pat@, j),
        decreases s.len() - i,
    {
        if matches_at_exec(s, pat, i) {
            proof {
                lemma_find_first_char(s@, pat@, from as int);
            }
            return Some(i);
        }
        i += 1;
    }
    proof {
        assert forall|j: int| from <= j implies !matches_at(s@, pat@, j) by {
            if j >= s@.len() {
                assert(j + pat@.len() > s@.len());
            }
        }
    }
    None
}

pub fn contains_sub_exec(s: &Vec<char>, pat: &Vec<char>) -> (r: bool)
    ensures
        r == contains_sub(s@, pat@),
{
    match find_sub(s, pat, 0) {
        Some(_) => true,
        None => {
            proof {
                assert forall|i: int| !matches_at(s@, pat@, i) by {
                    if 0 <= i {
                    }
                }
            }
            false
        },
    }
}

/// `s` starts with `pat`.
pub open spec fn has_prefix(s: Seq<char>, pat: Seq<char>) -> bool {
    matches_at(s, pat, 0)
}

pub fn has_prefix_exec(s: &Vec<char>, pat: &Vec<char>) -> (r: bool)
    ensures
        r == has_prefix(s@, pat@),
{
    matches_at_exec(s, pat, 0)
}

/// `s` ends with `pat`.
pub open spec fn has_suffix(s: Seq<char>, pat: Seq<char>) -> bool {
    matches_at(s, pat, s.len() - pat.len())
}

pub fn has_suffix_exec(s: &Vec<char>, pat: &Vec<char>) -> (r: bool)
    ensures
        r == has_suffix(s@, pat@),
{
    if pat.len() > s.len() {
        proof {
            assert(!matches_at(s@, pat@, s@.len() - pat@.len()));
        }
        false
    } else {
        matches_at_exec(s, pat, s.len() - pat.len())
    }
}

pub fn seq_eq(a: &Vec<char>, b: &Vec<char>) -> (r: bool)
    ensures
        r == (a@ =~= b@),
{
    if a.len() != b.len() {
        return false;
    }
    let mut i: usize = 0;
    while i < a.len()
        invariant
            0 <= i <= a.len(),
            a@.len() == b@.len(),
            forall|k: int| 0 <= k < i ==> a@[k] == b@[k],
        decreases a.len() - i,
    {
        if a[i] != b[i] {
            return false;
        }
        i += 1;
    }
    true
}

pub fn subrange_vec(s: &Vec<char>, from: usize, to: usize) -> (r: Vec<char>)
    requires
        from <= to <= s@.len(),
    ensures
        r@ == s@.subrange(from as int, to as int),
{
    let mut r: Vec<char> = Vec::new();
    let mut i: usize = from;
    while i < to
        invariant
            from <= i <= to <= s@.len(),
            r@ == s@.subrange(from as int, i as int),
        decreases to - i,
    {
        r.push(s[i]);
        proof {
            assert(s@.subrange(from as int, i + 1) =~= s@.subrange(from as int, i as int).push(
                s@[i as int],
            ));
        }
        i += 1;
    }
    r
}

pub fn append_vec(dst: &mut Vec<char>, src: &Vec<char>)
    ensures
        final(dst)@ == old(dst)@ + src@,
{
    let mut i: usize = 0;
    while i < src.len()
        invariant
            0 <= i <= src@.len(),
            dst@ == old(dst)@ + src@.take(i as int),
        decreases src.len() - i,
    {
        dst.push(src[i]);
        proof {
            assert(old(dst)@ + src@.take(i + 1) =~= (old(dst)@ + src@.take(i as int)).push(
                src@[i as int],
            ));
        }
        i += 1;
    }
    proof {
        assert(src@.take(src@.len() as int) =~= src@);
    }
}

/// The parts joined with `sep` between consecutive parts.
pub open spec fn join_seq(parts: Seq<Seq<char>>, sep: Seq<char>) -> Seq<char>
    decreases parts.len(),
{
    if parts.len() == 0 {
        Seq::empty()
    } else if parts.len() == 1 {
        parts[0]
    } else {
        parts[0] + sep + join_seq(parts.skip(1), sep)
    }
}

pub proof fn lemma_join_push(parts: Seq<Seq<char>>, sep: Seq<char>, p: Seq<char>)
    ensures
        join_seq(parts.push(p), sep) =~= if parts.len() == 0 {
            p
        } else {
            join_seq(parts, sep) + sep + p
        },
    decreases parts.len(),
{
    if parts.len() == 0 {
        assert(parts.push(p).len() == 1);
        assert(join_seq(parts.push(p), sep) == parts.push(p)[0]);
    } else if parts.len() == 1 {
        assert(parts.push(p).skip(1) =~= seq![p]);
        assert(join_seq(parts.push(p), sep) == parts[0] + sep + join_seq(seq![p], sep));
    } else {
        assert(parts.push(p).skip(1) =~= parts.skip(1).push(p));
        lemma_join_push(parts.skip(1), sep, p);
    }
}

pub fn join_with(parts: &Vec<Vec<char>>, sep: &Vec<char>) -> (r: Vec<char>)
    ensures
        r@ == join_seq(parts.deep_view(), sep@),
{
    let mut r: Vec<char> = Vec::new();
    let mut i: usize = 0;
    while i < parts.len()
        invariant
            0 <= i <= parts@.len(),
            r@ == join_seq(parts.deep_view().take(i as int), sep@),
        decreases parts.len() - i,
    {
        if i > 0 {
            append_vec(&mut r, sep);
        }
        append_vec(&mut r, &parts[i]);
        proof {
            assert(parts.deep_view().take(i + 1) =~= parts.deep_view().take(i as int).push(
                parts.deep_view()[i as int],
            ));
            lemma_join_push(parts.deep_view().take(i as int), sep@, parts.deep_view()[i as int]);
            assert(parts.deep_view()[i as int] == parts@[i as int]@);
        }
        i += 1;
    }
    proof {
        assert(parts.deep_view().take(parts@.len() as int) =~= parts.deep_view());
    }
    r
}

/// Splits on every occurrence of `sep`. The result is pinned down by its
/// shape: no part contains the separator and the parts joined with the
/// separator give back the input.
pub fn split_char(s: &Vec<char>, sep: char) -> (r: Vec<Vec<char>>)
    ensures
        r@.len() >= 1,
        join_seq(r.deep_view(), seq![sep]) =~= s@,
        forall|i: int| 0 <= i < r@.len() ==> !r.deep_view()[i].contains(sep),
{
    let mut r: Vec<Vec<char>> = Vec::new();
    let mut cur: Vec<char> = Vec::new();
    let mut i: usize = 0;
    while i < s.len()
        invariant
            0 <= i <= s@.len(),
            join_seq(r.deep_view().push(cur@), seq![sep]) =~= s@.take(i as int),
            forall|k: int| 0 <= k < r@.len() ==> !r.deep_view()[k].contains(sep),
            !cur@.contains(sep),
        decreases s.len() - i,
    {
        let ghost prev_parts = r.deep_view();
        let ghost prev_cur = cur@;
        let c = s[i];
        if c == sep {
            r.push(cur);
            cur = Vec::new();
            proof {
                assert(r.deep_view() =~~= prev_parts.push(prev_cur));
                lemma_join_push(prev_parts.push(prev_cur), seq![sep], Seq::empty());
                lemma_join_push(prev_parts, seq![sep], prev_cur);
                assert(join_seq(r.deep_view().push(cur@), seq![sep]) =~= s@.take(i + 1));
            }
        } else {
            cur.push(c);
            proof {
                lemma_join_push(prev_parts, seq![sep], prev_cur);
                lemma_join_push(prev_parts, seq![sep], prev_cur.push(c));
                assert(join_seq(r.deep_view().push(cur@), seq![sep]) =~= s@.take(i + 1));
                assert forall|k: int| 0 <= k < cur@.len() implies cur@[k] != sep by {
                    if k < prev_cur.len() {
                        assert(!prev_cur.contains(sep));
                    }
                }
                assert(!cur@.contains(sep));
            }
        }
        i += 1;
    }
    let ghost prev_parts = r.deep_view();
    let ghost prev_cur = cur@;
    r.push(cur);
    proof {
        assert(r.deep_view() =~~= prev_parts.push(prev_cur));
        assert(s@.take(s@.len() as int) =~= s@);
    }
    r
}

/// Lexicographic order on character sequences by code point; on strings this
/// agrees with the byte order that std uses for `str` comparison.
pub open spec fn lex_le(a: Seq<char>, b: Seq<char>) -> bool
    decreases a.len(),
{
    if a.len() == 0 {
        true
    } else if b.len() == 0 {
        false
    } else if a[0] == b[0] {
        lex_le(a.skip(1), b.skip(1))
    } else {
        a[0] < b[0]
    }
}

pub fn lex_le_exec(a: &Vec<char>, b: &Vec<char>) -> (r: bool)
    ensures
        r == lex_le(a@, b@),
{
    let mut i: usize = 0;
    proof {
        assert(a@.skip(0) =~= a@);
        assert(b@.skip(0) =~= b@);
    }
    loop
        invariant
            0 <= i <= a@.len(),
            i <= b@.len(),
            lex_le(a@, b@) == lex_le(a@.skip(i as int), b@.skip(i as int)),
        decreases a.len() - i,
    {
        let ghost ga = a@.skip(i as int);
        let ghost gb = b@.skip(i as int);
        if i >= a.len() {
            proof {
                assert(ga.len() == 0);
            }
            return true;
        }
        if i >= b.len() {
            proof {
                assert(gb.len() == 0 && ga.len() > 0);
            }
            return false;
        }
        let ca = a[i];
        let cb = b[i];
        if ca != cb {
            proof {
                assert(ga[0] == a@[i as int] && gb[0] == b@[i as int]);
            }
            return ca < cb;
        }
        proof {
            assert(ga[0] == a@[i as int] && gb[0] == b@[i as int]);
            assert(ga.skip(1) =~= a@.skip(i + 1));
            assert(gb.skip(1) =~= b@.skip(i + 1));
        }
        i += 1;
    }
}

pub proof fn lemma_lex_le_total(a: Seq<char>, b: Seq<char>)
    ensures
        lex_le(a, b) || lex_le(b, a),
        lex_le(a, b) && lex_le(b, a) ==> a =~= b,
    decreases a.len(),
{
    if a.len() == 0 {
    } else if b.len() == 0 {
    } else if a[0] == b[0] {
        lemma_lex_le_total(a.skip(1), b.skip(1));
        if lex_le(a.skip(1), b.skip(1)) && lex_le(b.skip(1), a.skip(1)) {
            assert(a.skip(1) =~= b.skip(1));
            assert(a =~= seq![a[0]] + a.skip(1));
            assert(b =~= seq![b[0]] + b.skip(1));
            assert(a =~= b);
        }
    } else {
        
    }
}

pub proof fn lemma_lex_le_trans(a: Seq<char>, b: Seq<char>, c: Seq<char>)
    requires
        lex_le(a, b),
        lex_le(b, c),
    ensures
        lex_le(a, c),
    decreases a.len(),
{
    if a.len() != 0 && b.len() != 0 && c.len() != 0 {
        if a[0] == b[0] && b[0] == c[0] {
            lemma_lex_le_trans(a.skip(1), b.skip(1), c.skip(1));
        }
    }
}

/// If `a` counts leading spaces up to a non-space (or to `b`), and `b` counts
/// trailing spaces down to a non-space (or to `a`), the pair agrees with the
/// trim indices.
proof fn lemma_trim_agrees(s: Seq<char>, a: int, b: int)
    requires
        0 <= a <= b <= s.len(),
        forall|i: int| 0 <= i < a ==> is_space(s[i]),
        a < s.len() && a < b ==> !is_space(s[a]),
        a == b ==> forall|i: int| a <= i < s.len() ==> is_space(s[i]),
        forall|i: int| b <= i < s.len() ==> is_space(s[i]),
        a < b ==> !is_space(s[b - 1]),
    ensures
        trim_seq(s) =~= s.subrange(a, b),
    decreases s.len(),
{
    lemma_trim_start_idx_bounds(s);
    lemma_trim_end_idx_bounds(s);
    if a == b {
        // all spaces: trim_start_idx == s.len() or trim_end <= trim_start
        if trim_start_idx(s) < trim_end_idx(s) {
            assert(!is_space(s[trim_start_idx(s)]));
            assert(is_space(s[trim_start_idx(s)]));
        }
    } else {
        assert(trim_start_idx(s) == a) by {
            if trim_start_idx(s) < a {
                assert(is_space(s[trim_start_idx(s)]));
            }
            if trim_start_idx(s) > a {
                assert(is_space(s[a]));
            }
        }
        assert(trim_end_idx(s) == b) by {
            if trim_end_idx(s) < b {
                assert(is_space(s[b - 1]));
            }
            if trim_end_idx(s) > b {
                assert(is_space(s[trim_end_idx(s) - 1]));
            }
        }
    }
}

/// Decimal digit.
pub open spec fn is_digit(c: char) -> bool {
    '0' <= c && c <= '9'
}

pub open spec fn digit_val(c: char) -> int {
    (c as u8) - 48
}

pub open spec fn all_digits(s: Seq<char>) -> bool {
    forall|i: int| 0 <= i < s.len() ==> is_digit(s[i])
}

/// Value of a digit string, most significant digit first.
pub open spec fn digits_val(s: Seq<char>) -> int
    decreases s.len(),
{
    if s.len() == 0 {
        0
    } else {
        digits_val(s.drop_last()) * 10 + digit_val(s.last())
    }
}

pub proof fn lemma_digits_val_bounds(s: Seq<char>)
    requires
        all_digits(s),
    ensures
        digits_val(s) >= 0,
        s.len() > 0 ==> digits_val(s) >= digits_val(s.drop_last()),
    decreases s.len(),
{
    if s.len() > 0 {
        assert(all_digits(s.drop_last())) by {
            assert(forall|i: int| 0 <= i < s.len() - 1 ==> s.drop_last()[i] == s[i]);
        }
        lemma_digits_val_bounds(s.drop_last());
    }
}

/// The digit part of an unsigned decimal literal: an optional leading `+`
/// is allowed, as std's integer parsing does.
pub open spec fn unsigned_body(s: Seq<char>) -> Seq<char> {
    if s.len() > 0 && s[0] == '+' {
        s.skip(1)
    } else {
        s
    }
}

/// `s` parses as a `u32` exactly as str::parse::<u32> accepts it.
pub open spec fn is_u32_str(s: Seq<char>) -> bool {
    let d = unsigned_body(s);
    d.len() > 0 && all_digits(d) && digits_val(d) <= u32::MAX
}

/// Parses the character sequence as a `u32`; `None` exactly on the inputs
/// that std's parser rejects (bad shape or out of range).
pub fn parse_u32_chars(v: &Vec<char>) -> (r: Option<u32>)
    ensures
        r is Some <==> is_u32_str(v@),
        r matches Some(x) ==> x == digits_val(unsigned_body(v@)),
{
    let start: usize = if v.len() > 0 && v[0] == '+' {
        1
    } else {
        0
    };
    let ghost d = unsigned_body(v@);
    proof {
        assert(d =~= v@.skip(start as int));
    }
    if start >= v.len() {
        return None;
    }
    let mut i: usize = start;
    let mut acc: u64 = 0;
    while i < v.len()
        invariant
            start <= i <= v@.len(),
            start < v@.len(),
            d == v@.skip(start as int),
            d == unsigned_body(v@),
            all_digits(d.take(i - start)),
            acc == digits_val(d.take(i - start)),
            acc <= u32::MAX,
        decreases v.len() - i,
    {
        let c = v[i];
        if !('0' <= c && c <= '9') {
            proof {
                assert(d[i - start] == v@[i as int]);
                assert(!is_digit(d[i - start]));
            }
            return None;
        }
        let dv: u64 = (c as u8 - 48) as u64;
        let next: u64 = acc * 10 + dv;
        proof {
            assert(d.take(i - start + 1).drop_last() =~= d.take(i - start));
            assert(d.take(i - start + 1).last() == d[i - start] == v@[i as int]);
            lemma_all_digits_push(d, i - start);
        }
        if next > 0xFFFF_FFFF {
            proof {
                lemma_digits_val_past_bound(d, i - start + 1, u32::MAX as int);
            }
            return None;
        }
        acc = next;
        i += 1;
    }
    proof {
        assert(d.take(d.len() as int) =~= d);
    }
    Some(acc as u32)
}

/// Extending a digit prefix by one digit keeps every position a digit.
proof fn lemma_all_digits_push(d: Seq<char>, k: int)
    requires
        0 <= k < d.len(),
        all_digits(d.take(k)),
        is_digit(d[k]),
    ensures
        all_digits(d.take(k + 1)),
{
    assert forall|j: int| 0 <= j < k + 1 implies is_digit(#[trigger] d.take(k + 1)[j]) by {
        if j < k {
            assert(d.take(k + 1)[j] == d.take(k)[j]);
        } else {
            assert(d.take(k + 1)[j] == d[k]);
        }
    }
}

/// The shape that str::parse::<i64> accepts: optional sign, then digits.
pub open spec fn signed_body(s: Seq<char>) -> Seq<char> {
    if s.len() > 0 && (s[0] == '+' || s[0] == '-') {
        s.skip(1)
    } else {
        s
    }
}

pub open spec fn signed_negative(s: Seq<char>) -> bool {
    s.len() > 0 && s[0] == '-'
}

pub open spec fn i64_str_val(s: Seq<char>) -> int {
    if signed_negative(s) {
        -digits_val(signed_body(s))
    } else {
        digits_val(signed_body(s))
    }
}

pub open spec fn is_i64_str(s: Seq<char>) -> bool {
    let d = signed_body(s);
    d.len() > 0 && all_digits(d) && i64::MIN <= i64_str_val(s) <= i64::MAX
}

/// Parses the character sequence as an `i64`; `None` exactly on the inputs
/// that std's parser rejects.
pub fn parse_i64_chars(v: &Vec<char>) -> (r: Option<i64>)
    ensures
        r is Some <==> is_i64_str(v@),
        r matches Some(x) ==> x == i64_str_val(v@),
{
    let negative: bool = v.len() > 0 && v[0] == '-';
    let start: usize = if v.len() > 0 && (v[0] == '+' || v[0] == '-') {
        1
    } else {
        0
    };
    let ghost d = signed_body(v@);
    proof {
        assert(d =~= v@.skip(start as int));
    }
    if start >= v.len() {
        return None;
    }
    let mut i: usize = start;
    let mut acc: u64 = 0;
    let bound: u64 = if negative {
        0x8000_0000_0000_0000
    } else {
        0x7FFF_FFFF_FFFF_FFFF
    };
    while i < v.len()
        invariant
            start <= i <= v@.len(),
            start < v@.len(),
            d == v@.skip(start as int),
            d == signed_body(v@),
            negative == signed_negative(v@),
            bound == if negative { 0x8000_0000_0000_0000u64 } else { 0x7FFF_FFFF_FFFF_FFFFu64 },
            all_digits(d.take(i - start)),
            acc == digits_val(d.take(i - start)),
            acc <= bound,
        decreases v.len() - i,
    {
        let c = v[i];
        if !('0' <= c && c <= '9') {
            proof {
                assert(d[i - start] == v@[i as int]);
                assert(!is_digit(d[i - start]));
            }
            return None;
        }
        let dv: u64 = (c as u8 - 48) as u64;
        let next_opt = acc.checked_mul(10);
        let next: u64 = match next_opt {
            Some(m) => match m.checked_add(dv) {
                Some(n) => n,
                None => {
                    proof {
                        assert(d.take(i - start + 1).drop_last() =~= d.take(i - start));
                        assert(d.take(i - start + 1).last() == d[i - start] == v@[i as int]);
                        lemma_all_digits_push(d, i - start);
                        lemma_digits_val_past_bound(d, i - start + 1, bound as int);
                    }
                    return None;
                },
            },
            None => {
                proof {
                    assert(d.take(i - start + 1).drop_last() =~= d.take(i - start));
                    assert(d.take(i - start + 1).last() == d[i - start] == v@[i as int]);
                    lemma_all_digits_push(d, i - start);
                    lemma_digits_val_past_bound(d, i - start + 1, bound as int);
                }
                return None;
            },
        };
        proof {
            assert(d.take(i - start + 1).drop_last() =~= d.take(i - start));
            assert(d.take(i - start + 1).last() == d[i - start] == v@[i as int]);
            lemma_all_digits_push(d, i - start);
        }
        if next > bound {
            proof {
                lemma_digits_val_past_bound(d, i - start + 1, bound as int);
            }
            return None;
        }
        acc = next;
        i += 1;
    }
    proof {
        assert(d.take(d.len() as int) =~= d);
    }
    if negative {
        if acc == 0x8000_0000_0000_0000 {
            Some(i64::MIN)
        } else {
            Some(-(acc as i64))
        }
    } else {
        Some(acc as i64)
    }
}

/// If some all-digit prefix already exceeds the bound, the whole string,
/// if it is all digits, also exceeds it.
pub proof fn lemma_digits_val_past_bound(d: Seq<char>, k: int, bound: int)
    requires
        0 < k <= d.len(),
        all_digits(d.take(k)),
        bound >= 0,
        digits_val(d.take(k)) > bound,
    ensures
        all_digits(d) ==> digits_val(d) > bound,
    decreases d.len() - k,
{
    if all_digits(d) {
        if k < d.len() {
            assert(d.take(k + 1).drop_last() =~= d.take(k));
            assert(d.take(k + 1).last() == d[k]);
            assert(is_digit(d[k]));
            lemma_all_digits_push(d, k);
            assert(digits_val(d.take(k + 1)) == digits_val(d.take(k)) * 10 + digit_val(d[k]));
            lemma_digits_val_past_bound(d, k + 1, bound);
        } else {
            assert(d.take(k) =~= d);
        }
    }
}

/// States of the decimal-number recognizer used to detect weight suffixes
/// such as `:1.2`; mirrors the numeric core of std's float grammar
/// (sign, integer part, fraction, exponent).
pub open spec fn float_step(st: int, c: char) -> int {
    if st == 0 {
        if c == '+' || c == '-' {
            1
        } else if is_digit(c) {
            2
        } else if c == '.' {
            4
        } else {
            -1
        }
    } else if st == 1 {
        if is_digit(c) {
            2
        } else if c == '.' {
            4
        } else {
            -1
        }
    } else if st == 2 {
        if is_digit(c) {
            2
        } else if c == '.' {
            3
        } else if c == 'e' || c == 'E' {
            6
        } else {
            -1
        }
    } else if st == 3 {
        if is_digit(c) {
            5
        } else if c == 'e' || c == 'E' {
            6
        } else {
            -1
        }
    } else if st == 4 {
        if is_digit(c) {
            5
        } else {
            -1
        }
    } else if st == 5 {
        if is_digit(c) {
            5
        } else if c == 'e' || c == 'E' {
            6
        } else {
            -1
        }
    } else if st == 6 {
        if c == '+' || c == '-' {
            7
        } else if is_digit(c) {
            8
        } else {
            -1
        }
    } else if st == 7 || st == 8 {
        if is_digit(c) {
            8
        } else {
            -1
        }
    } else {
        -1
    }
}

pub open spec fn float_run(st: int, s: Seq<char>) -> int
    decreases s.len(),
{
    if s.len() == 0 {
        st
    } else {
        float_run(float_step(st, s[0]), s.skip(1))
    }
}

/// `s` is a plain decimal number (the numeric core of std's float grammar;
/// the textual forms `inf` and `nan` are not counted).
pub open spec fn is_number_lit(s: Seq<char>) -> bool {
    let st = float_run(0, s);
    st == 2 || st == 3 || st == 5 || st == 8
}

pub fn is_number_lit_exec(v: &Vec<char>) -> (r: bool)
    ensures
        r == is_number_lit(v@),
{
    let mut st: i32 = 0;
    let mut i: usize = 0;
    proof {
        assert(v@.skip(0) =~= v@);
    }
    while i < v.len()
        invariant
            0 <= i <= v@.len(),
            -1 <= st <= 8,
            float_run(0, v@) == float_run(st as int, v@.skip(i as int)),
        decreases v.len() - i,
    {
        let c = v[i];
        let ghost old_st = st as int;
        let next: i32 = if st == 0 {
            if c == '+' || c == '-' { 1 } else if '0' <= c && c <= '9' { 2 } else if c == '.' { 4 } else { -1 }
        } else if st == 1 {
            if '0' <= c && c <= '9' { 2 } else if c == '.' { 4 } else { -1 }
        } else if st == 2 {
            if '0' <= c && c <= '9' { 2 } else if c == '.' { 3 } else if c == 'e' || c == 'E' { 6 } else { -1 }
        } else if st == 3 {
            if '0' <= c && c <= '9' { 5 } else if c == 'e' || c == 'E' { 6 } else { -1 }
        } else if st == 4 {
            if '0' <= c && c <= '9' { 5 } else { -1 }
        } else if st == 5 {
            if '0' <= c && c <= '9' { 5 } else if c == 'e' || c == 'E' { 6 } else { -1 }
        } else if st == 6 {
            if c == '+' || c == '-' { 7 } else if '0' <= c && c <= '9' { 8 } else { -1 }
        } else if st == 7 || st == 8 {
            if '0' <= c && c <= '9' { 8 } else { -1 }
        } else {
            -1
        };
        proof {
            assert(next as int == float_step(old_st, v@[i as int]));
            assert(v@.skip(i as int)[0] == v@[i as int]);
            assert(v@.skip(i as int).skip(1) =~= v@.skip(i + 1));
        }
        st = next;
        i += 1;
    }
    proof {
        assert(v@.skip(v@.len() as int) =~= Seq::<char>::empty());
    }
    st == 2 || st == 3 || st == 5 || st == 8
}

/// Digit character of one decimal digit.
pub open spec fn digit_char(d: int) -> char {
    (48 + d) as u8 as char
}

/// Decimal rendering of a natural number, no leading zeros.
pub open spec fn udec(n: nat) -> Seq<char>
    decreases n,
{
    if n < 10 {
        seq![digit_char(n as int)]
    } else {
        udec(n / 10).push(digit_char((n % 10) as int))
    }
}

/// Decimal rendering of an integer, with `-` for negatives.
pub open spec fn idec(n: int) -> Seq<char> {
    if n < 0 {
        seq!['-'] + udec((-n) as nat)
    } else {
        udec(n as nat)
    }
}

pub fn u64_to_chars(n: u64) -> (r: Vec<char>)
    ensures
        r@ == udec(n as nat),
{
    let mut out: Vec<char> = Vec::new();
    let mut cur: u64 = n;
    loop
        invariant_except_break
            udec(n as nat) =~= udec(cur as nat) + out@,
        ensures
            udec(n as nat) =~= out@,
        decreases cur,
    {
        let d: u8 = (cur % 10) as u8;
        let ghost prev = cur as nat;
        let ghost prev_out = out@;
        out.insert(0, (48 + d) as char);
        cur = cur / 10;
        proof {
            assert(out@ =~= seq![digit_char((prev % 10) as int)] + prev_out);
            if prev < 10 {
                assert(udec(prev) =~= seq![digit_char(prev as int)]);
            } else {
                assert(udec(prev) == udec(prev / 10).push(digit_char((prev % 10) as int)));
                assert(udec(prev / 10).push(digit_char((prev % 10) as int)) + prev_out
                    =~= udec(prev / 10) + (seq![digit_char((prev % 10) as int)] + prev_out));
            }
        }
        if cur == 0 {
            break ;
        }
    }
    out
}

pub fn i64_to_chars(n: i64) -> (r: Vec<char>)
    ensures
        r@ == idec(n as int),
{
    if n >= 0 {
        u64_to_chars(n as u64)
    } else {
        let mag: u64 = if n == i64::MIN {
            0x8000_0000_0000_0000
        } else {
            (-n) as u64
        };
        let mut out: Vec<char> = Vec::new();
        out.push('-');
        let digits = u64_to_chars(mag);
        append_vec(&mut out, &digits);
        proof {
            assert(out@ =~= seq!['-'] + udec(mag as nat));
        }
        out
    }
}

/// Views of a list of character vectors.
pub open spec fn views_of_vecs(v: Seq<Vec<char>>) -> Seq<Seq<char>> {
    v.map_values(|x: Vec<char>| x@)
}

pub proof fn lemma_udec_val(n: nat)
    ensures
        udec(n).len() >= 1,
        all_digits(udec(n)),
        digits_val(udec(n)) == n,
    decreases n,
{
    if n < 10 {
        assert(udec(n) =~= seq![digit_char(n as int)]);
        assert(is_digit(digit_char(n as int)));
        assert(udec(n).drop_last() =~= Seq::<char>::empty());
        assert(digits_val(Seq::<char>::empty()) == 0);
        assert(digit_val(digit_char(n as int)) == n);
        assert(digits_val(udec(n)) == digit_val(digit_char(n as int)));
    } else {
        lemma_udec_val(n / 10);
        let d = digit_char((n % 10) as int);
        assert(is_digit(d));
        assert(udec(n).drop_last() =~= udec(n / 10));
        assert(udec(n).last() == d);
        assert forall|i: int| 0 <= i < udec(n).len() implies is_digit(#[trigger] udec(n)[i]) by {
            if i < udec(n).len() - 1 {
                assert(udec(n)[i] == udec(n / 10)[i]);
            }
        }
    }
}

/// The decimal rendering of an `i64` value parses back to the same value
/// and contains no separator character.
pub proof fn lemma_idec_i64(n: i64)
    ensures
        idec(n as int).len() >= 1,
        is_i64_str(idec(n as int)),
        i64_str_val(idec(n as int)) == n as int,
        forall|i: int| 0 <= i < idec(n as int).len() ==> #[trigger] idec(n as int)[i] != '|',
{
    if n >= 0 {
        lemma_udec_val(n as nat);
        assert(idec(n as int) == udec(n as nat));
        assert(signed_body(idec(n as int)) =~= idec(n as int));
        assert forall|i: int| 0 <= i < idec(n as int).len() implies #[trigger] idec(n as int)[i]
            != '|' by {
            assert(is_digit(idec(n as int)[i]));
        }
    } else {
        let mag = (-(n as int)) as nat;
        lemma_udec_val(mag);
        assert(idec(n as int) == seq!['-'] + udec(mag));
        assert(idec(n as int)[0] == '-');
        assert(signed_body(idec(n as int)) =~= udec(mag));
        assert(signed_negative(idec(n as int)));
        assert forall|i: int| 0 <= i < idec(n as int).len() implies #[trigger] idec(n as int)[i]
            != '|' by {
            if i > 0 {
                assert(idec(n as int)[i] == udec(mag)[i - 1]);
                assert(is_digit(udec(mag)[i - 1]));
            }
        }
    }
}

/// The UTF-8 bytes of a character sequence, as vstd's encoding states it.
pub open spec fn encode_key_bytes(s: Seq<char>) -> Seq<u8> {
    vstd::utf8::encode_utf8(s)
}

/// Relies on String's UTF-8 representation: collecting the characters
/// into a string and taking its bytes yields exactly their UTF-8
/// encoding.
#[verifier::external_body]
pub fn utf8_bytes(v: &Vec<char>) -> (r: Vec<u8>)
    ensures
        r@ == encode_key_bytes(v@),
{
    let s: String = v.iter().collect();
    s.into_bytes()
}

pub fn subrange_bytes(s: &Vec<u8>, from: usize, to: usize) -> (r: Vec<u8>)
    requires
        from <= to <= s@.len(),
    ensures
        r@ == s@.subrange(from as int, to as int),
{
    let mut r: Vec<u8> = Vec::new();
    let mut i: usize = from;
    while i < to
        invariant
            from <= i <= to <= s@.len(),
            r@ == s@.subrange(from as int, i as int),
        decreases to - i,
    {
        r.push(s[i]);
        proof {
            assert(s@.subrange(from as int, i + 1) =~= s@.subrange(from as int, i as int).push(
                s@[i as int],
            ));
        }
        i += 1;
    }
    r
}

} // verus!
