//! Tag extraction from positive prompts.
//!
//! A prompt with commas is split on them and every fragment normalized
//! (weight wrappers such as `(name:1.2)` are unwrapped); a prompt without
//! commas falls back to a stop-word-filtered word tokenizer capped at 32
//! tokens. `<lora:name:weight>` and `embedding:name` references are added
//! as namespaced tags whichever branch was taken.

use crate::text::chars_vec;
use crate::text::contains_sub_exec;
use crate::text::matches_at_exec;
use crate::text::find_sub;
use crate::text::has_prefix;
use crate::text::has_prefix_exec;
use crate::text::is_alnum_char;
use crate::text::is_number_lit;
use crate::text::is_number_lit_exec;
use crate::text::is_space;
use crate::text::is_space_char;
use crate::text::lex_le;
use crate::text::lex_le_exec;
use crate::text::lemma_lex_le_total;
use crate::text::lemma_lex_le_trans;
use crate::text::lower_seq;
use crate::text::matches_at;
use crate::text::seq_eq;
use crate::text::string_from_chars;
use crate::text::subrange_vec;
use crate::text::to_ascii_lower;
use crate::text::trim;
use crate::text::trim_seq;
use crate::text::unicode_alnum;
use crate::text::find_first;
use crate::text::contains_sub;
use vstd::prelude::*;

verus! {

// ─────────────────────── character classes ───────────────────────

/// Characters a tag word may contain; everything else separates words.
pub open spec fn word_char(c: char) -> bool {
    unicode_alnum(c) || c == '_' || c == '-'
}

fn is_word_char(c: char) -> (r: bool)
    ensures
        r == word_char(c),
{
    is_alnum_char(c) || c == '_' || c == '-'
}

/// Separators of the embedding-reference scan: whitespace and commas.
pub open spec fn embed_sep(c: char) -> bool {
    is_space(c) || c == ','
}

fn is_embed_sep(c: char) -> (r: bool)
    ensures
        r == embed_sep(c),
{
    is_space_char(c) || c == ','
}

// ─────────────────────── strip / search helpers ───────────────────────

/// Leading and trailing characters satisfying `p` removed.
pub open spec fn strip_matches(s: Seq<char>, p: spec_fn(char) -> bool) -> Seq<char>
    decreases s.len(),
{
    if s.len() > 0 && p(s[0]) {
        strip_matches(s.skip(1), p)
    } else if s.len() > 0 && p(s.last()) {
        strip_matches(s.drop_last(), p)
    } else {
        s
    }
}

proof fn lemma_strip_agrees(s: Seq<char>, p: spec_fn(char) -> bool, a: int, b: int)
    requires
        0 <= a <= b <= s.len(),
        forall|i: int| 0 <= i < a ==> p(s[i]),
        forall|i: int| b <= i < s.len() ==> p(s[i]),
        a < b ==> !p(s[a]) && !p(s[b - 1]),
    ensures
        strip_matches(s, p) =~= s.subrange(a, b),
    decreases s.len(),
{
    if s.len() == 0 {
    } else if p(s[0]) {
        if a > 0 {
            lemma_strip_agrees(s.skip(1), p, a - 1, b - 1);
            assert(s.skip(1).subrange(a - 1, b - 1) =~= s.subrange(a, b));
        } else {
            // a == 0 and the first character matches, so a == b and the
            // whole string matches p.
            assert(a == b);
            assert forall|i: int| 0 <= i < s.skip(1).len() implies p(s.skip(1)[i]) by {
                assert(s.skip(1)[i] == s[i + 1]);
            }
            lemma_strip_agrees(s.skip(1), p, 0, 0);
        }
    } else {
        assert(a == 0);
        if b == s.len() {
        } else {
            assert(p(s.last()));
            lemma_strip_agrees(s.drop_last(), p, 0, b);
            assert(s.drop_last().subrange(0, b) =~= s.subrange(0, b));
        }
    }
}

/// The double-quote stripper used on prompt fragments.
pub open spec fn quote_pred() -> spec_fn(char) -> bool {
    |c: char| c == '"'
}

fn strip_quotes(v: &Vec<char>) -> (r: Vec<char>)
    ensures
        r@ == strip_matches(v@, quote_pred()),
{
    let mut a: usize = 0;
    let mut b: usize = v.len();
    while a < b && v[a] == '"'
        invariant
            0 <= a <= b <= v@.len(),
            b == v@.len(),
            forall|i: int| 0 <= i < a ==> quote_pred()(v@[i]),
        decreases b - a,
    {
        a += 1;
    }
    while b > a && v[b - 1] == '"'
        invariant
            a <= b <= v@.len(),
            forall|i: int| 0 <= i < a ==> quote_pred()(v@[i]),
            forall|i: int| b <= i < v@.len() ==> quote_pred()(v@[i]),
        decreases b,
    {
        b -= 1;
    }
    proof {
        lemma_strip_agrees(v@, quote_pred(), a as int, b as int);
    }
    subrange_vec(v, a, b)
}

/// The non-word stripper used on embedding names.
pub open spec fn nonword_pred() -> spec_fn(char) -> bool {
    |c: char| !word_char(c)
}

fn strip_nonword(v: &Vec<char>) -> (r: Vec<char>)
    ensures
        r@ == strip_matches(v@, nonword_pred()),
{
    let mut a: usize = 0;
    let mut b: usize = v.len();
    while a < b && !is_word_char(v[a])
        invariant
            0 <= a <= b <= v@.len(),
            b == v@.len(),
            forall|i: int| 0 <= i < a ==> nonword_pred()(v@[i]),
        decreases b - a,
    {
        a += 1;
    }
    while b > a && !is_word_char(v[b - 1])
        invariant
            a <= b <= v@.len(),
            forall|i: int| 0 <= i < a ==> nonword_pred()(v@[i]),
            forall|i: int| b <= i < v@.len() ==> nonword_pred()(v@[i]),
        decreases b,
    {
        b -= 1;
    }
    proof {
        lemma_strip_agrees(v@, nonword_pred(), a as int, b as int);
    }
    subrange_vec(v, a, b)
}

/// Index of the last occurrence of `c` strictly before position `n`.
pub open spec fn rfind_before(s: Seq<char>, c: char, n: int) -> Option<int>
    decreases n,
    when 0 <= n <= s.len()
{
    if n <= 0 {
        None
    } else if s[n - 1] == c {
        Some(n - 1)
    } else {
        rfind_before(s, c, n - 1)
    }
}

proof fn lemma_rfind_bounds(s: Seq<char>, c: char, n: int)
    requires
        0 <= n <= s.len(),
    ensures
        match rfind_before(s, c, n) {
            Some(i) => 0 <= i < n && s[i] == c,
            None => true,
        },
    decreases n,
{
    if n > 0 && s[n - 1] != c {
        lemma_rfind_bounds(s, c, n - 1);
    }
}

fn rfind_char(v: &Vec<char>, c: char) -> (r: Option<usize>)
    ensures
        match r {
            Some(i) => rfind_before(v@, c, v@.len() as int) == Some(i as int),
            None => rfind_before(v@, c, v@.len() as int) is None,
        },
{
    let mut n: usize = v.len();
    while n > 0
        invariant
            0 <= n <= v@.len(),
            rfind_before(v@, c, v@.len() as int) == rfind_before(v@, c, n as int),
        decreases n,
    {
        if v[n - 1] == c {
            return Some(n - 1);
        }
        n -= 1;
    }
    None
}

// ─────────────────────── token normalization ───────────────────────

/// Normalization of one comma-separated prompt fragment: quotes and
/// whitespace stripped, a weight wrapper `(name:1.2)` reduced to `name`,
/// raw LoRA tokens and out-of-size tokens dropped, result lower-cased.
pub open spec fn norm_token_spec(token: Seq<char>) -> Option<Seq<char>> {
    let trimmed = trim_seq(strip_matches(trim_seq(token), quote_pred()));
    if trimmed.len() == 0 {
        None
    } else if has_prefix(lower_seq(trimmed), "<lora:"@) {
        None
    } else {
        let unwrapped = if trimmed.len() >= 2 && trimmed[0] == '(' && trimmed.last() == ')' {
            trimmed.subrange(1, trimmed.len() - 1)
        } else {
            trimmed
        };
        let canonical = match rfind_before(unwrapped, ':', unwrapped.len() as int) {
            Some(ci) => {
                if is_number_lit(trim_seq(unwrapped.skip(ci + 1))) {
                    trim_seq(unwrapped.take(ci))
                } else {
                    unwrapped
                }
            },
            None => unwrapped,
        };
        if canonical.len() < 2 || canonical.len() > 96 {
            None
        } else {
            Some(lower_seq(canonical))
        }
    }
}

pub fn normalize_prompt_token(token: &Vec<char>) -> (r: Option<Vec<char>>)
    ensures
        match r {
            Some(v) => norm_token_spec(token@) == Some(v@),
            None => norm_token_spec(token@) is None,
        },
{
    let trimmed = trim(&strip_quotes(&trim(token)));
    if trimmed.len() == 0 {
        return None;
    }
    if has_prefix_exec(&to_ascii_lower(&trimmed), &chars_vec("<lora:")) {
        return None;
    }
    let unwrapped = if trimmed.len() >= 2 && trimmed[0] == '(' && trimmed[trimmed.len() - 1] == ')'
    {
        subrange_vec(&trimmed, 1, trimmed.len() - 1)
    } else {
        trimmed
    };
    let canonical = match rfind_char(&unwrapped, ':') {
        Some(ci) => {
            proof {
                lemma_rfind_bounds(unwrapped@, ':', unwrapped@.len() as int);
                assert(ci < unwrapped.len());
            }
            let weight = trim(&subrange_vec(&unwrapped, ci + 1, unwrapped.len()));
            proof {
                assert(unwrapped@.skip(ci + 1) =~= unwrapped@.subrange(
                    ci + 1,
                    unwrapped@.len() as int,
                ));
            }
            if is_number_lit_exec(&weight) {
                let name = trim(&subrange_vec(&unwrapped, 0, ci));
                proof {
                    assert(unwrapped@.take(ci as int) =~= unwrapped@.subrange(0, ci as int));
                }
                name
            } else {
                unwrapped
            }
        },
        None => unwrapped,
    };
    if canonical.len() < 2 || canonical.len() > 96 {
        return None;
    }
    Some(to_ascii_lower(&canonical))
}

// ─────────────────────── word scanning specs ───────────────────────

/// First separator position at or after `i` under `sep`.
pub open spec fn run_end(s: Seq<char>, i: int, sep: spec_fn(char) -> bool) -> int
    decreases s.len() - i,
    when 0 <= i <= s.len()
{
    if i >= s.len() {
        i
    } else if sep(s[i]) {
        i
    } else {
        run_end(s, i + 1, sep)
    }
}

proof fn lemma_run_end_bounds(s: Seq<char>, i: int, sep: spec_fn(char) -> bool)
    requires
        0 <= i <= s.len(),
    ensures
        i <= run_end(s, i, sep) <= s.len(),
    decreases s.len() - i,
{
    if i < s.len() && !sep(s[i]) {
        lemma_run_end_bounds(s, i + 1, sep);
    }
}

/// Stop words excluded by the word tokenizer.
pub open spec fn is_stopword(w: Seq<char>) -> bool {
    ||| w == "the"@
    ||| w == "and"@
    ||| w == "for"@
    ||| w == "with"@
    ||| w == "from"@
    ||| w == "this"@
    ||| w == "that"@
    ||| w == "into"@
    ||| w == "onto"@
    ||| w == "your"@
    ||| w == "about"@
    ||| w == "then"@
    ||| w == "than"@
    ||| w == "have"@
    ||| w == "has"@
    ||| w == "had"@
    ||| w == "were"@
    ||| w == "was"@
    ||| w == "are"@
    ||| w == "you"@
    ||| w == "their"@
    ||| w == "there"@
    ||| w == "what"@
    ||| w == "when"@
    ||| w == "where"@
    ||| w == "while"@
    ||| w == "over"@
    ||| w == "under"@
    ||| w == "inside"@
    ||| w == "outside"@
    ||| w == "without"@
    ||| w == "within"@
    ||| w == "between"@
    ||| w == "through"@
    ||| w == "using"@
    ||| w == "make"@
    ||| w == "made"@
    ||| w == "just"@
    ||| w == "also"@
    ||| w == "very"@
}

fn is_stopword_exec(w: &Vec<char>) -> (r: bool)
    ensures
        r == is_stopword(w@),
{
    seq_eq(w, &chars_vec("the")) || seq_eq(w, &chars_vec("and")) || seq_eq(w, &chars_vec("for"))
        || seq_eq(w, &chars_vec("with")) || seq_eq(w, &chars_vec("from")) || seq_eq(
        w,
        &chars_vec("this"),
    ) || seq_eq(w, &chars_vec("that")) || seq_eq(w, &chars_vec("into")) || seq_eq(
        w,
        &chars_vec("onto"),
    ) || seq_eq(w, &chars_vec("your")) || seq_eq(w, &chars_vec("about")) || seq_eq(
        w,
        &chars_vec("then"),
    ) || seq_eq(w, &chars_vec("than")) || seq_eq(w, &chars_vec("have")) || seq_eq(
        w,
        &chars_vec("has"),
    ) || seq_eq(w, &chars_vec("had")) || seq_eq(w, &chars_vec("were")) || seq_eq(
        w,
        &chars_vec("was"),
    ) || seq_eq(w, &chars_vec("are")) || seq_eq(w, &chars_vec("you")) || seq_eq(
        w,
        &chars_vec("their"),
    ) || seq_eq(w, &chars_vec("there")) || seq_eq(w, &chars_vec("what")) || seq_eq(
        w,
        &chars_vec("when"),
    ) || seq_eq(w, &chars_vec("where")) || seq_eq(w, &chars_vec("while")) || seq_eq(
        w,
        &chars_vec("over"),
    ) || seq_eq(w, &chars_vec("under")) || seq_eq(w, &chars_vec("inside")) || seq_eq(
        w,
        &chars_vec("outside"),
    ) || seq_eq(w, &chars_vec("without")) || seq_eq(w, &chars_vec("within")) || seq_eq(
        w,
        &chars_vec("between"),
    ) || seq_eq(w, &chars_vec("through")) || seq_eq(w, &chars_vec("using")) || seq_eq(
        w,
        &chars_vec("make"),
    ) || seq_eq(w, &chars_vec("made")) || seq_eq(w, &chars_vec("just")) || seq_eq(
        w,
        &chars_vec("also"),
    ) || seq_eq(w, &chars_vec("very"))
}

pub open spec fn all_ascii_digits(w: Seq<char>) -> bool {
    forall|i: int| 0 <= i < w.len() ==> '0' <= w[i] && w[i] <= '9'
}

fn all_ascii_digits_exec(w: &Vec<char>) -> (r: bool)
    ensures
        r == all_ascii_digits(w@),
{
    let mut i: usize = 0;
    while i < w.len()
        invariant
            0 <= i <= w@.len(),
            forall|j: int| 0 <= j < i ==> '0' <= w@[j] && w@[j] <= '9',
        decreases w.len() - i,
    {
        let c = w[i];
        if !('0' <= c && c <= '9') {
            return false;
        }
        i += 1;
    }
    true
}

/// A lower-cased word the tokenizer keeps, given what was already taken.
pub open spec fn word_qualifies(w: Seq<char>, acc: Set<Seq<char>>) -> bool {
    3 <= w.len() <= 48 && !is_stopword(w) && !all_ascii_digits(w) && !acc.contains(w)
}

/// The word-tokenizer pass: up to 32 distinct qualifying lower-cased words
/// in order of first appearance, added to `acc`.
pub open spec fn word_scan(s: Seq<char>, i: int, acc: Set<Seq<char>>, added: int) -> Set<Seq<char>>
    decreases s.len() - i,
    when 0 <= i <= s.len()
{
    if added >= 32 || i >= s.len() {
        acc
    } else if !word_char(s[i]) {
        word_scan(s, i + 1, acc, added)
    } else {
        let e = run_end(s, i, |c: char| !word_char(c));
        if i < e <= s.len() {
            let w = lower_seq(s.subrange(i, e));
            if word_qualifies(w, acc) {
                word_scan(s, e, acc.insert(w), added + 1)
            } else {
                word_scan(s, e, acc, added)
            }
        } else {
            acc
        }
    }
}

/// The embedding-reference pass: every whitespace/comma-delimited word of
/// the lower-cased prompt that starts with `embedding:` contributes a tag.
pub open spec fn embed_scan(m: Seq<char>, i: int, acc: Set<Seq<char>>) -> Set<Seq<char>>
    decreases m.len() - i,
    when 0 <= i <= m.len()
{
    if i >= m.len() {
        acc
    } else if embed_sep(m[i]) {
        embed_scan(m, i + 1, acc)
    } else {
        let e = run_end(m, i, |c: char| embed_sep(c));
        if i < e <= m.len() {
            let w = m.subrange(i, e);
            embed_scan(m, e, embed_add(w, acc))
        } else {
            acc
        }
    }
}

/// The tag one word contributes, if it is an embedding reference with a
/// usable name.
pub open spec fn embed_add(w: Seq<char>, acc: Set<Seq<char>>) -> Set<Seq<char>> {
    if has_prefix(w, "embedding:"@) {
        let cleaned = trim_seq(strip_matches(w.skip("embedding:"@.len() as int), nonword_pred()));
        if cleaned.len() > 0 && cleaned.len() <= 96 {
            acc.insert("embedding:"@ + cleaned)
        } else {
            acc
        }
    } else {
        acc
    }
}

/// First position at or after `i` holding `:` or `>`, else the length.
pub open spec fn lora_end(s: Seq<char>, i: int) -> int
    decreases s.len() - i,
    when 0 <= i <= s.len()
{
    if i >= s.len() {
        s.len() as int
    } else if s[i] == ':' || s[i] == '>' {
        i
    } else {
        lora_end(s, i + 1)
    }
}

proof fn lemma_lora_end_bounds(s: Seq<char>, i: int)
    requires
        0 <= i <= s.len(),
    ensures
        i <= lora_end(s, i) <= s.len(),
    decreases s.len() - i,
{
    if i < s.len() && !(s[i] == ':' || s[i] == '>') {
        lemma_lora_end_bounds(s, i + 1);
    }
}

/// The LoRA-reference pass over the lower-cased prompt: each `<lora:name`
/// occurrence contributes `lora:name` (name cut at the next `:` or `>`),
/// and scanning resumes one past the cut.
pub open spec fn lora_scan(m: Seq<char>, i: int, acc: Set<Seq<char>>) -> Set<Seq<char>>
    decreases m.len() - i,
    when 0 <= i <= m.len()
{
    if i >= m.len() {
        acc
    } else if matches_at(m, "<lora:"@, i) {
        let start = i + "<lora:"@.len();
        let e = lora_end(m, start);
        let name = trim_seq(m.subrange(start, e));
        let acc2 = if name.len() > 0 && name.len() <= 96 {
            acc.insert("lora:"@ + name)
        } else {
            acc
        };
        if i < e + 1 <= m.len() {
            lora_scan(m, e + 1, acc2)
        } else {
            acc2
        }
    } else {
        lora_scan(m, i + 1, acc)
    }
}

/// All tags of a prompt: the comma-split or word-tokenizer pass, then the
/// LoRA and embedding passes over the lower-cased text.
pub open spec fn comma_tags(p: Seq<char>, i: int, acc: Set<Seq<char>>) -> Set<Seq<char>>
    decreases p.len() - i,
    when 0 <= i <= p.len()
{
    match find_first(p, seq![','], i) {
        Some(ci) => {
            if i <= ci < p.len() {
                comma_tags(p, ci + 1, tok_add(p.subrange(i, ci), acc))
            } else {
                acc
            }
        },
        None => tok_add(p.subrange(i, p.len() as int), acc),
    }
}

pub open spec fn tok_add(t: Seq<char>, acc: Set<Seq<char>>) -> Set<Seq<char>> {
    match norm_token_spec(t) {
        Some(x) => acc.insert(x),
        None => acc,
    }
}

pub open spec fn tags_spec(p: Seq<char>) -> Set<Seq<char>> {
    let base = if contains_sub(p, seq![',']) {
        comma_tags(p, 0, Set::empty())
    } else {
        word_scan(p, 0, Set::empty(), 0)
    };
    embed_scan(lower_seq(p), 0, lora_scan(lower_seq(p), 0, base))
}

// ─────────────────────── sorted unique accumulator ───────────────────────

pub open spec fn views_of(v: Seq<Vec<char>>) -> Seq<Seq<char>> {
    v.map_values(|x: Vec<char>| x@)
}

/// Strictly sorted: ordered and duplicate-free.
pub open spec fn strictly_sorted(s: Seq<Seq<char>>) -> bool {
    forall|i: int, j: int| 0 <= i < j < s.len() ==> lex_le(s[i], s[j]) && s[i] != s[j]
}

/// Membership test against the accumulated tag list.
fn tag_present(out: &Vec<Vec<char>>, item: &Vec<char>) -> (r: bool)
    ensures
        r == views_of(out@).to_set().contains(item@),
{
    let mut i: usize = 0;
    while i < out.len()
        invariant
            0 <= i <= out@.len(),
            forall|j: int| 0 <= j < i ==> views_of(out@)[j] != item@,
        decreases out.len() - i,
    {
        if seq_eq(&out[i], item) {
            proof {
                assert(views_of(out@)[i as int] == item@);
                assert(views_of(out@).contains(item@));
            }
            return true;
        }
        i += 1;
    }
    proof {
        if views_of(out@).to_set().contains(item@) {
            let k = choose|k: int| 0 <= k < views_of(out@).len() && views_of(out@)[k] == item@;
        }
    }
    false
}

/// Inserts a tag in order, keeping the list strictly sorted; no effect if
/// the tag is already present.
#[verifier::rlimit(60)]
pub(crate) fn tag_insert(out: &mut Vec<Vec<char>>, item: Vec<char>)
    requires
        strictly_sorted(views_of(old(out)@)),
    ensures
        strictly_sorted(views_of(final(out)@)),
        views_of(final(out)@).to_set() =~= views_of(old(out)@).to_set().insert(item@),
{
    let mut k: usize = 0;
    while k < out.len() && lex_le_exec(&out[k], &item)
        invariant
            0 <= k <= out@.len(),
            strictly_sorted(views_of(out@)),
            out@ == old(out)@,
            forall|j: int| 0 <= j < k ==> lex_le(views_of(out@)[j], item@),
            forall|j: int| 0 <= j < k ==> views_of(out@)[j] != item@,
        decreases out.len() - k,
    {
        if seq_eq(&out[k], &item) {
            proof {
                assert(views_of(out@)[k as int] == item@);
                assert(views_of(out@).contains(item@));
                assert(views_of(out@).to_set().insert(item@) =~= views_of(out@).to_set());
            }
            return ;
        }
        k += 1;
    }
    let ghost pre = views_of(out@);
    proof {
        if k < out@.len() {
            lemma_lex_le_total(pre[k as int], item@);
        }
    }
    out.insert(k, item);
    proof {
        let post = views_of(out@);
        assert(post.len() == pre.len() + 1);
        assert forall|j: int| 0 <= j < post.len() implies #[trigger] post[j] == (if j < k {
            pre[j]
        } else if j == k {
            item@
        } else {
            pre[j - 1]
        }) by {}
        assert forall|i: int, j: int| 0 <= i < j < post.len() implies lex_le(post[i], post[j])
            && post[i] != post[j] by {
            if j < k {
                // both below the insertion point: old order
                assert(post[i] == pre[i] && post[j] == pre[j]);
                assert(lex_le(pre[i], pre[j]) && pre[i] != pre[j]);
            } else if i < k && j == k {
                // invariant: everything before k is strictly below item
                assert(post[i] == pre[i] && post[j] == item@);
            } else if i == k {
                // item against an element moved up from position j - 1 >= k
                lemma_lex_le_total(pre[j - 1], item@);
                if j - 1 > k {
                    // pre[k] <= pre[j-1]; item <= pre[k] by the exit test
                    if lex_le(pre[j - 1], item@) {
                        lemma_lex_le_trans(pre[k as int], pre[j - 1], item@);
                    }
                    if item@ == pre[j - 1] {
                        assert(lex_le(pre[k as int], item@));
                    }
                } else {
                    // j - 1 == k: the exit test says !lex_le(pre[k], item)
                    if item@ == pre[k as int] {
                        lemma_lex_le_total(pre[k as int], pre[k as int]);
                    }
                }
            } else if i < k && k < j {
                // old indices i and j - 1 with i < j - 1
                assert(post[i] == pre[i] && post[j] == pre[j - 1]);
                assert(lex_le(pre[i], pre[j - 1]) && pre[i] != pre[j - 1]);
            } else {
                // k < i < j: old indices i - 1 and j - 1
                assert(post[i] == pre[i - 1] && post[j] == pre[j - 1]);
                assert(lex_le(pre[i - 1], pre[j - 1]) && pre[i - 1] != pre[j - 1]);
            }
        }
        assert forall|x: Seq<char>| post.to_set().contains(x) implies pre.to_set().insert(
            item@,
        ).contains(x) by {
            let j = choose|j: int| 0 <= j < post.len() && post[j] == x;
        }
        assert forall|x: Seq<char>| pre.to_set().insert(item@).contains(x) implies
            post.to_set().contains(x) by {
            if x == item@ {
                assert(post[k as int] == x);
            } else {
                let j = choose|j: int| 0 <= j < pre.len() && pre[j] == x;
                if j < k {
                    assert(post[j] == x);
                } else {
                    assert(post[j + 1] == x);
                }
            }
        }
    }
}

// ─────────────────────── executable passes ───────────────────────

fn add_comma_tags(p: &Vec<char>, out: &mut Vec<Vec<char>>)
    requires
        strictly_sorted(views_of(old(out)@)),
    ensures
        strictly_sorted(views_of(final(out)@)),
        views_of(final(out)@).to_set() =~= comma_tags(p@, 0, views_of(old(out)@).to_set()),
{
    let comma = chars_vec(",");
    proof {
        assert(comma@ =~= seq![',']) by {
            reveal_strlit(",");
        }
    }
    let mut i: usize = 0;
    loop
        invariant
            0 <= i <= p@.len(),
            comma@ == seq![','],
            strictly_sorted(views_of(out@)),
            comma_tags(p@, 0, views_of(old(out)@).to_set()) == comma_tags(
                p@,
                i as int,
                views_of(out@).to_set(),
            ),
        decreases p@.len() - i,
    {
        match find_sub(p, &comma, i) {
            Some(ci) => {
                proof {
                    assert(ci + 1 <= p@.len());
                    assert(ci < p.len());
                }
                let tok = subrange_vec(p, i, ci);
                proof {
                    assert(tok@ =~= p@.subrange(i as int, ci as int));
                }
                let ghost pre = views_of(out@).to_set();
                match normalize_prompt_token(&tok) {
                    Some(t) => {
                        tag_insert(out, t);
                    },
                    None => {},
                }
                proof {
                    assert(views_of(out@).to_set() =~= tok_add(
                        p@.subrange(i as int, ci as int),
                        pre,
                    ));
                }
                i = ci + 1;
            },
            None => {
                let tok = subrange_vec(p, i, p.len());
                proof {
                    assert(tok@ =~= p@.subrange(i as int, p@.len() as int));
                }
                let ghost pre = views_of(out@).to_set();
                match normalize_prompt_token(&tok) {
                    Some(t) => {
                        tag_insert(out, t);
                    },
                    None => {},
                }
                proof {
                    assert(views_of(out@).to_set() =~= tok_add(
                        p@.subrange(i as int, p@.len() as int),
                        pre,
                    ));
                }
                return ;
            },
        }
    }
}

fn add_word_tags(p: &Vec<char>, out: &mut Vec<Vec<char>>)
    requires
        strictly_sorted(views_of(old(out)@)),
    ensures
        strictly_sorted(views_of(final(out)@)),
        views_of(final(out)@).to_set() =~= word_scan(p@, 0, views_of(old(out)@).to_set(), 0),
{
    let mut i: usize = 0;
    let mut added: u32 = 0;
    while added < 32 && i < p.len()
        invariant
            0 <= i <= p@.len(),
            0 <= added <= 32,
            strictly_sorted(views_of(out@)),
            word_scan(p@, 0, views_of(old(out)@).to_set(), 0) == word_scan(
                p@,
                i as int,
                views_of(out@).to_set(),
                added as int,
            ),
        decreases p@.len() - i,
    {
        if !is_word_char(p[i]) {
            i += 1;
        } else {
            let mut j: usize = i + 1;
            while j < p.len() && is_word_char(p[j])
                invariant
                    i < j <= p@.len(),
                    run_end(p@, i as int, |c: char| !word_char(c)) == run_end(
                        p@,
                        j as int,
                        |c: char| !word_char(c),
                    ),
                decreases p@.len() - j,
            {
                j += 1;
            }
            proof {
                assert(run_end(p@, j as int, |c: char| !word_char(c)) == j as int);
            }
            let w = to_ascii_lower(&subrange_vec(p, i, j));
            proof {
                assert(w@ =~= lower_seq(p@.subrange(i as int, j as int)));
            }
            let ghost pre = views_of(out@).to_set();
            if 3 <= w.len() && w.len() <= 48 && !is_stopword_exec(&w) && !all_ascii_digits_exec(&w)
                && !tag_present(out, &w) {
                proof {
                    assert(word_qualifies(w@, pre));
                }
                tag_insert(out, w);
                proof {
                    assert(views_of(out@).to_set() =~= pre.insert(lower_seq(
                        p@.subrange(i as int, j as int),
                    )));
                }
                added += 1;
            } else {
                proof {
                    assert(!word_qualifies(w@, pre));
                }
            }
            i = j;
        }
    }
    proof {
        assert(word_scan(p@, i as int, views_of(out@).to_set(), added as int)
            == views_of(out@).to_set());
    }
}

fn add_lora_tags(m: &Vec<char>, out: &mut Vec<Vec<char>>)
    requires
        strictly_sorted(views_of(old(out)@)),
    ensures
        strictly_sorted(views_of(final(out)@)),
        views_of(final(out)@).to_set() =~= lora_scan(m@, 0, views_of(old(out)@).to_set()),
{
    let pat = chars_vec("<lora:");
    let prefix = chars_vec("lora:");
    let mut i: usize = 0;
    while i < m.len()
        invariant
            0 <= i <= m@.len(),
            pat@ == "<lora:"@,
            prefix@ == "lora:"@,
            strictly_sorted(views_of(out@)),
            lora_scan(m@, 0, views_of(old(out)@).to_set()) == lora_scan(
                m@,
                i as int,
                views_of(out@).to_set(),
            ),
        decreases m@.len() - i,
    {
        if matches_at_exec(m, &pat, i) {
            proof {
                assert(i + pat@.len() <= m@.len());
                assert(pat.len() <= m.len());
            }
            let start: usize = i + pat.len();
            let mut e: usize = start;
            while e < m.len() && m[e] != ':' && m[e] != '>'
                invariant
                    start <= e <= m@.len(),
                    lora_end(m@, start as int) == lora_end(m@, e as int),
                decreases m@.len() - e,
            {
                e += 1;
            }
            proof {
                assert(lora_end(m@, e as int) == e as int);
            }
            let name = trim(&subrange_vec(m, start, e));
            proof {
                assert(name@ =~= trim_seq(m@.subrange(start as int, e as int)));
            }
            let ghost pre = views_of(out@).to_set();
            if name.len() > 0 && name.len() <= 96 {
                let mut tag = prefix.clone();
                crate::text::append_vec(&mut tag, &name);
                proof {
                    assert(tag@ =~= "lora:"@ + name@);
                }
                tag_insert(out, tag);
            }
            proof {
                let ghost acc2 = views_of(out@).to_set();
                if e + 1 <= m@.len() {
                    assert(lora_scan(m@, e + 1, acc2) == lora_scan(m@, e + 1, acc2));
                }
            }
            if e >= m.len() - 1 {
                proof {
                    let ghost acc2 = views_of(out@).to_set();
                    if e + 1 == m@.len() {
                        assert(lora_scan(m@, e + 1, acc2) == acc2);
                    }
                    assert(lora_scan(m@, i as int, pre) == acc2);
                }
                return ;
            }
            i = e + 1;
        } else {
            i += 1;
        }
    }
}

fn add_embed_tags(m: &Vec<char>, out: &mut Vec<Vec<char>>)
    requires
        strictly_sorted(views_of(old(out)@)),
    ensures
        strictly_sorted(views_of(final(out)@)),
        views_of(final(out)@).to_set() =~= embed_scan(m@, 0, views_of(old(out)@).to_set()),
{
    let emb = chars_vec("embedding:");
    let mut i: usize = 0;
    while i < m.len()
        invariant
            0 <= i <= m@.len(),
            emb@ == "embedding:"@,
            strictly_sorted(views_of(out@)),
            embed_scan(m@, 0, views_of(old(out)@).to_set()) == embed_scan(
                m@,
                i as int,
                views_of(out@).to_set(),
            ),
        decreases m@.len() - i,
    {
        if is_embed_sep(m[i]) {
            i += 1;
        } else {
            let mut j: usize = i + 1;
            while j < m.len() && !is_embed_sep(m[j])
                invariant
                    i < j <= m@.len(),
                    run_end(m@, i as int, |c: char| embed_sep(c)) == run_end(
                        m@,
                        j as int,
                        |c: char| embed_sep(c),
                    ),
                decreases m@.len() - j,
            {
                j += 1;
            }
            proof {
                assert(run_end(m@, j as int, |c: char| embed_sep(c)) == j as int);
            }
            let w = subrange_vec(m, i, j);
            let ghost pre = views_of(out@).to_set();
            if has_prefix_exec(&w, &emb) {
                proof {
                    assert(emb@.len() <= w@.len());
                    assert(emb.len() <= w.len());
                }
                let name = subrange_vec(&w, emb.len(), w.len());
                proof {
                    assert(name@ =~= w@.skip("embedding:"@.len() as int));
                }
                let cleaned = trim(&strip_nonword(&name));
                if cleaned.len() > 0 && cleaned.len() <= 96 {
                    let mut tag = emb.clone();
                    crate::text::append_vec(&mut tag, &cleaned);
                    proof {
                        assert(tag@ =~= "embedding:"@ + cleaned@);
                    }
                    tag_insert(out, tag);
                }
            }
            proof {
                assert(views_of(out@).to_set() =~= embed_add(w@, pre));
            }
            i = j;
        }
    }
}

pub open spec fn string_views(s: Seq<String>) -> Seq<Seq<char>> {
    s.map_values(|x: String| x@)
}

/// Extracts the normalized tags of a prompt, sorted and without
/// duplicates: exactly the set `tags_spec` describes.
pub fn extract_tags(prompt: &str) -> (r: Vec<String>)
    ensures
        strictly_sorted(string_views(r@)),
        string_views(r@).to_set() =~= tags_spec(prompt@),
{
    let p = chars_vec(prompt);
    let comma = chars_vec(",");
    proof {
        assert(comma@ =~= seq![',']) by {
            reveal_strlit(",");
        }
    }
    let mut out: Vec<Vec<char>> = Vec::new();
    proof {
        assert(views_of(out@) =~= Seq::<Seq<char>>::empty());
        assert(views_of(out@).to_set() =~= Set::<Seq<char>>::empty());
    }
    if contains_sub_exec(&p, &comma) {
        add_comma_tags(&p, &mut out);
    } else {
        add_word_tags(&p, &mut out);
    }
    let m = to_ascii_lower(&p);
    add_lora_tags(&m, &mut out);
    add_embed_tags(&m, &mut out);
    let mut r: Vec<String> = Vec::new();
    let mut i: usize = 0;
    while i < out.len()
        invariant
            0 <= i <= out@.len(),
            string_views(r@) == views_of(out@).take(i as int),
        decreases out.len() - i,
    {
        let ghost prev = string_views(r@);
        r.push(string_from_chars(&out[i]));
        proof {
            assert(string_views(r@) =~~= prev.push(out@[i as int]@));
            assert(views_of(out@).take(i + 1) =~~= views_of(out@).take(i as int).push(
                views_of(out@)[i as int],
            ));
        }
        i += 1;
    }
    proof {
        assert(views_of(out@).take(out@.len() as int) =~~= views_of(out@));
    }
    r
}

} // verus!
