//! Normalization of message bodies before scoring.
//!
//! The pipeline spells emoticons out as words, lowercases, strips links,
//! drops short words, keeps only letters and spaces, squeezes repeated
//! characters, and trims. Every rewriting stage is specified character by
//! character; lowercasing and link stripping are the work of outside code
//! and enter the specification as named functions of their input.

use vstd::prelude::*;

verus! {

/// A character of the Unicode White_Space set, as word splitting sees it.
pub open spec fn is_space(c: char) -> bool {
    ||| c == ' '
    ||| c == '\t'
    ||| c == '\n'
    ||| c == '\u{000B}'
    ||| c == '\u{000C}'
    ||| c == '\r'
    ||| c == '\u{0085}'
    ||| c == '\u{00A0}'
    ||| c == '\u{1680}'
    ||| ((0x2000 <= c as u32) && (c as u32 <= 0x200A))
    ||| c == '\u{2028}'
    ||| c == '\u{2029}'
    ||| c == '\u{202F}'
    ||| c == '\u{205F}'
    ||| c == '\u{3000}'
}

/// Decides `is_space` on a real character.
pub fn is_space_char(c: char) -> (r: bool)
    ensures
        r == is_space(c),
{
    c == ' ' || c == '\t' || c == '\n' || c == '\u{000B}' || c == '\u{000C}' || c == '\r'
        || c == '\u{0085}' || c == '\u{00A0}' || c == '\u{1680}' || ((0x2000 <= c as u32) && (c
        as u32 <= 0x200A)) || c == '\u{2028}' || c == '\u{2029}' || c == '\u{202F}'
        || c == '\u{205F}' || c == '\u{3000}'
}

/// What `str::to_lowercase` returns: a function of the characters alone.
pub uninterp spec fn lower_of(s: Seq<char>) -> Seq<char>;

/// Relies on `str::to_lowercase`: the result depends on the characters alone.
#[verifier::external_body]
fn lowercase(s: &str) -> (r: String)
    ensures
        r@ == lower_of(s@),
{
    s.to_lowercase()
}

/// What stripping every URL match out of a text leaves: the result of
/// `Regex::replace_all` under the fixed URL pattern with an empty
/// replacement, a function of the text alone.
pub uninterp spec fn url_stripped(s: Seq<char>) -> Seq<char>;

/// Relies on `regex::Regex::new` and `Regex::replace_all`: the pattern is the
/// fixed URL pattern, so the result depends on the text alone; `new` cannot
/// fail on this valid constant pattern, and the fallback arm is never taken.
#[verifier::external_body]
fn strip_urls(s: &str) -> (r: String)
    ensures
        r@ == url_stripped(s@),
{
    match regex::Regex::new(r"https?://\S+|www\.\S+") {
        Ok(re) => re.replace_all(s, r"").to_string(),
        Err(_) => s.to_string(),
    }
}

/// Whether a character counts as alphabetic: what `char::is_alphabetic`
/// returns, a function of the character alone.
pub uninterp spec fn is_alpha(c: char) -> bool;

/// Relies on `char::is_alphabetic`: the result depends on the character alone.
#[verifier::external_body]
fn is_alphabetic_char(c: char) -> (r: bool)
    ensures
        r == is_alpha(c),
{
    c.is_alphabetic()
}

/// Relies on `str::chars`: yields the characters of the string in order.
#[verifier::external_body]
fn chars_of(s: &str) -> (r: Vec<char>)
    ensures
        r@ == s@,
{
    s.chars().collect()
}

/// Relies on `String`'s `FromIterator<char>`: collects characters in order.
#[verifier::external_body]
fn string_of(v: &Vec<char>) -> (r: String)
    ensures
        r@ == v@,
{
    v.iter().collect()
}

/// The text with every non-overlapping occurrence of `pat` replaced by
/// `sub`, leftmost first.
pub open spec fn replaced(s: Seq<char>, pat: Seq<char>, sub: Seq<char>) -> Seq<char>
    decreases s.len(),
{
    if s.len() == 0 || pat.len() == 0 {
        s
    } else if s.len() >= pat.len() && s.take(pat.len() as int) == pat {
        sub + replaced(s.skip(pat.len() as int), pat, sub)
    } else {
        seq![s[0]] + replaced(s.drop_first(), pat, sub)
    }
}

/// The text after each replacement pair has been applied in order.
pub open spec fn apply_replacements(s: Seq<char>, pairs: Seq<(Seq<char>, Seq<char>)>) -> Seq<char>
    decreases pairs.len(),
{
    if pairs.len() == 0 {
        s
    } else {
        apply_replacements(replaced(s, pairs[0].0, pairs[0].1), pairs.drop_first())
    }
}

/// Applying one more pair extends the chain at its end.
proof fn lemma_apply_replacements_push(
    s: Seq<char>,
    pairs: Seq<(Seq<char>, Seq<char>)>,
    p: (Seq<char>, Seq<char>),
)
    ensures
        apply_replacements(s, pairs.push(p)) == replaced(apply_replacements(s, pairs), p.0, p.1),
    decreases pairs.len(),
{
    let ext = pairs.push(p);
    assert(ext[0] == if pairs.len() == 0 {
        p
    } else {
        pairs[0]
    });
    assert(apply_replacements(s, ext) == apply_replacements(
        replaced(s, ext[0].0, ext[0].1),
        ext.drop_first(),
    ));
    if pairs.len() == 0 {
        assert(ext.drop_first() =~= Seq::<(Seq<char>, Seq<char>)>::empty());
        assert(apply_replacements(replaced(s, p.0, p.1), ext.drop_first()) == replaced(
            s,
            p.0,
            p.1,
        ));
        assert(apply_replacements(s, pairs) == s);
    } else {
        assert(ext.drop_first() =~= pairs.drop_first().push(p));
        lemma_apply_replacements_push(replaced(s, pairs[0].0, pairs[0].1), pairs.drop_first(), p);
        assert(apply_replacements(s, pairs) == apply_replacements(
            replaced(s, pairs[0].0, pairs[0].1),
            pairs.drop_first(),
        ));
    }
}

/// The characters kept by the letters-and-spaces filter, in order.
pub open spec fn kept_chars(s: Seq<char>) -> Seq<char>
    decreases s.len(),
{
    if s.len() == 0 {
        s
    } else {
        kept_chars(s.drop_last()) + if is_alpha(s.last()) || s.last() == ' ' {
            seq![s.last()]
        } else {
            Seq::empty()
        }
    }
}

/// The length of the run of equal characters ending at position `i`.
pub open spec fn run_len(s: Seq<char>, i: int) -> int
    decreases i,
{
    if i <= 0 || s[i] != s[i - 1] {
        1
    } else {
        1 + run_len(s, i - 1)
    }
}

/// Whether the character at position `i > 0` survives the squeeze: at most
/// two of a kind in a row, and no repeated spaces at all.
pub open spec fn keep_at(s: Seq<char>, i: int) -> bool {
    run_len(s, i) <= 2 && !(run_len(s, i) > 1 && s[i] == ' ')
}

/// The first `n` characters after squeezing runs: the first character always
/// stays, later ones stay when `keep_at` allows.
pub open spec fn squeezed_prefix(s: Seq<char>, n: int) -> Seq<char>
    decreases n,
{
    if n <= 1 {
        s.take(if n < 0 {
            0
        } else {
            n
        })
    } else {
        squeezed_prefix(s, n - 1) + if keep_at(s, n - 1) {
            seq![s[n - 1]]
        } else {
            Seq::empty()
        }
    }
}

/// The text with long runs squeezed: at most two equal characters in a row,
/// and no repeated spaces.
pub open spec fn squeezed(s: Seq<char>) -> Seq<char> {
    squeezed_prefix(s, s.len() as int)
}

/// The text without its leading spaces.
pub open spec fn drop_leading_spaces(s: Seq<char>) -> Seq<char>
    decreases s.len(),
{
    if s.len() > 0 && s[0] == ' ' {
        drop_leading_spaces(s.drop_first())
    } else {
        s
    }
}

/// The text without its trailing spaces.
pub open spec fn drop_trailing_spaces(s: Seq<char>) -> Seq<char>
    decreases s.len(),
{
    if s.len() > 0 && s.last() == ' ' {
        drop_trailing_spaces(s.drop_last())
    } else {
        s
    }
}

/// The text without leading and trailing spaces.
pub open spec fn trimmed(s: Seq<char>) -> Seq<char> {
    drop_trailing_spaces(drop_leading_spaces(s))
}

/// How many characters the word at the front of the text has.
pub open spec fn word_prefix_len(s: Seq<char>) -> int
    decreases s.len(),
{
    if s.len() == 0 || is_space(s[0]) {
        0
    } else {
        1 + word_prefix_len(s.drop_first())
    }
}

/// The front word is never longer than the text, and non-empty when the text
/// starts with a non-space.
pub proof fn lemma_word_prefix_len_bounds(s: Seq<char>)
    ensures
        0 <= word_prefix_len(s) <= s.len(),
        s.len() > 0 && !is_space(s[0]) ==> word_prefix_len(s) >= 1,
    decreases s.len(),
{
    if s.len() > 0 && !is_space(s[0]) {
        lemma_word_prefix_len_bounds(s.drop_first());
    }
}

/// The whitespace-separated words of the text, in order.
pub open spec fn words_of(s: Seq<char>) -> Seq<Seq<char>>
    decreases s.len(),
{
    if s.len() == 0 {
        Seq::empty()
    } else if is_space(s[0]) {
        words_of(s.drop_first())
    } else {
        proof {
            lemma_word_prefix_len_bounds(s);
        }
        seq![s.take(word_prefix_len(s))] + words_of(s.skip(word_prefix_len(s)))
    }
}

/// The words of at least three characters, in order.
pub open spec fn long_words(ws: Seq<Seq<char>>) -> Seq<Seq<char>>
    decreases ws.len(),
{
    if ws.len() == 0 {
        Seq::empty()
    } else {
        long_words(ws.drop_last()) + if ws.last().len() >= 3 {
            seq![ws.last()]
        } else {
            Seq::empty()
        }
    }
}

/// The words joined by single spaces.
pub open spec fn join_words(ws: Seq<Seq<char>>) -> Seq<char>
    decreases ws.len(),
{
    if ws.len() == 0 {
        Seq::empty()
    } else if ws.len() == 1 {
        ws[0]
    } else {
        join_words(ws.drop_last()) + seq![' '] + ws.last()
    }
}

/// A fresh copy of a character vector.
fn copied(v: &Vec<char>) -> (r: Vec<char>)
    ensures
        r@ == v@,
{
    let n = v.len();
    let mut out: Vec<char> = Vec::new();
    let mut i: usize = 0;
    while i < n
        invariant
            i <= n,
            n == v@.len(),
            out@ =~= v@.take(i as int),
        decreases n - i,
    {
        out.push(v[i]);
        i = i + 1;
    }
    proof {
        assert(v@.take(n as int) =~= v@);
    }
    out
}

/// The characters of `pat` stand at position `i` of `s`.
#[verifier::loop_isolation(false)]
fn is_match_at(s: &Vec<char>, i: usize, pat: &Vec<char>) -> (r: bool)
    requires
        i + pat@.len() <= s@.len(),
    ensures
        r == (s@.subrange(i as int, i + pat@.len()) == pat@),
{
    let n = s.len();
    let m = pat.len();
    let mut j: usize = 0;
    while j < m
        invariant
            j <= m,
            i + m <= n,
            forall|t: int| 0 <= t < j ==> s@[i + t] == pat@[t],
        decreases m - j,
    {
        if s[i + j] != pat[j] {
            proof {
                assert(s@.subrange(i as int, i + pat@.len())[j as int] != pat@[j as int]);
            }
            return false;
        }
        j = j + 1;
    }
    proof {
        assert(s@.subrange(i as int, i + pat@.len()) =~= pat@);
    }
    true
}

/// Replaces every non-overlapping occurrence of `pat` by `sub`, leftmost
/// first; a text without an occurrence, or an empty pattern, leaves the text
/// as it is.
#[verifier::loop_isolation(false)]
pub fn replace_all(s: &Vec<char>, pat: &Vec<char>, sub: &Vec<char>) -> (r: Vec<char>)
    ensures
        r@ == replaced(s@, pat@, sub@),
{
    let n = s.len();
    let m = pat.len();
    if m == 0 {
        return copied(s);
    }
    let mut out: Vec<char> = Vec::new();
    let mut i: usize = 0;
    proof {
        assert(s@.skip(0) =~= s@);
        assert(out@ + replaced(s@, pat@, sub@) =~= replaced(s@, pat@, sub@));
    }
    while i < n
        invariant
            i <= n,
            n == s@.len(),
            m == pat@.len(),
            replaced(s@, pat@, sub@) == out@ + replaced(s@.skip(i as int), pat@, sub@),
        decreases n - i,
    {
        let ghost before = out@;
        let ghost rest = s@.skip(i as int);
        if m <= n - i && is_match_at(s, i, pat) {
            proof {
                assert(rest.take(m as int) =~= s@.subrange(i as int, i + m));
                assert(rest.take(m as int) == pat@);
                assert(replaced(rest, pat@, sub@) == sub@ + replaced(
                    rest.skip(m as int),
                    pat@,
                    sub@,
                ));
                assert(rest.skip(m as int) =~= s@.skip(i + m));
            }
            let slen = sub.len();
            let mut j: usize = 0;
            while j < slen
                invariant
                    j <= slen,
                    slen == sub@.len(),
                    out@ =~= before + sub@.take(j as int),
                decreases slen - j,
            {
                out.push(sub[j]);
                j = j + 1;
            }
            i = i + m;
            proof {
                assert(out@ =~= before + sub@);
                assert(before + sub@ + replaced(s@.skip(i as int), pat@, sub@) =~= before
                    + replaced(rest, pat@, sub@));
            }
        } else {
            proof {
                if i + m <= n {
                    assert(rest.take(m as int) =~= s@.subrange(i as int, i + m));
                    assert(rest.take(m as int) != pat@);
                } else {
                    assert(rest.len() < m);
                }
                assert(rest[0] == s@[i as int]);
                assert(replaced(rest, pat@, sub@) == seq![rest[0]] + replaced(
                    rest.drop_first(),
                    pat@,
                    sub@,
                ));
                assert(rest.drop_first() =~= s@.skip(i + 1));
            }
            out.push(s[i]);
            i = i + 1;
            proof {
                assert(out@ =~= before + seq![s@[i - 1]]);
                assert(before + seq![s@[i - 1]] + replaced(s@.skip(i as int), pat@, sub@) =~= before
                    + replaced(rest, pat@, sub@));
            }
        }
    }
    proof {
        assert(s@.skip(n as int) =~= Seq::<char>::empty());
        assert(replaced(Seq::<char>::empty(), pat@, sub@) == Seq::<char>::empty());
        assert(out@ + Seq::<char>::empty() =~= out@);
    }
    out
}

/// Keeps only letters and spaces.
#[verifier::loop_isolation(false)]
fn keep_letters_and_spaces(s: &Vec<char>) -> (r: Vec<char>)
    ensures
        r@ == kept_chars(s@),
{
    let n = s.len();
    let mut out: Vec<char> = Vec::new();
    let mut i: usize = 0;
    while i < n
        invariant
            i <= n,
            n == s@.len(),
            out@ == kept_chars(s@.take(i as int)),
        decreases n - i,
    {
        let c = s[i];
        proof {
            assert(s@.take(i + 1).drop_last() =~= s@.take(i as int));
            assert(s@.take(i + 1).last() == s@[i as int]);
        }
        if is_alphabetic_char(c) || c == ' ' {
            out.push(c);
            proof {
                assert(out@ =~= kept_chars(s@.take(i as int)) + seq![s@[i as int]]);
            }
        } else {
            proof {
                assert(kept_chars(s@.take(i + 1)) =~= kept_chars(s@.take(i as int)));
            }
        }
        i = i + 1;
    }
    proof {
        assert(s@.take(n as int) =~= s@);
    }
    out
}

/// Squeezes runs: at most two equal characters in a row, and no repeated
/// spaces.
#[verifier::loop_isolation(false)]
fn squeeze_repeats(s: &Vec<char>) -> (r: Vec<char>)
    ensures
        r@ == squeezed(s@),
{
    let n = s.len();
    let mut out: Vec<char> = Vec::new();
    if n == 0 {
        proof {
            assert(squeezed(s@) =~= Seq::<char>::empty());
        }
        return out;
    }
    out.push(s[0]);
    let mut count: usize = 1;
    let mut i: usize = 1;
    proof {
        assert(out@ =~= s@.take(1));
    }
    while i < n
        invariant
            1 <= i <= n,
            n == s@.len(),
            out@ == squeezed_prefix(s@, i as int),
            count == run_len(s@, i - 1),
            1 <= count <= i,
        decreases n - i,
    {
        let c = s[i];
        if c == s[i - 1] {
            count = count + 1;
        } else {
            count = 1;
        }
        proof {
            assert(count == run_len(s@, i as int));
        }
        if count <= 2 && !(count > 1 && c == ' ') {
            proof {
                assert(keep_at(s@, i as int));
            }
            out.push(c);
            proof {
                assert(out@ =~= squeezed_prefix(s@, i as int) + seq![s@[i as int]]);
            }
        } else {
            proof {
                assert(!keep_at(s@, i as int));
                assert(squeezed_prefix(s@, i + 1) =~= squeezed_prefix(s@, i as int));
            }
        }
        i = i + 1;
    }
    out
}

/// Scanning to the first non-space pins the leading spaces down.
proof fn lemma_drop_leading_at(s: Seq<char>, a: int)
    requires
        0 <= a <= s.len(),
        forall|t: int| 0 <= t < a ==> s[t] == ' ',
        a < s.len() ==> s[a] != ' ',
    ensures
        drop_leading_spaces(s) == s.skip(a),
    decreases s.len(),
{
    if a == 0 {
        assert(s.skip(0) =~= s);
    } else {
        assert(s[0] == ' ');
        lemma_drop_leading_at(s.drop_first(), a - 1);
        assert(s.drop_first().skip(a - 1) =~= s.skip(a));
    }
}

/// Scanning back from the end pins the trailing spaces down.
proof fn lemma_drop_trailing_at(s: Seq<char>, b: int)
    requires
        0 <= b <= s.len(),
        forall|t: int| b <= t < s.len() ==> s[t] == ' ',
        b > 0 ==> s[b - 1] != ' ',
    ensures
        drop_trailing_spaces(s) == s.take(b),
    decreases s.len(),
{
    if b == s.len() {
        if s.len() == 0 || s.last() != ' ' {
            assert(s.take(b) =~= s);
        } else {
            assert(false);
        }
    } else {
        assert(s.last() == ' ');
        lemma_drop_trailing_at(s.drop_last(), b);
        assert(s.drop_last().take(b) =~= s.take(b));
    }
}

/// Removes leading and trailing spaces.
fn trim_spaces(s: &Vec<char>) -> (r: Vec<char>)
    ensures
        r@ == trimmed(s@),
{
    let n = s.len();
    let mut a: usize = 0;
    while a < n
        invariant_except_break
            a <= n,
            n == s@.len(),
            forall|t: int| 0 <= t < a ==> s@[t] == ' ',
        ensures
            a <= n,
            n == s@.len(),
            forall|t: int| 0 <= t < a ==> s@[t] == ' ',
            a < n ==> s@[a as int] != ' ',
        decreases n - a,
    {
        if s[a] != ' ' {
            break ;
        }
        a = a + 1;
    }
    proof {
        lemma_drop_leading_at(s@, a as int);
    }
    let ghost mid = s@.skip(a as int);
    let mut b: usize = n;
    while b > a
        invariant_except_break
            a <= b <= n,
            n == s@.len(),
            forall|t: int| b <= t < n ==> s@[t] == ' ',
        ensures
            a <= b <= n,
            n == s@.len(),
            forall|t: int| b <= t < n ==> s@[t] == ' ',
            b > a ==> s@[b - 1] != ' ',
        decreases b,
    {
        if s[b - 1] != ' ' {
            break ;
        }
        b = b - 1;
    }
    proof {
        assert(forall|t: int| b - a <= t < mid.len() ==> mid[t] == ' ');
        assert(b - a > 0 ==> mid[b - a - 1] != ' ');
        lemma_drop_trailing_at(mid, b - a);
    }
    let mut out: Vec<char> = Vec::new();
    let mut t: usize = a;
    while t < b
        invariant
            a <= t <= b <= n,
            n == s@.len(),
            out@ =~= s@.subrange(a as int, t as int),
        decreases b - t,
    {
        out.push(s[t]);
        t = t + 1;
    }
    proof {
        assert(out@ =~= mid.take(b - a));
    }
    out
}

/// A scan over non-spaces up to a space or the end pins the front word down.
proof fn lemma_wpl_scan(s: Seq<char>, k: int)
    requires
        0 <= k <= s.len(),
        forall|t: int| 0 <= t < k ==> !is_space(#[trigger] s[t]),
        k < s.len() ==> is_space(s[k]),
    ensures
        word_prefix_len(s) == k,
    decreases s.len(),
{
    if k == 0 {
    } else {
        assert(!is_space(s[0]));
        lemma_wpl_scan(s.drop_first(), k - 1);
    }
}

/// The index of the first space at or after `start`, or the text's end.
fn scan_word_end(s: &Vec<char>, start: usize) -> (j: usize)
    requires
        start <= s@.len(),
    ensures
        start <= j <= s@.len(),
        forall|t: int| start <= t < j ==> !is_space(#[trigger] s@[t]),
        j < s@.len() ==> is_space(s@[j as int]),
{
    let n = s.len();
    let mut j = start;
    while j < n
        invariant_except_break
            start <= j <= n,
            n == s@.len(),
            forall|t: int| start <= t < j ==> !is_space(#[trigger] s@[t]),
        ensures
            start <= j <= n,
            n == s@.len(),
            forall|t: int| start <= t < j ==> !is_space(#[trigger] s@[t]),
            j < n ==> is_space(s@[j as int]),
        decreases n - j,
    {
        if is_space_char(s[j]) {
            break ;
        }
        j = j + 1;
    }
    j
}

/// Splits the text into its whitespace-separated words.
#[verifier::loop_isolation(false)]
fn split_words(s: &Vec<char>) -> (r: Vec<Vec<char>>)
    ensures
        r@.map_values(|w: Vec<char>| w@) == words_of(s@),
{
    let n = s.len();
    let mut ws: Vec<Vec<char>> = Vec::new();
    let mut i: usize = 0;
    proof {
        assert(s@.skip(0) =~= s@);
        assert(ws@.map_values(|w: Vec<char>| w@) + words_of(s@) =~= words_of(s@));
    }
    while i < n
        invariant
            i <= n,
            n == s@.len(),
            words_of(s@) == ws@.map_values(|w: Vec<char>| w@) + words_of(s@.skip(i as int)),
        decreases n - i,
    {
        let ghost rest = s@.skip(i as int);
        let ghost before = ws@.map_values(|w: Vec<char>| w@);
        if is_space_char(s[i]) {
            proof {
                assert(rest[0] == s@[i as int]);
                assert(rest.drop_first() =~= s@.skip(i + 1));
            }
            i = i + 1;
        } else {
            let start = i;
            let j = scan_word_end(s, i);
            proof {
                assert(forall|t: int|
                    0 <= t < j - start ==> !is_space(#[trigger] rest[t]));
                assert(j - start < rest.len() ==> is_space(rest[j - start]));
                lemma_wpl_scan(rest, j - start);
                assert(words_of(rest) == seq![rest.take(j - start)] + words_of(
                    rest.skip(j - start),
                ));
                assert(rest.skip(j - start) =~= s@.skip(j as int));
            }
            let mut w: Vec<char> = Vec::new();
            let mut t = start;
            while t < j
                invariant
                    start <= t <= j,
                    w@ =~= s@.subrange(start as int, t as int),
                decreases j - t,
            {
                w.push(s[t]);
                t = t + 1;
            }
            proof {
                assert(w@ =~= rest.take(j - start));
            }
            ws.push(w);
            proof {
                assert(ws@.map_values(|x: Vec<char>| x@) =~= before + seq![
                    rest.take(j - start),
                ]);
                assert(before + seq![rest.take(j - start)] + words_of(s@.skip(j as int)) =~= before
                    + words_of(rest));
            }
            i = j;
        }
    }
    proof {
        assert(s@.skip(n as int) =~= Seq::<char>::empty());
        assert(words_of(Seq::<char>::empty()) == Seq::<Seq<char>>::empty());
        assert(ws@.map_values(|w: Vec<char>| w@) + Seq::<Seq<char>>::empty() =~= ws@.map_values(
            |w: Vec<char>| w@,
        ));
    }
    ws
}

/// Keeps only the words of at least three characters.
#[verifier::loop_isolation(false)]
fn filter_long_words(ws: Vec<Vec<char>>) -> (r: Vec<Vec<char>>)
    ensures
        r@.map_values(|w: Vec<char>| w@) == long_words(ws@.map_values(|w: Vec<char>| w@)),
{
    let ghost allv = ws@.map_values(|w: Vec<char>| w@);
    let total = ws.len();
    let mut rest = ws;
    let mut out: Vec<Vec<char>> = Vec::new();
    let mut k: usize = 0;
    proof {
        assert(rest@.map_values(|w: Vec<char>| w@) =~= allv.skip(0));
        assert(allv.take(0) =~= Seq::<Seq<char>>::empty());
        assert(out@.map_values(|w: Vec<char>| w@) =~= long_words(allv.take(0)));
    }
    while rest.len() > 0
        invariant
            k <= total,
            total == allv.len(),
            k + rest@.len() == allv.len(),
            rest@.map_values(|w: Vec<char>| w@) =~= allv.skip(k as int),
            out@.map_values(|w: Vec<char>| w@) =~= long_words(allv.take(k as int)),
        decreases rest@.len(),
    {
        let ghost d = k as int;
        let ghost pre = rest@;
        let ghost outv = out@.map_values(|w: Vec<char>| w@);
        let w = rest.remove(0);
        proof {
            assert(w@ == allv.skip(d)[0]);
            assert(allv.skip(d)[0] == allv[d]);
            assert(rest@ =~= pre.subrange(1, pre.len() as int));
            assert forall|t: int| 0 <= t < rest@.len() implies rest@.map_values(
                |x: Vec<char>| x@,
            )[t] == #[trigger] allv.skip(d + 1)[t] by {
                assert(rest@[t] == pre[t + 1]);
                assert(pre.map_values(|x: Vec<char>| x@)[t + 1] == allv.skip(d)[t + 1]);
                assert(allv.skip(d)[t + 1] == allv[d + 1 + t]);
                assert(allv.skip(d + 1)[t] == allv[d + 1 + t]);
            }
            assert(rest@.map_values(|x: Vec<char>| x@) =~= allv.skip(d + 1));
            assert(allv.take(d + 1).drop_last() =~= allv.take(d));
            assert(allv.take(d + 1).last() == allv[d]);
        }
        if w.len() >= 3 {
            out.push(w);
            proof {
                assert(out@.map_values(|x: Vec<char>| x@) =~= outv + seq![allv[d]]);
                assert(long_words(allv.take(d + 1)) =~= long_words(allv.take(d)) + seq![allv[d]]);
            }
        } else {
            proof {
                assert(long_words(allv.take(d + 1)) =~= long_words(allv.take(d)));
            }
        }
        k = k + 1;
    }
    proof {
        assert(allv.take(allv.len() as int) =~= allv);
    }
    out
}

/// Joins the words with single spaces.
#[verifier::loop_isolation(false)]
fn join_with_spaces(ws: &Vec<Vec<char>>) -> (r: Vec<char>)
    ensures
        r@ == join_words(ws@.map_values(|w: Vec<char>| w@)),
{
    let ghost wsv = ws@.map_values(|w: Vec<char>| w@);
    let n = ws.len();
    let mut out: Vec<char> = Vec::new();
    let mut k: usize = 0;
    proof {
        assert(out@ =~= join_words(wsv.take(0)));
    }
    while k < n
        invariant
            k <= n,
            n == ws@.len(),
            out@ == join_words(wsv.take(k as int)),
        decreases n - k,
    {
        let ghost outv = out@;
        if k > 0 {
            out.push(' ');
        }
        let ghost mid = out@;
        let wlen = ws[k].len();
        let mut t: usize = 0;
        while t < wlen
            invariant
                t <= wlen,
                wlen == ws@[k as int]@.len(),
                k < n,
                n == ws@.len(),
                out@ =~= mid + ws@[k as int]@.take(t as int),
            decreases wlen - t,
        {
            out.push(ws[k][t]);
            t = t + 1;
        }
        proof {
            assert(ws@[k as int]@.take(wlen as int) =~= wsv[k as int]);
            assert(wsv.take(k + 1).drop_last() =~= wsv.take(k as int));
            assert(wsv.take(k + 1).last() == wsv[k as int]);
            if k == 0 {
                assert(out@ =~= wsv[0]);
                assert(wsv.take(1).len() == 1);
                assert(wsv.take(1)[0] == wsv[0]);
            } else {
                assert(out@ =~= outv + seq![' '] + wsv[k as int]);
                assert(join_words(wsv.take(k + 1)) == join_words(wsv.take(k as int)) + seq![' ']
                    + wsv[k as int]);
            }
        }
        k = k + 1;
    }
    proof {
        assert(wsv.take(n as int) =~= wsv);
    }
    out
}

/// The table of emoticons and the words they are spelled out as, in the
/// order the replacements are applied.
pub open spec fn emoticon_pairs() -> Seq<(Seq<char>, Seq<char>)> {
    seq![
        (" :)"@, " happy"@),
        (" :("@, " sad"@),
        (" :D"@, " very happy"@),
        (" :|"@, " neutral"@),
        (" :O"@, " surprised"@),
        (" <3"@, " love"@),
        (" ;)"@, " wink"@),
        (" :P"@, " playful"@),
        (" :/"@, " confused"@),
        (" :*"@, " kiss"@),
        (" :')"@, " touched"@),
        (" XD"@, " laughing"@),
        (" :3"@, " cute"@),
        (" >:("@, " angry"@),
        (" :-O"@, " shocked"@),
        (" :|]"@, " robot"@),
        (" :>"@, " sly"@),
        (" ^_^"@, " happy"@),
        (" O_o"@, " confused"@),
        (" :-|"@, " straight face"@),
        (" :X"@, " silent"@),
        (" B-)"@, " cool"@),
        (" <(‘.'<)"@, " dance"@),
        (" (-_-)"@, " bored"@),
        (" (>_<)"@, " upset"@),
        (" (¬‿¬)"@, " sarcastic"@),
        (" (o_o)"@, " surprised"@),
        (" (o.O)"@, " shocked"@),
        (" :0"@, " shocked"@),
        (" :*("@, " crying"@),
        (" :v "@, " pac-Man"@),
        (" (^_^)v "@, " double victory"@),
        (" :-D"@, " big grin"@),
        (" :-*"@, " blowing a kiss"@),
        (" :^)"@, " nosey"@),
        (" :-(("@, " very sad"@),
        (" :-("@, " frowning"@),
    ]
}

/// The emoticon table as real strings, in replacement order.
#[verifier::rlimit(60)]
pub fn get_emoticon_map() -> (r: Vec<(&'static str, &'static str)>)
    ensures
        r@.map_values(|p: (&'static str, &'static str)| (p.0@, p.1@)) == emoticon_pairs(),
{
    let mut m: Vec<(&'static str, &'static str)> = Vec::new();
    m.push((" :)", " happy"));
    m.push((" :(", " sad"));
    m.push((" :D", " very happy"));
    m.push((" :|", " neutral"));
    m.push((" :O", " surprised"));
    m.push((" <3", " love"));
    m.push((" ;)", " wink"));
    m.push((" :P", " playful"));
    m.push((" :/", " confused"));
    m.push((" :*", " kiss"));
    m.push((" :')", " touched"));
    m.push((" XD", " laughing"));
    m.push((" :3", " cute"));
    m.push((" >:(", " angry"));
    m.push((" :-O", " shocked"));
    m.push((" :|]", " robot"));
    m.push((" :>", " sly"));
    m.push((" ^_^", " happy"));
    m.push((" O_o", " confused"));
    m.push((" :-|", " straight face"));
    m.push((" :X", " silent"));
    m.push((" B-)", " cool"));
    m.push((" <(‘.'<)", " dance"));
    m.push((" (-_-)", " bored"));
    m.push((" (>_<)", " upset"));
    m.push((" (¬‿¬)", " sarcastic"));
    m.push((" (o_o)", " surprised"));
    m.push((" (o.O)", " shocked"));
    m.push((" :0", " shocked"));
    m.push((" :*(", " crying"));
    m.push((" :v ", " pac-Man"));
    m.push((" (^_^)v ", " double victory"));
    m.push((" :-D", " big grin"));
    m.push((" :-*", " blowing a kiss"));
    m.push((" :^)", " nosey"));
    m.push((" :-((", " very sad"));
    m.push((" :-(", " frowning"));
    proof {
        assert(m@.map_values(|p: (&'static str, &'static str)| (p.0@, p.1@))
            =~= emoticon_pairs());
    }
    m
}

/// The whole normalization: emoticons spelled out as words, the text
/// lowercased, links stripped, short words dropped, everything but letters
/// and spaces removed, long runs squeezed, and the ends trimmed.
pub open spec fn spec_clean(s: Seq<char>) -> Seq<char> {
    trimmed(
        squeezed(
            kept_chars(
                join_words(
                    long_words(
                        words_of(
                            url_stripped(lower_of(apply_replacements(s, emoticon_pairs()))),
                        ),
                    ),
                ),
            ),
        ),
    )
}

/// Normalizes message bodies for scoring.
pub struct TextCleaner {
    emoticons: Vec<(&'static str, &'static str)>,
}

impl TextCleaner {
    /// The cleaner carries the emoticon table in replacement order.
    pub closed spec fn wf(&self) -> bool {
        self.emoticons@.map_values(|p: (&'static str, &'static str)| (p.0@, p.1@))
            == emoticon_pairs()
    }
}

impl Default for TextCleaner {
    fn default() -> (r: TextCleaner)
        ensures
            r.wf(),
    {
        TextCleaner { emoticons: get_emoticon_map() }
    }
}

impl TextCleaner {
    /// Spells each emoticon of the table out as its word, in table order.
    #[verifier::loop_isolation(false)]
    pub fn clean_emoticons(&self, s: &str) -> (r: String)
        requires
            self.wf(),
        ensures
            r@ == apply_replacements(s@, emoticon_pairs()),
    {
        let ghost tbl = emoticon_pairs();
        let mut cur = chars_of(s);
        let n = self.emoticons.len();
        let mut k: usize = 0;
        proof {
            assert(tbl.take(0) =~= Seq::<(Seq<char>, Seq<char>)>::empty());
        }
        while k < n
            invariant
                k <= n,
                n == self.emoticons@.len(),
                cur@ == apply_replacements(s@, tbl.take(k as int)),
            decreases n - k,
        {
            let pat = chars_of(self.emoticons[k].0);
            let sub = chars_of(self.emoticons[k].1);
            proof {
                assert(self.emoticons@.map_values(
                    |p: (&'static str, &'static str)| (p.0@, p.1@),
                )[k as int] == tbl[k as int]);
                assert((pat@, sub@) == tbl[k as int]);
                assert(pat@ == tbl[k as int].0);
                assert(sub@ == tbl[k as int].1);
                assert(tbl.take(k + 1) =~= tbl.take(k as int).push(tbl[k as int]));
                lemma_apply_replacements_push(s@, tbl.take(k as int), tbl[k as int]);
            }
            cur = replace_all(&cur, &pat, &sub);
            k = k + 1;
        }
        proof {
            assert(tbl.take(n as int) =~= tbl);
        }
        string_of(&cur)
    }

    /// Strips link text out.
    pub fn clean_links(&self, s: &str) -> (r: String)
        ensures
            r@ == url_stripped(s@),
    {
        strip_urls(s)
    }

    /// Drops every word shorter than three characters, joining the rest with
    /// single spaces.
    pub fn clean_short_words(&self, s: &str) -> (r: String)
        ensures
            r@ == join_words(long_words(words_of(s@))),
    {
        let cs = chars_of(s);
        let ws = split_words(&cs);
        let lw = filter_long_words(ws);
        let joined = join_with_spaces(&lw);
        string_of(&joined)
    }

    /// Keeps only letters and spaces.
    pub fn clean_invalid_chars(&self, s: &str) -> (r: String)
        ensures
            r@ == kept_chars(s@),
    {
        let cs = chars_of(s);
        let kept = keep_letters_and_spaces(&cs);
        string_of(&kept)
    }

    /// Squeezes repeated characters: at most two of a kind in a row, and no
    /// repeated spaces.
    pub fn clean_repeat_chars(&self, s: &str) -> (r: String)
        ensures
            r@ == squeezed(s@),
    {
        let cs = chars_of(s);
        let sq = squeeze_repeats(&cs);
        string_of(&sq)
    }

    /// Runs the whole normalization pipeline over a message body.
    pub fn clean(&self, s: &str) -> (r: String)
        requires
            self.wf(),
        ensures
            r@ == spec_clean(s@),
    {
        let spelled = self.clean_emoticons(s);
        let lowered = lowercase(spelled.as_str());
        let unlinked = self.clean_links(lowered.as_str());
        let long = self.clean_short_words(unlinked.as_str());
        let lettered = self.clean_invalid_chars(long.as_str());
        let squeezed_text = self.clean_repeat_chars(lettered.as_str());
        let cs = chars_of(squeezed_text.as_str());
        let trimmed_text = trim_spaces(&cs);
        string_of(&trimmed_text)
    }
}

} // verus!
