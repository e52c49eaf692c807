use vstd::prelude::*;
use vstd::string::{StrSliceExecFns, StringExecFns};

verus! {

/// The characters that `char::is_whitespace` accepts: those with the Unicode
/// `White_Space` property.
pub open spec fn is_space(c: char) -> bool {
    ||| c == ' '
    ||| ('\u{9}' <= c && c <= '\u{D}')
    ||| c == '\u{85}'
    ||| c == '\u{A0}'
    ||| c == '\u{1680}'
    ||| ('\u{2000}' <= c && c <= '\u{200A}')
    ||| c == '\u{2028}'
    ||| c == '\u{2029}'
    ||| c == '\u{202F}'
    ||| c == '\u{205F}'
    ||| c == '\u{3000}'
}

/// Every character of `s` is white space (so an empty `s` is blank).
pub open spec fn is_blank(s: Seq<char>) -> bool {
    forall|i: int| 0 <= i < s.len() ==> is_space(#[trigger] s[i])
}

/// The four characters that the grammar treats as white space.
pub open spec fn is_wsp(c: char) -> bool {
    c == ' ' || c == '\t' || c == '\r' || c == '\n'
}

pub open spec fn is_alpha(c: char) -> bool {
    ('a' <= c && c <= 'z') || ('A' <= c && c <= 'Z')
}

/// The characters that may follow the first letter of a name.
pub open spec fn is_name_char(c: char) -> bool {
    is_alpha(c) || ('0' <= c && c <= '9') || c == '_' || c == '-' || c == ':'
}

pub open spec fn ascii_lower(c: char) -> char {
    if 'A' <= c && c <= 'Z' {
        ((c as u8) + 32) as char
    } else {
        c
    }
}

pub fn space(c: char) -> (r: bool)
    ensures
        r == is_space(c),
{
    c == ' ' || ('\u{9}' <= c && c <= '\u{D}') || c == '\u{85}' || c == '\u{A0}' || c
        == '\u{1680}' || ('\u{2000}' <= c && c <= '\u{200A}') || c == '\u{2028}' || c
        == '\u{2029}' || c == '\u{202F}' || c == '\u{205F}' || c == '\u{3000}'
}

pub fn wsp(c: char) -> (r: bool)
    ensures
        r == is_wsp(c),
{
    c == ' ' || c == '\t' || c == '\r' || c == '\n'
}

pub fn alpha(c: char) -> (r: bool)
    ensures
        r == is_alpha(c),
{
    ('a' <= c && c <= 'z') || ('A' <= c && c <= 'Z')
}

pub fn name_char(c: char) -> (r: bool)
    ensures
        r == is_name_char(c),
{
    alpha(c) || ('0' <= c && c <= '9') || c == '_' || c == '-' || c == ':'
}

pub fn lower(c: char) -> (r: char)
    ensures
        r == ascii_lower(c),
{
    if 'A' <= c && c <= 'Z' {
        ((c as u8) + 32) as char
    } else {
        c
    }
}

/// Whether `s[lo..hi]` is blank.
pub fn blank(s: &Vec<char>, lo: usize, hi: usize) -> (r: bool)
    requires
        lo <= hi <= s@.len(),
    ensures
        r == is_blank(s@.subrange(lo as int, hi as int)),
{
    let mut i: usize = lo;
    while i < hi
        invariant
            lo <= i <= hi <= s@.len(),
            forall|k: int| lo <= k < i ==> is_space(#[trigger] s@[k]),
        decreases hi - i,
    {
        if !space(s[i]) {
            assert(!is_space(s@.subrange(lo as int, hi as int)[i - lo]));
            return false;
        }
        i = i + 1;
    }
    assert forall|k: int| 0 <= k < hi - lo implies is_space(
        #[trigger] s@.subrange(lo as int, hi as int)[k],
    ) by {
        assert(is_space(s@[lo + k]));
    }
    true
}

/// The characters of a string, one by one.
pub fn to_chars(s: &str) -> (r: Vec<char>)
    ensures
        r@ == s@,
{
    let mut v: Vec<char> = Vec::new();
    for c in it: s.chars()
        invariant
            v@ == it.seq().take(it.index() as int),
    {
        v.push(c);
    }
    v
}

} // verus!

verus! {

/// The end of the word that starts at `i`: the first white space from `i` on.
pub open spec fn word_end(s: Seq<char>, i: int) -> int
    decreases s.len() - i,
{
    if i < 0 || i >= s.len() || is_space(s[i]) {
        i
    } else {
        word_end(s, i + 1)
    }
}

/// The words of `s` from `i` on: its longest runs of characters that are
/// not white space, in order.
pub open spec fn words_from(s: Seq<char>, i: int) -> Seq<Seq<char>>
    decreases s.len() - i,
{
    if i < 0 || i >= s.len() {
        Seq::empty()
    } else if is_space(s[i]) {
        words_from(s, i + 1)
    } else if word_end(s, i) <= i || word_end(s, i) > s.len() {
        Seq::empty()
    } else {
        seq![s.subrange(i, word_end(s, i))] + words_from(s, word_end(s, i))
    }
}

/// The words of `s`, as `str::split_whitespace` gives them.
pub open spec fn words(s: Seq<char>) -> Seq<Seq<char>> {
    words_from(s, 0)
}

pub proof fn lemma_word_end_bounds(s: Seq<char>, i: int)
    requires
        0 <= i <= s.len(),
    ensures
        i <= word_end(s, i) <= s.len(),
        0 <= i < s.len() && !is_space(s[i]) ==> i < word_end(s, i),
    decreases s.len() - i,
{
    if i < s.len() && !is_space(s[i]) {
        lemma_word_end_bounds(s, i + 1);
    }
}

/// The views of a sequence of strings.
pub open spec fn strs_view(v: Seq<String>) -> Seq<Seq<char>> {
    v.map_values(|x: String| x@)
}

/// `s[a..b]` as a new string.
pub fn slice(s: &str, a: usize, b: usize) -> (r: String)
    requires
        a <= b <= s@.len(),
    ensures
        r@ == s@.subrange(a as int, b as int),
{
    String::from_str(s.substring_char(a, b))
}

/// Splits `s` at white space, as `str::split_whitespace` does.
pub fn split_words(s: &str) -> (r: Vec<String>)
    ensures
        strs_view(r@) == words(s@),
{
    let cs = to_chars(s);
    let mut out: Vec<String> = Vec::new();
    let mut i: usize = 0;
    while i < cs.len()
        invariant
            cs@ == s@,
            i <= cs@.len(),
            strs_view(out@) + words_from(s@, i as int) == words(s@),
        decreases cs@.len() - i,
    {
        if space(cs[i]) {
            i = i + 1;
        } else {
            let mut j = i + 1;
            proof {
                lemma_word_end_bounds(s@, i as int);
            }
            while j < cs.len() && !space(cs[j])
                invariant
                    cs@ == s@,
                    i < j <= cs@.len(),
                    word_end(s@, i as int) == word_end(s@, j as int),
                decreases cs@.len() - j,
            {
                j = j + 1;
            }
            let w = slice(s, i, j);
            proof {
                assert(strs_view(out@.push(w)) == strs_view(out@).push(w@));
                assert(words_from(s@, i as int) == seq![w@] + words_from(s@, j as int));
            }
            out.push(w);
            i = j;
        }
    }
    out
}

/// Whether `a` is the string `b`.
pub fn same(a: &str, b: &str) -> (r: bool)
    ensures
        r == (a@ == b@),
{
    let n = a.unicode_len();
    if n != b.unicode_len() {
        return false;
    }
    let mut i: usize = 0;
    while i < n
        invariant
            n == a@.len() == b@.len(),
            i <= n,
            a@.subrange(0, i as int) == b@.subrange(0, i as int),
        decreases n - i,
    {
        if a.get_char(i) != b.get_char(i) {
            return false;
        }
        assert(a@.subrange(0, i + 1) == a@.subrange(0, i as int).push(a@[i as int]));
        assert(b@.subrange(0, i + 1) == b@.subrange(0, i as int).push(b@[i as int]));
        i = i + 1;
    }
    assert(a@ == a@.subrange(0, n as int));
    assert(b@ == b@.subrange(0, n as int));
    true
}

/// `s` with its ASCII capitals made small.
pub open spec fn lower_seq(s: Seq<char>) -> Seq<char> {
    s.map_values(|c: char| ascii_lower(c))
}

/// Whether `a` is `b` when ASCII case is ignored in `a`; `b` is given in
/// small letters.
pub fn same_ci(a: &str, b: &str) -> (r: bool)
    ensures
        r == (lower_seq(a@) == b@),
{
    let n = a.unicode_len();
    if n != b.unicode_len() {
        return false;
    }
    let mut i: usize = 0;
    while i < n
        invariant
            n == a@.len() == b@.len(),
            i <= n,
            lower_seq(a@).subrange(0, i as int) == b@.subrange(0, i as int),
        decreases n - i,
    {
        if lower(a.get_char(i)) != b.get_char(i) {
            assert(lower_seq(a@)[i as int] != b@[i as int]);
            return false;
        }
        assert(lower_seq(a@).subrange(0, i + 1) == lower_seq(a@).subrange(0, i as int).push(
            lower_seq(a@)[i as int],
        ));
        assert(b@.subrange(0, i + 1) == b@.subrange(0, i as int).push(b@[i as int]));
        i = i + 1;
    }
    assert(lower_seq(a@) == lower_seq(a@).subrange(0, n as int));
    assert(b@ == b@.subrange(0, n as int));
    true
}

/// The decimal digit `d`.
pub open spec fn digit_char(d: nat) -> char {
    ((d + 48) as u8) as char
}

/// The decimal notation of `n`.
pub open spec fn decimal(n: nat) -> Seq<char>
    decreases n,
{
    if n < 10 {
        seq![digit_char(n)]
    } else {
        decimal(n / 10) + seq![digit_char(n % 10)]
    }
}

fn digit_str(d: usize) -> (r: &'static str)
    requires
        d < 10,
    ensures
        r@ == seq![digit_char(d as nat)],
{
    proof {
        reveal_strlit("0");
        reveal_strlit("1");
        reveal_strlit("2");
        reveal_strlit("3");
        reveal_strlit("4");
        reveal_strlit("5");
        reveal_strlit("6");
        reveal_strlit("7");
        reveal_strlit("8");
        reveal_strlit("9");
    }
    let r = match d {
        0 => "0",
        1 => "1",
        2 => "2",
        3 => "3",
        4 => "4",
        5 => "5",
        6 => "6",
        7 => "7",
        8 => "8",
        _ => "9",
    };
    assert(r@ =~= seq![digit_char(d as nat)]);
    r
}

/// Appends the decimal notation of `n`.
pub fn push_decimal(out: &mut String, n: usize)
    ensures
        final(out)@ == old(out)@ + decimal(n as nat),
    decreases n,
{
    if n >= 10 {
        push_decimal(out, n / 10);
    }
    out.append(digit_str(n % 10));
    assert(final(out)@ =~= old(out)@ + decimal(n as nat));
}

} // verus!
