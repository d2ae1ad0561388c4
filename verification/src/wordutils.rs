//! Small text utilities: splitting a phrase into whitespace-separated
//! words and extracting its initials.

use vstd::prelude::*;
use vstd::string::StrSliceExecFns;

verus! {

/// The whitespace this module splits on: space, tab, line feed and
/// carriage return.
pub open spec fn is_space_char(c: char) -> bool {
    c == ' ' || c == '\t' || c == '\n' || c == '\r'
}

fn is_space(c: char) -> (r: bool)
    ensures
        r == is_space_char(c),
{
    c == ' ' || c == '\t' || c == '\n' || c == '\r'
}

/// The words of `s` from position `i` on: maximal runs of non-whitespace
/// characters, in order.
pub open spec fn words_from(s: Seq<char>, i: int) -> Seq<Seq<char>>
    decreases s.len() - i,
    when 0 <= i <= s.len()
{
    if i >= s.len() {
        Seq::empty()
    } else if is_space_char(s[i]) {
        words_from(s, i + 1)
    } else {
        let rest = words_from(s, i + 1);
        if i + 1 < s.len() && !is_space_char(s[i + 1]) {
            seq![seq![s[i]] + rest.first()] + rest.drop_first()
        } else {
            seq![seq![s[i]]] + rest
        }
    }
}

/// The whitespace-separated words of `s`, in order.
pub open spec fn spec_words(s: Seq<char>) -> Seq<Seq<char>> {
    words_from(s, 0)
}

/// A maximal non-whitespace run `[i, j)` is exactly the next word.
proof fn lemma_word_chunk(s: Seq<char>, i: int, j: int)
    requires
        0 <= i < j <= s.len(),
        forall|k: int| i <= k < j ==> !is_space_char(#[trigger] s[k]),
        j == s.len() || is_space_char(s[j]),
    ensures
        words_from(s, i) == seq![s.subrange(i, j)] + words_from(s, j),
    decreases j - i,
{
    if i + 1 == j {
        assert(seq![s[i]] =~= s.subrange(i, j));
        assert(words_from(s, i) =~= seq![s.subrange(i, j)] + words_from(s, j));
    } else {
        lemma_word_chunk(s, i + 1, j);
        let rest = words_from(s, i + 1);
        assert(rest == seq![s.subrange(i + 1, j)] + words_from(s, j));
        assert(rest.first() == s.subrange(i + 1, j));
        assert(rest.drop_first() =~= words_from(s, j));
        assert(seq![s[i]] + s.subrange(i + 1, j) =~= s.subrange(i, j));
        assert(words_from(s, i) =~= seq![s.subrange(i, j)] + words_from(s, j));
    }
}

/// Split a phrase into its whitespace-separated words, in order.
pub fn words(phrase: &str) -> (r: Vec<String>)
    ensures
        r.deep_view() == spec_words(phrase@),
{
    let n = phrase.unicode_len();
    let mut out: Vec<String> = Vec::new();
    let mut i: usize = 0;
    while i < n
        invariant
            n == phrase@.len(),
            i <= n,
            out.deep_view() + words_from(phrase@, i as int) == spec_words(phrase@),
        decreases n - i,
    {
        let c = phrase.get_char(i);
        if is_space(c) {
            i += 1;
        } else {
            let mut j: usize = i + 1;
            while j < n && !is_space(phrase.get_char(j))
                invariant
                    n == phrase@.len(),
                    i < j <= n,
                    forall|k: int| i <= k < j ==> !is_space_char(#[trigger] phrase@[k]),
                decreases n - j,
            {
                j += 1;
            }
            proof {
                lemma_word_chunk(phrase@, i as int, j as int);
            }
            let ghost pre = out.deep_view();
            let w = phrase.substring_char(i, j);
            out.push(w.to_owned());
            proof {
                assert(out.deep_view() =~~= pre.push(phrase@.subrange(i as int, j as int)));
                assert(out.deep_view() + words_from(phrase@, j as int) =~~= spec_words(
                    phrase@,
                ));
            }
            i = j;
        }
    }
    proof {
        assert(out.deep_view() =~~= spec_words(phrase@));
    }
    out
}

/// ASCII uppercasing of one character; anything outside `a..z` is kept
/// as it is.
pub open spec fn upper_char(c: char) -> char {
    if 97 <= c as int <= 122 {
        (c as int - 32) as char
    } else {
        c
    }
}

fn to_upper(c: char) -> (r: char)
    ensures
        r == upper_char(c),
{
    match c {
        'a' => 'A',
        'b' => 'B',
        'c' => 'C',
        'd' => 'D',
        'e' => 'E',
        'f' => 'F',
        'g' => 'G',
        'h' => 'H',
        'i' => 'I',
        'j' => 'J',
        'k' => 'K',
        'l' => 'L',
        'm' => 'M',
        'n' => 'N',
        'o' => 'O',
        'p' => 'P',
        'q' => 'Q',
        'r' => 'R',
        's' => 'S',
        't' => 'T',
        'u' => 'U',
        'v' => 'V',
        'w' => 'W',
        'x' => 'X',
        'y' => 'Y',
        'z' => 'Z',
        _ => c,
    }
}

/// Relies on `String::push`: appends one character at the end.
#[verifier::external_body]
fn push_char(s: &mut String, c: char)
    ensures
        final(s)@ == old(s)@.push(c),
{
    s.push(c);
}

/// The initials of `s`: the first character of each word, uppercased,
/// joined with nothing in between.
pub open spec fn spec_initials(s: Seq<char>) -> Seq<char> {
    spec_words(s).map_values(|w: Seq<char>| upper_char(w.first()))
}

/// Every word `words_from` yields is non-empty.
proof fn lemma_words_nonempty(s: Seq<char>, i: int)
    requires
        0 <= i <= s.len(),
    ensures
        forall|k: int|
            0 <= k < words_from(s, i).len() ==> (#[trigger] words_from(s, i)[k]).len() > 0,
    decreases s.len() - i,
{
    if i >= s.len() {
    } else if is_space_char(s[i]) {
        lemma_words_nonempty(s, i + 1);
    } else {
        lemma_words_nonempty(s, i + 1);
        let rest = words_from(s, i + 1);
        if i + 1 < s.len() && !is_space_char(s[i + 1]) {
            assert(rest[0].len() > 0);
        }
    }
}

/// Given a string, extract the initials: the first character of each
/// word, ASCII-uppercased, joined together with no spaces. An empty
/// phrase, or one of nothing but whitespace, yields the empty string.
pub fn initials(phrase: &str) -> (r: String)
    ensures
        r@ == spec_initials(phrase@),
{
    let ws = words(phrase);
    proof {
        lemma_words_nonempty(phrase@, 0);
    }
    let mut out = String::new();
    let n = ws.len();
    let mut k: usize = 0;
    while k < n
        invariant
            n == ws.deep_view().len(),
            n == ws@.len(),
            k <= n,
            ws.deep_view() == spec_words(phrase@),
            forall|m: int|
                0 <= m < words_from(phrase@, 0).len() ==> (#[trigger] words_from(phrase@, 0)[
                    m]).len() > 0,
            out@ == spec_initials(phrase@).take(k as int),
        decreases n - k,
    {
        proof {
            assert(ws@[k as int]@ == ws.deep_view()[k as int]);
            assert(ws.deep_view()[k as int].len() > 0);
        }
        let first = ws[k].as_str().get_char(0);
        push_char(&mut out, to_upper(first));
        proof {
            assert(out@ =~= spec_initials(phrase@).take(k + 1));
        }
        k += 1;
    }
    proof {
        assert(out@ =~= spec_initials(phrase@));
    }
    out
}

} // verus!
