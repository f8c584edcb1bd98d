//! Text normalization: queries and learned texts are indexed by their
//! lowercased alphanumeric characters; words are the maximal alphanumeric
//! runs of a text.
use vstd::prelude::*;
use vstd::string::StrSliceExecFns;

verus! {

/// The lowercase equivalent of a character sequence, as `str::to_lowercase`
/// computes it.
pub uninterp spec fn lower_of(s: Seq<char>) -> Seq<char>;

/// Whether a character is alphanumeric, as `char::is_alphanumeric` decides it.
pub uninterp spec fn alnum(c: char) -> bool;

/// Relies on `str::to_lowercase`: the returned string is the lowercase
/// equivalent of the receiver, a function of its characters alone.
pub assume_specification[ str::to_lowercase ](s: &str) -> (r: String)
    ensures
        r@ == lower_of(s@),
;

/// Relies on `char::is_alphanumeric`: whether the character is in the Unicode
/// Alphabetic or Number categories, a property of the character alone.
pub assume_specification[ char::is_alphanumeric ](c: char) -> (r: bool)
    ensures
        r == alnum(c),
;

/// `s` with every non-alphanumeric character removed.
pub open spec fn keep_alnum(s: Seq<char>) -> Seq<char>
    decreases s.len(),
{
    if s.len() == 0 {
        Seq::empty()
    } else if alnum(s.last()) {
        keep_alnum(s.drop_last()).push(s.last())
    } else {
        keep_alnum(s.drop_last())
    }
}

/// The normalized form of a word or query: lowercased, with every
/// non-alphanumeric character removed. Only normalized characters label
/// trie edges.
pub open spec fn norm_of(s: Seq<char>) -> Seq<char> {
    keep_alnum(lower_of(s))
}

/// The compact path of a term text: all its alphanumeric characters joined
/// (delimiters discarded), then normalized.
pub open spec fn compact_of(s: Seq<char>) -> Seq<char> {
    norm_of(keep_alnum(s))
}

/// The words collected by a left-to-right scan of `s` from position `i`,
/// where `cur` is the (possibly empty) run of alphanumeric characters read
/// just before `i` and `acc` the words already complete.
pub open spec fn split_from(s: Seq<char>, i: int, cur: Seq<char>, acc: Seq<Seq<char>>) -> Seq<
    Seq<char>,
>
    decreases s.len() - i,
    when 0 <= i <= s.len()
{
    if i >= s.len() {
        if cur.len() > 0 {
            acc.push(cur)
        } else {
            acc
        }
    } else if alnum(s[i]) {
        split_from(s, i + 1, cur.push(s[i]), acc)
    } else {
        split_from(s, i + 1, Seq::empty(), if cur.len() > 0 {
            acc.push(cur)
        } else {
            acc
        })
    }
}

/// The words of a text: its maximal runs of alphanumeric characters, in
/// order. Delimiter runs are discarded and never yield empty words.
pub open spec fn words_of(s: Seq<char>) -> Seq<Seq<char>> {
    split_from(s, 0, Seq::empty(), Seq::empty())
}

/// Relies on `Iterator::collect` for `String`: collecting characters yields
/// the string of exactly those characters, in order.
#[verifier::external_body]
fn string_from_chars(v: &Vec<char>) -> (r: String)
    ensures
        r@ == v@,
{
    v.iter().collect()
}

/// The characters of `s`, in order, as a vector.
pub fn chars_of(s: &str) -> (r: Vec<char>)
    ensures
        r@ == s@,
{
    let n: usize = s.unicode_len();
    let mut r: Vec<char> = Vec::new();
    let mut i: usize = 0;
    while i < n
        invariant
            i <= n,
            n == s@.len(),
            r@ == s@.take(i as int),
        decreases n - i,
    {
        let c: char = s.get_char(i);
        r.push(c);
        proof {
            assert(s@.take(i + 1) =~= s@.take(i as int).push(s@[i as int]));
        }
        i += 1;
    }
    proof {
        assert(s@.take(n as int) =~= s@);
    }
    r
}

/// The normalized form of `s` as a character vector.
pub fn normalize(s: &str) -> (r: Vec<char>)
    ensures
        r@ == norm_of(s@),
{
    let low: String = s.to_lowercase();
    let cs: Vec<char> = chars_of(low.as_str());
    let mut r: Vec<char> = Vec::new();
    let mut i: usize = 0;
    while i < cs.len()
        invariant
            i <= cs@.len(),
            cs@ == lower_of(s@),
            r@ == keep_alnum(cs@.take(i as int)),
        decreases cs@.len() - i,
    {
        let c: char = cs[i];
        proof {
            assert(cs@.take(i + 1).drop_last() =~= cs@.take(i as int));
            assert(cs@.take(i + 1).last() == cs@[i as int]);
        }
        if c.is_alphanumeric() {
            r.push(c);
        }
        i += 1;
    }
    proof {
        assert(cs@.take(cs@.len() as int) =~= cs@);
    }
    r
}

/// All alphanumeric characters of `s` joined into one string, delimiters
/// discarded.
pub fn compact_text(s: &str) -> (r: String)
    ensures
        r@ == keep_alnum(s@),
{
    let cs: Vec<char> = chars_of(s);
    let mut kept: Vec<char> = Vec::new();
    let mut i: usize = 0;
    while i < cs.len()
        invariant
            i <= cs@.len(),
            cs@ == s@,
            kept@ == keep_alnum(cs@.take(i as int)),
        decreases cs@.len() - i,
    {
        let c: char = cs[i];
        proof {
            assert(cs@.take(i + 1).drop_last() =~= cs@.take(i as int));
            assert(cs@.take(i + 1).last() == cs@[i as int]);
        }
        if c.is_alphanumeric() {
            kept.push(c);
        }
        i += 1;
    }
    proof {
        assert(cs@.take(cs@.len() as int) =~= cs@);
    }
    string_from_chars(&kept)
}

/// The words of `s`, each as its own string.
pub fn split_words(s: &str) -> (r: Vec<String>)
    ensures
        r.deep_view() == words_of(s@),
{
    let cs: Vec<char> = chars_of(s);
    let mut words: Vec<String> = Vec::new();
    let mut cur: Vec<char> = Vec::new();
    let mut i: usize = 0;
    proof {
        assert(words.deep_view() =~= Seq::<Seq<char>>::empty());
        assert(cur@ =~= Seq::<char>::empty());
    }
    while i < cs.len()
        invariant
            i <= cs@.len(),
            cs@ == s@,
            words_of(s@) == split_from(s@, i as int, cur@, words.deep_view()),
        decreases cs@.len() - i,
    {
        let c: char = cs[i];
        let ghost prev_words = words.deep_view();
        let ghost prev_cur = cur@;
        if c.is_alphanumeric() {
            cur.push(c);
            proof {
                assert(words.deep_view() =~= prev_words);
                assert(split_from(s@, i as int, prev_cur, prev_words) == split_from(
                    s@,
                    i + 1,
                    cur@,
                    words.deep_view(),
                ));
            }
        } else {
            if cur.len() > 0 {
                let w: String = string_from_chars(&cur);
                words.push(w);
                proof {
                    assert(words.deep_view() =~= prev_words.push(prev_cur));
                }
                cur = Vec::new();
            }
            proof {
                assert(cur@ =~= Seq::<char>::empty());
                assert(split_from(s@, i as int, prev_cur, prev_words) == split_from(
                    s@,
                    i + 1,
                    cur@,
                    words.deep_view(),
                ));
            }
        }
        i += 1;
    }
    if cur.len() > 0 {
        let ghost prev_words = words.deep_view();
        let ghost prev_cur = cur@;
        let w: String = string_from_chars(&cur);
        words.push(w);
        proof {
            assert(words.deep_view() =~= prev_words.push(prev_cur));
        }
    }
    words
}

} // verus!
