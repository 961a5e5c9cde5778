//! Splitting a text into tokens, and the token-level transformations.
use vstd::prelude::*;

verus! {

/// The characters that separate tokens: a newline or a space.
pub open spec fn is_delimiter(c: char) -> bool {
    c == '\n' || c == ' '
}

/// The pieces of `s` between delimiters, empty ones included: always one
/// more piece than there are delimiters.
pub open spec fn pieces(s: Seq<char>) -> Seq<Seq<char>>
    decreases s.len(),
{
    if s.len() == 0 {
        seq![Seq::<char>::empty()]
    } else {
        let prev = pieces(s.drop_last());
        if is_delimiter(s.last()) {
            prev.push(Seq::<char>::empty())
        } else {
            prev.update(prev.len() - 1, prev.last().push(s.last()))
        }
    }
}

/// The tokens of `s`: none for an empty text, else the pieces between
/// delimiters, empty ones included.
pub open spec fn split_tokens(s: Seq<char>) -> Seq<Seq<char>> {
    if s.len() == 0 {
        Seq::<Seq<char>>::empty()
    } else {
        pieces(s)
    }
}

/// Splits `text` into its tokens, in order.
pub fn tokenize(text: &str) -> (r: Vec<String>)
    ensures
        r@.map_values(|t: String| t@) == split_tokens(text@),
{
    let n = text.unicode_len();
    let mut done: Vec<String> = Vec::new();
    if n == 0 {
        assert(done@.map_values(|t: String| t@) =~= split_tokens(text@));
        return done;
    }
    let mut cur = String::new();
    let mut i: usize = 0;
    while i < n
        invariant
            n == text@.len(),
            i <= n,
            done@.map_values(|t: String| t@).push(cur@) == pieces(text@.take(i as int)),
        decreases n - i,
    {
        let c = text.get_char(i);
        let ghost prev_done = done@.map_values(|t: String| t@);
        let ghost prev_cur = cur@;
        let ghost next = text@.take(i + 1);
        assert(next.drop_last() == text@.take(i as int));
        assert(next.last() == c);
        assert(pieces(next) == if is_delimiter(c) {
            pieces(text@.take(i as int)).push(Seq::<char>::empty())
        } else {
            let p = pieces(text@.take(i as int));
            p.update(p.len() - 1, p.last().push(c))
        });
        if c == '\n' || c == ' ' {
            done.push(cur);
            cur = String::new();
            assert(done@.map_values(|t: String| t@) =~= prev_done.push(prev_cur));
            assert(done@.map_values(|t: String| t@).push(cur@) =~= prev_done.push(prev_cur).push(
                Seq::<char>::empty(),
            ));
        } else {
            let piece = text.substring_char(i, i + 1);
            assert(piece@ == seq![c]);
            cur.append(piece);
            assert(done@.map_values(|t: String| t@) =~= prev_done);
            assert(cur@ == prev_cur.push(c));
            assert(prev_done.push(prev_cur).update(prev_done.len() as int, cur@)
                =~= prev_done.push(cur@));
        }
        i = i + 1;
    }
    assert(text@.take(n as int) == text@);
    let ghost before = done@.map_values(|t: String| t@);
    done.push(cur);
    assert(done@.map_values(|t: String| t@) =~= before.push(cur@));
    done
}

/// `s` with every occurrence of `c` taken out.
pub open spec fn remove_char(s: Seq<char>, c: char) -> Seq<char>
    decreases s.len(),
{
    if s.len() == 0 {
        s
    } else if s.last() == c {
        remove_char(s.drop_last(), c)
    } else {
        remove_char(s.drop_last(), c).push(s.last())
    }
}

pub proof fn lemma_remove_char_len(s: Seq<char>, c: char)
    ensures
        remove_char(s, c).len() <= s.len(),
        s.contains(c) ==> remove_char(s, c).len() < s.len(),
    decreases s.len(),
{
    if s.len() > 0 {
        lemma_remove_char_len(s.drop_last(), c);
        if s.contains(c) && s.last() != c {
            let k = choose|k: int| 0 <= k < s.len() && s[k] == c;
            assert(s.drop_last()[k] == c);
        }
    }
}

/// Strips punctuation from the edges of `t` until neither its last nor its
/// first character is in `punc`: a trailing one is dropped alone, a leading
/// one is removed together with all its other occurrences in the token.
pub open spec fn strip_edges(t: Seq<char>, punc: Seq<char>) -> Seq<char>
    decreases t.len() via strip_edges_decreases
{
    if t.len() > 0 && punc.contains(t.last()) {
        strip_edges(t.drop_last(), punc)
    } else if t.len() > 0 && punc.contains(t[0]) {
        strip_edges(remove_char(t, t[0]), punc)
    } else {
        t
    }
}

#[via_fn]
proof fn strip_edges_decreases(t: Seq<char>, punc: Seq<char>) {
    if t.len() > 0 && !punc.contains(t.last()) && punc.contains(t[0]) {
        assert(t.contains(t[0]));
        lemma_remove_char_len(t, t[0]);
    }
}

/// The stripped form of a token: an acronym is kept whole, any other token
/// loses the punctuation at its edges.
pub open spec fn strip_token(t: Seq<char>, punc: Seq<char>, acronyms: Seq<Seq<char>>) -> Seq<char> {
    if acronyms.contains(t) {
        t
    } else {
        strip_edges(t, punc)
    }
}

/// Neither end of `t` is punctuation.
pub open spec fn clean_edges(t: Seq<char>, punc: Seq<char>) -> bool {
    t.len() > 0 ==> !punc.contains(t.last()) && !punc.contains(t[0])
}

pub proof fn lemma_strip_edges_clean(t: Seq<char>, punc: Seq<char>)
    ensures
        clean_edges(strip_edges(t, punc), punc),
    decreases t.len(),
{
    if t.len() > 0 && punc.contains(t.last()) {
        lemma_strip_edges_clean(t.drop_last(), punc);
    } else if t.len() > 0 && punc.contains(t[0]) {
        assert(t.contains(t[0]));
        lemma_remove_char_len(t, t[0]);
        lemma_strip_edges_clean(remove_char(t, t[0]), punc);
    }
}

/// A token already stripped is left as it is by stripping again.
pub proof fn lemma_strip_token_fixed(t: Seq<char>, punc: Seq<char>, acronyms: Seq<Seq<char>>)
    ensures
        strip_token(strip_token(t, punc, acronyms), punc, acronyms) == strip_token(t, punc, acronyms),
{
    if !acronyms.contains(t) {
        lemma_strip_edges_clean(t, punc);
    }
}

/// Whether `c` occurs in `s`.
pub fn contains_char(s: &Vec<char>, c: char) -> (r: bool)
    ensures
        r == s@.contains(c),
{
    let mut i: usize = 0;
    while i < s.len()
        invariant
            i <= s@.len(),
            forall|k: int| 0 <= k < i ==> s@[k] != c,
        decreases s@.len() - i,
    {
        if s[i] == c {
            return true;
        }
        i = i + 1;
    }
    false
}

/// `s` without any occurrence of `c`.
pub fn without_char(s: &str, c: char) -> (r: String)
    ensures
        r@ == remove_char(s@, c),
{
    let n = s.unicode_len();
    let mut r = String::new();
    let mut i: usize = 0;
    while i < n
        invariant
            n == s@.len(),
            i <= n,
            r@ == remove_char(s@.take(i as int), c),
        decreases n - i,
    {
        let d = s.get_char(i);
        assert(s@.take(i + 1).drop_last() == s@.take(i as int));
        if d != c {
            r.append(s.substring_char(i, i + 1));
        }
        i = i + 1;
    }
    assert(s@.take(n as int) == s@);
    r
}

/// Strips punctuation of `punc` from the edges of `t`.
pub fn strip_punctuation(t: &str, punc: &Vec<char>) -> (r: String)
    ensures
        r@ == strip_edges(t@, punc@),
{
    let mut j = String::from_str(t);
    loop
        invariant
            strip_edges(j@, punc@) == strip_edges(t@, punc@),
        decreases j@.len(),
    {
        let n = j.unicode_len();
        let ghost prev = j@;
        if n > 0 && contains_char(punc, j.get_char(n - 1)) {
            j = String::from_str(j.substring_char(0, n - 1));
            assert(j@ == prev.drop_last());
        } else if n > 0 && contains_char(punc, j.get_char(0)) {
            let first = j.get_char(0);
            proof {
                assert(j@.contains(first));
                lemma_remove_char_len(j@, first);
            }
            j = without_char(j.as_str(), first);
        } else {
            return j;
        }
    }
}

/// The lower-case form of a string, as the standard library's Unicode case
/// mapping gives it.
pub uninterp spec fn lower_of(s: Seq<char>) -> Seq<char>;

/// Relies on `str::to_lowercase`: the result depends on the characters of
/// `s` alone.
#[verifier::external_body]
fn lowercase(s: &str) -> (r: String)
    ensures
        r@ == lower_of(s@),
{
    s.to_lowercase()
}

/// The case-folded form of a token: an acronym or a proper noun keeps its
/// case, any other token is lower-cased.
pub open spec fn fold_token(t: Seq<char>, acronyms: Seq<Seq<char>>, proper: Seq<Seq<char>>) -> Seq<
    char,
> {
    if acronyms.contains(t) || proper.contains(t) {
        t
    } else {
        lower_of(t)
    }
}

/// Lower-cases `t` unless `exempt` says that it keeps its case.
pub fn fold_with(t: &str, exempt: bool) -> (r: String)
    ensures
        r@ == (if exempt {
            t@
        } else {
            lower_of(t@)
        }),
{
    if exempt {
        String::from_str(t)
    } else {
        lowercase(t)
    }
}

} // verus!
