//! The vocabulary extractor: a text, its exception lists, its punctuation,
//! and the vocabulary that the normalisation pipeline derives from them.
use vstd::prelude::*;
use crate::number::{is_float, is_float_text};
use crate::order::{ascending, lemma_ascending_unique, sort_strings};
use crate::tokens::{
    lemma_strip_token_fixed, lower_of, fold_token, fold_with, split_tokens, strip_punctuation, strip_token, tokenize,
};

verus! {

/// The character sequences of a sequence of strings.
pub open spec fn strs(v: Seq<String>) -> Seq<Seq<char>> {
    v.map_values(|x: String| x@)
}

/// Stripping every token of a set.
pub open spec fn strip_all(ws: Set<Seq<char>>, punc: Seq<char>, acronyms: Seq<Seq<char>>) -> Set<
    Seq<char>,
> {
    ws.map(|t: Seq<char>| strip_token(t, punc, acronyms))
}

/// Case-folding every token of a set.
pub open spec fn fold_all(
    ws: Set<Seq<char>>,
    acronyms: Seq<Seq<char>>,
    proper: Seq<Seq<char>>,
) -> Set<Seq<char>> {
    ws.map(|t: Seq<char>| fold_token(t, acronyms, proper))
}

/// The tokens of a set that do not read as a number.
pub open spec fn drop_numbers(ws: Set<Seq<char>>) -> Set<Seq<char>> {
    ws.filter(|t: Seq<char>| !is_float_text(t))
}

/// The images under `f` of the first `n` elements of `v`.
pub open spec fn image_upto(v: Seq<Seq<char>>, f: spec_fn(Seq<char>) -> Seq<char>, n: int) -> Set<
    Seq<char>,
> {
    Set::new(|x: Seq<char>| exists|k: int| 0 <= k < n && x == f(v[k]))
}

proof fn lemma_image_step(v: Seq<Seq<char>>, f: spec_fn(Seq<char>) -> Seq<char>, n: int)
    requires
        0 <= n < v.len(),
    ensures
        image_upto(v, f, n + 1) == image_upto(v, f, n).insert(f(v[n])),
{
    assert(image_upto(v, f, n + 1) =~= image_upto(v, f, n).insert(f(v[n])));
}

proof fn lemma_image_all(v: Seq<Seq<char>>, f: spec_fn(Seq<char>) -> Seq<char>)
    ensures
        image_upto(v, f, v.len() as int) == v.to_set().map(f),
{
    assert forall|x: Seq<char>| #[trigger] v.to_set().map(f).contains(x) implies image_upto(
        v,
        f,
        v.len() as int,
    ).contains(x) by {
        let y = choose|y: Seq<char>| v.to_set().contains(y) && x == f(y);
        let k = choose|k: int| 0 <= k < v.len() && v[k] == y;
        assert(x == f(v[k]));
    }
    assert forall|x: Seq<char>| image_upto(v, f, v.len() as int).contains(x) implies #[trigger] v.to_set().map(
        f,
    ).contains(x) by {
        let k = choose|k: int| 0 <= k < v.len() && x == f(v[k]);
        assert(v.to_set().contains(v[k]));
    }
    assert(image_upto(v, f, v.len() as int) =~= v.to_set().map(f));
}

/// The elements among the first `n` of `v` that do not read as a number.
pub open spec fn kept_upto(v: Seq<Seq<char>>, n: int) -> Set<Seq<char>> {
    Set::new(|x: Seq<char>| exists|k: int| 0 <= k < n && x == v[k] && !is_float_text(x))
}

proof fn lemma_kept_step(v: Seq<Seq<char>>, n: int)
    requires
        0 <= n < v.len(),
    ensures
        kept_upto(v, n + 1) == (if is_float_text(v[n]) {
            kept_upto(v, n)
        } else {
            kept_upto(v, n).insert(v[n])
        }),
{
    if is_float_text(v[n]) {
        assert(kept_upto(v, n + 1) =~= kept_upto(v, n));
    } else {
        assert(kept_upto(v, n + 1) =~= kept_upto(v, n).insert(v[n]));
    }
}

proof fn lemma_kept_all(v: Seq<Seq<char>>)
    ensures
        kept_upto(v, v.len() as int) == drop_numbers(v.to_set()),
{
    assert forall|x: Seq<char>| #[trigger] drop_numbers(v.to_set()).contains(x) implies kept_upto(
        v,
        v.len() as int,
    ).contains(x) by {
        let k = choose|k: int| 0 <= k < v.len() && v[k] == x;
    }
    assert(kept_upto(v, v.len() as int) =~= drop_numbers(v.to_set()));
}

/// The punctuation that an extractor starts with.
pub open spec fn default_punctuation() -> Seq<char> {
    seq![
        '!', '"', '#', '$', '%', '&', '\'', '(', ')', '*', '+', ',', '-', '.', '/', ':', ';',
        '<', '=', '>', '?', '@', '[', '\\', ']', '^', '_', '`', '{', '|', '}', '~', '\u{201c}',
        '\u{201d}', '\u{201e}', '\u{201a}', '\u{2018}', '\u{2019}', '\u{ff08}', '\u{ff09}',
    ]
}

/// The character sequences of a sequence of string slices.
pub open spec fn strs_of(v: Seq<&str>) -> Seq<Seq<char>> {
    v.map_values(|x: &str| x@)
}

/// The vocabulary of `text`: its tokens, stripped of punctuation, case-folded,
/// and without those that read as a number.
pub open spec fn vocabulary_of(
    text: Seq<char>,
    punc: Seq<char>,
    acronyms: Seq<Seq<char>>,
    proper: Seq<Seq<char>>,
) -> Set<Seq<char>> {
    drop_numbers(fold_all(strip_all(split_tokens(text).to_set(), punc, acronyms), acronyms, proper))
}

fn owned_all(v: &Vec<&str>) -> (r: Vec<String>)
    ensures
        strs(r@) == strs_of(v@),
{
    let mut r: Vec<String> = Vec::new();
    let mut i: usize = 0;
    while i < v.len()
        invariant
            i <= v@.len(),
            strs(r@) == strs_of(v@.take(i as int)),
        decreases v@.len() - i,
    {
        let ghost before = strs(r@);
        r.push(String::from_str(v[i]));
        assert(strs(r@) =~= before.push(v@[i as int]@));
        assert(strs_of(v@.take(i + 1)) =~= strs_of(v@.take(i as int)).push(v@[i as int]@));
        i = i + 1;
    }
    assert(v@.take(v@.len() as int) == v@);
    r
}

/// The words of `ws`, each followed by a newline.
pub open spec fn pretty(ws: Seq<Seq<char>>) -> Seq<char>
    decreases ws.len(),
{
    if ws.len() == 0 {
        Seq::<char>::empty()
    } else {
        pretty(ws.drop_last()) + ws.last() + seq!['\n']
    }
}

/// The words of `v`, each followed by a newline.
fn lines_of(v: &Vec<String>) -> (r: String)
    ensures
        r@ == pretty(strs(v@)),
{
    let mut r = String::new();
    let mut i: usize = 0;
    while i < v.len()
        invariant
            i <= v@.len(),
            r@ == pretty(strs(v@).take(i as int)),
        decreases v@.len() - i,
    {
        proof {
            reveal_strlit("\n");
        }
        let nl = "\n";
        assert(nl@ == seq!['\n']);
        assert(strs(v@).take(i + 1).drop_last() == strs(v@).take(i as int));
        r.append(v[i].as_str());
        r.append(nl);
        i = i + 1;
    }
    assert(strs(v@).take(v@.len() as int) == strs(v@));
    r
}

/// A copy of `v`, string by string.
fn copy_all(v: &Vec<String>) -> (r: Vec<String>)
    ensures
        strs(r@) == strs(v@),
{
    let mut r: Vec<String> = Vec::new();
    let mut i: usize = 0;
    while i < v.len()
        invariant
            i <= v@.len(),
            strs(r@) == strs(v@).take(i as int),
        decreases v@.len() - i,
    {
        let ghost before = strs(r@);
        let c = v[i].clone();
        assert(c@ == v@[i as int]@);
        r.push(c);
        assert(strs(r@) =~= before.push(v@[i as int]@));
        assert(strs(r@) =~= strs(v@).take(i + 1));
        i = i + 1;
    }
    assert(strs(v@).take(v@.len() as int) == strs(v@));
    r
}

/// Stripping is idempotent: stripping a set of tokens a second time, with
/// the same punctuation and acronyms, changes nothing.
pub proof fn lemma_strip_idempotent(
    ws: Set<Seq<char>>,
    punc: Seq<char>,
    acronyms: Seq<Seq<char>>,
)
    ensures
        strip_all(strip_all(ws, punc, acronyms), punc, acronyms) == strip_all(ws, punc, acronyms),
{
    let once = strip_all(ws, punc, acronyms);
    assert forall|x: Seq<char>| #[trigger] strip_all(once, punc, acronyms).contains(x) implies once.contains(
        x,
    ) by {
        let y = choose|y: Seq<char>| once.contains(y) && x == strip_token(y, punc, acronyms);
        let z = choose|z: Seq<char>| ws.contains(z) && y == strip_token(z, punc, acronyms);
        lemma_strip_token_fixed(z, punc, acronyms);
    }
    assert forall|x: Seq<char>| once.contains(x) implies #[trigger] strip_all(
        once,
        punc,
        acronyms,
    ).contains(x) by {
        let z = choose|z: Seq<char>| ws.contains(z) && x == strip_token(z, punc, acronyms);
        lemma_strip_token_fixed(z, punc, acronyms);
    }
    assert(strip_all(once, punc, acronyms) =~= once);
}

/// An acronym that stands as a token of the text is a word of its
/// vocabulary, unchanged, unless it reads as a number.
pub proof fn lemma_acronym_kept(
    text: Seq<char>,
    punc: Seq<char>,
    acronyms: Seq<Seq<char>>,
    proper: Seq<Seq<char>>,
    a: Seq<char>,
)
    requires
        acronyms.contains(a),
        split_tokens(text).contains(a),
        !is_float_text(a),
    ensures
        vocabulary_of(text, punc, acronyms, proper).contains(a),
{
    let stripped = strip_all(split_tokens(text).to_set(), punc, acronyms);
    assert(split_tokens(text).to_set().contains(a));
    assert(stripped.contains(strip_token(a, punc, acronyms)));
    assert(fold_all(stripped, acronyms, proper).contains(fold_token(a, acronyms, proper)));
}

/// Every word of a vocabulary that is neither an acronym nor a proper noun
/// is the lower-case form of some string.
pub proof fn lemma_other_words_lowered(
    text: Seq<char>,
    punc: Seq<char>,
    acronyms: Seq<Seq<char>>,
    proper: Seq<Seq<char>>,
    w: Seq<char>,
)
    requires
        vocabulary_of(text, punc, acronyms, proper).contains(w),
        !acronyms.contains(w),
        !proper.contains(w),
    ensures
        exists|t: Seq<char>| w == lower_of(t),
{
    let stripped = strip_all(split_tokens(text).to_set(), punc, acronyms);
    let t = choose|t: Seq<char>| stripped.contains(t) && w == fold_token(t, acronyms, proper);
    assert(w == lower_of(t));
}

/// No word of a vocabulary reads as a number.
pub proof fn lemma_no_number_words(
    text: Seq<char>,
    punc: Seq<char>,
    acronyms: Seq<Seq<char>>,
    proper: Seq<Seq<char>>,
    w: Seq<char>,
)
    requires
        vocabulary_of(text, punc, acronyms, proper).contains(w),
    ensures
        !is_float_text(w),
{
}

/// Whether `vec` holds a string equal to `s`.
fn contains_str(vec: &Vec<String>, s: &String) -> (r: bool)
    ensures
        r == strs(vec@).contains(s@),
{
    let mut i: usize = 0;
    while i < vec.len()
        invariant
            i <= vec@.len(),
            forall|k: int| 0 <= k < i ==> vec@[k]@ != s@,
        decreases vec@.len() - i,
    {
        if vec[i] == *s {
            assert(strs(vec@)[i as int] == s@);
            return true;
        }
        i = i + 1;
    }
    false
}

/// The position of the first `c` in `s`.
#[allow(dead_code)]
fn char_index(s: &String, c: char) -> (r: usize)
    requires
        s@.contains(c),
    ensures
        r < s@.len(),
        s@[r as int] == c,
        forall|k: int| 0 <= k < r ==> s@[k] != c,
{
    let n = s.as_str().unicode_len();
    let mut i: usize = 0;
    while i < n
        invariant
            n == s@.len(),
            i <= n,
            forall|k: int| 0 <= k < i ==> s@[k] != c,
        decreases n - i,
    {
        if s.as_str().get_char(i) == c {
            return i;
        }
        i = i + 1;
    }
    i
}

/// Adds `w` to `out` unless a string equal to it is there already.
fn insert_unique(out: &mut Vec<String>, w: String)
    requires
        strs(old(out)@).no_duplicates(),
    ensures
        strs(final(out)@).no_duplicates(),
        strs(final(out)@).to_set() == strs(old(out)@).to_set().insert(w@),
{
    if !contains_str(out, &w) {
        let ghost before = strs(out@);
        out.push(w);
        assert(strs(out@) =~= before.push(w@));
        assert forall|x: Seq<char>|
            #[trigger] before.push(w@).contains(x) <==> before.contains(x) || x == w@ by {
            if before.contains(x) {
                let k = choose|k: int| 0 <= k < before.len() && before[k] == x;
                assert(before.push(w@)[k] == x);
            }
            if x == w@ {
                assert(before.push(w@)[before.len() as int] == x);
            }
        }
        assert(strs(out@).to_set() =~= before.to_set().insert(w@));
    } else {
        assert(strs(out@).to_set() =~= strs(out@).to_set().insert(w@));
    }
}

/// Holds the text, the exception lists and the punctuation from which the
/// vocabulary is derived, and the vocabulary itself.
#[derive(Clone)]
pub struct Vextract {
    punc: Vec<char>,
    plist: Vec<String>,
    alist: Vec<String>,
    vocab: Vec<String>,
    /// The text, kept as it was given.
    pub text: String,
}

impl Vextract {
    /// The text that the vocabulary was taken from.
    pub closed spec fn source(&self) -> Seq<char> {
        self.text@
    }

    /// The characters that count as punctuation.
    pub closed spec fn punctuation(&self) -> Seq<char> {
        self.punc@
    }

    /// Tokens kept whole: never stripped of punctuation, never lower-cased.
    pub closed spec fn acronyms(&self) -> Seq<Seq<char>> {
        strs(self.alist@)
    }

    /// Tokens that keep their case.
    pub closed spec fn proper_nouns(&self) -> Seq<Seq<char>> {
        strs(self.plist@)
    }

    /// The vocabulary, in the order in which it is handed out.
    pub closed spec fn vocabulary(&self) -> Seq<Seq<char>> {
        strs(self.vocab@)
    }

    /// The words of the vocabulary.
    pub open spec fn words(&self) -> Set<Seq<char>> {
        self.vocabulary().to_set()
    }

    /// The vocabulary holds each word once.
    pub open spec fn wf(&self) -> bool {
        self.vocabulary().no_duplicates()
    }

    /// Builds the extractor of `text`, with the acronyms `al` and the proper
    /// nouns `pl`, and derives its vocabulary: the distinct tokens of the
    /// text (the pieces between spaces and newlines; none for an empty
    /// text), stripped of
    /// punctuation, case-folded, and without those that read as a number.
    pub fn from_text(text: &str, al: Vec<&str>, pl: Vec<&str>) -> (r: Vextract)
        ensures
            r.wf(),
            r.source() == text@,
            r.acronyms() == strs_of(al@),
            r.proper_nouns() == strs_of(pl@),
            r.punctuation() == default_punctuation(),
            text@.len() == 0 ==> r.vocabulary().len() == 0,
            r.words() == vocabulary_of(
                text@,
                default_punctuation(),
                strs_of(al@),
                strs_of(pl@),
            ),
    {
        let toks = tokenize(text);
        let mut vocab: Vec<String> = Vec::new();
        let ghost id = |t: Seq<char>| t;
        let mut i: usize = 0;
        while i < toks.len()
            invariant
                i <= toks@.len(),
                id == (|t: Seq<char>| t),
                strs(vocab@).no_duplicates(),
                strs(vocab@).to_set() == image_upto(strs(toks@), id, i as int),
            decreases toks@.len() - i,
        {
            proof {
                lemma_image_step(strs(toks@), id, i as int);
            }
            insert_unique(&mut vocab, toks[i].clone());
            i = i + 1;
        }
        proof {
            lemma_image_all(strs(toks@), id);
            assert(strs(toks@).to_set().map(id) =~= strs(toks@).to_set());
        }
        let punc: Vec<char> = vec![
            '!', '"', '#', '$', '%', '&', '\'', '(', ')', '*', '+', ',', '-', '.', '/', ':', ';',
            '<', '=', '>', '?', '@', '[', '\\', ']', '^', '_', '`', '{', '|', '}', '~', '\u{201c}',
            '\u{201d}', '\u{201e}', '\u{201a}', '\u{2018}', '\u{2019}', '\u{ff08}', '\u{ff09}',
        ];
        assert(punc@ == default_punctuation());
        let mut r = Vextract {
            punc,
            plist: owned_all(&pl),
            alist: owned_all(&al),
            vocab,
            text: String::from_str(text),
        };
        r.pstrip();
        r.make_lower();
        r.remove_nums();
        proof {
            if text@.len() == 0 && r.vocabulary().len() > 0 {
                let stripped = strip_all(split_tokens(text@).to_set(), r.punc@, r.acronyms());
                assert(split_tokens(text@).to_set() =~= Set::empty());
                assert(stripped =~= Set::empty());
                assert(fold_all(stripped, r.acronyms(), r.proper_nouns()) =~= Set::empty());
                assert(r.words().contains(r.vocabulary()[0]));
            }
        }
        r
    }

    /// Strips punctuation from the edges of every word of the vocabulary that
    /// is not an acronym. May be called again after
    /// [`Vextract::add_punctuation`] to apply the new punctuation.
    pub fn pstrip(&mut self)
        requires
            old(self).wf(),
        ensures
            final(self).wf(),
            final(self).words() == strip_all(
                old(self).words(),
                old(self).punctuation(),
                old(self).acronyms(),
            ),
            final(self).punctuation() == old(self).punctuation(),
            final(self).acronyms() == old(self).acronyms(),
            final(self).proper_nouns() == old(self).proper_nouns(),
            final(self).source() == old(self).source(),
    {
        let ghost f = |t: Seq<char>| strip_token(t, self.punc@, strs(self.alist@));
        let mut out: Vec<String> = Vec::new();
        let mut i: usize = 0;
        while i < self.vocab.len()
            invariant
                i <= self.vocab@.len(),
                f == (|t: Seq<char>| strip_token(t, self.punc@, strs(self.alist@))),
                strs(out@).no_duplicates(),
                strs(out@).to_set() == image_upto(strs(self.vocab@), f, i as int),
            decreases self.vocab@.len() - i,
        {
            let t = &self.vocab[i];
            let w = if contains_str(&self.alist, t) {
                t.clone()
            } else {
                strip_punctuation(t.as_str(), &self.punc)
            };
            proof {
                lemma_image_step(strs(self.vocab@), f, i as int);
            }
            insert_unique(&mut out, w);
            i = i + 1;
        }
        proof {
            lemma_image_all(strs(self.vocab@), f);
        }
        self.vocab = out;
    }

    /// Appends the characters of `s` to the punctuation. The vocabulary is
    /// left as it is until [`Vextract::pstrip`] runs again.
    pub fn add_punctuation(&mut self, s: &str)
        requires
            old(self).wf(),
        ensures
            final(self).wf(),
            final(self).punctuation() == old(self).punctuation() + s@,
            final(self).vocabulary() == old(self).vocabulary(),
            final(self).acronyms() == old(self).acronyms(),
            final(self).proper_nouns() == old(self).proper_nouns(),
            final(self).source() == old(self).source(),
    {
        let n = s.unicode_len();
        let mut i: usize = 0;
        while i < n
            invariant
                n == s@.len(),
                i <= n,
                self.punc@ == old(self).punc@ + s@.take(i as int),
                self.vocab == old(self).vocab,
                self.alist == old(self).alist,
                self.plist == old(self).plist,
                self.text == old(self).text,
            decreases n - i,
        {
            self.punc.push(s.get_char(i));
            assert(s@.take(i + 1) == s@.take(i as int).push(s@[i as int]));
            assert(self.punc@ =~= old(self).punc@ + s@.take(i + 1));
            i = i + 1;
        }
        assert(s@.take(n as int) == s@);
    }

    /// The vocabulary, one string for each word.
    pub fn get_vocab(&self) -> (r: Vec<String>)
        ensures
            strs(r@) == self.vocabulary(),
    {
        copy_all(&self.vocab)
    }

    /// The vocabulary, each word followed by a newline.
    pub fn get_pretty_vocab(&self) -> (r: String)
        ensures
            r@ == pretty(self.vocabulary()),
    {
        lines_of(&self.vocab)
    }

    /// The vocabulary in ascending order of code points.
    pub fn get_sorted_vocab(&self) -> (r: Vec<String>)
        ensures
            strs(r@).to_multiset() == self.vocabulary().to_multiset(),
            ascending(strs(r@)),
    {
        let mut x = copy_all(&self.vocab);
        sort_strings(&mut x);
        x
    }

    /// The vocabulary in ascending order of code points, each word followed
    /// by a newline.
    pub fn get_sorted_pretty_vocab(&self) -> (r: String)
        ensures
            forall|s: Seq<Seq<char>>|
                s.to_multiset() == self.vocabulary().to_multiset() && ascending(s) ==> r@
                    == pretty(s),
            exists|s: Seq<Seq<char>>|
                s.to_multiset() == self.vocabulary().to_multiset() && ascending(s),
    {
        let y = self.get_sorted_vocab();
        let r = lines_of(&y);
        assert forall|s: Seq<Seq<char>>|
            s.to_multiset() == self.vocabulary().to_multiset() && ascending(s) implies r@
                == pretty(s) by {
            lemma_ascending_unique(s, strs(y@));
        }
        r
    }

    /// The number of words in the vocabulary (modulo 2 to the 32).
    pub fn get_len(&self) -> (r: u32)
        ensures
            r == self.vocabulary().len() as u32,
            self.vocabulary().len() <= u32::MAX ==> r == self.vocabulary().len(),
    {
        self.vocab.len() as u32
    }

    /// Lower-cases every word of the vocabulary that is neither an acronym
    /// nor a proper noun.
    fn make_lower(&mut self)
        requires
            old(self).wf(),
        ensures
            final(self).wf(),
            final(self).words() == fold_all(
                old(self).words(),
                old(self).acronyms(),
                old(self).proper_nouns(),
            ),
            final(self).punctuation() == old(self).punctuation(),
            final(self).acronyms() == old(self).acronyms(),
            final(self).proper_nouns() == old(self).proper_nouns(),
            final(self).source() == old(self).source(),
    {
        let ghost f = |t: Seq<char>| fold_token(t, strs(self.alist@), strs(self.plist@));
        let mut out: Vec<String> = Vec::new();
        let mut i: usize = 0;
        while i < self.vocab.len()
            invariant
                i <= self.vocab@.len(),
                f == (|t: Seq<char>| fold_token(t, strs(self.alist@), strs(self.plist@))),
                strs(out@).no_duplicates(),
                strs(out@).to_set() == image_upto(strs(self.vocab@), f, i as int),
            decreases self.vocab@.len() - i,
        {
            let t = &self.vocab[i];
            let exempt = contains_str(&self.plist, t) || contains_str(&self.alist, t);
            let w = fold_with(t.as_str(), exempt);
            proof {
                lemma_image_step(strs(self.vocab@), f, i as int);
            }
            insert_unique(&mut out, w);
            i = i + 1;
        }
        proof {
            lemma_image_all(strs(self.vocab@), f);
        }
        self.vocab = out;
    }

    /// Drops every word of the vocabulary that reads as a number.
    fn remove_nums(&mut self)
        requires
            old(self).wf(),
        ensures
            final(self).wf(),
            final(self).words() == drop_numbers(old(self).words()),
            final(self).punctuation() == old(self).punctuation(),
            final(self).acronyms() == old(self).acronyms(),
            final(self).proper_nouns() == old(self).proper_nouns(),
            final(self).source() == old(self).source(),
    {
        let mut out: Vec<String> = Vec::new();
        let mut i: usize = 0;
        while i < self.vocab.len()
            invariant
                i <= self.vocab@.len(),
                strs(out@).no_duplicates(),
                strs(out@).to_set() == kept_upto(strs(self.vocab@), i as int),
            decreases self.vocab@.len() - i,
        {
            let t = &self.vocab[i];
            proof {
                lemma_kept_step(strs(self.vocab@), i as int);
            }
            if !is_float(t.as_str()) {
                insert_unique(&mut out, t.clone());
            }
            i = i + 1;
        }
        proof {
            lemma_kept_all(strs(self.vocab@));
        }
        self.vocab = out;
    }
}

} // verus!
