//! The normalizer of words: what the engine asks of it, one that looks
//! words up in a table, and one that runs a given function.

use crate::text::lowercase;
use vstd::hash_map::StringHashMap;
use vstd::prelude::*;

verus! {

/// A lemmatizer reduces a lower-cased word to its canonical form. The engine
/// relies on one thing only: the form is a function of the word, so that
/// indexing, searching and highlighting agree on it.
pub trait Lemmatizer {
    /// The canonical form of a word.
    spec fn lemma(&self, word: Seq<char>) -> Seq<char>;

    /// Computes the canonical form of a word.
    fn lemmatize(&self, word: &str) -> (out: String)
        ensures
            out@ == self.lemma(word@),
    ;
}

/// The form under which a word is indexed and looked up: lower case first,
/// then the lemmatizer's canonical form.
pub open spec fn normal_form<L: Lemmatizer>(lemmatizer: &L, word: Seq<char>) -> Seq<char> {
    lemmatizer.lemma(lowercase(word))
}

/// Brings a word into the form under which it is indexed and looked up.
pub fn normalize<L: Lemmatizer>(lemmatizer: &L, word: &str) -> (out: String)
    ensures
        out@ == normal_form(lemmatizer, word@),
{
    let lowered = word.to_lowercase();
    lemmatizer.lemmatize(lowered.as_str())
}

/// A lemmatizer that knows the canonical forms of the words in its table
/// and leaves every other word as it is.
pub struct DictionaryLemmatizer {
    forms: StringHashMap<String>,
}

impl DictionaryLemmatizer {
    /// The table: each known word with its canonical form.
    pub closed spec fn table(&self) -> Map<Seq<char>, Seq<char>> {
        Map::new(|w: Seq<char>| self.forms@.contains_key(w), |w: Seq<char>| self.forms@[w]@)
    }

    /// A lemmatizer that knows no word.
    pub fn new() -> (out: DictionaryLemmatizer)
        ensures
            out.table() == Map::<Seq<char>, Seq<char>>::empty(),
    {
        DictionaryLemmatizer { forms: StringHashMap::new() }
    }

    /// Records the canonical form of a word, in place of an earlier one.
    pub fn insert(&mut self, word: String, canonical: String)
        ensures
            final(self).table() == old(self).table().insert(word@, canonical@),
    {
        self.forms.insert(word, canonical);
    }
}

impl Lemmatizer for DictionaryLemmatizer {
    open spec fn lemma(&self, word: Seq<char>) -> Seq<char> {
        if self.table().contains_key(word) {
            self.table()[word]
        } else {
            word
        }
    }

    fn lemmatize(&self, word: &str) -> (out: String) {
        match self.forms.get(word) {
            Some(canonical) => canonical.clone(),
            None => String::from_str(word),
        }
    }
}

/// The function accepts every word and gives each word one canonical form:
/// whatever it returns for two spellings of the same characters holds the
/// same characters.
pub open spec fn is_function<F: Fn(&str) -> String>(run: F) -> bool {
    &&& forall|word: &str| call_requires(run, (word,))
    &&& forall|first: &str, second: &str, a: String, b: String|
        first@ == second@ && #[trigger] call_ensures(run, (first,), a) && #[trigger] call_ensures(
            run,
            (second,),
            b,
        ) ==> a@ == b@
}

/// The function may return `out` for `word`.
pub open spec fn may_return<F: Fn(&str) -> String>(
    run: F,
    word: Seq<char>,
    out: Seq<char>,
) -> bool {
    exists|w: &str, o: String| w@ == word && o@ == out && call_ensures(run, (w,), o)
}

/// A lemmatizer made of a function from words to canonical forms, such as a
/// closure around a stemmer that lives outside the engine.
pub struct FnLemmatizer<F: Fn(&str) -> String> {
    run: F,
}

impl<F: Fn(&str) -> String> FnLemmatizer<F> {
    #[verifier::type_invariant]
    spec fn inv(&self) -> bool {
        is_function(self.run)
    }

    /// The function that the lemmatizer runs.
    pub closed spec fn function(&self) -> F {
        self.run
    }

    /// Wraps a function. The engine relies on the function to give each
    /// word one canonical form; a caller that is not verified vouches for
    /// that.
    pub fn new(run: F) -> (out: Self)
        requires
            is_function(run),
        ensures
            out.function() == run,
    {
        FnLemmatizer { run }
    }
}

impl<F: Fn(&str) -> String> Lemmatizer for FnLemmatizer<F> {
    open spec fn lemma(&self, word: Seq<char>) -> Seq<char> {
        choose|out: Seq<char>| may_return(self.function(), word, out)
    }

    fn lemmatize(&self, word: &str) -> (out: String) {
        proof {
            use_type_invariant(self);
        }
        let out = (self.run)(word);
        proof {
            assert(may_return(self.function(), word@, out@));
        }
        out
    }
}

} // verus!
