//! Bag-of-words text features: the vocabulary of a count vectorizer, the term counts of
//! documents, document frequencies, and the frequent words of a corpus.
use vstd::prelude::*;
use vstd::hash_map::StringHashMap;
use crate::order::views;
use crate::table::Table;

verus! {

/// What `str::to_lowercase` gives for a text.
pub uninterp spec fn lowercase_of(s: Seq<char>) -> Seq<char>;

/// A whitespace character: one with the Unicode property White_Space, as
/// `char::is_whitespace` has it.
pub open spec fn is_whitespace(c: char) -> bool {
    let u = c as u32;
    ||| 0x9 <= u <= 0xd
    ||| u == 0x20
    ||| u == 0x85
    ||| u == 0xa0
    ||| u == 0x1680
    ||| 0x2000 <= u <= 0x200a
    ||| u == 0x2028
    ||| u == 0x2029
    ||| u == 0x202f
    ||| u == 0x205f
    ||| u == 0x3000
}

/// The tokens of a text: its maximal runs of non-whitespace characters, in order.
pub open spec fn whitespace_tokens(s: Seq<char>) -> Seq<Seq<char>>
    decreases s.len(),
{
    if s.len() == 0 {
        Seq::empty()
    } else {
        let t = whitespace_tokens(s.drop_last());
        let c = s.last();
        if is_whitespace(c) {
            t
        } else if s.len() >= 2 && !is_whitespace(s[s.len() - 2]) {
            t.drop_last().push(t.last().push(c))
        } else {
            t.push(seq![c])
        }
    }
}

/// `str::to_lowercase`: the lowercase mapping of each character. Claimed: the result is
/// `lowercase_of` of the text, a function of the text alone.
#[verifier::external_body]
fn lowercase(s: &String) -> (r: String)
    ensures
        r@ == lowercase_of(s@),
{
    s.to_lowercase()
}

/// `str::split_whitespace`, each piece made a `String`. Claimed, as its documentation
/// says: the pieces are the text split at characters with the Unicode property
/// White_Space, empty pieces left out (`whitespace_tokens`).
#[verifier::external_body]
fn split_tokens(s: &String) -> (r: Vec<String>)
    ensures
        views(r@) == whitespace_tokens(s@),
{
    s.split_whitespace().map(String::from).collect()
}

/// The tokens of a document: its whitespace-separated pieces, lowercased first if asked.
pub open spec fn doc_tokens(doc: Seq<char>, lowercase: bool) -> Seq<Seq<char>> {
    whitespace_tokens(if lowercase { lowercase_of(doc) } else { doc })
}

/// The tokens of all documents, document after document.
pub open spec fn corpus_tokens(docs: Seq<String>, lowercase: bool) -> Seq<Seq<char>>
    decreases docs.len(),
{
    if docs.len() == 0 {
        Seq::empty()
    } else {
        corpus_tokens(docs.drop_last(), lowercase) + doc_tokens(docs.last()@, lowercase)
    }
}

/// The terms after meeting `tokens`: each token not yet a term is added at the end.
pub open spec fn extend_terms(terms: Seq<Seq<char>>, tokens: Seq<Seq<char>>) -> Seq<Seq<char>>
    decreases tokens.len(),
{
    if tokens.len() == 0 {
        terms
    } else {
        let t = extend_terms(terms, tokens.drop_last());
        if t.contains(tokens.last()) {
            t
        } else {
            t.push(tokens.last())
        }
    }
}

/// Meeting `b` and then `c` adds the terms that meeting `b` followed by `c` adds.
proof fn lemma_extend_concat(a: Seq<Seq<char>>, b: Seq<Seq<char>>, c: Seq<Seq<char>>)
    ensures
        extend_terms(extend_terms(a, b), c) == extend_terms(a, b + c),
    decreases c.len(),
{
    if c.len() == 0 {
        assert(b + c =~= b);
    } else {
        assert((b + c).drop_last() =~= b + c.drop_last());
        assert((b + c).last() == c.last());
        lemma_extend_concat(a, b, c.drop_last());
    }
}

/// The number of times `t` occurs among the tokens.
pub open spec fn count_token(tokens: Seq<Seq<char>>, t: Seq<char>) -> int
    decreases tokens.len(),
{
    if tokens.len() == 0 {
        0
    } else {
        count_token(tokens.drop_last(), t) + if tokens.last() == t {
            1int
        } else {
            0int
        }
    }
}

/// Why a text model refused a request.
#[derive(Debug)]
pub enum TextError {
    /// No word occurs often enough.
    EmptyVocabulary,
}

/// Counts the tokens of documents against a vocabulary: `vocabulary` maps each term to
/// its column, `terms` lists the terms by column.
pub struct CountVectorizer {
    pub vocabulary: StringHashMap<usize>,
    pub terms: Vec<String>,
    pub lowercase: bool,
}

impl CountVectorizer {
    /// The vocabulary and the term list agree: the terms are distinct and each is mapped
    /// to its position, and nothing else is mapped.
    pub open spec fn wf(&self) -> bool {
        &&& views(self.terms@).no_duplicates()
        &&& forall|k: Seq<char>| #[trigger] self.vocabulary@.contains_key(k) <==> views(self.terms@).contains(k)
        &&& forall|j: int| 0 <= j < self.terms@.len() ==> self.vocabulary@[#[trigger] self.terms@[j]@] == j
    }

    pub fn new(lowercase: bool) -> (r: Self)
        ensures
            r.wf(),
            r.terms@.len() == 0,
            r.lowercase == lowercase,
    {
        CountVectorizer { vocabulary: StringHashMap::new(), terms: Vec::new(), lowercase }
    }

    /// The tokens of one document.
    fn tokens_of(&self, doc: &String) -> (r: Vec<String>)
        ensures
            views(r@) == doc_tokens(doc@, self.lowercase),
    {
        if self.lowercase {
            let lower = lowercase(doc);
            split_tokens(&lower)
        } else {
            split_tokens(doc)
        }
    }

    /// Adds each of the tokens not yet in the vocabulary as a new term, in the order met.
    pub fn add_tokens(&mut self, tokens: &Vec<String>)
        requires
            old(self).wf(),
        ensures
            final(self).wf(),
            final(self).lowercase == old(self).lowercase,
            views(final(self).terms@) == extend_terms(views(old(self).terms@), views(tokens@)),
    {
        let ghost start = views(self.terms@);
        let mut k: usize = 0;
        while k < tokens.len()
            invariant
                self.wf(),
                self.lowercase == old(self).lowercase,
                start == views(old(self).terms@),
                k <= tokens@.len(),
                views(self.terms@) == extend_terms(start, views(tokens@).take(k as int)),
            decreases tokens@.len() - k,
        {
            let tok = &tokens[k];
            let ghost prefix = views(tokens@).take(k as int);
            proof {
                assert(views(tokens@).take(k + 1).drop_last() =~= prefix);
                assert(views(tokens@).take(k + 1).last() == tok@);
            }
            if !self.vocabulary.contains_key(tok.as_str()) {
                let idx = self.terms.len();
                let ghost old_terms = self.terms@;
                self.vocabulary.insert(tok.clone(), idx);
                self.terms.push(tok.clone());
                proof {
                    assert(views(self.terms@) =~= views(old_terms).push(tok@));
                    assert forall|j: int| 0 <= j < self.terms@.len() implies self.vocabulary@[#[trigger] self.terms@[j]@]
                        == j by {
                        if j < old_terms.len() {
                            assert(self.terms@[j] == old_terms[j]);
                            assert(views(old_terms)[j] == old_terms[j]@);
                            assert(views(old_terms).contains(old_terms[j]@));
                        }
                    }
                    assert forall|key: Seq<char>| #[trigger] self.vocabulary@.contains_key(key) <==> views(self.terms@).contains(key) by {
                        if views(old_terms).contains(key) {
                            let j = choose|j: int| 0 <= j < views(old_terms).len() && views(old_terms)[j] == key;
                            assert(views(self.terms@)[j] == key);
                            assert(views(self.terms@).contains(key));
                        }
                        if key == tok@ {
                            assert(views(self.terms@)[old_terms.len() as int] == key);
                        }
                        if views(self.terms@).contains(key) && key != tok@ {
                            let j = choose|j: int| 0 <= j < views(self.terms@).len() && views(self.terms@)[j] == key;
                            assert(views(old_terms)[j] == key);
                        }
                    }
                }
            }
            k = k + 1;
        }
        proof {
            assert(views(tokens@).take(tokens@.len() as int) =~= views(tokens@));
        }
    }

    /// Adds each token of the documents not yet in the vocabulary as a new term, in the
    /// order met.
    pub fn fit(&mut self, docs: &[String])
        requires
            old(self).wf(),
        ensures
            final(self).wf(),
            final(self).lowercase == old(self).lowercase,
            views(final(self).terms@) == extend_terms(views(old(self).terms@), corpus_tokens(docs@, old(self).lowercase)),
    {
        let ghost start = views(self.terms@);
        let mut d: usize = 0;
        proof {
            assert(docs@.take(0) =~= Seq::<String>::empty());
        }
        while d < docs.len()
            invariant
                self.wf(),
                self.lowercase == old(self).lowercase,
                start == views(old(self).terms@),
                d <= docs@.len(),
                views(self.terms@) == extend_terms(start, corpus_tokens(docs@.take(d as int), self.lowercase)),
            decreases docs@.len() - d,
        {
            let tokens = self.tokens_of(&docs[d]);
            let ghost before = corpus_tokens(docs@.take(d as int), self.lowercase);
            proof {
                assert(docs@.take(d + 1).drop_last() =~= docs@.take(d as int));
                assert(corpus_tokens(docs@.take(d + 1), self.lowercase) == before + views(tokens@));
                lemma_extend_concat(start, before, views(tokens@));
            }
            self.add_tokens(&tokens);
            d = d + 1;
        }
        proof {
            assert(docs@.take(docs@.len() as int) =~= docs@);
        }
    }

    /// The term counts of a token list: for each term, how often it occurs.
    pub fn count_tokens(&self, tokens: &Vec<String>) -> (r: Vec<usize>)
        requires
            self.wf(),
        ensures
            r@.len() == self.terms@.len(),
            forall|j: int| 0 <= j < r@.len() ==> #[trigger] r@[j] == count_token(views(tokens@), self.terms@[j]@),
    {
        let n_terms = self.terms.len();
        let mut row: Vec<usize> = Vec::new();
        let mut j: usize = 0;
        while j < n_terms
            invariant
                j <= n_terms,
                row@.len() == j,
                forall|m: int| 0 <= m < j ==> #[trigger] row@[m] == 0,
            decreases n_terms - j,
        {
            row.push(0);
            j = j + 1;
        }
        let ghost toks = views(tokens@);
        let mut k: usize = 0;
        proof {
            assert forall|m: int| 0 <= m < n_terms implies #[trigger] row@[m] == count_token(toks.take(0), self.terms@[m]@) by {
            }
        }
        while k < tokens.len()
            invariant
                self.wf(),
                n_terms == self.terms@.len(),
                toks == views(tokens@),
                k <= tokens@.len(),
                row@.len() == n_terms,
                forall|m: int| 0 <= m < n_terms ==> #[trigger] row@[m] == count_token(toks.take(k as int), self.terms@[m]@),
                forall|m: int| 0 <= m < n_terms ==> #[trigger] row@[m] <= k,
            decreases tokens@.len() - k,
        {
            let tok = &tokens[k];
            proof {
                assert(toks.take(k + 1).drop_last() =~= toks.take(k as int));
                assert(toks[k as int] == tok@);
            }
            match self.vocabulary.get(tok.as_str()) {
                Some(col) => {
                    let c = *col;
                    proof {
                        assert(views(self.terms@).contains(tok@));
                        let j = choose|j: int| 0 <= j < views(self.terms@).len() && views(self.terms@)[j] == tok@;
                        assert(self.terms@[j]@ == tok@);
                        assert(c == j);
                    }
                    let ghost before = row@;
                    row.set(c, row[c] + 1);
                    proof {
                        assert forall|m: int| 0 <= m < n_terms implies #[trigger] row@[m] == count_token(toks.take(k + 1), self.terms@[m]@) by {
                            if m != c {
                                assert(self.terms@[m]@ != tok@) by {
                                    if self.terms@[m]@ == tok@ {
                                        assert(views(self.terms@)[m] == views(self.terms@)[c as int]);
                                    }
                                }
                            }
                        }
                    }
                },
                None => {
                    proof {
                        assert forall|m: int| 0 <= m < n_terms implies #[trigger] row@[m] == count_token(toks.take(k + 1), self.terms@[m]@) by {
                            assert(views(self.terms@)[m] == self.terms@[m]@);
                        }
                    }
                },
            }
            k = k + 1;
        }
        proof {
            assert(toks.take(tokens@.len() as int) =~= toks);
        }
        row
    }

    /// The term counts of one document: for each term, how often it occurs.
    fn count_row(&self, doc: &String) -> (r: Vec<usize>)
        requires
            self.wf(),
        ensures
            r@.len() == self.terms@.len(),
            forall|j: int| 0 <= j < r@.len() ==> #[trigger] r@[j] == count_token(doc_tokens(doc@, self.lowercase), self.terms@[j]@),
    {
        let tokens = self.tokens_of(doc);
        self.count_tokens(&tokens)
    }

    /// The term counts of each document, one row per document and one column per term.
    pub fn transform(&self, docs: &[String]) -> (r: Table<usize>)
        requires
            self.wf(),
        ensures
            r.n_cols == self.terms@.len(),
            r.wf(),
            r.rows@.len() == docs@.len(),
            forall|i: int, j: int|
                0 <= i < docs@.len() && 0 <= j < self.terms@.len() ==> #[trigger] r.rows@[i]@[j] == count_token(
                    doc_tokens(docs@[i]@, self.lowercase),
                    self.terms@[j]@,
                ),
    {
        let mut rows: Vec<Vec<usize>> = Vec::new();
        let mut i: usize = 0;
        while i < docs.len()
            invariant
                self.wf(),
                i <= docs@.len(),
                rows@.len() == i,
                forall|a: int| 0 <= a < i ==> (#[trigger] rows@[a])@.len() == self.terms@.len(),
                forall|a: int, j: int|
                    0 <= a < i && 0 <= j < self.terms@.len() ==> #[trigger] rows@[a]@[j] == count_token(
                        doc_tokens(docs@[a]@, self.lowercase),
                        self.terms@[j]@,
                    ),
            decreases docs@.len() - i,
        {
            let row = self.count_row(&docs[i]);
            rows.push(row);
            i = i + 1;
        }
        Table { n_cols: self.terms.len(), rows }
    }

    /// Fits on the documents, then counts their terms.
    pub fn fit_transform(&mut self, docs: &[String]) -> (r: Table<usize>)
        requires
            old(self).wf(),
        ensures
            final(self).wf(),
            final(self).lowercase == old(self).lowercase,
            views(final(self).terms@) == extend_terms(views(old(self).terms@), corpus_tokens(docs@, old(self).lowercase)),
            r.n_cols == final(self).terms@.len(),
            r.wf(),
            r.rows@.len() == docs@.len(),
            forall|i: int, j: int|
                0 <= i < docs@.len() && 0 <= j < final(self).terms@.len() ==> #[trigger] r.rows@[i]@[j] == count_token(
                    doc_tokens(docs@[i]@, final(self).lowercase),
                    final(self).terms@[j]@,
                ),
    {
        self.fit(docs);
        self.transform(docs)
    }

    /// The number of documents in which each term occurs.
    pub fn document_frequencies(&self, docs: &[String]) -> (r: Vec<usize>)
        requires
            self.wf(),
        ensures
            r@.len() == self.terms@.len(),
            forall|j: int|
                0 <= j < r@.len() ==> #[trigger] r@[j] == count_docs_with(docs@, self.lowercase, self.terms@[j]@),
    {
        let n_terms = self.terms.len();
        let mut df: Vec<usize> = Vec::new();
        let mut j: usize = 0;
        while j < n_terms
            invariant
                j <= n_terms,
                df@.len() == j,
                forall|m: int| 0 <= m < j ==> #[trigger] df@[m] == 0,
            decreases n_terms - j,
        {
            df.push(0);
            j = j + 1;
        }
        let mut i: usize = 0;
        proof {
            assert(docs@.take(0) =~= Seq::<String>::empty());
        }
        while i < docs.len()
            invariant
                self.wf(),
                n_terms == self.terms@.len(),
                i <= docs@.len(),
                df@.len() == n_terms,
                forall|m: int| 0 <= m < n_terms ==> #[trigger] df@[m] == count_docs_with(docs@.take(i as int), self.lowercase, self.terms@[m]@),
                forall|m: int| 0 <= m < n_terms ==> #[trigger] df@[m] <= i,
            decreases docs@.len() - i,
        {
            let row = self.count_row(&docs[i]);
            proof {
                assert(docs@.take(i + 1).drop_last() =~= docs@.take(i as int));
            }
            let nd = docs.len();
            let mut m: usize = 0;
            while m < n_terms
                invariant
                    self.wf(),
                    n_terms == self.terms@.len(),
                    i < docs@.len(),
                    row@.len() == n_terms,
                    forall|x: int| 0 <= x < n_terms ==> #[trigger] row@[x] == count_token(doc_tokens(docs@[i as int]@, self.lowercase), self.terms@[x]@),
                    m <= n_terms,
                    df@.len() == n_terms,
                    forall|x: int| 0 <= x < m ==> #[trigger] df@[x] == count_docs_with(docs@.take(i + 1), self.lowercase, self.terms@[x]@),
                    forall|x: int| m <= x < n_terms ==> #[trigger] df@[x] == count_docs_with(docs@.take(i as int), self.lowercase, self.terms@[x]@),
                    forall|x: int| 0 <= x < m ==> #[trigger] df@[x] <= i + 1,
                    forall|x: int| m <= x < n_terms ==> #[trigger] df@[x] <= i,
                    i < nd,
                    nd == docs@.len(),
                decreases n_terms - m,
            {
                proof {
                    assert(docs@.take(i + 1).drop_last() =~= docs@.take(i as int));
                    assert(docs@.take(i + 1).last() == docs@[i as int]);
                    assert(count_docs_with(docs@.take(i + 1), self.lowercase, self.terms@[m as int]@) == count_docs_with(
                        docs@.take(i as int),
                        self.lowercase,
                        self.terms@[m as int]@,
                    ) + if row@[m as int] > 0 {
                        1int
                    } else {
                        0int
                    });
                }
                if row[m] > 0 {
                    df.set(m, df[m] + 1);
                }
                m = m + 1;
            }
            i = i + 1;
        }
        proof {
            assert(docs@.take(docs@.len() as int) =~= docs@);
        }
        df
    }
}

/// The number of documents whose tokens hold `t`.
pub open spec fn count_docs_with(docs: Seq<String>, lowercase: bool, t: Seq<char>) -> int
    decreases docs.len(),
{
    if docs.len() == 0 {
        0
    } else {
        count_docs_with(docs.drop_last(), lowercase, t) + if count_token(doc_tokens(docs.last()@, lowercase), t) > 0 {
            1int
        } else {
            0int
        }
    }
}


/// The words of all sentences, sentence after sentence.
pub open spec fn all_words(sentences: Seq<Vec<String>>) -> Seq<Seq<char>>
    decreases sentences.len(),
{
    if sentences.len() == 0 {
        Seq::empty()
    } else {
        all_words(sentences.drop_last()) + views(sentences.last()@)
    }
}

proof fn lemma_count_token_nonneg(tokens: Seq<Seq<char>>, t: Seq<char>)
    ensures
        count_token(tokens, t) >= 0,
    decreases tokens.len(),
{
    if tokens.len() > 0 {
        lemma_count_token_nonneg(tokens.drop_last(), t);
    }
}

proof fn lemma_count_token_absent(tokens: Seq<Seq<char>>, t: Seq<char>)
    requires
        !tokens.contains(t),
    ensures
        count_token(tokens, t) == 0,
    decreases tokens.len(),
{
    if tokens.len() > 0 {
        assert(!tokens.drop_last().contains(t)) by {
            if tokens.drop_last().contains(t) {
                let k = choose|k: int| 0 <= k < tokens.drop_last().len() && tokens.drop_last()[k] == t;
                assert(tokens[k] == t);
            }
        }
        lemma_count_token_absent(tokens.drop_last(), t);
        assert(tokens[tokens.len() - 1] != t);
    }
}

proof fn lemma_count_token_present(tokens: Seq<Seq<char>>, t: Seq<char>)
    requires
        tokens.contains(t),
    ensures
        count_token(tokens, t) > 0,
    decreases tokens.len(),
{
    lemma_count_token_nonneg(tokens.drop_last(), t);
    if tokens.last() != t {
        let k = choose|k: int| 0 <= k < tokens.len() && tokens[k] == t;
        assert(tokens.drop_last()[k] == t);
        lemma_count_token_present(tokens.drop_last(), t);
    }
}

proof fn lemma_all_words_prefix(sentences: Seq<Vec<String>>, j: int)
    requires
        0 <= j <= sentences.len(),
    ensures
        all_words(sentences.take(j)).len() <= all_words(sentences).len(),
    decreases sentences.len() - j,
{
    if j == sentences.len() {
        assert(sentences.take(j) =~= sentences);
    } else {
        lemma_all_words_prefix(sentences, j + 1);
        assert(sentences.take(j + 1).drop_last() =~= sentences.take(j));
    }
}

/// The vocabulary of a word-embedding model: the distinct words that occur at least
/// `min_count` times, in the order of their first occurrence.
pub fn frequent_words(sentences: &[Vec<String>], min_count: usize) -> (r: Result<Vec<String>, TextError>)
    requires
        all_words(sentences@).len() <= usize::MAX,
    ensures
        ({
            let words = all_words(sentences@);
            match r {
                Ok(v) => {
                    &&& v@.len() > 0
                    &&& views(v@).no_duplicates()
                    &&& forall|w: Seq<char>|
                        #[trigger] views(v@).contains(w) <==> (words.contains(w) && count_token(words, w) >= min_count)
                },
                Err(e) => {
                    &&& e matches TextError::EmptyVocabulary
                    &&& forall|w: Seq<char>| #[trigger] words.contains(w) ==> count_token(words, w) < min_count
                },
            }
        }),
{
    let mut counts: StringHashMap<usize> = StringHashMap::new();
    let mut order: Vec<String> = Vec::new();
    let mut s: usize = 0;
    proof {
        assert(sentences@.take(0) =~= Seq::<Vec<String>>::empty());
    }
    while s < sentences.len()
        invariant
            s <= sentences@.len(),
            all_words(sentences@).len() <= usize::MAX,
            views(order@).no_duplicates(),
            forall|w: Seq<char>| #[trigger] counts@.contains_key(w) <==> views(order@).contains(w),
            forall|w: Seq<char>| #[trigger] views(order@).contains(w) <==> all_words(sentences@.take(s as int)).contains(w),
            forall|w: Seq<char>| #[trigger] counts@.contains_key(w) ==> counts@[w] == count_token(all_words(sentences@.take(s as int)), w),
            forall|w: Seq<char>| #[trigger] counts@.contains_key(w) ==> counts@[w] <= all_words(sentences@.take(s as int)).len(),
        decreases sentences@.len() - s,
    {
        let sentence = &sentences[s];
        let ghost before = all_words(sentences@.take(s as int));
        proof {
            assert(sentences@.take(s + 1).drop_last() =~= sentences@.take(s as int));
            assert(all_words(sentences@.take(s + 1)) == before + views(sentence@));
            lemma_all_words_prefix(sentences@, s + 1);
        }
        let mut k: usize = 0;
        while k < sentence.len()
            invariant
                views(order@).no_duplicates(),
                k <= sentence@.len(),
                forall|w: Seq<char>| #[trigger] counts@.contains_key(w) <==> views(order@).contains(w),
                forall|w: Seq<char>| #[trigger] views(order@).contains(w) <==> (before + views(sentence@).take(k as int)).contains(w),
                forall|w: Seq<char>| #[trigger] counts@.contains_key(w) ==> counts@[w] == count_token(before + views(sentence@).take(k as int), w),
                forall|w: Seq<char>| #[trigger] counts@.contains_key(w) ==> counts@[w] <= (before + views(sentence@).take(k as int)).len(),
                before.len() + sentence@.len() <= usize::MAX,
            decreases sentence@.len() - k,
        {
            let word = &sentence[k];
            let ghost prefix = before + views(sentence@).take(k as int);
            let ghost next = before + views(sentence@).take(k + 1);
            proof {
                assert(next.drop_last() =~= prefix);
                assert(next.last() == word@);
                assert forall|w: Seq<char>| #[trigger] next.contains(w) <==> (prefix.contains(w) || w == word@) by {
                    if next.contains(w) && w != word@ {
                        let j = choose|j: int| 0 <= j < next.len() && next[j] == w;
                        assert(prefix[j] == w);
                    }
                    if prefix.contains(w) {
                        let j = choose|j: int| 0 <= j < prefix.len() && prefix[j] == w;
                        assert(next[j] == w);
                    }
                    if w == word@ {
                        assert(next[next.len() - 1] == w);
                    }
                }
            }
            match counts.get(word.as_str()) {
                Some(c) => {
                    let c1 = *c + 1;
                    counts.insert(word.clone(), c1);
                },
                None => {
                    let ghost old_order = order@;
                    proof {
                        assert(!prefix.contains(word@));
                        lemma_count_token_absent(prefix, word@);
                    }
                    counts.insert(word.clone(), 1);
                    order.push(word.clone());
                    proof {
                        assert(views(order@) =~= views(old_order).push(word@));
                        assert forall|w: Seq<char>| #[trigger] views(order@).contains(w) <==> (views(old_order).contains(w) || w == word@) by {
                            if views(order@).contains(w) && w != word@ {
                                let j = choose|j: int| 0 <= j < views(order@).len() && views(order@)[j] == w;
                                assert(views(old_order)[j] == w);
                            }
                            if views(old_order).contains(w) {
                                let j = choose|j: int| 0 <= j < views(old_order).len() && views(old_order)[j] == w;
                                assert(views(order@)[j] == w);
                            }
                            if w == word@ {
                                assert(views(order@)[old_order.len() as int] == w);
                            }
                        }
                    }
                },
            }
            k = k + 1;
        }
        proof {
            assert(views(sentence@).take(sentence@.len() as int) =~= views(sentence@));
        }
        s = s + 1;
    }
    proof {
        assert(sentences@.take(sentences@.len() as int) =~= sentences@);
    }
    let ghost words = all_words(sentences@);
    let mut vocab: Vec<String> = Vec::new();
    let mut i: usize = 0;
    while i < order.len()
        invariant
            words == all_words(sentences@),
            i <= order@.len(),
            views(order@).no_duplicates(),
            forall|w: Seq<char>| #[trigger] counts@.contains_key(w) <==> views(order@).contains(w),
            forall|w: Seq<char>| #[trigger] views(order@).contains(w) <==> words.contains(w),
            forall|w: Seq<char>| #[trigger] counts@.contains_key(w) ==> counts@[w] == count_token(words, w),
            views(vocab@).no_duplicates(),
            forall|w: Seq<char>|
                #[trigger] views(vocab@).contains(w) <==> (views(order@.take(i as int)).contains(w) && count_token(words, w) >= min_count),
        decreases order@.len() - i,
    {
        let w = &order[i];
        proof {
            assert(views(order@)[i as int] == w@);
            assert(views(order@).contains(w@));
            assert(views(order@.take(i + 1)) =~= views(order@.take(i as int)).push(w@));
        }
        let c = match counts.get(w.as_str()) {
            Some(c) => *c,
            None => 0,
        };
        let ghost old_vocab = vocab@;
        if c >= min_count {
            vocab.push(w.clone());
            proof {
                assert(views(vocab@) =~= views(old_vocab).push(w@));
                assert(!views(order@.take(i as int)).contains(w@)) by {
                    if views(order@.take(i as int)).contains(w@) {
                        let j = choose|j: int| 0 <= j < i && views(order@.take(i as int))[j] == w@;
                        assert(views(order@)[j] == views(order@)[i as int]);
                    }
                }
                assert(!views(old_vocab).contains(w@));
                assert forall|a: int, b: int| 0 <= a < b < views(vocab@).len() implies views(vocab@)[a] != views(vocab@)[b] by {
                    if b == old_vocab.len() {
                        assert(views(old_vocab)[a] == views(vocab@)[a]);
                    } else {
                        assert(views(old_vocab)[a] == views(vocab@)[a]);
                        assert(views(old_vocab)[b] == views(vocab@)[b]);
                    }
                }
            }
        }
        proof {
            assert forall|x: Seq<char>|
                #[trigger] views(vocab@).contains(x) <==> (views(order@.take(i + 1)).contains(x) && count_token(words, x) >= min_count) by {
                let pre = views(order@.take(i as int));
                let nxt = views(order@.take(i + 1));
                if nxt.contains(x) && x != w@ {
                    let j = choose|j: int| 0 <= j < nxt.len() && nxt[j] == x;
                    assert(pre[j] == x);
                }
                if pre.contains(x) {
                    let j = choose|j: int| 0 <= j < pre.len() && pre[j] == x;
                    assert(nxt[j] == x);
                }
                if x == w@ {
                    assert(nxt[i as int] == x);
                }
                if views(vocab@).contains(x) && c >= min_count {
                    let j = choose|j: int| 0 <= j < views(vocab@).len() && views(vocab@)[j] == x;
                    if j < old_vocab.len() {
                        assert(views(old_vocab)[j] == x);
                    }
                }
                if views(old_vocab).contains(x) && c >= min_count {
                    let j = choose|j: int| 0 <= j < views(old_vocab).len() && views(old_vocab)[j] == x;
                    assert(views(vocab@)[j] == x);
                }
                if x == w@ && c >= min_count {
                    assert(views(vocab@)[old_vocab.len() as int] == x);
                }
            }
        }
        i = i + 1;
    }
    proof {
        assert(order@.take(order@.len() as int) =~= order@);
    }
    if vocab.len() == 0 {
        proof {
            assert forall|w: Seq<char>| #[trigger] words.contains(w) implies count_token(words, w) < min_count by {
                if count_token(words, w) >= min_count {
                    assert(views(order@).contains(w));
                    assert(views(vocab@).contains(w));
                }
            }
        }
        return Err(TextError::EmptyVocabulary);
    }
    Ok(vocab)
}


proof fn lemma_extend_contains_tokens(terms: Seq<Seq<char>>, tokens: Seq<Seq<char>>)
    ensures
        forall|k: int| 0 <= k < tokens.len() ==> extend_terms(terms, tokens).contains(#[trigger] tokens[k]),
        forall|x: Seq<char>| terms.contains(x) ==> #[trigger] extend_terms(terms, tokens).contains(x),
    decreases tokens.len(),
{
    if tokens.len() > 0 {
        let p = tokens.drop_last();
        lemma_extend_contains_tokens(terms, p);
        let t = extend_terms(terms, p);
        assert forall|k: int| 0 <= k < tokens.len() implies extend_terms(terms, tokens).contains(#[trigger] tokens[k]) by {
            if k < tokens.len() - 1 {
                assert(p[k] == tokens[k]);
                assert(t.contains(p[k]));
                if !t.contains(tokens.last()) {
                    let j = choose|j: int| 0 <= j < t.len() && t[j] == p[k];
                    assert(t.push(tokens.last())[j] == p[k]);
                }
            } else {
                if !t.contains(tokens.last()) {
                    assert(t.push(tokens.last())[t.len() as int] == tokens.last());
                }
            }
        }
        assert forall|x: Seq<char>| terms.contains(x) implies #[trigger] extend_terms(terms, tokens).contains(x) by {
            assert(t.contains(x));
            if !t.contains(tokens.last()) {
                let j = choose|j: int| 0 <= j < t.len() && t[j] == x;
                assert(t.push(tokens.last())[j] == x);
            }
        }
    }
}

proof fn lemma_extend_known(terms: Seq<Seq<char>>, tokens: Seq<Seq<char>>)
    requires
        forall|k: int| 0 <= k < tokens.len() ==> terms.contains(#[trigger] tokens[k]),
    ensures
        extend_terms(terms, tokens) == terms,
    decreases tokens.len(),
{
    if tokens.len() > 0 {
        let p = tokens.drop_last();
        assert forall|k: int| 0 <= k < p.len() implies terms.contains(#[trigger] p[k]) by {
            assert(p[k] == tokens[k]);
        }
        lemma_extend_known(terms, p);
        assert(terms.contains(tokens[tokens.len() - 1]));
    }
}

/// Fitting a vectorizer twice on the same documents learns nothing the second time:
/// every token met is already a term.
pub proof fn law_fit_idempotent(terms: Seq<Seq<char>>, tokens: Seq<Seq<char>>)
    ensures
        extend_terms(extend_terms(terms, tokens), tokens) == extend_terms(terms, tokens),
{
    lemma_extend_contains_tokens(terms, tokens);
    lemma_extend_known(extend_terms(terms, tokens), tokens);
}

} // verus!
