//! The vocabulary (surface form to identifier), the set of banned word stems,
//! and the word normalisation that both are built with.
use vstd::prelude::*;
use vstd::string::*;
use vstd::std_specs::hash::DefaultHasherAdditionalSpecFns;
use vstd::utf8::encode_utf8;
use std::collections::HashMap;
use std::collections::hash_map::DefaultHasher;
use std::hash::Hasher;
use crate::text::{
    parse_u32, parse_u32_spec, split_any, split_by, titlecase, to_ascii_titlecase, trim, trim_str,
    views,
};
use rust_stemmers::{Algorithm, Stemmer};

verus! {

/// Surface forms shorter than this, in characters, are never looked up.
pub const MIN_WORD_LENGTH: usize = 5;

/// The bucket that a surface form is kept in: the hash of its UTF-8 bytes.
pub open spec fn bucket_of(k: Seq<char>) -> u64 {
    DefaultHasher::spec_finish(seq![encode_utf8(k)])
}

fn bucket_key(key: &String) -> (r: u64)
    ensures
        r == bucket_of(key@),
{
    let mut h = DefaultHasher::new();
    h.write(key.as_str().as_bytes());
    assert(h@ =~= seq![encode_utf8(key@)]);
    h.finish()
}

/// A map from surface form to identifier; inserting a present form replaces
/// its identifier. Forms are kept in buckets by hash.
pub struct Vocabulary {
    buckets: HashMap<u64, Vec<(String, u32)>>,
    count: usize,
    map: Ghost<Map<Seq<char>, u32>>,
}

impl View for Vocabulary {
    type V = Map<Seq<char>, u32>;

    closed spec fn view(&self) -> Map<Seq<char>, u32> {
        self.map@
    }
}

/// Whether a bucket holds forms of hash `h` only, each once, as `map` has them.
pub open spec fn bucket_wf(b: Seq<(String, u32)>, h: u64, map: Map<Seq<char>, u32>) -> bool {
    &&& forall|i: int, j: int| 0 <= i < j < b.len() ==> b[i].0@ != b[j].0@
    &&& forall|i: int|
        0 <= i < b.len() ==> bucket_of(#[trigger] b[i].0@) == h && map.contains_key(b[i].0@)
            && map[b[i].0@] == b[i].1
}

/// Whether the bucket of `k` holds it.
pub open spec fn bucket_holds(buckets: Map<u64, Vec<(String, u32)>>, k: Seq<char>) -> bool {
    buckets.contains_key(bucket_of(k)) && exists|i: int|
        0 <= i < buckets[bucket_of(k)]@.len() && #[trigger] buckets[bucket_of(k)]@[i].0@ == k
}

impl Vocabulary {
    pub closed spec fn wf(&self) -> bool {
        &&& self.count == self.map@.len()
        &&& self.map@.dom().finite()
        &&& forall|h: u64| #[trigger]
            self.buckets@.contains_key(h) ==> bucket_wf(self.buckets@[h]@, h, self.map@)
        &&& forall|k: Seq<char>| #[trigger]
            self.map@.contains_key(k) ==> bucket_holds(self.buckets@, k)
    }

    pub fn new() -> (r: Vocabulary)
        ensures
            r.wf(),
            r@ == Map::<Seq<char>, u32>::empty(),
    {
        broadcast use vstd::std_specs::hash::group_hash_axioms;

        let r = Vocabulary { buckets: HashMap::new(), count: 0, map: Ghost(Map::empty()) };
        assert(r.map@.dom() =~= Set::<Seq<char>>::empty());
        r
    }

    fn find(b: &Vec<(String, u32)>, key: &String) -> (r: Option<usize>)
        ensures
            match r {
                Some(i) => i < b@.len() && b@[i as int].0@ == key@,
                None => forall|j: int| 0 <= j < b@.len() ==> b@[j].0@ != key@,
            },
    {
        let mut i: usize = 0;
        while i < b.len()
            invariant
                i <= b@.len(),
                forall|j: int| 0 <= j < i ==> b@[j].0@ != key@,
            decreases b@.len() - i,
        {
            if b[i].0 == *key {
                return Some(i);
            }
            i = i + 1;
        }
        None
    }

    /// The identifier of `key`, if it is present.
    pub fn get(&self, key: &String) -> (r: Option<u32>)
        requires
            self.wf(),
        ensures
            r == (if self@.contains_key(key@) {
                Some(self@[key@])
            } else {
                None
            }),
    {
        broadcast use vstd::std_specs::hash::group_hash_axioms;

        let h = bucket_key(key);
        match self.buckets.get(&h) {
            Some(b) => {
                assert(bucket_wf(b@, h, self.map@));
                match Self::find(b, key) {
                    Some(i) => Some(b[i].1),
                    None => {
                        assert(!self.map@.contains_key(key@)) by {
                            if self.map@.contains_key(key@) {
                                assert(bucket_holds(self.buckets@, key@));
                            }
                        }
                        None
                    },
                }
            },
            None => {
                assert(!self.map@.contains_key(key@)) by {
                    if self.map@.contains_key(key@) {
                        assert(bucket_holds(self.buckets@, key@));
                    }
                }
                None
            },
        }
    }

    /// Maps `key` to `id`; a previous identifier of `key` is replaced.
    pub fn insert(&mut self, key: String, id: u32)
        requires
            old(self).wf(),
            old(self)@.len() < usize::MAX,
        ensures
            final(self).wf(),
            final(self)@ == old(self)@.insert(key@, id),
            final(self)@.len() <= old(self)@.len() + 1,
    {
        broadcast use vstd::std_specs::hash::group_hash_axioms;

        let ghost k = key@;
        let ghost old_map = self.map@;
        let ghost old_buckets = self.buckets@;
        let h = bucket_key(&key);
        let mut b = match self.buckets.remove(&h) {
            Some(b) => b,
            None => Vec::new(),
        };
        let ghost old_b = b@;
        assert(old_buckets.contains_key(h) ==> old_b == old_buckets[h]@);
        let ghost mut pos: int = 0;
        let fresh = match Self::find(&b, &key) {
            Some(i) => {
                b.set(i, (key, id));
                proof {
                    pos = i as int;
                }
                false
            },
            None => {
                b.push((key, id));
                proof {
                    pos = old_b.len() as int;
                }
                true
            },
        };
        assert(b@[pos].0@ == k);
        assert(fresh == !old_map.contains_key(k)) by {
            if old_map.contains_key(k) {
                assert(bucket_holds(old_buckets, k));
                let j = choose|j: int| 0 <= j < old_buckets[h]@.len() && old_buckets[h]@[j].0@ == k;
                assert(old_b[j].0@ == k);
            }
        }
        self.buckets.insert(h, b);
        self.map = Ghost(old_map.insert(k, id));
        if fresh {
            self.count = self.count + 1;
        }
        assert(self.map@.len() == old_map.len() + if fresh { 1int } else { 0int });
        assert forall|g: u64| #[trigger] self.buckets@.contains_key(g) implies bucket_wf(
            self.buckets@[g]@,
            g,
            self.map@,
        ) by {
            if g != h {
                assert(old_buckets.contains_key(g));
                let ob = old_buckets[g]@;
                assert(bucket_wf(ob, g, old_map));
                assert forall|i: int| 0 <= i < ob.len() implies ob[i].0@ != k by {
                    assert(bucket_of(ob[i].0@) == g);
                }
            } else {
                let nb = self.buckets@[g]@;
                if old_buckets.contains_key(h) {
                    assert(bucket_wf(old_b, h, old_map));
                }
                assert forall|i: int| 0 <= i < nb.len() implies bucket_of(#[trigger] nb[i].0@) == h
                    && self.map@.contains_key(nb[i].0@) && self.map@[nb[i].0@] == nb[i].1 by {
                    if nb[i].0@ != k {
                        assert(nb[i] == old_b[i]);
                    }
                }
            }
        }
        assert forall|q: Seq<char>| #[trigger] self.map@.contains_key(q) implies bucket_holds(
            self.buckets@,
            q,
        ) by {
            let nb = self.buckets@[h]@;
            if q == k {
                assert(self.buckets@[bucket_of(q)]@[pos].0@ == q);
            } else {
                assert(bucket_holds(old_buckets, q));
                let g = bucket_of(q);
                let j = choose|j: int| 0 <= j < old_buckets[g]@.len() && old_buckets[g]@[j].0@ == q;
                if g == h {
                    assert(nb[j].0@ == q);
                } else {
                    assert(self.buckets@[g]@[j].0@ == q);
                }
            }
        }
    }

    /// The number of surface forms held.
    pub fn len(&self) -> (r: usize)
        requires
            self.wf(),
        ensures
            r == self@.len(),
            self@.dom().finite(),
    {
        self.count
    }

    /// A well-formed vocabulary holds finitely many surface forms.
    pub proof fn lemma_finite(&self)
        requires
            self.wf(),
        ensures
            self@.dom().finite(),
    {
    }
}

/// A set of word stems.
pub struct StemSet {
    words: Vocabulary,
}

impl View for StemSet {
    type V = Set<Seq<char>>;

    closed spec fn view(&self) -> Set<Seq<char>> {
        self.words@.dom()
    }
}

impl StemSet {
    pub closed spec fn wf(&self) -> bool {
        self.words.wf()
    }

    pub fn new() -> (r: StemSet)
        ensures
            r.wf(),
            r@ == Set::<Seq<char>>::empty(),
    {
        let r = StemSet { words: Vocabulary::new() };
        assert(r@ =~= Set::<Seq<char>>::empty());
        r
    }

    /// Whether `w` is in the set.
    pub fn contains(&self, w: &String) -> (r: bool)
        requires
            self.wf(),
        ensures
            r == self@.contains(w@),
    {
        self.words.get(w).is_some()
    }

    /// Adds `w` to the set.
    pub fn insert(&mut self, w: String)
        requires
            old(self).wf(),
            old(self)@.len() < usize::MAX,
        ensures
            final(self).wf(),
            final(self)@ == old(self)@.insert(w@),
            final(self)@.len() <= old(self)@.len() + 1,
    {
        let ghost k = w@;
        self.words.insert(w, 0);
        assert(self@ =~= old(self)@.insert(k));
    }
}

/// The stemmer of rust_stemmers, held opaque.
#[verifier::external_type_specification]
#[verifier::external_body]
pub struct ExStemmer(Stemmer);

/// What the English (Porter 2) stemmer of rust_stemmers makes of a word.
pub uninterp spec fn english_stem(w: Seq<char>) -> Seq<char>;

/// What `str::to_lowercase` makes of a string.
pub uninterp spec fn lower_of(w: Seq<char>) -> Seq<char>;

/// Relies on `rust_stemmers::Stemmer::create`: builds the English stemmer.
#[verifier::external_body]
fn english_stemmer() -> Stemmer {
    Stemmer::create(Algorithm::English)
}

/// Relies on `str::to_lowercase`: the result depends on the characters alone.
#[verifier::external_body]
fn lowercase(w: &str) -> (r: String)
    ensures
        r@ == lower_of(w@),
{
    w.to_lowercase()
}

/// The normal form in which words are compared with the banned stems:
/// trimmed, lower-cased, stemmed.
pub open spec fn standard_form(w: Seq<char>) -> Seq<char> {
    english_stem(lower_of(trim(w)))
}

/// Normalises words for the noise filter.
pub struct StemmerWrapper {
    stemmer: Stemmer,
    english: Ghost<bool>,
}

/// Relies on `rust_stemmers::Stemmer::stem`: the stemmer that
/// `english_stemmer` built stems with the English algorithm, and the result
/// depends on the word alone.
#[verifier::external_body]
fn stem(s: &StemmerWrapper, w: &str) -> (r: String)
    requires
        s.is_english(),
    ensures
        r@ == english_stem(w@),
{
    s.stemmer.stem(w).into_owned()
}

impl StemmerWrapper {
    /// Whether the stemmer was built by `english_stemmer`.
    pub closed spec fn is_english(&self) -> bool {
        self.english@
    }

    /// A normaliser that stems with the English algorithm.
    pub fn new() -> (r: StemmerWrapper)
        ensures
            r.is_english(),
    {
        StemmerWrapper { stemmer: english_stemmer(), english: Ghost(true) }
    }

    /// Trims, lower-cases and stems `word`.
    pub fn standardize(&self, word: &str) -> (r: String)
        requires
            self.is_english(),
        ensures
            r@ == standard_form(word@),
    {
        let t = trim_str(word);
        let l = lowercase(t.as_str());
        stem(self, l.as_str())
    }
}

/// The characters with the Unicode White_Space property.
pub open spec fn white_chars() -> Seq<char> {
    seq![
        '\t', '\n', '\u{b}', '\u{c}', '\r', ' ', '\u{85}', '\u{a0}', '\u{1680}', '\u{2000}',
        '\u{2001}', '\u{2002}', '\u{2003}', '\u{2004}', '\u{2005}', '\u{2006}', '\u{2007}',
        '\u{2008}', '\u{2009}', '\u{200a}', '\u{2028}', '\u{2029}', '\u{202f}', '\u{205f}',
        '\u{3000}',
    ]
}

fn white_list() -> (r: Vec<char>)
    ensures
        r@ == white_chars(),
{
    let r = vec![
        '\t', '\n', '\u{b}', '\u{c}', '\r', ' ', '\u{85}', '\u{a0}', '\u{1680}', '\u{2000}',
        '\u{2001}', '\u{2002}', '\u{2003}', '\u{2004}', '\u{2005}', '\u{2006}', '\u{2007}',
        '\u{2008}', '\u{2009}', '\u{200a}', '\u{2028}', '\u{2029}', '\u{202f}', '\u{205f}',
        '\u{3000}',
    ];
    assert(r@ =~= white_chars());
    r
}

/// A token of the word list that counts: not empty, and not a `#` comment.
pub open spec fn is_listed(t: Seq<char>) -> bool {
    t.len() > 0 && t[0] != '#'
}

/// The banned stems that a word list gives: the normal form of each listed
/// token between white space.
pub open spec fn banned_stems(list: Seq<char>) -> Set<Seq<char>> {
    Set::new(
        |w: Seq<char>|
            exists|t: Seq<char>|
                #[trigger] split_by(list, white_chars()).contains(t) && is_listed(t) && w
                    == standard_form(t),
    )
}

/// Builds the banned-stem set from a word list.
pub fn build_banned(list: &str, stemmer: &StemmerWrapper) -> (r: StemSet)
    requires
        stemmer.is_english(),
    ensures
        r.wf(),
        r@ == banned_stems(list@),
{
    let ws = white_list();
    let tokens = split_any(list, ws.as_slice());
    let ghost ts = split_by(list@, white_chars());
    let mut set = StemSet::new();
    let mut i: usize = 0;
    while i < tokens.len()
        invariant
            set.wf(),
            stemmer.is_english(),
            i <= tokens@.len(),
            views(tokens@) == ts,
            ts == split_by(list@, white_chars()),
            set@.len() <= i,
            set@ == Set::new(
                |w: Seq<char>|
                    exists|j: int| 0 <= j < i && is_listed(ts[j]) && w == standard_form(#[trigger] ts[j]),
            ),
        decreases tokens@.len() - i,
    {
        let t = &tokens[i];
        assert(t@ == ts[i as int]);
        let ghost before = set@;
        if !t.as_str().is_empty() && t.as_str().get_char(0) != '#' {
            set.insert(stemmer.standardize(t.as_str()));
        }
        assert(set@ =~= Set::new(
            |w: Seq<char>|
                exists|j: int| 0 <= j < i + 1 && is_listed(ts[j]) && w == standard_form(#[trigger] ts[j]),
        )) by {
            assert forall|w: Seq<char>| set@.contains(w) implies exists|j: int|
                0 <= j < i + 1 && is_listed(ts[j]) && w == standard_form(#[trigger] ts[j]) by {
                if !before.contains(w) {
                    assert(is_listed(ts[i as int]) && w == standard_form(ts[i as int]));
                }
            }
        }
        i = i + 1;
    }
    assert(set@ =~= banned_stems(list@)) by {
        assert forall|w: Seq<char>| banned_stems(list@).contains(w) implies set@.contains(w) by {
            let t = choose|t: Seq<char>| ts.contains(t) && is_listed(t) && w == standard_form(t);
            let j = choose|j: int| 0 <= j < ts.len() && ts[j] == t;
            assert(is_listed(ts[j]) && w == standard_form(ts[j]));
        }
        assert forall|w: Seq<char>| set@.contains(w) implies banned_stems(list@).contains(w) by {
            let j = choose|j: int| 0 <= j < ts.len() && is_listed(ts[j]) && w == standard_form(ts[j]);
            assert(ts.contains(ts[j]));
        }
    }
    set
}

/// Why a vocabulary could not be built.
#[derive(Debug, Clone, Copy, PartialEq, Eq, Structural)]
pub enum VocabError {
    /// The identifier field of this line (counted from 0) is not a `u32`.
    BadIdentifier(usize),
}

/// A vocabulary together with the number of entries that were filtered out.
pub struct BuiltVocabulary {
    pub vocabulary: Vocabulary,
    pub skipped: usize,
}

/// Whether a (trimmed) surface form is kept: long enough, and not banned.
pub open spec fn is_accepted(key: Seq<char>, banned: Set<Seq<char>>) -> bool {
    key.len() >= MIN_WORD_LENGTH && !banned.contains(standard_form(key))
}

/// The vocabulary, and the count of filtered entries, that the given lines
/// build; or the index of the first accepted line whose identifier does not
/// parse. A line counts only when a tab splits it into exactly two fields,
/// the identifier and the surface form; both are trimmed, and a later line
/// replaces an earlier one of the same title-cased form.
pub open spec fn vocabulary_of(lines: Seq<Seq<char>>, banned: Set<Seq<char>>) -> Result<
    (Map<Seq<char>, u32>, nat),
    nat,
>
    decreases lines.len(),
{
    if lines.len() == 0 {
        Ok((Map::empty(), 0))
    } else {
        match vocabulary_of(lines.drop_last(), banned) {
            Err(e) => Err(e),
            Ok((m, skipped)) => {
                let fields = split_by(lines.last(), seq!['\t']);
                if fields.len() != 2 {
                    Ok((m, skipped))
                } else if !is_accepted(trim(fields[1]), banned) {
                    Ok((m, skipped + 1))
                } else {
                    match parse_u32_spec(trim(fields[0])) {
                        Some(id) => Ok((m.insert(titlecase(trim(fields[1])), id), skipped)),
                        None => Err((lines.len() - 1) as nat),
                    }
                }
            },
        }
    }
}

/// The lines of a vocabulary source: the pieces between newlines.
pub open spec fn source_lines(content: Seq<char>) -> Seq<Seq<char>> {
    split_by(content, seq!['\n'])
}

proof fn lemma_error_stays(lines: Seq<Seq<char>>, banned: Set<Seq<char>>, k: int)
    requires
        0 <= k <= lines.len(),
        vocabulary_of(lines.take(k), banned) is Err,
    ensures
        vocabulary_of(lines, banned) == vocabulary_of(lines.take(k), banned),
    decreases lines.len() - k,
{
    if k < lines.len() {
        assert(lines.take(k + 1).drop_last() =~= lines.take(k));
        lemma_error_stays(lines, banned, k + 1);
    } else {
        assert(lines.take(k) =~= lines);
    }
}

/// Builds the vocabulary from `identifier<TAB>surface form` lines, leaving out
/// short surface forms and those whose normal form is banned.
pub fn build_vocabulary(content: &str, banned: &StemSet, stemmer: &StemmerWrapper) -> (r: Result<
    BuiltVocabulary,
    VocabError,
>)
    requires
        banned.wf(),
        stemmer.is_english(),
    ensures
        match (r, vocabulary_of(source_lines(content@), banned@)) {
            (Ok(b), Ok((m, skipped))) => b.vocabulary.wf() && b.vocabulary@ == m && b.skipped
                == skipped,
            (Err(VocabError::BadIdentifier(i)), Err(j)) => i == j,
            _ => false,
        },
{
    let newline = vec!['\n'];
    let tab = vec!['\t'];
    assert(newline@ =~= seq!['\n']);
    assert(tab@ =~= seq!['\t']);
    let lines = split_any(content, newline.as_slice());
    let ghost ls = source_lines(content@);
    let mut vocabulary = Vocabulary::new();
    let mut skipped: usize = 0;
    let mut i: usize = 0;
    assert(ls.take(0) =~= Seq::<Seq<char>>::empty());
    while i < lines.len()
        invariant
            vocabulary.wf(),
            banned.wf(),
            stemmer.is_english(),
            tab@ == seq!['\t'],
            i <= lines@.len(),
            views(lines@) == ls,
            ls == source_lines(content@),
            skipped <= i,
            vocabulary@.len() <= i,
            vocabulary_of(ls.take(i as int), banned@) == Ok::<(Map<Seq<char>, u32>, nat), nat>(
                (vocabulary@, skipped as nat),
            ),
        decreases lines@.len() - i,
    {
        assert(ls.take(i + 1).drop_last() =~= ls.take(i as int));
        assert(ls.take(i + 1).last() == lines@[i as int]@);
        let fields = split_any(lines[i].as_str(), tab.as_slice());
        if fields.len() == 2 {
            let id = trim_str(fields[0].as_str());
            let key = trim_str(fields[1].as_str());
            let long_enough = key.as_str().unicode_len() >= MIN_WORD_LENGTH;
            if long_enough && !banned.contains(&stemmer.standardize(key.as_str())) {
                match parse_u32(id.as_str()) {
                    Some(n) => {
                        vocabulary.insert(to_ascii_titlecase(key.as_str()), n);
                    },
                    None => {
                        assert(vocabulary_of(ls.take(i + 1), banned@) == Err::<
                            (Map<Seq<char>, u32>, nat),
                            nat,
                        >(i as nat));
                        proof {
                            lemma_error_stays(ls, banned@, i + 1);
                        }
                        return Err(VocabError::BadIdentifier(i));
                    },
                }
            } else {
                skipped = skipped + 1;
            }
        }
        i = i + 1;
    }
    assert(ls.take(i as int) =~= ls);
    Ok(BuiltVocabulary { vocabulary, skipped })
}

/// Every listed token of a word list has its normal form in the banned set
/// built from that list.
pub proof fn lemma_listed_words_banned(list: Seq<char>, t: Seq<char>)
    requires
        split_by(list, white_chars()).contains(t),
        is_listed(t),
    ensures
        banned_stems(list).contains(standard_form(t)),
{
}

/// Every surface form of a built vocabulary is the title-cased form of the
/// trimmed surface field of some two-field line that was accepted: at least
/// `MIN_WORD_LENGTH` characters long, with a normal form that is not banned.
pub proof fn lemma_vocabulary_entries_accepted(
    lines: Seq<Seq<char>>,
    banned: Set<Seq<char>>,
    m: Map<Seq<char>, u32>,
    skipped: nat,
    k: Seq<char>,
)
    requires
        vocabulary_of(lines, banned) == Ok::<(Map<Seq<char>, u32>, nat), nat>((m, skipped)),
        m.contains_key(k),
    ensures
        exists|i: int|
            0 <= i < lines.len() && split_by(#[trigger] lines[i], seq!['\t']).len() == 2
                && is_accepted(trim(split_by(lines[i], seq!['\t'])[1]), banned) && k == titlecase(
                trim(split_by(lines[i], seq!['\t'])[1]),
            ),
    decreases lines.len(),
{
    let init = lines.drop_last();
    let fields = split_by(lines.last(), seq!['\t']);
    let last = lines.len() - 1;
    match vocabulary_of(init, banned) {
        Ok((m0, s0)) => {
            if fields.len() == 2 && is_accepted(trim(fields[1]), banned) && k == titlecase(
                trim(fields[1]),
            ) {
                assert(lines[last] == lines.last());
            } else {
                assert(m0.contains_key(k));
                lemma_vocabulary_entries_accepted(init, banned, m0, s0, k);
                let i = choose|i: int|
                    0 <= i < init.len() && split_by(#[trigger] init[i], seq!['\t']).len() == 2
                        && is_accepted(trim(split_by(init[i], seq!['\t'])[1]), banned) && k
                        == titlecase(trim(split_by(init[i], seq!['\t'])[1]));
                assert(lines[i] == init[i]);
            }
        },
        Err(_) => {},
    }
}

} // verus!
