//! Finds vocabulary surface forms in text, paragraph by paragraph, and masks
//! each match in a copy of its paragraph.
use vstd::prelude::*;
use vstd::string::*;
use crate::text::{
    ascii_upper, lemma_split_by_nonempty, push_char, replace_all, replace_str, split_any, split_by, titlecase, to_ascii_titlecase,
    untitlecase, views, from_ascii_titlecase,
};
use crate::vocab::{Vocabulary, MIN_WORD_LENGTH};

verus! {

/// The placeholder that stands for a matched surface form in a context.
pub const MASK: &'static str = "<|MOLECULE|>";

/// The regular expression that separates paragraphs: two newlines.
const PARAGRAPH_BREAK: &'static str = "\\n\\n";

/// A detection: the masked paragraph, the matched surface form, and its
/// identifier.
pub type Detection = (String, String, u32);

pub open spec fn detection_view(d: Detection) -> (Seq<char>, Seq<char>, u32) {
    (d.0@, d.1@, d.2)
}

pub open spec fn detections_view(v: Seq<Detection>) -> Seq<(Seq<char>, Seq<char>, u32)> {
    v.map_values(|d: Detection| detection_view(d))
}

/// The pieces of `s` between the leftmost non-overlapping occurrences of the
/// non-empty `d`.
pub open spec fn split_on(s: Seq<char>, d: Seq<char>) -> Seq<Seq<char>>
    decreases s.len(),
{
    if s.len() == 0 {
        seq![Seq::<char>::empty()]
    } else if 0 < d.len() <= s.len() && s.take(d.len() as int) == d {
        seq![Seq::<char>::empty()] + split_on(s.skip(d.len() as int), d)
    } else {
        let rest = split_on(s.drop_first(), d);
        rest.update(0, seq![s[0]] + rest[0])
    }
}

pub open spec fn paragraph_break() -> Seq<char> {
    seq!['\n', '\n']
}

/// The paragraphs of a text.
pub open spec fn paragraphs(text: Seq<char>) -> Seq<Seq<char>> {
    split_on(text, paragraph_break())
}

/// Relies on `regex::Regex::new` and `regex::Regex::split`: the regular
/// expression `\n\n` is valid, and splitting by it gives the pieces between
/// its leftmost non-overlapping matches.
#[verifier::external_body]
fn regex_split(pattern: &str, text: &str) -> (r: Vec<String>)
    requires
        pattern@ == seq!['\\', 'n', '\\', 'n'],
    ensures
        views(r@) == split_on(text@, paragraph_break()),
{
    let re = regex::Regex::new(pattern).unwrap();
    re.split(text).map(|p| p.to_string()).collect()
}

/// The characters at which a paragraph is cut into words.
pub open spec fn word_breaks() -> Seq<char> {
    seq![
        ' ', '\t', '\n', '\r', ',', '.', ';', ':', '!', '?', '(', ')', '[', ']', '{', '}', '<', '>',
        '"', '\'',
    ]
}

fn word_break_list() -> (r: Vec<char>)
    ensures
        r@ == word_breaks(),
{
    let r = vec![
        ' ', '\t', '\n', '\r', ',', '.', ';', ':', '!', '?', '(', ')', '[', ']', '{', '}', '<', '>',
        '"', '\'',
    ];
    assert(r@ =~= word_breaks());
    r
}

/// The paragraph `p` with every occurrence of `key`, and then of `key` with
/// its first letter lower-cased, replaced by the mask.
pub open spec fn masked(p: Seq<char>, key: Seq<char>) -> Seq<char> {
    replace_all(replace_all(p, key, MASK@), untitlecase(key), MASK@)
}

/// Whether `key` can be reported now: long enough, in the vocabulary, and not
/// yet reported in this paragraph.
pub open spec fn reportable(
    vocab: Map<Seq<char>, u32>,
    seen: Set<Seq<char>>,
    key: Seq<char>,
    len: nat,
) -> bool {
    len >= MIN_WORD_LENGTH && vocab.contains_key(key) && !seen.contains(key)
}

/// The surface form that the word `word`, following the (title-cased) word
/// `last`, reports: the two-word form first, then `last` alone.
pub open spec fn pick(
    vocab: Map<Seq<char>, u32>,
    seen: Set<Seq<char>>,
    last: Seq<char>,
    word: Seq<char>,
) -> Option<Seq<char>> {
    let bigram = last + seq![' '] + word;
    if reportable(vocab, seen, bigram, word.len()) {
        Some(bigram)
    } else if reportable(vocab, seen, last, last.len()) {
        Some(last)
    } else {
        None
    }
}

/// The state after the given words of paragraph `p`: the last word
/// title-cased, the surface forms reported, and the detections in order.
pub open spec fn scan_words(
    vocab: Map<Seq<char>, u32>,
    p: Seq<char>,
    words: Seq<Seq<char>>,
) -> (Seq<char>, Set<Seq<char>>, Seq<(Seq<char>, Seq<char>, u32)>)
    decreases words.len(),
{
    if words.len() == 0 {
        (Seq::empty(), Set::empty(), Seq::empty())
    } else {
        let (last, seen, found) = scan_words(vocab, p, words.drop_last());
        let word = words.last();
        match pick(vocab, seen, last, word) {
            Some(k) => (titlecase(word), seen.insert(k), found.push((masked(p, k), k, vocab[k]))),
            None => (titlecase(word), seen, found),
        }
    }
}

/// The detections of one paragraph: those of its words, then one for its
/// last word alone, masked by the same rule.
pub open spec fn scan_paragraph(vocab: Map<Seq<char>, u32>, p: Seq<char>) -> Seq<
    (Seq<char>, Seq<char>, u32),
> {
    let (last, seen, found) = scan_words(vocab, p, split_by(p, word_breaks()));
    if reportable(vocab, seen, last, last.len()) {
        found.push((masked(p, last), last, vocab[last]))
    } else {
        found
    }
}

/// The detections of the given paragraphs, in order.
pub open spec fn scan_paragraphs(vocab: Map<Seq<char>, u32>, ps: Seq<Seq<char>>) -> Seq<
    (Seq<char>, Seq<char>, u32),
>
    decreases ps.len(),
{
    if ps.len() == 0 {
        Seq::empty()
    } else {
        scan_paragraphs(vocab, ps.drop_last()) + scan_paragraph(vocab, ps.last())
    }
}

/// The detections of a text.
pub open spec fn scan_text(vocab: Map<Seq<char>, u32>, text: Seq<char>) -> Seq<
    (Seq<char>, Seq<char>, u32),
> {
    scan_paragraphs(vocab, paragraphs(text))
}

fn seen_contains(seen: &Vec<String>, key: &String) -> (r: bool)
    ensures
        r == views(seen@).contains(key@),
{
    let mut i: usize = 0;
    while i < seen.len()
        invariant
            i <= seen@.len(),
            forall|j: int| 0 <= j < i ==> seen@[j]@ != key@,
        decreases seen@.len() - i,
    {
        if seen[i] == *key {
            assert(views(seen@)[i as int] == key@);
            return true;
        }
        i = i + 1;
    }
    assert(!views(seen@).contains(key@)) by {
        if views(seen@).contains(key@) {
            let j = choose|j: int| 0 <= j < views(seen@).len() && views(seen@)[j] == key@;
            assert(seen@[j]@ == key@);
        }
    }
    false
}

/// The identifier of `key` when it is reportable.
fn lookup_unseen(vocab: &Vocabulary, seen: &Vec<String>, key: &String, len: usize) -> (r: Option<
    u32,
>)
    requires
        vocab.wf(),
    ensures
        r == (if reportable(vocab@, views(seen@).to_set(), key@, len as nat) {
            Some(vocab@[key@])
        } else {
            None
        }),
{
    if len < MIN_WORD_LENGTH {
        return None;
    }
    match vocab.get(key) {
        Some(id) => {
            if seen_contains(seen, key) {
                None
            } else {
                Some(id)
            }
        },
        None => None,
    }
}

fn mask_paragraph(p: &str, key: &String) -> (r: String)
    requires
        key@.len() > 0,
    ensures
        r@ == masked(p@, key@),
{
    let once = replace_str(p, key.as_str(), MASK);
    let lower = from_ascii_titlecase(key.as_str());
    replace_str(once.as_str(), lower.as_str(), MASK)
}

/// The detections of one paragraph.
pub fn search_paragraph(vocab: &Vocabulary, p: &str) -> (r: Vec<Detection>)
    requires
        vocab.wf(),
    ensures
        detections_view(r@) == scan_paragraph(vocab@, p@),
{
    let breaks = word_break_list();
    let words = split_any(p, breaks.as_slice());
    let ghost ws = split_by(p@, word_breaks());
    let mut last = String::new();
    let mut seen: Vec<String> = Vec::new();
    let mut found: Vec<Detection> = Vec::new();
    let mut i: usize = 0;
    assert(ws.take(0) =~= Seq::<Seq<char>>::empty());
    assert(views(seen@).to_set() =~= Set::<Seq<char>>::empty());
    assert(detections_view(found@) =~= Seq::<(Seq<char>, Seq<char>, u32)>::empty());
    while i < words.len()
        invariant
            vocab.wf(),
            i <= words@.len(),
            views(words@) == ws,
            ws == split_by(p@, word_breaks()),
            scan_words(vocab@, p@, ws.take(i as int)) == (
                last@,
                views(seen@).to_set(),
                detections_view(found@),
            ),
        decreases words@.len() - i,
    {
        let word = &words[i];
        assert(ws.take(i + 1).drop_last() =~= ws.take(i as int));
        assert(ws.take(i + 1).last() == word@);
        let mut bigram = last.clone();
        push_char(&mut bigram, ' ');
        bigram.append(word.as_str());
        assert(bigram@ =~= last@ + seq![' '] + word@);
        let ghost seen_set = views(seen@).to_set();
        let key: Option<(String, u32)> = match lookup_unseen(
            vocab,
            &seen,
            &bigram,
            word.as_str().unicode_len(),
        ) {
            Some(id) => Some((bigram, id)),
            None => match lookup_unseen(vocab, &seen, &last, last.as_str().unicode_len()) {
                Some(id) => Some((last.clone(), id)),
                None => None,
            },
        };
        let ghost seen0 = seen@;
        let ghost found0 = found@;
        if let Some((k, id)) = key {
            let context = mask_paragraph(p, &k);
            seen.push(k.clone());
            assert(views(seen@) =~= views(seen0).push(k@));
            assert(views(seen@).to_set() =~= seen_set.insert(k@)) by {
                assert forall|q: Seq<char>| views(seen@).contains(q) <==> seen_set.insert(k@).contains(q) by {
                    if views(seen@).contains(q) && q != k@ {
                        let j = choose|j: int| 0 <= j < views(seen@).len() && views(seen@)[j] == q;
                        assert(views(seen0)[j] == q);
                    }
                    if views(seen0).contains(q) {
                        let j = choose|j: int| 0 <= j < views(seen0).len() && views(seen0)[j] == q;
                        assert(views(seen@)[j] == q);
                    }
                    if q == k@ {
                        assert(views(seen@)[views(seen0).len() as int] == q);
                    }
                }
            }
            found.push((context, k, id));
            assert(detections_view(found@) =~= detections_view(found0).push(detection_view(found@.last())));
        }
        last = to_ascii_titlecase(word.as_str());
        i = i + 1;
    }
    assert(ws.take(i as int) =~= ws);
    let ghost found0 = found@;
    match lookup_unseen(vocab, &seen, &last, last.as_str().unicode_len()) {
        Some(id) => {
            let context = mask_paragraph(p, &last);
            found.push((context, last, id));
            assert(detections_view(found@) =~= detections_view(found0).push(detection_view(found@.last())));
        },
        None => {},
    }
    found
}

/// The detections of a text: the paragraphs in order, and within each
/// paragraph in the order of its words.
pub fn search_keys_in_text(vocab: &Vocabulary, text: &str) -> (r: Vec<Detection>)
    requires
        vocab.wf(),
    ensures
        detections_view(r@) == scan_text(vocab@, text@),
{
    proof {
        reveal_strlit("\\n\\n");
    }
    assert(PARAGRAPH_BREAK@ =~= seq!['\\', 'n', '\\', 'n']);
    let ps = regex_split(PARAGRAPH_BREAK, text);
    let ghost pv = paragraphs(text@);
    let mut results: Vec<Detection> = Vec::new();
    let mut i: usize = 0;
    assert(pv.take(0) =~= Seq::<Seq<char>>::empty());
    assert(detections_view(results@) =~= Seq::<(Seq<char>, Seq<char>, u32)>::empty());
    while i < ps.len()
        invariant
            vocab.wf(),
            i <= ps@.len(),
            views(ps@) == pv,
            pv == paragraphs(text@),
            detections_view(results@) == scan_paragraphs(vocab@, pv.take(i as int)),
        decreases ps@.len() - i,
    {
        assert(pv.take(i + 1).drop_last() =~= pv.take(i as int));
        assert(pv.take(i + 1).last() == ps@[i as int]@);
        let mut found = search_paragraph(vocab, ps[i].as_str());
        let ghost r0 = results@;
        let ghost f0 = found@;
        results.append(&mut found);
        assert(detections_view(results@) =~= detections_view(r0) + detections_view(f0));
        i = i + 1;
    }
    assert(pv.take(i as int) =~= pv);
    results
}

/// Whether no surface form is reported twice.
pub open spec fn distinct_forms(ds: Seq<(Seq<char>, Seq<char>, u32)>) -> bool {
    forall|i: int, j: int| 0 <= i < j < ds.len() ==> ds[i].1 != ds[j].1
}

proof fn lemma_scan_words_distinct(vocab: Map<Seq<char>, u32>, p: Seq<char>, words: Seq<Seq<char>>)
    ensures
        distinct_forms(scan_words(vocab, p, words).2),
        forall|i: int|
            0 <= i < scan_words(vocab, p, words).2.len() ==> scan_words(vocab, p, words).1.contains(
                #[trigger] scan_words(vocab, p, words).2[i].1,
            ) && vocab.contains_key(scan_words(vocab, p, words).2[i].1),
    decreases words.len(),
{
    if words.len() > 0 {
        lemma_scan_words_distinct(vocab, p, words.drop_last());
    }
}

/// Within one paragraph a surface form is reported at most once, however
/// often it occurs.
pub proof fn lemma_paragraph_forms_distinct(vocab: Map<Seq<char>, u32>, p: Seq<char>)
    ensures
        distinct_forms(scan_paragraph(vocab, p)),
{
    lemma_scan_words_distinct(vocab, p, split_by(p, word_breaks()));
}

proof fn lemma_scan_paragraphs_concat(vocab: Map<Seq<char>, u32>, a: Seq<Seq<char>>, b: Seq<Seq<char>>)
    ensures
        scan_paragraphs(vocab, a + b) == scan_paragraphs(vocab, a) + scan_paragraphs(vocab, b),
    decreases b.len(),
{
    if b.len() == 0 {
        assert(a + b =~= a);
        assert(scan_paragraphs(vocab, a) + Seq::empty() =~= scan_paragraphs(vocab, a));
    } else {
        lemma_scan_paragraphs_concat(vocab, a, b.drop_last());
        assert((a + b).drop_last() =~= a + b.drop_last());
        assert((a + b).last() == b.last());
        assert(scan_paragraphs(vocab, a) + scan_paragraphs(vocab, b.drop_last()) + scan_paragraph(
            vocab,
            b.last(),
        ) =~= scan_paragraphs(vocab, a) + (scan_paragraphs(vocab, b.drop_last()) + scan_paragraph(
            vocab,
            b.last(),
        )));
    }
}

/// The detections of a text are those of its paragraphs, one paragraph after
/// the other: each paragraph is scanned on its own.
pub proof fn lemma_text_by_paragraphs(vocab: Map<Seq<char>, u32>, ps: Seq<Seq<char>>, i: int)
    requires
        0 <= i < ps.len(),
    ensures
        scan_paragraphs(vocab, ps) == scan_paragraphs(vocab, ps.take(i)) + scan_paragraph(
            vocab,
            ps[i],
        ) + scan_paragraphs(vocab, ps.skip(i + 1)),
{
    let a = ps.take(i);
    let b = seq![ps[i]];
    let c = ps.skip(i + 1);
    assert(ps =~= a + b + c);
    lemma_scan_paragraphs_concat(vocab, a + b, c);
    lemma_scan_paragraphs_concat(vocab, a, b);
    assert(b.drop_last() =~= Seq::<Seq<char>>::empty());
    assert(scan_paragraphs(vocab, b.drop_last()) == Seq::<(Seq<char>, Seq<char>, u32)>::empty());
    assert(b.last() == ps[i]);
    assert(scan_paragraphs(vocab, b) =~= scan_paragraph(vocab, ps[i]));
}

/// The word that a mask leaves between word breaks.
pub open spec fn mask_word() -> Seq<char> {
    seq!['|', 'M', 'O', 'L', 'E', 'C', 'U', 'L', 'E', '|']
}

/// Whether no form of the vocabulary contains a `|`.
pub open spec fn forms_without_bar(vocab: Map<Seq<char>, u32>) -> bool {
    forall|k: Seq<char>| #[trigger] vocab.contains_key(k) ==> !k.contains('|')
}

proof fn lemma_mask_words_scan_empty(vocab: Map<Seq<char>, u32>, p: Seq<char>, words: Seq<Seq<char>>)
    requires
        forms_without_bar(vocab),
        forall|i: int| 0 <= i < words.len() ==> #[trigger] words[i] == Seq::<char>::empty()
            || words[i] == mask_word(),
    ensures
        scan_words(vocab, p, words).2.len() == 0,
        scan_words(vocab, p, words).0 == Seq::<char>::empty() || scan_words(vocab, p, words).0
            == mask_word(),
    decreases words.len(),
{
    if words.len() > 0 {
        let init = words.drop_last();
        assert forall|i: int| 0 <= i < init.len() implies #[trigger] init[i] == Seq::<char>::empty()
            || init[i] == mask_word() by {
            assert(init[i] == words[i]);
        }
        lemma_mask_words_scan_empty(vocab, p, init);
        let (last, seen, found) = scan_words(vocab, p, init);
        let w = words.last();
        assert(w == words[words.len() - 1]);
        let bigram = last + seq![' '] + w;
        if w == mask_word() {
            assert(bigram[last.len() as int + 1] == '|');
            assert(bigram.contains('|'));
            assert(titlecase(w) =~= mask_word());
        } else {
            assert(titlecase(w) =~= w);
        }
        if last == mask_word() {
            assert(last[0] == '|');
            assert(last.contains('|'));
        }
        assert(pick(vocab, seen, last, w) is None);
    }
}

/// Masks are no vocabulary forms: when no form contains a `|`, a paragraph
/// whose words are all masks (or empty) gives no detection.
pub proof fn lemma_masked_paragraph_yields_nothing(vocab: Map<Seq<char>, u32>, p: Seq<char>)
    requires
        forms_without_bar(vocab),
        forall|i: int|
            0 <= i < split_by(p, word_breaks()).len() ==> #[trigger] split_by(p, word_breaks())[i]
                == Seq::<char>::empty() || split_by(p, word_breaks())[i] == mask_word(),
    ensures
        scan_paragraph(vocab, p).len() == 0,
{
    let ws = split_by(p, word_breaks());
    lemma_mask_words_scan_empty(vocab, p, ws);
    let (last, seen, found) = scan_words(vocab, p, ws);
    if last == mask_word() {
        assert(last[0] == '|');
        assert(last.contains('|'));
    }
}

/// The surface forms that detections report.
pub open spec fn forms_of(ds: Seq<(Seq<char>, Seq<char>, u32)>) -> Seq<Seq<char>> {
    ds.map_values(|d: (Seq<char>, Seq<char>, u32)| d.1)
}

/// One paragraph gives at most one detection per vocabulary form.
pub proof fn lemma_paragraph_detections_bounded(vocab: Map<Seq<char>, u32>, p: Seq<char>)
    requires
        vocab.dom().finite(),
    ensures
        scan_paragraph(vocab, p).len() <= vocab.dom().len(),
{
    let ws = split_by(p, word_breaks());
    lemma_scan_words_distinct(vocab, p, ws);
    lemma_paragraph_forms_distinct(vocab, p);
    let ds = scan_paragraph(vocab, p);
    let forms = forms_of(ds);
    assert forall|i: int| 0 <= i < ds.len() implies vocab.contains_key(#[trigger] ds[i].1) by {
        let (last, seen, found) = scan_words(vocab, p, ws);
        if i < found.len() {
            assert(ds[i] == found[i]);
        }
    }
    assert(forms.no_duplicates()) by {
        assert forall|i: int, j: int| 0 <= i < forms.len() && 0 <= j < forms.len() && i != j
            implies forms[i] != forms[j] by {
            if i < j {
                assert(ds[i].1 != ds[j].1);
            } else {
                assert(ds[j].1 != ds[i].1);
            }
        }
    }
    forms.unique_seq_to_set();
    assert(forms.to_set().subset_of(vocab.dom())) by {
        assert forall|k: Seq<char>| forms.to_set().contains(k) implies vocab.dom().contains(k) by {
            let i = choose|i: int| 0 <= i < forms.len() && forms[i] == k;
            assert(vocab.contains_key(ds[i].1));
        }
    }
    vstd::set_lib::lemma_len_subset(forms.to_set(), vocab.dom());
}

/// A text gives at most one detection per vocabulary form and paragraph.
pub proof fn lemma_text_detections_bounded(vocab: Map<Seq<char>, u32>, ps: Seq<Seq<char>>)
    requires
        vocab.dom().finite(),
    ensures
        scan_paragraphs(vocab, ps).len() <= ps.len() * vocab.dom().len(),
    decreases ps.len(),
{
    if ps.len() > 0 {
        lemma_text_detections_bounded(vocab, ps.drop_last());
        lemma_paragraph_detections_bounded(vocab, ps.last());
        assert(ps.len() * vocab.dom().len() == (ps.len() - 1) * vocab.dom().len() + vocab.dom().len())
            by (nonlinear_arith);
    }
}

proof fn lemma_seen_reported(vocab: Map<Seq<char>, u32>, p: Seq<char>, words: Seq<Seq<char>>, k: Seq<char>)
    requires
        scan_words(vocab, p, words).1.contains(k),
    ensures
        exists|i: int|
            0 <= i < scan_words(vocab, p, words).2.len() && #[trigger] scan_words(
                vocab,
                p,
                words,
            ).2[i].1 == k,
    decreases words.len(),
{
    if words.len() > 0 {
        let init = words.drop_last();
        let (last, seen, found) = scan_words(vocab, p, init);
        let found2 = scan_words(vocab, p, words).2;
        if seen.contains(k) {
            lemma_seen_reported(vocab, p, init, k);
            let i = choose|i: int| 0 <= i < found.len() && found[i].1 == k;
            assert(found2[i] == found[i]);
        } else {
            assert(found2[found.len() as int].1 == k);
        }
    }
}

proof fn lemma_found_grows(vocab: Map<Seq<char>, u32>, p: Seq<char>, words: Seq<Seq<char>>, j: int)
    requires
        0 <= j <= words.len(),
    ensures
        scan_words(vocab, p, words.take(j)).2.len() <= scan_words(vocab, p, words).2.len(),
        forall|i: int|
            0 <= i < scan_words(vocab, p, words.take(j)).2.len() ==> #[trigger] scan_words(
                vocab,
                p,
                words.take(j),
            ).2[i] == scan_words(vocab, p, words).2[i],
    decreases words.len() - j,
{
    if j == words.len() {
        assert(words.take(j) =~= words);
    } else {
        lemma_found_grows(vocab, p, words, j + 1);
        assert(words.take(j + 1).drop_last() =~= words.take(j));
        let a = scan_words(vocab, p, words.take(j)).2;
        let b = scan_words(vocab, p, words.take(j + 1)).2;
        assert forall|i: int| 0 <= i < a.len() implies #[trigger] a[i] == scan_words(vocab, p, words).2[i] by {
            assert(b[i] == a[i]);
        }
    }
}

/// The two-word form goes first: where a word of at least `MIN_WORD_LENGTH`
/// characters follows a word whose title-cased form, a space and it make a
/// vocabulary form, the paragraph reports that two-word form.
pub proof fn lemma_bigram_reported(vocab: Map<Seq<char>, u32>, p: Seq<char>, j: int)
    requires
        1 <= j < split_by(p, word_breaks()).len(),
        split_by(p, word_breaks())[j].len() >= MIN_WORD_LENGTH,
        vocab.contains_key(
            titlecase(split_by(p, word_breaks())[j - 1]) + seq![' '] + split_by(p, word_breaks())[j],
        ),
    ensures
        exists|i: int|
            0 <= i < scan_paragraph(vocab, p).len() && #[trigger] scan_paragraph(vocab, p)[i].1
                == titlecase(split_by(p, word_breaks())[j - 1]) + seq![' '] + split_by(
                p,
                word_breaks(),
            )[j],
{
    let ws = split_by(p, word_breaks());
    let b = titlecase(ws[j - 1]) + seq![' '] + ws[j];
    let pre = ws.take(j + 1);
    assert(pre.drop_last() =~= ws.take(j));
    assert(ws.take(j).drop_last() =~= ws.take(j - 1));
    assert(ws.take(j).last() == ws[j - 1]);
    assert(pre.last() == ws[j]);
    let (last, seen, found) = scan_words(vocab, p, ws.take(j));
    assert(last == titlecase(ws[j - 1]));
    assert(scan_words(vocab, p, pre).1.contains(b));
    lemma_seen_reported(vocab, p, pre, b);
    let i = choose|i: int| 0 <= i < scan_words(vocab, p, pre).2.len() && scan_words(vocab, p, pre).2[i].1 == b;
    lemma_found_grows(vocab, p, ws, j + 1);
    let all = scan_words(vocab, p, ws).2;
    assert(all[i].1 == b);
    assert(scan_paragraph(vocab, p)[i] == all[i]);
}

/// Whether `s` holds no space.
pub open spec fn space_free(s: Seq<char>) -> bool {
    forall|m: int| 0 <= m < s.len() ==> s[m] != ' '
}

proof fn lemma_words_space_free(s: Seq<char>)
    ensures
        forall|i: int|
            0 <= i < split_by(s, word_breaks()).len() ==> space_free(
                #[trigger] split_by(s, word_breaks())[i],
            ),
    decreases s.len(),
{
    if s.len() > 0 {
        lemma_words_space_free(s.drop_last());
        lemma_split_by_nonempty(s.drop_last(), word_breaks());
        let init = split_by(s.drop_last(), word_breaks());
        let all = split_by(s, word_breaks());
        assert(word_breaks()[0] == ' ');
        assert(word_breaks().contains(' '));
        assert forall|i: int| 0 <= i < all.len() implies space_free(#[trigger] all[i]) by {
            if i < init.len() - 1 {
                assert(all[i] == init[i]);
            } else if i == init.len() - 1 {
                assert(space_free(init[i]));
                if !word_breaks().contains(s.last()) {
                    assert(all[i] == init[i].push(s.last()));
                } else {
                    assert(all[i] == init[i]);
                }
            } else {
                assert(all[i] == Seq::<char>::empty());
            }
        }
    }
}

proof fn lemma_titlecase_space_free(t: Seq<char>)
    requires
        space_free(t),
    ensures
        space_free(titlecase(t)),
{
    if t.len() > 0 {
        let c = t[0];
        assert(ascii_upper(c) != ' ') by {
            if 'a' <= c <= 'z' {
                assert((c as u32) - 32 >= 65);
            }
        }
        assert forall|m: int| 0 <= m < titlecase(t).len() implies titlecase(t)[m] != ' ' by {
            if m > 0 {
                assert(titlecase(t)[m] == t[m]);
            }
        }
    }
}

proof fn lemma_join_prefix(x: Seq<char>, y: Seq<char>, z: Seq<char>, w: Seq<char>)
    requires
        space_free(x),
        space_free(z),
        x + seq![' '] + y == z + seq![' '] + w,
    ensures
        x == z,
{
    let a = x + seq![' '] + y;
    if x.len() < z.len() {
        assert(a[x.len() as int] == ' ');
        assert((z + seq![' '] + w)[x.len() as int] == z[x.len() as int]);
    } else if z.len() < x.len() {
        assert((z + seq![' '] + w)[z.len() as int] == ' ');
        assert(a[z.len() as int] == x[z.len() as int]);
    }
    assert(x =~= a.subrange(0, x.len() as int));
    assert(z =~= (z + seq![' '] + w).subrange(0, z.len() as int));
}

proof fn lemma_first_word_unreported(
    vocab: Map<Seq<char>, u32>,
    p: Seq<char>,
    ws: Seq<Seq<char>>,
    j: int,
    k: int,
)
    requires
        1 <= j < ws.len(),
        0 <= k <= ws.len(),
        ws[j].len() >= MIN_WORD_LENGTH,
        vocab.contains_key(titlecase(ws[j - 1]) + seq![' '] + ws[j]),
        forall|i: int| 0 <= i < ws.len() && i != j - 1 ==> titlecase(#[trigger] ws[i]) != titlecase(ws[j - 1]),
        forall|i: int| 0 <= i < ws.len() ==> space_free(#[trigger] ws[i]),
    ensures
        !scan_words(vocab, p, ws.take(k)).1.contains(titlecase(ws[j - 1])),
        k <= j && titlecase(ws[j - 1]).len() >= MIN_WORD_LENGTH ==> !scan_words(vocab, p, ws.take(k)).1.contains(
            titlecase(ws[j - 1]) + seq![' '] + ws[j],
        ),
        scan_words(vocab, p, ws.take(k)).0 == (if k == 0 {
            Seq::<char>::empty()
        } else {
            titlecase(ws[k - 1])
        }),
    decreases k,
{
    let l = titlecase(ws[j - 1]);
    let b = l + seq![' '] + ws[j];
    lemma_titlecase_space_free(ws[j - 1]);
    assert(b[l.len() as int] == ' ');
    if k == 0 {
        assert(ws.take(0) =~= Seq::<Seq<char>>::empty());
    } else {
        lemma_first_word_unreported(vocab, p, ws, j, k - 1);
        assert(ws.take(k).drop_last() =~= ws.take(k - 1));
        assert(ws.take(k).last() == ws[k - 1]);
        let (last, seen, found) = scan_words(vocab, p, ws.take(k - 1));
        let word = ws[k - 1];
        let big = last + seq![' '] + word;
        assert(space_free(last)) by {
            if k - 1 > 0 {
                lemma_titlecase_space_free(ws[k - 2]);
            }
        }
        assert(big[last.len() as int] == ' ');
        assert(big != l) by {
            if big == l {
                assert(l[last.len() as int] == ' ');
            }
        }
        assert(last != b) by {
            if last == b {
                assert(last[l.len() as int] == ' ');
            }
        }
        if last == l && l.len() >= MIN_WORD_LENGTH {
            assert(k - 1 > 0);
            assert(k - 2 == j - 1);
            assert(big == b);
        }
        if k <= j && l.len() >= MIN_WORD_LENGTH && big == b {
            lemma_join_prefix(last, word, l, ws[j]);
            assert(k - 1 > 0);
            assert(titlecase(ws[k - 2]) == l);
        }
    }
}

/// The two-word form keeps its first word from being reported alone: where
/// a word of at least `MIN_WORD_LENGTH` characters follows a word whose
/// title-cased form, a space and it make a vocabulary form, and no other word
/// of the paragraph has that title-cased form, no detection of the paragraph
/// reports the first word alone.
pub proof fn lemma_bigram_excludes_first_word(vocab: Map<Seq<char>, u32>, p: Seq<char>, j: int)
    requires
        1 <= j < split_by(p, word_breaks()).len(),
        split_by(p, word_breaks())[j].len() >= MIN_WORD_LENGTH,
        vocab.contains_key(
            titlecase(split_by(p, word_breaks())[j - 1]) + seq![' '] + split_by(p, word_breaks())[j],
        ),
        forall|i: int|
            0 <= i < split_by(p, word_breaks()).len() && i != j - 1 ==> titlecase(
                #[trigger] split_by(p, word_breaks())[i],
            ) != titlecase(split_by(p, word_breaks())[j - 1]),
    ensures
        forall|i: int|
            0 <= i < scan_paragraph(vocab, p).len() ==> #[trigger] scan_paragraph(vocab, p)[i].1
                != titlecase(split_by(p, word_breaks())[j - 1]),
{
    let ws = split_by(p, word_breaks());
    let l = titlecase(ws[j - 1]);
    lemma_words_space_free(p);
    lemma_first_word_unreported(vocab, p, ws, j, ws.len() as int);
    assert(ws.take(ws.len() as int) =~= ws);
    lemma_scan_words_distinct(vocab, p, ws);
    let (last, seen, found) = scan_words(vocab, p, ws);
    assert(last == titlecase(ws[ws.len() - 1]));
    assert(last != l);
    assert forall|i: int| 0 <= i < scan_paragraph(vocab, p).len() implies #[trigger] scan_paragraph(
        vocab,
        p,
    )[i].1 != l by {
        if i < found.len() {
            assert(scan_paragraph(vocab, p)[i] == found[i]);
            assert(seen.contains(found[i].1));
        }
    }
}

} // verus!
