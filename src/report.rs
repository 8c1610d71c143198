//! Report lines for detections, and the per-document decisions of the
//! structured (JSON lines) input.
use vstd::prelude::*;
use vstd::string::*;
use crate::matcher::{detections_view, scan_text, search_keys_in_text, Detection};
use crate::text::{decimal, push_char, push_decimal, replace_all, replace_str};
use crate::vocab::Vocabulary;

verus! {

/// A context with each `"` written as `\"`.
pub open spec fn escape_quotes(s: Seq<char>) -> Seq<char> {
    replace_all(s, seq!['"'], seq!['\\', '"'])
}

/// One line of the report:
/// `"surface form",identifier,"context",document id` and a newline, with the
/// double quotes inside the surface form and the context escaped.
pub open spec fn report_line(d: (Seq<char>, Seq<char>, u32), doc_id: Seq<char>) -> Seq<char> {
    seq!['"'] + escape_quotes(d.1) + seq!['"', ','] + decimal(d.2 as nat) + seq![',', '"'] + escape_quotes(d.0)
        + seq!['"', ','] + doc_id + seq!['\n']
}

/// The report lines of the given detections, in order.
pub open spec fn report(ds: Seq<(Seq<char>, Seq<char>, u32)>, doc_id: Seq<char>) -> Seq<char>
    decreases ds.len(),
{
    if ds.len() == 0 {
        Seq::empty()
    } else {
        report(ds.drop_last(), doc_id) + report_line(ds.last(), doc_id)
    }
}

/// The report lines of `results`, each naming the document `paper_id`.
pub fn generate_report(results: &Vec<Detection>, paper_id: &str) -> (r: String)
    ensures
        r@ == report(detections_view(results@), paper_id@),
{
    let mut out = String::new();
    let mut i: usize = 0;
    assert(detections_view(results@).take(0) =~= Seq::<(Seq<char>, Seq<char>, u32)>::empty());
    while i < results.len()
        invariant
            i <= results@.len(),
            out@ == report(detections_view(results@).take(i as int), paper_id@),
        decreases results@.len() - i,
    {
        let ghost ds = detections_view(results@);
        assert(ds.take(i + 1).drop_last() =~= ds.take(i as int));
        let (context, word, cid) = (&results[i].0, &results[i].1, results[i].2);
        assert(ds.take(i + 1).last() == (context@, word@, cid));
        let ghost before = out@;
        proof {
            reveal_strlit("\"");
            reveal_strlit("\\\"");
        }
        assert("\""@ =~= seq!['"']);
        assert("\\\""@ =~= seq!['\\', '"']);
        push_char(&mut out, '"');
        let escaped_word = replace_str(word.as_str(), "\"", "\\\"");
        out.append(escaped_word.as_str());
        push_char(&mut out, '"');
        push_char(&mut out, ',');
        push_decimal(&mut out, cid as u64);
        push_char(&mut out, ',');
        push_char(&mut out, '"');
        let escaped = replace_str(context.as_str(), "\"", "\\\"");
        out.append(escaped.as_str());
        push_char(&mut out, '"');
        push_char(&mut out, ',');
        out.append(paper_id);
        push_char(&mut out, '\n');
        assert(out@ =~= before + report_line((context@, word@, cid), paper_id@));
        i = i + 1;
    }
    assert(detections_view(results@).take(i as int) =~= detections_view(results@));
    out
}

/// The report of a plain-text document, which has no document id.
pub fn report_plain_text(vocab: &Vocabulary, text: &str) -> (r: String)
    requires
        vocab.wf(),
    ensures
        r@ == report(scan_text(vocab@, text@), Seq::empty()),
{
    let results = search_keys_in_text(vocab, text);
    proof {
        reveal_strlit("");
    }
    assert(""@ =~= Seq::<char>::empty());
    generate_report(&results, "")
}

/// The kinds of input file, told apart by extension.
#[derive(Debug, Clone, Copy, PartialEq, Eq, Structural)]
pub enum InputKind {
    /// `txt`: the whole file is one document.
    PlainText,
    /// `gz`: gzip-compressed JSON lines, one document per line.
    CompressedJsonLines,
}

pub open spec fn input_kind_of(ext: Seq<char>) -> Option<InputKind> {
    if ext == seq!['t', 'x', 't'] {
        Some(InputKind::PlainText)
    } else if ext == seq!['g', 'z'] {
        Some(InputKind::CompressedJsonLines)
    } else {
        None
    }
}

/// The kind of input that a file extension names; `None` for an unsupported one.
pub fn input_kind(ext: &str) -> (r: Option<InputKind>)
    ensures
        r == input_kind_of(ext@),
{
    let e = String::from_str(ext);
    let txt = String::from_str("txt");
    let gz = String::from_str("gz");
    proof {
        reveal_strlit("txt");
        reveal_strlit("gz");
    }
    assert("txt"@ =~= seq!['t', 'x', 't']);
    assert("gz"@ =~= seq!['g', 'z']);
    if e == txt {
        Some(InputKind::PlainText)
    } else if e == gz {
        Some(InputKind::CompressedJsonLines)
    } else {
        None
    }
}

/// Whether a line is a JSON document.
pub uninterp spec fn json_valid(line: Seq<char>) -> bool;

/// The string at `document[outer][inner]` of a JSON document, if there is one.
pub uninterp spec fn json_str_at(line: Seq<char>, outer: Seq<char>, inner: Seq<char>) -> Option<Seq<char>>;

/// The unsigned integer at `document[field]` of a JSON document, if there is one.
pub uninterp spec fn json_u64_at(line: Seq<char>, field: Seq<char>) -> Option<u64>;

/// The two fields that a document of the structured input is read for.
pub struct JsonFields {
    pub text: Option<String>,
    pub id: Option<u64>,
}

pub open spec fn opt_view(o: Option<String>) -> Option<Seq<char>> {
    match o {
        Some(s) => Some(s@),
        None => None,
    }
}

/// Relies on `serde_json::from_str` into a `serde_json::Value`, on indexing a
/// `Value` by key (`Null` where the key is missing), and on `Value::as_str`
/// and `Value::as_u64`: each result depends on the line and the keys alone.
/// On a parse error, its message.
#[verifier::external_body]
fn read_json_fields(line: &str, outer: &str, inner: &str, id_field: &str) -> (r: Result<
    JsonFields,
    String,
>)
    ensures
        r is Ok == json_valid(line@),
        r matches Ok(f) ==> opt_view(f.text) == json_str_at(line@, outer@, inner@) && f.id
            == json_u64_at(line@, id_field@),
{
    match serde_json::from_str::<serde_json::Value>(line) {
        Ok(v) => Ok(
            JsonFields {
                text: v[outer][inner].as_str().map(|t| t.to_string()),
                id: v[id_field].as_u64(),
            },
        ),
        Err(e) => Err(e.to_string()),
    }
}

/// What becomes of one line of the structured input.
pub enum LineOutcome {
    /// An empty line: skipped.
    Blank,
    /// Not JSON: skipped, with the parser's message.
    Malformed(String),
    /// No text at the configured property: skipped.
    NoText,
    /// No document id: the run cannot go on.
    MissingId,
    /// The report lines of the document.
    Report(String),
}

/// The outcome for a document whose fields were read: skipped without text,
/// fatal without id, else its report, each line naming the id.
pub open spec fn document_outcome_spec(
    vocab: Map<Seq<char>, u32>,
    text: Option<Seq<char>>,
    id: Option<u64>,
    r: LineOutcome,
) -> bool {
    match (text, id) {
        (None, _) => r is NoText,
        (Some(_), None) => r is MissingId,
        (Some(t), Some(n)) => r matches LineOutcome::Report(s) && s@ == report(
            scan_text(vocab, t),
            decimal(n as nat),
        ),
    }
}

/// Decides what a document with the given fields gives.
pub fn document_outcome(vocab: &Vocabulary, text: Option<String>, id: Option<u64>) -> (r: LineOutcome)
    requires
        vocab.wf(),
    ensures
        document_outcome_spec(vocab@, opt_view(text), id, r),
{
    match text {
        None => LineOutcome::NoText,
        Some(t) => match id {
            None => LineOutcome::MissingId,
            Some(n) => {
                let results = search_keys_in_text(vocab, t.as_str());
                let mut doc_id = String::new();
                push_decimal(&mut doc_id, n);
                assert(doc_id@ =~= decimal(n as nat));
                LineOutcome::Report(generate_report(&results, doc_id.as_str()))
            },
        },
    }
}

/// The key under which a document holds its properties.
pub const CONTENT_KEY: &'static str = "content";

/// The key under which a document holds its id.
pub const ID_KEY: &'static str = "corpusid";

/// What a line of the structured input gives, with its text read from
/// `document["content"][property]` and its id from `document["corpusid"]`.
pub fn process_json_line(vocab: &Vocabulary, line: &str, property: &str) -> (r: LineOutcome)
    requires
        vocab.wf(),
    ensures
        line@.len() == 0 ==> r is Blank,
        line@.len() > 0 && !json_valid(line@) ==> r is Malformed,
        line@.len() > 0 && json_valid(line@) ==> document_outcome_spec(
            vocab@,
            json_str_at(line@, CONTENT_KEY@, property@),
            json_u64_at(line@, ID_KEY@),
            r,
        ),
{
    if line.is_empty() {
        return LineOutcome::Blank;
    }
    match read_json_fields(line, CONTENT_KEY, property, ID_KEY) {
        Err(message) => LineOutcome::Malformed(message),
        Ok(fields) => document_outcome(vocab, fields.text, fields.id),
    }
}

/// At most this many documents of one structured input are reported.
pub const MAX_DOCUMENTS: usize = 1000;

/// Reads one structured input line by line, counting reported documents.
pub struct StructuredReader {
    reported: usize,
}

impl StructuredReader {
    pub closed spec fn reported_spec(&self) -> nat {
        self.reported as nat
    }

    pub fn new() -> (r: StructuredReader)
        ensures
            r.reported_spec() == 0,
    {
        StructuredReader { reported: 0 }
    }

    /// The number of documents reported so far.
    pub fn reported(&self) -> (r: usize)
        ensures
            r == self.reported_spec(),
    {
        self.reported
    }

    /// Whether no further line is to be read.
    pub fn is_full(&self) -> (r: bool)
        ensures
            r == (self.reported_spec() >= MAX_DOCUMENTS),
    {
        self.reported >= MAX_DOCUMENTS
    }

    /// Handles one line; a reported document counts towards the cap.
    pub fn feed(&mut self, vocab: &Vocabulary, line: &str, property: &str) -> (r: LineOutcome)
        requires
            vocab.wf(),
            old(self).reported_spec() < MAX_DOCUMENTS,
        ensures
            final(self).reported_spec() == old(self).reported_spec() + if r is Report {
                1nat
            } else {
                0nat
            },
            line@.len() == 0 ==> r is Blank,
            line@.len() > 0 && !json_valid(line@) ==> r is Malformed,
            line@.len() > 0 && json_valid(line@) ==> document_outcome_spec(
                vocab@,
                json_str_at(line@, CONTENT_KEY@, property@),
                json_u64_at(line@, ID_KEY@),
                r,
            ),
    {
        let r = process_json_line(vocab, line, property);
        if let LineOutcome::Report(_) = &r {
            self.reported = self.reported + 1;
        }
        r
    }
}

} // verus!
