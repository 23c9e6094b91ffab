//! Turning raw text into a document of terms, and a document back into
//! text.
//!
//! Raw text comes as lines. Its words are what stands between white space
//! and dashes. A word gives a term when something is left of it once it is
//! put in lower case and stripped of all that is not a letter, and it is not
//! a stop word. A word that ends in a full stop, a question mark or an
//! exclamation mark ends its sentence, and a line without words ends its
//! paragraph.

use crate::bytes::{chars_of, string_of};
use crate::graph::IndexMap;
use vstd::prelude::*;
use vstd::string::StringExecFns;
use vstd::utf8::encode_utf8;

verus! {

/// Whether a character is white space, as `char::is_whitespace` of std has
/// it.
pub uninterp spec fn is_whitespace(c: char) -> bool;

/// Whether a character is a letter, as `char::is_alphabetic` of std has it.
pub uninterp spec fn is_alphabetic(c: char) -> bool;

/// A text in lower case, as `str::to_lowercase` of std gives it.
pub uninterp spec fn lowercase(text: Seq<char>) -> Seq<char>;

/// `char::is_whitespace` of std: whether the character has the Unicode
/// property White_Space, which is what `is_whitespace` names.
#[verifier::external_body]
fn char_is_whitespace(c: char) -> (b: bool)
    ensures
        b == is_whitespace(c),
{
    c.is_whitespace()
}

/// `char::is_alphabetic` of std: whether the character has the Unicode
/// property Alphabetic, which is what `is_alphabetic` names.
#[verifier::external_body]
fn char_is_alphabetic(c: char) -> (b: bool)
    ensures
        b == is_alphabetic(c),
{
    c.is_alphabetic()
}

/// `str::to_lowercase` of std: the lower case equivalent of the text as a
/// new string, which is what `lowercase` names.
#[verifier::external_body]
fn to_lowercase(text: &str) -> (lower: String)
    ensures
        lower@ == lowercase(text@),
{
    text.to_lowercase()
}

/// Whether a character separates words: white space, a hyphen or a dash.
pub open spec fn separates(c: char) -> bool {
    is_whitespace(c) || c == '-' || c == '\u{2014}'
}

/// Whether a character separates words.
pub fn is_separator(c: char) -> (b: bool)
    ensures
        b == separates(c),
{
    char_is_whitespace(c) || c == '-' || c == '\u{2014}'
}

/// The runs of the first `n` characters of a text that a break at `n`
/// would end: the longest runs of characters that are not breaks, in their
/// order, where `breaks` tells of each character whether it is one.
pub open spec fn runs_upto(text: Seq<char>, breaks: Seq<bool>, n: int) -> Seq<Seq<char>>
    decreases n,
{
    if n <= 0 {
        Seq::empty()
    } else {
        let before = runs_upto(text, breaks, n - 1);
        if breaks[n - 1] {
            before
        } else if n >= 2 && !breaks[n - 2] && before.len() > 0 {
            before.drop_last().push(before.last().push(text[n - 1]))
        } else {
            before.push(seq![text[n - 1]])
        }
    }
}

/// The runs of a text between its breaks.
pub open spec fn runs(text: Seq<char>, breaks: Seq<bool>) -> Seq<Seq<char>> {
    runs_upto(text, breaks, text.len() as int)
}

/// The words of a line: its longest runs of characters that do not separate
/// words, in their order.
pub open spec fn words_of(line: Seq<char>) -> Seq<Seq<char>> {
    runs(line, Seq::new(line.len(), |i: int| separates(line[i])))
}

/// The runs of a text between its breaks, where `breaks` tells of each
/// character whether it is one.
pub fn group_runs(chars: &[char], breaks: &[bool]) -> (words: Vec<String>)
    requires
        chars@.len() == breaks@.len(),
    ensures
        words@.len() == runs(chars@, breaks@).len(),
        forall|k: int| 0 <= k < words@.len() ==> (#[trigger] words@[k])@ == runs(chars@, breaks@)[k],
{
    let ghost text = chars@;
    let ghost marks = breaks@;
    let mut words: Vec<String> = Vec::new();
    // The run that the characters passed last belong to, if they do.
    let mut current: Vec<char> = Vec::new();
    let mut i: usize = 0;
    while i < chars.len()
        invariant
            i <= text.len(),
            text == chars@,
            marks == breaks@,
            text.len() == marks.len(),
            current@.len() > 0 <==> (i > 0 && !marks[i - 1]),
            current@.len() > 0 ==> {
                &&& words@.len() + 1 == runs_upto(text, marks, i as int).len()
                &&& runs_upto(text, marks, i as int).last() == current@
            },
            current@.len() == 0 ==> words@.len() == runs_upto(text, marks, i as int).len(),
            forall|k: int|
                0 <= k < words@.len() ==> (#[trigger] words@[k])@ == runs_upto(
                    text,
                    marks,
                    i as int,
                )[k],
        decreases text.len() - i,
    {
        if breaks[i] {
            if current.len() > 0 {
                let word = string_of(&current);
                words.push(word);
                current = Vec::new();
            }
        } else {
            let ghost before = current@;
            current.push(chars[i]);
            proof {
                if before.len() == 0 {
                    assert(current@ =~= seq![text[i as int]]);
                }
            }
        }
        i += 1;
    }
    if current.len() > 0 {
        let word = string_of(&current);
        words.push(word);
    }
    words
}

/// The words of a line.
pub fn split_words(line: &str) -> (words: Vec<String>)
    ensures
        words@.len() == words_of(line@).len(),
        forall|k: int| 0 <= k < words@.len() ==> (#[trigger] words@[k])@ == words_of(line@)[k],
{
    let chars = chars_of(line);
    let mut breaks: Vec<bool> = Vec::new();
    let mut i: usize = 0;
    while i < chars.len()
        invariant
            i <= chars@.len(),
            breaks@.len() == i,
            forall|k: int| 0 <= k < i ==> #[trigger] breaks@[k] == separates(chars@[k]),
        decreases chars@.len() - i,
    {
        breaks.push(is_separator(chars[i]));
        i += 1;
    }
    proof {
        assert(breaks@ =~= Seq::new(line@.len(), |i: int| separates(line@[i])));
    }
    group_runs(chars.as_slice(), breaks.as_slice())
}

/// Whether a word ends its sentence.
pub open spec fn ends_sentence(word: Seq<char>) -> bool {
    word.len() > 0 && (word.last() == '.' || word.last() == '?' || word.last() == '!')
}

/// The first `n` characters of a text that are marked, where `marks` tells
/// of each character whether it is.
pub open spec fn marked_upto(text: Seq<char>, marks: Seq<bool>, n: int) -> Seq<char>
    decreases n,
{
    if n <= 0 {
        Seq::empty()
    } else if marks[n - 1] {
        marked_upto(text, marks, n - 1).push(text[n - 1])
    } else {
        marked_upto(text, marks, n - 1)
    }
}

/// The letters of a text.
pub open spec fn letters(text: Seq<char>) -> Seq<char> {
    marked_upto(text, Seq::new(text.len(), |i: int| is_alphabetic(text[i])), text.len() as int)
}

/// What is left of a word as a term: nothing where it has no letters or is
/// one of the stop words.
pub open spec fn term_from(text: Seq<char>, stopwords: Seq<Seq<u8>>) -> Option<Seq<char>> {
    if text.len() == 0 || stopwords.contains(encode_utf8(text)) {
        None
    } else {
        Some(text)
    }
}

/// The term that a word gives: its letters in lower case, unless there are
/// none or they make up one of the stop words.
pub open spec fn term_of(word: Seq<char>, stopwords: Seq<Seq<u8>>) -> Option<Seq<char>> {
    term_from(letters(lowercase(word)), stopwords)
}

/// The characters of a text that are marked, where `marks` tells of each
/// character whether it is.
pub fn keep_marked(chars: &[char], marks: &[bool]) -> (kept: Vec<char>)
    requires
        chars@.len() == marks@.len(),
    ensures
        kept@ == marked_upto(chars@, marks@, chars@.len() as int),
{
    let mut kept: Vec<char> = Vec::new();
    let mut i: usize = 0;
    while i < chars.len()
        invariant
            i <= chars@.len(),
            chars@.len() == marks@.len(),
            kept@ == marked_upto(chars@, marks@, i as int),
        decreases chars@.len() - i,
    {
        if marks[i] {
            kept.push(chars[i]);
        }
        i += 1;
    }
    kept
}

/// The letters of a text.
fn keep_letters(text: &str) -> (kept: String)
    ensures
        kept@ == letters(text@),
{
    let chars = chars_of(text);
    let mut marks: Vec<bool> = Vec::new();
    let mut i: usize = 0;
    while i < chars.len()
        invariant
            i <= chars@.len(),
            marks@.len() == i,
            forall|k: int| 0 <= k < i ==> #[trigger] marks@[k] == is_alphabetic(chars@[k]),
        decreases chars@.len() - i,
    {
        marks.push(char_is_alphabetic(chars[i]));
        i += 1;
    }
    proof {
        assert(marks@ =~= Seq::new(text@.len(), |i: int| is_alphabetic(text@[i])));
    }
    let kept = keep_marked(chars.as_slice(), marks.as_slice());
    string_of(&kept)
}

/// Whether a word ends its sentence: in a full stop, a question mark or an
/// exclamation mark.
pub fn word_ends_sentence(chars: &[char]) -> (end: bool)
    ensures
        end == ends_sentence(chars@),
{
    if chars.len() > 0 {
        let last = chars[chars.len() - 1];
        last == '.' || last == '?' || last == '!'
    } else {
        false
    }
}

/// What is left of a word as a term, if it gives one.
pub fn make_term(text: String, stopwords: &IndexMap) -> (term: Option<String>)
    requires
        stopwords.wf(),
    ensures
        match term {
            Some(t) => term_from(text@, stopwords@) == Some(t@),
            None => term_from(text@, stopwords@) is None,
        },
{
    if text.as_str().is_empty() || stopwords.get(text.as_str()).is_some() {
        None
    } else {
        Some(text)
    }
}

/// The term that a word gives, if it gives one, and whether the word ends
/// its sentence.
pub fn process_word(word: &str, stopwords: &IndexMap) -> (r: (Option<String>, bool))
    requires
        stopwords.wf(),
    ensures
        r.1 == ends_sentence(word@),
        match r.0 {
            Some(term) => term_of(word@, stopwords@) == Some(term@),
            None => term_of(word@, stopwords@) is None,
        },
{
    let chars = chars_of(word);
    let end = word_ends_sentence(chars.as_slice());
    let lower = to_lowercase(word);
    let term = make_term(keep_letters(lower.as_str()), stopwords);
    (term, end)
}

/// The text of a sentence of terms.
pub open spec fn sentence_text(sentence: Vec<String>) -> Seq<Seq<char>> {
    Seq::new(sentence@.len(), |i: int| sentence@[i]@)
}

/// The text of a paragraph of sentences.
pub open spec fn paragraph_text(paragraph: Vec<Vec<String>>) -> Seq<Seq<Seq<char>>> {
    Seq::new(paragraph@.len(), |i: int| sentence_text(paragraph@[i]))
}

/// The text of a document of paragraphs.
pub open spec fn document_text(document: Vec<Vec<Vec<String>>>) -> Seq<Seq<Seq<Seq<char>>>> {
    Seq::new(document@.len(), |i: int| paragraph_text(document@[i]))
}

/// Whether a document under construction has a paragraph, and each of its
/// paragraphs a sentence: the last sentence of the last paragraph is the one
/// that terms are added to.
pub open spec fn open_ended(doc: Seq<Seq<Seq<Seq<char>>>>) -> bool {
    doc.len() > 0 && forall|p: int| 0 <= p < doc.len() ==> (#[trigger] doc[p]).len() > 0
}

/// The document with a term added to its last sentence.
pub open spec fn with_term(doc: Seq<Seq<Seq<Seq<char>>>>, term: Seq<char>) -> Seq<
    Seq<Seq<Seq<char>>>,
> {
    doc.drop_last().push(doc.last().drop_last().push(doc.last().last().push(term)))
}

/// The document with a new sentence begun in its last paragraph.
pub open spec fn with_sentence(doc: Seq<Seq<Seq<Seq<char>>>>) -> Seq<Seq<Seq<Seq<char>>>> {
    doc.drop_last().push(doc.last().push(Seq::empty()))
}

/// The document with a new paragraph begun.
pub open spec fn with_paragraph(doc: Seq<Seq<Seq<Seq<char>>>>) -> Seq<Seq<Seq<Seq<char>>>> {
    doc.push(seq![Seq::empty()])
}

/// The document after a line without words: a new paragraph begins, unless
/// the last one is still without a term, as one sentence without terms.
pub open spec fn after_blank(doc: Seq<Seq<Seq<Seq<char>>>>) -> Seq<Seq<Seq<Seq<char>>>> {
    if doc.last().len() == 1 && doc.last().last().len() == 0 {
        doc
    } else {
        with_paragraph(doc)
    }
}

/// The document after a word: its term, if it gives one, joins the last
/// sentence, and where the word ends its sentence and the sentence has a
/// term, a new sentence begins.
pub open spec fn after_word(
    doc: Seq<Seq<Seq<Seq<char>>>>,
    term: Option<Seq<char>>,
    end: bool,
) -> Seq<Seq<Seq<Seq<char>>>> {
    let added = match term {
        Some(t) => with_term(doc, t),
        None => doc,
    };
    if end && added.last().last().len() > 0 {
        with_sentence(added)
    } else {
        added
    }
}

/// The document after the words of a line, one after the other, each given
/// as the term it gives, if any, and whether it ends its sentence.
pub open spec fn after_words(
    doc: Seq<Seq<Seq<Seq<char>>>>,
    words: Seq<(Option<Seq<char>>, bool)>,
) -> Seq<Seq<Seq<Seq<char>>>>
    decreases words.len(),
{
    if words.len() == 0 {
        doc
    } else {
        after_word(after_words(doc, words.drop_last()), words.last().0, words.last().1)
    }
}

/// The document after a line.
pub open spec fn after_line(
    doc: Seq<Seq<Seq<Seq<char>>>>,
    words: Seq<(Option<Seq<char>>, bool)>,
) -> Seq<Seq<Seq<Seq<char>>>> {
    if words.len() == 0 {
        after_blank(doc)
    } else {
        after_words(doc, words)
    }
}

/// The document after the lines, one after the other, begun as one paragraph
/// of one sentence without terms.
pub open spec fn after_lines(lines: Seq<Seq<(Option<Seq<char>>, bool)>>) -> Seq<
    Seq<Seq<Seq<char>>>,
>
    decreases lines.len(),
{
    if lines.len() == 0 {
        seq![seq![Seq::empty()]]
    } else {
        after_line(after_lines(lines.drop_last()), lines.last())
    }
}

/// The document without the sentence it was left with if that has no term,
/// and then without its last paragraph if that has no sentence.
pub open spec fn trimmed(doc: Seq<Seq<Seq<Seq<char>>>>) -> Seq<Seq<Seq<Seq<char>>>> {
    let cut = if doc.last().last().len() == 0 {
        doc.drop_last().push(doc.last().drop_last())
    } else {
        doc
    };
    if cut.last().len() == 0 {
        cut.drop_last()
    } else {
        cut
    }
}

/// The document that the words of lines make up.
pub open spec fn assembled(lines: Seq<Seq<(Option<Seq<char>>, bool)>>) -> Seq<
    Seq<Seq<Seq<char>>>,
> {
    trimmed(after_lines(lines))
}

/// The words of a line, each as the term it gives, if any, and whether it
/// ends its sentence.
pub open spec fn tokens_of(line: Seq<char>, stopwords: Seq<Seq<u8>>) -> Seq<
    (Option<Seq<char>>, bool),
> {
    Seq::new(
        words_of(line).len(),
        |k: int| (term_of(words_of(line)[k], stopwords), ends_sentence(words_of(line)[k])),
    )
}

/// The document that lines of raw text make up.
pub open spec fn preprocessed(lines: Seq<Seq<char>>, stopwords: Seq<Seq<u8>>) -> Seq<
    Seq<Seq<Seq<char>>>,
> {
    assembled(Seq::new(lines.len(), |i: int| tokens_of(lines[i], stopwords)))
}

/// The words of a line as values of a specification.
pub open spec fn token_text(words: Vec<(Option<String>, bool)>) -> Seq<(Option<Seq<char>>, bool)> {
    Seq::new(
        words@.len(),
        |k: int|
            (
                match words@[k].0 {
                    Some(term) => Some(term@),
                    None => None,
                },
                words@[k].1,
            ),
    )
}

/// Adds a term to the last sentence of a document.
fn push_term(doc: &mut Vec<Vec<Vec<String>>>, term: String)
    requires
        open_ended(document_text(*old(doc))),
    ensures
        document_text(*final(doc)) == with_term(document_text(*old(doc)), term@),
        open_ended(document_text(*final(doc))),
{
    let ghost before = document_text(*doc);
    proof {
        assert(before.last().len() > 0);
    }
    let mut paragraph = doc.pop().unwrap();
    let ghost rest = document_text(*doc);
    let ghost par = paragraph_text(paragraph);
    let mut sentence = paragraph.pop().unwrap();
    let ghost par_rest = paragraph_text(paragraph);
    let ghost sen = sentence_text(sentence);
    sentence.push(term);
    proof {
        assert(sentence_text(sentence) =~= sen.push(term@));
    }
    paragraph.push(sentence);
    proof {
        assert(par_rest =~= par.drop_last());
        assert(sen == par.last());
        assert(paragraph_text(paragraph) =~= par_rest.push(sen.push(term@)));
    }
    doc.push(paragraph);
    proof {
        assert(rest =~= before.drop_last());
        assert(par == before.last());
        assert(document_text(*doc) =~= rest.push(par_rest.push(sen.push(term@))));
        let after = document_text(*doc);
        assert forall|p: int| 0 <= p < after.len() implies (#[trigger] after[p]).len() > 0 by {
            if p < rest.len() {
                assert(after[p] == before[p]);
            }
        }
    }
}

/// Begins a new sentence in the last paragraph of a document.
fn push_sentence(doc: &mut Vec<Vec<Vec<String>>>)
    requires
        open_ended(document_text(*old(doc))),
    ensures
        document_text(*final(doc)) == with_sentence(document_text(*old(doc))),
        open_ended(document_text(*final(doc))),
{
    let ghost before = document_text(*doc);
    let mut paragraph = doc.pop().unwrap();
    let ghost rest = document_text(*doc);
    let ghost par = paragraph_text(paragraph);
    paragraph.push(Vec::new());
    proof {
        assert(sentence_text(paragraph@.last()) =~= Seq::<Seq<char>>::empty());
        assert(paragraph_text(paragraph) =~= par.push(Seq::empty()));
    }
    doc.push(paragraph);
    proof {
        assert(rest =~= before.drop_last());
        assert(par == before.last());
        assert(document_text(*doc) =~= rest.push(par.push(Seq::empty())));
        let after = document_text(*doc);
        assert forall|p: int| 0 <= p < after.len() implies (#[trigger] after[p]).len() > 0 by {
            if p < rest.len() {
                assert(after[p] == before[p]);
            }
        }
    }
}

/// Begins a new paragraph in a document.
fn push_paragraph(doc: &mut Vec<Vec<Vec<String>>>)
    requires
        open_ended(document_text(*old(doc))),
    ensures
        document_text(*final(doc)) == with_paragraph(document_text(*old(doc))),
        open_ended(document_text(*final(doc))),
{
    let ghost before = document_text(*doc);
    let mut paragraph: Vec<Vec<String>> = Vec::new();
    paragraph.push(Vec::new());
    proof {
        assert(sentence_text(paragraph@[0]) =~= Seq::<Seq<char>>::empty());
        assert(paragraph_text(paragraph) =~= seq![Seq::<Seq<char>>::empty()]);
    }
    doc.push(paragraph);
    proof {
        assert(document_text(*doc) =~= before.push(seq![Seq::empty()]));
        let after = document_text(*doc);
        assert forall|p: int| 0 <= p < after.len() implies (#[trigger] after[p]).len() > 0 by {
            if p < before.len() {
                assert(after[p] == before[p]);
            }
        }
    }
}

/// The numbers of sentences in the last paragraph of a document and of terms
/// in the last of them.
fn last_sizes(doc: &Vec<Vec<Vec<String>>>) -> (sizes: (usize, usize))
    requires
        open_ended(document_text(*doc)),
    ensures
        sizes.0 == document_text(*doc).last().len(),
        sizes.1 == document_text(*doc).last().last().len(),
{
    let ghost text = document_text(*doc);
    proof {
        assert(text.last().len() > 0);
    }
    let paragraph = &doc[doc.len() - 1];
    let sentence = &paragraph[paragraph.len() - 1];
    (paragraph.len(), sentence.len())
}

/// Puts the words of lines together into a document: paragraphs of
/// sentences of terms. Each word is given as the term it gives, if any, and
/// whether it ends its sentence.
pub fn assemble(lines: &Vec<Vec<(Option<String>, bool)>>) -> (doc: Vec<Vec<Vec<String>>>)
    ensures
        document_text(doc) == assembled(Seq::new(lines@.len(), |i: int| token_text(lines@[i]))),
{
    let ghost given = Seq::new(lines@.len(), |i: int| token_text(lines@[i]));
    let mut doc: Vec<Vec<Vec<String>>> = Vec::new();
    let mut first: Vec<Vec<String>> = Vec::new();
    first.push(Vec::new());
    doc.push(first);
    proof {
        assert(sentence_text(doc@[0]@[0]) =~= Seq::<Seq<char>>::empty());
        assert(paragraph_text(doc@[0]) =~= seq![Seq::<Seq<char>>::empty()]);
        assert(document_text(doc) =~= seq![seq![Seq::<Seq<char>>::empty()]]);
        assert(given.take(0) =~= Seq::<Seq<(Option<Seq<char>>, bool)>>::empty());
    }
    let mut n: usize = 0;
    while n < lines.len()
        invariant
            n <= lines@.len(),
            given == Seq::new(lines@.len(), |i: int| token_text(lines@[i])),
            open_ended(document_text(doc)),
            document_text(doc) == after_lines(given.take(n as int)),
        decreases lines@.len() - n,
    {
        let ghost before = document_text(doc);
        let words = &lines[n];
        let ghost found = token_text(*words);
        proof {
            assert(given.take(n + 1).drop_last() =~= given.take(n as int));
            assert(given.take(n + 1).last() == found);
        }
        if words.len() == 0 {
            // A line without words begins a new paragraph, unless the
            // current one is still without a term.
            let (sentences, terms) = last_sizes(&doc);
            if !(sentences == 1 && terms == 0) {
                push_paragraph(&mut doc);
            }
        }
        let mut w: usize = 0;
        proof {
            assert(found.take(0) =~= Seq::<(Option<Seq<char>>, bool)>::empty());
        }
        while w < words.len()
            invariant
                w <= words@.len(),
                found == token_text(*words),
                open_ended(document_text(doc)),
                found.len() > 0 ==> document_text(doc) == after_words(before, found.take(w as int)),
                found.len() == 0 ==> document_text(doc) == after_blank(before),
            decreases words@.len() - w,
        {
            proof {
                assert(found.take(w + 1).drop_last() =~= found.take(w as int));
                assert(found.take(w + 1).last() == found[w as int]);
            }
            let end = words[w].1;
            match &words[w].0 {
                Some(term) => {
                    push_term(&mut doc, term.clone());
                },
                None => {},
            }
            if end {
                // A sentence ends only once it has a term.
                let (_, terms) = last_sizes(&doc);
                if terms != 0 {
                    push_sentence(&mut doc);
                }
            }
            w += 1;
        }
        proof {
            assert(found.take(w as int) =~= found);
        }
        n += 1;
    }
    proof {
        assert(given.take(n as int) =~= given);
    }
    // The document may have been left with a sentence without terms, and
    // then with a paragraph without sentences.
    let ghost whole = document_text(doc);
    let (_, terms) = last_sizes(&doc);
    if terms == 0 {
        let mut paragraph = doc.pop().unwrap();
        let ghost rest = document_text(doc);
        let ghost par = paragraph_text(paragraph);
        paragraph.pop();
        proof {
            assert(paragraph_text(paragraph) =~= par.drop_last());
        }
        doc.push(paragraph);
        proof {
            assert(rest =~= whole.drop_last());
            assert(par == whole.last());
            assert(document_text(doc) =~= whole.drop_last().push(whole.last().drop_last()));
        }
    }
    let ghost cut = document_text(doc);
    if doc[doc.len() - 1].len() == 0 {
        doc.pop();
        proof {
            assert(document_text(doc) =~= cut.drop_last());
        }
    }
    doc
}

/// Turns lines of raw text into a document of terms: paragraphs of
/// sentences of terms.
pub fn preprocess(lines: &[String], stopwords: &IndexMap) -> (doc: Vec<Vec<Vec<String>>>)
    requires
        stopwords.wf(),
    ensures
        document_text(doc) == preprocessed(
            Seq::new(lines@.len(), |i: int| lines@[i]@),
            stopwords@,
        ),
{
    let mut tokens: Vec<Vec<(Option<String>, bool)>> = Vec::new();
    let mut n: usize = 0;
    while n < lines.len()
        invariant
            n <= lines@.len(),
            stopwords.wf(),
            tokens@.len() == n,
            forall|i: int|
                0 <= i < n ==> token_text(#[trigger] tokens@[i]) == tokens_of(
                    lines@[i]@,
                    stopwords@,
                ),
        decreases lines@.len() - n,
    {
        let words = split_words(lines[n].as_str());
        let ghost found = words_of(lines@[n as int]@);
        let mut line: Vec<(Option<String>, bool)> = Vec::new();
        let mut w: usize = 0;
        while w < words.len()
            invariant
                w <= words@.len(),
                stopwords.wf(),
                words@.len() == found.len(),
                forall|k: int| 0 <= k < words@.len() ==> (#[trigger] words@[k])@ == found[k],
                line@.len() == w,
                forall|k: int|
                    0 <= k < w ==> #[trigger] token_text(line)[k] == (
                        term_of(found[k], stopwords@),
                        ends_sentence(found[k]),
                    ),
            decreases words@.len() - w,
        {
            let token = process_word(words[w].as_str(), stopwords);
            let ghost before = token_text(line);
            line.push(token);
            proof {
                assert forall|k: int| 0 <= k < w + 1 implies #[trigger] token_text(line)[k] == (
                    term_of(found[k], stopwords@),
                    ends_sentence(found[k]),
                ) by {
                    if k < w {
                        assert(token_text(line)[k] == before[k]);
                    }
                }
            }
            w += 1;
        }
        proof {
            assert(token_text(line) =~= tokens_of(lines@[n as int]@, stopwords@));
        }
        tokens.push(line);
        n += 1;
    }
    proof {
        let given = Seq::new(lines@.len(), |i: int| lines@[i]@);
        assert(Seq::new(tokens@.len(), |i: int| token_text(tokens@[i])) =~= Seq::new(
            given.len(),
            |i: int| tokens_of(given[i], stopwords@),
        ));
    }
    assemble(&tokens)
}

/// The texts, one behind the other.
pub open spec fn concat_all(parts: Seq<Seq<char>>) -> Seq<char>
    decreases parts.len(),
{
    if parts.len() == 0 {
        Seq::empty()
    } else {
        concat_all(parts.drop_last()) + parts.last()
    }
}

/// The texts, one behind the other, with `separator` between each two.
pub open spec fn joined(parts: Seq<Seq<char>>, separator: Seq<char>) -> Seq<char>
    decreases parts.len(),
{
    if parts.len() == 0 {
        Seq::empty()
    } else if parts.len() == 1 {
        parts[0]
    } else {
        joined(parts.drop_last(), separator) + separator + parts.last()
    }
}

/// A sentence as a line of text: its terms with a space between each two.
pub open spec fn sentence_line(sentence: Seq<Seq<char>>) -> Seq<char> {
    joined(sentence, seq![' '])
}

/// A paragraph as text: its sentences, each on a line of its own.
pub open spec fn paragraph_lines(paragraph: Seq<Seq<Seq<char>>>) -> Seq<char> {
    joined(Seq::new(paragraph.len(), |s: int| sentence_line(paragraph[s])), seq!['\n'])
}

/// A document as text: its paragraphs with an empty line between each two.
pub open spec fn document_lines(document: Seq<Seq<Seq<Seq<char>>>>) -> Seq<char> {
    joined(Seq::new(document.len(), |p: int| paragraph_lines(document[p])), seq!['\n', '\n'])
}

/// `Itertools::intersperse` of itertools over the words, with what it yields
/// collected: the words in their order, with a copy of `separator` between
/// each two.
#[verifier::external_body]
fn interspersed(words: &Vec<String>, separator: &String) -> (pieces: Vec<String>)
    ensures
        words@.len() == 0 ==> pieces@.len() == 0,
        words@.len() > 0 ==> pieces@.len() == 2 * words@.len() - 1,
        forall|i: int|
            0 <= i < pieces@.len() ==> (#[trigger] pieces@[i])@ == if i % 2 == 0 {
                words@[i / 2]@
            } else {
                separator@
            },
{
    itertools::Itertools::intersperse(words.iter(), separator).cloned().collect()
}

/// Texts with a separator between each two, put one behind the other, are
/// the texts joined by the separator.
proof fn lemma_interspersed(words: Seq<Seq<char>>, separator: Seq<char>, pieces: Seq<Seq<char>>)
    requires
        words.len() == 0 ==> pieces.len() == 0,
        words.len() > 0 ==> pieces.len() == 2 * words.len() - 1,
        forall|i: int|
            0 <= i < pieces.len() ==> #[trigger] pieces[i] == if i % 2 == 0 {
                words[i / 2]
            } else {
                separator
            },
    ensures
        concat_all(pieces) == joined(words, separator),
    decreases words.len(),
{
    if words.len() == 0 {
    } else if words.len() == 1 {
        assert(pieces.drop_last() =~= Seq::<Seq<char>>::empty());
        assert(concat_all(pieces.drop_last()) =~= Seq::<char>::empty());
        assert(pieces.last() == pieces[0]);
        assert(concat_all(pieces) =~= words[0]);
    } else {
        let n = words.len() as int;
        let fewer = pieces.take(2 * n - 3);
        assert forall|i: int| 0 <= i < fewer.len() implies #[trigger] fewer[i] == if i % 2 == 0 {
            words.drop_last()[i / 2]
        } else {
            separator
        } by {
            assert(fewer[i] == pieces[i]);
        }
        lemma_interspersed(words.drop_last(), separator, fewer);
        assert(pieces.drop_last().drop_last() =~= fewer);
        assert(pieces.drop_last().last() == pieces[2 * n - 3]);
        assert(pieces.last() == pieces[2 * n - 2]);
        assert((2 * n - 3) % 2 == 1);
        assert((2 * n - 2) % 2 == 0 && (2 * n - 2) / 2 == n - 1);
        assert(pieces[2 * n - 3] == separator);
        assert(pieces[2 * n - 2] == words[n - 1]);
        assert(concat_all(pieces.drop_last()) == concat_all(fewer) + separator);
        assert(concat_all(pieces) =~= concat_all(fewer) + separator + words.last());
    }
}

/// The texts of the strings.
pub open spec fn texts(strings: Vec<String>) -> Seq<Seq<char>> {
    Seq::new(strings@.len(), |i: int| strings@[i]@)
}

/// The strings, one behind the other.
fn concat(pieces: &Vec<String>) -> (out: String)
    ensures
        out@ == concat_all(texts(*pieces)),
{
    let ghost all = texts(*pieces);
    let mut out = String::new();
    let mut i: usize = 0;
    proof {
        assert(all.take(0) =~= Seq::<Seq<char>>::empty());
    }
    while i < pieces.len()
        invariant
            i <= pieces@.len(),
            all == texts(*pieces),
            out@ == concat_all(all.take(i as int)),
        decreases pieces@.len() - i,
    {
        proof {
            assert(all.take(i + 1).drop_last() =~= all.take(i as int));
            assert(all.take(i + 1).last() == pieces@[i as int]@);
        }
        out.append(pieces[i].as_str());
        i += 1;
    }
    proof {
        assert(all.take(i as int) =~= all);
    }
    out
}

/// The strings, one behind the other, with `separator` between each two.
fn join(parts: &Vec<String>, separator: &str) -> (out: String)
    ensures
        out@ == joined(texts(*parts), separator@),
{
    let ghost all = texts(*parts);
    let mut out = String::new();
    let mut first = true;
    let mut i: usize = 0;
    proof {
        assert(all.take(0) =~= Seq::<Seq<char>>::empty());
    }
    while i < parts.len()
        invariant
            i <= parts@.len(),
            all == texts(*parts),
            first <==> i == 0,
            out@ == joined(all.take(i as int), separator@),
        decreases parts@.len() - i,
    {
        proof {
            assert(all.take(i + 1).drop_last() =~= all.take(i as int));
            assert(all.take(i + 1).last() == parts@[i as int]@);
            if i == 0 {
                assert(all.take(1)[0] == parts@[0]@);
            }
        }
        if first {
            first = false;
        } else {
            out.append(separator);
        }
        out.append(parts[i].as_str());
        proof {
            if i == 0 {
                assert(out@ =~= parts@[0]@);
            }
        }
        i += 1;
    }
    proof {
        assert(all.take(i as int) =~= all);
    }
    out
}

/// Writes a document as text: the terms of a sentence on one line with a
/// space between each two, the sentences of a paragraph on a line each, and
/// an empty line between each two paragraphs.
pub fn write_doc(doc: &Vec<Vec<Vec<String>>>) -> (out: String)
    ensures
        out@ == document_lines(document_text(*doc)),
{
    let ghost whole = document_text(*doc);
    let space = String::from_str(" ");
    proof {
        reveal_strlit(" ");
        reveal_strlit("\n");
        reveal_strlit("\n\n");
        assert(" "@ =~= seq![' ']);
        assert("\n"@ =~= seq!['\n']);
        assert("\n\n"@ =~= seq!['\n', '\n']);
    }
    let mut paragraphs: Vec<String> = Vec::new();
    let mut p: usize = 0;
    while p < doc.len()
        invariant
            p <= doc@.len(),
            whole == document_text(*doc),
            space@ == seq![' '],
            "\n"@ == seq!['\n'],
            paragraphs@.len() == p,
            forall|k: int| 0 <= k < p ==> (#[trigger] paragraphs@[k])@ == paragraph_lines(whole[k]),
        decreases doc@.len() - p,
    {
        let paragraph = &doc[p];
        let ghost par = paragraph_text(*paragraph);
        let mut lines: Vec<String> = Vec::new();
        let mut s: usize = 0;
        while s < paragraph.len()
            invariant
                s <= paragraph@.len(),
                par == paragraph_text(*paragraph),
                space@ == seq![' '],
                lines@.len() == s,
                forall|k: int| 0 <= k < s ==> (#[trigger] lines@[k])@ == sentence_line(par[k]),
            decreases paragraph@.len() - s,
        {
            let pieces = interspersed(&paragraph[s], &space);
            proof {
                lemma_interspersed(par[s as int], space@, texts(pieces));
            }
            lines.push(concat(&pieces));
            s += 1;
        }
        let text = join(&lines, "\n");
        proof {
            assert(texts(lines) =~= Seq::new(par.len(), |s: int| sentence_line(par[s])));
            assert(par == whole[p as int]);
        }
        paragraphs.push(text);
        p += 1;
    }
    proof {
        assert(texts(paragraphs) =~= Seq::new(whole.len(), |p: int| paragraph_lines(whole[p])));
    }
    join(&paragraphs, "\n\n")
}

} // verus!
