//! Documents and the formats they are read from.
//!
//! A document is a list of paragraphs, a paragraph a list of sentences, and
//! a sentence a list of terms.

use vstd::prelude::*;

verus! {

/// A term.
#[derive(Clone, Debug)]
pub struct Term(pub String);

/// A sentence: a list of terms.
#[derive(Clone, Debug)]
pub struct Sentence(pub Vec<Term>);

/// A paragraph: a list of sentences.
#[derive(Clone, Debug)]
pub struct Paragraph(pub Vec<Sentence>);

/// A document: a list of paragraphs.
#[derive(Clone, Debug)]
pub struct Document(pub Vec<Paragraph>);

impl View for Term {
    type V = Seq<char>;

    open spec fn view(&self) -> Seq<char> {
        self.0@
    }
}

impl View for Sentence {
    type V = Seq<Seq<char>>;

    open spec fn view(&self) -> Seq<Seq<char>> {
        Seq::new(self.0@.len(), |i: int| self.0@[i]@)
    }
}

impl View for Paragraph {
    type V = Seq<Seq<Seq<char>>>;

    open spec fn view(&self) -> Seq<Seq<Seq<char>>> {
        Seq::new(self.0@.len(), |i: int| self.0@[i]@)
    }
}

impl View for Document {
    type V = Seq<Seq<Seq<Seq<char>>>>;

    open spec fn view(&self) -> Seq<Seq<Seq<Seq<char>>>> {
        Seq::new(self.0@.len(), |i: int| self.0@[i]@)
    }
}

/// The terms that `str::split_whitespace` of std finds in a line: its
/// maximal runs of characters that are not white space, in their order.
pub uninterp spec fn whitespace_split(line: Seq<char>) -> Seq<Seq<char>>;

/// `str::split_whitespace` of std, with the terms it yields collected as
/// strings of their own. The terms are those that `whitespace_split` names.
#[verifier::external_body]
fn split_whitespace(line: &str) -> (terms: Vec<String>)
    ensures
        terms@.len() == whitespace_split(line@).len(),
        forall|i: int| 0 <= i < terms@.len() ==> (#[trigger] terms@[i])@ == whitespace_split(line@)[i],
{
    line.split_whitespace().map(String::from).collect()
}

/// The paragraphs that lines make up, where each line is given as the
/// sentence that it holds, and a line that holds nothing as `None`: a
/// sentence joins the paragraph of the sentence on the line before it, and
/// begins a new paragraph where there is no line before it or an empty one.
pub open spec fn paragraphs_of(lines: Seq<Option<Seq<Seq<char>>>>) -> Seq<Seq<Seq<Seq<char>>>>
    decreases lines.len(),
{
    if lines.len() == 0 {
        Seq::empty()
    } else {
        let before = paragraphs_of(lines.drop_last());
        match lines.last() {
            None => before,
            Some(sentence) => if lines.len() >= 2 && lines[lines.len() - 2] is Some && before.len()
                > 0 {
                before.drop_last().push(before.last().push(sentence))
            } else {
                before.push(seq![sentence])
            },
        }
    }
}

/// What a line of a document in the newline delimited format holds: nothing
/// where the line is empty, and otherwise the sentence of its terms.
pub open spec fn line_sentence(line: Seq<char>) -> Option<Seq<Seq<char>>> {
    if line.len() == 0 {
        None
    } else {
        Some(whitespace_split(line))
    }
}

/// The default newline delimited input format.
///
/// Each non-empty line holds the terms of one sentence, separated by white
/// space. Paragraphs are delimited by empty lines.
pub struct NddFile;

impl NddFile {
    /// Puts the sentences of the lines of a document together into
    /// paragraphs. A line without a sentence is an empty line.
    pub fn group(lines: Vec<Option<Sentence>>) -> (doc: Document)
        ensures
            doc@ == paragraphs_of(Seq::new(lines@.len(), |i: int| match lines@[i] {
                Some(sentence) => Some(sentence@),
                None => None,
            })),
    {
        let ghost given = Seq::new(lines@.len(), |i: int| match lines@[i] {
            Some(sentence) => Some(sentence@),
            None => None,
        });
        let mut res = Document(Vec::new());
        let mut in_section = false;
        let mut lines = lines;
        let total = lines.len();
        let mut n: usize = 0;
        proof {
            assert(given.take(0) =~= Seq::<Option<Seq<Seq<char>>>>::empty());
            assert(res@ =~= paragraphs_of(given.take(0)));
        }
        while n < total
            invariant
                n <= total,
                total == lines@.len(),
                total == given.len(),
                forall|i: int| n <= i < total ==> given[i] == match #[trigger] lines@[i] {
                    Some(sentence) => Some(sentence@),
                    None => None,
                },
                res@ == paragraphs_of(given.take(n as int)),
                in_section <==> (n > 0 && given[n - 1] is Some),
                in_section ==> res.0@.len() > 0,
            decreases total - n,
        {
            let ghost before = res@;
            let ghost longer = given.take(n + 1);
            proof {
                assert(longer.drop_last() =~= given.take(n as int));
                assert(longer.last() == given[n as int]);
                if n > 0 {
                    assert(longer[longer.len() - 2] == given[n - 1]);
                }
            }
            let mut line: Option<Sentence> = None;
            lines.set_and_swap(n, &mut line);
            match line {
                None => {
                    in_section = false;
                },
                Some(sentence) => {
                    if !in_section {
                        in_section = true;
                        let mut first: Vec<Sentence> = Vec::new();
                        first.push(sentence);
                        let paragraph = Paragraph(first);
                        res.0.push(paragraph);
                        proof {
                            assert(paragraph@ =~= seq![sentence@]);
                            assert(res@ =~= before.push(paragraph@));
                        }
                    } else {
                        let mut paragraph = res.0.pop().unwrap();
                        let ghost last = paragraph@;
                        paragraph.0.push(sentence);
                        res.0.push(paragraph);
                        proof {
                            assert(last == before.last());
                            assert(paragraph@ =~= last.push(sentence@));
                            assert(res@ =~= before.drop_last().push(paragraph@));
                        }
                    }
                },
            }
            n += 1;
        }
        proof {
            assert(given.take(n as int) =~= given);
        }
        res
    }

    /// Parses the lines of a file in the format into a `Document`.
    pub fn parse_lines(lines: &[String]) -> (doc: Document)
        ensures
            doc@ == paragraphs_of(Seq::new(lines@.len(), |i: int| line_sentence(lines@[i]@))),
    {
        let ghost given = Seq::new(lines@.len(), |i: int| line_sentence(lines@[i]@));
        let mut sentences: Vec<Option<Sentence>> = Vec::new();
        let mut n: usize = 0;
        while n < lines.len()
            invariant
                n <= lines@.len(),
                sentences@.len() == n,
                forall|i: int| 0 <= i < n ==> line_sentence(lines@[i]@) == match #[trigger] sentences@[i] {
                    Some(sentence) => Some(sentence@),
                    None => None,
                },
            decreases lines@.len() - n,
        {
            let line = lines[n].as_str();
            if line.is_empty() {
                sentences.push(None);
            } else {
                let found = split_whitespace(line);
                let sentence = Sentence(terms_of(found));
                proof {
                    assert(sentence@ =~= whitespace_split(line@));
                }
                sentences.push(Some(sentence));
            }
            n += 1;
        }
        proof {
            assert(given =~= Seq::new(sentences@.len(), |i: int| match sentences@[i] {
                Some(sentence) => Some(sentence@),
                None => None,
            }));
        }
        NddFile::group(sentences)
    }
}

/// The strings as terms.
fn terms_of(strings: Vec<String>) -> (terms: Vec<Term>)
    ensures
        terms@.len() == strings@.len(),
        forall|i: int| 0 <= i < terms@.len() ==> (#[trigger] terms@[i])@ == strings@[i]@,
{
    let mut strings = strings;
    let ghost given = strings@;
    let mut terms: Vec<Term> = Vec::new();
    let total = strings.len();
    let mut n: usize = 0;
    while n < total
        invariant
            n <= total,
            total == strings@.len(),
            total == given.len(),
            terms@.len() == n,
            forall|i: int| n <= i < total ==> (#[trigger] strings@[i])@ == given[i]@,
            forall|i: int| 0 <= i < n ==> (#[trigger] terms@[i])@ == given[i]@,
        decreases total - n,
    {
        let mut text = String::new();
        strings.set_and_swap(n, &mut text);
        terms.push(Term(text));
        n += 1;
    }
    terms
}

} // verus!
