//! The e-book side: books of a library catalogue and the plain text of a book.
use crate::lexicon::{chars_of, string_of};
use crate::text::{collapse_whitespace, collapsed};
use vstd::prelude::*;

verus! {

/// A book of the library catalogue.
pub struct Book {
    pub id: i64,
    pub title: String,
    pub author: String,
    pub path: String,
    pub cover_path: Option<String>,
    pub has_epub: bool,
}

/// Why the text of a book could not be had.
pub enum EpubError {
    Open(String),
    ReadChapter(String),
}

/// The plain text of a book: its chapters, whitespace collapsed, separated
/// by blank lines.
pub struct ExtractedText {
    pub full_text: String,
    pub chapter_count: usize,
}

/// The chapters that are not blank, whitespace collapsed, joined by a blank line.
pub open spec fn assembled(chs: Seq<Seq<char>>) -> Seq<char>
    decreases chs.len(),
{
    if chs.len() == 0 {
        seq![]
    } else {
        let a = assembled(chs.drop_last());
        let c = collapsed(chs.last());
        if c.len() == 0 {
            a
        } else if a.len() == 0 {
            c
        } else {
            a + seq!['\n', '\n'] + c
        }
    }
}

/// The number of chapters that are not blank.
pub open spec fn non_blank_count(chs: Seq<Seq<char>>) -> nat
    decreases chs.len(),
{
    if chs.len() == 0 {
        0
    } else if collapsed(chs.last()).len() == 0 {
        non_blank_count(chs.drop_last())
    } else {
        non_blank_count(chs.drop_last()) + 1
    }
}

proof fn lemma_count_bound(chs: Seq<Seq<char>>)
    ensures
        non_blank_count(chs) <= chs.len(),
    decreases chs.len(),
{
    if chs.len() > 0 {
        lemma_count_bound(chs.drop_last());
    }
}

/// Makes the text of a book from the plain text of its chapters, in reading order.
pub fn assemble_text(chapters: &Vec<String>) -> (r: ExtractedText)
    ensures
        r.full_text@ == assembled(chapters@.map_values(|c: String| c@)),
        r.chapter_count == non_blank_count(chapters@.map_values(|c: String| c@)),
{
    let ghost chs = chapters@.map_values(|c: String| c@);
    let mut text: Vec<char> = Vec::new();
    let mut count: usize = 0;
    let mut i: usize = 0;
    while i < chapters.len()
        invariant
            i <= chapters.len(),
            chs == chapters@.map_values(|c: String| c@),
            text@ == assembled(chs.subrange(0, i as int)),
            count == non_blank_count(chs.subrange(0, i as int)),
        decreases chapters.len() - i,
    {
        let ghost pre = chs.subrange(0, i + 1);
        assert(pre.drop_last() =~= chs.subrange(0, i as int));
        assert(pre.last() == chapters@[i as int]@);
        proof {
            lemma_count_bound(chs.subrange(0, i as int));
        }
        let c = chars_of(chapters[i].as_str());
        let mut n = collapse_whitespace(&c);
        if n.len() > 0 {
            if text.len() > 0 {
                text.push('\n');
                text.push('\n');
            }
            let ghost before = text@;
            text.append(&mut n);
            count = count + 1;
        }
        i = i + 1;
    }
    assert(chs.subrange(0, i as int) =~= chs);
    ExtractedText { full_text: string_of(&text), chapter_count: count }
}

} // verus!
