//! Text taken out of an HTML document: paragraphs, code blocks, and tables as
//! comma-separated rows.
//!
//! Reading the document and matching its elements is the work of the crate
//! scraper. This module decides what becomes of the matched elements.

use crate::chars::{
    all_to_chars, char_texts, from_chars, lemma_char_texts_push, lemma_texts_push, texts,
};
use crate::words::{
    join, join_range, normalized, separated, separated_range, trim, trim_whitespace, trimmed,
};
use vstd::prelude::*;

verus! {

/// What this library reads of one element of a document: the name of its tag,
/// and the text nodes below it in document order.
#[derive(Debug)]
pub struct Fragment {
    pub tag: String,
    pub text: Vec<String>,
}

impl View for Fragment {
    type V = (Seq<char>, Seq<Seq<char>>);

    open spec fn view(&self) -> (Seq<char>, Seq<Seq<char>>) {
        (self.tag@, texts(self.text@))
    }
}

/// The view of each fragment of `list`, in order.
pub open spec fn fragment_views(list: Seq<Fragment>) -> Seq<(Seq<char>, Seq<Seq<char>>)> {
    Seq::new(list.len(), |i: int| list[i]@)
}

/// The elements of the document `html` that match the CSS selector group
/// `selector`, each as its tag name and its text nodes, in the order in which
/// the selection yields them; `None` where `selector` is no selector group.
pub uninterp spec fn selected(html: Seq<char>, selector: Seq<char>) -> Option<
    Seq<(Seq<char>, Seq<Seq<char>>)>,
>;

/// The text nodes of the cells of the document `html`: for each element that
/// matches `table`, for each element below it that matches `row`, for each
/// element below that which matches `cell`, the text nodes below the cell;
/// `None` where one of the three is no selector group.
pub uninterp spec fn selected_cells(
    html: Seq<char>,
    table: Seq<char>,
    row: Seq<char>,
    cell: Seq<char>,
) -> Option<Seq<Seq<Seq<Seq<Seq<char>>>>>>;

/// The selector group for the elements that may hold paragraphs or code.
pub open spec fn text_selector() -> Seq<char> {
    "p, span, code, pre"@
}

/// The text of an element: its text nodes joined by single spaces, with
/// whitespace normalized.
pub open spec fn element_text(nodes: Seq<Seq<char>>) -> Seq<char> {
    normalized(join(nodes))
}

/// The paragraphs and the code blocks among `fragments`, in order: the text of
/// each `p` element, and the text of each `pre` and `code` element. Elements
/// without text, and elements with other tags, are left out.
pub open spec fn sorted_texts(fragments: Seq<(Seq<char>, Seq<Seq<char>>)>) -> (
    Seq<Seq<char>>,
    Seq<Seq<char>>,
)
    decreases fragments.len(),
{
    if fragments.len() == 0 {
        (Seq::empty(), Seq::empty())
    } else {
        let (paragraphs, code) = sorted_texts(fragments.drop_last());
        let (tag, nodes) = fragments.last();
        let text = element_text(nodes);
        if tag == "p"@ {
            if text.len() == 0 {
                (paragraphs, code)
            } else {
                (paragraphs.push(text), code)
            }
        } else if tag == "pre"@ || tag == "code"@ {
            if text.len() == 0 {
                (paragraphs, code)
            } else {
                (paragraphs, code.push(text))
            }
        } else {
            (paragraphs, code)
        }
    }
}

/// The text of a table cell: its text nodes joined by single spaces, trimmed.
pub open spec fn cell_text(nodes: Seq<Seq<char>>) -> Seq<char> {
    trimmed(join(nodes))
}

/// The fields of a row: the text of each of its cells, in order. A cell
/// without text gives an empty field, so that a field keeps its column.
pub open spec fn row_fields(cells: Seq<Seq<Seq<char>>>) -> Seq<Seq<char>> {
    Seq::new(cells.len(), |i: int| cell_text(cells[i]))
}

/// A row as text: its fields with commas between them. A field is written as
/// it is, without quotes.
pub open spec fn csv_row(cells: Seq<Seq<Seq<char>>>) -> Seq<char> {
    separated(row_fields(cells), ',')
}

/// A table as text: its rows with line feeds between them.
pub open spec fn csv_table(rows: Seq<Seq<Seq<Seq<char>>>>) -> Seq<char> {
    separated(Seq::new(rows.len(), |i: int| csv_row(rows[i])), '\n')
}

/// Each table as text.
pub open spec fn csv_tables(tables: Seq<Seq<Seq<Seq<Seq<char>>>>>) -> Seq<Seq<char>> {
    Seq::new(tables.len(), |i: int| csv_table(tables[i]))
}

/// The deep view of a list of strings is the list of their texts.
pub proof fn lemma_texts_deep(v: Vec<String>)
    ensures
        v.deep_view() == texts(v@),
{
}

/// Parses `html` with `Html::parse_document` and `selector` with
/// `Selector::parse`, both of the crate scraper, goes through the matches that
/// `Html::select` yields, and copies of each the tag name (`Element::name`)
/// and the text nodes below it (`ElementRef::text`). `None` stands for a
/// selector that `Selector::parse` refused. The contract only gives the result
/// its name.
#[verifier::external_body]
fn select_elements(html: &str, selector: &str) -> (r: Option<Vec<Fragment>>)
    ensures
        match r {
            Some(list) => selected(html@, selector@) == Some(fragment_views(list@)),
            None => selected(html@, selector@) is None,
        },
{
    let rule = scraper::Selector::parse(selector).ok()?;
    let document = scraper::Html::parse_document(html);
    let found = document.select(&rule);
    Some(
        found.map(
            |e| Fragment {
                tag: e.value().name().to_string(),
                text: e.text().map(String::from).collect(),
            },
        ).collect(),
    )
}

/// Parses `html` with `Html::parse_document` and the three selectors with
/// `Selector::parse`, both of the crate scraper, and goes through the matches
/// of `table` that `Html::select` yields, below each through the matches of
/// `row`, and below each of those through the matches of `cell`, both as
/// `ElementRef::select` yields them. Of each cell it copies the text nodes
/// (`ElementRef::text`). `None` stands for a selector that `Selector::parse`
/// refused. The contract only gives the result its name.
#[verifier::external_body]
fn select_cells(html: &str, table: &str, row: &str, cell: &str) -> (r: Option<
    Vec<Vec<Vec<Vec<String>>>>,
>)
    ensures
        match r {
            Some(tables) => selected_cells(html@, table@, row@, cell@) == Some(tables.deep_view()),
            None => selected_cells(html@, table@, row@, cell@) is None,
        },
{
    let (t, r, c) = (
        scraper::Selector::parse(table).ok()?,
        scraper::Selector::parse(row).ok()?,
        scraper::Selector::parse(cell).ok()?,
    );
    let document = scraper::Html::parse_document(html);
    let cells = |x: scraper::ElementRef| x.select(&c).map(|y| y.text().map(String::from).collect()).collect();
    let rows = |x: scraper::ElementRef| x.select(&r).map(cells).collect();
    Some(document.select(&t).map(rows).collect())
}

/// The text of an element with the text nodes `nodes`.
fn text_of(nodes: &Vec<String>) -> (r: String)
    ensures
        r@ == element_text(texts(nodes@)),
{
    let parts = all_to_chars(nodes);
    let joined = from_chars(&join_range(&parts, 0, parts.len()));
    proof {
        assert(char_texts(parts@).subrange(0, parts@.len() as int) == char_texts(parts@));
    }
    trim_whitespace(joined.as_str())
}

/// Sorts the text of `fragments` into paragraphs and code blocks: the text of
/// a `p` element is a paragraph, that of a `pre` or `code` element a code
/// block. Elements without text, and elements with other tags, are left out.
pub fn sort_fragments(fragments: &Vec<Fragment>) -> (r: (Vec<String>, Vec<String>))
    ensures
        (texts(r.0@), texts(r.1@)) == sorted_texts(fragment_views(fragments@)),
{
    let mut paragraphs: Vec<String> = Vec::new();
    let mut code_blocks: Vec<String> = Vec::new();
    let p_tag = "p".to_owned();
    let pre_tag = "pre".to_owned();
    let code_tag = "code".to_owned();
    let ghost all = fragment_views(fragments@);
    let mut i: usize = 0;
    while i < fragments.len()
        invariant
            i <= fragments.len(),
            all == fragment_views(fragments@),
            p_tag@ == "p"@,
            pre_tag@ == "pre"@,
            code_tag@ == "code"@,
            (texts(paragraphs@), texts(code_blocks@)) == sorted_texts(all.take(i as int)),
        decreases fragments.len() - i,
    {
        let fragment = &fragments[i];
        proof {
            assert(all.take(i as int + 1).drop_last() == all.take(i as int));
            assert(all.take(i as int + 1).last() == fragment@);
        }
        if fragment.tag == p_tag {
            let text = text_of(&fragment.text);
            if text.as_str().unicode_len() > 0 {
                proof {
                    lemma_texts_push(paragraphs@, text);
                }
                paragraphs.push(text);
            }
        } else if fragment.tag == pre_tag || fragment.tag == code_tag {
            let text = text_of(&fragment.text);
            if text.as_str().unicode_len() > 0 {
                proof {
                    lemma_texts_push(code_blocks@, text);
                }
                code_blocks.push(text);
            }
        }
        i = i + 1;
    }
    proof {
        assert(all.take(i as int) == all);
    }
    (paragraphs, code_blocks)
}

/// Takes the paragraphs and the code blocks out of the document
/// `html_content`: the text of its `p` elements, and the text of its `pre` and
/// `code` elements, each with whitespace normalized, without those that have
/// no text. Should the selector for these elements not be understood, nothing
/// is taken out.
pub fn extract_code_and_paragraphs(html_content: &str) -> (r: (Vec<String>, Vec<String>))
    ensures
        match selected(html_content@, text_selector()) {
            Some(fragments) => (texts(r.0@), texts(r.1@)) == sorted_texts(fragments),
            None => r.0@.len() == 0 && r.1@.len() == 0,
        },
{
    match select_elements(html_content, "p, span, code, pre") {
        Some(fragments) => sort_fragments(&fragments),
        None => (Vec::new(), Vec::new()),
    }
}

/// A row as text.
fn row_to_csv(cells: &Vec<Vec<String>>) -> (r: Vec<char>)
    ensures
        r@ == csv_row(cells.deep_view()),
{
    let mut fields: Vec<Vec<char>> = Vec::new();
    let ghost want = row_fields(cells.deep_view());
    let mut i: usize = 0;
    while i < cells.len()
        invariant
            i <= cells.len(),
            want == row_fields(cells.deep_view()),
            char_texts(fields@) == want.take(i as int),
        decreases cells.len() - i,
    {
        let parts = all_to_chars(&cells[i]);
        let text = trim(&join_range(&parts, 0, parts.len()));
        proof {
            assert(char_texts(parts@).subrange(0, parts@.len() as int) == char_texts(parts@));
            lemma_texts_deep(cells@[i as int]);
            lemma_char_texts_push(fields@, text);
            assert(want.take(i as int + 1) == want.take(i as int).push(want[i as int]));
        }
        fields.push(text);
        i = i + 1;
    }
    proof {
        assert(want.take(i as int) == want);
        assert(char_texts(fields@).subrange(0, fields@.len() as int) == char_texts(fields@));
    }
    separated_range(&fields, 0, fields.len(), ',')
}

/// A table as text.
fn table_to_csv(rows: &Vec<Vec<Vec<String>>>) -> (r: String)
    ensures
        r@ == csv_table(rows.deep_view()),
{
    let mut lines: Vec<Vec<char>> = Vec::new();
    let ghost all = rows.deep_view();
    let ghost want = Seq::new(all.len(), |i: int| csv_row(all[i]));
    let mut i: usize = 0;
    while i < rows.len()
        invariant
            i <= rows.len(),
            all == rows.deep_view(),
            want == Seq::new(all.len(), |i: int| csv_row(all[i])),
            char_texts(lines@) == want.take(i as int),
        decreases rows.len() - i,
    {
        let line = row_to_csv(&rows[i]);
        proof {
            lemma_char_texts_push(lines@, line);
            assert(want.take(i as int + 1) == want.take(i as int).push(want[i as int]));
        }
        lines.push(line);
        i = i + 1;
    }
    proof {
        assert(want.take(i as int) == want);
        assert(char_texts(lines@).subrange(0, lines@.len() as int) == char_texts(lines@));
    }
    from_chars(&separated_range(&lines, 0, lines.len(), '\n'))
}

/// Writes each table as text. `tables` holds, for each table, for each of its
/// rows, for each cell of the row, the text nodes of the cell. A table becomes
/// its rows with line feeds between them, a row its fields with commas between
/// them. Every cell gives one field: its text nodes joined by single spaces,
/// trimmed. A cell without text gives an empty field.
pub fn tables_to_csv(tables: &Vec<Vec<Vec<Vec<String>>>>) -> (r: Vec<String>)
    ensures
        texts(r@) == csv_tables(tables.deep_view()),
{
    let mut out: Vec<String> = Vec::new();
    let ghost want = csv_tables(tables.deep_view());
    let mut i: usize = 0;
    while i < tables.len()
        invariant
            i <= tables.len(),
            want == csv_tables(tables.deep_view()),
            texts(out@) == want.take(i as int),
        decreases tables.len() - i,
    {
        let text = table_to_csv(&tables[i]);
        proof {
            lemma_texts_push(out@, text);
            assert(want.take(i as int + 1) == want.take(i as int).push(want[i as int]));
        }
        out.push(text);
        i = i + 1;
    }
    proof {
        assert(want.take(i as int) == want);
    }
    out
}

/// Takes the tables out of the document `html_content` and writes each as
/// text, its rows separated by line feeds and the cells of a row by commas:
/// the rows are the `tr` elements below the `table` element, the cells the
/// `td` and `th` elements below the row. Should one of these selectors not be
/// understood, no table is taken out.
pub fn extract_tables_to_csv(html_content: &str) -> (r: Vec<String>)
    ensures
        match selected_cells(html_content@, "table"@, "tr"@, "td, th"@) {
            Some(tables) => texts(r@) == csv_tables(tables),
            None => r@.len() == 0,
        },
{
    match select_cells(html_content, "table", "tr", "td, th") {
        Some(tables) => tables_to_csv(&tables),
        None => Vec::new(),
    }
}

} // verus!
