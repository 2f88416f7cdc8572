//! What every SQL transport shares: a table held as columns and rows, the
//! verb of a statement, and the Stream a row or a bind is.

use vstd::prelude::*;
use vstd::slice::slice_to_vec;
use vstd::string::*;

use crate::text;
use crate::text::{fields_of, same_word_text, Separator};
use crate::ttc;

verus! {

/// A Stream that arrived, and where it came from.
#[derive(Clone, Debug, PartialEq, Eq)]
pub struct Arrived {
    pub origin_uri: String,
    pub bytes: Vec<u8>,
}

/// What an [`Arrived`] holds, as contracts speak of it.
pub struct ArrivedView {
    pub origin_uri: Seq<char>,
    pub bytes: Seq<u8>,
}

impl View for Arrived {
    type V = ArrivedView;

    open spec fn view(&self) -> ArrivedView {
        ArrivedView { origin_uri: self.origin_uri@, bytes: self.bytes@ }
    }
}

/// Strings, as contracts speak of them.
pub open spec fn texts_view(texts: Seq<String>) -> Seq<Seq<char>> {
    Seq::new(texts.len(), |i: int| texts[i]@)
}

/// A row, each column its bytes or NULL, as contracts speak of it.
pub open spec fn row_view(row: Seq<Option<Vec<u8>>>) -> Seq<Option<Seq<u8>>> {
    Seq::new(row.len(), |i: int| ttc::value_view(row[i]))
}

/// Rows, as contracts speak of them.
pub open spec fn rows_view(rows: Seq<Vec<Option<Vec<u8>>>>) -> Seq<Seq<Option<Seq<u8>>>> {
    Seq::new(rows.len(), |i: int| row_view(rows[i]@))
}

/// A row of borrowed values, as contracts speak of it.
pub open spec fn borrowed_row(row: Seq<Option<&[u8]>>) -> Seq<Option<Seq<u8>>> {
    Seq::new(row.len(), |i: int| ttc::bound_view(row[i]))
}

/// Rows of borrowed values, as contracts speak of them.
pub open spec fn borrowed_rows(rows: Seq<&[Option<&[u8]>]>) -> Seq<Seq<Option<Seq<u8>>>> {
    Seq::new(rows.len(), |i: int| borrowed_row(rows[i]@))
}

/// A copy of `texts`.
pub fn copy_texts(texts: &Vec<String>) -> (copy: Vec<String>)
    ensures
        texts_view(copy@) == texts_view(texts@),
{
    let mut copy: Vec<String> = Vec::new();
    let mut i: usize = 0;
    while i < texts.len()
        invariant
            i <= texts@.len(),
            copy@ == texts@.take(i as int),
        decreases texts@.len() - i,
    {
        copy.push(texts[i].clone());
        i = i + 1;
        assert(copy@ =~= texts@.take(i as int));
    }
    assert(copy@ =~= texts@);
    copy
}

/// A copy of `value`.
pub fn copy_value(value: &Option<Vec<u8>>) -> (copy: Option<Vec<u8>>)
    ensures
        ttc::value_view(copy) == ttc::value_view(*value),
{
    match value {
        Some(bytes) => Some(slice_to_vec(bytes.as_slice())),
        None => None,
    }
}

/// A copy of `row`.
pub fn copy_row(row: &Vec<Option<Vec<u8>>>) -> (copy: Vec<Option<Vec<u8>>>)
    ensures
        row_view(copy@) == row_view(row@),
{
    let mut copy: Vec<Option<Vec<u8>>> = Vec::new();
    let mut i: usize = 0;
    assert(row_view(copy@) =~= row_view(row@).take(0));
    while i < row.len()
        invariant
            i <= row@.len(),
            row_view(copy@) == row_view(row@).take(i as int),
        decreases row@.len() - i,
    {
        let ghost earlier = row_view(copy@);
        let value = copy_value(&row[i]);
        copy.push(value);
        i = i + 1;
        assert(row_view(copy@) =~= earlier.push(ttc::value_view(value)));
        assert(row_view(copy@) =~= row_view(row@).take(i as int));
    }
    assert(row_view(row@).take(i as int) =~= row_view(row@));
    copy
}

/// A copy of `rows`.
pub fn copy_rows(rows: &Vec<Vec<Option<Vec<u8>>>>) -> (copy: Vec<Vec<Option<Vec<u8>>>>)
    ensures
        rows_view(copy@) == rows_view(rows@),
{
    let mut copy: Vec<Vec<Option<Vec<u8>>>> = Vec::new();
    let mut i: usize = 0;
    assert(rows_view(copy@) =~= rows_view(rows@).take(0));
    while i < rows.len()
        invariant
            i <= rows@.len(),
            rows_view(copy@) == rows_view(rows@).take(i as int),
        decreases rows@.len() - i,
    {
        let ghost earlier = rows_view(copy@);
        let row = copy_row(&rows[i]);
        copy.push(row);
        i = i + 1;
        assert(rows_view(copy@) =~= earlier.push(row_view(row@)));
        assert(rows_view(copy@) =~= rows_view(rows@).take(i as int));
    }
    assert(rows_view(rows@).take(i as int) =~= rows_view(rows@));
    copy
}

fn own_row(row: &[Option<&[u8]>]) -> (owned: Vec<Option<Vec<u8>>>)
    ensures
        row_view(owned@) == borrowed_row(row@),
{
    let mut owned: Vec<Option<Vec<u8>>> = Vec::new();
    let mut i: usize = 0;
    assert(row_view(owned@) =~= borrowed_row(row@).take(0));
    while i < row.len()
        invariant
            i <= row@.len(),
            row_view(owned@) == borrowed_row(row@).take(i as int),
        decreases row@.len() - i,
    {
        let ghost earlier = row_view(owned@);
        let value: Option<Vec<u8>> = match row[i] {
            Some(bytes) => Some(slice_to_vec(bytes)),
            None => None,
        };
        owned.push(value);
        i = i + 1;
        assert(row_view(owned@) =~= earlier.push(ttc::value_view(value)));
        assert(row_view(owned@) =~= borrowed_row(row@).take(i as int));
    }
    assert(borrowed_row(row@).take(i as int) =~= borrowed_row(row@));
    owned
}

/// The table that `columns` and `rows` are.
pub fn table(columns: &[&str], rows: &[&[Option<&[u8]>]]) -> (table: (
    Vec<String>,
    Vec<Vec<Option<Vec<u8>>>>,
))
    ensures
        texts_view(table.0@) == text::views(columns@),
        rows_view(table.1@) == borrowed_rows(rows@),
{
    let mut names: Vec<String> = Vec::new();
    let mut i: usize = 0;
    assert(texts_view(names@) =~= text::views(columns@).take(0));
    while i < columns.len()
        invariant
            i <= columns@.len(),
            texts_view(names@) == text::views(columns@).take(i as int),
        decreases columns@.len() - i,
    {
        let ghost earlier = texts_view(names@);
        let name = columns[i].to_owned();
        names.push(name);
        i = i + 1;
        assert(texts_view(names@) =~= earlier.push(name@));
        assert(texts_view(names@) =~= text::views(columns@).take(i as int));
    }
    assert(text::views(columns@).take(i as int) =~= text::views(columns@));
    let mut owned: Vec<Vec<Option<Vec<u8>>>> = Vec::new();
    let mut j: usize = 0;
    assert(rows_view(owned@) =~= borrowed_rows(rows@).take(0));
    while j < rows.len()
        invariant
            j <= rows@.len(),
            rows_view(owned@) == borrowed_rows(rows@).take(j as int),
        decreases rows@.len() - j,
    {
        let ghost earlier = rows_view(owned@);
        let row = own_row(rows[j]);
        owned.push(row);
        j = j + 1;
        assert(rows_view(owned@) =~= earlier.push(row_view(row@)));
        assert(rows_view(owned@) =~= borrowed_rows(rows@).take(j as int));
    }
    assert(borrowed_rows(rows@).take(j as int) =~= borrowed_rows(rows@));
    (names, owned)
}

/// Whether the first word of `sql` is `verb`, in whatever case.
pub open spec fn has_verb(sql: Seq<char>, verb: Seq<char>) -> bool {
    let words = text::fields(sql, Separator::White);
    words.len() > 0 && text::same_word(words[0], verb)
}

/// Whether the first word of `sql` is `verb`, in whatever case.
pub fn verb_is(sql: &str, verb: &str) -> (is: bool)
    ensures
        is == has_verb(sql@, verb@),
{
    let words = fields_of(sql, Separator::White);
    assert(text::views(words@).len() == words@.len());
    if words.len() == 0 {
        return false;
    }
    assert(text::views(words@)[0] == words@[0]@);
    same_word_text(words[0], verb)
}

/// Whether `sql` opens with `verb`: behind nothing but white space, at `at`,
/// in whatever case, and with white space or nothing behind it.
pub open spec fn opens_with(sql: Seq<char>, verb: Seq<char>, at: int) -> bool {
    &&& text::word_at(sql, at, verb)
    &&& forall|i: int| 0 <= i < at ==> text::blank(#[trigger] sql[i])
}

/// The verb of a statement is the word that it opens with, and no other.
pub proof fn law_verb(sql: Seq<char>, verb: Seq<char>)
    requires
        verb.len() > 0,
        forall|i: int| 0 <= i < verb.len() ==> !text::blank(#[trigger] verb[i]),
    ensures
        has_verb(sql, verb) <==> exists|at: int| opens_with(sql, verb, at),
{
    if has_verb(sql, verb) {
        let at = lemma_verb_opens(sql, verb);
        assert(opens_with(sql, verb, at));
    }
    if exists|at: int| opens_with(sql, verb, at) {
        let at = choose|at: int| opens_with(sql, verb, at);
        lemma_opening_is_verb(sql, verb, at);
    }
}

proof fn lemma_verb_opens(sql: Seq<char>, verb: Seq<char>) -> (at: int)
    requires
        has_verb(sql, verb),
    ensures
        opens_with(sql, verb, at),
    decreases sql.len(),
{
    let white = Separator::White;
    text::law_separators(' ', ' ', sql[0]);
    if white.parts(sql[0]) {
        let rest = sql.drop_first();
        let at = lemma_verb_opens(rest, verb) + 1;
        assert forall|i: int| 0 <= i < at implies text::blank(#[trigger] sql[i]) by {
            if i > 0 {
                assert(sql[i] == rest[i - 1]);
            }
        }
        assert forall|i: int| 0 <= i < verb.len() implies #[trigger] text::one_letter(
            sql[at + i],
            verb[i],
        ) by {
            assert(rest[at - 1 + i] == sql[at + i]);
            assert(text::one_letter(rest[at - 1 + i], verb[i]));
        }
        if at + verb.len() < sql.len() {
            assert(rest[at - 1 + verb.len()] == sql[at + verb.len()]);
        }
        at
    } else {
        let word = text::before(sql, white);
        text::law_before(sql, white);
        text::law_same_word(word, verb);
        assert(text::fields(sql, white)[0] == word);
        assert(word =~= sql.subrange(0, word.len() as int));
        assert forall|i: int| 0 <= i < verb.len() implies #[trigger] text::one_letter(
            sql[0 + i],
            verb[i],
        ) by {
            assert(word[i] == sql[i]);
            assert(text::one_letter(word[i], verb[i]));
        }
        if word.len() < sql.len() {
            text::law_separators(' ', ' ', sql[word.len() as int]);
        }
        0
    }
}

proof fn lemma_opening_is_verb(sql: Seq<char>, verb: Seq<char>, at: int)
    requires
        verb.len() > 0,
        forall|i: int| 0 <= i < verb.len() ==> !text::blank(#[trigger] verb[i]),
        opens_with(sql, verb, at),
    ensures
        has_verb(sql, verb),
{
    let white = Separator::White;
    let front = sql.take(at);
    let word = sql.subrange(at, at + verb.len());
    let rest = sql.skip(at + verb.len());
    assert forall|i: int| 0 <= i < front.len() implies white.parts(#[trigger] front[i]) by {
        assert(text::blank(sql[i]));
        text::law_separators(' ', ' ', sql[i]);
    }
    assert forall|i: int| 0 <= i < word.len() implies !white.parts(#[trigger] word[i]) by {
        assert(text::one_letter(sql[at + i], verb[i]));
        assert(!text::blank(verb[i]));
        text::law_separators(' ', ' ', word[i]);
    }
    if rest.len() > 0 {
        text::law_separators(' ', ' ', rest[0]);
    }
    text::law_no_fields(front, white);
    text::law_fields_join(front, word + rest, white);
    text::lemma_first_field(word, rest, white);
    assert(sql =~= front + (word + rest));
    assert(text::fields(front, white) + text::fields(word + rest, white) =~= text::fields(
        word + rest,
        white,
    ));
    assert(text::fields(sql, white)[0] == word);
    assert forall|i: int| 0 <= i < word.len() implies #[trigger] text::one_letter(
        word[i],
        verb[i],
    ) by {
        assert(text::one_letter(sql[at + i], verb[i]));
    }
    text::law_same_word(word, verb);
}

/// Tables and Streams are seen as they are: every name, every value in its
/// place, NULL as none, and every byte.
pub proof fn law_tables_are_seen(
    arrived: Arrived,
    names: Seq<String>,
    borrowed_names: Seq<&str>,
    row: Seq<Option<Vec<u8>>>,
    rows: Seq<Vec<Option<Vec<u8>>>>,
    borrowed: Seq<Option<&[u8]>>,
    lent: Seq<&[Option<&[u8]>]>,
)
    ensures
        arrived@.origin_uri == arrived.origin_uri@,
        arrived@.bytes == arrived.bytes@,
        texts_view(names).len() == names.len(),
        forall|i: int| 0 <= i < names.len() ==> #[trigger] texts_view(names)[i] == names[i]@,
        text::views(borrowed_names).len() == borrowed_names.len(),
        forall|i: int|
            0 <= i < borrowed_names.len() ==> #[trigger] text::views(borrowed_names)[i]
                == borrowed_names[i]@,
        row_view(row).len() == row.len(),
        forall|i: int|
            0 <= i < row.len() ==> #[trigger] row_view(row)[i] == match row[i] {
                Some(bytes) => Some(bytes@),
                None => None,
            },
        rows_view(rows).len() == rows.len(),
        forall|i: int|
            0 <= i < rows.len() ==> #[trigger] rows_view(rows)[i] == row_view(rows[i]@),
        borrowed_row(borrowed).len() == borrowed.len(),
        forall|i: int|
            0 <= i < borrowed.len() ==> #[trigger] borrowed_row(borrowed)[i] == match borrowed[i] {
                Some(bytes) => Some(bytes@),
                None => None,
            },
        borrowed_rows(lent).len() == lent.len(),
        forall|i: int|
            0 <= i < lent.len() ==> #[trigger] borrowed_rows(lent)[i] == borrowed_row(lent[i]@),
{
}

} // verus!
