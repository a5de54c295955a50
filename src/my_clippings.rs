//! The plain-text log of an e-reader: records separated by a line of ten `=`,
//! each with a title line, a metadata line and the annotation's text.
use vstd::prelude::*;
use crate::note::{book_views, BookNotes, BookView, Highlight, HighlightType, HighlightView};
use crate::text::{
    chars_of, find, find_char, find_char_from, find_from, lemma_find_from, lines, lines_of,
    matches_here, slice_of, starts_with, string_of, trim, trimmed,
};

verus! {

/// Why a record of the log gives no annotation.
#[derive(Debug, Clone, Copy, PartialEq, Eq, Structural)]
pub enum RecordError {
    /// The record holds nothing at all.
    Empty,
    /// The title line is blank.
    NoTitle,
    /// There is no metadata line.
    NoMetadata,
    /// The metadata line has neither `on page ` nor `at location `.
    NoLocation,
    /// No `|` follows the location.
    NoSeparator,
    /// The metadata line has no `Added on`.
    NoDate,
}

/// The line that ends each record: ten `=` and a carriage return, line feed.
pub open spec fn delimiter() -> Seq<char> {
    Seq::new(10, |i: int| '=') + seq!['\r', '\n']
}

/// The records of `s` from index `p` on: the pieces between delimiters.
pub open spec fn records_from(s: Seq<char>, p: int) -> Seq<Seq<char>>
    decreases s.len() + 1 - p,
{
    if p < 0 || p > s.len() {
        seq![]
    } else {
        match find_from(s, delimiter(), p) {
            None => seq![s.subrange(p, s.len() as int)],
            Some(k) => if p <= k && k + delimiter().len() <= s.len() {
                seq![s.subrange(p, k)] + records_from(s, k + delimiter().len())
            } else {
                seq![]
            },
        }
    }
}

/// The records of the log `s`, as `str::split` on the delimiter gives them.
pub open spec fn records(s: Seq<char>) -> Seq<Seq<char>> {
    records_from(s, 0)
}

/// `t` without a leading byte order mark.
pub open spec fn strip_bom(t: Seq<char>) -> Seq<char> {
    if t.len() > 0 && t[0] == '\u{feff}' {
        t.drop_first()
    } else {
        t
    }
}

/// The title of a record: its first line, trimmed, without a byte order mark.
pub open spec fn record_title(r: Seq<char>) -> Seq<char> {
    if lines(r).len() == 0 {
        seq![]
    } else {
        strip_bom(trim(lines(r)[0]))
    }
}

/// Where the location starts in a metadata line: after `on page `, or else
/// after `at location `.
pub open spec fn location_start(m: Seq<char>) -> Option<int> {
    match find_from(m, "on page "@, 0) {
        Some(k) => Some(k + "on page "@.len()),
        None => match find_from(m, "at location "@, 0) {
            Some(k) => Some(k + "at location "@.len()),
            None => None,
        },
    }
}

/// The text of `s` before its first `-`, all of it if there is none.
pub open spec fn before_dash(s: Seq<char>) -> Seq<char> {
    match find_char_from(s, '-', 0) {
        Some(k) => s.subrange(0, k),
        None => s,
    }
}

/// First and last page of a location field `a-b`; a single value is both.
pub open spec fn split_pages(loc: Seq<char>) -> (Seq<char>, Seq<char>) {
    match find_char_from(loc, '-', 0) {
        Some(k) => (loc.subrange(0, k), before_dash(loc.subrange(k + 1, loc.len() as int))),
        None => (loc, loc),
    }
}

/// The text of the lines `ls`, each trimmed, put together.
pub open spec fn concat_trimmed(ls: Seq<Seq<char>>) -> Seq<char>
    decreases ls.len(),
{
    if ls.len() == 0 {
        seq![]
    } else {
        concat_trimmed(ls.drop_last()) + trim(ls.last())
    }
}

/// What keeps record `r` from giving an annotation, if anything.
pub open spec fn record_error(r: Seq<char>) -> Option<RecordError> {
    if r.len() == 0 {
        Some(RecordError::Empty)
    } else if record_title(r).len() == 0 {
        Some(RecordError::NoTitle)
    } else if lines(r).len() < 2 {
        Some(RecordError::NoMetadata)
    } else {
        let m = lines(r)[1];
        match location_start(m) {
            None => Some(RecordError::NoLocation),
            Some(i1) => match find_char_from(m, '|', i1) {
                None => Some(RecordError::NoSeparator),
                Some(_) => match find_from(m, "Added on"@, 0) {
                    None => Some(RecordError::NoDate),
                    Some(_) => None,
                },
            },
        }
    }
}

/// The annotation of a well-formed record `r`.
pub open spec fn record_highlight(r: Seq<char>) -> HighlightView {
    let m = lines(r)[1];
    let i1 = location_start(m)->0;
    let i2 = find_char_from(m, '|', i1)->0;
    let loc = m.subrange(i1, if i2 > i1 { i2 - 1 } else { i1 });
    let ds = find_from(m, "Added on"@, 0)->0 + "Added on"@.len() + 1;
    HighlightView {
        kind: if starts_with(m, "- Your Highlight"@) {
            HighlightType::Highlight
        } else {
            HighlightType::Comment
        },
        pages: Some(split_pages(loc)),
        date_added: Some(
            if ds <= m.len() {
                m.subrange(ds, m.len() as int)
            } else {
                seq![]
            },
        ),
        body: trim(concat_trimmed(lines(r).subrange(2, lines(r).len() as int))),
    }
}

/// The title and annotation of record `r`, or why it has none.
pub open spec fn parse_record(r: Seq<char>) -> Result<(Seq<char>, HighlightView), RecordError> {
    match record_error(r) {
        Some(e) => Err(e),
        None => Ok((record_title(r), record_highlight(r))),
    }
}

/// The characters of the delimiter line.
pub(crate) fn delimiter_chars() -> (r: Vec<char>)
    ensures
        r@ == delimiter(),
{
    let r = vec!['=', '=', '=', '=', '=', '=', '=', '=', '=', '=', '\r', '\n'];
    assert(r@ =~= delimiter());
    r
}

/// `t` without a leading byte order mark.
fn without_bom(t: Vec<char>) -> (r: Vec<char>)
    ensures
        r@ == strip_bom(t@),
{
    if t.len() > 0 && t[0] == '\u{feff}' {
        slice_of(&t, 1, t.len())
    } else {
        t
    }
}

/// The text before the first `-` of `s`.
fn before_dash_of(s: &Vec<char>) -> (r: String)
    ensures
        r@ == before_dash(s@),
{
    match find_char(s, '-', 0) {
        Some(k) => {
            proof {
                lemma_find_from(s@, seq!['-'], 0);
            }
            string_of(s, 0, k)
        },
        None => {
            assert(s@.subrange(0, s.len() as int) =~= s@);
            string_of(s, 0, s.len())
        },
    }
}

/// First and last page of the location field `loc`.
fn pages_of(loc: &Vec<char>) -> (r: (String, String))
    ensures
        (r.0@, r.1@) == split_pages(loc@),
{
    let n = loc.len();
    match find_char(loc, '-', 0) {
        Some(k) => {
            proof {
                lemma_find_from(loc@, seq!['-'], 0);
            }
            let rest = slice_of(loc, k + 1, n);
            (string_of(loc, 0, k), before_dash_of(&rest))
        },
        None => {
            assert(loc@.subrange(0, loc.len() as int) =~= loc@);
            (string_of(loc, 0, loc.len()), string_of(loc, 0, loc.len()))
        },
    }
}

/// Parses one record of the log: its title and its annotation, or why it has
/// none.
pub fn parse_note(note: &str) -> (res: Result<(String, Highlight), RecordError>)
    ensures
        match res {
            Ok((t, h)) => parse_record(note@) == Ok::<(Seq<char>, HighlightView), RecordError>(
                (t@, h@),
            ),
            Err(e) => parse_record(note@) == Err::<(Seq<char>, HighlightView), RecordError>(e),
        },
{
    let cs = chars_of(note);
    parse_record_chars(&cs)
}

pub(crate) fn parse_record_chars(r: &Vec<char>) -> (res: Result<(String, Highlight), RecordError>)
    ensures
        match res {
            Ok((t, h)) => parse_record(r@) == Ok::<(Seq<char>, HighlightView), RecordError>(
                (t@, h@),
            ),
            Err(e) => parse_record(r@) == Err::<(Seq<char>, HighlightView), RecordError>(e),
        },
{
    if r.len() == 0 {
        return Err(RecordError::Empty);
    }
    let ls = lines_of(r);
    let ghost lv = ls@.map_values(|l: Vec<char>| l@);
    assert(lv == lines(r@));
    let title = if ls.len() == 0 {
        Vec::new()
    } else {
        without_bom(trimmed(&ls[0]))
    };
    assert(title@ == record_title(r@));
    if title.len() == 0 {
        return Err(RecordError::NoTitle);
    }
    if ls.len() < 2 {
        return Err(RecordError::NoMetadata);
    }
    let m = &ls[1];
    let m_len = m.len();
    assert(m@ == lines(r@)[1]);
    let on_page = chars_of("on page ");
    let at_location = chars_of("at location ");
    let i1 = match find(m, &on_page, 0) {
        Some(k) => {
            proof {
                lemma_find_from(m@, on_page@, 0);
            }
            k + on_page.len()
        },
        None => match find(m, &at_location, 0) {
            Some(k) => {
                proof {
                    lemma_find_from(m@, at_location@, 0);
                }
                k + at_location.len()
            },
            None => {
                return Err(RecordError::NoLocation);
            },
        },
    };
    assert(location_start(m@) == Some(i1 as int));
    let i2 = match find_char(m, '|', i1) {
        Some(k) => k,
        None => {
            return Err(RecordError::NoSeparator);
        },
    };
    proof {
        lemma_find_from(m@, seq!['|'], i1 as int);
    }
    let added_on = chars_of("Added on");
    let d = match find(m, &added_on, 0) {
        Some(k) => k,
        None => {
            return Err(RecordError::NoDate);
        },
    };
    proof {
        lemma_find_from(m@, added_on@, 0);
    }
    let loc_end = if i2 > i1 {
        i2 - 1
    } else {
        i1
    };
    let loc = slice_of(m, i1, loc_end);
    let pages = pages_of(&loc);
    let ds = d + added_on.len();
    let date = if ds < m_len {
        string_of(m, ds + 1, m_len)
    } else {
        String::new()
    };
    let is_highlight = matches_here(m, 0, &chars_of("- Your Highlight"));
    let mut text: Vec<char> = Vec::new();
    let mut j: usize = 2;
    while j < ls.len()
        invariant
            2 <= j <= ls.len(),
            lv == ls@.map_values(|l: Vec<char>| l@),
            text@ == concat_trimmed(lv.subrange(2, j as int)),
        decreases ls.len() - j,
    {
        let mut t = trimmed(&ls[j]);
        assert(lv.subrange(2, j + 1).drop_last() =~= lv.subrange(2, j as int));
        text.append(&mut t);
        j = j + 1;
    }
    let body = trimmed(&text);
    let title_text = string_of(&title, 0, title.len());
    assert(title@.subrange(0, title.len() as int) =~= title@);
    let h = Highlight {
        highlight_type: if is_highlight {
            HighlightType::Highlight
        } else {
            HighlightType::Comment
        },
        pages: Some(pages),
        date_added: Some(date),
        highlight: string_of(&body, 0, body.len()),
    };
    assert(body@.subrange(0, body.len() as int) =~= body@);
    assert(h@ == record_highlight(r@));
    Ok((title_text, h))
}

/// The first index `k >= j` of a book of `books` titled `t`.
pub open spec fn index_from(books: Seq<BookView>, t: Seq<char>, j: int) -> Option<int>
    decreases books.len() - j,
{
    if j < 0 || j >= books.len() {
        None
    } else if books[j].title == t {
        Some(j)
    } else {
        index_from(books, t, j + 1)
    }
}

/// Where the book titled `t` stands in `books`, if it is there.
pub open spec fn book_index(books: Seq<BookView>, t: Seq<char>) -> Option<int> {
    index_from(books, t, 0)
}

/// `books` once annotation `h` of the book titled `t`, from record `i`, is
/// added: to the end of that book's annotations, or as a new book at the end.
pub open spec fn add_note(books: Seq<BookView>, t: Seq<char>, h: HighlightView, i: nat) -> Seq<
    BookView,
> {
    match book_index(books, t) {
        Some(j) => books.update(j, BookView { title: t, notes: books[j].notes.push(h), mru: i }),
        None => books.push(BookView { title: t, notes: seq![h], mru: i }),
    }
}

/// `books` once record `r`, the record of index `i`, is read.
pub open spec fn log_step(books: Seq<BookView>, r: Seq<char>, i: nat) -> Seq<BookView> {
    match parse_record(r) {
        Ok((t, h)) => add_note(books, t, h, i),
        Err(_) => books,
    }
}

/// The books that the records `recs` give, read in order.
pub open spec fn log_books(recs: Seq<Seq<char>>) -> Seq<BookView>
    decreases recs.len(),
{
    if recs.len() == 0 {
        seq![]
    } else {
        log_step(log_books(recs.drop_last()), recs.last(), (recs.len() - 1) as nat)
    }
}

/// 1 for a record that holds something yet gives no annotation, else 0.
pub open spec fn skip_count(r: Seq<char>) -> nat {
    match record_error(r) {
        Some(e) => if e == RecordError::Empty {
            0
        } else {
            1
        },
        None => 0,
    }
}

/// How many of the records `recs` were skipped.
pub open spec fn log_skipped(recs: Seq<Seq<char>>) -> nat
    decreases recs.len(),
{
    if recs.len() == 0 {
        0
    } else {
        log_skipped(recs.drop_last()) + skip_count(recs.last())
    }
}

/// What a log holds: its books, in the order in which each first appears,
/// and how many records were skipped as malformed.
#[derive(Debug)]
pub struct Clippings {
    pub books: Vec<BookNotes>,
    pub skipped: usize,
}

/// Adds annotation `h` of the book titled `title`, from record `idx`.
fn add_to_books(books: &mut Vec<BookNotes>, title: String, h: Highlight, idx: usize)
    ensures
        book_views(final(books)@) == add_note(book_views(old(books)@), title@, h@, idx as nat),
{
    let ghost bv = book_views(books@);
    let mut j: usize = 0;
    while j < books.len()
        invariant
            j <= books.len(),
            bv == book_views(old(books)@),
            books@ == old(books)@,
            book_index(bv, title@) == index_from(bv, title@, j as int),
        decreases books.len() - j,
    {
        if books[j].title == title {
            let ghost old_books = books@;
            let mut b = books.remove(j);
            b.highlights.push(h);
            b.mru_indice = idx;
            books.insert(j, b);
            assert(books@ =~= old_books.update(j as int, b));
            assert(b@.notes =~= bv[j as int].notes.push(h@));
            assert(book_views(books@) =~= add_note(bv, title@, h@, idx as nat));
            return;
        }
        j = j + 1;
    }
    let mut hs: Vec<Highlight> = Vec::new();
    hs.push(h);
    let b = BookNotes { title, highlights: hs, mru_indice: idx };
    books.push(b);
    assert(b@.notes =~= seq![h@]);
    assert(book_views(books@) =~= add_note(bv, title@, h@, idx as nat));
}

/// Reads record `rec`, the record of index `idx`.
fn add_record(books: &mut Vec<BookNotes>, skipped: &mut usize, rec: &Vec<char>, idx: usize)
    requires
        rec@.len() > 0 ==> *old(skipped) < usize::MAX,
    ensures
        book_views(final(books)@) == log_step(book_views(old(books)@), rec@, idx as nat),
        *final(skipped) == *old(skipped) + skip_count(rec@),
{
    match parse_record_chars(rec) {
        Ok((title, h)) => {
            add_to_books(books, title, h, idx);
        },
        Err(e) => {
            if e != RecordError::Empty {
                *skipped = *skipped + 1;
            }
        },
    }
}

/// Parses a whole log: each well-formed record adds its annotation to the
/// book of its title, which takes the record's index as its latest; records
/// that hold something but are malformed are counted and skipped.
pub fn parse(data: &str) -> (r: Clippings)
    ensures
        book_views(r.books@) == log_books(records(data@)),
        r.skipped == log_skipped(records(data@)),
{
    let s = chars_of(data);
    let s_len = s.len();
    let delim = delimiter_chars();
    let mut books: Vec<BookNotes> = Vec::new();
    let mut skipped: usize = 0;
    let mut pos: usize = 0;
    let mut idx: usize = 0;
    let ghost mut done: Seq<Seq<char>> = seq![];
    let mut next = find(&s, &delim, 0);
    assert(book_views(books@) =~= log_books(done));
    while next.is_some()
        invariant
            s@ == data@,
            s_len == s.len(),
            delim@ == delimiter(),
            pos <= s.len(),
            idx == done.len(),
            idx <= pos,
            skipped <= idx,
            records(s@) == done + records_from(s@, pos as int),
            match next {
                Some(k) => find_from(s@, delimiter(), pos as int) == Some(k as int),
                None => find_from(s@, delimiter(), pos as int) is None,
            },
            book_views(books@) == log_books(done),
            skipped == log_skipped(done),
        decreases s.len() - pos,
    {
        let k = next.unwrap();
        proof {
            lemma_find_from(s@, delimiter(), pos as int);
        }
        let rec = slice_of(&s, pos, k);
        add_record(&mut books, &mut skipped, &rec, idx);
        proof {
            let nd = done.push(rec@);
            assert(nd.drop_last() =~= done);
            assert(records_from(s@, pos as int) == seq![rec@] + records_from(
                s@,
                k + delimiter().len(),
            ));
            assert(done + records_from(s@, pos as int) =~= nd + records_from(
                s@,
                k + delimiter().len(),
            ));
            done = nd;
        }
        idx = idx + 1;
        pos = k + delim.len();
        next = find(&s, &delim, pos);
    }
    let rec = slice_of(&s, pos, s_len);
    add_record(&mut books, &mut skipped, &rec, idx);
    proof {
        let nd = done.push(rec@);
        assert(nd.drop_last() =~= done);
        assert(records_from(s@, pos as int) == seq![rec@]);
        assert(done + seq![rec@] =~= nd);
        done = nd;
    }
    Clippings { books, skipped }
}

/// How many of the records `recs` give an annotation of the book titled `t`.
pub open spec fn count_titled(recs: Seq<Seq<char>>, t: Seq<char>) -> nat
    decreases recs.len(),
{
    if recs.len() == 0 {
        0
    } else {
        count_titled(recs.drop_last(), t) + match parse_record(recs.last()) {
            Ok((u, _)) => if u == t {
                1nat
            } else {
                0nat
            },
            Err(_) => 0nat,
        }
    }
}

/// How many annotations the book titled `t` has in `books` (none if absent).
pub open spec fn notes_of(books: Seq<BookView>, t: Seq<char>) -> nat {
    match book_index(books, t) {
        Some(j) => books[j].notes.len(),
        None => 0,
    }
}

proof fn lemma_index_from_found(books: Seq<BookView>, t: Seq<char>, k: int)
    requires
        0 <= k,
    ensures
        match index_from(books, t, k) {
            Some(j) => k <= j < books.len() && books[j].title == t && forall|m: int|
                k <= m < j ==> books[m].title != t,
            None => forall|m: int| k <= m < books.len() ==> books[m].title != t,
        },
    decreases books.len() - k,
{
    if k < books.len() && books[k].title != t {
        lemma_index_from_found(books, t, k + 1);
    }
}

proof fn lemma_index_from_update(
    books: Seq<BookView>,
    t: Seq<char>,
    j0: int,
    nb: BookView,
    k: int,
)
    requires
        0 <= j0 < books.len(),
        nb.title == books[j0].title,
    ensures
        index_from(books.update(j0, nb), t, k) == index_from(books, t, k),
    decreases books.len() - k,
{
    if 0 <= k < books.len() && books[k].title != t {
        lemma_index_from_update(books, t, j0, nb, k + 1);
    }
}

proof fn lemma_index_from_push(books: Seq<BookView>, t: Seq<char>, nb: BookView, k: int)
    requires
        0 <= k <= books.len(),
    ensures
        index_from(books.push(nb), t, k) == match index_from(books, t, k) {
            Some(x) => Some(x),
            None => if nb.title == t {
                Some(books.len() as int)
            } else {
                None
            },
        },
    decreases books.len() - k,
{
    if k < books.len() {
        assert(books.push(nb)[k] == books[k]);
        if books[k].title != t {
            lemma_index_from_push(books, t, nb, k + 1);
        }
    } else {
        assert(books.push(nb)[k] == nb);
        assert(index_from(books.push(nb), t, k + 1) is None);
    }
}

proof fn lemma_add_note_counts(books: Seq<BookView>, u: Seq<char>, h: HighlightView, i: nat, t: Seq<char>)
    ensures
        notes_of(add_note(books, u, h, i), t) == notes_of(books, t) + if u == t {
            1nat
        } else {
            0nat
        },
{
    lemma_index_from_found(books, u, 0);
    match book_index(books, u) {
        Some(j) => {
            let nb = BookView { title: u, notes: books[j].notes.push(h), mru: i };
            lemma_index_from_update(books, t, j, nb, 0);
            lemma_index_from_found(books, t, 0);
        },
        None => {
            let nb = BookView { title: u, notes: seq![h], mru: i };
            lemma_index_from_push(books, t, nb, 0);
            lemma_index_from_found(books, t, 0);
        },
    }
}

proof fn lemma_counts(recs: Seq<Seq<char>>, t: Seq<char>)
    ensures
        notes_of(log_books(recs), t) == count_titled(recs, t),
    decreases recs.len(),
{
    if recs.len() > 0 {
        lemma_counts(recs.drop_last(), t);
        match parse_record(recs.last()) {
            Ok((u, h)) => {
                lemma_add_note_counts(
                    log_books(recs.drop_last()),
                    u,
                    h,
                    (recs.len() - 1) as nat,
                    t,
                );
            },
            Err(_) => {},
        }
    }
}

/// No well-formed record is lost: for every log and every title, the book of
/// that title holds exactly as many annotations as there are records that
/// parse to that title.
pub proof fn lemma_no_record_dropped(data: Seq<char>, t: Seq<char>)
    ensures
        notes_of(log_books(records(data)), t) == count_titled(records(data), t),
{
    lemma_counts(records(data), t);
}

/// Each book read from `recs` took its latest index from a record of `recs`,
/// and no two books took the same one.
pub proof fn lemma_distinct_indices(recs: Seq<Seq<char>>)
    ensures
        forall|j: int|
            0 <= j < log_books(recs).len() ==> #[trigger] log_books(recs)[j].mru < recs.len(),
        forall|j: int, k: int|
            0 <= j < k < log_books(recs).len() ==> #[trigger] log_books(recs)[j].mru
                != #[trigger] log_books(recs)[k].mru,
    decreases recs.len(),
{
    if recs.len() > 0 {
        lemma_distinct_indices(recs.drop_last());
        let prev = log_books(recs.drop_last());
        match parse_record(recs.last()) {
            Ok((u, h)) => {
                lemma_index_from_found(prev, u, 0);
            },
            Err(_) => {},
        }
    }
}

/// The books read from any records are keyed by title: no two share a title,
/// no title is empty, and each book holds at least one annotation.
pub proof fn lemma_books_keyed_by_title(recs: Seq<Seq<char>>)
    ensures
        forall|j: int, k: int|
            0 <= j < k < log_books(recs).len() ==> #[trigger] log_books(recs)[j].title
                != #[trigger] log_books(recs)[k].title,
        forall|j: int|
            0 <= j < log_books(recs).len() ==> #[trigger] log_books(recs)[j].title.len() > 0
                && log_books(recs)[j].notes.len() > 0,
    decreases recs.len(),
{
    if recs.len() > 0 {
        lemma_books_keyed_by_title(recs.drop_last());
        let prev = log_books(recs.drop_last());
        match parse_record(recs.last()) {
            Ok((u, h)) => {
                lemma_index_from_found(prev, u, 0);
            },
            Err(_) => {},
        }
    }
}

} // verus!
