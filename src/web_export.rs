//! The library page of an e-reader's web site, saved as HTML: one `<h3>` with
//! the book's title, then `<span id="highlight">` and `<span id="note">`
//! elements with the annotations.
use vstd::prelude::*;
use crate::note::{BookNotes, Highlight, HighlightType, HighlightView};
use crate::text::{
    chars_of, find, find_char, find_char_from, find_from, lemma_find_from, matches_at,
    matches_here, string_of, trim, trimmed,
};

verus! {

/// Why a page gives no book.
#[derive(Debug, Clone, Copy, PartialEq, Eq, Structural)]
pub enum WebExportError {
    /// The page has no `<h3>` title.
    NoTitle,
}

/// The title of a page: after the first `<h3`, the text from the end of that
/// tag up to the next `<`.
pub open spec fn h3_title(s: Seq<char>) -> Option<Seq<char>> {
    match find_from(s, "<h3"@, 0) {
        None => None,
        Some(p) => match find_char_from(s, '>', p + "<h3"@.len()) {
            None => None,
            Some(q) => match find_char_from(s, '<', q + 1) {
                None => None,
                Some(e) => Some(s.subrange(q + 1, e)),
            },
        },
    }
}

/// The attribute that marks a highlight.
pub open spec fn id_highlight() -> Seq<char> {
    "id=\"highlight\""@
}

/// The attribute that marks a note.
pub open spec fn id_note() -> Seq<char> {
    "id=\"note\""@
}

/// The length of the attribute that marks `kind`.
pub open spec fn id_len(kind: HighlightType) -> int {
    match kind {
        HighlightType::Highlight => id_highlight().len() as int,
        HighlightType::Comment => id_note().len() as int,
    }
}

/// The first index `k >= i` at which `s` holds one of the two marking
/// attributes, with the kind that it marks.
pub open spec fn find_id(s: Seq<char>, i: int) -> Option<(int, HighlightType)>
    decreases s.len() + 1 - i,
{
    if i < 0 || i > s.len() {
        None
    } else if matches_at(s, i, id_highlight()) {
        Some((i, HighlightType::Highlight))
    } else if matches_at(s, i, id_note()) {
        Some((i, HighlightType::Comment))
    } else {
        find_id(s, i + 1)
    }
}

/// The first element `<span ... id="highlight|note" ...>inner</span>` that
/// starts at or after `p`: the first `<span`, the first marking attribute
/// after it, the first `>` after that, the first `</span>` after that. Gives
/// the kind, the inner text, and the index just past the element.
pub open spec fn next_span(s: Seq<char>, p: int) -> Option<(HighlightType, Seq<char>, int)> {
    match find_from(s, "<span"@, p) {
        None => None,
        Some(a) => match find_id(s, a + "<span"@.len()) {
            None => None,
            Some((q, kind)) => match find_char_from(s, '>', q + id_len(kind)) {
                None => None,
                Some(r) => match find_from(s, "</span>"@, r + 1) {
                    None => None,
                    Some(e) => Some((kind, s.subrange(r + 1, e), e + "</span>"@.len())),
                },
            },
        },
    }
}

/// The marked elements of `s` from index `p` on, in order, each after the end
/// of the one before.
pub open spec fn spans_from(s: Seq<char>, p: int) -> Seq<(HighlightType, Seq<char>)>
    decreases s.len() + 1 - p,
{
    if p < 0 || p > s.len() {
        seq![]
    } else {
        match next_span(s, p) {
            None => seq![],
            Some((kind, inner, end)) => if p < end <= s.len() {
                seq![(kind, inner)] + spans_from(s, end)
            } else {
                seq![]
            },
        }
    }
}

/// The marked elements of the page `s`.
pub open spec fn spans(s: Seq<char>) -> Seq<(HighlightType, Seq<char>)> {
    spans_from(s, 0)
}

/// The text of an element on one line: carriage returns and line feeds
/// become spaces, and the ends are trimmed.
pub open spec fn tidy(inner: Seq<char>) -> Seq<char> {
    trim(inner.map_values(|c: char| if c == '\r' || c == '\n' { ' ' } else { c }))
}

/// The annotations of the elements `sp`: those whose text is not empty.
pub open spec fn web_notes(sp: Seq<(HighlightType, Seq<char>)>) -> Seq<HighlightView>
    decreases sp.len(),
{
    if sp.len() == 0 {
        seq![]
    } else {
        let prev = web_notes(sp.drop_last());
        let t = tidy(sp.last().1);
        if t.len() == 0 {
            prev
        } else {
            prev.push(HighlightView { kind: sp.last().0, pages: None, date_added: None, body: t })
        }
    }
}

/// The title of the page `data`, if it has one.
pub fn get_h3_title(data: &str) -> (r: Option<String>)
    ensures
        match r {
            Some(t) => h3_title(data@) == Some(t@),
            None => h3_title(data@) is None,
        },
{
    let s = chars_of(data);
    title_of(&s)
}

fn title_of(s: &Vec<char>) -> (r: Option<String>)
    ensures
        match r {
            Some(t) => h3_title(s@) == Some(t@),
            None => h3_title(s@) is None,
        },
{
    let open = chars_of("<h3");
    let p = match find(s, &open, 0) {
        Some(p) => p,
        None => {
            return None;
        },
    };
    proof {
        lemma_find_from(s@, open@, 0);
    }
    let q = match find_char(s, '>', p + open.len()) {
        Some(q) => q,
        None => {
            return None;
        },
    };
    proof {
        lemma_find_from(s@, seq!['>'], p + open@.len());
    }
    let e = match find_char(s, '<', q + 1) {
        Some(e) => e,
        None => {
            return None;
        },
    };
    proof {
        lemma_find_from(s@, seq!['<'], q + 1);
    }
    Some(string_of(s, q + 1, e))
}

/// The first marking attribute at or after `from`.
fn find_id_at(s: &Vec<char>, from: usize, hl: &Vec<char>, nt: &Vec<char>) -> (r: Option<
    (usize, HighlightType),
>)
    requires
        hl@ == id_highlight(),
        nt@ == id_note(),
    ensures
        match r {
            Some((q, kind)) => find_id(s@, from as int) == Some((q as int, kind)) && from <= q
                && q + id_len(kind) <= s.len(),
            None => find_id(s@, from as int) is None,
        },
{
    let n = s.len();
    let mut i: usize = from;
    if i > n {
        return None;
    }
    while i <= n
        invariant
            from <= i <= n,
            n == s.len(),
            hl@ == id_highlight(),
            nt@ == id_note(),
            find_id(s@, from as int) == find_id(s@, i as int),
        decreases s.len() + 1 - i,
    {
        if matches_here(s, i, hl) {
            return Some((i, HighlightType::Highlight));
        }
        if matches_here(s, i, nt) {
            return Some((i, HighlightType::Comment));
        }
        if i == n {
            assert(find_id(s@, i + 1) is None);
            return None;
        }
        i = i + 1;
    }
    None
}

/// The next marked element at or after `p`: its kind, where its inner text
/// starts and ends, and the index just past it.
fn next_span_at(s: &Vec<char>, p: usize) -> (r: Option<(HighlightType, usize, usize, usize)>)
    ensures
        match r {
            Some((kind, a, b, end)) => a <= b <= s.len() && p < end <= s.len() && next_span(s@, p as int)
                == Some((kind, s@.subrange(a as int, b as int), end as int)),
            None => next_span(s@, p as int) is None,
        },
{
    let open = chars_of("<span");
    let hl = chars_of("id=\"highlight\"");
    let nt = chars_of("id=\"note\"");
    let close = chars_of("</span>");
    let a = match find(s, &open, p) {
        Some(a) => a,
        None => {
            return None;
        },
    };
    proof {
        lemma_find_from(s@, open@, p as int);
    }
    let (q, kind) = match find_id_at(s, a + open.len(), &hl, &nt) {
        Some(found) => found,
        None => {
            return None;
        },
    };
    let id_end = match kind {
        HighlightType::Highlight => q + hl.len(),
        HighlightType::Comment => q + nt.len(),
    };
    let r = match find_char(s, '>', id_end) {
        Some(r) => r,
        None => {
            return None;
        },
    };
    proof {
        lemma_find_from(s@, seq!['>'], id_end as int);
    }
    let e = match find(s, &close, r + 1) {
        Some(e) => e,
        None => {
            return None;
        },
    };
    proof {
        lemma_find_from(s@, close@, r + 1);
        reveal_strlit("</span>");
    }
    Some((kind, r + 1, e, e + close.len()))
}

/// The inner text from `a` to `b` on one line and trimmed.
fn tidy_of(s: &Vec<char>, a: usize, b: usize) -> (r: Vec<char>)
    requires
        a <= b <= s.len(),
    ensures
        r@ == tidy(s@.subrange(a as int, b as int)),
{
    let ghost inner = s@.subrange(a as int, b as int);
    let mut line: Vec<char> = Vec::new();
    let mut i: usize = a;
    while i < b
        invariant
            a <= i <= b <= s.len(),
            inner == s@.subrange(a as int, b as int),
            line@ =~= inner.subrange(0, i - a).map_values(
                |c: char|
                    if c == '\r' || c == '\n' {
                        ' '
                    } else {
                        c
                    },
            ),
        decreases b - i,
    {
        let c = s[i];
        if c == '\r' || c == '\n' {
            line.push(' ');
        } else {
            line.push(c);
        }
        i = i + 1;
    }
    assert(inner.subrange(0, b - a) =~= inner);
    trimmed(&line)
}

/// Parses a saved library page: the book named by its `<h3>` title, with the
/// non-empty highlights and notes in the order of the page.
pub fn parse(data: &str) -> (r: Result<BookNotes, WebExportError>)
    ensures
        match r {
            Ok(b) => h3_title(data@) == Some(b.title@) && b@.notes == web_notes(spans(data@))
                && b.mru_indice == 0,
            Err(e) => h3_title(data@) is None && e == WebExportError::NoTitle,
        },
{
    let s = chars_of(data);
    let title = match title_of(&s) {
        Some(t) => t,
        None => {
            return Err(WebExportError::NoTitle);
        },
    };
    let mut notes: Vec<Highlight> = Vec::new();
    let mut pos: usize = 0;
    let ghost mut done: Seq<(HighlightType, Seq<char>)> = seq![];
    let mut next = next_span_at(&s, 0);
    assert(notes@.map_values(|h: Highlight| h@) =~= web_notes(done));
    while next.is_some()
        invariant
            s@ == data@,
            pos <= s.len(),
            spans(s@) == done + spans_from(s@, pos as int),
            match next {
                Some((kind, a, b, end)) => a <= b <= s.len() && pos < end <= s.len() && next_span(
                    s@,
                    pos as int,
                ) == Some((kind, s@.subrange(a as int, b as int), end as int)),
                None => next_span(s@, pos as int) is None,
            },
            notes@.map_values(|h: Highlight| h@) == web_notes(done),
        decreases s.len() - pos,
    {
        let (kind, a, b, end) = next.unwrap();
        let t = tidy_of(&s, a, b);
        let ghost item = (kind, s@.subrange(a as int, b as int));
        let ghost old_notes = notes@;
        if t.len() > 0 {
            let h = Highlight {
                highlight_type: kind,
                pages: None,
                date_added: None,
                highlight: string_of(&t, 0, t.len()),
            };
            assert(t@.subrange(0, t.len() as int) =~= t@);
            notes.push(h);
            assert(notes@.map_values(|h: Highlight| h@) =~= old_notes.map_values(|h: Highlight| h@).push(h@));
        }
        proof {
            let nd = done.push(item);
            assert(nd.drop_last() =~= done);
            assert(done + spans_from(s@, pos as int) =~= nd + spans_from(s@, end as int));
            done = nd;
        }
        pos = end;
        next = next_span_at(&s, pos);
    }
    proof {
        assert(spans_from(s@, pos as int) =~= seq![]);
        assert(done + seq![] =~= done);
    }
    Ok(BookNotes { title, highlights: notes, mru_indice: 0 })
}

/// The annotations of a page never have an empty text, and never a
/// location or a date.
pub proof fn lemma_web_notes_not_empty(sp: Seq<(HighlightType, Seq<char>)>)
    ensures
        forall|i: int|
            0 <= i < web_notes(sp).len() ==> #[trigger] web_notes(sp)[i].body.len() > 0
                && web_notes(sp)[i].pages is None && web_notes(sp)[i].date_added is None,
    decreases sp.len(),
{
    if sp.len() > 0 {
        lemma_web_notes_not_empty(sp.drop_last());
    }
}

} // verus!
