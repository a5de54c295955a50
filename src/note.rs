//! Books and their annotations, the file name a book is written under, and
//! the text of the notes file for a book.
use vstd::prelude::*;
use crate::text::{chars_of, push_char};

verus! {

/// Whether an annotation is an excerpt of the book or a note of the reader.
#[derive(Debug, Clone, Copy, PartialEq, Eq, Structural)]
pub enum HighlightType {
    Highlight,
    Comment,
}

/// One highlight or note.
#[derive(Debug)]
pub struct Highlight {
    pub highlight_type: HighlightType,
    /// First and last page (or location) of the annotation, where the source
    /// gives them.
    pub pages: Option<(String, String)>,
    /// When the annotation was made, as the source writes it.
    pub date_added: Option<String>,
    /// The annotation's text.
    pub highlight: String,
}

/// What a `Highlight` holds, as sequences of characters.
pub struct HighlightView {
    pub kind: HighlightType,
    pub pages: Option<(Seq<char>, Seq<char>)>,
    pub date_added: Option<Seq<char>>,
    pub body: Seq<char>,
}

impl View for Highlight {
    type V = HighlightView;

    open spec fn view(&self) -> HighlightView {
        HighlightView {
            kind: self.highlight_type,
            pages: match self.pages {
                Some(p) => Some((p.0@, p.1@)),
                None => None,
            },
            date_added: match self.date_added {
                Some(d) => Some(d@),
                None => None,
            },
            body: self.highlight@,
        }
    }
}

/// All annotations of one book.
#[derive(Debug)]
pub struct BookNotes {
    pub title: String,
    /// The annotations, in the order in which the source holds them.
    pub highlights: Vec<Highlight>,
    /// Index, among all records of the source, of the last record of this book.
    pub mru_indice: usize,
}

/// What a `BookNotes` holds, as sequences of characters.
pub struct BookView {
    pub title: Seq<char>,
    pub notes: Seq<HighlightView>,
    pub mru: nat,
}

impl View for BookNotes {
    type V = BookView;

    open spec fn view(&self) -> BookView {
        BookView {
            title: self.title@,
            notes: self.highlights@.map_values(|h: Highlight| h@),
            mru: self.mru_indice as nat,
        }
    }
}

/// What each book of `bs` holds.
pub open spec fn book_views(bs: Seq<BookNotes>) -> Seq<BookView> {
    bs.map_values(|b: BookNotes| b@)
}

/// Characters that are dropped from a file name.
pub open spec fn is_reserved(c: char) -> bool {
    c == '(' || c == ')' || c == ',' || c == ':'
}

/// `c` is an ASCII character.
pub open spec fn is_ascii_char(c: char) -> bool {
    (c as u32) < 128
}

/// `c` is an ASCII uppercase letter.
pub open spec fn is_ascii_upper(c: char) -> bool {
    'A' <= c && c <= 'Z'
}

/// The lowercase mapping of one character, as `char::to_lowercase` gives it.
pub uninterp spec fn char_lower(c: char) -> Seq<char>;

/// The lowercase form of `c`: for an ASCII character the ASCII mapping, for
/// any other the Unicode one.
pub open spec fn lower(c: char) -> Seq<char> {
    if is_ascii_upper(c) {
        seq![((c as u32) + 32) as char]
    } else if is_ascii_char(c) {
        seq![c]
    } else {
        char_lower(c)
    }
}

/// What one character of a title becomes in a file name.
pub open spec fn stem_piece(c: char) -> Seq<char> {
    if is_reserved(c) {
        seq![]
    } else if c == ' ' {
        seq!['-']
    } else {
        lower(c)
    }
}

/// The file name stem for a title: reserved characters dropped, spaces turned
/// into dashes, everything else lowercased.
pub open spec fn stem(t: Seq<char>) -> Seq<char>
    decreases t.len(),
{
    if t.len() == 0 {
        seq![]
    } else {
        stem(t.drop_last()) + stem_piece(t.last())
    }
}

/// Relies on `char::to_lowercase`: the lowercase mapping of a character, which
/// depends on that character alone.
#[verifier::external_body]
fn lowercase_char(c: char) -> (r: String)
    ensures
        r@ == char_lower(c),
{
    c.to_lowercase().to_string()
}

/// The file name stem for the title `t`.
pub fn sanitize(t: &str) -> (r: String)
    ensures
        r@ == stem(t@),
{
    let cs = chars_of(t);
    let mut r = String::new();
    let mut i: usize = 0;
    while i < cs.len()
        invariant
            i <= cs.len(),
            cs@ == t@,
            r@ == stem(cs@.take(i as int)),
        decreases cs.len() - i,
    {
        let c = cs[i];
        assert(cs@.take(i + 1).drop_last() =~= cs@.take(i as int));
        if c == '(' || c == ')' || c == ',' || c == ':' {
        } else if c == ' ' {
            push_char(&mut r, '-');
        } else if 'A' <= c && c <= 'Z' {
            push_char(&mut r, ((c as u8) + 32) as char);
        } else if (c as u32) < 128 {
            push_char(&mut r, c);
        } else {
            let piece = lowercase_char(c);
            r.append(piece.as_str());
        }
        i = i + 1;
    }
    assert(cs@.take(cs.len() as int) =~= cs@);
    r
}

proof fn lemma_stem_concat(a: Seq<char>, b: Seq<char>)
    ensures
        stem(a + b) == stem(a) + stem(b),
    decreases b.len(),
{
    if b.len() == 0 {
        assert(a + b =~= a);
        assert(stem(a) + stem(b) =~= stem(a));
    } else {
        assert((a + b).drop_last() =~= a + b.drop_last());
        lemma_stem_concat(a, b.drop_last());
        assert(stem(a) + stem(b.drop_last()) + stem_piece(b.last()) =~= stem(a) + (stem(
            b.drop_last(),
        ) + stem_piece(b.last())));
    }
}

proof fn lemma_stem_single(c: char)
    ensures
        stem(seq![c]) == stem_piece(c),
{
    assert(seq![c].drop_last() =~= Seq::<char>::empty());
    assert(stem(Seq::<char>::empty()) + stem_piece(c) =~= stem_piece(c));
}

/// Every character of `s` is an ASCII character.
pub open spec fn all_ascii(s: Seq<char>) -> bool {
    forall|i: int| 0 <= i < s.len() ==> is_ascii_char(#[trigger] s[i])
}

/// For a title made of ASCII characters, the file name stem holds no reserved
/// character and no uppercase letter, and taking the stem once more changes
/// nothing.
pub proof fn lemma_filestem_idempotent(t: Seq<char>)
    requires
        all_ascii(t),
    ensures
        stem(stem(t)) == stem(t),
        all_ascii(stem(t)),
        forall|i: int|
            0 <= i < stem(t).len() ==> !is_reserved(#[trigger] stem(t)[i]) && !is_ascii_upper(
                stem(t)[i],
            ) && stem(t)[i] != ' ',
    decreases t.len(),
{
    if t.len() > 0 {
        let p = t.drop_last();
        let c = t.last();
        assert(is_ascii_char(t[t.len() - 1]));
        lemma_filestem_idempotent(p);
        let piece = stem_piece(c);
        assert(all_ascii(piece) && forall|i: int|
            0 <= i < piece.len() ==> !is_reserved(#[trigger] piece[i]) && !is_ascii_upper(piece[i])
                && piece[i] != ' ' && stem_piece(piece[i]) == seq![piece[i]]);
        if piece.len() == 0 {
            assert(stem(piece) =~= piece);
        } else {
            lemma_stem_single(piece[0]);
            assert(piece =~= seq![piece[0]]);
        }
        lemma_stem_concat(stem(p), piece);
    }
}

impl BookNotes {
    /// The file name stem for this book.
    pub fn filestem(&self) -> (r: String)
        ensures
            r@ == stem(self.title@),
    {
        sanitize(self.title.as_str())
    }
}

/// What marks an annotation of the kind `kind` in a notes file.
pub open spec fn note_prefix(kind: HighlightType) -> Seq<char> {
    match kind {
        HighlightType::Highlight => seq![],
        HighlightType::Comment => "NOTE: "@,
    }
}

/// `s` without its carriage returns.
pub open spec fn drop_cr(s: Seq<char>) -> Seq<char>
    decreases s.len(),
{
    if s.len() == 0 {
        s
    } else if s.last() == '\r' {
        drop_cr(s.drop_last())
    } else {
        drop_cr(s.drop_last()).push(s.last())
    }
}

/// How an annotation reads in a notes file.
pub open spec fn note_text(h: HighlightView) -> Seq<char> {
    note_prefix(h.kind) + drop_cr(h.body)
}

/// What starts each annotation of a notes file.
pub open spec fn list_marker(as_list: bool) -> Seq<char> {
    if as_list {
        "- "@
    } else {
        seq![]
    }
}

/// What stands between two annotations of a notes file.
pub open spec fn joiner(as_list: bool) -> Seq<char> {
    if as_list {
        "\n"@
    } else {
        "\n\n"@
    }
}

/// The annotations `ns` as they read in a notes file, as a list or as
/// paragraphs.
pub open spec fn joined_notes(ns: Seq<HighlightView>, as_list: bool) -> Seq<char>
    decreases ns.len(),
{
    if ns.len() == 0 {
        seq![]
    } else if ns.len() == 1 {
        list_marker(as_list) + note_text(ns[0])
    } else {
        joined_notes(ns.drop_last(), as_list) + joiner(as_list) + list_marker(as_list) + note_text(
            ns.last(),
        )
    }
}

/// The notes file of book `b`: a title heading, then a notes heading, then
/// the annotations.
pub open spec fn rendered(b: BookView, as_list: bool) -> Seq<char> {
    "# "@ + b.title + "\n\n## Notes\n\n"@ + joined_notes(b.notes, as_list)
}

/// The decimal digit `d`.
pub open spec fn digit(d: nat) -> char {
    ((d + 48) as u32) as char
}

/// The decimal form of `n`.
pub open spec fn decimal(n: nat) -> Seq<char>
    decreases n,
{
    if n < 10 {
        seq![digit(n)]
    } else {
        decimal(n / 10).push(digit(n % 10))
    }
}

/// The decimal form of `n`.
pub fn decimal_of(n: usize) -> (r: String)
    ensures
        r@ == decimal(n as nat),
    decreases n,
{
    if n < 10 {
        let mut r = String::new();
        push_char(&mut r, ((n as u8) + 48) as char);
        r
    } else {
        let mut r = decimal_of(n / 10);
        push_char(&mut r, (((n % 10) as u8) + 48) as char);
        r
    }
}

impl Highlight {
    /// How this annotation reads in a notes file.
    pub fn display(&self) -> (r: String)
        ensures
            r@ == note_text(self@),
    {
        let mut r = match self.highlight_type {
            HighlightType::Highlight => String::new(),
            HighlightType::Comment => "NOTE: ".to_owned(),
        };
        let ghost prefix = r@;
        let cs = chars_of(self.highlight.as_str());
        let mut i: usize = 0;
        while i < cs.len()
            invariant
                i <= cs.len(),
                cs@ == self.highlight@,
                prefix == note_prefix(self.highlight_type),
                r@ == prefix + drop_cr(cs@.take(i as int)),
            decreases cs.len() - i,
        {
            assert(cs@.take(i + 1).drop_last() =~= cs@.take(i as int));
            if cs[i] != '\r' {
                push_char(&mut r, cs[i]);
                assert(r@ =~= prefix + drop_cr(cs@.take(i + 1)));
            }
            i = i + 1;
        }
        assert(cs@.take(cs.len() as int) =~= cs@);
        r
    }
}

impl BookNotes {
    /// The name of this book's notes file.
    pub fn file_name(&self) -> (r: String)
        ensures
            r@ == stem(self.title@) + ".md"@,
    {
        let mut r = self.filestem();
        r.append(".md");
        r
    }

    /// The text of this book's notes file, with the annotations as a list or
    /// as paragraphs.
    pub fn render(&self, as_list: bool) -> (r: String)
        ensures
            r@ == rendered(self@, as_list),
    {
        let ghost notes = self@.notes;
        let mut r = "# ".to_owned();
        r.append(self.title.as_str());
        r.append("\n\n## Notes\n\n");
        let ghost head = r@;
        let mut i: usize = 0;
        while i < self.highlights.len()
            invariant
                i <= self.highlights.len(),
                notes == self@.notes,
                head == "# "@ + self.title@ + "\n\n## Notes\n\n"@,
                r@ == head + joined_notes(notes.take(i as int), as_list),
            decreases self.highlights.len() - i,
        {
            if i > 0 {
                if as_list {
                    r.append("\n");
                } else {
                    r.append("\n\n");
                }
            }
            if as_list {
                r.append("- ");
            }
            let text = self.highlights[i].display();
            r.append(text.as_str());
            proof {
                let t = notes.take(i + 1);
                assert(t.drop_last() =~= notes.take(i as int));
                assert(t.last() == self.highlights@[i as int]@);
                assert(r@ =~= head + joined_notes(t, as_list));
            }
            i = i + 1;
        }
        assert(notes.take(self.highlights.len() as int) =~= notes);
        r
    }

    /// The book's title and how many annotations it has.
    pub fn summary(&self) -> (r: String)
        ensures
            r@ == self.title@ + " ("@ + decimal(self.highlights.len() as nat) + " highlights)"@,
    {
        let mut r = self.title.clone();
        r.append(" (");
        let n = decimal_of(self.highlights.len());
        r.append(n.as_str());
        r.append(" highlights)");
        r
    }
}

} // verus!
