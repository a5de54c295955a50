//! A lighter reading of both formats: each book's annotations as plain
//! texts, books ordered by title.
use vstd::prelude::*;
use crate::my_clippings::{
    count_titled, delimiter, delimiter_chars, parse_record, parse_record_chars, records,
    records_from,
};
use crate::note::{HighlightType, HighlightView};
use crate::text::{chars_of, find, find_from, lemma_find_from, slice_of};
use crate::web_export::{h3_title, spans, web_notes, WebExportError};

verus! {

/// An annotation's text, with its kind.
#[derive(Debug)]
pub enum Note {
    Highlight(String),
    Comment(String),
}

impl View for Note {
    type V = (HighlightType, Seq<char>);

    open spec fn view(&self) -> (HighlightType, Seq<char>) {
        match self {
            Note::Highlight(t) => (HighlightType::Highlight, t@),
            Note::Comment(t) => (HighlightType::Comment, t@),
        }
    }
}

/// A book's title and its annotations, as sequences of characters.
pub type GroupView = (Seq<char>, Seq<(HighlightType, Seq<char>)>);

/// What a group of `Note`s holds.
pub open spec fn group_view(g: (String, Vec<Note>)) -> GroupView {
    (g.0@, g.1@.map_values(|n: Note| n@))
}

/// What each group of `gs` holds.
pub open spec fn group_views(gs: Seq<(String, Vec<Note>)>) -> Seq<GroupView> {
    gs.map_values(|g: (String, Vec<Note>)| group_view(g))
}

/// The title, kind and text of record `r`, where it is a well-formed record
/// of the log; none for a record that the log reader skips.
pub open spec fn simple_note(r: Seq<char>) -> Option<(Seq<char>, (HighlightType, Seq<char>))> {
    match parse_record(r) {
        Ok((t, h)) => Some((t, (h.kind, h.body))),
        Err(_) => None,
    }
}

/// `a` comes before `b` in the order of their characters' code points.
pub open spec fn seq_lt(a: Seq<char>, b: Seq<char>) -> bool
    decreases a.len(),
{
    if a.len() == 0 {
        b.len() > 0
    } else if b.len() == 0 {
        false
    } else if a[0] != b[0] {
        (a[0] as u32) < (b[0] as u32)
    } else {
        seq_lt(a.drop_first(), b.drop_first())
    }
}

/// The first index `k >= j` of a group whose title does not come before `t`.
pub open spec fn slot_from(gs: Seq<GroupView>, t: Seq<char>, j: int) -> int
    decreases gs.len() - j,
{
    if j < 0 || j >= gs.len() {
        gs.len() as int
    } else if !seq_lt(gs[j].0, t) {
        j
    } else {
        slot_from(gs, t, j + 1)
    }
}

/// `gs` once note `n` of the book titled `t` is added: to the group of that
/// title, or as a new group where the order of titles puts it.
pub open spec fn add_to_group(gs: Seq<GroupView>, t: Seq<char>, n: (HighlightType, Seq<char>)) -> Seq<
    GroupView,
> {
    let k = slot_from(gs, t, 0);
    if k < gs.len() && gs[k].0 == t {
        gs.update(k, (t, gs[k].1.push(n)))
    } else {
        gs.insert(k, (t, seq![n]))
    }
}

/// The groups that the records `recs` give, read in order.
pub open spec fn grouped(recs: Seq<Seq<char>>) -> Seq<GroupView>
    decreases recs.len(),
{
    if recs.len() == 0 {
        seq![]
    } else {
        match simple_note(recs.last()) {
            Some((t, n)) => add_to_group(grouped(recs.drop_last()), t, n),
            None => grouped(recs.drop_last()),
        }
    }
}

/// Parses one record of a log: its title and its annotation, if the record
/// is well-formed.
pub fn parse_note(note: &str) -> (r: Option<(String, Note)>)
    ensures
        match r {
            Some((t, n)) => simple_note(note@) == Some((t@, n@)),
            None => simple_note(note@) is None,
        },
{
    let cs = chars_of(note);
    parse_note_chars(&cs)
}

fn parse_note_chars(r: &Vec<char>) -> (res: Option<(String, Note)>)
    ensures
        match res {
            Some((t, n)) => simple_note(r@) == Some((t@, n@)),
            None => simple_note(r@) is None,
        },
{
    match parse_record_chars(r) {
        Ok((t, h)) => {
            let n = match h.highlight_type {
                HighlightType::Highlight => Note::Highlight(h.highlight),
                HighlightType::Comment => Note::Comment(h.highlight),
            };
            Some((t, n))
        },
        Err(_) => None,
    }
}

/// Whether `a` comes before `b` in the order of code points.
fn chars_lt(a: &Vec<char>, b: &Vec<char>) -> (r: bool)
    ensures
        r == seq_lt(a@, b@),
{
    let mut i: usize = 0;
    assert(a@.skip(0) =~= a@);
    assert(b@.skip(0) =~= b@);
    while i < a.len() && i < b.len() && a[i] == b[i]
        invariant
            i <= a.len(),
            i <= b.len(),
            seq_lt(a@, b@) == seq_lt(a@.skip(i as int), b@.skip(i as int)),
        decreases a.len() - i,
    {
        assert(a@.skip(i as int).drop_first() =~= a@.skip(i + 1));
        assert(b@.skip(i as int).drop_first() =~= b@.skip(i + 1));
        i = i + 1;
    }
    if i == a.len() {
        i < b.len()
    } else if i == b.len() {
        false
    } else {
        (a[i] as u32) < (b[i] as u32)
    }
}

/// Adds note `n` of the book titled `title`.
fn add_grouped(gs: &mut Vec<(String, Vec<Note>)>, title: String, n: Note)
    ensures
        group_views(final(gs)@) == add_to_group(group_views(old(gs)@), title@, n@),
{
    let ghost gv = group_views(gs@);
    let tc = chars_of(title.as_str());
    let mut k: usize = 0;
    while k < gs.len() && chars_lt(&chars_of(gs[k].0.as_str()), &tc)
        invariant
            k <= gs.len(),
            gs@ == old(gs)@,
            gv == group_views(gs@),
            tc@ == title@,
            slot_from(gv, title@, 0) == slot_from(gv, title@, k as int),
        decreases gs.len() - k,
    {
        k = k + 1;
    }
    if k < gs.len() && gs[k].0 == title {
        let ghost old_gs = gs@;
        let (t, mut ns) = gs.remove(k);
        ns.push(n);
        gs.insert(k, (t, ns));
        assert(gs@ =~= old_gs.update(k as int, gs@[k as int]));
        assert(group_view(gs@[k as int]).1 =~= gv[k as int].1.push(n@));
        assert(group_views(gs@) =~= add_to_group(gv, title@, n@));
    } else {
        let mut ns: Vec<Note> = Vec::new();
        ns.push(n);
        gs.insert(k, (title, ns));
        assert(group_view(gs@[k as int]).1 =~= seq![n@]);
        assert(group_views(gs@) =~= add_to_group(gv, title@, n@));
    }
}

/// Parses a whole log into each book's annotations, books ordered by title;
/// malformed records are left out.
pub fn myclippings(data: &str) -> (r: Vec<(String, Vec<Note>)>)
    ensures
        group_views(r@) == grouped(records(data@)),
{
    let s = chars_of(data);
    let s_len = s.len();
    let delim = delimiter_chars();
    let mut gs: Vec<(String, Vec<Note>)> = Vec::new();
    let mut pos: usize = 0;
    let ghost mut done: Seq<Seq<char>> = seq![];
    let mut next = find(&s, &delim, 0);
    assert(group_views(gs@) =~= grouped(done));
    while next.is_some()
        invariant
            s@ == data@,
            s_len == s.len(),
            delim@ == delimiter(),
            pos <= s.len(),
            records(s@) == done + records_from(s@, pos as int),
            match next {
                Some(k) => find_from(s@, delimiter(), pos as int) == Some(k as int),
                None => find_from(s@, delimiter(), pos as int) is None,
            },
            group_views(gs@) == grouped(done),
        decreases s.len() - pos,
    {
        let k = next.unwrap();
        proof {
            lemma_find_from(s@, delimiter(), pos as int);
        }
        let rec = slice_of(&s, pos, k);
        if let Some((t, n)) = parse_note_chars(&rec) {
            add_grouped(&mut gs, t, n);
        }
        proof {
            let nd = done.push(rec@);
            assert(nd.drop_last() =~= done);
            assert(done + records_from(s@, pos as int) =~= nd + records_from(
                s@,
                k + delimiter().len(),
            ));
            done = nd;
        }
        pos = k + delim.len();
        next = find(&s, &delim, pos);
    }
    let rec = slice_of(&s, pos, s_len);
    if let Some((t, n)) = parse_note_chars(&rec) {
        add_grouped(&mut gs, t, n);
    }
    proof {
        let nd = done.push(rec@);
        assert(nd.drop_last() =~= done);
        assert(done + seq![rec@] =~= nd);
        done = nd;
    }
    gs
}

/// The notes of a saved library page, as one group under the page's title.
pub fn webexport(data: &str) -> (r: Result<Vec<(String, Vec<Note>)>, WebExportError>)
    ensures
        match r {
            Ok(gs) => gs.len() == 1 && h3_title(data@) == Some(gs[0].0@) && gs[0].1@.map_values(
                |n: Note| n@,
            ) == web_notes(spans(data@)).map_values(|h: HighlightView| (h.kind, h.body)),
            Err(e) => h3_title(data@) is None && e == WebExportError::NoTitle,
        },
{
    let book = match crate::web_export::parse(data) {
        Ok(b) => b,
        Err(e) => {
            return Err(e);
        },
    };
    let ghost hv = book@.notes;
    let mut notes: Vec<Note> = Vec::new();
    let mut i: usize = 0;
    while i < book.highlights.len()
        invariant
            i <= book.highlights.len(),
            hv == book@.notes,
            notes@.map_values(|n: Note| n@) =~= hv.take(i as int).map_values(
                |h: HighlightView| (h.kind, h.body),
            ),
        decreases book.highlights.len() - i,
    {
        let h = &book.highlights[i];
        let text = h.highlight.clone();
        let n = match h.highlight_type {
            HighlightType::Highlight => Note::Highlight(text),
            HighlightType::Comment => Note::Comment(text),
        };
        let ghost old_notes = notes@;
        notes.push(n);
        assert(notes@.map_values(|n: Note| n@) =~= old_notes.map_values(|n: Note| n@).push(
            (hv[i as int].kind, hv[i as int].body),
        ));
        assert(hv.take(i + 1) =~= hv.take(i as int).push(hv[i as int]));
        i = i + 1;
    }
    assert(hv.take(book.highlights.len() as int) =~= hv);
    let mut gs: Vec<(String, Vec<Note>)> = Vec::new();
    gs.push((book.title, notes));
    Ok(gs)
}

/// The titles of `gs` come in strictly ascending order.
pub open spec fn titles_sorted(gs: Seq<GroupView>) -> bool {
    forall|i: int, j: int| 0 <= i < j < gs.len() ==> seq_lt(#[trigger] gs[i].0, #[trigger] gs[j].0)
}

proof fn lemma_lt_total(a: Seq<char>, b: Seq<char>)
    ensures
        a == b || seq_lt(a, b) || seq_lt(b, a),
        !(seq_lt(a, b) && seq_lt(b, a)),
        !seq_lt(a, a),
    decreases a.len(),
{
    if a.len() > 0 {
        lemma_lt_total(a.drop_first(), a.drop_first());
    }
    if a.len() > 0 && b.len() > 0 {
        if a[0] == b[0] {
            lemma_lt_total(a.drop_first(), b.drop_first());
            if a.drop_first() == b.drop_first() {
                assert(a =~= seq![a[0]] + a.drop_first());
                assert(b =~= seq![b[0]] + b.drop_first());
            }
        } else {
            vstd::utf8::char_u32_cast(a[0], a[0] as u32);
            vstd::utf8::char_u32_cast(b[0], b[0] as u32);
        }
    } else if a.len() == 0 && b.len() == 0 {
        assert(a =~= b);
    }
}

proof fn lemma_lt_trans(a: Seq<char>, b: Seq<char>, c: Seq<char>)
    requires
        seq_lt(a, b),
        seq_lt(b, c),
    ensures
        seq_lt(a, c),
    decreases a.len(),
{
    if a.len() > 0 && a[0] == b[0] && b[0] == c[0] {
        lemma_lt_trans(a.drop_first(), b.drop_first(), c.drop_first());
    }
}

proof fn lemma_slot_from(gs: Seq<GroupView>, t: Seq<char>, j: int)
    requires
        0 <= j <= gs.len(),
    ensures
        j <= slot_from(gs, t, j) <= gs.len(),
        forall|m: int| j <= m < slot_from(gs, t, j) ==> seq_lt(#[trigger] gs[m].0, t),
        slot_from(gs, t, j) < gs.len() ==> !seq_lt(gs[slot_from(gs, t, j)].0, t),
    decreases gs.len() - j,
{
    if j < gs.len() && seq_lt(gs[j].0, t) {
        lemma_slot_from(gs, t, j + 1);
    }
}

proof fn lemma_add_keeps_order(gs: Seq<GroupView>, t: Seq<char>, n: (HighlightType, Seq<char>))
    requires
        titles_sorted(gs),
    ensures
        titles_sorted(add_to_group(gs, t, n)),
{
    let k = slot_from(gs, t, 0);
    lemma_slot_from(gs, t, 0);
    let r = add_to_group(gs, t, n);
    if k < gs.len() && gs[k].0 == t {
        assert forall|i: int, j: int| 0 <= i < j < r.len() implies seq_lt(
            #[trigger] r[i].0,
            #[trigger] r[j].0,
        ) by {
            assert(r[i].0 == gs[i].0 && r[j].0 == gs[j].0);
        }
    } else {
        if k < gs.len() {
            lemma_lt_total(gs[k].0, t);
        }
        assert forall|i: int, j: int| 0 <= i < j < r.len() implies seq_lt(
            #[trigger] r[i].0,
            #[trigger] r[j].0,
        ) by {
            if j < k {
                assert(r[i] == gs[i] && r[j] == gs[j]);
            } else if j == k {
                assert(r[i] == gs[i]);
            } else if i < k {
                assert(r[i] == gs[i] && r[j] == gs[j - 1]);
            } else if i == k {
                assert(r[j] == gs[j - 1]);
                if j - 1 > k {
                    lemma_lt_trans(t, gs[k].0, gs[j - 1].0);
                }
            } else {
                assert(r[i] == gs[i - 1] && r[j] == gs[j - 1]);
            }
        }
    }
}

proof fn lemma_grouped_sorted(recs: Seq<Seq<char>>)
    ensures
        titles_sorted(grouped(recs)),
    decreases recs.len(),
{
    if recs.len() > 0 {
        lemma_grouped_sorted(recs.drop_last());
        match simple_note(recs.last()) {
            Some((t, n)) => lemma_add_keeps_order(grouped(recs.drop_last()), t, n),
            None => {},
        }
    }
}

/// The groups of any log come in strictly ascending order of title, so no
/// two groups share a title.
pub proof fn lemma_groups_ordered_by_title(data: Seq<char>)
    ensures
        titles_sorted(grouped(records(data))),
{
    lemma_grouped_sorted(records(data));
}

/// How many annotations the group titled `t` holds in `gs` (none if absent).
pub open spec fn group_notes(gs: Seq<GroupView>, t: Seq<char>) -> nat {
    let k = slot_from(gs, t, 0);
    if k < gs.len() && gs[k].0 == t {
        gs[k].1.len()
    } else {
        0
    }
}

proof fn lemma_slot_is(gs: Seq<GroupView>, t: Seq<char>, j: int, k: int)
    requires
        0 <= j <= k <= gs.len(),
        forall|m: int| j <= m < k ==> seq_lt(#[trigger] gs[m].0, t),
        k < gs.len() ==> !seq_lt(gs[k].0, t),
    ensures
        slot_from(gs, t, j) == k,
    decreases k - j,
{
    if j < k {
        lemma_slot_is(gs, t, j + 1, k);
    }
}

proof fn lemma_add_counts(gs: Seq<GroupView>, u: Seq<char>, n: (HighlightType, Seq<char>), t: Seq<char>)
    requires
        titles_sorted(gs),
    ensures
        group_notes(add_to_group(gs, u, n), t) == group_notes(gs, t) + if u == t {
            1nat
        } else {
            0nat
        },
{
    let ku = slot_from(gs, u, 0);
    let kt = slot_from(gs, t, 0);
    lemma_slot_from(gs, u, 0);
    lemma_slot_from(gs, t, 0);
    let r = add_to_group(gs, u, n);
    lemma_lt_total(u, t);
    if ku < gs.len() && gs[ku].0 == u {
        assert forall|m: int| 0 <= m < r.len() implies #[trigger] r[m].0 == gs[m].0 by {}
        lemma_slot_is(r, t, 0, kt);
    } else {
        if ku < gs.len() {
            lemma_lt_total(gs[ku].0, u);
        }
        if u == t {
            lemma_slot_is(r, t, 0, ku);
        } else if seq_lt(u, t) {
            assert forall|m: int| 0 <= m < ku implies seq_lt(#[trigger] gs[m].0, t) by {
                lemma_lt_trans(gs[m].0, u, t);
            }
            if kt < ku {
                assert(seq_lt(gs[kt].0, t));
            }
            assert forall|m: int| 0 <= m < kt + 1 implies seq_lt(#[trigger] r[m].0, t) by {
                if m < ku {
                    assert(r[m] == gs[m]);
                } else if m > ku {
                    assert(r[m] == gs[m - 1]);
                }
            }
            if kt < gs.len() {
                assert(r[kt + 1] == gs[kt]);
            }
            lemma_slot_is(r, t, 0, kt + 1);
        } else {
            if kt > ku {
                assert(seq_lt(gs[ku].0, t));
                lemma_lt_trans(u, gs[ku].0, t);
            }
            assert forall|m: int| 0 <= m < kt implies seq_lt(#[trigger] r[m].0, t) by {
                assert(r[m] == gs[m]);
            }
            if kt < ku {
                assert(r[kt] == gs[kt]);
            } else if kt < gs.len() && gs[kt].0 == t {
                lemma_lt_total(t, u);
            }
            lemma_slot_is(r, t, 0, kt);
        }
    }
}

proof fn lemma_group_counts(recs: Seq<Seq<char>>, t: Seq<char>)
    ensures
        group_notes(grouped(recs), t) == count_titled(recs, t),
    decreases recs.len(),
{
    if recs.len() > 0 {
        lemma_group_counts(recs.drop_last(), t);
        lemma_grouped_sorted(recs.drop_last());
        match simple_note(recs.last()) {
            Some((u, n)) => lemma_add_counts(grouped(recs.drop_last()), u, n, t),
            None => {},
        }
    }
}

/// No well-formed record is lost in the grouped reading either: for every
/// log and every title, the group of that title holds exactly as many notes
/// as there are records that parse to that title.
pub proof fn lemma_no_record_dropped_grouped(data: Seq<char>, t: Seq<char>)
    ensures
        group_notes(grouped(records(data)), t) == count_titled(records(data), t),
{
    lemma_group_counts(records(data), t);
}

} // verus!
