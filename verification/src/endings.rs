//! How the lines of a document end, kept beside the lines so that a document
//! is written back as it was read.

use vstd::prelude::*;

use crate::outline::landing;
use crate::text::{
    is_line, join, joined, lemma_join_of_split, lemma_split_nonempty, lemma_split_of_join, lines,
    split, split_chars, strip_cr, to_chars, views,
};

verus! {

/// How the lines of a document end.
#[derive(Debug)]
pub struct Endings {
    /// For each line whether it ends in `\r\n` rather than `\n`.
    pub crlf: Vec<bool>,
    /// Whether the last line ends at all.
    pub closed: bool,
}

/// How the lines of a document end.
#[verifier::ext_equal]
pub ghost struct EndingsView {
    pub crlf: Seq<bool>,
    pub closed: bool,
}

impl View for Endings {
    type V = EndingsView;

    open spec fn view(&self) -> EndingsView {
        EndingsView { crlf: self.crlf@, closed: self.closed }
    }
}

/// Whether what stands before a newline ends in a carriage return.
pub open spec fn ends_in_cr(piece: Seq<char>) -> bool {
    piece.len() > 0 && piece.last() == '\r'
}

/// How the lines of a text end. A last line that does not end would, if
/// others came behind it, end as the line before it does.
pub open spec fn endings_of(s: Seq<char>) -> EndingsView {
    let pieces = split(s, '\n');
    EndingsView {
        crlf: Seq::new(
            lines(s).len(),
            |i: int|
                if i < pieces.len() - 1 {
                    ends_in_cr(pieces[i])
                } else {
                    i > 0 && ends_in_cr(pieces[i - 1])
                },
        ),
        closed: pieces.last().len() == 0,
    }
}

/// No lines, and nothing to leave open.
pub open spec fn no_endings() -> EndingsView {
    EndingsView { crlf: Seq::empty(), closed: true }
}

/// A line up to its newline: with a carriage return if it ends in one.
pub open spec fn piece_of(doc: Seq<Seq<char>>, e: EndingsView, i: int) -> Seq<char> {
    if i < e.crlf.len() && e.crlf[i] && (e.closed || i < doc.len() - 1) {
        doc[i].push('\r')
    } else {
        doc[i]
    }
}

/// What stands between the newlines of a document.
pub open spec fn pieces_of(doc: Seq<Seq<char>>, e: EndingsView) -> Seq<Seq<char>> {
    let all = Seq::new(doc.len(), |i: int| piece_of(doc, e, i));
    if e.closed {
        all.push(Seq::empty())
    } else {
        all
    }
}

/// Lines with their endings, as one text.
pub open spec fn with_endings(doc: Seq<Seq<char>>, e: EndingsView) -> Seq<char> {
    joined(pieces_of(doc, e), '\n')
}

/// The endings after the lines `start..end` are moved to where line
/// `insert_at` begins: each line keeps its own.
pub open spec fn moved_endings(e: EndingsView, start: int, end: int, insert_at: int) -> EndingsView {
    let rest = e.crlf.take(start) + e.crlf.skip(end);
    let at = landing(start, end, insert_at);
    EndingsView { crlf: rest.take(at) + e.crlf.subrange(start, end) + rest.skip(at), ..e }
}

/// A text is its lines with their endings.
pub proof fn lemma_text_is_its_lines(s: Seq<char>)
    ensures
        with_endings(lines(s), endings_of(s)) == s,
{
    let pieces = split(s, '\n');
    lemma_split_nonempty(s, '\n');
    let doc = lines(s);
    let e = endings_of(s);
    let got = pieces_of(doc, e);
    assert forall|i: int| 0 <= i < pieces.len() implies #[trigger] got[i] == pieces[i] by {
        if i < doc.len() {
            assert(got[i] == piece_of(doc, e, i));
            if i < pieces.len() - 1 {
                assert(doc[i] == strip_cr(pieces[i]));
                assert(piece_of(doc, e, i) =~= pieces[i]);
            }
        } else {
            assert(pieces[i] =~= Seq::empty());
        }
    }
    assert(got =~= pieces);
    lemma_join_of_split(s, '\n');
}

/// Lines that are written with endings read back as they were, and their
/// endings with them, where the last line is not left open with nothing on
/// it.
pub proof fn lemma_lines_read_back(doc: Seq<Seq<char>>, e: EndingsView)
    requires
        forall|i: int| 0 <= i < doc.len() ==> is_line(#[trigger] doc[i]),
        e.crlf.len() == doc.len(),
        !e.closed ==> doc.len() > 0 && doc.last().len() > 0,
    ensures
        lines(with_endings(doc, e)) == doc,
        endings_of(with_endings(doc, e)).closed == e.closed,
        forall|i: int|
            0 <= i < doc.len() && (e.closed || i < doc.len() - 1) ==> endings_of(
                with_endings(doc, e),
            ).crlf[i] == #[trigger] e.crlf[i],
{
    let p = pieces_of(doc, e);
    assert forall|i: int| 0 <= i < p.len() implies !(#[trigger] p[i]).contains('\n') by {
        if i < doc.len() {
            assert(is_line(doc[i]));
            assert(p[i] == piece_of(doc, e, i));
            assert forall|k: int| 0 <= k < p[i].len() implies p[i][k] != '\n' by {
                if k < doc[i].len() {
                    assert(doc[i].contains(doc[i][k]));
                }
            }
        }
    }
    lemma_split_of_join(p, '\n');
    let s = with_endings(doc, e);
    assert(split(s, '\n') == p);
    assert forall|i: int| 0 <= i < p.len() - 1 implies strip_cr(#[trigger] p[i]) == doc[i]
        && ends_in_cr(p[i]) == e.crlf[i] by {
        assert(is_line(doc[i]));
        assert(p[i] == piece_of(doc, e, i));
        assert(doc[i].push('\r').drop_last() =~= doc[i]);
    }
    if !e.closed {
        assert(is_line(doc[doc.len() - 1]));
        assert(p.last() == piece_of(doc, e, doc.len() - 1));
        assert(p.last() == doc.last());
    }
    assert(lines(s) =~= doc);
}

/// Finds how the lines of a text end.
pub fn find_endings(s: &str) -> (r: Endings)
    ensures
        r@ == endings_of(s@),
        r.crlf@.len() == lines(s@).len(),
{
    let chars: Vec<char> = to_chars(s);
    let pieces: Vec<Vec<char>> = split_chars(&chars, 0, chars.len(), '\n');
    proof {
        assert(chars@.subrange(0, chars@.len() as int) =~= s@);
    }
    let ghost p = split(s@, '\n');
    let count: usize = pieces.len() - 1;
    let mut crlf: Vec<bool> = Vec::new();
    let mut last: bool = false;
    let mut i: usize = 0;
    while i < count
        invariant
            i <= count,
            count == pieces@.len() - 1,
            crate::text::char_views(pieces@) == p,
            crlf@.len() == i,
            forall|k: int| 0 <= k < i ==> #[trigger] crlf@[k] == ends_in_cr(p[k]),
            last == (i > 0 && ends_in_cr(p[i - 1])),
        decreases count - i,
    {
        let n: usize = pieces[i].len();
        proof {
            assert(p[i as int] == pieces@[i as int]@);
        }
        last = n > 0 && pieces[i][n - 1] == '\r';
        crlf.push(last);
        i += 1;
    }
    let closed: bool = pieces[count].len() == 0;
    proof {
        assert(p.last() == pieces@[count as int]@);
    }
    if !closed {
        crlf.push(last);
    }
    let r = Endings { crlf, closed };
    proof {
        assert(r@ =~= endings_of(s@));
    }
    r
}

/// Puts lines and their endings together.
pub fn write_lines(doc: &Vec<String>, e: &Endings) -> (r: String)
    ensures
        r@ == with_endings(views(doc@), e@),
{
    let n: usize = doc.len();
    let mut pieces: Vec<String> = Vec::new();
    let mut i: usize = 0;
    while i < n
        invariant
            i <= n == doc@.len(),
            pieces@.len() == i,
            forall|k: int|
                0 <= k < i ==> (#[trigger] pieces@[k])@ == piece_of(views(doc@), e@, k),
        decreases n - i,
    {
        let mut piece: String = doc[i].clone();
        if i < e.crlf.len() && e.crlf[i] && (e.closed || i < n - 1) {
            piece.push('\r');
        }
        pieces.push(piece);
        i += 1;
    }
    if e.closed {
        let none: String = String::new();
        proof {
            assert(none@ =~= Seq::empty());
        }
        pieces.push(none);
    }
    proof {
        assert(views(pieces@) =~= pieces_of(views(doc@), e@));
    }
    join(&pieces, '\n')
}

fn copy_flags(out: &mut Vec<bool>, from: &Vec<bool>, start: usize, end: usize)
    requires
        start <= end <= from@.len(),
    ensures
        final(out)@ == old(out)@ + from@.subrange(start as int, end as int),
{
    let mut i: usize = start;
    proof {
        assert(out@ =~= old(out)@ + from@.subrange(start as int, start as int));
    }
    while i < end
        invariant
            start <= i <= end <= from@.len(),
            out@ == old(out)@ + from@.subrange(start as int, i as int),
        decreases end - i,
    {
        out.push(from[i]);
        i += 1;
        proof {
            assert(out@ =~= old(out)@ + from@.subrange(start as int, i as int));
        }
    }
}

impl Endings {
    /// Moves the endings of the lines `start..end` to where line `insert_at`
    /// begins.
    pub fn move_lines(&mut self, start: usize, end: usize, insert_at: usize)
        requires
            start <= end <= old(self).crlf@.len(),
            insert_at > start ==> end - start <= insert_at <= old(self).crlf@.len(),
        ensures
            final(self)@ == moved_endings(
                old(self)@,
                start as int,
                end as int,
                insert_at as int,
            ),
            final(self).crlf@.len() == old(self).crlf@.len(),
    {
        let ghost before = self.crlf@;
        let ghost rest = before.take(start as int) + before.skip(end as int);
        let n: usize = self.crlf.len();
        let len: usize = end - start;
        let to: usize = if insert_at > start {
            insert_at - len
        } else {
            insert_at
        };
        let mut out: Vec<bool> = Vec::new();
        if to <= start {
            copy_flags(&mut out, &self.crlf, 0, to);
            copy_flags(&mut out, &self.crlf, start, end);
            copy_flags(&mut out, &self.crlf, to, start);
            copy_flags(&mut out, &self.crlf, end, n);
        } else {
            let back: usize = to + len;
            copy_flags(&mut out, &self.crlf, 0, start);
            copy_flags(&mut out, &self.crlf, end, back);
            copy_flags(&mut out, &self.crlf, start, end);
            copy_flags(&mut out, &self.crlf, back, n);
        }
        proof {
            assert(out@ =~= rest.take(to as int) + before.subrange(start as int, end as int)
                + rest.skip(to as int));
        }
        self.crlf = out;
    }
}

} // verus!
