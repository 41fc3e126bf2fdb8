//! Strings as sequences of characters: the conversions, searches and
//! splittings that the rest of the library is written in terms of.

use vstd::prelude::*;

verus! {

/// `String::push` appends one character.
pub assume_specification[ String::push ](s: &mut String, c: char)
    ensures
        final(s)@ == old(s)@.push(c),
;

/// `String::pop` removes the last character and hands it back, or does
/// nothing to an empty string.
pub assume_specification[ String::pop ](s: &mut String) -> (r: Option<char>)
    ensures
        old(s)@.len() == 0 ==> r is None && final(s)@ == old(s)@,
        old(s)@.len() > 0 ==> r == Some(old(s)@.last()) && final(s)@ == old(s)@.drop_last(),
;

/// The Unicode `White_Space` property.
pub open spec fn is_space(c: char) -> bool {
    let n = c as u32;
    ||| 0x9 <= n <= 0xd
    ||| n == 0x20
    ||| n == 0x85
    ||| n == 0xa0
    ||| n == 0x1680
    ||| 0x2000 <= n <= 0x200a
    ||| n == 0x2028
    ||| n == 0x2029
    ||| n == 0x202f
    ||| n == 0x205f
    ||| n == 0x3000
}

/// How many bytes a character takes in UTF-8.
pub open spec fn utf8_width(c: char) -> nat {
    let n = c as u32;
    if n < 0x80 {
        1
    } else if n < 0x800 {
        2
    } else if n < 0x10000 {
        3
    } else {
        4
    }
}

/// How many bytes a string takes in UTF-8.
pub open spec fn utf8_bytes(s: Seq<char>) -> nat
    decreases s.len(),
{
    if s.len() == 0 {
        0
    } else {
        utf8_bytes(s.drop_last()) + utf8_width(s.last())
    }
}

/// How many leading characters of `s` are white space.
pub open spec fn leading_space(s: Seq<char>) -> nat
    decreases s.len(),
{
    if s.len() == 0 || !is_space(s[0]) {
        0
    } else {
        1 + leading_space(s.skip(1))
    }
}

/// `s` without its leading white space.
pub open spec fn trim_start(s: Seq<char>) -> Seq<char> {
    s.skip(leading_space(s) as int)
}

/// `s` without its trailing white space.
pub open spec fn trim_end(s: Seq<char>) -> Seq<char>
    decreases s.len(),
{
    if s.len() == 0 || !is_space(s.last()) {
        s
    } else {
        trim_end(s.drop_last())
    }
}

/// `s` without the white space at either end.
pub open spec fn trim(s: Seq<char>) -> Seq<char> {
    trim_end(trim_start(s))
}

/// The pieces of `s` between the occurrences of `sep`: each character
/// either closes the last piece or extends it.
pub open spec fn split(s: Seq<char>, sep: char) -> Seq<Seq<char>>
    decreases s.len(),
{
    if s.len() == 0 {
        seq![Seq::empty()]
    } else {
        let before = split(s.drop_last(), sep);
        if s.last() == sep {
            before.push(Seq::empty())
        } else {
            before.update(before.len() - 1, before.last().push(s.last()))
        }
    }
}

/// `s` without one carriage return at its end.
pub open spec fn strip_cr(s: Seq<char>) -> Seq<char> {
    if s.len() > 0 && s.last() == '\r' {
        s.drop_last()
    } else {
        s
    }
}

/// The lines of `s`. A line ends at `\n` or `\r\n`; the last one may go
/// without an ending.
pub open spec fn lines(s: Seq<char>) -> Seq<Seq<char>> {
    let pieces = split(s, '\n');
    let ended = Seq::new((pieces.len() - 1) as nat, |i: int| strip_cr(pieces[i]));
    if pieces.last().len() == 0 {
        ended
    } else {
        ended.push(pieces.last())
    }
}

/// The character of one decimal digit.
pub open spec fn digit(d: nat) -> char {
    (('0' as u32) + d) as char
}

/// `n` in decimal.
pub open spec fn decimal(n: nat) -> Seq<char>
    decreases n,
{
    if n < 10 {
        seq![digit(n)]
    } else {
        decimal(n / 10).push(digit(n % 10))
    }
}

/// Whether `c` is one of `0`..`9`.
pub open spec fn is_digit(c: char) -> bool {
    '0' as u32 <= c as u32 <= '9' as u32
}

/// The number that a string of decimal digits spells.
pub open spec fn decimal_value(s: Seq<char>) -> nat
    decreases s.len(),
{
    if s.len() == 0 {
        0
    } else {
        (decimal_value(s.drop_last()) * 10 + (s.last() as u32 - '0' as u32)) as nat
    }
}

/// `n` copies of `c`.
pub open spec fn repeated(c: char, n: nat) -> Seq<char> {
    Seq::new(n, |i: int| c)
}

/// The view of an optional string.
pub open spec fn opt_view(s: Option<String>) -> Option<Seq<char>> {
    match s {
        Some(t) => Some(t@),
        None => None,
    }
}

/// The views of a list of strings.
pub open spec fn views(s: Seq<String>) -> Seq<Seq<char>> {
    Seq::new(s.len(), |i: int| s[i]@)
}

pub fn is_whitespace(c: char) -> (r: bool)
    ensures
        r == is_space(c),
{
    let n: u32 = c as u32;
    (0x9 <= n && n <= 0xd) || n == 0x20 || n == 0x85 || n == 0xa0 || n == 0x1680 || (0x2000 <= n
        && n <= 0x200a) || n == 0x2028 || n == 0x2029 || n == 0x202f || n == 0x205f || n == 0x3000
}

/// The characters of a string.
pub fn to_chars(s: &str) -> (r: Vec<char>)
    ensures
        r@ == s@,
{
    let mut out: Vec<char> = Vec::new();
    for c in it: s.chars()
        invariant
            out@ == s@.take(it.index() as int),
            it.seq() == s@,
    {
        out.push(c);
    }
    proof {
        assert(s@.take(s@.len() as int) =~= s@);
    }
    out
}

/// The string made of the characters `from..to`.
pub fn string_of(v: &Vec<char>, from: usize, to: usize) -> (r: String)
    requires
        from <= to <= v@.len(),
    ensures
        r@ == v@.subrange(from as int, to as int),
{
    let mut out = String::new();
    let mut i: usize = from;
    while i < to
        invariant
            from <= i <= to <= v@.len(),
            out@ == v@.subrange(from as int, i as int),
        decreases to - i,
    {
        out.push(v[i]);
        i += 1;
        proof {
            assert(v@.subrange(from as int, i as int) =~= v@.subrange(from as int, i - 1).push(v@[i - 1]));
        }
    }
    out
}

/// Appends the characters `from..to` of `v`.
pub fn append_chars(out: &mut String, v: &Vec<char>, from: usize, to: usize)
    requires
        from <= to <= v@.len(),
    ensures
        final(out)@ == old(out)@ + v@.subrange(from as int, to as int),
{
    let mut i: usize = from;
    proof {
        assert(out@ =~= old(out)@ + v@.subrange(from as int, from as int));
    }
    while i < to
        invariant
            from <= i <= to <= v@.len(),
            out@ == old(out)@ + v@.subrange(from as int, i as int),
        decreases to - i,
    {
        out.push(v[i]);
        i += 1;
        proof {
            assert(old(out)@ + v@.subrange(from as int, i as int) =~= (old(out)@ + v@.subrange(
                from as int,
                i - 1,
            )).push(v@[i - 1]));
        }
    }
}

/// Appends `n` copies of `c`.
pub fn push_repeated(out: &mut String, c: char, n: usize)
    ensures
        final(out)@ == old(out)@ + repeated(c, n as nat),
{
    let mut i: usize = 0;
    proof {
        assert(out@ =~= old(out)@ + repeated(c, 0));
    }
    while i < n
        invariant
            i <= n,
            out@ == old(out)@ + repeated(c, i as nat),
        decreases n - i,
    {
        out.push(c);
        i += 1;
        proof {
            assert(old(out)@ + repeated(c, i as nat) =~= (old(out)@ + repeated(c, (i - 1) as nat)).push(
                c,
            ));
        }
    }
}

/// Whether two strings hold the same characters.
pub fn same_str(a: &str, b: &str) -> (r: bool)
    ensures
        r == (a@ == b@),
{
    let x: String = a.to_owned();
    let y: String = b.to_owned();
    x == y
}

/// A copy of an optional string.
pub fn clone_opt(s: &Option<String>) -> (r: Option<String>)
    ensures
        r == *s,
{
    match s {
        Some(t) => Some(t.clone()),
        None => None,
    }
}

/// A copy of a list of strings.
pub fn clone_strings(v: &Vec<String>) -> (r: Vec<String>)
    ensures
        r@ == v@,
{
    let mut out: Vec<String> = Vec::new();
    let mut i: usize = 0;
    while i < v.len()
        invariant
            i <= v@.len(),
            out@ == v@.take(i as int),
        decreases v@.len() - i,
    {
        out.push(v[i].clone());
        i += 1;
        proof {
            assert(v@.take(i as int) =~= v@.take(i - 1).push(v@[i - 1]));
        }
    }
    proof {
        assert(v@.take(v@.len() as int) =~= v@);
    }
    out
}


/// How many of the characters `from..to` lead it as white space.
pub fn count_leading_space(v: &Vec<char>, from: usize, to: usize) -> (r: usize)
    requires
        from <= to <= v@.len(),
    ensures
        r == leading_space(v@.subrange(from as int, to as int)),
        r <= to - from,
{
    let ghost whole = v@.subrange(from as int, to as int);
    let mut i: usize = from;
    proof {
        assert(whole.skip(0) =~= whole);
    }
    while i < to && is_whitespace(v[i])
        invariant
            from <= i <= to <= v@.len(),
            whole == v@.subrange(from as int, to as int),
            leading_space(whole) == (i - from) + leading_space(whole.skip(i - from)),
        decreases to - i,
    {
        proof {
            assert(whole.skip(i - from).skip(1) =~= whole.skip(i + 1 - from));
            assert(whole.skip(i - from)[0] == v@[i as int]);
        }
        i += 1;
    }
    proof {
        let rest = whole.skip(i - from);
        if i < to {
            assert(rest[0] == v@[i as int]);
        }
        assert(leading_space(rest) == 0);
    }
    i - from
}

/// Where the characters `from..to` end once trailing white space is left
/// off.
pub fn find_trimmed_end(v: &Vec<char>, from: usize, to: usize) -> (r: usize)
    requires
        from <= to <= v@.len(),
    ensures
        from <= r <= to,
        trim_end(v@.subrange(from as int, to as int)) == v@.subrange(from as int, r as int),
{
    let mut i: usize = to;
    while i > from && is_whitespace(v[i - 1])
        invariant
            from <= i <= to <= v@.len(),
            trim_end(v@.subrange(from as int, to as int)) == trim_end(
                v@.subrange(from as int, i as int),
            ),
        decreases i,
    {
        proof {
            assert(v@.subrange(from as int, i as int).drop_last() =~= v@.subrange(
                from as int,
                i - 1,
            ));
        }
        i -= 1;
    }
    i
}

/// The range that is left of `from..to` once white space at either end is
/// left off.
pub fn find_trimmed(v: &Vec<char>, from: usize, to: usize) -> (r: (usize, usize))
    requires
        from <= to <= v@.len(),
    ensures
        from <= r.0 <= r.1 <= to,
        trim(v@.subrange(from as int, to as int)) == v@.subrange(r.0 as int, r.1 as int),
{
    let n: usize = count_leading_space(v, from, to);
    let start: usize = from + n;
    proof {
        assert(v@.subrange(from as int, to as int).skip(n as int) =~= v@.subrange(
            start as int,
            to as int,
        ));
    }
    let end: usize = find_trimmed_end(v, start, to);
    (start, end)
}

/// The views of a list of lists of characters.
pub open spec fn char_views(s: Seq<Vec<char>>) -> Seq<Seq<char>> {
    Seq::new(s.len(), |i: int| s[i]@)
}

pub proof fn lemma_split_nonempty(s: Seq<char>, sep: char)
    ensures
        split(s, sep).len() >= 1,
    decreases s.len(),
{
    if s.len() > 0 {
        lemma_split_nonempty(s.drop_last(), sep);
    }
}

/// The pieces of the characters `from..to` between the occurrences of
/// `sep`.
pub fn split_chars(v: &Vec<char>, from: usize, to: usize, sep: char) -> (r: Vec<Vec<char>>)
    requires
        from <= to <= v@.len(),
    ensures
        char_views(r@) == split(v@.subrange(from as int, to as int), sep),
        r@.len() >= 1,
{
    let mut out: Vec<Vec<char>> = Vec::new();
    let mut last: Vec<char> = Vec::new();
    let mut i: usize = from;
    proof {
        assert(v@.subrange(from as int, from as int) =~= Seq::<char>::empty());
        assert(char_views(out@).push(last@) =~= split(Seq::<char>::empty(), sep));
    }
    while i < to
        invariant
            from <= i <= to <= v@.len(),
            char_views(out@).push(last@) == split(v@.subrange(from as int, i as int), sep),
        decreases to - i,
    {
        let c: char = v[i];
        let ghost done = v@.subrange(from as int, i as int);
        let ghost before = char_views(out@).push(last@);
        let ghost earlier = char_views(out@);
        i += 1;
        proof {
            assert(v@.subrange(from as int, i as int).drop_last() =~= done);
        }
        if c == sep {
            out.push(last);
            last = Vec::new();
            proof {
                assert(char_views(out@) =~= before);
                assert(char_views(out@).push(last@) =~= before.push(Seq::empty()));
            }
        } else {
            last.push(c);
            proof {
                assert(char_views(out@).push(last@) =~= before.update(
                    before.len() - 1,
                    before.last().push(c),
                ));
            }
        }
    }
    let ghost earlier = char_views(out@);
    out.push(last);
    proof {
        assert(char_views(out@) =~= earlier.push(last@));
    }
    out
}

/// The lines of a string.
pub fn lines_of(s: &str) -> (r: Vec<String>)
    ensures
        views(r@) == lines(s@),
{
    let chars: Vec<char> = to_chars(s);
    let pieces: Vec<Vec<char>> = split_chars(&chars, 0, chars.len(), '\n');
    proof {
        assert(chars@.subrange(0, chars@.len() as int) =~= s@);
    }
    let ghost p = split(s@, '\n');
    let count: usize = pieces.len() - 1;
    let mut out: Vec<String> = Vec::new();
    let mut i: usize = 0;
    while i < count
        invariant
            i <= count,
            count == pieces@.len() - 1,
            char_views(pieces@) == p,
            views(out@) == Seq::new(i as nat, |k: int| strip_cr(p[k])),
        decreases count - i,
    {
        let piece: &Vec<char> = &pieces[i];
        let n: usize = piece.len();
        let end: usize = if n > 0 && piece[n - 1] == '\r' {
            n - 1
        } else {
            n
        };
        let line: String = string_of(piece, 0, end);
        let ghost before = views(out@);
        proof {
            assert(p[i as int] == piece@);
            assert(line@ =~= strip_cr(piece@));
        }
        out.push(line);
        i += 1;
        proof {
            assert(views(out@) =~= before.push(line@));
            assert(views(out@) =~= Seq::new(i as nat, |k: int| strip_cr(p[k])));
        }
    }
    let last: &Vec<char> = &pieces[count];
    proof {
        assert(p.last() == last@);
    }
    if last.len() > 0 {
        let line: String = string_of(last, 0, last.len());
        let ghost before = views(out@);
        proof {
            assert(line@ =~= last@);
        }
        out.push(line);
        proof {
            assert(views(out@) =~= before.push(line@));
        }
    }
    out
}

/// `n` in decimal.
pub fn decimal_of(n: u64) -> (r: Vec<char>)
    ensures
        r@ == decimal(n as nat),
    decreases n,
{
    let d: u8 = (n % 10) as u8;
    let c: char = (48 + d) as char;
    let mut out: Vec<char> = if n < 10 {
        Vec::new()
    } else {
        decimal_of(n / 10)
    };
    out.push(c);
    proof {
        assert(out@ =~= decimal(n as nat));
    }
    out
}

pub proof fn lemma_decimal_value(n: nat)
    ensures
        decimal_value(decimal(n)) == n,
        decimal(n).len() > 0,
        forall|i: int| 0 <= i < decimal(n).len() ==> is_digit(#[trigger] decimal(n)[i]),
    decreases n,
{
    if n < 10 {
        assert(decimal(n).drop_last() =~= Seq::<char>::empty());
        assert(decimal_value(decimal(n).drop_last()) == 0);
    } else {
        lemma_decimal_value(n / 10);
        assert(decimal(n).drop_last() =~= decimal(n / 10));
    }
}

/// Two numbers with one decimal spelling are one number.
pub proof fn lemma_decimal_injective(a: nat, b: nat)
    requires
        decimal(a) == decimal(b),
    ensures
        a == b,
{
    lemma_decimal_value(a);
    lemma_decimal_value(b);
}

/// The pieces with `sep` between each two.
pub open spec fn joined(pieces: Seq<Seq<char>>, sep: char) -> Seq<char>
    decreases pieces.len(),
{
    if pieces.len() == 0 {
        Seq::empty()
    } else if pieces.len() == 1 {
        pieces[0]
    } else {
        joined(pieces.drop_last(), sep).push(sep) + pieces.last()
    }
}

/// Joins strings with `sep` between each two.
pub fn join(pieces: &Vec<String>, sep: char) -> (r: String)
    ensures
        r@ == joined(views(pieces@), sep),
{
    let mut out = String::new();
    let mut i: usize = 0;
    while i < pieces.len()
        invariant
            i <= pieces@.len(),
            out@ == joined(views(pieces@).take(i as int), sep),
        decreases pieces@.len() - i,
    {
        if i > 0 {
            out.push(sep);
        }
        out.append(pieces[i].as_str());
        i += 1;
        proof {
            let all = views(pieces@).take(i as int);
            assert(all.drop_last() =~= views(pieces@).take(i - 1));
            if i == 1 {
                assert(out@ =~= all[0]);
            }
        }
    }
    proof {
        assert(views(pieces@).take(pieces@.len() as int) =~= views(pieces@));
    }
    out
}

/// No piece that a split gives holds the separator.
pub proof fn lemma_split_pieces(s: Seq<char>, sep: char)
    ensures
        split(s, sep).len() >= 1,
        forall|i: int| 0 <= i < split(s, sep).len() ==> !(#[trigger] split(s, sep)[i]).contains(sep),
    decreases s.len(),
{
    if s.len() > 0 {
        let before = split(s.drop_last(), sep);
        lemma_split_pieces(s.drop_last(), sep);
        assert forall|i: int| 0 <= i < split(s, sep).len() implies !(#[trigger] split(
            s,
            sep,
        )[i]).contains(sep) by {
            if s.last() != sep && i == before.len() - 1 {
                let piece = before.last();
                assert forall|k: int| 0 <= k < piece.push(s.last()).len() implies piece.push(
                    s.last(),
                )[k] != sep by {
                    if k < piece.len() {
                        assert(piece.contains(piece[k]));
                    }
                }
            }
        }
    }
}

/// Joining what a split gives restores the string.
pub proof fn lemma_join_of_split(s: Seq<char>, sep: char)
    ensures
        joined(split(s, sep), sep) == s,
    decreases s.len(),
{
    let pieces = split(s, sep);
    if s.len() == 0 {
        assert(pieces[0] =~= s);
    } else {
        let before = split(s.drop_last(), sep);
        lemma_join_of_split(s.drop_last(), sep);
        lemma_split_nonempty(s.drop_last(), sep);
        if s.last() == sep {
            assert(pieces.drop_last() =~= before);
            assert(joined(pieces, sep) =~= s);
        } else {
            assert(pieces.drop_last() =~= before.drop_last());
            assert(joined(pieces, sep) =~= joined(before, sep).push(s.last()));
            assert(s =~= s.drop_last().push(s.last()));
        }
    }
}

proof fn lemma_split_of_concat(s: Seq<char>, t: Seq<char>, sep: char)
    requires
        !t.contains(sep),
    ensures
        split(s.push(sep) + t, sep) == split(s, sep).push(t),
    decreases t.len(),
{
    let whole = s.push(sep) + t;
    if t.len() == 0 {
        assert(t =~= Seq::empty());
        assert(whole =~= s.push(sep));
        assert(whole.drop_last() =~= s);
        assert(split(whole, sep) =~= split(s, sep).push(t));
    } else {
        assert(t.contains(t.last()));
        assert forall|k: int| 0 <= k < t.drop_last().len() implies t.drop_last()[k] != sep by {
            assert(t.contains(t[k]));
        }
        lemma_split_of_concat(s, t.drop_last(), sep);
        assert(whole.drop_last() =~= s.push(sep) + t.drop_last());
        assert(t.drop_last().push(t.last()) =~= t);
        assert(split(whole, sep) =~= split(s, sep).push(t));
    }
}

proof fn lemma_split_of_piece(t: Seq<char>, sep: char)
    requires
        !t.contains(sep),
    ensures
        split(t, sep) == seq![t],
    decreases t.len(),
{
    if t.len() > 0 {
        assert(t.contains(t.last()));
        assert forall|k: int| 0 <= k < t.drop_last().len() implies t.drop_last()[k] != sep by {
            assert(t.contains(t[k]));
        }
        lemma_split_of_piece(t.drop_last(), sep);
        assert(t.drop_last().push(t.last()) =~= t);
        assert(split(t, sep) =~= seq![t]);
    } else {
        assert(t =~= Seq::empty());
        assert(split(t, sep) =~= seq![t]);
    }
}

/// Splitting what was joined gives the pieces back.
pub proof fn lemma_split_of_join(pieces: Seq<Seq<char>>, sep: char)
    requires
        pieces.len() > 0,
        forall|i: int| 0 <= i < pieces.len() ==> !(#[trigger] pieces[i]).contains(sep),
    ensures
        split(joined(pieces, sep), sep) == pieces,
    decreases pieces.len(),
{
    assert(!pieces[pieces.len() - 1].contains(sep));
    if pieces.len() == 1 {
        lemma_split_of_piece(pieces[0], sep);
        assert(split(joined(pieces, sep), sep) =~= pieces);
    } else {
        lemma_split_of_join(pieces.drop_last(), sep);
        lemma_split_of_concat(joined(pieces.drop_last(), sep), pieces.last(), sep);
        assert(pieces.drop_last().push(pieces.last()) =~= pieces);
    }
}

/// A line as a reader of lines leaves it: no newline in it, no carriage
/// return at its end.
pub open spec fn is_line(s: Seq<char>) -> bool {
    &&& !s.contains('\n')
    &&& s.len() > 0 ==> s.last() != '\r'
}

/// Lines joined by newlines, the last of them not empty, read back as they
/// were.
pub proof fn lemma_lines_of_join(ls: Seq<Seq<char>>)
    requires
        ls.len() > 0,
        ls.last().len() > 0,
        forall|i: int| 0 <= i < ls.len() ==> is_line(#[trigger] ls[i]),
    ensures
        lines(joined(ls, '\n')) == ls,
{
    lemma_split_of_join(ls, '\n');
    assert(lines(joined(ls, '\n')) =~= ls);
}

/// Every line that a reader of lines gives is one.
pub proof fn lemma_lines_are_lines(s: Seq<char>)
    ensures
        forall|i: int| 0 <= i < lines(s).len() ==> !(#[trigger] lines(s)[i]).contains('\n'),
{
    let pieces = split(s, '\n');
    lemma_split_pieces(s, '\n');
    assert forall|i: int| 0 <= i < lines(s).len() implies !(#[trigger] lines(s)[i]).contains(
        '\n',
    ) by {
        let line = lines(s)[i];
        if line.contains('\n') {
            let k = choose|k: int| 0 <= k < line.len() && line[k] == '\n';
            assert(pieces[i][k] == '\n');
            assert(pieces[i].contains('\n'));
        }
    }
}

} // verus!
