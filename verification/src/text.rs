//! Character-level text primitives: the behaviour of the few `str` and
//! `char` operations that the hosts-file logic relies on, stated as spec
//! functions over `Seq<char>` and implemented over `Vec<char>`.
use vstd::prelude::*;

verus! {

// ---------------------------------------------------------------------
// Specifications
// ---------------------------------------------------------------------

/// Unicode `White_Space`, which is what `char::is_whitespace` tests.
pub open spec fn is_ws(c: char) -> bool {
    let u = c as u32;
    ||| u == 0x20
    ||| 0x09 <= u <= 0x0d
    ||| u == 0x85
    ||| u == 0xa0
    ||| u == 0x1680
    ||| 0x2000 <= u <= 0x200a
    ||| u == 0x2028
    ||| u == 0x2029
    ||| u == 0x202f
    ||| u == 0x205f
    ||| u == 0x3000
}

/// `str::trim_start`: drops the leading whitespace.
pub open spec fn trim_start(s: Seq<char>) -> Seq<char>
    decreases s.len(),
{
    if s.len() > 0 && is_ws(s[0]) {
        trim_start(s.drop_first())
    } else {
        s
    }
}

/// `str::trim_end`: drops the trailing whitespace.
pub open spec fn trim_end(s: Seq<char>) -> Seq<char>
    decreases s.len(),
{
    if s.len() > 0 && is_ws(s.last()) {
        trim_end(s.drop_last())
    } else {
        s
    }
}

/// `str::trim`: drops leading and trailing whitespace.
pub open spec fn trim(s: Seq<char>) -> Seq<char> {
    trim_end(trim_start(s))
}

/// Drops one trailing carriage return, if there is one.
pub open spec fn strip_cr(s: Seq<char>) -> Seq<char> {
    if s.len() > 0 && s.last() == '\r' {
        s.drop_last()
    } else {
        s
    }
}

/// The lines of `rest`, when `cur` holds the part of the current line that
/// was already read. A line ends at `'\n'`, which is dropped together with
/// one `'\r'` before it; a last line without `'\n'` keeps its characters.
pub open spec fn lines_from(cur: Seq<char>, rest: Seq<char>) -> Seq<Seq<char>>
    decreases rest.len(),
{
    if rest.len() == 0 {
        if cur.len() == 0 {
            seq![]
        } else {
            seq![cur]
        }
    } else if rest[0] == '\n' {
        seq![strip_cr(cur)] + lines_from(seq![], rest.drop_first())
    } else {
        lines_from(cur.push(rest[0]), rest.drop_first())
    }
}

/// `str::lines`.
pub open spec fn lines_of(s: Seq<char>) -> Seq<Seq<char>> {
    lines_from(seq![], s)
}

/// The pieces of `rest` between whitespace, with `cur` the part of the
/// current piece already read; empty pieces are dropped.
pub open spec fn words_from(cur: Seq<char>, rest: Seq<char>) -> Seq<Seq<char>>
    decreases rest.len(),
{
    if rest.len() == 0 {
        if cur.len() == 0 {
            seq![]
        } else {
            seq![cur]
        }
    } else if is_ws(rest[0]) {
        if cur.len() == 0 {
            words_from(seq![], rest.drop_first())
        } else {
            seq![cur] + words_from(seq![], rest.drop_first())
        }
    } else {
        words_from(cur.push(rest[0]), rest.drop_first())
    }
}

/// `str::split_whitespace`.
pub open spec fn words_of(s: Seq<char>) -> Seq<Seq<char>> {
    words_from(seq![], s)
}

/// The pieces of `rest` between occurrences of `sep`, with `cur` the part
/// of the current piece already read; empty pieces are kept.
pub open spec fn pieces_from(cur: Seq<char>, rest: Seq<char>, sep: char) -> Seq<Seq<char>>
    decreases rest.len(),
{
    if rest.len() == 0 {
        seq![cur]
    } else if rest[0] == sep {
        seq![cur] + pieces_from(seq![], rest.drop_first(), sep)
    } else {
        pieces_from(cur.push(rest[0]), rest.drop_first(), sep)
    }
}

/// `str::split` on one character.
pub open spec fn split_on(s: Seq<char>, sep: char) -> Seq<Seq<char>> {
    pieces_from(seq![], s, sep)
}

/// `[..].join(sep)`: the parts with `sep` between neighbours.
pub open spec fn join(parts: Seq<Seq<char>>, sep: Seq<char>) -> Seq<char>
    decreases parts.len(),
{
    if parts.len() == 0 {
        seq![]
    } else if parts.len() == 1 {
        parts[0]
    } else {
        join(parts.drop_last(), sep) + sep + parts.last()
    }
}

/// `s` begins with `p`.
pub open spec fn starts_with(s: Seq<char>, p: Seq<char>) -> bool {
    p.len() <= s.len() && s.subrange(0, p.len() as int) == p
}

/// `s` ends with `p`.
pub open spec fn ends_with(s: Seq<char>, p: Seq<char>) -> bool {
    p.len() <= s.len() && s.subrange(s.len() - p.len(), s.len() as int) == p
}

/// `p` occurs in `s`.
pub open spec fn contains(s: Seq<char>, p: Seq<char>) -> bool {
    exists|i: int| 0 <= i <= s.len() - p.len() && #[trigger] s.subrange(i, i + p.len()) == p
}

/// `str::matches(p).count()` for a non-empty `p`: the occurrences of `p`
/// found from left to right, each search resuming after the last match.
pub open spec fn count_matches(s: Seq<char>, p: Seq<char>) -> nat
    decreases s.len(),
{
    if p.len() == 0 || s.len() < p.len() {
        0
    } else if s.subrange(0, p.len() as int) == p {
        1 + count_matches(s.skip(p.len() as int), p)
    } else {
        count_matches(s.drop_first(), p)
    }
}

/// Replaces every `from` by `to`.
pub open spec fn replace_char(s: Seq<char>, from: char, to: char) -> Seq<char> {
    s.map_values(|c: char| if c == from { to } else { c })
}

/// The digit `d` (below 16), lower case.
pub open spec fn digit_char(d: nat) -> char {
    if d < 10 {
        (d + 48) as char
    } else {
        (d + 87) as char
    }
}

/// The decimal form of `n`, without leading zeros.
pub open spec fn decimal(n: nat) -> Seq<char>
    decreases n,
{
    if n < 10 {
        seq![digit_char(n)]
    } else {
        decimal(n / 10).push(digit_char(n % 10))
    }
}

/// The lower-case hexadecimal form of `n`, without leading zeros
/// (what `{:x}` prints).
pub open spec fn hex(n: nat) -> Seq<char>
    decreases n,
{
    if n < 16 {
        seq![digit_char(n)]
    } else {
        hex(n / 16).push(digit_char(n % 16))
    }
}

/// `s` preceded by as many `fill` characters as it takes to reach `width`.
pub open spec fn pad_left(s: Seq<char>, width: nat, fill: char) -> Seq<char> {
    if s.len() >= width {
        s
    } else {
        Seq::new((width - s.len()) as nat, |i: int| fill) + s
    }
}


/// The character sequences held by a sequence of vectors.
pub open spec fn seqs_of(v: Seq<Vec<char>>) -> Seq<Seq<char>> {
    v.map_values(|x: Vec<char>| x@)
}

/// The character sequences of a sequence of strings.
pub open spec fn texts_of(v: Seq<String>) -> Seq<Seq<char>> {
    v.map_values(|x: String| x@)
}

/// `s` holds no newline.
pub open spec fn no_newline(s: Seq<char>) -> bool {
    forall|i: int| 0 <= i < s.len() ==> #[trigger] s[i] != '\n'
}

/// `s` is a word: not empty, and without whitespace.
pub open spec fn is_word(s: Seq<char>) -> bool {
    s.len() > 0 && forall|i: int| 0 <= i < s.len() ==> !is_ws(#[trigger] s[i])
}

// ---------------------------------------------------------------------
// Lemmas
// ---------------------------------------------------------------------

/// Reading a text without newline adds it to the current line.
pub proof fn lemma_lines_no_newline(cur: Seq<char>, x: Seq<char>)
    requires
        no_newline(x),
    ensures
        lines_from(cur, x) == if (cur + x).len() == 0 {
            Seq::<Seq<char>>::empty()
        } else {
            seq![cur + x]
        },
    decreases x.len(),
{
    if x.len() == 0 {
        assert(cur + x =~= cur);
    } else {
        assert(x[0] != '\n');
        lemma_lines_no_newline(cur.push(x[0]), x.drop_first());
        assert(cur.push(x[0]) + x.drop_first() =~= cur + x);
    }
}

/// Reading a text without newline and then a newline ends the current
/// line.
pub proof fn lemma_lines_through_newline(cur: Seq<char>, x: Seq<char>, rest: Seq<char>)
    requires
        no_newline(x),
    ensures
        lines_from(cur, x + seq!['\n'] + rest) == seq![strip_cr(cur + x)] + lines_from(
            seq![],
            rest,
        ),
    decreases x.len(),
{
    let t = x + seq!['\n'] + rest;
    if x.len() == 0 {
        assert(t[0] == '\n');
        assert(t.drop_first() =~= rest);
        assert(cur + x =~= cur);
    } else {
        assert(t[0] == x[0]);
        assert(x[0] != '\n');
        assert(t.drop_first() =~= x.drop_first() + seq!['\n'] + rest);
        lemma_lines_through_newline(cur.push(x[0]), x.drop_first(), rest);
        assert(cur.push(x[0]) + x.drop_first() =~= cur + x);
    }
}

/// The lines of joined lines followed by a newline are the joined lines,
/// each without its last carriage return.
pub proof fn lemma_lines_of_joined(parts: Seq<Seq<char>>, rest: Seq<char>)
    requires
        parts.len() > 0,
        forall|i: int| 0 <= i < parts.len() ==> no_newline(#[trigger] parts[i]),
    ensures
        lines_from(seq![], join(parts, seq!['\n']) + seq!['\n'] + rest) == parts.map_values(
            |p: Seq<char>| strip_cr(p),
        ) + lines_from(seq![], rest),
    decreases parts.len(),
{
    if parts.len() == 1 {
        lemma_lines_through_newline(seq![], parts[0], rest);
        assert(Seq::<char>::empty() + parts[0] =~= parts[0]);
        assert(parts.map_values(|p: Seq<char>| strip_cr(p)) =~= seq![strip_cr(parts[0])]);
    } else {
        let init = parts.drop_last();
        let z = parts.last();
        assert(no_newline(z));
        let tail = z + seq!['\n'] + rest;
        assert(join(parts, seq!['\n']) + seq!['\n'] + rest =~= join(init, seq!['\n'])
            + seq!['\n'] + tail);
        lemma_lines_of_joined(init, tail);
        lemma_lines_through_newline(seq![], z, rest);
        assert(Seq::<char>::empty() + z =~= z);
        assert(parts.map_values(|p: Seq<char>| strip_cr(p)) =~= init.map_values(
            |p: Seq<char>| strip_cr(p),
        ) + seq![strip_cr(z)]);
    }
}

/// The lines of lines joined with newlines: all but the last lose a last
/// carriage return, and an empty last line is dropped.
pub proof fn lemma_lines_of_join(parts: Seq<Seq<char>>)
    requires
        parts.len() > 0,
        forall|i: int| 0 <= i < parts.len() ==> no_newline(#[trigger] parts[i]),
    ensures
        lines_of(join(parts, seq!['\n'])) == parts.drop_last().map_values(
            |p: Seq<char>| strip_cr(p),
        ) + if parts.last().len() > 0 {
            seq![parts.last()]
        } else {
            Seq::<Seq<char>>::empty()
        },
{
    let z = parts.last();
    assert(no_newline(z));
    if parts.len() == 1 {
        lemma_lines_no_newline(seq![], z);
        assert(Seq::<char>::empty() + z =~= z);
        assert(parts.drop_last().map_values(|p: Seq<char>| strip_cr(p)) =~= Seq::<
            Seq<char>,
        >::empty());
        assert(join(parts, seq!['\n']) == z);
    } else {
        let init = parts.drop_last();
        assert forall|i: int| 0 <= i < init.len() implies no_newline(#[trigger] init[i]) by {
            assert(init[i] == parts[i]);
        }
        lemma_lines_of_joined(init, z);
        lemma_lines_no_newline(seq![], z);
        assert(Seq::<char>::empty() + z =~= z);
    }
}

/// The lines of a text that ends with a newline, followed by more text,
/// are the lines of each.
pub proof fn lemma_lines_concat(cur: Seq<char>, y: Seq<char>, z: Seq<char>)
    requires
        y.len() > 0,
        y.last() == '\n',
    ensures
        lines_from(cur, y + z) == lines_from(cur, y) + lines_from(seq![], z),
    decreases y.len(),
{
    assert((y + z)[0] == y[0]);
    if y[0] == '\n' {
        if y.len() == 1 {
            assert((y + z).drop_first() =~= z);
            assert(y.drop_first() =~= Seq::<char>::empty());
        } else {
            assert((y + z).drop_first() =~= y.drop_first() + z);
            lemma_lines_concat(seq![], y.drop_first(), z);
        }
    } else {
        assert((y + z).drop_first() =~= y.drop_first() + z);
        lemma_lines_concat(cur.push(y[0]), y.drop_first(), z);
    }
}

/// `s` does not hold `c`.
pub open spec fn lacks(s: Seq<char>, c: char) -> bool {
    forall|i: int| 0 <= i < s.len() ==> #[trigger] s[i] != c
}

/// Joining the pieces of a split with the separator gives the text back.
pub proof fn lemma_split_join(cur: Seq<char>, rest: Seq<char>, sep: char)
    ensures
        join(pieces_from(cur, rest, sep), seq![sep]) == cur + rest,
    decreases rest.len(),
{
    if rest.len() == 0 {
        assert(cur + rest =~= cur);
    } else if rest[0] == sep {
        let p = pieces_from(seq![], rest.drop_first(), sep);
        lemma_last_piece(seq![], rest.drop_first(), sep);
        lemma_split_join(seq![], rest.drop_first(), sep);
        lemma_join_concat(seq![cur], p, seq![sep]);
        assert(Seq::<char>::empty() + rest.drop_first() =~= rest.drop_first());
        assert(cur + seq![sep] + rest.drop_first() =~= cur + rest);
    } else {
        lemma_split_join(cur.push(rest[0]), rest.drop_first(), sep);
        assert(cur.push(rest[0]) + rest.drop_first() =~= cur + rest);
    }
}

/// No piece of a split holds the separator.
pub proof fn lemma_pieces_lack_sep(cur: Seq<char>, rest: Seq<char>, sep: char)
    requires
        lacks(cur, sep),
    ensures
        forall|i: int|
            0 <= i < pieces_from(cur, rest, sep).len() ==> lacks(
                #[trigger] pieces_from(cur, rest, sep)[i],
                sep,
            ),
    decreases rest.len(),
{
    if rest.len() > 0 {
        if rest[0] == sep {
            lemma_pieces_lack_sep(seq![], rest.drop_first(), sep);
            let l = pieces_from(cur, rest, sep);
            assert forall|i: int| 0 <= i < l.len() implies lacks(#[trigger] l[i], sep) by {
                if i > 0 {
                    assert(l[i] == pieces_from(seq![], rest.drop_first(), sep)[i - 1]);
                } else {
                    assert(l[0] == cur);
                }
            }
        } else {
            let c2 = cur.push(rest[0]);
            assert forall|j: int| 0 <= j < c2.len() implies #[trigger] c2[j] != sep by {
                if j < cur.len() {
                    assert(c2[j] == cur[j]);
                }
            }
            lemma_pieces_lack_sep(c2, rest.drop_first(), sep);
            assert(pieces_from(cur, rest, sep) == pieces_from(c2, rest.drop_first(), sep));
        }
    } else {
        let l = pieces_from(cur, rest, sep);
        assert forall|i: int| 0 <= i < l.len() implies lacks(#[trigger] l[i], sep) by {
            assert(l[i] == cur);
        }
    }
}

/// Splitting a text whose first separator follows `a` gives `a` first,
/// then the pieces of the rest.
pub proof fn lemma_split_first(cur: Seq<char>, a: Seq<char>, rest: Seq<char>, sep: char)
    requires
        lacks(a, sep),
    ensures
        pieces_from(cur, a + seq![sep] + rest, sep) == seq![cur + a] + pieces_from(
            seq![],
            rest,
            sep,
        ),
    decreases a.len(),
{
    let x = a + seq![sep] + rest;
    if a.len() == 0 {
        assert(x[0] == sep);
        assert(x.drop_first() =~= rest);
        assert(cur + a =~= cur);
    } else {
        assert(x[0] == a[0]);
        assert(x.drop_first() =~= a.drop_first() + seq![sep] + rest);
        assert forall|i: int| 0 <= i < a.drop_first().len() implies #[trigger] a.drop_first()[i]
            != sep by {
            assert(a.drop_first()[i] == a[i + 1]);
        }
        lemma_split_first(cur.push(a[0]), a.drop_first(), rest, sep);
        assert(cur.push(a[0]) + a.drop_first() =~= cur + a);
    }
}

/// `s` holds no carriage return.
pub open spec fn no_cr(s: Seq<char>) -> bool {
    forall|i: int| 0 <= i < s.len() ==> #[trigger] s[i] != '\r'
}

/// The lines of a text without carriage returns hold none.
pub proof fn lemma_lines_no_cr(cur: Seq<char>, rest: Seq<char>)
    requires
        no_cr(cur),
        no_cr(rest),
    ensures
        forall|i: int|
            0 <= i < lines_from(cur, rest).len() ==> no_cr(#[trigger] lines_from(cur, rest)[i]),
    decreases rest.len(),
{
    if rest.len() > 0 {
        assert forall|j: int| 0 <= j < rest.drop_first().len() implies #[trigger] rest.drop_first()[j]
            != '\r' by {
            assert(rest.drop_first()[j] == rest[j + 1]);
        }
        if rest[0] == '\n' {
            lemma_lines_no_cr(seq![], rest.drop_first());
            let l = lines_from(cur, rest);
            assert forall|i: int| 0 <= i < l.len() implies no_cr(#[trigger] l[i]) by {
                if i > 0 {
                    assert(l[i] == lines_from(seq![], rest.drop_first())[i - 1]);
                } else {
                    assert(l[0] == strip_cr(cur));
                    assert forall|j: int| 0 <= j < strip_cr(cur).len() implies #[trigger] strip_cr(
                        cur,
                    )[j] != '\r' by {
                        assert(strip_cr(cur)[j] == cur[j]);
                    }
                }
            }
        } else {
            let c2 = cur.push(rest[0]);
            assert forall|j: int| 0 <= j < c2.len() implies #[trigger] c2[j] != '\r' by {
                if j < cur.len() {
                    assert(c2[j] == cur[j]);
                }
            }
            lemma_lines_no_cr(c2, rest.drop_first());
            assert(lines_from(cur, rest) == lines_from(c2, rest.drop_first()));
        }
    } else {
        let l = lines_from(cur, rest);
        assert forall|i: int| 0 <= i < l.len() implies no_cr(#[trigger] l[i]) by {
            assert(l[i] == cur);
        }
    }
}

/// The parts of a joined text without carriage returns hold none, when the
/// separator holds none.
pub proof fn lemma_join_no_cr(parts: Seq<Seq<char>>, sep: Seq<char>)
    requires
        no_cr(join(parts, sep)),
    ensures
        forall|i: int| 0 <= i < parts.len() ==> no_cr(#[trigger] parts[i]),
    decreases parts.len(),
{
    if parts.len() > 1 {
        let a = join(parts.drop_last(), sep);
        let j = join(parts, sep);
        assert(j == a + sep + parts.last());
        assert forall|x: int| 0 <= x < a.len() implies #[trigger] a[x] != '\r' by {
            assert(j[x] == a[x]);
        }
        lemma_join_no_cr(parts.drop_last(), sep);
        assert forall|x: int| 0 <= x < parts.last().len() implies #[trigger] parts.last()[x]
            != '\r' by {
            assert(j[a.len() + sep.len() + x] == parts.last()[x]);
        }
        assert forall|i: int| 0 <= i < parts.len() implies no_cr(#[trigger] parts[i]) by {
            if i < parts.len() - 1 {
                assert(parts[i] == parts.drop_last()[i]);
            }
        }
    }
}

/// What `trim_start` leaves does not start with whitespace.
pub proof fn lemma_trim_start_shape(s: Seq<char>)
    ensures
        trim_start(s).len() == 0 || !is_ws(trim_start(s)[0]),
    decreases s.len(),
{
    if s.len() > 0 && is_ws(s[0]) {
        lemma_trim_start_shape(s.drop_first());
    }
}

/// What `trim_end` leaves is a prefix that does not end with whitespace.
pub proof fn lemma_trim_end_shape(s: Seq<char>)
    ensures
        trim_end(s).len() <= s.len(),
        trim_end(s) == s.take(trim_end(s).len() as int),
        trim_end(s).len() == 0 || !is_ws(trim_end(s).last()),
    decreases s.len(),
{
    if s.len() > 0 && is_ws(s.last()) {
        lemma_trim_end_shape(s.drop_last());
        assert(s.drop_last().take(trim_end(s).len() as int) =~= s.take(trim_end(s).len() as int));
    } else {
        assert(s.take(s.len() as int) =~= s);
    }
}

/// What `trim` leaves neither starts nor ends with whitespace.
pub proof fn lemma_trim_shape(s: Seq<char>)
    ensures
        trim(s).len() == 0 || (!is_ws(trim(s)[0]) && !is_ws(trim(s).last())),
{
    lemma_trim_start_shape(s);
    lemma_trim_end_shape(trim_start(s));
    if trim(s).len() > 0 {
        assert(trim(s)[0] == trim_start(s)[0]);
    }
}

/// A text that neither starts nor ends with whitespace is its own trim.
pub proof fn lemma_trim_fixed(s: Seq<char>)
    requires
        s.len() == 0 || (!is_ws(s[0]) && !is_ws(s.last())),
    ensures
        trim(s) == s,
{
}

/// Trimming twice trims once.
pub proof fn lemma_trim_twice(s: Seq<char>)
    ensures
        trim(trim(s)) == trim(s),
{
    lemma_trim_shape(s);
    lemma_trim_fixed(trim(s));
}

/// The last piece of a split, when it is not empty, ends as the text does.
pub proof fn lemma_last_piece(cur: Seq<char>, rest: Seq<char>, sep: char)
    ensures
        pieces_from(cur, rest, sep).len() > 0,
        pieces_from(cur, rest, sep).last().len() > 0 ==> pieces_from(cur, rest, sep).last().last()
            == (cur + rest).last(),
    decreases rest.len(),
{
    if rest.len() == 0 {
        assert(cur + rest =~= cur);
    } else if rest[0] == sep {
        lemma_last_piece(seq![], rest.drop_first(), sep);
        let p = pieces_from(seq![], rest.drop_first(), sep);
        assert((seq![cur] + p).last() == p.last());
        if p.last().len() > 0 {
            if rest.drop_first().len() == 0 {
                assert(p =~= seq![Seq::<char>::empty()]);
            }
            assert(Seq::<char>::empty() + rest.drop_first() =~= rest.drop_first());
            assert((cur + rest).last() == rest.last());
        }
    } else {
        lemma_last_piece(cur.push(rest[0]), rest.drop_first(), sep);
        assert(cur.push(rest[0]) + rest.drop_first() =~= cur + rest);
    }
}

/// No carriage return of `s` ends a line: each is followed by a character
/// other than a newline.
pub open spec fn no_cr_line_end(s: Seq<char>) -> bool {
    forall|i: int| 0 <= i < s.len() && #[trigger] s[i] == '\r' ==> i + 1 < s.len() && s[i + 1] != '\n'
}

/// Joining two non-empty runs of parts joins each and puts a separator
/// between them.
pub proof fn lemma_join_concat(a: Seq<Seq<char>>, b: Seq<Seq<char>>, sep: Seq<char>)
    requires
        a.len() > 0,
        b.len() > 0,
    ensures
        join(a + b, sep) == join(a, sep) + sep + join(b, sep),
    decreases b.len(),
{
    if b.len() == 1 {
        assert((a + b).drop_last() =~= a);
    } else {
        assert((a + b).drop_last() =~= a + b.drop_last());
        lemma_join_concat(a, b.drop_last(), sep);
    }
}

/// A text that ends with a newline, and in which no carriage return ends a
/// line, is its lines joined with newlines, and a newline.
pub proof fn lemma_join_lines_ended(y: Seq<char>)
    requires
        y.len() > 0,
        y.last() == '\n',
        no_cr_line_end(y),
    ensures
        lines_of(y).len() > 0,
        join(lines_of(y), seq!['\n']) + seq!['\n'] == y,
    decreases y.len(),
{
    let z = y.drop_last();
    if no_newline(z) {
        assert(y =~= z + seq!['\n'] + Seq::<char>::empty());
        lemma_lines_through_newline(seq![], z, seq![]);
        assert(Seq::<char>::empty() + z =~= z);
        if z.len() > 0 && z.last() == '\r' {
            assert(y[z.len() - 1] == '\r');
        }
        assert(strip_cr(z) == z);
        assert(lines_of(y) =~= seq![z]);
    } else {
        let j = choose|j: int| 0 <= j < z.len() && z[j] == '\n';
        let w = y.subrange(0, j + 1);
        let x = y.subrange(j + 1, y.len() as int);
        assert(y =~= w + x);
        assert(w.last() == '\n');
        assert forall|i: int| 0 <= i < w.len() && #[trigger] w[i] == '\r' implies i + 1 < w.len()
            && w[i + 1] != '\n' by {
            assert(w[i] == y[i]);
            assert(y[i + 1] != '\n');
        }
        assert forall|i: int| 0 <= i < x.len() && #[trigger] x[i] == '\r' implies i + 1 < x.len()
            && x[i + 1] != '\n' by {
            assert(x[i] == y[j + 1 + i]);
        }
        lemma_join_lines_ended(w);
        lemma_join_lines_ended(x);
        lemma_lines_concat(seq![], w, x);
        lemma_join_concat(lines_of(w), lines_of(x), seq!['\n']);
        assert(join(lines_of(w), seq!['\n']) =~= w.drop_last());
    }
}

/// The lines of `rest` that a newline ends, with `cur` the part of the
/// current line already read.
pub open spec fn ended_lines(cur: Seq<char>, rest: Seq<char>) -> Seq<Seq<char>>
    decreases rest.len(),
{
    if rest.len() == 0 {
        seq![]
    } else if rest[0] == '\n' {
        seq![strip_cr(cur)] + ended_lines(seq![], rest.drop_first())
    } else {
        ended_lines(cur.push(rest[0]), rest.drop_first())
    }
}

/// The part of the last line of `rest` that no newline ends.
pub open spec fn open_line(cur: Seq<char>, rest: Seq<char>) -> Seq<char>
    decreases rest.len(),
{
    if rest.len() == 0 {
        cur
    } else if rest[0] == '\n' {
        open_line(seq![], rest.drop_first())
    } else {
        open_line(cur.push(rest[0]), rest.drop_first())
    }
}

/// The lines read are the ended lines and the open line, when it is not
/// empty.
pub proof fn lemma_lines_ended_open(cur: Seq<char>, rest: Seq<char>)
    ensures
        lines_from(cur, rest) == ended_lines(cur, rest) + if open_line(cur, rest).len() > 0 {
            seq![open_line(cur, rest)]
        } else {
            Seq::<Seq<char>>::empty()
        },
    decreases rest.len(),
{
    if rest.len() == 0 {
        if cur.len() == 0 {
            assert(Seq::<Seq<char>>::empty() + Seq::<Seq<char>>::empty() =~= Seq::<
                Seq<char>,
            >::empty());
        } else {
            assert(Seq::<Seq<char>>::empty() + seq![cur] =~= seq![cur]);
        }
    } else if rest[0] == '\n' {
        lemma_lines_ended_open(seq![], rest.drop_first());
        let o = open_line(seq![], rest.drop_first());
        let tail: Seq<Seq<char>> = if o.len() > 0 {
            seq![o]
        } else {
            Seq::<Seq<char>>::empty()
        };
        assert(seq![strip_cr(cur)] + (ended_lines(seq![], rest.drop_first()) + tail) =~= (seq![
            strip_cr(cur),
        ] + ended_lines(seq![], rest.drop_first())) + tail);
    } else {
        lemma_lines_ended_open(cur.push(rest[0]), rest.drop_first());
    }
}

/// A newline after a text ends its open line.
pub proof fn lemma_lines_close(cur: Seq<char>, x: Seq<char>, rest: Seq<char>)
    ensures
        lines_from(cur, x + seq!['\n'] + rest) == ended_lines(cur, x) + seq![
            strip_cr(open_line(cur, x)),
        ] + lines_from(seq![], rest),
    decreases x.len(),
{
    let t = x + seq!['\n'] + rest;
    if x.len() == 0 {
        assert(t[0] == '\n');
        assert(t.drop_first() =~= rest);
        assert(ended_lines(cur, x) + seq![strip_cr(cur)] =~= seq![strip_cr(cur)]);
    } else if x[0] == '\n' {
        assert(t[0] == '\n');
        assert(t.drop_first() =~= x.drop_first() + seq!['\n'] + rest);
        lemma_lines_close(seq![], x.drop_first(), rest);
        let e = ended_lines(seq![], x.drop_first());
        let m = seq![strip_cr(open_line(seq![], x.drop_first()))];
        let r = lines_from(seq![], rest);
        assert(seq![strip_cr(cur)] + (e + m + r) =~= seq![strip_cr(cur)] + e + m + r);
    } else {
        assert(t[0] == x[0]);
        assert(t.drop_first() =~= x.drop_first() + seq!['\n'] + rest);
        lemma_lines_close(cur.push(x[0]), x.drop_first(), rest);
    }
}

/// Trimming does not see a last carriage return.
pub proof fn lemma_trim_strip_cr(s: Seq<char>)
    ensures
        trim(strip_cr(s)) == trim(s),
{
    if s.len() > 0 && s.last() == '\r' {
        lemma_trim_drop_last_ws(s);
    }
}

/// Dropping a last whitespace character does not change the trimmed text.
pub proof fn lemma_trim_drop_last_ws(s: Seq<char>)
    requires
        s.len() > 0,
        is_ws(s.last()),
    ensures
        trim_end(trim_start(s.drop_last())) == trim_end(trim_start(s)),
    decreases s.len(),
{
    if s.len() == 1 {
        assert(s.drop_last() =~= Seq::<char>::empty());
        assert(s.drop_first() =~= Seq::<char>::empty());
    } else if is_ws(s[0]) {
        assert(s.drop_last()[0] == s[0]);
        assert(s.drop_last().drop_first() =~= s.drop_first().drop_last());
        lemma_trim_drop_last_ws(s.drop_first());
    } else {
        assert(s.drop_last()[0] == s[0]);
    }
}

/// Reading a text without whitespace adds it to the current word.
pub proof fn lemma_words_no_ws(cur: Seq<char>, x: Seq<char>)
    requires
        forall|i: int| 0 <= i < x.len() ==> !is_ws(#[trigger] x[i]),
    ensures
        words_from(cur, x) == if (cur + x).len() == 0 {
            Seq::<Seq<char>>::empty()
        } else {
            seq![cur + x]
        },
    decreases x.len(),
{
    if x.len() == 0 {
        assert(cur + x =~= cur);
    } else {
        assert(!is_ws(x[0]));
        lemma_words_no_ws(cur.push(x[0]), x.drop_first());
        assert(cur.push(x[0]) + x.drop_first() =~= cur + x);
    }
}

/// Reading a text without whitespace and then a whitespace character ends
/// the current word.
pub proof fn lemma_words_through_ws(cur: Seq<char>, x: Seq<char>, c: char, rest: Seq<char>)
    requires
        forall|i: int| 0 <= i < x.len() ==> !is_ws(#[trigger] x[i]),
        is_ws(c),
        (cur + x).len() > 0,
    ensures
        words_from(cur, x + seq![c] + rest) == seq![cur + x] + words_from(seq![], rest),
    decreases x.len(),
{
    let t = x + seq![c] + rest;
    if x.len() == 0 {
        assert(t[0] == c);
        assert(t.drop_first() =~= rest);
        assert(cur + x =~= cur);
    } else {
        assert(t[0] == x[0]);
        assert(!is_ws(x[0]));
        assert(t.drop_first() =~= x.drop_first() + seq![c] + rest);
        lemma_words_through_ws(cur.push(x[0]), x.drop_first(), c, rest);
        assert(cur.push(x[0]) + x.drop_first() =~= cur + x);
    }
}

/// Different digits are written with different characters.
pub proof fn lemma_digit_char_injective(d: nat, e: nat)
    requires
        d < 16,
        e < 16,
        digit_char(d) == digit_char(e),
    ensures
        d == e,
{
    let cd = digit_char(d);
    let ce = digit_char(e);
    assert((cd as u32) == (ce as u32));
    if d < 10 {
        assert((cd as u32) == d + 48);
    } else {
        assert((cd as u32) == d + 87);
    }
    if e < 10 {
        assert((ce as u32) == e + 48);
    } else {
        assert((ce as u32) == e + 87);
    }
}

/// The hexadecimal form of a number is never empty.
pub proof fn lemma_hex_nonempty(n: nat)
    ensures
        hex(n).len() > 0,
    decreases n,
{
    if n >= 16 {
        lemma_hex_nonempty(n / 16);
    }
}

/// Different numbers have different hexadecimal forms.
pub proof fn law_hex_injective(a: nat, b: nat)
    requires
        hex(a) == hex(b),
    ensures
        a == b,
    decreases a,
{
    if a < 16 && b < 16 {
        assert(hex(a)[0] == digit_char(a));
        assert(hex(b)[0] == digit_char(b));
        lemma_digit_char_injective(a, b);
    } else if a < 16 {
        lemma_hex_nonempty(b / 16);
        assert(hex(b).len() >= 2);
    } else if b < 16 {
        lemma_hex_nonempty(a / 16);
        assert(hex(a).len() >= 2);
    } else {
        assert(hex(a).last() == digit_char(a % 16));
        assert(hex(b).last() == digit_char(b % 16));
        lemma_digit_char_injective(a % 16, b % 16);
        assert(hex(a).drop_last() =~= hex(a / 16));
        assert(hex(b).drop_last() =~= hex(b / 16));
        law_hex_injective(a / 16, b / 16);
    }
}

/// The characters taken as whitespace are exactly those of Unicode's
/// `White_Space` property, which `char::is_whitespace` tests: tab, line
/// feed, vertical tab, form feed, carriage return, space, next line,
/// no-break space, ogham space mark, the spaces from en quad to hair space,
/// the line and paragraph separators, narrow no-break space, medium
/// mathematical space and ideographic space.
pub proof fn law_whitespace_chars(c: char)
    ensures
        is_ws(c) <==> (c == '\t' || c == '\n' || c == '\u{b}' || c == '\u{c}' || c == '\r'
            || c == ' ' || c == '\u{85}' || c == '\u{a0}' || c == '\u{1680}' || ('\u{2000}' <= c
            && c <= '\u{200a}') || c == '\u{2028}' || c == '\u{2029}' || c == '\u{202f}' || c
            == '\u{205f}' || c == '\u{3000}'),
{
}

/// Two words with one whitespace character between them, a tab as well as
/// a space, split into those two words.
pub proof fn law_words_of_two(a: Seq<char>, b: Seq<char>, c: char)
    requires
        is_word(a),
        is_word(b),
        c == ' ' || c == '\t',
    ensures
        words_of(a + seq![c] + b) == seq![a, b],
{
    lemma_words_through_ws(seq![], a, c, b);
    lemma_words_no_ws(seq![], b);
    assert(Seq::<char>::empty() + a =~= a);
    assert(Seq::<char>::empty() + b =~= b);
}

/// The words of two words with a space between them are those two words.
pub proof fn lemma_words_of_pair(a: Seq<char>, b: Seq<char>)
    requires
        is_word(a),
        is_word(b),
    ensures
        words_of(a + seq![' '] + b) == seq![a, b],
{
    lemma_words_through_ws(seq![], a, ' ', b);
    lemma_words_no_ws(seq![], b);
    assert(Seq::<char>::empty() + a =~= a);
    assert(Seq::<char>::empty() + b =~= b);
}

/// The lines read from a text hold no newline, when the current line
/// holds none.
pub proof fn lemma_lines_have_no_newline(cur: Seq<char>, rest: Seq<char>)
    requires
        no_newline(cur),
    ensures
        forall|i: int|
            0 <= i < lines_from(cur, rest).len() ==> no_newline(#[trigger] lines_from(cur, rest)[i]),
    decreases rest.len(),
{
    if rest.len() > 0 {
        if rest[0] == '\n' {
            lemma_lines_have_no_newline(seq![], rest.drop_first());
            let l = lines_from(cur, rest);
            assert forall|i: int| 0 <= i < l.len() implies no_newline(#[trigger] l[i]) by {
                if i > 0 {
                    assert(l[i] == lines_from(seq![], rest.drop_first())[i - 1]);
                } else {
                    assert(l[0] == strip_cr(cur));
                    assert forall|j: int| 0 <= j < strip_cr(cur).len() implies #[trigger] strip_cr(
                        cur,
                    )[j] != '\n' by {
                        assert(strip_cr(cur)[j] == cur[j]);
                    }
                }
            }
        } else {
            let c2 = cur.push(rest[0]);
            assert forall|j: int| 0 <= j < c2.len() implies #[trigger] c2[j] != '\n' by {
                if j < cur.len() {
                    assert(c2[j] == cur[j]);
                }
            }
            lemma_lines_have_no_newline(c2, rest.drop_first());
            assert(lines_from(cur, rest) == lines_from(c2, rest.drop_first()));
        }
    } else {
        let l = lines_from(cur, rest);
        assert forall|i: int| 0 <= i < l.len() implies no_newline(#[trigger] l[i]) by {
            assert(l[i] == cur);
        }
    }
}

/// The words read from a text are words, when the current word holds no
/// whitespace; and when the current word is not empty, the first word
/// starts with it.
pub proof fn lemma_words_are_words(cur: Seq<char>, rest: Seq<char>)
    requires
        forall|i: int| 0 <= i < cur.len() ==> !is_ws(#[trigger] cur[i]),
    ensures
        forall|i: int|
            0 <= i < words_from(cur, rest).len() ==> is_word(#[trigger] words_from(cur, rest)[i]),
        cur.len() > 0 ==> words_from(cur, rest).len() > 0 && words_from(cur, rest)[0][0]
            == cur[0],
    decreases rest.len(),
{
    let w = words_from(cur, rest);
    if rest.len() > 0 {
        if is_ws(rest[0]) {
            lemma_words_are_words(seq![], rest.drop_first());
            if cur.len() > 0 {
                assert forall|i: int| 0 <= i < w.len() implies is_word(#[trigger] w[i]) by {
                    if i > 0 {
                        assert(w[i] == words_from(seq![], rest.drop_first())[i - 1]);
                    }
                }
            }
        } else {
            let c2 = cur.push(rest[0]);
            assert forall|i: int| 0 <= i < c2.len() implies !is_ws(#[trigger] c2[i]) by {
                if i < cur.len() {
                    assert(c2[i] == cur[i]);
                }
            }
            lemma_words_are_words(c2, rest.drop_first());
        }
    }
}

// ---------------------------------------------------------------------
// Implementations
// ---------------------------------------------------------------------

/// `String::push`: appends one character.
#[verifier::external_body]
pub fn push_char(s: &mut String, c: char)
    ensures
        final(s)@ == old(s)@.push(c),
{
    s.push(c);
}

/// Collects the characters of a string slice, in order.
pub fn chars_of(s: &str) -> (out: Vec<char>)
    ensures
        out@ == s@,
{
    let mut out: Vec<char> = Vec::new();
    for c in it: s.chars()
        invariant
            out@ == it.seq().take(it.index() as int),
    {
        out.push(c);
    }
    out
}

/// Builds a string from its characters.
pub fn string_of(v: &[char]) -> (s: String)
    ensures
        s@ == v@,
{
    let mut s = String::new();
    let n = v.len();
    for i in 0..n
        invariant
            n == v@.len(),
            s@ == v@.take(i as int),
    {
        push_char(&mut s, v[i]);
        assert(v@.take(i + 1) =~= v@.take(i as int).push(v@[i as int]));
    }
    assert(v@.take(n as int) =~= v@);
    s
}

/// Copies `v[lo..hi]`.
pub fn copy_range(v: &[char], lo: usize, hi: usize) -> (out: Vec<char>)
    requires
        lo <= hi <= v@.len(),
    ensures
        out@ == v@.subrange(lo as int, hi as int),
{
    let mut out: Vec<char> = Vec::new();
    let mut i: usize = lo;
    while i < hi
        invariant
            lo <= i <= hi <= v@.len(),
            out@ == v@.subrange(lo as int, i as int),
        decreases hi - i,
    {
        out.push(v[i]);
        i = i + 1;
        assert(out@ =~= v@.subrange(lo as int, i as int));
    }
    out
}

/// Appends `v[lo..hi]` to `out`.
pub fn extend_range(out: &mut Vec<char>, v: &[char], lo: usize, hi: usize)
    requires
        lo <= hi <= v@.len(),
    ensures
        final(out)@ == old(out)@ + v@.subrange(lo as int, hi as int),
{
    let mut i: usize = lo;
    while i < hi
        invariant
            lo <= i <= hi <= v@.len(),
            out@ == old(out)@ + v@.subrange(lo as int, i as int),
        decreases hi - i,
    {
        out.push(v[i]);
        i = i + 1;
        assert(out@ =~= old(out)@ + v@.subrange(lo as int, i as int));
    }
}

/// `char::is_whitespace`.
pub fn is_whitespace(c: char) -> (b: bool)
    ensures
        b == is_ws(c),
{
    let u = c as u32;
    u == 0x20 || (0x09 <= u && u <= 0x0d) || u == 0x85 || u == 0xa0 || u == 0x1680 || (0x2000
        <= u && u <= 0x200a) || u == 0x2028 || u == 0x2029 || u == 0x202f || u == 0x205f || u
        == 0x3000
}

/// Whether two character sequences are equal.
pub fn same_chars(a: &[char], b: &[char]) -> (r: bool)
    ensures
        r == (a@ == b@),
{
    if a.len() != b.len() {
        return false;
    }
    let n = a.len();
    for i in 0..n
        invariant
            n == a@.len() == b@.len(),
            forall|j: int| 0 <= j < i ==> a@[j] == b@[j],
    {
        if a[i] != b[i] {
            return false;
        }
    }
    assert(a@ =~= b@);
    true
}

/// Whether two strings hold the same characters.
pub fn same_text(a: &str, b: &str) -> (r: bool)
    ensures
        r == (a@ == b@),
{
    let x = chars_of(a);
    let y = chars_of(b);
    same_chars(&x, &y)
}

/// Whether `p` occurs in `v` at position `at`.
pub fn matches_at(v: &[char], at: usize, p: &[char]) -> (r: bool)
    requires
        at <= v@.len(),
    ensures
        r == (p@.len() <= v@.len() - at && v@.subrange(at as int, at + p@.len()) == p@),
{
    if p.len() > v.len() - at {
        return false;
    }
    let n = p.len();
    for i in 0..n
        invariant
            n == p@.len(),
            at + n <= v.len(),
            forall|j: int| 0 <= j < i ==> v@[at + j] == p@[j],
    {
        if v[at + i] != p[i] {
            assert(v@.subrange(at as int, at + p@.len())[i as int] != p@[i as int]);
            return false;
        }
    }
    assert(v@.subrange(at as int, at + p@.len()) =~= p@);
    true
}

/// Whether `p` occurs in `v`.
pub fn contains_chars(v: &[char], p: &[char]) -> (r: bool)
    ensures
        r == contains(v@, p@),
{
    if p.len() > v.len() {
        return false;
    }
    let last = v.len() - p.len();
    let mut k: usize = 0;
    loop
        invariant
            k <= last,
            last == v@.len() - p@.len(),
            forall|j: int| 0 <= j < k ==> #[trigger] v@.subrange(j, j + p@.len()) != p@,
        decreases last - k,
    {
        if matches_at(v, k, p) {
            assert(v@.subrange(k as int, k + p@.len()) == p@);
            return true;
        }
        if k == last {
            return false;
        }
        k = k + 1;
    }
}

/// The index where `trim_start` begins.
pub fn trim_start_index(v: &[char]) -> (i: usize)
    ensures
        i <= v@.len(),
        trim_start(v@) == v@.skip(i as int),
{
    let mut i: usize = 0;
    assert(v@.skip(0) =~= v@);
    while i < v.len() && is_whitespace(v[i])
        invariant
            i <= v@.len(),
            trim_start(v@) == trim_start(v@.skip(i as int)),
        decreases v@.len() - i,
    {
        assert(v@.skip(i as int).drop_first() =~= v@.skip(i + 1));
        i = i + 1;
    }
    i
}

/// The index where `trim_end` of `v[lo..]` stops.
pub fn trim_end_index(v: &[char], lo: usize) -> (j: usize)
    requires
        lo <= v@.len(),
    ensures
        lo <= j <= v@.len(),
        trim_end(v@.subrange(lo as int, v@.len() as int)) == v@.subrange(lo as int, j as int),
{
    let mut j: usize = v.len();
    while j > lo && is_whitespace(v[j - 1])
        invariant
            lo <= j <= v@.len(),
            trim_end(v@.subrange(lo as int, v@.len() as int)) == trim_end(
                v@.subrange(lo as int, j as int),
            ),
        decreases j,
    {
        assert(v@.subrange(lo as int, j as int).drop_last() =~= v@.subrange(lo as int, j - 1));
        j = j - 1;
    }
    j
}

/// `str::trim`, as the bounds of the trimmed part.
pub fn trim_bounds(v: &[char]) -> (r: (usize, usize))
    ensures
        r.0 <= r.1 <= v@.len(),
        trim(v@) == v@.subrange(r.0 as int, r.1 as int),
{
    let i = trim_start_index(v);
    assert(v@.skip(i as int) =~= v@.subrange(i as int, v@.len() as int));
    let j = trim_end_index(v, i);
    (i, j)
}

/// `str::trim`.
pub fn trimmed(v: &[char]) -> (out: Vec<char>)
    ensures
        out@ == trim(v@),
{
    let (i, j) = trim_bounds(v);
    copy_range(v, i, j)
}

/// `str::lines`.
pub fn split_lines(t: &[char]) -> (out: Vec<Vec<char>>)
    ensures
        seqs_of(out@) == lines_of(t@),
{
    let mut out: Vec<Vec<char>> = Vec::new();
    let mut cur: Vec<char> = Vec::new();
    let n = t.len();
    assert(t@.skip(0) =~= t@);
    for i in 0..n
        invariant
            n == t@.len(),
            lines_of(t@) == seqs_of(out@) + lines_from(cur@, t@.skip(i as int)),
    {
        assert(t@.skip(i as int).drop_first() =~= t@.skip(i + 1));
        if t[i] == '\n' {
            let ghost old_cur = cur@;
            let ghost before = seqs_of(out@);
            if cur.len() > 0 && cur[cur.len() - 1] == '\r' {
                cur.pop();
            }
            assert(cur@ =~= strip_cr(old_cur));
            out.push(cur);
            assert(seqs_of(out@) =~= before.push(strip_cr(old_cur)));
            assert(before + lines_from(old_cur, t@.skip(i as int)) =~= seqs_of(out@)
                + lines_from(seq![], t@.skip(i + 1)));
            cur = Vec::new();
        } else {
            cur.push(t[i]);
        }
    }
    assert(t@.skip(n as int) =~= Seq::<char>::empty());
    if cur.len() > 0 {
        let ghost before = seqs_of(out@);
        let ghost last = cur@;
        out.push(cur);
        assert(seqs_of(out@) =~= before.push(last));
    } else {
        assert(seqs_of(out@) =~= seqs_of(out@) + Seq::<Seq<char>>::empty());
    }
    out
}


/// `str::split_whitespace`.
pub fn split_words(t: &[char]) -> (out: Vec<Vec<char>>)
    ensures
        seqs_of(out@) == words_of(t@),
{
    let mut out: Vec<Vec<char>> = Vec::new();
    let mut cur: Vec<char> = Vec::new();
    let n = t.len();
    assert(t@.skip(0) =~= t@);
    for i in 0..n
        invariant
            n == t@.len(),
            words_of(t@) == seqs_of(out@) + words_from(cur@, t@.skip(i as int)),
    {
        assert(t@.skip(i as int).drop_first() =~= t@.skip(i + 1));
        if is_whitespace(t[i]) {
            if cur.len() > 0 {
                let ghost before = seqs_of(out@);
                let ghost old_cur = cur@;
                out.push(cur);
                assert(seqs_of(out@) =~= before.push(old_cur));
                assert(before + words_from(old_cur, t@.skip(i as int)) =~= seqs_of(out@)
                    + words_from(seq![], t@.skip(i + 1)));
                cur = Vec::new();
            } else {
                assert(cur@ =~= Seq::<char>::empty());
            }
        } else {
            cur.push(t[i]);
        }
    }
    assert(t@.skip(n as int) =~= Seq::<char>::empty());
    if cur.len() > 0 {
        let ghost before = seqs_of(out@);
        let ghost last = cur@;
        out.push(cur);
        assert(seqs_of(out@) =~= before.push(last));
    } else {
        assert(seqs_of(out@) =~= seqs_of(out@) + Seq::<Seq<char>>::empty());
    }
    out
}

/// `str::split` on the character `sep`.
pub fn split_char(t: &[char], sep: char) -> (out: Vec<Vec<char>>)
    ensures
        seqs_of(out@) == split_on(t@, sep),
{
    let mut out: Vec<Vec<char>> = Vec::new();
    let mut cur: Vec<char> = Vec::new();
    let n = t.len();
    assert(t@.skip(0) =~= t@);
    for i in 0..n
        invariant
            n == t@.len(),
            split_on(t@, sep) == seqs_of(out@) + pieces_from(cur@, t@.skip(i as int), sep),
    {
        assert(t@.skip(i as int).drop_first() =~= t@.skip(i + 1));
        if t[i] == sep {
            let ghost before = seqs_of(out@);
            let ghost old_cur = cur@;
            out.push(cur);
            assert(seqs_of(out@) =~= before.push(old_cur));
            assert(before + pieces_from(old_cur, t@.skip(i as int), sep) =~= seqs_of(out@)
                + pieces_from(seq![], t@.skip(i + 1), sep));
            cur = Vec::new();
        } else {
            cur.push(t[i]);
        }
    }
    assert(t@.skip(n as int) =~= Seq::<char>::empty());
    let ghost before = seqs_of(out@);
    let ghost last = cur@;
    out.push(cur);
    assert(seqs_of(out@) =~= before.push(last));
    out
}

/// Joins `parts[lo..hi]` with `sep` between neighbours.
pub fn join_range(parts: &Vec<Vec<char>>, lo: usize, hi: usize, sep: &[char]) -> (out: Vec<char>)
    requires
        lo <= hi <= parts@.len(),
    ensures
        out@ == join(seqs_of(parts@).subrange(lo as int, hi as int), sep@),
{
    let mut out: Vec<char> = Vec::new();
    let mut i: usize = lo;
    assert(seqs_of(parts@).subrange(lo as int, lo as int) =~= Seq::<Seq<char>>::empty());
    while i < hi
        invariant
            lo <= i <= hi <= parts@.len(),
            out@ == join(seqs_of(parts@).subrange(lo as int, i as int), sep@),
        decreases hi - i,
    {
        let ghost prev = seqs_of(parts@).subrange(lo as int, i as int);
        let ghost next = seqs_of(parts@).subrange(lo as int, i + 1);
        assert(next.drop_last() =~= prev);
        if i > lo {
            extend_range(&mut out, sep, 0, sep.len());
            assert(sep@.subrange(0, sep@.len() as int) =~= sep@);
        }
        let part = &parts[i];
        extend_range(&mut out, part, 0, part.len());
        assert(part@.subrange(0, part@.len() as int) =~= part@);
        if i == lo {
            assert(next.len() == 1);
            assert(out@ =~= next[0]);
        }
        i = i + 1;
    }
    out
}

/// `str::matches(p).count()` for a non-empty `p`.
pub fn count_occurrences(t: &[char], p: &[char]) -> (n: usize)
    ensures
        n == count_matches(t@, p@),
{
    if p.len() == 0 {
        return 0;
    }
    let mut i: usize = 0;
    let mut count: usize = 0;
    assert(t@.skip(0) =~= t@);
    while i < t.len()
        invariant
            0 < p@.len(),
            i <= t@.len(),
            count <= i,
            count + count_matches(t@.skip(i as int), p@) == count_matches(t@, p@),
        decreases t@.len() - i,
    {
        let ghost rest = t@.skip(i as int);
        if matches_at(t, i, p) {
            assert(rest.subrange(0, p@.len() as int) =~= t@.subrange(i as int, i + p@.len()));
            assert(rest.skip(p@.len() as int) =~= t@.skip(i + p@.len()));
            count = count + 1;
            i = i + p.len();
        } else {
            assert(rest.len() >= p@.len() ==> rest.subrange(0, p@.len() as int) =~= t@.subrange(
                i as int,
                i + p@.len(),
            ));
            assert(rest.drop_first() =~= t@.skip(i + 1));
            i = i + 1;
        }
    }
    assert(t@.skip(i as int).len() == 0);
    count
}

/// The digit `d` as a character.
pub fn digit(d: u64) -> (c: char)
    requires
        d < 16,
    ensures
        c == digit_char(d as nat),
{
    if d < 10 {
        ((d as u8) + 48) as char
    } else {
        ((d as u8) + 87) as char
    }
}

/// `n` written in base `base` (10 or 16), most significant digit first.
fn digits_in_base(n: u64, base: u64) -> (out: Vec<char>)
    requires
        base == 10 || base == 16,
    ensures
        base == 10 ==> out@ == decimal(n as nat),
        base == 16 ==> out@ == hex(n as nat),
    decreases n,
{
    if n < base {
        let mut out: Vec<char> = Vec::new();
        out.push(digit(n));
        assert(out@ =~= seq![digit_char(n as nat)]);
        out
    } else {
        let mut out = digits_in_base(n / base, base);
        out.push(digit(n % base));
        out
    }
}

/// `n` in decimal (what `{}` prints).
pub fn decimal_of(n: u64) -> (out: Vec<char>)
    ensures
        out@ == decimal(n as nat),
{
    digits_in_base(n, 10)
}

/// `n` in lower-case hexadecimal (what `{:x}` prints).
pub fn hex_of(n: u64) -> (out: Vec<char>)
    ensures
        out@ == hex(n as nat),
{
    digits_in_base(n, 16)
}

/// `v` preceded by `fill` up to length `width`.
pub fn padded_left(v: &[char], width: usize, fill: char) -> (out: Vec<char>)
    ensures
        out@ == pad_left(v@, width as nat, fill),
{
    let mut out: Vec<char> = Vec::new();
    if v.len() < width {
        let k = width - v.len();
        for i in 0..k
            invariant
                out@ == Seq::new(i as nat, |j: int| fill),
        {
            out.push(fill);
            assert(out@ =~= Seq::new((i + 1) as nat, |j: int| fill));
        }
    }
    extend_range(&mut out, v, 0, v.len());
    assert(v@.subrange(0, v@.len() as int) =~= v@);
    if v.len() >= width {
        assert(out@ =~= v@);
    } else {
        assert(out@ =~= Seq::new((width - v@.len()) as nat, |i: int| fill) + v@);
    }
    out
}

} // verus!
