//! Reading a hosts file into lines and writing lines back as text.
use std::collections::hash_map::DefaultHasher;
use std::hash::{BuildHasher, BuildHasherDefault};

use vstd::prelude::*;

use crate::models::{
    line_views, shape_of, shapes, EntryView, HostEntry, HostsLine, LineShape, LineView,
};
use crate::text::{
    chars_of, copy_range, extend_range, hex, hex_of, is_word, is_ws, join, join_range,
    law_hex_injective, law_words_of_two, lemma_lines_have_no_newline, lemma_lines_no_cr, lemma_lines_no_newline,
    lemma_lines_of_join, lemma_trim_fixed, lemma_trim_strip_cr, lemma_words_are_words,
    lemma_words_of_pair, lines_of, no_cr, no_newline, seqs_of, split_lines, split_words,
    string_of, strip_cr, trim, trim_bounds, trim_end, trim_start, trim_start_index, words_from,
    words_of,
};

verus! {

// ---------------------------------------------------------------------
// Specification
// ---------------------------------------------------------------------

/// The hash that `std`'s `DefaultHasher` gives the triple
/// `(ip, domain, index)`: each text as its UTF-8 bytes and a closing
/// `0xff`, then the index as the bytes of a `usize`, with fixed keys.
pub uninterp spec fn line_key_hash(ip: Seq<char>, domain: Seq<char>, index: usize) -> u64;

/// The identifier of the mapping of `domain` to `ip` found on line `index`:
/// the hash of the three in lower-case hexadecimal.
pub open spec fn entry_id(ip: Seq<char>, domain: Seq<char>, index: int) -> Seq<char> {
    hex(line_key_hash(ip, domain, index as usize) as nat)
}

/// The address and the domains of a mapping line: its first word and the
/// words after it, when there are at least two words.
pub open spec fn mapping_of(line: Seq<char>) -> Option<(Seq<char>, Seq<Seq<char>>)> {
    let w = words_of(line);
    if w.len() >= 2 {
        Some((w[0], w.skip(1)))
    } else {
        None
    }
}

/// One mapping for each domain, all with the same address and state.
pub open spec fn entries_for(ip: Seq<char>, domains: Seq<Seq<char>>, enabled: bool) -> Seq<
    LineShape,
> {
    domains.map_values(|d: Seq<char>| LineShape::Entry { ip, domain: d, enabled })
}

/// The mappings, with their identifiers, that line `index` gives: one for
/// each domain, all with the same address and state.
pub open spec fn entry_views_for(
    ip: Seq<char>,
    domains: Seq<Seq<char>>,
    enabled: bool,
    index: int,
) -> Seq<LineView> {
    domains.map_values(
        |d: Seq<char>|
            LineView::Managed(EntryView { id: entry_id(ip, d, index), ip, domain: d, enabled }),
    )
}

/// What one line of the file becomes: a blank line stays as it is; a line
/// that starts with `#` is a disabled mapping when what follows the `#` is
/// an address and at least one domain, else it stays as it is; any other
/// line is an enabled mapping when it is an address and at least one
/// domain, else it stays as it is.
pub open spec fn parse_line(raw: Seq<char>) -> Seq<LineShape> {
    let t = trim(raw);
    if t.len() == 0 {
        seq![LineShape::Raw(raw)]
    } else if t[0] == '#' {
        match mapping_of(trim_start(t.drop_first())) {
            Some((ip, domains)) => entries_for(ip, domains, false),
            None => seq![LineShape::Raw(raw)],
        }
    } else {
        match mapping_of(t) {
            Some((ip, domains)) => entries_for(ip, domains, true),
            None => seq![LineShape::Raw(raw)],
        }
    }
}

/// What line `index`, holding `raw`, becomes, with the identifiers of its
/// mappings.
pub open spec fn parse_line_views(raw: Seq<char>, index: int) -> Seq<LineView> {
    let t = trim(raw);
    if t.len() == 0 {
        seq![LineView::Raw(raw)]
    } else if t[0] == '#' {
        match mapping_of(trim_start(t.drop_first())) {
            Some((ip, domains)) => entry_views_for(ip, domains, false, index),
            None => seq![LineView::Raw(raw)],
        }
    } else {
        match mapping_of(t) {
            Some((ip, domains)) => entry_views_for(ip, domains, true, index),
            None => seq![LineView::Raw(raw)],
        }
    }
}

/// What a sequence of lines becomes, with identifiers, the line numbers
/// counted from 0.
pub open spec fn parse_views(lines: Seq<Seq<char>>) -> Seq<LineView>
    decreases lines.len(),
{
    if lines.len() == 0 {
        seq![]
    } else {
        parse_views(lines.drop_last()) + parse_line_views(lines.last(), lines.len() - 1)
    }
}

/// What the text of a hosts file becomes, with identifiers.
pub open spec fn parse_text_views(content: Seq<char>) -> Seq<LineView> {
    parse_views(lines_of(content))
}

/// What a sequence of lines becomes, in order.
pub open spec fn parse_lines(lines: Seq<Seq<char>>) -> Seq<LineShape>
    decreases lines.len(),
{
    if lines.len() == 0 {
        seq![]
    } else {
        parse_lines(lines.drop_last()) + parse_line(lines.last())
    }
}

/// What the text of a hosts file becomes.
pub open spec fn parse_text(content: Seq<char>) -> Seq<LineShape> {
    parse_lines(lines_of(content))
}

/// How one line is written: a mapping as its address, a space and its
/// domain, after `# ` when it is disabled; other text as it is.
pub open spec fn render_shape(l: LineShape) -> Seq<char> {
    match l {
        LineShape::Entry { ip, domain, enabled } => if enabled {
            ip + seq![' '] + domain
        } else {
            seq!['#', ' '] + ip + seq![' '] + domain
        },
        LineShape::Raw(r) => r,
    }
}

/// How lines are written: each line written as above, with a newline
/// between neighbours.
pub open spec fn render_text(ls: Seq<LineShape>) -> Seq<char> {
    join(ls.map_values(|l: LineShape| render_shape(l)), seq!['\n'])
}

/// A line that is written as one line and read back as itself: a mapping
/// whose address and domain are words, and whose address, when it is
/// enabled, does not start with `#`; or text without newline that reads
/// as itself.
pub open spec fn writable(l: LineShape) -> bool {
    match l {
        LineShape::Entry { ip, domain, enabled } => is_word(ip) && is_word(domain) && (enabled
            ==> ip[0] != '#'),
        LineShape::Raw(r) => no_newline(r) && parse_line(r) == seq![LineShape::Raw(r)],
    }
}

/// Every line is writable.
pub open spec fn all_writable(s: Seq<LineShape>) -> bool {
    forall|i: int| 0 <= i < s.len() ==> writable(#[trigger] s[i])
}

/// A line as it reads back when a line follows it: text loses a last
/// carriage return.
pub open spec fn settle_shape(l: LineShape) -> LineShape {
    match l {
        LineShape::Raw(r) => LineShape::Raw(strip_cr(r)),
        LineShape::Entry { ip, domain, enabled } => LineShape::Entry { ip, domain, enabled },
    }
}

/// Lines as they read back after being written: text that a line follows
/// loses a last carriage return, and an empty last line is lost.
pub open spec fn reread(s: Seq<LineShape>) -> Seq<LineShape> {
    if s.len() == 0 {
        seq![]
    } else {
        s.drop_last().map_values(|l: LineShape| settle_shape(l)) + if render_shape(s.last()).len()
            > 0 {
            seq![s.last()]
        } else {
            Seq::<LineShape>::empty()
        }
    }
}

/// The mappings among the lines, in order.
pub open spec fn mappings(s: Seq<LineShape>) -> Seq<LineShape>
    decreases s.len(),
{
    if s.len() == 0 {
        seq![]
    } else {
        let before = mappings(s.drop_last());
        match s.last() {
            LineShape::Entry { .. } => before.push(s.last()),
            LineShape::Raw(_) => before,
        }
    }
}

// ---------------------------------------------------------------------
// Laws
// ---------------------------------------------------------------------

/// Reading two runs of lines reads each.
pub proof fn lemma_parse_lines_concat(a: Seq<Seq<char>>, b: Seq<Seq<char>>)
    ensures
        parse_lines(a + b) == parse_lines(a) + parse_lines(b),
    decreases b.len(),
{
    if b.len() == 0 {
        assert(a + b =~= a);
    } else {
        lemma_parse_lines_concat(a, b.drop_last());
        assert((a + b).drop_last() =~= a + b.drop_last());
        assert((a + b).last() == b.last());
    }
}

/// A writable line reads back as itself, and so does the line without a
/// last carriage return, up to that carriage return.
proof fn lemma_parse_line_render(l: LineShape)
    requires
        writable(l),
    ensures
        parse_line(render_shape(l)) == seq![l],
        parse_line(strip_cr(render_shape(l))) == seq![settle_shape(l)],
{
    match l {
        LineShape::Entry { ip, domain, enabled } => {
            let pair = ip + seq![' '] + domain;
            lemma_words_of_pair(ip, domain);
            assert(pair[0] == ip[0]);
            assert(pair.last() == domain.last());
            assert(!is_ws(ip[0]));
            assert(!is_ws(domain[domain.len() - 1]));
            let r = render_shape(l);
            assert(words_of(pair).skip(1) =~= seq![domain]);
            assert(entries_for(ip, seq![domain], enabled) =~= seq![l]);
            if enabled {
                assert(r == pair);
                assert(trim_start(r) == r);
                assert(trim_end(r) == r);
                assert(trim(r) == r);
            } else {
                assert(r[0] == '#');
                assert(r.last() == domain.last());
                assert(trim_start(r) == r);
                assert(trim_end(r) == r);
                let rest = r.drop_first();
                assert(rest =~= seq![' '] + pair);
                assert(rest.drop_first() =~= pair);
                assert(trim_start(pair) == pair);
                assert(trim_start(rest) == pair);
            }
            assert(strip_cr(r) == r);
        },
        LineShape::Raw(r) => {
            lemma_trim_strip_cr(r);
            let t = trim(r);
            if t.len() > 0 && t[0] == '#' {
                if let Some((ip, domains)) = mapping_of(trim_start(t.drop_first())) {
                    assert(entries_for(ip, domains, false)[0] is Entry);
                }
            } else if t.len() > 0 {
                if let Some((ip, domains)) = mapping_of(t) {
                    assert(entries_for(ip, domains, true)[0] is Entry);
                }
            }
        },
    }
}

/// Writable lines, written and each read back without a last carriage
/// return, read back settled.
proof fn lemma_parse_lines_settled(s: Seq<LineShape>)
    requires
        all_writable(s),
    ensures
        parse_lines(
            s.map_values(|l: LineShape| render_shape(l)).map_values(|p: Seq<char>| strip_cr(p)),
        ) == s.map_values(|l: LineShape| settle_shape(l)),
    decreases s.len(),
{
    let x = s.map_values(|l: LineShape| render_shape(l)).map_values(|p: Seq<char>| strip_cr(p));
    if s.len() == 0 {
        assert(x =~= Seq::<Seq<char>>::empty());
        assert(s.map_values(|l: LineShape| settle_shape(l)) =~= Seq::<LineShape>::empty());
    } else {
        let init = s.drop_last();
        assert forall|i: int| 0 <= i < init.len() implies writable(#[trigger] init[i]) by {
            assert(init[i] == s[i]);
        }
        lemma_parse_lines_settled(init);
        assert(writable(s.last()));
        lemma_parse_line_render(s.last());
        assert(x.drop_last() =~= init.map_values(|l: LineShape| render_shape(l)).map_values(
            |p: Seq<char>| strip_cr(p),
        ));
        assert(x.last() == strip_cr(render_shape(s.last())));
        assert(s.map_values(|l: LineShape| settle_shape(l)) =~= init.map_values(
            |l: LineShape| settle_shape(l),
        ) + seq![settle_shape(s.last())]);
    }
}

/// Writing lines and reading them back gives the lines, except that text
/// followed by another line loses a last carriage return and an empty last
/// line is lost, when every line is writable.
#[verifier::spinoff_prover]
pub proof fn law_reread_after_write(s: Seq<LineShape>)
    requires
        all_writable(s),
    ensures
        parse_text(render_text(s)) == reread(s),
{
    let rendered = s.map_values(|l: LineShape| render_shape(l));
    if s.len() == 0 {
        assert(rendered =~= Seq::<Seq<char>>::empty());
        assert(lines_of(Seq::<char>::empty()) =~= Seq::<Seq<char>>::empty());
    } else {
        assert forall|i: int| 0 <= i < rendered.len() implies no_newline(#[trigger] rendered[i]) by {
            assert(writable(s[i]));
            let r = rendered[i];
            assert forall|j: int| 0 <= j < r.len() implies #[trigger] r[j] != '\n' by {
                match s[i] {
                    LineShape::Entry { ip, domain, enabled } => {
                        if enabled {
                            if j < ip.len() {
                                assert(r[j] == ip[j]);
                            } else if j > ip.len() {
                                assert(r[j] == domain[j - ip.len() - 1]);
                            }
                        } else {
                            if 2 <= j < ip.len() + 2 {
                                assert(r[j] == ip[j - 2]);
                            } else if j > ip.len() + 2 {
                                assert(r[j] == domain[j - ip.len() - 3]);
                            }
                        }
                    },
                    LineShape::Raw(t) => {},
                }
            }
        }
        lemma_lines_of_join(rendered);
        let tail: Seq<Seq<char>> = if rendered.last().len() > 0 {
            seq![rendered.last()]
        } else {
            Seq::<Seq<char>>::empty()
        };
        let init = s.drop_last();
        assert forall|i: int| 0 <= i < init.len() implies writable(#[trigger] init[i]) by {
            assert(init[i] == s[i]);
        }
        assert(rendered.drop_last() =~= init.map_values(|l: LineShape| render_shape(l)));
        lemma_parse_lines_settled(init);
        lemma_parse_lines_concat(
            rendered.drop_last().map_values(|p: Seq<char>| strip_cr(p)),
            tail,
        );
        assert(writable(s.last()));
        lemma_parse_line_render(s.last());
        if rendered.last().len() > 0 {
            assert(tail.drop_last() =~= Seq::<Seq<char>>::empty());
            assert(rendered.last() == render_shape(s.last()));
            assert(tail.last() == render_shape(s.last()));
            assert(parse_lines(tail.drop_last()) =~= Seq::<LineShape>::empty());
            assert(parse_lines(tail) =~= Seq::<LineShape>::empty() + parse_line(tail.last()));
            assert(parse_lines(tail) =~= seq![s.last()]);
        } else {
            assert(parse_lines(tail) =~= Seq::<LineShape>::empty());
        }
    }
}

/// A line of an address and a domain with a space or a tab between them,
/// as the default hosts files of Linux and macOS write them, reads as one
/// enabled mapping of the domain to the address.
pub proof fn law_separated_pair_is_mapping(ip: Seq<char>, domain: Seq<char>, c: char)
    requires
        is_word(ip),
        is_word(domain),
        ip[0] != '#',
        c == ' ' || c == '\t',
    ensures
        parse_text(ip + seq![c] + domain) == seq![LineShape::Entry { ip, domain, enabled: true }],
{
    let t = ip + seq![c] + domain;
    assert(no_newline(t)) by {
        assert forall|i: int| 0 <= i < t.len() implies #[trigger] t[i] != '\n' by {
            if i < ip.len() {
                assert(t[i] == ip[i]);
            } else if i > ip.len() {
                assert(t[i] == domain[i - ip.len() - 1]);
            }
        }
    }
    lemma_lines_no_newline(seq![], t);
    assert(Seq::<char>::empty() + t =~= t);
    assert(lines_of(t) =~= seq![t]);
    assert(t[0] == ip[0]);
    assert(t.last() == domain.last());
    lemma_trim_fixed(t);
    law_words_of_two(ip, domain, c);
    assert(words_of(t).skip(1) =~= seq![domain]);
    assert(entries_for(ip, seq![domain], true) =~= seq![LineShape::Entry { ip, domain, enabled: true }]);
    assert(seq![t].drop_last() =~= Seq::<Seq<char>>::empty());
    assert(parse_lines(seq![t]) =~= parse_lines(Seq::<Seq<char>>::empty()) + parse_line(t));
}

/// Two identifiers are equal only when the hashes of their addresses,
/// domains and lines are: an identifier is the hash of all three, so
/// mappings of different domains on one line get different identifiers
/// unless their hashes collide.
pub proof fn law_ids_follow_hashes(
    ip1: Seq<char>,
    domain1: Seq<char>,
    index1: int,
    ip2: Seq<char>,
    domain2: Seq<char>,
    index2: int,
)
    requires
        line_key_hash(ip1, domain1, index1 as usize) != line_key_hash(
            ip2,
            domain2,
            index2 as usize,
        ),
    ensures
        entry_id(ip1, domain1, index1) != entry_id(ip2, domain2, index2),
{
    if entry_id(ip1, domain1, index1) == entry_id(ip2, domain2, index2) {
        law_hex_injective(
            line_key_hash(ip1, domain1, index1 as usize) as nat,
            line_key_hash(ip2, domain2, index2 as usize) as nat,
        );
    }
}

/// Every mapping that line `index` gives carries the identifier of its own
/// address and domain on that line.
pub proof fn law_line_ids(raw: Seq<char>, index: int)
    ensures
        forall|j: int|
            0 <= j < parse_line_views(raw, index).len() ==> (#[trigger] parse_line_views(raw, index)[j] matches LineView::Managed(e)
                ==> e.id == entry_id(e.ip, e.domain, index)),
{
}

/// A line read from line `index`, with the identifier a mapping gets there.
pub open spec fn with_id(l: LineShape, index: int) -> LineView {
    match l {
        LineShape::Entry { ip, domain, enabled } => LineView::Managed(
            EntryView { id: entry_id(ip, domain, index), ip, domain, enabled },
        ),
        LineShape::Raw(r) => LineView::Raw(r),
    }
}

/// Lines, each with the identifier it gets on its own line of the file.
pub open spec fn ids_at(s: Seq<LineShape>) -> Seq<LineView> {
    Seq::new(s.len(), |i: int| with_id(s[i], i))
}

/// The lines that one line of text gives, with identifiers, are the lines
/// it gives, each with the identifier of that line.
proof fn lemma_line_views_ids(raw: Seq<char>, index: int)
    ensures
        parse_line_views(raw, index).len() == parse_line(raw).len(),
        forall|j: int|
            0 <= j < parse_line(raw).len() ==> #[trigger] parse_line_views(raw, index)[j]
                == with_id(parse_line(raw)[j], index),
{
}

/// Lines of text that each give one line give those lines, each with the
/// identifier of its place.
proof fn lemma_parse_views_ids(lines: Seq<Seq<char>>, s: Seq<LineShape>)
    requires
        lines.len() == s.len(),
        forall|i: int| 0 <= i < lines.len() ==> parse_line(#[trigger] lines[i]) == seq![s[i]],
    ensures
        parse_views(lines) == ids_at(s),
    decreases lines.len(),
{
    if lines.len() > 0 {
        let n = lines.len() - 1;
        assert forall|i: int| 0 <= i < n implies parse_line(#[trigger] lines.drop_last()[i])
            == seq![s.drop_last()[i]] by {
            assert(lines.drop_last()[i] == lines[i]);
        }
        lemma_parse_views_ids(lines.drop_last(), s.drop_last());
        assert(parse_line(lines[n]) == seq![s[n]]);
        lemma_line_views_ids(lines[n], n);
        assert(parse_line_views(lines.last(), n) =~= seq![with_id(s[n], n)]);
        assert(ids_at(s) =~= ids_at(s.drop_last()) + seq![with_id(s[n], n)]);
    } else {
        assert(ids_at(s) =~= Seq::<LineView>::empty());
    }
}

/// Writable lines that read back as they are, once written, read back
/// with the identifiers of their places: each is one line of the file.
pub proof fn lemma_views_after_write(s: Seq<LineShape>)
    requires
        all_writable(s),
        reread(s) == s,
    ensures
        parse_text_views(render_text(s)) == ids_at(s),
{
    law_reread_after_write(s);
    let rendered = s.map_values(|l: LineShape| render_shape(l));
    if s.len() == 0 {
        assert(rendered =~= Seq::<Seq<char>>::empty());
        assert(lines_of(Seq::<char>::empty()) =~= Seq::<Seq<char>>::empty());
        assert(ids_at(s) =~= Seq::<LineView>::empty());
    } else {
        let n = s.len() - 1;
        assert(render_shape(s.last()).len() > 0) by {
            if render_shape(s.last()).len() == 0 {
                assert(reread(s).len() == n);
            }
        }
        assert forall|i: int| 0 <= i < rendered.len() implies no_newline(#[trigger] rendered[i])
            && (i < n ==> strip_cr(rendered[i]) == rendered[i]) && parse_line(rendered[i])
            == seq![s[i]] by {
            assert(writable(s[i]));
            lemma_parse_line_render(s[i]);
            let r = rendered[i];
            if i < n {
                assert(reread(s)[i] == settle_shape(s[i]));
            }
            match s[i] {
                LineShape::Entry { ip, domain, enabled } => {
                    assert(r.last() == domain.last());
                    assert(is_ws('\r'));
                    assert forall|j: int| 0 <= j < r.len() implies #[trigger] r[j] != '\n' by {
                        if enabled {
                            if j < ip.len() {
                                assert(r[j] == ip[j]);
                            } else if j > ip.len() {
                                assert(r[j] == domain[j - ip.len() - 1]);
                            }
                        } else {
                            if 2 <= j < ip.len() + 2 {
                                assert(r[j] == ip[j - 2]);
                            } else if j > ip.len() + 2 {
                                assert(r[j] == domain[j - ip.len() - 3]);
                            }
                        }
                    }
                },
                LineShape::Raw(t) => {
                    if i < n {
                        assert(settle_shape(s[i]) == LineShape::Raw(strip_cr(t)));
                    }
                },
            }
        }
        lemma_lines_of_join(rendered);
        let lines = lines_of(render_text(s));
        assert(rendered.drop_last().map_values(|p: Seq<char>| strip_cr(p)) =~= rendered.drop_last())
            by {
            assert forall|i: int| 0 <= i < n implies strip_cr(rendered.drop_last()[i])
                == rendered.drop_last()[i] by {
                assert(rendered.drop_last()[i] == rendered[i]);
            }
        }
        assert(rendered.last() == render_shape(s.last()));
        assert(lines =~= rendered);
        lemma_parse_views_ids(lines, s);
    }
}

/// Lines of text without carriage returns give text lines without them.
proof fn lemma_parse_lines_no_cr(lines: Seq<Seq<char>>)
    requires
        forall|i: int| 0 <= i < lines.len() ==> no_cr(#[trigger] lines[i]),
    ensures
        forall|i: int|
            0 <= i < parse_lines(lines).len() ==> (#[trigger] parse_lines(lines)[i] matches LineShape::Raw(r)
                ==> no_cr(r)),
        lines.len() > 0 ==> parse_lines(lines).len() > 0 && parse_line(lines.last()).len() > 0
            && parse_lines(lines).last() == parse_line(lines.last()).last(),
    decreases lines.len(),
{
    if lines.len() > 0 {
        let init = lines.drop_last();
        assert forall|i: int| 0 <= i < init.len() implies no_cr(#[trigger] init[i]) by {
            assert(init[i] == lines[i]);
        }
        lemma_parse_lines_no_cr(init);
        let a = parse_lines(init);
        let b = parse_line(lines.last());
        let raw = lines.last();
        let t = trim(raw);
        if t.len() > 0 && t[0] == '#' {
            if let Some((ip, domains)) = mapping_of(trim_start(t.drop_first())) {
                assert(b[0] is Entry);
            }
        } else if t.len() > 0 {
            if let Some((ip, domains)) = mapping_of(t) {
                assert(b[0] is Entry);
            }
        }
        assert forall|i: int| 0 <= i < b.len() implies (#[trigger] b[i] matches LineShape::Raw(r)
            ==> no_cr(r)) by {
            if b[i] is Raw {
                assert(b == seq![LineShape::Raw(raw)]);
            }
        }
        assert forall|i: int| 0 <= i < (a + b).len() implies ((#[trigger] (a + b)[i]) matches LineShape::Raw(r)
            ==> no_cr(r)) by {
            if i < a.len() {
                assert((a + b)[i] == a[i]);
            } else {
                assert((a + b)[i] == b[i - a.len()]);
            }
        }
    }
}

/// A text without carriage returns whose last line is not empty reads,
/// is written and reads again as the same lines.
pub proof fn law_rewrite_reads_the_same(content: Seq<char>)
    requires
        no_cr(content),
        lines_of(content).len() > 0 ==> lines_of(content).last().len() > 0,
    ensures
        parse_text(render_text(parse_text(content))) == parse_text(content),
{
    let lines = lines_of(content);
    let s = parse_text(content);
    law_read_lines_are_writable(content);
    law_reread_after_write(s);
    lemma_lines_no_cr(seq![], content);
    lemma_parse_lines_no_cr(lines);
    if s.len() > 0 {
        assert(lines.len() > 0) by {
            if lines.len() == 0 {
                assert(s =~= Seq::<LineShape>::empty());
            }
        }
        let n = s.len() - 1;
        assert forall|i: int| 0 <= i < n implies #[trigger] settle_shape(s[i]) == s[i] by {
            if let LineShape::Raw(r) = s[i] {
                assert(no_cr(r));
                if r.len() > 0 {
                    assert(r.last() == r[r.len() - 1]);
                }
            }
        }
        assert(writable(s.last()));
        match s.last() {
            LineShape::Raw(r) => {
                assert(parse_line(lines.last()) == seq![LineShape::Raw(lines.last())]) by {
                    let b = parse_line(lines.last());
                    let t = trim(lines.last());
                    if t.len() > 0 && t[0] == '#' {
                        if let Some((ip, domains)) = mapping_of(trim_start(t.drop_first())) {
                            assert(b.last() is Entry);
                        }
                    } else if t.len() > 0 {
                        if let Some((ip, domains)) = mapping_of(t) {
                            assert(b.last() is Entry);
                        }
                    }
                }
            },
            LineShape::Entry { ip, domain, enabled } => {},
        }
        assert(render_shape(s.last()).len() > 0);
        assert(reread(s) =~= s.drop_last().map_values(|l: LineShape| settle_shape(l)) + seq![
            s.last(),
        ]);
        assert(reread(s) =~= s);
    } else {
        assert(reread(s) =~= s);
    }
}

/// Every line read from any text is writable.
#[verifier::spinoff_prover]
pub proof fn law_read_lines_are_writable(content: Seq<char>)
    ensures
        all_writable(parse_text(content)),
{
    let lines = lines_of(content);
    lemma_lines_have_no_newline(seq![], content);
    lemma_parse_lines_writable(lines);
}

proof fn lemma_parse_lines_writable(lines: Seq<Seq<char>>)
    requires
        forall|i: int| 0 <= i < lines.len() ==> no_newline(#[trigger] lines[i]),
    ensures
        all_writable(parse_lines(lines)),
    decreases lines.len(),
{
    if lines.len() > 0 {
        let init = lines.drop_last();
        assert forall|i: int| 0 <= i < init.len() implies no_newline(#[trigger] init[i]) by {
            assert(init[i] == lines[i]);
        }
        lemma_parse_lines_writable(init);
        assert(no_newline(lines.last()));
        lemma_parse_line_writable(lines.last());
        let a = parse_lines(init);
        let b = parse_line(lines.last());
        assert forall|i: int| 0 <= i < (a + b).len() implies writable(#[trigger] (a + b)[i]) by {
            if i < a.len() {
                assert((a + b)[i] == a[i]);
            } else {
                assert((a + b)[i] == b[i - a.len()]);
            }
        }
    }
}

proof fn lemma_mapping_words(line: Seq<char>)
    ensures
        mapping_of(line) matches Some((ip, domains)) ==> is_word(ip) && (forall|i: int|
            0 <= i < domains.len() ==> is_word(#[trigger] domains[i])),
        (line.len() > 0 && !is_ws(line[0]) && mapping_of(line) is Some) ==> words_of(line)[0][0]
            == line[0],
{
    lemma_words_are_words(seq![], line);
    let w = words_of(line);
    if w.len() >= 2 {
        assert forall|i: int| 0 <= i < w.skip(1).len() implies is_word(#[trigger] w.skip(1)[i]) by {
            assert(w.skip(1)[i] == w[i + 1]);
        }
    }
    if line.len() > 0 && !is_ws(line[0]) {
        let c = seq![line[0]];
        lemma_words_are_words(c, line.drop_first());
        assert(words_from(seq![], line) == words_from(Seq::<char>::empty().push(line[0]), line.drop_first()));
        assert(Seq::<char>::empty().push(line[0]) =~= c);
    }
}

proof fn lemma_parse_line_writable(raw: Seq<char>)
    requires
        no_newline(raw),
    ensures
        all_writable(parse_line(raw)),
{
    let t = trim(raw);
    let p = parse_line(raw);
    if t.len() == 0 {
        assert(writable(LineShape::Raw(raw)));
    } else if t[0] == '#' {
        let body = trim_start(t.drop_first());
        lemma_mapping_words(body);
        match mapping_of(body) {
            Some((ip, domains)) => {
                assert forall|i: int| 0 <= i < p.len() implies writable(#[trigger] p[i]) by {
                    assert(p[i] == LineShape::Entry { ip, domain: domains[i], enabled: false });
                }
            },
            None => {
                assert(writable(LineShape::Raw(raw)));
            },
        }
    } else {
        lemma_trim_first_not_ws(raw);
        lemma_mapping_words(t);
        match mapping_of(t) {
            Some((ip, domains)) => {
                assert forall|i: int| 0 <= i < p.len() implies writable(#[trigger] p[i]) by {
                    assert(p[i] == LineShape::Entry { ip, domain: domains[i], enabled: true });
                }
            },
            None => {
                assert(writable(LineShape::Raw(raw)));
            },
        }
    }
}

proof fn lemma_trim_first_not_ws(s: Seq<char>)
    ensures
        trim(s).len() > 0 ==> !is_ws(trim(s)[0]),
    decreases s.len(),
{
    lemma_trim_start_first(s);
    lemma_trim_end_prefix(trim_start(s));
}

proof fn lemma_trim_start_first(s: Seq<char>)
    ensures
        trim_start(s).len() > 0 ==> !is_ws(trim_start(s)[0]),
    decreases s.len(),
{
    if s.len() > 0 && is_ws(s[0]) {
        lemma_trim_start_first(s.drop_first());
    }
}

proof fn lemma_trim_end_prefix(s: Seq<char>)
    ensures
        trim_end(s).len() <= s.len(),
        forall|i: int| 0 <= i < trim_end(s).len() ==> #[trigger] trim_end(s)[i] == s[i],
    decreases s.len(),
{
    if s.len() > 0 && is_ws(s.last()) {
        lemma_trim_end_prefix(s.drop_last());
    }
}

/// The mappings of settled lines are the mappings of the lines.
proof fn lemma_mappings_settled(s: Seq<LineShape>)
    ensures
        mappings(s.map_values(|l: LineShape| settle_shape(l))) == mappings(s),
    decreases s.len(),
{
    let m = s.map_values(|l: LineShape| settle_shape(l));
    if s.len() > 0 {
        lemma_mappings_settled(s.drop_last());
        assert(m.drop_last() =~= s.drop_last().map_values(|l: LineShape| settle_shape(l)));
    } else {
        assert(m =~= s);
    }
}

/// The mappings of two runs of lines are those of each.
proof fn lemma_mappings_concat(a: Seq<LineShape>, b: Seq<LineShape>)
    ensures
        mappings(a + b) == mappings(a) + mappings(b),
    decreases b.len(),
{
    if b.len() == 0 {
        assert(a + b =~= a);
        assert(mappings(b) =~= Seq::<LineShape>::empty());
        assert(mappings(a) + mappings(b) =~= mappings(a));
    } else {
        lemma_mappings_concat(a, b.drop_last());
        assert((a + b).drop_last() =~= a + b.drop_last());
    }
}

/// Writing writable lines and reading them back keeps every mapping: the
/// same addresses, domains and states, in the same order.
pub proof fn law_mappings_survive_write(s: Seq<LineShape>)
    requires
        all_writable(s),
    ensures
        mappings(parse_text(render_text(s))) == mappings(s),
{
    law_reread_after_write(s);
    if s.len() > 0 {
        let init = s.drop_last();
        let tail: Seq<LineShape> = if render_shape(s.last()).len() > 0 {
            seq![s.last()]
        } else {
            Seq::<LineShape>::empty()
        };
        lemma_mappings_concat(init.map_values(|l: LineShape| settle_shape(l)), tail);
        lemma_mappings_settled(init);
        lemma_mappings_concat(init, seq![s.last()]);
        assert(init + seq![s.last()] =~= s);
        if render_shape(s.last()).len() == 0 {
            assert(s.last() is Raw);
            assert(mappings(seq![s.last()]) =~= Seq::<LineShape>::empty());
        }
    }
}

/// Reading a hosts text, writing it back and reading it again gives the
/// same mappings as reading it once.
pub proof fn law_rewrite_keeps_mappings(content: Seq<char>)
    ensures
        mappings(parse_text(render_text(parse_text(content)))) == mappings(parse_text(content)),
{
    law_read_lines_are_writable(content);
    law_mappings_survive_write(parse_text(content));
}

// ---------------------------------------------------------------------
// Implementation
// ---------------------------------------------------------------------

/// `BuildHasher::hash_one` of `BuildHasherDefault<DefaultHasher>` on the
/// triple `(ip, domain, index)`: the same hash as `DefaultHasher::new()`
/// after hashing the three in turn.
///
/// The contract names the value (`line_key_hash`); which value the
/// algorithm gives is not stated. The bytes of the `usize` index are the
/// machine's (its width and byte order), which are fixed for a compiled
/// library.
#[verifier::external_body]
fn hash_line_key(ip: &str, domain: &str, index: usize) -> (h: u64)
    ensures
        h == line_key_hash(ip@, domain@, index),
{
    BuildHasherDefault::<DefaultHasher>::default().hash_one((ip, domain, index))
}

/// The identifier of the mapping of `domain` to `ip` found on line `index`:
/// a hash of the three, in lower-case hexadecimal.
pub fn make_id(ip: &str, domain: &str, index: usize) -> (id: String)
    ensures
        id@ == entry_id(ip@, domain@, index as int),
{
    let h = hash_line_key(ip, domain, index);
    let digits = hex_of(h);
    string_of(&digits)
}

/// The address and the domains of a mapping line, if it has at least two
/// words.
pub fn parse_mapping(line: &[char]) -> (r: Option<(Vec<char>, Vec<Vec<char>>)>)
    ensures
        match r {
            Some((ip, domains)) => mapping_of(line@) == Some((ip@, seqs_of(domains@))),
            None => mapping_of(line@) is None,
        },
{
    let mut words = split_words(line);
    if words.len() < 2 {
        return None;
    }
    let ghost all = seqs_of(words@);
    let ip = words.remove(0);
    assert(seqs_of(words@) =~= all.skip(1));
    Some((ip, words))
}

proof fn lemma_shapes_push(s: Seq<HostsLine>, x: HostsLine)
    ensures
        shapes(s.push(x)) == shapes(s).push(shape_of(x@)),
{
    assert(shapes(s.push(x)) =~= shapes(s).push(shape_of(x@)));
}

/// Appends one mapping for each of `domains`, made on line `index`.
fn push_entries(
    out: &mut Vec<HostsLine>,
    ip: &[char],
    domains: &Vec<Vec<char>>,
    index: usize,
    enabled: bool,
)
    ensures
        shapes(final(out)@) == shapes(old(out)@) + entries_for(ip@, seqs_of(domains@), enabled),
        line_views(final(out)@) == line_views(old(out)@) + entry_views_for(
            ip@,
            seqs_of(domains@),
            enabled,
            index as int,
        ),
{
    let ip_text = string_of(ip);
    let n = domains.len();
    for k in 0..n
        invariant
            n == domains@.len(),
            ip_text@ == ip@,
            shapes(out@) == shapes(old(out)@) + entries_for(
                ip@,
                seqs_of(domains@).take(k as int),
                enabled,
            ),
            line_views(out@) == line_views(old(out)@) + entry_views_for(
                ip@,
                seqs_of(domains@).take(k as int),
                enabled,
                index as int,
            ),
    {
        let domain_text = string_of(&domains[k]);
        let id = make_id(ip_text.as_str(), domain_text.as_str(), index);
        let line = HostsLine::Managed(
            HostEntry { id, ip: ip_text.clone(), domain: domain_text, enabled },
        );
        proof {
            lemma_shapes_push(out@, line);
            assert(line_views(out@.push(line)) =~= line_views(out@).push(line@));
        }
        out.push(line);
        assert(entries_for(ip@, seqs_of(domains@).take(k + 1), enabled) =~= entries_for(
            ip@,
            seqs_of(domains@).take(k as int),
            enabled,
        ).push(LineShape::Entry { ip: ip@, domain: domains@[k as int]@, enabled }));
        assert(entry_views_for(ip@, seqs_of(domains@).take(k + 1), enabled, index as int)
            =~= entry_views_for(ip@, seqs_of(domains@).take(k as int), enabled, index as int).push(
            LineView::Managed(
                EntryView {
                    id: entry_id(ip@, domains@[k as int]@, index as int),
                    ip: ip@,
                    domain: domains@[k as int]@,
                    enabled,
                },
            ),
        ));
    }
    assert(seqs_of(domains@).take(n as int) =~= seqs_of(domains@));
}

/// Appends what line `index`, holding `raw`, becomes.
fn push_parsed_line(out: &mut Vec<HostsLine>, raw: &Vec<char>, index: usize)
    ensures
        shapes(final(out)@) == shapes(old(out)@) + parse_line(raw@),
        line_views(final(out)@) == line_views(old(out)@) + parse_line_views(raw@, index as int),
{
    let (lo, hi) = trim_bounds(raw);
    let t = copy_range(raw, lo, hi);
    if t.len() == 0 {
        let line = HostsLine::Raw(string_of(raw));
        proof {
            lemma_shapes_push(out@, line);
            assert(line_views(out@.push(line)) =~= line_views(out@).push(line@));
        }
        out.push(line);
        return;
    }
    if t[0] == '#' {
        let rest = copy_range(&t, 1, t.len());
        assert(rest@ =~= t@.drop_first());
        let start = trim_start_index(&rest);
        let body = copy_range(&rest, start, rest.len());
        assert(body@ =~= rest@.skip(start as int));
        match parse_mapping(&body) {
            Some((ip, domains)) => {
                push_entries(out, &ip, &domains, index, false);
            },
            None => {
                let line = HostsLine::Raw(string_of(raw));
                proof {
                    lemma_shapes_push(out@, line);
                    assert(line_views(out@.push(line)) =~= line_views(out@).push(line@));
                }
                out.push(line);
            },
        }
    } else {
        match parse_mapping(&t) {
            Some((ip, domains)) => {
                push_entries(out, &ip, &domains, index, true);
            },
            None => {
                let line = HostsLine::Raw(string_of(raw));
                proof {
                    lemma_shapes_push(out@, line);
                    assert(line_views(out@.push(line)) =~= line_views(out@).push(line@));
                }
                out.push(line);
            },
        }
    }
}

/// Reads the text of a hosts file into lines. Every mapping gets an
/// identifier made from its address, its domain and the number of its
/// line.
pub fn parse_hosts(content: &str) -> (lines: Vec<HostsLine>)
    ensures
        shapes(lines@) == parse_text(content@),
        line_views(lines@) == parse_text_views(content@),
{
    let text = chars_of(content);
    let raws = split_lines(&text);
    let mut out: Vec<HostsLine> = Vec::new();
    let n = raws.len();
    assert(shapes(out@) =~= parse_lines(seqs_of(raws@).take(0)));
    assert(line_views(out@) =~= parse_views(seqs_of(raws@).take(0)));
    for index in 0..n
        invariant
            n == raws@.len(),
            shapes(out@) == parse_lines(seqs_of(raws@).take(index as int)),
            line_views(out@) == parse_views(seqs_of(raws@).take(index as int)),
    {
        push_parsed_line(&mut out, &raws[index], index);
        assert(seqs_of(raws@).take(index + 1).drop_last() =~= seqs_of(raws@).take(index as int));
    }
    assert(seqs_of(raws@).take(n as int) =~= seqs_of(raws@));
    out
}

/// How one line is written.
pub fn render_line(line: &HostsLine) -> (out: Vec<char>)
    ensures
        out@ == render_shape(shape_of(line@)),
{
    match line {
        HostsLine::Managed(entry) => {
            let mut out: Vec<char> = Vec::new();
            if !entry.enabled {
                out.push('#');
                out.push(' ');
            }
            let ip = chars_of(entry.ip.as_str());
            extend_range(&mut out, &ip, 0, ip.len());
            out.push(' ');
            let domain = chars_of(entry.domain.as_str());
            extend_range(&mut out, &domain, 0, domain.len());
            assert(ip@.subrange(0, ip@.len() as int) =~= ip@);
            assert(domain@.subrange(0, domain@.len() as int) =~= domain@);
            if entry.enabled {
                assert(out@ =~= entry.ip@ + seq![' '] + entry.domain@);
            } else {
                assert(out@ =~= seq!['#', ' '] + entry.ip@ + seq![' '] + entry.domain@);
            }
            out
        },
        HostsLine::Raw(raw) => chars_of(raw.as_str()),
    }
}

/// Writes lines as the text of a hosts file.
pub fn render_hosts(lines: &[HostsLine]) -> (text: String)
    ensures
        text@ == render_text(shapes(lines@)),
{
    let mut rendered: Vec<Vec<char>> = Vec::new();
    let n = lines.len();
    for i in 0..n
        invariant
            n == lines@.len(),
            seqs_of(rendered@) == shapes(lines@).take(i as int).map_values(
                |l: LineShape| render_shape(l),
            ),
    {
        let ghost before = seqs_of(rendered@);
        let r = render_line(&lines[i]);
        let ghost rv = r@;
        rendered.push(r);
        assert(shapes(lines@)[i as int] == shape_of(lines@[i as int]@));
        assert(seqs_of(rendered@) =~= before.push(rv));
        assert(seqs_of(rendered@) =~= shapes(lines@).take(i + 1).map_values(
            |l: LineShape| render_shape(l),
        ));
    }
    let newline = ['\n'];
    let joined = join_range(&rendered, 0, n, &newline);
    assert(seqs_of(rendered@).subrange(0, n as int) =~= shapes(lines@).map_values(
        |l: LineShape| render_shape(l),
    ));
    assert(newline@ =~= seq!['\n']);
    string_of(&joined)
}

} // verus!
