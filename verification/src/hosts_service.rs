//! The edits that the editor makes to the lines of a hosts file, and the
//! text transformations behind reading the file and syncing it with a
//! remote source.
use vstd::prelude::*;

use crate::hosts_parser::{
    all_writable, ids_at, law_mappings_survive_write, law_read_lines_are_writable,
    law_reread_after_write, lemma_views_after_write, mappings, parse_text, parse_text_views,
    render_shape, render_text, reread, settle_shape, with_id, writable,
};
use crate::models::{
    entry_views, line_views, view_shapes, EntryView, HostEntry, HostsLine, LineShape, LineView,
};
use crate::text::{
    chars_of, copy_range, ended_lines, extend_range, is_word, is_ws, join, join_range, lacks,
    lemma_join_concat, lemma_join_lines_ended, lemma_join_no_cr, lemma_last_piece,
    lemma_lines_close, lemma_lines_concat, lemma_lines_ended_open, lemma_lines_have_no_newline,
    lemma_lines_no_cr, lemma_lines_of_joined, lemma_pieces_lack_sep, lemma_split_first,
    lemma_split_join, lemma_trim_fixed, lemma_trim_shape, lemma_trim_strip_cr, lemma_trim_twice,
    lines_from, lines_of, matches_at, no_cr, no_cr_line_end, no_newline, open_line, same_chars,
    same_text, seqs_of, split_char, split_lines, split_on, starts_with, string_of, strip_cr, trim,
    trimmed,
};

verus! {

// ---------------------------------------------------------------------
// The hosts file
// ---------------------------------------------------------------------

/// Where the hosts file is when nothing overrides it.
pub open spec fn default_hosts_path(target_windows: bool) -> Seq<char> {
    if target_windows {
        "C:\\Windows\\System32\\drivers\\etc\\hosts"@
    } else {
        "/etc/hosts"@
    }
}

/// The path of the hosts file: the value of `XHOSTS_HOSTS_PATH` when it is
/// set (`env_override`), else the platform's default.
pub fn hosts_path(env_override: Option<&str>, target_windows: bool) -> (path: String)
    ensures
        path@ == match env_override {
            Some(p) => p@,
            None => default_hosts_path(target_windows),
        },
{
    match env_override {
        Some(p) => p.to_owned(),
        None => if target_windows {
            "C:\\Windows\\System32\\drivers\\etc\\hosts".to_owned()
        } else {
            "/etc/hosts".to_owned()
        },
    }
}

// ---------------------------------------------------------------------
// Editing the lines
// ---------------------------------------------------------------------

/// The message of an edit that names no mapping of the file.
pub open spec fn not_found_message() -> Seq<char> {
    "The target entry was not found"@
}

/// The message of an add that repeats a mapping.
pub open spec fn duplicate_message() -> Seq<char> {
    "This mapping already exists"@
}

/// The message of an add with an address that does not parse.
pub open spec fn invalid_ip_message() -> Seq<char> {
    "Invalid IP address"@
}

/// The message of an add with an empty domain.
pub open spec fn empty_domain_message() -> Seq<char> {
    "The domain cannot be empty"@
}

/// `l` is a mapping with identifier `id`.
pub open spec fn has_id(l: LineView, id: Seq<char>) -> bool {
    l matches LineView::Managed(e) && e.id == id
}

/// `l` is a mapping of `domain` to `ip`.
pub open spec fn maps(l: LineView, ip: Seq<char>, domain: Seq<char>) -> bool {
    l matches LineView::Managed(e) && e.ip == ip && e.domain == domain
}

/// The mappings among `ls`, in order.
pub open spec fn managed_entries(ls: Seq<LineView>) -> Seq<EntryView>
    decreases ls.len(),
{
    if ls.len() == 0 {
        seq![]
    } else {
        let before = managed_entries(ls.drop_last());
        match ls.last() {
            LineView::Managed(e) => before.push(e),
            LineView::Raw(_) => before,
        }
    }
}

/// `ls` without the mappings whose identifier is `id`.
pub open spec fn without_id(ls: Seq<LineView>, id: Seq<char>) -> Seq<LineView>
    decreases ls.len(),
{
    if ls.len() == 0 {
        seq![]
    } else {
        let before = without_id(ls.drop_last(), id);
        if has_id(ls.last(), id) {
            before
        } else {
            before.push(ls.last())
        }
    }
}

/// `l` with its enabled flag set to `enabled`, when it is a mapping.
pub open spec fn with_enabled(l: LineView, enabled: bool) -> LineView {
    match l {
        LineView::Managed(e) => LineView::Managed(EntryView { enabled, ..e }),
        LineView::Raw(r) => LineView::Raw(r),
    }
}

proof fn lemma_line_views_push(s: Seq<HostsLine>, x: HostsLine)
    ensures
        line_views(s.push(x)) == line_views(s).push(x@),
{
    assert(line_views(s.push(x)) =~= line_views(s).push(x@));
}

/// The mappings among `lines`, in order.
pub fn list_entries(lines: &[HostsLine]) -> (entries: Vec<HostEntry>)
    ensures
        entry_views(entries@) == managed_entries(line_views(lines@)),
{
    let mut entries: Vec<HostEntry> = Vec::new();
    let n = lines.len();
    for i in 0..n
        invariant
            n == lines@.len(),
            entry_views(entries@) == managed_entries(line_views(lines@).take(i as int)),
    {
        assert(line_views(lines@).take(i + 1).drop_last() =~= line_views(lines@).take(i as int));
        match &lines[i] {
            HostsLine::Managed(entry) => {
                let ghost before = entry_views(entries@);
                let copy = entry.duplicate();
                entries.push(copy);
                assert(entry_views(entries@) =~= before.push(entry@));
            },
            HostsLine::Raw(_) => {},
        }
    }
    assert(line_views(lines@).take(n as int) =~= line_views(lines@));
    entries
}

/// Sets the enabled flag of the first mapping whose identifier is `id`.
/// Fails, and changes nothing, when no mapping has that identifier.
pub fn toggle_entry(lines: &mut Vec<HostsLine>, id: &str, enabled: bool) -> (r: Result<(), String>)
    ensures
        match r {
            Ok(()) => exists|k: int|
                0 <= k < old(lines)@.len() && has_id(old(lines)@[k]@, id@) && (forall|j: int|
                    0 <= j < k ==> !has_id(#[trigger] old(lines)@[j]@, id@)) && line_views(
                    final(lines)@,
                ) == line_views(old(lines)@).update(k, with_enabled(old(lines)@[k]@, enabled)),
            Err(msg) => msg@ == not_found_message() && (forall|j: int|
                0 <= j < old(lines)@.len() ==> !has_id(#[trigger] old(lines)@[j]@, id@))
                && final(lines)@ == old(lines)@,
        },
{
    let n = lines.len();
    for i in 0..n
        invariant
            n == lines@.len(),
            lines@ == old(lines)@,
            forall|j: int| 0 <= j < i ==> !has_id(#[trigger] old(lines)@[j]@, id@),
    {
        let hit = match &lines[i] {
            HostsLine::Managed(entry) => same_text(entry.id.as_str(), id),
            HostsLine::Raw(_) => false,
        };
        if hit {
            let ghost before = line_views(lines@);
            let updated = match &lines[i] {
                HostsLine::Managed(entry) => {
                    let mut e = entry.duplicate();
                    e.enabled = enabled;
                    HostsLine::Managed(e)
                },
                HostsLine::Raw(r) => HostsLine::Raw(r.clone()),
            };
            lines.set(i, updated);
            assert(line_views(lines@) =~= before.update(
                i as int,
                with_enabled(old(lines)@[i as int]@, enabled),
            ));
            assert(has_id(old(lines)@[i as int]@, id@));
            return Ok(());
        }
    }
    Err("The target entry was not found".to_owned())
}


/// Removes every mapping whose identifier is `id`. Fails, and changes
/// nothing, when no mapping has that identifier.
pub fn delete_entry(lines: &mut Vec<HostsLine>, id: &str) -> (r: Result<(), String>)
    ensures
        match r {
            Ok(()) => (exists|k: int|
                0 <= k < old(lines)@.len() && has_id(#[trigger] old(lines)@[k]@, id@))
                && line_views(final(lines)@) == without_id(line_views(old(lines)@), id@),
            Err(msg) => msg@ == not_found_message() && (forall|j: int|
                0 <= j < old(lines)@.len() ==> !has_id(#[trigger] old(lines)@[j]@, id@))
                && final(lines)@ == old(lines)@,
        },
{
    let mut kept: Vec<HostsLine> = Vec::new();
    let mut removed = false;
    let n = lines.len();
    for i in 0..n
        invariant
            n == lines@.len(),
            lines@ == old(lines)@,
            line_views(kept@) == without_id(line_views(lines@).take(i as int), id@),
            removed <==> exists|j: int| 0 <= j < i && has_id(#[trigger] lines@[j]@, id@),
    {
        assert(line_views(lines@).take(i + 1).drop_last() =~= line_views(lines@).take(i as int));
        assert(line_views(lines@).take(i + 1).last() == lines@[i as int]@);
        let hit = match &lines[i] {
            HostsLine::Managed(entry) => same_text(entry.id.as_str(), id),
            HostsLine::Raw(_) => false,
        };
        if hit {
            removed = true;
        } else {
            let copy = lines[i].duplicate();
            proof {
                lemma_line_views_push(kept@, copy);
            }
            kept.push(copy);
        }
    }
    assert(line_views(lines@).take(n as int) =~= line_views(lines@));
    if !removed {
        return Err("The target entry was not found".to_owned());
    }
    *lines = kept;
    Ok(())
}

/// Validates what an add is given, before the file is read: the address must
/// be one that parses (`ip_is_valid`, which the caller gets from the
/// platform's address parser) and the domain must not be empty.
pub fn validate_new_entry(ip_is_valid: bool, domain: &str) -> (r: Result<(), String>)
    ensures
        match r {
            Ok(()) => ip_is_valid && domain@.len() > 0,
            Err(msg) => if !ip_is_valid {
                msg@ == invalid_ip_message()
            } else {
                domain@.len() == 0 && msg@ == empty_domain_message()
            },
        },
{
    if !ip_is_valid {
        return Err("Invalid IP address".to_owned());
    }
    if domain.is_empty() {
        return Err("The domain cannot be empty".to_owned());
    }
    Ok(())
}

/// `c` is a lower-case hexadecimal digit.
pub open spec fn is_lower_hex(c: char) -> bool {
    ('0' <= c <= '9') || ('a' <= c <= 'f')
}

/// `s` is a random (version 4) UUID in its hyphenated lower-case form, as
/// `uuid` writes it: 36 characters, hyphens at 8, 13, 18 and 23, the
/// version digit `4` at 14 and a variant digit among `8`, `9`, `a`, `b`
/// at 19, hexadecimal digits elsewhere.
pub open spec fn is_v4_uuid_text(s: Seq<char>) -> bool {
    &&& s.len() == 36
    &&& forall|i: int|
        0 <= i < 36 ==> if i == 8 || i == 13 || i == 18 || i == 23 {
            s[i] == '-'
        } else {
            is_lower_hex(#[trigger] s[i])
        }
    &&& s[14] == '4'
    &&& (s[19] == '8' || s[19] == '9' || s[19] == 'a' || s[19] == 'b')
}

/// The identifier given to a mapping added by hand: `manual-` and a random
/// UUID.
pub open spec fn is_manual_id(id: Seq<char>) -> bool {
    id.len() == 43 && id.subrange(0, 7) == "manual-"@ && is_v4_uuid_text(id.skip(7))
}

/// `uuid::Uuid::new_v4`, written with its `Display` impl.
///
/// The contract states the textual form that `uuid`'s source writes
/// (`format_hyphenated`, lower case) and the version and variant bits that
/// `new_v4` sets. The value is random. `new_v4` panics when the operating
/// system has no random bytes to give; that is left unsaid.
#[verifier::external_body]
pub(crate) fn new_uuid_v4_text() -> (s: String)
    ensures
        is_v4_uuid_text(s@),
{
    uuid::Uuid::new_v4().to_string()
}

/// The name of the temporary file that a new hosts text is written to
/// before it replaces the hosts file: `hosts.tmp.` and a random UUID.
pub fn temp_file_name() -> (name: String)
    ensures
        name@.len() == 46,
        name@.subrange(0, 10) == "hosts.tmp."@,
        is_v4_uuid_text(name@.skip(10)),
{
    let mut name = "hosts.tmp.".to_owned();
    let id = new_uuid_v4_text();
    name.append(id.as_str());
    proof {
        reveal_strlit("hosts.tmp.");
        assert(name@.subrange(0, 10) =~= "hosts.tmp."@);
        assert(name@.skip(10) =~= id@);
    }
    name
}

/// Adds an enabled mapping of `domain` to `ip` after the last line, with an
/// identifier `manual-` followed by a random UUID. Fails, and changes
/// nothing, when the address does not parse (`ip_is_valid`, which the
/// caller gets from the platform's address parser), then when the domain
/// is empty, then when the lines already map `domain` to `ip`.
pub fn add_entry(lines: &mut Vec<HostsLine>, ip: &str, ip_is_valid: bool, domain: &str) -> (r:
    Result<(), String>)
    ensures
        match r {
            Ok(()) => {
                &&& ip_is_valid
                &&& domain@.len() > 0
                &&& forall|j: int|
                    0 <= j < old(lines)@.len() ==> !maps(#[trigger] old(lines)@[j]@, ip@, domain@)
                &&& final(lines)@.len() == old(lines)@.len() + 1
                &&& final(lines)@.take(old(lines)@.len() as int) == old(lines)@
                &&& final(lines)@.last()@ matches LineView::Managed(e) && e.ip == ip@ && e.domain
                    == domain@ && e.enabled && is_manual_id(e.id)
            },
            Err(msg) => final(lines)@ == old(lines)@ && if !ip_is_valid {
                msg@ == invalid_ip_message()
            } else if domain@.len() == 0 {
                msg@ == empty_domain_message()
            } else {
                msg@ == duplicate_message() && exists|k: int|
                    0 <= k < old(lines)@.len() && maps(#[trigger] old(lines)@[k]@, ip@, domain@)
            },
        },
{
    match validate_new_entry(ip_is_valid, domain) {
        Ok(()) => {},
        Err(msg) => {
            return Err(msg);
        },
    }
    let n = lines.len();
    for i in 0..n
        invariant
            n == lines@.len(),
            lines@ == old(lines)@,
            ip_is_valid,
            domain@.len() > 0,
            forall|j: int| 0 <= j < i ==> !maps(#[trigger] lines@[j]@, ip@, domain@),
    {
        let exists = match &lines[i] {
            HostsLine::Managed(entry) => same_text(entry.ip.as_str(), ip) && same_text(
                entry.domain.as_str(),
                domain,
            ),
            HostsLine::Raw(_) => false,
        };
        if exists {
            assert(maps(lines@[i as int]@, ip@, domain@));
            return Err("This mapping already exists".to_owned());
        }
    }
    let mut id = "manual-".to_owned();
    let suffix = new_uuid_v4_text();
    id.append(suffix.as_str());
    proof {
        reveal_strlit("manual-");
        assert(id@.subrange(0, 7) =~= "manual-"@);
        assert(id@.skip(7) =~= suffix@);
    }
    let ghost before = lines@;
    lines.push(
        HostsLine::Managed(
            HostEntry { id, ip: ip.to_owned(), domain: domain.to_owned(), enabled: true },
        ),
    );
    assert(lines@.take(n as int) =~= before);
    Ok(())
}


// ---------------------------------------------------------------------
// Laws of the edits
// ---------------------------------------------------------------------

/// Setting a mapping's flag back to what it was undoes setting it.
pub proof fn law_toggle_back_restores(l: LineView, enabled: bool)
    requires
        l matches LineView::Managed(e) && e.enabled == !enabled,
    ensures
        with_enabled(with_enabled(l, enabled), !enabled) == l,
{
}

/// Toggling a writable mapping keeps the lines writable, unless it
/// enables a mapping whose address starts with `#` (written, that line
/// would read back as a disabled mapping of the rest of the address); so
/// the toggled lines survive being written, mapping for mapping.
pub proof fn law_toggle_survives_write(lines: Seq<LineView>, k: int, enabled: bool)
    requires
        all_writable(view_shapes(lines)),
        0 <= k < lines.len(),
        lines[k] matches LineView::Managed(e) && (enabled ==> e.ip[0] != '#'),
    ensures
        all_writable(view_shapes(lines.update(k, with_enabled(lines[k], enabled)))),
        mappings(
            parse_text(render_text(view_shapes(lines.update(k, with_enabled(lines[k], enabled))))),
        ) == mappings(view_shapes(lines.update(k, with_enabled(lines[k], enabled)))),
{
    let after = lines.update(k, with_enabled(lines[k], enabled));
    assert forall|i: int| 0 <= i < after.len() implies writable(#[trigger] view_shapes(after)[i]) by {
        assert(writable(view_shapes(lines)[i]));
    }
    law_mappings_survive_write(view_shapes(after));
}

/// The shapes of the lines left by a delete are writable when the lines
/// were; so they survive being written, mapping for mapping.
pub proof fn law_delete_survives_write(lines: Seq<LineView>, id: Seq<char>)
    requires
        all_writable(view_shapes(lines)),
    ensures
        all_writable(view_shapes(without_id(lines, id))),
        mappings(parse_text(render_text(view_shapes(without_id(lines, id))))) == mappings(
            view_shapes(without_id(lines, id)),
        ),
{
    lemma_without_id_writable(lines, id);
    law_mappings_survive_write(view_shapes(without_id(lines, id)));
}

proof fn lemma_without_id_writable(lines: Seq<LineView>, id: Seq<char>)
    requires
        all_writable(view_shapes(lines)),
    ensures
        all_writable(view_shapes(without_id(lines, id))),
    decreases lines.len(),
{
    if lines.len() > 0 {
        let init = lines.drop_last();
        assert forall|i: int| 0 <= i < init.len() implies writable(
            #[trigger] view_shapes(init)[i],
        ) by {
            assert(view_shapes(init)[i] == view_shapes(lines)[i]);
        }
        lemma_without_id_writable(init, id);
        let w = without_id(lines, id);
        let before = without_id(init, id);
        if !has_id(lines.last(), id) {
            assert(writable(view_shapes(lines)[lines.len() - 1]));
            assert forall|i: int| 0 <= i < w.len() implies writable(
                #[trigger] view_shapes(w)[i],
            ) by {
                if i < before.len() {
                    assert(view_shapes(w)[i] == view_shapes(before)[i]);
                }
            }
        }
    }
}

/// A mapping added with an address and a domain that are words, the
/// address not starting with `#`, keeps writable lines writable; so the
/// lines survive being written, mapping for mapping.
pub proof fn law_add_survives_write(lines: Seq<LineView>, e: EntryView)
    requires
        all_writable(view_shapes(lines)),
        is_word(e.ip),
        is_word(e.domain),
        e.ip[0] != '#',
    ensures
        all_writable(view_shapes(lines.push(LineView::Managed(e)))),
        mappings(parse_text(render_text(view_shapes(lines.push(LineView::Managed(e)))))) == mappings(
            view_shapes(lines.push(LineView::Managed(e))),
        ),
{
    let after = lines.push(LineView::Managed(e));
    assert forall|i: int| 0 <= i < after.len() implies writable(#[trigger] view_shapes(after)[i]) by {
        if i < lines.len() {
            assert(view_shapes(after)[i] == view_shapes(lines)[i]);
        }
    }
    law_mappings_survive_write(view_shapes(after));
}

/// Toggling a mapping of a file that writes back as itself, writing the
/// file, reading it again and setting the same identifier back to its old
/// state gives the file back: each mapping stands alone on its line, so
/// the file read again gives every mapping the same identifier, first
/// found at the same place. This holds unless the toggle enables a
/// mapping whose address starts with `#` (written, that line reads back
/// as a disabled mapping of the rest of the address).
pub proof fn law_toggle_twice_restores_file(
    t: Seq<char>,
    id: Seq<char>,
    k: int,
    before: bool,
    enabled: bool,
)
    requires
        render_text(parse_text(t)) == t,
        0 <= k < parse_text_views(t).len(),
        has_id(parse_text_views(t)[k], id),
        forall|j: int| 0 <= j < k ==> !has_id(#[trigger] parse_text_views(t)[j], id),
        parse_text_views(t)[k] matches LineView::Managed(e) && e.enabled == before && (enabled
            ==> e.ip[0] != '#'),
    ensures
        ({
            let views = parse_text_views(t);
            let once = views.update(k, with_enabled(views[k], enabled));
            let again = parse_text_views(render_text(view_shapes(once)));
            &&& again.len() == views.len()
            &&& has_id(again[k], id)
            &&& forall|j: int| 0 <= j < k ==> !has_id(#[trigger] again[j], id)
            &&& render_text(view_shapes(again.update(k, with_enabled(again[k], before)))) == t
        }),
{
    let s = parse_text(t);
    law_read_lines_are_writable(t);
    law_reread_after_write(s);
    assert(reread(s) == s);
    lemma_views_after_write(s);
    let views = parse_text_views(t);
    assert(views == ids_at(s));
    let n = s.len() - 1;
    assert(views[k] == with_id(s[k], k));
    let (ip, domain) = match s[k] {
        LineShape::Entry { ip, domain, .. } => (ip, domain),
        LineShape::Raw(_) => (seq![], seq![]),
    };
    assert(s[k] == LineShape::Entry { ip, domain, enabled: before });
    let s1 = s.update(k, LineShape::Entry { ip, domain, enabled });
    let once = views.update(k, with_enabled(views[k], enabled));
    assert(once =~= ids_at(s1));
    assert(view_shapes(once) =~= s1);
    assert(writable(s[k]));
    assert forall|i: int| 0 <= i < s1.len() implies writable(#[trigger] s1[i]) by {
        if i != k {
            assert(s1[i] == s[i]);
        }
    }
    // Written again, the toggled lines read back as they are.
    assert(s.len() > 0);
    assert(render_shape(s.last()).len() > 0) by {
        if render_shape(s.last()).len() == 0 {
            assert(reread(s).len() == n);
        }
    }
    assert(render_shape(s1.last()).len() > 0) by {
        if k != n {
            assert(s1.last() == s.last());
        }
    }
    assert(reread(s1) =~= s1) by {
        assert forall|i: int| 0 <= i < n implies #[trigger] settle_shape(s1[i]) == s1[i] by {
            assert(reread(s)[i] == settle_shape(s[i]));
            if i != k {
                assert(s1[i] == s[i]);
            }
        }
        assert(reread(s1) =~= s1.drop_last().map_values(|l: LineShape| settle_shape(l)) + seq![
            s1.last(),
        ]);
    }
    lemma_views_after_write(s1);
    let again = parse_text_views(render_text(view_shapes(once)));
    assert(again == ids_at(s1));
    assert(again[k] == with_id(s1[k], k));
    assert forall|j: int| 0 <= j < k implies !has_id(#[trigger] again[j], id) by {
        assert(again[j] == views[j]);
    }
    let back = again.update(k, with_enabled(again[k], before));
    assert(back =~= views);
    assert(view_shapes(views) =~= s);
}

/// After an add, the list of mappings is the list before it and the new
/// mapping.
pub proof fn law_add_then_list(lines: Seq<LineView>, e: EntryView)
    ensures
        managed_entries(lines.push(LineView::Managed(e))) == managed_entries(lines).push(e),
{
    assert(lines.push(LineView::Managed(e)).drop_last() =~= lines);
}

/// After a delete, no listed mapping has the deleted identifier, and every
/// other mapping is still listed, in order.
pub proof fn law_delete_then_list(lines: Seq<LineView>, id: Seq<char>)
    ensures
        forall|i: int|
            0 <= i < managed_entries(without_id(lines, id)).len() ==> (#[trigger] managed_entries(
                without_id(lines, id),
            )[i]).id != id,
        managed_entries(without_id(lines, id)) == managed_entries(lines).filter(
            |e: EntryView| e.id != id,
        ),
    decreases lines.len(),
{
    reveal(Seq::filter);
    if lines.len() > 0 {
        law_delete_then_list(lines.drop_last(), id);
        let m = managed_entries(without_id(lines, id));
        let before = managed_entries(without_id(lines.drop_last(), id));
        if !has_id(lines.last(), id) {
            assert(without_id(lines, id).drop_last() =~= without_id(lines.drop_last(), id));
        }
        let mi = managed_entries(lines.drop_last());
        match lines.last() {
            LineView::Managed(e) => {
                assert(mi.push(e).drop_last() =~= mi);
                assert(managed_entries(lines) == mi.push(e));
                if e.id != id {
                    assert(without_id(lines, id) == without_id(lines.drop_last(), id).push(
                        lines.last(),
                    ));
                    assert(without_id(lines, id).drop_last() =~= without_id(lines.drop_last(), id));
                }
            },
            LineView::Raw(_) => {
                assert(without_id(lines, id) == without_id(lines.drop_last(), id).push(
                    lines.last(),
                ));
            },
        }
        assert forall|i: int| 0 <= i < m.len() implies (#[trigger] m[i]).id != id by {
            if i < before.len() {
                assert(m[i] == before[i]);
            }
        }
    } else {
        assert(managed_entries(lines).filter(|e: EntryView| e.id != id) =~= Seq::<
            EntryView,
        >::empty());
    }
}

// ---------------------------------------------------------------------
// The GitHub hosts block
// ---------------------------------------------------------------------

/// The line that opens the block of GitHub mappings.
pub open spec fn start_marker() -> Seq<char> {
    "#Github Hosts Start"@
}

/// The line that closes the block of GitHub mappings.
pub open spec fn end_marker() -> Seq<char> {
    "#Github Hosts End"@
}

/// The message when the remote text has no opening line.
pub open spec fn missing_start_message() -> Seq<char> {
    "The remote content is missing #Github Hosts Start"@
}

/// The message when the remote text has no closing line.
pub open spec fn missing_end_message() -> Seq<char> {
    "The remote content is missing #Github Hosts End"@
}

/// The message when the remote text closes the block before opening it.
pub open spec fn misplaced_block_message() -> Seq<char> {
    "The GitHub hosts block in the remote content is invalid"@
}

/// The index of the first of `lines[from..]` that, trimmed, is `marker`.
pub open spec fn first_marker_from(lines: Seq<Seq<char>>, marker: Seq<char>, from: int) -> Option<
    int,
>
    decreases lines.len() - from,
{
    if from < 0 || from >= lines.len() {
        None
    } else if trim(lines[from]) == marker {
        Some(from)
    } else {
        first_marker_from(lines, marker, from + 1)
    }
}

/// The index of the first line that, trimmed, is `marker`.
pub open spec fn first_marker(lines: Seq<Seq<char>>, marker: Seq<char>) -> Option<int> {
    first_marker_from(lines, marker, 0)
}

/// The lines from the first opening line to the first closing line, both
/// included, each followed by a newline; an error when either line is
/// missing or the closing line comes first.
pub open spec fn block_of(remote: Seq<char>) -> Result<Seq<char>, Seq<char>> {
    let lines = lines_of(remote);
    match first_marker(lines, start_marker()) {
        None => Err(missing_start_message()),
        Some(s) => match first_marker(lines, end_marker()) {
            None => Err(missing_end_message()),
            Some(e) => if e < s {
                Err(misplaced_block_message())
            } else {
                Ok(join(lines.subrange(s, e + 1), seq!['\n']) + seq!['\n'])
            },
        },
    }
}

/// `local` with `block` in place of its GitHub block, when it has one (its
/// first closing line is not before its first opening line); else `local`
/// with a blank line and `block` after it.
pub open spec fn merged_text(local: Seq<char>, block: Seq<char>) -> Seq<char> {
    let lines = lines_of(local);
    let s = first_marker(lines, start_marker());
    let e = first_marker(lines, end_marker());
    if s is Some && e is Some && e->0 >= s->0 {
        let before = join(lines.take(s->0), seq!['\n']);
        let after = join(lines.skip(e->0 + 1), seq!['\n']);
        (if before.len() > 0 {
            before + seq!['\n']
        } else {
            seq![]
        }) + block + (if after.len() > 0 {
            after + seq!['\n']
        } else {
            seq![]
        })
    } else {
        let ended = if local.len() > 0 && local.last() != '\n' {
            local.push('\n')
        } else {
            local
        };
        (if ended.len() > 0 {
            ended.push('\n')
        } else {
            ended
        }) + block
    }
}

/// The index of the first of `lines` that, trimmed, is `marker`.
fn find_marker(lines: &Vec<Vec<char>>, marker: &[char]) -> (r: Option<usize>)
    ensures
        match r {
            Some(k) => first_marker(seqs_of(lines@), marker@) == Some(k as int),
            None => first_marker(seqs_of(lines@), marker@) is None,
        },
{
    let n = lines.len();
    for i in 0..n
        invariant
            n == lines@.len(),
            first_marker(seqs_of(lines@), marker@) == first_marker_from(
                seqs_of(lines@),
                marker@,
                i as int,
            ),
    {
        let t = trimmed(&lines[i]);
        if same_chars(&t, marker) {
            return Some(i);
        }
    }
    None
}

/// The GitHub block of a remote hosts text: the lines from the first
/// `#Github Hosts Start` to the first `#Github Hosts End`, each followed by
/// a newline.
pub fn extract_remote_block(remote_text: &str) -> (r: Result<String, String>)
    ensures
        match r {
            Ok(block) => block_of(remote_text@) == Ok::<Seq<char>, Seq<char>>(block@),
            Err(msg) => block_of(remote_text@) == Err::<Seq<char>, Seq<char>>(msg@),
        },
{
    let text = chars_of(remote_text);
    let lines = split_lines(&text);
    let start_text = chars_of("#Github Hosts Start");
    let end_text = chars_of("#Github Hosts End");
    let start = match find_marker(&lines, &start_text) {
        Some(s) => s,
        None => {
            return Err("The remote content is missing #Github Hosts Start".to_owned());
        },
    };
    let end = match find_marker(&lines, &end_text) {
        Some(e) => e,
        None => {
            return Err("The remote content is missing #Github Hosts End".to_owned());
        },
    };
    if end < start {
        return Err("The GitHub hosts block in the remote content is invalid".to_owned());
    }
    proof {
        lemma_first_marker_bound(seqs_of(lines@), end_text@, 0);
    }
    assert(end < lines.len());
    let newline = ['\n'];
    let mut block = join_range(&lines, start, end + 1, &newline);
    let ghost joined = block@;
    block.push('\n');
    assert(newline@ =~= seq!['\n']);
    assert(block@ =~= joined + seq!['\n']);
    Ok(string_of(&block))
}

proof fn lemma_first_marker_bound(lines: Seq<Seq<char>>, marker: Seq<char>, from: int)
    ensures
        first_marker_from(lines, marker, from) matches Some(k) ==> from <= k < lines.len() && trim(
            lines[k],
        ) == marker && forall|j: int| from <= j < k ==> trim(#[trigger] lines[j]) != marker,
        (0 <= from && first_marker_from(lines, marker, from) is None) ==> forall|j: int|
            from <= j < lines.len() ==> trim(#[trigger] lines[j]) != marker,
    decreases lines.len() - from,
{
    if 0 <= from < lines.len() && trim(lines[from]) != marker {
        lemma_first_marker_bound(lines, marker, from + 1);
    }
}

/// Skipping lines that are not `marker` does not change where it is first
/// found.
proof fn lemma_first_marker_skip(lines: Seq<Seq<char>>, marker: Seq<char>, from: int, to: int)
    requires
        0 <= from <= to <= lines.len(),
        forall|j: int| from <= j < to ==> trim(#[trigger] lines[j]) != marker,
    ensures
        first_marker_from(lines, marker, from) == first_marker_from(lines, marker, to),
    decreases to - from,
{
    if from < to {
        lemma_first_marker_skip(lines, marker, from + 1, to);
    }
}

/// `local` with its GitHub block replaced by `remote_block`, or with
/// `remote_block` appended after a blank line when it has no block.
pub fn replace_or_append_github_block(local_text: &str, remote_block: &str) -> (merged: String)
    ensures
        merged@ == merged_text(local_text@, remote_block@),
{
    let text = chars_of(local_text);
    let block = chars_of(remote_block);
    let lines = split_lines(&text);
    let start_text = chars_of("#Github Hosts Start");
    let end_text = chars_of("#Github Hosts End");
    let start = find_marker(&lines, &start_text);
    let end = find_marker(&lines, &end_text);
    let newline = ['\n'];
    assert(newline@ =~= seq!['\n']);
    proof {
        lemma_first_marker_bound(seqs_of(lines@), start_text@, 0);
        lemma_first_marker_bound(seqs_of(lines@), end_text@, 0);
    }
    match (start, end) {
        (Some(s), Some(e)) => {
            if e >= s {
                assert(e < lines.len());
                let before = join_range(&lines, 0, s, &newline);
                let after = join_range(&lines, e + 1, lines.len(), &newline);
                assert(seqs_of(lines@).subrange(0, s as int) =~= seqs_of(lines@).take(s as int));
                assert(seqs_of(lines@).subrange(e + 1, lines@.len() as int) =~= seqs_of(
                    lines@,
                ).skip(e + 1));
                let mut out: Vec<char> = Vec::new();
                if before.len() > 0 {
                    extend_range(&mut out, &before, 0, before.len());
                    out.push('\n');
                }
                extend_range(&mut out, &block, 0, block.len());
                if after.len() > 0 {
                    extend_range(&mut out, &after, 0, after.len());
                    out.push('\n');
                }
                assert(before@.subrange(0, before@.len() as int) =~= before@);
                assert(after@.subrange(0, after@.len() as int) =~= after@);
                assert(block@.subrange(0, block@.len() as int) =~= block@);
                assert(out@ =~= merged_text(local_text@, remote_block@));
                return string_of(&out);
            }
        },
        _ => {},
    }
    let mut out = copy_range(&text, 0, text.len());
    assert(out@ =~= text@);
    if out.len() > 0 && out[out.len() - 1] != '\n' {
        out.push('\n');
    }
    if out.len() > 0 {
        out.push('\n');
    }
    extend_range(&mut out, &block, 0, block.len());
    assert(block@.subrange(0, block@.len() as int) =~= block@);
    assert(out@ =~= merged_text(local_text@, remote_block@));
    string_of(&out)
}


// ---------------------------------------------------------------------
// Laws of the GitHub block
// ---------------------------------------------------------------------

/// A line that, trimmed, is one of the two markers.
pub open spec fn is_marker_line(l: Seq<char>) -> bool {
    trim(l) == start_marker() || trim(l) == end_marker()
}

/// The text has a GitHub block: its first closing line is not before its
/// first opening line.
pub open spec fn has_github_block(text: Seq<char>) -> bool {
    let lines = lines_of(text);
    match (first_marker(lines, start_marker()), first_marker(lines, end_marker())) {
        (Some(s), Some(e)) => e >= s,
        _ => false,
    }
}

/// No line of the text is a marker.
pub open spec fn marker_free(text: Seq<char>) -> bool {
    forall|i: int| 0 <= i < lines_of(text).len() ==> !is_marker_line(#[trigger] lines_of(text)[i])
}

/// A text without marker lines keeps none when a newline is added to it.
proof fn lemma_marker_free_newline(t: Seq<char>)
    requires
        marker_free(t),
    ensures
        marker_free(t + seq!['\n']),
{
    reveal_strlit("#Github Hosts Start");
    reveal_strlit("#Github Hosts End");
    lemma_lines_ended_open(seq![], t);
    lemma_lines_close(seq![], t, seq![]);
    assert(t + seq!['\n'] + Seq::<char>::empty() =~= t + seq!['\n']);
    let ended = ended_lines(seq![], t);
    let open = open_line(seq![], t);
    let l2 = lines_of(t + seq!['\n']);
    assert(lines_from(seq![], Seq::<char>::empty()) =~= Seq::<Seq<char>>::empty());
    assert(l2 =~= ended.push(strip_cr(open)));
    lemma_trim_strip_cr(open);
    assert forall|i: int| 0 <= i < l2.len() implies !is_marker_line(#[trigger] l2[i]) by {
        if i < ended.len() {
            assert(l2[i] == lines_of(t)[i]);
        } else if open.len() > 0 {
            assert(lines_of(t)[ended.len() as int] == open);
        } else {
            assert(strip_cr(open) =~= Seq::<char>::empty());
            assert(trim(Seq::<char>::empty()) =~= Seq::<char>::empty());
        }
    }
}

/// The lines of a remote block: the first opens it, the last closes it,
/// and no line before the last closes it.
proof fn lemma_remote_block_lines(remote: Seq<char>, s: int, e: int)
    requires
        first_marker(lines_of(remote), start_marker()) == Some(s),
        first_marker(lines_of(remote), end_marker()) == Some(e),
        s <= e,
    ensures
        trim(lines_of(remote).subrange(s, e + 1)[0]) == start_marker(),
        trim(lines_of(remote).subrange(s, e + 1)[e - s]) == end_marker(),
        forall|j: int|
            0 <= j < e - s ==> trim(#[trigger] lines_of(remote).subrange(s, e + 1)[j])
                != end_marker(),
{
    let rl = lines_of(remote);
    lemma_first_marker_bound(rl, start_marker(), 0);
    lemma_first_marker_bound(rl, end_marker(), 0);
    let blines = rl.subrange(s, e + 1);
    assert forall|j: int| 0 <= j < e - s implies trim(#[trigger] blines[j]) != end_marker() by {
        assert(blines[j] == rl[s + j]);
    }
}

/// In lines made of lines without markers, then a block, then anything,
/// the markers are first found at the ends of the block.
proof fn lemma_block_found(pre: Seq<Seq<char>>, blines: Seq<Seq<char>>, tail: Seq<Seq<char>>)
    requires
        forall|j: int| 0 <= j < pre.len() ==> !is_marker_line(#[trigger] pre[j]),
        blines.len() > 0,
        trim(blines[0]) == start_marker(),
        trim(blines[blines.len() - 1]) == end_marker(),
        forall|j: int| 0 <= j < blines.len() - 1 ==> trim(#[trigger] blines[j]) != end_marker(),
    ensures
        first_marker(pre + blines + tail, start_marker()) == Some(pre.len() as int),
        first_marker(pre + blines + tail, end_marker()) == Some(pre.len() + blines.len() - 1),
{
    let m = pre + blines + tail;
    let n = pre.len() as int;
    let k = blines.len() as int;
    assert forall|j: int| 0 <= j < n implies trim(#[trigger] m[j]) != start_marker() by {
        assert(m[j] == pre[j]);
        assert(!is_marker_line(pre[j]));
    }
    lemma_first_marker_skip(m, start_marker(), 0, n);
    assert(m[n] == blines[0]);
    assert forall|j: int| 0 <= j < n + k - 1 implies trim(#[trigger] m[j]) != end_marker() by {
        if j < n {
            assert(m[j] == pre[j]);
            assert(!is_marker_line(pre[j]));
        } else {
            assert(m[j] == blines[j - n]);
        }
    }
    lemma_first_marker_skip(m, end_marker(), 0, n + k - 1);
    assert(m[n + k - 1] == blines[k - 1]);
}

/// Syncing writes the remote block so that taking the block from the
/// merged text gives it back. This holds when the local text has a GitHub
/// block or no marker line at all (otherwise an opening or closing line of
/// the local text is found first), and when no line of the remote block
/// ends with a carriage return before its newline (such a line is read
/// back without it).
#[verifier::spinoff_prover]
#[verifier::rlimit(40)]
pub proof fn law_sync_block_reads_back(remote: Seq<char>, local: Seq<char>, s: int, e: int)
    requires
        first_marker(lines_of(remote), start_marker()) == Some(s),
        first_marker(lines_of(remote), end_marker()) == Some(e),
        s <= e,
        forall|i: int|
            s <= i <= e ==> !(lines_of(remote)[i].len() > 0 && #[trigger] lines_of(remote)[i].last()
                == '\r'),
        has_github_block(local) || marker_free(local),
    ensures
        block_of(remote) is Ok,
        block_of(merged_text(local, block_of(remote)->Ok_0)) == block_of(remote),
{
    reveal_strlit("#Github Hosts Start");
    reveal_strlit("#Github Hosts End");
    let rl = lines_of(remote);
    lemma_first_marker_bound(rl, start_marker(), 0);
    lemma_first_marker_bound(rl, end_marker(), 0);
    lemma_lines_have_no_newline(seq![], remote);
    let blines = rl.subrange(s, e + 1);
    let b = join(blines, seq!['\n']) + seq!['\n'];
    assert(block_of(remote) == Ok::<Seq<char>, Seq<char>>(b));
    assert forall|i: int| 0 <= i < blines.len() implies no_newline(#[trigger] blines[i]) by {
        assert(blines[i] == rl[s + i]);
    }
    assert(blines.map_values(|p: Seq<char>| strip_cr(p)) =~= blines) by {
        assert forall|i: int| 0 <= i < blines.len() implies strip_cr(blines[i]) == blines[i] by {
            assert(blines[i] == rl[s + i]);
        }
    }
    let merged = merged_text(local, b);
    // The lines of the merged text: some lines without markers, then the
    // block's lines, then the rest.
    let ll = lines_of(local);
    let pre: Seq<Seq<char>>;
    let rest: Seq<char>;
    if has_github_block(local) {
        let ls = first_marker(ll, start_marker())->0;
        let le = first_marker(ll, end_marker())->0;
        lemma_first_marker_bound(ll, start_marker(), 0);
        lemma_first_marker_bound(ll, end_marker(), 0);
        lemma_lines_have_no_newline(seq![], local);
        let pre0 = ll.take(ls);
        let before = join(pre0, seq!['\n']);
        let after = join(ll.skip(le + 1), seq!['\n']);
        let q: Seq<char> = if after.len() > 0 {
            after + seq!['\n']
        } else {
            seq![]
        };
        lemma_lines_of_joined(blines, q);
        if before.len() > 0 {
            assert(pre0.len() > 0);
            assert forall|i: int| 0 <= i < pre0.len() implies no_newline(#[trigger] pre0[i]) by {
                assert(pre0[i] == ll[i]);
            }
            assert(merged =~= join(pre0, seq!['\n']) + seq!['\n'] + (b + q));
            lemma_lines_of_joined(pre0, b + q);
            pre = pre0.map_values(|p: Seq<char>| strip_cr(p));
            assert forall|i: int| 0 <= i < pre.len() implies !is_marker_line(#[trigger] pre[i]) by {
                lemma_trim_strip_cr(pre0[i]);
                assert(pre0[i] == ll[i]);
            }
        } else {
            assert(merged =~= b + q);
            pre = seq![];
        }
        assert(b + q =~= join(blines, seq!['\n']) + seq!['\n'] + q);
        rest = q;
        assert(lines_of(merged) =~= pre + blines + lines_from(seq![], rest));
    } else {
        lemma_first_marker_bound(ll, start_marker(), 0);
        assert(first_marker(ll, start_marker()) is None) by {
            if let Some(k) = first_marker(ll, start_marker()) {
                assert(!is_marker_line(ll[k]));
            }
        }
        rest = seq![];
        lemma_lines_of_joined(blines, rest);
        assert(b + rest =~= b);
        if local.len() == 0 {
            assert(merged =~= b);
            pre = seq![];
            assert(lines_of(merged) =~= pre + blines + lines_from(seq![], rest));
        } else {
            let ended = if local.last() != '\n' {
                local.push('\n')
            } else {
                local
            };
            if local.last() != '\n' {
                lemma_marker_free_newline(local);
                assert(local.push('\n') =~= local + seq!['\n']);
            }
            assert(marker_free(ended));
            let y = ended.push('\n');
            assert(y =~= ended + seq!['\n']);
            lemma_marker_free_newline(ended);
            assert(merged =~= y + b);
            lemma_lines_concat(seq![], y, b);
            pre = lines_of(y);
            assert forall|i: int| 0 <= i < pre.len() implies !is_marker_line(#[trigger] pre[i]) by {
            }
            assert(lines_of(merged) =~= pre + blines + lines_from(seq![], rest));
        }
    }
    // Where the markers are found in the merged text.
    let m = lines_of(merged);
    assert(m =~= pre + blines + lines_from(seq![], rest));
    let n = pre.len() as int;
    let k = blines.len() as int;
    lemma_remote_block_lines(remote, s, e);
    lemma_block_found(pre, blines, lines_from(seq![], rest));
    assert(m.subrange(n, n + k) =~= blines);
}

/// Syncing a text that has a GitHub block a second time with the same
/// block changes nothing, when no line of the remote block, and no line of
/// the local text outside its block, ends with a carriage return.
#[verifier::spinoff_prover]
#[verifier::rlimit(40)]
proof fn lemma_sync_twice_replaced(remote: Seq<char>, local: Seq<char>, s: int, e: int)
    requires
        first_marker(lines_of(remote), start_marker()) == Some(s),
        first_marker(lines_of(remote), end_marker()) == Some(e),
        s <= e,
        forall|i: int|
            s <= i <= e ==> !(lines_of(remote)[i].len() > 0 && #[trigger] lines_of(remote)[i].last()
                == '\r'),
        has_github_block(local),
        forall|i: int|
            0 <= i < lines_of(local).len() && (i < first_marker(lines_of(local), start_marker())->0
                || i > first_marker(lines_of(local), end_marker())->0) ==> !(lines_of(local)[i].len()
                > 0 && #[trigger] lines_of(local)[i].last() == '\r'),
    ensures
        block_of(remote) is Ok,
        merged_text(merged_text(local, block_of(remote)->Ok_0), block_of(remote)->Ok_0)
            == merged_text(local, block_of(remote)->Ok_0),
{
    reveal_strlit("#Github Hosts Start");
    reveal_strlit("#Github Hosts End");
    let rl = lines_of(remote);
    lemma_first_marker_bound(rl, start_marker(), 0);
    lemma_first_marker_bound(rl, end_marker(), 0);
    lemma_lines_have_no_newline(seq![], remote);
    lemma_remote_block_lines(remote, s, e);
    let blines = rl.subrange(s, e + 1);
    let b = join(blines, seq!['\n']) + seq!['\n'];
    assert(block_of(remote) == Ok::<Seq<char>, Seq<char>>(b));
    assert forall|i: int| 0 <= i < blines.len() implies no_newline(#[trigger] blines[i]) by {
        assert(blines[i] == rl[s + i]);
    }
    assert(blines.map_values(|p: Seq<char>| strip_cr(p)) =~= blines) by {
        assert forall|i: int| 0 <= i < blines.len() implies strip_cr(blines[i]) == blines[i] by {
            assert(blines[i] == rl[s + i]);
        }
    }
    let merged = merged_text(local, b);
    let ll = lines_of(local);
    let ls = first_marker(ll, start_marker())->0;
    let le = first_marker(ll, end_marker())->0;
    lemma_first_marker_bound(ll, start_marker(), 0);
    lemma_first_marker_bound(ll, end_marker(), 0);
    lemma_lines_have_no_newline(seq![], local);
    let pre0 = ll.take(ls);
    let post = ll.skip(le + 1);
    let before = join(pre0, seq!['\n']);
    let after = join(post, seq!['\n']);
    let p: Seq<char> = if before.len() > 0 {
        before + seq!['\n']
    } else {
        seq![]
    };
    let q: Seq<char> = if after.len() > 0 {
        after + seq!['\n']
    } else {
        seq![]
    };
    assert(merged == p + b + q);
    // The lines after the block read back as they were.
    let r: Seq<Seq<char>> = if after.len() > 0 {
        post
    } else {
        seq![]
    };
    if after.len() > 0 {
        assert(post.len() > 0);
        assert forall|i: int| 0 <= i < post.len() implies no_newline(#[trigger] post[i]) by {
            assert(post[i] == ll[le + 1 + i]);
        }
        lemma_lines_of_joined(post, seq![]);
        assert(q =~= join(post, seq!['\n']) + seq!['\n'] + Seq::<char>::empty());
        assert(post.map_values(|x: Seq<char>| strip_cr(x)) =~= post) by {
            assert forall|i: int| 0 <= i < post.len() implies strip_cr(post[i]) == post[i] by {
                assert(post[i] == ll[le + 1 + i]);
            }
        }
        assert(lines_from(seq![], Seq::<char>::empty()) =~= Seq::<Seq<char>>::empty());
        assert(lines_from(seq![], q) =~= r);
    } else {
        assert(lines_from(seq![], q) =~= r);
    }
    lemma_lines_of_joined(blines, q);
    assert(b + q =~= join(blines, seq!['\n']) + seq!['\n'] + q);
    // The lines before the block read back as they were.
    let pre: Seq<Seq<char>> = if before.len() > 0 {
        pre0
    } else {
        seq![]
    };
    if before.len() > 0 {
        assert(pre0.len() > 0);
        assert forall|i: int| 0 <= i < pre0.len() implies no_newline(#[trigger] pre0[i]) by {
            assert(pre0[i] == ll[i]);
        }
        assert(merged =~= join(pre0, seq!['\n']) + seq!['\n'] + (b + q));
        lemma_lines_of_joined(pre0, b + q);
        assert(pre0.map_values(|x: Seq<char>| strip_cr(x)) =~= pre0) by {
            assert forall|i: int| 0 <= i < pre0.len() implies strip_cr(pre0[i]) == pre0[i] by {
                assert(pre0[i] == ll[i]);
            }
        }
    } else {
        assert(merged =~= b + q);
    }
    let m = lines_of(merged);
    assert(m =~= pre + blines + r);
    assert forall|j: int| 0 <= j < pre.len() implies !is_marker_line(#[trigger] pre[j]) by {
        assert(pre[j] == ll[j]);
    }
    lemma_block_found(pre, blines, r);
    let n = pre.len() as int;
    let k = blines.len() as int;
    assert(m.take(n) =~= pre);
    assert(m.skip(n + k) =~= r);
    if before.len() == 0 {
        assert(join(pre, seq!['\n']) =~= Seq::<char>::empty());
    }
    if after.len() == 0 {
        assert(join(r, seq!['\n']) =~= Seq::<char>::empty());
    }
}

/// Syncing a text without marker lines a second time with the same block
/// changes nothing, when no carriage return of the local text ends a line
/// and no line of the remote block ends with one.
#[verifier::spinoff_prover]
#[verifier::rlimit(40)]
proof fn lemma_sync_twice_appended(remote: Seq<char>, local: Seq<char>, s: int, e: int)
    requires
        first_marker(lines_of(remote), start_marker()) == Some(s),
        first_marker(lines_of(remote), end_marker()) == Some(e),
        s <= e,
        forall|i: int|
            s <= i <= e ==> !(lines_of(remote)[i].len() > 0 && #[trigger] lines_of(remote)[i].last()
                == '\r'),
        marker_free(local),
        no_cr_line_end(local),
    ensures
        block_of(remote) is Ok,
        merged_text(merged_text(local, block_of(remote)->Ok_0), block_of(remote)->Ok_0)
            == merged_text(local, block_of(remote)->Ok_0),
{
    reveal_strlit("#Github Hosts Start");
    reveal_strlit("#Github Hosts End");
    let rl = lines_of(remote);
    lemma_first_marker_bound(rl, start_marker(), 0);
    lemma_first_marker_bound(rl, end_marker(), 0);
    lemma_lines_have_no_newline(seq![], remote);
    lemma_remote_block_lines(remote, s, e);
    let blines = rl.subrange(s, e + 1);
    let b = join(blines, seq!['\n']) + seq!['\n'];
    assert(block_of(remote) == Ok::<Seq<char>, Seq<char>>(b));
    assert forall|i: int| 0 <= i < blines.len() implies no_newline(#[trigger] blines[i]) by {
        assert(blines[i] == rl[s + i]);
    }
    assert(blines.map_values(|p: Seq<char>| strip_cr(p)) =~= blines) by {
        assert forall|i: int| 0 <= i < blines.len() implies strip_cr(blines[i]) == blines[i] by {
            assert(blines[i] == rl[s + i]);
        }
    }
    lemma_lines_of_joined(blines, seq![]);
    assert(b + Seq::<char>::empty() =~= b);
    assert(lines_from(seq![], Seq::<char>::empty()) =~= Seq::<Seq<char>>::empty());
    assert(lines_of(b) =~= blines);
    // The local text has no block: the first sync appends.
    let ll = lines_of(local);
    lemma_first_marker_bound(ll, start_marker(), 0);
    assert(first_marker(ll, start_marker()) is None) by {
        if let Some(k) = first_marker(ll, start_marker()) {
            assert(!is_marker_line(ll[k]));
        }
    }
    let merged = merged_text(local, b);
    let k = blines.len() as int;
    let pre: Seq<Seq<char>>;
    if local.len() == 0 {
        assert(merged =~= b);
        pre = seq![];
    } else {
        let ended = if local.last() != '\n' {
            local.push('\n')
        } else {
            local
        };
        if local.last() != '\n' {
            lemma_marker_free_newline(local);
            assert(local.push('\n') =~= local + seq!['\n']);
        }
        let y = ended.push('\n');
        assert(y =~= ended + seq!['\n']);
        lemma_marker_free_newline(ended);
        assert(merged =~= y + b);
        lemma_lines_concat(seq![], y, b);
        pre = lines_of(y);
        // The text before the block is its lines joined again.
        assert forall|i: int| 0 <= i < y.len() && #[trigger] y[i] == '\r' implies i + 1 < y.len()
            && y[i + 1] != '\n' by {
            assert(i < local.len());
            assert(y[i] == local[i]);
            if local.last() == '\r' {
                assert(local[local.len() - 1] == '\r');
            }
            if i + 1 < local.len() {
                assert(y[i + 1] == local[i + 1]);
            }
        }
        lemma_join_lines_ended(y);
        assert forall|i: int| 0 <= i < pre.len() implies !is_marker_line(#[trigger] pre[i]) by {}
    }
    let m = lines_of(merged);
    assert(m =~= pre + blines + Seq::<Seq<char>>::empty());
    lemma_block_found(pre, blines, seq![]);
    let n = pre.len() as int;
    assert(m.take(n) =~= pre);
    assert(m.skip(n + k) =~= Seq::<Seq<char>>::empty());
    assert(join(m.skip(n + k), seq!['\n']) =~= Seq::<char>::empty());
    if local.len() == 0 {
        assert(join(m.take(n), seq!['\n']) =~= Seq::<char>::empty());
        assert(b + Seq::<char>::empty() =~= b);
    } else {
        assert(Seq::<char>::empty() + b + Seq::<char>::empty() =~= b);
    }
}

/// Syncing a second time with the same block changes nothing. This holds
/// when no line of the remote block ends with a carriage return, and the
/// local text either has a GitHub block, none of whose lines outside the
/// block ends with a carriage return, or has no marker line and no
/// carriage return that ends a line (such a carriage return is written
/// back without it, and a stray marker line makes the first sync append a
/// block that the second then finds after it).
pub proof fn law_sync_twice_changes_nothing(remote: Seq<char>, local: Seq<char>, s: int, e: int)
    requires
        first_marker(lines_of(remote), start_marker()) == Some(s),
        first_marker(lines_of(remote), end_marker()) == Some(e),
        s <= e,
        forall|i: int|
            s <= i <= e ==> !(lines_of(remote)[i].len() > 0 && #[trigger] lines_of(remote)[i].last()
                == '\r'),
        (has_github_block(local) && forall|i: int|
            0 <= i < lines_of(local).len() && (i < first_marker(lines_of(local), start_marker())->0
                || i > first_marker(lines_of(local), end_marker())->0) ==> !(lines_of(local)[i].len()
                > 0 && #[trigger] lines_of(local)[i].last() == '\r')) || (marker_free(local)
            && no_cr_line_end(local)),
    ensures
        block_of(remote) is Ok,
        merged_text(merged_text(local, block_of(remote)->Ok_0), block_of(remote)->Ok_0)
            == merged_text(local, block_of(remote)->Ok_0),
{
    if has_github_block(local) {
        reveal_strlit("#Github Hosts Start");
        reveal_strlit("#Github Hosts End");
        let ll = lines_of(local);
        if marker_free(local) {
            let ls = first_marker(ll, start_marker())->0;
            lemma_first_marker_bound(ll, start_marker(), 0);
            assert(!is_marker_line(ll[ls]));
        }
        lemma_sync_twice_replaced(remote, local, s, e);
    } else {
        lemma_sync_twice_appended(remote, local, s, e);
    }
}

/// Syncing a second time with the same block changes nothing, for texts
/// without carriage returns: the block taken from the remote text and the
/// local text hold none, and the local text has a GitHub block or no
/// marker line.
pub proof fn law_sync_twice_plain(remote: Seq<char>, local: Seq<char>)
    requires
        block_of(remote) is Ok,
        no_cr(block_of(remote)->Ok_0),
        no_cr(local),
        has_github_block(local) || marker_free(local),
    ensures
        merged_text(merged_text(local, block_of(remote)->Ok_0), block_of(remote)->Ok_0)
            == merged_text(local, block_of(remote)->Ok_0),
{
    let rl = lines_of(remote);
    let s = first_marker(rl, start_marker())->0;
    let e = first_marker(rl, end_marker())->0;
    lemma_first_marker_bound(rl, start_marker(), 0);
    lemma_first_marker_bound(rl, end_marker(), 0);
    let blines = rl.subrange(s, e + 1);
    let joined = join(blines, seq!['\n']);
    let b = joined + seq!['\n'];
    assert(block_of(remote)->Ok_0 == b);
    assert forall|x: int| 0 <= x < joined.len() implies #[trigger] joined[x] != '\r' by {
        assert(b[x] == joined[x]);
    }
    lemma_join_no_cr(blines, seq!['\n']);
    assert forall|i: int| s <= i <= e implies !(rl[i].len() > 0 && #[trigger] rl[i].last()
        == '\r') by {
        assert(rl[i] == blines[i - s]);
        assert(no_cr(blines[i - s]));
        if rl[i].len() > 0 {
            assert(rl[i].last() == rl[i][rl[i].len() - 1]);
        }
    }
    let ll = lines_of(local);
    lemma_lines_no_cr(seq![], local);
    assert forall|i: int| 0 <= i < ll.len() implies !(ll[i].len() > 0 && #[trigger] ll[i].last()
        == '\r') by {
        assert(no_cr(ll[i]));
        if ll[i].len() > 0 {
            assert(ll[i].last() == ll[i][ll[i].len() - 1]);
        }
    }
    assert(no_cr_line_end(local));
    law_sync_twice_changes_nothing(remote, local, s, e);
}

// ---------------------------------------------------------------------
// The remote source
// ---------------------------------------------------------------------

/// Where a GitHub page of a file starts.
pub open spec fn github_prefix() -> Seq<char> {
    "https://github.com/"@
}

/// Where the raw content of a GitHub file starts.
pub open spec fn raw_github_prefix() -> Seq<char> {
    "https://raw.githubusercontent.com/"@
}

/// The address to download: the trimmed `url`, except that a GitHub page
/// of a file, `https://github.com/{owner}/{repo}/blob/{branch}/{path}`,
/// becomes the address of its raw content,
/// `https://raw.githubusercontent.com/{owner}/{repo}/{branch}/{path}`.
pub open spec fn normalized_url(url: Seq<char>) -> Seq<char> {
    let t = trim(url);
    if starts_with(t, github_prefix()) {
        let parts = split_on(t.skip(github_prefix().len() as int), '/');
        if parts.len() >= 5 && parts[2] == "blob"@ {
            raw_github_prefix() + parts[0] + seq!['/'] + parts[1] + seq!['/'] + parts[3] + seq![
                '/',
            ] + join(parts.skip(4), seq!['/'])
        } else {
            t
        }
    } else {
        t
    }
}

/// A GitHub page of a file:
/// `https://github.com/{owner}/{repo}/blob/{branch}/{path}`.
pub open spec fn blob_page(
    owner: Seq<char>,
    repo: Seq<char>,
    branch: Seq<char>,
    path: Seq<char>,
) -> Seq<char> {
    github_prefix() + owner + seq!['/'] + repo + seq!['/'] + "blob"@ + seq!['/'] + branch
        + seq!['/'] + path
}

/// The address of the raw content of a GitHub file:
/// `https://raw.githubusercontent.com/{owner}/{repo}/{branch}/{path}`.
pub open spec fn raw_page(
    owner: Seq<char>,
    repo: Seq<char>,
    branch: Seq<char>,
    path: Seq<char>,
) -> Seq<char> {
    raw_github_prefix() + owner + seq!['/'] + repo + seq!['/'] + branch + seq!['/'] + path
}

/// An address that, trimmed, is the GitHub page of a file (owner, repo and
/// branch without `/`, any path) becomes the address of its raw content.
pub proof fn law_normalize_blob_page(
    url: Seq<char>,
    owner: Seq<char>,
    repo: Seq<char>,
    branch: Seq<char>,
    path: Seq<char>,
)
    requires
        lacks(owner, '/'),
        lacks(repo, '/'),
        lacks(branch, '/'),
        trim(url) == blob_page(owner, repo, branch, path),
    ensures
        normalized_url(url) == raw_page(owner, repo, branch, path),
{
    reveal_strlit("https://github.com/");
    reveal_strlit("blob");
    let t = trim(url);
    let blob: Seq<char> = "blob"@;
    assert(lacks(blob, '/'));
    assert(t.subrange(0, 19) =~= github_prefix());
    let d = branch + seq!['/'] + path;
    let c = blob + seq!['/'] + d;
    let b = repo + seq!['/'] + c;
    let x = t.skip(19);
    assert(x =~= owner + seq!['/'] + b);
    lemma_split_first(seq![], owner, b, '/');
    lemma_split_first(seq![], repo, c, '/');
    lemma_split_first(seq![], blob, d, '/');
    lemma_split_first(seq![], branch, path, '/');
    let ps = split_on(path, '/');
    lemma_last_piece(seq![], path, '/');
    lemma_split_join(seq![], path, '/');
    assert(Seq::<char>::empty() + owner =~= owner);
    assert(Seq::<char>::empty() + repo =~= repo);
    assert(Seq::<char>::empty() + blob =~= blob);
    assert(Seq::<char>::empty() + branch =~= branch);
    assert(Seq::<char>::empty() + path =~= path);
    let parts = split_on(x, '/');
    assert(parts =~= seq![owner, repo, blob, branch] + ps);
    assert(parts.skip(4) =~= ps);
}

/// An address that, trimmed, is no GitHub page of a file is only trimmed.
pub proof fn law_normalize_other(url: Seq<char>)
    requires
        forall|owner: Seq<char>, repo: Seq<char>, branch: Seq<char>, path: Seq<char>|
            lacks(owner, '/') && lacks(repo, '/') && lacks(branch, '/') ==> trim(url)
                != #[trigger] blob_page(owner, repo, branch, path),
    ensures
        normalized_url(url) == trim(url),
{
    reveal_strlit("https://github.com/");
    let t = trim(url);
    if starts_with(t, github_prefix()) {
        let x = t.skip(19);
        let parts = split_on(x, '/');
        if parts.len() >= 5 && parts[2] == "blob"@ {
            lemma_split_join(seq![], x, '/');
            lemma_pieces_lack_sep(seq![], x, '/');
            assert(Seq::<char>::empty() + x =~= x);
            let a = parts.take(4);
            let rest = parts.skip(4);
            assert(parts =~= a + rest);
            lemma_join_concat(a, rest, seq!['/']);
            let sl = seq!['/'];
            let a1 = seq![parts[0]];
            let a2 = seq![parts[0], parts[1]];
            let a3 = seq![parts[0], parts[1], parts[2]];
            assert(a =~= seq![parts[0], parts[1], parts[2], parts[3]]);
            assert(a2.drop_last() =~= a1);
            assert(a3.drop_last() =~= a2);
            assert(a.drop_last() =~= a3);
            assert(join(a1, sl) == parts[0]);
            assert(join(a2, sl) == parts[0] + sl + parts[1]);
            assert(join(a3, sl) == parts[0] + sl + parts[1] + sl + parts[2]);
            assert(join(a, sl) == parts[0] + sl + parts[1] + sl + parts[2] + sl + parts[3]);
            assert(t =~= github_prefix() + x);
            assert(lacks(parts[0], '/') && lacks(parts[1], '/') && lacks(parts[3], '/'));
            assert(t =~= blob_page(parts[0], parts[1], parts[3], join(rest, sl)));
            assert(false);
        }
    }
}

/// The address to download for a user-given remote hosts URL.
pub fn normalize_remote_hosts_url(url: &str) -> (resolved: String)
    ensures
        resolved@ == normalized_url(url@),
{
    let text = chars_of(url);
    let t = trimmed(&text);
    let prefix = chars_of("https://github.com/");
    if matches_at(&t, 0, &prefix) {
        assert(t@.subrange(0, prefix@.len() as int) == prefix@);
        let rest = copy_range(&t, prefix.len(), t.len());
        assert(rest@ =~= t@.skip(prefix@.len() as int));
        let parts = split_char(&rest, '/');
        let blob = chars_of("blob");
        if parts.len() >= 5 && same_chars(&parts[2], &blob) {
            let mut out = chars_of("https://raw.githubusercontent.com/");
            extend_range(&mut out, &parts[0], 0, parts[0].len());
            out.push('/');
            extend_range(&mut out, &parts[1], 0, parts[1].len());
            out.push('/');
            extend_range(&mut out, &parts[3], 0, parts[3].len());
            out.push('/');
            let slash = ['/'];
            let path = join_range(&parts, 4, parts.len(), &slash);
            extend_range(&mut out, &path, 0, path.len());
            proof {
                let ps = seqs_of(parts@);
                assert(slash@ =~= seq!['/']);
                assert(ps.subrange(4, ps.len() as int) =~= ps.skip(4));
                assert(parts@[0]@.subrange(0, parts@[0]@.len() as int) =~= ps[0]);
                assert(parts@[1]@.subrange(0, parts@[1]@.len() as int) =~= ps[1]);
                assert(parts@[3]@.subrange(0, parts@[3]@.len() as int) =~= ps[3]);
                assert(path@.subrange(0, path@.len() as int) =~= path@);
                assert(out@ =~= normalized_url(url@));
            }
            return string_of(&out);
        }
    }
    string_of(&t)
}

/// Normalizing an address a second time changes nothing: a trimmed
/// address is its own trim, and the address of raw content is no GitHub
/// page.
pub proof fn law_normalize_twice(url: Seq<char>)
    ensures
        normalized_url(normalized_url(url)) == normalized_url(url),
{
    reveal_strlit("https://github.com/");
    reveal_strlit("https://raw.githubusercontent.com/");
    let t = trim(url);
    lemma_trim_twice(url);
    let r = normalized_url(url);
    if starts_with(t, github_prefix()) {
        let x = t.skip(github_prefix().len() as int);
        let parts = split_on(x, '/');
        if parts.len() >= 5 && parts[2] == "blob"@ {
            let path = join(parts.skip(4), seq!['/']);
            let head = raw_github_prefix() + parts[0] + seq!['/'] + parts[1] + seq!['/']
                + parts[3] + seq!['/'];
            assert(r == head + path);
            assert(r[0] == 'h');
            // The address ends with a slash or with the end of the page's
            // address, which is not whitespace.
            lemma_trim_shape(url);
            lemma_last_piece(seq![], x, '/');
            assert(Seq::<char>::empty() + x =~= x);
            let ps = parts.skip(4);
            assert(ps.last() == parts.last());
            if path.len() == 0 {
                assert(r.last() == '/');
            } else if ps.len() == 1 {
                assert(path == parts.last());
                assert(x.last() == t.last());
            } else {
                assert(path == join(ps.drop_last(), seq!['/']) + seq!['/'] + ps.last());
                if ps.last().len() > 0 {
                    assert(x.last() == t.last());
                }
            }
            assert(!is_ws(r.last()));
            lemma_trim_fixed(r);
            assert(r[8] != github_prefix()[8]);
            assert(r.subrange(0, 19)[8] == r[8]);
            assert(!starts_with(r, github_prefix()));
        }
    }
}

} // verus!
