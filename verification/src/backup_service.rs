//! Backups of the hosts file: their names, and the order in which they are
//! listed.
use std::time::SystemTime;

use vstd::prelude::*;

use crate::clock::{
    label_pattern, local_now_text, since_epoch, stamp_pattern, time_shape, time_text_or_unknown,
    timestamp_spec, unix_timestamp, TIMESTAMP_BOUND,
};
use crate::hosts_service::{is_v4_uuid_text, new_uuid_v4_text};
use crate::models::{BackupItem, BackupView};
use crate::text::chars_of;

verus! {

// ---------------------------------------------------------------------
// Specification
// ---------------------------------------------------------------------

/// The name of a backup made at the time written `stamp`, with the random
/// identifier `id`.
pub open spec fn backup_name_text(stamp: Seq<char>, id: Seq<char>) -> Seq<char> {
    "hosts-"@ + stamp + "-"@ + id + ".bak"@
}

/// `a` comes before `b` in the order of `String`: lexicographic, by code
/// point.
pub open spec fn text_less(a: Seq<char>, b: Seq<char>) -> bool
    decreases a.len(),
{
    if a.len() == 0 {
        b.len() > 0
    } else if b.len() == 0 {
        false
    } else if a[0] != b[0] {
        (a[0] as u32) < (b[0] as u32)
    } else {
        text_less(a.drop_first(), b.drop_first())
    }
}

/// The index of the first of `items[from..]` made before `key`, or the
/// length of `items` when there is none.
pub open spec fn insert_position(items: Seq<BackupView>, key: Seq<char>, from: int) -> int
    decreases items.len() - from,
{
    if from < 0 || from >= items.len() {
        items.len() as int
    } else if text_less(items[from].created_at, key) {
        from
    } else {
        insert_position(items, key, from + 1)
    }
}

/// `x` placed in `items` after every item made no earlier than `x`.
pub open spec fn insert_newest_first(items: Seq<BackupView>, x: BackupView) -> Seq<BackupView> {
    items.insert(insert_position(items, x.created_at, 0), x)
}

/// `items` ordered newest first, items with the same time keeping their
/// order: what a stable sort on the descending creation time gives.
pub open spec fn newest_first(items: Seq<BackupView>) -> Seq<BackupView>
    decreases items.len(),
{
    if items.len() == 0 {
        seq![]
    } else {
        insert_newest_first(newest_first(items.drop_last()), items.last())
    }
}

/// No item is made before a later one in the list.
pub open spec fn is_newest_first(items: Seq<BackupView>) -> bool {
    forall|i: int, j: int|
        0 <= i < j < items.len() ==> !text_less(
            #[trigger] items[i].created_at,
            #[trigger] items[j].created_at,
        )
}

/// The views of a sequence of backups.
pub open spec fn backup_views(items: Seq<BackupItem>) -> Seq<BackupView> {
    items.map_values(|b: BackupItem| b@)
}

// ---------------------------------------------------------------------
// Proofs
// ---------------------------------------------------------------------

/// Two texts that are not before one another are equal.
pub proof fn lemma_text_less_total(a: Seq<char>, b: Seq<char>)
    ensures
        !text_less(a, b) && !text_less(b, a) ==> a == b,
    decreases a.len(),
{
    if a.len() > 0 && b.len() > 0 && a[0] == b[0] {
        lemma_text_less_total(a.drop_first(), b.drop_first());
        if a.drop_first() == b.drop_first() {
            assert(a =~= seq![a[0]] + a.drop_first());
            assert(b =~= seq![b[0]] + b.drop_first());
        }
    } else if a.len() == 0 && b.len() == 0 {
        assert(a =~= b);
    } else if a.len() > 0 && b.len() > 0 {
        vstd::utf8::char_u32_cast(a[0], a[0] as u32);
        vstd::utf8::char_u32_cast(b[0], b[0] as u32);
    }
}

/// The order of texts is transitive.
pub proof fn lemma_text_less_transitive(a: Seq<char>, b: Seq<char>, c: Seq<char>)
    requires
        text_less(a, b),
        text_less(b, c),
    ensures
        text_less(a, c),
    decreases a.len(),
{
    if a.len() > 0 && b.len() > 0 && c.len() > 0 && a[0] == b[0] && b[0] == c[0] {
        lemma_text_less_transitive(a.drop_first(), b.drop_first(), c.drop_first());
    }
}

/// No text is before itself.
pub proof fn lemma_text_less_irreflexive(a: Seq<char>)
    ensures
        !text_less(a, a),
    decreases a.len(),
{
    if a.len() > 0 {
        lemma_text_less_irreflexive(a.drop_first());
    }
}

proof fn lemma_insert_position(items: Seq<BackupView>, key: Seq<char>, from: int)
    requires
        0 <= from <= items.len(),
    ensures
        from <= insert_position(items, key, from) <= items.len(),
        forall|i: int|
            from <= i < insert_position(items, key, from) ==> !text_less(
                #[trigger] items[i].created_at,
                key,
            ),
        insert_position(items, key, from) < items.len() ==> text_less(
            items[insert_position(items, key, from)].created_at,
            key,
        ),
    decreases items.len() - from,
{
    if from < items.len() && !text_less(items[from].created_at, key) {
        lemma_insert_position(items, key, from + 1);
    }
}

/// Inserting keeps a list newest first.
proof fn lemma_insert_keeps_order(items: Seq<BackupView>, x: BackupView)
    requires
        is_newest_first(items),
    ensures
        is_newest_first(insert_newest_first(items, x)),
{
    let p = insert_position(items, x.created_at, 0);
    lemma_insert_position(items, x.created_at, 0);
    let r = insert_newest_first(items, x);
    assert forall|i: int, j: int| 0 <= i < j < r.len() implies !text_less(
        #[trigger] r[i].created_at,
        #[trigger] r[j].created_at,
    ) by {
        if i < p && j == p {
        } else if i == p && j > p {
            let y = items[j - 1];
            if text_less(x.created_at, y.created_at) {
                lemma_text_less_transitive(items[p].created_at, x.created_at, y.created_at);
                if p == j - 1 {
                    lemma_text_less_irreflexive(y.created_at);
                }
            }
        } else if i < p && j > p {
            assert(r[i] == items[i]);
            assert(r[j] == items[j - 1]);
        } else if j < p {
            assert(r[i] == items[i]);
            assert(r[j] == items[j]);
        } else {
            assert(r[i] == items[i - 1]);
            assert(r[j] == items[j - 1]);
        }
    }
}

/// Texts that agree up to a place where they differ come in the order of
/// the code points of the characters there: the order of `String`.
pub proof fn law_text_order_first_difference(a: Seq<char>, b: Seq<char>, k: int)
    requires
        0 <= k < a.len(),
        k < b.len(),
        a.take(k) == b.take(k),
        a[k] != b[k],
    ensures
        text_less(a, b) == ((a[k] as u32) < (b[k] as u32)),
    decreases k,
{
    if k > 0 {
        assert(a[0] == a.take(k)[0]);
        assert(b[0] == b.take(k)[0]);
        assert(a.drop_first().take(k - 1) =~= a.take(k).drop_first());
        assert(b.drop_first().take(k - 1) =~= b.take(k).drop_first());
        law_text_order_first_difference(a.drop_first(), b.drop_first(), k - 1);
    }
}

/// A text comes before every longer text that it begins, and never after
/// it.
pub proof fn law_text_order_prefix(a: Seq<char>, b: Seq<char>)
    requires
        a.len() < b.len(),
        b.take(a.len() as int) == a,
    ensures
        text_less(a, b),
        !text_less(b, a),
    decreases a.len(),
{
    if a.len() > 0 {
        assert(a[0] == b.take(a.len() as int)[0]);
        assert(b.drop_first().take(a.drop_first().len() as int) =~= b.take(a.len() as int).drop_first());
        law_text_order_prefix(a.drop_first(), b.drop_first());
    }
}

/// Ordering newest first gives a list in that order, holding the same
/// backups as many times each.
pub proof fn law_backups_newest_first(items: Seq<BackupView>)
    ensures
        is_newest_first(newest_first(items)),
        newest_first(items).to_multiset() == items.to_multiset(),
    decreases items.len(),
{
    broadcast use vstd::seq_lib::group_to_multiset_ensures;

    if items.len() > 0 {
        let rest = newest_first(items.drop_last());
        law_backups_newest_first(items.drop_last());
        lemma_insert_keeps_order(rest, items.last());
        let p = insert_position(rest, items.last().created_at, 0);
        lemma_insert_position(rest, items.last().created_at, 0);
        let r = insert_newest_first(rest, items.last());
        assert(r =~= rest.take(p) + (seq![items.last()] + rest.skip(p)));
        vstd::seq_lib::lemma_multiset_commutative(rest.take(p), seq![items.last()] + rest.skip(p));
        vstd::seq_lib::lemma_multiset_commutative(seq![items.last()], rest.skip(p));
        vstd::seq_lib::lemma_multiset_commutative(rest.take(p), rest.skip(p));
        assert(rest.take(p) + rest.skip(p) =~= rest);
        assert(items.drop_last().push(items.last()) =~= items);
        assert(seq![items.last()].to_multiset() =~= Seq::<BackupView>::empty().push(
            items.last(),
        ).to_multiset());
        assert(Seq::<BackupView>::empty().push(items.last()) =~= seq![items.last()]);
    } else {
        assert(newest_first(items) =~= items);
    }
}

// ---------------------------------------------------------------------
// Implementation
// ---------------------------------------------------------------------

/// The name of a backup made at the time written `stamp`, with the random
/// identifier `id`: `hosts-{stamp}-{id}.bak`.
pub fn backup_name_from(stamp: &str, id: &str) -> (name: String)
    ensures
        name@ == backup_name_text(stamp@, id@),
{
    let mut name = "hosts-".to_owned();
    name.append(stamp);
    name.append("-");
    name.append(id);
    name.append(".bak");
    name
}

/// The name of a new backup: the local time to the second and a random
/// UUID, `hosts-{YYYYmmdd-HHMMSS}-{uuid}.bak`.
pub fn backup_file_name() -> (name: String)
    ensures
        exists|stamp: Seq<char>, id: Seq<char>|
            time_shape(stamp_pattern(), stamp) && is_v4_uuid_text(id) && name@ == backup_name_text(
                stamp,
                id,
            ),
{
    let stamp = local_now_text("%Y%m%d-%H%M%S");
    let id = new_uuid_v4_text();
    let name = backup_name_from(stamp.as_str(), id.as_str());
    assert(time_shape(stamp_pattern(), stamp@) && is_v4_uuid_text(id@) && name@ == backup_name_text(
        stamp@,
        id@,
    ));
    name
}

/// When a backup was made, from the distance of its modification time to
/// the epoch (`None` when the file system gives no time): that time in
/// local time, `%Y-%m-%d %H:%M:%S`, or `unknown` when there is no time or
/// `chrono` has no date for it.
pub fn created_at_label_of(offset: Option<Result<(u64, u32), (u64, u32)>>) -> (label: String)
    ensures
        label@ == "unknown"@ || time_shape(label_pattern(), label@),
        match offset {
            None => label@ == "unknown"@,
            Some(o) => match timestamp_spec(o) {
                None => label@ == "unknown"@,
                Some((secs, nanos)) => -TIMESTAMP_BOUND <= secs <= TIMESTAMP_BOUND ==> time_shape(
                    label_pattern(),
                    label@,
                ),
            },
        },
{
    match offset {
        None => "unknown".to_owned(),
        Some(o) => match unix_timestamp(o) {
            Some((secs, nanos)) => time_text_or_unknown(secs, nanos, "%Y-%m-%d %H:%M:%S"),
            None => "unknown".to_owned(),
        },
    }
}

/// When a backup was made: its modification time in local time,
/// `%Y-%m-%d %H:%M:%S`, or `unknown` when the file system does not give
/// one or `chrono` has no date for it.
pub fn created_at_label(modified: Option<SystemTime>) -> (label: String)
    ensures
        modified is None ==> label@ == "unknown"@,
        label@ == "unknown"@ || time_shape(label_pattern(), label@),
{
    match modified {
        Some(t) => created_at_label_of(Some(since_epoch(t))),
        None => "unknown".to_owned(),
    }
}

/// Whether `a` comes before `b` in the order of `String`.
pub fn text_before(a: &str, b: &str) -> (r: bool)
    ensures
        r == text_less(a@, b@),
{
    let x = chars_of(a);
    let y = chars_of(b);
    let mut i: usize = 0;
    assert(x@.skip(0) =~= x@);
    assert(y@.skip(0) =~= y@);
    while i < x.len() && i < y.len() && x[i] == y[i]
        invariant
            i <= x@.len(),
            i <= y@.len(),
            text_less(x@, y@) == text_less(x@.skip(i as int), y@.skip(i as int)),
        decreases x@.len() - i,
    {
        assert(x@.skip(i as int).drop_first() =~= x@.skip(i + 1));
        assert(y@.skip(i as int).drop_first() =~= y@.skip(i + 1));
        i = i + 1;
    }
    if i == x.len() {
        i < y.len()
    } else if i == y.len() {
        false
    } else {
        (x[i] as u32) < (y[i] as u32)
    }
}

/// A copy of a backup item.
fn copy_item(item: &BackupItem) -> (r: BackupItem)
    ensures
        r@ == item@,
{
    BackupItem {
        name: item.name.clone(),
        path: item.path.clone(),
        created_at: item.created_at.clone(),
    }
}

/// The backups found, newest first: sorted by descending creation time,
/// backups with the same time keeping the order in which they were found.
pub fn order_backups(found: &Vec<BackupItem>) -> (ordered: Vec<BackupItem>)
    ensures
        backup_views(ordered@) == newest_first(backup_views(found@)),
{
    let mut out: Vec<BackupItem> = Vec::new();
    let n = found.len();
    for i in 0..n
        invariant
            n == found@.len(),
            backup_views(out@) == newest_first(backup_views(found@).take(i as int)),
    {
        let item = &found[i];
        let ghost acc = backup_views(out@);
        let mut p: usize = 0;
        while p < out.len() && !text_before(out[p].created_at.as_str(), item.created_at.as_str())
            invariant
                p <= out@.len(),
                acc == backup_views(out@),
                insert_position(acc, item@.created_at, 0) == insert_position(
                    acc,
                    item@.created_at,
                    p as int,
                ),
            decreases out@.len() - p,
        {
            p = p + 1;
        }
        out.insert(p, copy_item(item));
        assert(backup_views(found@).take(i + 1).drop_last() =~= backup_views(found@).take(
            i as int,
        ));
        assert(backup_views(out@) =~= acc.insert(p as int, item@));
    }
    assert(backup_views(found@).take(n as int) =~= backup_views(found@));
    out
}

} // verus!
