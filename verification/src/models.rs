//! The data of a hosts file: its lines, the host mappings among them, and
//! the backups kept of it.
use vstd::prelude::*;

verus! {

/// One host mapping: an address and a domain, and whether the mapping is
/// active or commented out.
#[derive(Debug, Clone, PartialEq, Eq)]
pub struct HostEntry {
    pub id: String,
    pub ip: String,
    pub domain: String,
    pub enabled: bool,
}

/// A saved copy of the hosts file.
#[derive(Debug, Clone)]
pub struct BackupItem {
    pub name: String,
    pub path: String,
    pub created_at: String,
}

/// One line of a hosts file as the editor holds it: a host mapping, or
/// text that is kept as it was read.
#[derive(Debug, Clone, PartialEq, Eq)]
pub enum HostsLine {
    Managed(HostEntry),
    Raw(String),
}

/// The mathematical content of a [`HostEntry`].
pub struct EntryView {
    pub id: Seq<char>,
    pub ip: Seq<char>,
    pub domain: Seq<char>,
    pub enabled: bool,
}

/// The mathematical content of a [`HostsLine`].
pub enum LineView {
    Managed(EntryView),
    Raw(Seq<char>),
}

/// What a line says, leaving out the identifier that the editor gives a
/// mapping: the part of a line that is written to the file.
pub enum LineShape {
    Entry { ip: Seq<char>, domain: Seq<char>, enabled: bool },
    Raw(Seq<char>),
}

/// The mathematical content of a [`BackupItem`].
pub struct BackupView {
    pub name: Seq<char>,
    pub path: Seq<char>,
    pub created_at: Seq<char>,
}

impl View for HostEntry {
    type V = EntryView;

    open spec fn view(&self) -> EntryView {
        EntryView { id: self.id@, ip: self.ip@, domain: self.domain@, enabled: self.enabled }
    }
}

impl View for HostsLine {
    type V = LineView;

    open spec fn view(&self) -> LineView {
        match self {
            HostsLine::Managed(e) => LineView::Managed(e@),
            HostsLine::Raw(r) => LineView::Raw(r@),
        }
    }
}

impl View for BackupItem {
    type V = BackupView;

    open spec fn view(&self) -> BackupView {
        BackupView { name: self.name@, path: self.path@, created_at: self.created_at@ }
    }
}

/// The shape of a line.
pub open spec fn shape_of(l: LineView) -> LineShape {
    match l {
        LineView::Managed(e) => LineShape::Entry { ip: e.ip, domain: e.domain, enabled: e.enabled },
        LineView::Raw(r) => LineShape::Raw(r),
    }
}

/// The shapes of a sequence of lines.
pub open spec fn shapes(lines: Seq<HostsLine>) -> Seq<LineShape> {
    lines.map_values(|l: HostsLine| shape_of(l@))
}

/// The shapes of a sequence of line views.
pub open spec fn view_shapes(lines: Seq<LineView>) -> Seq<LineShape> {
    lines.map_values(|l: LineView| shape_of(l))
}

/// The views of a sequence of lines.
pub open spec fn line_views(lines: Seq<HostsLine>) -> Seq<LineView> {
    lines.map_values(|l: HostsLine| l@)
}

/// The views of a sequence of entries.
pub open spec fn entry_views(entries: Seq<HostEntry>) -> Seq<EntryView> {
    entries.map_values(|e: HostEntry| e@)
}

impl HostEntry {
    /// A copy of this entry.
    pub fn duplicate(&self) -> (r: HostEntry)
        ensures
            r@ == self@,
    {
        HostEntry {
            id: self.id.clone(),
            ip: self.ip.clone(),
            domain: self.domain.clone(),
            enabled: self.enabled,
        }
    }
}

impl HostsLine {
    /// A copy of this line.
    pub fn duplicate(&self) -> (r: HostsLine)
        ensures
            r@ == self@,
    {
        match self {
            HostsLine::Managed(e) => HostsLine::Managed(e.duplicate()),
            HostsLine::Raw(r) => HostsLine::Raw(r.clone()),
        }
    }
}

} // verus!
