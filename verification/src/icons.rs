//! The icons of the toolbar, as values: which one, and its name.
//!
//! Drawing them is the window's part; every icon is described there on one
//! 16×16 grid with one stroke width.

use vstd::prelude::*;

verus! {

/// Which icon to draw.
#[derive(Debug, Clone, Copy, PartialEq, Eq, Structural)]
pub enum Icon {
    /// An eye: the rendered view.
    Eye,
    /// `</>`: the source view.
    Code,
    /// An open folder: "Open…".
    Folder,
    /// A circular arrow: "Reload".
    Reload,
    /// The sun: switch to the light theme.
    Sun,
    /// The moon: switch to the dark theme.
    Moon,
    /// Spreading waves: "Watch the file".
    Waves,
    /// A side panel: "Outline".
    Sidebar,
    /// A cross: "Close".
    Close,
    /// A magnifying glass: "Search".
    Search,
}

/// The name of an icon, for the debugging gallery.
pub open spec fn spec_icon_name(icon: Icon) -> Seq<char> {
    match icon {
        Icon::Eye => "Eye"@,
        Icon::Code => "Code"@,
        Icon::Folder => "Folder"@,
        Icon::Reload => "Reload"@,
        Icon::Sun => "Sun"@,
        Icon::Moon => "Moon"@,
        Icon::Waves => "Waves"@,
        Icon::Sidebar => "Sidebar"@,
        Icon::Close => "Close"@,
        Icon::Search => "Search"@,
    }
}

/// Every icon, in the gallery's order.
pub open spec fn spec_all_icons() -> Seq<Icon> {
    seq![
        Icon::Eye,
        Icon::Code,
        Icon::Folder,
        Icon::Reload,
        Icon::Sun,
        Icon::Moon,
        Icon::Waves,
        Icon::Sidebar,
        Icon::Close,
        Icon::Search,
    ]
}

impl Icon {
    /// The icon's name.
    pub fn name(self) -> (r: &'static str)
        ensures
            r@ == spec_icon_name(self),
    {
        match self {
            Icon::Eye => "Eye",
            Icon::Code => "Code",
            Icon::Folder => "Folder",
            Icon::Reload => "Reload",
            Icon::Sun => "Sun",
            Icon::Moon => "Moon",
            Icon::Waves => "Waves",
            Icon::Sidebar => "Sidebar",
            Icon::Close => "Close",
            Icon::Search => "Search",
        }
    }

    /// All icons, for the gallery.
    pub fn all() -> (r: Vec<Icon>)
        ensures
            r@ == spec_all_icons(),
    {
        let r = vec![
            Icon::Eye,
            Icon::Code,
            Icon::Folder,
            Icon::Reload,
            Icon::Sun,
            Icon::Moon,
            Icon::Waves,
            Icon::Sidebar,
            Icon::Close,
            Icon::Search,
        ];
        assert(r@ =~= spec_all_icons());
        r
    }
}

/// Every icon appears in the gallery exactly once.
pub proof fn lemma_all_icons_once(icon: Icon)
    ensures
        spec_all_icons().contains(icon),
        forall|i: int, j: int|
            0 <= i < j < spec_all_icons().len() ==> spec_all_icons()[i] != spec_all_icons()[j],
{
    let all = spec_all_icons();
    match icon {
        Icon::Eye => assert(all[0] == icon),
        Icon::Code => assert(all[1] == icon),
        Icon::Folder => assert(all[2] == icon),
        Icon::Reload => assert(all[3] == icon),
        Icon::Sun => assert(all[4] == icon),
        Icon::Moon => assert(all[5] == icon),
        Icon::Waves => assert(all[6] == icon),
        Icon::Sidebar => assert(all[7] == icon),
        Icon::Close => assert(all[8] == icon),
        Icon::Search => assert(all[9] == icon),
    }
}

/// One segment of a segmented switch: several icons in one frame, the
/// selected one highlighted. The switch keeps no state of its own; which
/// segment is active is the caller's to decide.
pub struct Segment<'a> {
    pub icon: Icon,
    /// The tooltip on hover; without it the icon is a riddle.
    pub tooltip: &'a str,
}

} // verus!
