//! The zoom level-of-detail ladder: derived once per frame, consumed
//! everywhere, so detail is never decided by scattered zoom comparisons.

use vstd::prelude::*;

verus! {

/// Ordered least-to-most detail.
///
/// - `L4`: below 15% — type bars and hairline wires only.
/// - `L3`: 15–35% — header block and type edge; no glyphs.
/// - `L2`: 35–45% — pin labels drop; the node title survives.
/// - `L1`: 45–60% — inline widgets fall back to plain values.
/// - `L0`: 60% and up — everything, widgets live.
#[derive(Clone, Copy, Debug, PartialEq, Eq, Structural, PartialOrd, Ord, Hash)]
pub enum ZoomLod {
    L4,
    L3,
    L2,
    L1,
    L0,
}

/// Position on the ladder, 0 (`L4`) to 4 (`L0`).
pub open spec fn detail(l: ZoomLod) -> int {
    match l {
        ZoomLod::L4 => 0,
        ZoomLod::L3 => 1,
        ZoomLod::L2 => 2,
        ZoomLod::L1 => 3,
        ZoomLod::L0 => 4,
    }
}

/// Live widgets (L0 only).
pub open spec fn widgets_live(l: ZoomLod) -> bool {
    l == ZoomLod::L0
}

/// Plain-text values (L1 and up).
pub open spec fn shows_values(l: ZoomLod) -> bool {
    detail(l) >= 3
}

/// Pin labels (L1 and up).
pub open spec fn shows_pin_labels(l: ZoomLod) -> bool {
    detail(l) >= 3
}

/// Pin rows (L2 and up).
pub open spec fn has_rows(l: ZoomLod) -> bool {
    detail(l) >= 2
}

/// Glyphs (L2 and up).
pub open spec fn shows_glyphs(l: ZoomLod) -> bool {
    detail(l) >= 2
}

/// A bare type bar (L4 only).
pub open spec fn bar_only_at(l: ZoomLod) -> bool {
    l == ZoomLod::L4
}

impl ZoomLod {
    /// Position on the ladder, 0 (`L4`) to 4 (`L0`).
    pub fn level(self) -> (r: u8)
        ensures
            r as int == detail(self),
    {
        match self {
            ZoomLod::L4 => 0,
            ZoomLod::L3 => 1,
            ZoomLod::L2 => 2,
            ZoomLod::L1 => 3,
            ZoomLod::L0 => 4,
        }
    }

    /// Editable widgets on the canvas (L0 only).
    pub fn inline_widgets(self) -> (r: bool)
        ensures
            r == widgets_live(self),
    {
        self == ZoomLod::L0
    }

    /// Inline constants render as plain text (L1 and up).
    pub fn values(self) -> (r: bool)
        ensures
            r == shows_values(self),
    {
        self.level() >= 3
    }

    /// Pin labels (L1 and up — L2 is where they drop).
    pub fn pin_labels(self) -> (r: bool)
        ensures
            r == shows_pin_labels(self),
    {
        self.level() >= 3
    }

    /// Pin rows exist at all (L2 and up); below that a node is its header.
    pub fn rows(self) -> (r: bool)
        ensures
            r == has_rows(self),
    {
        self.level() >= 2
    }

    /// The config band exists. Deliberately the same gate as the pin rows:
    /// the band drops exactly where the node becomes title-only.
    pub fn config_band(self) -> (r: bool)
        ensures
            r == has_rows(self),
    {
        self.rows()
    }

    /// Any glyph may be submitted (L2 and up). Annotation titles are the one
    /// documented exception and ignore this.
    pub fn glyphs(self) -> (r: bool)
        ensures
            r == shows_glyphs(self),
    {
        self.level() >= 2
    }

    /// L4: the node is a bar of its type colour.
    pub fn bar_only(self) -> (r: bool)
        ensures
            r == bar_only_at(self),
    {
        self == ZoomLod::L4
    }
}

/// Detail only ever increases up the ladder: a gate open at one rung is open
/// at every rung above it, and the bare bar exists only at the bottom.
pub proof fn law_lod_gates_are_monotonic(lo: ZoomLod, hi: ZoomLod)
    requires
        detail(lo) <= detail(hi),
    ensures
        widgets_live(lo) ==> widgets_live(hi),
        shows_values(lo) ==> shows_values(hi),
        shows_pin_labels(lo) ==> shows_pin_labels(hi),
        has_rows(lo) ==> has_rows(hi),
        shows_glyphs(lo) ==> shows_glyphs(hi),
        bar_only_at(hi) ==> bar_only_at(lo),
{
}

/// The documented cut points: widgets go live at L0, labels appear at L1,
/// rows and glyphs at L2, and only L4 is a bare bar. Below a live widget the
/// value is still drawn wherever the row (and so the config band) is.
pub proof fn law_lod_cut_points(l: ZoomLod)
    ensures
        widgets_live(l) <==> l == ZoomLod::L0,
        shows_pin_labels(l) <==> (l == ZoomLod::L0 || l == ZoomLod::L1),
        has_rows(l) <==> !(l == ZoomLod::L3 || l == ZoomLod::L4),
        shows_glyphs(l) == has_rows(l),
        shows_values(l) == shows_pin_labels(l),
        bar_only_at(l) <==> l == ZoomLod::L4,
{
}

} // verus!
