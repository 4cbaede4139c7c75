//! Tab bars: how wide each tab is, which tab a point falls on, the colour a
//! tab is drawn in, and where a dragged tab is dropped.
use crate::config::LayoutConfig;
use crate::drag::{first_rect_at, frame_at_point, rects_fit};
use crate::layout::NodeId;
use crate::render::{ICON_SIZE, TAB_MAX_WIDTH, TAB_MIN_WIDTH, TAB_PADDING};
use crate::types::Rect;
use vstd::prelude::*;

verus! {

/// Space after a tab's icon.
pub const ICON_PADDING: u32 = 4;

/// Extra width that a tab's icon takes, when icons are shown.
pub open spec fn icon_extra(show_icons: bool) -> u32 {
    if show_icons {
        (ICON_SIZE + ICON_PADDING) as u32
    } else {
        0
    }
}

/// The width of a tab whose title is `title_width` pixels wide: the title
/// with its padding and icon, kept between the minimum and maximum tab
/// widths.
pub open spec fn tab_width_spec(title_width: u32, show_icons: bool) -> u32 {
    let want = title_width + TAB_PADDING + icon_extra(show_icons);
    if want < TAB_MIN_WIDTH {
        TAB_MIN_WIDTH
    } else if want > TAB_MAX_WIDTH {
        TAB_MAX_WIDTH
    } else {
        want as u32
    }
}

/// The total width of the tabs for these titles.
pub open spec fn tabs_total(titles: Seq<u32>, show_icons: bool) -> int
    decreases titles.len(),
{
    if titles.len() == 0 {
        0
    } else {
        tabs_total(titles.drop_last(), show_icons) + tab_width_spec(titles.last(), show_icons)
    }
}

/// Tabs are laid out one after another from 0: each at the total width of
/// the tabs before it, with its own width, which lies between the minimum
/// and maximum tab widths, icon included.
pub open spec fn is_tab_layout(layout: Seq<(i16, u32)>, titles: Seq<u32>, show_icons: bool) -> bool {
    &&& layout.len() == titles.len()
    &&& forall|i: int|
        0 <= i < titles.len() ==> #[trigger] layout[i] == (
            tabs_total(titles.take(i), show_icons) as i16,
            tab_width_spec(titles[i], show_icons),
        )
    &&& forall|i: int| 0 <= i < layout.len() ==> TAB_MIN_WIDTH <= (#[trigger] layout[i]).1 <= TAB_MAX_WIDTH
}

proof fn lemma_tabs_total_grows(titles: Seq<u32>, show_icons: bool, i: int)
    requires
        0 <= i <= titles.len(),
    ensures
        0 <= tabs_total(titles.take(i), show_icons) <= tabs_total(titles, show_icons),
    decreases titles.len(),
{
    if i < titles.len() {
        lemma_tabs_total_grows(titles.drop_last(), show_icons, i);
        assert(titles.drop_last().take(i) =~= titles.take(i));
    } else {
        assert(titles.take(i) =~= titles);
        if titles.len() > 0 {
            lemma_tabs_total_grows(titles.drop_last(), show_icons, titles.len() - 1);
            assert(titles.drop_last().take(titles.len() - 1) =~= titles.drop_last());
        }
    }
}

/// Lays out the tabs of a horizontal tab bar from the pixel widths of their
/// titles: (x position, width) for each tab, in order.
pub fn tab_layout(title_widths: &[u32], show_icons: bool) -> (r: Vec<(i16, u32)>)
    requires
        forall|i: int| 0 <= i < title_widths@.len() ==> #[trigger] title_widths@[i] + 48 <= u32::MAX,
        tabs_total(title_widths@, show_icons) <= i16::MAX,
    ensures
        is_tab_layout(r@, title_widths@, show_icons),
{
    let icon_width: u32 = if show_icons {
        ICON_SIZE + ICON_PADDING
    } else {
        0
    };
    let mut result: Vec<(i16, u32)> = Vec::new();
    let mut x_offset: i16 = 0;
    let mut i: usize = 0;
    proof {
        assert(title_widths@.take(0) =~= Seq::<u32>::empty());
    }
    while i < title_widths.len()
        invariant
            i <= title_widths@.len(),
            icon_width == icon_extra(show_icons),
            forall|j: int| 0 <= j < title_widths@.len() ==> #[trigger] title_widths@[j] + 48 <= u32::MAX,
            tabs_total(title_widths@, show_icons) <= i16::MAX,
            x_offset == tabs_total(title_widths@.take(i as int), show_icons),
            is_tab_layout(result@, title_widths@.take(i as int), show_icons),
        decreases title_widths@.len() - i,
    {
        let title_width = title_widths[i];
        let want = title_width + TAB_PADDING + icon_width;
        let tab_width = if want < TAB_MIN_WIDTH {
            TAB_MIN_WIDTH
        } else if want > TAB_MAX_WIDTH {
            TAB_MAX_WIDTH
        } else {
            want
        };
        proof {
            assert(title_widths@.take(i + 1).drop_last() =~= title_widths@.take(i as int));
            assert(title_widths@.take(i + 1).last() == title_width);
            lemma_tabs_total_grows(title_widths@, show_icons, i + 1);
            assert forall|j: int| 0 <= j < i implies title_widths@.take(i + 1).take(j) =~= title_widths@.take(i as int).take(j) by {}
            assert forall|j: int| 0 <= j < i implies title_widths@.take(i + 1)[j] == title_widths@.take(i as int)[j] by {}
        }
        result.push((x_offset, tab_width));
        x_offset = x_offset + tab_width as i16;
        proof {
            assert(title_widths@.take(i + 1).take(i as int) =~= title_widths@.take(i as int));
            assert forall|j: int| 0 <= j < i + 1 implies #[trigger] result@[j] == (
                tabs_total(title_widths@.take(i + 1).take(j), show_icons) as i16,
                tab_width_spec(title_widths@.take(i + 1)[j], show_icons),
            ) by {
                if j < i {
                    assert(title_widths@.take(i + 1).take(j) =~= title_widths@.take(i as int).take(j));
                }
            }
        }
        i = i + 1;
    }
    proof {
        assert(title_widths@.take(title_widths@.len() as int) =~= title_widths@);
    }
    result
}

/// Whether `tab_layout` may lay out these titles: each title's width leaves
/// room for the padding and icon, and the tabs together are no wider than
/// an `i16` position can reach.
pub fn tab_layout_fits(title_widths: &[u32], show_icons: bool) -> (r: bool)
    ensures
        r == ((forall|i: int| 0 <= i < title_widths@.len() ==> #[trigger] title_widths@[i] + 48 <= u32::MAX)
            && tabs_total(title_widths@, show_icons) <= i16::MAX),
{
    let icon_width: u32 = if show_icons {
        ICON_SIZE + ICON_PADDING
    } else {
        0
    };
    let mut total: u64 = 0;
    let mut i: usize = 0;
    while i < title_widths.len()
        invariant
            i <= title_widths@.len(),
            icon_width == icon_extra(show_icons),
            total == tabs_total(title_widths@.take(i as int), show_icons),
            total <= i16::MAX,
            forall|j: int| 0 <= j < i ==> #[trigger] title_widths@[j] + 48 <= u32::MAX,
        decreases title_widths@.len() - i,
    {
        let title_width = title_widths[i];
        if title_width > u32::MAX - 48 {
            return false;
        }
        let want = title_width + TAB_PADDING + icon_width;
        let tab_width = if want < TAB_MIN_WIDTH {
            TAB_MIN_WIDTH
        } else if want > TAB_MAX_WIDTH {
            TAB_MAX_WIDTH
        } else {
            want
        };
        proof {
            assert(title_widths@.take(i + 1).drop_last() =~= title_widths@.take(i as int));
            assert(title_widths@.take(i + 1).last() == title_width);
        }
        total = total + tab_width as u64;
        if total > 0x7fff {
            proof {
                lemma_tabs_total_grows(title_widths@, show_icons, i + 1);
            }
            return false;
        }
        i = i + 1;
    }
    proof {
        assert(title_widths@.take(title_widths@.len() as int) =~= title_widths@);
    }
    true
}

/// The first tab whose span holds `x`.
pub open spec fn tab_at_spec(layout: Seq<(i16, u32)>, x: i16) -> Option<usize>
    decreases layout.len(),
{
    if layout.len() == 0 {
        None
    } else {
        match tab_at_spec(layout.drop_last(), x) {
            Some(i) => Some(i),
            None => {
                let (tx, w) = layout.last();
                if x >= tx && x < tx + w {
                    Some((layout.len() - 1) as usize)
                } else {
                    None
                }
            },
        }
    }
}

/// Each tab's end is an `i16` value.
pub open spec fn layout_fits(layout: Seq<(i16, u32)>) -> bool {
    forall|i: int|
        0 <= i < layout.len() ==> (#[trigger] layout[i]).1 <= i16::MAX && layout[i].0 + layout[i].1
            <= i16::MAX
}

/// The tab of a horizontal tab bar at position `x` within the bar.
pub fn tab_at(layout: &[(i16, u32)], x: i16) -> (r: Option<usize>)
    requires
        layout_fits(layout@),
    ensures
        r == tab_at_spec(layout@, x),
{
    let mut i: usize = 0;
    proof {
        assert(layout@.take(0) =~= Seq::<(i16, u32)>::empty());
    }
    while i < layout.len()
        invariant
            i <= layout@.len(),
            layout_fits(layout@),
            tab_at_spec(layout@.take(i as int), x) is None,
        decreases layout@.len() - i,
    {
        let (tx, w) = layout[i];
        proof {
            assert(layout@.take(i + 1).drop_last() =~= layout@.take(i as int));
            assert(layout@.take(i + 1).last() == layout@[i as int]);
        }
        if x >= tx && x < tx + w as i16 {
            proof {
                assert(tab_at_spec(layout@.take(i + 1), x) == Some(i));
                lemma_tab_at_prefix(layout@, i + 1, x);
            }
            return Some(i);
        }
        i = i + 1;
    }
    proof {
        assert(layout@.take(layout@.len() as int) =~= layout@);
    }
    None
}

proof fn lemma_tab_at_prefix(layout: Seq<(i16, u32)>, k: int, x: i16)
    requires
        0 <= k <= layout.len(),
        tab_at_spec(layout.take(k), x) is Some,
    ensures
        tab_at_spec(layout, x) == tab_at_spec(layout.take(k), x),
    decreases layout.len() - k,
{
    if k < layout.len() {
        assert(layout.take(k + 1).drop_last() =~= layout.take(k));
        lemma_tab_at_prefix(layout, k + 1, x);
    } else {
        assert(layout.take(k) =~= layout);
    }
}

/// The tab of a vertical tab bar at height `y`: tabs are squares of
/// `tab_size`, one under another.
pub fn vertical_tab_at(y: u32, tab_size: u32, num_tabs: usize) -> (r: Option<usize>)
    requires
        tab_size > 0,
    ensures
        r == if ((y / tab_size) as int) < num_tabs {
            Some((y / tab_size) as usize)
        } else {
            None::<usize>
        },
{
    let index = y / tab_size;
    if (index as usize) < num_tabs {
        Some(index as usize)
    } else {
        None
    }
}

/// The background colour of a tab. In order of priority: a tagged tab, the
/// front tab of the focused frame, an urgent tab, the front tab of another
/// frame, any other tab.
pub open spec fn tab_background_spec(config: LayoutConfig, is_tagged: bool, is_front: bool, in_focused_frame: bool, is_urgent: bool) -> u32 {
    if is_tagged {
        config.tab_tagged_bg
    } else if is_front && in_focused_frame {
        config.tab_focused_bg
    } else if is_urgent {
        config.tab_urgent_bg
    } else if is_front {
        config.tab_visible_unfocused_bg
    } else {
        config.tab_unfocused_bg
    }
}

/// The background colour a tab is drawn in.
pub fn tab_background(config: &LayoutConfig, is_tagged: bool, is_front: bool, in_focused_frame: bool, is_urgent: bool) -> (r: u32)
    ensures
        r == tab_background_spec(*config, is_tagged, is_front, in_focused_frame, is_urgent),
{
    if is_tagged {
        config.tab_tagged_bg
    } else if is_front && in_focused_frame {
        config.tab_focused_bg
    } else if is_urgent {
        config.tab_urgent_bg
    } else if is_front {
        config.tab_visible_unfocused_bg
    } else {
        config.tab_unfocused_bg
    }
}

/// A tab bar on screen, as a drop target: its frame, its area in root
/// coordinates, its orientation, how many tabs it shows, and, for a
/// horizontal bar, the layout of its tabs.
pub struct TabBarArea {
    pub frame: NodeId,
    pub x: i16,
    pub y: i16,
    pub width: u16,
    pub height: u16,
    pub vertical: bool,
    pub num_tabs: usize,
    pub layout: Vec<(i16, u32)>,
}

/// The bar holds the point (`x`, `y`).
pub open spec fn bar_holds(b: TabBarArea, x: i16, y: i16) -> bool {
    x >= b.x && x < b.x + b.width && y >= b.y && y < b.y + b.height
}

/// The tab of bar `b` under the point (`x`, `y`), which the bar holds.
pub open spec fn bar_tab_spec(b: TabBarArea, x: i16, y: i16, tab_size: u32) -> Option<usize> {
    if b.vertical {
        let local_y = y - b.y;
        if local_y >= 0 && (local_y / (tab_size as int)) < b.num_tabs {
            Some((local_y / (tab_size as int)) as usize)
        } else {
            None
        }
    } else {
        tab_at_spec(b.layout@, (x - b.x) as i16)
    }
}

/// Where a tab dropped at (`x`, `y`) goes: onto the first tab bar that holds
/// the point, at the tab under it if any; else into the first frame whose
/// area holds it; else nowhere.
pub open spec fn drop_target_spec(bars: Seq<TabBarArea>, frames: Seq<(NodeId, Rect)>, x: i16, y: i16, tab_size: u32) -> (Option<NodeId>, Option<usize>)
    decreases bars.len(),
{
    if bars.len() == 0 {
        (first_rect_at(frames, x as int, y as int), None)
    } else if bar_holds(bars[0], x, y) {
        (Some(bars[0].frame), bar_tab_spec(bars[0], x, y, tab_size))
    } else {
        drop_target_spec(bars.drop_first(), frames, x, y, tab_size)
    }
}

/// The bars' and the points' numbers stay within `i16`.
pub open spec fn bars_fit(bars: Seq<TabBarArea>, x: i16, y: i16) -> bool {
    forall|i: int|
        0 <= i < bars.len() ==> {
            let b = #[trigger] bars[i];
            &&& b.width <= i16::MAX && b.height <= i16::MAX
            &&& b.x + b.width <= i16::MAX && b.y + b.height <= i16::MAX
            &&& i16::MIN <= x - b.x <= i16::MAX && i16::MIN <= y - b.y <= i16::MAX
            &&& layout_fits(b.layout@)
        }
}

/// Where a dragged tab released at (`x`, `y`) lands: the frame, and the
/// tab position within it when the point is over a tab.
pub fn drop_target(bars: &Vec<TabBarArea>, frames: &[(NodeId, Rect)], x: i16, y: i16, tab_size: u32) -> (r: (Option<NodeId>, Option<usize>))
    requires
        tab_size > 0,
        bars_fit(bars@, x, y),
        rects_fit(frames@),
    ensures
        r == drop_target_spec(bars@, frames@, x, y, tab_size),
{
    let mut i: usize = 0;
    proof {
        assert(bars@.subrange(0, bars@.len() as int) =~= bars@);
    }
    while i < bars.len()
        invariant
            i <= bars@.len(),
            tab_size > 0,
            bars_fit(bars@, x, y),
            drop_target_spec(bars@, frames@, x, y, tab_size) == drop_target_spec(
                bars@.subrange(i as int, bars@.len() as int),
                frames@,
                x,
                y,
                tab_size,
            ),
        decreases bars@.len() - i,
    {
        let b = &bars[i];
        proof {
            let rest = bars@.subrange(i as int, bars@.len() as int);
            assert(rest[0] == bars@[i as int]);
            assert(rest.drop_first() =~= bars@.subrange(i + 1, bars@.len() as int));
        }
        if x >= b.x && x < b.x + b.width as i16 && y >= b.y && y < b.y + b.height as i16 {
            let index = if b.vertical {
                let local_y = y - b.y;
                if local_y >= 0 {
                    vertical_tab_at(local_y as u32, tab_size, b.num_tabs)
                } else {
                    None
                }
            } else {
                tab_at(b.layout.as_slice(), x - b.x)
            };
            return (Some(b.frame), index);
        }
        i = i + 1;
    }
    proof {
        assert(bars@.subrange(i as int, bars@.len() as int) =~= Seq::<TabBarArea>::empty());
    }
    (frame_at_point(frames, x as i32, y as i32), None)
}

} // verus!
