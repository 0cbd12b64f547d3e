//! Scroll position and in-page selection of one paged list.

use vstd::prelude::*;

verus! {

/// One navigation request on a paged list.
#[derive(Clone, Copy, Debug, PartialEq, Eq, Structural)]
pub enum NavStep {
    Next,
    Previous,
    PageDown,
    PageUp,
}

/// Window over an ordered list of `total` entries: the first visible entry
/// (`offset`), the selected row inside the page (`selected`) and the number
/// of visible rows (`page_size`).
#[derive(Clone, Copy, Debug, PartialEq, Eq, Structural)]
pub struct Viewport {
    pub offset: usize,
    pub selected: usize,
    pub page_size: usize,
}

/// The largest offset that still fills a page: `max(0, total - page_size)`.
pub open spec fn max_offset(total: nat, page_size: nat) -> nat {
    if total >= page_size {
        (total - page_size) as nat
    } else {
        0
    }
}

impl Viewport {
    /// A viewport showing the top of the list with the first row selected.
    pub fn new(page_size: usize) -> (r: Viewport)
        ensures
            r == (Viewport { offset: 0, selected: 0, page_size }),
    {
        Viewport { offset: 0, selected: 0, page_size }
    }

    /// The absolute index of the selection in the ordered list.
    pub open spec fn absolute(self) -> int {
        self.offset + self.selected
    }

    /// The bounds that every navigation step keeps on a list of `total` entries.
    pub open spec fn within(self, total: nat) -> bool {
        &&& self.page_size >= 1
        &&& self.selected < self.page_size
        &&& total > 0 ==> self.offset + self.selected < total
        &&& self.offset <= max_offset(total, self.page_size as nat)
    }

    pub open spec fn next_spec(self, total: nat) -> Viewport {
        if self.selected + 1 < self.page_size && self.offset + self.selected + 1 < total {
            Viewport { selected: (self.selected + 1) as usize, ..self }
        } else if self.offset + self.page_size < total {
            Viewport { offset: (self.offset + 1) as usize, ..self }
        } else {
            self
        }
    }

    pub open spec fn previous_spec(self) -> Viewport {
        if self.selected > 0 {
            Viewport { selected: (self.selected - 1) as usize, ..self }
        } else if self.offset > 0 {
            Viewport { offset: (self.offset - 1) as usize, ..self }
        } else {
            self
        }
    }

    pub open spec fn page_down_spec(self, total: nat) -> Viewport {
        let bound = max_offset(total, self.page_size as nat);
        let target = self.offset + self.page_size;
        Viewport { offset: (if target < bound { target } else { bound as int }) as usize, ..self }
    }

    pub open spec fn page_up_spec(self) -> Viewport {
        Viewport {
            offset: (if self.offset >= self.page_size { self.offset - self.page_size } else { 0 }) as usize,
            ..self
        }
    }

    pub open spec fn scroll_down_spec(self, total: nat) -> Viewport {
        if self.offset + self.page_size < total {
            Viewport { offset: (self.offset + 1) as usize, ..self }
        } else {
            self
        }
    }

    pub open spec fn scroll_up_spec(self) -> Viewport {
        if self.offset > 0 {
            Viewport { offset: (self.offset - 1) as usize, ..self }
        } else {
            self
        }
    }

    /// The viewport after the page becomes `rows` rows tall (at least one)
    /// on a list of `total` entries: the offset is kept from passing the
    /// last full page and the selection from leaving the page or the list.
    pub open spec fn resize_spec(self, rows: usize, total: nat) -> Viewport {
        let page: usize = if rows == 0 { 1 } else { rows };
        let bound = max_offset(total, page as nat);
        let offset: usize = if self.offset <= bound { self.offset } else { bound as usize };
        let selected: usize = if total <= offset {
            0
        } else if self.selected < page && self.selected < total - offset {
            self.selected
        } else if page <= total - offset {
            (page - 1) as usize
        } else {
            (total - offset - 1) as usize
        };
        Viewport { offset, selected, page_size: page }
    }

    pub open spec fn step_spec(self, step: NavStep, total: nat) -> Viewport {
        match step {
            NavStep::Next => self.next_spec(total),
            NavStep::Previous => self.previous_spec(),
            NavStep::PageDown => self.page_down_spec(total),
            NavStep::PageUp => self.page_up_spec(),
        }
    }

    /// Moves the selection one row down; at the bottom of the page the page
    /// scrolls instead, and at the last entry nothing changes.
    pub fn select_next(&mut self, total: usize)
        ensures
            *final(self) == old(self).next_spec(total as nat),
    {
        if self.page_size > 0 && self.selected < self.page_size - 1 && self.offset < total
            && self.selected < total - self.offset - 1 {
            self.selected = self.selected + 1;
        } else if self.offset < total && self.page_size < total - self.offset {
            self.offset = self.offset + 1;
        }
    }

    /// Moves the selection one row up; at the top of the page the page
    /// scrolls instead, and at the first entry nothing changes.
    pub fn select_previous(&mut self)
        ensures
            *final(self) == old(self).previous_spec(),
    {
        if self.selected > 0 {
            self.selected = self.selected - 1;
        } else if self.offset > 0 {
            self.offset = self.offset - 1;
        }
    }

    /// Jumps one page down, never past the last full page.
    pub fn page_down(&mut self, total: usize)
        ensures
            *final(self) == old(self).page_down_spec(total as nat),
    {
        let bound = total.saturating_sub(self.page_size);
        let target = self.offset.saturating_add(self.page_size);
        self.offset = if target < bound { target } else { bound };
    }

    /// Jumps one page up, never before the first entry.
    pub fn page_up(&mut self)
        ensures
            *final(self) == old(self).page_up_spec(),
    {
        self.offset = self.offset.saturating_sub(self.page_size);
    }

    /// Scrolls one entry down while a further entry is hidden below the page.
    pub fn scroll_down(&mut self, total: usize)
        ensures
            *final(self) == old(self).scroll_down_spec(total as nat),
    {
        if self.offset < total && self.page_size < total - self.offset {
            self.offset = self.offset + 1;
        }
    }

    /// Scrolls one entry up unless the page already starts at the first entry.
    pub fn scroll_up(&mut self)
        ensures
            *final(self) == old(self).scroll_up_spec(),
    {
        if self.offset > 0 {
            self.offset = self.offset - 1;
        }
    }

    /// Sets the page to `rows` rows (at least one) on a list of `total`
    /// entries, pulling offset and selection back within bounds.
    pub fn resize(&mut self, rows: usize, total: usize)
        ensures
            *final(self) == old(self).resize_spec(rows, total as nat),
            final(self).within(total as nat),
    {
        let page: usize = if rows == 0 { 1 } else { rows };
        let bound = total.saturating_sub(page);
        let offset = if self.offset <= bound { self.offset } else { bound };
        let selected = if total <= offset {
            0
        } else if self.selected < page && self.selected < total - offset {
            self.selected
        } else if page <= total - offset {
            page - 1
        } else {
            total - offset - 1
        };
        self.offset = offset;
        self.selected = selected;
        self.page_size = page;
    }

    /// Applies one navigation request.
    pub fn step(&mut self, step: NavStep, total: usize)
        ensures
            *final(self) == old(self).step_spec(step, total as nat),
    {
        match step {
            NavStep::Next => self.select_next(total),
            NavStep::Previous => self.select_previous(),
            NavStep::PageDown => self.page_down(total),
            NavStep::PageUp => self.page_up(),
        }
    }
}

/// The viewport after applying `steps` in order to `v`.
pub open spec fn run_steps(v: Viewport, steps: Seq<NavStep>, total: nat) -> Viewport
    decreases steps.len(),
{
    if steps.len() == 0 {
        v
    } else {
        run_steps(v, steps.drop_last(), total).step_spec(steps.last(), total)
    }
}

/// A single navigation step keeps the viewport within its bounds.
pub proof fn lemma_step_within(v: Viewport, step: NavStep, total: nat)
    requires
        v.within(total),
    ensures
        v.step_spec(step, total).within(total),
{
}

/// Bounds of navigation: from a viewport within its bounds, every sequence
/// of next, previous, page-down and page-up requests keeps the absolute
/// selection inside the list (when it is not empty) and never scrolls past
/// the last full page.
pub proof fn lemma_viewport_bounds(v: Viewport, steps: Seq<NavStep>, total: nat)
    requires
        v.within(total),
    ensures
        run_steps(v, steps, total).within(total),
        total > 0 ==> 0 <= run_steps(v, steps, total).absolute() < total,
        run_steps(v, steps, total).offset <= max_offset(total, v.page_size as nat),
    decreases steps.len(),
{
    if steps.len() > 0 {
        lemma_viewport_bounds(v, steps.drop_last(), total);
        lemma_step_within(run_steps(v, steps.drop_last(), total), steps.last(), total);
        lemma_page_size_kept(v, steps, total);
    }
}

/// No navigation step changes the page size.
pub proof fn lemma_page_size_kept(v: Viewport, steps: Seq<NavStep>, total: nat)
    ensures
        run_steps(v, steps, total).page_size == v.page_size,
    decreases steps.len(),
{
    if steps.len() > 0 {
        lemma_page_size_kept(v, steps.drop_last(), total);
    }
}

} // verus!
