//! One scan of the matrix from raw samples to the report.

use vstd::prelude::*;
use crate::action::ActionModel;
use crate::debounce::{grid_events, step_grid, Debouncer, KeyDebounce};
use crate::grid::{rectangular, RawGrid};
use crate::layout::{defect, Layout};
use crate::report::{report_bytes, OutputReport};
use crate::resolver::{live_codes, run_events, state_fits, Resolver, ResolverState};

verus! {

/// A debouncer and a resolver for one key matrix.
pub struct Keyboard {
    debouncer: Debouncer,
    resolver: Resolver,
}

impl Keyboard {
    /// Debounce state of every switch.
    pub closed spec fn debounce(&self) -> Seq<Seq<KeyDebounce>> {
        self.debouncer.cells()
    }

    /// Scans for which a switch is deaf after an event.
    pub closed spec fn window(&self) -> u16 {
        self.debouncer.window()
    }

    /// The active layers and the captured actions.
    pub closed spec fn state(&self) -> ResolverState {
        self.resolver@
    }

    /// The layout that events are resolved against.
    pub closed spec fn table(&self) -> Seq<Seq<Seq<ActionModel>>> {
        self.resolver.table()
    }

    /// Number of rows of the matrix.
    pub closed spec fn height(&self) -> int {
        self.resolver.height()
    }

    /// Number of columns of the matrix.
    pub closed spec fn width(&self) -> int {
        self.resolver.width()
    }

    /// Both parts are well formed and cover the same matrix.
    pub closed spec fn wf(&self) -> bool {
        &&& self.debouncer.wf()
        &&& self.resolver.wf()
        &&& self.debouncer.height() == self.resolver.height()
        &&& self.debouncer.width() == self.resolver.width()
    }

    /// A keyboard for `layout` whose switches are deaf for `window` scans
    /// after each event. At first every switch is open and no key is held.
    pub fn new(layout: Layout, window: u16) -> (keyboard: Keyboard)
        requires
            layout.wf(),
        ensures
            keyboard.wf(),
            keyboard.table() == layout@,
            keyboard.height() == layout.height(),
            keyboard.width() == layout.width(),
            keyboard.window() == window,
            keyboard.state().stack == Seq::<usize>::empty(),
            forall|r: int, c: int|
                0 <= r < layout.height() && 0 <= c < layout.width() ==> (
                #[trigger] keyboard.state().held[r][c]) is None,
            forall|r: int, c: int|
                0 <= r < layout.height() && 0 <= c < layout.width() ==> (
                #[trigger] keyboard.debounce()[r][c]) == (KeyDebounce {
                    closed: false,
                    cooldown: 0,
                }),
    {
        let debouncer = Debouncer::new(layout.rows(), layout.cols(), window);
        let resolver = Resolver::new(layout);
        Keyboard { debouncer, resolver }
    }

    /// In a well-formed keyboard the layout has no defect, the resolver's
    /// state fits it, and the debouncer covers the same matrix.
    pub proof fn lemma_fits(&self)
        requires
            self.wf(),
        ensures
            defect(self.table(), self.height(), self.width()) is None,
            state_fits(self.table(), self.height(), self.width(), self.state()),
            rectangular(self.debounce(), self.height(), self.width()),
    {
        self.resolver.lemma_fits();
    }

    /// Number of rows of the matrix.
    pub fn rows(&self) -> (n: usize)
        ensures
            n == self.height(),
    {
        self.resolver.rows()
    }

    /// Number of columns of the matrix.
    pub fn cols(&self) -> (n: usize)
        ensures
            n == self.width(),
    {
        self.resolver.cols()
    }

    /// The debouncer.
    pub fn debouncer(&self) -> (debouncer: &Debouncer)
        ensures
            debouncer.cells() == self.debounce(),
            debouncer.window() == self.window(),
            self.wf() ==> debouncer.wf() && debouncer.height() == self.height()
                && debouncer.width() == self.width(),
    {
        &self.debouncer
    }

    /// The resolver.
    pub fn resolver(&self) -> (resolver: &Resolver)
        ensures
            resolver@ == self.state(),
            resolver.table() == self.table(),
            resolver.height() == self.height(),
            resolver.width() == self.width(),
            self.wf() ==> resolver.wf(),
    {
        &self.resolver
    }

    /// Takes one scan of the matrix: debounces the samples, resolves the
    /// events in the order in which the debouncer yields them, and builds
    /// the report for the keys that are held after the last of them.
    pub fn tick(&mut self, grid: &RawGrid) -> (report: OutputReport)
        requires
            old(self).wf(),
            grid.wf(),
            grid.height() == old(self).height(),
            grid.width() == old(self).width(),
        ensures
            final(self).wf(),
            final(self).table() == old(self).table(),
            final(self).height() == old(self).height(),
            final(self).width() == old(self).width(),
            final(self).window() == old(self).window(),
            final(self).debounce() == step_grid(
                old(self).debounce(),
                grid.samples(),
                old(self).window(),
            ),
            final(self).state() == run_events(
                old(self).table(),
                old(self).state(),
                grid_events(old(self).debounce(), grid.samples(), old(self).height()),
            ),
            report@ == report_bytes(live_codes(final(self).state().held)),
    {
        let ghost table = self.table();
        let ghost start = self.state();
        let events = self.debouncer.events(grid);
        let mut i: usize = 0;
        assert(events@.take(0) =~= Seq::empty());
        while i < events.len()
            invariant
                i <= events@.len(),
                self.wf(),
                self.debouncer.cells() == step_grid(
                    old(self).debounce(),
                    grid.samples(),
                    old(self).window(),
                ),
                self.debouncer.window() == old(self).window(),
                self.table() == table,
                self.height() == old(self).height(),
                self.width() == old(self).width(),
                self.state() == run_events(table, start, events@.take(i as int)),
            decreases events@.len() - i,
        {
            let _ = self.resolver.apply(events[i]);
            proof {
                assert(events@.take(i as int + 1).drop_last() =~= events@.take(i as int));
                assert(events@.take(i as int + 1).last() == events@[i as int]);
            }
            i += 1;
        }
        assert(events@.take(events@.len() as int) =~= events@);
        self.resolver.tick();
        self.resolver.report()
    }
}

} // verus!
