//! The interactive view state: which records are shown, in what order, and
//! the session flags the key bindings mutate.
use vstd::prelude::*;

use crate::datasource::{build_cur, ds_elements, ds_wf, snv, DataSource, DsV};
use crate::filter::{passes_filter, regex_compiles, regex_matches, regex_valid};
use crate::snapshot::{ElemV, Element, SnapV, Snapshot};
use crate::sorting::{evs, sort_elements, stable_sorted};
use crate::strutil::{depth_at_most, depth_of, push_char, str_eq, trim_of, trim_str};

verus! {

/// The mathematical value of the view state.
#[verifier::ext_equal]
pub struct AppV {
    pub auto: bool,
    pub data: DsV,
    pub depth: Option<usize>,
    pub filter: Option<Seq<char>>,
    pub reverse: bool,
    pub should_quit: bool,
    pub sort_idx: Option<usize>,
}

/// The session's interactive state: the data source plus the display flags.
pub struct App {
    pub auto: bool,
    pub data: DataSource,
    /// Largest number of path components still displayed; `None` is no limit.
    pub depth: Option<usize>,
    /// A validated regular-expression pattern; only matching names are shown.
    pub filter: Option<String>,
    pub reverse: bool,
    pub should_quit: bool,
    /// 0-based index of the column to sort by, if any.
    pub sort_idx: Option<usize>,
}

impl View for App {
    type V = AppV;

    open spec fn view(&self) -> AppV {
        AppV {
            auto: self.auto,
            data: self.data@,
            depth: self.depth,
            filter: match self.filter {
                Some(ref p) => Some(p@),
                None => None,
            },
            reverse: self.reverse,
            should_quit: self.should_quit,
            sort_idx: self.sort_idx,
        }
    }
}

/// The data source is well-formed and a depth limit is at least one
/// component.
pub open spec fn app_wf(a: AppV) -> bool {
    &&& ds_wf(a.data)
    &&& (a.depth is Some ==> a.depth->0 >= 1)
}

/// A record passes the depth limit when its name has no more components.
pub open spec fn keep_depth(depth: Option<usize>, name: Seq<char>) -> bool {
    match depth {
        Some(d) => depth_of(name) <= d,
        None => true,
    }
}

/// With auto mode on, only records whose combined byte rate exceeds one byte
/// per second are shown: bytes over the interval, against nanoseconds, so
/// the comparison is exact.
pub open spec fn keep_auto(auto: bool, e: ElemV) -> bool {
    !auto || (e.d_nread + e.d_nwritten + e.d_nunlinked) * 1_000_000_000 > e.etime_ns
}

/// The three display filters, in their fixed order: depth, name, activity.
pub open spec fn keep_elem(a: AppV, e: ElemV) -> bool {
    &&& keep_depth(a.depth, e.name)
    &&& passes_filter(a.filter, e.name)
    &&& keep_auto(a.auto, e)
}

/// What the view shows: the derived records filtered by depth, name and
/// activity, then stably sorted by the chosen column, or left in name order
/// when no column is chosen.
pub open spec fn app_elements(a: AppV, uptime_ns: int) -> Seq<ElemV> {
    let kept = ds_elements(a.data, uptime_ns).filter(|e: ElemV| keep_elem(a, e));
    match a.sort_idx {
        Some(idx) => if idx <= 6 {
            stable_sorted(kept, idx as int, a.reverse)
        } else {
            kept
        },
        None => kept,
    }
}

/// Two derivations from the same state and the same uptime are identical:
/// deriving the display records mutates nothing.
pub proof fn lemma_elements_deterministic(a: AppV, uptime_ns: int, r1: Seq<ElemV>, r2: Seq<ElemV>)
    requires
        r1 == app_elements(a, uptime_ns),
        r2 == app_elements(a, uptime_ns),
    ensures
        r1 == r2,
{
}

impl App {
    /// A fresh session.  The data source holds no generation yet; the first
    /// tick fills it.  A filter pattern handed in here must already have
    /// been validated.
    pub fn new(
        auto: bool,
        children: bool,
        pools: Vec<String>,
        depth: Option<usize>,
        filter: Option<String>,
        reverse: bool,
        sort_idx: Option<usize>,
    ) -> (r: Self)
        requires
            depth is Some ==> depth->0 >= 1,
            filter is Some ==> regex_valid(filter->0@),
        ensures
            r@.auto == auto,
            r@.data.children == children,
            r@.data.pools == pools@.map_values(|x: String| x@),
            r@.data.cur =~= Seq::<SnapV>::empty(),
            r@.data.prev =~= Seq::<SnapV>::empty(),
            r@.data.cur_ts is None,
            r@.data.prev_ts is None,
            r@.depth == depth,
            r@.filter == (match filter {
                Some(p) => Some(p@),
                None => None,
            }),
            r@.reverse == reverse,
            r@.should_quit == false,
            r@.sort_idx == sort_idx,
            app_wf(r@),
    {
        App {
            auto,
            data: DataSource::new(children, pools),
            depth,
            filter,
            reverse,
            should_quit: false,
            sort_idx,
        }
    }

    /// A fresh session whose filter pattern is validated here: hands back
    /// `None`, building nothing, when the pattern does not compile.
    pub fn try_new(
        auto: bool,
        children: bool,
        pools: Vec<String>,
        depth: Option<usize>,
        filter: Option<String>,
        reverse: bool,
        sort_idx: Option<usize>,
    ) -> (r: Option<Self>)
        requires
            depth is Some ==> depth->0 >= 1,
        ensures
            r is Some <==> (filter is Some ==> regex_valid(filter->0@)),
            r is Some ==> r->0@.auto == auto && r->0@.data.children == children
                && r->0@.data.pools == pools@.map_values(|x: String| x@) && r->0@.depth == depth
                && r->0@.filter == (match filter {
                Some(p) => Some(p@),
                None => None,
            }) && r->0@.reverse == reverse && r->0@.should_quit == false && r->0@.sort_idx
                == sort_idx && app_wf(r->0@),
    {
        let ok = match filter {
            Some(ref p) => regex_compiles(p.as_str()),
            None => true,
        };
        if ok {
            Some(Self::new(auto, children, pools, depth, filter, reverse, sort_idx))
        } else {
            None
        }
    }

    /// Drops the active name filter.
    pub fn clear_filter(&mut self)
        ensures
            final(self)@ == (AppV { filter: None, ..old(self)@ }),
    {
        self.filter = None;
    }

    /// The records to display, in order: filtered by depth, name pattern and
    /// activity, then sorted by the chosen column.  `uptime_ns` is how long
    /// the system has been up; it is consulted only before a previous
    /// generation exists, when rates are reported since boot.
    pub fn elements(&self, uptime_ns: u64) -> (r: Vec<Element>)
        requires
            app_wf(self@),
            self@.data.prev_ts is None ==> uptime_ns > 0,
        ensures
            evs(r@) == app_elements(self@, uptime_ns as int),
    {
        let all = self.data.elements(uptime_ns);
        let ghost target_all = ds_elements(self@.data, uptime_ns as int);
        let ghost keepfn = |e: ElemV| keep_elem(self@, e);
        let mut kept: Vec<Element> = Vec::new();
        let mut i: usize = 0;
        proof {
            reveal(Seq::filter);
            assert(target_all.take(0) =~= Seq::<ElemV>::empty());
            assert(evs(kept@) =~= Seq::<ElemV>::empty());
            assert(target_all.take(0).filter(keepfn) == Seq::<ElemV>::empty());
        }
        while i < all.len()
            invariant
                0 <= i <= all@.len(),
                evs(all@) == target_all,
                keepfn == (|e: ElemV| keep_elem(self@, e)),
                app_wf(self@),
                evs(kept@) == target_all.take(i as int).filter(keepfn),
            decreases all@.len() - i,
        {
            let e = &all[i];
            assert(e@ == target_all[i as int]);
            let dpass = match self.depth {
                Some(d) => depth_at_most(e.name.as_str(), d),
                None => true,
            };
            assert(dpass == keep_depth(self@.depth, e@.name));
            let fpass = match self.filter {
                Some(ref p) => regex_matches(p.as_str(), e.name.as_str()),
                None => true,
            };
            assert(fpass == passes_filter(self@.filter, e@.name));
            let apass = if self.auto {
                let sum: u128 = e.d_nread as u128 + e.d_nwritten as u128 + e.d_nunlinked as u128;
                sum * 1_000_000_000u128 > e.etime_ns as u128
            } else {
                true
            };
            assert(apass == keep_auto(self@.auto, e@));
            let ghost pre = evs(kept@);
            if dpass && fpass && apass {
                kept.push(e.duplicate());
                proof {
                    assert(evs(kept@) =~= pre.push(e@));
                }
            }
            proof {
                reveal(Seq::filter);
                assert(target_all.take(i + 1).drop_last() =~= target_all.take(i as int));
                assert(target_all.take(i + 1).last() == target_all[i as int]);
            }
            i = i + 1;
        }
        proof {
            assert(target_all.take(all@.len() as int) =~= target_all);
        }
        match self.sort_idx {
            Some(idx) => {
                if idx <= 6 {
                    sort_elements(kept, idx, self.reverse)
                } else {
                    kept
                }
            }
            None => kept,
        }
    }

    /// Toggles hiding of near-idle datasets.
    pub fn on_a(&mut self)
        ensures
            final(self)@ == (AppV { auto: !old(self)@.auto, ..old(self)@ }),
    {
        self.auto = !self.auto;
    }

    /// Toggles children-aggregation, rebuilding the current generation from
    /// the freshly collected snapshots and discarding the previous one.
    pub fn on_c(&mut self, now: u64, snaps: &Vec<Snapshot>)
        requires
            app_wf(old(self)@),
            old(self)@.data.cur_ts is Some ==> now > old(self)@.data.cur_ts->0,
        ensures
            final(self)@.auto == old(self)@.auto,
            final(self)@.depth == old(self)@.depth,
            final(self)@.filter == old(self)@.filter,
            final(self)@.reverse == old(self)@.reverse,
            final(self)@.should_quit == old(self)@.should_quit,
            final(self)@.sort_idx == old(self)@.sort_idx,
            final(self)@.data.children == !old(self)@.data.children,
            final(self)@.data.pools == old(self)@.data.pools,
            final(self)@.data.prev =~= Seq::<SnapV>::empty(),
            final(self)@.data.prev_ts is None,
            final(self)@.data.cur_ts == Some(now),
            final(self)@.data.cur == build_cur(snv(snaps@), !old(self)@.data.children),
            app_wf(final(self)@),
    {
        self.data.toggle_children(now, snaps);
    }

    /// Deepens or shallows the depth limit by one component.  Shallowing
    /// below one clears the limit; deepening from no limit starts at one.
    pub fn on_d(&mut self, more_depth: bool)
        requires
            app_wf(old(self)@),
        ensures
            final(self)@ == (AppV {
                depth: (if more_depth {
                    match old(self)@.depth {
                        None => Some(1usize),
                        Some(x) => Some((if x < usize::MAX {
                            (x + 1) as usize
                        } else {
                            x
                        }) as usize),
                    }
                } else {
                    match old(self)@.depth {
                        None => None,
                        Some(x) => (if x <= 1 {
                            None
                        } else {
                            Some((x - 1) as usize)
                        }),
                    }
                }),
                ..old(self)@
            }),
            app_wf(final(self)@),
    {
        self.depth = if more_depth {
            match self.depth {
                None => Some(1),
                Some(x) => Some(if x < usize::MAX {
                    x + 1
                } else {
                    x
                }),
            }
        } else {
            match self.depth {
                None => None,
                Some(x) => if x <= 1 {
                    None
                } else {
                    Some(x - 1)
                },
            }
        };
    }

    /// Cycles the sort column backward through the seven columns and the
    /// unsorted state.
    pub fn on_minus(&mut self)
        ensures
            final(self)@ == (AppV {
                sort_idx: (match old(self)@.sort_idx {
                    Some(old_idx) => (if old_idx == 0 {
                        None
                    } else {
                        Some((old_idx - 1) as usize)
                    }),
                    None => Some(6usize),
                }),
                ..old(self)@
            }),
    {
        self.sort_idx = match self.sort_idx {
            Some(old_idx) => if old_idx == 0 {
                None
            } else {
                Some(old_idx - 1)
            },
            None => Some(6),
        };
    }

    /// Cycles the sort column forward through the seven columns and the
    /// unsorted state.
    pub fn on_plus(&mut self)
        ensures
            final(self)@ == (AppV {
                sort_idx: (match old(self)@.sort_idx {
                    Some(old_idx) => (if old_idx >= 6 {
                        None
                    } else {
                        Some((old_idx + 1) as usize)
                    }),
                    None => Some(0usize),
                }),
                ..old(self)@
            }),
    {
        self.sort_idx = match self.sort_idx {
            Some(old_idx) => if old_idx >= 6 {
                None
            } else {
                Some(old_idx + 1)
            },
            None => Some(0),
        };
    }

    /// Requests the session's end; no further state mutation follows.
    pub fn on_q(&mut self)
        ensures
            final(self)@ == (AppV { should_quit: true, ..old(self)@ }),
    {
        self.should_quit = true;
    }

    /// Toggles the sort direction.
    pub fn on_r(&mut self)
        ensures
            final(self)@ == (AppV { reverse: !old(self)@.reverse, ..old(self)@ }),
    {
        self.reverse = !self.reverse;
    }

    /// Begins a new generation from the freshly collected snapshots, read at
    /// monotonic time `now`.
    pub fn on_tick(&mut self, now: u64, snaps: &Vec<Snapshot>)
        requires
            app_wf(old(self)@),
            old(self)@.data.cur_ts is Some ==> now > old(self)@.data.cur_ts->0,
        ensures
            final(self)@.auto == old(self)@.auto,
            final(self)@.depth == old(self)@.depth,
            final(self)@.filter == old(self)@.filter,
            final(self)@.reverse == old(self)@.reverse,
            final(self)@.should_quit == old(self)@.should_quit,
            final(self)@.sort_idx == old(self)@.sort_idx,
            final(self)@.data.children == old(self)@.data.children,
            final(self)@.data.pools == old(self)@.data.pools,
            final(self)@.data.prev == old(self)@.data.cur,
            final(self)@.data.prev_ts == old(self)@.data.cur_ts,
            final(self)@.data.cur_ts == Some(now),
            final(self)@.data.cur == build_cur(snv(snaps@), old(self)@.data.children),
            app_wf(final(self)@),
    {
        self.data.refresh(now, snaps);
    }

    /// Installs a name filter whose pattern the caller has already
    /// validated.
    pub fn set_filter(&mut self, filter: String)
        requires
            regex_valid(filter@),
        ensures
            final(self)@ == (AppV { filter: Some(filter@), ..old(self)@ }),
    {
        self.filter = Some(filter);
    }

    /// Validates a pattern and installs it only if it compiles; an invalid
    /// pattern leaves the state untouched.
    pub fn try_set_filter(&mut self, filter: String) -> (ok: bool)
        ensures
            ok == regex_valid(filter@),
            ok ==> final(self)@ == (AppV { filter: Some(filter@), ..old(self)@ }),
            !ok ==> final(self)@ == old(self)@,
    {
        if regex_compiles(filter.as_str()) {
            self.set_filter(filter);
            true
        } else {
            false
        }
    }

    /// Whether the quit key was pressed.
    pub fn should_quit(&self) -> (r: bool)
        ensures
            r == self@.should_quit,
    {
        self.should_quit
    }

    /// The 0-based index of the active sort column, if any.
    pub fn sort_idx(&self) -> (r: Option<usize>)
        ensures
            r == self@.sort_idx,
    {
        self.sort_idx
    }
}

/// The sort column named by a column header, after trimming whitespace.
pub open spec fn col_idx_spec(s: Seq<char>) -> Option<usize> {
    let t = trim_of(s);
    if t == "r/s"@ {
        Some(0usize)
    } else if t == "kB/s r"@ {
        Some(1usize)
    } else if t == "w/s"@ {
        Some(2usize)
    } else if t == "kB/s w"@ {
        Some(3usize)
    } else if t == "d/s"@ {
        Some(4usize)
    } else if t == "kB/s d"@ {
        Some(5usize)
    } else if t == "Dataset"@ {
        Some(6usize)
    } else {
        None
    }
}

/// Maps a column header to its 0-based display index.
pub fn col_idx(col_name: &String) -> (r: Option<usize>)
    ensures
        r == col_idx_spec(col_name@),
{
    let t = trim_str(col_name.as_str());
    if str_eq(t.as_str(), "r/s") {
        Some(0)
    } else if str_eq(t.as_str(), "kB/s r") {
        Some(1)
    } else if str_eq(t.as_str(), "w/s") {
        Some(2)
    } else if str_eq(t.as_str(), "kB/s w") {
        Some(3)
    } else if str_eq(t.as_str(), "d/s") {
        Some(4)
    } else if str_eq(t.as_str(), "kB/s d") {
        Some(5)
    } else if str_eq(t.as_str(), "Dataset") {
        Some(6)
    } else {
        None
    }
}

} // verus!
// ---------------------------------------------------------------------------
// The filter-edit popup
// ---------------------------------------------------------------------------
verus! {

/// The filter pattern being edited interactively, one keystroke at a time.
pub struct FilterPopup {
    pub new_regex: String,
}

impl View for FilterPopup {
    type V = Seq<char>;

    open spec fn view(&self) -> Seq<char> {
        self.new_regex@
    }
}

impl FilterPopup {
    /// An empty pattern under edit.
    pub fn new() -> (r: Self)
        ensures
            r@ == Seq::<char>::empty(),
    {
        FilterPopup { new_regex: String::new() }
    }

    /// Commits the edited pattern: hands it back if it compiles, and leaves
    /// the edit as it stands - to be corrected or cancelled - if it does
    /// not.
    pub fn on_enter(&self) -> (r: Option<String>)
        ensures
            r is Some <==> regex_valid(self@),
            r matches Some(p) ==> p@ == self@,
    {
        if regex_compiles(self.new_regex.as_str()) {
            Some(self.new_regex.clone())
        } else {
            None
        }
    }

    /// Removes the last character of the pattern under edit, if any.
    pub fn on_backspace(&mut self)
        ensures
            old(self)@.len() > 0 ==> final(self)@ == old(self)@.drop_last(),
            old(self)@.len() == 0 ==> final(self)@ == old(self)@,
    {
        let n = self.new_regex.as_str().unicode_len();
        if n > 0 {
            let t = self.new_regex.as_str().substring_char(0, n - 1).to_owned();
            proof {
                assert(t@ =~= self.new_regex@.drop_last());
            }
            self.new_regex = t;
        }
    }

    /// Appends one typed character to the pattern under edit.
    pub fn on_char(&mut self, c: char)
        ensures
            final(self)@ == old(self)@.push(c),
    {
        push_char(&mut self.new_regex, c);
    }

    /// The pattern as edited so far, for display.
    pub fn text(&self) -> (r: &str)
        ensures
            r@ == self@,
    {
        self.new_regex.as_str()
    }
}

} // verus!
