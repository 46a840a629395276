//! The table of the programs that are linked into the kernel image, and
//! which of them is next.

use vstd::prelude::*;

verus! {

/// Most programs that the table holds.
pub const MAX_APP_NUM: usize = 16;

/// Where a program is copied to before it runs.
pub const APP_BASE_ADDRESS: usize = 0x80400000;

/// Most bytes of a program.
pub const APP_SIZE_LIMIT: usize = 0x20000;

/// The programs of the image: their number, the index of the one that is
/// next, and where each starts; entry `i + 1` is where program `i` ends.
pub struct AppManager {
    num_app: usize,
    current_app: usize,
    app_start: Vec<usize>,
}

/// Where a program lies in the kernel image.
#[derive(Copy, Clone, Debug, PartialEq, Eq, Structural)]
pub struct AppInfo {
    pub index: usize,
    pub start: usize,
    pub end: usize,
}

/// A table of `num_app` programs has a start for every program and the end
/// of the last one, in ascending order.
pub open spec fn table_wf(num_app: usize, app_start: Seq<usize>) -> bool {
    &&& num_app <= MAX_APP_NUM
    &&& app_start.len() == num_app + 1
    &&& forall|i: int| 0 <= i < num_app ==> (#[trigger] app_start[i]) <= app_start[i + 1]
}

impl AppManager {
    pub closed spec fn spec_num_app(&self) -> usize {
        self.num_app
    }

    pub closed spec fn spec_current_app(&self) -> usize {
        self.current_app
    }

    pub closed spec fn spec_app_start(&self) -> Seq<usize> {
        self.app_start@
    }

    /// The table is one of `table_wf`.
    pub open spec fn wf(&self) -> bool {
        table_wf(self.spec_num_app(), self.spec_app_start())
    }

    /// The table of `num_app` programs that start at `app_start`, or `None`
    /// where the starts are too many, too few or not in ascending order.
    pub fn new(num_app: usize, app_start: Vec<usize>) -> (r: Option<Self>)
        ensures
            match r {
                Some(m) => m.wf() && m.spec_num_app() == num_app && m.spec_current_app() == 0 && m.spec_app_start()
                    == app_start@,
                None => !table_wf(num_app, app_start@),
            },
    {
        if num_app > MAX_APP_NUM || app_start.len() != num_app + 1 {
            return None;
        }
        let mut i: usize = 0;
        while i < num_app
            invariant
                i <= num_app,
                app_start@.len() == num_app + 1,
                forall|j: int| 0 <= j < i ==> (#[trigger] app_start@[j]) <= app_start@[j + 1],
            decreases num_app - i,
        {
            if app_start[i] > app_start[i + 1] {
                return None;
            }
            i = i + 1;
        }
        Some(AppManager { num_app, current_app: 0, app_start })
    }

    /// The index of the program that is next.
    pub fn get_current_app(&self) -> (r: usize)
        ensures
            r == self.spec_current_app(),
    {
        self.current_app
    }

    /// Makes the following program the next one.
    pub fn move_to_next_app(&mut self)
        requires
            old(self).spec_current_app() < usize::MAX,
        ensures
            final(self).spec_current_app() == old(self).spec_current_app() + 1,
            final(self).spec_num_app() == old(self).spec_num_app(),
            final(self).spec_app_start() == old(self).spec_app_start(),
    {
        self.current_app = self.current_app + 1;
    }

    /// Where each program lies, for the caller to print.
    pub fn print_app_info(&self) -> (r: Vec<AppInfo>)
        requires
            self.wf(),
        ensures
            r@.len() == self.spec_num_app(),
            forall|i: int|
                0 <= i < r@.len() ==> #[trigger] r@[i] == (AppInfo {
                    index: i as usize,
                    start: self.spec_app_start()[i],
                    end: self.spec_app_start()[i + 1],
                }),
    {
        let mut r: Vec<AppInfo> = Vec::new();
        let mut i: usize = 0;
        while i < self.num_app
            invariant
                i <= self.num_app,
                self.wf(),
                r@.len() == i,
                forall|j: int|
                    0 <= j < i ==> #[trigger] r@[j] == (AppInfo {
                        index: j as usize,
                        start: self.spec_app_start()[j],
                        end: self.spec_app_start()[j + 1],
                    }),
            decreases self.num_app - i,
        {
            r.push(AppInfo { index: i, start: self.app_start[i], end: self.app_start[i + 1] });
            i = i + 1;
        }
        r
    }

    /// What loading program `app_id` takes: `None` where every program has
    /// run, else where the program lies and how long it is.
    pub fn load_app(&self, app_id: usize) -> (r: Option<AppInfo>)
        requires
            self.wf(),
        ensures
            r == if app_id >= self.spec_num_app() {
                None
            } else {
                Some(
                    AppInfo {
                        index: app_id,
                        start: self.spec_app_start()[app_id as int],
                        end: self.spec_app_start()[app_id + 1],
                    },
                )
            },
    {
        if app_id >= self.num_app {
            None
        } else {
            Some(AppInfo { index: app_id, start: self.app_start[app_id], end: self.app_start[app_id + 1] })
        }
    }
}

} // verus!
