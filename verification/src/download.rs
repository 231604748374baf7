//! The throttle of model-download progress lines: one line per five
//! percent, at most one per two seconds.
use vstd::prelude::*;

verus! {

/// Progress of one download.
#[derive(Debug, Clone, Copy, PartialEq, Eq, Structural)]
pub struct DownloadProgress {
    /// Bytes to download.
    pub total: usize,
    /// Bytes downloaded so far.
    pub current: usize,
    /// Percentage reported by the last progress line (-1 before any).
    pub last_logged_pct: i32,
    /// Whether `init` has been called before.
    pub started: bool,
}

/// The whole-number percentage of `current` in `total` (0 for an empty
/// total).
pub open spec fn percent(current: int, total: int) -> i32 {
    if total > 0 {
        ((current * 100) / total) as i32
    } else {
        0
    }
}

impl DownloadProgress {
    /// A download not yet started.
    pub fn new() -> (r: DownloadProgress)
        ensures
            r == (DownloadProgress { total: 0, current: 0, last_logged_pct: 0, started: false }),
    {
        DownloadProgress { total: 0, current: 0, last_logged_pct: 0, started: false }
    }

    /// Start (or restart) the download of `size` bytes. Returns whether this
    /// is the first start, the only one that prints a header line.
    pub fn init(&mut self, size: usize) -> (first: bool)
        ensures
            first == !old(self).started,
            *final(self) == (DownloadProgress {
                total: size,
                current: 0,
                last_logged_pct: -1i32,
                started: true,
            }),
    {
        let first = !self.started;
        self.total = size;
        self.current = 0;
        self.last_logged_pct = -1;
        self.started = true;
        first
    }

    /// Record `size` more bytes, `since_last_log_ms` milliseconds after the
    /// last progress line. Returns the percentage to report when a line is
    /// due: the percentage has grown by five since the last line and at
    /// least two seconds have passed.
    pub fn update(&mut self, size: usize, since_last_log_ms: u64) -> (r: Option<i32>)
        requires
            old(self).current + size <= usize::MAX,
            (old(self).current + size) * 100 <= u64::MAX,
        ensures
            final(self).current == old(self).current + size,
            final(self).total == old(self).total,
            final(self).started == old(self).started,
            ({
                let pct = percent(final(self).current as int, old(self).total as int);
                let due = pct >= old(self).last_logged_pct + 5 && since_last_log_ms >= 2000;
                &&& r == (if due {
                    Some(pct)
                } else {
                    None
                })
                &&& final(self).last_logged_pct == (if due {
                    pct
                } else {
                    old(self).last_logged_pct
                })
            }),
    {
        self.current = self.current + size;
        let pct: i32 = if self.total > 0 {
            ((self.current as u64) * 100 / (self.total as u64)) as i32
        } else {
            0
        };
        let milestone = (pct as i64) >= (self.last_logged_pct as i64) + 5;
        if milestone && since_last_log_ms >= 2000 {
            self.last_logged_pct = pct;
            Some(pct)
        } else {
            None
        }
    }
}

} // verus!
