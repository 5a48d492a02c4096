//! The change watcher's value types and decision logic: mapping native
//! notification kinds to dirty or rescan events, and the exponential
//! backoff of the polling fallback. The threads that deliver events live
//! outside the library.

use vstd::prelude::*;

verus! {

/// Intervals for the watcher, in milliseconds: how often the native
/// subscription polls, and the starting and largest interval of the
/// polling fallback.
#[derive(Debug, Clone)]
pub struct WatcherConfig {
    pub notify_poll_interval: u64,
    pub fallback_initial: u64,
    pub fallback_max: u64,
}

impl Default for WatcherConfig {
    /// Two seconds of native polling; fallback from five seconds up to a
    /// minute.
    fn default() -> (r: Self)
        ensures
            r.notify_poll_interval == 2000,
            r.fallback_initial == 5000,
            r.fallback_max == 60000,
    {
        WatcherConfig { notify_poll_interval: 2000, fallback_initial: 5000, fallback_max: 60000 }
    }
}

/// What a watch event asks of the consumer.
#[derive(Debug, Clone)]
pub enum WatchEventKind {
    Dirty,
    Rescan,
    Error(String),
}

/// One change notification: the affected path, what to do about it, and
/// when it was made (seconds since the Unix epoch).
#[derive(Debug, Clone)]
pub struct WatchEvent {
    pub path: String,
    pub kind: WatchEventKind,
    pub timestamp: i64,
}

impl WatchEvent {
    /// A `Dirty` event for `path`, stamped now.
    pub fn dirty(path: String) -> (r: Self)
        ensures
            r.path == path,
            r.kind is Dirty,
    {
        WatchEvent { path, kind: WatchEventKind::Dirty, timestamp: crate::cache::now_timestamp() }
    }

    /// A `Rescan` event for `path`, stamped now.
    pub fn rescan(path: String) -> (r: Self)
        ensures
            r.path == path,
            r.kind is Rescan,
    {
        WatchEvent { path, kind: WatchEventKind::Rescan, timestamp: crate::cache::now_timestamp() }
    }

    /// An `Error` event for `path`, stamped now.
    pub fn error(path: String, message: String) -> (r: Self)
        ensures
            r.path == path,
            (match r.kind {
                WatchEventKind::Error(m) => m == message,
                _ => false,
            }),
    {
        WatchEvent {
            path,
            kind: WatchEventKind::Error(message),
            timestamp: crate::cache::now_timestamp(),
        }
    }
}

/// Why the watcher could not start.
#[derive(Debug)]
pub enum WatcherError {
    ThreadSpawn(String),
}

/// The shape of a native notification, as the delivering driver reports it.
#[derive(Debug, Clone, Copy, PartialEq, Eq, Structural)]
pub enum FsEventKind {
    Create,
    Modify,
    Remove,
    Access,
    Other,
    Any,
}

/// Map one native notification to a watch event: creations, modifications
/// and removals dirty the affected path; access notifications are
/// suppressed; anything generic asks for a rescan of the root.
pub fn map_event_kind(kind: FsEventKind, path: String, root: &str) -> (r: Option<WatchEvent>)
    ensures
        (match kind {
            FsEventKind::Create | FsEventKind::Modify | FsEventKind::Remove => match r {
                Some(ev) => ev.path == path && ev.kind is Dirty,
                None => false,
            },
            FsEventKind::Access => r is None,
            FsEventKind::Other | FsEventKind::Any => match r {
                Some(ev) => ev.path@ == root@ && ev.kind is Rescan,
                None => false,
            },
        }),
{
    match kind {
        FsEventKind::Remove => Some(WatchEvent::dirty(path)),
        FsEventKind::Create => Some(WatchEvent::dirty(path)),
        FsEventKind::Modify => Some(WatchEvent::dirty(path)),
        FsEventKind::Access => None,
        FsEventKind::Other => Some(WatchEvent::rescan(root.to_owned())),
        FsEventKind::Any => Some(WatchEvent::rescan(root.to_owned())),
    }
}

/// The next interval of the polling fallback: double the current one, but
/// never beyond `max`.
pub fn next_poll_interval(current: u64, max: u64) -> (r: u64)
    ensures
        ({
            let doubled = if 2 * current > u64::MAX {
                u64::MAX
            } else {
                (2 * current) as u64
            };
            r == (if doubled <= max {
                doubled
            } else {
                max
            })
        }),
{
    let doubled: u64 = if current > u64::MAX / 2 {
        u64::MAX
    } else {
        current * 2
    };
    if doubled <= max {
        doubled
    } else {
        max
    }
}

} // verus!
