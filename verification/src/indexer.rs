//! The decisions of the index loader: what a cached snapshot's status
//! tells the UI and whether a rebuild follows, and how the indexer's
//! progress lines read. Running Guix and reading files happen outside.

use std::sync::Arc;

use vstd::prelude::*;

use crate::cache::{status_view, CacheStatus, StatusView};
use crate::index::{Index, IndexView};
use crate::text::{decimal_u64, parse_decimal_u64, split_words, string_from_chars, words};

verus! {

/// What the loader reports to the UI.
pub enum IndexEvent {
    /// A `PROGRESS <done> <total>` line of the indexer.
    Progress { done: u64, total: u64 },
    /// A valid index is available, from the cache or a finished build.
    Ready { index: Arc<Index>, fresh: bool, unkeyed: bool },
    /// Loading or building failed; the message is safe to show.
    Failed { msg: String },
}

pub ghost enum EventView {
    Progress(u64, u64),
    Ready(IndexView, bool, bool),
    Failed(Seq<char>),
}

pub open spec fn event_view(e: IndexEvent) -> EventView {
    match e {
        IndexEvent::Progress { done, total } => EventView::Progress(done, total),
        IndexEvent::Ready { index, fresh, unkeyed } => EventView::Ready((*index)@, fresh, unkeyed),
        IndexEvent::Failed { msg } => EventView::Failed(msg@),
    }
}

pub open spec fn stale_prefix() -> Seq<char> {
    seq!['c', 'a', 'c', 'h', 'e', ' ', 's', 't', 'a', 'l', 'e', ' ', '(']
}

pub open spec fn unreadable_prefix() -> Seq<char> {
    seq!['c', 'a', 'c', 'h', 'e', ' ', 'u', 'n', 'r', 'e', 'a', 'd', 'a', 'b', 'l', 'e', ' ', '(']
}

pub open spec fn rebuilding_suffix() -> Seq<char> {
    seq![')', ';', ' ', 'r', 'e', 'b', 'u', 'i', 'l', 'd', 'i', 'n', 'g']
}

/// What the loader does after reading the cache.
pub ghost struct CacheStep {
    pub event: EventView,
    /// Loading is over; no rebuild follows.
    pub done: bool,
    /// The unreadable snapshot is moved out of the way.
    pub quarantine: bool,
}

/// A fresh snapshot is ready as it is; an unverified one is ready but
/// marked unkeyed; a stale or missing one, or an unreadable one (which is
/// also quarantined), makes the loader rebuild, after saying so.
pub open spec fn cache_step(status: Result<StatusView, Seq<char>>) -> CacheStep {
    match status {
        Ok(StatusView::Fresh(i)) => CacheStep { event: EventView::Ready(i, true, false), done: true, quarantine: false },
        Ok(StatusView::Unverified(i)) => CacheStep { event: EventView::Ready(i, false, true), done: true, quarantine: false },
        Ok(StatusView::Stale(reason)) => CacheStep {
            event: EventView::Failed(stale_prefix() + reason + rebuilding_suffix()),
            done: false,
            quarantine: false,
        },
        Ok(StatusView::Absent) => CacheStep { event: EventView::Progress(0, 0), done: false, quarantine: false },
        Err(msg) => CacheStep {
            event: EventView::Failed(unreadable_prefix() + msg + rebuilding_suffix()),
            done: false,
            quarantine: true,
        },
    }
}

fn concat3(a: &[char], b: &str, c: &[char]) -> (r: String)
    ensures
        r@ == a@ + b@ + c@,
{
    let mut all: Vec<char> = Vec::new();
    let bs = crate::text::chars_of(b);
    let mut i: usize = 0;
    while i < a.len()
        invariant
            i <= a@.len(),
            all@ == a@.take(i as int),
        decreases a@.len() - i,
    {
        all.push(a[i]);
        assert(a@.take(i + 1) =~= a@.take(i as int).push(a@[i as int]));
        i += 1;
    }
    assert(a@.take(a@.len() as int) =~= a@);
    let mut j: usize = 0;
    while j < bs.len()
        invariant
            j <= bs@.len(),
            all@ == a@ + bs@.take(j as int),
        decreases bs@.len() - j,
    {
        all.push(bs[j]);
        assert(bs@.take(j + 1) =~= bs@.take(j as int).push(bs@[j as int]));
        j += 1;
    }
    assert(bs@.take(bs@.len() as int) =~= bs@);
    let mut k: usize = 0;
    while k < c.len()
        invariant
            k <= c@.len(),
            all@ == a@ + bs@ + c@.take(k as int),
        decreases c@.len() - k,
    {
        all.push(c[k]);
        assert(c@.take(k + 1) =~= c@.take(k as int).push(c@[k as int]));
        k += 1;
    }
    assert(c@.take(c@.len() as int) =~= c@);
    string_from_chars(all.as_slice())
}

/// The loader's step after reading the cache, given the snapshot's status
/// or the text of the error that made it unreadable. Returns the event to
/// report, whether loading is over, and whether to quarantine the file.
pub fn after_cache(status: Result<CacheStatus, String>) -> (r: (IndexEvent, bool, bool))
    ensures
        cache_step(
            match status {
                Ok(s) => Ok(status_view(s)),
                Err(m) => Err(m@),
            },
        ) == (CacheStep { event: event_view(r.0), done: r.1, quarantine: r.2 }),
{
    let suffix = [')', ';', ' ', 'r', 'e', 'b', 'u', 'i', 'l', 'd', 'i', 'n', 'g'];
    assert(suffix@ =~= rebuilding_suffix());
    match status {
        Ok(CacheStatus::Fresh(index)) => (IndexEvent::Ready { index: Arc::new(index), fresh: true, unkeyed: false }, true, false),
        Ok(CacheStatus::Unverified(index)) => (IndexEvent::Ready { index: Arc::new(index), fresh: false, unkeyed: true }, true, false),
        Ok(CacheStatus::Stale { reason }) => {
            let prefix = ['c', 'a', 'c', 'h', 'e', ' ', 's', 't', 'a', 'l', 'e', ' ', '('];
            assert(prefix@ =~= stale_prefix());
            let msg = concat3(&prefix, reason.as_str(), &suffix);
            (IndexEvent::Failed { msg }, false, false)
        },
        Ok(CacheStatus::Absent) => (IndexEvent::Progress { done: 0, total: 0 }, false, false),
        Err(e) => {
            let prefix = ['c', 'a', 'c', 'h', 'e', ' ', 'u', 'n', 'r', 'e', 'a', 'd', 'a', 'b', 'l', 'e', ' ', '('];
            assert(prefix@ =~= unreadable_prefix());
            let msg = concat3(&prefix, e.as_str(), &suffix);
            (IndexEvent::Failed { msg }, false, true)
        },
    }
}

pub open spec fn progress_tag() -> Seq<char> {
    seq!['P', 'R', 'O', 'G', 'R', 'E', 'S', 'S', ' ']
}

/// A progress line: `PROGRESS ` and then at least two words, the first two
/// of them decimal counts (done, total).
pub open spec fn progress_of(line: Seq<char>) -> Option<(u64, u64)> {
    if line.len() >= 9 && line.take(9) == progress_tag() {
        let ws = words(line.skip(9));
        if ws.len() >= 2 {
            match (decimal_u64(ws[0]), decimal_u64(ws[1])) {
                (Some(d), Some(t)) => Some((d, t)),
                _ => None,
            }
        } else {
            None
        }
    } else {
        None
    }
}

/// Read a progress line of the indexer's error stream.
pub fn progress_line(line: &str) -> (r: Option<(u64, u64)>)
    ensures
        r == progress_of(line@),
{
    let cs = crate::text::chars_of(line);
    let tag = ['P', 'R', 'O', 'G', 'R', 'E', 'S', 'S', ' '];
    assert(tag@ =~= progress_tag());
    if cs.len() < 9 {
        return None;
    }
    let mut i: usize = 0;
    while i < 9
        invariant
            cs@ == line@,
            cs@.len() >= 9,
            tag@ == progress_tag(),
            i <= 9,
            forall|q: int| 0 <= q < i ==> cs@[q] == tag@[q],
        decreases 9 - i,
    {
        if cs[i] != tag[i] {
            assert(cs@.take(9)[i as int] != progress_tag()[i as int]);
            return None;
        }
        i += 1;
    }
    assert(cs@.take(9) =~= progress_tag());
    let mut rest: Vec<char> = Vec::new();
    let mut k: usize = 9;
    while k < cs.len()
        invariant
            9 <= k <= cs@.len(),
            rest@ == cs@.subrange(9, k as int),
        decreases cs@.len() - k,
    {
        rest.push(cs[k]);
        assert(cs@.subrange(9, k + 1) =~= cs@.subrange(9, k as int).push(cs@[k as int]));
        k += 1;
    }
    assert(rest@ =~= line@.skip(9));
    let text = string_from_chars(rest.as_slice());
    let ws = split_words(text.as_str());
    if ws.len() < 2 {
        return None;
    }
    assert(ws@[0]@ == words(line@.skip(9))[0]);
    assert(ws@[1]@ == words(line@.skip(9))[1]);
    match (parse_decimal_u64(ws[0].as_str()), parse_decimal_u64(ws[1].as_str())) {
        (Some(d), Some(t)) => Some((d, t)),
        _ => None,
    }
}

} // verus!
