//! The incremental tail watcher.  Per watched path the state is one
//! last-known byte length plus a session sequence counter; each change
//! notification compares the fresh file size against the last-known one
//! and turns the newly read bytes into ordered events.
use vstd::prelude::*;

use crate::rows::{rows_of, Row, RowModel};

verus! {

/// Mathematical model of one event sent to a tailing client.
pub ghost enum RowResponseModel {
    Located { path: Seq<char>, row: RowModel, order: u64 },
    Restart { path: Seq<char> },
}

/// One event sent to a tailing client: a decoded record tagged with its
/// session sequence number, or a restart signal after a truncation.
pub enum RowResponse {
    Located { path: String, row: Row, order: u64 },
    Restart { path: String },
}

impl View for RowResponse {
    type V = RowResponseModel;

    open spec fn view(&self) -> RowResponseModel {
        match self {
            RowResponse::Located { path, row, order } => RowResponseModel::Located {
                path: path@,
                row: row@,
                order: *order,
            },
            RowResponse::Restart { path } => RowResponseModel::Restart { path: path@ },
        }
    }
}

impl DeepView for RowResponse {
    type V = RowResponseModel;

    open spec fn deep_view(&self) -> RowResponseModel {
        self.view()
    }
}

impl Row {
    /// Wraps the record as a located event at sequence number zero.
    pub fn locate(self, path: String) -> (r: RowResponse)
        ensures
            r@ == (RowResponseModel::Located { path: path@, row: self@, order: 0u64 }),
    {
        RowResponse::Located { path, row: self, order: 0 }
    }
}

impl RowResponse {
    /// Replaces the sequence number of a located event; a restart signal
    /// is unchanged.
    pub fn order(self, order: u64) -> (r: Self)
        ensures
            r@ == (match self@ {
                RowResponseModel::Located { path, row, order: _ } => RowResponseModel::Located {
                    path,
                    row,
                    order,
                },
                RowResponseModel::Restart { path } => RowResponseModel::Restart { path },
            }),
    {
        match self {
            RowResponse::Located { path, row, order: _ } => RowResponse::Located {
                path,
                row,
                order,
            },
            RowResponse::Restart { path } => RowResponse::Restart { path },
        }
    }
}

/// The located events for `rows`, in order, numbered consecutively
/// upward from `start`.
pub open spec fn located_events(path: Seq<char>, rows: Seq<RowModel>, start: u64) -> Seq<
    RowResponseModel,
>
    recommends
        start + rows.len() <= u64::MAX,
{
    Seq::new(
        rows.len(),
        |i: int| RowResponseModel::Located { path, row: rows[i], order: (start + i) as u64 },
    )
}

/// Ephemeral per-tail state: the last-known byte length of the watched
/// file and the session sequence counter.
pub struct WatchState {
    pub filesize: u64,
    pub count: u64,
}

impl WatchState {
    /// A fresh tail session: nothing read yet, sequence starts at zero.
    pub fn new() -> (r: Self)
        ensures
            r.filesize == 0,
            r.count == 0,
    {
        WatchState { filesize: 0, count: 0 }
    }

    /// A tail session opened against a file that already has `size`
    /// bytes: nothing before the session is replayed, and the sequence
    /// counts the session's own events from zero.
    pub fn start_at(size: u64) -> (r: Self)
        ensures
            r.filesize == size,
            r.count == 0,
    {
        WatchState { filesize: size, count: 0 }
    }

    /// Where the caller must read from for a file that now has
    /// `new_size` bytes: nowhere when the size is unchanged, the old end
    /// of file on growth, and the start of the file after a truncation.
    pub fn seek_pos(&self, new_size: u64) -> (r: Option<u64>)
        ensures
            new_size == self.filesize ==> r is None,
            new_size > self.filesize ==> r == Some(self.filesize),
            new_size < self.filesize ==> r == Some(0u64),
    {
        if new_size == self.filesize {
            None
        } else if new_size > self.filesize {
            Some(self.filesize)
        } else {
            Some(0)
        }
    }

    /// Turns one change notification into events.  `new_size` is the
    /// file's fresh byte length and `new_bytes` what was read from the
    /// position `seek_pos` gave: the appended suffix on growth, the whole
    /// file after a truncation.  An unchanged size is a no-op; growth
    /// yields one located event per well-formed new line, numbered
    /// consecutively from the session counter; a truncation yields one
    /// restart signal first and then the file's records numbered from
    /// zero.  Malformed lines are skipped and never numbered.
    pub fn parse_event(&mut self, path: &String, new_size: u64, new_bytes: &[u8]) -> (events: Vec<
        RowResponse,
    >)
        requires
            old(self).count + new_bytes@.len() + 1 <= u64::MAX,
        ensures
            new_size == old(self).filesize ==> events@.len() == 0 && *final (self) == *old(self),
            new_size > old(self).filesize ==> events.deep_view() == located_events(
                path@,
                rows_of(new_bytes@),
                old(self).count,
            ) && final (self).filesize == new_size && final (self).count == old(self).count + rows_of(
                new_bytes@,
            ).len(),
            new_size < old(self).filesize ==> events.deep_view() == seq![
                RowResponseModel::Restart { path: path@ },
            ] + located_events(path@, rows_of(new_bytes@), 0) && final (self).filesize == new_size
                && final (self).count == rows_of(new_bytes@).len(),
    {
        let mut events: Vec<RowResponse> = Vec::new();
        if new_size == self.filesize {
            return events;
        }
        let ghost restarted = new_size < self.filesize;
        if new_size < self.filesize {
            self.count = 0;
            events.push(RowResponse::Restart { path: path.clone() });
        }
        let ghost start = self.count;
        let ghost rows_model = rows_of(new_bytes@);
        let ghost prefix = events.deep_view();
        proof {
            crate::rows::lemma_rows_of_lines_len(crate::decode::split_on(new_bytes@, 10));
            crate::decode::lemma_split_on_len(new_bytes@, 10);
        }
        let mut rows = crate::rows::parse_rows(new_bytes);
        let total_now = rows.len();
        let ghost total = total_now as int;
        let mut k: usize = 0;
        while rows.len() > 0
            invariant
                k + rows@.len() == total,
                total <= usize::MAX,
                rows.deep_view() =~= rows_model.skip(k as int),
                rows_model.len() == total,
                start + total <= u64::MAX,
                self.count == start + k,
                self.filesize == old(self).filesize,
                events.deep_view() =~= prefix + located_events(path@, rows_model.take(k as int), start),
            decreases rows@.len(),
        {
            let ghost rv = rows.deep_view();
            let row = rows.remove(0);
            proof {
                assert(row@ == rv[0]);
                assert(rows.deep_view() =~~= rv.skip(1));
                assert(rv.skip(1) =~= rows_model.skip(k + 1));
                assert(row@ == rows_model[k as int]);
                assert(rows_model.take(k + 1) =~= rows_model.take(k as int).push(
                    rows_model[k as int],
                ));
            }
            let ghost prev = events.deep_view();
            events.push(RowResponse::Located { path: path.clone(), row, order: self.count });
            proof {
                assert(events.deep_view() =~~= prev.push(
                    RowResponseModel::Located {
                        path: path@,
                        row: rows_model[k as int],
                        order: (start + k) as u64,
                    },
                ));
                assert(prev.push(
                    RowResponseModel::Located {
                        path: path@,
                        row: rows_model[k as int],
                        order: (start + k) as u64,
                    },
                ) =~= prefix + located_events(path@, rows_model.take(k + 1), start));
            }
            self.count = self.count + 1;
            k = k + 1;
        }
        proof {
            assert(rows_model.take(total as int) == rows_model);
            assert(prefix + located_events(path@, rows_model, start) =~= if restarted {
                seq![RowResponseModel::Restart { path: path@ }] + located_events(
                    path@,
                    rows_model,
                    start,
                )
            } else {
                located_events(path@, rows_model, start)
            });
        }
        self.filesize = new_size;
        events
    }
}

/// The located events for a batch of records are numbered consecutively:
/// event `i` carries the record `i` of the batch and the sequence number
/// `start + i`, so the numbering strictly increases in emission order
/// with no gap and no duplicate.
pub proof fn lemma_located_events_shape(path: Seq<char>, rows: Seq<RowModel>, start: u64)
    requires
        start + rows.len() <= u64::MAX,
    ensures
        located_events(path, rows, start).len() == rows.len(),
        forall|i: int|
            0 <= i < rows.len() ==> located_events(path, rows, start)[i]
                == (RowResponseModel::Located { path, row: rows[i], order: (start + i) as u64 }),
{
}

} // verus!