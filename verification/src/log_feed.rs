//! The log feed: a capped rolling history of formatted log lines, read
//! non-destructively at any time, beside an "unread" queue drained
//! wholesale each time the broker broadcasts what is new.
//!
//! Locking and the process-wide logging hookup live outside; this type
//! holds the retention and drain logic itself.

use crate::ring_buffer::{push_model, RingBuffer};
use vstd::prelude::*;

verus! {

/// Default number of retained log lines.
pub const LOG_RETENTION_CAPACITY: usize = 500;

pub struct XTablesLogger {
    logs: RingBuffer<String>,
    unread_logs: Vec<String>,
}

impl XTablesLogger {
    /// The retained history, oldest first, capped at the retention
    /// capacity.
    pub closed spec fn retained(&self) -> Seq<Seq<char>> {
        self.logs@.map_values(|s: String| s@)
    }

    /// The lines recorded since the last drain, oldest first.
    pub closed spec fn unread(&self) -> Seq<Seq<char>> {
        self.unread_logs.deep_view()
    }

    /// The retention capacity fixed at construction.
    pub closed spec fn spec_capacity(&self) -> nat {
        self.logs.spec_capacity()
    }

    pub fn new(capacity: usize) -> (r: Self)
        ensures
            r.retained() == Seq::<Seq<char>>::empty(),
            r.unread() == Seq::<Seq<char>>::empty(),
            r.spec_capacity() == capacity,
    {
        let r = XTablesLogger { logs: RingBuffer::new(capacity), unread_logs: Vec::new() };
        proof {
            assert(r.retained() =~= Seq::<Seq<char>>::empty());
            assert(r.unread() =~= Seq::<Seq<char>>::empty());
        }
        r
    }

    /// Record one formatted line: retained (evicting the oldest line at
    /// capacity) and queued as unread.
    pub fn record(&mut self, line: String)
        ensures
            final(self).retained() == push_model(
                old(self).retained(),
                old(self).spec_capacity(),
                line@,
            ),
            final(self).unread() == old(self).unread().push(line@),
            final(self).spec_capacity() == old(self).spec_capacity(),
    {
        let copy = line.clone();
        self.logs.push(copy);
        self.unread_logs.push(line);
        proof {
            assert(self.retained() =~= push_model(
                old(self).retained(),
                old(self).spec_capacity(),
                line@,
            ));
            assert(self.unread() =~= old(self).unread().push(line@));
        }
    }

    /// The full retained history, oldest first, without disturbing it.
    pub fn get_logs(&self) -> (r: Vec<String>)
        ensures
            r.deep_view() == self.retained(),
    {
        let n = self.logs.len();
        let mut r: Vec<String> = Vec::new();
        let mut i: usize = 0;
        while i < n
            invariant
                i <= n,
                n == self.logs@.len(),
                r.deep_view() =~= self.retained().take(i as int),
            decreases n - i,
        {
            let ghost dv0 = r.deep_view();
            let ghost rv0 = r@;
            let line = self.logs.get(i).clone();
            r.push(line);
            proof {
                assert(dv0.len() == rv0.len());
                assert(dv0.len() == i as int);
                assert(r@ == rv0.push(line));
                assert forall|j: int| 0 <= j < i + 1 implies r.deep_view()[j]
                    == self.retained().take(i + 1)[j] by {
                    assert(self.retained()[j] == self.logs@[j]@);
                    if j < i {
                        assert(r@[j] == rv0[j]);
                        assert(dv0[j] == rv0[j]@);
                        assert(dv0[j] == self.retained().take(i as int)[j]);
                    } else {
                        assert(r@[j] == line);
                    }
                }
                assert(r.deep_view() =~= self.retained().take(i + 1));
            }
            i = i + 1;
        }
        proof {
            assert(self.retained().take(n as int) =~= self.retained());
        }
        r
    }

    /// Drain the unread queue: everything recorded since the last
    /// drain, oldest first, or `None` when nothing is new.
    pub fn read_unread_logs(&mut self) -> (r: Option<Vec<String>>)
        ensures
            final(self).retained() == old(self).retained(),
            final(self).spec_capacity() == old(self).spec_capacity(),
            final(self).unread() == Seq::<Seq<char>>::empty(),
            r is None <==> old(self).unread().len() == 0,
            r matches Some(ls) ==> ls.deep_view() == old(self).unread(),
    {
        if self.unread_logs.len() == 0 {
            proof {
                assert(self.unread() =~= Seq::<Seq<char>>::empty());
            }
            return None;
        }
        let mut drained: Vec<String> = Vec::new();
        core::mem::swap(&mut drained, &mut self.unread_logs);
        proof {
            assert(self.unread() =~= Seq::<Seq<char>>::empty());
        }
        Some(drained)
    }
}

} // verus!
