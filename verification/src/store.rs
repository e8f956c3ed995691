//! The channel store: the broker's mapping from channel name to that
//! channel's bounded history buffer.
//!
//! Channels are created lazily — on first write, and also on first read,
//! as the query path materialises an empty buffer — and never deleted.
//! Contracts speak through `spec_get`, the store's lookup function.

use crate::ring_buffer::{push_model, RingBuffer};
use crate::value::{Value, ValueV};
use vstd::pervasive::VecAdditionalExecFns;
use vstd::prelude::*;

verus! {

/// The fixed capacity of every data channel's history buffer.
pub const CHANNEL_CAPACITY: usize = 100;

pub struct ChannelStore {
    entries: Vec<(String, RingBuffer<Value>)>,
}

/// The retained sequence of one entry's buffer, as views.
pub open spec fn entry_contents(e: (String, RingBuffer<Value>)) -> Seq<ValueV> {
    e.1@.map_values(|v: Value| v@)
}

/// First-match lookup of `name` among `entries`.
pub open spec fn lookup(entries: Seq<(String, RingBuffer<Value>)>, name: Seq<char>) -> Option<
    Seq<ValueV>,
>
    decreases entries.len(),
{
    if entries.len() == 0 {
        None
    } else if entries.first().0@ == name {
        Some(entry_contents(entries.first()))
    } else {
        lookup(entries.drop_first(), name)
    }
}

proof fn lemma_lookup_found(
    entries: Seq<(String, RingBuffer<Value>)>,
    i: int,
    name: Seq<char>,
)
    requires
        0 <= i < entries.len(),
        entries[i].0@ == name,
        forall|j: int| 0 <= j < i ==> entries[j].0@ != name,
    ensures
        lookup(entries, name) == Some(entry_contents(entries[i])),
    decreases i,
{
    if i > 0 {
        lemma_lookup_found(entries.drop_first(), i - 1, name);
    }
}

proof fn lemma_lookup_absent(entries: Seq<(String, RingBuffer<Value>)>, name: Seq<char>)
    requires
        forall|j: int| 0 <= j < entries.len() ==> entries[j].0@ != name,
    ensures
        lookup(entries, name) is None,
    decreases entries.len(),
{
    if entries.len() > 0 {
        lemma_lookup_absent(entries.drop_first(), name);
    }
}

/// Updating the first entry matching its own key changes only that
/// key's lookup.
proof fn lemma_lookup_update(
    entries: Seq<(String, RingBuffer<Value>)>,
    i: int,
    e: (String, RingBuffer<Value>),
    name: Seq<char>,
)
    requires
        0 <= i < entries.len(),
        e.0@ == entries[i].0@,
        forall|j: int| 0 <= j < i ==> entries[j].0@ != entries[i].0@,
    ensures
        lookup(entries.update(i, e), name) == if name == entries[i].0@ {
            Some(entry_contents(e))
        } else {
            lookup(entries, name)
        },
    decreases i,
{
    let u = entries.update(i, e);
    if i == 0 {
        assert(u.first() == e);
        assert(u.drop_first() =~= entries.drop_first());
    } else {
        assert(u.first() == entries.first());
        assert(u.drop_first() =~= entries.drop_first().update(i - 1, e));
        lemma_lookup_update(entries.drop_first(), i - 1, e, name);
    }
}

/// Appending a fresh entry changes only lookups that previously failed.
proof fn lemma_lookup_append(
    entries: Seq<(String, RingBuffer<Value>)>,
    e: (String, RingBuffer<Value>),
    name: Seq<char>,
)
    ensures
        lookup(entries.push(e), name) == if lookup(entries, name) is Some {
            lookup(entries, name)
        } else if name == e.0@ {
            Some(entry_contents(e))
        } else {
            None
        },
    decreases entries.len(),
{
    let u = entries.push(e);
    if entries.len() == 0 {
        assert(u.first() == e);
        assert(u.drop_first() =~= Seq::<(String, RingBuffer<Value>)>::empty());
        assert(lookup(u.drop_first(), name) is None);
    } else {
        assert(u.first() == entries.first());
        assert(u.drop_first() =~= entries.drop_first().push(e));
        lemma_lookup_append(entries.drop_first(), e, name);
        if entries.first().0@ == name {
            assert(lookup(u, name) == Some(entry_contents(u.first())));
            assert(lookup(entries, name) == Some(entry_contents(entries.first())));
        } else {
            assert(lookup(u, name) == lookup(u.drop_first(), name));
            assert(lookup(entries, name) == lookup(entries.drop_first(), name));
        }
    }
}

impl ChannelStore {
    /// The retained history of `name`'s channel, or `None` when that
    /// channel has never been touched.
    pub closed spec fn spec_get(&self, name: Seq<char>) -> Option<Seq<ValueV>> {
        lookup(self.entries@, name)
    }

    /// Every buffer in the store carries the fixed channel capacity.
    pub closed spec fn wf(&self) -> bool {
        forall|i: int|
            0 <= i < self.entries@.len() ==> (#[trigger] self.entries@[i].1).spec_capacity()
                == CHANNEL_CAPACITY
    }

    pub fn new() -> (r: Self)
        ensures
            r.wf(),
            forall|name: Seq<char>| r.spec_get(name) is None,
    {
        ChannelStore { entries: Vec::new() }
    }

    /// Index of the first entry for `channel`, if any.
    fn find(&self, channel: &String) -> (r: Option<usize>)
        ensures
            r matches Some(i) ==> i < self.entries@.len() && self.entries@[i as int].0@ == channel@
                && (forall|j: int| 0 <= j < i ==> self.entries@[j].0@ != channel@),
            r is None ==> forall|j: int|
                0 <= j < self.entries@.len() ==> self.entries@[j].0@ != channel@,
    {
        let n = self.entries.len();
        let mut i: usize = 0;
        while i < n
            invariant
                i <= n,
                n == self.entries@.len(),
                forall|j: int| 0 <= j < i ==> self.entries@[j].0@ != channel@,
            decreases n - i,
        {
            if self.entries[i].0 == *channel {
                return Some(i);
            }
            i = i + 1;
        }
        None
    }

    /// Record `value` as the newest entry of `channel`'s history,
    /// creating the channel's buffer on first write; at capacity the
    /// oldest entry is evicted.
    pub fn push_value(&mut self, channel: &String, value: Value)
        requires
            old(self).wf(),
        ensures
            final(self).wf(),
            final(self).spec_get(channel@) == Some(
                push_model(
                    match old(self).spec_get(channel@) {
                        Some(s) => s,
                        None => Seq::empty(),
                    },
                    CHANNEL_CAPACITY as nat,
                    value@,
                ),
            ),
            forall|other: Seq<char>|
                other != channel@ ==> final(self).spec_get(other) == old(self).spec_get(other),
    {
        let ghost entries0 = self.entries@;
        match self.find(channel) {
            Some(i) => {
                let mut entry: (String, RingBuffer<Value>) = (
                    String::new(),
                    RingBuffer::new(CHANNEL_CAPACITY),
                );
                self.entries.set_and_swap(i, &mut entry);
                let ghost taken = entry;
                let (name, mut buffer) = entry;
                proof {
                    lemma_lookup_found(entries0, i as int, channel@);
                }
                buffer.push(value);
                let entry2 = (name, buffer);
                self.entries.set(i, entry2);
                proof {
                    assert(self.entries@ =~= entries0.update(i as int, entry2));
                    assert(entry_contents(entry2) =~= push_model(
                        entry_contents(entries0[i as int]),
                        CHANNEL_CAPACITY as nat,
                        value@,
                    )) by {
                        assert(entry_contents(taken) =~= entry_contents(entries0[i as int]));
                        assert(buffer@ == push_model(
                            taken.1@,
                            CHANNEL_CAPACITY as nat,
                            value,
                        ));
                        lemma_push_model_map(taken.1@, CHANNEL_CAPACITY as nat, value);
                    }
                    assert forall|name2: Seq<char>| true implies self.spec_get(name2)
                        == (if name2 == channel@ {
                        Some(
                            push_model(
                                entry_contents(entries0[i as int]),
                                CHANNEL_CAPACITY as nat,
                                value@,
                            ),
                        )
                    } else {
                        lookup(entries0, name2)
                    }) by {
                        lemma_lookup_update(entries0, i as int, entry2, name2);
                    }
                }
            },
            None => {
                proof {
                    lemma_lookup_absent(entries0, channel@);
                }
                let mut buffer: RingBuffer<Value> = RingBuffer::new(CHANNEL_CAPACITY);
                buffer.push(value);
                let entry = (channel.clone(), buffer);
                self.entries.push(entry);
                proof {
                    assert(entry_contents(entry) =~= push_model(
                        Seq::<ValueV>::empty(),
                        CHANNEL_CAPACITY as nat,
                        value@,
                    )) by {
                        lemma_push_model_map(Seq::<Value>::empty(), CHANNEL_CAPACITY as nat, value);
                        assert(Seq::<Value>::empty().map_values(|v: Value| v@)
                            =~= Seq::<ValueV>::empty());
                    }
                    assert forall|name2: Seq<char>| true implies self.spec_get(name2)
                        == (if name2 == channel@ {
                        Some(entry_contents(entry))
                    } else {
                        lookup(entries0, name2)
                    }) by {
                        lemma_lookup_append(entries0, entry, name2);
                    }
                }
            },
        }
    }

    /// The most recent value of `channel`, or `None` when it has never
    /// been written. Reading materialises an empty buffer for an
    /// untouched channel, which then counts as created but unwritten.
    pub fn latest(&mut self, channel: &String) -> (r: Option<Value>)
        requires
            old(self).wf(),
        ensures
            final(self).wf(),
            match old(self).spec_get(channel@) {
                Some(s) => (r matches Some(v) && s.len() > 0 && v@ == s.last()) || (r is None
                    && s.len() == 0),
                None => r is None,
            },
            final(self).spec_get(channel@) == (match old(self).spec_get(channel@) {
                Some(s) => Some(s),
                None => Some(Seq::<ValueV>::empty()),
            }),
            forall|other: Seq<char>|
                other != channel@ ==> final(self).spec_get(other) == old(self).spec_get(other),
    {
        let ghost entries0 = self.entries@;
        match self.find(channel) {
            Some(i) => {
                proof {
                    lemma_lookup_found(entries0, i as int, channel@);
                }
                let r = match self.entries[i].1.peek() {
                    Some(v) => Some(v.clone()),
                    None => None,
                };
                proof {
                    let s = entry_contents(entries0[i as int]);
                    assert(entries0[i as int].1@.len() == s.len());
                    if s.len() > 0 {
                        assert(s.last() == entries0[i as int].1@.last()@);
                    }
                }
                r
            },
            None => {
                proof {
                    lemma_lookup_absent(entries0, channel@);
                }
                let entry = (channel.clone(), RingBuffer::new(CHANNEL_CAPACITY));
                self.entries.push(entry);
                proof {
                    assert(entry_contents(entry) =~= Seq::<ValueV>::empty());
                    assert forall|name2: Seq<char>| true implies self.spec_get(name2)
                        == (if name2 == channel@ {
                        Some(Seq::<ValueV>::empty())
                    } else {
                        lookup(entries0, name2)
                    }) by {
                        lemma_lookup_append(entries0, entry, name2);
                    }
                }
                None
            },
        }
    }
}

/// Pushing commutes with taking views of each retained value.
proof fn lemma_push_model_map(s: Seq<Value>, capacity: nat, v: Value)
    ensures
        push_model(s, capacity, v).map_values(|x: Value| x@) == push_model(
            s.map_values(|x: Value| x@),
            capacity,
            v@,
        ),
{
    assert(push_model(s, capacity, v).map_values(|x: Value| x@) =~= push_model(
        s.map_values(|x: Value| x@),
        capacity,
        v@,
    ));
}

} // verus!
