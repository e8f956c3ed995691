//! The client's listener registries.
//!
//! A subscription registry maps channel names to registered listeners;
//! each listener is identified by a key handed out at registration,
//! stable across later inserts and removals (keys are never reused).
//! The registry answers the two transport decisions: whether a
//! registration is the first for its channel (then the transport must
//! subscribe) and whether a removal was the last (then it must
//! unsubscribe). The callbacks themselves are invoked outside; dispatch
//! asks `listeners_for` which keys to call, in registration order.

use vstd::prelude::*;

verus! {

/// Keys registered for `channel` among `entries`, in registration order.
pub open spec fn keys_for(entries: Seq<(u64, String)>, channel: Seq<char>) -> Seq<u64>
    decreases entries.len(),
{
    if entries.len() == 0 {
        Seq::empty()
    } else if entries.first().1@ == channel {
        seq![entries.first().0] + keys_for(entries.drop_first(), channel)
    } else {
        keys_for(entries.drop_first(), channel)
    }
}

/// `s` with the first occurrence of `key` removed.
pub open spec fn remove_key(s: Seq<u64>, key: u64) -> Seq<u64>
    decreases s.len(),
{
    if s.len() == 0 {
        s
    } else if s.first() == key {
        s.drop_first()
    } else {
        seq![s.first()] + remove_key(s.drop_first(), key)
    }
}

proof fn lemma_keys_for_concat(a: Seq<(u64, String)>, b: Seq<(u64, String)>, channel: Seq<char>)
    ensures
        keys_for(a + b, channel) == keys_for(a, channel) + keys_for(b, channel),
    decreases a.len(),
{
    if a.len() == 0 {
        assert(a + b =~= b);
        assert(keys_for(a, channel) + keys_for(b, channel) =~= keys_for(b, channel));
    } else {
        assert((a + b).first() == a.first());
        assert((a + b).drop_first() =~= a.drop_first() + b);
        lemma_keys_for_concat(a.drop_first(), b, channel);
        if a.first().1@ == channel {
            assert(seq![a.first().0] + (keys_for(a.drop_first(), channel) + keys_for(b, channel))
                =~= (seq![a.first().0] + keys_for(a.drop_first(), channel)) + keys_for(b, channel));
        }
    }
}

/// Appending one entry appends its key to its channel's list and no
/// other.
proof fn lemma_keys_for_push(
    entries: Seq<(u64, String)>,
    e: (u64, String),
    channel: Seq<char>,
)
    ensures
        keys_for(entries.push(e), channel) == if e.1@ == channel {
            keys_for(entries, channel).push(e.0)
        } else {
            keys_for(entries, channel)
        },
{
    assert(entries.push(e) =~= entries + seq![e]);
    lemma_keys_for_concat(entries, seq![e], channel);
    assert(seq![e].drop_first() =~= Seq::<(u64, String)>::empty());
    assert(keys_for(seq![e].drop_first(), channel) =~= Seq::<u64>::empty());
    assert(seq![e].first() == e);
    if e.1@ == channel {
        assert(keys_for(seq![e], channel) =~= seq![e.0]);
        assert(keys_for(entries, channel) + seq![e.0] =~= keys_for(entries, channel).push(e.0));
    } else {
        assert(keys_for(entries, channel) + keys_for(seq![e], channel) =~= keys_for(
            entries,
            channel,
        ));
    }
}

/// Removing the first entry holding `key` removes exactly that key from
/// its channel's list and changes no other channel's list.
proof fn lemma_keys_for_remove(entries: Seq<(u64, String)>, i: int, channel: Seq<char>)
    requires
        0 <= i < entries.len(),
        forall|j: int| 0 <= j < i ==> (#[trigger] entries[j]).0 != entries[i].0,
    ensures
        keys_for(entries.remove(i), channel) == if entries[i].1@ == channel {
            remove_key(keys_for(entries, channel), entries[i].0)
        } else {
            keys_for(entries, channel)
        },
    decreases i,
{
    let u = entries.remove(i);
    if i == 0 {
        assert(u =~= entries.drop_first());
        if entries.first().1@ == channel {
            assert(remove_key(
                seq![entries.first().0] + keys_for(entries.drop_first(), channel),
                entries.first().0,
            ) =~= keys_for(entries.drop_first(), channel));
        }
    } else {
        assert(u.first() == entries.first());
        assert(u.drop_first() =~= entries.drop_first().remove(i - 1));
        assert(entries.drop_first()[i - 1] == entries[i]);
        lemma_keys_for_remove(entries.drop_first(), i - 1, channel);
        if entries.first().1@ == channel {
            if entries[i].1@ == channel {
                let rest = keys_for(entries.drop_first(), channel);
                assert(entries.first().0 != entries[i].0);
                assert((seq![entries.first().0] + rest).first() == entries.first().0);
                assert((seq![entries.first().0] + rest).drop_first() =~= rest);
                assert(remove_key(seq![entries.first().0] + rest, entries[i].0)
                    == seq![entries.first().0] + remove_key(rest, entries[i].0));
            }
        }
    }
}

/// A registry of per-channel listeners.
pub struct SubscriptionRegistry {
    next_key: u64,
    entries: Vec<(u64, String)>,
}

impl SubscriptionRegistry {
    /// Keys registered for `channel`, in registration order.
    pub closed spec fn spec_listeners(&self, channel: Seq<char>) -> Seq<u64> {
        keys_for(self.entries@, channel)
    }

    /// The key the next registration will receive.
    pub closed spec fn spec_next_key(&self) -> u64 {
        self.next_key
    }

    /// Keys are pairwise distinct and below the next key to hand out.
    pub closed spec fn wf(&self) -> bool {
        &&& forall|j: int|
            0 <= j < self.entries@.len() ==> (#[trigger] self.entries@[j]).0 < self.next_key
        &&& forall|j: int, k: int|
            0 <= j < k < self.entries@.len() ==> (#[trigger] self.entries@[j]).0 != (
            #[trigger] self.entries@[k]).0
    }

    pub fn new() -> (r: Self)
        ensures
            r.wf(),
            forall|channel: Seq<char>| r.spec_listeners(channel) == Seq::<u64>::empty(),
    {
        let r = SubscriptionRegistry { next_key: 0, entries: Vec::new() };
        proof {
            assert forall|channel: Seq<char>| r.spec_listeners(channel) == Seq::<u64>::empty() by {
                assert(keys_for(r.entries@, channel) =~= Seq::<u64>::empty());
            }
        }
        r
    }

    /// Whether any listener is registered for `channel`.
    pub fn has_listeners(&self, channel: &String) -> (r: bool)
        ensures
            r == (self.spec_listeners(channel@).len() > 0),
    {
        let n = self.entries.len();
        let mut i: usize = 0;
        while i < n
            invariant
                i <= n,
                n == self.entries@.len(),
                keys_for(self.entries@.take(i as int), channel@) == Seq::<u64>::empty(),
            decreases n - i,
        {
            proof {
                assert(self.entries@.take(i + 1) =~= self.entries@.take(i as int).push(
                    self.entries@[i as int],
                ));
                lemma_keys_for_push(
                    self.entries@.take(i as int),
                    self.entries@[i as int],
                    channel@,
                );
            }
            if self.entries[i].1 == *channel {
                proof {
                    assert(self.entries@.take(n as int) =~= self.entries@);
                    let rest = self.entries@.skip(i + 1);
                    assert(self.entries@ =~= self.entries@.take(i + 1) + rest);
                    lemma_keys_for_concat(self.entries@.take(i + 1), rest, channel@);
                }
                return true;
            }
            i = i + 1;
        }
        proof {
            assert(self.entries@.take(n as int) =~= self.entries@);
        }
        false
    }

    /// Register a listener for `channel`. Returns its fresh key and
    /// whether it is the first listener on that channel (then the
    /// transport must subscribe).
    pub fn subscribe(&mut self, channel: &String) -> (r: (u64, bool))
        requires
            old(self).wf(),
            old(self).spec_next_key() < u64::MAX,
        ensures
            final(self).wf(),
            r.0 == old(self).spec_next_key(),
            r.1 == (old(self).spec_listeners(channel@).len() == 0),
            final(self).spec_listeners(channel@) == old(self).spec_listeners(channel@).push(r.0),
            forall|other: Seq<char>|
                other != channel@ ==> final(self).spec_listeners(other) == old(
                    self,
                ).spec_listeners(other),
            final(self).spec_next_key() == old(self).spec_next_key() + 1,
    {
        let was_empty = !self.has_listeners(channel);
        let key = self.next_key;
        self.next_key = self.next_key + 1;
        let ghost entries0 = self.entries@;
        let e = (key, channel.clone());
        let ghost ge = e;
        self.entries.push(e);
        proof {
            assert forall|ch: Seq<char>| true implies self.spec_listeners(ch) == (if ch == channel@ {
                keys_for(entries0, ch).push(key)
            } else {
                keys_for(entries0, ch)
            }) by {
                lemma_keys_for_push(entries0, ge, ch);
            }
        }
        (key, was_empty)
    }

    /// Whether another key can still be handed out; callers check this
    /// before `subscribe`.
    pub fn key_space_left(&self) -> (r: bool)
        ensures
            r == (self.spec_next_key() < u64::MAX),
    {
        self.next_key < u64::MAX
    }

    /// Find the index of the entry registered under `key`, if any.
    fn find_key(&self, key: u64) -> (r: Option<usize>)
        ensures
            r matches Some(i) ==> i < self.entries@.len() && self.entries@[i as int].0 == key && (
            forall|j: int| 0 <= j < i ==> (#[trigger] self.entries@[j]).0 != key),
            r is None ==> forall|j: int|
                0 <= j < self.entries@.len() ==> (#[trigger] self.entries@[j]).0 != key,
    {
        let n = self.entries.len();
        let mut i: usize = 0;
        while i < n
            invariant
                i <= n,
                n == self.entries@.len(),
                forall|j: int| 0 <= j < i ==> (#[trigger] self.entries@[j]).0 != key,
            decreases n - i,
        {
            if self.entries[i].0 == key {
                return Some(i);
            }
            i = i + 1;
        }
        None
    }

    /// Remove the listener registered under `key`. Returns its channel
    /// and whether it was the last listener on that channel (then the
    /// transport must unsubscribe); `None` when no such key is
    /// registered, as for a token already used once.
    pub fn unsubscribe(&mut self, key: u64) -> (r: Option<(String, bool)>)
        requires
            old(self).wf(),
        ensures
            final(self).wf(),
            final(self).spec_next_key() == old(self).spec_next_key(),
            r is Some <==> exists|ch: Seq<char>|
                (#[trigger] old(self).spec_listeners(ch)).contains(key),
            r is None ==> forall|ch: Seq<char>|
                final(self).spec_listeners(ch) == old(self).spec_listeners(ch),
            r matches Some((channel, last)) ==> {
                &&& old(self).spec_listeners(channel@).contains(key)
                &&& final(self).spec_listeners(channel@) == remove_key(
                    old(self).spec_listeners(channel@),
                    key,
                )
                &&& forall|other: Seq<char>|
                    other != channel@ ==> final(self).spec_listeners(other) == old(
                        self,
                    ).spec_listeners(other)
                &&& last == (final(self).spec_listeners(channel@).len() == 0)
            },
    {
        let ghost entries0 = self.entries@;
        match self.find_key(key) {
            Some(i) => {
                let (_, channel) = self.entries.remove(i);
                proof {
                    assert(old(self).spec_listeners(channel@).contains(key)) by {
                        lemma_keys_for_membership(entries0, key, channel@);
                        assert(entries0[i as int].0 == key && entries0[i as int].1@ == channel@);
                    }
                    assert forall|ch: Seq<char>| true implies self.spec_listeners(ch) == (if ch
                        == channel@ {
                        remove_key(keys_for(entries0, ch), key)
                    } else {
                        keys_for(entries0, ch)
                    }) by {
                        lemma_keys_for_remove(entries0, i as int, ch);
                    }
                }
                let last = !self.has_listeners(&channel);
                Some((channel, last))
            },
            None => {
                proof {
                    assert forall|ch: Seq<char>| !(#[trigger] old(
                        self,
                    ).spec_listeners(ch)).contains(key) by {
                        lemma_keys_for_membership(entries0, key, ch);
                    }
                }
                None
            },
        }
    }

    /// The keys to invoke for a message routed to `channel`, in
    /// registration order.
    pub fn listeners_for(&self, channel: &String) -> (r: Vec<u64>)
        ensures
            r@ == self.spec_listeners(channel@),
    {
        let n = self.entries.len();
        let mut r: Vec<u64> = Vec::new();
        let mut i: usize = 0;
        proof {
            assert(keys_for(self.entries@.take(0), channel@) =~= Seq::<u64>::empty());
        }
        while i < n
            invariant
                i <= n,
                n == self.entries@.len(),
                r@ == keys_for(self.entries@.take(i as int), channel@),
            decreases n - i,
        {
            proof {
                assert(self.entries@.take(i + 1) =~= self.entries@.take(i as int).push(
                    self.entries@[i as int],
                ));
                lemma_keys_for_push(
                    self.entries@.take(i as int),
                    self.entries@[i as int],
                    channel@,
                );
            }
            if self.entries[i].1 == *channel {
                r.push(self.entries[i].0);
            }
            i = i + 1;
        }
        proof {
            assert(self.entries@.take(n as int) =~= self.entries@);
        }
        r
    }
}

/// The single global registry of log listeners: as a subscription
/// registry, but with one implicit channel.
pub struct LogListenerRegistry {
    next_key: u64,
    entries: Vec<u64>,
}

impl LogListenerRegistry {
    /// Keys of the registered log listeners, in registration order.
    pub closed spec fn spec_listeners(&self) -> Seq<u64> {
        self.entries@
    }

    /// The key the next registration will receive.
    pub closed spec fn spec_next_key(&self) -> u64 {
        self.next_key
    }

    /// Keys are pairwise distinct and below the next key to hand out.
    pub closed spec fn wf(&self) -> bool {
        &&& forall|j: int| 0 <= j < self.entries@.len() ==> #[trigger] self.entries@[j]
            < self.next_key
        &&& forall|j: int, k: int|
            0 <= j < k < self.entries@.len() ==> self.entries@[j] != self.entries@[k]
    }

    pub fn new() -> (r: Self)
        ensures
            r.wf(),
            r.spec_listeners() == Seq::<u64>::empty(),
    {
        LogListenerRegistry { next_key: 0, entries: Vec::new() }
    }

    /// Register a log listener. Returns its fresh key and whether it is
    /// the first (then the transport must subscribe to the log channel).
    pub fn subscribe(&mut self) -> (r: (u64, bool))
        requires
            old(self).wf(),
            old(self).spec_next_key() < u64::MAX,
        ensures
            final(self).wf(),
            r.0 == old(self).spec_next_key(),
            r.1 == (old(self).spec_listeners().len() == 0),
            final(self).spec_listeners() == old(self).spec_listeners().push(r.0),
            final(self).spec_next_key() == old(self).spec_next_key() + 1,
    {
        let was_empty = self.entries.len() == 0;
        let key = self.next_key;
        self.next_key = self.next_key + 1;
        self.entries.push(key);
        (key, was_empty)
    }

    /// Whether another key can still be handed out; callers check this
    /// before `subscribe`.
    pub fn key_space_left(&self) -> (r: bool)
        ensures
            r == (self.spec_next_key() < u64::MAX),
    {
        self.next_key < u64::MAX
    }

    /// Remove the log listener registered under `key`. Returns whether
    /// it was the last one (then the transport must unsubscribe);
    /// `None` when no such key is registered.
    #[verifier::loop_isolation(false)]
    pub fn unsubscribe(&mut self, key: u64) -> (r: Option<bool>)
        requires
            old(self).wf(),
        ensures
            final(self).wf(),
            final(self).spec_next_key() == old(self).spec_next_key(),
            r is Some <==> old(self).spec_listeners().contains(key),
            r is None ==> final(self).spec_listeners() == old(self).spec_listeners(),
            r matches Some(last) ==> final(self).spec_listeners() == remove_key(
                old(self).spec_listeners(),
                key,
            ) && last == (final(self).spec_listeners().len() == 0),
    {
        let ghost entries0 = self.entries@;
        let ghost nk0 = self.next_key;
        let n = self.entries.len();
        let mut i: usize = 0;
        while i < n
            invariant
                i <= n,
                n == self.entries@.len(),
                self.entries@ == entries0,
                self.next_key == nk0,
                forall|j: int| 0 <= j < entries0.len() ==> #[trigger] entries0[j] < nk0,
                forall|j: int, k: int| 0 <= j < k < entries0.len() ==> entries0[j] != entries0[k],
                forall|j: int| 0 <= j < i ==> entries0[j] != key,
            decreases n - i,
        {
            if self.entries[i] == key {
                self.entries.remove(i);
                proof {
                    assert(entries0.contains(key)) by {
                        assert(entries0[i as int] == key);
                    }
                    lemma_remove_key_at(entries0, i as int);
                    assert(self.entries@ == entries0.remove(i as int));
                    assert(self.wf()) by {
                        assert forall|j: int| 0 <= j < self.entries@.len() implies #[trigger] self.entries@[j]
                            < self.next_key by {
                            lemma_removed_index(entries0, i as int, j);
                            if j < i {
                                assert(self.entries@[j] == entries0[j]);
                                assert(entries0[j] < nk0);
                            } else {
                                assert(self.entries@[j] == entries0[j + 1]);
                                assert(entries0[j + 1] < nk0);
                            }
                        }
                        assert forall|j: int, k: int|
                            0 <= j < k < self.entries@.len() implies self.entries@[j]
                            != self.entries@[k] by {
                            lemma_removed_index(entries0, i as int, j);
                            lemma_removed_index(entries0, i as int, k);
                        }
                    }
                }
                let last = self.entries.len() == 0;
                return Some(last);
            }
            i = i + 1;
        }
        proof {
            assert(!entries0.contains(key)) by {
                if entries0.contains(key) {
                    let k = choose|k: int| 0 <= k < entries0.len() && entries0[k] == key;
                    assert(entries0[k] != key);
                }
            }
        }
        None
    }

    /// The keys to invoke for a log broadcast, in registration order.
    pub fn listeners(&self) -> (r: Vec<u64>)
        ensures
            r@ == self.spec_listeners(),
    {
        let n = self.entries.len();
        let mut r: Vec<u64> = Vec::new();
        let mut i: usize = 0;
        while i < n
            invariant
                i <= n,
                n == self.entries@.len(),
                r@ =~= self.entries@.take(i as int),
            decreases n - i,
        {
            r.push(self.entries[i]);
            proof {
                assert(r@ =~= self.entries@.take(i + 1));
            }
            i = i + 1;
        }
        proof {
            assert(self.entries@.take(n as int) =~= self.entries@);
        }
        r
    }
}

/// Each element of `s.remove(i)` is an element of `s`, at the same or
/// the next index.
proof fn lemma_removed_index(s: Seq<u64>, i: int, j: int)
    requires
        0 <= i < s.len(),
        0 <= j < s.len() - 1,
    ensures
        s.remove(i)[j] == if j < i {
            s[j]
        } else {
            s[j + 1]
        },
{
}

/// Removing the first occurrence of a key by index matches
/// [`remove_key`].
proof fn lemma_remove_key_at(s: Seq<u64>, i: int)
    requires
        0 <= i < s.len(),
        forall|j: int| 0 <= j < i ==> s[j] != s[i],
    ensures
        s.remove(i) == remove_key(s, s[i]),
    decreases i,
{
    if i == 0 {
        assert(s.remove(0) =~= s.drop_first());
    } else {
        assert(s.remove(i).first() == s.first());
        assert(s.remove(i).drop_first() =~= s.drop_first().remove(i - 1));
        assert(s.drop_first()[i - 1] == s[i]);
        lemma_remove_key_at(s.drop_first(), i - 1);
        assert(remove_key(s, s[i]) == seq![s.first()] + remove_key(s.drop_first(), s[i]));
        assert(s.remove(i) =~= seq![s.first()] + s.drop_first().remove(i - 1));
    }
}

/// A key appears in a channel's list exactly when an entry registers it
/// there.
proof fn lemma_keys_for_membership(entries: Seq<(u64, String)>, key: u64, ch: Seq<char>)
    ensures
        keys_for(entries, ch).contains(key) <==> exists|i: int|
            0 <= i < entries.len() && (#[trigger] entries[i]).0 == key && entries[i].1@ == ch,
    decreases entries.len(),
{
    if entries.len() == 0 {
    } else {
        lemma_keys_for_membership(entries.drop_first(), key, ch);
        let rest = keys_for(entries.drop_first(), ch);
        if entries.first().1@ == ch {
            let whole = seq![entries.first().0] + rest;
            assert(keys_for(entries, ch) == whole);
            if entries.first().0 == key {
                assert(whole[0] == key);
                assert(whole.contains(key));
                assert(entries[0].0 == key && entries[0].1@ == ch);
            } else {
                assert(whole.contains(key) <==> rest.contains(key)) by {
                    if whole.contains(key) {
                        let k = choose|k: int| 0 <= k < whole.len() && whole[k] == key;
                        assert(k > 0);
                        assert(rest[k - 1] == key);
                    }
                    if rest.contains(key) {
                        let k = choose|k: int| 0 <= k < rest.len() && rest[k] == key;
                        assert(whole[k + 1] == key);
                    }
                }
            }
        }
        if exists|i: int|
            0 <= i < entries.len() && (#[trigger] entries[i]).0 == key && entries[i].1@ == ch {
            let i = choose|i: int|
                0 <= i < entries.len() && (#[trigger] entries[i]).0 == key && entries[i].1@ == ch;
            if i > 0 {
                assert(entries.drop_first()[i - 1].0 == key && entries.drop_first()[i - 1].1@
                    == ch);
            }
        }
        if exists|i: int|
            0 <= i < entries.drop_first().len() && (#[trigger] entries.drop_first()[i]).0 == key
                && entries.drop_first()[i].1@ == ch {
            let i = choose|i: int|
                0 <= i < entries.drop_first().len() && (#[trigger] entries.drop_first()[i]).0
                    == key && entries.drop_first()[i].1@ == ch;
            assert(entries[i + 1].0 == key && entries[i + 1].1@ == ch);
        }
    }
}

} // verus!
