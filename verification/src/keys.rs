//! The key remapping engine: one instance per keyboard-like device.
//!
//! The engine is bound to a fixed `source key code -> destination button
//! code` mapping from configuration.  Key events update the current state of
//! the mapped destination button; nothing is emitted until a synchronization
//! frame, which flushes exactly the destination buttons whose state differs
//! from the last report.

use vstd::prelude::*;
use crate::events::OutEvent;

verus! {

/// An input event as seen by the key engine, in plain values.
#[derive(Clone, Copy, Debug, PartialEq, Eq, Structural)]
pub enum KeyEvent {
    /// A key changed state on the source device.
    Key { code: u16, pressed: bool },
    /// A synchronization-frame marker: flush coalesced changes.
    SyncReport,
    /// Anything else; ignored.
    Other,
}

/// First index of `c` in `s`, or -1.
pub open spec fn find_first(s: Seq<u16>, c: u16) -> int
    decreases s.len(),
{
    if s.len() == 0 {
        -1
    } else if s[0] == c {
        0
    } else {
        let r = find_first(s.drop_first(), c);
        if r < 0 {
            -1
        } else {
            r + 1
        }
    }
}

pub proof fn lemma_find_first(s: Seq<u16>, c: u16)
    ensures
        find_first(s, c) >= 0 ==> find_first(s, c) < s.len() && s[find_first(s, c)] == c,
        find_first(s, c) < 0 ==> forall|i: int| 0 <= i < s.len() ==> s[i] != c,
    decreases s.len(),
{
    if s.len() > 0 && s[0] != c {
        lemma_find_first(s.drop_first(), c);
        let r = find_first(s.drop_first(), c);
        if r >= 0 {
            assert(s[r + 1] == s.drop_first()[r]);
        } else {
            assert forall|i: int| 0 <= i < s.len() implies s[i] != c by {
                if i > 0 {
                    assert(s[i] == s.drop_first()[i - 1]);
                }
            }
        }
    }
}

/// Destination of the first mapping entry whose source is `src`, if any.
pub open spec fn lookup_dest(mapping: Seq<(u16, u16)>, src: u16) -> Option<u16>
    decreases mapping.len(),
{
    if mapping.len() == 0 {
        None
    } else if mapping[0].0 == src {
        Some(mapping[0].1)
    } else {
        lookup_dest(mapping.drop_first(), src)
    }
}

/// The press/release events for every destination whose current state
/// differs from the last report, in destination-list order.
pub open spec fn key_deltas(dests: Seq<u16>, last: Seq<bool>, cur: Seq<bool>) -> Seq<OutEvent>
    decreases dests.len(),
{
    if dests.len() == 0 {
        Seq::empty()
    } else {
        let i = dests.len() - 1;
        let head = key_deltas(dests.drop_last(), last.drop_last(), cur.drop_last());
        if cur[i] != last[i] {
            head + seq![OutEvent::Key { code: dests[i], pressed: cur[i] }]
        } else {
            head
        }
    }
}

/// Identical current and last state produce no events.
pub proof fn lemma_key_deltas_no_change(dests: Seq<u16>, state: Seq<bool>)
    ensures
        key_deltas(dests, state, state) =~= Seq::<OutEvent>::empty(),
    decreases dests.len(),
{
    if dests.len() > 0 {
        lemma_key_deltas_no_change(dests.drop_last(), state.drop_last());
    }
}

/// Per-device key remapping state.
pub struct KeysEngine {
    /// Source key code to destination button code, from configuration.
    pub mapping: Vec<(u16, u16)>,
    /// The distinct destination codes, in first-appearance order.
    pub dests: Vec<u16>,
    /// Current state per destination.
    pub cur: Vec<bool>,
    /// State per destination as of the last flush.
    pub last: Vec<bool>,
}

impl KeysEngine {
    /// Internal consistency: distinct destinations, parallel state arrays,
    /// and every mapped destination present.
    pub open spec fn wf(self) -> bool {
        &&& forall|i: int, j: int|
            0 <= i < j < self.dests@.len() ==> self.dests@[i] != self.dests@[j]
        &&& self.cur@.len() == self.dests@.len()
        &&& self.last@.len() == self.dests@.len()
        &&& forall|k: int|
            0 <= k < self.mapping@.len() ==> find_first(
                self.dests@,
                (#[trigger] self.mapping@[k]).1,
            ) >= 0
    }

    pub open spec fn spec_mapping(self) -> Seq<(u16, u16)> {
        self.mapping@
    }

    pub open spec fn spec_dests(self) -> Seq<u16> {
        self.dests@
    }

    pub open spec fn spec_cur(self) -> Seq<bool> {
        self.cur@
    }

    pub open spec fn spec_last(self) -> Seq<bool> {
        self.last@
    }

    /// The destination button codes this engine will emit on, for
    /// registration with the shared output device before it is built.
    pub fn dest_codes(&self) -> (r: Vec<u16>)
        ensures
            r@ == self.spec_dests(),
    {
        let mut out: Vec<u16> = Vec::new();
        let mut i: usize = 0;
        while i < self.dests.len()
            invariant
                i <= self.dests@.len(),
                out@ =~= self.dests@.take(i as int),
            decreases self.dests.len() - i,
        {
            out.push(self.dests[i]);
            i = i + 1;
            proof {
                assert(out@ =~= self.dests@.take(i as int));
            }
        }
        proof {
            assert(self.dests@.take(self.dests@.len() as int) =~= self.dests@);
        }
        out
    }

    /// Builds an engine for a configured mapping.  All buttons start
    /// released on both sides of the report boundary.
    pub fn new(mapping: Vec<(u16, u16)>) -> (r: KeysEngine)
        ensures
            r.wf(),
            r.spec_mapping() == mapping@,
            forall|i: int| 0 <= i < r.spec_cur().len() ==> !r.spec_cur()[i],
            forall|i: int| 0 <= i < r.spec_last().len() ==> !r.spec_last()[i],
            forall|k: int|
                0 <= k < mapping@.len() ==> find_first(
                    r.spec_dests(),
                    (#[trigger] mapping@[k]).1,
                ) >= 0,
    {
        let mut dests: Vec<u16> = Vec::new();
        let mut cur: Vec<bool> = Vec::new();
        let mut last: Vec<bool> = Vec::new();
        let mut k: usize = 0;
        while k < mapping.len()
            invariant
                k <= mapping@.len(),
                cur@.len() == dests@.len(),
                last@.len() == dests@.len(),
                forall|i: int, j: int| 0 <= i < j < dests@.len() ==> dests@[i] != dests@[j],
                forall|i: int| 0 <= i < cur@.len() ==> !cur@[i],
                forall|i: int| 0 <= i < last@.len() ==> !last@[i],
                forall|m: int|
                    0 <= m < k ==> find_first(dests@, (#[trigger] mapping@[m]).1) >= 0,
            decreases mapping.len() - k,
        {
            let d = mapping[k].1;
            let mut found = false;
            let mut i: usize = 0;
            while i < dests.len()
                invariant
                    i <= dests@.len(),
                    found == exists|j: int| 0 <= j < i && dests@[j] == d,
                decreases dests.len() - i,
            {
                if dests[i] == d {
                    found = true;
                }
                i = i + 1;
            }
            let ghost pre = dests@;
            if !found {
                dests.push(d);
                cur.push(false);
                last.push(false);
            }
            proof {
                lemma_find_first(dests@, d);
                if find_first(dests@, d) < 0 {
                    if found {
                        assert(false);
                    } else {
                        assert(dests@[pre.len() as int] == d);
                        assert(false);
                    }
                }
                assert forall|m: int| 0 <= m < k + 1 implies find_first(
                    dests@,
                    (#[trigger] mapping@[m]).1,
                ) >= 0 by {
                    if m < k {
                        lemma_find_first_extends(pre, dests@, mapping@[m].1);
                    }
                }
            }
            k = k + 1;
        }
        KeysEngine { mapping, dests, cur, last }
    }

    /// Feeds one source event.  A key event updates the current state of
    /// its mapped destination (unmapped keys are ignored); a
    /// synchronization frame flushes the coalesced differences; anything
    /// else is a no-op.  Events are only ever produced at a frame boundary.
    pub fn step(&mut self, ev: KeyEvent) -> (out: Vec<OutEvent>)
        requires
            old(self).wf(),
        ensures
            final(self).wf(),
            final(self).spec_mapping() == old(self).spec_mapping(),
            final(self).spec_dests() == old(self).spec_dests(),
            match ev {
                KeyEvent::Key { code, pressed } => {
                    &&& out@.len() == 0
                    &&& final(self).spec_last() == old(self).spec_last()
                    &&& match lookup_dest(old(self).spec_mapping(), code) {
                        Some(d) => final(self).spec_cur() == old(self).spec_cur().update(
                            find_first(old(self).spec_dests(), d),
                            pressed,
                        ),
                        None => final(self).spec_cur() == old(self).spec_cur(),
                    }
                },
                KeyEvent::SyncReport => {
                    &&& out@ == key_deltas(
                        old(self).spec_dests(),
                        old(self).spec_last(),
                        old(self).spec_cur(),
                    )
                    &&& final(self).spec_cur() == old(self).spec_cur()
                    &&& final(self).spec_last() == old(self).spec_cur()
                },
                KeyEvent::Other => {
                    &&& out@.len() == 0
                    &&& *final(self) == *old(self)
                },
            },
            // change suppression: a frame with no pending difference emits nothing
            ev == KeyEvent::SyncReport && old(self).spec_cur() == old(self).spec_last()
                ==> out@.len() == 0,
    {
        match ev {
            KeyEvent::Key { code, pressed } => {
                let idx = self.lookup_index(code);
                match idx {
                    Some(i) => {
                        self.cur.set(i, pressed);
                    },
                    None => {},
                }
                Vec::new()
            },
            KeyEvent::SyncReport => {
                let out = self.flush_deltas();
                proof {
                    if old(self).spec_cur() == old(self).spec_last() {
                        lemma_key_deltas_no_change(
                            old(self).spec_dests(),
                            old(self).spec_cur(),
                        );
                    }
                }
                out
            },
            KeyEvent::Other => Vec::new(),
        }
    }

    /// Index into the state arrays of the destination mapped from `code`.
    fn lookup_index(&self, code: u16) -> (r: Option<usize>)
        requires
            self.wf(),
        ensures
            match r {
                Some(i) => {
                    &&& lookup_dest(self.spec_mapping(), code) is Some
                    &&& i as int == find_first(
                        self.spec_dests(),
                        lookup_dest(self.spec_mapping(), code)->Some_0,
                    )
                    &&& i < self.spec_dests().len()
                },
                None => lookup_dest(self.spec_mapping(), code) is None,
            },
    {
        let mut k: usize = 0;
        proof {
            assert(self.spec_mapping().skip(0) =~= self.spec_mapping());
        }
        while k < self.mapping.len()
            invariant
                self.wf(),
                k <= self.mapping@.len(),
                lookup_dest(self.spec_mapping(), code) == lookup_dest(
                    self.spec_mapping().skip(k as int),
                    code,
                ),
            decreases self.mapping.len() - k,
        {
            let ghost rem = self.spec_mapping().skip(k as int);
            proof {
                assert(rem[0] == self.spec_mapping()[k as int]);
                assert(rem.drop_first() =~= self.spec_mapping().skip(k as int + 1));
            }
            if self.mapping[k].0 == code {
                let d = self.mapping[k].1;
                proof {
                    lemma_find_first(self.spec_dests(), d);
                }
                let i = self.find_dest_index(d);
                return Some(i);
            }
            k = k + 1;
        }
        proof {
            assert(self.spec_mapping().skip(self.spec_mapping().len() as int).len() == 0);
        }
        None
    }

    /// Position of a destination code known to be present.
    fn find_dest_index(&self, d: u16) -> (i: usize)
        requires
            self.wf(),
            find_first(self.spec_dests(), d) >= 0,
        ensures
            i as int == find_first(self.spec_dests(), d),
            i < self.spec_dests().len(),
    {
        let mut i: usize = 0;
        proof {
            lemma_find_first(self.spec_dests(), d);
        }
        while i < self.dests.len()
            invariant
                self.wf(),
                i <= self.spec_dests().len(),
                find_first(self.spec_dests(), d) >= i,
                forall|j: int| 0 <= j < i ==> self.spec_dests()[j] != d,
            decreases self.dests.len() - i,
        {
            if self.dests[i] == d {
                proof {
                    lemma_find_first_at(self.spec_dests(), d, i as int);
                }
                return i;
            }
            proof {
                lemma_find_first_past(self.spec_dests(), d, i as int);
            }
            i = i + 1;
        }
        proof {
            lemma_find_first(self.spec_dests(), d);
            assert(false);
        }
        0
    }

    /// Emits the coalesced differences and snapshots current as last.
    fn flush_deltas(&mut self) -> (out: Vec<OutEvent>)
        requires
            old(self).wf(),
        ensures
            final(self).wf(),
            final(self).spec_mapping() == old(self).spec_mapping(),
            final(self).spec_dests() == old(self).spec_dests(),
            final(self).spec_cur() == old(self).spec_cur(),
            final(self).spec_last() == old(self).spec_cur(),
            out@ == key_deltas(
                old(self).spec_dests(),
                old(self).spec_last(),
                old(self).spec_cur(),
            ),
    {
        let mut out: Vec<OutEvent> = Vec::new();
        let n = self.dests.len();
        let mut i: usize = 0;
        while i < n
            invariant
                old(self).wf(),
                *self == *old(self),
                n == self.dests@.len(),
                i <= n,
                out@ =~= key_deltas(
                    self.dests@.take(i as int),
                    self.last@.take(i as int),
                    self.cur@.take(i as int),
                ),
            decreases n - i,
        {
            proof {
                let t1 = self.dests@.take(i as int + 1);
                assert(t1.drop_last() =~= self.dests@.take(i as int));
                assert(self.last@.take(i as int + 1).drop_last() =~= self.last@.take(i as int));
                assert(self.cur@.take(i as int + 1).drop_last() =~= self.cur@.take(i as int));
            }
            if self.cur[i] != self.last[i] {
                out.push(OutEvent::Key { code: self.dests[i], pressed: self.cur[i] });
            }
            i = i + 1;
        }
        proof {
            assert(self.dests@.take(n as int) =~= self.dests@);
            assert(self.last@.take(n as int) =~= self.last@);
            assert(self.cur@.take(n as int) =~= self.cur@);
        }
        let mut newlast: Vec<bool> = Vec::new();
        let mut j: usize = 0;
        while j < self.cur.len()
            invariant
                j <= self.cur@.len(),
                newlast@ =~= self.cur@.take(j as int),
            decreases self.cur.len() - j,
        {
            newlast.push(self.cur[j]);
            j = j + 1;
            proof {
                assert(newlast@ =~= self.cur@.take(j as int));
            }
        }
        proof {
            assert(self.cur@.take(self.cur@.len() as int) =~= self.cur@);
        }
        self.last = newlast;
        out
    }
}

/// `find_first` is stable under pushing new elements.
proof fn lemma_find_first_extends(pre: Seq<u16>, post: Seq<u16>, c: u16)
    requires
        find_first(pre, c) >= 0,
        pre.len() <= post.len(),
        forall|i: int| 0 <= i < pre.len() ==> post[i] == pre[i],
    ensures
        find_first(post, c) == find_first(pre, c),
    decreases pre.len(),
{
    if pre.len() > 0 {
        if pre[0] == c {
            assert(post[0] == c);
        } else {
            assert(post[0] == pre[0]);
            lemma_find_first_extends(pre.drop_first(), post.drop_first(), c);
        }
    }
}

/// If `s[i] == c` and nothing earlier matches, the first match is `i`.
proof fn lemma_find_first_at(s: Seq<u16>, c: u16, i: int)
    requires
        0 <= i < s.len(),
        s[i] == c,
        forall|j: int| 0 <= j < i ==> s[j] != c,
    ensures
        find_first(s, c) == i,
    decreases i,
{
    if i > 0 {
        assert forall|j: int| 0 <= j < i - 1 implies s.drop_first()[j] != c by {
            assert(s.drop_first()[j] == s[j + 1]);
        }
        assert(s.drop_first()[i - 1] == s[i]);
        lemma_find_first_at(s.drop_first(), c, i - 1);
    }
}

/// A non-match at the current scan position pushes the first match past it.
proof fn lemma_find_first_past(s: Seq<u16>, c: u16, i: int)
    requires
        0 <= i < s.len(),
        s[i] != c,
        find_first(s, c) >= i,
    ensures
        find_first(s, c) >= i + 1 || find_first(s, c) < 0,
    decreases i,
{
    lemma_find_first(s, c);
    if find_first(s, c) >= 0 {
        assert(s[find_first(s, c)] == c);
    }
}

} // verus!
