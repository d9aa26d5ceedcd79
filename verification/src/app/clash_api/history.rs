//! The delays that were measured, by outbound.
use vstd::prelude::*;
use crate::table::Table;

verus! {

/// A measured delay.
#[derive(Clone, Copy, Debug, PartialEq, Eq, Structural)]
pub struct DelayRecord {
    /// When it was measured, in milliseconds since 1970.
    pub time_ms: u64,
    /// Milliseconds.
    pub delay: u64,
}

/// The last delay of each outbound.
pub struct DelayHistory {
    inner: Table<String, DelayRecord>,
}

impl View for DelayHistory {
    type V = Map<Seq<char>, DelayRecord>;

    closed spec fn view(&self) -> Map<Seq<char>, DelayRecord> {
        self.inner@
    }
}

impl Default for DelayHistory {
    fn default() -> (r: Self)
        ensures
            r.wf(),
            r@ == Map::<Seq<char>, DelayRecord>::empty(),
    {
        DelayHistory { inner: Table::new() }
    }
}

impl DelayHistory {
    /// No outbound occurs twice.
    pub closed spec fn wf(self) -> bool {
        self.inner.wf()
    }

    /// Notes a delay, in place of the one noted before.
    pub fn store(&mut self, tag: &str, delay: u64, now_ms: u64)
        requires
            old(self).wf(),
        ensures
            final(self).wf(),
            final(self)@ == old(self)@.insert(tag@, (DelayRecord { time_ms: now_ms, delay })),
    {
        self.inner.insert(tag.to_owned(), DelayRecord { time_ms: now_ms, delay });
    }

    /// The delay that was noted.
    pub fn load(&self, tag: &str) -> (r: Option<DelayRecord>)
        ensures
            match r {
                Some(d) => self@.contains_key(tag@) && d == self@[tag@],
                None => !self@.contains_key(tag@),
            },
    {
        match self.inner.get(&tag.to_owned()) {
            Some(d) => Some(*d),
            None => None,
        }
    }

    /// Forgets a delay.
    pub fn delete(&mut self, tag: &str)
        requires
            old(self).wf(),
        ensures
            final(self).wf(),
            final(self)@ == old(self)@.remove(tag@),
    {
        let _ = self.inner.remove(&tag.to_owned());
    }
}

/// A delay that was noted is the one that is known until it is forgotten, and
/// nothing else changes.
pub proof fn law_noted_delay_is_known(
    known: Map<Seq<char>, DelayRecord>,
    tag: Seq<char>,
    record: DelayRecord,
    other: Seq<char>,
)
    ensures
        known.insert(tag, record).contains_key(tag),
        known.insert(tag, record)[tag] == record,
        !known.insert(tag, record).remove(tag).contains_key(tag),
        other != tag ==> (known.insert(tag, record).contains_key(other) <==> known.contains_key(
            other,
        )) && known.insert(tag, record)[other] == known[other],
{
}

} // verus!
