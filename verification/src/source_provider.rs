//! What the source provider returned: for each source identifier that was
//! fetched, the markup or the error. Fetching itself happens outside this
//! library; the layout system is handed the outcomes.

use vstd::prelude::*;
use crate::ascii::copy_bytes;
use crate::ascii::same_bytes;

verus! {

/// A failed fetch, as the provider described it.
#[derive(Debug, PartialEq, Eq)]
pub struct IoError {
    pub message: Vec<u8>,
}

impl View for IoError {
    type V = Seq<u8>;

    open spec fn view(&self) -> Seq<u8> {
        self.message@
    }
}

impl Clone for IoError {
    fn clone(&self) -> (r: Self)
        ensures
            r@ == self@,
    {
        IoError { message: copy_bytes(self.message.as_slice()) }
    }
}

/// The outcome of one fetch.
#[derive(Debug, PartialEq, Eq)]
pub struct Fetched {
    pub source_id: Vec<u8>,
    pub outcome: Result<Vec<u8>, IoError>,
}

/// The mathematical value of a `Fetched`: the markup, or the error's message.
pub struct FetchedView {
    pub source_id: Seq<u8>,
    pub outcome: Result<Seq<u8>, Seq<u8>>,
}

impl View for Fetched {
    type V = FetchedView;

    open spec fn view(&self) -> FetchedView {
        FetchedView {
            source_id: self.source_id@,
            outcome: match self.outcome {
                Ok(markup) => Ok(markup@),
                Err(error) => Err(error@),
            },
        }
    }
}

/// The outcomes of the fetches made for one build, in the order in which they
/// were recorded.
#[derive(Debug, PartialEq, Eq)]
pub struct FetchedSources {
    records: Vec<Fetched>,
}

impl View for FetchedSources {
    type V = Seq<FetchedView>;

    closed spec fn view(&self) -> Seq<FetchedView> {
        Seq::new(self.records@.len(), |i: int| self.records@[i]@)
    }
}

/// The outcome recorded for a source: the last one, where it was fetched more
/// than once; `None` where it was not fetched.
pub open spec fn latest(records: Seq<FetchedView>, source_id: Seq<u8>) -> Option<
    Result<Seq<u8>, Seq<u8>>,
>
    decreases records.len(),
{
    if records.len() == 0 {
        None
    } else if records.last().source_id == source_id {
        Some(records.last().outcome)
    } else {
        latest(records.drop_last(), source_id)
    }
}

impl FetchedSources {
    /// No fetch made yet.
    pub fn new() -> (r: FetchedSources)
        ensures
            r@ == Seq::<FetchedView>::empty(),
    {
        let r = FetchedSources { records: Vec::new() };
        assert(r@ =~= Seq::<FetchedView>::empty());
        r
    }

    /// Records what fetching `source_id` gave.
    pub fn record(&mut self, source_id: &[u8], outcome: Result<Vec<u8>, IoError>)
        ensures
            final(self)@ == old(self)@.push(
                FetchedView {
                    source_id: source_id@,
                    outcome: match outcome {
                        Ok(markup) => Ok(markup@),
                        Err(error) => Err(error@),
                    },
                },
            ),
    {
        let fetched = Fetched { source_id: copy_bytes(source_id), outcome };
        let ghost before = self@;
        self.records.push(fetched);
        assert(self@ =~= before.push(fetched@));
    }

    /// The outcome recorded for `source_id`.
    pub fn get(&self, source_id: &[u8]) -> (r: Option<&Result<Vec<u8>, IoError>>)
        ensures
            match r {
                Some(Ok(markup)) => latest(self@, source_id@) == Some(
                    Ok::<Seq<u8>, Seq<u8>>(markup@),
                ),
                Some(Err(error)) => latest(self@, source_id@) == Some(
                    Err::<Seq<u8>, Seq<u8>>(error@),
                ),
                None => latest(self@, source_id@) is None,
            },
    {
        let ghost all = self@;
        let mut i: usize = self.records.len();
        assert(all.subrange(0, i as int) =~= all);
        while i > 0
            invariant
                i <= self.records.len(),
                all == self@,
                latest(all, source_id@) == latest(all.subrange(0, i as int), source_id@),
            decreases i,
        {
            proof {
                let prefix = all.subrange(0, i as int);
                assert(prefix.last() == self.records@[i - 1]@);
                assert(prefix.drop_last() =~= all.subrange(0, i - 1));
            }
            if same_bytes(self.records[i - 1].source_id.as_slice(), source_id) {
                return Some(&self.records[i - 1].outcome);
            }
            i -= 1;
        }
        proof {
            assert(all.subrange(0, 0).len() == 0);
        }
        None
    }
}

} // verus!
