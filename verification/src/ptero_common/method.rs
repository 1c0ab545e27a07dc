//! What the steganography methods report.
use vstd::prelude::*;

use crate::binary::{BitIterator, BitVec};

verus! {

/// A steganographic method: hides data in a cover of type `Cover` and reveals it back,
/// failing with `Error`. Revealing may ask of the cover what the method needs to read it
/// (`can_reveal`).
pub trait SteganographyMethod<Cover, Error> {
    type ConcealedOutput;

    /// Whether the method can read `cover`.
    spec fn can_reveal(&self, cover: Cover) -> bool;

    /// Hides the bits of `data` in `cover`.
    fn try_conceal(&mut self, cover: Cover, data: &mut BitIterator) -> Result<Self::ConcealedOutput, Error>;

    /// Reads the bits hidden in `cover`.
    fn try_reveal(&mut self, cover: Cover) -> Result<BitVec, Error>
        requires
            old(self).can_reveal(cover),
    ;
}

/// Possible results of one step of hiding data.
#[derive(Debug, Clone, Copy, PartialEq, Eq, Structural)]
pub enum MethodResult {
    /// The step hid its data; more can follow.
    Success,
    /// No data was left to hide.
    NoDataLeft,
}

/// Progress of a steganographic method, sent to the observers of its configuration
/// while hiding or revealing.
#[derive(Debug, Copy, Clone, PartialEq, Eq, Structural)]
pub enum MethodProgressStatus {
    /// Amount of data written into the cover in one step.
    DataWritten(u64),
    /// The process has been completed.
    Finished,
}

/// The amount of data that the progress events `es` report as written.
pub open spec fn written_amount(es: Seq<MethodProgressStatus>) -> int
    decreases es.len(),
{
    if es.len() == 0 {
        0
    } else {
        written_amount(es.drop_last()) + match es.last() {
            MethodProgressStatus::DataWritten(n) => n as int,
            MethodProgressStatus::Finished => 0,
        }
    }
}

/// Whether `after` is `before` followed by events that each report data written.
pub open spec fn reports_written(
    before: Seq<MethodProgressStatus>,
    after: Seq<MethodProgressStatus>,
) -> bool {
    &&& before.len() <= after.len()
    &&& after.take(before.len() as int) == before
    &&& forall|i: int| before.len() <= i < after.len() ==> #[trigger] after[i] is DataWritten
}

/// The amount of data reported as written by the events of `after` past `before`.
pub open spec fn written_since(before: Seq<MethodProgressStatus>, after: Seq<MethodProgressStatus>) -> int {
    written_amount(after.skip(before.len() as int))
}

/// Amounts reported add up over concatenation.
pub proof fn lemma_written_concat(a: Seq<MethodProgressStatus>, b: Seq<MethodProgressStatus>)
    ensures
        written_amount(a + b) == written_amount(a) + written_amount(b),
    decreases b.len(),
{
    if b.len() == 0 {
        assert(a + b =~= a);
    } else {
        lemma_written_concat(a, b.drop_last());
        assert((a + b).drop_last() =~= a + b.drop_last());
    }
}

/// No event reports nothing.
pub proof fn lemma_reports_none(e0: Seq<MethodProgressStatus>)
    ensures
        reports_written(e0, e0),
        written_since(e0, e0) == 0,
{
    assert(e0.take(e0.len() as int) =~= e0);
    assert(e0.skip(e0.len() as int) =~= Seq::<MethodProgressStatus>::empty());
}

/// One more event adds what it reports.
pub proof fn lemma_reports_step(e0: Seq<MethodProgressStatus>, e1: Seq<MethodProgressStatus>, n: u64)
    requires
        reports_written(e0, e1),
    ensures
        reports_written(e0, e1.push(MethodProgressStatus::DataWritten(n))),
        written_since(e0, e1.push(MethodProgressStatus::DataWritten(n))) == written_since(e0, e1) + n,
{
    let e2 = e1.push(MethodProgressStatus::DataWritten(n));
    assert(e2.take(e0.len() as int) =~= e1.take(e0.len() as int));
    assert(e2.skip(e0.len() as int) =~= e1.skip(e0.len() as int).push(MethodProgressStatus::DataWritten(n)));
    assert(e2.skip(e0.len() as int).drop_last() =~= e1.skip(e0.len() as int));
}

/// Reports chain: what `e0` to `e1` and `e1` to `e2` report adds up.
pub proof fn lemma_reports_chain(
    e0: Seq<MethodProgressStatus>,
    e1: Seq<MethodProgressStatus>,
    e2: Seq<MethodProgressStatus>,
)
    requires
        reports_written(e0, e1),
        reports_written(e1, e2),
    ensures
        reports_written(e0, e2),
        written_since(e0, e2) == written_since(e0, e1) + written_since(e1, e2),
{
    assert(e2.take(e0.len() as int) =~= e1.take(e0.len() as int)) by {
        assert forall|i: int| 0 <= i < e0.len() implies e2[i] == e1[i] by {
            assert(e2.take(e1.len() as int)[i] == e1[i]);
        }
    }
    assert(e2.skip(e0.len() as int) =~= e1.skip(e0.len() as int) + e2.skip(e1.len() as int)) by {
        assert forall|i: int| e0.len() <= i < e1.len() implies e2[i] == e1[i] by {
            assert(e2.take(e1.len() as int)[i] == e1[i]);
        }
    }
    lemma_written_concat(e1.skip(e0.len() as int), e2.skip(e1.len() as int));
    assert forall|i: int| e0.len() <= i < e2.len() implies #[trigger] e2[i] is DataWritten by {
        if i < e1.len() {
            assert(e2.take(e1.len() as int)[i] == e1[i]);
        }
    }
}

} // verus!
