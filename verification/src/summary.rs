//! Counting the records of a dump by type.

use crate::cursor::{DumpRecordFile, RecordCursor};
use crate::error::DumpError;
use crate::framing::{records, well_framed};
use crate::message::{get_msg_type, htype_of, label_of, try_parse};
use vstd::prelude::*;

verus! {

/// How many of `payloads` carry the type label `label`.
pub open spec fn count_label(payloads: Seq<Seq<u8>>, label: Seq<char>) -> nat
    decreases payloads.len(),
{
    if payloads.len() == 0 {
        0
    } else {
        count_label(payloads.drop_last(), label) + if label_of(payloads.last()) == label {
            1nat
        } else {
            0nat
        }
    }
}

/// The counts of all labels that occur, as a map from label to count.
pub open spec fn label_counts(payloads: Seq<Seq<u8>>) -> Map<Seq<char>, nat> {
    Map::new(
        |label: Seq<char>| count_label(payloads, label) > 0,
        |label: Seq<char>| count_label(payloads, label),
    )
}

/// One header, one configuration and `images` quadruples, in each of which
/// the third record, the raw image, is the only one that classifies as binary.
pub open spec fn is_acquisition(payloads: Seq<Seq<u8>>, images: nat) -> bool {
    &&& payloads.len() == 2 + 4 * images
    &&& htype_of(payloads[0]) == Some("dheader-1.0"@)
    &&& label_of(payloads[1]) != "<binary>"@
    &&& forall|k: int|
        0 <= k < images ==> {
            &&& label_of(#[trigger] payloads[2 + 4 * k]) != "<binary>"@
            &&& label_of(payloads[2 + 4 * k + 1]) != "<binary>"@
            &&& label_of(payloads[2 + 4 * k + 2]) == "<binary>"@
            &&& label_of(payloads[2 + 4 * k + 3]) != "<binary>"@
        }
}

/// No label is counted more often than there are records.
pub proof fn lemma_count_label_bound(payloads: Seq<Seq<u8>>, label: Seq<char>)
    ensures
        count_label(payloads, label) <= payloads.len(),
    decreases payloads.len(),
{
    if payloads.len() > 0 {
        lemma_count_label_bound(payloads.drop_last(), label);
    }
}

/// Counting one record more adds one to the count of its label and nothing
/// to any other.
pub proof fn lemma_count_label_step(payloads: Seq<Seq<u8>>, n: int, label: Seq<char>)
    requires
        0 <= n < payloads.len(),
    ensures
        count_label(payloads.take(n + 1), label) == count_label(payloads.take(n), label) + if
            label_of(payloads[n]) == label {
            1nat
        } else {
            0nat
        },
{
    assert(payloads.take(n + 1).drop_last() =~= payloads.take(n));
}

/// In an acquisition the count under `"<binary>"` is the number of image
/// quadruples.
pub proof fn lemma_binary_count_is_images(payloads: Seq<Seq<u8>>, images: nat)
    requires
        is_acquisition(payloads, images),
    ensures
        count_label(payloads, "<binary>"@) == images,
    decreases images,
{
    let binary = "<binary>"@;
    assert(payloads.take(payloads.len() as int) =~= payloads);
    if images == 0 {
        reveal_strlit("<binary>");
        reveal_strlit("dheader-1.0");
        assert("dheader-1.0"@.len() != binary.len());
        assert(label_of(payloads[0]) == "dheader-1.0"@);
        assert(payloads.take(0) =~= Seq::<Seq<u8>>::empty());
        lemma_count_label_step(payloads, 0, binary);
        lemma_count_label_step(payloads, 1, binary);
    } else {
        let before = (images - 1) as nat;
        let cut: int = 2 + 4 * (images - 1);
        let shorter = payloads.take(cut);
        assert(is_acquisition(shorter, before)) by {
            assert forall|k: int| 0 <= k < before implies {
                &&& label_of(#[trigger] shorter[2 + 4 * k]) != binary
                &&& label_of(shorter[2 + 4 * k + 1]) != binary
                &&& label_of(shorter[2 + 4 * k + 2]) == binary
                &&& label_of(shorter[2 + 4 * k + 3]) != binary
            } by {
                assert(shorter[2 + 4 * k] == payloads[2 + 4 * k]);
            }
        }
        lemma_binary_count_is_images(shorter, before);
        assert(payloads[2 + 4 * (images - 1)] == payloads[cut]);
        lemma_count_label_step(payloads, cut, binary);
        lemma_count_label_step(payloads, cut + 1, binary);
        lemma_count_label_step(payloads, cut + 2, binary);
        lemma_count_label_step(payloads, cut + 3, binary);
    }
}

/// The count kept for `label` in two parallel lists: the count beside the
/// label where it is listed, and zero where it is not.
pub open spec fn tally_of(labels: Seq<String>, counts: Seq<usize>, label: Seq<char>) -> nat {
    if exists|i: int| 0 <= i < labels.len() && labels[i]@ == label {
        let i = choose|i: int| 0 <= i < labels.len() && labels[i]@ == label;
        counts[i] as nat
    } else {
        0
    }
}

/// No label is listed twice.
pub open spec fn distinct_labels(labels: Seq<String>) -> bool {
    forall|i: int, j: int|
        0 <= i < labels.len() && 0 <= j < labels.len() && labels[i]@ == labels[j]@ ==> i == j
}

/// Where no label is listed twice, the count of a listed label is the one
/// beside it.
proof fn lemma_tally_at(labels: Seq<String>, counts: Seq<usize>, i: int)
    requires
        distinct_labels(labels),
        0 <= i < labels.len(),
    ensures
        tally_of(labels, counts, labels[i]@) == counts[i],
{
}

/// The type labels met in a dump, each with the number of records that carry
/// it, and the number of records in all. No label is held twice and none
/// with a count of zero.
#[derive(Debug)]
pub struct Summary {
    labels: Vec<String>,
    counts: Vec<usize>,
    messages: usize,
}

impl View for Summary {
    type V = Map<Seq<char>, nat>;

    /// The summary as a map from label to count.
    closed spec fn view(&self) -> Map<Seq<char>, nat> {
        Map::new(|label: Seq<char>| self.tally(label) > 0, |label: Seq<char>| self.tally(label))
    }
}

impl Summary {
    /// The count kept for `label`; zero for a label that was never met.
    pub closed spec fn tally(&self, label: Seq<char>) -> nat {
        tally_of(self.labels@, self.counts@, label)
    }

    /// The labels that are listed.
    pub closed spec fn listed(&self) -> Seq<String> {
        self.labels@
    }

    /// The number of records that were counted.
    pub closed spec fn messages(&self) -> nat {
        self.messages as nat
    }

    /// Well-formedness: a count beside every label, no label twice, no count
    /// of zero.
    pub closed spec fn wf(&self) -> bool {
        &&& self.labels@.len() == self.counts@.len()
        &&& distinct_labels(self.labels@)
        &&& forall|i: int| 0 <= i < self.counts@.len() ==> self.counts@[i] > 0
    }

    /// The view maps exactly the labels with a count to that count.
    pub proof fn lemma_view(&self, label: Seq<char>)
        ensures
            self@.contains_key(label) == (self.tally(label) > 0),
            self@.contains_key(label) ==> self@[label] == self.tally(label),
    {
    }

    /// The labels listed are those with a count, and none is listed twice.
    pub proof fn lemma_listed(&self, label: Seq<char>)
        requires
            self.wf(),
        ensures
            self.tally(label) > 0 <==> exists|i: int|
                0 <= i < self.listed().len() && self.listed()[i]@ == label,
            distinct_labels(self.listed()),
    {
        let labels = self.labels@;
        let counts = self.counts@;
        assert(self.listed() == labels);
        if exists|i: int| 0 <= i < labels.len() && labels[i]@ == label {
            let i = choose|i: int| 0 <= i < labels.len() && labels[i]@ == label;
            lemma_tally_at(labels, counts, i);
            assert(counts[i] > 0);
            assert(self.tally(label) > 0);
        } else {
            assert(self.tally(label) == 0);
        }
    }

    /// The summary of no records.
    pub fn new() -> (summary: Self)
        ensures
            summary.wf(),
            summary.messages() == 0,
            summary.listed().len() == 0,
            forall|label: Seq<char>| summary.tally(label) == 0,
    {
        Summary { labels: Vec::new(), counts: Vec::new(), messages: 0 }
    }

    /// The number of records that were counted.
    pub fn total(&self) -> (n: usize)
        ensures
            n == self.messages(),
    {
        self.messages
    }

    /// The number of different labels.
    pub fn len(&self) -> (n: usize)
        ensures
            n == self.listed().len(),
    {
        self.labels.len()
    }

    /// The `i`-th label that is listed.
    pub fn msg_type(&self, i: usize) -> (label: &String)
        requires
            i < self.listed().len(),
        ensures
            *label == self.listed()[i as int],
    {
        &self.labels[i]
    }

    /// The count beside the `i`-th label.
    pub fn count(&self, i: usize) -> (n: usize)
        requires
            self.wf(),
            i < self.listed().len(),
        ensures
            n > 0,
            n == self.tally(self.listed()[i as int]@),
    {
        proof {
            lemma_tally_at(self.labels@, self.counts@, i as int);
        }
        self.counts[i]
    }

    /// The count for `msg_type`, or `None` for a label that was never met.
    pub fn get(&self, msg_type: &str) -> (found: Option<usize>)
        requires
            self.wf(),
        ensures
            match found {
                Some(n) => n > 0 && n == self.tally(msg_type@),
                None => self.tally(msg_type@) == 0,
            },
    {
        let wanted = msg_type.to_owned();
        let mut i: usize = 0;
        while i < self.labels.len()
            invariant
                self.wf(),
                wanted@ == msg_type@,
                i <= self.labels@.len(),
                forall|j: int| 0 <= j < i ==> self.labels@[j]@ != msg_type@,
            decreases self.labels@.len() - i,
        {
            if self.labels[i] == wanted {
                proof {
                    lemma_tally_at(self.labels@, self.counts@, i as int);
                }
                return Some(self.counts[i]);
            }
            i = i + 1;
        }
        None
    }

    /// Counts one more record under `label`.
    fn add(&mut self, label: String)
        requires
            old(self).wf(),
            old(self).messages() < usize::MAX,
            forall|other: Seq<char>| old(self).tally(other) <= old(self).messages(),
        ensures
            final(self).wf(),
            final(self).messages() == old(self).messages() + 1,
            forall|other: Seq<char>|
                #[trigger] final(self).tally(other) == old(self).tally(other) + if other
                    == label@ {
                    1nat
                } else {
                    0nat
                },
    {
        self.messages = self.messages + 1;
        let ghost labels0 = self.labels@;
        let ghost counts0 = self.counts@;
        let mut i: usize = 0;
        while i < self.labels.len()
            invariant
                self.labels@ == labels0,
                self.counts@ == counts0,
                old(self).labels@ == labels0,
                old(self).counts@ == counts0,
                self.messages == old(self).messages + 1,
                labels0.len() == counts0.len(),
                distinct_labels(labels0),
                forall|j: int| 0 <= j < counts0.len() ==> counts0[j] > 0,
                forall|other: Seq<char>| old(self).tally(other) <= old(self).messages(),
                i <= labels0.len(),
                forall|j: int| 0 <= j < i ==> labels0[j]@ != label@,
            decreases labels0.len() - i,
        {
            if self.labels[i] == label {
                let seen = self.counts[i];
                proof {
                    lemma_tally_at(labels0, counts0, i as int);
                    assert(old(self).tally(label@) == seen);
                }
                self.counts.set(i, seen + 1);
                proof {
                    let counts1 = self.counts@;
                    assert forall|other: Seq<char>|
                        #[trigger] tally_of(labels0, counts1, other) == tally_of(
                            labels0,
                            counts0,
                            other,
                        ) + if other == label@ {
                            1nat
                        } else {
                            0nat
                        } by {
                        if other == label@ {
                            lemma_tally_at(labels0, counts1, i as int);
                        } else if exists|j: int| 0 <= j < labels0.len() && labels0[j]@ == other {
                            let j = choose|j: int| 0 <= j < labels0.len() && labels0[j]@ == other;
                            assert(j != i);
                        }
                    }
                }
                return ;
            }
            i = i + 1;
        }
        self.labels.push(label);
        self.counts.push(1);
        proof {
            let labels1 = self.labels@;
            let counts1 = self.counts@;
            let last = labels0.len() as int;
            assert(labels1[last]@ == label@);
            assert(distinct_labels(labels1)) by {
                assert forall|a: int, b: int|
                    0 <= a < labels1.len() && 0 <= b < labels1.len() && labels1[a]@
                        == labels1[b]@ implies a == b by {
                    if a < last && b < last {
                        assert(labels0[a]@ == labels0[b]@);
                    }
                }
            }
            assert forall|other: Seq<char>|
                #[trigger] tally_of(labels1, counts1, other) == tally_of(labels0, counts0, other)
                    + if other == label@ {
                    1nat
                } else {
                    0nat
                } by {
                if other == label@ {
                    lemma_tally_at(labels1, counts1, last);
                } else if exists|j: int| 0 <= j < labels0.len() && labels0[j]@ == other {
                    let j = choose|j: int| 0 <= j < labels0.len() && labels0[j]@ == other;
                    assert(labels1[j]@ == other);
                    lemma_tally_at(labels1, counts1, j);
                    lemma_tally_at(labels0, counts0, j);
                } else {
                    if exists|j: int| 0 <= j < labels1.len() && labels1[j]@ == other {
                        let j = choose|j: int| 0 <= j < labels1.len() && labels1[j]@ == other;
                        assert(j < last);
                        assert(labels0[j]@ == other);
                    }
                }
            }
        }
    }
}

/// Reads every record of the dump once and counts it under its type label.
/// A dump that is not records from end to end is a framing error.
pub fn get_summary(file: &DumpRecordFile) -> (summed: Result<Summary, DumpError>)
    ensures
        match summed {
            Ok(summary) => {
                &&& well_framed(file@)
                &&& summary.wf()
                &&& summary.messages() == records(file@).len()
                &&& summary@ == label_counts(records(file@))
                &&& forall|label: Seq<char>|
                    #[trigger] summary.tally(label) == count_label(records(file@), label)
            },
            Err(e) => e == DumpError::Framing && !well_framed(file@),
        },
{
    let mut cursor = file.get_cursor();
    let mut summary = Summary::new();
    let ghost all = records(file@);
    assert(all.take(0) =~= Seq::<Seq<u8>>::empty());
    while !cursor.is_at_end()
        invariant
            cursor.wf(),
            cursor.source() == file@,
            all == records(file@),
            summary.wf(),
            summary.messages() == cursor.index(),
            forall|label: Seq<char>|
                #[trigger] summary.tally(label) == count_label(
                    all.take(cursor.index() as int),
                    label,
                ),
        decreases all.len() - cursor.index(),
    {
        let ghost n = cursor.index() as int;
        match cursor.read_raw_msg() {
            Err(_) => {
                return Err(DumpError::Framing);
            },
            Ok(raw_msg) => {
                let value = try_parse(raw_msg);
                let msg_type = get_msg_type(&value);
                proof {
                    cursor.lemma_index_fits();
                    assert forall|label: Seq<char>|
                        summary.tally(label) <= summary.messages() by {
                        lemma_count_label_bound(all.take(n), label);
                    }
                    assert forall|label: Seq<char>|
                        count_label(all.take(n + 1), label) == count_label(all.take(n), label)
                            + if label == msg_type@ {
                            1nat
                        } else {
                            0nat
                        } by {
                        lemma_count_label_step(all, n, label);
                    }
                }
                summary.add(msg_type);
            },
        }
    }
    proof {
        assert(all.take(all.len() as int) =~= all);
        assert(summary@ =~= label_counts(all));
    }
    Ok(summary)
}

} // verus!
