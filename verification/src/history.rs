//! The history of what was done.
use vstd::prelude::*;
use crate::cmd::Operation;
use crate::text::texts;

verus! {

/// The file that keeps the history.
#[derive(Debug)]
pub struct HistoryFile {
    pub entries: Vec<HistoryEntry>,
    pub version: String,
}

/// One transaction.
#[derive(Debug)]
pub struct HistoryEntry {
    pub id: u32,
    pub date: String,
    pub requested_by: String,
    pub command: String,
    /// How many packages were altered.
    pub altered: u32,
    pub purged: bool,
    pub operation: Operation,
    /// The packages that the user named.
    pub explicit: Vec<String>,
    pub packages: Vec<HistoryPackage>,
}

/// A package of a transaction.
#[derive(Debug)]
pub struct HistoryPackage {
    pub name: String,
    pub version: String,
    pub old_version: Option<String>,
    pub size: u32,
    pub operation: Operation,
}

/// A history with one entry, to try the format with.
pub fn history_test() -> (r: HistoryFile)
    ensures
        r.version@ == "0.2.0"@,
        r.entries@.len() == 1,
        ({
            let entry = r.entries@[0];
            &&& entry.id == 1
            &&& entry.date@ == "2022-08-01 23:44:21 EDT"@
            &&& entry.requested_by@ == "root (0)"@
            &&& entry.command@ == "install nala"@
            &&& entry.altered == 12
            &&& !entry.purged
            &&& entry.operation == Operation::Install
            &&& texts(entry.explicit@) == seq!["nala"@, "another"@]
            &&& entry.packages@.len() == 1
            &&& entry.packages@[0].name@ == "Nala"@
            &&& entry.packages@[0].version@ == "0.12.0"@
            &&& entry.packages@[0].old_version is None
            &&& entry.packages@[0].size == 512
            &&& entry.packages@[0].operation == Operation::Install
        }),
{
    let pkg = HistoryPackage {
        name: "Nala".to_owned(),
        version: "0.12.0".to_owned(),
        old_version: None,
        size: 512,
        operation: Operation::Install,
    };
    let explicit = vec!["nala".to_owned(), "another".to_owned()];
    assert(texts(explicit@) =~= seq!["nala"@, "another"@]);
    let entry = HistoryEntry {
        id: 1,
        date: "2022-08-01 23:44:21 EDT".to_owned(),
        requested_by: "root (0)".to_owned(),
        command: "install nala".to_owned(),
        altered: 12,
        purged: false,
        operation: Operation::Install,
        explicit,
        packages: vec![pkg],
    };
    HistoryFile { entries: vec![entry], version: "0.2.0".to_owned() }
}

/// No transaction of a history has a greater number.
pub open spec fn is_newest(ids: Seq<u32>, id: int) -> bool {
    forall|i: int| 0 <= i < ids.len() ==> #[trigger] ids[i] <= id
}

/// The number of the next transaction: one more than the greatest so far.
pub open spec fn next_id(ids: Seq<u32>) -> int
    decreases ids.len(),
{
    if ids.len() == 0 {
        1
    } else {
        let before = next_id(ids.drop_last());
        if ids.last() >= before {
            ids.last() + 1
        } else {
            before
        }
    }
}

/// The number of the next transaction. The numbers end at the greatest that a
/// transaction can have.
pub fn next_history_id(ids: &Vec<u32>) -> (r: u32)
    requires
        forall|i: int| 0 <= i < ids@.len() ==> #[trigger] ids@[i] < u32::MAX,
    ensures
        r == next_id(ids@),
{
    let mut max: u32 = 0;
    let mut i: usize = 0;
    assert(ids@.take(0) =~= Seq::empty());
    while i < ids.len()
        invariant
            i <= ids@.len(),
            forall|k: int| 0 <= k < ids@.len() ==> #[trigger] ids@[k] < u32::MAX,
            max < u32::MAX,
            max + 1 == next_id(ids@.take(i as int)),
        decreases ids@.len() - i,
    {
        assert(ids@.take(i + 1).drop_last() =~= ids@.take(i as int));
        if ids[i] > max {
            max = ids[i];
        }
        i = i + 1;
    }
    assert(ids@.take(i as int) =~= ids@);
    max + 1
}

/// The number of the next transaction is greater than that of every other, and
/// no smaller one would be, unless the history is empty.
pub proof fn law_history_id_is_new(ids: Seq<u32>)
    ensures
        is_newest(ids, next_id(ids) - 1),
        next_id(ids) >= 1,
        next_id(ids) > 1 ==> exists|i: int| 0 <= i < ids.len() && #[trigger] ids[i] == next_id(ids) - 1,
    decreases ids.len(),
{
    if ids.len() > 0 {
        let front = ids.drop_last();
        law_history_id_is_new(front);
        assert forall|i: int| 0 <= i < ids.len() implies #[trigger] ids[i] <= next_id(ids) - 1 by {
            if i < front.len() {
                assert(front[i] == ids[i]);
            }
        }
        if next_id(ids) > 1 {
            if ids.last() >= next_id(front) {
                assert(ids[ids.len() - 1] == next_id(ids) - 1);
            } else {
                let i = choose|i: int| 0 <= i < front.len() && #[trigger] front[i] == next_id(front) - 1;
                assert(ids[i] == next_id(ids) - 1);
            }
        }
    }
}

/// The number of a new entry is the smallest above all that are there, and the
/// first is one.
pub proof fn law_next_number(ids: &Vec<u32>, r: u32)
    requires
        forall|i: int| 0 <= i < ids@.len() ==> #[trigger] ids@[i] < u32::MAX,
        call_ensures(next_history_id, (ids,), r),
    ensures
        !ids@.contains(r),
        forall|i: int| 0 <= i < ids@.len() ==> #[trigger] ids@[i] < r,
        r >= 1,
        r == 1 || ids@.contains((r - 1) as u32),
{
    law_history_id_is_new(ids@);
    if r > 1 {
        let i = choose|i: int| 0 <= i < ids@.len() && #[trigger] ids@[i] == next_id(ids@) - 1;
        assert(ids@[i] == (r - 1) as u32);
    }
}

} // verus!
