//! The choice of the log file to continue after a restart, and of the
//! file to create when none is open.
use vstd::prelude::*;

verus! {

/// The position of the log file to continue: the first of those with the
/// greatest sequence number, none where there is no file.
pub fn latest_file_position(seq_nos: &[u32]) -> (r: Option<usize>)
    ensures
        r is None <==> seq_nos@.len() == 0,
        r matches Some(i) ==> i < seq_nos@.len() && (forall|j: int|
            0 <= j < seq_nos@.len() ==> seq_nos@[j] <= seq_nos@[i as int]) && (forall|j: int|
            0 <= j < i ==> seq_nos@[j] < seq_nos@[i as int]),
{
    let mut latest: Option<usize> = None;
    let mut k: usize = 0;
    while k < seq_nos.len()
        invariant
            k <= seq_nos@.len(),
            latest is None <==> k == 0,
            latest matches Some(i) ==> i < k && (forall|j: int|
                0 <= j < k ==> seq_nos@[j] <= seq_nos@[i as int]) && (forall|j: int|
                0 <= j < i ==> seq_nos@[j] < seq_nos@[i as int]),
        decreases seq_nos@.len() - k,
    {
        let take = match latest {
            None => true,
            Some(i) => seq_nos[k] > seq_nos[i],
        };
        if take {
            latest = Some(k);
        }
        k = k + 1;
    }
    latest
}

/// The sequence number of the log file created where there is none.
pub const FIRST_SEQ_NO: u32 = 1;

/// The log file to start with: the latest file, where there is one, is
/// continued (`false`); else a file numbered `FIRST_SEQ_NO` is created
/// (`true`).
pub fn start_file(latest_seq_no: Option<u32>) -> (r: (u32, bool))
    ensures
        r == match latest_seq_no {
            Some(n) => (n, false),
            None => (FIRST_SEQ_NO, true),
        },
{
    match latest_seq_no {
        Some(n) => (n, false),
        None => (FIRST_SEQ_NO, true),
    }
}

/// The file that a write must create first: none where a file is open,
/// else the one numbered past the greatest number so far.
pub fn file_to_create(has_current: bool, max_seq_no: u32) -> (r: Option<u32>)
    requires
        !has_current ==> max_seq_no < u32::MAX,
    ensures
        r == if has_current {
            None::<u32>
        } else {
            Some((max_seq_no + 1) as u32)
        },
{
    if has_current {
        None
    } else {
        Some(max_seq_no + 1)
    }
}

} // verus!
