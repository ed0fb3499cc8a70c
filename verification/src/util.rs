//! Small helpers on slices and byte streams.

use vstd::prelude::*;

verus! {

/// The numbers of `s`, as integers.
pub open spec fn ints(s: Seq<u32>) -> Seq<int> {
    Seq::new(s.len(), |i: int| s[i] as int)
}

/// Overwrites every element of `slice` with a clone of `value`.
pub fn fill_slice<T: Clone>(slice: &mut [T], value: T)
    ensures
        final(slice)@.len() == old(slice)@.len(),
        forall|i: int| 0 <= i < final(slice)@.len() ==> cloned(value, #[trigger] final(slice)@[i]),
{
    let n: usize = slice.len();
    let mut i: usize = 0;
    while i < n
        invariant
            i <= n,
            n == slice@.len(),
            n == old(slice)@.len(),
            forall|j: int| 0 <= j < i ==> cloned(value, #[trigger] slice@[j]),
        decreases n - i,
    {
        slice[i] = value.clone();
        i += 1;
    }
}

/// Takes the next byte off the front of `data`, or answers 0 when `data` is empty.
pub fn read_byte(data: &mut &[u8]) -> (byte: u8)
    ensures
        old(data)@.len() == 0 ==> byte == 0 && final(data)@ == old(data)@,
        old(data)@.len() > 0 ==> byte == old(data)@[0] && final(data)@ == old(data)@.skip(1),
{
    let rest: &[u8] = *data;
    if rest.len() == 0 {
        0
    } else {
        *data = &rest[1..rest.len()];
        rest[0]
    }
}

/// Copies as much of `bytes` to the front of `data` as there is room for. Returns the number
/// of bytes copied and the part of `data` not written yet.
pub fn write_slice<'a>(data: &'a mut [u8], bytes: &[u8]) -> (outcome: (usize, &'a mut [u8]))
    ensures
        outcome.0 == (if bytes@.len() < old(data)@.len() {
            bytes@.len()
        } else {
            old(data)@.len()
        }),
        outcome.1@ == old(data)@.skip(outcome.0 as int),
        final(data)@ == bytes@.take(outcome.0 as int) + final(outcome.1)@,
{
    let n: usize = if bytes.len() < data.len() {
        bytes.len()
    } else {
        data.len()
    };
    let (head, rest) = data.split_at_mut(n);
    let mut i: usize = 0;
    while i < n
        invariant
            i <= n,
            n <= bytes@.len(),
            head@.len() == n,
            forall|j: int| 0 <= j < i ==> #[trigger] head@[j] == bytes@[j],
        decreases n - i,
    {
        head[i] = bytes[i];
        i += 1;
    }
    assert(head@ =~= bytes@.take(n as int));
    (n, rest)
}

/// Writes one byte to the front of `data`. Returns the number of bytes written, 0 when `data`
/// is empty, and the part of `data` not written yet.
pub fn write_byte<'a>(data: &'a mut [u8], byte: u8) -> (outcome: (usize, &'a mut [u8]))
    ensures
        old(data)@.len() == 0 ==> {
            &&& outcome.0 == 0
            &&& outcome.1@ == old(data)@
            &&& final(data)@ == final(outcome.1)@
        },
        old(data)@.len() > 0 ==> {
            &&& outcome.0 == 1
            &&& outcome.1@ == old(data)@.skip(1)
            &&& final(data)@ == seq![byte] + final(outcome.1)@
        },
{
    let bytes: [u8; 1] = [byte];
    assert(bytes@ =~= seq![byte]);
    let outcome = write_slice(data, &bytes);
    assert(bytes@.take(0) + final(outcome.1)@ =~= final(outcome.1)@);
    assert(bytes@.take(1) =~= seq![byte]);
    outcome
}

/// The number of bytes written, if the write succeeded and took all of the `requested` bytes.
pub fn write_outcome<E>(outcome: Result<usize, E>, requested: usize) -> (written: Option<usize>)
    ensures
        written == (match outcome {
            Ok(count) => if count == requested {
                Some(count)
            } else {
                None
            },
            Err(_) => None,
        }),
{
    match outcome {
        Ok(count) => {
            if count == requested {
                Some(count)
            } else {
                None
            }
        },
        Err(_) => None,
    }
}

/// Writes `bytes` to the front of `data`. Returns the number of bytes written, or `None` when
/// there is no room for all of them, and the part of `data` not written yet. What there is
/// room for is written in any case.
pub fn write_exact<'a>(data: &'a mut [u8], bytes: &[u8]) -> (outcome: (
    Option<usize>,
    &'a mut [u8],
))
    ensures
        bytes@.len() <= old(data)@.len() ==> {
            &&& outcome.0 == Some(bytes@.len() as usize)
            &&& outcome.1@ == old(data)@.skip(bytes@.len() as int)
            &&& final(data)@ == bytes@ + final(outcome.1)@
        },
        bytes@.len() > old(data)@.len() ==> {
            &&& outcome.0 is None
            &&& outcome.1@.len() == 0
            &&& final(data)@ == bytes@.take(old(data)@.len() as int) + final(outcome.1)@
        },
{
    let requested: usize = bytes.len();
    let (count, rest) = write_slice(data, bytes);
    assert(bytes@.take(bytes@.len() as int) =~= bytes@);
    let outcome: Result<usize, ()> = Ok(count);
    (write_outcome(outcome, requested), rest)
}

} // verus!
