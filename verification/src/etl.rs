use vstd::prelude::*;

verus! {

/// A record as it arrives, before cleaning.
pub struct RawData {
    pub id: u32,
    pub value: i32,
}

/// A record after cleaning: its value lies in the range 0 ..= 100.
pub struct CleanData {
    pub id: u32,
    pub value: i32,
}

/// What cleaning does to one value: clamp it into 0 ..= 100.
pub open spec fn clamp_value(v: i32) -> i32 {
    if v < 0 {
        0i32
    } else if v > 100 {
        100i32
    } else {
        v
    }
}

/// What cleaning does to one record: the id is kept, the value clamped.
pub open spec fn clean_one(r: RawData) -> CleanData {
    CleanData { id: r.id, value: clamp_value(r.value) }
}

/// Clean a batch of raw records: every record comes out with its id kept
/// and its value clamped into 0 ..= 100, in the order it came in.
pub fn extract_transform_load(raw: Vec<RawData>) -> (cleaned: Vec<CleanData>)
    ensures
        cleaned@.len() == raw@.len(),
        forall|i: int| 0 <= i < raw@.len() ==> #[trigger] cleaned@[i] == clean_one(raw@[i]),
{
    let mut cleaned: Vec<CleanData> = Vec::new();
    let mut k: usize = 0;
    while k < raw.len()
        invariant
            k <= raw@.len(),
            cleaned@.len() == k,
            forall|i: int| 0 <= i < k ==> #[trigger] cleaned@[i] == clean_one(raw@[i]),
        decreases raw@.len() - k,
    {
        let r = &raw[k];
        let value: i32 = if r.value < 0 {
            0
        } else if r.value > 100 {
            100
        } else {
            r.value
        };
        cleaned.push(CleanData { id: r.id, value });
        k += 1;
    }
    cleaned
}

/// Sum of the values of the first `u` records.
pub open spec fn total_of(s: Seq<CleanData>, u: int) -> int
    decreases u,
{
    if u <= 0 {
        0
    } else {
        total_of(s, u - 1) + s[u - 1].value
    }
}

/// The exact total of a batch's values, in an integer wide enough that no
/// batch a machine can hold overflows it.
pub fn clean_total(cleaned: &Vec<CleanData>) -> (t: i128)
    ensures
        t == total_of(cleaned@, cleaned@.len() as int),
{
    let mut t: i128 = 0;
    let mut k: usize = 0;
    while k < cleaned.len()
        invariant
            k <= cleaned@.len(),
            t == total_of(cleaned@, k as int),
            -0x8000_0000 * (k as int) <= t <= 0x8000_0000 * (k as int),
        decreases cleaned@.len() - k,
    {
        t += cleaned[k].value as i128;
        k += 1;
    }
    t
}

} // verus!
