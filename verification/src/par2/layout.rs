//! The files of a recovery set: an index and volumes, each of which holds twice
//! as many recovery slices as the one before.

use vstd::prelude::*;
use vstd::string::*;

use crate::chars;
use crate::reading;
use crate::scan;
use crate::text;

verus! {

/// A volume file: `count` recovery slices from exponent `first` on.
#[derive(Debug, Clone, Copy, PartialEq, Eq, Structural)]
pub struct Volume {
    pub first: u32,
    pub count: u32,
}

impl Volume {
    /// The volume holds the slice of an exponent.
    pub open spec fn holds(self, exponent: u32) -> bool {
        self.first <= exponent < self.first + self.count
    }
}

/// The file name of the index.
pub fn index_name(base: &str) -> (name: String)
    ensures
        name@ == base@ + ".par2"@,
{
    let mut name: String = String::from_str(base);
    name.append(".par2");
    name
}

/// The file name of a volume.
pub fn volume_name(base: &str, volume: Volume) -> (name: String)
    ensures
        name@ == base@ + ".vol"@ + text::zero_padded(volume.first as nat, 2) + "+"@
            + text::zero_padded(volume.count as nat, 2) + ".par2"@,
        names_volume(name@, base@, volume),
{
    let mut name: String = String::from_str(base);
    name.append(".vol");
    text::push_zero_padded(&mut name, volume.first as u64, 2);
    name.append("+");
    text::push_zero_padded(&mut name, volume.count as u64, 2);
    name.append(".par2");
    proof {
        lemma_names_volume(base@, volume);
    }
    name
}

/// A reader of a file name finds, behind the base and ".vol", the first exponent of
/// the volume, and behind a plus sign the number of its slices.
pub open spec fn names_volume(name: Seq<char>, base: Seq<char>, volume: Volume) -> bool {
    let front = base + ".vol"@;
    let figures = name.skip(front.len() as int);
    &&& scan::starts_with(name, front)
    &&& reading::ends_with(name, ".par2"@)
    &&& scan::digits_value(reading::head(figures, '+')) == volume.first
    &&& scan::digits_value(reading::head(reading::tail(figures, '+'), '.')) == volume.count
}

proof fn lemma_names_volume(base: Seq<char>, volume: Volume)
    ensures
        names_volume(
            base + ".vol"@ + text::zero_padded(volume.first as nat, 2) + "+"@ + text::zero_padded(
                volume.count as nat,
                2,
            ) + ".par2"@,
            base,
            volume,
        ),
{
    reveal_strlit(".vol");
    reveal_strlit("+");
    reveal_strlit(".par2");
    let a = text::zero_padded(volume.first as nat, 2);
    let b = text::zero_padded(volume.count as nat, 2);
    reading::law_padded_decimals_read_back(volume.first as nat, 2);
    reading::law_padded_decimals_read_back(volume.count as nat, 2);
    let front = base + ".vol"@;
    let name = front + a + "+"@ + b + ".par2"@;
    let figures = name.skip(front.len() as int);
    let end = seq!['p', 'a', 'r', '2'];
    assert(name.subrange(0, front.len() as int) =~= front);
    assert(name.skip(name.len() - 5) =~= ".par2"@);
    assert(figures =~= a + seq!['+'] + (b + seq!['.'] + end));
    assert forall|i: int| 0 <= i < a.len() implies #[trigger] a[i] != '+' by {
        assert(chars::is_digit(a[i]));
    }
    assert forall|i: int| 0 <= i < b.len() implies #[trigger] b[i] != '.' by {
        assert(chars::is_digit(b[i]));
    }
    reading::lemma_parts(a, '+', b + seq!['.'] + end);
    reading::lemma_parts(b, '.', end);
}

/// Volumes with the same name are the same.
pub proof fn law_volume_names_tell_volumes_apart(
    name: Seq<char>,
    base: Seq<char>,
    a: Volume,
    b: Volume,
)
    requires
        names_volume(name, base, a),
        names_volume(name, base, b),
    ensures
        a == b,
{
}

/// The volumes hold the slices below `end` one after the other, and none is
/// empty.
pub open spec fn tile(volumes: Seq<Volume>, end: nat) -> bool
    decreases volumes.len(),
{
    if volumes.len() == 0 {
        end == 0
    } else {
        let last = volumes.last();
        last.count > 0 && last.first + last.count == end && tile(
            volumes.drop_last(),
            last.first as nat,
        )
    }
}

/// Every volume but the last holds twice as many slices as the one before, the
/// first one a single slice.
pub open spec fn doubles(volumes: Seq<Volume>) -> bool {
    forall|i: int|
        0 <= i < volumes.len() - 1 ==> (#[trigger] volumes[i]).count
            == vstd::arithmetic::power2::pow2(i as nat)
}

/// Split `total` recovery slices into volumes.
pub fn plan_volumes(total: u32) -> (volumes: Vec<Volume>)
    ensures
        tile(volumes@, total as nat),
        doubles(volumes@),
        volumes@.len() > 0 ==> volumes@.last().count <= vstd::arithmetic::power2::pow2(
            (volumes@.len() - 1) as nat,
        ),
{
    let mut volumes: Vec<Volume> = Vec::new();
    let mut first: u32 = 0;
    let mut size: u64 = 1;
    proof {
        vstd::arithmetic::power2::lemma2_to64();
    }
    while first < total
        invariant
            first <= total,
            tile(volumes@, first as nat),
            size == vstd::arithmetic::power2::pow2(volumes@.len()),
            size <= first + 1 || first == total,
            size <= 0x2_0000_0000,
            first < total ==> forall|i: int|
                0 <= i < volumes@.len() ==> (#[trigger] volumes@[i]).count
                    == vstd::arithmetic::power2::pow2(i as nat),
            doubles(volumes@),
            volumes@.len() > 0 ==> volumes@.last().count <= vstd::arithmetic::power2::pow2(
                (volumes@.len() - 1) as nat,
            ),
        decreases total - first,
    {
        let rest: u32 = total - first;
        let count: u32 = if size < rest as u64 {
            size as u32
        } else {
            rest
        };
        proof {
            vstd::arithmetic::power2::lemma_pow2_pos(volumes@.len());
            vstd::arithmetic::power2::lemma_pow2_unfold(volumes@.len() + 1);
        }
        let ghost before = volumes@;
        volumes.push(Volume { first, count });
        proof {
            assert(volumes@.drop_last() =~= before);
            assert forall|i: int| 0 <= i < volumes@.len() - 1 implies (#[trigger] volumes@[i]).count
                == vstd::arithmetic::power2::pow2(i as nat) by {
                assert(volumes@[i] == before[i]);
            }
        }
        first = first + count;
        size = size * 2;
    }
    volumes
}

proof fn lemma_volume_of(volumes: Seq<Volume>, end: nat, exponent: u32)
    requires
        tile(volumes, end),
        exponent < end,
    ensures
        exists|i: int| 0 <= i < volumes.len() && (#[trigger] volumes[i]).holds(exponent),
    decreases volumes.len(),
{
    let last = volumes.last();
    if exponent >= last.first {
        assert(volumes[volumes.len() - 1].holds(exponent));
    } else {
        lemma_volume_of(volumes.drop_last(), last.first as nat, exponent);
        let i = choose|i: int|
            0 <= i < volumes.drop_last().len() && (#[trigger] volumes.drop_last()[i]).holds(
                exponent,
            );
        assert(volumes[i].holds(exponent));
    }
}

proof fn lemma_before_end(volumes: Seq<Volume>, end: nat, i: int)
    requires
        tile(volumes, end),
        0 <= i < volumes.len(),
    ensures
        volumes[i].first + volumes[i].count <= end,
    decreases volumes.len(),
{
    if i < volumes.len() - 1 {
        lemma_before_end(volumes.drop_last(), volumes.last().first as nat, i);
        assert(volumes.drop_last()[i] == volumes[i]);
    }
}

/// Every recovery slice goes to exactly one volume.
pub proof fn law_every_slice_has_one_volume(volumes: Seq<Volume>, total: nat, exponent: u32)
    requires
        tile(volumes, total),
        exponent < total,
    ensures
        exists|i: int| 0 <= i < volumes.len() && (#[trigger] volumes[i]).holds(exponent),
        forall|i: int, j: int|
            0 <= i < j < volumes.len() ==> !((#[trigger] volumes[i]).holds(exponent) && (
            #[trigger] volumes[j]).holds(exponent)),
    decreases volumes.len(),
{
    lemma_volume_of(volumes, total, exponent);
    assert forall|i: int, j: int| 0 <= i < j < volumes.len() implies !((
    #[trigger] volumes[i]).holds(exponent) && (#[trigger] volumes[j]).holds(exponent)) by {
        lemma_order(volumes, total, i, j);
    }
}

proof fn lemma_order(volumes: Seq<Volume>, end: nat, i: int, j: int)
    requires
        tile(volumes, end),
        0 <= i < j < volumes.len(),
    ensures
        volumes[i].first + volumes[i].count <= volumes[j].first,
    decreases volumes.len(),
{
    let rest = volumes.drop_last();
    if j == volumes.len() - 1 {
        lemma_before_end(rest, volumes.last().first as nat, i);
        assert(rest[i] == volumes[i]);
    } else {
        lemma_order(rest, volumes.last().first as nat, i, j);
        assert(rest[i] == volumes[i]);
        assert(rest[j] == volumes[j]);
    }
}

/// Where a recovery slice is written.
#[derive(Debug, Clone, Copy, PartialEq, Eq, Structural)]
pub struct Placement {
    /// Number of the volume.
    pub volume: usize,
    /// The slice is the first of its volume: the packets that every volume
    /// starts with come before it.
    pub opens: bool,
    /// The slice is the last of its volume: the volume is complete.
    pub closes: bool,
}

/// Find the volume of a recovery slice: the first one that holds it.
pub fn place_slice(volumes: &[Volume], exponent: u32) -> (place: Option<Placement>)
    ensures
        match place {
            Some(p) => {
                &&& p.volume < volumes@.len()
                &&& volumes@[p.volume as int].holds(exponent)
                &&& forall|i: int| 0 <= i < p.volume ==> !(#[trigger] volumes@[i]).holds(exponent)
                &&& p.opens == (exponent == volumes@[p.volume as int].first)
                &&& p.closes == (exponent == volumes@[p.volume as int].first
                    + volumes@[p.volume as int].count - 1)
            },
            None => forall|i: int|
                0 <= i < volumes@.len() ==> !(#[trigger] volumes@[i]).holds(exponent),
        },
{
    let n: usize = volumes.len();
    let mut i: usize = 0;
    while i < n
        invariant
            i <= n,
            n == volumes@.len(),
            forall|k: int| 0 <= k < i ==> !(#[trigger] volumes@[k]).holds(exponent),
        decreases n - i,
    {
        let v: Volume = volumes[i];
        if exponent >= v.first && exponent - v.first < v.count {
            return Some(
                Placement {
                    volume: i,
                    opens: exponent == v.first,
                    closes: exponent - v.first == v.count - 1,
                },
            );
        }
        i = i + 1;
    }
    None
}

} // verus!
