//! What a run takes from the machine: its processor cores and the date.

use vstd::prelude::*;
use vstd::string::*;

use crate::calendar;
use crate::chars;
use crate::environment;
use crate::reading;
use crate::scan;
use crate::text;

verus! {

/// Instruction sets of the processor.
#[derive(Debug, Clone, Copy, PartialEq, Eq, Structural)]
pub struct CpuFeatures {
    pub avx512f: bool,
    pub avx512bw: bool,
    pub gfni: bool,
    pub avx2: bool,
    pub ssse3: bool,
    pub neon: bool,
}

/// The name of the widest instructions that the PAR2 encoder can use.
pub open spec fn simd_name(cpu: CpuFeatures) -> Seq<char> {
    if cpu.avx512f && cpu.avx512bw && cpu.gfni {
        "AVX-512/GFNI"@
    } else if cpu.avx2 {
        "AVX2"@
    } else if cpu.ssse3 {
        "SSSE3"@
    } else if cpu.neon {
        "NEON"@
    } else {
        "scalar"@
    }
}

/// Returns the name of the widest instructions that the PAR2 encoder can use.
pub fn detect_par2_simd(cpu: CpuFeatures) -> (name: &'static str)
    ensures
        name@ == simd_name(cpu),
{
    if cpu.avx512f && cpu.avx512bw && cpu.gfni {
        "AVX-512/GFNI"
    } else if cpu.avx2 {
        "AVX2"
    } else if cpu.ssse3 {
        "SSSE3"
    } else if cpu.neon {
        "NEON"
    } else {
        "scalar"
    }
}

/// What has been read of a list of processors: the cores seen, and the ids of
/// the processor that is being described.
pub struct CoreScan {
    pub seen: Set<(Seq<char>, Seq<char>)>,
    pub phys: Option<Seq<char>>,
    pub core: Option<Seq<char>>,
}

impl CoreScan {
    /// Nothing read.
    pub open spec fn fresh() -> CoreScan {
        CoreScan { seen: Set::empty(), phys: None, core: None }
    }

    /// One more line: a blank one ends the description of a processor.
    pub open spec fn with_line(self, line: Seq<char>) -> CoreScan {
        let colon = chars::first_index(line, ':');
        if chars::trimmed(line).len() == 0 {
            CoreScan {
                seen: if self.phys is Some && self.core is Some {
                    self.seen.insert((self.phys->0, self.core->0))
                } else {
                    self.seen
                },
                phys: None,
                core: None,
            }
        } else if colon == line.len() {
            self
        } else if chars::trimmed(line.take(colon)) == "physical id"@ {
            CoreScan { phys: Some(chars::trimmed(line.skip(colon + 1))), ..self }
        } else if chars::trimmed(line.take(colon)) == "core id"@ {
            CoreScan { core: Some(chars::trimmed(line.skip(colon + 1))), ..self }
        } else {
            self
        }
    }

    /// Several lines.
    pub open spec fn with_lines(self, lines: Seq<Seq<char>>) -> CoreScan
        decreases lines.len(),
    {
        if lines.len() == 0 {
            self
        } else {
            self.with_lines(lines.drop_last()).with_line(lines.last())
        }
    }
}

/// The distinct physical cores that the text of `/proc/cpuinfo` describes.
pub open spec fn cores_in(info: Seq<char>) -> Set<(Seq<char>, Seq<char>)> {
    CoreScan::fresh().with_lines(scan::lines_of(info)).seen
}

/// A line says what a property is: its name, a colon and its value, with white space
/// around them.
pub open spec fn says(line: Seq<char>, name: Seq<char>, value: Seq<char>) -> bool {
    exists|front: Seq<char>, back: Seq<char>|
        {
            &&& line == #[trigger] (front + seq![':'] + back)
            &&& reading::lacks(front, ':')
            &&& chars::trimmed(front) == name
            &&& chars::trimmed(back) == value
        }
}

proof fn lemma_not_blank(s: Seq<char>, i: int)
    requires
        0 <= i < s.len(),
        !chars::is_space(s[i]),
    ensures
        chars::trimmed(s).len() > 0,
{
    lemma_start_keeps(s, i);
    let t = chars::trimmed_start(s);
    let j = choose|j: int| 0 <= j < t.len() && !chars::is_space(#[trigger] t[j]);
    lemma_end_keeps(t, j);
}

proof fn lemma_start_keeps(s: Seq<char>, i: int)
    requires
        0 <= i < s.len(),
        !chars::is_space(s[i]),
    ensures
        exists|j: int|
            0 <= j < chars::trimmed_start(s).len() && !chars::is_space(
                #[trigger] chars::trimmed_start(s)[j],
            ),
    decreases s.len(),
{
    if chars::is_space(s[0]) {
        assert(s.drop_first()[i - 1] == s[i]);
        lemma_start_keeps(s.drop_first(), i - 1);
        assert(chars::trimmed_start(s) == chars::trimmed_start(s.drop_first()));
    } else {
        assert(chars::trimmed_start(s) == s);
        assert(!chars::is_space(chars::trimmed_start(s)[0]));
    }
}

proof fn lemma_end_keeps(s: Seq<char>, i: int)
    requires
        0 <= i < s.len(),
        !chars::is_space(s[i]),
    ensures
        chars::trimmed_end(s).len() > 0,
    decreases s.len(),
{
    if chars::is_space(s.last()) {
        assert(s.drop_last()[i] == s[i]);
        lemma_end_keeps(s.drop_last(), i);
    }
}

proof fn lemma_says(line: Seq<char>, name: Seq<char>, value: Seq<char>)
    requires
        says(line, name, value),
    ensures
        ({
            let colon = chars::first_index(line, ':');
            &&& 0 <= colon < line.len()
            &&& chars::trimmed(line).len() > 0
            &&& chars::trimmed(line.take(colon)) == name
            &&& chars::trimmed(line.skip(colon + 1)) == value
        }),
{
    let (front, back) = choose|front: Seq<char>, back: Seq<char>|
        {
            &&& line == #[trigger] (front + seq![':'] + back)
            &&& reading::lacks(front, ':')
            &&& chars::trimmed(front) == name
            &&& chars::trimmed(back) == value
        };
    reading::lemma_parts(front, ':', back);
    chars::lemma_first_index(line, ':');
    assert(line[front.len() as int] == ':');
    lemma_not_blank(line, front.len() as int);
}

/// A processor counts by its physical id and core id, in whichever order they come:
/// one more of the same ids adds no core, and one of others adds one.
pub proof fn law_processors_count_by_their_ids(
    scan: CoreScan,
    a: Seq<char>,
    b: Seq<char>,
    blank: Seq<char>,
    phys: Seq<char>,
    core: Seq<char>,
)
    requires
        scan.phys is None,
        scan.core is None,
        says(a, "physical id"@, phys),
        says(b, "core id"@, core),
        chars::trimmed(blank).len() == 0,
    ensures
        ({
            let counted = CoreScan {
                seen: scan.seen.insert((phys, core)),
                phys: None,
                core: None,
            };
            &&& scan.with_lines(seq![a, b, blank]) == counted
            &&& scan.with_lines(seq![b, a, blank]) == counted
            &&& counted.with_lines(seq![a, b, blank]) == counted
        }),
{
    reveal_strlit("physical id");
    reveal_strlit("core id");
    assert("physical id"@.len() == 11 && "core id"@.len() == 7);
    lemma_says(a, "physical id"@, phys);
    lemma_says(b, "core id"@, core);
    let counted = CoreScan { seen: scan.seen.insert((phys, core)), phys: None, core: None };
    lemma_three_lines(scan, a, b, blank);
    lemma_three_lines(scan, b, a, blank);
    lemma_three_lines(counted, a, b, blank);
    assert(scan.with_line(a) == (CoreScan { phys: Some(phys), ..scan }));
    assert(scan.with_line(b) == (CoreScan { core: Some(core), ..scan }));
    assert(counted.seen.insert((phys, core)) =~= counted.seen);
}

proof fn lemma_three_lines(scan: CoreScan, a: Seq<char>, b: Seq<char>, c: Seq<char>)
    ensures
        scan.with_lines(seq![a, b, c]) == scan.with_line(a).with_line(b).with_line(c),
{
    reveal_with_fuel(CoreScan::with_lines, 4);
    assert(seq![a, b, c].drop_last() =~= seq![a, b]);
    assert(seq![a, b].drop_last() =~= seq![a]);
    assert(seq![a].drop_last() =~= Seq::<Seq<char>>::empty());
}

/// Other properties count for nothing.
pub proof fn law_other_properties_do_not_count(
    scan: CoreScan,
    line: Seq<char>,
    name: Seq<char>,
    value: Seq<char>,
)
    requires
        says(line, name, value),
        name != "physical id"@,
        name != "core id"@,
    ensures
        scan.with_line(line) == scan,
{
    lemma_says(line, name, value);
}

/// Pairs of ids, none of them twice.
struct CoreList {
    pairs: Vec<(Vec<char>, Vec<char>)>,
}

spec fn pair_set(pairs: Seq<(Vec<char>, Vec<char>)>) -> Set<(Seq<char>, Seq<char>)>
    decreases pairs.len(),
{
    if pairs.len() == 0 {
        Set::empty()
    } else {
        pair_set(pairs.drop_last()).insert((pairs.last().0@, pairs.last().1@))
    }
}

proof fn lemma_pair_set(pairs: Seq<(Vec<char>, Vec<char>)>)
    ensures
        pair_set(pairs).finite(),
        forall|p: (Seq<char>, Seq<char>)| #[trigger]
            pair_set(pairs).contains(p) <==> exists|i: int|
                0 <= i < pairs.len() && (#[trigger] pairs[i]).0@ == p.0 && pairs[i].1@ == p.1,
    decreases pairs.len(),
{
    if pairs.len() > 0 {
        let rest = pairs.drop_last();
        lemma_pair_set(rest);
        assert forall|p: (Seq<char>, Seq<char>)| #[trigger]
            pair_set(pairs).contains(p) <==> exists|i: int|
                0 <= i < pairs.len() && (#[trigger] pairs[i]).0@ == p.0 && pairs[i].1@ == p.1 by {
            if pair_set(pairs).contains(p) {
                if p == (pairs.last().0@, pairs.last().1@) {
                    assert(pairs[pairs.len() - 1].0@ == p.0);
                } else {
                    let i = choose|i: int|
                        0 <= i < rest.len() && (#[trigger] rest[i]).0@ == p.0 && rest[i].1@ == p.1;
                    assert(pairs[i].0@ == p.0);
                }
            }
            if exists|i: int|
                0 <= i < pairs.len() && (#[trigger] pairs[i]).0@ == p.0 && pairs[i].1@ == p.1 {
                let i = choose|i: int|
                    0 <= i < pairs.len() && (#[trigger] pairs[i]).0@ == p.0 && pairs[i].1@ == p.1;
                if i < rest.len() {
                    assert(rest[i].0@ == p.0);
                }
            }
        }
    }
}

impl CoreList {
    spec fn wf(&self) -> bool {
        pair_set(self.pairs@).len() == self.pairs@.len()
    }

    fn insert(&mut self, phys: Vec<char>, core: Vec<char>)
        requires
            old(self).wf(),
        ensures
            final(self).wf(),
            pair_set(final(self).pairs@) == pair_set(old(self).pairs@).insert((phys@, core@)),
    {
        let ghost before = self.pairs@;
        let ghost p = (phys@, core@);
        proof {
            lemma_pair_set(before);
        }
        let n: usize = self.pairs.len();
        let mut i: usize = 0;
        while i < n
            invariant
                i <= n,
                n == self.pairs@.len(),
                self.pairs@ == before,
                p == (phys@, core@),
                pair_set(before).len() == before.len(),
                forall|p: (Seq<char>, Seq<char>)| #[trigger]
                    pair_set(before).contains(p) <==> exists|i: int|
                        0 <= i < before.len() && (#[trigger] before[i]).0@ == p.0 && before[i].1@
                            == p.1,
                forall|k: int|
                    0 <= k < i ==> !((#[trigger] before[k]).0@ == p.0 && before[k].1@ == p.1),
            decreases n - i,
        {
            if chars::equal(self.pairs[i].0.as_slice(), phys.as_slice()) && chars::equal(
                self.pairs[i].1.as_slice(),
                core.as_slice(),
            ) {
                assert(before[i as int].0@ == p.0);
                assert(pair_set(before).contains(p));
                assert(pair_set(before).insert(p) =~= pair_set(before));
                return;
            }
            i = i + 1;
        }
        proof {
            assert(!pair_set(before).contains(p));
            assert(before.push((phys, core)).drop_last() =~= before);
        }
        self.pairs.push((phys, core));
    }
}

fn copy_of(s: &[char]) -> (v: Vec<char>)
    ensures
        v@ == s@,
{
    let n: usize = s.len();
    let mut v: Vec<char> = Vec::new();
    let mut i: usize = 0;
    while i < n
        invariant
            i <= n,
            n == s@.len(),
            v@ == s@.take(i as int),
        decreases n - i,
    {
        v.push(s[i]);
        assert(v@ =~= s@.take(i + 1));
        i = i + 1;
    }
    assert(v@ =~= s@);
    v
}

spec fn chars_in(v: Option<Vec<char>>) -> Option<Seq<char>> {
    match v {
        Some(s) => Some(s@),
        None => None,
    }
}

/// The number of distinct physical cores in the text of `/proc/cpuinfo`.
pub fn count_cores(info: &str) -> (n: usize)
    ensures
        n == cores_in(info@).len(),
{
    let all: Vec<char> = text::chars_of(info);
    let lines: Vec<&[char]> = scan::lines(all.as_slice());
    let ghost texts = scan::lines_of(info@);
    let physical: Vec<char> = text::chars_of("physical id");
    let core_id: Vec<char> = text::chars_of("core id");
    let mut seen: CoreList = CoreList { pairs: Vec::new() };
    let mut phys: Option<Vec<char>> = None;
    let mut core: Option<Vec<char>> = None;
    let n: usize = lines.len();
    let mut i: usize = 0;
    assert(texts.take(0) =~= Seq::empty());
    while i < n
        invariant
            i <= n,
            n == lines@.len(),
            n == texts.len(),
            physical@ == "physical id"@,
            core_id@ == "core id"@,
            forall|k: int| 0 <= k < n ==> #[trigger] lines@[k]@ == texts[k],
            seen.wf(),
            CoreScan::fresh().with_lines(texts.take(i as int)) == (CoreScan {
                seen: pair_set(seen.pairs@),
                phys: chars_in(phys),
                core: chars_in(core),
            }),
        decreases n - i,
    {
        let line: &[char] = lines[i];
        let len: usize = line.len();
        assert(texts.take(i + 1).drop_last() =~= texts.take(i as int));
        let colon: usize = chars::find(line, ':');
        if chars::trim(line).len() == 0 {
            let p: Option<Vec<char>> = phys;
            let c: Option<Vec<char>> = core;
            phys = None;
            core = None;
            match (p, c) {
                (Some(a), Some(b)) => {
                    seen.insert(a, b);
                },
                _ => {},
            }
        } else if colon < len {
            let key: &[char] = chars::part(line, 0, colon);
            let value: &[char] = chars::part(line, colon + 1, len);
            assert(key@ =~= line@.take(colon as int));
            assert(value@ =~= line@.skip(colon + 1));
            let name: &[char] = chars::trim(key);
            if chars::equal(name, physical.as_slice()) {
                phys = Some(copy_of(chars::trim(value)));
            } else if chars::equal(name, core_id.as_slice()) {
                core = Some(copy_of(chars::trim(value)));
            }
        }
        i = i + 1;
    }
    assert(texts.take(n as int) =~= texts);
    seen.pairs.len()
}

/// Number of physical CPU cores, derived from the text of `/proc/cpuinfo` by
/// counting distinct `(physical id, core id)` pairs. Falls back to the logical
/// CPU count when that information is unavailable.
pub fn physical_core_count(info: Option<&str>, logical: usize) -> (n: usize)
    ensures
        n == match info {
            Some(text) => if cores_in(text@).len() > 0 {
                cores_in(text@).len()
            } else {
                logical as nat
            },
            None => logical as nat,
        },
{
    match info {
        Some(text) => {
            let n: usize = count_cores(text);
            if n > 0 {
                n
            } else {
                logical
            }
        },
        None => logical,
    }
}

/// A logical processor and the text of its `thread_siblings_list`.
pub struct CpuTopology {
    pub cpu: usize,
    pub siblings: String,
}

/// Where a comma or a dash first stands, or the length.
pub open spec fn first_break(s: Seq<char>) -> int
    decreases s.len(),
{
    if s.len() == 0 || s[0] == ',' || s[0] == '-' {
        0
    } else {
        1 + first_break(s.drop_first())
    }
}

/// The processor shares its core: its list of siblings holds more than one.
pub open spec fn is_paired(siblings: Seq<char>) -> bool {
    first_break(chars::trimmed(siblings)) < chars::trimmed(siblings).len()
}

/// The first processor of a core: the number at the start of the list, or the
/// processor itself where no number stands there.
pub open spec fn leader_of(topology: CpuTopology) -> nat {
    let list = chars::trimmed(topology.siblings@);
    match scan::number_in(list.take(first_break(list)), usize::MAX as nat) {
        Some(n) => n,
        None => topology.cpu as nat,
    }
}

/// The first processors of all cores that have two.
pub open spec fn paired_leaders(cpus: Seq<CpuTopology>) -> Set<nat>
    decreases cpus.len(),
{
    if cpus.len() == 0 {
        Set::empty()
    } else if is_paired(cpus.last().siblings@) {
        paired_leaders(cpus.drop_last()).insert(leader_of(cpus.last()))
    } else {
        paired_leaders(cpus.drop_last())
    }
}

/// Some core has one processor only.
pub open spec fn has_solo(cpus: Seq<CpuTopology>) -> bool {
    exists|i: int| 0 <= i < cpus.len() && !is_paired((#[trigger] cpus[i]).siblings@)
}

fn find_break(s: &[char]) -> (k: usize)
    ensures
        k == first_break(s@),
        k <= s@.len(),
{
    let n: usize = s.len();
    let mut k: usize = 0;
    assert(s@.skip(0) =~= s@);
    while k < n && s[k] != ',' && s[k] != '-'
        invariant
            k <= n,
            n == s@.len(),
            first_break(s@) == k + first_break(s@.skip(k as int)),
        decreases n - k,
    {
        assert(s@.skip(k as int).drop_first() =~= s@.skip(k + 1));
        k = k + 1;
    }
    k
}

spec fn number_set(numbers: Seq<usize>) -> Set<nat>
    decreases numbers.len(),
{
    if numbers.len() == 0 {
        Set::empty()
    } else {
        number_set(numbers.drop_last()).insert(numbers.last() as nat)
    }
}

proof fn lemma_number_set(numbers: Seq<usize>)
    ensures
        number_set(numbers).finite(),
        forall|v: nat| #[trigger]
            number_set(numbers).contains(v) <==> exists|i: int|
                0 <= i < numbers.len() && #[trigger] numbers[i] == v,
    decreases numbers.len(),
{
    if numbers.len() > 0 {
        let rest = numbers.drop_last();
        lemma_number_set(rest);
        assert forall|v: nat| #[trigger]
            number_set(numbers).contains(v) <==> exists|i: int|
                0 <= i < numbers.len() && #[trigger] numbers[i] == v by {
            if number_set(numbers).contains(v) {
                if v == numbers.last() {
                    assert(numbers[numbers.len() - 1] == v);
                } else {
                    let i = choose|i: int| 0 <= i < rest.len() && #[trigger] rest[i] == v;
                    assert(numbers[i] == v);
                }
            }
            if exists|i: int| 0 <= i < numbers.len() && #[trigger] numbers[i] == v {
                let i = choose|i: int| 0 <= i < numbers.len() && #[trigger] numbers[i] == v;
                if i < rest.len() {
                    assert(rest[i] == v);
                }
            }
        }
    }
}

fn insert_number(numbers: &mut Vec<usize>, v: usize)
    requires
        number_set(old(numbers)@).len() == old(numbers)@.len(),
    ensures
        number_set(final(numbers)@).len() == final(numbers)@.len(),
        number_set(final(numbers)@) == number_set(old(numbers)@).insert(v as nat),
{
    let ghost before = numbers@;
    proof {
        lemma_number_set(before);
    }
    let n: usize = numbers.len();
    let mut i: usize = 0;
    while i < n
        invariant
            i <= n,
            n == numbers@.len(),
            numbers@ == before,
            number_set(before).len() == before.len(),
            forall|w: nat| #[trigger]
                number_set(before).contains(w) <==> exists|k: int|
                    0 <= k < before.len() && #[trigger] before[k] == w,
            forall|k: int| 0 <= k < i ==> #[trigger] before[k] != v,
        decreases n - i,
    {
        if numbers[i] == v {
            assert(before[i as int] == v as nat);
            assert(number_set(before).contains(v as nat));
            assert(number_set(before).insert(v as nat) =~= number_set(before));
            return;
        }
        i = i + 1;
    }
    assert(!number_set(before).contains(v as nat));
    assert(before.push(v).drop_last() =~= before);
    numbers.push(v);
}

/// Number of performance-class cores. On hybrid processors the slower cores
/// stand alone, while the faster ones have two logical processors each. When
/// the layout is mixed, this is the number of faster cores; otherwise, or when
/// nothing is known, it is `physical`, the number of physical cores.
pub fn performance_core_count(cpus: &[CpuTopology], physical: usize) -> (n: usize)
    ensures
        n == if paired_leaders(cpus@).len() > 0 && has_solo(cpus@) {
            paired_leaders(cpus@).len()
        } else {
            physical as nat
        },
{
    let mut leaders: Vec<usize> = Vec::new();
    let mut solo: bool = false;
    let len: usize = cpus.len();
    let mut i: usize = 0;
    assert(cpus@.take(0) =~= Seq::empty());
    while i < len
        invariant
            i <= len,
            len == cpus@.len(),
            number_set(leaders@).len() == leaders@.len(),
            number_set(leaders@) == paired_leaders(cpus@.take(i as int)),
            solo == has_solo(cpus@.take(i as int)),
        decreases len - i,
    {
        proof {
            let before = cpus@.take(i as int);
            let after = cpus@.take(i + 1);
            assert(after.drop_last() =~= before);
            assert(after[i as int] == cpus@[i as int]);
            if has_solo(before) {
                let k = choose|k: int|
                    0 <= k < before.len() && !is_paired((#[trigger] before[k]).siblings@);
                assert(after[k] == before[k]);
            }
            if has_solo(after) {
                let k = choose|k: int|
                    0 <= k < after.len() && !is_paired((#[trigger] after[k]).siblings@);
                if k < i {
                    assert(before[k] == after[k]);
                }
            }
        }
        let all: Vec<char> = text::chars_of(cpus[i].siblings.as_str());
        let list: &[char] = chars::trim(all.as_slice());
        let k: usize = find_break(list);
        if k < list.len() {
            let first: &[char] = chars::part(list, 0, k);
            assert(first@ =~= list@.take(k as int));
            let leader: usize = match scan::parse_number(first, usize::MAX as u64) {
                Some(v) => v as usize,
                None => cpus[i].cpu,
            };
            insert_number(&mut leaders, leader);
        } else {
            solo = true;
        }
        i = i + 1;
    }
    assert(cpus@.take(len as int) =~= cpus@);
    if leaders.len() > 0 && solo {
        leaders.len()
    } else {
        physical
    }
}

/// There is at least one core to work on, when the fallback is at least one.
pub proof fn law_there_is_a_core(cpus: Seq<CpuTopology>, info: Seq<char>, logical: nat)
    requires
        logical > 0,
    ensures
        ({
            let physical = if cores_in(info).len() > 0 {
                cores_in(info).len()
            } else {
                logical
            };
            let n = if paired_leaders(cpus).len() > 0 && has_solo(cpus) {
                paired_leaders(cpus).len()
            } else {
                physical
            };
            physical >= 1 && n >= 1
        }),
{
}

/// Thirty days, in seconds.
pub const DATE_SPREAD: u64 = 2_592_000;

/// A date in the last thirty days, as chance has it.
pub open spec fn random_date(now: nat, random: nat) -> nat {
    if now >= random % DATE_SPREAD as nat {
        (now - random % DATE_SPREAD as nat) as nat
    } else {
        0
    }
}

/// The `Date:` header of an article, given the time and a random number.
pub open spec fn date_of(mode: Option<&str>, now: nat, random: nat) -> Option<Seq<char>> {
    match mode {
        None => None,
        Some(m) => if m@ == "now"@ {
            Some(calendar::rfc2822_text(now))
        } else if m@ == "random"@ {
            Some(calendar::rfc2822_text(random_date(now, random)))
        } else {
            Some(m@)
        },
    }
}

fn is_text(s: &str, wanted: &str) -> (r: bool)
    ensures
        r == (s@ == wanted@),
{
    chars::equal(text::chars_of(s).as_slice(), text::chars_of(wanted).as_slice())
}

/// Compute the `Date:` header value from the `date` option, the time in seconds
/// since 1970 and a random number.
pub fn resolve_date_at(mode: Option<&str>, now: u64, random: u64) -> (date: Option<String>)
    ensures
        match date {
            Some(d) => date_of(mode, now as nat, random as nat) == Some(d@),
            None => date_of(mode, now as nat, random as nat) is None,
        },
{
    match mode {
        None => None,
        Some(m) => {
            if is_text(m, "now") {
                Some(calendar::format_rfc2822(now))
            } else if is_text(m, "random") {
                let offset: u64 = random % DATE_SPREAD;
                let secs: u64 = if now >= offset {
                    now - offset
                } else {
                    0
                };
                Some(calendar::format_rfc2822(secs))
            } else {
                Some(String::from_str(m))
            }
        },
    }
}

/// Compute the `Date:` header value from the `date` option.
///
/// - `None`: no header
/// - `"now"`: current UTC time formatted as RFC 2822
/// - `"random"`: random time within the last 30 days
/// - any other string: used verbatim (caller-supplied RFC 2822 timestamp)
pub fn resolve_date(mode: Option<&str>) -> (date: Option<String>)
    ensures
        exists|now: u64, random: u64|
            match date {
                Some(d) => #[trigger] date_of(mode, now as nat, random as nat) == Some(d@),
                None => date_of(mode, now as nat, random as nat) is None,
            },
{
    resolve_date_at(mode, environment::now_secs(), environment::rand_u64())
}

/// A random date lies within the last thirty days, and never ahead.
pub proof fn law_random_dates_are_recent(now: nat, random: nat)
    ensures
        random_date(now, random) <= now,
        random_date(now, random) + DATE_SPREAD > now,
{
}

} // verus!
