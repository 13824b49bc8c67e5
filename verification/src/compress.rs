//! Archive compression before posting.
//!
//! Bundles the input files into a single archive that the posting pipeline
//! treats as any other file. The default format is **7z in store mode**
//! (no compression: PAR2 handles integrity; store keeps the pipeline fast).
//!
//! The archives are made by the `7z` and `rar` command-line tools. This module
//! settles how they are called, and which volumes of a split archive are
//! complete while the tool is still at work.

use vstd::prelude::*;
use vstd::string::*;

use crate::article;
use crate::chars;
use crate::environment;
use crate::paths;
use crate::poster::order;
use crate::scan;
use crate::text;

verus! {

/// Supported archive formats.
#[derive(Debug, Clone, Copy, PartialEq, Eq, Structural)]
pub enum ArchiveFormat {
    SevenZip,
    Zip,
    Rar,
}

impl Default for ArchiveFormat {
    fn default() -> (format: ArchiveFormat)
        ensures
            format == ArchiveFormat::SevenZip,
    {
        ArchiveFormat::SevenZip
    }
}

/// The file name extension of a format, which is also its name.
pub open spec fn extension_of(format: ArchiveFormat) -> Seq<char> {
    match format {
        ArchiveFormat::SevenZip => "7z"@,
        ArchiveFormat::Zip => "zip"@,
        ArchiveFormat::Rar => "rar"@,
    }
}

impl ArchiveFormat {
    /// The file name extension of the format.
    pub fn extension(self) -> (extension: &'static str)
        ensures
            extension@ == extension_of(self),
    {
        match self {
            ArchiveFormat::SevenZip => "7z",
            ArchiveFormat::Zip => "zip",
            ArchiveFormat::Rar => "rar",
        }
    }

    /// The format of a name, in upper or lower case.
    pub fn parse(s: &str) -> (format: Option<ArchiveFormat>)
        ensures
            match format {
                Some(f) => chars::lowered(s@) == extension_of(f),
                None => forall|f: ArchiveFormat|
                    chars::lowered(s@) != #[trigger] extension_of(f),
            },
    {
        let all: Vec<char> = text::chars_of(s);
        let lower: Vec<char> = chars::to_lowered(all.as_slice());
        let name: &[char] = lower.as_slice();
        if chars::equal(name, text::chars_of("7z").as_slice()) {
            Some(ArchiveFormat::SevenZip)
        } else if chars::equal(name, text::chars_of("zip").as_slice()) {
            Some(ArchiveFormat::Zip)
        } else if chars::equal(name, text::chars_of("rar").as_slice()) {
            Some(ArchiveFormat::Rar)
        } else {
            None
        }
    }
}

/// Names and formats correspond: a name stands for one format at most, and
/// every format is the one that its own name stands for.
pub proof fn law_formats_round_trip(a: ArchiveFormat, b: ArchiveFormat)
    ensures
        extension_of(a) == extension_of(b) ==> a == b,
        chars::lowered(extension_of(a)) == extension_of(a),
{
    reveal_strlit("7z");
    reveal_strlit("zip");
    reveal_strlit("rar");
    assert(extension_of(ArchiveFormat::SevenZip).len() == 2);
    assert("zip"@[0] == 'z');
    assert("rar"@[0] == 'r');
    assert(chars::lowered(extension_of(a)) =~= extension_of(a));
}

/// The tool that makes archives of a format.
pub open spec fn tool_of(format: ArchiveFormat) -> Seq<char> {
    match format {
        ArchiveFormat::SevenZip => "7z"@,
        ArchiveFormat::Zip => "7z"@,
        ArchiveFormat::Rar => "rar"@,
    }
}

/// The tool that makes archives of a format.
pub fn tool_for(format: ArchiveFormat) -> (tool: &'static str)
    ensures
        tool@ == tool_of(format),
{
    match format {
        ArchiveFormat::SevenZip => "7z",
        ArchiveFormat::Zip => "7z",
        ArchiveFormat::Rar => "rar",
    }
}

/// The file name of an archive: its stem and the extension of its format.
pub open spec fn archive_name(stem: Seq<char>, format: ArchiveFormat) -> Seq<char> {
    stem + "."@ + extension_of(format)
}

/// The file name of an archive: its stem and the extension of its format.
pub fn archive_file_name(stem: &str, format: ArchiveFormat) -> (name: String)
    ensures
        name@ == archive_name(stem@, format),
{
    let mut name: String = String::from_str(stem);
    name.append(".");
    name.append(format.extension());
    name
}

/// The arguments that choose the format and store mode.
pub open spec fn mode_args(format: ArchiveFormat) -> Seq<Seq<char>> {
    match format {
        ArchiveFormat::SevenZip => seq!["a"@, "-t7z"@, "-mx=0"@, "-bd"@, "-y"@],
        ArchiveFormat::Zip => seq!["a"@, "-tzip"@, "-mx=0"@, "-bd"@, "-y"@],
        ArchiveFormat::Rar => seq!["a"@, "-m0"@, "-ep1"@, "-inul"@],
    }
}

/// The argument that splits the archive.
pub open spec fn volume_args(volume_size: Option<u64>) -> Seq<Seq<char>> {
    match volume_size {
        Some(size) => seq!["-v"@ + text::decimal(size as nat) + "b"@],
        None => Seq::empty(),
    }
}

/// The arguments that protect the archive. Where the format can, the names of
/// its files are hidden too.
pub open spec fn password_args(format: ArchiveFormat, password: Option<&str>) -> Seq<Seq<char>> {
    match password {
        Some(pass) => match format {
            ArchiveFormat::SevenZip => seq!["-p"@ + pass@, "-mhe=on"@],
            ArchiveFormat::Zip => seq!["-p"@ + pass@],
            ArchiveFormat::Rar => seq!["-hp"@ + pass@],
        },
        None => Seq::empty(),
    }
}

/// All arguments of the tool.
pub open spec fn tool_args(
    format: ArchiveFormat,
    volume_size: Option<u64>,
    password: Option<&str>,
    archive: Seq<char>,
    inputs: Seq<String>,
) -> Seq<Seq<char>> {
    mode_args(format) + volume_args(volume_size) + password_args(format, password) + seq![archive]
        + text::texts(inputs)
}

fn push_arg(args: &mut Vec<String>, arg: &str)
    ensures
        text::texts(final(args)@) == text::texts(old(args)@).push(arg@),
{
    let ghost before = text::texts(args@);
    args.push(String::from_str(arg));
    assert(text::texts(args@) =~= before.push(arg@));
}

fn prefixed(prefix: &str, s: &str) -> (r: String)
    ensures
        r@ == prefix@ + s@,
{
    let mut r: String = String::from_str(prefix);
    r.append(s);
    r
}

/// The arguments of the tool that makes an archive at `archive` of `inputs`,
/// split into volumes where a size is given for them.
pub fn archive_args(
    format: ArchiveFormat,
    volume_size: Option<u64>,
    password: Option<&str>,
    archive: &str,
    inputs: &[String],
) -> (args: Vec<String>)
    ensures
        text::texts(args@) == tool_args(format, volume_size, password, archive@, inputs@),
{
    let mut args: Vec<String> = Vec::new();
    assert(text::texts(args@) =~= Seq::empty());
    push_arg(&mut args, "a");
    match format {
        ArchiveFormat::SevenZip => {
            push_arg(&mut args, "-t7z");
            push_arg(&mut args, "-mx=0");
            push_arg(&mut args, "-bd");
            push_arg(&mut args, "-y");
        },
        ArchiveFormat::Zip => {
            push_arg(&mut args, "-tzip");
            push_arg(&mut args, "-mx=0");
            push_arg(&mut args, "-bd");
            push_arg(&mut args, "-y");
        },
        ArchiveFormat::Rar => {
            push_arg(&mut args, "-m0");
            push_arg(&mut args, "-ep1");
            push_arg(&mut args, "-inul");
        },
    }
    assert(text::texts(args@) =~= mode_args(format));
    match volume_size {
        Some(size) => {
            let mut arg: String = String::from_str("-v");
            text::push_decimal(&mut arg, size);
            arg.append("b");
            push_arg(&mut args, arg.as_str());
        },
        None => {},
    }
    assert(text::texts(args@) =~= mode_args(format) + volume_args(volume_size));
    match password {
        Some(pass) => {
            match format {
                ArchiveFormat::SevenZip => {
                    push_arg(&mut args, prefixed("-p", pass).as_str());
                    push_arg(&mut args, "-mhe=on");
                },
                ArchiveFormat::Zip => {
                    push_arg(&mut args, prefixed("-p", pass).as_str());
                },
                ArchiveFormat::Rar => {
                    push_arg(&mut args, prefixed("-hp", pass).as_str());
                },
            }
        },
        None => {},
    }
    assert(text::texts(args@) =~= mode_args(format) + volume_args(volume_size) + password_args(
        format,
        password,
    ));
    push_arg(&mut args, archive);
    let ghost head = mode_args(format) + volume_args(volume_size) + password_args(format, password)
        + seq![archive@];
    assert(text::texts(args@) =~= head);
    let n: usize = inputs.len();
    let mut i: usize = 0;
    assert(text::texts(args@) =~= head + text::texts(inputs@).take(0));
    while i < n
        invariant
            i <= n,
            n == inputs@.len(),
            text::texts(args@) == head + text::texts(inputs@).take(i as int),
        decreases n - i,
    {
        push_arg(&mut args, inputs[i].as_str());
        assert(text::texts(args@) =~= head + text::texts(inputs@).take(i + 1));
        i = i + 1;
    }
    assert(text::texts(inputs@).take(n as int) =~= text::texts(inputs@));
    args
}

/// A protected archive always gets its password, whatever the format.
pub proof fn law_passwords_reach_the_tool(
    format: ArchiveFormat,
    volume_size: Option<u64>,
    pass: &str,
    archive: Seq<char>,
    inputs: Seq<String>,
)
    ensures
        exists|i: int|
            0 <= i < tool_args(format, volume_size, Some(pass), archive, inputs).len() && {
                let arg = #[trigger] tool_args(
                    format,
                    volume_size,
                    Some(pass),
                    archive,
                    inputs,
                )[i];
                arg == "-p"@ + pass@ || arg == "-hp"@ + pass@
            },
{
    let k = (mode_args(format) + volume_args(volume_size)).len() as int;
    let all = tool_args(format, volume_size, Some(pass), archive, inputs);
    assert(all[k] == password_args(format, Some(pass))[0]);
}

/// The tool is told to add to an archive of the wanted kind, without compressing: the
/// archive, and behind it all inputs in their order, come last. It is told to split
/// the archive, and into which size, exactly where that is wanted, and a 7z archive
/// with a password also hides the names of its files.
pub proof fn law_tools_get_all_inputs(
    format: ArchiveFormat,
    volume_size: Option<u64>,
    password: Option<&str>,
    archive: Seq<char>,
    inputs: Seq<String>,
)
    ensures
        ({
            let args = tool_args(format, volume_size, password, archive, inputs);
            let n = args.len() - inputs.len();
            &&& args[0] == "a"@
            &&& format == ArchiveFormat::SevenZip ==> args[1] == "-t7z"@ && args[2] == "-mx=0"@
            &&& format == ArchiveFormat::Zip ==> args[1] == "-tzip"@ && args[2] == "-mx=0"@
            &&& format == ArchiveFormat::Rar ==> args[1] == "-m0"@
            &&& args.skip(n) == text::texts(inputs)
            &&& args[n - 1] == archive
            &&& volume_size is None && password is None ==> n == mode_args(format).len() + 1
            &&& volume_size matches Some(size) ==> args[mode_args(format).len() as int] == "-v"@
                + text::decimal(size as nat) + "b"@
            &&& format == ArchiveFormat::SevenZip && password is Some ==> args[n - 2]
                == "-mhe=on"@
        }),
{
    let args = tool_args(format, volume_size, password, archive, inputs);
    let n = args.len() - inputs.len();
    assert(args.skip(n) =~= text::texts(inputs));
}

/// Why a split archive cannot be had.
#[derive(Debug)]
pub enum CompressError {
    /// Only 7z archives can be split.
    VolumesUnsupported { format: ArchiveFormat },
}

impl CompressError {
    /// What went wrong, in words.
    pub fn message(&self) -> (message: String)
        ensures
            match *self {
                CompressError::VolumesUnsupported { format } => message@
                    == "--volume-size is only supported with the 7z format (got `"@ + extension_of(
                    format,
                ) + "`)"@,
            },
    {
        match self {
            CompressError::VolumesUnsupported { format } => {
                let mut message: String = String::from_str(
                    "--volume-size is only supported with the 7z format (got `",
                );
                message.append((*format).extension());
                message.append("`)");
                message
            },
        }
    }
}

/// Refuse to split archives of other formats than 7z.
pub fn check_volumes(format: ArchiveFormat) -> (r: Result<(), CompressError>)
    ensures
        r is Ok <==> format == ArchiveFormat::SevenZip,
        r matches Err(CompressError::VolumesUnsupported { format: f }) ==> f == format,
{
    if format != ArchiveFormat::SevenZip {
        return Err(CompressError::VolumesUnsupported { format });
    }
    Ok(())
}

/// What is reported of a tool that failed.
pub open spec fn exit_text(tool: Seq<char>, status: Seq<char>, detail: Seq<char>) -> Seq<char> {
    "`"@ + tool + "` exited with "@ + status + if chars::trimmed(detail).len() == 0 {
        ""@
    } else {
        ": "@ + chars::trimmed(detail)
    }
}

/// Describe how a tool failed; `detail` is what it said about it.
pub fn exit_message(tool: &str, status: &str, detail: &str) -> (message: String)
    ensures
        message@ == exit_text(tool@, status@, detail@),
{
    let mut message: String = String::from_str("`");
    message.append(tool);
    message.append("` exited with ");
    message.append(status);
    let all: Vec<char> = text::chars_of(detail);
    let trimmed: &[char] = chars::trim(all.as_slice());
    if trimmed.len() == 0 {
        message.append("");
    } else {
        let mut tail: String = String::from_str(": ");
        text::push_chars(&mut tail, trimmed);
        message.append(tail.as_str());
    }
    message
}

/// The number of a volume of the split archive: the digits behind the name that
/// all volumes share. Other files have none.
pub open spec fn volume_number(name: Seq<char>) -> Option<nat> {
    let prefix = "archive.7z."@;
    let digits = name.skip(prefix.len() as int);
    if scan::starts_with(name, prefix) && scan::all_digits(digits) {
        scan::number_in(digits, u32::MAX as nat)
    } else {
        None
    }
}

/// The volumes among some files.
pub open spec fn volumes_among(names: Seq<String>) -> Seq<String>
    decreases names.len(),
{
    if names.len() == 0 {
        Seq::empty()
    } else if volume_number(names.last()@) is Some {
        volumes_among(names.drop_last()).push(names.last())
    } else {
        volumes_among(names.drop_last())
    }
}

/// Volumes are ordered by their numbers.
pub open spec fn volume_keys(volumes: Seq<String>) -> Seq<(Seq<u8>, u32)> {
    Seq::new(
        volumes.len(),
        |i: int| (Seq::<u8>::empty(), volume_number(volumes[i]@)->0 as u32),
    )
}

/// The volumes among some files are those numbered from 1 on, each of them once.
pub open spec fn are_consecutive(names: Seq<String>) -> bool {
    let found = volumes_among(names);
    &&& forall|i: int|
        0 <= i < found.len() ==> 1 <= volume_number((#[trigger] found[i])@)->0 <= found.len()
    &&& forall|i: int, j: int|
        0 <= i < j < found.len() ==> volume_number((#[trigger] found[i])@) != volume_number(
            (#[trigger] found[j])@,
        )
}

fn find_volume_number(name: &str) -> (number: Option<u32>)
    ensures
        match number {
            Some(n) => volume_number(name@) == Some(n as nat),
            None => volume_number(name@) is None,
        },
{
    let all: Vec<char> = text::chars_of(name);
    let prefix: Vec<char> = text::chars_of("archive.7z.");
    if !scan::begins_with(all.as_slice(), prefix.as_slice()) {
        return None;
    }
    let n: usize = all.len();
    let digits: &[char] = chars::part(all.as_slice(), prefix.len(), n);
    assert(digits@ =~= name@.skip(prefix@.len() as int));
    if !scan::only_digits(digits) {
        return None;
    }
    match scan::parse_number(digits, u32::MAX as u64) {
        Some(v) => Some(v as u32),
        None => None,
    }
}

proof fn lemma_volumes_are_numbered(names: Seq<String>)
    ensures
        forall|i: int|
            0 <= i < volumes_among(names).len() ==> volume_number(
                (#[trigger] volumes_among(names)[i])@,
            ) is Some && volume_number(volumes_among(names)[i]@)->0 <= u32::MAX,
    decreases names.len(),
{
    if names.len() > 0 {
        lemma_volumes_are_numbered(names.drop_last());
    }
}

proof fn lemma_rising(numbers: Seq<nat>, i: int)
    requires
        forall|k: int| 0 <= k < numbers.len() ==> 1 <= #[trigger] numbers[k] <= numbers.len(),
        forall|k: int, l: int|
            0 <= k < l < numbers.len() ==> #[trigger] numbers[k] < #[trigger] numbers[l],
        0 <= i < numbers.len(),
    ensures
        numbers[i] == i + 1,
{
    lemma_rising_low(numbers, i);
    lemma_rising_high(numbers, i);
}

proof fn lemma_rising_low(numbers: Seq<nat>, i: int)
    requires
        forall|k: int| 0 <= k < numbers.len() ==> 1 <= #[trigger] numbers[k],
        forall|k: int, l: int|
            0 <= k < l < numbers.len() ==> #[trigger] numbers[k] < #[trigger] numbers[l],
        0 <= i < numbers.len(),
    ensures
        numbers[i] >= i + 1,
    decreases i,
{
    if i > 0 {
        lemma_rising_low(numbers, i - 1);
        assert(numbers[i - 1] < numbers[i]);
    }
}

proof fn lemma_rising_high(numbers: Seq<nat>, i: int)
    requires
        forall|k: int| 0 <= k < numbers.len() ==> #[trigger] numbers[k] <= numbers.len(),
        forall|k: int, l: int|
            0 <= k < l < numbers.len() ==> #[trigger] numbers[k] < #[trigger] numbers[l],
        0 <= i < numbers.len(),
    ensures
        numbers[i] <= i + 1,
    decreases numbers.len() - i,
{
    if i < numbers.len() - 1 {
        lemma_rising_high(numbers, i + 1);
        assert(numbers[i] < numbers[i + 1]);
    }
}

/// The volumes among the files of a directory, in the order of their numbers.
/// Where they are numbered without a gap, number 1 comes first, number 2 second
/// and so on.
pub fn sorted_volumes(names: &[String]) -> (volumes: Vec<String>)
    ensures
        ({
            let found = volumes_among(names@);
            &&& volumes@.len() == found.len()
            &&& exists|order: Seq<usize>| #[trigger]
                order::is_order(volume_keys(found), 0, found.len() as int, order) && (forall|
                    k: int,
                |
                    0 <= k < volumes@.len() ==> #[trigger] volumes@[k] == found[order[k] as int])
        }),
        are_consecutive(names@) ==> forall|i: int|
            0 <= i < volumes@.len() ==> volume_number((#[trigger] volumes@[i])@) == Some(
                (i + 1) as nat,
            ),
{
    let n: usize = names.len();
    let mut found: Vec<String> = Vec::new();
    let mut keys: Vec<order::SortKey> = Vec::new();
    let mut i: usize = 0;
    assert(names@.take(0) =~= Seq::empty());
    while i < n
        invariant
            i <= n,
            n == names@.len(),
            found@ == volumes_among(names@.take(i as int)),
            keys@.len() == found@.len(),
            forall|k: int|
                0 <= k < keys@.len() ==> (#[trigger] keys@[k])@ == volume_keys(found@)[k],
        decreases n - i,
    {
        assert(names@.take(i + 1).drop_last() =~= names@.take(i as int));
        match find_volume_number(names[i].as_str()) {
            Some(number) => {
                let bytes: Vec<u8> = Vec::new();
                assert(bytes@ =~= Seq::<u8>::empty());
                let ghost before = found@;
                keys.push(order::SortKey { bytes, number });
                found.push(names[i].clone());
                assert forall|k: int| 0 <= k < keys@.len() implies (#[trigger] keys@[k])@
                    == volume_keys(found@)[k] by {
                    if k < before.len() {
                        assert(volume_keys(before)[k] == volume_keys(found@)[k]);
                    }
                }
            },
            None => {},
        }
        i = i + 1;
    }
    assert(names@.take(n as int) =~= names@);
    assert(order::key_views(keys@) =~= volume_keys(found@));
    let sorted: Vec<usize> = order::sort_order(keys.as_slice());
    let ghost all = found@;
    proof {
        assert forall|k: int, l: int| 0 <= k < l < sorted@.len() implies sorted@[k] != sorted@[l] by {
            order::law_order_lists_nothing_twice(
                volume_keys(all),
                0,
                all.len() as int,
                sorted@,
                k,
                l,
            );
        }
    }
    let volumes: Vec<String> = order::arrange(found, sorted.as_slice());
    proof {
        if are_consecutive(names@) {
            lemma_volumes_are_numbered(names@);
            lemma_numbers_rise(all, sorted@, volumes@);
        }
    }
    volumes
}

proof fn lemma_numbers_rise(found: Seq<String>, order: Seq<usize>, volumes: Seq<String>)
    requires
        order::is_order(volume_keys(found), 0, found.len() as int, order),
        volumes.len() == found.len(),
        forall|k: int| 0 <= k < volumes.len() ==> #[trigger] volumes[k] == found[order[k] as int],
        forall|i: int|
            0 <= i < found.len() ==> volume_number((#[trigger] found[i])@) is Some && volume_number(
                found[i]@,
            )->0 <= u32::MAX,
        forall|i: int|
            0 <= i < found.len() ==> 1 <= volume_number((#[trigger] found[i])@)->0 <= found.len(),
        forall|i: int, j: int|
            0 <= i < j < found.len() ==> volume_number((#[trigger] found[i])@) != volume_number(
                (#[trigger] found[j])@,
            ),
    ensures
        forall|i: int|
            0 <= i < volumes.len() ==> volume_number((#[trigger] volumes[i])@) == Some(
                (i + 1) as nat,
            ),
{
    let numbers = Seq::new(volumes.len(), |i: int| volume_number(volumes[i]@)->0);
    let keys = volume_keys(found);
    assert forall|k: int| 0 <= k < numbers.len() implies 1 <= #[trigger] numbers[k]
        <= numbers.len() by {
        assert(volumes[k] == found[order[k] as int]);
    }
    assert forall|k: int, l: int| 0 <= k < l < numbers.len() implies #[trigger] numbers[k]
        < #[trigger] numbers[l] by {
        let a = order[k] as int;
        let b = order[l] as int;
        assert(volumes[k] == found[a] && volumes[l] == found[b]);
        assert(order::comes_before(keys, a, b));
        order::law_order_lists_nothing_twice(keys, 0, found.len() as int, order, k, l);
        order::lemma_bytes_total(keys[a].0, keys[b].0);
        if a < b {
            assert(volume_number(found[a]@) != volume_number(found[b]@));
        } else {
            assert(volume_number(found[b]@) != volume_number(found[a]@));
        }
    }
    assert forall|i: int| 0 <= i < volumes.len() implies volume_number((#[trigger] volumes[i])@)
        == Some((i + 1) as nat) by {
        lemma_rising(numbers, i);
        assert(volumes[i] == found[order[i] as int]);
    }
}

/// How many of `listed` volumes are complete: all of them once the tool has
/// finished, and before that all but the last, which the tool still writes.
pub open spec fn sealed(listed: nat, finished: bool) -> nat {
    if finished {
        listed
    } else if listed == 0 {
        0
    } else {
        (listed - 1) as nat
    }
}

/// One look at the volumes: how many there are, and whether the tool has
/// finished.
pub struct Look {
    pub listed: nat,
    pub finished: bool,
}

/// The next volume to hand on, where some are handed on already: the one behind
/// them, once it is complete.
pub open spec fn next_volume(dispatched: nat, look: Look) -> Option<nat> {
    if dispatched < sealed(look.listed, look.finished) {
        Some(dispatched)
    } else {
        None
    }
}

/// The volumes that a new queue hands on, asked once for each look.
pub open spec fn handed_on(looks: Seq<Look>) -> Seq<nat>
    decreases looks.len(),
{
    if looks.len() == 0 {
        Seq::empty()
    } else {
        let before = handed_on(looks.drop_last());
        match next_volume(before.len(), looks.last()) {
            Some(i) => before.push(i),
            None => before,
        }
    }
}

/// The volumes that have been handed on so far.
pub struct VolumeQueue {
    pub dispatched: usize,
}

impl VolumeQueue {
    /// None yet.
    pub fn new() -> (queue: VolumeQueue)
        ensures
            queue.dispatched == 0,
    {
        VolumeQueue { dispatched: 0 }
    }

    /// The next volume to hand on, of `listed` in all: the first one that was not
    /// handed on, once it is complete.
    pub fn next(&mut self, listed: usize, finished: bool) -> (volume: Option<usize>)
        ensures
            ({
                let look = Look { listed: listed as nat, finished };
                match volume {
                    Some(i) => {
                        &&& next_volume(old(self).dispatched as nat, look) == Some(i as nat)
                        &&& final(self).dispatched == old(self).dispatched + 1
                    },
                    None => {
                        &&& next_volume(old(self).dispatched as nat, look) is None
                        &&& final(self).dispatched == old(self).dispatched
                    },
                }
            }),
    {
        let up_to: usize = if finished {
            listed
        } else if listed == 0 {
            0
        } else {
            listed - 1
        };
        if self.dispatched < up_to {
            let i: usize = self.dispatched;
            self.dispatched = i + 1;
            Some(i)
        } else {
            None
        }
    }
}

/// A volume that is handed on while the tool is at work has a successor.
pub proof fn law_only_complete_volumes_are_handed_on(volume: nat, listed: nat)
    ensures
        volume < sealed(listed, false) ==> volume + 1 < listed,
        volume < listed <==> volume < sealed(listed, true),
        sealed(listed, false) <= sealed(listed, true),
{
}

/// However often a queue is asked, it hands the volumes on from the first one on
/// without a gap, each of them once.
pub proof fn law_volumes_are_handed_on_in_order(looks: Seq<Look>)
    ensures
        handed_on(looks) == Seq::new(handed_on(looks).len(), |i: int| i as nat),
        handed_on(looks).no_duplicates(),
    decreases looks.len(),
{
    if looks.len() > 0 {
        law_volumes_are_handed_on_in_order(looks.drop_last());
    }
    assert(handed_on(looks) =~= Seq::new(handed_on(looks).len(), |i: int| i as nat));
}

proof fn lemma_handed_on_bound(looks: Seq<Look>, total: nat)
    requires
        forall|i: int| 0 <= i < looks.len() ==> (#[trigger] looks[i]).listed <= total,
    ensures
        handed_on(looks).len() <= total,
    decreases looks.len(),
{
    if looks.len() > 0 {
        let rest = looks.drop_last();
        assert forall|i: int| 0 <= i < rest.len() implies (#[trigger] rest[i]).listed <= total by {
            assert(rest[i] == looks[i]);
        }
        lemma_handed_on_bound(rest, total);
        assert(looks[looks.len() - 1].listed <= total);
    }
}

/// A queue that is asked until it has nothing left, once the tool has finished,
/// has handed on every volume, each of them once and in order.
pub proof fn law_every_volume_is_handed_on_once(looks: Seq<Look>, total: nat)
    requires
        forall|i: int| 0 <= i < looks.len() ==> (#[trigger] looks[i]).listed <= total,
        next_volume(handed_on(looks).len(), (Look { listed: total, finished: true })) is None,
    ensures
        handed_on(looks) == Seq::new(total, |i: int| i as nat),
{
    law_volumes_are_handed_on_in_order(looks);
    lemma_handed_on_bound(looks, total);
}

/// The parts of a search path, between colons.
pub open spec fn dirs_of(path: Seq<char>) -> Seq<Seq<char>>
    decreases path.len(),
{
    let k = chars::first_index(path, ':');
    if 0 <= k < path.len() {
        seq![path.take(k)] + dirs_of(path.skip(k + 1))
    } else {
        seq![path]
    }
}

/// Where a tool may be, given the search path: in each of its directories, in
/// their order.
pub fn binary_candidates(path: &str, name: &str) -> (candidates: Vec<String>)
    ensures
        candidates@.len() == dirs_of(path@).len(),
        forall|i: int|
            0 <= i < candidates@.len() ==> (#[trigger] candidates@[i])@ == paths::joined_path(
                dirs_of(path@)[i],
                name@,
            ),
{
    let all: Vec<char> = text::chars_of(path);
    let n: usize = all.len();
    let mut candidates: Vec<String> = Vec::new();
    let mut from: usize = 0;
    assert(path@.skip(0) =~= path@);
    loop
        invariant
            all@ == path@,
            n == all@.len(),
            from <= n,
            dirs_of(path@).len() == candidates@.len() + dirs_of(path@.skip(from as int)).len(),
            forall|i: int|
                0 <= i < candidates@.len() ==> (#[trigger] candidates@[i])@ == paths::joined_path(
                    dirs_of(path@)[i],
                    name@,
                ),
            forall|i: int|
                0 <= i < dirs_of(path@.skip(from as int)).len() ==> #[trigger] dirs_of(
                    path@.skip(from as int),
                )[i] == dirs_of(path@)[candidates@.len() + i],
        decreases n - from,
    {
        let rest: &[char] = chars::part(all.as_slice(), from, n);
        assert(rest@ =~= path@.skip(from as int));
        let k: usize = chars::find(rest, ':');
        let dir: &[char] = chars::part(rest, 0, k);
        assert(dir@ =~= rest@.take(k as int));
        let ghost before = candidates@;
        proof {
            assert(dirs_of(rest@)[0] == dirs_of(path@)[before.len() as int]);
            if k == rest@.len() {
                assert(rest@.take(k as int) =~= rest@);
            }
            assert(dirs_of(rest@)[0] == dir@);
        }
        candidates.push(paths::join_path(text::string_of(dir).as_str(), name));
        if k == n - from {
            return candidates;
        }
        proof {
            let tail = dirs_of(path@.skip(from + k + 1));
            assert(rest@.skip(k + 1) =~= path@.skip(from + k + 1));
            assert(dirs_of(rest@) == seq![rest@.take(k as int)] + tail);
            assert forall|i: int| 0 <= i < tail.len() implies #[trigger] tail[i] == dirs_of(
                path@,
            )[before.len() + 1 + i] by {
                assert(dirs_of(rest@)[i + 1] == dirs_of(path@)[before.len() + (i + 1)]);
            }
        }
        from = from + k + 1;
    }
}

/// One of the 62 characters of passwords.
pub open spec fn password_char(i: int) -> char {
    if i < 26 {
        (65 + i) as char
    } else if i < 52 {
        (71 + i) as char
    } else {
        (i - 4) as char
    }
}

/// The password that three random words stand for: each byte, from the lowest
/// up, gives a character.
pub open spec fn password_of(words: Seq<u64>) -> Seq<char> {
    Seq::new(24, |i: int| password_char(article::byte_of(words[i / 8], (i % 8) as nat) % 62))
}

/// Turn three random words into a password of 24 characters.
pub fn password_from(words: &[u64]) -> (password: String)
    requires
        words@.len() == 3,
    ensures
        password@ == password_of(words@),
{
    let bytes: Vec<u8> = article::word_bytes(words, 24);
    let mut password: String = String::new();
    let mut i: usize = 0;
    while i < 24
        invariant
            i <= 24,
            bytes@.len() == 24,
            forall|k: int|
                0 <= k < 24 ==> #[trigger] bytes@[k] == article::byte_of(
                    words@[k / 8],
                    (k % 8) as nat,
                ),
            password@ == password_of(words@).take(i as int),
        decreases 24 - i,
    {
        let r: u8 = bytes[i] % 62;
        let c: u8 = if r < 26 {
            65 + r
        } else if r < 52 {
            71 + r
        } else {
            r - 4
        };
        password.push(c as char);
        assert(password@ =~= password_of(words@).take(i + 1));
        i = i + 1;
    }
    assert(password@ =~= password_of(words@));
    password
}

/// Generate a random archive password: 24 ASCII alphanumeric characters. Each
/// call draws fresh words.
pub fn random_password() -> (password: String)
    ensures
        exists|words: Seq<u64>| words.len() == 3 && password@ == #[trigger] password_of(words),
{
    let mut words: Vec<u64> = Vec::new();
    words.push(environment::rand_u64());
    words.push(environment::rand_u64());
    words.push(environment::rand_u64());
    password_from(words.as_slice())
}

/// A password has 24 characters, all of them ASCII letters and digits.
pub proof fn law_passwords_are_alphanumeric(words: Seq<u64>, i: int)
    requires
        0 <= i < 24,
    ensures
        password_of(words).len() == 24,
        ({
            let c = password_of(words)[i];
            'A' <= c <= 'Z' || 'a' <= c <= 'z' || '0' <= c <= '9'
        }),
{
}

} // verus!
