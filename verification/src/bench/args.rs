//! The command lines of the benchmarks.

use crate::parameters::{device_spelled, Device};
use crate::text::{chars_of, decimal, lemma_number_of_decimal, lemma_number_range, number, parse_number};
use vstd::prelude::*;

verus! {

/// What follows a flag.
#[derive(Clone, Copy, Debug, PartialEq, Eq, Structural)]
pub enum FlagKind {
    /// A number, this at most.
    Number(u64),
    Text,
    /// The spelling of a device.
    Device,
    /// Nothing.
    Switch,
}

/// A flag that a program knows.
#[derive(Clone, Copy, Debug)]
pub struct Flag {
    pub name: &'static str,
    pub kind: FlagKind,
}

/// A flag that was given, by its place among the ones known, and what followed it.
#[derive(Clone, Debug, PartialEq, Eq)]
pub enum Given {
    Number { flag: usize, value: u64 },
    Text { flag: usize, text: String },
    Device { flag: usize, device: Device },
    Switch { flag: usize },
}

/// Why a command line cannot be read.
#[derive(Clone, Debug, PartialEq, Eq)]
pub enum ArgError {
    /// No flag has this name.
    Unknown(String),
    /// This flag stands last, where a value should follow it.
    MissingValue(String),
    /// What follows this flag is not a number it takes.
    BadNumber(String),
    /// What follows this flag spells no device.
    BadDevice(String),
}

/// What a [`Given`] says.
pub ghost enum Setting {
    Number(int, int),
    Text(int, Seq<char>),
    Device(int, Device),
    Switch(int),
}

/// What an [`ArgError`] says.
pub ghost enum Fault {
    Unknown(Seq<char>),
    MissingValue(Seq<char>),
    BadNumber(Seq<char>),
    BadDevice(Seq<char>),
}

impl Given {
    pub open spec fn view(self) -> Setting {
        match self {
            Given::Number { flag, value } => Setting::Number(flag as int, value as int),
            Given::Text { flag, text } => Setting::Text(flag as int, text@),
            Given::Device { flag, device } => Setting::Device(flag as int, device),
            Given::Switch { flag } => Setting::Switch(flag as int),
        }
    }
}

impl ArgError {
    pub open spec fn view(self) -> Fault {
        match self {
            ArgError::Unknown(s) => Fault::Unknown(s@),
            ArgError::MissingValue(s) => Fault::MissingValue(s@),
            ArgError::BadNumber(s) => Fault::BadNumber(s@),
            ArgError::BadDevice(s) => Fault::BadDevice(s@),
        }
    }
}

pub open spec fn views(given: Seq<Given>) -> Seq<Setting> {
    Seq::new(given.len(), |i: int| given[i].view())
}

/// The words of a command line.
pub open spec fn words(argv: Seq<String>) -> Seq<Seq<char>> {
    Seq::new(argv.len(), |i: int| argv[i]@)
}

/// The first of the flags from `k` on that has this name.
pub open spec fn flag_named(flags: Seq<Flag>, name: Seq<char>, k: int) -> Option<int>
    decreases flags.len() - k,
{
    if k >= flags.len() {
        None
    } else if flags[k].name@ == name {
        Some(k)
    } else {
        flag_named(flags, name, k + 1)
    }
}

/// One setting before others, unless those are at fault.
pub open spec fn before(first: Setting, rest: Result<Seq<Setting>, Fault>) -> Result<Seq<Setting>, Fault> {
    match rest {
        Ok(s) => Ok(seq![first] + s),
        Err(e) => Err(e),
    }
}

/// What the words from `i` on set.
pub open spec fn settings(argv: Seq<Seq<char>>, flags: Seq<Flag>, i: int) -> Result<Seq<Setting>, Fault>
    decreases argv.len() - i,
{
    if i >= argv.len() {
        Ok(Seq::empty())
    } else {
        match flag_named(flags, argv[i], 0) {
            None => Err(Fault::Unknown(argv[i])),
            Some(f) => match flags[f].kind {
                FlagKind::Switch => before(Setting::Switch(f), settings(argv, flags, i + 1)),
                FlagKind::Text => if i + 1 < argv.len() {
                    before(Setting::Text(f, argv[i + 1]), settings(argv, flags, i + 2))
                } else {
                    Err(Fault::MissingValue(argv[i]))
                },
                FlagKind::Device => if i + 1 < argv.len() {
                    match device_spelled(argv[i + 1]) {
                        Some(d) => before(Setting::Device(f, d), settings(argv, flags, i + 2)),
                        None => Err(Fault::BadDevice(argv[i])),
                    }
                } else {
                    Err(Fault::MissingValue(argv[i]))
                },
                FlagKind::Number(max) => if i + 1 < argv.len() {
                    match number(argv[i + 1], max as int) {
                        Some(v) => before(Setting::Number(f, v), settings(argv, flags, i + 2)),
                        None => Err(Fault::BadNumber(argv[i])),
                    }
                } else {
                    Err(Fault::MissingValue(argv[i]))
                },
            },
        }
    }
}

/// The settings of `done`, then those of `rest`.
pub open spec fn joined(done: Seq<Setting>, rest: Result<Seq<Setting>, Fault>) -> Result<Seq<Setting>, Fault> {
    match rest {
        Ok(s) => Ok(done + s),
        Err(e) => Err(e),
    }
}

/// Which flag has this name.
fn find_flag(flags: &[Flag], name: &String) -> (found: Option<usize>)
    ensures
        match found {
            Some(f) => flag_named(flags@, name@, 0) == Some(f as int) && f < flags.len(),
            None => flag_named(flags@, name@, 0) is None,
        },
{
    let mut k: usize = 0;
    while k < flags.len()
        invariant
            k <= flags.len(),
            flag_named(flags@, name@, 0) == flag_named(flags@, name@, k as int),
        decreases flags.len() - k,
    {
        let flag: Flag = flags[k];
        if *name == flag.name.to_owned() {
            return Some(k);
        }
        k += 1;
    }
    None
}

/// Read a command line, flag by flag.
pub fn read_flags(argv: &[String], flags: &[Flag]) -> (result: Result<Vec<Given>, ArgError>)
    ensures
        match result {
            Ok(given) => settings(words(argv@), flags@, 0) == Ok::<Seq<Setting>, Fault>(views(given@)),
            Err(e) => settings(words(argv@), flags@, 0) == Err::<Seq<Setting>, Fault>(e.view()),
        },
{
    let ghost all = words(argv@);
    let ghost whole = settings(all, flags@, 0);
    let mut given: Vec<Given> = Vec::new();
    let mut i: usize = 0;
    proof {
        assert(views(given@) =~= Seq::empty());
        match whole {
            Ok(s) => assert(Seq::<Setting>::empty() + s =~= s),
            Err(_) => {},
        }
    }
    while i < argv.len()
        invariant
            all == words(argv@),
            whole == settings(all, flags@, 0),
            i <= argv.len(),
            whole == joined(views(given@), settings(all, flags@, i as int)),
        decreases argv.len() - i,
    {
        let ghost done = views(given@);
        assert(all[i as int] == argv[i as int]@);
        let name: String = argv[i].as_str().to_owned();
        let f: usize = match find_flag(flags, &name) {
            Some(f) => f,
            None => return Err(ArgError::Unknown(name)),
        };
        let flag: Flag = flags[f];
        let next: Given = match flag.kind {
            FlagKind::Switch => {
                i += 1;
                Given::Switch { flag: f }
            },
            FlagKind::Text => {
                if argv.len() - i < 2 {
                    return Err(ArgError::MissingValue(name));
                }
                assert(all[i + 1] == argv[i + 1]@);
                let text: String = argv[i + 1].as_str().to_owned();
                i += 2;
                Given::Text { flag: f, text }
            },
            FlagKind::Device => {
                if argv.len() - i < 2 {
                    return Err(ArgError::MissingValue(name));
                }
                assert(all[i + 1] == argv[i + 1]@);
                let device: Device = match Device::parse(argv[i + 1].as_str()) {
                    Some(device) => device,
                    None => return Err(ArgError::BadDevice(name)),
                };
                i += 2;
                Given::Device { flag: f, device }
            },
            FlagKind::Number(max) => {
                if argv.len() - i < 2 {
                    return Err(ArgError::MissingValue(name));
                }
                assert(all[i + 1] == argv[i + 1]@);
                let value: u64 = match parse_number(&chars_of(argv[i + 1].as_str()), max) {
                    Some(value) => value,
                    None => return Err(ArgError::BadNumber(name)),
                };
                i += 2;
                Given::Number { flag: f, value }
            },
        };
        let ghost step = next.view();
        given.push(next);
        proof {
            assert(views(given@) =~= done.push(step));
            match settings(all, flags@, i as int) {
                Ok(s) => assert(done + (seq![step] + s) =~= done.push(step) + s),
                Err(_) => {},
            }
        }
    }
    proof {
        assert(views(given@) + Seq::<Setting>::empty() =~= views(given@));
    }
    Ok(given)
}

/// The number last given for a flag, `default` where there is none.
pub open spec fn last_number(given: Seq<Setting>, flag: int, default: int) -> int
    decreases given.len(),
{
    if given.len() == 0 {
        default
    } else {
        match given.last() {
            Setting::Number(f, v) => if f == flag {
                v
            } else {
                last_number(given.drop_last(), flag, default)
            },
            _ => last_number(given.drop_last(), flag, default),
        }
    }
}

/// The text last given for a flag.
pub open spec fn last_text(given: Seq<Setting>, flag: int) -> Option<Seq<char>>
    decreases given.len(),
{
    if given.len() == 0 {
        None
    } else {
        match given.last() {
            Setting::Text(f, v) => if f == flag {
                Some(v)
            } else {
                last_text(given.drop_last(), flag)
            },
            _ => last_text(given.drop_last(), flag),
        }
    }
}

/// The device last given for a flag, the host where there is none.
pub open spec fn last_device(given: Seq<Setting>, flag: int) -> Device
    decreases given.len(),
{
    if given.len() == 0 {
        Device::Cpu
    } else {
        match given.last() {
            Setting::Device(f, v) => if f == flag {
                v
            } else {
                last_device(given.drop_last(), flag)
            },
            _ => last_device(given.drop_last(), flag),
        }
    }
}

/// A switch was given.
pub open spec fn switched(given: Seq<Setting>, flag: int) -> bool {
    given.contains(Setting::Switch(flag))
}

/// A flag that takes a number is given with one it takes.
pub open spec fn in_range(given: Seq<Setting>, flags: Seq<Flag>) -> bool {
    forall|k: int| 0 <= k < given.len() ==> fits(#[trigger] given[k], flags)
}

/// The flag is a known one, and the number one it takes.
pub open spec fn fits(s: Setting, flags: Seq<Flag>) -> bool {
    match s {
        Setting::Number(f, v) => 0 <= f < flags.len() && (match flags[f].kind {
            FlagKind::Number(max) => 0 <= v <= max,
            _ => false,
        }),
        _ => true,
    }
}

proof fn lemma_flag_named(flags: Seq<Flag>, name: Seq<char>, k: int)
    requires
        0 <= k,
    ensures
        match flag_named(flags, name, k) {
            Some(f) => k <= f < flags.len() && flags[f].name@ == name,
            None => true,
        },
    decreases flags.len() - k,
{
    if k < flags.len() && flags[k].name@ != name {
        lemma_flag_named(flags, name, k + 1);
    }
}

/// No flag is set to a number beyond its largest.
pub proof fn lemma_in_range(argv: Seq<Seq<char>>, flags: Seq<Flag>, i: int)
    requires
        0 <= i,
    ensures
        match settings(argv, flags, i) {
            Ok(given) => in_range(given, flags),
            Err(_) => true,
        },
    decreases argv.len() - i,
{
    if i < argv.len() {
        lemma_flag_named(flags, argv[i], 0);
        lemma_in_range(argv, flags, i + 1);
        if i + 1 < argv.len() {
            lemma_in_range(argv, flags, i + 2);
        }
        match settings(argv, flags, i) {
            Ok(given) => {
                assert(given.len() > 0);
                let rest = given.drop_first();
                match flag_named(flags, argv[i], 0) {
                    Some(f) => match flags[f].kind {
                        FlagKind::Switch => assert(rest =~= settings(argv, flags, i + 1)->Ok_0),
                        FlagKind::Device => assert(rest =~= settings(argv, flags, i + 2)->Ok_0),
                        FlagKind::Text => assert(rest =~= settings(argv, flags, i + 2)->Ok_0),
                        FlagKind::Number(max) => {
                            lemma_number_range(argv[i + 1], max as int);
                            assert(rest =~= settings(argv, flags, i + 2)->Ok_0);
                        },
                    },
                    None => {},
                }
                assert forall|k: int| 0 <= k < given.len() implies fits(#[trigger] given[k], flags) by {
                    if k > 0 {
                        assert(given[k] == rest[k - 1]);
                    }
                }
            },
            Err(_) => {},
        }
    }
}

/// A number that the flag takes, or the default.
proof fn lemma_last_number(given: Seq<Setting>, flags: Seq<Flag>, flag: int, default: int, max: u64)
    requires
        in_range(given, flags),
        0 <= flag < flags.len(),
        flags[flag].kind == FlagKind::Number(max),
        0 <= default <= max,
    ensures
        0 <= last_number(given, flag, default) <= max,
    decreases given.len(),
{
    if given.len() > 0 {
        assert(fits(given[given.len() - 1], flags));
        assert forall|k: int| 0 <= k < given.drop_last().len() implies fits(
            #[trigger] given.drop_last()[k],
            flags,
        ) by {
            assert(given.drop_last()[k] == given[k]);
        }
        lemma_last_number(given.drop_last(), flags, flag, default, max);
    }
}

fn number_of(given: &Vec<Given>, flag: usize, default: u64) -> (value: u64)
    ensures
        value == last_number(views(given@), flag as int, default as int),
{
    let ghost all = views(given@);
    let mut i: usize = given.len();
    assert(all.subrange(0, all.len() as int) =~= all);
    while i > 0
        invariant
            all == views(given@),
            i <= given.len(),
            last_number(all, flag as int, default as int) == last_number(
                all.subrange(0, i as int),
                flag as int,
                default as int,
            ),
        decreases i,
    {
        proof {
            let head = all.subrange(0, i as int);
            assert(head.drop_last() =~= all.subrange(0, i - 1));
            assert(head.last() == given[i - 1].view());
        }
        i -= 1;
        match &given[i] {
            Given::Number { flag: f, value } => if *f == flag {
                return *value;
            },
            _ => {},
        }
    }
    default
}

/// The same text, or none in both.
pub open spec fn same_text(text: Option<String>, expected: Option<Seq<char>>) -> bool {
    match text {
        Some(s) => expected == Some(s@),
        None => expected is None,
    }
}

fn text_given(given: &Vec<Given>, flag: usize) -> (value: Option<String>)
    ensures
        same_text(value, last_text(views(given@), flag as int)),
{
    let ghost all = views(given@);
    let mut i: usize = given.len();
    assert(all.subrange(0, all.len() as int) =~= all);
    while i > 0
        invariant
            all == views(given@),
            i <= given.len(),
            last_text(all, flag as int) == last_text(all.subrange(0, i as int), flag as int),
        decreases i,
    {
        proof {
            let head = all.subrange(0, i as int);
            assert(head.drop_last() =~= all.subrange(0, i - 1));
            assert(head.last() == given[i - 1].view());
        }
        i -= 1;
        match &given[i] {
            Given::Text { flag: f, text } => if *f == flag {
                return Some(text.as_str().to_owned());
            },
            _ => {},
        }
    }
    None
}

fn device_given(given: &Vec<Given>, flag: usize) -> (device: Device)
    ensures
        device == last_device(views(given@), flag as int),
{
    let ghost all = views(given@);
    let mut i: usize = given.len();
    assert(all.subrange(0, all.len() as int) =~= all);
    while i > 0
        invariant
            all == views(given@),
            i <= given.len(),
            last_device(all, flag as int) == last_device(all.subrange(0, i as int), flag as int),
        decreases i,
    {
        proof {
            let head = all.subrange(0, i as int);
            assert(head.drop_last() =~= all.subrange(0, i - 1));
            assert(head.last() == given[i - 1].view());
        }
        i -= 1;
        match &given[i] {
            Given::Device { flag: f, device } => if *f == flag {
                return *device;
            },
            _ => {},
        }
    }
    Device::Cpu
}

fn is_switched(given: &Vec<Given>, flag: usize) -> (yes: bool)
    ensures
        yes == switched(views(given@), flag as int),
{
    let ghost all = views(given@);
    let mut i: usize = 0;
    while i < given.len()
        invariant
            all == views(given@),
            i <= given.len(),
            forall|k: int| 0 <= k < i ==> #[trigger] all[k] != Setting::Switch(flag as int),
        decreases given.len() - i,
    {
        assert(all[i as int] == given[i as int].view());
        match &given[i] {
            Given::Switch { flag: f } => if *f == flag {
                return true;
            },
            _ => {},
        }
        i += 1;
    }
    false
}

/// How the parameter sweep is run.
#[derive(Clone, Debug, PartialEq, Eq)]
pub struct SweepArgs {
    pub rows: usize,
    pub features: usize,
    pub rounds: u32,
    pub repeats: usize,
    pub threads: u32,
    /// Only groups whose name contains this are run.
    pub filter: Option<String>,
    /// The processor that the sweep runs on.
    pub device: Device,
}

/// The flags of the parameter sweep.
pub open spec fn sweep_flags() -> Seq<Flag> {
    seq![
        Flag { name: "--rows", kind: FlagKind::Number(usize::MAX as u64) },
        Flag { name: "--features", kind: FlagKind::Number(usize::MAX as u64) },
        Flag { name: "--rounds", kind: FlagKind::Number(u32::MAX as u64) },
        Flag { name: "--repeats", kind: FlagKind::Number(usize::MAX as u64) },
        Flag { name: "--threads", kind: FlagKind::Number(u32::MAX as u64) },
        Flag { name: "--filter", kind: FlagKind::Text },
        Flag { name: "--device", kind: FlagKind::Device },
    ]
}

/// What a sweep's command line sets.
pub open spec fn sweep_given(args: SweepArgs, given: Seq<Setting>) -> bool {
    &&& args.rows == last_number(given, 0, 200_000)
    &&& args.features == last_number(given, 1, 40)
    &&& args.rounds == last_number(given, 2, 10)
    &&& args.repeats == last_number(given, 3, 3)
    &&& args.threads == last_number(given, 4, 0)
    &&& same_text(args.filter, last_text(given, 5))
    &&& args.device == last_device(given, 6)
}

impl SweepArgs {
    /// Read the command line of the parameter sweep. A flag given twice has the later value.
    pub fn parse_args(argv: &[String]) -> (result: Result<SweepArgs, ArgError>)
        ensures
            match result {
                Ok(args) => match settings(words(argv@), sweep_flags(), 0) {
                    Ok(given) => sweep_given(args, given),
                    Err(_) => false,
                },
                Err(e) => settings(words(argv@), sweep_flags(), 0) == Err::<Seq<Setting>, Fault>(e.view()),
            },
    {
        let flags: Vec<Flag> = vec![
            Flag { name: "--rows", kind: FlagKind::Number(usize::MAX as u64) },
            Flag { name: "--features", kind: FlagKind::Number(usize::MAX as u64) },
            Flag { name: "--rounds", kind: FlagKind::Number(u32::MAX as u64) },
            Flag { name: "--repeats", kind: FlagKind::Number(usize::MAX as u64) },
            Flag { name: "--threads", kind: FlagKind::Number(u32::MAX as u64) },
            Flag { name: "--filter", kind: FlagKind::Text },
            Flag { name: "--device", kind: FlagKind::Device },
        ];
        assert(flags@ =~= sweep_flags());
        let given: Vec<Given> = match read_flags(argv, flags.as_slice()) {
            Ok(given) => given,
            Err(e) => return Err(e),
        };
        proof {
            let all = views(given@);
            lemma_in_range(words(argv@), sweep_flags(), 0);
            lemma_last_number(all, sweep_flags(), 0, 200_000, usize::MAX as u64);
            lemma_last_number(all, sweep_flags(), 1, 40, usize::MAX as u64);
            lemma_last_number(all, sweep_flags(), 2, 10, u32::MAX as u64);
            lemma_last_number(all, sweep_flags(), 3, 3, usize::MAX as u64);
            lemma_last_number(all, sweep_flags(), 4, 0, u32::MAX as u64);
        }
        Ok(
            SweepArgs {
                rows: number_of(&given, 0, 200_000) as usize,
                features: number_of(&given, 1, 40) as usize,
                rounds: number_of(&given, 2, 10) as u32,
                repeats: number_of(&given, 3, 3) as usize,
                threads: number_of(&given, 4, 0) as u32,
                filter: text_given(&given, 5),
                device: device_given(&given, 6),
            },
        )
    }
}

/// How the training benchmark is run. The three rates are given as text; the matrix is full
/// and nothing is sampled where they are not.
#[derive(Clone, Debug, PartialEq, Eq)]
pub struct FitArgs {
    pub rows: usize,
    pub features: usize,
    pub rounds: u32,
    pub depth: u32,
    pub max_bin: u32,
    pub sparsity: Option<String>,
    pub subsample: Option<String>,
    pub colsample: Option<String>,
    pub threads: usize,
    pub repeats: usize,
    /// Where the generated dataset is written.
    pub dump: Option<String>,
    /// Report the cost of the setup apart from that of a round.
    pub breakdown: bool,
    /// Print a checksum of the model.
    pub hash: bool,
}

/// The flags of the training benchmark.
pub open spec fn fit_flags() -> Seq<Flag> {
    seq![
        Flag { name: "--rows", kind: FlagKind::Number(usize::MAX as u64) },
        Flag { name: "--features", kind: FlagKind::Number(usize::MAX as u64) },
        Flag { name: "--rounds", kind: FlagKind::Number(u32::MAX as u64) },
        Flag { name: "--depth", kind: FlagKind::Number(u32::MAX as u64) },
        Flag { name: "--max-bin", kind: FlagKind::Number(u32::MAX as u64) },
        Flag { name: "--sparsity", kind: FlagKind::Text },
        Flag { name: "--subsample", kind: FlagKind::Text },
        Flag { name: "--colsample", kind: FlagKind::Text },
        Flag { name: "--threads", kind: FlagKind::Number(usize::MAX as u64) },
        Flag { name: "--repeats", kind: FlagKind::Number(usize::MAX as u64) },
        Flag { name: "--dump", kind: FlagKind::Text },
        Flag { name: "--breakdown", kind: FlagKind::Switch },
        Flag { name: "--hash", kind: FlagKind::Switch },
    ]
}

/// What the training benchmark's command line sets.
pub open spec fn fit_given(args: FitArgs, given: Seq<Setting>) -> bool {
    &&& args.rows == last_number(given, 0, 100_000)
    &&& args.features == last_number(given, 1, 50)
    &&& args.rounds == last_number(given, 2, 20)
    &&& args.depth == last_number(given, 3, 6)
    &&& args.max_bin == last_number(given, 4, 256)
    &&& same_text(args.sparsity, last_text(given, 5))
    &&& same_text(args.subsample, last_text(given, 6))
    &&& same_text(args.colsample, last_text(given, 7))
    &&& args.threads == last_number(given, 8, 0)
    &&& args.repeats == last_number(given, 9, 1)
    &&& same_text(args.dump, last_text(given, 10))
    &&& args.breakdown == switched(given, 11)
    &&& args.hash == switched(given, 12)
}

impl FitArgs {
    /// Read the command line of the training benchmark. A flag given twice has the later
    /// value.
    pub fn parse_args(argv: &[String]) -> (result: Result<FitArgs, ArgError>)
        ensures
            match result {
                Ok(args) => match settings(words(argv@), fit_flags(), 0) {
                    Ok(given) => fit_given(args, given),
                    Err(_) => false,
                },
                Err(e) => settings(words(argv@), fit_flags(), 0) == Err::<Seq<Setting>, Fault>(e.view()),
            },
    {
        let flags: Vec<Flag> = vec![
            Flag { name: "--rows", kind: FlagKind::Number(usize::MAX as u64) },
            Flag { name: "--features", kind: FlagKind::Number(usize::MAX as u64) },
            Flag { name: "--rounds", kind: FlagKind::Number(u32::MAX as u64) },
            Flag { name: "--depth", kind: FlagKind::Number(u32::MAX as u64) },
            Flag { name: "--max-bin", kind: FlagKind::Number(u32::MAX as u64) },
            Flag { name: "--sparsity", kind: FlagKind::Text },
            Flag { name: "--subsample", kind: FlagKind::Text },
            Flag { name: "--colsample", kind: FlagKind::Text },
            Flag { name: "--threads", kind: FlagKind::Number(usize::MAX as u64) },
            Flag { name: "--repeats", kind: FlagKind::Number(usize::MAX as u64) },
            Flag { name: "--dump", kind: FlagKind::Text },
            Flag { name: "--breakdown", kind: FlagKind::Switch },
            Flag { name: "--hash", kind: FlagKind::Switch },
        ];
        assert(flags@ =~= fit_flags());
        let given: Vec<Given> = match read_flags(argv, flags.as_slice()) {
            Ok(given) => given,
            Err(e) => return Err(e),
        };
        proof {
            let all = views(given@);
            lemma_in_range(words(argv@), fit_flags(), 0);
            lemma_last_number(all, fit_flags(), 0, 100_000, usize::MAX as u64);
            lemma_last_number(all, fit_flags(), 1, 50, usize::MAX as u64);
            lemma_last_number(all, fit_flags(), 2, 20, u32::MAX as u64);
            lemma_last_number(all, fit_flags(), 3, 6, u32::MAX as u64);
            lemma_last_number(all, fit_flags(), 4, 256, u32::MAX as u64);
            lemma_last_number(all, fit_flags(), 8, 0, usize::MAX as u64);
            lemma_last_number(all, fit_flags(), 9, 1, usize::MAX as u64);
        }
        Ok(
            FitArgs {
                rows: number_of(&given, 0, 100_000) as usize,
                features: number_of(&given, 1, 50) as usize,
                rounds: number_of(&given, 2, 20) as u32,
                depth: number_of(&given, 3, 6) as u32,
                max_bin: number_of(&given, 4, 256) as u32,
                sparsity: text_given(&given, 5),
                subsample: text_given(&given, 6),
                colsample: text_given(&given, 7),
                threads: number_of(&given, 8, 0) as usize,
                repeats: number_of(&given, 9, 1) as usize,
                dump: text_given(&given, 10),
                breakdown: is_switched(&given, 11),
                hash: is_switched(&given, 12),
            },
        )
    }
}

/// A number from the environment: the default where the variable is not set or holds none.
pub fn env_usize(value: Option<&str>, default: usize) -> (n: usize)
    ensures
        n == (match value {
            Some(text) => match number(text@, usize::MAX as int) {
                Some(v) => v as usize,
                None => default,
            },
            None => default,
        }),
{
    match value {
        Some(text) => match parse_number(&chars_of(text), usize::MAX as u64) {
            Some(v) => v as usize,
            None => default,
        },
        None => default,
    }
}

/// Every flag of the sweep is found by its own name.
pub proof fn lemma_sweep_names()
    ensures
        flag_named(sweep_flags(), "--rows"@, 0) == Some(0int),
        flag_named(sweep_flags(), "--features"@, 0) == Some(1int),
        flag_named(sweep_flags(), "--rounds"@, 0) == Some(2int),
        flag_named(sweep_flags(), "--repeats"@, 0) == Some(3int),
        flag_named(sweep_flags(), "--threads"@, 0) == Some(4int),
        flag_named(sweep_flags(), "--filter"@, 0) == Some(5int),
        flag_named(sweep_flags(), "--device"@, 0) == Some(6int),
{
    reveal_strlit("--rows");
    reveal_strlit("--features");
    reveal_strlit("--rounds");
    reveal_strlit("--repeats");
    reveal_strlit("--threads");
    reveal_strlit("--filter");
    reveal_strlit("--device");
    assert("--rows"@.len() == 6);
    assert("--features"@.len() == 10);
    assert("--rounds"@.len() == 8);
    assert("--repeats"@.len() == 9);
    assert("--threads"@.len() == 9);
    assert("--filter"@.len() == 8);
    assert("--device"@.len() == 8);
    assert("--repeats"@[2] == 'r' && "--threads"@[2] == 't');
    assert("--rounds"@[2] == 'r' && "--filter"@[2] == 'f');
    assert("--rounds"@[2] == 'r' && "--device"@[2] == 'd');
    assert("--filter"@[2] == 'f' && "--device"@[2] == 'd');
    let flags = sweep_flags();
    assert(flags[0].name@ == "--rows"@);
    assert(flags[1].name@ == "--features"@);
    assert(flags[2].name@ == "--rounds"@);
    assert(flags[3].name@ == "--repeats"@);
    assert(flags[4].name@ == "--threads"@);
    assert(flags[5].name@ == "--filter"@);
    assert(flags[6].name@ == "--device"@);
    lemma_named_at(flags, "--rows"@, 0, 0);
    lemma_named_at(flags, "--features"@, 0, 1);
    lemma_named_at(flags, "--rounds"@, 0, 2);
    lemma_named_at(flags, "--repeats"@, 0, 3);
    lemma_named_at(flags, "--threads"@, 0, 4);
    lemma_named_at(flags, "--filter"@, 0, 5);
    lemma_named_at(flags, "--device"@, 0, 6);
}

/// Every flag of a single fit is found by its own name.
pub proof fn lemma_fit_names()
    ensures
        flag_named(fit_flags(), "--rows"@, 0) == Some(0int),
        flag_named(fit_flags(), "--features"@, 0) == Some(1int),
        flag_named(fit_flags(), "--rounds"@, 0) == Some(2int),
        flag_named(fit_flags(), "--depth"@, 0) == Some(3int),
        flag_named(fit_flags(), "--max-bin"@, 0) == Some(4int),
        flag_named(fit_flags(), "--sparsity"@, 0) == Some(5int),
        flag_named(fit_flags(), "--subsample"@, 0) == Some(6int),
        flag_named(fit_flags(), "--colsample"@, 0) == Some(7int),
        flag_named(fit_flags(), "--threads"@, 0) == Some(8int),
        flag_named(fit_flags(), "--repeats"@, 0) == Some(9int),
        flag_named(fit_flags(), "--dump"@, 0) == Some(10int),
        flag_named(fit_flags(), "--breakdown"@, 0) == Some(11int),
        flag_named(fit_flags(), "--hash"@, 0) == Some(12int),
{
    reveal_strlit("--rows");
    reveal_strlit("--features");
    reveal_strlit("--rounds");
    reveal_strlit("--depth");
    reveal_strlit("--max-bin");
    reveal_strlit("--sparsity");
    reveal_strlit("--subsample");
    reveal_strlit("--colsample");
    reveal_strlit("--threads");
    reveal_strlit("--repeats");
    reveal_strlit("--dump");
    reveal_strlit("--breakdown");
    reveal_strlit("--hash");
    assert("--rows"@.len() == 6);
    assert("--features"@.len() == 10);
    assert("--rounds"@.len() == 8);
    assert("--depth"@.len() == 7);
    assert("--max-bin"@.len() == 9);
    assert("--sparsity"@.len() == 10);
    assert("--subsample"@.len() == 11);
    assert("--colsample"@.len() == 11);
    assert("--threads"@.len() == 9);
    assert("--repeats"@.len() == 9);
    assert("--dump"@.len() == 6);
    assert("--breakdown"@.len() == 11);
    assert("--hash"@.len() == 6);
    assert("--features"@[2] == 'f' && "--sparsity"@[2] == 's');
    assert("--subsample"@[2] == 's' && "--colsample"@[2] == 'c');
    assert("--max-bin"@[2] == 'm' && "--threads"@[2] == 't');
    assert("--max-bin"@[2] == 'm' && "--repeats"@[2] == 'r');
    assert("--threads"@[2] == 't' && "--repeats"@[2] == 'r');
    assert("--rows"@[2] == 'r' && "--dump"@[2] == 'd');
    assert("--subsample"@[2] == 's' && "--breakdown"@[2] == 'b');
    assert("--colsample"@[2] == 'c' && "--breakdown"@[2] == 'b');
    assert("--rows"@[2] == 'r' && "--hash"@[2] == 'h');
    assert("--dump"@[2] == 'd' && "--hash"@[2] == 'h');
    let flags = fit_flags();
    assert(flags[0].name@ == "--rows"@);
    assert(flags[1].name@ == "--features"@);
    assert(flags[2].name@ == "--rounds"@);
    assert(flags[3].name@ == "--depth"@);
    assert(flags[4].name@ == "--max-bin"@);
    assert(flags[5].name@ == "--sparsity"@);
    assert(flags[6].name@ == "--subsample"@);
    assert(flags[7].name@ == "--colsample"@);
    assert(flags[8].name@ == "--threads"@);
    assert(flags[9].name@ == "--repeats"@);
    assert(flags[10].name@ == "--dump"@);
    assert(flags[11].name@ == "--breakdown"@);
    assert(flags[12].name@ == "--hash"@);
    lemma_named_at(flags, "--rows"@, 0, 0);
    lemma_named_at(flags, "--features"@, 0, 1);
    lemma_named_at(flags, "--rounds"@, 0, 2);
    lemma_named_at(flags, "--depth"@, 0, 3);
    lemma_named_at(flags, "--max-bin"@, 0, 4);
    lemma_named_at(flags, "--sparsity"@, 0, 5);
    lemma_named_at(flags, "--subsample"@, 0, 6);
    lemma_named_at(flags, "--colsample"@, 0, 7);
    lemma_named_at(flags, "--threads"@, 0, 8);
    lemma_named_at(flags, "--repeats"@, 0, 9);
    lemma_named_at(flags, "--dump"@, 0, 10);
    lemma_named_at(flags, "--breakdown"@, 0, 11);
    lemma_named_at(flags, "--hash"@, 0, 12);
}

proof fn lemma_named_at(flags: Seq<Flag>, name: Seq<char>, k: int, f: int)
    requires
        0 <= k <= f < flags.len(),
        flags[f].name@ == name,
        forall|i: int| k <= i < f ==> (#[trigger] flags[i]).name@ != name,
    ensures
        flag_named(flags, name, k) == Some(f),
    decreases f - k,
{
    if k < f {
        assert(flags[k].name@ != name);
        lemma_named_at(flags, name, k + 1, f);
    }
}

/// The first flag of a name is the one that is meant, and an unknown name means none.
pub proof fn lemma_flag_meant(flags: Seq<Flag>, name: Seq<char>, k: int)
    requires
        0 <= k,
    ensures
        flag_named(flags, name, k) is None <==> forall|i: int| k <= i < flags.len() ==> (#[trigger] flags[i]).name@ != name,
        flag_named(flags, name, k) matches Some(f) ==> k <= f < flags.len() && flags[f].name@ == name,
    decreases flags.len() - k,
{
    if k < flags.len() && flags[k].name@ != name {
        lemma_flag_meant(flags, name, k + 1);
    }
}

/// The last number, text or device given for a flag counts, and the default where none was given;
/// what is given for another flag changes nothing.
pub proof fn lemma_last_given(given: Seq<Setting>, f: int, g: int, v: int, text: Seq<char>, device: Device, default: int)
    ensures
        last_number(Seq::empty(), f, default) == default,
        last_text(Seq::empty(), f) is None,
        last_device(Seq::empty(), f) == Device::Cpu,
        last_number(given.push(Setting::Number(f, v)), f, default) == v,
        last_text(given.push(Setting::Text(f, text)), f) == Some(text),
        last_device(given.push(Setting::Device(f, device)), f) == device,
        g != f ==> last_number(given.push(Setting::Number(g, v)), f, default) == last_number(given, f, default),
        g != f ==> last_text(given.push(Setting::Text(g, text)), f) == last_text(given, f),
        g != f ==> last_device(given.push(Setting::Device(g, device)), f) == last_device(given, f),
        switched(given.push(Setting::Switch(f)), f),
        g != f ==> (switched(given.push(Setting::Switch(g)), f) <==> switched(given, f)),
{
    assert(given.push(Setting::Number(f, v)).drop_last() =~= given);
    assert(given.push(Setting::Number(g, v)).drop_last() =~= given);
    assert(given.push(Setting::Text(f, text)).drop_last() =~= given);
    assert(given.push(Setting::Text(g, text)).drop_last() =~= given);
    assert(given.push(Setting::Device(f, device)).drop_last() =~= given);
    assert(given.push(Setting::Device(g, device)).drop_last() =~= given);
    let own = given.push(Setting::Switch(f));
    assert(own[given.len() as int] == Setting::Switch(f));
    let other = given.push(Setting::Switch(g));
    if switched(given, f) {
        let k = choose|k: int| 0 <= k < given.len() && given[k] == Setting::Switch(f);
        assert(other[k] == Setting::Switch(f));
    }
    if g != f && switched(other, f) {
        let k = choose|k: int| 0 <= k < other.len() && other[k] == Setting::Switch(f);
        assert(given[k] == Setting::Switch(f));
    }
}

/// A number flag with a number after it is read and the rest read on; with something else after it,
/// or nothing, it is refused by its name, and so is a word that is no flag.
pub proof fn lemma_number_flag(argv: Seq<Seq<char>>, flags: Seq<Flag>, i: int, f: int, n: nat)
    requires
        0 <= i < argv.len(),
    ensures
        flag_named(flags, argv[i], 0) is None ==> settings(argv, flags, i) == Err::<Seq<Setting>, Fault>(
            Fault::Unknown(argv[i]),
        ),
        flag_named(flags, argv[i], 0) == Some(f) && !(flags[f].kind is Switch) && i + 1 == argv.len() ==> settings(
            argv,
            flags,
            i,
        ) == Err::<Seq<Setting>, Fault>(Fault::MissingValue(argv[i])),
        flag_named(flags, argv[i], 0) == Some(f) && flags[f].kind is Number && i + 1 < argv.len() && argv[i + 1]
            == decimal(n) && n <= flags[f].kind->Number_0 && settings(argv, flags, i + 2) is Ok ==> settings(
            argv,
            flags,
            i,
        ) == Ok::<Seq<Setting>, Fault>(seq![Setting::Number(f, n as int)] + settings(argv, flags, i + 2)->Ok_0),
        flag_named(flags, argv[i], 0) == Some(f) && flags[f].kind is Number && i + 1 < argv.len() && argv[i + 1]
            == decimal(n) && n > flags[f].kind->Number_0 ==> settings(argv, flags, i) == Err::<Seq<Setting>, Fault>(
            Fault::BadNumber(argv[i]),
        ),
        flag_named(flags, argv[i], 0) == Some(f) && flags[f].kind is Switch && settings(argv, flags, i + 1) is Ok
            ==> settings(argv, flags, i) == Ok::<Seq<Setting>, Fault>(
            seq![Setting::Switch(f)] + settings(argv, flags, i + 1)->Ok_0,
        ),
{
    if flag_named(flags, argv[i], 0) == Some(f) && flags[f].kind is Number {
        lemma_number_of_decimal(n, flags[f].kind->Number_0 as int);
    }
}

/// Without arguments the sweep and a single fit run on their defaults.
pub proof fn lemma_defaults(sweep: SweepArgs, fit: FitArgs)
    ensures
        sweep_given(sweep, Seq::empty()) ==> sweep.rows == 200_000 && sweep.features == 40 && sweep.rounds == 10
            && sweep.repeats == 3 && sweep.threads == 0 && sweep.filter is None && sweep.device is Cpu,
        fit_given(fit, Seq::empty()) ==> fit.rows == 100_000 && fit.features == 50 && fit.rounds == 20 && fit.depth == 6
            && fit.max_bin == 256 && fit.sparsity is None && fit.subsample is None && fit.colsample is None
            && fit.threads == 0 && fit.repeats == 1 && fit.dump is None && !fit.breakdown && !fit.hash,
{
}

/// What is given for a flag goes to the field of its name, and to no other.
pub proof fn lemma_sweep_fields(args: SweepArgs, given: Seq<Setting>, v: int, device: Device)
    ensures
        sweep_given(args, given.push(Setting::Number(0, v))) ==> args.rows == v && args.features == last_number(
            given,
            1,
            40,
        ),
        sweep_given(args, given.push(Setting::Number(1, v))) ==> args.features == v,
        sweep_given(args, given.push(Setting::Number(2, v))) ==> args.rounds == v,
        sweep_given(args, given.push(Setting::Number(3, v))) ==> args.repeats == v,
        sweep_given(args, given.push(Setting::Number(4, v))) ==> args.threads == v,
        sweep_given(args, given.push(Setting::Device(6, device))) ==> args.device == device,
{
    let none: Seq<char> = Seq::empty();
    lemma_last_given(given, 1, 0, v, none, device, 40);
}

/// What is given for a flag of a single fit goes to the field of its name.
pub proof fn lemma_fit_fields(args: FitArgs, given: Seq<Setting>, v: int, text: Seq<char>)
    ensures
        fit_given(args, given.push(Setting::Number(0, v))) ==> args.rows == v,
        fit_given(args, given.push(Setting::Number(1, v))) ==> args.features == v,
        fit_given(args, given.push(Setting::Number(2, v))) ==> args.rounds == v,
        fit_given(args, given.push(Setting::Number(3, v))) ==> args.depth == v,
        fit_given(args, given.push(Setting::Number(4, v))) ==> args.max_bin == v,
        fit_given(args, given.push(Setting::Text(5, text))) ==> args.sparsity is Some && args.sparsity->0@ == text,
        fit_given(args, given.push(Setting::Text(6, text))) ==> args.subsample is Some && args.subsample->0@ == text,
        fit_given(args, given.push(Setting::Text(7, text))) ==> args.colsample is Some && args.colsample->0@ == text,
        fit_given(args, given.push(Setting::Number(8, v))) ==> args.threads == v,
        fit_given(args, given.push(Setting::Number(9, v))) ==> args.repeats == v,
        fit_given(args, given.push(Setting::Text(10, text))) ==> args.dump is Some && args.dump->0@ == text,
        fit_given(args, given.push(Setting::Switch(11))) ==> args.breakdown,
        fit_given(args, given.push(Setting::Switch(12))) ==> args.hash,
{
    lemma_last_given(given, 11, 12, v, text, Device::Cpu, 0);
    lemma_last_given(given, 12, 11, v, text, Device::Cpu, 0);
}

} // verus!
