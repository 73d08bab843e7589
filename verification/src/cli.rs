//! The command line: which options there are, what they mean, and which command they ask for.

use vstd::prelude::*;

use crate::header::OperatingPoint;
use crate::text;
use crate::text::NumberError;

verus! {

/// The number of trained models.
pub const MODELS: usize = 4;

/// The parsed command line.
#[derive(Debug)]
pub struct Args {
    pub positional: Vec<String>,
    pub models: Option<String>,
    pub op: Option<OperatingPoint>,
    pub max_channels: (Option<u16>, Option<u16>),
    pub ops: Vec<OperatingPoint>,
    pub model_ids: Vec<usize>,
    pub out: Option<String>,
    pub only: Option<String>,
    pub beta_disp: i32,
    pub single_thread: bool,
    pub scalar: bool,
    pub repeat: usize,
    pub time: bool,
    pub discard: bool,
    pub pool_mb: Option<usize>,
}

/// A command line as a value.
pub struct ArgsView {
    pub positional: Seq<Seq<char>>,
    pub models: Option<Seq<char>>,
    pub op: Option<OperatingPoint>,
    pub max_channels: (Option<u16>, Option<u16>),
    pub ops: Seq<OperatingPoint>,
    pub model_ids: Seq<usize>,
    pub out: Option<Seq<char>>,
    pub only: Option<Seq<char>>,
    pub beta_disp: i32,
    pub single_thread: bool,
    pub scalar: bool,
    pub repeat: usize,
    pub time: bool,
    pub discard: bool,
    pub pool_mb: Option<usize>,
}

/// Texts as values.
pub open spec fn texts(v: Seq<String>) -> Seq<Seq<char>> {
    Seq::new(v.len(), |i: int| v[i]@)
}

/// A text as a value, where there is one.
pub open spec fn text_of(s: Option<String>) -> Option<Seq<char>> {
    match s {
        Some(t) => Some(t@),
        None => None,
    }
}

impl Args {
    /// The command line as a value.
    pub open spec fn view(&self) -> ArgsView {
        ArgsView {
            positional: texts(self.positional@),
            models: text_of(self.models),
            op: self.op,
            max_channels: self.max_channels,
            ops: self.ops@,
            model_ids: self.model_ids@,
            out: text_of(self.out),
            only: text_of(self.only),
            beta_disp: self.beta_disp,
            single_thread: self.single_thread,
            scalar: self.scalar,
            repeat: self.repeat,
            time: self.time,
            discard: self.discard,
            pool_mb: self.pool_mb,
        }
    }
}

/// What is wrong with a command line.
#[derive(Debug, PartialEq, Eq)]
pub enum ArgError {
    /// The usage is asked for.
    Help,
    /// The option needs a value.
    NeedsValue(&'static str),
    /// The value is no operating point.
    UnknownOperatingPoint(String),
    /// There is no such model.
    UnknownModel(usize),
    /// The option's value is not a number that it takes.
    BadNumber(&'static str, NumberError),
    /// The value is not a part of a bundle.
    UnknownPart(String),
    /// The value is not two numbers.
    NeedsPair,
    /// There is no such option.
    UnknownOption(String),
}

/// The same as a value.
pub enum ArgErrorView {
    Help,
    NeedsValue(Seq<char>),
    UnknownOperatingPoint(Seq<char>),
    UnknownModel(usize),
    BadNumber(Seq<char>, NumberError),
    UnknownPart(Seq<char>),
    NeedsPair,
    UnknownOption(Seq<char>),
}

impl ArgError {
    /// The error as a value.
    pub open spec fn view(&self) -> ArgErrorView {
        match self {
            ArgError::Help => ArgErrorView::Help,
            ArgError::NeedsValue(n) => ArgErrorView::NeedsValue(n@),
            ArgError::UnknownOperatingPoint(v) => ArgErrorView::UnknownOperatingPoint(v@),
            ArgError::UnknownModel(n) => ArgErrorView::UnknownModel(*n),
            ArgError::BadNumber(n, e) => ArgErrorView::BadNumber(n@, *e),
            ArgError::UnknownPart(v) => ArgErrorView::UnknownPart(v@),
            ArgError::NeedsPair => ArgErrorView::NeedsPair,
            ArgError::UnknownOption(v) => ArgErrorView::UnknownOption(v@),
        }
    }
}

/// A result as a value.
pub open spec fn result_view(r: core::result::Result<Args, ArgError>) -> core::result::Result<
    ArgsView,
    ArgErrorView,
> {
    match r {
        Ok(a) => Ok(a.view()),
        Err(e) => Err(e.view()),
    }
}

/// A command line without options.
pub open spec fn no_args(models: Option<Seq<char>>) -> ArgsView {
    ArgsView {
        positional: seq![],
        models,
        op: None,
        max_channels: (None, None),
        ops: seq![],
        model_ids: seq![],
        out: None,
        only: None,
        beta_disp: 0,
        single_thread: false,
        scalar: false,
        repeat: 1,
        time: false,
        discard: false,
        pool_mb: None,
    }
}

/// The operating point of a name.
pub open spec fn spec_op(v: Seq<char>) -> Option<OperatingPoint> {
    if v == "sop"@ {
        Some(OperatingPoint::Sop)
    } else if v == "bop"@ {
        Some(OperatingPoint::Bop)
    } else if v == "hop"@ {
        Some(OperatingPoint::Hop)
    } else {
        None
    }
}

/// The option takes a value.
pub open spec fn takes_value(arg: Seq<char>) -> bool {
    ||| arg == "--models"@
    ||| arg == "--op"@
    ||| arg == "--model"@
    ||| arg == "--only"@
    ||| arg == "--out"@
    ||| arg == "--beta-disp"@
    ||| arg == "--max-channels"@
    ||| arg == "--repeat"@
    ||| arg == "--pool-mb"@
}

/// The two numbers of a pair, each of sixteen bits.
pub open spec fn spec_pair(v: Seq<char>, at: int) -> core::result::Result<(u16, u16), ArgErrorView> {
    match text::spec_number(v.take(at), 0, 0xffff) {
        Err(e) => Err(ArgErrorView::BadNumber("--max-channels"@, e)),
        Ok(y) => match text::spec_number(v.skip(at + 1), 0, 0xffff) {
            Err(e) => Err(ArgErrorView::BadNumber("--max-channels"@, e)),
            Ok(uv) => Ok((y as u16, uv as u16)),
        },
    }
}

/// Where the first comma stands.
pub open spec fn comma(v: Seq<char>, from: int) -> Option<int>
    decreases v.len() - from,
{
    if !(0 <= from < v.len()) {
        None
    } else if v[from] == ',' {
        Some(from)
    } else {
        comma(v, from + 1)
    }
}

/// The command line with an option and its value.
pub open spec fn with_value(a: ArgsView, arg: Seq<char>, v: Seq<char>) -> core::result::Result<
    ArgsView,
    ArgErrorView,
> {
    if arg == "--models"@ {
        Ok(ArgsView { models: Some(v), ..a })
    } else if arg == "--op"@ {
        match spec_op(v) {
            Some(op) => Ok(ArgsView { op: Some(op), ops: a.ops.push(op), ..a }),
            None => Err(ArgErrorView::UnknownOperatingPoint(v)),
        }
    } else if arg == "--model"@ {
        match text::spec_number(v, 0, usize::MAX as int) {
            Err(e) => Err(ArgErrorView::BadNumber("--model"@, e)),
            Ok(n) => if n >= 4 {
                Err(ArgErrorView::UnknownModel(n as usize))
            } else {
                Ok(ArgsView { model_ids: a.model_ids.push(n as usize), ..a })
            },
        }
    } else if arg == "--only"@ {
        if v == "common"@ || v == "synthesis"@ {
            Ok(ArgsView { only: Some(v), ..a })
        } else {
            Err(ArgErrorView::UnknownPart(v))
        }
    } else if arg == "--out"@ {
        Ok(ArgsView { out: Some(v), ..a })
    } else if arg == "--beta-disp"@ {
        match text::spec_number(v, i32::MIN as int, i32::MAX as int) {
            Err(e) => Err(ArgErrorView::BadNumber("--beta-disp"@, e)),
            Ok(n) => Ok(ArgsView { beta_disp: n as i32, ..a }),
        }
    } else if arg == "--max-channels"@ {
        match comma(v, 0) {
            None => Err(ArgErrorView::NeedsPair),
            Some(at) => match spec_pair(v, at) {
                Err(e) => Err(e),
                Ok((y, uv)) => Ok(ArgsView { max_channels: (Some(y), Some(uv)), ..a }),
            },
        }
    } else if arg == "--repeat"@ {
        match text::spec_number(v, 0, usize::MAX as int) {
            Err(e) => Err(ArgErrorView::BadNumber("--repeat"@, e)),
            Ok(n) => Ok(ArgsView { repeat: n as usize, time: true, ..a }),
        }
    } else {
        match text::spec_number(v, 0, usize::MAX as int) {
            Err(e) => Err(ArgErrorView::BadNumber("--pool-mb"@, e)),
            Ok(n) => Ok(ArgsView { pool_mb: Some(n as usize), ..a }),
        }
    }
}

/// The command line with an argument that takes no value.
pub open spec fn with_flag(a: ArgsView, arg: Seq<char>) -> core::result::Result<ArgsView, ArgErrorView> {
    if arg == "--single-thread"@ {
        Ok(ArgsView { single_thread: true, ..a })
    } else if arg == "--scalar"@ {
        Ok(ArgsView { scalar: true, ..a })
    } else if arg == "--time"@ {
        Ok(ArgsView { time: true, ..a })
    } else if arg == "--discard"@ {
        Ok(ArgsView { discard: true, ..a })
    } else if arg == "-h"@ || arg == "--help"@ {
        Err(ArgErrorView::Help)
    } else if text::stands_at(arg, "--"@, 0) {
        Err(ArgErrorView::UnknownOption(arg))
    } else {
        Ok(ArgsView { positional: a.positional.push(arg), ..a })
    }
}

/// The command line from argument `i` on.
pub open spec fn spec_parse(args: Seq<Seq<char>>, i: int, a: ArgsView) -> core::result::Result<
    ArgsView,
    ArgErrorView,
>
    decreases args.len() - i,
{
    if !(0 <= i < args.len()) {
        Ok(a)
    } else if takes_value(args[i]) {
        if i + 1 >= args.len() {
            Err(ArgErrorView::NeedsValue(args[i]))
        } else {
            match with_value(a, args[i], args[i + 1]) {
                Ok(b) => spec_parse(args, i + 2, b),
                Err(e) => Err(e),
            }
        }
    } else {
        match with_flag(a, args[i]) {
            Ok(b) => spec_parse(args, i + 1, b),
            Err(e) => Err(e),
        }
    }
}

/// The option of a name that takes a value, by the name that is used in messages.
fn value_option(arg: &str) -> (n: Option<&'static str>)
    ensures
        match n {
            Some(name) => takes_value(arg@) && name@ == arg@,
            None => !takes_value(arg@),
        },
{
    if text::same(arg, "--models") {
        Some("--models")
    } else if text::same(arg, "--op") {
        Some("--op")
    } else if text::same(arg, "--model") {
        Some("--model")
    } else if text::same(arg, "--only") {
        Some("--only")
    } else if text::same(arg, "--out") {
        Some("--out")
    } else if text::same(arg, "--beta-disp") {
        Some("--beta-disp")
    } else if text::same(arg, "--max-channels") {
        Some("--max-channels")
    } else if text::same(arg, "--repeat") {
        Some("--repeat")
    } else if text::same(arg, "--pool-mb") {
        Some("--pool-mb")
    } else {
        None
    }
}

/// A number of a command line, which fits `usize`.
fn read_usize(name: &'static str, v: &str) -> (r: core::result::Result<usize, ArgError>)
    ensures
        match text::spec_number(v@, 0, usize::MAX as int) {
            Ok(n) => r matches Ok(x) && x == n,
            Err(e) => r matches Err(x) && x.view() == ArgErrorView::BadNumber(name@, e),
        },
{
    match text::number(v, 0, usize::MAX as i128) {
        Ok(n) => {
            proof {
                text::lemma_number_within(v@, 0, usize::MAX as int);
            }
            Ok(n as usize)
        },
        Err(e) => Err(ArgError::BadNumber(name, e)),
    }
}

/// The two numbers of a pair.
fn read_pair(v: &str) -> (r: core::result::Result<(u16, u16), ArgError>)
    ensures
        match comma(v@, 0) {
            None => r matches Err(x) && x.view() == ArgErrorView::NeedsPair,
            Some(at) => match spec_pair(v@, at) {
                Ok(p) => r == Ok::<(u16, u16), ArgError>(p),
                Err(e) => r matches Err(x) && x.view() == e,
            },
        },
{
    let (a, b): (String, String) = match text::split_once(v, ',') {
        Some(p) => p,
        None => {
            proof {
                lemma_no_comma(v@, 0);
            }
            return Err(ArgError::NeedsPair);
        },
    };
    proof {
        let at = a@.len() as int;
        assert(v@[at] == ',');
        assert forall|j: int| 0 <= j < at implies #[trigger] v@[j] != ',' by {
            assert(v@[j] == a@[j]);
        }
        lemma_comma(v@, 0, at);
        assert(v@.take(at) =~= a@);
        assert(v@.skip(at + 1) =~= b@);
        text::lemma_number_within(a@, 0, 0xffff);
        text::lemma_number_within(b@, 0, 0xffff);
    }
    let y: i128 = match text::number(a.as_str(), 0, 0xffff) {
        Ok(n) => n,
        Err(e) => {
            return Err(ArgError::BadNumber("--max-channels", e));
        },
    };
    let uv: i128 = match text::number(b.as_str(), 0, 0xffff) {
        Ok(n) => n,
        Err(e) => {
            return Err(ArgError::BadNumber("--max-channels", e));
        },
    };
    Ok((y as u16, uv as u16))
}

/// Where there is no comma, none is found.
proof fn lemma_no_comma(v: Seq<char>, from: int)
    requires
        0 <= from <= v.len(),
        !v.contains(','),
    ensures
        comma(v, from) is None,
    decreases v.len() - from,
{
    if from < v.len() {
        assert(v[from] != ',');
        lemma_no_comma(v, from + 1);
    }
}

/// The first comma is found.
proof fn lemma_comma(v: Seq<char>, from: int, at: int)
    requires
        0 <= from <= at < v.len(),
        v[at] == ',',
        forall|j: int| from <= j < at ==> #[trigger] v[j] != ',',
    ensures
        comma(v, from) == Some(at),
    decreases at - from,
{
    if from < at {
        lemma_comma(v, from + 1, at);
    }
}

/// The operating point of a name.
fn read_op(v: &str) -> (op: Option<OperatingPoint>)
    ensures
        op == spec_op(v@),
{
    if text::same(v, "sop") {
        Some(OperatingPoint::Sop)
    } else if text::same(v, "bop") {
        Some(OperatingPoint::Bop)
    } else if text::same(v, "hop") {
        Some(OperatingPoint::Hop)
    } else {
        None
    }
}

impl Args {
    /// A command line without options; `models` is where the checkpoints are looked for.
    pub fn new(models: Option<String>) -> (a: Self)
        ensures
            a.view() == no_args(text_of(models)),
    {
        let a = Args {
            positional: Vec::new(),
            models,
            op: None,
            max_channels: (None, None),
            ops: Vec::new(),
            model_ids: Vec::new(),
            out: None,
            only: None,
            beta_disp: 0,
            single_thread: false,
            scalar: false,
            repeat: 1,
            time: false,
            discard: false,
            pool_mb: None,
        };
        proof {
            assert(a.view().positional =~= seq![]);
            assert(a.view().ops =~= seq![]);
            assert(a.view().model_ids =~= seq![]);
        }
        a
    }

    /// Take an option with its value.
    fn set_value(&mut self, arg: &str, v: &str) -> (r: core::result::Result<(), ArgError>)
        requires
            takes_value(arg@),
        ensures
            match with_value(old(self).view(), arg@, v@) {
                Ok(a) => r is Ok && final(self).view() == a,
                Err(e) => r matches Err(x) && x.view() == e,
            },
    {
        if text::same(arg, "--models") {
            self.models = Some(text::copy(v));
        } else if text::same(arg, "--op") {
            match read_op(v) {
                Some(op) => {
                    self.op = Some(op);
                    self.ops.push(op);
                },
                None => {
                    return Err(ArgError::UnknownOperatingPoint(text::copy(v)));
                },
            }
        } else if text::same(arg, "--model") {
            let n: usize = read_usize("--model", v)?;
            if n >= MODELS {
                return Err(ArgError::UnknownModel(n));
            }
            self.model_ids.push(n);
        } else if text::same(arg, "--only") {
            if !text::same(v, "common") && !text::same(v, "synthesis") {
                return Err(ArgError::UnknownPart(text::copy(v)));
            }
            self.only = Some(text::copy(v));
        } else if text::same(arg, "--out") {
            self.out = Some(text::copy(v));
        } else if text::same(arg, "--beta-disp") {
            match text::number(v, -0x8000_0000, 0x7fff_ffff) {
                Ok(n) => {
                    proof {
                        text::lemma_number_within(v@, -0x8000_0000, 0x7fff_ffff);
                    }
                    self.beta_disp = n as i32;
                },
                Err(e) => {
                    return Err(ArgError::BadNumber("--beta-disp", e));
                },
            }
        } else if text::same(arg, "--max-channels") {
            let (y, uv): (u16, u16) = read_pair(v)?;
            self.max_channels = (Some(y), Some(uv));
        } else if text::same(arg, "--repeat") {
            self.repeat = read_usize("--repeat", v)?;
            self.time = true;
        } else {
            self.pool_mb = Some(read_usize("--pool-mb", v)?);
        }
        Ok(())
    }

    /// Take an argument that takes no value.
    fn set_flag(&mut self, arg: &str) -> (r: core::result::Result<(), ArgError>)
        ensures
            match with_flag(old(self).view(), arg@) {
                Ok(a) => r is Ok && final(self).view() == a,
                Err(e) => r matches Err(x) && x.view() == e,
            },
    {
        if text::same(arg, "--single-thread") {
            self.single_thread = true;
        } else if text::same(arg, "--scalar") {
            self.scalar = true;
        } else if text::same(arg, "--time") {
            self.time = true;
        } else if text::same(arg, "--discard") {
            self.discard = true;
        } else if text::same(arg, "-h") || text::same(arg, "--help") {
            return Err(ArgError::Help);
        } else if text::begins(arg, "--") {
            return Err(ArgError::UnknownOption(text::copy(arg)));
        } else {
            let word: String = text::copy(arg);
            proof {
                let before = self.positional@;
                assert(texts(before.push(word)) =~= texts(before).push(arg@));
            }
            self.positional.push(word);
        }
        Ok(())
    }
}

/// Parse the arguments behind the program's name. `models` is where checkpoints are looked for
/// without `--models`.
pub fn parse_args(args: &Vec<String>, models: Option<String>) -> (r: core::result::Result<Args, ArgError>)
    ensures
        result_view(r) == spec_parse(texts(args@), 0, no_args(text_of(models))),
        r matches Ok(a) ==> models_exist(a.view()),
{
    let ghost start = no_args(text_of(models));
    let ghost words = texts(args@);
    let mut a = Args::new(models);
    let count: usize = args.len();
    let mut i: usize = 0;
    while i < count
        invariant
            i <= count,
            count == args@.len(),
            words == texts(args@),
            start == no_args(text_of(models)),
            spec_parse(words, 0, start) == spec_parse(words, i as int, a.view()),
        decreases count - i,
    {
        let arg: &str = args[i].as_str();
        proof {
            assert(words[i as int] == arg@);
        }
        match value_option(arg) {
            Some(name) => {
                if i + 1 >= count {
                    return Err(ArgError::NeedsValue(name));
                }
                let v: &str = args[i + 1].as_str();
                proof {
                    assert(words[i + 1] == v@);
                }
                a.set_value(arg, v)?;
                i = i + 2;
            },
            None => {
                a.set_flag(arg)?;
                i = i + 1;
            },
        }
    }
    proof {
        law_parsed_models_exist(words, 0, start);
    }
    Ok(a)
}

/// A command, with the paths that it works on.
#[derive(Debug, PartialEq, Eq)]
pub enum Command {
    /// Print the headers of a stream.
    Info(String),
    /// Pack the checkpoints of these models and operating points.
    PackModels {
        models: String,
        out: String,
        ids: Vec<usize>,
        ops: Vec<OperatingPoint>,
        common: bool,
        synthesis: bool,
    },
    /// Load the networks that a stream needs.
    Preload { models: String, input: String },
    /// Encode a picture.
    Encode { models: String, input: String, output: String, model_id: u8, op: OperatingPoint },
    /// Decode a stream.
    Decode { models: String, input: String, output: String },
}

/// Why a command cannot run.
#[derive(Clone, Copy, Debug, PartialEq, Eq, Structural)]
pub enum CommandError {
    /// There is no such command, or it has the wrong number of paths.
    Usage,
    /// The checkpoints are missing.
    NoModels,
    /// The file to write is missing.
    NoOut,
}

/// The models that are packed: those given, or all.
pub open spec fn packed_ids(given: Seq<usize>) -> Seq<usize> {
    if given.len() == 0 {
        seq![0usize, 1usize, 2usize, 3usize]
    } else {
        given
    }
}

/// The operating points that are packed: those given, or all.
pub open spec fn packed_ops(given: Seq<OperatingPoint>) -> Seq<OperatingPoint> {
    if given.len() == 0 {
        seq![OperatingPoint::Sop, OperatingPoint::Bop, OperatingPoint::Hop]
    } else {
        given
    }
}

/// The model of an encode: the first given, or 1.
pub open spec fn encode_model(given: Seq<usize>) -> int {
    if given.len() == 0 {
        1
    } else {
        given[0] as int
    }
}

/// What a command line asks for.
pub open spec fn asks_for(a: ArgsView, r: core::result::Result<Command, CommandError>) -> bool {
    let p = a.positional;
    if p.len() == 2 && p[0] == "info"@ {
        r matches Ok(Command::Info(input)) && input@ == p[1]
    } else if p.len() == 1 && p[0] == "pack-models"@ {
        if a.models is None {
            r == Err::<Command, CommandError>(CommandError::NoModels)
        } else if a.out is None {
            r == Err::<Command, CommandError>(CommandError::NoOut)
        } else {
            r matches Ok(Command::PackModels { models, out, ids, ops, common, synthesis })
                && Some(models@) == a.models && Some(out@) == a.out && ids@ == packed_ids(
                a.model_ids,
            ) && ops@ == packed_ops(a.ops) && common == (a.only is None || a.only == Some("common"@))
                && synthesis == (a.only is None || a.only != Some("common"@))
        }
    } else if p.len() == 2 && p[0] == "preload"@ {
        if a.models is None {
            r == Err::<Command, CommandError>(CommandError::NoModels)
        } else {
            r matches Ok(Command::Preload { models, input }) && Some(models@) == a.models && input@
                == p[1]
        }
    } else if p.len() == 3 && p[0] == "encode"@ {
        if a.models is None {
            r == Err::<Command, CommandError>(CommandError::NoModels)
        } else {
            r matches Ok(Command::Encode { models, input, output, model_id, op }) && Some(models@)
                == a.models && input@ == p[1] && output@ == p[2] && model_id == encode_model(
                a.model_ids,
            ) && op == (match a.op {
                Some(op) => op,
                None => OperatingPoint::Bop,
            })
        }
    } else if p.len() == 3 && p[0] == "decode"@ {
        if a.models is None {
            r == Err::<Command, CommandError>(CommandError::NoModels)
        } else {
            r matches Ok(Command::Decode { models, input, output }) && Some(models@) == a.models
                && input@ == p[1] && output@ == p[2]
        }
    } else {
        r == Err::<Command, CommandError>(CommandError::Usage)
    }
}

/// Every model that was given exists.
pub open spec fn models_exist(a: ArgsView) -> bool {
    forall|i: int| 0 <= i < a.model_ids.len() ==> #[trigger] a.model_ids[i] < 4
}

/// Models as a list of its own.
fn copied(v: &Vec<usize>) -> (out: Vec<usize>)
    ensures
        out@ == v@,
{
    let mut out: Vec<usize> = Vec::new();
    while out.len() < v.len()
        invariant
            out@.len() <= v@.len(),
            out@ == v@.take(out@.len() as int),
        decreases v@.len() - out@.len(),
    {
        let i: usize = out.len();
        proof {
            assert(v@.take(i + 1) =~= v@.take(i as int).push(v@[i as int]));
        }
        out.push(v[i]);
    }
    proof {
        assert(v@.take(v@.len() as int) =~= v@);
    }
    out
}

/// Operating points as a list of its own.
fn copied_ops(v: &Vec<OperatingPoint>) -> (out: Vec<OperatingPoint>)
    ensures
        out@ == v@,
{
    let mut out: Vec<OperatingPoint> = Vec::new();
    while out.len() < v.len()
        invariant
            out@.len() <= v@.len(),
            out@ == v@.take(out@.len() as int),
        decreases v@.len() - out@.len(),
    {
        let i: usize = out.len();
        proof {
            assert(v@.take(i + 1) =~= v@.take(i as int).push(v@[i as int]));
        }
        out.push(v[i]);
    }
    proof {
        assert(v@.take(v@.len() as int) =~= v@);
    }
    out
}

/// The models and operating points that are packed.
fn pack_lists(a: &Args) -> (l: (Vec<usize>, Vec<OperatingPoint>))
    ensures
        l.0@ == packed_ids(a.model_ids@),
        l.1@ == packed_ops(a.ops@),
{
    let ids: Vec<usize> = if a.model_ids.len() == 0 {
        let mut v: Vec<usize> = Vec::new();
        v.push(0);
        v.push(1);
        v.push(2);
        v.push(3);
        v
    } else {
        copied(&a.model_ids)
    };
    let ops: Vec<OperatingPoint> = if a.ops.len() == 0 {
        let mut v: Vec<OperatingPoint> = Vec::new();
        v.push(OperatingPoint::Sop);
        v.push(OperatingPoint::Bop);
        v.push(OperatingPoint::Hop);
        v
    } else {
        copied_ops(&a.ops)
    };
    proof {
        assert(ids@ =~= packed_ids(a.model_ids@));
        assert(ops@ =~= packed_ops(a.ops@));
    }
    (ids, ops)
}

/// The command that a command line asks for.
pub fn command(a: &Args) -> (r: core::result::Result<Command, CommandError>)
    requires
        models_exist(a.view()),
    ensures
        asks_for(a.view(), r),
{
    let n: usize = a.positional.len();
    if n == 0 {
        return Err(CommandError::Usage);
    }
    let name: &str = a.positional[0].as_str();
    proof {
        assert(a.view().positional[0] == name@);
        if n >= 2 {
            assert(a.view().positional[1] == a.positional@[1]@);
        }
        if n >= 3 {
            assert(a.view().positional[2] == a.positional@[2]@);
        }
    }
    if n == 2 && text::same(name, "info") {
        return Ok(Command::Info(text::copy(a.positional[1].as_str())));
    }
    let pack: bool = n == 1 && text::same(name, "pack-models");
    let preload: bool = n == 2 && text::same(name, "preload");
    let encode: bool = n == 3 && text::same(name, "encode");
    let decode: bool = n == 3 && text::same(name, "decode");
    if !pack && !preload && !encode && !decode {
        return Err(CommandError::Usage);
    }
    let models: String = match &a.models {
        Some(m) => text::copy(m.as_str()),
        None => {
            return Err(CommandError::NoModels);
        },
    };
    if pack {
        let out: String = match &a.out {
            Some(o) => text::copy(o.as_str()),
            None => {
                return Err(CommandError::NoOut);
            },
        };
        let (ids, ops): (Vec<usize>, Vec<OperatingPoint>) = pack_lists(a);
        let (common, synthesis): (bool, bool) = match &a.only {
            Some(part) => {
                let c: bool = text::same(part.as_str(), "common");
                (c, !c)
            },
            None => (true, true),
        };
        return Ok(Command::PackModels { models, out, ids, ops, common, synthesis });
    }
    let input: String = text::copy(a.positional[1].as_str());
    if preload {
        return Ok(Command::Preload { models, input });
    }
    let output: String = text::copy(a.positional[2].as_str());
    if encode {
        proof {
            if a.model_ids@.len() > 0 {
                assert(a.view().model_ids[0] < 4);
            }
        }
        let model_id: u8 = if a.model_ids.len() == 0 { 1 } else { a.model_ids[0] as u8 };
        let op: OperatingPoint = match a.op {
            Some(op) => op,
            None => OperatingPoint::Bop,
        };
        return Ok(Command::Encode { models, input, output, model_id, op });
    }
    Ok(Command::Decode { models, input, output })
}

/// Every model of a parsed command line exists.
pub proof fn law_parsed_models_exist(args: Seq<Seq<char>>, i: int, a: ArgsView)
    requires
        models_exist(a),
    ensures
        spec_parse(args, i, a) matches Ok(b) ==> models_exist(b),
    decreases args.len() - i,
{
    if 0 <= i < args.len() {
        if takes_value(args[i]) {
            if i + 1 < args.len() {
                if let Ok(b) = with_value(a, args[i], args[i + 1]) {
                    text::lemma_number_within(args[i + 1], 0, usize::MAX as int);
                    law_parsed_models_exist(args, i + 2, b);
                }
            }
        } else {
            if let Ok(b) = with_flag(a, args[i]) {
                law_parsed_models_exist(args, i + 1, b);
            }
        }
    }
}

/// A character in lower case, where it is an ASCII letter.
pub open spec fn lower(c: char) -> char {
    if 'A' <= c <= 'Z' {
        (c as int + 32) as char
    } else {
        c
    }
}

/// A file name ends in `.yuv`, whatever the case of its letters.
pub open spec fn spec_names_yuv(name: Seq<char>) -> bool {
    let n = name.len() as int;
    n >= 4 && name[n - 4] == '.' && lower(name[n - 3]) == 'y' && lower(name[n - 2]) == 'u' && lower(
        name[n - 1],
    ) == 'v'
}

/// Whether a file name ends in `.yuv`, whatever the case of its letters: the only names that raw
/// planes are written to.
pub fn names_yuv(name: &str) -> (b: bool)
    ensures
        b == spec_names_yuv(name@),
{
    let n: usize = name.unicode_len();
    if n < 4 {
        return false;
    }
    let (y, u, v): (char, char, char) = (
        name.get_char(n - 3),
        name.get_char(n - 2),
        name.get_char(n - 1),
    );
    name.get_char(n - 4) == '.' && (y == 'y' || y == 'Y') && (u == 'u' || u == 'U') && (v == 'v'
        || v == 'V')
}

} // verus!
