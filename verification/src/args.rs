//! The command line, and where the engine library and its files are looked for.
use vstd::prelude::*;

use crate::text::{chars_of, parse_integer, quoted, same_text};
#[allow(unused_imports)]
use crate::text::{integer_of, quoted_text, strings};
use crate::weights::BEAROFF_DB_FILENAME;

verus! {

/// The variable that names the engine library where no flag does.
pub const ENV_CAPI_LIB: &'static str = "BGSAGE_CAPI_LIB";

pub const FLAG_CAPI_LIB: &'static str = "--capi-lib";

pub const FLAG_WEIGHTS_DIR: &'static str = "--weights-dir";

pub const FLAG_BEAROFF_DB: &'static str = "--bearoff-db";

pub const FLAG_NO_BEAROFF_DB: &'static str = "--no-bearoff-db";

pub const FLAG_THREADS: &'static str = "--threads";

pub const FLAG_HELP: &'static str = "--help";

/// Where the weight files are, below the program's directory.
pub const DEFAULT_WEIGHTS_SUBDIR: &'static str = "models";

/// Where the bearoff database is, below the program's directory.
pub const DEFAULT_DATA_SUBDIR: &'static str = "data";

/// The exit code on a configuration that cannot be used.
pub const EXIT_CONFIG_ERROR: i32 = 2;

/// How the program is called, with the given name of the engine library.
pub open spec fn usage_text(lib: Seq<char>) -> Seq<char> {
    "usage: sage-engine-server ["@ + FLAG_CAPI_LIB@ + " <path>] ["@ + FLAG_WEIGHTS_DIR@ + " <dir>] ["@
        + FLAG_BEAROFF_DB@ + " <path> | "@ + FLAG_NO_BEAROFF_DB@ + "] ["@ + FLAG_THREADS@
        + " <n>]\nDefaults: engine library "@ + lib + " next to the executable (or $"@ + ENV_CAPI_LIB@
        + "), weights in <exe dir>/"@ + DEFAULT_WEIGHTS_SUBDIR@ + ", bearoff DB <exe dir>/"@
        + DEFAULT_DATA_SUBDIR@ + "/"@ + BEAROFF_DB_FILENAME@
}

/// How the program is called, with the given name of the engine library.
pub fn usage(lib_filename: &str) -> (r: String)
    ensures
        r@ == usage_text(lib_filename@),
{
    let mut r = String::from_str("usage: sage-engine-server [");
    r.append(FLAG_CAPI_LIB);
    r.append(" <path>] [");
    r.append(FLAG_WEIGHTS_DIR);
    r.append(" <dir>] [");
    r.append(FLAG_BEAROFF_DB);
    r.append(" <path> | ");
    r.append(FLAG_NO_BEAROFF_DB);
    r.append("] [");
    r.append(FLAG_THREADS);
    r.append(" <n>]\nDefaults: engine library ");
    r.append(lib_filename);
    r.append(" next to the executable (or $");
    r.append(ENV_CAPI_LIB);
    r.append("), weights in <exe dir>/");
    r.append(DEFAULT_WEIGHTS_SUBDIR);
    r.append(", bearoff DB <exe dir>/");
    r.append(DEFAULT_DATA_SUBDIR);
    r.append("/");
    r.append(BEAROFF_DB_FILENAME);
    r
}

/// What the command line asks for.
#[derive(Debug)]
pub struct Args {
    pub capi_lib: Option<String>,
    pub weights_dir: Option<String>,
    pub bearoff_db: Option<String>,
    pub no_bearoff_db: bool,
    pub threads: i32,
}

/// What the command line asks for, with its texts as sequences of characters.
pub struct ArgsView {
    pub capi_lib: Option<Seq<char>>,
    pub weights_dir: Option<Seq<char>>,
    pub bearoff_db: Option<Seq<char>>,
    pub no_bearoff_db: bool,
    pub threads: int,
}

/// An optional string as an optional sequence of characters.
pub open spec fn text_of(s: Option<String>) -> Option<Seq<char>> {
    match s {
        Some(s) => Some(s@),
        None => None,
    }
}

impl View for Args {
    type V = ArgsView;

    open spec fn view(&self) -> ArgsView {
        ArgsView {
            capi_lib: text_of(self.capi_lib),
            weights_dir: text_of(self.weights_dir),
            bearoff_db: text_of(self.bearoff_db),
            no_bearoff_db: self.no_bearoff_db,
            threads: self.threads as int,
        }
    }
}

/// What an empty command line asks for.
pub open spec fn no_args() -> ArgsView {
    ArgsView { capi_lib: None, weights_dir: None, bearoff_db: None, no_bearoff_db: false, threads: 0 }
}

/// A flag that the next argument belongs to.
pub open spec fn takes_value(flag: Seq<char>) -> bool {
    flag == FLAG_CAPI_LIB@ || flag == FLAG_WEIGHTS_DIR@ || flag == FLAG_BEAROFF_DB@ || flag
        == FLAG_THREADS@
}

/// The arguments with one flag and its value put over those before it.
pub open spec fn with_value(args: ArgsView, flag: Seq<char>, value: Seq<char>) -> Result<ArgsView, Seq<char>> {
    if flag == FLAG_CAPI_LIB@ {
        Ok(ArgsView { capi_lib: Some(value), ..args })
    } else if flag == FLAG_WEIGHTS_DIR@ {
        Ok(ArgsView { weights_dir: Some(value), ..args })
    } else if flag == FLAG_BEAROFF_DB@ {
        Ok(ArgsView { bearoff_db: Some(value), ..args })
    } else {
        match integer_of(value) {
            Some(n) => Ok(ArgsView { threads: n, ..args }),
            None => Err(FLAG_THREADS@ + " must be an integer"@),
        }
    }
}

/// Some arguments read in order, each over those before it, or what is wrong with
/// the first that cannot be.
pub open spec fn read_args(args: Seq<Seq<char>>, so_far: ArgsView, usage: Seq<char>) -> Result<
    ArgsView,
    Seq<char>,
>
    decreases args.len(),
{
    if args.len() == 0 {
        Ok(so_far)
    } else if takes_value(args[0]) {
        if args.len() < 2 {
            Err(args[0] + " requires a value\n"@ + usage)
        } else {
            match with_value(so_far, args[0], args[1]) {
                Ok(next) => read_args(args.skip(2), next, usage),
                Err(message) => Err(message),
            }
        }
    } else if args[0] == FLAG_NO_BEAROFF_DB@ {
        read_args(args.skip(1), ArgsView { no_bearoff_db: true, ..so_far }, usage)
    } else if args[0] == FLAG_HELP@ {
        Err(usage)
    } else {
        Err("unknown argument "@ + quoted_text(args[0]) + "\n"@ + usage)
    }
}

/// What a command line asks for, or what is wrong with it.
pub open spec fn args_of(args: Seq<Seq<char>>, usage: Seq<char>) -> Result<ArgsView, Seq<char>> {
    match read_args(args, no_args(), usage) {
        Ok(a) => if a.no_bearoff_db && a.bearoff_db is Some {
            Err(FLAG_BEAROFF_DB@ + " and "@ + FLAG_NO_BEAROFF_DB@ + " are mutually exclusive"@)
        } else {
            Ok(a)
        },
        Err(message) => Err(message),
    }
}

fn flag_takes_value(flag: &str) -> (r: bool)
    ensures
        r == takes_value(flag@),
{
    same_text(flag, FLAG_CAPI_LIB) || same_text(flag, FLAG_WEIGHTS_DIR) || same_text(
        flag,
        FLAG_BEAROFF_DB,
    ) || same_text(flag, FLAG_THREADS)
}

fn put_value(args: &mut Args, flag: &str, value: &str) -> (r: Result<(), String>)
    requires
        takes_value(flag@),
    ensures
        match with_value(old(args)@, flag@, value@) {
            Ok(a) => r is Ok && final(args)@ == a,
            Err(message) => r matches Err(m) && m@ == message,
        },
{
    if same_text(flag, FLAG_CAPI_LIB) {
        args.capi_lib = Some(value.to_owned());
    } else if same_text(flag, FLAG_WEIGHTS_DIR) {
        args.weights_dir = Some(value.to_owned());
    } else if same_text(flag, FLAG_BEAROFF_DB) {
        args.bearoff_db = Some(value.to_owned());
    } else {
        match parse_integer(&chars_of(value)) {
            Some(n) => {
                args.threads = n;
            },
            None => {
                let mut m = FLAG_THREADS.to_owned();
                m.append(" must be an integer");
                return Err(m);
            },
        }
    }
    Ok(())
}

/// Reads the command line, without the program's own name.
pub fn parse_args(line: &Vec<String>, lib_filename: &str) -> (r: Result<Args, String>)
    ensures
        match args_of(strings(line@), usage_text(lib_filename@)) {
            Ok(a) => r matches Ok(args) && args@ == a,
            Err(message) => r matches Err(m) && m@ == message,
        },
{
    let mut args = Args {
        capi_lib: None,
        weights_dir: None,
        bearoff_db: None,
        no_bearoff_db: false,
        threads: 0,
    };
    let ghost all = strings(line@);
    let ghost text = usage_text(lib_filename@);
    let mut i: usize = 0;
    proof {
        assert(all.skip(0) == all);
        assert(args@ == no_args());
    }
    while i < line.len()
        invariant
            i <= line.len(),
            all == strings(line@),
            text == usage_text(lib_filename@),
            read_args(all, no_args(), text) == read_args(all.skip(i as int), args@, text),
        decreases line.len() - i,
    {
        let ghost rest = all.skip(i as int);
        let flag = line[i].as_str();
        assert(rest[0] == flag@);
        if flag_takes_value(flag) {
            if i + 1 >= line.len() {
                let mut m = flag.to_owned();
                m.append(" requires a value\n");
                m.append(usage(lib_filename).as_str());
                return Err(m);
            }
            assert(rest[1] == line@[i + 1]@);
            assert(rest.skip(2) == all.skip(i + 2));
            match put_value(&mut args, flag, line[i + 1].as_str()) {
                Ok(()) => {},
                Err(m) => {
                    return Err(m);
                },
            }
            i = i + 2;
        } else if same_text(flag, FLAG_NO_BEAROFF_DB) {
            assert(rest.skip(1) == all.skip(i + 1));
            args.no_bearoff_db = true;
            i = i + 1;
        } else if same_text(flag, FLAG_HELP) {
            return Err(usage(lib_filename));
        } else {
            let mut m = String::from_str("unknown argument ");
            m.append(quoted(flag).as_str());
            m.append("\n");
            m.append(usage(lib_filename).as_str());
            return Err(m);
        }
    }
    assert(all.skip(i as int) == Seq::<Seq<char>>::empty());
    if args.no_bearoff_db && args.bearoff_db.is_some() {
        let mut m = FLAG_BEAROFF_DB.to_owned();
        m.append(" and ");
        m.append(FLAG_NO_BEAROFF_DB);
        m.append(" are mutually exclusive");
        return Err(m);
    }
    Ok(args)
}

/// Arguments are read in order, and what comes later goes over what came before.
pub proof fn law_args_in_order(
    first: Seq<Seq<char>>,
    second: Seq<Seq<char>>,
    so_far: ArgsView,
    usage: Seq<char>,
)
    requires
        read_args(first, so_far, usage) is Ok,
    ensures
        read_args(first + second, so_far, usage) == read_args(
            second,
            read_args(first, so_far, usage)->Ok_0,
            usage,
        ),
    decreases first.len(),
{
    let all = first + second;
    if first.len() == 0 {
        assert(all == second);
    } else if takes_value(first[0]) {
        assert(all.skip(2) == first.skip(2) + second);
        law_args_in_order(
            first.skip(2),
            second,
            with_value(so_far, first[0], first[1])->Ok_0,
            usage,
        );
    } else {
        assert(all.skip(1) == first.skip(1) + second);
        law_args_in_order(
            first.skip(1),
            second,
            ArgsView { no_bearoff_db: true, ..so_far },
            usage,
        );
    }
}

/// A command line that is accepted asks for a bearoff database and for none in no
/// case at once.
pub proof fn law_bearoff_flags_exclusive(args: Seq<Seq<char>>, usage: Seq<char>)
    requires
        args_of(args, usage) is Ok,
    ensures
        !(args_of(args, usage)->Ok_0.no_bearoff_db && args_of(args, usage)->Ok_0.bearoff_db is Some),
{
}

// Paths

/// The engine library: where the flag says, else where the environment says, else
/// beside the program.
pub open spec fn library_path<P>(flag: Option<P>, environment: Option<P>, beside: P) -> P {
    match flag {
        Some(p) => p,
        None => match environment {
            Some(p) => p,
            None => beside,
        },
    }
}

/// The engine library: where the flag says, else where the environment says, else
/// beside the program.
pub fn choose_library<P>(flag: Option<P>, environment: Option<P>, beside: P) -> (r: P)
    ensures
        r == library_path(flag, environment, beside),
{
    match flag {
        Some(p) => p,
        None => match environment {
            Some(p) => p,
            None => beside,
        },
    }
}

/// The weights directory: where the flag says, else the default.
pub open spec fn weights_path<P>(flag: Option<P>, default: P) -> P {
    match flag {
        Some(p) => p,
        None => default,
    }
}

/// The weights directory: where the flag says, else the default.
pub fn choose_weights_dir<P>(flag: Option<P>, default: P) -> (r: P)
    ensures
        r == weights_path(flag, default),
{
    match flag {
        Some(p) => p,
        None => default,
    }
}

/// The bearoff database: none where none is wanted, else where the flag says, else
/// the default.
pub open spec fn bearoff_path<P>(no_bearoff_db: bool, flag: Option<P>, default: P) -> Option<P> {
    if no_bearoff_db {
        None
    } else {
        match flag {
            Some(p) => Some(p),
            None => Some(default),
        }
    }
}

/// The bearoff database: none where none is wanted, else where the flag says, else
/// the default.
pub fn choose_bearoff_db<P>(no_bearoff_db: bool, flag: Option<P>, default: P) -> (r: Option<P>)
    ensures
        r == bearoff_path(no_bearoff_db, flag, default),
{
    if no_bearoff_db {
        None
    } else {
        match flag {
            Some(p) => Some(p),
            None => Some(default),
        }
    }
}

/// Whether the engine library can be loaded from where it was looked for.
pub fn check_library(path: &str, is_file: bool) -> (r: Result<(), String>)
    ensures
        is_file ==> r is Ok,
        !is_file ==> (r matches Err(m) && m@ == "engine library not found: "@ + path@ + " (set "@
            + FLAG_CAPI_LIB@ + " or "@ + ENV_CAPI_LIB@ + ")"@),
{
    if is_file {
        return Ok(());
    }
    let mut m = String::from_str("engine library not found: ");
    m.append(path);
    m.append(" (set ");
    m.append(FLAG_CAPI_LIB);
    m.append(" or ");
    m.append(ENV_CAPI_LIB);
    m.append(")");
    Err(m)
}

/// What is said of an engine library that is there and cannot be loaded.
pub fn library_unloadable(path: &str, reason: &str) -> (r: String)
    ensures
        r@ == "cannot load engine library "@ + path@ + ": "@ + reason@,
{
    let mut m = String::from_str("cannot load engine library ");
    m.append(path);
    m.append(": ");
    m.append(reason);
    m
}

// What holds of the command line and the paths

proof fn lemma_flags_differ()
    ensures
        FLAG_CAPI_LIB@ != FLAG_WEIGHTS_DIR@,
        FLAG_CAPI_LIB@ != FLAG_BEAROFF_DB@,
        FLAG_CAPI_LIB@ != FLAG_THREADS@,
        FLAG_WEIGHTS_DIR@ != FLAG_BEAROFF_DB@,
        FLAG_WEIGHTS_DIR@ != FLAG_THREADS@,
        FLAG_BEAROFF_DB@ != FLAG_THREADS@,
        FLAG_NO_BEAROFF_DB@ != FLAG_CAPI_LIB@,
        FLAG_NO_BEAROFF_DB@ != FLAG_WEIGHTS_DIR@,
        FLAG_NO_BEAROFF_DB@ != FLAG_BEAROFF_DB@,
        FLAG_NO_BEAROFF_DB@ != FLAG_THREADS@,
        FLAG_HELP@ != FLAG_CAPI_LIB@,
        FLAG_HELP@ != FLAG_WEIGHTS_DIR@,
        FLAG_HELP@ != FLAG_BEAROFF_DB@,
        FLAG_HELP@ != FLAG_THREADS@,
        FLAG_HELP@ != FLAG_NO_BEAROFF_DB@,
{
    reveal_strlit("--capi-lib");
    reveal_strlit("--weights-dir");
    reveal_strlit("--bearoff-db");
    reveal_strlit("--no-bearoff-db");
    reveal_strlit("--threads");
    reveal_strlit("--help");
    assert(FLAG_CAPI_LIB@.len() == 10 && FLAG_WEIGHTS_DIR@.len() == 13);
    assert(FLAG_BEAROFF_DB@.len() == 12 && FLAG_NO_BEAROFF_DB@.len() == 15);
    assert(FLAG_THREADS@.len() == 9 && FLAG_HELP@.len() == 6);
}

/// A flag at the head of a command line sets what it is for, over what came before it,
/// and nothing else; the rest of the line is read after it.
pub proof fn law_flag_sets_its_own(
    so_far: ArgsView,
    value: Seq<char>,
    rest: Seq<Seq<char>>,
    usage: Seq<char>,
)
    ensures
        read_args(seq![FLAG_CAPI_LIB@, value] + rest, so_far, usage) == read_args(
            rest,
            ArgsView { capi_lib: Some(value), ..so_far },
            usage,
        ),
        read_args(seq![FLAG_WEIGHTS_DIR@, value] + rest, so_far, usage) == read_args(
            rest,
            ArgsView { weights_dir: Some(value), ..so_far },
            usage,
        ),
        read_args(seq![FLAG_BEAROFF_DB@, value] + rest, so_far, usage) == read_args(
            rest,
            ArgsView { bearoff_db: Some(value), ..so_far },
            usage,
        ),
        read_args(seq![FLAG_NO_BEAROFF_DB@] + rest, so_far, usage) == read_args(
            rest,
            ArgsView { no_bearoff_db: true, ..so_far },
            usage,
        ),
        integer_of(value) matches Some(n) ==> read_args(
            seq![FLAG_THREADS@, value] + rest,
            so_far,
            usage,
        ) == read_args(rest, ArgsView { threads: n, ..so_far }, usage),
        integer_of(value) is None ==> read_args(seq![FLAG_THREADS@, value] + rest, so_far, usage) is Err,
{
    lemma_flags_differ();
    assert((seq![FLAG_CAPI_LIB@, value] + rest).skip(2) =~= rest);
    assert((seq![FLAG_WEIGHTS_DIR@, value] + rest).skip(2) =~= rest);
    assert((seq![FLAG_BEAROFF_DB@, value] + rest).skip(2) =~= rest);
    assert((seq![FLAG_THREADS@, value] + rest).skip(2) =~= rest);
    assert((seq![FLAG_NO_BEAROFF_DB@] + rest).skip(1) =~= rest);
}

/// What is refused at the head of a command line: a flag whose value is missing, the
/// request for help, which is answered with the usage, and whatever is no flag.
pub proof fn law_refused_at_head(first: Seq<char>, rest: Seq<Seq<char>>, so_far: ArgsView, usage: Seq<char>)
    ensures
        rest.len() == 0 && (first == FLAG_CAPI_LIB@ || first == FLAG_WEIGHTS_DIR@ || first
            == FLAG_BEAROFF_DB@ || first == FLAG_THREADS@) ==> read_args(
            seq![first] + rest,
            so_far,
            usage,
        ) is Err,
        first == FLAG_HELP@ ==> read_args(seq![first] + rest, so_far, usage) == Err::<
            ArgsView,
            Seq<char>,
        >(usage),
        first != FLAG_CAPI_LIB@ && first != FLAG_WEIGHTS_DIR@ && first != FLAG_BEAROFF_DB@ && first
            != FLAG_THREADS@ && first != FLAG_NO_BEAROFF_DB@ ==> read_args(
            seq![first] + rest,
            so_far,
            usage,
        ) is Err,
{
    lemma_flags_differ();
    assert((seq![first] + rest)[0] == first);
}

/// A command line that can be read is accepted unless it asks for a bearoff database and
/// for none at once, and then as it was read; an empty one asks for nothing.
pub proof fn law_line_accepted(args: Seq<Seq<char>>, usage: Seq<char>)
    ensures
        args_of(args, usage) is Ok <==> (read_args(args, no_args(), usage) matches Ok(a) && !(
        a.no_bearoff_db && a.bearoff_db is Some)),
        args_of(args, usage) is Ok ==> args_of(args, usage) == read_args(args, no_args(), usage),
        args.len() == 0 ==> (args_of(args, usage) matches Ok(a) && a.capi_lib is None && a.weights_dir is None
            && a.bearoff_db is None && !a.no_bearoff_db && a.threads == 0),
{
}

/// A path that a flag gives is taken, whatever else there is; the environment is looked
/// at only for the engine library and only where no flag is given; and the bearoff
/// database is left out exactly if that is asked for.
pub proof fn law_given_path_taken<P>(
    flag: Option<P>,
    environment: Option<P>,
    other: Option<P>,
    default: P,
    no_bearoff_db: bool,
)
    ensures
        flag matches Some(p) ==> library_path(flag, environment, default) == p && library_path(
            flag,
            other,
            default,
        ) == p && weights_path(flag, default) == p,
        flag is None ==> (environment matches Some(p) ==> library_path(flag, environment, default) == p),
        flag is None && environment is None ==> library_path(flag, environment, default) == default,
        flag is None ==> weights_path(flag, default) == default,
        bearoff_path(no_bearoff_db, flag, default) is None <==> no_bearoff_db,
        !no_bearoff_db ==> bearoff_path(no_bearoff_db, flag, default) == Some(weights_path(flag, default)),
{
}

} // verus!
