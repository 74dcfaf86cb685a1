use sage_engine_server::args::{
    check_library, choose_bearoff_db, choose_library, choose_weights_dir, library_unloadable,
    parse_args, usage, Args,
};
use sage_engine_server::weights::{path_cstring, Probe, WeightSet, STAGE9_PLAN_FILES};

const LIB: &str = "libbgsage_capi.so";

fn read(line: &[&str]) -> Result<Args, String> {
    let line: Vec<String> = line.iter().map(|arg| arg.to_string()).collect();
    parse_args(&line, LIB)
}

fn probes(dir: &str, missing: &[&str]) -> Vec<Probe> {
    STAGE9_PLAN_FILES
        .iter()
        .map(|file| Probe { path: format!("{dir}/{file}"), is_file: !missing.contains(file) })
        .collect()
}

#[test]
fn usage_names_every_flag() {
    assert_eq!(
        usage(LIB),
        "usage: sage-engine-server [--capi-lib <path>] [--weights-dir <dir>] \
         [--bearoff-db <path> | --no-bearoff-db] [--threads <n>]\n\
         Defaults: engine library libbgsage_capi.so next to the executable (or \
         $BGSAGE_CAPI_LIB), weights in <exe dir>/models, bearoff DB \
         <exe dir>/data/bearoff_1sided.db"
    );
}

#[test]
fn an_empty_line_asks_for_the_defaults() {
    let args = read(&[]).unwrap();
    assert_eq!(args.capi_lib, None);
    assert_eq!(args.weights_dir, None);
    assert_eq!(args.bearoff_db, None);
    assert!(!args.no_bearoff_db);
    assert_eq!(args.threads, 0);
}

#[test]
fn every_flag_is_read() {
    let args =
        read(&["--capi-lib", "a.so", "--weights-dir", "w", "--bearoff-db", "b.db", "--threads", "4"])
            .unwrap();
    assert_eq!(args.capi_lib.as_deref(), Some("a.so"));
    assert_eq!(args.weights_dir.as_deref(), Some("w"));
    assert_eq!(args.bearoff_db.as_deref(), Some("b.db"));
    assert_eq!(args.threads, 4);
    assert!(read(&["--no-bearoff-db"]).unwrap().no_bearoff_db);
}

#[test]
fn later_arguments_go_over_earlier_ones() {
    let args = read(&["--threads", "4", "--threads", "-2", "--capi-lib", "a", "--capi-lib", "b"]).unwrap();
    assert_eq!(args.threads, -2);
    assert_eq!(args.capi_lib.as_deref(), Some("b"));
}

#[test]
fn a_flag_may_be_a_value() {
    let args = read(&["--capi-lib", "--help"]).unwrap();
    assert_eq!(args.capi_lib.as_deref(), Some("--help"));
}

#[test]
fn threads_are_an_integer() {
    assert_eq!(read(&["--threads", "+7"]).unwrap().threads, 7);
    assert_eq!(read(&["--threads", "-2147483648"]).unwrap().threads, i32::MIN);
    for bad in ["", "-", "+", "4x", "2147483648", "-2147483649", "1.0"] {
        assert_eq!(read(&["--threads", bad]).unwrap_err(), "--threads must be an integer");
    }
}

#[test]
fn bad_lines_are_refused() {
    assert_eq!(
        read(&["--weights-dir"]).unwrap_err(),
        format!("--weights-dir requires a value\n{}", usage(LIB))
    );
    assert_eq!(read(&["--help"]).unwrap_err(), usage(LIB));
    assert_eq!(
        read(&["--frob", "--help"]).unwrap_err(),
        format!("unknown argument \"--frob\"\n{}", usage(LIB))
    );
    assert_eq!(
        read(&["--no-bearoff-db", "--bearoff-db", "x"]).unwrap_err(),
        "--bearoff-db and --no-bearoff-db are mutually exclusive"
    );
}

#[test]
fn the_flag_goes_before_the_environment() {
    assert_eq!(choose_library(Some("flag"), Some("env"), "beside"), "flag");
    assert_eq!(choose_library(None, Some("env"), "beside"), "env");
    assert_eq!(choose_library(None, None, "beside"), "beside");
    assert_eq!(choose_weights_dir(Some("w"), "models"), "w");
    assert_eq!(choose_weights_dir(None, "models"), "models");
    assert_eq!(choose_bearoff_db(true, Some("x"), "db"), None);
    assert_eq!(choose_bearoff_db(false, Some("x"), "db"), Some("x"));
    assert_eq!(choose_bearoff_db(false, None, "db"), Some("db"));
}

#[test]
fn a_missing_library_is_named() {
    assert!(check_library("a.so", true).is_ok());
    assert_eq!(
        check_library("a.so", false).unwrap_err(),
        "engine library not found: a.so (set --capi-lib or BGSAGE_CAPI_LIB)"
    );
    assert_eq!(library_unloadable("a.so", "bad"), "cannot load engine library a.so: bad");
}

#[test]
fn the_model_has_nineteen_slots_and_fewer_files() {
    let mut files: Vec<&str> = STAGE9_PLAN_FILES.to_vec();
    assert_eq!(files.len(), 19);
    for slot in [12, 15, 16] {
        assert_eq!(files[slot], files[11]);
    }
    files.sort();
    files.dedup();
    assert_eq!(files.len(), 16);
}

#[test]
fn a_whole_model_is_taken() {
    let set = WeightSet::stage9("m", &probes("m", &[]), None).unwrap();
    assert_eq!(set.strategy_type, "backgame_pair");
    assert_eq!(set.paths.len(), 19);
    assert_eq!(set.paths[18], "m/sl_s9_opponent_bg.weights.best");
    assert_eq!(set.hidden_sizes[0], 100);
    assert!(set.hidden_sizes[1..].iter().all(|size| *size == 400));
    assert_eq!(set.bearoff, None);
}

#[test]
fn missing_files_are_named_once() {
    let missing = ["sl_s9_prim_anch.weights.best", "sl_s9_purerace.weights.best"];
    assert_eq!(
        WeightSet::stage9("m", &probes("m", &missing), None).unwrap_err(),
        "missing weight files in m: m/sl_s9_purerace.weights.best, m/sl_s9_prim_anch.weights.best"
    );
}

#[test]
fn the_bearoff_database_must_be_there() {
    let there = Probe { path: "d/b.db".to_string(), is_file: true };
    let gone = Probe { path: "d/b.db".to_string(), is_file: false };
    let odd = Probe { path: "d/\0.db".to_string(), is_file: true };
    let files = probes("m", &[]);
    assert_eq!(
        WeightSet::stage9("m", &files, Some(&there)).unwrap().bearoff.as_deref(),
        Some("d/b.db")
    );
    assert_eq!(
        WeightSet::stage9("m", &files, Some(&gone)).unwrap_err(),
        "bearoff database not found: d/b.db"
    );
    assert_eq!(
        WeightSet::stage9("m", &files, Some(&odd)).unwrap_err(),
        "path contains a NUL byte: d/\0.db"
    );
}

#[test]
fn a_path_that_cannot_be_handed_on_is_named_first() {
    let files = probes("m\0", &["sl_s9_purerace.weights.best"]);
    assert_eq!(
        WeightSet::stage9("m\0", &files, None).unwrap_err(),
        "path contains a NUL byte: m\0/sl_s9_purerace.weights.best"
    );
    assert_eq!(path_cstring("a/b").unwrap(), "a/b");
}

#[test]
fn each_slot_holds_its_own_file() {
    let set = WeightSet::stage9("m", &probes("m", &[]), None).unwrap();
    for (slot, file) in STAGE9_PLAN_FILES.iter().enumerate() {
        assert_eq!(set.paths[slot], format!("m/{file}"));
    }
    for slot in [12, 15, 16] {
        assert_eq!(set.paths[slot], set.paths[11]);
    }
}
