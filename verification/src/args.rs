//! The arguments of the programs. The first argument is the name of the program.

use vstd::prelude::*;
use crate::text::{chars_of, same_text};

verus! {

broadcast use vstd::string::group_string_axioms;

/// The files that are read when none are named.
pub open spec fn sample_files() -> Seq<Seq<char>> {
    seq![
        "output/sample_20260812_180359_Part_1.csv"@,
        "output/sample_20260812_180359_Part_2.csv"@,
        "output/sample_20260812_180359_Part_3.csv"@,
    ]
}

/// The files that are read when none are named.
fn default_files() -> (files: Vec<String>)
    ensures
        files.deep_view() == sample_files(),
{
    let mut files: Vec<String> = Vec::new();
    files.push("output/sample_20260812_180359_Part_1.csv".to_owned());
    files.push("output/sample_20260812_180359_Part_2.csv".to_owned());
    files.push("output/sample_20260812_180359_Part_3.csv".to_owned());
    assert(files.deep_view() == sample_files());
    files
}

/// The arguments from `start` on.
fn arguments_from(args: &Vec<String>, start: usize) -> (r: Vec<String>)
    requires
        start <= args@.len(),
    ensures
        r.deep_view() == args.deep_view().skip(start as int),
{
    let ghost all = args.deep_view();
    let mut r: Vec<String> = Vec::new();
    assert(r.deep_view() == all.subrange(start as int, start as int));
    for i in start..args.len()
        invariant
            start <= args@.len(),
            all == args.deep_view(),
            r.deep_view() == all.subrange(start as int, i as int),
    {
        let ghost before = r.deep_view();
        let arg = args[i].clone();
        assert(arg@ == all[i as int]);
        r.push(arg);
        assert(r.deep_view() == before.push(all[i as int]));
        assert(all.subrange(start as int, i + 1) == before.push(all[i as int]));
    }
    assert(all.skip(start as int) == all.subrange(start as int, all.len() as int));
    r
}

// ---------------------------------------------------------------------------
// Merging
// ---------------------------------------------------------------------------

/// The files to merge, and the file to write.
pub open spec fn merge_arguments(args: Seq<Seq<char>>) -> (Seq<Seq<char>>, Seq<char>) {
    if args.len() >= 3 && args[1] == "-o"@ {
        (args.skip(3), args[2])
    } else if args.len() >= 2 {
        (args.skip(1), "output_fast.xlsx"@)
    } else {
        (sample_files(), "output/merged_report.xlsx"@)
    }
}

/// The files to merge, and the file to write.
pub fn merge_options(args: &Vec<String>) -> (r: (Vec<String>, String))
    ensures
        (r.0.deep_view(), r.1@) == merge_arguments(args.deep_view()),
{
    let ghost all = args.deep_view();
    if args.len() >= 3 && same_text(args[1].as_str(), "-o") {
        assert(all[1] == args@[1]@ && all[2] == args@[2]@);
        (arguments_from(args, 3), args[2].clone())
    } else if args.len() >= 2 {
        assert(all[1] == args@[1]@);
        (arguments_from(args, 1), "output_fast.xlsx".to_owned())
    } else {
        (default_files(), "output/merged_report.xlsx".to_owned())
    }
}

// ---------------------------------------------------------------------------
// Comparing
// ---------------------------------------------------------------------------

/// The workbook to compare, and the files to compare it with.
pub open spec fn verify_arguments(args: Seq<Seq<char>>) -> (Seq<char>, Seq<Seq<char>>) {
    (
        if args.len() >= 2 {
            args[1]
        } else {
            "output/merged_report.xlsx"@
        },
        if args.len() >= 3 {
            args.skip(2)
        } else {
            sample_files()
        },
    )
}

/// The workbook to compare, and the files to compare it with.
pub fn verify_options(args: &Vec<String>) -> (r: (String, Vec<String>))
    ensures
        (r.0@, r.1.deep_view()) == verify_arguments(args.deep_view()),
{
    let xlsx = if args.len() >= 2 {
        assert(args.deep_view()[1] == args@[1]@);
        args[1].clone()
    } else {
        "output/merged_report.xlsx".to_owned()
    };
    let files = if args.len() >= 3 {
        arguments_from(args, 2)
    } else {
        default_files()
    };
    (xlsx, files)
}

// ---------------------------------------------------------------------------
// Streaming
// ---------------------------------------------------------------------------

/// Where `flag` first stands, at `from` or behind it; the end where it does not.
pub open spec fn flag_place(args: Seq<Seq<char>>, flag: Seq<char>, from: int) -> int
    decreases args.len() - from,
{
    if from >= args.len() || args[from] == flag {
        from
    } else {
        flag_place(args, flag, from + 1)
    }
}

/// The arguments without `--store`.
pub open spec fn without_store(args: Seq<Seq<char>>) -> Seq<Seq<char>> {
    args.filter(|arg: Seq<char>| arg != "--store"@)
}

/// The arguments without `--types` and the codes behind it.
pub open spec fn without_types(args: Seq<Seq<char>>) -> Seq<Seq<char>> {
    let at = flag_place(args, "--types"@, 1);
    if at + 2 <= args.len() {
        args.take(at) + args.skip(at + 2)
    } else if at < args.len() {
        args.take(at)
    } else {
        args
    }
}

/// The codes behind `--types`, where they are given.
pub open spec fn type_codes(args: Seq<Seq<char>>) -> Option<Seq<char>> {
    let at = flag_place(args, "--types"@, 1);
    if at + 2 <= args.len() {
        Some(args[at + 1])
    } else {
        None
    }
}

/// The file to write.
pub open spec fn stream_output(args: Seq<Seq<char>>) -> Seq<char> {
    if args.len() >= 3 && args[1] == "-o"@ {
        args[2]
    } else if args.len() >= 2 && !(args[1].len() > 0 && args[1][0] == '-') {
        args[1]
    } else {
        "output/piped_output.xlsx"@
    }
}

/// How to stream.
pub struct PipeOptions {
    /// Write the workbook without compressing it.
    pub store: bool,
    /// The codes of the columns' types, where they are declared.
    pub types: Option<String>,
    /// The file to write.
    pub output: String,
}

/// The arguments without `--store`.
fn drop_store(args: &Vec<String>) -> (r: Vec<String>)
    ensures
        r.deep_view() == without_store(args.deep_view()),
{
    let ghost all = args.deep_view();
    let ghost pred = |arg: Seq<char>| arg != "--store"@;
    let mut r: Vec<String> = Vec::new();
    assert(all.take(0).filter(pred) == Seq::<Seq<char>>::empty()) by {
        reveal(Seq::filter);
    }
    assert(r.deep_view() == Seq::<Seq<char>>::empty());
    for i in 0..args.len()
        invariant
            all == args.deep_view(),
            pred == (|arg: Seq<char>| arg != "--store"@),
            r.deep_view() == all.take(i as int).filter(pred),
    {
        let ghost before = r.deep_view();
        proof {
            reveal(Seq::filter);
            assert(all.take(i + 1).drop_last() == all.take(i as int));
            assert(all.take(i + 1).last() == args@[i as int]@);
        }
        if !same_text(args[i].as_str(), "--store") {
            r.push(args[i].clone());
            assert(r.deep_view() == before.push(all[i as int]));
        }
    }
    assert(all.take(all.len() as int) == all);
    r
}

/// Whether an argument is given.
fn is_given(args: &Vec<String>, arg: &str) -> (r: bool)
    ensures
        r == args.deep_view().contains(arg@),
{
    for i in 0..args.len()
        invariant
            forall|k: int| 0 <= k < i ==> args.deep_view()[k] != arg@,
    {
        assert(args.deep_view()[i as int] == args@[i as int]@);
        if same_text(args[i].as_str(), arg) {
            return true;
        }
    }
    false
}

/// Where `flag` first stands behind the name of the program.
fn find_flag(args: &Vec<String>, flag: &str) -> (at: usize)
    requires
        args@.len() > 0,
    ensures
        at == flag_place(args.deep_view(), flag@, 1),
        1 <= at <= args@.len(),
{
    let ghost all = args.deep_view();
    let mut at: usize = 1;
    while at < args.len() && !same_text(args[at].as_str(), flag)
        invariant
            all == args.deep_view(),
            1 <= at <= args@.len(),
            flag_place(all, flag@, 1) == flag_place(all, flag@, at as int),
        decreases args@.len() - at,
    {
        assert(all[at as int] == args@[at as int]@);
        at = at + 1;
    }
    assert(at < args@.len() ==> all[at as int] == args@[at as int]@);
    at
}

/// The file to write.
fn output_of(args: &Vec<String>) -> (r: String)
    ensures
        r@ == stream_output(args.deep_view()),
{
    let ghost all = args.deep_view();
    assert(args@.len() >= 2 ==> all[1] == args@[1]@);
    assert(args@.len() >= 3 ==> all[2] == args@[2]@);
    if args.len() >= 3 && same_text(args[1].as_str(), "-o") {
        return args[2].clone();
    }
    if args.len() >= 2 {
        let first = chars_of(args[1].as_str());
        if !(first.len() > 0 && first[0] == '-') {
            return args[1].clone();
        }
    }
    "output/piped_output.xlsx".to_owned()
}

/// How to stream: `--store` may stand anywhere, and so may `--types` with the codes behind
/// it; the file to write stands behind `-o`, or alone, as the first of the other arguments.
pub fn pipe_options(args: &Vec<String>) -> (r: PipeOptions)
    ensures
        ({
            let rest = without_store(args.deep_view());
            &&& r.store == args.deep_view().contains("--store"@)
            &&& r.types is Some == type_codes(rest) is Some
            &&& r.types is Some ==> (r.types->0)@ == type_codes(rest)->0
            &&& r.output@ == stream_output(without_types(rest))
        }),
{
    let mut rest = drop_store(args);
    let ghost kept = rest.deep_view();
    assert(kept.len() == rest@.len());
    let store = is_given(args, "--store");
    if rest.len() == 0 {
        return PipeOptions { store, types: None, output: output_of(&rest) };
    }
    let at = find_flag(&rest, "--types");
    let mut types: Option<String> = None;
    if at < rest.len() {
        let mut tail = rest.split_off(at);
        assert(rest.deep_view() == kept.take(at as int));
        assert(tail.deep_view() == kept.skip(at as int));
        if tail.len() >= 2 {
            assert(kept.skip(at as int)[1] == tail@[1]@);
            types = Some(tail[1].clone());
            let mut others = tail.split_off(2);
            assert(others.deep_view() == kept.skip(at + 2));
            rest.append(&mut others);
            assert(rest.deep_view() == kept.take(at as int) + kept.skip(at + 2));
        }
    }
    PipeOptions { store, types, output: output_of(&rest) }
}

} // verus!
