//! What the arguments of the programs mean.

use vstd::prelude::*;
use crate::args::{
    flag_place, merge_arguments, sample_files, stream_output, type_codes, verify_arguments,
    without_store, without_types,
};

verus! {

broadcast use vstd::string::group_string_axioms;

/// Law: without file names the three parts of the sample are read.
pub proof fn sample_files_are()
    ensures
        sample_files() == seq![
            "output/sample_20260812_180359_Part_1.csv"@,
            "output/sample_20260812_180359_Part_2.csv"@,
            "output/sample_20260812_180359_Part_3.csv"@,
        ],
{
}

/// Law: merging. Behind `-o` stand the file to write and the files to read; without `-o` all
/// arguments are files to read; without arguments the sample is read.
pub proof fn merge_arguments_mean(program: Seq<char>, output: Seq<char>, files: Seq<Seq<char>>)
    ensures
        merge_arguments(seq![program, "-o"@, output] + files) == (files, output),
        files.len() > 0 && (files[0] != "-o"@ || files.len() == 1) ==> merge_arguments(
            seq![program] + files,
        ) == (files, "output_fast.xlsx"@),
        merge_arguments(seq![program]) == (sample_files(), "output/merged_report.xlsx"@),
        merge_arguments(Seq::empty()) == (sample_files(), "output/merged_report.xlsx"@),
{
    let a = seq![program, "-o"@, output] + files;
    assert(a[1] == "-o"@ && a[2] == output);
    assert(a.skip(3) == files);
    let b = seq![program] + files;
    assert(b.skip(1) == files);
    if files.len() > 0 {
        assert(b[1] == files[0]);
    }
}

/// Law: comparing. The first argument is the workbook, the others are the files.
pub proof fn verify_arguments_mean(program: Seq<char>, workbook: Seq<char>, files: Seq<Seq<char>>)
    ensures
        files.len() > 0 ==> verify_arguments(seq![program, workbook] + files) == (workbook, files),
        verify_arguments(seq![program, workbook]) == (workbook, sample_files()),
        verify_arguments(seq![program]) == ("output/merged_report.xlsx"@, sample_files()),
        verify_arguments(Seq::empty()) == ("output/merged_report.xlsx"@, sample_files()),
{
    let a = seq![program, workbook] + files;
    assert(a.skip(2) == files);
    assert(a[1] == workbook);
}

/// Law: `--store` may stand anywhere among the arguments; the others stay, in order.
pub proof fn store_stands_anywhere(before: Seq<Seq<char>>, behind: Seq<Seq<char>>, arg: Seq<char>)
    ensures
        without_store(before + seq!["--store"@] + behind) == without_store(before + behind),
        arg != "--store"@ ==> without_store(before.push(arg)) == without_store(before).push(arg),
        without_store(Seq::empty()) == Seq::<Seq<char>>::empty(),
{
    reveal(Seq::filter);
    let pred = |arg: Seq<char>| arg != "--store"@;
    let flag = seq!["--store"@];
    Seq::filter_distributes_over_add(before + flag, behind, pred);
    Seq::filter_distributes_over_add(before, flag, pred);
    Seq::filter_distributes_over_add(before, behind, pred);
    assert(flag.drop_last() == Seq::<Seq<char>>::empty());
    assert(flag.drop_last().filter(pred) == Seq::<Seq<char>>::empty());
    assert(flag.last() == "--store"@);
    assert(flag.filter(pred) == Seq::<Seq<char>>::empty());
    assert(before.push(arg).drop_last() == before);
}

/// Where the flag stands that no earlier argument is.
proof fn flag_found(args: Seq<Seq<char>>, flag: Seq<char>, from: int, at: int)
    requires
        0 <= from <= at <= args.len(),
        forall|i: int| from <= i < at ==> #[trigger] args[i] != flag,
        at < args.len() ==> args[at] == flag,
    ensures
        flag_place(args, flag, from) == at,
    decreases at - from,
{
    if from < at {
        assert(args[from] != flag);
        flag_found(args, flag, from + 1, at);
    }
}

/// Law: `--types` may stand anywhere behind the name of the program; the codes stand behind
/// it, and the other arguments stay, in order. Without it nothing is declared and all stay.
pub proof fn types_stand_anywhere(
    program: Seq<char>,
    before: Seq<Seq<char>>,
    codes: Seq<char>,
    behind: Seq<Seq<char>>,
)
    requires
        forall|i: int| 0 <= i < before.len() ==> #[trigger] before[i] != "--types"@,
    ensures
        type_codes(seq![program] + before + seq!["--types"@, codes] + behind) == Some(codes),
        without_types(seq![program] + before + seq!["--types"@, codes] + behind) == seq![program]
            + before + behind,
        type_codes(seq![program] + before) is None,
        without_types(seq![program] + before) == seq![program] + before,
        type_codes(seq![program] + before + seq!["--types"@]) is None,
        without_types(seq![program] + before + seq!["--types"@]) == seq![program] + before,
        type_codes(Seq::empty()) is None,
        without_types(Seq::empty()) == Seq::<Seq<char>>::empty(),
{
    let head = seq![program] + before;
    let n = head.len() as int;
    let a = head + seq!["--types"@, codes] + behind;
    let b = head + seq!["--types"@];
    assert forall|i: int| 1 <= i < n implies #[trigger] a[i] != "--types"@ by {
        assert(a[i] == before[i - 1]);
    }
    assert(a[n] == "--types"@);
    assert(a[n + 1] == codes);
    flag_found(a, "--types"@, 1, n);
    assert(a.take(n) == head);
    assert(a.skip(n + 2) == behind);
    assert forall|i: int| 1 <= i < n implies #[trigger] head[i] != "--types"@ by {
        assert(head[i] == before[i - 1]);
    }
    flag_found(head, "--types"@, 1, n);
    assert forall|i: int| 1 <= i < n implies #[trigger] b[i] != "--types"@ by {
        assert(b[i] == before[i - 1]);
    }
    assert(b[n] == "--types"@);
    flag_found(b, "--types"@, 1, n);
    assert(b.take(n) == head);
}

/// Law: the file that a stream is written to stands behind `-o`, or is the first argument
/// unless that starts with a dash; else it has a name of its own.
pub proof fn stream_output_means(program: Seq<char>, first: Seq<char>, others: Seq<Seq<char>>)
    ensures
        stream_output(seq![program, "-o"@, first] + others) == first,
        first.len() == 0 || first[0] != '-' ==> stream_output(seq![program, first] + others)
            == first,
        first.len() > 0 && first[0] == '-' && first != "-o"@ ==> stream_output(
            seq![program, first] + others,
        ) == "output/piped_output.xlsx"@,
        stream_output(seq![program, "-o"@]) == "output/piped_output.xlsx"@,
        stream_output(seq![program]) == "output/piped_output.xlsx"@,
        stream_output(Seq::empty()) == "output/piped_output.xlsx"@,
{
    reveal_strlit("-o");
    let a = seq![program, "-o"@, first] + others;
    assert(a[1] == "-o"@ && a[2] == first);
    let b = seq![program, first] + others;
    assert(b[1] == first);
    assert("-o"@[0] == '-');
}

} // verus!
