//! The action classifier: inspects a toolchain invocation (resolved program
//! path, argument vector, elapsed duration) and appends the file and stage
//! records it implies to the report.
//!
//! Classification is argument-shape based: a compiler-family program with
//! `-c` records a compilation, one with `-o NAME` and no `-c` records a link,
//! and an archiver records an archiving step.  Unrecognized invocations leave
//! the report unchanged.

use crate::ident::{id_chars, IdGen};
use crate::model::{empty_report_model, FileKind, FileModel, FileRec, Report, ReportModel,
    StageKind, StageModel, StageRec};
use crate::strutil::{contains_seq, ends_with, starts_with, str_contains, str_ends_with,
    str_eq, str_starts_with};
use vstd::prelude::*;

verus! {

/// Whether `char::is_alphanumeric` holds of the character.
pub uninterp spec fn char_alnum(c: char) -> bool;

/// Relies on `char::is_alphanumeric`: true exactly for characters in the
/// Unicode alphabetic or numeric general categories.  The result depends on
/// the character alone; on ASCII it is exactly the letters and digits.
#[verifier::external_body]
pub(crate) fn is_alnum_char(c: char) -> (r: bool)
    ensures
        r == char_alnum(c),
        (c as u32) < 128 ==> r == ((97 <= c as u32 && c as u32 <= 122) || (65 <= c as u32
            && c as u32 <= 90) || (48 <= c as u32 && c as u32 <= 57)),
{
    c.is_alphanumeric()
}

/// The argument names a recognized source file.
pub open spec fn is_source_name(a: Seq<char>) -> bool {
    ||| ends_with(a, ".c"@)
    ||| ends_with(a, ".cc"@)
    ||| ends_with(a, ".cpp"@)
    ||| ends_with(a, ".cxx"@)
    ||| ends_with(a, ".cx"@)
    ||| ends_with(a, ".c++"@)
}

/// The program path names a compiler-family tool.
pub open spec fn is_compiler_path(p: Seq<char>) -> bool {
    ||| contains_seq(p, "cc"@)
    ||| contains_seq(p, "c++"@)
    ||| contains_seq(p, "gcc"@)
    ||| contains_seq(p, "g++"@)
}

/// The program path names an archiver.
pub open spec fn is_archiver_path(p: Seq<char>) -> bool {
    contains_seq(p, "ar"@)
}

/// The argument is an implicit library request `-l<name>` with an
/// alphanumeric character right after `-l`.
pub open spec fn is_implicit_lib(a: Seq<char>) -> bool {
    starts_with(a, "-l"@) && a.len() > 2 && char_alnum(a[2])
}

/// The library file name an implicit `-l<name>` argument stands for.
pub open spec fn lib_name_of(a: Seq<char>) -> Seq<char> {
    "lib"@ + a.skip(2) + ".a"@
}

/// The arguments that name recognized source files, in order.
pub open spec fn source_names(args: Seq<Seq<char>>) -> Seq<Seq<char>>
    decreases args.len(),
{
    if args.len() == 0 {
        Seq::empty()
    } else if is_source_name(args.last()) {
        source_names(args.drop_last()).push(args.last())
    } else {
        source_names(args.drop_last())
    }
}

/// The arguments that end with the given suffix, in order.
pub open spec fn suffix_names(args: Seq<Seq<char>>, suf: Seq<char>) -> Seq<Seq<char>>
    decreases args.len(),
{
    if args.len() == 0 {
        Seq::empty()
    } else if ends_with(args.last(), suf) {
        suffix_names(args.drop_last(), suf).push(args.last())
    } else {
        suffix_names(args.drop_last(), suf)
    }
}

/// The library file names of the implicit `-l<name>` arguments, in order.
pub open spec fn implicit_lib_names(args: Seq<Seq<char>>) -> Seq<Seq<char>>
    decreases args.len(),
{
    if args.len() == 0 {
        Seq::empty()
    } else if is_implicit_lib(args.last()) {
        implicit_lib_names(args.drop_last()).push(lib_name_of(args.last()))
    } else {
        implicit_lib_names(args.drop_last())
    }
}

/// Some argument equals the given word.
pub open spec fn has_arg(args: Seq<Seq<char>>, w: Seq<char>) -> bool {
    exists|i: int| 0 <= i < args.len() && args[i] == w
}

/// The position of the first argument equal to the given word.
pub open spec fn first_pos(args: Seq<Seq<char>>, w: Seq<char>) -> int
    decreases args.len(),
{
    if args.len() == 0 {
        0
    } else if args.first() == w {
        0
    } else {
        1 + first_pos(args.drop_first(), w)
    }
}

/// When the word occurs, `first_pos` is its least occurrence.
pub proof fn lemma_first_pos(args: Seq<Seq<char>>, w: Seq<char>)
    requires
        has_arg(args, w),
    ensures
        0 <= first_pos(args, w) < args.len(),
        args[first_pos(args, w)] == w,
        forall|j: int| 0 <= j < first_pos(args, w) ==> args[j] != w,
    decreases args.len(),
{
    if args.first() == w {
    } else {
        let rest = args.drop_first();
        let i = choose|i: int| 0 <= i < args.len() && args[i] == w;
        assert(rest[i - 1] == args[i]);
        lemma_first_pos(rest, w);
        assert(forall|j: int| 0 <= j < first_pos(args, w) ==> args[j] != w) by {
            assert forall|j: int| 1 <= j < first_pos(args, w) implies args[j] != w by {
                assert(rest[j - 1] == args[j]);
            }
        }
    }
}

/// The name following the first `-o`, when `-o` occurs and is not last.
pub open spec fn o_target(args: Seq<Seq<char>>) -> Option<Seq<char>> {
    if has_arg(args, "-o"@) && first_pos(args, "-o"@) + 1 < args.len() {
        Some(args[first_pos(args, "-o"@) + 1])
    } else {
        None
    }
}

/// A file the classifier will record, before identifier assignment.
#[verifier::ext_equal]
pub ghost struct PlannedFile {
    pub kind: FileKind,
    pub name: Seq<char>,
}

/// A stage the classifier will record: the files it creates, in creation
/// order, and its inputs and outputs as indices into that file list.
#[verifier::ext_equal]
pub ghost struct PlannedStage {
    pub kind: StageKind,
    pub files: Seq<PlannedFile>,
    pub inputs: Seq<int>,
    pub outputs: Seq<int>,
}

/// The integers from `a` (inclusive) to `b` (exclusive), in order.
pub open spec fn idx_range(a: int, b: int) -> Seq<int> {
    Seq::new((b - a) as nat, |i: int| a + i)
}

/// The given names as planned files of one kind.
pub open spec fn as_planned(names: Seq<Seq<char>>, kind: FileKind) -> Seq<PlannedFile> {
    names.map_values(|n: Seq<char>| PlannedFile { kind, name: n })
}

/// The stage a compiler invocation with `-c` yields: every recognized source
/// argument as a `Source` input, and, when there is exactly one source and a
/// `-o NAME` pair, NAME as the single `Object` output.
pub open spec fn compile_plan(args: Seq<Seq<char>>) -> PlannedStage {
    let srcs = source_names(args);
    let obj = if srcs.len() == 1 {
        o_target(args)
    } else {
        None
    };
    match obj {
        Some(name) => PlannedStage {
            kind: StageKind::Compilation,
            files: as_planned(srcs, FileKind::Source).push(
                PlannedFile { kind: FileKind::Object, name },
            ),
            inputs: idx_range(0, srcs.len() as int),
            outputs: seq![srcs.len() as int],
        },
        None => PlannedStage {
            kind: StageKind::Compilation,
            files: as_planned(srcs, FileKind::Source),
            inputs: idx_range(0, srcs.len() as int),
            outputs: Seq::empty(),
        },
    }
}

/// The stage a compiler invocation without `-c` but with `-o NAME` yields:
/// NAME as the single `Executable` output, and the implicit `-l` libraries,
/// the explicit `.a` libraries and the `.o` objects as inputs, in that order.
pub open spec fn link_plan(args: Seq<Seq<char>>, exe: Seq<char>) -> PlannedStage {
    let files = seq![PlannedFile { kind: FileKind::Executable, name: exe }] + as_planned(
        implicit_lib_names(args),
        FileKind::Library,
    ) + as_planned(suffix_names(args, ".a"@), FileKind::Library) + as_planned(
        suffix_names(args, ".o"@),
        FileKind::Object,
    );
    PlannedStage {
        kind: StageKind::Link,
        files,
        inputs: idx_range(1, files.len() as int),
        outputs: seq![0int],
    }
}

/// The stage an archiver invocation yields: the `.a` arguments as `Library`
/// outputs and the `.o` arguments as `Object` inputs.
pub open spec fn archive_plan(args: Seq<Seq<char>>) -> PlannedStage {
    let libs = suffix_names(args, ".a"@);
    let objs = suffix_names(args, ".o"@);
    PlannedStage {
        kind: StageKind::Archiving,
        files: as_planned(libs, FileKind::Library) + as_planned(objs, FileKind::Object),
        inputs: idx_range(libs.len() as int, libs.len() as int + objs.len() as int),
        outputs: idx_range(0, libs.len() as int),
    }
}

/// What one invocation is classified as, before identifier assignment:
/// `None` when no record is added.
pub open spec fn plan_of(program: Seq<char>, args: Seq<Seq<char>>) -> Option<PlannedStage> {
    if is_compiler_path(program) {
        if has_arg(args, "-c"@) {
            Some(compile_plan(args))
        } else {
            match o_target(args) {
                Some(exe) => Some(link_plan(args, exe)),
                None => None,
            }
        }
    } else if is_archiver_path(program) {
        Some(archive_plan(args))
    } else {
        None
    }
}

/// How many fresh identifiers the invocation consumes: one per created file
/// and one for the stage, or none when no record is added.
pub open spec fn id_count(program: Seq<char>, args: Seq<Seq<char>>) -> int {
    match plan_of(program, args) {
        Some(p) => p.files.len() as int + 1,
        None => 0,
    }
}

/// The identifiers derived from consecutive eight-byte entropy chunks.
pub open spec fn ids_from(entropy: Seq<u8>, n: int) -> Seq<Seq<char>> {
    Seq::new(n as nat, |i: int| id_chars(entropy.subrange(8 * i, 8 * i + 8)))
}

/// The file records of a planned stage, the `j`-th file taking the `j`-th
/// identifier.
pub open spec fn planned_file_models(p: PlannedStage, ids: Seq<Seq<char>>) -> Seq<FileModel> {
    Seq::new(
        p.files.len(),
        |j: int| FileModel { id: ids[j], kind: p.files[j].kind, name: p.files[j].name },
    )
}

/// The stage record of a planned stage: it takes the identifier after the
/// files', and refers to its input and output files by their identifiers.
pub open spec fn planned_stage_model(p: PlannedStage, ids: Seq<Seq<char>>, duration: u64)
    -> StageModel {
    StageModel {
        id: ids[p.files.len() as int],
        inputs: p.inputs.map_values(|i: int| ids[i]),
        outputs: p.outputs.map_values(|i: int| ids[i]),
        kind: p.kind,
        duration,
    }
}

/// The report after classifying one invocation: unchanged when nothing is
/// recognized, else the planned files appended to `files` and the planned
/// stage appended to `stages`, with identifiers drawn from the entropy.
pub open spec fn classified(
    m: ReportModel,
    program: Seq<char>,
    args: Seq<Seq<char>>,
    duration: u64,
    entropy: Seq<u8>,
) -> ReportModel {
    match plan_of(program, args) {
        None => m,
        Some(p) => {
            let ids = ids_from(entropy, p.files.len() as int + 1);
            ReportModel {
                files: m.files + planned_file_models(p, ids),
                stages: m.stages.push(planned_stage_model(p, ids, duration)),
            }
        },
    }
}

/// In a link-shaped invocation the first `-o` is followed by a name.
pub open spec fn link_shape_ok(program: Seq<char>, args: Seq<Seq<char>>) -> bool {
    (is_compiler_path(program) && !has_arg(args, "-c"@) && has_arg(args, "-o"@)) ==> first_pos(
        args,
        "-o"@,
    ) + 1 < args.len()
}

/// Whether the program path names a compiler-family tool.
pub fn is_compiler_prog(p: &str) -> (r: bool)
    ensures
        r == is_compiler_path(p@),
{
    str_contains(p, "cc") || str_contains(p, "c++") || str_contains(p, "gcc") || str_contains(
        p,
        "g++",
    )
}

/// Whether the argument names a recognized source file.
pub fn is_source_arg(a: &str) -> (r: bool)
    ensures
        r == is_source_name(a@),
{
    str_ends_with(a, ".c") || str_ends_with(a, ".cc") || str_ends_with(a, ".cpp") || str_ends_with(
        a,
        ".cxx",
    ) || str_ends_with(a, ".cx") || str_ends_with(a, ".c++")
}

/// The position of the first argument equal to the given word, if any.
fn find_flag(args: &Vec<String>, w: &str) -> (r: Option<usize>)
    ensures
        match r {
            Some(i) => i < args.deep_view().len() && has_arg(args.deep_view(), w@) && i
                == first_pos(args.deep_view(), w@),
            None => !has_arg(args.deep_view(), w@),
        },
{
    let ghost d = args.deep_view();
    let n = args.len();
    let mut i: usize = 0;
    while i < n
        invariant
            d == args.deep_view(),
            n == args@.len(),
            d.len() == n,
            i <= n,
            forall|j: int| 0 <= j < i ==> d[j] != w@,
        decreases n - i,
    {
        proof {
            assert(d[i as int] == args@[i as int]@);
        }
        if str_eq(args[i].as_str(), w) {
            proof {
                assert(has_arg(d, w@));
                lemma_first_pos(d, w@);
            }
            return Some(i);
        }
        i = i + 1;
    }
    assert(forall|j: int| 0 <= j < d.len() ==> d[j] != w@);
    None
}

/// The arguments that name recognized source files.
fn collect_sources(args: &Vec<String>) -> (v: Vec<String>)
    ensures
        v.deep_view() == source_names(args.deep_view()),
{
    let ghost d = args.deep_view();
    let mut v: Vec<String> = Vec::new();
    let n = args.len();
    let mut i: usize = 0;
    proof {
        assert(d.take(0) =~= Seq::<Seq<char>>::empty());
        assert(v.deep_view() =~= source_names(d.take(0)));
    }
    while i < n
        invariant
            d == args.deep_view(),
            n == args@.len(),
            d.len() == n,
            i <= n,
            v.deep_view() == source_names(d.take(i as int)),
        decreases n - i,
    {
        proof {
            assert(d[i as int] == args@[i as int]@);
            assert(d.take(i + 1).drop_last() =~= d.take(i as int));
            assert(d.take(i + 1).last() == d[i as int]);
        }
        if is_source_arg(args[i].as_str()) {
            v.push(args[i].clone());
            proof {
                assert(v.deep_view() =~= source_names(d.take(i as int)).push(d[i as int]));
            }
        }
        i = i + 1;
        assert(v.deep_view() == source_names(d.take(i as int)));
    }
    proof {
        assert(d.take(n as int) =~= d);
    }
    v
}

/// The arguments that end with the given suffix.
fn collect_with_suffix(args: &Vec<String>, suf: &str) -> (v: Vec<String>)
    ensures
        v.deep_view() == suffix_names(args.deep_view(), suf@),
{
    let ghost d = args.deep_view();
    let mut v: Vec<String> = Vec::new();
    let n = args.len();
    let mut i: usize = 0;
    proof {
        assert(d.take(0) =~= Seq::<Seq<char>>::empty());
        assert(v.deep_view() =~= suffix_names(d.take(0), suf@));
    }
    while i < n
        invariant
            d == args.deep_view(),
            n == args@.len(),
            d.len() == n,
            i <= n,
            v.deep_view() == suffix_names(d.take(i as int), suf@),
        decreases n - i,
    {
        proof {
            assert(d[i as int] == args@[i as int]@);
            assert(d.take(i + 1).drop_last() =~= d.take(i as int));
            assert(d.take(i + 1).last() == d[i as int]);
        }
        if str_ends_with(args[i].as_str(), suf) {
            v.push(args[i].clone());
            proof {
                assert(v.deep_view() =~= suffix_names(d.take(i as int), suf@).push(d[i as int]));
            }
        }
        i = i + 1;
        assert(v.deep_view() == suffix_names(d.take(i as int), suf@));
    }
    proof {
        assert(d.take(n as int) =~= d);
    }
    v
}

/// The library file name `lib<name>.a` for an implicit `-l<name>` argument.
fn implicit_lib_file_name(a: &str) -> (r: String)
    requires
        a@.len() > 2,
    ensures
        r@ == lib_name_of(a@),
{
    let n = a.unicode_len();
    let mut r = String::from_str("lib");
    r.append(a.substring_char(2, n));
    r.append(".a");
    proof {
        assert(r@ =~= lib_name_of(a@));
    }
    r
}

/// The library file names of the implicit `-l<name>` arguments.
fn collect_implicit_libs(args: &Vec<String>) -> (v: Vec<String>)
    ensures
        v.deep_view() == implicit_lib_names(args.deep_view()),
{
    let ghost d = args.deep_view();
    let mut v: Vec<String> = Vec::new();
    let n = args.len();
    let mut i: usize = 0;
    proof {
        assert(d.take(0) =~= Seq::<Seq<char>>::empty());
        assert(v.deep_view() =~= implicit_lib_names(d.take(0)));
    }
    while i < n
        invariant
            d == args.deep_view(),
            n == args@.len(),
            d.len() == n,
            i <= n,
            v.deep_view() == implicit_lib_names(d.take(i as int)),
        decreases n - i,
    {
        proof {
            assert(d[i as int] == args@[i as int]@);
            assert(d.take(i + 1).drop_last() =~= d.take(i as int));
            assert(d.take(i + 1).last() == d[i as int]);
        }
        let a = args[i].as_str();
        if str_starts_with(a, "-l") && a.unicode_len() > 2 && is_alnum_char(a.get_char(2)) {
            assert(is_implicit_lib(d[i as int]));
            let name = implicit_lib_file_name(a);
            v.push(name);
            proof {
                assert(v.deep_view() =~= implicit_lib_names(d.take(i as int)).push(
                    lib_name_of(d[i as int]),
                ));
            }
        } else {
            assert(!is_implicit_lib(d[i as int]));
        }
        i = i + 1;
        assert(v.deep_view() == implicit_lib_names(d.take(i as int)));
    }
    proof {
        assert(d.take(n as int) =~= d);
    }
    v
}

/// The file records for the given names, one fresh identifier each, with the
/// identifier of the `j`-th file drawn from the `j`-th eight-byte chunk.
pub open spec fn file_models_for(names: Seq<Seq<char>>, kind: FileKind, entropy: Seq<u8>)
    -> Seq<FileModel> {
    Seq::new(
        names.len(),
        |j: int| FileModel {
            id: id_chars(entropy.subrange(8 * j, 8 * j + 8)),
            kind,
            name: names[j],
        },
    )
}

/// Builds one file record per name, each with a fresh identifier.
fn make_files(names: &Vec<String>, kind: FileKind, gen: &mut IdGen) -> (files: Vec<FileRec>)
    requires
        old(gen).wf(),
        old(gen).remaining().len() >= 8 * names.deep_view().len(),
    ensures
        final(gen).wf(),
        final(gen).remaining() == old(gen).remaining().skip(8 * names.deep_view().len() as int),
        files.deep_view() == file_models_for(names.deep_view(), kind, old(gen).remaining()),
{
    let ghost d = names.deep_view();
    let ghost e = old(gen).remaining();
    let mut files: Vec<FileRec> = Vec::new();
    let n = names.len();
    let mut j: usize = 0;
    while j < n
        invariant
            d == names.deep_view(),
            n == names@.len(),
            d.len() == n,
            j <= n,
            gen.wf(),
            e.len() >= 8 * n,
            gen.remaining() == e.skip(8 * j as int),
            files.deep_view().len() == j,
            forall|k: int| 0 <= k < j ==> files.deep_view()[k] == (FileModel {
                id: id_chars(e.subrange(8 * k, 8 * k + 8)),
                kind,
                name: d[k],
            }),
        decreases n - j,
    {
        proof {
            assert(gen.remaining().len() == e.len() - 8 * j);
            assert(e.skip(8 * j as int).take(8) =~= e.subrange(8 * j as int, 8 * j + 8));
        }
        let id = gen.fresh_id();
        proof {
            assert(e.skip(8 * j as int).skip(8) =~= e.skip(8 * (j + 1)));
            assert(d[j as int] == names@[j as int]@);
        }
        let rec = FileRec { id, kind, name: names[j].clone() };
        let ghost fprev = files.deep_view();
        files.push(rec);
        proof {
            assert(rec@ == (FileModel {
                id: id_chars(e.subrange(8 * j as int, 8 * j + 8)),
                kind,
                name: d[j as int],
            }));
            assert forall|k: int| 0 <= k < j + 1 implies files.deep_view()[k] == (FileModel {
                id: id_chars(e.subrange(8 * k, 8 * k + 8)),
                kind,
                name: d[k],
            }) by {
                assert(files.deep_view()[k] == files@[k]@);
                if k < j {
                    assert(files.deep_view()[k] == fprev[k]);
                }
            }
        }
        j = j + 1;
    }
    proof {
        assert(files.deep_view() =~= file_models_for(d, kind, e));
    }
    files
}

/// The identifiers of the given file records, in order.
fn ids_of(files: &Vec<FileRec>) -> (v: Vec<String>)
    ensures
        v.deep_view() == files.deep_view().map_values(|f: FileModel| f.id),
{
    let ghost d = files.deep_view();
    let mut v: Vec<String> = Vec::new();
    let n = files.len();
    let mut i: usize = 0;
    while i < n
        invariant
            d == files.deep_view(),
            n == files@.len(),
            d.len() == n,
            i <= n,
            v.deep_view().len() == i,
            forall|k: int| 0 <= k < i ==> v.deep_view()[k] == d[k].id,
        decreases n - i,
    {
        proof {
            assert(d[i as int] == files@[i as int]@);
        }
        let ghost vprev = v.deep_view();
        v.push(files[i].id.clone());
        proof {
            assert forall|k: int| 0 <= k < i + 1 implies v.deep_view()[k] == d[k].id by {
                assert(v.deep_view()[k] == v@[k]@);
                if k < i {
                    assert(v.deep_view()[k] == vprev[k]);
                }
            }
        }
        i = i + 1;
    }
    proof {
        assert(v.deep_view() =~= d.map_values(|f: FileModel| f.id));
    }
    v
}

/// Whether the program path names an archiver.
pub fn is_archiver_prog(p: &str) -> (r: bool)
    ensures
        r == is_archiver_path(p@),
{
    str_contains(p, "ar")
}

/// The two vectors, one after the other.
fn concat_vecs<T: DeepView>(a: Vec<T>, b: Vec<T>) -> (r: Vec<T>)
    ensures
        r.deep_view() == a.deep_view() + b.deep_view(),
{
    let mut r = a;
    let mut b = b;
    let ghost da = r.deep_view();
    let ghost db = b.deep_view();
    r.append(&mut b);
    proof {
        assert forall|k: int| 0 <= k < r.deep_view().len() implies r.deep_view()[k] == (da
            + db)[k] by {
            assert(r.deep_view()[k] == r@[k].deep_view());
        }
        assert(r.deep_view() =~= da + db);
    }
    r
}

/// Appends one stage record and its file records to the report.
fn append_stage(
    report: &mut Report,
    files: Vec<FileRec>,
    inputs: Vec<String>,
    outputs: Vec<String>,
    kind: StageKind,
    duration: u64,
    stage_id: String,
)
    ensures
        final(report)@.files == old(report)@.files + files.deep_view(),
        final(report)@.stages == old(report)@.stages.push(
            StageModel {
                id: stage_id@,
                inputs: inputs.deep_view(),
                outputs: outputs.deep_view(),
                kind,
                duration,
            },
        ),
{
    let ghost sm = StageModel {
        id: stage_id@,
        inputs: inputs.deep_view(),
        outputs: outputs.deep_view(),
        kind,
        duration,
    };
    let ghost f0 = report.files.deep_view();
    let ghost s0 = report.stages.deep_view();
    let ghost df = files.deep_view();
    let stage = StageRec { id: stage_id, inputs, outputs, kind, duration };
    proof {
        assert(stage@ == sm);
    }
    report.stages.push(stage);
    proof {
        assert forall|k: int| 0 <= k < report.stages.deep_view().len() implies report
            .stages.deep_view()[k] == s0.push(sm)[k] by {
            assert(report.stages.deep_view()[k] == report.stages@[k]@);
        }
        assert(report.stages.deep_view() =~= s0.push(sm));
    }
    let mut files = files;
    report.files.append(&mut files);
    proof {
        assert forall|k: int| 0 <= k < report.files.deep_view().len() implies report
            .files.deep_view()[k] == (f0 + df)[k] by {
            assert(report.files.deep_view()[k] == report.files@[k]@);
        }
        assert(report.files.deep_view() =~= f0 + df);
    }
}

/// Classifies one invocation and appends what it implies to the report.
///
/// A compiler-family program with `-c` records a compilation; one with
/// `-o NAME` and no `-c` records a link; an archiver records an archiving
/// step; anything else leaves the report unchanged.  Identifiers are drawn
/// from the generator, one per created file and one for the stage.
pub fn classify(
    program: &str,
    args: &Vec<String>,
    report: &mut Report,
    duration: u64,
    gen: &mut IdGen,
)
    requires
        old(gen).wf(),
        old(gen).remaining().len() >= 8 * id_count(program@, args.deep_view()),
        link_shape_ok(program@, args.deep_view()),
    ensures
        final(gen).wf(),
        final(gen).remaining() == old(gen).remaining().skip(
            8 * id_count(program@, args.deep_view()),
        ),
        final(report)@ == classified(
            old(report)@,
            program@,
            args.deep_view(),
            duration,
            old(gen).remaining(),
        ),
{
    let ghost d = args.deep_view();
    let ghost e = old(gen).remaining();
    let ghost m0 = old(report)@;
    let n_args = args.len();
    proof {
        assert(d.len() == n_args);
    }
    if is_compiler_prog(program) {
        if find_flag(args, "-c").is_some() {
            let ghost pl = compile_plan(d);
            let ghost nf = pl.files.len() as int;
            let ghost ids = ids_from(e, nf + 1);
            proof {
                assert(plan_of(program@, d) == Some(pl));
                assert(as_planned(source_names(d), FileKind::Source).len() == source_names(
                    d,
                ).len());
            }
            let sources = collect_sources(args);
            let ghost srcs = source_names(d);
            let ghost ns = srcs.len() as int;
            proof {
                assert(sources.deep_view().len() == ns);
                assert(nf == ns || nf == ns + 1);
                assert(e.len() >= 8 * (nf + 1));
            }
            let in_files = make_files(&sources, FileKind::Source, gen);
            let mut out_files: Vec<FileRec> = Vec::new();
            if sources.len() == 1 {
                match find_flag(args, "-o") {
                    Some(p) => {
                        if p + 1 < args.len() {
                            proof {
                                assert(o_target(d) == Some(d[p + 1]));
                                assert(nf == ns + 1);
                                assert(e.skip(8 * ns).take(8) =~= e.subrange(
                                    8 * ns,
                                    8 * ns + 8,
                                ));
                            }
                            let name = args[p + 1].clone();
                            let id = gen.fresh_id();
                            let rec = FileRec { id, kind: FileKind::Object, name };
                            proof {
                                assert(rec@ == (FileModel {
                                    id: ids[ns],
                                    kind: FileKind::Object,
                                    name: d[p + 1],
                                }));
                            }
                            out_files.push(rec);
                        } else {
                            proof {
                                assert(o_target(d) is None);
                            }
                        }
                    },
                    None => {
                        proof {
                            assert(o_target(d) is None);
                        }
                    },
                }
            } else {
                proof {
                    assert(ns != 1);
                }
            }
            proof {
                assert(gen.remaining() == e.skip(8 * nf));
                assert(gen.remaining().len() >= 8);
                assert(e.skip(8 * nf).take(8) =~= e.subrange(8 * nf, 8 * nf + 8));
            }
            let stage_id = gen.fresh_id();
            let inputs = ids_of(&in_files);
            let outputs = ids_of(&out_files);
            let ghost din = in_files.deep_view();
            let ghost dout = out_files.deep_view();
            let all_files = concat_vecs(in_files, out_files);
            proof {
                assert forall|j: int| 0 <= j < nf implies all_files.deep_view()[j]
                    == planned_file_models(pl, ids)[j] by {
                    if j < ns {
                        assert((din + dout)[j] == din[j]);
                        assert(e.subrange(8 * j, 8 * j + 8) == e.subrange(8 * j, 8 * j + 8));
                    } else {
                        assert((din + dout)[j] == dout[0]);
                    }
                }
                assert(all_files.deep_view() =~= planned_file_models(pl, ids));
                assert forall|k: int| 0 <= k < ns implies inputs.deep_view()[k]
                    == pl.inputs.map_values(|i: int| ids[i])[k] by {
                    assert(pl.inputs[k] == k);
                    assert(din[k].id == ids[k]);
                }
                assert(inputs.deep_view() =~= pl.inputs.map_values(|i: int| ids[i]));
                assert forall|k: int| 0 <= k < pl.outputs.len() implies outputs.deep_view()[k]
                    == pl.outputs.map_values(|i: int| ids[i])[k] by {
                    assert(pl.outputs[k] == ns);
                    assert(dout[0].id == ids[ns]);
                }
                assert(outputs.deep_view() =~= pl.outputs.map_values(|i: int| ids[i]));
                assert(stage_id@ == ids[nf]);
            }
            append_stage(
                report,
                all_files,
                inputs,
                outputs,
                StageKind::Compilation,
                duration,
                stage_id,
            );
            proof {
                assert(gen.remaining() =~= e.skip(8 * (nf + 1)));
                assert(report@ =~= classified(m0, program@, d, duration, e));
            }
        } else {
            match find_flag(args, "-o") {
                Some(p) => {
                    let ghost exe_name = d[p + 1];
                    let ghost pl = link_plan(d, exe_name);
                    let ghost nf = pl.files.len() as int;
                    let ghost ids = ids_from(e, nf + 1);
                    proof {
                        lemma_first_pos(d, "-o"@);
                        assert(p + 1 < d.len());
                        assert(o_target(d) == Some(exe_name));
                        assert(plan_of(program@, d) == Some(pl));
                        assert(e.len() >= 8 * (nf + 1));
                        assert(e.skip(0).take(8) =~= e.subrange(0, 8));
                        assert(e.take(8) =~= e.subrange(0, 8));
                    }
                    let exe = args[p + 1].clone();
                    let exe_id = gen.fresh_id();
                    let mut outputs: Vec<String> = Vec::new();
                    outputs.push(exe_id.clone());
                    let exe_file = FileRec { id: exe_id, kind: FileKind::Executable, name: exe };
                    let mut exe_files: Vec<FileRec> = Vec::new();
                    exe_files.push(exe_file);
                    let ghost ni = implicit_lib_names(d).len() as int;
                    let ghost na = suffix_names(d, ".a"@).len() as int;
                    let ghost no = suffix_names(d, ".o"@).len() as int;
                    proof {
                        assert(nf == 1 + ni + na + no);
                        assert(gen.remaining() == e.skip(8));
                        assert(gen.remaining().len() >= 8 * ni);
                    }
                    let imp_names = collect_implicit_libs(args);
                    let imp_files = make_files(&imp_names, FileKind::Library, gen);
                    proof {
                        assert(gen.remaining() =~= e.skip(8 * (1 + ni)));
                        assert(gen.remaining().len() >= 8 * na);
                    }
                    let a_names = collect_with_suffix(args, ".a");
                    let a_files = make_files(&a_names, FileKind::Library, gen);
                    proof {
                        assert(gen.remaining() =~= e.skip(8 * (1 + ni + na)));
                        assert(gen.remaining().len() >= 8 * no);
                    }
                    let o_names = collect_with_suffix(args, ".o");
                    let o_files = make_files(&o_names, FileKind::Object, gen);
                    proof {
                        assert(gen.remaining() =~= e.skip(8 * nf));
                        assert(gen.remaining().len() >= 8);
                        assert(e.skip(8 * nf).take(8) =~= e.subrange(8 * nf, 8 * nf + 8));
                    }
                    let stage_id = gen.fresh_id();
                    let in_imp = ids_of(&imp_files);
                    let in_a = ids_of(&a_files);
                    let in_o = ids_of(&o_files);
                    let ghost dimp = imp_files.deep_view();
                    let ghost da = a_files.deep_view();
                    let ghost dobj = o_files.deep_view();
                    let ghost dexe = exe_files.deep_view();
                    let inputs = concat_vecs(concat_vecs(in_imp, in_a), in_o);
                    let all_files = concat_vecs(
                        concat_vecs(concat_vecs(exe_files, imp_files), a_files),
                        o_files,
                    );
                    proof {
                        assert(dexe[0] == (FileModel {
                            id: id_chars(e.subrange(0, 8)),
                            kind: FileKind::Executable,
                            name: exe_name,
                        }));
                        assert forall|j: int| 0 <= j < nf implies all_files.deep_view()[j]
                            == planned_file_models(pl, ids)[j] by {
                            let fm = all_files.deep_view()[j];
                            if j == 0 {
                                assert(fm == dexe[0]);
                            } else if j < 1 + ni {
                                assert(fm == dimp[j - 1]);
                                assert(e.skip(8).subrange(8 * (j - 1), 8 * (j - 1) + 8)
                                    =~= e.subrange(8 * j, 8 * j + 8));
                                assert(pl.files[j] == as_planned(
                                    implicit_lib_names(d),
                                    FileKind::Library,
                                )[j - 1]);
                            } else if j < 1 + ni + na {
                                assert(fm == da[j - 1 - ni]);
                                assert(e.skip(8 * (1 + ni)).subrange(
                                    8 * (j - 1 - ni),
                                    8 * (j - 1 - ni) + 8,
                                ) =~= e.subrange(8 * j, 8 * j + 8));
                                assert(pl.files[j] == as_planned(
                                    suffix_names(d, ".a"@),
                                    FileKind::Library,
                                )[j - 1 - ni]);
                            } else {
                                assert(fm == dobj[j - 1 - ni - na]);
                                assert(e.skip(8 * (1 + ni + na)).subrange(
                                    8 * (j - 1 - ni - na),
                                    8 * (j - 1 - ni - na) + 8,
                                ) =~= e.subrange(8 * j, 8 * j + 8));
                                assert(pl.files[j] == as_planned(
                                    suffix_names(d, ".o"@),
                                    FileKind::Object,
                                )[j - 1 - ni - na]);
                            }
                        }
                        assert(all_files.deep_view() =~= planned_file_models(pl, ids));
                        assert forall|k: int| 0 <= k < nf - 1 implies inputs.deep_view()[k]
                            == pl.inputs.map_values(|i: int| ids[i])[k] by {
                            assert(pl.inputs[k] == k + 1);
                            assert(all_files.deep_view()[k + 1].id == ids[k + 1]);
                            if k < ni {
                                assert(inputs.deep_view()[k] == dimp[k].id);
                                assert(dimp[k] == all_files.deep_view()[k + 1]);
                            } else if k < ni + na {
                                assert(inputs.deep_view()[k] == da[k - ni].id);
                                assert(da[k - ni] == all_files.deep_view()[k + 1]);
                            } else {
                                assert(inputs.deep_view()[k] == dobj[k - ni - na].id);
                                assert(dobj[k - ni - na] == all_files.deep_view()[k + 1]);
                            }
                        }
                        assert(inputs.deep_view() =~= pl.inputs.map_values(|i: int| ids[i]));
                        assert(outputs.deep_view() =~= pl.outputs.map_values(|i: int| ids[i]));
                        assert(stage_id@ == ids[nf]);
                    }
                    append_stage(
                        report,
                        all_files,
                        inputs,
                        outputs,
                        StageKind::Link,
                        duration,
                        stage_id,
                    );
                    proof {
                        assert(gen.remaining() =~= e.skip(8 * (nf + 1)));
                        assert(report@ =~= classified(m0, program@, d, duration, e));
                    }
                },
                None => {
                    proof {
                        assert(o_target(d) is None);
                        assert(plan_of(program@, d) is None);
                        assert(gen.remaining() =~= e.skip(0));
                        assert(report@ =~= classified(m0, program@, d, duration, e));
                    }
                },
            }
        }
    } else if is_archiver_prog(program) {
        let ghost pl = archive_plan(d);
        let ghost nf = pl.files.len() as int;
        let ghost ids = ids_from(e, nf + 1);
        let ghost na = suffix_names(d, ".a"@).len() as int;
        let ghost no = suffix_names(d, ".o"@).len() as int;
        proof {
            assert(plan_of(program@, d) == Some(pl));
            assert(nf == na + no);
            assert(e.len() >= 8 * (nf + 1));
            assert(e.skip(0) =~= e);
        }
        let a_names = collect_with_suffix(args, ".a");
        let lib_files = make_files(&a_names, FileKind::Library, gen);
        proof {
            assert(gen.remaining() =~= e.skip(8 * na));
            assert(gen.remaining().len() >= 8 * no);
        }
        let o_names = collect_with_suffix(args, ".o");
        let obj_files = make_files(&o_names, FileKind::Object, gen);
        proof {
            assert(gen.remaining() =~= e.skip(8 * nf));
            assert(gen.remaining().len() >= 8);
            assert(e.skip(8 * nf).take(8) =~= e.subrange(8 * nf, 8 * nf + 8));
        }
        let stage_id = gen.fresh_id();
        let inputs = ids_of(&obj_files);
        let outputs = ids_of(&lib_files);
        let ghost dlib = lib_files.deep_view();
        let ghost dobj = obj_files.deep_view();
        let all_files = concat_vecs(lib_files, obj_files);
        proof {
            assert forall|j: int| 0 <= j < nf implies all_files.deep_view()[j]
                == planned_file_models(pl, ids)[j] by {
                if j < na {
                    assert(all_files.deep_view()[j] == dlib[j]);
                    assert(pl.files[j] == as_planned(
                        suffix_names(d, ".a"@),
                        FileKind::Library,
                    )[j]);
                } else {
                    assert(all_files.deep_view()[j] == dobj[j - na]);
                    assert(e.skip(8 * na).subrange(8 * (j - na), 8 * (j - na) + 8)
                        =~= e.subrange(8 * j, 8 * j + 8));
                    assert(pl.files[j] == as_planned(
                        suffix_names(d, ".o"@),
                        FileKind::Object,
                    )[j - na]);
                }
            }
            assert(all_files.deep_view() =~= planned_file_models(pl, ids));
            assert forall|k: int| 0 <= k < no implies inputs.deep_view()[k]
                == pl.inputs.map_values(|i: int| ids[i])[k] by {
                assert(pl.inputs[k] == na + k);
                assert(inputs.deep_view()[k] == dobj[k].id);
                assert(dobj[k] == all_files.deep_view()[na + k]);
                assert(all_files.deep_view()[na + k].id == ids[na + k]);
            }
            assert(inputs.deep_view() =~= pl.inputs.map_values(|i: int| ids[i]));
            assert forall|k: int| 0 <= k < na implies outputs.deep_view()[k]
                == pl.outputs.map_values(|i: int| ids[i])[k] by {
                assert(pl.outputs[k] == k);
                assert(outputs.deep_view()[k] == dlib[k].id);
                assert(dlib[k] == all_files.deep_view()[k]);
                assert(all_files.deep_view()[k].id == ids[k]);
            }
            assert(outputs.deep_view() =~= pl.outputs.map_values(|i: int| ids[i]));
            assert(stage_id@ == ids[nf]);
        }
        append_stage(report, all_files, inputs, outputs, StageKind::Archiving, duration, stage_id);
        proof {
            assert(gen.remaining() =~= e.skip(8 * (nf + 1)));
            assert(report@ =~= classified(m0, program@, d, duration, e));
        }
    } else {
        proof {
            assert(plan_of(program@, d) is None);
            assert(gen.remaining() =~= e.skip(0));
            assert(report@ =~= classified(m0, program@, d, duration, e));
        }
    }
}

/// A compilation of exactly one recognized source with a `-o NAME` pair
/// appends one Compilation stage whose single Source input is the source
/// argument and whose single Object output is NAME.
pub proof fn lemma_compile_single_source(
    m: ReportModel,
    program: Seq<char>,
    args: Seq<Seq<char>>,
    duration: u64,
    entropy: Seq<u8>,
)
    requires
        is_compiler_path(program),
        has_arg(args, "-c"@),
        source_names(args).len() == 1,
        o_target(args) is Some,
    ensures
        ({
            let r = classified(m, program, args, duration, entropy);
            let st = r.stages.last();
            &&& r.files.len() == m.files.len() + 2
            &&& r.files[m.files.len() as int].kind == FileKind::Source
            &&& r.files[m.files.len() as int].name == source_names(args)[0]
            &&& r.files[m.files.len() as int + 1].kind == FileKind::Object
            &&& r.files[m.files.len() as int + 1].name == o_target(args)->0
            &&& r.stages == m.stages.push(st)
            &&& st.kind == StageKind::Compilation
            &&& st.duration == duration
            &&& st.inputs =~= seq![r.files[m.files.len() as int].id]
            &&& st.outputs =~= seq![r.files[m.files.len() as int + 1].id]
        }),
{
    let pl = compile_plan(args);
    let ids = ids_from(entropy, pl.files.len() as int + 1);
    let r = classified(m, program, args, duration, entropy);
    assert(pl.files.len() == 2);
    assert(r.files[m.files.len() as int] == planned_file_models(pl, ids)[0]);
    assert(r.files[m.files.len() as int + 1] == planned_file_models(pl, ids)[1]);
    assert(pl.files[0] == as_planned(source_names(args), FileKind::Source)[0]);
    let st = planned_stage_model(pl, ids, duration);
    assert(r.stages.last() == st);
    assert(pl.inputs.len() == 1 && pl.inputs[0] == 0);
    assert(st.inputs[0] == ids[0]);
    assert(st.outputs[0] == ids[1]);
}

/// A compilation of two or more recognized sources appends one Compilation
/// stage with one Source input per source argument, in order, and no output.
pub proof fn lemma_compile_many_sources(
    m: ReportModel,
    program: Seq<char>,
    args: Seq<Seq<char>>,
    duration: u64,
    entropy: Seq<u8>,
)
    requires
        is_compiler_path(program),
        has_arg(args, "-c"@),
        source_names(args).len() >= 2,
    ensures
        ({
            let r = classified(m, program, args, duration, entropy);
            let srcs = source_names(args);
            let st = r.stages.last();
            &&& r.files.len() == m.files.len() + srcs.len()
            &&& forall|j: int|
                0 <= j < srcs.len() ==> (#[trigger] r.files[m.files.len() as int + j]).kind
                    == FileKind::Source && r.files[m.files.len() as int + j].name == srcs[j]
            &&& r.stages == m.stages.push(st)
            &&& st.kind == StageKind::Compilation
            &&& st.duration == duration
            &&& st.outputs.len() == 0
            &&& st.inputs.len() == srcs.len()
            &&& forall|j: int|
                0 <= j < srcs.len() ==> #[trigger] st.inputs[j] == r.files[m.files.len() as int + j].id
        }),
{
    let pl = compile_plan(args);
    let ids = ids_from(entropy, pl.files.len() as int + 1);
    let r = classified(m, program, args, duration, entropy);
    let srcs = source_names(args);
    assert(pl.files.len() == srcs.len());
    assert forall|j: int| 0 <= j < srcs.len() implies (#[trigger] r.files[m.files.len() as int + j]).kind
        == FileKind::Source && r.files[m.files.len() as int + j].name == srcs[j] by {
        assert(r.files[m.files.len() as int + j] == planned_file_models(pl, ids)[j]);
        assert(pl.files[j] == as_planned(srcs, FileKind::Source)[j]);
    }
    let st = planned_stage_model(pl, ids, duration);
    assert(r.stages.last() == st);
    assert forall|j: int| 0 <= j < srcs.len() implies #[trigger] st.inputs[j] == r.files[
        m.files.len() + j
    ].id by {
        assert(pl.inputs[j] == j);
        assert(st.inputs[j] == ids[j]);
        assert(r.files[m.files.len() as int + j] == planned_file_models(pl, ids)[j]);
    }
}

/// A link invocation appends one Link stage whose single Executable output is
/// the name after `-o`; each implicit `-l<name>` argument yields a Library
/// input named `lib<name>.a`, each `.a` argument a Library input, and each
/// `.o` argument an Object input, all listed among the stage's inputs.
pub proof fn lemma_link(
    m: ReportModel,
    program: Seq<char>,
    args: Seq<Seq<char>>,
    duration: u64,
    entropy: Seq<u8>,
)
    requires
        is_compiler_path(program),
        !has_arg(args, "-c"@),
        o_target(args) is Some,
    ensures
        ({
            let r = classified(m, program, args, duration, entropy);
            let st = r.stages.last();
            let base = m.files.len() as int;
            let ni = implicit_lib_names(args).len() as int;
            let na = suffix_names(args, ".a"@).len() as int;
            let no = suffix_names(args, ".o"@).len() as int;
            &&& r.files.len() == base + 1 + ni + na + no
            &&& r.stages == m.stages.push(st)
            &&& st.kind == StageKind::Link
            &&& st.duration == duration
            &&& st.outputs =~= seq![r.files[base].id]
            &&& r.files[base].kind == FileKind::Executable
            &&& r.files[base].name == o_target(args)->0
            &&& forall|j: int|
                0 <= j < ni ==> (#[trigger] r.files[base + 1 + j]).kind == FileKind::Library
                    && r.files[base + 1 + j].name == implicit_lib_names(args)[j]
            &&& forall|j: int|
                0 <= j < na ==> (#[trigger] r.files[base + 1 + ni + j]).kind == FileKind::Library
                    && r.files[base + 1 + ni + j].name == suffix_names(args, ".a"@)[j]
            &&& forall|j: int|
                0 <= j < no ==> (#[trigger] r.files[base + 1 + ni + na + j]).kind
                    == FileKind::Object && r.files[base + 1 + ni + na + j].name == suffix_names(
                    args,
                    ".o"@,
                )[j]
            &&& st.inputs.len() == ni + na + no
            &&& forall|j: int|
                0 <= j < ni + na + no ==> #[trigger] st.inputs[j] == r.files[base + 1 + j].id
        }),
{
    let exe = o_target(args)->0;
    let pl = link_plan(args, exe);
    let ids = ids_from(entropy, pl.files.len() as int + 1);
    let r = classified(m, program, args, duration, entropy);
    let base = m.files.len() as int;
    let ni = implicit_lib_names(args).len() as int;
    let na = suffix_names(args, ".a"@).len() as int;
    let no = suffix_names(args, ".o"@).len() as int;
    assert(pl.files.len() == 1 + ni + na + no);
    assert forall|j: int| 0 <= j < pl.files.len() implies r.files[base + j]
        == planned_file_models(pl, ids)[j] by {}
    assert forall|j: int| 0 <= j < ni implies (#[trigger] r.files[base + 1 + j]).kind
        == FileKind::Library && r.files[base + 1 + j].name == implicit_lib_names(args)[j] by {
        assert(r.files[base + 1 + j] == planned_file_models(pl, ids)[1 + j]);
        assert(pl.files[1 + j] == as_planned(implicit_lib_names(args), FileKind::Library)[j]);
    }
    assert forall|j: int| 0 <= j < na implies (#[trigger] r.files[base + 1 + ni + j]).kind
        == FileKind::Library && r.files[base + 1 + ni + j].name == suffix_names(args, ".a"@)[j] by {
        assert(r.files[base + 1 + ni + j] == planned_file_models(pl, ids)[1 + ni + j]);
        assert(pl.files[1 + ni + j] == as_planned(suffix_names(args, ".a"@), FileKind::Library)[j]);
    }
    assert forall|j: int| 0 <= j < no implies (#[trigger] r.files[base + 1 + ni + na + j]).kind
        == FileKind::Object && r.files[base + 1 + ni + na + j].name == suffix_names(
        args,
        ".o"@,
    )[j] by {
        assert(r.files[base + 1 + ni + na + j] == planned_file_models(pl, ids)[1 + ni + na + j]);
        assert(pl.files[1 + ni + na + j] == as_planned(suffix_names(args, ".o"@),
            FileKind::Object)[j]);
    }
    let st = planned_stage_model(pl, ids, duration);
    assert(r.stages.last() == st);
    assert(pl.outputs.len() == 1 && pl.outputs[0] == 0);
    assert(st.outputs[0] == ids[0]);
    assert(r.files[base] == planned_file_models(pl, ids)[0]);
    assert(st.outputs =~= seq![r.files[base].id]);
    assert forall|j: int| 0 <= j < ni + na + no implies #[trigger] st.inputs[j] == r.files[
        base + 1 + j
    ].id by {
        assert(pl.inputs[j] == 1 + j);
        assert(st.inputs[j] == ids[1 + j]);
        assert(r.files[base + 1 + j] == planned_file_models(pl, ids)[1 + j]);
    }
}

/// Every `-l<name>` argument of a link invocation produces a Library record
/// named `lib<name>.a` among the appended files.
pub proof fn lemma_link_implicit_arg(
    m: ReportModel,
    program: Seq<char>,
    args: Seq<Seq<char>>,
    duration: u64,
    entropy: Seq<u8>,
    i: int,
)
    requires
        is_compiler_path(program),
        !has_arg(args, "-c"@),
        o_target(args) is Some,
        0 <= i < args.len(),
        is_implicit_lib(args[i]),
    ensures
        ({
            let r = classified(m, program, args, duration, entropy);
            exists|j: int|
                m.files.len() as int <= j < r.files.len() as int && (#[trigger] r.files[j]).kind
                    == FileKind::Library && r.files[j].name == lib_name_of(args[i])
        }),
{
    lemma_implicit_lib_names_contains(args, i);
    let k = choose|k: int|
        0 <= k < implicit_lib_names(args).len() && implicit_lib_names(args)[k] == lib_name_of(
            args[i],
        );
    lemma_link(m, program, args, duration, entropy);
    let r = classified(m, program, args, duration, entropy);
    assert(r.files[m.files.len() as int + 1 + k].name == lib_name_of(args[i]));
}

/// Each implicit `-l<name>` argument contributes its library file name.
pub proof fn lemma_implicit_lib_names_contains(args: Seq<Seq<char>>, i: int)
    requires
        0 <= i < args.len(),
        is_implicit_lib(args[i]),
    ensures
        exists|k: int|
            0 <= k < implicit_lib_names(args).len() && implicit_lib_names(args)[k] == lib_name_of(
                args[i],
            ),
    decreases args.len(),
{
    if i == args.len() - 1 {
        let names = implicit_lib_names(args);
        assert(names.last() == lib_name_of(args[i]));
    } else {
        lemma_implicit_lib_names_contains(args.drop_last(), i);
        let k = choose|k: int|
            0 <= k < implicit_lib_names(args.drop_last()).len() && implicit_lib_names(
                args.drop_last(),
            )[k] == lib_name_of(args[i]);
        assert(implicit_lib_names(args.drop_last())[k] == lib_name_of(args[i]));
        if is_implicit_lib(args.last()) {
            assert(implicit_lib_names(args)[k] == lib_name_of(args[i]));
        } else {
            assert(implicit_lib_names(args) == implicit_lib_names(args.drop_last()));
        }
    }
}

/// An archiver invocation always appends one Archiving stage: the `.a`
/// arguments become its Library outputs and the `.o` arguments its Object
/// inputs, in order.
pub proof fn lemma_archive(
    m: ReportModel,
    program: Seq<char>,
    args: Seq<Seq<char>>,
    duration: u64,
    entropy: Seq<u8>,
)
    requires
        !is_compiler_path(program),
        is_archiver_path(program),
    ensures
        ({
            let r = classified(m, program, args, duration, entropy);
            let st = r.stages.last();
            let base = m.files.len() as int;
            let na = suffix_names(args, ".a"@).len() as int;
            let no = suffix_names(args, ".o"@).len() as int;
            &&& r.files.len() == base + na + no
            &&& r.stages == m.stages.push(st)
            &&& st.kind == StageKind::Archiving
            &&& st.duration == duration
            &&& forall|j: int|
                0 <= j < na ==> (#[trigger] r.files[base + j]).kind == FileKind::Library
                    && r.files[base + j].name == suffix_names(args, ".a"@)[j]
            &&& forall|j: int|
                0 <= j < no ==> (#[trigger] r.files[base + na + j]).kind == FileKind::Object
                    && r.files[base + na + j].name == suffix_names(args, ".o"@)[j]
            &&& st.outputs.len() == na
            &&& forall|j: int| 0 <= j < na ==> #[trigger] st.outputs[j] == r.files[base + j].id
            &&& st.inputs.len() == no
            &&& forall|j: int| 0 <= j < no ==> #[trigger] st.inputs[j] == r.files[base + na + j].id
        }),
{
    let pl = archive_plan(args);
    let ids = ids_from(entropy, pl.files.len() as int + 1);
    let r = classified(m, program, args, duration, entropy);
    let base = m.files.len() as int;
    let na = suffix_names(args, ".a"@).len() as int;
    let no = suffix_names(args, ".o"@).len() as int;
    assert(pl.files.len() == na + no);
    assert forall|j: int| 0 <= j < na implies (#[trigger] r.files[base + j]).kind
        == FileKind::Library && r.files[base + j].name == suffix_names(args, ".a"@)[j] by {
        assert(r.files[base + j] == planned_file_models(pl, ids)[j]);
        assert(pl.files[j] == as_planned(suffix_names(args, ".a"@), FileKind::Library)[j]);
    }
    assert forall|j: int| 0 <= j < no implies (#[trigger] r.files[base + na + j]).kind
        == FileKind::Object && r.files[base + na + j].name == suffix_names(args, ".o"@)[j] by {
        assert(r.files[base + na + j] == planned_file_models(pl, ids)[na + j]);
        assert(pl.files[na + j] == as_planned(suffix_names(args, ".o"@), FileKind::Object)[j]);
    }
    let st = planned_stage_model(pl, ids, duration);
    assert(r.stages.last() == st);
    assert forall|j: int| 0 <= j < na implies #[trigger] st.outputs[j] == r.files[base + j].id by {
        assert(pl.outputs[j] == j);
        assert(st.outputs[j] == ids[j]);
        assert(r.files[base + j] == planned_file_models(pl, ids)[j]);
    }
    assert forall|j: int| 0 <= j < no implies #[trigger] st.inputs[j] == r.files[
        base + na + j
    ].id by {
        assert(pl.inputs[j] == na + j);
        assert(st.inputs[j] == ids[na + j]);
        assert(r.files[base + na + j] == planned_file_models(pl, ids)[na + j]);
    }
}

/// A report consists of exactly the files and the one stage of the given
/// plan: files match the plan's kinds and names position for position, and
/// the stage's input and output identifiers name the files at the plan's
/// positions.  Identifiers themselves are left free.
pub open spec fn follows_plan(r: ReportModel, pl: PlannedStage, duration: u64) -> bool {
    &&& r.files.len() == pl.files.len()
    &&& forall|j: int|
        0 <= j < pl.files.len() ==> (#[trigger] r.files[j]).kind == pl.files[j].kind
            && r.files[j].name == pl.files[j].name
    &&& r.stages.len() == 1
    &&& r.stages[0].kind == pl.kind
    &&& r.stages[0].duration == duration
    &&& r.stages[0].inputs.len() == pl.inputs.len()
    &&& forall|k: int|
        0 <= k < pl.inputs.len() ==> #[trigger] r.stages[0].inputs[k] == r.files[pl.inputs[k]].id
    &&& r.stages[0].outputs.len() == pl.outputs.len()
    &&& forall|k: int|
        0 <= k < pl.outputs.len() ==> #[trigger] r.stages[0].outputs[k] == r.files[pl.outputs[k]].id
}

/// Classifying a recognized invocation against an empty report yields exactly
/// the plan of the invocation, whatever entropy the identifiers come from.
pub proof fn lemma_classified_follows_plan(
    program: Seq<char>,
    args: Seq<Seq<char>>,
    duration: u64,
    entropy: Seq<u8>,
)
    requires
        plan_of(program, args) is Some,
    ensures
        follows_plan(
            classified(empty_report_model(), program, args, duration, entropy),
            plan_of(program, args)->0,
            duration,
        ),
{
    let pl = plan_of(program, args)->0;
    let ids = ids_from(entropy, pl.files.len() as int + 1);
    let r = classified(empty_report_model(), program, args, duration, entropy);
    lemma_plan_indices_in_bounds(program, args);
    let st = planned_stage_model(pl, ids, duration);
    assert(r.stages[0] == st);
    assert forall|j: int| 0 <= j < pl.files.len() implies (#[trigger] r.files[j]).kind
        == pl.files[j].kind && r.files[j].name == pl.files[j].name by {
        assert(r.files[j] == planned_file_models(pl, ids)[j]);
    }
    assert forall|k: int| 0 <= k < pl.inputs.len() implies #[trigger] r.stages[0].inputs[k]
        == r.files[pl.inputs[k]].id by {
        assert(st.inputs[k] == ids[pl.inputs[k]]);
        assert(r.files[pl.inputs[k]] == planned_file_models(pl, ids)[pl.inputs[k]]);
    }
    assert forall|k: int| 0 <= k < pl.outputs.len() implies #[trigger] r.stages[0].outputs[k]
        == r.files[pl.outputs[k]].id by {
        assert(st.outputs[k] == ids[pl.outputs[k]]);
        assert(r.files[pl.outputs[k]] == planned_file_models(pl, ids)[pl.outputs[k]]);
    }
}

/// Classifying the same immutable inputs against two independent empty
/// reports yields structurally identical reports, identifiers aside: an
/// unrecognized invocation leaves both empty, and a recognized one makes
/// both follow the one plan of the invocation, which fixes every file's kind
/// and name and every stage's shape and linkage.
pub proof fn lemma_classify_idempotent(
    program: Seq<char>,
    args: Seq<Seq<char>>,
    duration: u64,
    e1: Seq<u8>,
    e2: Seq<u8>,
)
    ensures
        match plan_of(program, args) {
            None => classified(empty_report_model(), program, args, duration, e1)
                == empty_report_model() && classified(
                empty_report_model(),
                program,
                args,
                duration,
                e2,
            ) == empty_report_model(),
            Some(pl) => follows_plan(
                classified(empty_report_model(), program, args, duration, e1),
                pl,
                duration,
            ) && follows_plan(
                classified(empty_report_model(), program, args, duration, e2),
                pl,
                duration,
            ),
        },
{
    match plan_of(program, args) {
        None => {},
        Some(pl) => {
            lemma_classified_follows_plan(program, args, duration, e1);
            lemma_classified_follows_plan(program, args, duration, e2);
        },
    }
}

/// Every input or output index of a plan refers to one of its files.
pub proof fn lemma_plan_indices_in_bounds(program: Seq<char>, args: Seq<Seq<char>>)
    requires
        plan_of(program, args) is Some,
    ensures
        ({
            let pl = plan_of(program, args)->0;
            &&& forall|k: int|
                0 <= k < pl.inputs.len() ==> 0 <= #[trigger] pl.inputs[k] < pl.files.len()
            &&& forall|k: int|
                0 <= k < pl.outputs.len() ==> 0 <= #[trigger] pl.outputs[k] < pl.files.len()
        }),
{
}

/// Whether, in a link-shaped invocation, the first `-o` is followed by a
/// name.  Callers check this before classifying: a link invocation whose
/// `-o` is the last argument names no output and cannot be recorded.
pub fn link_target_ok(program: &str, args: &Vec<String>) -> (r: bool)
    ensures
        r == link_shape_ok(program@, args.deep_view()),
{
    let ghost d = args.deep_view();
    let n_args = args.len();
    proof {
        assert(d.len() == n_args);
    }
    if !is_compiler_prog(program) {
        return true;
    }
    if find_flag(args, "-c").is_some() {
        return true;
    }
    match find_flag(args, "-o") {
        Some(p) => p + 1 < n_args,
        None => true,
    }
}

/// How many entropy bytes one classification of this invocation consumes:
/// eight per fresh identifier.
pub fn entropy_needed(program: &str, args: &Vec<String>) -> (n: usize)
    requires
        args@.len() <= (usize::MAX - 32) / 32,
    ensures
        n == 8 * id_count(program@, args.deep_view()),
{
    let ghost d = args.deep_view();
    let n_args = args.len();
    proof {
        assert(d.len() == n_args);
    }
    if is_compiler_prog(program) {
        if find_flag(args, "-c").is_some() {
            let sources = collect_sources(args);
            let ns = sources.len();
            proof {
                assert(sources.deep_view().len() == ns);
                lemma_filtered_bounded(d);
            }
            let has_obj = if ns == 1 {
                match find_flag(args, "-o") {
                    Some(p) => p + 1 < n_args,
                    None => false,
                }
            } else {
                false
            };
            let ghost pl = compile_plan(d);
            if has_obj {
                proof {
                    assert(pl.files.len() == ns + 1);
                }
                8 * (ns + 2)
            } else {
                proof {
                    assert(o_target(d) is Some ==> source_names(d).len() != 1);
                    assert(pl.files.len() == ns);
                }
                8 * (ns + 1)
            }
        } else {
            match find_flag(args, "-o") {
                Some(p) => {
                    if p + 1 < n_args {
                        let imp = collect_implicit_libs(args);
                        let aa = collect_with_suffix(args, ".a");
                        let oo = collect_with_suffix(args, ".o");
                        proof {
                            lemma_filtered_bounded(d);
                            assert(imp.deep_view().len() == implicit_lib_names(d).len());
                            assert(aa.deep_view().len() == suffix_names(d, ".a"@).len());
                            assert(oo.deep_view().len() == suffix_names(d, ".o"@).len());
                            let pl = link_plan(d, d[p + 1]);
                            assert(pl.files.len() == 1 + imp.deep_view().len()
                                + aa.deep_view().len() + oo.deep_view().len());
                        }
                        8 * (2 + imp.len() + aa.len() + oo.len())
                    } else {
                        proof {
                            assert(o_target(d) is None);
                        }
                        0
                    }
                },
                None => 0,
            }
        }
    } else if is_archiver_prog(program) {
        let aa = collect_with_suffix(args, ".a");
        let oo = collect_with_suffix(args, ".o");
        proof {
            lemma_filtered_bounded(d);
            let pl = archive_plan(d);
            assert(pl.files.len() == aa.deep_view().len() + oo.deep_view().len());
        }
        8 * (1 + aa.len() + oo.len())
    } else {
        0
    }
}

/// Each filtered selection of the arguments has at most one entry per
/// argument.
pub proof fn lemma_filtered_bounded(d: Seq<Seq<char>>)
    ensures
        source_names(d).len() <= d.len(),
        implicit_lib_names(d).len() <= d.len(),
        suffix_names(d, ".a"@).len() <= d.len(),
        suffix_names(d, ".o"@).len() <= d.len(),
    decreases d.len(),
{
    if d.len() > 0 {
        lemma_filtered_bounded(d.drop_last());
    }
}

} // verus!
