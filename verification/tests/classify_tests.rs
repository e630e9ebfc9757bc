use eyec::classify::{classify, entropy_needed, link_target_ok};
use eyec::ident::IdGen;
use eyec::model::{FileKind, Report, StageKind};

fn strings(args: &[&str]) -> Vec<String> {
    let mut v: Vec<String> = Vec::new();
    for a in args {
        v.push(a.to_string());
    }
    v
}

fn run(program: &str, args: &[&str], duration: u64) -> Report {
    let args = strings(args);
    assert!(link_target_ok(program, &args));
    let need = entropy_needed(program, &args);
    let mut bytes: Vec<u8> = Vec::new();
    for i in 0..need {
        bytes.push((i % 251) as u8);
    }
    let mut gen = IdGen::new(bytes);
    let mut report = Report::new();
    classify(program, &args, &mut report, duration, &mut gen);
    report
}

#[test]
fn compile_single_source() {
    let r = run("/usr/bin/g++", &["g++", "-c", "a.cpp", "-o", "a.o"], 120);
    assert_eq!(r.stages.len(), 1);
    assert_eq!(r.files.len(), 2);
    let st = &r.stages[0];
    assert!(matches!(st.kind, StageKind::Compilation));
    assert_eq!(st.duration, 120);
    assert!(matches!(r.files[0].kind, FileKind::Source));
    assert_eq!(r.files[0].name, "a.cpp");
    assert!(matches!(r.files[1].kind, FileKind::Object));
    assert_eq!(r.files[1].name, "a.o");
    assert_eq!(st.inputs, vec![r.files[0].id.clone()]);
    assert_eq!(st.outputs, vec![r.files[1].id.clone()]);
}

#[test]
fn compile_two_sources_has_no_output() {
    let r = run("/usr/bin/gcc", &["gcc", "-c", "a.c", "b.c", "-o", "x.o"], 7);
    assert_eq!(r.stages.len(), 1);
    assert_eq!(r.files.len(), 2);
    let st = &r.stages[0];
    assert!(matches!(st.kind, StageKind::Compilation));
    assert_eq!(st.inputs.len(), 2);
    assert_eq!(st.outputs.len(), 0);
    assert_eq!(r.files[0].name, "a.c");
    assert_eq!(r.files[1].name, "b.c");
    assert!(matches!(r.files[0].kind, FileKind::Source));
    assert!(matches!(r.files[1].kind, FileKind::Source));
}

#[test]
fn link_objects_and_library() {
    let r = run("/usr/bin/g++", &["g++", "a.o", "b.o", "-lm", "-o", "prog"], 50);
    assert_eq!(r.stages.len(), 1);
    let st = &r.stages[0];
    assert!(matches!(st.kind, StageKind::Link));
    assert_eq!(st.duration, 50);
    assert_eq!(r.files.len(), 4);
    assert!(matches!(r.files[0].kind, FileKind::Executable));
    assert_eq!(r.files[0].name, "prog");
    assert!(matches!(r.files[1].kind, FileKind::Library));
    assert_eq!(r.files[1].name, "libm.a");
    assert!(matches!(r.files[2].kind, FileKind::Object));
    assert_eq!(r.files[2].name, "a.o");
    assert!(matches!(r.files[3].kind, FileKind::Object));
    assert_eq!(r.files[3].name, "b.o");
    assert_eq!(st.outputs, vec![r.files[0].id.clone()]);
    assert_eq!(
        st.inputs,
        vec![r.files[1].id.clone(), r.files[2].id.clone(), r.files[3].id.clone()]
    );
}

#[test]
fn link_explicit_library_and_digit_lib() {
    let r = run("/usr/bin/cc", &["cc", "x.o", "libfoo.a", "-l2", "-o", "app"], 3);
    let st = &r.stages[0];
    assert!(matches!(st.kind, StageKind::Link));
    // executable, implicit lib2.a, explicit libfoo.a, object x.o
    assert_eq!(r.files.len(), 4);
    assert_eq!(r.files[1].name, "lib2.a");
    assert!(matches!(r.files[1].kind, FileKind::Library));
    assert_eq!(r.files[2].name, "libfoo.a");
    assert!(matches!(r.files[2].kind, FileKind::Library));
    assert_eq!(st.inputs.len(), 3);
}

#[test]
fn link_dash_l_without_alphanumeric_is_ignored() {
    let r = run("/usr/bin/gcc", &["gcc", "-l-", "-l", "a.o", "-o", "out"], 1);
    let st = &r.stages[0];
    assert!(matches!(st.kind, StageKind::Link));
    // executable and the one object; no library from "-l-" or bare "-l"
    assert_eq!(r.files.len(), 2);
    assert_eq!(r.files[0].name, "out");
    assert_eq!(r.files[1].name, "a.o");
}

#[test]
fn compiler_without_c_or_o_records_nothing() {
    let r = run("/usr/bin/g++", &["g++", "--version"], 2);
    assert_eq!(r.files.len(), 0);
    assert_eq!(r.stages.len(), 0);
}

#[test]
fn archive_objects_into_library() {
    let r = run("/usr/bin/ar", &["ar", "rcs", "libx.a", "a.o", "b.o"], 9);
    assert_eq!(r.stages.len(), 1);
    let st = &r.stages[0];
    assert!(matches!(st.kind, StageKind::Archiving));
    assert_eq!(r.files.len(), 3);
    assert!(matches!(r.files[0].kind, FileKind::Library));
    assert_eq!(r.files[0].name, "libx.a");
    assert!(matches!(r.files[1].kind, FileKind::Object));
    assert_eq!(r.files[1].name, "a.o");
    assert!(matches!(r.files[2].kind, FileKind::Object));
    assert_eq!(r.files[2].name, "b.o");
    assert_eq!(st.outputs, vec![r.files[0].id.clone()]);
    assert_eq!(st.inputs, vec![r.files[1].id.clone(), r.files[2].id.clone()]);
}

#[test]
fn archiver_with_no_matching_args_still_records_a_stage() {
    let r = run("/usr/bin/ar", &["ar", "t"], 4);
    assert_eq!(r.files.len(), 0);
    assert_eq!(r.stages.len(), 1);
    assert!(matches!(r.stages[0].kind, StageKind::Archiving));
    assert_eq!(r.stages[0].inputs.len(), 0);
    assert_eq!(r.stages[0].outputs.len(), 0);
}

#[test]
fn unrecognized_program_leaves_report_unchanged() {
    let r = run("/usr/bin/sh", &["sh", "-c", "echo hi > x.o"], 5);
    assert_eq!(r.files.len(), 0);
    assert_eq!(r.stages.len(), 0);
    assert_eq!(entropy_needed("/usr/bin/sh", &strings(&["sh", "-c", "x"])), 0);
}

#[test]
fn classification_accumulates_across_invocations() {
    let args1 = strings(&["g++", "-c", "a.cpp", "-o", "a.o"]);
    let args2 = strings(&["ar", "rcs", "libx.a", "a.o"]);
    let mut report = Report::new();
    let mut gen = IdGen::new(vec![7u8; 256]);
    classify("/usr/bin/g++", &args1, &mut report, 10, &mut gen);
    classify("/usr/bin/ar", &args2, &mut report, 20, &mut gen);
    assert_eq!(report.stages.len(), 2);
    assert_eq!(report.files.len(), 4);
    assert!(matches!(report.stages[0].kind, StageKind::Compilation));
    assert!(matches!(report.stages[1].kind, StageKind::Archiving));
}

#[test]
fn classification_is_idempotent_up_to_identifiers() {
    let args = strings(&["g++", "a.o", "-lfoo", "-o", "prog"]);
    let r1 = run("/usr/bin/g++", &["g++", "a.o", "-lfoo", "-o", "prog"], 33);
    let mut report2 = Report::new();
    let mut gen2 = IdGen::new(vec![0xabu8; 256]);
    classify("/usr/bin/g++", &args, &mut report2, 33, &mut gen2);
    assert_eq!(r1.files.len(), report2.files.len());
    for (a, b) in r1.files.iter().zip(report2.files.iter()) {
        assert_eq!(a.name, b.name);
        assert_eq!(format!("{:?}", a.kind), format!("{:?}", b.kind));
    }
    assert_eq!(r1.stages.len(), report2.stages.len());
    assert_eq!(r1.stages[0].inputs.len(), report2.stages[0].inputs.len());
    assert_eq!(r1.stages[0].outputs.len(), report2.stages[0].outputs.len());
    assert_eq!(r1.stages[0].duration, report2.stages[0].duration);
}

#[test]
fn trailing_dash_o_in_link_is_reported_unusable() {
    let args = strings(&["g++", "a.o", "-o"]);
    assert!(!link_target_ok("/usr/bin/g++", &args));
    // with -c the trailing -o is harmless: no output is inferred
    let args2 = strings(&["g++", "-c", "a.cpp", "b.cpp", "-o"]);
    assert!(link_target_ok("/usr/bin/g++", &args2));
    let r = run("/usr/bin/g++", &["g++", "-c", "a.cpp", "b.cpp", "-o"], 2);
    assert_eq!(r.stages[0].outputs.len(), 0);
}

#[test]
fn link_target_ending_in_archive_suffix_is_also_an_input() {
    let r = run("/usr/bin/gcc", &["gcc", "x.o", "-o", "out.a"], 6);
    let st = &r.stages[0];
    assert!(matches!(st.kind, StageKind::Link));
    // the target is recorded as the Executable output and, because it ends
    // in .a, once more as a Library input
    assert_eq!(r.files.len(), 3);
    assert!(matches!(r.files[0].kind, FileKind::Executable));
    assert_eq!(r.files[0].name, "out.a");
    assert!(matches!(r.files[1].kind, FileKind::Library));
    assert_eq!(r.files[1].name, "out.a");
    assert!(matches!(r.files[2].kind, FileKind::Object));
    assert_eq!(r.files[2].name, "x.o");
}
