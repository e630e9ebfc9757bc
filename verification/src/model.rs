//! Data model of the report: files, stages, and the report itself, together
//! with their mathematical models.

use vstd::prelude::*;

verus! {

/// The kind of an artifact observed as input or output of a build action.
#[derive(Clone, Copy, PartialEq, Eq, Structural, Debug)]
pub enum FileKind {
    Source,
    Object,
    Library,
    Executable,
}

/// The kind of a recorded build action.
#[derive(Clone, Copy, PartialEq, Eq, Structural, Debug)]
pub enum StageKind {
    Compilation,
    Link,
    Archiving,
}

/// A named artifact observed in one invocation, tagged with a fresh identifier.
pub struct FileRec {
    pub id: String,
    pub kind: FileKind,
    pub name: String,
}

/// One recorded build action: the identifiers of the files it consumed and
/// produced, its kind, and the wall-clock duration of the wrapped process.
pub struct StageRec {
    pub id: String,
    pub inputs: Vec<String>,
    pub outputs: Vec<String>,
    pub kind: StageKind,
    pub duration: u64,
}

/// The accumulated history of every invocation observed during a build.
pub struct Report {
    pub files: Vec<FileRec>,
    pub stages: Vec<StageRec>,
}

/// Mathematical model of a file record.
#[verifier::ext_equal]
pub ghost struct FileModel {
    pub id: Seq<char>,
    pub kind: FileKind,
    pub name: Seq<char>,
}

/// Mathematical model of a stage record.
#[verifier::ext_equal]
pub ghost struct StageModel {
    pub id: Seq<char>,
    pub inputs: Seq<Seq<char>>,
    pub outputs: Seq<Seq<char>>,
    pub kind: StageKind,
    pub duration: u64,
}

/// Mathematical model of a report.
#[verifier::ext_equal]
pub ghost struct ReportModel {
    pub files: Seq<FileModel>,
    pub stages: Seq<StageModel>,
}

impl View for FileRec {
    type V = FileModel;

    open spec fn view(&self) -> FileModel {
        FileModel { id: self.id@, kind: self.kind, name: self.name@ }
    }
}

impl DeepView for FileRec {
    type V = FileModel;

    open spec fn deep_view(&self) -> FileModel {
        self.view()
    }
}

impl View for StageRec {
    type V = StageModel;

    open spec fn view(&self) -> StageModel {
        StageModel {
            id: self.id@,
            inputs: self.inputs.deep_view(),
            outputs: self.outputs.deep_view(),
            kind: self.kind,
            duration: self.duration,
        }
    }
}

impl DeepView for StageRec {
    type V = StageModel;

    open spec fn deep_view(&self) -> StageModel {
        self.view()
    }
}

impl View for Report {
    type V = ReportModel;

    open spec fn view(&self) -> ReportModel {
        ReportModel { files: self.files.deep_view(), stages: self.stages.deep_view() }
    }
}

/// The model of a report with no recorded history.
pub open spec fn empty_report_model() -> ReportModel {
    ReportModel { files: Seq::empty(), stages: Seq::empty() }
}

impl Report {
    /// A fresh report with no files and no stages.
    pub fn new() -> (r: Report)
        ensures
            r@ == empty_report_model(),
    {
        let r = Report { files: Vec::new(), stages: Vec::new() };
        proof {
            assert(r@.files =~= Seq::<FileModel>::empty());
            assert(r@.stages =~= Seq::<StageModel>::empty());
        }
        r
    }
}

} // verus!
