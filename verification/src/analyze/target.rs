//! What a target is, by its content.

use vstd::prelude::*;
use vstd::slice::slice_subrange;
use super::script;
use super::script::{Shebang, ShebangView};
use super::{Analysis, AnalysisView, AnalyzeError, KindView, TargetKind};
use crate::elf;
use crate::elf::{ElfError, ElfErrorView, ElfFile, ElfView};
use crate::text;

verus! {

/// What was found at a path.
#[derive(Debug, Clone)]
pub enum Target {
    Directory,
    /// The file could not be read, with the reason.
    Unreadable(String),
    /// The content of the file, and its canonical path.
    File { data: Vec<u8>, canonical: String },
}

/// What a [`Target`] holds.
pub enum TargetView {
    Directory,
    Unreadable(Seq<char>),
    File { data: Seq<u8>, canonical: Seq<char> },
}

impl DeepView for Target {
    type V = TargetView;

    open spec fn deep_view(&self) -> TargetView {
        match self {
            Target::Directory => TargetView::Directory,
            Target::Unreadable(reason) => TargetView::Unreadable(reason@),
            Target::File { data, canonical } => TargetView::File {
                data: data@,
                canonical: canonical@,
            },
        }
    }
}

/// What there is to do about a target.
#[derive(Debug)]
pub enum Inspection {
    /// Nothing more: this is all there is to say.
    Settled(Box<Analysis>),
    /// A script: its interpreter is to be looked for.
    Script(Shebang),
    /// An ELF object: its libraries are to be looked for.
    Elf(Box<ElfFile>),
}

/// What an [`Inspection`] holds.
pub enum InspectionView {
    Settled(AnalysisView),
    Script(ShebangView),
    Elf(ElfView),
}

impl DeepView for Inspection {
    type V = InspectionView;

    open spec fn deep_view(&self) -> InspectionView {
        match self {
            Inspection::Settled(analysis) => InspectionView::Settled(analysis.deep_view()),
            Inspection::Script(shebang) => InspectionView::Script(shebang.deep_view()),
            Inspection::Elf(elf) => InspectionView::Elf(elf.deep_view()),
        }
    }
}

/// All there is to say of what is no program.
pub open spec fn plain_analysis(path: Seq<char>, description: Seq<char>) -> AnalysisView {
    AnalysisView {
        path,
        kind: KindView::NotElf { description },
        not_a_program: None,
        arch: None,
        permissions: None,
        interpreter: None,
        libraries: Seq::empty(),
        unresolved: Seq::empty(),
        version_problems: Seq::empty(),
        env: Seq::empty(),
        notes: Seq::empty(),
    }
}

fn plain(path: &str, description: String) -> (r: Analysis)
    ensures
        r.deep_view() == plain_analysis(path@, description@),
{
    let r: Analysis = Analysis {
        path: path.to_owned(),
        kind: TargetKind::NotElf { description },
        not_a_program: None,
        arch: None,
        permissions: None,
        interpreter: None,
        libraries: Vec::new(),
        unresolved: Vec::new(),
        version_problems: Vec::new(),
        env: Vec::new(),
        notes: Vec::new(),
    };
    assert(r.libraries.deep_view() =~= Seq::<super::LibraryView>::empty());
    assert(r.unresolved.deep_view() =~= Seq::<super::UnresolvedView>::empty());
    assert(r.version_problems.deep_view() =~= Seq::<super::VersionView>::empty());
    assert(r.env.deep_view() =~= Seq::<super::EnvView>::empty());
    assert(r.notes.deep_view() =~= Seq::<Seq<char>>::empty());
    r
}

/// The part of a file that is looked at to tell text from binary data.
pub open spec fn sample(data: Seq<u8>) -> Seq<u8> {
    if data.len() > 512 {
        data.take(512)
    } else {
        data
    }
}

/// Characters that may stand in a text file.
pub open spec fn is_plain(s: Seq<char>) -> bool {
    forall|i: int|
        0 <= i < s.len() ==> !text::is_control(#[trigger] s[i]) || s[i] == '\n' || s[i] == '\t'
            || s[i] == '\r'
}

/// What a file that is not ELF looks like.
pub open spec fn look_of(data: Seq<u8>) -> Seq<char> {
    if data.len() == 0 {
        "an empty file"@
    } else if data.len() >= 4 && data.take(4) == elf::magic() {
        "an ELF file that could not be parsed"@
    } else if vstd::utf8::valid_utf8(sample(data)) && is_plain(
        vstd::utf8::decode_utf8(sample(data)),
    ) {
        "a text file"@
    } else {
        "a binary file that is not ELF"@
    }
}

/// Whether characters may stand in a text file.
fn looks_plain(s: &[char]) -> (r: bool)
    ensures
        r == is_plain(s@),
{
    let mut i: usize = 0;
    while i < s.len()
        invariant
            i <= s@.len(),
            forall|k: int|
                0 <= k < i ==> !text::is_control(#[trigger] s@[k]) || s@[k] == '\n' || s@[k] == '\t'
                    || s@[k] == '\r',
        decreases s@.len() - i,
    {
        let c: char = s[i];
        if text::control(c) && c != '\n' && c != '\t' && c != '\r' {
            return false;
        }
        i += 1;
    }
    true
}

/// Says what a file that is not ELF looks like.
pub fn describe_non_elf(data: &[u8]) -> (r: String)
    ensures
        r@ == look_of(data@),
{
    if data.len() == 0 {
        return "an empty file".to_owned();
    }
    if elf::has_magic(data) {
        return "an ELF file that could not be parsed".to_owned();
    }
    let n: usize = if data.len() > 512 {
        512
    } else {
        data.len()
    };
    let head: &[u8] = slice_subrange(data, 0, n);
    assert(head@ =~= sample(data@));
    match text::decode_strict(head) {
        Some(s) => {
            let chars: Vec<char> = text::chars_of(s.as_str());
            if looks_plain(chars.as_slice()) {
                return "a text file".to_owned();
            }
        },
        None => {},
    }
    "a binary file that is not ELF".to_owned()
}

/// A file that starts like a script.
pub open spec fn has_shebang(data: Seq<u8>) -> bool {
    data.len() >= 2 && data[0] == 0x23 && data[1] == 0x21
}

/// What there is to do about a target, or why it cannot be read.
pub open spec fn inspected(path: Seq<char>, target: TargetView) -> Result<
    InspectionView,
    Seq<char>,
> {
    match target {
        TargetView::Directory => Ok(
            InspectionView::Settled(plain_analysis(path, "this is a directory, not a program"@)),
        ),
        TargetView::Unreadable(reason) => Err(reason),
        TargetView::File { data, canonical } => if has_shebang(data) {
            Ok(InspectionView::Script(script::script_of(data)))
        } else {
            match elf::parsed(canonical, data) {
                Ok(object) => Ok(InspectionView::Elf(object)),
                Err(ElfErrorView::NotElf) => Ok(
                    InspectionView::Settled(plain_analysis(path, look_of(data))),
                ),
                Err(error) => Ok(
                    InspectionView::Settled(
                        plain_analysis(
                            path,
                            "an ELF file that could not be parsed ("@ + error.text() + ")"@,
                        ),
                    ),
                ),
            }
        },
    }
}

/// Inspects the target at `path`.
///
/// The object is parsed under its canonical path, so that `$ORIGIN` is
/// sensible, while the report keeps showing the path the user typed.
pub fn analyze(path: &str, target: &Target) -> (r: Result<Inspection, AnalyzeError>)
    ensures
        r matches Ok(inspection) ==> inspected(path@, target.deep_view()) == Ok::<
            InspectionView,
            Seq<char>,
        >(inspection.deep_view()),
        r matches Err(error) ==> inspected(path@, target.deep_view()) == Err::<
            InspectionView,
            Seq<char>,
        >(error.text()),
{
    match target {
        Target::Directory => Ok(
            Inspection::Settled(
                Box::new(plain(path, "this is a directory, not a program".to_owned())),
            ),
        ),
        Target::Unreadable(reason) => Err(AnalyzeError::Io(reason.clone())),
        Target::File { data, canonical } => {
            if data.len() >= 2 && data[0] == 0x23 && data[1] == 0x21 {
                return Ok(Inspection::Script(script::shebang_of(data.as_slice())));
            }
            match ElfFile::parse_bytes(canonical.as_str(), data.as_slice()) {
                Ok(object) => Ok(Inspection::Elf(Box::new(object))),
                Err(ElfError::NotElf) => Ok(
                    Inspection::Settled(Box::new(plain(path, describe_non_elf(data.as_slice())))),
                ),
                Err(error) => {
                    let mut description: String = String::new();
                    description.append("an ELF file that could not be parsed (");
                    description.append(error.message().as_str());
                    description.append(")");
                    assert(description@ =~= "an ELF file that could not be parsed ("@
                        + error.deep_view().text() + ")"@);
                    Ok(Inspection::Settled(Box::new(plain(path, description))))
                },
            }
        },
    }
}

/// What is settled at once cannot be diagnosed: the exit status is `2`.
pub proof fn what_is_settled_at_once_is_no_program(path: Seq<char>, target: TargetView)
    ensures
        inspected(path, target) matches Ok(InspectionView::Settled(a)) ==> a.code() == 2,
        inspected(path, target) is Err <==> target is Unreadable,
{
}

} // verus!
