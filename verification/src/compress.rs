//! One call that compresses a PDF the way the command line does: run the
//! stages, serialize under the never-grow rule, check the output with the
//! independent parser, and judge a comparison of the rendered pages. The
//! binary is a thin client of [`compress`]; so is any program that wants the
//! same guarantees.
use vstd::prelude::*;
use vstd::string::StringExecFns;

use crate::backend;
use crate::bytes;
use crate::config::{Config, Preset};
use crate::document::Pdf;
use crate::error;
use crate::error::Refusal;
use crate::pipeline;
use crate::report::Report;
use crate::verify;
use crate::verify::render;
use crate::verify::render::Comparison;
use crate::verify::{Verification, VerificationView};

verus! {

/// How much of the output to check before handing it back.
#[derive(Debug, Clone, Copy, PartialEq, Eq)]
pub enum Verify {
    /// Re-parse the output with a reader that shares no code with the
    /// writer; a problem the input did not have rejects the output.
    Structure,
    /// Structural, plus every page of input and output rendered and
    /// compared. A page under the preset's similarity floor is a warning
    /// in the report, or with `strict` a rejection.
    Render { preset: Preset, strict: bool },
}

/// A compressed document and the report of what was done to it.
#[derive(Debug)]
pub struct Compressed {
    /// The output bytes; the input bytes unchanged when nothing was smaller.
    pub output: Vec<u8>,
    pub report: Report,
    /// The structural check of the output; nothing when the output is the
    /// input unchanged and nothing was checked.
    pub verification: Option<Verification>,
    /// The page comparison, when rendering was asked for and both
    /// documents rendered.
    pub render: Option<Comparison>,
}

/// Why nothing was produced, with the report up to that point.
#[derive(Debug)]
pub struct Rejected {
    pub report: Report,
    pub reason: Refusal,
}

impl Rejected {
    /// The message the command prints.
    pub fn to_text(&self) -> (r: String)
        ensures
            r@ == error::message(self.reason),
    {
        self.reason.to_text()
    }
}

// ------------------------------------------------------------- structure

/// The warning that old problems stay.
pub open spec fn old_problems_note() -> Seq<char> {
    "warning: the input already had these problems; output written anyway"@
}

/// Regressions with the count in the input first, then that in the output.
pub open spec fn turned_round(
    list: Seq<(verify::Category, usize, usize)>,
) -> Seq<(verify::Category, usize, usize)> {
    list.map_values(|e: (verify::Category, usize, usize)| (e.0, e.2, e.1))
}

fn turn_round(list: &Vec<(verify::Category, usize, usize)>) -> (r: Vec<
    (verify::Category, usize, usize),
>)
    ensures
        r@ == turned_round(list@),
{
    let ghost goal = turned_round(list@);
    let mut out: Vec<(verify::Category, usize, usize)> = Vec::new();
    let mut i: usize = 0;
    while i < list.len()
        invariant
            i <= list@.len(),
            goal == turned_round(list@),
            out@ == goal.take(i as int),
        decreases list@.len() - i,
    {
        let (category, here, there) = list[i];
        out.push((category, there, here));
        i += 1;
        assert(out@ =~= goal.take(i as int));
    }
    assert(goal.take(i as int) =~= goal);
    out
}

/// What the check of an output comes to, given that of the input: problems the
/// input already had are warnings, new ones a rejection.
pub open spec fn structure_judged(
    v: VerificationView,
    baseline: VerificationView,
    notes: Seq<Seq<char>>,
    r: Result<Verification, Refusal>,
    said: Seq<Seq<char>>,
) -> bool {
    let summed_up = notes.push(verify::summary(v));
    if v.problems.len() == 0 {
        (r matches Ok(x) && x@ == v) && said == summed_up
    } else if verify::regressions(v, baseline).len() > 0 {
        (r matches Err(Refusal::VerificationRegressed(list)) && list@ == turned_round(
            verify::regressions(v, baseline),
        )) && said == summed_up
    } else {
        (r matches Ok(x) && x@ == v) && said == summed_up.push(old_problems_note())
    }
}

/// Problems the input already had are warnings; new ones are bugs.
pub fn judge_structure(
    verification: Verification,
    baseline: &Verification,
    report: &mut Report,
) -> (r: Result<Verification, Refusal>)
    ensures
        structure_judged(
            verification@,
            baseline@,
            old(report).said(),
            r,
            final(report).said(),
        ),
        pipeline::same_but_notes(*old(report), *final(report)),
{
    report.note(verification.to_text().as_str());
    if verification.is_ok() {
        return Ok(verification);
    }
    let regressions = verification.regressions_from(baseline);
    if regressions.len() > 0 {
        return Err(Refusal::VerificationRegressed(turn_round(&regressions)));
    }
    report.note("warning: the input already had these problems; output written anyway");
    Ok(verification)
}

/// What the check of an output comes to, whatever the reader finds.
pub open spec fn structure_checked(
    input: Seq<u8>,
    output: Seq<u8>,
    pages: usize,
    notes: Seq<Seq<char>>,
    r: Result<Verification, Refusal>,
    said: Seq<Seq<char>>,
) -> bool {
    exists|v: VerificationView, baseline: VerificationView|
        verify::may_find(output, pages as int, v) && (v.problems.len() > 0 ==> verify::may_find(
            input,
            pages as int,
            baseline,
        )) && #[trigger] structure_judged(v, baseline, notes, r, said)
}

/// Checks an output, and where it has problems, the input too.
pub fn check_structure(
    input: &Vec<u8>,
    output: &Vec<u8>,
    pages: usize,
    report: &mut Report,
) -> (r: Result<Verification, Refusal>)
    ensures
        structure_checked(
            input@,
            output@,
            pages,
            old(report).said(),
            r,
            final(report).said(),
        ),
        pipeline::same_but_notes(*old(report), *final(report)),
{
    let verification = verify::verify(output, pages);
    let baseline = if verification.is_ok() {
        Verification::new()
    } else {
        verify::verify(input, pages)
    };
    let ghost v = verification@;
    let r = judge_structure(verification, &baseline, report);
    assert(structure_judged(v, baseline@, old(report).said(), r, report.said()));
    r
}

// ------------------------------------------------------------- rendering

/// A comparison of rendered pages, with the text that describes it.
#[derive(Debug)]
pub struct Rendered {
    pub comparison: Comparison,
    pub text: String,
}

/// The warning that pages differ.
pub open spec fn below_floor_note() -> Seq<char> {
    "warning: pages below the similarity floor; output written anyway"@
}

/// Whether a page is below the floor.
pub open spec fn falls_short(c: Comparison) -> bool {
    render::below(c.pages@, c.floor, c.pages@.len() as int).len() > 0
}

/// What a comparison of the rendered pages comes to: a page under the floor is
/// a warning, or a rejection where that is asked for; pages that could not be
/// rendered are noted.
pub open spec fn render_judged(
    rendered: Result<Rendered, String>,
    strict: bool,
    notes: Seq<Seq<char>>,
    r: Result<Option<Comparison>, Refusal>,
    said: Seq<Seq<char>>,
) -> bool {
    match rendered {
        Err(e) => r == Ok::<Option<Comparison>, Refusal>(None) && said == notes.push(
            "render: skipped, "@ + e@,
        ),
        Ok(x) => if falls_short(x.comparison) {
            if strict {
                r == Err::<Option<Comparison>, Refusal>(
                    Refusal::BelowSimilarityFloor(x.comparison),
                ) && said == notes.push(x.text@)
            } else {
                r == Ok::<Option<Comparison>, Refusal>(Some(x.comparison)) && said == notes.push(
                    x.text@,
                ).push(below_floor_note())
            }
        } else {
            r == Ok::<Option<Comparison>, Refusal>(Some(x.comparison)) && said == notes.push(
                x.text@,
            )
        },
    }
}

/// The visual level: every page rendered before and after and compared. A page
/// under the floor is a warning, or when strict a rejection.
pub fn check_render(rendered: Result<Rendered, String>, strict: bool, report: &mut Report) -> (r:
    Result<Option<Comparison>, Refusal>)
    ensures
        render_judged(rendered, strict, old(report).said(), r, final(report).said()),
        pipeline::same_but_notes(*old(report), *final(report)),
{
    match rendered {
        Err(e) => {
            let mut note = "render: skipped, ".to_owned();
            note.append(e.as_str());
            report.note(note.as_str());
            Ok(None)
        },
        Ok(x) => {
            report.note(x.text.as_str());
            if x.comparison.below_floor().len() > 0 {
                if strict {
                    return Err(Refusal::BelowSimilarityFloor(x.comparison));
                }
                report.note("warning: pages below the similarity floor; output written anyway");
            }
            Ok(Some(x.comparison))
        },
    }
}

// ------------------------------------------------------------- the call

/// What processing a loaded document comes to.
pub open spec fn processed(
    doc: Pdf,
    input: Seq<u8>,
    config: Config,
    before: Report,
    r: Result<(Vec<u8>, Option<Verification>), Refusal>,
    after: Report,
) -> bool {
    match pipeline::guarded(doc@, doc.encryption) {
        Some(why) => r == Err::<(Vec<u8>, Option<Verification>), Refusal>(why) && after == before,
        None => {
            let p = pipeline::staged(
                pipeline::started(
                    doc@,
                    doc.encryption is Some,
                    before.said(),
                    pipeline::done_view(before.stages@),
                ),
                pipeline::stage_order().len() as int,
                config,
            );
            pipeline::done_view(after.stages@) == p.done && match p.failed {
                Some(e) => failed_with(r, e) && after.said() == p.notes,
                None => written(p, doc, input, r, after),
            }
        },
    }
}

/// Whether an attempt failed with a message.
pub open spec fn failed_with(
    r: Result<(Vec<u8>, Option<Verification>), Refusal>,
    e: Seq<char>,
) -> bool {
    match r {
        Err(Refusal::Internal(t)) => t@ == e,
        _ => false,
    }
}

/// What writing and checking a document comes to after the stages.
pub open spec fn written(
    p: pipeline::RunView,
    doc: Pdf,
    input: Seq<u8>,
    r: Result<(Vec<u8>, Option<Verification>), Refusal>,
    after: Report,
) -> bool {
    let w = pipeline::serialized(p.doc, input);
    let notes = p.notes + w.notes;
    let pages = backend::page_ids(doc@).len() as usize;
    match w.output {
        Err(e) => failed_with(r, e) && after.said() == notes,
        Ok(b) => after.output_bytes == b.len() && if b == input {
            (r matches Ok(x) && x.0@ == b && x.1 is None) && after.said() == notes
        } else {
            match r {
                Ok(x) => x.0@ == b && match x.1 {
                    Some(v) => structure_checked(input, b, pages, notes, Ok(v), after.said()),
                    None => false,
                },
                Err(e) => structure_checked(input, b, pages, notes, Err(e), after.said()),
            }
        },
    }
}

fn process(doc: Pdf, input: &Vec<u8>, config: &Config, report: &mut Report) -> (r: Result<
    (Vec<u8>, Option<Verification>),
    Refusal,
>)
    requires
        doc.wf(),
    ensures
        processed(doc, input@, *config, *old(report), r, *final(report)),
        final(report).input_bytes == old(report).input_bytes,
        final(report).images == old(report).images,
        final(report).fonts == old(report).fonts,
        match r {
            Ok(x) => x.0@ == input@ || x.0@.len() < input@.len(),
            Err(_) => true,
        },
{
    let mut work = doc;
    let pages: usize = backend::pages(&work).len();
    if let Err(e) = pipeline::run(&mut work, config, report) {
        return Err(e);
    }
    let output = match pipeline::serialize(&mut work, input, report) {
        Ok(b) => b,
        Err(e) => {
            return Err(e);
        },
    };
    // Nothing to verify when the output is the input unchanged.
    if bytes::same(&output, input) {
        return Ok((output, None));
    }
    match check_structure(input, &output, pages, report) {
        Ok(v) => Ok((output, Some(v))),
        Err(e) => Err(e),
    }
}

/// What compressing comes to, given what loading gave.
pub open spec fn compressed_from(
    loaded: Result<Pdf, String>,
    input: Seq<u8>,
    config: Config,
    r: Result<Compressed, Rejected>,
) -> bool {
    match loaded {
        Err(e) => match r {
            Err(x) => x.reason == Refusal::Unparseable(e) && fresh(x.report, input.len() as int),
            Ok(_) => false,
        },
        Ok(doc) => match r {
            Ok(x) => x.render is None && processed_afresh(
                doc,
                input,
                config,
                Ok((x.output, x.verification)),
                x.report,
            ),
            Err(x) => processed_afresh(doc, input, config, Err(x.reason), x.report),
        },
    }
}

/// What processing a loaded document comes to, from a fresh report on.
pub open spec fn processed_afresh(
    doc: Pdf,
    input: Seq<u8>,
    config: Config,
    r: Result<(Vec<u8>, Option<Verification>), Refusal>,
    after: Report,
) -> bool {
    exists|before: Report|
        fresh(before, input.len() as int) && #[trigger] processed(
            doc,
            input,
            config,
            before,
            r,
            after,
        )
}

/// A report of nothing but the input's size.
pub open spec fn fresh(report: Report, input: int) -> bool {
    report.input_bytes == input && report.output_bytes == 0 && report.images@.len() == 0
        && report.fonts@.len() == 0 && report.stages@.len() == 0 && report.notes@.len() == 0
}

/// A report on an input of this size, with nothing said of images and fonts.
pub open spec fn accounted(report: Report, input: int) -> bool {
    report.input_bytes == input && report.images@.len() == 0 && report.fonts@.len() == 0
}

/// Compresses what was loaded of `input` under `config`.
pub fn compress_loaded(loaded: Result<Pdf, String>, input: &Vec<u8>, config: &Config) -> (r: Result<
    Compressed,
    Rejected,
>)
    requires
        loaded matches Ok(doc) ==> doc.wf(),
    ensures
        compressed_from(loaded, input@, *config, r),
        match r {
            Ok(x) => {
                &&& x.output@ == input@ || x.output@.len() < input@.len()
                &&& accounted(x.report, input@.len() as int)
                &&& x.report.output_bytes == x.output@.len()
            },
            Err(x) => accounted(x.report, input@.len() as int),
        },
{
    let mut report = Report::new(input.len());
    let ghost before = report;
    match loaded {
        Err(e) => Err(Rejected { report, reason: Refusal::Unparseable(e) }),
        Ok(doc) => match process(doc, input, config, &mut report) {
            Ok((output, verification)) => {
                assert(processed(
                    doc,
                    input@,
                    *config,
                    before,
                    Ok((output, verification)),
                    report,
                ));
                Ok(Compressed { output, report, verification, render: None })
            },
            Err(reason) => {
                assert(processed(doc, input@, *config, before, Err(reason), report));
                Err(Rejected { report, reason })
            },
        },
    }
}

/// Compresses `input` under `config`. Refuses input the pipeline cannot
/// handle safely (a password it needs, damage it cannot see past), and
/// output that verifies worse than the input. Rendered pages are judged by
/// [`Compressed::judge`].
pub fn compress(input: &Vec<u8>, config: &Config) -> (r: Result<Compressed, Rejected>)
    ensures
        exists|loaded: Result<Pdf, String>|
            backend::may_load(input@, backend::loaded_view(loaded)) && #[trigger] compressed_from(
                loaded,
                input@,
                *config,
                r,
            ),
        match r {
            Ok(x) => {
                &&& x.output@ == input@ || x.output@.len() < input@.len()
                &&& accounted(x.report, input@.len() as int)
                &&& x.report.output_bytes == x.output@.len()
            },
            Err(x) => accounted(x.report, input@.len() as int),
        },
{
    compress_loaded(load(input), input, config)
}

/// The document that a file holds, or why it does not parse.
pub fn load(input: &Vec<u8>) -> (r: Result<Pdf, String>)
    ensures
        backend::may_load(input@, backend::loaded_view(r)),
        match r {
            Ok(doc) => doc.wf(),
            Err(_) => true,
        },
{
    backend::load(input)
}

impl Compressed {
    /// Whether the pages are to be rendered and compared, against which preset
    /// and how strictly: where that was asked for, and the output is not the
    /// input unchanged.
    pub fn render_due(&self, check: Verify) -> (r: Option<(Preset, bool)>)
        ensures
            r == (match check {
                Verify::Render { preset, strict } => if self.verification is Some {
                    Some((preset, strict))
                } else {
                    None
                },
                Verify::Structure => None,
            }),
    {
        match check {
            Verify::Render { preset, strict } => if self.verification.is_some() {
                Some((preset, strict))
            } else {
                None
            },
            Verify::Structure => None,
        }
    }

    /// Accepts or rejects a compressed document by its rendered pages.
    pub fn judge(self, rendered: Result<Rendered, String>, strict: bool) -> (r: Result<
        Compressed,
        Rejected,
    >)
        ensures
            match r {
                Ok(x) => x.output == self.output && x.verification == self.verification
                    && pipeline::same_but_notes(self.report, x.report) && render_judged(
                    rendered,
                    strict,
                    self.report.said(),
                    Ok(x.render),
                    x.report.said(),
                ),
                Err(x) => pipeline::same_but_notes(self.report, x.report) && render_judged(
                    rendered,
                    strict,
                    self.report.said(),
                    Err(x.reason),
                    x.report.said(),
                ),
            },
    {
        let mut report = self.report;
        match check_render(rendered, strict, &mut report) {
            Ok(render) => Ok(
                Compressed {
                    output: self.output,
                    report,
                    verification: self.verification,
                    render,
                },
            ),
            Err(reason) => Err(Rejected { report, reason }),
        }
    }
}

// ------------------------------------------------------------- laws

/// Whether a check has no problem that a check of the input cannot have too.
pub open spec fn no_worse(v: VerificationView, input: Seq<u8>, pages: int) -> bool {
    v.problems.len() == 0 || exists|baseline: VerificationView| #[trigger]
        verify::may_find(input, pages, baseline) && verify::regressions(v, baseline).len() == 0
}

/// An output that is handed back was checked and is no worse than the input,
/// unless it is the input unchanged.
pub proof fn accepted_output_is_no_worse(
    doc: Pdf,
    input: Seq<u8>,
    config: Config,
    x: Compressed,
)
    requires
        compressed_from(Ok(doc), input, config, Ok(x)),
        x.output@ != input,
    ensures
        x.verification is Some,
        no_worse(x.verification->0@, input, backend::page_ids(doc@).len() as usize as int),
{
    let r = Ok::<(Vec<u8>, Option<Verification>), Refusal>((x.output, x.verification));
    let before = choose|before: Report|
        fresh(before, input.len() as int) && #[trigger] processed(
            doc,
            input,
            config,
            before,
            r,
            x.report,
        );
    let p = pipeline::staged(
        pipeline::started(
            doc@,
            doc.encryption is Some,
            before.said(),
            pipeline::done_view(before.stages@),
        ),
        pipeline::stage_order().len() as int,
        config,
    );
    assert(written(p, doc, input, r, x.report));
    let pages = backend::page_ids(doc@).len() as usize;
    let notes = p.notes + pipeline::serialized(p.doc, input).notes;
    let v = x.verification->0;
    assert(structure_checked(input, x.output@, pages, notes, Ok(v), x.report.said()));
    let (found, baseline) = choose|found: VerificationView, baseline: VerificationView|
        verify::may_find(x.output@, pages as int, found) && (found.problems.len() > 0
            ==> verify::may_find(input, pages as int, baseline)) && #[trigger] structure_judged(
            found,
            baseline,
            notes,
            Ok(v),
            x.report.said(),
        );
    assert(v@ == found);
}

/// A document that the pipeline cannot handle safely is rejected with the
/// reason, and nothing is reported of it but the input's size.
pub proof fn refused_documents_are_rejected(
    doc: Pdf,
    input: Seq<u8>,
    config: Config,
    r: Result<Compressed, Rejected>,
)
    requires
        compressed_from(Ok(doc), input, config, r),
        pipeline::guarded(doc@, doc.encryption) is Some,
    ensures
        r is Err,
        r->Err_0.reason == pipeline::guarded(doc@, doc.encryption)->0,
        fresh(r->Err_0.report, input.len() as int),
{
}

} // verus!
