use crate::error::Error;
use crate::page_range::{
    chunk_count,
    chunk_size,
    chunk_start,
    compressed,
    decimal,
    divide_pages,
    format_page_list,
    page_selected,
    parse_page_range,
    range_valid,
    string_views,
    strictly_increasing,
    u32_text,
    usize_text,
};
use crate::render_worker::{BoxType, JpegEncoderType, RenderOptions, WorkerResult};
use vstd::prelude::*;

verus! {

/// The pages to render and how many workers share them.
#[derive(Debug)]
pub struct RenderPlan {
    pub page_list: Vec<u32>,
    pub effective_workers: u32,
}

/// Every page of a document of `total` pages, in order.
pub open spec fn all_pages(total: u32) -> Seq<u32> {
    Seq::new(total as nat, |i: int| (i + 1) as u32)
}

pub open spec fn min_workers(requested: u32, pages: nat) -> int {
    if requested < pages {
        requested as int
    } else {
        pages as int
    }
}

/// Resolves the pages to render in a document of `total_pages` pages (all
/// of them when no range is given) and caps the worker count at the number
/// of pages.
pub fn build_render_plan(total_pages: u32, pages: Option<&str>, num_workers: u32) -> (r: Result<
    RenderPlan,
    Error,
>)
    ensures
        total_pages == 0 ==> (r is Err && r->Err_0 is PdfInvalid),
        total_pages > 0 && pages is None ==> (r is Ok && r->Ok_0.page_list@ == all_pages(
            total_pages,
        )),
        total_pages > 0 && pages is Some ==> (r is Ok <==> range_valid(pages->0@, total_pages)),
        total_pages > 0 && pages is Some && r is Err ==> r->Err_0 is InvalidArgs,
        total_pages > 0 && pages is Some && r is Ok ==> {
            let v = r->Ok_0.page_list@;
            &&& strictly_increasing(v)
            &&& forall|i: int| 0 <= i < v.len() ==> 1 <= #[trigger] v[i] <= total_pages
            &&& forall|p: u32| v.contains(p) <==> page_selected(pages->0@, p as int)
        },
        r is Ok ==> r->Ok_0.effective_workers == min_workers(
            num_workers,
            r->Ok_0.page_list@.len(),
        ),
{
    if total_pages == 0 {
        return Err(Error::PdfInvalid(String::from_str("PDF has no pages")));
    }
    let page_list = match pages {
        Some(range_str) => parse_page_range(range_str, total_pages)?,
        None => {
            let mut all: Vec<u32> = Vec::new();
            let mut p: u32 = 0;
            while p < total_pages
                invariant
                    p <= total_pages,
                    all@ == all_pages(p),
                decreases total_pages - p,
            {
                all.push(p + 1);
                p += 1;
                assert(all@ =~= all_pages(p));
            }
            all
        },
    };
    let effective_workers = if (num_workers as usize) < page_list.len() {
        num_workers
    } else {
        page_list.len() as u32
    };
    Ok(RenderPlan { page_list, effective_workers })
}

/// The pages of chunk `i` when `list` is shared among `workers` workers.
pub open spec fn chunk_pages(list: Seq<u32>, workers: u32, i: int) -> Seq<u32> {
    let total = list.len() as u32;
    list.subrange(
        chunk_start(total, workers, i) - 1,
        chunk_start(total, workers, i) + chunk_size(total, workers, i) - 1,
    )
}

/// The range expression handed to each worker: the pages of its chunk of
/// `page_list`, in range syntax, one per chunk in chunk order.
pub fn worker_page_ranges(page_list: &Vec<u32>, workers: u32) -> (r: Vec<String>)
    requires
        page_list@.len() <= u32::MAX,
    ensures
        r@.len() == chunk_count(page_list@.len() as u32, workers),
        forall|i: int|
            0 <= i < r@.len() ==> (#[trigger] r@[i])@ == compressed(
                chunk_pages(page_list@, workers, i),
            ),
{
    let total = page_list.len() as u32;
    let ranges = divide_pages(total, workers);
    let mut out: Vec<String> = Vec::new();
    let mut i: usize = 0;
    while i < ranges.len()
        invariant
            total == page_list@.len(),
            ranges@.len() == chunk_count(total, workers),
            forall|k: int|
                0 <= k < ranges@.len() ==> (#[trigger] ranges@[k]).0 == chunk_start(
                    total,
                    workers,
                    k,
                ) && ranges@[k].1 == chunk_start(total, workers, k) + chunk_size(
                    total,
                    workers,
                    k,
                ) - 1,
            forall|k: int| 0 <= k < ranges@.len() ==> 1 <= (#[trigger] ranges@[k]).0 <= ranges@[k].1 <= total,
            i <= ranges@.len(),
            out@.len() == i,
            forall|k: int|
                0 <= k < i ==> (#[trigger] out@[k])@ == compressed(chunk_pages(page_list@, workers, k)),
        decreases ranges.len() - i,
    {
        let (start, end) = ranges[i];
        let mut chunk: Vec<u32> = Vec::new();
        let mut j: u32 = start - 1;
        while j < end
            invariant
                1 <= start <= end <= total == page_list@.len(),
                start - 1 <= j <= end,
                chunk@ == page_list@.subrange(start - 1, j as int),
            decreases end - j,
        {
            chunk.push(page_list[j as usize]);
            j += 1;
            assert(chunk@ =~= page_list@.subrange(start - 1, j as int));
        }
        let text = format_page_list(chunk.as_slice());
        out.push(text);
        i += 1;
        assert forall|k: int| 0 <= k < i implies (#[trigger] out@[k])@ == compressed(
            chunk_pages(page_list@, workers, k),
        ) by {}
    }
    out
}

/// What the orchestrator learned from one worker process: whether it exited
/// successfully, its exit status and error stream as text, and its result
/// if its output could be read as one.
pub struct WorkerReport {
    pub exit_ok: bool,
    pub exit_status: String,
    pub stderr: String,
    pub output: Option<WorkerResult>,
}

/// The orchestrator-level error for worker `i` exiting unsuccessfully.
pub open spec fn exit_error_text(i: int, r: WorkerReport) -> Seq<char> {
    "worker "@ + decimal(i as nat) + ": exit "@ + r.exit_status@ + ": "@ + r.stderr@
}

/// The errors worker `i` contributes: its exit error, if any, then the
/// per-page errors of its result, if one was read.
pub open spec fn report_errors(i: int, r: WorkerReport) -> Seq<Seq<char>> {
    (if r.exit_ok {
        Seq::empty()
    } else {
        seq![exit_error_text(i, r)]
    }) + match r.output {
        Some(w) => string_views(w.errors@),
        None => Seq::empty(),
    }
}

/// All errors of the workers, in spawn order.
pub open spec fn all_errors(reports: Seq<WorkerReport>) -> Seq<Seq<char>>
    decreases reports.len(),
{
    if reports.len() == 0 {
        Seq::empty()
    } else {
        all_errors(reports.drop_last()) + report_errors(reports.len() - 1, reports.last())
    }
}

pub open spec fn report_rendered(r: WorkerReport) -> int {
    match r.output {
        Some(w) => w.pages_rendered as int,
        None => 0,
    }
}

pub open spec fn report_extracted(r: WorkerReport) -> int {
    match r.output {
        Some(w) => w.pages_extracted as int,
        None => 0,
    }
}

/// Pages rendered by all workers whose result was read.
pub open spec fn rendered_total(reports: Seq<WorkerReport>) -> int
    decreases reports.len(),
{
    if reports.len() == 0 {
        0
    } else {
        rendered_total(reports.drop_last()) + report_rendered(reports.last())
    }
}

/// Pages extracted by all workers whose result was read.
pub open spec fn extracted_total(reports: Seq<WorkerReport>) -> int
    decreases reports.len(),
{
    if reports.len() == 0 {
        0
    } else {
        extracted_total(reports.drop_last()) + report_extracted(reports.last())
    }
}

proof fn lemma_totals_prefix(reports: Seq<WorkerReport>, i: int)
    requires
        0 <= i <= reports.len(),
    ensures
        0 <= rendered_total(reports.take(i)) <= rendered_total(reports),
        0 <= extracted_total(reports.take(i)) <= extracted_total(reports),
    decreases reports.len() - i,
{
    if i < reports.len() {
        assert(reports.take(i + 1).drop_last() =~= reports.take(i));
        lemma_totals_prefix(reports, i + 1);
        lemma_totals_nonneg(reports.take(i));
        assert(rendered_total(reports.take(i + 1)) == rendered_total(reports.take(i))
            + report_rendered(reports[i]));
        assert(extracted_total(reports.take(i + 1)) == extracted_total(reports.take(i))
            + report_extracted(reports[i]));
    } else {
        assert(reports.take(i) =~= reports);
        lemma_totals_nonneg(reports);
    }
}

proof fn lemma_totals_nonneg(reports: Seq<WorkerReport>)
    ensures
        rendered_total(reports) >= 0,
        extracted_total(reports) >= 0,
    decreases reports.len(),
{
    if reports.len() > 0 {
        lemma_totals_nonneg(reports.drop_last());
    }
}

/// Folds the workers' reports, in spawn order, into one result: the sum of
/// the counts of every result that was read, and every error in order,
/// each unsuccessful exit contributing one error that names its worker.
pub fn collect_worker_results(reports: &Vec<WorkerReport>) -> (r: WorkerResult)
    requires
        rendered_total(reports@) <= u32::MAX,
        extracted_total(reports@) <= u32::MAX,
    ensures
        r.pages_rendered == rendered_total(reports@),
        r.pages_extracted == extracted_total(reports@),
        string_views(r.errors@) == all_errors(reports@),
{
    let mut total = WorkerResult::new();
    let mut i: usize = 0;
    while i < reports.len()
        invariant
            i <= reports@.len(),
            rendered_total(reports@) <= u32::MAX,
            extracted_total(reports@) <= u32::MAX,
            total.pages_rendered == rendered_total(reports@.take(i as int)),
            total.pages_extracted == extracted_total(reports@.take(i as int)),
            string_views(total.errors@) == all_errors(reports@.take(i as int)),
        decreases reports.len() - i,
    {
        proof {
            reveal_strlit("worker ");
            reveal_strlit(": exit ");
            reveal_strlit(": ");
            lemma_totals_prefix(reports@, i as int + 1);
            assert(reports@.take(i as int + 1).drop_last() =~= reports@.take(i as int));
        }
        let report = &reports[i];
        let ghost before = string_views(total.errors@);
        if !report.exit_ok {
            let mut msg = String::from_str("worker ");
            msg.append(usize_text(i).as_str());
            msg.append(": exit ");
            msg.append(report.exit_status.as_str());
            msg.append(": ");
            msg.append(report.stderr.as_str());
            total.errors.push(msg);
            assert(string_views(total.errors@) =~= before.push(exit_error_text(i as int, *report)));
        }
        let ghost mid = string_views(total.errors@);
        assert(mid == before + (if report.exit_ok {
            Seq::empty()
        } else {
            seq![exit_error_text(i as int, *report)]
        })) by {
            if report.exit_ok {
                assert(mid =~= before + Seq::<Seq<char>>::empty());
            } else {
                assert(mid =~= before + seq![exit_error_text(i as int, *report)]);
            }
        }
        match &report.output {
            Some(w) => {
                assert(report_rendered(reports@[i as int]) == w.pages_rendered);
                assert(report_extracted(reports@[i as int]) == w.pages_extracted);
                assert(rendered_total(reports@.take(i as int + 1)) == rendered_total(
                    reports@.take(i as int),
                ) + w.pages_rendered);
                assert(extracted_total(reports@.take(i as int + 1)) == extracted_total(
                    reports@.take(i as int),
                ) + w.pages_extracted);
                total.pages_rendered = total.pages_rendered + w.pages_rendered;
                total.pages_extracted = total.pages_extracted + w.pages_extracted;
                let mut k: usize = 0;
                while k < w.errors.len()
                    invariant
                        k <= w.errors@.len(),
                        total.pages_rendered == rendered_total(reports@.take(i as int + 1)),
                        total.pages_extracted == extracted_total(reports@.take(i as int + 1)),
                        string_views(total.errors@) == mid + string_views(w.errors@.take(k as int)),
                    decreases w.errors.len() - k,
                {
                    let ghost prev = string_views(total.errors@);
                    total.errors.push(w.errors[k].clone());
                    k += 1;
                    assert(string_views(total.errors@) =~= mid + string_views(
                        w.errors@.take(k as int),
                    )) by {
                        assert(string_views(total.errors@) =~= prev.push(w.errors@[k - 1]@));
                        assert(string_views(w.errors@.take(k as int)) =~= string_views(
                            w.errors@.take(k - 1),
                        ).push(w.errors@[k - 1]@));
                    }
                }
                assert(w.errors@.take(k as int) =~= w.errors@);
            },
            None => {
                assert(mid =~= mid + Seq::<Seq<char>>::empty());
            },
        }
        assert(rendered_total(reports@.take(i as int + 1)) == rendered_total(reports@.take(i as int))
            + report_rendered(reports@[i as int]));
        assert(extracted_total(reports@.take(i as int + 1)) == extracted_total(
            reports@.take(i as int),
        ) + report_extracted(reports@[i as int]));
        i += 1;
        assert(string_views(total.errors@) =~= all_errors(reports@.take(i as int)));
    }
    assert(reports@.take(i as int) =~= reports@);
    total
}

proof fn lemma_totals_concat(a: Seq<WorkerReport>, b: Seq<WorkerReport>)
    ensures
        rendered_total(a + b) == rendered_total(a) + rendered_total(b),
        extracted_total(a + b) == extracted_total(a) + extracted_total(b),
    decreases b.len(),
{
    if b.len() == 0 {
        assert(a + b =~= a);
    } else {
        lemma_totals_concat(a, b.drop_last());
        assert((a + b).drop_last() =~= a + b.drop_last());
    }
}

proof fn lemma_errors_kept(reports: Seq<WorkerReport>, n: int, e: Seq<char>)
    requires
        0 <= n <= reports.len(),
        all_errors(reports.take(n)).contains(e),
    ensures
        all_errors(reports).contains(e),
    decreases reports.len() - n,
{
    if n == reports.len() {
        assert(reports.take(n) =~= reports);
    } else {
        let before = all_errors(reports.take(n));
        assert(reports.take(n + 1).drop_last() =~= reports.take(n));
        let after = all_errors(reports.take(n + 1));
        let j = choose|j: int| 0 <= j < before.len() && before[j] == e;
        assert(after[j] == e);
        lemma_errors_kept(reports, n + 1, e);
    }
}

/// A worker that exits unsuccessfully without a readable result changes
/// neither total of the others, and contributes exactly one error, which
/// names its index and is among the collected errors.
pub proof fn lemma_crashed_worker(reports: Seq<WorkerReport>, k: int)
    requires
        0 <= k < reports.len(),
        !reports[k].exit_ok,
        reports[k].output is None,
    ensures
        rendered_total(reports) == rendered_total(reports.remove(k)),
        extracted_total(reports) == extracted_total(reports.remove(k)),
        report_errors(k, reports[k]) == seq![exit_error_text(k, reports[k])],
        all_errors(reports).contains(exit_error_text(k, reports[k])),
{
    let x = reports[k];
    let head = reports.take(k);
    let tail = reports.skip(k + 1);
    assert(reports =~= head + seq![x] + tail);
    assert(reports.remove(k) =~= head + tail);
    lemma_totals_concat(head + seq![x], tail);
    lemma_totals_concat(head, seq![x]);
    lemma_totals_concat(head, tail);
    assert(seq![x].drop_last() =~= Seq::<WorkerReport>::empty());
    assert(rendered_total(Seq::<WorkerReport>::empty()) == 0);
    assert(extracted_total(Seq::<WorkerReport>::empty()) == 0);
    assert(rendered_total(seq![x]) == 0);
    assert(extracted_total(seq![x]) == 0);
    assert(report_errors(k, x) =~= seq![exit_error_text(k, x)]);
    assert(reports.take(k + 1).drop_last() =~= head);
    let errs = all_errors(reports.take(k + 1));
    assert(errs == all_errors(head) + report_errors(k, x));
    assert(errs[errs.len() - 1] == exit_error_text(k, x));
    lemma_errors_kept(reports, k + 1, exit_error_text(k, x));
}

/// The outcome of a whole run: success when no error was collected, otherwise
/// one rendering failure that counts them.
pub fn check_errors(errors: &Vec<String>) -> (r: Result<(), Error>)
    ensures
        r is Ok <==> errors@.len() == 0,
        r is Err ==> r->Err_0 is Render,
        r matches Err(Error::Render(m)) ==> m@ == decimal(errors@.len() as nat)
            + " errors during rendering"@,
{
    if errors.len() == 0 {
        return Ok(());
    }
    let mut msg = usize_text(errors.len());
    msg.append(" errors during rendering");
    Err(Error::Render(msg))
}

pub open spec fn box_name(b: BoxType) -> Seq<char> {
    match b {
        BoxType::Crop => "crop"@,
        BoxType::Bleed => "bleed"@,
    }
}

pub open spec fn encoder_name(e: JpegEncoderType) -> Seq<char> {
    match e {
        JpegEncoderType::Image => "image"@,
        JpegEncoderType::Vips => "vips"@,
    }
}

/// The option arguments a worker process is started with: its page range
/// and every rendering option.
pub open spec fn worker_argument_texts(pages: Seq<char>, opts: RenderOptions) -> Seq<Seq<char>> {
    seq![
        "--pages"@,
        pages,
        "--target-width"@,
        decimal(opts.target_width as nat),
        "--quality"@,
        decimal(opts.quality as nat),
        "--box"@,
        box_name(opts.box_type),
        "--encoder"@,
        encoder_name(opts.encoder),
    ] + if opts.extract_images {
        seq!["--extract-images"@]
    } else {
        Seq::empty()
    }
}

pub fn worker_arguments(pages: &str, opts: &RenderOptions) -> (r: Vec<String>)
    ensures
        string_views(r@) == worker_argument_texts(pages@, *opts),
{
    let mut args: Vec<String> = Vec::new();
    args.push(String::from_str("--pages"));
    args.push(String::from_str(pages));
    args.push(String::from_str("--target-width"));
    args.push(u32_text(opts.target_width));
    args.push(String::from_str("--quality"));
    args.push(u32_text(opts.quality as u32));
    args.push(String::from_str("--box"));
    args.push(
        match opts.box_type {
            BoxType::Crop => String::from_str("crop"),
            BoxType::Bleed => String::from_str("bleed"),
        },
    );
    args.push(String::from_str("--encoder"));
    args.push(
        match opts.encoder {
            JpegEncoderType::Image => String::from_str("image"),
            JpegEncoderType::Vips => String::from_str("vips"),
        },
    );
    if opts.extract_images {
        args.push(String::from_str("--extract-images"));
    }
    assert(string_views(args@) =~= worker_argument_texts(pages@, *opts));
    args
}

} // verus!
