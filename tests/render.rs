use pdf_render::error::Error;
use pdf_render::render::{
    build_render_plan, check_errors, collect_worker_results, worker_arguments,
    worker_page_ranges, WorkerReport,
};
use pdf_render::render_worker::{
    is_jpeg_encoded, overrides_crop_box, page_file_name, raw_jpeg_data, uses_raw_jpeg, BoxType,
    JpegEncoderType, PageOutcome, RenderOptions, WorkerResult,
};

fn ok_report(rendered: u32, extracted: u32, errors: Vec<&str>) -> WorkerReport {
    WorkerReport {
        exit_ok: true,
        exit_status: "exit status: 0".to_string(),
        stderr: String::new(),
        output: Some(WorkerResult {
            pages_rendered: rendered,
            pages_extracted: extracted,
            errors: errors.into_iter().map(String::from).collect(),
        }),
    }
}

#[test]
fn one_corrupted_page_among_ten() {
    let mut result = WorkerResult::new();
    for page in 1..=10u32 {
        let outcome = if page == 4 {
            PageOutcome::Failed("render failed: bad stream".to_string())
        } else {
            PageOutcome::Rendered
        };
        result.record(page, outcome);
    }
    assert_eq!(result.pages_rendered, 9);
    assert_eq!(result.pages_extracted, 0);
    assert_eq!(result.errors, vec!["page 4: render failed: bad stream".to_string()]);
    let overall = check_errors(&result.errors);
    match overall {
        Err(Error::Render(msg)) => assert_eq!(msg, "1 errors during rendering"),
        _ => panic!("expected a rendering failure"),
    }
    assert_eq!(Error::Render(String::new()).exit_code(), 4);
}

#[test]
fn crashed_worker_keeps_other_totals() {
    let crashed = WorkerReport {
        exit_ok: false,
        exit_status: "signal: 9".to_string(),
        stderr: "killed".to_string(),
        output: None,
    };
    let reports = vec![ok_report(3, 1, vec![]), crashed, ok_report(4, 0, vec!["page 9: x"])];
    let total = collect_worker_results(&reports);
    assert_eq!(total.pages_rendered, 7);
    assert_eq!(total.pages_extracted, 1);
    assert_eq!(
        total.errors,
        vec!["worker 1: exit signal: 9: killed".to_string(), "page 9: x".to_string()]
    );
}

#[test]
fn collect_keeps_spawn_order_of_errors() {
    let reports = vec![
        ok_report(1, 0, vec!["page 2: a"]),
        ok_report(0, 0, vec!["page 5: b", "page 6 extract: c"]),
    ];
    let total = collect_worker_results(&reports);
    assert_eq!(total.pages_rendered, 1);
    assert_eq!(total.errors, vec!["page 2: a", "page 5: b", "page 6 extract: c"]);
    assert!(check_errors(&Vec::new()).is_ok());
}

#[test]
fn single_jpeg_image_page_is_extracted() {
    let dct = vec!["DCTDecode".to_string()];
    assert!(uses_raw_jpeg(true, 1, true, &dct));
    assert!(!uses_raw_jpeg(false, 1, true, &dct));
    assert!(!uses_raw_jpeg(true, 2, true, &dct));
    assert!(!uses_raw_jpeg(true, 1, false, &dct));
    assert!(!uses_raw_jpeg(true, 1, true, &vec!["FlateDecode".to_string()]));
    assert!(!is_jpeg_encoded(&vec!["DCTDecode".to_string(), "FlateDecode".to_string()]));
    assert!(!is_jpeg_encoded(&Vec::new()));

    let bytes = vec![0xFFu8, 0xD8, 0xFF, 0xE0, 1, 2, 3, 0xFF, 0xD9];
    let out = raw_jpeg_data(Ok(bytes.clone())).unwrap();
    assert_eq!(out, bytes);

    let mut result = WorkerResult::new();
    result.record(3, PageOutcome::Extracted);
    assert_eq!(result.pages_extracted, 1);
    assert_eq!(result.pages_rendered, 0);
    assert!(result.errors.is_empty());
}

#[test]
fn raw_jpeg_failures() {
    match raw_jpeg_data(Ok(Vec::new())) {
        Err(Error::Render(m)) => assert_eq!(m, "empty image data"),
        _ => panic!("expected a rendering failure"),
    }
    match raw_jpeg_data(Err("no stream".to_string())) {
        Err(Error::Render(m)) => assert_eq!(m, "extract image data: no stream"),
        _ => panic!("expected a rendering failure"),
    }
    let mut result = WorkerResult::new();
    result.record(12, PageOutcome::ExtractFailed("disk full".to_string()));
    assert_eq!(result.errors, vec!["page 12 extract: disk full".to_string()]);
}

#[test]
fn file_names_use_global_page_number() {
    assert_eq!(page_file_name(7), "page-0007.jpg");
    assert_eq!(page_file_name(123), "page-0123.jpg");
    assert_eq!(page_file_name(12345), "page-12345.jpg");
}

#[test]
fn bleed_box_override() {
    assert!(overrides_crop_box(BoxType::Bleed, true));
    assert!(!overrides_crop_box(BoxType::Bleed, false));
    assert!(!overrides_crop_box(BoxType::Crop, true));
}

#[test]
fn plan_for_whole_document_and_ranges() {
    let plan = build_render_plan(5, None, 8).unwrap();
    assert_eq!(plan.page_list, vec![1, 2, 3, 4, 5]);
    assert_eq!(plan.effective_workers, 5);
    let plan = build_render_plan(10, Some("2-4,9"), 2).unwrap();
    assert_eq!(plan.page_list, vec![2, 3, 4, 9]);
    assert_eq!(plan.effective_workers, 2);
    assert!(matches!(build_render_plan(0, None, 2), Err(Error::PdfInvalid(_))));
    assert!(matches!(build_render_plan(10, Some("11"), 2), Err(Error::InvalidArgs(_))));
    assert_eq!(Error::InvalidArgs(String::new()).exit_code(), 1);
    assert_eq!(Error::PdfInvalid(String::new()).exit_code(), 2);
}

#[test]
fn worker_ranges_follow_chunks() {
    let pages = vec![1, 2, 3, 7, 8, 20, 21, 22];
    let ranges = worker_page_ranges(&pages, 3);
    assert_eq!(ranges, vec!["1-3", "7-8,20", "21-22"]);
    assert_eq!(worker_page_ranges(&pages, 1), vec!["1-3,7-8,20-22"]);
}

#[test]
fn worker_arguments_carry_every_option() {
    let opts = RenderOptions {
        target_width: 2560,
        quality: 90,
        box_type: BoxType::Bleed,
        extract_images: true,
        encoder: JpegEncoderType::Image,
    };
    let args = worker_arguments("1-3,7", &opts);
    assert_eq!(
        args,
        vec![
            "--pages", "1-3,7", "--target-width", "2560", "--quality", "90", "--box", "bleed",
            "--encoder", "image", "--extract-images"
        ]
    );
    assert_eq!(JpegEncoderType::default(), JpegEncoderType::Image);
}
