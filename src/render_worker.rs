use crate::error::Error;
use crate::page_range::{decimal, string_views, u32_text};
use vstd::prelude::*;

verus! {

/// Which page boundary box a page is rendered with.
#[derive(Clone, Copy, Debug, PartialEq, Eq, Structural)]
pub enum BoxType {
    Crop,
    Bleed,
}

/// Which JPEG encoder backend turns pixels into bytes.
#[derive(Clone, Copy, Debug, PartialEq, Eq, Structural)]
pub enum JpegEncoderType {
    /// The built-in encoder.
    Image,
    /// An external encoder, which may be unavailable in a given build.
    Vips,
}

impl Default for JpegEncoderType {
    fn default() -> (r: Self)
        ensures
            r == JpegEncoderType::Image,
    {
        JpegEncoderType::Image
    }
}

/// What one worker invocation achieved: pages rasterized, pages whose
/// embedded JPEG was copied out, and one message per failed page, in order.
#[derive(Debug)]
pub struct WorkerResult {
    pub pages_rendered: u32,
    pub pages_extracted: u32,
    pub errors: Vec<String>,
}

/// Rendering options shared between single-process and multi-process modes.
#[derive(Clone, Copy, Debug)]
pub struct RenderOptions {
    pub target_width: u32,
    pub quality: u8,
    pub box_type: BoxType,
    pub extract_images: bool,
    pub encoder: JpegEncoderType,
}

/// How one page ended.
pub enum PageOutcome {
    /// Rasterized and encoded.
    Rendered,
    /// Its embedded JPEG was written out unchanged.
    Extracted,
    /// Fetching, rasterizing, encoding or writing failed, with the reason.
    Failed(String),
    /// Writing out its embedded JPEG failed, with the reason.
    ExtractFailed(String),
}

/// The error message recorded for a failed page.
pub open spec fn page_error_text(page_num: u32, outcome: PageOutcome) -> Seq<char> {
    match outcome {
        PageOutcome::Failed(e) => "page "@ + decimal(page_num as nat) + ": "@ + e@,
        PageOutcome::ExtractFailed(e) => "page "@ + decimal(page_num as nat) + " extract: "@ + e@,
        _ => Seq::empty(),
    }
}

impl WorkerResult {
    /// No page handled yet.
    pub fn new() -> (r: WorkerResult)
        ensures
            r.pages_rendered == 0,
            r.pages_extracted == 0,
            r.errors@.len() == 0,
    {
        WorkerResult { pages_rendered: 0, pages_extracted: 0, errors: Vec::new() }
    }

    /// Folds the outcome of page `page_num` into the counters: a rendered or
    /// extracted page counts once in its own counter, a failed one appends
    /// its message and counts nowhere.
    pub fn record(&mut self, page_num: u32, outcome: PageOutcome)
        requires
            old(self).pages_rendered < u32::MAX,
            old(self).pages_extracted < u32::MAX,
        ensures
            final(self).pages_rendered == old(self).pages_rendered + if outcome is Rendered {
                1int
            } else {
                0int
            },
            final(self).pages_extracted == old(self).pages_extracted + if outcome is Extracted {
                1int
            } else {
                0int
            },
            (outcome is Rendered || outcome is Extracted) ==> string_views(final(self).errors@)
                == string_views(old(self).errors@),
            (outcome is Failed || outcome is ExtractFailed) ==> string_views(final(self).errors@)
                == string_views(old(self).errors@).push(page_error_text(page_num, outcome)),
    {
        proof {
            reveal_strlit("page ");
            reveal_strlit(": ");
            reveal_strlit(" extract: ");
        }
        let ghost before = self.errors@;
        match outcome {
            PageOutcome::Rendered => {
                self.pages_rendered = self.pages_rendered + 1;
            },
            PageOutcome::Extracted => {
                self.pages_extracted = self.pages_extracted + 1;
            },
            PageOutcome::Failed(e) => {
                let mut msg = String::from_str("page ");
                msg.append(u32_text(page_num).as_str());
                msg.append(": ");
                msg.append(e.as_str());
                self.errors.push(msg);
                assert(string_views(self.errors@) =~= string_views(before).push(
                    page_error_text(page_num, outcome),
                ));
            },
            PageOutcome::ExtractFailed(e) => {
                let mut msg = String::from_str("page ");
                msg.append(u32_text(page_num).as_str());
                msg.append(" extract: ");
                msg.append(e.as_str());
                self.errors.push(msg);
                assert(string_views(self.errors@) =~= string_views(before).push(
                    page_error_text(page_num, outcome),
                ));
            },
        }
        assert(self.errors@ == before ==> string_views(self.errors@) == string_views(before));
    }
}

/// Whether the page's crop box is replaced by its bleed box before
/// rendering: only when the bleed box was asked for and the page has one.
pub fn overrides_crop_box(box_type: BoxType, has_bleed_box: bool) -> (r: bool)
    ensures
        r == (box_type == BoxType::Bleed && has_bleed_box),
{
    box_type == BoxType::Bleed && has_bleed_box
}

/// The name of the PDF filter that marks JPEG-compressed image data.
pub open spec fn jpeg_filter_name() -> Seq<char> {
    "DCTDecode"@
}

/// An image whose filter chain is exactly the JPEG filter.
pub fn is_jpeg_encoded(filter_names: &Vec<String>) -> (r: bool)
    ensures
        r == (filter_names@.len() == 1 && filter_names@[0]@ == jpeg_filter_name()),
{
    if filter_names.len() != 1 {
        return false;
    }
    let dct = String::from_str("DCTDecode");
    filter_names[0] == dct
}

/// Whether a page is copied out as its embedded JPEG rather than rasterized:
/// extraction is enabled and the page holds exactly one object, an image
/// whose only filter is the JPEG filter.
pub fn uses_raw_jpeg(
    extract_images: bool,
    object_count: usize,
    first_is_image: bool,
    first_filters: &Vec<String>,
) -> (r: bool)
    ensures
        r == (extract_images && object_count == 1 && first_is_image && first_filters@.len() == 1
            && first_filters@[0]@ == jpeg_filter_name()),
{
    extract_images && object_count == 1 && first_is_image && is_jpeg_encoded(first_filters)
}

/// The bytes to write for an extracted page: the embedded data exactly as
/// stored, or an error when it could not be read or is empty.
pub fn raw_jpeg_data(data: Result<Vec<u8>, String>) -> (r: Result<Vec<u8>, Error>)
    ensures
        data is Ok && data->Ok_0@.len() > 0 ==> (r is Ok && r->Ok_0@ == data->Ok_0@),
        data is Ok && data->Ok_0@.len() == 0 ==> (r is Err && r->Err_0 is Render),
        data is Err ==> (r is Err && r->Err_0 is Render),
{
    match data {
        Ok(d) => {
            if d.len() == 0 {
                Err(Error::Render(String::from_str("empty image data")))
            } else {
                Ok(d)
            }
        },
        Err(e) => {
            let mut msg = String::from_str("extract image data: ");
            msg.append(e.as_str());
            Err(Error::Render(msg))
        },
    }
}

/// `s` padded on the left with zeros to at least four characters.
pub open spec fn pad4(s: Seq<char>) -> Seq<char> {
    if s.len() >= 4 {
        s
    } else {
        Seq::new((4 - s.len()) as nat, |i: int| '0') + s
    }
}

/// The output file name of a page: its global number, zero-padded to four
/// digits, so that chunks rendered by different workers never collide.
pub open spec fn page_file_name_of(page_num: u32) -> Seq<char> {
    "page-"@ + pad4(decimal(page_num as nat)) + ".jpg"@
}

pub fn page_file_name(page_num: u32) -> (r: String)
    ensures
        r@ == page_file_name_of(page_num),
{
    proof {
        reveal_strlit("page-");
        reveal_strlit(".jpg");
        reveal_strlit("0");
    }
    let digits = u32_text(page_num);
    let mut name = String::from_str("page-");
    let n = digits.as_str().unicode_len();
    let mut pad: usize = 0;
    while n + pad < 4
        invariant
            n == digits@.len(),
            n + pad <= 4 || pad == 0,
            name@ == "page-"@ + Seq::new(pad as nat, |i: int| '0'),
        decreases 4 - n - pad,
    {
        let ghost prev = name@;
        name.append("0");
        proof {
            reveal_strlit("0");
        }
        assert(name@ =~= prev + seq!['0']);
        pad += 1;
        assert(name@ =~= "page-"@ + Seq::new(pad as nat, |i: int| '0'));
    }
    assert(Seq::new(pad as nat, |i: int| '0') + digits@ =~= pad4(digits@));
    name.append(digits.as_str());
    name.append(".jpg");
    assert(name@ =~= page_file_name_of(page_num));
    name
}

} // verus!
