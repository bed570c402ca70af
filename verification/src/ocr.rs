//! Recognising formulas in a cropped image: which model runs it, what it is
//! asked, how the image travels to a cloud model, and what comes back.
use vstd::prelude::*;
use crate::latex::{code_block_text, extract_code_block};
use crate::text::{append_chars, append_str, chars_of, string_of, trim, trim_chars};

verus! {

/// Where recognition runs.
#[derive(Clone, Copy, PartialEq, Eq, Structural, Debug)]
pub enum OcrBackend {
    /// A model run on this machine by a command-line tool.
    Local,
    /// A model behind a chat-completions web service.
    Cloud,
}

/// The provider name `"local"` selects the local model; any other a cloud one.
pub fn ocr_backend(provider: &str) -> (b: OcrBackend)
    ensures
        b == if provider@ == "local"@ { OcrBackend::Local } else { OcrBackend::Cloud },
{
    let p = chars_of(provider);
    let local = chars_of("local");
    let mut same = p.len() == local.len();
    let mut i: usize = 0;
    while same && i < p.len()
        invariant
            p@ == provider@,
            local@ == "local"@,
            i <= p@.len(),
            same ==> p@.len() == local@.len(),
            same ==> forall|j: int| 0 <= j < i ==> p@[j] == local@[j],
            !same ==> p@ != local@,
        decreases p.len() - i,
    {
        if p[i] != local[i] {
            same = false;
        }
        i += 1;
    }
    if same {
        assert(p@ =~= local@);
        OcrBackend::Local
    } else {
        OcrBackend::Cloud
    }
}

/// What the model is asked.
pub open spec fn ocr_prompt_text(b: OcrBackend) -> Seq<char> {
    match b {
        OcrBackend::Local => "OCR:"@,
        OcrBackend::Cloud => "Please recognize the text and formulas in this image and output them in standard LaTeX format. Do not solve it"@,
    }
}

/// What the model is asked; see `ocr_prompt_text`.
pub fn ocr_prompt(b: OcrBackend) -> (p: String)
    ensures
        p@ == ocr_prompt_text(b),
{
    match b {
        OcrBackend::Local => string_of(&chars_of("OCR:")),
        OcrBackend::Cloud => string_of(
            &chars_of(
                "Please recognize the text and formulas in this image and output them in standard LaTeX format. Do not solve it",
            ),
        ),
    }
}

/// The file names of a local model and of its vision projector.
pub fn ocr_model_files(model_id: &str) -> (r: (String, String))
    ensures
        r.0@ == model_id@ + ".gguf"@,
        r.1@ == "mmproj-"@ + model_id@ + ".gguf"@,
{
    let mut model = chars_of(model_id);
    append_str(&mut model, ".gguf");
    let mut proj = chars_of("mmproj-");
    append_str(&mut proj, model_id);
    append_str(&mut proj, ".gguf");
    (string_of(&model), string_of(&proj))
}

/// The `Authorization` header value for an API token, ignoring surrounding
/// whitespace of the token.
pub fn bearer_header(token: &str) -> (h: String)
    ensures
        h@ == "Bearer "@ + trim(token@),
{
    let mut out = chars_of("Bearer ");
    let t = trim_chars(&chars_of(token));
    append_chars(&mut out, &t);
    string_of(&out)
}

// ---------------------------------------------------------------------------
// Sending the image
// ---------------------------------------------------------------------------

/// The base64 digit of a value below 64 (standard alphabet).
pub open spec fn base64_digit(v: int) -> char {
    if v < 26 {
        (65 + v) as char
    } else if v < 52 {
        (97 + v - 26) as char
    } else if v < 62 {
        (48 + v - 52) as char
    } else if v == 62 {
        '+'
    } else {
        '/'
    }
}

/// The standard base64 text of `b` (RFC 4648, alphabet `A-Z a-z 0-9 + /`,
/// padded with `=`): each group of three bytes becomes four digits of six
/// bits each; a final group of one or two bytes becomes two or three digits
/// and `=` up to four.
pub open spec fn base64_standard(b: Seq<u8>) -> Seq<char>
    decreases b.len(),
{
    if b.len() == 0 {
        Seq::empty()
    } else if b.len() == 1 {
        seq![base64_digit(b[0] as int / 4), base64_digit((b[0] % 4) * 16), '=', '=']
    } else if b.len() == 2 {
        seq![
            base64_digit(b[0] as int / 4),
            base64_digit((b[0] % 4) * 16 + b[1] / 16),
            base64_digit((b[1] % 16) * 4),
            '=',
        ]
    } else {
        seq![
            base64_digit(b[0] as int / 4),
            base64_digit((b[0] % 4) * 16 + b[1] / 16),
            base64_digit((b[1] % 16) * 4 + b[2] / 64),
            base64_digit(b[2] as int % 64),
        ] + base64_standard(b.skip(3))
    }
}

/// Encodes `bytes` as standard, padded base64 with the `base64` crate's
/// `general_purpose::STANDARD` engine. The contract claims the RFC 4648
/// text `base64_standard`; the crate panics only when the encoded length
/// overflows `usize`, which `requires` rules out.
#[verifier::external_body]
fn base64_encode(bytes: &[u8]) -> (s: String)
    requires
        bytes@.len() / 3 * 4 + 4 <= usize::MAX,
    ensures
        s@ == base64_standard(bytes@),
{
    base64::Engine::encode(&base64::engine::general_purpose::STANDARD, bytes)
}

/// The PNG file that the `image` crate writes for a `width` by `height`
/// RGBA image with the given pixel bytes.
pub uninterp spec fn png_encoding(width: u32, height: u32, rgba: Seq<u8>) -> Seq<u8>;

/// Encodes an RGBA image as PNG with the `image` crate
/// (`RgbaImage::from_raw`, then `write_to` with `ImageFormat::Png` into a
/// `Cursor<Vec<u8>>`). The contract claims that a result is the crate's
/// encoding of these arguments, and that there is one exactly when the
/// image has pixels and the buffer holds four bytes for each: `from_raw`
/// refuses a shorter buffer, the `png` encoder refuses a zero width or
/// height, and writing into a vector does not fail otherwise. Like every
/// `Vec<u8>`, the result holds at most `isize::MAX` bytes.
#[verifier::external_body]
fn encode_png(width: u32, height: u32, rgba: Vec<u8>) -> (r: Option<Vec<u8>>)
    ensures
        r matches Some(png) ==> png@ == png_encoding(width, height, rgba@),
        r matches Some(png) ==> png@.len() <= isize::MAX,
        r is Some <==> (width > 0 && height > 0 && rgba@.len() >= width * height * 4),
{
    let img = image::RgbaImage::from_raw(width, height, rgba)?;
    let mut out = std::io::Cursor::new(Vec::new());
    img.write_to(&mut out, image::ImageFormat::Png).ok()?;
    Some(out.into_inner())
}

/// The `data:` URL that carries PNG bytes in a chat request.
pub open spec fn png_data_url(png: Seq<u8>) -> Seq<char> {
    "data:image/png;base64,"@ + base64_standard(png)
}

/// The `data:` URL that carries the PNG bytes `png` in a chat request.
pub fn png_data_url_text(png: &[u8]) -> (url: String)
    requires
        png@.len() / 3 * 4 + 4 <= usize::MAX,
    ensures
        url@ == png_data_url(png@),
{
    let mut url = chars_of("data:image/png;base64,");
    let digits = base64_encode(png);
    append_str(&mut url, digits.as_str());
    string_of(&url)
}

/// The `data:` URL of an RGBA image encoded as PNG, as a chat request
/// carries it to a cloud model; there is one exactly when the image has
/// pixels and `rgba` holds four bytes for each.
pub fn ocr_image_data_url(width: u32, height: u32, rgba: Vec<u8>) -> (r: Option<String>)
    ensures
        r matches Some(url) ==> url@ == png_data_url(png_encoding(width, height, rgba@)),
        r is Some <==> (width > 0 && height > 0 && rgba@.len() >= width * height * 4),
{
    match encode_png(width, height, rgba) {
        Some(png) => {
            assert(png@.len() / 3 * 4 + 4 <= usize::MAX);
            Some(png_data_url_text(png.as_slice()))
        },
        None => None,
    }
}

// ---------------------------------------------------------------------------
// Reading the reply
// ---------------------------------------------------------------------------

/// What the app reads from a chat-completions reply: whether the status was
/// a success, the text at `choices[0].message.content`, the text at
/// `error.message`, and `error` itself when it is a text.
pub struct CloudReply {
    pub success: bool,
    pub content: Option<String>,
    pub error_message: Option<String>,
    pub error_text: Option<String>,
}

/// The message for a successful reply without content.
pub open spec fn unparsable_reply_message() -> Seq<char> {
    "Failed to parse content from response"@
}

/// The outcome of a reply: for a successful one with content, the LaTeX in
/// it (see `code_block_text`); for a successful one without, an error; for
/// a failed one, the error's message, else its text, else a generic error.
pub open spec fn reply_outcome(r: CloudReply) -> Result<Seq<char>, Seq<char>> {
    if r.success {
        match r.content {
            Some(c) => Ok(code_block_text(c@)),
            None => Err(unparsable_reply_message()),
        }
    } else {
        match r.error_message {
            Some(m) => Err(m@),
            None => match r.error_text {
                Some(t) => Err(t@),
                None => Err("Unknown API Error"@),
            },
        }
    }
}

/// The LaTeX a reply carries, or the error to report; see `reply_outcome`.
pub fn interpret_cloud_reply(r: &CloudReply) -> (out: Result<String, String>)
    ensures
        match out {
            Ok(t) => reply_outcome(*r) == Ok::<Seq<char>, Seq<char>>(t@),
            Err(e) => reply_outcome(*r) == Err::<Seq<char>, Seq<char>>(e@),
        },
{
    if r.success {
        match &r.content {
            Some(c) => Ok(extract_code_block(c.as_str())),
            None => Err(string_of(&chars_of("Failed to parse content from response"))),
        }
    } else {
        match &r.error_message {
            Some(m) => Err(m.clone()),
            None => match &r.error_text {
                Some(t) => Err(t.clone()),
                None => Err(string_of(&chars_of("Unknown API Error"))),
            },
        }
    }
}

} // verus!
