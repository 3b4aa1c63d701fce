//! Images referenced by documentation pages, inlined as data URLs.
use vstd::prelude::*;
use base64::Engine;
use pulldown_cmark::{CowStr, Event, Options, Parser, Tag};
use crate::info_index::{utf8_lossy, utf8_valid};
use crate::core_docs::xml::pair_views;
use crate::text::{ascii_lowercase, is_ascii_text, strs, chars_of, ends_with, has_prefix, has_suffix, lowercase, push_str, starts_with, string_of, to_lowercase};

verus! {

/// The media type of a lowercased file name, by its extension.
pub open spec fn mime_of(lower: Seq<char>) -> Seq<char> {
    if has_suffix(lower, ".png"@) {
        "image/png"@
    } else if has_suffix(lower, ".jpg"@) || has_suffix(lower, ".jpeg"@) {
        "image/jpeg"@
    } else if has_suffix(lower, ".gif"@) {
        "image/gif"@
    } else if has_suffix(lower, ".svg"@) {
        "image/svg+xml"@
    } else if has_suffix(lower, ".webp"@) {
        "image/webp"@
    } else {
        "application/octet-stream"@
    }
}

proof fn lemma_suffix_char(l: Seq<char>, p: Seq<char>, k: int)
    requires
        has_suffix(l, p),
        0 <= k < p.len(),
    ensures
        l[l.len() - p.len() + k] == p[k],
{
    assert(l.subrange(l.len() - p.len(), l.len() as int)[k] == p[k]);
}

/// The media type by extension, for any lowercased file name: `.png` is
/// PNG, `.jpg` and `.jpeg` are JPEG, `.gif` GIF, `.svg` SVG and `.webp`
/// WebP; a name with none of these endings is an octet stream.
pub proof fn lemma_mime_by_extension(l: Seq<char>)
    ensures
        has_suffix(l, ".png"@) ==> mime_of(l) == "image/png"@,
        has_suffix(l, ".jpg"@) ==> mime_of(l) == "image/jpeg"@,
        has_suffix(l, ".jpeg"@) ==> mime_of(l) == "image/jpeg"@,
        has_suffix(l, ".gif"@) ==> mime_of(l) == "image/gif"@,
        has_suffix(l, ".svg"@) ==> mime_of(l) == "image/svg+xml"@,
        has_suffix(l, ".webp"@) ==> mime_of(l) == "image/webp"@,
        !has_suffix(l, ".png"@) && !has_suffix(l, ".jpg"@) && !has_suffix(l, ".jpeg"@) && !has_suffix(
            l,
            ".gif"@,
        ) && !has_suffix(l, ".svg"@) && !has_suffix(l, ".webp"@) ==> mime_of(l)
            == "application/octet-stream"@,
{
    reveal_strlit(".png");
    reveal_strlit(".jpg");
    reveal_strlit(".jpeg");
    reveal_strlit(".gif");
    reveal_strlit(".svg");
    reveal_strlit(".webp");
    // The characters at the end tell the endings apart.
    if has_suffix(l, ".png"@) {
        lemma_suffix_char(l, ".png"@, 0);
        lemma_suffix_char(l, ".png"@, 1);
        lemma_suffix_char(l, ".png"@, 2);
        lemma_suffix_char(l, ".png"@, 3);
    }
    if has_suffix(l, ".jpg"@) {
        lemma_suffix_char(l, ".jpg"@, 0);
        lemma_suffix_char(l, ".jpg"@, 1);
        lemma_suffix_char(l, ".jpg"@, 2);
        lemma_suffix_char(l, ".jpg"@, 3);
    }
    if has_suffix(l, ".jpeg"@) {
        lemma_suffix_char(l, ".jpeg"@, 0);
        lemma_suffix_char(l, ".jpeg"@, 1);
        lemma_suffix_char(l, ".jpeg"@, 2);
        lemma_suffix_char(l, ".jpeg"@, 3);
        lemma_suffix_char(l, ".jpeg"@, 4);
    }
    if has_suffix(l, ".gif"@) {
        lemma_suffix_char(l, ".gif"@, 0);
        lemma_suffix_char(l, ".gif"@, 1);
        lemma_suffix_char(l, ".gif"@, 2);
        lemma_suffix_char(l, ".gif"@, 3);
    }
    if has_suffix(l, ".svg"@) {
        lemma_suffix_char(l, ".svg"@, 0);
        lemma_suffix_char(l, ".svg"@, 1);
        lemma_suffix_char(l, ".svg"@, 2);
        lemma_suffix_char(l, ".svg"@, 3);
    }
    if has_suffix(l, ".webp"@) {
        lemma_suffix_char(l, ".webp"@, 0);
        lemma_suffix_char(l, ".webp"@, 1);
        lemma_suffix_char(l, ".webp"@, 2);
        lemma_suffix_char(l, ".webp"@, 3);
        lemma_suffix_char(l, ".webp"@, 4);
    }
}

/// The media type of an image file, by its extension in any case.
pub fn mime_from_extension(path: &str) -> (r: &'static str)
    ensures
        r@ == mime_of(lowercase(path@)),
        is_ascii_text(path@) ==> r@ == mime_of(ascii_lowercase(path@)),
{
    let lower = to_lowercase(path);
    let l = chars_of(lower.as_str());
    if ends_with(l.as_slice(), chars_of(".png").as_slice()) {
        "image/png"
    } else if ends_with(l.as_slice(), chars_of(".jpg").as_slice()) || ends_with(
        l.as_slice(),
        chars_of(".jpeg").as_slice(),
    ) {
        "image/jpeg"
    } else if ends_with(l.as_slice(), chars_of(".gif").as_slice()) {
        "image/gif"
    } else if ends_with(l.as_slice(), chars_of(".svg").as_slice()) {
        "image/svg+xml"
    } else if ends_with(l.as_slice(), chars_of(".webp").as_slice()) {
        "image/webp"
    } else {
        "application/octet-stream"
    }
}

/// A URL that is left as it is: an `http://`, `https://` or `data:` URL.
pub open spec fn kept_url(url: Seq<char>) -> bool {
    has_prefix(url, "http://"@) || has_prefix(url, "https://"@) || has_prefix(url, "data:"@)
}

/// Whether an image URL is left as it is rather than inlined.
pub fn is_kept_url(url: &str) -> (r: bool)
    ensures
        r == kept_url(url@),
{
    let u = chars_of(url);
    starts_with(u.as_slice(), chars_of("http://").as_slice()) || starts_with(
        u.as_slice(),
        chars_of("https://").as_slice(),
    ) || starts_with(u.as_slice(), chars_of("data:").as_slice())
}

/// The digit of the standard Base64 alphabet for a 6-bit value:
/// `A`-`Z`, `a`-`z`, `0`-`9`, `+`, `/`.
pub open spec fn base64_digit(v: int) -> char {
    if v < 26 {
        (65 + v) as char
    } else if v < 52 {
        (97 + v - 26) as char
    } else if v < 62 {
        (48 + v - 52) as char
    } else if v == 62 {
        '+'
    } else {
        '/'
    }
}

/// The standard Base64 encoding of `b` (RFC 4648, section 4): each group of
/// three bytes becomes four digits, and a final group of one or two bytes is
/// padded with zero bits and completed with `=`.
pub open spec fn base64_standard(b: Seq<u8>) -> Seq<char>
    decreases b.len(),
{
    if b.len() == 0 {
        Seq::empty()
    } else if b.len() == 1 {
        let n = b[0] as int;
        seq![base64_digit(n / 4), base64_digit((n % 4) * 16), '=', '=']
    } else if b.len() == 2 {
        let n = b[0] as int * 256 + b[1] as int;
        seq![base64_digit(n / 1024), base64_digit((n / 16) % 64), base64_digit((n % 16) * 4), '=']
    } else {
        let n = b[0] as int * 65536 + b[1] as int * 256 + b[2] as int;
        seq![
            base64_digit(n / 262144),
            base64_digit((n / 4096) % 64),
            base64_digit((n / 64) % 64),
            base64_digit(n % 64),
        ] + base64_standard(b.subrange(3, b.len() as int))
    }
}

/// `base64::engine::general_purpose::STANDARD.encode`: the standard alphabet
/// with `=` padding, as `base64_standard` states it.
#[verifier::external_body]
fn base64_encode(data: &[u8]) -> (r: String)
    ensures
        r@ == base64_standard(data@),
{
    base64::engine::general_purpose::STANDARD.encode(data)
}

/// `String::from_utf8`: the text of well-formed UTF-8 bytes, which is what
/// `String::from_utf8_lossy` decodes from them, or `None`.
#[verifier::external_body]
fn utf8_string(data: &[u8]) -> (r: Option<String>)
    ensures
        r is Some <==> utf8_valid(data@),
        r matches Some(s) ==> s@ == utf8_lossy(data@),
{
    String::from_utf8(data.to_vec()).ok()
}

/// The data URL of an image read from `url`: SVG as UTF-8 text (the URL
/// itself when the file is not UTF-8), other images in Base64.
pub open spec fn data_url(url: Seq<char>, data: Seq<u8>) -> Seq<char> {
    let mime = mime_of(lowercase(url));
    if mime == "image/svg+xml"@ {
        if utf8_valid(data) {
            "data:"@ + mime + ";utf8,"@ + utf8_lossy(data)
        } else {
            url
        }
    } else {
        "data:"@ + mime + ";base64,"@ + base64_standard(data)
    }
}

/// The data URL for an image file's bytes `data`, read from `url`.
pub fn image_data_url(url: &str, data: &[u8]) -> (r: String)
    ensures
        r@ == data_url(url@, data@),
{
    let mime = mime_from_extension(url);
    let is_svg = crate::text::eq_chars(chars_of(mime).as_slice(), chars_of("image/svg+xml").as_slice());
    if is_svg {
        match utf8_string(data) {
            Some(svg) => {
                let mut out = chars_of("data:");
                push_str(&mut out, mime);
                push_str(&mut out, ";utf8,");
                push_str(&mut out, svg.as_str());
                string_of(out.as_slice())
            },
            None => url.to_owned(),
        }
    } else {
        let encoded = base64_encode(data);
        let mut out = chars_of("data:");
        push_str(&mut out, mime);
        push_str(&mut out, ";base64,");
        push_str(&mut out, encoded.as_str());
        string_of(out.as_slice())
    }
}

// ---------------------------------------------------------------------------
// Rendering markdown
// ---------------------------------------------------------------------------

/// The URL an image gets: the replacement that the first pair for `url` in
/// `images` names, else `url` itself.
pub open spec fn image_for(url: Seq<char>, images: Seq<(Seq<char>, Seq<char>)>) -> Seq<char>
    decreases images.len(),
{
    if images.len() == 0 {
        url
    } else if images[0].0 == url {
        images[0].1
    } else {
        image_for(url, images.drop_first())
    }
}

/// Which image URLs are left as they are: exactly those that start with
/// `http://`, `https://` or `data:`; any other is inlined.
pub proof fn lemma_kept_urls(rest: Seq<char>, url: Seq<char>)
    ensures
        kept_url("http://"@ + rest),
        kept_url("https://"@ + rest),
        kept_url("data:"@ + rest),
        !has_prefix(url, "http://"@) && !has_prefix(url, "https://"@) && !has_prefix(url, "data:"@) ==> !kept_url(url),
{
    assert(("http://"@ + rest).subrange(0, "http://"@.len() as int) =~= "http://"@);
    assert(("https://"@ + rest).subrange(0, "https://"@.len() as int) =~= "https://"@);
    assert(("data:"@ + rest).subrange(0, "data:"@.len() as int) =~= "data:"@);
}

/// The replacement an image gets: the one of the first pair whose URL is
/// the image's, and the image's own URL when no pair names it.
pub proof fn lemma_image_for(url: Seq<char>, images: Seq<(Seq<char>, Seq<char>)>, k: int)
    requires
        0 <= k < images.len(),
        images[k].0 == url,
        forall|e: int| 0 <= e < k ==> (#[trigger] images[e]).0 != url,
    ensures
        image_for(url, images) == images[k].1,
    decreases k,
{
    if k > 0 {
        let t = images.drop_first();
        assert forall|e: int| 0 <= e < k - 1 implies (#[trigger] t[e]).0 != url by {
            assert(t[e] == images[e + 1]);
        }
        assert(images[0].0 != url);
        lemma_image_for(url, t, k - 1);
    }
}

/// An image whose URL no pair names keeps its URL.
pub proof fn lemma_image_for_unnamed(url: Seq<char>, images: Seq<(Seq<char>, Seq<char>)>)
    requires
        forall|e: int| 0 <= e < images.len() ==> (#[trigger] images[e]).0 != url,
    ensures
        image_for(url, images) == url,
    decreases images.len(),
{
    if images.len() > 0 {
        let t = images.drop_first();
        assert forall|e: int| 0 <= e < t.len() implies (#[trigger] t[e]).0 != url by {
            assert(t[e] == images[e + 1]);
        }
        assert(images[0].0 != url);
        lemma_image_for_unnamed(url, t);
    }
}

/// The URL an image gets, by the `(url, replacement)` pairs of `images`.
pub fn replacement_url(url: &str, images: &Vec<(String, String)>) -> (r: String)
    ensures
        r@ == image_for(url@, pair_views(images@)),
{
    let ghost pv = pair_views(images@);
    let u = chars_of(url);
    let mut i: usize = 0;
    assert(pv.skip(0) =~= pv);
    while i < images.len()
        invariant
            i <= images.len(),
            pv == pair_views(images@),
            u@ == url@,
            image_for(url@, pv) == image_for(url@, pv.skip(i as int)),
        decreases images.len() - i,
    {
        assert(pv.skip(i as int)[0] == pv[i as int]);
        if crate::text::eq_chars(chars_of(images[i].0.as_str()).as_slice(), u.as_slice()) {
            return string_of(chars_of(images[i].1.as_str()).as_slice());
        }
        assert(pv.skip(i as int).drop_first() =~= pv.skip(i + 1));
        i += 1;
    }
    string_of(u.as_slice())
}

/// The HTML that `pulldown_cmark` renders from a markdown text with tables
/// and strikethrough enabled, each image's URL replaced as `replacement_url`
/// gives it for `images`.
pub uninterp spec fn markdown_html(md: Seq<char>, images: Seq<(Seq<char>, Seq<char>)>) -> Seq<char>;

/// `pulldown_cmark::Parser::new_ext` (tables, strikethrough) and
/// `pulldown_cmark::html::push_html`, with the destination of each image
/// start event passed through `replacement_url`. The HTML is a function of
/// the text and the pairs; the renderer's rules are not restated here.
#[verifier::external_body]
fn html_of(md: &str, images: &Vec<(String, String)>) -> (r: String)
    ensures
        r@ == markdown_html(md@, pair_views(images@)),
{
    let options = Options::ENABLE_TABLES | Options::ENABLE_STRIKETHROUGH;
    let events = Parser::new_ext(md, options).map(|e| match e {
        Event::Start(Tag::Image { link_type, dest_url, title, id }) => Event::Start(Tag::Image {
            link_type, dest_url: CowStr::from(replacement_url(&dest_url, images)), title, id }),
        other => other,
    });
    let mut html = String::new();
    pulldown_cmark::html::push_html(&mut html, events);
    html
}

/// For each event `pulldown_cmark` reads from a markdown text (tables and
/// strikethrough enabled): the destination of an image start, else nothing.
pub uninterp spec fn markdown_image_events(md: Seq<char>) -> Seq<Option<Seq<char>>>;

/// `pulldown_cmark::Parser::new_ext` (tables, strikethrough), each event
/// taken to the destination URL of an image start or to `None`.
#[verifier::external_body]
fn image_events(md: &str) -> (r: Vec<Option<String>>)
    ensures
        opt_strs(r@) == markdown_image_events(md@),
{
    let options = Options::ENABLE_TABLES | Options::ENABLE_STRIKETHROUGH;
    Parser::new_ext(md, options).map(|e| match e {
        Event::Start(Tag::Image { dest_url, .. }) => Some(dest_url.to_string()),
        _ => None,
    }).collect()
}

pub open spec fn opt_strs(v: Seq<Option<String>>) -> Seq<Option<Seq<char>>> {
    Seq::new(v.len(), |i: int| crate::index::opt_view(v[i]))
}

/// The values of the `Some`s, in order.
pub open spec fn somes(v: Seq<Option<Seq<char>>>) -> Seq<Seq<char>>
    decreases v.len(),
{
    if v.len() == 0 {
        Seq::empty()
    } else {
        let r = somes(v.drop_last());
        match v.last() {
            Some(x) => r.push(x),
            None => r,
        }
    }
}

/// The image URLs of a markdown text, in order.
pub fn image_urls(md: &str) -> (r: Vec<String>)
    ensures
        strs(r@) == somes(markdown_image_events(md@)),
{
    let ev = image_events(md);
    let ghost ov = opt_strs(ev@);
    let mut r: Vec<String> = Vec::new();
    let mut i: usize = 0;
    assert(ov.take(0) =~= Seq::<Option<Seq<char>>>::empty());
    assert(strs(r@) =~= Seq::<Seq<char>>::empty());
    while i < ev.len()
        invariant
            i <= ev.len(),
            ov == opt_strs(ev@),
            strs(r@) == somes(ov.take(i as int)),
        decreases ev.len() - i,
    {
        assert(ov.take(i + 1).drop_last() =~= ov.take(i as int));
        assert(ov.take(i + 1).last() == ov[i as int]);
        match &ev[i] {
            Some(u) => {
                let s = string_of(chars_of(u.as_str()).as_slice());
                let ghost before = r@;
                r.push(s);
                assert(strs(r@) =~= strs(before).push(s@));
            },
            None => {},
        }
        i += 1;
    }
    assert(ov.take(ev.len() as int) =~= ov);
    r
}

/// The HTML of a markdown text (tables and strikethrough enabled), each
/// image's URL replaced by its pair in `images`.
pub fn render_html(md: &str, images: &Vec<(String, String)>) -> (r: String)
    ensures
        r@ == markdown_html(md@, pair_views(images@)),
{
    html_of(md, images)
}

} // verus!
