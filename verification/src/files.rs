//! Receipts attached to expenses: recognising the real file type by its
//! content, making the uploaded name safe, and who may see or delete a file.
use vstd::prelude::*;
use crate::auth::{hyphenated, uuid_text};
use crate::error::{AppError, is_bad_request, is_forbidden};
use crate::text::{
    chars_of, decimal, lemma_trim, push_decimal, control, is_control, push_chars, push_str, string_from, string_of, trim_chars,
    trim_spec, trimmed, Strip,
};

verus! {

// ---------------------------------------------------------------------------
// File type by content
// ---------------------------------------------------------------------------

/// `b` holds the bytes `p` from position `at` on.
pub open spec fn bytes_at(b: Seq<u8>, at: int, p: Seq<u8>) -> bool {
    0 <= at && at + p.len() <= b.len() && b.subrange(at, at + p.len()) == p
}

pub open spec fn jpeg_magic() -> Seq<u8> {
    seq![0xFFu8, 0xD8u8, 0xFFu8]
}

pub open spec fn png_magic() -> Seq<u8> {
    seq![0x89u8, 0x50u8, 0x4Eu8, 0x47u8, 0x0Du8, 0x0Au8, 0x1Au8, 0x0Au8]
}

/// `GIF87a`
pub open spec fn gif87_magic() -> Seq<u8> {
    seq![71u8, 73u8, 70u8, 56u8, 55u8, 97u8]
}

/// `GIF89a`
pub open spec fn gif89_magic() -> Seq<u8> {
    seq![71u8, 73u8, 70u8, 56u8, 57u8, 97u8]
}

/// `%PDF-`
pub open spec fn pdf_magic() -> Seq<u8> {
    seq![37u8, 80u8, 68u8, 70u8, 45u8]
}

/// `ftyp`
pub open spec fn ftyp_tag() -> Seq<u8> {
    seq![102u8, 116u8, 121u8, 112u8]
}

/// The HEIC brands `heic`, `heix`, `hevc` and `mif1`.
pub open spec fn heic_brand(b: Seq<u8>) -> bool {
    ||| b == seq![104u8, 101u8, 105u8, 99u8]
    ||| b == seq![104u8, 101u8, 105u8, 120u8]
    ||| b == seq![104u8, 101u8, 118u8, 99u8]
    ||| b == seq![109u8, 105u8, 102u8, 49u8]
}

/// `RIFF`
pub open spec fn riff_tag() -> Seq<u8> {
    seq![82u8, 73u8, 70u8, 70u8]
}

/// `WEBP`
pub open spec fn webp_tag() -> Seq<u8> {
    seq![87u8, 69u8, 66u8, 80u8]
}

/// The real type of a file, told by its first bytes. Fewer than 12 bytes are
/// never recognised.
pub open spec fn sniffed(b: Seq<u8>) -> Option<Seq<char>> {
    if b.len() < 12 {
        None
    } else if bytes_at(b, 0, jpeg_magic()) {
        Some("image/jpeg"@)
    } else if bytes_at(b, 0, png_magic()) {
        Some("image/png"@)
    } else if bytes_at(b, 0, gif87_magic()) || bytes_at(b, 0, gif89_magic()) {
        Some("image/gif"@)
    } else if bytes_at(b, 0, pdf_magic()) {
        Some("application/pdf"@)
    } else if bytes_at(b, 4, ftyp_tag()) && heic_brand(b.subrange(8, 12)) {
        Some("image/heic"@)
    } else if bytes_at(b, 0, riff_tag()) && bytes_at(b, 8, webp_tag()) {
        Some("image/webp"@)
    } else {
        None
    }
}

/// Whether `b` holds the bytes `p` from position `at` on.
fn holds_at(b: &[u8], at: usize, p: &[u8]) -> (r: bool)
    ensures
        r == bytes_at(b@, at as int, p@),
{
    if at > b.len() || p.len() > b.len() - at {
        return false;
    }
    let mut j: usize = 0;
    while j < p.len()
        invariant
            at + p@.len() <= b@.len(),
            at + p.len() <= b.len(),
            j <= p.len(),
            forall|k: int| 0 <= k < j ==> b@[at + k] == p@[k],
        decreases p.len() - j,
    {
        if b[at + j] != p[j] {
            assert(b@.subrange(at as int, at + p@.len())[j as int] != p@[j as int]);
            return false;
        }
        j = j + 1;
    }
    assert(b@.subrange(at as int, at + p@.len()) =~= p@);
    true
}

/// Tells the real type of a file by its first bytes, whatever its name or
/// declared type say, so that nothing can be stored disguised as an image.
pub fn sniff_mime(bytes: &[u8]) -> (r: Option<&'static str>)
    ensures
        r matches Some(m) ==> sniffed(bytes@) == Some(m@),
        r is None ==> sniffed(bytes@) is None,
{
    if bytes.len() < 12 {
        return None;
    }
    let jpeg: [u8; 3] = [0xFF, 0xD8, 0xFF];
    let png: [u8; 8] = [0x89, 0x50, 0x4E, 0x47, 0x0D, 0x0A, 0x1A, 0x0A];
    let gif87: [u8; 6] = [71, 73, 70, 56, 55, 97];
    let gif89: [u8; 6] = [71, 73, 70, 56, 57, 97];
    let pdf: [u8; 5] = [37, 80, 68, 70, 45];
    let ftyp: [u8; 4] = [102, 116, 121, 112];
    let heic: [u8; 4] = [104, 101, 105, 99];
    let heix: [u8; 4] = [104, 101, 105, 120];
    let hevc: [u8; 4] = [104, 101, 118, 99];
    let mif1: [u8; 4] = [109, 105, 102, 49];
    let riff: [u8; 4] = [82, 73, 70, 70];
    let webp: [u8; 4] = [87, 69, 66, 80];
    assert(jpeg@ =~= jpeg_magic());
    assert(png@ =~= png_magic());
    assert(gif87@ =~= gif87_magic());
    assert(gif89@ =~= gif89_magic());
    assert(pdf@ =~= pdf_magic());
    assert(ftyp@ =~= ftyp_tag());
    assert(riff@ =~= riff_tag());
    assert(webp@ =~= webp_tag());
    if holds_at(bytes, 0, &jpeg) {
        return Some("image/jpeg");
    }
    if holds_at(bytes, 0, &png) {
        return Some("image/png");
    }
    if holds_at(bytes, 0, &gif87) || holds_at(bytes, 0, &gif89) {
        return Some("image/gif");
    }
    if holds_at(bytes, 0, &pdf) {
        return Some("application/pdf");
    }
    if holds_at(bytes, 4, &ftyp) {
        let is_heic = holds_at(bytes, 8, &heic) || holds_at(bytes, 8, &heix) || holds_at(
            bytes,
            8,
            &hevc,
        ) || holds_at(bytes, 8, &mif1);
        proof {
            let brand = bytes@.subrange(8, 12);
            assert(heic@ =~= seq![104u8, 101u8, 105u8, 99u8]);
            assert(heix@ =~= seq![104u8, 101u8, 105u8, 120u8]);
            assert(hevc@ =~= seq![104u8, 101u8, 118u8, 99u8]);
            assert(mif1@ =~= seq![109u8, 105u8, 102u8, 49u8]);
            assert(is_heic == heic_brand(brand));
        }
        if is_heic {
            return Some("image/heic");
        }
    }
    if holds_at(bytes, 0, &riff) && holds_at(bytes, 8, &webp) {
        return Some("image/webp");
    }
    None
}

/// An ISO-BMFF file whose `ftyp` box (bytes 4..8) names one of the HEIC
/// brands `heic`, `heix`, `hevc` or `mif1` (bytes 8..12) is a HEIC image,
/// unless it opens with the JPEG marker.
pub proof fn law_heic_is_recognised(b: Seq<u8>)
    requires
        b.len() >= 12,
        b[4] == 0x66 && b[5] == 0x74 && b[6] == 0x79 && b[7] == 0x70,
        ({
            ||| b[8] == 0x68 && b[9] == 0x65 && b[10] == 0x69 && b[11] == 0x63
            ||| b[8] == 0x68 && b[9] == 0x65 && b[10] == 0x69 && b[11] == 0x78
            ||| b[8] == 0x68 && b[9] == 0x65 && b[10] == 0x76 && b[11] == 0x63
            ||| b[8] == 0x6D && b[9] == 0x69 && b[10] == 0x66 && b[11] == 0x31
        }),
        !(b[0] == 0xFF && b[1] == 0xD8 && b[2] == 0xFF),
    ensures
        sniffed(b) == Some("image/heic"@),
{
    assert(b.subrange(0, 3)[0] == b[0] && b.subrange(0, 3)[1] == b[1] && b.subrange(0, 3)[2]
        == b[2]);
    assert(b.subrange(0, 8)[4] == b[4]);
    assert(b.subrange(0, 6)[4] == b[4]);
    assert(b.subrange(0, 5)[4] == b[4]);
    assert(b.subrange(4, 8) =~= ftyp_tag());
    let brand = b.subrange(8, 12);
    if b[10] == 0x69 && b[11] == 0x63 {
        assert(brand =~= seq![104u8, 101u8, 105u8, 99u8]);
    } else if b[11] == 0x78 {
        assert(brand =~= seq![104u8, 101u8, 105u8, 120u8]);
    } else if b[10] == 0x76 {
        assert(brand =~= seq![104u8, 101u8, 118u8, 99u8]);
    } else {
        assert(brand =~= seq![109u8, 105u8, 102u8, 49u8]);
    }
}

/// Files of at least 12 bytes are recognised by their opening bytes: `FF D8
/// FF` is a JPEG, the PNG signature a PNG, `GIF87a`/`GIF89a` a GIF, `%PDF-` a
/// PDF, and `RIFF` with `WEBP` at byte 8 a WebP image.
pub proof fn law_signatures_are_recognised(b: Seq<u8>)
    requires
        b.len() >= 12,
    ensures
        b[0] == 0xFF && b[1] == 0xD8 && b[2] == 0xFF ==> sniffed(b) == Some("image/jpeg"@),
        b[0] == 0x89 && b[1] == 0x50 && b[2] == 0x4E && b[3] == 0x47 && b[4] == 0x0D && b[5]
            == 0x0A && b[6] == 0x1A && b[7] == 0x0A ==> sniffed(b) == Some("image/png"@),
        b[0] == 0x47 && b[1] == 0x49 && b[2] == 0x46 && b[3] == 0x38 && (b[4] == 0x37 || b[4]
            == 0x39) && b[5] == 0x61 ==> sniffed(b) == Some("image/gif"@),
        b[0] == 0x25 && b[1] == 0x50 && b[2] == 0x44 && b[3] == 0x46 && b[4] == 0x2D ==> sniffed(b)
            == Some("application/pdf"@),
        b[0] == 0x52 && b[1] == 0x49 && b[2] == 0x46 && b[3] == 0x46 && b[8] == 0x57 && b[9]
            == 0x45 && b[10] == 0x42 && b[11] == 0x50 ==> sniffed(b) == Some("image/webp"@),
{
    assert(b[0] == 0xFF && b[1] == 0xD8 && b[2] == 0xFF ==> b.subrange(0, 3) =~= jpeg_magic());
    assert(b.subrange(0, 3)[0] == b[0]);
    assert(b.subrange(0, 8)[0] == b[0]);
    assert(b.subrange(0, 6)[0] == b[0]);
    assert(b.subrange(0, 5)[0] == b[0]);
    assert(b.subrange(4, 8)[0] == b[4]);
    assert(b.subrange(8, 12)[0] == b[8]);
    if b[0] == 0x89 && b[1] == 0x50 && b[2] == 0x4E && b[3] == 0x47 && b[4] == 0x0D && b[5] == 0x0A
        && b[6] == 0x1A && b[7] == 0x0A {
        assert(b.subrange(0, 8) =~= png_magic());
    }
    if b[0] == 0x47 && b[1] == 0x49 && b[2] == 0x46 && b[3] == 0x38 && b[4] == 0x37 && b[5]
        == 0x61 {
        assert(b.subrange(0, 6) =~= gif87_magic());
    }
    if b[0] == 0x47 && b[1] == 0x49 && b[2] == 0x46 && b[3] == 0x38 && b[4] == 0x39 && b[5]
        == 0x61 {
        assert(b.subrange(0, 6) =~= gif89_magic());
    }
    if b[0] == 0x25 && b[1] == 0x50 && b[2] == 0x44 && b[3] == 0x46 && b[4] == 0x2D {
        assert(b.subrange(0, 5) =~= pdf_magic());
    }
    if b[0] == 0x52 && b[1] == 0x49 && b[2] == 0x46 && b[3] == 0x46 && b[8] == 0x57 && b[9] == 0x45
        && b[10] == 0x42 && b[11] == 0x50 {
        assert(b.subrange(0, 4) =~= riff_tag());
        assert(b.subrange(8, 12) =~= webp_tag());
        assert(!heic_brand(b.subrange(8, 12)));
    }
}

/// A file is only ever recognised by one of the known signatures; anything
/// shorter than 12 bytes, or opening otherwise, is refused.
pub proof fn law_only_signatures_are_recognised(b: Seq<u8>)
    requires
        sniffed(b) is Some,
    ensures
        b.len() >= 12,
        ({
            ||| b[0] == 0xFF && b[1] == 0xD8 && b[2] == 0xFF
            ||| b[0] == 0x89 && b[1] == 0x50 && b[2] == 0x4E && b[3] == 0x47 && b[4] == 0x0D && b[5]
                == 0x0A && b[6] == 0x1A && b[7] == 0x0A
            ||| b[0] == 0x47 && b[1] == 0x49 && b[2] == 0x46 && b[3] == 0x38 && (b[4] == 0x37
                || b[4] == 0x39) && b[5] == 0x61
            ||| b[0] == 0x25 && b[1] == 0x50 && b[2] == 0x44 && b[3] == 0x46 && b[4] == 0x2D
            ||| b[4] == 0x66 && b[5] == 0x74 && b[6] == 0x79 && b[7] == 0x70 && ({
                ||| b[8] == 0x68 && b[9] == 0x65 && b[10] == 0x69 && b[11] == 0x63
                ||| b[8] == 0x68 && b[9] == 0x65 && b[10] == 0x69 && b[11] == 0x78
                ||| b[8] == 0x68 && b[9] == 0x65 && b[10] == 0x76 && b[11] == 0x63
                ||| b[8] == 0x6D && b[9] == 0x69 && b[10] == 0x66 && b[11] == 0x31
            })
            ||| b[0] == 0x52 && b[1] == 0x49 && b[2] == 0x46 && b[3] == 0x46 && b[8] == 0x57 && b[9]
                == 0x45 && b[10] == 0x42 && b[11] == 0x50
        }),
{
    if bytes_at(b, 0, jpeg_magic()) {
        assert(b.subrange(0, 3)[0] == b[0] && b.subrange(0, 3)[1] == b[1] && b.subrange(0, 3)[2]
            == b[2]);
    } else if bytes_at(b, 0, png_magic()) {
        let s = b.subrange(0, 8);
        assert(s[0] == b[0] && s[1] == b[1] && s[2] == b[2] && s[3] == b[3] && s[4] == b[4] && s[5]
            == b[5] && s[6] == b[6] && s[7] == b[7]);
    } else if bytes_at(b, 0, gif87_magic()) || bytes_at(b, 0, gif89_magic()) {
        let s = b.subrange(0, 6);
        assert(s[0] == b[0] && s[1] == b[1] && s[2] == b[2] && s[3] == b[3] && s[4] == b[4] && s[5]
            == b[5]);
    } else if bytes_at(b, 0, pdf_magic()) {
        let s = b.subrange(0, 5);
        assert(s[0] == b[0] && s[1] == b[1] && s[2] == b[2] && s[3] == b[3] && s[4] == b[4]);
    } else if bytes_at(b, 4, ftyp_tag()) && heic_brand(b.subrange(8, 12)) {
        let s = b.subrange(4, 8);
        let t = b.subrange(8, 12);
        assert(s[0] == b[4] && s[1] == b[5] && s[2] == b[6] && s[3] == b[7]);
        assert(t[0] == b[8] && t[1] == b[9] && t[2] == b[10] && t[3] == b[11]);
    } else {
        let s = b.subrange(0, 4);
        let t = b.subrange(8, 12);
        assert(s[0] == b[0] && s[1] == b[1] && s[2] == b[2] && s[3] == b[3]);
        assert(t[0] == b[8] && t[1] == b[9] && t[2] == b[10] && t[3] == b[11]);
    }
}


/// The canonical extension of an accepted type; `bin` for any other.
pub open spec fn extension_of(mime: Seq<char>) -> Seq<char> {
    if mime == "image/jpeg"@ {
        "jpg"@
    } else if mime == "image/png"@ {
        "png"@
    } else if mime == "image/webp"@ {
        "webp"@
    } else if mime == "image/gif"@ {
        "gif"@
    } else if mime == "image/heic"@ {
        "heic"@
    } else if mime == "application/pdf"@ {
        "pdf"@
    } else {
        "bin"@
    }
}

/// The canonical extension under which a file of type `mime` is stored.
pub fn extension_for(mime: &str) -> (r: &'static str)
    ensures
        r@ == extension_of(mime@),
{
    if crate::text::same_text(mime, "image/jpeg") {
        "jpg"
    } else if crate::text::same_text(mime, "image/png") {
        "png"
    } else if crate::text::same_text(mime, "image/webp") {
        "webp"
    } else if crate::text::same_text(mime, "image/gif") {
        "gif"
    } else if crate::text::same_text(mime, "image/heic") {
        "heic"
    } else if crate::text::same_text(mime, "application/pdf") {
        "pdf"
    } else {
        "bin"
    }
}

// ---------------------------------------------------------------------------
// File names
// ---------------------------------------------------------------------------

/// Path separators, quotes, line breaks and control characters become `_`.
pub open spec fn safe_char(c: char) -> char {
    if c == '/' || c == '\\' || c == '\0' || c == '"' || c == '\r' || c == '\n' || is_control(c) {
        '_'
    } else {
        c
    }
}

/// Longest file name kept, in characters.
pub const MAX_FILE_NAME_CHARS: usize = 120;

/// The name a receipt is kept under: unsafe characters replaced, surrounding
/// whitespace and dots removed, at most 120 characters; `comprobante` when
/// nothing is left.
pub open spec fn sanitized(raw: Seq<char>) -> Seq<char> {
    let t = trim_spec(trimmed(raw.map_values(|c: char| safe_char(c))), Strip::Char('.'));
    if t.len() == 0 {
        "comprobante"@
    } else if t.len() <= MAX_FILE_NAME_CHARS {
        t
    } else {
        t.take(MAX_FILE_NAME_CHARS as int)
    }
}

/// What may appear in a kept file name: no path separator, quote or
/// control character.
pub open spec fn safe_name_char(c: char) -> bool {
    c != '/' && c != '\\' && c != '"' && !is_control(c)
}

/// A kept file name cannot leave the upload folder nor break a header: it is
/// never empty, has at most 120 characters, holds no path separator, quote or
/// control character, and does not start with a dot (so it is never `.` or
/// `..`).
#[verifier::spinoff_prover]
pub proof fn law_sanitized_names_are_safe(raw: Seq<char>)
    ensures
        0 < sanitized(raw).len() <= MAX_FILE_NAME_CHARS,
        forall|i: int| 0 <= i < sanitized(raw).len() ==> safe_name_char(#[trigger] sanitized(raw)[i]),
        sanitized(raw)[0] != '.',
{
    let m = raw.map_values(|c: char| safe_char(c));
    let w = trimmed(m);
    let t = trim_spec(w, Strip::Char('.'));
    lemma_trim(m, Strip::Whitespace);
    lemma_trim(w, Strip::Char('.'));
    let (a1, b1) = choose|a: int, b: int| 0 <= a <= b <= m.len() && w == m.subrange(a, b);
    let (a2, b2) = choose|a: int, b: int| 0 <= a <= b <= w.len() && t == w.subrange(a, b);
    assert forall|i: int| 0 <= i < t.len() implies safe_name_char(#[trigger] t[i]) by {
        assert(t[i] == w[a2 + i]);
        assert(w[a2 + i] == m[a1 + a2 + i]);
        assert(m[a1 + a2 + i] == safe_char(raw[a1 + a2 + i]));
    }
    if t.len() == 0 {
        reveal_strlit("comprobante");
        assert forall|i: int| 0 <= i < sanitized(raw).len() implies safe_name_char(#[trigger] sanitized(raw)[i]) by {}
    } else if t.len() > MAX_FILE_NAME_CHARS {
        assert forall|i: int| 0 <= i < sanitized(raw).len() implies safe_name_char(#[trigger] sanitized(raw)[i]) by {
            assert(sanitized(raw)[i] == t[i]);
        }
    }
}

fn safe_char_exec(c: char) -> (r: char)
    ensures
        r == safe_char(c),
{
    if c == '/' || c == '\\' || c == '\0' || c == '"' || c == '\r' || c == '\n' || control(c) {
        '_'
    } else {
        c
    }
}

/// Makes an uploaded file name safe to store and to send back in a header.
pub fn sanitize_file_name(raw: &str) -> (r: String)
    ensures
        r@ == sanitized(raw@),
{
    let cs = chars_of(raw);
    let mut cleaned: Vec<char> = Vec::new();
    let mut i: usize = 0;
    while i < cs.len()
        invariant
            i <= cs.len(),
            cleaned@ == cs@.take(i as int).map_values(|c: char| safe_char(c)),
        decreases cs.len() - i,
    {
        cleaned.push(safe_char_exec(cs[i]));
        i = i + 1;
        assert(cleaned@ =~= cs@.take(i as int).map_values(|c: char| safe_char(c)));
    }
    assert(cs@.take(cs.len() as int) =~= cs@);
    let spaced = trim_chars(&cleaned, Strip::Whitespace);
    let t = trim_chars(&spaced, Strip::Char('.'));
    if t.len() == 0 {
        return string_from("comprobante");
    }
    if t.len() <= MAX_FILE_NAME_CHARS {
        return string_of(&t);
    }
    let mut kept: Vec<char> = Vec::new();
    let mut k: usize = 0;
    while k < MAX_FILE_NAME_CHARS
        invariant
            k <= MAX_FILE_NAME_CHARS < t.len(),
            kept@ == t@.take(k as int),
        decreases MAX_FILE_NAME_CHARS - k,
    {
        kept.push(t[k]);
        k = k + 1;
        assert(kept@ =~= t@.take(k as int));
    }
    string_of(&kept)
}

/// The name kept for an upload: the sanitized name it came with, or
/// `comprobante` when it came without one.
pub fn upload_file_name(raw: Option<&str>) -> (r: String)
    ensures
        r@ == match raw {
            Some(n) => sanitized(n@),
            None => "comprobante"@,
        },
{
    match raw {
        Some(n) => sanitize_file_name(n),
        None => string_from("comprobante"),
    }
}

/// The `Content-Disposition` value a receipt is served with: shown inline,
/// under its name without quotes or line breaks.
pub open spec fn disposition_of(name: Seq<char>) -> Seq<char> {
    "inline; filename=\""@ + name.filter(|c: char| c != '"' && c != '\r' && c != '\n') + "\""@
}

pub fn content_disposition(file_name: &str) -> (r: String)
    ensures
        r@ == disposition_of(file_name@),
{
    let cs = chars_of(file_name);
    let mut kept: Vec<char> = Vec::new();
    let mut i: usize = 0;
    while i < cs.len()
        invariant
            i <= cs.len(),
            kept@ == cs@.take(i as int).filter(|c: char| c != '"' && c != '\r' && c != '\n'),
        decreases cs.len() - i,
    {
        let c = cs[i];
        proof {
            reveal_with_fuel(Seq::filter, 1);
            assert(cs@.take(i + 1).drop_last() =~= cs@.take(i as int));
        }
        if c != '"' && c != '\r' && c != '\n' {
            kept.push(c);
        }
        i = i + 1;
    }
    assert(cs@.take(cs.len() as int) =~= cs@);
    let mut r = string_from("inline; filename=\"");
    push_chars(&mut r, &kept);
    push_str(&mut r, "\"");
    r
}

/// The public address from which a receipt is downloaded.
pub open spec fn attachment_url_of(id: u128) -> Seq<char> {
    "/api/attachments/"@ + hyphenated(id) + "/file"@
}

pub fn attachment_url(id: u128) -> (r: String)
    ensures
        r@ == attachment_url_of(id),
{
    let mut r = string_from("/api/attachments/");
    let t = uuid_text(id);
    push_str(&mut r, t.as_str());
    push_str(&mut r, "/file");
    r
}

/// The name a stored receipt gets on disk: its id and its extension.
pub open spec fn stored_name_of(id: u128, extension: Seq<char>) -> Seq<char> {
    hyphenated(id) + "."@ + extension
}

pub fn stored_name(id: u128, extension: &str) -> (r: String)
    ensures
        r@ == stored_name_of(id, extension@),
{
    let mut r = uuid_text(id);
    push_str(&mut r, ".");
    push_str(&mut r, extension);
    r
}

// ---------------------------------------------------------------------------
// Accepting an upload
// ---------------------------------------------------------------------------

pub open spec fn too_large_text(max_upload_bytes: nat) -> Seq<char> {
    "el archivo supera el máximo de "@ + decimal(max_upload_bytes / (1024 * 1024)) + " MB"@
}

pub open spec fn unsupported_text(declared: Seq<char>) -> Seq<char> {
    "formato no soportado"@ + (if declared.len() == 0 {
        Seq::empty()
    } else {
        " ("@ + declared + ")"@
    }) + ". Se aceptan JPG, PNG, WebP, GIF, HEIC y PDF"@
}

/// Decides whether an uploaded file is kept, from its bytes, the type the
/// client declared for it and the size limit. A kept file gets the type told
/// by its content and that type's extension.
pub fn accept_upload(bytes: &[u8], declared: &str, max_upload_bytes: usize) -> (r: Result<
    (&'static str, &'static str),
    AppError,
>)
    ensures
        bytes@.len() == 0 ==> is_bad_request(r, "el archivo está vacío"@),
        0 < bytes@.len() && bytes@.len() > max_upload_bytes ==> (r matches Err(
            AppError::PayloadTooLarge(m),
        ) && m@ == too_large_text(max_upload_bytes as nat)),
        0 < bytes@.len() <= max_upload_bytes ==> match sniffed(bytes@) {
            Some(mime) => (r matches Ok((m, e)) && m@ == mime && e@ == extension_of(mime)),
            None => is_bad_request(r, unsupported_text(declared@)),
        },
{
    if bytes.len() == 0 {
        return Err(AppError::BadRequest(string_from("el archivo está vacío")));
    }
    if bytes.len() > max_upload_bytes {
        let mut m = string_from("el archivo supera el máximo de ");
        push_decimal(&mut m, (max_upload_bytes / (1024 * 1024)) as u64);
        push_str(&mut m, " MB");
        return Err(AppError::PayloadTooLarge(m));
    }
    match sniff_mime(bytes) {
        Some(mime) => Ok((mime, extension_for(mime))),
        None => {
            let mut m = string_from("formato no soportado");
            let declared_chars = chars_of(declared);
            if declared_chars.len() > 0 {
                push_str(&mut m, " (");
                push_str(&mut m, declared);
                push_str(&mut m, ")");
            }
            push_str(&mut m, ". Se aceptan JPG, PNG, WebP, GIF, HEIC y PDF");
            proof {
                assert(m@ =~= unsupported_text(declared@));
            }
            Err(AppError::BadRequest(m))
        },
    }
}

// ---------------------------------------------------------------------------
// Who may see and delete a receipt
// ---------------------------------------------------------------------------

/// Whether a user may see a receipt. Whoever uploaded it may; anyone else
/// only through the expense it is attached to: `Ok(Some(expense))` asks the
/// caller to check access to that expense. A receipt attached to nothing is
/// refused to everyone else.
pub fn attachment_access(uploaded_by: u128, expense_id: Option<u128>, user_id: u128) -> (r: Result<
    Option<u128>,
    AppError,
>)
    ensures
        uploaded_by == user_id ==> r == Ok::<Option<u128>, AppError>(None),
        uploaded_by != user_id ==> match expense_id {
            Some(e) => r == Ok::<Option<u128>, AppError>(Some(e)),
            None => is_forbidden(r, "no tenés acceso a este archivo"@),
        },
{
    if uploaded_by == user_id {
        return Ok(None);
    }
    match expense_id {
        Some(e) => Ok(Some(e)),
        None => Err(AppError::Forbidden(string_from("no tenés acceso a este archivo"))),
    }
}

/// Only whoever uploaded a receipt may delete it.
pub fn may_delete_attachment(uploaded_by: u128, user_id: u128) -> (r: Result<(), AppError>)
    ensures
        uploaded_by == user_id ==> r is Ok,
        uploaded_by != user_id ==> is_forbidden(r, "sólo quien subió el archivo puede borrarlo"@),
{
    if uploaded_by != user_id {
        return Err(AppError::Forbidden(string_from("sólo quien subió el archivo puede borrarlo")));
    }
    Ok(())
}

} // verus!
