use tarascapay::error::AppError;
use tarascapay::files::{
    accept_upload, attachment_access, attachment_url, content_disposition, extension_for,
    may_delete_attachment, sanitize_file_name, sniff_mime, stored_name, upload_file_name,
};

#[test]
fn sniffs_known_formats() {
    let mut png = vec![0x89, 0x50, 0x4E, 0x47, 0x0D, 0x0A, 0x1A, 0x0A];
    png.extend_from_slice(&[0u8; 8]);
    assert_eq!(sniff_mime(&png), Some("image/png"));

    let mut jpg = vec![0xFF, 0xD8, 0xFF, 0xE0];
    jpg.extend_from_slice(&[0u8; 12]);
    assert_eq!(sniff_mime(&jpg), Some("image/jpeg"));

    let mut pdf = b"%PDF-1.7".to_vec();
    pdf.extend_from_slice(&[0u8; 8]);
    assert_eq!(sniff_mime(&pdf), Some("application/pdf"));

    let mut webp = b"RIFF".to_vec();
    webp.extend_from_slice(&[0u8; 4]);
    webp.extend_from_slice(b"WEBP");
    assert_eq!(sniff_mime(&webp), Some("image/webp"));
}

#[test]
fn rejects_disguised_files() {
    let html = b"<!doctype html><script>alert(1)</script>".to_vec();
    assert_eq!(sniff_mime(&html), None);
    assert_eq!(sniff_mime(b"corto"), None);
}

#[test]
fn file_names_cannot_escape_the_upload_dir() {
    assert_eq!(sanitize_file_name("../../etc/passwd"), "_.._etc_passwd");
    assert_eq!(sanitize_file_name("foto\n.png"), "foto_.png");
    assert_eq!(sanitize_file_name("   "), "comprobante");
    assert_eq!(sanitize_file_name("recibo.jpg"), "recibo.jpg");
}

// ---------------------------------------------------------------------------

#[test]
fn sniffs_gif_and_heic() {
    let mut gif = b"GIF89a".to_vec();
    gif.extend_from_slice(&[0u8; 6]);
    assert_eq!(sniff_mime(&gif), Some("image/gif"));
    let mut gif87 = b"GIF87a".to_vec();
    gif87.extend_from_slice(&[1u8; 6]);
    assert_eq!(sniff_mime(&gif87), Some("image/gif"));

    let mut heic = vec![0, 0, 0, 24];
    heic.extend_from_slice(b"ftypmif1");
    assert_eq!(sniff_mime(&heic), Some("image/heic"));
    let mut mp4 = vec![0, 0, 0, 24];
    mp4.extend_from_slice(b"ftypisom");
    assert_eq!(sniff_mime(&mp4), None);
    // Exactly eleven bytes are never enough.
    assert_eq!(sniff_mime(&[0xFF, 0xD8, 0xFF, 0, 0, 0, 0, 0, 0, 0, 0]), None);
}

#[test]
fn file_name_edges() {
    assert_eq!(sanitize_file_name("..."), "comprobante");
    assert_eq!(sanitize_file_name(" .recibo. "), "recibo");
    assert_eq!(sanitize_file_name("a\"b\\c\u{7f}d"), "a_b_c_d");
    let long = "x".repeat(130);
    assert_eq!(sanitize_file_name(&long), "x".repeat(120));
    assert_eq!(sanitize_file_name(&"é".repeat(121)).chars().count(), 120);
    assert_eq!(upload_file_name(None), "comprobante");
    assert_eq!(upload_file_name(Some("a/b.pdf")), "a_b.pdf");
}

#[test]
fn extensions_of_accepted_types() {
    assert_eq!(extension_for("image/jpeg"), "jpg");
    assert_eq!(extension_for("image/png"), "png");
    assert_eq!(extension_for("image/webp"), "webp");
    assert_eq!(extension_for("image/gif"), "gif");
    assert_eq!(extension_for("image/heic"), "heic");
    assert_eq!(extension_for("application/pdf"), "pdf");
    assert_eq!(extension_for("text/html"), "bin");
}

#[test]
fn uploads_are_checked() {
    let mut png = vec![0x89, 0x50, 0x4E, 0x47, 0x0D, 0x0A, 0x1A, 0x0A];
    png.extend_from_slice(&[0u8; 8]);
    assert_eq!(accept_upload(&png, "image/png", 1024).unwrap(), ("image/png", "png"));
    assert!(matches!(accept_upload(&[], "", 1024), Err(AppError::BadRequest(m)) if m == "el archivo está vacío"));
    assert!(matches!(
        accept_upload(&png, "", 3 * 1024 * 1024 - 1),
        Ok(("image/png", "png"))
    ));
    assert!(matches!(
        accept_upload(&png, "", 10),
        Err(AppError::PayloadTooLarge(m)) if m == "el archivo supera el máximo de 0 MB"
    ));
    let big = vec![0u8; 3 * 1024 * 1024];
    assert!(matches!(
        accept_upload(&big, "", 2 * 1024 * 1024 + 5),
        Err(AppError::PayloadTooLarge(m)) if m == "el archivo supera el máximo de 2 MB"
    ));
    let html = b"<!doctype html><p>hola</p>".to_vec();
    assert!(matches!(
        accept_upload(&html, "image/png", 1024),
        Err(AppError::BadRequest(m)) if m == "formato no soportado (image/png). Se aceptan JPG, PNG, WebP, GIF, HEIC y PDF"
    ));
    assert!(matches!(
        accept_upload(&html, "", 1024),
        Err(AppError::BadRequest(m)) if m == "formato no soportado. Se aceptan JPG, PNG, WebP, GIF, HEIC y PDF"
    ));
}

#[test]
fn serving_a_receipt() {
    assert_eq!(content_disposition("re\"ci\r\nbo.pdf"), "inline; filename=\"recibo.pdf\"");
    let id = 0x1000_0000_0000_0000_0000_0000_0000_0002u128;
    assert_eq!(attachment_url(id), "/api/attachments/10000000-0000-0000-0000-000000000002/file");
    assert_eq!(stored_name(id, "pdf"), "10000000-0000-0000-0000-000000000002.pdf");
}

#[test]
fn who_sees_and_deletes_a_receipt() {
    assert_eq!(attachment_access(1, Some(9), 1).unwrap(), None);
    assert_eq!(attachment_access(1, Some(9), 2).unwrap(), Some(9));
    assert!(matches!(attachment_access(1, None, 2), Err(AppError::Forbidden(m)) if m == "no tenés acceso a este archivo"));
    assert!(may_delete_attachment(1, 1).is_ok());
    assert!(matches!(
        may_delete_attachment(1, 2),
        Err(AppError::Forbidden(m)) if m == "sólo quien subió el archivo puede borrarlo"
    ));
}
