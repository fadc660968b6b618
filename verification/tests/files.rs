use avatracker::files::{
    blob_path, download_url, file_page_title, format_date, is_audio_file, upload_file_name,
    ApiError, CalendarDate, ContentHasher, ErrorReply, FileResponse, FileUpload,
};

fn upload(name: &str) -> FileUpload {
    FileUpload {
        id: 1,
        upload_id: "abcDEF12".to_string(),
        blob_id: 2,
        original_name: name.to_string(),
        created_at: CalendarDate { year: 2024, month: 3, day: 9 },
    }
}

#[test]
fn audio_files_by_extension() {
    assert!(is_audio_file("song.MP3"));
    assert!(is_audio_file("a.b.flac"));
    assert!(is_audio_file("opus"));
    assert!(!is_audio_file("song.mp3.txt"));
    assert!(!is_audio_file("noext"));
    assert!(!is_audio_file("song."));
}

#[test]
fn extension_of_an_upload() {
    assert_eq!(upload("track.wav").extension(), Some("wav"));
    assert_eq!(upload("archive.tar.gz").extension(), Some("gz"));
    assert_eq!(upload(".hidden").extension(), None);
    assert_eq!(upload("plain").extension(), None);
}

#[test]
fn response_carries_the_share_id() {
    let r = FileResponse::from(upload("x"));
    assert_eq!(r.upload_id, "abcDEF12");
}

#[test]
fn dates_and_paths() {
    let d = CalendarDate { year: 2024, month: 3, day: 9 };
    assert_eq!(format_date(&d), "03/09/2024");
    let d2 = CalendarDate { year: 1999, month: 12, day: 31 };
    assert_eq!(format_date(&d2), "12/31/1999");
    assert_eq!(format_date(&CalendarDate { year: -5, month: 1, day: 1 }), "01/01/-5");
    assert_eq!(
        blob_path("./uploads", &d, 0xa1a2a3a4b1b2c1c2d1d2d3d4d5d6d7d8),
        "./uploads/2024/03-09/a1a2a3a4-b1b2-c1c2-d1d2-d3d4d5d6d7d8"
    );
    assert_eq!(
        blob_path("u", &CalendarDate { year: 7, month: 10, day: 1 }, 0),
        "u/7/10-01/00000000-0000-0000-0000-000000000000"
    );
}

#[test]
fn page_texts() {
    assert_eq!(download_url("xyz"), "/api/uploads/xyz/download");
    assert_eq!(file_page_title("a.mp3"), "avafiles \u{2022} a.mp3");
}

#[test]
fn upload_names_are_made_safe() {
    assert_eq!(upload_file_name(Some("a/b:c?.mp3")), "abc.mp3");
    assert_eq!(upload_file_name(None), "file.bin");
    assert_eq!(upload_file_name(Some("ok name.wav")), "ok name.wav");
    assert_eq!(upload_file_name(Some("t\u{7}ab|le.mp3")), "table.mp3");
    assert_eq!(upload_file_name(Some("")), "");
}

#[test]
fn error_replies() {
    assert!(matches!(ApiError::from_database(true), ApiError::NotFound));
    assert!(matches!(ApiError::from_database(false), ApiError::Database));
    match ApiError::NotFound.reply() {
        ErrorReply::Plain { status, body } => {
            assert_eq!(status, 404);
            assert_eq!(body, "Not found");
        }
        ErrorReply::OwnReply => panic!(),
    }
    match ApiError::Io.reply() {
        ErrorReply::Plain { status, body } => {
            assert_eq!(status, 500);
            assert_eq!(body, "Error while uploading file");
        }
        ErrorReply::OwnReply => panic!(),
    }
    assert!(matches!(ApiError::Multipart.reply(), ErrorReply::OwnReply));
    assert!(matches!(ApiError::NoFile.reply(), ErrorReply::Plain { status: 404, .. }));
    assert!(matches!(ApiError::Database.reply(), ErrorReply::Plain { status: 500, .. }));
}

#[test]
fn hashing_in_chunks_equals_hashing_at_once() {
    let mut h = ContentHasher::new();
    h.update(b"foo");
    h.update(b"");
    h.update(b"barbaz");
    assert_eq!(h.finalize(), *blake3::hash(b"foobarbaz").as_bytes());
    assert_ne!(ContentHasher::new().finalize(), *blake3::hash(b"x").as_bytes());
}

#[test]
fn unsafe_characters_are_dropped_and_the_rest_kept() {
    assert_eq!(upload_file_name(Some("a/b.mp3")), "ab.mp3");
    assert_eq!(upload_file_name(Some("x<y>z\u{85}.flac")), "xyz.flac");
}

#[test]
fn names_of_only_dots_become_empty() {
    assert_eq!(upload_file_name(Some("...")), "");
    assert_eq!(upload_file_name(Some("/./.")), "");
    assert_eq!(upload_file_name(Some("a/b..")), "ab..");
}

#[test]
fn long_names_are_cut_to_255_bytes() {
    let long = "é".repeat(200);
    let out = upload_file_name(Some(&long));
    assert_eq!(out.len(), 254);
    assert_eq!(out, "é".repeat(127));
}

#[test]
fn trailing_dots_and_device_names_by_platform() {
    let out = upload_file_name(Some("mix.wav."));
    assert!(out == "mix.wav." || out == "mix.wav", "{out:?}");
    let out = upload_file_name(Some("CON.txt"));
    assert!(out == "CON.txt" || out.is_empty(), "{out:?}");
    let out = upload_file_name(Some("com1"));
    assert!(out == "com1" || out.is_empty(), "{out:?}");
    let out = upload_file_name(Some("conx.txt"));
    assert_eq!(out, "conx.txt");
    let out = upload_file_name(Some("a|b .. "));
    assert!(out == "ab .. " || out == "ab", "{out:?}");
}
