use file_organizer::categories::classify;
use file_organizer::categories::Category;
use file_organizer::text::split_extension;

fn chars(s: &str) -> Vec<char> {
    s.chars().collect()
}

#[test]
fn recognized_extensions_map_to_their_category() {
    assert_eq!(classify(&chars("jpg")), Category::Images);
    assert_eq!(classify(&chars("jpeg")), Category::Images);
    assert_eq!(classify(&chars("png")), Category::Images);
    assert_eq!(classify(&chars("gif")), Category::Images);
    assert_eq!(classify(&chars("bmp")), Category::Images);
    assert_eq!(classify(&chars("pdf")), Category::Documents);
    assert_eq!(classify(&chars("doc")), Category::Documents);
    assert_eq!(classify(&chars("docx")), Category::Documents);
    assert_eq!(classify(&chars("txt")), Category::Documents);
    assert_eq!(classify(&chars("mp3")), Category::Audio);
    assert_eq!(classify(&chars("wav")), Category::Audio);
    assert_eq!(classify(&chars("flac")), Category::Audio);
    assert_eq!(classify(&chars("mp4")), Category::Video);
    assert_eq!(classify(&chars("mkv")), Category::Video);
    assert_eq!(classify(&chars("avi")), Category::Video);
    assert_eq!(classify(&chars("rs")), Category::Code);
    assert_eq!(classify(&chars("py")), Category::Code);
    assert_eq!(classify(&chars("js")), Category::Code);
    assert_eq!(classify(&chars("html")), Category::Code);
    assert_eq!(classify(&chars("css")), Category::Code);
    assert_eq!(classify(&chars("zip")), Category::Archives);
    assert_eq!(classify(&chars("rar")), Category::Archives);
    assert_eq!(classify(&chars("7z")), Category::Archives);
}

#[test]
fn classification_is_case_insensitive() {
    assert_eq!(classify(&chars("JPG")), Category::Images);
    assert_eq!(classify(&chars("Jpeg")), Category::Images);
    assert_eq!(classify(&chars("TXT")), Category::Documents);
    assert_eq!(classify(&chars("mKv")), Category::Video);
    assert_eq!(classify(&chars("7Z")), Category::Archives);
}

#[test]
fn the_kelvin_sign_folds_to_k() {
    assert_eq!(classify(&vec!['m', '\u{212A}', 'v']), Category::Video);
}

#[test]
fn unknown_extensions_fall_back_to_others() {
    assert_eq!(classify(&chars("xyz")), Category::Others);
    assert_eq!(classify(&chars("")), Category::Others);
    assert_eq!(classify(&chars("tar")), Category::Others);
    assert_eq!(classify(&chars("jpg ")), Category::Others);
}

#[test]
fn extension_split_takes_the_last_dot() {
    let r = split_extension(&chars("archive.tar.gz")).unwrap();
    assert_eq!(r.0, chars("archive.tar"));
    assert_eq!(r.1, chars("gz"));

    let r = split_extension(&chars("a.jpg")).unwrap();
    assert_eq!(r.0, chars("a"));
    assert_eq!(r.1, chars("jpg"));

    let r = split_extension(&chars("a.")).unwrap();
    assert_eq!(r.0, chars("a"));
    assert_eq!(r.1, chars(""));
}

#[test]
fn names_without_a_dot_do_not_split() {
    assert!(split_extension(&chars("README")).is_none());
    assert!(split_extension(&chars("d")).is_none());
    assert!(split_extension(&chars("")).is_none());
}

#[test]
fn a_leading_dot_still_marks_an_extension() {
    let r = split_extension(&chars(".bashrc")).unwrap();
    assert_eq!(r.0, chars(""));
    assert_eq!(r.1, chars("bashrc"));

    let r = split_extension(&chars(".jpg")).unwrap();
    assert_eq!(r.0, chars(""));
    assert_eq!(r.1, chars("jpg"));
}
