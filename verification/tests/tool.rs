use ongaku::error::OngakuError;
use ongaku::yt_dlp::{download_track, get_tracks, is_supported_url, CHANNEL_URL, WATCH_URL};

fn text(s: &str) -> String {
    s.to_string()
}

#[test]
fn supported_urls() {
    assert!(is_supported_url("https://music.youtube.com/channel/UCabc"));
    assert!(is_supported_url("https://music.youtube.com/watch?v=dQw4"));
    assert!(is_supported_url("https://music.youtube.com/channel/"));
    assert!(is_supported_url("https://music.youtube.com/watch?v="));
    assert!(is_supported_url(CHANNEL_URL));
    assert!(is_supported_url(WATCH_URL));
}

#[test]
fn unsupported_urls() {
    assert!(!is_supported_url(""));
    assert!(!is_supported_url("https://music.youtube.com/channel"));
    assert!(!is_supported_url("https://music.youtube.com/watch?v"));
    assert!(!is_supported_url("https://music.youtube.com/playlist?list=PL1"));
    assert!(!is_supported_url("https://www.youtube.com/watch?v=dQw4"));
    assert!(!is_supported_url("http://music.youtube.com/channel/UCabc"));
    assert!(!is_supported_url(" https://music.youtube.com/channel/UCabc"));
    assert!(!is_supported_url("HTTPS://MUSIC.YOUTUBE.COM/CHANNEL/UCabc"));
    assert!(!is_supported_url("https://music.youtube.com/chann\u{e9}l/"));
}

#[test]
fn records_are_the_lines_of_the_trimmed_output() {
    assert_eq!(get_tracks("{\"a\":1}\n{\"b\":2}\n"), vec![text("{\"a\":1}"), text("{\"b\":2}")]);
    assert_eq!(get_tracks("  one\ntwo \n\n three\t\r\n"), vec!["one", "two ", "", " three"]);
    assert_eq!(get_tracks("single"), vec!["single"]);
    assert_eq!(get_tracks("a\r\nb"), vec!["a\r", "b"]);
}

#[test]
fn no_output_is_one_empty_record() {
    assert_eq!(get_tracks(""), vec![""]);
    assert_eq!(get_tracks(" \n\t\n "), vec![""]);
    assert_eq!(get_tracks("\n\n"), vec![""]);
}

#[test]
fn records_agree_with_trim_and_split() {
    for output in [
        "",
        "x",
        "\n",
        "a\nb",
        "\u{3000}a\u{2028}b\u{85}",
        "\u{a0}\u{1680}\u{2000}\u{200a}x y\u{2029}\u{202f}\u{205f}",
        "\u{200b}a\u{200b}",
        "\u{feff}a\n\u{1f3b5}\n",
        "a\u{b}\u{c}",
        "caf\u{e9}\n\u{e9}t\u{e9}\n",
        " \u{1c}a\u{1f} ",
    ] {
        let expected: Vec<String> =
            output.trim().split("\n").map(|line| line.to_string()).collect();
        assert_eq!(get_tracks(output), expected, "{output:?}");
        assert_eq!(download_track(output), expected[0], "{output:?}");
    }
}

#[test]
fn file_is_the_first_line() {
    assert_eq!(download_track("Artist/Album/Title.opus\n"), "Artist/Album/Title.opus");
    assert_eq!(download_track("\n  Artist/A B/T.opus\nnoise\n"), "Artist/A B/T.opus");
    assert_eq!(download_track(""), "");
    assert_eq!(
        download_track("Artiste/\u{c9}t\u{e9}/Chanson.opus"),
        "Artiste/\u{c9}t\u{e9}/Chanson.opus"
    );
}

#[test]
fn messages() {
    assert_eq!(
        OngakuError::AlreadyInitialized.message(),
        "Ongaku has already been initialized in this directory."
    );
    assert_eq!(
        OngakuError::NotInitialized.message(),
        "Ongaku has not yet been initialized in this directory."
    );
    assert_eq!(OngakuError::PbDecodingError(text("x")).message(), "Failed to decode database.");
    assert_eq!(OngakuError::PbEncodingError(text("x")).message(), "Failed to decode database.");
    assert_eq!(
        OngakuError::DatabaseReadWriteError(text("x")).message(),
        "Failed to read/write database."
    );
    assert_eq!(OngakuError::YtdlpError(text("exit 1")).message(), "yt-dlp error: exit 1");
    assert_eq!(OngakuError::JsonExtractError(text("x")).message(), "failed to parse json response");
    assert_eq!(
        OngakuError::UnsupportedUrl(text("ftp://x")).message(),
        "unsuported url type: ftp://x"
    );
    assert_eq!(OngakuError::AlreadyInLibrary(text("Abc")).message(), "Abc is already in library");
}

#[test]
fn sources() {
    assert_eq!(OngakuError::AlreadyInitialized.source(), None);
    assert_eq!(OngakuError::NotInitialized.source(), None);
    assert_eq!(OngakuError::PbDecodingError(text("bad varint")).source(), Some(text("bad varint")));
    assert_eq!(OngakuError::PbEncodingError(text("no room")).source(), Some(text("no room")));
    assert_eq!(OngakuError::DatabaseReadWriteError(text("denied")).source(), Some(text("denied")));
    assert_eq!(OngakuError::JsonExtractError(text("eof")).source(), Some(text("eof")));
    assert_eq!(OngakuError::YtdlpError(text("x")).source(), None);
    assert_eq!(OngakuError::UnsupportedUrl(text("x")).source(), None);
    assert_eq!(OngakuError::AlreadyInLibrary(text("x")).source(), None);
}

#[test]
fn every_character_is_trimmed_as_the_standard_library_trims_it() {
    let mut white = 0;
    for code in 0..=0x10FFFF_u32 {
        let Some(c) = char::from_u32(code) else { continue };
        let output = format!("{c}a{c}b\n{c}");
        let expected: Vec<&str> = output.trim().split("\n").collect();
        assert_eq!(get_tracks(&output), expected, "U+{code:04X}");
        if c.is_whitespace() {
            white += 1;
        }
    }
    assert_eq!(white, 25);
}
