use mkvhdr10plus::external::{
    check_extracted_metadata, first_nonempty_line, missing_tools, verification_outcome, VerifyError,
};

#[test]
fn json_only_needs_no_tools() {
    assert!(missing_tools(true, false, false).is_empty());
}

#[test]
fn reports_missing_required_tools_in_order() {
    assert_eq!(missing_tools(false, false, false), vec!["ffmpeg", "hdr10plus_tool"]);
    assert_eq!(missing_tools(false, true, false), vec!["hdr10plus_tool"]);
    assert_eq!(missing_tools(false, false, true), vec!["ffmpeg"]);
    assert!(missing_tools(false, true, true).is_empty());
}

#[test]
fn extracted_metadata_counts_scene_entries() {
    let text = r#"{"JSONInfo":{"HDR10plusProfile":"B"},"SceneInfo":[{},{},{}]}"#;
    assert_eq!(check_extracted_metadata(text), Ok(3));
}

#[test]
fn extracted_metadata_errors() {
    assert_eq!(check_extracted_metadata("not json"), Err(VerifyError::InvalidJson));
    assert_eq!(check_extracted_metadata(r#"{"SceneInfo":[]}"#), Err(VerifyError::NoSceneInfo));
    assert_eq!(check_extracted_metadata(r#"{"Other":[1]}"#), Err(VerifyError::NoSceneInfo));
    assert_eq!(check_extracted_metadata(r#"{"SceneInfo":5}"#), Err(VerifyError::NoSceneInfo));
    assert_eq!(
        VerifyError::NoSceneInfo.message(),
        "verification failed: no HDR10+ SceneInfo found in output"
    );
    assert_eq!(VerifyError::InvalidJson.message(), "verification JSON is not valid JSON");
}

#[test]
fn verification_outcome_of_parse_results() {
    assert_eq!(verification_outcome(None), Err(VerifyError::InvalidJson));
    assert_eq!(verification_outcome(Some(None)), Err(VerifyError::NoSceneInfo));
    assert_eq!(verification_outcome(Some(Some(0))), Err(VerifyError::NoSceneInfo));
    assert_eq!(verification_outcome(Some(Some(7))), Ok(7));
}

#[test]
fn first_nonempty_line_of_locator_output() {
    assert_eq!(first_nonempty_line("/usr/bin/ffmpeg\n"), Some("/usr/bin/ffmpeg".to_string()));
    assert_eq!(
        first_nonempty_line("\r\n   \n  C:\\tools\\ffmpeg.exe \r\nD:\\other.exe\r\n"),
        Some("C:\\tools\\ffmpeg.exe".to_string())
    );
    assert_eq!(first_nonempty_line(" \t\n\n"), None);
    assert_eq!(first_nonempty_line(""), None);
    assert_eq!(first_nonempty_line("a b  \u{3000}\nc"), Some("a b".to_string()));
}
