//! External command-line tools: which ones a run requires, and the check of
//! the metadata that `hdr10plus_tool extract` gives back.
use vstd::prelude::*;

verus! {

/// Names of the tools the end-to-end chain cannot run without, in the order
/// they are reported.
pub open spec fn required_tools() -> Seq<Seq<char>> {
    seq!["ffmpeg"@, "hdr10plus_tool"@]
}

/// The required tools that were not found, in order: none in JSON-only mode,
/// which runs no external tool; otherwise `ffmpeg` and `hdr10plus_tool`
/// whenever they are missing.
pub fn missing_tools(json_only: bool, ffmpeg_found: bool, hdr10plus_tool_found: bool) -> (r: Vec<&'static str>)
    ensures
        r@.map_values(|s: &str| s@) == if json_only {
            Seq::<Seq<char>>::empty()
        } else {
            (if ffmpeg_found { Seq::<Seq<char>>::empty() } else { seq![required_tools()[0]] })
                + (if hdr10plus_tool_found { Seq::<Seq<char>>::empty() } else { seq![required_tools()[1]] })
        },
{
    let mut missing: Vec<&'static str> = Vec::new();
    if json_only {
        assert(missing@.map_values(|s: &str| s@) =~= Seq::<Seq<char>>::empty());
        return missing;
    }
    if !ffmpeg_found {
        missing.push("ffmpeg");
    }
    if !hdr10plus_tool_found {
        missing.push("hdr10plus_tool");
    }
    let ghost expected = (if ffmpeg_found { Seq::<Seq<char>>::empty() } else { seq![required_tools()[0]] })
        + (if hdr10plus_tool_found { Seq::<Seq<char>>::empty() } else { seq![required_tools()[1]] });
    assert(missing@.map_values(|s: &str| s@) =~= expected);
    missing
}

/// What parsing `text` as JSON gives for the member `key` of the top-level
/// object: `None` when `text` is not valid JSON, `Some(None)` when there is no
/// such member or it is not an array, `Some(Some(n))` for an array of `n`
/// elements.
pub uninterp spec fn json_array_len_at(text: Seq<char>, key: Seq<char>) -> Option<Option<usize>>;

/// Parses `text` with `serde_json::from_str` into a `serde_json::Value`, then
/// looks up `key` with `Value::get` and takes `Value::as_array` and its length.
/// The contract claims only that the result is a function of the text and the
/// key; what serde_json accepts as JSON is left unsaid.
#[verifier::external_body]
fn array_len_at_key(text: &str, key: &str) -> (r: Option<Option<usize>>)
    ensures
        r == json_array_len_at(text@, key@),
{
    serde_json::from_str::<serde_json::Value>(text).ok().map(|v| v.get(key).and_then(|a| a.as_array()).map(|a| a.len()))
}

/// Why metadata extracted back from the injected stream was rejected.
#[derive(Clone, Copy, Debug, PartialEq, Eq, Structural)]
pub enum VerifyError {
    /// The extracted file is not valid JSON.
    InvalidJson,
    /// The extracted document holds no `SceneInfo` entry.
    NoSceneInfo,
}

impl VerifyError {
    /// The message shown to the user.
    pub fn message(&self) -> (s: String)
        ensures
            *self == VerifyError::InvalidJson ==> s@ == "verification JSON is not valid JSON"@,
            *self == VerifyError::NoSceneInfo ==> s@ == "verification failed: no HDR10+ SceneInfo found in output"@,
    {
        match self {
            VerifyError::InvalidJson => String::from_str("verification JSON is not valid JSON"),
            VerifyError::NoSceneInfo => String::from_str("verification failed: no HDR10+ SceneInfo found in output"),
        }
    }
}

/// Outcome of checking extracted metadata, from what parsing found at
/// `SceneInfo`: invalid JSON is an error; a missing, non-array or empty
/// `SceneInfo` means no metadata; otherwise the number of frame entries.
pub open spec fn verification_result(found: Option<Option<usize>>) -> Result<usize, VerifyError> {
    match found {
        None => Err(VerifyError::InvalidJson),
        Some(None) => Err(VerifyError::NoSceneInfo),
        Some(Some(n)) => if n == 0 { Err(VerifyError::NoSceneInfo) } else { Ok(n) },
    }
}

/// Check the HDR10+ metadata extracted back from the injected stream: the
/// number of frame entries under `SceneInfo`, which must be at least one.
pub fn check_extracted_metadata(text: &str) -> (r: Result<usize, VerifyError>)
    ensures
        r == verification_result(json_array_len_at(text@, "SceneInfo"@)),
{
    verification_outcome(array_len_at_key(text, "SceneInfo"))
}

/// Outcome of the check, given what parsing the extracted text found at
/// `SceneInfo`.
pub fn verification_outcome(found: Option<Option<usize>>) -> (r: Result<usize, VerifyError>)
    ensures
        r == verification_result(found),
{
    match found {
        None => Err(VerifyError::InvalidJson),
        Some(None) => Err(VerifyError::NoSceneInfo),
        Some(Some(n)) => if n == 0 {
            Err(VerifyError::NoSceneInfo)
        } else {
            Ok(n)
        },
    }
}

/// `c` is white space in the sense of `char::is_whitespace`: it has the
/// Unicode `White_Space` property.
pub open spec fn is_white_space(c: char) -> bool {
    let u = c as u32;
    ||| 9 <= u <= 13
    ||| u == 32
    ||| u == 0x85
    ||| u == 0xA0
    ||| u == 0x1680
    ||| 0x2000 <= u <= 0x200A
    ||| u == 0x2028
    ||| u == 0x2029
    ||| u == 0x202F
    ||| u == 0x205F
    ||| u == 0x3000
}

fn white_space(c: char) -> (r: bool)
    ensures
        r == is_white_space(c),
{
    let u = c as u32;
    (9 <= u && u <= 13) || u == 32 || u == 0x85 || u == 0xA0 || u == 0x1680 || (0x2000 <= u && u <= 0x200A)
        || u == 0x2028 || u == 0x2029 || u == 0x202F || u == 0x205F || u == 0x3000
}

/// Index of the first character at or after `i` that is not white space
/// (the length when there is none).
pub open spec fn first_content(s: Seq<char>, i: int) -> int
    decreases s.len() - i,
{
    if i >= s.len() {
        s.len() as int
    } else if !is_white_space(s[i]) {
        i
    } else {
        first_content(s, i + 1)
    }
}

/// Index of the first line feed at or after `i` (the length when there is none).
pub open spec fn line_end(s: Seq<char>, i: int) -> int
    decreases s.len() - i,
{
    if i >= s.len() {
        s.len() as int
    } else if s[i] == '\n' {
        i
    } else {
        line_end(s, i + 1)
    }
}

/// One past the last character before `e` that is not white space, looking
/// no further back than `p + 1`.
pub open spec fn content_end(s: Seq<char>, p: int, e: int) -> int
    decreases e - p,
{
    if e <= p + 1 {
        p + 1
    } else if !is_white_space(s[e - 1]) {
        e
    } else {
        content_end(s, p, e - 1)
    }
}

/// The first line of `s` that holds a character other than white space,
/// with leading and trailing white space removed. Lines end at line feeds;
/// since a line feed is itself white space, that line is the one holding the
/// first such character of `s`.
pub open spec fn first_nonempty_trimmed_line(s: Seq<char>) -> Option<Seq<char>> {
    let p = first_content(s, 0);
    if p >= s.len() {
        None
    } else {
        Some(s.subrange(p, content_end(s, p, line_end(s, p))))
    }
}

/// The first non-empty line of a tool locator's output, trimmed: the path of
/// the tool that was found.
pub fn first_nonempty_line(text: &str) -> (r: Option<String>)
    ensures
        r matches Some(line) ==> first_nonempty_trimmed_line(text@) == Some(line@),
        r is None ==> first_nonempty_trimmed_line(text@) is None,
{
    let ghost s = text@;
    let len = text.unicode_len();
    let mut i: usize = 0;
    while i < len && white_space(text.get_char(i))
        invariant
            len == s.len(),
            s == text@,
            i <= len,
            first_content(s, 0) == first_content(s, i as int),
        decreases len - i,
    {
        i = i + 1;
    }
    if i >= len {
        return None;
    }
    let p = i;
    let mut e = p;
    while e < len && text.get_char(e) != '\n'
        invariant
            len == s.len(),
            s == text@,
            p <= e <= len,
            p < len,
            line_end(s, p as int) == line_end(s, e as int),
        decreases len - e,
    {
        e = e + 1;
    }
    assert(!is_white_space(s[p as int]));
    assert(s[p as int] != '\n');
    assert(e > p);
    let mut q = e;
    while q > p + 1 && white_space(text.get_char(q - 1))
        invariant
            len == s.len(),
            s == text@,
            p + 1 <= q <= e <= len,
            content_end(s, p as int, e as int) == content_end(s, p as int, q as int),
        decreases q,
    {
        q = q - 1;
    }
    let line = text.substring_char(p, q);
    Some(String::from_str(line))
}

} // verus!
