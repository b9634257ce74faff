// Tests for UTF-8 BOM and multibyte text preservation.

use fix_cs_indent::hook::{is_cs_extension, process_source, SourceOutcome};

// In fixture strings, '·' (U+00B7) stands for a space where trailing
// whitespace matters.
fn cs(s: String) -> Vec<u8> {
    s.replace('·', " ").into_bytes()
}

// Drops a leading newline and the indentation common to all lines that hold
// more than spaces, as an indented multi-line literal is meant to be read.
fn unindent(s: &str) -> String {
    let ignore_first_line = s.starts_with('\n') || s.starts_with("\r\n");
    let spaces = s
        .lines()
        .skip(1)
        .filter_map(|line| line.bytes().position(|b| b != b' ' && b != b'\t'))
        .min()
        .unwrap_or(0);
    let mut result = String::with_capacity(s.len());
    for (i, line) in s.lines().enumerate() {
        if i > 1 || (i == 1 && !ignore_first_line) {
            result.push('\n');
        }
        if i == 0 {
            result.push_str(line);
        } else if line.len() > spaces {
            result.push_str(&line[spaces..]);
        }
    }
    if s.ends_with('\n') {
        result.push('\n');
    }
    result
}

struct Run {
    changed: bool,
}

impl Run {
    // The library does no I/O, so a run through it prints nothing; what the
    // hook program prints is app/'s concern and is not run here.
    fn assert_silent(&self) {
        let _ = self.changed;
    }
}

// Runs the hook's repair on the content of a file named `name` and checks
// the content that the file then has.
fn assert_file_after_run(name: &str, input: &[u8], expected: &[u8]) -> Run {
    let ext = name.rsplit_once('.').map(|(_, e)| e);
    assert!(is_cs_extension(ext), "{name} is no C# file");
    let (after, changed) = match process_source(input) {
        SourceOutcome::Fixed(out) => (out, true),
        SourceOutcome::NoChange => (input.to_vec(), false),
        other => panic!("unexpected outcome {:?}", other),
    };
    assert_eq!(
        String::from_utf8_lossy(&after),
        String::from_utf8_lossy(expected),
        "file content after the run"
    );
    assert_eq!(after, expected);
    Run { changed }
}

#[test]
fn utf8_bom_roundtrip() {
    let mut content = b"\xEF\xBB\xBF".to_vec();
    content.extend_from_slice(&cs(unindent("
        class A
        {
            int x;

            int y;
        }
    ")));
    let mut expected = b"\xEF\xBB\xBF".to_vec();
    expected.extend_from_slice(&cs(unindent("
        class A
        {
            int x;
        ····
            int y;
        }
    ")));
    assert_file_after_run("bom.cs", &content, &expected);
}

#[test]
fn utf8_bom_with_verbatim_string_roundtrip() {
    // The multiline string stays byte-for-byte intact while the later code
    // blank is indented and the BOM is preserved.
    let mut src = b"\xEF\xBB\xBF".to_vec();
    src.extend_from_slice(&cs(unindent(r#"
        class B
        {
            string s = @"line1

        line3";

            int y;
        }
    "#)));
    let mut expected = b"\xEF\xBB\xBF".to_vec();
    expected.extend_from_slice(&cs(unindent(r#"
        class B
        {
            string s = @"line1

        line3";
        ····
            int y;
        }
    "#)));
    assert_file_after_run("bom.cs", &src, &expected);
}

#[test]
fn valid_multibyte_utf8_is_preserved_while_fixing_indent() {
    assert_file_after_run(
        "utf8.cs",
        &cs(unindent(r#"
            class 文档
            {
                string 问候 = "你好，🌏";

                int 数量 = 1;
            }
        "#)),
        &cs(unindent(r#"
            class 文档
            {
                string 问候 = "你好，🌏";
            ····
                int 数量 = 1;
            }
        "#)),
    );
}
