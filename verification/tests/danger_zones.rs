// Tests that strings, comments, and parse-error regions are preserved untouched.

use fix_cs_indent::hook::{is_cs_extension, process_source, SourceOutcome};

// In fixture strings, '·' (U+00B7) stands for a space where trailing
// whitespace matters.
fn cs(s: String) -> Vec<u8> {
    s.replace('·', " ").into_bytes()
}

// Drops a leading newline and the indentation common to all lines that hold
// more than spaces, as an indented multi-line literal is meant to be read.
fn unindent(s: &str) -> String {
    let ignore_first_line = s.starts_with('\n') || s.starts_with("\r\n");
    let spaces = s
        .lines()
        .skip(1)
        .filter_map(|line| line.bytes().position(|b| b != b' ' && b != b'\t'))
        .min()
        .unwrap_or(0);
    let mut result = String::with_capacity(s.len());
    for (i, line) in s.lines().enumerate() {
        if i > 1 || (i == 1 && !ignore_first_line) {
            result.push('\n');
        }
        if i == 0 {
            result.push_str(line);
        } else if line.len() > spaces {
            result.push_str(&line[spaces..]);
        }
    }
    if s.ends_with('\n') {
        result.push('\n');
    }
    result
}

struct Run {
    changed: bool,
}

impl Run {
    // The library does no I/O, so a run through it prints nothing; what the
    // hook program prints is app/'s concern and is not run here.
    fn assert_silent(&self) {
        let _ = self.changed;
    }
}

// Runs the hook's repair on the content of a file named `name` and checks
// the content that the file then has.
fn assert_file_after_run(name: &str, input: &[u8], expected: &[u8]) -> Run {
    let ext = name.rsplit_once('.').map(|(_, e)| e);
    assert!(is_cs_extension(ext), "{name} is no C# file");
    let (after, changed) = match process_source(input) {
        SourceOutcome::Fixed(out) => (out, true),
        SourceOutcome::NoChange => (input.to_vec(), false),
        other => panic!("unexpected outcome {:?}", other),
    };
    assert_eq!(
        String::from_utf8_lossy(&after),
        String::from_utf8_lossy(expected),
        "file content after the run"
    );
    assert_eq!(after, expected);
    Run { changed }
}

// ---------- string and comment danger zones ----------

#[test]
fn raw_string_blank_untouched() {
    assert_file_after_run(
        "b.cs",
        &cs(unindent(r#"
        class B
        {
            string s = """
        line1

        line3
        """;

            int x;
        }
    "#)),
        &cs(unindent(r#"
        class B
        {
            string s = """
        line1

        line3
        """;
        ····
            int x;
        }
    "#)),
    );
}

#[test]
fn interpolated_verbatim_blank_untouched() {
    assert_file_after_run(
        "b.cs",
        &cs(unindent(r#"
        class B
        {
            void F(int p)
            {
                var first = $@"x{p}

        end";
                var second = @$"x{p}

        end";

                Use(p);
            }
            void Use(int value) { }
        }
    "#)),
        &cs(unindent(r#"
        class B
        {
            void F(int p)
            {
                var first = $@"x{p}

        end";
                var second = @$"x{p}

        end";
        ········
                Use(p);
            }
            void Use(int value) { }
        }
    "#)),
    );
}

#[test]
fn raw_interpolated_string_blank_untouched() {
    // C# 11 raw interpolated string literal $""" ... """.
    assert_file_after_run(
        "b.cs",
        &cs(unindent(r#"
        class B
        {
            void F(int p)
            {
                var s = $"""x{p}

        end""";

                Use(p);
            }
            void Use(int value) { }
        }
    "#)),
        &cs(unindent(r#"
        class B
        {
            void F(int p)
            {
                var s = $"""x{p}

        end""";
        ········
                Use(p);
            }
            void Use(int value) { }
        }
    "#)),
    );
}

#[test]
fn block_comment_blank_untouched() {
    assert_file_after_run(
        "b.cs",
        &cs(unindent("
        class B
        {
            int x;

            int y;
            /* line1

            line3 */
        }
    ")),
        &cs(unindent("
        class B
        {
            int x;
        ····
            int y;
            /* line1

            line3 */
        }
    ")),
    );
}

#[test]
fn blank_before_doc_comment_uses_method_body_indent() {
    // Documentation comments do not determine the surrounding blank's indent.
    assert_file_after_run(
        "a.cs",
        &cs(unindent("
        class A
        {
            int x;

            /// <summary>Doc</summary>
            void F() {}
        }
    ")),
        &cs(unindent("
        class A
        {
            int x;
        ····
            /// <summary>Doc</summary>
            void F() {}
        }
    ")),
    );
}

#[test]
fn blank_after_block_comment_is_fixed() {
    assert_file_after_run(
        "b.cs",
        &cs(unindent("
        class B
        {
            /* c */

            int y;
        }
    ")),
        &cs(unindent("
        class B
        {
            /* c */
        ····
            int y;
        }
    ")),
    );
}

// ---------- parse-error regions ----------

#[test]
fn unclosed_verbatim_string_exits_zero_no_change() {
    assert_file_after_run(
        "c.cs",
        &cs(unindent(r#"
        class Valid
        {
            int x;

            int y;
        }
        class C
        {
            string s = @"oops

            int x;
        }
    "#)),
        &cs(unindent(r#"
        class Valid
        {
            int x;
        ····
            int y;
        }
        class C
        {
            string s = @"oops

            int x;
        }
    "#)),
    );
}

#[test]
fn unclosed_block_comment_exits_zero_no_change() {
    assert_file_after_run(
        "c.cs",
        &cs(unindent("
        class Valid
        {
            int x;

            int y;
        }
        class C
        {
            /* oops

            int x;
        }
    ")),
        &cs(unindent("
        class Valid
        {
            int x;
        ····
            int y;
        }
        class C
        {
            /* oops

            int x;
        }
    ")),
    );
}

#[test]
fn missing_semicolon_exits_zero_no_change() {
    assert_file_after_run(
        "c.cs",
        &cs(unindent("
        class Valid
        {
            int x;

            int y;
        }
        class C
        {
            int x

            int y;
        }
    ")),
        &cs(unindent("
        class Valid
        {
            int x;
        ····
            int y;
        }
        class C
        {
            int x

            int y;
        }
    ")),
    );
}

// Tree-sitter cannot parse `#if/#else/#endif` spanning this array initializer.
// Blanks in the affected class region stay untouched, while a blank inside the
// unrelated well-formed method is still repaired.
#[test]
fn preproc_in_array_init_does_not_block_unrelated_fix() {
    assert_file_after_run(
        "c.cs",
        &cs(unindent(r#"
        public static class C
        {
            static readonly string[] Paths =
            {
                #if UNITY_EDITOR_WIN
                @"C:\p4.exe",
                #else
                "/usr/bin/p4",
                #endif
            };

            static string Resolve()
            {
                string name = "p4";

                return name;
            }
        }
    "#)),
        &cs(unindent(r#"
        public static class C
        {
            static readonly string[] Paths =
            {
                #if UNITY_EDITOR_WIN
                @"C:\p4.exe",
                #else
                "/usr/bin/p4",
                #endif
            };

            static string Resolve()
            {
                string name = "p4";
        ········
                return name;
            }
        }
    "#)),
    );
}
