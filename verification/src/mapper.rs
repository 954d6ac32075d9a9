//! Mapping a leak to likely source locations: where to look, which line to
//! point at, the snippet around it, and the last commit that touched it.

use vstd::prelude::*;
use crate::mcp::server::{sub_chars, trim, trim_chars};
use crate::text::{chars_of, contains_text, find_text, push_chars, push_str, string_from_chars};

verus! {

/// A request to map a leak to source.
#[derive(Debug, Clone, PartialEq, Eq)]
pub struct MapToCodeRequest {
    pub leak_id: String,
    pub class_name: Option<String>,
    pub project_root: String,
    pub include_git_info: bool,
}

/// The locations found for a leak.
#[derive(Debug, Clone, PartialEq, Eq)]
pub struct SourceMapResult {
    pub leak_id: String,
    pub locations: Vec<CodeLocation>,
}

/// One place in the source.
#[derive(Debug, Clone, PartialEq, Eq)]
pub struct CodeLocation {
    pub file: String,
    pub line: u32,
    pub symbol: String,
    pub code_snippet: String,
    pub git: Option<GitMetadata>,
}

/// The last commit that touched a file.
#[derive(Debug, Clone, PartialEq, Eq)]
pub struct GitMetadata {
    pub author: String,
    pub commit: String,
    pub date: String,
    pub message: String,
}

// ---------------------------------------------------------------------------
// Lines.

/// The lines of a text as `str::lines` gives them: split after each `\n`,
/// that `\n` (and a `\r` just before it) removed; no line after a final
/// `\n`.
pub open spec fn text_lines(s: Seq<char>) -> Seq<Seq<char>> {
    lines_from(s, 0, 0)
}

/// The lines of `s` from `start`, the current line having begun at
/// `line_start`.
pub open spec fn lines_from(s: Seq<char>, line_start: int, i: int) -> Seq<Seq<char>>
    decreases s.len() - i,
{
    if i < 0 || i >= s.len() || line_start < 0 || line_start > i {
        if 0 <= line_start < s.len() {
            seq![s.subrange(line_start, s.len() as int)]
        } else {
            Seq::empty()
        }
    } else if s[i] == '\n' {
        let end = if i > line_start && s[i - 1] == '\r' { i - 1 } else { i };
        seq![s.subrange(line_start, end)] + lines_from(s, i + 1, i + 1)
    } else {
        lines_from(s, line_start, i + 1)
    }
}

/// Splits a text into lines.
pub fn split_lines(s: &Vec<char>) -> (lines: Vec<Vec<char>>)
    ensures
        lines@.map_values(|l: Vec<char>| l@) == text_lines(s@),
{
    let mut lines: Vec<Vec<char>> = Vec::new();
    let mut line_start: usize = 0;
    let mut i: usize = 0;
    while i < s.len()
        invariant
            line_start <= i <= s@.len(),
            lines@.map_values(|l: Vec<char>| l@) + lines_from(s@, line_start as int, i as int) == text_lines(s@),
        decreases s.len() - i,
    {
        if s[i] == '\n' {
            let end = if i > line_start && s[i - 1] == '\r' { i - 1 } else { i };
            let line = sub_chars(s, line_start, end);
            let ghost before = lines@.map_values(|l: Vec<char>| l@);
            lines.push(line);
            proof {
                assert(lines@.map_values(|l: Vec<char>| l@) =~= before.push(line@));
                assert(before + lines_from(s@, line_start as int, i as int) =~= lines@.map_values(|l: Vec<char>| l@)
                    + lines_from(s@, i + 1, i + 1));
            }
            line_start = i + 1;
            i = i + 1;
        } else {
            i = i + 1;
        }
    }
    if line_start < s.len() {
        let line = sub_chars(s, line_start, s.len());
        let ghost before = lines@.map_values(|l: Vec<char>| l@);
        lines.push(line);
        proof {
            assert(lines@.map_values(|l: Vec<char>| l@) =~= before + seq![line@]);
        }
    } else {
        proof {
            assert(lines@.map_values(|l: Vec<char>| l@) + Seq::<Seq<char>>::empty() =~= lines@.map_values(
                |l: Vec<char>| l@,
            ));
        }
    }
    lines
}

// ---------------------------------------------------------------------------
// Leak ids and class hints.

/// Index of the first `::` at or after `i`.
pub open spec fn double_colon_from(s: Seq<char>, i: int) -> Option<int>
    decreases s.len() - i,
{
    if i < 0 || i + 1 >= s.len() {
        None
    } else if s[i] == ':' && s[i + 1] == ':' {
        Some(i)
    } else {
        double_colon_from(s, i + 1)
    }
}

/// The class part of a leak id: what comes before the first `::`, when
/// that is not empty.
pub open spec fn class_from_leak_id_spec(leak_id: Seq<char>) -> Option<Seq<char>> {
    let head = match double_colon_from(leak_id, 0) {
        Some(k) => leak_id.take(k),
        None => leak_id,
    };
    if head.len() > 0 { Some(head) } else { None }
}

/// The class part of a leak id.
pub fn class_from_leak_id(leak_id: &str) -> (c: Option<String>)
    ensures
        match c {
            Some(s) => class_from_leak_id_spec(leak_id@) == Some(s@),
            None => class_from_leak_id_spec(leak_id@) is None,
        },
{
    let cs = chars_of(leak_id);
    let mut i: usize = 0;
    while cs.len() > 0 && i < cs.len() - 1 && !(cs[i] == ':' && cs[i + 1] == ':')
        invariant
            i <= cs@.len(),
            cs@ == leak_id@,
            double_colon_from(cs@, 0) == double_colon_from(cs@, i as int),
        decreases cs@.len() - i,
    {
        i = i + 1;
    }
    let end = if cs.len() > 0 && i < cs.len() - 1 { i } else { cs.len() };
    let head = sub_chars(&cs, 0, end);
    proof {
        if cs@.len() > 0 && i < cs@.len() - 1 {
            assert(double_colon_from(cs@, i as int) == Some(i as int));
            assert(head@ =~= cs@.take(i as int));
        } else {
            assert(double_colon_from(cs@, i as int) is None);
            assert(head@ =~= cs@);
        }
    }
    if head.len() > 0 {
        Some(string_from_chars(&head))
    } else {
        None
    }
}

/// A class name as a relative path: `.` written as `/`, or the stand-in
/// class without a name.
pub open spec fn class_path_spec(hint: Option<Seq<char>>) -> Seq<char> {
    match hint {
        Some(h) => h.map_values(|c: char| if c == '.' { '/' } else { c }),
        None => "com/example/LeakHotspot"@,
    }
}

/// The relative path of a class, for looking up its source file.
pub fn class_path(hint: Option<&str>) -> (p: String)
    ensures
        p@ == class_path_spec(match hint { Some(h) => Some(h@), None => None }),
{
    match hint {
        None => "com/example/LeakHotspot".to_string(),
        Some(h) => {
            let cs = chars_of(h);
            let mut out: Vec<char> = Vec::new();
            let mut i: usize = 0;
            while i < cs.len()
                invariant
                    i <= cs@.len(),
                    cs@ == h@,
                    out@ == cs@.take(i as int).map_values(|c: char| if c == '.' { '/' } else { c }),
                decreases cs.len() - i,
            {
                let c = cs[i];
                out.push(if c == '.' { '/' } else { c });
                i = i + 1;
                proof {
                    assert(out@ =~= cs@.take(i as int).map_values(|c: char| if c == '.' { '/' } else { c }));
                }
            }
            proof {
                assert(cs@.take(i as int) =~= cs@);
            }
            string_from_chars(&out)
        },
    }
}

// ---------------------------------------------------------------------------
// The line to point at.

/// The part of a hint after its last `.` (all of it without one).
pub open spec fn last_segment(h: Seq<char>) -> Seq<char>
    decreases h.len(),
{
    if h.len() == 0 {
        h
    } else if h.last() == '.' {
        Seq::empty()
    } else {
        last_segment(h.drop_last()).push(h.last())
    }
}

/// Index of the first line containing `key`, from line `k` on.
pub open spec fn first_line_with(lines: Seq<Seq<char>>, key: Seq<char>, k: int) -> Option<int>
    decreases lines.len() - k,
{
    if k < 0 || k >= lines.len() {
        None
    } else if contains_text(lines[k], key) {
        Some(k)
    } else {
        first_line_with(lines, key, k + 1)
    }
}

/// A line that looks like a declaration.
pub open spec fn is_declaration(line: Seq<char>) -> bool {
    contains_text(line, "class "@) || contains_text(line, "fn "@) || contains_text(line, "void "@)
}

/// Index of the first declaration line, from line `k` on.
pub open spec fn first_declaration(lines: Seq<Seq<char>>, k: int) -> Option<int>
    decreases lines.len() - k,
{
    if k < 0 || k >= lines.len() {
        None
    } else if is_declaration(lines[k]) {
        Some(k)
    } else {
        first_declaration(lines, k + 1)
    }
}

/// The (1-based) line and trimmed text to point at: the first line that
/// mentions the hint's simple name, else the first declaration, else the
/// first line.
pub open spec fn find_symbol_spec(contents: Seq<char>, hint: Option<Seq<char>>) -> (nat, Seq<char>) {
    let lines = text_lines(contents);
    let by_hint = match hint {
        Some(h) => first_line_with(lines, last_segment(h), 0),
        None => None,
    };
    match by_hint {
        Some(k) => ((k + 1) as nat, trim(lines[k])),
        None => match first_declaration(lines, 0) {
            Some(k) => ((k + 1) as nat, trim(lines[k])),
            None => (1, if lines.len() > 0 { trim(lines[0]) } else { Seq::empty() }),
        },
    }
}

fn last_segment_chars(h: &Vec<char>) -> (out: Vec<char>)
    ensures
        out@ == last_segment(h@),
{
    let mut start: usize = h.len();
    proof {
        assert(h@.take(start as int) =~= h@);
        assert(h@.skip(start as int) =~= Seq::<char>::empty());
        assert(last_segment(h@) + Seq::<char>::empty() =~= last_segment(h@));
    }
    while start > 0 && h[start - 1] != '.'
        invariant
            start <= h@.len(),
            last_segment(h@) == last_segment(h@.take(start as int)) + h@.skip(start as int),
        decreases start,
    {
        proof {
            let t = h@.take(start as int);
            assert(t.drop_last() =~= h@.take(start - 1));
            assert(t.last() == h@[start - 1]);
            assert(h@.skip(start - 1) =~= seq![h@[start - 1]] + h@.skip(start as int));
            assert(last_segment(t.drop_last()).push(t.last()) + h@.skip(start as int) =~= last_segment(
                h@.take(start - 1),
            ) + h@.skip(start - 1));
        }
        start = start - 1;
    }
    proof {
        if start > 0 {
            assert(h@.take(start as int).last() == h@[start - 1]);
        } else {
            assert(h@.take(0) =~= Seq::<char>::empty());
        }
        assert(Seq::<char>::empty() + h@.skip(start as int) =~= h@.skip(start as int));
    }
    sub_chars(h, start, h.len())
}

/// Finds the line to point at for a class hint.
pub fn find_symbol(contents: &str, hint: Option<&str>) -> (r: (u32, String))
    requires
        contents@.len() < u32::MAX,
    ensures
        r.0 as nat == find_symbol_spec(contents@, match hint { Some(h) => Some(h@), None => None }).0,
        r.1@ == find_symbol_spec(contents@, match hint { Some(h) => Some(h@), None => None }).1,
{
    let cs = chars_of(contents);
    let lines = split_lines(&cs);
    let ghost lv = lines@.map_values(|l: Vec<char>| l@);
    let ghost hint_view = match hint { Some(h) => Some(h@), None => None::<Seq<char>> };
    proof {
        lemma_line_count(cs@);
    }
    match hint {
        Some(h) => {
            let key = last_segment_chars(&chars_of(h));
            let mut k: usize = 0;
            while k < lines.len()
                invariant
                    k <= lines@.len(),
                    lv == lines@.map_values(|l: Vec<char>| l@),
                    lv == text_lines(contents@),
                    lv.len() < u32::MAX,
                    hint_view == Some(h@),
                    hint_view == (match hint { Some(h) => Some(h@), None => None::<Seq<char>> }),
                    key@ == last_segment(h@),
                    first_line_with(lv, key@, 0) == first_line_with(lv, key@, k as int),
                decreases lines.len() - k,
            {
                if find_text(&lines[k], &key) {
                    proof {
                        assert(lv[k as int] == lines@[k as int]@);
                    }
                    let t = trim_chars(&lines[k]);
                    return ((k + 1) as u32, string_from_chars(&t));
                }
                proof {
                    assert(lv[k as int] == lines@[k as int]@);
                }
                k = k + 1;
            }
        },
        None => {},
    }
    proof {
        if hint_view is Some {
            assert(first_line_with(lv, last_segment(hint_view->0), lv.len() as int) is None);
        }
    }
    let class_kw = chars_of("class ");
    let fn_kw = chars_of("fn ");
    let void_kw = chars_of("void ");
    let mut k: usize = 0;
    while k < lines.len()
        invariant
            k <= lines@.len(),
            lv == lines@.map_values(|l: Vec<char>| l@),
            lv == text_lines(contents@),
            lv.len() < u32::MAX,
            hint_view == (match hint { Some(h) => Some(h@), None => None::<Seq<char>> }),
            hint_view is Some ==> first_line_with(lv, last_segment(hint_view->0), 0) is None,
            class_kw@ == "class "@,
            fn_kw@ == "fn "@,
            void_kw@ == "void "@,
            first_declaration(lv, 0) == first_declaration(lv, k as int),
        decreases lines.len() - k,
    {
        proof {
            assert(lv[k as int] == lines@[k as int]@);
        }
        if find_text(&lines[k], &class_kw) || find_text(&lines[k], &fn_kw) || find_text(&lines[k], &void_kw) {
            let t = trim_chars(&lines[k]);
            return ((k + 1) as u32, string_from_chars(&t));
        }
        k = k + 1;
    }
    if lines.len() > 0 {
        proof {
            assert(lv[0] == lines@[0]@);
        }
        let t = trim_chars(&lines[0]);
        (1, string_from_chars(&t))
    } else {
        (1, String::new())
    }
}

/// A text has no more lines than characters.
proof fn lemma_line_count(s: Seq<char>)
    ensures
        text_lines(s).len() <= s.len(),
{
    lemma_lines_from_count(s, 0, 0);
}

proof fn lemma_lines_from_count(s: Seq<char>, line_start: int, i: int)
    requires
        0 <= line_start <= i <= s.len(),
    ensures
        lines_from(s, line_start, i).len() <= s.len() - line_start,
    decreases s.len() - i,
{
    if i < s.len() {
        if s[i] == '\n' {
            lemma_lines_from_count(s, i + 1, i + 1);
        } else {
            lemma_lines_from_count(s, line_start, i + 1);
        }
    }
}

// ---------------------------------------------------------------------------
// Snippets.

/// Lines joined with `\n`.
pub open spec fn join_lines(lines: Seq<Seq<char>>) -> Seq<char>
    decreases lines.len(),
{
    if lines.len() == 0 {
        Seq::empty()
    } else if lines.len() == 1 {
        lines[0]
    } else {
        join_lines(lines.drop_last()) + seq!['\n'] + lines.last()
    }
}

/// The line before, the line itself and the line after a (1-based) line,
/// cut to the text; the last line stands in for one past the end.
pub open spec fn snippet_spec(contents: Seq<char>, line: u32) -> Seq<char> {
    if contents.len() == 0 {
        Seq::empty()
    } else {
        let lines = text_lines(contents);
        let last = if lines.len() > 0 { lines.len() - 1 } else { 0 };
        let want = if line > 0 { line - 1 } else { 0 };
        let idx = if want < last { want } else { last };
        let start = if idx > 0 { idx - 1 } else { 0 };
        let end = if idx + 2 < lines.len() { idx + 2 } else { lines.len() as int };
        join_lines(lines.subrange(start as int, end))
    }
}

/// The snippet around a line of a text.
pub fn extract_snippet(contents: &str, line: u32) -> (s: String)
    ensures
        s@ == snippet_spec(contents@, line),
{
    let cs = chars_of(contents);
    if cs.len() == 0 {
        return String::new();
    }
    let lines = split_lines(&cs);
    let ghost lv = lines@.map_values(|l: Vec<char>| l@);
    let last: usize = if lines.len() > 0 { lines.len() - 1 } else { 0 };
    let want: usize = if line > 0 { (line - 1) as usize } else { 0 };
    let idx = if want < last { want } else { last };
    let start = if idx > 0 { idx - 1 } else { 0 };
    let end = if lines.len() > 2 && idx < lines.len() - 2 { idx + 2 } else { lines.len() };
    let mut out: Vec<char> = Vec::new();
    let mut k = start;
    if start < end {
        push_chars(&mut out, lines[start].as_slice());
        k = start + 1;
        proof {
            assert(lv.subrange(start as int, k as int) =~= seq![lv[start as int]]);
            assert(out@ =~= join_lines(lv.subrange(start as int, k as int)));
        }
        while k < end
            invariant
                start < k <= end <= lines@.len(),
                lv == lines@.map_values(|l: Vec<char>| l@),
                out@ == join_lines(lv.subrange(start as int, k as int)),
            decreases end - k,
        {
            out.push('\n');
            push_chars(&mut out, lines[k].as_slice());
            proof {
                let t = lv.subrange(start as int, k + 1);
                assert(t.drop_last() =~= lv.subrange(start as int, k as int));
                assert(t.last() == lines@[k as int]@);
            }
            k = k + 1;
        }
    } else {
        proof {
            assert(lv.subrange(start as int, end as int) =~= Seq::<Seq<char>>::empty());
        }
    }
    string_from_chars(&out)
}

// ---------------------------------------------------------------------------
// Git metadata and the fallback location.

/// Index of the first `|` at or after `i`.
pub open spec fn bar_from(s: Seq<char>, i: int) -> Option<int>
    decreases s.len() - i,
{
    if i < 0 || i >= s.len() {
        None
    } else if s[i] == '|' {
        Some(i)
    } else {
        bar_from(s, i + 1)
    }
}

/// `author|commit|date|message` from `git log`'s trimmed output (the
/// message may hold further `|`); `None` with fewer than four fields.
pub open spec fn git_fields(out: Seq<char>) -> Option<(Seq<char>, Seq<char>, Seq<char>, Seq<char>)> {
    let t = trim(out);
    match bar_from(t, 0) {
        None => None,
        Some(a) => match bar_from(t, a + 1) {
            None => None,
            Some(b) => match bar_from(t, b + 1) {
                None => None,
                Some(c) => Some((t.take(a), t.subrange(a + 1, b), t.subrange(b + 1, c), t.skip(c + 1))),
            },
        },
    }
}

fn next_bar(t: &Vec<char>, from: usize) -> (k: Option<usize>)
    requires
        from <= t@.len(),
    ensures
        match k {
            Some(i) => bar_from(t@, from as int) == Some(i as int) && from <= i < t@.len(),
            None => bar_from(t@, from as int) is None,
        },
{
    let mut i = from;
    while i < t.len()
        invariant
            from <= i <= t@.len(),
            bar_from(t@, from as int) == bar_from(t@, i as int),
        decreases t.len() - i,
    {
        if t[i] == '|' {
            return Some(i);
        }
        i = i + 1;
    }
    None
}

/// Reads `git log -1 --pretty=format:%an|%H|%ad|%s` output.
pub fn parse_git_log(stdout: &str) -> (g: Option<GitMetadata>)
    ensures
        match g {
            Some(m) => git_fields(stdout@) == Some((m.author@, m.commit@, m.date@, m.message@)),
            None => git_fields(stdout@) is None,
        },
{
    let t = trim_chars(&chars_of(stdout));
    let a = match next_bar(&t, 0) {
        Some(a) => a,
        None => return None,
    };
    let b = match next_bar(&t, a + 1) {
        Some(b) => b,
        None => return None,
    };
    let c = match next_bar(&t, b + 1) {
        Some(c) => c,
        None => return None,
    };
    let author = sub_chars(&t, 0, a);
    let commit = sub_chars(&t, a + 1, b);
    let date = sub_chars(&t, b + 1, c);
    let message = sub_chars(&t, c + 1, t.len());
    proof {
        assert(author@ =~= t@.take(a as int));
        assert(message@ =~= t@.skip(c + 1));
    }
    Some(
        GitMetadata {
            author: string_from_chars(&author),
            commit: string_from_chars(&commit),
            date: string_from_chars(&date),
            message: string_from_chars(&message),
        },
    )
}

/// The name of the stand-in file for an unmapped leak: `:` written as `_`.
pub open spec fn unmapped_file_name_spec(leak_id: Seq<char>) -> Seq<char> {
    leak_id.map_values(|c: char| if c == ':' { '_' } else { c }) + ".txt"@
}

/// The name of the stand-in file for an unmapped leak.
pub fn unmapped_file_name(leak_id: &str) -> (n: String)
    ensures
        n@ == unmapped_file_name_spec(leak_id@),
{
    let cs = chars_of(leak_id);
    let mut out: Vec<char> = Vec::new();
    let mut i: usize = 0;
    while i < cs.len()
        invariant
            i <= cs@.len(),
            cs@ == leak_id@,
            out@ == cs@.take(i as int).map_values(|c: char| if c == ':' { '_' } else { c }),
        decreases cs.len() - i,
    {
        let c = cs[i];
        out.push(if c == ':' { '_' } else { c });
        i = i + 1;
        proof {
            assert(out@ =~= cs@.take(i as int).map_values(|c: char| if c == ':' { '_' } else { c }));
        }
    }
    proof {
        assert(cs@.take(i as int) =~= cs@);
    }
    push_str(&mut out, ".txt");
    string_from_chars(&out)
}

/// The location reported when no source file was found: the stand-in
/// file, line 1, the class hint (or the leak id) as symbol, and advice.
pub fn fallback_location(file: String, class_hint: Option<&str>, leak_id: &str) -> (l: CodeLocation)
    ensures
        l.file == file,
        l.line == 1,
        l.symbol@ == (match class_hint { Some(h) => h@, None => leak_id@ }),
        l.code_snippet@ == "No matching source file found. Provide --class to improve results."@,
        l.git is None,
{
    CodeLocation {
        file,
        line: 1,
        symbol: match class_hint {
            Some(h) => h.to_string(),
            None => leak_id.to_string(),
        },
        code_snippet: "No matching source file found. Provide --class to improve results.".to_string(),
        git: None,
    }
}

/// The class hint of a request: its class name, else the class part of
/// its leak id.
pub fn class_hint(request: &MapToCodeRequest) -> (h: Option<String>)
    ensures
        match request.class_name {
            Some(c) => h == Some(c),
            None => match h {
                Some(s) => class_from_leak_id_spec(request.leak_id@) == Some(s@),
                None => class_from_leak_id_spec(request.leak_id@) is None,
            },
        },
{
    match &request.class_name {
        Some(c) => Some(c.clone()),
        None => class_from_leak_id(request.leak_id.as_str()),
    }
}

} // verus!
