//! Log file bookkeeping: the paths the log files live at, and the pure
//! manipulations around them — paging already-gathered lines, naming the
//! traces file of a day, and shaping a recorded trace line. Reading and
//! writing the files themselves is the caller's filesystem work.

use vstd::prelude::*;

verus! {

/// Holds path to the log file.
pub struct Log(pub String);

/// Holds paths to the log files.
pub struct Logs {
    pub info: Log,
    pub traces: Log,
}

/// The page of `lines` that starts `offset` entries in and holds at most
/// `count` entries; both bounds are clamped to what is there.
pub open spec fn page_of(lines: Seq<Seq<char>>, offset: int, count: int) -> Seq<Seq<char>> {
    let o = if offset <= lines.len() {
        offset
    } else {
        lines.len() as int
    };
    let e = if o + count <= lines.len() {
        o + count
    } else {
        lines.len() as int
    };
    lines.subrange(o, e)
}

/// Pages already-gathered log lines, newest first as given: `offset`
/// entries are skipped and at most `count` are taken.
pub fn latest_page(lines: &Vec<String>, offset: usize, count: usize) -> (r: Vec<String>)
    ensures
        r.deep_view() == page_of(lines.deep_view(), offset as int, count as int),
{
    let len = lines.len();
    let start = if offset < len {
        offset
    } else {
        len
    };
    let avail = len - start;
    let take_n = if count < avail {
        count
    } else {
        avail
    };
    let end = start + take_n;
    let mut out: Vec<String> = Vec::new();
    let mut i: usize = start;
    while i < end
        invariant
            start <= i <= end,
            end <= lines@.len(),
            out@.len() == i - start,
            forall|j: int| 0 <= j < i - start ==> out@[j]@ == lines@[start + j]@,
        decreases end - i,
    {
        out.push(lines[i].clone());
        i = i + 1;
    }
    proof {
        assert(out.deep_view() =~= page_of(lines.deep_view(), offset as int, count as int));
    }
    out
}

/// The file the traces of one day are recorded in: the traces directory
/// followed by the day's name.
pub fn traces_file_path(dir: &str, name: &str) -> (r: String)
    ensures
        r@ == dir@ + "/"@ + name@,
{
    let mut s = dir.to_owned();
    s.append("/");
    s.append(name);
    s
}

/// One recorded trace line: the trailing character — the newline — is
/// replaced by a comma and a newline, so the recorded file reads as a
/// sequence of entries.
pub fn comma_terminated(line: &str) -> (r: String)
    ensures
        line@.len() > 0 ==> r@ == line@.take(line@.len() - 1) + ",\n"@,
        line@.len() == 0 ==> r@ == ",\n"@,
{
    let n = line.unicode_len();
    let mut s: String = if n > 0 {
        line.substring_char(0, n - 1).to_owned()
    } else {
        String::new()
    };
    s.append(",\n");
    proof {
        if line@.len() == 0 {
            assert(s@ =~= ",\n"@);
        }
    }
    s
}

} // verus!
