//! The node's interactive shell: its configuration, the commands it reads
//! and the summaries it prints.
use vstd::prelude::*;
use vstd::string::*;
use crate::local_files::{FileResourceView, ResourceIndex};
use crate::text::{chars_of, push_chars, push_decimal, spec_decimal, string_from_chars};

verus! {

/// How a node runs: who it is, where the tracker is, where it serves blocks
/// and which directory it shares.
#[derive(Clone, Debug)]
pub struct NodeConfig {
    pub node_id: String,
    pub tracker: String,
    pub peer_host: String,
    pub peer_port: u16,
    pub share_dir: String,
    pub block_size: usize,
}

/// A line typed at the shell, read by its first two words.
#[derive(Clone, Debug)]
pub enum ShellCommand {
    /// `local`: list the shared files with their block counts.
    Local,
    /// `localCplt`: print the whole local index.
    LocalComplete,
    /// `update`: publish the local index to the tracker.
    Update,
    /// `list`: list the tracker's files.
    List,
    /// `download <target>`: fetch a file by digest or name.
    Download { target: String },
    /// `download` without a target.
    DownloadUsage,
    /// `offline`: tell the tracker this node leaves.
    Offline,
    /// `help`: list the commands.
    Help,
    /// `exit`: stop the node.
    Exit,
    /// Any other first word.
    Unknown { word: String },
    /// A line with no words.
    Empty,
}

/// A shell command as plain values.
pub enum ShellCommandView {
    Local,
    LocalComplete,
    Update,
    List,
    Download { target: Seq<char> },
    DownloadUsage,
    Offline,
    Help,
    Exit,
    Unknown { word: Seq<char> },
    Empty,
}

impl View for ShellCommand {
    type V = ShellCommandView;

    open spec fn view(&self) -> ShellCommandView {
        match self {
            ShellCommand::Local => ShellCommandView::Local,
            ShellCommand::LocalComplete => ShellCommandView::LocalComplete,
            ShellCommand::Update => ShellCommandView::Update,
            ShellCommand::List => ShellCommandView::List,
            ShellCommand::Download { target } => ShellCommandView::Download { target: target@ },
            ShellCommand::DownloadUsage => ShellCommandView::DownloadUsage,
            ShellCommand::Offline => ShellCommandView::Offline,
            ShellCommand::Help => ShellCommandView::Help,
            ShellCommand::Exit => ShellCommandView::Exit,
            ShellCommand::Unknown { word } => ShellCommandView::Unknown { word: word@ },
            ShellCommand::Empty => ShellCommandView::Empty,
        }
    }
}

/// A character with the Unicode White_Space property.
pub open spec fn is_white_space(c: char) -> bool {
    let v = c as int;
    (0x09 <= v <= 0x0D) || v == 0x20 || v == 0x85 || v == 0xA0 || v == 0x1680 || (0x2000 <= v
        <= 0x200A) || v == 0x2028 || v == 0x2029 || v == 0x202F || v == 0x205F || v == 0x3000
}

/// The words of a line: the maximal runs of characters without white space.
pub open spec fn spec_words(s: Seq<char>) -> Seq<Seq<char>>
    decreases s.len(),
{
    if s.len() == 0 {
        Seq::empty()
    } else {
        let t = spec_words(s.drop_last());
        let c = s.last();
        if is_white_space(c) {
            t
        } else if s.len() > 1 && !is_white_space(s[s.len() - 2]) {
            t.update(t.len() - 1, t.last().push(c))
        } else {
            t.push(seq![c])
        }
    }
}

/// What a line means to the shell, by its first word.
pub open spec fn spec_parse_command(line: Seq<char>) -> ShellCommandView {
    let w = spec_words(line);
    if w.len() == 0 {
        ShellCommandView::Empty
    } else if w[0] == "local"@ {
        ShellCommandView::Local
    } else if w[0] == "localCplt"@ {
        ShellCommandView::LocalComplete
    } else if w[0] == "update"@ {
        ShellCommandView::Update
    } else if w[0] == "list"@ {
        ShellCommandView::List
    } else if w[0] == "download"@ {
        if w.len() > 1 {
            ShellCommandView::Download { target: w[1] }
        } else {
            ShellCommandView::DownloadUsage
        }
    } else if w[0] == "offline"@ {
        ShellCommandView::Offline
    } else if w[0] == "help"@ {
        ShellCommandView::Help
    } else if w[0] == "exit"@ {
        ShellCommandView::Exit
    } else {
        ShellCommandView::Unknown { word: w[0] }
    }
}

/// Whether `c` is white space.
pub fn is_white_space_exec(c: char) -> (r: bool)
    ensures
        r == is_white_space(c),
{
    let v = c as u32;
    (0x09 <= v && v <= 0x0D) || v == 0x20 || v == 0x85 || v == 0xA0 || v == 0x1680 || (0x2000 <= v
        && v <= 0x200A) || v == 0x2028 || v == 0x2029 || v == 0x202F || v == 0x205F || v == 0x3000
}

/// The words of `line`.
pub fn split_words(line: &str) -> (r: Vec<Vec<char>>)
    ensures
        r@.map_values(|w: Vec<char>| w@) == spec_words(line@),
{
    let cs = chars_of(line);
    let mut done: Vec<Vec<char>> = Vec::new();
    let mut cur: Vec<char> = Vec::new();
    let mut i: usize = 0;
    while i < cs.len()
        invariant
            i <= cs@.len(),
            cs@ == line@,
            (if cur@.len() > 0 {
                done@.map_values(|w: Vec<char>| w@).push(cur@)
            } else {
                done@.map_values(|w: Vec<char>| w@)
            }) == spec_words(cs@.take(i as int)),
            cur@.len() > 0 <==> (i > 0 && !is_white_space(cs@[i - 1])),
        decreases cs@.len() - i,
    {
        let c = cs[i];
        let ghost dv = done@.map_values(|w: Vec<char>| w@);
        proof {
            assert(cs@.take(i + 1).drop_last() =~= cs@.take(i as int));
            assert(cs@.take(i + 1).last() == c);
            if i > 0 {
                assert(cs@.take(i + 1)[i - 1] == cs@[i - 1]);
            }
        }
        if is_white_space_exec(c) {
            if cur.len() > 0 {
                let w = cur;
                cur = Vec::new();
                done.push(w);
                assert(done@.map_values(|w: Vec<char>| w@) =~= dv.push(w@));
            }
        } else {
            let ghost old_cur = cur@;
            let had_word = cur.len() > 0;
            cur.push(c);
            if had_word {
                assert(dv.push(old_cur).update(dv.len() as int, old_cur.push(c)) =~= dv.push(cur@));
            } else {
                assert(cur@ =~= seq![c]);
            }
        }
        i = i + 1;
    }
    proof {
        assert(cs@.take(i as int) =~= cs@);
    }
    if cur.len() > 0 {
        let ghost dv = done@.map_values(|w: Vec<char>| w@);
        let w = cur;
        done.push(w);
        assert(done@.map_values(|w: Vec<char>| w@) =~= dv.push(w@));
    }
    done
}

/// Whether the characters spell `lit`.
fn word_is(w: &Vec<char>, lit: &str) -> (r: bool)
    ensures
        r == (w@ == lit@),
{
    let l = chars_of(lit);
    if w.len() != l.len() {
        return false;
    }
    let mut i: usize = 0;
    while i < w.len()
        invariant
            i <= w@.len(),
            w@.len() == l@.len(),
            l@ == lit@,
            forall|j: int| 0 <= j < i ==> w@[j] == l@[j],
        decreases w@.len() - i,
    {
        if w[i] != l[i] {
            assert(w@[i as int] != l@[i as int]);
            return false;
        }
        i = i + 1;
    }
    assert(w@ =~= l@);
    true
}

/// Reads a line typed at the shell.
pub fn parse_command(line: &str) -> (r: ShellCommand)
    ensures
        r@ == spec_parse_command(line@),
{
    let words = split_words(line);
    let ghost wv = words@.map_values(|w: Vec<char>| w@);
    if words.len() == 0 {
        return ShellCommand::Empty;
    }
    let first = &words[0];
    assert(first@ == wv[0]);
    if word_is(first, "local") {
        ShellCommand::Local
    } else if word_is(first, "localCplt") {
        ShellCommand::LocalComplete
    } else if word_is(first, "update") {
        ShellCommand::Update
    } else if word_is(first, "list") {
        ShellCommand::List
    } else if word_is(first, "download") {
        if words.len() > 1 {
            assert(words@[1]@ == wv[1]);
            ShellCommand::Download { target: string_from_chars(words[1].as_slice()) }
        } else {
            ShellCommand::DownloadUsage
        }
    } else if word_is(first, "offline") {
        ShellCommand::Offline
    } else if word_is(first, "help") {
        ShellCommand::Help
    } else if word_is(first, "exit") {
        ShellCommand::Exit
    } else {
        ShellCommand::Unknown { word: string_from_chars(first.as_slice()) }
    }
}

/// The line listing one shared file: its name and block count.
pub open spec fn spec_summary_line(r: FileResourceView) -> Seq<char> {
    r.file_name + " | "@ + spec_decimal(r.blocks.len())
}

/// What `local` prints: a note when nothing is shared, else a header and one
/// line per file.
pub open spec fn spec_scan_summary(index: Seq<FileResourceView>) -> Seq<Seq<char>> {
    if index.len() == 0 {
        seq!["No local files found."@]
    } else {
        seq!["file_name | block_count"@] + index.map_values(|r: FileResourceView| spec_summary_line(r))
    }
}

/// The lines `local` prints for the index.
pub fn scan_summary(index: &ResourceIndex) -> (r: Vec<String>)
    ensures
        r@.map_values(|s: String| s@) == spec_scan_summary(index@),
{
    let mut out: Vec<String> = Vec::new();
    if index.resources.len() == 0 {
        out.push(String::from_str("No local files found."));
        assert(out@.map_values(|s: String| s@) =~= spec_scan_summary(index@));
        return out;
    }
    out.push(String::from_str("file_name | block_count"));
    let mut i: usize = 0;
    while i < index.resources.len()
        invariant
            i <= index.resources@.len(),
            index.resources@.len() > 0,
            out@.len() == i + 1,
            out@[0]@ == "file_name | block_count"@,
            forall|j: int|
                0 <= j < i ==> #[trigger] out@[j + 1]@ == spec_summary_line(index.resources@[j]@),
        decreases index.resources@.len() - i,
    {
        let res = &index.resources[i];
        let mut line = res.file_name.clone();
        push_chars(&mut line, chars_of(" | ").as_slice());
        push_decimal(&mut line, res.blocks.len() as u64);
        assert(res@.blocks.len() == res.blocks@.len());
        out.push(line);
        i = i + 1;
    }
    proof {
        let v = out@.map_values(|s: String| s@);
        let e = spec_scan_summary(index@);
        assert(v.len() == e.len());
        assert forall|k: int| 0 <= k < v.len() implies v[k] == e[k] by {
            if k > 0 {
                assert(out@[(k - 1) + 1]@ == spec_summary_line(index.resources@[k - 1]@));
            }
        }
        assert(v =~= e);
    }
    out
}

} // verus!
