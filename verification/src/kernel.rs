//! A notebook kernel run as a separate process: where its files live, the
//! script that runs it, and reading back what it printed. Starting and
//! stopping the process, and the files themselves, are left to the caller.

use vstd::prelude::*;

use vstd::string::StringExecFns;

use crate::text::{
    chars_equal, chars_of, decimal_chars, decimal_digits, index_of_from, lemma_next_index_of,
    lemma_next_index_shift, next_index_of, parse_unsigned, parse_unsigned_chars, string_from_chars, trim_chars, trimmed,
};

verus! {

/// The directories of kernels are this followed by the kernel's id.
pub const KERNEL_DIR_PREFIX: &'static str = "/tmp/helix-kernel-";

/// The line the kernel prints after each result.
pub const COMPLETION_MARKER: &'static str = "__COMPLETE__";

/// The runner script up to the path of the input file.
pub const RUNNER_HEAD: &'static str = "# Helix Kernel Runner - REPL-style\nconst input_file = \"";

/// The runner script between the paths of the input and output files.
pub const RUNNER_MIDDLE: &'static str = "\"\nconst output_file = \"";

/// The runner script after the path of the output file: it waits for the
/// input file, evaluates it as the REPL does with both output streams in the
/// output file, then appends the completion marker on a line of its own and
/// touches the output file's `.done` flag.
pub const RUNNER_TAIL: &'static str = "\"\nconst marker = \"__COMPLETE__\"\n\nprintln(stderr, \"Kernel ready (REPL mode)\")\n\nwhile true\n    if isfile(input_file)\n        code = read(input_file, String)\n        try\n            rm(input_file)\n        catch\n            # Input file already deleted, continue\n        end\n\n        # Clear output and remove completion flag\n        write(output_file, \"\")\n        flush(stdout)\n        isfile(output_file * \".done\") && rm(output_file * \".done\")\n\n        # Execute and capture output like REPL\n        open(output_file, \"w\") do io\n            # Redirect both stdout and stderr\n            redirect_stdout(io) do\n                redirect_stderr(io) do\n                    try\n                        # Parse and evaluate code\n                        result = include_string(Main, code)\n\n                        # Print result if not nothing (REPL behavior)\n                        if result !== nothing\n                            println(io, result)\n                        end\n                    catch e\n                        showerror(io, e, catch_backtrace())\n                    end\n                end\n            end\n        end\n\n        # Append completion marker (with newline separator)\n        open(output_file, \"a\") do io\n            println(io)  # Ensure newline before marker\n            println(io, marker)\n        end\n\n        # Create completion flag file for event-based notification\n        touch(output_file * \".done\")\n    end\n    sleep(0.1)\nend\n";

/// The path of the file `name` in the directory `dir`.
pub open spec fn path_in(dir: Seq<char>, name: Seq<char>) -> Seq<char> {
    dir + seq!['/'] + name
}

/// The lines of `s`, as `str::lines` splits them: at each `\n`, with a
/// `\r` right before it dropped too, and no empty line after a final `\n`.
pub open spec fn text_lines(s: Seq<char>) -> Seq<Seq<char>>
    decreases s.len(),
{
    if s.len() == 0 {
        Seq::empty()
    } else {
        let end = next_index_of(s, '\n', 0);
        if end >= s.len() {
            seq![s]
        } else {
            let line = s.take(end);
            let line = if end > 0 && line.last() == '\r' {
                line.drop_last()
            } else {
                line
            };
            proof {
                lemma_next_index_of(s, '\n', 0);
            }
            seq![line] + text_lines(s.skip(end + 1))
        }
    }
}

/// The lines `lines` joined with `\n` between them.
pub open spec fn joined_lines(lines: Seq<Seq<char>>) -> Seq<char>
    decreases lines.len(),
{
    if lines.len() == 0 {
        Seq::empty()
    } else if lines.len() == 1 {
        lines[0]
    } else {
        joined_lines(lines.drop_last()) + seq!['\n'] + lines.last()
    }
}

/// The lines of `lines` that are not `marker`, in order.
pub open spec fn lines_without(lines: Seq<Seq<char>>, marker: Seq<char>) -> Seq<Seq<char>>
    decreases lines.len(),
{
    if lines.len() == 0 {
        lines
    } else if lines.last() == marker {
        lines_without(lines.drop_last(), marker)
    } else {
        lines_without(lines.drop_last(), marker).push(lines.last())
    }
}

/// No line that is left is the marker.
pub proof fn lemma_lines_without_marker(lines: Seq<Seq<char>>, marker: Seq<char>)
    ensures
        forall|i: int| 0 <= i < lines_without(lines, marker).len() ==> #[trigger] lines_without(lines, marker)[i] != marker,
    decreases lines.len(),
{
    if lines.len() > 0 {
        lemma_lines_without_marker(lines.drop_last(), marker);
        let before = lines_without(lines.drop_last(), marker);
        if lines.last() != marker {
            assert forall|i: int| 0 <= i < lines_without(lines, marker).len() implies #[trigger] lines_without(
                lines,
                marker,
            )[i] != marker by {
                if i < before.len() {
                    assert(lines_without(lines, marker)[i] == before[i]);
                }
            }
        }
    }
}

/// Information about a running kernel process.
#[derive(Debug, Clone)]
pub struct KernelInfo {
    pub kernel_id: u32,
    pub lang: String,
    pub kernel_dir: String,
    pub input_file: String,
    pub output_file: String,
    pub pid: u32,
}

/// Manages one kernel process: its directory and language.
#[derive(Debug)]
pub struct KernelManager {
    kernel_dir: String,
    lang: String,
}

impl KernelManager {
    /// The directory of the kernel's files.
    pub closed spec fn dir(&self) -> Seq<char> {
        self.kernel_dir@
    }

    /// The language the kernel runs.
    pub closed spec fn language(&self) -> Seq<char> {
        self.lang@
    }

    /// A manager of the kernel `kernel_id` for the language `lang`, whose
    /// files live in `/tmp/helix-kernel-<kernel_id>`.
    pub fn new(lang: &str, kernel_id: u32) -> (r: KernelManager)
        ensures
            r.dir() == KERNEL_DIR_PREFIX@ + decimal_digits(kernel_id as nat),
            r.language() == lang@,
    {
        let mut kernel_dir = KERNEL_DIR_PREFIX.to_owned();
        let digits = decimal_chars(kernel_id as u64);
        let id = string_from_chars(digits.as_slice());
        kernel_dir.append(id.as_str());
        KernelManager { kernel_dir, lang: lang.to_owned() }
    }

    /// The directory of the kernel's files.
    pub fn kernel_dir(&self) -> (r: &str)
        ensures
            r@ == self.dir(),
    {
        self.kernel_dir.as_str()
    }

    /// The language the kernel runs.
    pub fn lang(&self) -> (r: &str)
        ensures
            r@ == self.language(),
    {
        self.lang.as_str()
    }

    /// The path of the file `name` in the kernel's directory.
    pub fn file(&self, name: &str) -> (r: String)
        ensures
            r@ == path_in(self.dir(), name@),
    {
        let mut path = self.kernel_dir.clone();
        path.append("/");
        path.append(name);
        proof {
            reveal_strlit("/");
        }
        path
    }

    /// The Julia script that runs the kernel: it waits for code in
    /// `input_file`, runs it, and writes what it prints to `output_file`,
    /// followed by the completion marker on a line of its own.
    pub fn create_runner_script(&self, input_file: &str, output_file: &str) -> (r: String)
        ensures
            r@ == RUNNER_HEAD@ + input_file@ + RUNNER_MIDDLE@ + output_file@ + RUNNER_TAIL@,
    {
        let mut script = RUNNER_HEAD.to_owned();
        script.append(input_file);
        script.append(RUNNER_MIDDLE);
        script.append(output_file);
        script.append(RUNNER_TAIL);
        script
    }

    /// What is known of the kernel once it runs as process `pid`, with its
    /// input and output files in its directory. The id recorded is always 1.
    pub fn info(&self, pid: u32) -> (r: KernelInfo)
        ensures
            r.kernel_id == 1,
            r.lang@ == self.language(),
            r.kernel_dir@ == self.dir(),
            r.input_file@ == path_in(self.dir(), "input.jl"@),
            r.output_file@ == path_in(self.dir(), "output.txt"@),
            r.pid == pid,
    {
        KernelInfo {
            kernel_id: 1,
            lang: self.lang.clone(),
            kernel_dir: self.kernel_dir.clone(),
            input_file: self.file("input.jl"),
            output_file: self.file("output.txt"),
            pid,
        }
    }
}

/// The process id written in a kernel's pid file: its contents, trimmed,
/// read as a `u32`.
pub fn parse_pid(contents: &str) -> (r: Option<u32>)
    ensures
        match r {
            Some(pid) => parse_unsigned(trimmed(contents@), u32::MAX as nat) == Some(pid as nat),
            None => parse_unsigned(trimmed(contents@), u32::MAX as nat) is None,
        },
{
    let chars = chars_of(contents);
    let trimmed_chars = trim_chars(chars.as_slice());
    match parse_unsigned_chars(trimmed_chars.as_slice(), u32::MAX as u64) {
        Some(v) => Some(v as u32),
        None => None,
    }
}

/// The lines of `s` from index `from`, as `str::lines` splits them.
fn lines_from(s: &[char], from: usize) -> (r: Vec<Vec<char>>)
    requires
        from <= s@.len(),
    ensures
        r@.map_values(|l: Vec<char>| l@) == text_lines(s@.skip(from as int)),
    decreases s@.len() - from,
{
    let ghost rest = s@.skip(from as int);
    if from == s.len() {
        proof {
            assert(rest.len() == 0);
            assert(Seq::<Vec<char>>::empty().map_values(|l: Vec<char>| l@) =~= Seq::<Seq<char>>::empty());
        }
        return Vec::new();
    }
    let end = index_of_from(s, '\n', from);
    proof {
        lemma_next_index_of(s@, '\n', from as int);
        lemma_next_index_of(rest, '\n', 0);
        lemma_next_index_shift(s@, '\n', from as int, 0);
    }
    let mut line: Vec<char> = Vec::new();
    let mut i = from;
    while i < end
        invariant
            from <= i <= end <= s@.len(),
            line@ == s@.subrange(from as int, i as int),
        decreases end - i,
    {
        line.push(s[i]);
        proof {
            assert(line@ =~= s@.subrange(from as int, i + 1));
        }
        i = i + 1;
    }
    if end == s.len() {
        proof {
            assert(line@ =~= rest);
            assert(seq![line].map_values(|l: Vec<char>| l@) =~= seq![rest]);
        }
        let mut r: Vec<Vec<char>> = Vec::new();
        r.push(line);
        return r;
    }
    let ghost whole = line@;
    if end > from && line[line.len() - 1] == '\r' {
        line.pop();
    }
    let tail = lines_from(s, end + 1);
    proof {
        assert(whole =~= rest.take(end - from));
        assert(s@.skip(end + 1) =~= rest.skip(end - from + 1));
    }
    let mut r: Vec<Vec<char>> = Vec::new();
    r.push(line);
    let ghost first = r@;
    let mut tail = tail;
    r.append(&mut tail);
    proof {
        assert(r@.map_values(|l: Vec<char>| l@) =~= seq![line@] + text_lines(s@.skip(end + 1)));
    }
    r
}

/// What the kernel printed, without the completion marker's lines: the
/// lines of `output` that are not exactly `__COMPLETE__`, joined with `\n`.
pub fn output_without_marker(output: &str) -> (r: String)
    ensures
        r@ == joined_lines(lines_without(text_lines(output@), COMPLETION_MARKER@)),
{
    let chars = chars_of(output);
    let lines = lines_from(chars.as_slice(), 0);
    proof {
        assert(chars@.skip(0) =~= chars@);
    }
    let ghost all = lines@.map_values(|l: Vec<char>| l@);
    let marker = chars_of(COMPLETION_MARKER);
    let mut kept_lines: Vec<&Vec<char>> = Vec::new();
    let mut out: Vec<char> = Vec::new();
    let mut count: usize = 0;
    let mut i: usize = 0;
    while i < lines.len()
        invariant
            i <= lines@.len(),
            all == lines@.map_values(|l: Vec<char>| l@),
            marker@ == COMPLETION_MARKER@,
            out@ == joined_lines(lines_without(all.take(i as int), marker@)),
            count == lines_without(all.take(i as int), marker@).len(),
            count <= i,
        decreases lines@.len() - i,
    {
        let line = &lines[i];
        proof {
            assert(all.take(i + 1).drop_last() =~= all.take(i as int));
            assert(all.take(i + 1).last() == line@);
        }
        if !chars_equal(line.as_slice(), marker.as_slice()) {
            let ghost before = lines_without(all.take(i as int), marker@);
            if count > 0 {
                out.push('\n');
            }
            let mut j: usize = 0;
            let ghost start = out@;
            while j < line.len()
                invariant
                    j <= line@.len(),
                    out@ == start + line@.take(j as int),
                decreases line@.len() - j,
            {
                out.push(line[j]);
                proof {
                    assert(out@ =~= start + line@.take(j + 1));
                }
                j = j + 1;
            }
            proof {
                assert(line@.take(j as int) =~= line@);
                let after = before.push(line@);
                assert(after.drop_last() =~= before);
                if count == 0 {
                    assert(before.len() == 0);
                    assert(out@ =~= line@);
                } else {
                    assert(out@ =~= joined_lines(before) + seq!['\n'] + line@);
                }
            }
            count = count + 1;
        }
        i = i + 1;
    }
    proof {
        assert(all.take(i as int) =~= all);
    }
    string_from_chars(out.as_slice())
}

/// How long a run of code may take before it is given up, in nanoseconds:
/// thirty seconds.
pub const EXECUTION_TIMEOUT_NANOS: u64 = 30_000_000_000u64;

/// How long to wait between looks for the completion flag, in
/// milliseconds.
pub const POLL_INTERVAL_MILLIS: u64 = 100u64;

/// What to do next while waiting for the result of a run.
#[derive(Clone, Copy, Debug, PartialEq, Eq, Structural)]
pub enum WaitAction {
    /// The completion flag is there: read the output.
    ReadOutput,
    /// The run took too long: give up.
    TimedOut,
    /// Wait this many milliseconds and look again.
    Sleep(u64),
}

/// The next step of waiting for a run's result, given whether the
/// completion flag is there and how long the wait has taken so far, in
/// nanoseconds: read once the flag is there, give up once the wait has
/// taken longer than [`EXECUTION_TIMEOUT_NANOS`], and otherwise wait
/// [`POLL_INTERVAL_MILLIS`].
pub fn next_wait_action(done: bool, elapsed_nanos: u64) -> (r: WaitAction)
    ensures
        r == (if done {
            WaitAction::ReadOutput
        } else if elapsed_nanos > EXECUTION_TIMEOUT_NANOS {
            WaitAction::TimedOut
        } else {
            WaitAction::Sleep(POLL_INTERVAL_MILLIS)
        }),
{
    if done {
        WaitAction::ReadOutput
    } else if elapsed_nanos > EXECUTION_TIMEOUT_NANOS {
        WaitAction::TimedOut
    } else {
        WaitAction::Sleep(POLL_INTERVAL_MILLIS)
    }
}

} // verus!
