//! The command line as data, and the rewriting of what the user typed.

use vstd::prelude::*;
use crate::paths::same_str;
use crate::text::{
    append_without_spaces, back_run, chars_of, is_space, starts_with, starts_with_range,
    str_starts_with, strip_trailing, to_string, trim, trim_range, without_spaces,
};

verus! {

/// How the result of a lookup is printed.
#[derive(Debug, Copy, Clone, PartialEq, Eq, Structural)]
pub enum OutputFormat {
    Json,
    Text,
    Code,
    Structure,
}

/// What the program is asked to do.
#[derive(Debug, Clone)]
#[allow(inconsistent_fields)]
pub enum Commands {
    Find {
        class_name: String,
        format: OutputFormat,
        code_only: bool,
        version: Option<String>,
        output: Option<String>,
    },
    Load { jar_path: String },
    Warmup {
        jar_path: Option<String>,
        hot: bool,
        group: Option<String>,
        top: usize,
        limit: Option<usize>,
    },
    Index { path: Option<String> },
    Stats,
    Clear,
}

/// The command with the options that every command shares.
#[derive(Debug, Clone)]
pub struct Cli {
    pub command: Commands,
    pub m2: Option<String>,
    pub cfr: Option<String>,
    pub db: Option<String>,
}

/// Whether `a` names a command.
pub open spec fn is_subcommand(a: Seq<char>) -> bool {
    a == "find"@ || a == "load"@ || a == "warmup"@ || a == "index"@ || a == "stats"@ || a
        == "clear"@ || a == "help"@
}

/// Whether `a` is an option whose value is the next argument.
pub open spec fn takes_value(a: Seq<char>) -> bool {
    a == "--m2"@ || a == "--cfr"@ || a == "--db"@
}

/// Index of the first argument at or after `idx` that is no option: the
/// argument behind a `--`, or the first that does not start with `-` and is
/// not the value of an option before it. It is the number of arguments
/// when there is none.
pub open spec fn first_positional(args: Seq<Seq<char>>, idx: int) -> int
    decreases args.len() + 2 - idx,
{
    if idx < 0 || idx >= args.len() {
        args.len() as int
    } else if args[idx] == "--"@ {
        idx + 1
    } else if takes_value(args[idx]) {
        first_positional(args, idx + 2)
    } else if args[idx].len() > 0 && args[idx][0] == '-' {
        first_positional(args, idx + 1)
    } else {
        idx
    }
}

/// The arguments with `find` put in front of the first positional argument,
/// unless that argument names a command. The program name alone, or
/// options alone, stay as they are.
pub open spec fn with_implicit_find(args: Seq<Seq<char>>) -> Seq<Seq<char>> {
    if args.len() <= 1 {
        args
    } else {
        let i = first_positional(args, 1);
        if i < args.len() && !is_subcommand(args[i]) {
            args.insert(i, "find"@)
        } else {
            args
        }
    }
}

fn names_subcommand(a: &str) -> (r: bool)
    ensures
        r == is_subcommand(a@),
{
    same_str(a, "find") || same_str(a, "load") || same_str(a, "warmup") || same_str(a, "index")
        || same_str(a, "stats") || same_str(a, "clear") || same_str(a, "help")
}

/// Lets the user leave out `find`: a first positional argument that is no
/// command is taken as the class to find.
pub fn rewrite_args_for_implicit_find(args: Vec<String>) -> (r: Vec<String>)
    ensures
        r.deep_view() == with_implicit_find(args.deep_view()),
{
    let mut args = args;
    let ghost given = args.deep_view();
    if args.len() <= 1 {
        return args;
    }
    let n = args.len();
    let mut idx: usize = 1;
    let mut done = false;
    while idx < n && !done
        invariant
            1 <= idx <= n,
            n == args.len(),
            given == args.deep_view(),
            first_positional(given, 1) == if done {
                idx as int
            } else {
                first_positional(given, idx as int)
            },
        decreases (n - idx) + (if done { 0int } else { 1int }),
    {
        let a = args[idx].as_str();
        assert(a@ == given[idx as int]);
        if same_str(a, "--") {
            idx = idx + 1;
            done = true;
        } else if same_str(a, "--m2") || same_str(a, "--cfr") || same_str(a, "--db") {
            assert(takes_value(a@));
            assert(first_positional(given, n as int) == n);
            assert(first_positional(given, n + 1) == n);
            if n - idx >= 2 {
                idx = idx + 2;
            } else {
                idx = n;
            }
        } else if str_starts_with(a, "-") {
            proof {
                reveal_strlit("-");
                assert("-"@ =~= seq!['-']);
                if a@.len() > 0 {
                    assert(a@.subrange(0, 1) =~= seq![a@[0]]);
                    assert(seq![a@[0]][0] == a@[0]);
                }
            }
            idx = idx + 1;
        } else {
            proof {
                reveal_strlit("-");
                assert("-"@ =~= seq!['-']);
                if a@.len() > 0 && a@[0] == '-' {
                    assert(a@.subrange(0, 1) =~= seq!['-']);
                }
            }
            done = true;
        }
    }
    if idx < n {
        if !names_subcommand(args[idx].as_str()) {
            args.insert(idx, "find".to_owned());
            assert(args.deep_view() =~= given.insert(idx as int, "find"@));
        }
    }
    args
}

/// The class name in what the user typed: without `import` in front, `;`
/// at the end and any whitespace.
pub open spec fn class_name_in(raw: Seq<char>) -> Seq<char> {
    let a = trim(raw);
    let b = if starts_with(a, "import"@) {
        trim(a.skip("import"@.len() as int))
    } else {
        a
    };
    let c = if b.len() > 0 && b.last() == ';' {
        trim(strip_trailing(b, ';'))
    } else {
        b
    };
    without_spaces(c)
}

/// Takes the class name out of what the user typed, which may be a whole
/// import line.
pub fn normalize_class_name(raw: &str) -> (r: String)
    ensures
        r@ == class_name_in(raw@),
{
    let v = chars_of(raw);
    let word = chars_of("import");
    assert(v@.subrange(0, v.len() as int) =~= v@);
    let (a0, a1) = trim_range(&v, 0, v.len());
    let (b0, b1) = if starts_with_range(&v, a0, a1, &word) {
        proof {
            assert(v@.subrange(a0 as int, a1 as int).skip(word.len() as int) =~= v@.subrange(
                a0 + word.len(),
                a1 as int,
            ));
        }
        trim_range(&v, a0 + word.len(), a1)
    } else {
        (a0, a1)
    };
    let ghost b = v@.subrange(b0 as int, b1 as int);
    let (c0, c1) = if b1 > b0 && v[b1 - 1] == ';' {
        assert(b.last() == v@[b1 - 1]);
        let e = back_run(&v, b0, b1, ';');
        trim_range(&v, b0, e)
    } else {
        proof {
            if b.len() > 0 {
                assert(b.last() == v@[b1 - 1]);
            }
        }
        (b0, b1)
    };
    let mut out: Vec<char> = Vec::new();
    append_without_spaces(&mut out, &v, c0, c1);
    assert(out@ =~= without_spaces(v@.subrange(c0 as int, c1 as int)));
    to_string(&out)
}

} // verus!
