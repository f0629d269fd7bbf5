//! The arguments of the program.

use crate::text::{optional, same, starts_with, texts};
use vstd::prelude::*;

verus! {

/// What the program is told on its command line.
pub struct CliArgs {
    /// The script to run; the interactive shell where there is none.
    pub script: Option<String>,
    /// The file that takes the output instead of the terminal.
    pub out: Option<String>,
    /// The file with which the output is compared.
    pub golden: Option<String>,
    /// Write that file instead of comparing with it.
    pub bless: bool,
}

/// What the program is told, with text as characters.
#[verifier::ext_equal]
pub struct ArgsModel {
    pub script: Option<Seq<char>>,
    pub out: Option<Seq<char>>,
    pub golden: Option<Seq<char>>,
    pub bless: bool,
}

impl View for CliArgs {
    type V = ArgsModel;

    open spec fn view(&self) -> ArgsModel {
        ArgsModel {
            script: optional(self.script),
            out: optional(self.out),
            golden: optional(self.golden),
            bless: self.bless,
        }
    }
}

impl ArgsModel {
    pub open spec fn empty() -> Self {
        ArgsModel { script: None, out: None, golden: None, bless: false }
    }

    /// What the arguments from `i` on add. An option takes the argument behind
    /// it, if there is one; the first argument that is no option is the script.
    pub open spec fn told_from(self, argv: Seq<Seq<char>>, i: int) -> Self
        decreases argv.len() - i,
    {
        if i < 0 || i >= argv.len() {
            self
        } else if argv[i] == "--out"@ {
            if i + 1 < argv.len() {
                (ArgsModel { out: Some(argv[i + 1]), ..self }).told_from(argv, i + 2)
            } else {
                self
            }
        } else if argv[i] == "--golden"@ {
            if i + 1 < argv.len() {
                (ArgsModel { golden: Some(argv[i + 1]), ..self }).told_from(argv, i + 2)
            } else {
                self
            }
        } else if argv[i] == "--bless"@ {
            (ArgsModel { bless: true, ..self }).told_from(argv, i + 1)
        } else if self.script is None && !(argv[i].len() > 0 && argv[i][0] == '-') {
            (ArgsModel { script: Some(argv[i]), ..self }).told_from(argv, i + 1)
        } else {
            self.told_from(argv, i + 1)
        }
    }
}

/// Reads the command line:
/// `<script.sql> [--out <file>] [--golden <file>] [--bless]`.
pub fn parse_args(argv: &Vec<String>) -> (r: CliArgs)
    ensures
        r@ == ArgsModel::empty().told_from(texts(argv@), 0),
{
    let ghost all = texts(argv@);
    let mut args = CliArgs { script: None, out: None, golden: None, bless: false };
    let mut i: usize = 0;
    while i < argv.len()
        invariant
            i <= argv@.len(),
            all == texts(argv@),
            ArgsModel::empty().told_from(all, 0) == args@.told_from(all, i as int),
        decreases argv@.len() - i,
    {
        let argument = argv[i].as_str();
        assert(all[i as int] == argument@);
        let last = i + 1 == argv.len();
        if same(argument, "--out") {
            if last {
                return args;
            }
            args.out = Some(argv[i + 1].clone());
            i += 1;
        } else if same(argument, "--golden") {
            if last {
                return args;
            }
            args.golden = Some(argv[i + 1].clone());
            i += 1;
        } else if same(argument, "--bless") {
            args.bless = true;
        } else {
            let dashed = starts_with(argument, "-");
            proof {
                reveal_strlit("-");
                if argument@.len() > 0 {
                    assert(argument@.subrange(0, 1) =~= seq![argument@[0]]);
                    assert("-"@ =~= seq!['-']);
                    if argument@[0] != '-' {
                        assert(argument@.subrange(0, 1)[0] != "-"@[0]);
                    }
                }
            }
            if args.script.is_none() && !dashed {
                args.script = Some(argument.to_string());
            }
        }
        i += 1;
    }
    args
}

} // verus!
