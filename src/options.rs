use vstd::prelude::*;

verus! {

/// Whether a command-line word is an option rather than a positional argument.
pub open spec fn is_option_word(a: Seq<char>) -> bool {
    a.len() > 0 && a[0] == '-'
}

/// The word that switches on ignore-file filtering.
pub open spec fn gitignore_flag() -> Seq<char> {
    seq!['-', '-', 'g', 'i', 't', 'i', 'g', 'n', 'o', 'r', 'e']
}

/// The traversal root chosen by `args`: the last positional word, or `.` when there is none.
pub open spec fn root_of(args: Seq<Seq<char>>) -> Seq<char>
    decreases args.len(),
{
    if args.len() == 0 {
        seq!['.']
    } else if !is_option_word(args.last()) {
        args.last()
    } else {
        root_of(args.drop_last())
    }
}

/// Whether `args` ask for filtered traversal.
pub open spec fn gitignore_of(args: Seq<Seq<char>>) -> bool {
    exists|i: int| 0 <= i < args.len() && #[trigger] args[i] == gitignore_flag()
}

/// The view of an argument list as a sequence of character sequences.
pub open spec fn words_of(args: Seq<String>) -> Seq<Seq<char>> {
    args.map_values(|s: String| s@)
}

/// What a run of the tree printer is asked to do.
#[derive(Debug)]
pub struct TrekOptions {
    pub root: String,
    pub gitignore: bool,
}

impl TrekOptions {
    /// Reads the traversal root and the filtering switch from the command-line words.
    pub fn from_args(args: &[String]) -> (r: Self)
        ensures
            r.root@ == root_of(words_of(args@)),
            r.gitignore == gitignore_of(words_of(args@)),
    {
        let flag = String::from_str("--gitignore");
        proof {
            reveal_strlit("--gitignore");
            assert(flag@ =~= gitignore_flag());
        }
        let mut root = String::from_str(".");
        proof {
            reveal_strlit(".");
            assert(root@ =~= seq!['.']);
        }
        let mut gitignore = false;
        let mut i: usize = 0;
        while i < args.len()
            invariant
                i <= args@.len(),
                flag@ == gitignore_flag(),
                root@ == root_of(words_of(args@.subrange(0, i as int))),
                gitignore == gitignore_of(words_of(args@.subrange(0, i as int))),
            decreases args@.len() - i,
        {
            let arg = &args[i];
            let ghost before = words_of(args@.subrange(0, i as int));
            let ghost after = words_of(args@.subrange(0, i + 1));
            assert(after =~= before.push(arg@));
            if *arg == flag {
                gitignore = true;
            } else {
                let s = arg.as_str();
                let dashed = s.unicode_len() > 0 && s.get_char(0) == '-';
                if !dashed {
                    root = arg.clone();
                }
            }
            proof {
                assert(after.last() == arg@);
                assert(after.drop_last() =~= before);
                if gitignore_of(after) && !gitignore_of(before) {
                    assert(arg@ == gitignore_flag());
                }
                if arg@ == gitignore_flag() {
                    assert(after[i as int] == gitignore_flag());
                }
                if gitignore_of(before) {
                    let k = choose|k: int| 0 <= k < before.len() && #[trigger] before[k] == gitignore_flag();
                    assert(after[k] == gitignore_flag());
                }
            }
            i = i + 1;
        }
        assert(args@.subrange(0, args@.len() as int) =~= args@);
        TrekOptions { root, gitignore }
    }
}

} // verus!
