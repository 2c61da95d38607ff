//! The command line: one directory path, and an optional flag that enables
//! deleting.

use vstd::prelude::*;

verus! {

/// What the command line asks for.
#[derive(Debug)]
pub struct Args {
    /// The directory to scan.
    pub path: String,
    /// Whether the worse copy of each matched pair is to be deleted.
    pub delete: bool,
}

/// Why a command line was refused.
#[derive(Clone, Copy, Debug, PartialEq, Eq, Structural)]
pub enum UsageError {
    /// No directory was named.
    MissingPath,
    /// More than one directory was named.
    ExtraArgument,
}

/// Whether an argument is the flag that enables deleting.
pub open spec fn is_delete_flag(arg: Seq<char>) -> bool {
    arg == "--delete"@ || arg == "-d"@
}

/// The arguments that are not the flag, in their order.
pub open spec fn positionals(args: Seq<Seq<char>>) -> Seq<Seq<char>>
    decreases args.len(),
{
    if args.len() == 0 {
        Seq::empty()
    } else if is_delete_flag(args.last()) {
        positionals(args.drop_last())
    } else {
        positionals(args.drop_last()).push(args.last())
    }
}

/// Whether the flag occurs among the arguments.
pub open spec fn has_delete_flag(args: Seq<Seq<char>>) -> bool {
    exists|i: int| 0 <= i < args.len() && is_delete_flag(#[trigger] args[i])
}

/// The arguments as sequences of characters.
pub open spec fn texts(args: Seq<String>) -> Seq<Seq<char>> {
    args.map_values(|arg: String| arg@)
}

/// Reads the arguments that follow the program's name.
///
/// Succeeds exactly when one argument besides the flag is given: that one
/// is the path. The flag may stand anywhere and any number of times.
pub fn parse_args(args: &Vec<String>) -> (parsed: Result<Args, UsageError>)
    ensures
        match parsed {
            Ok(found) => {
                &&& positionals(texts(args@)).len() == 1
                &&& found.path@ == positionals(texts(args@))[0]
                &&& found.delete == has_delete_flag(texts(args@))
            },
            Err(UsageError::MissingPath) => positionals(texts(args@)).len() == 0,
            Err(UsageError::ExtraArgument) => positionals(texts(args@)).len() >= 2,
        },
{
    let long_flag = String::from_str("--delete");
    let short_flag = String::from_str("-d");
    let ghost all = texts(args@);
    let mut path: Option<String> = None;
    let mut extra: bool = false;
    let mut delete: bool = false;
    let mut i: usize = 0;
    assert(all.take(0) =~= Seq::<Seq<char>>::empty());
    while i < args.len()
        invariant
            0 <= i <= args@.len(),
            all == texts(args@),
            long_flag@ == "--delete"@,
            short_flag@ == "-d"@,
            delete == has_delete_flag(all.take(i as int)),
            match path {
                Some(first) => positionals(all.take(i as int)).len() >= 1 && first@ == positionals(
                    all.take(i as int),
                )[0],
                None => positionals(all.take(i as int)).len() == 0,
            },
            extra == (positionals(all.take(i as int)).len() >= 2),
        decreases args@.len() - i,
    {
        let arg = &args[i];
        let ghost before = all.take(i as int);
        let ghost now = all.take(i + 1);
        proof {
            assert(now.drop_last() =~= before);
            assert(now.last() == arg@);
        }
        if *arg == long_flag || *arg == short_flag {
            proof {
                assert(is_delete_flag(now[i as int]));
            }
            delete = true;
        } else {
            proof {
                if has_delete_flag(now) {
                    let j = choose|j: int| 0 <= j < now.len() && is_delete_flag(#[trigger] now[j]);
                    assert(is_delete_flag(before[j]));
                }
                if has_delete_flag(before) {
                    let j = choose|j: int|
                        0 <= j < before.len() && is_delete_flag(#[trigger] before[j]);
                    assert(is_delete_flag(now[j]));
                }
            }
            match path {
                Some(_) => {
                    extra = true;
                },
                None => {
                    path = Some(arg.clone());
                },
            }
        }
        proof {
            if is_delete_flag(arg@) {
                if has_delete_flag(before) {
                    let j = choose|j: int|
                        0 <= j < before.len() && is_delete_flag(#[trigger] before[j]);
                    assert(is_delete_flag(now[j]));
                }
            }
        }
        i = i + 1;
    }
    assert(all.take(i as int) =~= all);
    match path {
        None => Err(UsageError::MissingPath),
        Some(first) => if extra {
            Err(UsageError::ExtraArgument)
        } else {
            Ok(Args { path: first, delete })
        },
    }
}

} // verus!
