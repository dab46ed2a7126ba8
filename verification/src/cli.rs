//! The pure part of command-line handling: folding the list of arguments
//! into the folder that is to be scanned.

use vstd::prelude::*;

use crate::text::str_eq;

verus! {

/// Folding of the arguments after the program name, left to right:
/// `--folder` makes the next argument the folder, any other argument not
/// announced that way is rejected, and a trailing `--folder` leaves the
/// folder as it stands.
pub open spec fn fold_args(args: Seq<Seq<char>>, folder: Seq<char>, expecting: bool) -> Option<
    Seq<char>,
>
    decreases args.len(),
{
    if args.len() == 0 {
        Option::Some(folder)
    } else if args[0] == "--folder"@ {
        fold_args(args.drop_first(), folder, true)
    } else if expecting {
        fold_args(args.drop_first(), args[0], false)
    } else {
        Option::None
    }
}

/// The views of the argument strings.
pub open spec fn arg_views(args: Seq<String>) -> Seq<Seq<char>> {
    args.map_values(|a: String| a@)
}

/// The folder named by the arguments after the program name, with `"."` as
/// the default, or `None` when an argument is neither `--folder` nor the
/// folder it announces.
pub fn parse_args(args: &Vec<String>) -> (r: Option<String>)
    ensures
        match r {
            Option::Some(f) => fold_args(arg_views(args@), "."@, false) == Option::Some(f@),
            Option::None => fold_args(arg_views(args@), "."@, false) is None,
        },
{
    let mut folder: String = ".".to_owned();
    let mut expecting: bool = false;
    proof {
        assert(arg_views(args@).skip(0) =~= arg_views(args@));
    }
    let mut i: usize = 0;
    while i < args.len()
        invariant
            i <= args.len(),
            fold_args(arg_views(args@), "."@, false) == fold_args(
                arg_views(args@).skip(i as int),
                folder@,
                expecting,
            ),
        decreases args.len() - i,
    {
        proof {
            assert(arg_views(args@).skip(i as int)[0] == args@[i as int]@);
            assert(arg_views(args@).skip(i as int).drop_first() =~= arg_views(args@).skip(
                i as int + 1,
            ));
        }
        if str_eq(args[i].as_str(), "--folder") {
            expecting = true;
        } else if expecting {
            folder = args[i].clone();
            expecting = false;
        } else {
            return Option::None;
        }
        i = i + 1;
    }
    proof {
        assert(arg_views(args@).skip(args@.len() as int) =~= Seq::<Seq<char>>::empty());
    }
    Option::Some(folder)
}

} // verus!
