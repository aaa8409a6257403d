//! The arguments of the command line.
//!
//! The first argument is the program's name. Of the others, those up to
//! the first `--` count: one that begins with `-` is a flag, any other
//! is the path of a file to edit. The one flag there is, `-v`, raises
//! the verboseness by one each time it is given.

use vstd::prelude::*;
use vstd::utf8::encode_utf8;
use crate::modes::Via;
use crate::options::ViaOptions;

verus! {

/// The argument begins with `-`.
pub open spec fn is_flag(arg: Seq<char>) -> bool {
    encode_utf8(arg).len() > 0 && encode_utf8(arg)[0] == 45
}

/// The argument is `--`.
pub open spec fn is_end_marker(arg: Seq<char>) -> bool {
    encode_utf8(arg) == seq![45u8, 45u8]
}

/// The argument is `-v`.
pub open spec fn is_verbose_flag(arg: Seq<char>) -> bool {
    encode_utf8(arg) == seq![45u8, 118u8]
}

/// The index of the first `--` among the arguments from `from` on, or
/// the number of arguments where there is none.
pub open spec fn options_end(args: Seq<Seq<char>>, from: int) -> int
    decreases args.len() - from,
{
    if from >= args.len() {
        args.len() as int
    } else if is_end_marker(args[from]) {
        from
    } else {
        options_end(args, from + 1)
    }
}

/// The arguments that count: those behind the program's name and before
/// the first `--`.
pub open spec fn counted(args: Seq<Seq<char>>) -> Seq<Seq<char>> {
    if args.len() == 0 {
        args
    } else {
        args.subrange(1, options_end(args, 1))
    }
}

/// The paths among `args`: the arguments that are no flags, in order.
pub open spec fn paths_among(args: Seq<Seq<char>>) -> Seq<Seq<char>>
    decreases args.len(),
{
    if args.len() == 0 {
        Seq::empty()
    } else if is_flag(args.last()) {
        paths_among(args.drop_last())
    } else {
        paths_among(args.drop_last()).push(args.last())
    }
}

/// How often `-v` is among `args`.
pub open spec fn verbose_flags_among(args: Seq<Seq<char>>) -> int
    decreases args.len(),
{
    if args.len() == 0 {
        0
    } else if is_verbose_flag(args.last()) {
        verbose_flags_among(args.drop_last()) + 1
    } else {
        verbose_flags_among(args.drop_last())
    }
}

/// The first flag among `args` that is not `-v`.
pub open spec fn unknown_flag_among(args: Seq<Seq<char>>) -> Option<Seq<char>>
    decreases args.len(),
{
    if args.len() == 0 {
        None
    } else if unknown_flag_among(args.drop_last()) is Some {
        unknown_flag_among(args.drop_last())
    } else if is_flag(args.last()) && !is_verbose_flag(args.last()) {
        Some(args.last())
    } else {
        None
    }
}

/// The texts of strings.
pub open spec fn texts(strings: Seq<String>) -> Seq<Seq<char>> {
    strings.map_values(|s: String| s@)
}

/// Whether the bytes of `arg` are the two bytes `first` and `second`.
fn is_pair(arg: &String, first: u8, second: u8) -> (is: bool)
    ensures
        is == (encode_utf8(arg@) == seq![first, second]),
{
    let bytes = arg.as_str().as_bytes();
    let is = bytes.len() == 2 && bytes[0] == first && bytes[1] == second;
    proof {
        if is {
            assert(bytes@ =~= seq![first, second]);
        } else {
            let pair = seq![first, second];
            assert(pair.len() == 2 && pair[0] == first && pair[1] == second);
        }
    }
    is
}

impl Via {
    /// Reads the arguments of the command line: the paths of the files
    /// to edit, in order, and the options.
    ///
    /// Fails with the first flag that is not known, where there is one.
    /// Else the verboseness is 1 and one more for every `-v`.
    pub fn process_args(args: Vec<String>) -> (result: Result<(Vec<String>, ViaOptions), String>)
        ensures
            match (unknown_flag_among(counted(texts(args@))), result) {
                (Some(flag), Err(found)) => found@ == flag,
                (None, Ok(read)) => texts(read.0@) == paths_among(counted(texts(args@)))
                    && read.1.verboseness == 1 + verbose_flags_among(counted(texts(args@))),
                _ => false,
            },
    {
        read_args(args)
    }
}

/// Reads the arguments of the command line.
fn read_args(args: Vec<String>) -> (result: Result<(Vec<String>, ViaOptions), String>)
    ensures
        match (unknown_flag_among(counted(texts(args@))), result) {
            (Some(flag), Err(found)) => found@ == flag,
            (None, Ok(read)) => texts(read.0@) == paths_among(counted(texts(args@)))
                && read.1.verboseness == 1 + verbose_flags_among(counted(texts(args@))),
            _ => false,
        },
{
    let ghost all = texts(args@);
    let mut file_paths: Vec<String> = Vec::new();
    let mut options = ViaOptions::new();
    let mut unknown: Option<String> = None;
    let mut i: usize = 1;
    if args.len() == 0 {
        proof {
            assert(texts(file_paths@) =~= paths_among(counted(all)));
        }
        return Ok((file_paths, options));
    }
    proof {
        assert(all.subrange(1, 1) =~= Seq::<Seq<char>>::empty());
        assert(texts(file_paths@) =~= Seq::<Seq<char>>::empty());
    }
    while i < args.len()
        invariant
            1 <= i <= args.len(),
            all == texts(args@),
            options_end(all, 1) == options_end(all, i as int),
            texts(file_paths@) == paths_among(all.subrange(1, i as int)),
            options.verboseness == 1 + verbose_flags_among(all.subrange(1, i as int)),
            options.verboseness <= i,
            match unknown_flag_among(all.subrange(1, i as int)) {
                Some(flag) => unknown is Some && unknown->0@ == flag,
                None => unknown is None,
            },
        ensures
            1 <= i <= args.len(),
            i == options_end(all, 1),
            texts(file_paths@) == paths_among(all.subrange(1, i as int)),
            options.verboseness == 1 + verbose_flags_among(all.subrange(1, i as int)),
            match unknown_flag_among(all.subrange(1, i as int)) {
                Some(flag) => unknown is Some && unknown->0@ == flag,
                None => unknown is None,
            },
        decreases args.len() - i,
    {
        let arg = &args[i];
        proof {
            assert(all[i as int] == arg@);
            assert(all.subrange(1, i + 1).drop_last() =~= all.subrange(1, i as int));
            assert(all.subrange(1, i + 1).last() == arg@);
        }
        if is_pair(arg, 45, 45) {
            break ;
        }
        let bytes = arg.as_str().as_bytes();
        if bytes.len() > 0 && bytes[0] == 45 {
            if is_pair(arg, 45, 118) {
                options.verboseness = options.verboseness + 1;
            } else if unknown.is_none() {
                unknown = Some(arg.clone());
            }
        } else {
            proof {
                let pair = seq![45u8, 118u8];
                assert(pair[0] == 45);
            }
            let path = arg.clone();
            let ghost before = file_paths@;
            file_paths.push(path);
            proof {
                assert(texts(file_paths@) =~= texts(before).push(arg@));
            }
        }
        i = i + 1;
    }
    match unknown {
        Some(flag) => Err(flag),
        None => Ok((file_paths, options)),
    }
}

} // verus!
