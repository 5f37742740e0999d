//! Recognising hypervisor processes and reading options off their
//! recorded launch command lines.
//!
//! A command-line option such as `-name guest=win10,arg=opt` is scanned
//! pairwise: wherever the token `argname` is followed by a value token,
//! that value's comma-separated pieces are searched for `argopt=...`; a
//! first piece that is not a `key=value` pair stands for the bare value.

use vstd::prelude::*;
use vstd::string::*;

use crate::strutil::{contains_seq, spec_split_char, split_char, str_contains, str_eq};

verus! {

/// The process name of a QEMU system emulator, or the macOS launcher.
pub open spec fn spec_is_qemu(name: Seq<char>) -> bool {
    contains_seq(name, "qemu-system-"@) || name == "QEMULauncher"@
}

/// Does this process name belong to a hypervisor we can attach to?
pub fn is_qemu(name: &str) -> (r: bool)
    ensures
        r == spec_is_qemu(name@),
{
    str_contains(name, "qemu-system-") || str_eq(name, "QEMULauncher")
}

/// One comma-separated piece after another is inspected: a `key=value`
/// piece answers when its key is `argopt`; a piece that is not such a
/// pair answers only in first position, with the whole piece.
pub open spec fn spec_kv_scan(pieces: Seq<Seq<char>>, argopt: Seq<char>, first: bool) -> Option<
    Seq<char>,
>
    decreases pieces.len(),
{
    if pieces.len() == 0 {
        None
    } else {
        let parts = spec_split_char(pieces[0], '=');
        if parts.len() == 2 && parts[0] == argopt {
            Some(parts[1])
        } else if parts.len() != 2 && first {
            Some(pieces[0])
        } else {
            spec_kv_scan(pieces.drop_first(), argopt, false)
        }
    }
}

/// The value the option field `field` gives for the key `argopt`.
pub open spec fn spec_arg_value(field: Seq<char>, argopt: Seq<char>) -> Option<Seq<char>> {
    spec_kv_scan(spec_split_char(field, ','), argopt, true)
}

/// Executable `spec_arg_value`.
fn arg_value(field: &str, argopt: &str) -> (r: Option<String>)
    ensures
        match r {
            Some(v) => spec_arg_value(field@, argopt@) == Some(v@),
            None => spec_arg_value(field@, argopt@) is None,
        },
{
    let pieces = split_char(field, ',');
    let ghost pdv = pieces.deep_view();
    let mut j: usize = 0;
    proof {
        assert(pdv.skip(0) =~~= pdv);
    }
    while j < pieces.len()
        invariant
            pdv == pieces.deep_view(),
            j <= pieces.len(),
            pieces@.len() == pdv.len(),
            spec_kv_scan(pdv.skip(j as int), argopt@, j == 0) == spec_arg_value(field@, argopt@),
        decreases pieces.len() - j,
    {
        proof {
            assert(pdv.skip(j as int)[0] == pdv[j as int]);
            assert(pdv[j as int] == pieces@[j as int]@);
        }
        let parts = split_char(pieces[j].as_str(), '=');
        proof {
            assert(parts.deep_view().len() == parts@.len());
        }
        if parts.len() == 2 {
            proof {
                assert(parts.deep_view()[0] == parts@[0 as int]@);
                assert(parts.deep_view()[1] == parts@[1 as int]@);
            }
            if str_eq(parts[0].as_str(), argopt) {
                let v = parts[1].clone();
                return Some(v);
            }
        } else if j == 0 {
            let v = pieces[0].clone();
            return Some(v);
        }
        proof {
            assert(pdv.skip(j as int).drop_first() =~~= pdv.skip(j + 1));
        }
        j += 1;
    }
    proof {
        assert(pdv.skip(j as int) =~~= Seq::<Seq<char>>::empty());
    }
    None
}

/// The pairwise scan over whitespace-split command-line tokens: every
/// token equal to `argname` is tried in turn with the token after it,
/// until one of those value tokens answers for `argopt`.
pub open spec fn spec_qemu_arg_opt(
    args: Seq<Seq<char>>,
    argname: Seq<char>,
    argopt: Seq<char>,
) -> Option<Seq<char>>
    decreases args.len(),
{
    if args.len() < 2 {
        None
    } else if args[0] == argname {
        match spec_arg_value(args[1], argopt) {
            Some(v) => Some(v),
            None => spec_qemu_arg_opt(args.drop_first(), argname, argopt),
        }
    } else {
        spec_qemu_arg_opt(args.drop_first(), argname, argopt)
    }
}

/// Reads the value of the option `argname`, key `argopt`, from the
/// tokens of a launch command line.
pub fn qemu_arg_opt(args: &Vec<String>, argname: &str, argopt: &str) -> (r: Option<String>)
    ensures
        match r {
            Some(v) => spec_qemu_arg_opt(args.deep_view(), argname@, argopt@) == Some(v@),
            None => spec_qemu_arg_opt(args.deep_view(), argname@, argopt@) is None,
        },
{
    let ghost adv = args.deep_view();
    let n = args.len();
    if n < 1 {
        return None;
    }
    let mut i: usize = 0;
    proof {
        assert(adv.skip(0) =~~= adv);
    }
    while i < n - 1
        invariant
            adv == args.deep_view(),
            n == args@.len(),
            n == adv.len(),
            n >= 1,
            i <= n,
            spec_qemu_arg_opt(adv.skip(i as int), argname@, argopt@) == spec_qemu_arg_opt(
                adv,
                argname@,
                argopt@,
            ),
        decreases n - i,
    {
        proof {
            assert(adv.skip(i as int)[0] == adv[i as int]);
            assert(adv.skip(i as int)[1] == adv[i + 1]);
            assert(adv[i as int] == args@[i as int]@);
            assert(adv[i + 1] == args@[i + 1]@);
        }
        if str_eq(args[i].as_str(), argname) {
            match arg_value(args[i + 1].as_str(), argopt) {
                Some(v) => {
                    return Some(v);
                },
                None => {},
            }
        }
        proof {
            assert(adv.skip(i as int).drop_first() =~~= adv.skip(i + 1));
        }
        i += 1;
    }
    proof {
        assert(adv.skip(i as int).len() < 2);
    }
    None
}

} // verus!
